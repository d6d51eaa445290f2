//! Recipes and their one-line text form.
pub mod grammar;
pub mod parser;
pub mod roundtrip;
pub use parser::flatten_recipe;
pub use parser::parse_recipes;
pub use parser::ParseError;

use crate::number;
use crate::number::decimal_text;
use crate::order;
use crate::protocol::copy_actions;
use crate::protocol::ActionDef;
use crate::protocol::ActionView;
use crate::text;
use crate::text::join_text;
use vstd::prelude::*;

verus! {

/// A named pizza recipe parsed from a .recipes file or received via `recipe_answer`.
///
/// `source` is the canonical single-line form of the recipe, ready to be sent verbatim in a
/// `RecipeAnswer` message.
///
/// Example source: `"Pepperoni = MakeDough -> AddBase(base_type=tomato) -> Bake(duration=6)"`
#[derive(Debug, PartialEq, Eq)]
pub struct Recipe {
    pub name: String,
    pub steps: Vec<Step>,
    /// Canonical single-line form, regenerated from `steps` after parsing.
    pub source: String,
}

/// What a [`Recipe`] holds.
#[verifier::ext_equal]
pub struct RecipeView {
    pub name: Seq<char>,
    pub steps: Seq<StepView>,
    pub source: Seq<char>,
}

impl View for Recipe {
    type V = RecipeView;

    open spec fn view(&self) -> RecipeView {
        RecipeView { name: self.name@, steps: text::views(self.steps@), source: self.source@ }
    }
}

impl Clone for Recipe {
    fn clone(&self) -> (r: Self)
        ensures
            r@ == self@,
    {
        let mut steps: Vec<Step> = Vec::new();
        for i in 0..self.steps.len()
            invariant
                steps@.len() == i,
                forall|j: int| 0 <= j < i ==> (#[trigger] steps@[j])@ == self.steps@[j]@,
        {
            steps.push(self.steps[i].clone());
        }
        assert(text::views(steps@) =~= text::views(self.steps@));
        Recipe { name: self.name.clone(), steps, source: self.source.clone() }
    }
}

/// One step in a recipe.
///
/// Steps are sequential. Parallel groups several actions in the same step. Repeated expands the
/// same action N times when flattened.
#[derive(Debug, PartialEq, Eq)]
pub enum Step {
    /// A single action: `AddBase(base_type=tomato)`
    Single(ActionDef),
    /// Two or more concurrent actions: `[AddCheese(amount=2), AddBasil(leaves=3)]`
    Parallel(Vec<ActionDef>),
    /// The same action repeated N times: `AddCheese(amount=1)^4`
    Repeated(ActionDef, u32),
}

/// What a [`Step`] holds.
#[verifier::ext_equal]
pub enum StepView {
    Single(ActionView),
    Parallel(Seq<ActionView>),
    Repeated(ActionView, u32),
}

impl View for Step {
    type V = StepView;

    open spec fn view(&self) -> StepView {
        match self {
            Step::Single(a) => StepView::Single(a@),
            Step::Parallel(actions) => StepView::Parallel(text::views(actions@)),
            Step::Repeated(a, n) => StepView::Repeated(a@, *n),
        }
    }
}

impl Clone for Step {
    fn clone(&self) -> (r: Self)
        ensures
            r@ == self@,
    {
        match self {
            Step::Single(a) => Step::Single(a.clone()),
            Step::Parallel(actions) => Step::Parallel(copy_actions(actions)),
            Step::Repeated(a, n) => Step::Repeated(a.clone(), *n),
        }
    }
}

// ── Text form ────────────────────────────────────────────────────────────────

/// A parameter as `key=value`.
pub open spec fn pair_dsl(key: Seq<char>, value: Seq<char>) -> Seq<char> {
    key + seq!['='] + value
}

/// The parameters as `key=value`, in ascending order of the keys.
pub open spec fn pairs_dsl(params: Map<Seq<char>, Seq<char>>) -> Seq<Seq<char>> {
    let keys = order::sorted(params.dom());
    Seq::new(keys.len(), |i: int| pair_dsl(keys[i], params[keys[i]]))
}

/// An action as `name`, or `name(key=value,key=value)` where it has parameters.
pub open spec fn action_dsl(a: ActionView) -> Seq<char> {
    if a.params == Map::<Seq<char>, Seq<char>>::empty() {
        a.name
    } else {
        a.name + seq!['('] + text::join(pairs_dsl(a.params), seq![',']) + seq![')']
    }
}

/// The text forms of some actions.
pub open spec fn actions_dsl(actions: Seq<ActionView>) -> Seq<Seq<char>> {
    Seq::new(actions.len(), |i: int| action_dsl(actions[i]))
}

/// A step as `action`, `[action, action]` or `action^count`.
pub open spec fn step_dsl(step: StepView) -> Seq<char> {
    match step {
        StepView::Single(a) => action_dsl(a),
        StepView::Parallel(actions) => seq!['['] + text::join(actions_dsl(actions), seq![',', ' '])
            + seq![']'],
        StepView::Repeated(a, n) => action_dsl(a) + seq!['^'] + number::decimal(n as nat),
    }
}

/// The text forms of some steps.
pub open spec fn steps_dsl(steps: Seq<StepView>) -> Seq<Seq<char>> {
    Seq::new(steps.len(), |i: int| step_dsl(steps[i]))
}

/// A recipe as `name = step -> step`.
pub open spec fn recipe_dsl(name: Seq<char>, steps: Seq<StepView>) -> Seq<char> {
    name + seq![' ', '=', ' '] + text::join(steps_dsl(steps), seq![' ', '-', '>', ' '])
}

impl Recipe {
    /// Builds the canonical single-line form from the name and the steps.
    ///
    /// `Recipe { name: "Pepperoni", steps: [Single(MakeDough), Single(AddBase{tomato})] }` gives
    /// `"Pepperoni = MakeDough -> AddBase(base_type=tomato)"`.
    pub fn to_dsl_string(&self) -> (r: String)
        ensures
            r@ == recipe_dsl(self@.name, self@.steps),
    {
        let mut parts: Vec<String> = Vec::new();
        for i in 0..self.steps.len()
            invariant
                parts@.len() == i,
                forall|j: int| 0 <= j < i ==> (#[trigger] parts@[j])@ == step_dsl(self.steps@[j]@),
        {
            parts.push(step_to_dsl(&self.steps[i]));
        }
        assert(text::views(parts@) =~= steps_dsl(self@.steps));
        proof {
            reveal_strlit(" -> ");
            reveal_strlit(" = ");
            assert(" -> "@ =~= seq![' ', '-', '>', ' ']);
            assert(" = "@ =~= seq![' ', '=', ' ']);
        }
        let steps = join_text(&parts, " -> ");
        let mut out = self.name.clone();
        out.append(" = ");
        out.append(steps.as_str());
        out
    }
}

/// The text form of a step.
pub fn step_to_dsl(step: &Step) -> (r: String)
    ensures
        r@ == step_dsl(step@),
{
    match step {
        Step::Single(a) => action_to_dsl(a),
        Step::Parallel(actions) => {
            let mut parts: Vec<String> = Vec::new();
            for i in 0..actions.len()
                invariant
                    parts@.len() == i,
                    forall|j: int|
                        0 <= j < i ==> (#[trigger] parts@[j])@ == action_dsl(actions@[j]@),
            {
                parts.push(action_to_dsl(&actions[i]));
            }
            assert(text::views(parts@) =~= actions_dsl(text::views(actions@)));
            proof {
                reveal_strlit(", ");
                assert(", "@ =~= seq![',', ' ']);
            }
            let inner = join_text(&parts, ", ");
            let mut out = String::new();
            out.push('[');
            out.append(inner.as_str());
            out.push(']');
            assert(out@ =~= step_dsl(step@));
            out
        },
        Step::Repeated(a, n) => {
            let mut out = action_to_dsl(a);
            out.push('^');
            let count = decimal_text(*n as u128);
            out.append(count.as_str());
            assert(out@ =~= step_dsl(step@));
            out
        },
    }
}

/// The text form of an action, with its parameters in ascending order of the keys.
pub fn action_to_dsl(action: &ActionDef) -> (r: String)
    ensures
        r@ == action_dsl(action@),
{
    if action.params.is_empty() {
        return action.name.clone();
    }
    let mut parts: Vec<String> = Vec::new();
    let count: usize = action.params.len();
    let ghost keys = order::sorted(action.params@.dom());
    for i in 0..count
        invariant
            keys == order::sorted(action.params@.dom()),
            count == keys.len(),
            parts@.len() == i,
            forall|j: int|
                0 <= j < i ==> (#[trigger] parts@[j])@ == pair_dsl(keys[j], action.params@[keys[j]]),
    {
        let mut pair = action.params.key_at(i).clone();
        pair.push('=');
        pair.append(action.params.value_at(i).as_str());
        assert(pair@ =~= pair_dsl(keys[i as int], action.params@[keys[i as int]]));
        parts.push(pair);
    }
    assert(text::views(parts@) =~= pairs_dsl(action.params@));
    proof {
        reveal_strlit(",");
        assert(","@ =~= seq![',']);
    }
    let inner = join_text(&parts, ",");
    let mut out = action.name.clone();
    out.push('(');
    out.append(inner.as_str());
    out.push(')');
    assert(out@ =~= action_dsl(action@));
    out
}

} // verus!
