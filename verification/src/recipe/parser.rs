//! The recipe grammar.
use crate::number;
use crate::number::digits_only;
use crate::number::parse_u32;
use crate::protocol::ActionDef;
use crate::protocol::ActionView;
use crate::recipe;
use crate::recipe::Recipe;
use crate::recipe::RecipeView;
use crate::recipe::Step;
use crate::recipe::StepView;
use crate::string_map::StringMap;
use crate::text;
use crate::text::cut_text;
use crate::text::find_char;
use crate::text::find_last_char;
use crate::text::replace;
use crate::text::split_text;
use crate::text::to_chars;
use crate::text::to_text;
use crate::text::trim;
use crate::text_facts;
use vstd::prelude::*;
use vstd::slice::slice_subrange;

verus! {

// ── Errors ───────────────────────────────────────────────────────────────────

/// Why a text is not a list of recipes.
#[derive(Debug, PartialEq, Eq)]
pub enum ParseError {
    /// A recipe block did not contain a `=` separating name from steps.
    MissingEquals,
    /// The recipe name (left of `=`) was empty.
    EmptyName,
    /// A recipe block had a name but contained no step lines.
    NoSteps { recipe: String },
    /// A step had unmatched or missing brackets, or fewer than two actions between them.
    UnmatchedBracket { step: usize },
    /// A repeat suffix `^N` was missing or non-positive.
    InvalidRepeat { step: usize },
    /// A parameter token did not contain `=`.
    MalformedParam { token: String },
}

/// What a [`ParseError`] holds.
#[verifier::ext_equal]
pub enum ParseErrorView {
    MissingEquals,
    EmptyName,
    NoSteps { recipe: Seq<char> },
    UnmatchedBracket { step: int },
    InvalidRepeat { step: int },
    MalformedParam { token: Seq<char> },
}

impl View for ParseError {
    type V = ParseErrorView;

    open spec fn view(&self) -> ParseErrorView {
        match self {
            ParseError::MissingEquals => ParseErrorView::MissingEquals,
            ParseError::EmptyName => ParseErrorView::EmptyName,
            ParseError::NoSteps { recipe } => ParseErrorView::NoSteps { recipe: recipe@ },
            ParseError::UnmatchedBracket { step } => ParseErrorView::UnmatchedBracket {
                step: *step as int,
            },
            ParseError::InvalidRepeat { step } => ParseErrorView::InvalidRepeat {
                step: *step as int,
            },
            ParseError::MalformedParam { token } => ParseErrorView::MalformedParam { token: token@ },
        }
    }
}

/// The message of a parse error.
pub open spec fn parse_error_text(e: ParseErrorView) -> Seq<char> {
    match e {
        ParseErrorView::MissingEquals => "recipe block is missing '='"@,
        ParseErrorView::EmptyName => "recipe name is empty"@,
        ParseErrorView::NoSteps { recipe } => "recipe '"@ + recipe + "' has no steps"@,
        ParseErrorView::UnmatchedBracket { step } => "step "@ + number::decimal(step as nat)
            + ": unmatched '[' or ']' in parallel step"@,
        ParseErrorView::InvalidRepeat { step } => "step "@ + number::decimal(step as nat)
            + ": invalid or zero repeat count after '^'"@,
        ParseErrorView::MalformedParam { token } => "malformed parameter '"@ + token
            + "': expected key=value"@,
    }
}

impl ParseError {
    /// The message of the error.
    pub fn message(&self) -> (r: String)
        ensures
            r@ == parse_error_text(self@),
    {
        match self {
            ParseError::MissingEquals => "recipe block is missing '='".to_string(),
            ParseError::EmptyName => "recipe name is empty".to_string(),
            ParseError::NoSteps { recipe } => {
                "recipe '".to_string().concat(recipe.as_str()).concat("' has no steps")
            },
            ParseError::UnmatchedBracket { step } => {
                let n = crate::number::decimal_text(*step as u128);
                "step ".to_string().concat(n.as_str()).concat(
                    ": unmatched '[' or ']' in parallel step",
                )
            },
            ParseError::InvalidRepeat { step } => {
                let n = crate::number::decimal_text(*step as u128);
                "step ".to_string().concat(n.as_str()).concat(
                    ": invalid or zero repeat count after '^'",
                )
            },
            ParseError::MalformedParam { token } => {
                "malformed parameter '".to_string().concat(token.as_str()).concat(
                    "': expected key=value",
                )
            },
        }
    }
}

// ── Grammar ──────────────────────────────────────────────────────────────────

/// How many parentheses are open at the end of `s`. A closing one with none open does not count.
pub open spec fn depth(s: Seq<char>) -> nat
    decreases s.len(),
{
    if s.len() == 0 {
        0
    } else {
        let d = depth(s.drop_last());
        if s.last() == '(' {
            d + 1
        } else if s.last() == ')' && d > 0 {
            (d - 1) as nat
        } else {
            d
        }
    }
}

/// The pieces of `s` between the commas that stand outside all parentheses.
pub open spec fn top_pieces(s: Seq<char>) -> Seq<Seq<char>>
    decreases s.len(),
{
    if s.len() == 0 {
        seq![seq![]]
    } else {
        let front = top_pieces(s.drop_last());
        if s.last() == ',' && depth(s.drop_last()) == 0 {
            front.push(seq![])
        } else {
            front.drop_last().push(front.last().push(s.last()))
        }
    }
}

/// The tokens of a list of actions: trimmed, and without an empty one at the end.
pub open spec fn action_tokens(s: Seq<char>) -> Seq<Seq<char>> {
    let tokens = top_pieces(s).map_values(|p: Seq<char>| text::trimmed(p));
    if tokens.last().len() == 0 {
        tokens.drop_last()
    } else {
        tokens
    }
}

/// The parameters that the tokens `key=value` stand for. Of two with the same key the later one
/// counts.
pub open spec fn params_of(tokens: Seq<Seq<char>>) -> Result<
    Map<Seq<char>, Seq<char>>,
    ParseErrorView,
>
    decreases tokens.len(),
{
    if tokens.len() == 0 {
        Ok(Map::empty())
    } else {
        match params_of(tokens.drop_last()) {
            Err(e) => Err(e),
            Ok(m) => {
                let token = text::trimmed(tokens.last());
                match token.index_of_first('=') {
                    None => Err(ParseErrorView::MalformedParam { token }),
                    Some(i) => Ok(
                        m.insert(text::trimmed(token.take(i)), text::trimmed(token.skip(i + 1))),
                    ),
                }
            },
        }
    }
}

/// What a comma-separated parameter list stands for.
pub open spec fn spec_params(s: Seq<char>) -> Result<Map<Seq<char>, Seq<char>>, ParseErrorView> {
    if text::trimmed(s).len() == 0 {
        Ok(Map::empty())
    } else {
        params_of(text::split(s, seq![',']))
    }
}

/// What `name` or `name(params)` stands for.
pub open spec fn spec_action(body: Seq<char>, step: int) -> Result<ActionView, ParseErrorView> {
    match body.index_of_first('(') {
        None => Ok(ActionView { name: text::trimmed(body), params: Map::empty() }),
        Some(open) => match body.index_of_last(')') {
            None => Err(ParseErrorView::UnmatchedBracket { step }),
            Some(close) => if close < open {
                Err(ParseErrorView::UnmatchedBracket { step })
            } else {
                match spec_params(body.subrange(open + 1, close)) {
                    Err(e) => Err(e),
                    Ok(params) => Ok(ActionView { name: text::trimmed(body.take(open)), params }),
                }
            },
        },
    }
}

/// What the tokens of a list of actions stand for; the first error counts.
pub open spec fn actions_of(tokens: Seq<Seq<char>>, step: int) -> Result<
    Seq<ActionView>,
    ParseErrorView,
>
    decreases tokens.len(),
{
    if tokens.len() == 0 {
        Ok(seq![])
    } else {
        match actions_of(tokens.drop_last(), step) {
            Err(e) => Err(e),
            Ok(actions) => match spec_action(tokens.last(), step) {
                Err(e) => Err(e),
                Ok(a) => Ok(actions.push(a)),
            },
        }
    }
}

/// What `[action, action]` stands for. There must be two actions at least.
pub open spec fn spec_parallel(body: Seq<char>, step: int) -> Result<StepView, ParseErrorView> {
    if body.len() < 2 || body[0] != '[' || body.last() != ']' {
        Err(ParseErrorView::UnmatchedBracket { step })
    } else {
        let tokens = action_tokens(body.subrange(1, body.len() - 1)).filter(
            |t: Seq<char>| t.len() > 0,
        );
        match actions_of(tokens, step) {
            Err(e) => Err(e),
            Ok(actions) => if actions.len() < 2 {
                Err(ParseErrorView::UnmatchedBracket { step })
            } else {
                Ok(StepView::Parallel(actions))
            },
        }
    }
}

/// At `i` stands a `^` outside all parentheses.
pub open spec fn is_outer_caret(body: Seq<char>, i: int) -> bool {
    &&& 0 <= i < body.len()
    &&& body[i] == '^'
    &&& depth(body.take(i)) == 0
}

/// At `i` stands a `^` outside all parentheses with nothing but digits, at least one, behind it.
pub open spec fn is_repeat_caret(body: Seq<char>, i: int) -> bool {
    &&& is_outer_caret(body, i)
    &&& i < body.len() - 1
    &&& number::all_digits(body.skip(i + 1))
}

/// Somewhere stands a `^` that introduces a repeat count.
pub open spec fn has_repeat_caret(body: Seq<char>) -> bool {
    exists|i: int| is_repeat_caret(body, i)
}

/// At `i` stands a `^` outside all parentheses with no parenthesis behind it: the start of a repeat
/// suffix. A `^` before the parameters of an action is part of its name.
pub open spec fn is_suffix_caret(body: Seq<char>, i: int) -> bool {
    &&& is_outer_caret(body, i)
    &&& forall|j: int| i < j < body.len() ==> !is_parenthesis(#[trigger] body[j])
}

/// The step ends in a repeat suffix, with or without a count.
pub open spec fn ends_in_suffix(body: Seq<char>) -> bool {
    exists|i: int| is_suffix_caret(body, i)
}

/// An opening or a closing parenthesis.
pub open spec fn is_parenthesis(c: char) -> bool {
    c == '(' || c == ')'
}

/// What `action^count` with the `^` at `caret` stands for, whatever character that is. The count must be a positive number.
pub open spec fn spec_repeated(body: Seq<char>, caret: int, step: int) -> Result<
    StepView,
    ParseErrorView,
> {
    match number::u32_value(body.skip(caret + 1)) {
        None => Err(ParseErrorView::InvalidRepeat { step }),
        Some(count) => if count == 0 {
            Err(ParseErrorView::InvalidRepeat { step })
        } else {
            match spec_action(text::trimmed(body.take(caret)), step) {
                Err(e) => Err(e),
                Ok(a) => Ok(StepView::Repeated(a, count)),
            }
        },
    }
}

/// What one step stands for. A repeat suffix must hold a count.
pub open spec fn spec_step(body: Seq<char>, step: int) -> Result<StepView, ParseErrorView> {
    if body.len() > 0 && body[0] == '[' {
        spec_parallel(body, step)
    } else if exists|i: int| is_repeat_caret(body, i) {
        spec_repeated(body, choose|i: int| is_repeat_caret(body, i), step)
    } else if ends_in_suffix(body) {
        Err(ParseErrorView::InvalidRepeat { step })
    } else {
        match spec_action(body, step) {
            Err(e) => Err(e),
            Ok(a) => Ok(StepView::Single(a)),
        }
    }
}

/// What the bodies of steps stand for, counted from one; the first error counts.
pub open spec fn steps_of(bodies: Seq<Seq<char>>) -> Result<Seq<StepView>, ParseErrorView>
    decreases bodies.len(),
{
    if bodies.len() == 0 {
        Ok(seq![])
    } else {
        match steps_of(bodies.drop_last()) {
            Err(e) => Err(e),
            Ok(steps) => match spec_step(bodies.last(), bodies.len() as int) {
                Err(e) => Err(e),
                Ok(s) => Ok(steps.push(s)),
            },
        }
    }
}

/// What one recipe block `name = step -> step` stands for.
pub open spec fn spec_recipe(block: Seq<char>) -> Result<RecipeView, ParseErrorView> {
    match block.index_of_first('=') {
        None => Err(ParseErrorView::MissingEquals),
        Some(eq) => {
            let name = text::trimmed(block.take(eq));
            let bodies = text::pieces(block.skip(eq + 1), seq!['-', '>']);
            if name.len() == 0 {
                Err(ParseErrorView::EmptyName)
            } else if bodies.len() == 0 {
                Err(ParseErrorView::NoSteps { recipe: name })
            } else {
                match steps_of(bodies) {
                    Err(e) => Err(e),
                    Ok(steps) => Ok(
                        RecipeView { name, steps, source: recipe::recipe_dsl(name, steps) },
                    ),
                }
            }
        },
    }
}

/// What some recipe blocks stand for; the first error counts.
pub open spec fn recipes_of(blocks: Seq<Seq<char>>) -> Result<Seq<RecipeView>, ParseErrorView>
    decreases blocks.len(),
{
    if blocks.len() == 0 {
        Ok(seq![])
    } else {
        match recipes_of(blocks.drop_last()) {
            Err(e) => Err(e),
            Ok(recipes) => match spec_recipe(blocks.last()) {
                Err(e) => Err(e),
                Ok(r) => Ok(recipes.push(r)),
            },
        }
    }
}

/// The input with line ends made uniform, cut at blank lines.
pub open spec fn blocks(input: Seq<char>) -> Seq<Seq<char>> {
    text::pieces(text::replaced(input, seq!['\r', '\n'], seq!['\n']), seq!['\n', '\n'])
}

/// What the content of a `.recipes` file stands for.
pub open spec fn spec_recipes(input: Seq<char>) -> Result<Seq<RecipeView>, ParseErrorView> {
    recipes_of(blocks(input))
}

// ── Parsing ──────────────────────────────────────────────────────────────────

/// An error that met the front of a list meets the whole list.
proof fn lemma_recipes_prefix(all: Seq<Seq<char>>, k: int)
    requires
        0 <= k <= all.len(),
        recipes_of(all.take(k)) is Err,
    ensures
        recipes_of(all) == recipes_of(all.take(k)),
    decreases all.len() - k,
{
    if k == all.len() {
        assert(all.take(k) =~= all);
    } else {
        assert(all.take(k + 1).drop_last() =~= all.take(k));
        lemma_recipes_prefix(all, k + 1);
    }
}

proof fn lemma_steps_prefix(all: Seq<Seq<char>>, k: int)
    requires
        0 <= k <= all.len(),
        steps_of(all.take(k)) is Err,
    ensures
        steps_of(all) == steps_of(all.take(k)),
    decreases all.len() - k,
{
    if k == all.len() {
        assert(all.take(k) =~= all);
    } else {
        assert(all.take(k + 1).drop_last() =~= all.take(k));
        lemma_steps_prefix(all, k + 1);
    }
}

proof fn lemma_actions_prefix(all: Seq<Seq<char>>, step: int, k: int)
    requires
        0 <= k <= all.len(),
        actions_of(all.take(k), step) is Err,
    ensures
        actions_of(all, step) == actions_of(all.take(k), step),
    decreases all.len() - k,
{
    if k == all.len() {
        assert(all.take(k) =~= all);
    } else {
        assert(all.take(k + 1).drop_last() =~= all.take(k));
        lemma_actions_prefix(all, step, k + 1);
    }
}

proof fn lemma_params_prefix(all: Seq<Seq<char>>, k: int)
    requires
        0 <= k <= all.len(),
        params_of(all.take(k)) is Err,
    ensures
        params_of(all) == params_of(all.take(k)),
    decreases all.len() - k,
{
    if k == all.len() {
        assert(all.take(k) =~= all);
    } else {
        assert(all.take(k + 1).drop_last() =~= all.take(k));
        lemma_params_prefix(all, k + 1);
    }
}

/// Parses a comma-separated parameter list `"key=value, key=value"`.
///
/// - `"slices=12,duration=6"` gives `{"slices": "12", "duration": "6"}`
/// - `""` gives no parameters
/// - `"bad"` gives `MalformedParam { token: "bad" }`
pub fn parse_params(params: &[char]) -> (r: Result<StringMap<String>, ParseError>)
    ensures
        match r {
            Ok(m) => spec_params(params@) == Ok::<_, ParseErrorView>(m@),
            Err(e) => spec_params(params@) == Err::<Map<Seq<char>, Seq<char>>, _>(e@),
        },
{
    let mut map: StringMap<String> = StringMap::new();
    if trim(params).len() == 0 {
        return Ok(map);
    }
    let comma: [char; 1] = [','];
    assert(comma@ =~= seq![',']);
    let tokens = split_text(params, &comma);
    let ghost all = text::split(params@, seq![',']);
    for i in 0..tokens.len()
        invariant
            all == text::split(params@, seq![',']),
            text::views(tokens@) == all,
            params_of(all.take(i as int)) == Ok::<_, ParseErrorView>(map@),
            text::trimmed(params@).len() > 0,
    {
        assert(all[i as int] == tokens@[i as int]@);
        assert(all.take(i + 1).drop_last() =~= all.take(i as int));
        let token = trim(tokens[i]);
        match find_char(token, '=') {
            None => {
                proof {
                    lemma_params_prefix(all, i + 1);
                }
                return Err(ParseError::MalformedParam { token: to_text(token) });
            },
            Some(eq) => {
                proof {
                    token@.index_of_first_ensures('=');
                }
                let end: usize = token.len();
                let left = slice_subrange(token, 0, eq);
                let right = slice_subrange(token, eq + 1, end);
                assert(left@ =~= token@.take(eq as int));
                assert(right@ =~= token@.skip(eq + 1));
                let key = to_text(trim(left));
                let value = to_text(trim(right));
                map.insert(key, value);
            },
        }
    }
    assert(all.take(all.len() as int) =~= all);
    Ok(map)
}

/// Parses a single action `"Name"` or `"Name(key=value, key=value)"`.
///
/// - `"MakeDough"` gives `MakeDough` without parameters
/// - `"AddBase(base_type=tomato)"` gives `AddBase` with `{"base_type": "tomato"}`
/// - `"AddBase(bad_param)"` gives `MalformedParam { token: "bad_param" }`
pub fn parse_action(body: &[char], step_idx: usize) -> (r: Result<ActionDef, ParseError>)
    ensures
        match r {
            Ok(a) => spec_action(body@, step_idx as int) == Ok::<_, ParseErrorView>(a@),
            Err(e) => spec_action(body@, step_idx as int) == Err::<ActionView, _>(e@),
        },
{
    match find_char(body, '(') {
        None => Ok(ActionDef { name: to_text(trim(body)), params: StringMap::new() }),
        Some(open) => {
            proof {
                body@.index_of_first_ensures('(');
                body@.index_of_last_ensures(')');
            }
            let front = slice_subrange(body, 0, open);
            assert(front@ =~= body@.take(open as int));
            match find_last_char(body, ')') {
                None => Err(ParseError::UnmatchedBracket { step: step_idx }),
                Some(close) => {
                    if close < open {
                        return Err(ParseError::UnmatchedBracket { step: step_idx });
                    }
                    let inner = slice_subrange(body, open + 1, close);
                    match parse_params(inner) {
                        Err(e) => Err(e),
                        Ok(params) => Ok(ActionDef { name: to_text(trim(front)), params }),
                    }
                },
            }
        },
    }
}

/// Splits a comma-separated list of action tokens. Commas inside `(...)` do not separate.
///
/// `"A(x=1,y=2), B"` gives `["A(x=1,y=2)", "B"]`.
pub fn split_parallel_actions(s: &[char]) -> (r: Vec<String>)
    ensures
        text::views(r@) == action_tokens(s@),
{
    let mut tokens: Vec<String> = Vec::new();
    let mut current: Vec<char> = Vec::new();
    let mut open: usize = 0;
    let ghost trimmed = |p: Seq<char>| text::trimmed(p);
    assert(s@.take(0) =~= seq![]);
    assert(text::views(tokens@) =~= top_pieces(s@.take(0)).drop_last().map_values(trimmed));
    for i in 0..s.len()
        invariant
            trimmed == (|p: Seq<char>| text::trimmed(p)),
            open == depth(s@.take(i as int)),
            open <= i,
            top_pieces(s@.take(i as int)).len() > 0,
            current@ == top_pieces(s@.take(i as int)).last(),
            text::views(tokens@) == top_pieces(s@.take(i as int)).drop_last().map_values(trimmed),
    {
        let c = s[i];
        let ghost front = top_pieces(s@.take(i as int));
        let ghost next = top_pieces(s@.take(i + 1));
        assert(s@.take(i + 1).drop_last() =~= s@.take(i as int));
        assert(s@.take(i + 1).last() == c);
        if c == ',' && open == 0 {
            let ghost was = text::views(tokens@);
            tokens.push(to_text(trim(current.as_slice())));
            assert(text::views(tokens@) =~= was.push(text::trimmed(current@)));
            assert(next.drop_last() =~= front);
            assert(front =~= front.drop_last().push(front.last()));
            assert(front.map_values(trimmed) =~= front.drop_last().map_values(trimmed).push(
                text::trimmed(front.last()),
            ));
            current = Vec::new();
        } else {
            current.push(c);
            assert(next.drop_last() =~= front.drop_last());
        }
        if c == '(' {
            open = open + 1;
        } else if c == ')' && open > 0 {
            open = open - 1;
        }
    }
    assert(s@.take(s@.len() as int) =~= s@);
    let ghost all = top_pieces(s@);
    assert(all =~= all.drop_last().push(all.last()));
    assert(all.map_values(trimmed) =~= all.drop_last().map_values(trimmed).push(
        text::trimmed(all.last()),
    ));
    assert(all.map_values(trimmed).drop_last() =~= all.drop_last().map_values(trimmed));
    let last = trim(current.as_slice());
    if last.len() > 0 {
        let ghost was = text::views(tokens@);
        tokens.push(to_text(last));
        assert(text::views(tokens@) =~= was.push(last@));
    }
    tokens
}

/// Parses a parallel step `"[ActionA(...), ActionB(...)]"` of two or more actions.
pub fn parse_parallel_step(body: &[char], step_idx: usize) -> (r: Result<Step, ParseError>)
    ensures
        match r {
            Ok(s) => spec_parallel(body@, step_idx as int) == Ok::<_, ParseErrorView>(s@),
            Err(e) => spec_parallel(body@, step_idx as int) == Err::<StepView, _>(e@),
        },
{
    let n: usize = body.len();
    if n < 2 || body[0] != '[' || body[n - 1] != ']' {
        return Err(ParseError::UnmatchedBracket { step: step_idx });
    }
    let inner = slice_subrange(body, 1, n - 1);
    let tokens = split_parallel_actions(inner);
    let ghost step = step_idx as int;
    let ghost keep = |t: Seq<char>| t.len() > 0;
    let ghost all = action_tokens(inner@);
    let ghost kept = all.filter(keep);
    let mut actions: Vec<ActionDef> = Vec::new();
    assert(all.take(0).filter(keep) =~= seq![]) by {
        reveal(Seq::filter);
    }
    assert(text::views(actions@) =~= seq![]);
    for i in 0..tokens.len()
        invariant
            step == step_idx as int,
            keep == (|t: Seq<char>| t.len() > 0),
            text::views(tokens@) == all,
            all == action_tokens(inner@),
            kept == all.filter(keep),
            inner@ == body@.subrange(1, body@.len() - 1),
            n == body@.len(),
            n >= 2 && body@[0] == '[' && body@[n - 1] == ']',
            actions_of(all.take(i as int).filter(keep), step) == Ok::<_, ParseErrorView>(
                text::views(actions@),
            ),
    {
        assert(all[i as int] == tokens@[i as int]@);
        let ghost part = all.take(i as int).filter(keep);
        let token = to_chars(tokens[i].as_str());
        assert(all.take(i + 1) =~= all.take(i as int).push(token@));
        proof {
            all.take(i as int).lemma_filter_push(token@, keep);
        }
        if token.len() > 0 {
            let ghost was = text::views(actions@);
            assert(part.push(token@).drop_last() =~= part);
            match parse_action(token.as_slice(), step_idx) {
                Err(e) => {
                    proof {
                        lemma_filter_take(all, keep, i + 1);
                        lemma_actions_prefix(kept, step, part.len() as int + 1);
                    }
                    return Err(e);
                },
                Ok(a) => {
                    actions.push(a);
                    assert(text::views(actions@) =~= was.push(a@));
                },
            }
        }
    }
    assert(all.take(all.len() as int) =~= all);
    if actions.len() < 2 {
        return Err(ParseError::UnmatchedBracket { step: step_idx });
    }
    Ok(Step::Parallel(actions))
}

/// What is kept of the front of a list is the front of what is kept of the list.
proof fn lemma_filter_take<T>(all: Seq<T>, keep: spec_fn(T) -> bool, k: int)
    requires
        0 <= k <= all.len(),
    ensures
        all.take(k).filter(keep).len() <= all.filter(keep).len(),
        all.filter(keep).take(all.take(k).filter(keep).len() as int) == all.take(k).filter(keep),
{
    assert(all =~= all.take(k) + all.skip(k));
    Seq::<T>::filter_distributes_over_add(all.take(k), all.skip(k), keep);
    assert(all.filter(keep).take(all.take(k).filter(keep).len() as int) =~= all.take(k).filter(
        keep,
    ));
}

/// There is at most one `^` that introduces a repeat count.
pub proof fn lemma_repeat_caret_unique(body: Seq<char>, i: int, j: int)
    requires
        is_repeat_caret(body, i),
        is_repeat_caret(body, j),
    ensures
        i == j,
{
    if i < j {
        assert(body.skip(i + 1)[j - i - 1] == body[j]);
        assert(number::is_digit(body.skip(i + 1)[j - i - 1]));
    } else if j < i {
        assert(body.skip(j + 1)[i - j - 1] == body[i]);
        assert(number::is_digit(body.skip(j + 1)[i - j - 1]));
    }
}

/// Finds the position of the `^` that introduces a repeat count.
///
/// - `"AddCheese(amount=1)^4"` gives `Some(19)`
/// - `"AddOliveOil"` gives `None`
/// - `"Bad^"` (no digits) gives `None`
pub fn find_repeat_caret(body: &[char]) -> (r: Option<usize>)
    ensures
        match r {
            Some(i) => is_repeat_caret(body@, i as int),
            None => forall|i: int| !is_repeat_caret(body@, i),
        },
        r is Some == has_repeat_caret(body@),
{
    let mut open: usize = 0;
    let n: usize = body.len();
    assert(body@.take(0) =~= seq![]);
    for i in 0..n
        invariant
            n == body@.len(),
            open == depth(body@.take(i as int)),
            open <= i,
            forall|j: int| 0 <= j < i ==> !is_repeat_caret(body@, j),
    {
        let c = body[i];
        assert(body@.take(i + 1).drop_last() =~= body@.take(i as int));
        if c == '(' {
            open = open + 1;
        } else if c == ')' {
            if open > 0 {
                open = open - 1;
            }
        } else if c == '^' && open == 0 {
            let suffix = slice_subrange(body, i + 1, n);
            assert(suffix@ =~= body@.skip(i + 1));
            if suffix.len() > 0 && digits_only(suffix) {
                assert(is_repeat_caret(body@, i as int));
                return Some(i);
            }
        }
    }
    None
}

/// A `^` outside all parentheses starts a repeat suffix, and a parenthesis ends it.
proof fn lemma_suffix_push(s: Seq<char>, c: char)
    ensures
        ends_in_suffix(s.push(c)) == (if c == '^' && depth(s) == 0 {
            true
        } else {
            ends_in_suffix(s) && !is_parenthesis(c)
        }),
{
    let t = s.push(c);
    let n = s.len() as int;
    assert(t[n] == c);
    assert(t.take(n) =~= s);
    if c == '^' && depth(s) == 0 {
        assert(is_suffix_caret(t, n));
    } else {
        if ends_in_suffix(s) && !is_parenthesis(c) {
            let i = choose|i: int| is_suffix_caret(s, i);
            assert(t.take(i) =~= s.take(i));
            assert forall|j: int| i < j < t.len() implies !is_parenthesis(#[trigger] t[j]) by {
                if j < n {
                    assert(t[j] == s[j]);
                }
            }
            assert(is_suffix_caret(t, i));
        }
        if ends_in_suffix(t) {
            let i = choose|i: int| is_suffix_caret(t, i);
            assert(i < n);
            assert(t.take(i) =~= s.take(i));
            assert forall|j: int| i < j < n implies !is_parenthesis(#[trigger] s[j]) by {
                assert(t[j] == s[j]);
            }
            assert(is_suffix_caret(s, i));
        }
    }
}

/// Whether the step ends in a repeat suffix, with or without a count.
pub fn has_repeat_suffix(body: &[char]) -> (r: bool)
    ensures
        r == ends_in_suffix(body@),
{
    let mut open: usize = 0;
    let mut found: bool = false;
    assert(body@.take(0) =~= seq![]);
    for i in 0..body.len()
        invariant
            open == depth(body@.take(i as int)),
            open <= i,
            found == ends_in_suffix(body@.take(i as int)),
    {
        let c = body[i];
        assert(body@.take(i + 1).drop_last() =~= body@.take(i as int));
        assert(body@.take(i + 1) =~= body@.take(i as int).push(c));
        proof {
            lemma_suffix_push(body@.take(i as int), c);
        }
        if c == '^' && open == 0 {
            found = true;
        } else if c == '(' {
            found = false;
            open = open + 1;
        } else if c == ')' {
            found = false;
            if open > 0 {
                open = open - 1;
            }
        }
    }
    assert(body@.take(body@.len() as int) =~= body@);
    found
}

/// Parses a repeated step `"Action(...)^N"` whose `^` stands at `caret_pos`.
///
/// What follows that position must be a positive number that fits in 32 bits; otherwise the result is
/// `InvalidRepeat`, whatever stands before it.
pub fn parse_repeated_step(body: &[char], caret_pos: usize, step_idx: usize) -> (r: Result<
    Step,
    ParseError,
>)
    requires
        caret_pos < body@.len(),
    ensures
        match r {
            Ok(s) => spec_repeated(body@, caret_pos as int, step_idx as int) == Ok::<
                _,
                ParseErrorView,
            >(s@),
            Err(e) => spec_repeated(body@, caret_pos as int, step_idx as int) == Err::<StepView, _>(
                e@,
            ),
        },
{
    let n: usize = body.len();
    let front = slice_subrange(body, 0, caret_pos);
    let digits = slice_subrange(body, caret_pos + 1, n);
    assert(front@ =~= body@.take(caret_pos as int));
    assert(digits@ =~= body@.skip(caret_pos + 1));
    match parse_u32(digits) {
        None => Err(ParseError::InvalidRepeat { step: step_idx }),
        Some(count) => {
            if count == 0 {
                return Err(ParseError::InvalidRepeat { step: step_idx });
            }
            match parse_action(trim(front), step_idx) {
                Err(e) => Err(e),
                Ok(a) => Ok(Step::Repeated(a, count)),
            }
        },
    }
}

/// Parses one step.
///
/// - `"MakeDough"` and `"AddBase(base_type=tomato)"` give `Single`
/// - `"[AddCheese(amount=2), AddBasil(leaves=3)]"` gives `Parallel`
/// - `"AddCheese(amount=1)^4"` gives `Repeated`
/// - `"AddCheese^"` gives `InvalidRepeat`, since the count is missing
/// - `"Half^2(x=1)"` gives `Single`, since the `^` is part of the name
pub fn parse_step(body: &[char], step_idx: usize) -> (r: Result<Step, ParseError>)
    ensures
        match r {
            Ok(s) => spec_step(body@, step_idx as int) == Ok::<_, ParseErrorView>(s@),
            Err(e) => spec_step(body@, step_idx as int) == Err::<StepView, _>(e@),
        },
{
    if body.len() > 0 && body[0] == '[' {
        return parse_parallel_step(body, step_idx);
    }
    match find_repeat_caret(body) {
        Some(caret) => {
            proof {
                lemma_repeat_caret_unique(
                    body@,
                    caret as int,
                    choose|i: int| is_repeat_caret(body@, i),
                );
            }
            parse_repeated_step(body, caret, step_idx)
        },
        None => {
            if has_repeat_suffix(body) {
                return Err(ParseError::InvalidRepeat { step: step_idx });
            }
            match parse_action(body, step_idx) {
                Err(e) => Err(e),
                Ok(a) => Ok(Step::Single(a)),
            }
        },
    }
}

/// Parses a single recipe block.
///
/// Accepts both the multi-line file format and the flat single-line wire format: both are cut
/// at `->`.
pub fn parse_recipe(block: &[char]) -> (r: Result<Recipe, ParseError>)
    ensures
        match r {
            Ok(x) => spec_recipe(block@) == Ok::<_, ParseErrorView>(x@),
            Err(e) => spec_recipe(block@) == Err::<RecipeView, _>(e@),
        },
{
    match find_char(block, '=') {
        None => Err(ParseError::MissingEquals),
        Some(eq) => {
            proof {
                block@.index_of_first_ensures('=');
            }
            let n: usize = block.len();
            let left = slice_subrange(block, 0, eq);
            let right = slice_subrange(block, eq + 1, n);
            assert(left@ =~= block@.take(eq as int));
            assert(right@ =~= block@.skip(eq + 1));
            let name = trim(left);
            if name.len() == 0 {
                return Err(ParseError::EmptyName);
            }
            let arrow: [char; 2] = ['-', '>'];
            assert(arrow@ =~= seq!['-', '>']);
            let bodies = cut_text(right, &arrow);
            if bodies.len() == 0 {
                assert(text::views(bodies@).len() == 0);
                return Err(ParseError::NoSteps { recipe: to_text(name) });
            }
            let ghost all = text::views(bodies@);
            let mut steps: Vec<Step> = Vec::new();
            assert(text::views(steps@) =~= seq![]);
            for i in 0..bodies.len()
                invariant
                    all == text::views(bodies@),
                    all == text::pieces(block@.skip(eq + 1), seq!['-', '>']),
                    block@.index_of_first('=') == Some(eq as int),
                    name@ == text::trimmed(block@.take(eq as int)),
                    name@.len() > 0,
                    all.len() > 0,
                    steps_of(all.take(i as int)) == Ok::<_, ParseErrorView>(text::views(steps@)),
            {
                assert(all[i as int] == bodies@[i as int]@);
                assert(all.take(i + 1).drop_last() =~= all.take(i as int));
                let ghost was = text::views(steps@);
                match parse_step(bodies[i], i + 1) {
                    Err(e) => {
                        proof {
                            lemma_steps_prefix(all, i + 1);
                        }
                        return Err(e);
                    },
                    Ok(s) => {
                        steps.push(s);
                        assert(text::views(steps@) =~= was.push(s@));
                    },
                }
            }
            assert(all.take(all.len() as int) =~= all);
            let bare = Recipe { name: to_text(name), steps, source: String::new() };
            let source = bare.to_dsl_string();
            Ok(Recipe { name: bare.name, steps: bare.steps, source })
        },
    }
}

/// Parses all recipes from the content of a `.recipes` file.
///
/// There is one recipe per block, in file order; blocks are separated by blank lines. Where some
/// block is wrong, the first error is returned.
pub fn parse_recipes(input: &str) -> (r: Result<Vec<Recipe>, ParseError>)
    ensures
        match r {
            Ok(recipes) => spec_recipes(input@) == Ok::<_, ParseErrorView>(text::views(recipes@)),
            Err(e) => spec_recipes(input@) == Err::<Seq<RecipeView>, _>(e@),
        },
{
    let chars = to_chars(input);
    let windows: [char; 2] = ['\r', '\n'];
    let newline: [char; 1] = ['\n'];
    let blank: [char; 2] = ['\n', '\n'];
    assert(windows@ =~= seq!['\r', '\n']);
    assert(newline@ =~= seq!['\n']);
    assert(blank@ =~= seq!['\n', '\n']);
    let uniform = replace(chars.as_slice(), &windows, &newline);
    let cuts = cut_text(uniform.as_slice(), &blank);
    let ghost all = text::views(cuts@);
    let mut recipes: Vec<Recipe> = Vec::new();
    assert(text::views(recipes@) =~= seq![]);
    for i in 0..cuts.len()
        invariant
            all == text::views(cuts@),
            all == blocks(input@),
            recipes_of(all.take(i as int)) == Ok::<_, ParseErrorView>(text::views(recipes@)),
    {
        assert(all[i as int] == cuts@[i as int]@);
        assert(all.take(i + 1).drop_last() =~= all.take(i as int));
        let ghost was = text::views(recipes@);
        match parse_recipe(cuts[i]) {
            Err(e) => {
                proof {
                    lemma_recipes_prefix(all, i + 1);
                }
                return Err(e);
            },
            Ok(x) => {
                recipes.push(x);
                assert(text::views(recipes@) =~= was.push(x@));
            },
        }
    }
    assert(all.take(all.len() as int) =~= all);
    Ok(recipes)
}

/// An outcome for some recipes and then one for others: the recipes in order, or the first error.
pub open spec fn followed_by(
    first: Result<Seq<RecipeView>, ParseErrorView>,
    second: Result<Seq<RecipeView>, ParseErrorView>,
) -> Result<Seq<RecipeView>, ParseErrorView> {
    match first {
        Err(e) => Err(e),
        Ok(x) => match second {
            Err(e) => Err(e),
            Ok(y) => Ok(x + y),
        },
    }
}

proof fn lemma_recipes_add(a: Seq<Seq<char>>, b: Seq<Seq<char>>)
    ensures
        recipes_of(a + b) == followed_by(recipes_of(a), recipes_of(b)),
    decreases b.len(),
{
    if b.len() == 0 {
        assert(a + b =~= a);
        if recipes_of(a) is Ok {
            assert(recipes_of(a)->Ok_0 + Seq::<RecipeView>::empty() =~= recipes_of(a)->Ok_0);
        }
    } else {
        let front = b.drop_last();
        assert((a + b).drop_last() =~= a + front);
        assert((a + b).last() == b.last());
        lemma_recipes_add(a, front);
        if recipes_of(a) is Ok && recipes_of(front) is Ok && spec_recipe(b.last()) is Ok {
            let x = recipes_of(a)->Ok_0;
            let y = recipes_of(front)->Ok_0;
            let r = spec_recipe(b.last())->Ok_0;
            assert((x + y).push(r) =~= x + y.push(r));
        }
    }
}

/// Parsing two texts with a blank line between them is parsing the one and then the other: the
/// recipes come in that order, and the first error counts.
pub proof fn joined_texts_parse_in_order(a: Seq<char>, b: Seq<char>)
    ensures
        spec_recipes(a + seq!['\n', '\n'] + b) == followed_by(spec_recipes(a), spec_recipes(b)),
{
    text_facts::lemma_blocks_seam(a, b);
    lemma_recipes_add(blocks(a), blocks(b));
}

// ── Flattening ───────────────────────────────────────────────────────────────

/// The actions of one step, in execution order.
pub open spec fn step_actions(step: StepView) -> Seq<ActionView> {
    match step {
        StepView::Single(a) => seq![a],
        StepView::Parallel(actions) => actions,
        StepView::Repeated(a, n) => Seq::new(n as nat, |i: int| a),
    }
}

/// The actions of some steps, in execution order.
pub open spec fn flattened(steps: Seq<StepView>) -> Seq<ActionView>
    decreases steps.len(),
{
    if steps.len() == 0 {
        seq![]
    } else {
        flattened(steps.drop_last()) + step_actions(steps.last())
    }
}

/// Expands the steps of a recipe into a flat, ordered list of actions.
///
/// - `Single(a)` gives `a`
/// - `Parallel([a, b])` gives `a, b`
/// - `Repeated(a, n)` gives `a` n times
pub fn flatten_recipe(recipe: &Recipe) -> (r: Vec<ActionDef>)
    ensures
        text::views(r@) == flattened(recipe@.steps),
{
    let mut sequence: Vec<ActionDef> = Vec::new();
    let ghost steps = recipe@.steps;
    assert(text::views(sequence@) =~= flattened(steps.take(0)));
    for i in 0..recipe.steps.len()
        invariant
            steps == recipe@.steps,
            text::views(sequence@) == flattened(steps.take(i as int)),
    {
        let ghost start = text::views(sequence@);
        assert(steps.take(i + 1).drop_last() =~= steps.take(i as int));
        assert(steps.take(i + 1).last() == recipe.steps@[i as int]@);
        match &recipe.steps[i] {
            Step::Single(action) => {
                sequence.push(action.clone());
                assert(text::views(sequence@) =~= start + seq![action@]);
            },
            Step::Parallel(actions) => {
                for k in 0..actions.len()
                    invariant
                        text::views(sequence@) == start + text::views(actions@).take(k as int),
                {
                    let ghost was = text::views(sequence@);
                    sequence.push(actions[k].clone());
                    assert(text::views(sequence@) =~= was.push(actions@[k as int]@));
                    assert(text::views(actions@).take(k + 1) =~= text::views(actions@).take(
                        k as int,
                    ).push(actions@[k as int]@));
                    assert(text::views(sequence@) =~= start + text::views(actions@).take(k + 1));
                }
                assert(text::views(actions@).take(actions@.len() as int) =~= text::views(actions@));
            },
            Step::Repeated(action, n) => {
                let count: u32 = *n;
                for k in 0..count
                    invariant
                        text::views(sequence@) == start + Seq::new(k as nat, |j: int| action@),
                {
                    let ghost was = text::views(sequence@);
                    sequence.push(action.clone());
                    assert(text::views(sequence@) =~= was.push(action@));
                    assert(text::views(sequence@) =~= start + Seq::new(
                        (k + 1) as nat,
                        |j: int| action@,
                    ));
                }
            },
        }
        assert(text::views(sequence@) =~= flattened(steps.take(i + 1)));
    }
    assert(steps.take(steps.len() as int) =~= steps);
    sequence
}

/// How many actions a step stands for.
pub open spec fn step_size(step: StepView) -> nat {
    match step {
        StepView::Single(a) => 1,
        StepView::Parallel(actions) => actions.len(),
        StepView::Repeated(a, n) => n as nat,
    }
}

/// How many actions some steps stand for.
pub open spec fn total_size(steps: Seq<StepView>) -> nat
    decreases steps.len(),
{
    if steps.len() == 0 {
        0
    } else {
        total_size(steps.drop_last()) + step_size(steps.last())
    }
}

/// Flattening yields one action per single step, all actions of a parallel step and as many
/// copies as a repeated step counts.
pub proof fn flatten_counts_actions(steps: Seq<StepView>)
    ensures
        flattened(steps).len() == total_size(steps),
    decreases steps.len(),
{
    if steps.len() > 0 {
        flatten_counts_actions(steps.drop_last());
    }
}

/// Flattening keeps the order of the steps: the front of a recipe flattens to the front of what
/// the whole flattens to.
pub proof fn flatten_keeps_order(front: Seq<StepView>, back: Seq<StepView>)
    ensures
        flattened(front + back) == flattened(front) + flattened(back),
    decreases back.len(),
{
    if back.len() == 0 {
        assert(front + back =~= front);
        assert(flattened(front) + flattened(back) =~= flattened(front));
    } else {
        assert((front + back).drop_last() =~= front + back.drop_last());
        flatten_keeps_order(front, back.drop_last());
        assert(flattened(front + back) =~= flattened(front) + flattened(back));
    }
}

/// Flattening keeps each action whole, with its name and all its parameters: a single step is its
/// action, a parallel step is its actions in order, and a repeated step is its action as often as
/// it counts.
pub proof fn flattening_keeps_actions_whole(recipe: &Recipe, r: Vec<ActionDef>)
    requires
        recipe@.steps.len() == 1,
        call_ensures(flatten_recipe, (recipe,), r),
    ensures
        match recipe@.steps[0] {
            StepView::Single(a) => r@.len() == 1 && r@[0]@ == a,
            StepView::Parallel(actions) => r@.len() == actions.len() && forall|i: int|
                0 <= i < actions.len() ==> (#[trigger] r@[i])@ == actions[i],
            StepView::Repeated(a, n) => r@.len() == n && forall|i: int|
                0 <= i < n ==> (#[trigger] r@[i])@ == a,
        },
{
    let steps = recipe@.steps;
    let all = text::views(r@);
    reveal_with_fuel(flattened, 2);
    assert(steps.drop_last() =~= Seq::<StepView>::empty());
    assert(all =~= step_actions(steps[0]));
    assert forall|i: int| 0 <= i < all.len() implies all[i] == (#[trigger] r@[i])@ by {}
}

/// Flattening goes step by step: a recipe whose steps are those of one recipe and then those of
/// another flattens to what the one flattens to and then what the other flattens to.
pub proof fn flattening_goes_step_by_step(
    a: &Recipe,
    b: &Recipe,
    both: &Recipe,
    ra: Vec<ActionDef>,
    rb: Vec<ActionDef>,
    r: Vec<ActionDef>,
)
    requires
        both@.steps == a@.steps + b@.steps,
        call_ensures(flatten_recipe, (a,), ra),
        call_ensures(flatten_recipe, (b,), rb),
        call_ensures(flatten_recipe, (both,), r),
    ensures
        text::views(r@) == text::views(ra@) + text::views(rb@),
{
    flatten_keeps_order(a@.steps, b@.steps);
}

} // verus!
