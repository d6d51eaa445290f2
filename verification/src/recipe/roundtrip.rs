//! The text form of a recipe reads back as the same recipe.
use crate::number;
use crate::order;
use crate::protocol::ActionView;
use crate::recipe;
use crate::recipe::parser;
use crate::recipe::parser::ParseErrorView;
use crate::recipe::RecipeView;
use crate::recipe::StepView;
use crate::text;
use crate::text_facts;
use vstd::prelude::*;

verus! {

// ── What parsing yields ──────────────────────────────────────────────────────

/// A text as it comes out of a step: trimmed, without an arrow and without a blank line.
pub open spec fn is_plain(s: Seq<char>) -> bool {
    &&& text_facts::is_trimmed(s)
    &&& text_facts::free_of(s, '-', '>')
    &&& text_facts::free_of(s, '\n', '\n')
}

/// Parameters as they come out of an action.
pub open spec fn params_ok(params: Map<Seq<char>, Seq<char>>) -> bool {
    &&& params.dom().finite()
    &&& forall|k: Seq<char>| #[trigger]
        params.contains_key(k) ==> {
            &&& is_plain(k)
            &&& !k.contains(',')
            &&& !k.contains('=')
            &&& is_plain(params[k])
            &&& !params[k].contains(',')
        }
}

/// An action as it comes out of a step.
pub open spec fn action_ok(a: ActionView) -> bool {
    &&& is_plain(a.name)
    &&& !a.name.contains('(')
    &&& params_ok(a.params)
}

/// A step as it comes out of a recipe.
pub open spec fn step_ok(step: StepView) -> bool {
    match step {
        StepView::Single(a) => {
            &&& action_ok(a)
            &&& a.name.len() > 0 ==> a.name[0] != '['
        },
        StepView::Parallel(actions) => {
            &&& actions.len() >= 2
            &&& forall|i: int| 0 <= i < actions.len() ==> action_ok(#[trigger] actions[i])
        },
        StepView::Repeated(a, n) => {
            &&& action_ok(a)
            &&& a.name.len() > 0 ==> a.name[0] != '['
            &&& n > 0
        },
    }
}

/// A recipe as it comes out of a file.
pub open spec fn recipe_ok(r: RecipeView) -> bool {
    &&& r.name.len() > 0
    &&& text_facts::is_trimmed(r.name)
    &&& !r.name.contains('=')
    &&& text_facts::free_of(r.name, '\n', '\n')
    &&& r.steps.len() > 0
    &&& forall|i: int| 0 <= i < r.steps.len() ==> step_ok(#[trigger] r.steps[i])
    &&& r.source == recipe::recipe_dsl(r.name, r.steps)
}

/// The two patterns that no step holds.
spec fn tame(s: Seq<char>) -> bool {
    text_facts::free_of(s, '-', '>') && text_facts::free_of(s, '\n', '\n')
}

proof fn lemma_tame_piece(s: Seq<char>, lo: int, hi: int)
    requires
        0 <= lo <= hi <= s.len(),
        tame(s),
    ensures
        tame(s.subrange(lo, hi)),
{
    text_facts::lemma_free_piece(s, lo, hi, '-', '>');
    text_facts::lemma_free_piece(s, lo, hi, '\n', '\n');
}

proof fn lemma_plain_trimmed(s: Seq<char>)
    requires
        tame(s),
    ensures
        is_plain(text::trimmed(s)),
{
    let r = text_facts::lemma_trimmed(s);
    lemma_tame_piece(s, r.0, r.1);
}

/// A character that a text does not hold is not in what trimming leaves of a piece of it.
proof fn lemma_absent_trimmed(s: Seq<char>, c: char)
    requires
        !s.contains(c),
    ensures
        !text::trimmed(s).contains(c),
{
    let r = text_facts::lemma_trimmed(s);
    let t = text::trimmed(s);
    assert forall|i: int| 0 <= i < t.len() implies t[i] != c by {
        assert(t[i] == s[r.0 + i]);
        assert(s.contains(s[r.0 + i]));
    }
}

proof fn lemma_absent_piece(s: Seq<char>, lo: int, hi: int, c: char)
    requires
        0 <= lo <= hi <= s.len(),
        !s.contains(c),
    ensures
        !s.subrange(lo, hi).contains(c),
{
    let t = s.subrange(lo, hi);
    assert forall|i: int| 0 <= i < t.len() implies t[i] != c by {
        assert(s.contains(s[lo + i]));
    }
}

proof fn lemma_params_of_ok(tokens: Seq<Seq<char>>)
    requires
        forall|i: int| 0 <= i < tokens.len() ==> tame(#[trigger] tokens[i]),
        forall|i: int| 0 <= i < tokens.len() ==> !(#[trigger] tokens[i]).contains(','),
        parser::params_of(tokens) is Ok,
    ensures
        params_ok(parser::params_of(tokens)->Ok_0),
    decreases tokens.len(),
{
    if tokens.len() > 0 {
        let front = tokens.drop_last();
        assert forall|i: int| 0 <= i < front.len() implies tame(#[trigger] front[i])
            && !front[i].contains(',') by {
            assert(front[i] == tokens[i]);
        }
        lemma_params_of_ok(front);
        let m = parser::params_of(front)->Ok_0;
        let last = tokens.last();
        assert(last == tokens[tokens.len() - 1]);
        let token = text::trimmed(last);
        lemma_plain_trimmed(last);
        lemma_absent_trimmed(last, ',');
        token.index_of_first_ensures('=');
        let i = token.index_of_first('=')->0;
        let left = token.take(i);
        let right = token.skip(i + 1);
        assert(left =~= token.subrange(0, i));
        assert(right =~= token.subrange(i + 1, token.len() as int));
        lemma_tame_piece(token, 0, i);
        lemma_tame_piece(token, i + 1, token.len() as int);
        lemma_absent_piece(token, 0, i, ',');
        lemma_absent_piece(token, i + 1, token.len() as int, ',');
        lemma_plain_trimmed(left);
        lemma_plain_trimmed(right);
        lemma_absent_trimmed(left, ',');
        lemma_absent_trimmed(right, ',');
        assert(!left.contains('='));
        lemma_absent_trimmed(left, '=');
        let r = m.insert(text::trimmed(left), text::trimmed(right));
        assert forall|k: Seq<char>| #[trigger] r.contains_key(k) implies {
            &&& is_plain(k)
            &&& !k.contains(',')
            &&& !k.contains('=')
            &&& is_plain(r[k])
            &&& !r[k].contains(',')
        } by {
            if k != text::trimmed(left) {
                assert(m.contains_key(k));
            }
        }
    }
}

proof fn lemma_action_ok(body: Seq<char>, step: int)
    requires
        tame(body),
        parser::spec_action(body, step) is Ok,
    ensures
        action_ok(parser::spec_action(body, step)->Ok_0),
        body.len() > 0 && !text::is_space(body[0]) && body[0] != '[' ==> {
            let a = parser::spec_action(body, step)->Ok_0;
            a.name.len() > 0 ==> a.name[0] != '['
        },
        body.len() == 0 ==> parser::spec_action(body, step)->Ok_0.name.len() == 0,
{
    body.index_of_first_ensures('(');
    match body.index_of_first('(') {
        None => {
            lemma_plain_trimmed(body);
            lemma_absent_trimmed(body, '(');
            if body.len() > 0 && !text::is_space(body[0]) {
                text_facts::lemma_trimmed_first(body);
            }
            if body.len() == 0 {
                let r = text_facts::lemma_trimmed(body);
            }
        },
        Some(open) => {
            body.index_of_last_ensures(')');
            let close = body.index_of_last(')')->0;
            let name = body.take(open);
            assert(name =~= body.subrange(0, open));
            lemma_tame_piece(body, 0, open);
            lemma_plain_trimmed(name);
            assert(!name.contains('('));
            lemma_absent_trimmed(name, '(');
            if body.len() > 0 && !text::is_space(body[0]) && open > 0 {
                text_facts::lemma_trimmed_first(name);
            }
            if open == 0 {
                let r = text_facts::lemma_trimmed(name);
            }
            let inner = body.subrange(open + 1, close);
            lemma_tame_piece(body, open + 1, close);
            if text::trimmed(inner).len() > 0 {
                let pat = seq![','];
                let tokens = text::split(inner, pat);
                assert forall|i: int| 0 <= i < tokens.len() implies tame(#[trigger] tokens[i])
                    && !tokens[i].contains(',') by {
                    let r = text_facts::lemma_split_pieces(inner, pat, i);
                    lemma_tame_piece(inner, r.0, r.1);
                    let t = tokens[i];
                    if t.contains(',') {
                        let j = choose|j: int| 0 <= j < t.len() && t[j] == ',';
                        assert(t.subrange(j, j + 1) =~= pat);
                        assert(text::occurs_at(t, pat, j));
                    }
                }
                lemma_params_of_ok(tokens);
            }
        },
    }
}

/// The pieces between the outer commas are cut out of the text; the last one is its end.
proof fn lemma_top_pieces(s: Seq<char>)
    requires
        tame(s),
    ensures
        parser::top_pieces(s).len() > 0,
        parser::top_pieces(s).last().len() <= s.len(),
        parser::top_pieces(s).last() == s.skip(s.len() - parser::top_pieces(s).last().len()),
        forall|i: int|
            0 <= i < parser::top_pieces(s).len() ==> tame(#[trigger] parser::top_pieces(s)[i]),
    decreases s.len(),
{
    let all = parser::top_pieces(s);
    if s.len() == 0 {
        assert(all[0] =~= s);
        assert(all.last() =~= s.skip(0));
    } else {
        let front = s.drop_last();
        lemma_tame_piece(s, 0, s.len() - 1);
        assert(front =~= s.subrange(0, s.len() - 1));
        lemma_top_pieces(front);
        let before = parser::top_pieces(front);
        assert(all.last() =~= s.skip(s.len() - all.last().len()));
        assert forall|i: int| 0 <= i < all.len() implies tame(#[trigger] all[i]) by {
            if i == all.len() - 1 {
                assert(s.skip(s.len() - all.last().len()) =~= s.subrange(
                    s.len() - all.last().len(),
                    s.len() as int,
                ));
                lemma_tame_piece(s, s.len() - all.last().len(), s.len() as int);
            } else {
                assert(all[i] == before[i]);
            }
        }
    }
}

proof fn lemma_action_tokens_tame(s: Seq<char>)
    requires
        tame(s),
    ensures
        forall|i: int|
            0 <= i < parser::action_tokens(s).len() ==> tame(#[trigger] parser::action_tokens(s)[i]),
{
    lemma_top_pieces(s);
    let raw = parser::top_pieces(s);
    assert forall|i: int| 0 <= i < parser::action_tokens(s).len() implies tame(
        #[trigger] parser::action_tokens(s)[i],
    ) by {
        lemma_plain_trimmed(raw[i]);
        assert(parser::action_tokens(s)[i] == text::trimmed(raw[i]));
    }
}

proof fn lemma_actions_ok(tokens: Seq<Seq<char>>, step: int)
    requires
        forall|i: int| 0 <= i < tokens.len() ==> tame(#[trigger] tokens[i]),
        parser::actions_of(tokens, step) is Ok,
    ensures
        forall|i: int|
            0 <= i < parser::actions_of(tokens, step)->Ok_0.len() ==> action_ok(
                #[trigger] parser::actions_of(tokens, step)->Ok_0[i],
            ),
    decreases tokens.len(),
{
    if tokens.len() > 0 {
        let front = tokens.drop_last();
        assert forall|i: int| 0 <= i < front.len() implies tame(#[trigger] front[i]) by {
            assert(front[i] == tokens[i]);
        }
        lemma_actions_ok(front, step);
        assert(tokens.last() == tokens[tokens.len() - 1]);
        lemma_action_ok(tokens.last(), step);
    }
}

proof fn lemma_step_ok(body: Seq<char>, step: int)
    requires
        tame(body),
        body.len() > 0,
        text_facts::is_trimmed(body),
        parser::spec_step(body, step) is Ok,
    ensures
        step_ok(parser::spec_step(body, step)->Ok_0),
{
    if body[0] == '[' {
        let inner = body.subrange(1, body.len() - 1);
        lemma_tame_piece(body, 1, body.len() - 1);
        lemma_action_tokens_tame(inner);
        let all = parser::action_tokens(inner);
        let keep = |t: Seq<char>| t.len() > 0;
        let tokens = all.filter(keep);
        assert forall|i: int| 0 <= i < tokens.len() implies tame(#[trigger] tokens[i]) by {
            assert(tokens.contains(tokens[i]));
            all.lemma_filter_contains_rev(keep, tokens[i]);
            let j = choose|j: int| 0 <= j < all.len() && all[j] == tokens[i];
            assert(tame(all[j]));
        }
        lemma_actions_ok(tokens, step);
    } else if exists|i: int| parser::is_repeat_caret(body, i) {
        let caret = choose|i: int| parser::is_repeat_caret(body, i);
        let front = body.take(caret);
        assert(front =~= body.subrange(0, caret));
        lemma_tame_piece(body, 0, caret);
        let r = text_facts::lemma_trimmed(front);
        let part = text::trimmed(front);
        lemma_tame_piece(front, r.0, r.1);
        if caret > 0 {
            text_facts::lemma_trimmed_first(front);
        }
        lemma_action_ok(part, step);
    } else {
        lemma_action_ok(body, step);
    }
}

proof fn lemma_steps_ok(bodies: Seq<Seq<char>>)
    requires
        forall|i: int|
            0 <= i < bodies.len() ==> {
                let b = #[trigger] bodies[i];
                tame(b) && b.len() > 0 && text_facts::is_trimmed(b)
            },
        parser::steps_of(bodies) is Ok,
    ensures
        parser::steps_of(bodies)->Ok_0.len() == bodies.len(),
        forall|i: int|
            0 <= i < bodies.len() ==> step_ok(#[trigger] parser::steps_of(bodies)->Ok_0[i]),
    decreases bodies.len(),
{
    if bodies.len() > 0 {
        let front = bodies.drop_last();
        assert forall|i: int| 0 <= i < front.len() implies {
            let b = #[trigger] front[i];
            tame(b) && b.len() > 0 && text_facts::is_trimmed(b)
        } by {
            assert(front[i] == bodies[i]);
        }
        lemma_steps_ok(front);
        assert(bodies.last() == bodies[bodies.len() - 1]);
        lemma_step_ok(bodies.last(), bodies.len() as int);
    }
}

/// Each piece is trimmed, not empty, cut out of the text and free of the pattern.
proof fn lemma_pieces(s: Seq<char>, x: char, y: char, k: int)
    requires
        0 <= k < text::pieces(s, seq![x, y]).len(),
    ensures
        ({
            let p = text::pieces(s, seq![x, y])[k];
            &&& p.len() > 0
            &&& text_facts::is_trimmed(p)
            &&& text_facts::free_of(p, x, y)
            &&& exists|lo: int, hi: int|
                0 <= lo <= hi <= s.len() && p == #[trigger] s.subrange(lo, hi)
        }),
{
    let pat = seq![x, y];
    let raw = text::split(s, pat);
    let trim = |p: Seq<char>| text::trimmed(p);
    let keep = |p: Seq<char>| p.len() > 0;
    let all = raw.map_values(trim);
    let kept = all.filter(keep);
    let p = kept[k];
    all.lemma_filter_pred(keep, k);
    assert(keep(p));
    assert(kept.contains(p));
    all.lemma_filter_contains_rev(keep, p);
    let j = choose|j: int| 0 <= j < all.len() && all[j] == p;
    let r = text_facts::lemma_split_pieces(s, pat, j);
    let q = text_facts::lemma_trimmed(raw[j]);
    text_facts::lemma_free_occurs(raw[j], x, y);
    text_facts::lemma_free_piece(raw[j], q.0, q.1, x, y);
    assert(p =~= s.subrange(r.0 + q.0, r.0 + q.1));
}

proof fn lemma_recipe_ok(block: Seq<char>)
    requires
        text_facts::free_of(block, '\n', '\n'),
        parser::spec_recipe(block) is Ok,
    ensures
        recipe_ok(parser::spec_recipe(block)->Ok_0),
{
    block.index_of_first_ensures('=');
    let eq = block.index_of_first('=')->0;
    let left = block.take(eq);
    let right = block.skip(eq + 1);
    assert(left =~= block.subrange(0, eq));
    assert(right =~= block.subrange(eq + 1, block.len() as int));
    text_facts::lemma_free_piece(block, 0, eq, '\n', '\n');
    text_facts::lemma_free_piece(block, eq + 1, block.len() as int, '\n', '\n');
    text_facts::lemma_free_trimmed(left, '\n', '\n');
    let r = text_facts::lemma_trimmed(left);
    assert(!left.contains('='));
    lemma_absent_trimmed(left, '=');
    let bodies = text::pieces(right, seq!['-', '>']);
    assert forall|i: int| 0 <= i < bodies.len() implies {
        let b = #[trigger] bodies[i];
        tame(b) && b.len() > 0 && text_facts::is_trimmed(b)
    } by {
        lemma_pieces(right, '-', '>', i);
        let b = bodies[i];
        let (lo, hi) = choose|lo: int, hi: int|
            0 <= lo <= hi <= right.len() && b == #[trigger] right.subrange(lo, hi);
        text_facts::lemma_free_piece(right, lo, hi, '\n', '\n');
    }
    lemma_steps_ok(bodies);
}

proof fn lemma_recipes_ok(blocks: Seq<Seq<char>>)
    requires
        forall|i: int|
            0 <= i < blocks.len() ==> text_facts::free_of(#[trigger] blocks[i], '\n', '\n'),
        parser::recipes_of(blocks) is Ok,
    ensures
        forall|i: int|
            0 <= i < parser::recipes_of(blocks)->Ok_0.len() ==> recipe_ok(
                #[trigger] parser::recipes_of(blocks)->Ok_0[i],
            ),
    decreases blocks.len(),
{
    if blocks.len() > 0 {
        let front = blocks.drop_last();
        assert forall|i: int| 0 <= i < front.len() implies text_facts::free_of(
            #[trigger] front[i],
            '\n',
            '\n',
        ) by {
            assert(front[i] == blocks[i]);
        }
        lemma_recipes_ok(front);
        assert(blocks.last() == blocks[blocks.len() - 1]);
        lemma_recipe_ok(blocks.last());
    }
}

/// Every recipe that parsing yields has a name and steps of the shapes above, and its source is
/// its canonical text form.
pub proof fn parsed_recipes_are_canonical(input: Seq<char>)
    requires
        parser::spec_recipes(input) is Ok,
    ensures
        forall|i: int|
            0 <= i < parser::spec_recipes(input)->Ok_0.len() ==> recipe_ok(
                #[trigger] parser::spec_recipes(input)->Ok_0[i],
            ),
{
    let all = parser::blocks(input);
    let uniform = text::replaced(input, seq!['\r', '\n'], seq!['\n']);
    assert forall|i: int| 0 <= i < all.len() implies text_facts::free_of(
        #[trigger] all[i],
        '\n',
        '\n',
    ) by {
        lemma_pieces(uniform, '\n', '\n', i);
    }
    lemma_recipes_ok(all);
}

// ── What prints and reads back ───────────────────────────────────────────────

/// No comma of `s` stands outside all parentheses.
pub open spec fn no_outer_comma(s: Seq<char>) -> bool {
    forall|i: int| 0 <= i < s.len() && #[trigger] s[i] == ',' ==> parser::depth(s.take(i)) > 0
}

/// The text form of the step leads back to it.
///
/// - A single action must have a name or parameters, and its text form must not end in a repeat
///   suffix, as that of an action named `A^2` without parameters would.
/// - The actions of a parallel step must have a text form each; that of each must keep its commas
///   inside parentheses, and all but the last must close what parentheses they open.
/// - A repeated action must close what parentheses it opens.
pub open spec fn reads_back(step: StepView) -> bool {
    match step {
        StepView::Single(a) => {
            let d = recipe::action_dsl(a);
            &&& d.len() > 0
            &&& !parser::ends_in_suffix(d)
        },
        StepView::Parallel(actions) => {
            forall|i: int|
                0 <= i < actions.len() ==> {
                    let d = recipe::action_dsl(#[trigger] actions[i]);
                    &&& d.len() > 0
                    &&& no_outer_comma(d)
                    &&& i < actions.len() - 1 ==> parser::depth(d) == 0
                }
        },
        StepView::Repeated(a, n) => parser::depth(recipe::action_dsl(a)) == 0,
    }
}

proof fn lemma_action_dsl_shape(a: ActionView)
    requires
        action_ok(a),
    ensures
        ({
            let d = recipe::action_dsl(a);
            &&& is_plain(d)
            &&& d.len() > 0 ==> d[0] == '(' || (a.name.len() > 0 && d[0] == a.name[0])
            &&& a.params != Map::<Seq<char>, Seq<char>>::empty() ==> d.len() > 0 && d.last() == ')'
        }),
{
    let d = recipe::action_dsl(a);
    if a.params != Map::<Seq<char>, Seq<char>>::empty() {
        let pairs = recipe::pairs_dsl(a.params);
        let inner = text::join(pairs, seq![',']);
        let keys = order::sorted(a.params.dom());
        order::lemma_sorted(a.params.dom());
        assert forall|i: int| 0 <= i < pairs.len() implies tame(#[trigger] pairs[i]) by {
            assert(keys.to_set().contains(keys[i]));
            assert(a.params.contains_key(keys[i]));
            lemma_tame_glue(keys[i], seq!['='], a.params[keys[i]]);
        }
        assert(!seq![','].contains('-') && !seq![','].contains('>') && !seq![','].contains('\n'));
        text_facts::lemma_free_join(pairs, seq![','], '-', '>');
        text_facts::lemma_free_join(pairs, seq![','], '\n', '\n');
        lemma_tame_glue(a.name, seq!['('], inner);
        lemma_tame_empty();
        lemma_tame_glue(a.name + seq!['('] + inner, seq![')'], Seq::<char>::empty());
        assert(a.name + seq!['('] + inner + seq![')'] + Seq::<char>::empty() =~= d);
        if a.name.len() > 0 {
            assert(d[0] == a.name[0]);
        } else {
            assert(d[0] == '(');
        }
        assert(d.last() == ')');
    }
}

proof fn lemma_tame_empty()
    ensures
        tame(Seq::<char>::empty()),
{
}

proof fn lemma_tame_glue(a: Seq<char>, sep: Seq<char>, b: Seq<char>)
    requires
        tame(a),
        tame(b),
        sep.len() > 0,
        forall|i: int|
            0 <= i < sep.len() ==> #[trigger] sep[i] != '-' && sep[i] != '>' && sep[i] != '\n',
    ensures
        tame(a + sep + b),
{
    text_facts::lemma_free_glue(a, sep, b, '-', '>');
    text_facts::lemma_free_glue(a, sep, b, '\n', '\n');
}

/// The pairs up to a key stand for the parameters up to that key.
proof fn lemma_params_back(params: Map<Seq<char>, Seq<char>>, k: int)
    requires
        params_ok(params),
        0 <= k <= order::sorted(params.dom()).len(),
    ensures
        parser::params_of(recipe::pairs_dsl(params).take(k)) == Ok::<_, ParseErrorView>(
            params.restrict(order::sorted(params.dom()).take(k).to_set()),
        ),
    decreases k,
{
    let keys = order::sorted(params.dom());
    let pairs = recipe::pairs_dsl(params);
    order::lemma_sorted(params.dom());
    if k == 0 {
        assert(params.restrict(keys.take(0).to_set()) =~= Map::empty());
    } else {
        lemma_params_back(params, k - 1);
        assert(pairs.take(k).drop_last() =~= pairs.take(k - 1));
        let key = keys[k - 1];
        assert(keys.to_set().contains(key));
        assert(params.contains_key(key));
        let value = params[key];
        let pair = pairs[k - 1];
        assert(pair == recipe::pair_dsl(key, value));
        assert(text_facts::is_trimmed(pair)) by {
            if key.len() > 0 {
                assert(pair[0] == key[0]);
            } else {
                assert(pair[0] == '=');
            }
            if value.len() > 0 {
                assert(pair.last() == value.last());
            } else {
                assert(pair.last() == '=');
            }
        }
        text_facts::lemma_trimmed_same(pair);
        assert forall|j: int| 0 <= j < key.len() implies pair[j] != '=' by {
            assert(key.contains(key[j]));
        }
        text_facts::lemma_first_is(pair, '=', key.len() as int);
        assert(pair.take(key.len() as int) =~= key);
        assert(pair.skip(key.len() + 1int) =~= value);
        text_facts::lemma_trimmed_same(key);
        text_facts::lemma_trimmed_same(value);
        let some = keys.take(k - 1);
        let part = some.to_set();
        assert forall|x: Seq<char>| keys.take(k).to_set().contains(x) <==> part.insert(
            key,
        ).contains(x) by {
            if keys.take(k).to_set().contains(x) {
                let j = choose|j: int| 0 <= j < k && keys.take(k)[j] == x;
                if j < k - 1 {
                    assert(some[j] == x);
                }
            }
            if part.contains(x) {
                let j = choose|j: int| 0 <= j < k - 1 && some[j] == x;
                assert(keys.take(k)[j] == x);
            }
            assert(keys.take(k)[k - 1] == key);
        }
        assert(keys.take(k).to_set() =~= part.insert(key));
        assert(params.restrict(part.insert(key)) =~= params.restrict(part).insert(key, value));
    }
}

proof fn lemma_action_back(a: ActionView, step: int)
    requires
        action_ok(a),
    ensures
        parser::spec_action(recipe::action_dsl(a), step) == Ok::<_, ParseErrorView>(a),
{
    let d = recipe::action_dsl(a);
    text_facts::lemma_trimmed_same(a.name);
    if a.params == Map::<Seq<char>, Seq<char>>::empty() {
        d.index_of_first_ensures('(');
    } else {
        let pairs = recipe::pairs_dsl(a.params);
        let inner = text::join(pairs, seq![',']);
        let keys = order::sorted(a.params.dom());
        order::lemma_sorted(a.params.dom());
        let n = a.name.len() as int;
        assert(keys.len() > 0) by {
            if keys.len() == 0 {
                assert(a.params.dom() =~= Set::empty());
                assert(a.params =~= Map::<Seq<char>, Seq<char>>::empty());
            }
        }
        assert forall|j: int| 0 <= j < n implies d[j] != '(' by {
            assert(d[j] == a.name[j]);
            assert(a.name.contains(a.name[j]));
        }
        assert(d[n] == '(');
        text_facts::lemma_first_is(d, '(', n);
        text_facts::lemma_last_is(d, ')', d.len() - 1);
        assert(d.subrange(n + 1, d.len() - 1) =~= inner);
        assert(d.take(n) =~= a.name);
        assert forall|i: int| 0 <= i < pairs.len() implies !(#[trigger] pairs[i]).contains(',') by {
            assert(keys.to_set().contains(keys[i]));
            assert(a.params.contains_key(keys[i]));
            let key = keys[i];
            let value = a.params[key];
            let pair = pairs[i];
            assert forall|j: int| 0 <= j < pair.len() implies pair[j] != ',' by {
                if j < key.len() {
                    assert(pair[j] == key[j]);
                    assert(key.contains(key[j]));
                } else if j > key.len() {
                    assert(pair[j] == value[j - key.len() - 1]);
                    assert(value.contains(value[j - key.len() - 1]));
                }
            }
        }
        text_facts::lemma_split_commas(pairs);
        // The first pair holds a `=`, so there is more than white space between the parentheses.
        let key = keys[0];
        assert(inner.len() > key.len() && inner[key.len() as int] == '=') by {
            assert(pairs[0] == recipe::pair_dsl(key, a.params[key]));
            if pairs.len() > 1 {
                text_facts::lemma_join_first(pairs, seq![',']);
            } else {
                assert(inner == pairs[0]);
            }
        }
        let r = text_facts::lemma_trimmed(inner);
        assert(text::trimmed(inner).len() > 0) by {
            if r.0 == r.1 {
                assert(text::is_space(inner[key.len() as int]));
            }
        }
        lemma_params_back(a.params, keys.len() as int);
        assert(pairs.take(keys.len() as int) =~= pairs);
        assert(keys.take(keys.len() as int) =~= keys);
        assert(a.params.restrict(a.params.dom()) =~= a.params);
    }
}

/// Behind closed parentheses the depth counts anew.
proof fn lemma_depth_add(s: Seq<char>, t: Seq<char>)
    requires
        parser::depth(s) == 0,
    ensures
        parser::depth(s + t) == parser::depth(t),
    decreases t.len(),
{
    if t.len() == 0 {
        assert(s + t =~= s);
    } else {
        assert((s + t).drop_last() =~= s + t.drop_last());
        lemma_depth_add(s, t.drop_last());
    }
}

/// A text without outer commas that follows closed parentheses goes to the last piece.
proof fn lemma_top_add(s: Seq<char>, t: Seq<char>)
    requires
        parser::depth(s) == 0,
        parser::top_pieces(s).len() > 0,
        no_outer_comma(t),
    ensures
        parser::top_pieces(s + t) == parser::top_pieces(s).drop_last().push(
            parser::top_pieces(s).last() + t,
        ),
    decreases t.len(),
{
    let before = parser::top_pieces(s);
    if t.len() == 0 {
        assert(s + t =~= s);
        assert(before.last() + t =~= before.last());
        assert(before.drop_last().push(before.last()) =~= before);
    } else {
        let u = t.drop_last();
        assert((s + t).drop_last() =~= s + u);
        assert forall|i: int| 0 <= i < u.len() && #[trigger] u[i] == ',' implies parser::depth(
            u.take(i),
        ) > 0 by {
            assert(u[i] == t[i]);
            assert(u.take(i) =~= t.take(i));
        }
        lemma_top_add(s, u);
        lemma_depth_add(s, u);
        assert(t.take(t.len() - 1) =~= u);
        assert(t.last() == t[t.len() - 1]);
        assert((s + t).last() == t.last());
        let mid = parser::top_pieces(s + u);
        assert(mid.drop_last() =~= before.drop_last());
        assert(mid.last().push(t.last()) =~= before.last() + t);
    }
}

/// The pieces that a joined list falls into: the parts, with a space in front of all but the
/// first.
spec fn spaced(parts: Seq<Seq<char>>) -> Seq<Seq<char>> {
    Seq::new(
        parts.len(),
        |i: int|
            if i == 0 {
                parts[i]
            } else {
                seq![' '] + parts[i]
            },
    )
}

proof fn lemma_top_join(parts: Seq<Seq<char>>)
    requires
        parts.len() > 0,
        forall|i: int| 0 <= i < parts.len() ==> no_outer_comma(#[trigger] parts[i]),
        forall|i: int| 0 <= i < parts.len() - 1 ==> parser::depth(#[trigger] parts[i]) == 0,
    ensures
        parser::top_pieces(text::join(parts, seq![',', ' '])) == spaced(parts),
        parser::depth(parts.last()) == 0 ==> parser::depth(text::join(parts, seq![',', ' '])) == 0,
    decreases parts.len(),
{
    let sep = seq![',', ' '];
    let last = parts[parts.len() - 1];
    let empty = Seq::<char>::empty();
    if parts.len() == 1 {
        lemma_top_add(empty, last);
        assert(empty + last =~= last);
        assert(parser::top_pieces(empty).drop_last().push(
            parser::top_pieces(empty).last() + last,
        ) =~= spaced(parts));
    } else {
        let front = parts.drop_last();
        assert forall|i: int| 0 <= i < front.len() implies no_outer_comma(#[trigger] front[i]) by {
            assert(front[i] == parts[i]);
        }
        assert forall|i: int| 0 <= i < front.len() implies parser::depth(#[trigger] front[i])
            == 0 by {
            assert(front[i] == parts[i]);
        }
        assert(front.last() == front[front.len() - 1]);
        lemma_top_join(front);
        let s = text::join(front, sep);
        let c = s + seq![','];
        assert(c.drop_last() =~= s);
        assert(parser::depth(c) == 0);
        assert(parser::top_pieces(c) =~= spaced(front).push(empty));
        let t = seq![' '] + last;
        assert(parser::depth(seq![' ']) == 0) by {
            reveal_with_fuel(parser::depth, 2);
        }
        assert forall|i: int| 0 <= i < t.len() && #[trigger] t[i] == ',' implies parser::depth(
            t.take(i),
        ) > 0 by {
            assert(last[i - 1] == ',');
            assert(t.take(i) =~= seq![' '] + last.take(i - 1));
            lemma_depth_add(seq![' '], last.take(i - 1));
        }
        lemma_top_add(c, t);
        assert(c + t =~= s + sep + last);
        assert(parser::top_pieces(c).drop_last() =~= spaced(front));
        assert(empty + t =~= t);
        assert(spaced(front).push(t) =~= spaced(parts));
        lemma_depth_add(c, t);
        lemma_depth_add(seq![' '], last);
    }
}

proof fn lemma_tokens_back(parts: Seq<Seq<char>>)
    requires
        parts.len() > 0,
        forall|i: int|
            0 <= i < parts.len() ==> {
                let p = #[trigger] parts[i];
                p.len() > 0 && text_facts::is_trimmed(p) && no_outer_comma(p)
            },
        forall|i: int| 0 <= i < parts.len() - 1 ==> parser::depth(#[trigger] parts[i]) == 0,
    ensures
        parser::action_tokens(text::join(parts, seq![',', ' '])) == parts,
{
    lemma_top_join(parts);
    let raw = spaced(parts);
    let trim = |p: Seq<char>| text::trimmed(p);
    assert forall|i: int| 0 <= i < parts.len() implies text::trimmed(raw[i])
        == #[trigger] parts[i] by {
        let p = parts[i];
        if i == 0 {
            text_facts::lemma_trimmed_same(p);
        } else {
            assert(raw[i].subrange(1, raw[i].len() as int) =~= p);
            text_facts::lemma_trimmed_is(raw[i], 1, raw[i].len() as int);
        }
    }
    assert(raw.map_values(trim) =~= parts);
    assert(parts.last() == parts[parts.len() - 1]);
}

proof fn lemma_actions_back(actions: Seq<ActionView>, step: int)
    requires
        forall|i: int| 0 <= i < actions.len() ==> action_ok(#[trigger] actions[i]),
    ensures
        parser::actions_of(recipe::actions_dsl(actions), step) == Ok::<_, ParseErrorView>(actions),
    decreases actions.len(),
{
    let all = recipe::actions_dsl(actions);
    if actions.len() == 0 {
        assert(actions =~= seq![]);
    } else {
        let front = actions.drop_last();
        assert forall|i: int| 0 <= i < front.len() implies action_ok(#[trigger] front[i]) by {
            assert(front[i] == actions[i]);
        }
        lemma_actions_back(front, step);
        assert(all.drop_last() =~= recipe::actions_dsl(front));
        assert(all.last() == recipe::action_dsl(actions.last()));
        assert(actions.last() == actions[actions.len() - 1]);
        lemma_action_back(actions.last(), step);
        assert(front.push(actions.last()) =~= actions);
    }
}

proof fn lemma_single_back(a: ActionView, index: int)
    requires
        step_ok(StepView::Single(a)),
        reads_back(StepView::Single(a)),
    ensures
        is_plain(recipe::action_dsl(a)),
        recipe::action_dsl(a).len() > 0,
        parser::spec_step(recipe::action_dsl(a), index) == Ok::<_, ParseErrorView>(
            StepView::Single(a),
        ),
{
    let d = recipe::action_dsl(a);
    lemma_action_dsl_shape(a);
    assert forall|i: int| !parser::is_repeat_caret(d, i) by {
        if parser::is_repeat_caret(d, i) {
            assert forall|j: int| i < j < d.len() implies !parser::is_parenthesis(
                #[trigger] d[j],
            ) by {
                assert(number::is_digit(d.skip(i + 1)[j - i - 1]));
            }
            assert(parser::is_suffix_caret(d, i));
        }
    }
    lemma_action_back(a, index);
}

proof fn lemma_parallel_plain(actions: Seq<ActionView>)
    requires
        step_ok(StepView::Parallel(actions)),
    ensures
        is_plain(recipe::step_dsl(StepView::Parallel(actions))),
{
    let d = recipe::step_dsl(StepView::Parallel(actions));
    let empty = Seq::<char>::empty();
    let parts = recipe::actions_dsl(actions);
    let sep = seq![',', ' '];
    let inner = text::join(parts, sep);
    assert forall|i: int| 0 <= i < parts.len() implies tame(#[trigger] parts[i]) by {
        assert(action_ok(actions[i]));
        lemma_action_dsl_shape(actions[i]);
    }
    assert(!sep.contains('-') && !sep.contains('>') && !sep.contains('\n'));
    text_facts::lemma_free_join(parts, sep, '-', '>');
    text_facts::lemma_free_join(parts, sep, '\n', '\n');
    lemma_tame_empty();
    lemma_tame_glue(empty, seq!['['], inner);
    lemma_tame_glue(empty + seq!['['] + inner, seq![']'], empty);
    assert(empty + seq!['['] + inner + seq![']'] + empty =~= d);
    assert(d[0] == '[' && d.last() == ']');
}

proof fn lemma_parallel_back(actions: Seq<ActionView>, index: int)
    requires
        step_ok(StepView::Parallel(actions)),
        reads_back(StepView::Parallel(actions)),
    ensures
        parser::spec_step(recipe::step_dsl(StepView::Parallel(actions)), index) == Ok::<
            _,
            ParseErrorView,
        >(StepView::Parallel(actions)),
{
    let d = recipe::step_dsl(StepView::Parallel(actions));
    let parts = recipe::actions_dsl(actions);
    let inner = text::join(parts, seq![',', ' ']);
    assert forall|i: int| 0 <= i < parts.len() implies {
        let p = #[trigger] parts[i];
        p.len() > 0 && text_facts::is_trimmed(p) && no_outer_comma(p)
    } by {
        assert(action_ok(actions[i]));
        lemma_action_dsl_shape(actions[i]);
    }
    assert forall|i: int| 0 <= i < parts.len() - 1 implies parser::depth(#[trigger] parts[i])
        == 0 by {
        assert(action_ok(actions[i]));
    }
    lemma_tokens_back(parts);
    let keep = |t: Seq<char>| t.len() > 0;
    text_facts::lemma_filter_all(parts, keep);
    lemma_actions_back(actions, index);
    assert(d.subrange(1, d.len() - 1) =~= inner);
    assert(d[0] == '[' && d.last() == ']');
}

proof fn lemma_repeated_back(a: ActionView, n: u32, index: int)
    requires
        step_ok(StepView::Repeated(a, n)),
        reads_back(StepView::Repeated(a, n)),
    ensures
        is_plain(recipe::step_dsl(StepView::Repeated(a, n))),
        parser::spec_step(recipe::step_dsl(StepView::Repeated(a, n)), index) == Ok::<
            _,
            ParseErrorView,
        >(StepView::Repeated(a, n)),
{
    let d = recipe::step_dsl(StepView::Repeated(a, n));
    let adsl = recipe::action_dsl(a);
    let digits = number::decimal(n as nat);
    let caret = adsl.len() as int;
    lemma_action_dsl_shape(a);
    number::lemma_decimal_reads_back(n as nat);
    assert(d.take(caret) =~= adsl);
    assert(d.skip(caret + 1) =~= digits);
    assert(d[caret] == '^');
    assert(number::is_digit(digits[0]));
    assert(parser::is_repeat_caret(d, caret));
    parser::lemma_repeat_caret_unique(d, caret, choose|i: int| parser::is_repeat_caret(d, i));
    text_facts::lemma_trimmed_same(adsl);
    lemma_action_back(a, index);
    if caret > 0 {
        assert(d[0] == adsl[0]);
    }
    assert(d.last() == digits[digits.len() - 1]);
    assert(number::is_digit(d.last()));
    assert forall|i: int| 0 <= i < digits.len() implies digits[i] != '-' && digits[i] != '\n' by {
        assert(number::is_digit(digits[i]));
    }
    text_facts::lemma_free_of_none(digits, '-', '>');
    text_facts::lemma_free_of_none(digits, '\n', '\n');
    lemma_tame_glue(adsl, seq!['^'], digits);
}

/// The text form of a step is plain and not empty, and reads back as the step.
proof fn lemma_step_back(step: StepView, index: int)
    requires
        step_ok(step),
        reads_back(step),
    ensures
        is_plain(recipe::step_dsl(step)),
        recipe::step_dsl(step).len() > 0,
        parser::spec_step(recipe::step_dsl(step), index) == Ok::<_, ParseErrorView>(step),
{
    match step {
        StepView::Single(a) => {
            lemma_single_back(a, index);
        },
        StepView::Parallel(actions) => {
            lemma_parallel_plain(actions);
            lemma_parallel_back(actions, index);
        },
        StepView::Repeated(a, n) => {
            lemma_repeated_back(a, n, index);
        },
    }
}

proof fn lemma_steps_back(steps: Seq<StepView>)
    requires
        forall|i: int| 0 <= i < steps.len() ==> step_ok(#[trigger] steps[i]),
        forall|i: int| 0 <= i < steps.len() ==> reads_back(#[trigger] steps[i]),
    ensures
        parser::steps_of(recipe::steps_dsl(steps)) == Ok::<_, ParseErrorView>(steps),
    decreases steps.len(),
{
    let all = recipe::steps_dsl(steps);
    if steps.len() == 0 {
        assert(steps =~= seq![]);
    } else {
        let front = steps.drop_last();
        assert forall|i: int| 0 <= i < front.len() implies step_ok(#[trigger] front[i])
            && reads_back(front[i]) by {
            assert(front[i] == steps[i]);
        }
        lemma_steps_back(front);
        assert(all.drop_last() =~= recipe::steps_dsl(front));
        assert(steps.last() == steps[steps.len() - 1]);
        lemma_step_back(steps.last(), steps.len() as int);
        assert(front.push(steps.last()) =~= steps);
    }
}

/// The text forms of the steps are plain and not empty.
proof fn lemma_bodies(steps: Seq<StepView>)
    requires
        forall|i: int| 0 <= i < steps.len() ==> step_ok(#[trigger] steps[i]),
        forall|i: int| 0 <= i < steps.len() ==> reads_back(#[trigger] steps[i]),
    ensures
        forall|i: int|
            0 <= i < steps.len() ==> {
                let b = #[trigger] recipe::steps_dsl(steps)[i];
                &&& b.len() > 0
                &&& text_facts::is_trimmed(b)
                &&& text_facts::free_of(b, '-', '>')
                &&& text_facts::free_of(b, '\n', '\n')
            },
{
    assert forall|i: int| 0 <= i < steps.len() implies {
        let b = #[trigger] recipe::steps_dsl(steps)[i];
        &&& b.len() > 0
        &&& text_facts::is_trimmed(b)
        &&& text_facts::free_of(b, '-', '>')
        &&& text_facts::free_of(b, '\n', '\n')
    } by {
        assert(step_ok(steps[i]));
        lemma_step_back(steps[i], i + 1);
    }
}

/// The source is one block.
proof fn lemma_one_block(r: RecipeView)
    requires
        recipe_ok(r),
        forall|i: int| 0 <= i < r.steps.len() ==> reads_back(#[trigger] r.steps[i]),
        text_facts::free_of(r.source, '\r', '\n'),
    ensures
        parser::blocks(r.source) == seq![r.source],
{
    let s = r.source;
    let bodies = recipe::steps_dsl(r.steps);
    let sep = seq![' ', '-', '>', ' '];
    let tail = text::join(bodies, sep);
    lemma_bodies(r.steps);
    text_facts::lemma_free_occurs(s, '\r', '\n');
    text_facts::lemma_split_none(s, seq!['\r', '\n']);
    assert(text::replaced(s, seq!['\r', '\n'], seq!['\n']) == s);
    assert(!sep.contains('\n'));
    text_facts::lemma_free_join(bodies, sep, '\n', '\n');
    assert(!seq![' ', '=', ' '].contains('\n'));
    text_facts::lemma_free_glue(r.name, seq![' ', '=', ' '], tail, '\n', '\n');
    text_facts::lemma_free_occurs(s, '\n', '\n');
    text_facts::lemma_split_none(s, seq!['\n', '\n']);
    assert(text_facts::is_trimmed(s)) by {
        assert(s[0] == r.name[0]);
        let last = bodies[bodies.len() - 1];
        assert(tail.len() > 0 && tail.last() == last.last()) by {
            assert(bodies.last() == last);
        }
        assert(s.last() == tail.last());
    }
    text_facts::lemma_trimmed_same(s);
    let trim = |p: Seq<char>| text::trimmed(p);
    let keep = |p: Seq<char>| p.len() > 0;
    assert(seq![s].map_values(trim) =~= seq![s]);
    text_facts::lemma_filter_all(seq![s], keep);
}

/// A recipe block with any white space around the `=` and the arrows.
pub open spec fn laid_out(
    name: Seq<char>,
    bodies: Seq<Seq<char>>,
    before_eq: Seq<char>,
    after_eq: Seq<char>,
    before_arrow: Seq<char>,
    after_arrow: Seq<char>,
) -> Seq<char> {
    name + before_eq + seq!['='] + after_eq + text::join(
        bodies,
        before_arrow + seq!['-', '>'] + after_arrow,
    )
}

/// The multi-line file format and the flat wire format are read alike: white space around `=` and
/// `->`, line ends among it, does not change the recipe.
pub proof fn layout_does_not_matter(
    name: Seq<char>,
    bodies: Seq<Seq<char>>,
    before_eq: Seq<char>,
    after_eq: Seq<char>,
    before_arrow: Seq<char>,
    after_arrow: Seq<char>,
)
    requires
        name.len() > 0,
        text_facts::is_trimmed(name),
        !name.contains('='),
        bodies.len() > 0,
        forall|i: int|
            0 <= i < bodies.len() ==> {
                let b = #[trigger] bodies[i];
                b.len() > 0 && text_facts::is_trimmed(b) && text_facts::free_of(b, '-', '>')
            },
        text_facts::all_space(before_eq),
        text_facts::all_space(after_eq),
        text_facts::all_space(before_arrow),
        text_facts::all_space(after_arrow),
    ensures
        parser::spec_recipe(
            laid_out(name, bodies, before_eq, after_eq, before_arrow, after_arrow),
        ) == (match parser::steps_of(bodies) {
            Err(e) => Err::<RecipeView, _>(e),
            Ok(steps) => Ok(
                RecipeView { name, steps, source: recipe::recipe_dsl(name, steps) },
            ),
        }),
{
    let s = laid_out(name, bodies, before_eq, after_eq, before_arrow, after_arrow);
    let tail = text::join(bodies, before_arrow + seq!['-', '>'] + after_arrow);
    let n = (name.len() + before_eq.len()) as int;
    let none = Seq::<char>::empty();
    let keep = |p: Seq<char>| p.len() > 0;
    assert forall|j: int| 0 <= j < n implies s[j] != '=' by {
        if j < name.len() {
            assert(s[j] == name[j]);
            assert(name.contains(name[j]));
        } else {
            assert(s[j] == before_eq[j - name.len()]);
        }
    }
    text_facts::lemma_first_is(s, '=', n);
    let left = s.take(n);
    assert(left =~= none + name + before_eq);
    text_facts::lemma_trimmed_padded(none, name, before_eq);
    let right = s.skip(n + 1);
    assert(right =~= after_eq + tail);
    text_facts::lemma_split_arrows(bodies, after_eq, before_arrow, after_arrow);
    text_facts::lemma_filter_all(bodies, keep);
    assert(text::pieces(right, seq!['-', '>']) == bodies);
}

/// The source as a block is the recipe.
proof fn lemma_block_back(r: RecipeView)
    requires
        recipe_ok(r),
        forall|i: int| 0 <= i < r.steps.len() ==> reads_back(#[trigger] r.steps[i]),
    ensures
        parser::spec_recipe(r.source) == Ok::<_, ParseErrorView>(r),
{
    let bodies = recipe::steps_dsl(r.steps);
    let space = seq![' '];
    lemma_bodies(r.steps);
    layout_does_not_matter(r.name, bodies, space, space, space, space);
    assert(space + seq!['-', '>'] + space =~= seq![' ', '-', '>', ' ']);
    assert(laid_out(r.name, bodies, space, space, space, space) =~= r.source);
    lemma_steps_back(r.steps);
}

/// The source of a recipe is parsed to that very recipe, provided that each step leads back to
/// itself and that the source holds no Windows line end.
pub proof fn source_reads_back(r: RecipeView)
    requires
        recipe_ok(r),
        forall|i: int| 0 <= i < r.steps.len() ==> reads_back(#[trigger] r.steps[i]),
        text_facts::free_of(r.source, '\r', '\n'),
    ensures
        parser::spec_recipes(r.source) == Ok::<_, ParseErrorView>(seq![r]),
{
    lemma_one_block(r);
    lemma_block_back(r);
    let one = seq![r.source];
    assert(one.drop_last() =~= Seq::<Seq<char>>::empty());
    assert(one.last() == r.source);
    reveal_with_fuel(parser::recipes_of, 2);
    assert(Seq::<RecipeView>::empty().push(r) =~= seq![r]);
}

/// What a node sends in answer to a recipe request is read by the receiver as the recipe that the
/// sender holds.
pub proof fn parsed_source_reads_back(input: Seq<char>, i: int)
    requires
        parser::spec_recipes(input) is Ok,
        0 <= i < parser::spec_recipes(input)->Ok_0.len(),
        ({
            let r = parser::spec_recipes(input)->Ok_0[i];
            &&& forall|k: int| 0 <= k < r.steps.len() ==> reads_back(#[trigger] r.steps[k])
            &&& text_facts::free_of(r.source, '\r', '\n')
        }),
    ensures
        ({
            let r = parser::spec_recipes(input)->Ok_0[i];
            parser::spec_recipes(r.source) == Ok::<_, ParseErrorView>(seq![r])
        }),
{
    parsed_recipes_are_canonical(input);
    source_reads_back(parser::spec_recipes(input)->Ok_0[i]);
}

} // verus!
