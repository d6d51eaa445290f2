//! What the grammar says of texts, piece by piece.
use crate::number;
use crate::order;
use crate::protocol::ActionDef;
use crate::protocol::ActionView;
use crate::recipe;
use crate::recipe::action_to_dsl;
use crate::recipe::parser;
use crate::recipe::parser::find_repeat_caret;
use crate::recipe::parser::has_repeat_suffix;
use crate::recipe::parser::parse_action;
use crate::recipe::parser::parse_parallel_step;
use crate::recipe::parser::parse_params;
use crate::recipe::parser::parse_recipe;
use crate::recipe::parser::parse_recipes;
use crate::recipe::parser::parse_repeated_step;
use crate::recipe::parser::parse_step;
use crate::recipe::parser::split_parallel_actions;
use crate::recipe::parser::ParseError;
use crate::recipe::parser::ParseErrorView;
use crate::recipe::roundtrip;
use crate::recipe::step_to_dsl;
use crate::recipe::Recipe;
use crate::recipe::RecipeView;
use crate::recipe::Step;
use crate::recipe::StepView;
use crate::string_map::StringMap;
use crate::text;
use crate::text_facts;
use vstd::prelude::*;

verus! {

// ── Parameters ───────────────────────────────────────────────────────────────

/// The texts of some pairs of keys and values.
pub open spec fn pair_texts(keys: Seq<Seq<char>>, values: Seq<Seq<char>>) -> Seq<Seq<char>> {
    Seq::new(keys.len(), |i: int| keys[i] + seq!['='] + values[i])
}

/// What a pair falls into: the first `=` stands between key and value, however much white space is
/// around them.
proof fn lemma_pair(key: Seq<char>, value: Seq<char>) -> (i: int)
    requires
        !key.contains('='),
    ensures
        ({
            let token = text::trimmed(key + seq!['='] + value);
            &&& token.len() > 0
            &&& token.index_of_first('=') == Some(i)
            &&& text::trimmed(token.take(i)) == text::trimmed(key)
            &&& text::trimmed(token.skip(i + 1)) == text::trimmed(value)
        }),
{
    let s = key + seq!['='] + value;
    let n = key.len() as int;
    let r = text_facts::lemma_trimmed(s);
    let token = text::trimmed(s);
    assert(s[n] == '=' && !text::is_space('='));
    assert(r.0 <= n && n < r.1) by {
        if r.0 > n {
            assert(text::is_space(s[n]));
        }
        if r.1 <= n {
            assert(text::is_space(s[n]));
        }
    }
    let i = n - r.0;
    assert(token[i] == '=');
    assert forall|j: int| 0 <= j < i implies token[j] != '=' by {
        assert(token[j] == key[r.0 + j]);
        assert(key.contains(key[r.0 + j]));
    }
    text_facts::lemma_first_is(token, '=', i);
    assert(token.take(i) =~= key.skip(r.0));
    assert forall|j: int| 0 <= j < key.take(r.0).len() implies text::is_space(
        #[trigger] key.take(r.0)[j],
    ) by {
        assert(s[j] == key[j]);
    }
    text_facts::lemma_trimmed_skip(key, r.0);
    let hi = r.1 - n - 1;
    assert(token.skip(i + 1) =~= value.take(hi));
    assert forall|j: int| 0 <= j < value.skip(hi).len() implies text::is_space(
        #[trigger] value.skip(hi)[j],
    ) by {
        assert(s[r.1 + j] == value[hi + j]);
    }
    text_facts::lemma_trimmed_take(value, hi);
    i
}

/// `m` holds the given keys, each with the value that it was given last.
pub open spec fn holds_last(
    m: Map<Seq<char>, Seq<char>>,
    keys: Seq<Seq<char>>,
    values: Seq<Seq<char>>,
) -> bool {
    &&& forall|k: Seq<char>| #[trigger]
        m.contains_key(k) <==> exists|i: int|
            0 <= i < keys.len() && text::trimmed(#[trigger] keys[i]) == k
    &&& forall|i: int|
        0 <= i < keys.len() && (forall|j: int|
            i < j < keys.len() ==> text::trimmed(#[trigger] keys[j]) != text::trimmed(keys[i]))
            ==> m[text::trimmed(#[trigger] keys[i])] == text::trimmed(values[i])
}

proof fn lemma_pairs(keys: Seq<Seq<char>>, values: Seq<Seq<char>>)
    requires
        keys.len() == values.len(),
        forall|i: int| 0 <= i < keys.len() ==> !(#[trigger] keys[i]).contains('='),
    ensures
        parser::params_of(pair_texts(keys, values)) is Ok,
        holds_last(parser::params_of(pair_texts(keys, values))->Ok_0, keys, values),
    decreases keys.len(),
{
    let all = pair_texts(keys, values);
    if keys.len() == 0 {
        assert(all =~= seq![]);
    } else {
        let front = keys.drop_last();
        let n = keys.len() - 1;
        assert forall|i: int| 0 <= i < front.len() implies !(#[trigger] front[i]).contains('=') by {
            assert(front[i] == keys[i]);
        }
        lemma_pairs(front, values.drop_last());
        assert(all.drop_last() =~= pair_texts(front, values.drop_last()));
        let i = lemma_pair(keys[n], values[n]);
        let m = parser::params_of(all.drop_last())->Ok_0;
        let key = text::trimmed(keys[n]);
        let next = m.insert(key, text::trimmed(values[n]));
        assert(all.last() == keys[n] + seq!['='] + values[n]);
        assert(parser::params_of(all) == Ok::<_, ParseErrorView>(next));
        assert forall|k: Seq<char>| #[trigger] next.contains_key(k) <==> exists|i: int|
            0 <= i < keys.len() && text::trimmed(#[trigger] keys[i]) == k by {
            if m.contains_key(k) {
                let j = choose|j: int|
                    0 <= j < front.len() && text::trimmed(#[trigger] front[j]) == k;
                assert(text::trimmed(keys[j]) == k);
            }
            if k == key {
                assert(text::trimmed(keys[n]) == k);
            }
            if exists|i: int| 0 <= i < keys.len() && text::trimmed(#[trigger] keys[i]) == k {
                let j = choose|j: int| 0 <= j < keys.len() && text::trimmed(#[trigger] keys[j]) == k;
                if j < n {
                    assert(text::trimmed(front[j]) == k);
                }
            }
        }
        assert forall|i: int|
            0 <= i < keys.len() && (forall|j: int|
                i < j < keys.len() ==> text::trimmed(#[trigger] keys[j]) != text::trimmed(
                    keys[i],
                )) implies next[text::trimmed(#[trigger] keys[i])] == text::trimmed(values[i]) by {
            if i < n {
                assert(text::trimmed(keys[n]) != text::trimmed(keys[i]));
                assert forall|j: int| i < j < front.len() implies text::trimmed(#[trigger] front[j])
                    != text::trimmed(front[i]) by {
                    assert(front[j] == keys[j]);
                }
                assert(front[i] == keys[i]);
            }
        }
    }
}

/// A parameter list is read pair by pair: each key gets the value behind its first `=`, both
/// without the white space around them; of a key that comes twice the later value counts; and
/// there are no other keys.
pub proof fn parameters_are_read_pair_by_pair(
    params: &[char],
    keys: Seq<Seq<char>>,
    values: Seq<Seq<char>>,
    r: Result<StringMap<String>, ParseError>,
)
    requires
        keys.len() == values.len(),
        keys.len() > 0,
        forall|i: int|
            0 <= i < keys.len() ==> !(#[trigger] keys[i]).contains('=') && !keys[i].contains(','),
        forall|i: int| 0 <= i < keys.len() ==> !(#[trigger] values[i]).contains(','),
        params@ == text::join(pair_texts(keys, values), seq![',']),
        call_ensures(parse_params, (params,), r),
    ensures
        r matches Ok(m) && holds_last(m@, keys, values),
{
    let tokens = pair_texts(keys, values);
    assert forall|i: int| 0 <= i < tokens.len() implies !(#[trigger] tokens[i]).contains(',') by {
        let t = tokens[i];
        assert forall|j: int| 0 <= j < t.len() implies t[j] != ',' by {
            if j < keys[i].len() {
                assert(keys[i].contains(keys[i][j]));
            } else if j > keys[i].len() {
                assert(values[i].contains(values[i][j - keys[i].len() - 1]));
            }
        }
    }
    text_facts::lemma_split_commas(tokens);
    assert(tokens[0][keys[0].len() as int] == '=');
    lemma_not_blank(params@, tokens);
    lemma_pairs(keys, values);
}

/// A list of pairs is not blank.
proof fn lemma_not_blank(s: Seq<char>, tokens: Seq<Seq<char>>)
    requires
        tokens.len() > 0,
        s == text::join(tokens, seq![',']),
        tokens[0].contains('='),
    ensures
        text::trimmed(s).len() > 0,
{
    let k = choose|k: int| 0 <= k < tokens[0].len() && tokens[0][k] == '=';
    assert(k < s.len() && s[k] == '=') by {
        if tokens.len() > 1 {
            text_facts::lemma_join_first(tokens, seq![',']);
        }
    }
    let r = text_facts::lemma_trimmed(s);
    if r.0 == r.1 {
        assert(text::is_space(s[k]));
    }
}

/// The first part of a parameter list that holds no `=` is reported, as it stands there without the
/// white space around it; a blank list holds no parameters.
pub proof fn malformed_parameters_are_reported(
    params: &[char],
    parts: Seq<Seq<char>>,
    k: int,
    r: Result<StringMap<String>, ParseError>,
)
    requires
        0 <= k < parts.len(),
        forall|i: int| 0 <= i < parts.len() ==> !(#[trigger] parts[i]).contains(','),
        forall|i: int| 0 <= i < k ==> (#[trigger] parts[i]).contains('='),
        !parts[k].contains('='),
        params@ == text::join(parts, seq![',']),
        call_ensures(parse_params, (params,), r),
    ensures
        text::trimmed(params@).len() > 0 ==> (r matches Err(e) && e@ == (
        ParseErrorView::MalformedParam { token: text::trimmed(parts[k]) })),
        text::trimmed(params@).len() == 0 ==> (r matches Ok(m) && m@ == Map::<
            Seq<char>,
            Seq<char>,
        >::empty()),
{
    text_facts::lemma_split_commas(parts);
    lemma_bad_part(parts, k, k + 1);
    lemma_bad_part(parts, k, parts.len() as int);
    assert(parts.take(parts.len() as int) =~= parts);
}

proof fn lemma_bad_part(parts: Seq<Seq<char>>, k: int, n: int)
    requires
        0 <= k < n <= parts.len(),
        forall|i: int| 0 <= i < k ==> (#[trigger] parts[i]).contains('='),
        !parts[k].contains('='),
    ensures
        parser::params_of(parts.take(n)) == Err::<Map<Seq<char>, Seq<char>>, _>(
            ParseErrorView::MalformedParam { token: text::trimmed(parts[k]) },
        ),
    decreases n,
{
    assert(parts.take(n).drop_last() =~= parts.take(n - 1));
    if n - 1 > k {
        lemma_bad_part(parts, k, n - 1);
    } else {
        lemma_good_parts(parts, k);
        let token = text::trimmed(parts[k]);
        token.index_of_first_ensures('=');
        let r = text_facts::lemma_trimmed(parts[k]);
        if token.contains('=') {
            let j = choose|j: int| 0 <= j < token.len() && token[j] == '=';
            assert(parts[k].contains(parts[k][r.0 + j]));
        }
    }
}

proof fn lemma_good_parts(parts: Seq<Seq<char>>, k: int)
    requires
        0 <= k <= parts.len(),
        forall|i: int| 0 <= i < k ==> (#[trigger] parts[i]).contains('='),
    ensures
        parser::params_of(parts.take(k)) is Ok,
    decreases k,
{
    if k > 0 {
        assert(parts.take(k).drop_last() =~= parts.take(k - 1));
        lemma_good_parts(parts, k - 1);
        let s = parts[k - 1];
        let token = text::trimmed(s);
        assert(s.contains('='));
        let j = choose|j: int| 0 <= j < s.len() && s[j] == '=';
        let r = text_facts::lemma_trimmed(s);
        assert(r.0 <= j && j < r.1) by {
            if j < r.0 || r.1 <= j {
                assert(text::is_space(s[j]));
            }
        }
        assert(token[j - r.0] == '=');
        token.index_of_first_ensures('=');
        assert(token.contains('='));
    }
}

// ── Actions ──────────────────────────────────────────────────────────────────

/// An action without an opening parenthesis is its name; one with an opening parenthesis and no
/// closing one behind it is refused under the number of its step.
pub proof fn actions_without_parameters_are_names(
    body: &[char],
    step_idx: usize,
    r: Result<ActionDef, ParseError>,
)
    requires
        call_ensures(parse_action, (body, step_idx), r),
    ensures
        !body@.contains('(') ==> (r matches Ok(a) && a@.name == text::trimmed(body@) && a@.params
            == Map::<Seq<char>, Seq<char>>::empty()),
        (exists|i: int|
            {
                &&& 0 <= i < body@.len()
                &&& #[trigger] body@[i] == '('
                &&& forall|j: int| 0 <= j < i ==> body@[j] != '('
                &&& forall|j: int| i < j < body@.len() ==> body@[j] != ')'
            }) ==> (r matches Err(e) && e@ == (ParseErrorView::UnmatchedBracket {
            step: step_idx as int,
        })),
{
    let s = body@;
    s.index_of_first_ensures('(');
    s.index_of_last_ensures(')');
    if exists|i: int|
        {
            &&& 0 <= i < s.len()
            &&& #[trigger] s[i] == '('
            &&& forall|j: int| 0 <= j < i ==> s[j] != '('
            &&& forall|j: int| i < j < s.len() ==> s[j] != ')'
        } {
        let i = choose|i: int|
            {
                &&& 0 <= i < s.len()
                &&& #[trigger] s[i] == '('
                &&& forall|j: int| 0 <= j < i ==> s[j] != '('
                &&& forall|j: int| i < j < s.len() ==> s[j] != ')'
            };
        text_facts::lemma_first_is(s, '(', i);
    }
}

/// What stands between the first opening and the last closing parenthesis are the parameters, what
/// stands before is the name, and what stands behind does not count.
pub proof fn parameters_stand_in_parentheses(
    body: &[char],
    step_idx: usize,
    name: Seq<char>,
    inner: &[char],
    behind: Seq<char>,
    params: Result<StringMap<String>, ParseError>,
    r: Result<ActionDef, ParseError>,
)
    requires
        !name.contains('('),
        !behind.contains(')'),
        body@ == name + seq!['('] + inner@ + seq![')'] + behind,
        call_ensures(parse_params, (inner,), params),
        call_ensures(parse_action, (body, step_idx), r),
    ensures
        match (params, r) {
            (Ok(m), Ok(a)) => a@.name == text::trimmed(name) && a@.params == m@,
            (Err(e), Err(f)) => e@ == f@,
            _ => false,
        },
{
    let s = body@;
    let open = name.len() as int;
    let close = open + 1 + inner@.len();
    assert forall|j: int| 0 <= j < open implies s[j] != '(' by {
        assert(name.contains(name[j]));
    }
    text_facts::lemma_first_is(s, '(', open);
    assert forall|j: int| close < j < s.len() implies s[j] != ')' by {
        assert(behind.contains(behind[j - close - 1]));
    }
    text_facts::lemma_last_is(s, ')', close);
    assert(s.subrange(open + 1, close) =~= inner@);
    assert(s.take(open) =~= name);
}

// ── Parallel steps ───────────────────────────────────────────────────────────

/// Parentheses are counted from the front: each opening one counts, each closing one takes one
/// back as long as there is one, and nothing else counts.
pub proof fn parentheses_are_counted(s: Seq<char>, c: char)
    ensures
        parser::depth(Seq::<char>::empty()) == 0,
        parser::depth(s.push('(')) == parser::depth(s) + 1,
        parser::depth(s.push(')')) == (if parser::depth(s) > 0 {
            parser::depth(s) - 1
        } else {
            0
        }),
        c != '(' && c != ')' ==> parser::depth(s.push(c)) == parser::depth(s),
{
    assert(s.push('(').drop_last() =~= s);
    assert(s.push(')').drop_last() =~= s);
    assert(s.push(c).drop_last() =~= s);
}

/// A list of actions is cut at the commas that stand outside all parentheses: a part without such a
/// comma that closes its parentheses, and then a comma, gives that part without the white space
/// around it and then what the rest gives. A last part that is blank gives nothing.
pub proof fn lists_are_cut_at_outer_commas(
    part: &[char],
    rest: &[char],
    both: &[char],
    of_part: Vec<String>,
    of_rest: Vec<String>,
    r: Vec<String>,
)
    requires
        roundtrip::no_outer_comma(part@),
        both@ == part@ + seq![','] + rest@,
        call_ensures(split_parallel_actions, (part,), of_part),
        call_ensures(split_parallel_actions, (rest,), of_rest),
        call_ensures(split_parallel_actions, (both,), r),
    ensures
        text::views(of_part@) == (if text::trimmed(part@).len() > 0 {
            seq![text::trimmed(part@)]
        } else {
            seq![]
        }),
        parser::depth(part@) == 0 ==> text::views(r@) == seq![text::trimmed(part@)] + text::views(
            of_rest@,
        ),
{
    let trim = |p: Seq<char>| text::trimmed(p);
    lemma_no_outer_comma(part@);
    assert(parser::top_pieces(part@).map_values(trim) =~= seq![text::trimmed(part@)]);
    assert(seq![text::trimmed(part@)].drop_last() =~= seq![]);
    if parser::depth(part@) == 0 {
        lemma_cut(part@, rest@);
        lemma_some_piece(rest@);
        let a = parser::top_pieces(both@).map_values(trim);
        let b = parser::top_pieces(rest@).map_values(trim);
        assert(a =~= seq![text::trimmed(part@)] + b);
        assert(a.last() == b.last());
        assert(a.drop_last() =~= seq![text::trimmed(part@)] + b.drop_last());
    }
}

proof fn lemma_some_piece(s: Seq<char>)
    ensures
        parser::top_pieces(s).len() > 0,
    decreases s.len(),
{
    if s.len() > 0 {
        lemma_some_piece(s.drop_last());
    }
}

proof fn lemma_no_outer_comma(s: Seq<char>)
    requires
        roundtrip::no_outer_comma(s),
    ensures
        parser::top_pieces(s) == seq![s],
    decreases s.len(),
{
    if s.len() == 0 {
        assert(s =~= Seq::<char>::empty());
    } else {
        let front = s.drop_last();
        assert forall|i: int| 0 <= i < front.len() && #[trigger] front[i] == ',' implies parser::depth(
            front.take(i),
        ) > 0 by {
            assert(s[i] == ',');
            assert(front.take(i) =~= s.take(i));
        }
        lemma_no_outer_comma(front);
        assert(s.take(s.len() - 1) =~= front);
        assert(s[s.len() - 1] == s.last());
        assert(seq![front].drop_last().push(front.push(s.last())) =~= seq![s]) by {
            assert(front.push(s.last()) =~= s);
        }
    }
}

proof fn lemma_cut(part: Seq<char>, rest: Seq<char>)
    requires
        roundtrip::no_outer_comma(part),
        parser::depth(part) == 0,
    ensures
        parser::top_pieces(part + seq![','] + rest) == seq![part] + parser::top_pieces(rest),
        parser::depth(part + seq![','] + rest) == parser::depth(rest),
    decreases rest.len(),
{
    let s = part + seq![','] + rest;
    if rest.len() == 0 {
        assert(s.drop_last() =~= part);
        lemma_no_outer_comma(part);
        assert(parser::top_pieces(s) =~= seq![part] + parser::top_pieces(rest));
    } else {
        let front = rest.drop_last();
        assert(s.drop_last() =~= part + seq![','] + front);
        lemma_cut(part, front);
        lemma_some_piece(front);
        let before = parser::top_pieces(front);
        assert((seq![part] + before).last() == before.last());
        assert((seq![part] + before).drop_last() =~= seq![part] + before.drop_last());
        assert(parser::top_pieces(s) =~= seq![part] + parser::top_pieces(rest));
    }
}

/// `actions` is what the tokens stand for, one action each and in order.
pub open spec fn are_read(
    tokens: Seq<Seq<char>>,
    step: int,
    actions: Seq<ActionView>,
) -> bool {
    &&& actions.len() == tokens.len()
    &&& forall|i: int|
        0 <= i < tokens.len() ==> parser::spec_action(#[trigger] tokens[i], step) == Ok::<
            _,
            ParseErrorView,
        >(actions[i])
}

proof fn lemma_read(tokens: Seq<Seq<char>>, step: int, actions: Seq<ActionView>)
    requires
        are_read(tokens, step, actions),
    ensures
        parser::actions_of(tokens, step) == Ok::<_, ParseErrorView>(actions),
    decreases tokens.len(),
{
    if tokens.len() == 0 {
        assert(actions =~= seq![]);
    } else {
        let front = tokens.drop_last();
        assert forall|i: int| 0 <= i < front.len() implies parser::spec_action(
            #[trigger] front[i],
            step,
        ) == Ok::<_, ParseErrorView>(actions.drop_last()[i]) by {
            assert(front[i] == tokens[i]);
        }
        lemma_read(front, step, actions.drop_last());
        assert(parser::spec_action(tokens[tokens.len() - 1], step) == Ok::<_, ParseErrorView>(
            actions[tokens.len() - 1],
        ));
        assert(actions.drop_last().push(actions.last()) =~= actions);
    }
}

proof fn lemma_not_read(tokens: Seq<Seq<char>>, step: int, k: int, n: int)
    requires
        0 <= k < n <= tokens.len(),
        forall|i: int| 0 <= i < k ==> parser::spec_action(#[trigger] tokens[i], step) is Ok,
        parser::spec_action(tokens[k], step) is Err,
    ensures
        parser::actions_of(tokens.take(n), step) == Err::<Seq<ActionView>, _>(
            parser::spec_action(tokens[k], step)->Err_0,
        ),
    decreases n,
{
    assert(tokens.take(n).drop_last() =~= tokens.take(n - 1));
    if n - 1 > k {
        lemma_not_read(tokens, step, k, n - 1);
    } else {
        let front = tokens.take(k);
        let actions = Seq::new(k as nat, |i: int| parser::spec_action(tokens[i], step)->Ok_0);
        assert forall|i: int| 0 <= i < front.len() implies parser::spec_action(
            #[trigger] front[i],
            step,
        ) == Ok::<_, ParseErrorView>(actions[i]) by {
            assert(front[i] == tokens[i]);
        }
        lemma_read(front, step, actions);
    }
}

/// A parallel step is its actions, in order: all parts between the brackets that are not blank, of
/// which there must be two at least. The first action that cannot be read is reported.
pub proof fn parallel_steps_hold_their_actions(
    body: &[char],
    step_idx: usize,
    inner: &[char],
    tokens: Vec<String>,
    r: Result<Step, ParseError>,
)
    requires
        body@ == seq!['['] + inner@ + seq![']'],
        call_ensures(split_parallel_actions, (inner,), tokens),
        call_ensures(parse_parallel_step, (body, step_idx), r),
    ensures
        ({
            let step = step_idx as int;
            let named = text::views(tokens@).filter(|t: Seq<char>| t.len() > 0);
            &&& forall|actions: Seq<ActionView>| #[trigger]
                are_read(named, step, actions) ==> if actions.len() >= 2 {
                    r matches Ok(s) && s@ == StepView::Parallel(actions)
                } else {
                    r matches Err(e) && e@ == (ParseErrorView::UnmatchedBracket { step })
                }
            &&& forall|k: int|
                0 <= k < named.len() && parser::spec_action(#[trigger] named[k], step) is Err && (
                forall|i: int| 0 <= i < k ==> parser::spec_action(#[trigger] named[i], step) is Ok)
                    ==> (r matches Err(e) && e@ == parser::spec_action(named[k], step)->Err_0)
        }),
{
    let step = step_idx as int;
    let named = text::views(tokens@).filter(|t: Seq<char>| t.len() > 0);
    assert(body@.subrange(1, body@.len() - 1) =~= inner@);
    assert forall|actions: Seq<ActionView>| #[trigger]
        are_read(named, step, actions) implies if actions.len() >= 2 {
        r matches Ok(s) && s@ == StepView::Parallel(actions)
    } else {
        r matches Err(e) && e@ == (ParseErrorView::UnmatchedBracket { step })
    } by {
        lemma_read(named, step, actions);
    }
    assert forall|k: int|
        0 <= k < named.len() && parser::spec_action(#[trigger] named[k], step) is Err && (forall|
            i: int,
        |
            0 <= i < k ==> parser::spec_action(#[trigger] named[i], step) is Ok) implies (
    r matches Err(e) && e@ == parser::spec_action(named[k], step)->Err_0) by {
        lemma_not_read(named, step, k, named.len() as int);
        assert(named.take(named.len() as int) =~= named);
    }
}

/// What is not in brackets is no parallel step.
pub proof fn parallel_steps_stand_in_brackets(
    body: &[char],
    step_idx: usize,
    r: Result<Step, ParseError>,
)
    requires
        body@.len() < 2 || body@[0] != '[' || body@.last() != ']',
        call_ensures(parse_parallel_step, (body, step_idx), r),
    ensures
        r matches Err(e) && e@ == (ParseErrorView::UnmatchedBracket { step: step_idx as int }),
{
}

// ── Steps ────────────────────────────────────────────────────────────────────

/// A step is one of three: what starts with a bracket is a parallel step; what has a parenthesis
/// behind each `^` is a single action.
pub proof fn steps_are_told_apart(
    body: &[char],
    step_idx: usize,
    parallel: Result<Step, ParseError>,
    action: Result<ActionDef, ParseError>,
    r: Result<Step, ParseError>,
)
    requires
        call_ensures(parse_parallel_step, (body, step_idx), parallel),
        call_ensures(parse_action, (body, step_idx), action),
        call_ensures(parse_step, (body, step_idx), r),
    ensures
        body@.len() > 0 && body@[0] == '[' ==> match (parallel, r) {
            (Ok(s), Ok(t)) => s@ == t@,
            (Err(e), Err(f)) => e@ == f@,
            _ => false,
        },
        (body@.len() > 0 ==> body@[0] != '[') && (forall|i: int|
            0 <= i < body@.len() && #[trigger] body@[i] == '^' ==> is_followed(body@, i))
            ==> match (action, r) {
            (Ok(a), Ok(t)) => t@ == StepView::Single(a@),
            (Err(e), Err(f)) => e@ == f@,
            _ => false,
        },
{
    let s = body@;
    if forall|i: int| 0 <= i < s.len() && #[trigger] s[i] == '^' ==> is_followed(s, i) {
        assert forall|i: int| !parser::is_suffix_caret(s, i) && !parser::is_repeat_caret(s, i) by {
            if 0 <= i < s.len() && s[i] == '^' {
                assert(is_followed(s, i));
                let j = choose|j: int|
                    i < j < s.len() && (#[trigger] s[j] == '(' || s[j] == ')');
                assert(parser::is_parenthesis(s[j]));
                if parser::is_repeat_caret(s, i) {
                    assert(number::is_digit(s.skip(i + 1)[j - i - 1]));
                }
            }
        }
    }
}

/// A parenthesis stands behind a position.
pub open spec fn is_followed(s: Seq<char>, i: int) -> bool {
    exists|j: int| i < j < s.len() && (#[trigger] s[j] == '(' || s[j] == ')')
}

/// Digits behind a `^` outside all parentheses are a repeat count: a positive one that fits repeats
/// the action before it, any other is refused under the number of the step. So is a `^` with
/// anything else behind it, unless that holds a parenthesis or another `^`.
pub proof fn repeat_counts_repeat_the_action(
    body: &[char],
    step_idx: usize,
    front: Seq<char>,
    count: Seq<char>,
    part: &[char],
    action: Result<ActionDef, ParseError>,
    r: Result<Step, ParseError>,
)
    requires
        body@ == front + seq!['^'] + count,
        parser::depth(front) == 0,
        front.len() > 0 ==> front[0] != '[',
        part@ == text::trimmed(front),
        call_ensures(parse_action, (part, step_idx), action),
        call_ensures(parse_step, (body, step_idx), r),
    ensures
        ({
            let n = number::decimal_value(count);
            if count.len() > 0 && number::all_digits(count) && 0 < n <= u32::MAX {
                match (action, r) {
                    (Ok(a), Ok(t)) => t@ == StepView::Repeated(a@, n as u32),
                    (Err(e), Err(f)) => e@ == f@,
                    _ => false,
                }
            } else {
                !count.contains('^') && !count.contains('(') && !count.contains(')') ==> (r matches
                    Err(e) && e@ == (ParseErrorView::InvalidRepeat { step: step_idx as int }))
            }
        }),
{
    let s = body@;
    let c = front.len() as int;
    assert(s.take(c) =~= front);
    assert(s.skip(c + 1) =~= count);
    assert(s[c] == '^');
    assert(parser::is_outer_caret(s, c));
    assert(s[0] != '[');
    if count.len() > 0 && number::all_digits(count) {
        assert(parser::is_repeat_caret(s, c));
        parser::lemma_repeat_caret_unique(s, c, choose|i: int| parser::is_repeat_caret(s, i));
        assert(count[0] != '+') by {
            assert(number::is_digit(count[0]));
        }
    } else if !count.contains('^') && !count.contains('(') && !count.contains(')') {
        assert forall|j: int| c < j < s.len() implies !parser::is_parenthesis(#[trigger] s[j]) by {
            assert(count.contains(count[j - c - 1]));
        }
        assert(parser::is_suffix_caret(s, c));
        assert forall|i: int| !parser::is_repeat_caret(s, i) by {
            if parser::is_repeat_caret(s, i) {
                if i < c {
                    assert(number::is_digit(s.skip(i + 1)[c - i - 1]));
                } else if i > c {
                    assert(count.contains(count[i - c - 1]));
                }
            }
        }
    }
}

/// What is read as a repeat count: digits with or without a plus sign in front, of a positive
/// number that fits; the action before it is repeated that often.
pub proof fn repeated_steps_count(
    body: &[char],
    caret_pos: usize,
    step_idx: usize,
    r: Result<Step, ParseError>,
)
    requires
        caret_pos < body@.len(),
        call_ensures(parse_repeated_step, (body, caret_pos, step_idx), r),
    ensures
        ({
            let behind = body@.skip(caret_pos + 1);
            let digits = if behind.len() > 0 && behind[0] == '+' {
                behind.skip(1)
            } else {
                behind
            };
            let n = number::decimal_value(digits);
            let action = parser::spec_action(
                text::trimmed(body@.take(caret_pos as int)),
                step_idx as int,
            );
            if digits.len() > 0 && number::all_digits(digits) && 0 < n <= u32::MAX {
                match (action, r) {
                    (Ok(a), Ok(t)) => t@ == StepView::Repeated(a, n as u32),
                    (Err(e), Err(f)) => e == f@,
                    _ => false,
                }
            } else {
                r matches Err(e) && e@ == (ParseErrorView::InvalidRepeat { step: step_idx as int })
            }
        }),
{
    let behind = body@.skip(caret_pos + 1);
    if behind.len() > 0 && behind[0] == '+' {
        assert(behind.skip(1) =~= behind.drop_first());
    }
}

// ── Recipes ──────────────────────────────────────────────────────────────────

/// `steps` is what the bodies stand for, one step each and in order, counted from one.
pub open spec fn are_steps(bodies: Seq<Seq<char>>, steps: Seq<StepView>) -> bool {
    &&& steps.len() == bodies.len()
    &&& forall|i: int|
        0 <= i < bodies.len() ==> parser::spec_step(#[trigger] bodies[i], i + 1) == Ok::<
            _,
            ParseErrorView,
        >(steps[i])
}

proof fn lemma_steps(bodies: Seq<Seq<char>>, steps: Seq<StepView>)
    requires
        are_steps(bodies, steps),
    ensures
        parser::steps_of(bodies) == Ok::<_, ParseErrorView>(steps),
    decreases bodies.len(),
{
    if bodies.len() == 0 {
        assert(steps =~= seq![]);
    } else {
        let front = bodies.drop_last();
        assert forall|i: int| 0 <= i < front.len() implies parser::spec_step(
            #[trigger] front[i],
            i + 1,
        ) == Ok::<_, ParseErrorView>(steps.drop_last()[i]) by {
            assert(front[i] == bodies[i]);
        }
        lemma_steps(front, steps.drop_last());
        let n = bodies.len() - 1;
        assert(parser::spec_step(bodies[n], n + 1) == Ok::<_, ParseErrorView>(steps[n]));
        assert(steps.drop_last().push(steps.last()) =~= steps);
    }
}

proof fn lemma_bad_step(bodies: Seq<Seq<char>>, k: int, n: int)
    requires
        0 <= k < n <= bodies.len(),
        forall|i: int| 0 <= i < k ==> parser::spec_step(#[trigger] bodies[i], i + 1) is Ok,
        parser::spec_step(bodies[k], k + 1) is Err,
    ensures
        parser::steps_of(bodies.take(n)) == Err::<Seq<StepView>, _>(
            parser::spec_step(bodies[k], k + 1)->Err_0,
        ),
    decreases n,
{
    assert(bodies.take(n).drop_last() =~= bodies.take(n - 1));
    if n - 1 > k {
        lemma_bad_step(bodies, k, n - 1);
    } else {
        let front = bodies.take(k);
        let steps = Seq::new(k as nat, |i: int| parser::spec_step(bodies[i], i + 1)->Ok_0);
        assert forall|i: int| 0 <= i < front.len() implies parser::spec_step(
            #[trigger] front[i],
            i + 1,
        ) == Ok::<_, ParseErrorView>(steps[i]) by {
            assert(front[i] == bodies[i]);
        }
        lemma_steps(front, steps);
    }
}

/// The parts without the white space around them, but for the blank ones.
pub open spec fn not_blank(parts: Seq<Seq<char>>) -> Seq<Seq<char>> {
    parts.map_values(|p: Seq<char>| text::trimmed(p)).filter(|p: Seq<char>| p.len() > 0)
}

/// A recipe is its name, which stands before the first `=`, and its steps, which stand between the
/// arrows behind it: all that are not blank, in order. A text without `=`, without a name or
/// without a step is refused, and the first step that cannot be read is reported under its number.
pub proof fn recipes_are_names_and_steps(
    block: &[char],
    name: Seq<char>,
    parts: Seq<Seq<char>>,
    r: Result<Recipe, ParseError>,
)
    requires
        !name.contains('='),
        parts.len() > 0,
        forall|i: int| 0 <= i < parts.len() ==> text_facts::free_of(#[trigger] parts[i], '-', '>'),
        block@ == name + seq!['='] + text::join(parts, seq!['-', '>']),
        call_ensures(parse_recipe, (block,), r),
    ensures
        ({
            let bodies = not_blank(parts);
            if text::trimmed(name).len() == 0 {
                r matches Err(e) && e@ == ParseErrorView::EmptyName
            } else if bodies.len() == 0 {
                r matches Err(e) && e@ == (ParseErrorView::NoSteps { recipe: text::trimmed(name) })
            } else {
                &&& forall|steps: Seq<StepView>| #[trigger]
                    are_steps(bodies, steps) ==> (r matches Ok(x) && x@.name == text::trimmed(name)
                        && x@.steps == steps && x@.source == recipe::recipe_dsl(
                        text::trimmed(name),
                        steps,
                    ))
                &&& forall|k: int|
                    0 <= k < bodies.len() && parser::spec_step(#[trigger] bodies[k], k + 1) is Err
                        && (forall|i: int|
                        0 <= i < k ==> parser::spec_step(#[trigger] bodies[i], i + 1) is Ok) ==> (
                    r matches Err(e) && e@ == parser::spec_step(bodies[k], k + 1)->Err_0)
            }
        }),
{
    let s = block@;
    let n = name.len() as int;
    let tail = text::join(parts, seq!['-', '>']);
    let bodies = not_blank(parts);
    assert forall|j: int| 0 <= j < n implies s[j] != '=' by {
        assert(name.contains(name[j]));
    }
    text_facts::lemma_first_is(s, '=', n);
    assert(s.take(n) =~= name);
    assert(s.skip(n + 1) =~= tail);
    text_facts::lemma_split_joined(parts, '-', '>');
    assert(text::pieces(tail, seq!['-', '>']) == bodies);
    if text::trimmed(name).len() > 0 && bodies.len() > 0 {
        assert forall|steps: Seq<StepView>| #[trigger]
            are_steps(bodies, steps) implies (r matches Ok(x) && x@.name == text::trimmed(name)
            && x@.steps == steps && x@.source == recipe::recipe_dsl(text::trimmed(name), steps)) by {
            lemma_steps(bodies, steps);
        }
        assert forall|k: int|
            0 <= k < bodies.len() && parser::spec_step(#[trigger] bodies[k], k + 1) is Err && (
            forall|i: int|
                0 <= i < k ==> parser::spec_step(#[trigger] bodies[i], i + 1) is Ok) implies (
        r matches Err(e) && e@ == parser::spec_step(bodies[k], k + 1)->Err_0) by {
            lemma_bad_step(bodies, k, bodies.len() as int);
            assert(bodies.take(bodies.len() as int) =~= bodies);
        }
    }
}

/// A block without `=` is no recipe.
pub proof fn recipes_need_an_equals_sign(block: &[char], r: Result<Recipe, ParseError>)
    requires
        !block@.contains('='),
        call_ensures(parse_recipe, (block,), r),
    ensures
        r matches Err(e) && e@ == ParseErrorView::MissingEquals,
{
    block@.index_of_first_ensures('=');
}

/// A text without a blank line is one recipe, or none where it is blank; a text with a blank line
/// is what stands before it and then what stands behind it, and the first error counts.
pub proof fn blank_lines_part_recipes(
    a: &str,
    b: &str,
    both: &str,
    block: &[char],
    of_block: Result<Recipe, ParseError>,
    ra: Result<Vec<Recipe>, ParseError>,
    rb: Result<Vec<Recipe>, ParseError>,
    r: Result<Vec<Recipe>, ParseError>,
)
    requires
        both@ == a@ + seq!['\n', '\n'] + b@,
        block@ == text::trimmed(a@),
        call_ensures(parse_recipe, (block,), of_block),
        call_ensures(parse_recipes, (a,), ra),
        call_ensures(parse_recipes, (b,), rb),
        call_ensures(parse_recipes, (both,), r),
    ensures
        match (ra, rb, r) {
            (Err(e), _, Err(f)) => e@ == f@,
            (Ok(x), Err(e), Err(f)) => e@ == f@,
            (Ok(x), Ok(y), Ok(z)) => text::views(z@) == text::views(x@) + text::views(y@),
            _ => false,
        },
        text_facts::free_of(a@, '\n', '\n') && text_facts::free_of(a@, '\r', '\n')
            ==> if text::trimmed(a@).len() == 0 {
            ra matches Ok(x) && x@.len() == 0
        } else {
            match (of_block, ra) {
                (Ok(one), Ok(x)) => x@.len() == 1 && x@[0]@ == one@,
                (Err(e), Err(f)) => e@ == f@,
                _ => false,
            }
        },
{
    parser::joined_texts_parse_in_order(a@, b@);
    if text_facts::free_of(a@, '\n', '\n') && text_facts::free_of(a@, '\r', '\n') {
        lemma_one_block(a@);
        if let Ok(x) = ra {
            assert(text::views(x@).len() == x@.len());
            if x@.len() == 1 {
                assert(text::views(x@)[0] == x@[0]@);
            }
        }
    }
}

/// A text without a blank line is one block, or none.
proof fn lemma_one_block(s: Seq<char>)
    requires
        text_facts::free_of(s, '\n', '\n'),
        text_facts::free_of(s, '\r', '\n'),
    ensures
        parser::spec_recipes(s) == (if text::trimmed(s).len() == 0 {
            Ok(seq![])
        } else {
            match parser::spec_recipe(text::trimmed(s)) {
                Err(e) => Err(e),
                Ok(x) => Ok(seq![x]),
            }
        }),
{
    let t = text::trimmed(s);
    let keep = |p: Seq<char>| p.len() > 0;
    let none = Seq::<Seq<char>>::empty();
    text_facts::lemma_free_occurs(s, '\r', '\n');
    text_facts::lemma_split_none(s, seq!['\r', '\n']);
    assert(text::replaced(s, seq!['\r', '\n'], seq!['\n']) == s);
    text_facts::lemma_free_occurs(s, '\n', '\n');
    text_facts::lemma_split_none(s, seq!['\n', '\n']);
    assert(seq![s].map_values(|p: Seq<char>| text::trimmed(p)) =~= none.push(t));
    none.lemma_filter_push(t, keep);
    assert(none.filter(keep) =~= none) by {
        reveal(Seq::filter);
    }
    let blocks = parser::blocks(s);
    reveal_with_fuel(parser::recipes_of, 2);
    if t.len() > 0 {
        assert(blocks =~= seq![t]);
        assert(blocks.drop_last() =~= none);
        assert(Seq::<RecipeView>::empty().push(parser::spec_recipe(t)->Ok_0) =~= seq![
            parser::spec_recipe(t)->Ok_0,
        ]);
    } else {
        assert(blocks =~= none);
    }
}

/// Windows line ends read as plain ones: lines that end with a carriage return and a line feed give
/// what the same lines give that end with a line feed alone.
pub proof fn line_ends_do_not_matter(
    lines: Seq<Seq<char>>,
    windows: &str,
    plain: &str,
    rw: Result<Vec<Recipe>, ParseError>,
    rp: Result<Vec<Recipe>, ParseError>,
)
    requires
        lines.len() > 0,
        forall|i: int|
            0 <= i < lines.len() ==> !(#[trigger] lines[i]).contains('\n') && !lines[i].contains(
                '\r',
            ),
        windows@ == text::join(lines, seq!['\r', '\n']),
        plain@ == text::join(lines, seq!['\n']),
        call_ensures(parse_recipes, (windows,), rw),
        call_ensures(parse_recipes, (plain,), rp),
    ensures
        match (rw, rp) {
            (Ok(x), Ok(y)) => text::views(x@) == text::views(y@),
            (Err(e), Err(f)) => e@ == f@,
            _ => false,
        },
{
    assert forall|i: int| 0 <= i < lines.len() implies text_facts::free_of(
        #[trigger] lines[i],
        '\r',
        '\n',
    ) by {
        text_facts::lemma_free_of_none(lines[i], '\r', '\n');
    }
    text_facts::lemma_split_joined(lines, '\r', '\n');
    lemma_no_return(lines);
    text_facts::lemma_free_of_none(plain@, '\r', '\n');
    text_facts::lemma_free_occurs(plain@, '\r', '\n');
    text_facts::lemma_split_none(plain@, seq!['\r', '\n']);
    assert(text::replaced(plain@, seq!['\r', '\n'], seq!['\n']) == plain@);
    assert(text::replaced(windows@, seq!['\r', '\n'], seq!['\n']) == plain@);
}

proof fn lemma_no_return(lines: Seq<Seq<char>>)
    requires
        forall|i: int| 0 <= i < lines.len() ==> !(#[trigger] lines[i]).contains('\r'),
    ensures
        !text::join(lines, seq!['\n']).contains('\r'),
    decreases lines.len(),
{
    let s = text::join(lines, seq!['\n']);
    if lines.len() > 1 {
        let front = lines.drop_last();
        assert forall|i: int| 0 <= i < front.len() implies !(#[trigger] front[i]).contains('\r') by {
            assert(front[i] == lines[i]);
        }
        lemma_no_return(front);
        let a = text::join(front, seq!['\n']);
        let last = lines[lines.len() - 1];
        assert(lines.last() == last);
        assert forall|j: int| 0 <= j < s.len() implies s[j] != '\r' by {
            if j < a.len() {
                assert(a.contains(a[j]));
            } else if j > a.len() {
                assert(last.contains(last[j - a.len() - 1]));
            }
        }
    } else if lines.len() == 1 {
        assert(!lines[0].contains('\r'));
    }
}

// ── Messages ─────────────────────────────────────────────────────────────────

/// The message of an error says what is wrong and where: it names the recipe, the number of the
/// step or the parameter.
pub proof fn errors_say_what_is_wrong(e: ParseError, r: String)
    requires
        call_ensures(ParseError::message, (&e,), r),
    ensures
        e@ == ParseErrorView::MissingEquals ==> r@ == "recipe block is missing '='"@,
        e@ == ParseErrorView::EmptyName ==> r@ == "recipe name is empty"@,
        e@ is NoSteps ==> r@ == "recipe '"@ + e@->recipe + "' has no steps"@,
        e@ is UnmatchedBracket ==> r@ == "step "@ + number::decimal(
            e@->UnmatchedBracket_step as nat,
        ) + ": unmatched '[' or ']' in parallel step"@,
        e@ is InvalidRepeat ==> r@ == "step "@ + number::decimal(e@->InvalidRepeat_step as nat)
            + ": invalid or zero repeat count after '^'"@,
        e@ is MalformedParam ==> r@ == "malformed parameter '"@ + e@->token
            + "': expected key=value"@,
{
}

// ── Text form ────────────────────────────────────────────────────────────────

/// The text form of an action is its name alone, or its name and all its parameters in parentheses,
/// as `key=value` in ascending order of the keys.
pub proof fn actions_are_written_out(action: &ActionDef, keys: Seq<Seq<char>>, r: String)
    requires
        order::ascending(keys),
        keys.to_set() == action@.params.dom(),
        call_ensures(action_to_dsl, (action,), r),
    ensures
        ({
            let values = Seq::new(keys.len(), |i: int| action@.params[keys[i]]);
            r@ == (if keys.len() == 0 {
                action@.name
            } else {
                action@.name + seq!['('] + text::join(pair_texts(keys, values), seq![','])
                    + seq![')']
            })
        }),
{
    let values = Seq::new(keys.len(), |i: int| action@.params[keys[i]]);
    order::lemma_sorted_is(keys);
    if keys.len() == 0 {
        assert(action@.params.dom() =~= Set::empty());
        assert(action@.params =~= Map::<Seq<char>, Seq<char>>::empty());
    } else {
        assert(keys.to_set().contains(keys[0]));
        assert(action@.params.contains_key(keys[0]));
        assert(recipe::pairs_dsl(action@.params) =~= pair_texts(keys, values));
    }
}

/// The text form of a step: that of its action; those of its actions in brackets with commas
/// between them; or that of its action with its count behind a `^`.
pub proof fn steps_are_written_out(step: &Step, r: String)
    requires
        call_ensures(step_to_dsl, (step,), r),
    ensures
        match step@ {
            StepView::Single(a) => r@ == recipe::action_dsl(a),
            StepView::Parallel(actions) => r@ == seq!['['] + text::join(
                Seq::new(actions.len(), |i: int| recipe::action_dsl(actions[i])),
                seq![',', ' '],
            ) + seq![']'],
            StepView::Repeated(a, n) => r@ == recipe::action_dsl(a) + seq!['^'] + number::decimal(
                n as nat,
            ),
        },
{
    if step@ is Parallel {
        let actions = step@->Parallel_0;
        assert(Seq::new(actions.len(), |i: int| recipe::action_dsl(actions[i]))
            =~= recipe::actions_dsl(actions));
    }
}

/// The text form of a recipe is its name and the text forms of all its steps, in one line.
pub proof fn recipes_are_written_out(x: &Recipe, r: String)
    requires
        call_ensures(Recipe::to_dsl_string, (x,), r),
    ensures
        r@ == x@.name + seq![' ', '=', ' '] + text::join(
            Seq::new(x@.steps.len(), |i: int| recipe::step_dsl(x@.steps[i])),
            seq![' ', '-', '>', ' '],
        ),
{
    assert(Seq::new(x@.steps.len(), |i: int| recipe::step_dsl(x@.steps[i])) =~= recipe::steps_dsl(
        x@.steps,
    ));
}

/// Behind an action whose parentheses are closed, a `^` and at least one digit are a repeat count;
/// its `^` is found wherever there is one, and nothing else is taken for it.
pub proof fn repeat_counts_are_found(
    action: Seq<char>,
    count: Seq<char>,
    whole: &[char],
    other: &[char],
    r: Option<usize>,
    q: Option<usize>,
)
    requires
        whole@ == action + seq!['^'] + count,
        parser::depth(action) == 0,
        count.len() > 0,
        number::are_digits(count),
        call_ensures(find_repeat_caret, (whole,), r),
        call_ensures(find_repeat_caret, (other,), q),
    ensures
        r matches Some(i) && i == action.len(),
        q matches Some(i) ==> {
            &&& i + 1 < other@.len()
            &&& other@[i as int] == '^'
            &&& parser::depth(other@.take(i as int)) == 0
            &&& number::are_digits(other@.skip(i + 1))
        },
{
    let n = action.len() as int;
    assert(whole@.take(n) =~= action);
    assert(whole@.skip(n + 1) =~= count);
    assert(number::all_digits(count));
    assert(parser::is_repeat_caret(whole@, n));
    if let Some(i) = r {
        parser::lemma_repeat_caret_unique(whole@, i as int, n);
    }
}

/// Behind an action whose parentheses are closed, a `^` with no parenthesis behind it starts a
/// repeat suffix, with or without a count; without such a `^` there is no suffix.
pub proof fn repeat_suffixes_are_found(
    action: Seq<char>,
    suffix: Seq<char>,
    whole: &[char],
    r: bool,
    plain: &[char],
    q: bool,
)
    requires
        whole@ == action + seq!['^'] + suffix,
        parser::depth(action) == 0,
        !suffix.contains('('),
        !suffix.contains(')'),
        call_ensures(has_repeat_suffix, (whole,), r),
        call_ensures(has_repeat_suffix, (plain,), q),
    ensures
        r,
        q ==> exists|i: int|
            {
                &&& 0 <= i < plain@.len()
                &&& #[trigger] plain@[i] == '^'
                &&& parser::depth(plain@.take(i)) == 0
                &&& !plain@.skip(i + 1).contains('(')
                &&& !plain@.skip(i + 1).contains(')')
            },
{
    let n = action.len() as int;
    assert(whole@.take(n) =~= action);
    assert forall|j: int| n < j < whole@.len() implies !parser::is_parenthesis(
        #[trigger] whole@[j],
    ) by {
        assert(whole@[j] == suffix[j - n - 1]);
    }
    assert(parser::is_suffix_caret(whole@, n));
    if q {
        let i = choose|i: int| parser::is_suffix_caret(plain@, i);
        let behind = plain@.skip(i + 1);
        assert forall|j: int| 0 <= j < behind.len() implies !parser::is_parenthesis(
            #[trigger] behind[j],
        ) by {
            assert(behind[j] == plain@[i + 1 + j]);
        }
    }
}

} // verus!
