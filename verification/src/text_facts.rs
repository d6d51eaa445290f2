//! What holds of trimming, splitting and joining.
use crate::text;
use crate::text::find_char;
use crate::text::find_from;
use crate::text::find_last_char;
use crate::text::join_text;
use crate::text::replace;
use crate::text::space;
use crate::text::split_text;
use crate::text::trim;
use vstd::prelude::*;

verus! {

// ── Trimming ─────────────────────────────────────────────────────────────────

/// `s` neither starts nor ends with white space.
pub open spec fn is_trimmed(s: Seq<char>) -> bool {
    s.len() > 0 ==> !text::is_space(s[0]) && !text::is_space(s.last())
}

proof fn lemma_trimmed_start(s: Seq<char>) -> (lo: int)
    ensures
        0 <= lo <= s.len(),
        text::trimmed_start(s) == s.skip(lo),
        lo < s.len() ==> !text::is_space(s[lo]),
        forall|i: int| 0 <= i < lo ==> text::is_space(#[trigger] s[i]),
    decreases s.len(),
{
    if s.len() > 0 && text::is_space(s[0]) {
        let lo = lemma_trimmed_start(s.drop_first());
        assert(s.drop_first().skip(lo) =~= s.skip(lo + 1));
        assert forall|i: int| 0 <= i < lo + 1 implies text::is_space(#[trigger] s[i]) by {
            if i > 0 {
                assert(s.drop_first()[i - 1] == s[i]);
            }
        }
        lo + 1
    } else {
        assert(s.skip(0) =~= s);
        0
    }
}

proof fn lemma_trimmed_end(s: Seq<char>) -> (hi: int)
    ensures
        0 <= hi <= s.len(),
        text::trimmed_end(s) == s.take(hi),
        hi > 0 ==> !text::is_space(s[hi - 1]),
        forall|i: int| hi <= i < s.len() ==> text::is_space(#[trigger] s[i]),
    decreases s.len(),
{
    if s.len() > 0 && text::is_space(s.last()) {
        let hi = lemma_trimmed_end(s.drop_last());
        assert(s.drop_last().take(hi) =~= s.take(hi));
        assert forall|i: int| hi <= i < s.len() implies text::is_space(#[trigger] s[i]) by {
            if i < s.len() - 1 {
                assert(s.drop_last()[i] == s[i]);
            }
        }
        hi
    } else {
        assert(s.take(s.len() as int) =~= s);
        s.len() as int
    }
}

/// Trimming cuts a piece out of the text; what it leaves away is white space, and what it leaves
/// is trimmed.
pub proof fn lemma_trimmed(s: Seq<char>) -> (r: (int, int))
    ensures
        0 <= r.0 <= r.1 <= s.len(),
        text::trimmed(s) == s.subrange(r.0, r.1),
        is_trimmed(text::trimmed(s)),
        forall|i: int| 0 <= i < r.0 ==> text::is_space(#[trigger] s[i]),
        forall|i: int| r.1 <= i < s.len() ==> text::is_space(#[trigger] s[i]),
{
    let lo = lemma_trimmed_start(s);
    let t = s.skip(lo);
    let hi = lemma_trimmed_end(t);
    assert(t.take(hi) =~= s.subrange(lo, lo + hi));
    assert forall|i: int| lo + hi <= i < s.len() implies text::is_space(#[trigger] s[i]) by {
        assert(t[i - lo] == s[i]);
    }
    if hi > 0 {
        assert(t.take(hi)[0] == s[lo]);
        assert(t.take(hi).last() == t[hi - 1]);
    }
    (lo, lo + hi)
}

/// A piece between white space is what trimming leaves, provided that it is trimmed itself and
/// not empty.
pub proof fn lemma_trimmed_is(s: Seq<char>, lo: int, hi: int)
    requires
        0 <= lo <= hi <= s.len(),
        is_trimmed(s.subrange(lo, hi)),
        lo < hi || (lo == 0 && hi == s.len()),
        forall|i: int| 0 <= i < lo ==> text::is_space(#[trigger] s[i]),
        forall|i: int| hi <= i < s.len() ==> text::is_space(#[trigger] s[i]),
    ensures
        text::trimmed(s) == s.subrange(lo, hi),
{
    let r = lemma_trimmed(s);
    if lo < hi {
        assert(s.subrange(lo, hi)[0] == s[lo]);
        assert(s.subrange(lo, hi).last() == s[hi - 1]);
        assert(r.0 <= lo);
        assert(r.1 >= hi);
        assert(text::trimmed(s)[0] == s[r.0]);
        assert(text::trimmed(s).last() == s[r.1 - 1]);
        assert(r.0 == lo);
        assert(r.1 == hi);
    } else {
        assert(s.len() == 0);
        assert(text::trimmed(s) =~= s.subrange(lo, hi));
    }
}

/// Trimming leaves a trimmed text as it is.
pub proof fn lemma_trimmed_same(s: Seq<char>)
    requires
        is_trimmed(s),
    ensures
        text::trimmed(s) == s,
{
    assert(s.subrange(0, s.len() as int) =~= s);
    lemma_trimmed_is(s, 0, s.len() as int);
}

/// A text that starts with something else than white space still starts so after trimming.
pub proof fn lemma_trimmed_first(s: Seq<char>)
    requires
        s.len() > 0,
        !text::is_space(s[0]),
    ensures
        text::trimmed(s).len() > 0,
        text::trimmed(s)[0] == s[0],
{
    let r = lemma_trimmed(s);
    assert(r.0 == 0);
    assert(r.1 > 0) by {
        if r.1 == 0 {
            assert(text::is_space(s[0]));
        }
    }
}

// ── Patterns of two characters ───────────────────────────────────────────────

/// Nowhere in `s` stands `x` directly before `y`.
pub open spec fn free_of(s: Seq<char>, x: char, y: char) -> bool {
    forall|i: int| 0 <= i < s.len() - 1 ==> !(#[trigger] s[i] == x && s[i + 1] == y)
}

/// A piece of a text is free of what the text is free of.
pub proof fn lemma_free_piece(s: Seq<char>, lo: int, hi: int, x: char, y: char)
    requires
        0 <= lo <= hi <= s.len(),
        free_of(s, x, y),
    ensures
        free_of(s.subrange(lo, hi), x, y),
{
    let t = s.subrange(lo, hi);
    assert forall|i: int| 0 <= i < t.len() - 1 implies !(#[trigger] t[i] == x && t[i + 1] == y) by {
        assert(t[i] == s[lo + i]);
        assert(t[i + 1] == s[lo + i + 1]);
    }
}

/// So is what trimming leaves.
pub proof fn lemma_free_trimmed(s: Seq<char>, x: char, y: char)
    requires
        free_of(s, x, y),
    ensures
        free_of(text::trimmed(s), x, y),
{
    let r = lemma_trimmed(s);
    lemma_free_piece(s, r.0, r.1, x, y);
}

/// A text with neither of the two characters is free of them.
pub proof fn lemma_free_of_none(s: Seq<char>, x: char, y: char)
    requires
        !s.contains(x) || !s.contains(y),
    ensures
        free_of(s, x, y),
{
    assert forall|i: int| 0 <= i < s.len() - 1 implies !(#[trigger] s[i] == x && s[i + 1] == y) by {
        if s[i] == x && s[i + 1] == y {
            assert(s.contains(s[i]));
            assert(s.contains(s[i + 1]));
        }
    }
}

/// Two texts with something else between them stay free of the pattern.
pub proof fn lemma_free_glue(a: Seq<char>, sep: Seq<char>, b: Seq<char>, x: char, y: char)
    requires
        free_of(a, x, y),
        free_of(b, x, y),
        sep.len() > 0,
        !sep.contains(x),
        !sep.contains(y),
    ensures
        free_of(a + sep + b, x, y),
{
    let s = a + sep + b;
    let n = a.len() as int;
    let m = n + sep.len();
    assert forall|i: int| 0 <= i < s.len() - 1 implies !(#[trigger] s[i] == x && s[i + 1] == y) by {
        if i + 1 < n {
            assert(s[i] == a[i] && s[i + 1] == a[i + 1]);
        } else if i + 1 < m {
            assert(s[i + 1] == sep[i + 1 - n]);
            assert(sep.contains(sep[i + 1 - n]));
        } else if i < m {
            assert(s[i] == sep[i - n]);
            assert(sep.contains(sep[i - n]));
        } else {
            assert(s[i] == b[i - m] && s[i + 1] == b[i - m + 1]);
        }
    }
}

/// Joining texts that are free of a pattern with something else gives a text free of it.
pub proof fn lemma_free_join(parts: Seq<Seq<char>>, sep: Seq<char>, x: char, y: char)
    requires
        forall|i: int| 0 <= i < parts.len() ==> free_of(#[trigger] parts[i], x, y),
        sep.len() > 0,
        !sep.contains(x),
        !sep.contains(y),
    ensures
        free_of(text::join(parts, sep), x, y),
    decreases parts.len(),
{
    if parts.len() > 1 {
        lemma_free_join(parts.drop_last(), sep, x, y);
        assert(parts.last() == parts[parts.len() - 1]);
        lemma_free_glue(text::join(parts.drop_last(), sep), sep, parts.last(), x, y);
    } else if parts.len() == 1 {
        assert(free_of(parts[0], x, y));
    }
}

/// Nowhere in a text free of `x`, `y` does the pattern `xy` occur, and the other way round.
pub proof fn lemma_free_occurs(s: Seq<char>, x: char, y: char)
    ensures
        free_of(s, x, y) <==> (forall|i: int| !text::occurs_at(s, seq![x, y], i)),
{
    let pat = seq![x, y];
    if free_of(s, x, y) {
        assert forall|i: int| !text::occurs_at(s, pat, i) by {
            if text::occurs_at(s, pat, i) {
                assert(s.subrange(i, i + 2)[0] == pat[0]);
                assert(s.subrange(i, i + 2)[1] == pat[1]);
                assert(s[i] == x && s[i + 1] == y);
            }
        }
    } else {
        let i = choose|i: int| 0 <= i < s.len() - 1 && #[trigger] s[i] == x && s[i + 1] == y;
        assert(s.subrange(i, i + 2) =~= pat);
        assert(text::occurs_at(s, pat, i));
    }
}

// ── Splitting ────────────────────────────────────────────────────────────────

/// Without an occurrence of the pattern there is one piece, the text itself.
pub proof fn lemma_split_none(s: Seq<char>, pat: Seq<char>)
    requires
        forall|i: int| !text::occurs_at(s, pat, i),
    ensures
        text::split(s, pat) == seq![s],
{
    text::lemma_first_from(s, pat, 0);
}

/// Where the pattern first occurs, the first piece ends and the rest is split on its own.
pub proof fn lemma_split_first(a: Seq<char>, pat: Seq<char>, b: Seq<char>)
    requires
        pat.len() > 0,
        forall|i: int| 0 <= i < a.len() ==> !#[trigger] text::occurs_at(a + pat + b, pat, i),
    ensures
        text::split(a + pat + b, pat) == seq![a] + text::split(b, pat),
{
    let s = a + pat + b;
    let n = a.len() as int;
    assert(s.subrange(n, n + pat.len()) =~= pat);
    assert(text::occurs_at(s, pat, n));
    text::lemma_first_from(s, pat, 0);
    let k = text::first_from(s, pat, 0)->0;
    assert(k == n);
    assert(s.take(n) =~= a);
    assert(s.skip(n + pat.len()) =~= b);
}

/// Each piece is cut out of the text and does not hold the pattern.
pub proof fn lemma_split_pieces(s: Seq<char>, pat: Seq<char>, k: int) -> (r: (int, int))
    requires
        pat.len() > 0,
        0 <= k < text::split(s, pat).len(),
    ensures
        0 <= r.0 <= r.1 <= s.len(),
        text::split(s, pat)[k] == s.subrange(r.0, r.1),
        forall|i: int| !text::occurs_at(text::split(s, pat)[k], pat, i),
    decreases s.len(),
{
    text::lemma_first_from(s, pat, 0);
    match text::first_from(s, pat, 0) {
        None => {
            assert(s.subrange(0, s.len() as int) =~= s);
            (0, s.len() as int)
        },
        Some(p) => {
            let rest = s.skip(p + pat.len());
            if k == 0 {
                let piece = s.take(p);
                assert forall|i: int| !text::occurs_at(piece, pat, i) by {
                    if text::occurs_at(piece, pat, i) {
                        assert(s.subrange(i, i + pat.len()) =~= piece.subrange(i, i + pat.len()));
                        assert(text::occurs_at(s, pat, i));
                    }
                }
                (0, p)
            } else {
                let r = lemma_split_pieces(rest, pat, k - 1);
                assert(text::split(s, pat)[k] == text::split(rest, pat)[k - 1]);
                assert(rest.subrange(r.0, r.1) =~= s.subrange(
                    p + pat.len() + r.0,
                    p + pat.len() + r.1,
                ));
                (p + pat.len() + r.0, p + pat.len() + r.1)
            }
        },
    }
}

// ── Joining ──────────────────────────────────────────────────────────────────

/// Joining can start with the first part.
pub proof fn lemma_join_first(parts: Seq<Seq<char>>, sep: Seq<char>)
    requires
        parts.len() > 1,
    ensures
        text::join(parts, sep) == parts[0] + sep + text::join(parts.drop_first(), sep),
    decreases parts.len(),
{
    let rest = parts.drop_first();
    if parts.len() == 2 {
        assert(parts.drop_last() =~= seq![parts[0]]);
        assert(rest =~= seq![parts[1]]);
        assert(text::join(parts.drop_last(), sep) == parts[0]);
        assert(text::join(rest, sep) == parts[1]);
    } else {
        lemma_join_first(parts.drop_last(), sep);
        assert(parts.drop_last().drop_first() =~= rest.drop_last());
        assert(rest.last() == parts.last());
        assert(text::join(parts, sep) =~= parts[0] + sep + text::join(rest, sep));
    }
}

/// Parts without commas that were joined by commas are what splitting at commas gives.
pub proof fn lemma_split_commas(parts: Seq<Seq<char>>)
    requires
        parts.len() > 0,
        forall|i: int| 0 <= i < parts.len() ==> !(#[trigger] parts[i]).contains(','),
    ensures
        text::split(text::join(parts, seq![',']), seq![',']) == parts,
    decreases parts.len(),
{
    let pat = seq![','];
    let a = parts[0];
    if parts.len() == 1 {
        assert forall|i: int| !text::occurs_at(a, pat, i) by {
            if text::occurs_at(a, pat, i) {
                assert(a.subrange(i, i + 1)[0] == pat[0]);
                assert(a.contains(a[i]));
            }
        }
        lemma_split_none(a, pat);
        assert(seq![a] =~= parts);
    } else {
        let rest = parts.drop_first();
        let b = text::join(rest, pat);
        lemma_join_first(parts, pat);
        let s = a + pat + b;
        assert forall|i: int| 0 <= i < a.len() implies !#[trigger] text::occurs_at(s, pat, i) by {
            if text::occurs_at(s, pat, i) {
                assert(s.subrange(i, i + 1)[0] == pat[0]);
                assert(s[i] == a[i]);
                assert(a.contains(a[i]));
            }
        }
        lemma_split_first(a, pat, b);
        assert forall|i: int| 0 <= i < rest.len() implies !(#[trigger] rest[i]).contains(',') by {
            assert(rest[i] == parts[i + 1]);
        }
        lemma_split_commas(rest);
        assert(seq![a] + rest =~= parts);
    }
}

/// `s` is nothing but white space.
pub open spec fn all_space(s: Seq<char>) -> bool {
    forall|i: int| 0 <= i < s.len() ==> text::is_space(#[trigger] s[i])
}

/// White space around a trimmed text goes away.
pub proof fn lemma_trimmed_padded(lead: Seq<char>, s: Seq<char>, trail: Seq<char>)
    requires
        s.len() > 0,
        is_trimmed(s),
        all_space(lead),
        all_space(trail),
    ensures
        text::trimmed(lead + s + trail) == s,
{
    let t = lead + s + trail;
    let lo = lead.len() as int;
    let hi = lo + s.len();
    assert(t.subrange(lo, hi) =~= s);
    assert forall|i: int| hi <= i < t.len() implies text::is_space(#[trigger] t[i]) by {
        assert(t[i] == trail[i - hi]);
    }
    lemma_trimmed_is(t, lo, hi);
}

/// Trimmed parts with arrows and white space between them, and white space in front, are what
/// splitting at `->` and trimming gives.
pub proof fn lemma_split_arrows(
    parts: Seq<Seq<char>>,
    lead: Seq<char>,
    pre: Seq<char>,
    post: Seq<char>,
)
    requires
        parts.len() > 0,
        forall|i: int|
            0 <= i < parts.len() ==> {
                let p = #[trigger] parts[i];
                p.len() > 0 && is_trimmed(p) && free_of(p, '-', '>')
            },
        all_space(lead),
        all_space(pre),
        all_space(post),
    ensures
        text::split(
            lead + text::join(parts, pre + seq!['-', '>'] + post),
            seq!['-', '>'],
        ).map_values(|p: Seq<char>| text::trimmed(p)) == parts,
    decreases parts.len(),
{
    let pat = seq!['-', '>'];
    let sep = pre + pat + post;
    let trim = |p: Seq<char>| text::trimmed(p);
    let none = Seq::<char>::empty();
    let a = parts[0];
    let n = lead.len() as int;
    if parts.len() == 1 {
        let s = lead + a;
        assert(lead + a + none =~= s);
        lemma_trimmed_padded(lead, a, none);
        assert forall|i: int| 0 <= i < s.len() - 1 implies !(#[trigger] s[i] == '-' && s[i + 1]
            == '>') by {
            if i < n {
                assert(s[i] == lead[i]);
            } else {
                assert(s[i] == a[i - n] && s[i + 1] == a[i - n + 1]);
            }
        }
        lemma_free_occurs(s, '-', '>');
        lemma_split_none(s, pat);
        assert(seq![s].map_values(trim) =~= parts);
    } else {
        let rest = parts.drop_first();
        let tail = text::join(rest, sep);
        lemma_join_first(parts, sep);
        let first = lead + a + pre;
        let b = post + tail;
        let s = first + pat + b;
        assert(lead + text::join(parts, sep) =~= s);
        assert forall|i: int| 0 <= i < first.len() implies !#[trigger] text::occurs_at(
            s,
            pat,
            i,
        ) by {
            if text::occurs_at(s, pat, i) {
                assert(s.subrange(i, i + 2)[0] == pat[0]);
                assert(s.subrange(i, i + 2)[1] == pat[1]);
                assert(s[i] == '-' && s[i + 1] == '>');
                if i < n {
                    assert(s[i] == lead[i]);
                } else if i < n + a.len() {
                    assert(s[i] == a[i - n]);
                    if i + 1 < n + a.len() {
                        assert(s[i + 1] == a[i - n + 1]);
                    } else if pre.len() > 0 {
                        assert(s[i + 1] == pre[0]);
                    } else {
                        assert(s[i + 1] == pat[0]);
                    }
                } else {
                    assert(s[i] == pre[i - n - a.len()]);
                }
            }
        }
        lemma_split_first(first, pat, b);
        lemma_trimmed_padded(lead, a, pre);
        assert forall|i: int| 0 <= i < rest.len() implies {
            let p = #[trigger] rest[i];
            p.len() > 0 && is_trimmed(p) && free_of(p, '-', '>')
        } by {
            assert(rest[i] == parts[i + 1]);
        }
        lemma_split_arrows(rest, post, pre, post);
        let tails = text::split(b, pat);
        assert((seq![first] + tails).map_values(trim) =~= seq![text::trimmed(first)]
            + tails.map_values(trim));
        assert(seq![a] + rest =~= parts);
    }
}

/// A filter that everything passes leaves all.
pub proof fn lemma_filter_all<T>(s: Seq<T>, keep: spec_fn(T) -> bool)
    requires
        forall|i: int| 0 <= i < s.len() ==> keep(#[trigger] s[i]),
    ensures
        s.filter(keep) == s,
    decreases s.len(),
{
    reveal(Seq::filter);
    if s.len() > 0 {
        let front = s.drop_last();
        assert forall|i: int| 0 <= i < front.len() implies keep(#[trigger] front[i]) by {
            assert(front[i] == s[i]);
        }
        lemma_filter_all(front, keep);
        assert(keep(s[s.len() - 1]));
        assert(front.push(s.last()) =~= s);
    }
}

/// The first position of a character is where it stands with none before.
pub proof fn lemma_first_is(s: Seq<char>, c: char, i: int)
    requires
        0 <= i < s.len(),
        s[i] == c,
        forall|j: int| 0 <= j < i ==> s[j] != c,
    ensures
        s.index_of_first(c) == Some(i),
{
    s.index_of_first_ensures(c);
    assert(s.contains(s[i]));
}

/// The last position of a character is where it stands with none behind.
pub proof fn lemma_last_is(s: Seq<char>, c: char, i: int)
    requires
        0 <= i < s.len(),
        s[i] == c,
        forall|j: int| i < j < s.len() ==> s[j] != c,
    ensures
        s.index_of_last(c) == Some(i),
{
    s.index_of_last_ensures(c);
    assert(s.contains(s[i]));
}

// ── Texts with a blank line between them ─────────────────────────────────────

/// The parts with a character in front of the first one.
spec fn with_front(c: char, parts: Seq<Seq<char>>) -> Seq<Seq<char>> {
    parts.update(0, seq![c] + parts[0])
}

/// `s` starts with `x` and `y`.
spec fn starts(s: Seq<char>, x: char, y: char) -> bool {
    s.len() >= 2 && s[0] == x && s[1] == y
}

/// Splitting at a pattern of two characters, one step from the front.
proof fn lemma_split_step(s: Seq<char>, x: char, y: char)
    ensures
        text::split(s, seq![x, y]).len() > 0,
        s.len() == 0 ==> text::split(s, seq![x, y]) == seq![s],
        starts(s, x, y) ==> text::split(s, seq![x, y]) == seq![Seq::<char>::empty()] + text::split(
            s.skip(2),
            seq![x, y],
        ),
        s.len() > 0 && !starts(s, x, y) ==> text::split(s, seq![x, y]) == with_front(
            s[0],
            text::split(s.drop_first(), seq![x, y]),
        ),
{
    let pat = seq![x, y];
    let none = Seq::<char>::empty();
    text::lemma_first_from(s, pat, 0);
    if starts(s, x, y) {
        assert(none + pat + s.skip(2) =~= s);
        lemma_split_first(none, pat, s.skip(2));
    } else if s.len() > 0 {
        let t = s.drop_first();
        assert forall|i: int| text::occurs_at(s, pat, i) implies text::occurs_at(t, pat, i - 1) by {
            assert(s.subrange(i, i + 2)[0] == pat[0]);
            assert(s.subrange(i, i + 2)[1] == pat[1]);
            assert(i > 0);
            assert(t.subrange(i - 1, i + 1) =~= s.subrange(i, i + 2));
        }
        text::lemma_first_from(t, pat, 0);
        match text::first_from(t, pat, 0) {
            None => {
                assert forall|i: int| !text::occurs_at(t, pat, i) by {}
                assert forall|i: int| !text::occurs_at(s, pat, i) by {}
                lemma_split_none(t, pat);
                lemma_split_none(s, pat);
                assert(seq![s] =~= with_front(s[0], seq![t])) by {
                    assert(seq![s[0]] + t =~= s);
                }
            },
            Some(k) => {
                let front = t.take(k);
                let rest = t.skip(k + 2);
                let longer = seq![s[0]] + front;
                assert(t.subrange(k, k + 2) == pat);
                assert(front + pat + rest =~= t) by {
                    assert(t =~= t.take(k) + t.subrange(k, k + 2) + t.skip(k + 2));
                }
                assert(longer + pat + rest =~= s) by {
                    assert(s =~= seq![s[0]] + t);
                }
                lemma_split_first(front, pat, rest);
                lemma_split_first(longer, pat, rest);
                assert(seq![longer] + text::split(rest, pat) =~= with_front(
                    s[0],
                    seq![front] + text::split(rest, pat),
                ));
            },
        }
    }
}

/// Replacing a pattern of two characters, one step from the front.
proof fn lemma_replaced_step(s: Seq<char>, x: char, y: char, by: Seq<char>)
    ensures
        s.len() == 0 ==> text::replaced(s, seq![x, y], by) == s,
        starts(s, x, y) ==> text::replaced(s, seq![x, y], by) == by + text::replaced(
            s.skip(2),
            seq![x, y],
            by,
        ),
        s.len() > 0 && !starts(s, x, y) ==> text::replaced(s, seq![x, y], by) == seq![s[0]]
            + text::replaced(s.drop_first(), seq![x, y], by),
{
    let pat = seq![x, y];
    lemma_split_step(s, x, y);
    let all = text::split(s, pat);
    if starts(s, x, y) {
        let rest = text::split(s.skip(2), pat);
        lemma_split_step(s.skip(2), x, y);
        lemma_join_first(all, by);
        assert(all.drop_first() =~= rest);
        assert(Seq::<char>::empty() + by + text::join(rest, by) =~= by + text::join(rest, by));
    } else if s.len() > 0 {
        let rest = text::split(s.drop_first(), pat);
        lemma_split_step(s.drop_first(), x, y);
        if rest.len() > 1 {
            lemma_join_first(all, by);
            lemma_join_first(rest, by);
            assert(all.drop_first() =~= rest.drop_first());
            let tail = text::join(rest.drop_first(), by);
            assert(seq![s[0]] + rest[0] + by + tail =~= seq![s[0]] + (rest[0] + by + tail));
        }
    }
}

/// The text with line ends made uniform.
spec fn uniform(s: Seq<char>) -> Seq<char> {
    text::replaced(s, seq!['\r', '\n'], seq!['\n'])
}

/// A text without a carriage return at its end.
spec fn without_return(s: Seq<char>) -> Seq<char> {
    if s.len() > 0 && s.last() == '\r' {
        s.drop_last()
    } else {
        s
    }
}

/// A carriage return at the end of a text stays where the line ends are made uniform.
proof fn lemma_uniform_return(s: Seq<char>)
    requires
        s.len() > 0,
        s.last() == '\r',
    ensures
        uniform(s) == uniform(s.drop_last()).push('\r'),
    decreases s.len(),
{
    let t = s.drop_last();
    let by = seq!['\n'];
    lemma_replaced_step(s, '\r', '\n', by);
    lemma_replaced_step(t, '\r', '\n', by);
    if s.len() == 1 {
        lemma_replaced_step(s.drop_first(), '\r', '\n', by);
        assert(uniform(s) =~= uniform(t).push('\r'));
    } else if starts(s, '\r', '\n') {
        lemma_uniform_return(s.skip(2));
        assert(s.skip(2).drop_last() =~= t.skip(2));
        assert(uniform(s) =~= uniform(t).push('\r'));
    } else {
        lemma_uniform_return(s.drop_first());
        assert(s.drop_first().drop_last() =~= t.drop_first());
        assert(uniform(s) =~= uniform(t).push('\r'));
    }
}

/// The line ends on the two sides of a line feed are made uniform on their own; a carriage return
/// before it goes away.
proof fn lemma_uniform_seam(a: Seq<char>, b: Seq<char>)
    ensures
        uniform(a + seq!['\n'] + b) == uniform(without_return(a)) + seq!['\n'] + uniform(b),
    decreases a.len(),
{
    let by = seq!['\n'];
    let s = a + seq!['\n'] + b;
    let cut = without_return(a);
    lemma_replaced_step(s, '\r', '\n', by);
    lemma_replaced_step(cut, '\r', '\n', by);
    if a.len() == 0 {
        assert(s.drop_first() =~= b);
        assert(uniform(s) =~= uniform(cut) + by + uniform(b));
    } else if a.len() == 1 && a[0] == '\r' {
        assert(s.skip(2) =~= b);
        assert(uniform(s) =~= uniform(cut) + by + uniform(b));
    } else if starts(a, '\r', '\n') {
        let rest = a.skip(2);
        assert(s.skip(2) =~= rest + seq!['\n'] + b);
        lemma_uniform_seam(rest, b);
        if rest.len() > 0 {
            assert(rest.last() == a.last());
        }
        assert(cut.skip(2) =~= without_return(rest));
        assert(uniform(s) =~= uniform(cut) + by + uniform(b));
    } else {
        let rest = a.drop_first();
        assert(s.drop_first() =~= rest + seq!['\n'] + b);
        lemma_uniform_seam(rest, b);
        if rest.len() > 0 {
            assert(rest.last() == a.last());
        }
        assert(cut.drop_first() =~= without_return(rest));
        assert(uniform(s) =~= uniform(cut) + by + uniform(b));
    }
}

/// The trimmed parts without the empty ones.
spec fn kept(parts: Seq<Seq<char>>) -> Seq<Seq<char>> {
    parts.map_values(|p: Seq<char>| text::trimmed(p)).filter(|p: Seq<char>| p.len() > 0)
}

proof fn lemma_kept_add(a: Seq<Seq<char>>, b: Seq<Seq<char>>)
    ensures
        kept(a + b) == kept(a) + kept(b),
{
    let trim = |p: Seq<char>| text::trimmed(p);
    let keep = |p: Seq<char>| p.len() > 0;
    assert((a + b).map_values(trim) =~= a.map_values(trim) + b.map_values(trim));
    Seq::filter_distributes_over_add(a.map_values(trim), b.map_values(trim), keep);
}

/// Parts that are the same when trimmed leave the same.
proof fn lemma_kept_same(a: Seq<Seq<char>>, b: Seq<Seq<char>>)
    requires
        a.len() == b.len(),
        forall|i: int| 0 <= i < a.len() ==> text::trimmed(#[trigger] a[i]) == text::trimmed(b[i]),
    ensures
        kept(a) == kept(b),
{
    let trim = |p: Seq<char>| text::trimmed(p);
    assert(a.map_values(trim) =~= b.map_values(trim));
}

/// An empty part in front leaves nothing.
proof fn lemma_kept_empty(rest: Seq<Seq<char>>)
    ensures
        kept(seq![Seq::<char>::empty()] + rest) == kept(rest),
{
    let none = Seq::<char>::empty();
    let first = seq![none];
    let keep = |p: Seq<char>| p.len() > 0;
    lemma_kept_add(first, rest);
    assert(kept(first) =~= Seq::<Seq<char>>::empty()) by {
        lemma_trimmed_same(none);
        let one = first.map_values(|p: Seq<char>| text::trimmed(p));
        assert(one =~= first);
        assert(Seq::<Seq<char>>::empty().push(none) =~= first);
        Seq::<Seq<char>>::empty().lemma_filter_push(none, keep);
        reveal(Seq::filter);
    }
    assert(kept(first) + kept(rest) =~= kept(rest));
}

/// White space in front of a text goes away.
pub proof fn lemma_trimmed_front(c: char, s: Seq<char>)
    requires
        text::is_space(c),
    ensures
        text::trimmed(seq![c] + s) == text::trimmed(s),
{
    assert((seq![c] + s).drop_first() =~= s);
}

/// White space behind a text goes away.
pub proof fn lemma_trimmed_back(s: Seq<char>, c: char)
    requires
        text::is_space(c),
    ensures
        text::trimmed(s.push(c)) == text::trimmed(s),
{
    let t = s.push(c);
    let r = lemma_trimmed(s);
    if r.0 < r.1 {
        assert(t.subrange(r.0, r.1) =~= s.subrange(r.0, r.1));
        assert forall|i: int| 0 <= i < r.0 implies text::is_space(#[trigger] t[i]) by {
            assert(t[i] == s[i]);
        }
        assert forall|i: int| r.1 <= i < t.len() implies text::is_space(#[trigger] t[i]) by {
            if i < s.len() {
                assert(t[i] == s[i]);
            }
        }
        lemma_trimmed_is(t, r.0, r.1);
    } else {
        let q = lemma_trimmed(t);
        if q.0 < q.1 {
            assert(text::trimmed(t)[0] == t[q.0]);
            if q.0 < s.len() {
                assert(t[q.0] == s[q.0]);
            }
        }
        assert(text::trimmed(t) =~= text::trimmed(s));
    }
}

/// The pieces of a text between blank lines do not depend on white space behind it, other than a
/// line feed.
proof fn lemma_pieces_back(s: Seq<char>, c: char)
    requires
        text::is_space(c),
        c != '\n',
    ensures
        text::pieces(s.push(c), seq!['\n', '\n']) == text::pieces(s, seq!['\n', '\n']),
{
    let blank = seq!['\n', '\n'];
    let a = text::split(s.push(c), blank);
    let b = text::split(s, blank);
    lemma_split_back(s, c);
    lemma_split_step(s, '\n', '\n');
    assert forall|i: int| 0 <= i < a.len() implies text::trimmed(#[trigger] a[i]) == text::trimmed(
        b[i],
    ) by {
        if i == b.len() - 1 {
            lemma_trimmed_back(b[i], c);
        }
    }
    lemma_kept_same(a, b);
    assert(text::pieces(s.push(c), blank) == kept(a));
    assert(text::pieces(s, blank) == kept(b));
}

proof fn lemma_split_back(s: Seq<char>, c: char)
    requires
        c != '\n',
    ensures
        ({
            let parts = text::split(s, seq!['\n', '\n']);
            text::split(s.push(c), seq!['\n', '\n']) == parts.drop_last().push(
                parts.last().push(c),
            )
        }),
    decreases s.len(),
{
    let blank = seq!['\n', '\n'];
    let t = s.push(c);
    let parts = text::split(s, blank);
    lemma_split_step(s, '\n', '\n');
    lemma_split_step(t, '\n', '\n');
    if s.len() == 0 {
        lemma_split_step(t.drop_first(), '\n', '\n');
        assert(t.drop_first() =~= s);
        assert(text::split(t, blank) =~= parts.drop_last().push(parts.last().push(c)));
    } else if starts(s, '\n', '\n') {
        assert(t.skip(2) =~= s.skip(2).push(c));
        lemma_split_back(s.skip(2), c);
        lemma_split_step(s.skip(2), '\n', '\n');
        assert(text::split(t, blank) =~= parts.drop_last().push(parts.last().push(c)));
    } else {
        let rest = s.drop_first();
        assert(t.drop_first() =~= rest.push(c));
        lemma_split_back(rest, c);
        lemma_split_step(rest, '\n', '\n');
        let tail = text::split(rest, blank);
        if tail.len() == 1 {
            assert(seq![s[0]] + tail[0].push(c) =~= (seq![s[0]] + tail[0]).push(c));
        }
        assert(text::split(t, blank) =~= parts.drop_last().push(parts.last().push(c)));
    }
}

/// A line feed in front of a text does not change its pieces between blank lines.
proof fn lemma_pieces_front(s: Seq<char>)
    ensures
        text::pieces(seq!['\n'] + s, seq!['\n', '\n']) == text::pieces(s, seq!['\n', '\n']),
    decreases s.len(),
{
    let blank = seq!['\n', '\n'];
    let t = seq!['\n'] + s;
    let a = text::split(t, blank);
    let b = text::split(s, blank);
    lemma_split_step(t, '\n', '\n');
    lemma_split_step(s, '\n', '\n');
    assert(t.drop_first() =~= s);
    assert(text::pieces(t, blank) == kept(a));
    assert(text::pieces(s, blank) == kept(b));
    if s.len() > 0 && s[0] == '\n' {
        let rest = s.drop_first();
        assert(t.skip(2) =~= rest);
        assert(seq!['\n'] + rest =~= s);
        lemma_kept_empty(text::split(rest, blank));
        lemma_pieces_front(rest);
        assert(text::pieces(rest, blank) == kept(text::split(rest, blank)));
    } else {
        assert forall|i: int| 0 <= i < a.len() implies text::trimmed(#[trigger] a[i])
            == text::trimmed(b[i]) by {
            if i == 0 {
                lemma_trimmed_front('\n', b[0]);
            }
        }
        lemma_kept_same(a, b);
    }
}

/// Where a blank line follows a text, the text is split as it is alone, but for a line feed at its
/// end, which then belongs to the blank line: what is left of the latter falls to what follows.
proof fn lemma_split_seam(p: Seq<char>, q: Seq<char>) -> (r: (Seq<Seq<char>>, bool))
    ensures
        ({
            let blank = seq!['\n', '\n'];
            let parts = text::split(p, blank);
            &&& r.0.len() == parts.len()
            &&& parts.len() > 0
            &&& r.0.drop_last() == parts.drop_last()
            &&& parts.last() == (if r.1 {
                r.0.last().push('\n')
            } else {
                r.0.last()
            })
            &&& text::split(p + blank + q, blank) == r.0 + text::split(
                if r.1 {
                    seq!['\n'] + q
                } else {
                    q
                },
                blank,
            )
        }),
    decreases p.len(),
{
    let blank = seq!['\n', '\n'];
    let none = Seq::<char>::empty();
    let s = p + blank + q;
    let parts = text::split(p, blank);
    lemma_split_step(p, '\n', '\n');
    lemma_split_step(s, '\n', '\n');
    if p.len() == 0 {
        assert(s.skip(2) =~= q);
        assert(p =~= none);
        (seq![none], false)
    } else if p.len() == 1 && p[0] == '\n' {
        lemma_split_step(p.drop_first(), '\n', '\n');
        assert(s.skip(2) =~= seq!['\n'] + q);
        assert(p.drop_first() =~= none);
        assert(seq!['\n'] + none =~= none.push('\n'));
        (seq![none], true)
    } else if starts(p, '\n', '\n') {
        let rest = p.skip(2);
        let (x, odd) = lemma_split_seam(rest, q);
        assert(s.skip(2) =~= rest + blank + q);
        let y = seq![none] + x;
        let more = text::split(
            if odd {
                seq!['\n'] + q
            } else {
                q
            },
            blank,
        );
        assert(seq![none] + (x + more) =~= y + more);
        assert(y.drop_last() =~= seq![none] + x.drop_last());
        assert(parts.drop_last() =~= seq![none] + text::split(rest, blank).drop_last());
        (y, odd)
    } else {
        let rest = p.drop_first();
        let (x, odd) = lemma_split_seam(rest, q);
        assert(s.drop_first() =~= rest + blank + q);
        let tail = text::split(rest, blank);
        let y = with_front(p[0], x);
        let more = text::split(
            if odd {
                seq!['\n'] + q
            } else {
                q
            },
            blank,
        );
        assert(with_front(p[0], x + more) =~= y + more);
        if x.len() == 1 {
            assert(y.drop_last() =~= parts.drop_last());
            assert((seq![p[0]] + x[0]).push('\n') =~= seq![p[0]] + x[0].push('\n'));
        } else {
            assert(x.drop_last()[0] == tail.drop_last()[0]);
            assert(y.drop_last() =~= with_front(p[0], x.drop_last()));
            assert(parts.drop_last() =~= with_front(p[0], tail.drop_last()));
        }
        (y, odd)
    }
}

/// The pieces of two texts with a blank line between them are those of the one and then those of
/// the other.
proof fn lemma_pieces_seam(p: Seq<char>, q: Seq<char>)
    ensures
        text::pieces(p + seq!['\n', '\n'] + q, seq!['\n', '\n']) == text::pieces(
            p,
            seq!['\n', '\n'],
        ) + text::pieces(q, seq!['\n', '\n']),
{
    let blank = seq!['\n', '\n'];
    let s = p + blank + q;
    let parts = text::split(p, blank);
    let (x, odd) = lemma_split_seam(p, q);
    let rest = if odd {
        seq!['\n'] + q
    } else {
        q
    };
    assert forall|i: int| 0 <= i < x.len() implies text::trimmed(#[trigger] x[i]) == text::trimmed(
        parts[i],
    ) by {
        if i == x.len() - 1 {
            lemma_trimmed_back(x[i], '\n');
        } else {
            assert(x.drop_last()[i] == parts.drop_last()[i]);
        }
    }
    lemma_kept_same(x, parts);
    lemma_kept_add(x, text::split(rest, blank));
    lemma_pieces_front(q);
    assert(text::pieces(s, blank) == kept(text::split(s, blank)));
    assert(text::pieces(p, blank) == kept(parts));
    assert(text::pieces(rest, blank) == kept(text::split(rest, blank)));
}

/// The blocks of two texts with a blank line between them are those of the one and then those of
/// the other, whatever line ends the texts use.
pub proof fn lemma_blocks_seam(a: Seq<char>, b: Seq<char>)
    ensures
        text::pieces(
            text::replaced(a + seq!['\n', '\n'] + b, seq!['\r', '\n'], seq!['\n']),
            seq!['\n', '\n'],
        ) == text::pieces(
            text::replaced(a, seq!['\r', '\n'], seq!['\n']),
            seq!['\n', '\n'],
        ) + text::pieces(
            text::replaced(b, seq!['\r', '\n'], seq!['\n']),
            seq!['\n', '\n'],
        ),
{
    let blank = seq!['\n', '\n'];
    let feed = seq!['\n'];
    let s = a + blank + b;
    let after = feed + b;
    assert(s =~= a + feed + after);
    lemma_uniform_seam(a, after);
    lemma_replaced_step(after, '\r', '\n', feed);
    assert(after.drop_first() =~= b);
    let front = uniform(without_return(a));
    assert(uniform(s) =~= front + blank + uniform(b));
    lemma_pieces_seam(front, uniform(b));
    if a.len() > 0 && a.last() == '\r' {
        lemma_uniform_return(a);
        lemma_pieces_back(front, '\r');
    }
}

// ── Pieces of joined texts ───────────────────────────────────────────────────

/// White space at the front of a text may be cut off before it is trimmed.
pub proof fn lemma_trimmed_skip(s: Seq<char>, lo: int)
    requires
        0 <= lo <= s.len(),
        all_space(s.take(lo)),
    ensures
        text::trimmed(s.skip(lo)) == text::trimmed(s),
    decreases lo,
{
    if lo == 0 {
        assert(s.skip(0) =~= s);
    } else {
        let rest = s.drop_first();
        assert(s.take(lo)[0] == s[0]);
        assert forall|i: int| 0 <= i < lo - 1 implies text::is_space(
            #[trigger] rest.take(lo - 1)[i],
        ) by {
            assert(s.take(lo)[i + 1] == rest.take(lo - 1)[i]);
        }
        lemma_trimmed_skip(rest, lo - 1);
        assert(rest.skip(lo - 1) =~= s.skip(lo));
        assert(seq![s[0]] + rest =~= s);
        lemma_trimmed_front(s[0], rest);
    }
}

/// White space at the end of a text may be cut off before it is trimmed.
pub proof fn lemma_trimmed_take(s: Seq<char>, hi: int)
    requires
        0 <= hi <= s.len(),
        all_space(s.skip(hi)),
    ensures
        text::trimmed(s.take(hi)) == text::trimmed(s),
    decreases s.len() - hi,
{
    if hi == s.len() {
        assert(s.take(hi) =~= s);
    } else {
        let front = s.drop_last();
        assert(s.skip(hi)[s.len() - 1 - hi] == s.last());
        assert forall|i: int| 0 <= i < front.skip(hi).len() implies text::is_space(
            #[trigger] front.skip(hi)[i],
        ) by {
            assert(s.skip(hi)[i] == front.skip(hi)[i]);
        }
        lemma_trimmed_take(front, hi);
        assert(front.take(hi) =~= s.take(hi));
        assert(front.push(s.last()) =~= s);
        lemma_trimmed_back(front, s.last());
    }
}

/// Parts that are free of a pattern of two different characters are what a text falls into that
/// was joined from them.
pub proof fn lemma_split_joined(parts: Seq<Seq<char>>, x: char, y: char)
    requires
        parts.len() > 0,
        x != y,
        forall|i: int| 0 <= i < parts.len() ==> free_of(#[trigger] parts[i], x, y),
    ensures
        text::split(text::join(parts, seq![x, y]), seq![x, y]) == parts,
    decreases parts.len(),
{
    let pat = seq![x, y];
    if parts.len() == 1 {
        lemma_free_occurs(parts[0], x, y);
        lemma_split_none(parts[0], pat);
        assert(seq![parts[0]] =~= parts);
    } else {
        let rest = parts.drop_first();
        let a = parts[0];
        let b = text::join(rest, pat);
        let s = a + pat + b;
        assert forall|i: int| 0 <= i < rest.len() implies free_of(#[trigger] rest[i], x, y) by {
            assert(rest[i] == parts[i + 1]);
        }
        lemma_split_joined(rest, x, y);
        lemma_join_first(parts, pat);
        assert forall|i: int| 0 <= i < a.len() implies !#[trigger] text::occurs_at(s, pat, i) by {
            if text::occurs_at(s, pat, i) {
                assert(s.subrange(i, i + 2)[0] == x && s.subrange(i, i + 2)[1] == y);
                assert(s[i] == x && s[i + 1] == y);
                if i + 1 < a.len() {
                    assert(a[i] == x && a[i + 1] == y);
                }
            }
        }
        lemma_split_first(a, pat, b);
        assert(seq![a] + rest =~= parts);
    }
}

// ── Laws ─────────────────────────────────────────────────────────────────────

/// Trimming takes off white space at both ends, all of it, and nothing else.
pub proof fn trimming_takes_off_white_space(s: &[char], r: &[char])
    requires
        call_ensures(trim, (s,), r),
    ensures
        exists|lo: int, hi: int|
            {
                &&& 0 <= lo <= hi <= s@.len()
                &&& r@ == #[trigger] s@.subrange(lo, hi)
                &&& forall|i: int| 0 <= i < lo ==> text::is_space(#[trigger] s@[i])
                &&& forall|i: int| hi <= i < s@.len() ==> text::is_space(#[trigger] s@[i])
            },
        r@.len() > 0 ==> !text::is_space(r@[0]) && !text::is_space(r@.last()),
{
    let (lo, hi) = lemma_trimmed(s@);
    assert(r@ == s@.subrange(lo, hi));
}

/// The characters that count as white space.
pub proof fn white_space_is_known(c: char, r: bool)
    requires
        call_ensures(space, (c,), r),
    ensures
        r <==> ('\t' as int <= c as int <= '\r' as int || c == ' ' || c == '\u{85}' || c
            == '\u{a0}' || c == '\u{1680}' || '\u{2000}' as int <= c as int <= '\u{200a}' as int
            || c == '\u{2028}' || c == '\u{2029}' || c == '\u{202f}' || c == '\u{205f}' || c
            == '\u{3000}'),
{
}

/// Nothing is lost when a text is split: the pieces with the pattern between each two are the text,
/// and no piece holds the pattern.
pub proof fn splitting_loses_nothing(s: &[char], pat: &[char], r: Vec<&[char]>)
    requires
        pat@.len() > 0,
        call_ensures(split_text, (s, pat), r),
    ensures
        r@.len() > 0,
        text::join(text::views(r@), pat@) == s@,
        forall|k: int, i: int|
            0 <= k < r@.len() ==> !#[trigger] text::occurs_at(text::views(r@)[k], pat@, i),
{
    let parts = text::views(r@);
    lemma_join_split(s@, pat@);
    assert(parts.len() == r@.len());
    assert forall|k: int, i: int| 0 <= k < r@.len() implies !#[trigger] text::occurs_at(
        parts[k],
        pat@,
        i,
    ) by {
        let q = lemma_split_pieces(s@, pat@, k);
    }
}

/// What a text is split into is joined to the text again.
pub proof fn lemma_join_split(s: Seq<char>, pat: Seq<char>)
    requires
        pat.len() > 0,
    ensures
        text::split(s, pat).len() > 0,
        text::join(text::split(s, pat), pat) == s,
    decreases s.len(),
{
    text::lemma_first_from(s, pat, 0);
    if let Some(i) = text::first_from(s, pat, 0) {
        let rest = s.skip(i + pat.len());
        lemma_join_split(rest, pat);
        let parts = text::split(s, pat);
        lemma_join_first(parts, pat);
        assert(parts.drop_first() =~= text::split(rest, pat));
        assert(s.subrange(i, i + pat.len()) == pat);
        assert(s.take(i) + pat + rest =~= s) by {
            assert(s =~= s.take(i) + s.subrange(i, i + pat.len()) + rest);
        }
    }
}

/// Joining puts the separator between each two parts and nowhere else: nothing gives nothing, one
/// part gives that part, and one more part comes behind a separator.
pub proof fn joining_puts_the_separator_between(
    parts: &Vec<String>,
    more: &Vec<String>,
    last: Seq<char>,
    sep: &str,
    r: String,
    s: String,
)
    requires
        text::views(more@) == text::views(parts@).push(last),
        call_ensures(join_text, (parts, sep), r),
        call_ensures(join_text, (more, sep), s),
    ensures
        parts@.len() == 0 ==> r@.len() == 0 && s@ == last,
        parts@.len() > 0 ==> s@ == r@ + sep@ + last,
{
    let all = text::views(more@);
    assert(all.drop_last() =~= text::views(parts@));
    assert(all.last() == last);
}

/// The first and the last position of a character are found where there is one.
pub proof fn characters_are_found(s: &[char], c: char, first: Option<usize>, last: Option<usize>)
    requires
        call_ensures(find_char, (s, c), first),
        call_ensures(find_last_char, (s, c), last),
    ensures
        first is Some <==> s@.contains(c),
        last is Some <==> s@.contains(c),
        first matches Some(i) ==> i < s@.len() && s@[i as int] == c && forall|j: int|
            0 <= j < i ==> s@[j] != c,
        last matches Some(i) ==> i < s@.len() && s@[i as int] == c && forall|j: int|
            i < j < s@.len() ==> s@[j] != c,
{
    s@.index_of_first_ensures(c);
    s@.index_of_last_ensures(c);
}

/// A pattern is found at the first position at which it stands.
pub proof fn patterns_are_found(s: &[char], pat: &[char], from: usize, r: Option<usize>)
    requires
        call_ensures(find_from, (s, pat, from), r),
    ensures
        r matches Some(k) ==> from <= k && k + pat@.len() <= s@.len() && s@.subrange(
            k as int,
            k + pat@.len(),
        ) == pat@ && forall|j: int|
            from <= j < k ==> #[trigger] s@.subrange(j, j + pat@.len()) != pat@,
        r is None ==> forall|j: int|
            from <= j && j + pat@.len() <= s@.len() ==> #[trigger] s@.subrange(j, j + pat@.len())
                != pat@,
{
    text::lemma_first_from(s@, pat@, from as int);
    if let Some(k) = r {
        assert forall|j: int| from <= j < k implies #[trigger] s@.subrange(j, j + pat@.len())
            != pat@ by {
            assert(!text::occurs_at(s@, pat@, j));
        }
    } else {
        assert forall|j: int| from <= j && j + pat@.len() <= s@.len() implies #[trigger] s@.subrange(
            j,
            j + pat@.len(),
        ) != pat@ by {
            assert(!text::occurs_at(s@, pat@, j));
        }
    }
}

/// Replacing puts the other text in the place of the first occurrence of the pattern and goes on
/// behind it; a text without the pattern stays as it is.
pub proof fn every_occurrence_is_replaced(
    front: Seq<char>,
    pat: &[char],
    back: &[char],
    by: &[char],
    whole: &[char],
    of_back: Vec<char>,
    r: Vec<char>,
    plain: &[char],
    of_plain: Vec<char>,
)
    requires
        pat@.len() > 0,
        whole@ == front + pat@ + back@,
        forall|i: int| 0 <= i < front.len() ==> !#[trigger] text::occurs_at(whole@, pat@, i),
        forall|i: int| !#[trigger] text::occurs_at(plain@, pat@, i),
        call_ensures(replace, (back, pat, by), of_back),
        call_ensures(replace, (whole, pat, by), r),
        call_ensures(replace, (plain, pat, by), of_plain),
    ensures
        r@ == front + by@ + of_back@,
        of_plain@ == plain@,
{
    lemma_split_first(front, pat@, back@);
    lemma_split_none(plain@, pat@);
    let parts = text::split(whole@, pat@);
    lemma_join_split(back@, pat@);
    lemma_join_first(parts, by@);
    assert(parts.drop_first() =~= text::split(back@, pat@));
}

} // verus!
