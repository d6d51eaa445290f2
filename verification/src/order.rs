//! The order of strings: lexicographic by code point, the order of their UTF-8 bytes.
use crate::text::to_chars;
use vstd::prelude::*;

verus! {

/// `a` comes strictly before `b`.
pub open spec fn before(a: Seq<char>, b: Seq<char>) -> bool
    decreases a.len(),
{
    if b.len() == 0 {
        false
    } else if a.len() == 0 {
        true
    } else if a[0] != b[0] {
        (a[0] as int) < (b[0] as int)
    } else {
        before(a.drop_first(), b.drop_first())
    }
}

/// No string comes before itself.
pub proof fn lemma_before_irreflexive(a: Seq<char>)
    ensures
        !before(a, a),
    decreases a.len(),
{
    if a.len() > 0 {
        lemma_before_irreflexive(a.drop_first());
    }
}

/// The order is transitive.
pub proof fn lemma_before_transitive(a: Seq<char>, b: Seq<char>, c: Seq<char>)
    requires
        before(a, b),
        before(b, c),
    ensures
        before(a, c),
    decreases a.len(),
{
    if a.len() > 0 && b.len() > 0 && c.len() > 0 && a[0] == b[0] && b[0] == c[0] {
        lemma_before_transitive(a.drop_first(), b.drop_first(), c.drop_first());
    }
}

/// Of two different strings one comes before the other.
pub proof fn lemma_before_total(a: Seq<char>, b: Seq<char>)
    ensures
        a == b || before(a, b) || before(b, a),
        !(before(a, b) && before(b, a)),
        before(a, b) ==> a != b,
    decreases a.len(),
{
    if a.len() > 0 && b.len() > 0 && a[0] == b[0] {
        lemma_before_total(a.drop_first(), b.drop_first());
        if a.drop_first() == b.drop_first() {
            assert(a =~= seq![a[0]] + a.drop_first());
            assert(b =~= seq![b[0]] + b.drop_first());
        }
    } else if a.len() == 0 && b.len() == 0 {
        assert(a =~= b);
    }
}

/// How one string stands to another.
pub enum Rank {
    Before,
    Same,
    After,
}

/// The code point of a character.
fn code_point(c: char) -> (r: u32)
    ensures
        r as int == c as int,
{
    c as u32
}

/// Compares two strings.
pub fn compare(a: &str, b: &str) -> (r: Rank)
    ensures
        match r {
            Rank::Before => before(a@, b@),
            Rank::Same => a@ == b@,
            Rank::After => before(b@, a@),
        },
{
    let x = to_chars(a);
    let y = to_chars(b);
    let mut i: usize = 0;
    assert(x@.skip(0) =~= x@ && y@.skip(0) =~= y@);
    while i < x.len() && i < y.len() && x[i] == y[i]
        invariant
            i <= x@.len(),
            i <= y@.len(),
            x@.take(i as int) == y@.take(i as int),
            before(x@, y@) == before(x@.skip(i as int), y@.skip(i as int)),
            before(y@, x@) == before(y@.skip(i as int), x@.skip(i as int)),
        decreases x@.len() - i,
    {
        assert(x@.skip(i as int).drop_first() =~= x@.skip(i + 1));
        assert(y@.skip(i as int).drop_first() =~= y@.skip(i + 1));
        assert(x@.take(i + 1) =~= x@.take(i as int).push(x@[i as int]));
        assert(y@.take(i + 1) =~= y@.take(i as int).push(y@[i as int]));
        i = i + 1;
    }
    if i == y.len() {
        if i == x.len() {
            assert(x@.take(i as int) =~= x@ && y@.take(i as int) =~= y@);
            Rank::Same
        } else {
            Rank::After
        }
    } else if i == x.len() {
        assert(before(x@.skip(i as int), y@.skip(i as int)));
        Rank::Before
    } else {
        let c: u32 = code_point(x[i]);
        let d: u32 = code_point(y[i]);
        assert(x@.skip(i as int)[0] == x@[i as int]);
        assert(y@.skip(i as int)[0] == y@[i as int]);
        assert(x@[i as int] != y@[i as int]);
        if c < d {
            assert(before(x@.skip(i as int), y@.skip(i as int)));
            Rank::Before
        } else {
            assert(before(y@.skip(i as int), x@.skip(i as int)));
            Rank::After
        }
    }
}

/// The strings stand in strictly ascending order.
pub open spec fn ascending(s: Seq<Seq<char>>) -> bool {
    forall|i: int, j: int| 0 <= i < j < s.len() ==> before(#[trigger] s[i], #[trigger] s[j])
}

/// An ascending sequence holds nothing twice.
pub proof fn lemma_ascending_distinct(s: Seq<Seq<char>>)
    requires
        ascending(s),
    ensures
        s.no_duplicates(),
{
    assert forall|i: int, j: int| 0 <= i < s.len() && 0 <= j < s.len() && i != j implies s[i]
        != s[j] by {
        lemma_before_irreflexive(s[i]);
        if i < j {
            assert(before(s[i], s[j]));
        } else {
            assert(before(s[j], s[i]));
        }
    }
}

/// Two ascending sequences of the same strings are the same.
pub proof fn lemma_ascending_unique(s: Seq<Seq<char>>, t: Seq<Seq<char>>)
    requires
        ascending(s),
        ascending(t),
        s.to_set() == t.to_set(),
    ensures
        s == t,
    decreases s.len(),
{
    if s.len() == 0 {
        if t.len() > 0 {
            assert(t.to_set().contains(t[0]));
            assert(s.contains(t[0]));
        }
        assert(s =~= t);
    } else {
        assert(s.to_set().contains(s[0]));
        assert(t.contains(s[0]));
        let k = choose|k: int| 0 <= k < t.len() && t[k] == s[0];
        assert(t.to_set().contains(t[0]));
        assert(s.contains(t[0]));
        let m = choose|m: int| 0 <= m < s.len() && s[m] == t[0];
        lemma_before_total(s[0], t[0]);
        if k > 0 {
            assert(before(t[0], t[k]));
            if m > 0 {
                assert(before(s[0], s[m]));
            }
        }
        assert(s[0] == t[0]);
        let s1 = s.drop_first();
        let t1 = t.drop_first();
        lemma_ascending_distinct(s);
        lemma_ascending_distinct(t);
        assert forall|x: Seq<char>| s1.to_set().contains(x) <==> t1.to_set().contains(x) by {
            if s1.to_set().contains(x) {
                let i = choose|i: int| 0 <= i < s1.len() && s1[i] == x;
                assert(s[i + 1] == x);
                assert(s.to_set().contains(x));
                assert(t.contains(x));
                let j = choose|j: int| 0 <= j < t.len() && t[j] == x;
                assert(j > 0);
                assert(t1[j - 1] == x);
            }
            if t1.to_set().contains(x) {
                let i = choose|i: int| 0 <= i < t1.len() && t1[i] == x;
                assert(t[i + 1] == x);
                assert(t.to_set().contains(x));
                assert(s.contains(x));
                let j = choose|j: int| 0 <= j < s.len() && s[j] == x;
                assert(j > 0);
                assert(s1[j - 1] == x);
            }
        }
        assert(s1.to_set() =~= t1.to_set());
        assert(ascending(s1)) by {
            assert forall|i: int, j: int| 0 <= i < j < s1.len() implies before(
                #[trigger] s1[i],
                #[trigger] s1[j],
            ) by {
                assert(before(s[i + 1], s[j + 1]));
            }
        }
        assert(ascending(t1)) by {
            assert forall|i: int, j: int| 0 <= i < j < t1.len() implies before(
                #[trigger] t1[i],
                #[trigger] t1[j],
            ) by {
                assert(before(t[i + 1], t[j + 1]));
            }
        }
        lemma_ascending_unique(s1, t1);
        assert(s =~= seq![s[0]] + s1);
        assert(t =~= seq![t[0]] + t1);
    }
}

/// The strings of a finite set in ascending order.
pub open spec fn sorted(keys: Set<Seq<char>>) -> Seq<Seq<char>> {
    choose|s: Seq<Seq<char>>| ascending(s) && s.to_set() == keys
}

/// An ascending sequence is the sorted form of the set of its items.
pub proof fn lemma_sorted_is(s: Seq<Seq<char>>)
    requires
        ascending(s),
    ensures
        sorted(s.to_set()) == s,
{
    let keys = s.to_set();
    assert(ascending(s) && s.to_set() == keys);
    lemma_ascending_unique(sorted(keys), s);
}

/// Putting a string in its place keeps a sequence ascending.
pub proof fn lemma_insert_ascending(s: Seq<Seq<char>>, i: int, x: Seq<char>)
    requires
        ascending(s),
        0 <= i <= s.len(),
        forall|j: int| 0 <= j < i ==> before(#[trigger] s[j], x),
        forall|j: int| i <= j < s.len() ==> before(x, #[trigger] s[j]),
    ensures
        ascending(s.insert(i, x)),
        s.insert(i, x).to_set() == s.to_set().insert(x),
{
    let t = s.insert(i, x);
    assert forall|a: int, b: int| 0 <= a < b < t.len() implies before(
        #[trigger] t[a],
        #[trigger] t[b],
    ) by {
        let p = if a < i {
            a
        } else {
            a - 1
        };
        let q = if b < i {
            b
        } else {
            b - 1
        };
        if a != i && b != i {
            assert(t[a] == s[p] && t[b] == s[q]);
        } else if a == i {
            assert(t[b] == s[q]);
        } else {
            assert(t[a] == s[p]);
        }
    }
    assert forall|y: Seq<char>| t.to_set().contains(y) <==> s.to_set().insert(x).contains(y) by {
        if t.to_set().contains(y) {
            let k = choose|k: int| 0 <= k < t.len() && t[k] == y;
            if k < i {
                assert(s[k] == y);
            } else if k > i {
                assert(s[k - 1] == y);
            }
        }
        if s.to_set().insert(x).contains(y) {
            if y == x {
                assert(t[i] == y);
            } else {
                let k = choose|k: int| 0 <= k < s.len() && s[k] == y;
                if k < i {
                    assert(t[k] == y);
                } else {
                    assert(t[k + 1] == y);
                }
            }
        }
    }
    assert(t.to_set() =~= s.to_set().insert(x));
}

/// Where a string that is not in an ascending sequence belongs in it.
proof fn lemma_place(s: Seq<Seq<char>>, x: Seq<char>) -> (i: int)
    requires
        ascending(s),
        !s.contains(x),
    ensures
        0 <= i <= s.len(),
        forall|j: int| 0 <= j < i ==> before(#[trigger] s[j], x),
        forall|j: int| i <= j < s.len() ==> before(x, #[trigger] s[j]),
    decreases s.len(),
{
    if s.len() == 0 {
        0
    } else {
        let t = s.drop_last();
        lemma_before_total(s.last(), x);
        if before(s.last(), x) {
            assert forall|j: int| 0 <= j < s.len() implies before(#[trigger] s[j], x) by {
                if j < s.len() - 1 {
                    assert(before(s[j], s[s.len() - 1]));
                    lemma_before_transitive(s[j], s.last(), x);
                }
            }
            s.len() as int
        } else {
            assert(s.contains(s[s.len() - 1]));
            assert forall|a: int, b: int| 0 <= a < b < t.len() implies before(
                #[trigger] t[a],
                #[trigger] t[b],
            ) by {
                assert(before(s[a], s[b]));
            }
            assert forall|j: int| 0 <= j < t.len() implies #[trigger] t[j] != x by {
                assert(s.contains(s[j]));
            }
            let i = lemma_place(t, x);
            assert forall|j: int| 0 <= j < i implies before(#[trigger] s[j], x) by {
                assert(before(t[j], x));
            }
            assert forall|j: int| i <= j < s.len() implies before(x, #[trigger] s[j]) by {
                if j < t.len() {
                    assert(before(x, t[j]));
                }
            }
            i
        }
    }
}

/// The sorted form of a finite set is ascending and holds the strings of the set.
pub proof fn lemma_sorted(keys: Set<Seq<char>>)
    requires
        keys.finite(),
    ensures
        ascending(sorted(keys)),
        sorted(keys).to_set() == keys,
    decreases keys.len(),
{
    if keys.len() == 0 {
        let s = Seq::<Seq<char>>::empty();
        assert(s.to_set() =~= keys);
        assert(ascending(s) && s.to_set() == keys);
    } else {
        let x = keys.choose();
        let rest = keys.remove(x);
        lemma_sorted(rest);
        let s = sorted(rest);
        assert(!s.contains(x)) by {
            if s.contains(x) {
                assert(s.to_set().contains(x));
            }
        }
        let i = lemma_place(s, x);
        lemma_insert_ascending(s, i, x);
        assert(rest.insert(x) =~= keys);
        let t = s.insert(i, x);
        assert(ascending(t) && t.to_set() == keys);
    }
}

/// Strings are ordered like words in a dictionary: the first character in which they differ
/// decides, and a string that goes on comes behind the one that ends.
pub proof fn strings_are_ordered_like_words(
    a: &str,
    b: &str,
    front: Seq<char>,
    c: char,
    d: char,
    rest_a: Seq<char>,
    rest_b: Seq<char>,
    r: Rank,
)
    requires
        call_ensures(compare, (a, b), r),
    ensures
        r is Same <==> a@ == b@,
        a@ == front + seq![c] + rest_a && b@ == front + seq![d] + rest_b && (c as int) < (
        d as int) ==> r is Before,
        a@ == front + seq![c] + rest_a && b@ == front + seq![d] + rest_b && (c as int) > (
        d as int) ==> r is After,
        a@ == front && b@ == front + seq![d] + rest_b ==> r is Before,
        a@ == front + seq![c] + rest_a && b@ == front ==> r is After,
{
    lemma_before_total(a@, b@);
    lemma_before_irreflexive(a@);
    if a@ == front + seq![c] + rest_a && b@ == front + seq![d] + rest_b && (c as int) < (
    d as int) {
        lemma_first_difference(front, seq![c] + rest_a, seq![d] + rest_b);
        assert(front + (seq![c] + rest_a) =~= a@);
        assert(front + (seq![d] + rest_b) =~= b@);
    }
    if a@ == front + seq![c] + rest_a && b@ == front + seq![d] + rest_b && (c as int) > (
    d as int) {
        lemma_first_difference(front, seq![d] + rest_b, seq![c] + rest_a);
        assert(front + (seq![c] + rest_a) =~= a@);
        assert(front + (seq![d] + rest_b) =~= b@);
    }
    if a@ == front && b@ == front + seq![d] + rest_b {
        lemma_first_difference(front, seq![], seq![d] + rest_b);
        assert(front + seq![] =~= a@);
        assert(front + (seq![d] + rest_b) =~= b@);
    }
    if a@ == front + seq![c] + rest_a && b@ == front {
        lemma_first_difference(front, seq![], seq![c] + rest_a);
        assert(front + seq![] =~= b@);
        assert(front + (seq![c] + rest_a) =~= a@);
    }
}

/// What two strings have in common at the front does not count.
proof fn lemma_first_difference(front: Seq<char>, a: Seq<char>, b: Seq<char>)
    ensures
        before(front + a, front + b) == before(a, b),
    decreases front.len(),
{
    if front.len() == 0 {
        assert(front + a =~= a);
        assert(front + b =~= b);
    } else {
        let rest = front.drop_first();
        lemma_first_difference(rest, a, b);
        assert((front + a).drop_first() =~= rest + a);
        assert((front + b).drop_first() =~= rest + b);
    }
}

/// A filter keeps an ascending sequence ascending.
pub proof fn lemma_filter_ascending(s: Seq<Seq<char>>, keep: spec_fn(Seq<char>) -> bool)
    requires
        ascending(s),
    ensures
        ascending(s.filter(keep)),
    decreases s.len(),
{
    reveal(Seq::filter);
    if s.len() > 0 {
        let front = s.drop_last();
        assert forall|i: int, j: int| 0 <= i < j < front.len() implies before(
            #[trigger] front[i],
            #[trigger] front[j],
        ) by {
            assert(before(s[i], s[j]));
        }
        lemma_filter_ascending(front, keep);
        let part = front.filter(keep);
        let all = s.filter(keep);
        if keep(s.last()) {
            assert(all =~= part.push(s.last()));
            assert forall|i: int, j: int| 0 <= i < j < all.len() implies before(
                #[trigger] all[i],
                #[trigger] all[j],
            ) by {
                if j == part.len() {
                    assert(part.contains(part[i]));
                    front.lemma_filter_contains_rev(keep, part[i]);
                    let k = choose|k: int| 0 <= k < front.len() && front[k] == part[i];
                    assert(before(s[k], s[s.len() - 1]));
                }
            }
        }
    }
}

} // verus!
