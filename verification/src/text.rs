//! Text handling over sequences of characters.
//!
//! Contracts speak of the view of a string, the sequence of its characters. The executable
//! functions work on character slices.
use vstd::prelude::*;
use vstd::slice::slice_subrange;

verus! {

/// `String::push` appends the character at the end of the string.
pub assume_specification[ String::push ](s: &mut String, c: char)
    ensures
        final(s)@ == old(s)@.push(c),
;

/// The views of the items of a sequence, in order.
pub open spec fn views<T: View>(s: Seq<T>) -> Seq<T::V> {
    Seq::new(s.len(), |i: int| s[i]@)
}

// ── Conversions ──────────────────────────────────────────────────────────────

/// The characters of `s`.
pub fn to_chars(s: &str) -> (r: Vec<char>)
    ensures
        r@ == s@,
{
    let mut out: Vec<char> = Vec::new();
    for c in it: s.chars()
        invariant
            out@ == it.seq().take(it.index()),
            it.seq() == s@,
    {
        out.push(c);
        assert(it.seq().take(it.index() + 1) =~= it.seq().take(it.index()).push(c));
    }
    out
}

/// The string that holds the characters `s`.
pub fn to_text(s: &[char]) -> (r: String)
    ensures
        r@ == s@,
{
    let mut out = String::new();
    for i in 0..s.len()
        invariant
            out@ == s@.take(i as int),
    {
        out.push(s[i]);
        assert(s@.take(i + 1) =~= s@.take(i as int).push(s@[i as int]));
    }
    assert(s@.take(s@.len() as int) =~= s@);
    out
}

/// A copy of a list of strings.
pub fn copy_texts(items: &Vec<String>) -> (r: Vec<String>)
    ensures
        views(r@) == views(items@),
{
    let mut out: Vec<String> = Vec::new();
    for i in 0..items.len()
        invariant
            out@.len() == i,
            forall|j: int| 0 <= j < i ==> (#[trigger] out@[j])@ == items@[j]@,
    {
        out.push(items[i].clone());
    }
    assert(views(out@) =~= views(items@));
    out
}

/// Whether the two strings hold the same characters.
pub fn same_text(a: &str, b: &str) -> (r: bool)
    ensures
        r == (a@ == b@),
{
    let x = to_chars(a);
    let y = to_chars(b);
    if x.len() != y.len() {
        return false;
    }
    for i in 0..x.len()
        invariant
            x@.len() == y@.len(),
            x@ == a@,
            y@ == b@,
            forall|j: int| 0 <= j < i ==> x@[j] == y@[j],
    {
        if x[i] != y[i] {
            return false;
        }
    }
    assert(x@ =~= y@);
    true
}

/// Whether `name` is one of `names`.
pub fn contains_text(names: &Vec<String>, name: &str) -> (r: bool)
    ensures
        r == views(names@).contains(name@),
{
    for i in 0..names.len()
        invariant
            forall|j: int| 0 <= j < i ==> (#[trigger] names@[j])@ != name@,
    {
        if same_text(names[i].as_str(), name) {
            assert(views(names@)[i as int] == name@);
            return true;
        }
    }
    assert forall|j: int| 0 <= j < views(names@).len() implies views(names@)[j] != name@ by {
        assert(names@[j]@ != name@);
    }
    false
}

/// Three texts in a row.
pub fn concat3(a: &str, b: &str, c: &str) -> (r: String)
    ensures
        r@ == a@ + b@ + c@,
{
    a.to_string().concat(b).concat(c)
}

// ── White space ──────────────────────────────────────────────────────────────

/// The characters with the Unicode property `White_Space`.
pub open spec fn is_space(c: char) -> bool {
    let n = c as int;
    ||| 0x9 <= n <= 0xd
    ||| n == 0x20
    ||| n == 0x85
    ||| n == 0xa0
    ||| n == 0x1680
    ||| 0x2000 <= n <= 0x200a
    ||| n == 0x2028
    ||| n == 0x2029
    ||| n == 0x202f
    ||| n == 0x205f
    ||| n == 0x3000
}

/// Whether `c` is white space.
pub fn space(c: char) -> (r: bool)
    ensures
        r == is_space(c),
{
    let n: u32 = c as u32;
    (0x9 <= n && n <= 0xd) || n == 0x20 || n == 0x85 || n == 0xa0 || n == 0x1680 || (0x2000 <= n
        && n <= 0x200a) || n == 0x2028 || n == 0x2029 || n == 0x202f || n == 0x205f || n == 0x3000
}

/// `s` without its leading white space.
pub open spec fn trimmed_start(s: Seq<char>) -> Seq<char>
    decreases s.len(),
{
    if s.len() > 0 && is_space(s[0]) {
        trimmed_start(s.drop_first())
    } else {
        s
    }
}

/// `s` without its trailing white space.
pub open spec fn trimmed_end(s: Seq<char>) -> Seq<char>
    decreases s.len(),
{
    if s.len() > 0 && is_space(s.last()) {
        trimmed_end(s.drop_last())
    } else {
        s
    }
}

/// `s` without leading and trailing white space.
pub open spec fn trimmed(s: Seq<char>) -> Seq<char> {
    trimmed_end(trimmed_start(s))
}

/// `s` without leading and trailing white space.
pub fn trim(s: &[char]) -> (r: &[char])
    ensures
        r@ == trimmed(s@),
{
    let mut lo: usize = 0;
    assert(s@.skip(0) =~= s@);
    while lo < s.len() && space(s[lo])
        invariant
            lo <= s@.len(),
            trimmed_start(s@) == trimmed_start(s@.skip(lo as int)),
        decreases s@.len() - lo,
    {
        assert(s@.skip(lo as int).drop_first() =~= s@.skip(lo + 1));
        lo = lo + 1;
    }
    let ghost front = s@.skip(lo as int);
    assert(trimmed_start(s@) == front);
    let mut hi: usize = s.len();
    assert(s@.subrange(lo as int, hi as int) =~= front);
    while lo < hi && space(s[hi - 1])
        invariant
            lo <= hi <= s@.len(),
            trimmed_end(front) == trimmed_end(s@.subrange(lo as int, hi as int)),
        decreases hi,
    {
        assert(s@.subrange(lo as int, hi as int).drop_last() =~= s@.subrange(
            lo as int,
            hi - 1,
        ));
        hi = hi - 1;
    }
    slice_subrange(s, lo, hi)
}

// ── Searching and splitting ──────────────────────────────────────────────────

/// `pat` stands in `s` at position `i`.
pub open spec fn occurs_at(s: Seq<char>, pat: Seq<char>, i: int) -> bool {
    &&& 0 <= i
    &&& i + pat.len() <= s.len()
    &&& s.subrange(i, i + pat.len()) == pat
}

/// The first position of `pat` in `s` that is not before `i`.
pub open spec fn first_from(s: Seq<char>, pat: Seq<char>, i: int) -> Option<int>
    decreases s.len() + 1 - i,
{
    if i + pat.len() > s.len() {
        None
    } else if occurs_at(s, pat, i) {
        Some(i)
    } else {
        first_from(s, pat, i + 1)
    }
}

/// `first_from` gives the least position, or none where there is none.
pub proof fn lemma_first_from(s: Seq<char>, pat: Seq<char>, i: int)
    ensures
        match first_from(s, pat, i) {
            Some(k) => i <= k && occurs_at(s, pat, k) && forall|j: int|
                i <= j < k ==> !#[trigger] occurs_at(s, pat, j),
            None => forall|j: int| i <= j ==> !#[trigger] occurs_at(s, pat, j),
        },
    decreases s.len() + 1 - i,
{
    if i + pat.len() <= s.len() && !occurs_at(s, pat, i) {
        lemma_first_from(s, pat, i + 1);
    }
}

/// The first position at which `pat` stands in `s`, from `from` on.
pub fn find_from(s: &[char], pat: &[char], from: usize) -> (r: Option<usize>)
    ensures
        match r {
            Some(k) => first_from(s@, pat@, from as int) == Some(k as int),
            None => first_from(s@, pat@, from as int) is None,
        },
{
    let n: usize = s.len();
    let m: usize = pat.len();
    if m > n || from > n - m {
        return None;
    }
    let mut i: usize = from;
    while i <= n - m
        invariant
            from <= i <= n - m + 1,
            m <= n,
            n == s@.len(),
            m == pat@.len(),
            first_from(s@, pat@, from as int) == first_from(s@, pat@, i as int),
        decreases n - m + 1 - i,
    {
        let mut k: usize = 0;
        while k < m && s[i + k] == pat[k]
            invariant
                k <= m,
                i + m <= n,
                n == s@.len(),
                m == pat@.len(),
                forall|j: int| 0 <= j < k ==> s@[i + j] == pat@[j],
            decreases m - k,
        {
            k = k + 1;
        }
        if k == m {
            assert(s@.subrange(i as int, i + m) =~= pat@);
            return Some(i);
        }
        assert(s@.subrange(i as int, i + m)[k as int] != pat@[k as int]);
        if i == n - m {
            assert(first_from(s@, pat@, i + 1) is None);
            return None;
        }
        i = i + 1;
    }
    None
}

/// The pieces of `s` between the occurrences of `pat`, taken from the left; there is always at
/// least one piece. An empty `pat` splits nothing.
pub open spec fn split(s: Seq<char>, pat: Seq<char>) -> Seq<Seq<char>>
    decreases s.len(),
{
    if pat.len() == 0 {
        seq![s]
    } else {
        match first_from(s, pat, 0) {
            Some(i) => {
                proof {
                    lemma_first_from(s, pat, 0);
                }
                seq![s.take(i)] + split(s.skip(i + pat.len()), pat)
            },
            None => seq![s],
        }
    }
}

/// The pieces of `s` between the occurrences of `pat`.
pub fn split_text<'a>(s: &'a [char], pat: &[char]) -> (r: Vec<&'a [char]>)
    requires
        pat@.len() > 0,
    ensures
        views(r@) == split(s@, pat@),
{
    let mut out: Vec<&'a [char]> = Vec::new();
    let mut rest: &'a [char] = s;
    assert(views(out@) + split(rest@, pat@) =~= split(s@, pat@));
    loop
        invariant
            pat@.len() > 0,
            views(out@) + split(rest@, pat@) == split(s@, pat@),
        decreases rest@.len(),
    {
        let ghost before = views(out@);
        match find_from(rest, pat, 0) {
            Some(i) => {
                proof {
                    lemma_first_from(rest@, pat@, 0);
                }
                let piece = slice_subrange(rest, 0, i);
                let end: usize = rest.len();
                let tail = slice_subrange(rest, i + pat.len(), end);
                assert(piece@ =~= rest@.take(i as int));
                assert(tail@ =~= rest@.skip(i + pat@.len()));
                out.push(piece);
                assert(views(out@) =~= before + seq![piece@]);
                assert(views(out@) + split(tail@, pat@) =~= before + (seq![piece@] + split(
                    tail@,
                    pat@,
                )));
                rest = tail;
            },
            None => {
                out.push(rest);
                assert(views(out@) =~= before + seq![rest@]);
                return out;
            },
        }
    }
}

/// The trimmed pieces of `s` between the occurrences of `pat`, without the empty ones.
pub open spec fn pieces(s: Seq<char>, pat: Seq<char>) -> Seq<Seq<char>> {
    split(s, pat).map_values(|p: Seq<char>| trimmed(p)).filter(
        |p: Seq<char>| p.len() > 0,
    )
}

/// The trimmed pieces of `s` between the occurrences of `pat`, without the empty ones.
pub fn cut_text<'a>(s: &'a [char], pat: &[char]) -> (r: Vec<&'a [char]>)
    requires
        pat@.len() > 0,
    ensures
        views(r@) == pieces(s@, pat@),
{
    let raw = split_text(s, pat);
    let ghost all = split(s@, pat@).map_values(|p: Seq<char>| trimmed(p));
    let ghost keep = |p: Seq<char>| p.len() > 0;
    let mut out: Vec<&'a [char]> = Vec::new();
    assert(all.take(0).filter(keep) =~= seq![]) by {
        reveal(Seq::filter);
    }
    for i in 0..raw.len()
        invariant
            keep == (|p: Seq<char>| p.len() > 0),
            all == split(s@, pat@).map_values(|p: Seq<char>| trimmed(p)),
            views(raw@) == split(s@, pat@),
            views(out@) == all.take(i as int).filter(keep),
    {
        assert(views(raw@)[i as int] == raw@[i as int]@);
        let piece = trim(raw[i]);
        assert(piece@ == all[i as int]);
        assert(all.take(i + 1) =~= all.take(i as int).push(piece@));
        proof {
            all.take(i as int).lemma_filter_push(piece@, keep);
        }
        if piece.len() > 0 {
            let ghost was = views(out@);
            out.push(piece);
            assert(views(out@) =~= was.push(piece@));
        }
    }
    assert(all.take(all.len() as int) =~= all);
    assert(pieces(s@, pat@) =~= all.filter(keep));
    out
}

/// The parts with `sep` between each two.
pub open spec fn join(parts: Seq<Seq<char>>, sep: Seq<char>) -> Seq<char>
    decreases parts.len(),
{
    if parts.len() == 0 {
        seq![]
    } else if parts.len() == 1 {
        parts[0]
    } else {
        join(parts.drop_last(), sep) + sep + parts.last()
    }
}

/// The strings with `sep` between each two.
pub fn join_text(parts: &Vec<String>, sep: &str) -> (r: String)
    ensures
        r@ == join(views(parts@), sep@),
{
    let mut out = String::new();
    let ghost all = views(parts@);
    for i in 0..parts.len()
        invariant
            all == views(parts@),
            out@ == join(all.take(i as int), sep@),
    {
        assert(all.take(i + 1).drop_last() =~= all.take(i as int));
        if i > 0 {
            out.append(sep);
        }
        out.append(parts[i].as_str());
        assert(out@ =~= join(all.take(i + 1), sep@));
    }
    assert(all.take(all.len() as int) =~= all);
    out
}

/// `s` with every occurrence of `pat`, taken from the left, replaced by `by`.
pub open spec fn replaced(s: Seq<char>, pat: Seq<char>, by: Seq<char>) -> Seq<char> {
    join(split(s, pat), by)
}

/// `s` with every occurrence of `pat`, taken from the left, replaced by `by`.
pub fn replace(s: &[char], pat: &[char], by: &[char]) -> (r: Vec<char>)
    requires
        pat@.len() > 0,
    ensures
        r@ == replaced(s@, pat@, by@),
{
    let pieces = split_text(s, pat);
    let mut out: Vec<char> = Vec::new();
    let ghost all = views(pieces@);
    for i in 0..pieces.len()
        invariant
            all == views(pieces@),
            out@ == join(all.take(i as int), by@),
    {
        assert(all.take(i + 1).drop_last() =~= all.take(i as int));
        if i > 0 {
            extend(&mut out, by);
        }
        extend(&mut out, pieces[i]);
        assert(out@ =~= join(all.take(i + 1), by@));
    }
    assert(all.take(all.len() as int) =~= all);
    out
}

fn extend(out: &mut Vec<char>, more: &[char])
    ensures
        final(out)@ == old(out)@ + more@,
{
    let ghost start = out@;
    for i in 0..more.len()
        invariant
            out@ == start + more@.take(i as int),
    {
        out.push(more[i]);
        assert(more@.take(i + 1) =~= more@.take(i as int).push(more@[i as int]));
        assert(out@ =~= start + more@.take(i + 1));
    }
    assert(more@.take(more@.len() as int) =~= more@);
}

/// The first position of `c` in `s`.
pub fn find_char(s: &[char], c: char) -> (r: Option<usize>)
    ensures
        match r {
            Some(k) => s@.index_of_first(c) == Some(k as int),
            None => s@.index_of_first(c) is None,
        },
{
    proof {
        s@.index_of_first_ensures(c);
    }
    for i in 0..s.len()
        invariant
            forall|j: int| 0 <= j < i ==> s@[j] != c,
    {
        if s[i] == c {
            proof {
                s@.index_of_first_ensures(c);
                assert(s@.contains(s@[i as int]));
            }
            return Some(i);
        }
    }
    None
}

/// The last position of `c` in `s`.
pub fn find_last_char(s: &[char], c: char) -> (r: Option<usize>)
    ensures
        match r {
            Some(k) => s@.index_of_last(c) == Some(k as int),
            None => s@.index_of_last(c) is None,
        },
{
    proof {
        s@.index_of_last_ensures(c);
    }
    let mut i: usize = s.len();
    while i > 0
        invariant
            i <= s@.len(),
            forall|j: int| i <= j < s@.len() ==> s@[j] != c,
        decreases i,
    {
        i = i - 1;
        if s[i] == c {
            proof {
                s@.index_of_last_ensures(c);
                assert(s@.contains(s@[i as int]));
            }
            return Some(i);
        }
    }
    None
}

} // verus!
