//! Decimal numbers as text.
use vstd::prelude::*;
use vstd::slice::slice_subrange;

verus! {

/// The digit that stands for `d`.
pub open spec fn digit(d: nat) -> char {
    (('0' as int) + d) as char
}

/// `c` is one of `0` to `9`.
pub open spec fn is_digit(c: char) -> bool {
    '0' as int <= c as int <= '9' as int
}

/// Every character of `s` is a decimal digit.
pub open spec fn all_digits(s: Seq<char>) -> bool {
    forall|i: int| 0 <= i < s.len() ==> is_digit(#[trigger] s[i])
}

/// `n` in decimal, without leading zeros.
pub open spec fn decimal(n: nat) -> Seq<char>
    decreases n,
{
    if n < 10 {
        seq![digit(n)]
    } else {
        decimal(n / 10).push(digit(n % 10))
    }
}

/// `n` in decimal, with zeros in front up to `width` characters.
pub open spec fn padded(n: nat, width: nat) -> Seq<char> {
    let d = decimal(n);
    if d.len() < width {
        Seq::new((width - d.len()) as nat, |i: int| '0') + d
    } else {
        d
    }
}

/// The number that the digits `s` stand for.
pub open spec fn decimal_value(s: Seq<char>) -> nat
    decreases s.len(),
{
    if s.len() == 0 {
        0
    } else {
        10 * decimal_value(s.drop_last()) + (s.last() as int - '0' as int) as nat
    }
}

/// What is printed in decimal consists of digits and reads back as the same number.
pub proof fn lemma_decimal_reads_back(n: nat)
    ensures
        decimal(n).len() > 0,
        all_digits(decimal(n)),
        decimal_value(decimal(n)) == n,
    decreases n,
{
    let d = decimal(n);
    if n < 10 {
        assert(d.drop_last() =~= seq![]);
        assert(decimal_value(d.drop_last()) == 0);
    } else {
        lemma_decimal_reads_back(n / 10);
        assert(d.drop_last() =~= decimal(n / 10));
        assert(is_digit(digit(n % 10)));
    }
}

/// The digit character for `d`.
fn digit_char(d: u64) -> (r: char)
    requires
        d < 10,
    ensures
        r == digit(d as nat),
{
    (48u8 + d as u8) as char
}

/// `n` in decimal.
pub fn decimal_text(n: u128) -> (r: String)
    ensures
        r@ == decimal(n as nat),
{
    let mut reversed: Vec<char> = Vec::new();
    let mut left: u128 = n;
    assert(reversed@.reverse() =~= seq![]);
    while left >= 10
        invariant
            decimal(n as nat) == decimal(left as nat) + reversed@.reverse(),
        decreases left,
    {
        let ghost was = reversed@;
        let c = digit_char((left % 10) as u64);
        reversed.push(c);
        assert(reversed@.reverse() =~= seq![c] + was.reverse());
        assert(decimal(left as nat) =~= decimal((left / 10) as nat) + seq![c]);
        left = left / 10;
        assert(decimal(n as nat) =~= decimal(left as nat) + reversed@.reverse());
    }
    let ghost was = reversed@;
    let c = digit_char(left as u64);
    reversed.push(c);
    assert(reversed@.reverse() =~= seq![c] + was.reverse());
    assert(decimal(n as nat) =~= reversed@.reverse());
    let mut out = String::new();
    let mut i: usize = reversed.len();
    while i > 0
        invariant
            i <= reversed@.len(),
            out@ == reversed@.reverse().take(reversed@.len() - i),
        decreases i,
    {
        i = i - 1;
        out.push(reversed[i]);
        assert(reversed@.reverse().take(reversed@.len() - i) =~= reversed@.reverse().take(
            reversed@.len() - i - 1,
        ).push(reversed@[i as int]));
    }
    assert(reversed@.reverse().take(reversed@.len() as int) =~= reversed@.reverse());
    out
}

/// `n` in decimal, with zeros in front up to `width` characters.
pub fn padded_text(n: u64, width: usize) -> (r: String)
    ensures
        r@ == padded(n as nat, width as nat),
{
    let digits = decimal_text(n as u128);
    let have: usize = digits.as_str().unicode_len();
    if have >= width {
        return digits;
    }
    let mut out = String::new();
    let missing: usize = width - have;
    for i in 0..missing
        invariant
            out@ == Seq::new(i as nat, |j: int| '0'),
    {
        out.push('0');
        assert(out@ =~= Seq::new((i + 1) as nat, |j: int| '0'));
    }
    out.append(digits.as_str());
    out
}

/// Whether `c` is a decimal digit.
pub fn digit_here(c: char) -> (r: bool)
    ensures
        r == is_digit(c),
{
    let n: u32 = c as u32;
    48 <= n && n <= 57
}

/// Whether every character of `s` is a decimal digit.
pub fn digits_only(s: &[char]) -> (r: bool)
    ensures
        r == all_digits(s@),
{
    for i in 0..s.len()
        invariant
            forall|j: int| 0 <= j < i ==> is_digit(#[trigger] s@[j]),
    {
        if !digit_here(s[i]) {
            return false;
        }
    }
    true
}

/// The value of a prefix of a number is at most the value of the number.
proof fn lemma_value_grows(s: Seq<char>, k: int)
    requires
        all_digits(s),
        0 <= k <= s.len(),
    ensures
        decimal_value(s.take(k)) <= decimal_value(s),
    decreases s.len() - k,
{
    if k == s.len() {
        assert(s.take(k) =~= s);
    } else {
        lemma_value_grows(s, k + 1);
        assert(s.take(k + 1).drop_last() =~= s.take(k));
        assert(is_digit(s[k]));
    }
}

/// The number that the digits `s` stand for, where it fits.
pub fn read_u32(s: &[char]) -> (r: Option<u32>)
    requires
        all_digits(s@),
    ensures
        match r {
            Some(n) => n == decimal_value(s@),
            None => decimal_value(s@) > u32::MAX,
        },
{
    let mut value: u32 = 0;
    for i in 0..s.len()
        invariant
            all_digits(s@),
            value == decimal_value(s@.take(i as int)),
    {
        assert(s@.take(i + 1).drop_last() =~= s@.take(i as int));
        assert(is_digit(s@[i as int]));
        let next: u64 = 10 * (value as u64) + (s[i] as u32 - 48) as u64;
        assert(next == decimal_value(s@.take(i + 1)));
        if next > u32::MAX as u64 {
            proof {
                lemma_value_grows(s@, i + 1);
            }
            return None;
        }
        value = next as u32;
    }
    assert(s@.take(s@.len() as int) =~= s@);
    Some(value)
}

/// `s` without the plus sign in front, if there is one.
pub open spec fn unsigned(s: Seq<char>) -> Seq<char> {
    if s.len() > 0 && s[0] == '+' {
        s.drop_first()
    } else {
        s
    }
}

/// The number that `s` is read as: digits, at least one, with or without a plus sign in front. It
/// must fit in 32 bits.
pub open spec fn u32_value(s: Seq<char>) -> Option<u32> {
    let d = unsigned(s);
    if d.len() > 0 && all_digits(d) && decimal_value(d) <= u32::MAX {
        Some(decimal_value(d) as u32)
    } else {
        None
    }
}

/// The number that `s` is read as.
pub fn parse_u32(s: &[char]) -> (r: Option<u32>)
    ensures
        r == u32_value(s@),
{
    let n: usize = s.len();
    let digits = if n > 0 && s[0] == '+' {
        let rest = slice_subrange(s, 1, n);
        assert(rest@ =~= s@.drop_first());
        rest
    } else {
        s
    };
    if digits.len() > 0 && digits_only(digits) {
        read_u32(digits)
    } else {
        None
    }
}

// ── Laws ─────────────────────────────────────────────────────────────────────

/// The value of digits: each digit counts ten times less than the one before it.
pub proof fn digits_count_by_tens(s: Seq<char>, d: nat)
    requires
        d < 10,
    ensures
        decimal_value(Seq::<char>::empty()) == 0,
        decimal_value(s.push(('0' as int + d) as char)) == 10 * decimal_value(s) + d,
{
    let c = ('0' as int + d) as char;
    assert(s.push(c).drop_last() =~= s);
}

/// A number is written in digits that stand for it, without a zero in front unless it is zero.
pub proof fn numbers_are_written_in_digits(n: u128, r: String)
    requires
        call_ensures(decimal_text, (n,), r),
    ensures
        r@.len() > 0,
        forall|i: int| 0 <= i < r@.len() ==> '0' as int <= (#[trigger] r@[i]) as int <= '9' as int,
        decimal_value(r@) == n,
        n > 0 ==> r@[0] != '0',
{
    lemma_decimal_reads_back(n as nat);
    if n > 0 {
        lemma_no_zero_in_front(n as nat);
    }
    assert forall|i: int| 0 <= i < r@.len() implies '0' as int <= (#[trigger] r@[i]) as int
        <= '9' as int by {
        assert(is_digit(r@[i]));
    }
}

proof fn lemma_no_zero_in_front(n: nat)
    requires
        n > 0,
    ensures
        decimal(n).len() > 0,
        decimal(n)[0] != '0',
    decreases n,
{
    if n >= 10 {
        lemma_no_zero_in_front(n / 10);
    }
}

/// A number that is written with zeros in front is as wide as asked for, or as wide as its digits,
/// and stands for the same.
pub proof fn padded_numbers_stay_the_same(n: u64, width: usize, plain: String, r: String)
    requires
        call_ensures(decimal_text, (n as u128,), plain),
        call_ensures(padded_text, (n, width), r),
    ensures
        r@.len() == (if plain@.len() < width {
            width as nat
        } else {
            plain@.len()
        }),
        forall|i: int| 0 <= i < r@.len() - plain@.len() ==> (#[trigger] r@[i]) == '0',
        r@.skip(r@.len() - plain@.len()) == plain@,
        decimal_value(r@) == n,
{
    assert(r@.skip(r@.len() - plain@.len()) =~= plain@);
    lemma_padded(n as nat, width as nat);
}

/// A padded number reads back as the number.
pub proof fn lemma_padded(n: nat, width: nat)
    ensures
        all_digits(padded(n, width)),
        decimal_value(padded(n, width)) == n,
        padded(n, width).len() >= width,
        decimal(n).len() <= width ==> padded(n, width).len() == width,
{
    let d = decimal(n);
    lemma_decimal_reads_back(n);
    if d.len() < width {
        let zeros = Seq::new((width - d.len()) as nat, |i: int| '0');
        lemma_zeros_in_front(zeros.len(), d);
        assert forall|i: int| 0 <= i < (zeros + d).len() implies is_digit(
            #[trigger] (zeros + d)[i],
        ) by {
            if i >= zeros.len() {
                assert((zeros + d)[i] == d[i - zeros.len()]);
            }
        }
    }
}

proof fn lemma_zeros_in_front(k: nat, d: Seq<char>)
    ensures
        decimal_value(Seq::new(k, |i: int| '0') + d) == decimal_value(d),
    decreases d.len(), k,
{
    let zeros = Seq::new(k, |i: int| '0');
    let s = zeros + d;
    if d.len() > 0 {
        assert(s.drop_last() =~= zeros + d.drop_last());
        lemma_zeros_in_front(k, d.drop_last());
    } else if k > 0 {
        let fewer = Seq::new((k - 1) as nat, |i: int| '0');
        assert(s.drop_last() =~= fewer + d);
        lemma_zeros_in_front((k - 1) as nat, d);
    } else {
        assert(s =~= d);
    }
}

/// A number is read from digits, at least one, with or without a plus sign in front; anything else
/// is no number, and neither is one that does not fit.
pub proof fn numbers_are_read_from_digits(s: &[char], r: Option<u32>)
    requires
        call_ensures(parse_u32, (s,), r),
    ensures
        ({
            let d = if s@.len() > 0 && s@[0] == '+' {
                s@.skip(1)
            } else {
                s@
            };
            &&& r is Some <==> d.len() > 0 && decimal_value(d) <= u32::MAX && are_digits(d)
            &&& r matches Some(n) ==> n == decimal_value(d)
        }),
{
    let d = unsigned(s@);
    if s@.len() > 0 && s@[0] == '+' {
        assert(s@.skip(1) =~= s@.drop_first());
    }
    if all_digits(d) {
        assert forall|i: int| 0 <= i < d.len() implies '0' as int <= (#[trigger] d[i]) as int
            <= '9' as int by {
            assert(is_digit(d[i]));
        }
    }
    if are_digits(d) {
        assert forall|i: int| 0 <= i < d.len() implies is_digit(#[trigger] d[i]) by {}
    }
}

/// Every character stands between `0` and `9`.
pub open spec fn are_digits(s: Seq<char>) -> bool {
    forall|i: int| 0 <= i < s.len() ==> '0' as int <= (#[trigger] s[i]) as int <= '9' as int
}

/// The decimal digits are the ten from `0` to `9`; a text of digits holds nothing else.
pub proof fn digits_are_known(c: char, here: bool, s: &[char], all: bool)
    requires
        call_ensures(digit_here, (c,), here),
        call_ensures(digits_only, (s,), all),
    ensures
        here <==> '0' as int <= c as int <= '9' as int,
        all <==> forall|i: int|
            0 <= i < s@.len() ==> '0' as int <= (#[trigger] s@[i]) as int <= '9' as int,
{
    assert forall|i: int| 0 <= i < s@.len() implies is_digit(#[trigger] s@[i]) == ('0' as int
        <= s@[i] as int <= '9' as int) by {}
}

} // verus!
