//! Order identifiers.
use uuid::Uuid;
use vstd::prelude::*;

verus! {

/// The lower-case hexadecimal digit that stands for `d`.
pub open spec fn hex_digit(d: nat) -> char {
    if d < 10 {
        ('0' as int + d) as char
    } else {
        ('a' as int + d - 10) as char
    }
}

/// The last `width` hexadecimal digits of `n`.
pub open spec fn hex(n: nat, width: nat) -> Seq<char>
    decreases width,
{
    if width == 0 {
        seq![]
    } else {
        hex(n / 16, (width - 1) as nat).push(hex_digit(n % 16))
    }
}

/// The 32 hexadecimal digits of `id` in groups of 8, 4, 4, 4 and 12, with hyphens between them.
pub open spec fn hyphenated(id: u128) -> Seq<char> {
    let h = hex(id as nat, 32);
    h.subrange(0, 8) + seq!['-'] + h.subrange(8, 12) + seq!['-'] + h.subrange(12, 16) + seq!['-']
        + h.subrange(16, 20) + seq!['-'] + h.subrange(20, 32)
}

/// `id` is marked as random: version 4 of the standard variant.
pub open spec fn is_random_id(id: u128) -> bool {
    (id >> 76) & 0xf == 4 && (id >> 62) & 0x3 == 2
}

/// The text of an identifier.
///
/// The `Display` impl of `uuid::Uuid` writes the hyphenated lower-case form; `Uuid::from_u128`
/// takes the most significant digit first.
#[verifier::external_body]
pub(crate) fn hyphenate(id: u128) -> (r: String)
    ensures
        r@ == hyphenated(id),
{
    Uuid::from_u128(id).to_string()
}

/// A fresh identifier.
///
/// `uuid::Uuid::new_v4` draws all bits at random but the version and variant marks. Which value
/// comes, and that two calls differ, is left unsaid.
#[verifier::external_body]
pub(crate) fn random_id() -> (r: u128)
    ensures
        is_random_id(r),
{
    Uuid::new_v4().as_u128()
}

/// Two identifiers with the same text are the same.
pub proof fn lemma_hyphenated_injective(a: u128, b: u128)
    requires
        hyphenated(a) == hyphenated(b),
    ensures
        a == b,
{
    let x = hex(a as nat, 32);
    let y = hex(b as nat, 32);
    lemma_hex_len(a as nat, 32);
    lemma_hex_len(b as nat, 32);
    let s = hyphenated(a);
    let t = hyphenated(b);
    assert forall|i: int| 0 <= i < 32 implies x[i] == y[i] by {
        let shift: int = if i < 8 {
            0
        } else if i < 12 {
            1
        } else if i < 16 {
            2
        } else if i < 20 {
            3
        } else {
            4
        };
        assert(s[i + shift] == x[i]);
        assert(t[i + shift] == y[i]);
    }
    assert(x =~= y);
    lemma_hex_injective(a as nat, b as nat, 32);
    lemma_pow16_32();
    vstd::arithmetic::div_mod::lemma_small_mod(a as nat, vstd::arithmetic::power::pow(16, 32) as nat);
    vstd::arithmetic::div_mod::lemma_small_mod(b as nat, vstd::arithmetic::power::pow(16, 32) as nat);
}

proof fn lemma_hex_len(n: nat, width: nat)
    ensures
        hex(n, width).len() == width,
    decreases width,
{
    if width > 0 {
        lemma_hex_len(n / 16, (width - 1) as nat);
    }
}

/// 16 to the power of 32 is one more than the greatest identifier.
proof fn lemma_pow16_32()
    ensures
        vstd::arithmetic::power::pow(16, 32) == u128::MAX + 1,
{
    reveal_with_fuel(vstd::arithmetic::power::pow, 33);
}

/// The digits of a number determine its remainder.
proof fn lemma_hex_injective(a: nat, b: nat, width: nat)
    requires
        hex(a, width) == hex(b, width),
    ensures
        a % (vstd::arithmetic::power::pow(16, width) as nat) == b % (vstd::arithmetic::power::pow(
            16,
            width,
        ) as nat),
    decreases width,
{
    reveal(vstd::arithmetic::power::pow);
    if width == 0 {
        assert(vstd::arithmetic::power::pow(16, 0) == 1);
    } else {
        let w = (width - 1) as nat;
        let p = vstd::arithmetic::power::pow(16, w) as nat;
        vstd::arithmetic::power::lemma_pow_positive(16, w);
        assert(hex(a, width).drop_last() =~= hex(a / 16, w));
        assert(hex(b, width).drop_last() =~= hex(b / 16, w));
        assert(hex(a, width).last() == hex_digit(a % 16));
        assert(hex(b, width).last() == hex_digit(b % 16));
        assert(a % 16 == b % 16);
        lemma_hex_injective(a / 16, b / 16, w);
        assert(vstd::arithmetic::power::pow(16, width) == 16 * p);
        vstd::arithmetic::div_mod::lemma_mod_breakdown(a as int, 16, p as int);
        vstd::arithmetic::div_mod::lemma_mod_breakdown(b as int, 16, p as int);
    }
}

/// The text of an identifier has five groups of digits with hyphens between them.
pub proof fn lemma_groups(id: u128)
    ensures
        hyphenated(id).len() == 36,
        forall|i: int|
            0 <= i < 36 ==> if i == 8 || i == 13 || i == 18 || i == 23 {
                #[trigger] hyphenated(id)[i] == '-'
            } else {
                '0' as int <= hyphenated(id)[i] as int <= '9' as int || 'a' as int <= hyphenated(
                    id,
                )[i] as int <= 'f' as int
            },
{
    let h = hex(id as nat, 32);
    let s = hyphenated(id);
    lemma_hex_len(id as nat, 32);
    lemma_hex_digits(id as nat, 32);
    assert forall|i: int| 0 <= i < 36 implies if i == 8 || i == 13 || i == 18 || i == 23 {
        #[trigger] s[i] == '-'
    } else {
        '0' as int <= s[i] as int <= '9' as int || 'a' as int <= s[i] as int <= 'f' as int
    } by {
        if i < 8 {
            assert(s[i] == h[i]);
        } else if 8 < i < 13 {
            assert(s[i] == h[i - 1]);
        } else if 13 < i < 18 {
            assert(s[i] == h[i - 2]);
        } else if 18 < i < 23 {
            assert(s[i] == h[i - 3]);
        } else if 23 < i {
            assert(s[i] == h[i - 4]);
        }
    }
}

proof fn lemma_hex_digits(n: nat, width: nat)
    ensures
        forall|i: int|
            0 <= i < hex(n, width).len() ==> '0' as int <= (#[trigger] hex(n, width)[i]) as int
                <= '9' as int || 'a' as int <= hex(n, width)[i] as int <= 'f' as int,
    decreases width,
{
    if width > 0 {
        let front = hex(n / 16, (width - 1) as nat);
        lemma_hex_digits(n / 16, (width - 1) as nat);
        assert forall|i: int| 0 <= i < hex(n, width).len() implies '0' as int <= (#[trigger] hex(
            n,
            width,
        )[i]) as int <= '9' as int || 'a' as int <= hex(n, width)[i] as int <= 'f' as int by {
            if i < front.len() {
                assert(hex(n, width)[i] == front[i]);
            } else {
                assert(hex(n, width)[i] == hex_digit(n % 16));
            }
        }
    }
}

} // verus!
