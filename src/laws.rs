//! Laws that relate the operations of the integer type to one another.
use vstd::prelude::*;
use vstd::arithmetic::power::{pow, lemma_pow0, lemma_pow1, lemma_pow_adds, lemma_pow_increases, lemma_pow_positive};
use vstd::arithmetic::power2::{pow2, lemma_pow2_adds, lemma_pow2_pos, lemma_pow2_strictly_increases};
use vstd::arithmetic::div_mod::{
    lemma_fundamental_div_mod, lemma_mod_bound, lemma_fundamental_div_mod_converse,
};
use crate::limbs::{limb_base, lemma_val_injective, lemma_base_pow_positive};
use crate::uint::{FixedWidthUint, width_ok, modulus, bit_length, lemma_bit_length_bounds, lemma_base_pow_pow2};
use crate::codec::{be_value, le_value};
use crate::text::{canonical_hex, hex_value, all_hex, is_hex_digit, is_lower_hex_digit, lemma_nibbles_limbs};
use crate::ops::lemma_small_mod;

verus! {

/// Division law: for every nonzero `b`, `a == b * (a / b) + a % b` and
/// `0 <= a % b < b`.
pub proof fn law_div_mod<const N: usize>(a: FixedWidthUint<N>, b: FixedWidthUint<N>)
    requires
        b@ != 0,
    ensures
        a@ == b@ * (a@ / b@) + a@ % b@,
        0 <= a@ % b@ < b@,
{
    a.lemma_range();
    b.lemma_range();
    lemma_fundamental_div_mod(a@, b@);
    lemma_mod_bound(a@, b@);
}

/// Writing a value as big-endian bytes and reading them back gives the same
/// limbs.
pub proof fn law_big_endian_round_trip<const N: usize>(
    a: FixedWidthUint<N>,
    bytes: Seq<u8>,
    b: FixedWidthUint<N>,
)
    requires
        bytes.len() == 8 * N,
        be_value(bytes) == a@,
        b@ == be_value(bytes),
    ensures
        b.0@ == a.0@,
{
    lemma_val_injective(b.0@, a.0@);
}

/// Writing a value as little-endian bytes and reading them back gives the
/// same limbs.
pub proof fn law_little_endian_round_trip<const N: usize>(
    a: FixedWidthUint<N>,
    bytes: Seq<u8>,
    b: FixedWidthUint<N>,
)
    requires
        bytes.len() == 8 * N,
        le_value(bytes) == a@,
        b@ == le_value(bytes),
    ensures
        b.0@ == a.0@,
{
    lemma_val_injective(b.0@, a.0@);
}

/// Addition: a sum that fits comes out exact with no overflow; a sum past
/// the largest value is reported as overflow.
pub proof fn law_add_overflow<const N: usize>(a: FixedWidthUint<N>, b: FixedWidthUint<N>)
    ensures
        a@ + b@ < modulus(N) ==> (a@ + b@) % modulus(N) == a@ + b@ && !(a@ + b@ >= modulus(N)),
        a@ + b@ >= modulus(N) ==> (a@ + b@ >= modulus(N)) && !(a@ + b@ < modulus(N)),
{
    a.lemma_range();
    b.lemma_range();
    if a@ + b@ < modulus(N) {
        lemma_small_mod(a@ + b@, modulus(N));
    }
}

/// Any value to the power zero is one, which fits every width.
pub proof fn law_pow_zero_exponent<const N: usize>(a: FixedWidthUint<N>)
    requires
        N >= 1,
    ensures
        pow(a@, 0) == 1,
        pow(a@, 0) % modulus(N) == 1,
{
    lemma_pow0(a@);
    crate::limbs::lemma_base_pow_le(1, N as nat);
    crate::limbs::lemma_base_pow_succ(0);
    lemma_pow0(limb_base());
    lemma_small_mod(1, modulus(N));
}

/// Zero to any positive power is zero.
pub proof fn law_pow_zero_base(n: nat)
    requires
        n > 0,
    ensures
        pow(0, n) == 0,
{
    vstd::arithmetic::power::lemma0_pow(n);
}

/// Shortest hexadecimal digits with a nonzero lead are worth at least
/// `16^(len - 1)`.
proof fn lemma_hex_lower_bound(d: Seq<char>)
    requires
        d.len() >= 1,
        forall|i: int| 0 <= i < d.len() ==> is_lower_hex_digit(#[trigger] d[i]),
        d[0] != '0',
    ensures
        hex_value(d) >= pow(16, (d.len() - 1) as nat),
    decreases d.len(),
{
    lemma_pow0(16);
    if d.len() == 1 {
        assert(d.drop_last() =~= Seq::<char>::empty());
        assert(hex_value(Seq::<char>::empty()) == 0);
    } else {
        let p = d.drop_last();
        assert(p[0] == d[0]);
        assert forall|i: int| 0 <= i < p.len() implies is_lower_hex_digit(#[trigger] p[i]) by {
            assert(p[i] == d[i]);
        }
        lemma_hex_lower_bound(p);
        assert(is_lower_hex_digit(d[d.len() - 1]));
        lemma_pow_adds(16, (d.len() - 2) as nat, 1);
        lemma_pow1(16);
    }
}

/// Formatting a value in hexadecimal and parsing the text back succeeds and
/// gives the value.
pub proof fn law_hex_round_trip<const N: usize>(a: FixedWidthUint<N>, text: Seq<char>)
    requires
        width_ok(N),
        canonical_hex(text, a@),
    ensures
        all_hex(text),
        text.len() <= 16 * N,
        hex_value(text) == a@,
{
    assert forall|i: int| 0 <= i < text.len() implies is_hex_digit(#[trigger] text[i]) by {
        assert(is_lower_hex_digit(text[i]));
    }
    a.lemma_range();
    lemma_nibbles_limbs(N as nat);
    if text.len() > 16 * N {
        if text[0] != '0' {
            lemma_hex_lower_bound(text);
            lemma_pow_increases(16, (16 * N) as nat, (text.len() - 1) as nat);
        }
    }
}

/// Formatting zero in hexadecimal gives the single digit `0`.
pub proof fn law_hex_zero(text: Seq<char>)
    requires
        canonical_hex(text, 0),
    ensures
        text == seq!['0'],
{
    if text.len() > 1 {
        lemma_hex_lower_bound(text);
        lemma_pow_positive(16, (text.len() - 1) as nat);
    } else {
        assert(text.drop_last() =~= Seq::<char>::empty());
        assert(hex_value(Seq::<char>::empty()) == 0);
        assert(text =~= seq!['0']);
    }
}

/// Shifting left by fewer bits than the leading zeros and back right gives
/// the value back.
pub proof fn law_shift_round_trip<const N: usize>(a: FixedWidthUint<N>, s: nat)
    requires
        s < 64 * N - bit_length(a@),
    ensures
        ((a@ * (pow2(s) as int)) % modulus(N)) / (pow2(s) as int) == a@,
{
    a.lemma_range();
    lemma_base_pow_pow2(N as nat);
    lemma_pow2_pos(s);
    let b = bit_length(a@);
    if a@ > 0 {
        lemma_bit_length_bounds(a@);
        lemma_pow2_adds(b, s);
        if b + s < 64 * N {
            lemma_pow2_strictly_increases(b + s, (64 * N) as nat);
        }
        assert(a@ * pow2(s) < pow2(b) * pow2(s)) by (nonlinear_arith)
            requires
                a@ < pow2(b),
                pow2(s) > 0,
        ;
        assert(pow2(b + s) <= pow2((64 * N) as nat));
        assert(a@ * pow2(s) < modulus(N));
    } else {
        lemma_base_pow_positive(N as nat);
        assert(a@ * pow2(s) == 0);
    }
    assert(a@ * pow2(s) >= 0) by (nonlinear_arith)
        requires
            a@ >= 0,
    ;
    lemma_small_mod(a@ * pow2(s), modulus(N));
    vstd::arithmetic::div_mod::lemma_div_multiples_vanish(a@, pow2(s) as int);
    assert(a@ * pow2(s) == pow2(s) * a@) by (nonlinear_arith);
}

/// Shifting by the full bit width, either way, gives zero.
pub proof fn law_shift_full_width<const N: usize>(a: FixedWidthUint<N>)
    ensures
        (a@ * (pow2((64 * N) as nat) as int)) % modulus(N) == 0,
        a@ / (pow2((64 * N) as nat) as int) == 0,
{
    a.lemma_range();
    lemma_base_pow_pow2(N as nat);
    lemma_base_pow_positive(N as nat);
    vstd::arithmetic::div_mod::lemma_mod_multiples_basic(a@, modulus(N));
    lemma_fundamental_div_mod_converse(a@, modulus(N), 0, a@);
}

} // verus!
