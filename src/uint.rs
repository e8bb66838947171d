//! The fixed-width integer type, its arithmetic and bitwise operations.
use vstd::prelude::*;
use vstd::arithmetic::power::{lemma_pow_multiplies};
use vstd::arithmetic::power2::{pow2, lemma_pow2, lemma_pow2_adds, lemma2_to64, lemma_pow2_pos};
use vstd::std_specs::bits::u64_leading_zeros;
use crate::limbs::{
    lemma_val_split,
    lemma_base_pow_positive,
    limbs_val,
    limb_base,
    base_pow,
    add_with_carry,
    sub_with_borrow,
    lemma_val_prefix_step,
    lemma_val_bounds,
    lemma_base_pow_succ,
    lemma_add_step,
    lemma_sub_step,
    lemma_val_zeros,
    lemma_val_zero_limbs,
};

verus! {

/// The largest limb count for which bit counts fit comfortably in a `u32`.
pub const MAX_LIMBS: usize = 0x100_0000;

/// Limb counts that the type supports.
pub open spec fn width_ok(n: usize) -> bool {
    1 <= n <= MAX_LIMBS
}

/// An unsigned integer of `N` 64-bit limbs, least significant limb first.
#[derive(Clone, Copy, Debug, Hash)]
pub struct FixedWidthUint<const N: usize>(pub [u64; N]);

impl<const N: usize> View for FixedWidthUint<N> {
    type V = int;

    /// The integer that the limbs stand for.
    open spec fn view(&self) -> int {
        limbs_val(self.0@)
    }
}

/// `2^(64 n)`: one more than the largest value of `n` limbs.
pub open spec fn modulus(n: usize) -> int {
    base_pow(n as nat)
}

impl<const N: usize> FixedWidthUint<N> {
    /// Every value lies in `[0, 2^(64 N))`.
    pub proof fn lemma_range(&self)
        ensures
            0 <= self@ < modulus(N),
    {
        lemma_val_bounds(self.0@);
    }

    /// Wraps the given limbs, least significant first.
    pub fn from_limbs(limbs: [u64; N]) -> (r: Self)
        ensures
            r.0 == limbs,
    {
        FixedWidthUint(limbs)
    }

    /// Zero.
    pub fn zero() -> (r: Self)
        ensures
            r@ == 0,
    {
        let r = FixedWidthUint([0u64; N]);
        proof {
            lemma_val_zeros(r.0@);
        }
        r
    }

    /// The value of a single limb.
    pub fn from_u64(value: u64) -> (r: Self)
        requires
            N >= 1,
        ensures
            r@ == value,
            r.0@[0] == value,
            forall|k: int| 1 <= k < N ==> r.0@[k] == 0,
    {
        let mut limbs = [0u64; N];
        limbs[0] = value;
        let r = FixedWidthUint(limbs);
        proof {
            let s = r.0@;
            lemma_val_zeros(s.subrange(1, N as int));
            crate::limbs::lemma_val_first(s);
        }
        r
    }

    /// One.
    pub fn one() -> (r: Self)
        requires
            N >= 1,
        ensures
            r@ == 1,
    {
        Self::from_u64(1)
    }

    /// The largest value, every limb all ones.
    pub fn max_value() -> (r: Self)
        ensures
            r@ == modulus(N) - 1,
    {
        let r = FixedWidthUint([u64::MAX; N]);
        proof {
            lemma_max_limbs(r.0@);
        }
        r
    }

    /// Whether every limb is zero.
    pub fn is_zero(&self) -> (r: bool)
        ensures
            r == (self@ == 0),
    {
        let mut i: usize = 0;
        while i < N
            invariant
                0 <= i <= N,
                forall|k: int| 0 <= k < i ==> self.0@[k] == 0,
            decreases N - i,
        {
            if self.0[i] != 0 {
                proof {
                    if self@ == 0 {
                        lemma_val_zero_limbs(self.0@);
                    }
                }
                return false;
            }
            i += 1;
        }
        proof {
            lemma_val_zeros(self.0@);
        }
        true
    }

    /// Sum and whether it went past the largest value; the sum wraps.
    pub fn overflowing_add(self, other: Self) -> (r: (Self, bool))
        ensures
            r.0@ == (self@ + other@) % modulus(N),
            r.1 == (self@ + other@ >= modulus(N)),
    {
        let mut carry: u64 = 0;
        let mut result = [0u64; N];
        let mut i: usize = 0;
        while i < N
            invariant
                0 <= i <= N,
                carry <= 1,
                limbs_val(result@.subrange(0, i as int)) + carry * base_pow(i as nat) == limbs_val(
                    self.0@.subrange(0, i as int),
                ) + limbs_val(other.0@.subrange(0, i as int)),
            decreases N - i,
        {
            let ghost before = result@;
            let ghost c0 = carry;
            result[i] = add_with_carry(self.0[i], other.0[i], &mut carry);
            proof {
                lemma_add_step(result@[i as int] as int, carry as int, self.0@[i as int] as int,
                    other.0@[i as int] as int, c0 as int, base_pow(i as nat));
                assert(result@.subrange(0, i as int) =~= before.subrange(0, i as int));
                lemma_val_prefix_step(result@, i as int);
                lemma_val_prefix_step(self.0@, i as int);
                lemma_val_prefix_step(other.0@, i as int);
                lemma_base_pow_succ(i as nat);
            }
            i += 1;
        }
        let r = FixedWidthUint(result);
        proof {
            assert(result@.subrange(0, N as int) =~= result@);
            assert(self.0@.subrange(0, N as int) =~= self.0@);
            assert(other.0@.subrange(0, N as int) =~= other.0@);
            r.lemma_range();
            lemma_wrap(r@, carry as int, self@ + other@, modulus(N));
        }
        (r, carry != 0)
    }

    /// Difference and whether it went below zero; the difference wraps.
    pub fn overflowing_sub(self, other: Self) -> (r: (Self, bool))
        ensures
            r.0@ == (self@ - other@) % modulus(N),
            r.1 == (self@ < other@),
    {
        let mut borrow: u64 = 0;
        let mut result = [0u64; N];
        let mut i: usize = 0;
        while i < N
            invariant
                0 <= i <= N,
                borrow <= 1,
                limbs_val(result@.subrange(0, i as int)) - borrow * base_pow(i as nat) == limbs_val(
                    self.0@.subrange(0, i as int),
                ) - limbs_val(other.0@.subrange(0, i as int)),
            decreases N - i,
        {
            let ghost before = result@;
            let ghost c0 = borrow;
            result[i] = sub_with_borrow(self.0[i], other.0[i], &mut borrow);
            proof {
                lemma_sub_step(result@[i as int] as int, borrow as int, self.0@[i as int] as int,
                    other.0@[i as int] as int, c0 as int, base_pow(i as nat));
                assert(result@.subrange(0, i as int) =~= before.subrange(0, i as int));
                lemma_val_prefix_step(result@, i as int);
                lemma_val_prefix_step(self.0@, i as int);
                lemma_val_prefix_step(other.0@, i as int);
                lemma_base_pow_succ(i as nat);
            }
            i += 1;
        }
        let r = FixedWidthUint(result);
        proof {
            assert(result@.subrange(0, N as int) =~= result@);
            assert(self.0@.subrange(0, N as int) =~= self.0@);
            assert(other.0@.subrange(0, N as int) =~= other.0@);
            r.lemma_range();
            lemma_wrap(r@, -(borrow as int), self@ - other@, modulus(N));
        }
        (r, borrow != 0)
    }
}

impl<const N: usize> FixedWidthUint<N> {
    /// Sum, clamped at the largest value.
    pub fn saturating_add(self, other: Self) -> (r: Self)
        ensures
            r@ == if self@ + other@ >= modulus(N) {
                modulus(N) - 1
            } else {
                self@ + other@
            },
    {
        let (val, overflow) = self.overflowing_add(other);
        if overflow {
            Self::max_value()
        } else {
            proof {
                self.lemma_range();
                other.lemma_range();
                lemma_wrap(self@ + other@, 0, self@ + other@, modulus(N));
            }
            val
        }
    }

    /// Sum, or `None` when it does not fit.
    pub fn checked_add(self, other: Self) -> (r: Option<Self>)
        ensures
            r.is_some() <==> self@ + other@ < modulus(N),
            r.is_some() ==> r.unwrap()@ == self@ + other@,
    {
        let (val, overflow) = self.overflowing_add(other);
        if overflow {
            None
        } else {
            proof {
                self.lemma_range();
                other.lemma_range();
                lemma_wrap(self@ + other@, 0, self@ + other@, modulus(N));
            }
            Some(val)
        }
    }

    /// Sum; it must fit.
    pub fn add(self, other: Self) -> (r: Self)
        requires
            self@ + other@ < modulus(N),
        ensures
            r@ == self@ + other@,
    {
        let (val, _) = self.overflowing_add(other);
        proof {
            self.lemma_range();
            other.lemma_range();
            lemma_wrap(self@ + other@, 0, self@ + other@, modulus(N));
        }
        val
    }

    /// Difference, clamped at zero.
    pub fn saturating_sub(self, other: Self) -> (r: Self)
        ensures
            r@ == if self@ < other@ {
                0
            } else {
                self@ - other@
            },
    {
        let (val, overflow) = self.overflowing_sub(other);
        if overflow {
            Self::zero()
        } else {
            proof {
                self.lemma_range();
                other.lemma_range();
                lemma_wrap(self@ - other@, 0, self@ - other@, modulus(N));
            }
            val
        }
    }

    /// Difference, or `None` when it would be negative.
    pub fn checked_sub(self, other: Self) -> (r: Option<Self>)
        ensures
            r.is_some() <==> self@ >= other@,
            r.is_some() ==> r.unwrap()@ == self@ - other@,
    {
        let (val, overflow) = self.overflowing_sub(other);
        if overflow {
            None
        } else {
            proof {
                self.lemma_range();
                other.lemma_range();
                lemma_wrap(self@ - other@, 0, self@ - other@, modulus(N));
            }
            Some(val)
        }
    }

    /// Difference; it must not be negative.
    pub fn sub(self, other: Self) -> (r: Self)
        requires
            self@ >= other@,
        ensures
            r@ == self@ - other@,
    {
        let (val, _) = self.overflowing_sub(other);
        proof {
            self.lemma_range();
            other.lemma_range();
            lemma_wrap(self@ - other@, 0, self@ - other@, modulus(N));
        }
        val
    }
}

/// A limb sequence of all ones is one less than the next power of the radix.
pub proof fn lemma_max_limbs(s: Seq<u64>)
    requires
        forall|i: int| 0 <= i < s.len() ==> s[i] == u64::MAX,
    ensures
        limbs_val(s) == base_pow(s.len()) - 1,
    decreases s.len(),
{
    vstd::arithmetic::power::lemma_pow0(limb_base());
    if s.len() > 0 {
        let k = (s.len() - 1) as nat;
        lemma_max_limbs(s.drop_last());
        lemma_base_pow_succ(k);
    }
}

/// `v + c * m == x` with `v` in `[0, m)` and `c` in `{-1, 0, 1}` fixes `v` and `c`.
pub proof fn lemma_wrap(v: int, c: int, x: int, m: int)
    requires
        0 <= v < m,
        -1 <= c <= 1,
        v + c * m == x,
    ensures
        v == x % m,
        c == 1 <==> x >= m,
        c == -1 <==> x < 0,
{
    vstd::arithmetic::div_mod::lemma_fundamental_div_mod_converse(x, m, c, v);
}

/// Number of limbs up to and including the highest nonzero one.
pub open spec fn limb_count(s: Seq<u64>) -> nat
    decreases s.len(),
{
    if s.len() == 0 {
        0
    } else if s.last() != 0 {
        s.len()
    } else {
        limb_count(s.drop_last())
    }
}

/// Number of binary digits of `x`; zero has none.
pub open spec fn bit_length(x: int) -> nat
    decreases x,
{
    if x <= 0 {
        0
    } else {
        1 + bit_length(x / 2)
    }
}

/// A positive `x` with `b` binary digits lies in `[2^(b-1), 2^b)`.
pub proof fn lemma_bit_length_bounds(x: int)
    requires
        x > 0,
    ensures
        bit_length(x) >= 1,
        pow2((bit_length(x) - 1) as nat) <= x < pow2(bit_length(x)),
    decreases x,
{
    let b = bit_length(x);
    if x == 1 {
        assert(bit_length(0) == 0);
        vstd::arithmetic::power2::lemma2_to64();
    } else {
        lemma_bit_length_bounds(x / 2);
        lemma_pow2_adds((b - 2) as nat, 1);
        lemma_pow2_adds((b - 1) as nat, 1);
        vstd::arithmetic::power2::lemma2_to64();
    }
}

/// `x` in `[2^(b-1), 2^b)` has `b` binary digits.
pub proof fn lemma_bit_length_unique(x: int, b: nat)
    requires
        b >= 1,
        pow2((b - 1) as nat) <= x < pow2(b),
    ensures
        bit_length(x) == b,
{
    lemma_pow2_pos((b - 1) as nat);
    lemma_bit_length_bounds(x);
    let c = bit_length(x);
    if c < b {
        vstd::arithmetic::power2::lemma_pow2_strictly_increases(c, (b - 1) as nat);
        if c == b - 1 {
        }
    } else if c > b {
        vstd::arithmetic::power2::lemma_pow2_strictly_increases(b, (c - 1) as nat);
        if c - 1 == b {
        }
    }
}

/// A limb's leading zeros complement its binary digits to 64.
pub proof fn lemma_leading_zeros(t: u64)
    ensures
        u64_leading_zeros(t) == 64 - bit_length(t as int),
    decreases t,
{
    reveal(u64_leading_zeros);
    if t != 0 {
        lemma_leading_zeros(t / 2);
    }
}

/// `(2^64)^k == 2^(64 k)`.
pub proof fn lemma_base_pow_pow2(k: nat)
    ensures
        base_pow(k) == pow2(64 * k),
{
    lemma2_to64();
    lemma_pow2(64);
    lemma_pow2(64 * k);
    lemma_pow_multiplies(2, 64, k);
}

/// Limbs above `w` are zero and limb `w - 1` is not: the value is at least
/// `(2^64)^(w-1)` and below `(2^64)^w`.
pub proof fn lemma_top_limb(s: Seq<u64>, w: int)
    requires
        0 <= w <= s.len(),
        forall|k: int| w <= k < s.len() ==> s[k] == 0,
        w > 0 ==> s[w - 1] != 0,
    ensures
        limbs_val(s) == limbs_val(s.subrange(0, w)),
        limbs_val(s) < base_pow(w as nat),
        w > 0 ==> limbs_val(s) >= base_pow((w - 1) as nat) * s[w - 1],
        w > 0 ==> bit_length(limbs_val(s)) == 64 * (w - 1) + bit_length(s[w - 1] as int),
{
    lemma_val_split(s, w);
    lemma_val_zeros(s.subrange(w, s.len() as int));
    lemma_val_bounds(s.subrange(0, w));
    if w > 0 {
        let t = s.subrange(0, w);
        crate::limbs::lemma_val_top2_or_one(t);
        let low = limbs_val(t.subrange(0, w - 1));
        let p = base_pow((w - 1) as nat);
        let top = s[w - 1] as int;
        assert(limbs_val(s) == low + p * top);
        lemma_bit_length_bounds(top);
        let bt = bit_length(top);
        lemma_base_pow_pow2((w - 1) as nat);
        lemma_base_pow_positive((w - 1) as nat);
        lemma_pow2_adds((64 * (w - 1)) as nat, (bt - 1) as nat);
        lemma_pow2_adds((64 * (w - 1)) as nat, bt);
        assert(p * pow2((bt - 1) as nat) <= p * top) by (nonlinear_arith)
            requires
                pow2((bt - 1) as nat) <= top,
                p > 0,
        ;
        assert(p * top + p <= p * pow2(bt)) by (nonlinear_arith)
            requires
                top + 1 <= pow2(bt),
                p > 0,
        ;
        lemma_val_bounds(t.subrange(0, w - 1));
        lemma_bit_length_unique(limbs_val(s), (64 * (w - 1) + bt) as nat);
    }
}

impl<const N: usize> FixedWidthUint<N> {
    /// Number of limbs up to and including the highest nonzero one.
    pub fn num_words(&self) -> (r: usize)
        ensures
            r == limb_count(self.0@),
            r <= N,
            forall|k: int| r <= k < N ==> self.0@[k] == 0,
            r > 0 ==> self.0@[r - 1] != 0,
    {
        let mut words: usize = N;
        proof {
            assert(self.0@.subrange(0, N as int) =~= self.0@);
        }
        while words > 0 && self.0[words - 1] == 0
            invariant
                words <= N,
                forall|k: int| words <= k < N ==> self.0@[k] == 0,
                limb_count(self.0@) == limb_count(self.0@.subrange(0, words as int)),
            decreases words,
        {
            proof {
                assert(self.0@.subrange(0, words as int).drop_last() =~= self.0@.subrange(
                    0,
                    words - 1,
                ));
            }
            words -= 1;
        }
        words
    }

    /// The least number of bits that can hold the value.
    pub fn bits(&self) -> (r: usize)
        requires
            width_ok(N),
        ensures
            r == bit_length(self@),
    {
        let w = self.num_words();
        proof {
            lemma_top_limb(self.0@, w as int);
        }
        if w == 0 {
            return 0;
        }
        let lz = self.0[w - 1].leading_zeros();
        proof {
            lemma_leading_zeros(self.0@[w - 1]);
            lemma_bit_length_bounds(self.0@[w - 1] as int);
        }
        64 * (w - 1) + (64 - lz as usize)
    }

    /// The limbs as a vector.
    pub(crate) fn limbs_vec(&self) -> (r: Vec<u64>)
        ensures
            r@ == self.0@,
    {
        let mut out: Vec<u64> = Vec::new();
        let mut i: usize = 0;
        while i < N
            invariant
                i <= N,
                out@ == self.0@.subrange(0, i as int),
            decreases N - i,
        {
            out.push(self.0[i]);
            i += 1;
            proof {
                assert(out@ =~= self.0@.subrange(0, i as int));
            }
        }
        proof {
            assert(out@ =~= self.0@);
        }
        out
    }

    /// The first `N` limbs of `v`.
    pub(crate) fn from_vec(v: &Vec<u64>) -> (r: Self)
        requires
            v.len() >= N,
        ensures
            r.0@ == v@.subrange(0, N as int),
    {
        let mut limbs = [0u64; N];
        let mut i: usize = 0;
        while i < N
            invariant
                i <= N <= v.len(),
                forall|k: int| 0 <= k < i ==> limbs@[k] == v@[k],
            decreases N - i,
        {
            limbs[i] = v[i];
            i += 1;
        }
        proof {
            assert(limbs@ =~= v@.subrange(0, N as int));
        }
        FixedWidthUint(limbs)
    }
}

} // verus!
