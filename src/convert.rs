//! Conversions to and from primitive integers, and single-bit and
//! single-byte access.
use vstd::prelude::*;
use vstd::arithmetic::power::{
    pow,
    lemma_pow_multiplies,
    lemma_pow_increases,
    lemma_pow0,
    lemma_pow_adds,
    lemma_pow1,
};
use vstd::arithmetic::power2::{pow2, lemma_pow2, lemma2_to64};
use vstd::arithmetic::div_mod::{lemma_mod_multiples_vanish, lemma_small_mod};
use crate::limbs::{
    limbs_val,
    limb_base,
    base_pow,
    lemma_val_first,
    lemma_val_short,
    lemma_val_zeros,
    lemma_val_split,
};
use crate::uint::{
    FixedWidthUint,
    width_ok,
    modulus,
    bit_length,
    lemma_bit_length_bounds,
    lemma_base_pow_pow2,
};

verus! {

/// The value modulo a divisor `m` of `2^64` is fixed by the lowest limb.
pub proof fn lemma_low_limb_mod(s: Seq<u64>, m: int, k: int)
    requires
        s.len() >= 1,
        m > 0,
        m * k == limb_base(),
    ensures
        limbs_val(s) % m == (s[0] as int) % m,
{
    lemma_val_first(s);
    let rest = limbs_val(s.subrange(1, s.len() as int));
    assert(limb_base() * rest == m * (k * rest)) by (nonlinear_arith)
        requires
            m * k == limb_base(),
    ;
    lemma_mod_multiples_vanish(k * rest, s[0] as int, m);
}

/// `2^(8 k) == 256^k`.
pub proof fn lemma_pow2_bytes(k: nat)
    ensures
        pow2(8 * k) == pow(256, k),
{
    lemma2_to64();
    lemma_pow2(8);
    lemma_pow2(8 * k);
    lemma_pow_multiplies(2, 8, k);
}

/// A value whose limbs below `i` are zero and whose limb `i` is
/// `x * 2^t` with `x` odd has exactly `64 i + t` trailing zero bits.
proof fn lemma_trailing_limb(s: Seq<u64>, i: int, x: int, t: nat)
    requires
        0 <= i < s.len(),
        forall|k: int| 0 <= k < i ==> s[k] == 0,
        s[i] == x * pow2(t),
        x > 0,
        x % 2 == 1,
        t < 64,
    ensures
        limbs_val(s) % (pow2((64 * i + t) as nat) as int) == 0,
        (limbs_val(s) / (pow2((64 * i + t) as nat) as int)) % 2 == 1,
{
    let e = (64 * i + t) as nat;
    lemma_val_split(s, i);
    lemma_val_zeros(s.subrange(0, i));
    let su = s.subrange(i, s.len() as int);
    lemma_val_first(su);
    let rest = limbs_val(su.subrange(1, su.len() as int));
    crate::limbs::lemma_val_bounds(su.subrange(1, su.len() as int));
    lemma_base_pow_pow2(i as nat);
    vstd::arithmetic::power2::lemma_pow2_adds((64 * i) as nat, t);
    vstd::arithmetic::power2::lemma_pow2_adds(t, (63 - t) as nat);
    vstd::arithmetic::power2::lemma_pow2_adds((63 - t) as nat, 1);
    vstd::arithmetic::power2::lemma2_to64();
    vstd::arithmetic::power2::lemma2_to64_rest();
    vstd::arithmetic::power2::lemma_pow2_pos(e);
    let c = pow2((63 - t) as nat) as int;
    let q = x + 2 * c * rest;
    assert(pow2(t) * (2 * c) == limb_base()) by (nonlinear_arith)
        requires
            pow2(t) * c == pow2(63),
            pow2(63) * 2 == limb_base(),
    ;
    assert(limbs_val(s) == pow2(e) * q) by (nonlinear_arith)
        requires
            limbs_val(s) == 0 + base_pow(i as nat) * (s[i] + limb_base() * rest),
            base_pow(i as nat) == pow2((64 * i) as nat),
            pow2(e) == pow2((64 * i) as nat) * pow2(t),
            s[i] == x * pow2(t),
            pow2(t) * (2 * c) == limb_base(),
            q == x + 2 * c * rest,
    ;
    assert(q >= 0) by (nonlinear_arith)
        requires
            q == x + 2 * c * rest,
            x >= 1,
            c >= 0,
            rest >= 0,
    ;
    assert(pow2(e) * q == q * pow2(e)) by (nonlinear_arith);
    vstd::arithmetic::div_mod::lemma_fundamental_div_mod_converse(limbs_val(s), pow2(e) as int, q, 0);
    assert(2 * c * rest == 2 * (c * rest)) by (nonlinear_arith);
    lemma_mod_multiples_vanish(c * rest, x, 2);
}

impl<const N: usize> FixedWidthUint<N> {
    /// The lowest 32 bits.
    pub fn low_u32(&self) -> (r: u32)
        requires
            N >= 1,
        ensures
            r == self@ % 0x1_0000_0000,
    {
        proof {
            lemma_low_limb_mod(self.0@, 0x1_0000_0000, 0x1_0000_0000);
        }
        (self.0[0] % 0x1_0000_0000) as u32
    }

    /// The lowest limb.
    pub fn low_u64(&self) -> (r: u64)
        requires
            N >= 1,
        ensures
            r == self@ % limb_base(),
    {
        proof {
            lemma_low_limb_mod(self.0@, limb_base(), 1);
            lemma_small_mod(self.0@[0] as nat, limb_base() as nat);
        }
        self.0[0]
    }

    /// The value as a `u64`; it must fit.
    pub fn as_u64(&self) -> (r: u64)
        requires
            N >= 1,
            self@ < limb_base(),
        ensures
            r == self@,
    {
        proof {
            self.lemma_range();
            lemma_low_limb_mod(self.0@, limb_base(), 1);
            lemma_small_mod(self@ as nat, limb_base() as nat);
            lemma_small_mod(self.0@[0] as nat, limb_base() as nat);
        }
        self.0[0]
    }

    /// The value as a `u32`; it must fit.
    pub fn as_u32(&self) -> (r: u32)
        requires
            N >= 1,
            self@ <= u32::MAX,
        ensures
            r == self@,
    {
        let x = self.as_u64();
        x as u32
    }

    /// The value as a `usize`; it must fit.
    pub fn as_usize(&self) -> (r: usize)
        requires
            N >= 1,
            self@ <= usize::MAX,
        ensures
            r == self@,
    {
        proof {
            assert(usize::MAX < limb_base());
        }
        let x = self.as_u64();
        x as usize
    }

    /// Whether bit `index` is set.
    pub fn bit(&self, index: usize) -> (r: bool)
        requires
            width_ok(N),
            index < 64 * N,
        ensures
            r == ((self@ / (pow2(index as nat) as int)) % 2 == 1),
    {
        let v = self.shr(index as u32);
        proof {
            lemma_low_limb_mod(v.0@, 2, 0x8000_0000_0000_0000);
        }
        v.0[0] % 2 == 1
    }

    /// Byte `index`, counting from the least significant.
    pub fn byte(&self, index: usize) -> (r: u8)
        requires
            width_ok(N),
            index < 8 * N,
        ensures
            r == (self@ / pow(256, index as nat)) % 256,
    {
        let v = self.shr((8 * index) as u32);
        proof {
            lemma_pow2_bytes(index as nat);
            lemma_low_limb_mod(v.0@, 256, 0x100_0000_0000_0000);
        }
        (v.0[0] % 256) as u8
    }

    /// Number of zero bits above the highest set bit.
    pub fn leading_zeros(&self) -> (r: u32)
        requires
            width_ok(N),
        ensures
            r == 64 * N - bit_length(self@),
    {
        let b = self.bits();
        proof {
            self.lemma_range();
            lemma_base_pow_pow2(N as nat);
            if self@ > 0 {
                lemma_bit_length_bounds(self@);
                if bit_length(self@) > 64 * N {
                    vstd::arithmetic::power2::lemma_pow2_strictly_increases(
                        (64 * N) as nat,
                        (bit_length(self@) - 1) as nat,
                    );
                }
            }
        }
        (64 * N - b) as u32
    }

    /// Number of zero bits below the lowest set bit; every bit for zero.
    pub fn trailing_zeros(&self) -> (r: u32)
        requires
            width_ok(N),
        ensures
            self@ == 0 ==> r == 64 * N,
            self@ != 0 ==> r < 64 * N && self@ % (pow2(r as nat) as int) == 0 && (self@ / (pow2(
                r as nat,
            ) as int)) % 2 == 1,
    {
        let mut r: u32 = 0;
        let mut i: usize = 0;
        while i < N
            invariant
                width_ok(N),
                i <= N,
                r == 64 * i,
                forall|k: int| 0 <= k < i ==> self.0@[k] == 0,
            decreases N - i,
        {
            let w = self.0[i];
            if w != 0 {
                let mut x: u64 = w;
                let mut t: u32 = 0;
                proof {
                    vstd::arithmetic::power2::lemma2_to64();
                }
                while x % 2 == 0
                    invariant
                        x > 0,
                        t < 64,
                        w == x * pow2(t as nat),
                        w < limb_base(),
                    decreases x,
                {
                    proof {
                        vstd::arithmetic::power2::lemma_pow2_adds(t as nat, 1);
                        vstd::arithmetic::power2::lemma2_to64();
                        assert(w == (x / 2) * pow2((t + 1) as nat)) by (nonlinear_arith)
                            requires
                                w == x * pow2(t as nat),
                                x % 2 == 0,
                                pow2((t + 1) as nat) == pow2(t as nat) * 2,
                        ;
                        if t + 1 >= 64 {
                            if t + 1 > 64 {
                                vstd::arithmetic::power2::lemma_pow2_strictly_increases(64, (t + 1) as nat);
                            }
                            assert(w >= pow2((t + 1) as nat)) by (nonlinear_arith)
                                requires
                                    w == (x / 2) * pow2((t + 1) as nat),
                                    x / 2 >= 1,
                            ;
                        }
                    }
                    x = x / 2;
                    t += 1;
                }
                proof {
                    lemma_trailing_limb(self.0@, i as int, x as int, t as nat);
                    if self@ == 0 {
                        crate::limbs::lemma_val_zero_limbs(self.0@);
                    }
                }
                return r + t;
            }
            r += 64;
            i += 1;
        }
        proof {
            lemma_val_zeros(self.0@);
        }
        r
    }

    /// `10^n`; it must fit.
    pub fn exp10(n: usize) -> (r: Self)
        requires
            width_ok(N),
            pow(10, n as nat) < modulus(N),
        ensures
            r@ == pow(10, n as nat),
    {
        let ten = Self::from_u64(10);
        let mut r = Self::one();
        let mut i: usize = 0;
        proof {
            lemma_pow0(10);
        }
        while i < n
            invariant
                width_ok(N),
                i <= n,
                ten@ == 10,
                r@ == pow(10, i as nat),
                pow(10, n as nat) < modulus(N),
            decreases n - i,
        {
            proof {
                lemma_pow_adds(10, i as nat, 1);
                lemma_pow1(10);
                lemma_pow_increases(10, (i + 1) as nat, n as nat);
            }
            r = r.mul(ten);
            i += 1;
        }
        r
    }

    /// The first `N` limbs of `value`, least significant first; missing limbs
    /// are zero.
    pub fn from_u64_slice(value: &[u64]) -> (r: Self)
        ensures
            forall|i: int| 0 <= i < N ==> r.0@[i] == if i < value@.len() {
                value@[i]
            } else {
                0
            },
    {
        let mut ret = [0u64; N];
        let iter_len = if value.len() < N {
            value.len()
        } else {
            N
        };
        let mut i: usize = 0;
        while i < iter_len
            invariant
                iter_len <= N,
                iter_len <= value@.len(),
                iter_len == N || iter_len == value@.len(),
                i <= iter_len,
                forall|k: int| 0 <= k < i ==> ret@[k] == value@[k],
                forall|k: int| iter_len <= k < N ==> ret@[k] == 0,
            decreases iter_len - i,
        {
            ret[i] = value[i];
            i += 1;
        }
        FixedWidthUint(ret)
    }

    /// A nonnegative `i64`.
    pub fn from_i64(value: i64) -> (r: Self)
        requires
            N >= 1,
            value >= 0,
        ensures
            r@ == value,
    {
        Self::from_u64(value as u64)
    }

    /// A `u128`, over the two lowest limbs.
    pub fn from_u128(value: u128) -> (r: Self)
        requires
            N >= 2,
        ensures
            r@ == value,
    {
        let mut ret = [0u64; N];
        ret[0] = (value % 0x1_0000_0000_0000_0000) as u64;
        ret[1] = (value / 0x1_0000_0000_0000_0000) as u64;
        let r = FixedWidthUint(ret);
        proof {
            lemma_val_split(r.0@, 2);
            lemma_val_zeros(r.0@.subrange(2, N as int));
            lemma_val_short(r.0@.subrange(0, 2));
        }
        r
    }

    /// The lowest 128 bits.
    pub fn low_u128(&self) -> (r: u128)
        requires
            N >= 2,
        ensures
            r == self@ % (limb_base() * limb_base()),
    {
        proof {
            let m: int = limb_base() * limb_base();
            lemma_val_split(self.0@, 2);
            lemma_val_short(self.0@.subrange(0, 2));
            let hi = limbs_val(self.0@.subrange(2, N as int));
            crate::limbs::lemma_base_pow_succ(1);
            crate::limbs::lemma_base_pow_succ(0);
            lemma_pow0(limb_base());
            assert(base_pow(2) == m);
            lemma_mod_multiples_vanish(hi, self.0@[0] + limb_base() * self.0@[1], m);
            lemma_small_mod((self.0@[0] + limb_base() * self.0@[1]) as nat, m as nat);
        }
        ((self.0[1] as u128) * 0x1_0000_0000_0000_0000) + self.0[0] as u128
    }

    /// The value as a `u128`; it must fit.
    pub fn as_u128(&self) -> (r: u128)
        requires
            N >= 2,
            self@ < (limb_base() * limb_base()),
        ensures
            r == self@,
    {
        proof {
            self.lemma_range();
            lemma_small_mod(self@ as nat, (limb_base() * limb_base()) as nat);
        }
        self.low_u128()
    }

    /// Negation: zero stays zero without overflow; any other value overflows
    /// and gives its complement.
    pub fn overflowing_neg(self) -> (r: (Self, bool))
        ensures
            self@ == 0 ==> r.0@ == 0 && !r.1,
            self@ != 0 ==> r.0@ == modulus(N) - 1 - self@ && r.1,
    {
        if self.is_zero() {
            (self, false)
        } else {
            (self.not(), true)
        }
    }

    /// Negation, defined only for zero.
    pub fn checked_neg(self) -> (r: Option<Self>)
        ensures
            r.is_some() <==> self@ == 0,
            r.is_some() ==> r.unwrap()@ == 0,
    {
        match self.overflowing_neg() {
            (_, true) => None,
            (zero, false) => Some(zero),
        }
    }
}

impl<const N: usize> Default for FixedWidthUint<N> {
    fn default() -> (r: Self)
        ensures
            r@ == 0,
    {
        Self::zero()
    }
}

impl<const N: usize> PartialEq for FixedWidthUint<N> {
    fn eq(&self, other: &Self) -> (r: bool) {
        matches!(self.compare(other), core::cmp::Ordering::Equal)
    }
}

impl<const N: usize> vstd::std_specs::cmp::PartialEqSpecImpl for FixedWidthUint<N> {
    open spec fn obeys_eq_spec() -> bool {
        true
    }

    open spec fn eq_spec(&self, other: &Self) -> bool {
        self@ == other@
    }
}

impl<const N: usize> PartialOrd for FixedWidthUint<N> {
    fn partial_cmp(&self, other: &Self) -> (r: Option<core::cmp::Ordering>) {
        Some(self.compare(other))
    }
}

impl<const N: usize> vstd::std_specs::cmp::PartialOrdSpecImpl for FixedWidthUint<N> {
    open spec fn obeys_partial_cmp_spec() -> bool {
        true
    }

    open spec fn partial_cmp_spec(&self, other: &Self) -> Option<core::cmp::Ordering> {
        if self@ < other@ {
            Some(core::cmp::Ordering::Less)
        } else if self@ == other@ {
            Some(core::cmp::Ordering::Equal)
        } else {
            Some(core::cmp::Ordering::Greater)
        }
    }
}

} // verus!
