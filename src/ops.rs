//! Multiplication, comparison, shifts and bitwise operations.
use vstd::prelude::*;
use vstd::arithmetic::div_mod::{
    lemma_fundamental_div_mod_converse, lemma_div_denominator, lemma_mod_multiples_vanish,
};
use vstd::arithmetic::power2::{pow2, lemma_pow2_adds, lemma2_to64, lemma_pow2_pos};
use crate::limbs::{
    limbs_val, limb_base, base_pow, mul_into, mul_limb, div_small, lemma_val_window,
    lemma_val_concat, lemma_base_pow_succ, lemma_val_short, lemma_val_bounds, lemma_val_split, lemma_val_zeros,
    lemma_val_zero_limbs, lemma_base_pow_adds, lemma_base_pow_positive,
};
use crate::uint::{
    FixedWidthUint, width_ok, modulus, limb_count, lemma_top_limb, lemma_base_pow_pow2,
};

verus! {

/// Whether some limb of `v` in `from .. to` is nonzero.
fn any_nonzero(v: &Vec<u64>, from: usize, to: usize) -> (r: bool)
    requires
        from <= to <= v.len(),
    ensures
        r == exists|k: int| from <= k < to && v@[k] != 0,
{
    let mut i: usize = from;
    while i < to
        invariant
            from <= i <= to <= v.len(),
            forall|k: int| from <= k < i ==> v@[k] == 0,
        decreases to - i,
    {
        if v[i] != 0 {
            return true;
        }
        i += 1;
    }
    false
}

impl<const N: usize> FixedWidthUint<N> {
    /// Product and whether it went past the largest value; the product wraps.
    pub fn overflowing_mul(self, other: Self) -> (r: (Self, bool))
        requires
            width_ok(N),
        ensures
            r.0@ == (self@ * other@) % modulus(N),
            r.1 == (self@ * other@ >= modulus(N)),
    {
        let me = self.limbs_vec();
        let you = other.limbs_vec();
        let result = mul_into(&me, N, &you, N, 2 * N);
        let low = Self::from_vec(&result);
        let overflow = any_nonzero(&result, N, 2 * N);
        proof {
            assert(me@.subrange(0, N as int) =~= self.0@);
            assert(you@.subrange(0, N as int) =~= other.0@);
            let hi = result@.subrange(N as int, 2 * N);
            lemma_val_split(result@, N as int);
            lemma_val_bounds(result@.subrange(0, N as int));
            lemma_val_bounds(hi);
            lemma_base_pow_positive(N as nat);
            assert(limbs_val(result@) == limbs_val(hi) * modulus(N) + limbs_val(
                result@.subrange(0, N as int),
            )) by (nonlinear_arith)
                requires
                    limbs_val(result@) == limbs_val(result@.subrange(0, N as int)) + base_pow(
                        N as nat,
                    ) * limbs_val(hi),
                    modulus(N) == base_pow(N as nat),
            ;
            lemma_fundamental_div_mod_converse(
                self@ * other@,
                modulus(N),
                limbs_val(hi),
                limbs_val(result@.subrange(0, N as int)),
            );
            if overflow {
                let k = choose|k: int| N <= k < 2 * N && result@[k] != 0;
                assert(hi[k - N] != 0);
                if limbs_val(hi) == 0 {
                    lemma_val_zero_limbs(hi);
                }
                assert(limbs_val(hi) * modulus(N) >= modulus(N)) by (nonlinear_arith)
                    requires
                        limbs_val(hi) >= 1,
                        modulus(N) > 0,
                ;
            } else {
                assert forall|i: int| 0 <= i < hi.len() implies hi[i] == 0 by {
                    assert(result@[N + i] == hi[i]);
                }
                lemma_val_zeros(hi);
                assert(limbs_val(hi) * modulus(N) == 0) by (nonlinear_arith)
                    requires
                        limbs_val(hi) == 0,
                ;
            }
        }
        (low, overflow)
    }

    /// Product, clamped at the largest value.
    pub fn saturating_mul(self, other: Self) -> (r: Self)
        requires
            width_ok(N),
        ensures
            r@ == if self@ * other@ >= modulus(N) {
                modulus(N) - 1
            } else {
                self@ * other@
            },
    {
        let (val, overflow) = self.overflowing_mul(other);
        if overflow {
            Self::max_value()
        } else {
            proof {
                lemma_product_nonneg(self, other);
                lemma_small_mod(self@ * other@, modulus(N));
            }
            val
        }
    }

    /// Product, or `None` when it does not fit.
    pub fn checked_mul(self, other: Self) -> (r: Option<Self>)
        requires
            width_ok(N),
        ensures
            r.is_some() <==> self@ * other@ < modulus(N),
            r.is_some() ==> r.unwrap()@ == self@ * other@,
    {
        let (val, overflow) = self.overflowing_mul(other);
        if overflow {
            None
        } else {
            proof {
                lemma_product_nonneg(self, other);
                lemma_small_mod(self@ * other@, modulus(N));
            }
            Some(val)
        }
    }

    /// Product; it must fit.
    pub fn mul(self, other: Self) -> (r: Self)
        requires
            width_ok(N),
            self@ * other@ < modulus(N),
        ensures
            r@ == self@ * other@,
    {
        let (val, _) = self.overflowing_mul(other);
        proof {
            lemma_product_nonneg(self, other);
            lemma_small_mod(self@ * other@, modulus(N));
        }
        val
    }

    /// Product with a single limb, and the limb that carries out of the top.
    pub fn overflowing_mul_u64(self, other: u64) -> (r: (Self, u64))
        ensures
            r.0@ + r.1 * modulus(N) == self@ * other,
    {
        let me = self.limbs_vec();
        let prod = mul_limb(&me, N, other);
        let low = Self::from_vec(&prod);
        proof {
            assert(me@.subrange(0, N as int) =~= self.0@);
            lemma_val_split(prod@, N as int);
            lemma_val_short(prod@.subrange(N as int, N + 1));
            assert(modulus(N) * prod@[N as int] == prod@[N as int] * modulus(N)) by (nonlinear_arith);
        }
        (low, prod[N])
    }

    /// Product with a single limb; it must fit.
    pub fn mul_u64(self, other: u64) -> (r: Self)
        requires
            self@ * other < modulus(N),
        ensures
            r@ == self@ * other,
    {
        let (low, carry) = self.overflowing_mul_u64(other);
        proof {
            low.lemma_range();
            lemma_base_pow_positive(N as nat);
            if carry > 0 {
                assert(carry * modulus(N) >= modulus(N)) by (nonlinear_arith)
                    requires
                        carry >= 1,
                        modulus(N) > 0,
                ;
            }
            assert(carry * modulus(N) == 0) by (nonlinear_arith)
                requires
                    carry == 0,
            ;
        }
        low
    }

    /// Product computed over the significant limbs only; the caller vouches
    /// that the two limb counts add up to at most `N`.
    pub fn adaptive_multiplication(self, other: Self) -> (r: Self)
        requires
            limb_count(self.0@) + limb_count(other.0@) <= N,
        ensures
            r@ == self@ * other@,
    {
        let me_words = self.num_words();
        let you_words = other.num_words();
        let me = self.limbs_vec();
        let you = other.limbs_vec();
        let result = mul_into(&me, me_words, &you, you_words, N);
        proof {
            lemma_top_limb(self.0@, me_words as int);
            lemma_top_limb(other.0@, you_words as int);
            assert(result@.subrange(0, N as int) =~= result@);
        }
        Self::from_vec(&result)
    }
}

/// Products of values are not negative.
pub proof fn lemma_product_nonneg<const N: usize>(a: FixedWidthUint<N>, b: FixedWidthUint<N>)
    ensures
        a@ * b@ >= 0,
{
    a.lemma_range();
    b.lemma_range();
    assert(a@ * b@ >= 0) by (nonlinear_arith)
        requires
            a@ >= 0,
            b@ >= 0,
    ;
}

/// A value in `[0, m)` is its own remainder.
pub proof fn lemma_small_mod(x: int, m: int)
    requires
        0 <= x < m,
    ensures
        x % m == x,
{
    lemma_fundamental_div_mod_converse(x, m, 0, x);
}

/// The first limb from the top where two sequences differ decides their order.
pub proof fn lemma_cmp_limbs(s: Seq<u64>, o: Seq<u64>, i: int)
    requires
        s.len() == o.len(),
        0 <= i < s.len(),
        s[i] < o[i],
        forall|k: int| i < k < s.len() ==> s[k] == o[k],
    ensures
        limbs_val(s) < limbs_val(o),
{
    let n = s.len() as int;
    lemma_val_window(s, i, 1);
    lemma_val_window(o, i, 1);
    assert(s.subrange(i + 1, n) =~= o.subrange(i + 1, n));
    lemma_val_short(s.subrange(i, i + 1));
    lemma_val_short(o.subrange(i, i + 1));
    lemma_val_bounds(s.subrange(0, i));
    lemma_val_bounds(o.subrange(0, i));
    let p = base_pow(i as nat);
    assert(p * s[i] + p <= p * o[i]) by (nonlinear_arith)
        requires
            s[i] + 1 <= o[i],
            p > 0,
    ;
}

/// `2^shift` splits into whole limbs and a shift below one limb.
pub proof fn lemma_shift_parts(shift: u32)
    ensures
        pow2(shift as nat) == base_pow((shift / 64) as nat) * pow2((shift % 64) as nat),
        0 < pow2((shift % 64) as nat) <= u64::MAX,
        (1u64 << (shift % 64) as u64) == pow2((shift % 64) as nat),
{
    let w = (shift / 64) as nat;
    let b = (shift % 64) as nat;
    lemma_base_pow_pow2(w);
    lemma_pow2_adds(64 * w, b);
    lemma2_to64();
    vstd::arithmetic::power2::lemma2_to64_rest();
    vstd::arithmetic::power2::lemma_pow2_strictly_increases(b, 64);
    lemma_pow2_pos(b);
    vstd::bits::lemma_u64_shl_is_mul(1, (shift % 64) as u64);
}

/// Each limb of `r` is the complement of the same limb of `s`.
proof fn lemma_complement(r: Seq<u64>, s: Seq<u64>)
    requires
        r.len() == s.len(),
        forall|i: int| 0 <= i < s.len() ==> r[i] + s[i] == u64::MAX,
    ensures
        limbs_val(r) + limbs_val(s) == base_pow(s.len()) - 1,
    decreases s.len(),
{
    vstd::arithmetic::power::lemma_pow0(limb_base());
    if s.len() > 0 {
        let k = (s.len() - 1) as nat;
        lemma_complement(r.drop_last(), s.drop_last());
        lemma_base_pow_succ(k);
        assert(r.last() * base_pow(k) + s.last() * base_pow(k) == (r.last() + s.last()) * base_pow(
            k,
        )) by (nonlinear_arith);
    }
}

impl<const N: usize> FixedWidthUint<N> {
    /// Orders by value, comparing from the most significant limb down.
    pub fn compare(&self, other: &Self) -> (r: core::cmp::Ordering)
        ensures
            (r == core::cmp::Ordering::Less) == (self@ < other@),
            (r == core::cmp::Ordering::Equal) == (self@ == other@),
            (r == core::cmp::Ordering::Greater) == (self@ > other@),
    {
        let mut i: usize = N;
        while i > 0
            invariant
                i <= N,
                forall|k: int| i <= k < N ==> self.0@[k] == other.0@[k],
            decreases i,
        {
            i -= 1;
            if self.0[i] < other.0[i] {
                proof {
                    lemma_cmp_limbs(self.0@, other.0@, i as int);
                }
                return core::cmp::Ordering::Less;
            }
            if self.0[i] > other.0[i] {
                proof {
                    lemma_cmp_limbs(other.0@, self.0@, i as int);
                }
                return core::cmp::Ordering::Greater;
            }
        }
        proof {
            assert(self.0@ =~= other.0@);
        }
        core::cmp::Ordering::Equal
    }

    /// Shifts right by `shift` bits; at least the full width gives zero.
    pub fn shr(self, shift: u32) -> (r: Self)
        requires
            width_ok(N),
        ensures
            r@ == self@ / (pow2(shift as nat) as int),
    {
        let word_shift = (shift / 64) as usize;
        let bit_shift = shift % 64;
        proof {
            lemma_shift_parts(shift);
            self.lemma_range();
            lemma_base_pow_positive(word_shift as nat);
        }
        if word_shift >= N {
            proof {
                crate::limbs::lemma_base_pow_le(N as nat, word_shift as nat);
                assert(base_pow(word_shift as nat) <= pow2(shift as nat)) by (nonlinear_arith)
                    requires
                        pow2(shift as nat) == base_pow(word_shift as nat) * pow2(
                            (shift % 64) as nat,
                        ),
                        pow2((shift % 64) as nat) >= 1,
                        base_pow(word_shift as nat) > 0,
                ;
                lemma_fundamental_div_mod_converse(self@, pow2(shift as nat) as int, 0, self@);
            }
            return Self::zero();
        }
        let mut x: Vec<u64> = Vec::new();
        let mut i: usize = word_shift;
        while i < N
            invariant
                word_shift <= i <= N,
                x@ == self.0@.subrange(word_shift as int, i as int),
            decreases N - i,
        {
            x.push(self.0[i]);
            i += 1;
            proof {
                assert(x@ =~= self.0@.subrange(word_shift as int, i as int));
            }
        }
        let (y, _) = div_small(&x, 1u64 << (bit_shift as u64));
        let mut ret = [0u64; N];
        let mut k: usize = 0;
        let len = N - word_shift;
        while k < len
            invariant
                k <= len == y.len() == N - word_shift,
                forall|t: int| 0 <= t < k ==> ret@[t] == y@[t],
                forall|t: int| len <= t < N ==> ret@[t] == 0,
            decreases len - k,
        {
            ret[k] = y[k];
            k += 1;
        }
        let r = FixedWidthUint(ret);
        proof {
            let p = pow2((shift % 64) as nat) as int;
            let pw = base_pow(word_shift as nat);
            lemma_val_split(self.0@, word_shift as int);
            lemma_val_bounds(self.0@.subrange(0, word_shift as int));
            lemma_val_bounds(x@);
            assert(x@ == self.0@.subrange(word_shift as int, N as int));
            assert(pw * limbs_val(x@) == limbs_val(x@) * pw) by (nonlinear_arith);
            lemma_fundamental_div_mod_converse(
                self@,
                pw,
                limbs_val(x@),
                limbs_val(self.0@.subrange(0, word_shift as int)),
            );
            lemma_val_bounds(y@);
            lemma_fundamental_div_mod_converse(limbs_val(x@), p, limbs_val(y@), limbs_val(x@) - limbs_val(y@) * p);
            lemma_div_denominator(self@, pw, p);
            lemma_val_split(ret@, len as int);
            assert(ret@.subrange(0, len as int) =~= y@);
            lemma_val_zeros(ret@.subrange(len as int, N as int));
        }
        r
    }

    /// Shifts left by `shift` bits, dropping what passes the top; at least the
    /// full width gives zero.
    pub fn shl(self, shift: u32) -> (r: Self)
        requires
            width_ok(N),
        ensures
            r@ == (self@ * (pow2(shift as nat) as int)) % modulus(N),
    {
        let word_shift = (shift / 64) as usize;
        let bit_shift = shift % 64;
        proof {
            lemma_shift_parts(shift);
            self.lemma_range();
            lemma_base_pow_positive(word_shift as nat);
            lemma_base_pow_positive(N as nat);
        }
        if word_shift >= N {
            proof {
                lemma_base_pow_adds(N as nat, (word_shift - N) as nat);
                let k = base_pow((word_shift - N) as nat) * pow2((shift % 64) as nat) * self@;
                assert(self@ * pow2(shift as nat) == modulus(N) * k + 0) by (nonlinear_arith)
                    requires
                        pow2(shift as nat) == base_pow(word_shift as nat) * pow2(
                            (shift % 64) as nat,
                        ),
                        base_pow(word_shift as nat) == base_pow(N as nat) * base_pow(
                            (word_shift - N) as nat,
                        ),
                        modulus(N) == base_pow(N as nat),
                        k == base_pow((word_shift - N) as nat) * pow2((shift % 64) as nat) * self@,
                ;
                lemma_mod_multiples_vanish(k, 0, modulus(N));
                vstd::arithmetic::div_mod::lemma_small_mod(0, modulus(N) as nat);
            }
            return Self::zero();
        }
        let len = N - word_shift;
        let mut x: Vec<u64> = Vec::new();
        let mut i: usize = 0;
        while i < word_shift
            invariant
                i <= word_shift,
                x.len() == i,
                forall|t: int| 0 <= t < i ==> x@[t] == 0,
            decreases word_shift - i,
        {
            x.push(0);
            i += 1;
        }
        let ghost zeros = x@;
        let mut k: usize = 0;
        while k < len
            invariant
                k <= len == N - word_shift,
                x@ == zeros + self.0@.subrange(0, k as int),
            decreases len - k,
        {
            x.push(self.0[k]);
            k += 1;
            proof {
                assert(x@ =~= zeros + self.0@.subrange(0, k as int));
            }
        }
        let y = mul_limb(&x, N, 1u64 << (bit_shift as u64));
        let r = Self::from_vec(&y);
        proof {
            let p = pow2((shift % 64) as nat) as int;
            let pw = base_pow(word_shift as nat);
            let lo = limbs_val(self.0@.subrange(0, len as int));
            let hi = limbs_val(self.0@.subrange(len as int, N as int));
            lemma_val_zeros(zeros);
            lemma_val_concat(zeros, self.0@.subrange(0, len as int));
            assert(x@.subrange(0, N as int) =~= x@);
            lemma_val_split(self.0@, len as int);
            lemma_base_pow_adds(len as nat, word_shift as nat);
            lemma_val_split(y@, N as int);
            lemma_val_short(y@.subrange(N as int, N + 1));
            lemma_val_bounds(y@.subrange(0, N as int));
            let top = y@[N as int] as int;
            assert(self@ * pow2(shift as nat) == modulus(N) * (hi * p) + (limbs_val(
                y@.subrange(0, N as int),
            ) + modulus(N) * top)) by (nonlinear_arith)
                requires
                    self@ == lo + base_pow(len as nat) * hi,
                    pow2(shift as nat) == pw * p,
                    limbs_val(x@) == 0 + pw * lo,
                    limbs_val(y@) == limbs_val(x@) * p,
                    limbs_val(y@) == limbs_val(y@.subrange(0, N as int)) + base_pow(N as nat)
                        * top,
                    modulus(N) == base_pow(N as nat),
                    base_pow(N as nat) == base_pow(len as nat) * pw,
            ;
            lemma_mod_multiples_vanish(hi * p, limbs_val(y@.subrange(0, N as int)) + modulus(N) * top, modulus(N));
            lemma_mod_multiples_vanish(top, limbs_val(y@.subrange(0, N as int)), modulus(N));
            vstd::arithmetic::div_mod::lemma_small_mod(limbs_val(y@.subrange(0, N as int)) as nat, modulus(N) as nat);
            assert(modulus(N) * top + limbs_val(y@.subrange(0, N as int)) == limbs_val(y@.subrange(0, N as int)) + modulus(N) * top);
        }
        r
    }

    /// Limb-wise AND.
    pub fn bitand(self, other: Self) -> (r: Self)
        ensures
            forall|i: int| 0 <= i < N ==> r.0@[i] == self.0@[i] & other.0@[i],
    {
        let mut ret = [0u64; N];
        let mut i: usize = 0;
        while i < N
            invariant
                i <= N,
                forall|k: int| 0 <= k < i ==> ret@[k] == self.0@[k] & other.0@[k],
            decreases N - i,
        {
            ret[i] = self.0[i] & other.0[i];
            i += 1;
        }
        FixedWidthUint(ret)
    }

    /// Limb-wise OR.
    pub fn bitor(self, other: Self) -> (r: Self)
        ensures
            forall|i: int| 0 <= i < N ==> r.0@[i] == self.0@[i] | other.0@[i],
    {
        let mut ret = [0u64; N];
        let mut i: usize = 0;
        while i < N
            invariant
                i <= N,
                forall|k: int| 0 <= k < i ==> ret@[k] == self.0@[k] | other.0@[k],
            decreases N - i,
        {
            ret[i] = self.0[i] | other.0[i];
            i += 1;
        }
        FixedWidthUint(ret)
    }

    /// Limb-wise exclusive OR.
    pub fn bitxor(self, other: Self) -> (r: Self)
        ensures
            forall|i: int| 0 <= i < N ==> r.0@[i] == self.0@[i] ^ other.0@[i],
    {
        let mut ret = [0u64; N];
        let mut i: usize = 0;
        while i < N
            invariant
                i <= N,
                forall|k: int| 0 <= k < i ==> ret@[k] == self.0@[k] ^ other.0@[k],
            decreases N - i,
        {
            ret[i] = self.0[i] ^ other.0[i];
            i += 1;
        }
        FixedWidthUint(ret)
    }

    /// Limb-wise complement: the largest value minus this one.
    pub fn not(self) -> (r: Self)
        ensures
            forall|i: int| 0 <= i < N ==> r.0@[i] == !self.0@[i],
            r@ == modulus(N) - 1 - self@,
    {
        let mut ret = [0u64; N];
        let mut i: usize = 0;
        while i < N
            invariant
                i <= N,
                forall|k: int| 0 <= k < i ==> ret@[k] == !self.0@[k],
                forall|k: int| 0 <= k < i ==> ret@[k] + self.0@[k] == u64::MAX,
            decreases N - i,
        {
            let x = self.0[i];
            ret[i] = !x;
            proof {
                assert(!x + x == 0xFFFF_FFFF_FFFF_FFFFu64) by (bit_vector);
            }
            i += 1;
        }
        proof {
            lemma_complement(ret@, self.0@);
        }
        FixedWidthUint(ret)
    }
}

} // verus!
