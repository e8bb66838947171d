//! Exponentiation by repeated squaring.
use vstd::prelude::*;
use vstd::arithmetic::power::{
    pow,
    lemma_pow0,
    lemma_pow1,
    lemma_pow_adds,
    lemma_pow_multiplies,
    lemma_square_is_pow2,
    lemma_pow_mod_noop,
    lemma_pow_increases,
    lemma_pow_positive,
};
use vstd::arithmetic::div_mod::{lemma_mul_mod_noop_left, lemma_mod_multiples_vanish};
use crate::limbs::{limbs_val, limb_base};
use crate::uint::{FixedWidthUint, width_ok, modulus};
use crate::ops::{lemma_small_mod, lemma_product_nonneg};

verus! {

/// Squaring the base halves an even exponent.
proof fn lemma_pow_even(x: int, n: nat)
    requires
        n % 2 == 0,
    ensures
        pow(x * x, n / 2) == pow(x, n),
{
    lemma_square_is_pow2(x);
    lemma_pow_multiplies(x, 2, n / 2);
}

/// Squaring the base halves an odd exponent, with one factor set aside.
proof fn lemma_pow_odd(x: int, n: nat)
    requires
        n % 2 == 1,
    ensures
        pow(x * x, ((n - 1) / 2) as nat) * x == pow(x, n),
{
    lemma_pow_even(x, (n - 1) as nat);
    lemma_pow1(x);
    lemma_pow_adds(x, (n - 1) as nat, 1);
}

/// The even step keeps the residue of `x^n * y`.
proof fn lemma_step_even_mod(x: int, n: nat, y: int, m: int)
    requires
        n % 2 == 0,
        m > 0,
    ensures
        (pow((x * x) % m, n / 2) * y) % m == (pow(x, n) * y) % m,
{
    lemma_pow_even(x, n);
    lemma_pow_mod_noop(x * x, n / 2, m);
    lemma_mul_mod_noop_left(pow((x * x) % m, n / 2), y, m);
    lemma_mul_mod_noop_left(pow(x * x, n / 2), y, m);
}

/// The odd step keeps the residue of `x^n * y`.
proof fn lemma_step_odd_mod(x: int, n: nat, y: int, m: int)
    requires
        n % 2 == 1,
        m > 0,
    ensures
        (pow((x * x) % m, ((n - 1) / 2) as nat) * ((x * y) % m)) % m == (pow(x, n) * y) % m,
{
    let k = ((n - 1) / 2) as nat;
    let xs = (x * x) % m;
    let ys = (x * y) % m;
    lemma_pow_odd(x, n);
    lemma_pow_mod_noop(x * x, k, m);
    lemma_mul_mod_noop_left(pow(xs, k), ys, m);
    lemma_mul_mod_noop_left(pow(x * x, k), ys, m);
    vstd::arithmetic::div_mod::lemma_mul_mod_noop_right(pow(x * x, k), x * y, m);
    assert(pow(x * x, k) * (x * y) == pow(x, n) * y) by (nonlinear_arith)
        requires
            pow(x * x, k) * x == pow(x, n),
    ;
}

/// A power with exponent at least `k` of a positive base is at least its `k`-th power.
proof fn lemma_pow_at_least(x: int, n: nat, k: nat)
    requires
        x >= 1,
        k <= n,
    ensures
        pow(x, n) >= pow(x, k),
{
    lemma_pow_increases(x as nat, k, n);
}

impl<const N: usize> FixedWidthUint<N> {
    /// Whether the value is even.
    fn is_even(&self) -> (r: bool)
        requires
            N >= 1,
        ensures
            r == (self@ % 2 == 0),
    {
        proof {
            crate::limbs::lemma_val_first(self.0@);
            let rest = limbs_val(self.0@.subrange(1, N as int));
            assert(limb_base() * rest == 2 * (0x8000_0000_0000_0000 * rest));
            lemma_mod_multiples_vanish(0x8000_0000_0000_0000 * rest, self.0@[0] as int, 2);
        }
        self.0[0] % 2 == 0
    }

    /// `self` to the power `expon`, and whether any multiplication overflowed;
    /// the result wraps.
    pub fn overflowing_pow(self, expon: Self) -> (r: (Self, bool))
        requires
            width_ok(N),
        ensures
            r.0@ == pow(self@, expon@ as nat) % modulus(N),
            r.1 == (pow(self@, expon@ as nat) >= modulus(N)),
    {
        let ghost a = self@;
        let ghost e = expon@ as nat;
        let ghost m = modulus(N);
        proof {
            self.lemma_range();
            expon.lemma_range();
            crate::limbs::lemma_base_pow_positive(N as nat);
            crate::limbs::lemma_base_pow_le(1, N as nat);
            crate::limbs::lemma_base_pow_succ(0);
            lemma_pow0(limb_base());
        }
        if expon.is_zero() {
            proof {
                lemma_pow0(a);
                lemma_small_mod(1, m);
            }
            return (Self::one(), false);
        }
        let u_one = Self::one();
        let mut y = u_one;
        let mut n = expon;
        let mut x = self;
        let mut overflow = false;
        proof {
            lemma_pow1(1);
            lemma_pow_increases(1, 0, e);
            lemma_pow0(1);
        }
        while matches!(n.compare(&u_one), core::cmp::Ordering::Greater)
            invariant
                width_ok(N),
                m == modulus(N),
                m > 1,
                u_one@ == 1,
                n@ >= 1,
                0 <= x@ < m,
                0 <= y@ < m,
                (pow(x@, n@ as nat) * y@) % m == pow(a, e) % m,
                !overflow ==> pow(x@, n@ as nat) * y@ == pow(a, e),
                !overflow ==> (x@ == 0 || y@ >= 1),
                overflow ==> pow(a, e) >= m,
            decreases n@,
        {
            let ghost xo = x@;
            let ghost yo = y@;
            let ghost no = n@ as nat;
            proof {
                x.lemma_range();
                y.lemma_range();
                lemma_product_nonneg(x, x);
                lemma_product_nonneg(x, y);
                if xo >= 1 {
                    lemma_pow_positive(xo, no);
                }
            }
            if n.is_even() {
                let (sq, o) = x.overflowing_mul(x);
                proof {
                    lemma_step_even_mod(xo, no, yo, m);
                    if !overflow && !o {
                        lemma_small_mod(xo * xo, m);
                        lemma_pow_even(xo, no);
                    }
                    if !overflow && o {
                        assert(xo >= 1) by (nonlinear_arith)
                            requires
                                xo >= 0,
                                xo * xo >= m,
                                m > 1,
                        ;
                        lemma_square_is_pow2(xo);
                        lemma_pow_at_least(xo, no, 2);
                        assert(pow(xo, no) * yo >= pow(xo, no)) by (nonlinear_arith)
                            requires
                                yo >= 1,
                                pow(xo, no) >= 0,
                        ;
                    }
                    if !overflow && !o && xo != 0 {
                        assert(xo * xo >= 1) by (nonlinear_arith)
                            requires
                                xo >= 1,
                        ;
                    }
                    if xo == 0 {
                        assert(xo * xo == 0) by (nonlinear_arith)
                            requires
                                xo == 0,
                        ;
                        lemma_small_mod(0, m);
                    }
                }
                x = sq;
                overflow = overflow || o;
                n = n.shr(1);
            } else {
                let (prod, o1) = x.overflowing_mul(y);
                let (sq, o2) = x.overflowing_mul(x);
                proof {
                    lemma_step_odd_mod(xo, no, yo, m);
                    if !overflow && !o1 && !o2 {
                        lemma_small_mod(xo * xo, m);
                        lemma_small_mod(xo * yo, m);
                        lemma_pow_odd(xo, no);
                        assert(pow(xo * xo, ((no - 1) / 2) as nat) * (xo * yo) == pow(xo, no)
                            * yo) by (nonlinear_arith)
                            requires
                                pow(xo * xo, ((no - 1) / 2) as nat) * xo == pow(xo, no),
                        ;
                    }
                    if !overflow && (o1 || o2) {
                        assert(xo >= 1) by (nonlinear_arith)
                            requires
                                xo >= 0,
                                yo >= 0,
                                xo * yo >= m || xo * xo >= m,
                                m > 1,
                        ;
                        lemma_square_is_pow2(xo);
                        lemma_pow1(xo);
                        lemma_pow_at_least(xo, no, 1);
                        if o2 {
                            lemma_pow_at_least(xo, no, 2);
                        }
                        assert(pow(xo, no) * yo >= xo * yo) by (nonlinear_arith)
                            requires
                                pow(xo, no) >= xo,
                                yo >= 0,
                        ;
                        assert(pow(xo, no) * yo >= pow(xo, no)) by (nonlinear_arith)
                            requires
                                yo >= 1,
                                pow(xo, no) >= 0,
                        ;
                    }
                    if !overflow && !o1 && !o2 && xo != 0 {
                        assert(xo * xo >= 1 && xo * yo >= 1) by (nonlinear_arith)
                            requires
                                xo >= 1,
                                yo >= 1,
                        ;
                    }
                    if xo == 0 {
                        assert(xo * xo == 0) by (nonlinear_arith)
                            requires
                                xo == 0,
                        ;
                        lemma_small_mod(0, m);
                    }
                }
                y = prod;
                x = sq;
                overflow = overflow || o1 || o2;
                let (dec, _) = n.overflowing_sub(u_one);
                proof {
                    n.lemma_range();
                    lemma_small_mod(no - 1, m);
                }
                n = dec.shr(1);
            }
            proof {
                vstd::arithmetic::power2::lemma2_to64();
            }
        }
        let (res, o) = x.overflowing_mul(y);
        proof {
            lemma_pow1(x@);
            lemma_product_nonneg(x, y);
            if !overflow && !o {
                lemma_small_mod(x@ * y@, m);
            }
        }
        (res, overflow || o)
    }

    /// `self` to the power `expon`; the result must fit.
    pub fn pow(self, expon: Self) -> (r: Self)
        requires
            width_ok(N),
            pow(self@, expon@ as nat) < modulus(N),
        ensures
            r@ == pow(self@, expon@ as nat),
    {
        let (r, _) = self.overflowing_pow(expon);
        proof {
            if self@ > 0 {
                lemma_pow_positive(self@, expon@ as nat);
            } else {
                self.lemma_range();
                expon.lemma_range();
                if expon@ == 0 {
                    lemma_pow0(self@);
                } else {
                    vstd::arithmetic::power::lemma0_pow((expon@ as nat));
                }
            }
            lemma_small_mod(pow(self@, expon@ as nat), modulus(N));
        }
        r
    }
}

} // verus!
