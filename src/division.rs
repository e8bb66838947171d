//! Division: by one limb, and Knuth's long division for wider divisors.
use vstd::prelude::*;
use vstd::arithmetic::power2::{pow2, lemma_pow2_adds, lemma2_to64, lemma_pow2_pos};
use vstd::arithmetic::power::lemma_pow0;
use vstd::arithmetic::div_mod::{
    lemma_fundamental_div_mod,
    lemma_fundamental_div_mod_converse,
    lemma_mod_bound,
};
use crate::limbs::{
    limbs_val,
    limb_base,
    base_pow,
    WORD,
    div_mod_word,
    mul_limb,
    div_small,
    sub_at,
    add_at,
    lemma_val_bounds,
    lemma_val_window,
    lemma_val_top_zero,
    lemma_val_top2,
    lemma_val_top3,
    lemma_val_update,
    lemma_base_pow_positive,
    lemma_base_pow_succ,
    lemma_base_pow_adds,
    lemma_val_zeros,
};
use crate::uint::{
    FixedWidthUint,
    width_ok,
    bit_length,
    lemma_top_limb,
    lemma_leading_zeros,
    lemma_bit_length_bounds,
    lemma_wrap,
};

verus! {

/// The quotient of the three limbs `u0, u1, u2` (most significant first) by
/// the two limbs `v1, v2`.
pub open spec fn top_digit(u0: int, u1: int, u2: int, v1: int, v2: int) -> int {
    (u2 + limb_base() * (u1 + limb_base() * u0)) / (limb_base() * v1 + v2)
}

/// The first trial digit `(u0:u1) / v1` is at least the top digit.
proof fn lemma_estimate_first(u0: int, u1: int, u2: int, v1: int, v2: int, q0: int, r0: int)
    requires
        0 <= u0,
        0 <= u1,
        v1 > 0,
        0 <= v2 < limb_base(),
        0 <= u2 < limb_base(),
        q0 * v1 + r0 == u0 * limb_base() + u1,
        0 <= r0 < v1,
    ensures
        q0 >= top_digit(u0, u1, u2, v1, v2),
{
    let t2 = u1 + limb_base() * u0;
    let b = limb_base();
    let d = b * v1 + v2;
    let t3 = u2 + b * t2;
    let e = t3 / d;
    assert(d > 0) by (nonlinear_arith)
        requires
            v1 > 0,
            v2 >= 0,
            b > 0,
            d == b * v1 + v2,
    ;
    lemma_fundamental_div_mod(t3, d);
    lemma_mod_bound(t3, d);
    assert(e * d <= t3);
    assert(e >= 0) by {
        vstd::arithmetic::div_mod::lemma_div_pos_is_pos(t3, d);
    }
    assert(e * b * v1 <= e * d) by (nonlinear_arith)
        requires
            e >= 0,
            d == b * v1 + v2,
            v2 >= 0,
    ;
    assert(e * v1 < t2 + 1) by (nonlinear_arith)
        requires
            e * b * v1 <= t3,
            t3 == u2 + b * t2,
            u2 < b,
            b > 0,
    ;
    assert(e < q0 + 1) by (nonlinear_arith)
        requires
            e * v1 <= t2,
            q0 * v1 + r0 == t2,
            r0 < v1,
            v1 > 0,
    ;
}

/// A trial digit that fails the second-limb test is above the top digit.
proof fn lemma_estimate_refine(u0: int, u1: int, u2: int, v1: int, v2: int, q: int, r: int)
    requires
        v1 > 0,
        0 <= v2 < limb_base(),
        0 <= u2 < limb_base(),
        q >= 0,
        q * v1 + r == u0 * limb_base() + u1,
        q * v2 > r * limb_base() + u2,
    ensures
        q > top_digit(u0, u1, u2, v1, v2),
{
    let t2 = u1 + limb_base() * u0;
    let b = limb_base();
    let d = b * v1 + v2;
    let t3 = u2 + b * t2;
    let e = t3 / d;
    assert(d > 0) by (nonlinear_arith)
        requires
            v1 > 0,
            v2 >= 0,
            b > 0,
            d == b * v1 + v2,
    ;
    lemma_fundamental_div_mod(t3, d);
    lemma_mod_bound(t3, d);
    assert(q * d > t3) by (nonlinear_arith)
        requires
            d == b * v1 + v2,
            t3 == u2 + b * t2,
            q * v1 + r == t2,
            q * v2 > r * b + u2,
    ;
    assert(e < q) by (nonlinear_arith)
        requires
            e * d <= t3,
            q * d > t3,
            d > 0,
    ;
}

/// Trial quotient digit for the top limbs `u0, u1, u2` of the running
/// remainder and the top limbs `v1, v2` of the normalized divisor: at least
/// the true digit.
fn estimate_digit(u0: u64, u1: u64, u2: u64, v1: u64, v2: u64) -> (q: u64)
    requires
        v1 > 0,
    ensures
        q == u64::MAX || q >= top_digit(u0 as int, u1 as int, u2 as int, v1 as int, v2 as int),
{
    if u0 < v1 {
        let (q0, r0) = div_mod_word(u0, u1, v1);
        let ghost t2 = u0 * limb_base() + u1;
        let ghost bound = top_digit(u0 as int, u1 as int, u2 as int, v1 as int, v2 as int);
        proof {
            lemma_estimate_first(
                u0 as int,
                u1 as int,
                u2 as int,
                v1 as int,
                v2 as int,
                q0 as int,
                r0 as int,
            );
        }
        let mut q_hat = q0;
        let mut r_hat = r0;
        loop
            invariant_except_break
                t2 == u0 * limb_base() + u1,
                bound == top_digit(u0 as int, u1 as int, u2 as int, v1 as int, v2 as int),
                q_hat * v1 + r_hat == t2,
                v1 > 0,
                q_hat >= bound,
            ensures
                q_hat >= bound,
            decreases q_hat,
        {
            proof {
                assert(q_hat * v2 <= 0xFFFF_FFFF_FFFF_FFFF * 0xFFFF_FFFF_FFFF_FFFFint)
                    by (nonlinear_arith)
                    requires
                        q_hat <= 0xFFFF_FFFF_FFFF_FFFFint,
                        v2 <= 0xFFFF_FFFF_FFFF_FFFFint,
                ;
            }
            if (q_hat as u128) * (v2 as u128) <= (r_hat as u128) * WORD + (u2 as u128) {
                break;
            }
            proof {
                assert(q_hat * v2 > r_hat * limb_base() + u2);
                lemma_estimate_refine(
                    u0 as int,
                    u1 as int,
                    u2 as int,
                    v1 as int,
                    v2 as int,
                    q_hat as int,
                    r_hat as int,
                );
                assert(q_hat > bound);
                assert((q_hat - 1) * v1 + (r_hat + v1) == q_hat * v1 + r_hat) by (nonlinear_arith);
            }
            q_hat -= 1;
            if r_hat > u64::MAX - v1 {
                break;
            }
            r_hat += v1;
        }
        q_hat
    } else {
        u64::MAX
    }
}

/// Normalizing shift: `2^s * top` has its highest bit set.
pub proof fn lemma_normalize(top: u64, s: int)
    requires
        top != 0,
        s == vstd::std_specs::bits::u64_leading_zeros(top),
    ensures
        0 <= s < 64,
        top * pow2(s as nat) < limb_base(),
        (top + 1) * pow2(s as nat) <= limb_base(),
        top * pow2(s as nat) >= pow2(63),
        pow2(s as nat) <= pow2(63),
{
    lemma_leading_zeros(top);
    lemma_bit_length_bounds(top as int);
    let b = bit_length(top as int);
    lemma2_to64();
    if b > 64 {
        vstd::arithmetic::power2::lemma_pow2_strictly_increases(64, (b - 1) as nat);
    }
    lemma_pow2_adds(s as nat, b);
    lemma_pow2_adds(s as nat, (b - 1) as nat);
    lemma_pow2_pos(s as nat);
    assert(s + b == 64);
    assert(pow2(b) * pow2(s as nat) == pow2(64)) by (nonlinear_arith)
        requires
            pow2(s as nat) * pow2(b) == pow2((s + b) as nat),
            s + b == 64,
    ;
    assert(pow2((b - 1) as nat) * pow2(s as nat) == pow2(63)) by (nonlinear_arith)
        requires
            pow2(s as nat) * pow2((b - 1) as nat) == pow2((s + b - 1) as nat),
            s + b == 64,
    ;
    assert(top * pow2(s as nat) < pow2(b) * pow2(s as nat)) by (nonlinear_arith)
        requires
            top < pow2(b),
            pow2(s as nat) > 0,
    ;
    assert(top * pow2(s as nat) >= pow2((b - 1) as nat) * pow2(s as nat)) by (nonlinear_arith)
        requires
            top >= pow2((b - 1) as nat),
            pow2(s as nat) > 0,
    ;
    assert((top + 1) * pow2(s as nat) <= pow2(b) * pow2(s as nat)) by (nonlinear_arith)
        requires
            top + 1 <= pow2(b),
            pow2(s as nat) > 0,
    ;
    if s < 63 {
        vstd::arithmetic::power2::lemma_pow2_strictly_increases(s as nat, 63);
    }
}

/// The window of `n + 1` limbs at `j` holds all of a remainder below
/// `v * (2^64)^(j+1)`, and is itself below `v * 2^64`.
proof fn lemma_window_facts(x: int, l: int, w: int, h: int, pj: int, pjn1: int, v: int)
    requires
        x == l + pj * w + pjn1 * h,
        l >= 0,
        w >= 0,
        h >= 0,
        pj > 0,
        pjn1 > 0,
        x < v * limb_base() * pj,
        v * limb_base() * pj <= pjn1,
    ensures
        h == 0,
        w < v * limb_base(),
{
    if h > 0 {
        assert(pjn1 * h >= pjn1) by (nonlinear_arith)
            requires
                h >= 1,
                pjn1 > 0,
        ;
    }
    assert(pj * w < pj * (v * limb_base())) by (nonlinear_arith)
        requires
            pj * w <= x,
            x < v * limb_base() * pj,
    ;
    assert(w < v * limb_base()) by (nonlinear_arith)
        requires
            pj * w < pj * (v * limb_base()),
            pj > 0,
    ;
}

/// The true digit `w / v` is at most `t3 / d` when `d` and `t3` are the top
/// limbs of `v` and `w` at the scale `p2`.
proof fn lemma_digit_le_estimate(w: int, v: int, p2: int, d: int, t3: int, qd: int)
    requires
        p2 > 0,
        d > 0,
        qd >= 0,
        v >= d * p2,
        w < (t3 + 1) * p2,
        qd * v <= w,
    ensures
        qd <= t3 / d,
{
    lemma_fundamental_div_mod(t3, d);
    lemma_mod_bound(t3, d);
    assert(qd * d * p2 <= qd * v) by (nonlinear_arith)
        requires
            v >= d * p2,
            qd >= 0,
    ;
    assert(qd * d < t3 + 1) by (nonlinear_arith)
        requires
            qd * d * p2 < (t3 + 1) * p2,
            p2 > 0,
    ;
    assert(qd < t3 / d + 1) by (nonlinear_arith)
        requires
            qd * d <= t3,
            t3 == d * (t3 / d) + t3 % d,
            t3 % d < d,
            d > 0,
    ;
}

impl<const N: usize> FixedWidthUint<N> {
    /// Division by a single limb, sweeping from the most significant limb.
    fn div_mod_small(self, other: u64) -> (r: (Self, Self))
        requires
            other > 0,
            N >= 1,
        ensures
            r.0@ * other + r.1@ == self@,
            r.1@ == r.1.0@[0] < other,
    {
        let a = self.limbs_vec();
        let (q, rem) = div_small(&a, other);
        let quot = Self::from_vec(&q);
        let r = Self::from_u64(rem);
        proof {
            assert(q@.subrange(0, N as int) =~= q@);
            crate::limbs::lemma_val_first(r.0@);
            lemma_val_zeros(r.0@.subrange(1, N as int));
        }
        (quot, r)
    }
}

/// The normalized divisor keeps `n` limbs and has its top bit set.
proof fn lemma_normalized_divisor(v0: int, low: int, top: int, pv: int, p1: int, p63: int)
    requires
        v0 == low + p1 * top,
        0 <= low < p1,
        (top + 1) * pv <= limb_base(),
        top * pv >= p63,
        pv > 0,
    ensures
        v0 * pv < p1 * limb_base(),
        v0 * pv >= p63 * p1,
{
    assert(v0 * pv == low * pv + p1 * (top * pv)) by (nonlinear_arith)
        requires
            v0 == low + p1 * top,
    ;
    assert(low * pv < p1 * pv) by (nonlinear_arith)
        requires
            low < p1,
            pv > 0,
    ;
    assert(p1 * pv + p1 * (top * pv) == p1 * ((top + 1) * pv)) by (nonlinear_arith);
    assert(p1 * ((top + 1) * pv) <= p1 * limb_base()) by (nonlinear_arith)
        requires
            (top + 1) * pv <= limb_base(),
            p1 > 0,
    ;
    assert(low * pv >= 0) by (nonlinear_arith)
        requires
            low >= 0,
            pv > 0,
    ;
    assert(p1 * (top * pv) >= p1 * p63) by (nonlinear_arith)
        requires
            top * pv >= p63,
            p1 > 0,
    ;
}

/// The shifted dividend is below the shifted divisor times `(2^64)^(m+1)`.
proof fn lemma_initial_bound(a0: int, pv: int, p63: int, big_v: int, pnm: int, p1: int, pm1: int)
    requires
        0 <= a0 < pnm,
        0 < pv <= p63,
        big_v >= p63 * p1,
        pnm == p1 * pm1,
        pm1 > 0,
        p1 > 0,
    ensures
        a0 * pv < big_v * pm1,
{
    assert(a0 * pv < pnm * pv) by (nonlinear_arith)
        requires
            a0 < pnm,
            pv > 0,
    ;
    assert(pnm * pv <= pnm * p63) by (nonlinear_arith)
        requires
            pv <= p63,
            pnm >= 0,
    ;
    assert(pnm * p63 <= big_v * pm1) by (nonlinear_arith)
        requires
            pnm == p1 * pm1,
            big_v >= p63 * p1,
            pm1 > 0,
    ;
}

/// One add-back: the digit drops by one and the window gains the divisor.
proof fn lemma_addback_step(w: int, q: int, v: int, w1: int, w2: int, c: int, m: int)
    requires
        w1 - m == w - (q + 1) * v,
        w2 + c * m == w1 + v,
    ensures
        w2 - (1 - c) * m == w - q * v,
{
    assert((q + 1) * v == q * v + v) by (nonlinear_arith);
    assert((1 - c) * m == m - c * m) by (nonlinear_arith);
}

/// Storing one quotient digit keeps `u0 == q * v + u`.
proof fn lemma_digit_step(u0: int, q: int, qn: int, v: int, l: int, pj: int, w: int, w1: int, d: int)
    requires
        u0 == q * v + (l + pj * w),
        qn == q + d * pj,
        w1 == w - d * v,
    ensures
        u0 == qn * v + (l + pj * w1),
{
    assert(qn * v == q * v + d * pj * v) by (nonlinear_arith)
        requires
            qn == q + d * pj,
    ;
    assert(pj * w1 == pj * w - d * pj * v) by (nonlinear_arith)
        requires
            w1 == w - d * v,
    ;
}

/// A window below `v`, below everything under position `j`.
proof fn lemma_digit_bound(l: int, pj: int, w1: int, v: int)
    requires
        0 <= l < pj,
        0 <= w1 < v,
    ensures
        l + pj * w1 < v * pj,
{
    assert(pj * w1 <= pj * (v - 1)) by (nonlinear_arith)
        requires
            w1 <= v - 1,
            pj > 0,
    ;
    assert(pj * (v - 1) == v * pj - pj) by (nonlinear_arith);
}

/// A digit times the divisor stays below one more limb.
proof fn lemma_product_bound(q: int, v: int, pn: int)
    requires
        0 <= q < limb_base(),
        0 <= v < pn,
    ensures
        q * v < limb_base() * pn,
        q * v >= 0,
{
    assert(q * v <= q * pn) by (nonlinear_arith)
        requires
            v < pn,
            q >= 0,
    ;
    assert(q * pn < limb_base() * pn) by (nonlinear_arith)
        requires
            q < limb_base(),
            pn > v,
            v >= 0,
    ;
    assert(q * v >= 0) by (nonlinear_arith)
        requires
            q >= 0,
            v >= 0,
    ;
}

impl<const N: usize> FixedWidthUint<N> {
    /// Long division by a divisor of `n >= 2` limbs, the dividend having at
    /// most `n + m` limbs (Knuth, TAOCP vol. 2, section 4.3.1, Algorithm D).
    fn div_mod_knuth(self, v: Self, n: usize, m: usize) -> (r: (Self, Self))
        requires
            width_ok(N),
            2 <= n,
            n + m <= N,
            v.0@[n - 1] != 0,
            forall|k: int| n <= k < N ==> v.0@[k] == 0,
            self@ < base_pow((n + m) as nat),
        ensures
            r.0@ * v@ + r.1@ == self@,
            0 <= r.1@ < v@,
    {
        // D1: scale both operands so that the divisor's top limb has its
        // highest bit set; the quotient stays and the remainder scales.
        let top = v.0[n - 1];
        let shift = top.leading_zeros();
        proof {
            lemma_normalize(top, shift as int);
            lemma2_to64();
            vstd::arithmetic::power2::lemma2_to64_rest();
            lemma_pow2_pos(shift as nat);
            vstd::bits::lemma_u64_shl_is_mul(1, shift as u64);
        }
        let p: u64 = 1u64 << (shift as u64);
        let ghost pv: int = pow2(shift as nat) as int;
        let ghost a0 = self@;
        let ghost v0 = v@;
        let ghost big_v = v0 * pv;
        let ghost u0 = a0 * pv;
        let a_limbs = self.limbs_vec();
        let v_limbs = v.limbs_vec();
        let mut u = mul_limb(&a_limbs, N, p);
        let vn = mul_limb(&v_limbs, n, p);
        proof {
            assert(a_limbs@.subrange(0, N as int) =~= self.0@);
            lemma_top_limb(v.0@, n as int);
            let vs = v.0@.subrange(0, n as int);
            crate::limbs::lemma_val_top2_or_one(vs);
            assert(vs.subrange(0, n - 1) =~= v.0@.subrange(0, n - 1));
            lemma_val_bounds(v.0@.subrange(0, n - 1));
            lemma_base_pow_positive((n - 1) as nat);
            lemma_base_pow_succ((n - 1) as nat);
            lemma_normalized_divisor(
                v0,
                limbs_val(v.0@.subrange(0, n - 1)),
                top as int,
                pv,
                base_pow((n - 1) as nat),
                pow2(63) as int,
            );
            // the scaled divisor still fits `n` limbs
            lemma_val_top_zero(vn@, n as int);
            let vt = vn@.subrange(0, n as int);
            lemma_val_top2(vt);
            crate::limbs::lemma_val_top2_or_one(vt);
            assert(vt.subrange(0, n - 2) =~= vn@.subrange(0, n - 2));
            assert(vt.subrange(0, n - 1) =~= vn@.subrange(0, n - 1));
            lemma_val_bounds(vn@.subrange(0, n - 1));
            lemma_base_pow_positive((n - 2) as nat);
            lemma_base_pow_succ((n - 2) as nat);
            if vn@[n - 1] == 0 {
                assert(base_pow((n - 1) as nat) * vn@[n - 1] == 0) by (nonlinear_arith)
                    requires
                        vn@[n - 1] == 0,
                ;
                assert(pow2(63) * base_pow((n - 1) as nat) >= base_pow((n - 1) as nat))
                    by (nonlinear_arith)
                    requires
                        pow2(63) >= 1,
                        base_pow((n - 1) as nat) > 0,
                ;
            }
            assert(vn@[n - 2] + limb_base() * vn@[n - 1] >= 0);
            assert(base_pow((n - 2) as nat) * (vn@[n - 2] + limb_base() * vn@[n - 1]) == (
            limb_base() * vn@[n - 1] + vn@[n - 2]) * base_pow((n - 2) as nat)) by (nonlinear_arith);
            // the dividend is below `big_v * (2^64)^(m+1)`
            lemma_base_pow_adds((n - 1) as nat, (m + 1) as nat);
            lemma_base_pow_positive((m + 1) as nat);
            lemma_val_bounds(self.0@);
            vstd::arithmetic::power2::lemma_pow2_pos(shift as nat);
            lemma_initial_bound(
                a0,
                pv,
                pow2(63) as int,
                big_v,
                base_pow((n + m) as nat),
                base_pow((n - 1) as nat),
                base_pow((m + 1) as nat),
            );
            lemma_val_zeros(Seq::<u64>::new(N as nat, |i: int| 0u64));
            assert([0u64; N]@ =~= Seq::<u64>::new(N as nat, |i: int| 0u64));
        }
        let v_n_1 = vn[n - 1];
        let v_n_2 = vn[n - 2];
        let mut q = [0u64; N];
        let mut j: usize = m + 1;
        // D2 to D7: one quotient digit per round, most significant first.
        while j > 0
            invariant
                width_ok(N),
                2 <= n,
                n + m <= N,
                j <= m + 1,
                u.len() == N + 1,
                vn.len() == n + 1,
                limbs_val(vn@) == big_v,
                limbs_val(vn@.subrange(0, n as int)) == big_v,
                v_n_1 == vn@[n - 1],
                v_n_2 == vn@[n - 2],
                v_n_1 > 0,
                0 < big_v < base_pow(n as nat),
                big_v >= (limb_base() * v_n_1 + v_n_2) * base_pow((n - 2) as nat),
                u0 == limbs_val(q@) * big_v + limbs_val(u@),
                limbs_val(u@) < big_v * base_pow(j as nat),
                forall|k: int| 0 <= k < j ==> q@[k] == 0,
            decreases j,
        {
            j -= 1;
            let ghost uo = u@;
            let ghost qo = q@;
            let ghost w = limbs_val(uo.subrange(j as int, j + n + 1));
            let ghost l = limbs_val(uo.subrange(0, j as int));
            let ghost pj = base_pow(j as nat);
            let ghost mw = base_pow((n + 1) as nat);
            let ghost qd = w / big_v;
            proof {
                lemma_val_window(uo, j as int, (n + 1) as int);
                lemma_val_bounds(uo.subrange(0, j as int));
                lemma_val_bounds(uo.subrange(j as int, j + n + 1));
                lemma_val_bounds(uo.subrange(j + n + 1, N + 1));
                lemma_base_pow_positive(j as nat);
                lemma_base_pow_succ(j as nat);
                lemma_base_pow_succ(n as nat);
                lemma_base_pow_adds(j as nat, (n + 1) as nat);
                lemma_base_pow_positive((j + n + 1) as nat);
                assert(big_v * base_pow((j + 1) as nat) == big_v * limb_base() * pj)
                    by (nonlinear_arith)
                    requires
                        base_pow((j + 1) as nat) == limb_base() * pj,
                ;
                assert(big_v * limb_base() * pj <= base_pow((j + n + 1) as nat))
                    by (nonlinear_arith)
                    requires
                        big_v < base_pow(n as nat),
                        base_pow((n + 1) as nat) == limb_base() * base_pow(n as nat),
                        base_pow((j + n + 1) as nat) == pj * base_pow((n + 1) as nat),
                        pj > 0,
                ;
                lemma_window_facts(
                    limbs_val(uo),
                    l,
                    w,
                    limbs_val(uo.subrange(j + n + 1, N + 1)),
                    pj,
                    base_pow((j + n + 1) as nat),
                    big_v,
                );
                lemma_fundamental_div_mod(w, big_v);
                lemma_mod_bound(w, big_v);
                vstd::arithmetic::div_mod::lemma_div_pos_is_pos(w, big_v);
                crate::limbs::lemma_div_mod_bound(w, big_v);
                // the top three limbs of the window
                let win = uo.subrange(j as int, j + n + 1);
                lemma_val_top3(win);
                lemma_base_pow_positive((n - 2) as nat);
                let t3 = uo[j + n - 2] + limb_base() * (uo[j + n - 1] + limb_base() * uo[j + n as int]);
                assert(win[n - 2] == uo[j + n - 2]);
                assert(win[n - 1] == uo[j + n - 1]);
                assert(win[n as int] == uo[j + n as int]);
                let lw = limbs_val(win.subrange(0, n - 2));
                assert(w < (t3 + 1) * base_pow((n - 2) as nat)) by (nonlinear_arith)
                    requires
                        w == lw + base_pow((n - 2) as nat) * t3,
                        lw < base_pow((n - 2) as nat),
                ;
                lemma_digit_le_estimate(
                    w,
                    big_v,
                    base_pow((n - 2) as nat),
                    limb_base() * v_n_1 + v_n_2,
                    uo[j + n - 2] + limb_base() * (uo[j + n - 1] + limb_base() * uo[j + n as int]),
                    qd,
                );
            }
            // D3: trial digit, at least the true one.
            let mut q_hat = estimate_digit(u[j + n], u[j + n - 1], u[j + n - 2], v_n_1, v_n_2);
            // D4: subtract the trial multiple of the divisor from the window.
            let prod = mul_limb(&vn, n, q_hat);
            let mut borrow = sub_at(&mut u, j, &prod);
            proof {
                lemma_product_bound(q_hat as int, big_v, base_pow(n as nat));
                lemma_val_bounds(u@.subrange(j as int, j + n + 1));
                lemma_wrap(
                    limbs_val(u@.subrange(j as int, j + n + 1)),
                    -(borrow as int),
                    w - q_hat * big_v,
                    mw,
                );
            }
            // D6: while the trial digit was too large, add the divisor back.
            while borrow != 0
                invariant
                    u.len() == N + 1,
                    vn.len() == n + 1,
                    j + n + 1 <= N + 1,
                    limbs_val(vn@) == big_v,
                    0 < big_v < base_pow(n as nat),
                    mw == base_pow((n + 1) as nat),
                    mw == limb_base() * base_pow(n as nat),
                    borrow <= 1,
                    0 <= qd <= q_hat,
                    qd * big_v <= w < qd * big_v + big_v,
                    limbs_val(u@.subrange(j as int, j + n + 1)) - borrow * mw == w - q_hat * big_v,
                    borrow == 1 <==> w - q_hat * big_v < 0,
                    forall|k: int| 0 <= k < N + 1 && !(j <= k < j + n + 1) ==> u@[k] == uo[k],
                decreases q_hat,
            {
                proof {
                    assert(qd < q_hat) by (nonlinear_arith)
                        requires
                            qd * big_v <= w,
                            w < q_hat * big_v,
                            big_v > 0,
                    ;
                }
                let ghost w1 = limbs_val(u@.subrange(j as int, j + n + 1));
                q_hat -= 1;
                let c = add_at(&mut u, j, &vn);
                borrow = 1 - c;
                proof {
                    lemma_addback_step(
                        w,
                        q_hat as int,
                        big_v,
                        w1,
                        limbs_val(u@.subrange(j as int, j + n + 1)),
                        c as int,
                        mw,
                    );
                    lemma_product_bound(q_hat as int, big_v, base_pow(n as nat));
                    lemma_val_bounds(u@.subrange(j as int, j + n + 1));
                    assert(borrow == 1 - c);
                    assert((-(borrow as int)) * mw == -((1 - c) * mw)) by (nonlinear_arith)
                        requires
                            borrow == 1 - c,
                    ;
                    lemma_wrap(
                        limbs_val(u@.subrange(j as int, j + n + 1)),
                        -(borrow as int),
                        w - q_hat * big_v,
                        mw,
                    );
                }
            }
            // D5: store the digit.
            q[j] = q_hat;
            proof {
                let un = u@;
                let w1 = limbs_val(un.subrange(j as int, j + n + 1));
                assert(w1 == w - q_hat * big_v);
                assert(w - q_hat * big_v <= w - qd * big_v) by (nonlinear_arith)
                    requires
                        qd <= q_hat,
                        big_v > 0,
                ;
                lemma_val_window(un, j as int, (n + 1) as int);
                assert(un.subrange(0, j as int) =~= uo.subrange(0, j as int));
                assert(un.subrange(j + n + 1, N + 1) =~= uo.subrange(j + n + 1, N + 1));
                assert(limbs_val(uo) == l + pj * w) by (nonlinear_arith)
                    requires
                        limbs_val(uo) == l + pj * w + base_pow((j + n + 1) as nat) * limbs_val(
                            uo.subrange(j + n + 1, N + 1),
                        ),
                        limbs_val(uo.subrange(j + n + 1, N + 1)) == 0,
                ;
                lemma_val_update(qo, j as int, q_hat);
                assert(q@ =~= qo.update(j as int, q_hat));
                lemma_digit_step(
                    u0,
                    limbs_val(qo),
                    limbs_val(q@),
                    big_v,
                    l,
                    pj,
                    w,
                    w1,
                    q_hat as int,
                );
                lemma_digit_bound(l, pj, w1, big_v);
            }
        }
        // D8: unscale the remainder.
        let (rq, rr) = div_small(&u, p);
        proof {
            lemma_pow0(limb_base());
            let qv = limbs_val(q@);
            let rv = limbs_val(u@);
            assert(rv == (a0 - qv * v0) * pv) by (nonlinear_arith)
                requires
                    a0 * pv == qv * (v0 * pv) + rv,
            ;
            lemma_fundamental_div_mod_converse(rv, pv, limbs_val(rq@), rr as int);
            lemma_fundamental_div_mod_converse(rv, pv, a0 - qv * v0, 0);
            assert(a0 - qv * v0 < v0) by (nonlinear_arith)
                requires
                    (a0 - qv * v0) * pv == rv,
                    rv < v0 * pv,
                    pv > 0,
            ;
            v.lemma_range();
            lemma_val_top_zero(rq@, N as int);
        }
        let rem = Self::from_vec(&rq);
        proof {
            assert(rem@ == limbs_val(rq@));
            assert(limbs_val(rq@) == a0 - limbs_val(q@) * v0);
            lemma_val_bounds(rq@);
        }
        (FixedWidthUint(q), rem)
    }
}

impl<const N: usize> FixedWidthUint<N> {
    /// Returns `(self / other, self % other)`.
    pub fn div_mod(self, other: Self) -> (r: (Self, Self))
        requires
            width_ok(N),
            other@ != 0,
        ensures
            r.0@ == self@ / other@,
            r.1@ == self@ % other@,
    {
        let my_bits = self.bits();
        let your_bits = other.bits();
        proof {
            self.lemma_range();
            other.lemma_range();
            lemma2_to64();
            vstd::arithmetic::power2::lemma2_to64_rest();
            lemma_bit_length_bounds(other@);
            crate::limbs::lemma_base_pow_succ(0);
            lemma_pow0(limb_base());
        }
        if my_bits < your_bits {
            proof {
                if self@ > 0 {
                    lemma_bit_length_bounds(self@);
                    if bit_length(self@) < (your_bits - 1) as nat {
                        vstd::arithmetic::power2::lemma_pow2_strictly_increases(
                            bit_length(self@),
                            (your_bits - 1) as nat,
                        );
                    }
                }
                lemma_fundamental_div_mod_converse(self@, other@, 0, self@);
            }
            let z = Self::zero();
            return (z, self);
        }
        if your_bits <= 64 {
            proof {
                if your_bits < 64 {
                    vstd::arithmetic::power2::lemma_pow2_strictly_increases(your_bits as nat, 64);
                }
                lemma_val_top_zero(other.0@, 1);
                crate::limbs::lemma_val_short(other.0@.subrange(0, 1));
            }
            let (q, rem) = self.div_mod_small(other.0[0]);
            proof {
                lemma_fundamental_div_mod_converse(self@, other@, q@, rem@);
            }
            return (q, rem);
        }
        let n = other.num_words();
        let my_words = self.num_words();
        proof {
            lemma_top_limb(other.0@, n as int);
            lemma_top_limb(self.0@, my_words as int);
            if your_bits > 65 {
                vstd::arithmetic::power2::lemma_pow2_strictly_increases(
                    64,
                    (your_bits - 1) as nat,
                );
            }
            if n <= 1 {
                crate::limbs::lemma_base_pow_le(n as nat, 1);
            }
        }
        if my_words < n {
            proof {
                crate::limbs::lemma_base_pow_le(my_words as nat, (n - 1) as nat);
                assert(base_pow((n - 1) as nat) * other.0@[n - 1] >= base_pow((n - 1) as nat))
                    by (nonlinear_arith)
                    requires
                        other.0@[n - 1] >= 1,
                        base_pow((n - 1) as nat) > 0,
                ;
                lemma_base_pow_positive((n - 1) as nat);
                lemma_fundamental_div_mod_converse(self@, other@, 0, self@);
            }
            let z = Self::zero();
            return (z, self);
        }
        let (q, rem) = self.div_mod_knuth(other, n, my_words - n);
        proof {
            lemma_fundamental_div_mod_converse(self@, other@, q@, rem@);
        }
        (q, rem)
    }

    /// Quotient; the divisor must not be zero.
    pub fn div(self, other: Self) -> (r: Self)
        requires
            width_ok(N),
            other@ != 0,
        ensures
            r@ == self@ / other@,
    {
        self.div_mod(other).0
    }

    /// Remainder; the divisor must not be zero.
    pub fn rem(self, other: Self) -> (r: Self)
        requires
            width_ok(N),
            other@ != 0,
        ensures
            r@ == self@ % other@,
    {
        self.div_mod(other).1
    }

    /// Quotient, or `None` when dividing by zero.
    pub fn checked_div(self, other: Self) -> (r: Option<Self>)
        requires
            width_ok(N),
        ensures
            other@ == 0 ==> r.is_none(),
            other@ != 0 ==> r.is_some() && r.unwrap()@ == self@ / other@,
    {
        if other.is_zero() {
            None
        } else {
            Some(self.div(other))
        }
    }

    /// Remainder, or `None` when dividing by zero.
    pub fn checked_rem(self, other: Self) -> (r: Option<Self>)
        requires
            width_ok(N),
        ensures
            other@ == 0 ==> r.is_none(),
            other@ != 0 ==> r.is_some() && r.unwrap()@ == self@ % other@,
    {
        if other.is_zero() {
            None
        } else {
            Some(self.rem(other))
        }
    }
}

} // verus!
