//! The mathematical model of a limb sequence and the carry-chain primitives.
use vstd::prelude::*;
use vstd::arithmetic::power::*;
use vstd::arithmetic::mul::*;
use vstd::arithmetic::div_mod::*;
use vstd::arithmetic::power2::pow2;

verus! {

/// `2^64` as an executable constant.
pub const WORD: u128 = 0x1_0000_0000_0000_0000;

/// Radix of one limb: `2^64`.
pub open spec fn limb_base() -> int {
    0x1_0000_0000_0000_0000
}

/// `(2^64)^k`.
pub open spec fn base_pow(k: nat) -> int {
    pow(limb_base(), k)
}

/// Value of a little-endian limb sequence: `sum of s[i] * (2^64)^i`.
pub open spec fn limbs_val(s: Seq<u64>) -> int
    decreases s.len(),
{
    if s.len() == 0 {
        0
    } else {
        limbs_val(s.drop_last()) + s.last() * base_pow((s.len() - 1) as nat)
    }
}

pub proof fn lemma_base_pow_positive(k: nat)
    ensures
        base_pow(k) > 0,
{
    lemma_pow_positive(limb_base(), k);
}

pub proof fn lemma_base_pow_succ(k: nat)
    ensures
        base_pow(k + 1) == limb_base() * base_pow(k),
{
    lemma_pow_adds(limb_base(), 1, k);
    lemma_pow1(limb_base());
}

pub proof fn lemma_base_pow_adds(a: nat, b: nat)
    ensures
        base_pow(a + b) == base_pow(a) * base_pow(b),
{
    lemma_pow_adds(limb_base(), a, b);
}

pub proof fn lemma_base_pow_le(a: nat, b: nat)
    requires
        a <= b,
    ensures
        base_pow(a) <= base_pow(b),
{
    lemma_pow_increases(limb_base() as nat, a, b);
}

/// Appending a limb adds it at the next position.
pub proof fn lemma_val_push(s: Seq<u64>, x: u64)
    ensures
        limbs_val(s.push(x)) == limbs_val(s) + x * base_pow(s.len()),
{
    assert(s.push(x).drop_last() =~= s);
}

/// The value of a prefix grows by one limb at a time.
pub proof fn lemma_val_prefix_step(s: Seq<u64>, i: int)
    requires
        0 <= i < s.len(),
    ensures
        limbs_val(s.subrange(0, i + 1)) == limbs_val(s.subrange(0, i)) + s[i] * base_pow(
            i as nat,
        ),
{
    assert(s.subrange(0, i + 1) =~= s.subrange(0, i).push(s[i]));
    lemma_val_push(s.subrange(0, i), s[i]);
}

pub proof fn lemma_val_bounds(s: Seq<u64>)
    ensures
        0 <= limbs_val(s) < base_pow(s.len()),
    decreases s.len(),
{
    lemma_pow0(limb_base());
    if s.len() > 0 {
        let k = (s.len() - 1) as nat;
        lemma_val_bounds(s.drop_last());
        lemma_base_pow_positive(k);
        lemma_base_pow_succ(k);
        assert(s.last() * base_pow(k) <= (limb_base() - 1) * base_pow(k)) by (nonlinear_arith)
            requires
                s.last() <= limb_base() - 1,
                base_pow(k) > 0,
        ;
        assert((limb_base() - 1) * base_pow(k) == limb_base() * base_pow(k) - base_pow(k))
            by (nonlinear_arith);
        assert(0 <= s.last() * base_pow(k)) by (nonlinear_arith)
            requires
                base_pow(k) > 0,
        ;
    }
}

/// The value of a concatenation.
pub proof fn lemma_val_concat(a: Seq<u64>, b: Seq<u64>)
    ensures
        limbs_val(a + b) == limbs_val(a) + base_pow(a.len()) * limbs_val(b),
    decreases b.len(),
{
    if b.len() == 0 {
        assert(a + b =~= a);
    } else {
        let b0 = b.drop_last();
        lemma_val_concat(a, b0);
        assert((a + b).drop_last() =~= a + b0);
        lemma_base_pow_adds(a.len(), (b.len() - 1) as nat);
        assert(b.last() * (base_pow(a.len()) * base_pow((b.len() - 1) as nat)) == base_pow(a.len())
            * (b.last() * base_pow((b.len() - 1) as nat))) by (nonlinear_arith);
        assert(base_pow(a.len()) * limbs_val(b) == base_pow(a.len()) * limbs_val(b0) + base_pow(
            a.len(),
        ) * (b.last() * base_pow((b.len() - 1) as nat))) by {
            lemma_mul_is_distributive_add(
                base_pow(a.len()),
                limbs_val(b0),
                b.last() * base_pow((b.len() - 1) as nat),
            );
        }
    }
}

/// A sequence split at `k`.
pub proof fn lemma_val_split(s: Seq<u64>, k: int)
    requires
        0 <= k <= s.len(),
    ensures
        limbs_val(s) == limbs_val(s.subrange(0, k)) + base_pow(k as nat) * limbs_val(
            s.subrange(k, s.len() as int),
        ),
{
    assert(s =~= s.subrange(0, k) + s.subrange(k, s.len() as int));
    lemma_val_concat(s.subrange(0, k), s.subrange(k, s.len() as int));
}

/// The lowest limb, and the rest one position down.
pub proof fn lemma_val_first(s: Seq<u64>)
    requires
        s.len() > 0,
    ensures
        limbs_val(s) == s[0] + limb_base() * limbs_val(s.subrange(1, s.len() as int)),
{
    lemma_val_split(s, 1);
    assert(s.subrange(0, 1) =~= seq![].push(s[0]));
    lemma_val_push(seq![], s[0]);
    assert(limbs_val(Seq::<u64>::empty()) == 0);
    lemma_pow1(limb_base());
    lemma_pow0(limb_base());
}

/// A sequence of zero limbs is worth zero.
pub proof fn lemma_val_zeros(s: Seq<u64>)
    requires
        forall|i: int| 0 <= i < s.len() ==> s[i] == 0,
    ensures
        limbs_val(s) == 0,
    decreases s.len(),
{
    if s.len() > 0 {
        lemma_val_zeros(s.drop_last());
    }
}

/// Two limb sequences of one length with one value are equal.
pub proof fn lemma_val_injective(a: Seq<u64>, b: Seq<u64>)
    requires
        a.len() == b.len(),
        limbs_val(a) == limbs_val(b),
    ensures
        a == b,
    decreases a.len(),
{
    if a.len() > 0 {
        let k = (a.len() - 1) as nat;
        lemma_val_bounds(a.drop_last());
        lemma_val_bounds(b.drop_last());
        lemma_base_pow_positive(k);
        lemma_fundamental_div_mod_converse(
            limbs_val(a),
            base_pow(k),
            a.last() as int,
            limbs_val(a.drop_last()),
        );
        lemma_fundamental_div_mod_converse(
            limbs_val(b),
            base_pow(k),
            b.last() as int,
            limbs_val(b.drop_last()),
        );
        lemma_val_injective(a.drop_last(), b.drop_last());
        assert(a =~= a.drop_last().push(a.last()));
        assert(b =~= b.drop_last().push(b.last()));
    } else {
        assert(a =~= b);
    }
}

/// A value of zero means every limb is zero.
pub proof fn lemma_val_zero_limbs(s: Seq<u64>)
    requires
        limbs_val(s) == 0,
    ensures
        forall|i: int| 0 <= i < s.len() ==> s[i] == 0,
{
    let z = Seq::new(s.len(), |i: int| 0u64);
    lemma_val_zeros(z);
    lemma_val_injective(s, z);
}

/// One carry step, scaled to the position `p` of the limb.
pub proof fn lemma_add_step(r: int, c: int, a: int, b: int, c0: int, p: int)
    requires
        r + c * limb_base() == a + b + c0,
    ensures
        r * p + c * (limb_base() * p) == a * p + b * p + c0 * p,
{
    assert(r * p + c * (limb_base() * p) == (r + c * limb_base()) * p) by (nonlinear_arith);
    assert((a + b + c0) * p == a * p + b * p + c0 * p) by (nonlinear_arith);
}

/// One borrow step, scaled to the position `p` of the limb.
pub proof fn lemma_sub_step(r: int, c: int, a: int, b: int, c0: int, p: int)
    requires
        r - c * limb_base() == a - b - c0,
    ensures
        r * p - c * (limb_base() * p) == a * p - b * p - c0 * p,
{
    assert(r * p - c * (limb_base() * p) == (r - c * limb_base()) * p) by (nonlinear_arith);
    assert((a - b - c0) * p == a * p - b * p - c0 * p) by (nonlinear_arith);
}

/// Computes `a + b + carry`: the low limb is returned and the carry, 0 or 1, is
/// written back.
pub fn add_with_carry(a: u64, b: u64, carry: &mut u64) -> (r: u64)
    requires
        *old(carry) <= 1,
    ensures
        *final(carry) <= 1,
        r + *final(carry) * limb_base() == a + b + *old(carry),
{
    let t: u128 = a as u128 + b as u128 + *carry as u128;
    *carry = (t / WORD) as u64;
    (t % WORD) as u64
}

/// Computes `a - b - borrow`: the low limb is returned and the borrow, 0 or 1,
/// is written back.
pub fn sub_with_borrow(a: u64, b: u64, borrow: &mut u64) -> (r: u64)
    requires
        *old(borrow) <= 1,
    ensures
        *final(borrow) <= 1,
        r - *final(borrow) * limb_base() == a - b - *old(borrow),
{
    let t: u128 = WORD + a as u128 - b as u128 - *borrow as u128;
    *borrow = 1 - (t / WORD) as u64;
    (t % WORD) as u64
}

/// Computes `acc + a * b + carry`: the low limb is returned and the high limb
/// becomes the new carry.
pub fn mac_with_carry(acc: u64, a: u64, b: u64, carry: &mut u64) -> (r: u64)
    ensures
        r + *final(carry) * limb_base() == acc + a * b + *old(carry),
{
    proof {
        assert(a * b <= 0xFFFF_FFFF_FFFF_FFFF * 0xFFFF_FFFF_FFFF_FFFFint) by (nonlinear_arith)
            requires
                a <= 0xFFFF_FFFF_FFFF_FFFFint,
                b <= 0xFFFF_FFFF_FFFF_FFFFint,
        ;
    }
    let t: u128 = acc as u128 + (a as u128) * (b as u128) + *carry as u128;
    *carry = (t / WORD) as u64;
    (t % WORD) as u64
}

/// `2^32`, the radix of a half limb.
pub const HALF: u64 = 0x1_0000_0000;

/// A value congruent to `t` modulo `m`, and like `t` in `[0, m)`, is `t`.
proof fn lemma_same_in_range(res: int, t: int, k: int, m: int)
    requires
        res == t + m * k,
        0 <= res < m,
        0 <= t < m,
    ensures
        res == t,
{
    if k >= 1 {
        assert(m * k >= m) by (nonlinear_arith)
            requires
                k >= 1,
                m > 0,
        ;
    } else if k <= -1 {
        assert(m * k <= -m) by (nonlinear_arith)
            requires
                k <= -1,
                m > 0,
        ;
    }
}

/// One step of half-limb long division: divides `top * 2^32 + next` by the
/// normalized `y`, where `top < y`. The trial digit comes from the top half
/// of `y` and is corrected against its bottom half.
fn div_half_step(top: u64, next: u64, y: u64) -> (r: (u64, u64))
    requires
        top < y,
        next < HALF,
        y >= 0x8000_0000_0000_0000,
    ensures
        r.0 < HALF,
        r.1 < y,
        r.0 * y + r.1 == top * HALF + next,
{
    let ghost b: int = HALF as int;
    let yn1 = y / HALF;
    let yn0 = y % HALF;
    let ghost u = top * b + next;
    let ghost qd = u / (y as int);
    proof {
        assert(y == yn1 * b + yn0);
        assert(2 * yn1 >= b);
        assert(u < y * b) by (nonlinear_arith)
            requires
                u == top * b + next,
                top + 1 <= y,
                next < b,
        ;
        lemma_fundamental_div_mod(u, y as int);
        lemma_mod_bound(u, y as int);
        vstd::arithmetic::div_mod::lemma_div_pos_is_pos(u, y as int);
        if qd >= b {
            assert(qd * y >= b * y) by (nonlinear_arith)
                requires
                    qd >= b,
                    y > 0,
            ;
        }
        // the first trial digit is at least the true one, and at most b + 1
        assert(qd * yn1 * b <= qd * y) by (nonlinear_arith)
            requires
                y == yn1 * b + yn0,
                qd >= 0,
                yn0 >= 0,
        ;
        assert(qd * yn1 < top + 1) by (nonlinear_arith)
            requires
                qd * yn1 * b <= qd * y,
                qd * y <= u,
                u == top * b + next,
                next < b,
                b > 0,
        ;
        lemma_fundamental_div_mod(top as int, yn1 as int);
        lemma_mod_bound(top as int, yn1 as int);
        assert(qd <= top / yn1) by (nonlinear_arith)
            requires
                qd * yn1 <= top,
                top == yn1 * (top / yn1) + top % yn1,
                top % yn1 < yn1,
                yn1 > 0,
        ;
        assert(top / yn1 <= b + 1) by (nonlinear_arith)
            requires
                top == yn1 * (top / yn1) + top % yn1,
                top % yn1 >= 0,
                top < y,
                y == yn1 * b + yn0,
                yn0 < b,
                2 * yn1 >= b,
                yn1 > 0,
        ;
    }
    let mut q = top / yn1;
    let mut rhat = top % yn1;
    loop
        invariant_except_break
            rhat < HALF,
        invariant
            b == HALF,
            y == yn1 * b + yn0,
            yn0 < b,
            0 < yn1 < b,
            2 * yn1 >= b,
            top < y,
            next < b,
            u == top * b + next,
            qd * y <= u < qd * y + y,
            qd < b,
            0 <= qd,
            q * yn1 + rhat == top,
            qd <= q <= b + 1,
        ensures
            q < HALF,
            q * y <= u,
        decreases q,
    {
        proof {
            assert(q * yn0 <= (b + 1) * (b - 1)) by (nonlinear_arith)
                requires
                    q <= b + 1,
                    yn0 <= b - 1,
                    q >= 0,
                    yn0 >= 0,
            ;
            assert(HALF * rhat + next < 0x1_0000_0000_0000_0000) by (nonlinear_arith)
                requires
                    rhat < b,
                    next < b,
                    b == 0x1_0000_0000,
            ;
        }
        if !(q >= HALF || q * yn0 > HALF * rhat + next) {
            proof {
                assert(q * y <= u) by (nonlinear_arith)
                    requires
                        y == yn1 * b + yn0,
                        q * yn1 + rhat == top,
                        q * yn0 <= b * rhat + next,
                        u == top * b + next,
                ;
            }
            break;
        }
        proof {
            if q < HALF {
                assert(q * y > u) by (nonlinear_arith)
                    requires
                        y == yn1 * b + yn0,
                        q * yn1 + rhat == top,
                        q * yn0 > b * rhat + next,
                        u == top * b + next,
                ;
            }
            assert(q > qd) by (nonlinear_arith)
                requires
                    q >= b || q * y > u,
                    qd < b,
                    qd * y <= u,
                    y > 0,
            ;
        }
        proof {
            assert((q - 1) * yn1 + (rhat + yn1) == q * yn1 + rhat) by (nonlinear_arith);
        }
        q -= 1;
        rhat += yn1;
        if rhat >= HALF {
            proof {
                if q >= b {
                    assert(top >= b * (yn1 + 1)) by (nonlinear_arith)
                        requires
                            q * yn1 + rhat == top,
                            q >= b,
                            rhat >= b,
                            yn1 > 0,
                    ;
                    assert(false) by (nonlinear_arith)
                        requires
                            top >= b * (yn1 + 1),
                            top < y,
                            y == yn1 * b + yn0,
                            yn0 < b,
                    ;
                }
                assert(q * yn0 < b * rhat) by (nonlinear_arith)
                    requires
                        q < b,
                        yn0 < b,
                        rhat >= b,
                        q >= 0,
                        yn0 >= 0,
                ;
                assert(q * y <= u) by (nonlinear_arith)
                    requires
                        y == yn1 * b + yn0,
                        q * yn1 + rhat == top,
                        q * yn0 < b * rhat,
                        u == top * b + next,
                        next >= 0,
                ;
            }
            break;
        }
    }
    let rem = top.wrapping_mul(HALF).wrapping_add(next).wrapping_sub(q.wrapping_mul(y));
    proof {
        let m: int = 0x1_0000_0000_0000_0000;
        assert(q >= qd && q * y <= u ==> q == qd) by (nonlinear_arith)
            requires
                qd * y <= u < qd * y + y,
                y > 0,
        ;
        let t = u - q * y;
        let a1 = (top as nat * HALF as nat) % (m as nat);
        let c1 = (q as nat * y as nat) % (m as nat);
        lemma_fundamental_div_mod(top * b, m);
        lemma_fundamental_div_mod(q * y, m);
        lemma_mod_bound(top * b, m);
        lemma_mod_bound(q * y, m);
        let k1 = (top * b) / m;
        let k2 = (q * y) / m;
        let s1: int = if a1 + next > u64::MAX { m } else { 0 };
        let x1 = a1 + next - s1;
        let s2: int = if x1 - c1 < 0 { m } else { 0 };
        assert(rem == x1 - c1 + s2);
        assert(rem == t + m * (k2 - k1 + (s2 - s1) / m)) by (nonlinear_arith)
            requires
                top * b == m * k1 + a1,
                q * y == m * k2 + c1,
                x1 == a1 + next - s1,
                rem == x1 - c1 + s2,
                t == top * b + next - q * y,
                s1 == 0 || s1 == m,
                s2 == 0 || s2 == m,
                m > 0,
        ;
        lemma_same_in_range(rem as int, t, k2 - k1 + (s2 - s1) / m, m);
    }
    (q, rem)
}

/// Divides the two-limb value `hi:lo` by `y`; the quotient fits one limb
/// because `hi < y`. Works on half limbs after scaling `y` so that its top
/// bit is set, so that no double-width division is needed.
pub fn div_mod_word(hi: u64, lo: u64, y: u64) -> (r: (u64, u64))
    requires
        hi < y,
    ensures
        r.0 * y + r.1 == hi * limb_base() + lo,
        r.1 < y,
{
    let s = y.leading_zeros();
    proof {
        crate::division::lemma_normalize(y, s as int);
        vstd::arithmetic::power2::lemma2_to64();
        vstd::arithmetic::power2::lemma2_to64_rest();
        vstd::arithmetic::power2::lemma_pow2_pos(s as nat);
        vstd::bits::lemma_u64_shl_is_mul(y, s as u64);
        assert(hi * pow2(s as nat) <= y * pow2(s as nat)) by (nonlinear_arith)
            requires
                hi < y,
                pow2(s as nat) > 0,
        ;
        vstd::bits::lemma_u64_shl_is_mul(hi, s as u64);
    }
    let yn = y << (s as u64);
    let ghost p: int = pow2(s as nat) as int;
    let ghost w: int = pow2((64 - s) as nat) as int;
    let mut un32 = hi;
    let mut un10 = lo;
    proof {
        vstd::bits::lemma_u64_shl_is_mul(1, s as u64);
    }
    if s != 0 {
        proof {
            vstd::arithmetic::power2::lemma_pow2_strictly_increases((64 - s) as nat, 64);
            vstd::bits::lemma_u64_shl_is_mul(1, (64 - s) as u64);
            vstd::bits::lemma_u64_shr_is_div(lo, (64 - s) as u64);
            vstd::arithmetic::power2::lemma_pow2_adds(s as nat, (64 - s) as nat);
            vstd::arithmetic::power2::lemma_pow2_pos((64 - s) as nat);
        }
        let w64 = 1u64 << ((64 - s) as u64);
        let carried = lo >> ((64 - s) as u64);
        let kept = lo % w64;
        proof {
            lemma_fundamental_div_mod(lo as int, w);
            lemma_mod_bound(lo as int, w);
            assert((lo as int) / w < p) by (nonlinear_arith)
                requires
                    lo < pow2(s as nat) * pow2((64 - s) as nat),
                    w == pow2((64 - s) as nat),
                    w > 0,
                    p == pow2(s as nat),
                    lo == w * ((lo as int) / w) + (lo as int) % w,
                    (lo as int) % w >= 0,
            ;
            assert(kept * p < 0x1_0000_0000_0000_0000) by (nonlinear_arith)
                requires
                    kept < w,
                    p * w == 0x1_0000_0000_0000_0000,
                    p > 0,
            ;
            assert((hi << (s as u64)) + carried < yn) by (nonlinear_arith)
                requires
                    (hi << (s as u64)) == hi * p,
                    yn == y * p,
                    hi + 1 <= y,
                    carried < p,
            ;
        }
        un32 = (hi << (s as u64)) + carried;
        un10 = kept * (1u64 << (s as u64));
    }
    proof {
        if s != 0 {
            vstd::arithmetic::power2::lemma_pow2_adds(s as nat, (64 - s) as nat);
            lemma_fundamental_div_mod(lo as int, w);
        } else {
            assert(p == 1);
            assert(y * pow2(s as nat) == y) by (nonlinear_arith)
                requires
                    pow2(s as nat) == 1,
            ;
            assert(yn == y);
        }
        assert(un32 < yn);
        // the scaled dividend is un32 : un10
        assert((hi * limb_base() + lo) * p == un32 * limb_base() + un10) by (nonlinear_arith)
            requires
                s == 0 ==> un32 == hi && un10 == lo && p == 1,
                s != 0 ==> un32 == hi * p + (lo as int) / w && un10 == ((lo as int) % w) * p && lo
                    == w * ((lo as int) / w) + (lo as int) % w && p * w == limb_base(),
        ;
    }
    let un1 = un10 / HALF;
    let un0 = un10 % HALF;
    let (q1, un21) = div_half_step(un32, un1, yn);
    let (q0, rem) = div_half_step(un21, un0, yn);
    proof {
        assert((hi * limb_base() + lo) * p == (q1 * HALF + q0) * yn + rem) by (nonlinear_arith)
            requires
                (hi * limb_base() + lo) * p == un32 * limb_base() + un10,
                un10 == un1 * HALF + un0,
                q1 * yn + un21 == un32 * HALF + un1,
                q0 * yn + rem == un21 * HALF + un0,
                limb_base() == HALF * HALF,
        ;
        assert(q1 * HALF + q0 < 0x1_0000_0000_0000_0000) by (nonlinear_arith)
            requires
                q1 < HALF,
                q0 < HALF,
                HALF == 0x1_0000_0000,
        ;
        let qq = q1 * HALF + q0;
        let hl = hi * limb_base() + lo;
        assert(rem == (hl - qq * y) * p) by (nonlinear_arith)
            requires
                hl * p == qq * yn + rem,
                yn == y * p,
        ;
        vstd::bits::lemma_u64_shr_is_div(rem, s as u64);
        lemma_fundamental_div_mod_converse(rem as int, p, hl - qq * y, 0);
        assert(hl - qq * y < y) by (nonlinear_arith)
            requires
                (hl - qq * y) * p == rem,
                rem < yn,
                yn == y * p,
                p > 0,
        ;
    }
    (q1 * HALF + q0, rem >> (s as u64))
}

pub proof fn lemma_div_mod_bound(x: int, y: int)
    requires
        0 <= x < y * limb_base(),
        y > 0,
    ensures
        x / y < limb_base(),
        x == (x / y) * y + x % y,
        0 <= x % y < y,
{
    lemma_fundamental_div_mod(x, y);
    lemma_mod_bound(x, y);
    lemma_mul_is_commutative(y, x / y);
    lemma_mul_is_commutative(y, limb_base());
    if x / y >= limb_base() {
        lemma_mul_inequality(limb_base(), x / y, y);
    }
}

/// One step of a multiply-by-limb sweep, scaled to position `p`.
proof fn lemma_mul_step(acc: int, c: int, c0: int, ai: int, x: int, p: int, lo: int, r: int)
    requires
        r + c * limb_base() == ai * x + c0,
        acc + c0 * p == lo * x,
    ensures
        acc + r * p + c * (limb_base() * p) == (lo + ai * p) * x,
{
    assert(r * p + c * (limb_base() * p) == (r + c * limb_base()) * p) by (nonlinear_arith);
    assert((ai * x + c0) * p == ai * x * p + c0 * p) by (nonlinear_arith);
    assert((lo + ai * p) * x == lo * x + ai * x * p) by (nonlinear_arith);
}

/// The first `n` limbs of `a` times the limb `x`, as `n + 1` limbs.
pub fn mul_limb(a: &Vec<u64>, n: usize, x: u64) -> (r: Vec<u64>)
    requires
        n <= a.len(),
    ensures
        r.len() == n + 1,
        limbs_val(r@) == limbs_val(a@.subrange(0, n as int)) * x,
{
    let mut out: Vec<u64> = Vec::new();
    let mut carry: u64 = 0;
    let mut i: usize = 0;
    proof {
        lemma_pow0(limb_base());
        assert(out@ =~= a@.subrange(0, 0));
    }
    while i < n
        invariant
            0 <= i <= n <= a.len(),
            out.len() == i,
            limbs_val(out@) + carry * base_pow(i as nat) == limbs_val(a@.subrange(0, i as int))
                * x,
        decreases n - i,
    {
        let ghost c0 = carry;
        let ghost prev = out@;
        let d = mac_with_carry(0, a[i], x, &mut carry);
        out.push(d);
        proof {
            lemma_val_push(prev, d);
            lemma_val_prefix_step(a@, i as int);
            lemma_base_pow_succ(i as nat);
            lemma_mul_step(
                limbs_val(prev),
                carry as int,
                c0 as int,
                a@[i as int] as int,
                x as int,
                base_pow(i as nat),
                limbs_val(a@.subrange(0, i as int)),
                d as int,
            );
        }
        i += 1;
    }
    let ghost prev = out@;
    out.push(carry);
    proof {
        lemma_val_push(prev, carry);
    }
    out
}

/// Divides the limbs of `a` by the limb `y`: quotient limbs and remainder.
pub fn div_small(a: &Vec<u64>, y: u64) -> (r: (Vec<u64>, u64))
    requires
        y > 0,
    ensures
        r.0.len() == a.len(),
        limbs_val(r.0@) * y + r.1 == limbs_val(a@),
        r.1 < y,
{
    let len = a.len();
    let mut q: Vec<u64> = Vec::new();
    let mut k: usize = 0;
    while k < len
        invariant
            k <= len == a.len(),
            q.len() == k,
            forall|t: int| 0 <= t < k ==> q@[t] == 0,
        decreases len - k,
    {
        q.push(0);
        k += 1;
    }
    let mut rem: u64 = 0;
    let mut i: usize = len;
    proof {
        assert(a@.subrange(len as int, len as int) =~= Seq::<u64>::empty());
        assert(q@.subrange(len as int, len as int) =~= Seq::<u64>::empty());
    }
    while i > 0
        invariant
            i <= len == a.len() == q.len(),
            rem < y,
            limbs_val(a@.subrange(i as int, len as int)) == limbs_val(
                q@.subrange(i as int, len as int),
            ) * y + rem,
        decreases i,
    {
        i -= 1;
        let ghost r0 = rem;
        let ghost q0 = q@;
        let (d, m) = div_mod_word(rem, a[i], y);
        q.set(i, d);
        rem = m;
        proof {
            let sa = a@.subrange(i as int, len as int);
            let sq = q@.subrange(i as int, len as int);
            lemma_val_first(sa);
            lemma_val_first(sq);
            assert(sa.subrange(1, sa.len() as int) =~= a@.subrange(i + 1, len as int));
            assert(sq.subrange(1, sq.len() as int) =~= q0.subrange(i + 1, len as int));
            let tail = limbs_val(q0.subrange(i + 1, len as int));
            assert(limb_base() * (tail * y + r0) == (limb_base() * tail) * y + r0 * limb_base())
                by (nonlinear_arith);
            assert((d + limb_base() * tail) * y == d * y + (limb_base() * tail) * y)
                by (nonlinear_arith);
        }
    }
    proof {
        assert(a@.subrange(0, len as int) =~= a@);
        assert(q@.subrange(0, len as int) =~= q@);
    }
    (q, rem)
}

/// Subtracts `b` from the limbs of `u` that start at `off`; returns the borrow.
pub fn sub_at(u: &mut Vec<u64>, off: usize, b: &Vec<u64>) -> (borrow: u64)
    requires
        off + b.len() <= old(u).len(),
    ensures
        final(u).len() == old(u).len(),
        borrow <= 1,
        forall|k: int|
            0 <= k < old(u).len() && !(off <= k < off + b.len()) ==> final(u)@[k] == old(u)@[k],
        limbs_val(final(u)@.subrange(off as int, off + b.len())) - borrow * base_pow(b.len() as nat)
            == limbs_val(old(u)@.subrange(off as int, off + b.len())) - limbs_val(b@),
{
    let ghost u0 = u@;
    let n = b.len();
    let mut borrow: u64 = 0;
    let mut i: usize = 0;
    proof {
        lemma_pow0(limb_base());
        assert(u@.subrange(off as int, off as int) =~= Seq::<u64>::empty());
        assert(u0.subrange(off as int, off as int) =~= Seq::<u64>::empty());
        assert(b@.subrange(0, 0) =~= Seq::<u64>::empty());
    }
    while i < n
        invariant
            0 <= i <= n == b.len(),
            off + n <= u0.len() == u.len(),
            borrow <= 1,
            forall|k: int| 0 <= k < u0.len() && !(off <= k < off + i) ==> u@[k] == u0[k],
            limbs_val(u@.subrange(off as int, off + i)) - borrow * base_pow(i as nat) == limbs_val(
                u0.subrange(off as int, off + i),
            ) - limbs_val(b@.subrange(0, i as int)),
        decreases n - i,
    {
        let ghost c0 = borrow;
        let ghost prev = u@;
        let d = sub_with_borrow(u[off + i], b[i], &mut borrow);
        u.set(off + i, d);
        proof {
            assert(u@.subrange(off as int, off + i + 1) =~= prev.subrange(off as int, off + i).push(
                d,
            ));
            assert(u0.subrange(off as int, off + i + 1) =~= u0.subrange(off as int, off + i).push(
                u0[off + i],
            ));
            lemma_val_push(prev.subrange(off as int, off + i), d);
            lemma_val_push(u0.subrange(off as int, off + i), u0[off + i]);
            lemma_val_prefix_step(b@, i as int);
            lemma_base_pow_succ(i as nat);
            lemma_sub_step(
                d as int,
                borrow as int,
                u0[off + i] as int,
                b@[i as int] as int,
                c0 as int,
                base_pow(i as nat),
            );
        }
        i += 1;
    }
    proof {
        assert(b@.subrange(0, n as int) =~= b@);
    }
    borrow
}

/// Adds `b` to the limbs of `u` that start at `off`; returns the carry.
pub fn add_at(u: &mut Vec<u64>, off: usize, b: &Vec<u64>) -> (carry: u64)
    requires
        off + b.len() <= old(u).len(),
    ensures
        final(u).len() == old(u).len(),
        carry <= 1,
        forall|k: int|
            0 <= k < old(u).len() && !(off <= k < off + b.len()) ==> final(u)@[k] == old(u)@[k],
        limbs_val(final(u)@.subrange(off as int, off + b.len())) + carry * base_pow(b.len() as nat)
            == limbs_val(old(u)@.subrange(off as int, off + b.len())) + limbs_val(b@),
{
    let ghost u0 = u@;
    let n = b.len();
    let mut carry: u64 = 0;
    let mut i: usize = 0;
    proof {
        lemma_pow0(limb_base());
        assert(u@.subrange(off as int, off as int) =~= Seq::<u64>::empty());
        assert(u0.subrange(off as int, off as int) =~= Seq::<u64>::empty());
        assert(b@.subrange(0, 0) =~= Seq::<u64>::empty());
    }
    while i < n
        invariant
            0 <= i <= n == b.len(),
            off + n <= u0.len() == u.len(),
            carry <= 1,
            forall|k: int| 0 <= k < u0.len() && !(off <= k < off + i) ==> u@[k] == u0[k],
            limbs_val(u@.subrange(off as int, off + i)) + carry * base_pow(i as nat) == limbs_val(
                u0.subrange(off as int, off + i),
            ) + limbs_val(b@.subrange(0, i as int)),
        decreases n - i,
    {
        let ghost c0 = carry;
        let ghost prev = u@;
        let d = add_with_carry(u[off + i], b[i], &mut carry);
        u.set(off + i, d);
        proof {
            assert(u@.subrange(off as int, off + i + 1) =~= prev.subrange(off as int, off + i).push(
                d,
            ));
            assert(u0.subrange(off as int, off + i + 1) =~= u0.subrange(off as int, off + i).push(
                u0[off + i],
            ));
            lemma_val_push(prev.subrange(off as int, off + i), d);
            lemma_val_push(u0.subrange(off as int, off + i), u0[off + i]);
            lemma_val_prefix_step(b@, i as int);
            lemma_base_pow_succ(i as nat);
            lemma_add_step(
                d as int,
                carry as int,
                u0[off + i] as int,
                b@[i as int] as int,
                c0 as int,
                base_pow(i as nat),
            );
        }
        i += 1;
    }
    proof {
        assert(b@.subrange(0, n as int) =~= b@);
    }
    carry
}

/// Limbs `j .. j + w` seen as one middle window.
pub proof fn lemma_val_window(s: Seq<u64>, j: int, w: int)
    requires
        0 <= j,
        0 <= w,
        j + w <= s.len(),
    ensures
        limbs_val(s) == limbs_val(s.subrange(0, j)) + base_pow(j as nat) * limbs_val(
            s.subrange(j, j + w),
        ) + base_pow((j + w) as nat) * limbs_val(s.subrange(j + w, s.len() as int)),
{
    let t = s.subrange(j, s.len() as int);
    lemma_val_split(s, j);
    lemma_val_split(t, w);
    assert(t.subrange(0, w) =~= s.subrange(j, j + w));
    assert(t.subrange(w, t.len() as int) =~= s.subrange(j + w, s.len() as int));
    lemma_base_pow_adds(j as nat, w as nat);
    let a = base_pow(j as nat);
    let b = base_pow(w as nat);
    let x = limbs_val(s.subrange(j, j + w));
    let y = limbs_val(s.subrange(j + w, s.len() as int));
    assert(a * (x + b * y) == a * x + (a * b) * y) by (nonlinear_arith);
}

/// Where the value is below `(2^64)^k`, the limbs from `k` on are zero.
pub proof fn lemma_val_top_zero(s: Seq<u64>, k: int)
    requires
        0 <= k <= s.len(),
        limbs_val(s) < base_pow(k as nat),
    ensures
        limbs_val(s.subrange(0, k)) == limbs_val(s),
        forall|i: int| k <= i < s.len() ==> s[i] == 0,
{
    lemma_val_split(s, k);
    let h = limbs_val(s.subrange(k, s.len() as int));
    lemma_val_bounds(s.subrange(0, k));
    lemma_val_bounds(s.subrange(k, s.len() as int));
    lemma_base_pow_positive(k as nat);
    if h > 0 {
        assert(base_pow(k as nat) * h >= base_pow(k as nat)) by (nonlinear_arith)
            requires
                h >= 1,
                base_pow(k as nat) > 0,
        ;
    }
    assert(h == 0);
    assert(base_pow(k as nat) * h == 0) by (nonlinear_arith)
        requires
            h == 0,
    ;
    lemma_val_zero_limbs(s.subrange(k, s.len() as int));
    assert forall|i: int| k <= i < s.len() implies s[i] == 0 by {
        assert(s.subrange(k, s.len() as int)[i - k] == s[i]);
    }
}

/// The value of up to three limbs written out.
pub proof fn lemma_val_short(t: Seq<u64>)
    requires
        1 <= t.len() <= 3,
    ensures
        t.len() == 1 ==> limbs_val(t) == t[0],
        t.len() == 2 ==> limbs_val(t) == t[0] + limb_base() * t[1],
        t.len() == 3 ==> limbs_val(t) == t[0] + limb_base() * (t[1] + limb_base() * t[2]),
    decreases t.len(),
{
    lemma_val_first(t);
    let rest = t.subrange(1, t.len() as int);
    if t.len() == 1 {
        assert(rest =~= Seq::<u64>::empty());
    } else {
        lemma_val_short(rest);
    }
}

/// The top two limbs of a sequence, and the rest below them.
pub proof fn lemma_val_top2(s: Seq<u64>)
    requires
        s.len() >= 2,
    ensures
        limbs_val(s) == limbs_val(s.subrange(0, s.len() - 2)) + base_pow((s.len() - 2) as nat) * (
        s[s.len() - 2] + limb_base() * s[s.len() - 1]),
        0 <= limbs_val(s.subrange(0, s.len() - 2)) < base_pow((s.len() - 2) as nat),
{
    let k = s.len() - 2;
    lemma_val_split(s, k);
    let t = s.subrange(k, s.len() as int);
    lemma_val_short(t);
    lemma_val_bounds(s.subrange(0, k));
}

/// The top three limbs of a sequence, and the rest below them.
pub proof fn lemma_val_top3(s: Seq<u64>)
    requires
        s.len() >= 3,
    ensures
        limbs_val(s) == limbs_val(s.subrange(0, s.len() - 3)) + base_pow((s.len() - 3) as nat) * (
        s[s.len() - 3] + limb_base() * (s[s.len() - 2] + limb_base() * s[s.len() - 1])),
        0 <= limbs_val(s.subrange(0, s.len() - 3)) < base_pow((s.len() - 3) as nat),
{
    let k = s.len() - 3;
    lemma_val_split(s, k);
    let t = s.subrange(k, s.len() as int);
    lemma_val_short(t);
    lemma_val_bounds(s.subrange(0, k));
}

/// Replacing limb `j` changes the value by the difference at that position.
pub proof fn lemma_val_update(s: Seq<u64>, j: int, x: u64)
    requires
        0 <= j < s.len(),
    ensures
        limbs_val(s.update(j, x)) == limbs_val(s) + (x - s[j]) * base_pow(j as nat),
{
    let t = s.update(j, x);
    lemma_val_window(s, j, 1);
    lemma_val_window(t, j, 1);
    assert(t.subrange(0, j) =~= s.subrange(0, j));
    assert(t.subrange(j + 1, t.len() as int) =~= s.subrange(j + 1, s.len() as int));
    lemma_val_short(s.subrange(j, j + 1));
    lemma_val_short(t.subrange(j, j + 1));
    assert(base_pow(j as nat) * x == base_pow(j as nat) * s[j] + (x - s[j]) * base_pow(j as nat))
        by (nonlinear_arith);
}

/// The top limb of a nonempty sequence, and the rest below it.
pub proof fn lemma_val_top2_or_one(s: Seq<u64>)
    requires
        s.len() >= 1,
    ensures
        limbs_val(s) == limbs_val(s.subrange(0, s.len() - 1)) + base_pow((s.len() - 1) as nat)
            * s[s.len() - 1],
{
    assert(s.drop_last() =~= s.subrange(0, s.len() - 1));
    assert(s[s.len() - 1] * base_pow((s.len() - 1) as nat) == base_pow((s.len() - 1) as nat)
        * s[s.len() - 1]) by (nonlinear_arith);
}

/// One multiply-accumulate step, scaled to position `p`.
proof fn lemma_mac_step(un: int, uo: int, vb: int, c0: int, c: int, ui: int, bi: int, x: int, p: int, d: int)
    requires
        d + c * limb_base() == ui + bi * x + c0,
        un + c0 * p == uo + vb * x,
    ensures
        (un + d * p) + c * (limb_base() * p) == (uo + ui * p) + (vb + bi * p) * x,
{
    assert(d * p + c * (limb_base() * p) == (d + c * limb_base()) * p) by (nonlinear_arith);
    assert((ui + bi * x + c0) * p == ui * p + bi * x * p + c0 * p) by (nonlinear_arith);
    assert((vb + bi * p) * x == vb * x + bi * x * p) by (nonlinear_arith);
}

/// Adds `b[..n] * x` to the limbs of `u` that start at `off`; returns the
/// limb that carries out.
pub fn mac_at(u: &mut Vec<u64>, off: usize, b: &Vec<u64>, n: usize, x: u64) -> (carry: u64)
    requires
        n <= b.len(),
        off + n <= old(u).len(),
    ensures
        final(u).len() == old(u).len(),
        forall|k: int| 0 <= k < old(u).len() && !(off <= k < off + n) ==> final(u)@[k] == old(u)@[k],
        limbs_val(final(u)@.subrange(off as int, off + n)) + carry * base_pow(n as nat) == limbs_val(
            old(u)@.subrange(off as int, off + n),
        ) + limbs_val(b@.subrange(0, n as int)) * x,
{
    let ghost u0 = u@;
    let mut carry: u64 = 0;
    let mut i: usize = 0;
    proof {
        lemma_pow0(limb_base());
        assert(u@.subrange(off as int, off as int) =~= Seq::<u64>::empty());
        assert(b@.subrange(0, 0) =~= Seq::<u64>::empty());
    }
    while i < n
        invariant
            0 <= i <= n <= b.len(),
            off + n <= u0.len() == u.len(),
            forall|k: int| 0 <= k < u0.len() && !(off <= k < off + i) ==> u@[k] == u0[k],
            limbs_val(u@.subrange(off as int, off + i)) + carry * base_pow(i as nat) == limbs_val(
                u0.subrange(off as int, off + i),
            ) + limbs_val(b@.subrange(0, i as int)) * x,
        decreases n - i,
    {
        let ghost c0 = carry;
        let ghost prev = u@;
        let d = mac_with_carry(u[off + i], b[i], x, &mut carry);
        u.set(off + i, d);
        proof {
            assert(u@.subrange(off as int, off + i + 1) =~= prev.subrange(off as int, off + i).push(
                d,
            ));
            assert(u0.subrange(off as int, off + i + 1) =~= u0.subrange(off as int, off + i).push(
                u0[off + i],
            ));
            lemma_val_push(prev.subrange(off as int, off + i), d);
            lemma_val_push(u0.subrange(off as int, off + i), u0[off + i]);
            lemma_val_prefix_step(b@, i as int);
            lemma_base_pow_succ(i as nat);
            lemma_mac_step(
                limbs_val(prev.subrange(off as int, off + i)),
                limbs_val(u0.subrange(off as int, off + i)),
                limbs_val(b@.subrange(0, i as int)),
                c0 as int,
                carry as int,
                u0[off + i] as int,
                b@[i as int] as int,
                x as int,
                base_pow(i as nat),
                d as int,
            );
        }
        i += 1;
    }
    carry
}

/// Schoolbook product of `a[..an]` and `b[..bn]` into `len` limbs.
pub fn mul_into(a: &Vec<u64>, an: usize, b: &Vec<u64>, bn: usize, len: usize) -> (r: Vec<u64>)
    requires
        an <= a.len(),
        bn <= b.len(),
        an + bn <= len,
    ensures
        r.len() == len,
        limbs_val(r@) == limbs_val(a@.subrange(0, an as int)) * limbs_val(b@.subrange(0, bn as int)),
{
    let mut result: Vec<u64> = Vec::new();
    let mut t: usize = 0;
    while t < len
        invariant
            t <= len,
            result.len() == t,
            forall|k: int| 0 <= k < t ==> result@[k] == 0,
        decreases len - t,
    {
        result.push(0);
        t += 1;
    }
    let ghost vb = limbs_val(b@.subrange(0, bn as int));
    proof {
        lemma_val_zeros(result@);
        assert(a@.subrange(0, 0) =~= Seq::<u64>::empty());
    }
    let mut k: usize = 0;
    while k < an
        invariant
            k <= an <= a.len(),
            bn <= b.len(),
            an + bn <= len,
            result.len() == len,
            vb == limbs_val(b@.subrange(0, bn as int)),
            limbs_val(result@) == limbs_val(a@.subrange(0, k as int)) * vb,
            forall|t: int| k + bn <= t < len ==> result@[t] == 0,
        decreases an - k,
    {
        let ghost ro = result@;
        let limb = a[k];
        let carry = mac_at(&mut result, k, b, bn, limb);
        let ghost rm = result@;
        result.set(k + bn, carry);
        proof {
            let rn = result@;
            lemma_val_window(ro, k as int, (bn + 1) as int);
            lemma_val_window(rn, k as int, (bn + 1) as int);
            assert(rn.subrange(0, k as int) =~= ro.subrange(0, k as int));
            assert(rn.subrange(k + bn + 1, len as int) =~= ro.subrange(k + bn + 1, len as int));
            let wo = ro.subrange(k as int, k + bn + 1);
            let wn = rn.subrange(k as int, k + bn + 1);
            lemma_val_top2_or_one(wo);
            lemma_val_top2_or_one(wn);
            assert(wo.subrange(0, bn as int) =~= ro.subrange(k as int, k + bn));
            assert(wn.subrange(0, bn as int) =~= rn.subrange(k as int, k + bn));
            assert(rn.subrange(k as int, k + bn) =~= rm.subrange(k as int, k + bn));
            assert(wn[bn as int] == carry);
            lemma_val_prefix_step(a@, k as int);
            let pk = base_pow(k as nat);
            let lo = limbs_val(ro.subrange(k as int, k + bn));
            let ln = limbs_val(rn.subrange(k as int, k + bn));
            assert(limbs_val(wo) == lo + base_pow(bn as nat) * 0);
            assert(base_pow(bn as nat) * 0 == 0);
            assert(limbs_val(wn) == lo + vb * limb) by {
                assert(base_pow(bn as nat) * carry == carry * base_pow(bn as nat)) by (nonlinear_arith);
            }
            assert(pk * (lo + vb * limb) == pk * lo + (limb * pk) * vb) by (nonlinear_arith);
            assert((limbs_val(a@.subrange(0, k as int)) + limb * pk) * vb == limbs_val(
                a@.subrange(0, k as int),
            ) * vb + (limb * pk) * vb) by (nonlinear_arith);
        }
        k += 1;
    }
    proof {
        assert(a@.subrange(0, an as int) =~= a@.subrange(0, k as int));
    }
    result
}

} // verus!
