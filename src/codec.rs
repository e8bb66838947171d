//! Byte-string import and export, big- and little-endian.
use vstd::prelude::*;
use vstd::arithmetic::power::{
    pow,
    lemma_pow0,
    lemma_pow1,
    lemma_pow_adds,
    lemma_pow_multiplies,
    lemma_pow_positive,
};
use vstd::arithmetic::power2::{lemma_pow2, lemma2_to64};
use vstd::arithmetic::div_mod::{lemma_div_denominator, lemma_mod_breakdown, lemma_small_mod};
use crate::limbs::{limbs_val, limb_base, base_pow, lemma_val_first};
use crate::uint::{FixedWidthUint, width_ok};

verus! {

/// Value of a big-endian byte string.
pub open spec fn be_value(s: Seq<u8>) -> int
    decreases s.len(),
{
    if s.len() == 0 {
        0
    } else {
        be_value(s.drop_last()) * 256 + s.last()
    }
}

/// Value of a little-endian byte string.
pub open spec fn le_value(s: Seq<u8>) -> int {
    be_value(s.reverse())
}

/// Value of a concatenation of big-endian strings.
pub proof fn lemma_be_concat(a: Seq<u8>, b: Seq<u8>)
    ensures
        be_value(a + b) == be_value(a) * pow(256, b.len()) + be_value(b),
    decreases b.len(),
{
    lemma_pow0(256);
    if b.len() == 0 {
        assert(a + b =~= a);
    } else {
        let b0 = b.drop_last();
        lemma_be_concat(a, b0);
        assert((a + b).drop_last() =~= a + b0);
        lemma_pow_adds(256, b0.len(), 1);
        lemma_pow1(256);
        assert((be_value(a) * pow(256, b0.len()) + be_value(b0)) * 256 == be_value(a) * (pow(
            256,
            b0.len(),
        ) * 256) + be_value(b0) * 256) by (nonlinear_arith);
    }
}

/// One byte is worth itself.
pub proof fn lemma_be_single(d: u8)
    ensures
        be_value(seq![d]) == d,
{
    assert(seq![d].drop_last() =~= Seq::<u8>::empty());
    assert(be_value(Seq::<u8>::empty()) == 0);
    assert(seq![d].last() == d);
}

/// A big-endian string of `k` bytes is below `256^k`.
pub proof fn lemma_be_bounds(s: Seq<u8>)
    ensures
        0 <= be_value(s) < pow(256, s.len()),
    decreases s.len(),
{
    lemma_pow0(256);
    if s.len() > 0 {
        lemma_be_bounds(s.drop_last());
        lemma_pow_adds(256, (s.len() - 1) as nat, 1);
        lemma_pow1(256);
    }
}

/// Zero bytes are worth zero.
pub proof fn lemma_be_zeros(s: Seq<u8>)
    requires
        forall|i: int| 0 <= i < s.len() ==> s[i] == 0,
    ensures
        be_value(s) == 0,
    decreases s.len(),
{
    if s.len() > 0 {
        lemma_be_zeros(s.drop_last());
    }
}

/// Eight bytes make one limb: `256^(8 k) == (2^64)^k`.
pub proof fn lemma_bytes_limbs(k: nat)
    ensures
        pow(256, 8 * k) == base_pow(k),
        pow(256, 8) == limb_base(),
{
    lemma2_to64();
    lemma_pow2(8);
    lemma_pow2(64);
    lemma_pow_multiplies(2, 8, 8);
    lemma_pow_multiplies(256, 8, k);
}

/// The low `k + 1` bytes of `x`, from the low `k` bytes and byte `k`.
proof fn lemma_byte_step(x: int, k: nat)
    requires
        x >= 0,
    ensures
        x % pow(256, k + 1) == ((x / pow(256, k)) % 256) * pow(256, k) + x % pow(256, k),
        x / pow(256, k + 1) == (x / pow(256, k)) / 256,
{
    lemma_pow_positive(256, k);
    lemma_pow_adds(256, k, 1);
    lemma_pow1(256);
    lemma_mod_breakdown(x, pow(256, k), 256);
    lemma_div_denominator(x, pow(256, k), 256);
    assert(pow(256, k) * ((x / pow(256, k)) % 256) == ((x / pow(256, k)) % 256) * pow(256, k))
        by (nonlinear_arith);
    assert(pow(256, k + 1) == pow(256, k) * 256);
}

impl<const N: usize> FixedWidthUint<N> {
    /// Writes the value into `bytes`, most significant byte first.
    pub fn to_big_endian(&self, bytes: &mut [u8])
        requires
            old(bytes)@.len() == 8 * N,
        ensures
            final(bytes)@.len() == 8 * N,
            be_value(final(bytes)@) == self@,
    {
        let ghost s = self.0@;
        let total = bytes.len();
        proof {
            lemma_pow0(limb_base());
            assert(s.subrange(N as int, N as int) =~= Seq::<u64>::empty());
            assert(bytes@.subrange(0, 0) =~= Seq::<u8>::empty());
        }
        let mut i: usize = 0;
        while i < N
            invariant
                i <= N,
                s == self.0@,
                bytes@.len() == 8 * N == total,
                be_value(bytes@.subrange(0, 8 * i)) == limbs_val(s.subrange(N - i, N as int)),
            decreases N - i,
        {
            let limb = self.0[N - 1 - i];
            let ghost before = bytes@;
            let mut t: u64 = limb;
            let mut k: usize = 8;
            proof {
                lemma_pow0(256);
                assert(bytes@.subrange(8 * i + 8, 8 * i + 8) =~= Seq::<u8>::empty());
                vstd::arithmetic::div_mod::lemma_mod_self_0(1);
            }
            while k > 0
                invariant
                    i < N,
                    k <= 8,
                    bytes@.len() == 8 * N == total,
                    forall|p: int| 0 <= p < 8 * i ==> bytes@[p] == before[p],
                    t == (limb as int) / pow(256, (8 - k) as nat),
                    be_value(bytes@.subrange(8 * i + k, 8 * i + 8)) == (limb as int) % pow(
                        256,
                        (8 - k) as nat,
                    ),
                decreases k,
            {
                k -= 1;
                let ghost prev = bytes@;
                bytes[8 * i + k] = (t % 256) as u8;
                proof {
                    let d = (t % 256) as u8;
                    assert(d == t % 256);
                    lemma_byte_step(limb as int, (7 - k) as nat);
                    let seg = bytes@.subrange(8 * i + k, 8 * i + 8);
                    assert(seg =~= seq![(t % 256) as u8] + prev.subrange(8 * i + k + 1, 8 * i + 8));
                    lemma_be_concat(seq![(t % 256) as u8], prev.subrange(8 * i + k + 1, 8 * i + 8));
                    assert(seq![(t % 256) as u8].drop_last() =~= Seq::<u8>::empty());
                    let rest = prev.subrange(8 * i + k + 1, 8 * i + 8);
                    assert(rest.len() == 7 - k);
                    assert(be_value(rest) == (limb as int) % pow(256, (7 - k) as nat));
                    lemma_be_single(d);
                    assert(be_value(seg) == d * pow(256, (7 - k) as nat) + be_value(rest));
                    assert((8 - k) as nat == (7 - k) as nat + 1);
                }
                t = t / 256;
            }
            proof {
                lemma_bytes_limbs(1);
                lemma_pow1(limb_base());
                lemma_small_mod(limb as nat, pow(256, 8) as nat);
                let top = s.subrange(N - i - 1, N as int);
                lemma_val_first(top);
                assert(top.subrange(1, top.len() as int) =~= s.subrange(N - i, N as int));
                assert(bytes@.subrange(0, 8 * i + 8) =~= bytes@.subrange(0, 8 * i) + bytes@.subrange(
                    8 * i,
                    8 * i + 8,
                ));
                assert(bytes@.subrange(0, 8 * i) =~= before.subrange(0, 8 * i));
                lemma_be_concat(bytes@.subrange(0, 8 * i), bytes@.subrange(8 * i, 8 * i + 8));
            }
            i += 1;
        }
        proof {
            assert(bytes@.subrange(0, 8 * N) =~= bytes@);
            assert(s.subrange(0, N as int) =~= s);
        }
    }
}

/// Bytes `0 .. k + 1` of a big-endian string, from bytes `0 .. k`.
proof fn lemma_be_prefix_step(p: Seq<u8>, a: int, k: int)
    requires
        0 <= a <= k < p.len(),
    ensures
        be_value(p.subrange(a, k + 1)) == be_value(p.subrange(a, k)) * 256 + p[k],
{
    assert(p.subrange(a, k + 1).drop_last() =~= p.subrange(a, k));
}

/// A big-endian string worth zero holds only zero bytes.
pub proof fn lemma_be_zero_bytes(s: Seq<u8>)
    requires
        be_value(s) == 0,
    ensures
        forall|i: int| 0 <= i < s.len() ==> s[i] == 0,
    decreases s.len(),
{
    if s.len() > 0 {
        lemma_be_bounds(s.drop_last());
        lemma_be_zero_bytes(s.drop_last());
        assert forall|i: int| 0 <= i < s.len() implies s[i] == 0 by {
            if i < s.len() - 1 {
                assert(s.drop_last()[i] == s[i]);
            }
        }
    }
}

/// Leading zero bytes do not change a big-endian value.
pub proof fn lemma_be_leading_zeros(z: Seq<u8>, s: Seq<u8>)
    requires
        forall|i: int| 0 <= i < z.len() ==> z[i] == 0,
    ensures
        be_value(z + s) == be_value(s),
{
    lemma_be_zeros(z);
    lemma_be_concat(z, s);
}

impl<const N: usize> FixedWidthUint<N> {
    /// Reads a big-endian byte string of at most `8 N` bytes; missing high
    /// bytes count as zero.
    pub fn from_big_endian(slice: &[u8]) -> (r: Self)
        requires
            width_ok(N),
            slice@.len() <= 8 * N,
        ensures
            r@ == be_value(slice@),
    {
        let len = slice.len();
        let pad = 8 * N - len;
        let ghost p = Seq::new((8 * N) as nat, |j: int| if j < pad { 0u8 } else { slice@[j - pad] });
        proof {
            let z = Seq::new(pad as nat, |j: int| 0u8);
            assert(p =~= z + slice@);
            lemma_be_leading_zeros(z, slice@);
            lemma_pow0(limb_base());
            assert(p.subrange(0, 0) =~= Seq::<u8>::empty());
        }
        let mut ret = [0u64; N];
        let mut i: usize = 0;
        while i < N
            invariant
                width_ok(N),
                i <= N,
                len == slice@.len(),
                pad == 8 * N - len,
                p.len() == 8 * N,
                forall|j: int| 0 <= j < 8 * N ==> p[j] == if j < pad { 0u8 } else { slice@[j - pad] },
                be_value(p.subrange(0, 8 * i)) == limbs_val(ret@.subrange(N - i, N as int)),
            decreases N - i,
        {
            let mut x: u64 = 0;
            let mut k: usize = 0;
            proof {
                assert(p.subrange(8 * i as int, 8 * i as int) =~= Seq::<u8>::empty());
                lemma_pow0(256);
            }
            while k < 8
                invariant
                    width_ok(N),
                    i < N,
                    k <= 8,
                    len == slice@.len(),
                    pad == 8 * N - len,
                    p.len() == 8 * N,
                    forall|j: int| 0 <= j < 8 * N ==> p[j] == if j < pad { 0u8 } else { slice@[j - pad] },
                    x == be_value(p.subrange(8 * i as int, 8 * i + k)),
                decreases 8 - k,
            {
                let j = 8 * i + k;
                let b: u8 = if j < pad {
                    0
                } else {
                    slice[j - pad]
                };
                proof {
                    lemma_be_bounds(p.subrange(8 * i as int, 8 * i + k));
                    lemma_pow_adds(256, k as nat, 1);
                    lemma_pow1(256);
                    lemma_bytes_limbs(1);
                    vstd::arithmetic::power::lemma_pow_increases(256, (k + 1) as nat, 8);
                    lemma_be_prefix_step(p, 8 * i as int, j as int);
                }
                x = x * 256 + b as u64;
                k += 1;
            }
            let ghost prev = ret@;
            ret[N - 1 - i] = x;
            proof {
                lemma_bytes_limbs(1);
                let top = ret@.subrange(N - i - 1, N as int);
                lemma_val_first(top);
                assert(top.subrange(1, top.len() as int) =~= prev.subrange(N - i, N as int));
                assert(p.subrange(0, 8 * i + 8) =~= p.subrange(0, 8 * i as int) + p.subrange(
                    8 * i as int,
                    8 * i + 8,
                ));
                lemma_be_concat(p.subrange(0, 8 * i as int), p.subrange(8 * i as int, 8 * i + 8));
            }
            i += 1;
        }
        proof {
            assert(p.subrange(0, 8 * N) =~= p);
            assert(ret@.subrange(0, N as int) =~= ret@);
        }
        FixedWidthUint(ret)
    }

    /// Reads a little-endian byte string of at most `8 N` bytes; missing high
    /// bytes count as zero.
    pub fn from_little_endian(slice: &[u8]) -> (r: Self)
        requires
            width_ok(N),
            slice@.len() <= 8 * N,
        ensures
            r@ == le_value(slice@),
    {
        let len = slice.len();
        let mut rev: Vec<u8> = Vec::new();
        let mut i: usize = 0;
        while i < len
            invariant
                i <= len == slice@.len(),
                rev@ == slice@.subrange(len - i, len as int).reverse(),
            decreases len - i,
        {
            rev.push(slice[len - 1 - i]);
            i += 1;
            proof {
                assert(rev@ =~= slice@.subrange(len - i, len as int).reverse());
            }
        }
        proof {
            assert(slice@.subrange(0, len as int) =~= slice@);
        }
        Self::from_big_endian(rev.as_slice())
    }

    /// Writes the value into `bytes`, least significant byte first.
    pub fn to_little_endian(&self, bytes: &mut [u8])
        requires
            old(bytes)@.len() == 8 * N,
        ensures
            final(bytes)@.len() == 8 * N,
            le_value(final(bytes)@) == self@,
    {
        self.to_big_endian(bytes);
        let ghost orig = bytes@;
        let len = bytes.len();
        let mut i: usize = 0;
        while i < len / 2
            invariant
                len == bytes@.len() == orig.len(),
                i <= len / 2,
                forall|q: int|
                    0 <= q < len ==> bytes@[q] == if q < i || q >= len - i {
                        orig[len - 1 - q]
                    } else {
                        orig[q]
                    },
            decreases len / 2 - i,
        {
            let a = bytes[i];
            let b = bytes[len - 1 - i];
            bytes[i] = b;
            bytes[len - 1 - i] = a;
            i += 1;
        }
        proof {
            assert(bytes@.reverse() =~= orig);
        }
    }
}

} // verus!
