//! Wire codecs of extension-field parameters and G2 points: field elements
//! are fixed-length big-endian byte strings, preceded by a one-byte
//! extension-degree tag where the degree is part of the encoding.
use vstd::prelude::*;
use vstd::slice::slice_subrange;
use vstd::arithmetic::power::pow;
use crate::codec::{
    be_value, lemma_be_concat, lemma_be_bounds, lemma_be_zero_bytes, lemma_be_leading_zeros,
};
use crate::uint::{FixedWidthUint, width_ok};

verus! {

/// Length of the extension-degree tag.
pub const EXTENSION_DEGREE_ENCODING_LENGTH: usize = 1;

/// Tag of a quadratic extension.
pub const EXTENSION_DEGREE_2: u8 = 2;

/// Tag of a cubic extension.
pub const EXTENSION_DEGREE_3: u8 = 3;

/// Why an encoding was refused.
#[derive(Clone, Copy, Debug, PartialEq, Eq, Structural)]
pub enum ApiError {
    /// The input is too short or holds an element that is not below the modulus.
    InputError,
    /// A parameter has a value that is not supported.
    UnknownParameter,
    /// A value that must be nonzero is zero.
    UnexpectedZero,
    /// A value does not fit the requested output length.
    OutputError,
}

/// An element `c0 + c1 u` of a quadratic extension.
#[derive(Clone, Copy, Debug)]
pub struct Fp2<const N: usize> {
    pub c0: FixedWidthUint<N>,
    pub c1: FixedWidthUint<N>,
}

/// An element `c0 + c1 u + c2 u^2` of a cubic extension.
#[derive(Clone, Copy, Debug)]
pub struct Fp3<const N: usize> {
    pub c0: FixedWidthUint<N>,
    pub c1: FixedWidthUint<N>,
    pub c2: FixedWidthUint<N>,
}

/// A quadratic extension, given by its non-residue.
#[derive(Clone, Copy, Debug)]
pub struct Extension2<const N: usize> {
    pub non_residue: FixedWidthUint<N>,
}

/// A cubic extension, given by its non-residue.
#[derive(Clone, Copy, Debug)]
pub struct Extension3<const N: usize> {
    pub non_residue: FixedWidthUint<N>,
}

/// An affine point of a twist over a quadratic extension.
#[derive(Clone, Copy, Debug)]
pub struct G2PointFp2<const N: usize> {
    pub x: Fp2<N>,
    pub y: Fp2<N>,
}

/// An affine point of a twist over a cubic extension.
#[derive(Clone, Copy, Debug)]
pub struct G2PointFp3<const N: usize> {
    pub x: Fp3<N>,
    pub y: Fp3<N>,
}

/// Value of the `t`-th element of `len` bytes in `b`.
pub open spec fn element(b: Seq<u8>, t: int, len: int) -> int {
    be_value(b.subrange(t * len, (t + 1) * len))
}

/// Whether `b` starts with `count` elements of `len` bytes, each of which
/// fits `width` bytes and is below `m`.
pub open spec fn elements_ok(b: Seq<u8>, count: int, len: int, width: int, m: int) -> bool {
    &&& count * len <= b.len()
    &&& len <= width
    &&& forall|t: int| 0 <= t < count ==> #[trigger] element(b, t, len) < m
}

/// Reads one field element of `field_byte_len` bytes below `modulus`.
fn decode_fp<'a, const N: usize>(
    bytes: &'a [u8],
    field_byte_len: usize,
    modulus: &FixedWidthUint<N>,
) -> (r: Result<(FixedWidthUint<N>, &'a [u8]), ApiError>)
    requires
        width_ok(N),
    ensures
        r is Ok <==> elements_ok(bytes@, 1, field_byte_len as int, 8 * N, modulus@),
        r is Ok ==> r->Ok_0.0@ == element(bytes@, 0, field_byte_len as int),
        r is Ok ==> r->Ok_0.1@ == bytes@.subrange(field_byte_len as int, bytes@.len() as int),
        r is Err ==> r->Err_0 == ApiError::InputError,
{
    let len = bytes.len();
    if len < field_byte_len || field_byte_len > 8 * N {
        return Err(ApiError::InputError);
    }
    let enc = slice_subrange(bytes, 0, field_byte_len);
    let rest = slice_subrange(bytes, field_byte_len, len);
    let x = FixedWidthUint::<N>::from_big_endian(enc);
    proof {
        let fl = field_byte_len as int;
        assert(0 * fl == 0 && (0 + 1) * fl == fl);
        assert(bytes@.subrange(0 * fl, (0 + 1) * fl) =~= enc@);
        assert(element(bytes@, 0, fl) == x@);
        assert(1 * fl == fl);
    }
    if !matches!(x.compare(modulus), core::cmp::Ordering::Less) {
        return Err(ApiError::InputError);
    }
    proof {
        assert forall|t: int| 0 <= t < 1 implies #[trigger] element(
            bytes@,
            t,
            field_byte_len as int,
        ) < modulus@ by {
            assert(t == 0);
        }
    }
    Ok((x, rest))
}

/// The elements after the first `a` ones are those of the rest of the input.
pub proof fn lemma_elements_skip(b: Seq<u8>, a: int, c: int, len: int, width: int, m: int)
    requires
        a >= 0,
        c >= 0,
        len >= 0,
        a * len <= b.len(),
    ensures
        forall|t: int|
            0 <= t && (a + t + 1) * len <= b.len() ==> #[trigger] element(
                b.subrange(a * len, b.len() as int),
                t,
                len,
            ) == element(b, a + t, len),
        elements_ok(b, a + c, len, width, m) == (elements_ok(b, a, len, width, m) && elements_ok(
            b.subrange(a * len, b.len() as int),
            c,
            len,
            width,
            m,
        )),
{
    let r = b.subrange(a * len, b.len() as int);
    assert((a + c) * len == a * len + c * len) by (nonlinear_arith);
    assert forall|t: int|
        0 <= t && (a + t + 1) * len <= b.len() implies #[trigger] element(r, t, len) == element(
        b,
        a + t,
        len,
    ) by {
        assert((a + t) * len == a * len + t * len) by (nonlinear_arith);
        assert((a + t + 1) * len == a * len + (t + 1) * len) by (nonlinear_arith);
        assert(t * len >= 0 && (t + 1) * len >= t * len) by (nonlinear_arith)
            requires
                t >= 0,
                len >= 0,
        ;
        assert(r.subrange(t * len, (t + 1) * len) =~= b.subrange((a + t) * len, (a + t + 1) * len));
    }
    if elements_ok(b, a + c, len, width, m) {
        assert(a * len <= (a + c) * len) by (nonlinear_arith)
            requires
                c >= 0,
                len >= 0,
        ;
        assert forall|t: int| 0 <= t < a implies #[trigger] element(b, t, len) < m by {
            assert(0 <= t < a + c);
        }
        assert forall|t: int| 0 <= t < c implies #[trigger] element(r, t, len) < m by {
            assert(0 <= a + t < a + c);
            assert((a + t + 1) * len <= (a + c) * len) by (nonlinear_arith)
                requires
                    t + 1 <= c,
                    len >= 0,
            ;
            assert(element(b, a + t, len) < m);
        }
    }
    if elements_ok(b, a, len, width, m) && elements_ok(r, c, len, width, m) {
        assert forall|t: int| 0 <= t < a + c implies #[trigger] element(b, t, len) < m by {
            if t >= a {
                let u = t - a;
                assert((a + u + 1) * len <= (a + c) * len) by (nonlinear_arith)
                    requires
                        u + 1 <= c,
                        len >= 0,
                ;
                assert(element(r, u, len) < m);
            }
        }
    }
}

/// Reads the two coefficients of a quadratic-extension element.
fn decode_fp2<'a, const N: usize>(
    bytes: &'a [u8],
    field_byte_len: usize,
    modulus: &FixedWidthUint<N>,
) -> (r: Result<(Fp2<N>, &'a [u8]), ApiError>)
    requires
        width_ok(N),
    ensures
        r is Ok <==> elements_ok(bytes@, 2, field_byte_len as int, 8 * N, modulus@),
        r is Ok ==> r->Ok_0.0.c0@ == element(bytes@, 0, field_byte_len as int) && r->Ok_0.0.c1@
            == element(bytes@, 1, field_byte_len as int),
        r is Ok ==> r->Ok_0.1@ == bytes@.subrange(2 * field_byte_len, bytes@.len() as int),
        r is Err ==> r->Err_0 == ApiError::InputError,
{
    let ghost fl = field_byte_len as int;
    proof {
        lemma_elements_skip(bytes@, 0, 2, fl, 8 * N, modulus@);
    }
    match decode_fp(bytes, field_byte_len, modulus) {
        Err(e) => {
            proof {
                if fl <= bytes@.len() {
                    lemma_elements_skip(bytes@, 1, 1, fl, 8 * N, modulus@);
                }
            }
            Err(e)
        },
        Ok((c0, rest)) => {
            proof {
                assert(elements_ok(bytes@, 1, fl, 8 * N, modulus@));
                assert(1 * fl <= bytes@.len());
                lemma_elements_skip(bytes@, 1, 1, fl, 8 * N, modulus@);
                assert(rest@ == bytes@.subrange(1 * fl, bytes@.len() as int));
            }
            match decode_fp(rest, field_byte_len, modulus) {
                Err(e) => Err(e),
                Ok((c1, rest)) => {
                    proof {
                        let r1 = bytes@.subrange(fl, bytes@.len() as int);
                        assert(rest@ =~= bytes@.subrange(2 * fl, bytes@.len() as int));
                        assert(element(r1, 0, fl) == element(bytes@, 1, fl));
                    }
                    Ok((Fp2 { c0, c1 }, rest))
                },
            }
        },
    }
}

/// Reads the three coefficients of a cubic-extension element.
fn decode_fp3<'a, const N: usize>(
    bytes: &'a [u8],
    field_byte_len: usize,
    modulus: &FixedWidthUint<N>,
) -> (r: Result<(Fp3<N>, &'a [u8]), ApiError>)
    requires
        width_ok(N),
    ensures
        r is Ok <==> elements_ok(bytes@, 3, field_byte_len as int, 8 * N, modulus@),
        r is Ok ==> r->Ok_0.0.c0@ == element(bytes@, 0, field_byte_len as int) && r->Ok_0.0.c1@
            == element(bytes@, 1, field_byte_len as int) && r->Ok_0.0.c2@ == element(
            bytes@,
            2,
            field_byte_len as int,
        ),
        r is Ok ==> r->Ok_0.1@ == bytes@.subrange(3 * field_byte_len, bytes@.len() as int),
        r is Err ==> r->Err_0 == ApiError::InputError,
{
    let ghost fl = field_byte_len as int;
    proof {
        lemma_elements_skip(bytes@, 0, 3, fl, 8 * N, modulus@);
    }
    match decode_fp(bytes, field_byte_len, modulus) {
        Err(e) => {
            proof {
                if fl <= bytes@.len() {
                    lemma_elements_skip(bytes@, 1, 2, fl, 8 * N, modulus@);
                }
            }
            Err(e)
        },
        Ok((c0, rest)) => {
            proof {
                assert(elements_ok(bytes@, 1, fl, 8 * N, modulus@));
                assert(1 * fl <= bytes@.len());
                lemma_elements_skip(bytes@, 1, 2, fl, 8 * N, modulus@);
                assert(rest@ == bytes@.subrange(1 * fl, bytes@.len() as int));
            }
            match decode_fp2(rest, field_byte_len, modulus) {
                Err(e) => Err(e),
                Ok((rest_coeffs, rest)) => {
                    proof {
                        let r1 = bytes@.subrange(fl, bytes@.len() as int);
                        assert(rest@ =~= bytes@.subrange(3 * fl, bytes@.len() as int));
                        assert(element(r1, 0, fl) == element(bytes@, 1, fl));
                        assert(element(r1, 1, fl) == element(bytes@, 2, fl));
                    }
                    Ok((Fp3 { c0, c1: rest_coeffs.c0, c2: rest_coeffs.c1 }, rest))
                },
            }
        },
    }
}

/// Reads the extension-degree tag, which must be 2, and the non-residue of a
/// quadratic extension, which must be nonzero.
pub fn create_fp2_extension<'a, const N: usize>(
    bytes: &'a [u8],
    field_byte_len: usize,
    modulus: &FixedWidthUint<N>,
) -> (r: Result<(Extension2<N>, &'a [u8]), ApiError>)
    requires
        width_ok(N),
    ensures
        ({
            let fl = field_byte_len as int;
            let tail = bytes@.subrange(1, bytes@.len() as int);
            &&& bytes@.len() < 1 ==> r is Err && r->Err_0 == ApiError::InputError
            &&& bytes@.len() >= 1 && bytes@[0] != EXTENSION_DEGREE_2 ==> r is Err && r->Err_0
                == ApiError::UnknownParameter
            &&& bytes@.len() >= 1 && bytes@[0] == EXTENSION_DEGREE_2 && !elements_ok(
                tail,
                1,
                fl,
                8 * N,
                modulus@,
            ) ==> r is Err && r->Err_0 == ApiError::InputError
            &&& bytes@.len() >= 1 && bytes@[0] == EXTENSION_DEGREE_2 && elements_ok(
                tail,
                1,
                fl,
                8 * N,
                modulus@,
            ) && element(tail, 0, fl) == 0 ==> r is Err && r->Err_0 == ApiError::UnexpectedZero
            &&& r is Ok <==> bytes@.len() >= 1 && bytes@[0] == EXTENSION_DEGREE_2 && elements_ok(
                tail,
                1,
                fl,
                8 * N,
                modulus@,
            ) && element(tail, 0, fl) != 0
            &&& r is Ok ==> r->Ok_0.0.non_residue@ == element(tail, 0, fl) && r->Ok_0.1@
                == tail.subrange(fl, tail.len() as int)
        }),
{
    if bytes.len() < EXTENSION_DEGREE_ENCODING_LENGTH {
        return Err(ApiError::InputError);
    }
    let extension_degree = bytes[0];
    let rest = slice_subrange(bytes, EXTENSION_DEGREE_ENCODING_LENGTH, bytes.len());
    if extension_degree != EXTENSION_DEGREE_2 {
        return Err(ApiError::UnknownParameter);
    }
    match decode_fp(rest, field_byte_len, modulus) {
        Err(e) => Err(e),
        Ok((fp_non_residue, rest)) => {
            if fp_non_residue.is_zero() {
                return Err(ApiError::UnexpectedZero);
            }
            Ok((Extension2 { non_residue: fp_non_residue }, rest))
        },
    }
}

/// Reads the extension-degree tag, which must be 3, and the non-residue of a
/// cubic extension, which must be nonzero.
pub fn create_fp3_extension<'a, const N: usize>(
    bytes: &'a [u8],
    field_byte_len: usize,
    modulus: &FixedWidthUint<N>,
) -> (r: Result<(Extension3<N>, &'a [u8]), ApiError>)
    requires
        width_ok(N),
    ensures
        ({
            let fl = field_byte_len as int;
            let tail = bytes@.subrange(1, bytes@.len() as int);
            &&& bytes@.len() < 1 ==> r is Err && r->Err_0 == ApiError::InputError
            &&& bytes@.len() >= 1 && bytes@[0] != EXTENSION_DEGREE_3 ==> r is Err && r->Err_0
                == ApiError::UnknownParameter
            &&& bytes@.len() >= 1 && bytes@[0] == EXTENSION_DEGREE_3 && !elements_ok(
                tail,
                1,
                fl,
                8 * N,
                modulus@,
            ) ==> r is Err && r->Err_0 == ApiError::InputError
            &&& bytes@.len() >= 1 && bytes@[0] == EXTENSION_DEGREE_3 && elements_ok(
                tail,
                1,
                fl,
                8 * N,
                modulus@,
            ) && element(tail, 0, fl) == 0 ==> r is Err && r->Err_0 == ApiError::UnexpectedZero
            &&& r is Ok <==> bytes@.len() >= 1 && bytes@[0] == EXTENSION_DEGREE_3 && elements_ok(
                tail,
                1,
                fl,
                8 * N,
                modulus@,
            ) && element(tail, 0, fl) != 0
            &&& r is Ok ==> r->Ok_0.0.non_residue@ == element(tail, 0, fl) && r->Ok_0.1@
                == tail.subrange(fl, tail.len() as int)
        }),
{
    if bytes.len() < EXTENSION_DEGREE_ENCODING_LENGTH {
        return Err(ApiError::InputError);
    }
    let extension_degree = bytes[0];
    let rest = slice_subrange(bytes, EXTENSION_DEGREE_ENCODING_LENGTH, bytes.len());
    if extension_degree != EXTENSION_DEGREE_3 {
        return Err(ApiError::UnknownParameter);
    }
    match decode_fp(rest, field_byte_len, modulus) {
        Err(e) => Err(e),
        Ok((fp_non_residue, rest)) => {
            if fp_non_residue.is_zero() {
                return Err(ApiError::UnexpectedZero);
            }
            Ok((Extension3 { non_residue: fp_non_residue }, rest))
        },
    }
}

/// Reads a point as `x` then `y`, each a quadratic-extension element.
pub fn decode_g2_point_from_xy_in_fp2<'a, const N: usize>(
    bytes: &'a [u8],
    field_byte_len: usize,
    modulus: &FixedWidthUint<N>,
) -> (r: Result<(G2PointFp2<N>, &'a [u8]), ApiError>)
    requires
        width_ok(N),
    ensures
        r is Ok <==> elements_ok(bytes@, 4, field_byte_len as int, 8 * N, modulus@),
        r is Ok ==> ({
            let p = r->Ok_0.0;
            let fl = field_byte_len as int;
            &&& p.x.c0@ == element(bytes@, 0, fl)
            &&& p.x.c1@ == element(bytes@, 1, fl)
            &&& p.y.c0@ == element(bytes@, 2, fl)
            &&& p.y.c1@ == element(bytes@, 3, fl)
            &&& r->Ok_0.1@ == bytes@.subrange(4 * fl, bytes@.len() as int)
        }),
        r is Err ==> r->Err_0 == ApiError::InputError,
{
    let ghost fl = field_byte_len as int;
    proof {
        lemma_elements_skip(bytes@, 0, 4, fl, 8 * N, modulus@);
    }
    match decode_fp2(bytes, field_byte_len, modulus) {
        Err(e) => {
            proof {
                if 2 * fl <= bytes@.len() {
                    lemma_elements_skip(bytes@, 2, 2, fl, 8 * N, modulus@);
                }
            }
            Err(e)
        },
        Ok((x, rest)) => {
            proof {
                lemma_elements_skip(bytes@, 2, 2, fl, 8 * N, modulus@);
            }
            match decode_fp2(rest, field_byte_len, modulus) {
                Err(e) => Err(e),
                Ok((y, rest)) => {
                    proof {
                        let r2 = bytes@.subrange(2 * fl, bytes@.len() as int);
                        assert(rest@ =~= bytes@.subrange(4 * fl, bytes@.len() as int));
                        assert(element(r2, 0, fl) == element(bytes@, 2, fl));
                        assert(element(r2, 1, fl) == element(bytes@, 3, fl));
                    }
                    Ok((G2PointFp2 { x, y }, rest))
                },
            }
        },
    }
}

/// Reads a point as `x` then `y`, each a cubic-extension element.
pub fn decode_g2_point_from_xy_in_fp3<'a, const N: usize>(
    bytes: &'a [u8],
    field_byte_len: usize,
    modulus: &FixedWidthUint<N>,
) -> (r: Result<(G2PointFp3<N>, &'a [u8]), ApiError>)
    requires
        width_ok(N),
    ensures
        r is Ok <==> elements_ok(bytes@, 6, field_byte_len as int, 8 * N, modulus@),
        r is Ok ==> ({
            let p = r->Ok_0.0;
            let fl = field_byte_len as int;
            &&& p.x.c0@ == element(bytes@, 0, fl)
            &&& p.x.c1@ == element(bytes@, 1, fl)
            &&& p.x.c2@ == element(bytes@, 2, fl)
            &&& p.y.c0@ == element(bytes@, 3, fl)
            &&& p.y.c1@ == element(bytes@, 4, fl)
            &&& p.y.c2@ == element(bytes@, 5, fl)
            &&& r->Ok_0.1@ == bytes@.subrange(6 * fl, bytes@.len() as int)
        }),
        r is Err ==> r->Err_0 == ApiError::InputError,
{
    let ghost fl = field_byte_len as int;
    proof {
        lemma_elements_skip(bytes@, 0, 6, fl, 8 * N, modulus@);
    }
    match decode_fp3(bytes, field_byte_len, modulus) {
        Err(e) => {
            proof {
                if 3 * fl <= bytes@.len() {
                    lemma_elements_skip(bytes@, 3, 3, fl, 8 * N, modulus@);
                }
            }
            Err(e)
        },
        Ok((x, rest)) => {
            proof {
                lemma_elements_skip(bytes@, 3, 3, fl, 8 * N, modulus@);
            }
            match decode_fp3(rest, field_byte_len, modulus) {
                Err(e) => Err(e),
                Ok((y, rest)) => {
                    proof {
                        let r3 = bytes@.subrange(3 * fl, bytes@.len() as int);
                        assert(rest@ =~= bytes@.subrange(6 * fl, bytes@.len() as int));
                        assert(element(r3, 0, fl) == element(bytes@, 3, fl));
                        assert(element(r3, 1, fl) == element(bytes@, 4, fl));
                        assert(element(r3, 2, fl) == element(bytes@, 5, fl));
                    }
                    Ok((G2PointFp3 { x, y }, rest))
                },
            }
        },
    }
}

/// Appends the bytes of `src` to `out`.
fn append_bytes(out: &mut Vec<u8>, src: &[u8])
    ensures
        final(out)@ == old(out)@ + src@,
{
    let ghost start = out@;
    let mut i: usize = 0;
    while i < src.len()
        invariant
            i <= src@.len(),
            out@ == start + src@.subrange(0, i as int),
        decreases src@.len() - i,
    {
        out.push(src[i]);
        i += 1;
        proof {
            assert(out@ =~= start + src@.subrange(0, i as int));
        }
    }
    proof {
        assert(src@.subrange(0, src@.len() as int) =~= src@);
    }
}

/// Writes a field element as exactly `len` big-endian bytes; refused when the
/// value needs more.
fn serialize_fp_fixed_len<const N: usize>(len: usize, x: &FixedWidthUint<N>) -> (r: Result<
    Vec<u8>,
    ApiError,
>)
    requires
        width_ok(N),
    ensures
        r is Ok <==> x@ < pow(256, len as nat),
        r is Ok ==> r->Ok_0@.len() == len && be_value(r->Ok_0@) == x@,
        r is Err ==> r->Err_0 == ApiError::OutputError,
{
    let width = 8 * N;
    let mut buf: Vec<u8> = Vec::new();
    let mut i: usize = 0;
    while i < width
        invariant
            i <= width == 8 * N,
            buf@.len() == i,
        decreases width - i,
    {
        buf.push(0);
        i += 1;
    }
    x.to_big_endian(buf.as_mut_slice());
    proof {
        lemma_be_bounds(buf@);
        crate::codec::lemma_bytes_limbs(N as nat);
    }
    if len >= width {
        let mut out: Vec<u8> = Vec::new();
        let mut k: usize = 0;
        while k < len - width
            invariant
                k <= len - width,
                out@.len() == k,
                forall|t: int| 0 <= t < k ==> out@[t] == 0,
            decreases len - width - k,
        {
            out.push(0);
            k += 1;
        }
        let ghost zeros = out@;
        append_bytes(&mut out, buf.as_slice());
        proof {
            lemma_be_leading_zeros(zeros, buf@);
            vstd::arithmetic::power::lemma_pow_increases(256, width as nat, len as nat);
        }
        Ok(out)
    } else {
        let cut = width - len;
        let mut j: usize = 0;
        while j < cut
            invariant
                j <= cut <= buf@.len(),
                buf@.len() == width,
                cut == width - len,
                be_value(buf@) == x@,
                forall|t: int| 0 <= t < j ==> buf@[t] == 0,
            decreases cut - j,
        {
            if buf[j] != 0 {
                proof {
                    let lead = buf@.subrange(0, cut as int);
                    let low = buf@.subrange(cut as int, buf@.len() as int);
                    assert(buf@ =~= lead + low);
                    lemma_be_concat(lead, low);
                    lemma_be_bounds(low);
                    lemma_be_bounds(lead);
                    if be_value(lead) == 0 {
                        lemma_be_zero_bytes(lead);
                        assert(lead[j as int] == buf@[j as int]);
                    }
                    vstd::arithmetic::power::lemma_pow_positive(256, len as nat);
                    assert(low.len() == len);
                    assert(be_value(lead) * pow(256, len as nat) >= pow(256, len as nat))
                        by (nonlinear_arith)
                        requires
                            be_value(lead) >= 1,
                            pow(256, len as nat) > 0,
                    ;
                }
                return Err(ApiError::OutputError);
            }
            j += 1;
        }
        let low = slice_subrange(buf.as_slice(), cut, width);
        let mut out: Vec<u8> = Vec::new();
        append_bytes(&mut out, low);
        proof {
            let lead = buf@.subrange(0, cut as int);
            assert(buf@ =~= lead + low@);
            lemma_be_leading_zeros(lead, low@);
            lemma_be_bounds(low@);
            assert(out@ =~= low@);
        }
        Ok(out)
    }
}

/// Writes a point as `x` then `y`, each coefficient in exactly
/// `modulus_len` big-endian bytes.
pub fn serialize_g2_point_in_fp2<const N: usize>(modulus_len: usize, point: &G2PointFp2<N>) -> (r:
    Result<Vec<u8>, ApiError>)
    requires
        width_ok(N),
    ensures
        ({
            let b = pow(256, modulus_len as nat);
            r is Ok <==> point.x.c0@ < b && point.x.c1@ < b && point.y.c0@ < b && point.y.c1@ < b
        }),
        r is Ok ==> ({
            let out = r->Ok_0@;
            let l = modulus_len as int;
            &&& out.len() == 4 * l
            &&& element(out, 0, l) == point.x.c0@
            &&& element(out, 1, l) == point.x.c1@
            &&& element(out, 2, l) == point.y.c0@
            &&& element(out, 3, l) == point.y.c1@
        }),
        r is Err ==> r->Err_0 == ApiError::OutputError,
{
    let coords = [point.x.c0, point.x.c1, point.y.c0, point.y.c1];
    let ghost l = modulus_len as int;
    let mut result: Vec<u8> = Vec::new();
    let mut i: usize = 0;
    while i < 4
        invariant
            width_ok(N),
            i <= 4,
            l == modulus_len as int,
            coords@ == seq![point.x.c0, point.x.c1, point.y.c0, point.y.c1],
            forall|t: int| 0 <= t < i ==> coords@[t]@ < pow(256, modulus_len as nat),
            result@.len() == i * l,
            forall|t: int| 0 <= t < i ==> #[trigger] element(result@, t, l) == coords@[t]@,
        decreases 4 - i,
    {
        match serialize_fp_fixed_len(modulus_len, &coords[i]) {
            Err(e) => {
                return Err(e);
            },
            Ok(bytes) => {
                let ghost prev = result@;
                append_bytes(&mut result, bytes.as_slice());
                proof {
                    assert((i + 1) * l == i * l + l) by (nonlinear_arith);
                    assert forall|t: int| 0 <= t < i + 1 implies #[trigger] element(result@, t, l)
                        == coords@[t]@ by {
                        assert(t * l >= 0 && (t + 1) * l == t * l + l) by (nonlinear_arith)
                            requires
                                t >= 0,
                                l >= 0,
                        ;
                        if t < i {
                            assert((t + 1) * l <= i * l) by (nonlinear_arith)
                                requires
                                    t + 1 <= i,
                                    l >= 0,
                            ;
                            assert(result@.subrange(t * l, (t + 1) * l) =~= prev.subrange(
                                t * l,
                                (t + 1) * l,
                            ));
                            assert(element(prev, t, l) == coords@[t]@);
                        } else {
                            assert(t == i);
                            assert(t * l == i * l);
                            assert(result@.subrange(t * l, (t + 1) * l) =~= bytes@);
                        }
                    }
                }
            },
        }
        i += 1;
    }
    Ok(result)
}

} // verus!
