use fixed_width_uint::g2::{
    create_fp2_extension, create_fp3_extension, decode_g2_point_from_xy_in_fp2,
    decode_g2_point_from_xy_in_fp3, serialize_g2_point_in_fp2, ApiError, Fp2, G2PointFp2,
};
use fixed_width_uint::uint::FixedWidthUint;

type U128 = FixedWidthUint<2>;

fn modulus() -> U128 {
    U128::from_u64(101)
}

#[test]
fn fp2_extension_is_read() {
    let bytes = [2u8, 0, 7, 0xaa];
    let (ext, rest) = create_fp2_extension(&bytes, 2, &modulus()).unwrap();
    assert_eq!(ext.non_residue.0, [7, 0]);
    assert_eq!(rest, &[0xaa]);
}

#[test]
fn fp2_extension_errors() {
    let m = modulus();
    assert_eq!(create_fp2_extension(&[], 2, &m).unwrap_err(), ApiError::InputError);
    assert_eq!(create_fp2_extension(&[3, 0, 7], 2, &m).unwrap_err(), ApiError::UnknownParameter);
    assert_eq!(create_fp2_extension(&[2, 0], 2, &m).unwrap_err(), ApiError::InputError);
    assert_eq!(create_fp2_extension(&[2, 0, 101], 2, &m).unwrap_err(), ApiError::InputError);
    assert_eq!(create_fp2_extension(&[2, 0, 0], 2, &m).unwrap_err(), ApiError::UnexpectedZero);
}

#[test]
fn fp3_extension_is_read() {
    let m = modulus();
    let (ext, rest) = create_fp3_extension(&[3, 5], 1, &m).unwrap();
    assert_eq!(ext.non_residue.0, [5, 0]);
    assert!(rest.is_empty());
    assert_eq!(create_fp3_extension(&[2, 5], 1, &m).unwrap_err(), ApiError::UnknownParameter);
}

#[test]
fn g2_point_in_fp2_is_decoded() {
    let bytes = [0u8, 1, 0, 2, 0, 3, 0, 4, 9];
    let (p, rest) = decode_g2_point_from_xy_in_fp2(&bytes, 2, &modulus()).unwrap();
    assert_eq!(p.x.c0.0, [1, 0]);
    assert_eq!(p.x.c1.0, [2, 0]);
    assert_eq!(p.y.c0.0, [3, 0]);
    assert_eq!(p.y.c1.0, [4, 0]);
    assert_eq!(rest, &[9]);
}

#[test]
fn g2_point_in_fp2_errors() {
    let m = modulus();
    assert_eq!(
        decode_g2_point_from_xy_in_fp2(&[0, 1, 0, 2, 0, 3, 0], 2, &m).unwrap_err(),
        ApiError::InputError
    );
    assert_eq!(
        decode_g2_point_from_xy_in_fp2(&[0, 1, 0, 2, 0, 200, 0, 4], 2, &m).unwrap_err(),
        ApiError::InputError
    );
    // an element wider than the integer type
    assert_eq!(decode_g2_point_from_xy_in_fp2(&[0u8; 68], 17, &m).unwrap_err(), ApiError::InputError);
}

#[test]
fn g2_point_in_fp3_is_decoded() {
    let bytes = [1u8, 2, 3, 4, 5, 6];
    let (p, rest) = decode_g2_point_from_xy_in_fp3(&bytes, 1, &modulus()).unwrap();
    assert_eq!(p.x.c0.0, [1, 0]);
    assert_eq!(p.x.c2.0, [3, 0]);
    assert_eq!(p.y.c0.0, [4, 0]);
    assert_eq!(p.y.c2.0, [6, 0]);
    assert!(rest.is_empty());
    assert_eq!(
        decode_g2_point_from_xy_in_fp3(&bytes[..5], 1, &modulus()).unwrap_err(),
        ApiError::InputError
    );
}

#[test]
fn g2_point_in_fp2_is_serialized() {
    let p = G2PointFp2 {
        x: Fp2 { c0: U128::from_u64(1), c1: U128::from_u64(0x0203) },
        y: Fp2 { c0: U128::from_u64(4), c1: U128::from_u64(5) },
    };
    let out = serialize_g2_point_in_fp2(3, &p).unwrap();
    assert_eq!(out, vec![0, 0, 1, 0, 2, 3, 0, 0, 4, 0, 0, 5]);
    let (back, rest) = decode_g2_point_from_xy_in_fp2(&out, 3, &U128::from_u64(0x10000)).unwrap();
    assert_eq!(back.x.c1.0, [0x0203, 0]);
    assert!(rest.is_empty());
    let wide = serialize_g2_point_in_fp2(20, &p).unwrap();
    assert_eq!(wide.len(), 80);
    assert_eq!(wide[19], 1);
}

#[test]
fn g2_point_too_wide_for_length() {
    let p = G2PointFp2 {
        x: Fp2 { c0: U128::from_u64(1), c1: U128::from_u64(0x0203) },
        y: Fp2 { c0: U128::from_u64(4), c1: U128::from_u64(5) },
    };
    assert_eq!(serialize_g2_point_in_fp2(1, &p).unwrap_err(), ApiError::OutputError);
}
