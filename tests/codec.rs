use fixed_width_uint::uint::FixedWidthUint;

type U256 = FixedWidthUint<4>;

fn u(limbs: [u64; 4]) -> U256 {
    U256::from_limbs(limbs)
}

#[test]
fn big_endian_round_trip() {
    let a = u([0x0011223344556677, 0x8899aabbccddeeff, 0x0123456789abcdef, 0xfedcba9876543210]);
    let mut bytes = [0u8; 32];
    a.to_big_endian(&mut bytes);
    assert_eq!(bytes[0], 0xfe);
    assert_eq!(bytes[7], 0x10);
    assert_eq!(bytes[31], 0x77);
    let b = U256::from_big_endian(&bytes);
    assert_eq!(b.0, a.0);
}

#[test]
fn little_endian_round_trip() {
    let a = u([0x0011223344556677, 0x8899aabbccddeeff, 0x0123456789abcdef, 0xfedcba9876543210]);
    let mut bytes = [0u8; 32];
    a.to_little_endian(&mut bytes);
    assert_eq!(bytes[0], 0x77);
    assert_eq!(bytes[31], 0xfe);
    let b = U256::from_little_endian(&bytes);
    assert_eq!(b.0, a.0);
}

#[test]
fn short_byte_strings_pad_with_zero() {
    let a = U256::from_big_endian(&[0x01, 0x02, 0x03]);
    assert_eq!(a.0, [0x010203, 0, 0, 0]);
    let b = U256::from_little_endian(&[0x01, 0x02, 0x03]);
    assert_eq!(b.0, [0x030201, 0, 0, 0]);
    let nine = [0xffu8, 0, 0, 0, 0, 0, 0, 0, 1];
    assert_eq!(U256::from_big_endian(&nine).0, [1, 0xff, 0, 0]);
    assert!(U256::from_big_endian(&[]).is_zero());
}

#[test]
fn byte_and_bit_access() {
    let a = u([0x0011223344556677, 0x8899aabbccddeeff, 0, 1]);
    assert_eq!(a.byte(0), 0x77);
    assert_eq!(a.byte(7), 0x00);
    assert_eq!(a.byte(8), 0xff);
    assert_eq!(a.byte(24), 1);
    assert_eq!(a.byte(31), 0);
    assert!(a.bit(0));
    assert!(!a.bit(3));
    assert!(a.bit(192));
    assert!(!a.bit(255));
}

#[test]
fn primitive_conversions() {
    let a = U256::from_u128(0x0123456789abcdef_fedcba9876543210u128);
    assert_eq!(a.0, [0xfedcba9876543210, 0x0123456789abcdef, 0, 0]);
    assert_eq!(a.low_u128(), 0x0123456789abcdef_fedcba9876543210u128);
    assert_eq!(a.as_u128(), 0x0123456789abcdef_fedcba9876543210u128);
    assert_eq!(a.low_u64(), 0xfedcba9876543210);
    assert_eq!(a.low_u32(), 0x76543210);
    let s = U256::from_u64(77);
    assert_eq!(s.as_u64(), 77);
    assert_eq!(s.as_u32(), 77);
    assert_eq!(s.as_usize(), 77);
    assert_eq!(U256::from_i64(5).0, [5, 0, 0, 0]);
    assert_eq!(U256::from_u64_slice(&[1, 2]).0, [1, 2, 0, 0]);
    assert_eq!(U256::from_u64_slice(&[1, 2, 3, 4, 5]).0, [1, 2, 3, 4]);
}
