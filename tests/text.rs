use fixed_width_uint::text::FromHexError;
use fixed_width_uint::uint::FixedWidthUint;

type U256 = FixedWidthUint<4>;

#[test]
fn hex_round_trip() {
    let a = U256::from_limbs([0x0011223344556677, 0xdeadbeefcafebabe, 0x1234567890abcdef, 0]);
    let text = a.to_hex_string(false);
    assert_eq!(text, "1234567890abcdefdeadbeefcafebabe0011223344556677");
    let back = U256::from_hex_str(&text).unwrap();
    assert_eq!(back.0, a.0);
    let m = U256::max_value();
    assert_eq!(U256::from_hex_str(&m.to_hex_string(false)).unwrap().0, m.0);
}

#[test]
fn hex_of_zero() {
    assert_eq!(U256::zero().to_hex_string(false), "0");
    assert_eq!(U256::zero().to_hex_string(true), "0x0");
}

#[test]
fn hex_with_prefix() {
    assert_eq!(U256::from_u64(255).to_hex_string(true), "0xff");
    assert_eq!(U256::from_u64(0x1000).to_hex_string(false), "1000");
}

#[test]
fn hex_parse_odd_length_and_case() {
    assert_eq!(U256::from_hex_str("abc").unwrap().0, [0xabc, 0, 0, 0]);
    assert_eq!(U256::from_hex_str("ABCdef").unwrap().0, [0xabcdef, 0, 0, 0]);
    assert_eq!(U256::from_hex_str("").unwrap().0, [0; 4]);
    assert_eq!(U256::from_hex_str("0001").unwrap().0, [1, 0, 0, 0]);
}

#[test]
fn hex_parse_invalid_character() {
    assert_eq!(U256::from_hex_str("12g4").unwrap_err(), FromHexError::InvalidHexCharacter('g', 2));
    assert_eq!(U256::from_hex_str("0x12").unwrap_err(), FromHexError::InvalidHexCharacter('x', 1));
    assert_eq!(U256::from_hex_str("-1").unwrap_err(), FromHexError::InvalidHexCharacter('-', 0));
}

#[test]
fn hex_parse_too_long() {
    let long = "1".repeat(65);
    assert_eq!(U256::from_hex_str(&long).unwrap_err(), FromHexError::InvalidHexLength);
    let full = "f".repeat(64);
    assert_eq!(U256::from_hex_str(&full).unwrap().0, [u64::MAX; 4]);
}

#[test]
fn decimal_text() {
    assert_eq!(U256::zero().to_dec_string(), "0");
    assert_eq!(U256::from_u64(7).to_dec_string(), "7");
    assert_eq!(U256::from_limbs([0, 1, 0, 0]).to_dec_string(), "18446744073709551616");
    let x = U256::from_hex_str("deadbeefcafebabe1234567890abcdef0011223344556677").unwrap();
    assert_eq!(x.to_dec_string(), "5460065707088677537923460387337279996029946897852762777207");
    assert_eq!(U256::exp10(40).to_dec_string(), format!("1{}", "0".repeat(40)));
}
