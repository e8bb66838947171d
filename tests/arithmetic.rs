use fixed_width_uint::uint::FixedWidthUint;
use std::cmp::Ordering;

type U256 = FixedWidthUint<4>;

fn u(limbs: [u64; 4]) -> U256 {
    U256::from_limbs(limbs)
}

fn n(x: u64) -> U256 {
    U256::from_u64(x)
}

#[test]
fn add_without_overflow() {
    let (r, o) = n(u64::MAX).overflowing_add(n(1));
    assert!(!o);
    assert_eq!(r.0, [0, 1, 0, 0]);
    assert_eq!(n(u64::MAX).add(n(1)).0, [0, 1, 0, 0]);
    assert_eq!(n(u64::MAX).checked_add(n(1)).unwrap().0, [0, 1, 0, 0]);
}

#[test]
fn add_with_overflow() {
    let (r, o) = U256::max_value().overflowing_add(n(2));
    assert!(o);
    assert_eq!(r.0, [1, 0, 0, 0]);
    assert!(U256::max_value().checked_add(U256::one()).is_none());
    assert_eq!(U256::max_value().saturating_add(n(5)).0, [u64::MAX; 4]);
}

#[test]
fn sub_with_borrow() {
    let (r, o) = u([0, 1, 0, 0]).overflowing_sub(n(1));
    assert!(!o);
    assert_eq!(r.0, [u64::MAX, 0, 0, 0]);
    let (w, o2) = n(0).overflowing_sub(n(1));
    assert!(o2);
    assert_eq!(w.0, [u64::MAX; 4]);
    assert!(n(3).checked_sub(n(4)).is_none());
    assert_eq!(n(3).saturating_sub(n(4)).0, [0; 4]);
    assert_eq!(n(10).sub(n(4)).0, [6, 0, 0, 0]);
}

#[test]
fn multiplication() {
    // 12345678901234567890123456789 * 98765432109876543210
    let a = U256::from_u128(12345678901234567890123456789u128);
    let b = U256::from_u128(98765432109876543210u128);
    let expected = [0x368a0b0800365332, 0x0fc9ba9522450a56, 0xd5947b99, 0];
    let (p, o) = a.overflowing_mul(b);
    assert!(!o);
    assert_eq!(p.0, expected);
    assert_eq!(a.mul(b).0, expected);
    assert_eq!(a.adaptive_multiplication(b).0, expected);
    assert_eq!(a.checked_mul(b).unwrap().0, expected);
}

#[test]
fn multiplication_overflow() {
    let a = u([0, 0, 1, 0]);
    let (p, o) = a.overflowing_mul(a);
    assert!(o);
    assert_eq!(p.0, [0; 4]);
    assert!(a.checked_mul(a).is_none());
    assert_eq!(a.saturating_mul(a).0, [u64::MAX; 4]);
}

#[test]
fn division_by_single_limb() {
    let a = u([5, 0, 0, 1]);
    let (q, r) = a.div_mod(n(2));
    assert_eq!(q.0, [2, 0, 0x8000_0000_0000_0000, 0]);
    assert_eq!(r.0, [1, 0, 0, 0]);
}

#[test]
fn knuth_division_with_add_back() {
    // 4-limb dividend over a 3-limb divisor whose top limb has a leading zero
    // bit: normalization shifts by one and the trial digit needs the divisor
    // added back once. Expected values from an independent long division.
    let a = u([0, 0x11db82eb68818d01, 0x723371856b4fb34d, 0xb03eb8caeb190c43]);
    let b = u([0xffffffffffffffff, 0xe5804429ce9633f6, 0x79d5a43b3b9a6be0, 0]);
    let (q, r) = a.div_mod(b);
    assert_eq!(q.0, [0x7253edc618187993, 1, 0, 0]);
    assert_eq!(r.0, [0x7253edc618187993, 0xac564d46c289f72d, 0x79d5a43b3b9a6be0, 0]);
    assert_eq!(a.div(b).0, q.0);
    assert_eq!(a.rem(b).0, r.0);
}

#[test]
fn knuth_division_general_case() {
    // 3^150 divided by 7^60 + 12345.
    let a = u([0x16e692fb63c6e219, 0x114c01ffbdcf60cc, 0x1d6864a331b45ae7, 0x359ba2b98ca1]);
    let b = u([0x9d992bd4e6cfc0da, 0x22a2845e59b91558, 0x15b9a481b04, 0]);
    let (q, r) = a.div_mod(b);
    assert_eq!(q.0, [0x7b168b958ae2b8f2, 0x27, 0, 0]);
    assert_eq!(r.0, [0x18dcbf941c51e405, 0xa9e1ba9d2a86a9f1, 0xc8aaed7ffa, 0]);
    let back = q.mul(b).add(r);
    assert_eq!(back.0, a.0);
    assert_eq!(r.compare(&b), Ordering::Less);
}

#[test]
fn division_by_larger_value() {
    let (q, r) = n(7).div_mod(u([0, 1, 0, 0]));
    assert_eq!(q.0, [0; 4]);
    assert_eq!(r.0, [7, 0, 0, 0]);
}

#[test]
fn division_identity_on_values() {
    let a = u([123, 456, 789, 1011]);
    let b = u([99, 1, 0, 0]);
    let (q, r) = a.div_mod(b);
    assert_eq!(q.mul(b).add(r).0, a.0);
    assert_eq!(r.compare(&b), Ordering::Less);
}

#[test]
fn checked_division_by_zero() {
    assert!(n(5).checked_div(n(0)).is_none());
    assert!(n(5).checked_rem(n(0)).is_none());
    assert_eq!(n(17).checked_div(n(5)).unwrap().0, [3, 0, 0, 0]);
    assert_eq!(n(17).checked_rem(n(5)).unwrap().0, [2, 0, 0, 0]);
}

#[test]
fn power_values() {
    assert_eq!(n(2).pow(n(10)).0, [1024, 0, 0, 0]);
    assert_eq!(n(0).pow(n(0)).0, [1, 0, 0, 0]);
    assert_eq!(u([1, 2, 3, 4]).pow(n(0)).0, [1, 0, 0, 0]);
    assert_eq!(n(0).pow(n(5)).0, [0; 4]);
    assert_eq!(n(3).pow(n(5)).0, [243, 0, 0, 0]);
    assert_eq!(n(2).pow(n(200)).0, [0, 0, 0, 1 << 8]);
}

#[test]
fn power_with_overflow_flag() {
    let (r, o) = n(2).overflowing_pow(n(256));
    assert!(o);
    assert_eq!(r.0, [0; 4]);
    let (r2, o2) = n(2).overflowing_pow(n(255));
    assert!(!o2);
    assert_eq!(r2.0, [0, 0, 0, 1 << 63]);
    let (r3, o3) = n(0).overflowing_pow(n(0));
    assert!(!o3);
    assert_eq!(r3.0, [1, 0, 0, 0]);
}

#[test]
fn powers_of_ten() {
    assert_eq!(U256::exp10(0).0, [1, 0, 0, 0]);
    assert_eq!(U256::exp10(19).0, [10_000_000_000_000_000_000, 0, 0, 0]);
    assert_eq!(U256::exp10(40).0, [0xb9f5610000000000, 0x6329f1c35ca4bfab, 0x1d, 0]);
}

#[test]
fn shift_round_trip() {
    let a = u([0x0123456789abcdef, 0xfedcba9876543210, 0, 0]);
    assert_eq!(a.leading_zeros(), 128);
    for s in [0u32, 1, 63, 64, 65, 100, 127] {
        assert_eq!(a.shl(s).shr(s).0, a.0);
    }
    assert_eq!(a.shl(64).0, [0, 0x0123456789abcdef, 0xfedcba9876543210, 0]);
    assert_eq!(a.shl(4).0, [0x123456789abcdef0, 0xedcba98765432100, 0xf, 0]);
    assert_eq!(a.shr(4).0, [0x00123456789abcde, 0x0fedcba987654321, 0, 0]);
}

#[test]
fn shift_full_width_is_zero() {
    let a = U256::max_value();
    assert_eq!(a.shl(256).0, [0; 4]);
    assert_eq!(a.shr(256).0, [0; 4]);
    assert_eq!(a.shl(1000).0, [0; 4]);
    assert_eq!(a.shr(255).0, [1, 0, 0, 0]);
    assert_eq!(a.shl(255).0, [0, 0, 0, 1 << 63]);
}

#[test]
fn bitwise_operations() {
    let a = u([0b1100, 0xff00, 0, u64::MAX]);
    let b = u([0b1010, 0x0ff0, 1, 0]);
    assert_eq!(a.bitand(b).0, [0b1000, 0x0f00, 0, 0]);
    assert_eq!(a.bitor(b).0, [0b1110, 0xfff0, 1, u64::MAX]);
    assert_eq!(a.bitxor(b).0, [0b0110, 0xf0f0, 1, u64::MAX]);
    assert_eq!(n(0).not().0, [u64::MAX; 4]);
    assert_eq!(a.not().0, [!0b1100u64, !0xff00u64, u64::MAX, 0]);
}

#[test]
fn comparison_and_equality() {
    assert_eq!(u([5, 0, 0, 1]).compare(&u([9, 0, 0, 0])), Ordering::Greater);
    assert_eq!(u([5, 0, 0, 1]).compare(&u([6, 0, 0, 1])), Ordering::Less);
    assert_eq!(u([5, 0, 0, 1]).compare(&u([5, 0, 0, 1])), Ordering::Equal);
    assert!(u([5, 0, 0, 1]) == u([5, 0, 0, 1]));
    assert!(u([5, 0, 0, 1]) != u([5, 0, 0, 2]));
    assert!(U256::default().is_zero());
}

#[test]
fn bit_counts() {
    assert_eq!(n(0).bits(), 0);
    assert_eq!(n(1).bits(), 1);
    assert_eq!(u([0, 0, 1, 0]).bits(), 129);
    assert_eq!(U256::max_value().bits(), 256);
    assert_eq!(n(0).leading_zeros(), 256);
    assert_eq!(u([0, 0, 0, 1 << 62]).leading_zeros(), 1);
    assert_eq!(u([0, 7, 0, 0]).num_words(), 2);
}

#[test]
fn negation() {
    let (z, o) = n(0).overflowing_neg();
    assert!(!o);
    assert!(z.is_zero());
    let (x, o2) = n(1).overflowing_neg();
    assert!(o2);
    assert_eq!(x.0, [u64::MAX - 1, u64::MAX, u64::MAX, u64::MAX]);
    assert!(n(1).checked_neg().is_none());
    assert!(n(0).checked_neg().unwrap().is_zero());
}

#[test]
fn multiplication_by_limb() {
    let a = u([u64::MAX, u64::MAX, 0, 0]);
    let (p, carry) = a.overflowing_mul_u64(2);
    assert_eq!(carry, 0);
    assert_eq!(p.0, [u64::MAX - 1, u64::MAX, 1, 0]);
    assert_eq!(a.mul_u64(2).0, p.0);
    let (w, c2) = U256::max_value().overflowing_mul_u64(3);
    assert_eq!(c2, 2);
    assert_eq!(w.0, [u64::MAX - 2, u64::MAX, u64::MAX, u64::MAX]);
}

#[test]
fn trailing_zero_bits() {
    assert_eq!(n(0).trailing_zeros(), 256);
    assert_eq!(n(1).trailing_zeros(), 0);
    assert_eq!(n(8).trailing_zeros(), 3);
    assert_eq!(u([0, 0, 1 << 5, 0]).trailing_zeros(), 133);
}

#[test]
fn ordering_operators() {
    assert!(n(3) < n(4));
    assert!(u([0, 1, 0, 0]) > n(u64::MAX));
    assert!(n(4) >= n(4));
    assert_eq!(n(9).partial_cmp(&n(2)), Some(Ordering::Greater));
}
