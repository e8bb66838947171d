use fixed_width_uint::uint::FixedWidthUint;
use fixed_width_uint::{MaxFieldSquaredUint, MaxFieldUint, MaxLoopParametersUint};

#[test]
fn field_width_division() {
    // (2^1000 + 12345) / (2^500 + 7)
    let a = MaxFieldUint::one().shl(1000).add(MaxFieldUint::from_u64(12345));
    let b = MaxFieldUint::one().shl(500).add(MaxFieldUint::from_u64(7));
    let (q, r) = a.div_mod(b);
    let mut expected_q = [u64::MAX; 16];
    expected_q[0] = 0xfffffffffffffff9;
    expected_q[7] = 0xfffffffffffff;
    for limb in expected_q.iter_mut().skip(8) {
        *limb = 0;
    }
    assert_eq!(q.0, expected_q);
    let mut expected_r = [0u64; 16];
    expected_r[0] = 0x306a;
    assert_eq!(r.0, expected_r);
}

#[test]
fn widths_of_the_families() {
    assert_eq!(MaxFieldUint::max_value().bits(), 1024);
    assert_eq!(MaxFieldSquaredUint::max_value().bits(), 2048);
    assert_eq!(MaxLoopParametersUint::one().shl(511).bits(), 512);
    let x: FixedWidthUint<1> = FixedWidthUint::from_u64(250);
    assert_eq!(x.div_mod(FixedWidthUint::from_u64(7)).1 .0, [5]);
}
