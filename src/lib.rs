//! Fixed-width unsigned multi-limb integers with exact overflow reporting,
//! long division, exponentiation and byte/text codecs, and the point codecs
//! of a pairing library built on them.
use vstd::prelude::*;

pub mod limbs;
pub mod uint;
pub mod division;
pub mod ops;
pub mod pow;
pub mod codec;
pub mod g2;
pub mod convert;
pub mod text;
pub mod laws;

verus! {

/// Width of prime-field elements.
pub type MaxFieldUint = uint::FixedWidthUint<16>;

/// Width of unreduced products of two field elements.
pub type MaxFieldSquaredUint = uint::FixedWidthUint<32>;

/// Width of group orders.
pub type MaxGroupSizeUint = uint::FixedWidthUint<16>;

/// Width of the loop parameters of the pairing.
pub type MaxLoopParametersUint = uint::FixedWidthUint<8>;

} // verus!
