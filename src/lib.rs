//! Multi-precision natural arithmetic on little-endian limb vectors: single-limb
//! kernels, schoolbook and Karatsuba multiplication, squaring, Montgomery
//! reduction and windowed Montgomery exponentiation, each with a proved contract
//! over the value of the limbs.

use vstd::prelude::*;

pub mod limb;
pub mod value;
pub mod kernels;
pub mod addsub;
pub mod mul;
pub mod redc;
pub mod exponent;
pub mod montgomery;
pub mod modpow;
pub mod mtgy;

verus! {

} // verus!
