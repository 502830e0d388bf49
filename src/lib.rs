//! Fixed-width unsigned integers stored as little-endian 64-bit limbs: the
//! multi-precision division engine and the conversions to and from native
//! integer types.

pub mod limbs;
pub mod div;
pub mod uint;
pub mod from;
pub mod float;

pub use div::{div_3by2, div_rem, divrem_nby1, divrem_nbym};
pub use float::F64Bits;
pub use from::{FromUintError, ToFieldError, ToUintError, UintTryFrom, UintTryTo};
pub use uint::Uint;
