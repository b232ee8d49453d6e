//! Compact representation of real magnitudes spanning arbitrary orders of
//! magnitude as a sign, a normalized mantissa and a decimal exponent, with
//! two textual encodings (an abbreviation-suffixed "Haven" form and a
//! `mantissa x10^exponent` scientific form), a parser for both, a rescale
//! engine that moves values across decade boundaries, and an arithmetic
//! algebra (addition and multiplication) over such values.
//!
//! The mantissa is held as a fixed-point decimal with six fractional digits,
//! so every operation here is exact integer arithmetic and fully verified.

pub mod arith;
pub mod digits;
pub mod notation;
pub mod big_number;

pub use crate::big_number::BigNumber;
pub use crate::big_number::BigVec2;
pub use crate::big_number::Scalar;
pub use crate::notation::AnalysisErrors;
pub use crate::notation::Format;
pub use crate::notation::Haven;
pub use crate::notation::Scientific;
