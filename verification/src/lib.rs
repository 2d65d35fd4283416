//! Fixed-point decimal numbers with explicit rounding and overflow control.
//!
//! A value is a signed integer mantissa that stands for `mantissa / 10^P`.
//! [`FixedPoint64`] keeps the mantissa in 64 bits and multiplies and divides
//! in 128 bits; [`FixedPoint128`] keeps it in 128 bits and multiplies and
//! divides in the 256 bits of [`I256`]. No operation wraps: each returns the
//! exact or the rounded result, or says that there is none.
//!
//! - `arith`: the rounded quotients and powers of ten that the contracts are
//!   stated with, and what holds of them
//! - `i256`: the signed 256-bit integer
//! - `fixed64`, `fixed128`: the two fixed-point types
//! - `text`: reading and writing decimal text
//! - `errors`: why an operation or a conversion gave no value
pub mod arith;
pub mod errors;
pub mod fixed128;
pub mod fixed64;
pub mod i256;
pub mod text;

pub use arith::RoundMode;
pub use errors::ArithmeticError;
pub use errors::ConvertError;
pub use fixed128::FixedPoint128;
pub use fixed64::FixedPoint64;
pub use i256::I256;
pub use i256::U256;
