//! Exact decimal arithmetic for the roots of decimal numbers.
//!
//! A [`decimal::Decimal`] is an integer of any size and a scale: the number
//! `unscaled * 10^(-scale)`. [`root::root`] refines a first approximation of
//! an n-th root by Newton's method and rounds it to the precision that the
//! argument itself implies. The modules below it hold what the iteration
//! stands on: integers as sequences of base-2^32 digits, whose arithmetic
//! `num_bigint` carries out; decimals, whose division and rounding
//! `bigdecimal` carries out; a growing table of powers of ten; and the
//! division by a power of ten that rounds to the nearest integer.

pub mod arithmetic;
pub mod decimal;
pub mod error;
pub mod integer;
pub mod magnitude;
pub mod order;
pub mod power_of_ten;
pub mod root;
pub mod rounding;

pub use crate::error::BigDecimalMathError;
pub use crate::root::{root, BigDecimalMathResult};
