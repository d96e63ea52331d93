//! Utilities for real-time audio processing.
//!
//! The crate provides
//! - conversions between decibels and linear gain through a lookup table
//!   ([`decibels`]), and
//! - smooth parameter transitions with a one-pole filter that does not drift
//!   ([`tiny_smoother`]).
//!
//! Binary floating-point numbers are held as bit patterns ([`single`],
//! [`double`]) and computed with in integer arithmetic ([`rounding`],
//! [`arith`]), so that every result is specified and proved down to the last
//! bit, against the model of the formats in [`pattern`].
//!
//! Nothing here allocates, blocks or panics.

pub mod accuracy;
pub mod arith;
pub mod decibels;
pub mod double;
pub mod pattern;
pub mod rounding;
pub mod single;
pub mod tiny_smoother;

pub use decibels::{db_to_volt, volt_to_db, DbToVolt, VoltToDb};
pub use double::Double;
pub use single::Single;
pub use tiny_smoother::{SmootherError, TinySmoother};
