//! Exact physical measurement values.
//!
//! [`Length`] is a strictly positive size and [`Offset`] a signed
//! displacement, both in joto iotas (one ninth of a nanometer). [`Angle`] is
//! a nonnegative angular magnitude and [`AngularOffset`] a signed one, both
//! in microarcseconds.

pub mod angle;
pub mod length;
mod units;

pub use angle::{Angle, AngularOffset};
pub use length::{Length, Offset};
