//! Iota counts of whole metric units, read from `joto_constants`.

use vstd::prelude::*;

verus! {

/// Reads `joto_constants::length::u64::MICROMETER`, which that crate defines
/// as `1_000 * NANOMETER` with `NANOMETER = 9 * IOTA` and `IOTA = 1`.
#[verifier::external_body]
pub(crate) fn micrometer_u64() -> (r: u64)
    ensures
        r == 9_000,
{
    joto_constants::length::u64::MICROMETER
}

/// Reads `joto_constants::length::u64::MILLIMETER`, defined there as
/// `1_000 * MICROMETER`.
#[verifier::external_body]
pub(crate) fn millimeter_u64() -> (r: u64)
    ensures
        r == 9_000_000,
{
    joto_constants::length::u64::MILLIMETER
}

/// Reads `joto_constants::length::u64::METER`, defined there as
/// `1_000 * MILLIMETER`.
#[verifier::external_body]
pub(crate) fn meter_u64() -> (r: u64)
    ensures
        r == 9_000_000_000,
{
    joto_constants::length::u64::METER
}

/// Reads `joto_constants::length::i64::MICROMETER` (the same definition as
/// the unsigned one, in `i64`).
#[verifier::external_body]
pub(crate) fn micrometer_i64() -> (r: i64)
    ensures
        r == 9_000,
{
    joto_constants::length::i64::MICROMETER
}

/// Reads `joto_constants::length::i64::MILLIMETER`.
#[verifier::external_body]
pub(crate) fn millimeter_i64() -> (r: i64)
    ensures
        r == 9_000_000,
{
    joto_constants::length::i64::MILLIMETER
}

/// Reads `joto_constants::length::i64::METER`.
#[verifier::external_body]
pub(crate) fn meter_i64() -> (r: i64)
    ensures
        r == 9_000_000_000,
{
    joto_constants::length::i64::METER
}

} // verus!
