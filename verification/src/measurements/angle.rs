//! Exact angular magnitudes and signed displacements.

use vstd::prelude::*;

use super::length::unsigned_abs_i64;

verus! {

const MICROARCSECONDS_PER_ARCSECOND_U64: u64 = 1_000_000;

const MICROARCSECONDS_PER_ARCMINUTE_U64: u64 = 60_000_000;

const MICROARCSECONDS_PER_DEGREE_U64: u64 = 3_600_000_000;

const MICROARCSECONDS_PER_ARCSECOND_I64: i64 = 1_000_000;

const MICROARCSECONDS_PER_ARCMINUTE_I64: i64 = 60_000_000;

const MICROARCSECONDS_PER_DEGREE_I64: i64 = 3_600_000_000;

/// Microarcseconds in one arcsecond.
pub open spec fn arcsecond_units() -> int {
    1_000_000
}

/// Microarcseconds in one arcminute: sixty arcseconds.
pub open spec fn arcminute_units() -> int {
    60 * arcsecond_units()
}

/// Microarcseconds in one degree: sixty arcminutes.
pub open spec fn degree_units() -> int {
    60 * arcminute_units()
}

/// `count` whole units of `unit` microarcseconds, when that fits in `u64`.
pub open spec fn scaled_angle(count: int, unit: int) -> Option<int> {
    if 0 <= count * unit <= u64::MAX {
        Some(count * unit)
    } else {
        None
    }
}

/// `count` whole units of `unit` microarcseconds, when that fits in `i64`.
pub open spec fn scaled_angular_offset(count: int, unit: int) -> Option<int> {
    if i64::MIN <= count * unit <= i64::MAX {
        Some(count * unit)
    } else {
        None
    }
}

/// An exact, nonnegative angular magnitude stored in microarcseconds.
///
/// Angles are not normalized: one turn and two turns stay distinct.
#[derive(Copy, Clone, Debug, Eq, Hash, Ord, PartialEq, PartialOrd, Structural)]
pub struct Angle(u64);

impl View for Angle {
    type V = int;

    closed spec fn view(&self) -> int {
        self.0 as int
    }
}

impl Default for Angle {
    fn default() -> (r: Self)
        ensures
            r@ == 0,
    {
        Angle(0)
    }
}

impl Angle {
    /// The zero angle.
    pub fn zero() -> (r: Self)
        ensures
            r@ == 0,
    {
        Angle(0)
    }

    /// An angle always holds a count representable in `u64`.
    pub proof fn lemma_in_domain(self)
        ensures
            0 <= self@ <= u64::MAX,
    {
    }

    /// Creates an angle from an exact microarcsecond count.
    pub fn from_microarcseconds(value: u64) -> (r: Self)
        ensures
            r@ == value,
    {
        Angle(value)
    }

    /// Creates an exact whole-arcsecond angle.
    ///
    /// Returns `None` when conversion to microarcseconds overflows.
    pub fn arcseconds(value: u64) -> (r: Option<Self>)
        ensures
            r is Some <==> scaled_angle(value as int, arcsecond_units()) is Some,
            r matches Some(a) ==> a@ == value * arcsecond_units(),
    {
        match value.checked_mul(MICROARCSECONDS_PER_ARCSECOND_U64) {
            Some(v) => Some(Angle(v)),
            None => None,
        }
    }

    /// Creates an exact whole-arcminute angle.
    ///
    /// Returns `None` when conversion to microarcseconds overflows.
    pub fn arcminutes(value: u64) -> (r: Option<Self>)
        ensures
            r is Some <==> scaled_angle(value as int, arcminute_units()) is Some,
            r matches Some(a) ==> a@ == value * arcminute_units(),
    {
        match value.checked_mul(MICROARCSECONDS_PER_ARCMINUTE_U64) {
            Some(v) => Some(Angle(v)),
            None => None,
        }
    }

    /// Creates an exact whole-degree angle.
    ///
    /// Returns `None` when conversion to microarcseconds overflows.
    pub fn degrees(value: u64) -> (r: Option<Self>)
        ensures
            r is Some <==> scaled_angle(value as int, degree_units()) is Some,
            r matches Some(a) ==> a@ == value * degree_units(),
    {
        match value.checked_mul(MICROARCSECONDS_PER_DEGREE_U64) {
            Some(v) => Some(Angle(v)),
            None => None,
        }
    }

    /// Returns the exact underlying microarcsecond count.
    pub fn microarcseconds(self) -> (r: u64)
        ensures
            r == self@,
    {
        self.0
    }

    /// Adds two angles without overflowing the exact representation.
    pub fn checked_add(self, other: Self) -> (r: Option<Self>)
        ensures
            r is Some <==> self@ + other@ <= u64::MAX,
            r matches Some(a) ==> a@ == self@ + other@,
    {
        match self.0.checked_add(other.0) {
            Some(v) => Some(Angle(v)),
            None => None,
        }
    }

    /// Scales an angle by an integer without overflowing.
    pub fn checked_mul(self, factor: u64) -> (r: Option<Self>)
        ensures
            r is Some <==> self@ * factor <= u64::MAX,
            r matches Some(a) ==> a@ == self@ * factor,
    {
        match self.0.checked_mul(factor) {
            Some(v) => Some(Angle(v)),
            None => None,
        }
    }

    /// Converts this angle to a nonnegative [`AngularOffset`] when
    /// representable.
    pub fn checked_offset(self) -> (r: Option<AngularOffset>)
        ensures
            r is Some <==> self@ <= i64::MAX,
            r matches Some(o) ==> o@ == self@,
    {
        if self.0 <= (i64::MAX as u64) {
            Some(AngularOffset::from_microarcseconds(self.0 as i64))
        } else {
            None
        }
    }
}

/// An exact signed angular displacement stored in microarcseconds.
///
/// Angular offsets are not wrapped or normalized.
#[derive(Copy, Clone, Debug, Eq, Hash, Ord, PartialEq, PartialOrd, Structural)]
pub struct AngularOffset(i64);

impl View for AngularOffset {
    type V = int;

    closed spec fn view(&self) -> int {
        self.0 as int
    }
}

impl Default for AngularOffset {
    fn default() -> (r: Self)
        ensures
            r@ == 0,
    {
        AngularOffset(0)
    }
}

impl AngularOffset {
    /// The zero angular displacement.
    pub fn zero() -> (r: Self)
        ensures
            r@ == 0,
    {
        AngularOffset(0)
    }

    /// An angular offset always holds a count representable in `i64`.
    pub proof fn lemma_in_domain(self)
        ensures
            i64::MIN <= self@ <= i64::MAX,
    {
    }

    /// Creates an angular offset from an exact signed microarcsecond count.
    pub fn from_microarcseconds(value: i64) -> (r: Self)
        ensures
            r@ == value,
    {
        AngularOffset(value)
    }

    /// Creates an exact whole-arcsecond angular offset.
    ///
    /// Returns `None` when conversion to microarcseconds overflows.
    pub fn arcseconds(value: i64) -> (r: Option<Self>)
        ensures
            r is Some <==> scaled_angular_offset(value as int, arcsecond_units()) is Some,
            r matches Some(a) ==> a@ == value * arcsecond_units(),
    {
        match value.checked_mul(MICROARCSECONDS_PER_ARCSECOND_I64) {
            Some(v) => Some(AngularOffset(v)),
            None => None,
        }
    }

    /// Creates an exact whole-arcminute angular offset.
    ///
    /// Returns `None` when conversion to microarcseconds overflows.
    pub fn arcminutes(value: i64) -> (r: Option<Self>)
        ensures
            r is Some <==> scaled_angular_offset(value as int, arcminute_units()) is Some,
            r matches Some(a) ==> a@ == value * arcminute_units(),
    {
        match value.checked_mul(MICROARCSECONDS_PER_ARCMINUTE_I64) {
            Some(v) => Some(AngularOffset(v)),
            None => None,
        }
    }

    /// Creates an exact whole-degree angular offset.
    ///
    /// Returns `None` when conversion to microarcseconds overflows.
    pub fn degrees(value: i64) -> (r: Option<Self>)
        ensures
            r is Some <==> scaled_angular_offset(value as int, degree_units()) is Some,
            r matches Some(a) ==> a@ == value * degree_units(),
    {
        match value.checked_mul(MICROARCSECONDS_PER_DEGREE_I64) {
            Some(v) => Some(AngularOffset(v)),
            None => None,
        }
    }

    /// Returns the exact underlying signed microarcsecond count.
    pub fn microarcseconds(self) -> (r: i64)
        ensures
            r == self@,
    {
        self.0
    }

    /// Adds two angular offsets without overflowing.
    pub fn checked_add(self, other: Self) -> (r: Option<Self>)
        ensures
            r is Some <==> i64::MIN <= self@ + other@ <= i64::MAX,
            r matches Some(a) ==> a@ == self@ + other@,
    {
        match self.0.checked_add(other.0) {
            Some(v) => Some(AngularOffset(v)),
            None => None,
        }
    }

    /// Subtracts two angular offsets without overflowing.
    pub fn checked_sub(self, other: Self) -> (r: Option<Self>)
        ensures
            r is Some <==> i64::MIN <= self@ - other@ <= i64::MAX,
            r matches Some(a) ==> a@ == self@ - other@,
    {
        match self.0.checked_sub(other.0) {
            Some(v) => Some(AngularOffset(v)),
            None => None,
        }
    }

    /// Negates this angular offset without overflowing.
    pub fn checked_neg(self) -> (r: Option<Self>)
        ensures
            r is Some <==> self@ != i64::MIN,
            r matches Some(a) ==> a@ == -self@,
    {
        if self.0 == i64::MIN {
            None
        } else {
            Some(AngularOffset(-self.0))
        }
    }

    /// Returns the nonnegative magnitude as an [`Angle`].
    pub fn magnitude(self) -> (r: Angle)
        ensures
            r@ == vstd::math::abs(self@),
    {
        Angle::from_microarcseconds(unsigned_abs_i64(self.0))
    }
}

/// An angular offset and its negation have the same magnitude.
pub proof fn lemma_angular_magnitude_ignores_direction(o: AngularOffset, negated: AngularOffset)
    requires
        negated@ == -o@,
    ensures
        vstd::math::abs(o@) == vstd::math::abs(negated@),
{
}

} // verus!
