//! Exact positive lengths and signed linear displacements.

use vstd::prelude::*;

use super::units::{meter_i64, meter_u64, micrometer_i64, micrometer_u64, millimeter_i64, millimeter_u64};

verus! {

/// Iotas in one micrometer (an iota is one ninth of a nanometer).
pub open spec fn micrometer_iotas() -> int {
    9_000
}

/// Iotas in one millimeter.
pub open spec fn millimeter_iotas() -> int {
    9_000_000
}

/// Iotas in one meter.
pub open spec fn meter_iotas() -> int {
    9_000_000_000
}

/// The length of `count` whole units of `unit` iotas each, when that count
/// of iotas is a valid length.
pub open spec fn scaled_length(count: int, unit: int) -> Option<int> {
    if 0 < count * unit <= u64::MAX {
        Some(count * unit)
    } else {
        None
    }
}

/// The offset of `count` whole units of `unit` iotas each, when it fits in
/// the signed representation.
pub open spec fn scaled_offset(count: int, unit: int) -> Option<int> {
    if i64::MIN <= count * unit <= i64::MAX {
        Some(count * unit)
    } else {
        None
    }
}

/// An exact, strictly positive physical size stored in joto iotas.
///
/// Zero is excluded; use [`Offset`] for signed differences or coordinates.
#[derive(Copy, Clone, Debug, Eq, Hash, Ord, PartialEq, PartialOrd, Structural)]
pub struct Length(u64);

impl View for Length {
    type V = int;

    closed spec fn view(&self) -> int {
        self.0 as int
    }
}

impl Length {
    #[verifier::type_invariant]
    spec fn positive(self) -> bool {
        self.0 > 0
    }

    /// Creates a length from an exact iota count.
    ///
    /// Returns `None` when `value` is zero.
    pub fn from_iota(value: u64) -> (r: Option<Self>)
        ensures
            r is Some <==> value > 0,
            r matches Some(l) ==> l@ == value,
    {
        if value == 0 {
            None
        } else {
            Some(Length(value))
        }
    }

    /// Creates an exact whole-millimeter length.
    ///
    /// Returns `None` for zero or when conversion to iotas overflows.
    pub fn millimeters(value: u64) -> (r: Option<Self>)
        ensures
            r is Some <==> scaled_length(value as int, millimeter_iotas()) is Some,
            r matches Some(l) ==> l@ == value * millimeter_iotas(),
    {
        match value.checked_mul(millimeter_u64()) {
            Some(v) => Self::from_iota(v),
            None => None,
        }
    }

    /// Creates an exact positive whole-micrometer length.
    ///
    /// Returns `None` for zero or when conversion to iotas overflows.
    pub fn micrometers(value: u64) -> (r: Option<Self>)
        ensures
            r is Some <==> scaled_length(value as int, micrometer_iotas()) is Some,
            r matches Some(l) ==> l@ == value * micrometer_iotas(),
    {
        match value.checked_mul(micrometer_u64()) {
            Some(v) => Self::from_iota(v),
            None => None,
        }
    }

    /// Creates an exact whole-meter length.
    ///
    /// Returns `None` for zero or when conversion to iotas overflows.
    pub fn meters(value: u64) -> (r: Option<Self>)
        ensures
            r is Some <==> scaled_length(value as int, meter_iotas()) is Some,
            r matches Some(l) ==> l@ == value * meter_iotas(),
    {
        match value.checked_mul(meter_u64()) {
            Some(v) => Self::from_iota(v),
            None => None,
        }
    }

    /// Returns the exact underlying iota count.
    pub fn iota(self) -> (r: u64)
        ensures
            r == self@,
            r > 0,
    {
        proof {
            use_type_invariant(&self);
        }
        self.0
    }

    /// Adds two lengths without overflowing the exact representation.
    pub fn checked_add(self, other: Self) -> (r: Option<Self>)
        ensures
            r is Some <==> self@ + other@ <= u64::MAX,
            r matches Some(l) ==> l@ == self@ + other@,
    {
        let a = self.iota();
        let b = other.iota();
        match a.checked_add(b) {
            Some(v) => Self::from_iota(v),
            None => None,
        }
    }

    /// Scales a length by a positive integer without overflowing.
    ///
    /// Returns `None` when `factor` is zero because zero is not a length.
    pub fn checked_mul(self, factor: u64) -> (r: Option<Self>)
        ensures
            r is Some <==> factor > 0 && self@ * factor <= u64::MAX,
            r matches Some(l) ==> l@ == self@ * factor,
    {
        let a = self.iota();
        match a.checked_mul(factor) {
            Some(v) => {
                proof {
                    if factor > 0 {
                        assert(a * factor >= a) by (nonlinear_arith)
                            requires
                                factor > 0,
                                a > 0,
                        ;
                    } else {
                        assert(a * factor == 0) by (nonlinear_arith)
                            requires
                                factor == 0,
                        ;
                    }
                }
                Self::from_iota(v)
            },
            None => {
                proof {
                    if factor == 0 {
                        assert(a * factor == 0) by (nonlinear_arith)
                            requires
                                factor == 0,
                        ;
                    }
                }
                None
            },
        }
    }

    /// Converts this length to a positive signed [`Offset`] when
    /// representable.
    pub fn checked_offset(self) -> (r: Option<Offset>)
        ensures
            r is Some <==> self@ <= i64::MAX,
            r matches Some(o) ==> o@ == self@,
    {
        let a = self.iota();
        if a <= (i64::MAX as u64) {
            Some(Offset::from_iota(a as i64))
        } else {
            None
        }
    }
}

/// An exact signed displacement stored in joto iotas.
#[derive(Copy, Clone, Debug, Eq, Hash, Ord, PartialEq, PartialOrd, Structural)]
pub struct Offset(i64);

impl View for Offset {
    type V = int;

    closed spec fn view(&self) -> int {
        self.0 as int
    }
}

impl Offset {
    /// The zero displacement.
    pub fn zero() -> (r: Self)
        ensures
            r@ == 0,
    {
        Offset(0)
    }

    /// An offset always holds a count representable in `i64`.
    pub proof fn lemma_in_domain(self)
        ensures
            i64::MIN <= self@ <= i64::MAX,
    {
    }

    /// Creates an offset from an exact signed iota count.
    pub fn from_iota(value: i64) -> (r: Self)
        ensures
            r@ == value,
    {
        Offset(value)
    }

    /// Creates an exact whole-millimeter offset.
    ///
    /// Returns `None` when conversion to iotas overflows.
    pub fn millimeters(value: i64) -> (r: Option<Self>)
        ensures
            r is Some <==> scaled_offset(value as int, millimeter_iotas()) is Some,
            r matches Some(o) ==> o@ == value * millimeter_iotas(),
    {
        match value.checked_mul(millimeter_i64()) {
            Some(v) => Some(Offset(v)),
            None => None,
        }
    }

    /// Creates an exact whole-micrometer offset.
    ///
    /// Returns `None` when conversion to iotas overflows.
    pub fn micrometers(value: i64) -> (r: Option<Self>)
        ensures
            r is Some <==> scaled_offset(value as int, micrometer_iotas()) is Some,
            r matches Some(o) ==> o@ == value * micrometer_iotas(),
    {
        match value.checked_mul(micrometer_i64()) {
            Some(v) => Some(Offset(v)),
            None => None,
        }
    }

    /// Creates an exact whole-meter offset.
    ///
    /// Returns `None` when conversion to iotas overflows.
    pub fn meters(value: i64) -> (r: Option<Self>)
        ensures
            r is Some <==> scaled_offset(value as int, meter_iotas()) is Some,
            r matches Some(o) ==> o@ == value * meter_iotas(),
    {
        match value.checked_mul(meter_i64()) {
            Some(v) => Some(Offset(v)),
            None => None,
        }
    }

    /// Returns the exact underlying signed iota count.
    pub fn iota(self) -> (r: i64)
        ensures
            r == self@,
    {
        self.0
    }

    /// Adds two offsets without overflowing the exact representation.
    pub fn checked_add(self, other: Self) -> (r: Option<Self>)
        ensures
            r is Some <==> i64::MIN <= self@ + other@ <= i64::MAX,
            r matches Some(o) ==> o@ == self@ + other@,
    {
        match self.0.checked_add(other.0) {
            Some(v) => Some(Offset(v)),
            None => None,
        }
    }

    /// Subtracts two offsets without overflowing the exact representation.
    pub fn checked_sub(self, other: Self) -> (r: Option<Self>)
        ensures
            r is Some <==> i64::MIN <= self@ - other@ <= i64::MAX,
            r matches Some(o) ==> o@ == self@ - other@,
    {
        match self.0.checked_sub(other.0) {
            Some(v) => Some(Offset(v)),
            None => None,
        }
    }

    /// Negates this offset without overflowing the exact representation.
    pub fn checked_neg(self) -> (r: Option<Self>)
        ensures
            r is Some <==> self@ != i64::MIN,
            r matches Some(o) ==> o@ == -self@,
    {
        if self.0 == i64::MIN {
            None
        } else {
            Some(Offset(-self.0))
        }
    }

    /// Returns this offset as a [`Length`] when it is strictly positive.
    pub fn positive_length(self) -> (r: Option<Length>)
        ensures
            r is Some <==> self@ > 0,
            r matches Some(l) ==> l@ == self@,
    {
        if self.0 > 0 {
            Length::from_iota(self.0 as u64)
        } else {
            None
        }
    }

    /// Returns the nonzero magnitude as a [`Length`].
    ///
    /// Zero has no length under the strictly positive definition.
    pub fn magnitude(self) -> (r: Option<Length>)
        ensures
            r is Some <==> self@ != 0,
            r matches Some(l) ==> l@ == vstd::math::abs(self@),
    {
        Length::from_iota(unsigned_abs_i64(self.0))
    }
}

/// Magnitude turns either direction of a displacement into the same size:
/// an offset and its negation have equal magnitudes, and both or neither
/// are zero.
pub proof fn lemma_magnitude_ignores_direction(o: Offset, negated: Offset)
    requires
        negated@ == -o@,
    ensures
        vstd::math::abs(o@) == vstd::math::abs(negated@),
        (o@ != 0) == (negated@ != 0),
{
}

/// The absolute value of a signed count, exact in the unsigned type.
pub(crate) fn unsigned_abs_i64(value: i64) -> (r: u64)
    ensures
        r == vstd::math::abs(value as int),
{
    if value >= 0 {
        value as u64
    } else if value == i64::MIN {
        0x8000_0000_0000_0000u64
    } else {
        (-value) as u64
    }
}

} // verus!
