use exedra_exact::measurements::{Angle, AngularOffset, Length, Offset};
use joto_constants::length::{i64 as signed_iota, u64 as unsigned_iota};

#[test]
fn length_excludes_non_positive_and_overflowed_sizes() {
    assert_eq!(Length::from_iota(0), None);
    assert_eq!(Length::millimeters(0), None);
    assert_eq!(
        Length::millimeters(u64::MAX / unsigned_iota::MILLIMETER + 1),
        None
    );
}

#[test]
fn exact_values_are_integral_iota_counts() {
    let length = Length::millimeters(25).unwrap();
    let offset = Offset::millimeters(-25).unwrap();
    assert_eq!(length.iota(), 25 * unsigned_iota::MILLIMETER);
    assert_eq!(offset.iota(), -25 * signed_iota::MILLIMETER);
}

#[test]
fn length_and_offset_conversions_preserve_their_domains() {
    let positive = Offset::millimeters(25).unwrap();
    let negative = Offset::millimeters(-25).unwrap();

    assert_eq!(positive.positive_length(), Length::millimeters(25));
    assert_eq!(negative.positive_length(), None);
    assert_eq!(negative.magnitude(), Length::millimeters(25));
    assert_eq!(Offset::zero().magnitude(), None);
    assert_eq!(
        Offset::from_iota(i64::MIN).magnitude(),
        Length::from_iota(1_u64 << 63)
    );
    assert_eq!(
        Length::from_iota(i64::MAX.cast_unsigned())
            .unwrap()
            .checked_offset(),
        Some(Offset::from_iota(i64::MAX))
    );
    assert_eq!(
        Length::from_iota(i64::MAX.cast_unsigned() + 1)
            .unwrap()
            .checked_offset(),
        None
    );
}

#[test]
fn checked_arithmetic_rejects_values_outside_the_target_domain() {
    let one = Length::from_iota(1).unwrap();
    let largest = Length::from_iota(u64::MAX).unwrap();

    assert_eq!(largest.checked_add(one), None);
    assert_eq!(one.checked_mul(0), None);
    assert_eq!(Offset::from_iota(i64::MIN).checked_neg(), None);
}

#[test]
fn angular_units_are_exact_and_do_not_wrap() {
    assert_eq!(Angle::arcseconds(3_600), Angle::degrees(1));
    assert_eq!(Angle::arcminutes(60), Angle::degrees(1));
    assert_ne!(Angle::degrees(360), Angle::degrees(720));
    assert_eq!(Angle::degrees(180).unwrap().microarcseconds(), 648_000_000_000);
}

#[test]
fn angle_and_angular_offset_preserve_direction_and_bounds() {
    let clockwise = AngularOffset::degrees(-45).unwrap();
    assert_eq!(clockwise.microarcseconds(), -45 * 3_600_000_000);
    assert_eq!(clockwise.magnitude(), Angle::degrees(45).unwrap());
    assert_eq!(
        AngularOffset::from_microarcseconds(i64::MIN).magnitude(),
        Angle::from_microarcseconds(1_u64 << 63)
    );
    assert_eq!(
        Angle::from_microarcseconds(i64::MAX.cast_unsigned()).checked_offset(),
        Some(AngularOffset::from_microarcseconds(i64::MAX))
    );
    assert_eq!(
        Angle::from_microarcseconds(i64::MAX.cast_unsigned() + 1).checked_offset(),
        None
    );
}

#[test]
fn angle_arithmetic_reports_overflow() {
    let one = Angle::from_microarcseconds(1);
    let largest = Angle::from_microarcseconds(u64::MAX);
    assert_eq!(largest.checked_add(one), None);
    assert_eq!(largest.checked_mul(2), None);
    assert_eq!(
        AngularOffset::from_microarcseconds(i64::MIN).checked_neg(),
        None
    );
}

#[test]
fn magnitude_ignores_direction() {
    let east = Offset::millimeters(7).unwrap();
    let west = east.checked_neg().unwrap();
    assert_eq!(east.magnitude(), west.magnitude());
    assert_eq!(east.magnitude().map(Length::iota), Some(7 * 9_000_000));
    let turn = AngularOffset::degrees(-30).unwrap();
    assert_eq!(turn.magnitude(), turn.checked_neg().unwrap().magnitude());
}
