use si_units::area::AreaUnit;
use si_units::length::LengthUnit;
use si_units::magnitude::Magnitude;
use si_units::mass::MassUnit;
use si_units::time::TimeUnit;
use si_units::value::{Unit, Value};
use si_units::velocity::VelocityUnit;
use si_units::volume::VolumeUnit;

fn whole(n: i128) -> Magnitude {
    Magnitude::from_int(n)
}

fn dec(mantissa: i128, places: u32) -> Magnitude {
    Magnitude::decimal(mantissa, places)
}

#[test]
fn test_add_sub() {
    let mut m = Value::new(LengthUnit::Meter, whole(2));
    let cm = Value::new(LengthUnit::Centimeter, whole(50));

    let a = m + cm;
    assert_eq!(dec(25, 1), a.value());
    let b = m - cm;
    assert_eq!(dec(15, 1), b.value());
    m += cm;
    assert_eq!(dec(25, 1), m.value());
    m -= cm;
    assert_eq!(whole(2), m.value());
}

#[test]
fn test_strings() {
    let km = Value::new(LengthUnit::Kilometer, whole(3));
    let m = Value::new(LengthUnit::Meter, dec(25, 1));
    let cm = Value::new(LengthUnit::Centimeter, whole(50));
    let mm = Value::new(LengthUnit::Millimeter, dec(202, 1));
    let km2 = Value::new(AreaUnit::SquareKilometer, whole(3));
    let m2 = Value::new(AreaUnit::SquareMeter, dec(25, 1));
    let cm2 = Value::new(AreaUnit::SquareCentimeter, whole(50));
    let mm2 = Value::new(AreaUnit::SquareMillimeter, dec(202, 1));
    let kg = Value::new(MassUnit::Kilogram, whole(3));
    let g = Value::new(MassUnit::Gram, dec(25, 1));
    let d = Value::new(TimeUnit::Days, whole(3));
    let h = Value::new(TimeUnit::Hours, whole(2));
    let min = Value::new(TimeUnit::Minutes, whole(50));
    let s = Value::new(TimeUnit::Seconds, dec(25, 1));
    let ms = Value::new(TimeUnit::Milliseconds, dec(202, 1));
    let kmh = Value::new(VelocityUnit::KilometerPerHour, whole(3));
    let mps = Value::new(VelocityUnit::MeterPerSecond, dec(25, 1));
    let km3 = Value::new(VolumeUnit::CubicKilometer, whole(3));
    let m3 = Value::new(VolumeUnit::CubicMeter, dec(25, 1));
    let cm3 = Value::new(VolumeUnit::CubicCentimeter, whole(50));
    let mm3 = Value::new(VolumeUnit::CubicMillimeter, dec(202, 1));
    assert_eq!("3km", km.to_string());
    assert_eq!("2.5m", m.to_string());
    assert_eq!("50cm", cm.to_string());
    assert_eq!("20.2mm", mm.to_string());
    assert_eq!("3km²", km2.to_string());
    assert_eq!("2.5m²", m2.to_string());
    assert_eq!("50cm²", cm2.to_string());
    assert_eq!("20.2mm²", mm2.to_string());
    assert_eq!("3kg", kg.to_string());
    assert_eq!("2.5g", g.to_string());
    assert_eq!("3d", d.to_string());
    assert_eq!("2h", h.to_string());
    assert_eq!("50min", min.to_string());
    assert_eq!("2.5s", s.to_string());
    assert_eq!("20.2ms", ms.to_string());
    assert_eq!("3km/h", kmh.to_string());
    assert_eq!("2.5m/s", mps.to_string());
    assert_eq!("3km³", km3.to_string());
    assert_eq!("2.5m³", m3.to_string());
    assert_eq!("50cm³", cm3.to_string());
    assert_eq!("20.2mm³", mm3.to_string());
}

#[test]
fn test_conversion() {
    let km = Value::new(LengthUnit::Kilometer, dec(15, 1));
    let m = km.convert(LengthUnit::Meter);
    assert_eq!(whole(1500), m.value());
}

#[test]
fn sum_and_difference_are_in_the_base_unit() {
    let cm = Value::new(LengthUnit::Centimeter, whole(50));
    let mm = Value::new(LengthUnit::Millimeter, whole(5));
    let a = cm + mm;
    assert_eq!(LengthUnit::Meter, a.unit());
    assert_eq!(dec(505, 3), a.value());
    let b = cm - mm;
    assert_eq!(LengthUnit::Meter, b.unit());
    assert_eq!(dec(495, 3), b.value());
    let g = Value::new(MassUnit::Gram, whole(250));
    let kg = Value::new(MassUnit::Kilogram, whole(1));
    let total = g + kg;
    assert_eq!(MassUnit::Kilogram, total.unit());
    assert_eq!("1.25kg", total.to_string());
}

#[test]
fn in_place_operators_use_the_base_unit() {
    let mut t = Value::new(TimeUnit::Minutes, whole(2));
    t += Value::new(TimeUnit::Seconds, whole(30));
    assert_eq!(TimeUnit::Seconds, t.unit());
    assert_eq!(whole(150), t.value());
    t -= Value::new(TimeUnit::Milliseconds, whole(500));
    assert_eq!("149.5s", t.to_string());
}

#[test]
fn base_value_is_magnitude_times_ratio() {
    let km = Value::new(LengthUnit::Kilometer, dec(15, 1));
    assert_eq!(whole(1500), km.base_value());
    let kmh = Value::new(VelocityUnit::KilometerPerHour, whole(36));
    assert_eq!(whole(10), kmh.base_value());
    let d = Value::new(TimeUnit::Days, whole(2));
    assert_eq!(whole(172800), d.base_value());
    let mm2 = Value::new(AreaUnit::SquareMillimeter, whole(3));
    assert_eq!(dec(3, 6), mm2.base_value());
    let m = Value::new(LengthUnit::Meter, whole(7));
    assert_eq!(whole(7), m.base_value());
}

#[test]
fn ratios_and_base_units() {
    assert_eq!(whole(1000), LengthUnit::Kilometer.ratio());
    assert_eq!(Magnitude::fraction(1, 100), LengthUnit::Centimeter.ratio());
    assert_eq!(Magnitude::fraction(5, 18), VelocityUnit::KilometerPerHour.ratio());
    assert_eq!(whole(3600), TimeUnit::Hours.ratio());
    assert_eq!(dec(1, 9), VolumeUnit::CubicMillimeter.ratio());
    assert_eq!(LengthUnit::Meter, LengthUnit::base());
    assert_eq!(AreaUnit::SquareMeter, AreaUnit::base());
    assert_eq!(VolumeUnit::CubicMeter, VolumeUnit::base());
    assert_eq!(MassUnit::Kilogram, MassUnit::base());
    assert_eq!(TimeUnit::Seconds, TimeUnit::base());
    assert_eq!(VelocityUnit::MeterPerSecond, VelocityUnit::base());
    assert_eq!(whole(1), MassUnit::Kilogram.ratio());
    assert_eq!("km/h", VelocityUnit::KilometerPerHour.abbr());
}

#[test]
fn convert_round_trip() {
    let mm3 = Value::new(VolumeUnit::CubicMillimeter, dec(202, 1));
    let there = mm3.convert(VolumeUnit::CubicKilometer);
    assert_eq!(dec(202, 19), there.value());
    let back = there.convert(VolumeUnit::CubicMillimeter);
    assert_eq!(dec(202, 1), back.value());
    let kmh = Value::new(VelocityUnit::KilometerPerHour, whole(7));
    let back = kmh
        .convert(VelocityUnit::MeterPerSecond)
        .convert(VelocityUnit::KilometerPerHour);
    assert_eq!(whole(7), back.value());
    let ms = Value::new(TimeUnit::Milliseconds, whole(1));
    assert_eq!("0.000000011574074074074074d", ms.convert(TimeUnit::Days).to_string());
    assert_eq!(whole(1), ms.convert(TimeUnit::Days).convert(TimeUnit::Milliseconds).value());
}

#[test]
fn convert_to_own_unit_is_identity() {
    let g = Value::new(MassUnit::Gram, Magnitude::fraction(1, 3));
    let same = g.convert(MassUnit::Gram);
    assert_eq!(MassUnit::Gram, same.unit());
    assert_eq!(g.value(), same.value());
    assert_eq!("0.33333333333333333g", same.to_string());
}

#[test]
fn kilometers_per_hour_to_meters_per_second() {
    let kmh = Value::new(VelocityUnit::KilometerPerHour, whole(90));
    assert_eq!("25m/s", kmh.convert(VelocityUnit::MeterPerSecond).to_string());
    let mps = Value::new(VelocityUnit::MeterPerSecond, whole(1));
    assert_eq!("3.6km/h", mps.convert(VelocityUnit::KilometerPerHour).to_string());
}

#[test]
fn decimals_that_do_not_end_are_rounded_to_17_significant_digits() {
    let third = Value::new(MassUnit::Gram, Magnitude::fraction(1, 3));
    assert_eq!("0.33333333333333333g", third.to_string());
    let two_thirds = Value::new(MassUnit::Gram, Magnitude::fraction(2, 3));
    assert_eq!("0.66666666666666667g", two_thirds.to_string());
    let minus_third = Value::new(LengthUnit::Meter, Magnitude::fraction(-1, 3));
    assert_eq!("-0.33333333333333333m", minus_third.to_string());
    let sixty_six = Value::new(LengthUnit::Meter, Magnitude::fraction(200, 3));
    assert_eq!("66.666666666666667m", sixty_six.to_string());
    let near_one = Value::new(
        LengthUnit::Meter,
        Magnitude::fraction(3_000_000_000_000_000_000 - 1, 3_000_000_000_000_000_000),
    );
    assert_eq!("1m", near_one.to_string());
    let large = Value::new(LengthUnit::Meter, Magnitude::fraction(100_000_000_000_000_000_000, 3));
    assert_eq!("33333333333333333333m", large.to_string());
    let kmh = Value::new(VelocityUnit::MeterPerSecond, int_over(10, 36));
    assert_eq!("0.27777777777777778m/s", kmh.to_string());
}

fn int_over(n: i128, d: i128) -> Magnitude {
    Magnitude::fraction(n, d)
}

#[test]
fn quantity_minus_itself_is_zero() {
    let a = Value::new(
        LengthUnit::Meter,
        Magnitude::fraction(100_000_000_000_000_000_001, 100_000_000_000_000_000_000),
    );
    let zero = a - a;
    assert!(!zero.value().is_nan());
    assert_eq!(whole(0), zero.value());
    assert_eq!("0m", zero.to_string());
    let mut b = a;
    b -= a;
    assert_eq!(whole(0), b.value());
}

#[test]
fn round_trip_with_large_parts_is_exact() {
    let ten37: i128 = 10_000_000_000_000_000_000_000_000_000_000_000_000;
    let v = Value::new(VelocityUnit::KilometerPerHour, Magnitude::fraction(ten37 + 1, ten37));
    let there = v.convert(VelocityUnit::MeterPerSecond);
    assert!(!there.value().is_nan());
    let back = there.convert(VelocityUnit::KilometerPerHour);
    assert_eq!(v.value(), back.value());
    assert_eq!(ten37 + 1, back.value().numerator());
    assert_eq!(ten37, back.value().denominator());
    let zero = Value::new(VelocityUnit::KilometerPerHour, whole(0));
    assert_eq!(whole(0), zero.convert(VelocityUnit::MeterPerSecond).value());
}

#[test]
fn conversion_keeps_order() {
    let a = Value::new(LengthUnit::Kilometer, Magnitude::fraction(1, 3));
    let b = Value::new(LengthUnit::Kilometer, Magnitude::fraction(1, 2));
    let am = a.convert(LengthUnit::Millimeter).value();
    let bm = b.convert(LengthUnit::Millimeter).value();
    assert!(am.numerator() * bm.denominator() <= bm.numerator() * am.denominator());
    assert_eq!(whole(500000), bm);
}

#[test]
fn conversion_through_a_middle_unit_matches_direct() {
    let km = Value::new(LengthUnit::Kilometer, dec(15, 1));
    let via = km.convert(LengthUnit::Centimeter).convert(LengthUnit::Millimeter);
    let direct = km.convert(LengthUnit::Millimeter);
    assert_eq!(direct.value(), via.value());
    assert_eq!(whole(1500000), direct.value());
    let kmh = Value::new(VelocityUnit::KilometerPerHour, whole(7));
    let via = kmh.convert(VelocityUnit::MeterPerSecond).convert(VelocityUnit::KilometerPerHour);
    assert_eq!(whole(7), via.value());
}

#[test]
fn subtraction_is_anticommutative() {
    let a = Value::new(LengthUnit::Meter, whole(2));
    let b = Value::new(LengthUnit::Centimeter, whole(50));
    assert_eq!((a - b).value(), (b - a).value().negated());
    assert_eq!("-1.5m", (b - a).to_string());
}
