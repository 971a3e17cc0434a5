use si_units::area::AreaUnit;
use si_units::length::LengthUnit;
use si_units::magnitude::Magnitude;
use si_units::time::TimeUnit;
use si_units::value::Value;
use si_units::velocity::VelocityUnit;
use si_units::volume::VolumeUnit;

fn whole(n: i128) -> Magnitude {
    Magnitude::from_int(n)
}

#[test]
fn test_length_area() {
    let m = Value::new(LengthUnit::Meter, whole(2));
    let cm = Value::new(LengthUnit::Centimeter, whole(300));
    let area = m * cm;
    assert_eq!(whole(6), area.value());
    let x = area / m;
    assert_eq!(cm.base_value(), x.value());
}

#[test]
fn test_velocity() {
    let m = Value::new(LengthUnit::Meter, whole(6));
    let s = Value::new(TimeUnit::Seconds, whole(2));

    let v = m / s;
    assert_eq!(whole(3), v.value());
    let m2 = v * s;
    assert_eq!(m.value(), m2.value());
    let s2 = m / v;
    assert_eq!(s.value(), s2.value());
}

#[test]
fn test_volume_units() {
    let m2 = Value::new(AreaUnit::SquareMeter, whole(4));
    let m = Value::new(LengthUnit::Meter, whole(3));
    let vol = m * m2;
    assert_eq!(whole(12), vol.value());
    let x = vol / m;
    assert_eq!(m2.base_value(), x.value());
}

#[test]
fn results_are_in_the_base_unit_of_their_dimension() {
    let km = Value::new(LengthUnit::Kilometer, whole(2));
    let cm = Value::new(LengthUnit::Centimeter, whole(50));
    let area = km * cm;
    assert_eq!(AreaUnit::SquareMeter, area.unit());
    assert_eq!(whole(1000), area.value());
    let vol = area * cm;
    assert_eq!(VolumeUnit::CubicMeter, vol.unit());
    assert_eq!(whole(500), vol.value());
    let side = vol / area;
    assert_eq!(LengthUnit::Meter, side.unit());
    assert_eq!("0.5m", side.to_string());
    let face = vol / km;
    assert_eq!(AreaUnit::SquareMeter, face.unit());
    assert_eq!("0.25m²", face.to_string());
    let edge = area / cm;
    assert_eq!(LengthUnit::Meter, edge.unit());
    assert_eq!(whole(2000), edge.value());
}

#[test]
fn velocity_time_and_length() {
    let km = Value::new(LengthUnit::Kilometer, whole(9));
    let h = Value::new(TimeUnit::Hours, whole(1));
    let v = km / h;
    assert_eq!(VelocityUnit::MeterPerSecond, v.unit());
    assert_eq!("2.5m/s", v.to_string());
    let min = Value::new(TimeUnit::Minutes, whole(2));
    let d = v * min;
    assert_eq!(LengthUnit::Meter, d.unit());
    assert_eq!(whole(300), d.value());
    let t = km / v;
    assert_eq!(TimeUnit::Seconds, t.unit());
    assert_eq!(whole(3600), t.value());
}

#[test]
fn division_by_zero_gives_infinity_or_nan() {
    let m = Value::new(LengthUnit::Meter, whole(6));
    let none = Value::new(TimeUnit::Seconds, whole(0));
    let v = m / none;
    assert_eq!("infm/s", v.to_string());
    let back = Value::new(LengthUnit::Meter, whole(-6)) / none;
    assert_eq!("-infm/s", back.to_string());
    let zero = Value::new(LengthUnit::Meter, whole(0));
    let undefined = zero / none;
    assert!(undefined.value().is_nan());
    assert_eq!("NaNm/s", undefined.to_string());
    assert!(undefined.value() != undefined.value());
}

#[test]
fn identities_with_large_parts_are_exact() {
    let big: i128 = 20_000_000_000_000_000_000;
    let l = Value::new(LengthUnit::Meter, whole(1));
    let t = Value::new(TimeUnit::Seconds, Magnitude::fraction(big + 1, big));
    let v = l / t;
    assert!(!v.value().is_nan());
    assert_eq!(whole(1), (v * t).value());
    assert_eq!(t.value(), (l / v).value());
    let l2 = Value::new(LengthUnit::Meter, Magnitude::fraction(big + 1, big));
    let area = l * l2;
    assert!(!area.value().is_nan());
    assert_eq!(whole(1), (area / l2).value());
}
