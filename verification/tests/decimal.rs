use rust_value::dxvalue::decimal::Decimal;

fn fixed2(d: &Decimal) -> String {
    let mut out = Vec::new();
    d.push_fixed2(&mut out);
    String::from_utf8(out).unwrap()
}

fn scientific(d: &Decimal) -> String {
    let mut out = Vec::new();
    d.push_scientific(&mut out);
    String::from_utf8(out).unwrap()
}

fn of_f64(x: f64) -> Decimal {
    Decimal::from_f64_bits(x.to_bits()).unwrap()
}

fn of_f32(x: f32) -> Decimal {
    Decimal::from_f32_bits(x.to_bits()).unwrap()
}

const SAMPLES: [f64; 34] = [
    0.0, -0.0, 1.0, -1.0, 1.5, 2.5, 0.5, 0.125, 0.375, 0.005, 0.015, 0.025, 0.035, 1.005, 2.675,
    0.155, 0.995, 9.995, 99.995, 3.14159, -3.14159, 1e21, 1e22, 1e-7, 123456789.987654321,
    1e300, -1e300, 4.35, 0.045, 1234.5678, 0.004999999999999999, 0.005000000000000001,
    8.345, 1e15,
];

#[test]
fn fixed2_agrees_with_float_formatting() {
    for x in SAMPLES.iter() {
        assert_eq!(fixed2(&of_f64(*x)), format!("{:.2}", x), "for {:e}", x);
    }
}

#[test]
fn fixed2_agrees_at_the_limits_of_the_range() {
    for x in [f64::MAX, f64::MIN, f64::MIN_POSITIVE, f64::EPSILON, 5e-324, -5e-324] {
        assert_eq!(fixed2(&of_f64(x)), format!("{:.2}", x));
    }
}

#[test]
fn fixed2_agrees_on_many_bit_patterns() {
    let mut state: u64 = 0x9E37_79B9_7F4A_7C15;
    let mut checked = 0;
    while checked < 400 {
        state = state.wrapping_mul(6364136223846793005).wrapping_add(1442695040888963407);
        let x = f64::from_bits(state);
        if !x.is_finite() {
            continue;
        }
        assert_eq!(fixed2(&of_f64(x)), format!("{:.2}", x), "for bits {:x}", state);
        checked += 1;
    }
}

#[test]
fn fixed2_agrees_near_one() {
    let mut k = 0;
    while k < 2000 {
        let x = (k as f64) / 1000.0;
        assert_eq!(fixed2(&of_f64(x)), format!("{:.2}", x), "for {}", x);
        assert_eq!(fixed2(&of_f64(-x)), format!("{:.2}", -x), "for {}", -x);
        k += 1;
    }
}

#[test]
fn fixed2_agrees_for_single_width() {
    for x in [0.0f32, 1.5, 2.675, 0.125, 0.1, 16777216.0, 3.4e38, 1e-45, -0.005, 0.015] {
        assert_eq!(fixed2(&of_f32(x)), format!("{:.2}", x), "for {:e}", x);
    }
}

#[test]
fn scientific_text_parses_back_to_the_same_float() {
    for x in SAMPLES.iter() {
        let back: f64 = scientific(&of_f64(*x)).parse().unwrap();
        assert_eq!(back.to_bits(), x.to_bits(), "for {:e}", x);
    }
    for x in [f64::MAX, f64::MIN_POSITIVE, 5e-324] {
        let back: f64 = scientific(&of_f64(x)).parse().unwrap();
        assert_eq!(back.to_bits(), x.to_bits());
    }
    assert_eq!(scientific(&Decimal::new(true, b"0150".to_vec(), -2).unwrap()), "-150e-2");
    assert_eq!(scientific(&Decimal::new(false, Vec::new(), 3).unwrap()), "0e3");
}

#[test]
fn truncation_agrees_with_the_float_cast() {
    for x in SAMPLES.iter() {
        assert_eq!(of_f64(*x).truncate_isize(), *x as isize, "for {:e}", x);
    }
    assert_eq!(of_f64(2.999).truncate_isize(), 2);
    assert_eq!(of_f64(-2.999).truncate_isize(), -2);
    assert_eq!(of_f64(1e300).truncate_isize(), isize::MAX);
    assert_eq!(of_f64(-1e300).truncate_isize(), isize::MIN);
    assert_eq!(of_f64(9223372036854775807.0).truncate_isize(), 9223372036854775807.0f64 as isize);
    assert_eq!(Decimal::new(false, b"12".to_vec(), 3).unwrap().truncate_isize(), 12000);
    assert_eq!(Decimal::new(true, b"12999".to_vec(), -3).unwrap().truncate_isize(), -12);
}

#[test]
fn positivity_agrees_with_the_float_comparison() {
    for x in SAMPLES.iter() {
        assert_eq!(of_f64(*x).is_positive(), *x > 0.0, "for {:e}", x);
    }
    assert!(!Decimal::new(false, b"000".to_vec(), 5).unwrap().is_positive());
    assert!(Decimal::new(false, b"001".to_vec(), -900).unwrap().is_positive());
}

#[test]
fn no_decimal_for_infinities_and_nans() {
    assert!(Decimal::from_f64_bits(f64::INFINITY.to_bits()).is_none());
    assert!(Decimal::from_f64_bits(f64::NEG_INFINITY.to_bits()).is_none());
    assert!(Decimal::from_f64_bits(f64::NAN.to_bits()).is_none());
    assert!(Decimal::from_f32_bits(f32::INFINITY.to_bits()).is_none());
    assert!(Decimal::from_f32_bits(f32::NAN.to_bits()).is_none());
}

#[test]
fn new_checks_digits_and_exponent() {
    assert!(Decimal::new(false, b"12a".to_vec(), 0).is_none());
    assert!(Decimal::new(false, b"12".to_vec(), 1101).is_none());
    assert!(Decimal::new(false, b"12".to_vec(), -1101).is_none());
    let d = Decimal::new(true, b"12".to_vec(), 1100).unwrap();
    assert!(d.is_negative());
    assert_eq!(d.exponent(), 1100);
    assert_eq!(fixed2(&Decimal::new(false, b"5".to_vec(), -3).unwrap()), "0.00");
    assert_eq!(fixed2(&Decimal::new(false, b"15".to_vec(), -3).unwrap()), "0.02");
    assert_eq!(fixed2(&Decimal::new(false, b"25".to_vec(), -3).unwrap()), "0.02");
    assert_eq!(fixed2(&Decimal::new(false, b"251".to_vec(), -4).unwrap()), "0.03");
    assert_eq!(fixed2(&Decimal::new(false, b"999".to_vec(), -3).unwrap()), "1.00");
    assert_eq!(fixed2(&Decimal::new(false, b"7".to_vec(), 2).unwrap()), "700.00");
    assert_eq!(fixed2(&Decimal::new(false, b"7".to_vec(), -1).unwrap()), "0.70");
    assert_eq!(fixed2(&Decimal::new(false, Vec::new(), 0).unwrap()), "0.00");
}

#[test]
fn integers_as_decimals() {
    for v in [0i64, 1, -1, 42, -9007199254740993, i64::MAX, i64::MIN] {
        let d = Decimal::from_i64(v);
        assert_eq!(fixed2(&d), format!("{}.00", v));
        assert_eq!(d.is_negative(), v < 0);
        assert_eq!(d.exponent(), 0);
        let back: f64 = scientific(&d).parse().unwrap();
        assert_eq!(back, v as f64);
        assert_eq!(d.truncate_isize(), v as isize);
    }
}

#[test]
fn a_copy_has_the_same_value() {
    let d = of_f64(-1234.5678);
    let c = d.copy();
    assert_eq!(fixed2(&c), "-1234.57");
    assert_eq!(scientific(&c), scientific(&d));
    assert_eq!(c.is_negative(), d.is_negative());
    assert_eq!(c.exponent(), d.exponent());
}
