use lau_quipu::knot::{DigitReading, Knot, KnotType, KnotValue, SignedMagnitude};

fn whole(v: f64) -> SignedMagnitude {
    SignedMagnitude { negative: v < 0.0, magnitude: v.abs().floor() as u64 }
}

fn number(r: &DigitReading) -> f64 {
    let n = r.digits.len();
    let mut result = 0.0;
    for (i, d) in r.digits.iter().enumerate() {
        result += f64::from_bits(d.0) * 10f64.powi((n - i - 1) as i32);
    }
    if r.negative {
        -result
    } else {
        result
    }
}

fn value(v: KnotValue) -> f64 {
    f64::from_bits(v.0)
}

fn roundtrip(v: f64) -> f64 {
    let knots = Knot::encode_value(whole(v));
    number(&Knot::decode_value(&knots))
}

#[test]
fn test_knot_type_values() {
    assert_eq!(value(KnotType::Single.value()), 1.0);
    assert_eq!(value(KnotType::Double.value()), 2.0);
    assert_eq!(value(KnotType::Triple.value()), 3.0);
    assert_eq!(value(KnotType::FigureEight.value()), 0.0);
    assert_eq!(value(KnotType::LongKnot(KnotValue(7.0f64.to_bits())).value()), 7.0);
}

#[test]
fn test_knot_new() {
    let k = Knot::new(KnotType::Double, 5);
    assert_eq!(value(k.value), 2.0);
    assert_eq!(k.position, 5);
    assert!(k.label.is_none());
}

#[test]
fn test_knot_with_label() {
    let k = Knot::new(KnotType::Single, 0).with_label("start");
    assert_eq!(k.label.as_deref(), Some("start"));
}

#[test]
fn test_encode_value_zero() {
    assert_eq!(roundtrip(0.0), 0.0);
}

#[test]
fn test_encode_value_single_digit() {
    assert_eq!(roundtrip(5.0), 5.0);
}

#[test]
fn test_encode_value_multi_digit() {
    assert_eq!(roundtrip(42.0), 42.0);
}

#[test]
fn test_encode_value_large() {
    assert_eq!(roundtrip(12345.0), 12345.0);
}

#[test]
fn test_encode_value_negative() {
    assert_eq!(roundtrip(-7.0), -7.0);
}

#[test]
fn test_encode_decode_roundtrip_1() {
    assert_eq!(roundtrip(1.0), 1.0);
}

#[test]
fn test_encode_decode_roundtrip_100() {
    assert_eq!(roundtrip(100.0), 100.0);
}

#[test]
fn test_encode_decode_roundtrip_9999() {
    assert_eq!(roundtrip(9999.0), 9999.0);
}

#[test]
fn digit_values_are_the_binary64_encodings_of_the_digits() {
    for d in 0..10u64 {
        assert_eq!(KnotValue::digit(d), KnotValue((d as f64).to_bits()));
    }
}

#[test]
fn encoding_of_42_is_a_long_knot_then_a_double_knot() {
    let knots = Knot::encode_value(SignedMagnitude { negative: false, magnitude: 42 });
    assert_eq!(knots.len(), 2);
    assert_eq!(knots[0].knot_type, KnotType::LongKnot(KnotValue(4.0f64.to_bits())));
    assert_eq!(knots[0].position, 0);
    assert_eq!(knots[1].knot_type, KnotType::Double);
    assert_eq!(knots[1].position, 1);
    assert!(knots.iter().all(|k| k.label.is_none()));
}

#[test]
fn encoding_of_a_negative_number_opens_with_the_sign_knot() {
    let knots = Knot::encode_value(SignedMagnitude { negative: true, magnitude: 305 });
    assert_eq!(knots.len(), 4);
    assert_eq!(knots[0].knot_type, KnotType::FigureEight);
    assert_eq!(knots[0].position, 0);
    assert_eq!(knots[0].label.as_deref(), Some("negative"));
    assert_eq!(value(knots[0].value), 0.0);
    assert_eq!(knots[1].knot_type, KnotType::Triple);
    assert_eq!(knots[1].position, 1);
    assert_eq!(knots[2].knot_type, KnotType::FigureEight);
    assert_eq!(knots[2].position, 2);
    assert!(knots[2].label.is_none());
    assert_eq!(knots[3].knot_type, KnotType::LongKnot(KnotValue(5.0f64.to_bits())));
    assert_eq!(knots[3].position, 3);
    let r = Knot::decode_value(&knots);
    assert!(r.negative);
    assert_eq!(r.digits.len(), 3);
    assert_eq!(number(&r), -305.0);
}

#[test]
fn largest_magnitude_has_twenty_digits() {
    let knots = Knot::encode_value(SignedMagnitude { negative: false, magnitude: u64::MAX });
    assert_eq!(knots.len(), 20);
    assert_eq!(knots[19].position, 19);
    let r = Knot::decode_value(&knots);
    assert!(!r.negative);
    assert_eq!(r.digits[0], KnotValue(1.0f64.to_bits()));
    assert_eq!(r.digits[19], KnotValue(5.0f64.to_bits()));
}

#[test]
fn negative_fraction_keeps_its_sign_knot() {
    let knots = Knot::encode_value(whole(-0.5));
    assert_eq!(knots.len(), 2);
    let r = Knot::decode_value(&knots);
    assert!(r.negative);
    assert_eq!(r.digits, vec![KnotValue(0)]);
}

#[test]
fn decoding_nothing_gives_no_digits() {
    let r = Knot::decode_value(&[]);
    assert!(!r.negative);
    assert!(r.digits.is_empty());
    assert_eq!(number(&r), 0.0);
}

#[test]
fn a_lone_sign_knot_reads_as_a_zero_digit() {
    let knots = vec![Knot::new(KnotType::FigureEight, 0).with_label("negative")];
    let r = Knot::decode_value(&knots);
    assert!(!r.negative);
    assert_eq!(r.digits, vec![KnotValue(0)]);
}

#[test]
fn decoding_reads_knot_types_not_stored_values() {
    let mut k = Knot::new(KnotType::Triple, 0);
    k.value = KnotValue(9.0f64.to_bits());
    let r = Knot::decode_value(&[k, Knot::new(KnotType::Single, 1)]);
    assert_eq!(number(&r), 31.0);
}

#[test]
fn a_long_knot_may_carry_any_value() {
    let knots = vec![
        Knot::new(KnotType::LongKnot(KnotValue(0.5f64.to_bits())), 0),
        Knot::new(KnotType::Single, 1),
    ];
    assert_eq!(value(knots[0].value), 0.5);
    assert_eq!(number(&Knot::decode_value(&knots)), 6.0);
}

#[test]
fn knot_values_compare_as_numbers() {
    let zero = KnotValue(0.0f64.to_bits());
    let minus_zero = KnotValue((-0.0f64).to_bits());
    let nan = KnotValue(f64::NAN.to_bits());
    assert_eq!(zero, minus_zero);
    assert_ne!(nan, nan);
    assert_ne!(KnotValue(1.0f64.to_bits()), KnotValue(2.0f64.to_bits()));
    assert_eq!(KnotType::LongKnot(zero), KnotType::LongKnot(minus_zero));
    assert_ne!(KnotType::LongKnot(nan), KnotType::LongKnot(nan));
    assert_ne!(KnotType::LongKnot(KnotValue(1.0f64.to_bits())), KnotType::Single);
    assert_ne!(KnotType::Single, KnotType::Double);
    assert_eq!(KnotType::Triple, KnotType::Triple);
}

#[test]
fn knots_compare_by_type_position_value_and_label() {
    let a = Knot::new(KnotType::Single, 3);
    assert_eq!(a, a.clone());
    assert_ne!(a, Knot::new(KnotType::Single, 4));
    assert_ne!(a, Knot::new(KnotType::Single, 3).with_label("x"));
    assert_eq!(a.clone().with_label("x"), Knot::new(KnotType::Single, 3).with_label("x"));
    let mut nan_knot = Knot::new(KnotType::Single, 0);
    nan_knot.value = KnotValue(f64::NAN.to_bits());
    assert_ne!(nan_knot, nan_knot.clone());
}
