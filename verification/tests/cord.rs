use lau_quipu::cord::{Cord, Reading};
use lau_quipu::cord_id::CordId;
use lau_quipu::cord_type::CordType;
use lau_quipu::knot::{DigitReading, Knot, KnotType, KnotValue, SignedMagnitude};

fn whole(v: f64) -> SignedMagnitude {
    SignedMagnitude { negative: v < 0.0, magnitude: v.abs().floor() as u64 }
}

fn number(r: &DigitReading) -> f64 {
    let n = r.digits.len();
    let mut result = 0.0;
    for (i, d) in r.digits.iter().enumerate() {
        result += f64::from_bits(d.0) * 10f64.powi((n - i - 1) as i32);
    }
    if r.negative {
        -result
    } else {
        result
    }
}

fn reading_value(r: &Reading) -> f64 {
    match r {
        Reading::Absent => 0.0,
        Reading::Single(v) => f64::from_bits(v.0),
        Reading::Digits(ks) => number(&Knot::decode_value(ks)),
    }
}

fn decoded(cord: &Cord) -> Vec<f64> {
    cord.decode().iter().map(reading_value).collect()
}

#[test]
fn test_cord_new() {
    let cord = Cord::new(CordId::new("c1"), "red", CordType::Secondary);
    assert_eq!(cord.id.0, "c1");
    assert_eq!(cord.color, "red");
    assert!(cord.knots.is_empty());
    assert_eq!(cord.knot_count(), 0);
}

#[test]
fn test_cord_add_knot() {
    let mut cord = Cord::new(CordId::new("c"), "blue", CordType::Primary);
    cord.add_knot(Knot::new(KnotType::Single, 0));
    cord.add_knot(Knot::new(KnotType::Double, 1));
    assert_eq!(cord.knot_count(), 2);
}

#[test]
fn test_cord_value_at() {
    let mut cord = Cord::new(CordId::new("c"), "blue", CordType::Primary);
    cord.add_knot(Knot::new(KnotType::Triple, 3));
    assert_eq!(f64::from_bits(cord.value_at(3).0), 3.0);
    assert_eq!(f64::from_bits(cord.value_at(99).0), 0.0);
}

#[test]
fn test_cord_encode_decode() {
    let mut cord = Cord::new(CordId::new("c"), "green", CordType::Primary);
    cord.encode(&[whole(3.0), whole(7.0), whole(0.0)]);
    let vals = decoded(&cord);
    assert_eq!(vals, vec![3.0, 7.0, 0.0]);
}

#[test]
fn test_cord_depth() {
    let cord = Cord::new(CordId::new("c"), "red", CordType::Tertiary);
    assert_eq!(cord.depth(), 3);
}

#[test]
fn test_cord_empty_decode() {
    let cord = Cord::new(CordId::new("c"), "red", CordType::Primary);
    assert!(cord.decode().is_empty());
}

#[test]
fn value_at_takes_the_first_knot_at_the_position() {
    let mut cord = Cord::new(CordId::new("c"), "blue", CordType::Primary);
    cord.add_knot(Knot::new(KnotType::Single, 1));
    cord.add_knot(Knot::new(KnotType::Double, 2));
    cord.add_knot(Knot::new(KnotType::Triple, 2));
    assert_eq!(cord.value_at(2), KnotValue(2.0f64.to_bits()));
    assert_eq!(cord.value_at(0), KnotValue(0));
}

#[test]
fn encode_decode_multi_digit_and_negative_values() {
    let mut cord = Cord::new(CordId::new("c"), "green", CordType::Primary);
    cord.encode(&[whole(-12.0), whole(450.0), whole(9.0), whole(-3.0)]);
    assert_eq!(decoded(&cord), vec![-12.0, 450.0, 9.0, -3.0]);
    assert_eq!(cord.knot_count(), 3 + 3 + 1 + 2);
    assert!(cord.knots[..3].iter().all(|k| k.position == 0));
    assert!(cord.knots[3..6].iter().all(|k| k.position == 1));
}

#[test]
fn encode_replaces_the_knots_and_keeps_the_rest() {
    let mut cord = Cord::new(CordId::new("keep"), "teal", CordType::Tertiary);
    cord.add_knot(Knot::new(KnotType::Triple, 7));
    cord.encode(&[whole(5.0)]);
    assert_eq!(cord.knot_count(), 1);
    assert_eq!(cord.id.0, "keep");
    assert_eq!(cord.color, "teal");
    assert_eq!(cord.cord_type, CordType::Tertiary);
    cord.encode(&[]);
    assert!(cord.decode().is_empty());
}

#[test]
fn decode_reads_gaps_as_absent() {
    let mut cord = Cord::new(CordId::new("c"), "blue", CordType::Primary);
    cord.add_knot(Knot::new(KnotType::Double, 2));
    let readings = cord.decode();
    assert_eq!(readings.len(), 3);
    assert!(matches!(readings[0], Reading::Absent));
    assert!(matches!(readings[1], Reading::Absent));
    assert!(matches!(readings[2], Reading::Single(v) if v == KnotValue(2.0f64.to_bits())));
    assert_eq!(decoded(&cord), vec![0.0, 0.0, 2.0]);
}

#[test]
fn decode_groups_knots_at_one_position_in_cord_order() {
    let mut cord = Cord::new(CordId::new("c"), "blue", CordType::Primary);
    cord.add_knot(Knot::new(KnotType::Single, 0));
    cord.add_knot(Knot::new(KnotType::Triple, 1));
    cord.add_knot(Knot::new(KnotType::Double, 0));
    let readings = cord.decode();
    assert_eq!(readings.len(), 2);
    match &readings[0] {
        Reading::Digits(ks) => {
            assert_eq!(ks.len(), 2);
            assert_eq!(ks[0].knot_type, KnotType::Single);
            assert_eq!(ks[1].knot_type, KnotType::Double);
        }
        _ => panic!("expected a digit group"),
    }
    assert_eq!(decoded(&cord), vec![12.0, 3.0]);
}
