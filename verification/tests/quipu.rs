use std::collections::HashMap;

use lau_quipu::cord::{Cord, Reading};
use lau_quipu::cord_id::CordId;
use lau_quipu::cord_type::CordType;
use lau_quipu::knot::{DigitReading, Knot, KnotType, SignedMagnitude};
use lau_quipu::quipu::Quipu;

fn whole(v: f64) -> SignedMagnitude {
    SignedMagnitude { negative: v < 0.0, magnitude: v.abs().floor() as u64 }
}

fn number(r: &DigitReading) -> f64 {
    let n = r.digits.len();
    let mut result = 0.0;
    for (i, d) in r.digits.iter().enumerate() {
        result += f64::from_bits(d.0) * 10f64.powi((n - i - 1) as i32);
    }
    if r.negative {
        -result
    } else {
        result
    }
}

fn reading_value(r: &Reading) -> f64 {
    match r {
        Reading::Absent => 0.0,
        Reading::Single(v) => f64::from_bits(v.0),
        Reading::Digits(ks) => number(&Knot::decode_value(ks)),
    }
}

fn tensor(data: &[(&str, Vec<f64>)]) -> Vec<(String, Vec<SignedMagnitude>)> {
    data.iter()
        .map(|(name, vals)| (name.to_string(), vals.iter().map(|v| whole(*v)).collect()))
        .collect()
}

fn decoded_tensor(q: &Quipu) -> HashMap<String, Vec<f64>> {
    let mut result = HashMap::new();
    for (name, readings) in q.decode_tensor() {
        result.insert(name, readings.iter().map(reading_value).collect());
    }
    result
}

#[test]
fn test_quipu_new() {
    let q = Quipu::new(HashMap::new(), 42);
    assert_eq!(q.tick_created, 42);
    assert_eq!(q.cord_count(), 1);
}

#[test]
fn test_quipu_add_cord() {
    let mut q = Quipu::new(HashMap::new(), 0);
    let cord = Cord::new(CordId::new("child1"), "white", CordType::Secondary);
    let id = q.add_cord(&CordId::new("primary"), cord);
    assert_eq!(id.0, "child1");
    assert_eq!(q.cord_count(), 2);
}

#[test]
fn test_quipu_get_cord() {
    let mut q = Quipu::new(HashMap::new(), 0);
    let cord = Cord::new(CordId::new("x"), "white", CordType::Secondary);
    q.add_cord(&CordId::new("primary"), cord);
    assert!(q.get_cord(&CordId::new("x")).is_some());
    assert!(q.get_cord(&CordId::new("missing")).is_none());
    assert!(q.get_cord(&CordId::new("primary")).is_some());
}

#[test]
fn test_quipu_encode_decode_tensor() {
    let mut q = Quipu::new(HashMap::new(), 0);
    let data = tensor(&[("a", vec![1.0, 2.0]), ("b", vec![3.0])]);
    q.encode_tensor(&data);
    let decoded = decoded_tensor(&q);
    assert_eq!(decoded["a"], vec![1.0, 2.0]);
    assert_eq!(decoded["b"], vec![3.0]);
}

#[test]
fn test_quipu_depth() {
    let mut q = Quipu::new(HashMap::new(), 0);
    assert_eq!(q.depth(), 1);
    let cord = Cord::new(CordId::new("c"), "w", CordType::Secondary);
    q.add_cord(&CordId::new("primary"), cord);
    assert_eq!(q.depth(), 2);
}

#[test]
fn test_quipu_get_mut_cord() {
    let mut q = Quipu::new(HashMap::new(), 0);
    let cord = Cord::new(CordId::new("c"), "w", CordType::Secondary);
    q.add_cord(&CordId::new("primary"), cord);
    {
        let c = q.get_mut_cord(&CordId::new("c")).unwrap();
        c.add_knot(Knot::new(KnotType::Single, 0));
    }
    assert_eq!(q.get_cord(&CordId::new("c")).unwrap().knot_count(), 1);
}

#[test]
fn new_quipu_has_a_brown_primary_cord() {
    let mut meta = HashMap::new();
    meta.insert("k".to_string(), "v".to_string());
    let q = Quipu::new(meta, 7);
    assert_eq!(q.primary_cord.id.0, "primary");
    assert_eq!(q.primary_cord.color, "brown");
    assert_eq!(q.primary_cord.cord_type, CordType::Primary);
    assert_eq!(q.metadata["k"], "v");
    assert_eq!(q.total_knots(), 0);
}

#[test]
fn add_cord_sets_parent_type_and_child_links() {
    let mut q = Quipu::new(HashMap::new(), 0);
    q.add_cord(&CordId::new("primary"), Cord::new(CordId::new("a"), "w", CordType::Primary));
    q.add_cord(&CordId::new("a"), Cord::new(CordId::new("b"), "w", CordType::Primary));
    q.add_cord(&CordId::new("b"), Cord::new(CordId::new("c"), "w", CordType::Primary));
    q.add_cord(&CordId::new("c"), Cord::new(CordId::new("d"), "w", CordType::Primary));
    let a = q.get_cord(&CordId::new("a")).unwrap();
    assert_eq!(a.cord_type, CordType::Secondary);
    assert_eq!(a.parent_cord, Some(CordId::new("primary")));
    assert_eq!(a.child_cords, vec![CordId::new("b")]);
    assert_eq!(q.get_cord(&CordId::new("b")).unwrap().cord_type, CordType::Tertiary);
    assert_eq!(q.get_cord(&CordId::new("c")).unwrap().cord_type, CordType::Auxiliary);
    assert_eq!(q.get_cord(&CordId::new("d")).unwrap().cord_type, CordType::Auxiliary);
    assert_eq!(q.primary_cord.child_cords, vec![CordId::new("a")]);
    assert_eq!(q.depth(), 4);
    assert_eq!(q.cord_count(), 5);
}

#[test]
fn add_cord_under_a_missing_parent_makes_a_secondary_cord() {
    let mut q = Quipu::new(HashMap::new(), 0);
    q.add_cord(&CordId::new("nowhere"), Cord::new(CordId::new("x"), "w", CordType::Auxiliary));
    let x = q.get_cord(&CordId::new("x")).unwrap();
    assert_eq!(x.cord_type, CordType::Secondary);
    assert_eq!(x.parent_cord, Some(CordId::new("nowhere")));
    assert!(q.primary_cord.child_cords.is_empty());
}

#[test]
fn adding_a_cord_under_an_existing_name_replaces_it() {
    let mut q = Quipu::new(HashMap::new(), 0);
    let mut first = Cord::new(CordId::new("x"), "red", CordType::Secondary);
    first.add_knot(Knot::new(KnotType::Single, 0));
    q.add_cord(&CordId::new("primary"), first);
    q.add_cord(&CordId::new("primary"), Cord::new(CordId::new("x"), "blue", CordType::Secondary));
    assert_eq!(q.cord_count(), 2);
    assert_eq!(q.get_cord(&CordId::new("x")).unwrap().color, "blue");
    assert_eq!(q.primary_cord.child_cords.len(), 2);
}

#[test]
fn a_cord_named_primary_is_stored_but_not_found_by_name() {
    let mut q = Quipu::new(HashMap::new(), 0);
    q.add_cord(&CordId::new("primary"), Cord::new(CordId::new("primary"), "red", CordType::Secondary));
    assert_eq!(q.cord_count(), 2);
    assert_eq!(q.get_cord(&CordId::new("primary")).unwrap().color, "brown");
}

#[test]
fn total_knots_counts_every_cord() {
    let mut q = Quipu::new(HashMap::new(), 0);
    q.primary_cord.add_knot(Knot::new(KnotType::Single, 0));
    let mut c = Cord::new(CordId::new("c"), "w", CordType::Secondary);
    c.encode(&[whole(123.0), whole(-4.0)]);
    q.add_cord(&CordId::new("primary"), c);
    assert_eq!(q.total_knots(), 1 + 3 + 2);
}

#[test]
fn decode_tensor_lists_primary_first_then_cords() {
    let mut q = Quipu::new(HashMap::new(), 0);
    q.primary_cord.add_knot(Knot::new(KnotType::Triple, 0));
    q.encode_tensor(&tensor(&[("x", vec![-25.0]), ("y", vec![])]));
    let entries = q.decode_tensor();
    assert_eq!(entries.len(), 3);
    assert_eq!(entries[0].0, "primary");
    assert_eq!(entries[0].1.iter().map(reading_value).collect::<Vec<_>>(), vec![3.0]);
    assert_eq!(entries[1].0, "x");
    assert_eq!(entries[1].1.iter().map(reading_value).collect::<Vec<_>>(), vec![-25.0]);
    assert_eq!(entries[2].0, "y");
    assert!(entries[2].1.is_empty());
    let y = q.get_cord(&CordId::new("y")).unwrap();
    assert_eq!(y.color, "white");
    assert_eq!(y.cord_type, CordType::Secondary);
}

#[test]
fn get_mut_cord_reaches_the_primary_cord() {
    let mut q = Quipu::new(HashMap::new(), 0);
    q.get_mut_cord(&CordId::new("primary")).unwrap().add_knot(Knot::new(KnotType::Double, 0));
    assert_eq!(q.primary_cord.knot_count(), 1);
    assert!(q.get_mut_cord(&CordId::new("missing")).is_none());
}

#[test]
fn a_cloned_quipu_is_independent() {
    let mut q = Quipu::new(HashMap::new(), 9);
    q.add_cord(&CordId::new("primary"), Cord::new(CordId::new("a"), "w", CordType::Secondary));
    let mut copy = q.clone();
    copy.add_cord(&CordId::new("a"), Cord::new(CordId::new("b"), "w", CordType::Secondary));
    assert_eq!(copy.cord_count(), 3);
    assert_eq!(q.cord_count(), 2);
    assert_eq!(copy.get_cord(&CordId::new("b")).unwrap().cord_type, CordType::Tertiary);
    assert_eq!(copy.tick_created, 9);
}
