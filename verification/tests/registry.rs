use std::collections::HashMap;

use lau_quipu::knot::{Knot, KnotType};
use lau_quipu::quipu::Quipu;
use lau_quipu::registry::QuipuRegistry;

#[test]
fn test_registry_new() {
    let reg = QuipuRegistry::new();
    assert!(reg.quipus.is_empty());
}

#[test]
fn test_registry_register_get() {
    let mut reg = QuipuRegistry::new();
    let q = Quipu::new(HashMap::new(), 0);
    reg.register("q1", q);
    assert!(reg.get("q1").is_some());
    assert!(reg.get("missing").is_none());
}

#[test]
fn test_registry_stats() {
    let mut reg = QuipuRegistry::new();
    let mut q = Quipu::new(HashMap::new(), 0);
    q.primary_cord.add_knot(Knot::new(KnotType::Single, 0));
    reg.register("q1", q);
    let stats = reg.registry_stats();
    assert_eq!(stats.total_quipus, 1);
    assert_eq!(stats.total_cords, 1);
    assert_eq!(stats.total_knots, 1);
    let total_encoded_value: f64 = reg.quipus.values()[0]
        .primary_cord
        .knots
        .iter()
        .map(|k| f64::from_bits(k.value.0))
        .sum();
    assert_eq!(total_encoded_value, 1.0);
}

#[test]
fn test_registry_stats_empty() {
    let reg = QuipuRegistry::new();
    let stats = reg.registry_stats();
    assert_eq!(stats.total_quipus, 0);
    assert_eq!(stats.total_cords, 0);
    assert_eq!(stats.total_knots, 0);
}

#[test]
fn registering_under_a_taken_name_replaces_the_quipu() {
    let mut reg = QuipuRegistry::default();
    reg.register("q", Quipu::new(HashMap::new(), 1));
    reg.register("other", Quipu::new(HashMap::new(), 3));
    reg.register("q", Quipu::new(HashMap::new(), 2));
    assert_eq!(reg.quipus.len(), 2);
    assert_eq!(reg.get("q").unwrap().tick_created, 2);
    assert_eq!(reg.get("other").unwrap().tick_created, 3);
    let stats = reg.registry_stats();
    assert_eq!(stats.total_quipus, 2);
    assert_eq!(stats.total_cords, 2);
}

#[test]
fn a_cloned_registry_keeps_names_and_metadata() {
    let mut reg = QuipuRegistry::new();
    let mut meta = HashMap::new();
    meta.insert("k".to_string(), "v".to_string());
    reg.register("q", Quipu::new(meta, 4));
    let copy = reg.clone();
    assert_eq!(copy.quipus.len(), 1);
    assert_eq!(copy.quipus.names()[0], "q");
    let q = copy.get("q").unwrap();
    assert_eq!(q.metadata["k"], "v");
    assert_eq!(q.tick_created, 4);
}
