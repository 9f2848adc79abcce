use lau_quipu::cord_id::CordId;
use lau_quipu::cord_type::CordType;

#[test]
fn test_cord_id_new() {
    let id = CordId::new("test");
    assert_eq!(id.0, "test");
}

#[test]
fn test_cord_id_clone_hash_eq() {
    let a = CordId::new("x");
    let b = a.clone();
    assert_eq!(a, b);
    let mut set = std::collections::HashSet::new();
    set.insert(a.clone());
    assert!(set.contains(&b));
}

#[test]
fn test_cord_id_display() {
    let id = CordId::new("cord-1");
    assert_eq!(id.to_string(), "cord-1");
}

#[test]
fn test_cord_type_depth() {
    assert_eq!(CordType::Primary.depth(), 1);
    assert_eq!(CordType::Secondary.depth(), 2);
    assert_eq!(CordType::Tertiary.depth(), 3);
    assert_eq!(CordType::Auxiliary.depth(), 4);
}

#[test]
fn cord_ids_with_different_names_differ() {
    assert_ne!(CordId::new("a"), CordId::new("b"));
    assert!(CordId::new("primary").is_primary());
    assert!(!CordId::new("primaryx").is_primary());
    assert!(!CordId::new("").is_primary());
}
