use rust_recipes::hash_map::HashMap;

#[test]
fn test_hash_map() {}

#[test]
fn hash_map_lookups_on_a_new_map_find_nothing() {
    let mut m: HashMap<u64, String> = HashMap::new();
    assert_eq!(m.get(&7), None);
    assert!(!m.contains_key(&7));
    assert!(m.get_mut(&7).is_none());
    assert_eq!(m.remove(&7), None);
    let m2: HashMap<&str, i32> = HashMap::with_capacity(0);
    assert_eq!(m2.get(&"a"), None);
}
