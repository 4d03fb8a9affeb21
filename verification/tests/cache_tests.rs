use lru_cache::cache::{Cache, CacheTrait};

fn test_elt_value(cache: &Cache<String, String>, key: String, value: String) {
    if let Some(elt) = cache.get_elt(&key.to_string()) {
        assert_eq!(elt.value, value);
    }
}

fn test_elt_index(cache: &Cache<String, String>, key: String, value: usize) {
    if let Some(elt) = cache.get_elt(&key.to_string()) {
        assert_eq!(elt.index, value);
    }
}

#[test]
fn test_lru_cache_prof() {
    let mut cache = Cache::new(3);

    cache.put("A", String::from("value_a"));
    cache.put("B", String::from("value_b"));
    cache.put("C", String::from("value_c"));
    cache.put("D", String::from("value_d"));
    // Cache == [B, C, D]

    assert_eq!(cache.get(&"A"), None);
    assert_eq!(cache.get(&"D"), Some(&"value_d".to_string()));

    assert_eq!(cache.get(&"B"), Some(&"value_b".to_string()));
    // Cache == [C, D, B]

    assert_eq!(cache.get(&"C"), Some(&"value_c".to_string()));
    // Cache == [D, B, C]

    assert_eq!(cache.get(&"X"), None);

    cache.put("A", String::from("value_a"));
    // Cache == [B, C, A]

    cache.put("X", String::from("value_x"));
    // Cache == [C, A, X]

    assert_eq!(cache.get(&"B"), None);
    assert_eq!(cache.get(&"D"), None);
}

#[test]
fn test_new_cache_vide() {
    let cache: Cache<String, String> = Cache::new(3);
    assert!(cache.is_empty());
    assert_eq!(cache.size(), 3);
    assert_eq!(cache.max_index(), 0);
}

#[test]
fn test_cache_usize_type() {
    let mut cache: Cache<usize, usize> = Cache::new(3);
    cache.put(1, 10);
    cache.put(2, 20);
    cache.put(3, 30);

    assert_eq!(cache.get(&1), Some(&10));
    assert_eq!(cache.get(&2), Some(&20));
    assert_eq!(cache.get(&3), Some(&30));

    cache.put(4, 40);
    assert_eq!(cache.get(&1), None);
    assert_eq!(cache.get(&2), Some(&20));
    assert_eq!(cache.get(&3), Some(&30));
    assert_eq!(cache.get(&4), Some(&40));
}

#[test]
fn test_cache_bool_type() {
    let mut cache: Cache<usize, bool> = Cache::new(3);
    cache.put(1, true);
    cache.put(2, false);
    cache.put(3, true);

    assert_eq!(cache.get(&1), Some(&true));
    assert_eq!(cache.get(&2), Some(&false));
    assert_eq!(cache.get(&3), Some(&true));

    cache.put(4, false);
    assert_eq!(cache.get(&1), None);
    assert_eq!(cache.get(&2), Some(&false));
    assert_eq!(cache.get(&3), Some(&true));
    assert_eq!(cache.get(&4), Some(&false));
}

#[test]
fn test_put_and_get_basic() {
    let mut cache: Cache<String, String> = Cache::new(2);

    assert_eq!(cache.put("A".to_string(), "value_a".to_string()), None);
    assert_eq!(cache.put("B".to_string(), "value_b".to_string()), None);

    test_elt_value(&cache, "A".to_string(), "value_a".to_string());
    test_elt_value(&cache, "B".to_string(), "value_b".to_string());
    test_elt_index(&cache, "A".to_string(), 1);
    test_elt_index(&cache, "B".to_string(), 2);

    assert_eq!(cache.get(&"A".to_string()), Some(&"value_a".to_string()));
    assert_eq!(cache.get(&"B".to_string()), Some(&"value_b".to_string()));

    test_elt_index(&cache, "A".to_string(), 3);
    test_elt_index(&cache, "B".to_string(), 4);
}

#[test]
fn test_put_updates_existing_value() {
    let mut cache: Cache<String, String> = Cache::new(3);

    assert_eq!(cache.put("A".to_string(), "value_a".to_string()), None);
    assert_eq!(cache.put("B".to_string(), "value_b".to_string()), None);
    assert_eq!(
        cache.put("A".to_string(), "value_A".to_string()),
        Some("value_a".to_string())
    );

    test_elt_value(&cache, "A".to_string(), "value_A".to_string());
    test_elt_index(&cache, "A".to_string(), 3);

    assert_eq!(cache.len(), 2)
}

#[test]
fn test_lru_ejection() {
    let mut cache: Cache<String, String> = Cache::new(2);

    let _ = cache.put("A".to_string(), "value_a".to_string());
    let _ = cache.put("B".to_string(), "value_b".to_string());
    let _ = cache.put("C".to_string(), "value_c".to_string());

    assert_eq!(cache.get(&"A".to_string()), None);
    assert_eq!(cache.get(&"B".to_string()), Some(&"value_b".to_string()));
    assert_eq!(cache.get(&"C".to_string()), Some(&"value_c".to_string()));
}

#[test]
fn test_lru_ejection_ordre() {
    let mut cache: Cache<String, String> = Cache::new(2);

    let _ = cache.put("A".to_string(), "value_a".to_string());
    let _ = cache.put("B".to_string(), "value_b".to_string());

    assert_eq!(cache.get(&"A".to_string()), Some(&"value_a".to_string()));

    let _ = cache.put("C".to_string(), "value_c".to_string());

    assert_eq!(cache.get(&"B".to_string()), None);
    assert_eq!(cache.get(&"A".to_string()), Some(&"value_a".to_string()));
    assert_eq!(cache.get(&"C".to_string()), Some(&"value_c".to_string()));
}

#[test]
fn test_get_pas_de_clef() {
    let mut cache: Cache<String, String> = Cache::new(2);
    assert_eq!(cache.get(&"X".to_string()), None);
}

#[test]
fn test_get_multiple_index() {
    let mut cache: Cache<String, String> = Cache::new(3);

    let _ = cache.put("A".to_string(), "value_a".to_string());
    let _ = cache.put("B".to_string(), "value_b".to_string());
    let _ = cache.put("C".to_string(), "value_c".to_string());

    test_elt_index(&cache, "A".to_string(), 1);
    test_elt_index(&cache, "B".to_string(), 2);
    test_elt_index(&cache, "C".to_string(), 3);

    let _ = cache.get(&"B".to_string());
    let _ = cache.get(&"B".to_string());
    let _ = cache.get(&"B".to_string());
    let _ = cache.get(&"B".to_string());
    test_elt_index(&cache, "A".to_string(), 1);
    test_elt_index(&cache, "B".to_string(), 7);
    test_elt_index(&cache, "C".to_string(), 3);

    let _ = cache.get(&"A".to_string());
    test_elt_index(&cache, "A".to_string(), 8);
    test_elt_index(&cache, "B".to_string(), 7);
    test_elt_index(&cache, "C".to_string(), 3);
}

#[test]
fn put_within_capacity_keeps_every_key() {
    let mut cache: Cache<String, usize> = Cache::new(4);
    cache.put("A".to_string(), 1);
    cache.put("B".to_string(), 2);
    cache.put("A".to_string(), 3);
    cache.put("C".to_string(), 4);

    assert_eq!(cache.len(), 3);
    assert_eq!(cache.get(&"A".to_string()), Some(&3));
    assert_eq!(cache.get(&"B".to_string()), Some(&2));
    assert_eq!(cache.get(&"C".to_string()), Some(&4));
}

#[test]
fn eviction_takes_exactly_the_lowest_rank() {
    let mut cache: Cache<String, usize> = Cache::new(3);
    cache.put("A".to_string(), 1);
    cache.put("B".to_string(), 2);
    cache.put("C".to_string(), 3);
    // Ranks: A:1, B:2, C:3 -- refresh A so B holds the lowest rank.
    let _ = cache.get(&"A".to_string());

    cache.put("D".to_string(), 4);

    assert!(cache.get_elt(&"B".to_string()).is_none());
    assert!(cache.get_elt(&"A".to_string()).is_some());
    assert!(cache.get_elt(&"C".to_string()).is_some());
    assert!(cache.get_elt(&"D".to_string()).is_some());
    assert_eq!(cache.len(), 3);
}

#[test]
fn get_refreshes_rank_to_current_maximum() {
    let mut cache: Cache<String, usize> = Cache::new(3);
    cache.put("A".to_string(), 1);
    cache.put("B".to_string(), 2);

    assert_eq!(cache.get(&"A".to_string()), Some(&1));
    let a = cache.get_elt(&"A".to_string()).unwrap();
    assert_eq!(a.index, 3);
    assert_eq!(cache.max_index(), 3);

    // A miss changes neither the counter nor any rank.
    assert_eq!(cache.get(&"Z".to_string()), None);
    assert_eq!(cache.max_index(), 3);
    assert_eq!(cache.get_elt(&"A".to_string()).unwrap().index, 3);
    assert_eq!(cache.get_elt(&"B".to_string()).unwrap().index, 2);
}

#[test]
fn lru_scenario_refresh_then_evict() {
    // Capacity 3: put A, B, C; get A; put D evicts B; updating C
    // returns its old value; the live set ends as {A, D, C}.
    let mut cache: Cache<String, String> = Cache::new(3);
    cache.put("A".to_string(), "value_a".to_string());
    cache.put("B".to_string(), "value_b".to_string());
    cache.put("C".to_string(), "value_c".to_string());

    assert_eq!(cache.get(&"A".to_string()), Some(&"value_a".to_string()));

    assert_eq!(cache.put("D".to_string(), "value_d".to_string()), None);
    assert!(cache.get_elt(&"B".to_string()).is_none());

    assert_eq!(
        cache.put("C".to_string(), "value_C_new".to_string()),
        Some("value_c".to_string())
    );

    assert!(cache.get_elt(&"A".to_string()).is_some());
    assert!(cache.get_elt(&"D".to_string()).is_some());
    assert!(cache.get_elt(&"C".to_string()).is_some());
    assert_eq!(cache.len(), 3);
}
