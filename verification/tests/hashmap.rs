use toy_redis::store::hashmap::HashMap;

#[test]
fn basic_set_get() {
    let mut m: HashMap<String, String> = HashMap::new();
    m.insert("hello".into(), "world".into());
    assert_eq!(m.get(&"hello".into()), Some(&"world".into()));
    assert_eq!(m.get(&"nope".into()), None);
}

#[test]
fn remove_and_tombstone() {
    let mut m: HashMap<String, i32> = HashMap::new();
    m.insert("a".into(), 1);
    m.insert("b".into(), 2);
    m.remove(&"a".into());
    assert!(!m.contains_key(&"a".into()));
    assert!(m.contains_key(&"b".into()));
}

#[test]
fn load_factor_respected() {
    let mut m: HashMap<i32, i32> = HashMap::new();
    for i in 0..100 {
        m.insert(i, i * 2);
    }
    let load = m.len() as f64 / m.capacity() as f64;
    assert!(load <= 0.75, "load factor exceeded: {:.2}", load);
}

#[test]
fn hashmap_insert_returns_previous_value() {
    let mut m: HashMap<String, i32> = HashMap::new();
    assert_eq!(m.insert("k".to_string(), 1), None);
    assert_eq!(m.insert("k".to_string(), 2), Some(1));
    assert_eq!(m.len(), 1);
    assert_eq!(m.get(&"k".to_string()), Some(&2));
}

#[test]
fn hashmap_remove_returns_value() {
    let mut m: HashMap<String, i32> = HashMap::new();
    m.insert("a".to_string(), 7);
    assert_eq!(m.remove(&"a".to_string()), Some(7));
    assert_eq!(m.remove(&"a".to_string()), None);
    assert!(m.is_empty());
}

#[test]
fn hashmap_new_has_sixteen_slots() {
    let m: HashMap<i32, i32> = HashMap::new();
    assert_eq!(m.capacity(), 16);
    assert_eq!(m.len(), 0);
    assert!(m.is_empty());
}

#[test]
fn hashmap_with_capacity_rounds_to_power_of_two() {
    let m: HashMap<i32, i32> = HashMap::with_capacity(100);
    assert_eq!(m.capacity(), 128);
    let small: HashMap<i32, i32> = HashMap::with_capacity(3);
    assert_eq!(small.capacity(), 16);
    let exact: HashMap<i32, i32> = HashMap::with_capacity(64);
    assert_eq!(exact.capacity(), 64);
}

#[test]
fn hashmap_doubles_when_three_quarters_full() {
    let mut m: HashMap<i32, i32> = HashMap::new();
    for i in 0..12 {
        m.insert(i, i);
    }
    assert_eq!(m.capacity(), 16);
    m.insert(12, 12);
    assert_eq!(m.capacity(), 32);
    for i in 0..13 {
        assert_eq!(m.get(&i), Some(&i));
    }
}

#[test]
fn hashmap_tombstones_do_not_grow_the_table() {
    let mut m: HashMap<i32, i32> = HashMap::new();
    for round in 0..100 {
        m.insert(round, round);
        m.remove(&round);
    }
    assert_eq!(m.capacity(), 16);
    assert!(m.is_empty());
    m.insert(5, 50);
    assert_eq!(m.get(&5), Some(&50));
}

#[test]
fn hashmap_get_mut_updates_value() {
    let mut m: HashMap<String, Vec<i32>> = HashMap::new();
    m.insert("v".to_string(), vec![1]);
    m.get_mut(&"v".to_string()).unwrap().push(2);
    assert_eq!(m.get(&"v".to_string()), Some(&vec![1, 2]));
    assert!(m.get_mut(&"w".to_string()).is_none());
}

#[test]
fn hashmap_iter_lists_each_entry_once() {
    let mut m: HashMap<i32, i32> = HashMap::new();
    for i in 0..40 {
        m.insert(i, i * 10);
    }
    for i in 0..10 {
        m.remove(&i);
    }
    let mut seen: Vec<(i32, i32)> = m.iter().into_iter().map(|(k, v)| (*k, *v)).collect();
    seen.sort();
    let expected: Vec<(i32, i32)> = (10..40).map(|i| (i, i * 10)).collect();
    assert_eq!(seen, expected);
}

#[test]
fn hashmap_distinguishes_negative_keys() {
    let mut m: HashMap<i32, &str> = HashMap::new();
    m.insert(-1, "minus one");
    m.insert(1, "one");
    m.insert(i32::MIN, "min");
    assert_eq!(m.get(&-1), Some(&"minus one"));
    assert_eq!(m.get(&1), Some(&"one"));
    assert_eq!(m.get(&i32::MIN), Some(&"min"));
    assert_eq!(m.len(), 3);
}
