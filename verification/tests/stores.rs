use toy_redis::store::sharded::ShardedStore;
use toy_redis::store::KvStore;

#[test]
fn kv_store_set_get_del() {
    let mut s = KvStore::new();
    assert_eq!(s.get("a"), None);
    s.set("a".to_string(), "1".to_string());
    s.set("b".to_string(), "2".to_string());
    assert_eq!(s.get("a"), Some("1"));
    assert_eq!(s.get("b"), Some("2"));
    assert_eq!(s.stats().used, 2);
    s.set("a".to_string(), "one".to_string());
    assert_eq!(s.get("a"), Some("one"));
    assert_eq!(s.stats().used, 2);
    assert!(s.del("a"));
    assert!(!s.del("a"));
    assert_eq!(s.get("a"), None);
    assert_eq!(s.stats().used, 1);
}

#[test]
fn kv_store_uses_one_slab_for_few_keys() {
    let mut s = KvStore::new();
    let fresh = s.stats();
    assert_eq!((fresh.total_cap, fresh.used, fresh.slabs_alloc), (0, 0, 0));
    for i in 0..10 {
        s.set(format!("k{}", i), format!("v{}", i));
    }
    let st = s.stats();
    assert_eq!(st.used, 10);
    assert_eq!(st.slabs_alloc, 1);
    assert_eq!(st.total_cap, 1024);
}

#[test]
fn kv_store_grows_past_one_slab() {
    let mut s = KvStore::new();
    for i in 0..1500 {
        s.set(format!("k{}", i), format!("v{}", i));
    }
    assert_eq!(s.stats().used, 1500);
    assert_eq!(s.stats().slabs_alloc, 2);
    for i in 0..1500 {
        assert_eq!(s.get(&format!("k{}", i)), Some(format!("v{}", i).as_str()));
    }
}

#[test]
fn sharded_store_insert_get_remove() {
    let mut s = ShardedStore::new();
    assert!(s.has_room_for(1));
    assert!(!s.has_room_for(usize::MAX / 4));
    s.insert("x".to_string(), "1".to_string());
    s.insert("y".to_string(), "2".to_string());
    assert_eq!(s.get("x"), Some("1".to_string()));
    assert!(s.contains_key("y"));
    assert!(!s.contains_key("z"));
    s.insert("x".to_string(), "3".to_string());
    assert_eq!(s.get("x"), Some("3".to_string()));
    assert_eq!(s.remove("x"), Some("3".to_string()));
    assert_eq!(s.remove("x"), None);
    assert_eq!(s.get("x"), None);
}

#[test]
fn sharded_store_lists_each_key_once() {
    let mut s = ShardedStore::new();
    for i in 0..200 {
        s.insert(format!("key{}", i), "v".to_string());
    }
    s.insert("key7".to_string(), "again".to_string());
    s.remove("key3");
    let mut keys = s.get_all_keys();
    keys.sort();
    let mut expected: Vec<String> = (0..200).filter(|i| *i != 3).map(|i| format!("key{}", i)).collect();
    expected.sort();
    assert_eq!(keys, expected);
}

#[test]
fn kv_store_overwrite_reuses_its_cell() {
    let mut s = KvStore::new();
    s.set("a".into(), "1".into());
    s.set("a".into(), "2".into());
    s.set("b".into(), "3".into());
    assert_eq!(s.get("a"), Some("2"));
    assert_eq!(s.get("b"), Some("3"));
    assert_eq!(s.get("c"), None);
    assert_eq!(s.stats().used, 2);
    assert_eq!(s.stats().slabs_alloc, 1);
}
