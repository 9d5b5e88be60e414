use std::sync::mpsc;
use toy_redis::aof::{replay_aof, split_lines, Aof};
use toy_redis::server::{process_request, Step};
use toy_redis::expiry::{collect_expired, expire_tick};
use toy_redis::pubsub::{retain_flagged, Client, PubSub};
use toy_redis::store::hashmap::HashMap;
use toy_redis::store::sharded::ShardedStore;

fn lines(text: &str) -> Vec<String> {
    text.lines().map(|l| l.to_string()).collect()
}

#[test]
fn replay_aof_applies_set_and_del() {
    let log = "*3\r\n$3\r\nSET\r\n$3\r\nfoo\r\n$3\r\nbar\r\n\
               *3\r\n$3\r\nset\r\n$1\r\nk\r\n$2\r\nv1\r\n\
               *3\r\n$3\r\nSET\r\n$1\r\nk\r\n$2\r\nv2\r\n\
               *2\r\n$3\r\nDEL\r\n$3\r\nfoo\r\n";
    let mut store = ShardedStore::new();
    replay_aof(&lines(log), &mut store);
    assert_eq!(store.get("foo"), None);
    assert_eq!(store.get("k"), Some("v2".to_string()));
}

#[test]
fn replay_aof_reads_command_names_in_any_case() {
    let log = "*3\r\n$3\r\nsEt\r\n$1\r\nq\r\n$1\r\nw\r\n*2\r\n$3\r\nset\r\n$1\r\nr\r\n$1\r\ns\r\n*2\r\n$3\r\ndel\r\n$1\r\nr\r\n";
    let mut store = ShardedStore::new();
    replay_aof(&lines(log), &mut store);
    assert_eq!(store.get("q"), Some("w".to_string()));
    assert_eq!(store.get("r"), None);
}

#[test]
fn replay_aof_trims_lines_and_skips_other_commands() {
    let log = "  *3 \r\n$4\r\n ping \r\n$1\r\n*3\r\n$3\r\nSET\r\n$1\r\n  a  \r\n$1\r\n b \r\n";
    let mut store = ShardedStore::new();
    replay_aof(&lines(log), &mut store);
    assert_eq!(store.get("a"), Some("b".to_string()));
    assert_eq!(store.get_all_keys(), vec!["a".to_string()]);
}

#[test]
fn replay_aof_handles_truncated_log() {
    let log = "*3\r\n$3\r\nSET\r\n$1\r\nk";
    let mut store = ShardedStore::new();
    replay_aof(&lines(log), &mut store);
    assert_eq!(store.get("k"), Some(String::new()));
}

#[test]
fn replay_aof_stops_short_del_at_next_command() {
    let log = "*3\r\n$3\r\nSET\r\n$1\r\nk\r\n$1\r\nv\r\n\
               *5\r\n$3\r\nDEL\r\n$1\r\nk\r\n\
               *3\r\n$3\r\nSET\r\n$1\r\na\r\n$1\r\nb\r\n";
    let mut store = ShardedStore::new();
    replay_aof(&lines(log), &mut store);
    assert_eq!(store.get("k"), None);
    assert_eq!(store.get("a"), Some("b".to_string()));
    assert_eq!(store.get_all_keys(), vec!["a".to_string()]);
}

#[test]
fn aof_log_command_sends_bytes() {
    let (tx, rx) = mpsc::channel::<Vec<u8>>();
    let mut aof = Aof::from_sender(tx);
    assert!(aof.log_command("*1\r\n$4\r\nPING\r\n"));
    assert_eq!(rx.recv().unwrap(), b"*1\r\n$4\r\nPING\r\n".to_vec());
    drop(rx);
    assert!(!aof.log_command("lost"));
}

#[test]
fn expire_tick_removes_due_keys_only() {
    let mut store = ShardedStore::new();
    let mut expiry: HashMap<String, u64> = HashMap::new();
    for k in ["a", "b", "c"] {
        store.insert(k.to_string(), "v".to_string());
    }
    expiry.insert("a".to_string(), 100);
    expiry.insert("b".to_string(), 200);
    expiry.insert("gone".to_string(), 50);
    let mut due = collect_expired(&expiry, 100);
    due.sort();
    assert_eq!(due, vec!["a".to_string(), "gone".to_string()]);
    expire_tick(&mut store, &mut expiry, 100);
    assert_eq!(store.get("a"), None);
    assert_eq!(store.get("b"), Some("v".to_string()));
    assert_eq!(store.get("c"), Some("v".to_string()));
    assert_eq!(expiry.get(&"a".to_string()), None);
    assert_eq!(expiry.get(&"gone".to_string()), None);
    assert_eq!(expiry.get(&"b".to_string()), Some(&200));
    expire_tick(&mut store, &mut expiry, 199);
    assert!(store.contains_key("b"));
    expire_tick(&mut store, &mut expiry, 200);
    assert!(!store.contains_key("b"));
    assert!(expiry.is_empty());
}

#[test]
fn pubsub_delivers_to_subscribers() {
    let mut ps = PubSub::new();
    assert_eq!(ps.publish("news", "nobody"), 0);
    let (tx1, rx1) = mpsc::channel::<String>();
    let (tx2, rx2) = mpsc::channel::<String>();
    ps.subscribe("news", tx1);
    ps.subscribe("news", tx2);
    assert_eq!(ps.publish("news", "Rust is awesome!"), 2);
    assert_eq!(rx1.recv().unwrap(), "Rust is awesome!");
    assert_eq!(rx2.recv().unwrap(), "Rust is awesome!");
    assert_eq!(ps.publish("sports", "x"), 0);
}

#[test]
fn pubsub_drops_disconnected_subscribers() {
    let mut ps = PubSub::new();
    let (tx1, rx1) = mpsc::channel::<String>();
    let (tx2, rx2) = mpsc::channel::<String>();
    ps.subscribe("c", tx1);
    ps.subscribe("c", tx2);
    drop(rx1);
    assert_eq!(ps.publish("c", "m1"), 1);
    assert_eq!(rx2.recv().unwrap(), "m1");
    drop(rx2);
    assert_eq!(ps.publish("c", "m2"), 0);
}

#[test]
fn retain_flagged_keeps_flagged_in_order() {
    let mut v = vec![1, 2, 3, 4, 5];
    retain_flagged(&mut v, &vec![true, false, true, false, true]);
    assert_eq!(v, vec![1, 3, 5]);
    let mut w: Vec<i32> = vec![];
    retain_flagged(&mut w, &vec![]);
    assert!(w.is_empty());
}

#[test]
fn split_lines_reads_like_bufread_lines() {
    assert!(split_lines(b"").is_empty());
    assert_eq!(split_lines(b"a\r\nb\nc"), vec!["a", "b", "c"]);
    assert_eq!(split_lines(b"a\n\n"), vec!["a", ""]);
    assert_eq!(split_lines(b"x\r"), vec!["x\r"]);
    assert_eq!(split_lines(b"ok\n\xff\xfe\nlast\n"), vec!["ok", "last"]);
    assert_eq!(split_lines("é\r\n".as_bytes()), vec!["é"]);
}

#[test]
fn replaying_the_log_rebuilds_the_store() {
    let mut store = ShardedStore::new();
    let mut expiry: HashMap<String, u64> = HashMap::new();
    let mut log: Vec<Vec<u8>> = Vec::new();
    let requests: Vec<&[u8]> = vec![
        b"*3\r\n$3\r\nSET\r\n$3\r\nfoo\r\n$3\r\nbar\r\n",
        b"*3\r\n$3\r\nSET\r\n$6\r\nk\xc3\xa9y 2\r\n$7\r\nv\xc3\xa0l ue\r\n",
        b"*2\r\n$3\r\nGET\r\n$3\r\nfoo\r\n",
        b"*3\r\n$3\r\nSET\r\n$3\r\nfoo\r\n$3\r\nbaz\r\n",
        b"*2\r\n$3\r\nDEL\r\n$4\r\ngone\r\n",
        b"*3\r\n$3\r\nSET\r\n$1\r\nx\r\n$1\r\n1\r\n",
        b"*2\r\n$3\r\nDEL\r\n$1\r\nx\r\n",
    ];
    for req in requests {
        let mut ps = PubSub::new();
        let mut client = Client::new();
        let (tx, _rx) = mpsc::channel::<String>();
        match process_request(req, &mut store, &mut expiry, 0, &mut log, &mut ps, &mut client, tx) {
            Step::Reply { .. } => {}
            _ => panic!("request not served"),
        }
    }
    let file: Vec<u8> = log.concat();
    let mut restored = ShardedStore::new();
    replay_aof(&split_lines(&file), &mut restored);
    let mut want = store.get_all_keys();
    let mut got = restored.get_all_keys();
    want.sort();
    got.sort();
    assert_eq!(got, want);
    for k in want {
        assert_eq!(restored.get(&k), store.get(&k));
    }
    assert_eq!(restored.get("foo"), Some("baz".to_string()));
    assert_eq!(restored.get("k\u{e9}y 2"), Some("v\u{e0}l ue".to_string()));
    assert_eq!(restored.get("x"), None);
}

#[test]
fn replay_aof_restores_multi_key_del() {
    let mut store = ShardedStore::new();
    let mut expiry: HashMap<String, u64> = HashMap::new();
    let mut log: Vec<Vec<u8>> = Vec::new();
    let requests: Vec<&[u8]> = vec![
        b"*3\r\n$3\r\nSET\r\n$1\r\na\r\n$1\r\n1\r\n",
        b"*3\r\n$3\r\nSET\r\n$1\r\nb\r\n$1\r\n2\r\n",
        b"*3\r\n$3\r\nSET\r\n$1\r\nc\r\n$1\r\n3\r\n",
        b"*4\r\n$3\r\nDEL\r\n$1\r\na\r\n$4\r\nnone\r\n$1\r\nb\r\n",
    ];
    for req in requests {
        let mut ps = PubSub::new();
        let mut client = Client::new();
        let (tx, _rx) = mpsc::channel::<String>();
        match process_request(req, &mut store, &mut expiry, 0, &mut log, &mut ps, &mut client, tx) {
            Step::Reply { .. } => {}
            _ => panic!("request not served"),
        }
    }
    let mut restored = ShardedStore::new();
    replay_aof(&split_lines(&log.concat()), &mut restored);
    assert_eq!(restored.get("a"), None);
    assert_eq!(restored.get("b"), None);
    assert_eq!(restored.get("c"), Some("3".to_string()));
    assert_eq!(restored.get_all_keys(), store.get_all_keys());
}
