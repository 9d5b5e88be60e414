use toy_redis::commands::handlers::{bytes_eq, execute, keys_match, parse_command, Command};
use toy_redis::protocol::resp::{parse, RespValue};
use toy_redis::store::hashmap::HashMap;
use toy_redis::pubsub::{Client, PubSub};
use toy_redis::store::sharded::ShardedStore;

fn run(
    req: &[u8],
    store: &mut ShardedStore,
    expiry: &mut HashMap<String, u64>,
    now: u64,
    log: &mut Vec<Vec<u8>>,
) -> Vec<u8> {
    let (val, _) = parse(req).unwrap();
    let cmd = parse_command(&val).expect("not a command");
    let mut pubsub = PubSub::new();
    let mut client = Client::new();
    let (tx, _rx) = std::sync::mpsc::channel::<String>();
    execute(cmd, store, expiry, now, log, &mut pubsub, &mut client, tx)
}

#[test]
fn glob_patterns() {
    assert!(keys_match("*", ""));
    assert!(keys_match("*", "anything"));
    assert!(keys_match("key*", "key1"));
    assert!(keys_match("key*", "key"));
    assert!(!keys_match("key*", "other"));
    assert!(keys_match("k?y", "key"));
    assert!(!keys_match("k?y", "ky"));
    assert!(keys_match("*1", "key1"));
    assert!(!keys_match("*1", "key2"));
    assert!(keys_match("a*b*c", "aXXbYc"));
    assert!(!keys_match("a*b*c", "aXXbY"));
    assert!(keys_match("exact", "exact"));
    assert!(!keys_match("exact", "exacT"));
    assert!(!keys_match("", "x"));
    assert!(keys_match("", ""));
}

#[test]
fn bytes_eq_compares_contents() {
    assert!(bytes_eq(b"abc", b"abc"));
    assert!(!bytes_eq(b"abc", b"abd"));
    assert!(!bytes_eq(b"abc", b"ab"));
    assert!(bytes_eq(b"", b""));
}

#[test]
fn parse_command_recognises_commands() {
    let (v, _) = parse(b"*1\r\n$4\r\nping\r\n").unwrap();
    assert!(matches!(parse_command(&v), Some(Command::Ping(None))));
    let (v, _) = parse(b"*2\r\n$4\r\nPING\r\n$2\r\nhi\r\n").unwrap();
    assert!(matches!(parse_command(&v), Some(Command::Ping(Some(m))) if m == b"hi"));
    let (v, _) = parse(b"*3\r\n$3\r\nsEt\r\n$1\r\nk\r\n$1\r\nv\r\n").unwrap();
    assert!(matches!(parse_command(&v), Some(Command::SetKey { key: "k", value: "v" })));
    let (v, _) = parse(b"*2\r\n$3\r\nGET\r\n$1\r\nk\r\n").unwrap();
    assert!(matches!(parse_command(&v), Some(Command::Get { key: "k" })));
    let (v, _) = parse(b"*3\r\n$3\r\nDEL\r\n$1\r\na\r\n$1\r\nb\r\n").unwrap();
    assert!(matches!(parse_command(&v), Some(Command::Del { keys }) if keys == vec!["a", "b"]));
    let (v, _) = parse(b"*2\r\n$6\r\nEXISTS\r\n$1\r\nk\r\n").unwrap();
    assert!(matches!(parse_command(&v), Some(Command::Exists { key: "k" })));
    let (v, _) = parse(b"*2\r\n$4\r\nKEYS\r\n$1\r\n*\r\n").unwrap();
    assert!(matches!(parse_command(&v), Some(Command::Keys { pattern: "*" })));
    let (v, _) = parse(b"*3\r\n$6\r\nEXPIRE\r\n$1\r\nk\r\n$2\r\n10\r\n").unwrap();
    assert!(matches!(parse_command(&v), Some(Command::Expire { key: "k", seconds: 10 })));
    let (v, _) = parse(b"*2\r\n$3\r\nTTL\r\n$1\r\nk\r\n").unwrap();
    assert!(matches!(parse_command(&v), Some(Command::Ttl { key: "k" })));
}

#[test]
fn parse_command_rejects_malformed_requests() {
    let rejected: Vec<&[u8]> = vec![
        b"+PING\r\n",
        b"*0\r\n",
        b"*1\r\n$3\r\nFOO\r\n",
        b"*1\r\n:1\r\n",
        b"*1\r\n$3\r\nGET\r\n",
        b"*2\r\n$3\r\nSET\r\n$1\r\nk\r\n",
        b"*1\r\n$3\r\nDEL\r\n",
        b"*3\r\n$3\r\nDEL\r\n$1\r\na\r\n:1\r\n",
        b"*3\r\n$6\r\nEXPIRE\r\n$1\r\nk\r\n$2\r\n-1\r\n",
        b"*3\r\n$6\r\nEXPIRE\r\n$1\r\nk\r\n$1\r\nx\r\n",
        b"*2\r\n$3\r\nGET\r\n$1\r\n\xff\r\n",
        b"*1\r\n$2\r\n\xff\xfe\r\n",
    ];
    for req in rejected {
        let (v, _) = parse(req).unwrap();
        assert!(parse_command(&v).is_none(), "accepted {:?}", req);
    }
}

#[test]
fn execute_ping_set_get_del() {
    let mut store = ShardedStore::new();
    let mut expiry: HashMap<String, u64> = HashMap::new();
    let mut log: Vec<Vec<u8>> = Vec::new();
    assert_eq!(run(b"*1\r\n$4\r\nPING\r\n", &mut store, &mut expiry, 0, &mut log), b"+PONG\r\n");
    assert_eq!(
        run(b"*2\r\n$4\r\nPING\r\n$5\r\nhello\r\n", &mut store, &mut expiry, 0, &mut log),
        b"$5\r\nhello\r\n"
    );
    assert_eq!(
        run(b"*3\r\n$3\r\nSET\r\n$3\r\nfoo\r\n$3\r\nbar\r\n", &mut store, &mut expiry, 0, &mut log),
        b"+OK\r\n"
    );
    assert_eq!(log, vec![b"*3\r\n$3\r\nSET\r\n$3\r\nfoo\r\n$3\r\nbar\r\n".to_vec()]);
    assert_eq!(
        run(b"*2\r\n$3\r\nGET\r\n$3\r\nfoo\r\n", &mut store, &mut expiry, 0, &mut log),
        b"$3\r\nbar\r\n"
    );
    assert_eq!(
        run(b"*3\r\n$3\r\nDEL\r\n$3\r\nfoo\r\n$4\r\nnone\r\n", &mut store, &mut expiry, 0, &mut log),
        b":1\r\n"
    );
    assert_eq!(log.len(), 2);
    assert_eq!(log[1], b"*3\r\n$3\r\nDEL\r\n$3\r\nfoo\r\n$4\r\nnone\r\n".to_vec());
    assert_eq!(
        run(b"*2\r\n$3\r\nGET\r\n$3\r\nfoo\r\n", &mut store, &mut expiry, 0, &mut log),
        b"$-1\r\n"
    );
    assert_eq!(
        run(b"*2\r\n$3\r\nDEL\r\n$3\r\nfoo\r\n", &mut store, &mut expiry, 0, &mut log),
        b":0\r\n"
    );
    assert_eq!(log.len(), 2);
}

#[test]
fn execute_del_counts_repeated_key_once() {
    let mut store = ShardedStore::new();
    let mut expiry: HashMap<String, u64> = HashMap::new();
    let mut log: Vec<Vec<u8>> = Vec::new();
    run(b"*3\r\n$3\r\nSET\r\n$1\r\na\r\n$1\r\n1\r\n", &mut store, &mut expiry, 0, &mut log);
    assert_eq!(
        run(b"*3\r\n$3\r\nDEL\r\n$1\r\na\r\n$1\r\na\r\n", &mut store, &mut expiry, 0, &mut log),
        b":1\r\n"
    );
}

#[test]
fn execute_exists_and_keys() {
    let mut store = ShardedStore::new();
    let mut expiry: HashMap<String, u64> = HashMap::new();
    let mut log: Vec<Vec<u8>> = Vec::new();
    run(b"*3\r\n$3\r\nSET\r\n$4\r\nkey1\r\n$1\r\nv\r\n", &mut store, &mut expiry, 0, &mut log);
    run(b"*3\r\n$3\r\nSET\r\n$4\r\nkey2\r\n$1\r\nv\r\n", &mut store, &mut expiry, 0, &mut log);
    run(b"*3\r\n$3\r\nSET\r\n$5\r\nother\r\n$1\r\nv\r\n", &mut store, &mut expiry, 0, &mut log);
    assert_eq!(
        run(b"*2\r\n$6\r\nEXISTS\r\n$4\r\nkey1\r\n", &mut store, &mut expiry, 0, &mut log),
        b":1\r\n"
    );
    assert_eq!(
        run(b"*2\r\n$6\r\nEXISTS\r\n$4\r\nnope\r\n", &mut store, &mut expiry, 0, &mut log),
        b":0\r\n"
    );
    let reply = run(b"*2\r\n$4\r\nKEYS\r\n$4\r\nkey*\r\n", &mut store, &mut expiry, 0, &mut log);
    let (v, n) = parse(&reply).unwrap();
    assert_eq!(n, reply.len());
    match v {
        RespValue::Array(items) => {
            let mut names: Vec<&[u8]> = items
                .iter()
                .map(|i| match i {
                    RespValue::BulkString(b) => *b,
                    _ => panic!("not a bulk string"),
                })
                .collect();
            names.sort();
            assert_eq!(names, vec![&b"key1"[..], &b"key2"[..]]);
        }
        _ => panic!("KEYS did not reply with an array"),
    }
    let none = run(b"*2\r\n$4\r\nKEYS\r\n$3\r\nzz*\r\n", &mut store, &mut expiry, 0, &mut log);
    assert_eq!(none, b"*0\r\n");
    assert_eq!(log.len(), 3);
}

#[test]
fn execute_expire_and_ttl() {
    let mut store = ShardedStore::new();
    let mut expiry: HashMap<String, u64> = HashMap::new();
    let mut log: Vec<Vec<u8>> = Vec::new();
    assert_eq!(
        run(b"*2\r\n$3\r\nTTL\r\n$1\r\nk\r\n", &mut store, &mut expiry, 1000, &mut log),
        b":-2\r\n"
    );
    assert_eq!(
        run(b"*3\r\n$6\r\nEXPIRE\r\n$1\r\nk\r\n$1\r\n5\r\n", &mut store, &mut expiry, 1000, &mut log),
        b":0\r\n"
    );
    run(b"*3\r\n$3\r\nSET\r\n$1\r\nk\r\n$1\r\nv\r\n", &mut store, &mut expiry, 1000, &mut log);
    assert_eq!(
        run(b"*2\r\n$3\r\nTTL\r\n$1\r\nk\r\n", &mut store, &mut expiry, 1000, &mut log),
        b":-1\r\n"
    );
    assert_eq!(
        run(b"*3\r\n$6\r\nEXPIRE\r\n$1\r\nk\r\n$1\r\n5\r\n", &mut store, &mut expiry, 1000, &mut log),
        b":1\r\n"
    );
    assert_eq!(expiry.get(&"k".to_string()), Some(&6000));
    assert_eq!(
        run(b"*2\r\n$3\r\nTTL\r\n$1\r\nk\r\n", &mut store, &mut expiry, 1000, &mut log),
        b":5\r\n"
    );
    assert_eq!(
        run(b"*2\r\n$3\r\nTTL\r\n$1\r\nk\r\n", &mut store, &mut expiry, 1500, &mut log),
        b":4\r\n"
    );
    assert_eq!(
        run(b"*2\r\n$3\r\nTTL\r\n$1\r\nk\r\n", &mut store, &mut expiry, 6000, &mut log),
        b":-2\r\n"
    );
}

#[test]
fn execute_expire_saturates_far_deadlines() {
    let mut store = ShardedStore::new();
    let mut expiry: HashMap<String, u64> = HashMap::new();
    let mut log: Vec<Vec<u8>> = Vec::new();
    run(b"*3\r\n$3\r\nSET\r\n$1\r\nk\r\n$1\r\nv\r\n", &mut store, &mut expiry, 7, &mut log);
    let req = b"*3\r\n$6\r\nEXPIRE\r\n$1\r\nk\r\n$19\r\n9223372036854775807\r\n";
    assert_eq!(run(req, &mut store, &mut expiry, 7, &mut log), b":1\r\n");
    assert_eq!(expiry.get(&"k".to_string()), Some(&u64::MAX));
}
