use toy_redis::expiry::expire_tick;
use toy_redis::server::{after_step, process_request, Step, MAX_PENDING};
use toy_redis::store::hashmap::HashMap;
use std::sync::mpsc::{self, Receiver, Sender};
use toy_redis::pubsub::{Client, PubSub};
use toy_redis::store::sharded::ShardedStore;

fn serve(
    buf: &[u8],
    store: &mut ShardedStore,
    expiry: &mut HashMap<String, u64>,
    now: u64,
    log: &mut Vec<Vec<u8>>,
) -> Step {
    let mut ps = PubSub::new();
    let mut client = Client::new();
    let (tx, _rx) = mpsc::channel::<String>();
    process_request(buf, store, expiry, now, log, &mut ps, &mut client, tx)
}

struct Session {
    store: ShardedStore,
    expiry: HashMap<String, u64>,
    log: Vec<Vec<u8>>,
    now: u64,
    client: Client,
    tx: Sender<String>,
    rx: Receiver<String>,
}

impl Session {
    fn new() -> Self {
        let (tx, rx) = mpsc::channel::<String>();
        Session {
            store: ShardedStore::new(),
            expiry: HashMap::new(),
            log: Vec::new(),
            now: 0,
            client: Client::new(),
            tx,
            rx,
        }
    }

    fn send_recv(&mut self, cmd: &[u8]) -> String {
        let mut ps = PubSub::new();
        self.send_recv_on(&mut ps, cmd)
    }

    fn send_recv_on(&mut self, ps: &mut PubSub, cmd: &[u8]) -> String {
        match process_request(
            cmd,
            &mut self.store,
            &mut self.expiry,
            self.now,
            &mut self.log,
            ps,
            &mut self.client,
            self.tx.clone(),
        ) {
            Step::Reply { bytes, consumed } => {
                assert_eq!(consumed, cmd.len());
                String::from_utf8_lossy(&bytes).to_string()
            }
            Step::Incomplete => panic!("request judged incomplete"),
            Step::Overflow { .. } => panic!("request judged too large"),
        }
    }

    fn sleep_ms(&mut self, ms: u64) {
        let end = self.now + ms;
        while self.now < end {
            self.now += 100;
            expire_tick(&mut self.store, &mut self.expiry, self.now);
        }
    }
}

#[test]
fn test_ping() {
    let mut c = Session::new();
    let resp = c.send_recv(b"*1\r\n$4\r\nPING\r\n");
    assert!(resp.contains("PONG"), "expected PONG, got: {}", resp);
}

#[test]
fn test_ping_with_message() {
    let mut c = Session::new();
    let resp = c.send_recv(b"*2\r\n$4\r\nPING\r\n$5\r\nhello\r\n");
    assert!(resp.contains("hello"), "expected hello, got: {}", resp);
}

#[test]
fn test_set_get() {
    let mut c = Session::new();
    let set = c.send_recv(b"*3\r\n$3\r\nSET\r\n$3\r\nfoo\r\n$3\r\nbar\r\n");
    assert!(set.contains("OK"), "SET failed: {}", set);
    let get = c.send_recv(b"*2\r\n$3\r\nGET\r\n$3\r\nfoo\r\n");
    assert!(get.contains("bar"), "GET failed: {}", get);
}

#[test]
fn test_get_missing_key() {
    let mut c = Session::new();
    let resp = c.send_recv(b"*2\r\n$3\r\nGET\r\n$7\r\nmissing\r\n");
    assert!(resp.contains("$-1"), "expected null, got: {}", resp);
}

#[test]
fn test_del() {
    let mut c = Session::new();
    c.send_recv(b"*3\r\n$3\r\nSET\r\n$1\r\nk\r\n$1\r\nv\r\n");
    let del = c.send_recv(b"*2\r\n$3\r\nDEL\r\n$1\r\nk\r\n");
    assert!(del.contains(":1"), "DEL count wrong: {}", del);
    let get = c.send_recv(b"*2\r\n$3\r\nGET\r\n$1\r\nk\r\n");
    assert!(get.contains("$-1"), "key should be gone: {}", get);
}

#[test]
fn test_exists() {
    let mut c = Session::new();
    c.send_recv(b"*3\r\n$3\r\nSET\r\n$1\r\na\r\n$1\r\nb\r\n");
    let yes = c.send_recv(b"*2\r\n$6\r\nEXISTS\r\n$1\r\na\r\n");
    assert!(yes.contains(":1"), "should exist: {}", yes);
    let no = c.send_recv(b"*2\r\n$6\r\nEXISTS\r\n$7\r\nnobodys\r\n");
    assert!(no.contains(":0"), "should not exist: {}", no);
}

#[test]
fn test_expire_and_ttl() {
    let mut c = Session::new();
    c.send_recv(b"*3\r\n$3\r\nSET\r\n$3\r\nttk\r\n$3\r\nval\r\n");
    let exp = c.send_recv(b"*3\r\n$6\r\nEXPIRE\r\n$3\r\nttk\r\n$1\r\n2\r\n");
    assert!(exp.contains(":1"), "EXPIRE failed: {}", exp);
    c.sleep_ms(100);
    let ttl = c.send_recv(b"*2\r\n$3\r\nTTL\r\n$3\r\nttk\r\n");
    assert!(ttl.contains(":1") || ttl.contains(":2"), "TTL wrong: {}", ttl);
    c.sleep_ms(3000);
    let gone = c.send_recv(b"*2\r\n$3\r\nGET\r\n$3\r\nttk\r\n");
    assert!(gone.contains("$-1"), "key should be expired: {}", gone);
}

#[test]
fn test_keys_glob() {
    let mut c = Session::new();
    c.send_recv(b"*3\r\n$3\r\nSET\r\n$4\r\nkey1\r\n$1\r\nv\r\n");
    c.send_recv(b"*3\r\n$3\r\nSET\r\n$4\r\nkey2\r\n$1\r\nv\r\n");
    c.send_recv(b"*3\r\n$3\r\nSET\r\n$5\r\nother\r\n$1\r\nv\r\n");
    let resp = c.send_recv(b"*2\r\n$4\r\nKEYS\r\n$4\r\nkey*\r\n");
    assert!(resp.contains("key1"), "missing key1: {}", resp);
    assert!(resp.contains("key2"), "missing key2: {}", resp);
    assert!(!resp.contains("other"), "should not contain 'other': {}", resp);
}

#[test]
fn process_request_consumes_one_request_at_a_time() {
    let mut store = ShardedStore::new();
    let mut expiry: HashMap<String, u64> = HashMap::new();
    let mut log: Vec<Vec<u8>> = Vec::new();
    let buf = b"*1\r\n$4\r\nPING\r\n*2\r\n$3\r\nGET\r\n$1\r\nx\r\n";
    match serve(buf, &mut store, &mut expiry, 0, &mut log) {
        Step::Reply { bytes, consumed } => {
            assert_eq!(bytes, b"+PONG\r\n".to_vec());
            assert_eq!(consumed, 14);
            match serve(&buf[consumed..], &mut store, &mut expiry, 0, &mut log) {
                Step::Reply { bytes, consumed } => {
                    assert_eq!(bytes, b"$-1\r\n".to_vec());
                    assert_eq!(consumed, buf.len() - 14);
                }
                _ => panic!("second request not served"),
            }
        }
        _ => panic!("first request not served"),
    }
}

#[test]
fn process_request_waits_for_partial_request() {
    let mut store = ShardedStore::new();
    let mut expiry: HashMap<String, u64> = HashMap::new();
    let mut log: Vec<Vec<u8>> = Vec::new();
    assert!(matches!(
        serve(b"*2\r\n$3\r\nGET\r\n$1", &mut store, &mut expiry, 0, &mut log),
        Step::Incomplete
    ));
}

#[test]
fn process_request_answers_unknown_command() {
    let mut store = ShardedStore::new();
    let mut expiry: HashMap<String, u64> = HashMap::new();
    let mut log: Vec<Vec<u8>> = Vec::new();
    match serve(b"*1\r\n$5\r\nHELLO\r\n", &mut store, &mut expiry, 0, &mut log) {
        Step::Reply { bytes, consumed } => {
            assert_eq!(bytes, b"-ERR unknown command\r\n".to_vec());
            assert_eq!(consumed, 15);
        }
        _ => panic!("no reply"),
    }
    assert!(log.is_empty());
}

#[test]
fn process_request_drops_oversized_buffer() {
    let mut store = ShardedStore::new();
    let mut expiry: HashMap<String, u64> = HashMap::new();
    let mut log: Vec<Vec<u8>> = Vec::new();
    let mut buf = b"$2000000\r\n".to_vec();
    buf.resize(MAX_PENDING + 1, b'a');
    match serve(&buf, &mut store, &mut expiry, 0, &mut log) {
        Step::Overflow { bytes } => assert_eq!(bytes, b"-ERROR payload is too large\r\n".to_vec()),
        _ => panic!("oversized buffer kept"),
    }
    buf.truncate(MAX_PENDING);
    assert!(matches!(
        serve(&buf, &mut store, &mut expiry, 0, &mut log),
        Step::Incomplete
    ));
}

#[test]
fn test_subscribe_and_publish() {
    let mut ps = PubSub::new();
    let mut a = Session::new();
    let mut b = Session::new();
    let sub = a.send_recv_on(&mut ps, b"*2\r\n$9\r\nSUBSCRIBE\r\n$4\r\nnews\r\n");
    assert_eq!(sub, "*3\r\n$9\r\nsubscribe\r\n$4\r\nnews\r\n:1\r\n");
    let again = a.send_recv_on(&mut ps, b"*2\r\n$9\r\nsubscribe\r\n$4\r\nnews\r\n");
    assert_eq!(again, "*3\r\n$9\r\nsubscribe\r\n$4\r\nnews\r\n:1\r\n");
    let other = a.send_recv_on(&mut ps, b"*2\r\n$9\r\nSUBSCRIBE\r\n$6\r\nsports\r\n");
    assert_eq!(other, "*3\r\n$9\r\nsubscribe\r\n$6\r\nsports\r\n:2\r\n");
    let publ = b.send_recv_on(
        &mut ps,
        b"*3\r\n$7\r\nPUBLISH\r\n$4\r\nnews\r\n$16\r\nRust is awesome!\r\n",
    );
    assert_eq!(publ, ":1\r\n");
    assert_eq!(
        a.rx.try_recv().unwrap(),
        "*3\r\n$7\r\nmessage\r\n$4\r\nnews\r\n$16\r\nRust is awesome!\r\n"
    );
    assert!(a.rx.try_recv().is_err());
    assert!(b.rx.try_recv().is_err());
    let none = b.send_recv_on(&mut ps, b"*3\r\n$7\r\nPUBLISH\r\n$5\r\nempty\r\n$1\r\nx\r\n");
    assert_eq!(none, ":0\r\n");
}

#[test]
fn publish_drops_closed_connections() {
    let mut ps = PubSub::new();
    let mut a = Session::new();
    let mut gone = Session::new();
    let mut b = Session::new();
    a.send_recv_on(&mut ps, b"*2\r\n$9\r\nSUBSCRIBE\r\n$1\r\nc\r\n");
    gone.send_recv_on(&mut ps, b"*2\r\n$9\r\nSUBSCRIBE\r\n$1\r\nc\r\n");
    let Session { rx: gone_rx, .. } = gone;
    drop(gone_rx);
    let reply = b.send_recv_on(&mut ps, b"*3\r\n$7\r\nPUBLISH\r\n$1\r\nc\r\n$2\r\nhi\r\n");
    assert_eq!(reply, ":1\r\n");
    assert_eq!(a.rx.try_recv().unwrap(), "*3\r\n$7\r\nmessage\r\n$1\r\nc\r\n$2\r\nhi\r\n");
    let again = b.send_recv_on(&mut ps, b"*3\r\n$7\r\nPUBLISH\r\n$1\r\nc\r\n$2\r\nho\r\n");
    assert_eq!(again, ":1\r\n");
}

#[test]
fn subscribe_needs_exactly_one_channel() {
    let mut c = Session::new();
    let r = c.send_recv(b"*3\r\n$9\r\nSUBSCRIBE\r\n$1\r\na\r\n$1\r\nb\r\n");
    assert_eq!(r, "-ERR unknown command\r\n");
}

#[test]
fn after_step_carries_the_buffer() {
    let mut buf = b"*1\r\n$4\r\nPING\r\n*1\r\n$4\r\nPI".to_vec();
    let mut store = ShardedStore::new();
    let mut expiry: HashMap<String, u64> = HashMap::new();
    let mut log: Vec<Vec<u8>> = Vec::new();
    let step = serve(&buf, &mut store, &mut expiry, 0, &mut log);
    assert!(after_step(&mut buf, &step));
    assert_eq!(buf, b"*1\r\n$4\r\nPI".to_vec());
    let step = serve(&buf, &mut store, &mut expiry, 0, &mut log);
    assert!(!after_step(&mut buf, &step));
    assert_eq!(buf, b"*1\r\n$4\r\nPI".to_vec());
    let mut big = vec![b'$'; 3];
    assert!(!after_step(&mut big, &Step::Overflow { bytes: vec![] }));
    assert!(big.is_empty());
    let mut short = b"ab".to_vec();
    assert!(after_step(&mut short, &Step::Reply { bytes: vec![], consumed: 5 }));
    assert!(short.is_empty());
}
