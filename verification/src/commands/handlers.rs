use vstd::prelude::*;
use crate::protocol::resp::{
    RespValue,
    SpecResp,
    resp_view,
    resp_seq_view,
    parse_i64_spec,
    parse_i64_bytes,
    lemma_resp_seq_view,
};
use crate::text::utf8_str;
use crate::protocol::writer::{
    simple_string_frame,
    bulk_frame,
    int_frame,
    null_frame,
    array_header_frame,
    encode_simple_string,
    encode_bulk_string,
    encode_int,
    encode_null,
    encode_array_header,
    push_bytes,
    push_decimal,
    push_crlf,
    encode_count,
    dec_nat,
    crlf,
};
use crate::store::sharded::ShardedStore;
use crate::store::hashmap::HashMap;
use crate::store::hashkey::{str_key, key_str, lemma_key_str};
use crate::pubsub::{PubSub, Client, published, with_channel};
use std::sync::mpsc::Sender;

verus! {

/// A command of the protocol, borrowing its arguments from the parsed request.
pub enum Command<'a> {
    Ping(Option<&'a [u8]>),
    SetKey { key: &'a str, value: &'a str },
    Get { key: &'a str },
    Del { keys: Vec<&'a str> },
    Exists { key: &'a str },
    Keys { pattern: &'a str },
    Expire { key: &'a str, seconds: u64 },
    Ttl { key: &'a str },
    Subscribe { channel: &'a str },
    Publish { channel: &'a str, message: &'a str },
}

/// The mathematical form of a command.
pub enum SpecCommand {
    Ping(Option<Seq<u8>>),
    SetKey { key: Seq<char>, value: Seq<char> },
    Get { key: Seq<char> },
    Del { keys: Seq<Seq<char>> },
    Exists { key: Seq<char> },
    Keys { pattern: Seq<char> },
    Expire { key: Seq<char>, seconds: u64 },
    Ttl { key: Seq<char> },
    Subscribe { channel: Seq<char> },
    Publish { channel: Seq<char>, message: Seq<char> },
}

/// The views of a sequence of string slices.
pub open spec fn strs_view<'a>(keys: Seq<&'a str>) -> Seq<Seq<char>> {
    keys.map_values(|k: &'a str| k@)
}

/// The mathematical form of a command.
pub open spec fn command_view<'a>(c: Command<'a>) -> SpecCommand {
    match c {
        Command::Ping(m) => SpecCommand::Ping(
            match m {
                Some(b) => Some(b@),
                None => None,
            },
        ),
        Command::SetKey { key, value } => SpecCommand::SetKey { key: key@, value: value@ },
        Command::Get { key } => SpecCommand::Get { key: key@ },
        Command::Del { keys } => SpecCommand::Del { keys: strs_view(keys@) },
        Command::Exists { key } => SpecCommand::Exists { key: key@ },
        Command::Keys { pattern } => SpecCommand::Keys { pattern: pattern@ },
        Command::Expire { key, seconds } => SpecCommand::Expire { key: key@, seconds },
        Command::Ttl { key } => SpecCommand::Ttl { key: key@ },
        Command::Subscribe { channel } => SpecCommand::Subscribe { channel: channel@ },
        Command::Publish { channel, message } => SpecCommand::Publish {
            channel: channel@,
            message: message@,
        },
    }
}

/// Whether the glob pattern `p` matches all of `s`: `*` matches any run of
/// bytes, `?` any single byte, and any other byte itself.
pub open spec fn glob(p: Seq<u8>, s: Seq<u8>) -> bool
    decreases p.len(), s.len(),
{
    if p.len() == 0 {
        s.len() == 0
    } else if p[0] == 42 {
        glob(p.drop_first(), s) || (s.len() > 0 && glob(p, s.drop_first()))
    } else if s.len() == 0 {
        false
    } else if p[0] == 63 || p[0] == s[0] {
        glob(p.drop_first(), s.drop_first())
    } else {
        false
    }
}

/// Whether the glob `pattern` matches all of `key`, byte by byte.
pub fn keys_match(pattern: &str, key: &str) -> (b: bool)
    ensures
        b == glob(vstd::utf8::encode_utf8(pattern@), vstd::utf8::encode_utf8(key@)),
{
    glo_match(pattern.as_bytes(), key.as_bytes())
}

fn glo_match(pat: &[u8], s: &[u8]) -> (b: bool)
    ensures
        b == glob(pat@, s@),
    decreases pat@.len(), s@.len(),
{
    let pn = pat.len();
    let sn = s.len();
    if pn == 0 {
        return sn == 0;
    }
    let rest_pat = &pat[1..pn];
    assert(rest_pat@ =~= pat@.drop_first());
    if pat[0] == 42 {
        if glo_match(rest_pat, s) {
            return true;
        }
        if sn == 0 {
            return false;
        }
        let rest_s = &s[1..sn];
        assert(rest_s@ =~= s@.drop_first());
        return glo_match(pat, rest_s);
    }
    if sn == 0 {
        return false;
    }
    let rest_s = &s[1..sn];
    assert(rest_s@ =~= s@.drop_first());
    if pat[0] == 63 || pat[0] == s[0] {
        glo_match(rest_pat, rest_s)
    } else {
        false
    }
}

/// The ASCII upper-case form of a byte.
pub open spec fn upper_byte(b: u8) -> u8 {
    if 97 <= b <= 122 {
        (b - 32) as u8
    } else {
        b
    }
}

/// The ASCII upper-case form of a byte string.
pub open spec fn ascii_upper(s: Seq<u8>) -> Seq<u8> {
    Seq::new(s.len(), |i: int| upper_byte(s[i]))
}

fn to_ascii_upper(s: &[u8]) -> (r: Vec<u8>)
    ensures
        r@ == ascii_upper(s@),
{
    let mut r: Vec<u8> = Vec::new();
    let n = s.len();
    let mut i: usize = 0;
    while i < n
        invariant
            n == s@.len(),
            i <= n,
            r@ == ascii_upper(s@.take(i as int)),
        decreases n - i,
    {
        let b = s[i];
        let u = if 97 <= b && b <= 122 {
            b - 32
        } else {
            b
        };
        r.push(u);
        i = i + 1;
        assert(r@ =~= ascii_upper(s@.take(i as int)));
    }
    assert(s@.take(n as int) =~= s@);
    r
}

pub fn bytes_eq(a: &[u8], b: &[u8]) -> (r: bool)
    ensures
        r == (a@ == b@),
{
    let n = a.len();
    if n != b.len() {
        return false;
    }
    let mut i: usize = 0;
    while i < n
        invariant
            n == a@.len(),
            n == b@.len(),
            i <= n,
            a@.take(i as int) == b@.take(i as int),
        decreases n - i,
    {
        if a[i] != b[i] {
            return false;
        }
        i = i + 1;
        assert(a@.take(i as int) =~= b@.take(i as int));
    }
    assert(a@ =~= a@.take(n as int));
    assert(b@ =~= b@.take(n as int));
    true
}

/// `PING`
pub open spec fn name_ping() -> Seq<u8> {
    seq![80u8, 73, 78, 71]
}

/// `SET`
pub open spec fn name_set() -> Seq<u8> {
    seq![83u8, 69, 84]
}

/// `GET`
pub open spec fn name_get() -> Seq<u8> {
    seq![71u8, 69, 84]
}

/// `DEL`
pub open spec fn name_del() -> Seq<u8> {
    seq![68u8, 69, 76]
}

/// `EXISTS`
pub open spec fn name_exists() -> Seq<u8> {
    seq![69u8, 88, 73, 83, 84, 83]
}

/// `KEYS`
pub open spec fn name_keys() -> Seq<u8> {
    seq![75u8, 69, 89, 83]
}

/// `EXPIRE`
pub open spec fn name_expire() -> Seq<u8> {
    seq![69u8, 88, 80, 73, 82, 69]
}

/// `TTL`
pub open spec fn name_ttl() -> Seq<u8> {
    seq![84u8, 84, 76]
}

/// `SUBSCRIBE`
pub open spec fn name_subscribe() -> Seq<u8> {
    seq![83u8, 85, 66, 83, 67, 82, 73, 66, 69]
}

/// `PUBLISH`
pub open spec fn name_publish() -> Seq<u8> {
    seq![80u8, 85, 66, 76, 73, 83, 72]
}

/// Argument `i` as text, when it is a bulk string of valid UTF-8.
pub open spec fn str_arg(args: Seq<SpecResp>, i: int) -> Option<Seq<char>> {
    if 0 <= i < args.len() && args[i] is BulkString && vstd::utf8::valid_utf8(args[i]->BulkString_0) {
        Some(vstd::utf8::decode_utf8(args[i]->BulkString_0))
    } else {
        None
    }
}

/// Whether every argument from position 1 on is a bulk string of valid UTF-8.
pub open spec fn all_str_args(args: Seq<SpecResp>) -> bool {
    forall|i: int| 1 <= i < args.len() ==> (#[trigger] str_arg(args, i)) is Some
}

/// The command that a request denotes, if any. The command name is the first
/// argument, compared without regard to ASCII case.
pub open spec fn spec_parse_command(v: SpecResp) -> Option<SpecCommand> {
    match v {
        SpecResp::Array(args) => if args.len() == 0 || !(str_arg(args, 0) is Some) {
            None
        } else {
            let name = ascii_upper(args[0]->BulkString_0);
            if name == name_ping() {
                Some(
                    SpecCommand::Ping(
                        if args.len() > 1 && args[1] is BulkString {
                            Some(args[1]->BulkString_0)
                        } else {
                            None
                        },
                    ),
                )
            } else if name == name_set() {
                match (str_arg(args, 1), str_arg(args, 2)) {
                    (Some(k), Some(v)) => Some(SpecCommand::SetKey { key: k, value: v }),
                    _ => None,
                }
            } else if name == name_get() {
                match str_arg(args, 1) {
                    Some(k) => Some(SpecCommand::Get { key: k }),
                    None => None,
                }
            } else if name == name_del() {
                if args.len() >= 2 && all_str_args(args) {
                    Some(
                        SpecCommand::Del {
                            keys: Seq::new((args.len() - 1) as nat, |i: int| str_arg(args, i + 1)->0),
                        },
                    )
                } else {
                    None
                }
            } else if name == name_exists() {
                match str_arg(args, 1) {
                    Some(k) => Some(SpecCommand::Exists { key: k }),
                    None => None,
                }
            } else if name == name_keys() {
                match str_arg(args, 1) {
                    Some(p) => Some(SpecCommand::Keys { pattern: p }),
                    None => None,
                }
            } else if name == name_expire() {
                match str_arg(args, 1) {
                    Some(k) => if args.len() > 2 && args[2] is BulkString {
                        match parse_i64_spec(args[2]->BulkString_0) {
                            Some(n) => if n >= 0 {
                                Some(SpecCommand::Expire { key: k, seconds: n as u64 })
                            } else {
                                None
                            },
                            None => None,
                        }
                    } else {
                        None
                    },
                    None => None,
                }
            } else if name == name_ttl() {
                match str_arg(args, 1) {
                    Some(k) => Some(SpecCommand::Ttl { key: k }),
                    None => None,
                }
            } else if name == name_subscribe() {
                if args.len() == 2 {
                    match str_arg(args, 1) {
                        Some(c) => Some(SpecCommand::Subscribe { channel: c }),
                        None => None,
                    }
                } else {
                    None
                }
            } else if name == name_publish() {
                match (str_arg(args, 1), str_arg(args, 2)) {
                    (Some(c), Some(m)) => Some(SpecCommand::Publish { channel: c, message: m }),
                    _ => None,
                }
            } else {
                None
            }
        },
        _ => None,
    }
}

/// Argument `i` as text, when it is a bulk string of valid UTF-8.
fn text_arg<'a>(args: &Vec<RespValue<'a>>, i: usize) -> (r: Option<&'a str>)
    ensures
        str_arg(resp_seq_view(args@), i as int) == (match r {
            Some(s) => Some(s@),
            None => None,
        }),
{
    proof {
        lemma_resp_seq_view(args@);
    }
    if i < args.len() {
        match &args[i] {
            RespValue::BulkString(b) => utf8_str(b),
            _ => None,
        }
    } else {
        None
    }
}

/// The command that a request denotes, if any.
pub fn parse_command<'a>(val: &RespValue<'a>) -> (r: Option<Command<'a>>)
    ensures
        spec_parse_command(resp_view(*val)) == (match r {
            Some(c) => Some(command_view(c)),
            None => None,
        }),
{
    let args = match val {
        RespValue::Array(a) => a,
        _ => {
            return None;
        },
    };
    let ghost sargs = resp_seq_view(args@);
    proof {
        lemma_resp_seq_view(args@);
    }
    if args.len() == 0 {
        return None;
    }
    let name_bytes: &[u8] = match &args[0] {
        RespValue::BulkString(b) => b,
        _ => {
            return None;
        },
    };
    if utf8_str(name_bytes).is_none() {
        return None;
    }
    let upper = to_ascii_upper(name_bytes);
    let name = upper.as_slice();
    if bytes_eq(name, [80u8, 73, 78, 71].as_slice()) {
        let msg: Option<&'a [u8]> = if args.len() > 1 {
            match &args[1] {
                RespValue::BulkString(b) => Some(*b),
                _ => None,
            }
        } else {
            None
        };
        Some(Command::Ping(msg))
    } else if bytes_eq(name, [83u8, 69, 84].as_slice()) {
        let key = match text_arg(args, 1) {
            Some(k) => k,
            None => {
                return None;
            },
        };
        let value = match text_arg(args, 2) {
            Some(v) => v,
            None => {
                return None;
            },
        };
        Some(Command::SetKey { key, value })
    } else if bytes_eq(name, [71u8, 69, 84].as_slice()) {
        match text_arg(args, 1) {
            Some(key) => Some(Command::Get { key }),
            None => None,
        }
    } else if bytes_eq(name, [68u8, 69, 76].as_slice()) {
        let n = args.len();
        if n < 2 {
            return None;
        }
        let mut keys: Vec<&'a str> = Vec::new();
        let mut i: usize = 1;
        while i < n
            invariant
                n == args@.len(),
                n >= 2,
                sargs == resp_seq_view(args@),
                resp_view(*val) == SpecResp::Array(sargs),
                str_arg(sargs, 0) is Some,
                ascii_upper(sargs[0]->BulkString_0) == name_del(),
                sargs.len() == n,
                1 <= i <= n,
                keys@.len() == i - 1,
                forall|t: int| 1 <= t < i ==> (#[trigger] str_arg(sargs, t)) is Some,
                forall|t: int|
                    0 <= t < keys@.len() ==> (#[trigger] keys@[t])@ == str_arg(sargs, t + 1)->0,
            decreases n - i,
        {
            match text_arg(args, i) {
                Some(k) => {
                    keys.push(k);
                },
                None => {
                    proof {
                        assert(str_arg(sargs, i as int) is None);
                        assert(!all_str_args(sargs));
                    }
                    return None;
                },
            }
            i = i + 1;
        }
        let ghost expect = Seq::new((n - 1) as nat, |t: int| str_arg(sargs, t + 1)->0);
        assert(strs_view(keys@) =~= expect);
        Some(Command::Del { keys })
    } else if bytes_eq(name, [69u8, 88, 73, 83, 84, 83].as_slice()) {
        match text_arg(args, 1) {
            Some(key) => Some(Command::Exists { key }),
            None => None,
        }
    } else if bytes_eq(name, [75u8, 69, 89, 83].as_slice()) {
        match text_arg(args, 1) {
            Some(pattern) => Some(Command::Keys { pattern }),
            None => None,
        }
    } else if bytes_eq(name, [69u8, 88, 80, 73, 82, 69].as_slice()) {
        let key = match text_arg(args, 1) {
            Some(k) => k,
            None => {
                return None;
            },
        };
        if args.len() <= 2 {
            return None;
        }
        match &args[2] {
            RespValue::BulkString(b) => match parse_i64_bytes(b) {
                Some(n) => if n >= 0 {
                    Some(Command::Expire { key, seconds: n as u64 })
                } else {
                    None
                },
                None => None,
            },
            _ => None,
        }
    } else if bytes_eq(name, [84u8, 84, 76].as_slice()) {
        match text_arg(args, 1) {
            Some(key) => Some(Command::Ttl { key }),
            None => None,
        }
    } else if bytes_eq(name, [83u8, 85, 66, 83, 67, 82, 73, 66, 69].as_slice()) {
        if args.len() != 2 {
            return None;
        }
        match text_arg(args, 1) {
            Some(channel) => Some(Command::Subscribe { channel }),
            None => None,
        }
    } else if bytes_eq(name, [80u8, 85, 66, 76, 73, 83, 72].as_slice()) {
        let channel = match text_arg(args, 1) {
            Some(c) => c,
            None => {
                return None;
            },
        };
        match text_arg(args, 2) {
            Some(message) => Some(Command::Publish { channel, message }),
            None => None,
        }
    } else {
        None
    }
}

/// `PONG`
pub open spec fn word_pong() -> Seq<u8> {
    seq![80u8, 79, 78, 71]
}

/// `OK`
pub open spec fn word_ok() -> Seq<u8> {
    seq![79u8, 75]
}

/// The store after removing `keys` one after the other, and how many of the
/// removals found their key.
pub open spec fn del_all(st: Map<Seq<char>, Seq<char>>, keys: Seq<Seq<char>>) -> (
    Map<Seq<char>, Seq<char>>,
    nat,
)
    decreases keys.len(),
{
    if keys.len() == 0 {
        (st, 0)
    } else {
        let (m, c) = del_all(st, keys.drop_last());
        if m.contains_key(keys.last()) {
            (m.remove(keys.last()), c + 1)
        } else {
            (m, c)
        }
    }
}

/// The bulk frames of `items`, one after the other.
pub open spec fn concat_bulks(items: Seq<Seq<u8>>) -> Seq<u8>
    decreases items.len(),
{
    if items.len() == 0 {
        Seq::empty()
    } else {
        concat_bulks(items.drop_last()) + bulk_frame(items.last())
    }
}

/// The UTF-8 bytes of the keys among `order` (key bytes, as the store lists
/// them) that the glob `pat` matches, in the same order.
pub open spec fn matching_keys(order: Seq<Seq<u8>>, pat: Seq<u8>) -> Seq<Seq<u8>>
    decreases order.len(),
{
    if order.len() == 0 {
        Seq::empty()
    } else {
        let rest = matching_keys(order.drop_last(), pat);
        let kb = order.last().drop_last();
        if glob(pat, kb) {
            rest.push(kb)
        } else {
            rest
        }
    }
}

/// The instant `secs` seconds after `now` (in milliseconds), or the last
/// instant when that is beyond it.
pub open spec fn deadline_after(now: u64, secs: u64) -> u64 {
    if now + secs * 1000 > u64::MAX {
        u64::MAX
    } else {
        (now + secs * 1000) as u64
    }
}

/// The time to live of key `k` in whole seconds; -1 for a stored key without
/// deadline, -2 for an absent key or a passed deadline.
pub open spec fn ttl_of(
    st: Map<Seq<char>, Seq<char>>,
    ex: Map<Seq<u8>, u64>,
    k: Seq<char>,
    now: u64,
) -> int {
    if ex.contains_key(str_key(k)) {
        if ex[str_key(k)] > now {
            (ex[str_key(k)] - now) / 1000
        } else {
            -2
        }
    } else if st.contains_key(k) {
        -1
    } else {
        -2
    }
}

/// What a command does: its reply, the store and deadlines after it, and the
/// record it adds to the append-only log, if any.
pub struct Effect {
    pub reply: Seq<u8>,
    pub store: Map<Seq<char>, Seq<char>>,
    pub expiry: Map<Seq<u8>, u64>,
    pub log: Option<Seq<u8>>,
}

/// What command `c` does on a store `st` whose keys are listed in `order`,
/// with deadlines `ex`, at instant `now`. `SUBSCRIBE` and `PUBLISH` leave the
/// store, the deadlines and the log alone; their replies depend on the
/// channels and are given by `channel_outcome`, so `reply` is left empty.
pub open spec fn effect(
    c: SpecCommand,
    st: Map<Seq<char>, Seq<char>>,
    order: Seq<Seq<u8>>,
    ex: Map<Seq<u8>, u64>,
    now: u64,
) -> Effect {
    match c {
        SpecCommand::Ping(None) => Effect {
            reply: simple_string_frame(word_pong()),
            store: st,
            expiry: ex,
            log: None,
        },
        SpecCommand::Ping(Some(m)) => Effect { reply: bulk_frame(m), store: st, expiry: ex, log: None },
        SpecCommand::SetKey { key, value } => Effect {
            reply: simple_string_frame(word_ok()),
            store: st.insert(key, value),
            expiry: ex,
            log: Some(
                array_header_frame(3) + bulk_frame(name_set()) + bulk_frame(
                    vstd::utf8::encode_utf8(key),
                ) + bulk_frame(vstd::utf8::encode_utf8(value)),
            ),
        },
        SpecCommand::Get { key } => Effect {
            reply: if st.contains_key(key) {
                bulk_frame(vstd::utf8::encode_utf8(st[key]))
            } else {
                null_frame()
            },
            store: st,
            expiry: ex,
            log: None,
        },
        SpecCommand::Del { keys } => {
            let (m, count) = del_all(st, keys);
            Effect {
                reply: int_frame(count as int),
                store: m,
                expiry: ex,
                log: if count > 0 {
                    Some(
                        array_header_frame(keys.len() + 1) + bulk_frame(name_del()) + concat_bulks(
                            keys.map_values(|k: Seq<char>| vstd::utf8::encode_utf8(k)),
                        ),
                    )
                } else {
                    None
                },
            }
        },
        SpecCommand::Exists { key } => Effect {
            reply: int_frame(
                if st.contains_key(key) {
                    1
                } else {
                    0
                },
            ),
            store: st,
            expiry: ex,
            log: None,
        },
        SpecCommand::Keys { pattern } => {
            let ks = matching_keys(order, vstd::utf8::encode_utf8(pattern));
            Effect {
                reply: array_header_frame(ks.len()) + concat_bulks(ks),
                store: st,
                expiry: ex,
                log: None,
            }
        },
        SpecCommand::Expire { key, seconds } => if st.contains_key(key) {
            Effect {
                reply: int_frame(1),
                store: st,
                expiry: ex.insert(str_key(key), deadline_after(now, seconds)),
                log: None,
            }
        } else {
            Effect { reply: int_frame(0), store: st, expiry: ex, log: None }
        },
        SpecCommand::Ttl { key } => Effect {
            reply: int_frame(ttl_of(st, ex, key, now)),
            store: st,
            expiry: ex,
            log: None,
        },
        SpecCommand::Subscribe { .. } => Effect {
            reply: Seq::empty(),
            store: st,
            expiry: ex,
            log: None,
        },
        SpecCommand::Publish { .. } => Effect {
            reply: Seq::empty(),
            store: st,
            expiry: ex,
            log: None,
        },
    }
}

/// The views of a sequence of byte vectors.
pub open spec fn bytes_views(v: Seq<Vec<u8>>) -> Seq<Seq<u8>> {
    v.map_values(|b: Vec<u8>| b@)
}

/// `log` with the record `r` appended, if there is one.
pub open spec fn logged(log: Seq<Seq<u8>>, r: Option<Seq<u8>>) -> Seq<Seq<u8>> {
    match r {
        Some(e) => log.push(e),
        None => log,
    }
}

proof fn lemma_logged_push(log: Seq<Vec<u8>>, rec: Vec<u8>)
    ensures
        bytes_views(log.push(rec)) == bytes_views(log).push(rec@),
{
    assert(bytes_views(log.push(rec)) =~= bytes_views(log).push(rec@));
}

fn exec_set(key: &str, value: &str, store: &mut ShardedStore, log: &mut Vec<Vec<u8>>) -> (reply: Vec<u8>)
    requires
        old(store).wf(),
        old(store).size() < usize::MAX / 4,
    ensures
        reply@ == simple_string_frame(word_ok()),
        final(store)@ == old(store)@.insert(key@, value@),
        bytes_views(final(log)@) == bytes_views(old(log)@).push(
            array_header_frame(3) + bulk_frame(name_set()) + bulk_frame(vstd::utf8::encode_utf8(key@))
                + bulk_frame(vstd::utf8::encode_utf8(value@)),
        ),
        final(store).wf(),
        final(store).size() <= old(store).size() + 1,
{
    store.insert(key.to_string(), value.to_string());
    let mut rec = encode_array_header(3);
    let name = encode_bulk_string([83u8, 69, 84].as_slice());
    push_bytes(&mut rec, name.as_slice());
    let kb = encode_bulk_string(key.as_bytes());
    push_bytes(&mut rec, kb.as_slice());
    let vb = encode_bulk_string(value.as_bytes());
    push_bytes(&mut rec, vb.as_slice());
    proof {
        lemma_logged_push(log@, rec);
        assert(rec@ =~= array_header_frame(3) + bulk_frame(name_set()) + bulk_frame(
            vstd::utf8::encode_utf8(key@),
        ) + bulk_frame(vstd::utf8::encode_utf8(value@)));
    }
    log.push(rec);
    let r = encode_simple_string([79u8, 75].as_slice());
    assert(r@ =~= simple_string_frame(word_ok()));
    r
}

fn exec_get(key: &str, store: &ShardedStore) -> (reply: Vec<u8>)
    requires
        store.wf(),
    ensures
        reply@ == (if store@.contains_key(key@) {
            bulk_frame(vstd::utf8::encode_utf8(store@[key@]))
        } else {
            null_frame()
        }),
{
    match store.get(key) {
        Some(v) => encode_bulk_string(v.as_str().as_bytes()),
        None => encode_null(),
    }
}

fn exec_del(keys: &Vec<&str>, store: &mut ShardedStore, log: &mut Vec<Vec<u8>>) -> (reply: Vec<u8>)
    requires
        old(store).wf(),
        old(store).size() < usize::MAX / 4,
    ensures
        ({
            let (m, count) = del_all(old(store)@, strs_view(keys@));
            &&& reply@ == int_frame(count as int)
            &&& final(store)@ == m
            &&& bytes_views(final(log)@) == logged(
                bytes_views(old(log)@),
                if count > 0 {
                    Some(
                        array_header_frame(keys@.len() + 1) + bulk_frame(name_del()) + concat_bulks(
                            strs_view(keys@).map_values(|k: Seq<char>| vstd::utf8::encode_utf8(k)),
                        ),
                    )
                } else {
                    None
                },
            )
        }),
        final(store).wf(),
        final(store).size() <= old(store).size(),
{
    let ghost ks = strs_view(keys@);
    let n = keys.len();
    let mut count: usize = 0;
    let mut i: usize = 0;
    while i < n
        invariant
            n == keys@.len(),
            ks == strs_view(keys@),
            i <= n,
            count <= i,
            store.wf(),
            store.size() + count <= old(store).size(),
            old(store).size() < usize::MAX / 4,
            del_all(old(store)@, ks.take(i as int)) == (store@, count as nat),
        decreases n - i,
    {
        proof {
            assert(ks.take(i + 1).drop_last() =~= ks.take(i as int));
            assert(ks.take(i + 1).last() == keys@[i as int]@);
        }
        if store.remove(keys[i]).is_some() {
            count = count + 1;
        }
        i = i + 1;
    }
    proof {
        assert(ks.take(n as int) =~= ks);
    }
    if count > 0 {
        let mut rec: Vec<u8> = Vec::new();
        rec.push(42);
        push_decimal(&mut rec, n as u128 + 1);
        push_crlf(&mut rec);
        let name = encode_bulk_string([68u8, 69, 76].as_slice());
        push_bytes(&mut rec, name.as_slice());
        let ghost head = rec@;
        let ghost enc = ks.map_values(|k: Seq<char>| vstd::utf8::encode_utf8(k));
        assert(head =~= array_header_frame(keys@.len() + 1) + bulk_frame(name_del()));
        let mut j: usize = 0;
        while j < n
            invariant
                n == keys@.len(),
                ks == strs_view(keys@),
                enc == ks.map_values(|k: Seq<char>| vstd::utf8::encode_utf8(k)),
                j <= n,
                rec@ == head + concat_bulks(enc.take(j as int)),
            decreases n - j,
        {
            let b = encode_bulk_string(keys[j].as_bytes());
            push_bytes(&mut rec, b.as_slice());
            proof {
                assert(enc.take(j + 1).drop_last() =~= enc.take(j as int));
                assert(enc.take(j + 1).last() == vstd::utf8::encode_utf8(keys@[j as int]@));
                assert(rec@ =~= head + concat_bulks(enc.take(j + 1)));
            }
            j = j + 1;
        }
        proof {
            assert(enc.take(n as int) =~= enc);
            lemma_logged_push(log@, rec);
        }
        log.push(rec);
    }
    encode_int(count as i64)
}

fn exec_keys(pattern: &str, store: &ShardedStore) -> (reply: Vec<u8>)
    requires
        store.wf(),
    ensures
        ({
            let ks = matching_keys(store.key_order(), vstd::utf8::encode_utf8(pattern@));
            reply@ == array_header_frame(ks.len()) + concat_bulks(ks)
        }),
{
    let all_keys = store.get_all_keys();
    let ghost order = store.key_order();
    let ghost pat = vstd::utf8::encode_utf8(pattern@);
    let mut matched: Vec<String> = Vec::new();
    let n = all_keys.len();
    let mut i: usize = 0;
    while i < n
        invariant
            n == all_keys@.len(),
            n == order.len(),
            order == store.key_order(),
            pat == vstd::utf8::encode_utf8(pattern@),
            forall|t: int| 0 <= t < n ==> str_key((#[trigger] all_keys@[t])@) == order[t],
            i <= n,
            matched@.len() == matching_keys(order.take(i as int), pat).len(),
            forall|t: int|
                0 <= t < matched@.len() ==> vstd::utf8::encode_utf8((#[trigger] matched@[t])@)
                    == matching_keys(order.take(i as int), pat)[t],
        decreases n - i,
    {
        proof {
            assert(order.take(i + 1).drop_last() =~= order.take(i as int));
            assert(order.take(i + 1).last() == order[i as int]);
            assert(str_key(all_keys@[i as int]@).drop_last() =~= vstd::utf8::encode_utf8(
                all_keys@[i as int]@,
            ));
        }
        if keys_match(pattern, all_keys[i].as_str()) {
            matched.push(all_keys[i].clone());
        }
        i = i + 1;
    }
    let ghost ks = matching_keys(order, pat);
    proof {
        assert(order.take(n as int) =~= order);
    }
    let m = matched.len();
    let mut r = encode_array_header(m);
    let ghost head = r@;
    let mut j: usize = 0;
    while j < m
        invariant
            m == matched@.len(),
            m == ks.len(),
            forall|t: int| 0 <= t < m ==> vstd::utf8::encode_utf8((#[trigger] matched@[t])@) == ks[t],
            j <= m,
            r@ == head + concat_bulks(ks.take(j as int)),
        decreases m - j,
    {
        let b = encode_bulk_string(matched[j].as_str().as_bytes());
        push_bytes(&mut r, b.as_slice());
        proof {
            assert(ks.take(j + 1).drop_last() =~= ks.take(j as int));
            assert(r@ =~= head + concat_bulks(ks.take(j + 1)));
        }
        j = j + 1;
    }
    assert(ks.take(m as int) =~= ks);
    r
}

fn exec_expire(
    key: &str,
    seconds: u64,
    store: &ShardedStore,
    expiry: &mut HashMap<String, u64>,
    now: u64,
) -> (reply: Vec<u8>)
    requires
        store.wf(),
        old(expiry).wf(),
        old(expiry)@.len() < usize::MAX / 4,
    ensures
        final(expiry).wf(),
        final(expiry)@.len() <= old(expiry)@.len() + 1,
        store@.contains_key(key@) ==> {
            &&& reply@ == int_frame(1)
            &&& final(expiry)@ == old(expiry)@.insert(str_key(key@), deadline_after(now, seconds))
        },
        !store@.contains_key(key@) ==> {
            &&& reply@ == int_frame(0)
            &&& final(expiry)@ == old(expiry)@
        },
{
    if store.contains_key(key) {
        let deadline = match seconds.checked_mul(1000) {
            Some(ms) => now.saturating_add(ms),
            None => u64::MAX,
        };
        proof {
            expiry.lemma_view_finite();
            vstd::set::axiom_set_insert_len(expiry@.dom(), str_key(key@));
        }
        expiry.insert(key.to_string(), deadline);
        proof {
            assert(expiry@.dom() =~= old(expiry)@.dom().insert(str_key(key@)));
        }
        encode_int(1)
    } else {
        encode_int(0)
    }
}

fn exec_ttl(key: &str, store: &ShardedStore, expiry: &HashMap<String, u64>, now: u64) -> (reply: Vec<u8>)
    requires
        store.wf(),
        expiry.wf(),
    ensures
        reply@ == int_frame(ttl_of(store@, expiry@, key@, now)),
{
    let k = key.to_string();
    match expiry.get(&k) {
        Some(deadline) => if *deadline > now {
            encode_int(((*deadline - now) / 1000) as i64)
        } else {
            encode_int(-2)
        },
        None => if store.contains_key(key) {
            encode_int(-1)
        } else {
            encode_int(-2)
        },
    }
}

/// `subscribe`
pub open spec fn word_subscribe() -> Seq<u8> {
    seq![115u8, 117, 98, 115, 99, 114, 105, 98, 101]
}

/// `message`
pub open spec fn word_message() -> Seq<u8> {
    seq![109u8, 101, 115, 115, 97, 103, 101]
}

/// The reply to `SUBSCRIBE channel` from a connection then subscribed to
/// `count` channels.
pub open spec fn subscribe_frame(channel: Seq<char>, count: nat) -> Seq<u8> {
    array_header_frame(3) + bulk_frame(word_subscribe()) + bulk_frame(
        vstd::utf8::encode_utf8(channel),
    ) + int_frame(count as int)
}

/// The push that carries `message`, published on `channel`, to a subscriber.
pub open spec fn message_frame(channel: Seq<char>, message: Seq<char>) -> Seq<u8> {
    array_header_frame(3) + bulk_frame(word_message()) + bulk_frame(
        vstd::utf8::encode_utf8(channel),
    ) + bulk_frame(vstd::utf8::encode_utf8(message))
}

/// `reply` is the count of a publish of `message` on `channel` that took
/// the subscribers from `pb` to `pa`.
pub open spec fn publish_reply(
    pb: Map<Seq<char>, Seq<Sender<String>>>,
    pa: Map<Seq<char>, Seq<Sender<String>>>,
    channel: Seq<char>,
    message: Seq<char>,
    reply: Seq<u8>,
) -> bool {
    exists|n: nat| reply == int_frame(n as int) && #[trigger] published(pb, pa, channel, message, n)
}

/// What command `c` does to the subscribers of the channels (`pb` before,
/// `pa` after) and to the channels of the connection (`cb` before, `ca`
/// after), and its reply, `plain` being the reply that `effect` gives.
/// `SUBSCRIBE` adds `subscriber` to the channel when the connection was not
/// on it yet and replies with the number of its channels; `PUBLISH` sends the
/// text of its `message_frame` through the channel's subscribers as
/// `PubSub::publish` does and replies with how many took it.
pub open spec fn channel_outcome(
    c: SpecCommand,
    reply: Seq<u8>,
    plain: Seq<u8>,
    pb: Map<Seq<char>, Seq<Sender<String>>>,
    pa: Map<Seq<char>, Seq<Sender<String>>>,
    cb: Seq<Seq<char>>,
    ca: Seq<Seq<char>>,
    subscriber: Sender<String>,
) -> bool {
    match c {
        SpecCommand::Subscribe { channel } => {
            &&& ca == with_channel(cb, channel)
            &&& pa == (if cb.contains(channel) {
                pb
            } else {
                pb.insert(
                    channel,
                    if pb.contains_key(channel) {
                        pb[channel].push(subscriber)
                    } else {
                        seq![subscriber]
                    },
                )
            })
            &&& reply == subscribe_frame(channel, ca.len())
        },
        SpecCommand::Publish { channel, message } => {
            &&& ca == cb
            &&& publish_reply(
                pb,
                pa,
                channel,
                vstd::utf8::decode_utf8(message_frame(channel, message)),
                reply,
            )
        },
        _ => {
            &&& reply == plain
            &&& pa == pb
            &&& ca == cb
        },
    }
}

/// A bulk frame of valid UTF-8 is valid UTF-8.
pub proof fn lemma_bulk_utf8(d: Seq<u8>)
    requires
        vstd::utf8::valid_utf8(d),
    ensures
        vstd::utf8::valid_utf8(bulk_frame(d)),
{
    broadcast use vstd::utf8::valid_utf8_concat;

    crate::protocol::roundtrip::lemma_dec_nat(d.len());
    let h = seq![36u8] + dec_nat(d.len()) + crlf();
    assert forall|i: int| 0 <= i < h.len() implies (#[trigger] h[i]) <= 0x7fu8 by {
        if 1 <= i < h.len() - 2 {
            assert(h[i] == dec_nat(d.len())[i - 1]);
            assert(crate::protocol::resp::is_digit(dec_nat(d.len())[i - 1]));
        }
    }
    crate::protocol::roundtrip::lemma_ascii_utf8(h);
    crate::protocol::roundtrip::lemma_ascii_utf8(crlf());
    assert(vstd::utf8::valid_utf8(h + d));
    assert(vstd::utf8::valid_utf8(h + d + crlf()));
    assert(bulk_frame(d) =~= h + d + crlf());
}

/// The text of the push that carries `message`, published on `channel`.
fn message_text(channel: &str, message: &str) -> (r: String)
    ensures
        vstd::utf8::encode_utf8(r@) == message_frame(channel@, message@),
        r@ == vstd::utf8::decode_utf8(message_frame(channel@, message@)),
{
    broadcast use vstd::utf8::valid_utf8_concat, vstd::utf8::encode_utf8_valid_utf8,
        vstd::utf8::decode_utf8_encode_utf8;

    let mut b = encode_array_header(3);
    let w = encode_bulk_string([109u8, 101, 115, 115, 97, 103, 101].as_slice());
    push_bytes(&mut b, w.as_slice());
    let c = encode_bulk_string(channel.as_bytes());
    push_bytes(&mut b, c.as_slice());
    let m = encode_bulk_string(message.as_bytes());
    push_bytes(&mut b, m.as_slice());
    let ghost frame = message_frame(channel@, message@);
    proof {
        assert(b@ =~= frame);
        crate::protocol::roundtrip::lemma_dec_nat(3);
        let h = array_header_frame(3);
        assert(h =~= seq![42u8, 51u8, 13u8, 10u8]);
        crate::protocol::roundtrip::lemma_ascii_utf8(h);
        crate::protocol::roundtrip::lemma_ascii_utf8(word_message());
        lemma_bulk_utf8(word_message());
        lemma_bulk_utf8(vstd::utf8::encode_utf8(channel@));
        lemma_bulk_utf8(vstd::utf8::encode_utf8(message@));
        assert(vstd::utf8::valid_utf8(h + bulk_frame(word_message())));
        assert(vstd::utf8::valid_utf8(h + bulk_frame(word_message()) + bulk_frame(
            vstd::utf8::encode_utf8(channel@),
        )));
        assert(vstd::utf8::valid_utf8(frame));
    }
    match utf8_str(b.as_slice()) {
        Some(t) => {
            let r = t.to_string();
            proof {
                vstd::utf8::encode_utf8_decode_utf8(r@);
            }
            r
        },
        None => {
            proof {
                assert(false);
            }
            String::new()
        },
    }
}

fn exec_subscribe(
    channel: &str,
    pubsub: &mut PubSub,
    client: &mut Client,
    subscriber: Sender<String>,
) -> (reply: Vec<u8>)
    requires
        old(pubsub).wf(),
        old(pubsub).channel_count() < usize::MAX / 4,
        old(client).channels().len() < usize::MAX,
    ensures
        final(pubsub).wf(),
        final(pubsub).channel_count() <= old(pubsub).channel_count() + 1,
        channel_outcome(
            SpecCommand::Subscribe { channel: channel@ },
            reply@,
            Seq::empty(),
            old(pubsub)@,
            final(pubsub)@,
            old(client).channels(),
            final(client).channels(),
            subscriber,
        ),
{
    let before = client.count();
    let after = client.add_channel(channel);
    if after != before {
        assert(!old(client).channels().contains(channel@));
        pubsub.subscribe(channel, subscriber);
    }
    let mut r = encode_array_header(3);
    let w = encode_bulk_string([115u8, 117, 98, 115, 99, 114, 105, 98, 101].as_slice());
    push_bytes(&mut r, w.as_slice());
    let c = encode_bulk_string(channel.as_bytes());
    push_bytes(&mut r, c.as_slice());
    let n = encode_count(after);
    push_bytes(&mut r, n.as_slice());
    assert(r@ =~= subscribe_frame(channel@, final(client).channels().len()));
    r
}

/// Carries out `cmd` on the store and the table of deadlines (milliseconds)
/// at instant `now`, on the channels and on the connection's subscriptions,
/// appending to `log` the record the command leaves in the append-only log;
/// returns the reply. A `SUBSCRIBE` to a channel the connection is not on yet
/// registers `subscriber`, the sender of the connection's pushes; a `PUBLISH`
/// hands the `message_frame` of its channel and message to the channel's
/// subscribers.
pub fn execute(
    cmd: Command,
    store: &mut ShardedStore,
    expiry: &mut HashMap<String, u64>,
    now: u64,
    log: &mut Vec<Vec<u8>>,
    pubsub: &mut PubSub,
    client: &mut Client,
    subscriber: Sender<String>,
) -> (reply: Vec<u8>)
    requires
        old(store).wf(),
        old(expiry).wf(),
        old(store).size() < usize::MAX / 4,
        old(expiry)@.len() < usize::MAX / 4,
        old(pubsub).wf(),
        old(pubsub).channel_count() < usize::MAX / 4,
        old(client).channels().len() < usize::MAX,
    ensures
        final(store).wf(),
        final(expiry).wf(),
        final(pubsub).wf(),
        ({
            let e = effect(
                command_view(cmd),
                old(store)@,
                old(store).key_order(),
                old(expiry)@,
                now,
            );
            &&& final(store)@ == e.store
            &&& final(expiry)@ == e.expiry
            &&& bytes_views(final(log)@) == logged(bytes_views(old(log)@), e.log)
            &&& channel_outcome(
                command_view(cmd),
                reply@,
                e.reply,
                old(pubsub)@,
                final(pubsub)@,
                old(client).channels(),
                final(client).channels(),
                subscriber,
            )
        }),
        final(store).size() <= old(store).size() + 1,
        final(expiry)@.len() <= old(expiry)@.len() + 1,
        final(pubsub).channel_count() <= old(pubsub).channel_count() + 1,
{
    match cmd {
        Command::Ping(None) => {
            let r = encode_simple_string([80u8, 79, 78, 71].as_slice());
            assert(r@ =~= simple_string_frame(word_pong()));
            r
        },
        Command::Ping(Some(m)) => encode_bulk_string(m),
        Command::SetKey { key, value } => exec_set(key, value, store, log),
        Command::Get { key } => exec_get(key, store),
        Command::Del { keys } => exec_del(&keys, store, log),
        Command::Exists { key } => {
            if store.contains_key(key) {
                encode_int(1)
            } else {
                encode_int(0)
            }
        },
        Command::Keys { pattern } => exec_keys(pattern, store),
        Command::Expire { key, seconds } => exec_expire(key, seconds, store, expiry, now),
        Command::Ttl { key } => exec_ttl(key, store, expiry, now),
        Command::Subscribe { channel } => exec_subscribe(channel, pubsub, client, subscriber),
        Command::Publish { channel, message } => {
            let text = message_text(channel, message);
            let n = pubsub.publish(channel, text.as_str());
            let r = encode_count(n);
            let ghost k: nat = n as nat;
            assert(r@ == int_frame(k as int) && published(old(pubsub)@, pubsub@, channel@, text@, k));
            r
        },
    }
}

} // verus!


