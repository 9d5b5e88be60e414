//! Properties that relate several operations of the library.

use vstd::prelude::*;
use crate::store::hashmap::HashMap;
use crate::store::hashkey::{HashKey, str_key, lemma_str_key_injective};
use crate::commands::handlers::{
    SpecCommand,
    effect,
    glob,
    deadline_after,
    del_all,
    matching_keys,
    concat_bulks,
    spec_parse_command,
    name_set,
    name_del,
    str_arg,
    all_str_args,
    ascii_upper,
};
use crate::protocol::resp::{SpecResp, spec_parse};
use crate::protocol::roundtrip::{law_bulk_array_roundtrip, bulk_sized, bulk_values, lemma_ascii_utf8};
use crate::store::sharded::ShardedStore;
use crate::store::hashkey::{key_str, lemma_key_str};
use crate::protocol::writer::{bulk_frame, null_frame, int_frame, array_header_frame};
use crate::expiry::due_set;
use crate::aof::{
    log_safe,
    lines_from,
    replay_from,
    remove_all,
    lemma_set_record_replays,
    lemma_del_record_replays,
};

verus! {

/// After `insert(key, value)`, a lookup of `key` finds `value`, and a lookup
/// of any other key finds what it found before.
pub proof fn law_hashmap_get_after_insert<K: HashKey, V>(
    before: HashMap<K, V>,
    after: HashMap<K, V>,
    key: K,
    value: V,
    other: K,
)
    requires
        after@ == before@.insert(key.key_bytes(), value),
    ensures
        after@.contains_key(key.key_bytes()),
        after@[key.key_bytes()] == value,
        other.key_bytes() != key.key_bytes() ==> {
            &&& after@.contains_key(other.key_bytes()) == before@.contains_key(other.key_bytes())
            &&& after@[other.key_bytes()] == before@[other.key_bytes()]
        },
{
}

/// After `remove(key)`, the table no longer holds `key`, and every other key
/// is still found with its value: the tombstone left behind does not cut off
/// the keys stored past it.
pub proof fn law_hashmap_remove_keeps_others<K: HashKey, V>(
    before: HashMap<K, V>,
    after: HashMap<K, V>,
    key: K,
    other: K,
)
    requires
        after@ == before@.remove(key.key_bytes()),
    ensures
        !after@.contains_key(key.key_bytes()),
        other.key_bytes() != key.key_bytes() ==> {
            &&& after@.contains_key(other.key_bytes()) == before@.contains_key(other.key_bytes())
            &&& after@[other.key_bytes()] == before@[other.key_bytes()]
        },
{
}

/// `insert` adds one entry exactly when the key was new.
pub proof fn law_hashmap_len_after_insert<K: HashKey, V>(
    before: HashMap<K, V>,
    after: HashMap<K, V>,
    key: K,
    value: V,
)
    requires
        before.wf(),
        after@ == before@.insert(key.key_bytes(), value),
    ensures
        after@.len() == before@.len() + (if before@.contains_key(key.key_bytes()) {
            0int
        } else {
            1int
        }),
{
    before.lemma_view_finite();
    let kb = key.key_bytes();
    if before@.contains_key(kb) {
        assert(after@.dom() =~= before@.dom());
    } else {
        vstd::set::axiom_set_insert_len(before@.dom(), kb);
    }
}

/// `remove` takes one entry away exactly when the key was there.
pub proof fn law_hashmap_len_after_remove<K: HashKey, V>(
    before: HashMap<K, V>,
    after: HashMap<K, V>,
    key: K,
)
    requires
        before.wf(),
        after@ == before@.remove(key.key_bytes()),
    ensures
        after@.len() == before@.len() - (if before@.contains_key(key.key_bytes()) {
            1int
        } else {
            0int
        }),
{
    before.lemma_view_finite();
    let kb = key.key_bytes();
    if before@.contains_key(kb) {
        vstd::set::axiom_set_remove_len(before@.dom(), kb);
    } else {
        assert(after@.dom() =~= before@.dom());
    }
}

/// `GET key` right after `SET key value` replies with `value`.
pub proof fn law_get_after_set(
    st: Map<Seq<char>, Seq<char>>,
    order: Seq<Seq<u8>>,
    ex: Map<Seq<u8>, u64>,
    now: u64,
    key: Seq<char>,
    value: Seq<char>,
    order2: Seq<Seq<u8>>,
    now2: u64,
)
    ensures
        ({
            let e1 = effect(SpecCommand::SetKey { key, value }, st, order, ex, now);
            let e2 = effect(SpecCommand::Get { key }, e1.store, order2, e1.expiry, now2);
            &&& e2.reply == bulk_frame(vstd::utf8::encode_utf8(value))
            &&& effect(SpecCommand::Exists { key }, e1.store, order2, e1.expiry, now2).reply
                == int_frame(1)
        }),
{
}

/// `DEL key` replies how many keys it removed, and afterwards `GET key`
/// replies with the null bulk string and `EXISTS key` with 0.
pub proof fn law_get_after_del(
    st: Map<Seq<char>, Seq<char>>,
    order: Seq<Seq<u8>>,
    ex: Map<Seq<u8>, u64>,
    now: u64,
    key: Seq<char>,
    order2: Seq<Seq<u8>>,
    now2: u64,
)
    ensures
        ({
            let e1 = effect(SpecCommand::Del { keys: seq![key] }, st, order, ex, now);
            &&& e1.reply == int_frame(
                if st.contains_key(key) {
                    1
                } else {
                    0
                },
            )
            &&& effect(SpecCommand::Get { key }, e1.store, order2, e1.expiry, now2).reply
                == null_frame()
            &&& effect(SpecCommand::Exists { key }, e1.store, order2, e1.expiry, now2).reply
                == int_frame(0)
        }),
{
    lemma_del_one(st, key);
}

proof fn lemma_del_one(st: Map<Seq<char>, Seq<char>>, key: Seq<char>)
    ensures
        del_all(st, seq![key]) == (
            if st.contains_key(key) {
                (st.remove(key), 1nat)
            } else {
                (st, 0nat)
            }
        ),
{
    let ks = seq![key];
    assert(ks.drop_last() =~= Seq::<Seq<char>>::empty());
    assert(ks.last() == key);
    assert(del_all(st, ks.drop_last()) == (st, 0nat));
    if !st.contains_key(key) {
        assert(st.remove(key) =~= st);
    }
}

/// The set of keys a `DEL` names grows by the last one named.
proof fn lemma_key_set_push(pre: Seq<Seq<char>>, x: Seq<char>)
    ensures
        pre.push(x).to_set() == pre.to_set().insert(x),
{
    let keys = pre.push(x);
    assert forall|a: Seq<char>| #[trigger] keys.to_set().contains(a) <==> pre.to_set().insert(x).contains(a) by {
        if pre.contains(a) {
            let i = choose|i: int| 0 <= i < pre.len() && pre[i] == a;
            assert(keys[i] == a);
        }
        if a == x {
            assert(keys[pre.len() as int] == x);
        }
        if keys.contains(a) {
            let i = choose|i: int| 0 <= i < keys.len() && keys[i] == a;
            if i < pre.len() {
                assert(pre[i] == a);
            }
        }
    }
    assert(keys.to_set() =~= pre.to_set().insert(x));
}

/// `DEL k1 k2 ...` removes exactly the keys it names and replies how many of
/// them were stored, each key counted once however often it is named; the
/// other keys keep their values.
#[verifier::rlimit(40)]
pub proof fn law_del_counts_stored_keys(
    st: Map<Seq<char>, Seq<char>>,
    keys: Seq<Seq<char>>,
    order: Seq<Seq<u8>>,
    ex: Map<Seq<u8>, u64>,
    now: u64,
)
    ensures
        del_all(st, keys).0 == st.remove_keys(keys.to_set()),
        del_all(st, keys).1 == st.dom().intersect(keys.to_set()).len(),
        ({
            let e = effect(SpecCommand::Del { keys }, st, order, ex, now);
            &&& e.reply == int_frame(st.dom().intersect(keys.to_set()).len() as int)
            &&& e.store == st.remove_keys(keys.to_set())
        }),
    decreases keys.len(),
{
    broadcast use vstd::set::group_set_axioms, vstd::seq_lib::seq_to_set_is_finite;

    if keys.len() == 0 {
        assert(keys.to_set() =~= Set::<Seq<char>>::empty());
        assert(st.remove_keys(keys.to_set()) =~= st);
        assert(st.dom().intersect(keys.to_set()) =~= Set::<Seq<char>>::empty());
    } else {
        let pre = keys.drop_last();
        let x = keys.last();
        assert(pre.push(x) =~= keys);
        law_del_counts_stored_keys(st, pre, order, ex, now);
        lemma_key_set_push(pre, x);
        let sp = pre.to_set();
        let inter = st.dom().intersect(sp);
        let m = del_all(st, pre).0;
        assert(inter.finite());
        if m.contains_key(x) {
            assert(m.remove(x) =~= st.remove_keys(sp.insert(x)));
            assert(st.dom().intersect(sp.insert(x)) =~= inter.insert(x));
            assert(!inter.contains(x));
        } else {
            assert(m =~= st.remove_keys(sp.insert(x)));
            assert(st.dom().intersect(sp.insert(x)) =~= inter);
        }
    }
}

proof fn lemma_ascii_upper_skip(b: Seq<u8>, k: int)
    requires
        0 <= k <= b.len(),
    ensures
        ascii_upper(b).subrange(k, b.len() as int) == ascii_upper(b.subrange(k, b.len() as int)),
{
    assert(ascii_upper(b).subrange(k, b.len() as int) =~= ascii_upper(b.subrange(k, b.len() as int)));
}

/// Upper-casing the ASCII letters of a byte string keeps it valid UTF-8
/// exactly when it was.
proof fn lemma_ascii_upper_valid_utf8(b: Seq<u8>)
    ensures
        vstd::utf8::valid_utf8(ascii_upper(b)) == vstd::utf8::valid_utf8(b),
    decreases b.len(),
{
    let u = ascii_upper(b);
    if b.len() > 0 {
        assert(u.len() == b.len());
        if b[0] <= 0x7f {
            let x = b[0];
            let y = u[0];
            assert(y <= 0x7f);
            assert(x & 0x7f <= 0x7f && y & 0x7f <= 0x7f) by (bit_vector);
            assert(vstd::utf8::valid_first_scalar(b));
            assert(vstd::utf8::valid_first_scalar(u));
            lemma_ascii_upper_skip(b, 1);
            lemma_ascii_upper_valid_utf8(b.subrange(1, b.len() as int));
        } else {
            assert forall|j: int| 0 <= j < b.len() && b[j] >= 0x80 implies u[j] == b[j] by {}
            assert forall|j: int| 0 <= j < b.len() && b[j] < 0x80 implies u[j] < 0x80 by {}
            assert(u[0] == b[0]);
            if vstd::utf8::valid_first_scalar(b) || vstd::utf8::valid_first_scalar(u) {
                let l = vstd::utf8::length_of_first_codepoint(b);
                assert(vstd::utf8::length_of_first_codepoint(u) == l);
                assert(forall|j: int| 0 <= j < l ==> b[j] == u[j]);
                assert(vstd::utf8::decode_first_codepoint(u) == vstd::utf8::decode_first_codepoint(b));
                assert(vstd::utf8::valid_first_scalar(b) == vstd::utf8::valid_first_scalar(u));
                lemma_ascii_upper_skip(b, l);
                lemma_ascii_upper_valid_utf8(b.subrange(l, b.len() as int));
            }
        }
    }
}

/// Command names are read without regard to ASCII case: two requests that
/// differ only in the case of the letters of their name denote the same
/// command (`get foo` is `GET foo`, `expire k 10` is `EXPIRE k 10`, `publish
/// news hi` is `PUBLISH news hi`).
pub proof fn law_command_name_ignores_case(a: Seq<SpecResp>, b: Seq<SpecResp>)
    requires
        a.len() == b.len(),
        a.len() > 0,
        a[0] is BulkString,
        b[0] is BulkString,
        ascii_upper(a[0]->BulkString_0) == ascii_upper(b[0]->BulkString_0),
        forall|i: int| 1 <= i < a.len() ==> a[i] == b[i],
    ensures
        spec_parse_command(SpecResp::Array(a)) == spec_parse_command(SpecResp::Array(b)),
{
    lemma_ascii_upper_valid_utf8(a[0]->BulkString_0);
    lemma_ascii_upper_valid_utf8(b[0]->BulkString_0);
    assert((str_arg(a, 0) is Some) == (str_arg(b, 0) is Some));
    assert forall|i: int| 1 <= i < a.len() implies #[trigger] str_arg(a, i) == str_arg(b, i) by {}
    assert(all_str_args(a) == all_str_args(b)) by {
        if all_str_args(a) {
            assert forall|i: int| 1 <= i < b.len() implies (#[trigger] str_arg(b, i)) is Some by {
                assert(str_arg(a, i) == str_arg(b, i));
            }
        }
        if all_str_args(b) {
            assert forall|i: int| 1 <= i < a.len() implies (#[trigger] str_arg(a, i)) is Some by {
                assert(str_arg(a, i) == str_arg(b, i));
            }
        }
    }
    assert(Seq::new((a.len() - 1) as nat, |i: int| str_arg(a, i + 1)->0) =~= Seq::new(
        (b.len() - 1) as nat,
        |i: int| str_arg(b, i + 1)->0,
    ));
}

/// Commands that only read (`PING`, `GET`, `EXISTS`, `KEYS`, `TTL`) change
/// neither the store nor the deadlines and write nothing to the log; only
/// `SET` and `DEL` write to the log.
pub proof fn law_reads_change_nothing(
    c: SpecCommand,
    st: Map<Seq<char>, Seq<char>>,
    order: Seq<Seq<u8>>,
    ex: Map<Seq<u8>, u64>,
    now: u64,
)
    ensures
        (c is Ping || c is Get || c is Exists || c is Keys || c is Ttl) ==> {
            let e = effect(c, st, order, ex, now);
            &&& e.store == st
            &&& e.expiry == ex
            &&& e.log is None
        },
        effect(c, st, order, ex, now).log is Some ==> (c is SetKey || c is Del),
{
}

/// `TTL key` at the instant of `EXPIRE key secs` on a stored key replies
/// `secs`, when `secs` is positive and the deadline does not overflow.
pub proof fn law_ttl_after_expire(
    st: Map<Seq<char>, Seq<char>>,
    order: Seq<Seq<u8>>,
    ex: Map<Seq<u8>, u64>,
    now: u64,
    key: Seq<char>,
    secs: u64,
    order2: Seq<Seq<u8>>,
)
    requires
        st.contains_key(key),
        secs > 0,
        now + secs * 1000 <= u64::MAX,
    ensures
        ({
            let e1 = effect(SpecCommand::Expire { key, seconds: secs }, st, order, ex, now);
            &&& e1.reply == int_frame(1)
            &&& effect(SpecCommand::Ttl { key }, e1.store, order2, e1.expiry, now).reply
                == int_frame(secs as int)
        }),
{
    assert((secs * 1000) / 1000 == secs) by (nonlinear_arith);
    assert(secs * 1000 > 0) by (nonlinear_arith)
        requires
            secs > 0,
    ;
}

/// Once the deadline set by `EXPIRE` has come, a sweep of the expired keys
/// removes the key from the store, so that `GET` replies with the null bulk
/// string.
pub proof fn law_key_gone_after_deadline(
    st: Map<Seq<char>, Seq<char>>,
    order: Seq<Seq<u8>>,
    ex: Map<Seq<u8>, u64>,
    now: u64,
    key: Seq<char>,
    secs: u64,
    later: u64,
    order2: Seq<Seq<u8>>,
)
    requires
        st.contains_key(key),
        later >= deadline_after(now, secs),
    ensures
        ({
            let e1 = effect(SpecCommand::Expire { key, seconds: secs }, st, order, ex, now);
            let swept = e1.store.remove_keys(
                Set::new(|k: Seq<char>| due_set(e1.expiry, later).contains(str_key(k))),
            );
            let swept_ex = e1.expiry.remove_keys(due_set(e1.expiry, later));
            &&& !swept.contains_key(key)
            &&& !swept_ex.contains_key(str_key(key))
            &&& effect(SpecCommand::Get { key }, swept, order2, swept_ex, later).reply == null_frame()
        }),
{
}

/// After a sweep at `now`, no deadline at or before `now` is left, and every
/// later deadline is kept.
pub proof fn law_sweep_leaves_only_future_deadlines(
    before: Map<Seq<u8>, u64>,
    after: Map<Seq<u8>, u64>,
    now: u64,
)
    requires
        after == before.remove_keys(due_set(before, now)),
    ensures
        forall|kb: Seq<u8>| #[trigger] after.contains_key(kb) ==> after[kb] > now,
        forall|kb: Seq<u8>|
            before.contains_key(kb) && before[kb] > now ==> #[trigger] after.contains_key(kb)
                && after[kb] == before[kb],
{
}

/// Every key bytes in `order` end with the terminator byte.
spec fn terminated(order: Seq<Seq<u8>>) -> bool {
    forall|i: int| 0 <= i < order.len() ==> (#[trigger] order[i]) == order[i].drop_last().push(0xffu8)
}

proof fn lemma_matching_keys(order: Seq<Seq<u8>>, pat: Seq<u8>)
    requires
        order.no_duplicates(),
        terminated(order),
    ensures
        matching_keys(order, pat).no_duplicates(),
        forall|x: Seq<u8>|
            #[trigger] matching_keys(order, pat).contains(x) <==> (glob(pat, x) && exists|i: int|
                0 <= i < order.len() && (#[trigger] order[i]).drop_last() == x),
    decreases order.len(),
{
    if order.len() > 0 {
        let pre = order.drop_last();
        assert(terminated(pre)) by {
            assert forall|i: int| 0 <= i < pre.len() implies (#[trigger] pre[i]) == pre[i].drop_last().push(0xffu8) by {
                assert(pre[i] == order[i]);
            }
        }
        lemma_matching_keys(pre, pat);
        let rest = matching_keys(pre, pat);
        let last = order[order.len() - 1];
        assert(last == order.last());
        let x0 = last.drop_last();
        assert forall|x: Seq<u8>|
            matching_keys(order, pat).contains(x) <==> (glob(pat, x) && exists|i: int|
                0 <= i < order.len() && (#[trigger] order[i]).drop_last() == x) by {
            if glob(pat, x) && exists|i: int| 0 <= i < order.len() && (#[trigger] order[i]).drop_last() == x {
                let i = choose|i: int| 0 <= i < order.len() && (#[trigger] order[i]).drop_last() == x;
                if i < order.len() - 1 {
                    assert(pre[i] == order[i]);
                    assert(rest.contains(x));
                    if glob(pat, x0) {
                        let t = choose|t: int| 0 <= t < rest.len() && rest[t] == x;
                        assert(rest.push(x0)[t] == x);
                    }
                } else {
                    assert(rest.push(x0)[rest.len() as int] == x0);
                }
            }
            if matching_keys(order, pat).contains(x) {
                if glob(pat, x0) && x == x0 {
                    assert(order[order.len() - 1].drop_last() == x);
                } else {
                    if glob(pat, x0) {
                        let t = choose|t: int| 0 <= t < rest.len() + 1 && rest.push(x0)[t] == x;
                        assert(rest[t] == x);
                    }
                    assert(rest.contains(x));
                    let i = choose|i: int| 0 <= i < pre.len() && (#[trigger] pre[i]).drop_last() == x;
                    assert(order[i] == pre[i]);
                }
            }
        }
        if glob(pat, x0) {
            assert(!rest.contains(x0)) by {
                if rest.contains(x0) {
                    let i = choose|i: int| 0 <= i < pre.len() && (#[trigger] pre[i]).drop_last() == x0;
                    assert(order[i] == pre[i]);
                    assert(order[i] == order[i].drop_last().push(0xffu8));
                    assert(last == last.drop_last().push(0xffu8));
                    assert(order[i] == last);
                }
            }
            let all = rest.push(x0);
            assert forall|a: int, b: int| 0 <= a < all.len() && 0 <= b < all.len() && a != b implies all[a]
                != all[b] by {
                if a < rest.len() && b < rest.len() {
                } else if a < rest.len() {
                    assert(rest.contains(all[a]));
                } else {
                    assert(rest.contains(all[b]));
                }
            }
        }
    }
}

/// `KEYS pattern` lists each stored key that the pattern matches exactly
/// once, and nothing else.
pub proof fn law_keys_lists_matching(store: ShardedStore, pattern: Seq<u8>)
    requires
        store.wf(),
    ensures
        matching_keys(store.key_order(), pattern).no_duplicates(),
        forall|k: Seq<char>|
            #[trigger] matching_keys(store.key_order(), pattern).contains(vstd::utf8::encode_utf8(k))
                <==> (store@.contains_key(k) && glob(pattern, vstd::utf8::encode_utf8(k))),
        forall|t: int|
            0 <= t < matching_keys(store.key_order(), pattern).len() ==> {
                let x = #[trigger] matching_keys(store.key_order(), pattern)[t];
                &&& store@.contains_key(vstd::utf8::decode_utf8(x))
                &&& x == vstd::utf8::encode_utf8(vstd::utf8::decode_utf8(x))
            },
{
    broadcast use vstd::utf8::encode_utf8_decode_utf8;

    store.lemma_key_order();
    let order = store.key_order();
    assert(terminated(order)) by {
        assert forall|i: int| 0 <= i < order.len() implies (#[trigger] order[i]) == order[i].drop_last().push(0xffu8) by {
            let kb = order[i];
            assert(str_key(key_str(kb)) == kb);
            assert(str_key(key_str(kb)).drop_last() =~= vstd::utf8::encode_utf8(key_str(kb)));
        }
    }
    lemma_matching_keys(order, pattern);
    let mk = matching_keys(order, pattern);
    assert forall|k: Seq<char>|
        #[trigger] mk.contains(vstd::utf8::encode_utf8(k)) <==> (store@.contains_key(k) && glob(
            pattern,
            vstd::utf8::encode_utf8(k),
        )) by {
        let x = vstd::utf8::encode_utf8(k);
        assert(str_key(k).drop_last() =~= x);
        if store@.contains_key(k) && glob(pattern, x) {
            assert(order.contains(str_key(k)));
            let i = choose|i: int| 0 <= i < order.len() && order[i] == str_key(k);
            assert(order[i].drop_last() == x);
        }
        if mk.contains(x) {
            assert(exists|i: int| 0 <= i < order.len() && (#[trigger] order[i]).drop_last() == x);
            let i = choose|i: int| 0 <= i < order.len() && (#[trigger] order[i]).drop_last() == x;
            let kb = order[i];
            assert(store@.contains_key(key_str(kb)));
            assert(str_key(key_str(kb)) == kb);
            assert(str_key(key_str(kb)).drop_last() =~= vstd::utf8::encode_utf8(key_str(kb)));
            assert(vstd::utf8::encode_utf8(key_str(kb)) == x);
            assert(key_str(kb) == k);
        }
    }
    assert forall|t: int| 0 <= t < mk.len() implies {
        let x = #[trigger] mk[t];
        &&& store@.contains_key(vstd::utf8::decode_utf8(x))
        &&& x == vstd::utf8::encode_utf8(vstd::utf8::decode_utf8(x))
    } by {
        let x = mk[t];
        assert(mk.contains(x));
        let i = choose|i: int| 0 <= i < order.len() && (#[trigger] order[i]).drop_last() == x;
        let kb = order[i];
        assert(store@.contains_key(key_str(kb)));
        assert(str_key(key_str(kb)) == kb);
        assert(str_key(key_str(kb)).drop_last() =~= vstd::utf8::encode_utf8(key_str(kb)));
        assert(vstd::utf8::decode_utf8(x) == key_str(kb));
    }
}

/// The record that `SET key value` writes to the append-only log is a
/// request that reads back, byte for byte, as `SET key value`.
#[verifier::rlimit(50)]
pub proof fn law_set_record_reads_back(
    st: Map<Seq<char>, Seq<char>>,
    order: Seq<Seq<u8>>,
    ex: Map<Seq<u8>, u64>,
    now: u64,
    key: Seq<char>,
    value: Seq<char>,
    rest: Seq<u8>,
)
    requires
        vstd::utf8::encode_utf8(key).len() <= i64::MAX,
        vstd::utf8::encode_utf8(value).len() <= i64::MAX,
    ensures
        ({
            let e = effect(SpecCommand::SetKey { key, value }, st, order, ex, now);
            &&& e.log is Some
            &&& spec_parse(e.log->0 + rest) matches Ok((v, c)) && c == e.log->0.len()
                && spec_parse_command(v) == Some(SpecCommand::SetKey { key, value })
        }),
{
    broadcast use vstd::utf8::encode_utf8_valid_utf8, vstd::utf8::encode_utf8_decode_utf8;

    let kb = vstd::utf8::encode_utf8(key);
    let vb = vstd::utf8::encode_utf8(value);
    let items = seq![name_set(), kb, vb];
    let i2 = seq![name_set(), kb];
    let i1 = seq![name_set()];
    assert(items.drop_last() =~= i2);
    assert(i2.drop_last() =~= i1);
    assert(i1.drop_last() =~= Seq::<Seq<u8>>::empty());
    assert(i1.last() == name_set() && i2.last() == kb && items.last() == vb);
    assert(concat_bulks(i1.drop_last()) =~= Seq::<u8>::empty());
    assert(concat_bulks(i1) =~= bulk_frame(name_set()));
    assert(concat_bulks(i2) =~= bulk_frame(name_set()) + bulk_frame(kb));
    let rec = array_header_frame(3) + bulk_frame(name_set()) + bulk_frame(kb) + bulk_frame(vb);
    assert(concat_bulks(items) =~= bulk_frame(name_set()) + bulk_frame(kb) + bulk_frame(vb));
    assert(rec =~= array_header_frame(items.len()) + concat_bulks(items));
    assert(bulk_sized(items));
    law_bulk_array_roundtrip(items, rest);
    let args = bulk_values(items);
    assert(args[0] == SpecResp::BulkString(name_set()));
    assert(args[1] == SpecResp::BulkString(kb));
    assert(args[2] == SpecResp::BulkString(vb));
    lemma_ascii_utf8(name_set());
    assert(ascii_upper(name_set()) =~= name_set());
    assert(str_arg(args, 1) == Some(key));
    assert(str_arg(args, 2) == Some(value));
}

/// The record `DEL` writes for `keys`.
spec fn del_record(keys: Seq<Seq<char>>) -> Seq<u8> {
    array_header_frame(keys.len() + 1) + bulk_frame(name_del()) + concat_bulks(
        keys.map_values(|k: Seq<char>| vstd::utf8::encode_utf8(k)),
    )
}

#[verifier::rlimit(50)]
proof fn lemma_del_record(keys: Seq<Seq<char>>, rest: Seq<u8>)
    requires
        keys.len() >= 1,
        keys.len() < i64::MAX,
        forall|i: int| 0 <= i < keys.len() ==> vstd::utf8::encode_utf8(#[trigger] keys[i]).len() <= i64::MAX,
    ensures
        spec_parse(del_record(keys) + rest) matches Ok((v, c)) && c == del_record(keys).len()
            && spec_parse_command(v) == Some(SpecCommand::Del { keys }),
{
    broadcast use vstd::utf8::encode_utf8_valid_utf8, vstd::utf8::encode_utf8_decode_utf8;

    let encs = keys.map_values(|k: Seq<char>| vstd::utf8::encode_utf8(k));
    let items = seq![name_del()] + encs;
    assert(items.drop_first() =~= encs);
    crate::protocol::roundtrip::lemma_concat_bulks_first(items);
    assert(items[0] == name_del());
    let rec = del_record(keys);
    assert(rec =~= array_header_frame(items.len()) + concat_bulks(items));
    assert(bulk_sized(items)) by {
        assert forall|i: int| 0 <= i < items.len() implies (#[trigger] items[i]).len() <= i64::MAX by {
            if i > 0 {
                assert(items[i] == vstd::utf8::encode_utf8(keys[i - 1]));
            }
        }
    }
    law_bulk_array_roundtrip(items, rest);
    let args = bulk_values(items);
    lemma_ascii_utf8(name_del());
    assert(args[0] == SpecResp::BulkString(name_del()));
    assert(ascii_upper(name_del()) =~= name_del());
    assert forall|i: int| 1 <= i < args.len() implies #[trigger] str_arg(args, i) == Some(keys[i - 1]) by {
        assert(args[i] == SpecResp::BulkString(items[i]));
        assert(items[i] == vstd::utf8::encode_utf8(keys[i - 1]));
    }
    assert(Seq::new((args.len() - 1) as nat, |i: int| str_arg(args, i + 1)->0) =~= keys);
}

/// The record that a `DEL` that removed some key writes to the append-only
/// log is a request that reads back, byte for byte, as the same `DEL`.
pub proof fn law_del_record_reads_back(
    st: Map<Seq<char>, Seq<char>>,
    order: Seq<Seq<u8>>,
    ex: Map<Seq<u8>, u64>,
    now: u64,
    keys: Seq<Seq<char>>,
    rest: Seq<u8>,
)
    requires
        keys.len() < i64::MAX,
        forall|i: int| 0 <= i < keys.len() ==> vstd::utf8::encode_utf8(#[trigger] keys[i]).len() <= i64::MAX,
    ensures
        ({
            let e = effect(SpecCommand::Del { keys }, st, order, ex, now);
            e.log is Some ==> {
                &&& spec_parse(e.log->0 + rest) matches Ok((v, c)) && c == e.log->0.len()
                    && spec_parse_command(v) == Some(SpecCommand::Del { keys })
            }
        }),
{
    let (m, count) = del_all(st, keys);
    let e = effect(SpecCommand::Del { keys }, st, order, ex, now);
    assert(e.log == (if count > 0 {
        Some(del_record(keys))
    } else {
        None::<Seq<u8>>
    }));
    if count > 0 {
        if keys.len() == 0 {
            assert(del_all(st, keys) == (st, 0nat));
        }
        lemma_del_record(keys, rest);
    }
}

/// Whether the record of `c`, replayed, does what `c` did to the store: a
/// `SET` of a key and value that are log-safe, a `DEL` of log-safe keys, or
/// any command that leaves the store as it is.
pub open spec fn replayable(c: SpecCommand) -> bool {
    match c {
        SpecCommand::SetKey { key, value } => log_safe(key) && log_safe(value),
        SpecCommand::Del { keys } => keys.len() < i64::MAX && forall|i: int|
            0 <= i < keys.len() ==> log_safe(#[trigger] keys[i]),
        _ => true,
    }
}

/// The store that `cmds`, carried out one after the other on `st`, leave,
/// and the bytes they write to the append-only log.
pub open spec fn run_commands(st: Map<Seq<char>, Seq<char>>, cmds: Seq<SpecCommand>) -> (
    Map<Seq<char>, Seq<char>>,
    Seq<u8>,
)
    decreases cmds.len(),
{
    if cmds.len() == 0 {
        (st, Seq::empty())
    } else {
        let e = effect(cmds[0], st, Seq::empty(), Map::empty(), 0);
        let (s2, l2) = run_commands(e.store, cmds.drop_first());
        (
            s2,
            match e.log {
                Some(r) => r + l2,
                None => l2,
            },
        )
    }
}

proof fn lemma_remove_all_push(s: Map<Seq<char>, Seq<char>>, ks: Seq<Seq<char>>, x: Seq<char>)
    ensures
        remove_all(s, ks.push(x)) == remove_all(s, ks).remove(x),
    decreases ks.len(),
{
    if ks.len() == 0 {
        assert(ks.push(x).drop_first() =~= Seq::<Seq<char>>::empty());
        assert(ks.push(x)[0] == x);
        assert(remove_all(s.remove(x), Seq::<Seq<char>>::empty()) == s.remove(x));
        assert(remove_all(s, ks) == s);
    } else {
        assert(ks.push(x)[0] == ks[0]);
        assert(ks.push(x).drop_first() =~= ks.drop_first().push(x));
        lemma_remove_all_push(s.remove(ks[0]), ks.drop_first(), x);
    }
}

/// `DEL` removes its keys one after the other; when it finds none, the store
/// stays as it was.
proof fn lemma_del_all_removes(st: Map<Seq<char>, Seq<char>>, keys: Seq<Seq<char>>)
    ensures
        del_all(st, keys).0 == remove_all(st, keys),
        del_all(st, keys).1 == 0 ==> del_all(st, keys).0 == st,
    decreases keys.len(),
{
    if keys.len() > 0 {
        let pre = keys.drop_last();
        let x = keys.last();
        lemma_del_all_removes(st, pre);
        lemma_remove_all_push(st, pre, x);
        assert(pre.push(x) =~= keys);
        let m = del_all(st, pre).0;
        if !m.contains_key(x) {
            assert(m.remove(x) =~= m);
        }
    }
}

/// What a command does to the store, and the record it writes, do not depend
/// on the order of the keys, on the deadlines or on the time.
pub proof fn law_store_effect_ignores_time(
    c: SpecCommand,
    st: Map<Seq<char>, Seq<char>>,
    order: Seq<Seq<u8>>,
    ex: Map<Seq<u8>, u64>,
    now: u64,
)
    ensures
        effect(c, st, order, ex, now).store == effect(c, st, Seq::empty(), Map::empty(), 0).store,
        effect(c, st, order, ex, now).log == effect(c, st, Seq::empty(), Map::empty(), 0).log,
{
}

/// Replaying the whole log that a run of commands wrote, read back from the
/// file line by line, rebuilds the store the run left: the store survives a
/// restart. `lines_from` is what `split_lines` gives for the file's bytes and
/// `replay_from` what `replay_aof` does with those lines; the run's records
/// are those `execute` appends, by `law_store_effect_ignores_time` whatever
/// the deadlines and the time.
pub proof fn law_log_replay_restores_store(st: Map<Seq<char>, Seq<char>>, cmds: Seq<SpecCommand>)
    requires
        forall|i: int| 0 <= i < cmds.len() ==> replayable(#[trigger] cmds[i]),
    ensures
        replay_from(lines_from(run_commands(st, cmds).1, 0), 0, st) == run_commands(st, cmds).0,
    decreases cmds.len(),
{
    if cmds.len() == 0 {
        assert(lines_from(Seq::<u8>::empty(), 0) =~= Seq::<Seq<char>>::empty());
    } else {
        let c = cmds[0];
        let rest = cmds.drop_first();
        assert forall|i: int| 0 <= i < rest.len() implies replayable(#[trigger] rest[i]) by {
            assert(rest[i] == cmds[i + 1]);
        }
        assert(replayable(c));
        let e = effect(c, st, Seq::empty(), Map::empty(), 0);
        law_log_replay_restores_store(e.store, rest);
        let (s2, l2) = run_commands(e.store, rest);
        law_reads_change_nothing(c, st, Seq::empty(), Map::empty(), 0);
        match c {
            SpecCommand::SetKey { key, value } => {
                lemma_set_record_replays(key, value, l2, st);
            },
            SpecCommand::Del { keys } => {
                lemma_del_all_removes(st, keys);
                if del_all(st, keys).1 > 0 {
                    if keys.len() == 0 {
                        assert(del_all(st, keys) == (st, 0nat));
                    }
                    lemma_del_record_replays(keys, l2, st);
                }
            },
            _ => {},
        }
    }
}

/// The pattern `*` matches every key.
pub proof fn law_glob_star_matches_all(s: Seq<u8>)
    ensures
        glob(seq![42u8], s),
    decreases s.len(),
{
    let p = seq![42u8];
    assert(p.len() == 1 && p[0] == 42u8);
    assert(p.drop_first() =~= Seq::<u8>::empty());
    if s.len() > 0 {
        law_glob_star_matches_all(s.drop_first());
        assert(glob(p, s.drop_first()));
    } else {
        assert(glob(p.drop_first(), s));
    }
}

/// A pattern that starts with `*` matches `s` exactly when the rest of the
/// pattern matches what is left of `s` after some prefix of it, the empty
/// prefix and the whole of `s` included.
pub proof fn law_glob_star(r: Seq<u8>, s: Seq<u8>)
    ensures
        glob(seq![42u8] + r, s) <==> exists|i: int| 0 <= i <= s.len() && #[trigger] glob(r, s.skip(i)),
    decreases s.len(),
{
    let p = seq![42u8] + r;
    assert(p[0] == 42u8);
    assert(p.drop_first() =~= r);
    assert(s.skip(0) =~= s);
    if s.len() == 0 {
        if exists|i: int| 0 <= i <= s.len() && #[trigger] glob(r, s.skip(i)) {
            let i = choose|i: int| 0 <= i <= s.len() && #[trigger] glob(r, s.skip(i));
            assert(i == 0);
            assert(glob(p, s));
        }
        if glob(p, s) {
            assert(glob(r, s.skip(0)));
        }
    } else {
        let t = s.drop_first();
        law_glob_star(r, t);
        if glob(p, s) {
            if glob(r, s) {
                assert(glob(r, s.skip(0)));
            } else {
                assert(glob(p, t));
                let j = choose|j: int| 0 <= j <= t.len() && #[trigger] glob(r, t.skip(j));
                assert(t.skip(j) =~= s.skip(j + 1));
                assert(glob(r, s.skip(j + 1)));
            }
        }
        if exists|i: int| 0 <= i <= s.len() && #[trigger] glob(r, s.skip(i)) {
            let i = choose|i: int| 0 <= i <= s.len() && #[trigger] glob(r, s.skip(i));
            if i == 0 {
                assert(glob(r, s));
            } else {
                assert(t.skip(i - 1) =~= s.skip(i));
                assert(glob(r, t.skip(i - 1)));
                assert(glob(p, t));
            }
        }
    }
}

/// Patterns concatenate: when `q` matches `x` and `r` matches `z`, `q`
/// followed by `r` matches `x` followed by `z`.
pub proof fn law_glob_concat(q: Seq<u8>, x: Seq<u8>, r: Seq<u8>, z: Seq<u8>)
    requires
        glob(q, x),
        glob(r, z),
    ensures
        glob(q + r, x + z),
    decreases q.len(), x.len(),
{
    if q.len() == 0 {
        assert(q + r =~= r);
        assert(x + z =~= z);
    } else {
        let qr = q + r;
        assert(qr[0] == q[0]);
        assert(qr.drop_first() =~= q.drop_first() + r);
        if q[0] == 42 {
            if glob(q.drop_first(), x) {
                law_glob_concat(q.drop_first(), x, r, z);
            } else {
                law_glob_concat(q, x.drop_first(), r, z);
                assert((x + z).drop_first() =~= x.drop_first() + z);
            }
        } else {
            assert((x + z)[0] == x[0]);
            assert((x + z).drop_first() =~= x.drop_first() + z);
            law_glob_concat(q.drop_first(), x.drop_first(), r, z);
        }
    }
}

/// A `*` between two patterns absorbs any run of bytes: when `q` matches `x`
/// and `r` matches `z`, the pattern `q*r` matches `x`, then any `y`, then `z`.
pub proof fn law_glob_star_absorbs(q: Seq<u8>, x: Seq<u8>, y: Seq<u8>, r: Seq<u8>, z: Seq<u8>)
    requires
        glob(q, x),
        glob(r, z),
    ensures
        glob(q + seq![42u8] + r, x + y + z),
{
    let yz = y + z;
    assert(yz.skip(y.len() as int) =~= z);
    law_glob_star(r, yz);
    assert(glob(r, yz.skip(y.len() as int)));
    law_glob_concat(q, x, seq![42u8] + r, yz);
    assert(q + (seq![42u8] + r) =~= q + seq![42u8] + r);
    assert(x + yz =~= x + y + z);
}

/// Whether `p` holds neither `*` nor `?`.
pub open spec fn literal(p: Seq<u8>) -> bool {
    forall|i: int| 0 <= i < p.len() ==> p[i] != 42u8 && p[i] != 63u8
}

/// A pattern without `*` or `?` matches exactly itself.
pub proof fn law_glob_literal(p: Seq<u8>, s: Seq<u8>)
    requires
        literal(p),
    ensures
        glob(p, s) <==> p == s,
    decreases p.len(),
{
    if p.len() > 0 && s.len() > 0 {
        assert(literal(p.drop_first()));
        law_glob_literal(p.drop_first(), s.drop_first());
        if p[0] == s[0] && p.drop_first() == s.drop_first() {
            assert(p =~= seq![p[0]] + p.drop_first());
            assert(s =~= seq![s[0]] + s.drop_first());
        }
        if p == s {
            assert(p.drop_first() =~= s.drop_first());
        }
    }
    if p.len() == 0 && s.len() == 0 {
        assert(p =~= s);
    }
}

/// `KEYS *` lists every stored key, each once.
pub proof fn law_keys_star_lists_every_key(store: ShardedStore)
    requires
        store.wf(),
    ensures
        matching_keys(store.key_order(), seq![42u8]).no_duplicates(),
        forall|k: Seq<char>|
            #[trigger] matching_keys(store.key_order(), seq![42u8]).contains(vstd::utf8::encode_utf8(k))
                <==> store@.contains_key(k),
{
    law_keys_lists_matching(store, seq![42u8]);
    assert forall|k: Seq<char>|
        #[trigger] matching_keys(store.key_order(), seq![42u8]).contains(vstd::utf8::encode_utf8(k))
            <==> store@.contains_key(k) by {
        law_glob_star_matches_all(vstd::utf8::encode_utf8(k));
    }
}

/// After `insert(key, value)` on the sharded store, `get(key)` gives
/// `value`, every other key keeps its value, and the list of all keys holds
/// `key` exactly once.
pub proof fn law_sharded_insert_then_get(
    before: ShardedStore,
    after: ShardedStore,
    key: Seq<char>,
    value: Seq<char>,
    other: Seq<char>,
)
    requires
        after.wf(),
        after@ == before@.insert(key, value),
    ensures
        after@.contains_key(key),
        after@[key] == value,
        other != key ==> after@.contains_key(other) == before@.contains_key(other) && after@[other]
            == before@[other],
        after.key_order().contains(str_key(key)),
        after.key_order().no_duplicates(),
{
    after.lemma_key_order();
    assert(after@.contains_key(key));
}

proof fn lemma_header_utf8(n: nat)
    ensures
        vstd::utf8::valid_utf8(array_header_frame(n)),
{
    crate::protocol::roundtrip::lemma_dec_nat(n);
    let h = array_header_frame(n);
    assert forall|i: int| 0 <= i < h.len() implies (#[trigger] h[i]) <= 0x7fu8 by {
        if 1 <= i < h.len() - 2 {
            assert(h[i] == crate::protocol::writer::dec_nat(n)[i - 1]);
            assert(crate::protocol::resp::is_digit(crate::protocol::writer::dec_nat(n)[i - 1]));
        }
    }
    lemma_ascii_utf8(h);
}

proof fn lemma_concat_bulks_utf8(items: Seq<Seq<u8>>)
    requires
        forall|i: int| 0 <= i < items.len() ==> vstd::utf8::valid_utf8(#[trigger] items[i]),
    ensures
        vstd::utf8::valid_utf8(concat_bulks(items)),
    decreases items.len(),
{
    broadcast use vstd::utf8::valid_utf8_concat;

    if items.len() == 0 {
        assert(concat_bulks(items) =~= Seq::<u8>::empty());
        lemma_ascii_utf8(Seq::<u8>::empty());
    } else {
        let pre = items.drop_last();
        assert forall|i: int| 0 <= i < pre.len() implies vstd::utf8::valid_utf8(#[trigger] pre[i]) by {
            assert(pre[i] == items[i]);
        }
        lemma_concat_bulks_utf8(pre);
        assert(vstd::utf8::valid_utf8(items[items.len() - 1]));
        crate::commands::handlers::lemma_bulk_utf8(items.last());
        assert(vstd::utf8::valid_utf8(concat_bulks(pre) + bulk_frame(items.last())));
    }
}

/// Every record a command writes to the append-only log is valid UTF-8, so
/// it can be read back as text.
pub proof fn law_log_records_are_utf8(
    c: SpecCommand,
    st: Map<Seq<char>, Seq<char>>,
    order: Seq<Seq<u8>>,
    ex: Map<Seq<u8>, u64>,
    now: u64,
)
    ensures
        effect(c, st, order, ex, now).log matches Some(r) ==> vstd::utf8::valid_utf8(r),
{
    broadcast use vstd::utf8::valid_utf8_concat, vstd::utf8::encode_utf8_valid_utf8;

    match c {
        SpecCommand::SetKey { key, value } => {
            lemma_header_utf8(3);
            lemma_ascii_utf8(name_set());
            crate::commands::handlers::lemma_bulk_utf8(name_set());
            crate::commands::handlers::lemma_bulk_utf8(vstd::utf8::encode_utf8(key));
            crate::commands::handlers::lemma_bulk_utf8(vstd::utf8::encode_utf8(value));
            let a = array_header_frame(3) + bulk_frame(name_set());
            assert(vstd::utf8::valid_utf8(a));
            assert(vstd::utf8::valid_utf8(a + bulk_frame(vstd::utf8::encode_utf8(key))));
        },
        SpecCommand::Del { keys } => {
            let encs = keys.map_values(|k: Seq<char>| vstd::utf8::encode_utf8(k));
            lemma_header_utf8(keys.len() + 1);
            lemma_ascii_utf8(name_del());
            crate::commands::handlers::lemma_bulk_utf8(name_del());
            lemma_concat_bulks_utf8(encs);
            assert(vstd::utf8::valid_utf8(array_header_frame(keys.len() + 1) + bulk_frame(name_del())));
        },
        _ => {},
    }
}

} // verus!
