use vstd::prelude::*;
use crate::store::sharded::ShardedStore;
use crate::store::hashmap::HashMap;
use crate::store::hashkey::{HashKey, str_key, key_str, lemma_key_str, lemma_str_key_injective};

verus! {

/// The keys among `order` whose deadline in `ex` is at or before `now`, in order.
pub open spec fn due_keys(order: Seq<Seq<u8>>, ex: Map<Seq<u8>, u64>, now: u64) -> Seq<Seq<u8>>
    decreases order.len(),
{
    if order.len() == 0 {
        Seq::empty()
    } else {
        let rest = due_keys(order.drop_last(), ex, now);
        if ex[order.last()] <= now {
            rest.push(order.last())
        } else {
            rest
        }
    }
}

proof fn lemma_due_keys(order: Seq<Seq<u8>>, ex: Map<Seq<u8>, u64>, now: u64)
    ensures
        forall|kb: Seq<u8>| due_keys(order, ex, now).contains(kb) <==> (order.contains(kb) && ex[kb] <= now),
    decreases order.len(),
{
    if order.len() > 0 {
        lemma_due_keys(order.drop_last(), ex, now);
        let rest = due_keys(order.drop_last(), ex, now);
        assert forall|kb: Seq<u8>|
            due_keys(order, ex, now).contains(kb) <==> (order.contains(kb) && ex[kb] <= now) by {
            if order.contains(kb) && kb != order.last() {
                let t = choose|t: int| 0 <= t < order.len() && order[t] == kb;
                assert(order.drop_last()[t] == kb);
            }
            if order.drop_last().contains(kb) {
                let t = choose|t: int| 0 <= t < order.drop_last().len() && order.drop_last()[t] == kb;
                assert(order[t] == kb);
            }
            if ex[order.last()] <= now {
                assert(rest.push(order.last())[rest.len() as int] == order.last());
                if rest.contains(kb) {
                    let t = choose|t: int| 0 <= t < rest.len() && rest[t] == kb;
                    assert(rest.push(order.last())[t] == kb);
                }
                if rest.push(order.last()).contains(kb) && kb != order.last() {
                    let t = choose|t: int| 0 <= t < rest.len() + 1 && rest.push(order.last())[t] == kb;
                    assert(rest[t] == kb);
                }
            }
            assert(order[order.len() - 1] == order.last());
        }
    }
}

/// The bytes of the keys whose deadline in `ex` is at or before `now`.
pub open spec fn due_set(ex: Map<Seq<u8>, u64>, now: u64) -> Set<Seq<u8>> {
    Set::new(|kb: Seq<u8>| ex.contains_key(kb) && ex[kb] <= now)
}

/// The keys whose deadline has come at `now` (milliseconds), in the slot
/// order of the table of deadlines.
pub fn collect_expired(expiry: &HashMap<String, u64>, now: u64) -> (r: Vec<String>)
    requires
        expiry.wf(),
    ensures
        r@.len() == due_keys(expiry.key_order(), expiry@, now).len(),
        forall|t: int|
            0 <= t < r@.len() ==> str_key((#[trigger] r@[t])@) == due_keys(
                expiry.key_order(),
                expiry@,
                now,
            )[t],
{
    let entries = expiry.iter();
    let ghost order = expiry.key_order();
    let ghost ex = expiry@;
    let mut expired_keys: Vec<String> = Vec::new();
    let n = entries.len();
    let mut i: usize = 0;
    while i < n
        invariant
            n == entries@.len(),
            n == order.len(),
            forall|t: int|
                0 <= t < n ==> {
                    &&& (#[trigger] entries@[t]).0.key_bytes() == order[t]
                    &&& *entries@[t].1 == ex[order[t]]
                },
            i <= n,
            expired_keys@.len() == due_keys(order.take(i as int), ex, now).len(),
            forall|t: int|
                0 <= t < expired_keys@.len() ==> str_key((#[trigger] expired_keys@[t])@) == due_keys(
                    order.take(i as int),
                    ex,
                    now,
                )[t],
        decreases n - i,
    {
        proof {
            assert(order.take(i + 1).drop_last() =~= order.take(i as int));
            assert(order.take(i + 1).last() == order[i as int]);
        }
        let (k, deadline) = entries[i];
        if now >= *deadline {
            expired_keys.push(k.clone());
        }
        i = i + 1;
    }
    proof {
        assert(order.take(n as int) =~= order);
    }
    expired_keys
}

/// Removes from the store and from the table of deadlines every key whose
/// deadline has come at `now`.
pub fn expire_tick(store: &mut ShardedStore, expiry: &mut HashMap<String, u64>, now: u64)
    requires
        old(store).wf(),
        old(expiry).wf(),
    ensures
        final(store).wf(),
        final(expiry).wf(),
        final(store)@ == old(store)@.remove_keys(
            Set::new(|k: Seq<char>| due_set(old(expiry)@, now).contains(str_key(k))),
        ),
        final(expiry)@ == old(expiry)@.remove_keys(due_set(old(expiry)@, now)),
        final(store).size() <= old(store).size(),
{
    let keys = collect_expired(expiry, now);
    let ghost ex = expiry@;
    let ghost due = due_keys(expiry.key_order(), ex, now);
    proof {
        expiry.lemma_key_order();
        lemma_due_keys(expiry.key_order(), ex, now);
    }
    let n = keys.len();
    let mut i: usize = 0;
    while i < n
        invariant
            n == keys@.len(),
            n == due.len(),
            forall|t: int| 0 <= t < n ==> str_key((#[trigger] keys@[t])@) == due[t],
            i <= n,
            store.wf(),
            expiry.wf(),
            store.size() <= old(store).size(),
            store@ == old(store)@.remove_keys(
                Set::new(|k: Seq<char>| exists|t: int| 0 <= t < i && (#[trigger] keys@[t])@ == k),
            ),
            expiry@ == ex.remove_keys(
                Set::new(|kb: Seq<u8>| exists|t: int| 0 <= t < i && str_key((#[trigger] keys@[t])@) == kb),
            ),
        decreases n - i,
    {
        let k = &keys[i];
        store.remove(k.as_str());
        expiry.remove(k);
        proof {
            assert(store@ =~= old(store)@.remove_keys(
                Set::new(|k2: Seq<char>| exists|t: int| 0 <= t < i + 1 && (#[trigger] keys@[t])@ == k2),
            )) by {
                assert(keys@[i as int]@ == k@);
            }
            assert(expiry@ =~= ex.remove_keys(
                Set::new(|kb: Seq<u8>| exists|t: int| 0 <= t < i + 1 && str_key((#[trigger] keys@[t])@) == kb),
            )) by {
                assert(keys@[i as int]@ == k@);
            }
        }
        i = i + 1;
    }
    proof {
        old(expiry).lemma_key_order();
        lemma_due_keys(old(expiry).key_order(), ex, now);
        assert(ex == old(expiry)@);
        assert(due == due_keys(old(expiry).key_order(), ex, now));
        let got_b = Set::new(|kb: Seq<u8>| exists|t: int| 0 <= t < n && str_key((#[trigger] keys@[t])@) == kb);
        assert(got_b =~= due_set(ex, now)) by {
            assert forall|kb: Seq<u8>| due_set(ex, now).contains(kb) implies got_b.contains(kb) by {
                assert(old(expiry)@.contains_key(kb));
                assert(old(expiry).key_order().contains(kb));
                assert(due_keys(old(expiry).key_order(), ex, now).contains(kb));
                assert(due.contains(kb));
                let t = choose|t: int| 0 <= t < due.len() && due[t] == kb;
                assert(str_key(keys@[t]@) == kb);
            }
            assert forall|kb: Seq<u8>| got_b.contains(kb) implies due_set(ex, now).contains(kb) by {
                let t = choose|t: int| 0 <= t < n && str_key((#[trigger] keys@[t])@) == kb;
                assert(due[t] == kb);
                assert(due.contains(kb));
                assert(due_keys(old(expiry).key_order(), ex, now).contains(kb));
                assert(old(expiry).key_order().contains(kb));
                assert(old(expiry)@.contains_key(kb));
            }
        }
        let got_s = Set::new(|k: Seq<char>| exists|t: int| 0 <= t < n && (#[trigger] keys@[t])@ == k);
        assert(got_s =~= Set::new(|k: Seq<char>| due_set(ex, now).contains(str_key(k)))) by {
            assert forall|k: Seq<char>| due_set(ex, now).contains(str_key(k)) implies got_s.contains(k) by {
                assert(got_b.contains(str_key(k)));
                let t = choose|t: int| 0 <= t < n && str_key((#[trigger] keys@[t])@) == str_key(k);
                lemma_str_key_injective(keys@[t]@, k);
            }
            assert forall|k: Seq<char>| got_s.contains(k) implies due_set(ex, now).contains(str_key(k)) by {
                let t = choose|t: int| 0 <= t < n && (#[trigger] keys@[t])@ == k;
                assert(got_b.contains(str_key(k)));
            }
        }
    }
}

} // verus!
