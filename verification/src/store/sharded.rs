use vstd::prelude::*;
use crate::store::hashmap::HashMap;
use crate::store::hashkey::{HashKey, str_key, key_str, lemma_key_str, lemma_str_key_injective};

verus! {

broadcast use vstd::string::to_string_from_display_ensures_for_str;

/// The number of shards.
pub const NUM_SHARDS: usize = 16;

/// What `std`'s default hasher gives for a string.
pub uninterp spec fn std_str_hash(s: Seq<char>) -> u64;

/// Hashes `key` with the hasher that `std::collections::hash_map::DefaultHasher::new`
/// builds, through `BuildHasher::hash_one`. Trusted: the result is named as a
/// function of the string alone; `DefaultHasher::new` has fixed keys.
#[verifier::external_body]
fn std_hash(key: &str) -> (h: u64)
    ensures
        h == std_str_hash(key@),
{
    std::hash::BuildHasher::hash_one(
        &std::hash::BuildHasherDefault::<std::collections::hash_map::DefaultHasher>::default(),
        key,
    )
}

/// The shard that holds the key `s`.
pub open spec fn shard_of(s: Seq<char>) -> int {
    ((std_str_hash(s) as usize) % (NUM_SHARDS as usize)) as int
}

/// The number of entries of all shards together.
pub open spec fn total_len(shards: Seq<HashMap<String, String>>) -> nat
    decreases shards.len(),
{
    if shards.len() == 0 {
        0
    } else {
        total_len(shards.drop_last()) + shards.last()@.len()
    }
}

proof fn lemma_total_update(shards: Seq<HashMap<String, String>>, i: int, m: HashMap<String, String>)
    requires
        0 <= i < shards.len(),
    ensures
        total_len(shards.update(i, m)) + shards[i]@.len() == total_len(shards) + m@.len(),
    decreases shards.len(),
{
    if i == shards.len() - 1 {
        assert(shards.update(i, m).drop_last() =~= shards.drop_last());
    } else {
        lemma_total_update(shards.drop_last(), i, m);
        assert(shards.update(i, m).drop_last() =~= shards.drop_last().update(i, m));
    }
}

proof fn lemma_total_bound(shards: Seq<HashMap<String, String>>, i: int)
    requires
        0 <= i < shards.len(),
    ensures
        shards[i]@.len() <= total_len(shards),
    decreases shards.len(),
{
    if i < shards.len() - 1 {
        lemma_total_bound(shards.drop_last(), i);
    }
}

/// Every key of shard `i` is a string whose shard is `i`.
pub open spec fn homed(shards: Seq<HashMap<String, String>>, i: int) -> bool {
    forall|kb: Seq<u8>| #[trigger]
        shards[i]@.contains_key(kb) ==> exists|s: Seq<char>| kb == str_key(s) && shard_of(s) == i
}

/// The keys of the shards in order, each shard's in its slot order.
pub open spec fn keys_of(shards: Seq<HashMap<String, String>>) -> Seq<Seq<u8>>
    decreases shards.len(),
{
    if shards.len() == 0 {
        Seq::empty()
    } else {
        keys_of(shards.drop_last()) + shards.last().key_order()
    }
}

/// Every table lists as many keys as it holds entries.
proof fn lemma_keys_len(shards: Seq<HashMap<String, String>>)
    requires
        forall|i: int| 0 <= i < shards.len() ==> (#[trigger] shards[i]).wf(),
    ensures
        keys_of(shards).len() == total_len(shards),
    decreases shards.len(),
{
    if shards.len() > 0 {
        let rest = shards.drop_last();
        assert forall|i: int| 0 <= i < rest.len() implies (#[trigger] rest[i]).wf() by {
            assert(rest[i] == shards[i]);
        }
        lemma_keys_len(rest);
        assert(shards[shards.len() - 1].wf());
        shards.last().lemma_key_order();
    }
}

/// The keys of the first `n` shards are the keys those shards hold, each once.
proof fn lemma_keys_of(shards: Seq<HashMap<String, String>>, n: int)
    requires
        0 <= n <= shards.len(),
        shards.len() == NUM_SHARDS,
        forall|i: int| 0 <= i < NUM_SHARDS ==> (#[trigger] shards[i]).wf(),
        forall|i: int| 0 <= i < NUM_SHARDS ==> #[trigger] homed(shards, i),
    ensures
        keys_of(shards.take(n)).no_duplicates(),
        forall|kb: Seq<u8>|
            keys_of(shards.take(n)).contains(kb) <==> exists|i: int|
                0 <= i < n && (#[trigger] shards[i])@.contains_key(kb),
    decreases n,
{
    if n > 0 {
        lemma_keys_of(shards, n - 1);
        let prev = keys_of(shards.take(n - 1));
        let m = shards[n - 1];
        assert(m.wf());
        m.lemma_key_order();
        let mine = m.key_order();
        assert(shards.take(n).drop_last() =~= shards.take(n - 1));
        assert(keys_of(shards.take(n)) == prev + mine);
        let all = prev + mine;
        assert forall|kb: Seq<u8>|
            all.contains(kb) <==> exists|i: int| 0 <= i < n && (#[trigger] shards[i])@.contains_key(kb) by {
            if all.contains(kb) {
                let t = choose|t: int| 0 <= t < all.len() && all[t] == kb;
                if t < prev.len() {
                    assert(prev.contains(kb));
                } else {
                    assert(mine.contains(kb));
                    assert(shards[n - 1]@.contains_key(kb));
                }
            }
            if exists|i: int| 0 <= i < n && (#[trigger] shards[i])@.contains_key(kb) {
                let i = choose|i: int| 0 <= i < n && (#[trigger] shards[i])@.contains_key(kb);
                if i < n - 1 {
                    assert(prev.contains(kb));
                    let t = choose|t: int| 0 <= t < prev.len() && prev[t] == kb;
                    assert(all[t] == kb);
                } else {
                    assert(mine.contains(kb));
                    let t = choose|t: int| 0 <= t < mine.len() && mine[t] == kb;
                    assert(all[prev.len() + t] == kb);
                }
            }
        }
        assert forall|a: int, b: int| 0 <= a < all.len() && 0 <= b < all.len() && a != b implies all[a]
            != all[b] by {
            if a < prev.len() && b < prev.len() {
            } else if a >= prev.len() && b >= prev.len() {
                assert(all[a] == mine[a - prev.len()]);
                assert(all[b] == mine[b - prev.len()]);
            } else {
                let (p, q) = if a < prev.len() {
                    (a, b)
                } else {
                    (b, a)
                };
                let kb = all[p];
                assert(prev.contains(kb));
                assert(all[q] == mine[q - prev.len()]);
                assert(mine.contains(all[q]));
                if kb == all[q] {
                    assert(shards[n - 1]@.contains_key(kb));
                    let i = choose|i: int| 0 <= i < n - 1 && (#[trigger] shards[i])@.contains_key(kb);
                    assert(homed(shards, i));
                    assert(homed(shards, n - 1));
                    let s1 = choose|s: Seq<char>| kb == str_key(s) && shard_of(s) == i;
                    let s2 = choose|s: Seq<char>| kb == str_key(s) && shard_of(s) == n - 1;
                    lemma_str_key_injective(s1, s2);
                }
            }
        }
    }
}

/// A store of string keys and values, split over `NUM_SHARDS` hash tables by
/// the hash of the key.
pub struct ShardedStore {
    shards: Vec<HashMap<String, String>>,
}

impl View for ShardedStore {
    type V = Map<Seq<char>, Seq<char>>;

    /// The map from keys to values that the store holds.
    closed spec fn view(&self) -> Map<Seq<char>, Seq<char>> {
        Map::new(
            |k: Seq<char>| self.shards@[shard_of(k)]@.contains_key(str_key(k)),
            |k: Seq<char>| self.shards@[shard_of(k)]@[str_key(k)]@,
        )
    }
}

impl ShardedStore {
    /// The well-formedness invariant of the store.
    pub closed spec fn wf(&self) -> bool {
        &&& self.shards@.len() == NUM_SHARDS
        &&& forall|i: int| 0 <= i < NUM_SHARDS ==> (#[trigger] self.shards@[i]).wf()
        &&& forall|i: int| 0 <= i < NUM_SHARDS ==> #[trigger] homed(self.shards@, i)
    }

    /// The number of entries in all shards together.
    pub closed spec fn size(&self) -> nat {
        total_len(self.shards@)
    }

    /// The keys of the store, shard by shard.
    pub closed spec fn key_order(&self) -> Seq<Seq<u8>> {
        keys_of(self.shards@)
    }

    /// A store of `NUM_SHARDS` empty tables.
    pub fn new() -> (s: Self)
        ensures
            s.wf(),
            s@ == Map::<Seq<char>, Seq<char>>::empty(),
            s.size() == 0,
    {
        let mut shards: Vec<HashMap<String, String>> = Vec::new();
        let mut i: usize = 0;
        while i < NUM_SHARDS
            invariant
                i <= NUM_SHARDS,
                shards@.len() == i,
                forall|j: int| 0 <= j < i ==> (#[trigger] shards@[j]).wf(),
                forall|j: int| 0 <= j < i ==> (#[trigger] shards@[j])@ == Map::<Seq<u8>, String>::empty(),
                total_len(shards@) == 0,
            decreases NUM_SHARDS - i,
        {
            let m = HashMap::new();
            proof {
                assert(shards@.push(m).drop_last() =~= shards@);
            }
            shards.push(m);
            i = i + 1;
        }
        let s = ShardedStore { shards };
        assert forall|j: int| 0 <= j < NUM_SHARDS implies #[trigger] homed(s.shards@, j) by {
            assert(s.shards@[j]@ == Map::<Seq<u8>, String>::empty());
        }
        assert(s@ =~= Map::<Seq<char>, Seq<char>>::empty());
        s
    }

    /// The shard that holds `key`.
    fn get_shard_index(&self, key: &str) -> (i: usize)
        ensures
            i == shard_of(key@),
            i < NUM_SHARDS,
    {
        let h = std_hash(key);
        (#[verifier::truncate] (h as usize)) % NUM_SHARDS
    }

    /// Stores `value` under `key`.
    pub fn insert(&mut self, key: String, value: String)
        requires
            old(self).wf(),
            old(self).size() < usize::MAX / 4,
        ensures
            final(self).wf(),
            final(self)@ == old(self)@.insert(key@, value@),
            final(self).size() == old(self).size() + (if old(self)@.contains_key(key@) {
                0int
            } else {
                1int
            }),
    {
        let idx = self.get_shard_index(key.as_str());
        let ghost kv = key@;
        let ghost vv = value@;
        let ghost old_shards = self.shards@;
        proof {
            lemma_total_bound(self.shards@, idx as int);
            assert(self.shards@[idx as int].wf());
        }
        self.shards[idx].insert(key, value);
        proof {
            let new_shards = self.shards@;
            lemma_total_update(old_shards, idx as int, new_shards[idx as int]);
            assert(new_shards == old_shards.update(idx as int, new_shards[idx as int]));
            assert forall|i: int| 0 <= i < NUM_SHARDS implies (#[trigger] new_shards[i]).wf() by {
                if i != idx {
                    assert(old_shards[i].wf());
                }
            }
            assert forall|i: int| 0 <= i < NUM_SHARDS implies #[trigger] homed(new_shards, i) by {
                assert(homed(old_shards, i));
                if i == idx {
                    assert forall|kb: Seq<u8>| #[trigger] new_shards[i]@.contains_key(kb) implies exists|
                        s: Seq<char>,
                    | kb == str_key(s) && shard_of(s) == i by {
                        if kb == str_key(kv) {
                        } else {
                            assert(old_shards[i]@.contains_key(kb));
                        }
                    }
                }
            }
            assert forall|k: Seq<char>| k != kv implies str_key(k) != str_key(kv) by {
                lemma_str_key_injective(k, kv);
            }
            assert(self@ =~= old(self)@.insert(kv, vv));
            old_shards[idx as int].lemma_view_finite();
            vstd::set::axiom_set_insert_len(old_shards[idx as int]@.dom(), str_key(kv));
            assert(new_shards[idx as int]@.dom() =~= old_shards[idx as int]@.dom().insert(str_key(kv)));
        }
    }

    /// The value stored under `key`, if any.
    pub fn get(&self, key: &str) -> (r: Option<String>)
        requires
            self.wf(),
        ensures
            r is Some <==> self@.contains_key(key@),
            r matches Some(v) ==> v@ == self@[key@],
    {
        let idx = self.get_shard_index(key);
        let k = key.to_string();
        proof {
            assert(self.shards@[idx as int].wf());
        }
        match self.shards[idx].get(&k) {
            Some(v) => Some(v.clone()),
            None => None,
        }
    }

    /// Removes `key`, returning its value if the store held it.
    pub fn remove(&mut self, key: &str) -> (r: Option<String>)
        requires
            old(self).wf(),
        ensures
            final(self).wf(),
            final(self)@ == old(self)@.remove(key@),
            r is Some <==> old(self)@.contains_key(key@),
            r matches Some(v) ==> v@ == old(self)@[key@],
            final(self).size() == old(self).size() - (if r is Some {
                1int
            } else {
                0int
            }),
    {
        let idx = self.get_shard_index(key);
        let k = key.to_string();
        let ghost kv = key@;
        let ghost old_shards = self.shards@;
        proof {
            assert(self.shards@[idx as int].wf());
        }
        let r = self.shards[idx].remove(&k);
        proof {
            let new_shards = self.shards@;
            lemma_total_update(old_shards, idx as int, new_shards[idx as int]);
            assert(new_shards == old_shards.update(idx as int, new_shards[idx as int]));
            assert forall|i: int| 0 <= i < NUM_SHARDS implies (#[trigger] new_shards[i]).wf() by {
                if i != idx {
                    assert(old_shards[i].wf());
                }
            }
            assert forall|i: int| 0 <= i < NUM_SHARDS implies #[trigger] homed(new_shards, i) by {
                assert(homed(old_shards, i));
                if i == idx {
                    assert forall|kb: Seq<u8>| #[trigger] new_shards[i]@.contains_key(kb) implies exists|
                        s: Seq<char>,
                    | kb == str_key(s) && shard_of(s) == i by {
                        assert(old_shards[i]@.contains_key(kb));
                    }
                }
            }
            assert forall|k2: Seq<char>| k2 != kv implies str_key(k2) != str_key(kv) by {
                lemma_str_key_injective(k2, kv);
            }
            assert(self@ =~= old(self)@.remove(kv));
            old_shards[idx as int].lemma_view_finite();
            vstd::set::axiom_set_remove_len(old_shards[idx as int]@.dom(), str_key(kv));
            assert(new_shards[idx as int]@.dom() =~= old_shards[idx as int]@.dom().remove(str_key(kv)));
        }
        r
    }


    /// All keys, shard by shard, each shard's in its slot order.
    pub fn get_all_keys(&self) -> (r: Vec<String>)
        requires
            self.wf(),
        ensures
            r@.len() == self.key_order().len(),
            forall|t: int| 0 <= t < r@.len() ==> str_key((#[trigger] r@[t])@) == self.key_order()[t],
    {
        let mut all_keys: Vec<String> = Vec::new();
        let ghost shards = self.shards@;
        let mut i: usize = 0;
        while i < NUM_SHARDS
            invariant
                self.wf(),
                shards == self.shards@,
                i <= NUM_SHARDS,
                all_keys@.len() == keys_of(shards.take(i as int)).len(),
                forall|t: int|
                    0 <= t < all_keys@.len() ==> str_key((#[trigger] all_keys@[t])@) == keys_of(
                        shards.take(i as int),
                    )[t],
            decreases NUM_SHARDS - i,
        {
            proof {
                assert(shards[i as int].wf());
                assert(shards.take(i + 1).drop_last() =~= shards.take(i as int));
                assert(shards.take(i + 1).last() == shards[i as int]);
            }
            let entries = self.shards[i].iter();
            let ghost before = all_keys@;
            let n = entries.len();
            let mut t: usize = 0;
            while t < n
                invariant
                    n == entries@.len(),
                    t <= n,
                    entries@.len() == shards[i as int].key_order().len(),
                    forall|u: int|
                        0 <= u < entries@.len() ==> (#[trigger] entries@[u]).0.key_bytes()
                            == shards[i as int].key_order()[u],
                    all_keys@.len() == before.len() + t,
                    forall|u: int| 0 <= u < before.len() ==> #[trigger] all_keys@[u] == before[u],
                    forall|u: int|
                        0 <= u < t ==> str_key((#[trigger] all_keys@[before.len() + u])@)
                            == shards[i as int].key_order()[u],
                decreases n - t,
            {
                let k: &String = entries[t].0;
                all_keys.push(k.clone());
                t = t + 1;
            }
            proof {
                let ks = keys_of(shards.take(i + 1));
                assert(ks == keys_of(shards.take(i as int)) + shards[i as int].key_order());
                assert forall|u: int| 0 <= u < all_keys@.len() implies str_key(
                    (#[trigger] all_keys@[u])@,
                ) == ks[u] by {
                    if u >= before.len() {
                        assert(str_key(all_keys@[before.len() + (u - before.len())]@)
                            == shards[i as int].key_order()[u - before.len()]);
                    }
                }
            }
            i = i + 1;
        }
        proof {
            assert(shards.take(NUM_SHARDS as int) =~= shards);
        }
        all_keys
    }

    /// The key order lists every key of the store exactly once, and only keys of the store.
    pub proof fn lemma_key_order(&self)
        requires
            self.wf(),
        ensures
            self.key_order().no_duplicates(),
            forall|k: Seq<char>| self@.contains_key(k) ==> self.key_order().contains(str_key(k)),
            forall|t: int|
                0 <= t < self.key_order().len() ==> {
                    &&& self@.contains_key(key_str(#[trigger] self.key_order()[t]))
                    &&& str_key(key_str(self.key_order()[t])) == self.key_order()[t]
                },
    {
        let shards = self.shards@;
        lemma_keys_of(shards, NUM_SHARDS as int);
        assert(shards.take(NUM_SHARDS as int) =~= shards);
        assert forall|k: Seq<char>| self@.contains_key(k) implies self.key_order().contains(str_key(k)) by {
            let i = shard_of(k);
            assert(shards[i].wf());
            shards[i].lemma_key_order();
        }
        assert forall|t: int| 0 <= t < self.key_order().len() implies {
            &&& self@.contains_key(key_str(#[trigger] self.key_order()[t]))
            &&& str_key(key_str(self.key_order()[t])) == self.key_order()[t]
        } by {
            let kb = self.key_order()[t];
            assert(keys_of(shards.take(NUM_SHARDS as int)).contains(kb));
            let i = choose|i: int| 0 <= i < NUM_SHARDS && (#[trigger] shards[i])@.contains_key(kb);
            assert(homed(shards, i));
            let k = choose|s: Seq<char>| kb == str_key(s) && shard_of(s) == i;
            lemma_key_str(k);
            assert(self@.contains_key(k));
        }
    }


    /// `size` is the number of keys the store holds.
    pub proof fn law_size_counts_keys(&self)
        requires
            self.wf(),
        ensures
            self@.dom().finite(),
            self.size() == self@.len(),
    {
        self.lemma_key_order();
        let order = self.key_order();
        lemma_keys_len(self.shards@);
        order.unique_seq_to_set();
        let ks = order.to_set();
        let f = |kb: Seq<u8>| key_str(kb);
        assert(vstd::relations::injective_on(f, ks)) by {
            assert forall|a: Seq<u8>, b: Seq<u8>| ks.contains(a) && ks.contains(b) && #[trigger] f(a) == #[trigger] f(b) implies a == b by {
                let ta = choose|t: int| 0 <= t < order.len() && order[t] == a;
                let tb = choose|t: int| 0 <= t < order.len() && order[t] == b;
                assert(str_key(key_str(order[ta])) == order[ta]);
                assert(str_key(key_str(order[tb])) == order[tb]);
            }
        }
        assert(ks.map(f) =~= self@.dom()) by {
            assert forall|k: Seq<char>| #[trigger] self@.dom().contains(k) implies ks.map(f).contains(k) by {
                lemma_key_str(k);
                assert(ks.contains(str_key(k)));
            }
            assert forall|k: Seq<char>| #[trigger] ks.map(f).contains(k) implies self@.dom().contains(k) by {
                let kb = choose|kb: Seq<u8>| ks.contains(kb) && f(kb) == k;
                let t = choose|t: int| 0 <= t < order.len() && order[t] == kb;
                assert(self@.contains_key(key_str(order[t])));
            }
        }
        vstd::set_lib::lemma_map_size(ks, self@.dom(), f);
    }

    /// Whether `extra` more entries would still leave the store under
    /// `usize::MAX / 4` entries, the bound under which `insert` may be called.
    pub fn has_room_for(&self, extra: usize) -> (b: bool)
        requires
            self.wf(),
        ensures
            b == (self.size() + extra < usize::MAX / 4),
    {
        let mut sum: u128 = 0;
        let mut i: usize = 0;
        while i < NUM_SHARDS
            invariant
                self.wf(),
                i <= NUM_SHARDS,
                sum == total_len(self.shards@.take(i as int)),
                sum <= (i as int) * 0x1_0000_0000_0000_0000,
            decreases NUM_SHARDS - i,
        {
            proof {
                assert(self.shards@[i as int].wf());
                assert(self.shards@.take(i + 1).drop_last() =~= self.shards@.take(i as int));
                self.shards@[i as int].lemma_view_finite();
            }
            let l = self.shards[i].len();
            sum = sum + l as u128;
            i = i + 1;
        }
        assert(self.shards@.take(NUM_SHARDS as int) =~= self.shards@);
        sum + (extra as u128) < (usize::MAX / 4) as u128
    }

    /// Whether the store holds `key`.
    pub fn contains_key(&self, key: &str) -> (b: bool)
        requires
            self.wf(),
        ensures
            b == self@.contains_key(key@),
    {
        let idx = self.get_shard_index(key);
        let k = key.to_string();
        proof {
            assert(self.shards@[idx as int].wf());
        }
        self.shards[idx].contains_key(&k)
    }
}

} // verus!
