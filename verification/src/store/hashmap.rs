use vstd::prelude::*;
use crate::store::hashkey::{HashKey, key_hash};

verus! {

/// A slot of the table.
pub enum Slot<K, V> {
    Empty,
    Tombstone,
    Occupied { key: K, value: V, probe_dist: usize },
}

impl<K, V> Slot<K, V> {
    /// Whether the slot has never held an entry since the table was built.
    pub fn is_empty(&self) -> (b: bool)
        ensures
            b == (*self is Empty),
    {
        matches!(self, Slot::Empty)
    }

    /// Whether the slot held an entry that was removed.
    pub fn is_tombstone(&self) -> (b: bool)
        ensures
            b == (*self is Tombstone),
    {
        matches!(self, Slot::Tombstone)
    }

    /// The distance of the entry from its ideal slot; 0 for a free slot.
    pub fn probe_dist(&self) -> (d: usize)
        ensures
            d == (if *self is Occupied { self->probe_dist } else { 0 }),
    {
        match self {
            Slot::Occupied { probe_dist, .. } => *probe_dist,
            _ => 0,
        }
    }
}

/// 0 for an empty slot, 1 for a tombstone, 2 for an occupied slot.
pub open spec fn tag<K, V>(x: Slot<K, V>) -> int {
    match x {
        Slot::Empty => 0,
        Slot::Tombstone => 1,
        Slot::Occupied { .. } => 2,
    }
}

/// The number of slots of `s` whose tag is `t`.
pub open spec fn count_tag<K, V>(s: Seq<Slot<K, V>>, t: int) -> nat
    decreases s.len(),
{
    if s.len() == 0 {
        0
    } else {
        count_tag(s.drop_last(), t) + (if tag(s.last()) == t {
            1nat
        } else {
            0nat
        })
    }
}

pub proof fn lemma_count_update<K, V>(s: Seq<Slot<K, V>>, i: int, x: Slot<K, V>, t: int)
    requires
        0 <= i < s.len(),
    ensures
        count_tag(s.update(i, x), t) + (if tag(s[i]) == t {
            1int
        } else {
            0int
        }) == count_tag(s, t) + (if tag(x) == t {
            1int
        } else {
            0int
        }),
    decreases s.len(),
{
    if i == s.len() - 1 {
        assert(s.update(i, x).drop_last() =~= s.drop_last());
    } else {
        lemma_count_update(s.drop_last(), i, x, t);
        assert(s.update(i, x).drop_last() =~= s.drop_last().update(i, x));
    }
}

pub proof fn lemma_count_push<K, V>(s: Seq<Slot<K, V>>, x: Slot<K, V>, t: int)
    ensures
        count_tag(s.push(x), t) == count_tag(s, t) + (if tag(x) == t {
            1int
        } else {
            0int
        }),
{
    assert(s.push(x).drop_last() =~= s);
}

pub proof fn lemma_count_sum<K, V>(s: Seq<Slot<K, V>>)
    ensures
        count_tag(s, 0) + count_tag(s, 1) + count_tag(s, 2) == s.len(),
    decreases s.len(),
{
    if s.len() > 0 {
        lemma_count_sum(s.drop_last());
    }
}

pub proof fn lemma_count_exists<K, V>(s: Seq<Slot<K, V>>, t: int)
    requires
        count_tag(s, t) > 0,
    ensures
        exists|i: int| 0 <= i < s.len() && tag(#[trigger] s[i]) == t,
    decreases s.len(),
{
    if tag(s.last()) == t {
        assert(tag(s[s.len() - 1]) == t);
    } else {
        lemma_count_exists(s.drop_last(), t);
        let i = choose|i: int| 0 <= i < s.drop_last().len() && tag(#[trigger] s.drop_last()[i]) == t;
        assert(tag(s[i]) == t);
    }
}

/// The slot reached `j` steps after slot `h`, wrapping around a table of `cap` slots.
pub open spec fn wrap(h: int, j: int, cap: int) -> int {
    if h + j < cap {
        h + j
    } else {
        h + j - cap
    }
}

/// The number of steps from slot `a` forward to slot `b`.
pub open spec fn gap(a: int, b: int, cap: int) -> int {
    if a <= b {
        b - a
    } else {
        b + cap - a
    }
}

/// The ideal slot of a key with bytes `kb` in a table of `cap` slots.
pub open spec fn ideal_of(kb: Seq<u8>, cap: int) -> int {
    (key_hash(kb) as int) % cap
}

/// A lookup that started at slot `h` may pass slot `h + j`: it is not empty,
/// and an entry there is at least `j` slots away from its own ideal slot.
pub open spec fn step_ok<K, V>(s: Seq<Slot<K, V>>, h: int, j: int) -> bool {
    let x = s[wrap(h, j, s.len() as int)];
    !(x is Empty) && (x is Occupied ==> x->probe_dist >= j)
}

/// The entry at slot `i`, if any, records its distance from its ideal slot,
/// and every slot between its ideal slot and `i` may be passed.
pub open spec fn slot_ok<K: HashKey, V>(s: Seq<Slot<K, V>>, i: int) -> bool {
    s[i] is Occupied ==> {
        let h = ideal_of(s[i]->key.key_bytes(), s.len() as int);
        &&& s[i]->probe_dist < s.len()
        &&& wrap(h, s[i]->probe_dist as int, s.len() as int) == i
        &&& forall|j: int| 0 <= j < s[i]->probe_dist ==> #[trigger] step_ok(s, h, j)
    }
}

/// `idx` maps the bytes of each stored key to the slot that holds it.
pub open spec fn idx_ok<K: HashKey, V>(s: Seq<Slot<K, V>>, idx: Map<Seq<u8>, int>) -> bool {
    &&& forall|k: Seq<u8>| #[trigger]
        idx.contains_key(k) ==> {
            &&& 0 <= idx[k] < s.len()
            &&& s[idx[k]] is Occupied
            &&& s[idx[k]]->key.key_bytes() == k
        }
    &&& forall|i: int|
        0 <= i < s.len() && (#[trigger] s[i]) is Occupied ==> {
            &&& idx.contains_key(s[i]->key.key_bytes())
            &&& idx[s[i]->key.key_bytes()] == i
        }
}

/// The layout invariant of the table.
pub open spec fn table_ok<K: HashKey, V>(s: Seq<Slot<K, V>>, idx: Map<Seq<u8>, int>) -> bool {
    &&& s.len() > 0
    &&& forall|i: int| 0 <= i < s.len() ==> #[trigger] slot_ok(s, i)
    &&& idx_ok(s, idx)
}

/// The key-value map that a table holds.
pub open spec fn table_view<K, V>(s: Seq<Slot<K, V>>, idx: Map<Seq<u8>, int>) -> Map<
    Seq<u8>,
    V,
> {
    Map::new(|k: Seq<u8>| idx.contains_key(k), |k: Seq<u8>| s[idx[k]]->value)
}

/// A lookup passing slot `h + j` did not find the key `kb` there.
pub open spec fn passed<K: HashKey, V>(s: Seq<Slot<K, V>>, h: int, j: int, kb: Seq<u8>) -> bool {
    &&& step_ok(s, h, j)
    &&& !(s[wrap(h, j, s.len() as int)] is Occupied && s[wrap(
        h,
        j,
        s.len() as int,
    )]->key.key_bytes() == kb)
}

/// If a table has an empty slot, a run of passable slots from `h` is shorter than the table.
pub proof fn lemma_run_shorter<K, V>(s: Seq<Slot<K, V>>, h: int, n: int)
    requires
        0 <= h < s.len(),
        count_tag(s, 0) > 0,
        forall|j: int| 0 <= j < n ==> #[trigger] step_ok(s, h, j),
    ensures
        n < s.len(),
{
    lemma_count_exists(s, 0);
    let e = choose|i: int| 0 <= i < s.len() && tag(#[trigger] s[i]) == 0;
    let o = gap(h, e, s.len() as int);
    assert(wrap(h, o, s.len() as int) == e);
    if o < n {
        assert(step_ok(s, h, o));
    }
}

/// Changing one slot to one that dominates it keeps every passable slot passable.
pub open spec fn dominates<K, V>(n: Slot<K, V>, o: Slot<K, V>) -> bool {
    ||| o is Empty
    ||| n is Tombstone
    ||| (n is Occupied && o is Occupied && n->probe_dist >= o->probe_dist)
}

pub proof fn lemma_step_preserved<K, V>(
    s: Seq<Slot<K, V>>,
    p: int,
    x: Slot<K, V>,
    h: int,
    j: int,
)
    requires
        0 <= p < s.len(),
        0 <= h < s.len(),
        0 <= j < s.len(),
        dominates(x, s[p]),
        step_ok(s, h, j),
    ensures
        step_ok(s.update(p, x), h, j),
{
    let w = wrap(h, j, s.len() as int);
    if w != p {
        assert(s.update(p, x)[w] == s[w]);
    }
}

pub proof fn lemma_slot_ok_preserved<K: HashKey, V>(s: Seq<Slot<K, V>>, p: int, x: Slot<K, V>, i: int)
    requires
        0 <= p < s.len(),
        0 <= i < s.len(),
        i != p,
        dominates(x, s[p]),
        slot_ok(s, i),
    ensures
        slot_ok(s.update(p, x), i),
{
    let t = s.update(p, x);
    if s[i] is Occupied {
        let h = ideal_of(s[i]->key.key_bytes(), s.len() as int);
        lemma_ideal_bound(s[i]->key.key_bytes(), s.len() as int);
        assert forall|j: int| 0 <= j < t[i]->probe_dist implies #[trigger] step_ok(t, h, j) by {
            assert(step_ok(s, h, j));
            lemma_step_preserved(s, p, x, h, j);
        }
    }
}

pub proof fn lemma_ideal_bound(kb: Seq<u8>, cap: int)
    requires
        cap > 0,
    ensures
        0 <= ideal_of(kb, cap) < cap,
{
    vstd::arithmetic::div_mod::lemma_mod_bound(key_hash(kb) as int, cap);
}


/// Writing an entry into an empty slot at the end of its probe run keeps the layout invariant.
pub proof fn lemma_place_empty<K: HashKey, V>(
    s: Seq<Slot<K, V>>,
    idx: Map<Seq<u8>, int>,
    p: int,
    k: K,
    v: V,
    d: int,
)
    requires
        table_ok(s, idx),
        0 <= p < s.len(),
        s[p] is Empty,
        0 <= d < s.len(),
        d <= usize::MAX,
        p == wrap(ideal_of(k.key_bytes(), s.len() as int), d, s.len() as int),
        forall|j: int| 0 <= j < d ==> #[trigger] step_ok(s, ideal_of(k.key_bytes(), s.len() as int), j),
        !idx.contains_key(k.key_bytes()),
    ensures
        ({
            let t = s.update(p, Slot::Occupied { key: k, value: v, probe_dist: d as usize });
            let idx2 = idx.insert(k.key_bytes(), p);
            &&& table_ok(t, idx2)
            &&& table_view(t, idx2) == table_view(s, idx).insert(k.key_bytes(), v)
        }),
{
    let x = Slot::Occupied { key: k, value: v, probe_dist: d as usize };
    let t = s.update(p, x);
    let idx2 = idx.insert(k.key_bytes(), p);
    let h = ideal_of(k.key_bytes(), s.len() as int);
    lemma_ideal_bound(k.key_bytes(), s.len() as int);
    assert forall|i: int| 0 <= i < t.len() implies #[trigger] slot_ok(t, i) by {
        if i != p {
            assert(slot_ok(s, i));
            lemma_slot_ok_preserved(s, p, x, i);
        } else {
            assert forall|j: int| 0 <= j < d implies #[trigger] step_ok(t, h, j) by {
                lemma_step_preserved(s, p, x, h, j);
            }
        }
    }
    assert forall|kk: Seq<u8>| #[trigger] idx2.contains_key(kk) implies {
        &&& 0 <= idx2[kk] < t.len()
        &&& t[idx2[kk]] is Occupied
        &&& t[idx2[kk]]->key.key_bytes() == kk
    } by {
        if kk != k.key_bytes() {
            assert(idx.contains_key(kk));
        }
    }
    assert forall|i: int| 0 <= i < t.len() && (#[trigger] t[i]) is Occupied implies {
        &&& idx2.contains_key(t[i]->key.key_bytes())
        &&& idx2[t[i]->key.key_bytes()] == i
    } by {
        if i != p {
            assert(s[i] is Occupied);
        }
    }
    assert(table_view(t, idx2) =~= table_view(s, idx).insert(k.key_bytes(), v)) by {
        assert forall|kk: Seq<u8>| #[trigger] idx2.contains_key(kk) && kk != k.key_bytes() implies t[idx2[kk]]
            == s[idx[kk]] by {
            assert(idx.contains_key(kk));
        }
    }
}

/// Writing an entry over one that is closer to its ideal slot keeps the layout
/// invariant for all other entries, and the displaced entry may go on probing.
pub proof fn lemma_place_swap<K: HashKey, V>(
    s: Seq<Slot<K, V>>,
    idx: Map<Seq<u8>, int>,
    p: int,
    k: K,
    v: V,
    d: int,
)
    requires
        table_ok(s, idx),
        0 <= p < s.len(),
        s[p] is Occupied,
        s[p]->probe_dist < d,
        0 <= d < s.len(),
        d <= usize::MAX,
        p == wrap(ideal_of(k.key_bytes(), s.len() as int), d, s.len() as int),
        forall|j: int| 0 <= j < d ==> #[trigger] step_ok(s, ideal_of(k.key_bytes(), s.len() as int), j),
        !idx.contains_key(k.key_bytes()),
    ensures
        ({
            let t = s.update(p, Slot::Occupied { key: k, value: v, probe_dist: d as usize });
            let kb2 = s[p]->key.key_bytes();
            let h2 = ideal_of(kb2, s.len() as int);
            let idx2 = idx.remove(kb2).insert(k.key_bytes(), p);
            &&& forall|i: int| 0 <= i < t.len() ==> #[trigger] slot_ok(t, i)
            &&& idx_ok(t, idx2)
            &&& !idx2.contains_key(kb2)
            &&& idx2.dom().insert(kb2) == idx.dom().insert(k.key_bytes())
            &&& table_view(t, idx2).insert(kb2, s[p]->value) == table_view(s, idx).insert(
                k.key_bytes(),
                v,
            )
            &&& wrap(h2, s[p]->probe_dist as int, s.len() as int) == p
            &&& forall|j: int| 0 <= j <= s[p]->probe_dist ==> #[trigger] step_ok(t, h2, j)
        }),
{
    let x = Slot::Occupied { key: k, value: v, probe_dist: d as usize };
    let t = s.update(p, x);
    let kb = k.key_bytes();
    let kb2 = s[p]->key.key_bytes();
    let h2 = ideal_of(kb2, s.len() as int);
    let idx2 = idx.remove(kb2).insert(kb, p);
    let h = ideal_of(kb, s.len() as int);
    lemma_ideal_bound(kb, s.len() as int);
    lemma_ideal_bound(kb2, s.len() as int);
    assert(slot_ok(s, p));
    assert(idx.contains_key(kb2) && idx[kb2] == p);
    assert forall|i: int| 0 <= i < t.len() implies #[trigger] slot_ok(t, i) by {
        if i != p {
            assert(slot_ok(s, i));
            lemma_slot_ok_preserved(s, p, x, i);
        } else {
            assert forall|j: int| 0 <= j < d implies #[trigger] step_ok(t, h, j) by {
                lemma_step_preserved(s, p, x, h, j);
            }
        }
    }
    assert forall|kk: Seq<u8>| #[trigger] idx2.contains_key(kk) implies {
        &&& 0 <= idx2[kk] < t.len()
        &&& t[idx2[kk]] is Occupied
        &&& t[idx2[kk]]->key.key_bytes() == kk
    } by {
        if kk != kb {
            assert(idx.contains_key(kk));
            assert(idx[kk] != p);
        }
    }
    assert forall|i: int| 0 <= i < t.len() && (#[trigger] t[i]) is Occupied implies {
        &&& idx2.contains_key(t[i]->key.key_bytes())
        &&& idx2[t[i]->key.key_bytes()] == i
    } by {
        if i != p {
            assert(s[i] is Occupied);
            assert(idx[s[i]->key.key_bytes()] == i);
        }
    }
    assert(idx2.dom().insert(kb2) =~= idx.dom().insert(kb));
    assert(table_view(t, idx2).insert(kb2, s[p]->value) =~= table_view(s, idx).insert(kb, v)) by {
        assert forall|kk: Seq<u8>|
            #[trigger] idx2.contains_key(kk) && kk != kb implies t[idx2[kk]] == s[idx[kk]] by {
            assert(idx.contains_key(kk));
            assert(idx[kk] != p);
        }
    }
    assert forall|j: int| 0 <= j <= s[p]->probe_dist implies #[trigger] step_ok(t, h2, j) by {
        if j < s[p]->probe_dist {
            lemma_step_preserved(s, p, x, h2, j);
        }
    }
}

/// Writing a tombstone over an entry keeps the layout invariant for all other entries.
pub proof fn lemma_remove_slot<K: HashKey, V>(s: Seq<Slot<K, V>>, idx: Map<Seq<u8>, int>, p: int)
    requires
        table_ok(s, idx),
        0 <= p < s.len(),
        s[p] is Occupied,
    ensures
        ({
            let t = s.update(p, Slot::Tombstone);
            let idx2 = idx.remove(s[p]->key.key_bytes());
            &&& table_ok(t, idx2)
            &&& table_view(t, idx2) == table_view(s, idx).remove(s[p]->key.key_bytes())
        }),
{
    let x = Slot::<K, V>::Tombstone;
    let t = s.update(p, x);
    let kb = s[p]->key.key_bytes();
    let idx2 = idx.remove(kb);
    assert(idx.contains_key(kb) && idx[kb] == p);
    assert forall|i: int| 0 <= i < t.len() implies #[trigger] slot_ok(t, i) by {
        if i != p {
            assert(slot_ok(s, i));
            lemma_slot_ok_preserved(s, p, x, i);
        }
    }
    assert forall|kk: Seq<u8>| #[trigger] idx2.contains_key(kk) implies {
        &&& 0 <= idx2[kk] < t.len()
        &&& t[idx2[kk]] is Occupied
        &&& t[idx2[kk]]->key.key_bytes() == kk
    } by {
        assert(idx.contains_key(kk));
        assert(idx[kk] != p);
    }
    assert forall|i: int| 0 <= i < t.len() && (#[trigger] t[i]) is Occupied implies {
        &&& idx2.contains_key(t[i]->key.key_bytes())
        &&& idx2[t[i]->key.key_bytes()] == i
    } by {
        assert(s[i] is Occupied);
        assert(idx[s[i]->key.key_bytes()] == i);
    }
    assert(table_view(t, idx2) =~= table_view(s, idx).remove(kb)) by {
        assert forall|kk: Seq<u8>| #[trigger] idx2.contains_key(kk) implies t[idx2[kk]] == s[idx[kk]] by {
            assert(idx[kk] != p);
        }
    }
}

/// Replacing the value of an entry keeps the layout invariant.
pub proof fn lemma_set_value<K: HashKey, V>(s: Seq<Slot<K, V>>, idx: Map<Seq<u8>, int>, p: int, v: V)
    requires
        table_ok(s, idx),
        0 <= p < s.len(),
        s[p] is Occupied,
    ensures
        ({
            let t = s.update(
                p,
                Slot::Occupied { key: s[p]->key, value: v, probe_dist: s[p]->probe_dist },
            );
            &&& table_ok(t, idx)
            &&& table_view(t, idx) == table_view(s, idx).insert(s[p]->key.key_bytes(), v)
            &&& count_tag(t, 0) == count_tag(s, 0)
            &&& count_tag(t, 1) == count_tag(s, 1)
            &&& count_tag(t, 2) == count_tag(s, 2)
        }),
{
    let x = Slot::Occupied { key: s[p]->key, value: v, probe_dist: s[p]->probe_dist };
    let t = s.update(p, x);
    let kb = s[p]->key.key_bytes();
    let h = ideal_of(kb, s.len() as int);
    lemma_ideal_bound(kb, s.len() as int);
    assert(slot_ok(s, p));
    assert(idx.contains_key(kb) && idx[kb] == p);
    assert forall|i: int| 0 <= i < t.len() implies #[trigger] slot_ok(t, i) by {
        if i != p {
            assert(slot_ok(s, i));
            lemma_slot_ok_preserved(s, p, x, i);
        } else {
            assert forall|j: int| 0 <= j < t[p]->probe_dist implies #[trigger] step_ok(t, h, j) by {
                lemma_step_preserved(s, p, x, h, j);
            }
        }
    }
    assert forall|kk: Seq<u8>| #[trigger] idx.contains_key(kk) implies {
        &&& 0 <= idx[kk] < t.len()
        &&& t[idx[kk]] is Occupied
        &&& t[idx[kk]]->key.key_bytes() == kk
    } by {
    }
    assert forall|i: int| 0 <= i < t.len() && (#[trigger] t[i]) is Occupied implies {
        &&& idx.contains_key(t[i]->key.key_bytes())
        &&& idx[t[i]->key.key_bytes()] == i
    } by {
        assert(s[i] is Occupied);
    }
    assert(table_view(t, idx) =~= table_view(s, idx).insert(kb, v));
    lemma_count_update(s, p, x, 0);
    lemma_count_update(s, p, x, 1);
    lemma_count_update(s, p, x, 2);
}

/// The bytes of the stored keys, in slot order.
pub open spec fn slot_keys<K: HashKey, V>(s: Seq<Slot<K, V>>) -> Seq<Seq<u8>>
    decreases s.len(),
{
    if s.len() == 0 {
        Seq::empty()
    } else {
        slot_keys(s.drop_last()) + (if s.last() is Occupied {
            seq![s.last()->key.key_bytes()]
        } else {
            Seq::empty()
        })
    }
}

/// The keys of the first `n` slots are those of the entries held there, each once.
pub proof fn lemma_slot_keys<K: HashKey, V>(s: Seq<Slot<K, V>>, idx: Map<Seq<u8>, int>, n: int)
    requires
        idx_ok(s, idx),
        0 <= n <= s.len(),
    ensures
        forall|k: Seq<u8>|
            slot_keys(s.take(n)).contains(k) <==> (idx.contains_key(k) && idx[k] < n),
        slot_keys(s.take(n)).no_duplicates(),
    decreases n,
{
    if n > 0 {
        lemma_slot_keys(s, idx, n - 1);
        assert(s.take(n).drop_last() =~= s.take(n - 1));
        let prev = slot_keys(s.take(n - 1));
        let last = s[n - 1];
        if last is Occupied {
            let kb = last->key.key_bytes();
            assert(idx.contains_key(kb) && idx[kb] == n - 1);
            assert(slot_keys(s.take(n)) == prev + seq![kb]);
            assert forall|k: Seq<u8>|
                slot_keys(s.take(n)).contains(k) <==> (idx.contains_key(k) && idx[k] < n) by {
                if slot_keys(s.take(n)).contains(k) {
                    let t = choose|t: int| 0 <= t < slot_keys(s.take(n)).len() && slot_keys(s.take(n))[t] == k;
                    if t < prev.len() {
                        assert(prev.contains(k));
                    }
                }
                if idx.contains_key(k) && idx[k] < n {
                    if idx[k] == n - 1 {
                        assert(slot_keys(s.take(n))[prev.len() as int] == k);
                    } else {
                        assert(prev.contains(k));
                        let t = choose|t: int| 0 <= t < prev.len() && prev[t] == k;
                        assert(slot_keys(s.take(n))[t] == k);
                    }
                }
            }
            assert forall|i: int, j: int|
                0 <= i < slot_keys(s.take(n)).len() && 0 <= j < slot_keys(s.take(n)).len() && i != j
                implies slot_keys(s.take(n))[i] != slot_keys(s.take(n))[j] by {
                if i < prev.len() && j < prev.len() {
                    assert(prev[i] != prev[j]);
                } else if i < prev.len() {
                    assert(prev.contains(prev[i]));
                } else if j < prev.len() {
                    assert(prev.contains(prev[j]));
                }
            }
        } else {
            assert(slot_keys(s.take(n)) =~= prev);
            assert forall|k: Seq<u8>|
                slot_keys(s.take(n)).contains(k) <==> (idx.contains_key(k) && idx[k] < n) by {
                if idx.contains_key(k) && idx[k] == n - 1 {
                    assert(s[n - 1] is Occupied);
                }
            }
        }
    }
}

/// Whether `n` is a power of two.
pub open spec fn is_pow2(n: int) -> bool
    decreases n,
{
    if n <= 0 {
        false
    } else if n == 1 {
        true
    } else {
        n % 2 == 0 && is_pow2(n / 2)
    }
}

proof fn lemma_pow2_double(n: int)
    requires
        is_pow2(n),
    ensures
        is_pow2(2 * n),
{
    assert((2 * n) % 2 == 0);
    assert((2 * n) / 2 == n);
}

/// An open-addressing hash table with Robin Hood probing and tombstone deletion.
pub struct HashMap<K, V> {
    slots: Vec<Slot<K, V>>,
    len: usize,
    capacity: usize,
    tombstones: usize,
    idx: Ghost<Map<Seq<u8>, int>>,
}

impl<K, V> View for HashMap<K, V> {
    type V = Map<Seq<u8>, V>;

    /// The map from key bytes to values that the table holds.
    closed spec fn view(&self) -> Map<Seq<u8>, V> {
        table_view(self.slots@, self.idx@)
    }
}

impl<K: HashKey, V> HashMap<K, V> {
    /// The well-formedness invariant of the table.
    pub closed spec fn wf(&self) -> bool {
        &&& table_ok(self.slots@, self.idx@)
        &&& self.slots@.len() == self.capacity
        &&& self.capacity >= 16
        &&& is_pow2(self.capacity as int)
        &&& self.len == count_tag(self.slots@, 2)
        &&& self.tombstones == count_tag(self.slots@, 1)
        &&& self.idx@.dom().finite()
        &&& self.idx@.dom().len() == self.len
        &&& 4 * (self.len + self.tombstones) <= 3 * self.capacity
    }

    /// The number of slots of the table.
    pub closed spec fn cap(&self) -> nat {
        self.capacity as nat
    }

    /// The bytes of the stored keys, in the order of the slots that hold them.
    pub closed spec fn key_order(&self) -> Seq<Seq<u8>> {
        slot_keys(self.slots@)
    }

    /// The stored key whose bytes are `k` (meaningful for stored keys).
    pub closed spec fn key_at(&self, k: Seq<u8>) -> K {
        self.slots@[self.idx@[k]]->key
    }

    /// Every stored key bytes are the bytes of a stored key.
    pub proof fn lemma_key_at(&self, k: Seq<u8>)
        requires
            self.wf(),
            self@.contains_key(k),
        ensures
            self.key_at(k).key_bytes() == k,
    {
        self.lemma_view_dom();
    }

    /// No more than three quarters of the slots ever hold an entry, and the
    /// number of slots is a power of two, at least 16.
    pub proof fn law_load_factor(&self)
        requires
            self.wf(),
        ensures
            4 * self@.len() <= 3 * self.cap(),
            self.cap() >= 16,
            is_pow2(self.cap() as int),
    {
        self.lemma_view_dom();
    }

    /// The table holds finitely many entries.
    pub proof fn lemma_view_finite(&self)
        requires
            self.wf(),
        ensures
            self@.dom().finite(),
    {
        self.lemma_view_dom();
    }

    /// The key order lists every stored key exactly once.
    pub proof fn lemma_key_order(&self)
        requires
            self.wf(),
        ensures
            self.key_order().no_duplicates(),
            forall|k: Seq<u8>| self.key_order().contains(k) <==> self@.contains_key(k),
            self.key_order().len() == self@.len(),
    {
        lemma_slot_keys(self.slots@, self.idx@, self.slots@.len() as int);
        assert(self.slots@.take(self.slots@.len() as int) =~= self.slots@);
        self.lemma_view_dom();
        let ks = self.key_order();
        assert(ks.to_set() =~= self@.dom());
        ks.unique_seq_to_set();
    }

    proof fn lemma_view_dom(&self)
        ensures
            self@.dom() == self.idx@.dom(),
    {
        assert(self@.dom() =~= self.idx@.dom());
    }

    /// A lookup that passed `dist` slots from the ideal slot `h` and then met an
/// empty slot, or an entry closer to its own ideal slot, shows the key is absent.
proof fn lemma_absent(s: Seq<Slot<K, V>>, idx: Map<Seq<u8>, int>, kb: Seq<u8>, h: int, dist: int)
        requires
            table_ok(s, idx),
            h == ideal_of(kb, s.len() as int),
            0 <= dist < s.len(),
            forall|j: int| 0 <= j < dist ==> #[trigger] passed(s, h, j, kb),
            ({
                let x = s[wrap(h, dist, s.len() as int)];
                x is Empty || (x is Occupied && x->key.key_bytes() != kb && x->probe_dist < dist)
            }),
        ensures
            !idx.contains_key(kb),
    {
        if idx.contains_key(kb) {
            let i = idx[kb];
            assert(slot_ok(s, i));
            let d = s[i]->probe_dist as int;
            if d < dist {
                assert(passed(s, h, d, kb));
            } else if d > dist {
                assert(step_ok(s, h, dist));
            }
        }
    }

    /// A table with 16 slots and no entries.
    pub fn new() -> (m: Self)
        ensures
            m.wf(),
            m@ == Map::<Seq<u8>, V>::empty(),
            m.cap() == 16,
    {
        let m = Self::with_capacity(16);
        assert(m.cap() == 16) by {
            reveal_with_fuel(is_pow2, 5);
        }
        m
    }

    /// An empty table whose number of slots is the least power of two that is
    /// at least `capacity` and at least 16.
    pub fn with_capacity(capacity: usize) -> (m: Self)
        requires
            capacity <= usize::MAX / 2 + 1,
        ensures
            m.wf(),
            m@ == Map::<Seq<u8>, V>::empty(),
            is_pow2(m.cap() as int),
            m.cap() >= 16,
            m.cap() >= capacity,
            m.cap() < 2 * (if capacity < 16 {
                16
            } else {
                capacity
            }),
    {
        let want: usize = if capacity < 16 {
            16
        } else {
            capacity
        };
        let mut cap: usize = 16;
        assert(is_pow2(16)) by {
            reveal_with_fuel(is_pow2, 5);
        }
        while cap < want
            invariant
                16 <= cap,
                is_pow2(cap as int),
                cap < 2 * want,
                want <= usize::MAX / 2 + 1,
            decreases 2 * want - cap,
        {
            proof {
                lemma_pow2_double(cap as int);
            }
            cap = cap * 2;
        }
        let slots = Self::empty_slots(cap);
        let m = HashMap { slots, len: 0, capacity: cap, tombstones: 0, idx: Ghost(Map::empty()) };
        assert(m@ =~= Map::<Seq<u8>, V>::empty());
        m
    }

    /// The number of entries.
    pub fn len(&self) -> (n: usize)
        requires
            self.wf(),
        ensures
            n == self@.len(),
    {
        proof {
            self.lemma_view_dom();
        }
        self.len
    }

    /// Whether the table holds no entry.
    pub fn is_empty(&self) -> (b: bool)
        requires
            self.wf(),
        ensures
            b == (self@.len() == 0),
    {
        proof {
            self.lemma_view_dom();
        }
        self.len == 0
    }

    /// The number of slots.
    pub fn capacity(&self) -> (c: usize)
        ensures
            c == self.cap(),
    {
        self.capacity
    }

    /// The ideal slot of `key`.
    fn ideal(&self, key: &K) -> (i: usize)
        requires
            self.wf(),
        ensures
            i == ideal_of(key.key_bytes(), self.capacity as int),
            i < self.capacity,
    {
        proof {
            lemma_ideal_bound(key.key_bytes(), self.capacity as int);
        }
        (key.hash_key() % (self.capacity as u64)) as usize
    }

    /// The slot holding `key`, if the table holds it.
    fn find_slot(&self, key: &K) -> (r: Option<usize>)
        requires
            self.wf(),
        ensures
            r matches Some(i) ==> self.idx@.contains_key(key.key_bytes()) && self.idx@[key.key_bytes()] == i,
            r is None ==> !self.idx@.contains_key(key.key_bytes()),
    {
        let ghost s = self.slots@;
        let ghost kb = key.key_bytes();
        let cap = self.capacity;
        let h = self.ideal(key);
        let mut indx = h;
        let mut dist: usize = 0;
        proof {
            lemma_count_sum(s);
        }
        loop
            invariant
                table_ok(s, self.idx@),
                s == self.slots@,
                kb == key.key_bytes(),
                cap == s.len(),
                h == ideal_of(kb, cap as int),
                h < cap,
                dist < cap,
                indx == wrap(h as int, dist as int, cap as int),
                count_tag(s, 0) > 0,
                forall|j: int| 0 <= j < dist ==> #[trigger] passed(s, h as int, j, kb),
            decreases cap - dist,
        {
            match &self.slots[indx] {
                Slot::Empty => {
                    proof {
                        Self::lemma_absent(s, self.idx@, kb, h as int, dist as int);
                    }
                    return None;
                },
                Slot::Tombstone => {},
                Slot::Occupied { key: k, probe_dist, .. } => {
                    if k.same_key(key) {
                        return Some(indx);
                    }
                    if dist > *probe_dist {
                        proof {
                            Self::lemma_absent(s, self.idx@, kb, h as int, dist as int);
                        }
                        return None;
                    }
                },
            }
            proof {
                assert(passed(s, h as int, dist as int, kb));
                assert forall|j: int| 0 <= j < dist + 1 implies #[trigger] step_ok(s, h as int, j) by {
                    assert(passed(s, h as int, j, kb));
                }
                lemma_run_shorter(s, h as int, dist + 1);
            }
            indx = if indx + 1 == cap {
                0
            } else {
                indx + 1
            };
            dist = dist + 1;
        }
    }


    /// Places an entry for a key the table does not hold: probing from the key's
    /// ideal slot, an entry closer to its own ideal slot gives way to the one
    /// being placed and is placed further on (Robin Hood); tombstones are passed.
    fn place_new(&mut self, key: K, value: V)
        requires
            table_ok(old(self).slots@, old(self).idx@),
            old(self).slots@.len() == old(self).capacity,
            count_tag(old(self).slots@, 0) > 0,
            !old(self).idx@.contains_key(key.key_bytes()),
        ensures
            table_ok(final(self).slots@, final(self).idx@),
            final(self).slots@.len() == old(self).slots@.len(),
            final(self).capacity == old(self).capacity,
            final(self).len == old(self).len,
            final(self).tombstones == old(self).tombstones,
            count_tag(final(self).slots@, 0) + 1 == count_tag(old(self).slots@, 0),
            count_tag(final(self).slots@, 1) == count_tag(old(self).slots@, 1),
            count_tag(final(self).slots@, 2) == count_tag(old(self).slots@, 2) + 1,
            final(self).idx@.dom() == old(self).idx@.dom().insert(key.key_bytes()),
            table_view(final(self).slots@, final(self).idx@) == table_view(
                old(self).slots@,
                old(self).idx@,
            ).insert(key.key_bytes(), value),
    {
        let ghost s0 = self.slots@;
        let ghost target = table_view(self.slots@, self.idx@).insert(key.key_bytes(), value);
        let ghost tdom = self.idx@.dom().insert(key.key_bytes());
        let cap = self.capacity;
        proof {
            lemma_count_exists(s0, 0);
            lemma_ideal_bound(key.key_bytes(), cap as int);
        }
        let ghost e = choose|i: int| 0 <= i < s0.len() && tag(#[trigger] s0[i]) == 0;
        let mut indx = (key.hash_key() % (cap as u64)) as usize;
        let mut ck = key;
        let mut cv = value;
        let mut cd: usize = 0;
        loop
            invariant
                self.slots@.len() == cap,
                self.capacity == cap,
                cap == old(self).capacity,
                s0 == old(self).slots@,
                s0.len() == cap,
                count_tag(s0, 0) > 0,
                target == table_view(old(self).slots@, old(self).idx@).insert(key.key_bytes(), value),
                tdom == old(self).idx@.dom().insert(key.key_bytes()),
                self.len == old(self).len,
                self.tombstones == old(self).tombstones,
                0 <= e < cap,
                self.slots@[e] is Empty,
                cd < cap,
                indx == wrap(ideal_of(ck.key_bytes(), cap as int), cd as int, cap as int),
                table_ok(self.slots@, self.idx@),
                !self.idx@.contains_key(ck.key_bytes()),
                self.idx@.dom().insert(ck.key_bytes()) == tdom,
                table_view(self.slots@, self.idx@).insert(ck.key_bytes(), cv) == target,
                forall|j: int|
                    0 <= j < cd ==> #[trigger] step_ok(
                        self.slots@,
                        ideal_of(ck.key_bytes(), cap as int),
                        j,
                    ),
                count_tag(self.slots@, 0) == count_tag(s0, 0),
                count_tag(self.slots@, 1) == count_tag(s0, 1),
                count_tag(self.slots@, 2) == count_tag(s0, 2),
            decreases gap(indx as int, e, cap as int),
        {
            proof {
                lemma_ideal_bound(ck.key_bytes(), cap as int);
            }
            if self.slots[indx].is_empty() {
                proof {
                    lemma_place_empty(self.slots@, self.idx@, indx as int, ck, cv, cd as int);
                    let x = Slot::Occupied { key: ck, value: cv, probe_dist: cd };
                    lemma_count_update(self.slots@, indx as int, x, 0);
                    lemma_count_update(self.slots@, indx as int, x, 1);
                    lemma_count_update(self.slots@, indx as int, x, 2);
                }
                let ghost kb = ck.key_bytes();
                self.slots.set(indx, Slot::Occupied { key: ck, value: cv, probe_dist: cd });
                self.idx = Ghost(self.idx@.insert(kb, indx as int));
                return ;
            } else if self.slots[indx].is_tombstone() {
                proof {
                    assert(step_ok(self.slots@, ideal_of(ck.key_bytes(), cap as int), cd as int));
                }
            } else {
                let d = self.slots[indx].probe_dist();
                if cd > d {
                    let ghost s1 = self.slots@;
                    let ghost idx1 = self.idx@;
                    let ghost kb = ck.key_bytes();
                    proof {
                        lemma_place_swap(s1, idx1, indx as int, ck, cv, cd as int);
                        let x = Slot::Occupied { key: ck, value: cv, probe_dist: cd };
                        lemma_count_update(s1, indx as int, x, 0);
                        lemma_count_update(s1, indx as int, x, 1);
                        lemma_count_update(s1, indx as int, x, 2);
                    }
                    let mut tmp = Slot::Occupied { key: ck, value: cv, probe_dist: cd };
                    std::mem::swap(&mut self.slots[indx], &mut tmp);
                    match tmp {
                        Slot::Occupied { key: k2, value: v2, probe_dist: d2 } => {
                            self.idx = Ghost(idx1.remove(k2.key_bytes()).insert(kb, indx as int));
                            ck = k2;
                            cv = v2;
                            cd = d2;
                        },
                        _ => {
                            proof {
                                assert(false);
                            }
                            return ;
                        },
                    }
                } else {
                    proof {
                        assert(step_ok(self.slots@, ideal_of(ck.key_bytes(), cap as int), cd as int));
                    }
                }
            }
            proof {
                assert(forall|j: int|
                    0 <= j < cd + 1 ==> #[trigger] step_ok(
                        self.slots@,
                        ideal_of(ck.key_bytes(), cap as int),
                        j,
                    ));
                lemma_run_shorter(self.slots@, ideal_of(ck.key_bytes(), cap as int), cd + 1);
            }
            indx = if indx + 1 == cap {
                0
            } else {
                indx + 1
            };
            cd = cd + 1;
        }
    }


    /// A vector of `n` empty slots.
    fn empty_slots(n: usize) -> (v: Vec<Slot<K, V>>)
        ensures
            v@.len() == n,
            forall|j: int| 0 <= j < n ==> (#[trigger] v@[j]) is Empty,
            count_tag(v@, 0) == n,
            count_tag(v@, 1) == 0,
            count_tag(v@, 2) == 0,
    {
        let mut slots: Vec<Slot<K, V>> = Vec::new();
        let mut i: usize = 0;
        while i < n
            invariant
                i <= n,
                slots@.len() == i,
                forall|j: int| 0 <= j < i ==> (#[trigger] slots@[j]) is Empty,
                count_tag(slots@, 0) == i,
                count_tag(slots@, 1) == 0,
                count_tag(slots@, 2) == 0,
            decreases n - i,
        {
            proof {
                lemma_count_push(slots@, Slot::<K, V>::Empty, 0);
                lemma_count_push(slots@, Slot::<K, V>::Empty, 1);
                lemma_count_push(slots@, Slot::<K, V>::Empty, 2);
            }
            slots.push(Slot::Empty);
            i = i + 1;
        }
        slots
    }

    /// Moves every entry into a fresh table of `new_cap` slots, in slot order,
    /// which drops all tombstones.
    fn rebuild(&mut self, new_cap: usize)
        requires
            old(self).wf(),
            new_cap >= old(self).capacity,
            is_pow2(new_cap as int),
            4 * (old(self).len + 1) <= 3 * new_cap,
        ensures
            final(self).wf(),
            final(self)@ == old(self)@,
            final(self).capacity == new_cap,
            final(self).len == old(self).len,
            final(self).tombstones == 0,
    {
        let ghost old_s = self.slots@;
        let ghost old_idx = self.idx@;
        let ghost old_view = table_view(old_s, old_idx);
        let ghost old_len = self.len;
        let mut fresh = Self::empty_slots(new_cap);
        std::mem::swap(&mut self.slots, &mut fresh);
        self.capacity = new_cap;
        self.len = 0;
        self.tombstones = 0;
        self.idx = Ghost(Map::empty());
        let n = fresh.len();
        let mut i: usize = 0;
        assert(self.idx@.dom() =~= Set::<Seq<u8>>::empty());
        assert(table_view(self.slots@, self.idx@) =~= old_view.restrict(
            Set::new(|k: Seq<u8>| old_idx.contains_key(k) && old_idx[k] < 0),
        ));
        while i < n
            invariant
                n == old_s.len(),
                fresh@.len() == n,
                i <= n,
                forall|j: int| i <= j < n ==> #[trigger] fresh@[j] == old_s[j],
                table_ok(old_s, old_idx),
                old_idx.dom().finite(),
                old_idx.dom().len() == old_len,
                old_view == table_view(old_s, old_idx),
                4 * (old_len + 1) <= 3 * new_cap,
                table_ok(self.slots@, self.idx@),
                self.slots@.len() == new_cap,
                self.capacity == new_cap,
                new_cap >= 16,
                is_pow2(new_cap as int),
                self.tombstones == 0,
                count_tag(self.slots@, 1) == 0,
                count_tag(self.slots@, 2) == self.len,
                count_tag(self.slots@, 0) + self.len == new_cap,
                self.idx@.dom().finite(),
                self.idx@.dom().len() == self.len,
                self.idx@.dom() == Set::new(
                    |k: Seq<u8>| old_idx.contains_key(k) && old_idx[k] < i,
                ),
                table_view(self.slots@, self.idx@) == old_view.restrict(
                    Set::new(|k: Seq<u8>| old_idx.contains_key(k) && old_idx[k] < i),
                ),
            decreases n - i,
        {
            let ghost cur = Set::new(|k: Seq<u8>| old_idx.contains_key(k) && old_idx[k] < i);
            let ghost next = Set::new(|k: Seq<u8>| old_idx.contains_key(k) && old_idx[k] < i + 1);
            proof {
                vstd::set_lib::lemma_len_subset(self.idx@.dom(), old_idx.dom());
                lemma_count_sum(self.slots@);
            }
            let mut tmp = Slot::Empty;
            std::mem::swap(&mut fresh[i], &mut tmp);
            match tmp {
                Slot::Occupied { key, value, .. } => {
                    let ghost kb = key.key_bytes();
                    proof {
                        assert(old_s[i as int] is Occupied);
                        assert(old_idx[kb] == i);
                        assert(next =~= cur.insert(kb));
                    }
                    self.place_new(key, value);
                    self.len = self.len + 1;
                    proof {
                        assert(table_view(self.slots@, self.idx@) =~= old_view.restrict(next));
                    }
                },
                _ => {
                    proof {
                        assert forall|k: Seq<u8>| old_idx.contains_key(k) implies old_idx[k] != i by {
                            if old_idx[k] == i {
                                assert(old_s[i as int] is Occupied);
                            }
                        }
                        assert(next =~= cur);
                    }
                },
            }
            i = i + 1;
        }
        proof {
            assert(Set::new(|k: Seq<u8>| old_idx.contains_key(k) && old_idx[k] < n) =~= old_idx.dom());
            assert(old_view.restrict(old_idx.dom()) =~= old_view);
            assert(self@ =~= old_view);
        }
    }

    /// Stores `value` under `key`, returning the value stored before, if any.
    /// When one more entry would fill more than three quarters of the slots,
    /// the table first doubles its slots; when entries and tombstones together
    /// would, it is first rebuilt at the same size.
    pub fn insert(&mut self, key: K, value: V) -> (r: Option<V>)
        requires
            old(self).wf(),
            old(self)@.len() < usize::MAX / 4,
        ensures
            final(self).wf(),
            final(self)@ == old(self)@.insert(key.key_bytes(), value),
            r == (if old(self)@.contains_key(key.key_bytes()) {
                Some(old(self)@[key.key_bytes()])
            } else {
                None
            }),
            final(self).cap() == (if 4 * (old(self)@.len() + 1) > 3 * old(self).cap() {
                2 * old(self).cap()
            } else {
                old(self).cap()
            }),
    {
        proof {
            self.lemma_view_dom();
        }
        let ghost kb = key.key_bytes();
        let ghost v0 = self@;
        if (self.len as u128 + 1) * 4 > (self.capacity as u128) * 3 {
            proof {
                lemma_pow2_double(self.capacity as int);
            }
            self.rebuild(self.capacity * 2);
        } else if ((self.len + self.tombstones) as u128 + 1) * 4 > (self.capacity as u128) * 3 {
            self.rebuild(self.capacity);
        }
        proof {
            lemma_count_sum(self.slots@);
            self.lemma_view_dom();
        }
        match self.find_slot(&key) {
            Some(i) => {
                let ghost s1 = self.slots@;
                proof {
                    lemma_set_value(s1, self.idx@, i as int, value);
                }
                let mut v = value;
                match &mut self.slots[i] {
                    Slot::Occupied { value: sv, .. } => {
                        std::mem::swap(sv, &mut v);
                    },
                    _ => {},
                }
                proof {
                    self.lemma_view_dom();
                }
                Some(v)
            },
            None => {
                self.place_new(key, value);
                self.len = self.len + 1;
                proof {
                    vstd::set::axiom_set_insert_len(self.idx@.dom().remove(kb), kb);
                    assert(self.idx@.dom().remove(kb).insert(kb) =~= self.idx@.dom());
                    self.lemma_view_dom();
                }
                None
            },
        }
    }

    /// Removes `key`, returning its value if the table held it. The slot becomes
    /// a tombstone, so that lookups of other keys still pass it.
    pub fn remove(&mut self, key: &K) -> (r: Option<V>)
        requires
            old(self).wf(),
        ensures
            final(self).wf(),
            final(self)@ == old(self)@.remove(key.key_bytes()),
            r == (if old(self)@.contains_key(key.key_bytes()) {
                Some(old(self)@[key.key_bytes()])
            } else {
                None
            }),
            final(self).cap() == old(self).cap(),
    {
        proof {
            self.lemma_view_dom();
        }
        let ghost kb = key.key_bytes();
        match self.find_slot(key) {
            None => None,
            Some(i) => {
                proof {
                    lemma_remove_slot(self.slots@, self.idx@, i as int);
                    lemma_count_update(self.slots@, i as int, Slot::<K, V>::Tombstone, 0);
                    lemma_count_update(self.slots@, i as int, Slot::<K, V>::Tombstone, 1);
                    lemma_count_update(self.slots@, i as int, Slot::<K, V>::Tombstone, 2);
                    vstd::set::axiom_set_remove_len(self.idx@.dom(), kb);
                }
                let mut tmp = Slot::Tombstone;
                std::mem::swap(&mut self.slots[i], &mut tmp);
                self.idx = Ghost(self.idx@.remove(kb));
                self.len = self.len - 1;
                self.tombstones = self.tombstones + 1;
                proof {
                    self.lemma_view_dom();
                }
                match tmp {
                    Slot::Occupied { value, .. } => Some(value),
                    _ => None,
                }
            },
        }
    }

    /// The value stored for `key`, if any.
    pub fn get(&self, key: &K) -> (r: Option<&V>)
        requires
            self.wf(),
        ensures
            r == (if self@.contains_key(key.key_bytes()) {
                Some(&self@[key.key_bytes()])
            } else {
                None
            }),
    {
        proof {
            self.lemma_view_dom();
        }
        match self.find_slot(key) {
            None => None,
            Some(indx) => match &self.slots[indx] {
                Slot::Occupied { value, .. } => Some(value),
                _ => None,
            },
        }
    }


    /// A mutable reference to the value stored for `key`, if any.
    pub fn get_mut(&mut self, key: &K) -> (r: Option<&mut V>)
        requires
            old(self).wf(),
        ensures
            r is Some <==> old(self)@.contains_key(key.key_bytes()),
            r matches Some(v) ==> {
                &&& *v == old(self)@[key.key_bytes()]
                &&& final(self).wf()
                &&& final(self)@ == old(self)@.insert(key.key_bytes(), *final(v))
                &&& final(self).cap() == old(self).cap()
            },
            r is None ==> *final(self) == *old(self),
    {
        proof {
            self.lemma_view_dom();
        }
        match self.find_slot(key) {
            None => None,
            Some(i) => {
                let ghost s1 = self.slots@;
                let ghost idx1 = self.idx@;
                match &mut self.slots[i] {
                    Slot::Occupied { value, .. } => {
                        proof {
                            lemma_set_value(s1, idx1, i as int, *final(value));
                        }
                        Some(value)
                    },
                    _ => None,
                }
            },
        }
    }


    /// All entries, in slot order.
    pub fn iter(&self) -> (r: Vec<(&K, &V)>)
        requires
            self.wf(),
        ensures
            r@.len() == self.key_order().len(),
            forall|t: int|
                0 <= t < r@.len() ==> {
                    &&& (#[trigger] r@[t]).0.key_bytes() == self.key_order()[t]
                    &&& *r@[t].1 == self@[self.key_order()[t]]
                },
    {
        let ghost s = self.slots@;
        let ghost idx = self.idx@;
        let mut r: Vec<(&K, &V)> = Vec::new();
        let n = self.slots.len();
        let mut i: usize = 0;
        while i < n
            invariant
                self.wf(),
                s == self.slots@,
                idx == self.idx@,
                n == s.len(),
                i <= n,
                r@.len() == slot_keys(s.take(i as int)).len(),
                forall|t: int|
                    0 <= t < r@.len() ==> {
                        &&& (#[trigger] r@[t]).0.key_bytes() == slot_keys(s.take(i as int))[t]
                        &&& idx.contains_key(r@[t].0.key_bytes())
                        &&& *r@[t].1 == s[idx[r@[t].0.key_bytes()]]->value
                    },
            decreases n - i,
        {
            proof {
                assert(s.take(i + 1).drop_last() =~= s.take(i as int));
            }
            match &self.slots[i] {
                Slot::Occupied { key, value, .. } => {
                    r.push((key, value));
                    proof {
                        assert(idx[s[i as int]->key.key_bytes()] == i);
                    }
                },
                _ => {},
            }
            i = i + 1;
        }
        proof {
            assert(s.take(n as int) =~= s);
            self.lemma_view_dom();
        }
        r
    }

    /// Whether the table holds `key`.
    pub fn contains_key(&self, key: &K) -> (b: bool)
        requires
            self.wf(),
        ensures
            b == self@.contains_key(key.key_bytes()),
    {
        proof {
            self.lemma_view_dom();
        }
        self.find_slot(key).is_some()
    }
}

} // verus!
