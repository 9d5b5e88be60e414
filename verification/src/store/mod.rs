pub mod hashkey;
pub mod hashmap;
pub mod sharded;
pub mod allocator;

use vstd::prelude::*;
use crate::store::hashmap::HashMap;
use crate::store::allocator::{slabAllocator, AllocStats};
use crate::store::hashkey::{str_key, key_str, lemma_key_str, lemma_str_key_injective};

verus! {

broadcast use vstd::string::to_string_from_display_ensures_for_str;

/// A store of string values kept in the cells of a slab allocator, indexed by
/// a hash table from keys to cell handles.
pub struct KvStore {
    map: HashMap<String, usize>,
    allocator: slabAllocator<String, 1024>,
}

impl View for KvStore {
    type V = Map<Seq<char>, Seq<char>>;

    /// The map from keys to values that the store holds.
    closed spec fn view(&self) -> Map<Seq<char>, Seq<char>> {
        Map::new(
            |k: Seq<char>| self.map@.contains_key(str_key(k)),
            |k: Seq<char>| self.allocator.cell(self.map@[str_key(k)] as int)->0@,
        )
    }
}

impl KvStore {
    /// The well-formedness invariant: every key has a cell of its own holding
    /// its value, and the allocator hands out exactly one cell per key.
    pub closed spec fn wf(&self) -> bool {
        &&& self.map.wf()
        &&& self.allocator.wf()
        &&& self.allocator.used() == self.map@.len()
        &&& forall|kb: Seq<u8>| #[trigger]
            self.map@.contains_key(kb) ==> {
                &&& self.allocator.live(self.map@[kb] as int)
                &&& self.allocator.cell(self.map@[kb] as int) is Some
            }
        &&& forall|a: Seq<u8>, b: Seq<u8>|
            #![trigger self.map@[a], self.map@[b]]
            self.map@.contains_key(a) && self.map@.contains_key(b) && a != b ==> self.map@[a]
                != self.map@[b]
    }

    /// The number of entries.
    pub closed spec fn len(&self) -> nat {
        self.map@.len()
    }

    /// The number of slabs the allocator holds.
    pub closed spec fn slab_count(&self) -> nat {
        self.allocator.slab_count()
    }

    proof fn lemma_len(&self)
        requires
            self.wf(),
        ensures
            self@.len() == self.len(),
            self@.dom().finite(),
    {
        self.map.lemma_view_finite();
        let ks = self.map@.dom();
        let f = |kb: Seq<u8>| key_str(kb);
        assert forall|kb: Seq<u8>| ks.contains(kb) implies str_key(key_str(kb)) == kb by {
            self.map.lemma_key_at(kb);
            lemma_key_str(self.map.key_at(kb)@);
        }
        assert(vstd::relations::injective_on(f, ks));
        assert(ks.map(f) =~= self@.dom()) by {
            assert forall|k: Seq<char>| self@.dom().contains(k) implies ks.map(f).contains(k) by {
                lemma_key_str(k);
                assert(ks.contains(str_key(k)));
            }
        }
        vstd::set_lib::lemma_map_size(ks, self@.dom(), f);
    }

    /// An empty store.
    pub fn new() -> (s: Self)
        ensures
            s.wf(),
            s@ == Map::<Seq<char>, Seq<char>>::empty(),
            s.len() == 0,
            s.slab_count() == 0,
    {
        let s = KvStore { map: HashMap::new(), allocator: slabAllocator::new() };
        assert(s@ =~= Map::<Seq<char>, Seq<char>>::empty());
        s
    }

    /// Stores `value` under `key`; the cell of a value it replaces is freed
    /// before the new value gets a cell.
    pub fn set(&mut self, key: String, value: String)
        requires
            old(self).wf(),
            old(self).len() < usize::MAX / 4,
        ensures
            final(self).wf(),
            final(self)@ == old(self)@.insert(key@, value@),
            final(self).slab_count() == old(self).slab_count() + (if !old(self)@.contains_key(key@)
                && old(self).len() == old(self).slab_count() * 1024 {
                1int
            } else {
                0int
            }),
            final(self).len() == old(self).len() + (if old(self)@.contains_key(key@) {
                0int
            } else {
                1int
            }),
    {
        let ghost kv = key@;
        let ghost vv = value@;
        let ghost kb = str_key(key@);
        proof {
            self.map.lemma_view_finite();
        }
        match self.map.remove(&key) {
            Some(old_ptr) => {
                self.allocator.dealloc(old_ptr);
                proof {
                    vstd::set::axiom_set_remove_len(old(self).map@.dom(), kb);
                    assert(self.map@.dom() =~= old(self).map@.dom().remove(kb));
                }
            },
            None => {
                assert(self.map@.dom() =~= old(self).map@.dom().remove(kb));
            },
        }
        let ghost mid_map = self.map@;
        let ghost mid_alloc = self.allocator;
        proof {
            old(self).allocator.lemma_total();
            self.allocator.lemma_total();
            assert(old(self)@.contains_key(kv) == old(self).map@.contains_key(kb));
        }
        let ptr = self.allocator.allocate();
        self.allocator.write(ptr, value);
        proof {
            self.map.lemma_view_finite();
        }
        self.map.insert(key, ptr);
        proof {
            vstd::set::axiom_set_insert_len(mid_map.dom(), kb);
            assert(self.map@.dom() =~= mid_map.dom().insert(kb));
            assert forall|a: Seq<u8>| #[trigger] self.map@.contains_key(a) implies {
                &&& self.allocator.live(self.map@[a] as int)
                &&& self.allocator.cell(self.map@[a] as int) is Some
            } by {
                if a != kb {
                    assert(mid_map.contains_key(a));
                    assert(mid_alloc.live(mid_map[a] as int));
                }
            }
            assert forall|a: Seq<u8>, b: Seq<u8>|
                self.map@.contains_key(a) && self.map@.contains_key(b) && a != b implies #[trigger] self.map@[a]
                != #[trigger] self.map@[b] by {
                if a != kb && b != kb {
                    assert(mid_map[a] != mid_map[b]);
                } else if a != kb {
                    assert(mid_alloc.live(mid_map[a] as int));
                } else {
                    assert(mid_alloc.live(mid_map[b] as int));
                }
            }
            assert forall|k: Seq<char>| k != kv implies str_key(k) != kb by {
                lemma_str_key_injective(k, kv);
            }
            assert(self@ =~= old(self)@.insert(kv, vv)) by {
                assert forall|k: Seq<char>| #[trigger] self@.contains_key(k) && k != kv implies self@[k]
                    == old(self)@[k] by {
                    assert(self.map@[str_key(k)] == old(self).map@[str_key(k)]);
                    assert(old(self).allocator.live(old(self).map@[str_key(k)] as int));
                }
            }
        }
    }

    /// The value stored under `key`, if any.
    pub fn get(&self, key: &str) -> (r: Option<&str>)
        requires
            self.wf(),
        ensures
            r is Some <==> self@.contains_key(key@),
            r matches Some(v) ==> v@ == self@[key@],
    {
        let k = key.to_string();
        match self.map.get(&k) {
            Some(h) => {
                assert(self.allocator.live(*h as int));
                match self.allocator.get(*h) {
                    Some(v) => Some(v.as_str()),
                    None => None,
                }
            },
            None => None,
        }
    }

    /// Removes `key` and frees its cell; whether the store held it.
    pub fn del(&mut self, key: &str) -> (b: bool)
        requires
            old(self).wf(),
        ensures
            final(self).wf(),
            final(self)@ == old(self)@.remove(key@),
            b == old(self)@.contains_key(key@),
            final(self).slab_count() == old(self).slab_count(),
            final(self).len() == old(self).len() - (if b {
                1int
            } else {
                0int
            }),
    {
        let k = key.to_string();
        let ghost kv = key@;
        let ghost kb = str_key(key@);
        proof {
            self.map.lemma_view_finite();
        }
        match self.map.remove(&k) {
            Some(ptr) => {
                self.allocator.dealloc(ptr);
                proof {
                    vstd::set::axiom_set_remove_len(old(self).map@.dom(), kb);
                    assert(self.map@.dom() =~= old(self).map@.dom().remove(kb));
                    assert forall|a: Seq<u8>| #[trigger] self.map@.contains_key(a) implies {
                        &&& self.allocator.live(self.map@[a] as int)
                        &&& self.allocator.cell(self.map@[a] as int) is Some
                    } by {
                        assert(old(self).map@[a] != old(self).map@[kb]);
                    }
                    assert forall|a: Seq<u8>, b: Seq<u8>|
                        self.map@.contains_key(a) && self.map@.contains_key(b) && a != b implies #[trigger] self.map@[a]
                        != #[trigger] self.map@[b] by {
                        assert(old(self).map@[a] != old(self).map@[b]);
                    }
                    assert forall|k2: Seq<char>| k2 != kv implies str_key(k2) != kb by {
                        lemma_str_key_injective(k2, kv);
                    }
                    assert(self@ =~= old(self)@.remove(kv)) by {
                        assert forall|k2: Seq<char>| #[trigger] self@.contains_key(k2) implies self@[k2]
                            == old(self)@[k2] by {
                            assert(old(self).map@[str_key(k2)] != ptr);
                        }
                    }
                }
                true
            },
            None => {
                assert(self@ =~= old(self)@.remove(kv));
                false
            },
        }
    }

    /// The counters of the allocator: one cell in use per key.
    pub fn stats(&self) -> (s: AllocStats)
        requires
            self.wf(),
        ensures
            s.used == self.len(),
            s.used == self@.len(),
            s.slabs_alloc == self.slab_count(),
            s.total_cap == s.slabs_alloc * 1024,
            s.used <= s.total_cap,
    {
        proof {
            self.lemma_len();
        }
        self.allocator.stats()
    }
}

} // verus!
