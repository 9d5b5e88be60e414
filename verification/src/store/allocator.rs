use vstd::prelude::*;

verus! {

/// Counters of a slab allocator.
#[derive(Debug, Clone)]
pub struct AllocStats {
    /// The number of cells of all slabs.
    pub total_cap: usize,
    /// The number of cells handed out and not given back.
    pub used: usize,
    /// The number of slabs.
    pub slabs_alloc: usize,
}

/// An allocator of cells for values of type `T`, which grows by slabs of
/// `SLAB_SIZE` cells. A cell is named by its handle, its index among the cells
/// of all slabs. Freed handles are reused last-in, first-out.
#[allow(non_camel_case_types)]
pub struct slabAllocator<T, const SLAB_SIZE: usize> {
    cells: Vec<Option<T>>,
    free_list: Vec<usize>,
    used: usize,
    slabs: usize,
}

impl<T, const SLAB_SIZE: usize> slabAllocator<T, SLAB_SIZE> {
    /// The well-formedness invariant of the allocator.
    pub closed spec fn wf(&self) -> bool {
        &&& self.cells@.len() == self.slabs * SLAB_SIZE
        &&& self.cells@.len() <= usize::MAX
        &&& self.used + self.free_list@.len() == self.cells@.len()
        &&& forall|t: int|
            0 <= t < self.free_list@.len() ==> {
                &&& (#[trigger] self.free_list@[t]) < self.cells@.len()
                &&& self.cells@[self.free_list@[t] as int] is None
            }
        &&& self.free_list@.no_duplicates()
    }

    /// The free handles; the last one is handed out next.
    pub closed spec fn free(&self) -> Seq<usize> {
        self.free_list@
    }

    /// The number of cells of all slabs.
    pub closed spec fn total(&self) -> nat {
        self.cells@.len()
    }

    /// The number of handles handed out and not given back.
    pub closed spec fn used(&self) -> nat {
        self.used as nat
    }

    /// The number of slabs.
    pub closed spec fn slab_count(&self) -> nat {
        self.slabs as nat
    }

    /// The value in the cell of handle `h`, if one was written there.
    pub closed spec fn cell(&self, h: int) -> Option<T> {
        self.cells@[h]
    }

    /// Whether `h` is handed out and not given back.
    pub open spec fn live(&self, h: int) -> bool {
        0 <= h < self.total() && !self.free().contains(h as usize)
    }

    /// The cells of all slabs, and no more than them, can be in use.
    pub proof fn lemma_total(&self)
        requires
            self.wf(),
        ensures
            self.total() == self.slab_count() * SLAB_SIZE,
            self.used() <= self.total(),
    {
    }

    /// The handles handed out and not given back.
    pub open spec fn live_set(&self) -> Set<int> {
        Set::new(|h: int| self.live(h))
    }

    /// `used` counts exactly the handles that are handed out and not given back.
    pub proof fn law_used_counts_live(&self)
        requires
            self.wf(),
        ensures
            self.live_set().finite(),
            self.live_set().len() == self.used(),
    {
        let total = self.cells@.len() as int;
        let free = self.free_list@;
        let range = vstd::set_lib::set_int_range(0, total);
        vstd::set_lib::lemma_int_range(0, total);
        let fi = free.map_values(|u: usize| u as int);
        assert(fi.no_duplicates()) by {
            assert forall|a: int, b: int| 0 <= a < fi.len() && 0 <= b < fi.len() && a != b implies fi[a]
                != fi[b] by {
                assert(free[a] != free[b]);
            }
        }
        fi.unique_seq_to_set();
        let fs = fi.to_set();
        assert(range.intersect(fs) =~= fs) by {
            assert forall|h: int| fs.contains(h) implies range.contains(h) by {
                let t = choose|t: int| 0 <= t < fi.len() && fi[t] == h;
                assert(free[t] < total);
            }
        }
        assert(self.live_set() =~= range.difference(fs)) by {
            assert forall|h: int| #[trigger] self.live_set().contains(h) <==> range.difference(fs).contains(h) by {
                if 0 <= h < total {
                    assert(total <= usize::MAX);
                    assert((h as usize) as int == h);
                    if free.contains(h as usize) {
                        let t = choose|t: int| 0 <= t < free.len() && free[t] == h as usize;
                        assert(fi[t] == h);
                        assert(fs.contains(h));
                    }
                    if fs.contains(h) {
                        let t = choose|t: int| 0 <= t < fi.len() && fi[t] == h;
                        assert(free[t] == h as usize);
                        assert(free.contains(h as usize));
                    }
                }
            }
        }
        vstd::set_lib::lemma_set_difference_len(range, fs);
    }

    /// An allocator with no slab.
    pub fn new() -> (a: Self)
        ensures
            a.wf(),
            a.total() == 0,
            a.used() == 0,
            a.slab_count() == 0,
            a.free() == Seq::<usize>::empty(),
    {
        let a = slabAllocator { cells: Vec::new(), free_list: Vec::new(), used: 0, slabs: 0 };
        assert((0 as int) * (SLAB_SIZE as int) == 0) by (nonlinear_arith);
        a
    }

    /// Adds a slab, whose handles become free so that the lowest is handed out first.
    fn grow(&mut self)
        requires
            old(self).wf(),
            old(self).free() == Seq::<usize>::empty(),
            SLAB_SIZE > 0,
            old(self).total() + SLAB_SIZE <= usize::MAX,
        ensures
            final(self).wf(),
            final(self).slab_count() == old(self).slab_count() + 1,
            final(self).total() == old(self).total() + SLAB_SIZE,
            final(self).used() == old(self).used(),
            final(self).free() == Seq::new(
                SLAB_SIZE as nat,
                |t: int| (old(self).total() + SLAB_SIZE - 1 - t) as usize,
            ),
            forall|h: int| 0 <= h < old(self).total() ==> final(self).cell(h) == old(self).cell(h),
            forall|h: int| old(self).total() <= h < final(self).total() ==> final(self).cell(h) is None,
    {
        let base = self.cells.len();
        let mut i: usize = 0;
        while i < SLAB_SIZE
            invariant
                i <= SLAB_SIZE,
                base == old(self).cells@.len(),
                base + SLAB_SIZE <= usize::MAX,
                self.cells@.len() == base + i,
                forall|h: int| 0 <= h < base ==> self.cells@[h] == old(self).cells@[h],
                forall|h: int| base <= h < base + i ==> self.cells@[h] is None,
                self.free_list@ == old(self).free_list@,
                self.used == old(self).used,
                self.slabs == old(self).slabs,
            decreases SLAB_SIZE - i,
        {
            self.cells.push(None);
            i = i + 1;
        }
        let mut j: usize = SLAB_SIZE;
        while j > 0
            invariant
                j <= SLAB_SIZE,
                base == old(self).cells@.len(),
                base + SLAB_SIZE <= usize::MAX,
                self.cells@.len() == base + SLAB_SIZE,
                forall|h: int| 0 <= h < base ==> self.cells@[h] == old(self).cells@[h],
                forall|h: int| base <= h < base + SLAB_SIZE ==> self.cells@[h] is None,
                self.free_list@ == Seq::new(
                    (SLAB_SIZE - j) as nat,
                    |t: int| (base + SLAB_SIZE - 1 - t) as usize,
                ),
                self.used == old(self).used,
                self.slabs == old(self).slabs,
            decreases j,
        {
            self.free_list.push(base + j - 1);
            j = j - 1;
            assert(self.free_list@ =~= Seq::new(
                (SLAB_SIZE - j) as nat,
                |t: int| (base + SLAB_SIZE - 1 - t) as usize,
            ));
        }
        proof {
            assert(self.slabs * SLAB_SIZE + SLAB_SIZE <= usize::MAX);
            assert((self.slabs + 1) * SLAB_SIZE == self.slabs * SLAB_SIZE + SLAB_SIZE)
                by (nonlinear_arith);
            assert(self.slabs < usize::MAX) by (nonlinear_arith)
                requires
                    self.slabs * SLAB_SIZE + SLAB_SIZE <= usize::MAX,
                    SLAB_SIZE > 0,
            ;
        }
        self.slabs = self.slabs + 1;
    }

    /// Hands out a handle: the most recently freed one, or else the lowest of a new slab.
    pub fn allocate(&mut self) -> (h: usize)
        requires
            old(self).wf(),
            SLAB_SIZE > 0,
            old(self).used() + SLAB_SIZE <= usize::MAX,
        ensures
            final(self).wf(),
            !old(self).live(h as int),
            final(self).live(h as int),
            final(self).used() == old(self).used() + 1,
            final(self).slab_count() == old(self).slab_count() + (if old(self).used() == old(
                self,
            ).total() {
                1int
            } else {
                0int
            }),
            forall|g: int| g != h ==> final(self).live(g) == old(self).live(g),
            forall|g: int| 0 <= g < old(self).total() ==> final(self).cell(g) == old(self).cell(g),
            forall|g: int| old(self).total() <= g < final(self).total() ==> final(self).cell(g) is None,
            old(self).free().len() > 0 ==> {
                &&& h == old(self).free().last()
                &&& final(self).free() == old(self).free().drop_last()
                &&& final(self).slab_count() == old(self).slab_count()
                &&& final(self).total() == old(self).total()
            },
            old(self).free().len() == 0 ==> {
                &&& h == old(self).total()
                &&& final(self).slab_count() == old(self).slab_count() + 1
                &&& final(self).total() == old(self).total() + SLAB_SIZE
                &&& final(self).free() == Seq::new(
                    (SLAB_SIZE - 1) as nat,
                    |t: int| (old(self).total() + SLAB_SIZE - 1 - t) as usize,
                )
            },
    {
        if self.free_list.len() == 0 {
            assert(self.free_list@ =~= Seq::<usize>::empty());
            self.grow();
        }
        let ghost snap = *self;
        assert(forall|g: int| old(self).total() <= g < snap.total() ==> snap.cell(g) is None);
        let ghost before = self.free_list@;
        let ghost mid = self.cells@;
        let _total = self.cells.len();
        let h = self.free_list.pop().unwrap();
        proof {
            assert(self.free_list@ =~= before.drop_last());
            assert(!self.free_list@.contains(h)) by {
                if self.free_list@.contains(h) {
                    let t = choose|t: int| 0 <= t < self.free_list@.len() && self.free_list@[t] == h;
                    assert(before[t] == before[before.len() - 1]);
                }
            }
            assert forall|g: int| g != h implies self.live(g) == old(self).live(g) by {
                if 0 <= g < old(self).total() && old(self).free().len() == 0 {
                    assert(!self.free_list@.contains(g as usize)) by {
                        if self.free_list@.contains(g as usize) {
                            let t = choose|t: int|
                                0 <= t < self.free_list@.len() && self.free_list@[t] == g as usize;
                            assert(before[t] == g);
                        }
                    }
                }
                if 0 <= g < self.total() && g != h {
                    if before.contains(g as usize) {
                        let t = choose|t: int| 0 <= t < before.len() && before[t] == g as usize;
                        assert(before[before.len() - 1] == h);
                        assert((g as usize) as int == g);
                        assert(t < before.len() - 1);
                        assert(self.free_list@[t] == g);
                    }
                    if old(self).free().len() == 0 && g >= old(self).total() {
                        let t = old(self).total() + SLAB_SIZE - 1 - g;
                        assert(before[t] == g as usize);
                    }
                }
            }
        }
        self.used = self.used + 1;
        assert(self.cells@ == mid);
        assert forall|g: int| old(self).total() <= g < self.total() implies self.cell(g) is None by {
            assert(snap.cell(g) is None);
        }
        h
    }

    /// Gives back handle `h`; its cell is cleared and `h` is handed out next.
    pub fn dealloc(&mut self, h: usize)
        requires
            old(self).wf(),
            old(self).live(h as int),
        ensures
            final(self).wf(),
            final(self).free() == old(self).free().push(h),
            final(self).used() == old(self).used() - 1,
            final(self).used() < final(self).total(),
            final(self).total() == old(self).total(),
            final(self).slab_count() == old(self).slab_count(),
            final(self).cell(h as int) is None,
            forall|g: int| 0 <= g < old(self).total() && g != h ==> final(self).cell(g) == old(
                self,
            ).cell(g),
    {
        proof {
            if self.used == 0 {
                assert(self.free_list@.len() == self.cells@.len());
                lemma_free_covers(self.free_list@, self.cells@.len());
                assert(self.free_list@.contains(h));
            }
        }
        self.cells.set(h, None);
        self.used = self.used - 1;
        self.free_list.push(h);
    }

    /// Writes `value` into the cell of the live handle `h`.
    pub fn write(&mut self, h: usize, value: T)
        requires
            old(self).wf(),
            old(self).live(h as int),
        ensures
            final(self).wf(),
            final(self).cell(h as int) == Some(value),
            forall|g: int| 0 <= g < old(self).total() && g != h ==> final(self).cell(g) == old(
                self,
            ).cell(g),
            final(self).free() == old(self).free(),
            final(self).used() == old(self).used(),
            final(self).total() == old(self).total(),
            final(self).slab_count() == old(self).slab_count(),
    {
        self.cells.set(h, Some(value));
    }

    /// The value in the cell of handle `h`, if one was written there.
    pub fn get(&self, h: usize) -> (r: Option<&T>)
        requires
            self.wf(),
            h < self.total(),
        ensures
            r is Some <==> self.cell(h as int) is Some,
            r matches Some(v) ==> self.cell(h as int) == Some(*v),
    {
        match &self.cells[h] {
            Some(v) => Some(v),
            None => None,
        }
    }

    /// The counters of the allocator.
    pub fn stats(&self) -> (s: AllocStats)
        requires
            self.wf(),
        ensures
            s.total_cap == self.total(),
            s.total_cap == self.slab_count() * SLAB_SIZE,
            s.used == self.used(),
            s.used <= s.total_cap,
            s.slabs_alloc == self.slab_count(),
    {
        AllocStats { total_cap: self.cells.len(), used: self.used, slabs_alloc: self.slabs }
    }
}

/// A sequence of `n` distinct handles below `n` holds every handle below `n`.
proof fn lemma_free_covers(free: Seq<usize>, n: nat)
    requires
        free.len() == n,
        free.no_duplicates(),
        forall|t: int| 0 <= t < free.len() ==> (#[trigger] free[t]) < n,
    ensures
        forall|h: usize| 0 <= h < n ==> #[trigger] free.contains(h),
{
    let m = free.map_values(|x: usize| x as int);
    assert forall|i: int, j: int| 0 <= i < m.len() && 0 <= j < m.len() && i != j implies m[i] != m[j] by {
        assert(free[i] != free[j]);
    }
    assert(m.no_duplicates());
    m.unique_seq_to_set();
    let full = vstd::set_lib::set_int_range(0, n as int);
    vstd::set_lib::lemma_int_range(0, n as int);
    assert forall|x: int| m.to_set().contains(x) implies full.contains(x) by {
        let t = choose|t: int| 0 <= t < m.len() && m[t] == x;
        assert(free[t] < n);
    }
    vstd::set_lib::lemma_subset_equality(m.to_set(), full);
    assert forall|h: usize| 0 <= h < n implies #[trigger] free.contains(h) by {
        assert(full.contains(h as int));
        assert(m.to_set().contains(h as int));
        let t = choose|t: int| 0 <= t < m.len() && m[t] == h as int;
        assert(free[t] == h);
    }
}

} // verus!
