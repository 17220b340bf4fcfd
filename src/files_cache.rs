//! The multi-slot index cache: a mapping from each root that was indexed to
//! the numbered storage slot that holds its persisted index.
use vstd::prelude::*;

verus! {

/// What the cache holds: each root's slot, and the number of the next slot
/// to hand out.
pub struct CacheView {
    pub slots: Map<Seq<char>, nat>,
    pub next: nat,
}

/// Slots are distinct and all below the next one to hand out.
pub open spec fn cache_wf(v: CacheView) -> bool {
    &&& forall|a: Seq<char>, b: Seq<char>|
        v.slots.contains_key(a) && v.slots.contains_key(b) && a != b ==> v.slots[a] != v.slots[b]
    &&& forall|a: Seq<char>| v.slots.contains_key(a) ==> v.slots[a] < v.next
    &&& v.next <= u64::MAX
}

/// The cache after a request for `root`: unchanged where the root has a slot
/// (or no slot number is left), else with the next slot given to it.
pub open spec fn after_add(v: CacheView, root: Seq<char>) -> CacheView {
    if v.slots.contains_key(root) || v.next >= u64::MAX {
        v
    } else {
        CacheView { slots: v.slots.insert(root, v.next), next: v.next + 1 }
    }
}

/// The slot that a list of (root, slot) entries gives each root.
pub open spec fn slots_of(e: Seq<(String, u64)>) -> Map<Seq<char>, nat>
    decreases e.len(),
{
    if e.len() == 0 {
        Map::empty()
    } else {
        slots_of(e.drop_last()).insert(e.last().0@, e.last().1 as nat)
    }
}

/// Persisted entries describe a cache: distinct roots, distinct slots, all
/// below `next`.
pub open spec fn entries_wf(e: Seq<(String, u64)>, next: u64) -> bool {
    &&& forall|i: int, j: int| 0 <= i < j < e.len() ==> e[i].0@ != e[j].0@
    &&& forall|i: int, j: int| 0 <= i < j < e.len() ==> e[i].1 != e[j].1
    &&& forall|i: int| 0 <= i < e.len() ==> #[trigger] e[i].1 < next
}

proof fn lemma_slots_keys(e: Seq<(String, u64)>)
    requires
        forall|i: int, j: int| 0 <= i < j < e.len() ==> e[i].0@ != e[j].0@,
    ensures
        forall|j: int|
            0 <= j < e.len() ==> slots_of(e).contains_key(#[trigger] e[j].0@) && slots_of(e)[e[j].0@]
                == e[j].1 as nat,
        forall|k: Seq<char>|
            slots_of(e).contains_key(k) ==> exists|j: int| 0 <= j < e.len() && #[trigger] e[j].0@ == k,
    decreases e.len(),
{
    if e.len() > 0 {
        let d = e.drop_last();
        lemma_slots_keys(d);
        assert forall|k: Seq<char>| slots_of(e).contains_key(k) implies exists|j: int|
            0 <= j < e.len() && #[trigger] e[j].0@ == k by {
            if k != e.last().0@ {
                assert(slots_of(d).contains_key(k));
                let j = choose|j: int| 0 <= j < d.len() && #[trigger] d[j].0@ == k;
                assert(d[j] == e[j]);
                assert(e[j].0@ == k);
            } else {
                assert(e[e.len() - 1].0@ == k);
            }
        }
        assert forall|j: int| 0 <= j < e.len() implies slots_of(e).contains_key(#[trigger] e[j].0@)
            && slots_of(e)[e[j].0@] == e[j].1 as nat by {
            if j < e.len() - 1 {
                assert(d[j] == e[j]);
            }
        }
    }
}

proof fn lemma_entries_view_wf(e: Seq<(String, u64)>, next: u64)
    requires
        entries_wf(e, next),
    ensures
        cache_wf(CacheView { slots: slots_of(e), next: next as nat }),
{
    lemma_slots_keys(e);
    let m = slots_of(e);
    assert forall|a: Seq<char>, b: Seq<char>|
        m.contains_key(a) && m.contains_key(b) && a != b implies m[a] != m[b] by {
        let i = choose|j: int| 0 <= j < e.len() && #[trigger] e[j].0@ == a;
        let j = choose|j: int| 0 <= j < e.len() && #[trigger] e[j].0@ == b;
        assert(i != j);
        if i < j {
            assert(e[i].1 != e[j].1);
        } else {
            assert(e[j].1 != e[i].1);
        }
    }
    assert forall|a: Seq<char>| m.contains_key(a) implies m[a] < next by {
        let i = choose|j: int| 0 <= j < e.len() && #[trigger] e[j].0@ == a;
        assert(e[i].1 < next);
    }
}

/// Where the index of a root is to come from.
#[derive(Debug, Clone, Copy, PartialEq, Eq, Structural)]
pub enum Lookup {
    /// Load the index persisted in this slot.
    Load(u64),
    /// Build the index from the documents under the root.
    Build,
}

/// The slot of a root after a request for it.
#[derive(Debug, Clone, Copy, PartialEq, Eq, Structural)]
pub enum Slot {
    /// The root already had this slot; nothing is to be written.
    Cached(u64),
    /// The root was given this new slot; its index is to be persisted there.
    Fresh(u64),
}

/// The cache of indices, one numbered slot per root, with the place of its
/// own persisted mapping and of the slots.
pub struct CacheMap {
    caches: Vec<(String, u64)>,
    path: String,
    files_cache: String,
    next_slot: u64,
}

impl View for CacheMap {
    type V = CacheView;

    closed spec fn view(&self) -> CacheView {
        CacheView { slots: slots_of(self.caches@), next: self.next_slot as nat }
    }
}

impl CacheMap {
    /// Well formed: distinct roots and slots, all slots below the next one.
    pub closed spec fn wf(&self) -> bool {
        entries_wf(self.caches@, self.next_slot)
    }

    /// Where the mapping itself is persisted.
    pub closed spec fn path_view(&self) -> Seq<char> {
        self.path@
    }

    /// The storage area of the slots.
    pub closed spec fn files_cache_view(&self) -> Seq<char> {
        self.files_cache@
    }

    /// A well-formed cache has a consistent view.
    pub proof fn lemma_view_wf(&self)
        requires
            self.wf(),
        ensures
            cache_wf(self@),
    {
        lemma_entries_view_wf(self.caches@, self.next_slot);
    }

    /// An empty cache whose mapping is persisted at `path` and whose slots
    /// live in the storage area `files_cache`.
    pub fn build(path: &str, files_cache: &str) -> (r: CacheMap)
        ensures
            r.wf(),
            r@.slots == Map::<Seq<char>, nat>::empty(),
            r@.next == 0,
            r.path_view() == path@,
            r.files_cache_view() == files_cache@,
    {
        CacheMap { caches: Vec::new(), path: path.to_owned(), files_cache: files_cache.to_owned(), next_slot: 0 }
    }

    /// A cache from its persisted entries: (root, slot) pairs and the next
    /// slot; `None` unless roots and slots are distinct and below `next_slot`.
    pub fn from_entries(path: &str, files_cache: &str, entries: &Vec<(String, u64)>, next_slot: u64) -> (r:
        Option<CacheMap>)
        ensures
            r is Some <==> entries_wf(entries@, next_slot),
            r matches Some(c) ==> {
                &&& c.wf()
                &&& c@ == CacheView { slots: slots_of(entries@), next: next_slot as nat }
                &&& c.path_view() == path@
                &&& c.files_cache_view() == files_cache@
            },
    {
        let mut caches: Vec<(String, u64)> = Vec::new();
        let mut i: usize = 0;
        while i < entries.len()
            invariant
                i <= entries.len(),
                caches@ == entries@.take(i as int),
                entries_wf(caches@, next_slot),
            decreases entries.len() - i,
        {
            if entries[i].1 >= next_slot {
                return None;
            }
            let mut j: usize = 0;
            while j < i
                invariant
                    i < entries.len(),
                    j <= i,
                    forall|a: int| 0 <= a < j ==> #[trigger] entries@[a].0@ != entries@[i as int].0@,
                    forall|a: int| 0 <= a < j ==> #[trigger] entries@[a].1 != entries@[i as int].1,
                decreases i - j,
            {
                if entries[j].0 == entries[i].0 || entries[j].1 == entries[i].1 {
                    return None;
                }
                j = j + 1;
            }
            caches.push((entries[i].0.clone(), entries[i].1));
            assert(caches@ =~= entries@.take(i as int + 1));
            i = i + 1;
        }
        assert(caches@ =~= entries@);
        Some(CacheMap { caches, path: path.to_owned(), files_cache: files_cache.to_owned(), next_slot })
    }

    /// The persisted entries: (root, slot) pairs.
    pub fn entries(&self) -> (r: Vec<(String, u64)>)
        requires
            self.wf(),
        ensures
            entries_wf(r@, self@.next as u64),
            slots_of(r@) == self@.slots,
    {
        let mut r: Vec<(String, u64)> = Vec::new();
        let mut i: usize = 0;
        while i < self.caches.len()
            invariant
                i <= self.caches.len(),
                r@ == self.caches@.take(i as int),
            decreases self.caches.len() - i,
        {
            r.push((self.caches[i].0.clone(), self.caches[i].1));
            assert(r@ =~= self.caches@.take(i as int + 1));
            i = i + 1;
        }
        assert(r@ =~= self.caches@);
        r
    }

    /// The number of the next slot to hand out.
    pub fn next_slot(&self) -> (r: u64)
        ensures
            r == self@.next,
    {
        self.next_slot
    }

    /// Where the mapping itself is persisted.
    pub fn path(&self) -> (r: &String)
        ensures
            r@ == self.path_view(),
    {
        &self.path
    }

    /// The storage area of the slots.
    pub fn files_cache(&self) -> (r: &String)
        ensures
            r@ == self.files_cache_view(),
    {
        &self.files_cache
    }

    fn find(&self, root: &String) -> (r: Option<usize>)
        requires
            self.wf(),
        ensures
            match r {
                Some(j) => j < self.caches.len() && self.caches@[j as int].0@ == root@,
                None => !self@.slots.contains_key(root@),
            },
    {
        let mut j: usize = 0;
        while j < self.caches.len()
            invariant
                j <= self.caches.len(),
                forall|i: int| 0 <= i < j ==> #[trigger] self.caches@[i].0@ != root@,
            decreases self.caches.len() - j,
        {
            if self.caches[j].0 == *root {
                return Some(j);
            }
            j = j + 1;
        }
        proof {
            lemma_slots_keys(self.caches@);
        }
        None
    }

    /// Where the index of `root` is to come from: its slot, if it has one.
    pub fn get_files(&self, root: &str) -> (r: Lookup)
        requires
            self.wf(),
        ensures
            r == (if self@.slots.contains_key(root@) {
                Lookup::Load(self@.slots[root@] as u64)
            } else {
                Lookup::Build
            }),
    {
        let key = root.to_owned();
        match self.find(&key) {
            Some(j) => {
                proof {
                    lemma_slots_keys(self.caches@);
                }
                Lookup::Load(self.caches[j].1)
            },
            None => Lookup::Build,
        }
    }

    /// Gives `root` a slot unless it has one; a root's slot is never
    /// replaced. `None` when no slot number is left.
    pub fn add_files(&mut self, root: &str) -> (r: Option<Slot>)
        requires
            old(self).wf(),
        ensures
            final(self).wf(),
            final(self)@ == after_add(old(self)@, root@),
            final(self).path_view() == old(self).path_view(),
            final(self).files_cache_view() == old(self).files_cache_view(),
            r == (if old(self)@.slots.contains_key(root@) {
                Some(Slot::Cached(old(self)@.slots[root@] as u64))
            } else if old(self)@.next < u64::MAX {
                Some(Slot::Fresh(old(self)@.next as u64))
            } else {
                None::<Slot>
            }),
    {
        let key = root.to_owned();
        proof {
            lemma_slots_keys(self.caches@);
        }
        match self.find(&key) {
            Some(j) => Some(Slot::Cached(self.caches[j].1)),
            None => {
                if self.next_slot == u64::MAX {
                    return None;
                }
                let slot = self.next_slot;
                let ghost prev = self.caches@;
                self.caches.push((key, slot));
                self.next_slot = slot + 1;
                assert(self.caches@.drop_last() == prev);
                assert forall|i: int, j: int| 0 <= i < j < self.caches@.len() implies self.caches@[i].0@
                    != self.caches@[j].0@ by {
                    if j == prev.len() {
                        assert(prev[i].0@ == self.caches@[i].0@);
                    }
                }
                Some(Slot::Fresh(slot))
            },
        }
    }
}

/// Multi-slot policy: two distinct roots that the cache lacks are given two
/// distinct slots, and asking again for either gives back its slot and
/// changes nothing, so neither is built again.
pub proof fn lemma_distinct_roots_distinct_slots(v: CacheView, r1: Seq<char>, r2: Seq<char>)
    requires
        cache_wf(v),
        r1 != r2,
        !v.slots.contains_key(r1),
        !v.slots.contains_key(r2),
        v.next + 2 <= u64::MAX,
    ensures
        ({
            let w = after_add(after_add(v, r1), r2);
            &&& cache_wf(w)
            &&& w.slots.contains_key(r1) && w.slots.contains_key(r2)
            &&& w.slots[r1] != w.slots[r2]
            &&& after_add(w, r1) == w
            &&& after_add(w, r2) == w
        }),
{
}

/// Serving the roots `roots` one after another from the cache `v`: the
/// final cache, and how many times an index was built (once for each
/// request for a root without a slot).
pub open spec fn multi_slot_run(v: CacheView, roots: Seq<Seq<char>>) -> (CacheView, nat)
    decreases roots.len(),
{
    if roots.len() == 0 {
        (v, 0)
    } else {
        let (w, n) = multi_slot_run(v, roots.drop_last());
        let r = roots.last();
        (after_add(w, r), n + if w.slots.contains_key(r) {
            0nat
        } else {
            1nat
        })
    }
}

/// Multi-slot policy: asking for two new distinct roots and then for each
/// again builds exactly twice, and leaves them in distinct slots.
pub proof fn lemma_multi_slot_builds_each_once(v: CacheView, r1: Seq<char>, r2: Seq<char>)
    requires
        cache_wf(v),
        r1 != r2,
        !v.slots.contains_key(r1),
        !v.slots.contains_key(r2),
        v.next + 2 <= u64::MAX,
    ensures
        multi_slot_run(v, seq![r1, r2, r1, r2]).1 == 2,
        multi_slot_run(v, seq![r1, r2, r1, r2]).0 == after_add(after_add(v, r1), r2),
        multi_slot_run(v, seq![r1, r2, r1, r2]).0.slots[r1] != multi_slot_run(
            v,
            seq![r1, r2, r1, r2],
        ).0.slots[r2],
{
    reveal_with_fuel(multi_slot_run, 5);
    let rs = seq![r1, r2, r1, r2];
    assert(rs.drop_last() =~= seq![r1, r2, r1]);
    assert(seq![r1, r2, r1].drop_last() =~= seq![r1, r2]);
    assert(seq![r1, r2].drop_last() =~= seq![r1]);
    assert(seq![r1].drop_last() =~= Seq::<Seq<char>>::empty());
    lemma_distinct_roots_distinct_slots(v, r1, r2);
}

/// A request keeps the cache consistent, and a root that had a slot keeps it.
pub proof fn lemma_after_add_keeps_slots(v: CacheView, root: Seq<char>, other: Seq<char>)
    requires
        cache_wf(v),
    ensures
        cache_wf(after_add(v, root)),
        v.slots.contains_key(other) ==> after_add(v, root).slots.contains_key(other)
            && after_add(v, root).slots[other] == v.slots[other],
{
}

} // verus!
