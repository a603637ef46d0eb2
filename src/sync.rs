//! The association between entities and the handles of their collision
//! objects, and the synchronizer that reconciles it with a tick's changes.
use vstd::prelude::*;

use hibitset::BitSet;

use crate::bitset::{bitset_contains, bitset_members};
use crate::change::{ChangeLog, ChangeType};

verus! {

/// Entity index paired with the handle of its collision object.
pub type Binding = (u32, u64);

/// Bidirectional entity/handle association. Handles come from a counter
/// that only grows, so a handle is never given out twice.
pub struct HandleTable {
    entries: Vec<Binding>,
    next_handle: u64,
    bound: Ghost<Map<u32, u64>>,
}

/// What the collision world must do to catch up with one tick's changes,
/// in this order: refresh `updates`, add `inserts`, then drop `removes`.
pub struct SyncPlan {
    pub updates: Vec<Binding>,
    pub inserts: Vec<Binding>,
    pub removes: Vec<Binding>,
}

/// The changes that make an entity's collision object be refreshed.
pub open spec fn refreshes(c: ChangeType) -> bool {
    c == ChangeType::Inserted || c == ChangeType::Modified
}

/// One synchronization took the table from `t0` (counter `n0`) to `t1`
/// (counter `n1`) and produced `plan`, given the net `changes` of one
/// attribute and the `live` entities (those with both a presence and a pose).
///
/// - Every bound entity whose attribute was inserted or modified is refreshed.
/// - Every live entity without a handle gets a handle of its own from the
///   counter, and the counter moves past them.
/// - Every bound entity whose attribute was removed loses its binding; the
///   bindings made by this run are never removed by it.
/// - Every other binding is kept as it was.
pub open spec fn synchronized(
    t0: Map<u32, u64>,
    n0: u64,
    changes: ChangeLog,
    live: Seq<u32>,
    t1: Map<u32, u64>,
    n1: u64,
    plan: SyncPlan,
) -> bool {
    let up = plan.updates@;
    let ins = plan.inserts@;
    let rm = plan.removes@;
    &&& forall|p: Binding|
        #[trigger] up.contains(p) <==> (t0.contains_key(p.0) && t0[p.0] == p.1 && refreshes(changes.change_of(p.0)))
    &&& n1 == n0 + ins.len()
    &&& forall|i: int|
        0 <= i < ins.len() ==> {
            &&& (#[trigger] ins[i]).1 == n0 + i
            &&& live.contains(ins[i].0)
            &&& !t0.contains_key(ins[i].0)
        }
    &&& forall|i: int, j: int| 0 <= i < j < ins.len() ==> ins[i].0 != ins[j].0
    &&& forall|i: int, j: int| 0 <= i < j < up.len() ==> up[i].0 != up[j].0
    &&& forall|i: int, j: int| 0 <= i < j < rm.len() ==> rm[i].0 != rm[j].0
    &&& forall|e: u32|
        #[trigger] live.contains(e) && !t0.contains_key(e) ==> exists|i: int| 0 <= i < ins.len() && ins[i].0 == e
    &&& forall|p: Binding|
        #[trigger] rm.contains(p) <==> (changes.change_of(p.0) == ChangeType::Removed && t0.contains_key(p.0)
            && t0[p.0] == p.1)
    &&& forall|e: u32|
        #[trigger] t1.contains_key(e) <==> ((t0.contains_key(e) && changes.change_of(e) != ChangeType::Removed) || (
        live.contains(e) && !t0.contains_key(e)))
    &&& forall|e: u32| #[trigger] t1.contains_key(e) && t0.contains_key(e) ==> t1[e] == t0[e]
    &&& forall|e: u32| #[trigger] t1.contains_key(e) && !t0.contains_key(e) ==> ins.contains((e, t1[e]))
}

/// Binding `b` is dropped: its entity is in `removed` and its handle lies
/// below `older_than`.
pub open spec fn drops(removed: BitSet, older_than: u64, b: Binding) -> bool {
    bitset_members(removed).contains(b.0) && b.1 < older_than
}

impl HandleTable {
    /// The handle bound to each entity that has one.
    pub closed spec fn handles(&self) -> Map<u32, u64> {
        self.bound@
    }

    /// The handle that the next insertion receives.
    pub closed spec fn next(&self) -> u64 {
        self.next_handle
    }

    /// Entities and handles are in one-to-one correspondence, and every
    /// handle given out lies below the counter.
    pub closed spec fn wf(&self) -> bool {
        &&& forall|i: int, j: int|
            0 <= i < j < self.entries@.len() ==> self.entries@[i].0 != self.entries@[j].0
        &&& forall|i: int, j: int|
            0 <= i < j < self.entries@.len() ==> self.entries@[i].1 != self.entries@[j].1
        &&& forall|i: int|
            0 <= i < self.entries@.len() ==> {
                let (e, h) = #[trigger] self.entries@[i];
                &&& self.bound@.contains_key(e)
                &&& self.bound@[e] == h
                &&& h < self.next_handle
            }
        &&& forall|e: u32|
            #[trigger] self.bound@.contains_key(e) ==> exists|i: int|
                0 <= i < self.entries@.len() && self.entries@[i].0 == e
    }

    proof fn lemma_bound(&self, e: u32)
        requires
            self.wf(),
        ensures
            self.handles().contains_key(e) ==> exists|i: int|
                0 <= i < self.entries@.len() && #[trigger] self.entries@[i] == (e, self.handles()[e]),
    {
        if self.handles().contains_key(e) {
            let i = choose|i: int| 0 <= i < self.entries@.len() && self.entries@[i].0 == e;
            assert(self.entries@[i] == (e, self.handles()[e]));
        }
    }

    /// Every handle lies below the counter, and no two entities share one.
    pub proof fn lemma_wf_handles(&self)
        requires
            self.wf(),
        ensures
            forall|e: u32| #[trigger] self.handles().contains_key(e) ==> self.handles()[e] < self.next(),
            forall|e1: u32, e2: u32|
                #[trigger] self.handles().contains_key(e1) && #[trigger] self.handles().contains_key(e2)
                    && e1 != e2 ==> self.handles()[e1] != self.handles()[e2],
    {
        assert forall|e: u32| #[trigger] self.handles().contains_key(e) implies self.handles()[e] < self.next() by {
            self.lemma_bound(e);
        }
        assert forall|e1: u32, e2: u32|
            #[trigger] self.handles().contains_key(e1) && #[trigger] self.handles().contains_key(e2)
                && e1 != e2 implies self.handles()[e1] != self.handles()[e2] by {
            self.lemma_bound(e1);
            self.lemma_bound(e2);
            let i = choose|i: int| 0 <= i < self.entries@.len() && #[trigger] self.entries@[i] == (e1, self.handles()[e1]);
            let j = choose|j: int| 0 <= j < self.entries@.len() && #[trigger] self.entries@[j] == (e2, self.handles()[e2]);
            if i < j {
            } else {
            }
        }
    }

    /// A table with no entity bound.
    pub fn new() -> (r: HandleTable)
        ensures
            r.wf(),
            r.handles() == Map::<u32, u64>::empty(),
            r.next() == 0,
    {
        HandleTable { entries: Vec::new(), next_handle: 0, bound: Ghost(Map::empty()) }
    }

    /// The handle that the next insertion receives.
    pub fn next_handle(&self) -> (r: u64)
        ensures
            r == self.next(),
    {
        self.next_handle
    }

    /// Number of entities bound.
    pub fn len(&self) -> (r: usize)
        requires
            self.wf(),
        ensures
            r == self.handles().len(),
    {
        proof {
            self.lemma_len();
        }
        self.entries.len()
    }

    proof fn lemma_len(&self)
        requires
            self.wf(),
        ensures
            self.entries@.len() == self.handles().len(),
    {
        let keys = self.entries@.map_values(|p: Binding| p.0);
        assert(self.handles().dom() =~= keys.to_set()) by {
            assert forall|e: u32| self.handles().dom().contains(e) implies keys.to_set().contains(e) by {
                self.lemma_bound(e);
                let i = choose|i: int| 0 <= i < self.entries@.len() && #[trigger] self.entries@[i] == (e, self.handles()[e]);
                assert(keys[i] == e);
            }
            assert forall|e: u32| keys.to_set().contains(e) implies self.handles().dom().contains(e) by {
                let i = choose|i: int| 0 <= i < keys.len() && keys[i] == e;
                assert(self.entries@[i].0 == e);
            }
        }
        assert(keys.no_duplicates());
        keys.unique_seq_to_set();
    }

    fn find(&self, e: u32) -> (r: Option<usize>)
        requires
            self.wf(),
        ensures
            match r {
                Some(k) => k < self.entries@.len() && self.entries@[k as int].0 == e
                    && self.handles().contains_key(e),
                None => !self.handles().contains_key(e),
            },
    {
        let mut k: usize = 0;
        while k < self.entries.len()
            invariant
                self.wf(),
                k <= self.entries@.len(),
                forall|i: int| 0 <= i < k ==> self.entries@[i].0 != e,
            decreases self.entries@.len() - k,
        {
            if self.entries[k].0 == e {
                return Some(k);
            }
            k = k + 1;
        }
        proof {
            self.lemma_bound(e);
        }
        None
    }

    /// The handle bound to entity `e`, if any.
    pub fn handle_of(&self, e: u32) -> (r: Option<u64>)
        requires
            self.wf(),
        ensures
            r == (if self.handles().contains_key(e) {
                Some(self.handles()[e])
            } else {
                None::<u64>
            }),
    {
        match self.find(e) {
            Some(k) => Some(self.entries[k].1),
            None => None,
        }
    }

    /// The entity that handle `h` is bound to, if any.
    pub fn entity_of(&self, h: u64) -> (r: Option<u32>)
        requires
            self.wf(),
        ensures
            match r {
                Some(e) => self.handles().contains_key(e) && self.handles()[e] == h,
                None => forall|e: u32| #[trigger] self.handles().contains_key(e) ==> self.handles()[e] != h,
            },
    {
        let mut k: usize = 0;
        while k < self.entries.len()
            invariant
                self.wf(),
                k <= self.entries@.len(),
                forall|i: int| 0 <= i < k ==> self.entries@[i].1 != h,
            decreases self.entries@.len() - k,
        {
            if self.entries[k].1 == h {
                return Some(self.entries[k].0);
            }
            k = k + 1;
        }
        proof {
            assert forall|e: u32| #[trigger] self.handles().contains_key(e) implies self.handles()[e] != h by {
                self.lemma_bound(e);
            }
        }
        None
    }

    /// The bindings of the entities in `refresh`.
    fn collect_updates(&self, refresh: &BitSet) -> (r: Vec<Binding>)
        requires
            self.wf(),
        ensures
            forall|p: Binding|
                #[trigger] r@.contains(p) <==> (self.handles().contains_key(p.0) && self.handles()[p.0] == p.1
                    && bitset_members(*refresh).contains(p.0)),
            forall|a: int, b: int| 0 <= a < b < r@.len() ==> r@[a].0 != r@[b].0,
    {
        let mut out: Vec<Binding> = Vec::new();
        let mut k: usize = 0;
        while k < self.entries.len()
            invariant
                self.wf(),
                k <= self.entries@.len(),
                forall|i: int|
                    0 <= i < out@.len() ==> (exists|j: int| 0 <= j < k && self.entries@[j] == #[trigger] out@[i])
                        && bitset_members(*refresh).contains(out@[i].0),
                forall|j: int|
                    0 <= j < k && bitset_members(*refresh).contains(#[trigger] self.entries@[j].0)
                        ==> out@.contains(self.entries@[j]),
                forall|a: int, b: int| 0 <= a < b < out@.len() ==> out@[a].0 != out@[b].0,
            decreases self.entries@.len() - k,
        {
            let b = self.entries[k];
            let ghost before = out@;
            if bitset_contains(refresh, b.0) {
                out.push(b);
                proof {
                    assert(out@[before.len() as int] == b);
                    assert forall|a: int| 0 <= a < before.len() implies (#[trigger] out@[a]).0 != b.0 by {
                        assert(out@[a] == before[a]);
                        assert(bitset_members(*refresh).contains(before[a].0));
                        let j = choose|j: int| 0 <= j < k && self.entries@[j] == #[trigger] before[a];
                    }
                    assert forall|j: int|
                        0 <= j < k && bitset_members(*refresh).contains(#[trigger] self.entries@[j].0)
                            implies out@.contains(self.entries@[j]) by {
                        let i = choose|i: int| 0 <= i < before.len() && before[i] == self.entries@[j];
                        assert(out@[i] == before[i]);
                    }
                }
            }
            k = k + 1;
        }
        proof {
            assert forall|p: Binding|
                #[trigger] out@.contains(p) <==> (self.handles().contains_key(p.0) && self.handles()[p.0] == p.1
                    && bitset_members(*refresh).contains(p.0)) by {
                self.lemma_bound(p.0);
                if out@.contains(p) {
                    let i = choose|i: int| 0 <= i < out@.len() && out@[i] == p;
                    let j = choose|j: int| 0 <= j < k && self.entries@[j] == #[trigger] out@[i];
                    assert(self.entries@[j] == p);
                }
                if self.handles().contains_key(p.0) && self.handles()[p.0] == p.1
                    && bitset_members(*refresh).contains(p.0) {
                    let j = choose|j: int| 0 <= j < self.entries@.len() && #[trigger] self.entries@[j] == (p.0, self.handles()[p.0]);
                    assert(self.entries@[j].0 == p.0);
                }
            }
        }
        out
    }

    /// Binds a fresh handle to each entity of `live` that has none.
    fn insert_missing(&mut self, live: &Vec<u32>) -> (ins: Vec<Binding>)
        requires
            old(self).wf(),
            old(self).next() + live@.len() <= u64::MAX,
        ensures
            final(self).wf(),
            final(self).next() == old(self).next() + ins@.len(),
            forall|i: int|
                0 <= i < ins@.len() ==> {
                    &&& (#[trigger] ins@[i]).1 == old(self).next() + i
                    &&& live@.contains(ins@[i].0)
                    &&& !old(self).handles().contains_key(ins@[i].0)
                    &&& final(self).handles().contains_key(ins@[i].0)
                    &&& final(self).handles()[ins@[i].0] == ins@[i].1
                },
            forall|i: int, j: int| 0 <= i < j < ins@.len() ==> ins@[i].0 != ins@[j].0,
            forall|e: u32|
                #[trigger] final(self).handles().contains_key(e) <==> (old(self).handles().contains_key(e)
                    || live@.contains(e)),
            forall|e: u32|
                #[trigger] old(self).handles().contains_key(e) ==> final(self).handles()[e] == old(self).handles()[e],
            forall|e: u32|
                #[trigger] final(self).handles().contains_key(e) && !old(self).handles().contains_key(e)
                    ==> exists|j: int| 0 <= j < ins@.len() && ins@[j].0 == e,
    {
        let ghost start = *self;
        let mut ins: Vec<Binding> = Vec::new();
        let mut i: usize = 0;
        while i < live.len()
            invariant
                self.wf(),
                i <= live@.len(),
                start.next() + live@.len() <= u64::MAX,
                self.next() == start.next() + ins@.len(),
                ins@.len() <= i,
                forall|j: int|
                    0 <= j < ins@.len() ==> {
                        &&& (#[trigger] ins@[j]).1 == start.next() + j
                        &&& live@.contains(ins@[j].0)
                        &&& !start.handles().contains_key(ins@[j].0)
                        &&& self.handles().contains_key(ins@[j].0)
                        &&& self.handles()[ins@[j].0] == ins@[j].1
                    },
                forall|a: int, b: int| 0 <= a < b < ins@.len() ==> ins@[a].0 != ins@[b].0,
                forall|e: u32|
                    #[trigger] self.handles().contains_key(e) ==> (start.handles().contains_key(e)
                        || exists|j: int| 0 <= j < ins@.len() && ins@[j].0 == e),
                forall|e: u32| #[trigger] start.handles().contains_key(e) ==> self.handles().contains_key(e),
                forall|j: int| 0 <= j < i ==> self.handles().contains_key(#[trigger] live@[j]),
                forall|e: u32|
                    #[trigger] start.handles().contains_key(e) ==> self.handles()[e] == start.handles()[e],
            decreases live@.len() - i,
        {
            let e = live[i];
            if self.find(e).is_none() {
                let h = self.next_handle;
                let ghost before = *self;
                let ghost ins_before = ins@;
                self.entries.push((e, h));
                self.bound = Ghost(self.bound@.insert(e, h));
                self.next_handle = h + 1;
                ins.push((e, h));
                proof {
                    let n = before.entries@.len();
                    assert(self.entries@[n as int] == (e, h));
                    assert forall|a: int| 0 <= a < n implies #[trigger] self.entries@[a] == before.entries@[a] by {}
                    assert forall|a: int| 0 <= a < n implies (#[trigger] before.entries@[a]).0 != e by {
                        before.lemma_bound(before.entries@[a].0);
                    }
                    assert forall|e2: u32| #[trigger] self.bound@.contains_key(e2) implies exists|a: int|
                        0 <= a < self.entries@.len() && self.entries@[a].0 == e2 by {
                        if e2 != e {
                            let a = choose|a: int| 0 <= a < before.entries@.len() && before.entries@[a].0 == e2;
                            assert(self.entries@[a].0 == e2);
                        } else {
                            assert(self.entries@[n as int].0 == e2);
                        }
                    }
                    assert(self.wf());
                    assert(live@.contains(e)) by {
                        assert(live@[i as int] == e);
                    }
                    assert forall|e2: u32|
                        #[trigger] self.handles().contains_key(e2) implies (start.handles().contains_key(e2)
                            || exists|j: int| 0 <= j < ins@.len() && ins@[j].0 == e2) by {
                        if e2 == e {
                            assert(ins@[ins_before.len() as int].0 == e2);
                        } else if !start.handles().contains_key(e2) {
                            let j = choose|j: int| 0 <= j < ins_before.len() && ins_before[j].0 == e2;
                            assert(ins@[j] == ins_before[j]);
                        }
                    }
                    assert forall|j: int| 0 <= j < ins@.len() implies {
                        &&& (#[trigger] ins@[j]).1 == start.next() + j
                        &&& live@.contains(ins@[j].0)
                        &&& !start.handles().contains_key(ins@[j].0)
                        &&& self.handles().contains_key(ins@[j].0)
                        &&& self.handles()[ins@[j].0] == ins@[j].1
                    } by {
                        if j < ins_before.len() {
                            assert(ins@[j] == ins_before[j]);
                        }
                    }
                }
            }
            i = i + 1;
        }
        proof {
            assert forall|e: u32|
                #[trigger] self.handles().contains_key(e) <==> (start.handles().contains_key(e)
                    || live@.contains(e)) by {
                if live@.contains(e) {
                    let j = choose|j: int| 0 <= j < live@.len() && live@[j] == e;
                    assert(self.handles().contains_key(live@[j]));
                }
                if self.handles().contains_key(e) && !start.handles().contains_key(e) {
                    let j = choose|j: int| 0 <= j < ins@.len() && ins@[j].0 == e;
                    assert(live@.contains(ins@[j].0));
                }
            }
        }
        ins
    }

    /// Unbinds the entities in `removed` whose handle lies below `older_than`,
    /// returning their former bindings.
    fn drop_removed(&mut self, removed: &BitSet, older_than: u64) -> (rm: Vec<Binding>)
        requires
            old(self).wf(),
        ensures
            final(self).wf(),
            final(self).next() == old(self).next(),
            forall|p: Binding|
                #[trigger] rm@.contains(p) <==> (old(self).handles().contains_key(p.0) && old(self).handles()[p.0]
                    == p.1 && drops(*removed, older_than, p)),
            forall|e: u32|
                #[trigger] final(self).handles().contains_key(e) <==> (old(self).handles().contains_key(e)
                    && !drops(*removed, older_than, (e, old(self).handles()[e]))),
            forall|e: u32|
                #[trigger] final(self).handles().contains_key(e) ==> final(self).handles()[e] == old(self).handles()[e],
            forall|a: int, b: int| 0 <= a < b < rm@.len() ==> rm@[a].0 != rm@[b].0,
    {
        let ghost start = *self;
        let mut kept: Vec<Binding> = Vec::new();
        let mut rm: Vec<Binding> = Vec::new();
        let ghost mut kept_map: Map<u32, u64> = Map::empty();
        let mut k: usize = 0;
        while k < self.entries.len()
            invariant
                *self == start,
                start.wf(),
                k <= start.entries@.len(),
                forall|a: int|
                    0 <= a < kept@.len() ==> (exists|j: int| 0 <= j < k && start.entries@[j] == #[trigger] kept@[a])
                        && !drops(*removed, older_than, kept@[a]),
                forall|a: int, b: int| 0 <= a < b < kept@.len() ==> kept@[a].0 != kept@[b].0,
                forall|a: int, b: int| 0 <= a < b < kept@.len() ==> kept@[a].1 != kept@[b].1,
                forall|a: int|
                    0 <= a < kept@.len() ==> {
                        let (e, h) = #[trigger] kept@[a];
                        kept_map.contains_key(e) && kept_map[e] == h
                    },
                forall|e: u32|
                    #[trigger] kept_map.contains_key(e) ==> exists|a: int| 0 <= a < kept@.len() && kept@[a].0 == e,
                forall|j: int|
                    0 <= j < k && !drops(*removed, older_than, #[trigger] start.entries@[j])
                        ==> kept_map.contains_key(start.entries@[j].0),
                forall|a: int|
                    0 <= a < rm@.len() ==> (exists|j: int| 0 <= j < k && start.entries@[j] == #[trigger] rm@[a])
                        && drops(*removed, older_than, rm@[a]),
                forall|j: int|
                    0 <= j < k && drops(*removed, older_than, #[trigger] start.entries@[j])
                        ==> rm@.contains(start.entries@[j]),
                forall|a: int, b: int| 0 <= a < b < rm@.len() ==> rm@[a].0 != rm@[b].0,
            decreases start.entries@.len() - k,
        {
            let b = self.entries[k];
            let ghost kept_before = kept@;
            let ghost rm_before = rm@;
            proof {
                assert forall|j: int| 0 <= j < k implies (#[trigger] start.entries@[j]).0 != b.0 && start.entries@[j].1 != b.1 by {}
            }
            if b.1 < older_than && bitset_contains(removed, b.0) {
                rm.push(b);
                proof {
                    assert(rm@[rm_before.len() as int] == b);
                    assert forall|a: int| 0 <= a < rm_before.len() implies (#[trigger] rm@[a]).0 != b.0 by {
                        assert(rm@[a] == rm_before[a]);
                        assert(drops(*removed, older_than, rm_before[a]));
                        let j = choose|j: int| 0 <= j < k && start.entries@[j] == #[trigger] rm_before[a];
                    }
                    assert forall|j: int|
                        0 <= j < k + 1 && drops(*removed, older_than, #[trigger] start.entries@[j])
                            implies rm@.contains(start.entries@[j]) by {
                        if j < k {
                            let a = choose|a: int| 0 <= a < rm_before.len() && rm_before[a] == start.entries@[j];
                            assert(rm@[a] == rm_before[a]);
                        }
                    }
                }
            } else {
                kept.push(b);
                proof {
                    kept_map = kept_map.insert(b.0, b.1);
                    assert(kept@[kept_before.len() as int] == b);
                    assert forall|a: int| 0 <= a < kept_before.len() implies (#[trigger] kept@[a]).0 != b.0 && kept@[a].1 != b.1 by {
                        assert(kept@[a] == kept_before[a]);
                        let j = choose|j: int| 0 <= j < k && start.entries@[j] == #[trigger] kept_before[a];
                    }
                    assert forall|e: u32|
                        #[trigger] kept_map.contains_key(e) implies exists|a: int| 0 <= a < kept@.len() && kept@[a].0 == e by {
                        if e == b.0 {
                            assert(kept@[kept_before.len() as int].0 == e);
                        } else {
                            let a = choose|a: int| 0 <= a < kept_before.len() && kept_before[a].0 == e;
                            assert(kept@[a] == kept_before[a]);
                        }
                    }
                    assert forall|a: int|
                        0 <= a < kept@.len() implies (exists|j: int| 0 <= j < k + 1 && start.entries@[j] == #[trigger] kept@[a])
                            && !drops(*removed, older_than, kept@[a]) by {
                        if a < kept_before.len() {
                            assert(kept@[a] == kept_before[a]);
                        } else {
                            assert(start.entries@[k as int] == kept@[a]);
                        }
                    }
                }
            }
            k = k + 1;
        }
        proof {
            assert forall|a: int| 0 <= a < kept@.len() implies (#[trigger] kept@[a]).1 < start.next_handle by {
                assert(!drops(*removed, older_than, kept@[a]));
                let j = choose|j: int| 0 <= j < k && start.entries@[j] == #[trigger] kept@[a];
                assert(start.entries@[j].1 < start.next_handle);
            }
            assert forall|e: u32|
                #[trigger] kept_map.contains_key(e) <==> (start.handles().contains_key(e)
                    && !drops(*removed, older_than, (e, start.handles()[e]))) by {
                start.lemma_bound(e);
                if kept_map.contains_key(e) {
                    let a = choose|a: int| 0 <= a < kept@.len() && kept@[a].0 == e;
                    let j = choose|j: int| 0 <= j < k && start.entries@[j] == #[trigger] kept@[a];
                }
                if start.handles().contains_key(e) && !drops(*removed, older_than, (e, start.handles()[e])) {
                    let j = choose|j: int| 0 <= j < start.entries@.len() && #[trigger] start.entries@[j] == (e, start.handles()[e]);
                    assert(kept_map.contains_key(start.entries@[j].0));
                }
            }
            assert forall|e: u32| #[trigger] kept_map.contains_key(e) implies kept_map[e] == start.handles()[e] by {
                let a = choose|a: int| 0 <= a < kept@.len() && kept@[a].0 == e;
                let j = choose|j: int| 0 <= j < k && start.entries@[j] == #[trigger] kept@[a];
            }
            assert forall|p: Binding|
                #[trigger] rm@.contains(p) <==> (start.handles().contains_key(p.0) && start.handles()[p.0] == p.1
                    && drops(*removed, older_than, p)) by {
                start.lemma_bound(p.0);
                if rm@.contains(p) {
                    let a = choose|a: int| 0 <= a < rm@.len() && rm@[a] == p;
                    let j = choose|j: int| 0 <= j < k && start.entries@[j] == #[trigger] rm@[a];
                }
                if start.handles().contains_key(p.0) && start.handles()[p.0] == p.1
                    && drops(*removed, older_than, p) {
                    let j = choose|j: int| 0 <= j < start.entries@.len() && #[trigger] start.entries@[j] == (p.0, start.handles()[p.0]);
                    assert(start.entries@[j].0 == p.0);
                }
            }
        }
        self.entries = kept;
        self.bound = Ghost(kept_map);
        assert(self.wf()) by {
            assert forall|a: int| 0 <= a < self.entries@.len() implies {
                let (e, h) = #[trigger] self.entries@[a];
                &&& self.bound@.contains_key(e)
                &&& self.bound@[e] == h
                &&& h < self.next_handle
            } by {
                assert(kept@[a].1 < start.next_handle);
            }
        }
        rm
    }

    /// Reconciles the table with one tick's net changes of an attribute.
    /// `live` lists the entities that have both a presence and a pose.
    pub fn synchronize(&mut self, changes: &ChangeLog, live: &Vec<u32>) -> (plan: SyncPlan)
        requires
            old(self).wf(),
            changes.wf(),
            old(self).next() + live@.len() <= u64::MAX,
        ensures
            final(self).wf(),
            synchronized(
                old(self).handles(),
                old(self).next(),
                *changes,
                live@,
                final(self).handles(),
                final(self).next(),
                plan,
            ),
    {
        let (refresh, removed) = changes.partition();
        let updates = self.collect_updates(&refresh);
        let ghost start = *self;
        let older_than = self.next_handle;
        let inserts = self.insert_missing(live);
        let ghost mid = *self;
        let removes = self.drop_removed(&removed, older_than);
        let plan = SyncPlan { updates, inserts, removes };
        proof {
            let ins = plan.inserts@;
            start.lemma_wf_handles();
            assert forall|e: u32| #[trigger] mid.handles().contains_key(e) implies
                (mid.handles()[e] < start.next() <==> start.handles().contains_key(e)) by {
                if !start.handles().contains_key(e) {
                    let j = choose|j: int| 0 <= j < ins.len() && ins[j].0 == e;
                    assert(mid.handles()[ins[j].0] == ins[j].1);
                }
            }
            assert forall|p: Binding|
                (mid.handles().contains_key(p.0) && mid.handles()[p.0] == p.1) <==> ((start.handles().contains_key(p.0)
                    && start.handles()[p.0] == p.1) || ins.contains(p)) by {
                if ins.contains(p) {
                    let i = choose|i: int| 0 <= i < ins.len() && ins[i] == p;
                    assert(mid.handles()[ins[i].0] == ins[i].1);
                }
                if mid.handles().contains_key(p.0) && !start.handles().contains_key(p.0) {
                    let j = choose|j: int| 0 <= j < ins.len() && ins[j].0 == p.0;
                    assert(mid.handles()[ins[j].0] == ins[j].1);
                    if mid.handles()[p.0] == p.1 {
                        assert(ins[j] == p);
                    }
                }
            }
            assert forall|e: u32|
                #[trigger] live@.contains(e) && !start.handles().contains_key(e) implies exists|i: int|
                    0 <= i < ins.len() && ins[i].0 == e by {
                assert(mid.handles().contains_key(e));
            }
            assert forall|e: u32|
                #[trigger] self.handles().contains_key(e) && !start.handles().contains_key(e) implies ins.contains(
                (e, self.handles()[e])) by {
                let j = choose|j: int| 0 <= j < ins.len() && ins[j].0 == e;
                assert(mid.handles()[ins[j].0] == ins[j].1);
                assert(ins[j] == (e, self.handles()[e]));
            }
        }
        plan
    }
}

/// Running the synchronizer again in the same tick, with nothing recorded
/// since and the same live entities, plans no work, binds no handle and
/// leaves the table as it was. The one input it needs consistent: an
/// entity bound before the first run and reported removed in it is not
/// also listed as live.
pub proof fn lemma_resync_is_noop(
    t0: Map<u32, u64>,
    n0: u64,
    changes: ChangeLog,
    live: Seq<u32>,
    t1: Map<u32, u64>,
    n1: u64,
    first: SyncPlan,
    nothing: ChangeLog,
    t2: Map<u32, u64>,
    n2: u64,
    second: SyncPlan,
)
    requires
        synchronized(t0, n0, changes, live, t1, n1, first),
        synchronized(t1, n1, nothing, live, t2, n2, second),
        forall|e: u32| #[trigger] nothing.change_of(e) == ChangeType::Unchanged,
        forall|e: u32|
            #[trigger] live.contains(e) && t0.contains_key(e) ==> changes.change_of(e) != ChangeType::Removed,
    ensures
        second.updates@.len() == 0,
        second.inserts@.len() == 0,
        second.removes@.len() == 0,
        t2 == t1,
        n2 == n1,
{
    if second.updates@.len() > 0 {
        assert(second.updates@.contains(second.updates@[0]));
        assert(nothing.change_of(second.updates@[0].0) == ChangeType::Unchanged);
    }
    if second.inserts@.len() > 0 {
        let e = second.inserts@[0].0;
        assert(live.contains(e));
        assert(t1.contains_key(e));
    }
    if second.removes@.len() > 0 {
        assert(second.removes@.contains(second.removes@[0]));
        assert(nothing.change_of(second.removes@[0].0) == ChangeType::Unchanged);
    }
    assert forall|e: u32| #[trigger] t2.contains_key(e) == t1.contains_key(e) by {
        assert(nothing.change_of(e) == ChangeType::Unchanged);
        if live.contains(e) && t0.contains_key(e) {
            assert(changes.change_of(e) != ChangeType::Removed);
        }
    }
    assert(t2 =~= t1);
}

/// Once a synchronization drops the binding `(e, h)`, entity `e` is unbound,
/// and no later synchronization gives out handle `h` again, whatever entity
/// it binds.
pub proof fn lemma_removed_handle_never_reused(
    t0: Map<u32, u64>,
    n0: u64,
    changes: ChangeLog,
    live: Seq<u32>,
    t1: Map<u32, u64>,
    n1: u64,
    plan: SyncPlan,
    e: u32,
    h: u64,
    ta: Map<u32, u64>,
    na: u64,
    later_changes: ChangeLog,
    later_live: Seq<u32>,
    tb: Map<u32, u64>,
    nb: u64,
    later: SyncPlan,
)
    requires
        forall|x: u32| #[trigger] t0.contains_key(x) ==> t0[x] < n0,
        synchronized(t0, n0, changes, live, t1, n1, plan),
        plan.removes@.contains((e, h)),
        n1 <= na,
        synchronized(ta, na, later_changes, later_live, tb, nb, later),
    ensures
        !t1.contains_key(e),
        forall|p: Binding| #[trigger] later.inserts@.contains(p) ==> p.1 != h,
{
    assert(h < n1) by {
        if !(t0.contains_key(e) && t0[e] == h) {
            let i = choose|i: int| 0 <= i < plan.inserts@.len() && plan.inserts@[i] == (e, h);
            assert(plan.inserts@[i].1 == n0 + i);
        }
    }
    assert forall|p: Binding| #[trigger] later.inserts@.contains(p) implies p.1 != h by {
        let i = choose|i: int| 0 <= i < later.inserts@.len() && later.inserts@[i] == p;
        assert(later.inserts@[i].1 == na + i);
    }
}

} // verus!
