//! Change records: the net effect of the insert / modify / remove events that
//! one tracked attribute emitted since the previous synchronization.
use vstd::prelude::*;

use std::collections::BTreeMap;

use hibitset::BitSet;
use vstd::std_specs::btree::axiom_spec_keys_iter;
use vstd::std_specs::iter::IteratorSpec;

use crate::bitset::{bitset_add, bitset_contains, bitset_members, bitset_new};

verus! {

broadcast use {vstd::std_specs::btree::group_btree_axioms, vstd::laws_cmp::group_laws_cmp};

/// Largest entity index (exclusive) that a change record or a bit set can hold.
pub const ENTITY_LIMIT: u32 = 1048576;

/// Net effect of the mutations of one attribute of one entity.
#[derive(Clone, Copy, Debug, PartialEq, Eq, Structural)]
pub enum ChangeType {
    Unchanged,
    Inserted,
    Modified,
    Removed,
}

/// One mutation event of a tracked attribute, carrying the entity index.
#[derive(Clone, Copy, Debug, PartialEq, Eq, Structural)]
pub enum ComponentEvent {
    Inserted(u32),
    Modified(u32),
    Removed(u32),
}

/// Why a stream of events could not be collapsed.
#[derive(Clone, Copy, Debug, PartialEq, Eq, Structural)]
pub enum ChangeError {
    /// The event at `position` cannot follow the net change accumulated
    /// before it for its entity (an insert over a live attribute, or a
    /// modification or removal of an already removed one).
    BadCombination { position: usize },
}

/// Whether `second` may follow `first` for the same entity.
pub open spec fn can_combine(first: ChangeType, second: ChangeType) -> bool {
    match (first, second) {
        (ChangeType::Inserted, ChangeType::Inserted) => false,
        (ChangeType::Modified, ChangeType::Inserted) => false,
        (ChangeType::Removed, ChangeType::Modified) => false,
        (ChangeType::Removed, ChangeType::Removed) => false,
        _ => true,
    }
}

/// The net change of `first` followed by `second`.
pub open spec fn combine(first: ChangeType, second: ChangeType) -> ChangeType {
    match (first, second) {
        (ChangeType::Unchanged, x) => x,
        (x, ChangeType::Unchanged) => x,
        (ChangeType::Inserted, ChangeType::Modified) => ChangeType::Inserted,
        (ChangeType::Inserted, ChangeType::Removed) => ChangeType::Unchanged,
        (ChangeType::Removed, ChangeType::Inserted) => ChangeType::Modified,
        (ChangeType::Modified, ChangeType::Removed) => ChangeType::Removed,
        (x, _) => x,
    }
}

pub open spec fn event_kind(ev: ComponentEvent) -> ChangeType {
    match ev {
        ComponentEvent::Inserted(_) => ChangeType::Inserted,
        ComponentEvent::Modified(_) => ChangeType::Modified,
        ComponentEvent::Removed(_) => ChangeType::Removed,
    }
}

pub open spec fn event_entity(ev: ComponentEvent) -> u32 {
    match ev {
        ComponentEvent::Inserted(i) => i,
        ComponentEvent::Modified(i) => i,
        ComponentEvent::Removed(i) => i,
    }
}

/// Net change of entity `e` over a stream of events, folded from the front.
pub open spec fn net_change(events: Seq<ComponentEvent>, e: u32) -> ChangeType
    decreases events.len(),
{
    if events.len() == 0 {
        ChangeType::Unchanged
    } else {
        let prev = net_change(events.drop_last(), e);
        if event_entity(events.last()) == e {
            combine(prev, event_kind(events.last()))
        } else {
            prev
        }
    }
}

/// The event at position `i` may follow the events before it.
pub open spec fn event_fits(events: Seq<ComponentEvent>, i: int) -> bool {
    can_combine(net_change(events.take(i), event_entity(events[i])), event_kind(events[i]))
}

/// Every event of the stream may follow the events before it.
pub open spec fn stream_valid(events: Seq<ComponentEvent>) -> bool {
    forall|i: int| 0 <= i < events.len() ==> #[trigger] event_fits(events, i)
}

impl ChangeType {
    /// The net change of `self` followed by `other`.
    pub fn and(self, other: ChangeType) -> (r: ChangeType)
        requires
            can_combine(self, other),
        ensures
            r == combine(self, other),
    {
        match (self, other) {
            (ChangeType::Unchanged, x) => x,
            (x, ChangeType::Unchanged) => x,
            (ChangeType::Inserted, ChangeType::Modified) => ChangeType::Inserted,
            (ChangeType::Inserted, ChangeType::Removed) => ChangeType::Unchanged,
            (ChangeType::Removed, ChangeType::Inserted) => ChangeType::Modified,
            (ChangeType::Modified, ChangeType::Removed) => ChangeType::Removed,
            (x, _) => x,
        }
    }

    /// Whether `other` may follow `self`.
    pub fn combines_with(self, other: ChangeType) -> (r: bool)
        ensures
            r == can_combine(self, other),
    {
        match (self, other) {
            (ChangeType::Inserted, ChangeType::Inserted) => false,
            (ChangeType::Modified, ChangeType::Inserted) => false,
            (ChangeType::Removed, ChangeType::Modified) => false,
            (ChangeType::Removed, ChangeType::Removed) => false,
            _ => true,
        }
    }

    /// Folds `other` into `self`.
    pub fn add_change(&mut self, other: ChangeType)
        requires
            can_combine(*old(self), other),
        ensures
            *final(self) == combine(*old(self), other),
    {
        *self = self.and(other);
    }

    /// The kind of change that an event records.
    pub fn of(change: ComponentEvent) -> (r: ChangeType)
        ensures
            r == event_kind(change),
    {
        match change {
            ComponentEvent::Inserted(_) => ChangeType::Inserted,
            ComponentEvent::Modified(_) => ChangeType::Modified,
            ComponentEvent::Removed(_) => ChangeType::Removed,
        }
    }

    /// Whether the entity must have its collision object refreshed.
    pub fn is_inserted_or_modified(self) -> (r: bool)
        ensures
            r == (self == ChangeType::Inserted || self == ChangeType::Modified),
    {
        match self {
            ChangeType::Inserted | ChangeType::Modified => true,
            _ => false,
        }
    }

    /// Whether the entity lost the attribute.
    pub fn is_removed(self) -> (r: bool)
        ensures
            r == (self == ChangeType::Removed),
    {
        match self {
            ChangeType::Removed => true,
            _ => false,
        }
    }
}

impl Default for ChangeType {
    fn default() -> (r: ChangeType)
        ensures
            r == ChangeType::Unchanged,
    {
        ChangeType::Unchanged
    }
}

impl ComponentEvent {
    /// The entity index that the event is about.
    pub fn idx(self) -> (r: u32)
        ensures
            r == event_entity(self),
    {
        match self {
            ComponentEvent::Inserted(idx) => idx,
            ComponentEvent::Modified(idx) => idx,
            ComponentEvent::Removed(idx) => idx,
        }
    }
}

/// Net change per entity of one attribute, collapsed from an event stream.
pub struct ChangeLog {
    changes: BTreeMap<u32, ChangeType>,
}

impl ChangeLog {
    /// Every entity recorded lies below `ENTITY_LIMIT`.
    pub closed spec fn wf(&self) -> bool {
        forall|e: u32| #[trigger] self.changes@.contains_key(e) ==> e < ENTITY_LIMIT
    }

    /// The net change recorded for entity `e` (`Unchanged` where none is).
    pub closed spec fn change_of(&self, e: u32) -> ChangeType {
        if self.changes@.contains_key(e) {
            self.changes@[e]
        } else {
            ChangeType::Unchanged
        }
    }

    /// A log in which nothing changed.
    pub fn new() -> (r: ChangeLog)
        ensures
            r.wf(),
            forall|e: u32| r.change_of(e) == ChangeType::Unchanged,
    {
        ChangeLog { changes: BTreeMap::new() }
    }

    /// The net change recorded for entity `e`.
    pub fn get(&self, e: u32) -> (r: ChangeType)
        ensures
            r == self.change_of(e),
    {
        match self.changes.get(&e) {
            Some(c) => *c,
            None => ChangeType::Unchanged,
        }
    }

    /// Collapses a stream of events into the net change of each entity.
    /// Fails at the first event that cannot follow the ones before it.
    pub fn from_events(events: &Vec<ComponentEvent>) -> (r: Result<ChangeLog, ChangeError>)
        requires
            forall|i: int| 0 <= i < events@.len() ==> event_entity(#[trigger] events@[i]) < ENTITY_LIMIT,
        ensures
            r.is_ok() == stream_valid(events@),
            match r {
                Ok(log) => log.wf() && forall|e: u32| log.change_of(e) == net_change(events@, e),
                Err(ChangeError::BadCombination { position }) => {
                    &&& position < events@.len()
                    &&& !event_fits(events@, position as int)
                    &&& forall|j: int| 0 <= j < position ==> event_fits(events@, j)
                },
            },
    {
        let mut log = ChangeLog::new();
        let mut i: usize = 0;
        while i < events.len()
            invariant
                i <= events@.len(),
                log.wf(),
                forall|j: int| 0 <= j < i ==> event_fits(events@, j),
                forall|e: u32| log.change_of(e) == net_change(events@.take(i as int), e),
                forall|j: int| 0 <= j < events@.len() ==> event_entity(#[trigger] events@[j]) < ENTITY_LIMIT,
            decreases events@.len() - i,
        {
            let ev = events[i];
            let e = ev.idx();
            let kind = ChangeType::of(ev);
            let ghost prefix = events@.take(i as int);
            let ghost next = events@.take(i as int + 1);
            assert(next.drop_last() =~= prefix);
            assert(next.last() == ev);
            let cur = log.get(e);
            assert(cur == net_change(prefix, e));
            if !cur.combines_with(kind) {
                assert(!event_fits(events@, i as int));
                return Err(ChangeError::BadCombination { position: i });
            }
            let ghost before = log;
            log.changes.insert(e, cur.and(kind));
            proof {
                assert forall|x: u32| log.change_of(x) == net_change(next, x) by {
                    assert(before.change_of(x) == net_change(prefix, x));
                    assert(net_change(next, x) == (if x == e {
                        combine(net_change(prefix, x), kind)
                    } else {
                        net_change(prefix, x)
                    }));
                }
            }
            assert(event_fits(events@, i as int));
            i = i + 1;
        }
        assert(events@.take(i as int) =~= events@);
        Ok(log)
    }

    /// Splits the log into the entities whose collision object must be
    /// refreshed (net `Inserted` or `Modified`) and those that lost the
    /// attribute (net `Removed`).
    pub fn partition(&self) -> (r: (BitSet, BitSet))
        requires
            self.wf(),
        ensures
            forall|e: u32|
                #[trigger] bitset_members(r.0).contains(e) == (self.change_of(e) == ChangeType::Inserted
                    || self.change_of(e) == ChangeType::Modified),
            forall|e: u32|
                #[trigger] bitset_members(r.1).contains(e) == (self.change_of(e) == ChangeType::Removed),
    {
        let mut refresh = bitset_new();
        let mut removed = bitset_new();
        let keys = self.changes.keys();
        proof {
            axiom_spec_keys_iter(&self.changes);
        }
        let ghost all = keys.remaining();
        for k in it: keys
            invariant
                self.wf(),
                it.seq() == all,
                all.unref().to_set() == self.changes@.dom(),
                forall|e: u32|
                    #[trigger] bitset_members(refresh).contains(e) ==> (self.change_of(e) == ChangeType::Inserted
                        || self.change_of(e) == ChangeType::Modified),
                forall|e: u32|
                    #[trigger] bitset_members(removed).contains(e) ==> self.change_of(e) == ChangeType::Removed,
                forall|j: int|
                    0 <= j < it.index() ==> {
                        let e = *#[trigger] all[j];
                        &&& (self.change_of(e) == ChangeType::Inserted || self.change_of(e) == ChangeType::Modified)
                            ==> bitset_members(refresh).contains(e)
                        &&& self.change_of(e) == ChangeType::Removed ==> bitset_members(removed).contains(e)
                    },
        {
            let e = *k;
            proof {
                assert(all.unref()[it.index() as int] == e);
                assert(all.unref().to_set().contains(e));
            }
            let c = self.get(e);
            if c.is_inserted_or_modified() {
                bitset_add(&mut refresh, e);
            } else if c.is_removed() {
                bitset_add(&mut removed, e);
            }
        }
        proof {
            assert forall|e: u32| self.changes@.contains_key(e) implies
                (bitset_members(refresh).contains(e) == (self.change_of(e) == ChangeType::Inserted
                    || self.change_of(e) == ChangeType::Modified))
                && (bitset_members(removed).contains(e) == (self.change_of(e) == ChangeType::Removed)) by {
                assert(all.unref().to_set().contains(e));
                let j = choose|j: int| 0 <= j < all.len() && all.unref()[j] == e;
                assert(*all[j] == e);
            }
        }
        (refresh, removed)
    }
}

} // verus!
