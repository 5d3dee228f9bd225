//! Shared state of one round of signal propagation.
use crate::entity_set::{
    empty_set, entity_set_ids, holds, ids_valid, is_entity_bits, lemma_inserted_valid, set_clear,
    set_ids, set_insert, set_is_empty, slot, EntitySet,
};
use crate::lazy_immutable::insert_all;
use vstd::prelude::*;

verus! {

/// The resource's sets, as sequences of entity ids.
pub struct ResourceView {
    pub triggered: Seq<u64>,
    pub running: Seq<u64>,
    pub next_running: Seq<u64>,
    pub processed: Seq<u64>,
    pub compute_stack: Seq<u64>,
    pub changed: Seq<u64>,
    pub dirty: Seq<u64>,
    pub deferred: Seq<u64>,
    pub effects: Seq<u64>,
}

/// Shared reactive context, aka global state.  It tracks long-running effects across ticks but
/// otherwise starts fresh each propagation round.
pub struct LazySignalsResource {
    /// Triggered entities (notify subscribers even if the value did not change).
    pub triggered: EntitySet,
    /// The currently running iteration.
    pub running: EntitySet,
    /// What will run after the end of the current iteration.
    pub next_running: EntitySet,
    /// Entities that have already been processed in this round.
    pub processed: EntitySet,
    /// The currently running computation.
    pub compute_stack: Vec<u64>,
    /// Signals and memos whose data actually changed.
    pub changed: EntitySet,
    /// Subscribers scheduled for re-evaluation.
    pub dirty: EntitySet,
    /// Effects to evaluate.
    pub deferred: EntitySet,
    /// Effects that are still running and should not be re-triggered.
    pub effects: EntitySet,
}

impl View for LazySignalsResource {
    type V = ResourceView;

    open spec fn view(&self) -> ResourceView {
        ResourceView {
            triggered: entity_set_ids(self.triggered),
            running: entity_set_ids(self.running),
            next_running: entity_set_ids(self.next_running),
            processed: entity_set_ids(self.processed),
            compute_stack: self.compute_stack@,
            changed: entity_set_ids(self.changed),
            dirty: entity_set_ids(self.dirty),
            deferred: entity_set_ids(self.deferred),
            effects: entity_set_ids(self.effects),
        }
    }
}

/// Every set of the resource holds valid, slot-distinct ids.
pub open spec fn resource_wf(r: ResourceView) -> bool {
    &&& ids_valid(r.triggered)
    &&& ids_valid(r.running)
    &&& ids_valid(r.next_running)
    &&& ids_valid(r.processed)
    &&& ids_valid(r.changed)
    &&& ids_valid(r.dirty)
    &&& ids_valid(r.deferred)
    &&& ids_valid(r.effects)
}

impl LazySignalsResource {
    /// A resource with every set empty.
    pub fn new() -> (r: Self)
        ensures
            r@ == fresh_resource(),
    {
        LazySignalsResource {
            triggered: empty_set(),
            running: empty_set(),
            next_running: empty_set(),
            processed: empty_set(),
            compute_stack: Vec::new(),
            changed: empty_set(),
            dirty: empty_set(),
            deferred: empty_set(),
            effects: empty_set(),
        }
    }

    /// Called at the start of each round: every set but `effects` is emptied.
    pub fn init(&mut self)
        ensures
            final(self)@ == (ResourceView { effects: old(self)@.effects, ..fresh_resource() }),
    {
        set_clear(&mut self.triggered);
        set_clear(&mut self.running);
        set_clear(&mut self.next_running);
        set_clear(&mut self.processed);
        self.compute_stack.clear();
        set_clear(&mut self.changed);
        set_clear(&mut self.dirty);
        set_clear(&mut self.deferred);
    }

    /// If there is a next running set, move it into the running set and empty it; true when
    /// there was one.
    pub fn merge_running(&mut self) -> (r: bool)
        requires
            ids_valid(old(self)@.running),
            ids_valid(old(self)@.next_running),
            old(self)@.running.len() + old(self)@.next_running.len() < usize::MAX,
        ensures
            r == (old(self)@.next_running.len() > 0),
            final(self)@ == (ResourceView {
                running: if r {
                    insert_all(old(self)@.running, old(self)@.next_running)
                } else {
                    old(self)@.running
                },
                next_running: Seq::empty(),
                ..old(self)@
            }),
    {
        merge_running(&mut self.running, &mut self.next_running)
    }
}

impl Default for LazySignalsResource {
    /// A resource with every set empty.
    fn default() -> (r: Self)
        ensures
            r@ == fresh_resource(),
    {
        LazySignalsResource::new()
    }
}

/// The resource with every set empty.
pub open spec fn fresh_resource() -> ResourceView {
    ResourceView {
        triggered: Seq::empty(),
        running: Seq::empty(),
        next_running: Seq::empty(),
        processed: Seq::empty(),
        compute_stack: Seq::empty(),
        changed: Seq::empty(),
        dirty: Seq::empty(),
        deferred: Seq::empty(),
        effects: Seq::empty(),
    }
}

/// If `next_running` holds anything, move it into `running` and empty it; true when it did.
pub fn merge_running(running: &mut EntitySet, next_running: &mut EntitySet) -> (r: bool)
    requires
        ids_valid(entity_set_ids(*old(running))),
        ids_valid(entity_set_ids(*old(next_running))),
        entity_set_ids(*old(running)).len() + entity_set_ids(*old(next_running)).len()
            < usize::MAX,
    ensures
        r == (entity_set_ids(*old(next_running)).len() > 0),
        entity_set_ids(*final(running)) == if r {
            insert_all(entity_set_ids(*old(running)), entity_set_ids(*old(next_running)))
        } else {
            entity_set_ids(*old(running))
        },
        entity_set_ids(*final(next_running)) == Seq::<u64>::empty(),
{
    if set_is_empty(next_running) {
        false
    } else {
        let ids = set_ids(next_running);
        insert_ids(running, &ids);
        set_clear(next_running);
        true
    }
}

/// Insert each id of `ids`, in order.
pub fn insert_ids(set: &mut EntitySet, ids: &Vec<u64>)
    requires
        ids_valid(entity_set_ids(*old(set))),
        forall|k: int| 0 <= k < ids@.len() ==> is_entity_bits(#[trigger] ids@[k]),
        entity_set_ids(*old(set)).len() + ids@.len() < usize::MAX,
    ensures
        entity_set_ids(*final(set)) == insert_all(entity_set_ids(*old(set)), ids@),
        ids_valid(entity_set_ids(*final(set))),
{
    let ghost start = entity_set_ids(*set);
    let mut i: usize = 0;
    while i < ids.len()
        invariant
            0 <= i <= ids.len(),
            ids_valid(start),
            forall|k: int| 0 <= k < ids@.len() ==> is_entity_bits(#[trigger] ids@[k]),
            start.len() + ids@.len() < usize::MAX,
            entity_set_ids(*set) == insert_all(start, ids@.take(i as int)),
            ids_valid(entity_set_ids(*set)),
        decreases ids.len() - i,
    {
        proof {
            let pre = ids@.take(i as int);
            assert forall|k: int| 0 <= k < pre.len() implies is_entity_bits(#[trigger] pre[k]) by {
                assert(pre[k] == ids@[k]);
            }
            crate::lazy_immutable::lemma_insert_all(start, pre);
            assert(ids@.take(i + 1).drop_last() == pre);
            assert(ids@.take(i + 1).last() == ids@[i as int]);
            lemma_inserted_valid(entity_set_ids(*set), ids@[i as int]);
        }
        set_insert(set, ids[i]);
        i = i + 1;
    }
    proof {
        assert(ids@.take(i as int) == ids@);
    }
}

} // verus!
