//! The cell of the propagator network: a value, a pending next value and the subscribers to
//! notify when it changes.
use crate::entity_set::{
    empty_set, entity_set_ids, holds, ids_valid, inserted, is_entity_bits, lemma_inserted_valid,
    set_clear, set_ids, set_insert, slot, EntitySet,
};
use crate::framework::{
    duplicate_option, option_view, placeholder, LazySignalsData, LazySignalsError,
    LazySignalsResult, LazySignalsVec,
};
use vstd::prelude::*;

verus! {

/// Return type for a list of entities and two flags (changed, triggered).
pub type MaybeFlaggedEntities = Option<(LazySignalsVec, bool, bool)>;

/// What a cell holds, as mathematical values.
pub struct CellView<V> {
    pub data: LazySignalsResult<V>,
    pub next_value: LazySignalsResult<V>,
    pub triggered: bool,
    pub subscribers: Seq<u64>,
    pub next_subscribers: Seq<u64>,
}

/// A LazySignalsState is a cell in a propagator network: it holds the data of a state or the
/// memoized result of a computed.  It is mutated by sending it a signal: `merge_next` stores the
/// next value, and a later `merge` applies it and hands back the subscribers to notify.
pub struct LazySignalsState<T> {
    data: LazySignalsResult<T>,
    next_value: LazySignalsResult<T>,
    triggered: bool,
    subscribers: EntitySet,
    next_subscribers: EntitySet,
}

impl<T: View> View for LazySignalsState<T> {
    type V = CellView<T::V>;

    closed spec fn view(&self) -> CellView<T::V> {
        CellView {
            data: self.data@,
            next_value: self.next_value@,
            triggered: self.triggered,
            subscribers: entity_set_ids(self.subscribers),
            next_subscribers: entity_set_ids(self.next_subscribers),
        }
    }
}

/// Both subscriber lists hold valid, slot-distinct entity ids.
pub open spec fn cell_wf<V>(c: CellView<V>) -> bool {
    ids_valid(c.subscribers) && ids_valid(c.next_subscribers)
}

/// The ids of `ids` after inserting each id of `more`, in order.
pub open spec fn insert_all(ids: Seq<u64>, more: Seq<u64>) -> Seq<u64>
    decreases more.len(),
{
    if more.len() == 0 {
        ids
    } else {
        inserted(insert_all(ids, more.drop_last()), more.last())
    }
}

/// Merging reports a change: the next value is an actual value that differs from the data
/// (or the data is not a value at all).
pub open spec fn merge_changed<V>(c: CellView<V>) -> bool {
    c.next_value.is_value() && !(c.data.is_value() && c.data.data == c.next_value.data)
}

/// Merging notifies the subscribers: the cell was triggered, the value changed, or the next
/// value is a real error.
pub open spec fn merge_notifies<V>(c: CellView<V>) -> bool {
    c.triggered || merge_changed(c) || c.next_value.is_fault()
}

/// The cell after a merge: when it notifies, the data takes the next value (unless that is the
/// "no next value" placeholder, which never clobbers the data), nothing is pending any more, the
/// trigger is reset and the subscribers are handed back.
pub open spec fn merged<V>(c: CellView<V>) -> CellView<V> {
    if merge_notifies(c) {
        CellView {
            data: if c.next_value.is_placeholder() {
                c.data
            } else {
                c.next_value
            },
            next_value: placeholder(),
            triggered: false,
            subscribers: Seq::empty(),
            next_subscribers: c.next_subscribers,
        }
    } else {
        c
    }
}

/// The subscribers a merge hands back for notification.
pub open spec fn merge_notified<V>(c: CellView<V>) -> Seq<u64> {
    if merge_notifies(c) {
        c.subscribers
    } else {
        Seq::empty()
    }
}

/// The cell after `merge_next(next, triggered)`.
pub open spec fn with_next<V>(c: CellView<V>, next: LazySignalsResult<V>, triggered: bool) -> CellView<
    V,
> {
    CellView { next_value: next, triggered, ..c }
}

/// The cell after `subscribe(entity)`.
pub open spec fn with_subscriber<V>(c: CellView<V>, entity: u64) -> CellView<V> {
    CellView { next_subscribers: inserted(c.next_subscribers, entity), ..c }
}

/// The cell after `merge_subscribers()`.
pub open spec fn with_merged_subscribers<V>(c: CellView<V>) -> CellView<V> {
    CellView {
        subscribers: insert_all(c.subscribers, c.next_subscribers),
        next_subscribers: Seq::empty(),
        ..c
    }
}

/// Inserting a list keeps ids valid; an id is held afterwards iff it was held before or its slot
/// is held by the list; the length grows by at most the list's length.
pub proof fn lemma_insert_all(ids: Seq<u64>, more: Seq<u64>)
    requires
        ids_valid(ids),
        forall|i: int| 0 <= i < more.len() ==> is_entity_bits(#[trigger] more[i]),
    ensures
        ids_valid(insert_all(ids, more)),
        forall|x: u64| holds(insert_all(ids, more), x) <==> (holds(ids, x) || holds(more, x)),
        insert_all(ids, more).len() <= ids.len() + more.len(),
    decreases more.len(),
{
    if more.len() > 0 {
        let prev = more.drop_last();
        assert forall|i: int| 0 <= i < prev.len() implies is_entity_bits(#[trigger] prev[i]) by {
            assert(prev[i] == more[i]);
        }
        lemma_insert_all(ids, prev);
        lemma_inserted_valid(insert_all(ids, prev), more.last());
        assert forall|x: u64|
            holds(insert_all(ids, more), x) <==> (holds(ids, x) || holds(more, x)) by {
            if holds(prev, x) {
                let i = choose|i: int| 0 <= i < prev.len() && slot(prev[i]) == slot(x);
                assert(slot(more[i]) == slot(x));
            }
            if holds(more, x) {
                let i = choose|i: int| 0 <= i < more.len() && slot(more[i]) == slot(x);
                if i < prev.len() {
                    assert(slot(prev[i]) == slot(x));
                }
            }
            if slot(x) == slot(more.last()) {
                assert(slot(more[more.len() - 1]) == slot(x));
            }
        }
    }
}

impl<T: LazySignalsData> LazySignalsState<T> {
    /// A cell holding `data` with nothing pending and no subscribers.
    pub fn new(data: LazySignalsResult<T>) -> (r: Self)
        ensures
            r@ == (CellView {
                data: data@,
                next_value: placeholder(),
                triggered: false,
                subscribers: Seq::empty(),
                next_subscribers: Seq::empty(),
            }),
            cell_wf(r@),
    {
        LazySignalsState {
            data,
            next_value: LazySignalsResult { data: None, error: Some(LazySignalsError::NoNextValue) },
            triggered: false,
            subscribers: empty_set(),
            next_subscribers: empty_set(),
        }
    }

    /// Provide a new value for the lazy update system to merge (the last one sent wins).
    pub fn merge_next(&mut self, next_value: LazySignalsResult<T>, triggered: bool)
        ensures
            final(self)@ == with_next(old(self)@, next_value@, triggered),
    {
        self.next_value = next_value;
        self.triggered = triggered;
    }

    /// Immediately replace the data without notifying subscribers; true when it differs.
    pub fn update(&mut self, next: LazySignalsResult<T>) -> (changed: bool)
        ensures
            changed == (old(self)@.data != next@),
            final(self)@ == (CellView { data: next@, ..old(self)@ }),
    {
        let changed = !self.data.same_result(&next);
        self.data = next;
        changed
    }

    /// The current data.
    pub fn value(&self) -> (r: LazySignalsResult<T>)
        ensures
            r@ == self@.data,
    {
        self.data.duplicate()
    }

    /// The current data value, if any.
    pub fn get(&self) -> (r: Option<T>)
        ensures
            option_view(r) == self@.data.data,
    {
        duplicate_option(&self.data.data)
    }

    /// The current error, if any.
    pub fn error(&self) -> (r: Option<LazySignalsError>)
        ensures
            r == self@.data.error,
    {
        self.data.error
    }

    /// The argument for a closure that reads this cell; the caller subscribes for later.
    pub fn copy_data(&mut self, caller: u64) -> (r: Option<T>)
        requires
            is_entity_bits(caller),
            old(self)@.next_subscribers.len() < usize::MAX,
        ensures
            option_view(r) == old(self)@.data.arg(),
            final(self)@ == with_subscriber(old(self)@, caller),
    {
        let r = self.data.to_arg();
        self.subscribe(caller);
        r
    }

    /// The subscribers that may need notification.
    pub fn get_subscribers(&self) -> (r: Vec<u64>)
        ensures
            r@ == self@.subscribers,
    {
        set_ids(&self.subscribers)
    }

    /// Hand back the subscribers and forget them: a subscriber is notified once per change and
    /// subscribes again when it next reads the cell.
    pub fn take_subscribers(&mut self) -> (r: Vec<u64>)
        ensures
            r@ == old(self)@.subscribers,
            final(self)@ == (CellView { subscribers: Seq::empty(), ..old(self)@ }),
    {
        let r = set_ids(&self.subscribers);
        set_clear(&mut self.subscribers);
        r
    }

    /// Merge the next value (see `merged`) and hand back the subscribers to notify together with
    /// whether the value changed and whether the cell was triggered.
    pub fn merge(&mut self) -> (r: MaybeFlaggedEntities)
        ensures
            r matches Some((subs, changed, triggered)) && subs.0@ == merge_notified(old(self)@)
                && changed == merge_changed(old(self)@) && triggered == old(self)@.triggered,
            final(self)@ == merged(old(self)@),
    {
        let mut changed = false;
        let triggered = self.triggered;
        let mut doo_eet = triggered;
        let mut keep_data = false;
        let mut subs = LazySignalsVec::new();

        match (&self.next_value.data, &self.next_value.error) {
            (Some(next), None) => {
                match (&self.data.data, &self.data.error) {
                    (Some(data), None) => {
                        if !data.same_value(next) {
                            changed = true;
                            doo_eet = true;
                        }
                    },
                    _ => {
                        changed = true;
                        doo_eet = true;
                    },
                }
            },
            (_, Some(LazySignalsError::NoNextValue)) => {
                // the placeholder never clobbers the data
                doo_eet = triggered;
                keep_data = true;
            },
            (_, Some(_)) => {
                doo_eet = true;
            },
            (None, None) => {
                changed = false;
                doo_eet = changed || triggered;
            },
        }

        if doo_eet {
            if !keep_data {
                self.data = self.next_value.duplicate();
            }
            self.next_value = LazySignalsResult {
                data: None,
                error: Some(LazySignalsError::NoNextValue),
            };
        }
        if doo_eet || triggered {
            subs = LazySignalsVec(self.get_subscribers());
            set_clear(&mut self.subscribers);
            self.triggered = false;
        }
        Some((subs, changed, triggered))
    }

    /// Move the pending subscribers into the subscriber set.
    pub fn merge_subscribers(&mut self)
        requires
            cell_wf(old(self)@),
            old(self)@.subscribers.len() + old(self)@.next_subscribers.len() < usize::MAX,
        ensures
            final(self)@ == with_merged_subscribers(old(self)@),
            cell_wf(final(self)@),
    {
        let ids = set_ids(&self.next_subscribers);
        let ghost start = self.subscribers;
        let mut i: usize = 0;
        while i < ids.len()
            invariant
                0 <= i <= ids.len(),
                ids@ == entity_set_ids(self.next_subscribers),
                ids_valid(ids@),
                ids_valid(entity_set_ids(start)),
                entity_set_ids(self.subscribers) == insert_all(
                    entity_set_ids(start),
                    ids@.take(i as int),
                ),
                entity_set_ids(start).len() + ids.len() < usize::MAX,
                self.data == old(self).data,
                self.next_value == old(self).next_value,
                self.triggered == old(self).triggered,
                start == old(self).subscribers,
                self.next_subscribers == old(self).next_subscribers,
            decreases ids.len() - i,
        {
            proof {
                let pre = ids@.take(i as int);
                assert forall|k: int| 0 <= k < pre.len() implies is_entity_bits(#[trigger] pre[k]) by {
                    assert(pre[k] == ids@[k]);
                }
                lemma_insert_all(entity_set_ids(start), pre);
                assert(ids@.take(i + 1).drop_last() == pre);
            }
            set_insert(&mut self.subscribers, ids[i]);
            i = i + 1;
        }
        proof {
            assert(ids@.take(i as int) == ids@);
            assert forall|k: int| 0 <= k < ids@.len() implies is_entity_bits(#[trigger] ids@[k]) by {}
            lemma_insert_all(entity_set_ids(start), ids@);
        }
        set_clear(&mut self.next_subscribers);
    }

    /// Subscribe an entity: it joins the pending subscribers.
    pub fn subscribe(&mut self, entity: u64)
        requires
            is_entity_bits(entity),
            old(self)@.next_subscribers.len() < usize::MAX,
        ensures
            final(self)@ == with_subscriber(old(self)@, entity),
    {
        set_insert(&mut self.next_subscribers, entity);
    }
}

} // verus!
