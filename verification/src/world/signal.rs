//! The signal system: merge every sent signal and walk the subscriber tree, scheduling the
//! computeds and effects that depend on what changed or was triggered.
use super::{
    all_node_ids, entity_id, index_of, is_node_id, lemma_holds_inserted_node,
    lemma_holds_take_node, lemma_node_slots, lemma_same_cells_wf, lemma_wf_cell, lemma_wf_resource,
    resource_node_ids, world_wf, LazySignalsWorld, Markers, NodeView, WorldView, ENTITY_BASE,
    MAX_ENTITIES,
};
use crate::entity_set::{
    holds, ids_valid, inserted, set_clear, set_contains, set_ids, set_insert, slot,
};
use crate::framework::{LazySignalsData, LazySignalsVec};
use crate::lazy_immutable::{lemma_insert_all, merge_changed, merge_notified, merged, CellView};
use crate::resource::{insert_ids, resource_wf};
use vstd::prelude::*;

verus! {

/// The entity was sent a signal: it is marked SendSignal and has a cell.
pub open spec fn is_sent<V>(n: NodeView<V>) -> bool {
    n.markers.send_signal && n.state is Some
}

/// The entity after its signal (if any) is merged: the cell is merged, the SendSignal marker is
/// removed and ValueChanged is added when the merge reports a change.
pub open spec fn merged_node<V>(n: NodeView<V>) -> NodeView<V> {
    if is_sent(n) {
        let c = n.state.unwrap();
        NodeView {
            state: Some(merged(c)),
            markers: Markers {
                send_signal: false,
                value_changed: n.markers.value_changed || merge_changed(c),
                ..n.markers
            },
            ..n
        }
    } else {
        n
    }
}

/// Merging the signal of entity `i` notifies `s`.
pub open spec fn root_from<V>(w: WorldView<V>, i: int, s: u64) -> bool {
    &&& 0 <= i < w.nodes.len()
    &&& is_sent(w.nodes[i])
    &&& holds(merge_notified(w.nodes[i].state.unwrap()), s)
}

/// Merging some sent signal notifies `s`.
pub open spec fn is_root<V>(w: WorldView<V>, s: u64) -> bool {
    exists|i: int| #[trigger] root_from(w, i, s)
}

/// Merging some sent and triggered signal notifies `s`.
pub open spec fn is_triggered_root<V>(w: WorldView<V>, s: u64) -> bool {
    exists|i: int| #[trigger] root_from(w, i, s) && w.nodes[i].state.unwrap().triggered
}

/// Entity `x` was sent a signal whose merge reports a change.
pub open spec fn reports_change<V>(w: WorldView<V>, x: u64) -> bool {
    &&& is_node_id(x, w.nodes.len() as int)
    &&& is_sent(w.nodes[index_of(x)])
    &&& merge_changed(w.nodes[index_of(x)].state.unwrap())
}

/// Computed `c` passes notification on to `s`: `s` subscribes to `c` once signals are merged.
pub open spec fn notifies<V>(w: WorldView<V>, c: u64, s: u64) -> bool {
    &&& is_node_id(c, w.nodes.len() as int)
    &&& w.nodes[index_of(c)].computed is Some
    &&& holds(merged_node(w.nodes[index_of(c)]).state.unwrap().subscribers, s)
}

pub open spec fn path_step<V>(w: WorldView<V>, p: Seq<u64>, k: int) -> bool {
    notifies(w, p[k], p[k + 1])
}

/// A chain of notifications that starts at a merged signal.
pub open spec fn is_path<V>(w: WorldView<V>, p: Seq<u64>) -> bool {
    &&& p.len() > 0
    &&& is_root(w, p[0])
    &&& forall|k: int| 0 <= k < p.len() - 1 ==> #[trigger] path_step(w, p, k)
}

/// Notification reaches `s` from some sent signal.
pub open spec fn reachable<V>(w: WorldView<V>, s: u64) -> bool {
    exists|p: Seq<u64>| #[trigger] is_path(w, p) && p.last() == s
}

/// A chain of notifications that starts at a direct subscriber of a triggered signal.
pub open spec fn is_trigger_path<V>(w: WorldView<V>, p: Seq<u64>) -> bool {
    &&& p.len() > 0
    &&& is_triggered_root(w, p[0])
    &&& forall|k: int| 0 <= k < p.len() - 1 ==> #[trigger] path_step(w, p, k)
}

/// A trigger reaches `s`: a triggered computed triggers everything down its subscriber tree.
pub open spec fn trigger_reachable<V>(w: WorldView<V>, s: u64) -> bool {
    exists|p: Seq<u64>| #[trigger] is_trigger_path(w, p) && p.last() == s
}

/// Entity `j` of `w2` is entity `j` of `w` after the signal system: merged, and, when
/// notification reaches it, marked Dirty, ComputeMemo (computeds, whose subscribers are handed
/// on and removed) and DeferredEffect (effects); marked Triggered when a trigger reaches it.
pub open spec fn propagated_node<V>(w: WorldView<V>, w2: WorldView<V>, j: int) -> bool {
    let n = w.nodes[j];
    let m = merged_node(n);
    let n2 = w2.nodes[j];
    let x = entity_id(j);
    let r = reachable(w, x);
    &&& n2.computed == n.computed
    &&& n2.effect == n.effect
    &&& n2.state == if r && n.computed is Some {
        Some(CellView { subscribers: Seq::empty(), ..m.state.unwrap() })
    } else {
        m.state
    }
    &&& n2.markers == Markers {
        dirty: m.markers.dirty || r,
        compute_memo: m.markers.compute_memo || (r && n.computed is Some),
        deferred_effect: m.markers.deferred_effect || (r && n.effect is Some),
        triggered: m.markers.triggered || trigger_reachable(w, x),
        ..m.markers
    }
}

/// What the signal system leaves of entity id `x`: processed and dirty exactly when
/// notification reaches it, changed exactly when its merge reports a change, triggered exactly
/// when a trigger reaches it.
pub open spec fn propagated_id<V>(w: WorldView<V>, w2: WorldView<V>, x: u64) -> bool {
    &&& holds(w2.signals.processed, x) == reachable(w, x)
    &&& holds(w2.signals.dirty, x) == reachable(w, x)
    &&& holds(w2.signals.changed, x) == reports_change(w, x)
    &&& holds(w2.signals.triggered, x) == trigger_reachable(w, x)
}

/// `w2` is `w` after the signal system: every entity is propagated, the running sets are empty
/// and the long-running effects are kept.
pub open spec fn propagated<V>(w: WorldView<V>, w2: WorldView<V>) -> bool {
    &&& w2.nodes.len() == w.nodes.len()
    &&& forall|j: int| 0 <= j < w.nodes.len() ==> #[trigger] propagated_node(w, w2, j)
    &&& w2.signals.effects == w.signals.effects
    &&& w2.signals.running == Seq::<u64>::empty()
    &&& w2.signals.next_running == Seq::<u64>::empty()
    &&& w2.signals.compute_stack == Seq::<u64>::empty()
    &&& w2.signals.deferred == Seq::<u64>::empty()
    &&& forall|x: u64|
        is_node_id(x, w.nodes.len() as int) ==> #[trigger] propagated_id(w, w2, x)
}

/// `w2` is `w` after adding `subs` to the running sets: every subscriber is marked Dirty (and
/// Triggered when `triggered`) and joins the dirty set, the triggered set when `triggered`, and
/// the next running set unless it was processed already.
pub open spec fn subs_added<V>(w: WorldView<V>, w2: WorldView<V>, subs: Seq<u64>, triggered: bool) -> bool {
    &&& w2.nodes.len() == w.nodes.len()
    &&& forall|j: int|
        0 <= j < w.nodes.len() ==> #[trigger] w2.nodes[j] == NodeView {
            markers: Markers {
                dirty: w.nodes[j].markers.dirty || holds(subs, entity_id(j)),
                triggered: w.nodes[j].markers.triggered || (triggered && holds(subs, entity_id(j))),
                ..w.nodes[j].markers
            },
            ..w.nodes[j]
        }
    &&& w2.signals.processed == w.signals.processed
    &&& w2.signals.running == w.signals.running
    &&& w2.signals.changed == w.signals.changed
    &&& w2.signals.effects == w.signals.effects
    &&& w2.signals.compute_stack == w.signals.compute_stack
    &&& w2.signals.deferred == w.signals.deferred
    &&& forall|x: u64|
        #![trigger holds(w2.signals.dirty, x)]
        is_node_id(x, w.nodes.len() as int) ==> {
            &&& holds(w2.signals.dirty, x) == (holds(w.signals.dirty, x) || holds(subs, x))
            &&& holds(w2.signals.triggered, x) == (holds(w.signals.triggered, x) || (triggered
                && holds(subs, x)))
            &&& holds(w2.signals.next_running, x) == (holds(w.signals.next_running, x) || (holds(
                subs,
                x,
            ) && !holds(w.signals.processed, x)))
        }
}

impl<T: LazySignalsData> LazySignalsWorld<T> {
    /// Add subscribers to the next running set (unless processed) and mark them dirty, and
    /// triggered when `triggered`.
    pub fn add_subs_to_running(&mut self, subs: &Vec<u64>, triggered: bool)
        requires
            world_wf(old(self)@),
            all_node_ids(subs@, old(self)@.nodes.len() as int),
        ensures
            world_wf(final(self)@),
            subs_added(old(self)@, final(self)@, subs@, triggered),
    {
        let ghost w = self@;
        let len = self.nodes.len();
        proof {
            lemma_wf_resource(w);
        }
        let mut k: usize = 0;
        while k < subs.len()
            invariant
                0 <= k <= subs.len(),
                len == w.nodes.len(),
                len <= MAX_ENTITIES,
                world_wf(w),
                world_wf(self@),
                all_node_ids(subs@, len as int),
                subs_added(w, self@, subs@.take(k as int), triggered),
            decreases subs.len() - k,
        {
            let s = subs[k];
            let ghost before = self@;
            proof {
                assert(is_node_id(subs@[k as int], len as int));
                lemma_wf_resource(before);
                lemma_node_slots(s, s, len as int);
            }
            let idx = (s - ENTITY_BASE) as usize;
            set_insert(&mut self.signals.dirty, s);
            self.nodes[idx].markers.dirty = true;
            let done = set_contains(&self.signals.processed, s);
            if !done {
                set_insert(&mut self.signals.next_running, s);
            }
            if triggered {
                set_insert(&mut self.signals.triggered, s);
                self.nodes[idx].markers.triggered = true;
            }
            proof {
                let after = self@;
                let n = len as int;
                lemma_holds_inserted_node(before.signals.dirty, s, s, n);
                lemma_holds_inserted_node(before.signals.next_running, s, s, n);
                lemma_holds_inserted_node(before.signals.triggered, s, s, n);
                assert forall|x: u64| is_node_id(x, n) implies {
                    &&& holds(after.signals.dirty, x) == (holds(before.signals.dirty, x) || x == s)
                    &&& holds(after.signals.triggered, x) == (holds(before.signals.triggered, x)
                        || (triggered && x == s))
                    &&& holds(after.signals.next_running, x) == (holds(
                        before.signals.next_running,
                        x,
                    ) || (x == s && !holds(before.signals.processed, x)))
                } by {
                    lemma_holds_inserted_node(before.signals.dirty, s, x, n);
                    lemma_holds_inserted_node(before.signals.next_running, s, x, n);
                    lemma_holds_inserted_node(before.signals.triggered, s, x, n);
                    lemma_node_slots(x, s, n);
                }
                assert(resource_wf(after.signals));
                assert(resource_node_ids(after.signals, n)) by {
                    super::subscribe::lemma_inserted_node_ids(before.signals.dirty, s, n);
                    super::subscribe::lemma_inserted_node_ids(before.signals.next_running, s, n);
                    super::subscribe::lemma_inserted_node_ids(before.signals.triggered, s, n);
                }
                assert forall|j: int| 0 <= j < n implies (#[trigger] after.nodes[j]).state
                    == before.nodes[j].state && after.nodes[j].computed
                    == before.nodes[j].computed by {}
                lemma_same_cells_wf(before, after);
                assert forall|x: u64| is_node_id(x, n) implies holds(subs@.take(k + 1), x) == (
                holds(subs@.take(k as int), x) || x == s) by {
                    lemma_holds_take_node(subs@, k as int, x, n);
                }
                assert forall|j: int| 0 <= j < n implies #[trigger] after.nodes[j] == NodeView {
                    markers: Markers {
                        dirty: w.nodes[j].markers.dirty || holds(subs@.take(k + 1), entity_id(j)),
                        triggered: w.nodes[j].markers.triggered || (triggered && holds(
                            subs@.take(k + 1),
                            entity_id(j),
                        )),
                        ..w.nodes[j].markers
                    },
                    ..w.nodes[j]
                } by {
                    assert(is_node_id(entity_id(j), n));
                    if j == idx {
                        assert(entity_id(j) == s);
                    } else {
                        assert(entity_id(j) != s);
                    }
                }
            }
            k = k + 1;
        }
        proof {
            assert(subs@.take(subs@.len() as int) == subs@);
        }
    }
}

/// Merging the signal of one of the first `i` entities notifies `s`.
pub open spec fn root_upto<V>(w: WorldView<V>, i: int, s: u64) -> bool {
    exists|j: int| #[trigger] root_from(w, j, s) && j < i
}

/// Merging the triggered signal of one of the first `i` entities notifies `s`.
pub open spec fn triggered_root_upto<V>(w: WorldView<V>, i: int, s: u64) -> bool {
    exists|j: int| #[trigger] root_from(w, j, s) && j < i && w.nodes[j].state.unwrap().triggered
}

/// Entity `j` while the first `i` signals are merged.
pub open spec fn phase1_node<V>(w: WorldView<V>, cur: WorldView<V>, i: int, j: int) -> bool {
    let n = w.nodes[j];
    let m = if j < i {
        merged_node(n)
    } else {
        n
    };
    let n2 = cur.nodes[j];
    let x = entity_id(j);
    &&& n2.computed == n.computed
    &&& n2.effect == n.effect
    &&& n2.state == m.state
    &&& n2.markers == Markers {
        dirty: m.markers.dirty || holds(cur.signals.dirty, x),
        triggered: m.markers.triggered || holds(cur.signals.triggered, x),
        ..m.markers
    }
}

/// The world while the first `i` signals are merged.
pub open spec fn phase1_state<V>(w: WorldView<V>, cur: WorldView<V>, i: int) -> bool {
    &&& cur.nodes.len() == w.nodes.len()
    &&& forall|j: int| 0 <= j < w.nodes.len() ==> #[trigger] phase1_node(w, cur, i, j)
    &&& cur.signals.running == Seq::<u64>::empty()
    &&& cur.signals.processed == Seq::<u64>::empty()
    &&& cur.signals.compute_stack == Seq::<u64>::empty()
    &&& cur.signals.deferred == Seq::<u64>::empty()
    &&& cur.signals.effects == w.signals.effects
    &&& forall|x: u64|
        #![trigger holds(cur.signals.dirty, x)]
        #![trigger holds(cur.signals.next_running, x)]
        #![trigger holds(cur.signals.triggered, x)]
        #![trigger holds(cur.signals.changed, x)]
        is_node_id(x, w.nodes.len() as int) ==> {
            &&& holds(cur.signals.next_running, x) == root_upto(w, i, x)
            &&& holds(cur.signals.dirty, x) == root_upto(w, i, x)
            &&& holds(cur.signals.triggered, x) == triggered_root_upto(w, i, x)
            &&& holds(cur.signals.changed, x) == (reports_change(w, x) && index_of(x) < i)
        }
}

impl<T: LazySignalsData> LazySignalsWorld<T> {

    /// Merge the cell of entity `i`, which has one, and hand back what the merge reports.
    fn merge_cell(&mut self, i: usize) -> (r: (LazySignalsVec, bool, bool))
        requires
            world_wf(old(self)@),
            i < old(self)@.nodes.len(),
            old(self)@.nodes[i as int].state is Some,
        ensures
            world_wf(final(self)@),
            final(self)@.signals == old(self)@.signals,
            final(self)@.nodes == old(self)@.nodes.update(
                i as int,
                NodeView {
                    state: Some(merged(old(self)@.nodes[i as int].state.unwrap())),
                    ..old(self)@.nodes[i as int]
                },
            ),
            r.0.0@ == merge_notified(old(self)@.nodes[i as int].state.unwrap()),
            r.1 == merge_changed(old(self)@.nodes[i as int].state.unwrap()),
            r.2 == old(self)@.nodes[i as int].state.unwrap().triggered,
    {
        let ghost before = self@;
        let ghost c = before.nodes[i as int].state.unwrap();
        proof {
            lemma_wf_cell(before, i as int);
        }
        let r = match &mut self.nodes[i].state {
            Some(cell) => cell.merge(),
            None => None,
        };
        proof {
            assert(self@.nodes[i as int].state == Some(merged(c)));
        }
        let t = match r {
            Some(t) => t,
            None => (LazySignalsVec::new(), false, false),
        };
        proof {
            assert(self@.nodes =~= before.nodes.update(
                i as int,
                NodeView { state: Some(merged(c)), ..before.nodes[i as int] },
            ));
            self.lemma_replace_wf(before, i as int);
        }
        t
    }

    /// Record that the signal of entity `i` changed: ValueChanged marker and the changed set.
    fn mark_changed(&mut self, i: usize)
        requires
            world_wf(old(self)@),
            i < old(self)@.nodes.len(),
        ensures
            world_wf(final(self)@),
            final(self)@.nodes == old(self)@.nodes.update(
                i as int,
                NodeView {
                    markers: Markers {
                        value_changed: true,
                        ..old(self)@.nodes[i as int].markers
                    },
                    ..old(self)@.nodes[i as int]
                },
            ),
            final(self)@.signals == (crate::resource::ResourceView {
                changed: inserted(old(self)@.signals.changed, entity_id(i as int)),
                ..old(self)@.signals
            }),
    {
        let ghost before = self@;
        let len = self.nodes.len();
        proof {
            lemma_wf_resource(before);
        }
        let x = ENTITY_BASE + i as u64;
        proof {
            lemma_node_slots(x, x, len as int);
        }
        set_insert(&mut self.signals.changed, x);
        self.nodes[i].markers.value_changed = true;
        proof {
            super::subscribe::lemma_inserted_node_ids(before.signals.changed, x, len as int);
            lemma_holds_inserted_node(before.signals.changed, x, x, len as int);
            assert(self@.nodes =~= before.nodes.update(
                i as int,
                NodeView {
                    markers: Markers { value_changed: true, ..before.nodes[i as int].markers },
                    ..before.nodes[i as int]
                },
            ));
            assert forall|j: int| 0 <= j < len implies (#[trigger] self@.nodes[j]).state
                == before.nodes[j].state && self@.nodes[j].computed
                == before.nodes[j].computed by {}
            lemma_same_cells_wf(before, self@);
        }
    }

    /// Clear the SendSignal marker of entity `i`.
    fn clear_send_signal(&mut self, i: usize)
        requires
            world_wf(old(self)@),
            i < old(self)@.nodes.len(),
        ensures
            world_wf(final(self)@),
            final(self)@.signals == old(self)@.signals,
            final(self)@.nodes == old(self)@.nodes.update(
                i as int,
                NodeView {
                    markers: Markers { send_signal: false, ..old(self)@.nodes[i as int].markers },
                    ..old(self)@.nodes[i as int]
                },
            ),
    {
        let ghost before = self@;
        self.nodes[i].markers.send_signal = false;
        proof {
            lemma_wf_resource(before);
            assert(self@.nodes =~= before.nodes.update(
                i as int,
                NodeView {
                    markers: Markers { send_signal: false, ..before.nodes[i as int].markers },
                    ..before.nodes[i as int]
                },
            ));
            assert forall|j: int| 0 <= j < before.nodes.len() implies (#[trigger] self@.nodes[j]).state
                == before.nodes[j].state && self@.nodes[j].computed
                == before.nodes[j].computed by {}
            lemma_same_cells_wf(before, self@);
        }
    }

    /// Merge the signal of entity `i` and schedule its subscribers.
    fn merge_one(&mut self, i: usize, Ghost(w): Ghost<WorldView<T::V>>)
        requires
            i < w.nodes.len(),
            world_wf(w),
            world_wf(old(self)@),
            phase1_state(w, old(self)@, i as int),
            old(self)@.nodes[i as int].markers.send_signal,
            old(self)@.nodes[i as int].state is Some,
        ensures
            world_wf(final(self)@),
            phase1_state(w, final(self)@, i as int + 1),
    {
        let ghost before = self@;
        let ghost c = before.nodes[i as int].state.unwrap();
        proof {
            lemma_wf_cell(before, i as int);
            lemma_wf_resource(before);
        }
        let (subs, changed, trig) = self.merge_cell(i);
        if changed {
            self.mark_changed(i);
        }
        let ghost before_subs = self@;
        proof {
            assert(before_subs.nodes =~= before.nodes.update(
                i as int,
                NodeView {
                    state: Some(merged(c)),
                    markers: Markers {
                        value_changed: before.nodes[i as int].markers.value_changed || changed,
                        ..before.nodes[i as int].markers
                    },
                    ..before.nodes[i as int]
                },
            ));
            lemma_wf_cell(before, i as int);
        }
        self.add_subs_to_running(&subs.0, trig);
        let ghost after_subs = self@;
        self.clear_send_signal(i);
        proof {
            lemma_phase1_sent_step(
                w,
                before,
                before_subs,
                after_subs,
                self@,
                i as int,
                c,
                subs.0@,
                changed,
                trig,
            );
        }
    }

    /// First phase of the signal system: merge each signal marked SendSignal, record the ones
    /// that changed, and schedule the subscribers each merge hands back.
    fn merge_sent_signals(&mut self, Ghost(w): Ghost<WorldView<T::V>>)
        requires
            world_wf(w),
            world_wf(old(self)@),
            phase1_state(w, old(self)@, 0),
        ensures
            world_wf(final(self)@),
            phase1_state(w, final(self)@, w.nodes.len() as int),
    {
        let len = self.nodes.len();
        let mut i: usize = 0;
        while i < len
            invariant
                0 <= i <= len,
                len == w.nodes.len(),
                world_wf(w),
                world_wf(self@),
                phase1_state(w, self@, i as int),
            decreases len - i,
        {
            let ghost before = self@;
            proof {
                lemma_wf_cell(before, i as int);
                lemma_wf_resource(before);
                assert(phase1_node(w, before, i as int, i as int));
            }
            if self.nodes[i].markers.send_signal && self.nodes[i].state.is_some() {
                self.merge_one(i, Ghost(w));
            } else {
                proof {
                    lemma_phase1_skip_step(w, self@, i as int);
                }
            }
            i = i + 1;
        }
    }
}

proof fn lemma_root_upto_step<V>(w: WorldView<V>, i: int, x: u64)
    requires
        0 <= i,
    ensures
        root_upto(w, i + 1, x) == (root_upto(w, i, x) || root_from(w, i, x)),
        triggered_root_upto(w, i + 1, x) == (triggered_root_upto(w, i, x) || (root_from(w, i, x)
            && w.nodes[i].state.unwrap().triggered)),
{
    let i1 = i + 1;
    if root_upto(w, i1, x) {
        let j = choose|j: int| #[trigger] root_from(w, j, x) && j < i1;
        if j < i {
            assert(root_upto(w, i, x));
        }
    }
    if root_upto(w, i, x) {
        let j = choose|j: int| #[trigger] root_from(w, j, x) && j < i;
        assert(root_from(w, j, x) && j < i1);
    }
    if root_from(w, i, x) {
        assert(root_from(w, i, x) && i < i1);
    }
    if triggered_root_upto(w, i1, x) {
        let j = choose|j: int|
            #[trigger] root_from(w, j, x) && j < i1 && w.nodes[j].state.unwrap().triggered;
        if j < i {
            assert(triggered_root_upto(w, i, x));
        }
    }
    if triggered_root_upto(w, i, x) {
        let j = choose|j: int|
            #[trigger] root_from(w, j, x) && j < i && w.nodes[j].state.unwrap().triggered;
        assert(root_from(w, j, x) && j < i1 && w.nodes[j].state.unwrap().triggered);
    }
    if root_from(w, i, x) && w.nodes[i].state.unwrap().triggered {
        assert(root_from(w, i, x) && i < i1 && w.nodes[i].state.unwrap().triggered);
    }
}

proof fn lemma_phase1_skip_step<V>(w: WorldView<V>, cur: WorldView<V>, i: int)
    requires
        0 <= i < w.nodes.len(),
        phase1_state(w, cur, i),
        !(cur.nodes[i].markers.send_signal && cur.nodes[i].state is Some),
    ensures
        phase1_state(w, cur, i + 1),
{
    let i1 = i + 1;
    assert(phase1_node(w, cur, i, i));
    assert(!is_sent(w.nodes[i]));
    assert forall|j: int| 0 <= j < w.nodes.len() implies #[trigger] phase1_node(w, cur, i1, j) by {
        assert(phase1_node(w, cur, i, j));
    }
    assert forall|x: u64|
        #![trigger holds(cur.signals.dirty, x)]
        #![trigger holds(cur.signals.next_running, x)]
        #![trigger holds(cur.signals.triggered, x)]
        #![trigger holds(cur.signals.changed, x)]
        is_node_id(x, w.nodes.len() as int) implies {
        &&& holds(cur.signals.next_running, x) == root_upto(w, i1, x)
        &&& holds(cur.signals.dirty, x) == root_upto(w, i1, x)
        &&& holds(cur.signals.triggered, x) == triggered_root_upto(w, i1, x)
        &&& holds(cur.signals.changed, x) == (reports_change(w, x) && index_of(x) < i1)
    } by {
        assert(holds(cur.signals.dirty, x) == root_upto(w, i, x));
        lemma_root_upto_step(w, i, x);
        assert(!root_from(w, i, x));
        assert(root_upto(w, i1, x) == root_upto(w, i, x));
        assert(holds(cur.signals.next_running, x) == root_upto(w, i1, x));
        assert(triggered_root_upto(w, i1, x) == triggered_root_upto(w, i, x));
        assert(holds(cur.signals.triggered, x) == triggered_root_upto(w, i1, x));
        if index_of(x) == i {
            assert(!reports_change(w, x));
        }
        assert(holds(cur.signals.changed, x) == (reports_change(w, x) && index_of(x) < i1));
    }
}

proof fn lemma_phase1_sent_step<V>(
    w: WorldView<V>,
    before: WorldView<V>,
    before_subs: WorldView<V>,
    after_subs: WorldView<V>,
    after: WorldView<V>,
    i: int,
    c: CellView<V>,
    subs: Seq<u64>,
    changed: bool,
    trig: bool,
)
    requires
        0 <= i < w.nodes.len(),
        w.nodes.len() <= MAX_ENTITIES,
        phase1_state(w, before, i),
        before.nodes[i].markers.send_signal,
        before.nodes[i].state == Some(c),
        subs == merge_notified(c),
        changed == merge_changed(c),
        trig == c.triggered,
        ids_valid(before.signals.changed),
        before_subs.nodes == before.nodes.update(
            i,
            NodeView {
                state: Some(merged(c)),
                markers: Markers {
                    value_changed: before.nodes[i].markers.value_changed || changed,
                    ..before.nodes[i].markers
                },
                ..before.nodes[i]
            },
        ),
        before_subs.signals == (crate::resource::ResourceView {
            changed: if changed {
                inserted(before.signals.changed, entity_id(i))
            } else {
                before.signals.changed
            },
            ..before.signals
        }),
        subs_added(before_subs, after_subs, subs, trig),
        after.signals == after_subs.signals,
        after.nodes == after_subs.nodes.update(
            i,
            NodeView {
                markers: Markers { send_signal: false, ..after_subs.nodes[i].markers },
                ..after_subs.nodes[i]
            },
        ),
    ensures
        phase1_state(w, after, i + 1),
{
    let len = w.nodes.len() as int;
    assert(phase1_node(w, before, i, i));
    assert(is_sent(w.nodes[i]));
    assert forall|x: u64|
        #![trigger holds(after.signals.dirty, x)]
        #![trigger holds(after.signals.next_running, x)]
        #![trigger holds(after.signals.triggered, x)]
        #![trigger holds(after.signals.changed, x)]
        is_node_id(x, len) implies {
        &&& holds(after.signals.next_running, x) == root_upto(w, i + 1, x)
        &&& holds(after.signals.dirty, x) == root_upto(w, i + 1, x)
        &&& holds(after.signals.triggered, x) == triggered_root_upto(w, i + 1, x)
        &&& holds(after.signals.changed, x) == (reports_change(w, x) && index_of(x) < i + 1)
    } by {
        assert(holds(after_subs.signals.dirty, x) == (holds(before_subs.signals.dirty, x) || holds(
            subs,
            x,
        )));
        assert(!holds(Seq::<u64>::empty(), x));
        lemma_phase1_sent_id(w, before, after, i, c, x);
    }
    assert forall|j: int| 0 <= j < len implies #[trigger] phase1_node(w, after, i + 1, j) by {
        assert(after_subs.nodes[j] == NodeView {
            markers: Markers {
                dirty: before_subs.nodes[j].markers.dirty || holds(subs, entity_id(j)),
                triggered: before_subs.nodes[j].markers.triggered || (trig && holds(
                    subs,
                    entity_id(j),
                )),
                ..before_subs.nodes[j].markers
            },
            ..before_subs.nodes[j]
        });
        let x = entity_id(j);
        assert(is_node_id(x, len));
        assert(holds(after.signals.dirty, x) == (holds(before.signals.dirty, x) || holds(subs, x)));
        assert(holds(after.signals.triggered, x) == (holds(before.signals.triggered, x) || (trig
            && holds(subs, x))));
        lemma_phase1_sent_node(w, before, after, i, c, j);
    }
}

/// One entity id after the signal of entity `i` is merged and its subscribers scheduled.
proof fn lemma_phase1_sent_id<V>(
    w: WorldView<V>,
    before: WorldView<V>,
    after: WorldView<V>,
    i: int,
    c: CellView<V>,
    x: u64,
)
    requires
        0 <= i < w.nodes.len(),
        w.nodes.len() <= MAX_ENTITIES,
        is_node_id(x, w.nodes.len() as int),
        phase1_state(w, before, i),
        is_sent(w.nodes[i]),
        w.nodes[i].state == Some(c),
        ids_valid(before.signals.changed),
        holds(after.signals.dirty, x) == (holds(before.signals.dirty, x) || holds(
            merge_notified(c),
            x,
        )),
        holds(after.signals.next_running, x) == (holds(before.signals.next_running, x) || holds(
            merge_notified(c),
            x,
        )),
        holds(after.signals.triggered, x) == (holds(before.signals.triggered, x) || (c.triggered
            && holds(merge_notified(c), x))),
        after.signals.changed == if merge_changed(c) {
            inserted(before.signals.changed, entity_id(i))
        } else {
            before.signals.changed
        },
    ensures
        holds(after.signals.next_running, x) == root_upto(w, i + 1, x),
        holds(after.signals.dirty, x) == root_upto(w, i + 1, x),
        holds(after.signals.triggered, x) == triggered_root_upto(w, i + 1, x),
        holds(after.signals.changed, x) == (reports_change(w, x) && index_of(x) < i + 1),
{
    let len = w.nodes.len() as int;
    let xi = entity_id(i);
    assert(holds(before.signals.dirty, x) == root_upto(w, i, x));
    lemma_root_upto_step(w, i, x);
    assert(root_from(w, i, x) == holds(merge_notified(c), x));
    lemma_node_slots(xi, xi, len);
    if merge_changed(c) {
        lemma_holds_inserted_node(before.signals.changed, xi, x, len);
    }
    if index_of(x) == i {
        assert(x == xi);
    }
}

/// One entity after the signal of entity `i` is merged and its subscribers scheduled.
proof fn lemma_phase1_sent_node<V>(
    w: WorldView<V>,
    before: WorldView<V>,
    after: WorldView<V>,
    i: int,
    c: CellView<V>,
    j: int,
)
    requires
        0 <= i < w.nodes.len(),
        0 <= j < w.nodes.len(),
        phase1_state(w, before, i),
        is_sent(w.nodes[i]),
        w.nodes[i].state == Some(c),
        after.nodes[j] == (if j == i {
            NodeView {
                state: Some(merged(c)),
                markers: Markers {
                    value_changed: before.nodes[i].markers.value_changed || merge_changed(c),
                    send_signal: false,
                    dirty: before.nodes[i].markers.dirty || holds(merge_notified(c), entity_id(j)),
                    triggered: before.nodes[i].markers.triggered || (c.triggered && holds(
                        merge_notified(c),
                        entity_id(j),
                    )),
                    ..before.nodes[i].markers
                },
                ..before.nodes[i]
            }
        } else {
            NodeView {
                markers: Markers {
                    dirty: before.nodes[j].markers.dirty || holds(merge_notified(c), entity_id(j)),
                    triggered: before.nodes[j].markers.triggered || (c.triggered && holds(
                        merge_notified(c),
                        entity_id(j),
                    )),
                    ..before.nodes[j].markers
                },
                ..before.nodes[j]
            }
        }),
        holds(after.signals.dirty, entity_id(j)) == (holds(before.signals.dirty, entity_id(j))
            || holds(merge_notified(c), entity_id(j))),
        holds(after.signals.triggered, entity_id(j)) == (holds(
            before.signals.triggered,
            entity_id(j),
        ) || (c.triggered && holds(merge_notified(c), entity_id(j)))),
    ensures
        phase1_node(w, after, i + 1, j),
{
    assert(phase1_node(w, before, i, j));
}



/// Entity `j` while notification walks the subscriber tree: merged, and once processed marked
/// ComputeMemo (a computed, whose subscribers were handed on and removed) or DeferredEffect (an
/// effect); the Dirty and Triggered markers follow the dirty and triggered sets.
pub open spec fn phase2_node<V>(w: WorldView<V>, cur: WorldView<V>, j: int) -> bool {
    let n = w.nodes[j];
    let m = merged_node(n);
    let n2 = cur.nodes[j];
    let x = entity_id(j);
    let p = holds(cur.signals.processed, x);
    &&& n2.computed == n.computed
    &&& n2.effect == n.effect
    &&& n2.state == if p && n.computed is Some {
        Some(CellView { subscribers: Seq::empty(), ..m.state.unwrap() })
    } else {
        m.state
    }
    &&& n2.markers == Markers {
        dirty: m.markers.dirty || holds(cur.signals.dirty, x),
        compute_memo: m.markers.compute_memo || (p && n.computed is Some),
        deferred_effect: m.markers.deferred_effect || (p && n.effect is Some),
        triggered: m.markers.triggered || holds(cur.signals.triggered, x),
        ..m.markers
    }
}

/// What holds of entity id `x` while notification walks the tree, with `rem` still to run in
/// this iteration.  The walk runs twice: `first` from the subscribers of triggered signals only,
/// then from the subscribers of every merged signal.  Every scheduled id is dirty and reachable;
/// every starting id is processed or scheduled; an id is triggered only when a trigger reaches
/// it, and, once scheduled, exactly then; the first walk schedules only ids a trigger reaches,
/// and the second starts once all of those are processed; the changed set is final.
pub open spec fn phase2_id<V>(w: WorldView<V>, cur: WorldView<V>, rem: Seq<u64>, first: bool, x: u64) -> bool {
    let r = cur.signals;
    let p = holds(r.processed, x);
    let nx = holds(r.next_running, x);
    let rm = holds(rem, x);
    let t = trigger_reachable(w, x);
    &&& p ==> holds(r.dirty, x)
    &&& nx ==> holds(r.dirty, x)
    &&& rm ==> holds(r.dirty, x)
    &&& holds(r.dirty, x) ==> reachable(w, x)
    &&& is_root(w, x) ==> holds(r.dirty, x)
    &&& (if first {
        is_triggered_root(w, x)
    } else {
        is_root(w, x)
    }) ==> (p || nx || rm)
    &&& holds(r.triggered, x) ==> t
    &&& is_triggered_root(w, x) ==> holds(r.triggered, x)
    &&& (p || nx || rm) ==> (holds(r.triggered, x) == t)
    &&& first ==> ((nx || rm) ==> t)
    &&& !first ==> (t ==> p)
    &&& holds(r.changed, x) == reports_change(w, x)
}

/// Every subscriber of a processed computed is processed or scheduled.
pub open spec fn phase2_closed<V>(w: WorldView<V>, cur: WorldView<V>, rem: Seq<u64>) -> bool {
    forall|c: u64, s: u64|
        #![trigger notifies(w, c, s)]
        is_node_id(c, w.nodes.len() as int) && is_node_id(s, w.nodes.len() as int) && holds(
            cur.signals.processed,
            c,
        ) && notifies(w, c, s) ==> (holds(cur.signals.processed, s) || holds(
            cur.signals.next_running,
            s,
        ) || holds(rem, s))
}

/// The world while notification walks the subscriber tree, `rem` still to run in this
/// iteration of the first walk (`first`) or of the second.
pub open spec fn phase2_state<V>(w: WorldView<V>, cur: WorldView<V>, rem: Seq<u64>, first: bool) -> bool {
    &&& cur.nodes.len() == w.nodes.len()
    &&& forall|j: int| 0 <= j < w.nodes.len() ==> #[trigger] phase2_node(w, cur, j)
    &&& cur.signals.compute_stack == Seq::<u64>::empty()
    &&& cur.signals.deferred == Seq::<u64>::empty()
    &&& cur.signals.effects == w.signals.effects
    &&& forall|x: u64|
        is_node_id(x, w.nodes.len() as int) ==> #[trigger] phase2_id(w, cur, rem, first, x)
    &&& phase2_closed(w, cur, rem)
}

/// No id is held by an empty list.
proof fn lemma_holds_empty(x: u64)
    ensures
        !holds(Seq::<u64>::empty(), x),
{
}

/// Holding in a non-empty list is sharing the slot of its first id or holding in the rest.
proof fn lemma_holds_drop_first(ids: Seq<u64>, x: u64)
    requires
        ids.len() > 0,
    ensures
        holds(ids, x) == (slot(ids[0]) == slot(x) || holds(ids.drop_first(), x)),
{
    let rest = ids.drop_first();
    if holds(ids, x) {
        let i = choose|i: int| 0 <= i < ids.len() && #[trigger] slot(ids[i]) == slot(x);
        if i > 0 {
            assert(rest[i - 1] == ids[i]);
        }
    }
    if holds(rest, x) {
        let i = choose|i: int| 0 <= i < rest.len() && #[trigger] slot(rest[i]) == slot(x);
        assert(ids[i + 1] == rest[i]);
    }
    if slot(ids[0]) == slot(x) {
        assert(slot(ids[0]) == slot(x));
    }
}

/// A direct subscriber of a merged signal is reachable.
proof fn lemma_reach_root<V>(w: WorldView<V>, x: u64)
    requires
        is_root(w, x),
    ensures
        reachable(w, x),
{
    let p = seq![x];
    assert(p[0] == x);
    assert(is_path(w, p));
    assert(p.last() == x);
}

/// Notification passes on from a reachable computed to its subscribers.
proof fn lemma_reach_step<V>(w: WorldView<V>, c: u64, s: u64)
    requires
        reachable(w, c),
        notifies(w, c, s),
    ensures
        reachable(w, s),
{
    let p = choose|p: Seq<u64>| #[trigger] is_path(w, p) && p.last() == c;
    let q = p.push(s);
    assert forall|k: int| 0 <= k < q.len() - 1 implies #[trigger] path_step(w, q, k) by {
        if k < p.len() - 1 {
            assert(path_step(w, p, k));
            assert(q[k] == p[k] && q[k + 1] == p[k + 1]);
        } else {
            assert(q[k] == c);
            assert(q[k + 1] == s);
        }
    }
    assert(q[0] == p[0]);
    assert(is_path(w, q));
    assert(q.last() == s);
}

/// Once nothing is scheduled in the second walk, every entity on a path ending at an entity is
/// processed.
proof fn lemma_path_processed<V>(w: WorldView<V>, cur: WorldView<V>, p: Seq<u64>, k: int)
    requires
        phase2_state(w, cur, Seq::empty(), false),
        cur.signals.next_running == Seq::<u64>::empty(),
        is_path(w, p),
        is_node_id(p.last(), w.nodes.len() as int),
        0 <= k < p.len(),
    ensures
        holds(cur.signals.processed, p[k]),
    decreases k,
{
    let n = w.nodes.len() as int;
    lemma_holds_empty(p[k]);
    if k < p.len() - 1 {
        assert(path_step(w, p, k));
    }
    assert(is_node_id(p[k], n));
    if k == 0 {
        assert(phase2_id(w, cur, Seq::empty(), false, p[0]));
    } else {
        lemma_path_processed(w, cur, p, k - 1);
        assert(path_step(w, p, k - 1));
        assert(notifies(w, p[k - 1], p[k]));
    }
}

/// Once nothing is scheduled in the second walk, every reachable entity is processed.
proof fn lemma_reach_complete<V>(w: WorldView<V>, cur: WorldView<V>, x: u64)
    requires
        phase2_state(w, cur, Seq::empty(), false),
        cur.signals.next_running == Seq::<u64>::empty(),
        reachable(w, x),
        is_node_id(x, w.nodes.len() as int),
    ensures
        holds(cur.signals.processed, x),
{
    let p = choose|p: Seq<u64>| #[trigger] is_path(w, p) && p.last() == x;
    lemma_path_processed(w, cur, p, p.len() - 1);
}

/// Once nothing is scheduled in the first walk, every entity on a trigger path ending at an
/// entity is processed.
proof fn lemma_trigger_path_processed<V>(w: WorldView<V>, cur: WorldView<V>, p: Seq<u64>, k: int)
    requires
        phase2_state(w, cur, Seq::empty(), true),
        cur.signals.next_running == Seq::<u64>::empty(),
        is_trigger_path(w, p),
        is_node_id(p.last(), w.nodes.len() as int),
        0 <= k < p.len(),
    ensures
        holds(cur.signals.processed, p[k]),
    decreases k,
{
    let n = w.nodes.len() as int;
    lemma_holds_empty(p[k]);
    if k < p.len() - 1 {
        assert(path_step(w, p, k));
    }
    assert(is_node_id(p[k], n));
    if k == 0 {
        assert(phase2_id(w, cur, Seq::empty(), true, p[0]));
    } else {
        lemma_trigger_path_processed(w, cur, p, k - 1);
        assert(path_step(w, p, k - 1));
        assert(notifies(w, p[k - 1], p[k]));
    }
}

/// Once nothing is scheduled in the first walk, every entity a trigger reaches is processed.
proof fn lemma_trigger_complete<V>(w: WorldView<V>, cur: WorldView<V>, x: u64)
    requires
        phase2_state(w, cur, Seq::empty(), true),
        cur.signals.next_running == Seq::<u64>::empty(),
        trigger_reachable(w, x),
        is_node_id(x, w.nodes.len() as int),
    ensures
        holds(cur.signals.processed, x),
{
    let p = choose|p: Seq<u64>| #[trigger] is_trigger_path(w, p) && p.last() == x;
    lemma_trigger_path_processed(w, cur, p, p.len() - 1);
}

/// A direct subscriber of a triggered signal is reached by a trigger.
proof fn lemma_trigger_root<V>(w: WorldView<V>, x: u64)
    requires
        is_triggered_root(w, x),
    ensures
        trigger_reachable(w, x),
{
    let p = seq![x];
    assert(p[0] == x);
    assert(is_trigger_path(w, p));
    assert(p.last() == x);
}

/// A trigger passes on from a computed it reaches to its subscribers.
proof fn lemma_trigger_step<V>(w: WorldView<V>, c: u64, s: u64)
    requires
        trigger_reachable(w, c),
        notifies(w, c, s),
    ensures
        trigger_reachable(w, s),
{
    let p = choose|p: Seq<u64>| #[trigger] is_trigger_path(w, p) && p.last() == c;
    let q = p.push(s);
    assert forall|k: int| 0 <= k < q.len() - 1 implies #[trigger] path_step(w, q, k) by {
        if k < p.len() - 1 {
            assert(path_step(w, p, k));
            assert(q[k] == p[k] && q[k + 1] == p[k + 1]);
        } else {
            assert(q[k] == c);
            assert(q[k + 1] == s);
        }
    }
    assert(q[0] == p[0]);
    assert(is_trigger_path(w, q));
    assert(q.last() == s);
}

/// A freshly initialized resource over the untouched entities is the start of the first phase.
proof fn lemma_phase1_start<V>(w: WorldView<V>, cur: WorldView<V>)
    requires
        cur.nodes == w.nodes,
        cur.signals == (crate::resource::ResourceView {
            effects: w.signals.effects,
            ..crate::resource::fresh_resource()
        }),
    ensures
        phase1_state(w, cur, 0),
{
    assert forall|j: int| 0 <= j < w.nodes.len() implies #[trigger] phase1_node(w, cur, 0, j) by {
        lemma_holds_empty(entity_id(j));
    }
    assert forall|x: u64| is_node_id(x, w.nodes.len() as int) implies {
        &&& holds(cur.signals.next_running, x) == root_upto(w, 0, x)
        &&& holds(cur.signals.dirty, x) == root_upto(w, 0, x)
        &&& holds(cur.signals.triggered, x) == triggered_root_upto(w, 0, x)
        &&& holds(cur.signals.changed, x) == (reports_change(w, x) && index_of(x) < 0)
    } by {
        lemma_holds_empty(x);
    }
}

/// The end of the first phase is the start of the first walk once the running set holds the
/// triggered ids: the direct subscribers of the triggered signals.
proof fn lemma_walk_start<V>(w: WorldView<V>, before: WorldView<V>, after: WorldView<V>)
    requires
        phase1_state(w, before, w.nodes.len() as int),
        after.nodes == before.nodes,
        after.signals == (crate::resource::ResourceView {
            next_running: after.signals.next_running,
            ..before.signals
        }),
        forall|x: u64| holds(after.signals.next_running, x) == holds(before.signals.triggered, x),
    ensures
        phase2_state(w, after, Seq::empty(), true),
{
    let n = w.nodes.len() as int;
    assert forall|j: int| 0 <= j < n implies #[trigger] phase2_node(w, after, j) by {
        assert(phase1_node(w, before, n, j));
        lemma_holds_empty(entity_id(j));
    }
    assert forall|x: u64| is_node_id(x, n) implies #[trigger] phase2_id(w, after, Seq::empty(), true, x) by {
        lemma_holds_empty(x);
        assert(holds(before.signals.dirty, x) == root_upto(w, n, x));
        assert(holds(before.signals.triggered, x) == triggered_root_upto(w, n, x));
        if root_upto(w, n, x) {
            let j = choose|j: int| #[trigger] root_from(w, j, x) && j < n;
            assert(is_root(w, x));
            lemma_reach_root(w, x);
        }
        if is_root(w, x) {
            let j = choose|j: int| #[trigger] root_from(w, j, x);
            assert(root_from(w, j, x) && j < n);
        }
        if triggered_root_upto(w, n, x) {
            let j = choose|j: int|
                #[trigger] root_from(w, j, x) && j < n && w.nodes[j].state.unwrap().triggered;
            assert(root_from(w, j, x) && j < n);
            assert(is_triggered_root(w, x));
            lemma_trigger_root(w, x);
        }
        if is_triggered_root(w, x) {
            let j = choose|j: int| #[trigger] root_from(w, j, x) && w.nodes[j].state.unwrap().triggered;
            assert(root_from(w, j, x) && j < n && w.nodes[j].state.unwrap().triggered);
            lemma_trigger_root(w, x);
        }
    }
    assert forall|c: u64, s: u64|
        #![trigger notifies(w, c, s)]
        is_node_id(c, n) && is_node_id(s, n) && holds(after.signals.processed, c) && notifies(
            w,
            c,
            s,
        ) implies (holds(after.signals.processed, s) || holds(after.signals.next_running, s) || holds(
        Seq::<u64>::empty(),
        s,
    )) by {
        lemma_holds_empty(c);
    }
}

/// The end of the first walk is the start of the second once the running set holds every
/// direct subscriber of a merged signal: everything a trigger reaches is processed.
proof fn lemma_walk_restart<V>(w: WorldView<V>, before: WorldView<V>, after: WorldView<V>)
    requires
        phase2_state(w, before, Seq::empty(), true),
        before.signals.next_running == Seq::<u64>::empty(),
        after.nodes == before.nodes,
        after.signals == (crate::resource::ResourceView {
            next_running: after.signals.next_running,
            ..before.signals
        }),
        forall|x: u64|
            is_node_id(x, w.nodes.len() as int) ==> #[trigger] holds(after.signals.next_running, x)
                == is_root(w, x),
    ensures
        phase2_state(w, after, Seq::empty(), false),
{
    let n = w.nodes.len() as int;
    assert forall|j: int| 0 <= j < n implies #[trigger] phase2_node(w, after, j) by {
        assert(phase2_node(w, before, j));
    }
    assert forall|x: u64| is_node_id(x, n) implies #[trigger] phase2_id(w, after, Seq::empty(), false, x) by {
        lemma_holds_empty(x);
        assert(phase2_id(w, before, Seq::empty(), true, x));
        if trigger_reachable(w, x) {
            lemma_trigger_complete(w, before, x);
        }
    }
    assert forall|c: u64, s: u64|
        #![trigger notifies(w, c, s)]
        is_node_id(c, n) && is_node_id(s, n) && holds(after.signals.processed, c) && notifies(
            w,
            c,
            s,
        ) implies (holds(after.signals.processed, s) || holds(after.signals.next_running, s) || holds(
        Seq::<u64>::empty(),
        s,
    )) by {
        lemma_holds_empty(s);
    }
}

/// Running an id that was already processed changes nothing.
proof fn lemma_phase2_skip<V>(w: WorldView<V>, cur: WorldView<V>, rem: Seq<u64>, first: bool)
    requires
        w.nodes.len() <= MAX_ENTITIES,
        phase2_state(w, cur, rem, first),
        rem.len() > 0,
        is_node_id(rem[0], w.nodes.len() as int),
        holds(cur.signals.processed, rem[0]),
    ensures
        phase2_state(w, cur, rem.drop_first(), first),
{
    let n = w.nodes.len() as int;
    let rest = rem.drop_first();
    assert forall|x: u64| is_node_id(x, n) implies #[trigger] phase2_id(w, cur, rest, first, x) by {
        assert(phase2_id(w, cur, rem, first, x));
        lemma_holds_drop_first(rem, x);
        lemma_node_slots(rem[0], x, n);
    }
    assert forall|c: u64, s: u64|
        #![trigger notifies(w, c, s)]
        is_node_id(c, n) && is_node_id(s, n) && holds(cur.signals.processed, c) && notifies(
            w,
            c,
            s,
        ) implies (holds(cur.signals.processed, s) || holds(cur.signals.next_running, s) || holds(
        rest,
        s,
    )) by {
        lemma_holds_drop_first(rem, s);
        lemma_node_slots(rem[0], s, n);
    }
}

/// Moving the next running set into the (empty) running set schedules the same ids for this
/// iteration.
proof fn lemma_phase2_merge<V>(
    w: WorldView<V>,
    before: WorldView<V>,
    after: WorldView<V>,
    ids: Seq<u64>,
    first: bool,
)
    requires
        phase2_state(w, before, Seq::empty(), first),
        after.nodes == before.nodes,
        after.signals == (crate::resource::ResourceView {
            running: ids,
            next_running: Seq::empty(),
            ..before.signals
        }),
        forall|x: u64| holds(ids, x) == holds(before.signals.next_running, x),
    ensures
        phase2_state(w, after, ids, first),
{
    let n = w.nodes.len() as int;
    assert forall|j: int| 0 <= j < n implies #[trigger] phase2_node(w, after, j) by {
        assert(phase2_node(w, before, j));
    }
    assert forall|x: u64| is_node_id(x, n) implies #[trigger] phase2_id(w, after, ids, first, x) by {
        assert(phase2_id(w, before, Seq::empty(), first, x));
        lemma_holds_empty(x);
    }
    assert forall|c: u64, s: u64|
        #![trigger notifies(w, c, s)]
        is_node_id(c, n) && is_node_id(s, n) && holds(after.signals.processed, c) && notifies(
            w,
            c,
            s,
        ) implies (holds(after.signals.processed, s) || holds(after.signals.next_running, s) || holds(
        ids,
        s,
    )) by {
        lemma_holds_empty(s);
    }
}

/// Changing only the running set keeps the state.
proof fn lemma_phase2_running<V>(
    w: WorldView<V>,
    before: WorldView<V>,
    after: WorldView<V>,
    rem: Seq<u64>,
    first: bool,
)
    requires
        phase2_state(w, before, rem, first),
        after.nodes == before.nodes,
        after.signals == (crate::resource::ResourceView {
            running: after.signals.running,
            ..before.signals
        }),
    ensures
        phase2_state(w, after, rem, first),
{
    let n = w.nodes.len() as int;
    assert forall|j: int| 0 <= j < n implies #[trigger] phase2_node(w, after, j) by {
        assert(phase2_node(w, before, j));
    }
    assert forall|x: u64| is_node_id(x, n) implies #[trigger] phase2_id(w, after, rem, first, x) by {
        assert(phase2_id(w, before, rem, first, x));
    }
}

/// Once nothing is scheduled in the second walk, the signal system has done what it promises.
proof fn lemma_phase2_done<V>(w: WorldView<V>, cur: WorldView<V>)
    requires
        w.nodes.len() <= MAX_ENTITIES,
        phase2_state(w, cur, Seq::empty(), false),
        cur.signals.next_running == Seq::<u64>::empty(),
        cur.signals.running == Seq::<u64>::empty(),
    ensures
        propagated(w, cur),
{
    let n = w.nodes.len() as int;
    assert forall|x: u64| is_node_id(x, n) implies #[trigger] propagated_id(w, cur, x) by {
        assert(phase2_id(w, cur, Seq::empty(), false, x));
        if reachable(w, x) {
            lemma_reach_complete(w, cur, x);
        }
    }
    assert forall|j: int| 0 <= j < n implies #[trigger] propagated_node(w, cur, j) by {
        assert(phase2_node(w, cur, j));
        let x = entity_id(j);
        assert(is_node_id(x, n));
        assert(propagated_id(w, cur, x));
    }
}

/// Processing the first id of `rem`, not yet processed: it joins the processed set and, when it
/// is a computed, its subscribers are scheduled.
proof fn lemma_phase2_process<V>(
    w: WorldView<V>,
    before: WorldView<V>,
    marked: WorldView<V>,
    after: WorldView<V>,
    rem: Seq<u64>,
    first: bool,
    subs: Seq<u64>,
    trig: bool,
)
    requires
        w.nodes.len() <= MAX_ENTITIES,
        rem.len() > 0,
        is_node_id(rem[0], w.nodes.len() as int),
        phase2_state(w, before, rem, first),
        !holds(before.signals.processed, rem[0]),
        ids_valid(before.signals.processed),
        marked.signals == (crate::resource::ResourceView {
            processed: inserted(before.signals.processed, rem[0]),
            ..before.signals
        }),
        marked.nodes == before.nodes.update(
            index_of(rem[0]),
            processed_node(before.nodes[index_of(rem[0])]),
        ),
        subs == (if before.nodes[index_of(rem[0])].computed is Some {
            before.nodes[index_of(rem[0])].state.unwrap().subscribers
        } else {
            Seq::empty()
        }),
        trig == holds(before.signals.triggered, rem[0]),
        subs_added(marked, after, subs, trig),
    ensures
        phase2_state(w, after, rem.drop_first(), first),
        after.signals.processed.len() == before.signals.processed.len() + 1,
{
    let n = w.nodes.len() as int;
    let r = rem[0];
    let idx = index_of(r);
    let rest = rem.drop_first();
    assert(entity_id(idx) == r);
    assert(phase2_node(w, before, idx));
    assert(phase2_id(w, before, rem, first, r));
    assert(slot(rem[0]) == slot(r));
    assert(holds(rem, r));
    assert(reachable(w, r));
    lemma_node_slots(r, r, n);
    lemma_holds_empty(r);
    assert forall|x: u64| is_node_id(x, n) implies #[trigger] phase2_id(w, after, rest, first, x) by {
        lemma_holds_inserted_node(before.signals.processed, r, x, n);
        lemma_holds_drop_first(rem, x);
        lemma_node_slots(r, x, n);
        lemma_holds_empty(x);
        assert(holds(after.signals.dirty, x) == (holds(marked.signals.dirty, x) || holds(subs, x)));
        assert(phase2_id(w, before, rem, first, x));
        if holds(subs, x) {
            assert(notifies(w, r, x));
        }
        lemma_phase2_process_id(w, before, after, rem, first, subs, trig, x);
    }
    assert forall|c: u64, s: u64|
        #![trigger notifies(w, c, s)]
        is_node_id(c, n) && is_node_id(s, n) && holds(after.signals.processed, c) && notifies(
            w,
            c,
            s,
        ) implies (holds(after.signals.processed, s) || holds(after.signals.next_running, s)
        || holds(rest, s)) by {
        lemma_holds_inserted_node(before.signals.processed, r, c, n);
        lemma_holds_inserted_node(before.signals.processed, r, s, n);
        lemma_holds_drop_first(rem, s);
        lemma_node_slots(r, s, n);
        assert(holds(after.signals.dirty, s) == (holds(marked.signals.dirty, s) || holds(subs, s)));
    }
    assert forall|j: int| 0 <= j < n implies #[trigger] phase2_node(w, after, j) by {
        let x = entity_id(j);
        assert(is_node_id(x, n));
        lemma_holds_inserted_node(before.signals.processed, r, x, n);
        assert(holds(after.signals.dirty, x) == (holds(marked.signals.dirty, x) || holds(subs, x)));
        assert(phase2_node(w, before, j));
        if j != idx {
            assert(x != r);
        }
    }
    lemma_holds_inserted_node(before.signals.processed, r, r, n);
}

/// One entity id once the first id of `rem` is processed.
proof fn lemma_phase2_process_id<V>(
    w: WorldView<V>,
    before: WorldView<V>,
    after: WorldView<V>,
    rem: Seq<u64>,
    first: bool,
    subs: Seq<u64>,
    trig: bool,
    x: u64,
)
    requires
        rem.len() > 0,
        phase2_id(w, before, rem, first, x),
        phase2_id(w, before, rem, first, rem[0]),
        holds(rem, rem[0]),
        !holds(before.signals.processed, rem[0]),
        holds(after.signals.processed, x) == (holds(before.signals.processed, x) || x == rem[0]),
        holds(after.signals.dirty, x) == (holds(before.signals.dirty, x) || holds(subs, x)),
        holds(after.signals.triggered, x) == (holds(before.signals.triggered, x) || (trig && holds(
            subs,
            x,
        ))),
        holds(after.signals.next_running, x) == (holds(before.signals.next_running, x) || (holds(
            subs,
            x,
        ) && !holds(after.signals.processed, x))),
        after.signals.changed == before.signals.changed,
        holds(rem, x) == (x == rem[0] || holds(rem.drop_first(), x)),
        trig == holds(before.signals.triggered, rem[0]),
        holds(subs, x) ==> notifies(w, rem[0], x),
    ensures
        phase2_id(w, after, rem.drop_first(), first, x),
{
    let r = rem[0];
    if holds(subs, x) {
        lemma_reach_step(w, r, x);
        if trigger_reachable(w, r) {
            lemma_trigger_step(w, r, x);
        }
    }
}

/// An entity once notification runs it: a computed is marked ComputeMemo and its subscribers are
/// removed (they are handed on), an effect is marked DeferredEffect.
pub open spec fn processed_node<V>(n: NodeView<V>) -> NodeView<V> {
    NodeView {
        state: if n.computed is Some {
            Some(CellView { subscribers: Seq::empty(), ..n.state.unwrap() })
        } else {
            n.state
        },
        markers: Markers {
            compute_memo: n.markers.compute_memo || n.computed is Some,
            deferred_effect: n.markers.deferred_effect || n.effect is Some,
            ..n.markers
        },
        ..n
    }
}

/// Adding no subscriber changes nothing.
proof fn lemma_subs_added_none<V>(cur: WorldView<V>, triggered: bool)
    ensures
        subs_added(cur, cur, Seq::empty(), triggered),
{
    assert forall|j: int| 0 <= j < cur.nodes.len() implies #[trigger] cur.nodes[j] == NodeView {
        markers: Markers {
            dirty: cur.nodes[j].markers.dirty || holds(Seq::empty(), entity_id(j)),
            triggered: cur.nodes[j].markers.triggered || (triggered && holds(
                Seq::empty(),
                entity_id(j),
            )),
            ..cur.nodes[j].markers
        },
        ..cur.nodes[j]
    } by {
        lemma_holds_empty(entity_id(j));
    }
    assert forall|x: u64| is_node_id(x, cur.nodes.len() as int) implies {
        &&& holds(cur.signals.dirty, x) == (holds(cur.signals.dirty, x) || holds(Seq::empty(), x))
        &&& holds(cur.signals.triggered, x) == (holds(cur.signals.triggered, x) || (triggered
            && holds(Seq::empty(), x)))
        &&& holds(cur.signals.next_running, x) == (holds(cur.signals.next_running, x) || (holds(
            Seq::empty(),
            x,
        ) && !holds(cur.signals.processed, x)))
    } by {
        lemma_holds_empty(x);
    }
}

impl<T: LazySignalsData> LazySignalsWorld<T> {
    /// Add the entity to the processed set and mark it ComputeMemo when it is a computed,
    /// DeferredEffect when it is an effect.
    fn mark_processed(&mut self, r: u64)
        requires
            world_wf(old(self)@),
            is_node_id(r, old(self)@.nodes.len() as int),
        ensures
            world_wf(final(self)@),
            final(self)@.signals == (crate::resource::ResourceView {
                processed: inserted(old(self)@.signals.processed, r),
                ..old(self)@.signals
            }),
            final(self)@.nodes == old(self)@.nodes.update(
                index_of(r),
                NodeView {
                    markers: Markers {
                        compute_memo: old(self)@.nodes[index_of(r)].markers.compute_memo
                            || old(self)@.nodes[index_of(r)].computed is Some,
                        deferred_effect: old(self)@.nodes[index_of(r)].markers.deferred_effect
                            || old(self)@.nodes[index_of(r)].effect is Some,
                        ..old(self)@.nodes[index_of(r)].markers
                    },
                    ..old(self)@.nodes[index_of(r)]
                },
            ),
    {
        let ghost before = self@;
        let len = self.nodes.len();
        proof {
            lemma_wf_resource(before);
            lemma_node_slots(r, r, len as int);
        }
        let idx = (r - ENTITY_BASE) as usize;
        set_insert(&mut self.signals.processed, r);
        if self.nodes[idx].effect.is_some() {
            self.nodes[idx].markers.deferred_effect = true;
        }
        if self.nodes[idx].computed.is_some() {
            self.nodes[idx].markers.compute_memo = true;
        }
        proof {
            super::subscribe::lemma_inserted_node_ids(before.signals.processed, r, len as int);
            lemma_holds_inserted_node(before.signals.processed, r, r, len as int);
            let nb = before.nodes[idx as int];
            assert(self@.nodes =~= before.nodes.update(
                idx as int,
                NodeView {
                    markers: Markers {
                        compute_memo: nb.markers.compute_memo || nb.computed is Some,
                        deferred_effect: nb.markers.deferred_effect || nb.effect is Some,
                        ..nb.markers
                    },
                    ..nb
                },
            ));
            assert forall|j: int| 0 <= j < len implies (#[trigger] self@.nodes[j]).state
                == before.nodes[j].state && self@.nodes[j].computed
                == before.nodes[j].computed by {}
            lemma_same_cells_wf(before, self@);
        }
    }

    /// Remove and hand back the subscribers of the cell of entity `idx`, which has one.
    fn take_node_subscribers(&mut self, idx: usize) -> (r: Vec<u64>)
        requires
            world_wf(old(self)@),
            idx < old(self)@.nodes.len(),
            old(self)@.nodes[idx as int].state is Some,
        ensures
            world_wf(final(self)@),
            final(self)@.signals == old(self)@.signals,
            final(self)@.nodes == old(self)@.nodes.update(
                idx as int,
                NodeView {
                    state: Some(
                        CellView {
                            subscribers: Seq::empty(),
                            ..old(self)@.nodes[idx as int].state.unwrap()
                        },
                    ),
                    ..old(self)@.nodes[idx as int]
                },
            ),
            r@ == old(self)@.nodes[idx as int].state.unwrap().subscribers,
            all_node_ids(r@, old(self)@.nodes.len() as int),
    {
        let ghost before = self@;
        let ghost c = before.nodes[idx as int].state.unwrap();
        proof {
            lemma_wf_cell(before, idx as int);
        }
        let r = match &mut self.nodes[idx].state {
            Some(cell) => cell.take_subscribers(),
            None => Vec::new(),
        };
        proof {
            assert(self@.nodes =~= before.nodes.update(
                idx as int,
                NodeView {
                    state: Some(CellView { subscribers: Seq::empty(), ..c }),
                    ..before.nodes[idx as int]
                },
            ));
            self.lemma_replace_wf(before, idx as int);
        }
        r
    }

    /// Run one id of the running set: unless processed already, process it and, when it is a
    /// computed, schedule its subscribers (triggered when it is).
    fn process_runner(
        &mut self,
        r: u64,
        Ghost(w): Ghost<WorldView<T::V>>,
        Ghost(rem): Ghost<Seq<u64>>,
        Ghost(first): Ghost<bool>,
    )
        requires
            world_wf(old(self)@),
            w.nodes.len() == old(self)@.nodes.len(),
            phase2_state(w, old(self)@, rem, first),
            rem.len() > 0,
            rem[0] == r,
            is_node_id(r, w.nodes.len() as int),
        ensures
            world_wf(final(self)@),
            phase2_state(w, final(self)@, rem.drop_first(), first),
            final(self)@.signals.running == old(self)@.signals.running,
            final(self)@.signals.processed.len() > old(self)@.signals.processed.len() || (
            final(self)@.signals.processed == old(self)@.signals.processed
                && final(self)@.signals.next_running == old(self)@.signals.next_running),
    {
        let ghost before = self@;
        let len = self.nodes.len();
        proof {
            lemma_wf_resource(before);
            lemma_node_slots(r, r, len as int);
        }
        if set_contains(&self.signals.processed, r) {
            proof {
                lemma_phase2_skip(w, before, rem, first);
            }
        } else {
            self.mark_processed(r);
            let idx = (r - ENTITY_BASE) as usize;
            let ghost marked1 = self@;
            assert(idx < marked1.nodes.len());
            assert(idx < self.nodes.len());
            if self.nodes[idx].computed.is_some() {
                proof {
                    lemma_wf_cell(marked1, idx as int);
                }
                let subs = self.take_node_subscribers(idx);
                let ghost marked = self@;
                proof {
                    assert(marked.nodes =~= before.nodes.update(
                        idx as int,
                        processed_node(before.nodes[idx as int]),
                    ));
                    lemma_wf_resource(marked);
                }
                let trig = set_contains(&self.signals.triggered, r);
                self.add_subs_to_running(&subs, trig);
                proof {
                    lemma_phase2_process(w, before, marked, self@, rem, first, subs@, trig);
                }
            } else {
                proof {
                    assert(marked1.nodes =~= before.nodes.update(
                        idx as int,
                        processed_node(before.nodes[idx as int]),
                    ));
                    lemma_subs_added_none(marked1, holds(before.signals.triggered, r));
                    lemma_phase2_process(
                        w,
                        before,
                        marked1,
                        marked1,
                        rem,
                        first,
                        Seq::empty(),
                        holds(before.signals.triggered, r),
                    );
                }
            }
        }
    }

    /// Walk the subscriber tree from the next running set, one running set at a time,
    /// processing each entity once, until nothing is scheduled.
    fn notify_subscribers(&mut self, Ghost(w): Ghost<WorldView<T::V>>, Ghost(first): Ghost<bool>)
        requires
            world_wf(old(self)@),
            w.nodes.len() == old(self)@.nodes.len(),
            phase2_state(w, old(self)@, Seq::empty(), first),
            old(self)@.signals.running == Seq::<u64>::empty(),
        ensures
            world_wf(final(self)@),
            phase2_state(w, final(self)@, Seq::empty(), first),
            final(self)@.signals.running == Seq::<u64>::empty(),
            final(self)@.signals.next_running == Seq::<u64>::empty(),
    {
        let len = self.nodes.len();
        loop
            invariant
                len == w.nodes.len(),
                len == self@.nodes.len(),
                world_wf(self@),
                phase2_state(w, self@, Seq::empty(), first),
                self@.signals.running == Seq::<u64>::empty(),
            ensures
                world_wf(self@),
                phase2_state(w, self@, Seq::empty(), first),
                self@.signals.running == Seq::<u64>::empty(),
                self@.signals.next_running == Seq::<u64>::empty(),
            decreases len - self@.signals.processed.len(), self@.signals.next_running.len(),
        {
            let ghost top = self@;
            proof {
                lemma_wf_resource(top);
            }
            let more = self.signals.merge_running();
            if !more {
                proof {
                    assert(self@.nodes == top.nodes);
                    assert(self@.signals.next_running =~= top.signals.next_running);
                    assert(self@.signals =~= top.signals);
                }
                break;
            }
            let ids = set_ids(&self.signals.running);
            proof {
                crate::lazy_immutable::lemma_insert_all(top.signals.running, top.signals.next_running);
                lemma_holds_empty_all(top.signals.running);
                super::subscribe::lemma_insert_all_node_ids(top.signals.running, top.signals.next_running, len as int);
                lemma_phase2_merge(w, top, self@, ids@, first);
                assert(ids@.subrange(0, ids@.len() as int) =~= ids@);
                lemma_same_cells_wf(top, self@);
            }
            let mut k: usize = 0;
            while k < ids.len()
                invariant
                    0 <= k <= ids.len(),
                    len == w.nodes.len(),
                    len == self@.nodes.len(),
                    world_wf(self@),
                    all_node_ids(ids@, len as int),
                    phase2_state(w, self@, ids@.subrange(k as int, ids@.len() as int), first),
                    self@.signals.running == ids@,
                    top.signals.next_running.len() > 0,
                    self@.signals.processed.len() > top.signals.processed.len() || (
                    self@.signals.processed == top.signals.processed
                        && self@.signals.next_running.len() == 0),
                decreases ids.len() - k,
            {
                let r = ids[k];
                let ghost rem = ids@.subrange(k as int, ids@.len() as int);
                proof {
                    assert(rem[0] == r);
                    assert(rem.drop_first() =~= ids@.subrange(k + 1, ids@.len() as int));
                }
                self.process_runner(r, Ghost(w), Ghost(rem), Ghost(first));
                k = k + 1;
            }
            let ghost done = self@;
            set_clear(&mut self.signals.running);
            proof {
                assert(ids@.subrange(ids@.len() as int, ids@.len() as int) =~= Seq::<u64>::empty());
                lemma_phase2_running(w, done, self@, Seq::empty(), first);
                lemma_wf_resource(done);
                lemma_same_cells_wf(done, self@);
                lemma_wf_resource(self@);
            }
        }
    }

    /// The signal system: merge every signal marked SendSignal, then walk the subscriber tree,
    /// marking computeds to recompute and effects to consider; a trigger is passed on down the
    /// whole tree (the walk starts from the triggered subscribers, then from all of them).
    pub fn send_signals(&mut self)
        requires
            world_wf(old(self)@),
        ensures
            world_wf(final(self)@),
            propagated(old(self)@, final(self)@),
    {
        let ghost w = self@;
        self.signals.init();
        proof {
            lemma_wf_resource(w);
            lemma_same_cells_wf(w, self@);
            lemma_phase1_start(w, self@);
        }
        self.merge_sent_signals(Ghost(w));
        let ghost merged_w = self@;
        let roots = set_ids(&self.signals.next_running);
        let triggered = set_ids(&self.signals.triggered);
        set_clear(&mut self.signals.next_running);
        proof {
            lemma_wf_resource(merged_w);
        }
        insert_ids(&mut self.signals.next_running, &triggered);
        proof {
            lemma_insert_all(Seq::empty(), triggered@);
            super::subscribe::lemma_insert_all_node_ids(Seq::empty(), triggered@, w.nodes.len() as int);
            lemma_walk_start(w, merged_w, self@);
            lemma_same_cells_wf(merged_w, self@);
        }
        self.notify_subscribers(Ghost(w), Ghost(true));
        let ghost walked = self@;
        proof {
            lemma_wf_resource(walked);
        }
        insert_ids(&mut self.signals.next_running, &roots);
        proof {
            lemma_insert_all(Seq::empty(), roots@);
            super::subscribe::lemma_insert_all_node_ids(Seq::empty(), roots@, w.nodes.len() as int);
            assert forall|x: u64| is_node_id(x, w.nodes.len() as int) implies #[trigger] holds(
                self@.signals.next_running,
                x,
            ) == is_root(w, x) by {
                lemma_holds_empty(x);
                assert(holds(merged_w.signals.next_running, x) == root_upto(w, w.nodes.len() as int, x));
                if is_root(w, x) {
                    let j = choose|j: int| #[trigger] root_from(w, j, x);
                    assert(root_from(w, j, x) && j < w.nodes.len());
                }
                if root_upto(w, w.nodes.len() as int, x) {
                    let j = choose|j: int| #[trigger] root_from(w, j, x) && j < w.nodes.len();
                    assert(is_root(w, x));
                }
            }
            lemma_walk_restart(w, walked, self@);
            lemma_same_cells_wf(walked, self@);
        }
        self.notify_subscribers(Ghost(w), Ghost(false));
        proof {
            lemma_wf_resource(self@);
            lemma_phase2_done(w, self@);
        }
    }
}

/// Nothing is held by the ids of an empty set.
proof fn lemma_holds_empty_all(ids: Seq<u64>)
    requires
        ids == Seq::<u64>::empty(),
    ensures
        forall|x: u64| !holds(ids, x),
{
}

} // verus!
