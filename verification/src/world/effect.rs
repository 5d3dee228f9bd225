//! The effect system: decide which deferred effects run (those triggered and those with a
//! changed dependency), keep every deferred effect subscribed, and hand the runs to the caller,
//! which reads each effect's arguments and runs its closure; long-running effects are marked
//! RunningTask until their task completes.
use super::computed::{source_arg, sub_node};
use super::subscribe::{
    batch_cells, cells_upto, lemma_batch_end, lemma_batch_next, lemma_batch_same,
    lemma_batch_start,
};
use super::{
    entity_id, index_of, is_node_id, lemma_node_slots, lemma_wf_cell, lemma_wf_resource, world_wf,
    EffectContext, EffectView, LazySignalsWorld, Markers, NodeView, WorldView, ENTITY_BASE,
    MAX_ENTITIES,
};
use crate::framework::{option_view, LazySignalsData, LazySignalsVec};
use vstd::prelude::*;

verus! {

/// Entity `e` is an effect waiting to be considered: marked DeferredEffect, with no task of it
/// still running.
pub open spec fn is_scheduled<V>(w: WorldView<V>, e: int) -> bool {
    &&& 0 <= e < w.nodes.len()
    &&& w.nodes[e].effect is Some
    &&& w.nodes[e].markers.deferred_effect
    &&& !w.nodes[e].markers.running_task
}

/// What an effect depends on: its sources, then its triggers.
pub open spec fn effect_deps(e: EffectView) -> Seq<u64> {
    e.sources + e.triggers
}

/// Entity `d` is marked ValueChanged.
pub open spec fn value_changed<V>(w: WorldView<V>, d: u64) -> bool {
    is_node_id(d, w.nodes.len() as int) && w.nodes[index_of(d)].markers.value_changed
}

/// Some id of `deps` is marked ValueChanged.
pub open spec fn any_changed<V>(w: WorldView<V>, deps: Seq<u64>) -> bool {
    exists|k: int| 0 <= k < deps.len() && #[trigger] value_changed(w, deps[k])
}

/// A scheduled effect runs when it is marked Triggered or one of its dependencies changed.
pub open spec fn effect_runs<V>(w: WorldView<V>, e: int) -> bool {
    &&& is_scheduled(w, e)
    &&& (w.nodes[e].markers.triggered || any_changed(w, effect_deps(w.nodes[e].effect.unwrap())))
}

/// The effects among the first `i` entities that run, in order.
pub open spec fn runs_upto<V>(w: WorldView<V>, i: int) -> Seq<u64>
    decreases i,
{
    if i <= 0 {
        Seq::empty()
    } else {
        runs_upto(w, i - 1) + if effect_runs(w, i - 1) {
            seq![entity_id(i - 1)]
        } else {
            Seq::<u64>::empty()
        }
    }
}

/// What each entity subscribes to in the effect system: a scheduled effect its dependencies,
/// so that it is notified next time, run or not.
pub open spec fn effect_plan<V>(w: WorldView<V>) -> spec_fn(int) -> Seq<u64> {
    |e: int|
        if is_scheduled(w, e) {
            effect_deps(w.nodes[e].effect.unwrap())
        } else {
            Seq::<u64>::empty()
        }
}

/// The markers of entity `j` once the effect system has considered the first `i` entities:
/// a scheduled effect loses DeferredEffect, and Triggered when it runs.
pub open spec fn effect_markers<V>(w: WorldView<V>, j: int, i: int) -> Markers {
    if j < i && is_scheduled(w, j) {
        Markers {
            deferred_effect: false,
            triggered: w.nodes[j].markers.triggered && !effect_runs(w, j),
            ..w.nodes[j].markers
        }
    } else {
        w.nodes[j].markers
    }
}

/// `w2` is `w` after the effect system, which handed back `runs`: the effects that run, in
/// entity order; every scheduled effect is subscribed to its dependencies.
pub open spec fn effects_applied<V>(w: WorldView<V>, w2: WorldView<V>, runs: Seq<u64>) -> bool {
    &&& runs == runs_upto(w, w.nodes.len() as int)
    &&& w2.signals == w.signals
    &&& batch_cells(w, effect_plan(w), w2)
    &&& forall|j: int|
        0 <= j < w.nodes.len() ==> #[trigger] w2.nodes[j].markers == effect_markers(
            w,
            j,
            w.nodes.len() as int,
        )
}

/// The effect system while it has considered the first `i` entities.
pub open spec fn effects_progress<V>(w: WorldView<V>, cur: WorldView<V>, runs: Seq<u64>, i: int) -> bool {
    &&& runs == runs_upto(w, i)
    &&& cur.signals == w.signals
    &&& cells_upto(w, effect_plan(w), cur, i, 0)
    &&& forall|j: int|
        0 <= j < w.nodes.len() ==> #[trigger] cur.nodes[j].markers == effect_markers(w, j, i)
}

/// The effect on entity `effect` can read its arguments: it exists, has an effect, and each of
/// its sources is an entity with a cell.
pub open spec fn effect_readable<V>(w: WorldView<V>, effect: u64) -> bool {
    &&& is_node_id(effect, w.nodes.len() as int)
    &&& w.nodes[index_of(effect)].effect is Some
    &&& forall|k: int|
        0 <= k < w.nodes[index_of(effect)].effect.unwrap().sources.len() ==> {
            let s = #[trigger] w.nodes[index_of(effect)].effect.unwrap().sources[k];
            is_node_id(s, w.nodes.len() as int) && w.nodes[index_of(s)].state is Some
        }
}

impl<T: LazySignalsData> LazySignalsWorld<T> {
    /// The dependencies of the effect at `index`.
    fn effect_deps_at(&self, index: usize) -> (r: Vec<u64>)
        requires
            index < self@.nodes.len(),
            self@.nodes[index as int].effect is Some,
        ensures
            r@ == effect_deps(self@.nodes[index as int].effect.unwrap()),
    {
        let mut r = LazySignalsVec::new();
        match &self.nodes[index].effect {
            Some(e) => {
                let mut s = e.sources.duplicate();
                r.append(&mut s);
                let mut t = e.triggers.duplicate();
                r.append(&mut t);
            },
            None => {},
        }
        r.into_vec()
    }

    /// Whether some id of `deps` is marked ValueChanged.
    fn any_value_changed(&self, deps: &Vec<u64>) -> (r: bool)
        ensures
            r == any_changed(self@, deps@),
    {
        let mut k: usize = 0;
        while k < deps.len()
            invariant
                0 <= k <= deps.len(),
                forall|k2: int| 0 <= k2 < k ==> !#[trigger] value_changed(self@, deps@[k2]),
            decreases deps.len() - k,
        {
            if let Some(index) = self.node_index(deps[k]) {
                if self.nodes[index].markers.value_changed {
                    proof {
                        assert(self@.nodes[index as int] == self.nodes@[index as int]@);
                        assert(value_changed(self@, deps@[k as int]));
                    }
                    return true;
                }
                proof {
                    assert(self@.nodes[index as int] == self.nodes@[index as int]@);
                }
            }
            k = k + 1;
        }
        false
    }

    /// The effect system: consider each effect marked DeferredEffect (whose task, if any, is not
    /// still running), in entity order: it runs when it is marked Triggered or one of its
    /// dependencies is marked ValueChanged.  DeferredEffect is removed, Triggered too when it
    /// runs, and it subscribes to its dependencies either way.  The effects that run are handed
    /// back, in order, for the caller to read their arguments with `effect_args` and run them.
    pub fn apply_deferred_effects(&mut self) -> (runs: Vec<u64>)
        requires
            world_wf(old(self)@),
        ensures
            world_wf(final(self)@),
            effects_applied(old(self)@, final(self)@, runs@),
    {
        let ghost w = self@;
        let ghost plan = effect_plan(w);
        let len = self.nodes.len();
        proof {
            lemma_wf_resource(w);
            lemma_batch_start(w, plan);
        }
        let mut runs: Vec<u64> = Vec::new();
        let mut i: usize = 0;
        while i < len
            invariant
                0 <= i <= len,
                len == w.nodes.len(),
                len <= MAX_ENTITIES,
                plan == effect_plan(w),
                world_wf(self@),
                effects_progress(w, self@, runs@, i as int),
            decreases len - i,
        {
            let ghost cur = self@;
            proof {
                assert(cur.nodes[i as int].markers == w.nodes[i as int].markers);
                lemma_wf_cell(cur, i as int);
            }
            let scheduled = self.nodes[i].effect.is_some() && self.nodes[i].markers.deferred_effect
                && !self.nodes[i].markers.running_task;
            if scheduled {
                let deps = self.effect_deps_at(i);
                let changed = self.any_value_changed(&deps);
                proof {
                    assert forall|d: u64| #[trigger] value_changed(cur, d) == value_changed(w, d) by {
                        if is_node_id(d, len as int) {
                            assert(cur.nodes[index_of(d)].markers == effect_markers(w, index_of(d), i as int));
                        }
                    }
                    if any_changed(cur, deps@) {
                        let k = choose|k: int| 0 <= k < deps@.len() && #[trigger] value_changed(cur, deps@[k]);
                        assert(value_changed(w, deps@[k]));
                    }
                    if any_changed(w, deps@) {
                        let k = choose|k: int| 0 <= k < deps@.len() && #[trigger] value_changed(w, deps@[k]);
                        assert(value_changed(cur, deps@[k]));
                    }
                    assert(effect_runs(w, i as int) == (w.nodes[i as int].markers.triggered || changed));
                }
                let run = self.nodes[i].markers.triggered || changed;
                let entity = ENTITY_BASE + i as u64;
                if run {
                    runs.push(entity);
                    self.nodes[i].markers.triggered = false;
                }
                self.nodes[i].markers.deferred_effect = false;
                let ghost marked = self@;
                proof {
                    assert(marked.nodes =~= cur.nodes.update(
                        i as int,
                        NodeView { markers: effect_markers(w, i as int, i as int + 1), ..cur.nodes[i as int] },
                    ));
                    self.lemma_replace_wf(cur, i as int);
                    lemma_batch_same(w, plan, cur, marked, i as int, 0);
                    assert(deps@ == plan(i as int));
                    assert(index_of(entity) == i);
                }
                self.subscribe_all(entity, &deps, Ghost(w), Ghost(plan));
                proof {
                    lemma_batch_next(w, plan, self@, i as int);
                    assert forall|j: int| 0 <= j < len implies #[trigger] self@.nodes[j].markers
                        == effect_markers(w, j, i as int + 1) by {
                        assert(marked.nodes[j].markers == self@.nodes[j].markers);
                    }
                    assert(runs@ =~= runs_upto(w, i as int + 1));
                }
            } else {
                proof {
                    assert(!is_scheduled(w, i as int));
                    assert(plan(i as int) == Seq::<u64>::empty());
                    lemma_batch_next(w, plan, self@, i as int);
                    assert forall|j: int| 0 <= j < len implies #[trigger] self@.nodes[j].markers
                        == effect_markers(w, j, i as int + 1) by {}
                    assert(runs@ =~= runs_upto(w, i as int + 1));
                }
            }
            i = i + 1;
        }
        proof {
            lemma_batch_end(w, plan, self@);
        }
        runs
    }

    /// The arguments of an effect about to run: the data of each of its sources, in order
    /// (triggers pass no data); the effect joins the pending subscribers of each source.
    pub fn effect_args(&mut self, effect: u64) -> (args: Vec<Option<T>>)
        requires
            world_wf(old(self)@),
            effect_readable(old(self)@, effect),
        ensures
            world_wf(final(self)@),
            final(self)@.nodes.len() == old(self)@.nodes.len(),
            final(self)@.signals == old(self)@.signals,
            forall|j: int|
                0 <= j < old(self)@.nodes.len() ==> #[trigger] sub_node(
                    old(self)@,
                    final(self)@,
                    effect,
                    old(self)@.nodes[index_of(effect)].effect.unwrap().sources,
                    j,
                ),
            args@.len() == old(self)@.nodes[index_of(effect)].effect.unwrap().sources.len(),
            forall|k: int|
                0 <= k < args@.len() ==> option_view(#[trigger] args@[k]) == source_arg(
                    old(self)@,
                    old(self)@.nodes[index_of(effect)].effect.unwrap().sources[k],
                ),
    {
        let len = self.nodes.len();
        proof {
            lemma_wf_resource(self@);
            lemma_node_slots(effect, effect, len as int);
        }
        let index = (effect - ENTITY_BASE) as usize;
        let srcs = match &self.nodes[index].effect {
            Some(e) => e.sources.duplicate().into_vec(),
            None => Vec::new(),
        };
        self.read_sources(effect, &srcs)
    }

    /// Whether the effect on the entity can read its arguments (see `effect_readable`).
    pub fn effect_sources_ready(&self, effect: u64) -> (r: bool)
        ensures
            r == effect_readable(self@, effect),
    {
        let ghost w = self@;
        let index = match self.node_index(effect) {
            Some(index) => index,
            None => {
                return false;
            },
        };
        proof {
            assert(w.nodes[index as int] == self.nodes@[index as int]@);
        }
        let srcs = match &self.nodes[index].effect {
            Some(e) => e.sources.duplicate().into_vec(),
            None => {
                return false;
            },
        };
        let mut k: usize = 0;
        while k < srcs.len()
            invariant
                0 <= k <= srcs.len(),
                w == self@,
                is_node_id(effect, w.nodes.len() as int),
                w.nodes[index_of(effect)].effect is Some,
                srcs@ == w.nodes[index_of(effect)].effect.unwrap().sources,
                forall|k2: int|
                    0 <= k2 < k ==> {
                        let s = #[trigger] w.nodes[index_of(effect)].effect.unwrap().sources[k2];
                        is_node_id(s, w.nodes.len() as int) && w.nodes[index_of(s)].state is Some
                    },
            decreases srcs.len() - k,
        {
            let s = srcs[k];
            let ready = match self.node_index(s) {
                Some(sidx) => {
                    proof {
                        assert(w.nodes[sidx as int] == self.nodes@[sidx as int]@);
                    }
                    self.nodes[sidx].state.is_some()
                },
                None => false,
            };
            proof {
                assert(w.nodes[index_of(effect)].effect.unwrap().sources[k as int] == s);
            }
            if !ready {
                return false;
            }
            k = k + 1;
        }
        true
    }

    /// How the effect on the entity runs, if it has one.
    pub fn effect_context(&self, effect: u64) -> (r: Option<EffectContext>)
        ensures
            r == (if is_node_id(effect, self@.nodes.len() as int) && self@.nodes[index_of(
                effect,
            )].effect is Some {
                Some(self@.nodes[index_of(effect)].effect.unwrap().function)
            } else {
                None
            }),
    {
        match self.node_index(effect) {
            Some(index) => {
                proof {
                    assert(self@.nodes[index as int] == self.nodes@[index as int]@);
                }
                match &self.nodes[index].effect {
                    Some(e) => Some(e.function),
                    None => None,
                }
            },
            None => None,
        }
    }

    /// Mark the entity RunningTask: its task has been started and it will not run again until
    /// the task completes.  Nothing happens when the entity does not exist.
    pub fn start_task(&mut self, effect: u64)
        requires
            world_wf(old(self)@),
        ensures
            world_wf(final(self)@),
            final(self)@ == (if is_node_id(effect, old(self)@.nodes.len() as int) {
                WorldView {
                    nodes: old(self)@.nodes.update(
                        index_of(effect),
                        NodeView {
                            markers: Markers {
                                running_task: true,
                                ..old(self)@.nodes[index_of(effect)].markers
                            },
                            ..old(self)@.nodes[index_of(effect)]
                        },
                    ),
                    ..old(self)@
                }
            } else {
                old(self)@
            }),
    {
        self.set_running_task(effect, true);
    }

    /// Check tasks: remove RunningTask from each entity whose task has completed, so that it can
    /// run again.  Entities that do not exist are skipped.
    pub fn check_tasks(&mut self, completed: &Vec<u64>)
        requires
            world_wf(old(self)@),
        ensures
            world_wf(final(self)@),
            final(self)@.signals == old(self)@.signals,
            final(self)@.nodes.len() == old(self)@.nodes.len(),
            forall|j: int|
                0 <= j < old(self)@.nodes.len() ==> #[trigger] final(self)@.nodes[j] == (NodeView {
                    markers: Markers {
                        running_task: old(self)@.nodes[j].markers.running_task
                            && !completed@.contains(entity_id(j)),
                        ..old(self)@.nodes[j].markers
                    },
                    ..old(self)@.nodes[j]
                }),
    {
        let ghost w = self@;
        proof {
            lemma_wf_resource(w);
        }
        let mut k: usize = 0;
        while k < completed.len()
            invariant
                0 <= k <= completed.len(),
                w.nodes.len() <= MAX_ENTITIES,
                world_wf(self@),
                self@.signals == w.signals,
                self@.nodes.len() == w.nodes.len(),
                forall|j: int|
                    0 <= j < w.nodes.len() ==> #[trigger] self@.nodes[j] == (NodeView {
                        markers: Markers {
                            running_task: w.nodes[j].markers.running_task
                                && !completed@.take(k as int).contains(entity_id(j)),
                            ..w.nodes[j].markers
                        },
                        ..w.nodes[j]
                    }),
            decreases completed.len() - k,
        {
            let ghost before = self@;
            self.set_running_task(completed[k], false);
            proof {
                assert forall|j: int| 0 <= j < w.nodes.len() implies #[trigger] self@.nodes[j]
                    == NodeView {
                    markers: Markers {
                        running_task: w.nodes[j].markers.running_task && !completed@.take(
                            k + 1,
                        ).contains(entity_id(j)),
                        ..w.nodes[j].markers
                    },
                    ..w.nodes[j]
                } by {
                    let x = entity_id(j);
                    assert(is_node_id(x, w.nodes.len() as int));
                    lemma_take_push_contains(completed@, k as int, x);
                    assert(before.nodes[j] == NodeView {
                        markers: Markers {
                            running_task: w.nodes[j].markers.running_task && !completed@.take(
                                k as int,
                            ).contains(x),
                            ..w.nodes[j].markers
                        },
                        ..w.nodes[j]
                    });
                    if completed@[k as int] == x {
                        assert(index_of(completed@[k as int]) == j);
                    } else if is_node_id(completed@[k as int], w.nodes.len() as int) {
                        assert(index_of(completed@[k as int]) != j);
                    }
                }
            }
            k = k + 1;
        }
        proof {
            assert(completed@.take(completed@.len() as int) =~= completed@);
        }
    }

    /// Set or clear the RunningTask marker of the entity, when it exists.
    fn set_running_task(&mut self, effect: u64, running: bool)
        requires
            world_wf(old(self)@),
        ensures
            world_wf(final(self)@),
            final(self)@ == (if is_node_id(effect, old(self)@.nodes.len() as int) {
                WorldView {
                    nodes: old(self)@.nodes.update(
                        index_of(effect),
                        NodeView {
                            markers: Markers {
                                running_task: running,
                                ..old(self)@.nodes[index_of(effect)].markers
                            },
                            ..old(self)@.nodes[index_of(effect)]
                        },
                    ),
                    ..old(self)@
                }
            } else {
                old(self)@
            }),
    {
        let ghost before = self@;
        if let Some(index) = self.node_index(effect) {
            proof {
                lemma_wf_cell(before, index as int);
            }
            self.nodes[index].markers.running_task = running;
            proof {
                assert(self@.nodes =~= before.nodes.update(
                    index as int,
                    NodeView {
                        markers: Markers { running_task: running, ..before.nodes[index as int].markers },
                        ..before.nodes[index as int]
                    },
                ));
                self.lemma_replace_wf(before, index as int);
            }
        }
    }
}

/// A prefix one longer contains what the shorter one does and the added element.
proof fn lemma_take_push_contains(ids: Seq<u64>, k: int, x: u64)
    requires
        0 <= k < ids.len(),
    ensures
        ids.take(k + 1).contains(x) == (ids.take(k).contains(x) || ids[k] == x),
{
    assert(ids.take(k + 1) =~= ids.take(k).push(ids[k]));
    super::computed::lemma_push_contains(ids.take(k), ids[k], x);
}

} // verus!
