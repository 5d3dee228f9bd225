//! The init system: forget last tick's changes and subscribe new computeds and effects to
//! their dependencies.
use super::subscribe::{
    batch_cells, cells_upto, lemma_batch_end, lemma_batch_next, lemma_batch_same,
    lemma_batch_start,
};
use super::{
    index_of, lemma_wf_cell, lemma_wf_resource, world_wf, LazySignalsWorld, Markers, NodeView,
    WorldView, ENTITY_BASE, MAX_ENTITIES,
};
use crate::framework::{LazySignalsData, LazySignalsVec};
use vstd::prelude::*;

verus! {

/// The dependencies of an entity: the sources of its computed, then the sources and the
/// triggers of its effect.
pub open spec fn deps_of<V>(n: NodeView<V>) -> Seq<u64> {
    (match n.computed {
        Some(s) => s,
        None => Seq::empty(),
    }) + (match n.effect {
        Some(e) => e.sources + e.triggers,
        None => Seq::empty(),
    })
}

/// What each entity subscribes to in the init system: an entity marked InitDependencies its
/// dependencies, any other nothing.
pub open spec fn init_plan<V>(w: WorldView<V>) -> spec_fn(int) -> Seq<u64> {
    |e: int|
        if w.nodes[e].markers.init_dependencies {
            deps_of(w.nodes[e])
        } else {
            Seq::<u64>::empty()
        }
}

/// `w2` is `w` after the init system: every ValueChanged and InitDependencies marker is gone, and
/// every entity marked InitDependencies has subscribed to each of its dependencies that has a
/// cell (see `batch_cells`); nothing else changes.
pub open spec fn initialized<V>(w: WorldView<V>, w2: WorldView<V>) -> bool {
    &&& w2.signals == w.signals
    &&& batch_cells(w, init_plan(w), w2)
    &&& forall|j: int|
        0 <= j < w.nodes.len() ==> #[trigger] w2.nodes[j].markers == Markers {
            value_changed: false,
            init_dependencies: false,
            ..w.nodes[j].markers
        }
}

/// The world while the init system is at entity `i`, which has subscribed to its first `k`
/// dependencies; `cleared` says whether entity `i` has already lost its ValueChanged marker.
pub open spec fn init_progress<V>(
    w: WorldView<V>,
    cur: WorldView<V>,
    i: int,
    k: int,
    cleared: bool,
) -> bool {
    &&& cur.signals == w.signals
    &&& cells_upto(w, init_plan(w), cur, i, k)
    &&& forall|j: int|
        0 <= j < w.nodes.len() ==> #[trigger] cur.nodes[j].markers == if j < i {
            Markers { value_changed: false, init_dependencies: false, ..w.nodes[j].markers }
        } else if j == i && cleared {
            Markers { value_changed: false, ..w.nodes[j].markers }
        } else {
            w.nodes[j].markers
        }
}

impl<T: LazySignalsData> LazySignalsWorld<T> {
    /// The dependencies of the entity at `index`.
    fn deps(&self, index: usize) -> (r: Vec<u64>)
        requires
            index < self@.nodes.len(),
        ensures
            r@ == deps_of(self@.nodes[index as int]),
    {
        let mut r = LazySignalsVec::new();
        match &self.nodes[index].computed {
            Some(c) => {
                let mut s = c.sources.duplicate();
                r.append(&mut s);
            },
            None => {},
        }
        match &self.nodes[index].effect {
            Some(e) => {
                let mut s = e.sources.duplicate();
                r.append(&mut s);
                let mut t = e.triggers.duplicate();
                r.append(&mut t);
            },
            None => {},
        }
        proof {
            assert(r.0@ =~= deps_of(self@.nodes[index as int]));
        }
        r.into_vec()
    }

    /// Init system: remove every ValueChanged marker, and subscribe each entity marked
    /// InitDependencies to each of its dependencies, removing the marker.
    pub fn init_lazy_signals(&mut self)
        requires
            world_wf(old(self)@),
        ensures
            initialized(old(self)@, final(self)@),
            world_wf(final(self)@),
    {
        let ghost w = self@;
        let ghost plan = init_plan(w);
        let len = self.nodes.len();
        let mut i: usize = 0;
        proof {
            lemma_wf_resource(w);
            lemma_batch_start(w, plan);
        }
        while i < len
            invariant
                0 <= i <= len,
                len == w.nodes.len(),
                len <= MAX_ENTITIES,
                plan == init_plan(w),
                world_wf(self@),
                init_progress(w, self@, i as int, 0, false),
            decreases len - i,
        {
            let ghost before_clear = self@;
            self.nodes[i].markers.value_changed = false;
            proof {
                lemma_wf_cell(before_clear, i as int);
                assert(self@.nodes =~= before_clear.nodes.update(
                    i as int,
                    NodeView {
                        markers: Markers { value_changed: false, ..before_clear.nodes[i as int].markers },
                        ..before_clear.nodes[i as int]
                    },
                ));
                self.lemma_replace_wf(before_clear, i as int);
                lemma_batch_same(w, plan, before_clear, self@, i as int, 0);
                assert(self@.nodes[i as int].markers.init_dependencies == w.nodes[i as int].markers.init_dependencies);
            }
            if self.nodes[i].markers.init_dependencies {
                let deps = self.deps(i);
                let entity = ENTITY_BASE + i as u64;
                let ghost before_subs = self@;
                proof {
                    assert(deps@ == plan(i as int));
                    assert(index_of(entity) == i);
                }
                self.subscribe_all(entity, &deps, Ghost(w), Ghost(plan));
                let ghost before_finish = self@;
                self.nodes[i].markers.init_dependencies = false;
                proof {
                    lemma_wf_cell(before_finish, i as int);
                    assert(self@.nodes =~= before_finish.nodes.update(
                        i as int,
                        NodeView {
                            markers: Markers {
                                init_dependencies: false,
                                ..before_finish.nodes[i as int].markers
                            },
                            ..before_finish.nodes[i as int]
                        },
                    ));
                    self.lemma_replace_wf(before_finish, i as int);
                    lemma_batch_same(w, plan, before_finish, self@, i as int, deps@.len() as int);
                    lemma_batch_next(w, plan, self@, i as int);
                    assert forall|j: int| 0 <= j < w.nodes.len() implies #[trigger] self@.nodes[j].markers == if j < i + 1 {
                        Markers { value_changed: false, init_dependencies: false, ..w.nodes[j].markers }
                    } else if j == i + 1 && false {
                        Markers { value_changed: false, ..w.nodes[j].markers }
                    } else {
                        w.nodes[j].markers
                    } by {
                        assert(before_finish.nodes[j].markers == before_subs.nodes[j].markers);
                    }
                }
            } else {
                proof {
                    assert(plan(i as int) == Seq::<u64>::empty());
                    lemma_batch_next(w, plan, self@, i as int);
                    assert forall|j: int| 0 <= j < w.nodes.len() implies #[trigger] self@.nodes[j].markers == if j < i + 1 {
                        Markers { value_changed: false, init_dependencies: false, ..w.nodes[j].markers }
                    } else if j == i + 1 && false {
                        Markers { value_changed: false, ..w.nodes[j].markers }
                    } else {
                        w.nodes[j].markers
                    } by {}
                }
            }
            i = i + 1;
        }
        proof {
            lemma_batch_end(w, plan, self@);
        }
    }
}

} // verus!
