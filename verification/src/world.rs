//! The reactive world: every entity with its cell, computed, effect and markers, and the
//! commands that create and signal them.  The systems that process a tick live in the
//! submodules.
//!
//! A world holds cells of one value type `T`.  Cells of several types live in one world by
//! making `T` an enum of them.  Entity ids are handed out by the world itself, in order:
//! `spawn_empty` gives the next index, with generation 1, in the bit layout of
//! `Entity::to_bits`.  They name entities of this world, not entities spawned in a Bevy world.
use crate::entity_set::{holds, ids_valid, is_entity_bits, slot};
use crate::framework::{
    option_view, LazySignalsData, LazySignalsError, LazySignalsResult, LazySignalsVec,
};
use crate::lazy_immutable::{cell_wf, with_next, CellView, LazySignalsState};
use crate::resource::{fresh_resource, resource_wf, LazySignalsResource, ResourceView};
use vstd::prelude::*;

pub mod computed;
pub mod effect;
pub mod init;
pub mod signal;
pub mod subscribe;

verus! {

/// Bits of the first entity: index 0, generation 1.
pub const ENTITY_BASE: u64 = 0x1_0000_0000;

/// Most entities a world holds (entity indices are 31-bit here).
pub const MAX_ENTITIES: usize = 0x7FFF_FFFF;

/// The bits of the entity with the given index (generation 1).
pub open spec fn entity_id(index: int) -> u64 {
    (ENTITY_BASE + index) as u64
}

/// The index of an entity id.
pub open spec fn index_of(id: u64) -> int {
    id - ENTITY_BASE
}

/// `id` names one of the first `n` entities.
pub open spec fn is_node_id(id: u64, n: int) -> bool {
    ENTITY_BASE <= id && id - ENTITY_BASE < n
}

/// Every id names one of the first `n` entities.
pub open spec fn all_node_ids(ids: Seq<u64>, n: int) -> bool {
    forall|k: int| 0 <= k < ids.len() ==> is_node_id(#[trigger] ids[k], n)
}

/// Marker components of an entity.
#[derive(Clone, Copy, Debug, PartialEq, Eq, Structural)]
pub struct Markers {
    /// SendSignal: the cell has a next value to merge.
    pub send_signal: bool,
    /// ComputeMemo: the computed needs computing.
    pub compute_memo: bool,
    /// DeferredEffect: the effect needs to be considered for running.
    pub deferred_effect: bool,
    /// Dirty: the value may have changed and needs to be evaluated.
    pub dirty: bool,
    /// InitDependencies: the computed or effect must subscribe to its dependencies.
    pub init_dependencies: bool,
    /// RunningTask: the action's task may still be running.
    pub running_task: bool,
    /// Triggered: the effect (or computed) was triggered.
    pub triggered: bool,
    /// ValueChanged: the signal or computed actually changed.
    pub value_changed: bool,
}

/// No marker set.
pub open spec fn no_markers() -> Markers {
    Markers {
        send_signal: false,
        compute_memo: false,
        deferred_effect: false,
        dirty: false,
        init_dependencies: false,
        running_task: false,
        triggered: false,
        value_changed: false,
    }
}

/// How an effect runs: briefly with world access, or as a long-running action.
#[derive(Clone, Copy, Debug, PartialEq, Eq, Structural)]
pub enum EffectContext {
    Short,
    Long,
}

/// A computed memoizes in the entity's cell what its function makes of its sources.
pub struct ComputedImmutable {
    pub sources: LazySignalsVec,
}

/// An effect runs side effects when a source changes or a trigger fires.
pub struct LazyEffect {
    pub function: EffectContext,
    pub sources: LazySignalsVec,
    pub triggers: LazySignalsVec,
}

/// The effect part of an entity, as mathematical values.
pub struct EffectView {
    pub function: EffectContext,
    pub sources: Seq<u64>,
    pub triggers: Seq<u64>,
}

/// One entity and its components.
pub struct Node<T> {
    pub state: Option<LazySignalsState<T>>,
    pub computed: Option<ComputedImmutable>,
    pub effect: Option<LazyEffect>,
    pub markers: Markers,
}

/// One entity, as mathematical values.
pub struct NodeView<V> {
    pub state: Option<CellView<V>>,
    pub computed: Option<Seq<u64>>,
    pub effect: Option<EffectView>,
    pub markers: Markers,
}

impl<T: View> View for Node<T> {
    type V = NodeView<T::V>;

    open spec fn view(&self) -> NodeView<T::V> {
        NodeView {
            state: match self.state {
                Some(s) => Some(s@),
                None => None,
            },
            computed: match self.computed {
                Some(c) => Some(c.sources.0@),
                None => None,
            },
            effect: match self.effect {
                Some(e) => Some(
                    EffectView {
                        function: e.function,
                        sources: e.sources.0@,
                        triggers: e.triggers.0@,
                    },
                ),
                None => None,
            },
            markers: self.markers,
        }
    }
}

/// The whole world, as mathematical values.
pub struct WorldView<V> {
    pub nodes: Seq<NodeView<V>>,
    pub signals: ResourceView,
}

/// The entities and the propagation resource.  Every cell of the world holds a `T` (an enum
/// when several kinds of data are needed); entity ids are the world's own (see `spawn_empty`).
pub struct LazySignalsWorld<T> {
    nodes: Vec<Node<T>>,
    signals: LazySignalsResource,
}

impl<T: View> View for LazySignalsWorld<T> {
    type V = WorldView<T::V>;

    closed spec fn view(&self) -> WorldView<T::V> {
        WorldView { nodes: self.nodes@.map_values(|n: Node<T>| n@), signals: self.signals@ }
    }
}

/// An entity with no component.
pub open spec fn empty_node<V>() -> NodeView<V> {
    NodeView { state: None, computed: None, effect: None, markers: no_markers() }
}

/// The cell of a fresh state or computed.
pub open spec fn fresh_cell<V>(data: LazySignalsResult<V>) -> CellView<V> {
    CellView {
        data,
        next_value: crate::framework::placeholder(),
        triggered: false,
        subscribers: Seq::empty(),
        next_subscribers: Seq::empty(),
    }
}

/// Cells are well formed and only hold subscribers that are entities of the world; every
/// computed has a cell; the resource's sets hold valid ids of entities of the world.
#[verifier::opaque]
pub open spec fn world_wf<V>(w: WorldView<V>) -> bool {
    &&& w.nodes.len() <= MAX_ENTITIES
    &&& forall|i: int|
        0 <= i < w.nodes.len() && (#[trigger] w.nodes[i]).state is Some ==> {
            let c = w.nodes[i].state.unwrap();
            &&& cell_wf(c)
            &&& all_node_ids(c.subscribers, w.nodes.len() as int)
            &&& all_node_ids(c.next_subscribers, w.nodes.len() as int)
        }
    &&& forall|i: int|
        0 <= i < w.nodes.len() && (#[trigger] w.nodes[i]).computed is Some ==> w.nodes[i].state is Some
    &&& resource_wf(w.signals)
    &&& resource_node_ids(w.signals, w.nodes.len() as int)
}

/// Every set of the resource names entities of the world.
pub open spec fn resource_node_ids(r: ResourceView, n: int) -> bool {
    &&& all_node_ids(r.triggered, n)
    &&& all_node_ids(r.running, n)
    &&& all_node_ids(r.next_running, n)
    &&& all_node_ids(r.processed, n)
    &&& all_node_ids(r.changed, n)
    &&& all_node_ids(r.dirty, n)
    &&& all_node_ids(r.deferred, n)
    &&& all_node_ids(r.effects, n)
}

/// The world after sending `data` (or triggering, when `trigger`) to `signal`: the cell stores
/// the next value and the entity is marked SendSignal; nothing happens when the entity does not
/// exist or has no cell.
pub open spec fn sent<V>(w: WorldView<V>, signal: u64, data: V, trigger: bool) -> WorldView<V> {
    if is_node_id(signal, w.nodes.len() as int) && w.nodes[index_of(signal)].state is Some {
        let n = w.nodes[index_of(signal)];
        WorldView {
            nodes: w.nodes.update(
                index_of(signal),
                NodeView {
                    state: Some(
                        with_next(
                            n.state.unwrap(),
                            crate::framework::value_result(data),
                            trigger,
                        ),
                    ),
                    markers: Markers { send_signal: true, ..n.markers },
                    ..n
                },
            ),
            ..w
        }
    } else {
        w
    }
}

/// The world after inserting an effect of the given kind on `effect`, with a request to
/// subscribe to its sources and triggers.
pub open spec fn created_effect<V>(
    w: WorldView<V>,
    effect: u64,
    function: EffectContext,
    sources: Seq<u64>,
    triggers: Seq<u64>,
) -> WorldView<V> {
    let n = w.nodes[index_of(effect)];
    WorldView {
        nodes: w.nodes.update(
            index_of(effect),
            NodeView {
                effect: Some(EffectView { function, sources, triggers }),
                markers: Markers { init_dependencies: true, ..n.markers },
                ..n
            },
        ),
        ..w
    }
}

/// What a well-formed world says of the cell of entity `i`.
pub proof fn lemma_wf_cell<V>(w: WorldView<V>, i: int)
    requires
        world_wf(w),
        0 <= i < w.nodes.len(),
    ensures
        w.nodes.len() <= MAX_ENTITIES,
        w.nodes[i].computed is Some ==> w.nodes[i].state is Some,
        w.nodes[i].state is Some ==> {
            let c = w.nodes[i].state.unwrap();
            &&& cell_wf(c)
            &&& all_node_ids(c.subscribers, w.nodes.len() as int)
            &&& all_node_ids(c.next_subscribers, w.nodes.len() as int)
            &&& c.subscribers.len() <= w.nodes.len()
            &&& c.next_subscribers.len() <= w.nodes.len()
        },
{
    reveal(world_wf);
    assert(w.nodes[i] == w.nodes[i]);
    if w.nodes[i].state is Some {
        let c = w.nodes[i].state.unwrap();
        lemma_node_ids_len(c.subscribers, w.nodes.len() as int);
        lemma_node_ids_len(c.next_subscribers, w.nodes.len() as int);
    }
}

/// What a well-formed world says of its resource.
pub proof fn lemma_wf_resource<V>(w: WorldView<V>)
    requires
        world_wf(w),
    ensures
        w.nodes.len() <= MAX_ENTITIES,
        resource_wf(w.signals),
        resource_node_ids(w.signals, w.nodes.len() as int),
        w.signals.triggered.len() <= w.nodes.len(),
        w.signals.running.len() <= w.nodes.len(),
        w.signals.next_running.len() <= w.nodes.len(),
        w.signals.processed.len() <= w.nodes.len(),
        w.signals.changed.len() <= w.nodes.len(),
        w.signals.dirty.len() <= w.nodes.len(),
{
    reveal(world_wf);
    let n = w.nodes.len() as int;
    lemma_node_ids_len(w.signals.triggered, n);
    lemma_node_ids_len(w.signals.running, n);
    lemma_node_ids_len(w.signals.next_running, n);
    lemma_node_ids_len(w.signals.processed, n);
    lemma_node_ids_len(w.signals.changed, n);
    lemma_node_ids_len(w.signals.dirty, n);
}

/// A world whose cells and computeds are those of a well-formed world of the same size, and
/// whose resource is well formed, is well formed.
pub proof fn lemma_same_cells_wf<V>(before: WorldView<V>, after: WorldView<V>)
    requires
        world_wf(before),
        after.nodes.len() == before.nodes.len(),
        forall|j: int|
            0 <= j < before.nodes.len() ==> (#[trigger] after.nodes[j]).state == before.nodes[j].state
                && after.nodes[j].computed == before.nodes[j].computed,
        resource_wf(after.signals),
        resource_node_ids(after.signals, after.nodes.len() as int),
    ensures
        world_wf(after),
{
    reveal(world_wf);
    assert forall|i: int|
        0 <= i < after.nodes.len() && (#[trigger] after.nodes[i]).state is Some implies {
            let c = after.nodes[i].state.unwrap();
            &&& cell_wf(c)
            &&& all_node_ids(c.subscribers, after.nodes.len() as int)
            &&& all_node_ids(c.next_subscribers, after.nodes.len() as int)
        } by {
        assert(before.nodes[i].state == after.nodes[i].state);
    }
    assert forall|i: int|
        0 <= i < after.nodes.len() && (#[trigger] after.nodes[i]).computed is Some implies after.nodes[i].state is Some by {
        assert(before.nodes[i].state == after.nodes[i].state);
        assert(before.nodes[i].computed == after.nodes[i].computed);
    }
}

/// For entity ids, holding in a list after inserting `id` means being held before or being
/// `id`.
pub proof fn lemma_holds_inserted_node(ids: Seq<u64>, id: u64, x: u64, n: int)
    requires
        ids_valid(ids),
        is_node_id(id, n),
        is_node_id(x, n),
        n <= MAX_ENTITIES,
    ensures
        holds(crate::entity_set::inserted(ids, id), x) == (holds(ids, x) || x == id),
        ids_valid(crate::entity_set::inserted(ids, id)),
{
    lemma_node_slots(x, id, n);
    crate::entity_set::lemma_inserted_valid(ids, id);
}

/// For entity ids, holding in a prefix one longer means holding in the shorter prefix or being
/// the added element.
pub proof fn lemma_holds_take_node(ids: Seq<u64>, k: int, x: u64, n: int)
    requires
        0 <= k < ids.len(),
        is_node_id(ids[k], n),
        is_node_id(x, n),
        n <= MAX_ENTITIES,
    ensures
        holds(ids.take(k + 1), x) == (holds(ids.take(k), x) || x == ids[k]),
{
    lemma_node_slots(x, ids[k], n);
    let a = ids.take(k);
    let b = ids.take(k + 1);
    if holds(b, x) {
        let i = choose|i: int| 0 <= i < b.len() && slot(b[i]) == slot(x);
        if i < k {
            assert(a[i] == b[i]);
        }
    }
    if holds(a, x) {
        let i = choose|i: int| 0 <= i < a.len() && slot(a[i]) == slot(x);
        assert(b[i] == a[i]);
    }
    if x == ids[k] {
        assert(b[k] == x);
    }
}

/// Distinct node ids occupy distinct slots.
pub proof fn lemma_node_slots(a: u64, b: u64, n: int)
    requires
        is_node_id(a, n),
        is_node_id(b, n),
        n <= MAX_ENTITIES,
    ensures
        is_entity_bits(a),
        slot(a) == index_of(a),
        (slot(a) == slot(b)) == (a == b),
{
}

/// A list of distinct-slot node ids is no longer than the number of entities.
pub proof fn lemma_node_ids_len(ids: Seq<u64>, n: int)
    requires
        ids_valid(ids),
        all_node_ids(ids, n),
        0 <= n <= MAX_ENTITIES,
    ensures
        ids.len() <= n,
{
    let s = ids.map_values(|id: u64| slot(id));
    assert(s.no_duplicates()) by {
        assert forall|i: int, j: int| 0 <= i < s.len() && 0 <= j < s.len() && i != j implies s[i]
            != s[j] by {
            assert(slot(ids[i]) != slot(ids[j]));
        }
    }
    s.unique_seq_to_set();
    vstd::set_lib::lemma_int_range(0, n);
    assert(s.to_set().subset_of(vstd::set_lib::set_int_range(0, n))) by {
        assert forall|x: int| s.to_set().contains(x) implies vstd::set_lib::set_int_range(
            0,
            n,
        ).contains(x) by {
            let i = choose|i: int| 0 <= i < s.len() && s[i] == x;
            assert(is_node_id(ids[i], n));
        }
    }
    vstd::set_lib::lemma_len_subset(s.to_set(), vstd::set_lib::set_int_range(0, n));
}

impl<T: LazySignalsData> LazySignalsWorld<T> {
    /// A world with no entity.
    pub fn new() -> (w: Self)
        ensures
            w@.nodes == Seq::<NodeView<T::V>>::empty(),
            w@.signals == fresh_resource(),
            world_wf(w@),
    {
        let w = LazySignalsWorld { nodes: Vec::new(), signals: LazySignalsResource::new() };
        proof {
            reveal(world_wf);
        }
        w
    }

    /// The number of entities.
    pub fn len(&self) -> (r: usize)
        ensures
            r == self@.nodes.len(),
    {
        self.nodes.len()
    }

    /// The propagation resource.
    pub fn signals(&self) -> (r: &LazySignalsResource)
        ensures
            r@ == self@.signals,
    {
        &self.signals
    }

    /// The position of an entity, when it exists.
    pub fn node_index(&self, id: u64) -> (r: Option<usize>)
        ensures
            r is Some <==> is_node_id(id, self@.nodes.len() as int),
            r matches Some(k) ==> k as int == index_of(id) && k < self@.nodes.len(),
    {
        if id >= ENTITY_BASE && id - ENTITY_BASE < self.nodes.len() as u64 {
            Some((id - ENTITY_BASE) as usize)
        } else {
            None
        }
    }

    /// Spawn an entity with no component; its id is the next entity id: the next index, with
    /// generation 1.
    pub fn spawn_empty(&mut self) -> (id: u64)
        requires
            world_wf(old(self)@),
            old(self)@.nodes.len() < MAX_ENTITIES,
        ensures
            id == entity_id(old(self)@.nodes.len() as int),
            final(self)@ == (WorldView { nodes: old(self)@.nodes.push(empty_node()), ..old(self)@ }),
            world_wf(final(self)@),
    {
        let id = ENTITY_BASE + self.nodes.len() as u64;
        self.nodes.push(
            Node {
                state: None,
                computed: None,
                effect: None,
                markers: Markers {
                    send_signal: false,
                    compute_memo: false,
                    deferred_effect: false,
                    dirty: false,
                    init_dependencies: false,
                    running_task: false,
                    triggered: false,
                    value_changed: false,
                },
            },
        );
        proof {
            assert(self@.nodes =~= old(self)@.nodes.push(empty_node()));
            self.lemma_grow_wf(old(self)@);
        }
        id
    }


    /// Replacing one entity keeps the world well formed when its cell is well formed.
    proof fn lemma_replace_wf(&self, before: WorldView<T::V>, i: int)
        requires
            world_wf(before),
            0 <= i < before.nodes.len(),
            self@.signals == before.signals,
            self@.nodes == before.nodes.update(i, self@.nodes[i]),
            self@.nodes[i].state is Some ==> {
                let c = self@.nodes[i].state.unwrap();
                &&& cell_wf(c)
                &&& all_node_ids(c.subscribers, before.nodes.len() as int)
                &&& all_node_ids(c.next_subscribers, before.nodes.len() as int)
            },
            self@.nodes[i].computed is Some ==> self@.nodes[i].state is Some,
        ensures
            world_wf(self@),
    {
        reveal(world_wf);
        assert forall|j: int| 0 <= j < self@.nodes.len() && (#[trigger] self@.nodes[j]).computed is Some implies self@.nodes[j].state is Some by {
            if j != i {
                assert(self@.nodes[j] == before.nodes[j]);
            }
        }
        assert forall|j: int| 0 <= j < self@.nodes.len() && (#[trigger] self@.nodes[j]).state is Some implies {
            let c = self@.nodes[j].state.unwrap();
            &&& cell_wf(c)
            &&& all_node_ids(c.subscribers, self@.nodes.len() as int)
            &&& all_node_ids(c.next_subscribers, self@.nodes.len() as int)
        } by {
            if j != i {
                assert(self@.nodes[j] == before.nodes[j]);
            }
        }
    }

    /// Give the entity a fresh cell holding `data`; the entity must exist.
    fn insert_cell(&mut self, index: usize, data: LazySignalsResult<T>)
        requires
            world_wf(old(self)@),
            index < old(self)@.nodes.len(),
        ensures
            final(self)@ == (WorldView {
                nodes: old(self)@.nodes.update(
                    index as int,
                    NodeView { state: Some(fresh_cell(data@)), ..old(self)@.nodes[index as int] },
                ),
                ..old(self)@
            }),
            world_wf(final(self)@),
    {
        proof {
            lemma_wf_cell(old(self)@, index as int);
        }
        let cell = LazySignalsState::new(data);
        self.nodes[index].state = Some(cell);
        proof {
            assert(self@.nodes =~= old(self)@.nodes.update(
                index as int,
                NodeView { state: Some(fresh_cell(data@)), ..old(self)@.nodes[index as int] },
            ));
            self.lemma_replace_wf(old(self)@, index as int);
        }
    }

    /// Command to create a state holding `data` on the given entity, which must exist.
    pub fn create_state(&mut self, state: u64, data: T)
        requires
            world_wf(old(self)@),
            is_node_id(state, old(self)@.nodes.len() as int),
        ensures
            final(self)@ == (WorldView {
                nodes: old(self)@.nodes.update(
                    index_of(state),
                    NodeView {
                        state: Some(fresh_cell(crate::framework::value_result(data@))),
                        ..old(self)@.nodes[index_of(state)]
                    },
                ),
                ..old(self)@
            }),
            world_wf(final(self)@),
    {
        proof {
            lemma_wf_cell(old(self)@, index_of(state));
        }
        let index = (state - ENTITY_BASE) as usize;
        self.insert_cell(index, LazySignalsResult { data: Some(data), error: None });
    }

    /// Command to create a computed memo on the given entity, which must exist: an empty cell,
    /// the sources, and a request to subscribe to them.
    pub fn create_computed(&mut self, computed: u64, sources: Vec<u64>)
        requires
            world_wf(old(self)@),
            is_node_id(computed, old(self)@.nodes.len() as int),
        ensures
            final(self)@ == (WorldView {
                nodes: old(self)@.nodes.update(
                    index_of(computed),
                    NodeView {
                        state: Some(fresh_cell(LazySignalsResult { data: None, error: None })),
                        computed: Some(sources@),
                        markers: Markers {
                            init_dependencies: true,
                            ..old(self)@.nodes[index_of(computed)].markers
                        },
                        ..old(self)@.nodes[index_of(computed)]
                    },
                ),
                ..old(self)@
            }),
            world_wf(final(self)@),
    {
        proof {
            lemma_wf_cell(old(self)@, index_of(computed));
        }
        let index = (computed - ENTITY_BASE) as usize;
        let ghost src = sources@;
        self.insert_cell(index, LazySignalsResult { data: None, error: None });
        let ghost after_cell = self@.nodes[index as int];
        assert(self.nodes@.len() == self@.nodes.len());
        let ghost w1 = self@;
        self.nodes[index].computed = Some(ComputedImmutable { sources: LazySignalsVec(sources) });
        self.nodes[index].markers.init_dependencies = true;
        proof {
            let mid = old(self)@.nodes[index as int];
            assert(after_cell == NodeView { state: Some(fresh_cell(LazySignalsResult::<T::V> { data: None, error: None })), ..mid });
            assert(self@.nodes =~= w1.nodes.update(index as int, self@.nodes[index as int]));
            assert(self@.nodes[index as int] == NodeView {
                computed: Some(src),
                markers: Markers { init_dependencies: true, ..mid.markers },
                ..after_cell
            });
            assert(self@.nodes =~= old(self)@.nodes.update(
                index as int,
                NodeView {
                    state: Some(fresh_cell(LazySignalsResult { data: None, error: None })),
                    computed: Some(src),
                    markers: Markers { init_dependencies: true, ..mid.markers },
                    ..mid
                },
            ));
            self.lemma_replace_wf(old(self)@, index as int);
        }
    }

    /// Insert an effect of the given kind on an existing entity.
    fn insert_effect(
        &mut self,
        effect: u64,
        function: EffectContext,
        sources: Vec<u64>,
        triggers: Vec<u64>,
    )
        requires
            world_wf(old(self)@),
            is_node_id(effect, old(self)@.nodes.len() as int),
        ensures
            final(self)@ == created_effect(old(self)@, effect, function, sources@, triggers@),
            world_wf(final(self)@),
    {
        proof {
            lemma_wf_cell(old(self)@, index_of(effect));
        }
        let index = (effect - ENTITY_BASE) as usize;
        self.nodes[index].effect = Some(
            LazyEffect {
                function,
                sources: LazySignalsVec(sources),
                triggers: LazySignalsVec(triggers),
            },
        );
        self.nodes[index].markers.init_dependencies = true;
        proof {
            assert(self@.nodes =~= created_effect(old(self)@, effect, function, sources@, triggers@).nodes);
            self.lemma_replace_wf(old(self)@, index as int);
        }
    }

    /// Command to create a short-lived effect on the given entity, which must exist.
    pub fn create_effect(&mut self, effect: u64, sources: Vec<u64>, triggers: Vec<u64>)
        requires
            world_wf(old(self)@),
            is_node_id(effect, old(self)@.nodes.len() as int),
        ensures
            final(self)@ == created_effect(
                old(self)@,
                effect,
                EffectContext::Short,
                sources@,
                triggers@,
            ),
            world_wf(final(self)@),
    {
        self.insert_effect(effect, EffectContext::Short, sources, triggers);
    }

    /// Command to create an effect that runs as an async task on the given entity, which must
    /// exist.
    pub fn create_task(&mut self, effect: u64, sources: Vec<u64>, triggers: Vec<u64>)
        requires
            world_wf(old(self)@),
            is_node_id(effect, old(self)@.nodes.len() as int),
        ensures
            final(self)@ == created_effect(
                old(self)@,
                effect,
                EffectContext::Long,
                sources@,
                triggers@,
            ),
            world_wf(final(self)@),
    {
        self.insert_effect(effect, EffectContext::Long, sources, triggers);
    }

    /// Store a next value for the signal and mark it SendSignal, when it exists with a cell.
    fn merge_into(&mut self, signal: u64, data: T, trigger: bool)
        requires
            world_wf(old(self)@),
        ensures
            final(self)@ == sent(old(self)@, signal, data@, trigger),
            world_wf(final(self)@),
    {
        if let Some(index) = self.node_index(signal) {
            assert(index as int == index_of(signal));
            assert(old(self)@.nodes[index as int] == self.nodes@[index as int]@);
            if self.nodes[index].state.is_some() {
                let ghost n = old(self)@.nodes[index as int];
                proof {
                    lemma_wf_cell(old(self)@, index as int);
                }
                match &mut self.nodes[index].state {
                    Some(cell) => {
                        cell.merge_next(LazySignalsResult { data: Some(data), error: None }, trigger);
                    },
                    None => {},
                }
                self.nodes[index].markers.send_signal = true;
                proof {
                    assert(self@.nodes =~= sent(old(self)@, signal, data@, trigger).nodes);
                    self.lemma_replace_wf(old(self)@, index as int);
                }
            }
        }
    }

    /// Command to send a signal: the value is merged during the next batch if it differs from
    /// the current one.  Nothing happens when the entity does not exist or has no cell.
    pub fn send_signal(&mut self, signal: u64, data: T)
        requires
            world_wf(old(self)@),
        ensures
            final(self)@ == sent(old(self)@, signal, data@, false),
            world_wf(final(self)@),
    {
        self.merge_into(signal, data, false);
    }

    /// Command to send a signal that notifies subscribers even if the value is unchanged.
    pub fn trigger_signal(&mut self, signal: u64, data: T)
        requires
            world_wf(old(self)@),
        ensures
            final(self)@ == sent(old(self)@, signal, data@, true),
            world_wf(final(self)@),
    {
        self.merge_into(signal, data, true);
    }

    /// The markers of the entity, when it exists.
    pub fn markers(&self, entity: u64) -> (r: Option<Markers>)
        ensures
            r == if is_node_id(entity, self@.nodes.len() as int) {
                Some(self@.nodes[index_of(entity)].markers)
            } else {
                None
            },
    {
        match self.node_index(entity) {
            Some(index) => {
                proof {
                    assert(self@.nodes[index as int] == self.nodes@[index as int]@);
                }
                Some(self.nodes[index].markers)
            },
            None => None,
        }
    }

    /// The subscribers of the entity's cell, when it exists with one.
    pub fn cell_subscribers(&self, entity: u64) -> (r: Option<Vec<u64>>)
        ensures
            r matches Some(v) ==> is_node_id(entity, self@.nodes.len() as int)
                && self@.nodes[index_of(entity)].state is Some && v@
                == self@.nodes[index_of(entity)].state.unwrap().subscribers,
            r is None ==> !is_node_id(entity, self@.nodes.len() as int)
                || self@.nodes[index_of(entity)].state is None,
    {
        match self.node_index(entity) {
            Some(index) => {
                proof {
                    assert(self@.nodes[index as int] == self.nodes@[index as int]@);
                }
                match &self.nodes[index].state {
                    Some(cell) => Some(cell.get_subscribers()),
                    None => None,
                }
            },
            None => None,
        }
    }

    /// The data value of the entity's cell, if it has one.
    pub fn cell_value(&self, entity: u64) -> (r: Option<T>)
        requires
            is_node_id(entity, self@.nodes.len() as int),
        ensures
            option_view(r) == match self@.nodes[index_of(entity)].state {
                Some(c) => c.data.data,
                None => None,
            },
    {
        match self.node_index(entity) {
            Some(index) => {
                proof {
                    assert(self@.nodes[index as int] == self.nodes@[index as int]@);
                }
                match &self.nodes[index].state {
                    Some(cell) => cell.get(),
                    None => None,
                }
            },
            None => None,
        }
    }

    /// The error of the entity's cell, if it has one.
    pub fn cell_error(&self, entity: u64) -> (r: Option<LazySignalsError>)
        requires
            is_node_id(entity, self@.nodes.len() as int),
        ensures
            r == match self@.nodes[index_of(entity)].state {
                Some(c) => c.data.error,
                None => None,
            },
    {
        match self.node_index(entity) {
            Some(index) => {
                proof {
                    assert(self@.nodes[index as int] == self.nodes@[index as int]@);
                }
                match &self.nodes[index].state {
                    Some(cell) => cell.error(),
                    None => None,
                }
            },
            None => None,
        }
    }

    /// Immediately replace the data of the entity's cell, which must exist, without notifying
    /// subscribers; true when it differs.
    pub fn update(&mut self, entity: u64, data: LazySignalsResult<T>) -> (changed: bool)
        requires
            world_wf(old(self)@),
            is_node_id(entity, old(self)@.nodes.len() as int),
            old(self)@.nodes[index_of(entity)].state is Some,
        ensures
            world_wf(final(self)@),
            changed == (old(self)@.nodes[index_of(entity)].state.unwrap().data != data@),
            final(self)@ == (WorldView {
                nodes: old(self)@.nodes.update(
                    index_of(entity),
                    NodeView {
                        state: Some(
                            CellView { data: data@, ..old(self)@.nodes[index_of(entity)].state.unwrap() },
                        ),
                        ..old(self)@.nodes[index_of(entity)]
                    },
                ),
                ..old(self)@
            }),
    {
        let ghost before = self@;
        proof {
            lemma_wf_cell(before, index_of(entity));
        }
        let index = (entity - ENTITY_BASE) as usize;
        let changed = match &mut self.nodes[index].state {
            Some(cell) => cell.update(data),
            None => false,
        };
        proof {
            assert(self@.nodes =~= before.nodes.update(
                index as int,
                NodeView {
                    state: Some(CellView { data: data@, ..before.nodes[index as int].state.unwrap() }),
                    ..before.nodes[index as int]
                },
            ));
            self.lemma_replace_wf(before, index as int);
        }
        changed
    }

    proof fn lemma_grow_wf(&self, before: WorldView<T::V>)
        requires
            world_wf(before),
            self@.signals == before.signals,
            self@.nodes.len() <= MAX_ENTITIES,
            self@.nodes.len() >= before.nodes.len(),
            forall|i: int| 0 <= i < before.nodes.len() ==> #[trigger] self@.nodes[i] == before.nodes[i],
            forall|i: int| before.nodes.len() <= i < self@.nodes.len() ==> (#[trigger] self@.nodes[i]).state is None && self@.nodes[i].computed is None,
        ensures
            world_wf(self@),
    {
        reveal(world_wf);
        assert forall|j: int| 0 <= j < self@.nodes.len() && (#[trigger] self@.nodes[j]).computed is Some implies self@.nodes[j].state is Some by {
            if j < before.nodes.len() {
                assert(self@.nodes[j] == before.nodes[j]);
            }
        }
        assert forall|i: int| 0 <= i < self@.nodes.len() && (#[trigger] self@.nodes[i]).state is Some implies {
            let c = self@.nodes[i].state.unwrap();
            &&& cell_wf(c)
            &&& all_node_ids(c.subscribers, self@.nodes.len() as int)
            &&& all_node_ids(c.next_subscribers, self@.nodes.len() as int)
        } by {
            assert(self@.nodes[i] == before.nodes[i]);
        }
    }
}

} // verus!
