//! Subscribing entities to the cells they depend on, one at a time or in a batch.
use super::{
    all_node_ids, entity_id, index_of, is_node_id, lemma_node_ids_len, lemma_node_slots,
    lemma_wf_cell, world_wf, LazySignalsWorld, NodeView, WorldView, MAX_ENTITIES,
};
use crate::entity_set::{holds, inserted, lemma_inserted_valid};
use crate::framework::LazySignalsData;
use crate::lazy_immutable::{
    insert_all, lemma_insert_all, with_merged_subscribers, with_subscriber, CellView,
};
use vstd::prelude::*;

verus! {

/// The world after subscribing `entity` to `source`: when the source exists with a cell,
/// the entity joins its pending subscribers and the pending subscribers are merged in.
pub open spec fn subscribed<V>(w: WorldView<V>, entity: u64, source: u64) -> WorldView<V> {
    if is_node_id(source, w.nodes.len() as int) && w.nodes[index_of(source)].state is Some {
        let n = w.nodes[index_of(source)];
        WorldView {
            nodes: w.nodes.update(
                index_of(source),
                NodeView {
                    state: Some(
                        with_merged_subscribers(with_subscriber(n.state.unwrap(), entity)),
                    ),
                    ..n
                },
            ),
            ..w
        }
    } else {
        w
    }
}

/// In a batch where each entity `e` subscribes, in order, to the ids `plan(e)` (entities taken
/// in order), entity `e` subscribes to `d`.
pub open spec fn batch_edge<V>(w: WorldView<V>, plan: spec_fn(int) -> Seq<u64>, e: int, d: u64) -> bool {
    &&& 0 <= e < w.nodes.len()
    &&& plan(e).contains(d)
}

/// Some entity subscribes to `d` in the batch.
pub open spec fn batch_touches<V>(w: WorldView<V>, plan: spec_fn(int) -> Seq<u64>, d: u64) -> bool {
    exists|e: int| #[trigger] batch_edge(w, plan, e, d)
}

/// Cell `c2` is cell `c` of entity `d` after the subscriptions `edge` (of which there are some
/// when `touched`): when touched, the pending subscribers are merged in; the subscribing
/// entities join the subscribers.
pub open spec fn cell_gained<V>(
    w: WorldView<V>,
    c: CellView<V>,
    c2: CellView<V>,
    touched: bool,
    edge: spec_fn(u64) -> bool,
) -> bool {
    &&& c2.data == c.data
    &&& c2.next_value == c.next_value
    &&& c2.triggered == c.triggered
    &&& c2.next_subscribers == if touched {
        Seq::<u64>::empty()
    } else {
        c.next_subscribers
    }
    &&& forall|x: u64|
        is_node_id(x, w.nodes.len() as int) ==> (holds(c2.subscribers, x) <==> (holds(
            c.subscribers,
            x,
        ) || (touched && holds(c.next_subscribers, x)) || edge(x)))
}

/// The cells of `w2` are those of `w` after the batch `plan`; computeds and effects are
/// unchanged.
pub open spec fn batch_cells<V>(w: WorldView<V>, plan: spec_fn(int) -> Seq<u64>, w2: WorldView<V>) -> bool {
    &&& w2.nodes.len() == w.nodes.len()
    &&& forall|j: int|
        0 <= j < w.nodes.len() ==> {
            let n = #[trigger] w.nodes[j];
            let n2 = w2.nodes[j];
            let d = entity_id(j);
            &&& n2.computed == n.computed
            &&& n2.effect == n.effect
            &&& (n2.state is Some) == (n.state is Some)
            &&& n.state is Some ==> cell_gained(
                w,
                n.state.unwrap(),
                n2.state.unwrap(),
                batch_touches(w, plan, d),
                |x: u64| batch_edge(w, plan, index_of(x), d),
            )
        }
}

/// A subscription of the batch made before position (`i`, `k`): entity `i`'s first `k` ids.
pub open spec fn edge_upto<V>(
    w: WorldView<V>,
    plan: spec_fn(int) -> Seq<u64>,
    i: int,
    k: int,
    e: int,
    d: u64,
) -> bool {
    &&& batch_edge(w, plan, e, d)
    &&& (e < i || (e == i && plan(e).take(k).contains(d)))
}

pub open spec fn touched_upto<V>(
    w: WorldView<V>,
    plan: spec_fn(int) -> Seq<u64>,
    i: int,
    k: int,
    d: u64,
) -> bool {
    exists|e: int| #[trigger] edge_upto(w, plan, i, k, e, d)
}

/// The cells of `cur` are those of `w` once the batch reached position (`i`, `k`).
pub open spec fn cells_upto<V>(
    w: WorldView<V>,
    plan: spec_fn(int) -> Seq<u64>,
    cur: WorldView<V>,
    i: int,
    k: int,
) -> bool {
    &&& cur.nodes.len() == w.nodes.len()
    &&& forall|j: int|
        0 <= j < w.nodes.len() ==> {
            let n = #[trigger] w.nodes[j];
            let n2 = cur.nodes[j];
            let d = entity_id(j);
            &&& n2.computed == n.computed
            &&& n2.effect == n.effect
            &&& (n2.state is Some) == (n.state is Some)
            &&& n.state is Some ==> cell_gained(
                w,
                n.state.unwrap(),
                n2.state.unwrap(),
                touched_upto(w, plan, i, k, d),
                |x: u64| edge_upto(w, plan, i, k, index_of(x), d),
            )
        }
}

/// Subscriptions before (`i`, `k` + 1) are those before (`i`, `k`) and entity `i` to its
/// `k`-th id.
proof fn lemma_edge_step<V>(
    w: WorldView<V>,
    plan: spec_fn(int) -> Seq<u64>,
    i: int,
    k: int,
    e: int,
    d: u64,
)
    requires
        0 <= i < w.nodes.len(),
        0 <= k < plan(i).len(),
    ensures
        edge_upto(w, plan, i, k + 1, e, d) <==> (edge_upto(w, plan, i, k, e, d) || (e == i && d
            == plan(i)[k])),
{
    let ds = plan(i);
    if e == i {
        assert(ds.take(k + 1) =~= ds.take(k).push(ds[k]));
        if d == ds[k] {
            assert(ds.take(k + 1)[k] == d);
            assert(ds.contains(d));
        }
        if ds.take(k).contains(d) {
            let m = choose|m: int| 0 <= m < ds.take(k).len() && ds.take(k)[m] == d;
            assert(ds[m] == d);
        }
    }
}

/// Before the batch, no cell has changed.
pub proof fn lemma_batch_start<V>(w: WorldView<V>, plan: spec_fn(int) -> Seq<u64>)
    ensures
        cells_upto(w, plan, w, 0, 0),
{
    assert forall|j: int| 0 <= j < w.nodes.len() && (#[trigger] w.nodes[j]).state is Some implies cell_gained(
        w,
        w.nodes[j].state.unwrap(),
        w.nodes[j].state.unwrap(),
        touched_upto(w, plan, 0, 0, entity_id(j)),
        |x: u64| edge_upto(w, plan, 0, 0, index_of(x), entity_id(j)),
    ) by {
        let d = entity_id(j);
        assert forall|e: int| !edge_upto(w, plan, 0, 0, e, d) by {
            if e == 0 && 0 < w.nodes.len() {
                assert(plan(e).take(0) =~= Seq::<u64>::empty());
            }
        }
        assert(!touched_upto(w, plan, 0, 0, d));
    }
}

/// Changing no cell, computed or effect keeps the position of the batch.
pub proof fn lemma_batch_same<V>(
    w: WorldView<V>,
    plan: spec_fn(int) -> Seq<u64>,
    before: WorldView<V>,
    after: WorldView<V>,
    i: int,
    k: int,
)
    requires
        cells_upto(w, plan, before, i, k),
        after.nodes.len() == before.nodes.len(),
        forall|j: int|
            0 <= j < before.nodes.len() ==> (#[trigger] after.nodes[j]).state == before.nodes[j].state
                && after.nodes[j].computed == before.nodes[j].computed && after.nodes[j].effect
                == before.nodes[j].effect,
    ensures
        cells_upto(w, plan, after, i, k),
{
    assert forall|j: int| 0 <= j < w.nodes.len() implies {
        let n = #[trigger] w.nodes[j];
        let n2 = after.nodes[j];
        let d = entity_id(j);
        &&& n2.computed == n.computed
        &&& n2.effect == n.effect
        &&& (n2.state is Some) == (n.state is Some)
        &&& n.state is Some ==> cell_gained(
            w,
            n.state.unwrap(),
            n2.state.unwrap(),
            touched_upto(w, plan, i, k, d),
            |x: u64| edge_upto(w, plan, i, k, index_of(x), d),
        )
    } by {
        assert(after.nodes[j].state == before.nodes[j].state);
    }
}

/// Subscribing entity `i` to its `k`-th id moves the batch one step.
pub proof fn lemma_batch_step<V>(
    w: WorldView<V>,
    plan: spec_fn(int) -> Seq<u64>,
    before: WorldView<V>,
    after: WorldView<V>,
    i: int,
    k: int,
)
    requires
        0 <= i < w.nodes.len(),
        w.nodes.len() <= MAX_ENTITIES,
        0 <= k < plan(i).len(),
        cells_upto(w, plan, before, i, k),
        world_wf(before),
        after == subscribed(before, entity_id(i), plan(i)[k]),
    ensures
        cells_upto(w, plan, after, i, k + 1),
{
    let len = w.nodes.len() as int;
    let d = plan(i)[k];
    assert forall|j: int| 0 <= j < len implies {
        let n = #[trigger] w.nodes[j];
        let n2 = after.nodes[j];
        let dj = entity_id(j);
        &&& n2.computed == n.computed
        &&& n2.effect == n.effect
        &&& (n2.state is Some) == (n.state is Some)
        &&& n.state is Some ==> cell_gained(
            w,
            n.state.unwrap(),
            n2.state.unwrap(),
            touched_upto(w, plan, i, k + 1, dj),
            |x: u64| edge_upto(w, plan, i, k + 1, index_of(x), dj),
        )
    } by {
        let n = w.nodes[j];
        let dj = entity_id(j);
        assert forall|e: int|
            edge_upto(w, plan, i, k + 1, e, dj) <==> (edge_upto(w, plan, i, k, e, dj) || (e == i
                && dj == d)) by {
            lemma_edge_step(w, plan, i, k, e, dj);
        }
        if n.state is Some {
            let c = n.state.unwrap();
            let cb = before.nodes[j].state.unwrap();
            assert(cell_gained(
                w,
                c,
                cb,
                touched_upto(w, plan, i, k, dj),
                |x: u64| edge_upto(w, plan, i, k, index_of(x), dj),
            ));
            if dj == d {
                assert(index_of(d) == j);
                let ca = after.nodes[j].state.unwrap();
                let x_new = entity_id(i);
                assert(ca == with_merged_subscribers(with_subscriber(cb, x_new)));
                assert(edge_upto(w, plan, i, k + 1, i, dj));
                assert(touched_upto(w, plan, i, k + 1, dj));
                lemma_node_slots(x_new, x_new, len);
                lemma_wf_cell(before, j);
                lemma_inserted_valid(cb.next_subscribers, x_new);
                lemma_insert_all(cb.subscribers, inserted(cb.next_subscribers, x_new));
                assert forall|x: u64| is_node_id(x, len) implies (holds(ca.subscribers, x) <==> (
                holds(c.subscribers, x) || (true && holds(c.next_subscribers, x)) || edge_upto(
                    w,
                    plan,
                    i,
                    k + 1,
                    index_of(x),
                    dj,
                ))) by {
                    lemma_node_slots(x, x_new, len);
                    if touched_upto(w, plan, i, k, dj) {
                        assert(!holds(cb.next_subscribers, x));
                    }
                    assert(edge_upto(w, plan, i, k + 1, index_of(x), dj) <==> (edge_upto(
                        w,
                        plan,
                        i,
                        k,
                        index_of(x),
                        dj,
                    ) || index_of(x) == i));
                }
            } else {
                assert(after.nodes[j] == before.nodes[j]);
                let k1 = k + 1;
                assert(touched_upto(w, plan, i, k1, dj) == touched_upto(w, plan, i, k, dj)) by {
                    if touched_upto(w, plan, i, k1, dj) {
                        let e = choose|e: int| edge_upto(w, plan, i, k1, e, dj);
                        assert(edge_upto(w, plan, i, k, e, dj));
                    }
                    if touched_upto(w, plan, i, k, dj) {
                        let e = choose|e: int| edge_upto(w, plan, i, k, e, dj);
                        assert(edge_upto(w, plan, i, k1, e, dj));
                    }
                }
            }
        } else {
            assert(after.nodes[j] == before.nodes[j]);
        }
    }
}

/// Once entity `i` has subscribed to all its ids, the batch moves to the next entity.
pub proof fn lemma_batch_next<V>(
    w: WorldView<V>,
    plan: spec_fn(int) -> Seq<u64>,
    cur: WorldView<V>,
    i: int,
)
    requires
        0 <= i < w.nodes.len(),
        cells_upto(w, plan, cur, i, plan(i).len() as int),
    ensures
        cells_upto(w, plan, cur, i + 1, 0),
{
    let kk = plan(i).len() as int;
    let i1 = i + 1;
    assert forall|e: int, d: u64| edge_upto(w, plan, i, kk, e, d) <==> edge_upto(w, plan, i1, 0, e, d) by {
        assert(plan(i).take(kk) =~= plan(i));
        if e == i1 {
            assert(plan(e).take(0) =~= Seq::<u64>::empty());
        }
    }
    assert forall|d: u64| touched_upto(w, plan, i, kk, d) == touched_upto(w, plan, i1, 0, d) by {
        if touched_upto(w, plan, i, kk, d) {
            let e = choose|e: int| edge_upto(w, plan, i, kk, e, d);
            assert(edge_upto(w, plan, i1, 0, e, d));
        }
        if touched_upto(w, plan, i1, 0, d) {
            let e = choose|e: int| edge_upto(w, plan, i1, 0, e, d);
            assert(edge_upto(w, plan, i, kk, e, d));
        }
    }
    assert forall|j: int| 0 <= j < w.nodes.len() && (#[trigger] w.nodes[j]).state is Some implies cell_gained(
        w,
        w.nodes[j].state.unwrap(),
        cur.nodes[j].state.unwrap(),
        touched_upto(w, plan, i1, 0, entity_id(j)),
        |x: u64| edge_upto(w, plan, i1, 0, index_of(x), entity_id(j)),
    ) by {
        let dj = entity_id(j);
        assert(cell_gained(
            w,
            w.nodes[j].state.unwrap(),
            cur.nodes[j].state.unwrap(),
            touched_upto(w, plan, i, kk, dj),
            |x: u64| edge_upto(w, plan, i, kk, index_of(x), dj),
        ));
    }
}

/// When the batch has taken every entity, the cells are those after the batch.
pub proof fn lemma_batch_end<V>(w: WorldView<V>, plan: spec_fn(int) -> Seq<u64>, cur: WorldView<V>)
    requires
        cells_upto(w, plan, cur, w.nodes.len() as int, 0),
    ensures
        batch_cells(w, plan, cur),
{
    let len = w.nodes.len() as int;
    assert forall|e: int, d: u64| edge_upto(w, plan, len, 0, e, d) <==> batch_edge(w, plan, e, d) by {}
    assert forall|d: u64| touched_upto(w, plan, len, 0, d) == batch_touches(w, plan, d) by {
        if touched_upto(w, plan, len, 0, d) {
            let e = choose|e: int| edge_upto(w, plan, len, 0, e, d);
            assert(batch_edge(w, plan, e, d));
        }
        if batch_touches(w, plan, d) {
            let e = choose|e: int| batch_edge(w, plan, e, d);
            assert(edge_upto(w, plan, len, 0, e, d));
        }
    }
    assert forall|j: int| 0 <= j < w.nodes.len() && (#[trigger] w.nodes[j]).state is Some implies cell_gained(
        w,
        w.nodes[j].state.unwrap(),
        cur.nodes[j].state.unwrap(),
        batch_touches(w, plan, entity_id(j)),
        |x: u64| batch_edge(w, plan, index_of(x), entity_id(j)),
    ) by {
        let dj = entity_id(j);
        assert(cell_gained(
            w,
            w.nodes[j].state.unwrap(),
            cur.nodes[j].state.unwrap(),
            touched_upto(w, plan, len, 0, dj),
            |x: u64| edge_upto(w, plan, len, 0, index_of(x), dj),
        ));
    }
}

/// Inserting a node id keeps a list of node ids.
pub proof fn lemma_inserted_node_ids(ids: Seq<u64>, id: u64, n: int)
    requires
        all_node_ids(ids, n),
        is_node_id(id, n),
    ensures
        all_node_ids(inserted(ids, id), n),
{
    if !holds(ids, id) {
        assert forall|k: int| 0 <= k < ids.push(id).len() implies is_node_id(
            #[trigger] ids.push(id)[k],
            n,
        ) by {
            if k < ids.len() {
                assert(ids.push(id)[k] == ids[k]);
            }
        }
    }
}

/// Inserting a list of node ids keeps a list of node ids.
pub proof fn lemma_insert_all_node_ids(ids: Seq<u64>, more: Seq<u64>, n: int)
    requires
        all_node_ids(ids, n),
        all_node_ids(more, n),
    ensures
        all_node_ids(insert_all(ids, more), n),
    decreases more.len(),
{
    if more.len() > 0 {
        assert(all_node_ids(more.drop_last(), n)) by {
            assert forall|k: int| 0 <= k < more.drop_last().len() implies is_node_id(
                #[trigger] more.drop_last()[k],
                n,
            ) by {
                assert(more.drop_last()[k] == more[k]);
            }
        }
        lemma_insert_all_node_ids(ids, more.drop_last(), n);
        assert(is_node_id(more[more.len() - 1], n));
        lemma_inserted_node_ids(insert_all(ids, more.drop_last()), more.last(), n);
    }
}

impl<T: LazySignalsData> LazySignalsWorld<T> {
    /// Subscribe `entity` to `source`: when the source exists with a cell, the entity joins its
    /// pending subscribers, which are then merged in.
    #[verifier::spinoff_prover]
    pub fn subscribe(&mut self, entity: u64, source: u64)
        requires
            world_wf(old(self)@),
            is_node_id(entity, old(self)@.nodes.len() as int),
        ensures
            final(self)@ == subscribed(old(self)@, entity, source),
            world_wf(final(self)@),
    {
        let ghost w = self@;
        if let Some(index) = self.node_index(source) {
            assert(index as int == index_of(source));
            assert(w.nodes[index as int] == self.nodes@[index as int]@);
            if self.nodes[index].state.is_some() {
                let ghost c = w.nodes[index as int].state.unwrap();
                let len = self.nodes.len();
                proof {
                    assert(w.nodes[index as int].state is Some);
                    lemma_wf_cell(w, index as int);
                    lemma_node_slots(entity, entity, len as int);
                    lemma_inserted_valid(c.next_subscribers, entity);
                    lemma_inserted_node_ids(c.next_subscribers, entity, len as int);
                    lemma_node_ids_len(inserted(c.next_subscribers, entity), len as int);
                }
                match &mut self.nodes[index].state {
                    Some(cell) => {
                        cell.subscribe(entity);
                        cell.merge_subscribers();
                    },
                    None => {},
                }
                proof {
                    assert(self@.nodes =~= subscribed(w, entity, source).nodes);
                    lemma_insert_all(c.subscribers, inserted(c.next_subscribers, entity));
                    lemma_insert_all_node_ids(
                        c.subscribers,
                        inserted(c.next_subscribers, entity),
                        len as int,
                    );
                    assert(self@.nodes[index as int].state is Some);
                    self.lemma_replace_wf(w, index as int);
                    assert(self@.signals == w.signals);
                    assert(self@ == subscribed(w, entity, source));
                }
            } else {
                assert(self@ == subscribed(w, entity, source));
            }
        } else {
            assert(self@ == subscribed(w, entity, source));
        }
    }

    /// Subscribe `entity` to each id of `deps`, in order: one entity's step of the batch `plan`.
    pub(crate) fn subscribe_all(
        &mut self,
        entity: u64,
        deps: &Vec<u64>,
        Ghost(w): Ghost<WorldView<T::V>>,
        Ghost(plan): Ghost<spec_fn(int) -> Seq<u64>>,
    )
        requires
            world_wf(old(self)@),
            w.nodes.len() <= MAX_ENTITIES,
            0 <= index_of(entity) < w.nodes.len(),
            entity == entity_id(index_of(entity)),
            deps@ == plan(index_of(entity)),
            cells_upto(w, plan, old(self)@, index_of(entity), 0),
        ensures
            world_wf(final(self)@),
            cells_upto(w, plan, final(self)@, index_of(entity), deps@.len() as int),
            final(self)@.signals == old(self)@.signals,
            forall|j: int|
                0 <= j < old(self)@.nodes.len() ==> (#[trigger] final(self)@.nodes[j]).markers
                    == old(self)@.nodes[j].markers,
    {
        let ghost start = self@;
        let ghost i = index_of(entity);
        let mut k: usize = 0;
        while k < deps.len()
            invariant
                0 <= k <= deps.len(),
                w.nodes.len() <= MAX_ENTITIES,
                0 <= i < w.nodes.len(),
                entity == entity_id(i),
                deps@ == plan(i),
                world_wf(self@),
                cells_upto(w, plan, self@, i, k as int),
                self@.signals == start.signals,
                self@.nodes.len() == start.nodes.len(),
                forall|j: int|
                    0 <= j < start.nodes.len() ==> (#[trigger] self@.nodes[j]).markers
                        == start.nodes[j].markers,
            decreases deps.len() - k,
        {
            let ghost before = self@;
            proof {
                assert(is_node_id(entity, before.nodes.len() as int));
            }
            self.subscribe(entity, deps[k]);
            proof {
                lemma_batch_step(w, plan, before, self@, i, k as int);
                assert forall|j: int| 0 <= j < start.nodes.len() implies (#[trigger] self@.nodes[j]).markers
                    == start.nodes[j].markers by {
                    assert(before.nodes[j].markers == start.nodes[j].markers);
                }
            }
            k = k + 1;
        }
    }
}

} // verus!
