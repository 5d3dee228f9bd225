//! The memo system: every computed marked ComputeMemo runs its function on the data of its
//! sources, after any of those sources marked Dirty has itself been computed, and stores the
//! result in its cell.
use super::{
    index_of, is_node_id, lemma_node_slots, lemma_wf_cell, lemma_wf_resource, world_wf,
    LazySignalsWorld, Markers, NodeView, WorldView, ENTITY_BASE, MAX_ENTITIES, entity_id,
};
use crate::entity_set::{holds};
use crate::framework::{option_view, LazySignalsData, LazySignalsResult};
use crate::lazy_immutable::{with_subscriber, CellView};
use vstd::prelude::*;

verus! {

/// `c` is a computed marked ComputeMemo.
pub open spec fn is_memo<V>(w: WorldView<V>, c: u64) -> bool {
    &&& is_node_id(c, w.nodes.len() as int)
    &&& w.nodes[index_of(c)].computed is Some
    &&& w.nodes[index_of(c)].markers.compute_memo
}

/// The sources of computed `c`.
pub open spec fn memo_sources<V>(w: WorldView<V>, c: u64) -> Seq<u64> {
    w.nodes[index_of(c)].computed.unwrap()
}

/// Entity `s` is marked Dirty.
pub open spec fn is_dirty<V>(w: WorldView<V>, s: u64) -> bool {
    w.nodes[index_of(s)].markers.dirty
}

/// The argument a closure receives from source `s`: its data, when it is a plain value.
pub open spec fn source_arg<V>(w: WorldView<V>, s: u64) -> Option<V> {
    w.nodes[index_of(s)].state.unwrap().data.arg()
}

/// Memo `y` of `w0` reads source `s`.
pub open spec fn reads<V>(w0: WorldView<V>, y: u64, s: u64) -> bool {
    is_memo(w0, y) && memo_sources(w0, y).contains(s)
}

/// A memo may read `s`: it is an entity with a cell, and a memo itself when marked Dirty (the
/// memo system looks up the sources of every Dirty source it meets).
pub open spec fn source_ready<V>(w: WorldView<V>, s: u64) -> bool {
    &&& is_node_id(s, w.nodes.len() as int)
    &&& w.nodes[index_of(s)].state is Some
    &&& is_dirty(w, s) ==> is_memo(w, s)
}

/// Every memo may read each of its sources.
pub open spec fn memos_ready<V>(w: WorldView<V>) -> bool {
    forall|c: u64, k: int|
        #![trigger is_memo(w, c), memo_sources(w, c)[k]]
        is_memo(w, c) && 0 <= k < memo_sources(w, c).len() ==> source_ready(w, memo_sources(w, c)[k])
}

/// `rank` decreases from every memo to each of its sources marked Dirty.
pub open spec fn rank_ok<V>(w: WorldView<V>, rank: spec_fn(u64) -> nat) -> bool {
    forall|c: u64, k: int|
        #![trigger is_memo(w, c), memo_sources(w, c)[k]]
        is_memo(w, c) && 0 <= k < memo_sources(w, c).len() && is_dirty(w, memo_sources(w, c)[k])
            ==> rank(memo_sources(w, c)[k]) < rank(c)
}

/// No memo depends on itself through sources marked Dirty (else the memo system never ends).
pub open spec fn memos_acyclic<V>(w: WorldView<V>) -> bool {
    exists|rank: spec_fn(u64) -> nat| rank_ok(w, rank)
}

/// Every memo is marked Dirty too, as the signal system leaves them.
pub open spec fn memos_dirty<V>(w: WorldView<V>) -> bool {
    forall|c: u64| #[trigger] is_memo(w, c) ==> is_dirty(w, c)
}

/// Memo `x` of `w0` has been computed in `cur`.
pub open spec fn is_done<V>(w0: WorldView<V>, cur: WorldView<V>, x: u64) -> bool {
    is_memo(w0, x) && !cur.nodes[index_of(x)].markers.compute_memo
}

/// The argument `v` read from source `s`: a source marked Dirty is read once it is computed;
/// any other source either as it was or, when it is a memo, once it is computed.
pub open spec fn arg_read<V>(w0: WorldView<V>, cur: WorldView<V>, s: u64, v: Option<V>) -> bool {
    if is_dirty(w0, s) {
        is_done(w0, cur, s) && v == source_arg(cur, s)
    } else {
        v == source_arg(w0, s) || (is_done(w0, cur, s) && v == source_arg(cur, s))
    }
}

/// Memo `c` holds what `f` returned for arguments `a` read from its sources.
pub open spec fn computed_from<T: LazySignalsData, F: Fn(u64, &Vec<Option<T>>) -> LazySignalsResult<T>>(
    w0: WorldView<T::V>,
    cur: WorldView<T::V>,
    f: F,
    c: u64,
    a: Vec<Option<T>>,
    r: LazySignalsResult<T>,
) -> bool {
    &&& call_ensures(f, (c, &a), r)
    &&& r@ == cur.nodes[index_of(c)].state.unwrap().data
    &&& a@.len() == memo_sources(w0, c).len()
    &&& forall|k: int|
        0 <= k < a@.len() ==> #[trigger] arg_read(w0, cur, memo_sources(w0, c)[k], option_view(a@[k]))
}

/// Memo `c` holds what `f` returned for some arguments read from its sources.
pub open spec fn memo_value_ok<T: LazySignalsData, F: Fn(u64, &Vec<Option<T>>) -> LazySignalsResult<T>>(
    w0: WorldView<T::V>,
    cur: WorldView<T::V>,
    f: F,
    c: u64,
) -> bool {
    exists|a: Vec<Option<T>>, r: LazySignalsResult<T>| computed_from(w0, cur, f, c, a, r)
}

/// Some memo computed in `cur` reads `x`.
pub open spec fn memo_touched<V>(w0: WorldView<V>, cur: WorldView<V>, x: u64) -> bool {
    exists|y: u64| #[trigger] reads(w0, y, x) && is_done(w0, cur, y)
}

/// Entity `j` while memos are computed: a computed memo loses ComputeMemo, Dirty and Triggered
/// and gains ValueChanged when its data changed; a cell read by a computed memo has merged in
/// its pending subscribers and gained the memos that read it; nothing else changes.
pub open spec fn memo_node<V>(w0: WorldView<V>, cur: WorldView<V>, j: int) -> bool {
    let n = w0.nodes[j];
    let n2 = cur.nodes[j];
    let x = entity_id(j);
    let done = is_done(w0, cur, x);
    &&& n2.computed == n.computed
    &&& n2.effect == n.effect
    &&& n2.markers == if done {
        Markers {
            compute_memo: false,
            dirty: false,
            triggered: false,
            value_changed: n.markers.value_changed || n2.state.unwrap().data != n.state.unwrap().data,
            ..n.markers
        }
    } else {
        n.markers
    }
    &&& (n2.state is Some) == (n.state is Some)
    &&& n.state is Some ==> {
        let c0 = n.state.unwrap();
        let c2 = n2.state.unwrap();
        let t = memo_touched(w0, cur, x);
        &&& c2 == CellView {
            data: c2.data,
            subscribers: c2.subscribers,
            next_subscribers: c2.next_subscribers,
            ..c0
        }
        &&& !done ==> c2.data == c0.data
        &&& c2.next_subscribers == if t {
            Seq::<u64>::empty()
        } else {
            c0.next_subscribers
        }
        &&& forall|y: u64|
            #![trigger holds(c2.subscribers, y)]
            is_node_id(y, w0.nodes.len() as int) ==> holds(c2.subscribers, y) == (holds(
                c0.subscribers,
                y,
            ) || (t && holds(c0.next_subscribers, y)) || (is_done(w0, cur, y) && reads(w0, y, x)))
    }
}

/// The world while the memos of `w0` are computed by `f`.
pub open spec fn memo_state<T: LazySignalsData, F: Fn(u64, &Vec<Option<T>>) -> LazySignalsResult<T>>(
    w0: WorldView<T::V>,
    cur: WorldView<T::V>,
    f: F,
) -> bool {
    &&& cur.nodes.len() == w0.nodes.len()
    &&& cur.signals == w0.signals
    &&& forall|j: int| 0 <= j < w0.nodes.len() ==> #[trigger] memo_node(w0, cur, j)
    &&& forall|x: u64| #[trigger] is_done(w0, cur, x) ==> memo_value_ok(w0, cur, f, x)
}


/// Every memo computed in `a` is still computed in `b`, with the same data.
pub open spec fn done_stable<V>(w0: WorldView<V>, a: WorldView<V>, b: WorldView<V>) -> bool {
    forall|x: u64|
        #[trigger] is_done(w0, a, x) ==> is_done(w0, b, x) && b.nodes[index_of(x)].state.unwrap().data
            == a.nodes[index_of(x)].state.unwrap().data
}

/// Entity `j` of `cur` is entity `j` of `before` with `c` a pending subscriber of its cell when
/// it is in `pre`.
pub open spec fn sub_node<V>(before: WorldView<V>, cur: WorldView<V>, c: u64, pre: Seq<u64>, j: int) -> bool {
    let n = before.nodes[j];
    let n2 = cur.nodes[j];
    let x = entity_id(j);
    &&& n2.computed == n.computed
    &&& n2.effect == n.effect
    &&& n2.markers == n.markers
    &&& (n2.state is Some) == (n.state is Some)
    &&& n.state is Some ==> {
        let c0 = n.state.unwrap();
        let c2 = n2.state.unwrap();
        &&& c2 == CellView { next_subscribers: c2.next_subscribers, ..c0 }
        &&& forall|y: u64|
            #![trigger holds(c2.next_subscribers, y)]
            is_node_id(y, before.nodes.len() as int) ==> holds(c2.next_subscribers, y) == (holds(
                c0.next_subscribers,
                y,
            ) || (y == c && pre.contains(x)))
    }
}

/// Entity `j` of `cur` is entity `j` of `before` where memo `c` has read and subscribed to
/// the cell when it is in `pre`: the pending subscribers and `c` have joined the subscribers.
pub open spec fn memo_sub_node<V>(
    before: WorldView<V>,
    cur: WorldView<V>,
    c: u64,
    pre: Seq<u64>,
    j: int,
) -> bool {
    let n = before.nodes[j];
    let n2 = cur.nodes[j];
    let x = entity_id(j);
    let t = pre.contains(x);
    &&& n2.computed == n.computed
    &&& n2.effect == n.effect
    &&& n2.markers == n.markers
    &&& (n2.state is Some) == (n.state is Some)
    &&& n.state is Some ==> {
        let c0 = n.state.unwrap();
        let c2 = n2.state.unwrap();
        &&& c2 == CellView { subscribers: c2.subscribers, next_subscribers: c2.next_subscribers, ..c0 }
        &&& c2.next_subscribers == if t {
            Seq::<u64>::empty()
        } else {
            c0.next_subscribers
        }
        &&& forall|y: u64|
            #![trigger holds(c2.subscribers, y)]
            is_node_id(y, before.nodes.len() as int) ==> holds(c2.subscribers, y) == (holds(
                c0.subscribers,
                y,
            ) || (t && (holds(c0.next_subscribers, y) || y == c)))
    }
}

/// Pushing an element adds just it to what a sequence contains.
pub(crate) proof fn lemma_push_contains(ids: Seq<u64>, s: u64, x: u64)
    ensures
        ids.push(s).contains(x) == (ids.contains(x) || s == x),
{
    let b = ids.push(s);
    if b.contains(x) {
        let i = choose|i: int| 0 <= i < b.len() && b[i] == x;
        if i < ids.len() {
            assert(ids[i] == x);
        }
    }
    if ids.contains(x) {
        let i = choose|i: int| 0 <= i < ids.len() && ids[i] == x;
        assert(b[i] == x);
    }
    assert(b[ids.len() as int] == s);
}

/// Computing memo `c` touches what was touched and the sources of `c`.
proof fn lemma_touched_step<V>(w0: WorldView<V>, before: WorldView<V>, after: WorldView<V>, c: u64, x: u64)
    requires
        forall|y: u64| #[trigger] is_done(w0, after, y) == (is_done(w0, before, y) || y == c),
        is_memo(w0, c),
    ensures
        memo_touched(w0, after, x) == (memo_touched(w0, before, x) || reads(w0, c, x)),
{
    if memo_touched(w0, after, x) {
        let y = choose|y: u64| #[trigger] reads(w0, y, x) && is_done(w0, after, y);
        if y != c {
            assert(is_done(w0, before, y));
        }
    }
    if memo_touched(w0, before, x) {
        let y = choose|y: u64| #[trigger] reads(w0, y, x) && is_done(w0, before, y);
        assert(is_done(w0, after, y));
    }
    if reads(w0, c, x) {
        assert(is_done(w0, after, c));
    }
}

/// What memo `c` read stays a valid reading once more memos are computed.
proof fn lemma_arg_read_stable<V>(w0: WorldView<V>, a: WorldView<V>, b: WorldView<V>, s: u64, v: Option<V>)
    requires
        arg_read(w0, a, s, v),
        is_done(w0, a, s) ==> is_done(w0, b, s) && source_arg(b, s) == source_arg(a, s),
    ensures
        arg_read(w0, b, s, v),
{
}

/// Storing what `f` returned in memo `c`, whose Dirty sources are computed and to whose
/// sources it has subscribed, computes it.
proof fn lemma_compute_one<T: LazySignalsData, F: Fn(u64, &Vec<Option<T>>) -> LazySignalsResult<T>>(
    w0: WorldView<T::V>,
    before: WorldView<T::V>,
    mid: WorldView<T::V>,
    after: WorldView<T::V>,
    f: F,
    c: u64,
    ag: Vec<Option<T>>,
    rg: LazySignalsResult<T>,
)
    requires
        world_wf(w0),
        memo_state(w0, before, f),
        memos_ready(w0),
        is_memo(w0, c),
        !is_done(w0, before, c),
        forall|k: int|
            0 <= k < memo_sources(w0, c).len() && is_dirty(w0, #[trigger] memo_sources(w0, c)[k])
                ==> is_done(w0, before, memo_sources(w0, c)[k]),
        mid.nodes.len() == before.nodes.len(),
        mid.signals == before.signals,
        forall|j: int|
            0 <= j < before.nodes.len() ==> #[trigger] memo_sub_node(before, mid, c, memo_sources(w0, c), j),
        ag@.len() == memo_sources(w0, c).len(),
        forall|k: int|
            0 <= k < ag@.len() ==> option_view(#[trigger] ag@[k]) == source_arg(
                before,
                memo_sources(w0, c)[k],
            ),
        call_ensures(f, (c, &ag), rg),
        after.signals == mid.signals,
        after.nodes == mid.nodes.update(
            index_of(c),
            NodeView {
                state: Some(
                    CellView { data: rg@, ..mid.nodes[index_of(c)].state.unwrap() },
                ),
                markers: Markers {
                    compute_memo: false,
                    dirty: false,
                    triggered: false,
                    value_changed: mid.nodes[index_of(c)].markers.value_changed || mid.nodes[index_of(
                        c,
                    )].state.unwrap().data != rg@,
                    ..mid.nodes[index_of(c)].markers
                },
                ..mid.nodes[index_of(c)]
            },
        ),
    ensures
        memo_state(w0, after, f),
        is_done(w0, after, c),
        forall|x: u64| #[trigger] is_done(w0, after, x) ==> is_done(w0, before, x) || x == c,
        done_stable(w0, before, after),
{
    let n = w0.nodes.len() as int;
    let idx = index_of(c);
    let srcs = memo_sources(w0, c);
    lemma_wf_resource(w0);
    assert(memo_node(w0, before, idx));
    assert(memo_sub_node(before, mid, c, srcs, idx));
    lemma_wf_cell(w0, idx);
    assert forall|x: u64| #[trigger] is_done(w0, after, x) implies is_done(w0, before, x) || x == c by {
        if x != c {
            lemma_node_slots(x, c, n);
            assert(memo_node(w0, before, index_of(x)));
            assert(memo_sub_node(before, mid, c, srcs, index_of(x)));
        }
    }
    assert forall|x: u64| #[trigger] is_done(w0, before, x) implies is_done(w0, after, x)
        && after.nodes[index_of(x)].state.unwrap().data == before.nodes[index_of(x)].state.unwrap().data by {
        lemma_node_slots(x, c, n);
        assert(memo_node(w0, before, index_of(x)));
        assert(memo_sub_node(before, mid, c, srcs, index_of(x)));
    }
    assert forall|y: u64| #[trigger] is_done(w0, after, y) == (is_done(w0, before, y) || y == c) by {
        if is_done(w0, before, y) {
            assert(is_done(w0, after, y));
        }
    }
    assert forall|j: int| 0 <= j < n implies #[trigger] memo_node(w0, after, j) by {
        let x = entity_id(j);
        assert(is_node_id(x, n));
        assert(memo_node(w0, before, j));
        assert(memo_sub_node(before, mid, c, srcs, j));
        if j != idx {
            assert(x != c);
        }
        lemma_touched_step(w0, before, after, c, x);
        if w0.nodes[j].state is Some {
            let c2 = after.nodes[j].state.unwrap();
            let c0 = w0.nodes[j].state.unwrap();
            let t = memo_touched(w0, after, x);
            assert forall|y: u64|
                #![trigger holds(c2.subscribers, y)]
                is_node_id(y, n) implies holds(c2.subscribers, y) == (holds(c0.subscribers, y) || (t
                && holds(c0.next_subscribers, y)) || (is_done(w0, after, y) && reads(w0, y, x))) by {
                lemma_node_slots(y, c, n);
                let cm = mid.nodes[j].state.unwrap();
                let cb = before.nodes[j].state.unwrap();
                assert(holds(cm.subscribers, y) == (holds(cb.subscribers, y) || (srcs.contains(x) && (
                holds(cb.next_subscribers, y) || y == c))));
                assert(holds(cb.subscribers, y) == (holds(c0.subscribers, y) || (memo_touched(
                    w0,
                    before,
                    x,
                ) && holds(c0.next_subscribers, y)) || (is_done(w0, before, y) && reads(w0, y, x))));
                assert(is_done(w0, after, y) == (is_done(w0, before, y) || y == c));
            }
        }
    }
    assert forall|k: int| 0 <= k < ag@.len() implies #[trigger] arg_read(
        w0,
        after,
        srcs[k],
        option_view(ag@[k]),
    ) by {
        let s = srcs[k];
        assert(is_memo(w0, c) && 0 <= k < memo_sources(w0, c).len());
        assert(is_node_id(s, n));
        lemma_node_slots(s, c, n);
        assert(memo_node(w0, before, index_of(s)));
        assert(memo_sub_node(before, mid, c, srcs, index_of(s)));
        if is_dirty(w0, s) {
            assert(is_done(w0, before, s));
        }
    }
    assert(computed_from(w0, after, f, c, ag, rg));
    assert forall|x: u64| #[trigger] is_done(w0, after, x) implies memo_value_ok(w0, after, f, x) by {
        if x != c {
            assert(memo_value_ok(w0, before, f, x));
            let (a, r) = choose|a: Vec<Option<T>>, r: LazySignalsResult<T>| computed_from(
                w0,
                before,
                f,
                x,
                a,
                r,
            );
            assert forall|k: int| 0 <= k < a@.len() implies #[trigger] arg_read(
                w0,
                after,
                memo_sources(w0, x)[k],
                option_view(a@[k]),
            ) by {
                let s = memo_sources(w0, x)[k];
                assert(arg_read(w0, before, s, option_view(a@[k])));
                if is_done(w0, before, s) {
                    assert(is_done(w0, after, s));
                }
                lemma_arg_read_stable(w0, before, after, s, option_view(a@[k]));
            }
            assert(computed_from(w0, after, f, x, a, r));
        }
    }
}



/// `w2` is `w0` after the memo system ran `f`: every memo is computed (see `memo_state`).
pub open spec fn memos_computed<T: LazySignalsData, F: Fn(u64, &Vec<Option<T>>) -> LazySignalsResult<T>>(
    w0: WorldView<T::V>,
    w2: WorldView<T::V>,
    f: F,
) -> bool {
    &&& memo_state(w0, w2, f)
    &&& forall|x: u64| #[trigger] is_memo(w0, x) ==> is_done(w0, w2, x)
}

/// Every memo holds what `f` returned for the data its sources finally hold.
pub open spec fn memos_glitch_free<T: LazySignalsData, F: Fn(u64, &Vec<Option<T>>) -> LazySignalsResult<T>>(
    w0: WorldView<T::V>,
    w2: WorldView<T::V>,
    f: F,
) -> bool {
    forall|c: u64|
        #[trigger] is_memo(w0, c) ==> exists|a: Vec<Option<T>>, r: LazySignalsResult<T>|
            {
                &&& call_ensures(f, (c, &a), r)
                &&& r@ == w2.nodes[index_of(c)].state.unwrap().data
                &&& a@.len() == memo_sources(w0, c).len()
                &&& forall|k: int|
                    0 <= k < a@.len() ==> option_view(#[trigger] a@[k]) == source_arg(
                        w2,
                        memo_sources(w0, c)[k],
                    )
            }
}

/// Memo `c` waits on a source marked Dirty that has no rank yet.
spec fn blocked<V>(w: WorldView<V>, rank: Seq<u64>, c: u64) -> bool {
    exists|k: int|
        #![trigger memo_sources(w, c)[k]]
        0 <= k < memo_sources(w, c).len() && is_dirty(w, memo_sources(w, c)[k]) && rank[index_of(
            memo_sources(w, c)[k],
        )] == 0
}

/// Every ranked memo has a smaller, non-zero rank at each of its sources marked Dirty.
spec fn ranks_sound<V>(w: WorldView<V>, rank: Seq<u64>) -> bool {
    forall|c: u64, k: int|
        #![trigger is_memo(w, c), memo_sources(w, c)[k]]
        is_memo(w, c) && rank[index_of(c)] != 0 && 0 <= k < memo_sources(w, c).len() && is_dirty(
            w,
            memo_sources(w, c)[k],
        ) ==> rank[index_of(memo_sources(w, c)[k])] != 0 && rank[index_of(memo_sources(w, c)[k])]
            < rank[index_of(c)]
}

/// How many entries of `s` are non-zero.
spec fn count_ranked(s: Seq<u64>) -> nat
    decreases s.len(),
{
    if s.len() == 0 {
        0
    } else {
        count_ranked(s.drop_last()) + if s.last() != 0 {
            1nat
        } else {
            0nat
        }
    }
}

proof fn lemma_count_bound(s: Seq<u64>)
    ensures
        count_ranked(s) <= s.len(),
    decreases s.len(),
{
    if s.len() > 0 {
        lemma_count_bound(s.drop_last());
    }
}

proof fn lemma_count_update(s: Seq<u64>, i: int, v: u64)
    requires
        0 <= i < s.len(),
        s[i] == 0,
        v != 0,
    ensures
        count_ranked(s.update(i, v)) == count_ranked(s) + 1,
    decreases s.len(),
{
    if i == s.len() - 1 {
        assert(s.update(i, v).drop_last() =~= s.drop_last());
    } else {
        lemma_count_update(s.drop_last(), i, v);
        assert(s.update(i, v).drop_last() =~= s.drop_last().update(i, v));
    }
}

/// When every memo without a rank waits on another such memo, no rank function decreases
/// along Dirty sources: each memo without a rank is above every bound.
proof fn lemma_no_descent<V>(w: WorldView<V>, rank: Seq<u64>, rho: spec_fn(u64) -> nat, k: nat)
    requires
        rank_ok(w, rho),
        memos_ready(w),
        forall|c: u64| #[trigger] is_memo(w, c) && rank[index_of(c)] == 0 ==> blocked(w, rank, c),
    ensures
        forall|c: u64| #[trigger] is_memo(w, c) && rank[index_of(c)] == 0 ==> rho(c) >= k,
    decreases k,
{
    if k > 0 {
        lemma_no_descent(w, rank, rho, (k - 1) as nat);
        assert forall|c: u64| #[trigger] is_memo(w, c) && rank[index_of(c)] == 0 implies rho(c)
            >= k by {
            assert(blocked(w, rank, c));
            let j = choose|j: int|
                #![trigger memo_sources(w, c)[j]]
                0 <= j < memo_sources(w, c).len() && is_dirty(w, memo_sources(w, c)[j])
                    && rank[index_of(memo_sources(w, c)[j])] == 0;
            let s = memo_sources(w, c)[j];
            assert(source_ready(w, s));
            assert(is_memo(w, s));
            assert(rho(s) < rho(c));
        }
    }
}

/// Before any memo is computed.
proof fn lemma_memo_state_start<T: LazySignalsData, F: Fn(u64, &Vec<Option<T>>) -> LazySignalsResult<T>>(
    w0: WorldView<T::V>,
    f: F,
)
    ensures
        memo_state(w0, w0, f),
{
    assert forall|j: int| 0 <= j < w0.nodes.len() implies #[trigger] memo_node(w0, w0, j) by {
        assert(!is_done(w0, w0, entity_id(j)));
    }
}

/// Stability of computed memos composes.
proof fn lemma_done_stable_trans<V>(w0: WorldView<V>, a: WorldView<V>, b: WorldView<V>, c: WorldView<V>)
    requires
        done_stable(w0, a, b),
        done_stable(w0, b, c),
    ensures
        done_stable(w0, a, c),
{
    assert forall|x: u64| #[trigger] is_done(w0, a, x) implies is_done(w0, c, x)
        && c.nodes[index_of(x)].state.unwrap().data == a.nodes[index_of(x)].state.unwrap().data by {
        assert(is_done(w0, b, x));
    }
}

/// When every memo was Dirty, every memo read the data its sources finally hold.
pub proof fn lemma_glitch_free<T: LazySignalsData, F: Fn(u64, &Vec<Option<T>>) -> LazySignalsResult<T>>(
    w0: WorldView<T::V>,
    w2: WorldView<T::V>,
    f: F,
)
    requires
        memos_ready(w0),
        memos_dirty(w0),
        memos_computed(w0, w2, f),
    ensures
        memos_glitch_free(w0, w2, f),
{
    assert forall|c: u64| #[trigger] is_memo(w0, c) implies exists|a: Vec<Option<T>>, r: LazySignalsResult<T>|
        {
            &&& call_ensures(f, (c, &a), r)
            &&& r@ == w2.nodes[index_of(c)].state.unwrap().data
            &&& a@.len() == memo_sources(w0, c).len()
            &&& forall|k: int|
                0 <= k < a@.len() ==> option_view(#[trigger] a@[k]) == source_arg(
                    w2,
                    memo_sources(w0, c)[k],
                )
        } by {
        assert(is_done(w0, w2, c));
        assert(memo_value_ok(w0, w2, f, c));
        let (a, r) = choose|a: Vec<Option<T>>, r: LazySignalsResult<T>| computed_from(w0, w2, f, c, a, r);
        assert forall|k: int| 0 <= k < a@.len() implies option_view(#[trigger] a@[k]) == source_arg(
            w2,
            memo_sources(w0, c)[k],
        ) by {
            let s = memo_sources(w0, c)[k];
            assert(arg_read(w0, w2, s, option_view(a@[k])));
            assert(is_memo(w0, c) && 0 <= k < memo_sources(w0, c).len());
            if !is_dirty(w0, s) {
                assert(!is_memo(w0, s));
                assert(memo_node(w0, w2, index_of(s)));
                assert(entity_id(index_of(s)) == s);
            }
        }
    }
}

impl<T: LazySignalsData> LazySignalsWorld<T> {

    /// Read source `s` for memo `c`, which subscribes to it.
    pub(crate) fn read_source(
        &mut self,
        c: u64,
        s: u64,
        Ghost(before): Ghost<WorldView<T::V>>,
        Ghost(pre): Ghost<Seq<u64>>,
    ) -> (a: Option<T>)
        requires
            world_wf(old(self)@),
            is_node_id(c, before.nodes.len() as int),
            is_node_id(s, before.nodes.len() as int),
            before.nodes[index_of(s)].state is Some,
            old(self)@.nodes.len() == before.nodes.len(),
            forall|j: int|
                0 <= j < before.nodes.len() ==> #[trigger] sub_node(before, old(self)@, c, pre, j),
        ensures
            world_wf(final(self)@),
            final(self)@.nodes.len() == before.nodes.len(),
            final(self)@.signals == old(self)@.signals,
            forall|j: int|
                0 <= j < before.nodes.len() ==> #[trigger] sub_node(before, final(self)@, c, pre.push(s), j),
            option_view(a) == source_arg(before, s),
    {
        let ghost cur = self@;
        let len = self.nodes.len();
        proof {
            lemma_wf_resource(cur);
            assert(sub_node(before, cur, c, pre, index_of(s)));
            lemma_wf_cell(cur, index_of(s));
            lemma_node_slots(c, s, len as int);
        }
        let sidx = (s - ENTITY_BASE) as usize;
        let a = match &mut self.nodes[sidx].state {
            Some(cell) => cell.copy_data(c),
            None => None,
        };
        proof {
            let cs = cur.nodes[sidx as int].state.unwrap();
            assert(self@.nodes =~= cur.nodes.update(
                sidx as int,
                NodeView { state: Some(with_subscriber(cs, c)), ..cur.nodes[sidx as int] },
            ));
            super::subscribe::lemma_inserted_node_ids(cs.next_subscribers, c, len as int);
            crate::entity_set::lemma_inserted_valid(cs.next_subscribers, c);
            self.lemma_replace_wf(cur, sidx as int);
            assert forall|j: int| 0 <= j < len implies #[trigger] sub_node(
                before,
                self@,
                c,
                pre.push(s),
                j,
            ) by {
                assert(sub_node(before, cur, c, pre, j));
                let x = entity_id(j);
                lemma_push_contains(pre, s, x);
                if before.nodes[j].state is Some {
                    let c2 = self@.nodes[j].state.unwrap();
                    assert forall|y: u64|
                        #![trigger holds(c2.next_subscribers, y)]
                        is_node_id(y, len as int) implies holds(c2.next_subscribers, y) == (holds(
                        before.nodes[j].state.unwrap().next_subscribers,
                        y,
                    ) || (y == c && pre.push(s).contains(x))) by {
                        if j == sidx {
                            super::lemma_holds_inserted_node(cs.next_subscribers, c, y, len as int);
                        }
                    }
                }
            }
        }
        a
    }

    /// Read source `s` for memo `c`, which then subscribes to it (merging in the pending
    /// subscribers).
    fn read_memo_source(
        &mut self,
        c: u64,
        s: u64,
        Ghost(before): Ghost<WorldView<T::V>>,
        Ghost(pre): Ghost<Seq<u64>>,
    ) -> (a: Option<T>)
        requires
            world_wf(old(self)@),
            is_node_id(c, before.nodes.len() as int),
            is_node_id(s, before.nodes.len() as int),
            before.nodes[index_of(s)].state is Some,
            old(self)@.nodes.len() == before.nodes.len(),
            forall|j: int|
                0 <= j < before.nodes.len() ==> #[trigger] memo_sub_node(before, old(self)@, c, pre, j),
        ensures
            world_wf(final(self)@),
            final(self)@.nodes.len() == before.nodes.len(),
            final(self)@.signals == old(self)@.signals,
            forall|j: int|
                0 <= j < before.nodes.len() ==> #[trigger] memo_sub_node(
                    before,
                    final(self)@,
                    c,
                    pre.push(s),
                    j,
                ),
            option_view(a) == source_arg(before, s),
    {
        let ghost cur = self@;
        let len = self.nodes.len();
        proof {
            lemma_wf_resource(cur);
            assert(memo_sub_node(before, cur, c, pre, index_of(s)));
            lemma_wf_cell(cur, index_of(s));
            lemma_node_slots(c, s, len as int);
        }
        let sidx = (s - ENTITY_BASE) as usize;
        let a = match &mut self.nodes[sidx].state {
            Some(cell) => cell.copy_data(c),
            None => None,
        };
        let ghost copied = self@;
        proof {
            let cs = cur.nodes[sidx as int].state.unwrap();
            assert(copied.nodes =~= cur.nodes.update(
                sidx as int,
                NodeView { state: Some(with_subscriber(cs, c)), ..cur.nodes[sidx as int] },
            ));
            super::subscribe::lemma_inserted_node_ids(cs.next_subscribers, c, len as int);
            crate::entity_set::lemma_inserted_valid(cs.next_subscribers, c);
            self.lemma_replace_wf(cur, sidx as int);
        }
        self.subscribe(c, s);
        proof {
            let cs = cur.nodes[sidx as int].state.unwrap();
            let c1 = with_subscriber(cs, c);
            crate::entity_set::lemma_inserted_valid(cs.next_subscribers, c);
            crate::entity_set::lemma_inserted_valid(c1.next_subscribers, c);
            crate::lazy_immutable::lemma_insert_all(
                cs.subscribers,
                crate::entity_set::inserted(c1.next_subscribers, c),
            );
            assert forall|j: int| 0 <= j < len implies #[trigger] memo_sub_node(
                before,
                self@,
                c,
                pre.push(s),
                j,
            ) by {
                assert(memo_sub_node(before, cur, c, pre, j));
                let x = entity_id(j);
                lemma_push_contains(pre, s, x);
                if j == sidx {
                    let c2 = self@.nodes[j].state.unwrap();
                    let cb = before.nodes[j].state.unwrap();
                    assert forall|y: u64|
                        #![trigger holds(c2.subscribers, y)]
                        is_node_id(y, len as int) implies holds(c2.subscribers, y) == (holds(
                        cb.subscribers,
                        y,
                    ) || (pre.push(s).contains(x) && (holds(cb.next_subscribers, y) || y == c))) by {
                        super::lemma_holds_inserted_node(cs.next_subscribers, c, y, len as int);
                        super::lemma_holds_inserted_node(c1.next_subscribers, c, y, len as int);
                    }
                } else {
                    assert(x != s);
                }
            }
        }
        a
    }

    /// Read each source of `srcs`, in order, for memo `c`, which subscribes to each.
    fn read_memo_sources(&mut self, c: u64, srcs: &Vec<u64>) -> (args: Vec<Option<T>>)
        requires
            world_wf(old(self)@),
            is_node_id(c, old(self)@.nodes.len() as int),
            forall|k: int|
                0 <= k < srcs@.len() ==> is_node_id(#[trigger] srcs@[k], old(self)@.nodes.len() as int)
                    && old(self)@.nodes[index_of(srcs@[k])].state is Some,
        ensures
            world_wf(final(self)@),
            final(self)@.nodes.len() == old(self)@.nodes.len(),
            final(self)@.signals == old(self)@.signals,
            forall|j: int|
                0 <= j < old(self)@.nodes.len() ==> #[trigger] memo_sub_node(
                    old(self)@,
                    final(self)@,
                    c,
                    srcs@,
                    j,
                ),
            args@.len() == srcs@.len(),
            forall|k: int|
                0 <= k < args@.len() ==> option_view(#[trigger] args@[k]) == source_arg(
                    old(self)@,
                    srcs@[k],
                ),
    {
        let ghost before = self@;
        let len = self.nodes.len();
        proof {
            assert forall|j: int| 0 <= j < len implies #[trigger] memo_sub_node(
                before,
                self@,
                c,
                srcs@.take(0),
                j,
            ) by {
                if before.nodes[j].state is Some {
                    assert(self@.nodes[j].state.unwrap() == before.nodes[j].state.unwrap());
                }
            }
        }
        let mut args: Vec<Option<T>> = Vec::new();
        let mut k: usize = 0;
        while k < srcs.len()
            invariant
                0 <= k <= srcs.len(),
                len == before.nodes.len(),
                is_node_id(c, len as int),
                forall|k2: int|
                    0 <= k2 < srcs@.len() ==> is_node_id(#[trigger] srcs@[k2], len as int)
                        && before.nodes[index_of(srcs@[k2])].state is Some,
                world_wf(self@),
                self@.nodes.len() == len,
                self@.signals == before.signals,
                forall|j: int|
                    0 <= j < len ==> #[trigger] memo_sub_node(before, self@, c, srcs@.take(k as int), j),
                args@.len() == k,
                forall|k2: int|
                    0 <= k2 < k ==> option_view(#[trigger] args@[k2]) == source_arg(
                        before,
                        srcs@[k2],
                    ),
            decreases srcs.len() - k,
        {
            let s = srcs[k];
            proof {
                assert(is_node_id(srcs@[k as int], len as int));
                assert(srcs@.take(k + 1) =~= srcs@.take(k as int).push(s));
            }
            let a = self.read_memo_source(c, s, Ghost(before), Ghost(srcs@.take(k as int)));
            args.push(a);
            k = k + 1;
        }
        proof {
            assert(srcs@.take(srcs@.len() as int) =~= srcs@);
        }
        args
    }

    /// Read each source of `srcs`, in order, for `reader`, which subscribes to each.
    pub(crate) fn read_sources(&mut self, reader: u64, srcs: &Vec<u64>) -> (args: Vec<Option<T>>)
        requires
            world_wf(old(self)@),
            is_node_id(reader, old(self)@.nodes.len() as int),
            forall|k: int|
                0 <= k < srcs@.len() ==> is_node_id(#[trigger] srcs@[k], old(self)@.nodes.len() as int)
                    && old(self)@.nodes[index_of(srcs@[k])].state is Some,
        ensures
            world_wf(final(self)@),
            final(self)@.nodes.len() == old(self)@.nodes.len(),
            final(self)@.signals == old(self)@.signals,
            forall|j: int|
                0 <= j < old(self)@.nodes.len() ==> #[trigger] sub_node(
                    old(self)@,
                    final(self)@,
                    reader,
                    srcs@,
                    j,
                ),
            args@.len() == srcs@.len(),
            forall|k: int|
                0 <= k < args@.len() ==> option_view(#[trigger] args@[k]) == source_arg(
                    old(self)@,
                    srcs@[k],
                ),
    {
        let ghost before = self@;
        let len = self.nodes.len();
        proof {
            assert forall|j: int| 0 <= j < len implies #[trigger] sub_node(
                before,
                self@,
                reader,
                srcs@.take(0),
                j,
            ) by {
                if before.nodes[j].state is Some {
                    assert(self@.nodes[j].state.unwrap() == before.nodes[j].state.unwrap());
                }
            }
        }
        let mut args: Vec<Option<T>> = Vec::new();
        let mut k: usize = 0;
        while k < srcs.len()
            invariant
                0 <= k <= srcs.len(),
                len == before.nodes.len(),
                is_node_id(reader, len as int),
                forall|k2: int|
                    0 <= k2 < srcs@.len() ==> is_node_id(#[trigger] srcs@[k2], len as int)
                        && before.nodes[index_of(srcs@[k2])].state is Some,
                world_wf(self@),
                self@.nodes.len() == len,
                self@.signals == before.signals,
                forall|j: int|
                    0 <= j < len ==> #[trigger] sub_node(before, self@, reader, srcs@.take(k as int), j),
                args@.len() == k,
                forall|k2: int|
                    0 <= k2 < k ==> option_view(#[trigger] args@[k2]) == source_arg(
                        before,
                        srcs@[k2],
                    ),
            decreases srcs.len() - k,
        {
            let s = srcs[k];
            proof {
                assert(is_node_id(srcs@[k as int], len as int));
                assert(srcs@.take(k + 1) =~= srcs@.take(k as int).push(s));
            }
            let a = self.read_source(reader, s, Ghost(before), Ghost(srcs@.take(k as int)));
            args.push(a);
            k = k + 1;
        }
        proof {
            assert(srcs@.take(srcs@.len() as int) =~= srcs@);
        }
        args
    }

    /// Compute memo `c`, whose Dirty sources are computed: read each source (subscribing to
    /// it), run `f` on what was read, store the result, and trade ComputeMemo, Dirty and
    /// Triggered for ValueChanged when the data changed.
    fn compute_one<F: Fn(u64, &Vec<Option<T>>) -> LazySignalsResult<T>>(
        &mut self,
        c: u64,
        f: &F,
        Ghost(w0): Ghost<WorldView<T::V>>,
    )
        requires
            world_wf(w0),
            world_wf(old(self)@),
            memo_state(w0, old(self)@, *f),
            memos_ready(w0),
            is_memo(w0, c),
            !is_done(w0, old(self)@, c),
            forall|k: int|
                0 <= k < memo_sources(w0, c).len() && is_dirty(w0, #[trigger] memo_sources(w0, c)[k])
                    ==> is_done(w0, old(self)@, memo_sources(w0, c)[k]),
            forall|x: u64, a: &Vec<Option<T>>| f.requires((x, a)),
        ensures
            world_wf(final(self)@),
            memo_state(w0, final(self)@, *f),
            is_done(w0, final(self)@, c),
            forall|x: u64| #[trigger] is_done(w0, final(self)@, x) ==> is_done(w0, old(self)@, x) || x == c,
            done_stable(w0, old(self)@, final(self)@),
    {
        let ghost before = self@;
        let len = self.nodes.len();
        proof {
            lemma_wf_resource(before);
            lemma_node_slots(c, c, len as int);
        }
        let idx = (c - ENTITY_BASE) as usize;
        proof {
            assert(memo_node(w0, before, idx as int));
        }
        let srcs = match &self.nodes[idx].computed {
            Some(cm) => cm.sources.duplicate().into_vec(),
            None => Vec::new(),
        };
        proof {
            assert(srcs@ == memo_sources(w0, c));
            assert forall|k: int| 0 <= k < srcs@.len() implies is_node_id(#[trigger] srcs@[k], len as int)
                && before.nodes[index_of(srcs@[k])].state is Some by {
                assert(is_memo(w0, c) && 0 <= k < memo_sources(w0, c).len());
                assert(memo_node(w0, before, index_of(srcs@[k])));
            }
        }
        let args = self.read_memo_sources(c, &srcs);
        let ghost ag = args;
        let r = f(c, &args);
        let ghost rg = r;
        let ghost mid = self@;
        proof {
            assert(memo_sub_node(before, mid, c, memo_sources(w0, c), idx as int));
            lemma_wf_cell(mid, idx as int);
        }
        let changed = match &mut self.nodes[idx].state {
            Some(cell) => cell.update(r),
            None => false,
        };
        self.nodes[idx].markers.compute_memo = false;
        self.nodes[idx].markers.dirty = false;
        self.nodes[idx].markers.triggered = false;
        if changed {
            self.nodes[idx].markers.value_changed = true;
        }
        proof {
            let nm = mid.nodes[idx as int];
            assert(self@.nodes =~= mid.nodes.update(
                idx as int,
                NodeView {
                    state: Some(CellView { data: rg@, ..nm.state.unwrap() }),
                    markers: Markers {
                        compute_memo: false,
                        dirty: false,
                        triggered: false,
                        value_changed: nm.markers.value_changed || nm.state.unwrap().data != rg@,
                        ..nm.markers
                    },
                    ..nm
                },
            ));
            self.lemma_replace_wf(mid, idx as int);
            lemma_compute_one(w0, before, mid, self@, *f, c, ag, rg);
        }
    }

    /// Compute memo `c` once each of its sources marked Dirty is computed, those first (the
    /// last one first).
    fn visit_memo<F: Fn(u64, &Vec<Option<T>>) -> LazySignalsResult<T>>(
        &mut self,
        c: u64,
        f: &F,
        Ghost(w0): Ghost<WorldView<T::V>>,
        Ghost(rank): Ghost<spec_fn(u64) -> nat>,
    )
        requires
            world_wf(w0),
            world_wf(old(self)@),
            memo_state(w0, old(self)@, *f),
            memos_ready(w0),
            rank_ok(w0, rank),
            is_memo(w0, c),
            forall|x: u64, a: &Vec<Option<T>>| f.requires((x, a)),
        ensures
            world_wf(final(self)@),
            memo_state(w0, final(self)@, *f),
            is_done(w0, final(self)@, c),
            done_stable(w0, old(self)@, final(self)@),
            forall|x: u64|
                #[trigger] is_done(w0, final(self)@, x) ==> is_done(w0, old(self)@, x) || rank(x)
                    <= rank(c),
        decreases rank(c),
    {
        let ghost start = self@;
        let len = self.nodes.len();
        proof {
            lemma_wf_resource(start);
            lemma_node_slots(c, c, len as int);
            assert(memo_node(w0, start, index_of(c)));
        }
        let idx = (c - ENTITY_BASE) as usize;
        if self.nodes[idx].markers.compute_memo {
            let srcs = match &self.nodes[idx].computed {
                Some(cm) => cm.sources.duplicate().into_vec(),
                None => Vec::new(),
            };
            let mut k: usize = srcs.len();
            while k > 0
                invariant
                    0 <= k <= srcs.len(),
                    srcs@ == memo_sources(w0, c),
                    len == w0.nodes.len(),
                    len <= MAX_ENTITIES,
                    world_wf(w0),
                    world_wf(self@),
                    memo_state(w0, self@, *f),
                    memos_ready(w0),
                    rank_ok(w0, rank),
                    is_memo(w0, c),
                    forall|x: u64, a: &Vec<Option<T>>| f.requires((x, a)),
                    done_stable(w0, start, self@),
                    forall|x: u64|
                        #[trigger] is_done(w0, self@, x) ==> is_done(w0, start, x) || rank(x) < rank(c),
                    !is_done(w0, self@, c),
                    forall|k2: int|
                        k <= k2 < srcs@.len() && is_dirty(w0, #[trigger] srcs@[k2]) ==> is_done(
                            w0,
                            self@,
                            srcs@[k2],
                        ),
                decreases k,
            {
                k = k - 1;
                let s = srcs[k];
                let ghost cur = self@;
                proof {
                    assert(is_memo(w0, c) && 0 <= k < memo_sources(w0, c).len());
                    lemma_node_slots(s, s, len as int);
                    assert(memo_node(w0, cur, index_of(s)));
                    assert(entity_id(index_of(s)) == s);
                }
                let sidx = (s - ENTITY_BASE) as usize;
                if self.nodes[sidx].markers.dirty {
                    proof {
                        assert(is_dirty(w0, s));
                        assert(rank(s) < rank(c));
                    }
                    self.visit_memo(s, f, Ghost(w0), Ghost(rank));
                    proof {
                        lemma_done_stable_trans(w0, start, cur, self@);
                        assert forall|x: u64| #[trigger] is_done(w0, self@, x) implies is_done(
                            w0,
                            start,
                            x,
                        ) || rank(x) < rank(c) by {
                            if !is_done(w0, cur, x) {
                                assert(rank(x) <= rank(s));
                            }
                        }
                        assert forall|k2: int|
                            k <= k2 < srcs@.len() && is_dirty(w0, #[trigger] srcs@[k2]) implies is_done(
                            w0,
                            self@,
                            srcs@[k2],
                        ) by {
                            if k2 > k {
                                assert(is_done(w0, cur, srcs@[k2]));
                            }
                        }
                    }
                }
            }
            let ghost before = self@;
            self.compute_one(c, f, Ghost(w0));
            proof {
                lemma_done_stable_trans(w0, start, before, self@);
            }
        } else {
            proof {
                assert(is_done(w0, start, c));
            }
        }
    }

    /// The memo system: compute every computed marked ComputeMemo with `f`, which receives the
    /// computed's entity id and the data of its sources, in order; computeds are taken from
    /// the highest entity down, each after its sources marked Dirty.  Every source of a memo
    /// must be an entity with a cell, every Dirty source a memo, and the Dirty sources must not
    /// form a cycle.
    pub fn compute_memos<F: Fn(u64, &Vec<Option<T>>) -> LazySignalsResult<T>>(&mut self, f: &F)
        requires
            world_wf(old(self)@),
            memos_ready(old(self)@),
            memos_acyclic(old(self)@),
            forall|x: u64, a: &Vec<Option<T>>| f.requires((x, a)),
        ensures
            world_wf(final(self)@),
            memos_computed(old(self)@, final(self)@, *f),
            memos_dirty(old(self)@) ==> memos_glitch_free(old(self)@, final(self)@, *f),
    {
        let ghost w0 = self@;
        let ghost rank = choose|rank: spec_fn(u64) -> nat| rank_ok(w0, rank);
        proof {
            lemma_memo_state_start(w0, *f);
            lemma_wf_resource(w0);
        }
        let len = self.nodes.len();
        let mut i: usize = len;
        while i > 0
            invariant
                0 <= i <= len,
                len == w0.nodes.len(),
                len <= MAX_ENTITIES,
                world_wf(w0),
                world_wf(self@),
                memo_state(w0, self@, *f),
                memos_ready(w0),
                rank_ok(w0, rank),
                forall|x: u64, a: &Vec<Option<T>>| f.requires((x, a)),
                forall|x: u64| #[trigger] is_memo(w0, x) && index_of(x) >= i ==> is_done(w0, self@, x),
            decreases i,
        {
            i = i - 1;
            let ghost cur = self@;
            let c = ENTITY_BASE + i as u64;
            proof {
                assert(memo_node(w0, cur, i as int));
                assert(entity_id(i as int) == c);
            }
            if self.nodes[i].computed.is_some() && self.nodes[i].markers.compute_memo {
                self.visit_memo(c, f, Ghost(w0), Ghost(rank));
                proof {
                    assert forall|x: u64| #[trigger] is_memo(w0, x) && index_of(x) >= i implies is_done(
                        w0,
                        self@,
                        x,
                    ) by {
                        if index_of(x) > i {
                            assert(is_done(w0, cur, x));
                        }
                    }
                }
            }
        }
        proof {
            if memos_dirty(w0) {
                lemma_glitch_free(w0, self@, *f);
            }
        }
    }

    /// Whether the memo at `i` may read each of its sources.
    fn memo_sources_ready(&self, i: usize) -> (r: bool)
        requires
            i < self@.nodes.len(),
            self@.nodes.len() <= MAX_ENTITIES,
            is_memo(self@, entity_id(i as int)),
        ensures
            r == (forall|k: int|
                0 <= k < memo_sources(self@, entity_id(i as int)).len() ==> source_ready(
                    self@,
                    #[trigger] memo_sources(self@, entity_id(i as int))[k],
                )),
    {
        let ghost w = self@;
        let ghost c = entity_id(i as int);
        proof {
            assert(index_of(c) == i);
            assert(w.nodes[i as int] == self.nodes@[i as int]@);
        }
        let srcs = match &self.nodes[i].computed {
            Some(cm) => cm.sources.duplicate().into_vec(),
            None => Vec::new(),
        };
        let mut k: usize = 0;
        while k < srcs.len()
            invariant
                0 <= k <= srcs.len(),
                w == self@,
                c == entity_id(i as int),
                srcs@ == memo_sources(w, c),
                forall|k2: int| 0 <= k2 < k ==> source_ready(w, #[trigger] memo_sources(w, c)[k2]),
            decreases srcs.len() - k,
        {
            let s = srcs[k];
            let ready = match self.node_index(s) {
                Some(sidx) => {
                    proof {
                        assert(w.nodes[sidx as int] == self.nodes@[sidx as int]@);
                    }
                    self.nodes[sidx].state.is_some() && (!self.nodes[sidx].markers.dirty || (
                    self.nodes[sidx].computed.is_some() && self.nodes[sidx].markers.compute_memo))
                },
                None => false,
            };
            proof {
                assert(memo_sources(w, c)[k as int] == s);
            }
            if !ready {
                return false;
            }
            k = k + 1;
        }
        true
    }

    /// Whether every memo may read each of its sources: what the memo system needs.
    pub fn memos_ready_check(&self) -> (r: bool)
        requires
            world_wf(self@),
        ensures
            r == memos_ready(self@),
    {
        let ghost w = self@;
        let len = self.nodes.len();
        proof {
            lemma_wf_resource(w);
        }
        let mut i: usize = 0;
        while i < len
            invariant
                0 <= i <= len,
                len == w.nodes.len(),
                len <= MAX_ENTITIES,
                w == self@,
                forall|c: u64, k: int|
                    #![trigger is_memo(w, c), memo_sources(w, c)[k]]
                    is_memo(w, c) && index_of(c) < i && 0 <= k < memo_sources(w, c).len()
                        ==> source_ready(w, memo_sources(w, c)[k]),
            decreases len - i,
        {
            let ghost c = entity_id(i as int);
            proof {
                assert(index_of(c) == i);
                assert(w.nodes[i as int] == self.nodes@[i as int]@);
            }
            if self.nodes[i].computed.is_some() && self.nodes[i].markers.compute_memo {
                proof {
                    assert(is_memo(w, c));
                }
                if !self.memo_sources_ready(i) {
                    proof {
                        let k = choose|k: int|
                            0 <= k < memo_sources(w, c).len() && !source_ready(
                                w,
                                #[trigger] memo_sources(w, c)[k],
                            );
                        assert(is_memo(w, c) && 0 <= k < memo_sources(w, c).len());
                    }
                    return false;
                }
            }
            proof {
                assert forall|c2: u64, k: int|
                    #![trigger is_memo(w, c2), memo_sources(w, c2)[k]]
                    is_memo(w, c2) && index_of(c2) < i + 1 && 0 <= k < memo_sources(w, c2).len()
                        implies source_ready(w, memo_sources(w, c2)[k]) by {
                    if index_of(c2) == i {
                        assert(c2 == c);
                    }
                }
            }
            i = i + 1;
        }
        true
    }

    /// Whether memo `i` has no source marked Dirty that is still without a rank.
    fn memo_unblocked(&self, i: usize, rank: &Vec<u64>) -> (r: bool)
        requires
            i < self@.nodes.len(),
            self@.nodes.len() <= MAX_ENTITIES,
            is_memo(self@, entity_id(i as int)),
            memos_ready(self@),
            rank@.len() == self@.nodes.len(),
        ensures
            r == !blocked(self@, rank@, entity_id(i as int)),
    {
        let ghost w = self@;
        let ghost c = entity_id(i as int);
        proof {
            assert(index_of(c) == i);
            assert(w.nodes[i as int] == self.nodes@[i as int]@);
        }
        let srcs = match &self.nodes[i].computed {
            Some(cm) => cm.sources.duplicate().into_vec(),
            None => Vec::new(),
        };
        let mut k: usize = 0;
        while k < srcs.len()
            invariant
                0 <= k <= srcs.len(),
                w == self@,
                c == entity_id(i as int),
                srcs@ == memo_sources(w, c),
                rank@.len() == w.nodes.len(),
                memos_ready(w),
                is_memo(w, c),
                forall|k2: int|
                    0 <= k2 < k ==> !(is_dirty(w, #[trigger] memo_sources(w, c)[k2]) && rank@[index_of(
                        memo_sources(w, c)[k2],
                    )] == 0),
            decreases srcs.len() - k,
        {
            let s = srcs[k];
            proof {
                assert(memo_sources(w, c)[k as int] == s);
                assert(source_ready(w, s));
            }
            match self.node_index(s) {
                Some(sidx) => {
                    proof {
                        assert(w.nodes[sidx as int] == self.nodes@[sidx as int]@);
                    }
                    if self.nodes[sidx].markers.dirty && rank[sidx] == 0 {
                        proof {
                            assert(is_dirty(w, memo_sources(w, c)[k as int]));
                        }
                        return false;
                    }
                },
                None => {},
            }
            k = k + 1;
        }
        true
    }

    /// Whether no memo depends on itself through sources marked Dirty: what the memo system
    /// needs to end.  Memos are ranked in rounds, each once its Dirty sources are; the check
    /// holds when every memo gets a rank.
    pub fn memos_acyclic_check(&self) -> (r: bool)
        requires
            world_wf(self@),
            memos_ready(self@),
        ensures
            r == memos_acyclic(self@),
    {
        let ghost w = self@;
        let n = self.nodes.len();
        proof {
            lemma_wf_resource(w);
        }
        let mut rank: Vec<u64> = Vec::new();
        let mut i: usize = 0;
        while i < n
            invariant
                0 <= i <= n,
                rank@.len() == i,
                count_ranked(rank@) == 0,
                forall|j: int| 0 <= j < i ==> rank@[j] == 0,
            decreases n - i,
        {
            proof {
                assert(rank@.push(0u64).drop_last() =~= rank@);
            }
            rank.push(0);
            i = i + 1;
        }
        let mut counter: u64 = 0;
        let mut progress = true;
        while progress
            invariant
                w == self@,
                n == w.nodes.len(),
                n <= MAX_ENTITIES,
                memos_ready(w),
                rank@.len() == n,
                counter == count_ranked(rank@),
                counter <= n,
                forall|j: int| 0 <= j < n ==> rank@[j] <= counter,
                ranks_sound(w, rank@),
                !progress ==> forall|c: u64|
                    #[trigger] is_memo(w, c) && rank@[index_of(c)] == 0 ==> blocked(w, rank@, c),
            decreases n - counter + if progress {
                1int
            } else {
                0int
            },
        {
            progress = false;
            let ghost start = rank@;
            let ghost start_counter = counter;
            let mut i: usize = 0;
            while i < n
                invariant
                    0 <= i <= n,
                    w == self@,
                    n == w.nodes.len(),
                    n <= MAX_ENTITIES,
                    memos_ready(w),
                    rank@.len() == n,
                    counter == count_ranked(rank@),
                    counter <= n,
                    forall|j: int| 0 <= j < n ==> rank@[j] <= counter,
                    ranks_sound(w, rank@),
                    start_counter <= counter,
                    progress ==> start_counter < counter,
                    !progress ==> rank@ == start && counter == start_counter,
                    !progress ==> forall|c: u64|
                        #[trigger] is_memo(w, c) && index_of(c) < i && rank@[index_of(c)] == 0
                            ==> blocked(w, rank@, c),
                decreases n - i,
            {
                let ghost c = entity_id(i as int);
                proof {
                    assert(index_of(c) == i);
                    assert(w.nodes[i as int] == self.nodes@[i as int]@);
                }
                if self.nodes[i].computed.is_some() && self.nodes[i].markers.compute_memo && rank[i]
                    == 0 {
                    proof {
                        assert(is_memo(w, c));
                    }
                    if self.memo_unblocked(i, &rank) {
                        let ghost before = rank@;
                        proof {
                            lemma_count_update(before, i as int, (counter + 1) as u64);
                            lemma_count_bound(before.update(i as int, (counter + 1) as u64));
                        }
                        counter = counter + 1;
                        rank.set(i, counter);
                        progress = true;
                        proof {
                            assert(rank@ == before.update(i as int, counter));
                            assert forall|c2: u64, k: int|
                                #![trigger is_memo(w, c2), memo_sources(w, c2)[k]]
                                is_memo(w, c2) && rank@[index_of(c2)] != 0 && 0 <= k
                                    < memo_sources(w, c2).len() && is_dirty(w, memo_sources(w, c2)[k])
                                    implies rank@[index_of(memo_sources(w, c2)[k])] != 0
                                && rank@[index_of(memo_sources(w, c2)[k])] < rank@[index_of(c2)] by {
                                let s = memo_sources(w, c2)[k];
                                assert(source_ready(w, s));
                                if c2 == c {
                                    if index_of(s) != i {
                                        assert(!(is_dirty(w, s) && before[index_of(s)] == 0));
                                    }
                                } else {
                                    assert(index_of(c2) != i);
                                    if index_of(s) == i {
                                        assert(before[index_of(s)] != 0);
                                    }
                                }
                            }
                        }
                    }
                }
                i = i + 1;
            }
        }
        let mut i: usize = 0;
        while i < n
            invariant
                0 <= i <= n,
                w == self@,
                n == w.nodes.len(),
                n <= MAX_ENTITIES,
                memos_ready(w),
                rank@.len() == n,
                ranks_sound(w, rank@),
                forall|c: u64|
                    #[trigger] is_memo(w, c) && rank@[index_of(c)] == 0 ==> blocked(w, rank@, c),
                forall|c: u64| #[trigger] is_memo(w, c) && index_of(c) < i ==> rank@[index_of(c)] != 0,
            decreases n - i,
        {
            let ghost c = entity_id(i as int);
            proof {
                assert(index_of(c) == i);
                assert(w.nodes[i as int] == self.nodes@[i as int]@);
            }
            if self.nodes[i].computed.is_some() && self.nodes[i].markers.compute_memo && rank[i] == 0 {
                proof {
                    assert(is_memo(w, c));
                    if memos_acyclic(w) {
                        let rho = choose|rho: spec_fn(u64) -> nat| rank_ok(w, rho);
                        lemma_no_descent(w, rank@, rho, rho(c) + 1);
                    }
                }
                return false;
            }
            i = i + 1;
        }
        proof {
            let r = rank@;
            let rho = |x: u64| if is_node_id(x, n as int) {
                r[index_of(x)] as nat
            } else {
                0nat
            };
            assert forall|c: u64, k: int|
                #![trigger is_memo(w, c), memo_sources(w, c)[k]]
                is_memo(w, c) && 0 <= k < memo_sources(w, c).len() && is_dirty(w, memo_sources(w, c)[k])
                    implies rho(memo_sources(w, c)[k]) < rho(c) by {
                assert(source_ready(w, memo_sources(w, c)[k]));
            }
            assert(rank_ok(w, rho));
        }
        true
    }
}

} // verus!
