//! What holds of the library across its operations.
use crate::api::{value_of, with_computed, with_state};
use crate::entity_set::{holds, is_entity_bits};
use crate::framework::{placeholder, value_result, LazySignalsData, LazySignalsResult};
use crate::lazy_immutable::{
    cell_wf, insert_all, merge_changed, merge_notified, merge_notifies, merged, with_merged_subscribers,
    with_next, with_subscriber, CellView, lemma_insert_all,
};
use crate::world::signal::{
    is_path, is_sent, propagated, propagated_id, propagated_node, reachable, reports_change,
    root_from,
};
use crate::world::computed::{
    is_dirty, is_done, is_memo, lemma_glitch_free, memo_node, memo_sources, memos_computed,
    memos_dirty, memos_glitch_free, memos_ready,
};
use crate::world::{
    created_effect, entity_id, index_of, is_node_id, sent, EffectContext, EffectView, WorldView,
    MAX_ENTITIES,
};
use crate::world::effect::{effect_runs, effects_applied, runs_upto};
use crate::world::init::initialized;
use vstd::prelude::*;

verus! {

/// Sending twice to the same signal before the next batch is the same as sending only the
/// second value: the last signal sent wins.
pub proof fn law_last_send_wins<V>(w: WorldView<V>, signal: u64, first: V, second: V, t1: bool, t2: bool)
    ensures
        sent(sent(w, signal, first, t1), signal, second, t2) == sent(w, signal, second, t2),
{
    let w1 = sent(w, signal, first, t1);
    if is_node_id(signal, w.nodes.len() as int) && w.nodes[index_of(signal)].state is Some {
        assert(sent(w1, signal, second, t2).nodes =~= sent(w, signal, second, t2).nodes);
    }
}

/// Sending a signal changes no value until the signals are processed.
pub proof fn law_send_is_lazy<V>(w: WorldView<V>, signal: u64, data: V, trigger: bool, x: u64)
    requires
        is_node_id(x, w.nodes.len() as int),
    ensures
        value_of(sent(w, signal, data, trigger), x) == value_of(w, x),
{
    if is_node_id(signal, w.nodes.len() as int) && w.nodes[index_of(signal)].state is Some {
        if x != signal {
            assert(index_of(x) != index_of(signal));
        }
    }
}

/// A new state is a fresh entity that reads back its value, with no subscriber and no signal
/// pending; the entities that were there keep their values.
pub proof fn law_state_fresh<V>(w: WorldView<V>, data: V, x: u64)
    requires
        w.nodes.len() < MAX_ENTITIES,
        is_node_id(x, w.nodes.len() as int),
    ensures
        !is_node_id(entity_id(w.nodes.len() as int), w.nodes.len() as int),
        is_node_id(entity_id(w.nodes.len() as int), with_state(w, value_result(data)).nodes.len() as int),
        value_of(with_state(w, value_result(data)), entity_id(w.nodes.len() as int)) == Some(data),
        with_state(w, value_result(data)).nodes[index_of(entity_id(w.nodes.len() as int))].state.unwrap().subscribers
            == Seq::<u64>::empty(),
        with_state(w, value_result(data)).nodes[index_of(entity_id(w.nodes.len() as int))].state.unwrap().next_subscribers
            == Seq::<u64>::empty(),
        !with_state(w, value_result(data)).nodes[index_of(entity_id(w.nodes.len() as int))].markers.send_signal,
        value_of(with_state(w, value_result(data)), x) == value_of(w, x),
{
    let n = w.nodes.len() as int;
    assert(index_of(entity_id(n)) == n);
}

/// A value sent to a new state is not read until the signals are processed; then it is.
pub proof fn law_state_send_read<V>(w: WorldView<V>, data: V, next: V, w3: WorldView<V>)
    requires
        w.nodes.len() < MAX_ENTITIES,
        propagated(
            sent(with_state(w, value_result(data)), entity_id(w.nodes.len() as int), next, false),
            w3,
        ),
    ensures
        value_of(
            sent(with_state(w, value_result(data)), entity_id(w.nodes.len() as int), next, false),
            entity_id(w.nodes.len() as int),
        ) == Some(data),
        value_of(w3, entity_id(w.nodes.len() as int)) == Some(next),
{
    let n = w.nodes.len() as int;
    let w1 = with_state(w, value_result(data));
    let e = entity_id(n);
    assert(index_of(e) == n);
    law_send_is_lazy(w1, e, next, false, e);
    law_read_after_send(w1, e, next, false, w3);
}

/// Merging a signal sent `data` leaves `data` in its cell, whether it changed or not.
pub proof fn law_merge_keeps_sent<V>(c: CellView<V>, data: V, trigger: bool)
    ensures
        merged(with_next(c, value_result(data), trigger)).data == value_result(data),
{
}

/// Once the signals are processed, a signal that was sent `data` holds `data`.
pub proof fn law_read_after_send<V>(w: WorldView<V>, signal: u64, data: V, trigger: bool, w2: WorldView<V>)
    requires
        is_node_id(signal, w.nodes.len() as int),
        w.nodes[index_of(signal)].state is Some,
        propagated(sent(w, signal, data, trigger), w2),
    ensures
        w2.nodes[index_of(signal)].state.unwrap().data == value_result(data),
        value_of(w2, signal) == Some(data),
{
    let w1 = sent(w, signal, data, trigger);
    let j = index_of(signal);
    assert(propagated_node(w1, w2, j));
    assert(is_sent(w1.nodes[j]));
    law_merge_keeps_sent(w.nodes[j].state.unwrap(), data, trigger);
}

/// Sending a signal the value it already holds, without triggering, changes nothing and
/// notifies no subscriber.
pub proof fn law_unchanged_send_is_quiet<V>(c: CellView<V>, data: V)
    requires
        c.data == value_result(data),
    ensures
        !merge_changed(with_next(c, value_result(data), false)),
        merge_notified(with_next(c, value_result(data), false)) == Seq::<u64>::empty(),
        merged(with_next(c, value_result(data), false)).data == c.data,
        merged(with_next(c, value_result(data), false)).subscribers == c.subscribers,
{
}

/// Triggering a signal notifies every subscriber, changed or not, and forgets them until they
/// subscribe again.
pub proof fn law_trigger_notifies<V>(c: CellView<V>, data: V)
    ensures
        merge_notified(with_next(c, value_result(data), true)) == c.subscribers,
        merged(with_next(c, value_result(data), true)).subscribers == Seq::<u64>::empty(),
        !merged(with_next(c, value_result(data), true)).triggered,
{
}

/// Merging with nothing pending keeps the data: the "no next value" placeholder never clobbers
/// it.  A triggered cell still hands back its subscribers and resets the trigger.
pub proof fn law_placeholder_keeps_data<V>(c: CellView<V>, trigger: bool)
    ensures
        merged(with_next(c, placeholder(), trigger)).data == c.data,
        !merge_changed(with_next(c, placeholder(), trigger)),
        merge_notified(with_next(c, placeholder(), trigger)) == (if trigger {
            c.subscribers
        } else {
            Seq::<u64>::empty()
        }),
        !merged(with_next(c, placeholder(), trigger)).triggered,
{
}

/// When no sent signal changes, is triggered or fails, the signal system reaches no entity:
/// no computed is marked to recompute and no effect to run.
pub proof fn law_quiet_batch_schedules_nothing<V>(w: WorldView<V>, w2: WorldView<V>)
    requires
        forall|i: int|
            0 <= i < w.nodes.len() && #[trigger] is_sent(w.nodes[i]) ==> !merge_notifies(
                w.nodes[i].state.unwrap(),
            ),
        propagated(w, w2),
    ensures
        forall|j: int|
            0 <= j < w.nodes.len() ==> (#[trigger] w2.nodes[j]).markers.compute_memo
                == w.nodes[j].markers.compute_memo && w2.nodes[j].markers.deferred_effect
                == w.nodes[j].markers.deferred_effect && w2.nodes[j].markers.dirty
                == w.nodes[j].markers.dirty,
{
    assert forall|s: u64| !#[trigger] reachable(w, s) by {
        if reachable(w, s) {
            let p = choose|p: Seq<u64>| #[trigger] is_path(w, p) && p.last() == s;
            let i = choose|i: int| #[trigger] root_from(w, i, p[0]);
            assert(is_sent(w.nodes[i]));
        }
    }
    assert forall|j: int| 0 <= j < w.nodes.len() implies (#[trigger] w2.nodes[j]).markers.compute_memo
        == w.nodes[j].markers.compute_memo && w2.nodes[j].markers.deferred_effect
        == w.nodes[j].markers.deferred_effect && w2.nodes[j].markers.dirty
        == w.nodes[j].markers.dirty by {
        assert(propagated_node(w, w2, j));
        assert(!reachable(w, crate::world::entity_id(j)));
    }
}

/// An entity that subscribes to a cell is one of its subscribers once the pending
/// subscribers are merged in.
pub proof fn law_subscribe_then_merge<V>(c: CellView<V>, entity: u64)
    requires
        cell_wf(c),
        is_entity_bits(entity),
    ensures
        holds(with_merged_subscribers(with_subscriber(c, entity)).subscribers, entity),
        with_merged_subscribers(with_subscriber(c, entity)).next_subscribers == Seq::<u64>::empty(),
{
    let c1 = with_subscriber(c, entity);
    crate::entity_set::lemma_inserted_valid(c.next_subscribers, entity);
    lemma_insert_all(c1.subscribers, c1.next_subscribers);
}


/// Merging the pending subscribers makes the subscribers the union of both, each entity once;
/// nothing is pending afterwards, the data, next value and trigger are kept, and merging again
/// changes nothing.
pub proof fn law_merge_subscribers<V>(c: CellView<V>, x: u64)
    requires
        cell_wf(c),
    ensures
        holds(with_merged_subscribers(c).subscribers, x) <==> (holds(c.subscribers, x) || holds(
            c.next_subscribers,
            x,
        )),
        cell_wf(with_merged_subscribers(c)),
        with_merged_subscribers(c).next_subscribers == Seq::<u64>::empty(),
        with_merged_subscribers(c).data == c.data,
        with_merged_subscribers(c).next_value == c.next_value,
        with_merged_subscribers(c).triggered == c.triggered,
        with_merged_subscribers(with_merged_subscribers(c)) == with_merged_subscribers(c),
{
    lemma_insert_all(c.subscribers, c.next_subscribers);
    let c1 = with_merged_subscribers(c);
    assert(insert_all(c1.subscribers, Seq::<u64>::empty()) == c1.subscribers);
}

/// Merging a sent value reports a change exactly when the value differs from the data the cell
/// held, whether or not the cell was triggered.
pub proof fn law_merge_reports_change<V>(c: CellView<V>, data: V, trigger: bool)
    ensures
        merge_changed(with_next(c, value_result(data), trigger)) <==> c.data != value_result(data),
{
}

/// Once the signals are processed, a signal that was sent a value is in the changed set exactly
/// when the value differs from the data it held, triggered or not; it is marked ValueChanged
/// exactly when it differs or the marker was already there.
pub proof fn law_changed_send_is_reported<V>(
    w: WorldView<V>,
    signal: u64,
    data: V,
    trigger: bool,
    w2: WorldView<V>,
)
    requires
        is_node_id(signal, w.nodes.len() as int),
        w.nodes[index_of(signal)].state is Some,
        propagated(sent(w, signal, data, trigger), w2),
    ensures
        holds(w2.signals.changed, signal) <==> w.nodes[index_of(signal)].state.unwrap().data
            != value_result(data),
        w2.nodes[index_of(signal)].markers.value_changed <==> (
        w.nodes[index_of(signal)].markers.value_changed || w.nodes[index_of(
            signal,
        )].state.unwrap().data != value_result(data)),
{
    let w1 = sent(w, signal, data, trigger);
    let j = index_of(signal);
    let c = w.nodes[j].state.unwrap();
    assert(propagated_node(w1, w2, j));
    assert(propagated_id(w1, w2, signal));
    assert(is_sent(w1.nodes[j]));
    assert(w1.nodes[j].state.unwrap() == with_next(c, value_result(data), trigger));
    law_merge_reports_change(c, data, trigger);
    assert(reports_change(w1, signal) == merge_changed(with_next(c, value_result(data), trigger)));
}

/// The effects the effect system runs, as ids: entity `e` is among them exactly when it ran.
proof fn lemma_runs_upto<V>(w: WorldView<V>, i: int, e: int)
    requires
        0 <= i <= w.nodes.len(),
        w.nodes.len() <= MAX_ENTITIES,
        0 <= e < w.nodes.len(),
    ensures
        runs_upto(w, i).contains(entity_id(e)) <==> (e < i && effect_runs(w, e)),
    decreases i,
{
    if i > 0 {
        lemma_runs_upto(w, i - 1, e);
        let p = runs_upto(w, i - 1);
        let t = if effect_runs(w, i - 1) {
            seq![entity_id(i - 1)]
        } else {
            Seq::<u64>::empty()
        };
        let r = runs_upto(w, i);
        let x = entity_id(e);
        assert(r == p + t);
        if r.contains(x) {
            let idx = choose|idx: int| 0 <= idx < r.len() && r[idx] == x;
            if idx < p.len() {
                assert(p[idx] == x);
                assert(p.contains(x));
            } else {
                assert(t[idx - p.len()] == x);
                assert(e == i - 1);
            }
        }
        if e < i && effect_runs(w, e) {
            if e < i - 1 {
                let idx = choose|idx: int| 0 <= idx < p.len() && p[idx] == x;
                assert(r[idx] == x);
            } else {
                assert(r[p.len() as int] == x);
            }
        }
    }
}

/// An effect waiting to be considered runs as soon as any one of its sources or triggers is
/// marked ValueChanged; it need not wait for the others.
pub proof fn law_effect_runs_on_any_change<V>(
    w: WorldView<V>,
    w2: WorldView<V>,
    runs: Seq<u64>,
    e: int,
    d: u64,
)
    requires
        w.nodes.len() <= MAX_ENTITIES,
        effects_applied(w, w2, runs),
        0 <= e < w.nodes.len(),
        w.nodes[e].effect is Some,
        w.nodes[e].markers.deferred_effect,
        !w.nodes[e].markers.running_task,
        w.nodes[e].effect.unwrap().sources.contains(d) || w.nodes[e].effect.unwrap().triggers.contains(d),
        is_node_id(d, w.nodes.len() as int),
        w.nodes[index_of(d)].markers.value_changed,
    ensures
        runs.contains(entity_id(e)),
{
    let ef = w.nodes[e].effect.unwrap();
    let deps = ef.sources + ef.triggers;
    if ef.sources.contains(d) {
        let k = choose|k: int| 0 <= k < ef.sources.len() && ef.sources[k] == d;
        assert(deps[k] == d);
        assert(crate::world::effect::value_changed(w, deps[k]));
    } else {
        let k = choose|k: int| 0 <= k < ef.triggers.len() && ef.triggers[k] == d;
        assert(deps[ef.sources.len() + k] == d);
        assert(crate::world::effect::value_changed(w, deps[ef.sources.len() + k]));
    }
    assert(effect_runs(w, e));
    lemma_runs_upto(w, w.nodes.len() as int, e);
}

/// An effect waiting to be considered that is marked Triggered runs, changed dependency or not.
pub proof fn law_triggered_effect_runs<V>(w: WorldView<V>, w2: WorldView<V>, runs: Seq<u64>, e: int)
    requires
        w.nodes.len() <= MAX_ENTITIES,
        effects_applied(w, w2, runs),
        0 <= e < w.nodes.len(),
        w.nodes[e].effect is Some,
        w.nodes[e].markers.deferred_effect,
        !w.nodes[e].markers.running_task,
        w.nodes[e].markers.triggered,
    ensures
        runs.contains(entity_id(e)),
{
    lemma_runs_upto(w, w.nodes.len() as int, e);
}

/// The effect system takes every effect waiting to be considered off the waiting list, and
/// clears the Triggered marker of exactly those that run; an effect whose task is running keeps
/// waiting, with its markers as they were.
pub proof fn law_effect_system_markers<V>(w: WorldView<V>, w2: WorldView<V>, runs: Seq<u64>, e: int)
    requires
        w.nodes.len() <= MAX_ENTITIES,
        effects_applied(w, w2, runs),
        0 <= e < w.nodes.len(),
        w.nodes[e].effect is Some,
    ensures
        !w.nodes[e].markers.running_task ==> !w2.nodes[e].markers.deferred_effect,
        !w.nodes[e].markers.running_task && w.nodes[e].markers.deferred_effect
            ==> (w2.nodes[e].markers.triggered <==> (w.nodes[e].markers.triggered
            && !runs.contains(entity_id(e)))),
        w.nodes[e].markers.running_task ==> w2.nodes[e].markers == w.nodes[e].markers,
        w2.nodes[e].markers.value_changed == w.nodes[e].markers.value_changed,
        w2.nodes[e].markers.dirty == w.nodes[e].markers.dirty,
{
    lemma_runs_upto(w, w.nodes.len() as int, e);
    assert(w2.nodes[e].markers == crate::world::effect::effect_markers(w, e, w.nodes.len() as int));
}

/// An effect runs only when it was waiting to be considered, with no task of it running, and it
/// was triggered or one of its sources or triggers is marked ValueChanged.
pub proof fn law_effect_runs_only_when_due<V>(w: WorldView<V>, w2: WorldView<V>, runs: Seq<u64>, e: int)
    requires
        w.nodes.len() <= MAX_ENTITIES,
        effects_applied(w, w2, runs),
        0 <= e < w.nodes.len(),
        runs.contains(entity_id(e)),
    ensures
        w.nodes[e].effect is Some,
        w.nodes[e].markers.deferred_effect,
        !w.nodes[e].markers.running_task,
        w.nodes[e].markers.triggered || exists|d: u64|
            (w.nodes[e].effect.unwrap().sources.contains(d) || w.nodes[e].effect.unwrap().triggers.contains(d))
                && is_node_id(d, w.nodes.len() as int) && #[trigger] w.nodes[index_of(d)].markers.value_changed,
{
    lemma_runs_upto(w, w.nodes.len() as int, e);
    let ef = w.nodes[e].effect.unwrap();
    let deps = ef.sources + ef.triggers;
    if !w.nodes[e].markers.triggered {
        let k = choose|k: int| 0 <= k < deps.len() && #[trigger] crate::world::effect::value_changed(w, deps[k]);
        let d = deps[k];
        if k < ef.sources.len() {
            assert(ef.sources[k] == d);
            assert(ef.sources.contains(d));
        } else {
            assert(ef.triggers[k - ef.sources.len()] == d);
            assert(ef.triggers.contains(d));
        }
        assert(w.nodes[index_of(d)].markers.value_changed);
    }
}

/// A computed created over `sources` reads exactly `sources`, in that order, and the entities
/// that were there are untouched.
pub proof fn law_computed_keeps_sources<V>(w: WorldView<V>, sources: Seq<u64>, x: u64)
    requires
        w.nodes.len() < MAX_ENTITIES,
        is_node_id(x, w.nodes.len() as int),
    ensures
        is_node_id(entity_id(w.nodes.len() as int), with_computed(w, sources).nodes.len() as int),
        with_computed(w, sources).nodes[index_of(entity_id(w.nodes.len() as int))].computed == Some(
            sources,
        ),
        memo_sources(with_computed(w, sources), entity_id(w.nodes.len() as int)) == sources,
        with_computed(w, sources).nodes[index_of(x)] == w.nodes[index_of(x)],
{
    assert(index_of(entity_id(w.nodes.len() as int)) == w.nodes.len());
}

/// An effect or action created over `sources` and `triggers` keeps both exactly, in order, so
/// that its k-th argument is read from the k-th source; the other entities are untouched.
pub proof fn law_effect_keeps_sources<V>(
    w: WorldView<V>,
    effect: u64,
    function: EffectContext,
    sources: Seq<u64>,
    triggers: Seq<u64>,
    x: u64,
)
    requires
        is_node_id(effect, w.nodes.len() as int),
        is_node_id(x, w.nodes.len() as int),
        x != effect,
    ensures
        created_effect(w, effect, function, sources, triggers).nodes.len() == w.nodes.len(),
        created_effect(w, effect, function, sources, triggers).nodes[index_of(effect)].effect == Some(
            EffectView { function, sources, triggers },
        ),
        created_effect(w, effect, function, sources, triggers).nodes[index_of(x)] == w.nodes[index_of(
            x,
        )],
{
}

/// The init system removes only the ValueChanged and InitDependencies markers: every other
/// marker, Triggered among them, is as it was (an action retriggered while its task runs still
/// runs once the task completes).
pub proof fn law_init_keeps_other_markers<V>(w: WorldView<V>, w2: WorldView<V>, j: int)
    requires
        initialized(w, w2),
        0 <= j < w.nodes.len(),
    ensures
        !w2.nodes[j].markers.value_changed,
        !w2.nodes[j].markers.init_dependencies,
        w2.nodes[j].markers.triggered == w.nodes[j].markers.triggered,
        w2.nodes[j].markers.send_signal == w.nodes[j].markers.send_signal,
        w2.nodes[j].markers.compute_memo == w.nodes[j].markers.compute_memo,
        w2.nodes[j].markers.deferred_effect == w.nodes[j].markers.deferred_effect,
        w2.nodes[j].markers.dirty == w.nodes[j].markers.dirty,
        w2.nodes[j].markers.running_task == w.nodes[j].markers.running_task,
{
    assert(w2.nodes[j].markers == crate::world::Markers {
        value_changed: false,
        init_dependencies: false,
        ..w.nodes[j].markers
    });
}

/// The init system subscribes every computed, effect and action marked InitDependencies to each
/// of its sources and triggers that has a cell: the entity is among the cell's subscribers
/// afterwards, and the cell's data is unchanged.
pub proof fn law_init_subscribes<V>(w: WorldView<V>, w2: WorldView<V>, e: int, d: u64)
    requires
        w.nodes.len() <= MAX_ENTITIES,
        initialized(w, w2),
        0 <= e < w.nodes.len(),
        w.nodes[e].markers.init_dependencies,
        (w.nodes[e].computed is Some && w.nodes[e].computed.unwrap().contains(d)) || (
        w.nodes[e].effect is Some && (w.nodes[e].effect.unwrap().sources.contains(d)
            || w.nodes[e].effect.unwrap().triggers.contains(d))),
        is_node_id(d, w.nodes.len() as int),
        w.nodes[index_of(d)].state is Some,
    ensures
        holds(w2.nodes[index_of(d)].state.unwrap().subscribers, entity_id(e)),
        w2.nodes[index_of(d)].state.unwrap().data == w.nodes[index_of(d)].state.unwrap().data,
{
    let n = w.nodes[e];
    let cs = match n.computed {
        Some(s) => s,
        None => Seq::<u64>::empty(),
    };
    let es = match n.effect {
        Some(ef) => ef.sources + ef.triggers,
        None => Seq::<u64>::empty(),
    };
    let deps = crate::world::init::deps_of(n);
    assert(deps == cs + es);
    if n.computed is Some && cs.contains(d) {
        let k = choose|k: int| 0 <= k < cs.len() && cs[k] == d;
        assert(deps[k] == d);
    } else {
        let ef = n.effect.unwrap();
        let k = if ef.sources.contains(d) {
            choose|k: int| 0 <= k < ef.sources.len() && ef.sources[k] == d
        } else {
            ef.sources.len() + choose|k: int| 0 <= k < ef.triggers.len() && ef.triggers[k] == d
        };
        assert(es[k] == d);
        assert(deps[cs.len() + k] == d);
    }
    assert(deps.contains(d));
    let plan = crate::world::init::init_plan(w);
    assert(plan(e) == deps);
    let x = entity_id(e);
    assert(index_of(x) == e);
    assert(crate::world::subscribe::batch_edge(w, plan, e, d));
    let j = index_of(d);
    assert(entity_id(j) == d);
}

/// The signal system marks a computed to recompute only together with Dirty: when every
/// computed marked ComputeMemo is Dirty before, so it is after.
pub proof fn law_signals_keep_memos_dirty<V>(w: WorldView<V>, w2: WorldView<V>)
    requires
        memos_dirty(w),
        propagated(w, w2),
    ensures
        memos_dirty(w2),
{
    assert forall|c: u64| #[trigger] is_memo(w2, c) implies is_dirty(w2, c) by {
        let j = index_of(c);
        assert(propagated_node(w, w2, j));
        assert(entity_id(j) == c);
        if w.nodes[j].markers.compute_memo {
            assert(is_memo(w, c));
        }
    }
}

/// Once the memo system has run, no computed is left marked ComputeMemo.
pub proof fn law_memos_all_computed<T: LazySignalsData, F: Fn(u64, &Vec<Option<T>>) -> LazySignalsResult<T>>(
    w: WorldView<T::V>,
    w2: WorldView<T::V>,
    f: F,
    c: u64,
)
    requires
        memos_computed(w, w2, f),
    ensures
        !is_memo(w2, c),
{
    if is_memo(w2, c) {
        let j = index_of(c);
        assert(memo_node(w, w2, j));
        assert(entity_id(j) == c);
        assert(is_memo(w, c));
    }
}


/// A computed that the memo system computes subscribes again to each source it read: it is
/// among the subscribers of the source's cell afterwards, so the next change reaches it.
pub proof fn law_memo_resubscribes<T: LazySignalsData, F: Fn(u64, &Vec<Option<T>>) -> LazySignalsResult<T>>(
    w: WorldView<T::V>,
    w2: WorldView<T::V>,
    f: F,
    c: u64,
    s: u64,
)
    requires
        memos_computed(w, w2, f),
        is_memo(w, c),
        memo_sources(w, c).contains(s),
        is_node_id(s, w.nodes.len() as int),
        w.nodes[index_of(s)].state is Some,
    ensures
        holds(w2.nodes[index_of(s)].state.unwrap().subscribers, c),
{
    let j = index_of(s);
    assert(memo_node(w, w2, j));
    assert(entity_id(j) == s);
    assert(is_done(w, w2, c));
    assert(crate::world::computed::reads(w, c, s));
}

/// Glitch freedom over a batch: when every computed marked ComputeMemo is Dirty (as in a fresh
/// world, and kept so by every batch), once the signals are processed and the memos computed,
/// each recomputed computed holds what its function returned for the data its sources finally
/// hold.
pub proof fn law_batch_glitch_free<T: LazySignalsData, F: Fn(u64, &Vec<Option<T>>) -> LazySignalsResult<T>>(
    w: WorldView<T::V>,
    w2: WorldView<T::V>,
    w3: WorldView<T::V>,
    f: F,
)
    requires
        memos_dirty(w),
        propagated(w, w2),
        memos_ready(w2),
        memos_computed(w2, w3, f),
    ensures
        memos_glitch_free(w2, w3, f),
{
    law_signals_keep_memos_dirty(w, w2);
    lemma_glitch_free(w2, w3, f);
}

} // verus!
