use lazy_signals::api::{store_result, LazySignals};
use lazy_signals::framework::{LazySignalsError, LazySignalsResult};
use lazy_signals::world::{EffectContext, LazySignalsWorld};

fn contains(set: &lazy_signals::entity_set::EntitySet, id: u64) -> bool {
    set.indices().any(|e| e.to_bits() == id)
}

/// A computed adds one to its single source; `add` sums its sources.
fn plus_one(_c: u64, args: &Vec<Option<u32>>) -> LazySignalsResult<u32> {
    match args[0] {
        Some(x) => LazySignals::result(x + 1),
        None => LazySignals::error(LazySignalsError::NoSignalError),
    }
}

fn compute_all(world: &mut LazySignalsWorld<u32>, sum: &[u64], parity: &[u64]) {
    let sum = sum.to_vec();
    let parity = parity.to_vec();
    world.compute_memos(&move |c: u64, args: &Vec<Option<u32>>| {
        if sum.contains(&c) {
            LazySignals::result(args.iter().map(|a| a.unwrap_or(0)).sum())
        } else if parity.contains(&c) {
            LazySignals::result(args[0].unwrap_or(0) % 2)
        } else {
            plus_one(c, args)
        }
    });
}

fn batch(world: &mut LazySignalsWorld<u32>) {
    world.init_lazy_signals();
    world.send_signals();
}

#[test]
fn state_reads_its_value() {
    let mut world = LazySignalsWorld::<u32>::new();
    let s = LazySignals.state(5, &mut world);
    assert_eq!(s, 0x1_0000_0000);
    assert_eq!(LazySignals.value(s, &world), Some(5));
    assert_eq!(LazySignals.get(s, &world), Some(5));
    assert_eq!(LazySignals.read(s, &world), Some(5));
    assert_eq!(LazySignals.get_error(s, &world), None);
}

#[test]
fn sending_is_lazy_and_read_after_processing() {
    let mut world = LazySignalsWorld::<u32>::new();
    let s = LazySignals.state(5, &mut world);
    LazySignals.send(s, 7, &mut world);
    assert_eq!(LazySignals.value(s, &world), Some(5));
    assert!(world.markers(s).unwrap().send_signal);
    batch(&mut world);
    assert_eq!(LazySignals.value(s, &world), Some(7));
    let m = world.markers(s).unwrap();
    assert!(!m.send_signal);
    assert!(m.value_changed);
    assert!(contains(&world.signals().changed, s));
}

#[test]
fn last_send_wins() {
    let mut world = LazySignalsWorld::<u32>::new();
    let s = LazySignals.state(0, &mut world);
    LazySignals.send(s, 7, &mut world);
    LazySignals.send(s, 9, &mut world);
    batch(&mut world);
    assert_eq!(LazySignals.value(s, &world), Some(9));
}

#[test]
fn sending_to_a_missing_entity_does_nothing() {
    let mut world = LazySignalsWorld::<u32>::new();
    let s = LazySignals.state(1, &mut world);
    LazySignals.send(s + 5, 2, &mut world);
    batch(&mut world);
    assert_eq!(LazySignals.value(s, &world), Some(1));
    assert_eq!(world.len(), 1);
}

#[test]
fn computed_is_marked_and_recomputed_when_its_source_changes() {
    let mut world = LazySignalsWorld::<u32>::new();
    let s = LazySignals.state(1, &mut world);
    let c = LazySignals.computed(vec![s], &mut world);
    assert!(world.markers(c).unwrap().init_dependencies);
    world.init_lazy_signals();
    assert!(!world.markers(c).unwrap().init_dependencies);
    assert_eq!(world.cell_subscribers(s), Some(vec![c]));
    LazySignals.send(s, 10, &mut world);
    world.send_signals();
    let m = world.markers(c).unwrap();
    assert!(m.compute_memo);
    assert!(m.dirty);
    assert!(contains(&world.signals().processed, c));
    assert!(world.memos_ready_check());
    compute_all(&mut world, &[], &[]);
    assert_eq!(LazySignals.value(c, &world), Some(11));
    let m = world.markers(c).unwrap();
    assert!(!m.compute_memo);
    assert!(!m.dirty);
    assert!(m.value_changed);
}

#[test]
fn unchanged_send_recomputes_nothing() {
    let mut world = LazySignalsWorld::<u32>::new();
    let s = LazySignals.state(4, &mut world);
    let c = LazySignals.computed(vec![s], &mut world);
    world.init_lazy_signals();
    LazySignals.send(s, 4, &mut world);
    world.send_signals();
    let m = world.markers(c).unwrap();
    assert!(!m.compute_memo);
    assert!(!m.dirty);
    assert!(!contains(&world.signals().changed, s));
    assert!(!world.markers(s).unwrap().value_changed);
}

#[test]
fn triggered_send_notifies_even_when_unchanged() {
    let mut world = LazySignalsWorld::<u32>::new();
    let s = LazySignals.state(4, &mut world);
    let c = LazySignals.computed(vec![s], &mut world);
    world.init_lazy_signals();
    LazySignals.send_and_trigger(s, 4, &mut world);
    world.send_signals();
    let m = world.markers(c).unwrap();
    assert!(m.compute_memo);
    assert!(m.triggered);
    assert!(contains(&world.signals().triggered, c));
    assert!(!contains(&world.signals().changed, s));
}

#[test]
fn diamond_is_glitch_free() {
    let mut world = LazySignalsWorld::<u32>::new();
    let s = LazySignals.state(1, &mut world);
    let a = LazySignals.computed(vec![s], &mut world);
    let b = LazySignals.computed(vec![s], &mut world);
    let d = LazySignals.computed(vec![a, b], &mut world);
    // first batch: nothing computed yet; compute everything by hand once
    batch(&mut world);
    LazySignals.send(s, 2, &mut world);
    batch(&mut world);
    compute_all(&mut world, &[d], &[]);
    assert_eq!(LazySignals.value(a, &world), Some(3));
    assert_eq!(LazySignals.value(b, &world), Some(3));
    assert_eq!(LazySignals.value(d, &world), Some(6));
    // the computeds subscribed again while reading
    world.init_lazy_signals();
    LazySignals.send(s, 10, &mut world);
    batch(&mut world);
    assert!(world.markers(d).unwrap().compute_memo);
    compute_all(&mut world, &[d], &[]);
    assert_eq!(LazySignals.value(d, &world), Some(22));
}

#[test]
fn computed_reads_errors_as_no_value() {
    let mut world = LazySignalsWorld::<u32>::new();
    let s = LazySignals.state(1, &mut world);
    let c = LazySignals.computed(vec![s], &mut world);
    world.init_lazy_signals();
    let changed = store_result(LazySignals::error(LazySignalsError::NoNextValue), s, &mut world);
    assert!(changed);
    LazySignals.send_and_trigger(s, 1, &mut world);
    world.send_signals();
    compute_all(&mut world, &[], &[]);
    assert_eq!(LazySignals.value(c, &world), Some(2));
    assert!(!store_result(LazySignals::result(1), s, &mut world));
    assert!(store_result(LazySignals::option(None), s, &mut world));
    assert_eq!(LazySignals.value(s, &world), None);
}

#[test]
fn memos_not_ready_when_a_dirty_source_is_not_a_memo() {
    let mut world = LazySignalsWorld::<u32>::new();
    let s = LazySignals.state(1, &mut world);
    let e = LazySignals.effect(vec![s], vec![], &mut world);
    let m = LazySignals.computed(vec![s, e], &mut world);
    world.init_lazy_signals();
    LazySignals.send(s, 3, &mut world);
    world.send_signals();
    // the effect is Dirty, and it is no memo
    assert!(world.markers(e).unwrap().dirty);
    assert!(world.markers(m).unwrap().compute_memo);
    assert!(!world.memos_ready_check());
}

#[test]
fn effect_runs_when_a_source_changes() {
    let mut world = LazySignalsWorld::<u32>::new();
    let s = LazySignals.state(1, &mut world);
    let c = LazySignals.computed(vec![s], &mut world);
    let e = LazySignals.effect(vec![c], vec![], &mut world);
    world.init_lazy_signals();
    LazySignals.send(s, 5, &mut world);
    world.send_signals();
    assert!(world.markers(e).unwrap().deferred_effect);
    compute_all(&mut world, &[], &[]);
    let runs = world.apply_deferred_effects();
    assert_eq!(runs, vec![e]);
    assert!(!world.markers(e).unwrap().deferred_effect);
    assert!(world.effect_sources_ready(e));
    assert_eq!(world.effect_context(e), Some(EffectContext::Short));
    assert_eq!(world.effect_args(e), vec![Some(6)]);
    assert_eq!(world.cell_subscribers(c), Some(vec![e]));
}

#[test]
fn effect_is_skipped_when_its_source_did_not_change() {
    let mut world = LazySignalsWorld::<u32>::new();
    let s = LazySignals.state(1, &mut world);
    let p = LazySignals.computed(vec![s], &mut world);
    let e = LazySignals.effect(vec![p], vec![], &mut world);
    world.init_lazy_signals();
    LazySignals.send_and_trigger(s, 1, &mut world);
    world.send_signals();
    compute_all(&mut world, &[], &[p]);
    assert_eq!(LazySignals.value(p, &world), Some(1));
    assert_eq!(world.apply_deferred_effects(), vec![e]);
    world.init_lazy_signals();
    LazySignals.send(s, 3, &mut world);
    world.send_signals();
    assert!(world.markers(e).unwrap().deferred_effect);
    compute_all(&mut world, &[], &[p]);
    assert_eq!(LazySignals.value(p, &world), Some(1));
    assert!(!world.markers(p).unwrap().value_changed);
    let runs = world.apply_deferred_effects();
    assert!(runs.is_empty());
    assert!(!world.markers(e).unwrap().deferred_effect);
    // it stays subscribed
    assert_eq!(world.cell_subscribers(p), Some(vec![e]));
}

#[test]
fn effect_runs_on_a_trigger() {
    let mut world = LazySignalsWorld::<u32>::new();
    let s = LazySignals.state(1, &mut world);
    let t = LazySignals.state(0, &mut world);
    let e = LazySignals.effect(vec![s], vec![t], &mut world);
    world.init_lazy_signals();
    LazySignals.send_and_trigger(t, 0, &mut world);
    world.send_signals();
    assert!(world.markers(e).unwrap().triggered);
    let runs = world.apply_deferred_effects();
    assert_eq!(runs, vec![e]);
    assert!(!world.markers(e).unwrap().triggered);
    // triggers pass no data
    assert_eq!(world.effect_args(e), vec![Some(1)]);
}

#[test]
fn unit_trigger() {
    let mut world = LazySignalsWorld::<()>::new();
    let t = LazySignals.state((), &mut world);
    let e = LazySignals.effect(vec![], vec![t], &mut world);
    world.init_lazy_signals();
    LazySignals.trigger(t, &mut world);
    world.send_signals();
    assert_eq!(world.apply_deferred_effects(), vec![e]);
    assert_eq!(world.effect_args(e), Vec::<Option<()>>::new());
}

#[test]
fn running_action_is_not_rerun_until_its_task_completes() {
    let mut world = LazySignalsWorld::<u32>::new();
    let s = LazySignals.state(1, &mut world);
    let a = LazySignals.action(vec![s], vec![], &mut world);
    assert_eq!(world.effect_context(a), Some(EffectContext::Long));
    world.init_lazy_signals();
    LazySignals.send(s, 2, &mut world);
    world.send_signals();
    assert_eq!(world.apply_deferred_effects(), vec![a]);
    assert_eq!(world.effect_args(a), vec![Some(2)]);
    world.start_task(a);
    assert!(world.markers(a).unwrap().running_task);
    world.init_lazy_signals();
    LazySignals.send(s, 3, &mut world);
    world.send_signals();
    assert!(world.apply_deferred_effects().is_empty());
    assert!(world.markers(a).unwrap().deferred_effect);
    world.check_tasks(&vec![a]);
    assert!(!world.markers(a).unwrap().running_task);
    assert_eq!(world.apply_deferred_effects(), vec![a]);
}

#[test]
fn effect_sources_not_ready_without_cells() {
    let mut world = LazySignalsWorld::<u32>::new();
    let s = LazySignals.state(1, &mut world);
    let e = LazySignals.effect(vec![s], vec![], &mut world);
    let e2 = LazySignals.effect(vec![e], vec![], &mut world);
    assert!(world.effect_sources_ready(e));
    assert!(!world.effect_sources_ready(e2));
    assert!(!world.effect_sources_ready(s));
    assert!(!world.effect_sources_ready(s + 100));
    assert_eq!(world.effect_context(s), None);
}

#[test]
fn init_subscribes_new_deriveds_and_clears_changes() {
    let mut world = LazySignalsWorld::<u32>::new();
    let s = LazySignals.state(1, &mut world);
    let t = LazySignals.state(1, &mut world);
    let e = LazySignals.effect(vec![s], vec![t], &mut world);
    let c = LazySignals.computed(vec![s], &mut world);
    world.init_lazy_signals();
    assert_eq!(world.cell_subscribers(s), Some(vec![e, c]));
    assert_eq!(world.cell_subscribers(t), Some(vec![e]));
    LazySignals.send(s, 2, &mut world);
    world.send_signals();
    assert!(world.markers(s).unwrap().value_changed);
    world.init_lazy_signals();
    assert!(!world.markers(s).unwrap().value_changed);
    assert_eq!(world.cell_subscribers(e), None);
}

#[test]
fn tuple_factories_match_plain_ones() {
    let mut world = LazySignalsWorld::<u32>::new();
    let s = LazySignals.state_tuple(3, &mut world);
    let c = LazySignals.computed_tuple(vec![s], &mut world);
    assert_eq!(LazySignals.value(s, &world), Some(3));
    assert_eq!(LazySignals.value(c, &world), None);
    assert!(world.markers(c).unwrap().init_dependencies);
    assert_eq!(world.node_index(c), Some(1));
    assert_eq!(world.node_index(c + 1), None);
}

#[test]
fn trigger_reaches_the_whole_subscriber_tree() {
    let mut world = LazySignalsWorld::<u32>::new();
    let s1 = LazySignals.state(1, &mut world);
    let s2 = LazySignals.state(0, &mut world);
    let d = LazySignals.computed(vec![s2], &mut world);
    let c = LazySignals.computed(vec![s1, d], &mut world);
    let e = LazySignals.effect(vec![c], vec![], &mut world);
    world.init_lazy_signals();
    LazySignals.send(s1, 5, &mut world);
    LazySignals.send_and_trigger(s2, 0, &mut world);
    world.send_signals();
    for x in [d, c, e] {
        assert!(contains(&world.signals().triggered, x));
        assert!(world.markers(x).unwrap().triggered);
        assert!(contains(&world.signals().processed, x));
    }
    assert!(!contains(&world.signals().triggered, s1));
    compute_all(&mut world, &[], &[]);
    assert!(!world.markers(c).unwrap().triggered);
    assert_eq!(world.apply_deferred_effects(), vec![e]);
}

#[test]
fn memos_acyclic_check_accepts_a_chain() {
    let mut world = LazySignalsWorld::<u32>::new();
    let s = LazySignals.state(1, &mut world);
    let c1 = LazySignals.computed(vec![s], &mut world);
    let c2 = LazySignals.computed(vec![c1], &mut world);
    world.init_lazy_signals();
    LazySignals.send(s, 2, &mut world);
    world.send_signals();
    assert!(world.markers(c1).unwrap().compute_memo);
    assert!(world.markers(c2).unwrap().compute_memo);
    assert!(world.memos_ready_check());
    assert!(world.memos_acyclic_check());
    compute_all(&mut world, &[], &[]);
    assert_eq!(LazySignals.value(c2, &world), Some(4));
}

#[test]
fn memos_acyclic_check_finds_a_cycle() {
    let mut world = LazySignalsWorld::<u32>::new();
    let s = LazySignals.state(1, &mut world);
    // c1 reads s and c2, c2 reads c1: ids are handed out in order
    let c1 = LazySignals.computed(vec![s, 0x1_0000_0002], &mut world);
    let c2 = LazySignals.computed(vec![c1], &mut world);
    assert_eq!(c2, 0x1_0000_0002);
    world.init_lazy_signals();
    LazySignals.send(s, 2, &mut world);
    world.send_signals();
    assert!(world.markers(c1).unwrap().dirty);
    assert!(world.markers(c2).unwrap().dirty);
    assert!(world.memos_ready_check());
    assert!(!world.memos_acyclic_check());
}

#[test]
fn computed_subscribes_again_to_what_it_read() {
    let mut world = LazySignalsWorld::<u32>::new();
    let s = LazySignals.state(1, &mut world);
    let c = LazySignals.computed(vec![s], &mut world);
    world.init_lazy_signals();
    LazySignals.send(s, 10, &mut world);
    world.send_signals();
    // the signal system hands the subscribers back and forgets them
    assert_eq!(world.cell_subscribers(s), Some(vec![]));
    compute_all(&mut world, &[], &[]);
    assert_eq!(world.cell_subscribers(s), Some(vec![c]));
    LazySignals.send(s, 20, &mut world);
    batch(&mut world);
    assert!(world.markers(c).unwrap().compute_memo);
    compute_all(&mut world, &[], &[]);
    assert_eq!(LazySignals.value(c, &world), Some(21));
}

#[test]
fn a_new_state_keeps_its_value_until_a_sent_one_is_processed() {
    let mut world = LazySignalsWorld::<u32>::new();
    let s = LazySignals.state(3, &mut world);
    assert!(world.cell_subscribers(s).unwrap().is_empty());
    assert!(!world.markers(s).unwrap().send_signal);
    LazySignals.send(s, 8, &mut world);
    assert_eq!(LazySignals.read(s, &world), Some(3));
    batch(&mut world);
    assert_eq!(LazySignals.read(s, &world), Some(8));
}
