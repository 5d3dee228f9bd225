use bevy_ecs::entity::Entity;
use lazy_signals::entity_set::empty_set;
use lazy_signals::framework::{LazySignalsError, LazySignalsResult, LazySignalsVec};
use lazy_signals::lazy_immutable::LazySignalsState;
use lazy_signals::resource::{insert_ids, merge_running, LazySignalsResource};

const E0: u64 = 0x1_0000_0000;
const E1: u64 = 0x1_0000_0001;
const E2: u64 = 0x1_0000_0002;

fn value(v: u32) -> LazySignalsResult<u32> {
    LazySignalsResult { data: Some(v), error: None }
}

fn ids(set: &lazy_signals::entity_set::EntitySet) -> Vec<u64> {
    set.indices().map(|e| e.to_bits()).collect()
}

#[test]
fn new_cell_holds_data_and_nothing_pending() {
    let cell = LazySignalsState::new(value(3));
    assert_eq!(cell.get(), Some(3));
    assert_eq!(cell.error(), None);
    assert!(cell.get_subscribers().is_empty());
    let v = cell.value();
    assert_eq!(v.data, Some(3));
    assert_eq!(v.error, None);
}

#[test]
fn merge_of_a_changed_value_notifies_and_forgets_subscribers() {
    let mut cell = LazySignalsState::new(value(1));
    cell.subscribe(E1);
    cell.subscribe(E2);
    cell.merge_subscribers();
    assert_eq!(cell.get_subscribers(), vec![E1, E2]);
    cell.merge_next(value(2), false);
    assert_eq!(cell.get(), Some(1));
    let (subs, changed, triggered) = cell.merge().unwrap();
    assert_eq!(subs.into_vec(), vec![E1, E2]);
    assert!(changed);
    assert!(!triggered);
    assert_eq!(cell.get(), Some(2));
    assert!(cell.get_subscribers().is_empty());
}

#[test]
fn merge_of_the_same_value_is_quiet() {
    let mut cell = LazySignalsState::new(value(5));
    cell.subscribe(E1);
    cell.merge_subscribers();
    cell.merge_next(value(5), false);
    let (subs, changed, triggered) = cell.merge().unwrap();
    assert!(subs.into_vec().is_empty());
    assert!(!changed);
    assert!(!triggered);
    assert_eq!(cell.get(), Some(5));
    assert_eq!(cell.get_subscribers(), vec![E1]);
}

#[test]
fn triggered_merge_notifies_even_when_unchanged() {
    let mut cell = LazySignalsState::new(value(5));
    cell.subscribe(E1);
    cell.merge_subscribers();
    cell.merge_next(value(5), true);
    let (subs, changed, triggered) = cell.merge().unwrap();
    assert_eq!(subs.into_vec(), vec![E1]);
    assert!(!changed);
    assert!(triggered);
    assert!(cell.get_subscribers().is_empty());
}

#[test]
fn last_next_value_wins() {
    let mut cell = LazySignalsState::new(value(0));
    cell.merge_next(value(7), false);
    cell.merge_next(value(9), false);
    let (_, changed, _) = cell.merge().unwrap();
    assert!(changed);
    assert_eq!(cell.get(), Some(9));
}

#[test]
fn merge_without_next_value_keeps_data() {
    let mut cell = LazySignalsState::new(value(4));
    let (subs, changed, triggered) = cell.merge().unwrap();
    assert!(subs.into_vec().is_empty());
    assert!(!changed);
    assert!(!triggered);
    assert_eq!(cell.get(), Some(4));
}

#[test]
fn merge_of_an_error_overwrites_without_change() {
    let mut cell = LazySignalsState::new(value(4));
    cell.subscribe(E1);
    cell.merge_subscribers();
    cell.merge_next(
        LazySignalsResult { data: None, error: Some(LazySignalsError::NoSignalError) },
        false,
    );
    let (subs, changed, _) = cell.merge().unwrap();
    assert_eq!(subs.into_vec(), vec![E1]);
    assert!(!changed);
    assert_eq!(cell.error(), Some(LazySignalsError::NoSignalError));
    assert_eq!(cell.get(), None);
}

#[test]
fn update_reports_change() {
    let mut cell = LazySignalsState::new(value(1));
    assert!(!cell.update(value(1)));
    assert!(cell.update(value(2)));
    assert_eq!(cell.get(), Some(2));
    assert!(cell.update(LazySignalsResult { data: None, error: None }));
    assert_eq!(cell.get(), None);
}

#[test]
fn copy_data_reads_and_subscribes() {
    let mut cell = LazySignalsState::new(value(8));
    assert_eq!(cell.copy_data(E2), Some(8));
    assert!(cell.get_subscribers().is_empty());
    cell.merge_subscribers();
    assert_eq!(cell.get_subscribers(), vec![E2]);
}

#[test]
fn copy_data_of_an_error_reads_nothing() {
    let mut cell = LazySignalsState::new(LazySignalsResult {
        data: Some(8u32),
        error: Some(LazySignalsError::ReadError(E0)),
    });
    assert_eq!(cell.copy_data(E1), None);
}

#[test]
fn subscribing_twice_keeps_one_subscriber() {
    let mut cell = LazySignalsState::new(value(0));
    cell.subscribe(E1);
    cell.subscribe(E1);
    cell.merge_subscribers();
    cell.subscribe(E1);
    cell.merge_subscribers();
    assert_eq!(cell.get_subscribers(), vec![E1]);
}

#[test]
fn take_subscribers_empties_them() {
    let mut cell = LazySignalsState::new(value(0));
    cell.subscribe(E2);
    cell.subscribe(E1);
    cell.merge_subscribers();
    assert_eq!(cell.take_subscribers(), vec![E2, E1]);
    assert!(cell.get_subscribers().is_empty());
}

#[test]
fn error_messages() {
    assert_eq!(LazySignalsError::NoSignalError.message(), "Signal does not exist");
    assert_eq!(LazySignalsError::NoNextValue.message(), "No next value");
    let expected = format!("Error reading signal {:?}", Entity::from_bits(E2));
    assert_eq!(LazySignalsError::ReadError(E2).message(), expected);
}

#[test]
fn results_compare_and_read_as_arguments() {
    let a = value(1);
    let b = value(1);
    let c = LazySignalsResult { data: Some(1u32), error: Some(LazySignalsError::NoNextValue) };
    assert!(a.same_result(&b));
    assert!(!a.same_result(&c));
    assert_eq!(a.to_arg(), Some(1));
    assert_eq!(c.to_arg(), None);
    let d = a.duplicate();
    assert_eq!(d.data, Some(1));
}

#[test]
fn vec_append_moves_ids() {
    let mut a = LazySignalsVec(vec![E0]);
    let mut b = LazySignalsVec(vec![E1, E2]);
    a.append(&mut b);
    assert_eq!(a.duplicate().into_vec(), vec![E0, E1, E2]);
    assert!(b.0.is_empty());
    assert!(LazySignalsVec::new().0.is_empty());
}

#[test]
fn merge_running_moves_next_into_running() {
    let mut running = empty_set();
    let mut next = empty_set();
    assert!(!merge_running(&mut running, &mut next));
    insert_ids(&mut running, &vec![E0]);
    insert_ids(&mut next, &vec![E2, E0, E1]);
    assert!(merge_running(&mut running, &mut next));
    assert_eq!(ids(&running), vec![E0, E2, E1]);
    assert!(ids(&next).is_empty());
}

#[test]
fn resource_init_keeps_long_running_effects() {
    let mut r = LazySignalsResource::new();
    insert_ids(&mut r.effects, &vec![E1]);
    insert_ids(&mut r.dirty, &vec![E0]);
    r.compute_stack.push(E2);
    r.init();
    assert_eq!(ids(&r.effects), vec![E1]);
    assert!(ids(&r.dirty).is_empty());
    assert!(r.compute_stack.is_empty());
    insert_ids(&mut r.next_running, &vec![E2]);
    assert!(r.merge_running());
    assert_eq!(ids(&r.running), vec![E2]);
}

#[test]
fn default_resource_is_empty() {
    let r = LazySignalsResource::default();
    assert!(ids(&r.triggered).is_empty());
    assert!(ids(&r.effects).is_empty());
    assert!(r.compute_stack.is_empty());
}

#[test]
fn triggered_merge_with_nothing_pending_keeps_the_data() {
    let e1 = Entity::from_raw(1).to_bits();
    let mut cell = LazySignalsState::<i32>::new(LazySignalsResult { data: Some(5), error: None });
    cell.subscribe(e1);
    cell.merge_subscribers();
    cell.merge_next(
        LazySignalsResult { data: None, error: Some(LazySignalsError::NoNextValue) },
        true,
    );
    let (subs, changed, triggered) = cell.merge().unwrap();
    assert_eq!(subs.into_vec(), vec![e1]);
    assert!(!changed);
    assert!(triggered);
    let v = cell.value();
    assert_eq!(v.data, Some(5));
    assert_eq!(v.error, None);
    assert!(cell.get_subscribers().is_empty());
}

#[test]
fn untriggered_merge_with_nothing_pending_changes_nothing() {
    let mut cell = LazySignalsState::new(value(5));
    cell.subscribe(E1);
    cell.merge_subscribers();
    let (subs, changed, triggered) = cell.merge().unwrap();
    assert!(subs.into_vec().is_empty());
    assert!(!changed);
    assert!(!triggered);
    assert_eq!(cell.get(), Some(5));
    assert_eq!(cell.get_subscribers(), vec![E1]);
}

#[test]
fn merging_subscribers_twice_changes_nothing() {
    let mut cell = LazySignalsState::new(value(1));
    cell.subscribe(E1);
    cell.merge_subscribers();
    cell.subscribe(E2);
    cell.subscribe(E1);
    cell.merge_subscribers();
    assert_eq!(cell.get_subscribers(), vec![E1, E2]);
    cell.merge_subscribers();
    assert_eq!(cell.get_subscribers(), vec![E1, E2]);
    assert_eq!(cell.get(), Some(1));
}
