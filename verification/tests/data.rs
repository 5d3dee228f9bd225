use lazy_signals::framework::LazySignalsData;
use lazy_signals::lazy_immutable::LazySignalsState;
use lazy_signals::framework::LazySignalsResult;

fn changes<T: LazySignalsData>(first: T, second: T) -> bool {
    let mut cell = LazySignalsState::new(LazySignalsResult { data: Some(first), error: None });
    cell.merge_next(LazySignalsResult { data: Some(second), error: None }, false);
    let (_, changed, _) = cell.merge().unwrap();
    changed
}

#[test]
fn static_str_values_compare_by_text() {
    let owned = String::from("go");
    let leaked: &'static str = Box::leak(owned.into_boxed_str());
    assert!(!changes("go", leaked));
    assert!(changes("go", "stop"));
    assert!("go".same_value(&"go"));
    assert!(!"go".same_value(&"g"));
    assert_eq!("go".duplicate(), "go");
}

#[test]
fn string_values_compare_by_text() {
    assert!(!changes(String::from("a"), String::from("a")));
    assert!(changes(String::from("a"), String::from("b")));
    assert_eq!(String::from("xy").duplicate(), "xy");
}

#[test]
fn scalar_values_compare_by_value() {
    assert!(!changes(true, true));
    assert!(changes(true, false));
    assert!(!changes('x', 'x'));
    assert!(changes('x', 'y'));
    assert!(changes(-1i64, 1i64));
    assert!(!changes(7u8, 7u8));
    assert!(changes(7u16, 8u16));
    assert!(changes(0u64, u64::MAX));
    assert!(!changes(3usize, 3usize));
    assert!(changes(-3i32, 3i32));
    assert!(!changes((), ()));
}
