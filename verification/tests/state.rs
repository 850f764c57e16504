//! The gym mapping: unique names, last write winning.

use gym_count::state::GymState;

#[test]
fn empty_state() {
    let state = GymState::new();
    assert_eq!(state.len(), 0);
    assert_eq!(state.get(&"Joondalup".to_string()), None);
    assert!(state.entries().is_empty());
}

#[test]
fn insert_and_get() {
    let mut state = GymState::new();
    state.insert("Joondalup".to_string(), 57);
    state.insert("Mandurah".to_string(), 123);
    assert_eq!(state.len(), 2);
    assert_eq!(state.get(&"Joondalup".to_string()), Some(57));
    assert_eq!(state.get(&"Mandurah".to_string()), Some(123));
    assert_eq!(state.get(&"Perth".to_string()), None);
}

#[test]
fn insert_same_name_overwrites() {
    let mut state = GymState::new();
    state.insert("Joondalup".to_string(), 57);
    state.insert("Joondalup".to_string(), 58);
    assert_eq!(state.len(), 1);
    assert_eq!(state.get(&"Joondalup".to_string()), Some(58));
}

#[test]
fn entries_hold_one_pair_per_name() {
    let mut state = GymState::new();
    state.insert("A".to_string(), 1);
    state.insert("B".to_string(), 2);
    state.insert("A".to_string(), 3);
    let mut entries = state.entries().clone();
    entries.sort();
    assert_eq!(entries, vec![("A".to_string(), 3), ("B".to_string(), 2)]);
}
