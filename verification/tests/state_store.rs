use keyence_integration::state_store::ReadState;

#[test]
fn forget_resets_offset_to_zero() {
    let mut state = ReadState::default();
    state.set_offset("/a", 500);
    state.forget("/a");
    assert_eq!(state.offset_for("/a"), 0);
}

#[test]
fn unknown_file_has_offset_zero() {
    let state = ReadState::new();
    assert_eq!(state.offset_for("/anything"), 0);
}

#[test]
fn set_offset_overrides_and_keeps_others() {
    let mut state = ReadState::default();
    state.set_offset("/logs/2026-09-10/vision.log", 1234);
    state.set_offset("/b", 7);
    state.set_offset("/logs/2026-09-10/vision.log", 2000);
    assert_eq!(state.offset_for("/logs/2026-09-10/vision.log"), 2000);
    assert_eq!(state.offset_for("/b"), 7);
    state.forget("/b");
    assert_eq!(state.offset_for("/logs/2026-09-10/vision.log"), 2000);
    assert_eq!(state.offset_for("/b"), 0);
    state.forget("/never");
    assert_eq!(state.entries().len(), 1);
}

#[test]
fn entries_round_trip() {
    let state = ReadState::from_entries(vec![
        ("/a".to_string(), 1),
        ("/b".to_string(), 2),
        ("/a".to_string(), 3),
    ]);
    assert_eq!(state.offset_for("/a"), 3);
    assert_eq!(state.offset_for("/b"), 2);
    let mut pairs = state.entries();
    pairs.sort();
    assert_eq!(pairs, vec![("/a".to_string(), 3), ("/b".to_string(), 2)]);
    let again = ReadState::from_entries(pairs);
    assert_eq!(again.offset_for("/a"), 3);
}

#[test]
fn clone_keeps_offsets() {
    let mut state = ReadState::default();
    state.set_offset("/a", 5);
    let copy = state.clone();
    state.set_offset("/a", 9);
    assert_eq!(copy.offset_for("/a"), 5);
    assert_eq!(state.offset_for("/a"), 9);
}
