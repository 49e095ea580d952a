use columnar_exec::limit::{apply_limit, LimitState};

#[test]
fn limit_truncates_crossing_batch() {
    let (emitted, polls) = apply_limit(10, &vec![3, 4, 5]);
    assert_eq!(emitted, vec![3, 4, 3]);
    assert_eq!(polls, 3);
}

#[test]
fn limit_zero_never_polls_upstream() {
    let (emitted, polls) = apply_limit(0, &vec![3, 4, 5]);
    assert_eq!(emitted, Vec::<u64>::new());
    assert_eq!(polls, 0);
}

#[test]
fn limit_larger_than_input_passes_everything() {
    let (emitted, polls) = apply_limit(20, &vec![3, 4, 5]);
    assert_eq!(emitted, vec![3, 4, 5]);
    assert_eq!(polls, 3);
}

#[test]
fn limit_reached_exactly_stops_polling() {
    // 3 + 4 spends the budget of 7: the third batch is never requested.
    let (emitted, polls) = apply_limit(7, &vec![3, 4, 5]);
    assert_eq!(emitted, vec![3, 4]);
    assert_eq!(polls, 2);
}

#[test]
fn limit_passes_empty_batches_through() {
    let (emitted, polls) = apply_limit(5, &vec![0, 2, 0, 9]);
    assert_eq!(emitted, vec![0, 2, 0, 3]);
    assert_eq!(polls, 4);
}

#[test]
fn limit_state_steps() {
    let mut state = LimitState::new(5);
    assert!(state.should_poll());
    assert_eq!(state.remaining(), 5);
    assert_eq!(state.on_batch(3), 3);
    assert_eq!(state.remaining(), 2);
    assert_eq!(state.on_batch(4), 2);
    assert_eq!(state.remaining(), 0);
    assert!(!state.should_poll());
}

#[test]
fn limit_node_child_arity() {
    let node = columnar_exec::limit::LimitExec::new(7);
    assert_eq!(node.limit, 7);
    assert!(node.with_new_children_ok(1));
    assert!(!node.with_new_children_ok(0));
    assert!(!node.with_new_children_ok(2));
    let state = node.start_partition();
    assert_eq!(state.remaining(), 7);
}
