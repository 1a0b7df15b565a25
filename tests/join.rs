use join_array::{Join, Readiness, SlotState};
use std::rc::Rc;

/// A stand-in for one operation: it suspends `left` more times, waking its
/// own slot each time before it suspends, and then completes with `value`.
struct Op<T> {
    id: char,
    left: usize,
    value: Option<T>,
}

fn op<T>(id: char, left: usize, value: T) -> Op<T> {
    Op { id, left, value: Some(value) }
}

/// One outer poll of the join over `ops`, recording which operations were
/// polled, in order.
fn poll_once<T>(
    join: &mut Join<T>,
    readiness: &mut Readiness<u32>,
    ops: &mut [Op<T>],
    trace: &mut Vec<char>,
) -> Option<Vec<T>> {
    assert!(!join.is_consumed(), "polled after completing");
    if !join.begin_poll(readiness, 0) {
        return None;
    }
    let mut from = 0;
    while let Some(i) = join.claim_next(from, readiness) {
        trace.push(ops[i].id);
        if ops[i].left == 0 {
            let value = ops[i].value.take().unwrap();
            join.complete_slot(i, value);
        } else {
            ops[i].left -= 1;
            readiness.signal(i);
        }
        from = i + 1;
    }
    join.try_finish()
}

/// Polls until the join hands out its aggregate; returns it and the number
/// of outer polls it took.
fn drive<T>(ops: &mut [Op<T>], trace: &mut Vec<char>) -> (Vec<T>, usize) {
    let mut join = Join::new(ops.len());
    let mut readiness = Readiness::new(ops.len());
    let mut polls = 0;
    loop {
        polls += 1;
        assert!(polls < 100, "the join does not finish");
        if let Some(out) = poll_once(&mut join, &mut readiness, ops, trace) {
            assert!(join.is_consumed());
            return (out, polls);
        }
    }
}

#[test]
fn smoke() {
    let mut ops = [op('a', 0, "hello"), op('b', 0, "world")];
    let mut trace = Vec::new();
    let (out, polls) = drive(&mut ops, &mut trace);
    assert_eq!(out, ["hello", "world"]);
    assert_eq!(polls, 1);
}

#[test]
fn debug() {
    let mut ops = [op('a', 0, "hello"), op('b', 0, "world")];
    let mut join = Join::new(2);
    let mut readiness = Readiness::new(2);
    assert_eq!(join.render(), "[Pending, Pending]");
    assert_eq!(format!("{:?}", join.states()), "[Pending, Pending]");
    let mut trace = Vec::new();
    let _ = poll_once(&mut join, &mut readiness, &mut ops, &mut trace);
    assert_eq!(join.render(), "[Consumed, Consumed]");
    assert_eq!(format!("{:?}", join.states()), "[Consumed, Consumed]");
}

#[test]
fn poll_order() {
    let mut trace = Vec::new();
    let mut ops = [op('a', 0, ()), op('b', 1, ()), op('c', 0, ())];
    drive(&mut ops, &mut trace);
    assert_eq!(trace, ['a', 'b', 'c', 'b']);

    trace.clear();
    let mut ops = [op('a', 2, ()), op('b', 3, ()), op('c', 1, ()), op('d', 0, ())];
    drive(&mut ops, &mut trace);
    assert_eq!(trace, ['a', 'b', 'c', 'd', 'a', 'b', 'c', 'a', 'b', 'b']);
}

#[test]
fn results_follow_slot_order_not_completion_order() {
    let mut ops = [op('a', 3, 10u64), op('b', 0, 20), op('c', 1, 30), op('d', 2, 40)];
    let mut trace = Vec::new();
    let (out, polls) = drive(&mut ops, &mut trace);
    assert_eq!(out, vec![10, 20, 30, 40]);
    assert_eq!(polls, 4);
}

#[test]
fn completing_slots_in_reverse_keeps_slot_order() {
    let mut join: Join<&str> = Join::new(3);
    join.complete_slot(2, "z");
    assert_eq!(join.try_finish(), None);
    join.complete_slot(0, "x");
    join.complete_slot(1, "y");
    assert_eq!(join.pending(), 0);
    assert_eq!(join.try_finish(), Some(vec!["x", "y", "z"]));
    assert!(join.is_consumed());
}

#[test]
fn new_join_is_all_pending() {
    let join: Join<u8> = Join::new(3);
    assert_eq!(join.len(), 3);
    assert_eq!(join.pending(), 3);
    assert!(!join.is_consumed());
    assert_eq!(join.states(), vec![SlotState::Pending; 3]);
    assert_eq!(join.render(), "[Pending, Pending, Pending]");
}

#[test]
fn render_shows_each_stage_in_slot_order() {
    let mut join: Join<u8> = Join::new(3);
    join.complete_slot(1, 5);
    assert_eq!(join.render(), "[Pending, Ready, Pending]");
    assert_eq!(join.pending(), 2);
}

#[test]
fn empty_join_renders_empty_and_finishes_empty() {
    let mut join: Join<u8> = Join::new(0);
    let mut readiness: Readiness<u32> = Readiness::new(0);
    assert_eq!(join.render(), "[]");
    assert!(!join.begin_poll(&mut readiness, 1));
    assert_eq!(join.try_finish(), Some(Vec::new()));
    assert!(join.is_consumed());
}

#[test]
fn try_finish_waits_for_every_slot() {
    let mut join: Join<u8> = Join::new(2);
    join.complete_slot(0, 1);
    assert_eq!(join.try_finish(), None);
    assert!(!join.is_consumed());
    assert_eq!(join.states(), vec![SlotState::Ready, SlotState::Pending]);
}

#[test]
fn begin_poll_suspends_when_no_slot_signalled() {
    let join: Join<u8> = Join::new(2);
    let mut readiness: Readiness<u32> = Readiness::new(2);
    assert!(readiness.clear_ready(0));
    assert!(readiness.clear_ready(1));
    assert!(!join.begin_poll(&mut readiness, 7));
    assert_eq!(readiness.parent_waker(), Some(&7));
    readiness.signal(1);
    assert!(join.begin_poll(&mut readiness, 8));
    assert_eq!(readiness.parent_waker(), Some(&8));
}

#[test]
fn claim_next_takes_first_pending_signalled_slot() {
    let mut join: Join<u8> = Join::new(4);
    let mut readiness: Readiness<u32> = Readiness::new(4);
    join.complete_slot(0, 1);
    assert!(readiness.clear_ready(1));
    assert_eq!(join.claim_next(0, &mut readiness), Some(2));
    assert!(!readiness.is_ready(2));
    // The bit of the completed slot is left alone.
    assert!(readiness.is_ready(0));
    assert!(readiness.is_ready(3));
    assert_eq!(join.claim_next(3, &mut readiness), Some(3));
    assert_eq!(join.claim_next(0, &mut readiness), None);
    assert!(readiness.is_ready(0));
}

#[test]
fn dropping_mid_flight_releases_each_stored_result_once() {
    let counted = Rc::new(());
    let mut join: Join<Rc<()>> = Join::new(4);
    join.complete_slot(1, counted.clone());
    join.complete_slot(3, counted.clone());
    assert_eq!(Rc::strong_count(&counted), 3);
    assert_eq!(
        join.states(),
        vec![SlotState::Pending, SlotState::Ready, SlotState::Pending, SlotState::Ready]
    );
    drop(join);
    assert_eq!(Rc::strong_count(&counted), 1);
}

#[test]
fn dropping_after_completion_releases_nothing_twice() {
    let counted = Rc::new(());
    let mut join: Join<Rc<()>> = Join::new(2);
    join.complete_slot(0, counted.clone());
    join.complete_slot(1, counted.clone());
    let out = join.try_finish().unwrap();
    assert_eq!(Rc::strong_count(&counted), 3);
    drop(join);
    assert_eq!(Rc::strong_count(&counted), 3);
    drop(out);
    assert_eq!(Rc::strong_count(&counted), 1);
}
