use firmware::emitter::{EmitStep, Emitter, Transmission, WriteOutcome};
use firmware::report::{report, takes_a_slot, REPORT_LEN, SLOTS};

#[test]
fn empty_report_is_all_zero() {
    assert_eq!(report(&vec![]), [0u8; 7]);
    assert_eq!(REPORT_LEN, 7);
    assert_eq!(SLOTS, 6);
}

#[test]
fn keys_fill_the_slots_in_order() {
    assert_eq!(report(&vec![0x35]), [0, 0x35, 0, 0, 0, 0, 0]);
    assert_eq!(report(&vec![4, 5, 6]), [0, 4, 5, 6, 0, 0, 0]);
    assert_eq!(report(&vec![9, 8, 7, 6, 5, 4]), [0, 9, 8, 7, 6, 5, 4]);
}

#[test]
fn modifiers_go_to_the_first_byte() {
    assert_eq!(report(&vec![0xE0]), [0x01, 0, 0, 0, 0, 0, 0]);
    assert_eq!(report(&vec![0xE1]), [0x02, 0, 0, 0, 0, 0, 0]);
    assert_eq!(report(&vec![0xE7]), [0x80, 0, 0, 0, 0, 0, 0]);
    assert_eq!(report(&vec![0xE1, 0x04]), [0x02, 0x04, 0, 0, 0, 0, 0]);
    assert_eq!(report(&vec![0x04, 0xE0, 0xE2, 0x05, 0xE0]), [0x05, 0x04, 0x05, 0, 0, 0, 0]);
    assert_eq!(
        report(&vec![0xE0, 0xE1, 0xE2, 0xE3, 0xE4, 0xE5, 0xE6, 0xE7]),
        [0xFF, 0, 0, 0, 0, 0, 0]
    );
    // the neighbours of the modifier range are ordinary keys
    assert_eq!(report(&vec![0xDF, 0xE8]), [0, 0xDF, 0xE8, 0, 0, 0, 0]);
}

#[test]
fn seventh_key_is_left_out() {
    assert_eq!(report(&vec![1, 2, 3, 4, 5, 6, 7]), [0, 1, 2, 3, 4, 5, 6]);
    assert_eq!(report(&vec![1, 2, 3, 4, 5, 6, 7, 0xE3]), [0x08, 1, 2, 3, 4, 5, 6]);
}

#[test]
fn code_zero_takes_no_slot() {
    assert_eq!(report(&vec![0, 4, 0, 5]), [0, 4, 5, 0, 0, 0, 0]);
}

#[test]
fn same_held_set_gives_the_same_bytes() {
    let held = vec![0xE1, 0x04, 0x1D];
    let first = report(&held);
    assert_eq!(report(&held), first);
    let mut a = Emitter::new(3);
    let mut b = Emitter::new(1);
    assert_eq!(a.emit(&held), EmitStep::Write(first));
    assert_eq!(a.emit(&held), EmitStep::Write(first));
    assert_eq!(b.emit(&held), EmitStep::Write(first));
    assert_eq!(a.written(WriteOutcome::Pending), EmitStep::Write(first));
    assert_eq!(a.emit(&held), EmitStep::Write(first));
}

#[test]
fn accepted_report_is_delivered() {
    let mut e = Emitter::new(3);
    assert_eq!(e.budget(), 3);
    assert!(!e.busy());
    assert_eq!(e.emit(&vec![4]), EmitStep::Write([0, 4, 0, 0, 0, 0, 0]));
    assert!(e.busy());
    assert_eq!(e.written(WriteOutcome::Accepted), EmitStep::Done(Transmission::Delivered));
    assert!(!e.busy());
}

#[test]
fn retries_end_with_the_budget() {
    let mut e = Emitter::new(3);
    let bytes = [0, 4, 0, 0, 0, 0, 0];
    assert_eq!(e.emit(&vec![4]), EmitStep::Write(bytes));
    assert_eq!(e.written(WriteOutcome::Pending), EmitStep::Write(bytes));
    assert_eq!(e.written(WriteOutcome::Pending), EmitStep::Write(bytes));
    assert_eq!(e.written(WriteOutcome::Pending), EmitStep::Done(Transmission::Dropped));
    assert!(!e.busy());
    // the next report starts with a full budget
    assert_eq!(e.emit(&vec![5]), EmitStep::Write([0, 5, 0, 0, 0, 0, 0]));
    assert_eq!(e.written(WriteOutcome::Pending), EmitStep::Write([0, 5, 0, 0, 0, 0, 0]));
    assert_eq!(e.written(WriteOutcome::Accepted), EmitStep::Done(Transmission::Delivered));
}

#[test]
fn failed_write_drops_the_report_at_once() {
    let mut e = Emitter::new(3);
    assert_eq!(e.emit(&vec![4]), EmitStep::Write([0, 4, 0, 0, 0, 0, 0]));
    assert_eq!(e.written(WriteOutcome::Failed), EmitStep::Done(Transmission::Dropped));
    assert!(!e.busy());
    assert_eq!(e.emit(&vec![4]), EmitStep::Write([0, 4, 0, 0, 0, 0, 0]));
    assert_eq!(e.written(WriteOutcome::Pending), EmitStep::Write([0, 4, 0, 0, 0, 0, 0]));
    assert_eq!(e.written(WriteOutcome::Failed), EmitStep::Done(Transmission::Dropped));
    assert_eq!(e.written(WriteOutcome::Failed), EmitStep::Done(Transmission::Dropped));
}

#[test]
fn codes_that_take_a_slot() {
    assert!(!takes_a_slot(0));
    assert!(takes_a_slot(1));
    assert!(takes_a_slot(0xDF));
    assert!(!takes_a_slot(0xE0));
    assert!(!takes_a_slot(0xE7));
    assert!(takes_a_slot(0xE8));
    assert!(takes_a_slot(0xFF));
}

#[test]
fn budget_of_one_means_one_write() {
    let mut e = Emitter::new(1);
    assert_eq!(e.emit(&vec![4]), EmitStep::Write([0, 4, 0, 0, 0, 0, 0]));
    assert_eq!(e.written(WriteOutcome::Pending), EmitStep::Done(Transmission::Dropped));
}

#[test]
fn budget_of_zero_drops_at_once() {
    let mut e = Emitter::new(0);
    assert_eq!(e.emit(&vec![4]), EmitStep::Done(Transmission::Dropped));
    assert!(!e.busy());
}

#[test]
fn answer_without_a_report_changes_nothing() {
    let mut e = Emitter::new(2);
    assert_eq!(e.written(WriteOutcome::Accepted), EmitStep::Done(Transmission::Dropped));
    assert_eq!(e.written(WriteOutcome::Pending), EmitStep::Done(Transmission::Dropped));
    assert!(!e.busy());
}

#[test]
fn new_report_supersedes_the_one_in_flight() {
    let mut e = Emitter::new(2);
    assert_eq!(e.emit(&vec![4]), EmitStep::Write([0, 4, 0, 0, 0, 0, 0]));
    assert_eq!(e.written(WriteOutcome::Pending), EmitStep::Write([0, 4, 0, 0, 0, 0, 0]));
    assert_eq!(e.emit(&vec![5]), EmitStep::Write([0, 5, 0, 0, 0, 0, 0]));
    assert_eq!(e.written(WriteOutcome::Pending), EmitStep::Write([0, 5, 0, 0, 0, 0, 0]));
    assert_eq!(e.written(WriteOutcome::Pending), EmitStep::Done(Transmission::Dropped));
}
