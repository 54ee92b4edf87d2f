use m60rs::action::KeyCode;
use m60rs::assembler::{Assembler, WriteOutcome};
use m60rs::report::Report;

fn codes(raw: &[u8]) -> Vec<KeyCode> {
    raw.iter().map(|c| KeyCode(*c)).collect()
}

#[test]
fn report_layout_is_modifiers_reserved_and_six_slots() {
    let r = Report::build(&codes(&[0x04, 0xE1, 0x05, 0xE0]));
    assert_eq!(r.as_bytes(), [0x03, 0x00, 0x04, 0x05, 0x00, 0x00, 0x00, 0x00]);
    assert_eq!(r.modifiers(), 0x03);
    assert_eq!(r.slot(0), 0x04);
    assert_eq!(r.slot(1), 0x05);
    assert_eq!(r.slot(5), 0x00);
}

#[test]
fn report_of_nothing_is_all_zero() {
    assert_eq!(Report::build(&codes(&[])).as_bytes(), [0u8; 8]);
    assert_eq!(Report::empty().as_bytes(), [0u8; 8]);
    assert_eq!(Report::build(&codes(&[0, 0])).as_bytes(), [0u8; 8]);
}

#[test]
fn report_has_each_modifier_on_its_bit() {
    for b in 0..8u8 {
        let r = Report::build(&codes(&[0xE0 + b]));
        assert_eq!(r.as_bytes(), [1u8 << b, 0, 0, 0, 0, 0, 0, 0]);
    }
    let all = Report::build(&codes(&[0xE0, 0xE1, 0xE2, 0xE3, 0xE4, 0xE5, 0xE6, 0xE7]));
    assert_eq!(all.modifiers(), 0xFF);
}

#[test]
fn report_holds_a_code_once() {
    let r = Report::build(&codes(&[0x04, 0x04, 0x05, 0x04]));
    assert_eq!(r.as_bytes(), [0, 0, 0x04, 0x05, 0, 0, 0, 0]);
}

#[test]
fn overflow_keeps_the_first_six() {
    let r = Report::build(&codes(&[0x04, 0x05, 0x06, 0x07, 0x08, 0x09, 0x0A, 0x0B]));
    assert_eq!(r.as_bytes(), [0, 0, 0x04, 0x05, 0x06, 0x07, 0x08, 0x09]);
}

#[test]
fn overflow_still_takes_modifiers() {
    let r = Report::build(&codes(&[0x04, 0x05, 0x06, 0x07, 0x08, 0x09, 0x0A, 0xE1]));
    assert_eq!(r.as_bytes(), [0x02, 0, 0x04, 0x05, 0x06, 0x07, 0x08, 0x09]);
}

#[test]
fn truncation_is_the_same_on_every_run() {
    let input = codes(&[0x10, 0x11, 0xE2, 0x12, 0x13, 0x14, 0x15, 0x16, 0x17, 0x10]);
    let first = Report::build(&input);
    for _ in 0..10 {
        assert_eq!(Report::build(&input), first);
    }
    assert_eq!(first.as_bytes(), [0x04, 0, 0x10, 0x11, 0x12, 0x13, 0x14, 0x15]);
    assert!(first.same_as(&Report::build(&input)));
    assert!(!first.same_as(&Report::empty()));
}

#[test]
fn same_report_is_sent_at_most_once() {
    let mut a = Assembler::new(3);
    let r = Report::build(&codes(&[0x04]));
    assert!(a.maybe_send(r));
    assert_eq!(a.pending(), Some(r));
    assert!(!a.written(WriteOutcome::Sent));
    assert_eq!(a.pending(), None);
    assert!(!a.maybe_send(r));
    assert!(!a.maybe_send(r));
    assert_eq!(a.pending(), None);
}

#[test]
fn empty_report_is_not_sent_to_a_fresh_host() {
    let mut a = Assembler::new(3);
    assert!(!a.maybe_send(Report::empty()));
    assert!(a.maybe_send(Report::build(&codes(&[0x04]))));
    assert!(!a.written(WriteOutcome::Sent));
    assert!(a.maybe_send(Report::empty()));
}

#[test]
fn busy_transport_is_retried_a_bounded_number_of_times() {
    let mut a = Assembler::new(3);
    let r = Report::build(&codes(&[0x04]));
    assert!(a.maybe_send(r));
    assert!(a.written(WriteOutcome::Busy));
    assert!(a.written(WriteOutcome::Busy));
    assert!(a.written(WriteOutcome::Busy));
    // the fourth write was the last one allowed
    assert!(!a.written(WriteOutcome::Busy));
    assert_eq!(a.pending(), None);
    // nothing went out, so the report is still due
    assert!(a.maybe_send(r));
    assert!(a.written(WriteOutcome::Busy));
    assert!(!a.written(WriteOutcome::Sent));
    assert!(!a.maybe_send(r));
}

#[test]
fn failed_write_is_not_retried() {
    let mut a = Assembler::new(3);
    let r = Report::build(&codes(&[0x04]));
    assert!(a.maybe_send(r));
    assert!(!a.written(WriteOutcome::Failed));
    assert_eq!(a.pending(), None);
    assert!(a.maybe_send(r));
}

#[test]
fn zero_retries_means_one_write() {
    let mut a = Assembler::new(0);
    let r = Report::build(&codes(&[0x04]));
    assert!(a.maybe_send(r));
    assert!(!a.written(WriteOutcome::Busy));
    assert!(a.maybe_send(r));
    assert!(!a.written(WriteOutcome::Sent));
    assert!(!a.maybe_send(r));
}

#[test]
fn write_outcome_without_an_offer_changes_nothing() {
    let mut a = Assembler::new(2);
    assert!(!a.written(WriteOutcome::Sent));
    assert!(!a.written(WriteOutcome::Busy));
    assert!(!a.maybe_send(Report::empty()));
}
