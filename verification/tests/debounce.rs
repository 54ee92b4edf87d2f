use m60rs::debounce::{cell_step, CellState, Debouncer, Event, EventKind};
use m60rs::matrix::{Coordinate, RawFrame};

fn frame_1x1(closed: bool) -> RawFrame {
    RawFrame::from_rows(vec![vec![closed]]).unwrap()
}

fn at(row: usize, col: usize) -> Coordinate {
    Coordinate { row, col }
}

fn press(row: usize, col: usize) -> Event {
    Event { coord: at(row, col), kind: EventKind::Press }
}

fn release(row: usize, col: usize) -> Event {
    Event { coord: at(row, col), kind: EventKind::Release }
}

#[test]
fn no_event_before_threshold_agreeing_samples() {
    let mut filter = Debouncer::new(1, 1, 5);
    // the change itself, then four samples that agree: one short
    for _ in 0..5 {
        assert_eq!(filter.events(&frame_1x1(true)), vec![]);
    }
    assert!(!filter.is_pressed(at(0, 0)));
}

#[test]
fn exactly_one_event_once_threshold_is_reached() {
    let mut filter = Debouncer::new(1, 1, 5);
    for _ in 0..5 {
        assert_eq!(filter.events(&frame_1x1(true)), vec![]);
    }
    assert_eq!(filter.events(&frame_1x1(true)), vec![press(0, 0)]);
    assert!(filter.is_pressed(at(0, 0)));
    for _ in 0..20 {
        assert_eq!(filter.events(&frame_1x1(true)), vec![]);
    }
}

#[test]
fn bounce_restarts_the_count() {
    let mut filter = Debouncer::new(1, 1, 2);
    assert_eq!(filter.events(&frame_1x1(true)), vec![]);
    assert_eq!(filter.events(&frame_1x1(true)), vec![]);
    // a bounce: back to the confirmed state
    assert_eq!(filter.events(&frame_1x1(false)), vec![]);
    assert_eq!(filter.events(&frame_1x1(true)), vec![]);
    assert_eq!(filter.events(&frame_1x1(true)), vec![]);
    assert_eq!(filter.events(&frame_1x1(true)), vec![press(0, 0)]);
}

#[test]
fn events_alternate_for_one_key() {
    let mut filter = Debouncer::new(1, 1, 1);
    let samples = [
        true, true, true, false, true, false, false, false, true, true, false, false, true, true,
    ];
    let mut seen: Vec<EventKind> = Vec::new();
    for s in samples.iter() {
        for e in filter.events(&frame_1x1(*s)) {
            seen.push(e.kind);
        }
    }
    assert_eq!(
        seen,
        vec![EventKind::Press, EventKind::Release, EventKind::Press, EventKind::Release, EventKind::Press]
    );
    for pair in seen.windows(2) {
        assert_ne!(pair[0], pair[1]);
    }
}

#[test]
fn threshold_zero_confirms_at_once() {
    let mut filter = Debouncer::new(1, 1, 0);
    assert_eq!(filter.events(&frame_1x1(true)), vec![press(0, 0)]);
    assert_eq!(filter.events(&frame_1x1(true)), vec![]);
    assert_eq!(filter.events(&frame_1x1(false)), vec![release(0, 0)]);
}

#[test]
fn simultaneous_events_come_in_row_major_order() {
    let mut filter = Debouncer::new(2, 3, 1);
    let all = RawFrame::from_rows(vec![vec![true, false, true], vec![true, true, false]]).unwrap();
    assert_eq!(filter.events(&all), vec![]);
    assert_eq!(
        filter.events(&all),
        vec![press(0, 0), press(0, 2), press(1, 0), press(1, 1)]
    );
    let some = RawFrame::from_rows(vec![vec![true, false, false], vec![false, true, false]]).unwrap();
    assert_eq!(filter.events(&some), vec![]);
    assert_eq!(filter.events(&some), vec![release(0, 2), release(1, 0)]);
}

#[test]
fn cells_are_filtered_independently() {
    let mut filter = Debouncer::new(1, 2, 2);
    let left = RawFrame::from_rows(vec![vec![true, false]]).unwrap();
    let both = RawFrame::from_rows(vec![vec![true, true]]).unwrap();
    assert_eq!(filter.events(&left), vec![]);
    assert_eq!(filter.events(&both), vec![]);
    // the left key has its two agreeing samples now, the right one only one
    assert_eq!(filter.events(&both), vec![press(0, 0)]);
    assert_eq!(filter.events(&both), vec![press(0, 1)]);
}

#[test]
fn cell_step_formula() {
    let rest = CellState { confirmed: false, previous: false, streak: 0 };
    let (one, e) = cell_step(rest, true, 2);
    assert_eq!(one, CellState { confirmed: false, previous: true, streak: 0 });
    assert_eq!(e, None);
    let (two, e) = cell_step(one, true, 2);
    assert_eq!(two, CellState { confirmed: false, previous: true, streak: 1 });
    assert_eq!(e, None);
    let (three, e) = cell_step(two, true, 2);
    assert_eq!(three, CellState { confirmed: true, previous: true, streak: 0 });
    assert_eq!(e, Some(EventKind::Press));
    let (back, e) = cell_step(two, false, 2);
    assert_eq!(back, CellState { confirmed: false, previous: false, streak: 0 });
    assert_eq!(e, None);
}

#[test]
fn frame_from_ragged_rows_is_refused() {
    assert!(RawFrame::from_rows(vec![vec![true, false], vec![true]]).is_none());
    assert!(RawFrame::from_rows(vec![]).is_some());
    let f = RawFrame::from_rows(vec![vec![false, true], vec![true, false]]).unwrap();
    assert_eq!(f.rows(), 2);
    assert_eq!(f.cols(), 2);
    assert!(f.get(at(0, 1)));
    assert!(!f.get(at(1, 1)));
}
