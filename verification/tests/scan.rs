use m60rs::matrix::{Coordinate, RawFrame, ScanStep, Scanner};

fn drive(row: usize, active: bool) -> ScanStep {
    ScanStep::Drive { row, active }
}

fn sample(row: usize, col: usize) -> ScanStep {
    ScanStep::Sample { row, col }
}

#[test]
fn scan_strobes_rows_one_after_the_other() {
    let mut scanner = Scanner::new(2, 2);
    let mut steps: Vec<ScanStep> = Vec::new();
    loop {
        let step = scanner.next();
        if step == ScanStep::Done {
            break;
        }
        steps.push(step);
        scanner.advance(false);
    }
    assert_eq!(
        steps,
        vec![
            drive(0, true),
            sample(0, 0),
            sample(0, 1),
            drive(0, false),
            drive(1, true),
            sample(1, 0),
            sample(1, 1),
            drive(1, false),
        ]
    );
}

#[test]
fn scan_yields_no_frame_before_every_row_is_strobed() {
    let mut scanner = Scanner::new(2, 1);
    let mut seen = 0;
    while scanner.next() != ScanStep::Done {
        assert!(scanner.finish().is_none());
        scanner.advance(true);
        seen += 1;
    }
    assert_eq!(seen, 6);
    let frame = scanner.finish().unwrap();
    assert!(frame.get(Coordinate { row: 0, col: 0 }));
    assert!(frame.get(Coordinate { row: 1, col: 0 }));
}

#[test]
fn scan_records_what_was_read() {
    let wires = [[true, false, true], [false, false, true]];
    let mut scanner = Scanner::new(2, 3);
    loop {
        match scanner.next() {
            ScanStep::Done => break,
            ScanStep::Sample { row, col } => scanner.advance(wires[row][col]),
            ScanStep::Drive { .. } => scanner.advance(true),
        }
    }
    let frame = scanner.finish().unwrap();
    for r in 0..2 {
        for c in 0..3 {
            assert_eq!(frame.get(Coordinate { row: r, col: c }), wires[r][c]);
        }
    }
    // the next scan begins with an open frame
    assert_eq!(scanner.next(), drive(0, true));
    while scanner.next() != ScanStep::Done {
        scanner.advance(false);
    }
    let second = scanner.finish().unwrap();
    for r in 0..2 {
        for c in 0..3 {
            assert!(!second.get(Coordinate { row: r, col: c }));
        }
    }
}

#[test]
fn scan_of_an_empty_matrix_is_done_at_once() {
    let mut scanner = Scanner::new(0, 4);
    assert_eq!(scanner.next(), ScanStep::Done);
    let frame = scanner.finish().unwrap();
    assert_eq!(frame.rows(), 0);
    let mut no_cols = Scanner::new(1, 0);
    assert_eq!(no_cols.next(), drive(0, true));
    no_cols.advance(false);
    assert_eq!(no_cols.next(), drive(0, false));
    no_cols.advance(false);
    assert_eq!(no_cols.next(), ScanStep::Done);
}

#[test]
fn frame_set_and_get() {
    let mut frame = RawFrame::new(2, 2);
    assert!(!frame.get(Coordinate { row: 1, col: 0 }));
    frame.set(Coordinate { row: 1, col: 0 }, true);
    assert!(frame.get(Coordinate { row: 1, col: 0 }));
    assert!(!frame.get(Coordinate { row: 0, col: 0 }));
    assert!(!frame.get(Coordinate { row: 1, col: 1 }));
}
