use firmware::matrix::Snapshot;
use firmware::scanner::{LineResult, ScanStep, Scanner};

#[test]
fn scanner_needs_a_matrix_that_fits() {
    assert!(Scanner::new(usize::MAX, 2).is_none());
    let s = Scanner::new(2, 3).unwrap();
    assert_eq!(s.rows(), 2);
    assert_eq!(s.cols(), 3);
    assert!(!s.busy());
}

#[test]
fn one_key_scan() {
    let mut s = Scanner::new(1, 1).unwrap();
    assert_eq!(s.start(), ScanStep::Drive { line: 0, active: true });
    assert!(s.busy());
    assert_eq!(s.advance(LineResult::Driven), ScanStep::Read { line: 0 });
    assert_eq!(s.advance(LineResult::Level(true)), ScanStep::Drive { line: 0, active: false });
    assert_eq!(
        s.advance(LineResult::Driven),
        ScanStep::Done(Snapshot::new(1, 1, vec![true]).unwrap())
    );
    assert!(!s.busy());
}

#[test]
fn rows_are_strobed_in_turn() {
    let mut s = Scanner::new(2, 3).unwrap();
    let levels = [[false, true, false], [true, false, true]];
    let mut step = s.start();
    let mut trace = Vec::new();
    let snapshot = loop {
        step = match step {
            ScanStep::Drive { line, active } => {
                trace.push(format!("drive {} {}", line, active));
                s.advance(LineResult::Driven)
            }
            ScanStep::Read { line } => {
                trace.push(format!("read {}", line));
                let row = trace.iter().filter(|t| t.ends_with("true")).count() - 1;
                s.advance(LineResult::Level(levels[row][line]))
            }
            ScanStep::Done(snapshot) => break snapshot,
            ScanStep::Failed => panic!("scan failed"),
        };
    };
    assert_eq!(
        trace,
        vec![
            "drive 0 true", "read 0", "read 1", "read 2", "drive 0 false",
            "drive 1 true", "read 0", "read 1", "read 2", "drive 1 false",
        ]
    );
    assert_eq!(
        snapshot,
        Snapshot::new(2, 3, vec![false, true, false, true, false, true]).unwrap()
    );
    assert!(!s.busy());
}

#[test]
fn empty_matrix_is_complete_at_once() {
    let mut s = Scanner::new(0, 4).unwrap();
    assert_eq!(s.start(), ScanStep::Done(Snapshot::new(0, 4, vec![]).unwrap()));
    let mut s = Scanner::new(3, 0).unwrap();
    assert_eq!(s.start(), ScanStep::Done(Snapshot::new(3, 0, vec![]).unwrap()));
    assert!(!s.busy());
}

#[test]
fn fault_while_reading_releases_the_row_and_fails() {
    let mut s = Scanner::new(2, 2).unwrap();
    s.start();
    s.advance(LineResult::Driven);
    s.advance(LineResult::Level(true));
    assert_eq!(s.advance(LineResult::Fault), ScanStep::Drive { line: 0, active: false });
    assert_eq!(s.advance(LineResult::Driven), ScanStep::Failed);
    assert!(!s.busy());
    // the next scan starts afresh
    assert_eq!(s.start(), ScanStep::Drive { line: 0, active: true });
}

#[test]
fn fault_while_driving_fails() {
    let mut s = Scanner::new(2, 2).unwrap();
    s.start();
    assert_eq!(s.advance(LineResult::Fault), ScanStep::Drive { line: 0, active: false });
    assert_eq!(s.advance(LineResult::Fault), ScanStep::Failed);
    let mut s = Scanner::new(1, 1).unwrap();
    s.start();
    s.advance(LineResult::Driven);
    s.advance(LineResult::Level(false));
    assert_eq!(s.advance(LineResult::Fault), ScanStep::Failed);
    assert!(!s.busy());
}

#[test]
fn answer_that_was_not_asked_for_fails_the_scan() {
    let mut s = Scanner::new(1, 2).unwrap();
    assert_eq!(s.advance(LineResult::Driven), ScanStep::Failed);
    s.start();
    assert_eq!(s.advance(LineResult::Level(true)), ScanStep::Drive { line: 0, active: false });
    assert_eq!(s.advance(LineResult::Driven), ScanStep::Failed);
    s.start();
    s.advance(LineResult::Driven);
    assert_eq!(s.advance(LineResult::Driven), ScanStep::Drive { line: 0, active: false });
    assert_eq!(s.advance(LineResult::Level(true)), ScanStep::Failed);
    s.start();
    s.advance(LineResult::Driven);
    s.advance(LineResult::Level(true));
    s.advance(LineResult::Level(true));
    assert_eq!(s.advance(LineResult::Level(true)), ScanStep::Failed);
}

#[test]
fn start_abandons_a_scan_under_way() {
    let mut s = Scanner::new(1, 2).unwrap();
    s.start();
    s.advance(LineResult::Driven);
    s.advance(LineResult::Level(true));
    assert_eq!(s.start(), ScanStep::Drive { line: 0, active: true });
    s.advance(LineResult::Driven);
    s.advance(LineResult::Level(false));
    s.advance(LineResult::Level(false));
    assert_eq!(
        s.advance(LineResult::Driven),
        ScanStep::Done(Snapshot::new(1, 2, vec![false, false]).unwrap())
    );
}
