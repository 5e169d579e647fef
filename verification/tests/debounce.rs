use firmware::debounce::{Debouncer, KeyEvent};
use firmware::matrix::Snapshot;

fn one_key(threshold: u16) -> Debouncer {
    let rest = Snapshot::released(1, 1).unwrap();
    Debouncer::new(&rest, &rest, threshold).unwrap()
}

fn sample(level: bool) -> Snapshot {
    Snapshot::new(1, 1, vec![level]).unwrap()
}

#[test]
fn snapshot_needs_one_bit_per_position() {
    assert!(Snapshot::new(2, 3, vec![false; 6]).is_some());
    assert!(Snapshot::new(2, 3, vec![false; 5]).is_none());
    assert!(Snapshot::new(2, 3, vec![false; 7]).is_none());
    assert!(Snapshot::new(usize::MAX, 2, vec![]).is_none());
    assert!(Snapshot::new(0, 5, vec![]).is_some());
}

#[test]
fn snapshot_is_row_major() {
    let s = Snapshot::new(2, 3, vec![false, true, false, false, false, true]).unwrap();
    assert_eq!(s.rows(), 2);
    assert_eq!(s.cols(), 3);
    assert_eq!(s.get(0, 1), Some(true));
    assert_eq!(s.get(1, 2), Some(true));
    assert_eq!(s.get(1, 0), Some(false));
    assert_eq!(s.get(2, 0), None);
    assert_eq!(s.get(0, 3), None);
}

#[test]
fn released_snapshot_has_no_key_down() {
    let s = Snapshot::released(3, 2).unwrap();
    for r in 0..3 {
        for c in 0..2 {
            assert_eq!(s.get(r, c), Some(false));
        }
    }
    assert!(Snapshot::released(usize::MAX, usize::MAX).is_none());
}

#[test]
fn debouncer_rejects_zero_threshold_and_mismatch() {
    let a = Snapshot::released(2, 2).unwrap();
    let b = Snapshot::released(2, 3).unwrap();
    let c = Snapshot::released(4, 1).unwrap();
    assert!(Debouncer::new(&a, &a, 0).is_none());
    assert!(Debouncer::new(&a, &b, 5).is_none());
    assert!(Debouncer::new(&a, &c, 5).is_none());
    let d = Debouncer::new(&a, &a, 5).unwrap();
    assert_eq!(d.rows(), 2);
    assert_eq!(d.cols(), 2);
    assert_eq!(d.threshold(), 5);
}

#[test]
fn update_refuses_other_dimensions() {
    let mut d = one_key(2);
    let wide = Snapshot::new(1, 2, vec![true, true]).unwrap();
    assert_eq!(d.update(&wide), None);
    assert_eq!(d.update(&sample(true)), Some(vec![]));
    // the refused snapshot was not counted: one more sample confirms
    assert_eq!(d.update(&wide), None);
    assert_eq!(
        d.update(&sample(true)),
        Some(vec![KeyEvent { row: 0, col: 0, pressed: true }])
    );
}

#[test]
fn chatter_then_five_stable_samples_press_once() {
    let mut d = one_key(5);
    let raw = [1, 0, 1, 0, 1, 0, 1, 1, 1, 1, 1];
    let mut fired_at = Vec::new();
    for (i, level) in raw.iter().enumerate() {
        let events = d.update(&sample(*level == 1)).unwrap();
        if i < 10 {
            assert_eq!(events, vec![], "sample {}", i);
            assert_eq!(d.confirmed(0, 0), Some(false));
        }
        for e in events {
            assert_eq!(e, KeyEvent { row: 0, col: 0, pressed: true });
            fired_at.push(i);
        }
    }
    assert_eq!(fired_at, vec![10]);
    assert_eq!(d.confirmed(0, 0), Some(true));
}

#[test]
fn short_burst_is_absorbed() {
    for burst in 0..5usize {
        let mut d = one_key(5);
        for _ in 0..burst {
            assert_eq!(d.update(&sample(true)), Some(vec![]));
        }
        assert_eq!(d.update(&sample(false)), Some(vec![]));
        assert_eq!(d.confirmed(0, 0), Some(false));
        // the burst left nothing behind: a full run is needed again
        for _ in 0..4 {
            assert_eq!(d.update(&sample(true)), Some(vec![]));
        }
        assert_eq!(d.update(&sample(true)).unwrap().len(), 1);
    }
}

#[test]
fn held_value_confirms_on_the_last_sample() {
    for n in 1..8u16 {
        let mut d = one_key(n);
        for _ in 1..n {
            assert_eq!(d.update(&sample(true)), Some(vec![]));
        }
        assert_eq!(
            d.update(&sample(true)),
            Some(vec![KeyEvent { row: 0, col: 0, pressed: true }])
        );
        // and only once
        assert_eq!(d.update(&sample(true)), Some(vec![]));
        for _ in 1..n {
            assert_eq!(d.update(&sample(false)), Some(vec![]));
        }
        assert_eq!(
            d.update(&sample(false)),
            Some(vec![KeyEvent { row: 0, col: 0, pressed: false }])
        );
    }
}

#[test]
fn positions_are_debounced_one_by_one() {
    let rest = Snapshot::released(2, 2).unwrap();
    let mut d = Debouncer::new(&rest, &rest, 2).unwrap();
    // (0, 1) held; (1, 0) chatters
    let a = Snapshot::new(2, 2, vec![false, true, true, false]).unwrap();
    let b = Snapshot::new(2, 2, vec![false, true, false, false]).unwrap();
    assert_eq!(d.update(&a), Some(vec![]));
    assert_eq!(
        d.update(&b),
        Some(vec![KeyEvent { row: 0, col: 1, pressed: true }])
    );
    assert_eq!(d.confirmed(0, 1), Some(true));
    assert_eq!(d.confirmed(1, 0), Some(false));
    assert_eq!(d.confirmed(2, 0), None);
}

#[test]
fn events_come_in_row_major_order() {
    let rest = Snapshot::released(2, 3).unwrap();
    let mut d = Debouncer::new(&rest, &rest, 1).unwrap();
    let all = Snapshot::new(2, 3, vec![true, false, true, true, true, false]).unwrap();
    assert_eq!(
        d.update(&all),
        Some(vec![
            KeyEvent { row: 0, col: 0, pressed: true },
            KeyEvent { row: 0, col: 2, pressed: true },
            KeyEvent { row: 1, col: 0, pressed: true },
            KeyEvent { row: 1, col: 1, pressed: true },
        ])
    );
    let some = Snapshot::new(2, 3, vec![true, true, false, true, false, false]).unwrap();
    assert_eq!(
        d.update(&some),
        Some(vec![
            KeyEvent { row: 0, col: 1, pressed: true },
            KeyEvent { row: 0, col: 2, pressed: false },
            KeyEvent { row: 1, col: 1, pressed: false },
        ])
    );
}

#[test]
fn start_values_are_the_callers() {
    let down = Snapshot::new(1, 2, vec![true, false]).unwrap();
    let other = Snapshot::new(1, 2, vec![false, true]).unwrap();
    let mut d = Debouncer::new(&down, &other, 2).unwrap();
    assert_eq!(d.confirmed(0, 0), Some(true));
    assert_eq!(d.confirmed(0, 1), Some(false));
    // whatever the candidates were, a transition needs its full run
    let flipped = Snapshot::new(1, 2, vec![false, true]).unwrap();
    assert_eq!(d.update(&flipped), Some(vec![]));
    assert_eq!(
        d.update(&flipped),
        Some(vec![
            KeyEvent { row: 0, col: 0, pressed: false },
            KeyEvent { row: 0, col: 1, pressed: true },
        ])
    );
}
