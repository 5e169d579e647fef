use firmware::debounce::Debouncer;
use firmware::emitter::{Emitter, WriteOutcome};
use firmware::layout::{Action, Hold, Layout, Overflow};
use firmware::matrix::Snapshot;
use firmware::scanner::{LineResult, Scanner};
use firmware::scheduler::{tc3, usb, Command, Phase, Scheduler};

const GRAVE: u8 = 0x35;

fn keyboard(rows: usize, cols: usize, threshold: u16, layers: Vec<Vec<Vec<Action>>>, budget: u32)
    -> Scheduler {
    let rest = Snapshot::released(rows, cols).unwrap();
    Scheduler::new(
        Scanner::new(rows, cols).unwrap(),
        Debouncer::new(&rest, &rest, threshold).unwrap(),
        Layout::new(layers, 6, Overflow::DropOldest),
        Emitter::new(budget),
    )
    .unwrap()
}

fn one_key(threshold: u16, budget: u32) -> Scheduler {
    keyboard(1, 1, threshold, vec![vec![vec![Action::Key(GRAVE)]]], budget)
}

/// Runs one tick against lines that show `levels` and a transport that takes
/// every report; returns the report that was written.
fn tick(s: &mut Scheduler, levels: &[bool], cols: usize) -> Option<[u8; 7]> {
    let mut row = 0;
    let mut written = None;
    let mut command = tc3(s);
    loop {
        command = match command {
            Command::Rest => break,
            Command::Drive { line, active } => {
                if active {
                    row = line;
                }
                s.lines(LineResult::Driven)
            }
            Command::Read { line } => s.lines(LineResult::Level(levels[row * cols + line])),
            Command::Write(bytes) => {
                written = Some(bytes);
                s.written(WriteOutcome::Accepted)
            }
            Command::Poll => panic!("no poll in a tick"),
        };
    }
    assert_eq!(s.phase(), Phase::Idle);
    written
}

#[test]
fn scheduler_needs_matching_dimensions() {
    let rest = Snapshot::released(2, 2).unwrap();
    assert!(Scheduler::new(
        Scanner::new(2, 3).unwrap(),
        Debouncer::new(&rest, &rest, 5).unwrap(),
        Layout::new(vec![], 6, Overflow::DropOldest),
        Emitter::new(3),
    )
    .is_none());
    let s = keyboard(2, 2, 5, vec![], 3);
    assert_eq!(s.phase(), Phase::Idle);
    assert_eq!(s.keycodes(), vec![]);
    assert_eq!(s.active_layers(), vec![0]);
}

#[test]
fn one_key_pressed_then_released() {
    let mut s = one_key(1, 3);
    assert_eq!(tick(&mut s, &[true], 1), Some([0, GRAVE, 0, 0, 0, 0, 0]));
    assert_eq!(s.keycodes(), vec![GRAVE]);
    assert_eq!(tick(&mut s, &[false], 1), Some([0, 0, 0, 0, 0, 0, 0]));
    assert_eq!(s.keycodes(), vec![]);
}

#[test]
fn one_tick_step_by_step() {
    let mut s = one_key(1, 3);
    assert_eq!(tc3(&mut s), Command::Drive { line: 0, active: true });
    assert_eq!(s.phase(), Phase::TickRunning);
    assert_eq!(s.lines(LineResult::Driven), Command::Read { line: 0 });
    assert_eq!(s.lines(LineResult::Level(true)), Command::Drive { line: 0, active: false });
    assert_eq!(s.lines(LineResult::Driven), Command::Write([0, GRAVE, 0, 0, 0, 0, 0]));
    assert_eq!(s.phase(), Phase::TickRunning);
    assert_eq!(s.written(WriteOutcome::Accepted), Command::Rest);
    assert_eq!(s.phase(), Phase::Idle);
}

#[test]
fn report_follows_the_debounced_state() {
    let mut s = one_key(5, 3);
    let raw = [true, false, true, false, true, false, true, true, true, true, true];
    for (i, level) in raw.iter().enumerate() {
        let expected = if i < 10 { [0u8; 7] } else { [0, GRAVE, 0, 0, 0, 0, 0] };
        assert_eq!(tick(&mut s, &[*level], 1), Some(expected), "tick {}", i);
    }
}

#[test]
fn quiet_ticks_repeat_the_report() {
    let mut s = one_key(1, 3);
    tick(&mut s, &[true], 1);
    for _ in 0..5 {
        assert_eq!(tick(&mut s, &[true], 1), Some([0, GRAVE, 0, 0, 0, 0, 0]));
    }
}

#[test]
fn failed_scan_skips_the_tick() {
    let mut s = one_key(2, 3);
    assert_eq!(tick(&mut s, &[true], 1), Some([0u8; 7]));
    // a tick whose scan fails: no report, nothing counted
    assert_eq!(tc3(&mut s), Command::Drive { line: 0, active: true });
    assert_eq!(s.lines(LineResult::Driven), Command::Read { line: 0 });
    assert_eq!(s.lines(LineResult::Fault), Command::Drive { line: 0, active: false });
    assert_eq!(s.lines(LineResult::Driven), Command::Rest);
    assert_eq!(s.phase(), Phase::Idle);
    assert_eq!(s.keycodes(), vec![]);
    // the second good sample confirms the press
    assert_eq!(tick(&mut s, &[true], 1), Some([0, GRAVE, 0, 0, 0, 0, 0]));
}

#[test]
fn transport_that_is_not_ready_is_tried_again_within_the_budget() {
    let mut s = one_key(1, 3);
    let bytes = [0, GRAVE, 0, 0, 0, 0, 0];
    tc3(&mut s);
    s.lines(LineResult::Driven);
    s.lines(LineResult::Level(true));
    assert_eq!(s.lines(LineResult::Driven), Command::Write(bytes));
    assert_eq!(s.written(WriteOutcome::Pending), Command::Write(bytes));
    assert_eq!(s.written(WriteOutcome::Pending), Command::Write(bytes));
    assert_eq!(s.written(WriteOutcome::Pending), Command::Rest);
    assert_eq!(s.phase(), Phase::Idle);
    // the next tick sends the report of its own held set
    assert_eq!(tick(&mut s, &[true], 1), Some(bytes));
}

#[test]
fn budget_of_zero_writes_nothing() {
    let mut s = one_key(1, 0);
    assert_eq!(tick(&mut s, &[true], 1), None);
    assert_eq!(s.keycodes(), vec![GRAVE]);
}

#[test]
fn usb_interrupt_polls_and_returns_to_idle() {
    let mut s = one_key(1, 3);
    assert!(!s.ticking());
    assert_eq!(usb(&mut s), Command::Poll);
    assert_eq!(s.phase(), Phase::UsbServicing);
    // the timer starts no tick while the transport is serviced
    assert_eq!(tc3(&mut s), Command::Rest);
    assert_eq!(s.phase(), Phase::UsbServicing);
    assert!(!s.ticking());
    s.serviced();
    assert_eq!(s.phase(), Phase::Idle);
    s.serviced();
    assert_eq!(s.phase(), Phase::Idle);
    assert_eq!(tc3(&mut s), Command::Drive { line: 0, active: true });
}

#[test]
fn every_usb_interrupt_polls() {
    let mut s = one_key(1, 3);
    assert_eq!(usb(&mut s), Command::Poll);
    assert_eq!(usb(&mut s), Command::Poll);
    assert_eq!(usb(&mut s), Command::Poll);
    assert_eq!(s.phase(), Phase::UsbServicing);
    s.serviced();
    assert_eq!(s.phase(), Phase::Idle);
    // in the middle of a tick too, and the tick is not lost
    assert_eq!(tc3(&mut s), Command::Drive { line: 0, active: true });
    assert_eq!(usb(&mut s), Command::Poll);
    assert_eq!(usb(&mut s), Command::Poll);
    assert!(s.ticking());
    s.serviced();
    assert_eq!(s.phase(), Phase::TickRunning);
    assert_eq!(s.lines(LineResult::Driven), Command::Read { line: 0 });
}

#[test]
fn usb_interrupt_preempts_a_tick_and_gives_it_back() {
    let mut s = keyboard(1, 2, 1, vec![vec![vec![Action::Key(4), Action::Key(5)]]], 3);
    assert_eq!(tc3(&mut s), Command::Drive { line: 0, active: true });
    assert_eq!(s.lines(LineResult::Driven), Command::Read { line: 0 });
    assert_eq!(usb(&mut s), Command::Poll);
    assert_eq!(s.phase(), Phase::UsbServicing);
    assert!(s.ticking());
    // an answer of the transport has no place in a scan
    assert_eq!(s.written(WriteOutcome::Accepted), Command::Rest);
    s.serviced();
    assert_eq!(s.phase(), Phase::TickRunning);
    assert_eq!(s.lines(LineResult::Level(true)), Command::Read { line: 1 });
    assert_eq!(s.lines(LineResult::Level(false)), Command::Drive { line: 0, active: false });
    assert_eq!(s.lines(LineResult::Driven), Command::Write([0, 4, 0, 0, 0, 0, 0]));
    assert_eq!(usb(&mut s), Command::Poll);
    s.serviced();
    assert_eq!(s.written(WriteOutcome::Pending), Command::Write([0, 4, 0, 0, 0, 0, 0]));
    assert_eq!(s.written(WriteOutcome::Accepted), Command::Rest);
    assert_eq!(s.phase(), Phase::Idle);
}

#[test]
fn answers_are_taken_in_while_the_transport_is_serviced() {
    let mut s = one_key(1, 3);
    assert_eq!(tc3(&mut s), Command::Drive { line: 0, active: true });
    assert_eq!(usb(&mut s), Command::Poll);
    // the row does not stay active: the scan goes on under the interrupt
    assert_eq!(s.lines(LineResult::Driven), Command::Read { line: 0 });
    assert_eq!(s.lines(LineResult::Level(true)), Command::Drive { line: 0, active: false });
    assert_eq!(s.phase(), Phase::UsbServicing);
    assert!(s.ticking());
    s.serviced();
    assert_eq!(s.phase(), Phase::TickRunning);
    assert_eq!(s.lines(LineResult::Driven), Command::Write([0, GRAVE, 0, 0, 0, 0, 0]));
    assert_eq!(s.written(WriteOutcome::Accepted), Command::Rest);
    assert_eq!(s.phase(), Phase::Idle);
    assert_eq!(tc3(&mut s), Command::Drive { line: 0, active: true });
}

#[test]
fn tick_that_ends_while_the_transport_is_serviced_is_over() {
    let mut s = one_key(1, 3);
    tc3(&mut s);
    s.lines(LineResult::Driven);
    s.lines(LineResult::Level(true));
    assert_eq!(s.lines(LineResult::Driven), Command::Write([0, GRAVE, 0, 0, 0, 0, 0]));
    assert_eq!(usb(&mut s), Command::Poll);
    assert_eq!(s.written(WriteOutcome::Pending), Command::Write([0, GRAVE, 0, 0, 0, 0, 0]));
    assert!(s.ticking());
    assert_eq!(s.written(WriteOutcome::Accepted), Command::Rest);
    assert_eq!(s.phase(), Phase::UsbServicing);
    assert!(!s.ticking());
    s.serviced();
    assert_eq!(s.phase(), Phase::Idle);
    // and so is one whose scan fails under the interrupt
    assert_eq!(tc3(&mut s), Command::Drive { line: 0, active: true });
    assert_eq!(usb(&mut s), Command::Poll);
    assert_eq!(s.lines(LineResult::Fault), Command::Drive { line: 0, active: false });
    assert_eq!(s.lines(LineResult::Driven), Command::Rest);
    assert!(!s.ticking());
    s.serviced();
    assert_eq!(s.phase(), Phase::Idle);
    assert_eq!(tc3(&mut s), Command::Drive { line: 0, active: true });
}

#[test]
fn failed_write_ends_the_tick_at_once() {
    let mut s = one_key(1, 3);
    tc3(&mut s);
    s.lines(LineResult::Driven);
    s.lines(LineResult::Level(true));
    assert_eq!(s.lines(LineResult::Driven), Command::Write([0, GRAVE, 0, 0, 0, 0, 0]));
    assert_eq!(s.written(WriteOutcome::Failed), Command::Rest);
    assert_eq!(s.phase(), Phase::Idle);
    assert_eq!(s.keycodes(), vec![GRAVE]);
}

#[test]
fn modifier_and_six_keys_all_reach_the_report() {
    let row: Vec<Action> = vec![
        Action::Key(0xE1),
        Action::Key(4),
        Action::Key(5),
        Action::Key(6),
        Action::Key(7),
        Action::Key(8),
        Action::Key(9),
        Action::Key(10),
    ];
    let mut s = keyboard(1, 8, 1, vec![vec![row]], 3);
    let mut down = [true; 8];
    down[7] = false;
    assert_eq!(tick(&mut s, &down, 8), Some([0x02, 4, 5, 6, 7, 8, 9]));
    // an eighth key makes the oldest key leave, not the modifier
    assert_eq!(tick(&mut s, &[true; 8], 8), Some([0x02, 5, 6, 7, 8, 9, 10]));
}

#[test]
fn timer_does_not_restart_a_tick_under_way() {
    let mut s = one_key(1, 3);
    assert_eq!(tc3(&mut s), Command::Drive { line: 0, active: true });
    assert_eq!(tc3(&mut s), Command::Rest);
    assert_eq!(s.lines(LineResult::Driven), Command::Read { line: 0 });
}

#[test]
fn answers_out_of_turn_are_ignored() {
    let mut s = one_key(1, 3);
    assert_eq!(s.lines(LineResult::Driven), Command::Rest);
    assert_eq!(s.written(WriteOutcome::Accepted), Command::Rest);
    assert_eq!(s.phase(), Phase::Idle);
    tc3(&mut s);
    assert_eq!(s.written(WriteOutcome::Accepted), Command::Rest);
    assert_eq!(s.lines(LineResult::Driven), Command::Read { line: 0 });
    s.lines(LineResult::Level(true));
    assert_eq!(s.lines(LineResult::Driven), Command::Write([0, GRAVE, 0, 0, 0, 0, 0]));
    assert_eq!(s.lines(LineResult::Driven), Command::Rest);
    assert_eq!(s.written(WriteOutcome::Accepted), Command::Rest);
    assert_eq!(s.phase(), Phase::Idle);
}

#[test]
fn layers_and_modifiers_reach_the_report() {
    static CTRL_C: [u8; 2] = [0xE0, 0x06];
    let mut s = keyboard(
        2,
        2,
        1,
        vec![
            vec![
                vec![Action::Layer(1), Action::Key(0x04)],
                vec![Action::Key(0xE1), Action::Macro(&CTRL_C)],
            ],
            vec![vec![Action::Trans, Action::Key(0x1E)], vec![Action::Trans, Action::Trans]],
        ],
        3,
    );
    assert_eq!(tick(&mut s, &[false, true, true, false], 2), Some([0x02, 0x04, 0, 0, 0, 0, 0]));
    assert_eq!(tick(&mut s, &[true, false, true, false], 2), Some([0x02, 0, 0, 0, 0, 0, 0]));
    assert_eq!(s.active_layers(), vec![0, 1]);
    assert_eq!(tick(&mut s, &[true, true, true, true], 2), Some([0x03, 0x1E, 0x06, 0, 0, 0, 0]));
    assert_eq!(tick(&mut s, &[false, true, false, false], 2), Some([0, 0x1E, 0, 0, 0, 0, 0]));
    assert_eq!(s.active_layers(), vec![0]);
    assert_eq!(tick(&mut s, &[false, false, false, false], 2), Some([0u8; 7]));
}

#[test]
fn empty_matrix_ticks_without_a_scan() {
    let mut s = keyboard(0, 0, 1, vec![], 3);
    assert_eq!(tc3(&mut s), Command::Write([0u8; 7]));
    assert_eq!(s.written(WriteOutcome::Accepted), Command::Rest);
}

fn hold_tap_keyboard(hold: Hold) -> Scheduler {
    keyboard(
        1,
        2,
        1,
        vec![
            vec![vec![Action::HoldTap { window: 5, tap: 0x2C, hold }, Action::Key(0x04)]],
            vec![vec![Action::Trans, Action::Key(0x05)]],
        ],
        3,
    )
}

#[test]
fn hold_tap_released_at_the_second_tick_taps_in_one_report() {
    for hold in [Hold::Key(0xE1), Hold::Layer(1)] {
        let mut s = hold_tap_keyboard(hold);
        let before = tick(&mut s, &[false, false], 2);
        assert_eq!(before, Some([0u8; 7]));
        // ticks 0 and 1: the key is down and undecided
        assert_eq!(tick(&mut s, &[true, false], 2), before);
        assert_eq!(tick(&mut s, &[true, false], 2), before);
        // tick 2 confirms the release: the tap is in this report only
        assert_eq!(tick(&mut s, &[false, false], 2), Some([0, 0x2C, 0, 0, 0, 0, 0]));
        assert_eq!(s.active_layers(), vec![0]);
        for _ in 0..10 {
            assert_eq!(tick(&mut s, &[false, false], 2), before);
            assert_eq!(s.active_layers(), vec![0]);
        }
    }
}

#[test]
fn hold_tap_held_to_the_fifth_tick_holds_and_never_taps() {
    let mut s = hold_tap_keyboard(Hold::Key(0xE1));
    // ticks 0 to 4
    for _ in 0..5 {
        assert_eq!(tick(&mut s, &[true, false], 2), Some([0u8; 7]));
    }
    // tick 5 confirms nothing and puts the hold in effect
    assert_eq!(tick(&mut s, &[true, false], 2), Some([0x02, 0, 0, 0, 0, 0, 0]));
    assert_eq!(tick(&mut s, &[true, true], 2), Some([0x02, 0x04, 0, 0, 0, 0, 0]));
    assert_eq!(tick(&mut s, &[false, true], 2), Some([0, 0x04, 0, 0, 0, 0, 0]));
    assert_eq!(tick(&mut s, &[false, false], 2), Some([0u8; 7]));

    let mut s = hold_tap_keyboard(Hold::Layer(1));
    for _ in 0..5 {
        assert_eq!(tick(&mut s, &[true, false], 2), Some([0u8; 7]));
        assert_eq!(s.active_layers(), vec![0]);
    }
    assert_eq!(tick(&mut s, &[true, false], 2), Some([0u8; 7]));
    assert_eq!(s.active_layers(), vec![0, 1]);
    assert_eq!(tick(&mut s, &[true, true], 2), Some([0, 0x05, 0, 0, 0, 0, 0]));
    assert_eq!(tick(&mut s, &[false, false], 2), Some([0u8; 7]));
    assert_eq!(s.active_layers(), vec![0]);
    for _ in 0..10 {
        assert_eq!(tick(&mut s, &[false, false], 2), Some([0u8; 7]));
    }
}
