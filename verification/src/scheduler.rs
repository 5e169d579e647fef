//! The scheduler: the owner of the pipeline's state, which lends it to the
//! timer tick and to the USB interrupt in turn and tells each handler what to
//! do next.
//!
//! A handler performs the command that it is given and reports the result,
//! until the command is [`Command::Rest`]. The USB interrupt has the higher
//! priority: it may come in while a tick is under way, it has the transport
//! polled every time, and the tick goes on where it was.

use crate::debounce::{events_upto, stepped, stepped_all, Cell, Debouncer, KeyEvent};
use crate::emitter::{
    answer, answers, begin, lemma_attempts_bounded, EmitStep, Emission, Emitter, StepView,
    WriteOutcome,
};
use crate::layout::{apply_all, codes_of, state_wf, tick, Action, Layout, Overflow, State};
use crate::layout_laws::{after_ticks, tick_layout};
use crate::report::{report_bytes, SLOTS};
use crate::scanner::{
    at_rest, in_turn, lemma_scan_completes, levels_of, next, scan_wf, start, trace, LineResult,
    Scan, ScanStep, ScanStepView, Scanner,
};
use vstd::prelude::*;

verus! {

/// What the scheduler is doing.
#[derive(Clone, Copy, Debug, PartialEq, Eq)]
pub enum Phase {
    /// Waiting for an interrupt.
    Idle,
    /// A tick is under way: scan, debounce, layout, emit.
    TickRunning,
    /// The transport is being polled for the USB interrupt.
    UsbServicing,
}

/// What a handler has to do next.
#[derive(Clone, Copy, Debug, PartialEq, Eq)]
pub enum Command {
    /// Nothing: return from the interrupt.
    Rest,
    /// Drive an output line of the matrix and report with `lines`.
    Drive { line: usize, active: bool },
    /// Read an input line of the matrix and report with `lines`.
    Read { line: usize },
    /// Offer these bytes to the transport and report with `written`.
    Write([u8; 7]),
    /// Poll the transport and end with `serviced`.
    Poll,
}

/// A `Command` with its bytes as a sequence.
pub enum CommandView {
    Rest,
    Drive { line: usize, active: bool },
    Read { line: usize },
    Write(Seq<u8>),
    Poll,
}

impl View for Command {
    type V = CommandView;

    open spec fn view(&self) -> CommandView {
        match *self {
            Command::Rest => CommandView::Rest,
            Command::Drive { line, active } => CommandView::Drive { line, active },
            Command::Read { line } => CommandView::Read { line },
            Command::Write(bytes) => CommandView::Write(bytes@),
            Command::Poll => CommandView::Poll,
        }
    }
}

/// What is fixed when the scheduler is made.
pub struct Config {
    pub rows: usize,
    pub cols: usize,
    pub threshold: u16,
    pub keymap: Seq<Vec<Vec<Action>>>,
    pub capacity: nat,
    pub overflow: Overflow,
    pub budget: u32,
}

/// The state that the scheduler owns.
pub struct Core {
    pub phase: Phase,
    /// Whether the USB interrupt came in while a tick was under way.
    pub preempted: bool,
    pub scan: Scan,
    pub cells: Seq<Cell>,
    pub layout: State,
    pub emission: Emission,
}

/// Whether a tick is under way, be it interrupted by the USB interrupt or
/// not.
pub open spec fn ticking(core: Core) -> bool {
    core.phase is TickRunning || (core.phase is UsbServicing && core.preempted)
}

/// The scheduler with its tick under way or over. While the transport is
/// being serviced the phase stays, and a tick that is under way is kept as
/// the one to go back to.
pub open spec fn with_tick(core: Core, running: bool) -> Core {
    if core.phase is UsbServicing {
        Core { preempted: running, ..core }
    } else {
        Core {
            phase: if running {
                Phase::TickRunning
            } else {
                Phase::Idle
            },
            preempted: false,
            ..core
        }
    }
}

/// The command that the emitter's step amounts to: the tick is over once the
/// emission has ended.
pub open spec fn after_emit(core: Core, emission: Emission, step: StepView) -> (Core, CommandView) {
    match step {
        StepView::Write(bytes) => (
            with_tick(Core { emission, ..core }, true),
            CommandView::Write(bytes),
        ),
        StepView::Done(_) => (with_tick(Core { emission, ..core }, false), CommandView::Rest),
    }
}

/// The rest of a tick once the snapshot is there: the debouncer takes it in,
/// the layout takes in the events that it confirms and ends its tick, and the
/// report of the held set starts on its way.
pub open spec fn pipeline(cfg: Config, core: Core, bits: Seq<bool>) -> (Core, CommandView) {
    let events = events_upto(core.cells, cfg.threshold, bits, cfg.cols as nat, core.cells.len());
    let layout = tick(
        cfg.capacity,
        cfg.overflow,
        apply_all(cfg.keymap, cfg.capacity, cfg.overflow, core.layout, events),
    );
    let (emission, step) = begin(cfg.budget, report_bytes(codes_of(layout.held)));
    after_emit(
        Core { cells: stepped(core.cells, cfg.threshold, bits), layout, ..core },
        emission,
        step,
    )
}

/// The command that the scanner's step amounts to. A scan that fails ends the
/// tick with nothing else changed; one that is complete runs the pipeline.
pub open spec fn after_scan(cfg: Config, core: Core, scan: Scan, step: ScanStepView) -> (
    Core,
    CommandView,
) {
    match step {
        ScanStepView::Drive { line, active } => (
            with_tick(Core { scan, ..core }, true),
            CommandView::Drive { line, active },
        ),
        ScanStepView::Read { line } => (
            with_tick(Core { scan, ..core }, true),
            CommandView::Read { line },
        ),
        ScanStepView::Failed => (with_tick(Core { scan, ..core }, false), CommandView::Rest),
        ScanStepView::Done(bits) => pipeline(cfg, Core { scan, ..core }, bits),
    }
}

/// The timer interrupt. From `Idle` a tick begins with its scan; while a tick
/// is under way or the transport is being serviced, nothing happens.
pub open spec fn on_timer(cfg: Config, core: Core) -> (Core, CommandView) {
    if core.phase is Idle {
        let (scan, step) = start(cfg.rows, cfg.cols);
        after_scan(cfg, core, scan, step)
    } else {
        (core, CommandView::Rest)
    }
}

/// The lines' answer to a `Drive` or `Read`. It counts while a tick is
/// scanning, also when the transport is being serviced in the middle of it.
pub open spec fn on_lines(cfg: Config, core: Core, result: LineResult) -> (Core, CommandView) {
    if ticking(core) && !(core.scan.phase is Idle) {
        let (scan, step) = next(cfg.rows, cfg.cols, core.scan, result);
        after_scan(cfg, core, scan, step)
    } else {
        (core, CommandView::Rest)
    }
}

/// The transport's answer to a `Write`. It counts while a tick has a report
/// in flight, also when the transport is being serviced in the middle of it.
pub open spec fn on_written(cfg: Config, core: Core, outcome: WriteOutcome) -> (
    Core,
    CommandView,
) {
    if ticking(core) && core.scan.phase is Idle && core.emission.in_flight is Some {
        let (emission, step) = answer(cfg.budget, core.emission, outcome);
        after_emit(core, emission, step)
    } else {
        (core, CommandView::Rest)
    }
}

/// The USB interrupt. It is taken at once, also in the middle of a tick, and
/// always has the transport polled. One that comes in while the transport is
/// being serviced changes nothing: the scheduler still goes back to where the
/// first of them found it.
pub open spec fn on_usb(core: Core) -> (Core, CommandView) {
    (
        match core.phase {
            Phase::Idle => Core { phase: Phase::UsbServicing, preempted: false, ..core },
            Phase::TickRunning => Core { phase: Phase::UsbServicing, preempted: true, ..core },
            Phase::UsbServicing => core,
        },
        CommandView::Poll,
    )
}

/// The end of a poll: the scheduler is back where the USB interrupt found it,
/// or at rest where the tick that it interrupted has ended since.
pub open spec fn on_serviced(core: Core) -> Core {
    if core.phase is UsbServicing {
        Core {
            phase: if core.preempted {
                Phase::TickRunning
            } else {
                Phase::Idle
            },
            preempted: false,
            ..core
        }
    } else {
        core
    }
}

/// A tick does to the layout what its events and one tick do. The pipeline
/// hands the layout the events that the snapshot confirms, oldest first, and
/// ends its tick once; the report that it sends on its way, where the budget
/// allows a write at all, is that of the held set after that.
pub proof fn lemma_pipeline_layout(cfg: Config, core: Core, bits: Seq<bool>)
    ensures
        pipeline(cfg, core, bits).0.layout == tick_layout(
            cfg.keymap,
            cfg.capacity,
            cfg.overflow,
            core.layout,
            events_upto(core.cells, cfg.threshold, bits, cfg.cols as nat, core.cells.len()),
        ),
        pipeline(cfg, core, bits).0.cells == stepped(core.cells, cfg.threshold, bits),
        cfg.budget > 0 ==> pipeline(cfg, core, bits).1 == CommandView::Write(
            report_bytes(codes_of(pipeline(cfg, core, bits).0.layout.held)),
        ),
{
}

/// The scheduler after the pipeline has run on a sequence of snapshots, one
/// tick each, oldest first.
pub open spec fn after_snapshots(cfg: Config, core: Core, snapshots: Seq<Seq<bool>>) -> Core
    decreases snapshots.len(),
{
    if snapshots.len() == 0 {
        core
    } else {
        pipeline(cfg, after_snapshots(cfg, core, snapshots.drop_last()), snapshots.last()).0
    }
}

/// The events that each of a sequence of snapshots confirms, tick by tick.
pub open spec fn confirmed_by(cfg: Config, cells: Seq<Cell>, snapshots: Seq<Seq<bool>>) -> Seq<
    Seq<KeyEvent>,
> {
    Seq::new(
        snapshots.len(),
        |i: int|
            events_upto(
                stepped_all(cells, cfg.threshold, snapshots.take(i)),
                cfg.threshold,
                snapshots[i],
                cfg.cols as nat,
                cells.len(),
            ),
    )
}

/// Ticks do to the layout what their events do. After any sequence of
/// snapshots the debouncer has taken each of them in, and the layout is the
/// one after a sequence of ticks that confirm what the snapshots confirm.
pub proof fn lemma_ticks_follow_snapshots(cfg: Config, core: Core, snapshots: Seq<Seq<bool>>)
    ensures
        after_snapshots(cfg, core, snapshots).cells == stepped_all(
            core.cells,
            cfg.threshold,
            snapshots,
        ),
        after_snapshots(cfg, core, snapshots).cells.len() == core.cells.len(),
        after_snapshots(cfg, core, snapshots).layout == after_ticks(
            cfg.keymap,
            cfg.capacity,
            cfg.overflow,
            core.layout,
            confirmed_by(cfg, core.cells, snapshots),
        ),
    decreases snapshots.len(),
{
    if snapshots.len() > 0 {
        let earlier = snapshots.drop_last();
        lemma_ticks_follow_snapshots(cfg, core, earlier);
        lemma_pipeline_layout(cfg, after_snapshots(cfg, core, earlier), snapshots.last());
        let schedule = confirmed_by(cfg, core.cells, snapshots);
        assert(snapshots.take(snapshots.len() - 1) =~= earlier);
        assert(schedule.drop_last() =~= confirmed_by(cfg, core.cells, earlier)) by {
            assert forall|i: int| 0 <= i < earlier.len() implies schedule[i] == confirmed_by(
                cfg,
                core.cells,
                earlier,
            )[i] by {
                assert(snapshots.take(i) =~= earlier.take(i));
            }
        }
    }
}

/// The scheduler after the timer interrupt and a sequence of answers from the
/// lines, oldest first, with the command that it gives then.
pub open spec fn tick_trace(cfg: Config, core: Core, results: Seq<LineResult>) -> (
    Core,
    CommandView,
)
    decreases results.len(),
{
    if results.len() == 0 {
        on_timer(cfg, core)
    } else {
        on_lines(cfg, tick_trace(cfg, core, results.drop_last()).0, results.last())
    }
}

/// The command that hands a step of the scan on.
pub open spec fn scan_command(step: ScanStepView) -> CommandView {
    match step {
        ScanStepView::Drive { line, active } => CommandView::Drive { line, active },
        ScanStepView::Read { line } => CommandView::Read { line },
        _ => CommandView::Rest,
    }
}

/// A tick runs the pipeline once, on what the lines showed. From `Idle`, and
/// with lines that answer in turn, the tick only scans until two answers for
/// each row and one for each position are in: the debouncer, the layout and
/// the emitter are as they were. With the last of these answers the pipeline
/// runs on the snapshot of the levels that the lines have answered.
pub proof fn lemma_tick_runs_pipeline(cfg: Config, core: Core, results: Seq<LineResult>)
    requires
        core.phase is Idle,
        !core.preempted,
        cfg.rows * cfg.cols <= usize::MAX,
        cfg.rows > 0,
        cfg.cols > 0,
        in_turn(cfg.rows, cfg.cols, results),
    ensures
        results.len() <= cfg.rows * (cfg.cols + 2),
        results.len() < cfg.rows * (cfg.cols + 2) ==> tick_trace(cfg, core, results) == (
            Core { phase: Phase::TickRunning, scan: trace(cfg.rows, cfg.cols, results).0, ..core },
            scan_command(trace(cfg.rows, cfg.cols, results).1),
        ),
        results.len() == cfg.rows * (cfg.cols + 2) ==> tick_trace(cfg, core, results) == pipeline(
            cfg,
            Core { scan: at_rest(), ..core },
            levels_of(results),
        ),
    decreases results.len(),
{
    lemma_scan_completes(cfg.rows, cfg.cols, results);
    if results.len() > 0 {
        lemma_tick_runs_pipeline(cfg, core, results.drop_last());
        lemma_scan_completes(cfg.rows, cfg.cols, results.drop_last());
    }
}

/// Whether a scan has not been complete after any of the answers so far.
pub open spec fn incomplete(rows: usize, cols: usize, results: Seq<LineResult>) -> bool
    decreases results.len(),
{
    !(trace(rows, cols, results).1 is Done) && (results.len() == 0 || incomplete(
        rows,
        cols,
        results.drop_last(),
    ))
}

/// A tick without a snapshot changes nothing. Whatever the lines answer,
/// until the scan is complete the debouncer, the layout and the emitter are
/// as the timer interrupt found them; and a tick whose scan has failed is
/// over, with nothing counted and no report on its way.
pub proof fn lemma_failed_scan_changes_nothing(cfg: Config, core: Core, results: Seq<LineResult>)
    requires
        core.phase is Idle,
        !core.preempted,
        incomplete(cfg.rows, cfg.cols, results),
    ensures
        tick_trace(cfg, core, results).0 == (Core {
            phase: if trace(cfg.rows, cfg.cols, results).0.phase is Idle {
                Phase::Idle
            } else {
                Phase::TickRunning
            },
            scan: trace(cfg.rows, cfg.cols, results).0,
            ..core
        }),
        trace(cfg.rows, cfg.cols, results).1 is Failed ==> tick_trace(cfg, core, results).0.phase
            is Idle && tick_trace(cfg, core, results).1 == CommandView::Rest,
    decreases results.len(),
{
    if results.len() > 0 {
        lemma_failed_scan_changes_nothing(cfg, core, results.drop_last());
    }
}

/// The scheduler after a sequence of answers from the transport, oldest
/// first.
pub open spec fn write_trace(cfg: Config, core: Core, outcomes: Seq<WriteOutcome>) -> Core
    decreases outcomes.len(),
{
    if outcomes.len() == 0 {
        core
    } else {
        on_written(cfg, write_trace(cfg, core, outcomes.drop_last()), outcomes.last()).0
    }
}

/// A tick ends within its budget. Once the report of a tick is on its way,
/// the transport's answers move nothing but the emission, and the tick is
/// over as soon as the transport takes the report, and after as many answers
/// as the budget allows writes at the latest.
pub proof fn lemma_tick_ends_within_budget(
    cfg: Config,
    core: Core,
    bytes: Seq<u8>,
    outcomes: Seq<WriteOutcome>,
)
    requires
        core.phase is TickRunning,
        !core.preempted,
        core.scan.phase is Idle,
        cfg.budget > 0,
        core.emission == begin(cfg.budget, bytes).0,
    ensures
        write_trace(cfg, core, outcomes) == (Core {
            phase: if answers(cfg.budget, core.emission, outcomes).in_flight is Some {
                Phase::TickRunning
            } else {
                Phase::Idle
            },
            emission: answers(cfg.budget, core.emission, outcomes),
            ..core
        }),
        outcomes.len() >= cfg.budget ==> write_trace(cfg, core, outcomes).phase is Idle,
    decreases outcomes.len(),
{
    if outcomes.len() > 0 {
        lemma_tick_ends_within_budget(cfg, core, bytes, outcomes.drop_last());
    }
    if outcomes.len() >= cfg.budget {
        lemma_attempts_bounded(cfg.budget, bytes, outcomes);
    }
}

/// The USB interrupt leaves the tick alone. It is taken from `Idle` and in
/// the middle of a tick alike, always to poll the transport; it changes
/// nothing that the tick works on, and once the transport has been serviced
/// the scheduler is exactly where the interrupt found it.
pub proof fn lemma_usb_returns(core: Core)
    requires
        !(core.phase is UsbServicing),
        !core.preempted,
    ensures
        on_usb(core).1 == CommandView::Poll,
        on_usb(core).0.phase is UsbServicing,
        on_usb(core).0.scan == core.scan,
        on_usb(core).0.cells == core.cells,
        on_usb(core).0.layout == core.layout,
        on_usb(core).0.emission == core.emission,
        on_serviced(on_usb(core).0) == core,
{
}

/// Every USB interrupt has the transport polled. Whatever the scheduler is
/// doing, the command is to poll. While the transport is being serviced, a
/// further USB interrupt changes nothing else, and the timer starts no tick.
pub proof fn lemma_usb_polls_every_time(cfg: Config, core: Core)
    ensures
        on_usb(core).1 == CommandView::Poll,
        on_usb(core).0.phase is UsbServicing,
        on_usb(on_usb(core).0) == on_usb(core),
        core.phase is UsbServicing ==> on_usb(core).0 == core && on_timer(cfg, core) == (
            core,
            CommandView::Rest,
        ),
{
}

/// A tick goes on under the USB interrupt. An answer that comes in while the
/// transport is being serviced in the middle of a tick gets the command that
/// it would have got without the interrupt, and once the transport has been
/// serviced the scheduler is where the answer would have left it.
pub proof fn lemma_tick_goes_on_under_usb(
    cfg: Config,
    core: Core,
    result: LineResult,
    outcome: WriteOutcome,
)
    requires
        core.phase is TickRunning,
        !core.preempted,
    ensures
        on_lines(cfg, on_usb(core).0, result).1 == on_lines(cfg, core, result).1,
        on_serviced(on_lines(cfg, on_usb(core).0, result).0) == on_lines(cfg, core, result).0,
        on_written(cfg, on_usb(core).0, outcome).1 == on_written(cfg, core, outcome).1,
        on_serviced(on_written(cfg, on_usb(core).0, outcome).0) == on_written(
            cfg,
            core,
            outcome,
        ).0,
{
}

/// Whether an answer is awaited: a scan is under way or a report is in
/// flight, so that the lines or the transport have a step to answer.
pub open spec fn awaited(core: Core) -> bool {
    !(core.scan.phase is Idle) || core.emission.in_flight is Some
}

/// A state that the scheduler can be in: every part is in a state that it
/// can be in, there is one debounce state per position of the matrix, a tick
/// counts as interrupted only while the transport is being serviced, and a
/// tick that is under way awaits an answer.
pub open spec fn core_wf(cfg: Config, core: Core) -> bool {
    &&& cfg.rows * cfg.cols <= usize::MAX
    &&& scan_wf(cfg.rows, cfg.cols, core.scan)
    &&& core.cells.len() == cfg.rows * cfg.cols
    &&& cfg.threshold >= 1
    &&& forall|i: int| 0 <= i < core.cells.len() ==> (#[trigger] core.cells[i]).run < cfg.threshold
    &&& state_wf(core.layout, cfg.capacity)
    &&& cfg.capacity <= SLOTS
    &&& core.emission.in_flight is Some ==> core.emission.failed < cfg.budget
    &&& core.preempted ==> core.phase is UsbServicing
    &&& ticking(core) ==> awaited(core)
}

/// The owner of the pipeline's state.
pub struct Scheduler {
    phase: Phase,
    preempted: bool,
    scanner: Scanner,
    debouncer: Debouncer,
    layout: Layout,
    emitter: Emitter,
}

impl View for Scheduler {
    type V = Core;

    closed spec fn view(&self) -> Core {
        Core {
            phase: self.phase,
            preempted: self.preempted,
            scan: self.scanner@,
            cells: self.debouncer@,
            layout: self.layout@,
            emission: self.emitter@,
        }
    }
}

impl Scheduler {
    /// What was fixed when the scheduler was made.
    pub closed spec fn config(&self) -> Config {
        Config {
            rows: self.scanner.spec_rows(),
            cols: self.scanner.spec_cols(),
            threshold: self.debouncer.spec_threshold(),
            keymap: self.layout.keymap(),
            capacity: self.layout.spec_capacity(),
            overflow: self.layout.spec_overflow(),
            budget: self.emitter.spec_budget(),
        }
    }

    /// Every part is in a state that it can be in, the scanner and the
    /// debouncer are made for the same matrix, a tick counts as interrupted
    /// only while the transport is being serviced, and a tick that is under
    /// way awaits an answer.
    pub closed spec fn wf(&self) -> bool {
        &&& self.parts_wf()
        &&& ticking(self@) ==> awaited(self@)
    }

    /// What holds in the middle of a step too.
    closed spec fn parts_wf(&self) -> bool {
        &&& self.scanner.wf()
        &&& self.debouncer.wf()
        &&& self.layout.wf()
        &&& self.emitter.wf()
        &&& self.debouncer.spec_rows() == self.scanner.spec_rows()
        &&& self.debouncer.spec_cols() == self.scanner.spec_cols()
        &&& self.preempted ==> self.phase is UsbServicing
    }

    /// A scheduler at rest that owns the four parts of the pipeline; `None`
    /// when the scanner and the debouncer differ in their dimensions.
    pub fn new(scanner: Scanner, debouncer: Debouncer, layout: Layout, emitter: Emitter) -> (res:
        Option<Scheduler>)
        requires
            scanner.wf(),
            debouncer.wf(),
            layout.wf(),
            emitter.wf(),
        ensures
            res is Some <==> debouncer.spec_rows() == scanner.spec_rows() && debouncer.spec_cols()
                == scanner.spec_cols(),
            res matches Some(s) ==> {
                &&& s.wf()
                &&& s@ == (Core {
                    phase: Phase::Idle,
                    preempted: false,
                    scan: scanner@,
                    cells: debouncer@,
                    layout: layout@,
                    emission: emitter@,
                })
                &&& s.config() == (Config {
                    rows: scanner.spec_rows(),
                    cols: scanner.spec_cols(),
                    threshold: debouncer.spec_threshold(),
                    keymap: layout.keymap(),
                    capacity: layout.spec_capacity(),
                    overflow: layout.spec_overflow(),
                    budget: emitter.spec_budget(),
                })
            },
    {
        if debouncer.rows() == scanner.rows() && debouncer.cols() == scanner.cols() {
            Some(
                Scheduler {
                    phase: Phase::Idle,
                    preempted: false,
                    scanner,
                    debouncer,
                    layout,
                    emitter,
                },
            )
        } else {
            None
        }
    }

    /// What the scheduler is doing.
    pub fn phase(&self) -> (phase: Phase)
        ensures
            phase == self@.phase,
    {
        self.phase
    }

    /// The key codes that are held down, oldest first.
    pub fn keycodes(&self) -> (codes: Vec<u8>)
        ensures
            codes@ == codes_of(self@.layout.held),
    {
        self.layout.keycodes()
    }

    /// The active layers, the base layer first and the topmost last.
    pub fn active_layers(&self) -> (layers: Vec<usize>)
        ensures
            layers@ == crate::layout::layers_of(self@.layout.shifts),
    {
        self.layout.active_layers()
    }

    /// What holds of every scheduler that the functions of this module make
    /// or leave behind.
    pub proof fn lemma_wf(&self)
        requires
            self.wf(),
        ensures
            core_wf(self.config(), self@),
    {
    }

    /// Whether a tick is under way.
    pub fn ticking(&self) -> (res: bool)
        ensures
            res == ticking(self@),
    {
        match self.phase {
            Phase::Idle => false,
            Phase::TickRunning => true,
            Phase::UsbServicing => self.preempted,
        }
    }

    /// Marks the tick as under way or over.
    fn set_tick(&mut self, running: bool)
        requires
            old(self).parts_wf(),
            running ==> awaited(old(self)@),
        ensures
            final(self).wf(),
            final(self).config() == old(self).config(),
            final(self)@ == with_tick(old(self)@, running),
    {
        match self.phase {
            Phase::UsbServicing => {
                self.preempted = running;
            },
            _ => {
                self.phase = if running {
                    Phase::TickRunning
                } else {
                    Phase::Idle
                };
                self.preempted = false;
            },
        }
    }

    /// Hands the emitter's step on as a command.
    fn emitted(&mut self, step: EmitStep) -> (command: Command)
        requires
            old(self).parts_wf(),
            step is Write ==> old(self)@.emission.in_flight is Some,
        ensures
            final(self).wf(),
            final(self).config() == old(self).config(),
            (final(self)@, command@) == after_emit(old(self)@, old(self)@.emission, step@),
    {
        match step {
            EmitStep::Write(bytes) => {
                self.set_tick(true);
                Command::Write(bytes)
            },
            EmitStep::Done(_) => {
                self.set_tick(false);
                Command::Rest
            },
        }
    }

    /// Runs the pipeline on a complete snapshot.
    fn run(&mut self, snapshot: &crate::matrix::Snapshot) -> (command: Command)
        requires
            old(self).parts_wf(),
            snapshot.wf(),
            snapshot.spec_rows() == old(self).config().rows,
            snapshot.spec_cols() == old(self).config().cols,
        ensures
            final(self).wf(),
            final(self).config() == old(self).config(),
            (final(self)@, command@) == pipeline(old(self).config(), old(self)@, snapshot@),
    {
        let ghost cfg = self.config();
        let ghost before = self@;
        match self.debouncer.update(snapshot) {
            Some(events) => {
                let mut i: usize = 0;
                while i < events.len()
                    invariant
                        i <= events@.len(),
                        self.parts_wf(),
                        self.config() == cfg,
                        self.phase == before.phase,
                        self.preempted == before.preempted,
                        self.scanner@ == before.scan,
                        self.emitter@ == before.emission,
                        self.debouncer@ == stepped(before.cells, cfg.threshold, snapshot@),
                        self.layout@ == apply_all(
                            cfg.keymap,
                            cfg.capacity,
                            cfg.overflow,
                            before.layout,
                            events@.take(i as int),
                        ),
                    decreases events@.len() - i,
                {
                    proof {
                        assert(events@.take(i + 1).drop_last() =~= events@.take(i as int));
                    }
                    let _ = self.layout.on_event(events[i]);
                    i += 1;
                }
                assert(events@.take(i as int) =~= events@);
                let codes = self.layout.advance();
                let step = self.emitter.emit(&codes);
                self.emitted(step)
            },
            None => {
                self.set_tick(false);
                Command::Rest
            },
        }
    }

    /// Hands the scanner's step on as a command.
    fn scanned(&mut self, step: ScanStep) -> (command: Command)
        requires
            old(self).parts_wf(),
            step is Drive || step is Read ==> !(old(self)@.scan.phase is Idle),
            step matches ScanStep::Done(snapshot) ==> snapshot.wf() && snapshot.spec_rows()
                == old(self).config().rows && snapshot.spec_cols() == old(self).config().cols,
        ensures
            final(self).wf(),
            final(self).config() == old(self).config(),
            (final(self)@, command@) == after_scan(
                old(self).config(),
                old(self)@,
                old(self)@.scan,
                step@,
            ),
    {
        match step {
            ScanStep::Drive { line, active } => {
                self.set_tick(true);
                Command::Drive { line, active }
            },
            ScanStep::Read { line } => {
                self.set_tick(true);
                Command::Read { line }
            },
            ScanStep::Failed => {
                self.set_tick(false);
                Command::Rest
            },
            ScanStep::Done(snapshot) => self.run(&snapshot),
        }
    }

    /// Takes in the lines' answer to a `Drive` or `Read` of the tick that is
    /// under way.
    pub fn lines(&mut self, result: LineResult) -> (command: Command)
        requires
            old(self).wf(),
        ensures
            final(self).wf(),
            final(self).config() == old(self).config(),
            (final(self)@, command@) == on_lines(old(self).config(), old(self)@, result),
    {
        if self.ticking() && self.scanner.busy() {
            let step = self.scanner.advance(result);
            self.scanned(step)
        } else {
            Command::Rest
        }
    }

    /// Takes in the transport's answer to a `Write` of the tick that is under
    /// way.
    pub fn written(&mut self, outcome: WriteOutcome) -> (command: Command)
        requires
            old(self).wf(),
        ensures
            final(self).wf(),
            final(self).config() == old(self).config(),
            (final(self)@, command@) == on_written(old(self).config(), old(self)@, outcome),
    {
        if self.ticking() && !self.scanner.busy() && self.emitter.busy() {
            let step = self.emitter.written(outcome);
            self.emitted(step)
        } else {
            Command::Rest
        }
    }

    /// Ends the servicing of the USB interrupt, once the transport has been
    /// polled.
    pub fn serviced(&mut self)
        requires
            old(self).wf(),
        ensures
            final(self).wf(),
            final(self).config() == old(self).config(),
            final(self)@ == on_serviced(old(self)@),
    {
        if matches!(self.phase, Phase::UsbServicing) {
            self.phase = if self.preempted {
                Phase::TickRunning
            } else {
                Phase::Idle
            };
            self.preempted = false;
        }
    }
}

/// The handler of the periodic timer interrupt: begins a tick.
pub fn tc3(scheduler: &mut Scheduler) -> (command: Command)
    requires
        old(scheduler).wf(),
    ensures
        final(scheduler).wf(),
        final(scheduler).config() == old(scheduler).config(),
        (final(scheduler)@, command@) == on_timer(old(scheduler).config(), old(scheduler)@),
{
    if matches!(scheduler.phase, Phase::Idle) {
        let step = scheduler.scanner.start();
        scheduler.scanned(step)
    } else {
        Command::Rest
    }
}

/// The handler of the USB interrupt: has the transport polled, every time.
pub fn usb(scheduler: &mut Scheduler) -> (command: Command)
    requires
        old(scheduler).wf(),
    ensures
        final(scheduler).wf(),
        final(scheduler).config() == old(scheduler).config(),
        (final(scheduler)@, command@) == on_usb(old(scheduler)@),
{
    match scheduler.phase {
        Phase::Idle => {
            scheduler.phase = Phase::UsbServicing;
            scheduler.preempted = false;
            Command::Poll
        },
        Phase::TickRunning => {
            scheduler.phase = Phase::UsbServicing;
            scheduler.preempted = true;
            Command::Poll
        },
        Phase::UsbServicing => Command::Poll,
    }
}

} // verus!
