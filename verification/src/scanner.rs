//! The matrix scanner: which line to drive and which to read next, and the
//! snapshot that the readings add up to. The lines themselves are driven and
//! read by the firmware, which reports back after each step.

use crate::matrix::Snapshot;
use vstd::prelude::*;

verus! {

/// What the lines answered to the last step.
#[derive(Clone, Copy, Debug, PartialEq, Eq)]
pub enum LineResult {
    /// The output line has been driven as asked.
    Driven,
    /// The input line has been read: `true` where the switch is closed.
    Level(bool),
    /// The line could not be driven or read.
    Fault,
}

/// What the scanner asks for next.
#[derive(Debug, PartialEq, Eq)]
pub enum ScanStep {
    /// Drive an output line active or back to its inactive default.
    Drive { line: usize, active: bool },
    /// Read an input line.
    Read { line: usize },
    /// The scan is complete.
    Done(Snapshot),
    /// The scan has been given up: there is no snapshot.
    Failed,
}

/// A `ScanStep` with the bits of its snapshot as a sequence.
pub enum ScanStepView {
    Drive { line: usize, active: bool },
    Read { line: usize },
    Done(Seq<bool>),
    Failed,
}

impl View for ScanStep {
    type V = ScanStepView;

    open spec fn view(&self) -> ScanStepView {
        match *self {
            ScanStep::Drive { line, active } => ScanStepView::Drive { line, active },
            ScanStep::Read { line } => ScanStepView::Read { line },
            ScanStep::Done(snapshot) => ScanStepView::Done(snapshot@),
            ScanStep::Failed => ScanStepView::Failed,
        }
    }
}

/// Where a scan stands.
#[derive(Clone, Copy, Debug, PartialEq, Eq)]
pub enum ScanPhase {
    /// No scan is under way; every output line is inactive.
    Idle,
    /// The output line of the current row is being driven active.
    Activating,
    /// The current row is active and its input lines are being read.
    Reading,
    /// The output line of the current row is being driven back to inactive.
    Releasing,
    /// The same, after a fault: the scan fails once the line has answered.
    Aborting,
}

/// The state of a scan.
pub struct Scan {
    pub phase: ScanPhase,
    /// The row that is being scanned.
    pub row: usize,
    /// The column that is read next.
    pub col: usize,
    /// The levels read so far, in row-major order.
    pub bits: Seq<bool>,
}

/// The state between scans.
pub open spec fn at_rest() -> Scan {
    Scan { phase: ScanPhase::Idle, row: 0, col: 0, bits: Seq::empty() }
}

/// The start of a scan: the first row is driven active. A matrix without
/// positions is complete at once.
pub open spec fn start(rows: usize, cols: usize) -> (Scan, ScanStepView) {
    if rows == 0 || cols == 0 {
        (at_rest(), ScanStepView::Done(Seq::empty()))
    } else {
        (
            Scan { phase: ScanPhase::Activating, row: 0, col: 0, bits: Seq::empty() },
            ScanStepView::Drive { line: 0, active: true },
        )
    }
}

/// The step that gives a row up after a fault: its output line goes back to
/// inactive before the scan fails.
pub open spec fn abort(scan: Scan) -> (Scan, ScanStepView) {
    (
        Scan { phase: ScanPhase::Aborting, row: scan.row, col: scan.col, bits: scan.bits },
        ScanStepView::Drive { line: scan.row, active: false },
    )
}

/// The scan after the lines' answer to the last step. Row by row: the output
/// line is driven active, every input line is read, the output line is driven
/// back to inactive. An answer that is a fault, or not the one that the step
/// asked for, ends the scan without a snapshot.
pub open spec fn next(rows: usize, cols: usize, scan: Scan, result: LineResult) -> (
    Scan,
    ScanStepView,
) {
    match scan.phase {
        ScanPhase::Idle => (scan, ScanStepView::Failed),
        ScanPhase::Activating => match result {
            LineResult::Driven => (
                Scan { phase: ScanPhase::Reading, row: scan.row, col: 0, bits: scan.bits },
                ScanStepView::Read { line: 0 },
            ),
            _ => abort(scan),
        },
        ScanPhase::Reading => match result {
            LineResult::Level(level) => if scan.col + 1 < cols {
                (
                    Scan {
                        phase: ScanPhase::Reading,
                        row: scan.row,
                        col: (scan.col + 1) as usize,
                        bits: scan.bits.push(level),
                    },
                    ScanStepView::Read { line: (scan.col + 1) as usize },
                )
            } else {
                (
                    Scan {
                        phase: ScanPhase::Releasing,
                        row: scan.row,
                        col: 0,
                        bits: scan.bits.push(level),
                    },
                    ScanStepView::Drive { line: scan.row, active: false },
                )
            },
            _ => abort(scan),
        },
        ScanPhase::Releasing => match result {
            LineResult::Driven => if scan.row + 1 < rows {
                (
                    Scan {
                        phase: ScanPhase::Activating,
                        row: (scan.row + 1) as usize,
                        col: 0,
                        bits: scan.bits,
                    },
                    ScanStepView::Drive { line: (scan.row + 1) as usize, active: true },
                )
            } else {
                (at_rest(), ScanStepView::Done(scan.bits))
            },
            _ => (at_rest(), ScanStepView::Failed),
        },
        ScanPhase::Aborting => (at_rest(), ScanStepView::Failed),
    }
}

/// A state that a scan of `rows` by `cols` positions can be in: the levels
/// read so far are those of the rows before the current one and of the
/// columns before the next.
pub open spec fn scan_wf(rows: usize, cols: usize, scan: Scan) -> bool {
    match scan.phase {
        ScanPhase::Idle => scan == at_rest(),
        ScanPhase::Activating => scan.row < rows && scan.col == 0 && cols > 0 && scan.bits.len()
            == scan.row * cols,
        ScanPhase::Reading => scan.row < rows && scan.col < cols && scan.bits.len() == scan.row
            * cols + scan.col,
        ScanPhase::Releasing => scan.row < rows && scan.col == 0 && cols > 0 && scan.bits.len()
            == (scan.row + 1) * cols,
        ScanPhase::Aborting => scan.row < rows,
    }
}

/// The scan after a sequence of answers, oldest first, and the step that it
/// asks for then. The scan starts afresh, and each answer is the lines' answer
/// to the step before it.
pub open spec fn trace(rows: usize, cols: usize, results: Seq<LineResult>) -> (Scan, ScanStepView)
    decreases results.len(),
{
    if results.len() == 0 {
        start(rows, cols)
    } else {
        next(rows, cols, trace(rows, cols, results.drop_last()).0, results.last())
    }
}

/// The levels among a sequence of answers, in their order.
pub open spec fn levels_of(results: Seq<LineResult>) -> Seq<bool>
    decreases results.len(),
{
    if results.len() == 0 {
        Seq::empty()
    } else {
        match results.last() {
            LineResult::Level(level) => levels_of(results.drop_last()).push(level),
            _ => levels_of(results.drop_last()),
        }
    }
}

/// Whether a scan is going well: it is under way and has met no fault.
pub open spec fn on_course(scan: Scan) -> bool {
    scan.phase is Activating || scan.phase is Reading || scan.phase is Releasing
}

/// The snapshot is what the lines showed. Along any scan the state is one
/// that a scan can be in. While the scan is on course, the levels kept are
/// exactly the levels that the lines have answered, in the order of the
/// reads; where the step is a read of the input line `c` while row `r` is
/// active, its answer becomes the bit of position `(r, c)`; and the snapshot
/// of a complete scan holds one such bit for every position.
pub proof fn lemma_scan_records_levels(rows: usize, cols: usize, results: Seq<LineResult>)
    requires
        rows * cols <= usize::MAX,
    ensures
        scan_wf(rows, cols, trace(rows, cols, results).0),
        on_course(trace(rows, cols, results).0) ==> trace(rows, cols, results).0.bits
            == levels_of(results),
        trace(rows, cols, results).1 matches ScanStepView::Read { line } ==> {
            &&& trace(rows, cols, results).0.phase is Reading
            &&& line == trace(rows, cols, results).0.col
            &&& trace(rows, cols, results).0.bits.len() == trace(rows, cols, results).0.row * cols
                + line
        },
        trace(rows, cols, results).1 matches ScanStepView::Done(bits) ==> bits == levels_of(results)
            && bits.len() == rows * cols,
    decreases results.len(),
{
    if results.len() == 0 {
        assert(0 * cols == 0) by (nonlinear_arith);
        if rows == 0 || cols == 0 {
            assert(rows * cols == 0) by (nonlinear_arith)
                requires
                    rows == 0 || cols == 0,
            ;
        }
    } else {
        lemma_scan_records_levels(rows, cols, results.drop_last());
        let before = trace(rows, cols, results.drop_last()).0;
        assert((before.row + 1) * cols == before.row * cols + cols) by (nonlinear_arith);
        if before.phase is Releasing && before.row + 1 >= rows {
            assert(before.row + 1 == rows);
        }
    }
}

/// Whether an answer is the one that a step asks for.
pub open spec fn fits(step: ScanStepView, result: LineResult) -> bool {
    match step {
        ScanStepView::Drive { .. } => result is Driven,
        ScanStepView::Read { .. } => result is Level,
        _ => false,
    }
}

/// Whether every answer is the one that the step before it asked for: no
/// line has faulted, and none has answered out of turn.
pub open spec fn in_turn(rows: usize, cols: usize, results: Seq<LineResult>) -> bool
    decreases results.len(),
{
    results.len() == 0 || (in_turn(rows, cols, results.drop_last()) && fits(
        trace(rows, cols, results.drop_last()).1,
        results.last(),
    ))
}

/// How many answers a scan on course has taken in: two for each row that it
/// has driven and released, and one for each level.
pub open spec fn answered(cols: usize, scan: Scan) -> int {
    match scan.phase {
        ScanPhase::Activating => scan.row * (cols + 2),
        ScanPhase::Reading => scan.row * (cols + 2) + 1 + scan.col,
        ScanPhase::Releasing => scan.row * (cols + 2) + 1 + cols,
        _ => 0,
    }
}

/// A scan without faults is complete after two answers for each row and one
/// for each position, and not before: until then it is on course, and the
/// step after the last of them is the snapshot of the levels that the lines
/// have answered.
pub proof fn lemma_scan_completes(rows: usize, cols: usize, results: Seq<LineResult>)
    requires
        rows * cols <= usize::MAX,
        rows > 0,
        cols > 0,
        in_turn(rows, cols, results),
    ensures
        results.len() <= rows * (cols + 2),
        results.len() < rows * (cols + 2) ==> on_course(trace(rows, cols, results).0) && answered(
            cols,
            trace(rows, cols, results).0,
        ) == results.len(),
        results.len() == rows * (cols + 2) ==> trace(rows, cols, results).1 == ScanStepView::Done(
            levels_of(results),
        ) && levels_of(results).len() == rows * cols,
    decreases results.len(),
{
    lemma_scan_records_levels(rows, cols, results);
    let total = rows * (cols + 2);
    assert(total >= cols + 2) by (nonlinear_arith)
        requires
            rows >= 1,
            total == rows * (cols + 2),
    ;
    if results.len() == 0 {
        assert(0 * (cols + 2) == 0) by (nonlinear_arith);
    } else {
        lemma_scan_completes(rows, cols, results.drop_last());
        lemma_scan_records_levels(rows, cols, results.drop_last());
        let before = trace(rows, cols, results.drop_last()).0;
        if results.len() - 1 == total {
            // a complete scan asks for nothing more
            assert(!fits(trace(rows, cols, results.drop_last()).1, results.last()));
        } else {
            assert(on_course(before));
            assert((before.row + 1) * (cols + 2) == before.row * (cols + 2) + cols + 2)
                by (nonlinear_arith);
            assert((before.row + 1) * (cols + 2) <= total) by (nonlinear_arith)
                requires
                    before.row + 1 <= rows,
                    total == rows * (cols + 2),
            ;
            if results.len() == total && before.phase is Releasing {
                assert(before.row + 1 == rows) by (nonlinear_arith)
                    requires
                        (before.row + 1) * (cols + 2) == rows * (cols + 2),
                        cols + 2 > 0,
                ;
            }
        }
    }
}

/// The rows are left inactive. A row is driven active only on the way into
/// its reads; whatever ends its reads, a fault too, asks for the row to be
/// driven back; and the scan ends, with a snapshot or without, only on the
/// answer to that step, or when no row was active.
pub proof fn lemma_rows_released(rows: usize, cols: usize, scan: Scan, result: LineResult)
    ensures
        next(rows, cols, scan, result).1 matches ScanStepView::Drive { line, active }
            ==> if active {
            next(rows, cols, scan, result).0.phase is Activating && next(
                rows,
                cols,
                scan,
                result,
            ).0.row == line
        } else {
            (scan.phase is Activating || scan.phase is Reading) && line == scan.row
        },
        (scan.phase is Activating || scan.phase is Reading) && !(next(
            rows,
            cols,
            scan,
            result,
        ).0.phase is Reading) ==> next(rows, cols, scan, result).1 == (ScanStepView::Drive {
            line: scan.row,
            active: false,
        }),
        next(rows, cols, scan, result).1 is Done ==> scan.phase is Releasing && result is Driven,
        next(rows, cols, scan, result).1 is Failed ==> scan.phase is Idle || scan.phase
            is Releasing || scan.phase is Aborting,
{
}

/// The output line that the scan has driven last, and whether it has driven
/// it active: the latest of its steps that is a `Drive`, if there is one.
pub open spec fn last_drive(rows: usize, cols: usize, results: Seq<LineResult>) -> Option<
    (usize, bool),
>
    decreases results.len(),
{
    match trace(rows, cols, results).1 {
        ScanStepView::Drive { line, active } => Some((line, active)),
        _ => if results.len() == 0 {
            None
        } else {
            last_drive(rows, cols, results.drop_last())
        },
    }
}

/// No row stays active. Whatever the lines answer, a row has been driven
/// active last only while the scan is driving it or reading its columns; on
/// the way out of its reads the same row is driven back; and whenever no
/// scan is under way, the last that any output line was asked is to be
/// inactive.
pub proof fn lemma_no_row_stays_active(rows: usize, cols: usize, results: Seq<LineResult>)
    ensures
        match trace(rows, cols, results).0.phase {
            ScanPhase::Activating | ScanPhase::Reading => last_drive(rows, cols, results) == Some(
                (trace(rows, cols, results).0.row, true),
            ),
            ScanPhase::Releasing | ScanPhase::Aborting => last_drive(rows, cols, results) == Some(
                (trace(rows, cols, results).0.row, false),
            ),
            ScanPhase::Idle => last_drive(rows, cols, results) matches Some(drive) ==> !drive.1,
        },
    decreases results.len(),
{
    if results.len() > 0 {
        lemma_no_row_stays_active(rows, cols, results.drop_last());
    }
}

/// The matrix scanner.
pub struct Scanner {
    rows: usize,
    cols: usize,
    phase: ScanPhase,
    row: usize,
    col: usize,
    bits: Vec<bool>,
}

impl View for Scanner {
    type V = Scan;

    closed spec fn view(&self) -> Scan {
        Scan { phase: self.phase, row: self.row, col: self.col, bits: self.bits@ }
    }
}

impl Scanner {
    /// Number of rows: the output lines.
    pub closed spec fn spec_rows(&self) -> usize {
        self.rows
    }

    /// Number of columns: the input lines.
    pub closed spec fn spec_cols(&self) -> usize {
        self.cols
    }

    /// The scan is in a state that it can be in, and a snapshot of the matrix
    /// fits the machine's word.
    pub open spec fn wf(&self) -> bool {
        &&& self.spec_rows() * self.spec_cols() <= usize::MAX
        &&& scan_wf(self.spec_rows(), self.spec_cols(), self@)
    }

    /// A scanner for a matrix of `rows` output lines by `cols` input lines;
    /// `None` when `rows * cols` does not fit the machine's word.
    pub fn new(rows: usize, cols: usize) -> (res: Option<Scanner>)
        ensures
            res is Some <==> rows * cols <= usize::MAX,
            res matches Some(scanner) ==> scanner.wf() && scanner.spec_rows() == rows
                && scanner.spec_cols() == cols && scanner@ == at_rest(),
    {
        match rows.checked_mul(cols) {
            Some(_) => Some(
                Scanner { rows, cols, phase: ScanPhase::Idle, row: 0, col: 0, bits: Vec::new() },
            ),
            None => None,
        }
    }

    /// Number of rows: the output lines.
    pub fn rows(&self) -> (n: usize)
        ensures
            n == self.spec_rows(),
    {
        self.rows
    }

    /// Number of columns: the input lines.
    pub fn cols(&self) -> (n: usize)
        ensures
            n == self.spec_cols(),
    {
        self.cols
    }

    /// Whether a scan is under way.
    pub fn busy(&self) -> (res: bool)
        ensures
            res == !(self@.phase is Idle),
    {
        !matches!(self.phase, ScanPhase::Idle)
    }

    /// Puts the scanner at rest.
    fn rest(&mut self)
        ensures
            final(self)@ == at_rest(),
            final(self).spec_rows() == old(self).spec_rows(),
            final(self).spec_cols() == old(self).spec_cols(),
    {
        self.phase = ScanPhase::Idle;
        self.row = 0;
        self.col = 0;
        self.bits = Vec::new();
    }

    /// Gives the current row up.
    fn abort(&mut self) -> (step: ScanStep)
        ensures
            final(self).spec_rows() == old(self).spec_rows(),
            final(self).spec_cols() == old(self).spec_cols(),
            (final(self)@, step@) == abort(old(self)@),
    {
        self.phase = ScanPhase::Aborting;
        ScanStep::Drive { line: self.row, active: false }
    }

    /// Starts a scan, whatever the scanner was doing.
    pub fn start(&mut self) -> (step: ScanStep)
        requires
            old(self).wf(),
        ensures
            final(self).wf(),
            final(self).spec_rows() == old(self).spec_rows(),
            final(self).spec_cols() == old(self).spec_cols(),
            (final(self)@, step@) == start(old(self).spec_rows(), old(self).spec_cols()),
            step matches ScanStep::Done(snapshot) ==> snapshot.wf() && snapshot.spec_rows()
                == old(self).spec_rows() && snapshot.spec_cols() == old(self).spec_cols(),
    {
        self.rest();
        if self.rows == 0 || self.cols == 0 {
            proof {
                assert(self.rows * self.cols == 0) by (nonlinear_arith)
                    requires
                        self.rows == 0 || self.cols == 0,
                ;
            }
            match Snapshot::new(self.rows, self.cols, Vec::new()) {
                Some(snapshot) => ScanStep::Done(snapshot),
                None => ScanStep::Failed,
            }
        } else {
            self.phase = ScanPhase::Activating;
            proof {
                assert(0 * self.cols == 0) by (nonlinear_arith);
            }
            ScanStep::Drive { line: 0, active: true }
        }
    }

    /// Takes in the lines' answer to the last step and says what to do next.
    pub fn advance(&mut self, result: LineResult) -> (step: ScanStep)
        requires
            old(self).wf(),
        ensures
            final(self).wf(),
            final(self).spec_rows() == old(self).spec_rows(),
            final(self).spec_cols() == old(self).spec_cols(),
            (final(self)@, step@) == next(
                old(self).spec_rows(),
                old(self).spec_cols(),
                old(self)@,
                result,
            ),
            step matches ScanStep::Done(snapshot) ==> snapshot.wf() && snapshot.spec_rows()
                == old(self).spec_rows() && snapshot.spec_cols() == old(self).spec_cols(),
    {
        match self.phase {
            ScanPhase::Idle => ScanStep::Failed,
            ScanPhase::Activating => match result {
                LineResult::Driven => {
                    self.phase = ScanPhase::Reading;
                    self.col = 0;
                    ScanStep::Read { line: 0 }
                },
                _ => self.abort(),
            },
            ScanPhase::Reading => match result {
                LineResult::Level(level) => {
                    self.bits.push(level);
                    if self.col + 1 < self.cols {
                        self.col = self.col + 1;
                        ScanStep::Read { line: self.col }
                    } else {
                        self.phase = ScanPhase::Releasing;
                        self.col = 0;
                        proof {
                            assert((self.row + 1) * self.cols == self.row * self.cols + self.cols)
                                by (nonlinear_arith);
                        }
                        ScanStep::Drive { line: self.row, active: false }
                    }
                },
                _ => self.abort(),
            },
            ScanPhase::Releasing => match result {
                LineResult::Driven => {
                    if self.row + 1 < self.rows {
                        self.phase = ScanPhase::Activating;
                        self.row = self.row + 1;
                        ScanStep::Drive { line: self.row, active: true }
                    } else {
                        let mut bits: Vec<bool> = Vec::new();
                        core::mem::swap(&mut bits, &mut self.bits);
                        self.rest();
                        match Snapshot::new(self.rows, self.cols, bits) {
                            Some(snapshot) => ScanStep::Done(snapshot),
                            None => ScanStep::Failed,
                        }
                    }
                },
                _ => {
                    self.rest();
                    ScanStep::Failed
                },
            },
            ScanPhase::Aborting => {
                self.rest();
                ScanStep::Failed
            },
        }
    }
}

} // verus!
