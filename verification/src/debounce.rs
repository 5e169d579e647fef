//! Debouncing: a key position changes its confirmed state only after the raw
//! signal has held the new value for a configured number of consecutive scans.

use crate::matrix::{lemma_index_in_grid, Snapshot};
use vstd::prelude::*;

verus! {

/// A confirmed transition of one key position.
#[derive(Clone, Copy, Debug, PartialEq, Eq, Structural)]
pub struct KeyEvent {
    pub row: usize,
    pub col: usize,
    /// `true` for a press, `false` for a release.
    pub pressed: bool,
}

/// The debounce state of one key position.
#[derive(Clone, Copy, Debug, PartialEq, Eq, Structural)]
pub struct Cell {
    /// The last confirmed value.
    pub confirmed: bool,
    /// The value that the latest samples are counted for.
    pub candidate: bool,
    /// How many consecutive samples have held `candidate` against `confirmed`.
    pub run: u16,
}

/// The length of the run once `sample` has been counted.
pub open spec fn next_run(cell: Cell, sample: bool) -> int {
    if sample == cell.confirmed {
        0
    } else if sample == cell.candidate {
        cell.run + 1
    } else {
        1
    }
}

/// Whether `sample` completes a run of `threshold` samples against the
/// confirmed value, and so confirms a transition.
pub open spec fn fires(cell: Cell, threshold: u16, sample: bool) -> bool {
    sample != cell.confirmed && next_run(cell, sample) >= threshold
}

/// The state of a position after one more raw sample.
pub open spec fn step(cell: Cell, threshold: u16, sample: bool) -> Cell {
    if sample == cell.confirmed {
        Cell { confirmed: cell.confirmed, candidate: cell.candidate, run: 0 }
    } else if fires(cell, threshold, sample) {
        Cell { confirmed: sample, candidate: cell.confirmed, run: 0 }
    } else {
        Cell { confirmed: cell.confirmed, candidate: sample, run: next_run(cell, sample) as u16 }
    }
}

/// The state of a position after a sequence of raw samples, oldest first.
pub open spec fn after(cell: Cell, threshold: u16, samples: Seq<bool>) -> Cell
    decreases samples.len(),
{
    if samples.len() == 0 {
        cell
    } else {
        step(after(cell, threshold, samples.drop_last()), threshold, samples.last())
    }
}

/// Whether the sample of index `i` in `samples` confirms a transition.
pub open spec fn fires_at(cell: Cell, threshold: u16, samples: Seq<bool>, i: int) -> bool {
    fires(after(cell, threshold, samples.take(i)), threshold, samples[i])
}

/// Every position after one more snapshot.
pub open spec fn stepped(cells: Seq<Cell>, threshold: u16, bits: Seq<bool>) -> Seq<Cell> {
    Seq::new(cells.len(), |i: int| step(cells[i], threshold, bits[i]))
}

/// The transitions that a snapshot confirms among the first `k` positions, in
/// row-major order.
pub open spec fn events_upto(
    cells: Seq<Cell>,
    threshold: u16,
    bits: Seq<bool>,
    cols: nat,
    k: nat,
) -> Seq<KeyEvent>
    decreases k,
{
    if k == 0 {
        Seq::empty()
    } else {
        let i = k - 1;
        let before = events_upto(cells, threshold, bits, cols, i as nat);
        if fires(cells[i], threshold, bits[i]) {
            before.push(
                KeyEvent {
                    row: (i / cols as int) as usize,
                    col: (i % cols as int) as usize,
                    pressed: bits[i],
                },
            )
        } else {
            before
        }
    }
}

/// The row-major index of the position that an event names.
pub open spec fn position(event: KeyEvent, cols: nat) -> int {
    event.row * cols + event.col
}

/// From a position at rest, fewer samples than the threshold leave the
/// confirmed value alone, and the run is no longer than the samples.
proof fn lemma_short_run(cell: Cell, threshold: u16, samples: Seq<bool>)
    requires
        threshold >= 1,
        cell.run == 0,
        samples.len() < threshold,
    ensures
        after(cell, threshold, samples).confirmed == cell.confirmed,
        after(cell, threshold, samples).run <= samples.len(),
    decreases samples.len(),
{
    if samples.len() > 0 {
        lemma_short_run(cell, threshold, samples.drop_last());
    }
}

/// From a position at rest, `k` samples of the other value, `k` below the
/// threshold, are all counted and confirm nothing yet.
proof fn lemma_counting(cell: Cell, threshold: u16, value: bool, k: nat)
    requires
        threshold >= 1,
        cell.run == 0,
        value != cell.confirmed,
        k < threshold,
    ensures
        after(cell, threshold, Seq::new(k, |i: int| value)).confirmed == cell.confirmed,
        after(cell, threshold, Seq::new(k, |i: int| value)).run == k,
        k > 0 ==> after(cell, threshold, Seq::new(k, |i: int| value)).candidate == value,
    decreases k,
{
    if k > 0 {
        lemma_counting(cell, threshold, value, (k - 1) as nat);
        assert(Seq::new(k, |i: int| value).drop_last() =~= Seq::new(
            (k - 1) as nat,
            |i: int| value,
        ));
    }
}

/// Absorption. A position at rest that sees a burst of fewer samples than the
/// threshold, whatever their values, and then its confirmed value again,
/// confirms no transition at any of these samples and is at rest afterwards
/// with the confirmed value it had.
pub proof fn lemma_burst_absorbed(cell: Cell, threshold: u16, burst: Seq<bool>)
    requires
        threshold >= 1,
        cell.run == 0,
        burst.len() < threshold,
    ensures
        forall|i: int|
            0 <= i <= burst.len() ==> !fires_at(
                cell,
                threshold,
                burst.push(cell.confirmed),
                i,
            ),
        after(cell, threshold, burst.push(cell.confirmed)).confirmed == cell.confirmed,
        after(cell, threshold, burst.push(cell.confirmed)).run == 0,
{
    let samples = burst.push(cell.confirmed);
    assert forall|i: int| 0 <= i <= burst.len() implies !fires_at(cell, threshold, samples, i) by {
        lemma_short_run(cell, threshold, samples.take(i));
    }
    assert(samples.drop_last() =~= burst);
    lemma_short_run(cell, threshold, burst);
}

/// From a position at rest, the run counts the latest samples: they all hold
/// the candidate against the confirmed value, and the run is shorter than the
/// threshold.
proof fn lemma_run_counts(cell: Cell, threshold: u16, samples: Seq<bool>)
    requires
        threshold >= 1,
        cell.run == 0,
    ensures
        after(cell, threshold, samples).run <= samples.len(),
        after(cell, threshold, samples).run < threshold,
        forall|j: int|
            samples.len() - after(cell, threshold, samples).run <= j < samples.len() ==> samples[j]
                == after(cell, threshold, samples).candidate && samples[j] != after(
                cell,
                threshold,
                samples,
            ).confirmed,
    decreases samples.len(),
{
    if samples.len() > 0 {
        let rest = samples.drop_last();
        lemma_run_counts(cell, threshold, rest);
        let now = after(cell, threshold, samples);
        assert forall|j: int| samples.len() - now.run <= j < samples.len() implies samples[j]
            == now.candidate && samples[j] != now.confirmed by {
            if j < rest.len() {
                assert(rest[j] == samples[j]);
            }
        }
    }
}

/// A transition is confirmed only after a full run. Where a sample confirms
/// a transition of a position that began at rest, it is at least the sample
/// of index `threshold - 1`, and it and the samples before it, `threshold` in
/// all, hold one value, which is not the value confirmed until then.
pub proof fn lemma_confirmed_after_run(cell: Cell, threshold: u16, samples: Seq<bool>, i: int)
    requires
        threshold >= 1,
        cell.run == 0,
        0 <= i < samples.len(),
        fires_at(cell, threshold, samples, i),
    ensures
        i >= threshold - 1,
        forall|j: int| i - threshold < j <= i ==> samples[j] == samples[i],
        samples[i] != after(cell, threshold, samples.take(i)).confirmed,
        after(cell, threshold, samples.take(i + 1)).confirmed == samples[i],
{
    let seen = samples.take(i);
    lemma_run_counts(cell, threshold, seen);
    assert forall|j: int| i - threshold < j <= i implies samples[j] == samples[i] by {
        if j < i {
            assert(seen[j] == samples[j]);
        }
    }
    assert(samples.take(i + 1).drop_last() =~= seen);
}

/// Confirmation. A position at rest that sees the other value for exactly as
/// many consecutive samples as the threshold confirms the transition at the
/// last of them and at none before, and then holds the new value.
pub proof fn lemma_held_confirms(cell: Cell, threshold: u16, value: bool, held: Seq<bool>)
    requires
        threshold >= 1,
        cell.run == 0,
        value != cell.confirmed,
        held.len() == threshold,
        forall|j: int| 0 <= j < held.len() ==> held[j] == value,
    ensures
        forall|i: int| 0 <= i < threshold - 1 ==> !fires_at(cell, threshold, held, i),
        fires_at(cell, threshold, held, threshold - 1),
        after(cell, threshold, held) == (Cell {
            confirmed: value,
            candidate: cell.confirmed,
            run: 0,
        }),
{
    assert forall|i: int| 0 <= i < threshold implies (fires_at(cell, threshold, held, i) <==> i
        == threshold - 1) by {
        lemma_counting(cell, threshold, value, i as nat);
        assert(held.take(i) =~= Seq::new(i as nat, |j: int| value));
    }
    lemma_counting(cell, threshold, value, (threshold - 1) as nat);
    assert(held.drop_last() =~= Seq::new((threshold - 1) as nat, |j: int| value));
}

/// The transitions of one snapshot come in row-major order, each names a
/// position among the first `k` that confirms one, with the sample as its
/// polarity, and no position is named twice.
pub proof fn lemma_events_in_order(
    cells: Seq<Cell>,
    threshold: u16,
    bits: Seq<bool>,
    cols: nat,
    k: nat,
)
    requires
        cols > 0,
        k <= cells.len(),
        k <= bits.len(),
        k <= usize::MAX,
    ensures
        forall|j: int|
            0 <= j < events_upto(cells, threshold, bits, cols, k).len() ==> {
                let event = #[trigger] events_upto(cells, threshold, bits, cols, k)[j];
                &&& 0 <= position(event, cols) < k
                &&& event.col < cols
                &&& fires(cells[position(event, cols)], threshold, bits[position(event, cols)])
                &&& event.pressed == bits[position(event, cols)]
            },
        forall|a: int, b: int|
            0 <= a < b < events_upto(cells, threshold, bits, cols, k).len() ==> position(
                events_upto(cells, threshold, bits, cols, k)[a],
                cols,
            ) < position(events_upto(cells, threshold, bits, cols, k)[b], cols),
    decreases k,
{
    if k > 0 {
        let i = k - 1;
        let before = events_upto(cells, threshold, bits, cols, i as nat);
        let events = events_upto(cells, threshold, bits, cols, k);
        lemma_events_in_order(cells, threshold, bits, cols, i as nat);
        if fires(cells[i], threshold, bits[i]) {
            let event = events.last();
            vstd::arithmetic::div_mod::lemma_fundamental_div_mod(i, cols as int);
            vstd::arithmetic::div_mod::lemma_div_pos_is_pos(i, cols as int);
            vstd::arithmetic::div_mod::lemma_mod_pos_bound(i, cols as int);
            assert(0 <= cols * (i / cols as int) && cols * (i / cols as int) == (i / cols as int)
                * cols && i / cols as int <= cols * (i / cols as int)) by (nonlinear_arith)
                requires
                    cols > 0,
                    i / cols as int >= 0,
            ;
            assert(position(event, cols) == i);
            assert forall|j: int| 0 <= j < events.len() implies {
                let e = #[trigger] events[j];
                &&& 0 <= position(e, cols) < k
                &&& e.col < cols
                &&& fires(cells[position(e, cols)], threshold, bits[position(e, cols)])
                &&& e.pressed == bits[position(e, cols)]
            } by {
                if j < before.len() {
                    assert(events[j] == before[j]);
                }
            }
            assert forall|a: int, b: int| 0 <= a < b < events.len() implies position(
                events[a],
                cols,
            ) < position(events[b], cols) by {
                assert(events[a] == before[a]);
                if b < before.len() {
                    assert(events[b] == before[b]);
                }
            }
        }
    }
}

/// Every transition is reported. A position among the first `k` at which the
/// snapshot confirms a transition has its event among the transitions.
pub proof fn lemma_events_complete(
    cells: Seq<Cell>,
    threshold: u16,
    bits: Seq<bool>,
    cols: nat,
    k: nat,
    p: int,
)
    requires
        0 <= p < k,
        k <= cells.len(),
        k <= bits.len(),
        fires(cells[p], threshold, bits[p]),
    ensures
        events_upto(cells, threshold, bits, cols, k).contains(
            KeyEvent {
                row: (p / cols as int) as usize,
                col: (p % cols as int) as usize,
                pressed: bits[p],
            },
        ),
    decreases k,
{
    let event = KeyEvent {
        row: (p / cols as int) as usize,
        col: (p % cols as int) as usize,
        pressed: bits[p],
    };
    let events = events_upto(cells, threshold, bits, cols, k);
    if p == k - 1 {
        assert(events[events.len() - 1] == event);
    } else {
        let before = events_upto(cells, threshold, bits, cols, (k - 1) as nat);
        lemma_events_complete(cells, threshold, bits, cols, (k - 1) as nat, p);
        let j = choose|j: int| 0 <= j < before.len() && before[j] == event;
        assert(events[j] == event);
    }
}

/// The positions' states after a sequence of snapshots, oldest first.
pub open spec fn stepped_all(cells: Seq<Cell>, threshold: u16, snapshots: Seq<Seq<bool>>) -> Seq<
    Cell,
>
    decreases snapshots.len(),
{
    if snapshots.len() == 0 {
        cells
    } else {
        stepped(
            stepped_all(cells, threshold, snapshots.drop_last()),
            threshold,
            snapshots.last(),
        )
    }
}

/// The samples that one position sees in a sequence of snapshots.
pub open spec fn samples_at(snapshots: Seq<Seq<bool>>, p: int) -> Seq<bool> {
    Seq::new(snapshots.len(), |j: int| snapshots[j][p])
}

/// Each position is debounced on its own. Its state after a sequence of
/// snapshots is its state after the samples that it saw in them, whatever the
/// other positions did.
pub proof fn lemma_position_follows_samples(
    cells: Seq<Cell>,
    threshold: u16,
    snapshots: Seq<Seq<bool>>,
    p: int,
)
    requires
        0 <= p < cells.len(),
    ensures
        stepped_all(cells, threshold, snapshots).len() == cells.len(),
        stepped_all(cells, threshold, snapshots)[p] == after(
            cells[p],
            threshold,
            samples_at(snapshots, p),
        ),
    decreases snapshots.len(),
{
    if snapshots.len() > 0 {
        lemma_position_follows_samples(cells, threshold, snapshots.drop_last(), p);
        assert(samples_at(snapshots, p).drop_last() =~= samples_at(snapshots.drop_last(), p));
    }
}

/// The per-position debounce state of a whole key matrix.
pub struct Debouncer {
    rows: usize,
    cols: usize,
    threshold: u16,
    cells: Vec<Cell>,
}

impl View for Debouncer {
    type V = Seq<Cell>;

    /// The positions' states in row-major order.
    closed spec fn view(&self) -> Seq<Cell> {
        self.cells@
    }
}

impl Debouncer {
    /// Number of rows.
    pub closed spec fn spec_rows(&self) -> nat {
        self.rows as nat
    }

    /// Number of columns.
    pub closed spec fn spec_cols(&self) -> nat {
        self.cols as nat
    }

    /// How many consecutive samples confirm a transition.
    pub closed spec fn spec_threshold(&self) -> u16 {
        self.threshold
    }

    /// One state per position, a threshold of at least one sample, and no run
    /// that has reached the threshold.
    pub open spec fn wf(&self) -> bool {
        &&& self@.len() == self.spec_rows() * self.spec_cols()
        &&& self.spec_threshold() >= 1
        &&& forall|i: int|
            0 <= i < self@.len() ==> (#[trigger] self@[i]).run < self.spec_threshold()
    }

    /// The confirmed value of position `(r, c)`.
    pub open spec fn confirmed_at(&self, r: int, c: int) -> bool {
        self@[r * self.spec_cols() + c].confirmed
    }

    /// A debouncer that starts from the confirmed values in `confirmed`, with
    /// `candidate` as the values that runs are first counted for. `None` when
    /// `threshold` is zero or the two snapshots differ in their dimensions.
    pub fn new(confirmed: &Snapshot, candidate: &Snapshot, threshold: u16) -> (res: Option<
        Debouncer,
    >)
        requires
            confirmed.wf(),
            candidate.wf(),
        ensures
            res is Some <==> threshold >= 1 && confirmed.spec_rows() == candidate.spec_rows()
                && confirmed.spec_cols() == candidate.spec_cols(),
            res matches Some(d) ==> {
                &&& d.wf()
                &&& d.spec_rows() == confirmed.spec_rows()
                &&& d.spec_cols() == confirmed.spec_cols()
                &&& d.spec_threshold() == threshold
                &&& d@.len() == confirmed@.len()
                &&& forall|i: int|
                    0 <= i < d@.len() ==> d@[i] == (Cell {
                        confirmed: confirmed@[i],
                        candidate: candidate@[i],
                        run: 0,
                    })
            },
    {
        if threshold == 0 || confirmed.rows() != candidate.rows() || confirmed.cols()
            != candidate.cols() {
            return None;
        }
        let rows: usize = confirmed.rows();
        let cols: usize = confirmed.cols();
        let mut cells: Vec<Cell> = Vec::new();
        let mut i: usize = 0;
        while i < confirmed.len()
            invariant
                confirmed@.len() == candidate@.len(),
                i <= confirmed@.len(),
                cells@.len() == i,
                forall|j: int|
                    0 <= j < i ==> cells@[j] == (Cell {
                        confirmed: confirmed@[j],
                        candidate: candidate@[j],
                        run: 0,
                    }),
            decreases confirmed@.len() - i,
        {
            cells.push(Cell { confirmed: confirmed.bit(i), candidate: candidate.bit(i), run: 0 });
            i += 1;
        }
        Some(Debouncer { rows, cols, threshold, cells })
    }

    /// Number of rows.
    pub fn rows(&self) -> (n: usize)
        ensures
            n == self.spec_rows(),
    {
        self.rows
    }

    /// Number of columns.
    pub fn cols(&self) -> (n: usize)
        ensures
            n == self.spec_cols(),
    {
        self.cols
    }

    /// How many consecutive samples confirm a transition.
    pub fn threshold(&self) -> (n: u16)
        ensures
            n == self.spec_threshold(),
    {
        self.threshold
    }

    /// The confirmed value of the key at `(r, c)`; `None` outside the matrix.
    pub fn confirmed(&self, r: usize, c: usize) -> (res: Option<bool>)
        requires
            self.wf(),
        ensures
            res is Some <==> r < self.spec_rows() && c < self.spec_cols(),
            res matches Some(b) ==> b == self.confirmed_at(r as int, c as int),
    {
        let len: usize = self.cells.len();
        if r < self.rows && c < self.cols {
            proof {
                lemma_index_in_grid(self.rows as nat, self.cols as nat, r as nat, c as nat);
                assert(0 <= r * self.cols) by (nonlinear_arith);
                assert(r * self.cols + c < len);
            }
            Some(self.cells[r * self.cols + c].confirmed)
        } else {
            None
        }
    }

    /// Takes in one snapshot and returns the transitions that it confirms, in
    /// row-major order: at most one per position. `None`, with the state left
    /// as it was, when the snapshot has other dimensions than the debouncer.
    pub fn update(&mut self, snapshot: &Snapshot) -> (res: Option<Vec<KeyEvent>>)
        requires
            old(self).wf(),
            snapshot.wf(),
        ensures
            final(self).wf(),
            final(self).spec_rows() == old(self).spec_rows(),
            final(self).spec_cols() == old(self).spec_cols(),
            final(self).spec_threshold() == old(self).spec_threshold(),
            res is Some <==> snapshot.spec_rows() == old(self).spec_rows() && snapshot.spec_cols()
                == old(self).spec_cols(),
            res is None ==> final(self)@ == old(self)@,
            res matches Some(events) ==> {
                &&& final(self)@ == stepped(old(self)@, old(self).spec_threshold(), snapshot@)
                &&& events@ == events_upto(
                    old(self)@,
                    old(self).spec_threshold(),
                    snapshot@,
                    old(self).spec_cols(),
                    old(self)@.len(),
                )
            },
    {
        if snapshot.rows() != self.rows || snapshot.cols() != self.cols {
            return None;
        }
        let len: usize = self.cells.len();
        let mut events: Vec<KeyEvent> = Vec::new();
        let mut i: usize = 0;
        let mut row: usize = 0;
        let mut col: usize = 0;
        proof {
            assert(len > 0 ==> self.cols > 0) by (nonlinear_arith)
                requires
                    len == self.rows * self.cols,
            ;
        }
        while i < len
            invariant
                len == old(self)@.len(),
                len == snapshot@.len(),
                len == self.rows * self.cols,
                self.cells@.len() == len,
                self.rows == old(self).rows,
                self.cols == old(self).cols,
                self.threshold == old(self).threshold,
                self.threshold >= 1,
                i <= len,
                i == row * self.cols + col,
                i < len ==> col < self.cols,
                forall|j: int|
                    0 <= j < i ==> self.cells@[j] == step(
                        old(self)@[j],
                        self.threshold,
                        snapshot@[j],
                    ),
                forall|j: int| i <= j < len ==> self.cells@[j] == old(self)@[j],
                forall|j: int| 0 <= j < len ==> (#[trigger] old(self)@[j]).run < self.threshold,
                events@ == events_upto(
                    old(self)@,
                    self.threshold,
                    snapshot@,
                    self.cols as nat,
                    i as nat,
                ),
            decreases len - i,
        {
            let cell = self.cells[i];
            let sample = snapshot.bit(i);
            proof {
                assert(cell == old(self)@[i as int]);
                assert(cell.run < self.threshold);
                assert(row < self.rows) by (nonlinear_arith)
                    requires
                        row * self.cols + col < self.rows * self.cols,
                        col >= 0,
                        self.cols >= 0,
                        row >= 0,
                        self.rows >= 0,
                ;
                lemma_index_in_grid(self.rows as nat, self.cols as nat, row as nat, col as nat);
            }
            if sample == cell.confirmed {
                self.cells[i] =
                Cell { confirmed: cell.confirmed, candidate: cell.candidate, run: 0 };
            } else {
                let run: u16 = if sample == cell.candidate {
                    cell.run + 1
                } else {
                    1
                };
                if run >= self.threshold {
                    self.cells[i] = Cell { confirmed: sample, candidate: cell.confirmed, run: 0 };
                    events.push(KeyEvent { row, col, pressed: sample });
                } else {
                    self.cells[i] = Cell { confirmed: cell.confirmed, candidate: sample, run };
                }
            }
            i += 1;
            col += 1;
            if col == self.cols {
                col = 0;
                row += 1;
                proof {
                    assert((row - 1) * self.cols + self.cols == row * self.cols)
                        by (nonlinear_arith);
                }
            }
        }
        proof {
            assert(self.cells@ =~= stepped(old(self)@, self.threshold, snapshot@));
        }
        Some(events)
    }
}

} // verus!
