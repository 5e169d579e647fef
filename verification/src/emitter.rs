//! The report emitter: one report per tick, offered to the transport at most
//! as often as its budget allows, then dropped in favour of the next tick's.

use crate::report::{report, report_bytes};
use vstd::prelude::*;

verus! {

/// What the transport said to a write.
#[derive(Clone, Copy, Debug, PartialEq, Eq)]
pub enum WriteOutcome {
    /// It took the report.
    Accepted,
    /// It is not ready: nothing was taken.
    Pending,
    /// The write failed: no further write of this report will do.
    Failed,
}

/// How the emission of a report ended.
#[derive(Clone, Copy, Debug, PartialEq, Eq)]
pub enum Transmission {
    /// The transport took the report.
    Delivered,
    /// The budget ran out or the write failed: the report is given up.
    Dropped,
}

/// What the emitter asks for next.
#[derive(Clone, Copy, Debug, PartialEq, Eq)]
pub enum EmitStep {
    /// Offer these bytes to the transport and come back with its answer.
    Write([u8; 7]),
    /// Nothing more: the emission has ended.
    Done(Transmission),
}

/// An `EmitStep` with its bytes as a sequence.
pub enum StepView {
    Write(Seq<u8>),
    Done(Transmission),
}

impl View for EmitStep {
    type V = StepView;

    open spec fn view(&self) -> StepView {
        match *self {
            EmitStep::Write(bytes) => StepView::Write(bytes@),
            EmitStep::Done(end) => StepView::Done(end),
        }
    }
}

/// The state of an emission.
pub struct Emission {
    /// How many writes of the report in flight the transport has turned down.
    pub failed: nat,
    /// The report that is being offered, if any.
    pub in_flight: Option<Seq<u8>>,
}

/// The state in which no report is in flight.
pub open spec fn idle() -> Emission {
    Emission { failed: 0, in_flight: None }
}

/// The start of an emission: the report goes in flight, unless the budget
/// allows no write at all. A report still in flight is superseded.
pub open spec fn begin(budget: u32, bytes: Seq<u8>) -> (Emission, StepView) {
    if budget == 0 {
        (idle(), StepView::Done(Transmission::Dropped))
    } else {
        (Emission { failed: 0, in_flight: Some(bytes) }, StepView::Write(bytes))
    }
}

/// The emission after the transport's answer to a write: delivered when it
/// took the report, offered again while it is not ready and the budget lasts,
/// dropped after that, and dropped at once when the write failed.
pub open spec fn answer(budget: u32, emission: Emission, outcome: WriteOutcome) -> (
    Emission,
    StepView,
) {
    match emission.in_flight {
        None => (emission, StepView::Done(Transmission::Dropped)),
        Some(bytes) => match outcome {
            WriteOutcome::Accepted => (idle(), StepView::Done(Transmission::Delivered)),
            WriteOutcome::Pending => if emission.failed + 1 < budget {
                (
                    Emission { failed: emission.failed + 1, in_flight: Some(bytes) },
                    StepView::Write(bytes),
                )
            } else {
                (idle(), StepView::Done(Transmission::Dropped))
            },
            WriteOutcome::Failed => (idle(), StepView::Done(Transmission::Dropped)),
        },
    }
}

/// The emission after a sequence of answers, oldest first.
pub open spec fn answers(budget: u32, emission: Emission, outcomes: Seq<WriteOutcome>) -> Emission
    decreases outcomes.len(),
{
    if outcomes.len() == 0 {
        emission
    } else {
        answer(budget, answers(budget, emission, outcomes.drop_last()), outcomes.last()).0
    }
}

/// While a report is in flight, every answer so far has turned it down.
proof fn lemma_failed_counts(budget: u32, bytes: Seq<u8>, outcomes: Seq<WriteOutcome>)
    ensures
        answers(budget, begin(budget, bytes).0, outcomes).in_flight is Some ==> {
            &&& answers(budget, begin(budget, bytes).0, outcomes).in_flight == Some(bytes)
            &&& answers(budget, begin(budget, bytes).0, outcomes).failed == outcomes.len()
            &&& outcomes.len() < budget
            &&& forall|i: int| 0 <= i < outcomes.len() ==> outcomes[i] is Pending
        },
    decreases outcomes.len(),
{
    if outcomes.len() > 0 {
        lemma_failed_counts(budget, bytes, outcomes.drop_last());
        let after = answers(budget, begin(budget, bytes).0, outcomes);
        if after.in_flight is Some {
            assert forall|i: int| 0 <= i < outcomes.len() implies outcomes[i] is Pending by {
                if i < outcomes.len() - 1 {
                    assert(outcomes.drop_last()[i] == outcomes[i]);
                }
            }
        }
    }
}

/// The retries are bounded. A report is offered to the transport at most as
/// often as the budget says: once that many answers have come in, whatever
/// they were, no report is in flight.
pub proof fn lemma_attempts_bounded(budget: u32, bytes: Seq<u8>, outcomes: Seq<WriteOutcome>)
    requires
        outcomes.len() >= budget,
    ensures
        answers(budget, begin(budget, bytes).0, outcomes).in_flight is None,
{
    lemma_failed_counts(budget, bytes, outcomes);
}

/// A transport that stays unready sees the same report again with every
/// write, and the write that uses up the budget drops it; a write that the
/// transport takes delivers the report, and one that fails drops it.
pub proof fn lemma_pending_retries(budget: u32, bytes: Seq<u8>, outcomes: Seq<WriteOutcome>)
    requires
        budget > 0,
        outcomes.len() < budget,
        forall|i: int| 0 <= i < outcomes.len() ==> outcomes[i] is Pending,
    ensures
        answers(budget, begin(budget, bytes).0, outcomes) == (Emission {
            failed: outcomes.len(),
            in_flight: Some(bytes),
        }),
        answer(
            budget,
            answers(budget, begin(budget, bytes).0, outcomes),
            WriteOutcome::Pending,
        ).1 == if outcomes.len() + 1 < budget {
            StepView::Write(bytes)
        } else {
            StepView::Done(Transmission::Dropped)
        },
        answer(
            budget,
            answers(budget, begin(budget, bytes).0, outcomes),
            WriteOutcome::Accepted,
        ).1 == StepView::Done(Transmission::Delivered),
        answer(
            budget,
            answers(budget, begin(budget, bytes).0, outcomes),
            WriteOutcome::Failed,
        ).1 == StepView::Done(Transmission::Dropped),
    decreases outcomes.len(),
{
    if outcomes.len() > 0 {
        assert forall|i: int| 0 <= i < outcomes.drop_last().len() implies outcomes.drop_last()[i]
            is Pending by {
            assert(outcomes.drop_last()[i] == outcomes[i]);
        }
        lemma_pending_retries(budget, bytes, outcomes.drop_last());
    }
}

/// Emissions repeat. The emission of a held set asks for a write of the
/// report of that held set, whatever the budget is and whatever the emitter
/// has done before: held sets that are equal give the same bytes.
pub proof fn lemma_emit_repeats(first: u32, second: u32, codes: Seq<u8>)
    requires
        first > 0,
        second > 0,
    ensures
        begin(first, report_bytes(codes)).1 == StepView::Write(report_bytes(codes)),
        begin(second, report_bytes(codes)).1 == begin(first, report_bytes(codes)).1,
{
}

/// The report emitter.
pub struct Emitter {
    budget: u32,
    failed: u32,
    in_flight: Option<[u8; 7]>,
}

impl View for Emitter {
    type V = Emission;

    closed spec fn view(&self) -> Emission {
        Emission {
            failed: self.failed as nat,
            in_flight: match self.in_flight {
                Some(bytes) => Some(bytes@),
                None => None,
            },
        }
    }
}

impl Emitter {
    /// How many writes one report is offered for.
    pub closed spec fn spec_budget(&self) -> u32 {
        self.budget
    }

    /// While a report is in flight the budget is not used up.
    pub open spec fn wf(&self) -> bool {
        self@.in_flight is Some ==> self@.failed < self.spec_budget()
    }

    /// An emitter that offers each report to the transport at most `budget`
    /// times.
    pub fn new(budget: u32) -> (emitter: Emitter)
        ensures
            emitter.wf(),
            emitter.spec_budget() == budget,
            emitter@ == idle(),
    {
        Emitter { budget, failed: 0, in_flight: None }
    }

    /// How many writes one report is offered for.
    pub fn budget(&self) -> (n: u32)
        ensures
            n == self.spec_budget(),
    {
        self.budget
    }

    /// Whether a report is in flight.
    pub fn busy(&self) -> (res: bool)
        ensures
            res == (self@.in_flight is Some),
    {
        self.in_flight.is_some()
    }

    /// Starts the emission of the report of a held set. The bytes depend on
    /// the held set alone.
    pub fn emit(&mut self, codes: &Vec<u8>) -> (step: EmitStep)
        ensures
            final(self).wf(),
            final(self).spec_budget() == old(self).spec_budget(),
            (final(self)@, step@) == begin(old(self).spec_budget(), report_bytes(codes@)),
    {
        self.failed = 0;
        if self.budget == 0 {
            self.in_flight = None;
            EmitStep::Done(Transmission::Dropped)
        } else {
            let bytes = report(codes);
            self.in_flight = Some(bytes);
            EmitStep::Write(bytes)
        }
    }

    /// Takes in the transport's answer to the last write.
    pub fn written(&mut self, outcome: WriteOutcome) -> (step: EmitStep)
        requires
            old(self).wf(),
        ensures
            final(self).wf(),
            final(self).spec_budget() == old(self).spec_budget(),
            (final(self)@, step@) == answer(old(self).spec_budget(), old(self)@, outcome),
    {
        match self.in_flight {
            None => EmitStep::Done(Transmission::Dropped),
            Some(bytes) => match outcome {
                WriteOutcome::Accepted => {
                    self.failed = 0;
                    self.in_flight = None;
                    EmitStep::Done(Transmission::Delivered)
                },
                WriteOutcome::Pending => {
                    if self.failed + 1 < self.budget {
                        self.failed = self.failed + 1;
                        EmitStep::Write(bytes)
                    } else {
                        self.failed = 0;
                        self.in_flight = None;
                        EmitStep::Done(Transmission::Dropped)
                    }
                },
                WriteOutcome::Failed => {
                    self.failed = 0;
                    self.in_flight = None;
                    EmitStep::Done(Transmission::Dropped)
                },
            },
        }
    }
}

} // verus!
