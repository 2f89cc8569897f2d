//! Gated attempts: each is verified, and where that fails, the verdict goes into
//! the next attempt.

use vstd::prelude::*;

use crate::text::chars::owned;

verus! {

/// What came of a gated run.
#[derive(Debug, Clone, PartialEq, Eq)]
pub enum GateOutcome {
    /// Verification passed on this attempt, counted from 1.
    Passed { on_attempt: u32 },
    /// Every attempt was used; this is the last verdict.
    Exhausted { last_failure: String },
}

/// How a gated run ends: with an outcome, or with the error of an attempt that could not be made.
pub type GateEnd = Result<GateOutcome, String>;

/// How a gated run ends.
pub open spec fn end_view(end: GateEnd) -> Result<OutcomeView, Seq<char>> {
    match end {
        Ok(o) => Ok(o@),
        Err(e) => Err(e@),
    }
}

/// What came of a gated run.
pub enum OutcomeView {
    Passed { on_attempt: nat },
    Exhausted { last_failure: Seq<char> },
}

impl View for GateOutcome {
    type V = OutcomeView;

    open spec fn view(&self) -> OutcomeView {
        match self {
            GateOutcome::Passed { on_attempt } => OutcomeView::Passed {
                on_attempt: *on_attempt as nat,
            },
            GateOutcome::Exhausted { last_failure } => OutcomeView::Exhausted {
                last_failure: last_failure@,
            },
        }
    }
}

impl GateOutcome {
    /// Whether verification passed.
    pub fn passed(&self) -> (r: bool)
        ensures
            r == (self@ is Passed),
    {
        match self {
            GateOutcome::Passed { .. } => true,
            GateOutcome::Exhausted { .. } => false,
        }
    }
}

/// A gated run: how many attempts there are, how many were verified, and what came of it.
#[derive(Debug)]
pub struct Gate {
    max: u32,
    verified: u32,
    verdict: Option<String>,
    passed: bool,
    error: Option<String>,
}

/// A gated run.
pub struct GateView {
    pub max: nat,
    pub verified: nat,
    pub verdict: Option<Seq<char>>,
    pub passed: bool,
    /// The error of an attempt that could not be made.
    pub error: Option<Seq<char>>,
}

impl View for Gate {
    type V = GateView;

    closed spec fn view(&self) -> GateView {
        GateView {
            max: self.max as nat,
            verified: self.verified as nat,
            verdict: self.verdict.deep_view(),
            passed: self.passed,
            error: self.error.deep_view(),
        }
    }
}

/// What is done next: an attempt, with the verdict on the one before, or nothing more.
#[derive(Debug)]
pub enum GateStep {
    Attempt(Option<String>),
    Finished(GateEnd),
}

/// What is done next.
pub enum GateStepView {
    Attempt(Option<Seq<char>>),
    Finished(Result<OutcomeView, Seq<char>>),
}

impl View for GateStep {
    type V = GateStepView;

    open spec fn view(&self) -> GateStepView {
        match self {
            GateStep::Attempt(v) => GateStepView::Attempt(v.deep_view()),
            GateStep::Finished(end) => GateStepView::Finished(end_view(*end)),
        }
    }
}

/// A run that has not begun, with at least one attempt.
pub open spec fn gate_start(max_attempts: nat) -> GateView {
    GateView {
        max: if max_attempts == 0 {
            1
        } else {
            max_attempts
        },
        verified: 0,
        verdict: None,
        passed: false,
        error: None,
    }
}

/// What is done next. An attempt that could not be made ends the run with its error.
pub open spec fn gate_next(g: GateView) -> GateStepView {
    if let Some(e) = g.error {
        GateStepView::Finished(Err(e))
    } else if g.passed {
        GateStepView::Finished(Ok(OutcomeView::Passed { on_attempt: g.verified }))
    } else if g.verified < g.max {
        GateStepView::Attempt(g.verdict)
    } else {
        GateStepView::Finished(
            Ok(
                OutcomeView::Exhausted {
                    last_failure: match g.verdict {
                        Some(f) => f,
                        None => seq![],
                    },
                },
            ),
        )
    }
}

/// A run after one more attempt was verified; a failure says why.
pub open spec fn gate_after(g: GateView, failure: Option<Seq<char>>) -> GateView {
    GateView {
        max: g.max,
        verified: g.verified + 1,
        verdict: match failure {
            Some(f) => Some(f),
            None => g.verdict,
        },
        passed: failure is None,
        error: g.error,
    }
}

/// A run after an attempt could not be made.
pub open spec fn gate_broken(g: GateView, error: Seq<char>) -> GateView {
    GateView { error: Some(error), ..g }
}

/// Begins a gated run of at least one attempt.
pub fn run_gated(max_attempts: u32) -> (r: Gate)
    ensures
        r@ == gate_start(max_attempts as nat),
{
    Gate {
        max: if max_attempts == 0 {
            1
        } else {
            max_attempts
        },
        verified: 0,
        verdict: None,
        passed: false,
        error: None,
    }
}

impl Gate {
    /// What is done next.
    pub fn next(&self) -> (r: GateStep)
        ensures
            r@ == gate_next(self@),
    {
        if let Some(e) = &self.error {
            GateStep::Finished(Err(owned(e)))
        } else if self.passed {
            GateStep::Finished(Ok(GateOutcome::Passed { on_attempt: self.verified }))
        } else if self.verified < self.max {
            GateStep::Attempt(self.verdict.clone())
        } else {
            GateStep::Finished(
                Ok(
                    GateOutcome::Exhausted {
                        last_failure: match &self.verdict {
                            Some(f) => owned(f),
                            None => String::new(),
                        },
                    },
                ),
            )
        }
    }

    /// Notes that an attempt could not be made. It is not verified, and no other is made.
    pub fn attempt_failed(&mut self, error: String)
        requires
            gate_next(old(self)@) is Attempt,
        ensures
            final(self)@ == gate_broken(old(self)@, error@),
    {
        self.error = Some(error);
    }

    /// Notes the verdict on an attempt.
    pub fn verified(&mut self, failure: Option<String>)
        requires
            gate_next(old(self)@) is Attempt,
        ensures
            final(self)@ == gate_after(old(self)@, failure.deep_view()),
    {
        self.verified = self.verified + 1;
        match failure {
            None => {
                self.passed = true;
            },
            Some(f) => {
                self.verdict = Some(f);
                self.passed = false;
            },
        }
    }
}

/// A run after attempts were verified one after the other.
pub open spec fn gate_run(g: GateView, failures: Seq<Option<Seq<char>>>) -> GateView
    decreases failures.len(),
{
    if failures.len() == 0 {
        g
    } else {
        gate_after(gate_run(g, failures.drop_last()), failures.last())
    }
}

/// Whether all of these attempts failed.
pub open spec fn all_failed(failures: Seq<Option<Seq<char>>>) -> bool {
    forall|i: int| 0 <= i < failures.len() ==> #[trigger] failures[i] is Some
}

proof fn lemma_gate_run(max_attempts: nat, failures: Seq<Option<Seq<char>>>)
    requires
        all_failed(failures),
    ensures
        ({
            let g = gate_run(gate_start(max_attempts), failures);
            &&& g.max == gate_start(max_attempts).max
            &&& g.verified == failures.len()
            &&& !g.passed
            &&& g.error is None
            &&& g.verdict == (if failures.len() == 0 {
                None
            } else {
                failures.last()
            })
        }),
    decreases failures.len(),
{
    if failures.len() > 0 {
        let d = failures.drop_last();
        assert forall|i: int| 0 <= i < d.len() implies #[trigger] d[i] is Some by {
            assert(d[i] == failures[i]);
        }
        lemma_gate_run(max_attempts, d);
        assert(failures[failures.len() - 1] is Some);
    }
}

/// While attempts are left, the next one gets the verdict on the last; with all of them
/// used up the run ends with the last verdict. A pass ends the run at once, with the number of
/// the attempt that passed, and an attempt that could not be made ends it at once, with its error.
/// There is always at least one attempt.
pub proof fn lemma_gate(max_attempts: nat, failures: Seq<Option<Seq<char>>>, error: Seq<char>)
    requires
        all_failed(failures),
    ensures
        ({
            let start = gate_start(max_attempts);
            let g = gate_run(start, failures);
            let verdict = if failures.len() == 0 {
                None
            } else {
                failures.last()
            };
            &&& start.max >= 1 && start.max >= max_attempts
            &&& failures.len() < start.max ==> gate_next(g) == GateStepView::Attempt(verdict)
            &&& failures.len() == start.max ==> gate_next(g) == GateStepView::Finished(
                Ok(OutcomeView::Exhausted { last_failure: verdict->0 }),
            )
            &&& gate_next(gate_after(g, None)) == GateStepView::Finished(
                Ok(OutcomeView::Passed { on_attempt: failures.len() + 1 }),
            )
            &&& gate_next(gate_broken(g, error)) == GateStepView::Finished(Err(error))
        }),
{
    lemma_gate_run(max_attempts, failures);
    if failures.len() > 0 {
        assert(failures[failures.len() - 1] is Some);
    }
}

/// A gated run makes as many attempts as it may, but at least one: it asks for another as long as
/// fewer have failed, and for no more.
pub proof fn lemma_attempts(max_attempts: nat, failures: Seq<Option<Seq<char>>>)
    requires
        all_failed(failures),
    ensures
        max_attempts > 0 ==> (gate_next(gate_run(gate_start(max_attempts), failures)) is Attempt
            <==> failures.len() < max_attempts),
        gate_next(gate_run(gate_start(0), failures)) is Attempt <==> failures.len() == 0,
{
    lemma_gate_run(max_attempts, failures);
    lemma_gate_run(0, failures);
}

} // verus!
