//! Per-component step timing: the wall-clock limits a component declares when
//! it joins, and what the conductor does when one is passed.
//!
//! Two levels in one declaration, answering different questions:
//!
//! - **budget**: soft, and permanently so. A step over it is logged and
//!   counted, and that is all, so a run that misses every budget produces the
//!   identical world hash to one that misses none.
//! - **timeout**: hard, and what it does is declared with it: halt the world,
//!   or remove the component.
//!
//! The two are judged separately, never collapsed into one verdict, because
//! the pair is what carries the diagnosis. Limits belong to registration
//! rather than to the component, since a deadline is a property of the
//! deployment and not of the model.
use vstd::prelude::*;

use std::ops::Add;

verus! {

/// A span of wall-clock time, in whole nanoseconds.
#[derive(Debug, Clone, Copy, PartialEq, Eq, PartialOrd, Ord, Hash, Structural)]
pub struct WallDuration {
    pub nanos: u128,
}

impl WallDuration {
    /// No time at all.
    pub fn zero() -> (d: Self)
        ensures
            d.nanos == 0,
    {
        WallDuration { nanos: 0 }
    }

    /// A span of `nanos` nanoseconds.
    pub fn from_nanos(nanos: u64) -> (d: Self)
        ensures
            d.nanos == nanos,
    {
        WallDuration { nanos: nanos as u128 }
    }

    /// A span of `micros` microseconds.
    pub fn from_micros(micros: u64) -> (d: Self)
        ensures
            d.nanos == micros * 1_000,
    {
        WallDuration { nanos: micros as u128 * 1_000 }
    }

    /// A span of `millis` milliseconds.
    pub fn from_millis(millis: u64) -> (d: Self)
        ensures
            d.nanos == millis * 1_000_000,
    {
        WallDuration { nanos: millis as u128 * 1_000_000 }
    }

    /// A span of `secs` seconds.
    pub fn from_secs(secs: u64) -> (d: Self)
        ensures
            d.nanos == secs * 1_000_000_000,
    {
        WallDuration { nanos: secs as u128 * 1_000_000_000 }
    }

    /// The span in nanoseconds.
    pub fn as_nanos(&self) -> (nanos: u128)
        ensures
            nanos == self.nanos,
    {
        self.nanos
    }
}

impl Add for WallDuration {
    type Output = WallDuration;

    fn add(self, rhs: WallDuration) -> WallDuration {
        WallDuration { nanos: self.nanos + rhs.nanos }
    }
}

impl vstd::std_specs::ops::AddSpecImpl for WallDuration {
    open spec fn obeys_add_spec() -> bool {
        true
    }

    open spec fn add_req(self, rhs: WallDuration) -> bool {
        self.nanos + rhs.nanos <= u128::MAX
    }

    open spec fn add_spec(self, rhs: WallDuration) -> WallDuration {
        WallDuration { nanos: (self.nanos + rhs.nanos) as u128 }
    }
}

/// What the conductor does about a component that exceeded its hard
/// [`StepTiming::timeout`].
#[derive(Debug, Clone, Copy, PartialEq, Eq, Structural)]
pub enum OnTimeout {
    /// Stop the world: the run ends with an error. The default, and what
    /// anything determinism-sensitive wants.
    Halt,
    /// Remove the component at the next tick boundary and carry on, exactly
    /// as if it had asked to leave then. This **changes the scenario**, and
    /// the trigger is wall-clock-dependent; the removal is recorded like any
    /// other leave, which keeps the run replayable.
    Remove,
}

impl Default for OnTimeout {
    fn default() -> (policy: Self)
        ensures
            policy == OnTimeout::Halt,
    {
        OnTimeout::Halt
    }
}

/// What a component's `step` may cost in wall time, and how the conductor
/// escalates when it costs more.
///
/// Declared per component at registration. The default,
/// [`StepTiming::unlimited`], declares nothing: the component is never
/// flagged, halted, or removed for being slow.
#[derive(Debug, Clone, Copy, PartialEq, Eq, Structural)]
pub struct StepTiming {
    /// Soft limit on the component's own `step`: a step taking longer is
    /// logged and counted, and nothing else, ever.
    pub budget: Option<WallDuration>,
    /// Hard limit on how long the conductor waits to hear the step is done:
    /// passing it triggers [`Self::on_timeout`].
    pub timeout: Option<WallDuration>,
    /// What exceeding [`Self::timeout`] does. Never consulted while that is
    /// `None`.
    pub on_timeout: OnTimeout,
}

/// Whether a duration passes a limit. A limit is a duration a step may
/// *take*, so landing exactly on one is within it.
pub open spec fn passes(limit: Option<WallDuration>, took: WallDuration) -> bool {
    limit matches Some(most) && took.nanos > most.nanos
}

impl StepTiming {
    /// Declares no limits at all.
    pub fn unlimited() -> (timing: Self)
        ensures
            timing == (StepTiming { budget: None, timeout: None, on_timeout: OnTimeout::Halt }),
    {
        StepTiming { budget: None, timeout: None, on_timeout: OnTimeout::Halt }
    }

    /// Declares the soft level only: steps over `budget` are logged and
    /// counted, and the run is otherwise untouched.
    pub fn budget(budget: WallDuration) -> (timing: Self)
        ensures
            timing == (StepTiming {
                budget: Some(budget),
                timeout: None,
                on_timeout: OnTimeout::Halt,
            }),
    {
        StepTiming { budget: Some(budget), timeout: None, on_timeout: OnTimeout::Halt }
    }

    /// Declares the hard level only: steps over `timeout` trigger
    /// `on_timeout`.
    pub fn timeout(timeout: WallDuration, on_timeout: OnTimeout) -> (timing: Self)
        ensures
            timing == (StepTiming { budget: None, timeout: Some(timeout), on_timeout }),
    {
        StepTiming { budget: None, timeout: Some(timeout), on_timeout }
    }

    /// Adds the soft level to a declaration, in place of one declared before.
    pub fn with_budget(self, budget: WallDuration) -> (timing: Self)
        ensures
            timing == (StepTiming { budget: Some(budget), ..self }),
    {
        StepTiming { budget: Some(budget), timeout: self.timeout, on_timeout: self.on_timeout }
    }

    /// Adds the hard level to a declaration, in place of one declared before.
    pub fn with_timeout(self, timeout: WallDuration, on_timeout: OnTimeout) -> (timing: Self)
        ensures
            timing == (StepTiming { timeout: Some(timeout), on_timeout, ..self }),
    {
        StepTiming { budget: self.budget, timeout: Some(timeout), on_timeout }
    }

    /// Whether the component's own `step`, which took `step`, passed the soft
    /// budget.
    pub fn over_budget(&self, step: WallDuration) -> (over: bool)
        ensures
            over == passes(self.budget, step),
    {
        match self.budget {
            Some(budget) => step.nanos > budget.nanos,
            None => false,
        }
    }

    /// Whether the conductor, having waited `waited` to hear the step was
    /// done, passed the hard timeout. Judged separately from the budget,
    /// because the two read different quantities and either can happen
    /// without the other.
    pub fn over_timeout(&self, waited: WallDuration) -> (over: bool)
        ensures
            over == passes(self.timeout, waited),
    {
        match self.timeout {
            Some(timeout) => waited.nanos > timeout.nanos,
            None => false,
        }
    }

    /// The one incoherent declaration: a budget at or above the timeout can
    /// never report, because the conductor stops waiting before any step slow
    /// enough to miss it can finish. Returns the offending pair.
    pub fn unreachable_budget(&self) -> (pair: Option<(WallDuration, WallDuration)>)
        ensures
            pair == unreachable_pair(*self),
    {
        match (self.budget, self.timeout) {
            (Some(budget), Some(timeout)) => if budget.nanos >= timeout.nanos {
                Some((budget, timeout))
            } else {
                None
            },
            _ => None,
        }
    }
}

/// The budget and the timeout of a declaration whose budget could never
/// report.
pub open spec fn unreachable_pair(timing: StepTiming) -> Option<(WallDuration, WallDuration)> {
    match (timing.budget, timing.timeout) {
        (Some(budget), Some(timeout)) => if budget.nanos >= timeout.nanos {
            Some((budget, timeout))
        } else {
            None
        },
        _ => None,
    }
}

impl Default for StepTiming {
    fn default() -> (timing: Self)
        ensures
            timing == (StepTiming { budget: None, timeout: None, on_timeout: OnTimeout::Halt }),
    {
        StepTiming::unlimited()
    }
}

/// A step passes a limit exactly where one is declared and the step took
/// longer: landing on it is within it.
pub proof fn law_when_a_step_passes_a_limit(limit: Option<WallDuration>, took: WallDuration)
    ensures
        limit is None ==> !passes(limit, took),
        limit is Some && took.nanos <= limit->0.nanos ==> !passes(limit, took),
        limit is Some && took.nanos > limit->0.nanos ==> passes(limit, took),
{
}

/// A budget could never report exactly where a timeout is declared that is no
/// longer than it.
pub proof fn law_which_budgets_never_report(timing: StepTiming)
    ensures
        unreachable_pair(timing) is Some <==> timing.budget is Some && timing.timeout is Some
            && timing.timeout->0.nanos <= timing.budget->0.nanos,
        unreachable_pair(timing) is Some ==> unreachable_pair(timing) == Some(
            (timing.budget->0, timing.timeout->0),
        ),
{
}

/// In a declaration that could report, every step past the timeout is past
/// the budget as well, when one duration is judged against both.
pub proof fn law_a_timed_out_step_missed_its_budget(timing: StepTiming, took: WallDuration)
    requires
        unreachable_pair(timing) is None,
        timing.budget is Some,
        passes(timing.timeout, took),
    ensures
        passes(timing.budget, took),
{
}

} // verus!
