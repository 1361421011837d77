//! Membership metadata: what the conductor needs in order to admit a
//! component or remove one, as distinct from the component itself.
//!
//! Both sides name the sim time they take effect at, and neither infers it
//! from when the request turned up. That is what keeps a dynamic run
//! reproducible: the requester chooses the instant, so the run is the same
//! whether the request arrived a tick early or a hundred ticks early.
use vstd::prelude::*;

use crate::time::SimTime;
use crate::timing::StepTiming;

verus! {

/// Parent path of a component that sits directly under the world, with no
/// composite above it, so its own id is the whole path.
pub const WORLD_LEVEL: &'static str = "";

/// Everything the conductor needs to admit a component.
#[derive(Debug, PartialEq, Eq)]
pub struct JoinMetadata {
    /// [`WORLD_LEVEL`] for a world-level actor, or a composite's path to join
    /// it. The component's own id completes the path.
    pub parent_path: String,
    /// Sim time of the component's first step. It must be an instant the
    /// conductor has not stepped past; joining into an instant that already
    /// happened is an error, not a silent no-op.
    pub first_due: SimTime,
    /// What this component's `step` may cost in wall time, and what happens
    /// when it costs more.
    pub timing: StepTiming,
}

impl JoinMetadata {
    /// Joins before the run starts, first stepping at sim time zero, which is
    /// what every component in a statically-built world wants.
    pub fn at_start(parent_path: &str) -> (join: Self)
        ensures
            join.parent_path@ == parent_path@,
            join.first_due.0 == 0,
            join.timing == (StepTiming {
                budget: None,
                timeout: None,
                on_timeout: crate::timing::OnTimeout::Halt,
            }),
    {
        JoinMetadata {
            parent_path: parent_path.to_owned(),
            first_due: SimTime::zero(),
            timing: StepTiming::unlimited(),
        }
    }

    /// Joins a run already in progress, first stepping at `first_due`.
    pub fn at(parent_path: &str, first_due: SimTime) -> (join: Self)
        ensures
            join.parent_path@ == parent_path@,
            join.first_due == first_due,
            join.timing == (StepTiming {
                budget: None,
                timeout: None,
                on_timeout: crate::timing::OnTimeout::Halt,
            }),
    {
        JoinMetadata {
            parent_path: parent_path.to_owned(),
            first_due,
            timing: StepTiming::unlimited(),
        }
    }

    /// Declares what this component's `step` may cost in wall time.
    pub fn with_timing(self, timing: StepTiming) -> (join: Self)
        ensures
            join == (JoinMetadata { timing, ..self }),
    {
        JoinMetadata { parent_path: self.parent_path, first_due: self.first_due, timing }
    }
}

/// Everything the conductor needs to remove a component.
#[derive(Debug, PartialEq, Eq)]
pub struct LeaveMetadata {
    /// The departing component's full path, or a composite's to take the
    /// whole subtree.
    pub path: String,
    /// The first instant the component does *not* step, or `None` to stop it
    /// at the earliest instant still open, meaning "now".
    ///
    /// Naming an instant is half-open: a component present for `[0, 10ms)`
    /// joins at `0` and leaves at `10ms`, having stepped at `0` but not at
    /// `10ms`.
    pub leaves_at: Option<SimTime>,
}

impl LeaveMetadata {
    /// Leaves at the earliest instant still open: the component takes no
    /// further step from here.
    pub fn now(path: &str) -> (leave: Self)
        ensures
            leave.path@ == path@,
            leave.leaves_at is None,
    {
        LeaveMetadata { path: path.to_owned(), leaves_at: None }
    }

    /// Leaves at `leaves_at`: the component steps at every due instant before
    /// that one, and none from it onwards.
    pub fn at(path: &str, leaves_at: SimTime) -> (leave: Self)
        ensures
            leave.path@ == path@,
            leave.leaves_at == Some(leaves_at),
    {
        LeaveMetadata { path: path.to_owned(), leaves_at: Some(leaves_at) }
    }
}

/// Lets a path be passed on its own wherever a leave is expected. It always
/// means [`LeaveMetadata::now`].
impl<'a> From<&'a str> for LeaveMetadata {
    fn from(path: &'a str) -> (leave: Self)
        ensures
            leave.path@ == path@,
            leave.leaves_at is None,
    {
        LeaveMetadata::now(path)
    }
}

impl<'a> vstd::std_specs::convert::FromSpecImpl<&'a str> for LeaveMetadata {
    open spec fn obeys_from_spec() -> bool {
        false
    }

    open spec fn from_spec(path: &'a str) -> Self {
        arbitrary()
    }
}

/// Lets the parent path be passed on its own wherever a join is expected. It
/// always means [`JoinMetadata::at_start`], so it is only usable before the
/// run begins.
impl<'a> From<&'a str> for JoinMetadata {
    fn from(parent_path: &'a str) -> (join: Self)
        ensures
            join.parent_path@ == parent_path@,
            join.first_due.0 == 0,
            join.timing == (StepTiming {
                budget: None,
                timeout: None,
                on_timeout: crate::timing::OnTimeout::Halt,
            }),
    {
        JoinMetadata::at_start(parent_path)
    }
}

impl<'a> vstd::std_specs::convert::FromSpecImpl<&'a str> for JoinMetadata {
    open spec fn obeys_from_spec() -> bool {
        false
    }

    open spec fn from_spec(parent_path: &'a str) -> Self {
        arbitrary()
    }
}

} // verus!
