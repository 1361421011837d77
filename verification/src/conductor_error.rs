//! What can stop a conductor, and how it is reported.
use vstd::prelude::*;

use crate::error::CoreError;
use crate::ids::ComponentPath;
use crate::text::decimal_text;
use crate::time::SimTime;
use crate::timing::WallDuration;

verus! {

/// Errors of the conductor.
#[derive(Debug)]
pub enum ConductorError {
    /// A component is already registered at this path.
    DuplicatePath(ComponentPath),
    /// No component is registered at this path, and none is under it.
    UnknownPath(ComponentPath),
    /// A join for an instant that has already happened.
    JoinInThePast { path: ComponentPath, first_due: SimTime, earliest_open: SimTime },
    /// A leave for an instant that has already happened.
    LeaveInThePast { path: ComponentPath, leaves_at: SimTime, earliest_open: SimTime },
    /// A leaf component cannot also be a composite.
    PathConflict { existing: ComponentPath, new: ComponentPath },
    /// A component scheduled itself at or before the instant it stepped at.
    ScheduleViolation { path: ComponentPath, now: SimTime, next_due: SimTime },
    /// A component could not do its job.
    StepFailed { path: ComponentPath, now: SimTime, source: CoreError },
    /// A component outlasted a timeout whose policy is to halt.
    StepTimeout {
        path: ComponentPath,
        now: SimTime,
        elapsed: WallDuration,
        timeout: WallDuration,
    },
    /// A budget that the timeout would always beat, so it could never report.
    UnreachableStepBudget { path: ComponentPath, budget: WallDuration, timeout: WallDuration },
    /// An error of the core types.
    Core(CoreError),
}

/// What a [`ConductorError`] says.
pub enum ConductorErrorModel {
    DuplicatePath(Seq<Seq<char>>),
    UnknownPath(Seq<Seq<char>>),
    JoinInThePast { path: Seq<Seq<char>>, first_due: SimTime, earliest_open: SimTime },
    LeaveInThePast { path: Seq<Seq<char>>, leaves_at: SimTime, earliest_open: SimTime },
    PathConflict { existing: Seq<Seq<char>>, new: Seq<Seq<char>> },
    ScheduleViolation { path: Seq<Seq<char>>, now: SimTime, next_due: SimTime },
    StepFailed { path: Seq<Seq<char>>, now: SimTime, source: CoreError },
    StepTimeout {
        path: Seq<Seq<char>>,
        now: SimTime,
        elapsed: WallDuration,
        timeout: WallDuration,
    },
    UnreachableStepBudget { path: Seq<Seq<char>>, budget: WallDuration, timeout: WallDuration },
    /// A path that does not parse, for its first bad segment.
    BadPath(Seq<char>),
    /// Any other error of the core types.
    Core(CoreError),
}

impl View for ConductorError {
    type V = ConductorErrorModel;

    open spec fn view(&self) -> ConductorErrorModel {
        match self {
            ConductorError::DuplicatePath(path) => ConductorErrorModel::DuplicatePath(path@),
            ConductorError::UnknownPath(path) => ConductorErrorModel::UnknownPath(path@),
            ConductorError::JoinInThePast { path, first_due, earliest_open } =>
                ConductorErrorModel::JoinInThePast {
                path: path@,
                first_due: *first_due,
                earliest_open: *earliest_open,
            },
            ConductorError::LeaveInThePast { path, leaves_at, earliest_open } =>
                ConductorErrorModel::LeaveInThePast {
                path: path@,
                leaves_at: *leaves_at,
                earliest_open: *earliest_open,
            },
            ConductorError::PathConflict { existing, new } => ConductorErrorModel::PathConflict {
                existing: existing@,
                new: new@,
            },
            ConductorError::ScheduleViolation { path, now, next_due } =>
                ConductorErrorModel::ScheduleViolation {
                path: path@,
                now: *now,
                next_due: *next_due,
            },
            ConductorError::StepFailed { path, now, source } => ConductorErrorModel::StepFailed {
                path: path@,
                now: *now,
                source: *source,
            },
            ConductorError::StepTimeout { path, now, elapsed, timeout } =>
                ConductorErrorModel::StepTimeout {
                path: path@,
                now: *now,
                elapsed: *elapsed,
                timeout: *timeout,
            },
            ConductorError::UnreachableStepBudget { path, budget, timeout } =>
                ConductorErrorModel::UnreachableStepBudget {
                path: path@,
                budget: *budget,
                timeout: *timeout,
            },
            ConductorError::Core(CoreError::InvalidComponentId(part)) =>
                ConductorErrorModel::BadPath(part@),
            ConductorError::Core(error) => ConductorErrorModel::Core(*error),
        }
    }
}

/// A sim time as a reader sees it.
pub open spec fn time_text(t: SimTime) -> Seq<char> {
    crate::time::canonical_seconds(t.0 as int)
}

/// A wall-clock span as a reader sees it: whole microseconds, or as many of
/// them as 64 bits hold.
pub open spec fn wall_text(d: WallDuration) -> Seq<char> {
    crate::text::decimal(
        if d.nanos / 1_000 > u64::MAX {
            u64::MAX as nat
        } else {
            (d.nanos / 1_000) as nat
        },
    ) + " us"@
}

/// The text that reports a [`ConductorError`].
pub open spec fn conductor_error_text(error: ConductorError) -> Seq<char> {
    match error {
        ConductorError::DuplicatePath(path) => "a component is already registered at path "@
            + crate::ids::path_text(path@),
        ConductorError::UnknownPath(path) => "no component is registered at path "@
            + crate::ids::path_text(path@),
        ConductorError::JoinInThePast { path, first_due, earliest_open } => "component "@
            + crate::ids::path_text(path@) + " asked to first step at "@ + time_text(first_due)
            + ", but the earliest instant still open is "@ + time_text(earliest_open)
            + ": a joining component must be scheduled for a step that has not happened yet"@,
        ConductorError::LeaveInThePast { path, leaves_at, earliest_open } => "component "@
            + crate::ids::path_text(path@) + " was asked to stop at "@ + time_text(leaves_at)
            + ", but the earliest instant still open is "@ + time_text(earliest_open)
            + ": it has already stepped at instants this leave claims it did not"@,
        ConductorError::PathConflict { existing, new } => "path "@ + crate::ids::path_text(new@)
            + " conflicts with existing "@ + crate::ids::path_text(existing@)
            + ": a leaf component cannot also be a composite"@,
        ConductorError::ScheduleViolation { path, now, next_due } => "schedule violation by "@
            + crate::ids::path_text(path@) + ": returned next_due "@ + time_text(next_due)
            + " at sim time "@ + time_text(now)
            + "; next_due must be strictly in the future (>= 1 ns ahead) to prevent zero-time livelock"@,
        ConductorError::StepFailed { path, now, source } => "component "@ + crate::ids::path_text(
            path@,
        ) + " failed its step at sim time "@ + time_text(now) + ": "@
            + crate::error::core_error_text(source),
        ConductorError::StepTimeout { path, now, elapsed, timeout } => "component "@
            + crate::ids::path_text(path@) + " timed out at sim time "@ + time_text(now)
            + ": its step took "@ + wall_text(elapsed) + " against a timeout of "@ + wall_text(
            timeout,
        ),
        ConductorError::UnreachableStepBudget { path, budget, timeout } => "component "@
            + crate::ids::path_text(path@) + " declared a budget of "@ + wall_text(budget)
            + " that could never report under a timeout of "@ + wall_text(timeout),
        ConductorError::Core(error) => crate::error::core_error_text(error),
    }
}

/// Whether a text says something somewhere.
pub open spec fn says(text: Seq<char>, words: Seq<char>) -> bool {
    exists|front: Seq<char>, back: Seq<char>| text == #[trigger] (front + words + back)
}

proof fn lemma_says(text: Seq<char>, front: Seq<char>, words: Seq<char>, back: Seq<char>)
    requires
        text == front + words + back,
    ensures
        says(text, words),
{
}

/// What the report of an error says: whom it is about, by path, and the
/// instants and spans that made it one, each behind the words for what it is.
pub proof fn law_what_an_error_reports(error: ConductorError)
    ensures
        ({
            let text = conductor_error_text(error);
            match error {
                ConductorError::DuplicatePath(path) => {
                    &&& says(
                        text,
                        "a component is already registered at path "@
                            + crate::ids::path_text(path@),
                    )
                },
                ConductorError::UnknownPath(path) => {
                    &&& says(
                        text,
                        "no component is registered at path "@ + crate::ids::path_text(path@),
                    )
                },
                ConductorError::JoinInThePast { path, first_due, earliest_open } => {
                    &&& says(text, "component "@ + crate::ids::path_text(path@))
                    &&& says(text, " asked to first step at "@ + time_text(first_due))
                    &&& says(
                        text,
                        ", but the earliest instant still open is "@ + time_text(earliest_open),
                    )
                },
                ConductorError::LeaveInThePast { path, leaves_at, earliest_open } => {
                    &&& says(text, "component "@ + crate::ids::path_text(path@))
                    &&& says(text, " was asked to stop at "@ + time_text(leaves_at))
                    &&& says(
                        text,
                        ", but the earliest instant still open is "@ + time_text(earliest_open),
                    )
                },
                ConductorError::PathConflict { existing, new } => {
                    &&& says(text, "path "@ + crate::ids::path_text(new@))
                    &&& says(text, " conflicts with existing "@ + crate::ids::path_text(existing@))
                },
                ConductorError::ScheduleViolation { path, now, next_due } => {
                    &&& says(text, "schedule violation by "@ + crate::ids::path_text(path@))
                    &&& says(text, ": returned next_due "@ + time_text(next_due))
                    &&& says(text, " at sim time "@ + time_text(now))
                },
                ConductorError::StepFailed { path, now, source } => {
                    &&& says(text, "component "@ + crate::ids::path_text(path@))
                    &&& says(text, " failed its step at sim time "@ + time_text(now))
                    &&& says(text, ": "@ + crate::error::core_error_text(source))
                },
                ConductorError::StepTimeout { path, now, elapsed, timeout } => {
                    &&& says(text, "component "@ + crate::ids::path_text(path@))
                    &&& says(text, " timed out at sim time "@ + time_text(now))
                    &&& says(text, ": its step took "@ + wall_text(elapsed))
                    &&& says(text, " against a timeout of "@ + wall_text(timeout))
                },
                ConductorError::UnreachableStepBudget { path, budget, timeout } => {
                    &&& says(text, "component "@ + crate::ids::path_text(path@))
                    &&& says(text, " declared a budget of "@ + wall_text(budget))
                    &&& says(
                        text,
                        " that could never report under a timeout of "@ + wall_text(timeout),
                    )
                },
                ConductorError::Core(source) => text == crate::error::core_error_text(source),
            }
        }),
{
    let text = conductor_error_text(error);
    let none = Seq::<char>::empty();
    match error {
        ConductorError::DuplicatePath(path) => {
            assert(text =~= (none) + ("a component is already registered at path "@
                + crate::ids::path_text(path@)) + (none));
            lemma_says(text, none, "a component is already registered at path "@
                + crate::ids::path_text(path@), none);
        },
        ConductorError::UnknownPath(path) => {
            assert(text =~= (none) + ("no component is registered at path "@
                + crate::ids::path_text(path@)) + (none));
            lemma_says(text, none, "no component is registered at path "@
                + crate::ids::path_text(path@), none);
        },
        ConductorError::JoinInThePast { path, first_due, earliest_open } => {
            assert(text =~= (none) + ("component "@ + crate::ids::path_text(path@))
                + (" asked to first step at "@ + time_text(first_due)
                + ", but the earliest instant still open is "@ + time_text(earliest_open)
                + ": a joining component must be scheduled for a step that has not happened yet"@));
            lemma_says(text, none, "component "@
                + crate::ids::path_text(path@), " asked to first step at "@ + time_text(first_due)
                + ", but the earliest instant still open is "@ + time_text(earliest_open)
                + ": a joining component must be scheduled for a step that has not happened yet"@);
            assert(text =~= ("component "@ + crate::ids::path_text(path@))
                + (" asked to first step at "@ + time_text(first_due))
                + (", but the earliest instant still open is "@ + time_text(earliest_open)
                + ": a joining component must be scheduled for a step that has not happened yet"@));
            lemma_says(text, "component "@
                + crate::ids::path_text(path@), " asked to first step at "@
                + time_text(first_due), ", but the earliest instant still open is "@
                + time_text(earliest_open)
                + ": a joining component must be scheduled for a step that has not happened yet"@);
            assert(text =~= ("component "@ + crate::ids::path_text(path@)
                + " asked to first step at "@ + time_text(first_due))
                + (", but the earliest instant still open is "@ + time_text(earliest_open))
                + (": a joining component must be scheduled for a step that has not happened yet"@));
            lemma_says(text, "component "@ + crate::ids::path_text(path@)
                + " asked to first step at "@
                + time_text(first_due), ", but the earliest instant still open is "@
                + time_text(earliest_open), ": a joining component must be scheduled for a step that has not happened yet"@);
        },
        ConductorError::LeaveInThePast { path, leaves_at, earliest_open } => {
            assert(text =~= (none) + ("component "@ + crate::ids::path_text(path@))
                + (" was asked to stop at "@ + time_text(leaves_at)
                + ", but the earliest instant still open is "@ + time_text(earliest_open)
                + ": it has already stepped at instants this leave claims it did not"@));
            lemma_says(text, none, "component "@
                + crate::ids::path_text(path@), " was asked to stop at "@ + time_text(leaves_at)
                + ", but the earliest instant still open is "@ + time_text(earliest_open)
                + ": it has already stepped at instants this leave claims it did not"@);
            assert(text =~= ("component "@ + crate::ids::path_text(path@))
                + (" was asked to stop at "@ + time_text(leaves_at))
                + (", but the earliest instant still open is "@ + time_text(earliest_open)
                + ": it has already stepped at instants this leave claims it did not"@));
            lemma_says(text, "component "@
                + crate::ids::path_text(path@), " was asked to stop at "@
                + time_text(leaves_at), ", but the earliest instant still open is "@
                + time_text(earliest_open)
                + ": it has already stepped at instants this leave claims it did not"@);
            assert(text =~= ("component "@ + crate::ids::path_text(path@)
                + " was asked to stop at "@ + time_text(leaves_at))
                + (", but the earliest instant still open is "@ + time_text(earliest_open))
                + (": it has already stepped at instants this leave claims it did not"@));
            lemma_says(text, "component "@ + crate::ids::path_text(path@)
                + " was asked to stop at "@
                + time_text(leaves_at), ", but the earliest instant still open is "@
                + time_text(earliest_open), ": it has already stepped at instants this leave claims it did not"@);
        },
        ConductorError::PathConflict { existing, new } => {
            assert(text =~= (none) + ("path "@ + crate::ids::path_text(new@))
                + (" conflicts with existing "@ + crate::ids::path_text(existing@)
                + ": a leaf component cannot also be a composite"@));
            lemma_says(text, none, "path "@
                + crate::ids::path_text(new@), " conflicts with existing "@
                + crate::ids::path_text(existing@)
                + ": a leaf component cannot also be a composite"@);
            assert(text =~= ("path "@ + crate::ids::path_text(new@))
                + (" conflicts with existing "@ + crate::ids::path_text(existing@))
                + (": a leaf component cannot also be a composite"@));
            lemma_says(text, "path "@ + crate::ids::path_text(new@), " conflicts with existing "@
                + crate::ids::path_text(existing@), ": a leaf component cannot also be a composite"@);
        },
        ConductorError::ScheduleViolation { path, now, next_due } => {
            assert(text =~= (none) + ("schedule violation by "@ + crate::ids::path_text(path@))
                + (": returned next_due "@ + time_text(next_due) + " at sim time "@
                + time_text(now)
                + "; next_due must be strictly in the future (>= 1 ns ahead) to prevent zero-time livelock"@));
            lemma_says(text, none, "schedule violation by "@
                + crate::ids::path_text(path@), ": returned next_due "@ + time_text(next_due)
                + " at sim time "@ + time_text(now)
                + "; next_due must be strictly in the future (>= 1 ns ahead) to prevent zero-time livelock"@);
            assert(text =~= ("schedule violation by "@ + crate::ids::path_text(path@))
                + (": returned next_due "@ + time_text(next_due)) + (" at sim time "@
                + time_text(now)
                + "; next_due must be strictly in the future (>= 1 ns ahead) to prevent zero-time livelock"@));
            lemma_says(text, "schedule violation by "@
                + crate::ids::path_text(path@), ": returned next_due "@
                + time_text(next_due), " at sim time "@ + time_text(now)
                + "; next_due must be strictly in the future (>= 1 ns ahead) to prevent zero-time livelock"@);
            assert(text =~= ("schedule violation by "@ + crate::ids::path_text(path@)
                + ": returned next_due "@ + time_text(next_due)) + (" at sim time "@
                + time_text(now))
                + ("; next_due must be strictly in the future (>= 1 ns ahead) to prevent zero-time livelock"@));
            lemma_says(text, "schedule violation by "@ + crate::ids::path_text(path@)
                + ": returned next_due "@ + time_text(next_due), " at sim time "@
                + time_text(now), "; next_due must be strictly in the future (>= 1 ns ahead) to prevent zero-time livelock"@);
        },
        ConductorError::StepFailed { path, now, source } => {
            assert(text =~= (none) + ("component "@ + crate::ids::path_text(path@))
                + (" failed its step at sim time "@ + time_text(now) + ": "@
                + crate::error::core_error_text(source)));
            lemma_says(text, none, "component "@
                + crate::ids::path_text(path@), " failed its step at sim time "@ + time_text(now)
                + ": "@ + crate::error::core_error_text(source));
            assert(text =~= ("component "@ + crate::ids::path_text(path@))
                + (" failed its step at sim time "@ + time_text(now)) + (": "@
                + crate::error::core_error_text(source)));
            lemma_says(text, "component "@
                + crate::ids::path_text(path@), " failed its step at sim time "@
                + time_text(now), ": "@ + crate::error::core_error_text(source));
            assert(text =~= ("component "@ + crate::ids::path_text(path@)
                + " failed its step at sim time "@ + time_text(now)) + (": "@
                + crate::error::core_error_text(source)) + (none));
            lemma_says(text, "component "@ + crate::ids::path_text(path@)
                + " failed its step at sim time "@ + time_text(now), ": "@
                + crate::error::core_error_text(source), none);
        },
        ConductorError::StepTimeout { path, now, elapsed, timeout } => {
            assert(text =~= (none) + ("component "@ + crate::ids::path_text(path@))
                + (" timed out at sim time "@ + time_text(now) + ": its step took "@
                + wall_text(elapsed) + " against a timeout of "@ + wall_text(timeout)));
            lemma_says(text, none, "component "@
                + crate::ids::path_text(path@), " timed out at sim time "@ + time_text(now)
                + ": its step took "@ + wall_text(elapsed) + " against a timeout of "@
                + wall_text(timeout));
            assert(text =~= ("component "@ + crate::ids::path_text(path@))
                + (" timed out at sim time "@ + time_text(now)) + (": its step took "@
                + wall_text(elapsed) + " against a timeout of "@ + wall_text(timeout)));
            lemma_says(text, "component "@
                + crate::ids::path_text(path@), " timed out at sim time "@
                + time_text(now), ": its step took "@ + wall_text(elapsed)
                + " against a timeout of "@ + wall_text(timeout));
            assert(text =~= ("component "@ + crate::ids::path_text(path@)
                + " timed out at sim time "@ + time_text(now)) + (": its step took "@
                + wall_text(elapsed)) + (" against a timeout of "@ + wall_text(timeout)));
            lemma_says(text, "component "@ + crate::ids::path_text(path@)
                + " timed out at sim time "@ + time_text(now), ": its step took "@
                + wall_text(elapsed), " against a timeout of "@ + wall_text(timeout));
            assert(text =~= ("component "@ + crate::ids::path_text(path@)
                + " timed out at sim time "@ + time_text(now) + ": its step took "@
                + wall_text(elapsed)) + (" against a timeout of "@ + wall_text(timeout))
                + (none));
            lemma_says(text, "component "@ + crate::ids::path_text(path@)
                + " timed out at sim time "@ + time_text(now) + ": its step took "@
                + wall_text(elapsed), " against a timeout of "@ + wall_text(timeout), none);
        },
        ConductorError::UnreachableStepBudget { path, budget, timeout } => {
            assert(text =~= (none) + ("component "@ + crate::ids::path_text(path@))
                + (" declared a budget of "@ + wall_text(budget)
                + " that could never report under a timeout of "@ + wall_text(timeout)));
            lemma_says(text, none, "component "@
                + crate::ids::path_text(path@), " declared a budget of "@ + wall_text(budget)
                + " that could never report under a timeout of "@ + wall_text(timeout));
            assert(text =~= ("component "@ + crate::ids::path_text(path@))
                + (" declared a budget of "@ + wall_text(budget))
                + (" that could never report under a timeout of "@ + wall_text(timeout)));
            lemma_says(text, "component "@
                + crate::ids::path_text(path@), " declared a budget of "@
                + wall_text(budget), " that could never report under a timeout of "@
                + wall_text(timeout));
            assert(text =~= ("component "@ + crate::ids::path_text(path@)
                + " declared a budget of "@ + wall_text(budget))
                + (" that could never report under a timeout of "@ + wall_text(timeout))
                + (none));
            lemma_says(text, "component "@ + crate::ids::path_text(path@)
                + " declared a budget of "@
                + wall_text(budget), " that could never report under a timeout of "@
                + wall_text(timeout), none);
        },
        ConductorError::Core(_) => {},
    }
}

/// A wall-clock span is shown in whole microseconds.
pub proof fn law_how_a_span_is_shown(d: WallDuration)
    requires
        d.nanos / 1_000 <= u64::MAX,
    ensures
        wall_text(d) == crate::text::decimal((d.nanos / 1_000) as nat) + seq![' ', 'u', 's'],
{
    reveal_strlit(" us");
    assert(" us"@ =~= seq![' ', 'u', 's']);
}

/// A wall-clock span as a reader sees it.
fn wall_string(d: WallDuration) -> (text: String)
    ensures
        text@ == wall_text(d),
{
    let micros: u128 = d.nanos / 1_000;
    let shown: u64 = if micros > u64::MAX as u128 {
        u64::MAX
    } else {
        micros as u64
    };
    decimal_text(shown).concat(" us")
}

impl ConductorError {
    /// The report of this error.
    pub fn to_string(&self) -> (text: String)
        ensures
            text@ == conductor_error_text(*self),
    {
        match self {
            ConductorError::DuplicatePath(path) =>
                "a component is already registered at path ".to_owned().concat(
                path.to_string().as_str(),
            ),
            ConductorError::UnknownPath(path) =>
                "no component is registered at path ".to_owned().concat(path.to_string().as_str()),
            ConductorError::JoinInThePast { path, first_due, earliest_open } =>
                "component ".to_owned().concat(path.to_string().as_str()).concat(
                " asked to first step at ",
            ).concat(first_due.to_string().as_str()).concat(
                ", but the earliest instant still open is ",
            ).concat(earliest_open.to_string().as_str()).concat(
                ": a joining component must be scheduled for a step that has not happened yet",
            ),
            ConductorError::LeaveInThePast { path, leaves_at, earliest_open } =>
                "component ".to_owned().concat(path.to_string().as_str()).concat(
                " was asked to stop at ",
            ).concat(leaves_at.to_string().as_str()).concat(
                ", but the earliest instant still open is ",
            ).concat(earliest_open.to_string().as_str()).concat(
                ": it has already stepped at instants this leave claims it did not",
            ),
            ConductorError::PathConflict { existing, new } => "path ".to_owned().concat(
                new.to_string().as_str(),
            ).concat(" conflicts with existing ").concat(existing.to_string().as_str()).concat(
                ": a leaf component cannot also be a composite",
            ),
            ConductorError::ScheduleViolation { path, now, next_due } =>
                "schedule violation by ".to_owned().concat(path.to_string().as_str()).concat(
                ": returned next_due ",
            ).concat(next_due.to_string().as_str()).concat(" at sim time ").concat(
                now.to_string().as_str(),
            ).concat(
                "; next_due must be strictly in the future (>= 1 ns ahead) to prevent zero-time livelock",
            ),
            ConductorError::StepFailed { path, now, source } => "component ".to_owned().concat(
                path.to_string().as_str(),
            ).concat(" failed its step at sim time ").concat(now.to_string().as_str()).concat(
                ": ",
            ).concat(source.to_string().as_str()),
            ConductorError::StepTimeout { path, now, elapsed, timeout } =>
                "component ".to_owned().concat(path.to_string().as_str()).concat(
                " timed out at sim time ",
            ).concat(now.to_string().as_str()).concat(": its step took ").concat(
                wall_string(*elapsed).as_str(),
            ).concat(" against a timeout of ").concat(wall_string(*timeout).as_str()),
            ConductorError::UnreachableStepBudget { path, budget, timeout } =>
                "component ".to_owned().concat(path.to_string().as_str()).concat(
                " declared a budget of ",
            ).concat(wall_string(*budget).as_str()).concat(
                " that could never report under a timeout of ",
            ).concat(wall_string(*timeout).as_str()),
            ConductorError::Core(error) => error.to_string(),
        }
    }
}

} // verus!
