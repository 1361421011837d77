//! Real-time pacing: making a run advance at 1x wall time instead of as fast
//! as possible.
//!
//! Pacing is invisible to sim logic: it only ever *delays* entry to an
//! instant, never changes what happens in it. The rule is to sleep until the
//! wall time corresponding to the next instant's sim time. If the sim cannot
//! keep up, it runs slower than real time and reports the overruns: the
//! wall-time anchor slips by the overrun amount rather than sprinting to make
//! up lost time.
use vstd::prelude::*;

use crate::time::SimTime;
use crate::timing::WallDuration;

verus! {

/// How the conductor advances through simulation time. Never affects the
/// world hash, only timing.
#[derive(Debug, Clone, Copy, PartialEq, Eq, Structural)]
pub enum Pacing {
    /// Advance as fast as possible: step the next instant the moment the
    /// previous one finishes.
    FreeRun,
    /// Advance at 1x real time: each instant waits for its wall-clock target.
    ///
    /// `spin_padding` is how much of each wait's tail to busy-spin instead of
    /// sleep. Use [`Pacing::real_time`] or [`Pacing::real_time_precise`]
    /// rather than spelling the padding out.
    RealTime { spin_padding: WallDuration },
}

impl Pacing {
    /// 1x real time on the OS timer alone: no busy-spin, no CPU spent between
    /// instants.
    pub fn real_time() -> (pacing: Self)
        ensures
            pacing == (Pacing::RealTime { spin_padding: WallDuration { nanos: 0 } }),
    {
        Pacing::RealTime { spin_padding: WallDuration::zero() }
    }

    /// 1x real time with 1 ms of sleep-then-spin for sub-millisecond
    /// accuracy, at the cost of a core for that final stretch.
    pub fn real_time_precise() -> (pacing: Self)
        ensures
            pacing == (Pacing::RealTime { spin_padding: WallDuration { nanos: 1_000_000 } }),
    {
        Pacing::RealTime { spin_padding: WallDuration::from_millis(1) }
    }
}

impl Default for Pacing {
    fn default() -> (pacing: Self)
        ensures
            pacing == Pacing::FreeRun,
    {
        Pacing::FreeRun
    }
}

/// A monotonic wall clock, abstracted so pacing can be tested without
/// sleeping. Readings are nanoseconds since the clock's own origin; only
/// differences are ever used, so the origin is arbitrary.
pub trait WallClock {
    fn elapsed_nanos(&self) -> i64;

    fn sleep(&mut self, nanos: i128);
}

/// The coarse-sleep portion of a wait: sleep all but the final `padding`,
/// which is busy-spun. Zero when the whole wait fits inside the padding; the
/// full wait when `padding` is zero.
pub fn coarse_sleep_nanos(total: i128, padding: i128) -> (nanos: i128)
    requires
        i128::MIN <= total - padding <= i128::MAX,
    ensures
        nanos == (if total > padding {
            total - padding
        } else {
            0
        }),
{
    if total > padding {
        total - padding
    } else {
        0
    }
}

/// Accumulated overrun, in nanoseconds, at which the anchor gives up and
/// slips: one millisecond.
///
/// Below it, lateness is absorbed exactly as an oversleep is: the anchor
/// stays put, so the next instant's sleep swallows it. Because the anchor
/// does not move, lateness keeps accumulating against it, so a sim that
/// genuinely cannot keep up crosses this eventually and is reported then.
pub const OVERRUN_REANCHOR_THRESHOLD: i128 = 1_000_000;

/// What to do about an instant, given where the clock stands.
#[derive(Debug, Clone, Copy, PartialEq, Eq, Structural)]
pub enum PaceAction {
    /// The first instant: anchor here and start on time.
    Anchor,
    /// Early: wait this many nanoseconds.
    Sleep(i128),
    /// On target, or late by less than the threshold: carry on.
    Proceed,
    /// Late by this much: report it and slip the anchor.
    Slip(u128),
}

/// What to do about the instant `sim` when the clock reads `wall`: its target
/// is as far past the wall anchor as it is past the sim anchor.
pub open spec fn pace_action(anchor: Option<(i64, i64)>, sim: i64, wall: i64) -> PaceAction {
    match anchor {
        None => PaceAction::Anchor,
        Some((sim_anchor, wall_anchor)) => {
            let target = wall_anchor + (sim - sim_anchor);
            if wall < target {
                PaceAction::Sleep((target - wall) as i128)
            } else if wall - target >= OVERRUN_REANCHOR_THRESHOLD {
                PaceAction::Slip((wall - target) as u128)
            } else {
                PaceAction::Proceed
            }
        },
    }
}

/// Where a pacer stands.
pub struct PacerModel {
    /// The point of the map from sim time to wall time, once there is one.
    pub anchor: Option<(i64, i64)>,
    pub overrun_reanchors: u64,
    pub total_slip_nanos: u128,
}

/// Where a pacer stands after an instant that the clock read `wall` at.
pub open spec fn paced(before: PacerModel, sim: i64, wall: i64) -> PacerModel {
    match pace_action(before.anchor, sim, wall) {
        PaceAction::Anchor => PacerModel { anchor: Some((sim, wall)), ..before },
        PaceAction::Sleep(_) => before,
        PaceAction::Proceed => before,
        PaceAction::Slip(late) => PacerModel {
            anchor: Some((sim, wall)),
            overrun_reanchors: (before.overrun_reanchors + 1) as u64,
            total_slip_nanos: (before.total_slip_nanos + late) as u128,
        },
    }
}

/// The most that one overrun can be, in nanoseconds.
pub const MAX_OVERRUN: u128 = 0x1_FFFF_FFFF_FFFF_FFFE;

/// Maps sim time onto wall time and blocks to keep a run at 1x real time.
///
/// The anchor fixes one point of that map. Sleeping to hit the target keeps
/// the anchor fixed, so an oversleep on one step is absorbed by a shorter
/// sleep on the next. Once accumulated lateness passes the threshold, the
/// anchor moves to the moment the late instant actually starts: the run falls
/// permanently behind by that much rather than sprinting to catch up.
pub struct Pacer<C: WallClock> {
    pub clock: C,
    /// The sim time and the wall time of the anchor; `None` until the first
    /// paced instant, which establishes it and never waits.
    pub anchor: Option<(i64, i64)>,
    pub overrun_reanchors: u64,
    pub total_slip_nanos: u128,
}

impl<C: WallClock> Pacer<C> {
    /// Where this pacer stands.
    pub open spec fn model(&self) -> PacerModel {
        PacerModel {
            anchor: self.anchor,
            overrun_reanchors: self.overrun_reanchors,
            total_slip_nanos: self.total_slip_nanos,
        }
    }

    /// No overrun is counted whose size could not have been.
    pub open spec fn wf(&self) -> bool {
        self.model().total_slip_nanos <= self.model().overrun_reanchors * MAX_OVERRUN
    }

    /// An un-anchored pacer; the first `pace` call anchors it.
    pub fn new(clock: C) -> (pacer: Self)
        ensures
            pacer.clock == clock,
            pacer.model() == (PacerModel {
                anchor: None,
                overrun_reanchors: 0,
                total_slip_nanos: 0,
            }),
            pacer.wf(),
    {
        Pacer { clock, anchor: None, overrun_reanchors: 0, total_slip_nanos: 0 }
    }

    /// What to do about an instant when the clock reads `wall`.
    pub fn decide(&self, sim_now: SimTime, wall: i64) -> (action: PaceAction)
        ensures
            action == pace_action(self.model().anchor, sim_now.0, wall),
    {
        match self.anchor {
            None => PaceAction::Anchor,
            Some((sim_anchor, wall_anchor)) => {
                let target: i128 = wall_anchor as i128 + (sim_now.0 as i128 - sim_anchor as i128);
                let wall: i128 = wall as i128;
                if wall < target {
                    PaceAction::Sleep(target - wall)
                } else if wall - target >= OVERRUN_REANCHOR_THRESHOLD {
                    PaceAction::Slip((wall - target) as u128)
                } else {
                    PaceAction::Proceed
                }
            },
        }
    }

    /// Called at the top of every instant with its sim time. Blocks until
    /// this instant's wall-clock target; if already past it, absorbs small
    /// lateness silently and slips the anchor once the accumulated overrun
    /// passes the threshold. The action taken is returned.
    ///
    /// The clock decides the reading; whatever it read, the pacer ends up
    /// where that reading puts it, and sleeps exactly as long as it says.
    pub fn pace(&mut self, sim_now: SimTime) -> (action: PaceAction)
        requires
            old(self).wf(),
            old(self).model().overrun_reanchors < i64::MAX,
        ensures
            final(self).wf(),
            exists|wall: i64|
                {
                    &&& call_ensures(C::elapsed_nanos, (&old(self).clock,), wall)
                    &&& action == pace_action(old(self).model().anchor, sim_now.0, wall)
                    &&& final(self).model() == #[trigger] paced(old(self).model(), sim_now.0, wall)
                },
            match action {
                PaceAction::Sleep(nanos) => exists|sleeper: &mut C|
                    *sleeper == old(self).clock && *final(sleeper) == final(self).clock
                        && #[trigger] call_ensures(C::sleep, (sleeper, nanos), ()),
                _ => final(self).clock == old(self).clock,
            },
    {
        let wall: i64 = self.clock.elapsed_nanos();
        let action = self.decide(sim_now, wall);
        match action {
            PaceAction::Anchor => {
                self.anchor = Some((sim_now.0, wall));
            },
            PaceAction::Sleep(nanos) => {
                self.clock.sleep(nanos);
            },
            PaceAction::Proceed => {},
            PaceAction::Slip(late) => {
                self.overrun_reanchors = self.overrun_reanchors + 1;
                self.total_slip_nanos = self.total_slip_nanos + late;
                self.anchor = Some((sim_now.0, wall));
            },
        }
        proof {
            assert(self.model() == paced(old(self).model(), sim_now.0, wall));
        }
        action
    }

    /// How many times the anchor has slipped.
    pub fn overrun_reanchor_count(&self) -> (count: u64)
        ensures
            count == self.model().overrun_reanchors,
    {
        self.overrun_reanchors
    }

    /// The wall time by which the run has permanently fallen behind.
    pub fn total_slip(&self) -> (slip: WallDuration)
        ensures
            slip.nanos == self.model().total_slip_nanos,
    {
        WallDuration { nanos: self.total_slip_nanos }
    }
}

/// Has a pacer enter an instant: one call of [`Pacer::pace`], and what it
/// made of the pacer.
pub fn keep_pace<C: WallClock>(pacer: Pacer<C>, sim_now: SimTime) -> (kept: (Pacer<C>, PaceAction))
    requires
        pacer.wf(),
        pacer.model().overrun_reanchors < i64::MAX,
    ensures
        kept.0.wf(),
        exists|wall: i64|
            {
                &&& call_ensures(C::elapsed_nanos, (&pacer.clock,), wall)
                &&& kept.1 == pace_action(pacer.model().anchor, sim_now.0, wall)
                &&& kept.0.model() == #[trigger] paced(pacer.model(), sim_now.0, wall)
            },
        match kept.1 {
            PaceAction::Sleep(nanos) => exists|sleeper: &mut C|
                *sleeper == pacer.clock && *final(sleeper) == kept.0.clock
                    && #[trigger] call_ensures(C::sleep, (sleeper, nanos), ()),
            _ => kept.0.clock == pacer.clock,
        },
{
    let mut after = pacer;
    let action = after.pace(sim_now);
    let kept = (after, action);
    proof {
        if let PaceAction::Sleep(nanos) = action {
            let sleeper = choose|sleeper: &mut C|
                *sleeper == pacer.clock && *final(sleeper) == after.clock
                    && #[trigger] call_ensures(C::sleep, (sleeper, nanos), ());
            assert(call_ensures(C::sleep, (sleeper, kept.1->Sleep_0), ()));
        }
    }
    kept
}

/// Whether entering an instant can make a pacer what it is after it: what
/// [`keep_pace`] does with it.
pub open spec fn keeps_pace<C: WallClock>(
    pacer: Pacer<C>,
    sim_now: SimTime,
    after: Pacer<C>,
    action: PaceAction,
) -> bool {
    call_ensures(keep_pace::<C>, (pacer, sim_now), (after, action))
}

/// A pacer that stands somewhere, with a clock.
pub open spec fn pacer_with<C: WallClock>(clock: C, model: PacerModel) -> Pacer<C> {
    Pacer {
        clock,
        anchor: model.anchor,
        overrun_reanchors: model.overrun_reanchors,
        total_slip_nanos: model.total_slip_nanos,
    }
}

/// What is done about an instant. The first one becomes the anchor, without a
/// wait. Any other has its target as far past the anchor in wall time as it
/// is in sim time: before it the pacer waits for exactly what is left; less
/// than a millisecond behind it nothing is done; and from a millisecond on
/// the anchor moves to where the instant and the clock stand, one slip more
/// is counted, and the run is behind by that much more.
pub proof fn law_what_is_done_about_an_instant(before: PacerModel, sim: i64, wall: i64)
    requires
        before.overrun_reanchors < u64::MAX,
        before.total_slip_nanos + 0x2_0000_0000_0000_0000 <= u128::MAX,
    ensures
        ({
            let action = pace_action(before.anchor, sim, wall);
            let after = paced(before, sim, wall);
            match before.anchor {
                None => action == PaceAction::Anchor && after.anchor == Some((sim, wall))
                    && after.overrun_reanchors == before.overrun_reanchors
                    && after.total_slip_nanos == before.total_slip_nanos,
                Some(anchor) => {
                    let target = anchor.1 + (sim - anchor.0);
                    if wall < target {
                        action is Sleep && action->Sleep_0 == target - wall && after == before
                    } else if wall - target < 1_000_000 {
                        action == PaceAction::Proceed && after == before
                    } else {
                        &&& action is Slip
                        &&& action->Slip_0 == wall - target
                        &&& after.anchor == Some((sim, wall))
                        &&& after.overrun_reanchors == before.overrun_reanchors + 1
                        &&& after.total_slip_nanos == before.total_slip_nanos + (wall - target)
                    }
                },
            }
        }),
{
}

/// Waiting until an instant's target leaves nothing to do about it: a clock
/// that reads the target afterwards neither sleeps nor slips.
pub proof fn law_a_full_sleep_lands_on_target(anchor: (i64, i64), sim: i64, wall: i64, after: i64)
    requires
        pace_action(Some(anchor), sim, wall) matches PaceAction::Sleep(nanos) && after == wall
            + nanos,
    ensures
        pace_action(Some(anchor), sim, after) == PaceAction::Proceed,
{
}

/// A slip is never made up: from the moment the anchor slips, an instant
/// `gap` nanoseconds later waits the whole gap from there.
pub proof fn law_a_slip_is_never_caught_up(before: PacerModel, sim: i64, wall: i64, gap: i64)
    requires
        pace_action(before.anchor, sim, wall) is Slip,
        gap > 0,
        sim + gap <= i64::MAX,
    ensures
        pace_action(paced(before, sim, wall).anchor, (sim + gap) as i64, wall)
            == PaceAction::Sleep(gap as i128),
{
}

} // verus!
