//! Who takes part in a conducted world: the components themselves, and what
//! every operation of the conductor makes of them.
//!
//! A [`WorldModel`] says what a world is apart from its components. A
//! [`CastModel`] holds the components: what each replies in an instant is
//! what its own step makes of what it is told.
use vstd::prelude::*;

use crate::component::{Component, StepCtx};
use crate::conductor_error::ConductorErrorModel;
use crate::pacing::{PaceAction, PacerModel, WallClock};
use crate::stopwatch::Moment;
use crate::time::SimTime;
use crate::timing::WallDuration;
use crate::world::{CallModel, ReplyModel, WorldModel};

verus! {

/// The components of a world.
#[verifier::ext_equal]
pub struct CastModel<K> {
    /// Those that are registered, in their slots.
    pub slots: Seq<Option<K>>,
    /// Those whose join waits, in the order they wait.
    pub waiting: Seq<K>,
}

// ---------------------------------------------------------------------------
// Leaving and joining
// ---------------------------------------------------------------------------

/// The cast after a leave takes effect: the component at the path is gone, or
/// else the first whose join waits for it.
pub open spec fn cast_gone<K>(
    cast: CastModel<K>,
    m: WorldModel,
    path: Seq<Seq<char>>,
) -> CastModel<K> {
    let place = crate::world::join_place(m.joins, path) as int;
    if crate::registry::is_registered(m.registry.entries, path) {
        CastModel {
            slots: cast.slots.update(
                crate::registry::slot_of(m.registry.entries, path) as int,
                None,
            ),
            ..cast
        }
    } else if place < m.joins.len() {
        CastModel { waiting: cast.waiting.remove(place), ..cast }
    } else {
        cast
    }
}

/// The cast after several leaves take effect, in order.
pub open spec fn cast_all_gone<K>(
    cast: CastModel<K>,
    m: WorldModel,
    paths: Seq<Seq<Seq<char>>>,
    leaves_at: i64,
) -> CastModel<K>
    decreases paths.len(),
{
    if paths.len() == 0 {
        cast
    } else {
        cast_gone(
            cast_all_gone(cast, m, paths.drop_last(), leaves_at),
            crate::world::all_gone(m, paths.drop_last(), leaves_at),
            paths.last(),
        )
    }
}

/// The cast once every leave that has come due has taken effect.
pub open spec fn cast_settled<K>(cast: CastModel<K>, m: WorldModel, limit: i64) -> CastModel<K>
    decreases m.leaves.len(),
{
    if crate::world::leave_is_due(m, limit) {
        cast_settled(
            cast_gone(
                cast,
                WorldModel { leaves: m.leaves.drop_first(), ..m },
                m.leaves[0].1,
            ),
            crate::world::front_gone(m),
            limit,
        )
    } else {
        cast
    }
}

/// The cast after a component is admitted: it takes the next slot, unless it
/// is refused.
pub open spec fn cast_admission<K>(
    cast: CastModel<K>,
    m: WorldModel,
    path: Seq<Seq<char>>,
    component: K,
) -> CastModel<K> {
    match crate::registry::add_error(m.registry, path) {
        Some(_) => cast,
        None => CastModel { slots: cast.slots.push(Some(component)), ..cast },
    }
}

/// The cast once every join for no later than `instant` is admitted.
pub open spec fn cast_admitted<K>(cast: CastModel<K>, m: WorldModel, instant: i64) -> CastModel<K>
    decreases m.joins.len(),
{
    if m.joins.len() > 0 && m.joins[0].0 <= instant {
        let rest = WorldModel { joins: m.joins.drop_first(), ..m };
        let next = crate::world::admission(rest, m.joins[0].0, m.joins[0].1);
        let entered = cast_admission(
            CastModel { waiting: cast.waiting.drop_first(), ..cast },
            rest,
            m.joins[0].1.path,
            cast.waiting[0],
        );
        if next.error is Some {
            entered
        } else {
            cast_admitted(entered, next.world, instant)
        }
    } else {
        cast
    }
}

/// The cast at the boundary before the next instant.
pub open spec fn cast_boundary<K>(cast: CastModel<K>, m: WorldModel) -> CastModel<K> {
    let ready = crate::world::settled(m, i64::MAX);
    let settled = cast_settled(cast, m, i64::MAX);
    match crate::world::next_due(ready) {
        Some(next) => cast_admitted(settled, ready, next),
        None => settled,
    }
}

/// The cast after a join request: a component that is accepted takes the next
/// slot at once, or waits behind those that wait for no later than it.
pub open spec fn cast_after_join<K>(
    cast: CastModel<K>,
    m: WorldModel,
    first_due: SimTime,
    component: K,
    answer: Result<Seq<Seq<char>>, ConductorErrorModel>,
) -> CastModel<K> {
    match answer {
        Err(_) => cast,
        Ok(_) => if first_due.0 == crate::world::earliest_open(m) {
            CastModel { slots: cast.slots.push(Some(component)), ..cast }
        } else {
            CastModel {
                waiting: cast.waiting.insert(
                    crate::queue::not_later(m.joins, first_due.0) as int,
                    component,
                ),
                ..cast
            }
        },
    }
}

/// The cast after a leave request: whoever it takes out at once is gone.
pub open spec fn cast_after_leave<K>(
    cast: CastModel<K>,
    m: WorldModel,
    asked: Seq<char>,
    leaves_at: Option<SimTime>,
) -> CastModel<K> {
    match (crate::ids::parse_path(asked), leaves_at) {
        (Ok(path), None) => cast_all_gone(
            cast,
            crate::world::leave_noted(m, asked, leaves_at),
            crate::world::departing(m, path),
            crate::world::earliest_open(m) as i64,
        ),
        _ => cast,
    }
}

// ---------------------------------------------------------------------------
// Stepping
// ---------------------------------------------------------------------------

/// Whether a step was timed: the clock was read, the component stepped, and
/// the clock was read again, in that order and with nothing else between. The
/// two readings put the step at its duration, or at none where the clock ran
/// backwards.
pub open spec fn timed<C: WallClock>(
    clock: C,
    call: CallModel,
    noted: Seq<Moment>,
    took: WallDuration,
) -> bool {
    match (noted[0], noted[2]) {
        (Moment::Read(started), Moment::Read(ended)) => {
            &&& noted == seq![Moment::Read(started), Moment::Asked(call), Moment::Read(ended)]
            &&& call_ensures(C::elapsed_nanos, (&clock,), started)
            &&& call_ensures(C::elapsed_nanos, (&clock,), ended)
            &&& took.nanos == (if ended >= started {
                ended - started
            } else {
                0
            })
        },
        _ => false,
    }
}

/// What a stopwatch noted at the `i`th step of an instant.
pub open spec fn noted_at(moments: Seq<Moment>, i: int) -> Seq<Moment> {
    moments.subrange(3 * i, 3 * i + 3)
}

/// Whether a component exposes a state.
pub open spec fn exposes<K: Component>(component: K, state: Option<Seq<u8>>) -> bool {
    exists|bytes: Option<Vec<u8>>|
        state == crate::conductor::exposed_bytes(bytes) && #[trigger] call_ensures(
            K::state_bytes,
            (&component,),
            bytes,
        )
}

/// Whether a component that is told something can reply as it did: its own
/// step, shown exactly that, came to the outcome and queued what it queued,
/// and after a step that did what it should the component exposes its state.
pub open spec fn replies_within<K: Component>(
    component: K,
    call: CallModel,
    reply: ReplyModel,
    after: K,
    shown: StepCtx,
    done: StepCtx,
) -> bool {
    &&& crate::stopwatch::told_to(call.path, shown@) == call
    &&& shown@.outbox.len() == 0
    &&& crate::component::took_step(component, shown, reply.outcome, after, done)
    &&& reply.outbox == done@.outbox
    &&& match reply.outcome {
        Ok(next_due) => if next_due.0 > call.now.0 {
            exposes(after, reply.state)
        } else {
            reply.state is None
        },
        Err(_) => reply.state is None,
    }
}

/// Whether a component that is told something can reply as it did, and become
/// what it is after it, however long it took.
pub open spec fn answers<K: Component>(
    component: K,
    call: CallModel,
    reply: ReplyModel,
    after: K,
) -> bool {
    exists|shown: StepCtx, done: StepCtx| #[trigger]
        replies_within(component, call, reply, after, shown, done)
}

/// Whether a component that is told something can reply as it did, and what
/// it is after it. How long it took is what the clock read just before that
/// step and just after it.
pub open spec fn replied<K: Component, C: WallClock>(
    component: K,
    call: CallModel,
    clock: C,
    noted: Seq<Moment>,
    reply: ReplyModel,
    after: K,
) -> bool {
    &&& answers(component, call, reply, after)
    &&& timed(clock, call, noted, reply.took)
}

/// Whether the `i`th reply of an instant is that of the component whose turn
/// it was, told what the world then had for it, with nothing that stopped the
/// world before, and nobody else changed.
pub open spec fn plays_at<K: Component, C: WallClock>(
    ready: WorldModel,
    clock: C,
    moments: Seq<Moment>,
    replies: Seq<ReplyModel>,
    casts: Seq<Seq<Option<K>>>,
    i: int,
) -> bool {
    let index = crate::schedule::due_first(ready.schedule)[i];
    let t = crate::world::tick_outcome(ready, replies.take(i));
    let slots = casts[i];
    &&& t.error is None
    &&& index < slots.len()
    &&& slots[index as int] is Some
    &&& casts[i + 1][index as int] is Some
    &&& casts[i + 1] == slots.update(index as int, casts[i + 1][index as int])
    &&& replied(
        slots[index as int]->0,
        crate::world::call_of(t.world, index),
        clock,
        noted_at(moments, i),
        replies[i],
        casts[i + 1][index as int]->0,
    )
}

/// Whether the replies of an instant are those of the components that were
/// due at it, one after the other, from the first cast to the last.
pub open spec fn played<K: Component, C: WallClock>(
    ready: WorldModel,
    clock: C,
    moments: Seq<Moment>,
    replies: Seq<ReplyModel>,
    casts: Seq<Seq<Option<K>>>,
) -> bool {
    &&& casts.len() == replies.len() + 1
    &&& moments.len() == 3 * replies.len()
    &&& forall|i: int|
        0 <= i < replies.len() ==> #[trigger] plays_at(ready, clock, moments, replies, casts, i)
}

/// One more component's turn.
pub proof fn lemma_played_on<K: Component, C: WallClock>(
    ready: WorldModel,
    clock: C,
    moments: Seq<Moment>,
    replies: Seq<ReplyModel>,
    casts: Seq<Seq<Option<K>>>,
    noted: Seq<Moment>,
    reply: ReplyModel,
    slots: Seq<Option<K>>,
)
    requires
        played(ready, clock, moments, replies, casts),
        ({
            let index = crate::schedule::due_first(ready.schedule)[replies.len() as int];
            let t = crate::world::tick_outcome(ready, replies);
            &&& t.error is None
            &&& index < casts.last().len()
            &&& casts.last()[index as int] is Some
            &&& slots[index as int] is Some
            &&& slots == casts.last().update(index as int, slots[index as int])
            &&& replied(
                casts.last()[index as int]->0,
                crate::world::call_of(t.world, index),
                clock,
                noted,
                reply,
                slots[index as int]->0,
            )
        }),
    ensures
        played(ready, clock, moments + noted, replies.push(reply), casts.push(slots)),
{
    let more = replies.push(reply);
    let longer = casts.push(slots);
    let on = moments + noted;
    assert forall|i: int| 0 <= i < more.len() implies #[trigger] plays_at(
        ready,
        clock,
        on,
        more,
        longer,
        i,
    ) by {
        if i < replies.len() {
            assert(plays_at(ready, clock, moments, replies, casts, i));
            assert(more.take(i) =~= replies.take(i));
            assert(noted_at(on, i) =~= noted_at(moments, i));
        } else {
            assert(more.take(i) =~= replies);
            assert(noted_at(on, i) =~= noted);
        }
    }
}

/// Whether an instant leads from one world and cast to another: every
/// component that is due replied in turn, or one of them stopped the world.
pub open spec fn ticks_with<K: Component, C: WallClock>(
    ready: WorldModel,
    slots: Seq<Option<K>>,
    clock: C,
    moments: Seq<Moment>,
    replies: Seq<ReplyModel>,
    casts: Seq<Seq<Option<K>>>,
    after: WorldModel,
    outcome: Result<bool, ConductorErrorModel>,
) -> bool {
    &&& crate::world::ticks(ready, replies, after, outcome)
    &&& played(ready, clock, moments, replies, casts)
    &&& casts[0] == slots
}

/// Whether one advance leads from one world and cast to another, on a clock
/// that times the steps: the boundary settles, and the instant after it, if
/// there is one, is stepped by the components that are due. What is done with
/// the stopwatch is to time those steps, one after the other.
#[verifier::opaque]
pub open spec fn advances_with<K: Component, C: WallClock>(
    before: WorldModel,
    cast: CastModel<K>,
    clock: C,
    moments: Seq<Moment>,
    after: WorldModel,
    cast_after: CastModel<K>,
    outcome: Result<bool, ConductorErrorModel>,
) -> bool {
    let ready = crate::world::boundary(before);
    let entered = cast_boundary(cast, before);
    if ready.error is Some || ready.world.schedule.len() == 0 {
        &&& crate::world::advances(before, after, outcome)
        &&& cast_after == entered
        &&& moments.len() == 0
    } else {
        exists|replies: Seq<ReplyModel>, casts: Seq<Seq<Option<K>>>|
            {
                &&& #[trigger] ticks_with(
                    ready.world,
                    entered.slots,
                    clock,
                    moments,
                    replies,
                    casts,
                    after,
                    outcome,
                )
                &&& cast_after == (CastModel { slots: casts.last(), ..entered })
            }
    }
}

/// An advance of a world with its components is an advance of the world.
pub proof fn lemma_advances<K: Component, C: WallClock>(
    before: WorldModel,
    cast: CastModel<K>,
    clock: C,
    moments: Seq<Moment>,
    after: WorldModel,
    cast_after: CastModel<K>,
    outcome: Result<bool, ConductorErrorModel>,
)
    requires
        advances_with(before, cast, clock, moments, after, cast_after, outcome),
    ensures
        crate::world::advances(before, after, outcome),
{
    reveal(advances_with);
    reveal(crate::world::advances);
}

// ---------------------------------------------------------------------------
// Running
// ---------------------------------------------------------------------------

/// A world between two instants, with its components, the clock that times
/// them, what was done to time them so far, and where the pacer stands.
pub struct StageModel<K, C> {
    pub world: WorldModel,
    pub cast: CastModel<K>,
    pub clock: C,
    pub moments: Seq<Moment>,
    pub pace: Option<PacerModel>,
}

/// Where a pacer and its clock stand after entering an instant: where keeping
/// pace puts them. A free run keeps no pace, and its clock is only read.
pub open spec fn kept_pace<C: WallClock>(
    before: Option<PacerModel>,
    clock: C,
    after: Option<PacerModel>,
    clock_after: C,
    now: SimTime,
) -> bool {
    match (before, after) {
        (Some(was), Some(is)) => exists|action: PaceAction| #[trigger]
            crate::pacing::keeps_pace(
                crate::pacing::pacer_with(clock, was),
                now,
                crate::pacing::pacer_with(clock_after, is),
                action,
            ),
        (None, None) => clock_after == clock,
        _ => false,
    }
}

/// Whether one stage of a run through `end` leads to the one after it: it
/// settles, something is due by then, and the components due at that instant
/// step it.
pub open spec fn stage_leads<K: Component, C: WallClock>(
    stages: Seq<StageModel<K, C>>,
    i: int,
    end: i64,
) -> bool {
    let from = stages[i];
    let to = stages[i + 1];
    let calm = crate::world::settled(from.world, end);
    &&& !crate::world::done_by(calm, end)
    &&& from.moments.is_prefix_of(to.moments)
    &&& advances_with(
        calm,
        cast_settled(from.cast, from.world, end),
        to.clock,
        crate::stopwatch::since(from.moments, to.moments),
        to.world,
        to.cast,
        Ok::<bool, ConductorErrorModel>(true),
    )
    &&& kept_pace(from.pace, from.clock, to.pace, to.clock, to.world.sim_time)
}

/// Whether a run through `end` fails between one stage and another: it
/// settles, something is due by then, and the boundary before that instant or
/// one of the components due at it stops the world.
pub open spec fn stage_fails<K: Component, C: WallClock>(
    from: StageModel<K, C>,
    end: i64,
    to: StageModel<K, C>,
    error: ConductorErrorModel,
) -> bool {
    let calm = crate::world::settled(from.world, end);
    &&& !crate::world::done_by(calm, end)
    &&& from.moments.is_prefix_of(to.moments)
    &&& advances_with(
        calm,
        cast_settled(from.cast, from.world, end),
        to.clock,
        crate::stopwatch::since(from.moments, to.moments),
        to.world,
        to.cast,
        Err::<bool, ConductorErrorModel>(error),
    )
    &&& if to.world.tick == from.world.tick {
        to.pace == from.pace && to.clock == from.clock
    } else {
        kept_pace(from.pace, from.clock, to.pace, to.clock, to.world.sim_time)
    }
}

/// Whether running through `end` leads from one stage to another: instant by
/// instant until nothing is due by then, or until one is refused.
pub open spec fn runs_with<K: Component, C: WallClock>(
    before: StageModel<K, C>,
    end: i64,
    stages: Seq<StageModel<K, C>>,
    after: StageModel<K, C>,
    outcome: Result<(), ConductorErrorModel>,
) -> bool {
    let last = stages.last();
    let calm = crate::world::settled(last.world, end);
    let cast = cast_settled(last.cast, last.world, end);
    &&& stages.len() > 0
    &&& stages[0] == before
    &&& forall|i: int| 0 <= i < stages.len() - 1 ==> #[trigger] stage_leads(stages, i, end)
    &&& match outcome {
        Ok(_) => {
            &&& after == (StageModel { world: calm, cast, ..last })
            &&& crate::world::done_by(calm, end)
        },
        Err(error) => stage_fails(last, end, after, error),
    }
}

/// A run with its components is a run of its worlds.
pub proof fn lemma_runs<K: Component, C: WallClock>(
    before: StageModel<K, C>,
    end: i64,
    stages: Seq<StageModel<K, C>>,
    after: StageModel<K, C>,
    outcome: Result<(), ConductorErrorModel>,
)
    requires
        runs_with(before, end, stages, after, outcome),
    ensures
        crate::world::runs_until(
            before.world,
            end,
            Seq::new(stages.len(), |i: int| stages[i].world),
            after.world,
            outcome,
        ),
{
    let worlds = Seq::new(stages.len(), |i: int| stages[i].world);
    assert forall|i: int| 0 <= i < worlds.len() - 1 implies #[trigger] crate::world::leads_on(
        worlds,
        i,
        end,
    ) by {
        assert(stage_leads(stages, i, end));
        let from = stages[i];
        let to = stages[i + 1];
        lemma_advances(
            crate::world::settled(from.world, end),
            cast_settled(from.cast, from.world, end),
            to.clock,
            crate::stopwatch::since(from.moments, to.moments),
            to.world,
            to.cast,
            Ok::<bool, ConductorErrorModel>(true),
        );
    }
    match outcome {
        Ok(_) => {},
        Err(error) => {
            let last = stages.last();
            lemma_advances(
                crate::world::settled(last.world, end),
                cast_settled(last.cast, last.world, end),
                after.clock,
                crate::stopwatch::since(last.moments, after.moments),
                after.world,
                after.cast,
                Err::<bool, ConductorErrorModel>(error),
            );
        },
    }
}

/// A run that leads on from its last stage is a longer run.
pub proof fn lemma_stages_on<K: Component, C: WallClock>(
    stages: Seq<StageModel<K, C>>,
    next: StageModel<K, C>,
    end: i64,
)
    requires
        stages.len() > 0,
        forall|i: int| 0 <= i < stages.len() - 1 ==> #[trigger] stage_leads(stages, i, end),
        stage_leads(seq![stages.last(), next], 0, end),
    ensures
        forall|i: int|
            0 <= i < stages.push(next).len() - 1 ==> #[trigger] stage_leads(
                stages.push(next),
                i,
                end,
            ),
{
    let longer = stages.push(next);
    let step = seq![stages.last(), next];
    assert forall|i: int| 0 <= i < longer.len() - 1 implies #[trigger] stage_leads(
        longer,
        i,
        end,
    ) by {
        if i < stages.len() - 1 {
            assert(stage_leads(stages, i, end));
            assert(longer[i] == stages[i] && longer[i + 1] == stages[i + 1]);
        } else {
            assert(longer[i] == step[0] && longer[i + 1] == step[1]);
        }
    }
}

} // verus!
