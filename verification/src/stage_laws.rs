//! Laws of what the components of a world take part in.
use vstd::prelude::*;

use crate::component::{Component, StepCtx};
use crate::conductor_error::ConductorErrorModel;
use crate::pacing::{PaceAction, WallClock};
use crate::run_laws::{due_next, is_ready, tick_after};
use crate::stage::{played, plays_at, replies_within, ticks_with, StageModel};
use crate::stopwatch::Moment;
use crate::time::SimTime;
use crate::world::{ReplyModel, WorldModel};

verus! {

/// The component whose turn is the `i`th of an instant is asked to step once,
/// by itself: it is shown the instant, the world's name, its seed and exactly
/// the messages that wait for it and are released to it, in order, and what
/// it queues is what it replies.
pub proof fn law_a_component_is_shown_exactly_its_mail<K: Component, C: WallClock>(
    ready: WorldModel,
    clock: C,
    moments: Seq<Moment>,
    replies: Seq<ReplyModel>,
    casts: Seq<Seq<Option<K>>>,
    i: int,
)
    requires
        played(ready, clock, moments, replies, casts),
        0 <= i < replies.len(),
    ensures
        ({
            let index = due_next(ready)[i];
            let world = tick_after(ready, replies, i).world;
            let entry = world.registry.entries[index as int]->0;
            exists|shown: StepCtx, done: StepCtx|
                {
                    &&& #[trigger] crate::component::took_step(
                        casts[i][index as int]->0,
                        shown,
                        replies[i].outcome,
                        casts[i + 1][index as int]->0,
                        done,
                    )
                    &&& shown@.now == world.sim_time
                    &&& shown@.world_name == world.name
                    &&& shown@.component_seed == entry.component_seed
                    &&& crate::messages::message_models(shown@.inbox)
                        == crate::transport::handed_over(
                        world.mail,
                        entry.path,
                        world.registry.children,
                        entry.path,
                        world.sim_time,
                    )
                    &&& replies[i].outbox == done@.outbox
                }
        }),
{
    assert(plays_at(ready, clock, moments, replies, casts, i));
    let index = due_next(ready)[i];
    let world = tick_after(ready, replies, i).world;
    assert(crate::world::tick_outcome(ready, replies.take(i)) == tick_after(ready, replies, i));
    let call = crate::world::call_of(world, index);
    let component = casts[i][index as int]->0;
    let after = casts[i + 1][index as int]->0;
    let (shown, done) = choose|shown: StepCtx, done: StepCtx| #[trigger]
        replies_within(component, call, replies[i], after, shown, done);
    assert(replies_within(component, call, replies[i], after, shown, done));
    assert(crate::component::took_step(component, shown, replies[i].outcome, after, done));
}

/// What a component is held to have taken is the wall time of its own step:
/// of all that is done with the stopwatch in an instant, the `i`th step
/// stands between a reading just before it and a reading just after it, and
/// the time between the two is what it took, or none where the clock ran
/// backwards.
pub proof fn law_a_step_stands_between_its_readings<K: Component, C: WallClock>(
    ready: WorldModel,
    clock: C,
    moments: Seq<Moment>,
    replies: Seq<ReplyModel>,
    casts: Seq<Seq<Option<K>>>,
    i: int,
)
    requires
        played(ready, clock, moments, replies, casts),
        0 <= i < replies.len(),
    ensures
        moments.len() == 3 * replies.len(),
        moments[3 * i] is Read,
        moments[3 * i + 1] == Moment::Asked(
            crate::world::call_of(tick_after(ready, replies, i).world, due_next(ready)[i]),
        ),
        moments[3 * i + 2] is Read,
        ({
            let started = moments[3 * i]->Read_0;
            let ended = moments[3 * i + 2]->Read_0;
            &&& call_ensures(C::elapsed_nanos, (&clock,), started)
            &&& call_ensures(C::elapsed_nanos, (&clock,), ended)
            &&& replies[i].took.nanos == (if ended >= started {
                ended - started
            } else {
                0
            })
        }),
{
    assert(plays_at(ready, clock, moments, replies, casts, i));
    assert(crate::world::tick_outcome(ready, replies.take(i)) == tick_after(ready, replies, i));
    let noted = crate::stage::noted_at(moments, i);
    assert(noted[0] == moments[3 * i]);
    assert(noted[1] == moments[3 * i + 1]);
    assert(noted[2] == moments[3 * i + 2]);
}

/// Whoever is not due at an instant is not asked to step, and stays what it
/// is.
pub proof fn law_only_who_is_due_steps<K: Component, C: WallClock>(
    ready: WorldModel,
    clock: C,
    moments: Seq<Moment>,
    replies: Seq<ReplyModel>,
    casts: Seq<Seq<Option<K>>>,
    k: int,
    slot: int,
)
    requires
        played(ready, clock, moments, replies, casts),
        replies.len() <= due_next(ready).len(),
        0 <= k <= replies.len(),
        0 <= slot < casts[0].len(),
        forall|i: int| 0 <= i < due_next(ready).len() ==> #[trigger] due_next(ready)[i] != slot,
    ensures
        casts[k].len() == casts[0].len(),
        casts[k][slot] == casts[0][slot],
    decreases k,
{
    if k > 0 {
        law_only_who_is_due_steps(ready, clock, moments, replies, casts, k - 1, slot);
        assert(plays_at(ready, clock, moments, replies, casts, k - 1));
        assert(due_next(ready)[k - 1] != slot);
        assert(casts[k - 1 + 1] == casts[k]);
    }
}

/// A component that says it cannot do its job, or that schedules itself at or
/// before the instant, stops the world at its turn: the error names it,
/// nobody is asked after it, nothing of its step is published, and the world
/// hash stays.
pub proof fn law_a_step_that_fails_stops_the_world<K: Component, C: WallClock>(
    ready: WorldModel,
    slots: Seq<Option<K>>,
    clock: C,
    moments: Seq<Moment>,
    replies: Seq<ReplyModel>,
    casts: Seq<Seq<Option<K>>>,
    after: WorldModel,
    outcome: Result<bool, ConductorErrorModel>,
    i: int,
)
    requires
        is_ready(ready),
        ticks_with(ready, slots, clock, moments, replies, casts, after, outcome),
        0 <= i < replies.len(),
        match replies[i].outcome {
            Ok(next_due) => next_due.0 <= ready.schedule[0].0,
            Err(_) => true,
        },
    ensures
        i == replies.len() - 1,
        ({
            let index = due_next(ready)[i];
            let path = ready.registry.entries[index as int]->0.path;
            let now = SimTime(ready.schedule[0].0);
            outcome == Err::<bool, ConductorErrorModel>(
                match replies[i].outcome {
                    Ok(next_due) => ConductorErrorModel::ScheduleViolation { path, now, next_due },
                    Err(source) => ConductorErrorModel::StepFailed { path, now, source },
                },
            )
        }),
        after == crate::world::asked(tick_after(ready, replies, i).world, due_next(ready)[i]),
        after.world_hash == ready.world_hash,
{
    let due = due_next(ready);
    let index = due[i];
    let n = replies.len() as int;
    let t = tick_after(ready, replies, i);
    assert(plays_at(ready, clock, moments, replies, casts, i));
    assert(crate::world::tick_outcome(ready, replies.take(i)) == t);
    crate::run_laws::lemma_tick_after(ready, replies, i);
    assert(due.take(i + 1).drop_last() =~= due.take(i));
    assert(replies.take(i + 1).drop_last() =~= replies.take(i));
    assert(due.take(i + 1).last() == index);
    assert(replies.take(i + 1).last() == replies[i]);
    let stopped = tick_after(ready, replies, i + 1);
    assert(stopped == crate::world::stepped(t, index, replies[i]));
    assert(stopped.error is Some);
    if i + 1 < n {
        assert(plays_at(ready, clock, moments, replies, casts, i + 1));
        assert(crate::world::tick_outcome(ready, replies.take(i + 1)) == stopped);
    }
    assert(replies.take(n) =~= replies);
    assert(crate::world::tick_outcome(ready, replies) == stopped);
    assert(t.world.registry.entries[index as int] == ready.registry.entries[index as int]);
}

/// No instant later than `end` is stepped by a run through `end`: a stage
/// that leads on leads to the earliest instant that is due once its leaves
/// have settled, and that instant is no later.
pub proof fn law_no_instant_beyond_the_end_is_stepped<K: Component, C: WallClock>(
    stages: Seq<StageModel<K, C>>,
    i: int,
    end: i64,
)
    requires
        crate::stage::stage_leads(stages, i, end),
        crate::coherence::coherent(stages[i].world),
        crate::world::boundary(
            crate::world::settled(stages[i].world, end),
        ).world.registry.entries.len() <= usize::MAX,
    ensures
        ({
            let calm = crate::world::settled(stages[i].world, end);
            let now = stages[i + 1].world.sim_time.0;
            &&& crate::world::next_due(calm) == Some(now)
            &&& now <= end
            &&& stages[i + 1].world.tick == stages[i].world.tick + 1
        }),
{
    let calm = crate::world::settled(stages[i].world, end);
    let to = stages[i + 1];
    let cast = crate::stage::cast_settled(stages[i].cast, stages[i].world, end);
    crate::coherence::lemma_settled(stages[i].world, end);
    reveal(crate::stage::advances_with);
    reveal(crate::world::advances);
    assert(!crate::world::leave_is_due(calm, i64::MAX));
    assert(crate::world::settled(calm, i64::MAX) == calm);
    let ready = crate::world::boundary(calm);
    if ready.error is None && ready.world.schedule.len() > 0 {
        crate::coherence::law_membership_is_settled_before_an_instant(calm);
        let entered = crate::stage::cast_boundary(cast, calm);
        let (replies, casts) = choose|replies: Seq<ReplyModel>, casts: Seq<Seq<Option<K>>>|
            #[trigger]
            ticks_with(
                ready.world,
                entered.slots,
                to.clock,
                crate::stopwatch::since(stages[i].moments, to.moments),
                replies,
                casts,
                to.world,
                Ok::<bool, ConductorErrorModel>(true),
            );
        let n = replies.len() as int;
        assert(replies.take(n) =~= replies);
        crate::run_laws::lemma_tick_after(ready.world, replies, n);
    }
}

/// A free run keeps no pace and only reads its clock, and a paced one stays
/// paced: what it does about the instant it enters is its pacer's doing.
pub proof fn law_a_free_run_keeps_no_pace<K: Component, C: WallClock>(
    stages: Seq<StageModel<K, C>>,
    i: int,
    end: i64,
)
    requires
        crate::stage::stage_leads(stages, i, end),
    ensures
        stages[i].pace is None <==> stages[i + 1].pace is None,
        stages[i].pace is None ==> stages[i + 1].clock == stages[i].clock,
        stages[i].pace matches Some(was) ==> (stages[i + 1].pace matches Some(is) ==> exists|
            action: PaceAction,
        | #[trigger]
            crate::pacing::keeps_pace(
                crate::pacing::pacer_with(stages[i].clock, was),
                stages[i + 1].world.sim_time,
                crate::pacing::pacer_with(stages[i + 1].clock, is),
                action,
            )),
{
}

/// A run that completes ends where the leaves that came due after its last
/// instant have settled, among its components too, with nothing due by its
/// end: no clock was read and no pace kept since. What it passed through
/// starts where it started, instant by instant.
pub proof fn law_how_a_run_ends<K: Component, C: WallClock>(
    before: StageModel<K, C>,
    end: i64,
    stages: Seq<StageModel<K, C>>,
    after: StageModel<K, C>,
    i: int,
)
    requires
        crate::stage::runs_with(before, end, stages, after, Ok::<(), ConductorErrorModel>(())),
    ensures
        stages.len() > 0,
        stages[0] == before,
        0 <= i < stages.len() - 1 ==> crate::stage::stage_leads(stages, i, end),
        after.world == crate::world::settled(stages.last().world, end),
        after.cast == crate::stage::cast_settled(stages.last().cast, stages.last().world, end),
        after.clock == stages.last().clock,
        after.moments == stages.last().moments,
        after.pace == stages.last().pace,
        crate::world::next_due(after.world) matches Some(next) ==> next > end,
{
}

} // verus!
