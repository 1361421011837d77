//! Laws of a conducted world, said of what it holds before and after: what a
//! component is told, what its step leaves behind, when anything is due, and
//! what a request comes to.
use vstd::prelude::*;

use crate::coherence::{coherent, is_live};
use crate::conductor_error::ConductorErrorModel;
use crate::messages::{MessageModel, TickStart};
use crate::record::{MembershipModel, ObservationModel};
use crate::registry::EntryModel;
use crate::schedule::Due;
use crate::time::{SimDuration, SimTime};
use crate::timing::{OnTimeout, StepTiming, WallDuration};
use crate::world::{CallModel, EffectModel, JoinModel, ReplyModel, TickModel, WorldModel};

verus! {

// ---------------------------------------------------------------------------
// What a component is told
// ---------------------------------------------------------------------------

/// A component that is asked to step is told the instant that the world is
/// at, the world's name, and its own seed, and how long ago its previous step
/// was: what it is told, added to the instant of that step, is the instant of
/// this one. At its first step it is told of no previous one.
pub proof fn law_a_component_is_told_the_time_since_its_previous_step(m: WorldModel, index: usize)
    requires
        coherent(m),
        is_live(m.registry.entries, index as int),
    ensures
        ({
            let entry = m.registry.entries[index as int]->0;
            let call = crate::world::call_of(m, index);
            &&& call.path == entry.path
            &&& call.now == m.sim_time
            &&& call.world_name == m.name
            &&& call.component_seed == entry.component_seed
            &&& match entry.last_step {
                None => call.dt is None,
                Some(previous) => call.dt is Some && previous.0 + (call.dt->0).0 == call.now.0
                    && (call.dt->0).0 >= 0,
            }
        }),
{
    assert(crate::coherence::in_time(
        m.registry.entries[index as int]->0,
        m.sim_time,
        m.tick,
    ));
}

/// A step is asked for by telling the component, and nothing but that and
/// what waits for it changes.
pub proof fn law_asking_tells_one_component(m: WorldModel, index: usize)
    ensures
        ({
            let after = crate::world::asked(m, index);
            &&& after.history == m.history.push(
                EffectModel::Step(crate::world::call_of(m, index)),
            )
            &&& after == (WorldModel { history: after.history, mail: after.mail, ..m })
        }),
{
}

/// What a step publishes is stamped with who stepped and the instant, and
/// numbered one after the other from where that component's own count stood;
/// its keys and payloads are what the step queued, in the order it queued
/// them.
pub proof fn law_messages_are_stamped_by_the_conductor(
    path: Seq<Seq<char>>,
    now: SimTime,
    first_seq: u64,
    outbox: Seq<(Seq<char>, Seq<u8>)>,
    i: int,
)
    requires
        0 <= i < outbox.len(),
        first_seq + outbox.len() <= u64::MAX,
    ensures
        crate::world::stamped(path, now, first_seq, outbox).len() == outbox.len(),
        ({
            let message = crate::world::stamped(path, now, first_seq, outbox)[i];
            &&& message.publisher == path
            &&& message.sim_time == now
            &&& message.seq == first_seq + i
            &&& message.key == outbox[i].0
            &&& message.payload == outbox[i].1
        }),
{
}

/// A step that did what it should leaves this behind: the component last
/// stepped now, its count went on by what it published, it is due where it
/// said and everything that was due before is still due, and what it
/// published and that it is done are handed out, in that order. Nobody else
/// is touched.
pub proof fn law_what_a_step_leaves_behind(
    m: WorldModel,
    index: usize,
    next_due: SimTime,
    outbox: Seq<(Seq<char>, Seq<u8>)>,
)
    requires
        coherent(m),
        is_live(m.registry.entries, index as int),
        m.registry.entries[index as int]->0.next_seq + outbox.len() <= u64::MAX,
    ensures
        ({
            let after = crate::world::step_booked(m, index, next_due, outbox);
            let was = m.registry.entries[index as int]->0;
            let is = after.registry.entries[index as int]->0;
            let n = m.history.len() as int;
            let k = outbox.len() as int;
            &&& after.registry.entries[index as int] is Some
            &&& is.last_step == Some(m.sim_time)
            &&& is.next_seq == was.next_seq + outbox.len()
            &&& is.path == was.path
            &&& is.component_seed == was.component_seed
            &&& is.timing == was.timing
            &&& is.budget_misses == was.budget_misses
            &&& after.registry.entries.len() == m.registry.entries.len()
            &&& forall|i: int|
                0 <= i < m.registry.entries.len() && i != index ==> after.registry.entries[i]
                    == #[trigger] m.registry.entries[i]
            &&& after.registry.children == m.registry.children
            &&& forall|d: Due| #[trigger]
                after.schedule.contains(d) <==> m.schedule.contains(d) || d == (next_due.0, index)
            &&& after.history.len() == n + k + 1
            &&& after.history.take(n) == m.history
            &&& forall|i: int|
                0 <= i < k ==> #[trigger] after.history[n + i] == EffectModel::Publish(
                    MessageModel {
                        key: outbox[i].0,
                        publisher: was.path,
                        seq: (was.next_seq + i) as u64,
                        sim_time: m.sim_time,
                        payload: outbox[i].1,
                    },
                )
            &&& after.history[n + k] == (EffectModel::TickDone {
                tick: m.tick,
                component: was.path.last(),
                next_due,
            })
            &&& after.sim_time == m.sim_time
            &&& after.tick == m.tick
            &&& after.world_hash == m.world_hash
            &&& after.leaves == m.leaves
            &&& after.joins == m.joins
            &&& after.name == m.name
            &&& after.seed == m.seed
        }),
{
    let after = crate::world::step_booked(m, index, next_due, outbox);
    crate::schedule::lemma_inserted(m.schedule, (next_due.0, index));
    assert(after.history.take(m.history.len() as int) =~= m.history);
}

/// What a reply comes to. A component that says it cannot do its job, or that
/// is next due no later than now, stops the world with an error that says
/// which, and nothing of its step is applied. Otherwise its step is booked,
/// then held against its budget and then against its timeout, and what it did
/// is added to the fingerprint; the world stops only if the timeout stops it.
pub proof fn law_what_a_reply_comes_to(t: TickModel, index: usize, reply: ReplyModel)
    ensures
        ({
            let asked = crate::world::asked(t.world, index);
            let after = crate::world::stepped(t, index, reply);
            let entry = t.world.registry.entries[index as int]->0;
            let now = t.world.sim_time;
            match reply.outcome {
                Err(source) => after.world == asked && after.bytes == t.bytes && after.error
                    == Some(ConductorErrorModel::StepFailed { path: entry.path, now, source }),
                Ok(next_due) => if next_due.0 <= now.0 {
                    after.world == asked && after.bytes == t.bytes && after.error == Some(
                        ConductorErrorModel::ScheduleViolation { path: entry.path, now, next_due },
                    )
                } else {
                    let booked = crate::world::step_booked(asked, index, next_due, reply.outbox);
                    let counted = crate::world::budget_judged(booked, index, reply.took);
                    let judged = crate::world::timeout_judged(counted, index, reply.took);
                    &&& after.world == judged.world
                    &&& after.error == judged.error
                    &&& after.bytes == t.bytes + crate::world::step_bytes(
                        entry.path,
                        next_due,
                        entry.next_seq,
                        reply.outbox,
                        reply.state,
                    )
                },
            }
        }),
{
}

/// A tick that completes is closed after its last reply; one that stops is
/// left where it stopped, and the world's hash stays what it was.
pub proof fn law_how_a_tick_ends(
    m: WorldModel,
    replies: Seq<ReplyModel>,
    after: WorldModel,
    outcome: Result<bool, ConductorErrorModel>,
)
    requires
        crate::run_laws::is_ready(m),
        crate::world::ticks(m, replies, after, outcome),
    ensures
        outcome is Ok ==> outcome->Ok_0 && replies.len() == crate::run_laws::due_next(m).len()
            && after == crate::world::closed(crate::world::tick_outcome(m, replies)),
        outcome is Err ==> crate::world::tick_outcome(m, replies).error == Some(outcome->Err_0)
            && after == crate::world::tick_outcome(m, replies).world && after.world_hash
            == m.world_hash,
        after.tick == m.tick + 1,
        after.sim_time.0 == m.schedule[0].0,
{
    let n = replies.len() as int;
    assert(replies.take(n) =~= replies);
    crate::run_laws::lemma_tick_after(m, replies, n);
}

/// What is published reaches the mailboxes one message after the other, as
/// if each had been published on its own.
pub proof fn law_published_messages_are_delivered_one_by_one(
    mail: Seq<crate::transport::MailboxModel>,
    messages: Seq<MessageModel>,
    last: MessageModel,
)
    ensures
        crate::transport::all_published(mail, Seq::<MessageModel>::empty()) == mail,
        crate::transport::all_published(mail, messages.push(last))
            == crate::transport::all_delivered(
            crate::transport::all_published(mail, messages),
            last,
        ),
{
    assert(messages.push(last).drop_last() =~= messages);
}

// ---------------------------------------------------------------------------
// Instants
// ---------------------------------------------------------------------------

/// A fresh world is at time zero and has stepped nothing: nobody is in it,
/// nothing is due, nothing waits to happen and nothing has happened.
pub proof fn law_a_world_starts_at_zero(
    name: Seq<char>,
    seed: u64,
    mail: Seq<crate::transport::MailboxModel>,
)
    ensures
        ({
            let m = crate::world::fresh_world(name, seed, mail);
            &&& m.sim_time.0 == 0
            &&& m.tick == 0
            &&& m.name == name
            &&& m.seed == seed
            &&& m.mail == mail
            &&& m.history.len() == 0
            &&& m.schedule.len() == 0
            &&& m.leaves.len() == 0
            &&& m.joins.len() == 0
            &&& m.registry.entries.len() == 0
        }),
{
}

/// The next instant is the earliest that a step or a join is due at, and
/// there is none exactly where nothing is due.
pub proof fn law_the_next_instant_is_the_earliest(m: WorldModel)
    requires
        coherent(m),
    ensures
        crate::world::next_due(m) is None <==> m.schedule.len() == 0 && m.joins.len() == 0,
        crate::world::next_due(m) matches Some(next) ==> {
            &&& (exists|d: Due| #[trigger] m.schedule.contains(d) && d.0 == next) || (exists|i: int|
                0 <= i < m.joins.len() && (#[trigger] m.joins[i]).0 == next)
            &&& forall|d: Due| #[trigger] m.schedule.contains(d) ==> next <= d.0
            &&& forall|i: int| 0 <= i < m.joins.len() ==> next <= (#[trigger] m.joins[i]).0
        },
{
    crate::schedule::law_scheduling_keeps_the_earliest_in_front(m.schedule, (0, 0));
    if m.schedule.len() > 0 {
        assert(m.schedule.contains(m.schedule[0]));
    }
    if m.joins.len() > 0 {
        assert forall|i: int| 0 <= i < m.joins.len() implies m.joins[0].0 <= (
        #[trigger] m.joins[i]).0 by {
            if i > 0 {
                assert(m.joins[0].0 <= m.joins[i].0);
            }
        }
    }
}

/// A run through an instant is done exactly where everything that is due is
/// due later than that.
pub proof fn law_a_run_is_done_when_everything_is_later(m: WorldModel, end: i64)
    requires
        coherent(m),
    ensures
        crate::world::done_by(m, end) <==> (forall|d: Due| #[trigger]
            m.schedule.contains(d) ==> d.0 > end) && (forall|i: int|
            0 <= i < m.joins.len() ==> (#[trigger] m.joins[i]).0 > end),
{
    law_the_next_instant_is_the_earliest(m);
}

/// Membership can change for the opening instant until it has been stepped,
/// and after that for every instant later than the last that was.
pub proof fn law_what_has_been_stepped_is_closed(m: WorldModel)
    ensures
        m.tick == 0 ==> crate::world::earliest_open(m) == m.sim_time.0,
        m.tick > 0 ==> crate::world::earliest_open(m) == m.sim_time.0 + 1,
{
}

/// Entering an instant moves the clock to the earliest that is due and counts
/// one tick, takes what is due at it and nothing else out of the schedule,
/// and says so before anything steps.
pub proof fn law_entering_an_instant(m: WorldModel)
    requires
        coherent(m),
        m.schedule.len() > 0,
        m.tick < u64::MAX,
    ensures
        ({
            let after = crate::world::opened(m).world;
            &&& m.schedule.contains((after.sim_time.0, crate::schedule::due_first(m.schedule)[0]))
            &&& forall|d: Due| #[trigger] m.schedule.contains(d) ==> after.sim_time.0 <= d.0
            &&& forall|d: Due| #[trigger]
                after.schedule.contains(d) <==> m.schedule.contains(d) && d.0 > after.sim_time.0
            &&& after.tick == m.tick + 1
            &&& after.history == m.history.push(
                EffectModel::TickStart(TickStart { tick: after.tick, sim_time: after.sim_time }),
            )
            &&& after == (WorldModel {
                schedule: after.schedule,
                sim_time: after.sim_time,
                tick: after.tick,
                history: after.history,
                ..m
            })
            &&& crate::world::opened(m).error is None
        }),
{
    crate::schedule::law_earliest_instant(m.schedule);
    crate::schedule::law_scheduling_keeps_the_earliest_in_front(m.schedule, (0, 0));
    let due = crate::schedule::due_first(m.schedule);
    assert(due.contains(due[0]));
}

/// Closing an instant hands out one fingerprint, of this tick and this
/// instant, whose world hash is the world's from then on and chains the
/// tick's own hash behind what the world's was. Nothing else changes.
pub proof fn law_closing_an_instant(t: TickModel)
    ensures
        ({
            let after = crate::world::closed(t);
            &&& after.history.len() == t.world.history.len() + 1
            &&& after.history.drop_last() == t.world.history
            &&& after.history.last() is Tick
            &&& after.history.last()->Tick_0.tick == t.world.tick
            &&& after.history.last()->Tick_0.sim_time == t.world.sim_time
            &&& after.history.last()->Tick_0.tick_hash == crate::hash::hash_of(t.bytes)
            &&& after.history.last()->Tick_0.world_hash == after.world_hash
            &&& after.world_hash == crate::hash::fnv(
                t.world.world_hash,
                crate::hash::le_bytes(crate::hash::hash_of(t.bytes)),
            )
            &&& after == (WorldModel {
                world_hash: after.world_hash,
                history: after.history,
                ..t.world
            })
        }),
{
    assert(crate::world::closed(t).history.drop_last() =~= t.world.history);
}

// ---------------------------------------------------------------------------
// Who is asked
// ---------------------------------------------------------------------------

/// Who was asked to step in the course of what happened, in order.
pub open spec fn asked_in(history: Seq<EffectModel>) -> Seq<Seq<Seq<char>>>
    decreases history.len(),
{
    if history.len() == 0 {
        Seq::empty()
    } else {
        let earlier = asked_in(history.drop_last());
        match history.last() {
            EffectModel::Step(call) => earlier.push(call.path),
            _ => earlier,
        }
    }
}

proof fn lemma_nobody_asked(before: Seq<EffectModel>, after: Seq<EffectModel>)
    requires
        crate::elapsed_laws::goes_on_quietly(before, after),
    ensures
        asked_in(after) == asked_in(before),
    decreases after.len(),
{
    if before.len() == after.len() {
        assert(after.take(before.len() as int) =~= after);
    } else {
        assert(!(after[after.len() - 1] is Step));
        let front = after.drop_last();
        assert(front.take(before.len() as int) =~= after.take(before.len() as int));
        assert forall|i: int| before.len() <= i < front.len() implies !(#[trigger] front[i]
            is Step) by {
            assert(!(after[i] is Step));
        }
        lemma_nobody_asked(before, front);
    }
}

/// In an instant the components that are due are asked to step, each once, in
/// the order they were declared, and nobody else is: so far as the instant
/// got, who was asked is the first of those, one after the other.
#[verifier::rlimit(40)]
pub proof fn law_who_is_due_is_asked_in_order(m: WorldModel, replies: Seq<ReplyModel>, k: int)
    requires
        crate::run_laws::is_ready(m),
        0 <= k <= replies.len() <= crate::run_laws::due_next(m).len(),
        crate::run_laws::tick_after(m, replies, replies.len() as int).error is None,
    ensures
        asked_in(crate::run_laws::tick_after(m, replies, k).world.history) == asked_in(m.history)
            + Seq::new(
            k as nat,
            |i: int| m.registry.entries[crate::run_laws::due_next(m)[i] as int]->0.path,
        ),
        forall|i: int, j: int|
            0 <= i < j < crate::run_laws::due_next(m).len() ==> #[trigger] crate::run_laws::due_next(
                m,
            )[i] < #[trigger] crate::run_laws::due_next(m)[j],
        forall|index: usize| #[trigger]
            crate::run_laws::due_next(m).contains(index) <==> exists|d: Due| #[trigger]
                m.schedule.contains(d) && d.1 == index && forall|e: Due| #[trigger]
                m.schedule.contains(e) ==> d.0 <= e.0,
    decreases k,
{
    let due = crate::run_laws::due_next(m);
    let after = crate::run_laws::tick_after(m, replies, k);
    let paths = |n: int|
        Seq::new(n as nat, |i: int| m.registry.entries[due[i] as int]->0.path);
    crate::schedule::law_earliest_instant(m.schedule);
    crate::schedule::law_scheduling_keeps_the_earliest_in_front(m.schedule, (0, 0));
    assert forall|index: usize| #[trigger] due.contains(index) <==> exists|d: Due| #[trigger]
        m.schedule.contains(d) && d.1 == index && forall|e: Due| #[trigger]
        m.schedule.contains(e) ==> d.0 <= e.0 by {
        let first = (m.schedule[0].0, index);
        assert(m.schedule.contains(m.schedule[0]));
        if exists|d: Due| #[trigger]
            m.schedule.contains(d) && d.1 == index && forall|e: Due| #[trigger]
            m.schedule.contains(e) ==> d.0 <= e.0 {
            let d = choose|d: Due| #[trigger]
                m.schedule.contains(d) && d.1 == index && forall|e: Due| #[trigger]
                m.schedule.contains(e) ==> d.0 <= e.0;
            assert(d == first);
        }
        if due.contains(index) {
            assert(m.schedule.contains(first));
        }
    }
    if k == 0 {
        assert(due.take(0) =~= Seq::<usize>::empty());
        assert(after.world.history.take(m.history.len() as int) =~= m.history);
        lemma_nobody_asked(m.history, after.world.history);
        assert(asked_in(m.history) + paths(0) =~= asked_in(m.history));
    } else {
        law_who_is_due_is_asked_in_order(m, replies, k - 1);
        crate::run_laws::lemma_tick_after(m, replies, k - 1);
        crate::run_laws::lemma_error_stays(m, replies, k - 1);
        crate::run_laws::lemma_error_stays(m, replies, k);
        let before = crate::run_laws::tick_after(m, replies, k - 1);
        assert(due.take(k).drop_last() =~= due.take(k - 1));
        assert(replies.take(k).drop_last() =~= replies.take(k - 1));
        assert(due.take(k).last() == due[k - 1]);
        assert(replies.take(k).last() == replies[k - 1]);
        let index = due[k - 1];
        let call = crate::world::call_of(before.world, index);
        let asked = before.world.history.push(EffectModel::Step(call));
        assert(after == crate::world::stepped(before, index, replies[k - 1]));
        assert(after.world.history.take(asked.len() as int) =~= asked);
        assert(crate::elapsed_laws::goes_on_quietly(asked, after.world.history));
        lemma_nobody_asked(asked, after.world.history);
        assert(asked.drop_last() =~= before.world.history);
        assert(before.world.registry.entries[index as int] == m.registry.entries[index as int]);
        assert(asked_in(asked) =~= asked_in(m.history) + paths(k));
    }
}

// ---------------------------------------------------------------------------
// Boundaries and runs
// ---------------------------------------------------------------------------

/// Before an instant the leaves that are for it or for earlier take effect in
/// the order they wait, and none that is for later: what is due next is read
/// anew after each, nothing settles where nothing is due within the limit,
/// and nothing settles while the first leave is for later than what is due.
pub proof fn law_leaves_wait_for_their_instant(m: WorldModel, limit: i64)
    ensures
        crate::world::next_due(m) is None ==> crate::world::settled(m, limit) == m,
        crate::world::next_due(m) matches Some(next) ==> {
            &&& next > limit ==> crate::world::settled(m, limit) == m
            &&& m.leaves.len() == 0 ==> crate::world::settled(m, limit) == m
            &&& m.leaves.len() > 0 && m.leaves[0].0 > next ==> crate::world::settled(m, limit) == m
            &&& m.leaves.len() > 0 && m.leaves[0].0 <= next <= limit ==> crate::world::settled(
                m,
                limit,
            ) == crate::world::settled(
                crate::world::gone(
                    WorldModel { leaves: m.leaves.drop_first(), ..m },
                    m.leaves[0].1,
                    m.leaves[0].0,
                ),
                limit,
            )
        },
{
}

/// The joins that are for an instant or for earlier are admitted to it in the
/// order they wait, and none that is for later; one whose place is taken is
/// spent and stops there.
pub proof fn law_joins_wait_for_their_instant(m: WorldModel, instant: i64)
    ensures
        m.joins.len() == 0 ==> crate::world::admitted(m, instant).world == m
            && crate::world::admitted(m, instant).error is None,
        m.joins.len() > 0 && m.joins[0].0 > instant ==> crate::world::admitted(m, instant).world
            == m && crate::world::admitted(m, instant).error is None,
        m.joins.len() > 0 && m.joins[0].0 <= instant ==> {
            let rest = WorldModel { joins: m.joins.drop_first(), ..m };
            match crate::registry::add_error(m.registry, m.joins[0].1.path) {
                Some(error) => crate::world::admitted(m, instant).world == rest
                    && crate::world::admitted(m, instant).error == Some(error),
                None => crate::world::admitted(m, instant) == crate::world::admitted(
                    crate::world::joined(rest, m.joins[0].0, m.joins[0].1),
                    instant,
                ),
            }
        },
{
}

/// Leaves settle before joins are admitted, and joins are admitted to the
/// instant that is then due next.
pub proof fn law_leaves_settle_before_joins(m: WorldModel)
    ensures
        ({
            let calm = crate::world::settled(m, i64::MAX);
            match crate::world::next_due(calm) {
                Some(next) => crate::world::boundary(m) == crate::world::admitted(calm, next),
                None => crate::world::boundary(m).world == calm && crate::world::boundary(
                    m,
                ).error is None,
            }
        }),
{
}

/// A run through an instant that completes leaves nothing due by then.
pub proof fn law_a_completed_run_leaves_nothing_due(
    before: WorldModel,
    end: i64,
    worlds: Seq<WorldModel>,
    after: WorldModel,
)
    requires
        coherent(after),
        crate::world::runs_until(before, end, worlds, after, Ok::<(), ConductorErrorModel>(())),
    ensures
        forall|d: Due| #[trigger] after.schedule.contains(d) ==> d.0 > end,
        forall|i: int| 0 <= i < after.joins.len() ==> (#[trigger] after.joins[i]).0 > end,
{
    law_a_run_is_done_when_everything_is_later(after, end);
}

/// An advance either steps one instant or finds nothing to step: it answers
/// that it did exactly where something was due once membership had settled,
/// and counts one tick for it.
pub proof fn law_an_advance_steps_one_instant(m: WorldModel, after: WorldModel, stepped: bool)
    requires
        coherent(m),
        crate::world::boundary(m).world.registry.entries.len() <= usize::MAX,
        crate::world::advances(m, after, Ok::<bool, ConductorErrorModel>(stepped)),
    ensures
        stepped <==> crate::world::boundary(m).world.schedule.len() > 0,
        stepped ==> after.tick == m.tick + 1 && forall|d: Due| #[trigger]
            crate::world::boundary(m).world.schedule.contains(d) ==> after.sim_time.0 <= d.0,
        !stepped ==> after.tick == m.tick && after.sim_time == m.sim_time && after
            == crate::world::boundary(m).world,
{
    reveal(crate::world::advances);
    let ready = crate::world::boundary(m).world;
    crate::coherence::lemma_settled(m, i64::MAX);
    let calm = crate::world::settled(m, i64::MAX);
    if ready.schedule.len() > 0 {
        crate::coherence::law_membership_is_settled_before_an_instant(m);
        crate::schedule::law_scheduling_keeps_the_earliest_in_front(ready.schedule, (0, 0));
        let replies = choose|replies: Seq<ReplyModel>| #[trigger]
            crate::world::ticks(ready, replies, after, Ok::<bool, ConductorErrorModel>(stepped));
        let n = replies.len() as int;
        assert(replies.take(n) =~= replies);
        crate::run_laws::lemma_tick_after(ready, replies, n);
    } else if crate::world::next_due(calm) is Some {
        crate::coherence::lemma_admitted_keeps_time(calm, crate::world::next_due(calm)->0);
    }
}

// ---------------------------------------------------------------------------
// Wall time
// ---------------------------------------------------------------------------

/// A step misses its budget exactly where one is declared and the step took
/// longer. A miss is counted once and noted with what was declared and what
/// it took, and nothing else comes of it; a step that kept to it changes
/// nothing.
pub proof fn law_a_missed_budget_is_counted_and_noted(
    m: WorldModel,
    index: usize,
    took: WallDuration,
)
    requires
        is_live(m.registry.entries, index as int),
        m.registry.entries[index as int]->0.budget_misses < u64::MAX,
    ensures
        ({
            let entry = m.registry.entries[index as int]->0;
            let after = crate::world::budget_judged(m, index, took);
            match entry.timing.budget {
                Some(budget) => if took.nanos > budget.nanos {
                    &&& after.registry.entries == m.registry.entries.update(
                        index as int,
                        Some(
                            EntryModel { budget_misses: (entry.budget_misses + 1) as u64, ..entry },
                        ),
                    )
                    &&& after.history == m.history.push(
                        EffectModel::Observation(
                            ObservationModel::BudgetMissed {
                                path: crate::ids::path_text(entry.path),
                                sim_time: m.sim_time,
                                step: took,
                                budget,
                            },
                        ),
                    )
                    &&& after == (WorldModel {
                        registry: after.registry,
                        history: after.history,
                        ..m
                    })
                    &&& after.registry.children == m.registry.children
                } else {
                    after == m
                },
                None => after == m,
            }
        }),
{
    let entry = m.registry.entries[index as int]->0;
    let after = crate::world::budget_judged(m, index, took);
    let budget = entry.timing.budget->0;
    if entry.timing.budget is Some && took.nanos > budget.nanos {
        assert(after.history =~= m.history.push(
            EffectModel::Observation(
                ObservationModel::BudgetMissed {
                    path: crate::ids::path_text(entry.path),
                    sim_time: m.sim_time,
                    step: took,
                    budget,
                },
            ),
        ));
    }
}

/// A step passes its timeout exactly where one is declared and the wait was
/// longer. That is noted with the policy that was declared; the policy to
/// halt stops the world with an error that says so, and the policy to remove
/// queues the component's leave for the next open instant, behind everyone
/// who leaves by then. A step that kept to it changes nothing.
pub proof fn law_a_timeout_is_noted_and_acted_on(
    m: WorldModel,
    index: usize,
    waited: WallDuration,
)
    requires
        is_live(m.registry.entries, index as int),
        m.tick > 0,
        m.sim_time.0 < i64::MAX,
    ensures
        ({
            let entry = m.registry.entries[index as int]->0;
            let after = crate::world::timeout_judged(m, index, waited);
            match entry.timing.timeout {
                Some(timeout) => if waited.nanos > timeout.nanos {
                    &&& after.world.history == m.history.push(
                        EffectModel::Observation(
                            ObservationModel::TimedOut {
                                path: crate::ids::path_text(entry.path),
                                sim_time: m.sim_time,
                                waited,
                                timeout,
                                policy: entry.timing.on_timeout,
                            },
                        ),
                    )
                    &&& after.world == (WorldModel {
                        history: after.world.history,
                        leaves: after.world.leaves,
                        ..m
                    })
                    &&& match entry.timing.on_timeout {
                        OnTimeout::Halt => after.world.leaves == m.leaves && after.error == Some(
                            ConductorErrorModel::StepTimeout {
                                path: entry.path,
                                now: m.sim_time,
                                elapsed: waited,
                                timeout,
                            },
                        ),
                        OnTimeout::Remove => after.error is None && after.world.leaves
                            == crate::queue::enqueued(
                            m.leaves,
                            (m.sim_time.0 + 1) as i64,
                            entry.path,
                        ),
                    }
                } else {
                    after.world == m && after.error is None
                },
                None => after.world == m && after.error is None,
            }
        }),
{
    let entry = m.registry.entries[index as int]->0;
    let after = crate::world::timeout_judged(m, index, waited);
    let timeout = entry.timing.timeout->0;
    if entry.timing.timeout is Some && waited.nanos > timeout.nanos {
        assert(after.world.history =~= m.history.push(
            EffectModel::Observation(
                ObservationModel::TimedOut {
                    path: crate::ids::path_text(entry.path),
                    sim_time: m.sim_time,
                    waited,
                    timeout,
                    policy: entry.timing.on_timeout,
                },
            ),
        ));
    }
}

} // verus!
