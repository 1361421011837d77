//! Laws of a run: what every tick keeps, what it covers, and what it does not
//! depend on.
use vstd::prelude::*;

use crate::coherence::{coherent, is_live};
use crate::fingerprint::StepRecord;
use crate::registry::EntryModel;
use crate::time::SimTime;
use crate::timing::StepTiming;
use crate::world::{EffectModel, ReplyModel, TickModel, WorldModel};

verus! {

/// Whether a world is about to step an instant: its boundary has settled.
pub open spec fn is_ready(m: WorldModel) -> bool {
    &&& coherent(m)
    &&& m.schedule.len() > 0
    &&& m.joins.len() > 0 ==> m.joins[0].0 > m.schedule[0].0
}

/// The components due at the next instant.
pub open spec fn due_next(m: WorldModel) -> Seq<usize> {
    crate::schedule::due_first(m.schedule)
}

/// The instant that is being stepped, once the first `k` components of it
/// have replied.
pub open spec fn tick_after(m: WorldModel, replies: Seq<ReplyModel>, k: int) -> TickModel {
    crate::world::all_stepped(crate::world::opened(m), due_next(m).take(k), replies.take(k))
}

/// Whether two slots hold the same component with the same declaration: what
/// stepping never changes.
pub open spec fn same_place(a: Option<EntryModel>, b: Option<EntryModel>) -> bool {
    match (a, b) {
        (Some(x), Some(y)) => x.path == y.path && x.timing == y.timing && x.component_seed
            == y.component_seed,
        (None, None) => true,
        _ => false,
    }
}

/// One step leaves every slot to the component it is of.
proof fn lemma_stepped_places(t: TickModel, index: usize, reply: ReplyModel)
    requires
        is_live(t.world.registry.entries, index as int),
    ensures
        ({
            let after = crate::world::stepped(t, index, reply).world.registry.entries;
            &&& after.len() == t.world.registry.entries.len()
            &&& forall|i: int|
                0 <= i < after.len() ==> same_place(
                    #[trigger] t.world.registry.entries[i],
                    after[i],
                )
        }),
{
}

/// Halfway through an instant: the world is coherent, the clock stands, and
/// the components that have yet to step are as they were.
pub proof fn lemma_tick_after(m: WorldModel, replies: Seq<ReplyModel>, k: int)
    requires
        is_ready(m),
        0 <= k <= replies.len() <= due_next(m).len(),
    ensures
        ({
            let t = tick_after(m, replies, k);
            &&& coherent(t.world)
            &&& t.world.tick == m.tick + 1
            &&& t.world.sim_time.0 == m.schedule[0].0
            &&& t.world.world_hash == m.world_hash
            &&& t.world.joins == m.joins
            &&& t.world.name == m.name
            &&& t.world.seed == m.seed
            &&& t.world.registry.children == m.registry.children
            &&& t.world.registry.entries.len() == m.registry.entries.len()
            &&& forall|j: int|
                k <= j < due_next(m).len() ==> t.world.registry.entries[(
                #[trigger] due_next(m)[j]) as int] == m.registry.entries[due_next(m)[j] as int]
            &&& forall|i: int|
                0 <= i < m.registry.entries.len() ==> same_place(
                    #[trigger] m.registry.entries[i],
                    t.world.registry.entries[i],
                )
        }),
    decreases k,
{
    let due = due_next(m);
    crate::coherence::lemma_opened(m);
    crate::schedule::law_earliest_instant(m.schedule);
    if k == 0 {
        assert(due.take(0) =~= Seq::<usize>::empty());
    } else {
        lemma_tick_after(m, replies, k - 1);
        let before = tick_after(m, replies, k - 1);
        let t = tick_after(m, replies, k);
        assert(due.take(k).drop_last() =~= due.take(k - 1));
        assert(replies.take(k).drop_last() =~= replies.take(k - 1));
        assert(due.take(k).last() == due[k - 1]);
        assert(replies.take(k).last() == replies[k - 1]);
        let index = due[k - 1];
        assert(is_live(m.registry.entries, index as int));
        if before.error is None {
            assert(before.world.registry.entries[index as int]
                == m.registry.entries[index as int]);
            crate::coherence::lemma_stepped(before, index, replies[k - 1]);
            lemma_stepped_places(before, index, replies[k - 1]);
            assert(t == crate::world::stepped(before, index, replies[k - 1]));
            assert forall|j: int| k <= j < due.len() implies t.world.registry.entries[(
            #[trigger] due[j]) as int] == m.registry.entries[due[j] as int] by {
                assert(due[k - 1] < due[j]);
                assert(is_live(m.registry.entries, due[j] as int));
            }
            assert forall|i: int| 0 <= i < m.registry.entries.len() implies same_place(
                #[trigger] m.registry.entries[i],
                t.world.registry.entries[i],
            ) by {
                assert(same_place(m.registry.entries[i], before.world.registry.entries[i]));
                assert(same_place(
                    before.world.registry.entries[i],
                    t.world.registry.entries[i],
                ));
            }
        }
    }
}

/// An instant that stops stays stopped.
pub proof fn lemma_error_stays(m: WorldModel, replies: Seq<ReplyModel>, k: int)
    requires
        0 <= k <= replies.len() <= due_next(m).len(),
        tick_after(m, replies, replies.len() as int).error is None,
    ensures
        tick_after(m, replies, k).error is None,
    decreases replies.len() - k,
{
    if k < replies.len() {
        lemma_error_stays(m, replies, k + 1);
        let due = due_next(m);
        assert(due.take(k + 1).drop_last() =~= due.take(k));
        assert(replies.take(k + 1).drop_last() =~= replies.take(k));
    }
}

// ---------------------------------------------------------------------------
// What the fingerprint covers
// ---------------------------------------------------------------------------

/// What the fingerprint covers of a component's step.
pub open spec fn record_of(m: WorldModel, index: usize, reply: ReplyModel) -> StepRecord {
    let entry = m.registry.entries[index as int]->0;
    StepRecord {
        path: entry.path,
        next_due: reply.outcome->Ok_0,
        first_seq: entry.next_seq,
        outbox: reply.outbox,
        state: reply.state,
    }
}

/// What the fingerprint covers of an instant's steps.
pub open spec fn records_of(m: WorldModel, replies: Seq<ReplyModel>) -> Seq<StepRecord> {
    Seq::new(replies.len(), |k: int| record_of(m, due_next(m)[k], replies[k]))
}

/// Bytes of one more step go behind the others.
proof fn lemma_records_push(records: Seq<StepRecord>, last: StepRecord)
    ensures
        crate::fingerprint::records_bytes(records.push(last))
            == crate::fingerprint::records_bytes(records) + crate::fingerprint::record_bytes(
            last,
        ),
    decreases records.len(),
{
    let all = records.push(last);
    let bytes = crate::fingerprint::record_bytes(last);
    if records.len() == 0 {
        assert(all.drop_first() =~= Seq::<StepRecord>::empty());
        assert(bytes + Seq::<u8>::empty() =~= bytes);
        assert(Seq::<u8>::empty() + bytes =~= bytes);
        assert(crate::fingerprint::records_bytes(all.drop_first()) == Seq::<u8>::empty());
        assert(crate::fingerprint::records_bytes(records) == Seq::<u8>::empty());
    } else {
        let rest = records.drop_first();
        lemma_records_push(rest, last);
        assert(all.drop_first() =~= rest.push(last));
        assert(all[0] == records[0]);
        let first = crate::fingerprint::record_bytes(records[0]);
        let middle = crate::fingerprint::records_bytes(rest);
        assert(first + (middle + bytes) =~= (first + middle) + bytes);
    }
}

/// A tick's fingerprint covers its number, its instant, and every step of it
/// in declaration order: who stepped, when it is next due, what it published
/// and its state.
pub proof fn law_the_fingerprint_covers_every_step(m: WorldModel, replies: Seq<ReplyModel>)
    requires
        is_ready(m),
        replies.len() <= due_next(m).len(),
        crate::world::tick_outcome(m, replies).error is None,
    ensures
        crate::world::tick_outcome(m, replies).bytes == crate::world::opening_bytes(
            (m.tick + 1) as u64,
            SimTime(m.schedule[0].0),
        ) + crate::fingerprint::records_bytes(records_of(m, replies)),
{
    let n = replies.len() as int;
    assert(replies.take(n) =~= replies);
    lemma_bytes_after(m, replies, n);
}

/// What the fingerprint covers halfway through an instant.
proof fn lemma_bytes_after(m: WorldModel, replies: Seq<ReplyModel>, k: int)
    requires
        is_ready(m),
        0 <= k <= replies.len() <= due_next(m).len(),
        tick_after(m, replies, replies.len() as int).error is None,
    ensures
        tick_after(m, replies, k).bytes == crate::world::opening_bytes(
            (m.tick + 1) as u64,
            SimTime(m.schedule[0].0),
        ) + crate::fingerprint::records_bytes(records_of(m, replies.take(k))),
    decreases k,
{
    let due = due_next(m);
    let opening = crate::world::opening_bytes((m.tick + 1) as u64, SimTime(m.schedule[0].0));
    let records = records_of(m, replies.take(k));
    if k == 0 {
        assert(due.take(0) =~= Seq::<usize>::empty());
        assert(records =~= Seq::<StepRecord>::empty());
        assert(opening + Seq::<u8>::empty() =~= opening);
    } else {
        lemma_bytes_after(m, replies, k - 1);
        lemma_tick_after(m, replies, k - 1);
        lemma_error_stays(m, replies, k - 1);
        lemma_error_stays(m, replies, k);
        let before = tick_after(m, replies, k - 1);
        assert(due.take(k).drop_last() =~= due.take(k - 1));
        assert(replies.take(k).drop_last() =~= replies.take(k - 1));
        assert(due.take(k).last() == due[k - 1]);
        assert(replies.take(k).last() == replies[k - 1]);
        let index = due[k - 1];
        let reply = replies[k - 1];
        let earlier = records_of(m, replies.take(k - 1));
        let last = record_of(m, index, reply);
        assert(before.world.registry.entries[index as int] == m.registry.entries[index as int]);
        assert(records =~= earlier.push(last));
        lemma_records_push(earlier, last);
        let a = crate::fingerprint::records_bytes(earlier);
        let b = crate::fingerprint::record_bytes(last);
        assert((opening + a) + b =~= opening + (a + b));
    }
}

// ---------------------------------------------------------------------------
// Wall-clock time
// ---------------------------------------------------------------------------

/// Whether two slots are the same but for how many budgets were missed.
pub open spec fn same_but_misses(a: Option<EntryModel>, b: Option<EntryModel>) -> bool {
    match (a, b) {
        (Some(x), Some(y)) => EntryModel { budget_misses: 0, ..x } == (EntryModel {
            budget_misses: 0,
            ..y
        }),
        (None, None) => true,
        _ => false,
    }
}

/// What of a history is part of the run, rather than noted about it.
pub open spec fn part_of_run(history: Seq<EffectModel>) -> Seq<EffectModel>
    decreases history.len(),
{
    if history.len() == 0 {
        Seq::empty()
    } else {
        let earlier = part_of_run(history.drop_last());
        if history.last() is Observation {
            earlier
        } else {
            earlier.push(history.last())
        }
    }
}

/// What is handed out next is part of the run unless it is a note.
pub proof fn lemma_part_pushed(history: Seq<EffectModel>, effect: EffectModel)
    ensures
        part_of_run(history.push(effect)) == (if effect is Observation {
            part_of_run(history)
        } else {
            part_of_run(history).push(effect)
        }),
{
    assert(history.push(effect).drop_last() =~= history);
}

/// What of two histories one after the other is part of the run.
pub proof fn lemma_part_joined(history: Seq<EffectModel>, more: Seq<EffectModel>)
    ensures
        part_of_run(history + more) == part_of_run(history) + part_of_run(more),
    decreases more.len(),
{
    if more.len() == 0 {
        assert(history + more =~= history);
        assert(part_of_run(history) + part_of_run(more) =~= part_of_run(history));
    } else {
        lemma_part_joined(history, more.drop_last());
        assert((history + more).drop_last() =~= history + more.drop_last());
        assert((history + more).last() == more.last());
        assert(part_of_run(history + more) =~= part_of_run(history) + part_of_run(more));
    }
}

/// Whether two worlds are the same run: everything but what was noted about
/// the machine. What components were told and what was published is the same.
pub open spec fn same_run(a: WorldModel, b: WorldModel) -> bool {
    &&& a.name == b.name
    &&& a.seed == b.seed
    &&& a.schedule == b.schedule
    &&& a.leaves == b.leaves
    &&& a.joins == b.joins
    &&& a.mail == b.mail
    &&& part_of_run(a.history) == part_of_run(b.history)
    &&& a.sim_time == b.sim_time
    &&& a.tick == b.tick
    &&& a.world_hash == b.world_hash
    &&& a.registry.children == b.registry.children
    &&& a.registry.entries.len() == b.registry.entries.len()
    &&& forall|i: int|
        0 <= i < a.registry.entries.len() ==> same_but_misses(
            #[trigger] a.registry.entries[i],
            b.registry.entries[i],
        )
}

/// Whether two replies say the same, however long they took.
pub open spec fn same_but_took(a: ReplyModel, b: ReplyModel) -> bool {
    a.outcome == b.outcome && a.outbox == b.outbox && a.state == b.state
}

/// Whether a step was within the timeout it declared, if it declared one.
pub open spec fn within_timeout(timing: StepTiming, reply: ReplyModel) -> bool {
    !crate::timing::passes(timing.timeout, reply.took)
}

/// Whether two instants that are being stepped are the same run.
pub open spec fn same_tick(a: TickModel, b: TickModel) -> bool {
    same_run(a.world, b.world) && a.bytes == b.bytes && a.error == b.error
}

/// What of a step within its timeout is part of the run.
proof fn lemma_step_is_part(t: TickModel, index: usize, reply: ReplyModel)
    requires
        is_live(t.world.registry.entries, index as int),
        within_timeout(t.world.registry.entries[index as int]->0.timing, reply),
    ensures
        ({
            let entry = t.world.registry.entries[index as int]->0;
            let now = t.world.sim_time;
            let told = part_of_run(t.world.history).push(
                EffectModel::Step(crate::world::call_of(t.world, index)),
            );
            let messages = crate::world::stamped(entry.path, now, entry.next_seq, reply.outbox);
            part_of_run(crate::world::stepped(t, index, reply).world.history) == (
            match reply.outcome {
                Err(_) => told,
                Ok(next_due) => if next_due.0 <= now.0 {
                    told
                } else {
                    (told + part_of_run(crate::world::publishes(messages))).push(
                        EffectModel::TickDone {
                            tick: t.world.tick,
                            component: entry.path.last(),
                            next_due,
                        },
                    )
                },
            })
        }),
{
    let entry = t.world.registry.entries[index as int]->0;
    let now = t.world.sim_time;
    let called = crate::world::asked(t.world, index);
    let messages = crate::world::stamped(entry.path, now, entry.next_seq, reply.outbox);
    lemma_part_pushed(
        t.world.history,
        EffectModel::Step(crate::world::call_of(t.world, index)),
    );
    if let Ok(next_due) = reply.outcome {
        if next_due.0 > now.0 {
            let done = EffectModel::TickDone {
                tick: t.world.tick,
                component: entry.path.last(),
                next_due,
            };
            let sent = called.history + crate::world::publishes(messages);
            lemma_part_joined(called.history, crate::world::publishes(messages));
            lemma_part_pushed(sent, done);
            let booked = crate::world::step_booked(called, index, next_due, reply.outbox);
            assert(booked.history == sent.push(done));
            let judged = crate::world::budget_judged(booked, index, reply.took);
            if crate::timing::passes(entry.timing.budget, reply.took) {
                let note = judged.history.last();
                assert(judged.history =~= booked.history.push(note));
                lemma_part_pushed(booked.history, note);
            }
        }
    }
}

/// How long a step took within its timeout makes no difference to the run.
pub proof fn lemma_took_is_inert(
    a: TickModel,
    b: TickModel,
    index: usize,
    x: ReplyModel,
    y: ReplyModel,
)
    requires
        same_tick(a, b),
        is_live(a.world.registry.entries, index as int),
        same_but_took(x, y),
        within_timeout(a.world.registry.entries[index as int]->0.timing, x),
        within_timeout(a.world.registry.entries[index as int]->0.timing, y),
    ensures
        same_tick(crate::world::stepped(a, index, x), crate::world::stepped(b, index, y)),
{
    let p = a.world.registry.entries[index as int];
    let q = b.world.registry.entries[index as int];
    assert(same_but_misses(p, q));
    let c = crate::world::stepped(a, index, x);
    let d = crate::world::stepped(b, index, y);
    lemma_step_is_part(a, index, x);
    lemma_step_is_part(b, index, y);
    assert forall|i: int| 0 <= i < c.world.registry.entries.len() implies same_but_misses(
        #[trigger] c.world.registry.entries[i],
        d.world.registry.entries[i],
    ) by {
        assert(same_but_misses(a.world.registry.entries[i], b.world.registry.entries[i]));
    }
}

/// Missing a budget changes nothing about a run: two runs of one instant
/// whose components replied the same, however long they took, come to the
/// same fingerprint and the same world hash, and go on alike, as long as no
/// step of either passed a timeout.
pub proof fn law_budgets_do_not_reach_the_run(
    m: WorldModel,
    replies: Seq<ReplyModel>,
    others: Seq<ReplyModel>,
)
    requires
        is_ready(m),
        replies.len() == others.len(),
        replies.len() <= due_next(m).len(),
        forall|k: int|
            #![trigger replies[k]]
            #![trigger others[k]]
            0 <= k < replies.len() ==> same_but_took(replies[k], others[k]) && within_timeout(
                m.registry.entries[due_next(m)[k] as int]->0.timing,
                replies[k],
            ) && within_timeout(
                m.registry.entries[due_next(m)[k] as int]->0.timing,
                others[k],
            ),
    ensures
        ({
            let a = crate::world::tick_outcome(m, replies);
            let b = crate::world::tick_outcome(m, others);
            &&& same_tick(a, b)
            &&& crate::world::fingerprint(a) == crate::world::fingerprint(b)
            &&& same_run(crate::world::closed(a), crate::world::closed(b))
        }),
{
    let n = replies.len() as int;
    assert(replies.take(n) =~= replies);
    assert(others.take(n) =~= others);
    lemma_same_tick_after(m, replies, others, n);
    let a = crate::world::tick_outcome(m, replies);
    let b = crate::world::tick_outcome(m, others);
    lemma_part_pushed(
        a.world.history,
        EffectModel::Tick(crate::world::fingerprint(a)),
    );
    lemma_part_pushed(
        b.world.history,
        EffectModel::Tick(crate::world::fingerprint(b)),
    );
}

/// Two runs of one instant are the same halfway through it.
proof fn lemma_same_tick_after(
    m: WorldModel,
    replies: Seq<ReplyModel>,
    others: Seq<ReplyModel>,
    k: int,
)
    requires
        is_ready(m),
        replies.len() == others.len(),
        0 <= k <= replies.len() <= due_next(m).len(),
        forall|k: int|
            #![trigger replies[k]]
            #![trigger others[k]]
            0 <= k < replies.len() ==> same_but_took(replies[k], others[k]) && within_timeout(
                m.registry.entries[due_next(m)[k] as int]->0.timing,
                replies[k],
            ) && within_timeout(
                m.registry.entries[due_next(m)[k] as int]->0.timing,
                others[k],
            ),
    ensures
        same_tick(tick_after(m, replies, k), tick_after(m, others, k)),
    decreases k,
{
    let due = due_next(m);
    if k == 0 {
        assert(due.take(0) =~= Seq::<usize>::empty());
    } else {
        lemma_same_tick_after(m, replies, others, k - 1);
        lemma_tick_after(m, replies, k - 1);
        let a = tick_after(m, replies, k - 1);
        let b = tick_after(m, others, k - 1);
        assert(due.take(k).drop_last() =~= due.take(k - 1));
        assert(replies.take(k).drop_last() =~= replies.take(k - 1));
        assert(others.take(k).drop_last() =~= others.take(k - 1));
        assert(due.take(k).last() == due[k - 1]);
        assert(replies.take(k).last() == replies[k - 1]);
        assert(others.take(k).last() == others[k - 1]);
        if a.error is None {
            let index = due[k - 1];
            crate::coherence::lemma_opened(m);
            assert(is_live(m.registry.entries, index as int));
            assert(a.world.registry.entries[index as int] == m.registry.entries[index as int]);
            lemma_took_is_inert(a, b, index, replies[k - 1], others[k - 1]);
        }
    }
}

} // verus!
