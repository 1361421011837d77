//! What holds of a conducted world at every moment, and what follows from it.
use vstd::prelude::*;

use crate::conductor_error::ConductorErrorModel;
use crate::registry::{EntryModel, RegistryModel};
use crate::schedule::Due;
use crate::time::SimTime;
use crate::timing::WallDuration;
use crate::world::{JoinModel, ReplyModel, TickModel, WorldModel};

verus! {

/// Whether a slot holds a component.
pub open spec fn is_live(entries: Seq<Option<EntryModel>>, index: int) -> bool {
    0 <= index < entries.len() && entries[index] is Some
}

/// Whether a component's bookkeeping fits a world's clock: it last stepped at
/// an instant that has been, and missed no more budgets than there were
/// ticks.
pub open spec fn in_time(entry: EntryModel, sim_time: SimTime, tick: u64) -> bool {
    &&& entry.budget_misses <= tick
    &&& entry.last_step matches Some(last) ==> 0 <= last.0 <= sim_time.0
}

/// What holds of a world at every moment: its registry is sound, only live
/// components are scheduled, nothing is due in an instant that has been, what
/// waits runs from early to late, and there were no more ticks than instants.
pub open spec fn coherent(m: WorldModel) -> bool {
    &&& crate::registry::sound(m.registry)
    &&& crate::schedule::in_order(m.schedule)
    &&& forall|d: Due| #[trigger]
        m.schedule.contains(d) ==> is_live(m.registry.entries, d.1 as int) && d.0
            >= crate::world::earliest_open(m)
    &&& crate::queue::early_first(m.leaves)
    &&& crate::queue::early_first(m.joins)
    &&& forall|i: int|
        0 <= i < m.joins.len() ==> (#[trigger] m.joins[i]).0 >= crate::world::earliest_open(m)
            && m.joins[i].1.path.len() > 0
    &&& 0 <= m.sim_time.0
    &&& m.tick == 0 ==> m.sim_time.0 == 0
    &&& m.tick <= m.sim_time.0 + 1
    &&& forall|i: int|
        is_live(m.registry.entries, i) ==> in_time(
            (#[trigger] m.registry.entries[i])->0,
            m.sim_time,
            m.tick,
        )
    &&& m.registry.entries.len() <= usize::MAX
}

/// A fresh world is coherent.
pub proof fn lemma_fresh(
    name: Seq<char>,
    seed: u64,
    mail: Seq<crate::transport::MailboxModel>,
)
    requires
        crate::registry::sound(
            RegistryModel { entries: Seq::empty(), children: Map::empty() },
        ),
    ensures
        coherent(crate::world::fresh_world(name, seed, mail)),
{
}

/// Handing more out keeps a world coherent.
pub proof fn lemma_told(m: WorldModel, history: Seq<crate::world::EffectModel>)
    requires
        coherent(m),
    ensures
        coherent(WorldModel { history, ..m }),
{
    let after = WorldModel { history, ..m };
    assert(crate::world::earliest_open(after) == crate::world::earliest_open(m));
}

/// Asking a component to step keeps a world coherent.
pub proof fn lemma_asked(m: WorldModel, index: usize)
    requires
        coherent(m),
    ensures
        coherent(crate::world::asked(m, index)),
{
    let after = crate::world::asked(m, index);
    assert(crate::world::earliest_open(after) == crate::world::earliest_open(m));
}

/// A registered component's departure keeps a world coherent.
pub proof fn lemma_left(m: WorldModel, path: Seq<Seq<char>>, leaves_at: i64)
    requires
        coherent(m),
        crate::registry::is_registered(m.registry.entries, path),
    ensures
        coherent(crate::world::left(m, path, leaves_at)),
{
    let after = crate::world::left(m, path, leaves_at);
    let slot = crate::registry::slot_of(m.registry.entries, path);
    assert(crate::registry::stands_at(m.registry.entries, slot, path));
    crate::registry::lemma_removed_sound(m.registry, path);
    crate::schedule::law_removal_leaves_others_untouched(m.schedule, slot as usize);
    assert(crate::world::earliest_open(after) == crate::world::earliest_open(m));
    assert forall|d: Due| #[trigger] after.schedule.contains(d) implies is_live(
        after.registry.entries,
        d.1 as int,
    ) && d.0 >= crate::world::earliest_open(after) by {
        assert(m.schedule.contains(d));
        assert(d.1 as int != slot);
    }
    assert forall|i: int| is_live(after.registry.entries, i) implies in_time(
        (#[trigger] after.registry.entries[i])->0,
        after.sim_time,
        after.tick,
    ) by {
        assert(i != slot);
        assert(after.registry.entries[i] == m.registry.entries[i]);
        assert(is_live(m.registry.entries, i));
    }
}

/// The place of the first waiting join for a path is where it says.
pub proof fn lemma_join_place(joins: Seq<(i64, JoinModel)>, path: Seq<Seq<char>>)
    ensures
        crate::world::join_place(joins, path) <= joins.len(),
        crate::world::join_place(joins, path) < joins.len()
            ==> joins[crate::world::join_place(joins, path) as int].1.path == path,
        forall|i: int|
            0 <= i < crate::world::join_place(joins, path) ==> (#[trigger] joins[i]).1.path
                != path,
    decreases joins.len(),
{
    if joins.len() > 0 && joins[0].1.path != path {
        let rest = joins.drop_first();
        lemma_join_place(rest, path);
        let place = crate::world::join_place(joins, path) as int;
        assert forall|i: int| 0 <= i < place implies (#[trigger] joins[i]).1.path != path by {
            if i > 0 {
                assert(rest[i - 1] == joins[i]);
            }
        }
        if place < joins.len() {
            assert(rest[place - 1] == joins[place]);
        }
    }
}

/// Withdrawing a join keeps a world coherent.
pub proof fn lemma_withdrawn(m: WorldModel, path: Seq<Seq<char>>)
    requires
        coherent(m),
    ensures
        coherent(crate::world::withdrawn(m, path)),
{
    let after = crate::world::withdrawn(m, path);
    let place = crate::world::join_place(m.joins, path) as int;
    if place < m.joins.len() {
        crate::queue::lemma_taken_out(m.joins, place);
        assert(crate::world::earliest_open(after) == crate::world::earliest_open(m));
        assert forall|i: int| 0 <= i < after.joins.len() implies (#[trigger] after.joins[i]).0
            >= crate::world::earliest_open(after) && after.joins[i].1.path.len() > 0 by {
            assert(m.joins.contains(after.joins[i]));
            let k = choose|k: int| 0 <= k < m.joins.len() && m.joins[k] == after.joins[i];
            assert(m.joins[k].1.path.len() > 0);
        }
    }
}

/// A leave taking effect keeps a world coherent.
pub proof fn lemma_gone(m: WorldModel, path: Seq<Seq<char>>, leaves_at: i64)
    requires
        coherent(m),
    ensures
        coherent(crate::world::gone(m, path, leaves_at)),
        crate::world::gone(m, path, leaves_at).sim_time == m.sim_time,
        crate::world::gone(m, path, leaves_at).tick == m.tick,
        crate::world::gone(m, path, leaves_at).leaves == m.leaves,
{
    if crate::registry::is_registered(m.registry.entries, path) {
        lemma_left(m, path, leaves_at);
    } else {
        lemma_withdrawn(m, path);
    }
}

/// The leave at the front taking effect keeps a world coherent.
pub proof fn lemma_front_gone(m: WorldModel)
    requires
        coherent(m),
        m.leaves.len() > 0,
    ensures
        coherent(crate::world::front_gone(m)),
        crate::world::front_gone(m).sim_time == m.sim_time,
        crate::world::front_gone(m).tick == m.tick,
        crate::world::front_gone(m).leaves == m.leaves.drop_first(),
{
    let rest = WorldModel { leaves: m.leaves.drop_first(), ..m };
    assert(m.leaves.drop_first() =~= m.leaves.remove(0));
    crate::queue::lemma_taken_out(m.leaves, 0);
    assert(crate::world::earliest_open(rest) == crate::world::earliest_open(m));
    assert(coherent(rest));
    lemma_gone(rest, m.leaves[0].1, m.leaves[0].0);
}

/// Settling keeps a world coherent, and nothing that is still queued has come
/// due.
pub proof fn lemma_settled(m: WorldModel, limit: i64)
    requires
        coherent(m),
    ensures
        coherent(crate::world::settled(m, limit)),
        crate::world::settled(m, limit).sim_time == m.sim_time,
        crate::world::settled(m, limit).tick == m.tick,
        !crate::world::leave_is_due(crate::world::settled(m, limit), limit),
    decreases m.leaves.len(),
{
    if crate::world::leave_is_due(m, limit) {
        lemma_front_gone(m);
        lemma_settled(crate::world::front_gone(m), limit);
    }
}

/// A component joining keeps a world coherent.
pub proof fn lemma_joined(m: WorldModel, first_due: i64, join: JoinModel)
    requires
        coherent(m),
        crate::registry::add_error(m.registry, join.path) is None,
        join.path.len() > 0,
        first_due >= crate::world::earliest_open(m),
        m.registry.entries.len() < usize::MAX,
    ensures
        coherent(crate::world::joined(m, first_due, join)),
{
    let after = crate::world::joined(m, first_due, join);
    let index = m.registry.entries.len() as usize;
    crate::registry::lemma_added_sound(m.registry, join.path, m.seed, join.timing);
    crate::schedule::lemma_inserted(m.schedule, (first_due, index));
    assert(crate::world::earliest_open(after) == crate::world::earliest_open(m));
    assert forall|d: Due| #[trigger] after.schedule.contains(d) implies is_live(
        after.registry.entries,
        d.1 as int,
    ) && d.0 >= crate::world::earliest_open(after) by {
        if d != (first_due, index) {
            assert(m.schedule.contains(d));
            assert(is_live(m.registry.entries, d.1 as int));
        }
    }
    assert forall|i: int| is_live(after.registry.entries, i) implies in_time(
        (#[trigger] after.registry.entries[i])->0,
        after.sim_time,
        after.tick,
    ) by {
        if i < m.registry.entries.len() {
            assert(after.registry.entries[i] == m.registry.entries[i]);
            assert(is_live(m.registry.entries, i));
        }
    }
}

/// Taking the first waiting join off the queue keeps a world coherent.
pub proof fn lemma_front_join_taken(m: WorldModel)
    requires
        coherent(m),
        m.joins.len() > 0,
    ensures
        coherent(WorldModel { joins: m.joins.drop_first(), ..m }),
{
    let rest = WorldModel { joins: m.joins.drop_first(), ..m };
    assert(m.joins.drop_first() =~= m.joins.remove(0));
    crate::queue::lemma_taken_out(m.joins, 0);
    assert(crate::world::earliest_open(rest) == crate::world::earliest_open(m));
    assert forall|i: int| 0 <= i < rest.joins.len() implies (#[trigger] rest.joins[i]).0
        >= crate::world::earliest_open(rest) && rest.joins[i].1.path.len() > 0 by {
        assert(rest.joins[i] == m.joins[i + 1]);
    }
}

/// Queuing a join keeps a world coherent.
pub proof fn lemma_join_queued(
    m: WorldModel,
    first_due: i64,
    join: JoinModel,
    history: Seq<crate::world::EffectModel>,
)
    requires
        coherent(m),
        join.path.len() > 0,
        first_due >= crate::world::earliest_open(m),
    ensures
        coherent(
            WorldModel { joins: crate::queue::enqueued(m.joins, first_due, join), history, ..m },
        ),
{
    let after = WorldModel {
        joins: crate::queue::enqueued(m.joins, first_due, join),
        history,
        ..m
    };
    crate::queue::lemma_enqueued(m.joins, first_due, join);
    assert(crate::world::earliest_open(after) == crate::world::earliest_open(m));
    assert forall|i: int| 0 <= i < after.joins.len() implies (#[trigger] after.joins[i]).0
        >= crate::world::earliest_open(after) && after.joins[i].1.path.len() > 0 by {
        if m.joins.contains(after.joins[i]) {
            let k = choose|k: int| 0 <= k < m.joins.len() && m.joins[k] == after.joins[i];
            assert(m.joins[k].1.path.len() > 0);
        }
    }
}

/// Queuing a leave keeps a world coherent.
pub proof fn lemma_leave_queued(m: WorldModel, leaves: Seq<(i64, Seq<Seq<char>>)>)
    requires
        coherent(m),
        crate::queue::early_first(leaves),
    ensures
        coherent(WorldModel { leaves, ..m }),
{
    let after = WorldModel { leaves, ..m };
    assert(crate::world::earliest_open(after) == crate::world::earliest_open(m));
}

/// A join that is admitted is due where it said, so what is due next is no
/// earlier than before and is scheduled.
pub proof fn lemma_next_due_reached(m: WorldModel, first_due: i64, join: JoinModel, instant: i64)
    requires
        coherent(m),
        first_due == instant,
        m.schedule.len() > 0 ==> m.schedule[0].0 >= instant,
        m.registry.entries.len() < usize::MAX,
    ensures
        crate::world::joined(m, first_due, join).schedule.len() > 0,
        crate::world::joined(m, first_due, join).schedule[0].0 == instant,
{
    let index = m.registry.entries.len() as usize;
    let due = (first_due, index);
    let after = crate::schedule::inserted(m.schedule, due);
    crate::schedule::lemma_inserted(m.schedule, due);
    assert(after.contains(due));
    let k = choose|k: int| 0 <= k < after.len() && after[k] == due;
    assert(after.contains(after[0]));
    if k > 0 {
        assert(crate::schedule::before(after[0], after[k]));
    }
    if after[0] != due {
        assert(m.schedule.contains(after[0]));
        let j = choose|j: int| 0 <= j < m.schedule.len() && m.schedule[j] == after[0];
        if j > 0 {
            assert(crate::schedule::before(m.schedule[0], m.schedule[j]));
        }
    }
}

/// Entering an instant keeps a world coherent, every component that is due is
/// live, and each has missed fewer budgets than there are ticks.
pub proof fn lemma_opened(m: WorldModel)
    requires
        coherent(m),
        m.schedule.len() > 0,
        m.joins.len() > 0 ==> m.joins[0].0 > m.schedule[0].0,
    ensures
        coherent(crate::world::opened(m).world),
        m.tick + 1 <= i64::MAX + 1,
        forall|i: int|
            0 <= i < crate::schedule::due_first(m.schedule).len() ==> is_live(
                m.registry.entries,
                #[trigger] crate::schedule::due_first(m.schedule)[i] as int,
            ),
        forall|i: int|
            is_live(m.registry.entries, i) ==> (
            #[trigger] m.registry.entries[i])->0.budget_misses < m.tick + 1,
        m.schedule[0].0 >= crate::world::earliest_open(m),
{
    let after = crate::world::opened(m).world;
    let now = m.schedule[0].0;
    crate::schedule::law_earliest_instant(m.schedule);
    assert(m.schedule.contains(m.schedule[0]));
    assert(after.tick == m.tick + 1);
    assert(crate::world::earliest_open(after) == now + 1);
    assert forall|d: Due| #[trigger] after.schedule.contains(d) implies is_live(
        after.registry.entries,
        d.1 as int,
    ) && d.0 >= crate::world::earliest_open(after) by {
        assert(m.schedule.contains(d));
    }
    assert forall|i: int| 0 <= i < after.joins.len() implies (#[trigger] after.joins[i]).0
        >= crate::world::earliest_open(after) && after.joins[i].1.path.len() > 0 by {
        if i > 0 {
            assert(m.joins[0].0 <= m.joins[i].0);
        }
        assert(m.joins[i].1.path.len() > 0);
    }
    assert forall|i: int| is_live(after.registry.entries, i) implies in_time(
        (#[trigger] after.registry.entries[i])->0,
        after.sim_time,
        after.tick,
    ) by {
        assert(in_time(m.registry.entries[i]->0, m.sim_time, m.tick));
    }
    let due = crate::schedule::due_first(m.schedule);
    assert forall|i: int| 0 <= i < due.len() implies is_live(
        m.registry.entries,
        #[trigger] due[i] as int,
    ) by {
        assert(due.contains(due[i]));
        assert(m.schedule.contains((now, due[i])));
    }
}

/// Changing a component's bookkeeping within its clock keeps a world
/// coherent.
pub proof fn lemma_rebooked(m: WorldModel, index: usize, entry: EntryModel)
    requires
        coherent(m),
        is_live(m.registry.entries, index as int),
        entry.path == m.registry.entries[index as int]->0.path,
        in_time(entry, m.sim_time, m.tick),
    ensures
        coherent(crate::world::rebooked(m, index, entry)),
{
    let after = crate::world::rebooked(m, index, entry);
    crate::registry::lemma_bookkeeping_keeps_sound(m.registry, after.registry.entries);
    assert(crate::world::earliest_open(after) == crate::world::earliest_open(m));
    assert forall|d: Due| #[trigger] after.schedule.contains(d) implies is_live(
        after.registry.entries,
        d.1 as int,
    ) && d.0 >= crate::world::earliest_open(after) by {
        assert(m.schedule.contains(d));
        assert(is_live(m.registry.entries, d.1 as int));
    }
    assert forall|i: int| is_live(after.registry.entries, i) implies in_time(
        (#[trigger] after.registry.entries[i])->0,
        after.sim_time,
        after.tick,
    ) by {
        if i != index as int {
            assert(is_live(m.registry.entries, i));
            assert(after.registry.entries[i] == m.registry.entries[i]);
        }
    }
}

/// Scheduling a live component keeps a world coherent.
pub proof fn lemma_scheduled(
    m: WorldModel,
    due: i64,
    index: usize,
    mail: Seq<crate::transport::MailboxModel>,
    history: Seq<crate::world::EffectModel>,
)
    requires
        coherent(m),
        is_live(m.registry.entries, index as int),
        due >= crate::world::earliest_open(m),
    ensures
        coherent(
            WorldModel {
                schedule: crate::schedule::inserted(m.schedule, (due, index)),
                mail,
                history,
                ..m
            },
        ),
{
    let after = WorldModel {
        schedule: crate::schedule::inserted(m.schedule, (due, index)),
        mail,
        history,
        ..m
    };
    crate::schedule::lemma_inserted(m.schedule, (due, index));
    assert(crate::world::earliest_open(after) == crate::world::earliest_open(m));
    assert forall|d: Due| #[trigger] after.schedule.contains(d) implies is_live(
        after.registry.entries,
        d.1 as int,
    ) && d.0 >= crate::world::earliest_open(after) by {
        if d != (due, index) {
            assert(m.schedule.contains(d));
        }
    }
}

/// A step keeps a world coherent.
pub proof fn lemma_step_booked(
    m: WorldModel,
    index: usize,
    next_due: SimTime,
    outbox: Seq<(Seq<char>, Seq<u8>)>,
)
    requires
        coherent(m),
        m.tick > 0,
        is_live(m.registry.entries, index as int),
        next_due.0 > m.sim_time.0,
    ensures
        coherent(crate::world::step_booked(m, index, next_due, outbox)),
{
    let entry = m.registry.entries[index as int]->0;
    assert(in_time(m.registry.entries[index as int]->0, m.sim_time, m.tick));
    let booked = EntryModel {
        last_step: Some(m.sim_time),
        next_seq: entry.next_seq.wrapping_add(outbox.len() as u64),
        ..entry
    };
    lemma_rebooked(m, index, booked);
    let after = crate::world::step_booked(m, index, next_due, outbox);
    let between = crate::world::rebooked(m, index, booked);
    assert(crate::world::earliest_open(between) == m.sim_time.0 + 1);
    lemma_scheduled(between, next_due.0, index, after.mail, after.history);
}

/// Judging a step against its budget keeps a world coherent.
pub proof fn lemma_budget_judged(m: WorldModel, index: usize, took: WallDuration)
    requires
        coherent(m),
        is_live(m.registry.entries, index as int),
        m.registry.entries[index as int]->0.budget_misses < m.tick,
    ensures
        coherent(crate::world::budget_judged(m, index, took)),
{
    let entry = m.registry.entries[index as int]->0;
    assert(in_time(m.registry.entries[index as int]->0, m.sim_time, m.tick));
    if crate::timing::passes(entry.timing.budget, took) {
        let missed = EntryModel { budget_misses: (entry.budget_misses + 1) as u64, ..entry };
        lemma_rebooked(m, index, missed);
        lemma_told(
            crate::world::rebooked(m, index, missed),
            crate::world::budget_judged(m, index, took).history,
        );
    }
}

/// Judging a step against its timeout keeps a world coherent.
pub proof fn lemma_timeout_judged(m: WorldModel, index: usize, waited: WallDuration)
    requires
        coherent(m),
        is_live(m.registry.entries, index as int),
    ensures
        coherent(crate::world::timeout_judged(m, index, waited).world),
{
    let entry = m.registry.entries[index as int]->0;
    let after = crate::world::timeout_judged(m, index, waited).world;
    if crate::timing::passes(entry.timing.timeout, waited) {
        lemma_told(m, after.history);
        let noted = WorldModel { history: after.history, ..m };
        if after.leaves != m.leaves {
            crate::queue::lemma_enqueued(
                m.leaves,
                crate::world::earliest_open(m) as i64,
                entry.path,
            );
            lemma_leave_queued(noted, after.leaves);
        }
    }
}

/// What one component's step leaves alone: the clock, the waiting joins, and
/// every other component's bookkeeping.
pub open spec fn only_touches(before: WorldModel, after: WorldModel, index: int) -> bool {
    &&& after.name == before.name
    &&& after.seed == before.seed
    &&& after.sim_time == before.sim_time
    &&& after.tick == before.tick
    &&& after.world_hash == before.world_hash
    &&& after.joins == before.joins
    &&& after.registry.children == before.registry.children
    &&& after.registry.entries.len() == before.registry.entries.len()
    &&& forall|i: int|
        0 <= i < before.registry.entries.len() && i != index ==> (
        #[trigger] after.registry.entries[i]) == before.registry.entries[i]
    &&& is_live(after.registry.entries, index)
}

/// A step keeps a world coherent, and touches only what is its own.
pub proof fn lemma_stepped(t: TickModel, index: usize, reply: ReplyModel)
    requires
        coherent(t.world),
        t.world.tick > 0,
        is_live(t.world.registry.entries, index as int),
        t.world.registry.entries[index as int]->0.budget_misses < t.world.tick,
    ensures
        coherent(crate::world::stepped(t, index, reply).world),
        only_touches(t.world, crate::world::stepped(t, index, reply).world, index as int),
{
    let called = crate::world::asked(t.world, index);
    lemma_asked(t.world, index);
    if let Ok(next_due) = reply.outcome {
        if next_due.0 > t.world.sim_time.0 {
            let booked = crate::world::step_booked(called, index, next_due, reply.outbox);
            lemma_step_booked(called, index, next_due, reply.outbox);
            lemma_budget_judged(booked, index, reply.took);
            let judged = crate::world::budget_judged(booked, index, reply.took);
            lemma_timeout_judged(judged, index, reply.took);
        }
    }
}

/// Admitting joins only ever adds slots.
pub proof fn lemma_admitted_grows(m: WorldModel, instant: i64)
    ensures
        m.registry.entries.len() <= crate::world::admitted(
            m,
            instant,
        ).world.registry.entries.len(),
    decreases m.joins.len(),
{
    if m.joins.len() > 0 && m.joins[0].0 <= instant {
        let rest = WorldModel { joins: m.joins.drop_first(), ..m };
        let next = crate::world::admission(rest, m.joins[0].0, m.joins[0].1);
        if next.error is None {
            lemma_admitted_grows(next.world, instant);
        }
    }
}

/// Whether an instant is the earliest that anything is due at.
pub open spec fn is_next(m: WorldModel, instant: i64) -> bool {
    &&& m.joins.len() > 0 ==> m.joins[0].0 >= instant
    &&& m.schedule.len() > 0 ==> m.schedule[0].0 >= instant
    &&& (m.joins.len() > 0 && m.joins[0].0 == instant) || (m.schedule.len() > 0
        && m.schedule[0].0 == instant)
}

/// Once every join for the next instant is admitted, that instant is what the
/// schedule starts with, and every join that still waits is for later.
pub proof fn lemma_admitted(m: WorldModel, instant: i64)
    requires
        coherent(m),
        is_next(m, instant),
        crate::world::admitted(m, instant).error is None,
        crate::world::admitted(m, instant).world.registry.entries.len() <= usize::MAX,
    ensures
        ({
            let after = crate::world::admitted(m, instant).world;
            &&& coherent(after)
            &&& after.schedule.len() > 0
            &&& after.schedule[0].0 == instant
            &&& after.joins.len() > 0 ==> after.joins[0].0 > instant
            &&& after.leaves == m.leaves
            &&& after.tick == m.tick
            &&& after.sim_time == m.sim_time
            &&& after.world_hash == m.world_hash
        }),
    decreases m.joins.len(),
{
    if m.joins.len() > 0 && m.joins[0].0 <= instant {
        let rest = WorldModel { joins: m.joins.drop_first(), ..m };
        let first = m.joins[0];
        let next = crate::world::joined(rest, first.0, first.1);
        lemma_front_join_taken(m);
        assert(crate::world::admission(rest, first.0, first.1).error is None);
        lemma_admitted_grows(next, instant);
        assert(next.registry.entries.len() == m.registry.entries.len() + 1);
        assert(crate::world::earliest_open(rest) == crate::world::earliest_open(m));
        lemma_joined(rest, first.0, first.1);
        lemma_next_due_reached(rest, first.0, first.1, instant);
        if next.joins.len() > 0 {
            assert(next.joins[0] == m.joins[1]);
            assert(m.joins[0].0 <= m.joins[1].0);
        }
        lemma_admitted(next, instant);
    }
}

/// What the boundary before an instant leaves: the schedule starts with the
/// next instant, and whatever leave or join still waits is for later. So a
/// component that leaves at an instant takes no part in it, and one that
/// joins at an instant takes part in it.
pub proof fn law_membership_is_settled_before_an_instant(m: WorldModel)
    requires
        coherent(m),
        crate::world::boundary(m).error is None,
        crate::world::boundary(m).world.registry.entries.len() <= usize::MAX,
        crate::world::boundary(m).world.schedule.len() > 0,
    ensures
        ({
            let ready = crate::world::boundary(m).world;
            let instant = ready.schedule[0].0;
            &&& coherent(ready)
            &&& forall|i: int| 0 <= i < ready.leaves.len() ==> (#[trigger] ready.leaves[i]).0
                > instant
            &&& forall|i: int| 0 <= i < ready.joins.len() ==> (#[trigger] ready.joins[i]).0
                > instant
            &&& crate::world::next_due(crate::world::settled(m, i64::MAX)) == Some(instant)
            &&& instant >= crate::world::earliest_open(m)
            &&& ready.tick == m.tick
            &&& ready.sim_time == m.sim_time
        }),
{
    let calm = crate::world::settled(m, i64::MAX);
    let ready = crate::world::boundary(m).world;
    lemma_settled(m, i64::MAX);
    assert(crate::world::next_due(calm) is Some);
    let instant = crate::world::next_due(calm)->0;
    lemma_admitted(calm, instant);
    assert forall|i: int| 0 <= i < ready.leaves.len() implies (#[trigger] ready.leaves[i]).0
        > instant by {
        assert(calm.leaves[0].0 > instant);
        if i > 0 {
            assert(calm.leaves[0].0 <= calm.leaves[i].0);
        }
    }
    assert forall|i: int| 0 <= i < ready.joins.len() implies (#[trigger] ready.joins[i]).0
        > instant by {
        if i > 0 {
            assert(ready.joins[0].0 <= ready.joins[i].0);
        }
    }
    assert(ready.schedule.contains(ready.schedule[0]));
    assert(crate::world::earliest_open(ready) == crate::world::earliest_open(m));
}

/// Closing an instant keeps a world coherent.
pub proof fn lemma_closed(t: TickModel)
    requires
        coherent(t.world),
    ensures
        coherent(crate::world::closed(t)),
{
    let after = crate::world::closed(t);
    assert(crate::world::earliest_open(after) == crate::world::earliest_open(t.world));
}

/// Admitting joins leaves the clock alone.
pub proof fn lemma_admitted_keeps_time(m: WorldModel, instant: i64)
    ensures
        crate::world::admitted(m, instant).world.tick == m.tick,
        crate::world::admitted(m, instant).world.sim_time == m.sim_time,
        crate::world::admitted(m, instant).world.world_hash == m.world_hash,
        crate::world::admitted(m, instant).world.leaves == m.leaves,
    decreases m.joins.len(),
{
    if m.joins.len() > 0 && m.joins[0].0 <= instant {
        let rest = WorldModel { joins: m.joins.drop_first(), ..m };
        let next = crate::world::admission(rest, m.joins[0].0, m.joins[0].1);
        if next.error is None {
            lemma_admitted_keeps_time(next.world, instant);
        }
    }
}

/// Whatever is due next is due at an instant that is still open.
pub proof fn lemma_next_due_is_open(m: WorldModel)
    requires
        coherent(m),
    ensures
        crate::world::next_due(m) matches Some(next) ==> next >= crate::world::earliest_open(m),
{
    if m.schedule.len() > 0 {
        assert(m.schedule.contains(m.schedule[0]));
    }
}

/// A world whose leaves have settled and that something is due in does not
/// stand still.
pub proof fn lemma_due_means_a_tick(m: WorldModel, after: WorldModel, end: i64)
    requires
        coherent(m),
        !crate::world::leave_is_due(m, end),
        !crate::world::done_by(m, end),
        after.registry.entries.len() <= usize::MAX,
    ensures
        !crate::world::advances(m, after, Ok::<bool, ConductorErrorModel>(false)),
{
    reveal(crate::world::advances);
    let next = crate::world::next_due(m)->0;
    assert(!crate::world::leave_is_due(m, i64::MAX));
    assert(crate::world::settled(m, i64::MAX) == m);
    if crate::world::advances(m, after, Ok::<bool, ConductorErrorModel>(false)) {
        if crate::world::boundary(m).error is None {
            if crate::world::boundary(m).world.schedule.len() == 0 {
                lemma_admitted(m, next);
            }
        }
    }
}

} // verus!
