//! Laws of the time that components are told has passed: over a run, what a
//! component is told at each step adds up to the time between its first step
//! and its latest.
use vstd::prelude::*;

use crate::coherence::{coherent, is_live};
use crate::conductor_error::ConductorErrorModel;
use crate::registry::EntryModel;
use crate::run_laws::{due_next, is_ready, tick_after};
use crate::schedule::Due;
use crate::time::SimTime;
use crate::timing::StepTiming;
use crate::world::{EffectModel, JoinModel, ReplyModel, TickModel, WorldModel};

verus! {

/// What a path was told of passing time since it was last told of none: the
/// instant of that step, and the sum of what it was told at every step after
/// it. Nothing, if it was never told of none.
pub open spec fn time_told(history: Seq<EffectModel>, path: Seq<Seq<char>>) -> Option<(int, int)>
    decreases history.len(),
{
    if history.len() == 0 {
        None
    } else {
        let earlier = time_told(history.drop_last(), path);
        match history.last() {
            EffectModel::Step(call) => if call.path == path {
                match call.dt {
                    None => Some((call.now.0 as int, 0)),
                    Some(dt) => match earlier {
                        Some(told) => Some((told.0, told.1 + dt.0)),
                        None => None,
                    },
                }
            } else {
                earlier
            },
            _ => earlier,
        }
    }
}

/// Whether what a component was told adds up: its first step and all that it
/// was told since make the instant of its latest.
pub open spec fn adds_up(history: Seq<EffectModel>, entry: EntryModel) -> bool {
    entry.last_step matches Some(latest) ==> (time_told(history, entry.path) matches Some(told)
        && told.0 + told.1 == latest.0)
}

/// Whether a slot is due at some instant.
pub open spec fn is_scheduled(m: WorldModel, slot: int) -> bool {
    exists|d: Due| #[trigger] m.schedule.contains(d) && d.1 == slot
}

/// Whether what everyone who will step again was told adds up.
pub open spec fn all_add_up(m: WorldModel) -> bool {
    forall|i: int|
        is_scheduled(m, i) && is_live(m.registry.entries, i) ==> adds_up(
            m.history,
            (#[trigger] m.registry.entries[i])->0,
        )
}

/// Whether a history goes on from another without anyone being asked to step.
pub open spec fn goes_on_quietly(before: Seq<EffectModel>, after: Seq<EffectModel>) -> bool {
    &&& before.len() <= after.len()
    &&& after.take(before.len() as int) == before
    &&& forall|i: int| before.len() <= i < after.len() ==> !(#[trigger] after[i] is Step)
}

/// Nobody is told anything while nobody is asked to step.
proof fn lemma_quiet(before: Seq<EffectModel>, after: Seq<EffectModel>, path: Seq<Seq<char>>)
    requires
        goes_on_quietly(before, after),
    ensures
        time_told(after, path) == time_told(before, path),
    decreases after.len(),
{
    if before.len() == after.len() {
        assert(after.take(before.len() as int) =~= after);
    } else {
        assert(!(after[after.len() - 1] is Step));
        let front = after.drop_last();
        assert(front.take(before.len() as int) =~= after.take(before.len() as int));
        assert forall|i: int| before.len() <= i < front.len() implies !(#[trigger] front[i]
            is Step) by {
            assert(!(after[i] is Step));
        }
        lemma_quiet(before, front, path);
    }
}

/// Whether membership alone changed: whoever is there and has stepped is who
/// was there, and nobody was asked to step.
pub open spec fn changes_membership(m: WorldModel, after: WorldModel) -> bool {
    &&& goes_on_quietly(m.history, after.history)
    &&& forall|i: int|
        is_scheduled(after, i) && is_live(after.registry.entries, i) && (
        #[trigger] after.registry.entries[i])->0.last_step is Some ==> is_scheduled(m, i)
            && is_live(m.registry.entries, i) && m.registry.entries[i]
            == after.registry.entries[i]
}

proof fn lemma_changes_twice(m: WorldModel, mid: WorldModel, after: WorldModel)
    requires
        changes_membership(m, mid),
        changes_membership(mid, after),
    ensures
        changes_membership(m, after),
{
    let n = m.history.len() as int;
    assert(after.history.take(n) =~= mid.history.take(n)) by {
        assert(mid.history =~= after.history.take(mid.history.len() as int));
    }
    assert forall|i: int| n <= i < after.history.len() implies !(#[trigger] after.history[i]
        is Step) by {
        if i < mid.history.len() {
            assert(after.history.take(mid.history.len() as int)[i] == after.history[i]);
            assert(!(mid.history[i] is Step));
        }
    }
    assert forall|i: int|
        is_scheduled(after, i) && is_live(after.registry.entries, i) && (
        #[trigger] after.registry.entries[i])->0.last_step is Some implies is_scheduled(m, i)
        && is_live(m.registry.entries, i) && m.registry.entries[i]
        == after.registry.entries[i] by {
        assert(mid.registry.entries[i] == after.registry.entries[i]);
    }
}

/// A change of membership leaves what everyone was told as it was.
proof fn lemma_membership_adds_up(m: WorldModel, after: WorldModel)
    requires
        all_add_up(m),
        changes_membership(m, after),
    ensures
        all_add_up(after),
{
    assert forall|i: int|
        is_scheduled(after, i) && is_live(after.registry.entries, i) implies adds_up(
        after.history,
        (#[trigger] after.registry.entries[i])->0,
    ) by {
        let entry = after.registry.entries[i]->0;
        if entry.last_step is Some {
            assert(adds_up(m.history, m.registry.entries[i]->0));
            lemma_quiet(m.history, after.history, entry.path);
        }
    }
}

proof fn lemma_gone_changes(m: WorldModel, path: Seq<Seq<char>>, leaves_at: i64)
    requires
        coherent(m),
    ensures
        changes_membership(m, crate::world::gone(m, path, leaves_at)),
{
    let after = crate::world::gone(m, path, leaves_at);
    assert(after.history.take(m.history.len() as int) =~= m.history);
    if crate::registry::is_registered(m.registry.entries, path) {
        let slot = crate::registry::slot_of(m.registry.entries, path);
        assert(crate::registry::stands_at(m.registry.entries, slot, path));
        crate::schedule::law_removal_leaves_others_untouched(m.schedule, slot as usize);
        assert forall|i: int|
            is_scheduled(after, i) && is_live(after.registry.entries, i) implies is_scheduled(m, i)
            && is_live(m.registry.entries, i) && m.registry.entries[i]
            == #[trigger] after.registry.entries[i] by {
            let d = choose|d: Due| #[trigger] after.schedule.contains(d) && d.1 == i;
            assert(m.schedule.contains(d));
        }
    } else {
        assert(after.schedule == m.schedule);
    }
}

proof fn lemma_settled_changes(m: WorldModel, limit: i64)
    requires
        coherent(m),
    ensures
        changes_membership(m, crate::world::settled(m, limit)),
    decreases m.leaves.len(),
{
    if crate::world::leave_is_due(m, limit) {
        let rest = WorldModel { leaves: m.leaves.drop_first(), ..m };
        crate::queue::lemma_taken_out(m.leaves, 0);
        assert(m.leaves.drop_first() =~= m.leaves.remove(0));
        assert(crate::world::earliest_open(rest) == crate::world::earliest_open(m));
        assert(coherent(rest));
        crate::coherence::lemma_front_gone(m);
        lemma_gone_changes(rest, m.leaves[0].1, m.leaves[0].0);
        let next = crate::world::front_gone(m);
        assert(changes_membership(m, next)) by {
            assert forall|i: int| is_scheduled(rest, i) implies is_scheduled(m, i) by {}
        }
        lemma_settled_changes(next, limit);
        lemma_changes_twice(m, next, crate::world::settled(m, limit));
    } else {
        assert(m.history.take(m.history.len() as int) =~= m.history);
    }
}

proof fn lemma_joined_changes(m: WorldModel, first_due: i64, join: JoinModel)
    requires
        coherent(m),
        m.registry.entries.len() < usize::MAX,
    ensures
        changes_membership(m, crate::world::joined(m, first_due, join)),
{
    let after = crate::world::joined(m, first_due, join);
    let slot = m.registry.entries.len() as usize;
    assert(after.history.take(m.history.len() as int) =~= m.history);
    crate::schedule::lemma_inserted(m.schedule, (first_due, slot));
    assert forall|i: int|
        is_scheduled(after, i) && is_live(after.registry.entries, i) && (
        #[trigger] after.registry.entries[i])->0.last_step is Some implies is_scheduled(m, i)
        && is_live(m.registry.entries, i) && m.registry.entries[i]
        == after.registry.entries[i] by {
        assert(i != slot);
        let d = choose|d: Due| #[trigger] after.schedule.contains(d) && d.1 == i;
        assert(m.schedule.contains(d));
    }
}

proof fn lemma_admitted_changes(m: WorldModel, instant: i64)
    requires
        coherent(m),
        crate::coherence::is_next(m, instant),
        crate::world::admitted(m, instant).error is None,
        crate::world::admitted(m, instant).world.registry.entries.len() <= usize::MAX,
    ensures
        changes_membership(m, crate::world::admitted(m, instant).world),
    decreases m.joins.len(),
{
    if m.joins.len() > 0 && m.joins[0].0 <= instant {
        let rest = WorldModel { joins: m.joins.drop_first(), ..m };
        let first = m.joins[0];
        let next = crate::world::joined(rest, first.0, first.1);
        crate::coherence::lemma_front_join_taken(m);
        assert(crate::world::admission(rest, first.0, first.1).error is None);
        crate::coherence::lemma_admitted_grows(next, instant);
        assert(next.registry.entries.len() == m.registry.entries.len() + 1);
        assert(crate::world::earliest_open(rest) == crate::world::earliest_open(m));
        crate::coherence::lemma_joined(rest, first.0, first.1);
        crate::coherence::lemma_next_due_reached(rest, first.0, first.1, instant);
        if next.joins.len() > 0 {
            assert(next.joins[0] == m.joins[1]);
            assert(m.joins[0].0 <= m.joins[1].0);
        }
        lemma_joined_changes(rest, first.0, first.1);
        assert(changes_membership(m, next)) by {
            assert forall|i: int| is_scheduled(rest, i) implies is_scheduled(m, i) by {}
        }
        lemma_admitted_changes(next, instant);
        lemma_changes_twice(m, next, crate::world::admitted(m, instant).world);
    } else {
        assert(m.history.take(m.history.len() as int) =~= m.history);
    }
}

/// One step of an instant: the component that stepped was told, and what it
/// was told since its first step makes the instant. Whoever else was told
/// something was told it before.
proof fn lemma_stepped_adds_up(t: TickModel, index: usize, reply: ReplyModel)
    requires
        coherent(t.world),
        is_live(t.world.registry.entries, index as int),
        adds_up(t.world.history, t.world.registry.entries[index as int]->0),
        crate::world::stepped(t, index, reply).error is None,
    ensures
        ({
            let after = crate::world::stepped(t, index, reply).world;
            let entries = t.world.registry.entries;
            &&& is_live(after.registry.entries, index as int)
            &&& adds_up(after.history, after.registry.entries[index as int]->0)
            &&& forall|i: int|
                is_live(entries, i) && i != index ==> after.registry.entries[i] == entries[i] && (
                adds_up(t.world.history, entries[i]->0) ==> adds_up(
                    after.history,
                    (#[trigger] after.registry.entries[i])->0,
                ))
            &&& forall|d: Due| #[trigger]
                after.schedule.contains(d) ==> t.world.schedule.contains(d) || d.1 == index
        }),
{
    let m = t.world;
    let after = crate::world::stepped(t, index, reply).world;
    let entry = m.registry.entries[index as int]->0;
    let call = crate::world::call_of(m, index);
    let asked = m.history.push(EffectModel::Step(call));
    let next_due = reply.outcome->Ok_0;
    crate::world_laws::law_a_component_is_told_the_time_since_its_previous_step(m, index);
    crate::schedule::lemma_inserted(m.schedule, (next_due.0, index));
    assert(after.history.take(asked.len() as int) =~= asked);
    assert(goes_on_quietly(asked, after.history));
    assert(asked.drop_last() =~= m.history);
    lemma_quiet(asked, after.history, entry.path);
    assert forall|i: int|
        is_live(m.registry.entries, i) && i != index implies after.registry.entries[i]
        == m.registry.entries[i] && (adds_up(m.history, m.registry.entries[i]->0) ==> adds_up(
        after.history,
        (#[trigger] after.registry.entries[i])->0,
    )) by {
        let other = m.registry.entries[i]->0;
        assert(other.path != entry.path) by {
            if i < index {
                assert(m.registry.entries[i]->0.path != m.registry.entries[index as int]->0.path);
            } else {
                assert(m.registry.entries[index as int]->0.path != m.registry.entries[i]->0.path);
            }
        }
        lemma_quiet(asked, after.history, other.path);
    }
}

/// Halfway through an instant what everyone was told who was due when it
/// began adds up.
proof fn lemma_tick_adds_up(m: WorldModel, replies: Seq<ReplyModel>, k: int)
    requires
        is_ready(m),
        all_add_up(m),
        0 <= k <= replies.len() <= due_next(m).len(),
        tick_after(m, replies, replies.len() as int).error is None,
    ensures
        ({
            let after = tick_after(m, replies, k).world;
            &&& forall|i: int|
                is_scheduled(m, i) && is_live(after.registry.entries, i) ==> adds_up(
                    after.history,
                    (#[trigger] after.registry.entries[i])->0,
                )
            &&& forall|d: Due| #[trigger]
                after.schedule.contains(d) ==> is_scheduled(m, d.1 as int)
        }),
    decreases k,
{
    let due = due_next(m);
    let after = tick_after(m, replies, k).world;
    crate::schedule::law_earliest_instant(m.schedule);
    crate::run_laws::lemma_tick_after(m, replies, k);
    if k == 0 {
        assert(due.take(0) =~= Seq::<usize>::empty());
        assert(after.history.take(m.history.len() as int) =~= m.history);
        assert forall|i: int|
            is_scheduled(m, i) && is_live(after.registry.entries, i) implies adds_up(
            after.history,
            (#[trigger] after.registry.entries[i])->0,
        ) by {
            assert(adds_up(m.history, m.registry.entries[i]->0));
            lemma_quiet(m.history, after.history, m.registry.entries[i]->0.path);
        }
        assert forall|d: Due| #[trigger] after.schedule.contains(d) implies is_scheduled(
            m,
            d.1 as int,
        ) by {
            assert(m.schedule.contains(d));
        }
    } else {
        lemma_tick_adds_up(m, replies, k - 1);
        crate::run_laws::lemma_tick_after(m, replies, k - 1);
        crate::run_laws::lemma_error_stays(m, replies, k - 1);
        crate::run_laws::lemma_error_stays(m, replies, k);
        let before = tick_after(m, replies, k - 1);
        assert(due.take(k).drop_last() =~= due.take(k - 1));
        assert(replies.take(k).drop_last() =~= replies.take(k - 1));
        assert(due.take(k).last() == due[k - 1]);
        assert(replies.take(k).last() == replies[k - 1]);
        let index = due[k - 1];
        assert(due.contains(index));
        assert(m.schedule.contains((m.schedule[0].0, index)));
        assert(is_scheduled(m, index as int));
        assert(is_live(m.registry.entries, index as int));
        assert(before.world.registry.entries[index as int] == m.registry.entries[index as int]);
        assert(is_live(before.world.registry.entries, index as int));
        lemma_stepped_adds_up(before, index, replies[k - 1]);
        assert forall|i: int|
            is_scheduled(m, i) && is_live(after.registry.entries, i) implies adds_up(
            after.history,
            (#[trigger] after.registry.entries[i])->0,
        ) by {
            if i != index {
                assert(crate::run_laws::same_place(
                    m.registry.entries[i],
                    after.registry.entries[i],
                ));
                assert(crate::run_laws::same_place(
                    m.registry.entries[i],
                    before.world.registry.entries[i],
                ));
                assert(adds_up(before.world.history, before.world.registry.entries[i]->0));
            }
        }
    }
}

/// The time that a component is told has passed adds up over every advance:
/// where what everyone who will step again was told makes the time between
/// their first step and their latest, it does so after the next instant.
pub proof fn law_the_time_told_adds_up(m: WorldModel, after: WorldModel)
    requires
        coherent(m),
        all_add_up(m),
        crate::world::boundary(m).world.registry.entries.len() <= usize::MAX,
        crate::world::advances(m, after, Ok::<bool, ConductorErrorModel>(true)),
    ensures
        all_add_up(after),
{
    reveal(crate::world::advances);
    let calm = crate::world::settled(m, i64::MAX);
    let ready = crate::world::boundary(m).world;
    crate::coherence::law_membership_is_settled_before_an_instant(m);
    crate::coherence::lemma_settled(m, i64::MAX);
    lemma_settled_changes(m, i64::MAX);
    lemma_admitted_changes(calm, crate::world::next_due(calm)->0);
    lemma_changes_twice(m, calm, ready);
    lemma_membership_adds_up(m, ready);
    let replies = choose|replies: Seq<ReplyModel>| #[trigger]
        crate::world::ticks(ready, replies, after, Ok::<bool, ConductorErrorModel>(true));
    let n = replies.len() as int;
    assert(replies.take(n) =~= replies);
    let t = tick_after(ready, replies, n);
    assert(crate::world::tick_outcome(ready, replies) == t);
    lemma_tick_adds_up(ready, replies, n);
    assert(after.history.take(t.world.history.len() as int) =~= t.world.history);
    assert forall|i: int|
        is_scheduled(after, i) && is_live(after.registry.entries, i) implies adds_up(
        after.history,
        (#[trigger] after.registry.entries[i])->0,
    ) by {
        let d = choose|d: Due| #[trigger] after.schedule.contains(d) && d.1 == i;
        assert(t.world.schedule.contains(d));
        assert(is_scheduled(ready, i));
        assert(is_live(t.world.registry.entries, i));
        assert(adds_up(t.world.history, t.world.registry.entries[i]->0));
        lemma_quiet(t.world.history, after.history, after.registry.entries[i]->0.path);
    }
}

/// Nobody was told anything in a fresh world, and a join or a leave that is
/// asked for tells nobody: what everyone was told adds up before a run and
/// between its instants.
pub proof fn law_asking_for_a_change_tells_nobody(
    m: WorldModel,
    parent: Seq<char>,
    first_due: SimTime,
    timing: StepTiming,
    id: Seq<char>,
    subscriptions: Seq<Seq<char>>,
    asked: Seq<char>,
    leaves_at: Option<SimTime>,
)
    requires
        coherent(m),
        all_add_up(m),
        m.registry.entries.len() < usize::MAX,
    ensures
        all_add_up(crate::world::fresh_world(m.name, m.seed, m.mail)),
        all_add_up(
            crate::world::join_request(m, parent, first_due, timing, id, subscriptions).world,
        ),
        all_add_up(crate::world::leave_request(m, asked, leaves_at).world),
{
    let after = crate::world::join_request(m, parent, first_due, timing, id, subscriptions).world;
    if crate::ids::parse_path(parent) is Ok {
        let home = crate::ids::parse_path(parent)->Ok_0;
        let join = JoinModel { path: home.push(id), timing, subscriptions };
        if first_due.0 == crate::world::earliest_open(m) {
            lemma_joined_changes(m, first_due.0, join);
            lemma_membership_adds_up(m, crate::world::joined(m, first_due.0, join));
        } else {
            let queued = crate::world::accepted_join(m, first_due, join).world;
            assert(queued.history.take(m.history.len() as int) =~= m.history);
            assert forall|i: int| is_scheduled(queued, i) implies is_scheduled(m, i) by {}
            lemma_membership_adds_up(m, queued);
        }
    }
    let gone = crate::world::leave_request(m, asked, leaves_at).world;
    if crate::ids::parse_path(asked) is Ok {
        let path = crate::ids::parse_path(asked)->Ok_0;
        let noted = crate::world::leave_noted(m, asked, leaves_at);
        assert(noted.history.take(m.history.len() as int) =~= m.history);
        assert forall|i: int| is_scheduled(noted, i) implies is_scheduled(m, i) by {}
        lemma_membership_adds_up(m, noted);
        crate::coherence::lemma_told(m, noted.history);
        let who = crate::world::departing(m, path);
        lemma_all_gone_adds_up(noted, who, crate::world::earliest_open(m) as i64);
        if gone.history == noted.history && gone.schedule == noted.schedule {
            assert forall|i: int| is_scheduled(gone, i) implies is_scheduled(noted, i) by {}
        }
    }
}

proof fn lemma_all_gone_adds_up(m: WorldModel, paths: Seq<Seq<Seq<char>>>, leaves_at: i64)
    requires
        coherent(m),
        all_add_up(m),
    ensures
        coherent(crate::world::all_gone(m, paths, leaves_at)),
        all_add_up(crate::world::all_gone(m, paths, leaves_at)),
    decreases paths.len(),
{
    if paths.len() > 0 {
        lemma_all_gone_adds_up(m, paths.drop_last(), leaves_at);
        let before = crate::world::all_gone(m, paths.drop_last(), leaves_at);
        crate::coherence::lemma_gone(before, paths.last(), leaves_at);
        lemma_gone_changes(before, paths.last(), leaves_at);
        lemma_membership_adds_up(before, crate::world::gone(before, paths.last(), leaves_at));
    }
}

} // verus!
