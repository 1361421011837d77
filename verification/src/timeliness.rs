//! Laws of waiting: a request for a later instant changes nothing until that
//! instant, so a run does not depend on when it was asked for.
use vstd::prelude::*;

use crate::coherence::{coherent, is_live};
use crate::queue::{early_first, enqueued, not_later};
use crate::time::SimTime;
use crate::world::{JoinModel, ReplyModel, TickModel, WorldModel};

verus! {

/// The place of a newcomer in a queue is the only one behind what is not for
/// later and in front of what is.
proof fn lemma_place<V>(queue: Seq<(i64, V)>, time: i64, place: int)
    requires
        early_first(queue),
        0 <= place <= queue.len(),
        forall|i: int| 0 <= i < place ==> (#[trigger] queue[i]).0 <= time,
        forall|i: int| place <= i < queue.len() ==> (#[trigger] queue[i]).0 > time,
    ensures
        not_later(queue, time) == place,
{
    crate::queue::lemma_not_later(queue, time);
    let found = not_later(queue, time) as int;
    if found < place {
        assert(queue[found].0 <= time);
    } else if place < found {
        assert(queue[place].0 > time);
    }
}

/// Something for later goes behind the front of a queue.
proof fn lemma_front_stays<V>(queue: Seq<(i64, V)>, time: i64, item: V)
    requires
        early_first(queue),
        queue.len() > 0,
        queue[0].0 <= time,
    ensures
        enqueued(queue, time, item)[0] == queue[0],
        enqueued(queue, time, item).drop_first() == enqueued(queue.drop_first(), time, item),
{
    crate::queue::lemma_not_later(queue, time);
    assert(enqueued(queue, time, item).drop_first() =~= enqueued(
        queue.drop_first(),
        time,
        item,
    ));
}

/// Two things for different instants take their places whichever comes first.
proof fn lemma_order_of_arrival<V>(queue: Seq<(i64, V)>, early: i64, p: V, late: i64, q: V)
    requires
        early_first(queue),
        early < late,
    ensures
        enqueued(enqueued(queue, late, q), early, p) == enqueued(
            enqueued(queue, early, p),
            late,
            q,
        ),
{
    crate::queue::lemma_not_later(queue, early);
    crate::queue::lemma_not_later(queue, late);
    let a = not_later(queue, early) as int;
    let b = not_later(queue, late) as int;
    if b < a {
        assert(queue[b].0 <= early);
    }
    let with_late = enqueued(queue, late, q);
    let with_early = enqueued(queue, early, p);
    crate::queue::lemma_enqueued(queue, late, q);
    crate::queue::lemma_enqueued(queue, early, p);
    assert forall|i: int| 0 <= i < a implies (#[trigger] with_late[i]).0 <= early by {
        assert(with_late[i] == queue[i]);
    }
    assert forall|i: int| a <= i < with_late.len() implies (#[trigger] with_late[i]).0
        > early by {
        if i < b {
            assert(with_late[i] == queue[i]);
        } else if i > b {
            assert(with_late[i] == queue[i - 1]);
        }
    }
    lemma_place(with_late, early, a);
    assert forall|i: int| 0 <= i < b + 1 implies (#[trigger] with_early[i]).0 <= late by {
        if i < a {
            assert(with_early[i] == queue[i]);
        } else if i > a {
            assert(with_early[i] == queue[i - 1]);
        }
    }
    assert forall|i: int| b + 1 <= i < with_early.len() implies (#[trigger] with_early[i]).0
        > late by {
        assert(with_early[i] == queue[i - 1]);
    }
    lemma_place(with_early, late, b + 1);
    assert(enqueued(with_late, early, p) =~= enqueued(with_early, late, q));
}

// ---------------------------------------------------------------------------
// What is due next only moves forward
// ---------------------------------------------------------------------------

/// A leave taking effect brings nothing forward.
proof fn lemma_gone_brings_nothing_forward(m: WorldModel, path: Seq<Seq<char>>, leaves_at: i64)
    requires
        coherent(m),
    ensures
        ({
            let after = crate::world::gone(m, path, leaves_at);
            crate::world::next_due(after) matches Some(then_due) ==> (crate::world::next_due(m)
                matches Some(now_due) && now_due <= then_due)
        }),
{
    let after = crate::world::gone(m, path, leaves_at);
    if crate::registry::is_registered(m.registry.entries, path) {
        let slot = crate::registry::slot_of(m.registry.entries, path);
        crate::schedule::law_removal_leaves_others_untouched(m.schedule, slot as usize);
        if after.schedule.len() > 0 {
            assert(after.schedule.contains(after.schedule[0]));
            assert(m.schedule.contains(after.schedule[0]));
            let j = choose|j: int|
                0 <= j < m.schedule.len() && m.schedule[j] == after.schedule[0];
            if j > 0 {
                assert(crate::schedule::before(m.schedule[0], m.schedule[j]));
            }
        }
    } else {
        let place = crate::world::join_place(m.joins, path) as int;
        if place < m.joins.len() && after.joins.len() > 0 {
            crate::queue::lemma_taken_out(m.joins, place);
            assert(m.joins.contains(after.joins[0]));
            let j = choose|j: int| 0 <= j < m.joins.len() && m.joins[j] == after.joins[0];
            if j > 0 {
                assert(m.joins[0].0 <= m.joins[j].0);
            }
        }
    }
}

/// Settling brings nothing forward.
proof fn lemma_settling_brings_nothing_forward(m: WorldModel, limit: i64)
    requires
        coherent(m),
    ensures
        crate::world::next_due(crate::world::settled(m, limit)) matches Some(then_due) ==> (
        crate::world::next_due(m) matches Some(now_due) && now_due <= then_due),
    decreases m.leaves.len(),
{
    if crate::world::leave_is_due(m, limit) {
        let rest = WorldModel { leaves: m.leaves.drop_first(), ..m };
        assert(m.leaves.drop_first() =~= m.leaves.remove(0));
        crate::queue::lemma_taken_out(m.leaves, 0);
        crate::coherence::lemma_leave_queued(m, rest.leaves);
        lemma_gone_brings_nothing_forward(rest, m.leaves[0].1, m.leaves[0].0);
        crate::coherence::lemma_front_gone(m);
        lemma_settling_brings_nothing_forward(crate::world::front_gone(m), limit);
    }
}

// ---------------------------------------------------------------------------
// A waiting leave
// ---------------------------------------------------------------------------

/// Whether `b` is `a` with one more leave waiting, whatever was noted.
pub open spec fn awaits_leave(a: WorldModel, b: WorldModel, time: i64, path: Seq<Seq<char>>) -> bool {
    b == (WorldModel {
        leaves: enqueued(a.leaves, time, path),
        history: b.history,
        ..a
    })
}

/// A leave that takes effect finds the same whether another waits or not.
proof fn lemma_gone_beside_leave(
    a: WorldModel,
    b: WorldModel,
    time: i64,
    path: Seq<Seq<char>>,
    who: Seq<Seq<char>>,
    leaves_at: i64,
)
    requires
        awaits_leave(a, b, time, path),
    ensures
        awaits_leave(
            crate::world::gone(a, who, leaves_at),
            crate::world::gone(b, who, leaves_at),
            time,
            path,
        ),
{
}

/// A leave that waits beyond the next instant is not settled.
proof fn lemma_settled_beside_leave(
    a: WorldModel,
    b: WorldModel,
    time: i64,
    path: Seq<Seq<char>>,
    next: i64,
)
    requires
        coherent(a),
        awaits_leave(a, b, time, path),
        crate::world::next_due(crate::world::settled(a, i64::MAX)) == Some(next),
        next < time,
    ensures
        awaits_leave(
            crate::world::settled(a, i64::MAX),
            crate::world::settled(b, i64::MAX),
            time,
            path,
        ),
    decreases a.leaves.len(),
{
    lemma_settling_brings_nothing_forward(a, i64::MAX);
    assert(crate::world::next_due(b) == crate::world::next_due(a));
    if a.leaves.len() > 0 && a.leaves[0].0 <= time {
        lemma_front_stays(a.leaves, time, path);
    }
    if crate::world::leave_is_due(a, i64::MAX) {
        crate::coherence::lemma_front_gone(a);
        let c = WorldModel { leaves: a.leaves.drop_first(), ..a };
        let d = WorldModel { leaves: b.leaves.drop_first(), ..b };
        assert(awaits_leave(c, d, time, path));
        lemma_gone_beside_leave(c, d, time, path, a.leaves[0].1, a.leaves[0].0);
        assert(crate::world::leave_is_due(b, i64::MAX));
        lemma_settled_beside_leave(
            crate::world::front_gone(a),
            crate::world::front_gone(b),
            time,
            path,
            next,
        );
    } else {
        crate::queue::lemma_not_later(a.leaves, time);
        assert(b.leaves[0].0 > next);
        assert(!crate::world::leave_is_due(b, i64::MAX));
    }
}

/// Joins are admitted the same whether a leave waits or not.
proof fn lemma_admitted_beside_leave(
    a: WorldModel,
    b: WorldModel,
    time: i64,
    path: Seq<Seq<char>>,
    instant: i64,
)
    requires
        awaits_leave(a, b, time, path),
    ensures
        awaits_leave(
            crate::world::admitted(a, instant).world,
            crate::world::admitted(b, instant).world,
            time,
            path,
        ),
        crate::world::admitted(a, instant).error == crate::world::admitted(b, instant).error,
    decreases a.joins.len(),
{
    if a.joins.len() > 0 && a.joins[0].0 <= instant {
        let c = WorldModel { joins: a.joins.drop_first(), ..a };
        let d = WorldModel { joins: b.joins.drop_first(), ..b };
        let x = crate::world::admission(c, a.joins[0].0, a.joins[0].1);
        let y = crate::world::admission(d, b.joins[0].0, b.joins[0].1);
        assert(awaits_leave(x.world, y.world, time, path));
        assert(x.error == y.error);
        if x.error is None {
            lemma_admitted_beside_leave(x.world, y.world, time, path, instant);
        }
    }
}

/// A step is the same whether a leave waits or not, as long as it queues none
/// for the very instant that one waits for.
proof fn lemma_stepped_beside_leave(
    a: TickModel,
    b: TickModel,
    time: i64,
    path: Seq<Seq<char>>,
    index: usize,
    reply: ReplyModel,
)
    requires
        coherent(a.world),
        a.world.tick > 0,
        is_live(a.world.registry.entries, index as int),
        awaits_leave(a.world, b.world, time, path),
        a.bytes == b.bytes,
        a.error == b.error,
        time > a.world.sim_time.0 + 1 || crate::world::stepped(a, index, reply).world.leaves
            == a.world.leaves,
    ensures
        ({
            let c = crate::world::stepped(a, index, reply);
            let d = crate::world::stepped(b, index, reply);
            awaits_leave(c.world, d.world, time, path) && c.bytes == d.bytes && c.error == d.error
        }),
{
    let c = crate::world::stepped(a, index, reply);
    let d = crate::world::stepped(b, index, reply);
    let entry = a.world.registry.entries[index as int]->0;
    if let Ok(next_due) = reply.outcome {
        if next_due.0 > a.world.sim_time.0 {
            let x = crate::world::step_booked(a.world, index, next_due, reply.outbox);
            let y = crate::world::step_booked(b.world, index, next_due, reply.outbox);
            assert(awaits_leave(x, y, time, path));
            let u = crate::world::budget_judged(x, index, reply.took);
            let v = crate::world::budget_judged(y, index, reply.took);
            assert(awaits_leave(u, v, time, path));
            let soon = (a.world.sim_time.0 + 1) as i64;
            if c.world.leaves != a.world.leaves {
                assert(c.world.leaves == enqueued(a.world.leaves, soon, entry.path)) by {
                    assert(u.leaves == a.world.leaves);
                }
                lemma_order_of_arrival(a.world.leaves, soon, entry.path, time, path);
            } else if crate::timing::passes(entry.timing.timeout, reply.took)
                && entry.timing.on_timeout == crate::timing::OnTimeout::Remove {
                crate::queue::lemma_enqueued(a.world.leaves, soon, entry.path);
                assert(c.world.leaves == enqueued(a.world.leaves, soon, entry.path));
            }
            assert(awaits_leave(c.world, d.world, time, path));
        }
    }
}

/// Queued leaves only grow in number while an instant is stepped.
proof fn lemma_leaves_grow(m: WorldModel, replies: Seq<ReplyModel>, j: int, k: int)
    requires
        0 <= j <= k <= replies.len() <= crate::run_laws::due_next(m).len(),
        crate::run_laws::is_ready(m),
    ensures
        crate::run_laws::tick_after(m, replies, j).world.leaves.len()
            <= crate::run_laws::tick_after(m, replies, k).world.leaves.len(),
        crate::run_laws::tick_after(m, replies, j).world.leaves.len()
            == crate::run_laws::tick_after(m, replies, k).world.leaves.len()
            ==> crate::run_laws::tick_after(m, replies, j).world.leaves
            == crate::run_laws::tick_after(m, replies, k).world.leaves,
    decreases k - j,
{
    if j < k {
        lemma_leaves_grow(m, replies, j, k - 1);
        let due = crate::run_laws::due_next(m);
        let before = crate::run_laws::tick_after(m, replies, k - 1);
        crate::run_laws::lemma_tick_after(m, replies, k - 1);
        assert(due.take(k).drop_last() =~= due.take(k - 1));
        assert(replies.take(k).drop_last() =~= replies.take(k - 1));
        assert(due.take(k).last() == due[k - 1]);
        assert(replies.take(k).last() == replies[k - 1]);
        if before.error is None {
            let entry = before.world.registry.entries[due[k - 1] as int]->0;
            let soon = (before.world.sim_time.0 + 1) as i64;
            crate::queue::lemma_enqueued(before.world.leaves, soon, entry.path);
        }
    }
}

/// A whole instant is the same whether a leave waits or not.
proof fn lemma_tick_beside_leave(
    a: WorldModel,
    b: WorldModel,
    time: i64,
    path: Seq<Seq<char>>,
    replies: Seq<ReplyModel>,
    k: int,
)
    requires
        crate::run_laws::is_ready(a),
        awaits_leave(a, b, time, path),
        0 <= k <= replies.len() <= crate::run_laws::due_next(a).len(),
        time > a.schedule[0].0 + 1 || crate::run_laws::tick_after(
            a,
            replies,
            replies.len() as int,
        ).world.leaves == a.leaves,
    ensures
        ({
            let c = crate::run_laws::tick_after(a, replies, k);
            let d = crate::run_laws::tick_after(b, replies, k);
            awaits_leave(c.world, d.world, time, path) && c.bytes == d.bytes && c.error == d.error
        }),
    decreases k,
{
    let due = crate::run_laws::due_next(a);
    assert(crate::run_laws::due_next(b) == due);
    if k == 0 {
        assert(due.take(0) =~= Seq::<usize>::empty());
    } else {
        lemma_tick_beside_leave(a, b, time, path, replies, k - 1);
        crate::run_laws::lemma_tick_after(a, replies, k - 1);
        let c = crate::run_laws::tick_after(a, replies, k - 1);
        let d = crate::run_laws::tick_after(b, replies, k - 1);
        assert(due.take(k).drop_last() =~= due.take(k - 1));
        assert(replies.take(k).drop_last() =~= replies.take(k - 1));
        assert(due.take(k).last() == due[k - 1]);
        assert(replies.take(k).last() == replies[k - 1]);
        if c.error is None {
            if time <= a.schedule[0].0 + 1 {
                let n = replies.len() as int;
                assert(due.take(0) =~= Seq::<usize>::empty());
                assert(crate::run_laws::tick_after(a, replies, 0).world.leaves == a.leaves);
                lemma_leaves_grow(a, replies, 0, k - 1);
                lemma_leaves_grow(a, replies, k - 1, k);
                lemma_leaves_grow(a, replies, k, n);
            }
            crate::coherence::lemma_opened(a);
            assert(is_live(a.registry.entries, due[k - 1] as int));
            lemma_stepped_beside_leave(c, d, time, path, due[k - 1], replies[k - 1]);
        }
    }
}

/// A run does not depend on when a leave was asked for. Asking for a
/// component to leave at an instant and then stepping an earlier one leads to
/// the same world as stepping first and asking afterwards: the same schedule,
/// the same queues, the same fingerprint. Only the note of when it was asked
/// differs.
///
/// Where a step of that earlier instant is removed for its timeout, its leave
/// is for the instant right after, and two leaves for one instant take effect
/// in the order they were queued; so a leave for that very instant is the one
/// case where the order of asking can be seen.
pub proof fn law_a_leave_does_not_depend_on_when_it_was_asked_for(
    m: WorldModel,
    asked: Seq<char>,
    time: SimTime,
    replies: Seq<ReplyModel>,
)
    requires
        coherent(m),
        crate::ids::parse_path(asked) is Ok,
        ({
            let path = crate::ids::parse_path(asked)->Ok_0;
            let ready = crate::world::boundary(m).world;
            let t = crate::world::tick_outcome(ready, replies);
            &&& crate::world::boundary(m).error is None
            &&& ready.registry.entries.len() <= usize::MAX
            &&& ready.schedule.len() > 0
            &&& ready.schedule[0].0 < time.0
            &&& crate::registry::is_registered(m.registry.entries, path)
            &&& crate::registry::is_registered(ready.registry.entries, path)
            &&& replies.len() <= crate::run_laws::due_next(ready).len()
            &&& t.error is None
            &&& time.0 > ready.schedule[0].0 + 1 || t.world.leaves == ready.leaves
        }),
    ensures
        ({
            let ready = crate::world::boundary(m).world;
            let after = crate::world::closed(crate::world::tick_outcome(ready, replies));
            let asked_late = crate::world::leave_request(after, asked, Some(time));
            let asked_early = crate::world::leave_request(m, asked, Some(time));
            let early_ready = crate::world::boundary(asked_early.world);
            let early_tick = crate::world::tick_outcome(early_ready.world, replies);
            let early_after = crate::world::closed(early_tick);
            &&& asked_early.answer is Ok
            &&& asked_late.answer is Ok
            &&& early_ready.error is None
            &&& early_tick.error is None
            &&& early_after == (WorldModel { history: early_after.history, ..asked_late.world })
        }),
{
    let path = crate::ids::parse_path(asked)->Ok_0;
    let ready = crate::world::boundary(m).world;
    let n = replies.len() as int;
    crate::coherence::law_membership_is_settled_before_an_instant(m);
    let instant = ready.schedule[0].0;
    let early = crate::world::leave_request(m, asked, Some(time)).world;
    assert(seq![path].drop_last() =~= Seq::<Seq<Seq<char>>>::empty());
    assert(crate::world::all_queued(m.leaves, time.0, seq![path]) == enqueued(
        m.leaves,
        time.0,
        path,
    )) by {
        assert(crate::world::all_queued(m.leaves, time.0, seq![path].drop_last()) == m.leaves);
    }
    assert(awaits_leave(m, early, time.0, path));
    lemma_settled_beside_leave(m, early, time.0, path, instant);
    let calm = crate::world::settled(m, i64::MAX);
    let early_calm = crate::world::settled(early, i64::MAX);
    assert(crate::world::next_due(early_calm) == crate::world::next_due(calm));
    lemma_admitted_beside_leave(calm, early_calm, time.0, path, instant);
    let early_ready = crate::world::boundary(early).world;
    assert(replies.take(n) =~= replies);
    lemma_tick_beside_leave(ready, early_ready, time.0, path, replies, n);
    crate::run_laws::lemma_tick_after(ready, replies, n);
    let t = crate::world::tick_outcome(ready, replies);
    let after = crate::world::closed(t);
    assert(crate::registry::is_registered(after.registry.entries, path)) by {
        let i = choose|i: int| crate::registry::stands_at(ready.registry.entries, i, path);
        assert(crate::run_laws::same_place(
            ready.registry.entries[i],
            t.world.registry.entries[i],
        ));
        assert(crate::registry::stands_at(after.registry.entries, i, path));
    }
    assert(crate::world::all_queued(after.leaves, time.0, seq![path]) == enqueued(
        after.leaves,
        time.0,
        path,
    )) by {
        assert(crate::world::all_queued(after.leaves, time.0, seq![path].drop_last())
            == after.leaves);
    }
}

// ---------------------------------------------------------------------------
// A waiting join
// ---------------------------------------------------------------------------

/// Whether `b` is `a` with one more join waiting, whatever was noted.
pub open spec fn awaits_join(a: WorldModel, b: WorldModel, first_due: i64, join: JoinModel) -> bool {
    b == (WorldModel {
        joins: enqueued(a.joins, first_due, join),
        history: b.history,
        ..a
    })
}

/// The place of the first join for a path is the only one.
proof fn lemma_join_place_is(joins: Seq<(i64, JoinModel)>, path: Seq<Seq<char>>, place: int)
    requires
        0 <= place <= joins.len(),
        place < joins.len() ==> joins[place].1.path == path,
        forall|i: int| 0 <= i < place ==> (#[trigger] joins[i]).1.path != path,
    ensures
        crate::world::join_place(joins, path) == place,
{
    crate::coherence::lemma_join_place(joins, path);
    let found = crate::world::join_place(joins, path) as int;
    if found < place {
        assert(joins[found].1.path == path);
    } else if place < found {
        assert(joins[place].1.path != path);
    }
}

/// How much of a queue is not for later once one entry is taken out of it.
proof fn lemma_not_later_without<V>(queue: Seq<(i64, V)>, time: i64, place: int)
    requires
        early_first(queue),
        0 <= place < queue.len(),
    ensures
        not_later(queue.remove(place), time) == (if place < not_later(queue, time) {
            not_later(queue, time) - 1
        } else {
            not_later(queue, time) as int
        }),
{
    let at = not_later(queue, time) as int;
    let fewer = queue.remove(place);
    let fewer_at = if place < at {
        at - 1
    } else {
        at
    };
    crate::queue::lemma_not_later(queue, time);
    crate::queue::lemma_taken_out(queue, place);
    assert forall|i: int| 0 <= i < fewer_at implies (#[trigger] fewer[i]).0 <= time by {
        if i < place {
            assert(fewer[i] == queue[i]);
        } else {
            assert(fewer[i] == queue[i + 1]);
        }
    }
    assert forall|i: int| fewer_at <= i < fewer.len() implies (#[trigger] fewer[i]).0 > time by {
        if i < place {
            assert(fewer[i] == queue[i]);
        } else {
            assert(fewer[i] == queue[i + 1]);
        }
    }
    lemma_place(fewer, time, fewer_at);
}

/// Withdrawing a join for another path leaves this one waiting.
proof fn lemma_withdrawn_beside_join(
    joins: Seq<(i64, JoinModel)>,
    first_due: i64,
    join: JoinModel,
    who: Seq<Seq<char>>,
)
    requires
        early_first(joins),
        join.path != who,
    ensures
        ({
            let place = crate::world::join_place(joins, who) as int;
            let more = enqueued(joins, first_due, join);
            let more_place = crate::world::join_place(more, who) as int;
            &&& place < joins.len() <==> more_place < more.len()
            &&& place < joins.len() ==> more.remove(more_place) == enqueued(
                joins.remove(place),
                first_due,
                join,
            )
        }),
{
    let place = crate::world::join_place(joins, who) as int;
    let at = not_later(joins, first_due) as int;
    let more = enqueued(joins, first_due, join);
    crate::coherence::lemma_join_place(joins, who);
    crate::queue::lemma_not_later(joins, first_due);
    let more_place = if place < at {
        place
    } else {
        place + 1
    };
    assert forall|i: int| 0 <= i < more_place implies (#[trigger] more[i]).1.path != who by {
        if i < at {
            assert(more[i] == joins[i]);
        } else if i > at {
            assert(more[i] == joins[i - 1]);
        }
    }
    lemma_join_place_is(more, who, more_place);
    if place < joins.len() {
        let fewer = joins.remove(place);
        lemma_not_later_without(joins, first_due, place);
        assert(more.remove(more_place) =~= enqueued(fewer, first_due, join));
    }
}

/// A leave for another path takes effect the same whether a join waits or
/// not.
proof fn lemma_gone_beside_join(
    a: WorldModel,
    b: WorldModel,
    first_due: i64,
    join: JoinModel,
    who: Seq<Seq<char>>,
    leaves_at: i64,
)
    requires
        early_first(a.joins),
        awaits_join(a, b, first_due, join),
        join.path != who,
    ensures
        awaits_join(
            crate::world::gone(a, who, leaves_at),
            crate::world::gone(b, who, leaves_at),
            first_due,
            join,
        ),
{
    if !crate::registry::is_registered(a.registry.entries, who) {
        lemma_withdrawn_beside_join(a.joins, first_due, join, who);
    }
}

/// What is due next is the same whether a join waits for later or not.
proof fn lemma_next_due_beside_join(
    a: WorldModel,
    b: WorldModel,
    first_due: i64,
    join: JoinModel,
    next: i64,
)
    requires
        early_first(a.joins),
        awaits_join(a, b, first_due, join),
        crate::world::next_due(a) == Some(next),
        next < first_due,
    ensures
        crate::world::next_due(b) == crate::world::next_due(a),
{
    crate::queue::lemma_not_later(a.joins, first_due);
    if a.joins.len() > 0 && a.joins[0].0 <= first_due {
        lemma_front_stays(a.joins, first_due, join);
    }
}

/// Settling is the same whether a join waits for later or not.
proof fn lemma_settled_beside_join(
    a: WorldModel,
    b: WorldModel,
    first_due: i64,
    join: JoinModel,
    next: i64,
)
    requires
        coherent(a),
        awaits_join(a, b, first_due, join),
        crate::world::next_due(crate::world::settled(a, i64::MAX)) == Some(next),
        next < first_due,
        forall|i: int|
            0 <= i < a.leaves.len() && (#[trigger] a.leaves[i]).0 <= next ==> a.leaves[i].1
                != join.path,
    ensures
        awaits_join(
            crate::world::settled(a, i64::MAX),
            crate::world::settled(b, i64::MAX),
            first_due,
            join,
        ),
    decreases a.leaves.len(),
{
    lemma_settling_brings_nothing_forward(a, i64::MAX);
    let now_due = crate::world::next_due(a)->0;
    lemma_next_due_beside_join(a, b, first_due, join, now_due);
    if crate::world::leave_is_due(a, i64::MAX) {
        crate::coherence::lemma_front_gone(a);
        assert(a.leaves[0].1 != join.path);
        let c = WorldModel { leaves: a.leaves.drop_first(), ..a };
        let d = WorldModel { leaves: b.leaves.drop_first(), ..b };
        assert(awaits_join(c, d, first_due, join));
        lemma_gone_beside_join(c, d, first_due, join, a.leaves[0].1, a.leaves[0].0);
        let rest = crate::world::front_gone(a);
        assert forall|i: int|
            0 <= i < rest.leaves.len() && (#[trigger] rest.leaves[i]).0 <= next implies rest.leaves[i].1
            != join.path by {
            assert(rest.leaves[i] == a.leaves[i + 1]);
        }
        lemma_settled_beside_join(rest, crate::world::front_gone(b), first_due, join, next);
    }
}

/// Joins for an earlier instant are admitted the same whether one for later
/// waits or not.
proof fn lemma_admitted_beside_join(
    a: WorldModel,
    b: WorldModel,
    first_due: i64,
    join: JoinModel,
    instant: i64,
)
    requires
        early_first(a.joins),
        awaits_join(a, b, first_due, join),
        instant < first_due,
    ensures
        awaits_join(
            crate::world::admitted(a, instant).world,
            crate::world::admitted(b, instant).world,
            first_due,
            join,
        ),
        crate::world::admitted(a, instant).error == crate::world::admitted(b, instant).error,
    decreases a.joins.len(),
{
    crate::queue::lemma_not_later(a.joins, first_due);
    if a.joins.len() > 0 && a.joins[0].0 <= instant {
        lemma_front_stays(a.joins, first_due, join);
        assert(a.joins.drop_first() =~= a.joins.remove(0));
        crate::queue::lemma_taken_out(a.joins, 0);
        let c = WorldModel { joins: a.joins.drop_first(), ..a };
        let d = WorldModel { joins: b.joins.drop_first(), ..b };
        let x = crate::world::admission(c, a.joins[0].0, a.joins[0].1);
        let y = crate::world::admission(d, b.joins[0].0, b.joins[0].1);
        assert(awaits_join(x.world, y.world, first_due, join));
        assert(x.error == y.error);
        if x.error is None {
            lemma_admitted_beside_join(x.world, y.world, first_due, join, instant);
        }
    } else {
        if a.joins.len() > 0 && a.joins[0].0 <= first_due {
            lemma_front_stays(a.joins, first_due, join);
        }
        assert(b.joins[0].0 > instant);
    }
}

/// A whole instant is the same whether a join waits for later or not.
proof fn lemma_tick_beside_join(
    a: WorldModel,
    b: WorldModel,
    first_due: i64,
    join: JoinModel,
    replies: Seq<ReplyModel>,
    k: int,
)
    requires
        awaits_join(a, b, first_due, join),
        0 <= k <= replies.len() <= crate::run_laws::due_next(a).len(),
        crate::run_laws::is_ready(a),
    ensures
        ({
            let c = crate::run_laws::tick_after(a, replies, k);
            let d = crate::run_laws::tick_after(b, replies, k);
            awaits_join(c.world, d.world, first_due, join) && c.bytes == d.bytes && c.error
                == d.error
        }),
    decreases k,
{
    let due = crate::run_laws::due_next(a);
    assert(crate::run_laws::due_next(b) == due);
    if k == 0 {
        assert(due.take(0) =~= Seq::<usize>::empty());
    } else {
        lemma_tick_beside_join(a, b, first_due, join, replies, k - 1);
        assert(due.take(k).drop_last() =~= due.take(k - 1));
        assert(replies.take(k).drop_last() =~= replies.take(k - 1));
        assert(due.take(k).last() == due[k - 1]);
        assert(replies.take(k).last() == replies[k - 1]);
        let c = crate::run_laws::tick_after(a, replies, k - 1);
        let d = crate::run_laws::tick_after(b, replies, k - 1);
        if c.error is None {
            let index = due[k - 1];
            let reply = replies[k - 1];
            crate::run_laws::lemma_tick_after(a, replies, k - 1);
            crate::coherence::lemma_opened(a);
            assert(is_live(a.registry.entries, index as int));
            if let Ok(next_due) = reply.outcome {
                if next_due.0 > c.world.sim_time.0 {
                    let x = crate::world::step_booked(c.world, index, next_due, reply.outbox);
                    let y = crate::world::step_booked(d.world, index, next_due, reply.outbox);
                    assert(awaits_join(x, y, first_due, join));
                    let u = crate::world::budget_judged(x, index, reply.took);
                    let v = crate::world::budget_judged(y, index, reply.took);
                    assert(awaits_join(u, v, first_due, join));
                }
            }
        }
    }
}

/// A run does not depend on when a join was asked for. Asking for a component
/// to join at an instant and then stepping an earlier one leads to the same
/// world as stepping first and asking afterwards: until its instant, a join
/// that waits is neither registered, nor subscribed, nor scheduled. Only the
/// note of when it was asked differs.
///
/// The instant right after the one that is stepped is left out, because a join
/// for the earliest open instant is admitted when it is asked for; and so is a
/// path that a leave comes due for meanwhile, because that leave withdraws a
/// join that waits for it.
pub proof fn law_a_join_does_not_depend_on_when_it_was_asked_for(
    m: WorldModel,
    parent: Seq<char>,
    first_due: SimTime,
    timing: crate::timing::StepTiming,
    id: Seq<char>,
    subscriptions: Seq<Seq<char>>,
    replies: Seq<ReplyModel>,
)
    requires
        coherent(m),
        crate::ids::parse_path(parent) is Ok,
        crate::timing::unreachable_pair(timing) is None,
        ({
            let path = crate::ids::parse_path(parent)->Ok_0.push(id);
            let ready = crate::world::boundary(m).world;
            let t = crate::world::tick_outcome(ready, replies);
            &&& crate::world::boundary(m).error is None
            &&& ready.registry.entries.len() <= usize::MAX
            &&& ready.schedule.len() > 0
            &&& ready.schedule[0].0 + 1 < first_due.0
            &&& forall|i: int|
                0 <= i < m.leaves.len() && (#[trigger] m.leaves[i]).0 <= ready.schedule[0].0
                    ==> m.leaves[i].1 != path
            &&& replies.len() <= crate::run_laws::due_next(ready).len()
            &&& t.error is None
        }),
    ensures
        ({
            let ready = crate::world::boundary(m).world;
            let after = crate::world::closed(crate::world::tick_outcome(ready, replies));
            let asked_late = crate::world::join_request(
                after,
                parent,
                first_due,
                timing,
                id,
                subscriptions,
            );
            let asked_early = crate::world::join_request(
                m,
                parent,
                first_due,
                timing,
                id,
                subscriptions,
            );
            let early_ready = crate::world::boundary(asked_early.world);
            let early_tick = crate::world::tick_outcome(early_ready.world, replies);
            let early_after = crate::world::closed(early_tick);
            &&& asked_early.answer is Ok
            &&& asked_late.answer == asked_early.answer
            &&& early_ready.error is None
            &&& early_tick.error is None
            &&& early_after == (WorldModel { history: early_after.history, ..asked_late.world })
        }),
{
    let path = crate::ids::parse_path(parent)->Ok_0.push(id);
    let join = JoinModel { path, timing, subscriptions };
    let ready = crate::world::boundary(m).world;
    let n = replies.len() as int;
    crate::coherence::law_membership_is_settled_before_an_instant(m);
    let instant = ready.schedule[0].0;
    let early = crate::world::join_request(m, parent, first_due, timing, id, subscriptions).world;
    assert(awaits_join(m, early, first_due.0, join));
    lemma_settled_beside_join(m, early, first_due.0, join, instant);
    let calm = crate::world::settled(m, i64::MAX);
    let early_calm = crate::world::settled(early, i64::MAX);
    crate::coherence::lemma_settled(m, i64::MAX);
    lemma_next_due_beside_join(calm, early_calm, first_due.0, join, instant);
    lemma_admitted_beside_join(calm, early_calm, first_due.0, join, instant);
    let early_ready = crate::world::boundary(early).world;
    assert(replies.take(n) =~= replies);
    lemma_tick_beside_join(ready, early_ready, first_due.0, join, replies, n);
    crate::run_laws::lemma_tick_after(ready, replies, n);
}

} // verus!
