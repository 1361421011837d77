//! Laws of presence: who takes part in an instant, and what departing leaves
//! alone.
use vstd::prelude::*;

use crate::coherence::{coherent, is_live};
use crate::registry::is_registered;
use crate::run_laws::{due_next, is_ready, same_place, tick_after};
use crate::transport::place_of;
use crate::visibility::waiting_for;
use crate::world::{JoinModel, ReplyModel, WorldModel};

verus! {

// ---------------------------------------------------------------------------
// Leaving
// ---------------------------------------------------------------------------

/// Once a leave has taken effect nobody is registered at its path, and nobody
/// is who was not before.
proof fn lemma_gone_is_gone(m: WorldModel, path: Seq<Seq<char>>, leaves_at: i64)
    requires
        coherent(m),
    ensures
        !is_registered(crate::world::gone(m, path, leaves_at).registry.entries, path),
        forall|p: Seq<Seq<char>>| #[trigger]
            is_registered(crate::world::gone(m, path, leaves_at).registry.entries, p)
                ==> is_registered(m.registry.entries, p),
{
    let after = crate::world::gone(m, path, leaves_at);
    if is_registered(m.registry.entries, path) {
        crate::registry::lemma_removed_sound(m.registry, path);
        let before_leaves = crate::registry::leaves(m.registry.entries);
        let after_leaves = crate::registry::leaves(after.registry.entries);
        assert(after_leaves == before_leaves.remove(path));
        assert(!after_leaves.contains(path));
        assert forall|p: Seq<Seq<char>>| #[trigger]
            is_registered(after.registry.entries, p) implies is_registered(
            m.registry.entries,
            p,
        ) by {
            assert(after_leaves.contains(p));
            assert(before_leaves.contains(p));
        }
    }
}

/// Settling registers nobody.
proof fn lemma_settled_adds_nobody(m: WorldModel, limit: i64, path: Seq<Seq<char>>)
    requires
        coherent(m),
        !is_registered(m.registry.entries, path),
    ensures
        !is_registered(crate::world::settled(m, limit).registry.entries, path),
    decreases m.leaves.len(),
{
    if crate::world::leave_is_due(m, limit) {
        let rest = WorldModel { leaves: m.leaves.drop_first(), ..m };
        assert(m.leaves.drop_first() =~= m.leaves.remove(0));
        crate::queue::lemma_taken_out(m.leaves, 0);
        crate::coherence::lemma_leave_queued(m, rest.leaves);
        lemma_gone_is_gone(rest, m.leaves[0].1, m.leaves[0].0);
        crate::coherence::lemma_front_gone(m);
        lemma_settled_adds_nobody(crate::world::front_gone(m), limit, path);
    }
}

/// A leave that was queued has taken effect once it is queued no more.
proof fn lemma_settled_leave(m: WorldModel, limit: i64, i: int)
    requires
        coherent(m),
        0 <= i < m.leaves.len(),
    ensures
        ({
            let after = crate::world::settled(m, limit);
            ||| !is_registered(after.registry.entries, m.leaves[i].1)
            ||| after.leaves.contains(m.leaves[i])
        }),
    decreases m.leaves.len(),
{
    let after = crate::world::settled(m, limit);
    if crate::world::leave_is_due(m, limit) {
        let next = crate::world::front_gone(m);
        crate::coherence::lemma_front_gone(m);
        if i == 0 {
            let rest = WorldModel { leaves: m.leaves.drop_first(), ..m };
            assert(m.leaves.drop_first() =~= m.leaves.remove(0));
            crate::queue::lemma_taken_out(m.leaves, 0);
            crate::coherence::lemma_leave_queued(m, rest.leaves);
            lemma_gone_is_gone(rest, m.leaves[0].1, m.leaves[0].0);
            lemma_settled_adds_nobody(next, limit, m.leaves[0].1);
        } else {
            assert(next.leaves[i - 1] == m.leaves[i]);
            lemma_settled_leave(next, limit, i - 1);
        }
    } else {
        assert(after.leaves[i] == m.leaves[i]);
    }
}

/// Who leaves at an instant takes no part in it: at the boundary before the
/// next instant, every leave that was declared for no later than it has taken
/// effect, whether it was asked for or came of a timeout.
pub proof fn law_who_leaves_at_an_instant_takes_no_part_in_it(m: WorldModel, i: int)
    requires
        coherent(m),
        0 <= i < m.leaves.len(),
        crate::world::next_due(crate::world::settled(m, i64::MAX)) matches Some(next)
            && m.leaves[i].0 <= next,
    ensures
        !is_registered(
            crate::world::settled(m, i64::MAX).registry.entries,
            m.leaves[i].1,
        ),
{
    let calm = crate::world::settled(m, i64::MAX);
    crate::coherence::lemma_settled(m, i64::MAX);
    lemma_settled_leave(m, i64::MAX, i);
    if calm.leaves.contains(m.leaves[i]) {
        let k = choose|k: int| 0 <= k < calm.leaves.len() && calm.leaves[k] == m.leaves[i];
        if k > 0 {
            assert(calm.leaves[0].0 <= calm.leaves[k].0);
        }
    }
}

/// Departing is not a rollback: what a component published goes on waiting
/// for everyone else.
pub proof fn law_departing_is_no_rollback(
    m: WorldModel,
    path: Seq<Seq<char>>,
    leaves_at: i64,
    other: Seq<Seq<char>>,
)
    requires
        other != path,
    ensures
        waiting_for(crate::world::gone(m, path, leaves_at), other) == waiting_for(m, other),
{
    let after = crate::transport::unsubscribed(m.mail, path);
    crate::transport::lemma_place_of(m.mail, path);
    crate::transport::lemma_place_of(m.mail, other);
    crate::transport::lemma_place_of(after, other);
    let gap = place_of(m.mail, path) as int;
    let was = place_of(m.mail, other) as int;
    let is = place_of(after, other) as int;
    if is_registered(m.registry.entries, path) && gap < m.mail.len() {
        if was < m.mail.len() {
            let moved = if was < gap {
                was
            } else {
                was - 1
            };
            assert(after[moved] == m.mail[was]);
            if is < moved {
                assert(after[is].path == other);
                if is < gap {
                    assert(m.mail[is].path == other);
                } else {
                    assert(m.mail[is + 1] == after[is]);
                    assert(m.mail[is + 1].path == other);
                }
            } else if moved < is {
                assert(after[moved].path != other);
            }
        } else if is < after.len() {
            if is < gap {
                assert(m.mail[is] == after[is]);
            } else {
                assert(m.mail[is + 1] == after[is]);
            }
        }
    }
}

// ---------------------------------------------------------------------------
// Joining
// ---------------------------------------------------------------------------

/// Whether a component at a path is scheduled for an instant.
pub open spec fn is_due_at(m: WorldModel, path: Seq<Seq<char>>, instant: i64) -> bool {
    exists|index: usize| #[trigger]
        crate::registry::stands_at(m.registry.entries, index as int, path)
            && m.schedule.contains((instant, index))
}

/// Admitting one more join leaves who was due, due.
proof fn lemma_joined_keeps_due(
    m: WorldModel,
    first_due: i64,
    join: JoinModel,
    path: Seq<Seq<char>>,
    instant: i64,
)
    requires
        coherent(m),
        m.registry.entries.len() < usize::MAX,
    ensures
        is_due_at(m, path, instant) ==> is_due_at(
            crate::world::joined(m, first_due, join),
            path,
            instant,
        ),
        is_due_at(crate::world::joined(m, first_due, join), join.path, first_due),
{
    let after = crate::world::joined(m, first_due, join);
    let fresh = m.registry.entries.len() as usize;
    crate::schedule::lemma_inserted(m.schedule, (first_due, fresh));
    assert(crate::registry::stands_at(after.registry.entries, fresh as int, join.path));
    assert(after.schedule.contains((first_due, fresh)));
    if is_due_at(m, path, instant) {
        let index = choose|index: usize| #[trigger]
            crate::registry::stands_at(m.registry.entries, index as int, path)
                && m.schedule.contains((instant, index));
        assert(crate::registry::stands_at(after.registry.entries, index as int, path));
        assert(after.schedule.contains((instant, index)));
    }
}

/// Admitting joins leaves who was due, due.
proof fn lemma_admitted_keeps_due(
    m: WorldModel,
    limit: i64,
    path: Seq<Seq<char>>,
    instant: i64,
)
    requires
        coherent(m),
        crate::world::admitted(m, limit).error is None,
        crate::world::admitted(m, limit).world.registry.entries.len() <= usize::MAX,
        is_due_at(m, path, instant),
    ensures
        is_due_at(crate::world::admitted(m, limit).world, path, instant),
    decreases m.joins.len(),
{
    if m.joins.len() > 0 && m.joins[0].0 <= limit {
        let rest = WorldModel { joins: m.joins.drop_first(), ..m };
        let first = m.joins[0];
        let next = crate::world::joined(rest, first.0, first.1);
        crate::coherence::lemma_front_join_taken(m);
        assert(crate::world::admission(rest, first.0, first.1).error is None);
        crate::coherence::lemma_admitted_grows(next, limit);
        assert(next.registry.entries.len() == m.registry.entries.len() + 1);
        assert(crate::world::earliest_open(rest) == crate::world::earliest_open(m));
        crate::coherence::lemma_joined(rest, first.0, first.1);
        let index = choose|index: usize| #[trigger]
            crate::registry::stands_at(m.registry.entries, index as int, path)
                && m.schedule.contains((instant, index));
        assert(crate::registry::stands_at(rest.registry.entries, index as int, path));
        assert(is_due_at(rest, path, instant));
        lemma_joined_keeps_due(rest, first.0, first.1, path, instant);
        lemma_admitted_keeps_due(next, limit, path, instant);
    }
}

/// A join that was admitted is due where it said.
proof fn lemma_admitted_join(m: WorldModel, limit: i64, i: int)
    requires
        coherent(m),
        crate::world::admitted(m, limit).error is None,
        crate::world::admitted(m, limit).world.registry.entries.len() <= usize::MAX,
        0 <= i < m.joins.len(),
        m.joins[i].0 <= limit,
    ensures
        is_due_at(
            crate::world::admitted(m, limit).world,
            m.joins[i].1.path,
            m.joins[i].0,
        ),
    decreases m.joins.len(),
{
    if i > 0 {
        assert(m.joins[0].0 <= m.joins[i].0);
    }
    let rest = WorldModel { joins: m.joins.drop_first(), ..m };
    let first = m.joins[0];
    let next = crate::world::joined(rest, first.0, first.1);
    crate::coherence::lemma_front_join_taken(m);
    assert(crate::world::admission(rest, first.0, first.1).error is None);
    crate::coherence::lemma_admitted_grows(next, limit);
    assert(next.registry.entries.len() == m.registry.entries.len() + 1);
    assert(crate::world::earliest_open(rest) == crate::world::earliest_open(m));
    crate::coherence::lemma_joined(rest, first.0, first.1);
    lemma_joined_keeps_due(rest, first.0, first.1, first.1.path, first.0);
    if i == 0 {
        lemma_admitted_keeps_due(next, limit, first.1.path, first.0);
    } else {
        assert(next.joins[i - 1] == m.joins[i]);
        lemma_admitted_join(next, limit, i - 1);
    }
}

/// Who joins at an instant takes part in it: at the boundary before the next
/// instant, every join that was declared for it and still waits then is
/// registered and due, so the instant is not stepped without the newcomer.
pub proof fn law_who_joins_at_an_instant_takes_part_in_it(m: WorldModel, i: int)
    requires
        coherent(m),
        crate::world::boundary(m).error is None,
        crate::world::boundary(m).world.registry.entries.len() <= usize::MAX,
        0 <= i < crate::world::settled(m, i64::MAX).joins.len(),
        crate::world::next_due(crate::world::settled(m, i64::MAX)) == Some(
            crate::world::settled(m, i64::MAX).joins[i].0,
        ),
    ensures
        ({
            let waiting = crate::world::settled(m, i64::MAX).joins[i];
            is_due_at(crate::world::boundary(m).world, waiting.1.path, waiting.0)
        }),
{
    let calm = crate::world::settled(m, i64::MAX);
    crate::coherence::lemma_settled(m, i64::MAX);
    lemma_admitted_join(calm, calm.joins[i].0, i);
}

// ---------------------------------------------------------------------------
// Within an instant
// ---------------------------------------------------------------------------

/// Membership is frozen within an instant: whatever its components do, and
/// however long they take, every slot stays with the component it is of, the
/// tree stays as it is, and every join goes on waiting.
pub proof fn law_membership_is_frozen_within_an_instant(
    m: WorldModel,
    replies: Seq<ReplyModel>,
    k: int,
)
    requires
        is_ready(m),
        0 <= k <= replies.len() <= due_next(m).len(),
    ensures
        ({
            let t = tick_after(m, replies, k).world;
            &&& t.registry.children == m.registry.children
            &&& t.joins == m.joins
            &&& t.registry.entries.len() == m.registry.entries.len()
            &&& forall|i: int|
                0 <= i < m.registry.entries.len() ==> same_place(
                    #[trigger] m.registry.entries[i],
                    t.registry.entries[i],
                )
        }),
{
    crate::run_laws::lemma_tick_after(m, replies, k);
}

/// Every component steps at most once in an instant, in the order they were
/// declared, and exactly those step that are due at it.
pub proof fn law_an_instant_steps_exactly_who_is_due(m: WorldModel)
    requires
        is_ready(m),
    ensures
        forall|i: int, j: int|
            0 <= i < j < due_next(m).len() ==> #[trigger] due_next(m)[i]
                < #[trigger] due_next(m)[j],
        forall|index: usize| #[trigger]
            due_next(m).contains(index) <==> m.schedule.contains((m.schedule[0].0, index)),
        forall|i: int|
            0 <= i < due_next(m).len() ==> is_live(
                m.registry.entries,
                #[trigger] due_next(m)[i] as int,
            ),
{
    crate::schedule::law_earliest_instant(m.schedule);
    crate::coherence::lemma_opened(m);
}

} // verus!
