//! Laws of membership requests: that a refused one leaves no trace, that an
//! actor leaves whole, and that a run does not depend on when it was asked.
use vstd::prelude::*;

use crate::coherence::coherent;
use crate::registry::EntryModel;
use crate::time::SimTime;
use crate::timing::StepTiming;
use crate::world::{JoinModel, ReplyModel, TickModel, WorldModel};

verus! {

/// A join that is refused leaves no trace: nothing is registered, subscribed,
/// scheduled, queued or announced.
pub proof fn law_a_refused_join_leaves_no_trace(
    m: WorldModel,
    parent: Seq<char>,
    first_due: SimTime,
    timing: StepTiming,
    id: Seq<char>,
    subscriptions: Seq<Seq<char>>,
)
    ensures
        ({
            let answer = crate::world::join_request(
                m,
                parent,
                first_due,
                timing,
                id,
                subscriptions,
            );
            answer.answer is Err ==> answer.world == m
        }),
{
}

/// A leave that is refused leaves no trace.
pub proof fn law_a_refused_leave_leaves_no_trace(
    m: WorldModel,
    asked: Seq<char>,
    leaves_at: Option<SimTime>,
)
    ensures
        ({
            let answer = crate::world::leave_request(m, asked, leaves_at);
            answer.answer is Err ==> answer.world == m
        }),
{
}

/// A component that cannot do its job, or that schedules itself into an
/// instant that has been, stops the world with nothing of its step applied:
/// it publishes nothing, is not booked and is not fingerprinted, and all that
/// is left of it is that it was asked.
pub proof fn law_a_failed_step_leaves_no_trace(t: TickModel, index: usize, reply: ReplyModel)
    requires
        reply.outcome is Err || reply.outcome->Ok_0.0 <= t.world.sim_time.0,
    ensures
        crate::world::stepped(t, index, reply).world == crate::world::asked(t.world, index),
        crate::world::stepped(t, index, reply).bytes == t.bytes,
        crate::world::stepped(t, index, reply).error is Some,
{
}

// ---------------------------------------------------------------------------
// An actor leaves whole
// ---------------------------------------------------------------------------

/// The first component beneath a path, once its slot is vacated, is not
/// beneath it any more, and the others are.
proof fn lemma_beneath_vacated(entries: Seq<Option<EntryModel>>, path: Seq<Seq<char>>, slot: int)
    requires
        0 <= slot < entries.len(),
        entries[slot] is Some,
        crate::tree::is_above(path, entries[slot]->0.path),
        forall|i: int|
            0 <= i < slot && entries[i] is Some ==> !crate::tree::is_above(
                path,
                (#[trigger] entries[i])->0.path,
            ),
    ensures
        crate::registry::beneath(entries, path).len() > 0,
        crate::registry::beneath(entries, path)[0] == entries[slot]->0.path,
        crate::registry::beneath(entries.update(slot, None), path) == crate::registry::beneath(
            entries,
            path,
        ).drop_first(),
    decreases entries.len(),
{
    let front = entries.drop_last();
    let after = entries.update(slot, None);
    if slot == entries.len() - 1 {
        assert(after.drop_last() =~= front);
        lemma_nothing_beneath(front, path);
        assert(crate::registry::beneath(entries, path) =~= seq![entries[slot]->0.path]);
        assert(crate::registry::beneath(entries, path).drop_first() =~= Seq::<
            Seq<Seq<char>>,
        >::empty());
    } else {
        lemma_beneath_vacated(front, path, slot);
        assert(after.drop_last() =~= front.update(slot, None));
        assert(after.last() == entries.last());
        let earlier = crate::registry::beneath(front, path);
        assert(crate::registry::beneath(after, path) =~= crate::registry::beneath(
            entries,
            path,
        ).drop_first());
    }
}

/// Where no slot holds a component beneath a path, there is none.
proof fn lemma_nothing_beneath(entries: Seq<Option<EntryModel>>, path: Seq<Seq<char>>)
    requires
        forall|i: int|
            0 <= i < entries.len() && entries[i] is Some ==> !crate::tree::is_above(
                path,
                (#[trigger] entries[i])->0.path,
            ),
    ensures
        crate::registry::beneath(entries, path).len() == 0,
    decreases entries.len(),
{
    if entries.len() > 0 {
        lemma_nothing_beneath(entries.drop_last(), path);
        assert(entries[entries.len() - 1] == entries.last());
    }
}

/// Where something is beneath a path, a slot holds the first of it.
proof fn lemma_first_beneath(entries: Seq<Option<EntryModel>>, path: Seq<Seq<char>>) -> (slot: int)
    requires
        crate::registry::beneath(entries, path).len() > 0,
    ensures
        0 <= slot < entries.len(),
        entries[slot] is Some,
        crate::tree::is_above(path, entries[slot]->0.path),
        forall|i: int|
            0 <= i < slot && entries[i] is Some ==> !crate::tree::is_above(
                path,
                (#[trigger] entries[i])->0.path,
            ),
    decreases entries.len(),
{
    let front = entries.drop_last();
    if crate::registry::beneath(front, path).len() > 0 {
        let slot = lemma_first_beneath(front, path);
        assert forall|i: int| 0 <= i < slot && entries[i] is Some implies !crate::tree::is_above(
            path,
            (#[trigger] entries[i])->0.path,
        ) by {
            assert(front[i] == entries[i]);
        }
        slot
    } else {
        let slot = entries.len() - 1;
        assert forall|i: int| 0 <= i < slot && entries[i] is Some implies !crate::tree::is_above(
            path,
            (#[trigger] entries[i])->0.path,
        ) by {
            assert(front[i] == entries[i]);
            if crate::tree::is_above(path, entries[i]->0.path) {
                lemma_beneath_holds(front, path, i);
            }
        }
        slot
    }
}

/// A component beneath a path is listed beneath it.
proof fn lemma_beneath_holds(entries: Seq<Option<EntryModel>>, path: Seq<Seq<char>>, i: int)
    requires
        0 <= i < entries.len(),
        entries[i] is Some,
        crate::tree::is_above(path, entries[i]->0.path),
    ensures
        crate::registry::beneath(entries, path).len() > 0,
    decreases entries.len(),
{
    if i < entries.len() - 1 {
        assert(entries.drop_last()[i] == entries[i]);
        lemma_beneath_holds(entries.drop_last(), path, i);
    }
}

/// The first join promised under a path, once it is withdrawn, is not
/// promised any more, and the others are.
proof fn lemma_promise_withdrawn(joins: Seq<(i64, JoinModel)>, path: Seq<Seq<char>>)
    requires
        crate::world::promised(joins, path).len() > 0,
    ensures
        ({
            let first = crate::world::promised(joins, path)[0];
            let place = crate::world::join_place(joins, first) as int;
            &&& place < joins.len()
            &&& crate::world::promised(joins.remove(place), path) == crate::world::promised(
                joins,
                path,
            ).drop_first()
        }),
    decreases joins.len(),
{
    let front = joins.drop_last();
    let last = joins.last();
    let earlier = crate::world::promised(front, path);
    if earlier.len() > 0 {
        lemma_promise_withdrawn(front, path);
        let first = earlier[0];
        let place = crate::world::join_place(front, first) as int;
        assert(crate::world::promised(joins, path)[0] == first);
        lemma_place_in_front(joins, first);
        assert(crate::world::join_place(joins, first) == place);
        assert(joins.remove(place).drop_last() =~= front.remove(place));
        assert(joins.remove(place).last() == last);
        assert(crate::world::promised(joins.remove(place), path) =~= crate::world::promised(
            joins,
            path,
        ).drop_first());
    } else {
        let first = last.1.path;
        assert(crate::world::promised(joins, path) =~= seq![first]);
        lemma_no_promise(front, path, first);
        assert(crate::world::join_place(joins, first) == front.len()) by {
            assert forall|i: int| 0 <= i < joins.len() - 1 implies (#[trigger] joins[i]).1.path
                != first by {
                assert(front[i] == joins[i]);
            }
            lemma_place_at_end(joins, first);
        }
        assert(joins.remove(front.len() as int) =~= front);
        assert(crate::world::promised(joins, path).drop_first() =~= Seq::<
            Seq<Seq<char>>,
        >::empty());
    }
}

/// A join that is found in front is found there with more behind it.
proof fn lemma_place_in_front(joins: Seq<(i64, JoinModel)>, path: Seq<Seq<char>>)
    requires
        joins.len() > 0,
        crate::world::join_place(joins.drop_last(), path) < joins.len() - 1,
    ensures
        crate::world::join_place(joins, path) == crate::world::join_place(joins.drop_last(), path),
    decreases joins.len(),
{
    assert(joins.drop_last()[0] == joins[0]);
    if joins[0].1.path != path {
        let rest = joins.drop_first();
        assert(rest.drop_last() =~= joins.drop_last().drop_first());
        lemma_place_in_front(rest, path);
    }
}

/// A join that is found nowhere in front is found at the end.
proof fn lemma_place_at_end(joins: Seq<(i64, JoinModel)>, path: Seq<Seq<char>>)
    requires
        joins.len() > 0,
        joins.last().1.path == path,
        forall|i: int| 0 <= i < joins.len() - 1 ==> (#[trigger] joins[i]).1.path != path,
    ensures
        crate::world::join_place(joins, path) == joins.len() - 1,
    decreases joins.len(),
{
    if joins.len() > 1 {
        let rest = joins.drop_first();
        assert forall|i: int| 0 <= i < rest.len() - 1 implies (#[trigger] rest[i]).1.path
            != path by {
            assert(rest[i] == joins[i + 1]);
        }
        assert(rest.last() == joins.last());
        assert(joins[0].1.path != path);
        lemma_place_at_end(rest, path);
    } else {
        assert(joins[0] == joins.last());
    }
}

/// Where nothing is promised under a path, no join waits for a path under it.
proof fn lemma_no_promise(
    joins: Seq<(i64, JoinModel)>,
    path: Seq<Seq<char>>,
    under: Seq<Seq<char>>,
)
    requires
        crate::world::promised(joins, path).len() == 0,
        crate::tree::is_prefix(path, under),
    ensures
        forall|i: int| 0 <= i < joins.len() ==> (#[trigger] joins[i]).1.path != under,
    decreases joins.len(),
{
    if joins.len() > 0 {
        let front = joins.drop_last();
        lemma_no_promise(front, path, under);
        assert forall|i: int| 0 <= i < joins.len() implies (#[trigger] joins[i]).1.path
            != under by {
            if i < front.len() {
                assert(front[i] == joins[i]);
            }
        }
    }
}

/// What is promised under a path is under it.
proof fn lemma_promised_under(joins: Seq<(i64, JoinModel)>, path: Seq<Seq<char>>)
    ensures
        forall|i: int|
            0 <= i < crate::world::promised(joins, path).len() ==> crate::tree::is_prefix(
                path,
                #[trigger] crate::world::promised(joins, path)[i],
            ),
    decreases joins.len(),
{
    if joins.len() > 0 {
        let front = joins.drop_last();
        lemma_promised_under(front, path);
        let earlier = crate::world::promised(front, path);
        let all = crate::world::promised(joins, path);
        assert forall|i: int| 0 <= i < all.len() implies crate::tree::is_prefix(
            path,
            #[trigger] all[i],
        ) by {
            if i < earlier.len() {
                assert(all[i] == earlier[i]);
            }
        }
    }
}

/// Leaves that take effect one after another, read from the front.
proof fn lemma_all_gone_front(m: WorldModel, paths: Seq<Seq<Seq<char>>>, leaves_at: i64)
    requires
        paths.len() > 0,
    ensures
        crate::world::all_gone(m, paths, leaves_at) == crate::world::all_gone(
            crate::world::gone(m, paths[0], leaves_at),
            paths.drop_first(),
            leaves_at,
        ),
    decreases paths.len(),
{
    if paths.len() == 1 {
        assert(paths.drop_last() =~= Seq::<Seq<Seq<char>>>::empty());
        assert(paths.drop_first() =~= Seq::<Seq<Seq<char>>>::empty());
        assert(paths.last() == paths[0]);
        assert(crate::world::all_gone(m, paths.drop_last(), leaves_at) == m);
        let next = crate::world::gone(m, paths[0], leaves_at);
        assert(crate::world::all_gone(next, paths.drop_first(), leaves_at) == next);
    } else {
        lemma_all_gone_front(m, paths.drop_last(), leaves_at);
        assert(paths.drop_last().drop_first() =~= paths.drop_first().drop_last());
        assert(paths.drop_first().last() == paths.last());
        assert(paths.drop_last()[0] == paths[0]);
    }
}

/// Where nobody is registered at a path, vacating a slot registers nobody
/// there.
proof fn lemma_still_free(m: WorldModel, path: Seq<Seq<char>>, gone: Seq<Seq<char>>, leaves_at: i64)
    requires
        coherent(m),
        !crate::registry::is_registered(m.registry.entries, path),
    ensures
        !crate::registry::is_registered(
            crate::world::gone(m, gone, leaves_at).registry.entries,
            path,
        ),
{
    let after = crate::world::gone(m, gone, leaves_at).registry.entries;
    if crate::registry::is_registered(after, path) {
        let i = choose|i: int| crate::registry::stands_at(after, i, path);
        if crate::registry::is_registered(m.registry.entries, gone) {
            let slot = crate::registry::slot_of(m.registry.entries, gone);
            assert(crate::registry::stands_at(m.registry.entries, slot, gone));
            assert(i != slot);
        }
        assert(crate::registry::stands_at(m.registry.entries, i, path));
    }
}

/// Everyone beneath a path departing leaves nobody beneath it, and nobody
/// promised to it.
proof fn lemma_all_depart(m: WorldModel, path: Seq<Seq<char>>, leaves_at: i64)
    requires
        coherent(m),
        !crate::registry::is_registered(m.registry.entries, path),
    ensures
        ({
            let after = crate::world::all_gone(m, crate::world::departing(m, path), leaves_at);
            &&& coherent(after)
            &&& crate::world::departing(after, path).len() == 0
        }),
    decreases
            crate::registry::beneath(m.registry.entries, path).len() + crate::world::promised(
                m.joins,
                path,
            ).len(),
{
    let leaves = crate::registry::beneath(m.registry.entries, path);
    let promises = crate::world::promised(m.joins, path);
    let who = crate::world::departing(m, path);
    if leaves.len() > 0 {
        let slot = lemma_first_beneath(m.registry.entries, path);
        lemma_beneath_vacated(m.registry.entries, path, slot);
        let first = leaves[0];
        let next = crate::world::gone(m, first, leaves_at);
        assert(crate::registry::stands_at(m.registry.entries, slot, first));
        crate::registry::lemma_slot(m.registry, first, slot);
        crate::coherence::lemma_gone(m, first, leaves_at);
        lemma_still_free(m, path, first, leaves_at);
        assert(next.joins == m.joins);
        assert(crate::world::departing(next, path) =~= who.drop_first());
        lemma_all_gone_front(m, who, leaves_at);
        lemma_all_depart(next, path, leaves_at);
    } else if promises.len() > 0 {
        let first = promises[0];
        lemma_promised_under(m.joins, path);
        assert(!crate::registry::is_registered(m.registry.entries, first)) by {
            if crate::registry::is_registered(m.registry.entries, first) {
                let i = choose|i: int|
                    crate::registry::stands_at(m.registry.entries, i, first);
                if first.len() == path.len() {
                    assert(first =~= path);
                } else {
                    assert(crate::tree::is_above(path, first));
                    lemma_beneath_holds(m.registry.entries, path, i);
                }
            }
        }
        lemma_promise_withdrawn(m.joins, path);
        let next = crate::world::gone(m, first, leaves_at);
        crate::coherence::lemma_gone(m, first, leaves_at);
        assert(next.registry == m.registry);
        assert(who =~= promises);
        assert(crate::world::departing(next, path) =~= who.drop_first());
        lemma_all_gone_front(m, who, leaves_at);
        lemma_all_depart(next, path, leaves_at);
    } else {
        assert(who =~= Seq::<Seq<Seq<char>>>::empty());
    }
}

/// An actor leaves whole: once a composite's leave has taken effect, no
/// component beneath it is registered and no join is promised to it, so its
/// path names nothing.
pub proof fn law_a_composite_leaves_whole(m: WorldModel, asked: Seq<char>)
    requires
        coherent(m),
        m.tick == 0 || m.sim_time.0 < i64::MAX,
        crate::ids::parse_path(asked) is Ok,
        !crate::registry::is_registered(
            m.registry.entries,
            crate::ids::parse_path(asked)->Ok_0,
        ),
        crate::world::leave_request(m, asked, None).answer is Ok,
    ensures
        ({
            let after = crate::world::leave_request(m, asked, None).world;
            let again = crate::world::leave_request(after, asked, None);
            again.answer matches Err(error) && error
                is UnknownPath
        }),
{
    let path = crate::ids::parse_path(asked)->Ok_0;
    let noted = crate::world::told(
        m,
        seq![
            crate::world::EffectModel::Observation(
                crate::record::ObservationModel::LeaveRequested { path: asked, leaves_at: None },
            ),
        ],
    );
    crate::coherence::lemma_told(m, noted.history);
    assert(crate::world::departing(noted, path) == crate::world::departing(m, path));
    lemma_all_depart(noted, path, crate::world::earliest_open(m) as i64);
}

} // verus!
