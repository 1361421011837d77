//! Laws of the components of a world: who stands where once somebody has
//! left or joined, what a component is told, what it shows of itself, and how
//! long its step took.
use vstd::prelude::*;

use crate::coherence::coherent;
use crate::component::{Component, StepCtx, StepCtxModel};
use crate::conductor_error::ConductorErrorModel;
use crate::pacing::WallClock;
use crate::stage::CastModel;
use crate::stopwatch::Moment;
use crate::time::SimTime;
use crate::timing::WallDuration;
use crate::world::{CallModel, ReplyModel, WorldModel};

verus! {

/// Whether a component waits for a place in a world: for the join that waits
/// at the same place as it.
pub open spec fn waits_for<K>(
    m: WorldModel,
    cast: CastModel<K>,
    join: (i64, crate::world::JoinModel),
    component: K,
    k: int,
) -> bool {
    0 <= k < m.joins.len() && m.joins[k] == join && cast.waiting[k] == component
}

/// Whether a component waits for a join somewhere in a world.
pub open spec fn waited<K>(
    m: WorldModel,
    cast: CastModel<K>,
    join: (i64, crate::world::JoinModel),
    component: K,
) -> bool {
    exists|k: int| #[trigger] waits_for(m, cast, join, component, k)
}

/// A leave takes out the component at its path and nobody else: what stands
/// at the path stands nowhere any more, and everyone else stands where they
/// stood. Where nobody stands at the path, whoever is left waiting waits for
/// the place that they waited for.
pub proof fn law_a_leave_takes_out_one_component<K>(
    cast: CastModel<K>,
    m: WorldModel,
    path: Seq<Seq<char>>,
    leaves_at: i64,
)
    requires
        coherent(m),
        cast.slots.len() == m.registry.entries.len(),
        cast.waiting.len() == m.joins.len(),
    ensures
        ({
            let after = crate::stage::cast_gone(cast, m, path);
            let world = crate::world::gone(m, path, leaves_at);
            &&& after.slots.len() == cast.slots.len()
            &&& after.waiting.len() == world.joins.len()
            &&& forall|i: int|
                0 <= i < cast.slots.len() ==> #[trigger] after.slots[i] == (
                if crate::registry::stands_at(m.registry.entries, i, path) {
                    None
                } else {
                    cast.slots[i]
                })
            &&& forall|k: int|
                0 <= k < world.joins.len() ==> waited(
                    m,
                    cast,
                    world.joins[k],
                    #[trigger] after.waiting[k],
                )
        }),
{
    let entries = m.registry.entries;
    let after = crate::stage::cast_gone(cast, m, path);
    let world = crate::world::gone(m, path, leaves_at);
    crate::coherence::lemma_join_place(m.joins, path);
    let place = crate::world::join_place(m.joins, path) as int;
    let registered = crate::registry::is_registered(entries, path);
    if registered {
        let slot = crate::registry::slot_of(entries, path);
        assert(crate::registry::stands_at(entries, slot, path));
    }
    assert forall|i: int| 0 <= i < cast.slots.len() implies #[trigger] after.slots[i] == (
    if crate::registry::stands_at(entries, i, path) {
        None
    } else {
        cast.slots[i]
    }) by {
        if crate::registry::stands_at(entries, i, path) {
            crate::registry::lemma_slot(m.registry, path, i);
        }
    }
    assert forall|k: int| 0 <= k < world.joins.len() implies waited(
        m,
        cast,
        world.joins[k],
        #[trigger] after.waiting[k],
    ) by {
        let j: int = if !registered && place < m.joins.len() && k >= place {
            k + 1
        } else {
            k
        };
        assert(waits_for(m, cast, world.joins[k], after.waiting[k], j));
    }
}

/// Leaves take effect one after another: each takes out whoever it names of
/// those the leaves before it left.
pub proof fn law_leaves_take_out_one_after_another<K>(
    cast: CastModel<K>,
    m: WorldModel,
    paths: Seq<Seq<Seq<char>>>,
    path: Seq<Seq<char>>,
    leaves_at: i64,
)
    ensures
        crate::stage::cast_all_gone(cast, m, Seq::empty(), leaves_at) == cast,
        crate::stage::cast_all_gone(cast, m, paths.push(path), leaves_at)
            == crate::stage::cast_gone(
            crate::stage::cast_all_gone(cast, m, paths, leaves_at),
            crate::world::all_gone(m, paths, leaves_at),
            path,
        ),
{
    assert(paths.push(path).drop_last() =~= paths);
}

/// The leaves that have come due take out whom they name, the one that waits
/// longest first, and where none has come due nobody leaves.
pub proof fn law_leaves_that_are_due_take_out_whom_they_name<K>(
    cast: CastModel<K>,
    m: WorldModel,
    limit: i64,
)
    ensures
        m.leaves.len() == 0 ==> crate::stage::cast_settled(cast, m, limit) == cast,
        m.leaves.len() > 0 ==> crate::stage::cast_settled(cast, m, limit) == (
        match crate::world::next_due(m) {
            Some(next) if next <= limit && m.leaves[0].0 <= next => {
                let rest = WorldModel { leaves: m.leaves.drop_first(), ..m };
                crate::stage::cast_settled(
                    crate::stage::cast_gone(cast, rest, m.leaves[0].1),
                    crate::world::gone(rest, m.leaves[0].1, m.leaves[0].0),
                    limit,
                )
            },
            _ => cast,
        }),
{
}

/// A component that is accepted stands in the next slot at once, where its
/// first step is for the earliest instant that is open. Where it is for later
/// it waits for its own join, and everyone else for theirs. One that is
/// refused is nowhere.
pub proof fn law_who_joins_stands_last_or_waits<K>(
    cast: CastModel<K>,
    m: WorldModel,
    first_due: SimTime,
    join: crate::world::JoinModel,
    component: K,
    answer: Result<Seq<Seq<char>>, ConductorErrorModel>,
)
    requires
        coherent(m),
        cast.waiting.len() == m.joins.len(),
    ensures
        ({
            let after = crate::stage::cast_after_join(cast, m, first_due, component, answer);
            let joins = crate::queue::enqueued(m.joins, first_due.0, join);
            &&& answer is Err ==> after == cast
            &&& answer is Ok && first_due.0 == crate::world::earliest_open(m) ==> after.slots
                == cast.slots.push(Some(component)) && after.waiting == cast.waiting
            &&& answer is Ok && first_due.0 != crate::world::earliest_open(m) ==> {
                &&& after.slots == cast.slots
                &&& after.waiting.len() == joins.len()
                &&& forall|k: int|
                    0 <= k < joins.len() ==> (joins[k] == (first_due.0, join) && (
                    #[trigger] after.waiting[k]) == component) || waited(
                        m,
                        cast,
                        joins[k],
                        after.waiting[k],
                    )
            }
        }),
{
    let after = crate::stage::cast_after_join(cast, m, first_due, component, answer);
    let joins = crate::queue::enqueued(m.joins, first_due.0, join);
    crate::queue::lemma_not_later(m.joins, first_due.0);
    let place = crate::queue::not_later(m.joins, first_due.0) as int;
    if answer is Ok && first_due.0 != crate::world::earliest_open(m) {
        assert forall|k: int| 0 <= k < joins.len() implies (joins[k] == (first_due.0, join) && (
        #[trigger] after.waiting[k]) == component) || waited(
            m,
            cast,
            joins[k],
            after.waiting[k],
        ) by {
            if k < place {
                assert(waits_for(m, cast, joins[k], after.waiting[k], k));
            } else if k > place {
                assert(waits_for(m, cast, joins[k], after.waiting[k], k - 1));
            }
        }
    }
}

/// Whoever waits longest is let in first: it takes the next slot, or is gone
/// where its path is refused, which stops there. Nobody is let in whose first
/// step is for later.
pub proof fn law_who_waits_is_let_in_in_turn<K>(
    cast: CastModel<K>,
    m: WorldModel,
    instant: i64,
)
    ensures
        m.joins.len() == 0 || m.joins[0].0 > instant ==> crate::stage::cast_admitted(
            cast,
            m,
            instant,
        ) == cast,
        m.joins.len() > 0 && m.joins[0].0 <= instant && crate::registry::add_error(
            m.registry,
            m.joins[0].1.path,
        ) is Some ==> crate::stage::cast_admitted(cast, m, instant) == (CastModel {
            slots: cast.slots,
            waiting: cast.waiting.drop_first(),
        }),
        m.joins.len() > 0 && m.joins[0].0 <= instant && crate::registry::add_error(
            m.registry,
            m.joins[0].1.path,
        ) is None ==> crate::stage::cast_admitted(cast, m, instant)
            == crate::stage::cast_admitted(
            CastModel {
                slots: cast.slots.push(Some(cast.waiting[0])),
                waiting: cast.waiting.drop_first(),
            },
            crate::world::joined(
                WorldModel { joins: m.joins.drop_first(), ..m },
                m.joins[0].0,
                m.joins[0].1,
            ),
            instant,
        ),
{
}

/// Before an instant whoever leaves for it is out before anyone is let in for
/// it, and where nothing is due nobody is let in.
pub proof fn law_the_cast_leaves_before_it_joins<K>(cast: CastModel<K>, m: WorldModel)
    ensures
        ({
            let out = crate::stage::cast_settled(cast, m, i64::MAX);
            let ready = crate::world::settled(m, i64::MAX);
            let next = crate::world::next_due(ready);
            &&& next is None ==> crate::stage::cast_boundary(cast, m) == out
            &&& next is Some ==> crate::stage::cast_boundary(cast, m)
                == crate::stage::cast_admitted(out, ready, next->0)
        }),
{
}

/// A request to leave takes somebody out at once only where it names a path
/// and no instant, and takes out exactly those who depart.
pub proof fn law_whom_a_leave_request_takes_out<K>(
    cast: CastModel<K>,
    m: WorldModel,
    asked: Seq<char>,
    leaves_at: Option<SimTime>,
)
    ensures
        leaves_at is Some ==> crate::stage::cast_after_leave(cast, m, asked, leaves_at) == cast,
        crate::ids::parse_path(asked) is Err ==> crate::stage::cast_after_leave(
            cast,
            m,
            asked,
            leaves_at,
        ) == cast,
        leaves_at is None ==> (crate::ids::parse_path(asked) matches Ok(path) ==> {
            let noted = crate::world::leave_noted(m, asked, leaves_at);
            &&& noted.registry == m.registry
            &&& noted.joins == m.joins
            &&& crate::stage::cast_after_leave(cast, m, asked, leaves_at)
                == crate::stage::cast_all_gone(
                cast,
                noted,
                crate::world::departing(m, path),
                crate::world::earliest_open(m) as i64,
            )
        }),
{
}

/// A step took what the clock moved on by between the reading right before it
/// and the reading right after it, or nothing where the clock ran backwards.
pub proof fn law_how_long_a_step_took<C: WallClock>(
    clock: C,
    call: CallModel,
    noted: Seq<Moment>,
    took: WallDuration,
)
    requires
        crate::stage::timed(clock, call, noted, took),
    ensures
        noted.len() == 3,
        noted[0] is Read,
        noted[1] == Moment::Asked(call),
        noted[2] is Read,
        noted[0]->Read_0 <= noted[2]->Read_0 ==> noted[0]->Read_0 + took.nanos
            == noted[2]->Read_0,
        noted[0]->Read_0 >= noted[2]->Read_0 ==> took.nanos == 0,
        call_ensures(C::elapsed_nanos, (&clock,), noted[0]->Read_0),
        call_ensures(C::elapsed_nanos, (&clock,), noted[2]->Read_0),
{
    match (noted[0], noted[2]) {
        (Moment::Read(started), Moment::Read(ended)) => {
            let said = seq![Moment::Read(started), Moment::Asked(call), Moment::Read(ended)];
            assert(said.len() == 3 && said[1] == Moment::Asked(call));
        },
        _ => {},
    }
}

/// A component is told all that its context holds: the instant, the time
/// since its previous step, the world's name, its seed, and its mail, message
/// by message.
pub proof fn law_what_a_context_tells(path: Seq<Seq<char>>, ctx: StepCtxModel, i: int)
    ensures
        ({
            let call = crate::stopwatch::told_to(path, ctx);
            &&& call.path == path
            &&& call.now == ctx.now
            &&& call.dt == ctx.dt
            &&& call.world_name == ctx.world_name
            &&& call.component_seed == ctx.component_seed
            &&& call.inbox.len() == ctx.inbox.len()
            &&& 0 <= i < ctx.inbox.len() ==> call.inbox[i] == ctx.inbox[i]@
        }),
{
}

/// A component shows its state after a step that schedules its next one, and
/// at no other time; and what it published is what its own step queued.
pub proof fn law_when_a_state_is_shown<K: Component>(
    component: K,
    call: CallModel,
    reply: ReplyModel,
    after: K,
    shown: StepCtx,
    done: StepCtx,
)
    requires
        crate::stage::replies_within(component, call, reply, after, shown, done),
    ensures
        reply.outbox == done@.outbox,
        shown@.outbox.len() == 0,
        reply.state is Some ==> (reply.outcome matches Ok(next_due) && next_due.0 > call.now.0),
        reply.outcome matches Ok(next_due) && next_due.0 > call.now.0 ==> exists|
            bytes: Option<Vec<u8>>,
        | #[trigger]
            call_ensures(K::state_bytes, (&after,), bytes) && match (reply.state, bytes) {
                (Some(state), Some(held)) => state == held@,
                (None, None) => true,
                _ => false,
            },
{
    if reply.outcome is Ok && (reply.outcome->Ok_0).0 > call.now.0 {
        let bytes = choose|bytes: Option<Vec<u8>>|
            reply.state == crate::conductor::exposed_bytes(bytes) && #[trigger] call_ensures(
                K::state_bytes,
                (&after,),
                bytes,
            );
        assert(call_ensures(K::state_bytes, (&after,), bytes));
    }
}

} // verus!
