//! Determinism: two runs that start alike, whose components behave alike and
//! that are asked the same, are the same run, however fast the machine was.
use vstd::prelude::*;

use crate::coherence::{coherent, is_live};
use crate::component::Component;
use crate::conductor_error::ConductorErrorModel;
use crate::error::CoreError;
use crate::pacing::WallClock;
use crate::registry::EntryModel;
use crate::run_laws::{
    due_next, is_ready, lemma_part_pushed, part_of_run, same_but_misses, same_run, same_tick,
    tick_after, within_timeout,
};
use crate::stage::{CastModel, StageModel};
use crate::stopwatch::Moment;
use crate::time::SimTime;
use crate::timing::StepTiming;
use crate::world::{CallModel, EffectModel, JoinModel, ReplyModel, WorldModel};

verus! {

// ---------------------------------------------------------------------------
// Membership reads no wall clock
// ---------------------------------------------------------------------------

/// Runs that are the same have the same components at the same paths.
proof fn lemma_same_slots(a: WorldModel, b: WorldModel, path: Seq<Seq<char>>)
    requires
        same_run(a, b),
        coherent(a),
        coherent(b),
    ensures
        crate::registry::is_registered(a.registry.entries, path)
            == crate::registry::is_registered(b.registry.entries, path),
        crate::registry::is_registered(a.registry.entries, path) ==> crate::registry::slot_of(
            a.registry.entries,
            path,
        ) == crate::registry::slot_of(b.registry.entries, path),
{
    let x = a.registry.entries;
    let y = b.registry.entries;
    if crate::registry::is_registered(x, path) {
        let i = crate::registry::slot_of(x, path);
        assert(crate::registry::stands_at(x, i, path));
        assert(same_but_misses(x[i], y[i]));
        assert(crate::registry::stands_at(y, i, path));
        crate::registry::lemma_slot(b.registry, path, i);
    }
    if crate::registry::is_registered(y, path) {
        let i = crate::registry::slot_of(y, path);
        assert(crate::registry::stands_at(y, i, path));
        assert(same_but_misses(x[i], y[i]));
        assert(crate::registry::stands_at(x, i, path));
    }
}

/// Runs that are the same find the same leaf above a path.
proof fn lemma_same_ancestor(a: WorldModel, b: WorldModel, path: Seq<Seq<char>>, depth: int)
    requires
        same_run(a, b),
        coherent(a),
        coherent(b),
    ensures
        crate::registry::ancestor_from(a.registry.entries, path, depth)
            == crate::registry::ancestor_from(b.registry.entries, path, depth),
    decreases path.len() - depth,
{
    if depth < path.len() {
        lemma_same_slots(a, b, path.take(depth));
        lemma_same_ancestor(a, b, path, depth + 1);
    }
}

/// Runs that are the same have the same components beneath a path.
proof fn lemma_same_beneath(
    x: Seq<Option<EntryModel>>,
    y: Seq<Option<EntryModel>>,
    path: Seq<Seq<char>>,
)
    requires
        x.len() == y.len(),
        forall|i: int| 0 <= i < x.len() ==> same_but_misses(#[trigger] x[i], y[i]),
    ensures
        crate::registry::beneath(x, path) == crate::registry::beneath(y, path),
    decreases x.len(),
{
    if x.len() > 0 {
        let fx = x.drop_last();
        let fy = y.drop_last();
        assert forall|i: int| 0 <= i < fx.len() implies same_but_misses(
            #[trigger] fx[i],
            fy[i],
        ) by {
            assert(same_but_misses(x[i], y[i]));
        }
        lemma_same_beneath(fx, fy, path);
        assert(same_but_misses(x[x.len() - 1], y[x.len() - 1]));
    }
}

/// A leave comes to the same in runs that are the same.
proof fn lemma_same_gone(a: WorldModel, b: WorldModel, path: Seq<Seq<char>>, leaves_at: i64)
    requires
        same_run(a, b),
        coherent(a),
        coherent(b),
    ensures
        same_run(
            crate::world::gone(a, path, leaves_at),
            crate::world::gone(b, path, leaves_at),
        ),
        coherent(crate::world::gone(a, path, leaves_at)),
        coherent(crate::world::gone(b, path, leaves_at)),
{
    crate::coherence::lemma_gone(a, path, leaves_at);
    crate::coherence::lemma_gone(b, path, leaves_at);
    lemma_same_slots(a, b, path);
    if crate::registry::is_registered(a.registry.entries, path) {
        let c = crate::world::left(a, path, leaves_at);
        let d = crate::world::left(b, path, leaves_at);
        let note = EffectModel::Membership(
            crate::record::MembershipModel::Left {
                path: crate::ids::path_text(path),
                leaves_at: SimTime(leaves_at),
            },
        );
        lemma_part_pushed(a.history, note);
        lemma_part_pushed(b.history, note);
        let slot = crate::registry::slot_of(a.registry.entries, path);
        assert forall|i: int| 0 <= i < c.registry.entries.len() implies same_but_misses(
            #[trigger] c.registry.entries[i],
            d.registry.entries[i],
        ) by {
            assert(same_but_misses(a.registry.entries[i], b.registry.entries[i]));
            if i != slot {
                assert(c.registry.entries[i] == a.registry.entries[i]);
                assert(d.registry.entries[i] == b.registry.entries[i]);
            }
        }
    } else {
        assert forall|i: int| 0 <= i < a.registry.entries.len() implies same_but_misses(
            #[trigger] crate::world::gone(a, path, leaves_at).registry.entries[i],
            crate::world::gone(b, path, leaves_at).registry.entries[i],
        ) by {
            assert(same_but_misses(a.registry.entries[i], b.registry.entries[i]));
        }
    }
}

/// Leaves settle the same in runs that are the same.
proof fn lemma_same_settled(a: WorldModel, b: WorldModel, limit: i64)
    requires
        same_run(a, b),
        coherent(a),
        coherent(b),
    ensures
        same_run(crate::world::settled(a, limit), crate::world::settled(b, limit)),
        coherent(crate::world::settled(a, limit)),
        coherent(crate::world::settled(b, limit)),
    decreases a.leaves.len(),
{
    assert(crate::world::leave_is_due(a, limit) == crate::world::leave_is_due(b, limit));
    if crate::world::leave_is_due(a, limit) {
        let x = WorldModel { leaves: a.leaves.drop_first(), ..a };
        let y = WorldModel { leaves: b.leaves.drop_first(), ..b };
        crate::queue::lemma_taken_out(a.leaves, 0);
        assert(a.leaves.remove(0) =~= a.leaves.drop_first());
        crate::coherence::lemma_leave_queued(a, x.leaves);
        crate::coherence::lemma_leave_queued(b, y.leaves);
        lemma_same_but_for(a, b, x, y);
        lemma_same_gone(x, y, a.leaves[0].1, a.leaves[0].0);
        crate::coherence::lemma_front_gone(a);
        lemma_same_settled(crate::world::front_gone(a), crate::world::front_gone(b), limit);
    }
}

/// Worlds that keep their components and agree on the rest are the same run.
proof fn lemma_same_but_for(a: WorldModel, b: WorldModel, x: WorldModel, y: WorldModel)
    requires
        same_run(a, b),
        x.registry == a.registry,
        y.registry == b.registry,
        x.name == y.name,
        x.seed == y.seed,
        x.schedule == y.schedule,
        x.leaves == y.leaves,
        x.joins == y.joins,
        x.mail == y.mail,
        part_of_run(x.history) == part_of_run(y.history),
        x.sim_time == y.sim_time,
        x.tick == y.tick,
        x.world_hash == y.world_hash,
    ensures
        same_run(x, y),
{
    assert forall|i: int| 0 <= i < x.registry.entries.len() implies same_but_misses(
        #[trigger] x.registry.entries[i],
        y.registry.entries[i],
    ) by {
        assert(same_but_misses(a.registry.entries[i], b.registry.entries[i]));
    }
}

/// A join comes to the same in runs that are the same.
proof fn lemma_same_admission(a: WorldModel, b: WorldModel, first_due: i64, join: JoinModel)
    requires
        same_run(a, b),
        coherent(a),
        coherent(b),
    ensures
        same_run(
            crate::world::admission(a, first_due, join).world,
            crate::world::admission(b, first_due, join).world,
        ),
        crate::world::admission(a, first_due, join).error == crate::world::admission(
            b,
            first_due,
            join,
        ).error,
{
    lemma_same_slots(a, b, join.path);
    lemma_same_ancestor(a, b, join.path, 1);
    let c = crate::world::joined(a, first_due, join);
    let d = crate::world::joined(b, first_due, join);
    let note = EffectModel::Membership(
        crate::record::MembershipModel::Joined {
            path: crate::ids::path_text(join.path),
            first_due: SimTime(first_due),
        },
    );
    lemma_part_pushed(a.history, note);
    lemma_part_pushed(b.history, note);
    assert forall|i: int| 0 <= i < c.registry.entries.len() implies same_but_misses(
        #[trigger] c.registry.entries[i],
        d.registry.entries[i],
    ) by {
        if i < a.registry.entries.len() {
            assert(same_but_misses(a.registry.entries[i], b.registry.entries[i]));
        }
    }
}

/// Joins that have come due come to the same in runs that are the same.
proof fn lemma_same_admitted(a: WorldModel, b: WorldModel, instant: i64)
    requires
        same_run(a, b),
        coherent(a),
        coherent(b),
        crate::world::admitted(a, instant).world.registry.entries.len() <= usize::MAX,
    ensures
        same_run(
            crate::world::admitted(a, instant).world,
            crate::world::admitted(b, instant).world,
        ),
        crate::world::admitted(a, instant).error == crate::world::admitted(b, instant).error,
        crate::world::admitted(a, instant).error is None ==> coherent(
            crate::world::admitted(a, instant).world,
        ) && coherent(crate::world::admitted(b, instant).world),
    decreases a.joins.len(),
{
    if a.joins.len() > 0 && a.joins[0].0 <= instant {
        let first = a.joins[0];
        let x = WorldModel { joins: a.joins.drop_first(), ..a };
        let y = WorldModel { joins: b.joins.drop_first(), ..b };
        crate::coherence::lemma_front_join_taken(a);
        crate::coherence::lemma_front_join_taken(b);
        lemma_same_but_for(a, b, x, y);
        lemma_same_admission(x, y, first.0, first.1);
        let next = crate::world::admission(x, first.0, first.1);
        let other = crate::world::admission(y, first.0, first.1);
        if next.error is None {
            crate::coherence::lemma_admitted_grows(next.world, instant);
            assert(next.world.registry.entries.len() == a.registry.entries.len() + 1);
            assert(crate::world::earliest_open(x) == crate::world::earliest_open(a));
            assert(crate::world::earliest_open(y) == crate::world::earliest_open(b));
            crate::coherence::lemma_joined(x, first.0, first.1);
            crate::coherence::lemma_joined(y, first.0, first.1);
            lemma_same_admitted(next.world, other.world, instant);
        }
    }
}

/// The boundary before an instant settles the same in runs that are the same:
/// who leaves and who joins does not depend on how fast anything was.
pub proof fn law_membership_reads_no_wall_clock(a: WorldModel, b: WorldModel)
    requires
        same_run(a, b),
        coherent(a),
        coherent(b),
        crate::world::boundary(a).world.registry.entries.len() <= usize::MAX,
    ensures
        same_run(crate::world::boundary(a).world, crate::world::boundary(b).world),
        crate::world::boundary(a).error == crate::world::boundary(b).error,
{
    lemma_same_settled(a, b, i64::MAX);
    let x = crate::world::settled(a, i64::MAX);
    let y = crate::world::settled(b, i64::MAX);
    assert(crate::world::next_due(x) == crate::world::next_due(y));
    if let Some(next) = crate::world::next_due(x) {
        lemma_same_admitted(x, y, next);
    }
}

/// A join request is answered the same in runs that are the same, and they
/// stay the same.
pub proof fn law_a_join_is_answered_alike(
    a: WorldModel,
    b: WorldModel,
    parent: Seq<char>,
    first_due: SimTime,
    timing: StepTiming,
    id: Seq<char>,
    subscriptions: Seq<Seq<char>>,
)
    requires
        same_run(a, b),
        coherent(a),
        coherent(b),
    ensures
        ({
            let x = crate::world::join_request(a, parent, first_due, timing, id, subscriptions);
            let y = crate::world::join_request(b, parent, first_due, timing, id, subscriptions);
            same_run(x.world, y.world) && x.answer == y.answer
        }),
{
    assert(crate::world::earliest_open(a) == crate::world::earliest_open(b));
    if let Ok(home) = crate::ids::parse_path(parent) {
        let join = JoinModel { path: home.push(id), timing, subscriptions };
        lemma_same_admission(a, b, first_due.0, join);
        let note = EffectModel::Observation(
            crate::record::ObservationModel::JoinRequested {
                path: crate::ids::path_text(join.path),
                first_due,
            },
        );
        lemma_part_pushed(a.history, note);
        lemma_part_pushed(b.history, note);
        let x = crate::world::accepted_join(a, first_due, join);
        let y = crate::world::accepted_join(b, first_due, join);
        if first_due.0 != crate::world::earliest_open(a) {
            lemma_same_but_for(a, b, x.world, y.world);
        }
    }
}

/// Several leaves come to the same in runs that are the same.
proof fn lemma_same_all_gone(
    a: WorldModel,
    b: WorldModel,
    paths: Seq<Seq<Seq<char>>>,
    leaves_at: i64,
)
    requires
        same_run(a, b),
        coherent(a),
        coherent(b),
    ensures
        same_run(
            crate::world::all_gone(a, paths, leaves_at),
            crate::world::all_gone(b, paths, leaves_at),
        ),
        coherent(crate::world::all_gone(a, paths, leaves_at)),
        coherent(crate::world::all_gone(b, paths, leaves_at)),
    decreases paths.len(),
{
    if paths.len() > 0 {
        lemma_same_all_gone(a, b, paths.drop_last(), leaves_at);
        lemma_same_gone(
            crate::world::all_gone(a, paths.drop_last(), leaves_at),
            crate::world::all_gone(b, paths.drop_last(), leaves_at),
            paths.last(),
            leaves_at,
        );
    }
}

/// A leave request is answered the same in runs that are the same, and they
/// stay the same.
pub proof fn law_a_leave_is_answered_alike(
    a: WorldModel,
    b: WorldModel,
    asked: Seq<char>,
    leaves_at: Option<SimTime>,
)
    requires
        same_run(a, b),
        coherent(a),
        coherent(b),
    ensures
        ({
            let x = crate::world::leave_request(a, asked, leaves_at);
            let y = crate::world::leave_request(b, asked, leaves_at);
            same_run(x.world, y.world) && x.answer == y.answer
        }),
{
    assert(crate::world::earliest_open(a) == crate::world::earliest_open(b));
    if let Ok(path) = crate::ids::parse_path(asked) {
        lemma_same_slots(a, b, path);
        lemma_same_beneath(a.registry.entries, b.registry.entries, path);
        let who = crate::world::departing(a, path);
        assert(who == crate::world::departing(b, path));
        let note = EffectModel::Observation(
            crate::record::ObservationModel::LeaveRequested { path: asked, leaves_at },
        );
        let x = crate::world::told(a, seq![note]);
        let y = crate::world::told(b, seq![note]);
        assert(x.history =~= a.history.push(note));
        assert(y.history =~= b.history.push(note));
        lemma_part_pushed(a.history, note);
        lemma_part_pushed(b.history, note);
        lemma_same_but_for(a, b, x, y);
        crate::coherence::lemma_told(a, x.history);
        crate::coherence::lemma_told(b, y.history);
        lemma_same_all_gone(x, y, who, crate::world::earliest_open(a) as i64);
        if let Some(time) = leaves_at {
            let leaves = crate::world::all_queued(x.leaves, time.0, who);
            lemma_same_but_for(
                x,
                y,
                WorldModel { leaves, ..x },
                WorldModel { leaves, ..y },
            );
        }
    }
}

// ---------------------------------------------------------------------------
// Components that behave alike
// ---------------------------------------------------------------------------

/// What a component replies, but for how long it took.
pub struct Saying {
    pub outcome: Result<SimTime, CoreError>,
    pub outbox: Seq<(Seq<char>, Seq<u8>)>,
    pub state: Option<Seq<u8>>,
}

/// What a reply says.
pub open spec fn said(reply: ReplyModel) -> Saying {
    Saying { outcome: reply.outcome, outbox: reply.outbox, state: reply.state }
}

/// How the components of a world behave: what is replied, given everything
/// that is part of the run so far, up to and with the question. A component
/// without a clock or a source of chance of its own is a function of no more
/// than that.
pub type Behaviour = spec_fn(Seq<EffectModel>) -> Saying;

/// Whether the `k`-th reply of an instant is how the components behave.
pub open spec fn follows_at(
    m: WorldModel,
    behaviour: Behaviour,
    replies: Seq<ReplyModel>,
    k: int,
) -> bool {
    said(replies[k]) == behaviour(
        part_of_run(
            crate::world::asked(tick_after(m, replies, k).world, due_next(m)[k]).history,
        ),
    )
}

/// Whether the replies of an instant are how the components behave, each
/// within the timeout that it declared.
pub open spec fn follows(m: WorldModel, behaviour: Behaviour, replies: Seq<ReplyModel>) -> bool {
    &&& replies.len() <= due_next(m).len()
    &&& forall|k: int|
        0 <= k < replies.len() ==> #[trigger] follows_at(m, behaviour, replies, k)
    &&& forall|k: int|
        0 <= k < replies.len() ==> within_timeout(
            m.registry.entries[due_next(m)[k] as int]->0.timing,
            #[trigger] replies[k],
        )
}

/// Entering an instant comes to the same in runs that are the same.
proof fn lemma_same_opened(a: WorldModel, b: WorldModel)
    requires
        same_run(a, b),
    ensures
        same_tick(crate::world::opened(a), crate::world::opened(b)),
{
    let x = crate::world::opened(a);
    let y = crate::world::opened(b);
    lemma_part_pushed(a.history, x.world.history.last());
    lemma_part_pushed(b.history, y.world.history.last());
    assert(x.world.history =~= a.history.push(x.world.history.last()));
    assert(y.world.history =~= b.history.push(y.world.history.last()));
    lemma_same_but_for(a, b, x.world, y.world);
}

/// Two runs whose components behave alike are the same halfway through an
/// instant.
proof fn lemma_alike_so_far(
    a: WorldModel,
    b: WorldModel,
    behaviour: Behaviour,
    xs: Seq<ReplyModel>,
    ys: Seq<ReplyModel>,
    k: int,
)
    requires
        is_ready(a),
        is_ready(b),
        same_run(a, b),
        follows(a, behaviour, xs),
        follows(b, behaviour, ys),
        0 <= k <= xs.len(),
        k <= ys.len(),
    ensures
        same_tick(tick_after(a, xs, k), tick_after(b, ys, k)),
    decreases k,
{
    let due = due_next(a);
    if k == 0 {
        assert(due.take(0) =~= Seq::<usize>::empty());
        lemma_same_opened(a, b);
    } else {
        lemma_alike_so_far(a, b, behaviour, xs, ys, k - 1);
        crate::run_laws::lemma_tick_after(a, xs, k - 1);
        crate::run_laws::lemma_tick_after(b, ys, k - 1);
        let p = tick_after(a, xs, k - 1);
        let q = tick_after(b, ys, k - 1);
        assert(due.take(k).drop_last() =~= due.take(k - 1));
        assert(xs.take(k).drop_last() =~= xs.take(k - 1));
        assert(ys.take(k).drop_last() =~= ys.take(k - 1));
        assert(due.take(k).last() == due[k - 1]);
        assert(xs.take(k).last() == xs[k - 1]);
        assert(ys.take(k).last() == ys[k - 1]);
        if p.error is None {
            let index = due[k - 1];
            crate::coherence::lemma_opened(a);
            assert(is_live(a.registry.entries, index as int));
            assert(p.world.registry.entries[index as int] == a.registry.entries[index as int]);
            assert(q.world.registry.entries[index as int] == b.registry.entries[index as int]);
            assert(same_but_misses(
                a.registry.entries[index as int],
                b.registry.entries[index as int],
            ));
            assert(same_but_misses(
                p.world.registry.entries[index as int],
                q.world.registry.entries[index as int],
            ));
            let asked_p = crate::world::asked(p.world, index);
            let asked_q = crate::world::asked(q.world, index);
            let call = EffectModel::Step(crate::world::call_of(p.world, index));
            assert(crate::world::call_of(p.world, index) == crate::world::call_of(
                q.world,
                index,
            ));
            lemma_part_pushed(p.world.history, call);
            lemma_part_pushed(q.world.history, call);
            assert(part_of_run(asked_p.history) == part_of_run(asked_q.history));
            assert(follows_at(a, behaviour, xs, k - 1));
            assert(follows_at(b, behaviour, ys, k - 1));
            assert(said(xs[k - 1]) == said(ys[k - 1]));
            assert(within_timeout(a.registry.entries[index as int]->0.timing, xs[k - 1]));
            assert(within_timeout(b.registry.entries[index as int]->0.timing, ys[k - 1]));
            crate::run_laws::lemma_took_is_inert(p, q, index, xs[k - 1], ys[k - 1]);
        }
    }
}

/// An instant that stopped is not stepped further.
proof fn lemma_stopped(m: WorldModel, replies: Seq<ReplyModel>, k: int)
    requires
        0 <= k <= replies.len() <= due_next(m).len(),
        tick_after(m, replies, k).error is Some,
    ensures
        tick_after(m, replies, replies.len() as int) == tick_after(m, replies, k),
    decreases replies.len() - k,
{
    if k < replies.len() {
        let due = due_next(m);
        assert(due.take(k + 1).drop_last() =~= due.take(k));
        assert(replies.take(k + 1).drop_last() =~= replies.take(k));
        assert(tick_after(m, replies, k + 1) == tick_after(m, replies, k));
        lemma_stopped(m, replies, k + 1);
    }
}

/// Determinism of an instant: two runs that are the same and whose components
/// behave alike come to the same outcome, and stay the same: the same
/// fingerprint, the same world hash, the same messages byte for byte and the
/// same next instants, however long the steps took.
pub proof fn law_alike_components_make_alike_ticks(
    a: WorldModel,
    b: WorldModel,
    behaviour: Behaviour,
    xs: Seq<ReplyModel>,
    ys: Seq<ReplyModel>,
    after_a: WorldModel,
    after_b: WorldModel,
    outcome_a: Result<bool, ConductorErrorModel>,
    outcome_b: Result<bool, ConductorErrorModel>,
)
    requires
        is_ready(a),
        is_ready(b),
        same_run(a, b),
        follows(a, behaviour, xs),
        follows(b, behaviour, ys),
        crate::world::ticks(a, xs, after_a, outcome_a),
        crate::world::ticks(b, ys, after_b, outcome_b),
    ensures
        outcome_a == outcome_b,
        same_run(after_a, after_b),
{
    let n = if xs.len() < ys.len() {
        xs.len() as int
    } else {
        ys.len() as int
    };
    lemma_alike_so_far(a, b, behaviour, xs, ys, n);
    let p = crate::world::tick_outcome(a, xs);
    let q = crate::world::tick_outcome(b, ys);
    assert(xs.take(xs.len() as int) =~= xs);
    assert(ys.take(ys.len() as int) =~= ys);
    assert(p == tick_after(a, xs, xs.len() as int));
    assert(q == tick_after(b, ys, ys.len() as int));
    if n < xs.len() {
        assert(q.error is Some);
        lemma_stopped(a, xs, n);
    }
    if n < ys.len() {
        assert(p.error is Some);
        lemma_stopped(b, ys, n);
    }
    assert(same_tick(p, q));
    if p.error is None {
        let tick = EffectModel::Tick(crate::world::fingerprint(p));
        assert(crate::world::fingerprint(p) == crate::world::fingerprint(q));
        lemma_part_pushed(p.world.history, tick);
        lemma_part_pushed(q.world.history, tick);
        lemma_same_but_for(
            p.world,
            q.world,
            crate::world::closed(p),
            crate::world::closed(q),
        );
    }
}

// ---------------------------------------------------------------------------
// Whole runs
// ---------------------------------------------------------------------------

/// Whether one advance of a world whose components behave in a way leads to
/// another world.
pub open spec fn advances_as(
    before: WorldModel,
    behaviour: Behaviour,
    replies: Seq<ReplyModel>,
    after: WorldModel,
    outcome: Result<bool, ConductorErrorModel>,
) -> bool {
    let ready = crate::world::boundary(before);
    match ready.error {
        Some(error) => outcome == Err::<bool, ConductorErrorModel>(error) && after == ready.world,
        None => if ready.world.schedule.len() == 0 {
            outcome == Ok::<bool, ConductorErrorModel>(false) && after == ready.world
        } else {
            follows(ready.world, behaviour, replies) && crate::world::ticks(
                ready.world,
                replies,
                after,
                outcome,
            )
        },
    }
}

/// An advance of a world whose components behave in a way is an advance.
pub proof fn lemma_advances_as(
    before: WorldModel,
    behaviour: Behaviour,
    replies: Seq<ReplyModel>,
    after: WorldModel,
    outcome: Result<bool, ConductorErrorModel>,
)
    requires
        advances_as(before, behaviour, replies, after, outcome),
    ensures
        crate::world::advances(before, after, outcome),
{
    reveal(crate::world::advances);
}

/// Determinism of an advance: runs that are the same and whose components
/// behave alike answer an advance alike, and stay the same.
pub proof fn law_alike_components_make_alike_advances(
    a: WorldModel,
    b: WorldModel,
    behaviour: Behaviour,
    xs: Seq<ReplyModel>,
    ys: Seq<ReplyModel>,
    after_a: WorldModel,
    after_b: WorldModel,
    outcome_a: Result<bool, ConductorErrorModel>,
    outcome_b: Result<bool, ConductorErrorModel>,
)
    requires
        same_run(a, b),
        coherent(a),
        coherent(b),
        crate::world::boundary(a).world.registry.entries.len() <= usize::MAX,
        advances_as(a, behaviour, xs, after_a, outcome_a),
        advances_as(b, behaviour, ys, after_b, outcome_b),
    ensures
        outcome_a == outcome_b,
        same_run(after_a, after_b),
{
    law_membership_reads_no_wall_clock(a, b);
    let x = crate::world::boundary(a);
    let y = crate::world::boundary(b);
    if x.error is None && x.world.schedule.len() > 0 {
        crate::coherence::law_membership_is_settled_before_an_instant(a);
        crate::coherence::law_membership_is_settled_before_an_instant(b);
        law_alike_components_make_alike_ticks(
            x.world,
            y.world,
            behaviour,
            xs,
            ys,
            after_a,
            after_b,
            outcome_a,
            outcome_b,
        );
    }
}

/// A tick leaves a world coherent.
proof fn lemma_ticked(
    m: WorldModel,
    replies: Seq<ReplyModel>,
    after: WorldModel,
    outcome: Result<bool, ConductorErrorModel>,
)
    requires
        is_ready(m),
        crate::world::ticks(m, replies, after, outcome),
    ensures
        coherent(after),
{
    let n = replies.len() as int;
    assert(replies.take(n) =~= replies);
    crate::run_laws::lemma_tick_after(m, replies, n);
    crate::coherence::lemma_closed(tick_after(m, replies, n));
}

/// Whether a world of a run through `end`, whose components behave in a way,
/// leads to the one after it. No machine has more slots than it can count.
pub open spec fn leads_as(
    worlds: Seq<WorldModel>,
    replies: Seq<Seq<ReplyModel>>,
    behaviour: Behaviour,
    end: i64,
    i: int,
) -> bool {
    let calm = crate::world::settled(worlds[i], end);
    &&& !crate::world::done_by(calm, end)
    &&& crate::world::boundary(calm).world.registry.entries.len() <= usize::MAX
    &&& advances_as(
        calm,
        behaviour,
        replies[i],
        worlds[i + 1],
        Ok::<bool, ConductorErrorModel>(true),
    )
}

/// Whether a run through `end`, whose components behave in a way, goes from
/// world to world and is done.
pub open spec fn runs_as(
    worlds: Seq<WorldModel>,
    replies: Seq<Seq<ReplyModel>>,
    behaviour: Behaviour,
    end: i64,
) -> bool {
    &&& worlds.len() > 0
    &&& coherent(worlds[0])
    &&& forall|i: int|
        0 <= i < worlds.len() - 1 ==> #[trigger] leads_as(worlds, replies, behaviour, end, i)
    &&& crate::world::done_by(crate::world::settled(worlds.last(), end), end)
}

/// Two runs whose components behave alike are the same so far.
proof fn lemma_alike_worlds(
    a: Seq<WorldModel>,
    b: Seq<WorldModel>,
    xs: Seq<Seq<ReplyModel>>,
    ys: Seq<Seq<ReplyModel>>,
    behaviour: Behaviour,
    end: i64,
    i: int,
)
    requires
        runs_as(a, xs, behaviour, end),
        runs_as(b, ys, behaviour, end),
        same_run(a[0], b[0]),
        0 <= i < a.len(),
        i < b.len(),
    ensures
        same_run(a[i], b[i]),
        coherent(a[i]),
        coherent(b[i]),
    decreases i,
{
    if i > 0 {
        lemma_alike_worlds(a, b, xs, ys, behaviour, end, i - 1);
        assert(leads_as(a, xs, behaviour, end, i - 1));
        assert(leads_as(b, ys, behaviour, end, i - 1));
        assert(a[i - 1 + 1] == a[i] && b[i - 1 + 1] == b[i]);
        lemma_same_settled(a[i - 1], b[i - 1], end);
        let x = crate::world::settled(a[i - 1], end);
        let y = crate::world::settled(b[i - 1], end);
        let p = crate::world::boundary(x);
        let q = crate::world::boundary(y);
        law_alike_components_make_alike_advances(
            x,
            y,
            behaviour,
            xs[i - 1],
            ys[i - 1],
            a[i],
            b[i],
            Ok::<bool, ConductorErrorModel>(true),
            Ok::<bool, ConductorErrorModel>(true),
        );
        crate::coherence::law_membership_is_settled_before_an_instant(x);
        crate::coherence::law_membership_is_settled_before_an_instant(y);
        lemma_ticked(p.world, xs[i - 1], a[i], Ok::<bool, ConductorErrorModel>(true));
        lemma_ticked(q.world, ys[i - 1], b[i], Ok::<bool, ConductorErrorModel>(true));
    }
}

/// Determinism: two runs of the same world whose components behave alike are
/// the same run at every tick, however fast the machine was. They take the
/// same number of ticks, and end with the same world hash, having told their
/// components the same and published the same messages byte for byte.
pub proof fn law_two_runs_of_one_world_are_the_same(
    a: Seq<WorldModel>,
    b: Seq<WorldModel>,
    xs: Seq<Seq<ReplyModel>>,
    ys: Seq<Seq<ReplyModel>>,
    behaviour: Behaviour,
    end: i64,
)
    requires
        runs_as(a, xs, behaviour, end),
        runs_as(b, ys, behaviour, end),
        same_run(a[0], b[0]),
    ensures
        a.len() == b.len(),
        forall|i: int|
            #![trigger a[i]]
            #![trigger b[i]]
            0 <= i < a.len() ==> same_run(a[i], b[i]),
        same_run(
            crate::world::settled(a.last(), end),
            crate::world::settled(b.last(), end),
        ),
{
    let n = if a.len() < b.len() {
        a.len() as int
    } else {
        b.len() as int
    };
    lemma_alike_worlds(a, b, xs, ys, behaviour, end, n - 1);
    lemma_same_settled(a[n - 1], b[n - 1], end);
    if n < a.len() {
        assert(leads_as(a, xs, behaviour, end, n - 1));
    }
    if n < b.len() {
        assert(leads_as(b, ys, behaviour, end, n - 1));
    }
    assert forall|i: int| 0 <= i < a.len() implies #[trigger] same_run(a[i], b[i]) by {
        lemma_alike_worlds(a, b, xs, ys, behaviour, end, i);
    }
}

// ---------------------------------------------------------------------------
// Two conductors with the same components
// ---------------------------------------------------------------------------

/// Whether the components of a type have no clock and no source of chance of
/// their own: one that is told the same replies the same and becomes the
/// same.
pub open spec fn is_deterministic<K: Component>() -> bool {
    forall|component: K, call: CallModel, x: ReplyModel, y: ReplyModel, p: K, q: K|
        #![trigger crate::stage::answers(component, call, x, p), crate::stage::answers(component, call, y, q)]
        crate::stage::answers(component, call, x, p) && crate::stage::answers(
            component,
            call,
            y,
            q,
        ) ==> said(x) == said(y) && p == q
}

/// Whether nobody that is due at the next instant declared a timeout.
pub open spec fn no_timeouts(m: WorldModel) -> bool {
    forall|k: int|
        0 <= k < due_next(m).len() ==> m.registry.entries[(
        #[trigger] due_next(m)[k]) as int]->0.timing.timeout is None
}

/// A leave takes the same component out of casts that are the same.
proof fn lemma_same_cast_gone<K>(
    a: WorldModel,
    b: WorldModel,
    cast: CastModel<K>,
    path: Seq<Seq<char>>,
)
    requires
        same_run(a, b),
        coherent(a),
        coherent(b),
    ensures
        crate::stage::cast_gone(cast, a, path) == crate::stage::cast_gone(cast, b, path),
{
    lemma_same_slots(a, b, path);
}

/// Leaves settle the same in casts that are the same.
proof fn lemma_same_cast_settled<K>(
    a: WorldModel,
    b: WorldModel,
    cast: CastModel<K>,
    limit: i64,
)
    requires
        same_run(a, b),
        coherent(a),
        coherent(b),
    ensures
        crate::stage::cast_settled(cast, a, limit) == crate::stage::cast_settled(cast, b, limit),
    decreases a.leaves.len(),
{
    assert(crate::world::leave_is_due(a, limit) == crate::world::leave_is_due(b, limit));
    if crate::world::leave_is_due(a, limit) {
        let x = WorldModel { leaves: a.leaves.drop_first(), ..a };
        let y = WorldModel { leaves: b.leaves.drop_first(), ..b };
        crate::queue::lemma_taken_out(a.leaves, 0);
        assert(a.leaves.remove(0) =~= a.leaves.drop_first());
        crate::coherence::lemma_leave_queued(a, x.leaves);
        crate::coherence::lemma_leave_queued(b, y.leaves);
        lemma_same_but_for(a, b, x, y);
        lemma_same_gone(x, y, a.leaves[0].1, a.leaves[0].0);
        lemma_same_cast_gone(x, y, cast, a.leaves[0].1);
        crate::coherence::lemma_front_gone(a);
        lemma_same_cast_settled(
            crate::world::front_gone(a),
            crate::world::front_gone(b),
            crate::stage::cast_gone(cast, x, a.leaves[0].1),
            limit,
        );
    }
}

/// Joins enter casts that are the same alike.
proof fn lemma_same_cast_admitted<K>(
    a: WorldModel,
    b: WorldModel,
    cast: CastModel<K>,
    instant: i64,
)
    requires
        same_run(a, b),
        coherent(a),
        coherent(b),
        crate::world::admitted(a, instant).world.registry.entries.len() <= usize::MAX,
    ensures
        crate::stage::cast_admitted(cast, a, instant) == crate::stage::cast_admitted(
            cast,
            b,
            instant,
        ),
    decreases a.joins.len(),
{
    if a.joins.len() > 0 && a.joins[0].0 <= instant {
        let first = a.joins[0];
        let x = WorldModel { joins: a.joins.drop_first(), ..a };
        let y = WorldModel { joins: b.joins.drop_first(), ..b };
        crate::coherence::lemma_front_join_taken(a);
        crate::coherence::lemma_front_join_taken(b);
        lemma_same_but_for(a, b, x, y);
        lemma_same_admission(x, y, first.0, first.1);
        let next = crate::world::admission(x, first.0, first.1);
        let other = crate::world::admission(y, first.0, first.1);
        let rest = CastModel { waiting: cast.waiting.drop_first(), ..cast };
        let entered = crate::stage::cast_admission(rest, x, first.1.path, cast.waiting[0]);
        assert(entered == crate::stage::cast_admission(rest, y, first.1.path, cast.waiting[0]));
        if next.error is None {
            crate::coherence::lemma_admitted_grows(next.world, instant);
            assert(next.world.registry.entries.len() == a.registry.entries.len() + 1);
            assert(crate::world::earliest_open(x) == crate::world::earliest_open(a));
            assert(crate::world::earliest_open(y) == crate::world::earliest_open(b));
            crate::coherence::lemma_joined(x, first.0, first.1);
            crate::coherence::lemma_joined(y, first.0, first.1);
            lemma_same_cast_admitted(next.world, other.world, entered, instant);
        }
    }
}

/// The boundary before an instant leaves the same cast.
proof fn lemma_same_cast_boundary<K>(a: WorldModel, b: WorldModel, cast: CastModel<K>)
    requires
        same_run(a, b),
        coherent(a),
        coherent(b),
        crate::world::boundary(a).world.registry.entries.len() <= usize::MAX,
    ensures
        crate::stage::cast_boundary(cast, a) == crate::stage::cast_boundary(cast, b),
{
    lemma_same_settled(a, b, i64::MAX);
    lemma_same_cast_settled(a, b, cast, i64::MAX);
    let x = crate::world::settled(a, i64::MAX);
    let y = crate::world::settled(b, i64::MAX);
    assert(crate::world::next_due(x) == crate::world::next_due(y));
    if let Some(next) = crate::world::next_due(x) {
        lemma_same_cast_admitted(
            x,
            y,
            crate::stage::cast_settled(cast, a, i64::MAX),
            next,
        );
    }
}

/// Two conductors with the same components are the same halfway through an
/// instant.
proof fn lemma_same_cast_so_far<K: Component, C: WallClock>(
    a: WorldModel,
    b: WorldModel,
    p: C,
    q: C,
    ms: Seq<Moment>,
    ns: Seq<Moment>,
    xs: Seq<ReplyModel>,
    ys: Seq<ReplyModel>,
    casts: Seq<Seq<Option<K>>>,
    others: Seq<Seq<Option<K>>>,
    k: int,
)
    requires
        is_deterministic::<K>(),
        is_ready(a),
        is_ready(b),
        same_run(a, b),
        no_timeouts(a),
        xs.len() <= due_next(a).len(),
        ys.len() <= due_next(b).len(),
        crate::stage::played(a, p, ms, xs, casts),
        crate::stage::played(b, q, ns, ys, others),
        casts[0] == others[0],
        0 <= k <= xs.len(),
        k <= ys.len(),
    ensures
        same_tick(tick_after(a, xs, k), tick_after(b, ys, k)),
        casts[k] == others[k],
    decreases k,
{
    let due = due_next(a);
    if k == 0 {
        assert(due.take(0) =~= Seq::<usize>::empty());
        lemma_same_opened(a, b);
    } else {
        lemma_same_cast_so_far(a, b, p, q, ms, ns, xs, ys, casts, others, k - 1);
        crate::run_laws::lemma_tick_after(a, xs, k - 1);
        crate::run_laws::lemma_tick_after(b, ys, k - 1);
        let t = tick_after(a, xs, k - 1);
        let u = tick_after(b, ys, k - 1);
        assert(due.take(k).drop_last() =~= due.take(k - 1));
        assert(xs.take(k).drop_last() =~= xs.take(k - 1));
        assert(ys.take(k).drop_last() =~= ys.take(k - 1));
        assert(due.take(k).last() == due[k - 1]);
        assert(xs.take(k).last() == xs[k - 1]);
        assert(ys.take(k).last() == ys[k - 1]);
        assert(crate::stage::plays_at(a, p, ms, xs, casts, k - 1));
        assert(crate::stage::plays_at(b, q, ns, ys, others, k - 1));
        assert(crate::world::tick_outcome(a, xs.take(k - 1)) == t);
        assert(crate::world::tick_outcome(b, ys.take(k - 1)) == u);
        let index = due[k - 1];
        crate::coherence::lemma_opened(a);
        assert(is_live(a.registry.entries, index as int));
        assert(t.world.registry.entries[index as int] == a.registry.entries[index as int]);
        assert(u.world.registry.entries[index as int] == b.registry.entries[index as int]);
        assert(same_but_misses(
            t.world.registry.entries[index as int],
            u.world.registry.entries[index as int],
        ));
        let call = crate::world::call_of(t.world, index);
        assert(call == crate::world::call_of(u.world, index));
        let who = casts[k - 1][index as int]->0;
        assert(crate::stage::answers(
            who,
            call,
            xs[k - 1],
            casts[k - 1 + 1][index as int]->0,
        ));
        assert(crate::stage::answers(
            who,
            call,
            ys[k - 1],
            others[k - 1 + 1][index as int]->0,
        ));
        assert(said(xs[k - 1]) == said(ys[k - 1]));
        assert(casts[k] =~= others[k]);
        crate::run_laws::lemma_took_is_inert(t, u, index, xs[k - 1], ys[k - 1]);
    }
}

/// Two conductors with the same components take the same instant: the same
/// outcome, the same fingerprint, the same messages byte for byte, and
/// components that are the same after it, however long the steps took.
pub proof fn law_the_same_components_make_the_same_tick<K: Component, C: WallClock>(
    a: WorldModel,
    b: WorldModel,
    slots: Seq<Option<K>>,
    p: C,
    q: C,
    ms: Seq<Moment>,
    ns: Seq<Moment>,
    xs: Seq<ReplyModel>,
    ys: Seq<ReplyModel>,
    casts: Seq<Seq<Option<K>>>,
    others: Seq<Seq<Option<K>>>,
    after_a: WorldModel,
    after_b: WorldModel,
    outcome_a: Result<bool, ConductorErrorModel>,
    outcome_b: Result<bool, ConductorErrorModel>,
)
    requires
        is_deterministic::<K>(),
        is_ready(a),
        is_ready(b),
        same_run(a, b),
        no_timeouts(a),
        crate::stage::ticks_with(a, slots, p, ms, xs, casts, after_a, outcome_a),
        crate::stage::ticks_with(b, slots, q, ns, ys, others, after_b, outcome_b),
    ensures
        outcome_a == outcome_b,
        same_run(after_a, after_b),
        casts.last() == others.last(),
{
    let n = if xs.len() < ys.len() {
        xs.len() as int
    } else {
        ys.len() as int
    };
    lemma_same_cast_so_far(a, b, p, q, ms, ns, xs, ys, casts, others, n);
    let t = crate::world::tick_outcome(a, xs);
    let u = crate::world::tick_outcome(b, ys);
    assert(xs.take(xs.len() as int) =~= xs);
    assert(ys.take(ys.len() as int) =~= ys);
    assert(t == tick_after(a, xs, xs.len() as int));
    assert(u == tick_after(b, ys, ys.len() as int));
    if n < xs.len() {
        assert(u.error is Some);
        assert(crate::stage::plays_at(a, p, ms, xs, casts, n));
        assert(crate::world::tick_outcome(a, xs.take(n)) == tick_after(a, xs, n));
    }
    if n < ys.len() {
        assert(t.error is Some);
        assert(crate::stage::plays_at(b, q, ns, ys, others, n));
        assert(crate::world::tick_outcome(b, ys.take(n)) == tick_after(b, ys, n));
    }
    assert(same_tick(t, u));
    if t.error is None {
        let tick = EffectModel::Tick(crate::world::fingerprint(t));
        assert(crate::world::fingerprint(t) == crate::world::fingerprint(u));
        lemma_part_pushed(t.world.history, tick);
        lemma_part_pushed(u.world.history, tick);
        lemma_same_but_for(
            t.world,
            u.world,
            crate::world::closed(t),
            crate::world::closed(u),
        );
    }
}

/// Two conductors that are at the same point of a run, with the same
/// components, advance alike: the same answer, the same run, and components
/// that are the same after it, however fast the machine was.
pub proof fn law_two_conductors_advance_alike<K: Component, C: WallClock>(
    a: StageModel<K, C>,
    b: StageModel<K, C>,
    after_a: StageModel<K, C>,
    after_b: StageModel<K, C>,
    ms: Seq<Moment>,
    ns: Seq<Moment>,
    outcome_a: Result<bool, ConductorErrorModel>,
    outcome_b: Result<bool, ConductorErrorModel>,
)
    requires
        is_deterministic::<K>(),
        coherent(a.world),
        coherent(b.world),
        same_run(a.world, b.world),
        a.cast == b.cast,
        crate::world::boundary(a.world).world.registry.entries.len() <= usize::MAX,
        no_timeouts(crate::world::boundary(a.world).world),
        crate::stage::advances_with(
            a.world,
            a.cast,
            after_a.clock,
            ms,
            after_a.world,
            after_a.cast,
            outcome_a,
        ),
        crate::stage::advances_with(
            b.world,
            b.cast,
            after_b.clock,
            ns,
            after_b.world,
            after_b.cast,
            outcome_b,
        ),
    ensures
        outcome_a == outcome_b,
        same_run(after_a.world, after_b.world),
        after_a.cast == after_b.cast,
{
    reveal(crate::stage::advances_with);
    reveal(crate::world::advances);
    law_membership_reads_no_wall_clock(a.world, b.world);
    lemma_same_cast_boundary(a.world, b.world, a.cast);
    let x = crate::world::boundary(a.world);
    let y = crate::world::boundary(b.world);
    let entered = crate::stage::cast_boundary(a.cast, a.world);
    if x.error is None && x.world.schedule.len() > 0 {
        crate::coherence::law_membership_is_settled_before_an_instant(a.world);
        crate::coherence::law_membership_is_settled_before_an_instant(b.world);
        let (xs, casts) = choose|xs: Seq<ReplyModel>, casts: Seq<Seq<Option<K>>>|
            {
                &&& #[trigger] crate::stage::ticks_with(
                    x.world,
                    entered.slots,
                    after_a.clock,
                    ms,
                    xs,
                    casts,
                    after_a.world,
                    outcome_a,
                )
                &&& after_a.cast == (CastModel { slots: casts.last(), ..entered })
            };
        let (ys, others) = choose|ys: Seq<ReplyModel>, others: Seq<Seq<Option<K>>>|
            {
                &&& #[trigger] crate::stage::ticks_with(
                    y.world,
                    entered.slots,
                    after_b.clock,
                    ns,
                    ys,
                    others,
                    after_b.world,
                    outcome_b,
                )
                &&& after_b.cast == (CastModel { slots: others.last(), ..entered })
            };
        law_the_same_components_make_the_same_tick(
            x.world,
            y.world,
            entered.slots,
            after_a.clock,
            after_b.clock,
            ms,
            ns,
            xs,
            ys,
            casts,
            others,
            after_a.world,
            after_b.world,
            outcome_a,
            outcome_b,
        );
    }
}

/// Whether nobody declares a timeout at any instant of a run, on a machine
/// that can count its slots.
pub open spec fn never_times_out<K, C>(stages: Seq<StageModel<K, C>>, end: i64) -> bool {
    forall|i: int|
        0 <= i < stages.len() ==> {
            let ready = crate::world::boundary(
                crate::world::settled((#[trigger] stages[i]).world, end),
            ).world;
            no_timeouts(ready) && ready.registry.entries.len() <= usize::MAX
        }
}

/// Two conductors with the same components are the same so far.
proof fn lemma_same_stages<K: Component, C: WallClock>(
    a: Seq<StageModel<K, C>>,
    b: Seq<StageModel<K, C>>,
    end: i64,
    i: int,
)
    requires
        is_deterministic::<K>(),
        0 <= i < a.len(),
        i < b.len(),
        coherent(a[0].world),
        coherent(b[0].world),
        same_run(a[0].world, b[0].world),
        a[0].cast == b[0].cast,
        never_times_out(a, end),
        never_times_out(b, end),
        forall|j: int| 0 <= j < a.len() - 1 ==> #[trigger] crate::stage::stage_leads(a, j, end),
        forall|j: int| 0 <= j < b.len() - 1 ==> #[trigger] crate::stage::stage_leads(b, j, end),
    ensures
        coherent(a[i].world),
        coherent(b[i].world),
        same_run(a[i].world, b[i].world),
        a[i].cast == b[i].cast,
    decreases i,
{
    if i > 0 {
        let j = i - 1;
        lemma_same_stages(a, b, end, j);
        assert(crate::stage::stage_leads(a, j, end));
        assert(crate::stage::stage_leads(b, j, end));
        assert(a[j + 1] == a[i] && b[j + 1] == b[i]);
        let x = crate::world::settled(a[j].world, end);
        let y = crate::world::settled(b[j].world, end);
        lemma_same_settled(a[j].world, b[j].world, end);
        lemma_same_cast_settled(a[j].world, b[j].world, a[j].cast, end);
        let cast = crate::stage::cast_settled(a[j].cast, a[j].world, end);
        let ms = crate::stopwatch::since(a[j].moments, a[i].moments);
        let ns = crate::stopwatch::since(b[j].moments, b[i].moments);
        let from_a = StageModel { world: x, cast, ..a[j] };
        let from_b = StageModel { world: y, cast, ..b[j] };
        law_two_conductors_advance_alike(
            from_a,
            from_b,
            a[i],
            b[i],
            ms,
            ns,
            Ok::<bool, ConductorErrorModel>(true),
            Ok::<bool, ConductorErrorModel>(true),
        );
        lemma_advanced(x, cast, a[i].clock, ms, a[i].world, a[i].cast);
        lemma_advanced(y, cast, b[i].clock, ns, b[i].world, b[i].cast);
    }
}

/// A tick that is done leaves a world coherent.
proof fn lemma_advanced<K: Component, C: WallClock>(
    before: WorldModel,
    cast: CastModel<K>,
    clock: C,
    moments: Seq<Moment>,
    after: WorldModel,
    cast_after: CastModel<K>,
)
    requires
        coherent(before),
        crate::world::boundary(before).world.registry.entries.len() <= usize::MAX,
        crate::stage::advances_with(
            before,
            cast,
            clock,
            moments,
            after,
            cast_after,
            Ok::<bool, ConductorErrorModel>(true),
        ),
    ensures
        coherent(after),
{
    reveal(crate::stage::advances_with);
    reveal(crate::world::advances);
    let ready = crate::world::boundary(before);
    if ready.error is None && ready.world.schedule.len() > 0 {
        crate::coherence::law_membership_is_settled_before_an_instant(before);
        let entered = crate::stage::cast_boundary(cast, before);
        let (replies, casts) = choose|replies: Seq<ReplyModel>, casts: Seq<Seq<Option<K>>>|
            #[trigger]
            crate::stage::ticks_with(
                ready.world,
                entered.slots,
                clock,
                moments,
                replies,
                casts,
                after,
                Ok::<bool, ConductorErrorModel>(true),
            );
        lemma_ticked(ready.world, replies, after, Ok::<bool, ConductorErrorModel>(true));
    }
}

/// Determinism of two conductors: with the same components, and at the same
/// point of a run, they run through the same instants to the same end. They
/// take as many ticks, end with the same world hash, have told their
/// components the same and published the same messages byte for byte, and
/// their components are the same, however fast the machines were.
pub proof fn law_two_conductors_run_alike<K: Component, C: WallClock>(
    before_a: StageModel<K, C>,
    before_b: StageModel<K, C>,
    end: i64,
    a: Seq<StageModel<K, C>>,
    b: Seq<StageModel<K, C>>,
    after_a: StageModel<K, C>,
    after_b: StageModel<K, C>,
)
    requires
        is_deterministic::<K>(),
        coherent(before_a.world),
        coherent(before_b.world),
        same_run(before_a.world, before_b.world),
        before_a.cast == before_b.cast,
        never_times_out(a, end),
        never_times_out(b, end),
        crate::stage::runs_with(before_a, end, a, after_a, Ok::<(), ConductorErrorModel>(())),
        crate::stage::runs_with(before_b, end, b, after_b, Ok::<(), ConductorErrorModel>(())),
    ensures
        a.len() == b.len(),
        same_run(after_a.world, after_b.world),
        after_a.cast == after_b.cast,
{
    let n = if a.len() < b.len() {
        a.len() as int
    } else {
        b.len() as int
    };
    lemma_same_stages(a, b, end, n - 1);
    lemma_same_settled(a[n - 1].world, b[n - 1].world, end);
    lemma_same_cast_settled(a[n - 1].world, b[n - 1].world, a[n - 1].cast, end);
    let x = crate::world::settled(a[n - 1].world, end);
    let y = crate::world::settled(b[n - 1].world, end);
    assert(crate::world::done_by(x, end) == crate::world::done_by(y, end));
    if n < a.len() {
        assert(crate::stage::stage_leads(a, n - 1, end));
    }
    if n < b.len() {
        assert(crate::stage::stage_leads(b, n - 1, end));
    }
}

} // verus!
