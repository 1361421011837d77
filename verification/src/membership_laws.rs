//! Laws of joining and leaving, said of who is there before and after: when a
//! request is accepted, what it is refused for, and what comes of it.
use vstd::prelude::*;

use crate::coherence::{coherent, is_live};
use crate::conductor_error::ConductorErrorModel;
use crate::record::{MembershipModel, ObservationModel};
use crate::registry::{EntryModel, RegistryModel};
use crate::schedule::Due;
use crate::time::SimTime;
use crate::timing::StepTiming;
use crate::world::{EffectModel, JoinModel, WorldModel};

verus! {

// ---------------------------------------------------------------------------
// Joining
// ---------------------------------------------------------------------------

/// Whether one path is the beginning of another, or the same.
pub open spec fn leads_to(a: Seq<Seq<char>>, b: Seq<Seq<char>>) -> bool {
    a.len() <= b.len() && forall|i: int| 0 <= i < a.len() ==> #[trigger] a[i] == b[i]
}

proof fn lemma_leads_to(a: Seq<Seq<char>>, b: Seq<Seq<char>>)
    ensures
        leads_to(a, b) == crate::tree::is_prefix(a, b),
        leads_to(a, b) && a != b <==> crate::tree::is_above(a, b),
{
    if leads_to(a, b) {
        assert(b.take(a.len() as int) =~= a);
        if a.len() == b.len() {
            assert(a =~= b);
        }
    }
    if crate::tree::is_prefix(a, b) {
        assert forall|i: int| 0 <= i < a.len() implies #[trigger] a[i] == b[i] by {
            assert(b.take(a.len() as int)[i] == b[i]);
        }
    }
}

proof fn lemma_ancestor(entries: Seq<Option<EntryModel>>, path: Seq<Seq<char>>, depth: int)
    requires
        0 <= depth,
    ensures
        match crate::registry::ancestor_from(entries, path, depth) {
            Some(above) => crate::registry::is_registered(entries, above) && depth <= above.len()
                && crate::tree::is_above(above, path),
            None => forall|d: int|
                depth <= d < path.len() ==> !crate::registry::is_registered(
                    entries,
                    #[trigger] path.take(d),
                ),
        },
    decreases path.len() - depth,
{
    if depth < path.len() && !crate::registry::is_registered(entries, path.take(depth)) {
        lemma_ancestor(entries, path, depth + 1);
    }
}

/// A component can be registered at a path exactly where nobody who is there
/// stands at it, above it or beneath it. Where somebody stands at it the path
/// is refused as taken, and where somebody stands above it or beneath it as
/// one that a component and a composite cannot both have.
pub proof fn law_where_a_component_can_be_registered(m: RegistryModel, path: Seq<Seq<char>>)
    requires
        crate::registry::sound(m),
        path.len() > 0,
    ensures
        crate::registry::add_error(m, path) is None <==> forall|i: int|
            is_live(m.entries, i) ==> !leads_to((#[trigger] m.entries[i])->0.path, path)
                && !leads_to(path, m.entries[i]->0.path),
        crate::registry::add_error(m, path) == Some(ConductorErrorModel::DuplicatePath(path))
            <==> exists|i: int|
            is_live(m.entries, i) && (#[trigger] m.entries[i])->0.path == path,
        crate::registry::add_error(m, path) matches Some(error) ==> error
            is DuplicatePath || (error is PathConflict && error->new == path && (error->existing
            == path || (leads_to(error->existing, path) && exists|i: int|
            is_live(m.entries, i) && (#[trigger] m.entries[i])->0.path == error->existing))),
{
    let leaves = crate::registry::leaves(m.entries);
    lemma_ancestor(m.entries, path, 1);
    assert forall|i: int| is_live(m.entries, i) implies leaves.contains(
        (#[trigger] m.entries[i])->0.path,
    ) && m.entries[i]->0.path.len() > 0 by {
        assert(crate::registry::stands_at(m.entries, i, m.entries[i]->0.path));
    }
    assert forall|q: Seq<Seq<char>>| crate::registry::is_registered(m.entries, q) implies exists|
        i: int,
    | is_live(m.entries, i) && (#[trigger] m.entries[i])->0.path == q by {
        let i = choose|i: int| crate::registry::stands_at(m.entries, i, q);
        assert(is_live(m.entries, i) && m.entries[i]->0.path == q);
    }
    if crate::registry::add_error(m, path) is None {
        assert forall|i: int| is_live(m.entries, i) implies !leads_to(
            (#[trigger] m.entries[i])->0.path,
            path,
        ) && !leads_to(path, m.entries[i]->0.path) by {
            let other = m.entries[i]->0.path;
            assert(leaves.contains(other));
            lemma_leads_to(other, path);
            lemma_leads_to(path, other);
            if leads_to(other, path) {
                if other != path {
                    assert(path.take(other.len() as int) == other);
                }
            }
            if leads_to(path, other) && path != other {
                assert(m.children.contains_key(path));
            }
        }
    } else {
        let error = crate::registry::add_error(m, path)->0;
        if crate::registry::is_registered(m.entries, path) {
            let i = choose|i: int| crate::registry::stands_at(m.entries, i, path);
            assert(is_live(m.entries, i) && m.entries[i]->0.path == path);
            assert(leads_to(path, path));
        } else if m.children.contains_key(path) {
            let q = choose|q: Seq<Seq<char>>| #[trigger]
                leaves.contains(q) && crate::tree::is_above(path, q);
            let i = choose|i: int| crate::registry::stands_at(m.entries, i, q);
            assert(is_live(m.entries, i) && m.entries[i]->0.path == q);
            lemma_leads_to(path, q);
        } else {
            let above = error->existing;
            let i = choose|i: int| crate::registry::stands_at(m.entries, i, above);
            assert(is_live(m.entries, i) && m.entries[i]->0.path == above);
            lemma_leads_to(above, path);
        }
    }
}

/// What comes of a join request. A parent that is no path is refused for the
/// part that is none; a first step in an instant that has been is refused and
/// told the earliest that is open; a budget that could never report before
/// its timeout is refused with both; a first step at the earliest open
/// instant is refused where its place is taken. Anything else is accepted,
/// and answered with the path, which is the parent's with the component's own
/// name behind it.
pub proof fn law_what_a_join_request_is_answered(
    m: WorldModel,
    parent: Seq<char>,
    first_due: SimTime,
    timing: StepTiming,
    id: Seq<char>,
    subscriptions: Seq<Seq<char>>,
)
    requires
        coherent(m),
        m.tick == 0 || m.sim_time.0 < i64::MAX,
    ensures
        ({
            let answer = crate::world::join_request(
                m,
                parent,
                first_due,
                timing,
                id,
                subscriptions,
            ).answer;
            let open = if m.tick == 0 {
                m.sim_time.0 as int
            } else {
                m.sim_time.0 + 1
            };
            match crate::ids::parse_path(parent) {
                Err(part) => answer == Err::<Seq<Seq<char>>, ConductorErrorModel>(
                    ConductorErrorModel::BadPath(part),
                ),
                Ok(home) => {
                    let path = home.push(id);
                    if first_due.0 < open {
                        answer == Err::<Seq<Seq<char>>, ConductorErrorModel>(
                            ConductorErrorModel::JoinInThePast {
                                path,
                                first_due,
                                earliest_open: SimTime(open as i64),
                            },
                        )
                    } else if timing.budget is Some && timing.timeout is Some
                        && timing.budget->0.nanos >= timing.timeout->0.nanos {
                        answer == Err::<Seq<Seq<char>>, ConductorErrorModel>(
                            ConductorErrorModel::UnreachableStepBudget {
                                path,
                                budget: timing.budget->0,
                                timeout: timing.timeout->0,
                            },
                        )
                    } else if first_due.0 == open && crate::registry::add_error(
                        m.registry,
                        path,
                    ) is Some {
                        answer == Err::<Seq<Seq<char>>, ConductorErrorModel>(
                            crate::registry::add_error(m.registry, path)->0,
                        )
                    } else {
                        answer == Ok::<Seq<Seq<char>>, ConductorErrorModel>(path)
                    }
                },
            }
        }),
{
}

/// A join that is accepted for the earliest open instant is admitted at once;
/// one for a later instant waits behind whoever waits for no later than it,
/// and all that happens is that the request is noted.
pub proof fn law_a_join_is_admitted_or_waits(
    m: WorldModel,
    parent: Seq<char>,
    first_due: SimTime,
    timing: StepTiming,
    id: Seq<char>,
    subscriptions: Seq<Seq<char>>,
)
    requires
        crate::world::join_request(m, parent, first_due, timing, id, subscriptions).answer is Ok,
    ensures
        ({
            let after = crate::world::join_request(
                m,
                parent,
                first_due,
                timing,
                id,
                subscriptions,
            );
            let join = JoinModel { path: after.answer->Ok_0, timing, subscriptions };
            let open = if m.tick == 0 {
                m.sim_time.0 as int
            } else {
                m.sim_time.0 + 1
            };
            if first_due.0 == open {
                after.world == crate::world::joined(m, first_due.0, join)
            } else {
                after.world == (WorldModel {
                    joins: crate::queue::enqueued(m.joins, first_due.0, join),
                    history: m.history.push(
                        EffectModel::Observation(
                            ObservationModel::JoinRequested {
                                path: crate::ids::path_text(join.path),
                                first_due,
                            },
                        ),
                    ),
                    ..m
                })
            }
        }),
{
}

/// Who joins takes a slot behind everyone who was declared before it, with
/// nothing stepped, nothing published and nothing missed, under a seed of its
/// own; its first step is due at the instant it named, beside everything that
/// was due before; and its joining is announced. Nobody else is touched.
pub proof fn law_what_joining_does(m: WorldModel, first_due: i64, join: JoinModel)
    requires
        coherent(m),
        m.registry.entries.len() < usize::MAX,
    ensures
        ({
            let after = crate::world::joined(m, first_due, join);
            let n = m.registry.entries.len() as int;
            &&& after.registry.entries.len() == n + 1
            &&& forall|i: int|
                0 <= i < n ==> after.registry.entries[i] == #[trigger] m.registry.entries[i]
            &&& after.registry.entries[n] == Some(
                EntryModel {
                    path: join.path,
                    last_step: None,
                    next_seq: 0,
                    component_seed: crate::seed::component_seed(m.seed, join.path),
                    timing: join.timing,
                    budget_misses: 0,
                },
            )
            &&& forall|d: Due| #[trigger]
                after.schedule.contains(d) <==> m.schedule.contains(d) || d == (
                    first_due,
                    n as usize,
                )
            &&& after.history == m.history.push(
                EffectModel::Membership(
                    MembershipModel::Joined {
                        path: crate::ids::path_text(join.path),
                        first_due: SimTime(first_due),
                    },
                ),
            )
            &&& after.mail == crate::transport::all_subscribed(
                m.mail,
                join.path,
                join.subscriptions,
            )
            &&& after == (WorldModel {
                registry: after.registry,
                schedule: after.schedule,
                mail: after.mail,
                history: after.history,
                ..m
            })
        }),
{
    crate::schedule::lemma_inserted(m.schedule, (first_due, m.registry.entries.len() as usize));
}

// ---------------------------------------------------------------------------
// Leaving
// ---------------------------------------------------------------------------

/// Who leaves gives up its slot and everything that was due for it and
/// nothing else, and its leaving is announced with the instant it was for.
/// Nobody else is touched.
pub proof fn law_what_leaving_does(
    m: WorldModel,
    path: Seq<Seq<char>>,
    slot: int,
    leaves_at: i64,
)
    requires
        coherent(m),
        is_live(m.registry.entries, slot),
        m.registry.entries[slot]->0.path == path,
    ensures
        ({
            let after = crate::world::gone(m, path, leaves_at);
            &&& after.registry.entries.len() == m.registry.entries.len()
            &&& after.registry.entries[slot] is None
            &&& forall|i: int|
                0 <= i < m.registry.entries.len() && i != slot ==> after.registry.entries[i]
                    == #[trigger] m.registry.entries[i]
            &&& forall|d: Due| #[trigger]
                after.schedule.contains(d) <==> m.schedule.contains(d) && d.1 != slot
            &&& after.history == m.history.push(
                EffectModel::Membership(
                    MembershipModel::Left {
                        path: crate::ids::path_text(path),
                        leaves_at: SimTime(leaves_at),
                    },
                ),
            )
            &&& after == (WorldModel {
                registry: after.registry,
                schedule: after.schedule,
                mail: after.mail,
                history: after.history,
                ..m
            })
            &&& after.mail == crate::transport::unsubscribed(m.mail, path)
        }),
{
    assert(crate::registry::stands_at(m.registry.entries, slot, path));
    crate::registry::lemma_slot(m.registry, path, slot);
    crate::schedule::law_removal_leaves_others_untouched(m.schedule, slot as usize);
}

/// A leave for a path where nobody is takes the first join that waits for
/// that path out of the queue, and announces nothing; where none waits it
/// changes nothing at all.
pub proof fn law_a_leave_withdraws_who_has_not_joined(
    m: WorldModel,
    path: Seq<Seq<char>>,
    leaves_at: i64,
)
    requires
        forall|i: int|
            is_live(m.registry.entries, i) ==> (#[trigger] m.registry.entries[i])->0.path != path,
    ensures
        ({
            let after = crate::world::gone(m, path, leaves_at);
            &&& (forall|i: int| 0 <= i < m.joins.len() ==> (#[trigger] m.joins[i]).1.path != path)
                ==> after == m
            &&& forall|k: int|
                0 <= k < m.joins.len() && (#[trigger] m.joins[k]).1.path == path && (forall|i: int|
                    0 <= i < k ==> (#[trigger] m.joins[i]).1.path != path) ==> after
                    == (WorldModel { joins: m.joins.remove(k), ..m })
        }),
{
    if crate::registry::is_registered(m.registry.entries, path) {
        let i = choose|i: int| crate::registry::stands_at(m.registry.entries, i, path);
        assert(is_live(m.registry.entries, i));
        assert(m.registry.entries[i]->0.path != path);
    }
    crate::coherence::lemma_join_place(m.joins, path);
    let place = crate::world::join_place(m.joins, path) as int;
    assert forall|k: int|
        0 <= k < m.joins.len() && (#[trigger] m.joins[k]).1.path == path && (forall|i: int|
            0 <= i < k ==> (#[trigger] m.joins[i]).1.path != path) implies k == place by {
        if place < k {
            assert(m.joins[place].1.path != path);
        }
    }
}

proof fn lemma_beneath(
    entries: Seq<Option<EntryModel>>,
    path: Seq<Seq<char>>,
    who: Seq<Seq<char>>,
)
    ensures
        crate::registry::beneath(entries, path).contains(who) <==> crate::tree::is_above(path, who)
            && exists|i: int| is_live(entries, i) && (#[trigger] entries[i])->0.path == who,
    decreases entries.len(),
{
    if entries.len() > 0 {
        let front = entries.drop_last();
        let earlier = crate::registry::beneath(front, path);
        let all = crate::registry::beneath(entries, path);
        lemma_beneath(front, path, who);
        if all.contains(who) {
            let k = choose|k: int| 0 <= k < all.len() && all[k] == who;
            if k < earlier.len() {
                assert(earlier[k] == who);
                let i = choose|i: int| is_live(front, i) && (#[trigger] front[i])->0.path == who;
                assert(entries[i] == front[i]);
                assert(is_live(entries, i));
            } else {
                assert(is_live(entries, entries.len() - 1));
                assert(entries[entries.len() - 1]->0.path == who);
            }
        }
        if crate::tree::is_above(path, who) && exists|i: int|
            is_live(entries, i) && (#[trigger] entries[i])->0.path == who {
            let i = choose|i: int| is_live(entries, i) && (#[trigger] entries[i])->0.path == who;
            if i < front.len() {
                assert(front[i] == entries[i]);
                assert(is_live(front, i));
                let k = choose|k: int| 0 <= k < earlier.len() && earlier[k] == who;
                assert(all[k] == who);
            } else {
                assert(all[all.len() - 1] == who);
            }
        }
    }
}

proof fn lemma_promised(
    joins: Seq<(i64, JoinModel)>,
    path: Seq<Seq<char>>,
    who: Seq<Seq<char>>,
)
    ensures
        crate::world::promised(joins, path).contains(who) <==> crate::tree::is_prefix(path, who)
            && exists|i: int| 0 <= i < joins.len() && (#[trigger] joins[i]).1.path == who,
    decreases joins.len(),
{
    if joins.len() > 0 {
        let front = joins.drop_last();
        let earlier = crate::world::promised(front, path);
        let all = crate::world::promised(joins, path);
        lemma_promised(front, path, who);
        if all.contains(who) {
            let k = choose|k: int| 0 <= k < all.len() && all[k] == who;
            if k < earlier.len() {
                assert(earlier[k] == who);
                let i = choose|i: int| 0 <= i < front.len() && (#[trigger] front[i]).1.path == who;
                assert(joins[i] == front[i]);
            } else {
                assert(joins[joins.len() - 1].1.path == who);
            }
        }
        if crate::tree::is_prefix(path, who) && exists|i: int|
            0 <= i < joins.len() && (#[trigger] joins[i]).1.path == who {
            let i = choose|i: int| 0 <= i < joins.len() && (#[trigger] joins[i]).1.path == who;
            if i < front.len() {
                assert(front[i] == joins[i]);
                let k = choose|k: int| 0 <= k < earlier.len() && earlier[k] == who;
                assert(all[k] == who);
            } else {
                assert(all[all.len() - 1] == who);
            }
        }
    }
}

/// Who departs when a path is asked to leave: where a component stands at the
/// path, that one alone; where none does, every component beneath the path
/// and everyone whose join at the path or beneath it still waits.
pub proof fn law_who_departs(m: WorldModel, path: Seq<Seq<char>>, who: Seq<Seq<char>>)
    ensures
        (exists|i: int|
            is_live(m.registry.entries, i) && (#[trigger] m.registry.entries[i])->0.path == path)
            ==> crate::world::departing(m, path) == seq![path],
        !(exists|i: int|
            is_live(m.registry.entries, i) && (#[trigger] m.registry.entries[i])->0.path == path)
            ==> (crate::world::departing(m, path).contains(who) <==> leads_to(path, who) && ((
        exists|i: int|
            is_live(m.registry.entries, i) && (#[trigger] m.registry.entries[i])->0.path == who)
            || (exists|i: int| 0 <= i < m.joins.len() && (#[trigger] m.joins[i]).1.path == who))),
{
    let entries = m.registry.entries;
    if exists|i: int| is_live(entries, i) && (#[trigger] entries[i])->0.path == path {
        let i = choose|i: int| is_live(entries, i) && (#[trigger] entries[i])->0.path == path;
        assert(crate::registry::stands_at(entries, i, path));
    } else {
        if crate::registry::is_registered(entries, path) {
            let i = choose|i: int| crate::registry::stands_at(entries, i, path);
            assert(is_live(entries, i) && entries[i]->0.path == path);
        }
        lemma_beneath(entries, path, who);
        lemma_promised(m.joins, path, who);
        lemma_leads_to(path, who);
        let a = crate::registry::beneath(entries, path);
        let b = crate::world::promised(m.joins, path);
        let all = crate::world::departing(m, path);
        assert(all == a + b);
        if all.contains(who) {
            let k = choose|k: int| 0 <= k < all.len() && all[k] == who;
            if k < a.len() {
                assert(a[k] == who);
            } else {
                assert(b[k - a.len()] == who);
            }
        }
        if a.contains(who) {
            let k = choose|k: int| 0 <= k < a.len() && a[k] == who;
            assert(all[k] == who);
        }
        if b.contains(who) {
            let k = choose|k: int| 0 <= k < b.len() && b[k] == who;
            assert(all[a.len() + k] == who);
        }
    }
}

/// The components beneath a path depart in the order they were declared.
pub proof fn law_components_depart_in_declared_order(
    entries: Seq<Option<EntryModel>>,
    path: Seq<Seq<char>>,
    i: int,
    j: int,
) -> (places: (int, int))
    requires
        i < j,
        is_live(entries, i),
        is_live(entries, j),
        leads_to(path, entries[i]->0.path),
        path != entries[i]->0.path,
        leads_to(path, entries[j]->0.path),
        path != entries[j]->0.path,
    ensures
        0 <= places.0 < places.1 < crate::registry::beneath(entries, path).len(),
        crate::registry::beneath(entries, path)[places.0] == entries[i]->0.path,
        crate::registry::beneath(entries, path)[places.1] == entries[j]->0.path,
    decreases entries.len(),
{
    let front = entries.drop_last();
    let earlier = crate::registry::beneath(front, path);
    let all = crate::registry::beneath(entries, path);
    assert(front[i] == entries[i]);
    if j < front.len() {
        assert(front[j] == entries[j]);
        let places = law_components_depart_in_declared_order(front, path, i, j);
        assert(all[places.0] == earlier[places.0]);
        assert(all[places.1] == earlier[places.1]);
        places
    } else {
        lemma_leads_to(path, entries[j]->0.path);
        lemma_leads_to(path, entries[i]->0.path);
        lemma_beneath(front, path, entries[i]->0.path);
        assert(is_live(front, i));
        let k = choose|k: int| 0 <= k < earlier.len() && earlier[k] == entries[i]->0.path;
        assert(all[k] == earlier[k]);
        (k, all.len() - 1)
    }
}

/// What comes of a leave request. A text that is no path is refused for the
/// part that is none; a path where nobody is and nobody waits to be is
/// refused as unknown; an instant that has been is refused and told the
/// earliest that is open. Anything else is accepted and noted: for no instant
/// everyone who departs is gone at once, at the earliest open instant; for an
/// instant each of them waits for it.
pub proof fn law_what_a_leave_request_is_answered(
    m: WorldModel,
    asked: Seq<char>,
    leaves_at: Option<SimTime>,
)
    requires
        m.tick == 0 || m.sim_time.0 < i64::MAX,
    ensures
        ({
            let after = crate::world::leave_request(m, asked, leaves_at);
            let open = if m.tick == 0 {
                m.sim_time.0 as int
            } else {
                m.sim_time.0 + 1
            };
            let noted = WorldModel {
                history: m.history.push(
                    EffectModel::Observation(
                        ObservationModel::LeaveRequested { path: asked, leaves_at },
                    ),
                ),
                ..m
            };
            match crate::ids::parse_path(asked) {
                Err(part) => after.answer == Err::<(), ConductorErrorModel>(
                    ConductorErrorModel::BadPath(part),
                ),
                Ok(path) => {
                    let who = crate::world::departing(m, path);
                    if who.len() == 0 {
                        after.answer == Err::<(), ConductorErrorModel>(
                            ConductorErrorModel::UnknownPath(path),
                        )
                    } else {
                        match leaves_at {
                            None => after.answer is Ok && after.world == crate::world::all_gone(
                                noted,
                                who,
                                open as i64,
                            ),
                            Some(instant) => if instant.0 < open {
                                after.answer == Err::<(), ConductorErrorModel>(
                                    ConductorErrorModel::LeaveInThePast {
                                        path: who[0],
                                        leaves_at: instant,
                                        earliest_open: SimTime(open as i64),
                                    },
                                )
                            } else {
                                after.answer is Ok && after.world == (WorldModel {
                                    leaves: crate::world::all_queued(m.leaves, instant.0, who),
                                    ..noted
                                })
                            },
                        }
                    }
                },
            }
        }),
{
    let noted = WorldModel {
        history: m.history.push(
            EffectModel::Observation(ObservationModel::LeaveRequested { path: asked, leaves_at }),
        ),
        ..m
    };
    assert(crate::world::leave_noted(m, asked, leaves_at).history =~= noted.history);
}

/// Leaves take effect one after the other, and are queued one after the
/// other.
pub proof fn law_leaves_are_taken_one_by_one(
    m: WorldModel,
    paths: Seq<Seq<Seq<char>>>,
    last: Seq<Seq<char>>,
    instant: i64,
)
    ensures
        crate::world::all_gone(m, Seq::<Seq<Seq<char>>>::empty(), instant) == m,
        crate::world::all_gone(m, paths.push(last), instant) == crate::world::gone(
            crate::world::all_gone(m, paths, instant),
            last,
            instant,
        ),
        crate::world::all_queued(m.leaves, instant, Seq::<Seq<Seq<char>>>::empty()) == m.leaves,
        crate::world::all_queued(m.leaves, instant, paths.push(last)) == crate::queue::enqueued(
            crate::world::all_queued(m.leaves, instant, paths),
            instant,
            last,
        ),
{
    assert(paths.push(last).drop_last() =~= paths);
}

} // verus!
