//! What a conducted world is, and what every operation of the conductor
//! makes of it.
//!
//! A [`WorldModel`] is a plain value. Every operation is a function from a
//! world and what the outside replied to the next world, so two runs that get
//! the same requests and the same replies are the same run.
use vstd::prelude::*;

use crate::conductor_error::ConductorErrorModel;
use crate::error::CoreError;
use crate::messages::{MessageModel, TickStart};
use crate::record::{MembershipModel, ObservationModel, TickFingerprint};
use crate::registry::{EntryModel, RegistryModel};
use crate::schedule::Due;
use crate::time::{SimDuration, SimTime};
use crate::timing::{OnTimeout, StepTiming, WallDuration};
use crate::transport::MailboxModel;

verus! {

/// Something the conductor hands to the outside.
pub enum EffectModel {
    /// A component is asked to step.
    Step(CallModel),
    /// A message is published.
    Publish(MessageModel),
    /// A component joined or left.
    Membership(MembershipModel),
    /// Something worth noting about the run, and no part of it.
    Observation(ObservationModel),
    /// An instant is entered.
    TickStart(TickStart),
    /// A component finished its step.
    TickDone { tick: u64, component: Seq<char>, next_due: SimTime },
    /// An instant is done, and this is its fingerprint.
    Tick(TickFingerprint),
}

/// What a component is told when it is asked to step.
#[verifier::ext_equal]
pub struct CallModel {
    pub path: Seq<Seq<char>>,
    pub now: SimTime,
    /// How long ago its previous step was, if there was one.
    pub dt: Option<SimDuration>,
    pub world_name: Seq<char>,
    pub component_seed: u64,
    /// The messages it may read.
    pub inbox: Seq<MessageModel>,
}

/// A join that waits for its instant.
#[verifier::ext_equal]
pub struct JoinModel {
    pub path: Seq<Seq<char>>,
    pub timing: StepTiming,
    pub subscriptions: Seq<Seq<char>>,
}

/// A conducted world.
#[verifier::ext_equal]
pub struct WorldModel {
    pub name: Seq<char>,
    pub seed: u64,
    pub registry: RegistryModel,
    pub schedule: Seq<Due>,
    /// Leaves that wait for their instant.
    pub leaves: Seq<(i64, Seq<Seq<char>>)>,
    /// Joins that wait for their instant.
    pub joins: Seq<(i64, JoinModel)>,
    /// What the transport holds for whom.
    pub mail: Seq<MailboxModel>,
    pub sim_time: SimTime,
    pub tick: u64,
    pub world_hash: u64,
    /// Everything handed to the outside so far, in order.
    pub history: Seq<EffectModel>,
}

/// A world that nothing has joined yet, on a transport. The seed and the name
/// are folded into the hash, so that runs with different ones differ from the
/// start.
pub open spec fn fresh_world(
    name: Seq<char>,
    seed: u64,
    mail: Seq<MailboxModel>,
) -> WorldModel {
    WorldModel {
        name,
        seed,
        registry: RegistryModel { entries: Seq::empty(), children: Map::empty() },
        schedule: Seq::empty(),
        leaves: Seq::empty(),
        joins: Seq::empty(),
        mail,
        sim_time: SimTime(0),
        tick: 0,
        world_hash: crate::seed::mixed(
            seed,
            crate::hash::hash_of(vstd::utf8::encode_utf8(name)),
        ),
        history: Seq::empty(),
    }
}

/// The world with more handed to the outside.
pub open spec fn told(m: WorldModel, effects: Seq<EffectModel>) -> WorldModel {
    WorldModel { history: m.history + effects, ..m }
}

/// The earliest instant that membership can still change for. Nothing has
/// stepped before the first tick, so the opening instant is open; afterwards
/// the instant at `sim_time` has been stepped.
pub open spec fn earliest_open(m: WorldModel) -> int {
    if m.tick == 0 {
        m.sim_time.0 as int
    } else {
        m.sim_time.0 + 1
    }
}

/// The earliest instant that anything is due at: a scheduled step, or a join
/// that waits for its first one.
pub open spec fn next_due(m: WorldModel) -> Option<i64> {
    match crate::schedule::earliest_of(m.schedule) {
        Some(scheduled) => if m.joins.len() > 0 && m.joins[0].0 < scheduled {
            Some(m.joins[0].0)
        } else {
            Some(scheduled)
        },
        None => if m.joins.len() > 0 {
            Some(m.joins[0].0)
        } else {
            None
        },
    }
}

// ---------------------------------------------------------------------------
// Leaving
// ---------------------------------------------------------------------------

/// The world without a registered component: it is not scheduled, its path is
/// free, it receives nothing more, and its departure is announced.
pub open spec fn left(m: WorldModel, path: Seq<Seq<char>>, leaves_at: i64) -> WorldModel {
    WorldModel {
        registry: crate::registry::removed(m.registry, path),
        schedule: crate::schedule::without(
            m.schedule,
            crate::registry::slot_of(m.registry.entries, path) as usize,
        ),
        mail: crate::transport::unsubscribed(m.mail, path),
        history: m.history.push(
            EffectModel::Membership(
                MembershipModel::Left {
                    path: crate::ids::path_text(path),
                    leaves_at: SimTime(leaves_at),
                },
            ),
        ),
        ..m
    }
}

/// The place of the first waiting join for a path, or the end.
pub open spec fn join_place(joins: Seq<(i64, JoinModel)>, path: Seq<Seq<char>>) -> nat
    decreases joins.len(),
{
    if joins.len() == 0 || joins[0].1.path == path {
        0
    } else {
        1 + join_place(joins.drop_first(), path)
    }
}

/// The world without the first join that waits for a path. Nobody heard of
/// it, so nothing is announced.
pub open spec fn withdrawn(m: WorldModel, path: Seq<Seq<char>>) -> WorldModel {
    let place = join_place(m.joins, path) as int;
    if place < m.joins.len() {
        WorldModel { joins: m.joins.remove(place), ..m }
    } else {
        m
    }
}

/// The world after a leave takes effect: the component at the path is what
/// leaves, and only where there is none a join that waits for the path. A
/// leave that finds neither is already satisfied.
pub open spec fn gone(m: WorldModel, path: Seq<Seq<char>>, leaves_at: i64) -> WorldModel {
    if crate::registry::is_registered(m.registry.entries, path) {
        left(m, path, leaves_at)
    } else {
        withdrawn(m, path)
    }
}

/// The world after several leaves take effect, in order.
pub open spec fn all_gone(m: WorldModel, paths: Seq<Seq<Seq<char>>>, leaves_at: i64) -> WorldModel
    decreases paths.len(),
{
    if paths.len() == 0 {
        m
    } else {
        gone(all_gone(m, paths.drop_last(), leaves_at), paths.last(), leaves_at)
    }
}

/// The world after the leave at the front of the queue takes effect.
pub open spec fn front_gone(m: WorldModel) -> WorldModel {
    gone(WorldModel { leaves: m.leaves.drop_first(), ..m }, m.leaves[0].1, m.leaves[0].0)
}

/// Whether the leave at the front of the queue has come due: something is due
/// no later than `limit`, and the leave is for no later than that.
pub open spec fn leave_is_due(m: WorldModel, limit: i64) -> bool {
    m.leaves.len() > 0 && (next_due(m) matches Some(next) && next <= limit && m.leaves[0].0
        <= next)
}

/// The world once every leave that has come due has taken effect. A leave can
/// empty the instant it was due at, so what is due next is read anew each
/// time.
pub open spec fn settled(m: WorldModel, limit: i64) -> WorldModel
    decreases m.leaves.len(),
{
    if leave_is_due(m, limit) {
        settled(front_gone(m), limit)
    } else {
        m
    }
}

// ---------------------------------------------------------------------------
// Joining
// ---------------------------------------------------------------------------

/// The world with a component registered, subscribed, scheduled for its first
/// step, and announced.
pub open spec fn joined(m: WorldModel, first_due: i64, join: JoinModel) -> WorldModel {
    WorldModel {
        registry: crate::registry::added(m.registry, join.path, m.seed, join.timing),
        schedule: crate::schedule::inserted(
            m.schedule,
            (first_due, m.registry.entries.len() as usize),
        ),
        mail: crate::transport::all_subscribed(m.mail, join.path, join.subscriptions),
        history: m.history.push(
            EffectModel::Membership(
                MembershipModel::Joined {
                    path: crate::ids::path_text(join.path),
                    first_due: SimTime(first_due),
                },
            ),
        ),
        ..m
    }
}

/// A world, and what stopped it if anything did.
pub struct Outcome {
    pub world: WorldModel,
    pub error: Option<ConductorErrorModel>,
}

/// The world after a component is admitted, or why it is not.
pub open spec fn admission(m: WorldModel, first_due: i64, join: JoinModel) -> Outcome {
    match crate::registry::add_error(m.registry, join.path) {
        Some(error) => Outcome { world: m, error: Some(error) },
        None => Outcome { world: joined(m, first_due, join), error: None },
    }
}

/// The world once every join for no later than `instant` is admitted, first
/// come first served. A join that is refused is spent, and stops there.
pub open spec fn admitted(m: WorldModel, instant: i64) -> Outcome
    decreases m.joins.len(),
{
    if m.joins.len() > 0 && m.joins[0].0 <= instant {
        let next = admission(
            WorldModel { joins: m.joins.drop_first(), ..m },
            m.joins[0].0,
            m.joins[0].1,
        );
        if next.error is Some {
            next
        } else {
            admitted(next.world, instant)
        }
    } else {
        Outcome { world: m, error: None }
    }
}

/// The world at the boundary before the next instant: leaves settle first,
/// then joins, so a path that is freed for an instant is free for whoever
/// declared that instant.
pub open spec fn boundary(m: WorldModel) -> Outcome {
    let ready = settled(m, i64::MAX);
    match next_due(ready) {
        Some(next) => admitted(ready, next),
        None => Outcome { world: ready, error: None },
    }
}

// ---------------------------------------------------------------------------
// Requests
// ---------------------------------------------------------------------------

/// What a request comes to: the world after it, and its answer.
pub struct Answer<A> {
    pub world: WorldModel,
    pub answer: Result<A, ConductorErrorModel>,
}

/// A join request, for a component that names itself `id` and asks for
/// `subscriptions`. A rejected one leaves no trace. One for the earliest open
/// instant is admitted here; one for a later instant waits for it, and is
/// noted.
pub open spec fn join_request(
    m: WorldModel,
    parent: Seq<char>,
    first_due: SimTime,
    timing: StepTiming,
    id: Seq<char>,
    subscriptions: Seq<Seq<char>>,
) -> Answer<Seq<Seq<char>>> {
    match crate::ids::parse_path(parent) {
        Err(part) => Answer { world: m, answer: Err(ConductorErrorModel::BadPath(part)) },
        Ok(home) => {
            let path = home.push(id);
            if first_due.0 < earliest_open(m) {
                Answer {
                    world: m,
                    answer: Err(
                        ConductorErrorModel::JoinInThePast {
                            path,
                            first_due,
                            earliest_open: SimTime(earliest_open(m) as i64),
                        },
                    ),
                }
            } else {
                match crate::timing::unreachable_pair(timing) {
                    Some((budget, timeout)) => Answer {
                        world: m,
                        answer: Err(
                            ConductorErrorModel::UnreachableStepBudget { path, budget, timeout },
                        ),
                    },
                    None => accepted_join(
                        m,
                        first_due,
                        JoinModel { path, timing, subscriptions },
                    ),
                }
            }
        },
    }
}

/// A join request that is in order: admitted at once, or queued.
pub open spec fn accepted_join(m: WorldModel, first_due: SimTime, join: JoinModel) -> Answer<
    Seq<Seq<char>>,
> {
    if first_due.0 == earliest_open(m) {
        let next = admission(m, first_due.0, join);
        Answer {
            world: next.world,
            answer: match next.error {
                Some(error) => Err(error),
                None => Ok(join.path),
            },
        }
    } else {
        Answer {
            world: WorldModel {
                joins: crate::queue::enqueued(m.joins, first_due.0, join),
                history: m.history.push(
                    EffectModel::Observation(
                        ObservationModel::JoinRequested {
                            path: crate::ids::path_text(join.path),
                            first_due,
                        },
                    ),
                ),
                ..m
            },
            answer: Ok(join.path),
        }
    }
}

/// The paths that joins wait for at or under a path, in the order they wait.
pub open spec fn promised(joins: Seq<(i64, JoinModel)>, path: Seq<Seq<char>>) -> Seq<
    Seq<Seq<char>>,
>
    decreases joins.len(),
{
    if joins.len() == 0 {
        Seq::empty()
    } else {
        let earlier = promised(joins.drop_last(), path);
        if crate::tree::is_prefix(path, joins.last().1.path) {
            earlier.push(joins.last().1.path)
        } else {
            earlier
        }
    }
}

/// Who departs when a path is asked to leave: the component at it, or else
/// every component beneath it in the order they were declared, and every join
/// that waits at or under it.
pub open spec fn departing(m: WorldModel, path: Seq<Seq<char>>) -> Seq<Seq<Seq<char>>> {
    if crate::registry::is_registered(m.registry.entries, path) {
        seq![path]
    } else {
        crate::registry::beneath(m.registry.entries, path) + promised(m.joins, path)
    }
}

/// Leaves queued for one instant, in order.
pub open spec fn all_queued(
    leaves: Seq<(i64, Seq<Seq<char>>)>,
    time: i64,
    paths: Seq<Seq<Seq<char>>>,
) -> Seq<(i64, Seq<Seq<char>>)>
    decreases paths.len(),
{
    if paths.len() == 0 {
        leaves
    } else {
        crate::queue::enqueued(all_queued(leaves, time, paths.drop_last()), time, paths.last())
    }
}

/// The world once a leave request is noted.
pub open spec fn leave_noted(
    m: WorldModel,
    asked: Seq<char>,
    leaves_at: Option<SimTime>,
) -> WorldModel {
    told(
        m,
        seq![
            EffectModel::Observation(ObservationModel::LeaveRequested { path: asked, leaves_at }),
        ],
    )
}

/// A leave request. One for no instant takes effect at once, at the earliest
/// open instant; one for an instant waits for it.
pub open spec fn leave_request(
    m: WorldModel,
    asked: Seq<char>,
    leaves_at: Option<SimTime>,
) -> Answer<()> {
    match crate::ids::parse_path(asked) {
        Err(part) => Answer { world: m, answer: Err(ConductorErrorModel::BadPath(part)) },
        Ok(path) => {
            let who = departing(m, path);
            let noted = leave_noted(m, asked, leaves_at);
            if who.len() == 0 {
                Answer { world: m, answer: Err(ConductorErrorModel::UnknownPath(path)) }
            } else {
                match leaves_at {
                    None => Answer {
                        world: all_gone(noted, who, earliest_open(m) as i64),
                        answer: Ok(()),
                    },
                    Some(time) => if time.0 < earliest_open(m) {
                        Answer {
                            world: m,
                            answer: Err(
                                ConductorErrorModel::LeaveInThePast {
                                    path: who[0],
                                    leaves_at: time,
                                    earliest_open: SimTime(earliest_open(m) as i64),
                                },
                            ),
                        }
                    } else {
                        Answer {
                            world: WorldModel {
                                leaves: all_queued(noted.leaves, time.0, who),
                                ..noted
                            },
                            answer: Ok(()),
                        }
                    },
                }
            }
        },
    }
}

// ---------------------------------------------------------------------------
// Stepping
// ---------------------------------------------------------------------------

/// What a component's step came to, and how long it took.
pub struct ReplyModel {
    pub outcome: Result<SimTime, CoreError>,
    pub outbox: Seq<(Seq<char>, Seq<u8>)>,
    pub state: Option<Seq<u8>>,
    pub took: WallDuration,
}

/// A variable-length field of the fingerprint: its length, then its bytes, so
/// that no field runs into the next.
pub open spec fn field(bytes: Seq<u8>) -> Seq<u8> {
    crate::hash::le_bytes(bytes.len() as u64) + bytes
}

/// What a published message adds to the fingerprint.
pub open spec fn message_bytes(key: Seq<char>, seq: u64, payload: Seq<u8>) -> Seq<u8> {
    field(vstd::utf8::encode_utf8(key)) + crate::hash::le_bytes(seq) + field(payload)
}

/// What everything a step published adds to the fingerprint.
pub open spec fn outbox_bytes(first_seq: u64, outbox: Seq<(Seq<char>, Seq<u8>)>) -> Seq<u8>
    decreases outbox.len(),
{
    if outbox.len() == 0 {
        Seq::empty()
    } else {
        outbox_bytes(first_seq, outbox.drop_last()) + message_bytes(
            outbox.last().0,
            first_seq.wrapping_add((outbox.len() - 1) as u64),
            outbox.last().1,
        )
    }
}

/// What a component's exposed state adds to the fingerprint.
pub open spec fn state_field(state: Option<Seq<u8>>) -> Seq<u8> {
    match state {
        Some(bytes) => field(bytes),
        None => Seq::empty(),
    }
}

/// What a step adds to the fingerprint: who stepped, when it is next due,
/// what it published, and its state where it exposes it.
pub open spec fn step_bytes(
    path: Seq<Seq<char>>,
    next_due: SimTime,
    first_seq: u64,
    outbox: Seq<(Seq<char>, Seq<u8>)>,
    state: Option<Seq<u8>>,
) -> Seq<u8> {
    field(vstd::utf8::encode_utf8(crate::ids::path_text(path))) + crate::hash::le_bytes(
        next_due.0 as u64,
    ) + outbox_bytes(first_seq, outbox) + state_field(state)
}

/// What an instant's fingerprint starts with.
pub open spec fn opening_bytes(tick: u64, now: SimTime) -> Seq<u8> {
    crate::hash::le_bytes(tick) + crate::hash::le_bytes(now.0 as u64)
}

/// The messages a step published, with their publisher, their numbers in the
/// publisher's own count, and the instant.
pub open spec fn stamped(
    path: Seq<Seq<char>>,
    now: SimTime,
    first_seq: u64,
    outbox: Seq<(Seq<char>, Seq<u8>)>,
) -> Seq<MessageModel> {
    Seq::new(
        outbox.len(),
        |i: int|
            MessageModel {
                key: outbox[i].0,
                publisher: path,
                seq: first_seq.wrapping_add(i as u64),
                sim_time: now,
                payload: outbox[i].1,
            },
    )
}

/// Messages as what publishing them hands to the outside.
pub open spec fn publishes(messages: Seq<MessageModel>) -> Seq<EffectModel> {
    Seq::new(messages.len(), |i: int| EffectModel::Publish(messages[i]))
}

/// The messages that were published in the course of what happened, in
/// order.
pub open spec fn published_in(history: Seq<EffectModel>) -> Seq<MessageModel>
    decreases history.len(),
{
    if history.len() == 0 {
        Seq::empty()
    } else {
        let earlier = published_in(history.drop_last());
        match history.last() {
            EffectModel::Publish(message) => earlier.push(message),
            _ => earlier,
        }
    }
}

/// One more thing that happens is one more message, if it is a message that
/// is published.
pub proof fn lemma_published_on(history: Seq<EffectModel>, effect: EffectModel)
    ensures
        published_in(history.push(effect)) == (match effect {
            EffectModel::Publish(message) => published_in(history).push(message),
            _ => published_in(history),
        }),
{
    assert(history.push(effect).drop_last() =~= history);
}

/// An instant that is being stepped: the world, what its fingerprint covers so
/// far, and what stopped it if anything did.
pub struct TickModel {
    pub world: WorldModel,
    pub bytes: Seq<u8>,
    pub error: Option<ConductorErrorModel>,
}

/// The instant at the front of the schedule, entered.
pub open spec fn opened(m: WorldModel) -> TickModel {
    let now = SimTime(m.schedule[0].0);
    let tick = (m.tick + 1) as u64;
    TickModel {
        world: WorldModel {
            schedule: crate::schedule::after_first(m.schedule),
            sim_time: now,
            tick,
            history: m.history.push(EffectModel::TickStart(TickStart { tick, sim_time: now })),
            ..m
        },
        bytes: opening_bytes(tick, now),
        error: None,
    }
}

/// What a step is told: how long ago the component's previous one was.
pub open spec fn since(last_step: Option<SimTime>, now: SimTime) -> Option<SimDuration> {
    match last_step {
        Some(before) => Some(SimDuration((now.0 - before.0) as i64)),
        None => None,
    }
}

/// What a component is told when it is asked to step: the instant, how long
/// ago its previous step was, the world's name, its own seed, and every
/// message that waits for it and is released to it, in order.
pub open spec fn call_of(m: WorldModel, index: usize) -> CallModel {
    let entry = m.registry.entries[index as int]->0;
    CallModel {
        path: entry.path,
        now: m.sim_time,
        dt: since(entry.last_step, m.sim_time),
        world_name: m.name,
        component_seed: entry.component_seed,
        inbox: crate::transport::handed_over(
            m.mail,
            entry.path,
            m.registry.children,
            entry.path,
            m.sim_time,
        ),
    }
}

/// The world once a component is asked to step: what it is told no longer
/// waits for it.
pub open spec fn asked(m: WorldModel, index: usize) -> WorldModel {
    let entry = m.registry.entries[index as int]->0;
    WorldModel {
        mail: crate::transport::left_waiting(
            m.mail,
            entry.path,
            m.registry.children,
            entry.path,
            m.sim_time,
        ),
        history: m.history.push(EffectModel::Step(call_of(m, index))),
        ..m
    }
}

/// The world with a component's bookkeeping changed.
pub open spec fn rebooked(m: WorldModel, index: usize, entry: EntryModel) -> WorldModel {
    WorldModel {
        registry: RegistryModel {
            entries: m.registry.entries.update(index as int, Some(entry)),
            ..m.registry
        },
        ..m
    }
}

/// The world after a step that did what it should: its messages are
/// published, it is booked, and it is scheduled again.
pub open spec fn step_booked(
    m: WorldModel,
    index: usize,
    next_due: SimTime,
    outbox: Seq<(Seq<char>, Seq<u8>)>,
) -> WorldModel {
    let entry = m.registry.entries[index as int]->0;
    let booked = rebooked(
        m,
        index,
        EntryModel {
            last_step: Some(m.sim_time),
            next_seq: entry.next_seq.wrapping_add(outbox.len() as u64),
            ..entry
        },
    );
    let messages = stamped(entry.path, m.sim_time, entry.next_seq, outbox);
    WorldModel {
        schedule: crate::schedule::inserted(m.schedule, (next_due.0, index)),
        mail: crate::transport::all_published(m.mail, messages),
        history: (m.history + publishes(messages)).push(
            EffectModel::TickDone { tick: m.tick, component: entry.path.last(), next_due },
        ),
        ..booked
    }
}

/// The world after a step is held against its budget: a miss is counted and
/// noted, and nothing else.
pub open spec fn budget_judged(m: WorldModel, index: usize, took: WallDuration) -> WorldModel {
    let entry = m.registry.entries[index as int]->0;
    if crate::timing::passes(entry.timing.budget, took) {
        told(
            rebooked(
                m,
                index,
                EntryModel { budget_misses: (entry.budget_misses + 1) as u64, ..entry },
            ),
            seq![
                EffectModel::Observation(
                    ObservationModel::BudgetMissed {
                        path: crate::ids::path_text(entry.path),
                        sim_time: m.sim_time,
                        step: took,
                        budget: entry.timing.budget->0,
                    },
                ),
            ],
        )
    } else {
        m
    }
}

/// The world after a step is held against its timeout: passing it is noted,
/// and then either stops the world or queues the component's leave for the
/// next open instant. Either way what the step did stands.
pub open spec fn timeout_judged(m: WorldModel, index: usize, waited: WallDuration) -> Outcome {
    let entry = m.registry.entries[index as int]->0;
    if crate::timing::passes(entry.timing.timeout, waited) {
        let noted = told(
            m,
            seq![
                EffectModel::Observation(
                    ObservationModel::TimedOut {
                        path: crate::ids::path_text(entry.path),
                        sim_time: m.sim_time,
                        waited,
                        timeout: entry.timing.timeout->0,
                        policy: entry.timing.on_timeout,
                    },
                ),
            ],
        );
        match entry.timing.on_timeout {
            OnTimeout::Halt => Outcome {
                world: noted,
                error: Some(
                    ConductorErrorModel::StepTimeout {
                        path: entry.path,
                        now: m.sim_time,
                        elapsed: waited,
                        timeout: entry.timing.timeout->0,
                    },
                ),
            },
            OnTimeout::Remove => Outcome {
                world: WorldModel {
                    leaves: crate::queue::enqueued(
                        noted.leaves,
                        earliest_open(noted) as i64,
                        entry.path,
                    ),
                    ..noted
                },
                error: None,
            },
        }
    } else {
        Outcome { world: m, error: None }
    }
}

/// An instant after one more component was asked to step, and replied.
pub open spec fn stepped(t: TickModel, index: usize, reply: ReplyModel) -> TickModel {
    applied(TickModel { world: asked(t.world, index), ..t }, index, reply)
}

/// An instant after the reply of a component that was asked to step. A
/// component that cannot do its job, or that schedules itself at or before
/// the instant, stops the world with nothing of its step applied.
pub open spec fn applied(t: TickModel, index: usize, reply: ReplyModel) -> TickModel {
    let entry = t.world.registry.entries[index as int]->0;
    let now = t.world.sim_time;
    let world = t.world;
    match reply.outcome {
        Err(source) => TickModel {
            world,
            error: Some(ConductorErrorModel::StepFailed { path: entry.path, now, source }),
            ..t
        },
        Ok(next_due) => if next_due.0 <= now.0 {
            TickModel {
                world,
                error: Some(
                    ConductorErrorModel::ScheduleViolation { path: entry.path, now, next_due },
                ),
                ..t
            }
        } else {
            let judged = timeout_judged(
                budget_judged(
                    step_booked(world, index, next_due, reply.outbox),
                    index,
                    reply.took,
                ),
                index,
                reply.took,
            );
            TickModel {
                world: judged.world,
                bytes: t.bytes + step_bytes(
                    entry.path,
                    next_due,
                    entry.next_seq,
                    reply.outbox,
                    reply.state,
                ),
                error: judged.error,
            }
        },
    }
}

/// An instant after several components stepped, in order, up to the first
/// that stops the world.
pub open spec fn all_stepped(t: TickModel, due: Seq<usize>, replies: Seq<ReplyModel>) -> TickModel
    decreases due.len(),
{
    if due.len() == 0 {
        t
    } else {
        let before = all_stepped(t, due.drop_last(), replies.drop_last());
        if before.error is Some {
            before
        } else {
            stepped(before, due.last(), replies.last())
        }
    }
}

/// The fingerprint of an instant that is done.
pub open spec fn fingerprint(t: TickModel) -> TickFingerprint {
    let tick_hash = crate::hash::hash_of(t.bytes);
    TickFingerprint {
        tick: t.world.tick,
        sim_time: t.world.sim_time,
        tick_hash,
        world_hash: crate::hash::fnv(t.world.world_hash, crate::hash::le_bytes(tick_hash)),
    }
}

/// The world after an instant that is done: its fingerprint is chained into
/// the world's, and handed out.
pub open spec fn closed(t: TickModel) -> WorldModel {
    WorldModel {
        world_hash: fingerprint(t).world_hash,
        history: t.world.history.push(EffectModel::Tick(fingerprint(t))),
        ..t.world
    }
}

/// What a whole instant comes to, given what its components replied.
pub open spec fn tick_outcome(m: WorldModel, replies: Seq<ReplyModel>) -> TickModel {
    all_stepped(
        opened(m),
        crate::schedule::due_first(m.schedule).take(replies.len() as int),
        replies,
    )
}

/// Whether stepping an instant leads from one world to another: every
/// component that is due replied and the instant is closed, or one of them
/// stopped the world.
pub open spec fn ticks(
    before: WorldModel,
    replies: Seq<ReplyModel>,
    after: WorldModel,
    outcome: Result<bool, ConductorErrorModel>,
) -> bool {
    let t = tick_outcome(before, replies);
    &&& replies.len() <= crate::schedule::due_first(before.schedule).len()
    &&& match t.error {
        Some(error) => outcome == Err::<bool, ConductorErrorModel>(error) && after == t.world,
        None => replies.len() == crate::schedule::due_first(before.schedule).len() && outcome == Ok::<
            bool,
            ConductorErrorModel,
        >(true) && after == closed(t),
    }
}

/// Whether one advance leads from one world to another: the boundary settles,
/// and the instant after it, if there is one, is stepped.
#[verifier::opaque]
pub open spec fn advances(
    before: WorldModel,
    after: WorldModel,
    outcome: Result<bool, ConductorErrorModel>,
) -> bool {
    let ready = boundary(before);
    match ready.error {
        Some(error) => outcome == Err::<bool, ConductorErrorModel>(error) && after == ready.world,
        None => if ready.world.schedule.len() == 0 {
            outcome == Ok::<bool, ConductorErrorModel>(false) && after == ready.world
        } else {
            exists|replies: Seq<ReplyModel>| #[trigger]
                ticks(ready.world, replies, after, outcome)
        },
    }
}

/// Whether a world is one that a run through `end` stops at: nothing is due
/// by then.
pub open spec fn done_by(m: WorldModel, end: i64) -> bool {
    match next_due(m) {
        Some(next) => next > end,
        None => true,
    }
}

/// Whether a world of a run through `end` leads to the one after it: it
/// settles, something is due by then, and that instant is stepped.
pub open spec fn leads_on(worlds: Seq<WorldModel>, i: int, end: i64) -> bool {
    &&& !done_by(settled(worlds[i], end), end)
    &&& advances(
        settled(worlds[i], end),
        worlds[i + 1],
        Ok::<bool, ConductorErrorModel>(true),
    )
}

/// Whether each world of a run through `end` leads to the one after it.
pub open spec fn runs(worlds: Seq<WorldModel>, end: i64) -> bool {
    forall|i: int| 0 <= i < worlds.len() - 1 ==> #[trigger] leads_on(worlds, i, end)
}

/// Whether running through `end` leads from one world to another: instant by
/// instant until nothing is due by then, or until one is refused.
pub open spec fn runs_until(
    before: WorldModel,
    end: i64,
    worlds: Seq<WorldModel>,
    after: WorldModel,
    outcome: Result<(), ConductorErrorModel>,
) -> bool {
    &&& worlds.len() > 0
    &&& worlds[0] == before
    &&& runs(worlds, end)
    &&& match outcome {
        Ok(_) => after == settled(worlds.last(), end) && done_by(after, end),
        Err(error) => !done_by(settled(worlds.last(), end), end) && advances(
            settled(worlds.last(), end),
            after,
            Err::<bool, ConductorErrorModel>(error),
        ),
    }
}

} // verus!
