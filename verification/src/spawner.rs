//! The component that decides which cars exist, and when.
//!
//! It decides but does not act: it publishes requests, and whoever drives the
//! run turns them into cars that join and leave. Deciding within the run is
//! what puts the traffic under the determinism guarantee: the choices come
//! from poses and a seeded stream alone.
//!
//! A spawner asks its road for everything that is measured with floats, and
//! for the bytes of what it publishes. Everything it is told, and everything
//! it asked, is what its contract speaks of.
use vstd::prelude::*;

use crate::actors::FloatBits;
use crate::component::{PublishOutcome, StepCtx, StepCtxModel};
use crate::error::CoreError;
use crate::finite::NonFinite;
use crate::messages::Message;
use crate::random::RandomSplitMix64;
use crate::time::{SimDuration, SimTime};
use crate::traffic::{
    traffic_despawn_key, traffic_spawn_key, DespawnTrafficRequest, PlanModel, RollModel, SpawnPlan,
    SpawnTrafficRequest, TrafficRoll,
};

verus! {

/// Where along the road a new car appears, and how fast it goes.
#[derive(Debug, Clone, Copy)]
pub struct Arrangement {
    /// Where to appear, as an arc length along the road.
    pub start_s: FloatBits,
    /// Constant speed to hold, m/s.
    pub speed: FloatBits,
}

/// A value on its way to being published: what the serializer made of it, and
/// the first non-finite float in it.
pub struct Written {
    pub serialized: Result<Vec<u8>, String>,
    pub found: Option<NonFinite>,
}

/// The road that a spawner measures along. Nothing is assumed of what it
/// answers.
pub trait TrafficRoad {
    /// How far along the road a pose puts whoever published it.
    fn locate(&self, message: &Message) -> Result<FloatBits, CoreError>;

    /// Whether the ego has left a car far enough behind.
    fn is_behind(&self, car_s: FloatBits, ego_s: FloatBits) -> bool;

    /// Where the first car of a fresh stretch would appear, but for its gap:
    /// so far ahead of the ego.
    fn ahead_of(&self, ego_s: FloatBits) -> FloatBits;

    /// The further along of two positions.
    fn further(&self, a: FloatBits, b: FloatBits) -> FloatBits;

    /// A position beyond another, by the gap that a draw says.
    fn beyond(&self, s: FloatBits, gap_draw: u64) -> FloatBits;

    /// The speed that a draw says.
    fn speed(&self, speed_draw: u64) -> FloatBits;

    /// Serializes a request to remove a car.
    fn write_despawn(&self, request: &DespawnTrafficRequest) -> Written;

    /// Serializes a request to spawn a car.
    fn write_spawn(&self, request: &SpawnTrafficRequest) -> Written;
}

/// What a [`SpawnTrafficRequest`] says.
#[verifier::ext_equal]
pub struct SpawnModel {
    pub actor_name: Seq<char>,
    pub lane_offset: FloatBits,
    pub arrangement: Arrangement,
    pub first_due: SimTime,
}

/// What a request says.
pub open spec fn spawn_model(request: SpawnTrafficRequest) -> SpawnModel {
    SpawnModel {
        actor_name: request.actor_name@,
        lane_offset: request.lane_offset,
        arrangement: Arrangement { start_s: request.start_s, speed: request.speed },
        first_due: request.first_due,
    }
}

/// One question put to a road, with its answer.
pub enum RoadTalk {
    /// Where a message puts its publisher.
    Located(Message, Result<FloatBits, CoreError>),
    /// Whether a car at the first position is behind an ego at the second.
    Behind(FloatBits, FloatBits, bool),
    /// How a planned car is arranged, beyond the last spawn and before an ego.
    Arranged { frontier_s: FloatBits, ego_s: FloatBits, plan: PlanModel, as_to: Arrangement },
    /// What becomes of publishing a request to remove the car of a name.
    Despawn(Seq<char>, PublishOutcome),
    /// What becomes of publishing a request to spawn a car.
    Spawn(SpawnModel, PublishOutcome),
}

/// Whether a road puts a new car at a position: a gap beyond the last spawn,
/// which was placed at `frontier_s`, or beyond where a fresh stretch starts
/// ahead of the ego, whichever is further.
pub open spec fn placed<R: TrafficRoad>(
    road: R,
    frontier_s: FloatBits,
    ego_s: FloatBits,
    gap_draw: u64,
    ahead: FloatBits,
    from: FloatBits,
    start_s: FloatBits,
) -> bool {
    &&& call_ensures(R::ahead_of, (&road, ego_s), ahead)
    &&& call_ensures(R::further, (&road, frontier_s, ahead), from)
    &&& call_ensures(R::beyond, (&road, from, gap_draw), start_s)
}

/// Whether a road arranges a planned car in some way.
pub open spec fn arranges<R: TrafficRoad>(
    road: R,
    frontier_s: FloatBits,
    ego_s: FloatBits,
    plan: PlanModel,
    arrangement: Arrangement,
) -> bool {
    &&& exists|ahead: FloatBits, from: FloatBits| #[trigger]
        placed(road, frontier_s, ego_s, plan.gap_draw, ahead, from, arrangement.start_s)
    &&& call_ensures(R::speed, (&road, plan.speed_draw), arrangement.speed)
}

/// Whether an answer is the road's own: what its method for the question
/// returns when it is asked exactly that.
pub open spec fn answered<R: TrafficRoad>(road: R, talk: RoadTalk) -> bool {
    match talk {
        RoadTalk::Located(message, s) => call_ensures(R::locate, (&road, &message), s),
        RoadTalk::Behind(car_s, ego_s, passed) => call_ensures(
            R::is_behind,
            (&road, car_s, ego_s),
            passed,
        ),
        RoadTalk::Arranged { frontier_s, ego_s, plan, as_to } => arranges(
            road,
            frontier_s,
            ego_s,
            plan,
            as_to,
        ),
        RoadTalk::Despawn(name, outcome) => exists|
            request: DespawnTrafficRequest,
            written: Written,
        |
            request.actor_name@ == name && outcome == outcome_of(written)
                && #[trigger] call_ensures(R::write_despawn, (&road, &request), written),
        RoadTalk::Spawn(asked, outcome) => exists|request: SpawnTrafficRequest, written: Written|
            spawn_model(request) == asked && outcome == outcome_of(written)
                && #[trigger] call_ensures(R::write_spawn, (&road, &request), written),
    }
}

/// Whether every answer is the road's own.
pub open spec fn all_answered<R: TrafficRoad>(road: R, talk: Seq<RoadTalk>) -> bool {
    forall|i: int| 0 <= i < talk.len() ==> answered(road, #[trigger] talk[i])
}

/// What becomes of publishing what was written.
pub open spec fn outcome_of(written: Written) -> PublishOutcome {
    crate::component::publish_outcome(written.serialized, written.found)
}

/// What a road answered in one step, as far as the step got.
#[verifier::ext_equal]
pub struct RoadAnswers {
    /// Where the publisher of each message of the inbox is.
    pub sights: Seq<FloatBits>,
    /// Whether each car of the roll has been passed.
    pub passed: Seq<bool>,
    /// The bytes of each request to remove a car.
    pub despawns: Seq<Seq<u8>>,
    /// How each new car is arranged.
    pub arranged: Seq<Arrangement>,
    /// The bytes of each request to spawn a car.
    pub spawns: Seq<Seq<u8>>,
}

/// The roll after the poses of an inbox, given where each puts its publisher.
pub open spec fn all_sighted(m: RollModel, inbox: Seq<Message>, sights: Seq<FloatBits>) -> RollModel
    decreases sights.len(),
{
    if sights.len() == 0 {
        m
    } else {
        crate::traffic::sighted(
            all_sighted(m, inbox, sights.drop_last()),
            inbox[sights.len() - 1].publisher@,
            sights.last(),
        )
    }
}

/// The roll without the cars that have been passed.
pub open spec fn without_passed(m: RollModel, passed: Seq<bool>) -> RollModel {
    RollModel { live: crate::traffic::unflagged(m.live, passed), ..m }
}

/// The roll with new cars on it, each under the next name, where it was
/// arranged to appear.
pub open spec fn with_spawned(m: RollModel, arranged: Seq<Arrangement>) -> RollModel
    decreases arranged.len(),
{
    if arranged.len() == 0 {
        m
    } else {
        let before = with_spawned(m, arranged.drop_last());
        RollModel {
            live: crate::names::with_name(
                before.live,
                crate::traffic::traffic_name(before.cars_spawned + 1),
                arranged.last().start_s,
            ),
            cars_spawned: before.cars_spawned + 1,
            ..before
        }
    }
}

/// What a [`TrafficSpawner`] holds.
#[verifier::ext_equal]
pub struct SpawnerModel {
    pub period: SimDuration,
    /// Lateral offsets to spawn into, in meters.
    pub lanes: Seq<FloatBits>,
    pub roll: RollModel,
    /// How far along the road the last spawn was placed.
    pub frontier_s: FloatBits,
    /// Everything that its road was asked, with the answers.
    pub talk: Seq<RoadTalk>,
}

/// What follows from one step of a spawner: what it holds, what it is shown,
/// and what its road answers.
#[verifier::ext_equal]
pub struct Review {
    pub spawner: SpawnerModel,
    pub ctx: StepCtxModel,
    pub answers: RoadAnswers,
}

impl Review {
    /// The roll once everyone has been sighted.
    pub open spec fn sighted(self) -> RollModel {
        all_sighted(self.spawner.roll, self.ctx.inbox, self.answers.sights)
    }

    /// The cars that have been passed, by name, in the order of the roll.
    pub open spec fn gone(self) -> Seq<Seq<char>> {
        crate::traffic::flagged(self.sighted().live, self.answers.passed)
    }

    /// The roll once what has been passed is struck off.
    pub open spec fn kept(self) -> RollModel {
        without_passed(self.sighted(), self.answers.passed)
    }

    /// The roll once it has been topped up.
    pub open spec fn filled(self) -> RollModel {
        with_spawned(self.kept(), self.answers.arranged)
    }

    /// What the random stream of the step says of the `k`th new car.
    pub open spec fn plan(self, k: int) -> PlanModel {
        crate::traffic::plan_of(
            (self.kept().cars_spawned + k + 1) as nat,
            self.spawner.lanes.len() as int,
            crate::traffic::stream_after(self.seed(), (3 * k) as nat),
        )
    }

    /// Where the random stream of the step starts.
    pub open spec fn seed(self) -> u64 {
        crate::seed::mixed(self.ctx.component_seed, self.ctx.now.0 as u64)
    }

    /// The instant after this one.
    pub open spec fn next_due(self) -> SimTime {
        SimTime((self.ctx.now.0 + self.spawner.period.0) as i64)
    }

    /// The request for the `k`th new car: in the lane that is planned for it.
    pub open spec fn request(self, k: int) -> SpawnModel {
        SpawnModel {
            actor_name: self.plan(k).name,
            lane_offset: self.spawner.lanes[self.plan(k).lane],
            arrangement: self.answers.arranged[k],
            first_due: self.next_due(),
        }
    }

    /// The key of a request.
    pub open spec fn key(self, what: Seq<char>) -> Seq<char> {
        crate::traffic::spawner_key(self.ctx.world_name, what)
    }

    /// The questions about messages.
    pub open spec fn locating(self) -> Seq<RoadTalk> {
        Seq::new(
            self.answers.sights.len(),
            |i: int| RoadTalk::Located(self.ctx.inbox[i], Ok(self.answers.sights[i])),
        )
    }

    /// The questions about cars on the roll.
    pub open spec fn passing(self) -> Seq<RoadTalk> {
        Seq::new(
            self.answers.passed.len(),
            |i: int|
                RoadTalk::Behind(
                    self.sighted().live[i].1,
                    self.sighted().ego_s,
                    self.answers.passed[i],
                ),
        )
    }

    /// The questions about cars that have been passed.
    pub open spec fn retiring(self) -> Seq<RoadTalk> {
        Seq::new(
            self.answers.despawns.len(),
            |i: int|
                RoadTalk::Despawn(
                    self.gone()[i],
                    PublishOutcome::Queued(self.answers.despawns[i]),
                ),
        )
    }

    /// How far along the road the last spawn was placed when `k` cars had been
    /// arranged.
    pub open spec fn frontier(self, k: int) -> FloatBits {
        if k <= 0 {
            self.spawner.frontier_s
        } else {
            self.answers.arranged[k - 1].start_s
        }
    }

    /// The question how the `k`th new car is arranged.
    pub open spec fn arranging(self, k: int) -> RoadTalk {
        RoadTalk::Arranged {
            frontier_s: self.frontier(k),
            ego_s: self.kept().ego_s,
            plan: self.plan(k),
            as_to: self.answers.arranged[k],
        }
    }

    /// The questions about the first `n` new cars: how each is arranged, and
    /// the bytes of the request for it.
    pub open spec fn spawning(self, n: nat) -> Seq<RoadTalk>
        decreases n,
    {
        if n == 0 {
            Seq::empty()
        } else {
            let k = n - 1;
            self.spawning(k as nat).push(self.arranging(k)).push(
                RoadTalk::Spawn(self.request(k), PublishOutcome::Queued(self.answers.spawns[k])),
            )
        }
    }

    /// Everything that the road was asked so far, with the answers.
    pub open spec fn talk(self) -> Seq<RoadTalk> {
        self.spawner.talk + self.locating() + self.passing() + self.retiring() + self.spawning(
            self.answers.spawns.len(),
        )
    }

    /// What the step has been shown and has published so far: the requests to
    /// remove cars, and behind them those to spawn some.
    pub open spec fn published(self) -> StepCtxModel {
        StepCtxModel {
            outbox: self.ctx.outbox + Seq::new(
                self.answers.despawns.len(),
                |i: int| (self.key("despawn"@), self.answers.despawns[i]),
            ) + Seq::new(
                self.answers.spawns.len(),
                |k: int| (self.key("spawn"@), self.answers.spawns[k]),
            ),
            ..self.ctx
        }
    }

    /// Whether every car that has been passed was struck off.
    pub open spec fn has_retired(self) -> bool {
        &&& self.answers.sights.len() == self.ctx.inbox.len()
        &&& self.answers.passed.len() == self.sighted().live.len()
        &&& self.answers.despawns.len() == self.gone().len()
    }

    /// Whether the step is done: everyone was located, every car judged, and
    /// as many cars spawned as were missing.
    pub open spec fn is_done(self) -> bool {
        &&& self.has_retired()
        &&& self.answers.arranged.len() == crate::traffic::missing(self.kept())
        &&& self.answers.spawns.len() == self.answers.arranged.len()
    }

    /// Whether the step stopped at a question, given what was asked last: a
    /// message that could not be read, or a request that could not be
    /// published.
    pub open spec fn stops(self, last: Seq<RoadTalk>, error: CoreError) -> bool {
        let a = self.answers;
        ||| {
            &&& a.sights.len() < self.ctx.inbox.len()
            &&& a.passed.len() == 0
            &&& a.despawns.len() == 0
            &&& a.arranged.len() == 0
            &&& a.spawns.len() == 0
            &&& last == seq![
                RoadTalk::Located(self.ctx.inbox[a.sights.len() as int], Err(error)),
            ]
        }
        ||| {
            &&& a.sights.len() == self.ctx.inbox.len()
            &&& a.passed.len() == self.sighted().live.len()
            &&& a.despawns.len() < self.gone().len()
            &&& a.arranged.len() == 0
            &&& a.spawns.len() == 0
            &&& exists|outcome: PublishOutcome|
                {
                    &&& #[trigger] is_refusal(self.key("despawn"@), outcome, error)
                    &&& last == seq![
                        RoadTalk::Despawn(self.gone()[a.despawns.len() as int], outcome),
                    ]
                }
        }
        ||| {
            &&& self.has_retired()
            &&& a.spawns.len() < crate::traffic::missing(self.kept())
            &&& a.arranged.len() == a.spawns.len() + 1
            &&& exists|outcome: PublishOutcome|
                {
                    &&& #[trigger] is_refusal(self.key("spawn"@), outcome, error)
                    &&& last == seq![
                        self.arranging(a.spawns.len() as int),
                        RoadTalk::Spawn(self.request(a.spawns.len() as int), outcome),
                    ]
                }
        }
    }
}

/// Whether a publish on a key was refused with an error.
pub open spec fn is_refusal(key: Seq<char>, outcome: PublishOutcome, error: CoreError) -> bool {
    match outcome {
        PublishOutcome::Queued(_) => false,
        PublishOutcome::Unserializable(source) => error matches CoreError::PayloadSerialize {
            key: named,
            source: said,
        } && named@ == key && said@ == source,
        PublishOutcome::NonFinite(text) => error matches CoreError::NonFiniteFloat {
            key: named,
            found: said,
        } && named@ == key && said@ == text,
    }
}

/// Whether a publish on a key came to what it had to: the payload is queued
/// behind what was published before, or nothing is.
pub open spec fn sent(
    key: Seq<char>,
    outcome: PublishOutcome,
    done: Result<(), CoreError>,
    before: StepCtxModel,
    after: StepCtxModel,
) -> bool {
    match done {
        Ok(()) => {
            &&& outcome is Queued
            &&& after == (StepCtxModel {
                outbox: before.outbox.push((key, outcome->Queued_0)),
                ..before
            })
        },
        Err(error) => {
            &&& is_refusal(key, outcome, error)
            &&& after == before
        },
    }
}

/// Whether a step stopped with an error: somewhere along its questions, with
/// nothing asked or published beyond.
pub open spec fn stopped(
    review: Review,
    last: Seq<RoadTalk>,
    error: CoreError,
    talk: Seq<RoadTalk>,
    ctx: StepCtxModel,
) -> bool {
    &&& review.stops(last, error)
    &&& talk == review.talk() + last
    &&& ctx == review.published()
}

/// Whether a step that was shown `ctx` stopped with an error, whatever its
/// road answered before that.
pub open spec fn stopped_within(
    spawner: SpawnerModel,
    ctx: StepCtxModel,
    error: CoreError,
    talk: Seq<RoadTalk>,
    after: StepCtxModel,
) -> bool {
    exists|answers: RoadAnswers, last: Seq<RoadTalk>| #[trigger]
        stopped(Review { spawner, ctx, answers }, last, error, talk, after)
}

/// Whether a step is done, with what the spawner holds and has published.
pub open spec fn stepped(review: Review, after: SpawnerModel, ctx: StepCtxModel) -> bool {
    &&& review.is_done()
    &&& after == (SpawnerModel {
        roll: review.filled(),
        frontier_s: review.frontier(review.answers.arranged.len() as int),
        talk: review.talk(),
        ..review.spawner
    })
    &&& ctx == review.published()
}

/// A publish is refused for what its payload is: one that does not serialize
/// for what the serializer said, and one that holds a float that is not
/// finite for where that is, either under the key it was for. A payload that
/// is in order is never refused.
pub proof fn law_why_a_publish_is_refused(
    key: Seq<char>,
    outcome: PublishOutcome,
    error: CoreError,
)
    requires
        is_refusal(key, outcome, error),
    ensures
        !(outcome is Queued),
        error is PayloadSerialize <==> outcome is Unserializable,
        error is NonFiniteFloat <==> outcome is NonFinite,
        error matches CoreError::PayloadSerialize { key: named, source } ==> named@ == key
            && source@ == outcome->Unserializable_0,
        error matches CoreError::NonFiniteFloat { key: named, found } ==> named@ == key && found@
            == outcome->NonFinite_0,
{
}

/// A step that stops has asked its questions in turn up to one that stopped
/// it: a message that its road could not read, whose error it is, or a
/// request that could not be published.
pub proof fn law_what_stops_a_step(review: Review, last: Seq<RoadTalk>, error: CoreError)
    requires
        review.stops(last, error),
    ensures
        last.len() > 0,
        match last.last() {
            RoadTalk::Located(message, s) => {
                &&& s == Err::<FloatBits, CoreError>(error)
                &&& message == review.ctx.inbox[review.answers.sights.len() as int]
                &&& review.answers.passed.len() == 0
            },
            RoadTalk::Despawn(name, outcome) => {
                &&& is_refusal(review.key("despawn"@), outcome, error)
                &&& name == review.gone()[review.answers.despawns.len() as int]
                &&& review.answers.sights.len() == review.ctx.inbox.len()
                &&& review.answers.arranged.len() == 0
            },
            RoadTalk::Spawn(asked, outcome) => {
                &&& is_refusal(review.key("spawn"@), outcome, error)
                &&& asked == review.request(review.answers.spawns.len() as int)
                &&& review.answers.despawns.len() == review.gone().len()
                &&& review.answers.spawns.len() < crate::traffic::missing(review.kept())
            },
            _ => false,
        },
{
}

/// No answers yet.
spec fn no_answers() -> RoadAnswers {
    RoadAnswers {
        sights: Seq::empty(),
        passed: Seq::empty(),
        despawns: Seq::empty(),
        arranged: Seq::empty(),
        spawns: Seq::empty(),
    }
}

/// Before anything is answered nothing has been asked or published.
proof fn lemma_nothing_yet(review: Review)
    requires
        review.answers == no_answers(),
    ensures
        review.talk() == review.spawner.talk,
        review.published() == review.ctx,
        review.sighted() == review.spawner.roll,
{
    assert(review.talk() =~= review.spawner.talk);
    assert(review.published().outbox =~= review.ctx.outbox);
}

/// Another message is located.
proof fn lemma_located(review: Review, s: FloatBits)
    requires
        review.answers.sights.len() < review.ctx.inbox.len(),
        review.answers.passed.len() == 0,
        review.answers.despawns.len() == 0,
        review.answers.spawns.len() == 0,
    ensures
        ({
            let after = Review {
                answers: RoadAnswers { sights: review.answers.sights.push(s), ..review.answers },
                ..review
            };
            let message = review.ctx.inbox[review.answers.sights.len() as int];
            &&& after.talk() == review.talk().push(RoadTalk::Located(message, Ok(s)))
            &&& after.published() == review.published()
            &&& after.sighted() == crate::traffic::sighted(
                review.sighted(),
                message.publisher@,
                s,
            )
        }),
{
    let after = Review {
        answers: RoadAnswers { sights: review.answers.sights.push(s), ..review.answers },
        ..review
    };
    let message = review.ctx.inbox[review.answers.sights.len() as int];
    assert(after.answers.sights.drop_last() =~= review.answers.sights);
    assert(after.talk() =~= review.talk().push(RoadTalk::Located(message, Ok(s))));
    assert(after.published().outbox =~= review.published().outbox);
}

/// Another car is judged.
proof fn lemma_judged(review: Review, passed: bool)
    requires
        review.answers.despawns.len() == 0,
        review.answers.spawns.len() == 0,
    ensures
        ({
            let after = Review {
                answers: RoadAnswers {
                    passed: review.answers.passed.push(passed),
                    ..review.answers
                },
                ..review
            };
            let car_s = review.sighted().live[review.answers.passed.len() as int].1;
            &&& after.talk() == review.talk().push(
                RoadTalk::Behind(car_s, review.sighted().ego_s, passed),
            )
            &&& after.published() == review.published()
            &&& after.sighted() == review.sighted()
        }),
{
    let after = Review {
        answers: RoadAnswers { passed: review.answers.passed.push(passed), ..review.answers },
        ..review
    };
    let car_s = review.sighted().live[review.answers.passed.len() as int].1;
    assert(after.talk() =~= review.talk().push(
        RoadTalk::Behind(car_s, review.sighted().ego_s, passed),
    ));
    assert(after.published().outbox =~= review.published().outbox);
}

/// Another car that has been passed is asked to be removed.
proof fn lemma_despawned(review: Review, payload: Seq<u8>)
    requires
        review.answers.despawns.len() < review.gone().len(),
        review.answers.spawns.len() == 0,
    ensures
        ({
            let after = Review {
                answers: RoadAnswers {
                    despawns: review.answers.despawns.push(payload),
                    ..review.answers
                },
                ..review
            };
            let name = review.gone()[review.answers.despawns.len() as int];
            &&& after.talk() == review.talk().push(
                RoadTalk::Despawn(name, PublishOutcome::Queued(payload)),
            )
            &&& after.published() == (StepCtxModel {
                outbox: review.published().outbox.push((review.key("despawn"@), payload)),
                ..review.published()
            })
            &&& after.sighted() == review.sighted()
            &&& after.gone() == review.gone()
            &&& after.kept() == review.kept()
        }),
{
    let after = Review {
        answers: RoadAnswers { despawns: review.answers.despawns.push(payload), ..review.answers },
        ..review
    };
    let name = review.gone()[review.answers.despawns.len() as int];
    assert(after.talk() =~= review.talk().push(
        RoadTalk::Despawn(name, PublishOutcome::Queued(payload)),
    ));
    assert(after.published().outbox =~= review.published().outbox.push(
        (review.key("despawn"@), payload),
    ));
}

/// What was asked about the first new cars does not depend on the answers
/// about later ones.
proof fn lemma_spawning_so_far(a: Review, b: Review, n: nat)
    requires
        a.spawner == b.spawner,
        a.ctx == b.ctx,
        a.answers.sights == b.answers.sights,
        a.answers.passed == b.answers.passed,
        n <= a.answers.spawns.len() <= b.answers.spawns.len(),
        n <= a.answers.arranged.len() <= b.answers.arranged.len(),
        forall|k: int| 0 <= k < n ==> a.answers.spawns[k] == #[trigger] b.answers.spawns[k],
        forall|k: int| 0 <= k < n ==> a.answers.arranged[k] == #[trigger] b.answers.arranged[k],
    ensures
        a.spawning(n) == b.spawning(n),
    decreases n,
{
    if n > 0 {
        lemma_spawning_so_far(a, b, (n - 1) as nat);
        let k = n - 1;
        assert(a.answers.spawns[k] == b.answers.spawns[k]);
        assert(a.answers.arranged[k] == b.answers.arranged[k]);
    }
}

/// Another new car is arranged.
proof fn lemma_arranged(review: Review, arrangement: Arrangement)
    requires
        review.answers.arranged.len() == review.answers.spawns.len(),
    ensures
        ({
            let after = Review {
                answers: RoadAnswers {
                    arranged: review.answers.arranged.push(arrangement),
                    ..review.answers
                },
                ..review
            };
            &&& after.talk() == review.talk()
            &&& after.published() == review.published()
            &&& after.kept() == review.kept()
            &&& after.gone() == review.gone()
            &&& after.filled().live == crate::names::with_name(
                review.filled().live,
                crate::traffic::traffic_name(review.filled().cars_spawned + 1),
                arrangement.start_s,
            )
            &&& after.filled() == (RollModel {
                live: after.filled().live,
                cars_spawned: review.filled().cars_spawned + 1,
                ..review.filled()
            })
        }),
{
    let after = Review {
        answers: RoadAnswers {
            arranged: review.answers.arranged.push(arrangement),
            ..review.answers
        },
        ..review
    };
    lemma_spawning_so_far(review, after, review.answers.spawns.len());
    assert(after.answers.arranged.drop_last() =~= review.answers.arranged);
    assert(after.talk() =~= review.talk());
    assert(after.published().outbox =~= review.published().outbox);
}

/// Another new car is asked for.
proof fn lemma_spawned(review: Review, payload: Seq<u8>)
    requires
        review.answers.arranged.len() == review.answers.spawns.len() + 1,
    ensures
        ({
            let after = Review {
                answers: RoadAnswers {
                    spawns: review.answers.spawns.push(payload),
                    ..review.answers
                },
                ..review
            };
            let k = review.answers.spawns.len() as int;
            &&& after.talk() == review.talk().push(review.arranging(k)).push(
                RoadTalk::Spawn(review.request(k), PublishOutcome::Queued(payload)),
            )
            &&& after.published() == (StepCtxModel {
                outbox: review.published().outbox.push((review.key("spawn"@), payload)),
                ..review.published()
            })
            &&& after.kept() == review.kept()
            &&& after.gone() == review.gone()
            &&& after.filled() == review.filled()
        }),
{
    let after = Review {
        answers: RoadAnswers { spawns: review.answers.spawns.push(payload), ..review.answers },
        ..review
    };
    let k = review.answers.spawns.len() as int;
    lemma_spawning_so_far(review, after, review.answers.spawns.len());
    assert(after.retiring() =~= review.retiring());
    assert(after.talk() =~= review.talk().push(review.arranging(k)).push(
        RoadTalk::Spawn(review.request(k), PublishOutcome::Queued(payload)),
    ));
    assert(after.published().outbox =~= review.published().outbox.push(
        (review.key("spawn"@), payload),
    ));
}

/// What sighting everyone leaves as it is.
proof fn lemma_sighting_keeps(m: RollModel, inbox: Seq<Message>, sights: Seq<FloatBits>)
    ensures
        all_sighted(m, inbox, sights).ego_name == m.ego_name,
        all_sighted(m, inbox, sights).target_population == m.target_population,
        all_sighted(m, inbox, sights).cars_spawned == m.cars_spawned,
    decreases sights.len(),
{
    if sights.len() > 0 {
        lemma_sighting_keeps(m, inbox, sights.drop_last());
    }
}

/// Spawning counts every car, and puts every one on the roll beside those
/// that were there.
proof fn lemma_spawned_roll(m: RollModel, arranged: Seq<Arrangement>)
    requires
        crate::traffic::is_roll(m),
    ensures
        crate::traffic::is_roll(with_spawned(m, arranged)),
        with_spawned(m, arranged).cars_spawned == m.cars_spawned + arranged.len(),
        with_spawned(m, arranged).live.len() == m.live.len() + arranged.len(),
        with_spawned(m, arranged).target_population == m.target_population,
        with_spawned(m, arranged).ego_name == m.ego_name,
        with_spawned(m, arranged).ego_s == m.ego_s,
    decreases arranged.len(),
{
    if arranged.len() > 0 {
        let before = with_spawned(m, arranged.drop_last());
        lemma_spawned_roll(m, arranged.drop_last());
        crate::traffic::lemma_next_car(before, arranged.last().start_s);
    }
}

/// Spawning one car more.
proof fn lemma_one_more(m: RollModel, arranged: Seq<Arrangement>, next: Arrangement)
    ensures
        with_spawned(m, arranged.push(next)) == with_spawned(
            with_spawned(m, arranged),
            seq![next],
        ),
{
    reveal_with_fuel(with_spawned, 2);
    assert(arranged.push(next).drop_last() =~= arranged);
    assert(seq![next].drop_last() =~= Seq::<Arrangement>::empty());
}

/// Every car takes three draws.
proof fn lemma_stream_of_next(state: u64, k: nat)
    ensures
        crate::traffic::stream_after(crate::traffic::stream_after(state, 3 * k), 3)
            == crate::traffic::stream_after(state, 3 * (k + 1)),
{
    reveal_with_fuel(crate::traffic::stream_after, 4);
    assert(3 * (k + 1) == 3 * k + 3);
}

/// Sighting everyone keeps a roll a roll.
proof fn lemma_sighted_roll(m: RollModel, inbox: Seq<Message>, sights: Seq<FloatBits>)
    requires
        crate::traffic::is_roll(m),
    ensures
        crate::traffic::is_roll(all_sighted(m, inbox, sights)),
    decreases sights.len(),
{
    if sights.len() > 0 {
        let before = all_sighted(m, inbox, sights.drop_last());
        lemma_sighted_roll(m, inbox, sights.drop_last());
        let publisher = inbox[sights.len() - 1].publisher@;
        if publisher.len() > 0 {
            crate::traffic::lemma_placed(before, publisher[0], sights.last());
        }
    }
}

/// A car that spawning put on the roll was there before, or is new.
proof fn lemma_old_or_new(m: RollModel, arranged: Seq<Arrangement>, name: Seq<char>)
    requires
        crate::names::has_name(with_spawned(m, arranged).live, name),
        crate::traffic::is_roll(m),
    ensures
        crate::names::has_name(m.live, name) || exists|n: nat|
            n > m.cars_spawned && name == #[trigger] crate::traffic::traffic_name(n),
    decreases arranged.len(),
{
    if arranged.len() > 0 {
        let before = with_spawned(m, arranged.drop_last());
        let fresh = crate::traffic::traffic_name(before.cars_spawned + 1);
        lemma_spawned_roll(m, arranged.drop_last());
        if name != fresh {
            crate::names::lemma_name_rank(before.live, fresh);
            crate::traffic::lemma_next_car(before, arranged.last().start_s);
            let after = with_spawned(m, arranged).live;
            let i = choose|i: int| 0 <= i < after.len() && (#[trigger] after[i]).0 == name;
            let place = crate::names::name_rank(before.live, fresh) as int;
            let j = if i < place {
                i
            } else {
                i - 1
            };
            assert(before.live[j].0 == name);
            lemma_old_or_new(m, arranged.drop_last(), name);
        }
    }
}

/// A finished step leaves as many cars on the roll as there are to be, and
/// never takes one off for being too many.
pub proof fn law_a_step_fills_the_roll(review: Review)
    requires
        crate::traffic::is_roll(review.spawner.roll),
        review.is_done(),
    ensures
        review.filled().live.len() == if review.kept().live.len()
            < review.spawner.roll.target_population {
            review.spawner.roll.target_population
        } else {
            review.kept().live.len()
        },
        crate::traffic::is_roll(review.filled()),
{
    lemma_sighted_roll(review.spawner.roll, review.ctx.inbox, review.answers.sights);
    lemma_sighting_keeps(review.spawner.roll, review.ctx.inbox, review.answers.sights);
    crate::traffic::lemma_struck_off(review.sighted(), review.answers.passed);
    lemma_spawned_roll(review.kept(), review.answers.arranged);
}

/// A car whose removal was asked for is off the roll at once, and no car that
/// comes after it has its name: it is never asked for twice.
pub proof fn law_a_car_is_retired_once(review: Review, i: int)
    requires
        crate::traffic::is_roll(review.spawner.roll),
        review.is_done(),
        0 <= i < review.gone().len(),
    ensures
        !crate::names::has_name(review.filled().live, review.gone()[i]),
        forall|n: nat|
            n > review.spawner.roll.cars_spawned ==> review.gone()[i]
                != #[trigger] crate::traffic::traffic_name(n),
{
    let name = review.gone()[i];
    let roll = review.sighted();
    lemma_sighted_roll(review.spawner.roll, review.ctx.inbox, review.answers.sights);
    lemma_sighting_keeps(review.spawner.roll, review.ctx.inbox, review.answers.sights);
    crate::traffic::lemma_struck_off(roll, review.answers.passed);
    assert(crate::traffic::is_car(name, roll.cars_spawned));
    let k = choose|k: nat|
        1 <= k <= roll.cars_spawned && name == #[trigger] crate::traffic::traffic_name(k);
    assert forall|n: nat| n > review.spawner.roll.cars_spawned implies name
        != #[trigger] crate::traffic::traffic_name(n) by {
        crate::traffic::law_a_car_name_is_never_reused(k, n);
    }
    if crate::names::has_name(review.filled().live, name) {
        lemma_old_or_new(review.kept(), review.answers.arranged, name);
    }
}

/// What is planned of a new car comes from the seed, the instant and how many
/// cars there have been, whatever else is known.
pub proof fn law_the_same_seed_plans_the_same_cars(a: Review, b: Review, k: int)
    requires
        a.ctx.component_seed == b.ctx.component_seed,
        a.ctx.now == b.ctx.now,
        a.spawner.lanes == b.spawner.lanes,
        a.spawner.roll.cars_spawned == b.spawner.roll.cars_spawned,
    ensures
        a.plan(k) == b.plan(k),
{
    lemma_sighting_keeps(a.spawner.roll, a.ctx.inbox, a.answers.sights);
    lemma_sighting_keeps(b.spawner.roll, b.ctx.inbox, b.answers.sights);
}

/// Every new car drives in one of the lanes that there are to spawn into: the
/// one that the second of its three draws falls on.
pub proof fn law_a_new_car_takes_one_of_the_lanes(review: Review, k: int)
    requires
        review.spawner.lanes.len() > 0,
    ensures
        0 <= review.plan(k).lane < review.spawner.lanes.len(),
        review.request(k).lane_offset == review.spawner.lanes[review.plan(k).lane],
        review.spawner.lanes.contains(review.request(k).lane_offset),
{
    let n = review.spawner.lanes.len() as int;
    assert(0 <= review.plan(k).lane < n) by {
        let drawn = crate::traffic::draw(
            crate::traffic::stream_after(review.seed(), (3 * k) as nat),
            1,
        );
        vstd::arithmetic::div_mod::lemma_mod_bound((drawn as usize) as int, n);
    }
}

/// The road says where everyone is, who has been passed and how every new car
/// is arranged: what a finished step makes of its answers rests on what its
/// road answered to exactly these questions.
pub proof fn law_the_road_decides<R: TrafficRoad>(road: R, review: Review, after: SpawnerModel)
    requires
        review.is_done(),
        after.talk == review.talk(),
        all_answered(road, after.talk),
    ensures
        forall|i: int|
            0 <= i < review.ctx.inbox.len() ==> call_ensures(
                R::locate,
                (&road, &review.ctx.inbox[i]),
                Ok::<FloatBits, CoreError>(#[trigger] review.answers.sights[i]),
            ),
        forall|i: int|
            0 <= i < review.sighted().live.len() ==> call_ensures(
                R::is_behind,
                (&road, review.sighted().live[i].1, review.sighted().ego_s),
                #[trigger] review.answers.passed[i],
            ),
        forall|k: int|
            0 <= k < review.answers.arranged.len() ==> answered(
                road,
                #[trigger] review.arranging(k),
            ),
{
    let talk = after.talk;
    let first = review.spawner.talk.len() as int;
    let second = first + review.locating().len();
    let third = second + review.passing().len();
    let fourth = third + review.retiring().len();
    assert forall|i: int| 0 <= i < review.ctx.inbox.len() implies call_ensures(
        R::locate,
        (&road, &review.ctx.inbox[i]),
        Ok::<FloatBits, CoreError>(#[trigger] review.answers.sights[i]),
    ) by {
        assert(talk[first + i] == review.locating()[i]);
        assert(answered(road, talk[first + i]));
    }
    assert forall|i: int| 0 <= i < review.sighted().live.len() implies call_ensures(
        R::is_behind,
        (&road, review.sighted().live[i].1, review.sighted().ego_s),
        #[trigger] review.answers.passed[i],
    ) by {
        assert(talk[second + i] == review.passing()[i]);
        assert(answered(road, talk[second + i]));
    }
    assert forall|k: int| 0 <= k < review.answers.arranged.len() implies answered(
        road,
        #[trigger] review.arranging(k),
    ) by {
        let n = review.answers.spawns.len();
        lemma_arranging_asked(review, n, k);
        assert(talk[fourth + 2 * k] == review.spawning(n)[2 * k]);
        assert(answered(road, talk[fourth + 2 * k]));
    }
}

/// What a step of a spawner publishes: behind what was queued already, a
/// request to go for each car that has been passed, and behind those a
/// request to come for each that is missing, each on its own key.
pub proof fn law_what_a_step_publishes(review: Review, i: int)
    requires
        0 <= i < review.published().outbox.len(),
    ensures
        ({
            let queued = review.ctx.outbox.len() as int;
            let despawns = review.answers.despawns;
            let spawns = review.answers.spawns;
            let item = review.published().outbox[i];
            &&& review.published().outbox.len() == queued + despawns.len() + spawns.len()
            &&& i < queued ==> item == review.ctx.outbox[i]
            &&& queued <= i < queued + despawns.len() ==> item == (
                crate::traffic::spawner_key(review.ctx.world_name, "despawn"@),
                despawns[i - queued],
            )
            &&& queued + despawns.len() <= i ==> item == (
                crate::traffic::spawner_key(review.ctx.world_name, "spawn"@),
                spawns[i - queued - despawns.len()],
            )
        }),
{
}

/// What the request for a new car says: the name of the next car that there
/// has not been, the lane and the arrangement that go with its own three
/// draws, and its first step one period after this one.
pub proof fn law_what_a_request_asks_for(review: Review, k: int)
    requires
        review.spawner.lanes.len() > 0,
        0 <= k < review.answers.arranged.len(),
        i64::MIN <= review.ctx.now.0 + review.spawner.period.0 <= i64::MAX,
    ensures
        ({
            let request = review.request(k);
            let state = crate::traffic::stream_after(
                crate::seed::mixed(review.ctx.component_seed, review.ctx.now.0 as u64),
                (3 * k) as nat,
            );
            &&& request.actor_name == crate::traffic::traffic_name(
                (review.spawner.roll.cars_spawned + k + 1) as nat,
            )
            &&& request.first_due.0 == review.ctx.now.0 + review.spawner.period.0
            &&& request.lane_offset == review.spawner.lanes[(crate::traffic::draw(state, 1)
                as usize) as int % review.spawner.lanes.len() as int]
            &&& request.arrangement == review.answers.arranged[k]
        }),
{
    lemma_sighting_keeps(review.spawner.roll, review.ctx.inbox, review.answers.sights);
}

/// Everyone is sighted in the order of the inbox, by whoever published the
/// pose.
pub proof fn law_everyone_is_sighted_in_turn(
    m: RollModel,
    inbox: Seq<Message>,
    sights: Seq<FloatBits>,
    last: FloatBits,
)
    requires
        sights.len() < inbox.len(),
    ensures
        all_sighted(m, inbox, Seq::<FloatBits>::empty()) == m,
        all_sighted(m, inbox, sights.push(last)) == crate::traffic::sighted(
            all_sighted(m, inbox, sights),
            inbox[sights.len() as int].publisher@,
            last,
        ),
{
    assert(sights.push(last).drop_last() =~= sights);
}

/// Each new car goes on the roll under the next name, where it was arranged
/// to appear, and counts as one car more; nobody else on the roll moves.
pub proof fn law_a_new_car_goes_on_the_roll(
    m: RollModel,
    arranged: Seq<Arrangement>,
    last: Arrangement,
    name: Seq<char>,
    at: FloatBits,
)
    requires
        crate::traffic::is_roll(m),
    ensures
        with_spawned(m, Seq::<Arrangement>::empty()) == m,
        ({
            let before = with_spawned(m, arranged);
            let after = with_spawned(m, arranged.push(last));
            &&& after.cars_spawned == before.cars_spawned + 1
            &&& after.ego_s == before.ego_s
            &&& after.live.contains((name, at)) <==> if name == crate::traffic::traffic_name(
                before.cars_spawned + 1,
            ) {
                at == last.start_s
            } else {
                before.live.contains((name, at))
            }
        }),
{
    assert(arranged.push(last).drop_last() =~= arranged);
    lemma_spawned_roll(m, arranged);
    let before = with_spawned(m, arranged);
    crate::names::law_putting_replaces_what_was_there(
        before.live,
        crate::traffic::traffic_name(before.cars_spawned + 1),
        last.start_s,
        name,
        at,
    );
}

/// A step asks the road about every message in turn, about every car on the
/// roll against where the ego is, and for every car that is missing how to
/// arrange it beyond the one before, and acts on nothing else that it says.
pub proof fn law_what_a_road_is_asked(review: Review, n: nat)
    requires
        n < review.answers.spawns.len(),
    ensures
        review.spawning(0).len() == 0,
        review.spawning(n + 1) == review.spawning(n).push(review.arranging(n as int)).push(
            RoadTalk::Spawn(
                review.request(n as int),
                PublishOutcome::Queued(review.answers.spawns[n as int]),
            ),
        ),
        n == 0 ==> review.arranging(0)->frontier_s == review.spawner.frontier_s,
        n > 0 ==> review.arranging(n as int)->frontier_s == review.answers.arranged[n - 1].start_s,
        review.arranging(n as int)->Arranged_ego_s == review.sighted().ego_s,
        review.arranging(n as int)->as_to == review.answers.arranged[n as int],
        forall|i: int|
            0 <= i < review.locating().len() ==> #[trigger] review.locating()[i]
                == RoadTalk::Located(review.ctx.inbox[i], Ok(review.answers.sights[i])),
        forall|i: int|
            0 <= i < review.passing().len() ==> #[trigger] review.passing()[i] == RoadTalk::Behind(
                review.sighted().live[i].1,
                review.sighted().ego_s,
                review.answers.passed[i],
            ),
{
}

/// A step that is done has located the publisher of every message, judged
/// every car on the roll, asked every car that was passed to go, by name, and
/// asked for exactly as many as were then missing.
pub proof fn law_what_a_finished_step_has_done(review: Review)
    requires
        review.is_done(),
    ensures
        review.answers.sights.len() == review.ctx.inbox.len(),
        review.answers.passed.len() == review.sighted().live.len(),
        review.retiring().len() == review.gone().len(),
        forall|i: int|
            0 <= i < review.gone().len() ==> #[trigger] review.retiring()[i] == RoadTalk::Despawn(
                review.gone()[i],
                PublishOutcome::Queued(review.answers.despawns[i]),
            ),
        review.kept().live == crate::traffic::unflagged(
            review.sighted().live,
            review.answers.passed,
        ),
        review.gone() == crate::traffic::flagged(review.sighted().live, review.answers.passed),
        review.kept().live.len() <= review.kept().target_population ==> review.kept().live.len()
            + review.answers.spawns.len() == review.kept().target_population,
        review.kept().live.len() > review.kept().target_population
            ==> review.answers.spawns.len() == 0,
{
}

/// Whether a road's answers go forward in an order of positions: the further
/// of two is no less far than either, and what is beyond a position is no
/// less far than it.
pub open spec fn goes_forward<R: TrafficRoad>(
    road: R,
    no_further: spec_fn(FloatBits, FloatBits) -> bool,
) -> bool {
    &&& forall|a: FloatBits, b: FloatBits, c: FloatBits|
        #[trigger] no_further(a, b) && #[trigger] no_further(b, c) ==> no_further(a, c)
    &&& forall|a: FloatBits, b: FloatBits, c: FloatBits| #[trigger]
        call_ensures(R::further, (&road, a, b), c) ==> no_further(a, c) && no_further(b, c)
    &&& forall|s: FloatBits, draw: u64, t: FloatBits| #[trigger]
        call_ensures(R::beyond, (&road, s, draw), t) ==> no_further(s, t)
}

/// On a road whose answers go forward, every new car appears no nearer than
/// where a fresh stretch starts ahead of the ego, and no nearer than the car
/// that was placed before it.
pub proof fn law_a_new_car_appears_ahead<R: TrafficRoad>(
    road: R,
    review: Review,
    after: SpawnerModel,
    no_further: spec_fn(FloatBits, FloatBits) -> bool,
    k: int,
)
    requires
        review.is_done(),
        after.talk == review.talk(),
        all_answered(road, after.talk),
        goes_forward(road, no_further),
        0 <= k < review.answers.arranged.len(),
    ensures
        no_further(review.frontier(k), review.answers.arranged[k].start_s),
        exists|ahead: FloatBits|
            no_further(ahead, review.answers.arranged[k].start_s) && #[trigger] call_ensures(
                R::ahead_of,
                (&road, review.kept().ego_s),
                ahead,
            ),
{
    law_the_road_decides(road, review, after);
    assert(answered(road, review.arranging(k)));
    let start_s = review.answers.arranged[k].start_s;
    let ego_s = review.kept().ego_s;
    let frontier_s = review.frontier(k);
    let draw = review.plan(k).gap_draw;
    let (ahead, from) = choose|ahead: FloatBits, from: FloatBits| #[trigger]
        placed(road, frontier_s, ego_s, draw, ahead, from, start_s);
    assert(placed(road, frontier_s, ego_s, draw, ahead, from, start_s));
    assert(call_ensures(R::further, (&road, frontier_s, ahead), from));
    assert(no_further(frontier_s, from) && no_further(ahead, from));
    assert(no_further(from, start_s));
}

/// Where the question about a new car stands among those about all of them.
proof fn lemma_arranging_asked(review: Review, n: nat, k: int)
    requires
        0 <= k < n,
    ensures
        review.spawning(n).len() == 2 * n,
        review.spawning(n)[2 * k] == review.arranging(k),
    decreases n,
{
    if k < n - 1 {
        lemma_arranging_asked(review, (n - 1) as nat, k);
    } else if n > 1 {
        lemma_arranging_asked(review, (n - 1) as nat, 0);
    } else {
        assert(review.spawning(0).len() == 0);
    }
}

/// Keeps the road ahead of the ego populated and retires what it has left
/// behind, watching poses to know where everyone is.
pub struct TrafficSpawner<R: TrafficRoad> {
    /// How often the road is reviewed.
    period: SimDuration,
    /// Lateral offsets to spawn into.
    lane_offsets: Vec<FloatBits>,
    roll: TrafficRoll,
    road: R,
    /// How far along the road the last spawn was placed, so that a stream of
    /// cars comes out spread rather than stacked at one point.
    frontier_s: FloatBits,
    talk: Ghost<Seq<RoadTalk>>,
}

impl<R: TrafficRoad> View for TrafficSpawner<R> {
    type V = SpawnerModel;

    closed spec fn view(&self) -> SpawnerModel {
        SpawnerModel {
            period: self.period,
            lanes: self.lane_offsets@,
            roll: self.roll@,
            frontier_s: self.frontier_s,
            talk: self.talk@,
        }
    }
}

impl<R: TrafficRoad> TrafficSpawner<R> {
    /// What holds of a spawner at every moment.
    pub closed spec fn wf(&self) -> bool {
        self.roll.wf() && all_answered(self.road, self.talk@)
    }

    /// The road it measures along, which stays the same.
    pub closed spec fn measured_along(&self) -> R {
        self.road
    }

    /// A spawner with an empty road; the first step fills it.
    pub fn new(
        period: SimDuration,
        road: R,
        ego_name: &str,
        lane_offsets: Vec<FloatBits>,
        target_population: usize,
    ) -> (spawner: Self)
        ensures
            spawner.wf(),
            spawner@ == (SpawnerModel {
                period,
                lanes: lane_offsets@,
                roll: RollModel {
                    ego_name: ego_name@,
                    target_population: target_population as nat,
                    live: Seq::empty(),
                    ego_s: FloatBits(0),
                    cars_spawned: 0,
                },
                frontier_s: FloatBits(0),
                talk: Seq::empty(),
            }),
            spawner.measured_along() == road,
    {
        TrafficSpawner {
            period,
            lane_offsets,
            roll: TrafficRoll::new(ego_name, target_population),
            road,
            frontier_s: FloatBits(0),
            talk: Ghost(Seq::empty()),
        }
    }

    /// The cars it has asked for.
    pub fn roll(&self) -> (roll: &TrafficRoll)
        requires
            self.wf(),
        ensures
            roll.wf(),
            roll@ == self@.roll,
    {
        &self.roll
    }

    /// The road it measures along.
    pub fn road(&self) -> (road: &R)
        ensures
            *road == self.measured_along(),
    {
        &self.road
    }

    /// How far along the road the last spawn was placed.
    pub fn frontier_s(&self) -> (s: FloatBits)
        ensures
            s == self@.frontier_s,
    {
        self.frontier_s
    }

    /// Asks where a message puts its publisher.
    fn locate(&mut self, message: &Message) -> (s: Result<FloatBits, CoreError>)
        requires
            old(self).wf(),
        ensures
            final(self).wf(),
            final(self).road == old(self).road,
            final(self).roll == old(self).roll,
            final(self)@ == (SpawnerModel {
                talk: old(self)@.talk.push(RoadTalk::Located(*message, s)),
                ..old(self)@
            }),
    {
        let s = self.road.locate(message);
        self.talk = Ghost(self.talk@.push(RoadTalk::Located(*message, s)));
        s
    }

    /// Takes note of where everyone is.
    fn sight_all(&mut self, ctx: &StepCtx) -> (done: Result<Ghost<RoadAnswers>, CoreError>)
        requires
            old(self).wf(),
        ensures
            final(self).wf(),
            final(self).road == old(self).road,
            final(self)@ == (SpawnerModel {
                roll: final(self)@.roll,
                talk: final(self)@.talk,
                ..old(self)@
            }),
            match done {
                Ok(answers) => {
                    let review = Review { spawner: old(self)@, ctx: ctx@, answers: answers@ };
                    &&& answers@ == (RoadAnswers { sights: answers@.sights, ..no_answers() })
                    &&& answers@.sights.len() == ctx@.inbox.len()
                    &&& final(self)@.roll == review.sighted()
                    &&& final(self)@.talk == review.talk()
                    &&& ctx@ == review.published()
                },
                Err(error) => stopped_within(
                    old(self)@,
                    ctx@,
                    error,
                    final(self)@.talk,
                    ctx@,
                ),
            },
    {
        let ghost start = self@;
        let ghost mut answers = no_answers();
        let inbox = ctx.inbox();
        let mut i: usize = 0;
        proof {
            lemma_nothing_yet(Review { spawner: start, ctx: ctx@, answers });
        }
        while i < inbox.len()
            invariant
                self.wf(),
                self.road == old(self).road,
                inbox@ == ctx@.inbox,
                i <= inbox@.len(),
                start == old(self)@,
                answers == (RoadAnswers { sights: answers.sights, ..no_answers() }),
                answers.sights.len() == i,
                self@ == (SpawnerModel {
                    roll: (Review { spawner: start, ctx: ctx@, answers }).sighted(),
                    talk: (Review { spawner: start, ctx: ctx@, answers }).talk(),
                    ..start
                }),
                ctx@ == (Review { spawner: start, ctx: ctx@, answers }).published(),
            decreases inbox@.len() - i,
        {
            let ghost review = Review { spawner: start, ctx: ctx@, answers };
            let message = &inbox[i];
            match self.locate(message) {
                Ok(s) => {
                    self.roll.sight(&message.publisher, s);
                    proof {
                        lemma_located(review, s);
                        answers = RoadAnswers { sights: answers.sights.push(s), ..answers };
                    }
                },
                Err(error) => {
                    proof {
                        let last = seq![RoadTalk::Located(*message, Err(error))];
                        assert(self@.talk =~= review.talk() + last);
                        assert(stopped(review, last, error, self@.talk, ctx@));
                    }
                    return Err(error);
                },
            }
            i += 1;
        }
        Ok(Ghost(answers))
    }

    /// Judges every car on the roll, in the order of the roll.
    fn judge_all(&mut self, Ghost(review): Ghost<Review>) -> (passed: Vec<bool>)
        requires
            old(self).wf(),
            old(self)@.roll == review.sighted(),
            old(self)@.talk == review.talk(),
            review.answers == (RoadAnswers { sights: review.answers.sights, ..no_answers() }),
        ensures
            final(self).wf(),
            final(self).road == old(self).road,
            passed@.len() == review.sighted().live.len(),
            ({
                let after = Review {
                    answers: RoadAnswers { passed: passed@, ..review.answers },
                    ..review
                };
                &&& final(self)@ == (SpawnerModel { talk: after.talk(), ..old(self)@ })
                &&& after.published() == review.published()
            }),
    {
        let mut passed: Vec<bool> = Vec::new();
        let ghost mut so_far = review;
        proof {
            assert(passed@ =~= review.answers.passed);
        }
        let cars: usize = self.roll.population();
        let mut i: usize = 0;
        while i < cars
            invariant
                self.wf(),
                self.road == old(self).road,
                cars == review.sighted().live.len(),
                i <= cars,
                passed@.len() == i,
                self@ == (SpawnerModel { talk: so_far.talk(), ..old(self)@ }),
                old(self)@.roll == review.sighted(),
                review.answers == (RoadAnswers { sights: review.answers.sights, ..no_answers() }),
                so_far == (Review {
                    answers: RoadAnswers { passed: passed@, ..review.answers },
                    ..review
                }),
                so_far.published() == review.published(),
            decreases cars - i,
        {
            let car_s = self.roll.car_s(i);
            let ego_s = self.roll.ego_s();
            let behind = self.road.is_behind(car_s, ego_s);
            self.talk = Ghost(self.talk@.push(RoadTalk::Behind(car_s, ego_s, behind)));
            proof {
                lemma_judged(so_far, behind);
            }
            passed.push(behind);
            proof {
                so_far = Review {
                    answers: RoadAnswers { passed: passed@, ..review.answers },
                    ..review
                };
            }
            i += 1;
        }
        passed
    }

    /// Asks for a car to be removed. Also returns what became of it.
    fn send_despawn(&mut self, ctx: &mut StepCtx, request: &DespawnTrafficRequest) -> (done: (
        Result<(), CoreError>,
        Ghost<PublishOutcome>,
    ))
        requires
            old(self).wf(),
            crate::keyexpr::key_error(
                crate::traffic::spawner_key(old(ctx)@.world_name, "despawn"@),
            ) is None,
        ensures
            final(self).wf(),
            final(self).road == old(self).road,
            final(self).roll == old(self).roll,
            final(self)@ == (SpawnerModel {
                talk: old(self)@.talk.push(RoadTalk::Despawn(request.actor_name@, done.1@)),
                ..old(self)@
            }),
            sent(
                crate::traffic::spawner_key(old(ctx)@.world_name, "despawn"@),
                done.1@,
                done.0,
                old(ctx)@,
                final(ctx)@,
            ),
    {
        let key = traffic_despawn_key(ctx.world_name());
        let written = self.road.write_despawn(request);
        let ghost outcome = outcome_of(written);
        self.talk = Ghost(self.talk@.push(RoadTalk::Despawn(request.actor_name@, outcome)));
        let done = ctx.publish(key, written.serialized, written.found);
        (done, Ghost(outcome))
    }

    /// Asks for a car to be spawned. Also returns what became of it.
    fn send_spawn(&mut self, ctx: &mut StepCtx, request: &SpawnTrafficRequest) -> (done: (
        Result<(), CoreError>,
        Ghost<PublishOutcome>,
    ))
        requires
            old(self).wf(),
            crate::keyexpr::key_error(
                crate::traffic::spawner_key(old(ctx)@.world_name, "spawn"@),
            ) is None,
        ensures
            final(self).wf(),
            final(self).road == old(self).road,
            final(self).roll == old(self).roll,
            final(self)@ == (SpawnerModel {
                talk: old(self)@.talk.push(RoadTalk::Spawn(spawn_model(*request), done.1@)),
                ..old(self)@
            }),
            sent(
                crate::traffic::spawner_key(old(ctx)@.world_name, "spawn"@),
                done.1@,
                done.0,
                old(ctx)@,
                final(ctx)@,
            ),
    {
        let key = traffic_spawn_key(ctx.world_name());
        let written = self.road.write_spawn(request);
        let ghost outcome = outcome_of(written);
        self.talk = Ghost(self.talk@.push(RoadTalk::Spawn(spawn_model(*request), outcome)));
        let done = ctx.publish(key, written.serialized, written.found);
        (done, Ghost(outcome))
    }

    /// Asks for each car that has been passed to be removed.
    fn send_despawns(
        &mut self,
        ctx: &mut StepCtx,
        requests: &Vec<DespawnTrafficRequest>,
        Ghost(review): Ghost<Review>,
    ) -> (done: Result<Ghost<Seq<Seq<u8>>>, CoreError>)
        requires
            old(self).wf(),
            review.answers.sights.len() == review.ctx.inbox.len(),
            review.answers.passed.len() == review.sighted().live.len(),
            review.answers.despawns.len() == 0,
            review.answers.arranged.len() == 0,
            review.answers.spawns.len() == 0,
            crate::traffic::asked_names(requests@) == review.gone(),
            old(self)@.talk == review.talk(),
            old(ctx)@ == review.published(),
            crate::keyexpr::key_error(review.key("despawn"@)) is None,
        ensures
            final(self).wf(),
            final(self).road == old(self).road,
            final(self)@ == (SpawnerModel { talk: final(self)@.talk, ..old(self)@ }),
            match done {
                Ok(despawns) => {
                    let after = Review {
                        answers: RoadAnswers { despawns: despawns@, ..review.answers },
                        ..review
                    };
                    &&& despawns@.len() == review.gone().len()
                    &&& final(self)@.talk == after.talk()
                    &&& final(ctx)@ == after.published()
                },
                Err(error) => stopped_within(
                    review.spawner,
                    review.ctx,
                    error,
                    final(self)@.talk,
                    final(ctx)@,
                ),
            },
    {
        let ghost mut despawns = review.answers.despawns;
        let ghost mut so_far = review;
        let mut i: usize = 0;
        while i < requests.len()
            invariant
                self.wf(),
                self.road == old(self).road,
                i <= requests@.len(),
                review.answers.sights.len() == review.ctx.inbox.len(),
                review.answers.passed.len() == review.sighted().live.len(),
                review.answers.arranged.len() == 0,
                review.answers.spawns.len() == 0,
                crate::traffic::asked_names(requests@) == review.gone(),
                crate::keyexpr::key_error(review.key("despawn"@)) is None,
                despawns.len() == i,
                so_far == (Review {
                    answers: RoadAnswers { despawns, ..review.answers },
                    ..review
                }),
                self@ == (SpawnerModel { talk: so_far.talk(), ..old(self)@ }),
                ctx@ == so_far.published(),
            decreases requests@.len() - i,
        {
            let ghost name = review.gone()[i as int];
            proof {
                assert(crate::traffic::asked_names(requests@)[i as int] == name);
                assert(so_far.gone() == review.gone());
            }
            let (done, Ghost(outcome)) = self.send_despawn(ctx, &requests[i]);
            match done {
                Ok(()) => {
                    proof {
                        let payload = outcome->Queued_0;
                        lemma_despawned(so_far, payload);
                        despawns = despawns.push(payload);
                        so_far = Review {
                            answers: RoadAnswers { despawns, ..review.answers },
                            ..review
                        };
                    }
                },
                Err(error) => {
                    proof {
                        let last = seq![RoadTalk::Despawn(name, outcome)];
                        assert(self@.talk =~= so_far.talk() + last);
                        assert(is_refusal(so_far.key("despawn"@), outcome, error));
                        assert(stopped(so_far, last, error, self@.talk, ctx@));
                    }
                    return Err(error);
                },
            }
            i += 1;
        }
        Ok(Ghost(despawns))
    }

    /// Strikes off the cars that have been passed, and asks for each to be
    /// removed.
    fn retire_passed(&mut self, ctx: &mut StepCtx, Ghost(review): Ghost<Review>) -> (done: Result<
        Ghost<RoadAnswers>,
        CoreError,
    >)
        requires
            old(self).wf(),
            old(self)@ == (SpawnerModel {
                roll: review.sighted(),
                talk: review.talk(),
                ..review.spawner
            }),
            old(ctx)@ == review.published(),
            review.answers == (RoadAnswers { sights: review.answers.sights, ..no_answers() }),
            review.answers.sights.len() == review.ctx.inbox.len(),
            crate::keyexpr::key_error(review.key("despawn"@)) is None,
        ensures
            final(self).wf(),
            final(self).road == old(self).road,
            final(self)@ == (SpawnerModel {
                roll: final(self)@.roll,
                talk: final(self)@.talk,
                ..old(self)@
            }),
            match done {
                Ok(answers) => {
                    let after = Review { answers: answers@, ..review };
                    &&& answers@ == (RoadAnswers {
                        sights: review.answers.sights,
                        passed: answers@.passed,
                        despawns: answers@.despawns,
                        ..no_answers()
                    })
                    &&& after.has_retired()
                    &&& final(self)@.roll == after.kept()
                    &&& final(self)@.talk == after.talk()
                    &&& final(ctx)@ == after.published()
                },
                Err(error) => stopped_within(
                    review.spawner,
                    review.ctx,
                    error,
                    final(self)@.talk,
                    final(ctx)@,
                ),
            },
    {
        let passed = self.judge_all(Ghost(review));
        let ghost judged = Review {
            answers: RoadAnswers { passed: passed@, ..review.answers },
            ..review
        };
        let requests = self.roll.retire(&passed);
        match self.send_despawns(ctx, &requests, Ghost(judged)) {
            Ok(despawns) => Ok(Ghost(RoadAnswers { despawns: despawns@, ..judged.answers })),
            Err(error) => Err(error),
        }
    }

    /// Arranges a planned car, a gap beyond the last spawn. The frontier is
    /// pulled forward to the ego first, so a stretch that has all been passed
    /// starts fresh ahead. The next car goes beyond this one.
    fn arrange(&mut self, plan: &SpawnPlan) -> (arrangement: Arrangement)
        requires
            old(self).wf(),
        ensures
            final(self).wf(),
            final(self).road == old(self).road,
            final(self).roll == old(self).roll,
            final(self)@ == (SpawnerModel {
                frontier_s: arrangement.start_s,
                talk: old(self)@.talk.push(
                    RoadTalk::Arranged {
                        frontier_s: old(self)@.frontier_s,
                        ego_s: old(self)@.roll.ego_s,
                        plan: plan@,
                        as_to: arrangement,
                    },
                ),
                ..old(self)@
            }),
    {
        let ego_s = self.roll.ego_s();
        let frontier_s = self.frontier_s;
        let ahead = self.road.ahead_of(ego_s);
        let from = self.road.further(frontier_s, ahead);
        let start_s = self.road.beyond(from, plan.gap_draw);
        let speed = self.road.speed(plan.speed_draw);
        let arrangement = Arrangement { start_s, speed };
        let ghost talk = RoadTalk::Arranged {
            frontier_s,
            ego_s,
            plan: plan@,
            as_to: arrangement,
        };
        proof {
            let said = plan@;
            let start = arrangement.start_s;
            assert(said.gap_draw == plan.gap_draw && said.speed_draw == plan.speed_draw);
            assert(start == start_s && arrangement.speed == speed);
            assert(placed(self.road, frontier_s, ego_s, said.gap_draw, ahead, from, start));
            assert(arranges(self.road, frontier_s, ego_s, plan@, arrangement));
            assert(answered(self.road, talk));
        }
        self.talk = Ghost(self.talk@.push(talk));
        self.frontier_s = arrangement.start_s;
        arrangement
    }

    /// Plans the next car and has it arranged.
    fn arrange_next(&mut self, stream: &mut RandomSplitMix64, first_due: SimTime) -> (request:
        SpawnTrafficRequest)
        requires
            old(self).wf(),
            old(self)@.lanes.len() > 0,
            old(self)@.roll.cars_spawned < u64::MAX,
        ensures
            final(self).wf(),
            final(self).road == old(self).road,
            final(stream).state == crate::traffic::stream_after(old(stream).state, 3),
            request.first_due == first_due,
            ({
                let before = old(self)@.roll;
                let plan = crate::traffic::plan_of(
                    before.cars_spawned + 1,
                    old(self)@.lanes.len() as int,
                    old(stream).state,
                );
                let arrangement = spawn_model(request).arrangement;
                &&& request.actor_name@ == plan.name
                &&& request.lane_offset == old(self)@.lanes[plan.lane]
                &&& final(self)@ == (SpawnerModel {
                    roll: with_spawned(before, seq![arrangement]),
                    frontier_s: arrangement.start_s,
                    talk: old(self)@.talk.push(
                        RoadTalk::Arranged {
                            frontier_s: old(self)@.frontier_s,
                            ego_s: before.ego_s,
                            plan,
                            as_to: arrangement,
                        },
                    ),
                    ..old(self)@
                })
            }),
    {
        let plan = self.roll.plan_spawn(self.lane_offsets.len(), stream);
        let arrangement = self.arrange(&plan);
        self.roll.enter(plan.actor_name.as_str(), arrangement.start_s);
        proof {
            reveal_with_fuel(with_spawned, 2);
            assert(seq![arrangement].drop_last() =~= Seq::<Arrangement>::empty());
        }
        SpawnTrafficRequest {
            actor_name: plan.actor_name,
            lane_offset: self.lane_offsets[plan.lane],
            speed: arrangement.speed,
            start_s: arrangement.start_s,
            first_due,
        }
    }

    /// Spawns the next car that is missing. Returns what has been answered
    /// with it.
    fn spawn_next(
        &mut self,
        ctx: &mut StepCtx,
        stream: &mut RandomSplitMix64,
        first_due: SimTime,
        Ghost(review): Ghost<Review>,
    ) -> (done: Result<Ghost<RoadAnswers>, CoreError>)
        requires
            old(self).wf(),
            review.has_retired(),
            review.answers.arranged.len() == review.answers.spawns.len(),
            review.answers.spawns.len() < crate::traffic::missing(review.kept()),
            crate::traffic::is_roll(review.kept()),
            old(self)@ == (SpawnerModel {
                roll: review.filled(),
                frontier_s: review.frontier(review.answers.arranged.len() as int),
                talk: review.talk(),
                ..review.spawner
            }),
            old(ctx)@ == review.published(),
            old(stream).state == crate::traffic::stream_after(
                review.seed(),
                3 * review.answers.spawns.len(),
            ),
            first_due == review.next_due(),
            review.spawner.lanes.len() > 0,
            review.kept().cars_spawned + review.kept().target_population <= u64::MAX,
            crate::keyexpr::key_error(review.key("spawn"@)) is None,
        ensures
            final(self).wf(),
            final(self).road == old(self).road,
            final(self)@ == (SpawnerModel {
                roll: final(self)@.roll,
                frontier_s: final(self)@.frontier_s,
                talk: final(self)@.talk,
                ..old(self)@
            }),
            match done {
                Ok(answers) => {
                    let after = Review { answers: answers@, ..review };
                    let k = review.answers.spawns.len();
                    &&& answers@ == (RoadAnswers {
                        arranged: answers@.arranged,
                        spawns: answers@.spawns,
                        ..review.answers
                    })
                    &&& answers@.arranged.len() == k + 1
                    &&& answers@.spawns.len() == k + 1
                    &&& after.gone() == review.gone()
                    &&& after.kept() == review.kept()
                    &&& final(self)@.roll == after.filled()
                    &&& final(self)@.frontier_s == after.frontier((k + 1) as int)
                    &&& final(self)@.talk == after.talk()
                    &&& final(ctx)@ == after.published()
                    &&& final(stream).state == crate::traffic::stream_after(
                        review.seed(),
                        3 * (k + 1),
                    )
                },
                Err(error) => stopped_within(
                    review.spawner,
                    review.ctx,
                    error,
                    final(self)@.talk,
                    final(ctx)@,
                ),
            },
    {
        let ghost k = review.answers.spawns.len();
        proof {
            lemma_spawned_roll(review.kept(), review.answers.arranged);
        }
        let request = self.arrange_next(stream, first_due);
        let ghost arrangement = spawn_model(request).arrangement;
        let ghost arranged = Review {
            answers: RoadAnswers {
                arranged: review.answers.arranged.push(arrangement),
                ..review.answers
            },
            ..review
        };
        proof {
            lemma_arranged(review, arrangement);
            lemma_one_more(review.kept(), review.answers.arranged, arrangement);
            lemma_stream_of_next(review.seed(), k);
            assert(self@.talk == review.talk().push(arranged.arranging(k as int)));
        }
        let (done, Ghost(outcome)) = self.send_spawn(ctx, &request);
        match done {
            Ok(()) => {
                let ghost payload = outcome->Queued_0;
                proof {
                    lemma_spawned(arranged, payload);
                }
                Ok(
                    Ghost(
                        RoadAnswers {
                            spawns: arranged.answers.spawns.push(payload),
                            ..arranged.answers
                        },
                    ),
                )
            },
            Err(error) => {
                proof {
                    let last = seq![
                        arranged.arranging(k as int),
                        RoadTalk::Spawn(arranged.request(k as int), outcome),
                    ];
                    assert(self@.talk =~= arranged.talk() + last);
                    assert(is_refusal(arranged.key("spawn"@), outcome, error));
                    assert(stopped(arranged, last, error, self@.talk, ctx@));
                }
                Err(error)
            },
        }
    }

    /// Tops the roll back up, and asks for each new car.
    fn top_up(
        &mut self,
        ctx: &mut StepCtx,
        first_due: SimTime,
        Ghost(review): Ghost<Review>,
    ) -> (done: Result<Ghost<RoadAnswers>, CoreError>)
        requires
            old(self).wf(),
            review.has_retired(),
            review.answers.arranged.len() == 0,
            review.answers.spawns.len() == 0,
            old(self)@ == (SpawnerModel {
                roll: review.kept(),
                talk: review.talk(),
                ..review.spawner
            }),
            old(ctx)@ == review.published(),
            first_due == review.next_due(),
            review.kept().target_population > 0 ==> review.spawner.lanes.len() > 0,
            review.kept().cars_spawned + review.kept().target_population <= u64::MAX,
            crate::keyexpr::key_error(review.key("spawn"@)) is None,
        ensures
            final(self).wf(),
            final(self).road == old(self).road,
            match done {
                Ok(answers) => stepped(
                    Review { answers: answers@, ..review },
                    final(self)@,
                    final(ctx)@,
                ),
                Err(error) => stopped_within(
                    review.spawner,
                    review.ctx,
                    error,
                    final(self)@.talk,
                    final(ctx)@,
                ),
            },
    {
        let mut stream = ctx.step_random();
        let ghost mut so_far = review;
        proof {
            assert(review.filled() == review.kept());
        }
        while self.roll.wants_car()
            invariant
                self.wf(),
                self.road == old(self).road,
                crate::traffic::is_roll(review.kept()),
                so_far == (Review { answers: so_far.answers, ..review }),
                so_far.has_retired(),
                so_far.kept() == review.kept(),
                so_far.answers.arranged.len() == so_far.answers.spawns.len(),
                so_far.answers.spawns.len() <= crate::traffic::missing(review.kept()),
                stream.state == crate::traffic::stream_after(
                    review.seed(),
                    3 * so_far.answers.spawns.len(),
                ),
                self@ == (SpawnerModel {
                    roll: so_far.filled(),
                    frontier_s: so_far.frontier(so_far.answers.arranged.len() as int),
                    talk: so_far.talk(),
                    ..review.spawner
                }),
                ctx@ == so_far.published(),
                first_due == review.next_due(),
                review.kept().target_population > 0 ==> review.spawner.lanes.len() > 0,
                review.kept().cars_spawned + review.kept().target_population <= u64::MAX,
                crate::keyexpr::key_error(review.key("spawn"@)) is None,
            decreases crate::traffic::missing(review.kept()) - so_far.answers.spawns.len(),
        {
            proof {
                lemma_spawned_roll(review.kept(), so_far.answers.arranged);
            }
            match self.spawn_next(ctx, &mut stream, first_due, Ghost(so_far)) {
                Ok(answers) => {
                    proof {
                        so_far = Review { answers: answers@, ..review };
                    }
                },
                Err(error) => {
                    return Err(error);
                },
            }
        }
        proof {
            lemma_spawned_roll(review.kept(), so_far.answers.arranged);
        }
        Ok(Ghost(so_far.answers))
    }

    /// Reviews the road: takes note of where the road puts everyone, retires
    /// what it says the ego has gone past, tops the traffic back up, and is next due one
    /// period on.
    ///
    /// A car is struck off when its removal is requested, so it is not asked
    /// for twice while a request is in flight. A pose that cannot be read, or
    /// a request that cannot be published, ends the step with that error.
    pub fn step(&mut self, ctx: &mut StepCtx) -> (next: Result<SimTime, CoreError>)
        requires
            old(self).wf(),
            crate::time::fits(old(ctx)@.now.0 + old(self)@.period.0),
            old(self)@.roll.target_population > 0 ==> old(self)@.lanes.len() > 0,
            old(self)@.roll.cars_spawned + old(self)@.roll.target_population <= u64::MAX,
            crate::keyexpr::key_error(
                crate::traffic::spawner_key(old(ctx)@.world_name, "spawn"@),
            ) is None,
            crate::keyexpr::key_error(
                crate::traffic::spawner_key(old(ctx)@.world_name, "despawn"@),
            ) is None,
        ensures
            final(self).wf(),
            final(self).measured_along() == old(self).measured_along(),
            all_answered(final(self).measured_along(), final(self)@.talk),
            match next {
                Ok(due) => {
                    &&& due.0 == old(ctx)@.now.0 + old(self)@.period.0
                    &&& exists|answers: RoadAnswers| #[trigger]
                        stepped(
                            Review { spawner: old(self)@, ctx: old(ctx)@, answers },
                            final(self)@,
                            final(ctx)@,
                        )
                },
                Err(error) => stopped_within(
                    old(self)@,
                    old(ctx)@,
                    error,
                    final(self)@.talk,
                    final(ctx)@,
                ),
            },
    {
        let ghost spawner = self@;
        let ghost shown = ctx@;
        let sighted = match self.sight_all(ctx) {
            Ok(answers) => answers,
            Err(error) => {
                return Err(error);
            },
        };
        let ghost review = Review { spawner, ctx: shown, answers: sighted@ };
        proof {
            lemma_sighting_keeps(spawner.roll, shown.inbox, sighted@.sights);
        }
        let retired = match self.retire_passed(ctx, Ghost(review)) {
            Ok(answers) => answers,
            Err(error) => {
                return Err(error);
            },
        };
        let next_due = ctx.now() + self.period;
        match self.top_up(ctx, next_due, Ghost(Review { answers: retired@, ..review })) {
            Ok(_) => Ok(next_due),
            Err(error) => Err(error),
        }
    }
}

} // verus!
