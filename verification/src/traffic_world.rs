//! The demo world shared by every traffic example: what it is configured as,
//! and how the spawner's requests become membership changes.
use vstd::prelude::*;
use vstd::string::*;

use crate::actors::FloatBits;
use crate::cast::{cast_part, Part};
use crate::component::Component;
use crate::conductor::Conductor;
use crate::conductor_error::{ConductorError, ConductorErrorModel};
use crate::config::ConductorConfig;
use crate::error::CoreError;
use crate::ids::ComponentId;
use crate::keyexpr::KeyExpr;
use crate::membership::WORLD_LEVEL;
use crate::messages::Message;
use crate::observers::Observer;
use crate::pacing::{Pacing, WallClock};
use crate::playback::{PlaybackComponent, PlaybackModel};
use crate::record::{EventLog, LogEvent, LogEventModel};
use crate::text::{decimal_text, same_text, split_text};
use crate::time::SimTime;
use crate::traffic::{
    traffic_despawn_key, traffic_spawn_key, DespawnTrafficRequest, SpawnTrafficRequest,
};
use crate::transport::Transport;
use crate::stage::StageModel;
use crate::world::WorldModel;

verus! {

/// One seed for the whole demo family: record, verify, and resim must all
/// agree on it.
pub const WORLD_SEED: u64 = 42;

pub const WORLD_NAME: &'static str = "demo";

pub const SIM_SECONDS: i64 = 30;

/// What the ego holds in the live scenario: 30 m/s, as a float's bits.
pub const EGO_SPEED_BITS: u64 = 0x403E_0000_0000_0000;

/// The car the scenario is arranged around.
pub const EGO_NAME: &'static str = "ego";

/// How many traffic cars the live demo keeps on the road at once.
pub const TRAFFIC_POPULATION: usize = 6;

/// The size the live demo holds at once: the ego plus its traffic.
pub const BASELINE_DEMO_CARS: usize = 7;

/// The ego's lane and the traffic's.
pub const BASELINE_DEMO_LANES: usize = 3;

/// The demo world's conductor configuration (free-run).
pub fn config() -> (config: ConductorConfig)
    ensures
        config.world_name@ == WORLD_NAME@,
        config.world_seed == WORLD_SEED,
        config.pacing == Pacing::FreeRun,
{
    config_paced(Pacing::FreeRun)
}

/// The demo world's conductor configuration with the pacing mode chosen
/// explicitly. Same seed and name whatever the pacing, so all modes produce
/// the same world hash.
pub fn config_paced(pacing: Pacing) -> (config: ConductorConfig)
    ensures
        config.world_name@ == WORLD_NAME@,
        config.world_seed == WORLD_SEED,
        config.pacing == pacing,
{
    ConductorConfig { world_name: WORLD_NAME.to_owned(), world_seed: WORLD_SEED, pacing }
}

// ---------------------------------------------------------------------------
// The scale scenario
// ---------------------------------------------------------------------------

/// Where a car of the scale scenario starts, in whole numbers of lanes, rows
/// and speed steps.
#[derive(Debug)]
pub struct ScaleSlot {
    pub actor_name: String,
    pub lane: usize,
    pub row: usize,
    pub speed_step: usize,
}

/// Where the car with an index starts: cars fill the lanes and then wrap onto
/// another row further along the road, and speeds follow a fixed pattern.
pub fn scale_slot(index: usize, lanes: usize) -> (slot: ScaleSlot)
    requires
        lanes > 0,
    ensures
        slot.actor_name@ == "car"@ + crate::text::decimal(index as nat),
        slot.lane == index % lanes,
        slot.row == index / lanes,
        slot.speed_step == index % 7,
{
    ScaleSlot {
        actor_name: "car".to_owned().concat(decimal_text(index as u64).as_str()),
        lane: index % lanes,
        row: index / lanes,
        speed_step: index % 7,
    }
}

// ---------------------------------------------------------------------------
// Reading a recorded run
// ---------------------------------------------------------------------------

/// The actor that a joining path is part of, where the path has a parent.
pub open spec fn actor_of_join(path: Seq<char>) -> Option<Seq<char>> {
    let parts = crate::text::split(path, '/');
    if parts.len() > 1 {
        Some(parts[0])
    } else {
        None
    }
}

/// The traffic actors that some log lines contain, each once, in the order
/// they first joined.
pub open spec fn traffic_names(events: Seq<LogEventModel>) -> Seq<Seq<char>>
    decreases events.len(),
{
    if events.len() == 0 {
        Seq::empty()
    } else {
        let earlier = traffic_names(events.drop_last());
        match events.last() {
            LogEventModel::Join { path, first_due } => match actor_of_join(path) {
                Some(name) => if name != EGO_NAME@ && !earlier.contains(name) {
                    earlier.push(name)
                } else {
                    earlier
                },
                None => earlier,
            },
            _ => earlier,
        }
    }
}

/// Whether a text is among some texts.
fn holds_text(list: &Vec<String>, text: &str) -> (found: bool)
    ensures
        found == crate::text::texts(list@).contains(text@),
{
    let ghost all = crate::text::texts(list@);
    let mut i: usize = 0;
    while i < list.len()
        invariant
            all == crate::text::texts(list@),
            0 <= i <= list@.len(),
            forall|k: int| 0 <= k < i ==> #[trigger] all[k] != text@,
        decreases list@.len() - i,
    {
        proof {
            assert(all[i as int] == list@[i as int]@);
        }
        if same_text(list[i].as_str(), text) {
            return true;
        }
        i += 1;
    }
    false
}

/// The traffic actors a recorded run contained, in the order they joined.
///
/// Cars are composites, so their join paths have a parent; the spawner and
/// the logger are world-level leaves and have none, which separates them here
/// without matching on names.
pub fn recorded_traffic_actor_names(recorded: &EventLog) -> (names: Vec<String>)
    ensures
        crate::text::texts(names@) == traffic_names(
            crate::record::event_models(recorded.events@),
        ),
{
    let ghost all = crate::record::event_models(recorded.events@);
    let mut names: Vec<String> = Vec::new();
    let mut i: usize = 0;
    proof {
        assert(all.take(0) =~= Seq::<LogEventModel>::empty());
        assert(crate::text::texts(names@) =~= Seq::<Seq<char>>::empty());
    }
    while i < recorded.events.len()
        invariant
            all == crate::record::event_models(recorded.events@),
            0 <= i <= recorded.events@.len(),
            crate::text::texts(names@) == traffic_names(all.take(i as int)),
        decreases recorded.events@.len() - i,
    {
        proof {
            assert(all.take(i + 1).drop_last() =~= all.take(i as int));
            assert(all.take(i + 1).last() == recorded.events@[i as int]@);
        }
        match &recorded.events[i] {
            LogEvent::Join(join) => {
                let mut parts = split_text(join.path.as_str(), '/');
                if parts.len() > 1 {
                    proof {
                        assert(crate::text::texts(parts@)[0] == parts@[0]@);
                    }
                    let actor_name = parts.remove(0);
                    if !same_text(actor_name.as_str(), EGO_NAME) && !holds_text(
                        &names,
                        actor_name.as_str(),
                    ) {
                        let ghost before = names@;
                        names.push(actor_name);
                        proof {
                            assert(crate::text::texts(names@) =~= crate::text::texts(before).push(
                                actor_name@,
                            ));
                        }
                    }
                }
            },
            _ => {},
        }
        i += 1;
    }
    proof {
        assert(all.take(i as int) =~= all);
    }
    names
}

// ---------------------------------------------------------------------------
// Requests
// ---------------------------------------------------------------------------

/// One membership change the sim asked for.
#[derive(Debug)]
pub enum Request {
    Spawn(SpawnTrafficRequest),
    Despawn(DespawnTrafficRequest),
}

/// Which kind of request a message carries.
#[derive(Debug, Clone, Copy, PartialEq, Eq, Structural)]
pub enum RequestKind {
    Spawn,
    Despawn,
}

/// Carries the spawner's decisions out to the conductor: collects the
/// requests it publishes, and turns them into membership changes between
/// ticks.
///
/// The two are one job split by a boundary the sim cannot cross: a component
/// can decide a car should exist but cannot build one.
pub struct TrafficRequestHandler {
    spawn_key: KeyExpr,
    despawn_key: KeyExpr,
    /// Requests collected since the last [`Self::apply`], in publish order.
    pending_requests: Vec<Request>,
    /// The first request that could not be read, held until [`Self::apply`]
    /// reports it.
    unreadable_request: Option<CoreError>,
}

/// What a [`TrafficRequestHandler`] holds.
pub struct HandlerModel {
    pub spawn_key: Seq<char>,
    pub despawn_key: Seq<char>,
    pub pending: Seq<Request>,
    pub unreadable: Option<CoreError>,
}

impl View for TrafficRequestHandler {
    type V = HandlerModel;

    closed spec fn view(&self) -> HandlerModel {
        HandlerModel {
            spawn_key: self.spawn_key@,
            despawn_key: self.despawn_key@,
            pending: self.pending_requests@,
            unreadable: self.unreadable_request,
        }
    }
}

/// Which kind of request a key is for, if any.
pub open spec fn kind_of_key(h: HandlerModel, key: Seq<char>) -> Option<RequestKind> {
    if key == h.spawn_key {
        Some(RequestKind::Spawn)
    } else if key == h.despawn_key {
        Some(RequestKind::Despawn)
    } else {
        None
    }
}

/// Whether an error says that a message's payload could not be read, and why.
pub open spec fn reports(error: CoreError, message: Message, source: Seq<char>) -> bool {
    error matches CoreError::PayloadDecode { key, publisher, source: said } && key@
        == message.key@ && publisher@ == crate::ids::path_text(message.publisher@) && said@
        == source
}

/// What builds the two components of a car: a controller and a plant, which
/// compute with floats.
pub trait CarBuilder<K> {
    /// The car's controller.
    fn controller(&self, request: &SpawnTrafficRequest) -> K;

    /// The car's plant.
    fn physics(&self, request: &SpawnTrafficRequest) -> K;
}

/// The part of a car's controller: what the builder makes of the request.
pub open spec fn controller_part<K, B: CarBuilder<K>>(
    builder: B,
    request: SpawnTrafficRequest,
) -> Part<K> {
    Part {
        who: |component: K| call_ensures(B::controller, (&builder, &request), component),
        parent: request.actor_name@,
        first_due: request.first_due,
    }
}

/// The part of a car's plant: what the builder makes of the request.
pub open spec fn physics_part<K, B: CarBuilder<K>>(
    builder: B,
    request: SpawnTrafficRequest,
) -> Part<K> {
    Part {
        who: |component: K| call_ensures(B::physics, (&builder, &request), component),
        parent: request.actor_name@,
        first_due: request.first_due,
    }
}

/// The parts of a car: its controller and then its plant, both at the instant
/// that was asked for.
pub open spec fn car_parts<K, B: CarBuilder<K>>(
    builder: B,
    request: SpawnTrafficRequest,
) -> Seq<Part<K>> {
    seq![controller_part(builder, request), physics_part(builder, request)]
}

/// Whether applying one request leads from one stage to another. A request
/// for someone already gone has simply been satisfied early.
pub open spec fn handles<K: Component, C: WallClock, B: CarBuilder<K>>(
    builder: B,
    before: StageModel<K, C>,
    request: Request,
    after: StageModel<K, C>,
    outcome: Result<(), ConductorErrorModel>,
) -> bool {
    match request {
        Request::Spawn(spawn) => exists|stages: Seq<StageModel<K, C>>| #[trigger]
            crate::cast::casts(before, car_parts(builder, spawn), stages, after, outcome),
        Request::Despawn(despawn) => {
            let answer = crate::world::leave_request(before.world, despawn.actor_name@, None);
            &&& after == (StageModel {
                world: answer.world,
                cast: if answer.answer is Ok {
                    crate::stage::cast_after_leave(
                        before.cast,
                        before.world,
                        despawn.actor_name@,
                        None,
                    )
                } else {
                    before.cast
                },
                ..before
            })
            &&& match answer.answer {
                Ok(_) => outcome == Ok::<(), ConductorErrorModel>(()),
                Err(ConductorErrorModel::UnknownPath(_)) => outcome == Ok::<
                    (),
                    ConductorErrorModel,
                >(()),
                Err(error) => outcome == Err::<(), ConductorErrorModel>(error),
            }
        },
    }
}

/// Whether a stage of a run of requests leads to the one after it.
pub open spec fn handles_at<K: Component, C: WallClock, B: CarBuilder<K>>(
    builder: B,
    requests: Seq<Request>,
    stages: Seq<StageModel<K, C>>,
    i: int,
) -> bool {
    handles(builder, stages[i], requests[i], stages[i + 1], Ok::<(), ConductorErrorModel>(()))
}

/// Whether applying requests in order leads from one stage to another, up to
/// the first that is refused.
pub open spec fn applies<K: Component, C: WallClock, B: CarBuilder<K>>(
    builder: B,
    before: StageModel<K, C>,
    requests: Seq<Request>,
    stages: Seq<StageModel<K, C>>,
    after: StageModel<K, C>,
    outcome: Result<(), ConductorErrorModel>,
) -> bool {
    &&& 1 <= stages.len() <= requests.len() + 1
    &&& stages[0] == before
    &&& forall|i: int|
        0 <= i < stages.len() - 1 ==> #[trigger] handles_at(builder, requests, stages, i)
    &&& match outcome {
        Ok(_) => stages.len() == requests.len() + 1 && after == stages.last(),
        Err(error) => stages.len() <= requests.len() && handles(
            builder,
            stages.last(),
            requests[stages.len() - 1],
            after,
            Err::<(), ConductorErrorModel>(error),
        ),
    }
}

/// Leaves taking effect do not move the clock.
proof fn lemma_all_gone_keeps_time(m: WorldModel, paths: Seq<Seq<Seq<char>>>, leaves_at: i64)
    ensures
        crate::world::all_gone(m, paths, leaves_at).tick == m.tick,
        crate::world::all_gone(m, paths, leaves_at).sim_time == m.sim_time,
    decreases paths.len(),
{
    if paths.len() > 0 {
        lemma_all_gone_keeps_time(m, paths.drop_last(), leaves_at);
    }
}

/// A leave request does not move the clock.
proof fn lemma_leave_keeps_time(m: WorldModel, asked: Seq<char>)
    ensures
        crate::world::leave_request(m, asked, None).world.tick == m.tick,
        crate::world::leave_request(m, asked, None).world.sim_time == m.sim_time,
{
    if let Ok(path) = crate::ids::parse_path(asked) {
        let noted = crate::world::leave_noted(m, asked, None);
        lemma_all_gone_keeps_time(
            noted,
            crate::world::departing(m, path),
            crate::world::earliest_open(m) as i64,
        );
    }
}

/// Registers one car as the composite of its actor name. Declared order
/// matters: the controller is registered before the plant, so its command
/// reaches the plant same-instant when both are due.
pub fn add_car<K: Component, T: Transport, O: Observer, C: WallClock, B: CarBuilder<K>>(
    conductor: &mut Conductor<K, T, O, C>,
    builder: &B,
    request: &SpawnTrafficRequest,
) -> (done: Result<(), ConductorError>)
    requires
        old(conductor).wf(),
        old(conductor)@.tick == 0 || old(conductor)@.sim_time.0 < i64::MAX,
    ensures
        final(conductor).wf(),
        final(conductor)@.tick == old(conductor)@.tick,
        final(conductor)@.sim_time == old(conductor)@.sim_time,
        exists|stages: Seq<StageModel<K, C>>| #[trigger]
            crate::cast::casts(
                old(conductor).stage(),
                car_parts(*builder, *request),
                stages,
                final(conductor).stage(),
                crate::cast::outcome_model(done),
            ),
{
    let ghost parts = car_parts::<K, B>(*builder, *request);
    let ghost start = seq![conductor.stage()];
    let mut stages: Ghost<Seq<StageModel<K, C>>> = Ghost(start);
    match cast_car(conductor, builder, request, Ghost(parts), &mut stages) {
        Ok(_) => {
            proof {
                assert(crate::cast::casts(
                    old(conductor).stage(),
                    parts,
                    stages@,
                    conductor.stage(),
                    Ok::<(), ConductorErrorModel>(()),
                ));
            }
            Ok(())
        },
        Err(error) => Err(error),
    }
}

/// Whether a part is under a car, at the instant that was asked for.
pub open spec fn is_for_car<K>(part: Part<K>, request: SpawnTrafficRequest) -> bool {
    part.parent == request.actor_name@ && part.first_due == request.first_due
}

/// Has a car take the next two parts of a cast.
fn cast_car<K: Component, T: Transport, O: Observer, C: WallClock, B: CarBuilder<K>>(
    conductor: &mut Conductor<K, T, O, C>,
    builder: &B,
    request: &SpawnTrafficRequest,
    Ghost(parts): Ghost<Seq<Part<K>>>,
    stages: &mut Ghost<Seq<StageModel<K, C>>>,
) -> (done: Result<(), ConductorError>)
    requires
        old(conductor).wf(),
        old(conductor)@.tick == 0 || old(conductor)@.sim_time.0 < i64::MAX,
        crate::cast::taken_so_far(parts, old(stages)@),
        old(stages)@.last() == old(conductor).stage(),
        old(stages)@.len() + 1 <= parts.len(),
        is_for_car(parts[old(stages)@.len() - 1], *request),
        is_for_car(parts[old(stages)@.len() as int], *request),
        forall|component: K| #[trigger]
            call_ensures(B::controller, (builder, request), component) ==> (parts[old(stages)@.len() - 1].who)(component),
        forall|component: K| #[trigger]
            call_ensures(B::physics, (builder, request), component) ==> (parts[old(stages)@.len() as int].who)(component),
    ensures
        final(conductor).wf(),
        final(conductor)@.tick == old(conductor)@.tick,
        final(conductor)@.sim_time == old(conductor)@.sim_time,
        match done {
            Ok(_) => final(stages)@.len() == old(stages)@.len() + 2 && final(stages)@[0]
                == old(stages)@[0] && final(stages)@.last() == final(conductor).stage()
                && crate::cast::taken_so_far(parts, final(stages)@),
            Err(error) => exists|all: Seq<StageModel<K, C>>| #[trigger]
                crate::cast::casts(
                    old(stages)@[0],
                    parts,
                    all,
                    final(conductor).stage(),
                    Err::<(), ConductorErrorModel>(error@),
                ),
        },
{
    let controller = builder.controller(request);
    match cast_part(
        conductor,
        request.actor_name.as_str(),
        request.first_due,
        controller,
        Ghost(parts),
        stages,
    ) {
        Ok(_) => {},
        Err(error) => {
            return Err(error);
        },
    }
    let physics = builder.physics(request);
    cast_part(
        conductor,
        request.actor_name.as_str(),
        request.first_due,
        physics,
        Ghost(parts),
        stages,
    )
}

impl TrafficRequestHandler {
    /// A handler of the requests that a world's spawner publishes.
    pub fn new(world_name: &str) -> (handler: Self)
        requires
            crate::keyexpr::key_error(crate::traffic::spawner_key(world_name@, "spawn"@)) is None,
            crate::keyexpr::key_error(
                crate::traffic::spawner_key(world_name@, "despawn"@),
            ) is None,
        ensures
            handler@ == (HandlerModel {
                spawn_key: crate::traffic::spawner_key(world_name@, "spawn"@),
                despawn_key: crate::traffic::spawner_key(world_name@, "despawn"@),
                pending: Seq::empty(),
                unreadable: None,
            }),
    {
        TrafficRequestHandler {
            spawn_key: traffic_spawn_key(world_name),
            despawn_key: traffic_despawn_key(world_name),
            pending_requests: Vec::new(),
            unreadable_request: None,
        }
    }

    /// Which kind of request a message carries. Only two keys are requests;
    /// anything else is someone else's traffic.
    pub fn kind_of(&self, message: &Message) -> (kind: Option<RequestKind>)
        ensures
            kind == kind_of_key(self@, message.key@),
    {
        if message.key == self.spawn_key {
            Some(RequestKind::Spawn)
        } else if message.key == self.despawn_key {
            Some(RequestKind::Despawn)
        } else {
            None
        }
    }

    /// Collects the request that a message carries, given what the
    /// deserializer made of its payload.
    ///
    /// A request that cannot be read is a car that never arrives or never
    /// leaves, changing the scenario in silence; it is held, and
    /// [`Self::apply`] reports it at the next tick boundary. First one wins:
    /// later failures are consequences of a scenario that is already wrong.
    pub fn callback(&mut self, message: &Message, parsed: Result<Request, String>)
        ensures
            final(self)@.spawn_key == old(self)@.spawn_key,
            final(self)@.despawn_key == old(self)@.despawn_key,
            match kind_of_key(old(self)@, message.key@) {
                None => final(self)@.pending == old(self)@.pending && final(self)@.unreadable
                    == old(self)@.unreadable,
                Some(_) => match parsed {
                    Ok(request) => final(self)@.pending == old(self)@.pending.push(request)
                        && final(self)@.unreadable == old(self)@.unreadable,
                    Err(source) => final(self)@.pending == old(self)@.pending && (
                    match old(self)@.unreadable {
                        Some(first) => final(self)@.unreadable == Some(first),
                        None => final(self)@.unreadable matches Some(error) && reports(
                            error,
                            *message,
                            source@,
                        ),
                    }),
                },
            },
    {
        if self.kind_of(message).is_none() {
            return;
        }
        match message.decode(parsed) {
            Ok(request) => {
                self.pending_requests.push(request);
            },
            Err(error) => {
                if self.unreadable_request.is_none() {
                    self.unreadable_request = Some(error);
                }
            },
        }
    }

    /// Applies everything the spawner has asked for since the last call, in
    /// the order it asked.
    pub fn apply<K: Component, T: Transport, O: Observer, C: WallClock, B: CarBuilder<K>>(
        &mut self,
        conductor: &mut Conductor<K, T, O, C>,
        builder: &B,
    ) -> (done: Result<(), ConductorError>)
        requires
            old(conductor).wf(),
            old(conductor)@.tick == 0 || old(conductor)@.sim_time.0 < i64::MAX,
        ensures
            final(conductor).wf(),
            final(conductor)@.tick == old(conductor)@.tick,
            final(conductor)@.sim_time == old(conductor)@.sim_time,
            final(self)@.spawn_key == old(self)@.spawn_key,
            final(self)@.despawn_key == old(self)@.despawn_key,
            final(self)@.unreadable is None,
            match old(self)@.unreadable {
                Some(error) => final(conductor).stage() == old(conductor).stage() && final(self)@.pending
                    == old(self)@.pending && done == Err::<(), ConductorError>(
                    ConductorError::Core(error),
                ),
                None => final(self)@.pending == Seq::<Request>::empty() && exists|
                    stages: Seq<StageModel<K, C>>,
                | #[trigger]
                    applies(
                        *builder,
                        old(conductor).stage(),
                        old(self)@.pending,
                        stages,
                        final(conductor).stage(),
                        crate::cast::outcome_model(done),
                    ),
            },
    {
        // Before anything is applied, since a request that could not be read
        // means the collected ones are an incomplete account of what the sim
        // asked for.
        let unreadable = self.unreadable_request.take();
        match unreadable {
            Some(error) => {
                return Err(ConductorError::Core(error));
            },
            None => {},
        }
        let mut collected: Vec<Request> = Vec::new();
        collected.append(&mut self.pending_requests);
        let ghost all = collected@;
        let ghost mut stages: Seq<StageModel<K, C>> = seq![conductor.stage()];
        let ghost mut taken: int = 0;
        proof {
            assert(all =~= old(self)@.pending);
            assert(all.skip(0) =~= all);
            assert(self@.pending =~= Seq::<Request>::empty());
        }
        while collected.len() > 0
            invariant
                conductor.wf(),
                conductor@.tick == old(conductor)@.tick,
                conductor@.sim_time == old(conductor)@.sim_time,
                conductor@.tick == 0 || conductor@.sim_time.0 < i64::MAX,
                self@.spawn_key == old(self)@.spawn_key,
                self@.despawn_key == old(self)@.despawn_key,
                self@.unreadable is None,
                self@.pending == Seq::<Request>::empty(),
                old(self)@.unreadable is None,
                all == old(self)@.pending,
                0 <= taken,
                taken + collected@.len() == all.len(),
                collected@ == all.skip(taken),
                stages.len() == taken + 1,
                stages[0] == old(conductor).stage(),
                stages.last() == conductor.stage(),
                forall|i: int|
                    0 <= i < stages.len() - 1 ==> #[trigger] handles_at(*builder, all, stages, i),
            decreases collected@.len(),
        {
            let ghost before = conductor.stage();
            proof {
                assert(collected@[0] == all[taken]);
                assert(collected@.drop_first() =~= all.skip(taken + 1));
                assert(collected@.remove(0) =~= collected@.drop_first());
            }
            let request = collected.remove(0);
            let handled: Result<(), ConductorError> = match &request {
                Request::Spawn(spawn) => add_car(conductor, builder, spawn),
                // The spawner drops a car from its roll when it asks, so it
                // never asks twice, but a scenario that also removed cars by
                // hand could, and a request for someone already gone has
                // simply been satisfied early.
                Request::Despawn(despawn) => {
                    proof {
                        lemma_leave_keeps_time(before.world, despawn.actor_name@);
                    }
                    match conductor.remove_component_now(despawn.actor_name.as_str()) {
                        Ok(_) => Ok(()),
                        Err(ConductorError::UnknownPath(_)) => Ok(()),
                        Err(other) => Err(other),
                    }
                },
            };
            proof {
                assert(handles(
                    *builder,
                    before,
                    request,
                    conductor.stage(),
                    crate::cast::outcome_model(handled),
                ));
            }
            match handled {
                Ok(_) => {
                    proof {
                        let longer = stages.push(conductor.stage());
                        assert forall|i: int|
                            0 <= i < longer.len() - 1 implies #[trigger] handles_at(
                            *builder,
                            all,
                            longer,
                            i,
                        ) by {
                            if i < stages.len() - 1 {
                                assert(handles_at(*builder, all, stages, i));
                            }
                        }
                        stages = longer;
                        taken = taken + 1;
                    }
                },
                Err(error) => {
                    proof {
                        assert(applies(
                            *builder,
                            old(conductor).stage(),
                            all,
                            stages,
                            conductor.stage(),
                            Err::<(), ConductorErrorModel>(error@),
                        ));
                    }
                    return Err(error);
                },
            }
        }
        proof {
            assert(applies(
                *builder,
                old(conductor).stage(),
                all,
                stages,
                conductor.stage(),
                Ok::<(), ConductorErrorModel>(()),
            ));
        }
        Ok(())
    }
}

// ---------------------------------------------------------------------------
// The fixed casts
// ---------------------------------------------------------------------------

/// What a car of the scale scenario is built with.
pub struct ScaleFloats {
    pub lane_offset: FloatBits,
    pub speed: FloatBits,
    pub start_s: FloatBits,
}

/// Builds everything that a scenario starts with.
pub trait SceneBuilder<K>: CarBuilder<K> {
    /// The traffic spawner.
    fn spawner(&self) -> K;

    /// The pose logger.
    fn logger(&self) -> K;

    /// A double of a recorded car.
    fn double(&self, double: PlaybackComponent) -> K;

    /// What a car of the scale scenario is built with.
    fn scale_floats(&self, slot: &ScaleSlot, lanes: usize) -> ScaleFloats;
}

/// Whether a request is for the ego, at a speed.
pub open spec fn is_ego(request: SpawnTrafficRequest, speed: FloatBits) -> bool {
    &&& request.actor_name@ == EGO_NAME@
    &&& request.lane_offset == FloatBits(0)
    &&& request.start_s == FloatBits(0)
    &&& request.speed == speed
    &&& request.first_due == SimTime(0)
}

/// The part of the traffic spawner.
pub open spec fn spawner_part<K, B: SceneBuilder<K>>(builder: B) -> Part<K> {
    Part {
        who: |component: K| call_ensures(B::spawner, (&builder,), component),
        parent: WORLD_LEVEL@,
        first_due: SimTime(0),
    }
}

/// The part of the pose logger.
pub open spec fn logger_part<K, B: SceneBuilder<K>>(builder: B) -> Part<K> {
    Part {
        who: |component: K| call_ensures(B::logger, (&builder,), component),
        parent: WORLD_LEVEL@,
        first_due: SimTime(0),
    }
}

/// Whether a component plays back what an actor published in a recorded run,
/// under the actor's name.
pub open spec fn plays_back(
    playback: PlaybackComponent,
    recorded: EventLog,
    name: Seq<char>,
) -> bool {
    playback@ == (PlaybackModel {
        id: name,
        messages: crate::playback::recording(crate::record::event_models(recorded.events@), name),
        cursor: 0,
    })
}

/// The part of the double of a recorded actor: what the builder makes of its
/// playback.
pub open spec fn double_part<K, B: SceneBuilder<K>>(
    builder: B,
    recorded: EventLog,
    name: Seq<char>,
) -> Part<K> {
    Part {
        who: |component: K|
            exists|playback: PlaybackComponent|
                plays_back(playback, recorded, name) && #[trigger] call_ensures(
                    B::double,
                    (&builder, playback),
                    component,
                ),
        parent: WORLD_LEVEL@,
        first_due: SimTime(0),
    }
}

/// The cast of the live scenario: the ego, the spawner and the logger.
pub open spec fn live_parts<K, B: SceneBuilder<K>>(
    builder: B,
    ego: SpawnTrafficRequest,
) -> Seq<Part<K>> {
    seq![
        controller_part(builder, ego),
        physics_part(builder, ego),
        spawner_part(builder),
        logger_part(builder),
    ]
}

/// The cast of a playback scenario: the ego, a double of every recorded car,
/// and the logger.
pub open spec fn playback_parts<K, B: SceneBuilder<K>>(
    builder: B,
    ego: SpawnTrafficRequest,
    recorded: EventLog,
    names: Seq<Seq<char>>,
) -> Seq<Part<K>> {
    Seq::new(
        names.len() + 3,
        |i: int|
            if i == 0 {
                controller_part(builder, ego)
            } else if i == 1 {
                physics_part(builder, ego)
            } else if i < names.len() + 2 {
                double_part(builder, recorded, names[i - 2])
            } else {
                logger_part(builder)
            },
    )
}

/// Whether a request is for the car of an index in the scale scenario: where
/// its slot is, as the builder measures it.
pub open spec fn is_scale_car<K, B: SceneBuilder<K>>(
    builder: B,
    index: nat,
    lanes: usize,
    request: SpawnTrafficRequest,
) -> bool {
    exists|slot: ScaleSlot, floats: ScaleFloats|
        {
            &&& #[trigger] call_ensures(B::scale_floats, (&builder, &slot, lanes), floats)
            &&& slot.actor_name@ == "car"@ + crate::text::decimal(index)
            &&& slot.lane == index % lanes as nat
            &&& slot.row == index / lanes as nat
            &&& slot.speed_step == index % 7
            &&& request.actor_name@ == slot.actor_name@
            &&& request.lane_offset == floats.lane_offset
            &&& request.speed == floats.speed
            &&& request.start_s == floats.start_s
            &&& request.first_due == SimTime(0)
        }
}

/// The cast of the scale scenario: two components a car, its controller and
/// then its plant.
pub open spec fn scale_parts<K, B: SceneBuilder<K>>(
    builder: B,
    cars: nat,
    lanes: usize,
) -> Seq<Part<K>> {
    Seq::new(
        2 * cars,
        |i: int|
            Part {
                who: |component: K|
                    exists|request: SpawnTrafficRequest| #[trigger]
                        is_scale_car::<K, B>(builder, (i / 2) as nat, lanes, request) && if i % 2
                            == 0 {
                            call_ensures(B::controller, (&builder, &request), component)
                        } else {
                            call_ensures(B::physics, (&builder, &request), component)
                        },
                parent: "car"@ + crate::text::decimal((i / 2) as nat),
                first_due: SimTime(0),
            },
    )
}

/// The ego, at the road's origin in the centre lane.
fn ego_at(speed: FloatBits) -> (request: SpawnTrafficRequest)
    ensures
        is_ego(request, speed),
{
    SpawnTrafficRequest {
        actor_name: EGO_NAME.to_owned(),
        lane_offset: FloatBits(0),
        speed,
        start_s: FloatBits(0),
        first_due: SimTime(0),
    }
}

/// Registers the live scenario's fixed cast: the ego, the spawner that
/// manages traffic around it, and the pose logger. Every other car arrives
/// later, while the run is under way.
pub fn setup_live_traffic_scenario<
    K: Component,
    T: Transport,
    O: Observer,
    C: WallClock,
    B: SceneBuilder<K>,
>(
    conductor: &mut Conductor<K, T, O, C>,
    builder: &B,
) -> (done: Result<(), ConductorError>)
    requires
        old(conductor).wf(),
        old(conductor)@.tick == 0 || old(conductor)@.sim_time.0 < i64::MAX,
    ensures
        final(conductor).wf(),
        exists|ego: SpawnTrafficRequest, stages: Seq<StageModel<K, C>>|
            is_ego(ego, FloatBits(EGO_SPEED_BITS)) && #[trigger] crate::cast::casts(
                old(conductor).stage(),
                live_parts(*builder, ego),
                stages,
                final(conductor).stage(),
                crate::cast::outcome_model(done),
            ),
{
    let ghost start = seq![conductor.stage()];
    let mut stages: Ghost<Seq<StageModel<K, C>>> = Ghost(start);
    let ego = ego_at(FloatBits(EGO_SPEED_BITS));
    let ghost parts = live_parts::<K, B>(*builder, ego);
    match cast_car(conductor, builder, &ego, Ghost(parts), &mut stages) {
        Ok(_) => {},
        Err(error) => {
            return Err(error);
        },
    }
    let spawner = builder.spawner();
    match cast_part(conductor, WORLD_LEVEL, SimTime(0), spawner, Ghost(parts), &mut stages) {
        Ok(_) => {},
        Err(error) => {
            return Err(error);
        },
    }
    let logger = builder.logger();
    match cast_part(conductor, WORLD_LEVEL, SimTime(0), logger, Ghost(parts), &mut stages) {
        Ok(_) => {
            proof {
                assert(crate::cast::casts(
                    old(conductor).stage(),
                    parts,
                    stages@,
                    conductor.stage(),
                    Ok::<(), ConductorErrorModel>(()),
                ));
            }
            Ok(())
        },
        Err(error) => Err(error),
    }
}

/// Registers `cars` cars across `lanes` lanes, for measuring what a world
/// costs as it grows. No spawner and no logger: the population is what is
/// held still.
pub fn setup_scale_scenario<
    K: Component,
    T: Transport,
    O: Observer,
    C: WallClock,
    B: SceneBuilder<K>,
>(
    conductor: &mut Conductor<K, T, O, C>,
    builder: &B,
    cars: usize,
    lanes: usize,
) -> (done: Result<(), ConductorError>)
    requires
        old(conductor).wf(),
        old(conductor)@.tick == 0 || old(conductor)@.sim_time.0 < i64::MAX,
        lanes > 0,
    ensures
        final(conductor).wf(),
        exists|stages: Seq<StageModel<K, C>>| #[trigger]
            crate::cast::casts(
                old(conductor).stage(),
                scale_parts(*builder, cars as nat, lanes),
                stages,
                final(conductor).stage(),
                crate::cast::outcome_model(done),
            ),
{
    let ghost parts = scale_parts::<K, B>(*builder, cars as nat, lanes);
    let ghost start = seq![conductor.stage()];
    let mut stages: Ghost<Seq<StageModel<K, C>>> = Ghost(start);
    let mut index: usize = 0;
    while index < cars
        invariant
            conductor.wf(),
            conductor@.tick == old(conductor)@.tick,
            conductor@.sim_time == old(conductor)@.sim_time,
            old(conductor)@.tick == 0 || old(conductor)@.sim_time.0 < i64::MAX,
            lanes > 0,
            parts == scale_parts::<K, B>(*builder, cars as nat, lanes),
            0 <= index <= cars,
            stages@.len() == 2 * index + 1,
            stages@[0] == old(conductor).stage(),
            stages@.last() == conductor.stage(),
            crate::cast::taken_so_far(parts, stages@),
        decreases cars - index,
    {
        let slot = scale_slot(index, lanes);
        let floats = builder.scale_floats(&slot, lanes);
        let request = SpawnTrafficRequest {
            actor_name: slot.actor_name,
            lane_offset: floats.lane_offset,
            speed: floats.speed,
            start_s: floats.start_s,
            first_due: SimTime(0),
        };
        proof {
            assert((2 * index) / 2 == index && (2 * index + 1) / 2 == index);
            assert((2 * index) % 2 == 0 && (2 * index + 1) % 2 == 1);
            assert(is_scale_car::<K, B>(*builder, index as nat, lanes, request));
        }
        match cast_car(conductor, builder, &request, Ghost(parts), &mut stages) {
            Ok(_) => {},
            Err(error) => {
                return Err(error);
            },
        }
        index += 1;
    }
    proof {
        assert(crate::cast::casts(
            old(conductor).stage(),
            parts,
            stages@,
            conductor.stage(),
            Ok::<(), ConductorErrorModel>(()),
        ));
    }
    Ok(())
}

/// Whether a double of every car that a run contained can be made: the names
/// are names, and the recorded keys are keys.
pub open spec fn can_be_doubled(events: Seq<LogEventModel>) -> bool {
    let names = traffic_names(events);
    forall|n: int|
        0 <= n < names.len() ==> {
            &&& crate::ids::valid_id(#[trigger] names[n])
            &&& forall|i: int|
                0 <= i < crate::playback::recording(events, names[n]).len()
                    ==> crate::keyexpr::key_error(
                    (#[trigger] crate::playback::recording(events, names[n])[i]).1,
                ) is None
        }
}

/// Sets up the other scenario: the same ego, at a speed of the experiment's
/// choosing, against a double of every car that `recorded` contained. Returns
/// how many doubles joined.
///
/// Every double is registered now, even though most of their originals joined
/// mid-run: a double with nothing recorded yet publishes nothing, and idles
/// until the instant its original first appeared.
pub fn setup_playback_traffic_scenario<
    K: Component,
    T: Transport,
    O: Observer,
    C: WallClock,
    B: SceneBuilder<K>,
>(
    conductor: &mut Conductor<K, T, O, C>,
    builder: &B,
    recorded: &EventLog,
    ego_speed: FloatBits,
) -> (done: Result<usize, ConductorError>)
    requires
        old(conductor).wf(),
        old(conductor)@.tick == 0 || old(conductor)@.sim_time.0 < i64::MAX,
        can_be_doubled(crate::record::event_models(recorded.events@)),
    ensures
        final(conductor).wf(),
        ({
            let names = traffic_names(crate::record::event_models(recorded.events@));
            &&& done matches Ok(count) ==> count == names.len()
            &&& exists|ego: SpawnTrafficRequest, stages: Seq<StageModel<K, C>>|
                is_ego(ego, ego_speed) && #[trigger] crate::cast::casts(
                    old(conductor).stage(),
                    playback_parts(*builder, ego, *recorded, names),
                    stages,
                    final(conductor).stage(),
                    crate::conductor::answer_model(done, ()),
                )
        }),
{
    let ghost events = crate::record::event_models(recorded.events@);
    let ghost names = traffic_names(events);
    let ghost start = seq![conductor.stage()];
    let mut stages: Ghost<Seq<StageModel<K, C>>> = Ghost(start);
    let ego = ego_at(ego_speed);
    let ghost parts = playback_parts::<K, B>(*builder, ego, *recorded, names);
    match cast_car(conductor, builder, &ego, Ghost(parts), &mut stages) {
        Ok(_) => {},
        Err(error) => {
            return Err(error);
        },
    }
    let actor_names = recorded_traffic_actor_names(recorded);
    let mut n: usize = 0;
    while n < actor_names.len()
        invariant
            conductor.wf(),
            conductor@.tick == old(conductor)@.tick,
            conductor@.sim_time == old(conductor)@.sim_time,
            old(conductor)@.tick == 0 || old(conductor)@.sim_time.0 < i64::MAX,
            events == crate::record::event_models(recorded.events@),
            names == traffic_names(events),
            can_be_doubled(events),
            crate::text::texts(actor_names@) == names,
            parts == playback_parts::<K, B>(*builder, ego, *recorded, names),
            is_ego(ego, ego_speed),
            0 <= n <= actor_names@.len(),
            actor_names@.len() == names.len(),
            stages@.len() == n + 3,
            stages@[0] == old(conductor).stage(),
            stages@.last() == conductor.stage(),
            crate::cast::taken_so_far(parts, stages@),
        decreases actor_names@.len() - n,
    {
        proof {
            assert(names[n as int] == actor_names@[n as int]@);
        }
        let id = ComponentId::new(actor_names[n].as_str()).unwrap();
        let playback = PlaybackComponent::from_log(id, recorded, actor_names[n].as_str());
        let double = builder.double(playback);
        proof {
            assert(plays_back(playback, *recorded, names[n as int]));
            assert((parts[n + 2].who)(double));
        }
        match cast_part(conductor, WORLD_LEVEL, SimTime(0), double, Ghost(parts), &mut stages) {
            Ok(_) => {},
            Err(error) => {
                return Err(error);
            },
        }
        n += 1;
    }
    let logger = builder.logger();
    match cast_part(conductor, WORLD_LEVEL, SimTime(0), logger, Ghost(parts), &mut stages) {
        Ok(_) => {
            proof {
                assert(crate::cast::casts(
                    old(conductor).stage(),
                    parts,
                    stages@,
                    conductor.stage(),
                    Ok::<(), ConductorErrorModel>(()),
                ));
            }
            Ok(actor_names.len())
        },
        Err(error) => Err(error),
    }
}

/// Runs a playback world to `end`. There is nothing to apply between ticks,
/// because nothing in this world asks for anything: recorded cars are already
/// a schedule.
pub fn run_playback_traffic_scenario<K: Component, T: Transport, O: Observer, C: WallClock>(
    conductor: &mut Conductor<K, T, O, C>,
    end: SimTime,
) -> (done: Result<(), ConductorError>)
    requires
        old(conductor).wf(),
    ensures
        final(conductor).wf(),
        exists|stages: Seq<StageModel<K, C>>| #[trigger]
            crate::stage::runs_with(
                old(conductor).stage(),
                end.0,
                stages,
                final(conductor).stage(),
                crate::cast::outcome_model(done),
            ),
{
    conductor.run_until(end)
}

// ---------------------------------------------------------------------------
// The live scenario
// ---------------------------------------------------------------------------

/// What a live scenario is asked between ticks. Nothing is assumed of the
/// answers.
pub trait TrafficWatch {
    /// Hands over the requests collected since it last did.
    fn collected(&self) -> TrafficRequestHandler;

    /// Whether the run has left the recorded one that it is compared with.
    fn diverged(&self) -> bool;
}

/// A watch, and what it has answered so far.
pub struct TrafficDesk<W: TrafficWatch> {
    watch: W,
    answers: Ghost<AnswersModel>,
}

/// What a watch has answered so far.
pub struct AnswersModel {
    /// The handlers it handed over.
    pub handed: Seq<HandlerModel>,
    /// Whether it said that the run diverged, each time it was asked.
    pub diverged: Seq<bool>,
}

impl<W: TrafficWatch> View for TrafficDesk<W> {
    type V = AnswersModel;

    closed spec fn view(&self) -> AnswersModel {
        self.answers@
    }
}

/// Whether everything that was answered is the watch's own answer.
pub open spec fn said_by<W: TrafficWatch>(watch: W, answers: AnswersModel) -> bool {
    &&& forall|i: int|
        0 <= i < answers.handed.len() ==> hands_over(watch, #[trigger] answers.handed[i])
    &&& forall|i: int|
        0 <= i < answers.diverged.len() ==> call_ensures(
            W::diverged,
            (&watch,),
            #[trigger] answers.diverged[i],
        )
}

/// Whether a watch hands over a handler.
pub open spec fn hands_over<W: TrafficWatch>(watch: W, handed: HandlerModel) -> bool {
    exists|handler: TrafficRequestHandler|
        handler@ == handed && #[trigger] call_ensures(W::collected, (&watch,), handler)
}

impl<W: TrafficWatch> TrafficDesk<W> {
    /// Everything that was answered is the watch's own answer.
    pub open spec fn wf(&self) -> bool {
        said_by(self.watch(), self@)
    }

    /// The watch.
    pub closed spec fn watch(&self) -> W {
        self.watch
    }

    /// A watch that has not been asked anything.
    pub fn new(watch: W) -> (desk: Self)
        ensures
            desk.wf(),
            desk.watch() == watch,
            desk@ == (AnswersModel { handed: Seq::empty(), diverged: Seq::empty() }),
    {
        TrafficDesk {
            watch,
            answers: Ghost(AnswersModel { handed: Seq::empty(), diverged: Seq::empty() }),
        }
    }

    /// Asks for the requests collected since it last did.
    pub fn collected(&mut self) -> (handler: TrafficRequestHandler)
        requires
            old(self).wf(),
        ensures
            final(self).wf(),
            final(self).watch() == old(self).watch(),
            call_ensures(W::collected, (&old(self).watch(),), handler),
            final(self)@ == (AnswersModel {
                handed: old(self)@.handed.push(handler@),
                ..old(self)@
            }),
    {
        let handler = self.watch.collected();
        proof {
            self.answers@ = AnswersModel {
                handed: self.answers@.handed.push(handler@),
                ..self.answers@
            };
        }
        handler
    }

    /// Asks whether the run has diverged.
    pub fn diverged(&mut self) -> (diverged: bool)
        requires
            old(self).wf(),
        ensures
            final(self).wf(),
            final(self)@ == (AnswersModel {
                diverged: old(self)@.diverged.push(diverged),
                ..old(self)@
            }),
            final(self).watch() == old(self).watch(),
            call_ensures(W::diverged, (&old(self).watch(),), diverged),
    {
        let diverged = self.watch.diverged();
        proof {
            self.answers@ = AnswersModel {
                diverged: self.answers@.diverged.push(diverged),
                ..self.answers@
            };
        }
        diverged
    }
}

/// Whether an instant leads from one stage of a run through `end` to another.
pub open spec fn steps_on<K: Component, C: WallClock>(
    before: StageModel<K, C>,
    mid: StageModel<K, C>,
    end: i64,
) -> bool {
    crate::stage::stage_leads(seq![before, mid], 0, end)
}

/// Whether a round leads from one stage to another: an instant is stepped,
/// and then what was asked for is applied.
pub open spec fn round<K: Component, C: WallClock, B: CarBuilder<K>>(
    builder: B,
    before: StageModel<K, C>,
    end: i64,
    mid: StageModel<K, C>,
    requests: Seq<Request>,
    stages: Seq<StageModel<K, C>>,
    after: StageModel<K, C>,
    outcome: Result<(), ConductorErrorModel>,
) -> bool {
    steps_on(before, mid, end) && applies(builder, mid, requests, stages, after, outcome)
}

/// Whether a stage of a live run leads to the one after it, given what was
/// handed over in each round.
pub open spec fn round_leads<K: Component, C: WallClock, B: CarBuilder<K>>(
    builder: B,
    stages: Seq<StageModel<K, C>>,
    handed: Seq<HandlerModel>,
    i: int,
    end: i64,
) -> bool {
    &&& handed[i].unreadable is None
    &&& exists|mid: StageModel<K, C>, between: Seq<StageModel<K, C>>| #[trigger]
        round(
            builder,
            stages[i],
            end,
            mid,
            handed[i].pending,
            between,
            stages[i + 1],
            Ok::<(), ConductorErrorModel>(()),
        )
}

/// Whether every stage of a live run leads to the one after it.
pub open spec fn rounds_lead<K: Component, C: WallClock, B: CarBuilder<K>>(
    builder: B,
    stages: Seq<StageModel<K, C>>,
    handed: Seq<HandlerModel>,
    end: i64,
) -> bool {
    forall|i: int| 0 <= i < stages.len() - 1 ==> #[trigger] round_leads(builder, stages, handed, i, end)
}

/// Whether a round that something was handed over in fails between one stage
/// and another: a request could not be read, or one is refused.
pub open spec fn round_fails<K: Component, C: WallClock, B: CarBuilder<K>>(
    builder: B,
    before: StageModel<K, C>,
    end: i64,
    handed: HandlerModel,
    after: StageModel<K, C>,
    error: ConductorErrorModel,
) -> bool {
    match handed.unreadable {
        Some(source) => steps_on(before, after, end) && error == ConductorError::Core(source)@,
        None => exists|mid: StageModel<K, C>, between: Seq<StageModel<K, C>>| #[trigger]
            round(
                builder,
                before,
                end,
                mid,
                handed.pending,
                between,
                after,
                Err::<(), ConductorErrorModel>(error),
            ),
    }
}

/// Whether a live run through `end` leads from one stage to another, given
/// what its watch answered: round by round until nothing is due by then,
/// until the watch says that it diverged where it is compared, or until a
/// round fails.
pub open spec fn plays<K: Component, C: WallClock, B: CarBuilder<K>>(
    builder: B,
    before: StageModel<K, C>,
    end: i64,
    compared: bool,
    answers: AnswersModel,
    stages: Seq<StageModel<K, C>>,
    after: StageModel<K, C>,
    outcome: Result<(), ConductorErrorModel>,
) -> bool {
    let last = stages.last();
    let calm = crate::world::settled(last.world, end);
    let cast = crate::stage::cast_settled(last.cast, last.world, end);
    let stopped = compared && answers.diverged.last();
    &&& stages.len() > 0
    &&& stages[0] == before
    &&& rounds_lead(builder, stages, answers.handed, end)
    &&& answers.diverged.len() == (if compared {
        stages.len()
    } else {
        0
    })
    &&& forall|i: int|
        0 <= i < answers.diverged.len() - 1 ==> !(#[trigger] answers.diverged[i])
    &&& match outcome {
        Ok(_) => answers.handed.len() == stages.len() - 1 && if stopped {
            after == stages.last()
        } else {
            after == (StageModel { world: calm, cast, ..last }) && crate::world::done_by(calm, end)
        },
        Err(error) => !stopped && if answers.handed.len() == stages.len() {
            round_fails(builder, stages.last(), end, answers.handed.last(), after, error)
        } else {
            answers.handed.len() == stages.len() - 1 && crate::stage::stage_fails(
                last,
                end,
                after,
                error,
            )
        },
    }
}

/// What a watch answered since it had answered something else.
pub open spec fn answered_since(before: AnswersModel, after: AnswersModel) -> AnswersModel {
    AnswersModel {
        handed: after.handed.skip(before.handed.len() as int),
        diverged: after.diverged.skip(before.diverged.len() as int),
    }
}

proof fn lemma_plays_on<K: Component, C: WallClock, B: CarBuilder<K>>(
    builder: B,
    stages: Seq<StageModel<K, C>>,
    next: StageModel<K, C>,
    handed: Seq<HandlerModel>,
    last: HandlerModel,
    end: i64,
)
    requires
        stages.len() > 0,
        handed.len() == stages.len() - 1,
        rounds_lead(builder, stages, handed, end),
        round_leads(builder, stages.push(next), handed.push(last), stages.len() - 1, end),
    ensures
        rounds_lead(builder, stages.push(next), handed.push(last), end),
{
    let longer = stages.push(next);
    let more = handed.push(last);
    assert forall|i: int| 0 <= i < longer.len() - 1 implies #[trigger] round_leads(
        builder,
        longer,
        more,
        i,
        end,
    ) by {
        if i < stages.len() - 1 {
            assert(round_leads(builder, stages, handed, i, end));
            assert(stages[i] == longer[i] && stages[i + 1] == longer[i + 1]);
            assert(handed[i] == more[i]);
        }
    }
}

/// Runs the world to `end`, applying the spawner's requests as they come.
///
/// The sim decides *what* joins and leaves; this turns those decisions into
/// components, and decides nothing itself. Every request declares the instant
/// it takes effect, so *when* this loop applies one does not shape the run,
/// only that it lands before that instant.
///
/// A run that is compared with a recorded one stops where the watch says that
/// it diverged: every later event would be compared with a log that the run
/// has already left behind.
pub fn run_live_traffic_scenario<
    K: Component,
    T: Transport,
    O: Observer,
    C: WallClock,
    B: CarBuilder<K>,
    W: TrafficWatch,
>(
    conductor: &mut Conductor<K, T, O, C>,
    builder: &B,
    desk: &mut TrafficDesk<W>,
    end: SimTime,
    compared: bool,
) -> (done: Result<(), ConductorError>)
    requires
        old(conductor).wf(),
        old(desk).wf(),
        end.0 < i64::MAX,
    ensures
        final(conductor).wf(),
        final(desk).wf(),
        final(desk).watch() == old(desk).watch(),
        old(desk)@.handed.is_prefix_of(final(desk)@.handed),
        old(desk)@.diverged.is_prefix_of(final(desk)@.diverged),
        exists|stages: Seq<StageModel<K, C>>| #[trigger]
            plays(
                *builder,
                old(conductor).stage(),
                end.0,
                compared,
                answered_since(old(desk)@, final(desk)@),
                stages,
                final(conductor).stage(),
                crate::cast::outcome_model(done),
            ),
{
    let ghost mut stages: Seq<StageModel<K, C>> = seq![conductor.stage()];
    let ghost mut handed: Seq<HandlerModel> = Seq::empty();
    let ghost mut said: Seq<bool> = Seq::empty();
    proof {
        assert(old(desk)@.handed + handed =~= old(desk)@.handed);
        assert(old(desk)@.diverged + said =~= old(desk)@.diverged);
    }
    loop
        invariant
            conductor.wf(),
            desk.wf(),
            desk.watch() == old(desk).watch(),
            end.0 < i64::MAX,
            stages.len() > 0,
            stages[0] == old(conductor).stage(),
            stages.last() == conductor.stage(),
            rounds_lead(*builder, stages, handed, end.0),
            handed.len() == stages.len() - 1,
            desk@.handed == old(desk)@.handed + handed,
            desk@.diverged == old(desk)@.diverged + said,
            said.len() == (if compared {
                stages.len() - 1
            } else {
                0
            }),
            forall|i: int| 0 <= i < said.len() ==> !(#[trigger] said[i]),
        decreases end.0 - crate::world::earliest_open(conductor@) + 1,
    {
        if compared {
            let diverged = desk.diverged();
            proof {
                assert(desk@.diverged =~= old(desk)@.diverged + said.push(diverged));
                said = said.push(diverged);
            }
            if diverged {
                proof {
                    let answers = answered_since(old(desk)@, desk@);
                    assert(answers.handed =~= handed);
                    assert(answers.diverged =~= said);
                    assert(plays(
                        *builder,
                        old(conductor).stage(),
                        end.0,
                        compared,
                        answers,
                        stages,
                        conductor.stage(),
                        Ok::<(), ConductorErrorModel>(()),
                    ));
                }
                return Ok(());
            }
        }
        let ghost before = conductor.stage();
        let stepped = conductor.step_by(end);
        let ghost mid = conductor.stage();
        proof {
            let answers = answered_since(old(desk)@, desk@);
            assert(answers.handed =~= handed);
            assert(answers.diverged =~= said);
        }
        match stepped {
            Ok(true) => {},
            Ok(false) => {
                proof {
                    assert(plays(
                        *builder,
                        old(conductor).stage(),
                        end.0,
                        compared,
                        answered_since(old(desk)@, desk@),
                        stages,
                        conductor.stage(),
                        Ok::<(), ConductorErrorModel>(()),
                    ));
                }
                return Ok(());
            },
            Err(error) => {
                proof {
                    assert(plays(
                        *builder,
                        old(conductor).stage(),
                        end.0,
                        compared,
                        answered_since(old(desk)@, desk@),
                        stages,
                        conductor.stage(),
                        Err::<(), ConductorErrorModel>(error@),
                    ));
                }
                return Err(error);
            },
        }
        let mut handler = desk.collected();
        let ghost given = handler@;
        proof {
            assert(desk@.handed =~= old(desk)@.handed + handed.push(given));
            let answers = answered_since(old(desk)@, desk@);
            assert(answers.handed =~= handed.push(given));
            assert(answers.diverged =~= said);
        }
        let applied = handler.apply(conductor, builder);
        match applied {
            Ok(_) => {
                proof {
                    let between = choose|between: Seq<StageModel<K, C>>| #[trigger]
                        applies(
                            *builder,
                            mid,
                            given.pending,
                            between,
                            conductor.stage(),
                            Ok::<(), ConductorErrorModel>(()),
                        );
                    assert(round(
                        *builder,
                        before,
                        end.0,
                        mid,
                        given.pending,
                        between,
                        conductor.stage(),
                        Ok::<(), ConductorErrorModel>(()),
                    ));
                    let longer = stages.push(conductor.stage());
                    let more = handed.push(given);
                    assert(longer[stages.len() - 1] == before);
                    assert(longer[stages.len() - 1 + 1] == conductor.stage());
                    assert(more[stages.len() - 1] == given);
                    assert(round_leads(*builder, longer, more, stages.len() - 1, end.0));
                    lemma_plays_on(*builder, stages, conductor.stage(), handed, given, end.0);
                    stages = longer;
                    handed = more;
                }
            },
            Err(error) => {
                proof {
                    let answers = answered_since(old(desk)@, desk@);
                    if given.unreadable is None {
                        let between = choose|between: Seq<StageModel<K, C>>| #[trigger]
                            applies(
                                *builder,
                                mid,
                                given.pending,
                                between,
                                conductor.stage(),
                                Err::<(), ConductorErrorModel>(error@),
                            );
                        assert(round(
                            *builder,
                            before,
                            end.0,
                            mid,
                            given.pending,
                            between,
                            conductor.stage(),
                            Err::<(), ConductorErrorModel>(error@),
                        ));
                    }
                    assert(round_fails(*builder, before, end.0, given, conductor.stage(), error@));
                    assert(rounds_lead(*builder, stages, answers.handed, end.0)) by {
                        assert forall|i: int|
                            0 <= i < stages.len() - 1 implies #[trigger] round_leads(
                            *builder,
                            stages,
                            answers.handed,
                            i,
                            end.0,
                        ) by {
                            assert(round_leads(*builder, stages, handed, i, end.0));
                            assert(handed[i] == answers.handed[i]);
                        }
                    }
                    assert(plays(
                        *builder,
                        old(conductor).stage(),
                        end.0,
                        compared,
                        answers,
                        stages,
                        conductor.stage(),
                        Err::<(), ConductorErrorModel>(error@),
                    ));
                }
                return Err(error);
            },
        }
    }
}

} // verus!
