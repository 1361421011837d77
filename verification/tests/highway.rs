//! The highway demo as a dynamic world: traffic that a component decides to
//! create and retire while the run is under way, and which reproduces exactly
//! when the run is repeated. The road is a straight line, and a car is its
//! arc length and a constant speed along it.
use std::cell::RefCell;
use std::rc::Rc;

use continuo::actors::{pose_key, FloatBits};
use continuo::component::{Component, StepCtx};
use continuo::conductor::Conductor;
use continuo::error::CoreError;
use continuo::ids::ComponentId;
use continuo::keyexpr::KeyExpr;
use continuo::messages::Message;
use continuo::observers::Observer;
use continuo::pacing::WallClock;
use continuo::playback::PlaybackComponent;
use continuo::record::{
    EventLog, LogEvent, MembershipChange, RecordedObservation, Recorder, TickFingerprint,
};
use continuo::spawner::{TrafficRoad, TrafficSpawner, Written};
use continuo::time::{SimDuration, SimTime};
use continuo::traffic::{DespawnTrafficRequest, SpawnTrafficRequest};
use continuo::traffic_world::{
    self, run_live_traffic_scenario, setup_live_traffic_scenario, CarBuilder, Request, RequestKind,
    ScaleFloats, ScaleSlot, SceneBuilder, TrafficDesk, TrafficRequestHandler, TrafficWatch,
};
use continuo::transport::{InProcTransport, Monitor, MonitorTransport};
use continuo::verify::{Divergence, Verifier};

type Shared<T> = Rc<RefCell<T>>;

fn shared<T>(value: T) -> Shared<T> {
    Rc::new(RefCell::new(value))
}

// ---------------------------------------------------------------------------
// Cars and road
// ---------------------------------------------------------------------------

/// Meters ahead of the ego that traffic spawns, and behind it that traffic
/// retires.
const SPAWN_AHEAD: f64 = 40.0;
const RETIRE_BEHIND: f64 = 60.0;

fn bits(value: f64) -> FloatBits {
    FloatBits(value.to_bits())
}

fn value(bits: FloatBits) -> f64 {
    f64::from_bits(bits.0)
}

/// A draw as a fraction of a range.
fn within(draw: u64, lo: f64, hi: f64) -> f64 {
    lo + (draw >> 11) as f64 / (1u64 << 53) as f64 * (hi - lo)
}

/// The straight road.
struct Straight;

impl TrafficRoad for Straight {
    fn locate(&self, message: &Message) -> Result<FloatBits, CoreError> {
        let bytes: [u8; 8] = message.payload.clone().try_into().expect("a pose is a position");
        Ok(FloatBits(u64::from_le_bytes(bytes)))
    }

    fn is_behind(&self, car_s: FloatBits, ego_s: FloatBits) -> bool {
        value(car_s) < value(ego_s) - RETIRE_BEHIND
    }

    fn ahead_of(&self, ego_s: FloatBits) -> FloatBits {
        bits(value(ego_s) + SPAWN_AHEAD)
    }

    fn further(&self, a: FloatBits, b: FloatBits) -> FloatBits {
        bits(value(a).max(value(b)))
    }

    fn beyond(&self, s: FloatBits, gap_draw: u64) -> FloatBits {
        bits(value(s) + within(gap_draw, 20.0, 50.0))
    }

    fn speed(&self, speed_draw: u64) -> FloatBits {
        bits(within(speed_draw, 16.0, 22.0))
    }

    fn write_despawn(&self, request: &DespawnTrafficRequest) -> Written {
        Written {
            serialized: Ok(request.actor_name.clone().into_bytes()),
            found: None,
        }
    }

    fn write_spawn(&self, request: &SpawnTrafficRequest) -> Written {
        let text = format!(
            "{};{};{};{};{}",
            request.actor_name,
            request.lane_offset.0,
            request.speed.0,
            request.start_s.0,
            request.first_due.as_nanos()
        );
        Written {
            serialized: Ok(text.into_bytes()),
            found: None,
        }
    }
}

/// Reads a request out of a payload.
fn request_of(kind: RequestKind, payload: &[u8]) -> Result<Request, String> {
    let text = String::from_utf8(payload.to_vec()).map_err(|error| error.to_string())?;
    if matches!(kind, RequestKind::Despawn) {
        return Ok(Request::Despawn(DespawnTrafficRequest { actor_name: text }));
    }
    let fields: Vec<&str> = text.split(';').collect();
    let number = |i: usize| -> Result<u64, String> {
        let field = fields.get(i).ok_or_else(|| format!("no field {i}"))?;
        field.parse::<u64>().map_err(|error| error.to_string())
    };
    Ok(Request::Spawn(SpawnTrafficRequest {
        actor_name: fields[0].to_string(),
        lane_offset: FloatBits(number(1)?),
        speed: FloatBits(number(2)?),
        start_s: FloatBits(number(3)?),
        first_due: SimTime::from_nanos(i64::try_from(number(4)?).expect("a short run")),
    }))
}

/// A component of the highway world.
enum Part {
    /// Follows its car's pose.
    Controller { actor_name: String, steps: u64 },
    /// Moves its car along the road, and says where it is.
    Physics { actor_name: String, s: f64, speed: f64 },
    Spawner(TrafficSpawner<Straight>),
    /// Reads every pose, once a second.
    Logger { read: usize },
    Double(PlaybackComponent),
}

fn poses_of(actor_name: &str) -> KeyExpr {
    KeyExpr::new_rooted(&format!("*/actor/{actor_name}/pose")).expect("valid key")
}

impl Component for Part {
    fn id(&self) -> ComponentId {
        match self {
            Part::Controller { .. } => ComponentId::new("controller").expect("valid id"),
            Part::Physics { .. } => ComponentId::new("physics").expect("valid id"),
            Part::Spawner(_) => ComponentId::new("traffic_spawner").expect("valid id"),
            Part::Logger { .. } => ComponentId::new("pose_logger").expect("valid id"),
            Part::Double(double) => double.id(),
        }
    }

    fn subscriptions(&self) -> Vec<KeyExpr> {
        match self {
            Part::Controller { actor_name, .. } => vec![poses_of(actor_name)],
            Part::Physics { .. } => Vec::new(),
            Part::Spawner(_) | Part::Logger { .. } => vec![poses_of("**")],
            Part::Double(double) => double.subscriptions(),
        }
    }

    fn step(&mut self, ctx: &mut StepCtx) -> Result<SimTime, CoreError> {
        match self {
            Part::Controller { steps, .. } => {
                *steps += 1;
                Ok(ctx.now() + SimDuration::from_millis(100))
            }
            Part::Physics {
                actor_name,
                s,
                speed,
            } => {
                if let Some(dt) = ctx.dt() {
                    *s += *speed * dt.as_nanos() as f64 * 1e-9;
                }
                let key = pose_key(ctx.world_name(), actor_name);
                ctx.publish(key, Ok(s.to_bits().to_le_bytes().to_vec()), None)?;
                Ok(ctx.now() + SimDuration::from_millis(10))
            }
            Part::Spawner(spawner) => spawner.step(ctx),
            Part::Logger { read } => {
                *read += ctx.inbox().len();
                Ok(ctx.now() + SimDuration::from_secs(1))
            }
            Part::Double(double) => double.step(ctx),
        }
    }

    fn state_bytes(&self) -> Option<Vec<u8>> {
        match self {
            Part::Controller { steps, .. } => Some(steps.to_le_bytes().to_vec()),
            Part::Spawner(spawner) => Some(spawner.frontier_s().0.to_le_bytes().to_vec()),
            _ => None,
        }
    }
}

/// Builds the highway's cast.
struct Cast;

impl CarBuilder<Part> for Cast {
    fn controller(&self, request: &SpawnTrafficRequest) -> Part {
        Part::Controller {
            actor_name: request.actor_name.clone(),
            steps: 0,
        }
    }

    fn physics(&self, request: &SpawnTrafficRequest) -> Part {
        Part::Physics {
            actor_name: request.actor_name.clone(),
            s: value(request.start_s),
            speed: value(request.speed),
        }
    }
}

impl SceneBuilder<Part> for Cast {
    fn spawner(&self) -> Part {
        Part::Spawner(TrafficSpawner::new(
            SimDuration::from_millis(500),
            Straight,
            traffic_world::EGO_NAME,
            vec![bits(3.5), bits(-3.5)],
            traffic_world::TRAFFIC_POPULATION,
        ))
    }

    fn logger(&self) -> Part {
        Part::Logger { read: 0 }
    }

    fn double(&self, double: PlaybackComponent) -> Part {
        Part::Double(double)
    }

    fn scale_floats(&self, slot: &ScaleSlot, _lanes: usize) -> ScaleFloats {
        ScaleFloats {
            lane_offset: bits(slot.lane as f64),
            speed: bits(slot.speed_step as f64),
            start_s: bits(slot.row as f64),
        }
    }
}

// ---------------------------------------------------------------------------
// Running
// ---------------------------------------------------------------------------

/// Whoever follows a run: a recorder or a verifier.
#[derive(Clone)]
enum Follower {
    Records(Shared<Recorder>),
    Compares(Shared<Verifier>),
}

impl Observer for Follower {
    fn tick(&mut self, fingerprint: &TickFingerprint) {
        match self {
            Follower::Records(recorder) => recorder.borrow_mut().tick_callback(fingerprint),
            Follower::Compares(verifier) => verifier.borrow_mut().tick_callback(fingerprint),
        }
    }

    fn membership(&mut self, change: &MembershipChange) {
        match self {
            Follower::Records(recorder) => recorder.borrow_mut().membership_callback(change),
            Follower::Compares(verifier) => verifier.borrow_mut().membership_callback(change),
        }
    }

    fn observation(&mut self, observation: &RecordedObservation) {
        if let Follower::Records(recorder) = self {
            recorder.borrow_mut().observation_callback(observation);
        }
    }
}

impl Monitor for Follower {
    fn published(&mut self, message: &Message) {
        match self {
            Follower::Records(recorder) => recorder.borrow_mut().message_callback(message),
            Follower::Compares(verifier) => verifier.borrow_mut().message_callback(message),
        }
    }
}

/// Collects the spawner's requests off the wire.
struct RequestTap(Shared<TrafficRequestHandler>);

impl Monitor for RequestTap {
    fn published(&mut self, message: &Message) {
        let kind = self.0.borrow().kind_of(message);
        if let Some(kind) = kind {
            let parsed = request_of(kind, &message.payload);
            self.0.borrow_mut().callback(message, parsed);
        }
    }
}

/// What the demo asks between ticks.
struct Between {
    requests: Shared<TrafficRequestHandler>,
    follower: Follower,
}

impl TrafficWatch for Between {
    fn collected(&self) -> TrafficRequestHandler {
        self.requests
            .replace(TrafficRequestHandler::new(traffic_world::WORLD_NAME))
    }

    fn diverged(&self) -> bool {
        match &self.follower {
            Follower::Records(_) => false,
            Follower::Compares(verifier) => verifier.borrow().diverged(),
        }
    }
}

struct NoClock;

impl WallClock for NoClock {
    fn elapsed_nanos(&self) -> i64 {
        0
    }

    fn sleep(&mut self, _: i128) {}
}

/// Runs the demo world for `seconds` with a follower. Returns how far the run
/// got.
fn run_highway(follower: &Follower, compared: bool, seconds: i64) -> SimTime {
    let requests = shared(TrafficRequestHandler::new(traffic_world::WORLD_NAME));
    let wire = MonitorTransport::new(
        MonitorTransport::new(InProcTransport::new(), follower.clone()),
        RequestTap(requests.clone()),
    );
    let mut conductor = Conductor::new(traffic_world::config(), wire, NoClock)
        .expect("free-run config is always accepted");
    conductor.add_tick_callback(follower.clone());
    conductor.add_membership_callback(follower.clone());
    conductor.add_observation_callback(follower.clone());
    setup_live_traffic_scenario(&mut conductor, &Cast).expect("the world builds");
    let mut desk = TrafficDesk::new(Between {
        requests,
        follower: follower.clone(),
    });
    run_live_traffic_scenario(
        &mut conductor,
        &Cast,
        &mut desk,
        SimTime::from_secs(seconds),
        compared,
    )
    .expect("the run completes");
    conductor.sim_time()
}

/// Runs the demo world for `seconds`, returning its recorded log.
fn record_highway(seconds: i64) -> EventLog {
    let recorder = shared(Recorder::new(&traffic_world::config()));
    run_highway(&Follower::Records(recorder.clone()), false, seconds);
    let log = recorder.borrow().finish();
    log
}

/// Re-runs the demo world live against `recorded`, checking events as they
/// happen. Returns how far the run got and the verifier's verdict.
fn verify_highway(recorded: EventLog, seconds: i64) -> (SimTime, Result<usize, Divergence>) {
    let verifier = shared(Verifier::new(recorded, &traffic_world::config()));
    let reached = run_highway(&Follower::Compares(verifier.clone()), true, seconds);
    let verdict = verifier.borrow().finish();
    (reached, verdict)
}

/// Actor names in the order they joined and left, from a recorded log.
fn joined(log: &EventLog) -> Vec<&str> {
    log.events
        .iter()
        .filter_map(|event| match event {
            LogEvent::Join(join) => Some(join.path.as_str()),
            _ => None,
        })
        .collect()
}

fn left(log: &EventLog) -> Vec<&str> {
    log.events
        .iter()
        .filter_map(|event| match event {
            LogEvent::Leave(leave) => Some(leave.path.as_str()),
            _ => None,
        })
        .collect()
}

#[test]
fn traffic_arrives_and_retires_while_the_run_is_under_way() {
    let log = record_highway(traffic_world::SIM_SECONDS);
    let joined = joined(&log);
    let left = left(&log);

    // The ego, the spawner, and the logger are there from the start; every
    // traffic car arrived mid-run.
    assert!(joined.contains(&"ego/controller"));
    assert!(joined.contains(&"traffic_spawner"));
    let traffic_joins = joined.iter().filter(|p| p.starts_with("traffic")).count();
    let traffic_leaves = left.iter().filter(|p| p.starts_with("traffic")).count();

    assert!(
        traffic_joins > 12,
        "more cars joined than the road holds at once, so the population \
         turned over rather than being built once: {traffic_joins} joins"
    );
    assert!(
        traffic_leaves >= 2,
        "and the ego overtook some of them: {traffic_leaves} leaves"
    );
    assert!(
        traffic_leaves < traffic_joins,
        "with cars still on the road when the run ends"
    );
}

#[test]
fn a_car_leaves_as_a_whole_actor() {
    // Both halves of a composite go together, adjacent in the log, because
    // the driver removes the actor rather than its parts.
    let log = record_highway(traffic_world::SIM_SECONDS);
    let left = left(&log);
    let first = left.first().expect("the ego overtakes somebody");
    let actor = first.split('/').next().expect("a leaf path has an actor");

    let pair: Vec<&&str> = left.iter().filter(|p| p.starts_with(actor)).collect();
    assert_eq!(
        pair,
        vec![
            &format!("{actor}/controller").as_str(),
            &format!("{actor}/physics").as_str()
        ],
        "one leave per leaf, controller before physics - declaration order"
    );
}

#[test]
fn the_dynamic_world_reproduces_exactly() {
    // The whole point of deciding inside the sim: the traffic pattern is
    // part of the run, so a second run of the same seed produces it again,
    // down to the last byte.
    let first = record_highway(10);
    let second = record_highway(10);

    assert!(
        first.first_divergence(&second).is_none(),
        "two runs of the same seeded scenario must agree everywhere"
    );
    assert_eq!(first.final_world_hash(), second.final_world_hash());
}

#[test]
fn a_recorded_highway_run_verifies_against_a_re_run() {
    // Verification drives the same `run_live_traffic_scenario` that recording
    // does, so this also pins that a re-run of a *dynamic* world rebuilds the
    // same traffic: the spawner's requests are applied identically, or the
    // joins would not line up.
    let seconds = 10;
    let recorded = record_highway(seconds);
    let (reached, verdict) = verify_highway(recorded, seconds);

    assert!(
        verdict.is_ok(),
        "a faithful re-run of a dynamic world verifies: {:?}",
        verdict.unwrap_err()
    );
    assert_eq!(
        reached,
        SimTime::from_secs(seconds),
        "and having agreed throughout, it runs to the end"
    );
}

#[test]
fn verification_stops_at_the_first_divergence() {
    let seconds = 10;
    let mut recorded = record_highway(seconds);

    // Rewrite the key of a message halfway in. The re-run publishes the
    // real one, so the comparison fails there and everything after it is
    // being checked against a log the run has already left behind.
    let halfway = SimTime::from_secs(seconds / 2);
    let tampered = recorded
        .events
        .iter_mut()
        .find_map(|event| match event {
            LogEvent::Msg(message) if message.sim_time >= halfway => Some(message),
            _ => None,
        })
        .expect("the run publishes messages past its midpoint");
    let tampered_at = tampered.sim_time;
    tampered.key = "continuo/demo/actor/nobody/pose".to_string();

    let (reached, verdict) = verify_highway(recorded, seconds);

    assert!(verdict.is_err(), "a tampered log must not verify");
    assert!(
        reached < SimTime::from_secs(seconds),
        "and the run stops there rather than finishing: reached {reached:?}, \
         tampered at {tampered_at:?}"
    );
}
