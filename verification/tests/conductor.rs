//! The conductor end to end: scheduling and visibility, membership, step
//! timing, pacing, fingerprints, observers, verification and playback, over
//! an in-process transport.
use std::cell::{Cell, RefCell};
use std::rc::Rc;

use continuo::component::{take_step, Component, StepCtx};
use continuo::conductor::Conductor;
use continuo::conductor_error::ConductorError;
use continuo::config::ConductorConfig;
use continuo::error::CoreError;
use continuo::finite::Finder;
use continuo::ids::{ComponentId, ComponentPath};
use continuo::keyexpr::KeyExpr;
use continuo::membership::{JoinMetadata, LeaveMetadata, WORLD_LEVEL};
use continuo::messages::{Message, TickDone, TickStart};
use continuo::observers::{hear, Effect, Observer};
use continuo::pacing::{Pacing, WallClock};
use continuo::playback::PlaybackComponent;
use continuo::random::RandomSplitMix64;
use continuo::record::{
    EventLog, LogEvent, MembershipChange, RecordedBudgetMiss, RecordedJoin, RecordedLeave,
    RecordedObservation, RecordedTimeout, Recorder, TickFingerprint,
};
use continuo::stopwatch::Stopwatch;
use continuo::time::{SimDuration, SimTime};
use continuo::timing::{OnTimeout, StepTiming, WallDuration};
use continuo::traffic::{traffic_despawn_key, traffic_spawn_key};
use continuo::traffic::{DespawnTrafficRequest, SpawnTrafficRequest};
use continuo::traffic_world::{
    self, add_car, recorded_traffic_actor_names, run_live_traffic_scenario,
    run_playback_traffic_scenario, setup_live_traffic_scenario, setup_playback_traffic_scenario,
    setup_scale_scenario, CarBuilder, Request, ScaleFloats, ScaleSlot, SceneBuilder,
    TrafficDesk, TrafficRequestHandler, TrafficWatch, EGO_SPEED_BITS,
};
use continuo::transport::{InProcTransport, Monitor, MonitorTransport};
use continuo::verify::Verifier;

// ---------------------------------------------------------------------------
// The bench
// ---------------------------------------------------------------------------

/// Whoever is shown the messages of a world, in order.
struct Taps(Vec<Box<dyn FnMut(&Message)>>);

impl Monitor for Taps {
    fn published(&mut self, message: &Message) {
        for tap in &mut self.0 {
            tap(message);
        }
    }
}

/// An observer of one channel.
enum Watch {
    Tick(Box<dyn FnMut(&TickFingerprint)>),
    Membership(Box<dyn FnMut(&MembershipChange)>),
    Observation(Box<dyn FnMut(&RecordedObservation)>),
    /// Counts instants that are entered, and steps that are done.
    Count(Rc<Cell<(u64, u64)>>),
}

impl Observer for Watch {
    fn tick(&mut self, fingerprint: &TickFingerprint) {
        if let Watch::Tick(callback) = self {
            callback(fingerprint);
        }
    }

    fn membership(&mut self, change: &MembershipChange) {
        if let Watch::Membership(callback) = self {
            callback(change);
        }
    }

    fn observation(&mut self, observation: &RecordedObservation) {
        if let Watch::Observation(callback) = self {
            callback(observation);
        }
    }

    fn tick_start(&mut self, _: &TickStart) {
        if let Watch::Count(counts) = self {
            let (instants, steps) = counts.get();
            counts.set((instants + 1, steps));
        }
    }

    fn tick_done(&mut self, _: &TickDone) {
        if let Watch::Count(counts) = self {
            let (instants, steps) = counts.get();
            counts.set((instants, steps + 1));
        }
    }
}

/// What a world is built with: whoever watches it, and a wall clock that
/// moves only when a step says that it cost something.
#[derive(Default)]
struct Bench {
    on_message: Vec<Box<dyn FnMut(&Message)>>,
    on_tick: Vec<Box<dyn FnMut(&TickFingerprint)>>,
    on_membership: Vec<Box<dyn FnMut(&MembershipChange)>>,
    on_observation: Vec<Box<dyn FnMut(&RecordedObservation)>>,
    wall: Rc<Cell<u64>>,
}

/// The bench's clock.
struct BenchClock(Rc<Cell<u64>>);

impl WallClock for BenchClock {
    fn elapsed_nanos(&self) -> i64 {
        i64::try_from(self.0.get()).expect("a short run")
    }

    fn sleep(&mut self, nanos: i128) {
        let nanos = u64::try_from(nanos).expect("a short wait");
        self.0.set(self.0.get() + nanos);
    }
}

/// What the demo is asked between ticks.
#[derive(Default)]
struct DemoWatch {
    requests: Option<Shared<TrafficRequestHandler>>,
    compared_with: Option<Shared<Verifier>>,
}

impl TrafficWatch for DemoWatch {
    fn collected(&self) -> TrafficRequestHandler {
        let fresh = TrafficRequestHandler::new(traffic_world::WORLD_NAME);
        match &self.requests {
            Some(handler) => handler.replace(fresh),
            None => fresh,
        }
    }

    fn diverged(&self) -> bool {
        self.compared_with
            .as_ref()
            .is_some_and(|verifier| verifier.borrow().diverged())
    }
}

/// A clock that moves only by being slept on.
struct StillClock {
    now: i64,
}

impl WallClock for StillClock {
    fn elapsed_nanos(&self) -> i64 {
        self.now
    }

    fn sleep(&mut self, nanos: i128) {
        self.now += i64::try_from(nanos).expect("a short wait");
    }
}

/// The machine's clock, waiting by watching it.
struct SpinClock {
    origin: std::time::Instant,
}

impl WallClock for SpinClock {
    fn elapsed_nanos(&self) -> i64 {
        i64::try_from(self.origin.elapsed().as_nanos()).expect("a short run")
    }

    fn sleep(&mut self, nanos: i128) {
        let start = std::time::Instant::now();
        let wait = u128::try_from(nanos).expect("a wait is never negative");
        while start.elapsed().as_nanos() < wait {}
    }
}

/// Any component at all.
struct Boxed(Box<dyn Component>);

impl Component for Boxed {
    fn id(&self) -> ComponentId {
        self.0.id()
    }

    fn subscriptions(&self) -> Vec<KeyExpr> {
        self.0.subscriptions()
    }

    fn step(&mut self, ctx: &mut StepCtx) -> Result<SimTime, CoreError> {
        self.0.step(ctx)
    }

    fn state_bytes(&self) -> Option<Vec<u8>> {
        self.0.state_bytes()
    }
}

type Wire = MonitorTransport<InProcTransport, Taps>;

type World = Conductor<Boxed, Wire, Watch, BenchClock>;

/// A transport that shows its messages to some taps.
fn wire(taps: Vec<Box<dyn FnMut(&Message)>>) -> Wire {
    MonitorTransport::new(InProcTransport::new(), Taps(taps))
}

fn boxed<T: Component + 'static>(component: T) -> Boxed {
    Boxed(Box::new(component))
}

fn config(world_name: &str, world_seed: u64) -> ConductorConfig {
    ConductorConfig {
        world_name: world_name.to_string(),
        world_seed,
        pacing: Pacing::FreeRun,
    }
}

fn world_with(config: ConductorConfig, bench: Bench) -> World {
    let mut conductor = Conductor::new(config, wire(bench.on_message), BenchClock(bench.wall))
        .expect("free-run config is always accepted");
    for callback in bench.on_tick {
        conductor.add_tick_callback(Watch::Tick(callback));
    }
    for callback in bench.on_membership {
        conductor.add_membership_callback(Watch::Membership(callback));
    }
    for callback in bench.on_observation {
        conductor.add_observation_callback(Watch::Observation(callback));
    }
    conductor
}

fn world(world_name: &str) -> World {
    world_with(config(world_name, 0), Bench::default())
}

/// A world, and the wall clock that its steps move.
fn timed_world(world_name: &str) -> (World, Rc<Cell<u64>>) {
    let bench = Bench::default();
    let wall = bench.wall.clone();
    (world_with(config(world_name, 0), bench), wall)
}

/// Publishes a serialized value that holds no float.
fn put<T: serde::Serialize>(ctx: &mut StepCtx, key: &str, value: &T) -> Result<(), CoreError> {
    ctx.publish(
        KeyExpr::new(key).expect("valid key"),
        serde_json::to_vec(value).map_err(|error| error.to_string()),
        None,
    )
}

type Shared<T> = Rc<RefCell<T>>;

fn shared<T>(value: T) -> Shared<T> {
    Rc::new(RefCell::new(value))
}

/// Taps messages and fingerprints into a recorder.
fn tap_recorder(bench: &mut Bench, recorder: &Shared<Recorder>) {
    let tap = recorder.clone();
    bench
        .on_message
        .push(Box::new(move |m| tap.borrow_mut().message_callback(m)));
    let tap = recorder.clone();
    bench
        .on_tick
        .push(Box::new(move |t| tap.borrow_mut().tick_callback(t)));
}

/// Taps every observation point into a recorder.
fn tap_recorder_fully(bench: &mut Bench, recorder: &Shared<Recorder>) {
    tap_recorder(bench, recorder);
    let tap = recorder.clone();
    bench
        .on_membership
        .push(Box::new(move |c| tap.borrow_mut().membership_callback(c)));
    let tap = recorder.clone();
    bench
        .on_observation
        .push(Box::new(move |o| tap.borrow_mut().observation_callback(o)));
}

/// Taps messages, fingerprints and, where asked, membership changes into a
/// verifier.
fn tap_verifier(bench: &mut Bench, verifier: &Shared<Verifier>, membership: bool) {
    let tap = verifier.clone();
    bench
        .on_message
        .push(Box::new(move |m| tap.borrow_mut().message_callback(m)));
    let tap = verifier.clone();
    bench
        .on_tick
        .push(Box::new(move |t| tap.borrow_mut().tick_callback(t)));
    if membership {
        let tap = verifier.clone();
        bench
            .on_membership
            .push(Box::new(move |c| tap.borrow_mut().membership_callback(c)));
    }
}

/// A sim-time duration, in milliseconds.
fn dur_ms(n: i64) -> SimDuration {
    SimDuration::from_millis(n)
}

/// A sim-time instant, in milliseconds.
fn t_sim_ms(n: i64) -> SimTime {
    SimTime::from_millis(n)
}

fn path(s: &str) -> ComponentPath {
    ComponentPath::parse(s).expect("valid path")
}

// ---------------------------------------------------------------------------
// Scheduling and visibility
// ---------------------------------------------------------------------------

/// What one probe observed at one of its steps.
#[derive(Debug, Clone, PartialEq)]
struct Observation {
    now: SimTime,
    /// (publisher, seq, message time) for each released inbox message.
    inbox: Vec<(String, u64, SimTime)>,
}

type ObservationLog = Shared<Vec<(String, Observation)>>;

/// A probe: fixed period, optional publication each step, records its inbox.
struct Probe {
    id: &'static str,
    period: SimDuration,
    subscribe: Option<&'static str>,
    publish: Option<&'static str>,
    observations: ObservationLog,
}

impl Component for Probe {
    fn id(&self) -> ComponentId {
        ComponentId::new(self.id).unwrap()
    }

    fn subscriptions(&self) -> Vec<KeyExpr> {
        self.subscribe
            .map(|k| vec![KeyExpr::new(k).unwrap()])
            .unwrap_or_default()
    }

    fn step(&mut self, ctx: &mut StepCtx) -> Result<SimTime, CoreError> {
        let observation = Observation {
            now: ctx.now(),
            inbox: ctx
                .inbox()
                .iter()
                .map(|m| (m.publisher.to_string(), m.seq, m.sim_time))
                .collect(),
        };
        self.observations
            .borrow_mut()
            .push((self.id.to_string(), observation));
        if let Some(key) = self.publish {
            let text = ctx.now().to_canonical_string();
            put(ctx, key, &text).unwrap();
        }
        Ok(ctx.now() + self.period)
    }
}

/// What one probe observed, step by step.
fn seen_by(observations: &ObservationLog, who: &str) -> Vec<Observation> {
    observations
        .borrow()
        .iter()
        .filter(|(id, _)| id == who)
        .map(|(_, o)| o.clone())
        .collect()
}

#[test]
fn advances_to_earliest_due_and_orders_by_declaration() {
    let observations: ObservationLog = Default::default();
    let mut c = world("test");
    let counts: Rc<Cell<(u64, u64)>> = Default::default();
    c.add_tick_callback(Watch::Count(counts.clone()));
    // Declared order: a then b, but different periods.
    for (id, period) in [("a", dur_ms(3)), ("b", dur_ms(2))] {
        c.add_component(
            WORLD_LEVEL.into(),
            boxed(Probe {
                id,
                period,
                subscribe: None,
                publish: None,
                observations: observations.clone(),
            }),
        )
        .unwrap();
    }

    c.run_until(t_sim_ms(6)).unwrap();

    let steps: Vec<(String, SimTime)> = observations
        .borrow()
        .iter()
        .map(|(id, o)| (id.clone(), o.now))
        .collect();
    assert_eq!(
        steps,
        vec![
            ("a".into(), t_sim_ms(0)), // both due at 0: declaration order
            ("b".into(), t_sim_ms(0)),
            ("b".into(), t_sim_ms(2)),
            ("a".into(), t_sim_ms(3)),
            ("b".into(), t_sim_ms(4)),
            ("a".into(), t_sim_ms(6)), // both due at 6: declaration order again
            ("b".into(), t_sim_ms(6)),
        ]
    );
    assert_eq!(counts.get(), (5, 7), "five instants, and seven steps in them");
}

#[test]
fn strict_advance_guard_rejects_non_advancing_next_due() {
    let observations: ObservationLog = Default::default();
    let mut c = world("test");
    c.add_component(
        WORLD_LEVEL.into(),
        boxed(Probe {
            id: "stuck",
            period: dur_ms(0),
            subscribe: None,
            publish: None,
            observations,
        }),
    )
    .unwrap();

    let err = c.run_until(t_sim_ms(1)).unwrap_err();
    assert!(
        matches!(err, ConductorError::ScheduleViolation { .. }),
        "got {err:?}"
    );
}

#[test]
fn same_instant_delivery_to_later_sibling_within_composite() {
    let observations: ObservationLog = Default::default();
    let mut c = world("test");
    c.add_component(
        "actor".into(),
        boxed(Probe {
            id: "producer",
            period: dur_ms(10),
            subscribe: None,
            publish: Some("test/data"),
            observations: observations.clone(),
        }),
    )
    .unwrap();
    c.add_component(
        "actor".into(),
        boxed(Probe {
            id: "consumer",
            period: dur_ms(10),
            subscribe: Some("test/data"),
            publish: None,
            observations: observations.clone(),
        }),
    )
    .unwrap();

    c.run_until(t_sim_ms(10)).unwrap();

    let consumer = seen_by(&observations, "consumer");
    // t=0: the producer's t=0 message arrives same-instant (earlier sibling).
    assert_eq!(consumer[0].now, t_sim_ms(0));
    assert_eq!(
        consumer[0].inbox,
        vec![("actor/producer".to_string(), 0, t_sim_ms(0))]
    );
    // t=10ms: only the t=10ms message (t=0 was already delivered).
    assert_eq!(
        consumer[1].inbox,
        vec![("actor/producer".to_string(), 1, t_sim_ms(10))]
    );
}

#[test]
fn cross_actor_same_instant_is_deferred_to_next_step() {
    let observations: ObservationLog = Default::default();
    let mut c = world("test");
    // Two world-level actors, co-scheduled every 10 ms.
    c.add_component(
        WORLD_LEVEL.into(),
        boxed(Probe {
            id: "producer",
            period: dur_ms(10),
            subscribe: None,
            publish: Some("test/data"),
            observations: observations.clone(),
        }),
    )
    .unwrap();
    c.add_component(
        WORLD_LEVEL.into(),
        boxed(Probe {
            id: "consumer",
            period: dur_ms(10),
            subscribe: Some("test/data"),
            publish: None,
            observations: observations.clone(),
        }),
    )
    .unwrap();

    c.run_until(t_sim_ms(20)).unwrap();

    let consumer = seen_by(&observations, "consumer");
    // t=0: nothing, since the producer's t=0 message is same-instant and
    // cross-actor.
    assert_eq!(consumer[0].inbox, vec![]);
    // t=10ms: exactly the t=0 message; the t=10ms one is again deferred.
    assert_eq!(
        consumer[1].inbox,
        vec![("producer".to_string(), 0, t_sim_ms(0))]
    );
    // t=20ms: the t=10ms message.
    assert_eq!(
        consumer[2].inbox,
        vec![("producer".to_string(), 1, t_sim_ms(10))]
    );
}

#[test]
fn slow_consumer_receives_accumulated_messages_in_order() {
    let observations: ObservationLog = Default::default();
    let mut c = world("test");
    c.add_component(
        WORLD_LEVEL.into(),
        boxed(Probe {
            id: "fast",
            period: dur_ms(10),
            subscribe: None,
            publish: Some("test/data"),
            observations: observations.clone(),
        }),
    )
    .unwrap();
    c.add_component(
        WORLD_LEVEL.into(),
        boxed(Probe {
            id: "slow",
            period: dur_ms(35),
            subscribe: Some("test/data"),
            publish: None,
            observations: observations.clone(),
        }),
    )
    .unwrap();

    c.run_until(t_sim_ms(70)).unwrap();

    let slow = seen_by(&observations, "slow");
    // Steps at 0, 35, 70. At t=35: messages from 0,10,20,30 (all < 35).
    let times: Vec<SimTime> = slow[1].inbox.iter().map(|(_, _, t)| *t).collect();
    assert_eq!(
        times,
        vec![t_sim_ms(0), t_sim_ms(10), t_sim_ms(20), t_sim_ms(30)]
    );
    // At t=70: messages from 40,50,60 (t=70 deferred, cross-actor).
    let times: Vec<SimTime> = slow[2].inbox.iter().map(|(_, _, t)| *t).collect();
    assert_eq!(times, vec![t_sim_ms(40), t_sim_ms(50), t_sim_ms(60)]);
}

#[test]
fn real_time_pacing_is_accepted() {
    let conductor: Conductor<Boxed, Wire, Watch, StillClock> = Conductor::new(
        ConductorConfig {
            world_name: "test".into(),
            world_seed: 0,
            pacing: Pacing::real_time(),
        },
        wire(Vec::new()),
        StillClock { now: 0 },
    )
    .expect("real-time pacing is supported");
    assert_eq!(conductor.overrun_reanchor_count(), 0);
}

#[test]
fn a_run_never_steps_past_its_end() {
    let observations: ObservationLog = Default::default();
    let mut c = world("test");
    c.add_component(
        WORLD_LEVEL.into(),
        boxed(Probe {
            id: "a",
            period: dur_ms(10),
            subscribe: None,
            publish: None,
            observations: observations.clone(),
        }),
    )
    .unwrap();
    assert!(c.step_once().unwrap(), "the opening instant is stepped");
    c.run_until(t_sim_ms(19)).unwrap();
    assert_eq!(seen_by(&observations, "a").len(), 2);
    assert_eq!(c.sim_time(), t_sim_ms(10));
    assert_eq!(c.next_scheduled(), Some(t_sim_ms(20)));

    let mut empty = world("test");
    assert!(!empty.step_once().unwrap(), "nothing is due in it");
    assert_eq!(empty.tick(), 0);
    assert_eq!(empty.world_name(), "test");
}

// ---------------------------------------------------------------------------
// Unreadable inboxes
// ---------------------------------------------------------------------------

const READING_KEY: &str = "test/actor/sensor/reading";

/// Publishes one reading per step, in the shape chosen at construction.
struct Sensor {
    matching: bool,
}

impl Component for Sensor {
    fn id(&self) -> ComponentId {
        ComponentId::new("sensor").expect("valid id")
    }

    fn subscriptions(&self) -> Vec<KeyExpr> {
        Vec::new()
    }

    fn step(&mut self, ctx: &mut StepCtx) -> Result<SimTime, CoreError> {
        let field = if self.matching { "bearing" } else { "distance" };
        let mut reading = serde_json::Map::new();
        reading.insert(field.to_string(), serde_json::Value::from(1.5));
        put(ctx, READING_KEY, &serde_json::Value::Object(reading))?;
        Ok(ctx.now() + SimDuration::from_millis(10))
    }
}

/// Reads whatever the sensor published, and how it handles a payload it
/// cannot parse is what each test below is about.
struct Reader {
    /// Whether to swallow a failure rather than propagate it.
    tolerant: bool,
    read: u32,
    refused: u32,
}

/// The bearing in a payload.
fn bearing_of(payload: &[u8]) -> Result<f64, String> {
    let value: serde_json::Value =
        serde_json::from_slice(payload).map_err(|error| error.to_string())?;
    value
        .get("bearing")
        .and_then(|bearing| bearing.as_f64())
        .ok_or_else(|| "missing field `bearing`".to_string())
}

impl Component for Reader {
    fn id(&self) -> ComponentId {
        ComponentId::new("reader").expect("valid id")
    }

    fn subscriptions(&self) -> Vec<KeyExpr> {
        vec![KeyExpr::new(READING_KEY).expect("valid key")]
    }

    fn step(&mut self, ctx: &mut StepCtx) -> Result<SimTime, CoreError> {
        for message in ctx.inbox() {
            match message.decode(bearing_of(&message.payload)) {
                Ok(_) => self.read += 1,
                Err(_) if self.tolerant => self.refused += 1,
                Err(error) => return Err(error),
            }
        }
        Ok(ctx.now() + SimDuration::from_millis(10))
    }
}

/// Runs a sensor and a reader together for ten steps.
fn run_reading_world(matching: bool, tolerant: bool) -> Result<(), ConductorError> {
    let mut conductor = world_with(config("decode-test", 42), Bench::default());
    conductor
        .add_component_at_start(WORLD_LEVEL, boxed(Sensor { matching }))
        .expect("registration succeeds");
    conductor
        .add_component_at_start(
            WORLD_LEVEL,
            boxed(Reader {
                tolerant,
                read: 0,
                refused: 0,
            }),
        )
        .expect("registration succeeds");
    conductor.run_until(SimTime::from_millis(100))
}

#[test]
fn a_component_that_cannot_read_its_inbox_halts_the_run() {
    let error =
        run_reading_world(false, false).expect_err("an unreadable payload must stop the run");

    assert!(
        matches!(error, ConductorError::StepFailed { .. }),
        "an unreadable payload is a failed step: {error:?}"
    );

    // Which component and instant come from the conductor, which key and
    // publisher from the core error underneath.
    let message = error.to_string();
    for expected in ["reader", READING_KEY, "sensor"] {
        assert!(
            message.contains(expected),
            "the report must name {expected:?}: {message}"
        );
    }
}

#[test]
fn the_same_world_runs_to_the_end_when_the_payload_parses() {
    run_reading_world(true, false).expect("a payload the reader understands lets the run finish");
}

#[test]
fn a_component_may_still_choose_to_carry_on() {
    run_reading_world(false, true).expect("a reader that handles the error keeps the run alive");
}

// ---------------------------------------------------------------------------
// Non-finite floats
// ---------------------------------------------------------------------------

/// Integrates a velocity that is `NaN` from the second step onward.
struct DivergingIntegrator {
    x: f64,
    velocity: f64,
    steps: u32,
}

impl Component for DivergingIntegrator {
    fn id(&self) -> ComponentId {
        ComponentId::new("integrator").expect("valid id")
    }

    fn subscriptions(&self) -> Vec<KeyExpr> {
        Vec::new()
    }

    fn step(&mut self, ctx: &mut StepCtx) -> Result<SimTime, CoreError> {
        self.steps += 1;

        // Finite on the first step, so the test proves the run was under way
        // and stopped, rather than never having started.
        if self.steps > 1 {
            self.velocity = f64::NAN;
        }
        self.x += self.velocity;

        let mut finder = Finder::new();
        finder.enter_field("x");
        let found = finder.check(self.x.to_bits()).err();
        let mut position = serde_json::Map::new();
        position.insert("x".to_string(), serde_json::Value::from(self.x));
        position.insert("y".to_string(), serde_json::Value::from(0.0));
        position.insert("z".to_string(), serde_json::Value::from(0.0));
        ctx.publish(
            KeyExpr::new("test/actor/diverging/pose").expect("valid key"),
            serde_json::to_vec(&position).map_err(|error| error.to_string()),
            found,
        )
        .expect("the integrator keeps its position finite");
        Ok(ctx.now() + SimDuration::from_millis(10))
    }
}

#[test]
#[should_panic(expected = "the integrator keeps its position finite")]
fn a_component_publishing_a_non_finite_float_halts_the_run() {
    // Ten steps are scheduled and the second one goes bad, so a run that
    // reached the end would mean the guard let it through.
    let mut conductor = world_with(config("non-finite-test", 42), Bench::default());
    conductor
        .add_component(
            WORLD_LEVEL.into(),
            boxed(DivergingIntegrator {
                x: 0.0,
                velocity: 1.0,
                steps: 0,
            }),
        )
        .expect("registration succeeds");
    conductor
        .run_until(SimTime::from_millis(100))
        .expect("components schedule strictly forward");
}

// ---------------------------------------------------------------------------
// Observers
// ---------------------------------------------------------------------------

/// Every step every component took, in order.
type StepLog = Shared<Vec<(String, SimTime)>>;

/// Records each step it takes, so a departure shows up as silence.
struct Ticker {
    id: &'static str,
    period: SimDuration,
    steps: StepLog,
}

impl Component for Ticker {
    fn id(&self) -> ComponentId {
        ComponentId::new(self.id).expect("valid id")
    }

    fn subscriptions(&self) -> Vec<KeyExpr> {
        Vec::new()
    }

    fn step(&mut self, ctx: &mut StepCtx) -> Result<SimTime, CoreError> {
        self.steps
            .borrow_mut()
            .push((self.id.to_string(), ctx.now()));
        Ok(ctx.now() + self.period)
    }
}

/// A 10 ms ticker of the given id, logging into `steps`.
fn ticker(id: &'static str, steps: &StepLog) -> Boxed {
    boxed(Ticker {
        id,
        period: dur_ms(10),
        steps: steps.clone(),
    })
}

fn steps_of(steps: &StepLog, id: &str) -> Vec<SimTime> {
    steps
        .borrow()
        .iter()
        .filter(|(who, _)| who == id)
        .map(|(_, when)| *when)
        .collect()
}

/// Records into a shared list, so several observers are distinguishable.
fn recording_into(
    log: &Shared<Vec<String>>,
    label: &'static str,
) -> Box<dyn FnMut(&MembershipChange)> {
    let log = log.clone();
    Box::new(move |change: &MembershipChange| {
        let path = match change {
            MembershipChange::Joined(join) => &join.path,
            MembershipChange::Left(leave) => &leave.path,
        };
        log.borrow_mut().push(format!("{label}:{path}"));
    })
}

#[test]
fn every_membership_observer_is_invoked_in_the_order_it_was_added() {
    let seen: Shared<Vec<String>> = Default::default();
    let mut conductor = world("observers-test");
    let first = recording_into(&seen, "first");
    let second = recording_into(&seen, "second");
    conductor.add_membership_callback(Watch::Membership(first));
    conductor.add_membership_callback(Watch::Membership(second));

    conductor
        .add_component_at_start(WORLD_LEVEL, ticker("a", &Default::default()))
        .expect("registration succeeds");

    assert_eq!(
        *seen.borrow(),
        vec!["first:a".to_string(), "second:a".to_string()],
        "both observers see the join, and the earlier one goes first"
    );
}

#[test]
fn every_tick_observer_is_invoked() {
    let counts: Shared<(u32, u32)> = Default::default();
    let mut bench = Bench::default();
    let tap = counts.clone();
    bench
        .on_tick
        .push(Box::new(move |_| tap.borrow_mut().0 += 1));
    let tap = counts.clone();
    bench
        .on_tick
        .push(Box::new(move |_| tap.borrow_mut().1 += 1));
    let mut conductor = world_with(config("observers-test", 0), bench);

    conductor
        .add_component_at_start(WORLD_LEVEL, ticker("a", &Default::default()))
        .expect("registration succeeds");
    conductor
        .run_until(SimTime::from_millis(30))
        .expect("steps succeed");

    let (first, second) = *counts.borrow();
    assert!(first > 0, "the first observer saw ticks");
    assert_eq!(first, second, "both observers saw exactly the same ticks");
}

#[test]
fn a_second_observer_does_not_silence_a_recorder() {
    let recorder = shared(Recorder::new(&config("observers-test", 0)));
    let watched: Shared<Vec<String>> = Default::default();

    let mut bench = Bench::default();
    let tap = recorder.clone();
    bench
        .on_membership
        .push(Box::new(move |c| tap.borrow_mut().membership_callback(c)));
    bench
        .on_membership
        .push(recording_into(&watched, "watcher"));
    let mut conductor = world_with(config("observers-test", 0), bench);

    conductor
        .add_component_at_start(WORLD_LEVEL, ticker("a", &Default::default()))
        .expect("registration succeeds");
    conductor
        .run_until(SimTime::from_millis(10))
        .expect("steps succeed");
    conductor
        .remove_component_now("a")
        .expect("`a` is registered");

    let log = recorder.borrow().finish();
    let membership_events = log
        .events
        .iter()
        .filter(|event| matches!(event, LogEvent::Join(_) | LogEvent::Leave(_)))
        .count();
    assert_eq!(
        membership_events, 2,
        "the recorder still logged the join and the leave despite a second observer"
    );
    assert_eq!(
        watched.borrow().len(),
        2,
        "and the watcher saw both as well"
    );
}

#[test]
fn an_observer_hears_what_happens_from_when_it_was_added() {
    let early: Shared<Vec<SimTime>> = Default::default();
    let late: Shared<Vec<SimTime>> = Default::default();
    let mut conductor = world("observers-test");
    let tap = early.clone();
    conductor.add_tick_callback(Watch::Tick(Box::new(move |t| {
        tap.borrow_mut().push(t.sim_time)
    })));
    conductor
        .add_component_at_start(WORLD_LEVEL, ticker("a", &Default::default()))
        .expect("registration succeeds");
    conductor.run_until(t_sim_ms(10)).expect("steps succeed");

    let tap = late.clone();
    conductor.add_tick_callback(Watch::Tick(Box::new(move |t| {
        tap.borrow_mut().push(t.sim_time)
    })));
    conductor.run_until(t_sim_ms(30)).expect("steps succeed");

    assert_eq!(
        *early.borrow(),
        vec![t_sim_ms(0), t_sim_ms(10), t_sim_ms(20), t_sim_ms(30)]
    );
    assert_eq!(*late.borrow(), vec![t_sim_ms(20), t_sim_ms(30)]);
}

#[test]
fn what_a_departed_component_published_still_arrives() {
    let observations: ObservationLog = Default::default();
    let mut conductor = world("test");
    conductor
        .add_component_at_start(
            WORLD_LEVEL,
            boxed(Probe {
                id: "talker",
                period: dur_ms(10),
                subscribe: None,
                publish: Some("w/talk"),
                observations: observations.clone(),
            }),
        )
        .expect("registration succeeds");
    conductor
        .add_component_at_start(
            WORLD_LEVEL,
            boxed(Probe {
                id: "listener",
                period: dur_ms(30),
                subscribe: Some("w/talk"),
                publish: None,
                observations: observations.clone(),
            }),
        )
        .expect("registration succeeds");
    conductor.run_until(t_sim_ms(10)).expect("steps succeed");
    conductor
        .remove_component_now("talker")
        .expect("the talker is registered");
    conductor.run_until(t_sim_ms(30)).expect("steps succeed");

    let heard: Vec<(String, u64, SimTime)> = observations
        .borrow()
        .iter()
        .filter(|(who, seen)| who == "listener" && seen.now == t_sim_ms(30))
        .flat_map(|(_, seen)| seen.inbox.clone())
        .collect();
    assert_eq!(
        heard,
        vec![
            ("talker".to_string(), 0, t_sim_ms(0)),
            ("talker".to_string(), 1, t_sim_ms(10)),
        ],
        "departing is not a rollback"
    );
}

// ---------------------------------------------------------------------------
// Pacing
// ---------------------------------------------------------------------------

/// A bare periodic component: steps every `period`, publishes one value, no
/// inbox.
struct Pulse {
    period: SimDuration,
}

impl Component for Pulse {
    fn id(&self) -> ComponentId {
        ComponentId::new("ticker").expect("valid id")
    }

    fn subscriptions(&self) -> Vec<KeyExpr> {
        Vec::new()
    }

    fn step(&mut self, ctx: &mut StepCtx) -> Result<SimTime, CoreError> {
        let nanos = ctx.now().as_nanos();
        put(ctx, "test/tick", &nanos).expect("i64 serializes");
        Ok(ctx.now() + self.period)
    }
}

fn run_paced<C: WallClock>(
    pacing: Pacing,
    end: SimTime,
    clock: C,
) -> Conductor<Boxed, Wire, Watch, C> {
    let mut conductor = Conductor::new(
        ConductorConfig {
            world_name: "pacing-test".into(),
            world_seed: 1,
            pacing,
        },
        wire(Vec::new()),
        clock,
    )
    .expect("config is accepted");
    conductor
        .add_component(
            WORLD_LEVEL.into(),
            boxed(Pulse {
                period: SimDuration::from_millis(10),
            }),
        )
        .expect("registration succeeds");
    conductor.run_until(end).expect("ticker schedules forward");
    conductor
}

#[test]
fn pacing_does_not_change_the_world_hash() {
    let end = SimTime::from_millis(50);
    let free = run_paced(Pacing::FreeRun, end, StillClock { now: 0 });
    // Both real-time modes must match the free run exactly: pacing only
    // delays instants, never changes content.
    for paced in [
        run_paced(Pacing::real_time(), end, StillClock { now: 0 }),
        run_paced(Pacing::real_time_precise(), end, StillClock { now: 0 }),
    ] {
        assert_eq!(
            free.world_hash(),
            paced.world_hash(),
            "pacing must only delay instants, never change their content"
        );
        assert_eq!(free.tick(), paced.tick(), "same schedule, same tick count");
    }
}

#[test]
fn a_paced_run_spends_real_wall_time() {
    // 200 ms of sim at 1x should take on the order of 200 ms of wall time,
    // certainly not the sub-millisecond a free run of this tiny world takes.
    let start = std::time::Instant::now();
    let clock = SpinClock {
        origin: std::time::Instant::now(),
    };
    let conductor = run_paced(Pacing::real_time(), SimTime::from_millis(200), clock);
    let elapsed = start.elapsed();

    assert_eq!(conductor.sim_time(), SimTime::from_millis(200));
    assert!(
        elapsed.as_millis() >= 150,
        "paced run finished in {elapsed:?}, far under 1x real time"
    );
}

#[test]
fn a_free_run_reports_no_overruns() -> Result<(), ConductorError> {
    let conductor = run_paced(
        Pacing::FreeRun,
        SimTime::from_millis(50),
        StillClock { now: 0 },
    );
    assert_eq!(conductor.overrun_reanchor_count(), 0);
    assert_eq!(conductor.total_slip(), WallDuration::zero());
    Ok(())
}

// ---------------------------------------------------------------------------
// Fingerprints
// ---------------------------------------------------------------------------

/// Publishes one deterministic random value per step from a persistent
/// per-component stream.
struct NoiseSource {
    id: &'static str,
    rng: Option<RandomSplitMix64>,
}

impl Component for NoiseSource {
    fn id(&self) -> ComponentId {
        ComponentId::new(self.id).expect("valid id")
    }

    fn subscriptions(&self) -> Vec<KeyExpr> {
        Vec::new()
    }

    fn step(&mut self, ctx: &mut StepCtx) -> Result<SimTime, CoreError> {
        let seed = ctx.component_seed();
        let rng = self.rng.get_or_insert_with(|| RandomSplitMix64::new(seed));
        let value = (rng.next_u64() >> 11) as f64 / 9_007_199_254_740_992.0;
        put(ctx, "test/noise", &value).expect("f64 serializes");
        Ok(ctx.now() + SimDuration::from_millis(10))
    }
}

/// A component with hidden internal state and *no* outputs: only the
/// `state_bytes` hook can make it visible to the determinism check.
struct HiddenCounter {
    count: u64,
    expose_state: bool,
}

impl Component for HiddenCounter {
    fn id(&self) -> ComponentId {
        ComponentId::new("hidden").expect("valid id")
    }

    fn subscriptions(&self) -> Vec<KeyExpr> {
        Vec::new()
    }

    fn step(&mut self, ctx: &mut StepCtx) -> Result<SimTime, CoreError> {
        self.count += 1;
        Ok(ctx.now() + SimDuration::from_millis(10))
    }

    fn state_bytes(&self) -> Option<Vec<u8>> {
        if self.expose_state {
            Some(serde_json::to_vec(&self.count).expect("count serializes"))
        } else {
            None
        }
    }
}

fn noise() -> Boxed {
    boxed(NoiseSource {
        id: "noise",
        rng: None,
    })
}

fn run_noise_world(seed: u64) -> EventLog {
    let recorder = shared(Recorder::new(&config("hashing-test", seed)));
    let mut bench = Bench::default();
    tap_recorder(&mut bench, &recorder);
    let mut conductor = world_with(config("hashing-test", seed), bench);

    conductor
        .add_component("".into(), noise())
        .expect("registration succeeds");
    conductor
        .run_until(SimTime::from_millis(100))
        .expect("components schedule strictly forward");

    let log = recorder.borrow().finish();
    log
}

#[test]
fn same_seed_produces_identical_logs() {
    let a = run_noise_world(42);
    let b = run_noise_world(42);
    assert!(!a.events.is_empty());
    assert_eq!(a.first_divergence(&b), None);
}

#[test]
fn different_seed_diverges_from_the_first_tick() {
    let a = run_noise_world(42);
    let b = run_noise_world(43);
    let divergence = a.first_divergence(&b).expect("seeds must diverge");
    // Headers differ (seed is recorded), which is the earliest possible
    // divergence point.
    assert_eq!(divergence.event_index, None);

    // Beyond the header, the actual streams differ too: compare final
    // hashes directly.
    assert_ne!(a.final_world_hash(), b.final_world_hash());
}

fn run_hidden_world(initial: u64, expose_state: bool) -> u64 {
    let mut conductor = world("hidden-test");
    conductor
        .add_component(
            "".into(),
            boxed(HiddenCounter {
                count: initial,
                expose_state,
            }),
        )
        .expect("registration succeeds");
    conductor
        .run_until(SimTime::from_millis(50))
        .expect("components schedule strictly forward");
    conductor.world_hash()
}

#[test]
fn state_bytes_exposes_hidden_state_to_the_hash() {
    // Without the hook, two worlds with different hidden state are
    // indistinguishable (no outputs to hash)...
    assert_eq!(run_hidden_world(0, false), run_hidden_world(1000, false));
    // ...with it, the divergence is caught.
    assert_ne!(run_hidden_world(0, true), run_hidden_world(1000, true));
    // And it stays deterministic: same hidden state, same hash.
    assert_eq!(run_hidden_world(7, true), run_hidden_world(7, true));
}

#[test]
fn live_verification_stops_at_the_first_divergence() {
    let mut expected = run_noise_world(42);
    let total_events = expected.events.len();
    assert_eq!(total_events, 22, "11 steps, one message + one tick each");

    // Tamper with a mid-log message payload (event 8 = the 5th step's
    // message, at sim time 40 ms of 100).
    let LogEvent::Msg(message) = &mut expected.events[8] else {
        panic!("event 8 is expected to be a message");
    };
    message.payload = "0.5".to_string();

    // Re-run the same world against the tampered log, stopping on
    // divergence.
    let verifier = shared(Verifier::new(expected, &config("hashing-test", 42)));
    let mut bench = Bench::default();
    tap_verifier(&mut bench, &verifier, false);
    let mut conductor = world_with(config("hashing-test", 42), bench);
    conductor
        .add_component("".into(), noise())
        .expect("registration succeeds");

    let end = SimTime::from_millis(100);
    while !verifier.borrow().diverged() && conductor.next_scheduled().is_some_and(|t| t <= end) {
        conductor.step_once().expect("steps succeed");
    }

    let divergence = verifier
        .borrow()
        .finish()
        .expect_err("tampered log must diverge");
    assert_eq!(divergence.event_index, Some(8));
    // The run stopped early: 5 of 11 steps executed, not the full schedule.
    assert_eq!(conductor.tick(), 5, "stopped at the diverging step");
    assert!(conductor.sim_time() < end);
}

/// What a log says of every message.
fn messages_in(log: &EventLog) -> Vec<(String, String, u64, String)> {
    log.events
        .iter()
        .filter_map(|e| match e {
            LogEvent::Msg(m) => Some((
                m.sim_time.to_canonical_string(),
                m.key.clone(),
                m.seq,
                m.payload.clone(),
            )),
            _ => None,
        })
        .collect()
}

#[test]
fn playback_double_reproduces_the_recorded_messages() {
    let original = run_noise_world(42);

    // Rebuild the world with the noise source replaced by its playback
    // double, recording what the double publishes.
    let recorder = shared(Recorder::new(&config("hashing-test", 42)));
    let mut bench = Bench::default();
    tap_recorder(&mut bench, &recorder);
    let mut conductor = world_with(config("hashing-test", 42), bench);
    conductor
        .add_component(
            "".into(),
            boxed(PlaybackComponent::from_log(
                ComponentId::new("noise").expect("valid id"),
                &original,
                "noise",
            )),
        )
        .expect("registration succeeds");
    conductor
        .run_until(SimTime::from_millis(100))
        .expect("playback schedules strictly forward");
    let replayed = recorder.borrow().finish();

    // The doubles' messages must be indistinguishable from the originals:
    // same times, keys, sequence numbers, and byte-identical payloads.
    assert_eq!(messages_in(&original), messages_in(&replayed));
    assert!(!replayed.events.is_empty());
}

/// Publishes a fixed set of `(key, payload)` pairs once, then holds fixed
/// state, so a test can move a byte from one field into the next and change
/// nothing else.
struct ScriptedComponent {
    id: &'static str,
    published: Vec<(&'static str, &'static [u8])>,
    state: Option<&'static [u8]>,
    done: bool,
}

impl Component for ScriptedComponent {
    fn id(&self) -> ComponentId {
        ComponentId::new(self.id).expect("valid id")
    }

    fn subscriptions(&self) -> Vec<KeyExpr> {
        Vec::new()
    }

    fn step(&mut self, ctx: &mut StepCtx) -> Result<SimTime, CoreError> {
        if !self.done {
            self.done = true;
            for (key, payload) in &self.published {
                // Raw pre-serialized bytes, so a test controls the payload
                // down to the byte. Still valid JSON, which is what a real
                // payload is.
                let raw: Box<serde_json::value::RawValue> =
                    serde_json::from_slice(payload).expect("the test payload is valid JSON");
                put(ctx, key, &raw)?;
            }
        }
        Ok(ctx.now() + SimDuration::from_millis(10))
    }

    fn state_bytes(&self) -> Option<Vec<u8>> {
        self.state.map(<[u8]>::to_vec)
    }
}

/// The world hash after one tick of the components given, in the order given.
fn scripted_hash(components: Vec<ScriptedComponent>) -> u64 {
    let mut conductor = world_with(config("boundary-test", 42), Bench::default());
    for component in components {
        conductor
            .add_component(WORLD_LEVEL.into(), boxed(component))
            .expect("registration succeeds");
    }
    conductor.step_once().expect("one tick runs");
    conductor.world_hash()
}

/// A component publishing one payload on one key, holding optional state.
fn one_message_component(
    id: &'static str,
    payload: &'static [u8],
    state: Option<&'static [u8]>,
) -> ScriptedComponent {
    ScriptedComponent {
        id,
        published: vec![("k", payload)],
        state,
        done: false,
    }
}

#[test]
fn a_payload_and_the_next_key_have_a_boundary() {
    let wide_payload = ScriptedComponent {
        id: "a",
        published: vec![("first", b"12"), ("k", b"0")],
        state: None,
        done: false,
    };
    let wide_key = ScriptedComponent {
        id: "a",
        published: vec![("first", b"1"), ("2k", b"0")],
        state: None,
        done: false,
    };
    assert_ne!(
        scripted_hash(vec![wide_payload]),
        scripted_hash(vec![wide_key])
    );
}

#[test]
fn one_components_last_field_and_the_next_components_path_have_a_boundary() {
    assert_ne!(
        scripted_hash(vec![
            one_message_component("a", b"12", None),
            one_message_component("b", b"0", None)
        ]),
        scripted_hash(vec![
            one_message_component("a", b"1", None),
            one_message_component("2b", b"0", None)
        ]),
    );
}

#[test]
fn a_payload_and_the_state_after_it_have_a_boundary() {
    assert_ne!(
        scripted_hash(vec![one_message_component("a", b"12", Some(b"3"))]),
        scripted_hash(vec![one_message_component("a", b"1", Some(b"23"))]),
    );
}

#[test]
fn absent_state_is_not_empty_state() {
    assert_ne!(
        scripted_hash(vec![one_message_component("a", b"1", None)]),
        scripted_hash(vec![one_message_component("a", b"1", Some(b""))]),
    );
}

#[test]
fn the_same_world_still_hashes_the_same() {
    assert_eq!(
        scripted_hash(vec![one_message_component("a", b"12", Some(b"3"))]),
        scripted_hash(vec![one_message_component("a", b"12", Some(b"3"))]),
    );
}

#[test]
fn a_fingerprint_is_the_documented_bytes() {
    let fingerprints: Shared<Vec<TickFingerprint>> = Default::default();
    let mut bench = Bench::default();
    let tap = fingerprints.clone();
    bench
        .on_tick
        .push(Box::new(move |t| tap.borrow_mut().push(*t)));
    let mut conductor = world_with(config("boundary-test", 42), bench);
    let opening = conductor.world_hash();
    conductor
        .add_component(
            WORLD_LEVEL.into(),
            boxed(one_message_component("a", b"12", Some(b"3"))),
        )
        .expect("registration succeeds");
    conductor.step_once().expect("one tick runs");

    // Tick number and instant; then path, next due, and per message key,
    // number and payload; then the state. Texts carry their lengths.
    let mut bytes: Vec<u8> = Vec::new();
    let mut word = |value: u64| value.to_le_bytes().to_vec();
    let field = |text: &[u8]| {
        let mut bytes = u64::try_from(text.len()).unwrap().to_le_bytes().to_vec();
        bytes.extend_from_slice(text);
        bytes
    };
    bytes.extend(word(1));
    bytes.extend(word(0));
    bytes.extend(field(b"a"));
    bytes.extend(word(10_000_000));
    bytes.extend(field(b"k"));
    bytes.extend(word(0));
    bytes.extend(field(b"12"));
    bytes.extend(field(b"3"));
    let tick_hash = continuo::hash::hash_bytes(&bytes);

    let seen = fingerprints.borrow();
    assert_eq!(seen.len(), 1);
    assert_eq!(seen[0].tick, 1);
    assert_eq!(seen[0].tick_hash, tick_hash);
    let mut chained = continuo::hash::HashFnv1a64::resume(opening);
    chained.write_u64(tick_hash);
    assert_eq!(seen[0].world_hash, chained.finish());
    assert_eq!(conductor.world_hash(), chained.finish());
}

// ---------------------------------------------------------------------------
// A playback double in a world
// ---------------------------------------------------------------------------

#[test]
fn a_playback_double_registers_like_any_component() {
    let mut recorder = Recorder::new(&config("test", 7));
    recorder.message_callback(&Message {
        key: KeyExpr::new("w/a").unwrap(),
        publisher: path("p"),
        seq: 0,
        sim_time: SimTime::zero(),
        payload: br#"{"v":1.5}"#.to_vec(),
    });
    recorder.tick_callback(&TickFingerprint {
        tick: 1,
        sim_time: SimTime::zero(),
        tick_hash: 0xdead_beef,
        world_hash: 0x1234_5678_9abc_def0,
    });
    let log = recorder.finish();
    let mut conductor = world_with(config("test", 7), Bench::default());
    conductor
        .add_component(
            "".into(),
            boxed(PlaybackComponent::from_log(
                ComponentId::new("p").unwrap(),
                &log,
                "p",
            )),
        )
        .expect("registration succeeds");
    conductor
        .run_until(SimTime::from_millis(1))
        .expect("playback schedules strictly forward");
    assert_eq!(conductor.tick(), 1, "the one recorded instant was stepped");
}

// ---------------------------------------------------------------------------
// Step timing
// ---------------------------------------------------------------------------

/// A ticker whose steps cost a fixed amount of wall time, so a declared limit
/// can be missed on purpose. The time is the wall clock moving.
struct SlowTicker {
    id: &'static str,
    period: SimDuration,
    step_cost: WallDuration,
    steps: StepLog,
    wall: Rc<Cell<u64>>,
}

impl Component for SlowTicker {
    fn id(&self) -> ComponentId {
        ComponentId::new(self.id).expect("valid id")
    }

    fn subscriptions(&self) -> Vec<KeyExpr> {
        Vec::new()
    }

    fn step(&mut self, ctx: &mut StepCtx) -> Result<SimTime, CoreError> {
        self.steps
            .borrow_mut()
            .push((self.id.to_string(), ctx.now()));
        let cost = u64::try_from(self.step_cost.as_nanos()).expect("a short step");
        self.wall.set(self.wall.get() + cost);
        Ok(ctx.now() + self.period)
    }
}

/// Wall-clock milliseconds, the scale step limits are declared at.
fn wall_ms(millis: u64) -> WallDuration {
    WallDuration::from_millis(millis)
}

/// A limit with so much headroom that a step doing nothing cannot reach it.
fn generous() -> WallDuration {
    WallDuration::from_secs(60)
}

/// How long a step told to be slow takes, against limits an order of
/// magnitude below it.
fn slow() -> WallDuration {
    wall_ms(20)
}

/// A 10 ms ticker whose steps cost `step_cost` of wall time.
fn slow_ticker(
    wall: &Rc<Cell<u64>>,
    id: &'static str,
    step_cost: WallDuration,
    steps: &StepLog,
) -> Boxed {
    boxed(SlowTicker {
        id,
        period: SimDuration::from_millis(10),
        step_cost,
        steps: steps.clone(),
        wall: wall.clone(),
    })
}

#[test]
fn a_step_over_its_budget_is_counted_against_the_component_that_took_it() {
    let steps: StepLog = Default::default();
    let (mut conductor, wall) = timed_world("timing-test");
    conductor
        .add_component(
            JoinMetadata::at_start(WORLD_LEVEL).with_timing(StepTiming::budget(wall_ms(1))),
            slow_ticker(&wall, "slow", slow(), &steps),
        )
        .expect("registration succeeds");
    conductor
        .add_component(
            JoinMetadata::at_start(WORLD_LEVEL).with_timing(StepTiming::budget(generous())),
            slow_ticker(&wall, "quick", WallDuration::zero(), &steps),
        )
        .expect("registration succeeds");
    conductor.run_until(t_sim_ms(10)).expect("steps succeed");

    assert_eq!(
        conductor.budget_misses(&path("slow")),
        Some(2),
        "both of its steps ran 20 ms against a 1 ms budget"
    );
    assert_eq!(
        conductor.budget_misses(&path("quick")),
        Some(0),
        "a budget it never came close to reports nothing"
    );
    assert_eq!(
        conductor.budget_misses(&path("nobody")),
        None,
        "and an unregistered path has no count to report"
    );
    assert_eq!(
        steps_of(&steps, "slow"),
        vec![t_sim_ms(0), t_sim_ms(10)],
        "missing a budget is diagnostic: the component keeps stepping"
    );
}

/// Runs one slow ticker under a declaration and returns the fingerprint.
fn run_slow_world(timing: StepTiming, steps: &StepLog) -> u64 {
    let (mut conductor, wall) = timed_world("timing-test");
    conductor
        .add_component(
            JoinMetadata::at_start(WORLD_LEVEL).with_timing(timing),
            slow_ticker(&wall, "slow", slow(), steps),
        )
        .expect("registration succeeds");
    conductor.run_until(t_sim_ms(10)).expect("steps succeed");
    conductor.world_hash()
}

#[test]
fn a_missed_budget_leaves_the_run_identical() {
    let missed: StepLog = Default::default();
    let undeclared: StepLog = Default::default();
    let with_budget = run_slow_world(StepTiming::budget(wall_ms(1)), &missed);
    let without = run_slow_world(StepTiming::unlimited(), &undeclared);

    assert_eq!(
        with_budget, without,
        "a run that misses every budget fingerprints identically to one \
         that declares none"
    );
    assert_eq!(steps_of(&missed, "slow"), steps_of(&undeclared, "slow"));
}

#[test]
fn a_timeout_halts_the_world_when_that_is_the_policy() {
    let steps: StepLog = Default::default();
    let (mut conductor, wall) = timed_world("timing-test");
    conductor
        .add_component(
            JoinMetadata::at_start(WORLD_LEVEL)
                .with_timing(StepTiming::timeout(wall_ms(1), OnTimeout::Halt)),
            slow_ticker(&wall, "slow", slow(), &steps),
        )
        .expect("registration succeeds");
    conductor
        .add_component(
            WORLD_LEVEL.into(),
            slow_ticker(&wall, "later_sibling", WallDuration::zero(), &steps),
        )
        .expect("registration succeeds");

    let halted = conductor.run_until(t_sim_ms(10));
    let Err(ConductorError::StepTimeout {
        path,
        now,
        elapsed,
        timeout,
    }) = halted
    else {
        panic!("expected a timeout, got {halted:?}");
    };
    assert_eq!(path.to_string(), "slow");
    assert_eq!(now, SimTime::zero(), "it timed out on its very first step");
    assert_eq!((elapsed, timeout), (wall_ms(20), wall_ms(1)));
    assert_eq!(
        steps_of(&steps, "later_sibling"),
        Vec::new(),
        "the halt ends the instant too, so what was due after it never ran"
    );
}

#[test]
fn a_timeout_removes_the_component_at_the_next_instant_when_that_is_the_policy() {
    let steps: StepLog = Default::default();
    let changes: Shared<Vec<MembershipChange>> = Default::default();
    let (mut conductor, wall) = timed_world("timing-test");
    let observed = changes.clone();
    conductor.add_membership_callback(Watch::Membership(Box::new(move |change| {
        observed.borrow_mut().push(change.clone())
    })));

    conductor
        .add_component(
            JoinMetadata::at_start(WORLD_LEVEL)
                .with_timing(StepTiming::timeout(wall_ms(1), OnTimeout::Remove)),
            slow_ticker(&wall, "slow", slow(), &steps),
        )
        .expect("registration succeeds");
    conductor
        .add_component(
            WORLD_LEVEL.into(),
            slow_ticker(&wall, "neighbour", WallDuration::zero(), &steps),
        )
        .expect("registration succeeds");
    conductor
        .run_until(t_sim_ms(30))
        .expect("the run continues");

    assert_eq!(
        steps_of(&steps, "slow"),
        vec![SimTime::zero()],
        "it kept the tick it timed out in, and took no part in any after it"
    );
    assert_eq!(
        steps_of(&steps, "neighbour"),
        vec![SimTime::zero(), t_sim_ms(10), t_sim_ms(20), t_sim_ms(30)],
        "losing a component is not the world stopping"
    );

    // It goes out as an ordinary leave, the same event a scheduled departure
    // emits.
    let changes = changes.borrow();
    let leaves: Vec<&RecordedLeave> = changes
        .iter()
        .filter_map(|change| match change {
            MembershipChange::Left(leave) => Some(leave),
            MembershipChange::Joined(_) => None,
        })
        .collect();
    assert_eq!(leaves.len(), 1);
    assert_eq!(leaves[0].path, "slow");
    assert_eq!(
        leaves[0].leaves_at,
        SimTime::zero() + SimDuration::from_nanos(1),
        "half-open at the earliest instant still open when it timed out: \
         the instant it overran is the last it took part in"
    );
}

#[test]
fn a_step_past_both_levels_is_counted_before_the_run_halts() {
    let steps: StepLog = Default::default();
    let (mut conductor, wall) = timed_world("timing-test");
    conductor
        .add_component(
            JoinMetadata::at_start(WORLD_LEVEL).with_timing(
                StepTiming::budget(wall_ms(1)).with_timeout(wall_ms(5), OnTimeout::Halt),
            ),
            slow_ticker(&wall, "slow", slow(), &steps),
        )
        .expect("registration succeeds");

    assert!(matches!(
        conductor.run_until(t_sim_ms(10)),
        Err(ConductorError::StepTimeout { .. })
    ));
    assert_eq!(
        conductor.budget_misses(&path("slow")),
        Some(1),
        "the 20 ms step passed the 1 ms budget as well as the 5 ms timeout"
    );
}

/// A world of one budgeted 10 ms ticker whose steps cost `step_cost`, run to
/// 20 ms with every observation point tapped, returning the recorded log.
fn record_a_run_costing(step_cost: WallDuration) -> EventLog {
    let steps: StepLog = Default::default();
    let recorder = shared(Recorder::new(&config("timing-test", 0)));
    let mut bench = Bench::default();
    tap_recorder_fully(&mut bench, &recorder);
    let wall = bench.wall.clone();
    let mut conductor = world_with(config("timing-test", 0), bench);
    conductor
        .add_component(
            JoinMetadata::at_start(WORLD_LEVEL).with_timing(StepTiming::budget(wall_ms(1))),
            slow_ticker(&wall, "slow", step_cost, &steps),
        )
        .expect("registration succeeds");
    conductor.run_until(t_sim_ms(20)).expect("steps succeed");
    let log = recorder.borrow().finish();
    log
}

fn budget_misses_in(log: &EventLog) -> Vec<&RecordedBudgetMiss> {
    log.events
        .iter()
        .filter_map(|event| match event {
            LogEvent::Observed(RecordedObservation::BudgetMissed(miss)) => Some(miss),
            _ => None,
        })
        .collect()
}

fn timeouts_in(log: &EventLog) -> Vec<&RecordedTimeout> {
    log.events
        .iter()
        .filter_map(|event| match event {
            LogEvent::Observed(RecordedObservation::TimedOut(timeout)) => Some(timeout),
            _ => None,
        })
        .collect()
}

#[test]
fn the_log_records_which_steps_missed_their_budget() {
    let log = record_a_run_costing(slow());
    let misses = budget_misses_in(&log);

    assert_eq!(misses.len(), 3, "steps at 0, 10 and 20 ms, all over budget");
    assert_eq!(misses[0].path, "slow");
    assert_eq!(misses[0].sim_time, SimTime::zero());
    assert!(
        misses[0].step.as_nanos() > misses[0].budget.as_nanos(),
        "a miss carries both numbers, so the log says by how much"
    );
    assert_eq!(
        (misses[0].step, misses[0].budget),
        (wall_ms(20), wall_ms(1))
    );
}

#[test]
fn a_re_run_that_misses_different_budgets_still_verifies() {
    let recorded = record_a_run_costing(slow());
    let observations = budget_misses_in(&recorded).len();
    let lines = recorded.events.len();
    assert_eq!(observations, 3);

    // Re-run live, fast enough to miss nothing, checking against that log.
    // The verifier has nothing to compare a miss against, and skips the
    // recorded ones as it walks the log.
    let steps: StepLog = Default::default();
    let verifier = shared(Verifier::new(recorded, &config("timing-test", 0)));
    let mut bench = Bench::default();
    tap_verifier(&mut bench, &verifier, true);
    let wall = bench.wall.clone();
    let mut conductor = world_with(config("timing-test", 0), bench);
    conductor
        .add_component(
            JoinMetadata::at_start(WORLD_LEVEL).with_timing(StepTiming::budget(wall_ms(1))),
            slow_ticker(&wall, "slow", WallDuration::zero(), &steps),
        )
        .expect("registration succeeds");
    conductor.run_until(t_sim_ms(20)).expect("steps succeed");

    let verified = verifier
        .borrow()
        .finish()
        .expect("the run is the same run; only the machine differed");
    assert_eq!(
        verified,
        lines - observations,
        "the verdict counts expectations matched, not log lines walked past"
    );
}

#[test]
fn comparing_two_logs_ignores_their_budget_misses_too() {
    // The same rule on the other reader: log against log, not live.
    let slow = record_a_run_costing(slow());
    let quick = record_a_run_costing(WallDuration::zero());
    assert_eq!(budget_misses_in(&quick).len(), 0);

    assert_eq!(
        slow.first_divergence(&quick),
        None,
        "one log carries three misses and the other none, and they are \
         still recordings of the same run"
    );
}

#[test]
fn the_log_says_why_a_timed_out_component_left() {
    let steps: StepLog = Default::default();
    let recorder = shared(Recorder::new(&config("timing-test", 0)));
    let mut bench = Bench::default();
    tap_recorder_fully(&mut bench, &recorder);
    let wall = bench.wall.clone();
    let mut conductor = world_with(config("timing-test", 0), bench);
    conductor
        .add_component(
            JoinMetadata::at_start(WORLD_LEVEL)
                .with_timing(StepTiming::timeout(wall_ms(5), OnTimeout::Remove)),
            slow_ticker(&wall, "slow", slow(), &steps),
        )
        .expect("registration succeeds");
    conductor
        .add_component(
            WORLD_LEVEL.into(),
            slow_ticker(&wall, "neighbour", WallDuration::zero(), &steps),
        )
        .expect("registration succeeds");
    conductor
        .run_until(t_sim_ms(20))
        .expect("the run continues");
    let log = recorder.borrow().finish();

    let timeouts = timeouts_in(&log);
    assert_eq!(timeouts.len(), 1);
    assert_eq!(timeouts[0].path, "slow");
    assert_eq!(timeouts[0].sim_time, SimTime::zero());
    assert_eq!(timeouts[0].policy, OnTimeout::Remove, "and what it cost it");
    assert!(timeouts[0].waited.as_nanos() > timeouts[0].timeout.as_nanos());

    // The leave is recorded too, and carries nothing about the cause.
    let leaves = log
        .events
        .iter()
        .filter(|event| matches!(event, LogEvent::Leave(leave) if leave.path == "slow"))
        .count();
    assert_eq!(leaves, 1, "an ordinary leave, at the next instant");
}

#[test]
fn a_budget_that_the_timeout_would_always_beat_is_rejected() {
    let steps: StepLog = Default::default();
    let (mut conductor, wall) = timed_world("timing-test");

    // Above the timeout, so every step slow enough to miss the budget has
    // already timed out.
    assert!(matches!(
        conductor.add_component(
            JoinMetadata::at_start(WORLD_LEVEL).with_timing(
                StepTiming::budget(wall_ms(50)).with_timeout(wall_ms(10), OnTimeout::Halt)
            ),
            slow_ticker(&wall, "misdeclared", WallDuration::zero(), &steps),
        ),
        Err(ConductorError::UnreachableStepBudget { .. })
    ));
    // A rejected join leaves nothing behind, timing or otherwise.
    assert_eq!(conductor.budget_misses(&path("misdeclared")), None);

    // The same two limits the right way round are fine.
    conductor
        .add_component(
            JoinMetadata::at_start(WORLD_LEVEL).with_timing(
                StepTiming::budget(wall_ms(10)).with_timeout(wall_ms(50), OnTimeout::Halt),
            ),
            slow_ticker(&wall, "declared", WallDuration::zero(), &steps),
        )
        .expect("a budget below its timeout can report");
}

// ---------------------------------------------------------------------------
// Membership
// ---------------------------------------------------------------------------

fn membership_config() -> ConductorConfig {
    config("membership-test", 0)
}

fn membership_world() -> World {
    world_with(membership_config(), Bench::default())
}

/// Two 10 ms tickers; `a` leaves after the t=10 ms instant.
fn run_with_departure(steps: &StepLog) -> World {
    let mut conductor = membership_world();
    for id in ["a", "b"] {
        conductor
            .add_component_at_start(WORLD_LEVEL, ticker(id, steps))
            .expect("registration succeeds");
    }

    conductor.run_until(t_sim_ms(10)).expect("steps succeed");
    conductor
        .remove_component_now("a")
        .expect("`a` is registered");
    conductor.run_until(t_sim_ms(30)).expect("steps succeed");
    conductor
}

#[test]
fn a_departed_component_stops_stepping_while_the_rest_carry_on() {
    let steps: StepLog = Default::default();
    run_with_departure(&steps);

    assert_eq!(
        steps_of(&steps, "a"),
        vec![t_sim_ms(0), t_sim_ms(10)],
        "`a` stepped up to its departure and never again"
    );
    assert_eq!(
        steps_of(&steps, "b"),
        vec![t_sim_ms(0), t_sim_ms(10), t_sim_ms(20), t_sim_ms(30)],
        "`b` is unaffected by its neighbour leaving"
    );
}

#[test]
fn the_same_departure_reproduces_the_same_world_hash() {
    let first = run_with_departure(&Default::default()).world_hash();
    let second = run_with_departure(&Default::default()).world_hash();
    assert_eq!(first, second);
}

#[test]
fn removing_a_path_nobody_is_registered_at_is_an_error() {
    let mut conductor = membership_world();
    assert!(matches!(
        conductor.remove_component_now("nobody"),
        Err(ConductorError::UnknownPath(_))
    ));
}

#[test]
fn a_component_admitted_mid_run_first_steps_at_its_declared_time() {
    let steps: StepLog = Default::default();
    let mut conductor = membership_world();
    conductor
        .add_component_at_start(WORLD_LEVEL, ticker("a", &steps))
        .expect("registration succeeds");
    conductor.run_until(t_sim_ms(10)).expect("steps succeed");

    conductor
        .add_component(
            JoinMetadata::at(WORLD_LEVEL, t_sim_ms(25)),
            ticker("b", &steps),
        )
        .expect("25 ms is still ahead");
    conductor.run_until(t_sim_ms(40)).expect("steps succeed");

    assert_eq!(
        steps_of(&steps, "b"),
        vec![t_sim_ms(25), t_sim_ms(35)],
        "the newcomer starts at the instant it asked for, not at zero and \
         not at the next instant that happened to come along"
    );
    assert_eq!(
        steps_of(&steps, "a"),
        vec![
            t_sim_ms(0),
            t_sim_ms(10),
            t_sim_ms(20),
            t_sim_ms(30),
            t_sim_ms(40)
        ],
        "the incumbent's own cadence is undisturbed"
    );
}

#[test]
fn a_joining_component_is_counted_due_before_its_instant_arrives() {
    let steps: StepLog = Default::default();
    let mut conductor = membership_world();
    conductor
        .add_component_at_start(WORLD_LEVEL, ticker("a", &steps))
        .expect("registration succeeds");
    conductor.run_until(t_sim_ms(10)).expect("steps succeed");
    assert_eq!(
        conductor.next_due_instant(),
        Some(t_sim_ms(20)),
        "only `a` is due, at its next period"
    );

    conductor
        .add_component(
            JoinMetadata::at(WORLD_LEVEL, t_sim_ms(15)),
            ticker("b", &steps),
        )
        .expect("15 ms is still ahead");

    assert_eq!(
        conductor.next_due_instant(),
        Some(t_sim_ms(15)),
        "a join waiting for 15 ms is an instant the run has to reach, so it \
         is now the earliest thing due"
    );
}

#[test]
fn joining_an_instant_that_has_already_happened_is_an_error() {
    let steps: StepLog = Default::default();
    let mut conductor = membership_world();
    conductor
        .add_component_at_start(WORLD_LEVEL, ticker("a", &steps))
        .expect("registration succeeds");
    conductor.run_until(t_sim_ms(10)).expect("steps succeed");

    // Well behind the run.
    assert!(matches!(
        conductor.add_component(
            JoinMetadata::at(WORLD_LEVEL, t_sim_ms(5)),
            ticker("late", &steps)
        ),
        Err(ConductorError::JoinInThePast { .. })
    ));
    // And the instant just stepped is closed too: joining it would step
    // t=10 ms a second time.
    assert!(matches!(
        conductor.add_component(
            JoinMetadata::at(WORLD_LEVEL, t_sim_ms(10)),
            ticker("late", &steps)
        ),
        Err(ConductorError::JoinInThePast { .. })
    ));
    // One nanosecond later is open.
    conductor
        .add_component(
            JoinMetadata::at(WORLD_LEVEL, t_sim_ms(10) + SimDuration::from_nanos(1)),
            ticker("just_in_time", &steps),
        )
        .expect("the next instant has not happened yet");

    // A rejected join leaves nothing behind: `late` was never registered.
    assert!(matches!(
        conductor.remove_component_now("late"),
        Err(ConductorError::UnknownPath(_))
    ));
}

#[test]
fn adding_at_the_start_only_works_before_the_run_starts() {
    let steps: StepLog = Default::default();
    let mut conductor = membership_world();

    // Before anything has stepped this lands on the world's opening instant.
    conductor
        .add_component_at_start(WORLD_LEVEL, ticker("a", &steps))
        .expect("nothing has stepped yet");
    conductor.run_until(t_sim_ms(10)).expect("steps succeed");

    // Sim time zero has passed once the run is under way.
    assert!(matches!(
        conductor.add_component_at_start(WORLD_LEVEL, ticker("b", &steps)),
        Err(ConductorError::JoinInThePast { .. })
    ));
}

/// Adds `a`, has `b` join at 25 ms and `a` leave at 30 ms.
fn drive_the_dynamic_run(conductor: &mut World, steps: &StepLog) {
    conductor
        .add_component_at_start(WORLD_LEVEL, ticker("a", steps))
        .expect("registration succeeds");
    conductor.run_until(t_sim_ms(10)).expect("steps succeed");
    conductor
        .add_component(
            JoinMetadata::at(WORLD_LEVEL, t_sim_ms(25)),
            ticker("b", steps),
        )
        .expect("25 ms is still ahead");
    conductor.run_until(t_sim_ms(30)).expect("steps succeed");
    conductor
        .remove_component_now("a")
        .expect("`a` is registered");
    conductor.run_until(t_sim_ms(50)).expect("steps succeed");
}

/// Runs a world where `b` joins at 25 ms and `a` leaves at 30 ms, with every
/// observation point tapped, and returns the recorded log.
fn record_a_dynamic_run(config: &ConductorConfig) -> EventLog {
    let steps: StepLog = Default::default();
    let recorder = shared(Recorder::new(config));
    let mut bench = Bench::default();
    tap_recorder_fully(&mut bench, &recorder);
    let mut conductor = world_with(config.clone(), bench);
    drive_the_dynamic_run(&mut conductor, &steps);
    let log = recorder.borrow().finish();
    log
}

#[test]
fn the_event_log_records_who_joined_and_left() {
    let log = record_a_dynamic_run(&membership_config());

    let joins: Vec<&RecordedJoin> = log
        .events
        .iter()
        .filter_map(|e| match e {
            LogEvent::Join(join) => Some(join),
            _ => None,
        })
        .collect();
    let leaves: Vec<&RecordedLeave> = log
        .events
        .iter()
        .filter_map(|e| match e {
            LogEvent::Leave(leave) => Some(leave),
            _ => None,
        })
        .collect();

    assert_eq!(joins.len(), 2, "`a` at the start and `b` mid-run");
    assert_eq!(joins[0].path, "a");
    assert_eq!(joins[0].first_due, SimTime::zero());
    assert_eq!(joins[1].path, "b");
    assert_eq!(
        joins[1].first_due,
        t_sim_ms(25),
        "what the log keeps is the declared first step, not when the join \
         happened to be asked for"
    );

    assert_eq!(leaves.len(), 1);
    assert_eq!(leaves[0].path, "a");
}

#[test]
fn a_join_is_recorded_where_it_takes_effect_not_where_it_was_requested() {
    let log = record_a_dynamic_run(&membership_config());

    let requested_at = log
        .events
        .iter()
        .position(|e| {
            matches!(
                e,
                LogEvent::Observed(RecordedObservation::JoinRequested(request))
                    if request.path == "b"
            )
        })
        .expect("`b`'s join was requested");
    let joined_at = log
        .events
        .iter()
        .position(|e| matches!(e, LogEvent::Join(join) if join.path == "b"))
        .expect("`b` joined");
    let ticks_before = |index: usize| {
        log.events[..index]
            .iter()
            .filter(|e| matches!(e, LogEvent::Tick(_)))
            .count()
    };

    // The request sits after the ticks at 0 and 10 ms, where the caller made
    // it. The join sits after the 20 ms tick as well.
    assert_eq!(
        ticks_before(requested_at),
        2,
        "where the request was processed"
    );
    assert_eq!(ticks_before(joined_at), 3, "where the join took effect");
}

#[test]
fn a_component_removed_before_its_join_takes_effect_is_never_announced() {
    let steps: StepLog = Default::default();
    let recorder = shared(Recorder::new(&membership_config()));
    let mut bench = Bench::default();
    tap_recorder_fully(&mut bench, &recorder);
    let mut conductor = world_with(membership_config(), bench);

    conductor
        .add_component_at_start(WORLD_LEVEL, ticker("a", &steps))
        .expect("registration succeeds");
    conductor.run_until(t_sim_ms(10)).expect("steps succeed");
    conductor
        .add_component(
            JoinMetadata::at(WORLD_LEVEL, t_sim_ms(25)),
            ticker("b", &steps),
        )
        .expect("25 ms is still ahead");
    conductor
        .remove_component_now("b")
        .expect("`b` is registered");
    conductor.run_until(t_sim_ms(50)).expect("steps succeed");
    let log = recorder.borrow().finish();

    let mentions_b = |event: &LogEvent| match event {
        LogEvent::Join(join) => join.path == "b",
        LogEvent::Leave(leave) => leave.path == "b",
        _ => false,
    };
    assert!(
        !log.events.iter().any(mentions_b),
        "`b` never took effect, so neither half of its membership is recorded"
    );
    assert!(
        log.events.iter().any(|e| matches!(
            e,
            LogEvent::Observed(RecordedObservation::JoinRequested(request))
                if request.path == "b"
        )),
        "the join was still asked for"
    );
    assert!(
        log.events.iter().any(|e| matches!(
            e,
            LogEvent::Observed(RecordedObservation::LeaveRequested(request))
                if request.path == "b" && request.leaves_at.is_none()
        )),
        "and so was the withdrawal, naming no instant"
    );
    assert!(
        !steps.borrow().iter().any(|(path, _)| path == "b"),
        "`b` never stepped either"
    );
}

#[test]
fn a_recorded_dynamic_run_verifies_against_a_faithful_re_run() {
    let expected = record_a_dynamic_run(&membership_config());
    // Expectations rather than lines: the log also carries the membership
    // requests, and a re-run is not asked to reproduce those.
    let total_expectations = expected
        .events
        .iter()
        .filter(|event| !matches!(event, LogEvent::Observed(_)))
        .count();
    assert!(
        total_expectations < expected.events.len(),
        "the log has observations in it, or this proves nothing"
    );

    // Re-run the same scenario live, checking every event as it happens.
    let steps: StepLog = Default::default();
    let verifier = shared(Verifier::new(expected, &membership_config()));
    let mut bench = Bench::default();
    tap_verifier(&mut bench, &verifier, true);
    let mut conductor = world_with(membership_config(), bench);
    drive_the_dynamic_run(&mut conductor, &steps);

    assert_eq!(
        verifier.borrow().finish().expect("the re-run matches"),
        total_expectations
    );
}

#[test]
fn a_re_run_that_skips_a_departure_is_caught() {
    let expected = record_a_dynamic_run(&membership_config());

    // Same world, same join, but `a` never leaves.
    let steps: StepLog = Default::default();
    let verifier = shared(Verifier::new(expected, &membership_config()));
    let mut bench = Bench::default();
    tap_verifier(&mut bench, &verifier, true);
    let mut conductor = world_with(membership_config(), bench);

    conductor
        .add_component_at_start(WORLD_LEVEL, ticker("a", &steps))
        .expect("registration succeeds");
    conductor.run_until(t_sim_ms(10)).expect("steps succeed");
    conductor
        .add_component(
            JoinMetadata::at(WORLD_LEVEL, t_sim_ms(25)),
            ticker("b", &steps),
        )
        .expect("25 ms is still ahead");

    let end = t_sim_ms(50);
    while !verifier.borrow().diverged() && conductor.next_due_instant().is_some_and(|t| t <= end) {
        conductor.step_once().expect("steps succeed");
    }

    verifier
        .borrow()
        .finish()
        .expect_err("a world that kept a departed component must diverge");
}

#[test]
fn a_scheduled_departure_stops_the_component_at_the_declared_instant() {
    let steps: StepLog = Default::default();
    let mut conductor = membership_world();
    for id in ["a", "b"] {
        conductor
            .add_component_at_start(WORLD_LEVEL, ticker(id, &steps))
            .expect("registration succeeds");
    }

    // Declared up front, long before it takes effect.
    conductor
        .remove_component(LeaveMetadata::at("a", t_sim_ms(30)))
        .expect("30 ms is still ahead");
    conductor.run_until(t_sim_ms(50)).expect("steps succeed");

    assert_eq!(
        steps_of(&steps, "a"),
        vec![t_sim_ms(0), t_sim_ms(10), t_sim_ms(20)],
        "half-open: `a` steps up to but not at the instant it leaves at"
    );
    assert_eq!(
        steps_of(&steps, "b"),
        vec![
            t_sim_ms(0),
            t_sim_ms(10),
            t_sim_ms(20),
            t_sim_ms(30),
            t_sim_ms(40),
            t_sim_ms(50)
        ],
    );
}

#[test]
fn a_scheduled_departure_does_not_depend_on_when_it_was_requested() {
    let run = |request_after: SimTime| {
        let steps: StepLog = Default::default();
        let mut conductor = membership_world();
        for id in ["a", "b"] {
            conductor
                .add_component_at_start(WORLD_LEVEL, ticker(id, &steps))
                .expect("registration succeeds");
        }

        conductor.run_until(request_after).expect("steps succeed");
        conductor
            .remove_component(LeaveMetadata::at("a", t_sim_ms(30)))
            .expect("30 ms is still ahead");
        conductor.run_until(t_sim_ms(50)).expect("steps succeed");
        (conductor.world_hash(), steps_of(&steps, "a"))
    };

    let asked_at_the_start = run(SimTime::zero());
    let asked_just_in_time = run(t_sim_ms(20));
    assert_eq!(asked_at_the_start, asked_just_in_time);
    assert_eq!(
        asked_at_the_start.1,
        vec![t_sim_ms(0), t_sim_ms(10), t_sim_ms(20)]
    );
}

#[test]
fn an_instant_left_empty_by_a_leave_produces_no_tick_at_all() {
    let steps: StepLog = Default::default();
    let mut conductor = membership_world();
    conductor
        .add_component_at_start(WORLD_LEVEL, ticker("a", &steps))
        .expect("registration succeeds");
    conductor
        .add_component_at_start(
            WORLD_LEVEL,
            boxed(Ticker {
                id: "b",
                period: dur_ms(30),
                steps: steps.clone(),
            }),
        )
        .expect("registration succeeds");

    conductor
        .remove_component(LeaveMetadata::at("a", t_sim_ms(20)))
        .expect("20 ms is still ahead");
    conductor.run_until(t_sim_ms(30)).expect("steps succeed");

    assert_eq!(steps_of(&steps, "a"), vec![t_sim_ms(0), t_sim_ms(10)]);
    assert_eq!(steps_of(&steps, "b"), vec![t_sim_ms(0), t_sim_ms(30)]);
    assert_eq!(
        conductor.tick(),
        3,
        "instants 0, 10 and 30 ticked; 20 held only the departing component \
         and never became a tick"
    );
}

#[test]
fn a_departure_scheduled_for_an_instant_that_has_passed_is_an_error() {
    let steps: StepLog = Default::default();
    let mut conductor = membership_world();
    conductor
        .add_component_at_start(WORLD_LEVEL, ticker("a", &steps))
        .expect("registration succeeds");
    conductor.run_until(t_sim_ms(20)).expect("steps succeed");

    // `a` has already stepped at 10 ms, so it cannot retroactively have
    // stopped there.
    assert!(matches!(
        conductor.remove_component(LeaveMetadata::at("a", t_sim_ms(10))),
        Err(ConductorError::LeaveInThePast { .. })
    ));
    // And a departure for a component nobody registered is unknown, whatever
    // instant it names.
    assert!(matches!(
        conductor.remove_component(LeaveMetadata::at("nobody", t_sim_ms(30))),
        Err(ConductorError::UnknownPath(_))
    ));
}

#[test]
fn a_scheduled_departure_is_recorded_with_the_instant_it_takes_effect() {
    let steps: StepLog = Default::default();
    let recorder = shared(Recorder::new(&membership_config()));
    let mut bench = Bench::default();
    let tap = recorder.clone();
    bench
        .on_membership
        .push(Box::new(move |c| tap.borrow_mut().membership_callback(c)));
    let mut conductor = world_with(membership_config(), bench);

    conductor
        .add_component_at_start(WORLD_LEVEL, ticker("a", &steps))
        .expect("registration succeeds");
    conductor
        .remove_component(LeaveMetadata::at("a", t_sim_ms(30)))
        .expect("30 ms is still ahead");
    conductor.run_until(t_sim_ms(50)).expect("steps succeed");

    let log = recorder.borrow().finish();
    let leaves: Vec<&RecordedLeave> = log
        .events
        .iter()
        .filter_map(|e| match e {
            LogEvent::Leave(leave) => Some(leave),
            _ => None,
        })
        .collect();

    assert_eq!(leaves.len(), 1);
    assert_eq!(leaves[0].path, "a");
    assert_eq!(
        leaves[0].leaves_at,
        t_sim_ms(30),
        "the log keeps the declared instant, which is what shapes the run"
    );
}

#[test]
fn the_same_mid_run_join_reproduces_the_same_world_hash() {
    let run = || {
        let steps: StepLog = Default::default();
        let mut conductor = membership_world();
        conductor
            .add_component_at_start(WORLD_LEVEL, ticker("a", &steps))
            .expect("registration succeeds");
        conductor.run_until(t_sim_ms(10)).expect("steps succeed");
        conductor
            .add_component(
                JoinMetadata::at(WORLD_LEVEL, t_sim_ms(25)),
                ticker("b", &steps),
            )
            .expect("25 ms is still ahead");
        conductor.run_until(t_sim_ms(40)).expect("steps succeed");
        conductor.world_hash()
    };
    assert_eq!(run(), run());
}

#[test]
fn removing_a_composite_takes_every_leaf_under_it() {
    let steps: StepLog = Default::default();
    let changes: Shared<Vec<MembershipChange>> = Default::default();
    let mut conductor = membership_world();
    let announced = changes.clone();
    conductor.add_membership_callback(Watch::Membership(Box::new(move |change| {
        announced.borrow_mut().push(change.clone())
    })));

    for id in ["controller", "physics"] {
        conductor
            .add_component_at_start("car1", ticker(id, &steps))
            .expect("registration succeeds");
    }
    conductor
        .add_component_at_start(WORLD_LEVEL, ticker("bystander", &steps))
        .expect("registration succeeds");
    conductor.run_until(t_sim_ms(10)).expect("steps succeed");

    conductor
        .remove_component_now("car1")
        .expect("`car1` names a composite");
    conductor.run_until(t_sim_ms(30)).expect("steps succeed");

    assert_eq!(
        steps_of(&steps, "controller"),
        vec![t_sim_ms(0), t_sim_ms(10)]
    );
    assert_eq!(steps_of(&steps, "physics"), vec![t_sim_ms(0), t_sim_ms(10)]);
    assert_eq!(
        steps_of(&steps, "bystander"),
        vec![t_sim_ms(0), t_sim_ms(10), t_sim_ms(20), t_sim_ms(30)],
        "another actor is untouched by car1 leaving"
    );

    // One leave per leaf, never one for the composite, and in the order the
    // components would have stepped.
    let changes = changes.borrow();
    let left: Vec<&str> = changes
        .iter()
        .filter_map(|change| match change {
            MembershipChange::Left(leave) => Some(leave.path.as_str()),
            MembershipChange::Joined(_) => None,
        })
        .collect();
    assert_eq!(left, vec!["car1/controller", "car1/physics"]);
}

#[test]
fn removing_a_composite_is_one_request_against_a_leave_each() {
    let steps: StepLog = Default::default();
    let observations: Shared<Vec<RecordedObservation>> = Default::default();
    let mut conductor = membership_world();
    let observed = observations.clone();
    conductor.add_observation_callback(Watch::Observation(Box::new(move |observation| {
        observed.borrow_mut().push(observation.clone())
    })));

    for id in ["controller", "physics"] {
        conductor
            .add_component_at_start("car1", ticker(id, &steps))
            .expect("registration succeeds");
    }
    conductor.run_until(t_sim_ms(10)).expect("steps succeed");
    conductor
        .remove_component(LeaveMetadata::at("car1", t_sim_ms(20)))
        .expect("20 ms is still ahead");
    conductor.run_until(t_sim_ms(30)).expect("steps succeed");

    let observations = observations.borrow();
    let requested: Vec<(&str, Option<SimTime>)> = observations
        .iter()
        .filter_map(|observation| match observation {
            RecordedObservation::LeaveRequested(request) => {
                Some((request.path.as_str(), request.leaves_at))
            }
            _ => None,
        })
        .collect();
    assert_eq!(
        requested,
        vec![("car1", Some(t_sim_ms(20)))],
        "one request, naming the composite and the instant it asked for"
    );
}

#[test]
fn a_composite_leave_can_be_scheduled_like_any_other() {
    let steps: StepLog = Default::default();
    let mut conductor = membership_world();
    for id in ["controller", "physics"] {
        conductor
            .add_component_at_start("car1", ticker(id, &steps))
            .expect("registration succeeds");
    }
    conductor
        .add_component_at_start(WORLD_LEVEL, ticker("bystander", &steps))
        .expect("registration succeeds");

    conductor
        .remove_component(LeaveMetadata::at("car1", t_sim_ms(20)))
        .expect("20 ms is still ahead");
    conductor.run_until(t_sim_ms(30)).expect("steps succeed");

    for id in ["controller", "physics"] {
        assert_eq!(
            steps_of(&steps, id),
            vec![t_sim_ms(0), t_sim_ms(10)],
            "half-open at 20 ms, for every leaf of the composite"
        );
    }
}

#[test]
fn a_path_naming_neither_a_leaf_nor_a_composite_is_an_error() {
    let steps: StepLog = Default::default();
    let mut conductor = membership_world();
    conductor
        .add_component_at_start("car1", ticker("physics", &steps))
        .expect("registration succeeds");

    assert!(matches!(
        conductor.remove_component_now("car2"),
        Err(ConductorError::UnknownPath(_))
    ));
    // And an emptied composite stops naming anything, rather than becoming a
    // path that silently removes nothing.
    conductor
        .remove_component_now("car1")
        .expect("car1 has a leaf");
    assert!(matches!(
        conductor.remove_component_now("car1"),
        Err(ConductorError::UnknownPath(_))
    ));
}

#[test]
fn an_emptied_composite_rejoins_as_the_newest_sibling() {
    let steps: StepLog = Default::default();
    let mut conductor = membership_world();
    conductor
        .add_component_at_start("car1", ticker("physics", &steps))
        .expect("registration succeeds");
    conductor
        .add_component_at_start("car2", ticker("physics", &steps))
        .expect("registration succeeds");

    conductor
        .remove_component_now("car1")
        .expect("car1 is live");
    conductor
        .add_component_at_start("car1", ticker("physics", &steps))
        .expect("the path is free again");

    conductor.run_until(t_sim_ms(10)).expect("steps succeed");
    assert_eq!(
        steps_of(&steps, "physics").len(),
        4,
        "two live cars, two instants each"
    );
}

/// Taps the conductor's membership changes, returning the log they fill:
/// every change announced, in order, as `(path, kind)`.
fn record_membership_changes(conductor: &mut World) -> Shared<Vec<(String, &'static str)>> {
    let changes: Shared<Vec<(String, &'static str)>> = Default::default();
    let announced = changes.clone();
    conductor.add_membership_callback(Watch::Membership(Box::new(move |change| {
        let (path, kind) = match change {
            MembershipChange::Joined(join) => (join.path.clone(), "joined"),
            MembershipChange::Left(leave) => (leave.path.clone(), "left"),
        };
        announced.borrow_mut().push((path, kind));
    })));
    changes
}

#[test]
fn a_leave_retires_the_component_at_a_path_rather_than_the_join_waiting_for_it() {
    let steps: StepLog = Default::default();
    let mut conductor = membership_world();
    let announced = record_membership_changes(&mut conductor);
    conductor
        .add_component_at_start(WORLD_LEVEL, ticker("a", &steps))
        .expect("registration succeeds");
    conductor.run_until(t_sim_ms(10)).expect("steps succeed");

    conductor
        .add_component(
            JoinMetadata::at(WORLD_LEVEL, t_sim_ms(25)),
            ticker("a", &steps),
        )
        .expect("25 ms is still ahead");
    conductor
        .remove_component_now("a")
        .expect("`a` is registered");
    conductor.run_until(t_sim_ms(50)).expect("steps succeed");

    assert_eq!(
        steps_of(&steps, "a"),
        vec![
            t_sim_ms(0),
            t_sim_ms(10),
            t_sim_ms(25),
            t_sim_ms(35),
            t_sim_ms(45)
        ],
        "the incumbent stopped at 10 ms and the newcomer took the path at 25 ms"
    );
    assert_eq!(
        *announced.borrow(),
        vec![
            ("a".to_string(), "joined"),
            ("a".to_string(), "left"),
            ("a".to_string(), "joined"),
        ]
    );
}

#[test]
fn a_leave_and_a_join_at_one_instant_hand_the_path_over() {
    let steps: StepLog = Default::default();
    let mut conductor = membership_world();
    let announced = record_membership_changes(&mut conductor);
    conductor
        .add_component_at_start(WORLD_LEVEL, ticker("a", &steps))
        .expect("registration succeeds");
    conductor.run_until(t_sim_ms(10)).expect("steps succeed");

    conductor
        .add_component(
            JoinMetadata::at(WORLD_LEVEL, t_sim_ms(25)),
            ticker("a", &steps),
        )
        .expect("25 ms is still ahead");
    conductor
        .remove_component(LeaveMetadata::at("a", t_sim_ms(25)))
        .expect("`a` is registered");
    conductor.run_until(t_sim_ms(50)).expect("steps succeed");

    assert_eq!(
        steps_of(&steps, "a"),
        vec![
            t_sim_ms(0),
            t_sim_ms(10),
            t_sim_ms(20),
            t_sim_ms(25),
            t_sim_ms(35),
            t_sim_ms(45)
        ],
        "the incumbent stepped up to 20 ms and the newcomer from 25 ms"
    );
    assert_eq!(
        *announced.borrow(),
        vec![
            ("a".to_string(), "joined"),
            ("a".to_string(), "left"),
            ("a".to_string(), "joined"),
        ],
        "retired first, admitted second"
    );
}

#[test]
fn removing_a_composite_takes_the_newcomers_promised_to_it() {
    let steps: StepLog = Default::default();
    let mut conductor = membership_world();
    let announced = record_membership_changes(&mut conductor);
    conductor
        .add_component_at_start("car1", ticker("physics", &steps))
        .expect("registration succeeds");
    conductor.run_until(t_sim_ms(10)).expect("steps succeed");

    conductor
        .add_component(
            JoinMetadata::at("car1", t_sim_ms(25)),
            ticker("radar", &steps),
        )
        .expect("25 ms is still ahead");
    conductor
        .remove_component_now("car1")
        .expect("`car1` names a composite");
    conductor.run_until(t_sim_ms(50)).expect("steps succeed");

    assert!(
        steps_of(&steps, "radar").is_empty(),
        "the newcomer promised to `car1` never arrived"
    );
    assert_eq!(
        *announced.borrow(),
        vec![
            ("car1/physics".to_string(), "joined"),
            ("car1/physics".to_string(), "left"),
        ],
        "the waiting join was withdrawn, so neither half of it is announced"
    );
    assert!(
        matches!(
            conductor.remove_component_now("car1"),
            Err(ConductorError::UnknownPath(_))
        ),
        "nothing under `car1` is left to name"
    );
}

/// Publishes on every step, so how much a newcomer is handed at its first
/// step depends on how long it has been subscribed.
struct Talker;

impl Component for Talker {
    fn id(&self) -> ComponentId {
        ComponentId::new("talker").expect("valid id")
    }

    fn subscriptions(&self) -> Vec<KeyExpr> {
        Vec::new()
    }

    fn step(&mut self, ctx: &mut StepCtx) -> Result<SimTime, CoreError> {
        let text = ctx.now().to_canonical_string();
        put(ctx, "chatter", &text)?;
        Ok(ctx.now() + dur_ms(10))
    }
}

/// Records how many messages it was handed at each step.
struct Listener(Shared<Vec<usize>>);

impl Component for Listener {
    fn id(&self) -> ComponentId {
        ComponentId::new("listener").expect("valid id")
    }

    fn subscriptions(&self) -> Vec<KeyExpr> {
        vec![KeyExpr::new("chatter").expect("valid key")]
    }

    fn step(&mut self, ctx: &mut StepCtx) -> Result<SimTime, CoreError> {
        self.0.borrow_mut().push(ctx.inbox().len());
        Ok(ctx.now() + dur_ms(10))
    }
}

/// Runs a talker from zero and asks for a listener at `requested_at`,
/// declaring 25 ms either way.
fn run_with_a_late_joiner(requested_at: i64) -> (Vec<usize>, u64) {
    let heard: Shared<Vec<usize>> = Default::default();
    let mut conductor = membership_world();
    conductor
        .add_component_at_start(WORLD_LEVEL, boxed(Talker))
        .expect("registration succeeds");
    conductor
        .run_until(t_sim_ms(requested_at))
        .expect("steps succeed");
    conductor
        .add_component(
            JoinMetadata::at(WORLD_LEVEL, t_sim_ms(25)),
            boxed(Listener(heard.clone())),
        )
        .expect("25 ms is ahead of either request");
    conductor.run_until(t_sim_ms(60)).expect("steps succeed");
    let seen = heard.borrow().clone();
    (seen, conductor.world_hash())
}

#[test]
fn what_a_newcomer_first_sees_does_not_depend_on_when_it_was_asked_for() {
    let (asked_early, hash_early) = run_with_a_late_joiner(0);
    let (asked_late, hash_late) = run_with_a_late_joiner(20);

    assert_eq!(
        asked_early, asked_late,
        "the newcomer was handed a different first inbox for the same join"
    );
    assert_eq!(
        hash_early, hash_late,
        "the same declared join fingerprinted two ways"
    );
}

#[test]
fn a_refused_request_leaves_the_world_as_it_was() {
    let steps: StepLog = Default::default();
    let mut conductor = membership_world();
    let announced = record_membership_changes(&mut conductor);
    conductor
        .add_component_at_start(WORLD_LEVEL, ticker("a", &steps))
        .expect("registration succeeds");
    let before = (conductor.world_hash(), conductor.next_due_instant());

    assert!(matches!(
        conductor.add_component_at_start(WORLD_LEVEL, ticker("a", &steps)),
        Err(ConductorError::DuplicatePath(_))
    ));
    assert!(matches!(
        conductor.add_component_at_start("a", ticker("b", &steps)),
        Err(ConductorError::PathConflict { .. })
    ));
    assert!(matches!(
        conductor.add_component_at_start("a//b", ticker("b", &steps)),
        Err(ConductorError::Core(CoreError::InvalidComponentId(_)))
    ));
    assert!(matches!(
        conductor.remove_component_now("*"),
        Err(ConductorError::Core(CoreError::InvalidComponentId(_)))
    ));

    assert_eq!(
        (conductor.world_hash(), conductor.next_due_instant()),
        before
    );
    assert_eq!(announced.borrow().len(), 1, "only `a` was ever announced");
}

// ---------------------------------------------------------------------------
// Traffic requests
// ---------------------------------------------------------------------------

/// Publishes one request the handler cannot decode, on a key it does read.
struct Saboteur {
    fired: bool,
}

impl Component for Saboteur {
    fn id(&self) -> ComponentId {
        ComponentId::new("saboteur").expect("valid id")
    }

    fn subscriptions(&self) -> Vec<KeyExpr> {
        Vec::new()
    }

    fn step(&mut self, ctx: &mut StepCtx) -> Result<SimTime, CoreError> {
        if !self.fired {
            self.fired = true;
            let key = traffic_spawn_key(ctx.world_name());
            // Valid JSON on the right key, in the wrong shape.
            put(ctx, key.as_str(), &"not a request")?;
        }
        Ok(ctx.now() + SimDuration::from_millis(100))
    }
}

/// Asks for one car at the start and for it to go a second later.
struct Spawner {
    steps: u32,
}

impl Component for Spawner {
    fn id(&self) -> ComponentId {
        ComponentId::new("traffic_spawner").expect("valid id")
    }

    fn subscriptions(&self) -> Vec<KeyExpr> {
        Vec::new()
    }

    fn step(&mut self, ctx: &mut StepCtx) -> Result<SimTime, CoreError> {
        let mut request = serde_json::Map::new();
        let name = serde_json::Value::from("traffic0");
        request.insert("actor_name".to_string(), name);
        if self.steps == 0 {
            let first_due = ctx.now() + SimDuration::from_millis(100);
            request.insert(
                "first_due".to_string(),
                serde_json::Value::from(first_due.to_canonical_string()),
            );
            let key = traffic_spawn_key(ctx.world_name());
            put(ctx, key.as_str(), &request)?;
        }
        if self.steps == 10 {
            let key = traffic_despawn_key(ctx.world_name());
            put(ctx, key.as_str(), &request)?;
        }
        self.steps += 1;
        Ok(ctx.now() + SimDuration::from_millis(100))
    }
}

/// Reads a request out of a payload.
fn request_of(handler: &TrafficRequestHandler, message: &Message) -> Result<Request, String> {
    let value: serde_json::Value =
        serde_json::from_slice(&message.payload).map_err(|error| error.to_string())?;
    let actor_name = value
        .get("actor_name")
        .and_then(|name| name.as_str())
        .ok_or_else(|| "missing field `actor_name`".to_string())?
        .to_string();
    match handler.kind_of(message) {
        Some(traffic_world::RequestKind::Despawn) => {
            Ok(Request::Despawn(DespawnTrafficRequest { actor_name }))
        }
        _ => Ok(Request::Spawn(SpawnTrafficRequest {
            actor_name,
            lane_offset: continuo::actors::FloatBits(0),
            speed: continuo::actors::FloatBits(20.0f64.to_bits()),
            start_s: continuo::actors::FloatBits(0),
            first_due: value
                .get("first_due")
                .and_then(|due| due.as_str())
                .and_then(|due| due.parse().ok())
                .ok_or_else(|| "missing field `first_due`".to_string())?,
        })),
    }
}

/// Builds cars out of tickers.
struct TickerCars {
    steps: StepLog,
}

impl CarBuilder<Boxed> for TickerCars {
    fn controller(&self, _request: &SpawnTrafficRequest) -> Boxed {
        ticker("controller", &self.steps)
    }

    fn physics(&self, _request: &SpawnTrafficRequest) -> Boxed {
        ticker("physics", &self.steps)
    }
}

impl SceneBuilder<Boxed> for TickerCars {
    fn spawner(&self) -> Boxed {
        boxed(Spawner { steps: 0 })
    }

    fn logger(&self) -> Boxed {
        ticker("pose_logger", &self.steps)
    }

    fn double(&self, double: PlaybackComponent) -> Boxed {
        boxed(double)
    }

    fn scale_floats(&self, slot: &ScaleSlot, _lanes: usize) -> ScaleFloats {
        ScaleFloats {
            lane_offset: continuo::actors::FloatBits(slot.lane as u64),
            speed: continuo::actors::FloatBits(slot.speed_step as u64),
            start_s: continuo::actors::FloatBits(slot.row as u64),
        }
    }
}

/// The paths that joined while a cast was set up, in order.
fn joined(setup: impl FnOnce(&mut World, &mut TickerCars)) -> Vec<String> {
    let mut conductor = world_with(traffic_world::config(), Bench::default());
    let announced = record_membership_changes(&mut conductor);
    let mut cars = TickerCars {
        steps: Default::default(),
    };
    setup(&mut conductor, &mut cars);
    let paths = announced.borrow().iter().map(|(path, _)| path.clone()).collect();
    paths
}

#[test]
fn the_live_cast_is_the_ego_the_spawner_and_the_logger() {
    let paths = joined(|conductor, cars| {
        setup_live_traffic_scenario(conductor, cars).expect("the world builds");
    });
    assert_eq!(
        paths,
        vec!["ego/controller", "ego/physics", "traffic_spawner", "pose_logger"]
    );
    assert_eq!(f64::from_bits(EGO_SPEED_BITS), 30.0);
}

#[test]
fn the_scale_cast_is_two_components_a_car() {
    let paths = joined(|conductor, cars| {
        setup_scale_scenario(conductor, cars, 3, 2).expect("the world builds");
    });
    assert_eq!(
        paths,
        vec![
            "car0/controller",
            "car0/physics",
            "car1/controller",
            "car1/physics",
            "car2/controller",
            "car2/physics"
        ]
    );
}

#[test]
fn the_playback_cast_is_the_ego_and_a_double_of_every_recorded_car() {
    let recorded = record_demo();
    let paths = joined(|conductor, cars| {
        let speed = continuo::actors::FloatBits(36.0f64.to_bits());
        let doubles = setup_playback_traffic_scenario(conductor, cars, &recorded, speed)
            .expect("the world builds");
        assert_eq!(doubles, 1);
        run_playback_traffic_scenario(conductor, SimTime::from_secs(1)).expect("it plays");
        assert_eq!(conductor.sim_time(), SimTime::from_secs(1));
    });
    assert_eq!(
        paths,
        vec!["ego/controller", "ego/physics", "traffic0", "pose_logger"]
    );
}

#[test]
fn a_refused_part_ends_the_casting() {
    let paths = joined(|conductor, cars| {
        setup_live_traffic_scenario(conductor, cars).expect("the world builds");
        let again = setup_live_traffic_scenario(conductor, cars);
        assert!(matches!(again, Err(ConductorError::DuplicatePath(_))));
    });
    assert_eq!(paths.len(), 4, "nothing joined the second time");
}

/// A bench whose messages reach a request handler.
fn bench_with(handler: &Shared<TrafficRequestHandler>) -> Bench {
    let mut bench = Bench::default();
    let tap = handler.clone();
    bench.on_message.push(Box::new(move |message| {
        let parsed = request_of(&tap.borrow(), message);
        tap.borrow_mut().callback(message, parsed);
    }));
    bench
}

/// Builds the demo's world on a bench, with or without the saboteur.
fn demo_world(bench: Bench, sabotaged: bool) -> World {
    let mut conductor = world_with(traffic_world::config(), bench);
    conductor
        .add_component(WORLD_LEVEL.into(), boxed(Spawner { steps: 0 }))
        .expect("registration succeeds");
    if sabotaged {
        conductor
            .add_component(WORLD_LEVEL.into(), boxed(Saboteur { fired: false }))
            .expect("registration succeeds");
    }
    conductor
}

/// Runs two seconds of a demo, with or without the saboteur in the world.
fn run_demo(sabotaged: bool, steps: &StepLog) -> Result<(), ConductorError> {
    let handler = shared(TrafficRequestHandler::new(traffic_world::WORLD_NAME));
    let mut conductor = demo_world(bench_with(&handler), sabotaged);
    let mut cars = TickerCars {
        steps: steps.clone(),
    };
    let mut desk = TrafficDesk::new(DemoWatch {
        requests: Some(handler),
        compared_with: None,
    });
    let end = SimTime::from_secs(2);
    run_live_traffic_scenario(&mut conductor, &mut cars, &mut desk, end, false)
}

/// Records two seconds of the demo.
fn record_demo() -> EventLog {
    let handler = shared(TrafficRequestHandler::new(traffic_world::WORLD_NAME));
    let recorder = shared(Recorder::new(&traffic_world::config()));
    let mut bench = bench_with(&handler);
    tap_recorder_fully(&mut bench, &recorder);
    let mut conductor = demo_world(bench, false);
    let mut cars = TickerCars {
        steps: Default::default(),
    };
    let mut desk = TrafficDesk::new(DemoWatch {
        requests: Some(handler),
        compared_with: None,
    });
    let end = SimTime::from_secs(2);
    run_live_traffic_scenario(&mut conductor, &mut cars, &mut desk, end, false)
        .expect("the demo runs");
    let log = recorder.borrow().finish();
    log
}

/// Runs the demo again against a log, and returns where it ended.
fn compare_demo(expected: EventLog) -> (Shared<Verifier>, SimTime) {
    let handler = shared(TrafficRequestHandler::new(traffic_world::WORLD_NAME));
    let verifier = shared(Verifier::new(expected, &traffic_world::config()));
    let mut bench = bench_with(&handler);
    tap_verifier(&mut bench, &verifier, true);
    let mut conductor = demo_world(bench, false);
    let mut cars = TickerCars {
        steps: Default::default(),
    };
    let mut desk = TrafficDesk::new(DemoWatch {
        requests: Some(handler),
        compared_with: Some(verifier.clone()),
    });
    let end = SimTime::from_secs(2);
    run_live_traffic_scenario(&mut conductor, &mut cars, &mut desk, end, true)
        .expect("the demo runs");
    (verifier, conductor.sim_time())
}

#[test]
fn a_recorded_live_run_verifies_against_a_re_run() {
    let expected = record_demo();
    let expectations = expected
        .events
        .iter()
        .filter(|event| !matches!(event, LogEvent::Observed(_)))
        .count();
    let (verifier, ended_at) = compare_demo(expected);
    assert_eq!(
        verifier.borrow().finish().expect("the re-run matches"),
        expectations
    );
    assert_eq!(ended_at, SimTime::from_secs(2));
}

#[test]
fn a_compared_live_run_stops_where_it_diverges() {
    let mut expected = record_demo();
    let tampered = expected
        .events
        .iter()
        .position(|event| matches!(event, LogEvent::Tick(t) if t.sim_time == t_sim_ms(500)))
        .expect("500 ms ticked");
    if let LogEvent::Tick(fingerprint) = &mut expected.events[tampered] {
        fingerprint.world_hash ^= 1;
    }
    let (verifier, ended_at) = compare_demo(expected);
    let divergence = verifier.borrow().finish().expect_err("must diverge");
    assert_eq!(divergence.event_index, Some(tampered));
    assert_eq!(ended_at, t_sim_ms(500), "and no instant was stepped after it");
}

#[test]
fn a_request_that_cannot_be_read_halts_the_scenario() {
    let error = run_demo(true, &Default::default())
        .expect_err("an unreadable spawn request must stop the run");

    let message = error.to_string();
    assert!(
        message.contains("traffic_spawner/spawn"),
        "the report must name the key the request arrived on: {message}"
    );
    assert!(
        message.contains("saboteur"),
        "and the publisher, since that is who sent something unreadable: {message}"
    );
}

#[test]
fn the_same_two_seconds_run_clean_without_it() {
    let steps: StepLog = Default::default();
    run_demo(false, &steps).expect("the demo's own requests are readable");

    // The car stepped from its declared instant until it was asked to go.
    let driven = steps_of(&steps, "physics");
    assert_eq!(driven.first(), Some(&t_sim_ms(100)));
    assert_eq!(driven.last(), Some(&t_sim_ms(1000)));
    assert_eq!(driven, steps_of(&steps, "controller"));
}

#[test]
fn removing_a_car_that_is_gone_is_no_error() {
    let handler = shared(TrafficRequestHandler::new("demo"));
    let mut conductor = world_with(traffic_world::config(), bench_with(&handler));
    let steps: StepLog = Default::default();
    let mut cars = TickerCars {
        steps: steps.clone(),
    };
    let despawn = Message {
        key: traffic_despawn_key("demo"),
        publisher: path("traffic_spawner"),
        seq: 0,
        sim_time: SimTime::zero(),
        payload: Vec::new(),
    };
    let gone = DespawnTrafficRequest {
        actor_name: "traffic9".to_string(),
    };
    handler
        .borrow_mut()
        .callback(&despawn, Ok(Request::Despawn(gone)));
    handler
        .borrow_mut()
        .apply(&mut conductor, &mut cars)
        .expect("nothing to remove is nothing to report");
}

#[test]
fn a_recorded_run_names_its_traffic_in_joining_order() {
    let recorder = shared(Recorder::new(&traffic_world::config()));
    let mut bench = Bench::default();
    tap_recorder_fully(&mut bench, &recorder);
    let mut conductor = world_with(traffic_world::config(), bench);
    let steps: StepLog = Default::default();
    let mut cars = TickerCars {
        steps: steps.clone(),
    };
    conductor
        .add_component(WORLD_LEVEL.into(), ticker("pose_logger", &steps))
        .expect("registration succeeds");
    for name in ["traffic0", "ego", "traffic1"] {
        let request = SpawnTrafficRequest {
            actor_name: name.to_string(),
            lane_offset: continuo::actors::FloatBits(0),
            speed: continuo::actors::FloatBits(0),
            start_s: continuo::actors::FloatBits(0),
            first_due: SimTime::zero(),
        };
        add_car(&mut conductor, &mut cars, &request).expect("the car fits");
    }
    let log = recorder.borrow().finish();
    assert_eq!(
        recorded_traffic_actor_names(&log),
        vec!["traffic0".to_string(), "traffic1".to_string()],
        "composites other than the ego, once each"
    );
}

// ---------------------------------------------------------------------------
// One call at a time
// ---------------------------------------------------------------------------

/// Counts its steps, and queues the count.
struct Counting(u8);

impl Component for Counting {
    fn id(&self) -> ComponentId {
        ComponentId::new("counting").unwrap()
    }

    fn subscriptions(&self) -> Vec<KeyExpr> {
        Vec::new()
    }

    fn step(&mut self, ctx: &mut StepCtx) -> Result<SimTime, CoreError> {
        self.0 += 1;
        ctx.publish(KeyExpr::new("count").unwrap(), Ok(vec![self.0]), None)?;
        Ok(ctx.now() + SimDuration::from_millis(5))
    }
}

#[test]
fn taking_a_step_is_one_call_of_the_components_own() {
    let shown = StepCtx::new(SimTime::from_millis(20), None, "demo", 9, Vec::new());
    let (outcome, after, mut done) = take_step(Counting(3), shown);
    assert_eq!(outcome, Ok(SimTime::from_millis(25)));
    assert_eq!(after.0, 4);
    assert_eq!(done.now(), SimTime::from_millis(20));
    assert_eq!(done.take_outbox(), vec![(KeyExpr::new("count").unwrap(), vec![4])]);
    assert_eq!(after.state_bytes(), None);
}

#[test]
fn a_stopwatch_reads_its_clock_and_lets_a_component_step() {
    let wall = Rc::new(Cell::new(3));
    let clock = BenchClock(wall.clone());
    let mut stopwatch = Stopwatch::new();
    assert_eq!(stopwatch.read(&clock), 3);
    let shown = StepCtx::new(SimTime::from_millis(20), None, "demo", 9, Vec::new());
    let (outcome, after, _) = stopwatch.step(&path("counting"), Counting(3), shown);
    assert_eq!(outcome, Ok(SimTime::from_millis(25)));
    assert_eq!(after.0, 4);
    wall.set(10);
    assert_eq!(stopwatch.read(&clock), 10);
}

/// Moves the wall clock by what its step costs, and once more when it is
/// asked for its state.
struct Costly {
    wall: Rc<Cell<u64>>,
    step: u64,
    state: u64,
}

impl Component for Costly {
    fn id(&self) -> ComponentId {
        ComponentId::new("costly").unwrap()
    }

    fn subscriptions(&self) -> Vec<KeyExpr> {
        Vec::new()
    }

    fn step(&mut self, ctx: &mut StepCtx) -> Result<SimTime, CoreError> {
        self.wall.set(self.wall.get() + self.step);
        Ok(ctx.now() + SimDuration::from_millis(5))
    }

    fn state_bytes(&self) -> Option<Vec<u8>> {
        self.wall.set(self.wall.get() + self.state);
        None
    }
}

#[test]
fn what_a_step_took_is_read_just_before_and_just_after_it() {
    let mut bench = Bench::default();
    let took: Shared<Vec<u128>> = Default::default();
    let tap = took.clone();
    bench.on_observation.push(Box::new(move |observation| {
        if let RecordedObservation::BudgetMissed(miss) = observation {
            tap.borrow_mut().push(miss.step.nanos);
        }
    }));
    let wall = bench.wall.clone();
    let mut conductor = world_with(config("timed", 0), bench);
    for (id, step) in [("slow", 9), ("quick", 2)] {
        let costly = Costly {
            wall: wall.clone(),
            step,
            state: 100,
        };
        let budget = StepTiming::budget(WallDuration { nanos: 4 });
        conductor
            .add_component(JoinMetadata::at_start(id).with_timing(budget), boxed(costly))
            .expect("registration succeeds");
    }
    conductor.run_until(t_sim_ms(5)).expect("it runs");
    assert_eq!(*took.borrow(), vec![9, 9], "its own step, and nothing around it");
}

#[test]
fn a_monitor_is_shown_every_message_of_a_run_in_order() {
    let mut bench = Bench::default();
    let seen: Shared<Vec<(SimTime, Vec<u8>)>> = Default::default();
    let tap = seen.clone();
    bench.on_message.push(Box::new(move |message| {
        tap.borrow_mut().push((message.sim_time, message.payload.clone()));
    }));
    let mut conductor = world_with(config("shown", 0), bench);
    conductor
        .add_component(WORLD_LEVEL.into(), boxed(Counting(0)))
        .expect("registration succeeds");
    conductor.run_until(t_sim_ms(12)).expect("it runs");
    assert_eq!(
        *seen.borrow(),
        vec![(t_sim_ms(0), vec![1]), (t_sim_ms(5), vec![2]), (t_sim_ms(10), vec![3])],
        "though nobody asked for any of them"
    );
}

#[test]
fn hearing_calls_the_method_for_what_happened() {
    let counts = Rc::new(Cell::new((0, 0)));
    let watch = Watch::Count(counts.clone());
    let start = Effect::TickStart(TickStart { tick: 1, sim_time: SimTime::zero() });
    let watch = hear(watch, &start);
    assert_eq!(counts.get(), (1, 0));
    let done = Effect::TickDone(TickDone {
        tick: 1,
        component_id: ComponentId::new("a").unwrap(),
        next_due: SimTime::from_millis(1),
    });
    let watch = hear(watch, &done);
    let _ = hear(watch, &done);
    assert_eq!(counts.get(), (1, 2));
}
