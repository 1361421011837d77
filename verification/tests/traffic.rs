//! What the actors of the traffic demo decide: the newest of everything, the
//! nearest of a scan, and who is on the road.
use continuo::actors::{
    accel_cmd_key, actor_of, cap, latest_poses, logger_next_due, pose_key, radar_key,
    steer_cmd_key, take_commands, CommandKind, FloatBits, MAX_DETECTIONS,
};
use continuo::component::StepCtx;
use continuo::error::CoreError;
use continuo::ids::ComponentPath;
use continuo::keyexpr::KeyExpr;
use continuo::messages::Message;
use continuo::names::{comes_before, NameMap};
use continuo::random::RandomSplitMix64;
use continuo::record::Recorder;
use continuo::spawner::{TrafficRoad, TrafficSpawner, Written};
use continuo::time::{SimDuration, SimTime};
use continuo::traffic::{
    traffic_despawn_key, traffic_spawn_key, DespawnTrafficRequest, SpawnPlan, SpawnTrafficRequest,
    TrafficRoll,
};
use continuo::traffic_world::{
    config, config_paced, recorded_traffic_actor_names, scale_slot, EGO_NAME, SIM_SECONDS,
    WORLD_NAME, WORLD_SEED,
};
use continuo::pacing::Pacing;

/// A message on a key.
fn on(key: KeyExpr, seq: u64) -> Message {
    Message {
        key,
        publisher: ComponentPath::parse("ego/controller").unwrap(),
        seq,
        sim_time: SimTime::zero(),
        payload: Vec::new(),
    }
}

fn accel(seq: u64) -> Message {
    on(accel_cmd_key("demo", "ego"), seq)
}

fn steer(seq: u64) -> Message {
    on(steer_cmd_key("demo", "ego"), seq)
}

#[test]
fn only_the_newest_command_on_a_key_is_applied() {
    // Three accelerations in one inbox, which is what a controller running
    // faster than its plant delivers. The car takes the last.
    let inbox = vec![accel(1), accel(2), accel(3)];
    assert_eq!(take_commands(&inbox), vec![(CommandKind::Accel, 2)]);
}

#[test]
fn accel_and_steer_are_held_independently() {
    let both = vec![accel(1), steer(2)];
    assert_eq!(
        take_commands(&both),
        vec![(CommandKind::Steer, 1), (CommandKind::Accel, 0)]
    );
    // One step where only the acceleration is restated.
    let one = vec![accel(3)];
    assert_eq!(take_commands(&one), vec![(CommandKind::Accel, 0)]);
    assert!(take_commands(&[]).is_empty());
    assert!(take_commands(&[on(pose_key("demo", "ego"), 0)]).is_empty());
}

#[test]
fn keys_name_the_actor_they_are_about() {
    assert_eq!(
        pose_key("demo", "car1").as_str(),
        "continuo/demo/actor/car1/pose"
    );
    assert_eq!(
        accel_cmd_key("demo", "car1").as_str(),
        "continuo/demo/actor/car1/accel_cmd"
    );
    assert_eq!(
        steer_cmd_key("demo", "car1").as_str(),
        "continuo/demo/actor/car1/steer_cmd"
    );
    assert_eq!(
        radar_key("demo", "car1").as_str(),
        "continuo/demo/actor/car1/radar"
    );
    assert_eq!(
        traffic_spawn_key("demo").as_str(),
        "continuo/demo/traffic_spawner/spawn"
    );
    assert_eq!(
        traffic_despawn_key("demo").as_str(),
        "continuo/demo/traffic_spawner/despawn"
    );
    assert_eq!(actor_of("continuo/demo/actor/car1/pose"), "car1");
    assert_eq!(actor_of("actor/x"), "x");
}

#[test]
fn the_latest_pose_of_each_actor_is_kept_in_name_order() {
    let inbox = vec![
        on(pose_key("demo", "ego"), 0),
        on(pose_key("demo", "car1"), 0),
        on(pose_key("demo", "ego"), 1),
        on(pose_key("demo", "car10"), 0),
    ];
    let latest = latest_poses(&inbox);
    let read: Vec<(&str, usize)> = (0..latest.len())
        .map(|i| (latest.name(i), *latest.value(i)))
        .collect();
    assert_eq!(read, vec![("car1", 1), ("car10", 3), ("ego", 2)]);
    assert_eq!(latest.find("ego"), Some(2));
    assert_eq!(latest.find("nobody"), None);
}

#[test]
fn names_are_in_the_order_of_their_characters() {
    assert!(comes_before("a", "b"));
    assert!(comes_before("a", "ab"));
    assert!(comes_before("car10", "car9"));
    assert!(!comes_before("a", "a"));

    let mut map: NameMap<u8> = NameMap::new();
    assert!(map.put("b".to_string(), 1));
    assert!(map.put("a".to_string(), 2));
    assert!(!map.put("b".to_string(), 3), "replaced rather than added");
    assert_eq!((map.name(0), *map.value(0)), ("a", 2));
    assert_eq!((map.name(1), *map.value(1)), ("b", 3));
    assert_eq!(map.take_out(0), ("a".to_string(), 2));
    assert_eq!(map.len(), 1);
}

fn ranges(values: &[f64]) -> Vec<FloatBits> {
    values.iter().map(|v| FloatBits(v.to_bits())).collect()
}

#[test]
fn a_scan_over_its_cap_keeps_the_nearest() {
    const CAR_LENGTH: f64 = 4.5;
    let found = ranges(&[150.0 - CAR_LENGTH, 100.0 - CAR_LENGTH, 50.0 - CAR_LENGTH]);
    // The two nearest survive and the farthest is dropped.
    assert_eq!(cap(&found, 2), vec![false, true, true]);
}

#[test]
fn a_scan_within_its_cap_keeps_everything() {
    let found = ranges(&[3.0, -1.0, 0.0, -0.0, 3.0]);
    assert_eq!(cap(&found, MAX_DETECTIONS), vec![true; 5]);
    // An overlapping car is the nearest of all, and of two at one range the
    // first stays.
    assert_eq!(cap(&found, 1), vec![false, true, false, false, false]);
    assert_eq!(cap(&found, 4), vec![true, true, true, true, false]);
    assert_eq!(cap(&found, 0), vec![false; 5]);
}

#[test]
fn a_sampling_observer_steps_aside_once() {
    let period = SimDuration::from_millis(100);
    let offset = SimDuration::from_nanos(1);
    let first = logger_next_due(SimTime::zero(), None, period, offset);
    assert_eq!(first, SimTime::from_nanos(1));
    assert_eq!(
        logger_next_due(first, Some(offset), period, offset),
        SimTime::from_nanos(100_000_001)
    );
}

fn publisher(path: &str) -> ComponentPath {
    ComponentPath::parse(path).unwrap()
}

/// The roll as names and positions.
fn roll_of(roll: &TrafficRoll) -> Vec<(String, u64)> {
    (0..roll.population())
        .map(|i| (roll.car_name(i).to_string(), roll.car_s(i).0))
        .collect()
}

/// Tops a roll up, each car at its number.
fn fill(roll: &mut TrafficRoll, stream: &mut RandomSplitMix64) -> Vec<SpawnPlan> {
    let mut plans = Vec::new();
    while roll.wants_car() {
        let plan = roll.plan_spawn(3, stream);
        roll.enter(&plan.actor_name, FloatBits(roll.cars_spawned()));
        plans.push(plan);
    }
    plans
}

#[test]
fn the_roll_is_topped_up_with_fresh_names() {
    let mut roll = TrafficRoll::new("ego", 3);
    let mut stream = RandomSplitMix64::new(42);
    let mut same = RandomSplitMix64::new(42);
    let plans = fill(&mut roll, &mut stream);
    assert_eq!(plans.len(), 3);
    for (k, plan) in plans.iter().enumerate() {
        // The gap first, then the lane, then the speed.
        let gap = same.next_u64();
        let lane = same.next_u64();
        let speed = same.next_u64();
        assert_eq!(plan.actor_name, format!("traffic{}", k + 1));
        assert_eq!(plan.gap_draw, gap);
        assert_eq!(plan.lane, usize::try_from(lane % 3).unwrap());
        assert_eq!(plan.speed_draw, speed);
    }
    assert_eq!(roll.cars_spawned(), 3);
    assert_eq!(
        roll_of(&roll),
        vec![
            ("traffic1".to_string(), 1),
            ("traffic2".to_string(), 2),
            ("traffic3".to_string(), 3)
        ]
    );
    assert!(!roll.wants_car(), "it is full");

    // A car that is passed is struck off at once, and its name never comes
    // back.
    let gone = roll.retire(&vec![false, true, false]);
    assert_eq!(
        gone,
        vec![DespawnTrafficRequest {
            actor_name: "traffic2".to_string()
        }]
    );
    let plans = fill(&mut roll, &mut stream);
    assert_eq!(plans.len(), 1);
    assert_eq!(plans[0].actor_name, "traffic4");
}

#[test]
fn sightings_move_the_ego_and_the_cars_on_the_roll() {
    let mut roll = TrafficRoll::new("ego", 1);
    let mut stream = RandomSplitMix64::new(1);
    assert_eq!(fill(&mut roll, &mut stream).len(), 1);
    roll.sight(&publisher("ego/physics"), FloatBits(7));
    roll.sight(&publisher("traffic1/physics"), FloatBits(8));
    roll.sight(&publisher("stranger/physics"), FloatBits(9));
    assert_eq!(roll.ego_s(), FloatBits(7));
    assert_eq!(roll_of(&roll), vec![("traffic1".to_string(), 8)]);
}

/// A road on which a pose's payload is the position itself, a car is behind
/// once the ego is ten past it, and cars appear ten apart.
struct Ruler {
    writes: bool,
}

impl TrafficRoad for Ruler {
    fn locate(&self, message: &Message) -> Result<FloatBits, CoreError> {
        let bytes: Result<[u8; 8], _> = message.payload.clone().try_into();
        match bytes {
            Ok(bytes) => Ok(FloatBits(u64::from_le_bytes(bytes))),
            Err(_) => Err(CoreError::PayloadDecode {
                key: message.key.to_string(),
                publisher: message.publisher.to_string(),
                source: "not a position".to_string(),
            }),
        }
    }

    fn is_behind(&self, car_s: FloatBits, ego_s: FloatBits) -> bool {
        car_s.0 + 10 < ego_s.0
    }

    fn ahead_of(&self, ego_s: FloatBits) -> FloatBits {
        ego_s
    }

    fn further(&self, a: FloatBits, b: FloatBits) -> FloatBits {
        FloatBits(a.0.max(b.0))
    }

    fn beyond(&self, s: FloatBits, _gap_draw: u64) -> FloatBits {
        FloatBits(s.0 + 10)
    }

    fn speed(&self, speed_draw: u64) -> FloatBits {
        FloatBits(speed_draw)
    }

    fn write_despawn(&self, request: &DespawnTrafficRequest) -> Written {
        Written {
            serialized: Ok(request.actor_name.clone().into_bytes()),
            found: None,
        }
    }

    fn write_spawn(&self, request: &SpawnTrafficRequest) -> Written {
        let text = format!(
            "{} at {} in {} from {}",
            request.actor_name,
            request.start_s.0,
            request.lane_offset.0,
            request.first_due.as_nanos()
        );
        Written {
            serialized: if self.writes {
                Ok(text.into_bytes())
            } else {
                Err("out of ink".to_string())
            },
            found: None,
        }
    }
}

/// A pose of an actor at a position.
fn seen(actor_name: &str, s: u64) -> Message {
    Message {
        key: pose_key("demo", actor_name),
        publisher: publisher(&format!("{actor_name}/physics")),
        seq: 1,
        sim_time: SimTime::zero(),
        payload: s.to_le_bytes().to_vec(),
    }
}

/// What a step published, as texts.
fn said(ctx: &mut StepCtx) -> Vec<(String, String)> {
    ctx.take_outbox()
        .into_iter()
        .map(|(key, payload)| (key.to_string(), String::from_utf8(payload).unwrap()))
        .collect()
}

fn ruler_spawner(writes: bool) -> TrafficSpawner<Ruler> {
    TrafficSpawner::new(
        SimDuration::from_nanos(5),
        Ruler { writes },
        "ego",
        vec![FloatBits(40), FloatBits(50), FloatBits(60)],
        2,
    )
}

#[test]
fn a_spawner_fills_the_road_and_replaces_what_has_been_passed() {
    let mut spawner = ruler_spawner(true);
    let mut first = StepCtx::new(SimTime::from_nanos(20), None, "demo", 9, vec![seen("ego", 100)]);
    assert_eq!(spawner.step(&mut first), Ok(SimTime::from_nanos(25)));
    let mut draws = first.step_random();
    let lanes: Vec<u64> = (0..2)
        .map(|_| {
            draws.next_u64();
            let lane = draws.next_u64() % 3;
            draws.next_u64();
            40 + 10 * lane
        })
        .collect();
    let spawn = traffic_spawn_key("demo").to_string();
    let despawn = traffic_despawn_key("demo").to_string();
    assert_eq!(
        said(&mut first),
        vec![
            (spawn.clone(), format!("traffic1 at 110 in {} from 25", lanes[0])),
            (spawn.clone(), format!("traffic2 at 120 in {} from 25", lanes[1])),
        ]
    );

    // The ego is now more than ten past the first car. It goes before the
    // next one comes, and a stranger is no concern.
    let inbox = vec![seen("ego", 125), seen("stranger", 0), seen("traffic2", 121)];
    let mut second = StepCtx::new(SimTime::from_nanos(25), None, "demo", 9, inbox);
    assert_eq!(spawner.step(&mut second), Ok(SimTime::from_nanos(30)));
    let mut draws = second.step_random();
    draws.next_u64();
    let lane = 40 + 10 * (draws.next_u64() % 3);
    assert_eq!(
        said(&mut second),
        vec![
            (despawn, "traffic1".to_string()),
            (spawn, format!("traffic3 at 135 in {lane} from 30")),
        ]
    );
    assert_eq!(
        roll_of(spawner.roll()),
        vec![("traffic2".to_string(), 121), ("traffic3".to_string(), 135)]
    );
    assert_eq!(spawner.frontier_s(), FloatBits(135));
    assert!(spawner.road().writes);

    // A third step has nobody to ask about twice.
    let mut third = StepCtx::new(SimTime::from_nanos(30), None, "demo", 9, vec![]);
    assert_eq!(spawner.step(&mut third), Ok(SimTime::from_nanos(35)));
    assert!(said(&mut third).is_empty());
}

#[test]
fn a_spawner_stops_at_what_it_cannot_read_or_publish() {
    let mut blurred = seen("ego", 1);
    blurred.payload.pop();
    let mut spawner = ruler_spawner(true);
    let mut ctx = StepCtx::new(SimTime::zero(), None, "demo", 9, vec![blurred]);
    assert_eq!(
        spawner.step(&mut ctx),
        Err(CoreError::PayloadDecode {
            key: pose_key("demo", "ego").to_string(),
            publisher: "ego/physics".to_string(),
            source: "not a position".to_string(),
        })
    );
    assert!(said(&mut ctx).is_empty());

    let mut spawner = ruler_spawner(false);
    let mut ctx = StepCtx::new(SimTime::zero(), None, "demo", 9, vec![]);
    assert_eq!(
        spawner.step(&mut ctx),
        Err(CoreError::PayloadSerialize {
            key: traffic_spawn_key("demo").to_string(),
            source: "out of ink".to_string(),
        })
    );
    assert!(said(&mut ctx).is_empty());
}

#[test]
fn the_demo_world_is_configured_the_same_however_it_is_paced() {
    let free = config();
    let paced = config_paced(Pacing::real_time());
    assert_eq!(free.world_name, WORLD_NAME);
    assert_eq!(free.world_seed, WORLD_SEED);
    assert_eq!(free.world_name, paced.world_name);
    assert_eq!(free.world_seed, paced.world_seed);
    assert_eq!(paced.pacing, Pacing::real_time());
    assert_eq!((WORLD_NAME, WORLD_SEED, SIM_SECONDS, EGO_NAME), ("demo", 42, 30, "ego"));
    assert!(recorded_traffic_actor_names(&Recorder::new(&free).finish()).is_empty());
}

#[test]
fn cars_of_the_scale_scenario_fill_the_lanes_first() {
    let slots: Vec<(usize, usize, usize)> = (0..8)
        .map(|i| scale_slot(i, 3))
        .map(|s| (s.lane, s.row, s.speed_step))
        .collect();
    assert_eq!(
        slots,
        vec![
            (0, 0, 0),
            (1, 0, 1),
            (2, 0, 2),
            (0, 1, 3),
            (1, 1, 4),
            (2, 1, 5),
            (0, 2, 6),
            (1, 2, 0)
        ]
    );
    assert_eq!(scale_slot(12, 3).actor_name, "car12");
}
