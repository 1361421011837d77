//! The tree of registered components, and the schedule of what is due.
use continuo::conductor_error::ConductorError;
use continuo::ids::{ComponentId, ComponentPath};
use continuo::registry::Registry;
use continuo::schedule::Schedule;
use continuo::time::SimTime;
use continuo::timing::StepTiming;

/// A component that is only ever registered.
struct Dummy;

fn path(s: &str) -> ComponentPath {
    ComponentPath::parse(s).unwrap()
}

/// These tests exercise tree structure only; the seed just has to be some
/// fixed value, since no component here draws random numbers.
const TEST_WORLD_SEED: u64 = 0;

/// Registers `id` under `parent_path`.
fn try_add(
    reg: &mut Registry<Dummy>,
    parent_path: &str,
    id: &str,
) -> Result<(usize, ComponentPath), ConductorError> {
    reg.add(
        &path(parent_path),
        ComponentId::new(id).unwrap(),
        Dummy,
        TEST_WORLD_SEED,
        StepTiming::unlimited(),
    )
}

/// Registers `id` under `parent_path`, returning the full path.
fn add(reg: &mut Registry<Dummy>, parent_path: &str, id: &str) -> ComponentPath {
    let (_, path) = try_add(reg, parent_path, id).expect("registration succeeds");
    path
}

#[test]
fn same_instant_rule() {
    let mut reg = Registry::new();
    add(&mut reg, "car1", "controller");
    add(&mut reg, "car1", "physics");
    add(&mut reg, "car2", "controller");

    let t = &reg.tree;
    // Earlier sibling to later sibling: released.
    assert!(t.releases_same_instant(&path("car1/controller"), &path("car1/physics")));
    // Later sibling to earlier sibling: not released.
    assert!(!t.releases_same_instant(&path("car1/physics"), &path("car1/controller")));
    // Cross-actor: never released same-instant.
    assert!(!t.releases_same_instant(&path("car1/physics"), &path("car2/controller")));
    // Self: never.
    assert!(!t.releases_same_instant(&path("car1/physics"), &path("car1/physics")));
}

#[test]
fn removing_a_leaf_vacates_its_slot_without_shifting_others() {
    let mut reg = Registry::new();
    let (controller, controller_path) = try_add(&mut reg, "car1", "controller").unwrap();
    let (physics, _) = try_add(&mut reg, "car1", "physics").unwrap();

    assert_eq!(reg.remove(&controller_path), Some(controller));

    // The slot is empty, and the survivor keeps the index that fixes its
    // execution order within an instant.
    assert!(reg.entry(controller).is_none());
    assert_eq!(
        reg.entry(physics).expect("physics survives").path,
        path("car1/physics")
    );
    // A departed component is no longer a declared sibling, so nothing waits
    // on it for same-instant delivery.
    assert!(!reg
        .tree
        .releases_same_instant(&controller_path, &path("car1/physics")));
}

#[test]
fn a_departed_path_can_be_reused_and_arrives_as_the_newest_sibling() {
    let mut reg = Registry::new();
    let (_, controller_path) = try_add(&mut reg, "car1", "controller").unwrap();
    add(&mut reg, "car1", "physics");
    // Declared first, so its same-instant output reaches the physics.
    assert!(reg
        .tree
        .releases_same_instant(&controller_path, &path("car1/physics")));

    reg.remove(&controller_path);
    let (rejoined, _) = try_add(&mut reg, "car1", "controller").unwrap();

    // Rejoining is a new arrival, not a restoration: a fresh slot at the end,
    // and the end of the parent's child list. The two orders agree, which is
    // the point.
    assert_eq!(rejoined, 2);
    assert!(!reg
        .tree
        .releases_same_instant(&controller_path, &path("car1/physics")));
    assert!(reg
        .tree
        .releases_same_instant(&path("car1/physics"), &controller_path));
}

#[test]
fn removing_something_unregistered_reports_it() {
    let mut reg: Registry<Dummy> = Registry::new();
    assert_eq!(reg.remove(&path("nobody")), None);
}

#[test]
fn path_conflicts_rejected() {
    let mut reg = Registry::new();
    add(&mut reg, "", "a");
    // Duplicate leaf.
    assert!(matches!(
        try_add(&mut reg, "", "a"),
        Err(ConductorError::DuplicatePath(_))
    ));
    // Leaf "a" cannot become a composite.
    assert!(matches!(
        try_add(&mut reg, "a", "b"),
        Err(ConductorError::PathConflict { .. })
    ));
    // Composite "c" (via c/x) cannot become a leaf.
    add(&mut reg, "c", "x");
    assert!(matches!(
        try_add(&mut reg, "", "c"),
        Err(ConductorError::PathConflict { .. })
    ));
}

#[test]
fn leaves_under_returns_a_subtree_in_declaration_order() {
    let mut reg = Registry::new();
    // Declared z before a, so declaration order and path order disagree.
    // Declaration order is the one removals must follow, because it is the
    // order these would step.
    add(&mut reg, "car1", "z");
    add(&mut reg, "car1", "a");
    add(&mut reg, "car2", "physics");

    assert_eq!(
        reg.components_under(&path("car1")),
        vec![path("car1/z"), path("car1/a")],
        "declaration order, not alphabetical"
    );
    assert_eq!(
        reg.components_under(&path("car2")),
        vec![path("car2/physics")],
        "and only the subtree named"
    );
}

#[test]
fn leaves_under_finds_nothing_under_a_leaf_or_a_stranger() {
    let mut reg = Registry::new();
    let physics = add(&mut reg, "car1", "physics");

    // Strict descendants only: a leaf is not under itself.
    assert!(reg.components_under(&physics).is_empty());
    assert!(reg.components_under(&path("nobody")).is_empty());
}

#[test]
fn leaves_under_reaches_through_nested_composites() {
    let mut reg = Registry::new();
    add(&mut reg, "car1/sensors", "imu");
    add(&mut reg, "car1", "physics");

    assert_eq!(
        reg.components_under(&path("car1")),
        vec![path("car1/sensors/imu"), path("car1/physics")],
        "depth is irrelevant; declaration order still decides"
    );
    assert_eq!(
        reg.components_under(&path("car1/sensors")),
        vec![path("car1/sensors/imu")]
    );
}

#[test]
fn emptying_a_node_forgets_it_all_the_way_up() {
    // One leaf can retire a whole spine of composites that existed only to
    // hold it.
    let mut reg = Registry::new();
    let imu = add(&mut reg, "car1/sensors", "imu");
    assert!(reg.tree.is_internal_node(&path("car1")));
    assert!(reg.tree.is_internal_node(&path("car1/sensors")));

    reg.remove(&imu);

    assert!(!reg.tree.is_internal_node(&path("car1/sensors")));
    assert!(
        !reg.tree.is_internal_node(&path("car1")),
        "emptied in turn by its only child going"
    );
    assert!(
        reg.tree.is_empty(),
        "and the root forgot car1, so nothing is left declared anywhere"
    );
}

#[test]
fn the_walk_up_stops_at_the_first_survivor() {
    let mut reg = Registry::new();
    let imu = add(&mut reg, "car1/sensors", "imu");
    add(&mut reg, "car1", "physics");

    reg.remove(&imu);

    assert!(
        !reg.tree.is_internal_node(&path("car1/sensors")),
        "the sensors node emptied"
    );
    assert!(
        reg.tree.is_internal_node(&path("car1")),
        "but physics survives, so car1 stays a node"
    );
    assert_eq!(
        reg.tree.children(&path("car1")).expect("a node"),
        [ComponentId::new("physics").expect("valid id")],
        "and the emptied branch is gone from its child list"
    );
}

/// A sim-time instant, in nanoseconds.
fn t_sim_ns(nanos: i64) -> SimTime {
    SimTime::from_nanos(nanos)
}

#[test]
fn removing_an_index_leaves_co_due_components_untouched() {
    let mut schedule = Schedule::new();
    schedule.insert(t_sim_ns(10), 0);
    schedule.insert(t_sim_ns(10), 1);
    schedule.insert(t_sim_ns(20), 0);

    schedule.remove_index(0);

    assert_eq!(schedule.earliest(), Some(t_sim_ns(10)));
    let (time, due) = schedule.pop_earliest().expect("instant 10 survives");
    assert_eq!(time, t_sim_ns(10));
    assert_eq!(due, vec![1], "only the departed index is gone");
    // t=20 held nothing but the departed index, so it is gone entirely rather
    // than left as an instant with no one due.
    assert_eq!(schedule.earliest(), None);
}

#[test]
fn the_schedule_hands_out_an_instant_in_declaration_order() {
    let mut schedule = Schedule::new();
    schedule.insert(t_sim_ns(20), 2);
    schedule.insert(t_sim_ns(10), 5);
    schedule.insert(t_sim_ns(10), 3);
    schedule.insert(t_sim_ns(10), 3);

    let (time, due) = schedule.pop_earliest().unwrap();
    assert_eq!((time, due), (t_sim_ns(10), vec![3, 5]));
    let (time, due) = schedule.pop_earliest().unwrap();
    assert_eq!((time, due), (t_sim_ns(20), vec![2]));
    assert!(schedule.pop_earliest().is_none());
}
