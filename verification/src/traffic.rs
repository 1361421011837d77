//! Traffic population management: which cars exist, and what is asked of
//! whoever drives the run.
//!
//! Where a car is, and whether it has been passed, is measured along a road
//! with floats; that is handed in. What follows from it is decided here.
use vstd::prelude::*;
use vstd::string::*;

use crate::actors::FloatBits;
use crate::ids::ComponentPath;
use crate::keyexpr::KeyExpr;
use crate::names::NameMap;
use crate::random::RandomSplitMix64;
use crate::text::{decimal_text, same_text};
use crate::time::SimTime;

verus! {

/// A request to put one traffic car on the road.
#[derive(Debug, Clone, PartialEq, Eq)]
pub struct SpawnTrafficRequest {
    /// Actor name for the new car, unique for the run.
    pub actor_name: String,
    /// Lateral offset of the lane to drive, in meters.
    pub lane_offset: FloatBits,
    /// Constant speed to hold, m/s.
    pub speed: FloatBits,
    /// Where to appear, as an arc length along the road.
    pub start_s: FloatBits,
    /// The instant the car should first step.
    pub first_due: SimTime,
}

/// A request to take one traffic car off the road, by actor name. The driver
/// removes the whole actor.
#[derive(Debug, Clone, PartialEq, Eq)]
pub struct DespawnTrafficRequest {
    /// Actor name of the car to remove.
    pub actor_name: String,
}

/// The key of what a traffic spawner publishes.
pub open spec fn spawner_key(world_name: Seq<char>, what: Seq<char>) -> Seq<char> {
    crate::keyexpr::rooted(world_name + "/traffic_spawner/"@ + what)
}

/// Key the spawner publishes [`SpawnTrafficRequest`]s on.
pub fn traffic_spawn_key(world_name: &str) -> (key: KeyExpr)
    requires
        crate::keyexpr::key_error(spawner_key(world_name@, "spawn"@)) is None,
    ensures
        key@ == spawner_key(world_name@, "spawn"@),
{
    let path = world_name.to_owned().concat("/traffic_spawner/").concat("spawn");
    KeyExpr::new_rooted(path.as_str()).unwrap()
}

/// Key the spawner publishes [`DespawnTrafficRequest`]s on.
pub fn traffic_despawn_key(world_name: &str) -> (key: KeyExpr)
    requires
        crate::keyexpr::key_error(spawner_key(world_name@, "despawn"@)) is None,
    ensures
        key@ == spawner_key(world_name@, "despawn"@),
{
    let path = world_name.to_owned().concat("/traffic_spawner/").concat("despawn");
    KeyExpr::new_rooted(path.as_str()).unwrap()
}

/// The name of the `n`th car ever spawned.
pub open spec fn traffic_name(n: nat) -> Seq<char> {
    "traffic"@ + crate::text::decimal(n)
}

/// A car's name never returns: no two cars of a run are named alike.
pub proof fn law_a_car_name_is_never_reused(a: nat, b: nat)
    requires
        a != b,
    ensures
        traffic_name(a) != traffic_name(b),
{
    crate::text::lemma_decimal_value(a);
    crate::text::lemma_decimal_value(b);
    let head = "traffic"@.len() as int;
    assert(traffic_name(a).skip(head) =~= crate::text::decimal(a));
    assert(traffic_name(b).skip(head) =~= crate::text::decimal(b));
}

/// The keys of a spawner's requests are written with the world's name, the
/// spawner's, and what they ask for behind the simulation root.
pub proof fn law_what_a_spawners_keys_say(world_name: Seq<char>, what: Seq<char>)
    ensures
        spawner_key(world_name, what) == crate::text::join(
            seq!["continuo"@, world_name, "traffic_spawner"@, what],
            '/',
        ),
{
    let parts = seq!["continuo"@, world_name, "traffic_spawner"@, what];
    reveal_with_fuel(crate::text::join, 4);
    reveal_strlit("/traffic_spawner/");
    reveal_strlit("traffic_spawner");
    reveal_strlit("/");
    assert(parts.drop_last() =~= seq!["continuo"@, world_name, "traffic_spawner"@]);
    assert(parts.drop_last().drop_last() =~= seq!["continuo"@, world_name]);
    assert(parts.drop_last().drop_last().drop_last() =~= seq!["continuo"@]);
    assert(spawner_key(world_name, what) =~= crate::text::join(parts, '/'));
}

/// A car is named `traffic` with its number in the order of all cars behind
/// it.
pub proof fn law_how_a_car_is_named(n: nat)
    ensures
        traffic_name(n).len() > 7,
        traffic_name(n).take(7) == seq!['t', 'r', 'a', 'f', 'f', 'i', 'c'],
        crate::text::all_digits(traffic_name(n).skip(7)),
        crate::text::decimal_value(traffic_name(n).skip(7)) == n,
{
    reveal_strlit("traffic");
    crate::text::lemma_decimal_value(n);
    assert(traffic_name(n).skip(7) =~= crate::text::decimal(n));
    assert(traffic_name(n).take(7) =~= seq!['t', 'r', 'a', 'f', 'f', 'i', 'c']);
}

/// The roll of the cars that were asked for and not yet retired, with the
/// latest known position of each.
///
/// A car is struck off when its removal is requested rather than when it is
/// applied: otherwise it would be asked for twice while the first request was
/// still in flight.
#[derive(Debug)]
pub struct TrafficRoll {
    /// Actor whose progress the traffic is arranged around.
    ego_name: String,
    /// How many cars to keep on the road at once.
    target_population: usize,
    live_traffic: NameMap<FloatBits>,
    /// Latest known position of the ego.
    ego_s: FloatBits,
    /// How many cars have been created, ever, which is what makes their names
    /// unique.
    cars_spawned: u64,
}

/// What a [`TrafficRoll`] holds.
#[verifier::ext_equal]
pub struct RollModel {
    pub ego_name: Seq<char>,
    pub target_population: nat,
    pub live: Seq<(Seq<char>, FloatBits)>,
    pub ego_s: FloatBits,
    pub cars_spawned: nat,
}

impl View for TrafficRoll {
    type V = RollModel;

    closed spec fn view(&self) -> RollModel {
        RollModel {
            ego_name: self.ego_name@,
            target_population: self.target_population as nat,
            live: self.live_traffic@,
            ego_s: self.ego_s,
            cars_spawned: self.cars_spawned as nat,
        }
    }
}

/// Whether a name is that of one of the first `n` cars.
pub open spec fn is_car(name: Seq<char>, n: nat) -> bool {
    exists|k: nat| 1 <= k <= n && name == #[trigger] traffic_name(k)
}

/// What holds of a roll at every moment: its cars are in name order, and each
/// is one that was spawned.
pub open spec fn is_roll(m: RollModel) -> bool {
    &&& crate::names::in_name_order(m.live)
    &&& forall|i: int| 0 <= i < m.live.len() ==> is_car((#[trigger] m.live[i]).0, m.cars_spawned)
}

/// The roll after a pose of the actor that a path's first segment names: the
/// ego's or a live car's position moves, and anyone else is no concern.
pub open spec fn sighted(m: RollModel, publisher: Seq<Seq<char>>, s: FloatBits) -> RollModel {
    if publisher.len() == 0 {
        m
    } else if publisher[0] == m.ego_name {
        RollModel { ego_s: s, ..m }
    } else {
        placed(m, publisher[0], s)
    }
}

/// The roll with a live car's position moved.
pub open spec fn placed(m: RollModel, name: Seq<char>, s: FloatBits) -> RollModel {
    if crate::names::has_name(m.live, name) {
        RollModel { live: crate::names::with_name(m.live, name, s), ..m }
    } else {
        m
    }
}

/// The entries that are not flagged.
pub open spec fn unflagged(live: Seq<(Seq<char>, FloatBits)>, flags: Seq<bool>) -> Seq<
    (Seq<char>, FloatBits),
>
    decreases live.len(),
{
    if live.len() == 0 {
        Seq::empty()
    } else {
        let front = unflagged(live.drop_last(), flags);
        if flags[live.len() - 1] {
            front
        } else {
            front.push(live.last())
        }
    }
}

/// The names of the entries that are flagged.
pub open spec fn flagged(live: Seq<(Seq<char>, FloatBits)>, flags: Seq<bool>) -> Seq<Seq<char>>
    decreases live.len(),
{
    if live.len() == 0 {
        Seq::empty()
    } else {
        let front = flagged(live.drop_last(), flags);
        if flags[live.len() - 1] {
            front.push(live.last().0)
        } else {
            front
        }
    }
}

/// The names that some requests ask to remove.
pub open spec fn asked_names(requests: Seq<DespawnTrafficRequest>) -> Seq<Seq<char>> {
    Seq::new(requests.len(), |i: int| requests[i].actor_name@)
}

/// Dropping entries keeps a roll's cars in order and its own.
proof fn lemma_unflagged(live: Seq<(Seq<char>, FloatBits)>, flags: Seq<bool>)
    requires
        crate::names::in_name_order(live),
    ensures
        crate::names::in_name_order(unflagged(live, flags)),
        forall|i: int|
            0 <= i < unflagged(live, flags).len() ==> live.contains(
                #[trigger] unflagged(live, flags)[i],
            ),
    decreases live.len(),
{
    if live.len() > 0 {
        let front = live.drop_last();
        assert forall|i: int, j: int| 0 <= i < j < front.len() implies crate::names::text_before(
            (#[trigger] front[i]).0,
            (#[trigger] front[j]).0,
        ) by {
            assert(crate::names::text_before(live[i].0, live[j].0));
        }
        lemma_unflagged(front, flags);
        let kept = unflagged(front, flags);
        let all = unflagged(live, flags);
        assert forall|i: int| 0 <= i < all.len() implies live.contains(#[trigger] all[i]) by {
            if i < kept.len() {
                assert(all[i] == kept[i]);
                let k = choose|k: int| 0 <= k < front.len() && front[k] == kept[i];
                assert(live[k] == all[i]);
            } else {
                assert(live[live.len() - 1] == all[i]);
            }
        }
        assert forall|i: int, j: int| 0 <= i < j < all.len() implies crate::names::text_before(
            (#[trigger] all[i]).0,
            (#[trigger] all[j]).0,
        ) by {
            if j < kept.len() {
                assert(crate::names::text_before(kept[i].0, kept[j].0));
            } else {
                assert(front.contains(kept[i]));
                let k = choose|k: int| 0 <= k < front.len() && front[k] == kept[i];
                assert(crate::names::text_before(live[k].0, live[live.len() - 1].0));
            }
        }
    }
}

/// What striking cars off comes to: the rest is a roll, and who was struck
/// off is a car and is not among them.
pub(crate) proof fn lemma_struck_off(m: RollModel, flags: Seq<bool>)
    requires
        is_roll(m),
        flags.len() == m.live.len(),
    ensures
        is_roll(RollModel { live: unflagged(m.live, flags), ..m }),
        forall|i: int|
            0 <= i < flagged(m.live, flags).len() ==> is_car(
                #[trigger] flagged(m.live, flags)[i],
                m.cars_spawned,
            ) && !crate::names::has_name(unflagged(m.live, flags), flagged(m.live, flags)[i]),
{
    lemma_unflagged(m.live, flags);
    let kept = unflagged(m.live, flags);
    assert forall|i: int| 0 <= i < kept.len() implies is_car(
        (#[trigger] kept[i]).0,
        m.cars_spawned,
    ) by {
        assert(m.live.contains(kept[i]));
        let j = choose|j: int| 0 <= j < m.live.len() && m.live[j] == kept[i];
        assert(is_car(m.live[j].0, m.cars_spawned));
    }
    lemma_flagged(m.live, flags);
    let gone = flagged(m.live, flags);
    assert forall|i: int| 0 <= i < gone.len() implies is_car(#[trigger] gone[i], m.cars_spawned)
        && !crate::names::has_name(kept, gone[i]) by {
        assert(is_flagged(m.live, flags, gone[i]));
        let j = choose|j: int|
            0 <= j < m.live.len() && flags[j] && (#[trigger] m.live[j]).0 == gone[i];
        assert(is_car(m.live[j].0, m.cars_spawned));
        if crate::names::has_name(kept, gone[i]) {
            let k = choose|k: int| 0 <= k < kept.len() && (#[trigger] kept[k]).0 == gone[i];
            assert(is_unflagged(m.live, flags, kept[k].0));
            let l = choose|l: int|
                0 <= l < m.live.len() && !flags[l] && (#[trigger] m.live[l]).0 == kept[k].0;
            crate::names::lemma_one_comes_first(m.live[l].0, m.live[j].0);
            if l < j {
                assert(crate::names::text_before(m.live[l].0, m.live[j].0));
            } else {
                assert(crate::names::text_before(m.live[j].0, m.live[l].0));
            }
        }
    }
}

/// Whether a name is that of a flagged entry.
spec fn is_flagged(live: Seq<(Seq<char>, FloatBits)>, flags: Seq<bool>, name: Seq<char>) -> bool {
    exists|j: int| 0 <= j < live.len() && flags[j] && (#[trigger] live[j]).0 == name
}

/// Whether a name is that of an entry that is not flagged.
spec fn is_unflagged(live: Seq<(Seq<char>, FloatBits)>, flags: Seq<bool>, name: Seq<char>) -> bool {
    exists|j: int| 0 <= j < live.len() && !flags[j] && (#[trigger] live[j]).0 == name
}

/// Where the entries that are flagged, and the others, come from.
proof fn lemma_flagged(live: Seq<(Seq<char>, FloatBits)>, flags: Seq<bool>)
    ensures
        forall|i: int|
            0 <= i < flagged(live, flags).len() ==> is_flagged(
                live,
                flags,
                #[trigger] flagged(live, flags)[i],
            ),
        forall|i: int|
            0 <= i < unflagged(live, flags).len() ==> is_unflagged(
                live,
                flags,
                (#[trigger] unflagged(live, flags)[i]).0,
            ),
    decreases live.len(),
{
    if live.len() > 0 {
        let front = live.drop_last();
        let end = live.len() - 1;
        lemma_flagged(front, flags);
        let gone = flagged(live, flags);
        assert forall|i: int| 0 <= i < gone.len() implies is_flagged(
            live,
            flags,
            #[trigger] gone[i],
        ) by {
            if i < flagged(front, flags).len() {
                assert(gone[i] == flagged(front, flags)[i]);
                let j = choose|j: int|
                    0 <= j < front.len() && flags[j] && (#[trigger] front[j]).0 == gone[i];
                assert(live[j].0 == gone[i]);
            } else {
                assert(live[end].0 == gone[i]);
            }
        }
        let kept = unflagged(live, flags);
        assert forall|i: int| 0 <= i < kept.len() implies is_unflagged(
            live,
            flags,
            (#[trigger] kept[i]).0,
        ) by {
            if i < unflagged(front, flags).len() {
                assert(kept[i] == unflagged(front, flags)[i]);
                let j = choose|j: int|
                    0 <= j < front.len() && !flags[j] && (#[trigger] front[j]).0 == kept[i].0;
                assert(live[j].0 == kept[i].0);
            } else {
                assert(live[end].0 == kept[i].0);
            }
        }
    }
}

/// Moving a live car keeps a roll a roll.
pub(crate) proof fn lemma_placed(m: RollModel, name: Seq<char>, s: FloatBits)
    requires
        is_roll(m),
    ensures
        is_roll(placed(m, name, s)),
{
    if crate::names::has_name(m.live, name) {
        crate::names::law_putting_keeps_name_order(m.live, name, s);
        crate::names::lemma_name_rank(m.live, name);
        let after = crate::names::with_name(m.live, name, s);
        assert forall|j: int| 0 <= j < after.len() implies is_car(
            (#[trigger] after[j]).0,
            m.cars_spawned,
        ) by {
            assert(after[j].0 == m.live[j].0);
            assert(is_car(m.live[j].0, m.cars_spawned));
        }
    }
}

/// The state of a random stream after `n` draws.
pub open spec fn stream_after(state: u64, n: nat) -> u64
    decreases n,
{
    if n == 0 {
        state
    } else {
        crate::random::next_state(stream_after(state, (n - 1) as nat))
    }
}

/// The `n`th draw of a random stream, counted from zero.
pub open spec fn draw(state: u64, n: nat) -> u64 {
    crate::random::scramble(stream_after(state, n + 1))
}

/// A car that is to be spawned: its name, and what the random stream said of
/// it. Where it appears and how fast it goes follow from the draws.
#[derive(Debug)]
pub struct SpawnPlan {
    pub actor_name: String,
    /// The draw that the gap to the car before it comes from.
    pub gap_draw: u64,
    /// Which of the lanes it drives.
    pub lane: usize,
    /// The draw that its speed comes from.
    pub speed_draw: u64,
}

/// What a [`SpawnPlan`] says.
pub struct PlanModel {
    pub name: Seq<char>,
    pub gap_draw: u64,
    pub lane: int,
    pub speed_draw: u64,
}

impl View for SpawnPlan {
    type V = PlanModel;

    open spec fn view(&self) -> PlanModel {
        PlanModel {
            name: self.actor_name@,
            gap_draw: self.gap_draw,
            lane: self.lane as int,
            speed_draw: self.speed_draw,
        }
    }
}

/// The plan of the `n`th car ever, with what a stream at `state` says of it.
pub open spec fn plan_of(n: nat, lanes: int, state: u64) -> PlanModel {
    PlanModel {
        name: traffic_name(n),
        gap_draw: draw(state, 0),
        lane: (draw(state, 1) as usize) as int % lanes,
        speed_draw: draw(state, 2),
    }
}

/// How many cars are missing from a roll.
pub open spec fn missing(m: RollModel) -> nat {
    if m.live.len() < m.target_population {
        (m.target_population - m.live.len()) as nat
    } else {
        0
    }
}

/// A pose of the ego moves the ego and no car; a pose of a car on the roll
/// moves that car to where it was seen and no other; a pose of anyone else
/// moves nobody. Who is on the roll, and how many cars there have been, stay.
pub proof fn law_what_a_sighting_moves(
    m: RollModel,
    publisher: Seq<Seq<char>>,
    s: FloatBits,
    name: Seq<char>,
    at: FloatBits,
)
    requires
        is_roll(m),
    ensures
        ({
            let after = sighted(m, publisher, s);
            let ego = publisher.len() > 0 && publisher[0] == m.ego_name;
            let car = publisher.len() > 0 && !ego && publisher[0] == name && exists|i: int|
                0 <= i < m.live.len() && (#[trigger] m.live[i]).0 == name;
            &&& after.ego_s == (if ego {
                s
            } else {
                m.ego_s
            })
            &&& after.live.contains((name, at)) <==> if car {
                at == s
            } else {
                m.live.contains((name, at))
            }
            &&& after.live.len() == m.live.len()
            &&& after.cars_spawned == m.cars_spawned
            &&& after.target_population == m.target_population
            &&& after.ego_name == m.ego_name
        }),
{
    if publisher.len() > 0 && publisher[0] != m.ego_name {
        let who = publisher[0];
        crate::names::law_putting_keeps_name_order(m.live, who, s);
        crate::names::law_putting_replaces_what_was_there(m.live, who, s, name, at);
    }
}

/// Who has been passed is struck off and asked to go, and nobody else: one
/// more car on the roll is kept behind the others unless it has been passed,
/// and is asked to go behind the others if it has.
pub proof fn law_who_is_struck_off(
    live: Seq<(Seq<char>, FloatBits)>,
    car: (Seq<char>, FloatBits),
    flags: Seq<bool>,
)
    ensures
        unflagged(Seq::<(Seq<char>, FloatBits)>::empty(), flags).len() == 0,
        flagged(Seq::<(Seq<char>, FloatBits)>::empty(), flags).len() == 0,
        unflagged(live.push(car), flags) == (if flags[live.len() as int] {
            unflagged(live, flags)
        } else {
            unflagged(live, flags).push(car)
        }),
        flagged(live.push(car), flags) == (if flags[live.len() as int] {
            flagged(live, flags).push(car.0)
        } else {
            flagged(live, flags)
        }),
{
    assert(live.push(car).drop_last() =~= live);
}

/// A random stream goes on by the golden increment at every draw, modulo two
/// to the sixty-fourth.
pub proof fn law_where_a_stream_stands(state: u64, n: nat)
    ensures
        stream_after(state, n) == (state + n * 0x9E37_79B9_7F4A_7C15) % 0x1_0000_0000_0000_0000,
        draw(state, n) == crate::random::scramble(stream_after(state, n + 1)),
    decreases n,
{
    let gamma: int = 0x9E37_79B9_7F4A_7C15;
    let m: int = 0x1_0000_0000_0000_0000;
    if n > 0 {
        let k = (n - 1) as nat;
        law_where_a_stream_stands(state, k);
        assert(state + n * gamma == (state + k * gamma) + gamma) by (nonlinear_arith)
            requires
                n == k + 1,
        ;
        let before = stream_after(state, k);
        assert(stream_after(state, n) == (before + gamma) % m);
        vstd::arithmetic::div_mod::lemma_add_mod_noop(state + k * gamma, gamma, m);
    }
}

/// A car is planned with three draws in a row: the first is for its gap, the
/// second for its lane, and the third for its speed.
pub proof fn law_three_draws_plan_a_car(n: nat, lanes: int, state: u64)
    requires
        lanes > 0,
    ensures
        ({
            let plan = plan_of(n, lanes, state);
            let one = crate::random::next_state(state);
            let two = crate::random::next_state(one);
            let three = crate::random::next_state(two);
            &&& plan.name == traffic_name(n)
            &&& plan.gap_draw == crate::random::scramble(one)
            &&& plan.lane == (crate::random::scramble(two) as usize) as int % lanes
            &&& plan.speed_draw == crate::random::scramble(three)
            &&& 0 <= plan.lane < lanes
        }),
{
    reveal_with_fuel(stream_after, 4);
    vstd::arithmetic::div_mod::lemma_mod_bound((draw(state, 1) as usize) as int, lanes);
}

/// What is missing makes a roll as full as it should be, and a roll that is
/// fuller misses nobody.
pub proof fn law_how_many_cars_are_missing(m: RollModel)
    ensures
        m.live.len() <= m.target_population ==> m.live.len() + missing(m) == m.target_population,
        m.live.len() > m.target_population ==> missing(m) == 0,
{
}

/// A roll stays one when another car is counted.
proof fn lemma_more_cars(m: RollModel)
    requires
        is_roll(m),
    ensures
        is_roll(RollModel { cars_spawned: m.cars_spawned + 1, ..m }),
{
    assert forall|i: int| 0 <= i < m.live.len() implies is_car(
        (#[trigger] m.live[i]).0,
        m.cars_spawned + 1,
    ) by {
        assert(is_car(m.live[i].0, m.cars_spawned));
        let k = choose|k: nat|
            1 <= k <= m.cars_spawned && m.live[i].0 == #[trigger] traffic_name(k);
        assert(m.live[i].0 == traffic_name(k));
    }
}

/// A roll stays one when the car that was counted last is on it.
proof fn lemma_entered(m: RollModel, s: FloatBits)
    requires
        is_roll(m),
        m.cars_spawned > 0,
    ensures
        is_roll(
            RollModel {
                live: crate::names::with_name(m.live, traffic_name(m.cars_spawned), s),
                ..m
            },
        ),
{
    let name = traffic_name(m.cars_spawned);
    let after = crate::names::with_name(m.live, name, s);
    crate::names::law_putting_keeps_name_order(m.live, name, s);
    crate::names::lemma_name_rank(m.live, name);
    assert forall|i: int| 0 <= i < after.len() implies is_car(
        (#[trigger] after[i]).0,
        m.cars_spawned,
    ) by {
        let place = crate::names::name_rank(m.live, name) as int;
        if after[i].0 == name {
            assert(after[i].0 == traffic_name(m.cars_spawned));
        } else if after.len() == m.live.len() || i < place {
            assert(after[i] == m.live[i]);
            assert(is_car(m.live[i].0, m.cars_spawned));
        } else {
            assert(after[i] == m.live[i - 1]);
            assert(is_car(m.live[i - 1].0, m.cars_spawned));
        }
    }
}

/// The next car's name is not on the roll, so putting it there makes a roll
/// with one car more.
pub(crate) proof fn lemma_next_car(m: RollModel, s: FloatBits)
    requires
        is_roll(m),
    ensures
        !crate::names::has_name(m.live, traffic_name(m.cars_spawned + 1)),
        crate::names::with_name(m.live, traffic_name(m.cars_spawned + 1), s).len() == m.live.len()
            + 1,
        is_roll(
            RollModel {
                live: crate::names::with_name(m.live, traffic_name(m.cars_spawned + 1), s),
                cars_spawned: m.cars_spawned + 1,
                ..m
            },
        ),
{
    let name = traffic_name(m.cars_spawned + 1);
    if crate::names::has_name(m.live, name) {
        let i = choose|i: int| 0 <= i < m.live.len() && (#[trigger] m.live[i]).0 == name;
        assert(is_car(m.live[i].0, m.cars_spawned));
        let k = choose|k: nat|
            1 <= k <= m.cars_spawned && m.live[i].0 == #[trigger] traffic_name(k);
        law_a_car_name_is_never_reused(k, m.cars_spawned + 1);
    }
    crate::names::lemma_name_rank(m.live, name);
    lemma_more_cars(m);
    lemma_entered(RollModel { cars_spawned: m.cars_spawned + 1, ..m }, s);
}

impl TrafficRoll {
    /// What holds of a roll at every moment.
    pub open spec fn wf(&self) -> bool {
        is_roll(self@)
    }

    /// An empty roll; the first step fills it.
    pub fn new(ego_name: &str, target_population: usize) -> (roll: Self)
        ensures
            roll.wf(),
            roll@ == (RollModel {
                ego_name: ego_name@,
                target_population: target_population as nat,
                live: Seq::empty(),
                ego_s: FloatBits(0),
                cars_spawned: 0,
            }),
    {
        TrafficRoll {
            ego_name: ego_name.to_owned(),
            target_population,
            live_traffic: NameMap::new(),
            ego_s: FloatBits(0),
            cars_spawned: 0,
        }
    }

    /// How many cars are on the roll.
    pub fn population(&self) -> (count: usize)
        ensures
            count == self@.live.len(),
    {
        self.live_traffic.len()
    }

    /// The name of the car at a place of the roll.
    pub fn car_name(&self, i: usize) -> (name: &str)
        requires
            i < self@.live.len(),
        ensures
            name@ == self@.live[i as int].0,
    {
        self.live_traffic.name(i)
    }

    /// The latest known position of the car at a place of the roll.
    pub fn car_s(&self, i: usize) -> (s: FloatBits)
        requires
            i < self@.live.len(),
        ensures
            s == self@.live[i as int].1,
    {
        *self.live_traffic.value(i)
    }

    /// The latest known position of the ego.
    pub fn ego_s(&self) -> (s: FloatBits)
        ensures
            s == self@.ego_s,
    {
        self.ego_s
    }

    /// How many cars have been created, ever.
    pub fn cars_spawned(&self) -> (count: u64)
        ensures
            count == self@.cars_spawned,
    {
        self.cars_spawned
    }

    /// Takes note of where an actor is: the one that the first segment of the
    /// publisher's path names, since a car publishes from beneath its own
    /// name.
    pub fn sight(&mut self, publisher: &ComponentPath, s: FloatBits)
        requires
            old(self).wf(),
        ensures
            final(self).wf(),
            final(self)@ == sighted(old(self)@, publisher@, s),
    {
        if publisher.len() == 0 {
            return;
        }
        let actor_name = publisher.segment(0).as_str();
        if same_text(actor_name, self.ego_name.as_str()) {
            self.ego_s = s;
        } else {
            self.place(actor_name, s);
        }
    }

    /// Moves a live car to a position.
    fn place(&mut self, name: &str, s: FloatBits)
        requires
            old(self).wf(),
        ensures
            final(self).wf(),
            final(self)@ == placed(old(self)@, name@, s),
    {
        match self.live_traffic.find(name) {
            Some(i) => {
                proof {
                    lemma_placed(self@, name@, s);
                    assert(crate::names::has_name(self@.live, name@));
                }
                let _ = self.live_traffic.put(name.to_owned(), s);
            },
            None => {},
        }
    }

    /// Strikes off every car that has been passed, given whether each has, in
    /// the order of the roll. Returns the requests to remove them, in that
    /// order.
    pub fn retire(&mut self, passed: &Vec<bool>) -> (requests: Vec<DespawnTrafficRequest>)
        requires
            old(self).wf(),
            passed@.len() == old(self)@.live.len(),
        ensures
            final(self).wf(),
            final(self)@ == (RollModel {
                live: unflagged(old(self)@.live, passed@),
                ..old(self)@
            }),
            asked_names(requests@) == flagged(old(self)@.live, passed@),
    {
        let ghost all = self@.live;
        let mut requests: Vec<DespawnTrafficRequest> = Vec::new();
        let mut place: usize = 0;
        let mut k: usize = 0;
        proof {
            lemma_unflagged(all, passed@);
            assert(all.take(0) =~= Seq::<(Seq<char>, FloatBits)>::empty());
            assert(asked_names(requests@) =~= Seq::<Seq<char>>::empty());
            assert(unflagged(all.take(0), passed@) + all.skip(0) =~= all);
        }
        while k < passed.len()
            invariant
                passed@.len() == all.len(),
                all == old(self)@.live,
                0 <= k <= all.len(),
                self@ == (RollModel { live: self@.live, ..old(self)@ }),
                self@.live == unflagged(all.take(k as int), passed@) + all.skip(k as int),
                place == unflagged(all.take(k as int), passed@).len(),
                place <= k,
                asked_names(requests@) == flagged(all.take(k as int), passed@),
            decreases all.len() - k,
        {
            proof {
                assert(all.take(k + 1).drop_last() =~= all.take(k as int));
                assert(all.take(k + 1).last() == all[k as int]);
                assert(self@.live[place as int] == all[k as int]);
            }
            let ghost front = unflagged(all.take(k as int), passed@);
            if passed[k] {
                let (actor_name, _) = self.live_traffic.take_out(place);
                let ghost earlier = requests@;
                requests.push(DespawnTrafficRequest { actor_name });
                proof {
                    assert(asked_names(requests@) =~= asked_names(earlier).push(all[k as int].0));
                    assert(self@.live =~= front + all.skip(k + 1));
                }
            } else {
                place += 1;
                proof {
                    assert(front.push(all[k as int]) + all.skip(k + 1) =~= front + all.skip(
                        k as int,
                    ));
                }
            }
            k += 1;
        }
        proof {
            assert(all.take(k as int) =~= all);
            assert(unflagged(all, passed@) + all.skip(k as int) =~= unflagged(all, passed@));
            lemma_struck_off(old(self)@, passed@);
        }
        requests
    }

    /// Whether the roll is short of a car.
    pub fn wants_car(&self) -> (wants: bool)
        ensures
            wants == (missing(self@) > 0),
    {
        self.live_traffic.len() < self.target_population
    }

    /// Names the next car and draws what the random stream says of it: the
    /// gap first, then the lane, then the speed.
    pub fn plan_spawn(&mut self, lanes: usize, stream: &mut RandomSplitMix64) -> (plan: SpawnPlan)
        requires
            old(self).wf(),
            lanes > 0,
            old(self)@.cars_spawned < u64::MAX,
        ensures
            final(self).wf(),
            plan@ == plan_of(old(self)@.cars_spawned + 1, lanes as int, old(stream).state),
            plan.lane < lanes,
            final(stream).state == stream_after(old(stream).state, 3),
            final(self)@ == (RollModel {
                cars_spawned: old(self)@.cars_spawned + 1,
                ..old(self)@
            }),
    {
        self.cars_spawned = self.cars_spawned + 1;
        let actor_name = "traffic".to_owned().concat(decimal_text(self.cars_spawned).as_str());
        proof {
            reveal_with_fuel(stream_after, 4);
            lemma_more_cars(old(self)@);
        }
        let gap_draw: u64 = stream.next_u64();
        let lane_draw: u64 = stream.next_u64();
        let speed_draw: u64 = stream.next_u64();
        let lane: usize = lane_draw as usize % lanes;
        SpawnPlan { actor_name, gap_draw, lane, speed_draw }
    }

    /// Puts the car that was named last on the roll, at a position.
    pub fn enter(&mut self, name: &str, s: FloatBits)
        requires
            old(self).wf(),
            old(self)@.cars_spawned > 0,
            name@ == traffic_name(old(self)@.cars_spawned),
        ensures
            final(self).wf(),
            final(self)@ == (RollModel {
                live: crate::names::with_name(old(self)@.live, name@, s),
                ..old(self)@
            }),
    {
        proof {
            lemma_entered(self@, s);
        }
        let _ = self.live_traffic.put(name.to_owned(), s);
    }
}

} // verus!
