//! Laws of the traffic demo: who is in its cast, what a request comes to, and
//! where a run that is compared with another stops.
use vstd::prelude::*;

use crate::actors::FloatBits;
use crate::coherence::coherent;
use crate::component::Component;
use crate::conductor_error::ConductorErrorModel;
use crate::error::CoreError;
use crate::messages::Message;
use crate::pacing::WallClock;
use crate::record::{EventLog, LogEventModel};
use crate::schedule::Due;
use crate::stage::StageModel;
use crate::time::SimTime;
use crate::traffic::{DespawnTrafficRequest, SpawnTrafficRequest};
use crate::traffic_world::{
    AnswersModel, CarBuilder, HandlerModel, Request, RequestKind, ScaleFloats, ScaleSlot,
    SceneBuilder,
};
use crate::world::{EffectModel, WorldModel};

verus! {

// ---------------------------------------------------------------------------
// Recorded traffic
// ---------------------------------------------------------------------------

/// The traffic of a recorded run is named by what joined: a component beneath
/// an actor other than the ego names that actor, once, behind those that were
/// named before; a component that stands alone, the ego's, and any line that
/// is no join name nobody.
pub proof fn law_who_was_traffic(
    events: Seq<LogEventModel>,
    segments: Seq<Seq<char>>,
    first_due: SimTime,
    other: LogEventModel,
)
    requires
        segments.len() > 0,
        forall|i: int| 0 <= i < segments.len() ==> !(#[trigger] segments[i]).contains('/'),
        !(other is Join),
    ensures
        crate::traffic_world::traffic_names(Seq::<LogEventModel>::empty()).len() == 0,
        crate::traffic_world::traffic_names(events.push(other))
            == crate::traffic_world::traffic_names(events),
        crate::traffic_world::traffic_names(
            events.push(
                LogEventModel::Join { path: crate::text::join(segments, '/'), first_due },
            ),
        ) == (if segments.len() > 1 && segments[0] != seq!['e', 'g', 'o']
            && !crate::traffic_world::traffic_names(events).contains(segments[0]) {
            crate::traffic_world::traffic_names(events).push(segments[0])
        } else {
            crate::traffic_world::traffic_names(events)
        }),
{
    let join = LogEventModel::Join { path: crate::text::join(segments, '/'), first_due };
    assert(events.push(other).drop_last() =~= events);
    assert(events.push(join).drop_last() =~= events);
    crate::text::law_split_undoes_join(segments, '/');
    reveal_strlit("ego");
    assert(crate::traffic_world::EGO_NAME@ =~= seq!['e', 'g', 'o']);
}

/// No traffic actor is named twice.
pub proof fn law_recorded_traffic_is_named_once(events: Seq<LogEventModel>)
    ensures
        crate::traffic_world::traffic_names(events).no_duplicates(),
    decreases events.len(),
{
    if events.len() > 0 {
        law_recorded_traffic_is_named_once(events.drop_last());
    }
}

// ---------------------------------------------------------------------------
// Requests
// ---------------------------------------------------------------------------

/// A message is a request to spawn exactly where it is on the handler's key
/// for those, a request to remove where it is on the other, and otherwise no
/// request.
pub proof fn law_which_messages_are_requests(handler: HandlerModel, key: Seq<char>)
    requires
        handler.spawn_key != handler.despawn_key,
    ensures
        crate::traffic_world::kind_of_key(handler, key) == Some(RequestKind::Spawn) <==> key
            == handler.spawn_key,
        crate::traffic_world::kind_of_key(handler, key) == Some(RequestKind::Despawn) <==> key
            == handler.despawn_key,
{
}

/// A request to remove someone who is there takes everyone who departs out at
/// once; one for someone already gone changes nothing and is no error.
pub proof fn law_what_a_request_to_remove_does<K: Component, C: WallClock, B: CarBuilder<K>>(
    builder: B,
    before: StageModel<K, C>,
    request: DespawnTrafficRequest,
    after: StageModel<K, C>,
    outcome: Result<(), ConductorErrorModel>,
)
    requires
        coherent(before.world),
        before.world.tick == 0 || before.world.sim_time.0 < i64::MAX,
        crate::ids::parse_path(request.actor_name@) is Ok,
        crate::traffic_world::handles(
            builder,
            before,
            Request::Despawn(request),
            after,
            outcome,
        ),
    ensures
        outcome is Ok,
        ({
            let m = before.world;
            let path = crate::ids::parse_path(request.actor_name@)->Ok_0;
            let who = crate::world::departing(m, path);
            let open = if m.tick == 0 {
                m.sim_time.0 as int
            } else {
                m.sim_time.0 + 1
            };
            &&& who.len() == 0 ==> after == before
            &&& who.len() > 0 ==> after.world == crate::world::all_gone(
                WorldModel {
                    history: m.history.push(
                        EffectModel::Observation(
                            crate::record::ObservationModel::LeaveRequested {
                                path: request.actor_name@,
                                leaves_at: None,
                            },
                        ),
                    ),
                    ..m
                },
                who,
                open as i64,
            )
            &&& after.clock == before.clock
            &&& after.pace == before.pace
            &&& after.moments == before.moments
        }),
{
    crate::membership_laws::law_what_a_leave_request_is_answered(
        before.world,
        request.actor_name@,
        None,
    );
    crate::request_laws::law_a_refused_leave_leaves_no_trace(
        before.world,
        request.actor_name@,
        None,
    );
}

/// A request to spawn brings two components, the controller first and the
/// plant behind it, both beneath the actor that it names and both due at the
/// instant that it names, each as the builder makes it of that request.
pub proof fn law_a_car_is_two_components<K, B: CarBuilder<K>>(
    builder: B,
    request: SpawnTrafficRequest,
    component: K,
)
    ensures
        ({
            let parts = crate::traffic_world::car_parts::<K, B>(builder, request);
            &&& parts.len() == 2
            &&& parts[0].parent == request.actor_name@
            &&& parts[1].parent == request.actor_name@
            &&& parts[0].first_due == request.first_due
            &&& parts[1].first_due == request.first_due
            &&& (parts[0].who)(component) <==> call_ensures(
                B::controller,
                (&builder, &request),
                component,
            )
            &&& (parts[1].who)(component) <==> call_ensures(
                B::physics,
                (&builder, &request),
                component,
            )
        }),
{
}

/// The live cast: the ego's controller and its plant, the spawner and the
/// logger, in that order, all due at the opening instant; the last two stand
/// alone.
pub proof fn law_who_is_in_the_live_cast<K, B: SceneBuilder<K>>(
    builder: B,
    ego: SpawnTrafficRequest,
    speed: FloatBits,
    component: K,
)
    requires
        crate::traffic_world::is_ego(ego, speed),
    ensures
        ({
            let parts = crate::traffic_world::live_parts::<K, B>(builder, ego);
            &&& ego.actor_name@ == seq!['e', 'g', 'o']
            &&& ego.lane_offset.0 == 0
            &&& ego.start_s.0 == 0
            &&& ego.speed == speed
            &&& parts.len() == 4
            &&& forall|i: int| 0 <= i < 4 ==> (#[trigger] parts[i]).first_due.0 == 0
            &&& parts[0].parent == ego.actor_name@
            &&& parts[1].parent == ego.actor_name@
            &&& parts[2].parent.len() == 0
            &&& parts[3].parent.len() == 0
            &&& (parts[0].who)(component) <==> call_ensures(
                B::controller,
                (&builder, &ego),
                component,
            )
            &&& (parts[1].who)(component) <==> call_ensures(
                B::physics,
                (&builder, &ego),
                component,
            )
            &&& (parts[2].who)(component) <==> call_ensures(B::spawner, (&builder,), component)
            &&& (parts[3].who)(component) <==> call_ensures(B::logger, (&builder,), component)
        }),
{
    reveal_strlit("ego");
    reveal_strlit("");
    assert(crate::traffic_world::EGO_NAME@ =~= seq!['e', 'g', 'o']);
}

/// The cast of a playback: the ego's controller and its plant, a double of
/// every actor that was traffic, and the logger, in that order.
pub proof fn law_who_is_in_a_playback<K, B: SceneBuilder<K>>(
    builder: B,
    ego: SpawnTrafficRequest,
    recorded: EventLog,
    names: Seq<Seq<char>>,
    i: int,
)
    requires
        0 <= i < names.len(),
    ensures
        ({
            let parts = crate::traffic_world::playback_parts::<K, B>(
                builder,
                ego,
                recorded,
                names,
            );
            &&& parts.len() == names.len() + 3
            &&& parts[0] == crate::traffic_world::controller_part::<K, B>(builder, ego)
            &&& parts[1] == crate::traffic_world::physics_part::<K, B>(builder, ego)
            &&& parts[i + 2] == crate::traffic_world::double_part::<K, B>(
                builder,
                recorded,
                names[i],
            )
            &&& parts[(names.len() + 2) as int] == crate::traffic_world::logger_part::<K, B>(builder)
        }),
{
}

/// A double goes by the name of the actor that it stands for, starts at the
/// beginning, and holds that actor's recording out of the log.
pub proof fn law_what_a_double_plays(
    playback: crate::playback::PlaybackComponent,
    recorded: EventLog,
    name: Seq<char>,
)
    requires
        crate::traffic_world::plays_back(playback, recorded, name),
    ensures
        playback@.id == name,
        playback@.cursor == 0,
        playback@.messages == crate::playback::recording(
            crate::record::event_models(recorded.events@),
            name,
        ),
{
}

/// The cars of the scale scenario are two components each, numbered from
/// zero, the controller before the plant.
pub proof fn law_who_is_in_the_scale_cast<K, B: SceneBuilder<K>>(
    builder: B,
    cars: nat,
    lanes: usize,
    car: int,
)
    requires
        0 <= car < cars,
    ensures
        ({
            let parts = crate::traffic_world::scale_parts::<K, B>(builder, cars, lanes);
            let name = seq!['c', 'a', 'r'] + crate::text::decimal(car as nat);
            &&& parts.len() == 2 * cars
            &&& parts[2 * car].parent == name
            &&& parts[2 * car + 1].parent == name
            &&& parts[2 * car].first_due.0 == 0
            &&& parts[2 * car + 1].first_due.0 == 0
        }),
{
    reveal_strlit("car");
    assert("car"@ =~= seq!['c', 'a', 'r']);
}

// ---------------------------------------------------------------------------
// Live runs
// ---------------------------------------------------------------------------

/// A live run that completes ran until nothing is due by its end, unless it
/// is compared with another and was said to have left it: then it stopped
/// right there, at the first time it was said, and no instant was stepped and
/// no request applied after it.
pub proof fn law_where_a_live_run_stops<K: Component, C: WallClock, B: CarBuilder<K>>(
    builder: B,
    before: StageModel<K, C>,
    end: i64,
    compared: bool,
    answers: AnswersModel,
    stages: Seq<StageModel<K, C>>,
    after: StageModel<K, C>,
)
    requires
        coherent(after.world),
        crate::traffic_world::plays(
            builder,
            before,
            end,
            compared,
            answers,
            stages,
            after,
            Ok::<(), ConductorErrorModel>(()),
        ),
    ensures
        stages.len() > 0,
        stages[0] == before,
        !compared ==> answers.diverged.len() == 0,
        compared ==> answers.diverged.len() == stages.len(),
        forall|i: int| 0 <= i < answers.diverged.len() - 1 ==> !(#[trigger] answers.diverged[i]),
        compared && answers.diverged.last() ==> after == stages.last(),
        !(compared && answers.diverged.last()) ==> (forall|d: Due| #[trigger]
            after.world.schedule.contains(d) ==> d.0 > end) && (forall|i: int|
            0 <= i < after.world.joins.len() ==> (#[trigger] after.world.joins[i]).0 > end),
{
    if !(compared && answers.diverged.last()) {
        crate::world_laws::law_a_run_is_done_when_everything_is_later(after.world, end);
    }
}

/// In every round of a live run an instant is stepped, and then everything
/// that was asked for in it is applied, in the order it was asked; a request
/// that could not be read ends the run before anything of that round is
/// applied.
pub proof fn law_requests_are_applied_between_instants<
    K: Component,
    C: WallClock,
    B: CarBuilder<K>,
>(
    builder: B,
    before: StageModel<K, C>,
    end: i64,
    compared: bool,
    answers: AnswersModel,
    stages: Seq<StageModel<K, C>>,
    after: StageModel<K, C>,
    outcome: Result<(), ConductorErrorModel>,
    i: int,
)
    requires
        crate::traffic_world::plays(
            builder,
            before,
            end,
            compared,
            answers,
            stages,
            after,
            outcome,
        ),
        0 <= i < stages.len() - 1,
    ensures
        i < answers.handed.len(),
        answers.handed[i].unreadable is None,
        exists|mid: StageModel<K, C>, between: Seq<StageModel<K, C>>|
            {
                &&& crate::stage::stage_leads(seq![stages[i], mid], 0, end)
                &&& #[trigger] crate::traffic_world::applies(
                    builder,
                    mid,
                    answers.handed[i].pending,
                    between,
                    stages[i + 1],
                    Ok::<(), ConductorErrorModel>(()),
                )
            },
{
    assert(crate::traffic_world::round_leads(builder, stages, answers.handed, i, end));
    let (mid, between) = choose|mid: StageModel<K, C>, between: Seq<StageModel<K, C>>| #[trigger]
        crate::traffic_world::round(
            builder,
            stages[i],
            end,
            mid,
            answers.handed[i].pending,
            between,
            stages[i + 1],
            Ok::<(), ConductorErrorModel>(()),
        );
    assert(crate::traffic_world::applies(
        builder,
        mid,
        answers.handed[i].pending,
        between,
        stages[i + 1],
        Ok::<(), ConductorErrorModel>(()),
    ));
}

/// Requests are applied in the order they were asked for, each to what the
/// one before it left, all of them or up to the first that is refused; what
/// that one left is where it ends.
pub proof fn law_requests_are_applied_in_turn<K: Component, C: WallClock, B: CarBuilder<K>>(
    builder: B,
    before: StageModel<K, C>,
    requests: Seq<Request>,
    stages: Seq<StageModel<K, C>>,
    after: StageModel<K, C>,
    outcome: Result<(), ConductorErrorModel>,
    i: int,
)
    requires
        crate::traffic_world::applies(builder, before, requests, stages, after, outcome),
        0 <= i < stages.len(),
    ensures
        stages[0] == before,
        i < stages.len() - 1 ==> crate::traffic_world::handles(
            builder,
            stages[i],
            requests[i],
            stages[i + 1],
            Ok::<(), ConductorErrorModel>(()),
        ),
        outcome is Ok ==> stages.len() == requests.len() + 1 && after == stages[requests.len()
            as int],
        i == stages.len() - 1 && outcome is Err ==> i < requests.len()
            && crate::traffic_world::handles(builder, stages[i], requests[i], after, outcome),
{
    if i < stages.len() - 1 {
        assert(crate::traffic_world::handles_at(builder, requests, stages, i));
    }
}

/// A request that cannot be read is reported with the key it came on, who
/// published it, and what was wrong with it.
pub proof fn law_what_an_unreadable_request_reports(
    error: CoreError,
    message: Message,
    source: Seq<char>,
)
    requires
        crate::traffic_world::reports(error, message, source),
    ensures
        error matches CoreError::PayloadDecode { key, publisher, source: said } && key@
            == message.key@ && publisher@ == crate::ids::path_text(message.publisher@) && said@
            == source,
{
}

/// The cars of the scale scenario fill the lanes of one row after another:
/// counted along the rows, a car's place is its index. Seven speeds take
/// turns.
pub proof fn law_where_a_scale_car_starts<K, B: SceneBuilder<K>>(
    builder: B,
    index: nat,
    lanes: usize,
    request: SpawnTrafficRequest,
)
    requires
        lanes > 0,
        crate::traffic_world::is_scale_car::<K, B>(builder, index, lanes, request),
    ensures
        request.actor_name@ == seq!['c', 'a', 'r'] + crate::text::decimal(index),
        request.first_due.0 == 0,
        exists|slot: ScaleSlot, floats: ScaleFloats|
            {
                &&& #[trigger] call_ensures(B::scale_floats, (&builder, &slot, lanes), floats)
                &&& slot.actor_name@ == request.actor_name@
                &&& slot.row * lanes + slot.lane == index
                &&& slot.lane < lanes
                &&& slot.speed_step < 7
                &&& (index - slot.speed_step) % 7 == 0
                &&& request.lane_offset == floats.lane_offset
                &&& request.start_s == floats.start_s
                &&& request.speed == floats.speed
            },
{
    reveal_strlit("car");
    assert("car"@ =~= seq!['c', 'a', 'r']);
    let (slot, floats) = choose|slot: ScaleSlot, floats: ScaleFloats|
        {
            &&& #[trigger] call_ensures(B::scale_floats, (&builder, &slot, lanes), floats)
            &&& slot.actor_name@ == "car"@ + crate::text::decimal(index)
            &&& slot.lane == index % lanes as nat
            &&& slot.row == index / lanes as nat
            &&& slot.speed_step == index % 7
            &&& request.actor_name@ == slot.actor_name@
            &&& request.lane_offset == floats.lane_offset
            &&& request.speed == floats.speed
            &&& request.start_s == floats.start_s
            &&& request.first_due == SimTime(0)
        };
    vstd::arithmetic::div_mod::lemma_fundamental_div_mod(index as int, lanes as int);
    vstd::arithmetic::mul::lemma_mul_is_commutative(lanes as int, slot.row as int);
    assert(call_ensures(B::scale_floats, (&builder, &slot, lanes), floats));
}

/// A recorded run can be played back only where every name and every key of
/// its traffic can be used again, and wherever they all can.
pub proof fn law_which_traffic_can_be_played(events: Seq<LogEventModel>)
    ensures
        crate::traffic_world::can_be_doubled(events) ==> forall|name: Seq<char>, i: int|
            crate::traffic_world::traffic_names(events).contains(name) && 0 <= i
                < crate::playback::recording(events, name).len() ==> crate::ids::valid_id(name)
                && crate::keyexpr::key_error(
                (#[trigger] crate::playback::recording(events, name)[i]).1,
            ) is None,
        !crate::traffic_world::can_be_doubled(events) ==> exists|name: Seq<char>|
            #[trigger] crate::traffic_world::traffic_names(events).contains(name) && (
            !crate::ids::valid_id(name) || exists|i: int|
                0 <= i < crate::playback::recording(events, name).len()
                    && crate::keyexpr::key_error(
                    (#[trigger] crate::playback::recording(events, name)[i]).1,
                ) is Some),
{
    let names = crate::traffic_world::traffic_names(events);
    if crate::traffic_world::can_be_doubled(events) {
        assert forall|name: Seq<char>, i: int|
            names.contains(name) && 0 <= i < crate::playback::recording(events, name).len() implies
            crate::ids::valid_id(name) && crate::keyexpr::key_error(
            (#[trigger] crate::playback::recording(events, name)[i]).1,
        ) is None by {
            let n = choose|n: int| 0 <= n < names.len() && names[n] == name;
            assert(crate::ids::valid_id(names[n]));
        }
    } else {
        let n = choose|n: int|
            0 <= n < names.len() && !({
                &&& crate::ids::valid_id(#[trigger] names[n])
                &&& forall|i: int|
                    0 <= i < crate::playback::recording(events, names[n]).len()
                        ==> crate::keyexpr::key_error(
                        (#[trigger] crate::playback::recording(events, names[n])[i]).1,
                    ) is None
            });
        assert(names.contains(names[n]));
    }
}

} // verus!
