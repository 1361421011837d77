//! The conductor: owns simulation time and drives the discrete-event loop.
//!
//! What it decides is stated over [`WorldModel`]: every operation is the
//! function of the same name there. Components are asked to step and told
//! what they may read, messages go to a [`Transport`], and whoever watches is
//! told what happens.
use vstd::prelude::*;
use vstd::string::*;

use crate::component::{Component, StepCtx};
use crate::conductor_error::{ConductorError, ConductorErrorModel};
use crate::config::ConductorConfig;
use crate::error::CoreError;
use crate::hash::{hash_bytes, HashFnv1a64};
use crate::ids::{ComponentId, ComponentPath};
use crate::keyexpr::KeyExpr;
use crate::membership::{JoinMetadata, LeaveMetadata};
use crate::messages::{Message, MessageModel, TickDone, TickStart};
use crate::observers::{Channel, Effect, Observer, Observers};
use crate::pacing::{keep_pace, Pacer, PacerModel, Pacing, WallClock};
use crate::queue::Queue;
use crate::record::{
    MembershipChange, RecordedBudgetMiss, RecordedJoin, RecordedJoinRequest, RecordedLeave,
    RecordedLeaveRequest, RecordedObservation, RecordedTimeout, TickFingerprint,
};
use crate::registry::Registry;
use crate::schedule::Schedule;
use crate::seed::mix_seeds;
use crate::stage::{CastModel, StageModel};
use crate::stopwatch::{Moment, Stopwatch};
use crate::time::{SimDuration, SimTime};
use crate::timing::{OnTimeout, StepTiming, WallDuration};
use crate::transport::{Monitor, MonitorTransport, ReleaseRule, Transport};
use crate::world::{EffectModel, JoinModel, ReplyModel, TickModel, WorldModel};

verus! {

/// A component whose join waits for its instant.
pub struct PendingJoin<K> {
    pub parent_path: ComponentPath,
    pub id: ComponentId,
    pub timing: StepTiming,
    pub subscriptions: Vec<KeyExpr>,
    pub component: K,
}

impl<K> View for PendingJoin<K> {
    type V = JoinModel;

    open spec fn view(&self) -> JoinModel {
        JoinModel {
            path: self.parent_path@.push(self.id@),
            timing: self.timing,
            subscriptions: crate::keyexpr::key_texts(self.subscriptions@),
        }
    }
}

/// Owns simulation time and drives the discrete-event loop over a
/// [`Transport`].
pub struct Conductor<K: Component, T: Transport, O: Observer, C: WallClock> {
    config: ConductorConfig,
    transport: T,
    registry: Registry<K>,
    schedule: Schedule,
    /// Gates each instant to wall time, at 1x real time.
    pacer: Option<Pacer<C>>,
    /// The wall clock where there is no pacer to hold it.
    free_clock: Option<C>,
    leaves: Queue<ComponentPath>,
    joins: Queue<PendingJoin<K>>,
    sim_time: SimTime,
    tick: u64,
    world_hash: u64,
    /// Observers, in the order they were added. Lists rather than single
    /// slots, because more than one observer legitimately wants the same
    /// channel: recording a run while watching it, for instance.
    tick_observers: Observers<O>,
    membership_observers: Observers<O>,
    observation_observers: Observers<O>,
    /// Times the components' steps.
    stopwatch: Stopwatch,
    /// The transport, as it was brought to the run.
    brought: Ghost<T>,
    history: Ghost<Seq<EffectModel>>,
}

impl<K: Component, T: Transport, O: Observer, C: WallClock> View for Conductor<K, T, O, C> {
    type V = WorldModel;

    closed spec fn view(&self) -> WorldModel {
        WorldModel {
            name: self.config.world_name@,
            seed: self.config.world_seed,
            registry: self.registry@,
            schedule: self.schedule@,
            leaves: self.leaves@,
            joins: self.joins@,
            mail: self.transport.mail(),
            sim_time: self.sim_time,
            tick: self.tick,
            world_hash: self.world_hash,
            history: self.history@,
        }
    }
}

/// A request's answer as a model.
pub open spec fn answer_model<A, B>(
    answer: Result<A, ConductorError>,
    value: B,
) -> Result<B, ConductorErrorModel> {
    match answer {
        Ok(_) => Ok(value),
        Err(error) => Err(error@),
    }
}

/// The answer of an advance as a model.
pub open spec fn step_answer(done: Result<bool, ConductorError>) -> Result<
    bool,
    ConductorErrorModel,
> {
    match done {
        Ok(stepped) => Ok(stepped),
        Err(error) => Err(error@),
    }
}

/// Whether one more observer watches a channel, from now on, and the others
/// are watched by whom they were.
pub open spec fn watch_added<K: Component, T: Transport, O: Observer, C: WallClock>(
    before: &Conductor<K, T, O, C>,
    after: &Conductor<K, T, O, C>,
    channel: Channel,
    observer: O,
) -> bool {
    &&& forall|other: Channel| #[trigger]
        after.watched_since(other) == (if other == channel {
            before.watched_since(other).push(before@.history.len())
        } else {
            before.watched_since(other)
        })
    &&& forall|other: Channel| #[trigger]
        after.added(other) == (if other == channel {
            before.added(other).push(observer)
        } else {
            before.added(other)
        })
    &&& after.brought() == before.brought()
}

impl<K: Component, T: Transport, O: Observer, C: WallClock> Conductor<K, T, O, C> {
    /// Where the pacer stands, in 1x real-time mode.
    pub closed spec fn pace(&self) -> Option<PacerModel> {
        match self.pacer {
            Some(pacer) => Some(pacer.model()),
            None => None,
        }
    }

    /// The components.
    pub closed spec fn cast(&self) -> CastModel<K> {
        CastModel {
            slots: crate::registry::components(self.registry.entries@),
            waiting: Seq::new(
                self.joins.items@.len(),
                |i: int| self.joins.items@[i].1.component,
            ),
        }
    }

    /// The wall clock.
    pub closed spec fn clock(&self) -> C {
        clock_of(self.pacer, self.free_clock)
    }

    /// What was done to time the components' steps, in order.
    pub closed spec fn moments(&self) -> Seq<Moment> {
        self.stopwatch@
    }

    /// The transport.
    pub closed spec fn transport(&self) -> T {
        self.transport
    }

    /// The transport, as it was brought to the run.
    pub closed spec fn brought(&self) -> T {
        self.brought@
    }

    /// The world with its components, the clock that times them, what was
    /// done to time them, and where the pacer stands.
    pub open spec fn stage(&self) -> StageModel<K, C> {
        StageModel {
            world: self@,
            cast: self.cast(),
            clock: self.clock(),
            moments: self.moments(),
            pace: self.pace(),
        }
    }

    /// There is one clock, and the pacer has slipped no more often than there
    /// were ticks after the first.
    closed spec fn pacer_fits(&self) -> bool {
        match self.pacer {
            Some(pacer) => {
                &&& pacer.wf()
                &&& self.tick == 0 ==> pacer.anchor is None && pacer.overrun_reanchors == 0
                &&& self.tick > 0 ==> pacer.overrun_reanchors < self.tick
            },
            None => self.free_clock is Some,
        }
    }

    /// Whether every observer has been told what the run had for it, and the
    /// transport has carried every message that the run published and no
    /// other.
    closed spec fn all_told(&self) -> bool {
        &&& self.transport.comes_from(&self.brought@)
        &&& self.transport.carried() == self.brought@.carried() + crate::world::published_in(
            self.history@,
        )
        &&& self.tick_observers.fits(self.history@, Channel::Tick)
        &&& self.membership_observers.fits(self.history@, Channel::Membership)
        &&& self.observation_observers.fits(self.history@, Channel::Observation)
    }

    /// How much of the run there had been when each observer of a channel was
    /// added.
    pub closed spec fn watched_since(&self, channel: Channel) -> Seq<nat> {
        match channel {
            Channel::Tick => self.tick_observers.since(),
            Channel::Membership => self.membership_observers.since(),
            Channel::Observation => self.observation_observers.since(),
        }
    }

    /// The observers of a channel, as each was when it was added.
    pub closed spec fn added(&self, channel: Channel) -> Seq<O> {
        match channel {
            Channel::Tick => self.tick_observers.first(),
            Channel::Membership => self.membership_observers.first(),
            Channel::Observation => self.observation_observers.first(),
        }
    }

    /// The observers of a channel, as they are.
    pub closed spec fn watchers(&self, channel: Channel) -> Seq<O> {
        match channel {
            Channel::Tick => self.tick_observers.watchers(),
            Channel::Membership => self.membership_observers.watchers(),
            Channel::Observation => self.observation_observers.watchers(),
        }
    }

    /// Whom of a channel's observers was told what so far.
    pub closed spec fn calls(&self, channel: Channel) -> Seq<(nat, EffectModel)> {
        match channel {
            Channel::Tick => self.tick_observers.calls(),
            Channel::Membership => self.membership_observers.calls(),
            Channel::Observation => self.observation_observers.calls(),
        }
    }

    /// What holds of a conductor at every moment.
    pub closed spec fn wf(&self) -> bool {
        &&& crate::coherence::coherent(self@)
        &&& self.registry.wf()
        &&& self.schedule.wf()
        &&& self.transport.wf()
        &&& self.pacer_fits()
        &&& self.all_told()
    }

    /// The world of a conductor is coherent.
    pub proof fn lemma_coherent(&self)
        requires
            self.wf(),
        ensures
            crate::coherence::coherent(self@),
    {
    }

    /// Every observer of a conductor has been told exactly what its channel
    /// had for it since it was added, and is what hearing that made of it.
    pub proof fn lemma_all_told(&self, channel: Channel)
        requires
            self.wf(),
        ensures
            forall|i: int|
                0 <= i < self.watched_since(channel).len() ==> (#[trigger] self.watched_since(
                    channel,
                )[i]) <= self@.history.len(),
            self.calls(channel) == crate::observers::calls_of(
                self@.history,
                self.watched_since(channel),
                channel,
            ),
            self.added(channel).len() == self.watched_since(channel).len(),
            self.watchers(channel).len() == self.watched_since(channel).len(),
            forall|i: int|
                0 <= i < self.watchers(channel).len() ==> crate::observers::listened(
                    self.added(channel)[i],
                    crate::observers::heard(self.calls(channel), i as nat),
                    #[trigger] self.watchers(channel)[i],
                ),
    {
    }

    /// The transport of a conductor has carried exactly the messages that the
    /// run published, in the order they were published, after those it had
    /// carried before.
    pub proof fn lemma_all_carried(&self)
        requires
            self.wf(),
        ensures
            self.transport().wf(),
            self.transport().mail() == self@.mail,
            self.transport().comes_from(&self.brought()),
            self.transport().carried() == self.brought().carried() + crate::world::published_in(
                self@.history,
            ),
    {
    }

    /// Whether two conductors have the same configuration, the same clock and
    /// the same observers, and no step was timed between them.
    closed spec fn same_setup(&self, other: &Self) -> bool {
        &&& self.same_rig(other)
        &&& self.stopwatch@ == other.stopwatch@
    }

    /// Whether two conductors have the same configuration, the same clock and
    /// the same observers.
    closed spec fn same_rig(&self, other: &Self) -> bool {
        &&& self.config == other.config
        &&& self.brought == other.brought
        &&& self.pacer == other.pacer
        &&& self.free_clock == other.free_clock
        &&& self.tick_observers.since() == other.tick_observers.since()
        &&& self.membership_observers.since() == other.membership_observers.since()
        &&& self.observation_observers.since() == other.observation_observers.since()
        &&& self.tick_observers.first() == other.tick_observers.first()
        &&& self.membership_observers.first() == other.membership_observers.first()
        &&& self.observation_observers.first() == other.observation_observers.first()
    }

    /// Whether the same observers watch two conductors, over a transport that
    /// was the same before the run.
    pub open spec fn same_watch(&self, other: &Self) -> bool {
        &&& self.brought() == other.brought()
        &&& forall|channel: Channel| #[trigger]
            self.watched_since(channel) == other.watched_since(channel)
        &&& forall|channel: Channel| #[trigger] self.added(channel) == other.added(channel)
    }

    /// Whether all that two conductors differ in is what was handed out, and
    /// what was told of it.
    closed spec fn same_but_history(&self, other: &Self) -> bool {
        &&& self.same_setup(other)
        &&& self.transport == other.transport
        &&& self.registry == other.registry
        &&& self.schedule == other.schedule
        &&& self.leaves == other.leaves
        &&& self.joins == other.joins
        &&& self.sim_time == other.sim_time
        &&& self.tick == other.tick
        &&& self.world_hash == other.world_hash
    }

    /// A conductor at sim time zero with nobody registered.
    ///
    /// The clock times steps, and in 1x real-time mode gates each instant to
    /// wall time; pacing never affects what happens in an instant.
    pub fn new(config: ConductorConfig, transport: T, clock: C) -> (conductor: Result<
        Self,
        ConductorError,
    >)
        requires
            transport.wf(),
        ensures
            conductor matches Ok(made) && made.wf() && made@ == crate::world::fresh_world(
                config.world_name@,
                config.world_seed,
                transport.mail(),
            ) && (forall|channel: Channel| #[trigger]
                made.watched_since(channel).len() == 0) && (forall|channel: Channel| #[trigger]
                made.added(channel).len() == 0) && made.transport() == transport
                && made.brought() == transport && made.clock() == clock
                && made.moments() == Seq::<Moment>::empty() && made.cast()
                == (CastModel { slots: Seq::<Option<K>>::empty(), waiting: Seq::<K>::empty() })
                && made.pace() == (match config.pacing {
                Pacing::FreeRun => None::<PacerModel>,
                Pacing::RealTime { .. } => Some(
                    PacerModel { anchor: None, overrun_reanchors: 0, total_slip_nanos: 0 },
                ),
            }),
    {
        let (pacer, free_clock): (Option<Pacer<C>>, Option<C>) = match config.pacing {
            Pacing::FreeRun => (None, Some(clock)),
            Pacing::RealTime { .. } => (Some(Pacer::new(clock)), None),
        };
        let world_hash: u64 = mix_seeds(
            config.world_seed,
            hash_bytes(config.world_name.as_str().as_bytes()),
        );
        let brought: Ghost<T> = Ghost(transport);
        proof {
            transport.lemma_comes_from_itself();
        }
        let conductor = Conductor {
            config,
            transport,
            registry: Registry::new(),
            schedule: Schedule::new(),
            pacer,
            free_clock,
            leaves: Queue::new(),
            joins: Queue::new(),
            sim_time: SimTime::zero(),
            tick: 0,
            world_hash,
            tick_observers: Observers::new(),
            membership_observers: Observers::new(),
            observation_observers: Observers::new(),
            stopwatch: Stopwatch::new(),
            brought,
            history: Ghost(Seq::empty()),
        };
        proof {
            assert(transport.carried() + Seq::<MessageModel>::empty() =~= transport.carried());
            assert(conductor.registry@.entries.len() == 0);
            assert(conductor.joins@.len() == 0);
            assert(conductor.cast() =~= CastModel {
                slots: Seq::<Option<K>>::empty(),
                waiting: Seq::<K>::empty(),
            });
            assert(conductor@ =~= crate::world::fresh_world(
                config.world_name@,
                config.world_seed,
                transport.mail(),
            ));
            crate::coherence::lemma_fresh(
                config.world_name@,
                config.world_seed,
                transport.mail(),
            );
        }
        Ok(conductor)
    }

    /// The current running determinism fingerprint. Two runs of the same
    /// seeded scenario agree on this value at every tick.
    pub fn world_hash(&self) -> (hash: u64)
        ensures
            hash == self@.world_hash,
    {
        self.world_hash
    }

    /// The world's name.
    pub fn world_name(&self) -> (name: &str)
        ensures
            name@ == self@.name,
    {
        self.config.world_name.as_str()
    }

    /// The instant that was stepped last, or the opening one.
    pub fn sim_time(&self) -> (time: SimTime)
        ensures
            time == self@.sim_time,
    {
        self.sim_time
    }

    /// Total ticks so far: each instant with due components is one.
    pub fn tick(&self) -> (tick: u64)
        ensures
            tick == self@.tick,
    {
        self.tick
    }

    /// Adds an observer that is told of every tick. Observers accumulate:
    /// every one added is told, in the order they were added, and adding one
    /// never displaces another.
    pub fn add_tick_callback(&mut self, callback: O)
        requires
            old(self).wf(),
        ensures
            final(self).wf(),
            final(self).stage() == old(self).stage(),
            watch_added(old(self), final(self), Channel::Tick, callback),
    {
        self.tick_observers.add(callback, Ghost(self.history@), Ghost(Channel::Tick));
        proof {
            assert(self@ =~= old(self)@);
        }
    }

    /// Adds an observer that is told of every component that joins or leaves.
    /// Accumulates like [`Self::add_tick_callback`].
    pub fn add_membership_callback(&mut self, callback: O)
        requires
            old(self).wf(),
        ensures
            final(self).wf(),
            final(self).stage() == old(self).stage(),
            watch_added(old(self), final(self), Channel::Membership, callback),
    {
        self.membership_observers.add(callback, Ghost(self.history@), Ghost(Channel::Membership));
        proof {
            assert(self@ =~= old(self)@);
        }
    }

    /// Adds an observer that is told of everything the machine did rather
    /// than the run. Accumulates like [`Self::add_tick_callback`].
    pub fn add_observation_callback(&mut self, callback: O)
        requires
            old(self).wf(),
        ensures
            final(self).wf(),
            final(self).stage() == old(self).stage(),
            watch_added(old(self), final(self), Channel::Observation, callback),
    {
        self.observation_observers.add(
            callback,
            Ghost(self.history@),
            Ghost(Channel::Observation),
        );
        proof {
            assert(self@ =~= old(self)@);
        }
    }

    /// Tells every observer of its channel what happened.
    fn emit(&mut self, effect: Effect)
        requires
            old(self).all_told(),
        ensures
            final(self).all_told(),
            final(self).same_but_history(old(self)),
            final(self).history@ == old(self).history@.push(effect@),
    {
        let ghost before = self.history@;
        proof {
            self.lemma_passed_by(effect@);
        }
        match &effect {
            Effect::Membership(_) => {
                self.membership_observers.emit(
                    &effect,
                    Ghost(before),
                    Ghost(Channel::Membership),
                );
            },
            Effect::Observation(_) => {
                self.observation_observers.emit(
                    &effect,
                    Ghost(before),
                    Ghost(Channel::Observation),
                );
            },
            _ => {
                self.tick_observers.emit(&effect, Ghost(before), Ghost(Channel::Tick));
            },
        }
        proof {
            self.history@ = before.push(effect@);
        }
    }

    /// The channels that something is not for have been told all there is for
    /// them, and a message that is published is one more to carry.
    proof fn lemma_passed_by(&self, effect: EffectModel)
        requires
            self.all_told(),
        ensures
            ({
                let longer = self.history@.push(effect);
                let channel = crate::observers::channel_of(effect);
                &&& self.brought@.carried() + crate::world::published_in(longer) == (match effect {
                    EffectModel::Publish(message) => self.transport.carried().push(message),
                    _ => self.transport.carried(),
                })
                &&& channel != Some(Channel::Tick) ==> self.tick_observers.fits(
                    longer,
                    Channel::Tick,
                )
                &&& channel != Some(Channel::Membership) ==> self.membership_observers.fits(
                    longer,
                    Channel::Membership,
                )
                &&& channel != Some(Channel::Observation) ==> self.observation_observers.fits(
                    longer,
                    Channel::Observation,
                )
            }),
    {
        let history = self.history@;
        let channel = crate::observers::channel_of(effect);
        crate::world::lemma_published_on(history, effect);
        if effect is Publish {
            let message = effect->Publish_0;
            let carried = self.brought@.carried();
            assert(carried + crate::world::published_in(history).push(message)
                =~= self.transport.carried().push(message));
        }
        if channel != Some(Channel::Tick) {
            self.tick_observers.lemma_passed_by(history, effect, Channel::Tick);
        }
        if channel != Some(Channel::Membership) {
            self.membership_observers.lemma_passed_by(history, effect, Channel::Membership);
        }
        if channel != Some(Channel::Observation) {
            self.observation_observers.lemma_passed_by(history, effect, Channel::Observation);
        }
    }

    /// The earliest scheduled due time, if anything remains scheduled.
    pub fn next_scheduled(&self) -> (due: Option<SimTime>)
        ensures
            match due {
                Some(t) => crate::schedule::earliest_of(self@.schedule) == Some(t.0),
                None => crate::schedule::earliest_of(self@.schedule) is None,
            },
    {
        self.schedule.earliest()
    }

    /// The earliest instant the run has to reach: a scheduled step, or the
    /// first step of a join that waits for it. This lets callers drive
    /// [`Self::step_once`] themselves.
    pub fn next_due_instant(&self) -> (due: Option<SimTime>)
        ensures
            match due {
                Some(t) => crate::world::next_due(self@) == Some(t.0),
                None => crate::world::next_due(self@) is None,
            },
    {
        match (self.schedule.earliest(), self.joins.earliest()) {
            (Some(scheduled), Some(joining)) => if joining.0 < scheduled.0 {
                Some(joining)
            } else {
                Some(scheduled)
            },
            (Some(scheduled), None) => Some(scheduled),
            (None, joining) => joining,
        }
    }

    /// How many times the run fell far enough behind real time that the
    /// wall-clock anchor slipped; always 0 in free-run.
    pub fn overrun_reanchor_count(&self) -> (count: u64)
        ensures
            count == (match self.pace() {
                Some(pace) => pace.overrun_reanchors,
                None => 0,
            }),
    {
        match &self.pacer {
            Some(pacer) => pacer.overrun_reanchor_count(),
            None => 0,
        }
    }

    /// Total wall-clock time the run has permanently fallen behind real time;
    /// zero in free-run.
    pub fn total_slip(&self) -> (slip: WallDuration)
        ensures
            slip.nanos == (match self.pace() {
                Some(pace) => pace.total_slip_nanos,
                None => 0,
            }),
    {
        match &self.pacer {
            Some(pacer) => pacer.total_slip(),
            None => WallDuration::zero(),
        }
    }

    /// How many of a component's steps have run over the wall-clock budget it
    /// declared; `None` if nothing is registered at `path`. Counted against
    /// the live component, so it resets if a path is vacated and reoccupied.
    pub fn budget_misses(&self, path: &ComponentPath) -> (misses: Option<u64>)
        requires
            self.wf(),
        ensures
            match misses {
                Some(count) => crate::registry::is_registered(self@.registry.entries, path@)
                    && count == self@.registry.entries[crate::registry::slot_of(
                    self@.registry.entries,
                    path@,
                )]->0.budget_misses,
                None => !crate::registry::is_registered(self@.registry.entries, path@),
            },
    {
        match self.registry.index_of(path) {
            Some(index) => match self.registry.entry(index) {
                Some(entry) => Some(entry.budget_misses),
                None => None,
            },
            None => None,
        }
    }

    /// The earliest instant that membership can still change for.
    fn earliest_open_instant(&self) -> (time: SimTime)
        requires
            self@.tick == 0 || self@.sim_time.0 < i64::MAX,
        ensures
            time.0 == crate::world::earliest_open(self@),
    {
        if self.tick == 0 {
            self.sim_time
        } else {
            self.sim_time + SimDuration::from_nanos(1)
        }
    }

    /// Withdraws the first join that waits for `path`, if one does.
    fn withdraw(&mut self, path: &ComponentPath)
        requires
            old(self).wf(),
        ensures
            final(self).wf(),
            final(self)@ == crate::world::withdrawn(old(self)@, path@),
            !crate::registry::is_registered(old(self)@.registry.entries, path@)
                ==> final(self).cast() == crate::stage::cast_gone(
                old(self).cast(),
                old(self)@,
                path@,
            ),
            final(self).same_setup(old(self)),
    {
        let mut i: usize = 0;
        proof {
            crate::coherence::lemma_withdrawn(self@, path@);
            assert(self.joins@.skip(0) =~= self.joins@);
        }
        while i < self.joins.len()
            invariant
                *self == *old(self),
                old(self).wf(),
                crate::coherence::coherent(crate::world::withdrawn(old(self)@, path@)),
                0 <= i <= self.joins@.len(),
                crate::world::join_place(self.joins@, path@) == i + crate::world::join_place(
                    self.joins@.skip(i as int),
                    path@,
                ),
            decreases self.joins@.len() - i,
        {
            proof {
                let rest = self.joins@.skip(i as int);
                assert(rest[0] == self.joins@[i as int]);
                assert(rest.drop_first() =~= self.joins@.skip(i + 1));
            }
            let waiting = self.joins.item(i);
            let waiting_path = waiting.parent_path.join(waiting.id.clone());
            if waiting_path == *path {
                let _ = self.joins.take_out(i);
                proof {
                    assert(self@ =~= crate::world::withdrawn(old(self)@, path@));
                    assert(self.cast().waiting =~= old(self).cast().waiting.remove(i as int));
                }
                return;
            }
            i += 1;
        }
    }

    /// Deregisters the component at `path` and announces it, or withdraws a
    /// join that waits for the path where nobody is registered. The one place
    /// a leave takes effect, whichever route asked for it.
    fn apply_leave(&mut self, path: &ComponentPath, leaves_at: SimTime)
        requires
            old(self).wf(),
        ensures
            final(self).wf(),
            final(self)@ == crate::world::gone(old(self)@, path@, leaves_at.0),
            final(self).cast() == crate::stage::cast_gone(old(self).cast(), old(self)@, path@),
            final(self).same_setup(old(self)),
    {
        proof {
            crate::coherence::lemma_gone(self@, path@, leaves_at.0);
        }
        match self.registry.remove(path) {
            Some(index) => {
                self.schedule.remove_index(index);
                self.transport.unsubscribe(path);
                self.emit(
                    Effect::Membership(
                        MembershipChange::Left(
                            RecordedLeave { path: path.to_string(), leaves_at },
                        ),
                    ),
                );
                proof {
                    assert(self@ =~= crate::world::left(old(self)@, path@, leaves_at.0));
                    assert(self.cast().slots =~= old(self).cast().slots.update(
                        index as int,
                        None,
                    ));
                }
            },
            None => {
                proof {
                    assert(self@ =~= old(self)@);
                    assert(self.cast() =~= old(self).cast());
                }
                self.withdraw(path);
            },
        }
    }

    /// Whether the leave at the front of the queue has come due.
    fn leave_is_due(&self, limit: SimTime) -> (due: bool)
        ensures
            due == crate::world::leave_is_due(self@, limit.0),
    {
        match (self.leaves.earliest(), self.next_due_instant()) {
            (Some(leaves_at), Some(next)) => next.0 <= limit.0 && leaves_at.0 <= next.0,
            _ => false,
        }
    }

    /// Applies every leave that has come due, in declared order. Called at
    /// the tick boundary, before anything steps, so a component that has left
    /// takes no part in the instant it left at.
    fn apply_due_leaves(&mut self, limit: SimTime)
        requires
            old(self).wf(),
        ensures
            final(self).wf(),
            final(self)@ == crate::world::settled(old(self)@, limit.0),
            final(self).cast() == crate::stage::cast_settled(
                old(self).cast(),
                old(self)@,
                limit.0,
            ),
            final(self).same_setup(old(self)),
    {
        while self.leave_is_due(limit)
            invariant
                self.wf(),
                crate::world::settled(self@, limit.0) == crate::world::settled(
                    old(self)@,
                    limit.0,
                ),
                crate::stage::cast_settled(self.cast(), self@, limit.0)
                    == crate::stage::cast_settled(old(self).cast(), old(self)@, limit.0),
                self.same_setup(old(self)),
            decreases self@.leaves.len(),
        {
            let ghost before = self@;
            let ghost cast = self.cast();
            proof {
                crate::coherence::lemma_front_gone(self@);
                assert(self@.leaves.remove(0) =~= self@.leaves.drop_first());
            }
            let (leaves_at, path) = self.leaves.take_out(0);
            proof {
                let rest = WorldModel { leaves: before.leaves.drop_first(), ..before };
                assert(self@ =~= rest);
                assert(self.cast() == cast);
                crate::queue::lemma_taken_out(before.leaves, 0);
                crate::coherence::lemma_leave_queued(before, rest.leaves);
            }
            self.apply_leave(&path, SimTime(leaves_at));
            proof {
                assert(self@ == crate::world::front_gone(before));
            }
        }
    }
}

impl<K: Component, T: Transport, O: Observer, C: WallClock> Conductor<K, T, O, C> {
    /// Registers a component, subscribes it, schedules its first step, and
    /// announces it; or says why it cannot be, and leaves no trace.
    fn register(&mut self, first_due: SimTime, join: PendingJoin<K>) -> (done: Result<
        ComponentPath,
        ConductorError,
    >)
        requires
            old(self).wf(),
            first_due.0 >= crate::world::earliest_open(old(self)@),
        ensures
            final(self).wf(),
            final(self).same_setup(old(self)),
            ({
                let next = crate::world::admission(old(self)@, first_due.0, join@);
                &&& final(self)@ == next.world
                &&& match done {
                    Ok(path) => next.error is None && path@ == join@.path,
                    Err(error) => next.error == Some(error@),
                }
            }),
            final(self).cast() == crate::stage::cast_admission(
                old(self).cast(),
                old(self)@,
                join@.path,
                join.component,
            ),
    {
        let PendingJoin { parent_path, id, timing, subscriptions, component } = join;
        let ghost keys = crate::keyexpr::key_texts(subscriptions@);
        let ghost before = self@;
        let (index, path) = match self.registry.add(
            &parent_path,
            id,
            component,
            self.config.world_seed,
            timing,
        ) {
            Ok(added) => added,
            Err(error) => {
                proof {
                    assert(self@ =~= before);
                    assert(self.cast() =~= old(self).cast());
                }
                return Err(error);
            },
        };
        // The slots fit the machine, so the new one does.
        let slots: usize = self.registry.entries.len();
        proof {
            assert(self.registry@.entries.len() == slots);
            assert(self.registry@.entries.len() == before.registry.entries.len() + 1);
            crate::coherence::lemma_joined(before, first_due.0, join@);
        }
        let mut rest = subscriptions;
        let ghost entries = self.registry.entries@;
        proof {
            assert(crate::registry::components(entries) =~= old(self).cast().slots.push(
                Some(join.component),
            ));
            assert(keys.take(0) =~= Seq::<Seq<char>>::empty());
            assert(crate::keyexpr::key_texts(rest@) =~= keys.skip(0));
        }
        let ghost mut handed: int = 0;
        while rest.len() > 0
            invariant
                0 <= handed,
                handed + rest@.len() == keys.len(),
                crate::keyexpr::key_texts(rest@) == keys.skip(handed),
                self.registry@ == crate::registry::added(
                    before.registry,
                    path@,
                    before.seed,
                    timing,
                ),
                self.registry.wf(),
                self.registry.entries@ == entries,
                self.schedule == old(self).schedule,
                self.leaves == old(self).leaves,
                self.joins == old(self).joins,
                self.sim_time == old(self).sim_time,
                self.tick == old(self).tick,
                self.world_hash == old(self).world_hash,
                self.same_setup(old(self)),
                self.all_told(),
                self.history == old(self).history,
                self.transport.wf(),
                self.transport.mail() == crate::transport::all_subscribed(
                    before.mail,
                    path@,
                    keys.take(handed),
                ),
            decreases rest@.len(),
        {
            let ghost rest_before = rest@;
            let key = rest.remove(0);
            proof {
                assert(crate::keyexpr::key_texts(rest_before)[0] == keys[handed]);
                assert(crate::keyexpr::key_texts(rest@) =~= crate::keyexpr::key_texts(
                    rest_before,
                ).drop_first());
                assert(crate::keyexpr::key_texts(rest@) =~= keys.skip(handed + 1));
            }
            self.transport.subscribe(path.clone(), key);
            proof {
                assert(keys.take(handed + 1).drop_last() =~= keys.take(handed));
                assert(keys.take(handed + 1).last() == key@);
                handed = handed + 1;
            }
        }
        proof {
            assert(keys.take(handed) =~= keys);
        }
        self.schedule.insert(first_due, index);
        self.emit(Effect::Membership(
                MembershipChange::Joined(RecordedJoin { path: path.to_string(), first_due }),
            ),
        );
        proof {
            assert(self@ =~= crate::world::joined(before, first_due.0, join@));
        }
        Ok(path)
    }

    /// Admits every join for no later than `instant`, in the order they were
    /// asked for.
    fn admit_due_joins(&mut self, instant: SimTime) -> (done: Result<(), ConductorError>)
        requires
            old(self).wf(),
        ensures
            final(self).wf(),
            final(self).same_setup(old(self)),
            ({
                let next = crate::world::admitted(old(self)@, instant.0);
                &&& final(self)@ == next.world
                &&& match done {
                    Ok(_) => next.error is None,
                    Err(error) => next.error == Some(error@),
                }
            }),
            final(self).cast() == crate::stage::cast_admitted(
                old(self).cast(),
                old(self)@,
                instant.0,
            ),
    {
        while self.joins.len() > 0 && self.joins.items[0].0 <= instant.0
            invariant
                self.wf(),
                crate::world::admitted(self@, instant.0) == crate::world::admitted(
                    old(self)@,
                    instant.0,
                ),
                crate::stage::cast_admitted(self.cast(), self@, instant.0)
                    == crate::stage::cast_admitted(old(self).cast(), old(self)@, instant.0),
                self.same_setup(old(self)),
            decreases self@.joins.len(),
        {
            let ghost before = self@;
            let ghost cast = self.cast();
            let ghost rest = WorldModel { joins: before.joins.drop_first(), ..before };
            proof {
                crate::coherence::lemma_front_join_taken(self@);
                assert(self@.joins.remove(0) =~= self@.joins.drop_first());
                assert(before.joins[0].0 >= crate::world::earliest_open(before));
                assert(crate::world::earliest_open(rest) == crate::world::earliest_open(before));
            }
            let (first_due, join) = self.joins.take_out(0);
            proof {
                assert(self@ =~= rest);
                assert(join.component == cast.waiting[0]);
                assert(self.cast() =~= CastModel {
                    waiting: cast.waiting.drop_first(),
                    ..cast
                });
            }
            match self.register(SimTime(first_due), join) {
                Ok(_) => {},
                Err(error) => {
                    return Err(error);
                },
            }
        }
        Ok(())
    }

    /// Queues a join for an instant that is not the next open one, and notes
    /// that it was asked for.
    fn queue_join(&mut self, first_due: SimTime, join: PendingJoin<K>, path: &ComponentPath)
        requires
            old(self).wf(),
            first_due.0 > crate::world::earliest_open(old(self)@),
            path@ == join@.path,
        ensures
            final(self).wf(),
            final(self).same_setup(old(self)),
            final(self)@ == crate::world::accepted_join(old(self)@, first_due, join@).world,
            final(self).cast() == (CastModel {
                waiting: old(self).cast().waiting.insert(
                    crate::queue::not_later(old(self)@.joins, first_due.0) as int,
                    join.component,
                ),
                ..old(self).cast()
            }),
    {
        let ghost before = self@;
        let ghost place = crate::queue::not_later(before.joins, first_due.0) as int;
        let ghost waiting = self.cast().waiting;
        proof {
            crate::queue::lemma_not_later(before.joins, first_due.0);
        }
        self.joins.enqueue(first_due, join);
        proof {
            assert(self.cast().waiting =~= waiting.insert(place, join.component));
        }
        self.emit(Effect::Observation(
                RecordedObservation::JoinRequested(
                    RecordedJoinRequest { path: path.to_string(), first_due },
                ),
            ),
        );
        proof {
            assert(self@ =~= crate::world::accepted_join(before, first_due, join@).world);
            crate::coherence::lemma_join_queued(before, first_due.0, join@, self@.history);
        }
    }

    /// Admits a component. Pass a [`JoinMetadata`] to say when a newcomer to
    /// a running world first steps.
    ///
    /// Sibling order is arrival order, which fixes both the execution order
    /// within an instant and the "earlier sibling" of the visibility rule. A
    /// component that joins mid-run is therefore the newest sibling of
    /// whatever it joins.
    ///
    /// A join for a later instant waits for it: the component is registered,
    /// subscribed and announced at the boundary before its first step, so
    /// that the run is the same whenever the request was made.
    pub fn add_component(&mut self, join: JoinMetadata, component: K) -> (path: Result<
        ComponentPath,
        ConductorError,
    >)
        requires
            old(self).wf(),
            old(self)@.tick == 0 || old(self)@.sim_time.0 < i64::MAX,
        ensures
            final(self).wf(),
            final(self).pace() == old(self).pace(),
            final(self).clock() == old(self).clock(),
            final(self).moments() == old(self).moments(),
            final(self).same_watch(old(self)),
            exists|id: ComponentId, keys: Vec<KeyExpr>|
                #![trigger introduces(component, id, keys)]
                introduces(component, id, keys) && answers_join(
                    crate::world::join_request(
                        old(self)@,
                        join.parent_path@,
                        join.first_due,
                        join.timing,
                        id@,
                        crate::keyexpr::key_texts(keys@),
                    ),
                    final(self)@,
                    path,
                ),
            final(self).cast() == crate::stage::cast_after_join(
                old(self).cast(),
                old(self)@,
                join.first_due,
                component,
                join_answer(path),
            ),
    {
        let id = component.id();
        let subscriptions = component.subscriptions();
        proof {
            assert(introduces(component, id, subscriptions));
        }
        self.add_named_component(join, id, subscriptions, component)
    }

    /// Admits a component under a name and with subscriptions that are given
    /// beside it.
    pub fn add_named_component(
        &mut self,
        join: JoinMetadata,
        id: ComponentId,
        subscriptions: Vec<KeyExpr>,
        component: K,
    ) -> (path: Result<ComponentPath, ConductorError>)
        requires
            old(self).wf(),
            old(self)@.tick == 0 || old(self)@.sim_time.0 < i64::MAX,
        ensures
            final(self).wf(),
            final(self).pace() == old(self).pace(),
            final(self).clock() == old(self).clock(),
            final(self).moments() == old(self).moments(),
            final(self).same_watch(old(self)),
            answers_join(
                crate::world::join_request(
                    old(self)@,
                    join.parent_path@,
                    join.first_due,
                    join.timing,
                    id@,
                    crate::keyexpr::key_texts(subscriptions@),
                ),
                final(self)@,
                path,
            ),
            final(self).cast() == crate::stage::cast_after_join(
                old(self).cast(),
                old(self)@,
                join.first_due,
                component,
                join_answer(path),
            ),
    {
        let parent_path = match ComponentPath::parse(join.parent_path.as_str()) {
            Ok(parent_path) => parent_path,
            Err(error) => {
                return Err(ConductorError::Core(error));
            },
        };
        // Validate before touching anything, so a rejected join leaves no
        // trace: no half-registered entry, no stray subscriptions.
        let earliest_open = self.earliest_open_instant();
        if join.first_due.0 < earliest_open.0 {
            return Err(
                ConductorError::JoinInThePast {
                    path: parent_path.join(id),
                    first_due: join.first_due,
                    earliest_open,
                },
            );
        }
        match join.timing.unreachable_budget() {
            Some((budget, timeout)) => {
                return Err(
                    ConductorError::UnreachableStepBudget {
                        path: parent_path.join(id),
                        budget,
                        timeout,
                    },
                );
            },
            None => {},
        }
        let first_due = join.first_due;
        let path = parent_path.join(id.clone());
        let pending = PendingJoin {
            parent_path,
            id,
            timing: join.timing,
            subscriptions,
            component,
        };
        if first_due.0 == earliest_open.0 {
            return self.register(first_due, pending);
        }
        self.queue_join(first_due, pending, &path);
        Ok(path)
    }

    /// Admits a component that first steps at sim time zero, before the run
    /// starts.
    pub fn add_component_at_start(&mut self, parent_path: &str, component: K) -> (path: Result<
        ComponentPath,
        ConductorError,
    >)
        requires
            old(self).wf(),
            old(self)@.tick == 0 || old(self)@.sim_time.0 < i64::MAX,
        ensures
            final(self).wf(),
            final(self).pace() == old(self).pace(),
            final(self).clock() == old(self).clock(),
            final(self).moments() == old(self).moments(),
            final(self).same_watch(old(self)),
            exists|id: ComponentId, keys: Vec<KeyExpr>|
                #![trigger introduces(component, id, keys)]
                introduces(component, id, keys) && answers_join(
                    crate::world::join_request(
                        old(self)@,
                        parent_path@,
                        SimTime(0),
                        StepTiming { budget: None, timeout: None, on_timeout: OnTimeout::Halt },
                        id@,
                        crate::keyexpr::key_texts(keys@),
                    ),
                    final(self)@,
                    path,
                ),
            final(self).cast() == crate::stage::cast_after_join(
                old(self).cast(),
                old(self)@,
                SimTime(0),
                component,
                join_answer(path),
            ),
    {
        self.add_component(JoinMetadata::at_start(parent_path), component)
    }

    /// The paths that joins wait for at or under `path`.
    fn promised(&self, path: &ComponentPath) -> (found: Vec<ComponentPath>)
        ensures
            crate::registry::path_models(found@) == crate::world::promised(self@.joins, path@),
    {
        let mut found: Vec<ComponentPath> = Vec::new();
        let mut i: usize = 0;
        let ghost all = self.joins@;
        proof {
            assert(crate::registry::path_models(found@) =~= crate::world::promised(
                all.take(0),
                path@,
            ));
        }
        while i < self.joins.len()
            invariant
                all == self.joins@,
                0 <= i <= all.len(),
                crate::registry::path_models(found@) == crate::world::promised(
                    all.take(i as int),
                    path@,
                ),
            decreases all.len() - i,
        {
            proof {
                assert(all.take(i + 1).drop_last() =~= all.take(i as int));
                assert(all.take(i + 1).last() == all[i as int]);
            }
            let waiting = self.joins.item(i);
            let waiting_path = waiting.parent_path.join(waiting.id.clone());
            if path.len() <= waiting_path.len() && waiting_path.prefix(path.len()) == *path {
                let ghost before = found@;
                found.push(waiting_path);
                proof {
                    assert(crate::registry::path_models(found@) =~= crate::registry::path_models(
                        before,
                    ).push(waiting_path@));
                }
            }
            i += 1;
        }
        proof {
            assert(all.take(i as int) =~= all);
        }
        found
    }

    /// Who departs when `path` is asked to leave.
    fn departing(&self, path: &ComponentPath) -> (who: Vec<ComponentPath>)
        requires
            self.wf(),
        ensures
            crate::registry::path_models(who@) == crate::world::departing(self@, path@),
    {
        // Checking for a registered leaf first means a leaf always wins: a
        // path cannot be both, since registering refuses to make a leaf into
        // a composite or the reverse.
        if self.registry.index_of(path).is_some() {
            let who = vec![path.clone()];
            proof {
                assert(crate::registry::path_models(who@) =~= seq![path@]);
            }
            return who;
        }
        let mut who = self.registry.components_under(path);
        let mut promised = self.promised(path);
        let ghost first = who@;
        let ghost second = promised@;
        who.append(&mut promised);
        proof {
            assert(crate::registry::path_models(who@) =~= crate::registry::path_models(first)
                + crate::registry::path_models(second));
        }
        who
    }

    /// Removes a component. Pass a [`LeaveMetadata`] to name the instant it
    /// stops at, or none to stop it at this tick boundary.
    ///
    /// Survivors are untouched: their declaration indexes do not shift. The
    /// path becomes free again; a later component may take it and arrives as
    /// a new sibling.
    ///
    /// A composite's path takes its whole subtree, and the joins it was still
    /// promised. One leave per leaf is announced, never one for the
    /// composite, in the order those components step in.
    pub fn remove_component(&mut self, leave: LeaveMetadata) -> (done: Result<(), ConductorError>)
        requires
            old(self).wf(),
            old(self)@.tick == 0 || old(self)@.sim_time.0 < i64::MAX,
        ensures
            final(self).wf(),
            final(self).pace() == old(self).pace(),
            final(self).clock() == old(self).clock(),
            final(self).moments() == old(self).moments(),
            final(self).same_watch(old(self)),
            ({
                let answer = crate::world::leave_request(
                    old(self)@,
                    leave.path@,
                    leave.leaves_at,
                );
                &&& final(self)@ == answer.world
                &&& answer_model(done, ()) == answer.answer
            }),
            final(self).cast() == (if done is Ok {
                crate::stage::cast_after_leave(
                    old(self).cast(),
                    old(self)@,
                    leave.path@,
                    leave.leaves_at,
                )
            } else {
                old(self).cast()
            }),
    {
        let path = match ComponentPath::parse(leave.path.as_str()) {
            Ok(path) => path,
            Err(error) => {
                return Err(ConductorError::Core(error));
            },
        };
        let who = self.departing(&path);
        let ghost paths = crate::registry::path_models(who@);
        if who.len() == 0 {
            return Err(ConductorError::UnknownPath(path));
        }
        let earliest_open = self.earliest_open_instant();
        let LeaveMetadata { path: asked, leaves_at } = leave;
        match leaves_at {
            Some(time) => if time.0 < earliest_open.0 {
                // The instant it would stop at has already been stepped, so
                // the component has already done work this leave claims it
                // did not. Refuse rather than silently apply it late.
                proof {
                    assert(paths[0] == who@[0]@);
                }
                return Err(
                    ConductorError::LeaveInThePast {
                        path: who[0].clone(),
                        leaves_at: time,
                        earliest_open,
                    },
                );
            },
            None => {},
        }
        let ghost before = self@;
        self.emit(Effect::Observation(
                RecordedObservation::LeaveRequested(
                    RecordedLeaveRequest { path: asked, leaves_at },
                ),
            ),
        );
        let ghost noted = self@;
        proof {
            crate::coherence::lemma_told(before, noted.history);
            assert(noted =~= crate::world::leave_noted(before, asked@, leaves_at));
            assert(paths.take(0) =~= Seq::<Seq<Seq<char>>>::empty());
        }
        let mut i: usize = 0;
        match leaves_at {
            None => {
                // Unnamed: stop them at the earliest instant still open, which
                // is now, so there is nothing to defer.
                while i < who.len()
                    invariant
                        self.wf(),
                        self.same_setup(old(self)),
                        paths == crate::registry::path_models(who@),
                        0 <= i <= who@.len(),
                        self@ == crate::world::all_gone(
                            noted,
                            paths.take(i as int),
                            earliest_open.0,
                        ),
                        self.cast() == crate::stage::cast_all_gone(
                            old(self).cast(),
                            noted,
                            paths.take(i as int),
                            earliest_open.0,
                        ),
                    decreases who@.len() - i,
                {
                    proof {
                        assert(paths.take(i + 1).drop_last() =~= paths.take(i as int));
                        assert(paths.take(i + 1).last() == who@[i as int]@);
                    }
                    self.apply_leave(&who[i], earliest_open);
                    i += 1;
                }
            },
            Some(time) => {
                // Queued in declaration order, so the leaves come out in the
                // order the components would have stepped.
                while i < who.len()
                    invariant
                        self.wf(),
                        self.same_setup(old(self)),
                        paths == crate::registry::path_models(who@),
                        0 <= i <= who@.len(),
                        self.cast() == old(self).cast(),
                        self@ == (WorldModel {
                            leaves: crate::world::all_queued(
                                noted.leaves,
                                time.0,
                                paths.take(i as int),
                            ),
                            ..noted
                        }),
                    decreases who@.len() - i,
                {
                    proof {
                        assert(paths.take(i + 1).drop_last() =~= paths.take(i as int));
                        assert(paths.take(i + 1).last() == who@[i as int]@);
                    }
                    let ghost earlier = self@;
                    self.leaves.enqueue(time, who[i].clone());
                    proof {
                        assert(self@ =~= WorldModel { leaves: self@.leaves, ..earlier });
                        crate::coherence::lemma_leave_queued(earlier, self@.leaves);
                    }
                    i += 1;
                }
            },
        }
        proof {
            assert(paths.take(i as int) =~= paths);
        }
        Ok(())
    }

    /// Removes a component, or a composite whole, at this tick boundary.
    pub fn remove_component_now(&mut self, path: &str) -> (done: Result<(), ConductorError>)
        requires
            old(self).wf(),
            old(self)@.tick == 0 || old(self)@.sim_time.0 < i64::MAX,
        ensures
            final(self).wf(),
            final(self).pace() == old(self).pace(),
            final(self).clock() == old(self).clock(),
            final(self).moments() == old(self).moments(),
            final(self).same_watch(old(self)),
            ({
                let answer = crate::world::leave_request(old(self)@, path@, None);
                &&& final(self)@ == answer.world
                &&& answer_model(done, ()) == answer.answer
            }),
            final(self).cast() == (if done is Ok {
                crate::stage::cast_after_leave(old(self).cast(), old(self)@, path@, None)
            } else {
                old(self).cast()
            }),
    {
        self.remove_component(LeaveMetadata::now(path))
    }
}

/// Whether a component says that it goes by a name and asks for some keys.
pub open spec fn introduces<K: Component>(
    component: K,
    id: ComponentId,
    keys: Vec<KeyExpr>,
) -> bool {
    call_ensures(K::id, (&component,), id) && call_ensures(K::subscriptions, (&component,), keys)
}

/// Whether a join request was answered with a path or an error, and led to a
/// world.
pub open spec fn answers_join(
    answer: crate::world::Answer<Seq<Seq<char>>>,
    world: WorldModel,
    path: Result<ComponentPath, ConductorError>,
) -> bool {
    &&& world == answer.world
    &&& answer.answer == join_answer(path)
}

/// The answer to a join request as a model.
pub open spec fn join_answer(path: Result<ComponentPath, ConductorError>) -> Result<
    Seq<Seq<char>>,
    ConductorErrorModel,
> {
    match path {
        Ok(found) => Ok(found@),
        Err(error) => Err(error@),
    }
}

/// Absorbs eight bytes behind what a hash has absorbed.
fn absorb_u64(hasher: &mut HashFnv1a64, value: u64, Ghost(done): Ghost<Seq<u8>>)
    requires
        old(hasher).0 == crate::hash::hash_of(done),
    ensures
        final(hasher).0 == crate::hash::hash_of(done + crate::hash::le_bytes(value)),
{
    hasher.write_u64(value);
    proof {
        crate::hash::law_incremental_equals_one_shot(
            crate::hash::FNV_OFFSET_BASIS,
            done,
            crate::hash::le_bytes(value),
        );
    }
}

/// Absorbs a variable-length field, its length first, behind what a hash has
/// absorbed.
fn absorb_field(hasher: &mut HashFnv1a64, bytes: &[u8], Ghost(done): Ghost<Seq<u8>>)
    requires
        old(hasher).0 == crate::hash::hash_of(done),
    ensures
        final(hasher).0 == crate::hash::hash_of(done + crate::world::field(bytes@)),
{
    let len: usize = bytes.len();
    absorb_u64(hasher, len as u64, Ghost(done));
    hasher.write(bytes);
    proof {
        let prefix = done + crate::hash::le_bytes(len as u64);
        crate::hash::law_incremental_equals_one_shot(
            crate::hash::FNV_OFFSET_BASIS,
            prefix,
            bytes@,
        );
        assert(prefix + bytes@ =~= done + crate::world::field(bytes@));
    }
}

/// A component's exposed state as bytes.
pub open spec fn exposed_bytes(state: Option<Vec<u8>>) -> Option<Seq<u8>> {
    match state {
        Some(held) => Some(held@),
        None => None,
    }
}

/// The time between two readings of a clock, or none where it ran backwards.
fn wall_between(started: i64, ended: i64) -> (took: WallDuration)
    ensures
        took.nanos == (if ended >= started {
            ended - started
        } else {
            0
        }),
{
    if ended >= started {
        WallDuration { nanos: (ended as i128 - started as i128) as u128 }
    } else {
        WallDuration::zero()
    }
}

/// The clock of a pacer, or the one there is without a pacer.
spec fn clock_of<C: WallClock>(pacer: Option<Pacer<C>>, free_clock: Option<C>) -> C {
    match pacer {
        Some(pacer) => pacer.clock,
        None => free_clock->0,
    }
}

/// What the wall clock reads, by the stopwatch.
fn read_clock<C: WallClock>(
    stopwatch: &mut Stopwatch,
    pacer: &Option<Pacer<C>>,
    free_clock: &Option<C>,
) -> (nanos: i64)
    requires
        pacer is Some || free_clock is Some,
    ensures
        call_ensures(C::elapsed_nanos, (&clock_of(*pacer, *free_clock),), nanos),
        final(stopwatch)@ == old(stopwatch)@.push(Moment::Read(nanos)),
{
    match (pacer, free_clock) {
        (Some(pacer), _) => stopwatch.read(&pacer.clock),
        (None, Some(clock)) => stopwatch.read(clock),
        (None, None) => 0,
    }
}

/// Publishes a message, and notes that it was.
fn send<T: Transport>(transport: &mut T, history: &mut Ghost<Seq<EffectModel>>, message: &Message)
    requires
        old(transport).wf(),
    ensures
        final(transport).wf(),
        final(transport).mail() == crate::transport::all_delivered(
            old(transport).mail(),
            message@,
        ),
        final(transport).carried() == old(transport).carried().push(message@),
        forall|first: T| #[trigger]
            old(transport).comes_from(&first) ==> final(transport).comes_from(&first),
        final(history)@ == old(history)@.push(EffectModel::Publish(message@)),
{
    proof {
        history@ = history@.push(EffectModel::Publish(message@));
    }
    transport.publish(message);
}

/// Asks a component to step, and notes what it was told.
fn ask<'a, K: Component>(
    registry: &mut Registry<K>,
    stopwatch: &mut Stopwatch,
    history: &mut Ghost<Seq<EffectModel>>,
    index: usize,
    shown: StepCtx<'a>,
) -> (taken: (Result<SimTime, CoreError>, StepCtx<'a>))
    requires
        old(registry).wf(),
        index < old(registry)@.entries.len(),
        old(registry)@.entries[index as int] is Some,
    ensures
        final(registry).wf(),
        final(registry)@ == old(registry)@,
        final(registry).tree == old(registry).tree,
        final(history)@ == old(history)@.push(
            EffectModel::Step(
                crate::stopwatch::told_to(old(registry)@.entries[index as int]->0.path, shown@),
            ),
        ),
        crate::component::took_step(
            old(registry).entries@[index as int]->0.component,
            shown,
            taken.0,
            final(registry).entries@[index as int]->0.component,
            taken.1,
        ),
        final(stopwatch)@ == old(stopwatch)@.push(
            Moment::Asked(
                crate::stopwatch::told_to(old(registry)@.entries[index as int]->0.path, shown@),
            ),
        ),
        final(registry).entries@ == old(registry).entries@.update(
            index as int,
            final(registry).entries@[index as int],
        ),
{
    proof {
        history@ = history@.push(
            EffectModel::Step(
                crate::stopwatch::told_to(registry@.entries[index as int]->0.path, shown@),
            ),
        );
    }
    registry.step_component(stopwatch, index, shown)
}

impl<K: Component, T: Transport, O: Observer, C: WallClock> Conductor<K, T, O, C> {
    /// Publishes what a step queued, stamping each message with its
    /// publisher, its number, and the instant, and absorbing it into the
    /// instant's fingerprint. Returns the number of the next message.
    ///
    /// The conductor rather than the component stamps messages, so that
    /// components cannot misattribute or reorder their own traffic, which the
    /// delivery order depends on.
    fn publish_outbox(
        &mut self,
        path: &ComponentPath,
        first_seq: u64,
        outbox: Vec<(KeyExpr, Vec<u8>)>,
        hasher: &mut HashFnv1a64,
        Ghost(done): Ghost<Seq<u8>>,
    ) -> (next_seq: u64)
        requires
            old(self).all_told(),
            old(self).transport.wf(),
            old(hasher).0 == crate::hash::hash_of(done),
        ensures
            next_seq == first_seq.wrapping_add(outbox@.len() as u64),
            final(hasher).0 == crate::hash::hash_of(
                done + crate::world::outbox_bytes(
                    first_seq,
                    crate::component::outbox_model(outbox@),
                ),
            ),
            final(self).registry == old(self).registry,
            final(self).schedule == old(self).schedule,
            final(self).leaves == old(self).leaves,
            final(self).joins == old(self).joins,
            final(self).sim_time == old(self).sim_time,
            final(self).tick == old(self).tick,
            final(self).world_hash == old(self).world_hash,
            final(self).same_setup(old(self)),
            final(self).all_told(),
            final(self).transport.wf(),
            ({
                let messages = crate::world::stamped(
                    path@,
                    old(self).sim_time,
                    first_seq,
                    crate::component::outbox_model(outbox@),
                );
                &&& final(self).history@ == old(self).history@ + crate::world::publishes(messages)
                &&& final(self).transport.mail() == crate::transport::all_published(
                    old(self).transport.mail(),
                    messages,
                )
            }),
    {
        let now = self.sim_time;
        let total: usize = outbox.len();
        let ghost all = crate::component::outbox_model(outbox@);
        let ghost history = self.history@;
        let ghost mail = self.transport.mail();
        let ghost messages = crate::world::stamped(path@, now, first_seq, all);
        let mut rest = outbox;
        let mut seq: u64 = first_seq;
        let ghost mut sent: int = 0;
        proof {
            assert(all.take(0) =~= Seq::<(Seq<char>, Seq<u8>)>::empty());
            assert(all.skip(0) =~= all);
            assert(done + crate::world::outbox_bytes(first_seq, all.take(0)) =~= done);
            assert(messages.take(0) =~= Seq::<MessageModel>::empty());
            assert(history + crate::world::publishes(messages.take(0)) =~= history);
        }
        while rest.len() > 0
            invariant
                0 <= sent,
                sent + rest@.len() == total,
                total == all.len(),
                crate::component::outbox_model(rest@) == all.skip(sent),
                seq == first_seq.wrapping_add(sent as u64),
                hasher.0 == crate::hash::hash_of(
                    done + crate::world::outbox_bytes(first_seq, all.take(sent)),
                ),
                self.registry == old(self).registry,
                self.schedule == old(self).schedule,
                self.leaves == old(self).leaves,
                self.joins == old(self).joins,
                self.sim_time == old(self).sim_time,
                self.sim_time == now,
                self.tick == old(self).tick,
                self.world_hash == old(self).world_hash,
                self.same_setup(old(self)),
                self.all_told(),
                self.transport.wf(),
                messages == crate::world::stamped(path@, now, first_seq, all),
                self.history@ == history + crate::world::publishes(messages.take(sent)),
                self.transport.mail() == crate::transport::all_published(
                    mail,
                    messages.take(sent),
                ),
            decreases rest@.len(),
        {
            let ghost rest_before = rest@;
            let (key, payload) = rest.remove(0);
            let ghost bytes = done + crate::world::outbox_bytes(first_seq, all.take(sent));
            proof {
                assert(crate::component::outbox_model(rest_before)[0] == all[sent]);
                assert(crate::component::outbox_model(rest@) =~= crate::component::outbox_model(
                    rest_before,
                ).drop_first());
                assert(crate::component::outbox_model(rest@) =~= all.skip(sent + 1));
                assert(all.take(sent + 1).drop_last() =~= all.take(sent));
                assert(all.take(sent + 1).last() == all[sent]);
            }
            let key_bytes = key.as_str().as_bytes();
            absorb_field(hasher, key_bytes, Ghost(bytes));
            let ghost with_key = bytes + crate::world::field(key_bytes@);
            absorb_u64(hasher, seq, Ghost(with_key));
            let ghost with_seq = with_key + crate::hash::le_bytes(seq);
            absorb_field(hasher, payload.as_slice(), Ghost(with_seq));
            proof {
                assert(with_seq + crate::world::field(payload@) =~= done
                    + crate::world::outbox_bytes(first_seq, all.take(sent + 1)));
            }
            let message = Message {
                key,
                publisher: path.clone(),
                seq,
                sim_time: now,
                payload,
            };
            proof {
                assert(message@ == messages[sent]);
                assert(messages.take(sent + 1).drop_last() =~= messages.take(sent));
                assert(messages.take(sent + 1).last() == message@);
                assert(history + crate::world::publishes(messages.take(sent + 1)) =~= (history
                    + crate::world::publishes(messages.take(sent))).push(
                    EffectModel::Publish(message@),
                ));
                self.lemma_passed_by(EffectModel::Publish(message@));
            }
            send(&mut self.transport, &mut self.history, &message);
            proof {
                sent = sent + 1;
            }
            seq = seq.wrapping_add(1);
        }
        proof {
            assert(all.take(sent) =~= all);
            assert(messages.take(sent) =~= messages);
        }
        seq
    }

    /// Judges how long a component's own step took against the budget it
    /// declared. Soft: it counts the miss, says so, and nothing else about
    /// the run changes.
    fn judge_step_budget(&mut self, index: usize, path: &ComponentPath, step: WallDuration)
        requires
            old(self).wf(),
            crate::coherence::is_live(old(self)@.registry.entries, index as int),
            path@ == old(self)@.registry.entries[index as int]->0.path,
            old(self)@.registry.entries[index as int]->0.budget_misses < old(self)@.tick,
        ensures
            final(self).wf(),
            final(self).same_setup(old(self)),
            final(self)@ == crate::world::budget_judged(old(self)@, index, step),
            final(self).cast() == old(self).cast(),
    {
        let timing = match self.registry.entry(index) {
            Some(entry) => entry.timing,
            None => StepTiming::unlimited(),
        };
        if !timing.over_budget(step) {
            return;
        }
        let budget = match timing.budget {
            Some(budget) => budget,
            None => WallDuration::zero(),
        };
        proof {
            crate::coherence::lemma_budget_judged(self@, index, step);
        }
        self.registry.count_miss(index);
        self.emit(Effect::Observation(
                RecordedObservation::BudgetMissed(
                    RecordedBudgetMiss {
                        path: path.to_string(),
                        sim_time: self.sim_time,
                        step,
                        budget,
                    },
                ),
            ),
        );
        proof {
            assert(self@ =~= crate::world::budget_judged(old(self)@, index, step));
        }
    }

    /// Judges how long the conductor waited to hear that a component had
    /// stepped against the timeout it declared. Hard: the declared policy
    /// either ends the run or takes the component out of the next tick.
    /// Neither touches this one.
    fn judge_step_timeout(
        &mut self,
        index: usize,
        path: &ComponentPath,
        waited: WallDuration,
    ) -> (done: Result<(), ConductorError>)
        requires
            old(self).wf(),
            crate::coherence::is_live(old(self)@.registry.entries, index as int),
            path@ == old(self)@.registry.entries[index as int]->0.path,
            old(self)@.sim_time.0 < i64::MAX,
        ensures
            final(self).wf(),
            final(self).same_setup(old(self)),
            ({
                let judged = crate::world::timeout_judged(old(self)@, index, waited);
                &&& final(self)@ == judged.world
                &&& match done {
                    Ok(_) => judged.error is None,
                    Err(error) => judged.error == Some(error@),
                }
            }),
            final(self).cast() == old(self).cast(),
    {
        let timing = match self.registry.entry(index) {
            Some(entry) => entry.timing,
            None => StepTiming::unlimited(),
        };
        if !timing.over_timeout(waited) {
            return Ok(());
        }
        let timeout = match timing.timeout {
            Some(timeout) => timeout,
            None => WallDuration::zero(),
        };
        proof {
            crate::coherence::lemma_timeout_judged(self@, index, waited);
        }
        // Record why, before the policy is applied. The leave a removal
        // produces is deliberately indistinguishable from a scripted one;
        // this observation is what carries the reason.
        self.emit(Effect::Observation(
                RecordedObservation::TimedOut(
                    RecordedTimeout {
                        path: path.to_string(),
                        sim_time: self.sim_time,
                        waited,
                        timeout,
                        policy: timing.on_timeout,
                    },
                ),
            ),
        );
        let done = match timing.on_timeout {
            OnTimeout::Halt => Err(
                ConductorError::StepTimeout {
                    path: path.clone(),
                    now: self.sim_time,
                    elapsed: waited,
                    timeout,
                },
            ),
            OnTimeout::Remove => {
                // Queue it exactly as a leave declared for the next open
                // instant, so it goes out through the one path that removes a
                // component, and is recorded like any other leave.
                let leaves_at = self.earliest_open_instant();
                self.leaves.enqueue(leaves_at, path.clone());
                Ok(())
            },
        };
        proof {
            assert(self@ =~= crate::world::timeout_judged(old(self)@, index, waited).world);
        }
        done
    }

    /// Applies what a component replied when it was asked to step: an error
    /// or an instant that is not later stops the world with nothing applied;
    /// otherwise its messages are published, its step is booked and absorbed
    /// into the instant's fingerprint, and it is held against the wall time it
    /// declared.
    fn apply_reply(
        &mut self,
        index: usize,
        outcome: Result<SimTime, CoreError>,
        outbox: Vec<(KeyExpr, Vec<u8>)>,
        state: Option<Vec<u8>>,
        took: WallDuration,
        hasher: &mut HashFnv1a64,
        Ghost(bytes): Ghost<Seq<u8>>,
    ) -> (done: Result<(), ConductorError>)
        requires
            old(self).wf(),
            old(self)@.tick > 0,
            crate::coherence::is_live(old(self)@.registry.entries, index as int),
            old(self)@.registry.entries[index as int]->0.budget_misses < old(self)@.tick,
            old(hasher).0 == crate::hash::hash_of(bytes),
        ensures
            final(self).wf(),
            final(self).same_setup(old(self)),
            final(self).cast() == old(self).cast(),
            ({
                let t = crate::world::applied(
                    TickModel { world: old(self)@, bytes, error: None },
                    index,
                    ReplyModel {
                        outcome,
                        outbox: crate::component::outbox_model(outbox@),
                        state: exposed_bytes(state),
                        took,
                    },
                );
                &&& final(self)@ == t.world
                &&& match done {
                    Ok(_) => t.error is None && final(hasher).0 == crate::hash::hash_of(t.bytes),
                    Err(error) => t.error == Some(error@),
                }
            }),
    {
        let now = self.sim_time;
        let ghost before = self@;
        let ghost slot = before.registry.entries[index as int]->0;
        let ghost published = crate::component::outbox_model(outbox@);
        proof {
            assert(crate::coherence::in_time(
                before.registry.entries[index as int]->0,
                before.sim_time,
                before.tick,
            ));
            assert(slot.path.len() > 0);
        }
        let (path, first_seq): (ComponentPath, u64) = match self.registry.entry(index) {
            Some(entry) => (entry.path.clone(), entry.next_seq),
            None => (ComponentPath::root(), 0),
        };
        // A component saying it cannot do its job halts the world before its
        // outbox is applied, so a failed step publishes nothing.
        let next_due = match outcome {
            Ok(next_due) => next_due,
            Err(source) => {
                return Err(ConductorError::StepFailed { path, now, source });
            },
        };
        // A schedule violation always halts, whatever the timeout policy
        // says: it is a pure function of the component's logic and the sim
        // state, so it reproduces exactly.
        if next_due.0 <= now.0 {
            return Err(ConductorError::ScheduleViolation { path, now, next_due });
        }
        let path_text = path.to_string();
        let path_bytes = path_text.as_str().as_bytes();
        absorb_field(hasher, path_bytes, Ghost(bytes));
        let ghost with_path = bytes + crate::world::field(path_bytes@);
        absorb_u64(hasher, next_due.0 as u64, Ghost(with_path));
        let ghost with_due = with_path + crate::hash::le_bytes(next_due.0 as u64);
        let next_seq: u64 = self.publish_outbox(&path, first_seq, outbox, hasher, Ghost(with_due));
        let ghost with_outbox = with_due + crate::world::outbox_bytes(first_seq, published);
        // Components exposing internal state have it fingerprinted; the rest
        // are covered by what they published.
        let ghost exposed = exposed_bytes(state);
        match &state {
            Some(held) => {
                absorb_field(hasher, held.as_slice(), Ghost(with_outbox));
            },
            None => {},
        }
        self.registry.book_step(index, now, next_seq);
        self.schedule.insert(next_due, index);
        let last: usize = path.len() - 1;
        self.emit(Effect::TickDone(
                TickDone {
                    tick: self.tick,
                    component_id: path.segment(last).clone(),
                    next_due,
                },
            ),
        );
        proof {
            let booked = crate::world::step_booked(before, index, next_due, published);
            assert(self@ =~= booked);
            crate::coherence::lemma_step_booked(before, index, next_due, published);
            assert(with_outbox + crate::world::state_field(exposed) =~= bytes
                + crate::world::step_bytes(slot.path, next_due, first_seq, published, exposed));
            assert(with_outbox + Seq::<u8>::empty() =~= with_outbox);
            assert(self.cast() =~= old(self).cast());
        }
        // Both levels are judged, not just the worse one: they read different
        // quantities that happen to be one measurement here. The soft one
        // goes first, so a run that is about to halt still records what it
        // observed.
        self.judge_step_budget(index, &path, took);
        self.judge_step_timeout(index, &path, took)
    }

    /// Steps one component that is due, and applies what its step did.
    /// Returns what the component replied, beside what came of it.
    fn step_component(
        &mut self,
        index: usize,
        hasher: &mut HashFnv1a64,
        Ghost(bytes): Ghost<Seq<u8>>,
    ) -> (done: (Result<(), ConductorError>, Ghost<ReplyModel>))
        requires
            old(self).wf(),
            old(self)@.tick > 0,
            crate::coherence::is_live(old(self)@.registry.entries, index as int),
            old(self)@.registry.entries[index as int]->0.budget_misses < old(self)@.tick,
            old(hasher).0 == crate::hash::hash_of(bytes),
        ensures
            final(self).wf(),
            final(self).same_rig(old(self)),
            old(self).moments().is_prefix_of(final(self).moments()),
            ({
                let t = crate::world::stepped(
                    TickModel { world: old(self)@, bytes, error: None },
                    index,
                    done.1@,
                );
                &&& final(self)@ == t.world
                &&& match done.0 {
                    Ok(_) => t.error is None && final(hasher).0 == crate::hash::hash_of(t.bytes),
                    Err(error) => t.error == Some(error@),
                }
            }),
            ({
                let slots = old(self).cast().slots;
                let after = final(self).cast().slots;
                &&& final(self).cast().waiting == old(self).cast().waiting
                &&& index < slots.len()
                &&& slots[index as int] is Some
                &&& after[index as int] is Some
                &&& after == slots.update(index as int, after[index as int])
                &&& crate::stage::replied(
                    slots[index as int]->0,
                    crate::world::call_of(old(self)@, index),
                    old(self).clock(),
                    crate::stopwatch::since(old(self).moments(), final(self).moments()),
                    done.1@,
                    after[index as int]->0,
                )
            }),
    {
        let now = self.sim_time;
        let ghost before = self@;
        let ghost cast = self.cast();
        let ghost moments = self.moments();
        let ghost slot = before.registry.entries[index as int]->0;
        proof {
            assert(crate::coherence::in_time(
                before.registry.entries[index as int]->0,
                before.sim_time,
                before.tick,
            ));
        }
        let (path, last_step, component_seed): (ComponentPath, Option<SimTime>, u64) =
            match self.registry.entry(index) {
            Some(entry) => (entry.path.clone(), entry.last_step, entry.component_seed),
            None => (ComponentPath::root(), None, 0),
        };
        let dt = match last_step {
            Some(prev) => Some(now - prev),
            None => None,
        };
        // The visibility rule: everything published before this instant is
        // released; same-instant messages only from an earlier-ordered
        // sibling branch within the same composite.
        let inbox = {
            let rule = ReleaseRule::new(&self.registry.tree, now, &path);
            self.transport.drain(&path, &rule)
        };
        let shown = StepCtx::new(
            now,
            dt,
            self.config.world_name.as_str(),
            component_seed,
            inbox,
        );
        let ghost call = crate::world::call_of(before, index);
        // In-process one duration answers both declared levels, because the
        // conductor's wait for a call is the call.
        proof {
            assert(crate::stopwatch::told_to(slot.path, shown@) =~= call);
            self.lemma_passed_by(EffectModel::Step(crate::stopwatch::told_to(slot.path, shown@)));
        }
        let started: i64 = read_clock(&mut self.stopwatch, &self.pacer, &self.free_clock);
        let (outcome, mut ctx) = ask(
            &mut self.registry,
            &mut self.stopwatch,
            &mut self.history,
            index,
            shown,
        );
        let ended: i64 = read_clock(&mut self.stopwatch, &self.pacer, &self.free_clock);
        let took = wall_between(started, ended);
        let ghost done_ctx = ctx;
        let outbox = ctx.take_outbox();
        let ghost published = crate::component::outbox_model(outbox@);
        let ghost called = crate::world::asked(before, index);
        let ghost after = self.registry.entries@[index as int]->0.component;
        // Only a step that did what it should is asked for the state it left.
        let advances = match &outcome {
            Ok(next_due) => next_due.0 > now.0,
            Err(_) => false,
        };
        let state = if advances {
            self.registry.component_state(index)
        } else {
            None
        };
        let ghost reply = ReplyModel {
            outcome,
            outbox: published,
            state: exposed_bytes(state),
            took,
        };
        proof {
            assert(self@ =~= called);
            crate::coherence::lemma_asked(before, index);
            assert(self.cast().slots =~= cast.slots.update(index as int, Some(after)));
            assert(crate::stopwatch::since(moments, self.moments()) =~= seq![
                Moment::Read(started),
                Moment::Asked(call),
                Moment::Read(ended),
            ]);
            assert(crate::stage::timed(
                self.clock(),
                call,
                crate::stopwatch::since(moments, self.moments()),
                took,
            ));
            if advances {
                assert(crate::stage::exposes(after, reply.state));
            }
            assert(crate::stage::replies_within(
                cast.slots[index as int]->0,
                call,
                reply,
                after,
                shown,
                done_ctx,
            ));
        }
        let done = self.apply_reply(index, outcome, outbox, state, took, hasher, Ghost(bytes));
        (done, Ghost(reply))
    }
}

impl<K: Component, T: Transport, O: Observer, C: WallClock> Conductor<K, T, O, C> {
    /// Steps the instant at the front of the schedule: every component due at
    /// it, in declaration order.
    #[verifier::rlimit(40)]
    fn step_instant(&mut self, now: SimTime, due: Vec<usize>, Ghost(ready): Ghost<WorldModel>) -> (
        done: Result<bool, ConductorError>)
        requires
            old(self).wf(),
            crate::coherence::coherent(ready),
            ready.schedule.len() > 0,
            ready.joins.len() > 0 ==> ready.joins[0].0 > ready.schedule[0].0,
            due@ == crate::schedule::due_first(ready.schedule),
            old(self)@ == crate::world::opened(ready).world,
            now == old(self)@.sim_time,
        ensures
            final(self).wf(),
            final(self).same_rig(old(self)),
            final(self)@.tick == old(self)@.tick,
            final(self)@.sim_time == old(self)@.sim_time,
            old(self).moments().is_prefix_of(final(self).moments()),
            exists|replies: Seq<ReplyModel>, casts: Seq<Seq<Option<K>>>|
                {
                    &&& #[trigger] crate::stage::ticks_with(
                        ready,
                        old(self).cast().slots,
                        old(self).clock(),
                        crate::stopwatch::since(old(self).moments(), final(self).moments()),
                        replies,
                        casts,
                        final(self)@,
                        answer_model(done, true),
                    )
                    &&& final(self).cast() == (CastModel {
                        slots: casts.last(),
                        ..old(self).cast()
                    })
                },
            done is Ok ==> done == Ok::<bool, ConductorError>(true),
    {
        // Covers, in declaration order, every stepped component's path,
        // next-due time, published bytes, and internal state where exposed.
        let mut hasher = HashFnv1a64::new();
        let ghost start = crate::world::opened(ready);
        proof {
            crate::coherence::lemma_opened(ready);
            crate::schedule::law_earliest_instant(ready.schedule);
            assert(crate::hash::hash_of(Seq::empty()) == crate::hash::FNV_OFFSET_BASIS);
        }
        absorb_u64(&mut hasher, self.tick, Ghost(Seq::empty()));
        let ghost with_tick = Seq::<u8>::empty() + crate::hash::le_bytes(self.tick);
        absorb_u64(&mut hasher, now.0 as u64, Ghost(with_tick));
        let ghost mut t = start;
        let ghost mut replies: Seq<ReplyModel> = Seq::empty();
        let ghost mut casts: Seq<Seq<Option<K>>> = seq![self.cast().slots];
        let ghost mut noted: Seq<Moment> = Seq::empty();
        proof {
            assert(crate::world::tick_outcome(ready, replies) == start) by {
                let all = crate::schedule::due_first(ready.schedule);
                assert(all.take(0) =~= Seq::<usize>::empty());
            }
            assert(with_tick + crate::hash::le_bytes(now.0 as u64) =~= start.bytes);
            assert(due@.take(0) =~= Seq::<usize>::empty());
        }
        let mut i: usize = 0;
        while i < due.len()
            invariant
                self.wf(),
                self.same_rig(old(self)),
                self.moments() == old(self).moments() + noted,
                self@ == t.world,
                self@.tick == old(self)@.tick,
                self@.tick > 0,
                self@.sim_time == old(self)@.sim_time,
                0 <= i <= due@.len(),
                due@ == crate::schedule::due_first(ready.schedule),
                start == crate::world::opened(ready),
                replies.len() == i,
                t == crate::world::all_stepped(start, due@.take(i as int), replies),
                t == crate::world::tick_outcome(ready, replies),
                t.error is None,
                casts.len() == i + 1,
                casts[0] == old(self).cast().slots,
                self.cast() == (CastModel { slots: casts.last(), ..old(self).cast() }),
                crate::stage::played(ready, old(self).clock(), noted, replies, casts),
                hasher.0 == crate::hash::hash_of(t.bytes),
                forall|j: int, k: int|
                    0 <= j < k < due@.len() ==> #[trigger] due@[j] < #[trigger] due@[k],
                forall|j: int|
                    i <= j < due@.len() ==> crate::coherence::is_live(
                        self@.registry.entries,
                        #[trigger] due@[j] as int,
                    ) && self@.registry.entries[due@[j] as int]->0.budget_misses < self@.tick,
            decreases due@.len() - i,
        {
            let index: usize = due[i];
            let ghost before = t;
            let ghost moments = self.moments();
            let (stepped, reply) = self.step_component(index, &mut hasher, Ghost(before.bytes));
            proof {
                assert(before == TickModel {
                    world: before.world,
                    bytes: before.bytes,
                    error: None,
                });
                crate::coherence::lemma_stepped(before, index, reply@);
                t = crate::world::stepped(before, index, reply@);
                let all = replies.push(reply@);
                assert(all.drop_last() =~= replies);
                assert(due@.take(i + 1).drop_last() =~= due@.take(i as int));
                assert(due@.take(i + 1).last() == index);
                assert(t == crate::world::all_stepped(start, due@.take(i + 1), all));
                crate::stage::lemma_played_on(
                    ready,
                    old(self).clock(),
                    noted,
                    replies,
                    casts,
                    crate::stopwatch::since(moments, self.moments()),
                    reply@,
                    self.cast().slots,
                );
                crate::stopwatch::lemma_since_on(
                    old(self).moments(),
                    noted,
                    moments,
                    self.moments(),
                );
                noted = noted + crate::stopwatch::since(moments, self.moments());
                casts = casts.push(self.cast().slots);
                replies = all;
            }
            match stepped {
                Ok(_) => {},
                Err(error) => {
                    proof {
                        assert(crate::stage::ticks_with(
                            ready,
                            old(self).cast().slots,
                            old(self).clock(),
                            noted,
                            replies,
                            casts,
                            self@,
                            Err::<bool, ConductorErrorModel>(error@),
                        ));
                    }
                    return Err(error);
                },
            }
            i += 1;
        }
        // Chain this tick into the running world hash and hand out the
        // fingerprint.
        let tick_hash: u64 = hasher.finish();
        let mut chain = HashFnv1a64::resume(self.world_hash);
        chain.write_u64(tick_hash);
        self.world_hash = chain.finish();
        let fingerprint = TickFingerprint {
            tick: self.tick,
            sim_time: now,
            tick_hash,
            world_hash: self.world_hash,
        };
        self.emit(Effect::Tick(fingerprint));
        proof {
            assert(due@.take(i as int) =~= due@);
            assert(self@ =~= crate::world::closed(t));
            assert(crate::stopwatch::since(old(self).moments(), self.moments()) =~= noted);
            crate::coherence::lemma_closed(t);
            assert(crate::stage::ticks_with(
                ready,
                old(self).cast().slots,
                old(self).clock(),
                noted,
                replies,
                casts,
                self@,
                Ok::<bool, ConductorErrorModel>(true),
            ));
        }
        Ok(true)
    }

    /// Advances to the earliest due instant and steps every component due at
    /// it, in declaration order. Returns `false` when nothing is due.
    ///
    /// Membership settles at the boundary before the instant, leaves first,
    /// and is frozen for the rest of the tick. A component that leaves at an
    /// instant takes no part in it, and an instant that a leave empties never
    /// becomes a tick.
    pub fn step_once(&mut self) -> (done: Result<bool, ConductorError>)
        requires
            old(self).wf(),
        ensures
            final(self).wf(),
            old(self).moments().is_prefix_of(final(self).moments()),
            crate::stage::advances_with(
                old(self)@,
                old(self).cast(),
                final(self).clock(),
                crate::stopwatch::since(old(self).moments(), final(self).moments()),
                final(self)@,
                final(self).cast(),
                step_answer(done),
            ),
            crate::world::advances(old(self)@, final(self)@, step_answer(done)),
            done == Ok::<bool, ConductorError>(true) ==> final(self)@.tick == old(self)@.tick + 1
                && final(self)@.sim_time.0 >= crate::world::earliest_open(old(self)@)
                && crate::world::next_due(crate::world::settled(old(self)@, i64::MAX)) == Some(
                final(self)@.sim_time.0,
            ),
            final(self).same_watch(old(self)),
            final(self)@.tick == old(self)@.tick ==> final(self).pace() == old(self).pace()
                && final(self).clock() == old(self).clock(),
            final(self)@.tick != old(self)@.tick ==> crate::stage::kept_pace(
                old(self).pace(),
                old(self).clock(),
                final(self).pace(),
                final(self).clock(),
                final(self)@.sim_time,
            ),
    {
        proof {
            reveal(crate::world::advances);
            reveal(crate::stage::advances_with);
            crate::coherence::lemma_settled(self@, i64::MAX);
        }
        self.apply_due_leaves(SimTime(i64::MAX));
        match self.next_due_instant() {
            Some(next) => {
                match self.admit_due_joins(next) {
                    Ok(_) => {},
                    Err(error) => {
                        proof {
                            crate::coherence::lemma_admitted_keeps_time(
                                crate::world::settled(old(self)@, i64::MAX),
                                next.0,
                            );
                        }
                        return Err(error);
                    },
                }
            },
            None => {},
        }
        let ghost ready = self@;
        proof {
            assert(ready == crate::world::boundary(old(self)@).world);
            assert(crate::world::boundary(old(self)@).error is None);
            assert(self.cast() == crate::stage::cast_boundary(old(self).cast(), old(self)@));
        }
        let (now, due) = match self.schedule.pop_earliest() {
            Some(popped) => popped,
            None => {
                proof {
                    assert(self@ =~= ready);
                    crate::coherence::lemma_admitted_keeps_time(
                        crate::world::settled(old(self)@, i64::MAX),
                        match crate::world::next_due(
                            crate::world::settled(old(self)@, i64::MAX),
                        ) {
                            Some(next) => next,
                            None => 0,
                        },
                    );
                }
                return Ok(false);
            },
        };
        proof {
            crate::coherence::law_membership_is_settled_before_an_instant(old(self)@);
            crate::coherence::lemma_opened(ready);
        }
        self.sim_time = now;
        self.tick = self.tick + 1;
        // In 1x real-time mode, wait for this instant's wall-clock target.
        // This only delays entry to the instant; it never changes what
        // happens in it.
        match self.pacer.take() {
            Some(pacer) => {
                let (kept, action) = keep_pace(pacer, now);
                self.pacer = Some(kept);
                proof {
                    let was = pacer.model();
                    assert(crate::pacing::pacer_with(pacer.clock, was) == pacer);
                    assert(crate::pacing::pacer_with(kept.clock, kept.model()) == kept);
                    assert(crate::pacing::keeps_pace(pacer, now, kept, action));
                }
            },
            None => {},
        }
        proof {
            assert(crate::stage::kept_pace(
                old(self).pace(),
                old(self).clock(),
                self.pace(),
                self.clock(),
                now,
            ));
        }
        self.emit(Effect::TickStart(TickStart { tick: self.tick, sim_time: now }),
        );
        proof {
            assert(self@ =~= crate::world::opened(ready).world);
        }
        let done = self.step_instant(now, due, Ghost(ready));
        done
    }

    /// Settles the leaves that have come due by `end`, and steps the next
    /// instant if it is no later than that. Returns whether it was.
    pub(crate) fn step_by(&mut self, end: SimTime) -> (done: Result<bool, ConductorError>)
        requires
            old(self).wf(),
        ensures
            final(self).wf(),
            final(self).same_watch(old(self)),
            ({
                let calm = crate::world::settled(old(self)@, end.0);
                let cast = crate::stage::cast_settled(old(self).cast(), old(self)@, end.0);
                match done {
                    Ok(false) => final(self).stage() == (StageModel {
                        world: calm,
                        cast,
                        ..old(self).stage()
                    }),
                    Ok(true) => crate::stage::stage_leads(
                        seq![old(self).stage(), final(self).stage()],
                        0,
                        end.0,
                    ),
                    Err(error) => crate::stage::stage_fails(
                        old(self).stage(),
                        end.0,
                        final(self).stage(),
                        error@,
                    ),
                }
            }),
            ({
                let calm = crate::world::settled(old(self)@, end.0);
                match done {
                    Ok(false) => final(self)@ == calm && crate::world::done_by(calm, end.0),
                    Ok(true) => !crate::world::done_by(calm, end.0) && crate::world::advances(
                        calm,
                        final(self)@,
                        Ok::<bool, ConductorErrorModel>(true),
                    ) && crate::world::earliest_open(old(self)@) < crate::world::earliest_open(
                        final(self)@,
                    ) <= end.0 + 1,
                    Err(error) => !crate::world::done_by(calm, end.0) && crate::world::advances(
                        calm,
                        final(self)@,
                        Err::<bool, ConductorErrorModel>(error@),
                    ),
                }
            }),
    {
        proof {
            crate::coherence::lemma_settled(self@, end.0);
        }
        self.apply_due_leaves(end);
        let due = match self.next_due_instant() {
            Some(next) => next.0 <= end.0,
            None => false,
        };
        if !due {
            return Ok(false);
        }
        let ghost calm = self@;
        proof {
            crate::coherence::lemma_next_due_is_open(calm);
            assert(!crate::world::leave_is_due(calm, i64::MAX));
            assert(crate::world::settled(calm, i64::MAX) == calm);
        }
        let done = self.step_once();
        proof {
            crate::coherence::lemma_due_means_a_tick(calm, self@, end.0);
            let pair = seq![old(self).stage(), self.stage()];
            assert(pair[0] == old(self).stage() && pair[1] == self.stage());
        }
        done
    }

    /// Runs until the earliest due instant would exceed `end` (inclusive: an
    /// instant exactly at `end` is executed).
    pub fn run_until(&mut self, end: SimTime) -> (done: Result<(), ConductorError>)
        requires
            old(self).wf(),
        ensures
            final(self).wf(),
            final(self).same_watch(old(self)),
            exists|stages: Seq<StageModel<K, C>>| #[trigger]
                crate::stage::runs_with(
                    old(self).stage(),
                    end.0,
                    stages,
                    final(self).stage(),
                    answer_model(done, ()),
                ),
            exists|worlds: Seq<WorldModel>| #[trigger]
                crate::world::runs_until(
                    old(self)@,
                    end.0,
                    worlds,
                    final(self)@,
                    answer_model(done, ()),
                ),
    {
        let ghost mut stages: Seq<StageModel<K, C>> = seq![self.stage()];
        loop
            invariant
                self.wf(),
                self.same_watch(old(self)),
                stages.len() > 0,
                stages[0] == old(self).stage(),
                stages.last() == self.stage(),
                forall|i: int|
                    0 <= i < stages.len() - 1 ==> #[trigger] crate::stage::stage_leads(
                        stages,
                        i,
                        end.0,
                    ),
            decreases end.0 - crate::world::earliest_open(self@) + 1,
        {
            match self.step_by(end) {
                Ok(true) => {
                    proof {
                        crate::stage::lemma_stages_on(stages, self.stage(), end.0);
                        stages = stages.push(self.stage());
                    }
                },
                Ok(false) => {
                    proof {
                        let outcome = Ok::<(), ConductorErrorModel>(());
                        assert(crate::stage::runs_with(
                            old(self).stage(),
                            end.0,
                            stages,
                            self.stage(),
                            outcome,
                        ));
                        crate::stage::lemma_runs(
                            old(self).stage(),
                            end.0,
                            stages,
                            self.stage(),
                            outcome,
                        );
                    }
                    return Ok(());
                },
                Err(error) => {
                    proof {
                        let outcome = Err::<(), ConductorErrorModel>(error@);
                        assert(crate::stage::runs_with(
                            old(self).stage(),
                            end.0,
                            stages,
                            self.stage(),
                            outcome,
                        ));
                        crate::stage::lemma_runs(
                            old(self).stage(),
                            end.0,
                            stages,
                            self.stage(),
                            outcome,
                        );
                    }
                    return Err(error);
                },
            }
        }
    }
}

/// A monitor that is layered on a conductor's transport is shown every message
/// that the run publishes and no other, in the order they are published,
/// whoever asked for it, after what it was shown before the run. What it is
/// now is what being shown all that made of what it was when it was layered
/// on.
pub proof fn law_a_monitor_is_shown_every_message<
    K: Component,
    T: Transport,
    M: Monitor,
    O: Observer,
    C: WallClock,
>(conductor: &Conductor<K, MonitorTransport<T, M>, O, C>)
    requires
        conductor.wf(),
    ensures
        conductor.transport().shown() == conductor.brought().shown() + crate::world::published_in(
            conductor@.history,
        ),
        crate::transport::looked_on(
            conductor.brought().first(),
            conductor.transport().shown(),
            conductor.transport().monitor(),
        ),
{
    conductor.lemma_all_carried();
    conductor.transport().lemma_shown_all();
}

} // verus!
