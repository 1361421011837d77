//! What a simulation component is, and what one step shows it.
use vstd::prelude::*;

use crate::error::CoreError;
use crate::finite::{may_hide_non_finite, NonFinite};
use crate::ids::ComponentId;
use crate::keyexpr::KeyExpr;
use crate::messages::Message;
use crate::random::RandomSplitMix64;
use crate::seed::derive_step_seed;
use crate::time::{SimDuration, SimTime};

verus! {

/// A simulation component: steps when due, reads its inbox, publishes
/// outputs, and reports the next sim time it should step.
///
/// Components are transport-blind and hierarchy-blind: the conductor decides
/// when `step` runs and what the inbox contains; components only see
/// [`StepCtx`].
pub trait Component {
    /// This component's name within its parent (one path segment).
    fn id(&self) -> ComponentId;

    /// Key expressions this component wants delivered to its inbox.
    fn subscriptions(&self) -> Vec<KeyExpr>;

    /// Advance internal state to `ctx.now()`. Returns the next sim time this
    /// component should step, which must be strictly greater than `ctx.now()`
    /// (the conductor enforces this to prevent zero-time livelock), or why
    /// the component cannot do its job, which halts the world.
    fn step(&mut self, ctx: &mut StepCtx) -> Result<SimTime, CoreError>;

    /// Canonical serialized internal state for the per-tick determinism
    /// check, or `None` (the default) if the component's state is opaque.
    ///
    /// Components returning `Some` have hidden internal state fingerprinted
    /// directly, so divergence is caught when it happens. Components
    /// returning `None` are covered by what they publish. Called after
    /// `step`, at most once per step.
    fn state_bytes(&self) -> (state: Option<Vec<u8>>)
        default_ensures
            state is None,
    {
        None
    }
}

/// Lets a component take one step with what it is shown: one call of its own
/// [`Component::step`], and what that call made of both.
pub fn take_step<'a, K: Component>(component: K, shown: StepCtx<'a>) -> (taken: (
    Result<SimTime, CoreError>,
    K,
    StepCtx<'a>,
))
    ensures
        exists|stepping: &mut K, ctx: &mut StepCtx<'a>|
            {
                &&& *stepping == component
                &&& *final(stepping) == taken.1
                &&& *ctx == shown
                &&& *final(ctx) == taken.2
                &&& #[trigger] call_ensures(K::step, (stepping, ctx), taken.0)
            },
{
    let mut after = component;
    let mut done = shown;
    let outcome = after.step(&mut done);
    let taken = (outcome, after, done);
    proof {
        let (stepping, ctx) = choose|stepping: &mut K, ctx: &mut StepCtx<'a>|
            {
                &&& *stepping == component
                &&& *final(stepping) == after
                &&& *ctx == shown
                &&& *final(ctx) == done
                &&& #[trigger] call_ensures(K::step, (stepping, ctx), outcome)
            };
        assert(call_ensures(K::step, (stepping, ctx), taken.0));
    }
    taken
}

/// Whether a component that is shown something can come to an outcome, and it
/// and what it was shown become what they are after: what [`take_step`] does
/// with them.
pub open spec fn took_step<'a, K: Component>(
    component: K,
    shown: StepCtx<'a>,
    outcome: Result<SimTime, CoreError>,
    after: K,
    done: StepCtx<'a>,
) -> bool {
    call_ensures(take_step::<K>, (component, shown), (outcome, after, done))
}

/// Everything a component may observe or do during one step.
pub struct StepCtx<'a> {
    now: SimTime,
    dt: Option<SimDuration>,
    world_name: &'a str,
    component_seed: u64,
    inbox: Vec<Message>,
    outbox: Vec<(KeyExpr, Vec<u8>)>,
}

/// What a [`StepCtx`] holds.
pub struct StepCtxModel {
    pub now: SimTime,
    pub dt: Option<SimDuration>,
    pub world_name: Seq<char>,
    pub component_seed: u64,
    pub inbox: Seq<Message>,
    pub outbox: Seq<(Seq<char>, Seq<u8>)>,
}

/// Queued publishes as key texts and payload bytes.
pub open spec fn outbox_model(outbox: Seq<(KeyExpr, Vec<u8>)>) -> Seq<(Seq<char>, Seq<u8>)> {
    outbox.map_values(|entry: (KeyExpr, Vec<u8>)| (entry.0@, entry.1@))
}

impl<'a> View for StepCtx<'a> {
    type V = StepCtxModel;

    closed spec fn view(&self) -> StepCtxModel {
        StepCtxModel {
            now: self.now,
            dt: self.dt,
            world_name: self.world_name@,
            component_seed: self.component_seed,
            inbox: self.inbox@,
            outbox: outbox_model(self.outbox@),
        }
    }
}

impl<'a> StepCtx<'a> {
    /// Constructed by whoever drives the conductor, or by a test driving a
    /// component directly. `component_seed` derives from the world seed and
    /// the component's path.
    pub fn new(
        now: SimTime,
        dt: Option<SimDuration>,
        world_name: &'a str,
        component_seed: u64,
        inbox: Vec<Message>,
    ) -> (ctx: Self)
        ensures
            ctx@.now == now,
            ctx@.dt == dt,
            ctx@.world_name == world_name@,
            ctx@.component_seed == component_seed,
            ctx@.inbox == inbox@,
            ctx@.outbox == Seq::<(Seq<char>, Seq<u8>)>::empty(),
    {
        let ctx = StepCtx { now, dt, world_name, component_seed, inbox, outbox: Vec::new() };
        proof {
            assert(ctx@.outbox =~= Seq::<(Seq<char>, Seq<u8>)>::empty());
        }
        ctx
    }

    /// This component's deterministic seed, stable for the whole run. Seed a
    /// stored [`RandomSplitMix64`] from it for a stream that persists across
    /// steps.
    pub fn component_seed(&self) -> (seed: u64)
        ensures
            seed == self@.component_seed,
    {
        self.component_seed
    }

    /// A fresh deterministic random stream for this component at this
    /// instant. It depends only on the component seed and the current sim
    /// time, so replays reproduce it exactly.
    pub fn step_random(&self) -> (stream: RandomSplitMix64)
        ensures
            stream.state == crate::seed::mixed(self@.component_seed, self@.now.0 as u64),
    {
        RandomSplitMix64::new(derive_step_seed(self.component_seed, self.now.as_nanos()))
    }

    /// Current sim time.
    pub fn now(&self) -> (now: SimTime)
        ensures
            now == self@.now,
    {
        self.now
    }

    /// Elapsed sim time since this component's previous step; `None` on its
    /// first step.
    pub fn dt(&self) -> (dt: Option<SimDuration>)
        ensures
            dt == self@.dt,
    {
        self.dt
    }

    /// The world name, for building key expressions.
    pub fn world_name(&self) -> (name: &str)
        ensures
            name@ == self@.world_name,
    {
        self.world_name
    }

    /// Messages released to this component for this step, sorted by
    /// `(publisher, seq)`.
    pub fn inbox(&self) -> (inbox: &[Message])
        ensures
            inbox@ == self@.inbox,
    {
        self.inbox.as_slice()
    }

    /// Publishes a serialized value on `key`, given what the serializer made
    /// of the value and the first non-finite float that a walk over it found.
    ///
    /// A value that did not serialize is refused with the serializer's words.
    /// A payload that holds a `null` is refused where the walk found a float
    /// that JSON cannot carry; a `null` that stands for a missing value, or
    /// inside a string, publishes like anything else. What is accepted is
    /// queued behind what was published before.
    pub fn publish(
        &mut self,
        key: KeyExpr,
        serialized: Result<Vec<u8>, String>,
        found: Option<NonFinite>,
    ) -> (done: Result<(), CoreError>)
        ensures
            match publish_outcome(serialized, found) {
                PublishOutcome::Queued(payload) => done is Ok && final(self)@ == (StepCtxModel {
                    outbox: old(self)@.outbox.push((key@, payload)),
                    ..old(self)@
                }),
                PublishOutcome::Unserializable(source) => final(self)@ == old(self)@
                    && (done matches Err(error)
                    && error matches CoreError::PayloadSerialize { key: named, source: said }
                    && named@ == key@ && said@ == source),
                PublishOutcome::NonFinite(text) => final(self)@ == old(self)@
                    && (done matches Err(error)
                    && error matches CoreError::NonFiniteFloat { key: named, found: said }
                    && named@ == key@ && said@ == text),
            },
    {
        let payload = match serialized {
            Ok(payload) => payload,
            Err(source) => {
                return Err(CoreError::PayloadSerialize { key: key.to_string(), source });
            },
        };
        if may_hide_non_finite(&payload) {
            match found {
                Some(non_finite) => {
                    return Err(
                        CoreError::NonFiniteFloat {
                            key: key.to_string(),
                            found: non_finite.to_string(),
                        },
                    );
                },
                None => {},
            }
        }
        self.outbox.push((key, payload));
        proof {
            assert(self@.outbox =~= old(self)@.outbox.push((key@, payload@)));
        }
        Ok(())
    }

    /// Drains the accumulated publishes, in the order they were made.
    pub fn take_outbox(&mut self) -> (outbox: Vec<(KeyExpr, Vec<u8>)>)
        ensures
            outbox_model(outbox@) == old(self)@.outbox,
            final(self)@ == (StepCtxModel { outbox: Seq::empty(), ..old(self)@ }),
    {
        let mut outbox: Vec<(KeyExpr, Vec<u8>)> = Vec::new();
        outbox.append(&mut self.outbox);
        proof {
            assert(outbox_model(outbox@) =~= old(self)@.outbox);
            assert(self@.outbox =~= Seq::<(Seq<char>, Seq<u8>)>::empty());
        }
        outbox
    }
}

/// What becomes of a publish.
pub enum PublishOutcome {
    /// The payload is queued.
    Queued(Seq<u8>),
    /// The value did not serialize, in the serializer's words.
    Unserializable(Seq<char>),
    /// The value holds a float that JSON cannot carry, named for a reader.
    NonFinite(Seq<char>),
}

/// What becomes of a publish, given what the serializer made of the value and
/// what the walk over it found.
pub open spec fn publish_outcome(
    serialized: Result<Vec<u8>, String>,
    found: Option<NonFinite>,
) -> PublishOutcome {
    match serialized {
        Err(source) => PublishOutcome::Unserializable(source@),
        Ok(payload) => match found {
            Some(non_finite) => if crate::finite::holds_null(payload@) {
                PublishOutcome::NonFinite(
                    crate::finite::found_text(non_finite.path@, non_finite.value),
                )
            } else {
                PublishOutcome::Queued(payload@)
            },
            None => PublishOutcome::Queued(payload@),
        },
    }
}

/// What becomes of a publish: a value that did not serialize is refused in
/// the serializer's words; a payload with a `null` in it is refused where the
/// value holds a float that is not finite, and that float is named; any other
/// payload is queued as it is.
pub proof fn law_what_becomes_of_a_publish(
    serialized: Result<Vec<u8>, String>,
    found: Option<NonFinite>,
)
    ensures
        serialized matches Err(source) ==> publish_outcome(serialized, found)
            == PublishOutcome::Unserializable(source@),
        serialized matches Ok(payload) ==> {
            &&& found is None ==> publish_outcome(serialized, found) == PublishOutcome::Queued(
                payload@,
            )
            &&& !crate::finite::holds_null(payload@) ==> publish_outcome(serialized, found)
                == PublishOutcome::Queued(payload@)
            &&& found is Some && crate::finite::holds_null(payload@) ==> publish_outcome(
                serialized,
                found,
            ) == PublishOutcome::NonFinite(
                crate::finite::found_text(found->0.path@, found->0.value),
            )
        },
{
}

} // verus!
