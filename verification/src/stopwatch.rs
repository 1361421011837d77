//! Timing a component's step: the clock is read, the component steps, and the
//! clock is read again. Whatever is done with a stopwatch is noted in the
//! order it is done, so that a contract can say which readings stand around
//! which step.
use vstd::prelude::*;

use crate::component::{take_step, Component, StepCtx, StepCtxModel};
use crate::error::CoreError;
use crate::ids::ComponentPath;
use crate::pacing::WallClock;
use crate::time::SimTime;
use crate::world::CallModel;

verus! {

/// What is done with a stopwatch.
pub enum Moment {
    /// The clock is read.
    Read(i64),
    /// A component steps, and is told this.
    Asked(CallModel),
}

/// What a component is told when it steps with a context.
pub open spec fn told_to(path: Seq<Seq<char>>, ctx: StepCtxModel) -> CallModel {
    CallModel {
        path,
        now: ctx.now,
        dt: ctx.dt,
        world_name: ctx.world_name,
        component_seed: ctx.component_seed,
        inbox: crate::messages::message_models(ctx.inbox),
    }
}

/// What was done with a stopwatch since.
pub open spec fn since(before: Seq<Moment>, now: Seq<Moment>) -> Seq<Moment> {
    now.skip(before.len() as int)
}

/// What was done since goes on with what was done after that.
pub proof fn lemma_since_on(
    first: Seq<Moment>,
    noted: Seq<Moment>,
    before: Seq<Moment>,
    now: Seq<Moment>,
)
    requires
        before == first + noted,
        before.is_prefix_of(now),
    ensures
        now == first + (noted + since(before, now)),
        since(first, now) == noted + since(before, now),
{
    let n = before.len() as int;
    assert(now.subrange(0, n) =~= before);
    assert(now =~= now.subrange(0, n) + since(before, now));
    assert(now =~= first + (noted + since(before, now)));
    assert(since(first, now) =~= noted + since(before, now));
}

/// Reads the clock and lets components step, and knows in which order.
pub struct Stopwatch {
    noted: Ghost<Seq<Moment>>,
}

impl View for Stopwatch {
    type V = Seq<Moment>;

    closed spec fn view(&self) -> Seq<Moment> {
        self.noted@
    }
}

impl Stopwatch {
    /// A stopwatch that nothing was done with.
    pub fn new() -> (stopwatch: Self)
        ensures
            stopwatch@ == Seq::<Moment>::empty(),
    {
        Stopwatch { noted: Ghost(Seq::empty()) }
    }

    /// Reads a clock.
    pub fn read<C: WallClock>(&mut self, clock: &C) -> (nanos: i64)
        ensures
            call_ensures(C::elapsed_nanos, (clock,), nanos),
            final(self)@ == old(self)@.push(Moment::Read(nanos)),
    {
        let nanos: i64 = clock.elapsed_nanos();
        proof {
            self.noted@ = self.noted@.push(Moment::Read(nanos));
        }
        nanos
    }

    /// Lets a component take its step with what it is shown.
    pub fn step<'a, K: Component>(
        &mut self,
        path: &ComponentPath,
        component: K,
        shown: StepCtx<'a>,
    ) -> (taken: (Result<SimTime, CoreError>, K, StepCtx<'a>))
        ensures
            crate::component::took_step(component, shown, taken.0, taken.1, taken.2),
            final(self)@ == old(self)@.push(Moment::Asked(told_to(path@, shown@))),
    {
        proof {
            self.noted@ = self.noted@.push(Moment::Asked(told_to(path@, shown@)));
        }
        take_step(component, shown)
    }
}

} // verus!
