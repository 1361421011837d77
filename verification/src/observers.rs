//! Those who watch a run: they are told what happens in it, and feed nothing
//! back.
use vstd::prelude::*;

use crate::messages::{TickDone, TickStart};
use crate::record::{MembershipChange, RecordedObservation, TickFingerprint};
use crate::world::EffectModel;

verus! {

/// Something that observers are told.
#[derive(Debug)]
pub enum Effect {
    /// A component joined or left.
    Membership(MembershipChange),
    /// Something worth noting about the run, and no part of it.
    Observation(RecordedObservation),
    /// An instant is entered.
    TickStart(TickStart),
    /// A component finished its step.
    TickDone(TickDone),
    /// An instant is done.
    Tick(TickFingerprint),
}

impl View for Effect {
    type V = EffectModel;

    open spec fn view(&self) -> EffectModel {
        match self {
            Effect::Membership(change) => EffectModel::Membership(change@),
            Effect::Observation(observation) => EffectModel::Observation(observation@),
            Effect::TickStart(start) => EffectModel::TickStart(*start),
            Effect::TickDone(done) => EffectModel::TickDone {
                tick: done.tick,
                component: done.component_id@,
                next_due: done.next_due,
            },
            Effect::Tick(fingerprint) => EffectModel::Tick(*fingerprint),
        }
    }
}

/// What an observer is added for.
pub enum Channel {
    Tick,
    Membership,
    Observation,
}

/// Whom an effect is for, if for observers at all.
pub open spec fn channel_of(effect: EffectModel) -> Option<Channel> {
    match effect {
        EffectModel::Step(_) => None,
        EffectModel::Publish(_) => None,
        EffectModel::Membership(_) => Some(Channel::Membership),
        EffectModel::Observation(_) => Some(Channel::Observation),
        EffectModel::TickStart(_) => Some(Channel::Tick),
        EffectModel::TickDone { .. } => Some(Channel::Tick),
        EffectModel::Tick(_) => Some(Channel::Tick),
    }
}

/// Someone who watches a run. Nothing is assumed of an observer, and nothing
/// it does reaches the run.
pub trait Observer {
    /// An instant is done, and this is its fingerprint.
    fn tick(&mut self, fingerprint: &TickFingerprint) {
    }

    /// A component joined or left.
    fn membership(&mut self, change: &MembershipChange) {
    }

    /// The machine did something worth noting, which a re-run is free to
    /// differ on.
    fn observation(&mut self, observation: &RecordedObservation) {
    }

    /// An instant is entered.
    fn tick_start(&mut self, start: &TickStart) {
    }

    /// A component finished its step.
    fn tick_done(&mut self, done: &TickDone) {
    }
}

/// Tells an observer what happened: its method for the effect is called, with
/// what the effect holds, and what that makes of the observer is what it is
/// left as.
fn tell<O: Observer>(observer: &mut O, effect: &Effect)
    ensures
        match effect {
            Effect::Membership(change) => exists|o: &mut O|
                *o == *old(observer) && *final(o) == *final(observer) && #[trigger] call_ensures(
                    O::membership,
                    (o, change),
                    (),
                ),
            Effect::Observation(observation) => exists|o: &mut O|
                *o == *old(observer) && *final(o) == *final(observer) && #[trigger] call_ensures(
                    O::observation,
                    (o, observation),
                    (),
                ),
            Effect::TickStart(start) => exists|o: &mut O|
                *o == *old(observer) && *final(o) == *final(observer) && #[trigger] call_ensures(
                    O::tick_start,
                    (o, start),
                    (),
                ),
            Effect::TickDone(done) => exists|o: &mut O|
                *o == *old(observer) && *final(o) == *final(observer) && #[trigger] call_ensures(
                    O::tick_done,
                    (o, done),
                    (),
                ),
            Effect::Tick(fingerprint) => exists|o: &mut O|
                *o == *old(observer) && *final(o) == *final(observer) && #[trigger] call_ensures(
                    O::tick,
                    (o, fingerprint),
                    (),
                ),
        },
{
    match effect {
        Effect::Membership(change) => {
            observer.membership(change);
        },
        Effect::Observation(observation) => {
            observer.observation(observation);
        },
        Effect::TickStart(start) => {
            observer.tick_start(start);
        },
        Effect::TickDone(done) => {
            observer.tick_done(done);
        },
        Effect::Tick(fingerprint) => {
            observer.tick(fingerprint);
        },
    }
}

/// Has an observer hear what happened: it becomes what being told makes of
/// it.
pub fn hear<O: Observer>(observer: O, effect: &Effect) -> (after: O)
    ensures
        match effect {
            Effect::Membership(change) => exists|o: &mut O|
                *o == observer && *final(o) == after && #[trigger] call_ensures(
                    O::membership,
                    (o, change),
                    (),
                ),
            Effect::Observation(observation) => exists|o: &mut O|
                *o == observer && *final(o) == after && #[trigger] call_ensures(
                    O::observation,
                    (o, observation),
                    (),
                ),
            Effect::TickStart(start) => exists|o: &mut O|
                *o == observer && *final(o) == after && #[trigger] call_ensures(
                    O::tick_start,
                    (o, start),
                    (),
                ),
            Effect::TickDone(done) => exists|o: &mut O|
                *o == observer && *final(o) == after && #[trigger] call_ensures(
                    O::tick_done,
                    (o, done),
                    (),
                ),
            Effect::Tick(fingerprint) => exists|o: &mut O|
                *o == observer && *final(o) == after && #[trigger] call_ensures(
                    O::tick,
                    (o, fingerprint),
                    (),
                ),
        },
{
    let mut after = observer;
    tell(&mut after, effect);
    after
}

/// Whether hearing an effect makes an observer what it is after it: what
/// [`hear`] does with them.
pub open spec fn heard_it<O: Observer>(before: O, effect: Effect, after: O) -> bool {
    call_ensures(hear::<O>, (before, &effect), after)
}

/// Whether hearing one thing makes an observer what it is after it.
pub open spec fn heard_one<O: Observer>(before: O, effect: EffectModel, after: O) -> bool {
    exists|told: Effect| told@ == effect && #[trigger] heard_it(before, told, after)
}

/// Whether hearing one thing after the other makes an observer what it is.
pub open spec fn listened<O: Observer>(first: O, effects: Seq<EffectModel>, now: O) -> bool
    decreases effects.len(),
{
    if effects.len() == 0 {
        now == first
    } else {
        exists|before: O|
            listened(first, effects.drop_last(), before) && #[trigger] heard_one(
                before,
                effects.last(),
                now,
            )
    }
}

/// Who of those added at some moments is told something at a moment, in the
/// order they were added.
pub open spec fn each(since: Seq<nat>, moment: nat, effect: EffectModel) -> Seq<(nat, EffectModel)>
    decreases since.len(),
{
    if since.len() == 0 {
        Seq::empty()
    } else {
        let earlier = each(since.drop_last(), moment, effect);
        if since.last() <= moment {
            earlier.push(((since.len() - 1) as nat, effect))
        } else {
            earlier
        }
    }
}

/// Everything that the observers of a channel are told in a run: whom each
/// time, and what.
pub open spec fn calls_of(history: Seq<EffectModel>, since: Seq<nat>, channel: Channel) -> Seq<
    (nat, EffectModel),
>
    decreases history.len(),
{
    if history.len() == 0 {
        Seq::empty()
    } else {
        let earlier = calls_of(history.drop_last(), since, channel);
        if channel_of(history.last()) == Some(channel) {
            earlier + each(since, (history.len() - 1) as nat, history.last())
        } else {
            earlier
        }
    }
}

/// What one observer is told, out of everything that is told.
pub open spec fn heard(calls: Seq<(nat, EffectModel)>, observer: nat) -> Seq<EffectModel>
    decreases calls.len(),
{
    if calls.len() == 0 {
        Seq::empty()
    } else {
        let earlier = heard(calls.drop_last(), observer);
        if calls.last().0 == observer {
            earlier.push(calls.last().1)
        } else {
            earlier
        }
    }
}

/// What of a run is for a channel.
pub open spec fn on_channel(history: Seq<EffectModel>, channel: Channel) -> Seq<EffectModel>
    decreases history.len(),
{
    if history.len() == 0 {
        Seq::empty()
    } else {
        let earlier = on_channel(history.drop_last(), channel);
        if channel_of(history.last()) == Some(channel) {
            earlier.push(history.last())
        } else {
            earlier
        }
    }
}

proof fn lemma_heard_joined(a: Seq<(nat, EffectModel)>, b: Seq<(nat, EffectModel)>, observer: nat)
    ensures
        heard(a + b, observer) == heard(a, observer) + heard(b, observer),
    decreases b.len(),
{
    if b.len() == 0 {
        assert(a + b =~= a);
        assert(heard(a, observer) + heard(b, observer) =~= heard(a, observer));
    } else {
        lemma_heard_joined(a, b.drop_last(), observer);
        assert((a + b).drop_last() =~= a + b.drop_last());
        assert((a + b).last() == b.last());
        assert(heard(a + b, observer) =~= heard(a, observer) + heard(b, observer));
    }
}

/// Of those told something at once, each is told it once.
proof fn lemma_each_heard(since: Seq<nat>, moment: nat, effect: EffectModel, observer: nat)
    ensures
        heard(each(since, moment, effect), observer) == (if observer < since.len()
            && since[observer as int] <= moment {
            seq![effect]
        } else {
            Seq::<EffectModel>::empty()
        }),
    decreases since.len(),
{
    if since.len() > 0 {
        let last = (since.len() - 1) as nat;
        let earlier = each(since.drop_last(), moment, effect);
        lemma_each_heard(since.drop_last(), moment, effect, observer);
        if since.last() <= moment {
            let all = earlier.push((last, effect));
            assert(all.drop_last() =~= earlier);
            if observer == last {
                assert(heard(all, observer) =~= seq![effect]);
            }
        }
    }
}

/// What is told to whom: joins and leaves go to those who watch membership,
/// what the machine did to those who watch observations, and the start, the
/// steps and the end of an instant to those who watch ticks. Asking a
/// component and publishing a message are told to no observer.
pub proof fn law_whom_what_happens_is_for(effect: EffectModel, history: Seq<EffectModel>)
    ensures
        effect is Membership <==> channel_of(effect) == Some(Channel::Membership),
        effect is Observation <==> channel_of(effect) == Some(Channel::Observation),
        effect is TickStart || effect is TickDone || effect is Tick <==> channel_of(effect) == Some(
            Channel::Tick,
        ),
        effect is Step || effect is Publish <==> channel_of(effect) is None,
        forall|channel: Channel| #[trigger]
            on_channel(history.push(effect), channel) == (if channel_of(effect) == Some(channel) {
                on_channel(history, channel).push(effect)
            } else {
                on_channel(history, channel)
            }),
{
    assert(history.push(effect).drop_last() =~= history);
}

/// Observers accumulate: every one of a channel is told everything that
/// happens on it from the moment it was added, once and in order, whoever
/// else watches.
pub proof fn law_observers_accumulate(
    history: Seq<EffectModel>,
    since: Seq<nat>,
    channel: Channel,
    observer: nat,
)
    requires
        observer < since.len(),
        since[observer as int] <= history.len(),
    ensures
        heard(calls_of(history, since, channel), observer) == on_channel(
            history.skip(since[observer as int] as int),
            channel,
        ),
    decreases history.len(),
{
    let from = since[observer as int] as int;
    let calls = calls_of(history, since, channel);
    if history.len() == from {
        assert(history.skip(from) =~= Seq::<EffectModel>::empty());
        lemma_unheard(history, since, channel, observer);
    } else {
        let front = history.drop_last();
        let moment = front.len();
        law_observers_accumulate(front, since, channel, observer);
        assert(history.skip(from).drop_last() =~= front.skip(from));
        assert(history.skip(from).last() == history.last());
        if channel_of(history.last()) == Some(channel) {
            lemma_heard_joined(
                calls_of(front, since, channel),
                each(since, moment, history.last()),
                observer,
            );
            lemma_each_heard(since, moment, history.last(), observer);
            assert(heard(calls, observer) =~= on_channel(history.skip(from), channel));
        }
    }
}

/// What happened before an observer was added it is not told.
proof fn lemma_unheard(
    history: Seq<EffectModel>,
    since: Seq<nat>,
    channel: Channel,
    observer: nat,
)
    requires
        observer < since.len(),
        history.len() <= since[observer as int],
    ensures
        heard(calls_of(history, since, channel), observer) == Seq::<EffectModel>::empty(),
    decreases history.len(),
{
    if history.len() > 0 {
        let front = history.drop_last();
        let moment = front.len();
        lemma_unheard(front, since, channel, observer);
        if channel_of(history.last()) == Some(channel) {
            lemma_heard_joined(
                calls_of(front, since, channel),
                each(since, moment, history.last()),
                observer,
            );
            lemma_each_heard(since, moment, history.last(), observer);
            assert(heard(calls_of(history, since, channel), observer) =~= Seq::<
                EffectModel,
            >::empty());
        }
    }
}

/// Within one event an earlier observer goes first.
pub proof fn law_an_earlier_observer_goes_first(
    since: Seq<nat>,
    moment: nat,
    effect: EffectModel,
)
    ensures
        forall|i: int, j: int|
            0 <= i < j < each(since, moment, effect).len() ==> (#[trigger] each(
                since,
                moment,
                effect,
            )[i]).0 < (#[trigger] each(since, moment, effect)[j]).0,
        forall|i: int|
            0 <= i < each(since, moment, effect).len() ==> (#[trigger] each(
                since,
                moment,
                effect,
            )[i]).0 < since.len(),
    decreases since.len(),
{
    if since.len() > 0 {
        let front = since.drop_last();
        let earlier = each(front, moment, effect);
        let all = each(since, moment, effect);
        law_an_earlier_observer_goes_first(front, moment, effect);
        assert forall|i: int, j: int| 0 <= i < j < all.len() implies (#[trigger] all[i]).0 < (
        #[trigger] all[j]).0 by {
            assert(all[i] == earlier[i]);
            if j < earlier.len() {
                assert(all[j] == earlier[j]);
            }
        }
        assert forall|i: int| 0 <= i < all.len() implies (#[trigger] all[i]).0 < since.len() by {
            if i < earlier.len() {
                assert(all[i] == earlier[i]);
            }
        }
    }
}

/// Where everyone was added in time, everyone is told.
proof fn lemma_everyone(since: Seq<nat>, moment: nat, effect: EffectModel)
    requires
        forall|i: int| 0 <= i < since.len() ==> #[trigger] since[i] <= moment,
    ensures
        each(since, moment, effect) == Seq::new(since.len(), |i: int| (i as nat, effect)),
    decreases since.len(),
{
    let all = Seq::new(since.len(), |i: int| (i as nat, effect));
    if since.len() > 0 {
        let front = since.drop_last();
        assert forall|i: int| 0 <= i < front.len() implies #[trigger] front[i] <= moment by {
            assert(since[i] <= moment);
        }
        lemma_everyone(front, moment, effect);
        assert(since.last() == since[since.len() - 1]);
    }
    assert(each(since, moment, effect) =~= all);
}

/// Adding an observer changes nothing of what was told before.
proof fn lemma_added_later(
    history: Seq<EffectModel>,
    since: Seq<nat>,
    moment: nat,
    channel: Channel,
)
    requires
        history.len() <= moment,
    ensures
        calls_of(history, since.push(moment), channel) == calls_of(history, since, channel),
    decreases history.len(),
{
    if history.len() > 0 {
        lemma_added_later(history.drop_last(), since, moment, channel);
        assert(since.push(moment).drop_last() =~= since);
    }
}

/// Nobody is told anything but those who were added.
proof fn lemma_nobody_else_heard(
    history: Seq<EffectModel>,
    since: Seq<nat>,
    channel: Channel,
    observer: nat,
)
    requires
        observer >= since.len(),
    ensures
        heard(calls_of(history, since, channel), observer) == Seq::<EffectModel>::empty(),
    decreases history.len(),
{
    if history.len() > 0 {
        let front = history.drop_last();
        let moment = front.len();
        lemma_nobody_else_heard(front, since, channel, observer);
        if channel_of(history.last()) == Some(channel) {
            lemma_heard_joined(
                calls_of(front, since, channel),
                each(since, moment, history.last()),
                observer,
            );
            lemma_each_heard(since, moment, history.last(), observer);
            assert(heard(calls_of(history, since, channel), observer) =~= Seq::<
                EffectModel,
            >::empty());
        }
    }
}

/// Someone who watches, and since when.
struct Watcher<O> {
    observer: O,
    since: Ghost<nat>,
}

/// The observers of one channel, in the order they were added.
pub struct Observers<O: Observer> {
    list: Vec<Watcher<O>>,
    calls: Ghost<Seq<(nat, EffectModel)>>,
    first: Ghost<Seq<O>>,
}

impl<O: Observer> Observers<O> {
    /// How much of the run there had been when each was added.
    pub closed spec fn since(&self) -> Seq<nat> {
        Seq::new(self.list@.len(), |i: int| self.list@[i].since@)
    }

    /// Those who watch, in the order they were added.
    pub closed spec fn watchers(&self) -> Seq<O> {
        Seq::new(self.list@.len(), |i: int| self.list@[i].observer)
    }

    /// What each of those who watch was when it was added.
    pub closed spec fn first(&self) -> Seq<O> {
        self.first@
    }

    /// Whom was told what so far.
    pub closed spec fn calls(&self) -> Seq<(nat, EffectModel)> {
        self.calls@
    }

    /// Whether everyone has been told everything that a run had for them, and
    /// is what hearing it made of them.
    pub open spec fn fits(&self, history: Seq<EffectModel>, channel: Channel) -> bool {
        &&& forall|i: int|
            0 <= i < self.since().len() ==> #[trigger] self.since()[i] <= history.len()
        &&& self.calls() == calls_of(history, self.since(), channel)
        &&& self.watchers().len() == self.since().len()
        &&& self.first().len() == self.since().len()
        &&& forall|i: int|
            0 <= i < self.watchers().len() ==> listened(
                self.first()[i],
                heard(self.calls(), i as nat),
                #[trigger] self.watchers()[i],
            )
    }

    /// Nobody watches.
    pub(crate) fn new() -> (observers: Self)
        ensures
            observers.since() == Seq::<nat>::empty(),
            observers.calls() == Seq::<(nat, EffectModel)>::empty(),
            observers.watchers() == Seq::<O>::empty(),
            observers.first() == Seq::<O>::empty(),
    {
        let observers = Observers {
            list: Vec::new(),
            calls: Ghost(Seq::empty()),
            first: Ghost(Seq::empty()),
        };
        proof {
            assert(observers.watchers() =~= Seq::<O>::empty());
            assert(observers.since() =~= Seq::<nat>::empty());
        }
        observers
    }

    /// Has someone watch from now on, behind those who already do.
    pub(crate) fn add(
        &mut self,
        observer: O,
        Ghost(history): Ghost<Seq<EffectModel>>,
        Ghost(channel): Ghost<Channel>,
    )
        requires
            old(self).fits(history, channel),
        ensures
            final(self).fits(history, channel),
            final(self).since() == old(self).since().push(history.len()),
            final(self).calls() == old(self).calls(),
            final(self).watchers() == old(self).watchers().push(observer),
            final(self).first() == old(self).first().push(observer),
    {
        self.list.push(Watcher { observer, since: Ghost(history.len()) });
        proof {
            self.first@ = self.first@.push(observer);
            assert(self.watchers() =~= old(self).watchers().push(observer));
            lemma_nobody_else_heard(
                history,
                old(self).since(),
                channel,
                old(self).since().len(),
            );
            assert forall|i: int| 0 <= i < self.watchers().len() implies listened(
                self.first()[i],
                heard(self.calls(), i as nat),
                #[trigger] self.watchers()[i],
            ) by {
                if i < old(self).watchers().len() {
                    assert(self.watchers()[i] == old(self).watchers()[i]);
                }
            }
            assert(self.since() =~= old(self).since().push(history.len()));
            lemma_added_later(history, old(self).since(), history.len(), channel);
            assert forall|i: int| 0 <= i < self.since().len() implies #[trigger] self.since()[i]
                <= history.len() by {
                if i < old(self).since().len() {
                    assert(old(self).since()[i] <= history.len());
                }
            }
        }
    }

    /// Tells everyone what happened, in the order they were added.
    pub(crate) fn emit(
        &mut self,
        effect: &Effect,
        Ghost(history): Ghost<Seq<EffectModel>>,
        Ghost(channel): Ghost<Channel>,
    )
        requires
            old(self).fits(history, channel),
            channel_of(effect@) == Some(channel),
        ensures
            final(self).fits(history.push(effect@), channel),
            final(self).since() == old(self).since(),
            final(self).first() == old(self).first(),
            final(self).watchers().len() == old(self).watchers().len(),
            forall|i: int|
                0 <= i < old(self).watchers().len() ==> heard_it(
                    #[trigger] old(self).watchers()[i],
                    *effect,
                    final(self).watchers()[i],
                ),
    {
        let ghost told = self.calls@;
        let ghost before = self.watchers();
        let ghost since = self.since();
        let mut rest: Vec<Watcher<O>> = Vec::new();
        rest.append(&mut self.list);
        let ghost mut i: int = 0;
        proof {
            assert(told + Seq::new(0nat, |j: int| (j as nat, effect@)) =~= told);
        }
        while rest.len() > 0
            invariant
                before == old(self).watchers(),
                since == old(self).since(),
                before.len() == since.len(),
                0 <= i,
                self.list@.len() == i,
                i + rest@.len() == before.len(),
                forall|j: int|
                    0 <= j < rest@.len() ==> (#[trigger] rest@[j]).observer == before[i + j]
                        && rest@[j].since@ == since[i + j],
                forall|j: int|
                    0 <= j < i ==> heard_it(before[j], *effect, (#[trigger] self.list@[j]).observer)
                        && self.list@[j].since@ == since[j],
                self.calls@ == told + Seq::new(i as nat, |j: int| (j as nat, effect@)),
                self.first@ == old(self).first@,
            decreases rest@.len(),
        {
            let ghost rest_before = rest@;
            let Watcher { observer, since: from } = rest.remove(0);
            let observer = hear(observer, effect);
            self.list.push(Watcher { observer, since: from });
            proof {
                assert(rest_before[0].observer == before[i]);
                assert((told + Seq::new(i as nat, |j: int| (j as nat, effect@))).push(
                    (i as nat, effect@),
                ) =~= told + Seq::new((i + 1) as nat, |j: int| (j as nat, effect@)));
                self.calls@ = self.calls@.push((i as nat, effect@));
                assert forall|j: int| 0 <= j < rest@.len() implies (
                #[trigger] rest@[j]).observer == before[i + 1 + j] && rest@[j].since@ == since[i + 1
                    + j] by {
                    assert(rest@[j] == rest_before[j + 1]);
                }
                i = i + 1;
            }
        }
        proof {
            let longer = history.push(effect@);
            let news = each(since, history.len(), effect@);
            assert(self.since() =~= since);
            assert(longer.drop_last() =~= history);
            assert forall|j: int| 0 <= j < since.len() implies #[trigger] since[j]
                <= history.len() by {
                assert(old(self).since()[j] <= history.len());
            }
            lemma_everyone(self.since(), history.len(), effect@);
            assert forall|j: int| 0 <= j < self.since().len() implies #[trigger] self.since()[j]
                <= longer.len() by {
                assert(old(self).since()[j] <= history.len());
            }
            assert forall|j: int| 0 <= j < self.watchers().len() implies listened(
                self.first()[j],
                heard(self.calls(), j as nat),
                #[trigger] self.watchers()[j],
            ) by {
                lemma_heard_joined(told, news, j as nat);
                lemma_each_heard(since, history.len(), effect@, j as nat);
                let so_far = heard(told, j as nat);
                let all = heard(self.calls(), j as nat);
                assert(all =~= so_far.push(effect@));
                assert(all.drop_last() =~= so_far);
                assert(heard_it(before[j], *effect, self.list@[j].observer));
                assert(heard_one(before[j], all.last(), self.watchers()[j]));
                assert(old(self).watchers()[j] == before[j]);
                assert(listened(self.first()[j], all.drop_last(), before[j]));
            }
            assert forall|j: int| 0 <= j < old(self).watchers().len() implies heard_it(
                #[trigger] old(self).watchers()[j],
                *effect,
                self.watchers()[j],
            ) by {
                assert(self.list@[j].observer == self.watchers()[j]);
            }
        }
    }

    /// What is not for a channel is not told to it.
    pub proof fn lemma_passed_by(
        &self,
        history: Seq<EffectModel>,
        effect: EffectModel,
        channel: Channel,
    )
        requires
            self.fits(history, channel),
            channel_of(effect) != Some(channel),
        ensures
            self.fits(history.push(effect), channel),
    {
        let longer = history.push(effect);
        assert(longer.drop_last() =~= history);
        assert forall|j: int| 0 <= j < self.since().len() implies #[trigger] self.since()[j]
            <= longer.len() by {
            assert(self.since()[j] <= history.len());
        }
    }
}

} // verus!
