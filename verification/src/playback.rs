//! Open-loop resimulation: replaying recorded messages back into a live sim
//! as stimulus.
use vstd::prelude::*;
use vstd::string::*;

use crate::component::{Component, StepCtx, StepCtxModel};
use crate::error::CoreError;
use crate::ids::ComponentId;
use crate::keyexpr::KeyExpr;
use crate::record::{EventLog, LogEvent, LogEventModel};
use crate::text::{chars_of, same_text};
use crate::time::SimTime;

verus! {

/// A recorded message as it is played back: when, on which key, and what.
pub type Stimulus = (SimTime, Seq<char>, Seq<char>);

/// Whether a recorded publisher is `publisher` or one of its sub-components.
pub open spec fn is_from(recorded: Seq<char>, publisher: Seq<char>) -> bool {
    recorded == publisher || (recorded.len() > publisher.len() && recorded.take(
        publisher.len() as int,
    ) == publisher && recorded[publisher.len() as int] == '/')
}

/// The messages of a log from `publisher` or any of its sub-components, in
/// recorded order.
pub open spec fn recording(events: Seq<LogEventModel>, publisher: Seq<char>) -> Seq<Stimulus>
    decreases events.len(),
{
    if events.len() == 0 {
        Seq::empty()
    } else {
        let front = recording(events.drop_last(), publisher);
        match events.last() {
            LogEventModel::Msg { sim_time, key, publisher: from, seq, payload } => if is_from(
                from,
                publisher,
            ) {
                front.push((sim_time, key, payload))
            } else {
                front
            },
            _ => front,
        }
    }
}

/// The first message from `from` on that is for later than `now`.
pub open spec fn first_later(messages: Seq<Stimulus>, from: int, now: SimTime) -> int
    decreases messages.len() - from,
{
    if 0 <= from < messages.len() && messages[from].0.0 <= now.0 {
        first_later(messages, from + 1, now)
    } else {
        from
    }
}

/// What is published at `now`: the messages before `to` that were recorded at
/// exactly that instant. Whatever the schedule passed over is skipped.
pub open spec fn played(messages: Seq<Stimulus>, from: int, to: int, now: SimTime) -> Seq<
    (Seq<char>, Seq<u8>),
>
    decreases to - from,
{
    if from >= to {
        Seq::empty()
    } else {
        let front = played(messages, from, to - 1, now);
        if messages[to - 1].0 == now {
            front.push((messages[to - 1].1, vstd::utf8::encode_utf8(messages[to - 1].2)))
        } else {
            front
        }
    }
}

/// When a double that has come to `cursor` is due next: at its next recorded
/// message, or effectively never once the recording is exhausted.
pub open spec fn next_played(messages: Seq<Stimulus>, cursor: int) -> SimTime {
    if cursor < messages.len() {
        messages[cursor].0
    } else {
        SimTime(i64::MAX)
    }
}

/// Replays one recorded publisher's messages as an ordinary component.
///
/// The recorded messages are re-published at their recorded sim times, on
/// their recorded keys, with byte-identical payloads, so a live component can
/// be swapped for its playback double without consumers noticing. A double
/// never reacts to the live world: its behavior is pure data, which keeps
/// hybrid runs fully deterministic and recordable.
pub struct PlaybackComponent {
    id: ComponentId,
    /// Time, key and payload, in recorded order.
    messages: Vec<(SimTime, KeyExpr, String)>,
    cursor: usize,
}

/// What a [`PlaybackComponent`] holds.
pub struct PlaybackModel {
    pub id: Seq<char>,
    pub messages: Seq<Stimulus>,
    pub cursor: int,
}

impl View for PlaybackComponent {
    type V = PlaybackModel;

    closed spec fn view(&self) -> PlaybackModel {
        PlaybackModel {
            id: self.id@,
            messages: stimuli(self.messages@),
            cursor: self.cursor as int,
        }
    }
}

/// Messages to play back as what they say.
pub open spec fn stimuli(messages: Seq<(SimTime, KeyExpr, String)>) -> Seq<Stimulus> {
    Seq::new(messages.len(), |i: int| (messages[i].0, messages[i].1@, messages[i].2@))
}

/// Whether a recorded publisher is `publisher` or one of its sub-components.
fn comes_from(recorded: &str, publisher: &str) -> (from: bool)
    ensures
        from == is_from(recorded@, publisher@),
{
    if same_text(recorded, publisher) {
        return true;
    }
    let whole = chars_of(recorded);
    let part = chars_of(publisher);
    let n: usize = part.len();
    if whole.len() <= n || whole[n] != '/' {
        return false;
    }
    let mut i: usize = 0;
    while i < n
        invariant
            whole@ == recorded@,
            part@ == publisher@,
            n == part@.len(),
            n < whole@.len(),
            0 <= i <= n,
            forall|k: int| 0 <= k < i ==> whole@[k] == part@[k],
            recorded@ != publisher@,
        decreases n - i,
    {
        if whole[i] != part[i] {
            proof {
                assert(recorded@.take(n as int)[i as int] != publisher@[i as int]);
            }
            return false;
        }
        i += 1;
    }
    proof {
        assert(recorded@.take(n as int) =~= publisher@);
    }
    true
}

impl PlaybackComponent {
    /// Filters `log` to messages recorded from `publisher` (a component path
    /// as text) or any of its sub-components. `id` is the double's own
    /// registration id, typically the original actor's name.
    pub fn from_log(id: ComponentId, log: &EventLog, publisher: &str) -> (double: Self)
        requires
            forall|i: int|
                0 <= i < recording(crate::record::event_models(log.events@), publisher@).len()
                    ==> crate::keyexpr::key_error(
                    (#[trigger] recording(
                        crate::record::event_models(log.events@),
                        publisher@,
                    )[i]).1,
                ) is None,
        ensures
            double@ == (PlaybackModel {
                id: id@,
                messages: recording(crate::record::event_models(log.events@), publisher@),
                cursor: 0,
            }),
    {
        let ghost all = crate::record::event_models(log.events@);
        let ghost whole = recording(all, publisher@);
        let mut messages: Vec<(SimTime, KeyExpr, String)> = Vec::new();
        let mut i: usize = 0;
        proof {
            assert(all.take(0) =~= Seq::<LogEventModel>::empty());
            assert(stimuli(messages@) =~= recording(all.take(0), publisher@));
        }
        while i < log.events.len()
            invariant
                all == crate::record::event_models(log.events@),
                whole == recording(all, publisher@),
                forall|k: int|
                    0 <= k < whole.len() ==> crate::keyexpr::key_error(
                        (#[trigger] whole[k]).1,
                    ) is None,
                0 <= i <= log.events@.len(),
                stimuli(messages@) == recording(all.take(i as int), publisher@),
            decreases log.events@.len() - i,
        {
            proof {
                assert(all.take(i + 1).drop_last() =~= all.take(i as int));
                assert(all.take(i + 1).last() == log.events@[i as int]@);
            }
            match &log.events[i] {
                LogEvent::Msg(m) => {
                    if comes_from(m.publisher.as_str(), publisher) {
                        let ghost before = messages@;
                        let ghost place = before.len() as int;
                        proof {
                            lemma_recording_prefix(all, publisher@, i + 1);
                            assert(whole[place] == recording(all.take(i + 1), publisher@)[place]);
                            assert(whole[place].1 == m.key@);
                        }
                        match KeyExpr::new(m.key.as_str()) {
                            Ok(key) => {
                                messages.push((m.sim_time, key, m.payload.clone()));
                            },
                            Err(_) => {},
                        }
                        proof {
                            assert(stimuli(messages@) =~= stimuli(before).push(
                                (m.sim_time, m.key@, m.payload@),
                            ));
                        }
                    }
                },
                _ => {},
            }
            i += 1;
        }
        proof {
            assert(all.take(i as int) =~= all);
        }
        PlaybackComponent { id, messages, cursor: 0 }
    }
}

/// The recording of a log's beginning is the beginning of its recording.
proof fn lemma_recording_prefix(events: Seq<LogEventModel>, publisher: Seq<char>, n: int)
    requires
        0 <= n <= events.len(),
    ensures
        recording(events.take(n), publisher).len() <= recording(events, publisher).len(),
        forall|k: int|
            0 <= k < recording(events.take(n), publisher).len() ==> recording(
                events.take(n),
                publisher,
            )[k] == #[trigger] recording(events, publisher)[k],
    decreases events.len() - n,
{
    if n == events.len() {
        assert(events.take(n) =~= events);
    } else {
        lemma_recording_prefix(events, publisher, n + 1);
        let more = events.take(n + 1);
        assert(more.drop_last() =~= events.take(n));
        assert forall|k: int| 0 <= k < recording(events.take(n), publisher).len() implies recording(
            events.take(n),
            publisher,
        )[k] == #[trigger] recording(events, publisher)[k] by {
            assert(recording(more, publisher)[k] == recording(events.take(n), publisher)[k]);
        }
    }
}

/// A recorded payload's bytes.
fn payload_bytes(payload: &String) -> (bytes: Vec<u8>)
    ensures
        bytes@ == vstd::utf8::encode_utf8(payload@),
{
    let slice = payload.as_str().as_bytes();
    let mut bytes: Vec<u8> = Vec::new();
    let mut i: usize = 0;
    while i < slice.len()
        invariant
            0 <= i <= slice@.len(),
            bytes@ == slice@.take(i as int),
        decreases slice@.len() - i,
    {
        bytes.push(slice[i]);
        proof {
            assert(bytes@ =~= slice@.take(i + 1));
        }
        i += 1;
    }
    proof {
        assert(slice@.take(i as int) =~= slice@);
    }
    bytes
}

/// Going on from a message that is not for later leads to the same place.
proof fn lemma_first_later(messages: Seq<Stimulus>, from: int, now: SimTime)
    requires
        0 <= from,
    ensures
        first_later(messages, from, now) >= from,
        from <= messages.len() ==> first_later(messages, from, now) <= messages.len(),
        first_later(messages, from, now) < messages.len() ==> messages[first_later(
            messages,
            from,
            now,
        )].0.0 > now.0,
        forall|k: int|
            from <= k < first_later(messages, from, now) ==> (#[trigger] messages[k]).0.0 <= now.0,
    decreases messages.len() - from,
{
    if from < messages.len() && messages[from].0.0 <= now.0 {
        lemma_first_later(messages, from + 1, now);
    }
}

impl Component for PlaybackComponent {
    fn id(&self) -> (id: ComponentId)
        ensures
            id@ == self@.id,
    {
        self.id.clone()
    }

    fn subscriptions(&self) -> (keys: Vec<KeyExpr>)
        ensures
            keys@.len() == 0,
    {
        Vec::new()
    }

    /// Publishes everything recorded for this instant, and skips anything the
    /// schedule passed over rather than stalling the run on it.
    fn step(&mut self, ctx: &mut StepCtx) -> (next: Result<SimTime, CoreError>)
        ensures
            ({
                let messages = old(self)@.messages;
                let to = first_later(messages, old(self)@.cursor, old(ctx)@.now);
                &&& next == Ok::<SimTime, CoreError>(next_played(messages, to))
                &&& final(self)@ == (PlaybackModel { cursor: to, ..old(self)@ })
                &&& final(ctx)@ == (StepCtxModel {
                    outbox: old(ctx)@.outbox + played(
                        messages,
                        old(self)@.cursor,
                        to,
                        old(ctx)@.now,
                    ),
                    ..old(ctx)@
                })
            }),
    {
        let ghost messages = self@.messages;
        let ghost from = self@.cursor;
        let now = ctx.now();
        proof {
            assert(old(ctx)@.outbox + played(messages, from, from, now) =~= old(ctx)@.outbox);
        }
        while self.cursor < self.messages.len() && self.messages[self.cursor].0.0 <= now.0
            invariant
                now == old(ctx)@.now,
                0 <= from <= self.cursor,
                self@.messages == messages,
                self@.id == old(self)@.id,
                messages == old(self)@.messages,
                from == old(self)@.cursor,
                first_later(messages, from, now) == first_later(
                    messages,
                    self.cursor as int,
                    now,
                ),
                ctx@ == (StepCtxModel {
                    outbox: old(ctx)@.outbox + played(messages, from, self.cursor as int, now),
                    ..old(ctx)@
                }),
            decreases self.messages@.len() - self.cursor,
        {
            let ghost cursor = self.cursor as int;
            proof {
                assert(messages[cursor].0 == self.messages@[cursor].0);
            }
            if self.messages[self.cursor].0.0 == now.0 {
                let key = self.messages[self.cursor].1.clone();
                let payload = payload_bytes(&self.messages[self.cursor].2);
                // A recorded payload is serialized already, and the
                // non-finite guard cannot see into one: replaying a recording
                // verbatim means that whatever it holds goes out unchanged.
                let done = ctx.publish(key, Ok(payload), None);
                match done {
                    Ok(_) => {},
                    Err(error) => {
                        return Err(error);
                    },
                }
            }
            self.cursor = self.cursor + 1;
            proof {
                assert(ctx@.outbox =~= old(ctx)@.outbox + played(messages, from, cursor + 1, now));
            }
        }
        Ok(
            if self.cursor < self.messages.len() {
                self.messages[self.cursor].0
            } else {
                SimTime::from_nanos(i64::MAX)
            },
        )
    }
}

// ---------------------------------------------------------------------------
// Laws
// ---------------------------------------------------------------------------

/// What a double publishes from `cursor` on when it is stepped exactly where
/// it asks to be: each publish with its instant.
pub open spec fn replay(messages: Seq<Stimulus>, cursor: int) -> Seq<
    (SimTime, Seq<char>, Seq<u8>),
>
    decreases messages.len() - cursor,
{
    if cursor < 0 || cursor >= messages.len() {
        Seq::empty()
    } else {
        let now = next_played(messages, cursor);
        let to = first_later(messages, cursor, now);
        let published = played(messages, cursor, to, now);
        let here = Seq::new(published.len(), |i: int| (now, published[i].0, published[i].1));
        if cursor < to <= messages.len() {
            here + replay(messages, to)
        } else {
            here
        }
    }
}

/// A recording whose instants never go back, as those of every run do not.
pub open spec fn in_time_order(messages: Seq<Stimulus>) -> bool {
    forall|i: int, j: int|
        0 <= i < j < messages.len() ==> (#[trigger] messages[i]).0.0 <= (#[trigger] messages[j]).0.0
}

/// A run of messages recorded at one instant is played whole.
proof fn lemma_played_whole(messages: Seq<Stimulus>, from: int, to: int, now: SimTime)
    requires
        0 <= from <= to <= messages.len(),
        forall|k: int| from <= k < to ==> (#[trigger] messages[k]).0 == now,
    ensures
        played(messages, from, to, now).len() == to - from,
        forall|k: int|
            0 <= k < to - from ==> (#[trigger] played(messages, from, to, now)[k]) == (
                messages[from + k].1,
                vstd::utf8::encode_utf8(messages[from + k].2),
            ),
    decreases to - from,
{
    if from < to {
        lemma_played_whole(messages, from, to - 1, now);
    }
}

/// A double that is stepped where it asks to be publishes its whole
/// recording: every message, in order, at its recorded instant, on its
/// recorded key, with the recorded bytes, and nothing else.
pub proof fn law_a_double_replays_its_recording_verbatim(messages: Seq<Stimulus>, cursor: int)
    requires
        in_time_order(messages),
        0 <= cursor <= messages.len(),
    ensures
        replay(messages, cursor) == Seq::new(
            (messages.len() - cursor) as nat,
            |i: int|
                (
                    messages[cursor + i].0,
                    messages[cursor + i].1,
                    vstd::utf8::encode_utf8(messages[cursor + i].2),
                ),
        ),
    decreases messages.len() - cursor,
{
    let whole = Seq::new(
        (messages.len() - cursor) as nat,
        |i: int|
            (
                messages[cursor + i].0,
                messages[cursor + i].1,
                vstd::utf8::encode_utf8(messages[cursor + i].2),
            ),
    );
    if cursor == messages.len() {
        assert(replay(messages, cursor) =~= whole);
    } else {
        let now = messages[cursor].0;
        let to = first_later(messages, cursor, now);
        lemma_first_later(messages, cursor, now);
        lemma_first_later(messages, cursor + 1, now);
        assert(to > cursor);
        assert forall|k: int| cursor <= k < to implies (#[trigger] messages[k]).0 == now by {
            if k > cursor {
                assert(messages[cursor].0.0 <= messages[k].0.0);
            }
        }
        lemma_played_whole(messages, cursor, to, now);
        law_a_double_replays_its_recording_verbatim(messages, to);
        assert(replay(messages, cursor) =~= whole);
    }
}

/// No segment of a path holds the separator.
proof fn lemma_segments_are_whole(path: Seq<Seq<char>>)
    requires
        crate::ids::valid_path(path),
    ensures
        forall|i: int| 0 <= i < path.len() ==> !(#[trigger] path[i]).contains('/'),
{
    assert forall|i: int| 0 <= i < path.len() implies !(#[trigger] path[i]).contains('/') by {
        assert(crate::ids::valid_id(path[i]));
        if path[i].contains('/') {
            let j = choose|j: int| 0 <= j < path[i].len() && path[i][j] == '/';
            assert(!crate::ids::is_reserved(path[i][j]));
        }
    }
}

/// A recorded publisher belongs to an actor exactly where the actor's path is
/// the beginning of the publisher's: it is the actor itself, or any component
/// beneath it at whatever depth.
pub proof fn law_an_actor_speaks_through_its_parts(actor: Seq<Seq<char>>, from: Seq<Seq<char>>)
    requires
        crate::ids::valid_path(actor),
        crate::ids::valid_path(from),
        actor.len() > 0,
    ensures
        is_from(crate::ids::path_text(from), crate::ids::path_text(actor)) <==> actor.len()
            <= from.len() && from.take(actor.len() as int) == actor,
{
    let whole = crate::ids::path_text(from);
    let part = crate::ids::path_text(actor);
    let n = part.len() as int;
    lemma_segments_are_whole(actor);
    lemma_segments_are_whole(from);
    crate::text::law_split_undoes_join(actor, '/');
    if is_from(whole, part) {
        if whole == part {
            crate::ids::law_path_text_is_unique(from, actor);
            assert(from.take(actor.len() as int) =~= actor);
        } else {
            let rest = whole.skip(n + 1);
            assert(whole =~= part.push('/') + rest);
            crate::text::law_a_separator_parts_a_text(part, rest, '/');
            if from.len() == 0 {
                assert(whole.len() == 0);
            }
            crate::text::law_split_undoes_join(from, '/');
            assert(from == actor + crate::text::split(rest, '/'));
            assert(from.take(actor.len() as int) =~= actor);
        }
    }
    if actor.len() <= from.len() && from.take(actor.len() as int) == actor {
        let rest = from.skip(actor.len() as int);
        assert(from =~= actor + rest);
        if rest.len() > 0 {
            crate::text::law_joining_puts_a_separator_between(actor, rest, '/');
            assert(whole.take(n) =~= part);
            assert(whole[n] == '/');
        } else {
            assert(from =~= actor);
        }
    }
}

/// Whether a line of a log is a message that an actor or one of the
/// components beneath it published.
pub open spec fn is_spoken_by(line: LogEventModel, actor: Seq<Seq<char>>) -> bool {
    line is Msg && exists|from: Seq<Seq<char>>|
        {
            &&& line->Msg_publisher == #[trigger] crate::ids::path_text(from)
            &&& crate::ids::valid_path(from)
            &&& actor.len() <= from.len()
            &&& from.take(actor.len() as int) == actor
        }
}

/// Whether every message of a log names a component path as its publisher.
pub open spec fn publishers_are_paths(events: Seq<LogEventModel>) -> bool {
    forall|i: int|
        0 <= i < events.len() && (#[trigger] events[i]) is Msg ==> exists|from: Seq<Seq<char>>|
            crate::ids::valid_path(from) && events[i]->Msg_publisher
                == #[trigger] crate::ids::path_text(from)
}

/// A line is from an actor where the actor or a component beneath it
/// published it.
proof fn lemma_spoken(line: LogEventModel, actor: Seq<Seq<char>>, from: Seq<Seq<char>>)
    requires
        line is Msg,
        line->Msg_publisher == crate::ids::path_text(from),
        crate::ids::valid_path(from),
        crate::ids::valid_path(actor),
        actor.len() > 0,
    ensures
        is_from(line->Msg_publisher, crate::ids::path_text(actor)) == is_spoken_by(line, actor),
{
    law_an_actor_speaks_through_its_parts(actor, from);
    if is_spoken_by(line, actor) {
        let other = choose|other: Seq<Seq<char>>|
            {
                &&& line->Msg_publisher == #[trigger] crate::ids::path_text(other)
                &&& crate::ids::valid_path(other)
                &&& actor.len() <= other.len()
                &&& other.take(actor.len() as int) == actor
            };
        crate::ids::law_path_text_is_unique(from, other);
    }
}

/// The recording of an actor grows by exactly the messages that the actor and
/// the components beneath it publish: such a message goes behind the others,
/// with its instant, its key and its payload, and any other line of the log
/// leaves the recording as it is.
pub proof fn law_a_recording_holds_what_the_actor_said(
    events: Seq<LogEventModel>,
    line: LogEventModel,
    actor: Seq<Seq<char>>,
)
    requires
        crate::ids::valid_path(actor),
        actor.len() > 0,
        publishers_are_paths(events.push(line)),
    ensures
        recording(Seq::<LogEventModel>::empty(), crate::ids::path_text(actor)).len() == 0,
        recording(events.push(line), crate::ids::path_text(actor)) == (if is_spoken_by(
            line,
            actor,
        ) {
            recording(events, crate::ids::path_text(actor)).push(
                (line->Msg_sim_time, line->Msg_key, line->Msg_payload),
            )
        } else {
            recording(events, crate::ids::path_text(actor))
        }),
{
    let more = events.push(line);
    assert(more.drop_last() =~= events);
    assert(more[more.len() - 1] == line);
    if line is Msg {
        let from = choose|from: Seq<Seq<char>>|
            crate::ids::valid_path(from) && more[more.len() - 1]->Msg_publisher
                == #[trigger] crate::ids::path_text(from);
        lemma_spoken(line, actor, from);
    }
}

/// Whatever an actor or a component beneath it published is in the actor's
/// recording.
pub proof fn law_nothing_the_actor_said_is_missing(
    events: Seq<LogEventModel>,
    actor: Seq<Seq<char>>,
    from: Seq<Seq<char>>,
    i: int,
)
    requires
        crate::ids::valid_path(actor),
        crate::ids::valid_path(from),
        actor.len() > 0,
        actor.len() <= from.len(),
        from.take(actor.len() as int) == actor,
        0 <= i < events.len(),
        events[i] is Msg,
        events[i]->Msg_publisher == crate::ids::path_text(from),
    ensures
        recording(events, crate::ids::path_text(actor)).contains(
            (events[i]->Msg_sim_time, events[i]->Msg_key, events[i]->Msg_payload),
        ),
    decreases events.len(),
{
    let said = (events[i]->Msg_sim_time, events[i]->Msg_key, events[i]->Msg_payload);
    let all = recording(events, crate::ids::path_text(actor));
    law_an_actor_speaks_through_its_parts(actor, from);
    if i == events.len() - 1 {
        assert(all.last() == said);
    } else {
        let front = events.drop_last();
        law_nothing_the_actor_said_is_missing(front, actor, from, i);
        let before = recording(front, crate::ids::path_text(actor));
        let k = choose|k: int| 0 <= k < before.len() && before[k] == said;
        assert(all[k] == said);
    }
}

/// A double that steps at an instant goes past every message for no later
/// than it, stops at the first that is for later, and is due again at that
/// one, or never once there is none.
pub proof fn law_a_double_is_due_at_its_next_message(
    messages: Seq<Stimulus>,
    from: int,
    now: SimTime,
)
    requires
        in_time_order(messages),
        0 <= from <= messages.len(),
    ensures
        ({
            let to = first_later(messages, from, now);
            &&& from <= to <= messages.len()
            &&& forall|k: int| from <= k < to ==> (#[trigger] messages[k]).0.0 <= now.0
            &&& forall|k: int| to <= k < messages.len() ==> (#[trigger] messages[k]).0.0 > now.0
            &&& to < messages.len() ==> next_played(messages, to) == messages[to].0
            &&& to == messages.len() ==> next_played(messages, to).0 == i64::MAX
        }),
    decreases messages.len() - from,
{
    if from < messages.len() && messages[from].0.0 <= now.0 {
        law_a_double_is_due_at_its_next_message(messages, from + 1, now);
    } else if from < messages.len() {
        assert forall|k: int| from <= k < messages.len() implies (#[trigger] messages[k]).0.0
            > now.0 by {
            if k > from {
                assert(messages[from].0.0 <= messages[k].0.0);
            }
        }
    }
}

/// What a double publishes at an instant is every message that it goes past
/// and that was recorded at exactly that instant, in order: one that the
/// schedule passed over is not published late.
pub proof fn law_a_double_plays_only_what_is_for_now(
    messages: Seq<Stimulus>,
    from: int,
    to: int,
    now: SimTime,
)
    requires
        0 <= from <= to < messages.len(),
    ensures
        played(messages, from, from, now).len() == 0,
        played(messages, from, to + 1, now) == (if messages[to].0 == now {
            played(messages, from, to, now).push(
                (messages[to].1, vstd::utf8::encode_utf8(messages[to].2)),
            )
        } else {
            played(messages, from, to, now)
        }),
{
}

} // verus!
