//! The determinism harness's event log: tick fingerprints, published
//! messages, membership changes, and observations of the machine.
//!
//! Recording taps the conductor's observation points, so the sim itself is
//! untouched by being recorded. A recorded log has two distinct consumers:
//! **verification**, where the log is an expected-output ledger and nothing
//! flows into the sim, and **open-loop resimulation**, where the log is an
//! input stimulus that playback doubles re-publish.
use vstd::prelude::*;

use crate::config::ConductorConfig;
use crate::json::payload_json;
use crate::messages::{Message, MessageModel};
use crate::text::{chars_of, split_text, text_of};
use crate::time::SimTime;
use crate::timing::{OnTimeout, WallDuration};

verus! {

/// Per-tick determinism fingerprint emitted by the conductor.
///
/// `tick_hash` covers everything the tick's stepped components did in
/// declaration order: paths, next-due times, published bytes, and internal
/// state where a component exposes it. `world_hash` chains tick hashes from
/// the seeded initial value, so a single trailing value fingerprints the
/// entire run.
#[derive(Debug, Clone, Copy, PartialEq, Eq, Structural)]
pub struct TickFingerprint {
    pub tick: u64,
    pub sim_time: SimTime,
    pub tick_hash: u64,
    pub world_hash: u64,
}

/// A published message as recorded: paths flattened to strings, payload
/// embedded as the raw text of its JSON so the log stays readable.
#[derive(Debug, Clone, PartialEq, Eq)]
pub struct RecordedMessage {
    pub sim_time: SimTime,
    pub key: String,
    pub publisher: String,
    pub seq: u64,
    pub payload: String,
}

/// A component that joined, and the instant of its first step.
#[derive(Debug, Clone, PartialEq, Eq)]
pub struct RecordedJoin {
    pub path: String,
    pub first_due: SimTime,
}

/// A component that left, and the first instant it takes no part in.
#[derive(Debug, Clone, PartialEq, Eq)]
pub struct RecordedLeave {
    pub path: String,
    pub leaves_at: SimTime,
}

/// An applied membership change.
#[derive(Debug, Clone, PartialEq, Eq)]
pub enum MembershipChange {
    Joined(RecordedJoin),
    Left(RecordedLeave),
}

/// A step that outlasted its soft budget.
#[derive(Debug, Clone, PartialEq, Eq)]
pub struct RecordedBudgetMiss {
    pub path: String,
    pub sim_time: SimTime,
    pub step: WallDuration,
    pub budget: WallDuration,
}

/// A step that outlasted its hard timeout, and what was done about it.
#[derive(Debug, Clone, PartialEq, Eq)]
pub struct RecordedTimeout {
    pub path: String,
    pub sim_time: SimTime,
    pub waited: WallDuration,
    pub timeout: WallDuration,
    pub policy: OnTimeout,
}

/// A join that was asked for before the instant it takes effect at.
#[derive(Debug, Clone, PartialEq, Eq)]
pub struct RecordedJoinRequest {
    pub path: String,
    pub first_due: SimTime,
}

/// A leave that was asked for, as it was asked for.
#[derive(Debug, Clone, PartialEq, Eq)]
pub struct RecordedLeaveRequest {
    pub path: String,
    pub leaves_at: Option<SimTime>,
}

/// Something worth noting about the run rather than a part of it: what the
/// machine did, and what was asked for when. A faithful re-run is free to
/// differ on these.
#[derive(Debug, Clone, PartialEq, Eq)]
pub enum RecordedObservation {
    BudgetMissed(RecordedBudgetMiss),
    TimedOut(RecordedTimeout),
    JoinRequested(RecordedJoinRequest),
    LeaveRequested(RecordedLeaveRequest),
}

/// One line of the log body, in emission order (messages of a tick precede
/// its fingerprint, since publishes happen during the steps).
#[derive(Debug, Clone, PartialEq, Eq)]
pub enum LogEvent {
    Msg(RecordedMessage),
    Tick(TickFingerprint),
    Join(RecordedJoin),
    Leave(RecordedLeave),
    Observed(RecordedObservation),
}

/// First line of the log: enough to re-create the run.
#[derive(Debug, Clone, PartialEq, Eq)]
pub struct LogHeader {
    pub version: u32,
    pub world_name: String,
    pub world_seed: u64,
}

/// Why a log could not be read or written.
#[derive(Debug)]
pub enum RecordError {
    /// The file could not be read or written, in the system's words.
    Io(String),
    /// A line is not what it should be, in the parser's words.
    Parse { line: usize, source: String },
    /// There is no header line.
    Empty,
}

/// The text that reports a [`RecordError`].
pub open spec fn record_error_text(error: RecordError) -> Seq<char> {
    match error {
        RecordError::Io(source) => "event log I/O failed: "@ + source@,
        RecordError::Parse { line, source } => "event log line "@ + crate::text::decimal(
            line as nat,
        ) + " is not valid: "@ + source@,
        RecordError::Empty => "event log is empty (missing header line)"@,
    }
}

/// An error is reported with what it says of itself: the system's words or
/// the parser's at the end, and the parser's behind the number of the line.
pub proof fn law_what_a_record_error_reports(error: RecordError)
    ensures
        error matches RecordError::Io(source) ==> "event log I/O failed: "@.is_prefix_of(
            record_error_text(error),
        ) && source@.is_suffix_of(record_error_text(error)),
        error matches RecordError::Parse { line, source } ==> ("event log line "@
            + crate::text::decimal(line as nat)).is_prefix_of(record_error_text(error)) && (
        " is not valid: "@ + source@).is_suffix_of(record_error_text(error)),
        error is Empty ==> record_error_text(error) == "event log is empty (missing header line)"@,
{
    let text = record_error_text(error);
    match error {
        RecordError::Io(source) => {
            let front = "event log I/O failed: "@;
            assert(text.take(front.len() as int) =~= front);
            assert(text.subrange(text.len() - source@.len(), text.len() as int) =~= source@);
        },
        RecordError::Parse { line, source } => {
            let front = "event log line "@ + crate::text::decimal(line as nat);
            let back = " is not valid: "@ + source@;
            assert(text =~= front + back);
            assert(text.take(front.len() as int) =~= front);
            assert(text.subrange(text.len() - back.len(), text.len() as int) =~= back);
        },
        RecordError::Empty => {},
    }
}

impl RecordError {
    /// The report of this error.
    pub fn to_string(&self) -> (text: String)
        ensures
            text@ == record_error_text(*self),
    {
        match self {
            RecordError::Io(source) => "event log I/O failed: ".to_owned().concat(source.as_str()),
            RecordError::Parse { line, source } => "event log line ".to_owned().concat(
                crate::text::decimal_text(*line as u64).as_str(),
            ).concat(" is not valid: ").concat(source.as_str()),
            RecordError::Empty => "event log is empty (missing header line)".to_owned(),
        }
    }
}

/// A complete recorded run.
#[derive(Debug, Clone, PartialEq, Eq)]
pub struct EventLog {
    pub header: LogHeader,
    pub events: Vec<LogEvent>,
}

// ---------------------------------------------------------------------------
// What the records say
// ---------------------------------------------------------------------------

/// What an observation says.
pub enum ObservationModel {
    BudgetMissed {
        path: Seq<char>,
        sim_time: SimTime,
        step: WallDuration,
        budget: WallDuration,
    },
    TimedOut {
        path: Seq<char>,
        sim_time: SimTime,
        waited: WallDuration,
        timeout: WallDuration,
        policy: OnTimeout,
    },
    JoinRequested { path: Seq<char>, first_due: SimTime },
    LeaveRequested { path: Seq<char>, leaves_at: Option<SimTime> },
}

/// What a membership change says.
pub enum MembershipModel {
    Joined { path: Seq<char>, first_due: SimTime },
    Left { path: Seq<char>, leaves_at: SimTime },
}

/// What a log line says.
pub enum LogEventModel {
    Msg {
        sim_time: SimTime,
        key: Seq<char>,
        publisher: Seq<char>,
        seq: u64,
        payload: Seq<char>,
    },
    Tick(TickFingerprint),
    Join { path: Seq<char>, first_due: SimTime },
    Leave { path: Seq<char>, leaves_at: SimTime },
    Observed(ObservationModel),
}

/// What a log header says.
pub struct HeaderModel {
    pub version: u32,
    pub world_name: Seq<char>,
    pub world_seed: u64,
}

impl View for RecordedObservation {
    type V = ObservationModel;

    open spec fn view(&self) -> ObservationModel {
        match self {
            RecordedObservation::BudgetMissed(miss) => ObservationModel::BudgetMissed {
                path: miss.path@,
                sim_time: miss.sim_time,
                step: miss.step,
                budget: miss.budget,
            },
            RecordedObservation::TimedOut(late) => ObservationModel::TimedOut {
                path: late.path@,
                sim_time: late.sim_time,
                waited: late.waited,
                timeout: late.timeout,
                policy: late.policy,
            },
            RecordedObservation::JoinRequested(request) => ObservationModel::JoinRequested {
                path: request.path@,
                first_due: request.first_due,
            },
            RecordedObservation::LeaveRequested(request) => ObservationModel::LeaveRequested {
                path: request.path@,
                leaves_at: request.leaves_at,
            },
        }
    }
}

impl View for MembershipChange {
    type V = MembershipModel;

    open spec fn view(&self) -> MembershipModel {
        match self {
            MembershipChange::Joined(join) => MembershipModel::Joined {
                path: join.path@,
                first_due: join.first_due,
            },
            MembershipChange::Left(leave) => MembershipModel::Left {
                path: leave.path@,
                leaves_at: leave.leaves_at,
            },
        }
    }
}

impl View for LogEvent {
    type V = LogEventModel;

    open spec fn view(&self) -> LogEventModel {
        match self {
            LogEvent::Msg(m) => LogEventModel::Msg {
                sim_time: m.sim_time,
                key: m.key@,
                publisher: m.publisher@,
                seq: m.seq,
                payload: m.payload@,
            },
            LogEvent::Tick(fingerprint) => LogEventModel::Tick(*fingerprint),
            LogEvent::Join(join) => LogEventModel::Join {
                path: join.path@,
                first_due: join.first_due,
            },
            LogEvent::Leave(leave) => LogEventModel::Leave {
                path: leave.path@,
                leaves_at: leave.leaves_at,
            },
            LogEvent::Observed(observation) => LogEventModel::Observed(observation@),
        }
    }
}

impl View for LogHeader {
    type V = HeaderModel;

    open spec fn view(&self) -> HeaderModel {
        HeaderModel {
            version: self.version,
            world_name: self.world_name@,
            world_seed: self.world_seed,
        }
    }
}

/// The views of a sequence of log lines.
pub open spec fn event_models(events: Seq<LogEvent>) -> Seq<LogEventModel> {
    Seq::new(events.len(), |i: int| events[i]@)
}

/// A message as a log line.
pub open spec fn recorded(m: MessageModel) -> LogEventModel {
    LogEventModel::Msg {
        sim_time: m.sim_time,
        key: m.key,
        publisher: crate::ids::path_text(m.publisher),
        seq: m.seq,
        payload: crate::json::payload_text(m.payload),
    }
}

/// A membership change as a log line.
pub open spec fn membership_line(change: MembershipModel) -> LogEventModel {
    match change {
        MembershipModel::Joined { path, first_due } => LogEventModel::Join { path, first_due },
        MembershipModel::Left { path, leaves_at } => LogEventModel::Leave { path, leaves_at },
    }
}

/// The header of a log of the run that a configuration describes.
pub open spec fn header_of(config: ConductorConfig) -> HeaderModel {
    HeaderModel { version: 1, world_name: config.world_name@, world_seed: config.world_seed }
}

// ---------------------------------------------------------------------------
// Building records
// ---------------------------------------------------------------------------

impl LogEvent {
    /// What kind of line this is, for a reader.
    pub fn kind(&self) -> (kind: &'static str)
        ensures
            kind@ == kind_text(self@),
    {
        match self {
            LogEvent::Msg(_) => "msg",
            LogEvent::Tick(_) => "tick",
            LogEvent::Join(_) => "join",
            LogEvent::Leave(_) => "leave",
            LogEvent::Observed(_) => "observed",
        }
    }

    /// A copy of this line.
    pub fn duplicate(&self) -> (copy: LogEvent)
        ensures
            copy@ == self@,
    {
        match self {
            LogEvent::Msg(m) => LogEvent::Msg(
                RecordedMessage {
                    sim_time: m.sim_time,
                    key: m.key.clone(),
                    publisher: m.publisher.clone(),
                    seq: m.seq,
                    payload: m.payload.clone(),
                },
            ),
            LogEvent::Tick(fingerprint) => LogEvent::Tick(*fingerprint),
            LogEvent::Join(join) => LogEvent::Join(
                RecordedJoin { path: join.path.clone(), first_due: join.first_due },
            ),
            LogEvent::Leave(leave) => LogEvent::Leave(
                RecordedLeave { path: leave.path.clone(), leaves_at: leave.leaves_at },
            ),
            LogEvent::Observed(observation) => LogEvent::Observed(observation.duplicate()),
        }
    }
}

/// What kind of line a log line is, for a reader.
pub open spec fn kind_text(event: LogEventModel) -> Seq<char> {
    match event {
        LogEventModel::Msg { .. } => "msg"@,
        LogEventModel::Tick(_) => "tick"@,
        LogEventModel::Join { .. } => "join"@,
        LogEventModel::Leave { .. } => "leave"@,
        LogEventModel::Observed(_) => "observed"@,
    }
}

/// The name of a line's kind tells the kinds apart.
pub proof fn law_a_lines_kind_is_told_by_its_name(event: LogEventModel)
    ensures
        kind_text(event) == "msg"@ <==> event is Msg,
        kind_text(event) == "tick"@ <==> event is Tick,
        kind_text(event) == "join"@ <==> event is Join,
        kind_text(event) == "leave"@ <==> event is Leave,
        kind_text(event) == "observed"@ <==> event is Observed,
{
    reveal_strlit("msg");
    reveal_strlit("tick");
    reveal_strlit("join");
    reveal_strlit("leave");
    reveal_strlit("observed");
    assert("tick"@[0] == 't' && "join"@[0] == 'j');
    assert("msg"@.len() == 3 && "tick"@.len() == 4 && "join"@.len() == 4 && "leave"@.len() == 5
        && "observed"@.len() == 8);
}

impl RecordedObservation {
    /// A copy of this observation.
    pub fn duplicate(&self) -> (copy: RecordedObservation)
        ensures
            copy@ == self@,
    {
        match self {
            RecordedObservation::BudgetMissed(miss) => RecordedObservation::BudgetMissed(
                RecordedBudgetMiss {
                    path: miss.path.clone(),
                    sim_time: miss.sim_time,
                    step: miss.step,
                    budget: miss.budget,
                },
            ),
            RecordedObservation::TimedOut(late) => RecordedObservation::TimedOut(
                RecordedTimeout {
                    path: late.path.clone(),
                    sim_time: late.sim_time,
                    waited: late.waited,
                    timeout: late.timeout,
                    policy: late.policy,
                },
            ),
            RecordedObservation::JoinRequested(request) => RecordedObservation::JoinRequested(
                RecordedJoinRequest { path: request.path.clone(), first_due: request.first_due },
            ),
            RecordedObservation::LeaveRequested(request) => RecordedObservation::LeaveRequested(
                RecordedLeaveRequest { path: request.path.clone(), leaves_at: request.leaves_at },
            ),
        }
    }
}

impl MembershipChange {
    /// This change as a log line.
    pub fn line(&self) -> (event: LogEvent)
        ensures
            event@ == membership_line(self@),
    {
        match self {
            MembershipChange::Joined(join) => LogEvent::Join(
                RecordedJoin { path: join.path.clone(), first_due: join.first_due },
            ),
            MembershipChange::Left(leave) => LogEvent::Leave(
                RecordedLeave { path: leave.path.clone(), leaves_at: leave.leaves_at },
            ),
        }
    }
}

/// Converts a live transport message into its recorded form, paths flattened
/// and payload embedded as the raw text of its JSON.
pub fn recorded_message(m: &Message) -> (event: LogEvent)
    requires
        crate::json::payload_is_json(m.payload@),
    ensures
        event@ == recorded(m@),
{
    let payload = match payload_json(&m.payload) {
        Some(payload) => payload,
        None => String::new(),
    };
    LogEvent::Msg(
        RecordedMessage {
            sim_time: m.sim_time,
            key: m.key.to_string(),
            publisher: m.publisher.to_string(),
            seq: m.seq,
            payload,
        },
    )
}

/// The recorded form of a message whose payload is JSON, or `None` where it
/// is not.
pub fn try_recorded_message(m: &Message) -> (event: Option<LogEvent>)
    ensures
        match event {
            Some(line) => crate::json::payload_is_json(m.payload@) && line@ == recorded(m@),
            None => !crate::json::payload_is_json(m.payload@),
        },
{
    match payload_json(&m.payload) {
        Some(_) => Some(recorded_message(m)),
        None => None,
    }
}

/// The world hash of the latest tick in some log lines.
pub open spec fn last_world_hash(events: Seq<LogEventModel>) -> Option<u64>
    decreases events.len(),
{
    if events.len() == 0 {
        None
    } else {
        match events.last() {
            LogEventModel::Tick(fingerprint) => Some(fingerprint.world_hash),
            _ => last_world_hash(events.drop_last()),
        }
    }
}

/// The final world hash of a log is that of its last tick: of a tick that no
/// later line is one after.
pub proof fn law_the_final_world_hash_is_the_last_ticks(events: Seq<LogEventModel>, i: int)
    requires
        0 <= i < events.len(),
        events[i] is Tick,
        forall|j: int| i < j < events.len() ==> !(#[trigger] events[j] is Tick),
    ensures
        last_world_hash(events) == Some(events[i]->Tick_0.world_hash),
    decreases events.len(),
{
    if i < events.len() - 1 {
        assert(!(events[events.len() - 1] is Tick));
        let front = events.drop_last();
        assert forall|j: int| i < j < front.len() implies !(#[trigger] front[j] is Tick) by {
            assert(!(events[j] is Tick));
        }
        law_the_final_world_hash_is_the_last_ticks(front, i);
    }
}

/// A log has no final world hash exactly where it has no tick. Recording a
/// tick makes its world hash the final one, and recording anything else
/// leaves the final one as it was.
pub proof fn law_recording_a_tick_makes_its_hash_final(
    events: Seq<LogEventModel>,
    next: LogEventModel,
)
    ensures
        last_world_hash(events) is None <==> forall|i: int|
            0 <= i < events.len() ==> !(#[trigger] events[i] is Tick),
        last_world_hash(events.push(next)) == (if next is Tick {
            Some(next->Tick_0.world_hash)
        } else {
            last_world_hash(events)
        }),
    decreases events.len(),
{
    assert(events.push(next).drop_last() =~= events);
    if events.len() > 0 {
        let front = events.drop_last();
        law_recording_a_tick_makes_its_hash_final(front, next);
        if events.last() is Tick {
            assert(events[events.len() - 1] is Tick);
        } else {
            assert forall|i: int| 0 <= i < front.len() implies front[i] == #[trigger] events[i] by {
            }
        }
    }
}

/// A recorded message keeps its instant, its key and its number, and names
/// its publisher by the text that reads as the publisher's path.
pub proof fn law_what_a_recorded_message_says(m: MessageModel)
    requires
        crate::ids::valid_path(m.publisher),
    ensures
        recorded(m) is Msg,
        recorded(m)->Msg_sim_time == m.sim_time,
        recorded(m)->Msg_key == m.key,
        recorded(m)->Msg_seq == m.seq,
        crate::ids::parse_path(recorded(m)->Msg_publisher) == Ok::<Seq<Seq<char>>, Seq<char>>(
            m.publisher,
        ),
{
    crate::ids::law_parse_undoes_display(m.publisher);
}

/// A join is recorded as a join and a leave as a leave, of whom it is and for
/// the instant it is for.
pub proof fn law_what_a_recorded_change_says(path: Seq<char>, instant: SimTime)
    ensures
        membership_line(MembershipModel::Joined { path, first_due: instant })
            == (LogEventModel::Join { path, first_due: instant }),
        membership_line(MembershipModel::Left { path, leaves_at: instant })
            == (LogEventModel::Leave { path, leaves_at: instant }),
{
}

/// A log names the world and the seed of the run that it is of, and the first
/// version of its format.
pub proof fn law_what_a_header_says(config: ConductorConfig)
    ensures
        header_of(config).world_name == config.world_name@,
        header_of(config).world_seed == config.world_seed,
        header_of(config).version == 1,
{
}

impl EventLog {
    /// Latest world hash in the log, if any tick was recorded.
    pub fn final_world_hash(&self) -> (hash: Option<u64>)
        ensures
            hash == last_world_hash(event_models(self.events@)),
    {
        let ghost all = event_models(self.events@);
        let mut i: usize = self.events.len();
        proof {
            assert(all.take(i as int) =~= all);
        }
        while i > 0
            invariant
                all == event_models(self.events@),
                0 <= i <= self.events@.len(),
                last_world_hash(all.take(i as int)) == last_world_hash(all),
            decreases i,
        {
            i -= 1;
            proof {
                assert(all.take(i + 1).drop_last() =~= all.take(i as int));
                assert(all.take(i + 1).last() == self.events@[i as int]@);
            }
            match &self.events[i] {
                LogEvent::Tick(fingerprint) => {
                    return Some(fingerprint.world_hash);
                },
                _ => {},
            }
        }
        proof {
            assert(all.take(0) =~= Seq::<LogEventModel>::empty());
        }
        None
    }

    /// A copy of this log.
    pub fn duplicate(&self) -> (copy: EventLog)
        ensures
            copy.header@ == self.header@,
            event_models(copy.events@) == event_models(self.events@),
    {
        let mut events: Vec<LogEvent> = Vec::new();
        let mut i: usize = 0;
        while i < self.events.len()
            invariant
                0 <= i <= self.events@.len(),
                event_models(events@) == event_models(self.events@).take(i as int),
            decreases self.events@.len() - i,
        {
            let ghost before = events@;
            events.push(self.events[i].duplicate());
            proof {
                assert(event_models(events@) =~= event_models(before).push(
                    self.events@[i as int]@,
                ));
                assert(event_models(self.events@).take(i + 1) =~= event_models(self.events@).take(
                    i as int,
                ).push(self.events@[i as int]@));
            }
            i += 1;
        }
        proof {
            assert(event_models(self.events@).take(i as int) =~= event_models(self.events@));
        }
        EventLog {
            header: LogHeader {
                version: self.header.version,
                world_name: self.header.world_name.clone(),
                world_seed: self.header.world_seed,
            },
            events,
        }
    }
}

/// Collects a run into an [`EventLog`]: hand every published message to
/// [`Recorder::message_callback`], every fingerprint to
/// [`Recorder::tick_callback`], and so on, then call [`Recorder::finish`].
#[derive(Debug)]
pub struct Recorder {
    pub log: EventLog,
}

impl Recorder {
    /// What has been recorded.
    pub open spec fn events(&self) -> Seq<LogEventModel> {
        event_models(self.log.events@)
    }

    /// A recorder with nothing recorded, for the run that `config` describes,
    /// so that the header always names the run that produced the log.
    pub fn new(config: &ConductorConfig) -> (recorder: Self)
        ensures
            recorder.log.header@ == header_of(*config),
            recorder.events() == Seq::<LogEventModel>::empty(),
    {
        let recorder = Recorder {
            log: EventLog {
                header: LogHeader {
                    version: 1,
                    world_name: config.world_name.clone(),
                    world_seed: config.world_seed,
                },
                events: Vec::new(),
            },
        };
        proof {
            assert(recorder.events() =~= Seq::<LogEventModel>::empty());
        }
        recorder
    }

    /// Records a line behind what was recorded before.
    fn push(&mut self, event: LogEvent)
        ensures
            final(self).log.header == old(self).log.header,
            final(self).events() == old(self).events().push(event@),
    {
        self.log.events.push(event);
        proof {
            assert(self.events() =~= old(self).events().push(event@));
        }
    }

    /// Records a published message.
    pub fn message_callback(&mut self, m: &Message)
        requires
            crate::json::payload_is_json(m.payload@),
        ensures
            final(self).log.header == old(self).log.header,
            final(self).events() == old(self).events().push(recorded(m@)),
    {
        self.push(recorded_message(m));
    }

    /// Records a published message whose payload is JSON; one whose payload
    /// is not leaves the log as it was. Returns whether it was recorded.
    pub fn try_message(&mut self, m: &Message) -> (done: bool)
        ensures
            done == crate::json::payload_is_json(m.payload@),
            final(self).log.header == old(self).log.header,
            final(self).events() == (if done {
                old(self).events().push(recorded(m@))
            } else {
                old(self).events()
            }),
    {
        if payload_json(&m.payload).is_some() {
            self.message_callback(m);
            true
        } else {
            false
        }
    }

    /// Records a tick fingerprint.
    pub fn tick_callback(&mut self, fingerprint: &TickFingerprint)
        ensures
            final(self).log.header == old(self).log.header,
            final(self).events() == old(self).events().push(LogEventModel::Tick(*fingerprint)),
    {
        self.push(LogEvent::Tick(*fingerprint));
    }

    /// Records a membership change.
    pub fn membership_callback(&mut self, change: &MembershipChange)
        ensures
            final(self).log.header == old(self).log.header,
            final(self).events() == old(self).events().push(membership_line(change@)),
    {
        self.push(change.line());
    }

    /// Records an observation.
    pub fn observation_callback(&mut self, observation: &RecordedObservation)
        ensures
            final(self).log.header == old(self).log.header,
            final(self).events() == old(self).events().push(
                LogEventModel::Observed(observation@),
            ),
    {
        self.push(LogEvent::Observed(observation.duplicate()));
    }

    /// A snapshot of everything recorded so far.
    pub fn finish(&self) -> (log: EventLog)
        ensures
            log.header@ == self.log.header@,
            event_models(log.events@) == self.events(),
    {
        self.log.duplicate()
    }
}

// ---------------------------------------------------------------------------
// JSON lines
// ---------------------------------------------------------------------------

/// The characters with the Unicode property `White_Space`: tab to carriage
/// return, the space, and the spaces and line breaks beyond ASCII.
pub open spec fn is_white(c: char) -> bool {
    let code = c as u32;
    ||| 0x09 <= code <= 0x0d
    ||| code == 0x20
    ||| code == 0x85
    ||| code == 0xa0
    ||| code == 0x1680
    ||| 0x2000 <= code <= 0x200a
    ||| code == 0x2028
    ||| code == 0x2029
    ||| code == 0x202f
    ||| code == 0x205f
    ||| code == 0x3000
}

/// `char::is_whitespace` holds of exactly the characters with the Unicode
/// property `White_Space`.
pub assume_specification[ char::is_whitespace ](c: char) -> (white: bool)
    ensures
        white == is_white(c),
;

/// Whether a line holds nothing but whitespace.
pub open spec fn is_blank(line: Seq<char>) -> bool {
    forall|i: int| 0 <= i < line.len() ==> is_white(#[trigger] line[i])
}

/// A line without the carriage return that belongs to its line ending.
pub open spec fn chomp(line: Seq<char>) -> Seq<char> {
    if line.len() > 0 && line.last() == '\r' {
        line.drop_last()
    } else {
        line
    }
}

/// The lines of a text: what stands between its newlines, each without a
/// carriage return right before the newline.
pub open spec fn lines_of(text: Seq<char>) -> Seq<Seq<char>> {
    let parts = crate::text::split(text, '\n');
    Seq::new(
        parts.len(),
        |i: int|
            if i < parts.len() - 1 {
                chomp(parts[i])
            } else {
                parts[i]
            },
    )
}

/// The lines that hold something, each with its number counted from one.
pub open spec fn numbered(lines: Seq<Seq<char>>) -> Seq<(int, Seq<char>)>
    decreases lines.len(),
{
    if lines.len() == 0 {
        Seq::empty()
    } else {
        let before = numbered(lines.drop_last());
        if is_blank(lines.last()) {
            before
        } else {
            before.push((lines.len() as int, lines.last()))
        }
    }
}

/// A log's lines written one after another, the header first, each ended by a
/// newline.
pub open spec fn jsonl(header: Seq<char>, events: Seq<Seq<char>>) -> Seq<char>
    decreases events.len(),
{
    if events.len() == 0 {
        header.push('\n')
    } else {
        jsonl(header, events.drop_last()) + events.last().push('\n')
    }
}

/// Every line that holds something is read once, under its own number, in
/// the order of the lines, and no other is.
pub proof fn law_every_line_that_holds_something_is_read(lines: Seq<Seq<char>>)
    ensures
        forall|n: int, line: Seq<char>|
            #![trigger numbered(lines).contains((n, line))]
            numbered(lines).contains((n, line)) <==> 1 <= n <= lines.len() && lines[n - 1] == line
                && exists|i: int| 0 <= i < line.len() && !is_white(#[trigger] line[i]),
        forall|i: int, j: int|
            0 <= i < j < numbered(lines).len() ==> (#[trigger] numbered(lines)[i]).0 < (
            #[trigger] numbered(lines)[j]).0,
        forall|i: int|
            0 <= i < numbered(lines).len() ==> (#[trigger] numbered(lines)[i]).0 <= lines.len(),
    decreases lines.len(),
{
    if lines.len() > 0 {
        let front = lines.drop_last();
        let before = numbered(front);
        let all = numbered(lines);
        law_every_line_that_holds_something_is_read(front);
        assert forall|n: int, line: Seq<char>| #[trigger] all.contains((n, line)) <==> (1 <= n
            <= lines.len() && lines[n - 1] == line && exists|i: int|
            0 <= i < line.len() && !is_white(#[trigger] line[i])) by {
            if all.contains((n, line)) {
                let k = choose|k: int| 0 <= k < all.len() && all[k] == (n, line);
                if k < before.len() {
                    assert(before[k] == (n, line));
                    assert(before.contains((n, line)));
                    assert(front[n - 1] == lines[n - 1]);
                }
            }
            if 1 <= n <= lines.len() && lines[n - 1] == line && (exists|i: int|
                0 <= i < line.len() && !is_white(#[trigger] line[i])) {
                if n < lines.len() {
                    assert(front[n - 1] == line);
                    assert(before.contains((n, line)));
                    let k = choose|k: int| 0 <= k < before.len() && before[k] == (n, line);
                    assert(all[k] == (n, line));
                } else {
                    assert(all[all.len() - 1] == (n, line));
                }
            }
        }
        assert forall|i: int, j: int| 0 <= i < j < all.len() implies (#[trigger] all[i]).0 < (
        #[trigger] all[j]).0 by {
            assert(all[i] == before[i]);
            if j < before.len() {
                assert(all[j] == before[j]);
            }
        }
        assert forall|i: int| 0 <= i < all.len() implies (#[trigger] all[i]).0 <= lines.len() by {
            if i < before.len() {
                assert(all[i] == before[i]);
            }
        }
    }
}

/// The lines of a text are what stands between its newlines; a carriage
/// return right in front of a newline belongs to the newline, and one at the
/// end of the text to the text.
pub proof fn law_what_the_lines_of_a_text_are(parts: Seq<Seq<char>>, i: int)
    requires
        0 <= i < parts.len(),
        forall|k: int| 0 <= k < parts.len() ==> !(#[trigger] parts[k]).contains('\n'),
    ensures
        ({
            let lines = lines_of(crate::text::join(parts, '\n'));
            &&& lines.len() == parts.len()
            &&& i == parts.len() - 1 ==> lines[i] == parts[i]
            &&& i < parts.len() - 1 && (parts[i].len() == 0 || parts[i].last() != '\r') ==> lines[i]
                == parts[i]
            &&& i < parts.len() - 1 && parts[i].len() > 0 && parts[i].last() == '\r' ==> lines[i]
                == parts[i].drop_last()
        }),
{
    crate::text::law_split_undoes_join(parts, '\n');
}

/// A log is its header and its events, in order, each with a newline behind
/// it.
pub proof fn law_a_log_is_its_lines(header: Seq<char>, events: Seq<Seq<char>>)
    ensures
        jsonl(header, events) == crate::text::join(
            (seq![header] + events).push(Seq::<char>::empty()),
            '\n',
        ),
    decreases events.len(),
{
    let lines = (seq![header] + events).push(Seq::<char>::empty());
    assert(lines.drop_last() =~= seq![header] + events);
    assert(lines.last() =~= Seq::<char>::empty());
    if events.len() == 0 {
        reveal_with_fuel(crate::text::join, 2);
        assert(seq![header] + events =~= seq![header]);
        assert(jsonl(header, events) =~= crate::text::join(lines, '\n'));
    } else {
        let front = events.drop_last();
        law_a_log_is_its_lines(header, front);
        let before = (seq![header] + front).push(Seq::<char>::empty());
        assert(before.drop_last() =~= seq![header] + front);
        assert(before.last() =~= Seq::<char>::empty());
        let whole = seq![header] + events;
        assert(whole.drop_last() =~= seq![header] + front);
        assert(whole.last() == events.last());
        assert(crate::text::join(before, '\n') =~= crate::text::join(
            seq![header] + front,
            '\n',
        ).push('\n'));
        assert(crate::text::join(whole, '\n') =~= crate::text::join(before, '\n')
            + events.last());
        assert(jsonl(header, events) =~= crate::text::join(lines, '\n'));
    }
}

/// A log's lines told apart, before they are parsed: the header, and the
/// events with their line numbers.
#[derive(Debug)]
pub struct JsonLines {
    pub header: String,
    pub events: Vec<(usize, String)>,
}

/// What a sequence of numbered lines says.
pub open spec fn numbered_models(lines: Seq<(usize, String)>) -> Seq<(int, Seq<char>)> {
    Seq::new(lines.len(), |i: int| (lines[i].0 as int, lines[i].1@))
}

/// Whether a line holds nothing but whitespace.
fn line_is_blank(line: &str) -> (blank: bool)
    ensures
        blank == is_blank(line@),
{
    let chars = chars_of(line);
    let mut i: usize = 0;
    while i < chars.len()
        invariant
            chars@ == line@,
            0 <= i <= chars@.len(),
            forall|j: int| 0 <= j < i ==> is_white(#[trigger] chars@[j]),
        decreases chars@.len() - i,
    {
        if !chars[i].is_whitespace() {
            return false;
        }
        i += 1;
    }
    true
}

/// A line without the carriage return that belongs to its line ending.
fn chomp_line(line: &str) -> (chomped: String)
    ensures
        chomped@ == chomp(line@),
{
    let mut chars = chars_of(line);
    if chars.len() > 0 && chars[chars.len() - 1] == '\r' {
        chars.pop();
    }
    text_of(&chars)
}

impl EventLog {
    /// Writes serialized lines as JSON lines: header first, one event per
    /// line.
    pub fn to_jsonl(header: &str, events: &Vec<String>) -> (text: String)
        ensures
            text@ == jsonl(header@, crate::text::texts(events@)),
    {
        let mut text = header.to_owned();
        text.push('\n');
        let mut i: usize = 0;
        let ghost all = crate::text::texts(events@);
        proof {
            assert(all.take(0) =~= Seq::<Seq<char>>::empty());
        }
        while i < events.len()
            invariant
                all == crate::text::texts(events@),
                0 <= i <= events@.len(),
                text@ == jsonl(header@, all.take(i as int)),
            decreases events@.len() - i,
        {
            proof {
                assert(all.take(i + 1).drop_last() =~= all.take(i as int));
                assert(all.take(i + 1).last() == events@[i as int]@);
            }
            let ghost before = text@;
            text.append(events[i].as_str());
            text.push('\n');
            proof {
                assert(text@ =~= before + events@[i as int]@.push('\n'));
            }
            i += 1;
        }
        proof {
            assert(all.take(i as int) =~= all);
        }
        text
    }

    /// Tells the lines of a JSON-lines text apart, skipping blank ones: the
    /// first that is left is the header. A text without one is no log.
    pub fn from_jsonl(text: &str) -> (lines: Result<JsonLines, RecordError>)
        ensures
            match lines {
                Ok(found) => numbered(lines_of(text@)).len() > 0 && found.header@ == numbered(
                    lines_of(text@),
                )[0].1 && numbered_models(found.events@) == numbered(lines_of(text@)).drop_first(),
                Err(error) => error is Empty && numbered(lines_of(text@)).len() == 0,
            },
    {
        let parts = split_text(text, '\n');
        let ghost all = lines_of(text@);
        let mut header: Option<String> = None;
        let mut events: Vec<(usize, String)> = Vec::new();
        let mut i: usize = 0;
        proof {
            assert(all.take(0) =~= Seq::<Seq<char>>::empty());
            assert(numbered_models(events@) =~= Seq::<(int, Seq<char>)>::empty());
        }
        while i < parts.len()
            invariant
                all == lines_of(text@),
                crate::text::texts(parts@) == crate::text::split(text@, '\n'),
                0 <= i <= parts@.len(),
                all.len() == parts@.len(),
                match header {
                    Some(line) => numbered(all.take(i as int)).len() > 0 && line@ == numbered(
                        all.take(i as int),
                    )[0].1 && numbered_models(events@) == numbered(
                        all.take(i as int),
                    ).drop_first(),
                    None => numbered(all.take(i as int)).len() == 0 && events@.len() == 0,
                },
            decreases parts@.len() - i,
        {
            let ghost before = numbered(all.take(i as int));
            proof {
                assert(crate::text::texts(parts@)[i as int] == parts@[i as int]@);
                assert(all.take(i + 1).drop_last() =~= all.take(i as int));
                assert(all.take(i + 1).last() == all[i as int]);
            }
            let line = if i + 1 < parts.len() {
                chomp_line(parts[i].as_str())
            } else {
                parts[i].clone()
            };
            if !line_is_blank(line.as_str()) {
                if header.is_none() {
                    header = Some(line);
                    proof {
                        assert(numbered(all.take(i + 1)) =~= seq![(i + 1, line@)]);
                        assert(numbered_models(events@) =~= numbered(all.take(i + 1)).drop_first());
                    }
                } else {
                    let ghost kept = events@;
                    events.push((i + 1, line));
                    proof {
                        assert(numbered_models(events@) =~= numbered_models(kept).push(
                            (i + 1, line@),
                        ));
                        assert(numbered(all.take(i + 1)).drop_first() =~= before.drop_first().push(
                            (i + 1, line@),
                        ));
                    }
                }
            }
            i += 1;
        }
        proof {
            assert(all.take(i as int) =~= all);
        }
        match header {
            Some(header) => Ok(JsonLines { header, events }),
            None => Err(RecordError::Empty),
        }
    }
}

/// Whether a line comes back as it was written: it holds something, and
/// nothing in it reads as the end of a line.
pub open spec fn keeps_as_a_line(line: Seq<char>) -> bool {
    &&& !is_blank(line)
    &&& !line.contains('\n')
    &&& line.last() != '\r'
}

proof fn lemma_jsonl_parts(header: Seq<char>, events: Seq<Seq<char>>)
    requires
        !header.contains('\n'),
        forall|i: int| 0 <= i < events.len() ==> !(#[trigger] events[i]).contains('\n'),
    ensures
        jsonl(header, events).len() > 0,
        jsonl(header, events).last() == '\n',
        crate::text::split(jsonl(header, events), '\n') == (seq![header] + events).push(
            Seq::<char>::empty(),
        ),
    decreases events.len(),
{
    let text = jsonl(header, events);
    if events.len() == 0 {
        assert(text.drop_last() =~= header);
        crate::text::lemma_split_single(header, '\n');
        assert(seq![header] + events =~= seq![header]);
    } else {
        let front = events.drop_last();
        assert forall|i: int| 0 <= i < front.len() implies !(#[trigger] front[i]).contains(
            '\n',
        ) by {
            assert(!events[i].contains('\n'));
        }
        lemma_jsonl_parts(header, front);
        let before = jsonl(header, front).drop_last();
        assert(jsonl(header, front) =~= before.push('\n'));
        assert(crate::text::split(before, '\n') =~= seq![header] + front) by {
            assert(before.push('\n').drop_last() =~= before);
            let parts = crate::text::split(before.push('\n'), '\n');
            assert(parts.drop_last() =~= crate::text::split(before, '\n'));
            assert(parts.drop_last() =~= seq![header] + front);
        }
        assert(text.drop_last() =~= before.push('\n') + events.last());
        assert(!events[events.len() - 1].contains('\n'));
        crate::text::lemma_split_last_part(before, events.last(), '\n');
        assert((seq![header] + front).push(events.last()) =~= seq![header] + events);
    }
}

proof fn lemma_numbered_lines(lines: Seq<Seq<char>>)
    requires
        forall|i: int| 0 <= i < lines.len() ==> !is_blank(#[trigger] lines[i]),
    ensures
        numbered(lines) == Seq::new(lines.len(), |i: int| (i + 1, lines[i])),
    decreases lines.len(),
{
    if lines.len() > 0 {
        let front = lines.drop_last();
        assert forall|i: int| 0 <= i < front.len() implies !is_blank(#[trigger] front[i]) by {
            assert(!is_blank(lines[i]));
        }
        lemma_numbered_lines(front);
        assert(!is_blank(lines[lines.len() - 1]));
    }
    assert(numbered(lines) =~= Seq::new(lines.len(), |i: int| (i + 1, lines[i])));
}

/// A JSON object that is written without line breaks keeps as a line.
pub proof fn law_an_object_keeps_as_a_line(line: Seq<char>)
    requires
        line.len() >= 2,
        line[0] == '{',
        line.last() == '}',
        !line.contains('\n'),
    ensures
        keeps_as_a_line(line),
{
    assert(!is_white(line[0]));
}

/// Reading a written log's lines gives back what was written: the header on
/// the first line, and every event on the line that it was written on.
pub proof fn law_reading_undoes_writing(header: Seq<char>, events: Seq<Seq<char>>)
    requires
        keeps_as_a_line(header),
        forall|i: int| 0 <= i < events.len() ==> keeps_as_a_line(#[trigger] events[i]),
    ensures
        numbered(lines_of(jsonl(header, events))).len() == events.len() + 1,
        numbered(lines_of(jsonl(header, events)))[0] == (1int, header),
        numbered(lines_of(jsonl(header, events))).drop_first() == Seq::new(
            events.len(),
            |i: int| (i + 2, events[i]),
        ),
{
    let text = jsonl(header, events);
    assert forall|i: int| 0 <= i < events.len() implies !(#[trigger] events[i]).contains('\n') by {
        assert(keeps_as_a_line(events[i]));
    }
    lemma_jsonl_parts(header, events);
    let kept = seq![header] + events;
    let lines = lines_of(text);
    assert forall|i: int| 0 <= i < kept.len() implies keeps_as_a_line(#[trigger] kept[i]) by {
        if i > 0 {
            assert(keeps_as_a_line(events[i - 1]));
        }
    }
    assert forall|i: int| 0 <= i < kept.len() implies lines[i] == kept[i] by {
        assert(keeps_as_a_line(kept[i]));
    }
    assert(lines.drop_last() =~= kept);
    assert(lines.last() =~= Seq::<char>::empty());
    assert(is_blank(lines.last()));
    lemma_numbered_lines(kept);
    assert(numbered(lines) == numbered(kept));
    assert(numbered(lines).drop_first() =~= Seq::new(events.len(), |i: int| (i + 2, events[i])));
}

} // verus!
