//! Comparing runs against a recorded log: the [`Divergence`] two runs
//! disagree at, found either live during a re-run ([`Verifier`]) or after
//! the fact between two recorded logs ([`EventLog::first_divergence`]).
use vstd::prelude::*;
use vstd::string::*;

use crate::config::ConductorConfig;
use crate::json::payload_json;
use crate::messages::Message;
use crate::record::{
    recorded_message, EventLog, HeaderModel, LogEvent, LogEventModel, LogHeader, MembershipChange,
    RecordedJoin, RecordedLeave, RecordedMessage, TickFingerprint,
};
use crate::text::{debug_text, decimal_text, same_text, signed_text};
use crate::time::SimTime;

verus! {

/// The earliest point at which two logs disagree.
#[derive(Debug, Clone, PartialEq, Eq)]
pub struct Divergence {
    /// Index into `events` (0-based); `None` for header mismatches.
    pub event_index: Option<usize>,
    pub description: String,
}

/// What a [`Divergence`] says.
pub struct DivergenceModel {
    pub event_index: Option<int>,
    pub description: Seq<char>,
}

impl View for Divergence {
    type V = DivergenceModel;

    open spec fn view(&self) -> DivergenceModel {
        DivergenceModel {
            event_index: match self.event_index {
                Some(i) => Some(i as int),
                None => None,
            },
            description: self.description@,
        }
    }
}

/// The text that reports a divergence.
pub open spec fn divergence_text(d: DivergenceModel) -> Seq<char> {
    match d.event_index {
        Some(i) => "divergence at event "@ + crate::text::decimal(i as nat) + ": "@
            + d.description,
        None => "divergence in header: "@ + d.description,
    }
}

impl Divergence {
    /// The report of this divergence.
    pub fn to_string(&self) -> (text: String)
        ensures
            text@ == divergence_text(self@),
    {
        match self.event_index {
            Some(i) => "divergence at event ".to_owned().concat(
                decimal_text(i as u64).as_str(),
            ).concat(": ").concat(self.description.as_str()),
            None => "divergence in header: ".to_owned().concat(self.description.as_str()),
        }
    }

    /// A copy of this divergence.
    pub fn duplicate(&self) -> (copy: Divergence)
        ensures
            copy@ == self@,
    {
        Divergence { event_index: self.event_index, description: self.description.clone() }
    }
}

// ---------------------------------------------------------------------------
// Comparing two events
// ---------------------------------------------------------------------------

/// A fingerprint as it is shown to a reader.
pub open spec fn tick_shown(t: TickFingerprint) -> Seq<char> {
    "TickFingerprint { tick: "@ + crate::text::decimal(t.tick as nat) + ", sim_time: "@
        + instant_shown(t.sim_time) + ", tick_hash: "@ + crate::text::decimal(t.tick_hash as nat)
        + ", world_hash: "@ + crate::text::decimal(t.world_hash as nat) + " }"@
}

/// An instant as it is shown to a reader.
pub open spec fn instant_shown(t: SimTime) -> Seq<char> {
    "SimTime("@ + crate::text::signed_decimal(t.0 as int) + ")"@
}

/// A join as it is shown to a reader.
pub open spec fn join_shown(path: Seq<char>, first_due: SimTime) -> Seq<char> {
    "RecordedJoin { path: "@ + crate::text::debug_form(path) + ", first_due: "@ + instant_shown(
        first_due,
    ) + " }"@
}

/// A leave as it is shown to a reader.
pub open spec fn leave_shown(path: Seq<char>, leaves_at: SimTime) -> Seq<char> {
    "RecordedLeave { path: "@ + crate::text::debug_form(path) + ", leaves_at: "@ + instant_shown(
        leaves_at,
    ) + " }"@
}

/// A message as it is shown to a reader.
pub open spec fn message_shown(
    sim_time: SimTime,
    key: Seq<char>,
    publisher: Seq<char>,
    seq: u64,
    payload: Seq<char>,
) -> Seq<char> {
    crate::time::canonical_seconds(sim_time.0 as int) + "|"@ + key + "|"@ + publisher + "|"@
        + crate::text::decimal(seq as nat) + " "@ + payload
}

/// How an expected event differs from an actual one, or `None` where they are
/// the same. Observations are never the same as anything, and are never
/// compared.
pub open spec fn mismatch(expected: LogEventModel, actual: LogEventModel) -> Option<Seq<char>> {
    match (expected, actual) {
        (LogEventModel::Tick(x), LogEventModel::Tick(y)) => if x == y {
            None
        } else {
            Some("tick fingerprints differ: "@ + tick_shown(x) + " vs "@ + tick_shown(y))
        },
        (
            LogEventModel::Msg { sim_time: t, key: k, publisher: p, seq: s, payload: v },
            LogEventModel::Msg { sim_time: u, key: l, publisher: q, seq: r, payload: w },
        ) => if t == u && k == l && p == q && s == r && v == w {
            None
        } else {
            Some(
                "messages differ: "@ + message_shown(t, k, p, s, v) + " vs "@ + message_shown(
                    u,
                    l,
                    q,
                    r,
                    w,
                ),
            )
        },
        (
            LogEventModel::Join { path: p, first_due: t },
            LogEventModel::Join { path: q, first_due: u },
        ) => if p == q && t == u {
            None
        } else {
            Some("joins differ: "@ + join_shown(p, t) + " vs "@ + join_shown(q, u))
        },
        (
            LogEventModel::Leave { path: p, leaves_at: t },
            LogEventModel::Leave { path: q, leaves_at: u },
        ) => if p == q && t == u {
            None
        } else {
            Some("leaves differ: "@ + leave_shown(p, t) + " vs "@ + leave_shown(q, u))
        },
        _ => Some(
            "event kinds differ: "@ + crate::record::kind_text(expected) + " vs "@
                + crate::record::kind_text(actual),
        ),
    }
}

/// An instant as it is shown to a reader.
fn show_instant(t: SimTime) -> (text: String)
    ensures
        text@ == instant_shown(t),
{
    "SimTime(".to_owned().concat(signed_text(t.0).as_str()).concat(")")
}

/// A fingerprint as it is shown to a reader.
fn show_tick(t: &TickFingerprint) -> (text: String)
    ensures
        text@ == tick_shown(*t),
{
    "TickFingerprint { tick: ".to_owned().concat(decimal_text(t.tick).as_str()).concat(
        ", sim_time: ",
    ).concat(show_instant(t.sim_time).as_str()).concat(", tick_hash: ").concat(
        decimal_text(t.tick_hash).as_str(),
    ).concat(", world_hash: ").concat(decimal_text(t.world_hash).as_str()).concat(" }")
}

/// A join as it is shown to a reader.
fn show_join(join: &RecordedJoin) -> (text: String)
    ensures
        text@ == join_shown(join.path@, join.first_due),
{
    "RecordedJoin { path: ".to_owned().concat(debug_text(join.path.as_str()).as_str()).concat(
        ", first_due: ",
    ).concat(show_instant(join.first_due).as_str()).concat(" }")
}

/// A leave as it is shown to a reader.
fn show_leave(leave: &RecordedLeave) -> (text: String)
    ensures
        text@ == leave_shown(leave.path@, leave.leaves_at),
{
    "RecordedLeave { path: ".to_owned().concat(debug_text(leave.path.as_str()).as_str()).concat(
        ", leaves_at: ",
    ).concat(show_instant(leave.leaves_at).as_str()).concat(" }")
}

/// A message as it is shown to a reader.
fn show_message(m: &RecordedMessage) -> (text: String)
    ensures
        text@ == message_shown(m.sim_time, m.key@, m.publisher@, m.seq, m.payload@),
{
    m.sim_time.to_string().concat("|").concat(m.key.as_str()).concat("|").concat(
        m.publisher.as_str(),
    ).concat("|").concat(decimal_text(m.seq).as_str()).concat(" ").concat(m.payload.as_str())
}

/// `first`, then what was expected, then what there is.
fn versus(first: &str, expected: String, actual: String) -> (text: String)
    ensures
        text@ == first@ + expected@ + " vs "@ + actual@,
{
    first.to_owned().concat(expected.as_str()).concat(" vs ").concat(actual.as_str())
}

/// The one place two recorded events are compared, shared by the log-vs-log
/// comparison and the live checker.
pub fn event_mismatch(expected: &LogEvent, actual: &LogEvent) -> (difference: Option<String>)
    ensures
        match difference {
            Some(text) => mismatch(expected@, actual@) == Some(text@),
            None => mismatch(expected@, actual@) is None,
        },
{
    match (expected, actual) {
        (LogEvent::Tick(x), LogEvent::Tick(y)) => if *x == *y {
            None
        } else {
            Some(versus("tick fingerprints differ: ", show_tick(x), show_tick(y)))
        },
        (LogEvent::Msg(x), LogEvent::Msg(y)) => if x.sim_time.0 == y.sim_time.0 && same_text(
            x.key.as_str(),
            y.key.as_str(),
        ) && same_text(x.publisher.as_str(), y.publisher.as_str()) && x.seq == y.seq && same_text(
            x.payload.as_str(),
            y.payload.as_str(),
        ) {
            None
        } else {
            Some(versus("messages differ: ", show_message(x), show_message(y)))
        },
        (LogEvent::Join(x), LogEvent::Join(y)) => if same_text(x.path.as_str(), y.path.as_str())
            && x.first_due.0 == y.first_due.0 {
            None
        } else {
            Some(versus("joins differ: ", show_join(x), show_join(y)))
        },
        (LogEvent::Leave(x), LogEvent::Leave(y)) => if same_text(x.path.as_str(), y.path.as_str())
            && x.leaves_at.0 == y.leaves_at.0 {
            None
        } else {
            Some(versus("leaves differ: ", show_leave(x), show_leave(y)))
        },
        _ => Some(
            versus(
                "event kinds differ: ",
                expected.kind().to_owned(),
                actual.kind().to_owned(),
            ),
        ),
    }
}

// ---------------------------------------------------------------------------
// Comparing two logs
// ---------------------------------------------------------------------------

/// The lines of a log that verification is *about*, each with its index:
/// everything except the observations, which record what the machine did
/// rather than what the run did.
pub open spec fn expected_lines(events: Seq<LogEventModel>) -> Seq<(int, LogEventModel)>
    decreases events.len(),
{
    if events.len() == 0 {
        Seq::empty()
    } else {
        let front = expected_lines(events.drop_last());
        if events.last() is Observed {
            front
        } else {
            front.push((events.len() - 1, events.last()))
        }
    }
}

/// The events of some numbered lines.
pub open spec fn events_of(lines: Seq<(int, LogEventModel)>) -> Seq<LogEventModel> {
    Seq::new(lines.len(), |i: int| lines[i].1)
}

/// What a run is held to: its events without the observations.
pub open spec fn substance(events: Seq<LogEventModel>) -> Seq<LogEventModel> {
    events_of(expected_lines(events))
}

/// A header as it is shown to a reader.
pub open spec fn header_shown(h: HeaderModel) -> Seq<char> {
    "LogHeader { version: "@ + crate::text::decimal(h.version as nat) + ", world_name: "@
        + crate::text::debug_form(h.world_name) + ", world_seed: "@ + crate::text::decimal(
        h.world_seed as nat,
    ) + " }"@
}

/// Where a line that the other log lacks stands: the line of the first
/// expectation that nothing was compared with, or the end of the log.
pub open spec fn line_at(lines: Seq<(int, LogEventModel)>, cursor: int, line_count: int) -> int {
    if cursor < lines.len() {
        lines[cursor].0
    } else {
        line_count
    }
}

/// The first divergence of two logs' expectations from `i` on.
pub open spec fn divergence_from(
    mine: Seq<(int, LogEventModel)>,
    theirs: Seq<(int, LogEventModel)>,
    line_count: int,
    i: int,
) -> Option<DivergenceModel>
    decreases mine.len() - i,
{
    if 0 <= i < mine.len() && i < theirs.len() {
        match mismatch(mine[i].1, theirs[i].1) {
            Some(description) => Some(
                DivergenceModel { event_index: Some(mine[i].0), description },
            ),
            None => divergence_from(mine, theirs, line_count, i + 1),
        }
    } else if mine.len() != theirs.len() {
        Some(
            DivergenceModel {
                event_index: Some(line_at(mine, i, line_count)),
                description: "expected event counts differ: "@ + crate::text::decimal(mine.len())
                    + " vs "@ + crate::text::decimal(theirs.len())
                    + " (observations are not compared, so these are not the logs' line counts)"@,
            },
        )
    } else {
        None
    }
}

/// The first divergence of two logs.
pub open spec fn log_divergence(
    my_header: HeaderModel,
    mine: Seq<LogEventModel>,
    their_header: HeaderModel,
    theirs: Seq<LogEventModel>,
) -> Option<DivergenceModel> {
    if my_header != their_header {
        Some(
            DivergenceModel {
                event_index: None,
                description: header_shown(my_header) + " vs "@ + header_shown(their_header),
            },
        )
    } else {
        divergence_from(expected_lines(mine), expected_lines(theirs), mine.len() as int, 0)
    }
}

/// A header as it is shown to a reader.
fn show_header(h: &LogHeader) -> (text: String)
    ensures
        text@ == header_shown(h@),
{
    "LogHeader { version: ".to_owned().concat(decimal_text(h.version as u64).as_str()).concat(
        ", world_name: ",
    ).concat(debug_text(h.world_name.as_str()).as_str()).concat(", world_seed: ").concat(
        decimal_text(h.world_seed).as_str(),
    ).concat(" }")
}

/// The indexes of a log's expectations.
fn expectations(events: &Vec<LogEvent>) -> (lines: Vec<usize>)
    ensures
        lines@.len() == expected_lines(crate::record::event_models(events@)).len(),
        forall|i: int|
            0 <= i < lines@.len() ==> (#[trigger] lines@[i]) < events@.len() && expected_lines(
                crate::record::event_models(events@),
            )[i] == (lines@[i] as int, events@[lines@[i] as int]@),
{
    let ghost all = crate::record::event_models(events@);
    let mut lines: Vec<usize> = Vec::new();
    let mut i: usize = 0;
    proof {
        assert(all.take(0) =~= Seq::<LogEventModel>::empty());
    }
    while i < events.len()
        invariant
            all == crate::record::event_models(events@),
            0 <= i <= events@.len(),
            lines@.len() == expected_lines(all.take(i as int)).len(),
            forall|k: int|
                0 <= k < lines@.len() ==> (#[trigger] lines@[k]) < i && expected_lines(
                    all.take(i as int),
                )[k] == (lines@[k] as int, events@[lines@[k] as int]@),
        decreases events@.len() - i,
    {
        proof {
            assert(all.take(i + 1).drop_last() =~= all.take(i as int));
            assert(all.take(i + 1).last() == events@[i as int]@);
        }
        let observed = match &events[i] {
            LogEvent::Observed(_) => true,
            _ => false,
        };
        if !observed {
            lines.push(i);
        }
        i += 1;
    }
    proof {
        assert(all.take(i as int) =~= all);
    }
    lines
}

impl EventLog {
    /// Compares two runs event by event, returning the earliest mismatch;
    /// `None` means the runs are identical.
    pub fn first_divergence(&self, other: &EventLog) -> (found: Option<Divergence>)
        ensures
            ({
                let expected = log_divergence(
                    self.header@,
                    crate::record::event_models(self.events@),
                    other.header@,
                    crate::record::event_models(other.events@),
                );
                match found {
                    Some(divergence) => expected == Some(divergence@),
                    None => expected is None,
                }
            }),
    {
        if self.header.version != other.header.version || !same_text(
            self.header.world_name.as_str(),
            other.header.world_name.as_str(),
        ) || self.header.world_seed != other.header.world_seed {
            return Some(
                Divergence {
                    event_index: None,
                    description: show_header(&self.header).concat(" vs ").concat(
                        show_header(&other.header).as_str(),
                    ),
                },
            );
        }
        let mine = expectations(&self.events);
        let theirs = expectations(&other.events);
        let ghost my_lines = expected_lines(crate::record::event_models(self.events@));
        let ghost their_lines = expected_lines(crate::record::event_models(other.events@));
        let ghost line_count = self.events@.len() as int;
        let mut i: usize = 0;
        while i < mine.len() && i < theirs.len()
            invariant
                self.header@ == other.header@,
                my_lines == expected_lines(crate::record::event_models(self.events@)),
                their_lines == expected_lines(crate::record::event_models(other.events@)),
                line_count == crate::record::event_models(self.events@).len(),
                0 <= i <= mine@.len(),
                i <= theirs@.len(),
                mine@.len() == my_lines.len(),
                theirs@.len() == their_lines.len(),
                forall|k: int|
                    0 <= k < mine@.len() ==> (#[trigger] mine@[k]) < self.events@.len()
                        && my_lines[k] == (mine@[k] as int, self.events@[mine@[k] as int]@),
                forall|k: int|
                    0 <= k < theirs@.len() ==> (#[trigger] theirs@[k]) < other.events@.len()
                        && their_lines[k] == (
                        theirs@[k] as int,
                        other.events@[theirs@[k] as int]@,
                    ),
                divergence_from(my_lines, their_lines, line_count, 0) == divergence_from(
                    my_lines,
                    their_lines,
                    line_count,
                    i as int,
                ),
            decreases mine@.len() - i,
        {
            match event_mismatch(&self.events[mine[i]], &other.events[theirs[i]]) {
                Some(description) => {
                    return Some(Divergence { event_index: Some(mine[i]), description });
                },
                None => {},
            }
            i += 1;
        }
        if mine.len() != theirs.len() {
            let line: usize = if i < mine.len() {
                mine[i]
            } else {
                self.events.len()
            };
            return Some(
                Divergence {
                    event_index: Some(line),
                    description: "expected event counts differ: ".to_owned().concat(
                        decimal_text(mine.len() as u64).as_str(),
                    ).concat(" vs ").concat(decimal_text(theirs.len() as u64).as_str()).concat(
                        " (observations are not compared, so these are not the logs' line counts)",
                    ),
                },
            );
        }
        None
    }
}

// ---------------------------------------------------------------------------
// Checking a run as it happens
// ---------------------------------------------------------------------------

/// Where a live check stands.
pub struct VerifierModel {
    /// The log's expectations, each with the line it came from.
    pub expectations: Seq<(int, LogEventModel)>,
    /// How many lines the log had.
    pub line_count: int,
    /// How many expectations have been compared.
    pub cursor: int,
    pub divergence: Option<DivergenceModel>,
}

/// Where a check of the run that `world_name` and `world_seed` describe
/// against a log starts: diverged already where the log is of another run.
pub open spec fn fresh_verifier(
    header: HeaderModel,
    events: Seq<LogEventModel>,
    world_name: Seq<char>,
    world_seed: u64,
) -> VerifierModel {
    VerifierModel {
        expectations: expected_lines(events),
        line_count: events.len() as int,
        cursor: 0,
        divergence: if header.world_name == world_name && header.world_seed == world_seed {
            None
        } else {
            Some(
                DivergenceModel {
                    event_index: None,
                    description: "log was recorded for world "@ + crate::text::debug_form(
                        header.world_name,
                    ) + " seed "@ + crate::text::decimal(header.world_seed as nat)
                        + "; replaying world "@ + crate::text::debug_form(world_name) + " seed "@
                        + crate::text::decimal(world_seed as nat),
                },
            )
        },
    }
}

/// Where a check stands after an event: the first divergence stays.
pub open spec fn checked(v: VerifierModel, actual: LogEventModel) -> VerifierModel {
    if v.divergence is Some {
        v
    } else if v.cursor >= v.expectations.len() {
        VerifierModel {
            divergence: Some(
                DivergenceModel {
                    event_index: Some(v.line_count),
                    description:
                        "the re-run produced more expected events than the recorded log's expected events"@,
                },
            ),
            ..v
        }
    } else {
        VerifierModel {
            cursor: v.cursor + 1,
            divergence: match mismatch(v.expectations[v.cursor].1, actual) {
                Some(description) => Some(
                    DivergenceModel { event_index: Some(v.expectations[v.cursor].0), description },
                ),
                None => None,
            },
            ..v
        }
    }
}

/// Where a check stands after a stream of events.
pub open spec fn all_checked(v: VerifierModel, stream: Seq<LogEventModel>) -> VerifierModel
    decreases stream.len(),
{
    if stream.len() == 0 {
        v
    } else {
        checked(all_checked(v, stream.drop_last()), stream.last())
    }
}

/// The verdict of a check: how many events were verified, or the first
/// divergence, a re-run that stopped short among them.
pub open spec fn verdict(v: VerifierModel) -> Result<int, DivergenceModel> {
    match v.divergence {
        Some(divergence) => Err(divergence),
        None => if v.cursor < v.expectations.len() {
            Err(
                DivergenceModel {
                    event_index: Some(v.expectations[v.cursor].0),
                    description: "the recorded log has "@ + crate::text::decimal(
                        (v.expectations.len() - v.cursor) as nat,
                    )
                        + " more event(s) than the re-run produced (observations are not compared, so this is not a line count)"@,
                },
            )
        } else {
            Ok(v.cursor)
        },
    }
}

/// Live replay verification: hand every event of a re-run to this and each is
/// compared, in order, against the recorded log as it happens, so the driving
/// loop can stop at the first divergence instead of running to completion.
///
/// Both channels matter: message comparison catches log tampering and
/// wire-level drift; fingerprint comparison catches internal-state divergence
/// that never surfaces in messages.
#[derive(Debug)]
pub struct Verifier {
    events: Vec<LogEvent>,
    /// The indexes of the log's expectations.
    expectations: Vec<usize>,
    cursor: usize,
    divergence: Option<Divergence>,
}

impl View for Verifier {
    type V = VerifierModel;

    closed spec fn view(&self) -> VerifierModel {
        VerifierModel {
            expectations: Seq::new(
                self.expectations@.len(),
                |i: int|
                    (
                        self.expectations@[i] as int,
                        self.events@[self.expectations@[i] as int]@,
                    ),
            ),
            line_count: self.events@.len() as int,
            cursor: self.cursor as int,
            divergence: match self.divergence {
                Some(divergence) => Some(divergence@),
                None => None,
            },
        }
    }
}

impl Verifier {
    /// Every expectation is a line of the log.
    #[verifier::type_invariant]
    spec fn lines_exist(self) -> bool {
        &&& forall|i: int|
            0 <= i < self.expectations@.len() ==> (#[trigger] self.expectations@[i])
                < self.events@.len()
        &&& self.cursor <= self.expectations@.len()
    }

    /// A verifier that checks the run `config` describes against the
    /// `recorded` log. The world name and seed come from the *re-run*, never
    /// from the log, so that a log recorded for another scenario is diverged
    /// before the first event.
    pub fn new(recorded: EventLog, config: &ConductorConfig) -> (verifier: Self)
        ensures
            verifier@ == fresh_verifier(
                recorded.header@,
                crate::record::event_models(recorded.events@),
                config.world_name@,
                config.world_seed,
            ),
    {
        let EventLog { header, events } = recorded;
        let divergence = if !same_text(header.world_name.as_str(), config.world_name.as_str())
            || header.world_seed != config.world_seed {
            Some(
                Divergence {
                    event_index: None,
                    description: "log was recorded for world ".to_owned().concat(
                        debug_text(header.world_name.as_str()).as_str(),
                    ).concat(" seed ").concat(decimal_text(header.world_seed).as_str()).concat(
                        "; replaying world ",
                    ).concat(debug_text(config.world_name.as_str()).as_str()).concat(
                        " seed ",
                    ).concat(decimal_text(config.world_seed).as_str()),
                },
            )
        } else {
            None
        };
        let lines = expectations(&events);
        let verifier = Verifier { events, expectations: lines, cursor: 0, divergence };
        proof {
            assert(verifier@.expectations =~= expected_lines(
                crate::record::event_models(recorded.events@),
            ));
        }
        verifier
    }

    /// Compares one event of the re-run with the next expectation.
    pub fn check(&mut self, actual: &LogEvent)
        ensures
            final(self)@ == checked(old(self)@, actual@),
    {
        proof {
            use_type_invariant(&*self);
        }
        if self.divergence.is_some() {
            return;
        }
        if self.cursor >= self.expectations.len() {
            let line_count: usize = self.events.len();
            self.divergence = Some(
                Divergence {
                    event_index: Some(line_count),
                    description:
                        "the re-run produced more expected events than the recorded log's expected events".to_owned(),
                },
            );
            return;
        }
        let line: usize = self.expectations[self.cursor];
        let difference = event_mismatch(&self.events[line], actual);
        self.cursor = self.cursor + 1;
        self.divergence = match difference {
            Some(description) => Some(Divergence { event_index: Some(line), description }),
            None => None,
        };
    }

    /// Checks a published message.
    pub fn message_callback(&mut self, m: &Message)
        requires
            crate::json::payload_is_json(m.payload@),
        ensures
            final(self)@ == checked(old(self)@, crate::record::recorded(m@)),
    {
        self.check(&recorded_message(m));
    }

    /// Checks a published message whose payload is JSON; one whose payload is
    /// not leaves the check where it was. Returns whether it was checked.
    pub fn try_message(&mut self, m: &Message) -> (done: bool)
        ensures
            done == crate::json::payload_is_json(m.payload@),
            final(self)@ == (if done {
                checked(old(self)@, crate::record::recorded(m@))
            } else {
                old(self)@
            }),
    {
        if payload_json(&m.payload).is_some() {
            self.message_callback(m);
            true
        } else {
            false
        }
    }

    /// Checks a tick fingerprint.
    pub fn tick_callback(&mut self, fingerprint: &TickFingerprint)
        ensures
            final(self)@ == checked(old(self)@, LogEventModel::Tick(*fingerprint)),
    {
        self.check(&LogEvent::Tick(*fingerprint));
    }

    /// Checks a membership change.
    pub fn membership_callback(&mut self, change: &MembershipChange)
        ensures
            final(self)@ == checked(old(self)@, crate::record::membership_line(change@)),
    {
        self.check(&change.line());
    }

    /// Whether a divergence has been found: the driving loop's stop signal.
    pub fn diverged(&self) -> (found: bool)
        ensures
            found == (self@.divergence is Some),
    {
        self.divergence.is_some()
    }

    /// The verdict so far: how many events were verified if every event
    /// matched and nothing of the recorded log remains, otherwise the first
    /// divergence, a truncated re-run among them.
    pub fn finish(&self) -> (outcome: Result<usize, Divergence>)
        ensures
            match outcome {
                Ok(count) => verdict(self@) == Ok::<int, DivergenceModel>(count as int),
                Err(divergence) => verdict(self@) == Err::<int, DivergenceModel>(divergence@),
            },
    {
        proof {
            use_type_invariant(self);
        }
        match &self.divergence {
            Some(divergence) => {
                return Err(divergence.duplicate());
            },
            None => {},
        }
        if self.cursor < self.expectations.len() {
            let unmatched: usize = self.expectations.len() - self.cursor;
            return Err(
                Divergence {
                    event_index: Some(self.expectations[self.cursor]),
                    description: "the recorded log has ".to_owned().concat(
                        decimal_text(unmatched as u64).as_str(),
                    ).concat(
                        " more event(s) than the re-run produced (observations are not compared, so this is not a line count)",
                    ),
                },
            );
        }
        Ok(self.cursor)
    }
}

// ---------------------------------------------------------------------------
// Laws
// ---------------------------------------------------------------------------

/// Two events are told apart exactly where they differ, observations aside.
pub proof fn law_events_match_exactly_when_equal(a: LogEventModel, b: LogEventModel)
    ensures
        mismatch(a, b) is None <==> a == b && !(a is Observed),
{
}

/// What the report of a divergence says: the line, if it is at one, and what
/// differs.
pub proof fn law_what_a_divergence_reports(d: DivergenceModel)
    ensures
        d.event_index matches Some(i) ==> divergence_text(d) == "divergence at event "@
            + crate::text::decimal(i as nat) + ": "@ + d.description,
        d.event_index is None ==> divergence_text(d) == "divergence in header: "@ + d.description,
{
}

/// What differs is described with what was expected first and what there is
/// behind it.
pub proof fn law_how_a_difference_is_described(a: TickFingerprint, b: TickFingerprint)
    requires
        a != b,
    ensures
        mismatch(LogEventModel::Tick(a), LogEventModel::Tick(b)) == Some(
            "tick fingerprints differ: "@ + tick_shown(a) + " vs "@ + tick_shown(b),
        ),
{
}

/// A message is shown from its instant and its key to its number and its
/// payload, with its publisher between.
pub proof fn law_how_a_message_is_shown(
    sim_time: SimTime,
    key: Seq<char>,
    publisher: Seq<char>,
    seq: u64,
    payload: Seq<char>,
)
    ensures
        ({
            let text = message_shown(sim_time, key, publisher, seq, payload);
            let time = crate::time::canonical_seconds(sim_time.0 as int);
            let number = crate::text::decimal(seq as nat);
            let at = (time.len() + 1 + key.len()) as int;
            &&& (time + seq!['|'] + key).is_prefix_of(text)
            &&& text.subrange(at, at + 2 + publisher.len()) == seq!['|'] + publisher
                + seq!['|']
            &&& (number + seq![' '] + payload).is_suffix_of(text)
            &&& text.len() == at + 2 + publisher.len() + number.len() + 1 + payload.len()
        }),
{
    reveal_strlit("|");
    reveal_strlit(" ");
    let text = message_shown(sim_time, key, publisher, seq, payload);
    let time = crate::time::canonical_seconds(sim_time.0 as int);
    let number = crate::text::decimal(seq as nat);
    let front = time + seq!['|'] + key;
    let middle = seq!['|'] + publisher + seq!['|'];
    let back = number + seq![' '] + payload;
    assert("|"@ =~= seq!['|']);
    assert(" "@ =~= seq![' ']);
    assert(text =~= front + middle + back);
    assert(text.take(front.len() as int) =~= front);
    assert(text.subrange(front.len() as int, (front.len() + middle.len()) as int) =~= middle);
    assert(text.subrange(text.len() - back.len(), text.len() as int) =~= back);
}

/// A header is shown with its version first, then its world's name, and its
/// seed last.
pub proof fn law_how_a_header_is_shown(h: HeaderModel)
    ensures
        ("LogHeader { version: "@ + crate::text::decimal(h.version as nat) + ", world_name: "@
            + crate::text::debug_form(h.world_name)).is_prefix_of(header_shown(h)),
        (", world_seed: "@ + crate::text::decimal(h.world_seed as nat)
            + " }"@).is_suffix_of(header_shown(h)),
{
    let text = header_shown(h);
    let front = "LogHeader { version: "@ + crate::text::decimal(h.version as nat)
        + ", world_name: "@ + crate::text::debug_form(h.world_name);
    let back = ", world_seed: "@ + crate::text::decimal(h.world_seed as nat) + " }"@;
    assert(text =~= front + back);
    assert(text.take(front.len() as int) =~= front);
    assert(text.subrange(text.len() - back.len(), text.len() as int) =~= back);
}

/// A join and a leave are shown with the path first and the instant last.
pub proof fn law_how_a_change_is_shown(path: Seq<char>, time: SimTime)
    ensures
        ("RecordedJoin { path: "@ + crate::text::debug_form(path)).is_prefix_of(
            join_shown(path, time),
        ),
        ("RecordedLeave { path: "@ + crate::text::debug_form(path)).is_prefix_of(
            leave_shown(path, time),
        ),
        (", first_due: SimTime("@ + crate::text::signed_decimal(time.0 as int)
            + ") }"@).is_suffix_of(join_shown(path, time)),
        (", leaves_at: SimTime("@ + crate::text::signed_decimal(time.0 as int)
            + ") }"@).is_suffix_of(leave_shown(path, time)),
{
    reveal_strlit(", first_due: ");
    reveal_strlit(", leaves_at: ");
    reveal_strlit(", first_due: SimTime(");
    reveal_strlit(", leaves_at: SimTime(");
    reveal_strlit("SimTime(");
    reveal_strlit(")");
    reveal_strlit(" }");
    reveal_strlit(") }");
    assert(", first_due: SimTime("@ =~= ", first_due: "@ + "SimTime("@);
    assert(", leaves_at: SimTime("@ =~= ", leaves_at: "@ + "SimTime("@);
    assert(") }"@ =~= ")"@ + " }"@);
    let number = crate::text::signed_decimal(time.0 as int);
    let join = "RecordedJoin { path: "@ + crate::text::debug_form(path);
    let leave = "RecordedLeave { path: "@ + crate::text::debug_form(path);
    let first = ", first_due: SimTime("@ + number + ") }"@;
    let last = ", leaves_at: SimTime("@ + number + ") }"@;
    let joined = join_shown(path, time);
    let left = leave_shown(path, time);
    assert(joined =~= join + first);
    assert(left =~= leave + last);
    assert(joined.take(join.len() as int) =~= join);
    assert(left.take(leave.len() as int) =~= leave);
    assert(joined.subrange(joined.len() - first.len(), joined.len() as int) =~= first);
    assert(left.subrange(left.len() - last.len(), left.len() as int) =~= last);
}

/// No expectation is an observation.
proof fn lemma_expected_lines(events: Seq<LogEventModel>)
    ensures
        forall|i: int|
            0 <= i < expected_lines(events).len() ==> !((#[trigger] expected_lines(
                events,
            )[i]).1 is Observed),
    decreases events.len(),
{
    if events.len() > 0 {
        lemma_expected_lines(events.drop_last());
    }
}

/// A log diverges from another nowhere exactly where their headers are equal
/// and they hold the same events, observations aside.
pub proof fn law_no_divergence_means_the_same_run(
    header: HeaderModel,
    events: Seq<LogEventModel>,
    other_header: HeaderModel,
    other_events: Seq<LogEventModel>,
)
    ensures
        log_divergence(header, events, other_header, other_events) is None <==> header
            == other_header && substance(events) == substance(other_events),
{
    if header == other_header {
        let mine = expected_lines(events);
        let theirs = expected_lines(other_events);
        lemma_expected_lines(events);
        lemma_divergence_from(mine, theirs, events.len() as int, 0);
        if substance(events) == substance(other_events) {
            assert(substance(events).len() == mine.len());
            assert(substance(other_events).len() == theirs.len());
            assert forall|i: int| 0 <= i < mine.len() implies (#[trigger] mine[i]).1
                == theirs[i].1 by {
                assert(substance(events)[i] == substance(other_events)[i]);
            }
        } else if mine.len() == theirs.len() {
            assert(exists|i: int|
                0 <= i < mine.len() && (#[trigger] mine[i]).1 != theirs[i].1) by {
                if forall|i: int| 0 <= i < mine.len() ==> (#[trigger] mine[i]).1 == theirs[i].1 {
                    assert(substance(events) =~= substance(other_events));
                }
            }
        }
    }
}

/// Nothing diverges from a line on exactly where the rest is the same.
proof fn lemma_divergence_from(
    mine: Seq<(int, LogEventModel)>,
    theirs: Seq<(int, LogEventModel)>,
    line_count: int,
    i: int,
)
    requires
        0 <= i,
        forall|k: int| 0 <= k < mine.len() ==> !((#[trigger] mine[k]).1 is Observed),
    ensures
        divergence_from(mine, theirs, line_count, i) is None <==> mine.len() == theirs.len() && (
        forall|k: int| i <= k < mine.len() ==> (#[trigger] mine[k]).1 == theirs[k].1),
    decreases mine.len() - i,
{
    if i < mine.len() && i < theirs.len() {
        lemma_divergence_from(mine, theirs, line_count, i + 1);
    }
}

/// Where a check without a divergence stands after a stream: it has matched
/// exactly that stream.
proof fn lemma_all_checked(v: VerifierModel, stream: Seq<LogEventModel>)
    requires
        v.cursor == 0,
        v.divergence is None,
        forall|k: int|
            0 <= k < v.expectations.len() ==> !((#[trigger] v.expectations[k]).1 is Observed),
    ensures
        ({
            let after = all_checked(v, stream);
            let same = stream.len() <= v.expectations.len() && (forall|k: int|
                0 <= k < stream.len() ==> (#[trigger] v.expectations[k]).1 == stream[k]);
            &&& after.expectations == v.expectations
            &&& after.line_count == v.line_count
            &&& after.divergence is None <==> same
            &&& same ==> after.cursor == stream.len()
        }),
    decreases stream.len(),
{
    if stream.len() > 0 {
        let front = stream.drop_last();
        lemma_all_checked(v, front);
        let before = all_checked(v, front);
        let n = front.len() as int;
        if before.divergence is None && n < v.expectations.len() {
            law_events_match_exactly_when_equal(v.expectations[n].1, stream.last());
        }
        let same = stream.len() <= v.expectations.len() && (forall|k: int|
            0 <= k < stream.len() ==> (#[trigger] v.expectations[k]).1 == stream[k]);
        if same {
            assert forall|k: int| 0 <= k < front.len() implies (#[trigger] v.expectations[k]).1
                == front[k] by {
                assert(front[k] == stream[k]);
            }
            assert(v.expectations[n].1 == stream[n]);
        }
        if before.divergence is None && n < v.expectations.len() && v.expectations[n].1
            == stream.last() {
            assert forall|k: int| 0 <= k < stream.len() implies (#[trigger] v.expectations[k]).1
                == stream[k] by {
                if k < n {
                    assert(front[k] == stream[k]);
                }
            }
        }
    }
}

/// A live check of a run against a log of that run accepts exactly the stream
/// that the log holds, observations aside: every other stream, a longer or a
/// shorter one among them, diverges.
pub proof fn law_the_verifier_accepts_exactly_the_recorded_stream(
    header: HeaderModel,
    events: Seq<LogEventModel>,
    stream: Seq<LogEventModel>,
)
    ensures
        ({
            let start = fresh_verifier(header, events, header.world_name, header.world_seed);
            let outcome = verdict(all_checked(start, stream));
            &&& outcome is Ok <==> stream == substance(events)
            &&& outcome is Ok ==> outcome == Ok::<int, DivergenceModel>(stream.len() as int)
        }),
{
    let start = fresh_verifier(header, events, header.world_name, header.world_seed);
    lemma_expected_lines(events);
    lemma_all_checked(start, stream);
    let lines = expected_lines(events);
    let after = all_checked(start, stream);
    if verdict(after) is Ok {
        assert(stream =~= substance(events));
    }
    if stream == substance(events) {
        assert forall|k: int| 0 <= k < stream.len() implies (#[trigger] lines[k]).1
            == stream[k] by {
            assert(substance(events)[k] == stream[k]);
        }
    }
}

/// A run is held to every line of its log but the observations, in order,
/// each known by its own index.
pub proof fn law_a_run_is_held_to_all_but_observations(
    events: Seq<LogEventModel>,
    next: LogEventModel,
)
    ensures
        expected_lines(Seq::<LogEventModel>::empty()).len() == 0,
        expected_lines(events.push(next)) == (if next is Observed {
            expected_lines(events)
        } else {
            expected_lines(events).push((events.len() as int, next))
        }),
        substance(events.push(next)) == (if next is Observed {
            substance(events)
        } else {
            substance(events).push(next)
        }),
{
    assert(events.push(next).drop_last() =~= events);
    assert(substance(events.push(next)) =~= (if next is Observed {
        substance(events)
    } else {
        substance(events).push(next)
    }));
}

/// Two logs of one run part at the first of their expected events that
/// differ, and are reported to part at the line that it has in the first log;
/// where one of them ends first, at the first line of the other that nothing
/// was compared with, or at the end of the first log.
pub proof fn law_logs_part_where_they_first_differ(
    header: HeaderModel,
    events: Seq<LogEventModel>,
    others: Seq<LogEventModel>,
    i: int,
)
    requires
        0 <= i <= expected_lines(events).len(),
        i <= expected_lines(others).len(),
        forall|k: int|
            0 <= k < i ==> (#[trigger] expected_lines(events)[k]).1 == expected_lines(others)[k].1,
    ensures
        i < expected_lines(events).len() && i < expected_lines(others).len() && expected_lines(
            events,
        )[i].1 != expected_lines(others)[i].1 ==> (log_divergence(header, events, header, others)
            matches Some(found) && found.event_index == Some(expected_lines(events)[i].0)),
        i < expected_lines(events).len() && i == expected_lines(others).len() ==> (log_divergence(
            header,
            events,
            header,
            others,
        ) matches Some(found) && found.event_index == Some(expected_lines(events)[i].0)),
        i == expected_lines(events).len() && i < expected_lines(others).len() ==> (log_divergence(
            header,
            events,
            header,
            others,
        ) matches Some(found) && found.event_index == Some(events.len() as int)),
{
    lemma_expected_lines(events);
    lemma_parts_at(expected_lines(events), expected_lines(others), events.len() as int, 0, i);
}

proof fn lemma_parts_at(
    mine: Seq<(int, LogEventModel)>,
    theirs: Seq<(int, LogEventModel)>,
    line_count: int,
    from: int,
    i: int,
)
    requires
        0 <= from <= i <= mine.len(),
        i <= theirs.len(),
        forall|k: int| 0 <= k < mine.len() ==> !((#[trigger] mine[k]).1 is Observed),
        forall|k: int| from <= k < i ==> (#[trigger] mine[k]).1 == theirs[k].1,
    ensures
        divergence_from(mine, theirs, line_count, from) == divergence_from(
            mine,
            theirs,
            line_count,
            i,
        ),
    decreases i - from,
{
    if from < i {
        assert(mine[from].1 == theirs[from].1);
        lemma_parts_at(mine, theirs, line_count, from + 1, i);
    }
}

/// Logs whose headers differ part before their first line.
pub proof fn law_logs_of_other_runs_part_at_once(
    header: HeaderModel,
    events: Seq<LogEventModel>,
    other: HeaderModel,
    others: Seq<LogEventModel>,
)
    requires
        header != other,
    ensures
        log_divergence(header, events, other, others) matches Some(found) && found.event_index
            is None,
{
}

/// A live check diverges at the first event that is not the one expected in
/// its place, is reported at that line of the log, and stays where it
/// diverged whatever follows; an event beyond the last that is expected
/// diverges at the end of the log.
pub proof fn law_a_re_run_diverges_where_it_first_differs(
    header: HeaderModel,
    events: Seq<LogEventModel>,
    same: Seq<LogEventModel>,
    other: LogEventModel,
    rest: Seq<LogEventModel>,
)
    requires
        same.len() <= expected_lines(events).len(),
        forall|k: int|
            0 <= k < same.len() ==> (#[trigger] expected_lines(events)[k]).1 == same[k],
        same.len() < expected_lines(events).len() ==> expected_lines(events)[same.len() as int].1
            != other,
    ensures
        verdict(
            all_checked(
                fresh_verifier(header, events, header.world_name, header.world_seed),
                same.push(other) + rest,
            ),
        ) matches Err(found) && found.event_index == Some(
            if same.len() < expected_lines(events).len() {
                expected_lines(events)[same.len() as int].0
            } else {
                events.len() as int
            },
        ),
    decreases rest.len(),
{
    let start = fresh_verifier(header, events, header.world_name, header.world_seed);
    let stream = same.push(other) + rest;
    if rest.len() == 0 {
        assert(stream =~= same.push(other));
        assert(stream.drop_last() =~= same);
        lemma_expected_lines(events);
        lemma_all_checked(start, same);
    } else {
        law_a_re_run_diverges_where_it_first_differs(header, events, same, other, rest.drop_last());
        let front = same.push(other) + rest.drop_last();
        assert(stream.drop_last() =~= front);
        let before = all_checked(start, front);
        lemma_expected_lines(events);
        lemma_all_checked(start, front);
        assert(before.divergence is Some) by {
            if before.divergence is None {
                let n = same.len() as int;
                assert(front[n] == other);
                assert(expected_lines(events)[n].1 == front[n]);
            }
        }
    }
}

/// A log of another run is diverged before the first event, whatever follows.
pub proof fn law_a_log_of_another_run_is_refused(
    header: HeaderModel,
    events: Seq<LogEventModel>,
    world_name: Seq<char>,
    world_seed: u64,
    stream: Seq<LogEventModel>,
)
    requires
        header.world_name != world_name || header.world_seed != world_seed,
    ensures
        verdict(
            all_checked(fresh_verifier(header, events, world_name, world_seed), stream),
        ) matches Err(divergence) && divergence.event_index is None,
    decreases stream.len(),
{
    let start = fresh_verifier(header, events, world_name, world_seed);
    lemma_divergence_stays(start, stream);
}

/// The first divergence stays.
proof fn lemma_divergence_stays(v: VerifierModel, stream: Seq<LogEventModel>)
    requires
        v.divergence is Some,
    ensures
        all_checked(v, stream) == v,
    decreases stream.len(),
{
    if stream.len() > 0 {
        lemma_divergence_stays(v, stream.drop_last());
    }
}

} // verus!
