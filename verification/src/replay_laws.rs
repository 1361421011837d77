//! Laws of recording a run and running it again.
use vstd::prelude::*;

use crate::record::{HeaderModel, LogEventModel};
use crate::run_laws::{lemma_part_pushed, part_of_run, same_run};
use crate::verify::{expected_lines, fresh_verifier, substance, verdict, DivergenceModel};
use crate::world::{EffectModel, WorldModel};

verus! {

/// The line that something handed out makes in a log, if any: what a recorder
/// that watches everything is shown and told.
pub open spec fn line_of(effect: EffectModel) -> Option<LogEventModel> {
    match effect {
        EffectModel::Publish(message) => Some(crate::record::recorded(message)),
        EffectModel::Membership(change) => Some(crate::record::membership_line(change)),
        EffectModel::Tick(fingerprint) => Some(LogEventModel::Tick(fingerprint)),
        EffectModel::Observation(observation) => Some(LogEventModel::Observed(observation)),
        _ => None,
    }
}

/// The log of a history.
pub open spec fn log_of(history: Seq<EffectModel>) -> Seq<LogEventModel>
    decreases history.len(),
{
    if history.len() == 0 {
        Seq::empty()
    } else {
        let earlier = log_of(history.drop_last());
        match line_of(history.last()) {
            Some(line) => earlier.push(line),
            None => earlier,
        }
    }
}

/// The header of a log of a world.
pub open spec fn header_of_world(m: WorldModel) -> HeaderModel {
    HeaderModel { version: 1, world_name: m.name, world_seed: m.seed }
}

proof fn lemma_substance_pushed(events: Seq<LogEventModel>, last: LogEventModel)
    ensures
        substance(events.push(last)) == (if last is Observed {
            substance(events)
        } else {
            substance(events).push(last)
        }),
{
    let all = events.push(last);
    assert(all.drop_last() =~= events);
    if !(last is Observed) {
        let lines = expected_lines(events);
        assert(expected_lines(all) == lines.push((all.len() - 1, last)));
        assert(substance(all) =~= substance(events).push(last));
    }
}

proof fn lemma_log_pushed(history: Seq<EffectModel>, effect: EffectModel)
    ensures
        log_of(history.push(effect)) == (match line_of(effect) {
            Some(line) => log_of(history).push(line),
            None => log_of(history),
        }),
{
    assert(history.push(effect).drop_last() =~= history);
}

/// What a log is held to is what of the history is part of the run.
pub proof fn law_a_log_holds_a_run_to_what_is_part_of_it(history: Seq<EffectModel>)
    ensures
        substance(log_of(history)) == log_of(part_of_run(history)),
    decreases history.len(),
{
    if history.len() == 0 {
        assert(substance(log_of(history)) =~= Seq::<LogEventModel>::empty());
    } else {
        let front = history.drop_last();
        let last = history.last();
        law_a_log_holds_a_run_to_what_is_part_of_it(front);
        assert(front.push(last) =~= history);
        lemma_part_pushed(front, last);
        if let Some(line) = line_of(last) {
            lemma_substance_pushed(log_of(front), line);
            if !(last is Observation) {
                lemma_log_pushed(part_of_run(front), last);
            }
        } else {
            lemma_log_pushed(part_of_run(front), last);
        }
    }
}

/// A recorded run verifies against a re-run: where two runs are the same, a
/// live check of the second against the log of the first accepts every event,
/// whatever either log says of the machine.
pub proof fn law_a_recorded_run_verifies_against_a_re_run(recorded: WorldModel, again: WorldModel)
    requires
        same_run(recorded, again),
    ensures
        ({
            let start = fresh_verifier(
                header_of_world(recorded),
                log_of(recorded.history),
                again.name,
                again.seed,
            );
            let stream = log_of(part_of_run(again.history));
            verdict(crate::verify::all_checked(start, stream)) == Ok::<int, DivergenceModel>(
                stream.len() as int,
            )
        }),
{
    law_a_log_holds_a_run_to_what_is_part_of_it(recorded.history);
    crate::verify::law_the_verifier_accepts_exactly_the_recorded_stream(
        header_of_world(recorded),
        log_of(recorded.history),
        log_of(part_of_run(again.history)),
    );
}

/// A check that accepts a re-run says that what was published, who joined and
/// left, and every fingerprint was what the log says.
pub proof fn law_a_verified_re_run_did_what_was_recorded(
    header: HeaderModel,
    events: Seq<LogEventModel>,
    again: WorldModel,
)
    requires
        header.world_name == again.name,
        header.world_seed == again.seed,
        verdict(
            crate::verify::all_checked(
                fresh_verifier(header, events, again.name, again.seed),
                log_of(part_of_run(again.history)),
            ),
        ) is Ok,
    ensures
        substance(events) == substance(log_of(again.history)),
{
    law_a_log_holds_a_run_to_what_is_part_of_it(again.history);
    crate::verify::law_the_verifier_accepts_exactly_the_recorded_stream(
        header,
        events,
        log_of(part_of_run(again.history)),
    );
}

} // verus!
