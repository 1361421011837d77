//! What a component may declare its steps to cost, and what passes it.
use continuo::timing::{OnTimeout, StepTiming, WallDuration};

/// A wall-clock duration, in milliseconds.
fn wall_ms(millis: u64) -> WallDuration {
    WallDuration::from_millis(millis)
}

#[test]
fn declaring_nothing_is_never_exceeded() {
    let timing = StepTiming::unlimited();
    assert_eq!(timing, StepTiming::default());
    for elapsed in [WallDuration::zero(), WallDuration::from_secs(3600)] {
        assert!(!timing.over_budget(elapsed));
        assert!(!timing.over_timeout(elapsed));
    }
}

#[test]
fn a_budget_alone_reports_and_never_escalates() {
    let timing = StepTiming::budget(wall_ms(10));
    assert!(!timing.over_budget(wall_ms(9)));
    assert!(timing.over_budget(wall_ms(11)));
    // However far over, a component with no timeout declared cannot halt a
    // run or be removed from one for being slow.
    assert!(timing.over_budget(WallDuration::from_secs(60)));
    assert!(!timing.over_timeout(WallDuration::from_secs(60)));
}

#[test]
fn a_timeout_alone_needs_no_budget_to_fire() {
    let timing = StepTiming::timeout(wall_ms(10), OnTimeout::Remove);
    assert!(!timing.over_timeout(wall_ms(9)));
    assert!(timing.over_timeout(wall_ms(11)));
    assert!(!timing.over_budget(wall_ms(11)));
}

#[test]
fn both_levels_report_when_both_are_passed() {
    let timing = StepTiming::budget(wall_ms(10)).with_timeout(wall_ms(50), OnTimeout::Halt);
    assert!(!timing.over_budget(wall_ms(5)) && !timing.over_timeout(wall_ms(5)));
    assert!(timing.over_budget(wall_ms(20)) && !timing.over_timeout(wall_ms(20)));
    assert!(timing.over_budget(wall_ms(60)) && timing.over_timeout(wall_ms(60)));
}

#[test]
fn the_levels_read_their_own_quantity() {
    // A quick step behind a slow transport passes the timeout with its budget
    // intact, so the network was slow rather than the component.
    let timing = StepTiming::budget(wall_ms(10)).with_timeout(wall_ms(50), OnTimeout::Halt);
    let step = wall_ms(5);
    let waited = wall_ms(60);
    assert!(!timing.over_budget(step));
    assert!(timing.over_timeout(waited));
}

#[test]
fn landing_exactly_on_a_limit_is_within_it() {
    let timing = StepTiming::budget(wall_ms(10)).with_timeout(wall_ms(50), OnTimeout::Halt);
    assert!(!timing.over_budget(wall_ms(10)));
    assert!(timing.over_budget(wall_ms(10) + WallDuration::from_nanos(1)));
    assert!(!timing.over_timeout(wall_ms(50)));
    assert!(timing.over_timeout(wall_ms(50) + WallDuration::from_nanos(1)));
}

#[test]
fn a_budget_that_could_never_report_is_reported_instead() {
    // Above the timeout: every step that misses the budget has already timed
    // out.
    let over = StepTiming::budget(wall_ms(50)).with_timeout(wall_ms(10), OnTimeout::Halt);
    assert_eq!(over.unreachable_budget(), Some((wall_ms(50), wall_ms(10))));
    // Equal is the same story: passing one passes the other.
    let equal = StepTiming::budget(wall_ms(10)).with_timeout(wall_ms(10), OnTimeout::Halt);
    assert_eq!(equal.unreachable_budget(), Some((wall_ms(10), wall_ms(10))));

    // Coherent declarations, and declarations missing a level, are fine.
    assert_eq!(
        StepTiming::budget(wall_ms(10))
            .with_timeout(wall_ms(50), OnTimeout::Halt)
            .unreachable_budget(),
        None
    );
    assert_eq!(StepTiming::budget(wall_ms(50)).unreachable_budget(), None);
    assert_eq!(
        StepTiming::timeout(wall_ms(10), OnTimeout::Halt).unreachable_budget(),
        None
    );
    assert_eq!(StepTiming::unlimited().unreachable_budget(), None);
}

#[test]
fn halting_is_the_policy_a_declaration_falls_back_to() {
    assert_eq!(OnTimeout::default(), OnTimeout::Halt);
    assert_eq!(StepTiming::budget(wall_ms(10)).on_timeout, OnTimeout::Halt);
}

#[test]
fn the_two_levels_can_be_declared_in_either_order() {
    let soft_first = StepTiming::budget(wall_ms(10)).with_timeout(wall_ms(50), OnTimeout::Remove);
    let hard_first = StepTiming::timeout(wall_ms(50), OnTimeout::Remove).with_budget(wall_ms(10));
    assert_eq!(soft_first, hard_first);

    // And each one-level constructor is its builder applied to no limits.
    assert_eq!(
        StepTiming::budget(wall_ms(10)),
        StepTiming::unlimited().with_budget(wall_ms(10))
    );
    assert_eq!(
        StepTiming::timeout(wall_ms(50), OnTimeout::Remove),
        StepTiming::unlimited().with_timeout(wall_ms(50), OnTimeout::Remove)
    );
}

#[test]
fn declaring_a_level_twice_keeps_the_last() {
    let timing = StepTiming::budget(wall_ms(10))
        .with_budget(wall_ms(20))
        .with_timeout(wall_ms(50), OnTimeout::Halt)
        .with_timeout(wall_ms(60), OnTimeout::Remove);

    assert_eq!(timing.budget, Some(wall_ms(20)));
    assert_eq!(timing.timeout, Some(wall_ms(60)));
    assert_eq!(timing.on_timeout, OnTimeout::Remove, "policy follows too");
}
