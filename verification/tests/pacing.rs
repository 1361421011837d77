//! The anchor-and-slip arithmetic of real-time pacing, against a clock that
//! the tests move by hand.
use continuo::pacing::{coarse_sleep_nanos, keep_pace, PaceAction, Pacer, Pacing, WallClock};
use continuo::time::SimTime;
use continuo::timing::WallDuration;

/// A clock the test moves by hand: `sleep` advances it (the pacer is
/// waiting), and `do_work` advances it to stand in for step execution taking
/// wall time.
struct ManualClock {
    now: i128,
    sleeps: Vec<i128>,
}

impl ManualClock {
    fn new() -> Self {
        ManualClock {
            now: 0,
            sleeps: Vec::new(),
        }
    }

    fn do_work(&mut self, nanos: i128) {
        self.now += nanos;
    }
}

impl WallClock for ManualClock {
    fn elapsed_nanos(&self) -> i64 {
        self.now as i64
    }

    fn sleep(&mut self, nanos: i128) {
        self.sleeps.push(nanos);
        self.now += nanos;
    }
}

fn t(nanos: i64) -> SimTime {
    SimTime::from_nanos(nanos)
}

/// Sim time in milliseconds, the scale the re-anchor threshold lives at.
fn t_ms(millis: i64) -> SimTime {
    SimTime::from_millis(millis)
}

/// Wall-clock nanoseconds from milliseconds.
fn ms(millis: i64) -> i128 {
    millis as i128 * 1_000_000
}

#[test]
fn first_instant_anchors_without_waiting() {
    let mut pacer = Pacer::new(ManualClock::new());
    pacer.pace(t(0));
    assert!(pacer.clock.sleeps.is_empty());
    assert_eq!(pacer.overrun_reanchor_count(), 0);
}

#[test]
fn a_run_that_keeps_up_sleeps_the_full_gap_each_instant() {
    let mut pacer = Pacer::new(ManualClock::new());
    pacer.pace(t(0)); // anchor at (0, 0)
    pacer.pace(t(100)); // target 100, wall 0 -> sleep 100
    pacer.pace(t(250)); // target 250, wall 100 -> sleep 150
    assert_eq!(pacer.clock.sleeps, vec![100, 150]);
    assert_eq!(pacer.overrun_reanchor_count(), 0);
}

#[test]
fn an_overrun_past_the_threshold_slips_the_anchor_and_does_not_catch_up() {
    let mut pacer = Pacer::new(ManualClock::new());
    pacer.pace(t_ms(0)); // anchor at (0, 0)
    pacer.pace(t_ms(100)); // target 100 ms, wall 0 -> sleep 100 ms
    pacer.clock.do_work(ms(250)); // this step runs long (now 350 ms)
    pacer.pace(t_ms(200)); // target 200 ms, wall 350 -> 150 ms late, re-anchor
    pacer.pace(t_ms(300)); // target 350+100 = 450 ms, wall 350 -> sleep 100 ms

    assert_eq!(pacer.clock.sleeps, vec![ms(100), ms(100)]);
    assert_eq!(pacer.overrun_reanchor_count(), 1);
    assert_eq!(pacer.total_slip(), WallDuration::from_millis(150));
}

#[test]
fn lateness_under_the_threshold_is_absorbed_like_an_oversleep() {
    // An observer samples 1 ns past a boundary, a gap no amount of work can
    // hit. Being ~0.1 ms late for it is not the sim failing to keep up.
    let mut pacer = Pacer::new(ManualClock::new());
    pacer.pace(t_ms(0)); // anchor at (0, 0)
    pacer.clock.do_work(100_000); // 0.1 ms of work
    pacer.pace(t(1)); // 1 ns target, 0.1 ms late -> absorbed
    assert_eq!(pacer.overrun_reanchor_count(), 0);

    // The anchor never moved, so the next instant is still measured from the
    // true origin and lands back on the original schedule.
    pacer.pace(t_ms(10));
    assert_eq!(pacer.clock.sleeps, vec![ms(10) - 100_000]);
    assert_eq!(pacer.total_slip(), WallDuration::zero());
}

#[test]
fn chronic_small_lateness_is_reported_once_it_accumulates() {
    // Every step runs 0.4 ms over its 1 ms sim gap: no single instant is late
    // enough to report, but the sim genuinely cannot keep up.
    let mut pacer = Pacer::new(ManualClock::new());
    pacer.pace(t_ms(0));
    for instant in 1..=3 {
        pacer.clock.do_work(ms(1) + 400_000);
        pacer.pace(t_ms(instant));
    }

    assert_eq!(
        pacer.overrun_reanchor_count(),
        1,
        "0.4 + 0.4 + 0.4 ms: silent, silent, reported on crossing"
    );
    assert_eq!(pacer.total_slip(), WallDuration::from_micros(1200));
}

#[test]
fn spin_mode_sleeps_all_but_the_padding_then_spins_the_rest() {
    let padding = 1_000_000; // 1 ms in ns
    assert_eq!(coarse_sleep_nanos(5_000_000, padding), 4_000_000);
    // A wait shorter than the padding: no coarse sleep, spin the lot.
    assert_eq!(coarse_sleep_nanos(500_000, padding), 0);
    // Exactly the padding: also all spin.
    assert_eq!(coarse_sleep_nanos(padding, padding), 0);
}

#[test]
fn coarse_mode_is_zero_padding_and_sleeps_everything() {
    assert_eq!(coarse_sleep_nanos(5_000_000, 0), 5_000_000);
    assert_eq!(coarse_sleep_nanos(1, 0), 1);
}

#[test]
fn being_exactly_on_target_neither_sleeps_nor_overruns() {
    let mut pacer = Pacer::new(ManualClock::new());
    pacer.pace(t(0)); // anchor at (0, 0)
    pacer.clock.do_work(100); // step took exactly the sim gap
    pacer.pace(t(100)); // target 100, wall 100 -> nothing
    assert!(pacer.clock.sleeps.is_empty());
    assert_eq!(pacer.overrun_reanchor_count(), 0);
}

#[test]
fn landing_exactly_on_the_threshold_slips() {
    let mut pacer = Pacer::new(ManualClock::new());
    pacer.pace(t(0));
    pacer.clock.do_work(ms(1) + 10);
    pacer.pace(t(10));
    assert_eq!(pacer.overrun_reanchor_count(), 1);
    assert_eq!(pacer.total_slip(), WallDuration::from_millis(1));
}

#[test]
fn free_running_is_the_pacing_a_configuration_falls_back_to() {
    assert_eq!(Pacing::default(), Pacing::FreeRun);
    assert_ne!(Pacing::real_time(), Pacing::real_time_precise());
}

#[test]
fn a_pacer_that_is_handed_over_sleeps_like_one_that_is_kept() {
    let (pacer, action) = keep_pace(Pacer::new(ManualClock::new()), t(0));
    assert_eq!(action, PaceAction::Anchor);
    let (pacer, action) = keep_pace(pacer, t(100));
    assert_eq!(action, PaceAction::Sleep(100));
    let (mut pacer, action) = keep_pace(pacer, t(100));
    assert_eq!(action, PaceAction::Proceed);
    pacer.clock.do_work(ms(250));
    let (pacer, action) = keep_pace(pacer, t_ms(100));
    assert_eq!(action, PaceAction::Slip((ms(150) + 100) as u128));
    assert_eq!(pacer.clock.sleeps, vec![100]);
    assert_eq!(pacer.overrun_reanchor_count(), 1);
}
