use ratio_noti::fixed::SCALE;
use ratio_noti::monitor::{
    apply_periodic_fired, check_thresholds, format_duration, mark_threshold_triggered,
    periodic_due, process_pair_sample, reset_triggered_thresholds,
    was_threshold_recently_triggered, Alert, MonitorState, PairState, RatioSnapshot,
};
use ratio_noti::ratio::Ratio;

fn fresh_pair(n_thresholds: usize) -> PairState {
    PairState { history: Vec::new(), triggered: vec![false; n_thresholds] }
}

fn ratio(num: u64, den: u64) -> Ratio {
    Ratio { num, den }
}

#[test]
fn breach_alerts_once_per_threshold_until_reset() {
    // baseline 1.000, current 1.060, thresholds 5% and 10%: the 6% change
    // fires the 5% threshold only, and only once while sustained
    let thresholds: Vec<u32> = vec![500, 1000];
    let window: u64 = 300;
    let mut ps = fresh_pair(2);

    let a0 = process_pair_sample(&mut ps, &thresholds, window, ratio(1000, 1000), 1000);
    assert!(a0.is_empty());

    let a1 = process_pair_sample(&mut ps, &thresholds, window, ratio(1060, 1000), 1060);
    assert_eq!(a1, vec![Alert { threshold_centipct: 500, change_centipct: 600 }]);
    assert_eq!(ps.triggered, vec![true, false]);

    // a later tick still above 5% does not re-alert
    let a2 = process_pair_sample(&mut ps, &thresholds, window, ratio(1061, 1000), 1120);
    assert!(a2.is_empty());
    assert_eq!(ps.triggered, vec![true, false]);
}

#[test]
fn reset_lets_a_threshold_alert_again() {
    let thresholds: Vec<u32> = vec![500];
    let window: u64 = 300;
    let mut st = MonitorState::new(1, 1, 1000);

    let _ = process_pair_sample(&mut st.pairs[0], &thresholds, window, ratio(1000, 1000), 1000);
    let a1 = process_pair_sample(&mut st.pairs[0], &thresholds, window, ratio(1060, 1000), 1060);
    assert_eq!(a1.len(), 1);

    apply_periodic_fired(&mut st, 1100);
    assert_eq!(st.last_periodic, 1100);
    assert_eq!(st.pairs[0].triggered, vec![false]);

    let a2 = process_pair_sample(&mut st.pairs[0], &thresholds, window, ratio(1060, 1000), 1120);
    assert_eq!(a2, vec![Alert { threshold_centipct: 500, change_centipct: 600 }]);
}

#[test]
fn both_thresholds_fire_on_a_large_move() {
    let thresholds: Vec<u32> = vec![500, 1000];
    let mut ps = fresh_pair(2);
    let _ = process_pair_sample(&mut ps, &thresholds, 300, ratio(1000, 1000), 1000);
    let alerts = process_pair_sample(&mut ps, &thresholds, 300, ratio(1200, 1000), 1060);
    assert_eq!(
        alerts,
        vec![
            Alert { threshold_centipct: 500, change_centipct: 2000 },
            Alert { threshold_centipct: 1000, change_centipct: 2000 },
        ]
    );
    assert_eq!(ps.triggered, vec![true, true]);
}

#[test]
fn downward_moves_alert_with_negative_change() {
    let thresholds: Vec<u32> = vec![500];
    let mut ps = fresh_pair(1);
    let _ = process_pair_sample(&mut ps, &thresholds, 300, ratio(1000, 1000), 1000);
    let alerts = process_pair_sample(&mut ps, &thresholds, 300, ratio(940, 1000), 1060);
    assert_eq!(alerts, vec![Alert { threshold_centipct: 500, change_centipct: -600 }]);
}

#[test]
fn history_prunes_beyond_twice_the_window() {
    let thresholds: Vec<u32> = vec![500];
    let window: u64 = 300;
    let mut ps = fresh_pair(1);
    let _ = process_pair_sample(&mut ps, &thresholds, window, ratio(1000, 1000), 1000);
    let _ = process_pair_sample(&mut ps, &thresholds, window, ratio(1001, 1000), 1300);
    // at t = 1700 the cutoff is 1100: the first snapshot drops out
    let _ = process_pair_sample(&mut ps, &thresholds, window, ratio(1002, 1000), 1700);
    assert_eq!(ps.history.len(), 2);
    assert_eq!(ps.history[0].timestamp, 1300);
    assert_eq!(ps.history[1].timestamp, 1700);
}

#[test]
fn baseline_is_oldest_snapshot_inside_the_window() {
    // two old snapshots at 1.000 and a recent one at 1.050; the baseline for
    // the breach check is the oldest entry within the window
    let thresholds: Vec<u32> = vec![400];
    let window: u64 = 300;
    let mut ps = fresh_pair(1);
    let _ = process_pair_sample(&mut ps, &thresholds, window, ratio(1000, 1000), 1000);
    let a1 = process_pair_sample(&mut ps, &thresholds, window, ratio(1020, 1000), 1100);
    assert!(a1.is_empty());
    // at t = 1200 the window starts at 900, so the 1.000 snapshot is baseline:
    // 1.045 is a 4.5% move against it (only 2.45% against the later snapshot)
    // and fires the 4% threshold
    let alerts = process_pair_sample(&mut ps, &thresholds, window, ratio(1045, 1000), 1200);
    assert_eq!(alerts, vec![Alert { threshold_centipct: 400, change_centipct: 450 }]);
}

#[test]
fn empty_history_skips_the_breach_check() {
    let thresholds: Vec<u32> = vec![500];
    let mut ps = fresh_pair(1);
    let current = RatioSnapshot { ratio: ratio(2000, 1000), timestamp: 50 };
    let alerts = check_thresholds(&mut ps, &thresholds, 300, &current, 50);
    assert!(alerts.is_empty());
    assert_eq!(ps.triggered, vec![false]);
}

#[test]
fn debounce_helpers_mark_and_reset() {
    let mut ps = fresh_pair(3);
    assert!(!was_threshold_recently_triggered(&ps, 1));
    mark_threshold_triggered(&mut ps, 1);
    assert!(was_threshold_recently_triggered(&ps, 1));
    assert!(!was_threshold_recently_triggered(&ps, 0));
    reset_triggered_thresholds(&mut ps);
    assert_eq!(ps.triggered, vec![false, false, false]);
}

#[test]
fn periodic_check_follows_the_period() {
    let st = MonitorState::new(0, 0, 1000);
    assert!(!periodic_due(&st, 3600, 4599));
    assert!(periodic_due(&st, 3600, 4600));
    assert!(periodic_due(&st, 0, 1000));
}

#[test]
fn fresh_state_has_one_slot_per_pair() {
    let st = MonitorState::new(3, 2, 42);
    assert_eq!(st.pairs.len(), 3);
    assert_eq!(st.last_periodic, 42);
    for ps in &st.pairs {
        assert!(ps.history.is_empty());
        assert_eq!(ps.triggered, vec![false, false]);
    }
}

#[test]
fn durations_render_in_coarse_units() {
    assert_eq!(format_duration(0), "0s");
    assert_eq!(format_duration(59), "59s");
    assert_eq!(format_duration(60), "1m");
    assert_eq!(format_duration(3599), "59m");
    assert_eq!(format_duration(3600), "1h");
    assert_eq!(format_duration(7200), "2h");
}

#[test]
fn exact_threshold_boundary_fires() {
    // a change of exactly 5.00% meets the 5% threshold
    let thresholds: Vec<u32> = vec![500];
    let mut ps = fresh_pair(1);
    let _ = process_pair_sample(&mut ps, &thresholds, 300, ratio(1000 * SCALE, 1000 * SCALE), 1000);
    let alerts =
        process_pair_sample(&mut ps, &thresholds, 300, ratio(1050 * SCALE, 1000 * SCALE), 1060);
    assert_eq!(alerts, vec![Alert { threshold_centipct: 500, change_centipct: 500 }]);
}

#[test]
fn just_below_threshold_does_not_fire() {
    let thresholds: Vec<u32> = vec![500];
    let mut ps = fresh_pair(1);
    let _ = process_pair_sample(&mut ps, &thresholds, 300, ratio(10000, 10000), 1000);
    let alerts = process_pair_sample(&mut ps, &thresholds, 300, ratio(10499, 10000), 1060);
    assert!(alerts.is_empty());
}
