//! Wall clock, hybrid clock and profile.

use swamp::hlc::{
    profiling_requested, HlcTimestamp, HybridClock, ProfileSink, WallClock,
};

/// A clock of one nanosecond per tick, started at tick 1000.
fn wall() -> WallClock {
    WallClock::new(1000, 5000, 0, 10_000_000)
}

#[test]
fn test_wall_clock_monotonic() {
    let wc = wall();
    let t1 = wc.now_ns(2000);
    let t2 = wc.now_ns(2100);
    assert!(t2 > t1, "wall clock must be monotonic: {} <= {}", t2, t1);
    assert_eq!(t1, 6000);
    assert_eq!(t2, 6100);
}

#[test]
fn test_hlc_monotonic() {
    let mut hlc = HybridClock::new(wall(), 1000);
    let t1 = hlc.now(1500);
    let t2 = hlc.now(1500);
    assert!(
        t1.happened_before(&t2) || t1 == t2,
        "HLC must be monotonic: {:?} >= {:?}",
        t1,
        t2
    );
}

#[test]
fn test_hlc_logical_advance() {
    let mut hlc = HybridClock::new(wall(), 1000);
    let t1 = hlc.now(1000);
    let t2 = hlc.now(1000);
    let t3 = hlc.now(1000);
    assert!(t1 <= t2 && t2 <= t3);
}

#[test]
fn test_witness() {
    let mut hlc = HybridClock::new(wall(), 1000);
    let future_ts = HlcTimestamp::new(u64::MAX, 0);
    let witnessed = hlc.witness(future_ts, 1001);
    assert!(witnessed.wall >= future_ts.wall);
}

#[test]
fn test_hlc_ordering() {
    let mut timestamps = vec![
        HlcTimestamp::new(100, 3),
        HlcTimestamp::new(100, 1),
        HlcTimestamp::new(100, 2),
        HlcTimestamp::new(50, 0),
    ];
    timestamps.sort();
    assert_eq!(timestamps[0].wall, 50);
    assert_eq!(timestamps[1].logical, 1);
    assert_eq!(timestamps[2].logical, 2);
    assert_eq!(timestamps[3].logical, 3);
}

#[test]
fn test_profile_sink() {
    let mut sink = ProfileSink::new(true, HybridClock::new(wall(), 1000));
    let t = sink.begin_layer(0, false, 2000);
    sink.end_layer(t, 2500);
    let report = sink.report().unwrap();
    assert_eq!(report.layers, 1);
    assert_eq!(report.avg_ns, 500);
}

#[test]
fn profile_names_the_slowest_layer() {
    let mut sink = ProfileSink::new(true, HybridClock::new(wall(), 1000));
    assert!(sink.is_empty());
    assert!(sink.report().is_none());
    for (layer, start, end) in [(0, 2000, 2100), (1, 2200, 3000), (2, 3100, 3200)] {
        let t = sink.begin_layer(layer, false, start);
        sink.end_layer(t, end);
    }
    let report = sink.report().unwrap();
    assert_eq!(report.layers, 3);
    assert_eq!(report.max_layer, 1);
    assert_eq!(report.max_ns, 800);
    assert_eq!(report.total_ns, 100 + 800 + 100);
}

#[test]
fn disabled_profile_keeps_nothing() {
    let mut sink = ProfileSink::new(false, HybridClock::new(wall(), 1000));
    let t = sink.begin_layer(0, false, 2000);
    sink.end_layer(t, 2500);
    assert!(sink.is_empty());
}

#[test]
fn stamps_ascend_when_the_clock_stands_still() {
    let mut hlc = HybridClock::new(wall(), 1000);
    let t1 = hlc.now(1200);
    let t2 = hlc.now(1200);
    let t3 = hlc.now(1300);
    assert!(t1.happened_before(&t2));
    assert_eq!(t2.wall, t1.wall);
    assert_eq!(t2.logical, t1.logical + 1);
    assert!(t2.happened_before(&t3));
    assert_eq!(t3.logical, 0);
}

#[test]
fn witnessing_stays_ahead_of_both_clocks() {
    let mut hlc = HybridClock::new(wall(), 1000);
    let ahead = HlcTimestamp::new(1_000_000, 7);
    let w = hlc.witness(ahead, 1100);
    assert!(ahead.happened_before(&w));
    let next = hlc.now(1100);
    assert!(w.happened_before(&next));
    let behind = HlcTimestamp::new(1, 0);
    let again = hlc.witness(behind, 1100);
    assert!(next.happened_before(&again));
}

#[test]
fn recalibration_does_not_jump() {
    let mut wc = wall();
    let before = wc.now_ns(5000);
    // Twice as many ticks per sample: half a nanosecond each.
    wc.recalibrate(5000, 0, 20_000_000, 5000);
    assert_eq!(wc.now_ns(5000), before);
    assert_eq!(wc.now_ns(7000), before + 1000);
}

#[test]
fn profiling_is_asked_for_by_switch_or_log_level() {
    assert!(profiling_requested(Some(b"1"), None));
    assert!(!profiling_requested(None, None));
    assert!(profiling_requested(None, Some(b"swamp=debug")));
    assert!(!profiling_requested(None, Some(b"info")));
}

#[test]
fn full_logical_counters_carry_into_the_wall_time() {
    let mut hlc = HybridClock::new(wall(), 1000);
    let ahead = HlcTimestamp::new(1_000_000, u32::MAX);
    let w = hlc.witness(ahead, 1100);
    assert_eq!(w, HlcTimestamp::new(1_000_001, 0));
    let w = hlc.witness(HlcTimestamp::new(2_000_000, u32::MAX - 1), 1100);
    assert_eq!(w, HlcTimestamp::new(2_000_000, u32::MAX));
    let next = hlc.now(1100);
    assert_eq!(next, HlcTimestamp::new(2_000_001, 0));
    assert!(w.happened_before(&next));
    let end = HlcTimestamp::new(u64::MAX, u32::MAX);
    assert_eq!(hlc.witness(end, 1100), end);
}
