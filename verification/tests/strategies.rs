//! How a step runs.

use swamp::aimd::AimdRamp;
use swamp::fugu::{
    AttentionStrategy, CacheStrategy, FuguOrchestrator, GemvStrategy, SpeculationStrategy,
    SystemSnapshot, FP_ONE,
};

/// Blends a new rate into the old one: seven parts old, three parts new.
fn blend(old: u64, rate: f64) -> u64 {
    let fixed = (rate * FP_ONE as f64) as u64;
    (old as f64 * 0.7 + fixed as f64 * 0.3) as u64
}

fn record(fugu: &mut FuguOrchestrator, rate: f64) {
    let blended = blend(fugu.accept_rate(), rate);
    fugu.record_acceptance(blended);
}

fn snapshot(seq_len: usize, accept_rate: f64) -> SystemSnapshot {
    SystemSnapshot {
        seq_len,
        cache_pressure: 0.0f64.to_bits(),
        n_prompt_tokens: 0,
        batch_size: 1,
        is_prefill: false,
        coherence: 1.0f64.to_bits(),
        dspark_accept_rate: accept_rate.to_bits(),
        predictive_throttle: false,
    }
}

#[test]
fn test_decide_attention_full_short_context() {
    let mut fugu = FuguOrchestrator::new(22, 32, 4, 64);
    let strat = fugu.decide(&snapshot(100, 0.5));
    assert_eq!(strat.attention, AttentionStrategy::Full);
}

#[test]
fn test_decide_attention_sparse_long_context() {
    let mut fugu = FuguOrchestrator::new(22, 32, 4, 64);
    let strat = fugu.decide(&snapshot(1024, 0.5));
    assert!(matches!(strat.attention, AttentionStrategy::Sparse { .. }));
}

#[test]
fn test_decide_speculation_low_accept_rate() {
    let mut fugu = FuguOrchestrator::new(22, 32, 4, 64);
    for _ in 0..10 {
        record(&mut fugu, 0.05);
    }
    let strat = fugu.decide(&snapshot(100, 0.05));
    assert_eq!(strat.speculation, SpeculationStrategy::Disabled);
}

#[test]
fn test_decide_speculation_high_accept_rate() {
    let mut fugu = FuguOrchestrator::new(22, 32, 4, 64);
    for _ in 0..10 {
        record(&mut fugu, 0.9);
    }
    let strat = fugu.decide(&snapshot(100, 0.9));
    assert_eq!(strat.speculation, SpeculationStrategy::Enabled(2));
}

#[test]
fn attention_turns_sparse_past_the_threshold() {
    let mut fugu = FuguOrchestrator::new(22, 32, 4, 64);
    assert_eq!(fugu.decide(&snapshot(512, 0.5)).attention, AttentionStrategy::Full);
    assert_eq!(
        fugu.decide(&snapshot(513, 0.5)).attention,
        AttentionStrategy::Sparse { window: 256, num_random: 32 }
    );
    assert_eq!(
        fugu.decide(&snapshot(2049, 0.5)).attention,
        AttentionStrategy::SparseWithDSPark { window: 256, sentinel_stride: 64, num_dspark: 16 }
    );
    assert_eq!(
        fugu.decide(&snapshot(2049, 0.0)).attention,
        AttentionStrategy::Sparse { window: 256, num_random: 32 }
    );
    let hot = SystemSnapshot { predictive_throttle: true, ..snapshot(300, 0.5) };
    assert_eq!(
        fugu.decide(&hot).attention,
        AttentionStrategy::Sparse { window: 128, num_random: 32 }
    );
    let prefill = SystemSnapshot { is_prefill: true, ..snapshot(5000, 0.5) };
    assert_eq!(fugu.decide(&prefill).attention, AttentionStrategy::Full);
    let d = fugu.diagnostics();
    assert_eq!(d.full_attention, 1);
    assert_eq!(d.sparse_attention, 4);
}

#[test]
fn pressure_keeps_pages_in_memory() {
    let mut fugu = FuguOrchestrator::new(22, 32, 4, 64);
    let s = SystemSnapshot { cache_pressure: 0.81f64.to_bits(), ..snapshot(10, 0.5) };
    assert_eq!(fugu.decide(&s).cache, CacheStrategy::RamPreferred);
    let calm = SystemSnapshot { cache_pressure: 0.8f64.to_bits(), ..snapshot(10, 0.5) };
    assert_eq!(fugu.decide(&calm).cache, CacheStrategy::Normal);
    assert_eq!(fugu.decide(&calm).gemv, GemvStrategy::RowParallel(0));
}

#[test]
fn budget_doubles_and_halves() {
    let mut ramp = AimdRamp::new(0);
    assert_eq!(ramp.budget(), 8);
    assert_eq!(ramp.assess(false, 499_999_999), 8);
    assert_eq!(ramp.assess(false, 500_000_000), 16);
    assert_eq!(ramp.assess(true, 1_000_000_000), 8);
    assert_eq!(ramp.assess(true, 1_500_000_000), 4);
    assert!(ramp.just_stressed());
    assert_eq!(ramp.halvings(), 2);
    assert_eq!(ramp.concurrency(), 1);
    let mut now = 2_000_000_000;
    for _ in 0..12 {
        ramp.assess(false, now);
        now += 500_000_000;
    }
    assert_eq!(ramp.budget(), 128);
    assert_eq!(ramp.concurrency(), 16);
    assert_eq!(ramp.scaled_threads(6), 12);
    for _ in 0..12 {
        ramp.assess(true, now);
        now += 500_000_000;
    }
    assert_eq!(ramp.budget(), 1);
    assert_eq!(ramp.scaled_threads(6), 1);
}

#[test]
fn stress_halves_the_budget_at_once() {
    let mut ramp = AimdRamp::new(1000);
    assert_eq!(ramp.assess(true, 1001), 4);
    assert_eq!(ramp.assess(true, 1001), 2);
    assert!(ramp.just_stressed());
    assert_eq!((ramp.halvings(), ramp.cycles()), (2, 2));
    assert_eq!(ramp.assess(false, 500_001_000), 2);
    assert_eq!(ramp.assess(false, 500_001_001), 4);
    assert!(!ramp.just_stressed());
    assert_eq!(ramp.assess(true, 5), 2);
    assert_eq!(ramp.last_assessment_ns, 500_001_001);
}
