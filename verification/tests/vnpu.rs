//! The scheduler of matrix rows.

use swamp::vnpu::{Backend, GemvSchedulers, VirtualNpuScheduler, DEFAULT_BUDGET_NS};

#[test]
fn test_vnpu_schedule_default() {
    let vnpu = VirtualNpuScheduler::new(DEFAULT_BUDGET_NS);
    let (nt, be) = vnpu.schedule();
    assert_eq!(nt, 4);
    assert_eq!(be, Backend::Cpu);
}

#[test]
fn test_vnpu_record_under_budget() {
    let mut vnpu = VirtualNpuScheduler::new(DEFAULT_BUDGET_NS);
    vnpu.record(500_000, 1000);
    let (nt, _) = vnpu.schedule();
    assert_eq!(nt, 3);
}

#[test]
fn test_vnpu_record_over_budget() {
    let mut vnpu = VirtualNpuScheduler::new(DEFAULT_BUDGET_NS);
    vnpu.record(3_000_000, 100);
    let (nt, _) = vnpu.schedule();
    assert_eq!(nt, 5);
}

#[test]
fn test_vnpu_backend_default_cpu() {
    let vnpu = VirtualNpuScheduler::new(DEFAULT_BUDGET_NS);
    assert_eq!(vnpu.schedule().1, Backend::Cpu);
}

#[test]
fn test_vnpu_backend_gpu_reserved() {
    let mut vnpu = VirtualNpuScheduler::new(DEFAULT_BUDGET_NS);
    vnpu.set_backend(Backend::Gpu);
    assert_eq!(vnpu.schedule().1, Backend::Gpu);
}

#[test]
fn test_vnpu_reset() {
    let mut vnpu = VirtualNpuScheduler::new(DEFAULT_BUDGET_NS);
    vnpu.record(3_000_000, 100);
    assert_eq!(vnpu.schedule().0, 5);
    vnpu.reset();
    assert_eq!(vnpu.schedule().0, 4);
}

#[test]
fn threads_stay_between_one_and_six() {
    let mut vnpu = VirtualNpuScheduler::new(DEFAULT_BUDGET_NS);
    for _ in 0..10 {
        vnpu.record(30_000_000, 100);
    }
    assert_eq!(vnpu.schedule().0, 6);
    let mut idle = VirtualNpuScheduler::new(DEFAULT_BUDGET_NS);
    for _ in 0..10 {
        idle.record(100, 100);
    }
    assert_eq!(idle.schedule().0, 1);
}

#[test]
fn no_rows_change_nothing() {
    let mut vnpu = VirtualNpuScheduler::new(DEFAULT_BUDGET_NS);
    vnpu.record(3_000_000, 0);
    assert_eq!(vnpu.schedule().0, 4);
    assert_eq!(vnpu.current_estimate_ns(), 0);
}

#[test]
fn estimate_is_a_moving_average() {
    let mut vnpu = VirtualNpuScheduler::new(DEFAULT_BUDGET_NS);
    vnpu.record(800_000, 1000);
    assert_eq!(vnpu.current_estimate_ns(), 800);
    vnpu.record(1_600_000, 1000);
    assert_eq!(vnpu.current_estimate_ns(), 900);
    vnpu.record(900_000, 1000);
    assert_eq!(vnpu.current_estimate_ns(), 900);
}

#[test]
fn schedulers_reset_together() {
    let mut all = GemvSchedulers::new(DEFAULT_BUDGET_NS);
    all.qkv.record(3_000_000, 100);
    all.logits.record(3_000_000, 100);
    assert_eq!(all.qkv.schedule().0, 5);
    all.reset_all();
    assert_eq!(all.qkv.schedule().0, 4);
    assert_eq!(all.logits.schedule().0, 4);
    assert_eq!(all.down.schedule().0, 4);
}
