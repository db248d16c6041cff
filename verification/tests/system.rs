//! Sessions, models, heat, stages, the dispatcher and the service.

use swamp::forward::Work;
use swamp::governor::{
    classify_workload, CognitiveWorkerPool, Flags, ResourceGovernor, SessionTelemetry,
    WorkloadClass,
};
use swamp::hot_pages::HotRange;
use swamp::model_registry::{vram_estimate, MemoryTier, ModelRegistry, BUFFER_BYTES};
use swamp::model_swapper::{ModelSwapper, SwapAction, SwapEvent};
use swamp::pipeline::{
    PipelineBoard, PipelineConfig, PipelineError, PipelineExecutor, Stage, StageIO, StageOutput,
};
use swamp::power_arbiter::{PowerArbiter, PowerReading, PowerShift};
use swamp::server::{
    channel_capacity, check_admission, default_max_tokens, default_temperature, default_top_k,
    default_top_p, default_user_tier, default_workload_type, event_data, Admission,
};
use swamp::swamp_vm::{
    embedding_range, ModelStepOpcode, Route, SessionContext, SessionShape, StepType, SwampVm,
};
use swamp::thermal::{Telemetry, ThermalLSC, ThermalState};
use swamp::tools::{
    dummy_tokens, pick_tensor, select_tensors, shown_count, tally_types, total_bytes, TensorEntry,
};
use swamp::virtual_experts::VirtualExpertPrefetcher;

fn telemetry(gap_ms: f64, prompt_len: usize, total_processed: u64) -> SessionTelemetry {
    SessionTelemetry { gap_from_last_ms: gap_ms.to_bits(), prompt_len, total_processed }
}

#[test]
fn workloads_are_told_apart() {
    let class = |t: SessionTelemetry| classify_workload(&t);
    assert!(matches!(class(telemetry(1.0, 9999, 4)), WorkloadClass::Interactive { .. }));
    assert!(matches!(class(telemetry(49.0, 1, 5)), WorkloadClass::Batch { queue_depth: 1 }));
    assert!(matches!(
        class(telemetry(50.0, 511, 5)),
        WorkloadClass::Interactive { avg_gap_ms } if f64::from_bits(avg_gap_ms) == 50.0
    ));
    assert!(matches!(class(telemetry(50.0, 512, 5)), WorkloadClass::Batch { .. }));
    assert!(matches!(class(telemetry(1000.0, 1, 5)), WorkloadClass::Batch { .. }));
}

#[test]
fn models_join_if_there_is_room() {
    let mut g = ResourceGovernor::new(100, 6, 0);
    assert_eq!(g.free_vram(), 100);
    let dialogue = WorkloadClass::Interactive { avg_gap_ms: 0 };
    let queue = WorkloadClass::Batch { queue_depth: 1 };
    assert!(g.can_admit(100, &dialogue, 100) && !g.can_admit(101, &dialogue, 100));
    assert!(g.can_admit(50, &queue, 100) && !g.can_admit(51, &queue, 100));
    assert!(g.can_admit(499_999_999, &WorkloadClass::Cognitive, 0));
    assert!(!g.can_admit(500_000_000, &WorkloadClass::Cognitive, 100));
    g.registry.register("m", 10, MemoryTier::Vram);
    assert_eq!(g.free_vram(), 100);
    assert!(g.registry.acquire("m"));
    assert_eq!(g.free_vram(), 0);
    assert!(!g.can_admit(1, &dialogue, 0) && g.can_admit(0, &dialogue, 0));
}

#[test]
fn sessions_hold_their_models() {
    let mut g = ResourceGovernor::new(1 << 34, 6, 0);
    g.registry.register("big", 10, MemoryTier::Vram);
    assert_eq!(g.register_session("big", 101, telemetry(1.0, 1, 0), 100, 5), None);
    let id = g.register_session("big", 100, telemetry(1.0, 1, 0), 100, 5).unwrap();
    assert_eq!(g.registry.get("big").unwrap().active_count, 1);
    assert_eq!(g.session_generation(id), Some(0));
    g.touch_session(id, 9);
    assert_eq!(g.session_generation(id), Some(1));
    assert!(g.is_stale_generation(id, 0) && !g.is_stale_generation(id, 1));
    assert_eq!(g.find_session(id).unwrap().last_active_ns, 9);
    assert_eq!(g.current_load(), (1, 1));
    g.unregister_session(id);
    assert_eq!(g.registry.get("big").unwrap().active_count, 0);
    assert_eq!(g.session_generation(id), None);
    assert!(g.is_stale_generation(id, 1));
    assert_eq!(g.current_load(), (0, 1));
}

#[test]
fn queues_give_way_first() {
    let mut g = ResourceGovernor::new(100, 6, 0);
    let a = g.register_session("a", 0, telemetry(1.0, 1, 0), 100, 0).unwrap();
    let b = g.register_session("b", 0, telemetry(1.0, 1, 9), 100, 0).unwrap();
    let c = g.register_session("c", 0, telemetry(60.0, 1, 9), 100, 0).unwrap();
    assert_eq!(g.backpressure_order(), vec![b, a, c]);
}

fn sensors(now_ns: u64, temp: f32, trend: f32) -> Telemetry {
    Telemetry {
        now_ns,
        temp: temp.to_bits(),
        temp_trend: trend.to_bits(),
        freq_khz: 4_000_000,
        energy_uj: 0,
    }
}

#[test]
fn cycles_move_the_budget() {
    let mut g = ResourceGovernor::new(0, 6, 0);
    assert_eq!(g.begin_cycle(&sensors(499_999_999, 50.0, 0.0), 65_000_000), None);
    assert_eq!(g.begin_cycle(&sensors(500_000_000, 50.0, 0.0), 65_000_000), Some(12));
    assert_eq!(g.total_budget, 16);
    g.finish_cycle(0, 500_000_000);
    assert_eq!(
        g.flags,
        Flags { prefill_chunk_size: 8192, cpu_threads: 1, gpu_model_threshold: 1_500_000_000 }
    );
    assert_eq!(g.begin_cycle(&sensors(1_000_000_000, 86.0, 0.0), 65_000_000), Some(6));
    g.finish_cycle(5, 1_000_000_000);
    assert_eq!(
        g.flags,
        Flags { prefill_chunk_size: 512, cpu_threads: 1, gpu_model_threshold: u64::MAX }
    );
    assert_eq!(g.begin_cycle(&sensors(1_500_000_000, 76.0, 0.0), 65_000_000), Some(3));
    assert_eq!(g.total_budget, 4);
    g.finish_cycle(3, 1_500_000_000);
    assert_eq!(
        g.flags,
        Flags { prefill_chunk_size: 2048, cpu_threads: 3, gpu_model_threshold: 3_000_000_000 }
    );
}

#[test]
fn stale_sessions_are_dropped() {
    let mut g = ResourceGovernor::new(0, 6, 0);
    g.registry.register("m", 0, MemoryTier::Vram);
    let a = g.register_session("m", 0, telemetry(1.0, 1, 0), 0, 0).unwrap();
    let b = g.register_session("m", 0, telemetry(1.0, 1, 0), 0, 1).unwrap();
    assert_eq!(g.registry.get("m").unwrap().active_count, 2);
    g.finish_cycle(1, 30_000_000_001);
    assert!(g.find_session(a).is_none());
    assert!(g.find_session(b).is_some());
    assert_eq!(g.registry.get("m").unwrap().active_count, 1);
}

#[test]
fn shares_of_the_pool_come_back() {
    let mut p = CognitiveWorkerPool::new(1);
    let t = p.try_acquire().unwrap();
    assert!(p.try_acquire().is_none());
    p.release(t);
    assert!(p.try_acquire().is_some());
}

#[test]
fn registry_counts_users() {
    assert_eq!(vram_estimate(5), 5 + 512 * 1024 * 1024);
    let mut r = ModelRegistry::new();
    r.register("b", 20, MemoryTier::Vram);
    r.register("a", 10, MemoryTier::Vram);
    r.register("c", 5, MemoryTier::Ram);
    assert!(!r.acquire("nobody"));
    assert_eq!(r.swap_candidates(), vec![1, 0]);
    let leaving = r.swap_candidates()[0];
    assert_eq!(r.entry_at(leaving).map(|e| e.active_count), Some(0));
    assert!(r.entry_at(usize::MAX).is_none());
    assert!(r.acquire("a"));
    assert!(r.is_active("a") && !r.is_active("b"));
    assert_eq!(r.swap_candidates(), vec![0]);
    assert_eq!(r.total_vram_active(), 10 + BUFFER_BYTES);
    assert_eq!(r.vram_active_but("a"), 0);
    r.release("a");
    r.release("a");
    assert_eq!(r.get("a").unwrap().active_count, 0);
    r.register("a", 99, MemoryTier::CpuOnly);
    assert_eq!(r.get("a").unwrap().tier, MemoryTier::CpuOnly);
    assert!(r.get("nobody").is_none());
}

#[test]
fn idle_models_leave_first() {
    let mut r = ModelRegistry::new();
    r.register("hot", 0, MemoryTier::Vram);
    r.register("used", 0, MemoryTier::Vram);
    r.register("idle", 0, MemoryTier::Vram);
    r.register("new", 0, MemoryTier::Ram);
    r.acquire("used");
    let mut s = ModelSwapper::new(BUFFER_BYTES * 3 / 2);
    for name in ["used", "idle", "hot", "new", "used"] {
        s.touch(name);
    }
    s.touch("hot");
    assert!(matches!(s.check_swap("hot", r.get("hot").unwrap(), &r), SwapAction::AlreadyHot));
    match s.check_swap("new", r.get("new").unwrap(), &r) {
        SwapAction::SwapIn { evict } => assert_eq!(evict, Some("idle".to_string())),
        SwapAction::AlreadyHot => panic!("not on the device"),
    }
    let mut roomy = ModelSwapper::new(BUFFER_BYTES * 2);
    roomy.touch("idle");
    assert_eq!(roomy.vram_capacity(), BUFFER_BYTES * 2);
    match roomy.check_swap("new", r.get("new").unwrap(), &r) {
        SwapAction::SwapIn { evict } => assert_eq!(evict, None),
        SwapAction::AlreadyHot => panic!("not on the device"),
    }
}

#[test]
fn old_swaps_are_forgotten() {
    let mut s = ModelSwapper::new(0);
    for i in 0..40 {
        s.log_swap(SwapEvent {
            model_out: "a".to_string(),
            model_in: "b".to_string(),
            duration_ms: i,
        });
    }
    assert_eq!(s.swap_count(), 32);
    assert_eq!(s.swap_durations(), (8..40).collect::<Vec<u64>>());
}

#[test]
fn heat_is_told_from_the_sensors() {
    let mut t = ThermalLSC::with_defaults(0);
    assert_eq!(t.state, ThermalState::Normal);
    t.update(&sensors(1, 75.0, 0.5));
    assert_eq!(t.state, ThermalState::Warning);
    assert!(!t.predictive_throttle(65_000_000));
    t.update(&sensors(2, 75.0, 1.5));
    assert!(t.predictive_throttle(65_000_000));
    t.update(&sensors(3, 85.0, -1.0));
    assert_eq!(t.state, ThermalState::Critical);
    assert!(t.predictive_throttle(65_000_000));
    assert_eq!(t.update_temperature(20.0f32.to_bits()), ThermalState::Critical);
    t.update(&sensors(4, 74.9, -1.0));
    assert!(!t.predictive_throttle(0));
}

#[test]
fn power_is_energy_over_time() {
    let mut t = ThermalLSC::with_defaults(0);
    let at = |now_ns: u64, energy_uj: u64| Telemetry {
        energy_uj,
        ..sensors(now_ns, 50.0, 0.1)
    };
    t.update(&at(0, 1_000));
    assert_eq!(t.power_draw_uw(), 0);
    t.update(&at(500_000_000, 30_001_000));
    assert_eq!(t.power_draw_uw(), 60_000_000);
    assert!(t.predictive_throttle(65_000_000));
    assert!(!t.predictive_throttle(70_000_000));
    t.update(&at(500_000_001, 90_000_000));
    assert_eq!(t.power_draw_uw(), 200_000_000);
}

#[test]
fn falling_clocks_mean_throttling() {
    let mut t = ThermalLSC::with_defaults(0);
    assert_eq!(t.throttle_factor(1), 10);
    assert!(!t.is_throttling(50_000_000, 1000));
    assert!(t.is_throttling(100_000_000, 699));
    assert!(t.is_throttling(0, 1000));
    assert!(!t.is_throttling(100_000_000, 700));
    assert_eq!(t.throttle_factor(599), 3);
    assert_eq!(t.throttle_factor(600), 7);
    assert_eq!(t.throttle_factor(859), 7);
    assert_eq!(t.throttle_factor(860), 10);
}

fn reading(power: f64, temp: f64, trend: f64) -> PowerReading {
    PowerReading {
        power_w: power.to_bits(),
        near_limit_w: 60.0f64.to_bits(),
        low_power_w: 30.0f64.to_bits(),
        temp_c: temp.to_bits(),
        temp_trend: trend.to_bits(),
    }
}

#[test]
fn power_shifts_with_load_and_heat() {
    let mut a = PowerArbiter::new(0);
    assert!(!a.due(499_999_999));
    assert_eq!(a.reassess(1, &reading(61.0, 50.0, 1.0)), PowerShift::Keep);
    let mut now = 0;
    let mut shift = |r: PowerReading| {
        now += 500_000_000;
        a.reassess(now, &r)
    };
    assert_eq!(shift(reading(61.0, 50.0, 0.6)), PowerShift::TowardsGraphics { by: 10, floor: 20 });
    assert_eq!(shift(reading(61.0, 81.0, 0.4)), PowerShift::TowardsGraphics { by: 5, floor: 30 });
    assert_eq!(shift(reading(29.0, 69.0, 0.4)), PowerShift::TowardsProcessor { by: 5, ceiling: 85 });
    assert_eq!(shift(reading(40.0, 50.0, 9.0)), PowerShift::Keep);
}

fn upper(stage: &Stage, input: String, _model: &u32) -> Result<StageOutput, String> {
    if input.len() > 30 {
        return Err(stage.name.clone());
    }
    Ok(StageOutput { text: format!("{}+{}", input, stage.name), tokens: 3, elapsed_ns: 4 })
}

fn two_stages() -> PipelineConfig {
    let mut config = PipelineConfig::default_7model();
    config.stages.truncate(2);
    config
}

#[test]
fn seven_stages_are_set_up() {
    let config = PipelineConfig::default_7model();
    assert_eq!(config.stages.len(), 7);
    assert_eq!(config.stages[6].name, "report");
    assert_eq!(config.stages[6].model_name, "glm-air");
    assert_eq!(f32::from_bits(config.stages[6].temperature), 0.4);
    assert_eq!(config.stages[6].max_tokens, 512);
}

#[test]
fn stages_hand_their_text_on() {
    let config = two_stages();
    let (first, second) = (config.stages[0].name.clone(), config.stages[1].name.clone());
    let p = PipelineExecutor::new(config);
    let r = p.execute("in", |_: &Stage| Some(7u32), upper).unwrap();
    assert_eq!(r.len(), 2);
    assert_eq!(r[0].stage_name, first);
    assert!(matches!(&r[1].output, StageIO::Text(t) if *t == format!("in+{}+{}", first, second)));
    assert_eq!((r[1].tokens_generated, r[1].elapsed_ns), (3, 4));
    let missing = p.execute("in", |_: &Stage| None::<u32>, upper);
    assert!(matches!(missing, Err(PipelineError::ModelNotFound(_))));
    let long = "x".repeat(31);
    let failed = p.execute(&long, |_: &Stage| Some(7u32), upper);
    assert!(matches!(failed, Err(PipelineError::Stage(name)) if name == first));
}

#[test]
fn board_agrees_with_a_run() {
    let config = two_stages();
    assert!(PipelineBoard::new(&config, 0).is_none());
    let mut board = PipelineBoard::new(&config, 2).unwrap();
    let mut input = "in".to_string();
    let mut at = 0;
    loop {
        let out = upper(&config.stages[at], input, &7).unwrap();
        match board.record(at, 1, Some(out)) {
            Some(h) => {
                assert_eq!((h.stage, h.request), (at + 1, 1));
                at = h.stage;
                input = h.input;
            }
            None => break,
        }
    }
    assert!(board.record(0, 0, None).is_none());
    let results = board.finish();
    assert!(results[0].is_none());
    let done = results[1].as_ref().unwrap();
    let run = PipelineExecutor::new(two_stages()).execute("in", |_: &Stage| Some(7u32), upper);
    let run = run.unwrap();
    assert_eq!(done.len(), run.len());
    for (a, b) in done.iter().zip(&run) {
        assert_eq!(a.stage_name, b.stage_name);
        assert!(matches!((&a.output, &b.output), (StageIO::Text(x), StageIO::Text(y)) if x == y));
    }
}

fn step(session_id: u64, model_id: u32, workload_class: WorkloadClass) -> ModelStepOpcode {
    ModelStepOpcode {
        session_id,
        generation: 0,
        model_id,
        step_type: StepType::DecodeToken,
        workload_class,
        token_id: 0,
        pos: 0,
    }
}

#[test]
fn steps_go_where_their_model_runs() {
    let mut g = ResourceGovernor::new(0, 6, 0);
    let id = g.register_session("m", 0, telemetry(1.0, 1, 0), 0, 0).unwrap();
    let dialogue = WorkloadClass::Interactive { avg_gap_ms: 0 };
    let mut vm = SwampVm::new();
    vm.register_model("large", 3_000_000_000, MemoryTier::Vram);
    vm.register_model("small", 2_999_999_999, MemoryTier::Vram);
    vm.set_device_state(1, true);
    vm.enqueue(step(id + 1, 0, dialogue)).unwrap();
    vm.enqueue(step(id, 9, dialogue)).unwrap();
    vm.enqueue(step(id, 0, dialogue)).unwrap();
    vm.enqueue(step(id, 1, dialogue)).unwrap();
    vm.enqueue(step(id, 1, WorkloadClass::Cognitive)).unwrap();
    let mut take = |vm: &mut SwampVm| {
        let op = vm.next_op().unwrap();
        vm.dispatch(&op, &g)
    };
    assert!(matches!(take(&mut vm), Route::Stale));
    assert!(matches!(take(&mut vm), Route::UnknownModel));
    assert!(matches!(take(&mut vm), Route::Host));
    assert!(matches!(take(&mut vm), Route::Host));
    assert!(matches!(take(&mut vm), Route::Cognitive(Some(_))));
    assert!(vm.next_op().is_none());
    vm.set_device_state(0, true);
    assert!(matches!(vm.dispatch(&step(id, 0, dialogue), &g), Route::Device));
    let s = vm.stats();
    assert_eq!((s.total_ops, s.gpu_ops, s.cpu_ops), (6, 1, 2));
    assert_eq!((s.cognitive_ops, s.stale_dropped), (1, 1));
    vm.reset_stats();
    assert_eq!(vm.stats().total_ops, 0);
}

#[test]
fn device_walks_need_a_device() {
    let mut vm = SwampVm::new();
    vm.register_model("m", 0, MemoryTier::Vram);
    let works = |vm: &SwampVm| {
        let mut walk = vm.execute_gpu(0, vec![vec![0]], 1);
        let mut seen = Vec::new();
        while walk.work() != Work::Finished {
            seen.push(walk.work());
            walk.advance(true);
        }
        seen
    };
    assert!(!works(&vm).contains(&Work::DeviceQkv));
    vm.set_device_state(0, true);
    assert!(works(&vm).contains(&Work::DeviceQkv));
    assert_eq!(SwampVm::execute_cpu(vec![vec![0]], 1).work(), Work::AttentionNorm);
}

#[test]
fn session_buffers_have_the_shape_of_the_model() {
    let shape = SessionShape {
        embed_dim: 8,
        num_heads: 4,
        num_kv_heads: 2,
        head_dim: 2,
        ffn_dim: 16,
        num_layers: 1,
        vocab_size: 32,
        context_len: 10,
    };
    let c = SessionContext::new(shape, None, None);
    assert_eq!((c.x.len(), c.q.len(), c.k.len(), c.ffn_up.len()), (8, 8, 4, 16));
    assert_eq!((c.logits.len(), c.max_seq_len), (32, 2048));
    assert_eq!(embedding_range(2, 8, 24), Some((16, 24)));
    assert_eq!(embedding_range(3, 8, 24), None);
    assert_eq!(embedding_range(usize::MAX, 8, 24), None);
}

#[test]
fn pages_get_hot_in_order() {
    let mut cache = swamp::cache::PagedKVCache::new(1, 1, 64, 2);
    let mut r = HotRange::ensure_pages_hot(0, 1);
    assert!(matches!(r.step(&mut cache, false), Some(swamp::cache::PageAction::Ready)));
    assert_eq!(r.next, 1);
    assert!(matches!(r.step(&mut cache, false), Some(swamp::cache::PageAction::Ready)));
    assert!(r.step(&mut cache, false).is_none());
}

#[test]
fn groups_share_the_rows() {
    let mut p = VirtualExpertPrefetcher::new(3, 10);
    assert_eq!([0, 1, 2].map(|e| p.row_range(e)), [(0, 3), (3, 6), (6, 10)]);
    assert_eq!(p.hash_to_expert(8), 2);
    assert_eq!(p.accuracy(), None);
    assert_eq!(p.predict_expert(5), (6, 10));
    assert_eq!(p.predict_expert(2), (6, 10));
    assert_eq!(p.predict_expert(0), (0, 3));
    assert_eq!(p.accuracy(), Some((1, 2)));
}

#[test]
fn requests_are_taken_or_turned_away() {
    assert_eq!(check_admission(true, 0), Admission::Unavailable);
    assert_eq!(check_admission(false, 21), Admission::QueueFull);
    assert_eq!(check_admission(false, 20), Admission::Accepted);
    assert_eq!(channel_capacity(256), 257);
    assert_eq!(default_top_k(), 40);
    assert_eq!(f32::from_bits(default_temperature()), 0.7);
    assert_eq!(f32::from_bits(default_top_p()), 0.95);
    assert_eq!(default_max_tokens(), 100);
    assert_eq!(default_user_tier(), "FREE");
    assert_eq!(default_workload_type(), "CHAT");
}

#[test]
fn events_stay_on_one_line() {
    assert_eq!(event_data(b"a\r\nb\\\n"), b"a\\nb\\\\n");
    assert_eq!(event_data("\u{e9}\r".as_bytes()), "\u{e9}".as_bytes());
    assert!(event_data(b"").is_empty());
}

fn tensor(name: &str, n_elems: usize, dtype: &str, n_bytes: usize) -> TensorEntry {
    TensorEntry {
        name: name.as_bytes().to_vec(),
        n_elems,
        dtype: dtype.as_bytes().to_vec(),
        n_bytes,
    }
}

#[test]
fn tensors_are_listed_and_tallied() {
    let tensors = vec![
        tensor("norm", 20000, "F32", 10),
        tensor("q.weight", 10000, "Q4_K", 20),
        tensor("k.weight", 10001, "F32", 30),
    ];
    assert_eq!(select_tensors(&tensors, None), vec![0, 1, 2]);
    assert_eq!(select_tensors(&tensors, Some(b"weight")), vec![1, 2]);
    assert_eq!(pick_tensor(&tensors, b"weight"), 2);
    assert_eq!(pick_tensor(&tensors, b"bias"), 0);
    let tally = |tensors: &Vec<TensorEntry>| -> Vec<(Vec<u8>, usize, usize)> {
        tally_types(tensors).into_iter().map(|t| (t.dtype, t.count, t.bytes)).collect()
    };
    assert_eq!(tally(&tensors), vec![(b"F32".to_vec(), 2, 40), (b"Q4_K".to_vec(), 1, 20)]);
    let more = vec![
        tensor("a", 1, "F16", 5),
        tensor("b", 1, "Q6_K", 7),
        tensor("c", 1, "F32", 9),
        tensor("d", 1, "F16", 3),
    ];
    assert_eq!(
        tally(&more),
        vec![(b"F32".to_vec(), 1, 9), (b"F16".to_vec(), 2, 8), (b"Q6_K".to_vec(), 1, 7)]
    );
    assert_eq!(total_bytes(&tensors), 60);
    assert_eq!(shown_count(5, 0), 5);
    assert_eq!(shown_count(5, 3), 3);
    assert_eq!(shown_count(2, 3), 2);
    assert_eq!(dummy_tokens(102)[98..], [99, 100, 1, 2]);
}
