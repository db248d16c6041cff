//! Rings, walks through layers, products and positions.

use swamp::cache::{PageAction, PagedKVCache};
use swamp::compute_graph::{ComputeGraph, GraphStep};
use swamp::executor::{
    choose_prompt, expert_range, host_attention, important_positions, initial_threads,
    prefill_batch, prefill_slice, prompt_tokens, BatchError, Generation, HostAttention, Phase,
    PrefillPosition, PromptChunk, RequestBoard,
};
use swamp::forward::{LayerWalk, WalkOptions, Work};
use swamp::fugu::{AttentionStrategy, FuguOrchestrator};
use swamp::linear::{
    calibrate_row_sensitivity, deq_q4k, find_row, flag_sensitive_rows, forward_gemvs,
    batch_job, forward_gemvs_ring, forward_linear, forward_linear_batch, forward_linear_multi,
    gather_rows, row_span, BatchJob, BatchPlan, GemvSpec, Kernel, LinearError, LinearJob, LinearShape, RowSpan,
    WeightTerm,
};
use swamp::model::{
    block_size_for_dtype, build_layer_ring, count_sharing, detect_weight_groups, pre_alloc_size,
    vocab_size_of, RingPart, RingView, WeightType,
};
use swamp::ops::{
    attention, attention_fugu, attention_sparse, gpu_attention_forward, kv_head, q4_block_offset,
    valid_end, PageRun, RopeTable, RopeTables,
};
use swamp::pattern_draft::MatchConfidence;
use swamp::policy::PolicyReply;
use swamp::qat::{pick_scales, write_scales, LayerRows, QatCalibrator, RingBlock, T_DOWN, T_Q};
use swamp::sampler::{fallback_token, keep_top_k, nucleus_cut, rank_tokens, Sampler};
use swamp::scheduler::{
    DeviceContext, KvUpload, LayerWeights, PerLayerGpuState, PipelineCounter, PipelineToken,
    ScratchBuffers, SingleProduct,
};

/// One as a bit pattern.
const ONE: u32 = 0x3f80_0000;

fn part(n_rows: usize, n_cols: usize, dtype: WeightType, data: Vec<u8>) -> RingPart {
    RingPart { n_rows, n_cols, dtype, data }
}

fn ring(seed: u8) -> RingView {
    let parts: Vec<RingPart> = (0..7u8)
        .map(|i| part(1 + i as usize, 256, WeightType::Q4K, vec![seed + i; 10 + i as usize]))
        .collect();
    build_layer_ring(&parts)
}

#[test]
fn ring_slices_read_back() {
    let r = ring(1);
    assert_eq!(r.ring.len() % 64, 0);
    assert_eq!(r.q_slice(), &[1; 10]);
    assert_eq!(r.k_slice(), &[2; 11]);
    assert_eq!(r.v_slice(), &[3; 12]);
    assert_eq!(r.o_slice(), &[4; 13]);
    assert_eq!(r.gate_slice(), &[5; 14]);
    assert_eq!(r.up_slice(), &[6; 15]);
    assert_eq!(&r.down_slice()[0..16], &[7; 16]);
    assert!(r.down_slice()[16..].iter().all(|b| *b == 0));
    assert_eq!(r.q_row_stride, 144);
    assert_eq!((r.gate_nr, r.gate_nc, r.gate_bs), (5, 256, 144));
}

#[test]
fn blocks_have_sizes_by_type() {
    assert_eq!(block_size_for_dtype(WeightType::Q4K), 144);
    assert_eq!(block_size_for_dtype(WeightType::Q6K), 210);
    assert_eq!(block_size_for_dtype(WeightType::Other), 144);
    assert_eq!(vocab_size_of(None), 32000);
    assert_eq!(vocab_size_of(Some(5)), 5);
    assert_eq!(pre_alloc_size(0), 512 * 1024 * 1024);
    assert_eq!(pre_alloc_size(1 << 30), (1 << 30) + 64 * 1024 * 1024);
}

#[test]
fn layers_with_equal_weights_share_a_group() {
    let rings = vec![ring(1), ring(1), ring(2), ring(3), ring(3), ring(3)];
    let groups = detect_weight_groups(&rings, 6);
    assert_eq!(groups, vec![vec![0, 1], vec![2], vec![3, 4, 5]]);
    assert_eq!(count_sharing(&groups), (5, 2));
    assert!(detect_weight_groups(&rings, 0).is_empty());
}

fn run_walk(mut walk: LayerWalk, outcome: &dyn Fn(Work) -> bool) -> Vec<Work> {
    let mut done = Vec::new();
    while walk.work() != Work::Finished {
        let w = walk.work();
        done.push(w);
        walk.advance(outcome(w));
    }
    done
}

/// Nothing but layers, with a device or without.
fn plain(device: bool) -> WalkOptions {
    WalkOptions { device, device_attention: device, managed: false }
}

#[test]
fn host_walk_does_everything_once() {
    let walk =
        LayerWalk::new(plain(false), vec![vec![0]], 1);
    assert_eq!(
        run_walk(walk, &|_| true),
        vec![
            Work::AttentionNorm,
            Work::HostQkv,
            Work::Rotate,
            Work::SaveKv,
            Work::HeatPages,
            Work::HostAttention,
            Work::HostOutput,
            Work::AddOutput,
            Work::FfnNorm,
            Work::HostGateUp,
            Work::Activate,
            Work::HostDown,
            Work::AddDown,
            Work::FinalNorm,
            Work::Logits,
        ]
    );
}

#[test]
fn host_stands_in_for_the_device() {
    let options = plain(true);
    let failing = run_walk(LayerWalk::new(options, vec![vec![0]], 1), &|_| false);
    for (device, host) in [
        (Work::DeviceQkv, Work::HostQkv),
        (Work::DeviceAttention, Work::HeatPages),
        (Work::HeatPages, Work::HostAttention),
        (Work::DeviceOutput, Work::HostOutput),
        (Work::DeviceGateUp, Work::HostGateUp),
        (Work::DeviceDown, Work::HostDown),
    ] {
        let at = failing.iter().position(|w| *w == device).unwrap();
        assert_eq!(failing[at + 1], host);
    }
    let working = run_walk(LayerWalk::new(options, vec![vec![0]], 1), &|_| true);
    assert!(!working.contains(&Work::HostQkv));
    assert!(!working.contains(&Work::HostDown));
    assert!(!working.contains(&Work::HeatPages));
    assert_eq!(failing.len(), working.len() + 6);
}

#[test]
fn walk_visits_layers_in_order_with_the_weights_of_their_group() {
    let groups = vec![vec![0, 1], vec![2]];
    let mut walk = LayerWalk::new(plain(false), groups, 3);
    let mut seen = Vec::new();
    while walk.work() != Work::FinalNorm {
        if walk.work() == Work::HostQkv {
            seen.push((walk.layer(), walk.weights()));
        }
        walk.advance(true);
    }
    assert_eq!(seen, vec![(0, 0), (1, 0), (2, 2)]);
}

#[test]
fn managed_walk_skips_fuses_and_prefetches() {
    let options = WalkOptions { managed: true, ..plain(false) };
    let skipped = run_walk(LayerWalk::new(options, vec![vec![0], vec![1]], 2), &|w| {
        w == Work::AskPolicy
    });
    assert_eq!(
        skipped,
        vec![Work::AskPolicy, Work::AskPolicy, Work::FinalNorm, Work::Logits]
    );
    let all = run_walk(LayerWalk::new(options, vec![vec![0], vec![1]], 2), &|_| false);
    assert_eq!(all.iter().filter(|w| **w == Work::PrefetchNext).count(), 1);

    let device = WalkOptions { managed: true, ..plain(true) };
    let fused = run_walk(LayerWalk::new(device, vec![vec![0, 1]], 2), &|w| {
        w == Work::FusedLayer
    });
    assert_eq!(
        fused,
        vec![
            Work::UploadHidden,
            Work::AskPolicy,
            Work::FusedLayer,
            Work::AskPolicy,
            Work::FusedLayer,
            Work::FetchFinal,
            Work::FinalNorm,
            Work::Logits,
        ]
    );
    let unfused = run_walk(LayerWalk::new(device, vec![vec![0, 1]], 2), &|_| false);
    assert_eq!(unfused.iter().filter(|w| **w == Work::FusedLayer).count(), 1);
    assert_eq!(unfused.iter().filter(|w| **w == Work::FetchHidden).count(), 2);
    assert!(!unfused.contains(&Work::FetchFinal));
    assert_eq!(unfused.iter().filter(|w| **w == Work::UploadHidden).count(), 1);
    assert_eq!(unfused[0], Work::UploadHidden);
    assert!(!LayerWalk::new(device, vec![vec![0]], 1).on_layer());
    assert_eq!(
        run_walk(LayerWalk::new(device, vec![], 0), &|_| true),
        vec![Work::UploadHidden, Work::FetchFinal, Work::FinalNorm, Work::Logits]
    );
}

#[test]
fn rows_are_shared_out_once() {
    for (rows, threads) in [(10, 4), (5, 4), (1, 6), (0, 3), (4096, 6)] {
        let mut done = vec![0; rows];
        for t in 0..threads {
            if let Some(RowSpan { start, end }) = row_span(rows, threads, t) {
                for r in start..end {
                    done[r] += 1;
                }
            }
        }
        assert!(done.iter().all(|n| *n == 1));
    }
    assert_eq!(row_span(10, 4, 3), Some(RowSpan { start: 9, end: 10 }));
    assert_eq!(row_span(5, 4, 3), None);
}

#[test]
fn products_need_room() {
    let shape = LinearShape { n_rows: 4, n_cols: 256, dtype: WeightType::Q4K };
    assert_eq!(
        forward_linear(&shape, 255, 4, None, 2).unwrap_err(),
        LinearError::ShapeMismatch
    );
    assert_eq!(
        forward_linear(&shape, 256, 3, None, 2).unwrap_err(),
        LinearError::ShapeMismatch
    );
    let jobs = forward_linear(&shape, 256, 4, None, 2).unwrap();
    assert_eq!(
        jobs[1],
        vec![LinearJob::Packed {
            kernel: Kernel::Q4K,
            first_row: 2,
            rows: 2,
            raw_offset: 288,
            raw_len: 288,
        }]
    );
}

#[test]
fn precise_rows_are_done_by_themselves() {
    let shape = LinearShape { n_rows: 4, n_cols: 256, dtype: WeightType::Q4K };
    let jobs = forward_linear(&shape, 256, 4, Some(&vec![1, 3]), 1).unwrap();
    assert_eq!(
        jobs[0],
        vec![
            LinearJob::Packed {
                kernel: Kernel::Q4K,
                first_row: 0,
                rows: 1,
                raw_offset: 0,
                raw_len: 144
            },
            LinearJob::Precise { row: 1, weights_offset: 0 },
            LinearJob::Packed {
                kernel: Kernel::Q4K,
                first_row: 2,
                rows: 1,
                raw_offset: 288,
                raw_len: 144
            },
            LinearJob::Precise { row: 3, weights_offset: 256 },
        ]
    );
    assert_eq!(find_row(&vec![1, 3, 9], 3), Some(1));
    assert_eq!(find_row(&vec![1, 3, 9], 4), None);
}

#[test]
fn other_types_have_their_own_jobs() {
    let six = LinearShape { n_rows: 2, n_cols: 512, dtype: WeightType::Q6K };
    let plain = LinearShape { n_rows: 3, n_cols: 10, dtype: WeightType::Other };
    let jobs = forward_linear_multi(&vec![six, plain], 1);
    assert_eq!(
        jobs[0][0],
        vec![LinearJob::Packed {
            kernel: Kernel::Q6K,
            first_row: 0,
            rows: 2,
            raw_offset: 0,
            raw_len: 2 * 420
        }]
    );
    assert_eq!(
        jobs[1][0],
        vec![LinearJob::Unpacked { first_row: 0, rows: 3, weights_offset: 0 }]
    );
}

#[test]
fn batches_need_as_many_outputs() {
    assert_eq!(forward_linear_batch(WeightType::Q4K, 0, 5), Ok(BatchPlan::Nothing));
    assert_eq!(
        forward_linear_batch(WeightType::Q4K, 2, 3),
        Err(LinearError::BatchMismatch { inputs: 2, outputs: 3 })
    );
    assert_eq!(forward_linear_batch(WeightType::Q4K, 3, 3), Ok(BatchPlan::ByRows));
    assert_eq!(
        forward_linear_batch(WeightType::Q6K, 3, 3),
        Ok(BatchPlan::ByInputs(Kernel::Q6K))
    );
    assert_eq!(
        forward_linear_batch(WeightType::Other, 3, 3),
        Ok(BatchPlan::ByInputs(Kernel::Q4K))
    );
}

#[test]
fn threads_share_rows_or_inputs_of_a_batch() {
    let shape = LinearShape { n_rows: 10, n_cols: 512, dtype: WeightType::Q4K };
    let jobs = |plan: BatchPlan| -> Vec<Option<BatchJob>> {
        (0..4).map(|t| batch_job(&plan, &shape, 5, 4, t)).collect()
    };
    assert_eq!(jobs(BatchPlan::Nothing), vec![None; 4]);
    assert_eq!(
        jobs(BatchPlan::ByRows)[1],
        Some(BatchJob::Rows { first_row: 3, rows: 3, raw_offset: 864, raw_len: 864 })
    );
    assert_eq!(
        jobs(BatchPlan::ByRows)[3],
        Some(BatchJob::Rows { first_row: 9, rows: 1, raw_offset: 2592, raw_len: 288 })
    );
    let kernel = Kernel::Q6K;
    assert_eq!(
        jobs(BatchPlan::ByInputs(kernel)),
        vec![
            Some(BatchJob::Inputs { kernel, first: 0, count: 2 }),
            Some(BatchJob::Inputs { kernel, first: 2, count: 2 }),
            Some(BatchJob::Inputs { kernel, first: 4, count: 1 }),
            None,
        ]
    );
}

#[test]
fn products_at_once_cover_all_rows() {
    let specs = vec![
        GemvSpec { n_rows: 10, n_cols: 256, block_size: 144 },
        GemvSpec { n_rows: 3, n_cols: 512, block_size: 210 },
    ];
    let mut done = vec![vec![0; 10], vec![0; 3]];
    for t in 0..4 {
        for job in forward_gemvs_ring(&specs, 4, t) {
            let row_bytes = specs[job.matrix].n_cols / 256 * specs[job.matrix].block_size;
            assert_eq!(job.raw_offset, job.first_row * row_bytes);
            assert_eq!(job.raw_len, job.rows * row_bytes);
            for r in job.first_row..job.first_row + job.rows {
                done[job.matrix][r] += 1;
            }
        }
    }
    assert!(done.iter().flatten().all(|n| *n == 1));
    let shapes = vec![LinearShape { n_rows: 2, n_cols: 256, dtype: WeightType::Other }];
    assert_eq!(forward_gemvs(&shapes, 1, 0)[0].kernel, Kernel::Q6K);
}

#[test]
fn rows_with_large_errors_keep_their_weights() {
    let errors: Vec<u32> = [0.01f32, 0.2, 0.05, f32::NAN, 0.06].iter().map(|x| x.to_bits()).collect();
    let limit = 0.05f32.to_bits();
    assert_eq!(flag_sensitive_rows(&errors, limit), vec![1, 4]);
    let weights: Vec<u32> = (0..15).collect();
    assert_eq!(gather_rows(&weights, &vec![1, 4], 3), vec![3, 4, 5, 12, 13, 14]);
    let (rows, kept) = calibrate_row_sensitivity(&errors, limit, &weights, 3).unwrap();
    assert_eq!(rows, vec![1, 4]);
    assert_eq!(kept[3..6], weights[12..15]);
    assert!(calibrate_row_sensitivity(&vec![0], limit, &weights, 3).is_none());
}

#[test]
fn blocks_are_taken_apart() {
    let mut blk = [0u8; 144];
    blk[0..2].copy_from_slice(&half::f16::from_f32(0.5).to_le_bytes());
    blk[2..4].copy_from_slice(&half::f16::from_f32(-2.25).to_le_bytes());
    blk[4] = 0b1100_0101;
    blk[8] = 0b0100_0110;
    blk[16] = 0x9a;
    let b = deq_q4k(&blk);
    assert_eq!(f32::from_bits(b.d), 0.5);
    assert_eq!(f32::from_bits(b.dmin), -2.25);
    assert_eq!(b.terms.len(), 256);
    assert_eq!(b.terms[0], WeightTerm { scale: 5, min: 6, code: 0xa });
    assert_eq!(b.terms[1], WeightTerm { scale: 5, min: 6, code: 0x9 });
    assert_eq!(b.terms[4 * 32].scale, 0b0110 | (blk[0] >> 6) << 4);
    assert_eq!(b.terms[4 * 32].min, 0b0100 | (blk[4] >> 6) << 4);
}

#[test]
fn sparse_attention_looks_at_the_window_and_before() {
    assert_eq!(valid_end(5, 3), 2);
    assert_eq!(valid_end(1, 3), 1);
    assert_eq!(attention_sparse(3, 4, 10, 64), vec![0, 1, 2, 3]);
    let p = attention_sparse(1000, 1001, 4, 300);
    assert_eq!(p, vec![0, 300, 600, 997, 998, 999, 1000]);
    let q = attention_fugu(1000, 1001, 4, 300, &vec![300, 42, 999, 1001, 42]);
    assert_eq!(q, vec![0, 300, 600, 997, 998, 999, 1000, 42]);
    let far = attention_sparse(1_000_000, 1_000_001, 1, 2);
    assert_eq!(far.len(), 128 + 1);
}

#[test]
fn full_attention_reads_page_by_page() {
    assert_eq!(attention(9, 5), vec![PageRun { page: 0, start: 0, end: 4 }]);
    let runs = attention(4300, 4301);
    assert_eq!(runs[0], PageRun { page: 0, start: 0, end: 31 });
    assert_eq!(runs[127], PageRun { page: 127, start: 4064, end: 4095 });
    assert_eq!(runs[128], PageRun { page: 128, start: 4096, end: 4223 });
    assert_eq!(runs[129], PageRun { page: 129, start: 4224, end: 4300 });
    assert_eq!(runs.len(), 130);
}

#[test]
fn query_heads_share_kv_heads() {
    let heads: Vec<usize> = (0..8).map(|h| kv_head(h, 8, 2)).collect();
    assert_eq!(heads, vec![0, 0, 0, 0, 1, 1, 1, 1]);
    assert_eq!(q4_block_offset(3, 2, 1), 140);
}

#[test]
fn rotations_are_looked_up_by_head_size() {
    let mut t = RopeTables::new();
    assert!(t.is_missing(4));
    assert!(t.rotations(4, 0, 2).is_none());
    t.init_rope_lut(RopeTable { head_dim: 4, cos_sin: vec![(1, 2), (3, 4), (5, 6), (7, 8)] });
    t.init_rope_lut(RopeTable { head_dim: 4, cos_sin: vec![] });
    assert_eq!(t.rotations(4, 0, 2), Some(&[(1, 2), (3, 4)][..]));
    assert_eq!(t.rotations(4, 1, 2), Some(&[(5, 6), (7, 8)][..]));
    assert_eq!(t.rotations(4, 99, 2), Some(&[(5, 6), (7, 8)][..]));
    assert_eq!(t.rotations(4, 1, 4096), Some(&[(5, 6), (7, 8)][..]));
}

#[test]
fn keys_and_values_are_gathered_for_the_device() {
    let mut cache = PagedKVCache::new(1, 2, 64, 2);
    assert!(matches!(cache.ensure_page(0, false), PageAction::Ready));
    let (k, _) = cache.q4_terms(0);
    let n = k.len();
    cache.ensure_f32_page(0, (0..n as u32).collect(), (0..n as u32).map(|x| x + 1000).collect());
    let (k, v) = gpu_attention_forward(&cache, 0, 2, 3);
    assert_eq!(k, vec![0, 1, 2, 3, 4, 5, 64, 65, 66, 67, 68, 69]);
    assert_eq!(v[6], 1064);
}

#[test]
fn prompts_are_processed_in_chunks() {
    assert_eq!(prefill_batch(0), vec![]);
    assert_eq!(prefill_batch(4096), vec![PromptChunk { start: 0, end: 4096 }]);
    assert_eq!(
        prefill_batch(5000),
        vec![PromptChunk { start: 0, end: 4096 }, PromptChunk { start: 4096, end: 5000 }]
    );
    let plan = prefill_slice(&PromptChunk { start: 4096, end: 4098 }, 3, false);
    assert_eq!(
        plan.positions,
        vec![
            PrefillPosition { pos: 4096, seq_len: 4097 },
            PrefillPosition { pos: 4097, seq_len: 4098 },
        ]
    );
    assert_eq!(plan.walk.work(), Work::AttentionNorm);
    assert_eq!(plan.walk.weights(), 0);
    assert!(!run_walk(plan.walk, &|_| true).contains(&Work::DeviceAttention));

    let on_device = || prefill_slice(&PromptChunk { start: 0, end: 2 }, 1, true).walk;
    let attention = |done: Vec<Work>| {
        let from = done.iter().position(|w| *w == Work::SaveKv).unwrap();
        let to = done.iter().position(|w| *w == Work::HostOutput).unwrap();
        done[from + 1..to].to_vec()
    };
    assert_eq!(attention(run_walk(on_device(), &|_| true)), vec![Work::DeviceAttention]);
    assert_eq!(
        attention(run_walk(on_device(), &|_| false)),
        vec![Work::DeviceAttention, Work::HeatPages, Work::HostAttention]
    );
    assert!(run_walk(on_device(), &|_| true).contains(&Work::HostQkv));
}

#[test]
fn messages_come_before_the_plain_prompt() {
    let s = |x: &str| Some(x.to_string());
    assert_eq!(choose_prompt(s("chat"), s("plain")), "chat");
    assert_eq!(choose_prompt(None, s("plain")), "plain");
    assert_eq!(choose_prompt(None, None), "");
    let letters = |s: &str| s.bytes().map(|b| b as usize).collect::<Vec<usize>>();
    assert_eq!(prompt_tokens("", letters), vec![1]);
    assert_eq!(prompt_tokens("ab", letters), vec![97, 98]);
}

#[test]
fn heat_takes_threads_away() {
    let t = |temp: f64, coherence: f64| initial_threads(temp.to_bits(), coherence.to_bits());
    assert_eq!(t(86.0, 1.0), 1);
    assert_eq!(t(60.0, 0.9), 6);
    assert_eq!(t(60.0, 0.8), 4);
    assert_eq!(t(79.0, 0.5), 2);
    assert_eq!(t(60.0, 0.5), 6);
}

fn generation(prompt: Vec<usize>, max_tokens: usize, first: Option<usize>) -> Generation {
    Generation::new(
        prompt,
        max_tokens,
        first,
        99,
        FuguOrchestrator::new(2, 4, 2, 8),
        50.0f64.to_bits(),
        1.0f64.to_bits(),
        0,
    )
}

#[test]
fn request_generates_as_many_tokens_as_asked() {
    let mut g = generation(vec![7, 8, 9], 3, Some(100));
    assert_eq!(g.tokens_generated, 1);
    let mut fed = Vec::new();
    while let Some(plan) = g.begin_step() {
        fed.push((plan.step, plan.token));
        let note = g.choose_token(101 + plan.step, None);
        assert!(!note.draft_hit);
        g.deliver(true);
        g.end_step();
    }
    assert_eq!(fed, vec![(3, 100), (4, 104)]);
    assert_eq!(g.tokens_generated, 3);
    assert_eq!(g.tokens, vec![7, 8, 9, 100, 104, 105]);

    let mut one = generation(vec![1], 2, None);
    let plan = one.begin_step().unwrap();
    assert_eq!((plan.step, plan.token), (0, 1));
    assert!(plan.reload_policy && !plan.read_sensors);
}

#[test]
fn request_ends_when_nobody_listens() {
    let mut g = generation(vec![1], 5, None);
    g.begin_step().unwrap();
    g.choose_token(2, None);
    g.deliver(false);
    assert_eq!(g.phase, Phase::Closed);
    assert!(g.begin_step().is_none());
    assert_eq!(g.tokens_generated, 0);
}

#[test]
fn tokens_are_noted() {
    let mut g = generation(vec![1], 5, None);
    g.begin_step().unwrap();
    let note = g.choose_token(2, Some((2, MatchConfidence::Exact)));
    assert!(note.draft_hit && note.save_draft && note.prefetch_weights);
    g.deliver(true);
    g.end_step();
    g.begin_step().unwrap();
    let note = g.choose_token(3, Some((3, MatchConfidence::Near)));
    assert!(!note.draft_hit && !note.save_draft);
}

#[test]
fn predicted_pages_are_sorted_and_few() {
    let mut g = generation(vec![1], 5, None);
    g.plan_pages(&vec![9, 3, 9, 1]);
    g.plan_pages(&vec![2, 3]);
    assert_eq!(g.predicted_pages, vec![1, 2, 3, 9]);
    g.plan_pages(&(0..200).rev().collect());
    assert_eq!(g.predicted_pages, (0..64).collect::<Vec<usize>>());
    let plan = g.begin_step().unwrap();
    assert_eq!(plan.heat.len(), 64);
    assert!(g.predicted_pages.is_empty());
}

#[test]
fn sensors_move_budget_and_threads() {
    let mut g = generation(vec![1], 50, None);
    assert_eq!(g.take_sensors(50.0f64.to_bits(), 1.0f64.to_bits(), 500_000_000), 12);
    assert_eq!(g.aimd.budget(), 16);
    assert_eq!(g.take_sensors(81.0f64.to_bits(), 1.0f64.to_bits(), 1_000_000_000), 2);
    assert_eq!(g.aimd.budget(), 8);
    assert_eq!(g.take_sensors(50.0f64.to_bits(), 0.8f64.to_bits(), 1_500_000_000), 1);
    g.set_threads(0);
    assert_eq!(g.n_threads, 1);
    g.take_policy(PolicyReply::Value(4));
    assert_eq!(g.n_threads, 4);
    g.take_policy(PolicyReply::Missing);
    assert_eq!(g.n_threads, 4);
    g.take_policy(PolicyReply::Value(99));
    assert_eq!(g.n_threads, 6);
    assert_eq!(g.plan_attention(100, 0.5f64.to_bits()), AttentionStrategy::Full);
    assert!(matches!(
        g.plan_attention(300, 0.5f64.to_bits()),
        AttentionStrategy::Sparse { window: 128, .. }
    ));
}

#[test]
fn attention_on_the_host_follows_the_strategy() {
    assert_eq!(host_attention(&AttentionStrategy::Full), HostAttention::Weighed);
    assert_eq!(
        host_attention(&AttentionStrategy::Sparse { window: 8, num_random: 1 }),
        HostAttention::Sparse { window: 8, stride: 64 }
    );
    assert_eq!(
        host_attention(&AttentionStrategy::SparseWithDSPark {
            window: 8,
            sentinel_stride: 5,
            num_dspark: 1
        }),
        HostAttention::Candidates { window: 8, stride: 5 }
    );
    let weights: Vec<u64> =
        [0.5f64, 0.001, 0.0011, f64::NAN].iter().map(|w| w.to_bits()).collect();
    assert_eq!(important_positions(&weights), vec![0, 2]);
}

#[test]
fn weight_groups_lie_in_their_matrix() {
    assert_eq!(expert_range(1000, 800, 8, 2, 4), Some((1200, 200)));
    assert_eq!(expert_range(1000, 800, 8, 2, 2), None);
}

#[test]
fn requests_are_taken_from_the_end() {
    let mut b = RequestBoard::new(3);
    assert_eq!(b.workers(2), 2);
    assert_eq!(b.workers(9), 3);
    assert_eq!(b.take(), Some(2));
    assert_eq!(b.take(), Some(1));
    b.finish(1, "one".to_string());
    assert_eq!(b.take(), Some(0));
    assert_eq!(b.take(), None);
    b.finish(0, "zero".to_string());
    assert_eq!(
        b.into_results(),
        vec![
            Ok("zero".to_string()),
            Ok("one".to_string()),
            Err(BatchError::RequestFailed)
        ]
    );
}

#[test]
fn tokens_are_ranked_cut_and_drawn() {
    let p: Vec<u32> = [0.1f32, 0.4, 0.1, 0.25, 0.15].iter().map(|x| x.to_bits()).collect();
    let ranked = rank_tokens(&p);
    assert_eq!(ranked, vec![1, 3, 4, 0, 2]);
    assert_eq!(keep_top_k(5, 0), 5);
    assert_eq!(keep_top_k(5, 2), 2);
    assert_eq!(keep_top_k(5, 9), 5);
    let sums: Vec<u32> = [0.4f32, 0.65, 0.8, 0.9, 1.0].iter().map(|x| x.to_bits()).collect();
    assert_eq!(nucleus_cut(&sums, 0.7f32.to_bits()), 3);
    assert_eq!(nucleus_cut(&sums, 1.0f32.to_bits()), 5);
    assert_eq!(nucleus_cut(&sums, 0.0f32.to_bits()), 5);
    let logits: Vec<u32> =
        [1.0f32, 3.0, f32::INFINITY, 3.0, f32::NAN].iter().map(|x| x.to_bits()).collect();
    assert_eq!(fallback_token(&logits), 3);
    assert_eq!(fallback_token(&vec![f32::NAN.to_bits()]), 0);
    let uncut = Sampler::new(ONE, 0, ONE);
    assert_eq!(uncut.sample(&logits, &ranked, &sums, &sums, 0.0f32.to_bits()), 1);
    assert_eq!(uncut.sample(&logits, &ranked, &sums, &sums, 0.7f32.to_bits()), 4);
    assert_eq!(uncut.sample(&logits, &ranked, &sums, &sums, 1.5f32.to_bits()), 3);
    let s = Sampler::default();
    assert_eq!(f32::from_bits(s.temperature), 0.8);
    assert_eq!(s.top_k, 40);
    assert_eq!(f32::from_bits(s.top_p), 0.95);
}

#[test]
fn drawn_tokens_survive_both_cuts() {
    let words = |x: &[f32]| x.iter().map(|v| v.to_bits()).collect::<Vec<u32>>();
    let ranked = rank_tokens(&words(&[0.1, 0.4, 0.1, 0.25, 0.15]));
    let logits = words(&[0.0; 5]);
    let s = Sampler::new(ONE, 3, 0.6f32.to_bits());
    let kept = words(&[0.5, 0.8125, 1.0]);
    assert_eq!(kept.len(), keep_top_k(ranked.len(), s.top_k));
    assert_eq!(nucleus_cut(&kept, s.top_p), 2);
    let cut = words(&[0.625, 1.0]);
    assert_eq!(s.sample(&logits, &ranked, &kept, &cut, 0.5f32.to_bits()), 1);
    assert_eq!(s.sample(&logits, &ranked, &kept, &cut, 0.7f32.to_bits()), 3);
    assert_eq!(s.sample(&logits, &ranked, &kept, &cut, ONE), 3);
    assert_eq!(s.sample(&vec![], &vec![], &vec![], &vec![], ONE), 0);
}

#[test]
fn calibration_visits_blocks_that_were_seen() {
    let rows = vec![LayerRows { q: 1, k: 2, v: 3, o: 4, gate: 5, up: 6, down: 7 }; 2];
    let mut c = QatCalibrator::new_with_layers(&rows, 1, 1, 1);
    assert_eq!(c.layer_stats.len(), 1);
    assert!(c.stats(0, T_DOWN, 6).is_some());
    assert!(c.stats(0, T_DOWN, 7).is_none());
    assert!(c.stats(1, T_Q, 0).is_none());
    c.record_activation(0, T_DOWN, 5, vec![1; 256]);
    c.record_activation(0, T_DOWN, 99, vec![1; 256]);
    assert_eq!(c.stats(0, T_DOWN, 5).unwrap().count, 1);
    assert_eq!(QatCalibrator::block_idx(3, 1, 4), 13);

    let parts: Vec<RingPart> =
        (1..8).map(|n| part(n, 256, WeightType::Q4K, vec![0; n * 144])).collect();
    let mut r = build_layer_ring(&parts);
    let blocks = c.apply_ring(0, &r);
    assert_eq!(
        blocks,
        vec![RingBlock { tensor: 6, block: 5, offset: r.down_off + 5 * 144 }]
    );
    assert!(c.apply_ring(1, &r).is_empty());
    write_scales(&mut r, blocks[0].offset, 0x3c00, 0x4102);
    assert_eq!(&r.ring[blocks[0].offset..blocks[0].offset + 4], &[0x00, 0x3c, 0x02, 0x41]);
}

#[test]
fn best_scales_are_picked() {
    let mut errors = vec![2.0f64.to_bits(); 25];
    assert_eq!(pick_scales(&errors), (0, 0));
    errors[17] = 1.0f64.to_bits();
    errors[23] = 1.0f64.to_bits();
    assert_eq!(pick_scales(&errors), (3, 2));
    assert_eq!(pick_scales(&vec![f64::NAN.to_bits(); 25]), (2, 2));
}

#[test]
fn test_pipeline_token() {
    let mut counter = PipelineCounter { depth: 0 };
    let t1 = PipelineToken::acquire(&mut counter, 2).unwrap();
    assert_eq!(counter.depth, 1);
    let t2 = PipelineToken::acquire(&mut counter, 2).unwrap();
    assert_eq!(counter.depth, 2);
    let t3 = PipelineToken::acquire(&mut counter, 2);
    assert!(t3.is_none());
    t2.release(&mut counter);
    assert_eq!(counter.depth, 1);
    t1.release(&mut counter);
    assert_eq!(counter.depth, 0);
}

fn device() -> PerLayerGpuState {
    let mut weights = LayerWeights::new(2);
    let all: [Option<u64>; 9] = [1, 2, 3, 4, 5, 6, 7, 8, 9].map(Some);
    assert!(weights.upload_layer_weights(0, &all));
    let mut broken = all;
    broken[3] = None;
    assert!(!weights.upload_layer_weights(1, &broken));
    assert_eq!((weights.q[1], weights.v[1], weights.o[1], weights.down[1]), (1, 3, 0, 0));
    let scratch = ScratchBuffers {
        d_x: 10,
        d_q: 11,
        d_k: 12,
        d_v: 13,
        d_scores: 14,
        d_attn: 15,
        d_gate: 16,
        d_up: 17,
        d_down: 18,
    };
    let ctx = DeviceContext {
        scratch: Some(scratch),
        kv: Some((20, 21)),
        staging: Some(22),
        weights,
    };
    PerLayerGpuState::new(true, Some(ctx), 4096, 32, 4, 64, 2)
}

#[test]
fn shared_devices_run_what_was_set_up() {
    let d = PerLayerGpuState::with_device(device().ctx, 4096, 32, 4, 64, 2);
    assert!(d.is_operational());
    assert_eq!((d.num_layers, d.window_size, d.head_dim), (2, 4096, 64));
    let d = PerLayerGpuState::with_device(None, 4096, 32, 4, 64, 2);
    assert!(!d.enabled && !d.is_operational());
}

#[test]
fn device_work_names_its_buffers() {
    let d = device();
    assert!(d.is_operational());
    let bytes = 4 * 64 * 2;
    assert_eq!(
        d.upload_kv_async(4097),
        Some(KvUpload { offset: bytes, bytes })
    );
    let mut g = ComputeGraph::new();
    let plan = d.gemv_qkv_async(&mut g, 0, 1000, 8, 4, 4, 2).unwrap();
    assert_eq!(plan.x_values, 512);
    assert_eq!(plan.x_bytes, 2048);
    assert_eq!(plan.outputs.iter().map(|o| (o.buffer, o.values, o.bytes)).collect::<Vec<_>>(),
        vec![(11, 8, 32), (12, 4, 16), (13, 4, 16)]);
    assert_eq!(g.node_count(), 3);
    let steps = g.build();
    assert!(steps.iter().any(|s| matches!(s, GraphStep::BufferBarriers(b) if b == &vec![11])));
    assert!(d.gemv_gate_up_async(&mut g, 1, 512, 8, 2).is_none());
    for product in [SingleProduct::Output, SingleProduct::Down] {
        let mut alone = ComputeGraph::new();
        let plan = d.execute_gemv_async(&mut alone, 0, product, 512, 8, 2).unwrap();
        assert_eq!((plan.outputs[0].buffer, plan.outputs[0].bytes), (18, 32));
        assert_eq!(alone.node_count(), 1);
        assert!(d.execute_gemv_async(&mut g, 1, product, 512, 8, 2).is_none());
    }
    let a = d.execute_attention_async(&mut g, 9000).unwrap();
    assert_eq!(a.bytes, 32 * 64 * 4);
    assert!(d.execute_attention_async(&mut g, 0).is_none());
    assert!(d.sync(true) && !d.sync(false));
}

#[test]
fn products_use_their_own_weights() {
    let with = |o: u64, down: u64| {
        let mut d = device();
        let ctx = d.ctx.as_mut().unwrap();
        ctx.weights.o[0] = o;
        ctx.weights.down[0] = down;
        let mut g = ComputeGraph::new();
        let output = d.execute_gemv_async(&mut g, 0, SingleProduct::Output, 512, 8, 2).is_some();
        let down = d.execute_gemv_async(&mut g, 0, SingleProduct::Down, 512, 8, 2).is_some();
        (output, down)
    };
    assert_eq!(with(4, 7), (true, true));
    assert_eq!(with(4, 0), (true, false));
    assert_eq!(with(0, 7), (false, true));
}

#[test]
fn without_a_device_nothing_runs_there() {
    let d = PerLayerGpuState::new(false, None, 4096, 32, 4, 64, 2);
    let mut g = ComputeGraph::new();
    assert!(!d.is_operational() && !d.create_layer_graph() && !d.sync(true));
    assert!(d.upload_kv_async(0).is_none());
    assert!(d.gemv_qkv_async(&mut g, 0, 1, 1, 1, 1, 1).is_none());
    assert!(!d.upload_all_weights(2, |_| true));
    assert_eq!(d.norms_to_upload(2, 2), (0, 0));
    let d = device();
    assert!(d.upload_all_weights(5, |l| l < 2));
    assert!(!d.upload_all_weights(5, |l| l == 0));
    assert_eq!(d.norms_to_upload(1, 9), (1, 2));
}
