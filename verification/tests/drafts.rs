//! Drafts from past states, speculation and the ring's file.

use swamp::draft_file::{decode_draft, encode_draft, save_due};
use swamp::dspark::{xorshift, DSparkEngine, LogitCache, Verdict, RANDOM_SEED};
use swamp::pattern_draft::{count_ones, hash_signs, MatchConfidence, PatternDraft};

/// A number between zero and one.
fn fast_rand(state: &mut u64) -> f64 {
    *state = xorshift(*state);
    (*state as f64) / (u64::MAX as f64)
}

fn projections(n: usize) -> Vec<u32> {
    let mut state = 0x2545_f491_4f6c_dd1d_u64;
    (0..n).map(|_| ((fast_rand(&mut state) * 2.0 - 1.0) as f32).to_bits()).collect()
}

/// The hash of a state: the signs of its projections.
fn hash_hidden(draft: &PatternDraft, hidden: &[f32]) -> u64 {
    let signs: Vec<bool> = (0..draft.num_bits())
        .map(|i| {
            let row = &draft.lsh()[i * draft.embed_dim()..(i + 1) * draft.embed_dim()];
            row.iter().zip(hidden).map(|(v, h)| f32::from_bits(*v) * h).sum::<f32>() > 0.0
        })
        .collect();
    hash_signs(&signs)
}

fn softmax_at(logits: &[f32], token: usize) -> f32 {
    if token >= logits.len() {
        return 0.0;
    }
    let max = logits.iter().cloned().fold(f32::NEG_INFINITY, f32::max);
    let sum: f64 = logits.iter().map(|l| (*l as f64 - max as f64).exp()).sum();
    ((logits[token] as f64 - max as f64).exp() / sum) as f32
}

#[test]
fn test_pattern_draft_basic() {
    let embed_dim = 64;
    let mut draft = PatternDraft::new(embed_dim, 16, 128, 3, projections(16 * embed_dim));

    for i in 0..20 {
        let h_i: Vec<f32> =
            (0..embed_dim).map(|j| (i as f32 * 0.1) + (j as f32 * 0.01)).collect();
        let hash = hash_hidden(&draft, &h_i);
        draft.observe(hash, i % 100);
    }

    let h_query: Vec<f32> = (0..embed_dim).map(|j| (5.0 * 0.1) + (j as f32 * 0.01)).collect();
    let (tokens, confs) = draft.draft(hash_hidden(&draft, &h_query));
    assert!(!tokens.is_empty(), "should find a match");
    assert_eq!(tokens.len(), confs.len(), "tokens and confs must match");
}

#[test]
fn test_pattern_draft_empty() {
    let draft = PatternDraft::new(64, 16, 128, 3, projections(16 * 64));
    let h = vec![0.5f32; 64];
    let (tokens, _) = draft.draft(hash_hidden(&draft, &h));
    assert!(tokens.is_empty(), "empty store should return empty draft");
}

#[test]
fn test_hash_hidden_deterministic() {
    let draft = PatternDraft::new(64, 16, 128, 3, projections(16 * 64));
    let h = vec![0.5f32; 64];
    let h1 = hash_hidden(&draft, &h);
    let h2 = hash_hidden(&draft, &h);
    assert_eq!(h1, h2, "hash must be deterministic");
}

#[test]
fn test_dspark_speculate_no_rejection() {
    let embed_dim = 64;
    let mut engine = DSparkEngine::new(embed_dim, projections(32 * embed_dim));

    let h = vec![1.0f32; embed_dim];
    for i in 0..10 {
        let hi: Vec<f32> =
            (0..embed_dim).map(|j| (i as f32 * 0.1) + (j as f32 * 0.01)).collect();
        let hash = hash_hidden(&engine.draft_model, &hi);
        engine.observe(hash, 42 + i);
    }

    let hash = hash_hidden(&engine.draft_model, &h);
    let result = engine.speculate(hash, 3, |d, confidence| {
        let logits: Vec<f32> =
            (0..100).map(|i| if i == d || i == 3 { 10.0 } else { 0.0 }).collect();
        let target = softmax_at(&logits, d) as f64;
        if target <= 0.0 {
            return Verdict::Impossible;
        }
        let draft = confidence.percent() as f64 / 100.0;
        let ratio = (target.ln() - draft.ln()).exp().min(1.0);
        let mut state = RANDOM_SEED;
        if fast_rand(&mut state) < ratio {
            Verdict::Accepted
        } else {
            Verdict::Rejected(3)
        }
    });
    assert!(result.len() >= 1, "should accept at least 1 token");
}

#[test]
fn test_fast_rand_range() {
    let mut state = RANDOM_SEED;
    for _ in 0..1000 {
        let r = fast_rand(&mut state);
        assert!(r >= 0.0 && r < 1.0, "fast_rand out of range: {}", r);
    }
}

fn small_ring(capacity: usize) -> PatternDraft {
    PatternDraft::new(1, 8, capacity, 3, vec![0; 8])
}

#[test]
fn nearest_observation_leads_the_draft() {
    let mut d = small_ring(16);
    d.observe(0b0000_1111, 10);
    d.observe(0b0000_0000, 11);
    d.observe(0b1111_1111, 12);
    d.observe(0b0101_0101, 13);
    let (far, confs) = d.draft(0b0000_0000);
    assert_eq!(far, vec![11, 12, 13]);
    assert_eq!(confs, vec![MatchConfidence::Far; 3]);
    d.observe(0b0101_0101, 14);
    let (tokens, confs) = d.draft(0b0000_0000);
    assert_eq!(tokens, vec![12, 13, 14]);
    assert_eq!(confs, vec![MatchConfidence::Exact; 3]);
    let (near, confs) = d.draft(0b0100_0000);
    assert_eq!(near, vec![12, 13, 14]);
    assert_eq!(confs[0], MatchConfidence::Near);
    assert_eq!(small_ring(16).draft(0), (vec![], vec![]));
}

#[test]
fn confidences_in_percent() {
    assert_eq!(MatchConfidence::Exact.percent(), 90);
    assert_eq!(MatchConfidence::Near.percent(), 50);
    assert_eq!(MatchConfidence::Far.percent(), 10);
}

#[test]
fn hamming_distance_counts_bits() {
    assert_eq!(count_ones(0), 0);
    assert_eq!(count_ones(u64::MAX), 64);
    assert_eq!(count_ones(0b1011 ^ 0b0001), 2);
    assert_eq!(hash_signs(&[true, false, true]), 0b101);
}

#[test]
fn similar_positions_come_by_distance() {
    let mut d = small_ring(16);
    d.observe_at(0b0000_0111, 1, 100);
    d.observe_at(0b0000_0001, 2, 200);
    d.observe_at(0b0000_0000, 3, 300);
    let found = d.find_similar_positions(0, 2);
    assert_eq!(found, vec![(300, 0), (200, 1)]);
    assert_eq!(d.find_similar_positions(0, 9).len(), 3);
}

#[test]
fn ring_forgets_the_oldest() {
    let mut d = small_ring(2);
    d.observe_at(1, 1, 1);
    d.observe_at(2, 2, 2);
    d.observe_at(4, 3, 3);
    assert_eq!(d.len(), 2);
    let mut positions: Vec<usize> =
        d.find_similar_positions(0, 5).into_iter().map(|p| p.0).collect();
    positions.sort();
    assert_eq!(positions, vec![2, 3]);
}

#[test]
fn saved_ring_reads_back() {
    let mut d = PatternDraft::new(2, 8, 4, 3, projections(16));
    for i in 0..6u64 {
        d.observe_at(i * 3, 40 + i as usize, 7 * i as usize);
    }
    let bytes = encode_draft(&d);
    assert_eq!(&bytes[0..4], b"SWDP");
    let back = decode_draft(&bytes).unwrap();
    assert_eq!(back.head(), d.head());
    assert_eq!(back.len(), d.len());
    assert_eq!(back.lsh(), d.lsh());
    assert_eq!(back.hashes(), d.hashes());
    assert_eq!(back.tokens(), d.tokens());
    assert_eq!(back.positions(), d.positions());
    assert!(back.can_observe() && back.can_search() && back.can_draft());
}

#[test]
fn any_loaded_ring_is_taken_over() {
    let mut ring = PatternDraft::new(2, 8, 4, 3, projections(16));
    for i in 0..2u64 {
        ring.observe_at(i, 40 + i as usize, i as usize);
    }
    let mut bytes = encode_draft(&ring);
    bytes[24] = 3;
    let mut engine = DSparkEngine::new(2, projections(64));
    engine.load_draft_cache(None);
    assert_eq!(engine.draft_model.capacity(), 4096);
    engine.load_draft_cache(decode_draft(&bytes));
    assert_eq!((engine.draft_model.capacity(), engine.draft_model.head()), (4, 3));
    assert_eq!(engine.draft_model.len(), 2);
    assert!(engine.draft_model.can_observe());
    engine.observe_at(9, 99, 7);
    assert_eq!(engine.draft_model.tokens(), &vec![40, 41, 0, 99]);
    assert_eq!((engine.draft_model.head(), engine.draft_model.len()), (0, 3));

    bytes[24] = 4;
    let outside = decode_draft(&bytes).unwrap();
    assert!(!outside.can_observe() && outside.can_search() && outside.can_draft());
}

#[test]
fn rings_without_room_hold_nothing() {
    let d = PatternDraft::new(2, 8, 0, 3, projections(16));
    assert!(!d.can_observe() && d.can_search() && d.can_draft());
    assert_eq!(d.draft(5).0, Vec::<usize>::new());
    assert!(d.find_similar_positions(5, 3).is_empty());
}

#[test]
fn damaged_files_are_refused() {
    let bytes = encode_draft(&small_ring(4));
    assert!(decode_draft(&[]).is_none());
    assert!(decode_draft(&bytes[0..20]).is_none());
    assert!(decode_draft(&bytes[0..bytes.len() - 1]).is_none());
    let mut wrong_magic = bytes.clone();
    wrong_magic[0] = b'X';
    assert!(decode_draft(&wrong_magic).is_none());
    let mut other_version = bytes.clone();
    other_version[4] = 9;
    assert!(decode_draft(&other_version).is_some());
    assert!(decode_draft(&bytes).is_some());
}

#[test]
fn rings_are_saved_every_hundred_observations() {
    assert!(!save_due(0));
    assert!(!save_due(99));
    assert!(save_due(100));
    assert!(save_due(300));
}

#[test]
fn step_returns_its_token_and_what_was_accepted() {
    let mut e = DSparkEngine::with_params(1, 8, 16, 3, vec![0; 8]);
    e.observe(0, 5);
    e.observe(1, 6);
    e.observe(2, 7);
    e.observe(3, 8);
    let all = e.speculate(0, 99, |_, _| Verdict::Accepted);
    assert_eq!(all[0], 99);
    assert_eq!(all.len(), 1 + e.draft_model.draft(0).0.len());
    let one = e.speculate(0, 98, |_, _| Verdict::Rejected(55));
    assert_eq!(one, vec![98, 55]);
    let none = e.speculate(0, 97, |_, _| Verdict::Impossible);
    assert_eq!(none, vec![97]);
    assert_eq!(e.stats().total_steps, 3);
    e.stats_mut().total_steps = 0;
    assert_eq!(e.stats().total_steps, 0);
}

#[test]
fn logits_are_found_by_hash_and_token() {
    let mut c = LogitCache::new();
    c.insert(7, 1, vec![10, 20]);
    c.insert(7, 2, vec![30]);
    assert_eq!(c.lookup(7, 1), Some(&[10u32, 20][..]));
    assert_eq!(c.lookup(7, 2), Some(&[30u32][..]));
    assert_eq!(c.lookup(8, 1), None);
    c.clear();
    assert_eq!(c.lookup(7, 1), None);
}

#[test]
fn full_logit_cache_overwrites_its_oldest() {
    let mut c = LogitCache::new();
    for t in 0..8 {
        c.insert(7, t, vec![t as u32]);
    }
    c.insert(7, 100, vec![100]);
    assert_eq!(c.lookup(7, 0), None);
    assert_eq!(c.lookup(7, 1), Some(&[1u32][..]));
    assert_eq!(c.lookup(7, 100), Some(&[100u32][..]));
}

#[test]
fn cold_pages_are_distinct_and_far() {
    let mut e = DSparkEngine::with_params(1, 8, 16, 3, vec![0; 8]);
    e.observe_at(0, 1, 1000);
    e.observe_at(0, 2, 1010);
    e.observe_at(0, 3, 4990);
    // The last observation is too close to the present to be fetched.
    let pages = e.predict_cold_pages(0, 5000, 3, 32, 32);
    let mut sorted = pages.clone();
    sorted.sort();
    sorted.dedup();
    assert_eq!(sorted.len(), pages.len());
    assert!(pages.contains(&(1000 / 32)));
    assert!(pages.iter().all(|p| *p < 64));
}

#[test]
fn random_numbers_keep_coming() {
    assert_eq!(xorshift(1), 1082269761);
    let mut x = RANDOM_SEED;
    for _ in 0..100 {
        x = xorshift(x);
        assert_ne!(x, 0);
    }
    assert_eq!(xorshift(0), 0);
}
