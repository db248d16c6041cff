//! The paged cache, with quantisation as its callers do it.

use std::collections::HashMap;
use swamp::cache::{PageAction, PagedKVCache};
use swamp::halves::widen;
use swamp::hot_pages::HotRange;
use swamp::q4::Q4Block;

/// The nearest half, ties to even.
fn half_bits(x: f32) -> u16 {
    half::f16::from_f32(x).to_bits()
}

/// The number that a half stands for.
fn half_value(h: u16) -> f32 {
    f32::from_bits(widen(h))
}

fn quantize(values: &[f32]) -> Q4Block {
    let mut max = 0.0f32;
    let mut min = f32::MAX;
    for &x in values {
        max = max.max(x.abs());
        min = min.min(x);
    }
    let d = if max > 1e-10 { max / 7.0 } else { 0.0 };
    let mut codes = [0u8; 32];
    for (i, &x) in values.iter().enumerate() {
        codes[i] = if d > 1e-10 {
            ((x - min) / d).round().max(0.0).min(15.0) as u8
        } else {
            0
        };
    }
    Q4Block { d: half_bits(d), dmin: half_bits(min), codes }
}

fn quantize_all(values: &[f32], head_dim: usize) -> Vec<Q4Block> {
    let mut blocks = Vec::new();
    for head in values.chunks(head_dim) {
        for part in head.chunks(32) {
            blocks.push(quantize(part));
        }
    }
    blocks
}

fn bits(values: &[f32]) -> Vec<u32> {
    values.iter().map(|x| x.to_bits()).collect()
}

/// A cache and the store for its cold pages.
struct Kv {
    cache: PagedKVCache,
    store: HashMap<usize, (Vec<u8>, Vec<u8>)>,
    head_dim: usize,
    writes: usize,
    reads: usize,
}

impl Kv {
    fn new(layers: usize, kv_heads: usize, max_seq_len: usize, head_dim: usize) -> Kv {
        Kv::with_memory(layers, kv_heads, max_seq_len, head_dim, None)
    }

    fn with_memory(
        layers: usize,
        kv_heads: usize,
        max_seq_len: usize,
        head_dim: usize,
        ram_mb: Option<usize>,
    ) -> Kv {
        Kv {
            cache: PagedKVCache::with_block_size(
                layers,
                kv_heads,
                max_seq_len,
                head_dim,
                32,
                ram_mb,
                None,
            ),
            store: HashMap::new(),
            head_dim,
            writes: 0,
            reads: 0,
        }
    }

    fn heat(&mut self, page: usize) {
        let mut stored = false;
        loop {
            match self.cache.ensure_page(page, stored) {
                PageAction::Ready => return,
                PageAction::Store(w) => {
                    self.store.insert(w.slot, (w.k, w.v));
                    self.writes += 1;
                    stored = true;
                }
                PageAction::Load(r) => {
                    let (k, v) = self.store[&r.slot].clone();
                    assert_eq!(k.len(), r.page_bytes);
                    self.reads += 1;
                    self.cache.reload_cold_page(page, k, v);
                    return;
                }
            }
        }
    }

    fn save(&mut self, layer: usize, k: &[f32], v: &[f32]) {
        let page = self.cache.page_id(self.cache.current_pos());
        self.heat(page);
        let (kb, vb) = (quantize_all(k, self.head_dim), quantize_all(v, self.head_dim));
        self.cache.save(layer, &kb, &vb, &bits(k), &bits(v));
    }

    fn restore(&mut self, first: usize, last: usize) {
        for page in first..=last {
            self.heat(page);
            if !self.cache.has_f32_page(page) {
                let (kt, vt) = self.cache.q4_terms(page);
                let value = |d: u16, code: u8, dmin: u16| {
                    (half_value(d) * code as f32 + half_value(dmin)).to_bits()
                };
                let k = kt.iter().map(|t| value(t.d, t.code, t.dmin)).collect();
                let v = vt.iter().map(|t| value(t.d, t.code, t.dmin)).collect();
                self.cache.ensure_f32_page(page, k, v);
            }
        }
    }

    fn k(&self, layer: usize, head: usize, pos: usize) -> f32 {
        f32::from_bits(self.cache.get_k_unchecked(layer, head, pos)[0])
    }

    fn v(&self, layer: usize, head: usize, pos: usize) -> f32 {
        f32::from_bits(self.cache.get_v_unchecked(layer, head, pos)[0])
    }
}

#[test]
fn test_paged_cache_basic_rw() {
    let mut kv = Kv::new(2, 4, 128, 64);
    let n_layers = 2;
    let n_kv = 4;
    let head_dim = 64;

    for pos in 0..3 {
        let mut k = vec![0.0f32; n_kv * head_dim];
        let mut v = vec![0.0f32; n_kv * head_dim];
        for h in 0..n_kv {
            k[h * head_dim] = (pos * 100 + h) as f32;
            v[h * head_dim] = (pos * 1000 + h) as f32;
        }
        for l in 0..n_layers {
            kv.save(l, &k, &v);
        }
        kv.cache.advance();
    }

    assert_eq!(kv.cache.current_pos(), 3);
    kv.restore(0, 0);

    for l in 0..n_layers {
        for h in 0..n_kv {
            for pos in 0..3 {
                let (k, v) = (kv.k(l, h, pos), kv.v(l, h, pos));
                let expected_k = (pos * 100 + h) as f32;
                let expected_v = (pos * 1000 + h) as f32;
                assert!(
                    (k - expected_k).abs() < 1.0,
                    "K mismatch layer={} head={} pos={}: got {} expected {}",
                    l, h, pos, k, expected_k
                );
                assert!(
                    (v - expected_v).abs() < 1.0,
                    "V mismatch layer={} head={} pos={}: got {} expected {}",
                    l, h, pos, v, expected_v
                );
            }
        }
    }
}

#[test]
fn test_paged_cache_multiple_pages() {
    let mut kv = Kv::new(1, 1, 1024, 64);
    let n_tokens = 32;

    for pos in 0..n_tokens {
        kv.save(0, &vec![pos as f32; 64], &vec![(pos * 2) as f32; 64]);
        kv.cache.advance();
    }

    assert_eq!(kv.cache.current_pos(), n_tokens);

    let last_pid = kv.cache.page_id(n_tokens - 1);
    kv.restore(0, last_pid);

    for pos in 0..n_tokens {
        assert_eq!(kv.k(0, 0, pos), pos as f32, "pos={}", pos);
        assert_eq!(kv.v(0, 0, pos), (pos * 2) as f32);
    }

    for pos in 0..n_tokens {
        let pid = kv.cache.page_id(pos);
        let k = f32::from_bits(kv.cache.k_page_ptr(0, 0, pid)[0]);
        let v = f32::from_bits(kv.cache.v_page_ptr(0, 0, pid)[0]);
        let bs = kv.cache.block_size_for(pos);
        assert!((k - (pos - pos % bs) as f32).abs() < 0.5, "K pid={} pos={}", pid, pos);
        assert!((v - (pos - pos % bs) as f32 * 2.0).abs() < 0.5, "V pid={} pos={}", pid, pos);
    }
}

#[test]
fn test_paged_cache_reset() {
    let mut kv = Kv::new(1, 1, 1024, 64);
    for pos in 0..10 {
        kv.save(0, &vec![pos as f32; 64], &vec![pos as f32; 64]);
        kv.cache.advance();
    }

    kv.cache.reset();
    assert_eq!(kv.cache.current_pos(), 0);

    kv.save(0, &vec![42.0f32; 64], &vec![42.0f32; 64]);
    kv.cache.advance();
    kv.restore(0, 0);

    let k = kv.k(0, 0, 0);
    assert!((k - 42.0).abs() < 0.5, "got {}", k);
}

#[test]
fn test_tiered_eviction_basic() {
    let mut kv = Kv::with_memory(1, 1, 128, 64, Some(0));
    kv.cache.set_ram_page_limit(2);

    let n_tokens = 12;
    for pos in 0..n_tokens {
        kv.save(0, &vec![pos as f32; 64], &vec![(pos * 2) as f32; 64]);
        kv.cache.advance();
    }

    assert_eq!(kv.cache.current_pos(), n_tokens);

    let last_pid = kv.cache.page_id(n_tokens - 1);
    kv.restore(last_pid, last_pid);
    let k2 = kv.k(0, 0, 8);
    assert!((k2 - 8.0).abs() < 0.5, "Page 2: got {}", k2);

    kv.restore(0, 0);
    let k0 = kv.k(0, 0, 0);
    assert!((k0 - 0.0).abs() < 0.5, "Page 0: got {}", k0);
}

#[test]
fn test_tiered_no_eviction_within_limit() {
    let mut kv = Kv::new(1, 1, 128, 64);
    kv.cache.set_ram_page_limit(10);

    let n_tokens = 8;
    for pos in 0..n_tokens {
        kv.save(0, &vec![pos as f32; 64], &vec![(pos * 2) as f32; 64]);
        kv.cache.advance();
    }

    let last_pid = kv.cache.page_id(n_tokens - 1);
    kv.restore(0, last_pid);
    for pos in 0..n_tokens {
        let k = kv.k(0, 0, pos);
        assert!((k - pos as f32).abs() < 0.5, "pos={} got {}", pos, k);
    }
    assert_eq!(kv.writes, 0);
}

#[test]
fn test_zone_boundaries() {
    let mut kv = Kv::new(1, 1, 140000, 64);
    assert_eq!(kv.cache.block_size_for(0), 32);
    assert_eq!(kv.cache.block_size_for(4095), 32);
    assert_eq!(kv.cache.block_size_for(4096), 128);
    assert_eq!(kv.cache.block_size_for(131071), 128);
    assert_eq!(kv.cache.block_size_for(131072), 1024);

    let n_tokens = 140000;
    for pos in 0..n_tokens {
        kv.save(0, &vec![pos as f32; 64], &vec![(pos * 2) as f32; 64]);
        kv.cache.advance();
    }

    assert_eq!(kv.cache.page_id(0), 0);
    assert_eq!(kv.cache.page_id(31), 0);
    assert_eq!(kv.cache.page_id(32), 1);
    assert_eq!(kv.cache.page_id(4095), 127);
    assert_eq!(kv.cache.page_id(4096), 128 + 0);
    assert_eq!(kv.cache.page_id(4223), 128 + 0);
    assert_eq!(kv.cache.page_id(4224), 128 + 1);
    assert_eq!(kv.cache.page_id(131071), 128 + 991);
    assert_eq!(kv.cache.page_id(131072), 128 + 992);
    assert_eq!(kv.cache.page_id(132095), 128 + 992);
    assert_eq!(kv.cache.page_id(132096), 128 + 993);
}

#[test]
fn test_zone_read_write() {
    let mut kv = Kv::new(2, 2, 200000, 64);

    for pos in 0..100 {
        for l in 0..2 {
            kv.save(l, &vec![pos as f32; 128], &vec![(pos * 3) as f32; 128]);
        }
        kv.cache.advance();
    }
    for pos in 100..4200 {
        for l in 0..2 {
            kv.save(l, &vec![pos as f32; 128], &vec![(pos * 3) as f32; 128]);
        }
        kv.cache.advance();
    }

    assert_eq!(kv.cache.current_pos(), 4200);

    // Halves are a few units apart at this magnitude.
    let last_pid = kv.cache.page_id(4199);
    kv.restore(0, last_pid);

    for pos in [0, 99, 100, 4096, 4198] {
        let expected_k = pos as f32;
        let expected_v = (pos * 3) as f32;
        let k = kv.k(0, 0, pos);
        assert!((k - expected_k).abs() < 10.0, "pos={} k got {} expected {}", pos, k, expected_k);
        let v = kv.v(0, 1, pos);
        assert!((v - expected_v).abs() < 10.0, "pos={} v got {} expected {}", pos, v, expected_v);
    }
}

#[test]
fn evicted_pages_come_back_with_their_contents() {
    let mut kv = Kv::new(1, 1, 4096, 64);
    kv.cache.set_ram_page_limit(2);
    for pos in 0..160 {
        kv.save(0, &vec![pos as f32; 64], &vec![(pos * 2) as f32; 64]);
        kv.cache.advance();
    }
    assert!(kv.writes >= 3);
    for page in 0..5 {
        kv.restore(page, page);
        for pos in page * 32..page * 32 + 32 {
            assert_eq!(kv.k(0, 0, pos), pos as f32);
            assert_eq!(kv.v(0, 0, pos), (pos * 2) as f32);
        }
    }
    assert!(kv.reads >= 3);
}

#[test]
fn cold_slots_do_not_overlap() {
    let mut kv = Kv::new(1, 1, 4096, 64);
    kv.cache.set_ram_page_limit(1);
    let slot_bytes = kv.cache.cold_slot_bytes();
    // Two positions of 2 blocks of 20 bytes each per page of the third zone.
    assert_eq!(slot_bytes, 2 * 1024 * 2 * 20);
    let mut offsets = Vec::new();
    for page in 0..4 {
        let mut stored = false;
        loop {
            match kv.cache.ensure_page(page, stored) {
                PageAction::Ready => break,
                PageAction::Store(w) => {
                    assert_eq!(w.offset, w.slot as u128 * slot_bytes);
                    assert!(w.k.len() as u128 + w.v.len() as u128 <= slot_bytes);
                    offsets.push(w.offset);
                    stored = true;
                }
                PageAction::Load(_) => unreachable!(),
            }
        }
    }
    assert_eq!(offsets, vec![0, slot_bytes, 2 * slot_bytes]);
}

#[test]
fn least_important_page_leaves_first() {
    let mut kv = Kv::new(1, 1, 4096, 32);
    kv.heat(0);
    kv.heat(1);
    kv.heat(2);
    kv.cache.record_importance(0, 3.0f64.to_bits());
    kv.cache.record_importance(32, 1.0f64.to_bits());
    kv.cache.record_importance(64, 2.0f64.to_bits());
    assert_eq!(kv.cache.entropy_for(40), 1.0f64.to_bits());
    let before = kv.cache.k_q4_page_ptr(0, 0, 1).len();
    assert_eq!(before, 32 * 20);
    kv.cache.set_ram_page_limit(3);
    kv.heat(3);
    assert_eq!(kv.writes, 1);
    // Page 1 was the least important: it is cold now, the others are not.
    match kv.cache.ensure_page(0, true) {
        PageAction::Ready => {}
        _ => panic!("page 0 left"),
    }
    match kv.cache.ensure_page(1, true) {
        PageAction::Load(r) => assert_eq!(r.slot, 0),
        _ => panic!("page 1 stayed"),
    }
    kv.cache.reset_entropy();
    assert_eq!(kv.cache.entropy_for(0), 0);
}

#[test]
fn saving_keeps_other_vectors() {
    let mut kv = Kv::new(2, 2, 64, 32);
    kv.save(0, &vec![3.0; 64], &vec![4.0; 64]);
    kv.save(1, &vec![5.0; 64], &vec![6.0; 64]);
    kv.cache.advance();
    kv.save(0, &vec![7.0; 64], &vec![8.0; 64]);
    kv.restore(0, 0);
    assert_eq!(kv.k(0, 1, 0), 3.0);
    assert_eq!(kv.v(0, 0, 0), 4.0);
    assert_eq!(kv.k(1, 0, 0), 5.0);
    assert_eq!(kv.v(1, 1, 0), 6.0);
    assert_eq!(kv.k(0, 0, 1), 7.0);
    assert_eq!(kv.v(0, 1, 1), 8.0);
}

#[test]
fn save_at_writes_where_it_is_told() {
    let mut kv = Kv::new(1, 1, 64, 32);
    kv.heat(0);
    let k = quantize_all(&vec![9.0; 32], 32);
    let v = quantize_all(&vec![1.0; 32], 32);
    kv.cache.save_at(0, 5, &k, &v);
    assert_eq!(kv.cache.current_pos(), 0);
    kv.restore(0, 0);
    assert_eq!(kv.k(0, 0, 5), 9.0);
    assert_eq!(kv.v(0, 0, 5), 1.0);
    assert_eq!(kv.k(0, 0, 4), 0.0);
}

#[test]
fn numbers_go_to_restored_pages_unrounded() {
    let mut kv = Kv::new(1, 1, 64, 32);
    kv.restore(0, 0);
    kv.save(0, &vec![0.1; 32], &vec![0.2; 32]);
    assert_eq!(kv.k(0, 0, 0), 0.1);
    assert_eq!(kv.v(0, 0, 0), 0.2);
}

#[test]
fn hot_range_asks_page_by_page() {
    let mut cache = PagedKVCache::new(1, 1, 256, 32);
    let mut range = HotRange::ensure_pages_hot(1, 2);
    match range.step(&mut cache, false) {
        Some(PageAction::Ready) => {}
        _ => panic!("page 1"),
    }
    assert_eq!(range.next, 2);
    match range.step(&mut cache, false) {
        Some(PageAction::Ready) => {}
        _ => panic!("page 2"),
    }
    assert!(range.step(&mut cache, false).is_none());

    cache.set_ram_page_limit(3);
    let mut more = HotRange::ensure_pages_hot(3, 3);
    match more.step(&mut cache, false) {
        Some(PageAction::Store(_)) => assert_eq!(more.next, 3),
        _ => panic!("no room was made"),
    }
    match more.step(&mut cache, true) {
        Some(PageAction::Ready) => assert_eq!(more.next, 4),
        _ => panic!("page 3"),
    }
}

#[test]
fn saving_again_replaces_what_was_there() {
    let mut kv = Kv::new(1, 1, 64, 32);
    kv.heat(0);
    let ramp: Vec<f32> = (0..32).map(|i| i as f32).collect();
    let down: Vec<f32> = ramp.iter().rev().cloned().collect();
    kv.cache.save_at(0, 3, &quantize_all(&ramp, 32), &quantize_all(&down, 32));
    kv.cache.save_at(0, 3, &quantize_all(&down, 32), &quantize_all(&ramp, 32));
    let (k, v) = kv.cache.q4_terms(0);
    let codes = |b: &Q4Block| b.codes.to_vec();
    let stored: Vec<u8> = k[3 * 32..4 * 32].iter().map(|t| t.code).collect();
    assert_eq!(stored, codes(&quantize_all(&down, 32)[0]));
    let stored: Vec<u8> = v[3 * 32..4 * 32].iter().map(|t| t.code).collect();
    assert_eq!(stored, codes(&quantize_all(&ramp, 32)[0]));
}
