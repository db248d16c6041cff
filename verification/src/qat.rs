//! Calibration of packed weights: which blocks have been seen, and which scales
//! fit them best.

use crate::ieee::{less64, lt64};
use crate::model::RingView;
use vstd::prelude::*;

verus! {

/// Bytes of a block of packed weights.
pub const BLOCK_BYTES: usize = 144;

/// Values of a block.
pub const BLOCK_SUMS: usize = 256;

/// The largest double.
pub const LARGEST: u64 = 0x7fef_ffff_ffff_ffff;

/// What was seen at a block: sums of activations, doubles, and how often.
#[derive(Debug)]
pub struct BlockStats {
    pub act_sum: Vec<u64>,
    pub count: u64,
}

#[derive(Debug)]
pub struct TensorStats {
    pub blocks: Vec<BlockStats>,
}

/// Rows of a layer's seven matrices.
#[derive(Debug, Clone, Copy, PartialEq, Eq, Structural)]
pub struct LayerRows {
    pub q: usize,
    pub k: usize,
    pub v: usize,
    pub o: usize,
    pub gate: usize,
    pub up: usize,
    pub down: usize,
}

/// Place of the query matrix among the seven.
pub const T_Q: usize = 0;

pub const T_K: usize = 1;

pub const T_V: usize = 2;

pub const T_O: usize = 3;

pub const T_GATE: usize = 4;

pub const T_UP: usize = 5;

pub const T_DOWN: usize = 6;

pub struct QatCalibrator {
    pub layer_stats: Vec<Vec<TensorStats>>,
    pub n_blocks_embed: usize,
    pub n_blocks_ffn: usize,
}

/// Blocks of each matrix of a layer.
pub open spec fn blocks_of(r: LayerRows, embed: int, ffn: int, t: int) -> int {
    if t == 0 {
        r.q * embed
    } else if t == 1 {
        r.k * embed
    } else if t == 2 {
        r.v * embed
    } else if t == 3 {
        r.o * embed
    } else if t == 4 {
        r.gate * embed
    } else if t == 5 {
        r.up * embed
    } else {
        r.down * ffn
    }
}

pub open spec fn layer_fits(r: LayerRows, embed: int, ffn: int) -> bool {
    forall|t: int| 0 <= t < 7 ==> #[trigger] blocks_of(r, embed, ffn, t) <= usize::MAX
}

pub open spec fn is_blank(b: BlockStats) -> bool {
    &&& b.count == 0
    &&& b.act_sum@ == Seq::new(256, |i: int| 0u64)
}

/// Statistics of so many blocks, nothing seen yet.
pub open spec fn is_blank_tensor(t: TensorStats, n: int) -> bool {
    &&& t.blocks@.len() == n
    &&& forall|i: int| 0 <= i < n ==> is_blank(#[trigger] t.blocks@[i])
}

fn blank_block() -> (b: BlockStats)
    ensures
        is_blank(b),
{
    let mut act_sum: Vec<u64> = Vec::new();
    let mut i: usize = 0;
    while i < BLOCK_SUMS
        invariant
            i <= 256,
            act_sum@ == Seq::new(i as nat, |i: int| 0u64),
        decreases 256 - i,
    {
        act_sum.push(0);
        assert(act_sum@ =~= Seq::new((i + 1) as nat, |i: int| 0u64));
        i = i + 1;
    }
    BlockStats { act_sum, count: 0 }
}

fn blank_tensor(n: usize) -> (t: TensorStats)
    ensures
        is_blank_tensor(t, n as int),
{
    let mut blocks: Vec<BlockStats> = Vec::new();
    let mut i: usize = 0;
    while i < n
        invariant
            i <= n,
            blocks@.len() == i,
            forall|k: int| 0 <= k < i ==> is_blank(#[trigger] blocks@[k]),
        decreases n - i,
    {
        blocks.push(blank_block());
        i = i + 1;
    }
    TensorStats { blocks }
}

fn blank_layer(r: &LayerRows, embed: usize, ffn: usize) -> (l: Vec<TensorStats>)
    requires
        layer_fits(*r, embed as int, ffn as int),
    ensures
        l@.len() == 7,
        forall|t: int|
            0 <= t < 7 ==> is_blank_tensor(
                #[trigger] l@[t],
                blocks_of(*r, embed as int, ffn as int, t),
            ),
{
    proof {
        assert(blocks_of(*r, embed as int, ffn as int, 0) <= usize::MAX);
        assert(blocks_of(*r, embed as int, ffn as int, 1) <= usize::MAX);
        assert(blocks_of(*r, embed as int, ffn as int, 2) <= usize::MAX);
        assert(blocks_of(*r, embed as int, ffn as int, 3) <= usize::MAX);
        assert(blocks_of(*r, embed as int, ffn as int, 4) <= usize::MAX);
        assert(blocks_of(*r, embed as int, ffn as int, 5) <= usize::MAX);
        assert(blocks_of(*r, embed as int, ffn as int, 6) <= usize::MAX);
    }
    let mut l: Vec<TensorStats> = Vec::new();
    l.push(blank_tensor(r.q * embed));
    l.push(blank_tensor(r.k * embed));
    l.push(blank_tensor(r.v * embed));
    l.push(blank_tensor(r.o * embed));
    l.push(blank_tensor(r.gate * embed));
    l.push(blank_tensor(r.up * embed));
    l.push(blank_tensor(r.down * ffn));
    l
}

impl QatCalibrator {
    /// Every layer has its seven matrices, and every block its sums.
    pub open spec fn wf(&self) -> bool {
        &&& forall|l: int|
            0 <= l < self.layer_stats@.len() ==> (#[trigger] self.layer_stats@[l])@.len() == 7
        &&& forall|l: int, t: int, b: int|
            self.has_block(l, t, b) ==> (#[trigger] self.block(l, t, b)).act_sum@.len()
                == BLOCK_SUMS
    }

    /// The statistics of a block exist.
    pub open spec fn has_block(&self, layer: int, t: int, b: int) -> bool {
        &&& 0 <= layer < self.layer_stats@.len()
        &&& 0 <= t < 7
        &&& 0 <= b < self.layer_stats@[layer]@[t].blocks@.len()
    }

    pub open spec fn block(&self, layer: int, t: int, b: int) -> BlockStats {
        self.layer_stats@[layer]@[t].blocks@[b]
    }

    /// Calibrates the first layers of a model, `max_layers` at most.
    pub fn new_with_layers(
        rows: &Vec<LayerRows>,
        max_layers: usize,
        n_blocks_embed: usize,
        n_blocks_ffn: usize,
    ) -> (c: Self)
        requires
            forall|l: int|
                0 <= l < rows@.len() ==> layer_fits(
                    #[trigger] rows@[l],
                    n_blocks_embed as int,
                    n_blocks_ffn as int,
                ),
        ensures
            c.wf(),
            c.n_blocks_embed == n_blocks_embed,
            c.n_blocks_ffn == n_blocks_ffn,
            c.layer_stats@.len() == (if max_layers < rows@.len() {
                max_layers as int
            } else {
                rows@.len() as int
            }),
            forall|l: int, t: int|
                0 <= l < c.layer_stats@.len() && 0 <= t < 7 ==> is_blank_tensor(
                    #[trigger] c.layer_stats@[l]@[t],
                    blocks_of(rows@[l], n_blocks_embed as int, n_blocks_ffn as int, t),
                ),
    {
        let n: usize = if max_layers < rows.len() {
            max_layers
        } else {
            rows.len()
        };
        let mut layer_stats: Vec<Vec<TensorStats>> = Vec::new();
        let mut l: usize = 0;
        while l < n
            invariant
                l <= n <= rows@.len(),
                layer_stats@.len() == l,
                forall|l: int|
                    0 <= l < rows@.len() ==> layer_fits(
                        #[trigger] rows@[l],
                        n_blocks_embed as int,
                        n_blocks_ffn as int,
                    ),
                forall|k: int| 0 <= k < l ==> (#[trigger] layer_stats@[k])@.len() == 7,
                forall|k: int, t: int|
                    0 <= k < l && 0 <= t < 7 ==> is_blank_tensor(
                        #[trigger] layer_stats@[k]@[t],
                        blocks_of(rows@[k], n_blocks_embed as int, n_blocks_ffn as int, t),
                    ),
            decreases n - l,
        {
            assert(layer_fits(rows@[l as int], n_blocks_embed as int, n_blocks_ffn as int));
            layer_stats.push(blank_layer(&rows[l], n_blocks_embed, n_blocks_ffn));
            l = l + 1;
        }
        QatCalibrator { layer_stats, n_blocks_embed, n_blocks_ffn }
    }

    /// The number of a block in its matrix.
    pub fn block_idx(row: usize, bc: usize, n_blocks_per_row: usize) -> (i: usize)
        requires
            row * n_blocks_per_row + bc <= usize::MAX,
            row * n_blocks_per_row <= usize::MAX,
        ensures
            i == row * n_blocks_per_row + bc,
    {
        row * n_blocks_per_row + bc
    }

    /// What was seen at a block, if there is one.
    pub fn stats(&self, layer: usize, tensor_idx: usize, block_idx: usize) -> (r: Option<&BlockStats>)
        requires
            self.wf(),
        ensures
            r is Some <==> self.has_block(layer as int, tensor_idx as int, block_idx as int),
            r matches Some(b) ==> *b == self.block(
                layer as int,
                tensor_idx as int,
                block_idx as int,
            ),
    {
        if layer >= self.layer_stats.len() || tensor_idx >= 7 {
            return None;
        }
        assert(self.layer_stats@[layer as int]@.len() == 7);
        let blocks = &self.layer_stats[layer][tensor_idx].blocks;
        if block_idx >= blocks.len() {
            return None;
        }
        Some(&blocks[block_idx])
    }

    /// Takes in the sums after one more activation; unknown blocks are passed
    /// over.
    pub fn record_activation(
        &mut self,
        layer: usize,
        tensor_idx: usize,
        block_idx: usize,
        sums: Vec<u64>,
    )
        requires
            old(self).wf(),
            sums@.len() == BLOCK_SUMS,
            old(self).has_block(layer as int, tensor_idx as int, block_idx as int) ==> old(self).block(
                layer as int,
                tensor_idx as int,
                block_idx as int,
            ).count < u64::MAX,
        ensures
            final(self).wf(),
            final(self).n_blocks_embed == old(self).n_blocks_embed,
            final(self).n_blocks_ffn == old(self).n_blocks_ffn,
            !old(self).has_block(layer as int, tensor_idx as int, block_idx as int) ==> *final(self)
                == *old(self),
            forall|l: int, t: int, b: int|
                #![trigger final(self).has_block(l, t, b)]
                final(self).has_block(l, t, b) == old(self).has_block(l, t, b),
            forall|l: int, t: int, b: int|
                #![trigger final(self).block(l, t, b)]
                old(self).has_block(l, t, b) ==> final(self).block(l, t, b) == (if l == layer && t
                    == tensor_idx && b == block_idx {
                    BlockStats {
                        act_sum: sums,
                        count: (old(self).block(l, t, b).count + 1) as u64,
                    }
                } else {
                    old(self).block(l, t, b)
                }),
    {
        if layer >= self.layer_stats.len() || tensor_idx >= 7 {
            return ;
        }
        assert(self.layer_stats@[layer as int]@.len() == 7);
        if block_idx >= self.layer_stats[layer][tensor_idx].blocks.len() {
            return ;
        }
        let count: u64 = self.layer_stats[layer][tensor_idx].blocks[block_idx].count + 1;
        self.layer_stats[layer][tensor_idx].blocks[block_idx] = BlockStats { act_sum: sums, count };
        proof {
            assert forall|l: int, t: int, b: int| self.has_block(l, t, b) implies (
            #[trigger] self.block(l, t, b)).act_sum@.len() == BLOCK_SUMS by {
                assert(old(self).has_block(l, t, b));
                if l != layer || t != tensor_idx || b != block_idx {
                    assert(self.block(l, t, b) == old(self).block(l, t, b));
                }
            }
        }
    }
}

/// Blocks among the first `n` of a matrix that lie in its data and have been
/// seen.
pub open spec fn seen_blocks(stats: Seq<BlockStats>, data_len: int, n: int) -> Seq<usize>
    decreases n,
{
    if n <= 0 {
        Seq::empty()
    } else if n * 144 <= data_len && n <= stats.len() && stats[n - 1].count >= 1 {
        seen_blocks(stats, data_len, n - 1).push((n - 1) as usize)
    } else {
        seen_blocks(stats, data_len, n - 1)
    }
}

/// The blocks of a matrix of `n_rows` rows that can be calibrated; block `i`
/// starts at byte 144 `i`.
fn blocks_to_fit(stats: &TensorStats, data_len: usize, n_rows: usize, n_blocks: usize) -> (r:
    Vec<usize>)
    requires
        n_rows * n_blocks * 144 <= usize::MAX,
        n_rows * n_blocks <= usize::MAX,
    ensures
        r@ == seen_blocks(stats.blocks@, data_len as int, n_rows * n_blocks),
{
    let total: usize = n_rows * n_blocks;
    let mut r: Vec<usize> = Vec::new();
    let mut i: usize = 0;
    while i < total
        invariant
            i <= total,
            total * 144 <= usize::MAX,
            r@ == seen_blocks(stats.blocks@, data_len as int, i as int),
        decreases total - i,
    {
        if (i + 1) * BLOCK_BYTES <= data_len && i < stats.blocks.len() && stats.blocks[i].count
            >= 1 {
            r.push(i);
        }
        i = i + 1;
    }
    r
}

/// A block that can be calibrated, and where it starts in the ring.
#[derive(Debug, Clone, Copy, PartialEq, Eq, Structural)]
pub struct RingBlock {
    pub tensor: usize,
    pub block: usize,
    pub offset: usize,
}

/// Where matrix `t` of a ring starts.
pub open spec fn tensor_start(r: RingView, t: int) -> int {
    if t == 0 {
        r.q_off as int
    } else if t == 1 {
        r.k_off as int
    } else if t == 2 {
        r.v_off as int
    } else if t == 3 {
        r.o_off as int
    } else if t == 4 {
        r.gate_off as int
    } else if t == 5 {
        r.up_off as int
    } else if t == 6 {
        r.down_off as int
    } else {
        r.ring@.len() as int
    }
}

pub open spec fn tensor_rows(r: RingView, t: int) -> int {
    if t == 0 {
        r.q_nr as int
    } else if t == 1 {
        r.k_nr as int
    } else if t == 2 {
        r.v_nr as int
    } else if t == 3 {
        r.o_nr as int
    } else if t == 4 {
        r.gate_nr as int
    } else if t == 5 {
        r.up_nr as int
    } else {
        r.down_nr as int
    }
}

impl QatCalibrator {
    /// Blocks per row of matrix `t`.
    pub open spec fn row_blocks(&self, t: int) -> int {
        if t == 6 {
            self.n_blocks_ffn as int
        } else {
            self.n_blocks_embed as int
        }
    }

    /// The blocks of matrix `t` that can be calibrated.
    pub open spec fn ring_blocks(&self, layer: int, r: RingView, t: int) -> Seq<RingBlock> {
        let seen = seen_blocks(
            self.layer_stats@[layer]@[t].blocks@,
            tensor_start(r, t + 1) - tensor_start(r, t),
            tensor_rows(r, t) * self.row_blocks(t),
        );
        Seq::new(
            seen.len(),
            |i: int|
                RingBlock {
                    tensor: t as usize,
                    block: seen[i],
                    offset: (tensor_start(r, t) + seen[i] * 144) as usize,
                },
        )
    }

    /// The blocks of the first `n` matrices that can be calibrated.
    pub open spec fn blocks_before(&self, layer: int, r: RingView, n: int) -> Seq<RingBlock>
        decreases n,
    {
        if n <= 0 {
            Seq::empty()
        } else {
            self.blocks_before(layer, r, n - 1) + self.ring_blocks(layer, r, n - 1)
        }
    }

    /// The blocks of a layer's ring whose scales are to be fitted; none for a
    /// layer that is not calibrated.
    pub fn apply_ring(&self, layer: usize, r: &RingView) -> (blocks: Vec<RingBlock>)
        requires
            self.wf(),
            r.wf(),
            forall|t: int|
                0 <= t < 7 ==> #[trigger] tensor_rows(*r, t) * self.row_blocks(t) * 144
                    <= usize::MAX,
        ensures
            blocks@ == (if layer < self.layer_stats@.len() {
                self.blocks_before(layer as int, *r, 7)
            } else {
                Seq::empty()
            }),
            forall|i: int|
                0 <= i < blocks@.len() ==> (#[trigger] blocks@[i]).offset + 144 <= r.ring@.len(),
    {
        let mut blocks: Vec<RingBlock> = Vec::new();
        if layer >= self.layer_stats.len() {
            assert(blocks@ =~= Seq::empty());
            return blocks;
        }
        let starts: [usize; 8] = [
            r.q_off,
            r.k_off,
            r.v_off,
            r.o_off,
            r.gate_off,
            r.up_off,
            r.down_off,
            r.ring.len(),
        ];
        let rows: [usize; 7] = [r.q_nr, r.k_nr, r.v_nr, r.o_nr, r.gate_nr, r.up_nr, r.down_nr];
        assert(self.layer_stats@[layer as int]@.len() == 7);
        let mut t: usize = 0;
        while t < 7
            invariant
                t <= 7,
                layer < self.layer_stats@.len(),
                self.layer_stats@[layer as int]@.len() == 7,
                r.wf(),
                forall|t: int|
                    0 <= t < 7 ==> #[trigger] tensor_rows(*r, t) * self.row_blocks(t) * 144
                        <= usize::MAX,
                forall|k: int| 0 <= k < 8 ==> (#[trigger] starts@[k]) == tensor_start(*r, k),
                forall|k: int| 0 <= k < 7 ==> (#[trigger] rows@[k]) == tensor_rows(*r, k),
                blocks@ == self.blocks_before(layer as int, *r, t as int),
                forall|i: int|
                    0 <= i < blocks@.len() ==> (#[trigger] blocks@[i]).offset + 144
                        <= r.ring@.len(),
            decreases 7 - t,
        {
            let start: usize = starts[t];
            let end: usize = starts[t + 1];
            let n_rows: usize = rows[t];
            let n_blocks: usize = if t == 6 {
                self.n_blocks_ffn
            } else {
                self.n_blocks_embed
            };
            proof {
                assert(tensor_rows(*r, t as int) * self.row_blocks(t as int) * 144 <= usize::MAX);
                assert(0 <= n_rows * n_blocks) by (nonlinear_arith)
                    requires
                        n_rows >= 0,
                        n_blocks >= 0,
                ;
                assert(start <= end <= r.ring@.len());
            }
            let stats = &self.layer_stats[layer][t];
            let seen = blocks_to_fit(stats, end - start, n_rows, n_blocks);
            let ghost before = blocks@;
            let ghost part = self.ring_blocks(layer as int, *r, t as int);
            proof {
                lemma_seen_fit(stats.blocks@, end - start, n_rows * n_blocks);
                assert(seen@.len() == part.len());
            }
            let mut i: usize = 0;
            assert(before + part.subrange(0, 0) =~= before);
            while i < seen.len()
                invariant
                    i <= seen@.len(),
                    t < 7,
                    start == tensor_start(*r, t as int),
                    start <= end <= r.ring@.len(),
                    part.len() == seen@.len(),
                    forall|k: int|
                        0 <= k < seen@.len() ==> (#[trigger] part[k]) == (RingBlock {
                            tensor: t,
                            block: seen@[k],
                            offset: (start + seen@[k] * 144) as usize,
                        }),
                    forall|k: int|
                        0 <= k < seen@.len() ==> (#[trigger] seen@[k]) * 144 + 144 <= end - start,
                    blocks@ == before + part.subrange(0, i as int),
                    forall|i: int|
                        0 <= i < blocks@.len() ==> (#[trigger] blocks@[i]).offset + 144
                            <= r.ring@.len(),
                decreases seen@.len() - i,
            {
                let block: usize = seen[i];
                assert(seen@[i as int] * 144 + 144 <= end - start);
                assert(r.ring.len() <= usize::MAX);
                blocks.push(RingBlock { tensor: t, block, offset: start + block * BLOCK_BYTES });
                proof {
                    assert(part[i as int].block == block);
                    assert(part.subrange(0, i + 1) =~= part.subrange(0, i as int).push(
                        part[i as int],
                    ));
                }
                i = i + 1;
            }
            assert(part.subrange(0, part.len() as int) =~= part);
            t = t + 1;
        }
        blocks
    }
}

proof fn lemma_seen_fit(stats: Seq<BlockStats>, data_len: int, n: int)
    requires
        n * 144 <= usize::MAX,
    ensures
        forall|k: int|
            0 <= k < seen_blocks(stats, data_len, n).len() ==> (#[trigger] seen_blocks(
                stats,
                data_len,
                n,
            )[k]) * 144 + 144 <= data_len,
    decreases n,
{
    if n > 0 {
        lemma_seen_fit(stats, data_len, n - 1);
        let before = seen_blocks(stats, data_len, n - 1);
        let after = seen_blocks(stats, data_len, n);
        assert forall|k: int| 0 <= k < after.len() implies (#[trigger] after[k]) * 144 + 144
            <= data_len by {
            if k < before.len() {
                assert(after[k] == before[k]);
            }
        }
    }
}

/// The first of the least of `n` errors that is below the largest double.
pub open spec fn least_error(errors: Seq<u64>, n: int) -> Option<int>
    decreases n,
{
    if n <= 0 {
        None
    } else {
        let before = least_error(errors, n - 1);
        let bar = match before {
            Some(i) => errors[i],
            None => LARGEST,
        };
        if less64(errors[n - 1], bar) {
            Some(n - 1)
        } else {
            before
        }
    }
}

/// Picks scale and minimum out of five each: `errors` lists the errors of all
/// pairs, and the middle pair stands where none is better.
pub fn pick_scales(errors: &Vec<u64>) -> (r: (usize, usize))
    requires
        errors@.len() == 25,
    ensures
        match least_error(errors@, 25) {
            Some(i) => r.0 == i / 5 && r.1 == i % 5,
            None => r == (2usize, 2usize),
        },
{
    let mut best: usize = 12;
    let mut bar: u64 = LARGEST;
    let mut i: usize = 0;
    while i < 25
        invariant
            i <= 25,
            errors@.len() == 25,
            match least_error(errors@, i as int) {
                Some(k) => best == k && 0 <= k < 25 && bar == errors@[k],
                None => best == 12 && bar == LARGEST,
            },
        decreases 25 - i,
    {
        if lt64(errors[i], bar) {
            best = i;
            bar = errors[i];
        }
        i = i + 1;
    }
    (best / 5, best % 5)
}

/// No pair has a smaller error than the one that is picked.
pub proof fn law_picked_error_is_least(errors: Seq<u64>, n: int, i: int)
    requires
        0 <= i < n <= errors.len(),
        less64(errors[i], LARGEST),
    ensures
        least_error(errors, n) matches Some(k) && 0 <= k < n && !less64(errors[i], errors[k]),
    decreases n,
{
    if i < n - 1 {
        law_picked_error_is_least(errors, n - 1, i);
    } else {
        lemma_least_error(errors, n - 1);
    }
}

proof fn lemma_least_error(errors: Seq<u64>, n: int)
    requires
        0 <= n <= errors.len(),
    ensures
        least_error(errors, n) matches Some(k) ==> 0 <= k < n && less64(errors[k], LARGEST),
    decreases n,
{
    if n > 0 {
        lemma_least_error(errors, n - 1);
    }
}

/// Writes a block's scale and minimum, halves, at a place in a ring.
pub fn write_scales(ring: &mut RingView, at: usize, d: u16, dmin: u16)
    requires
        at + 4 <= old(ring).ring@.len(),
    ensures
        *final(ring) == (RingView { ring: final(ring).ring, ..*old(ring) }),
        final(ring).ring@ == old(ring).ring@.update(at as int, (d % 256) as u8).update(
            at + 1,
            (d / 256) as u8,
        ).update(at + 2, (dmin % 256) as u8).update(at + 3, (dmin / 256) as u8),
{
    assert(ring.ring.len() <= usize::MAX);
    ring.ring.set(at, (d % 256) as u8);
    ring.ring.set(at + 1, (d / 256) as u8);
    ring.ring.set(at + 2, (dmin % 256) as u8);
    ring.ring.set(at + 3, (dmin / 256) as u8);
}

/// The blocks to fit are those that lie in their matrix's bytes, 144 for each, and were
/// seen at least once: all of them, in order.
pub proof fn law_seen_blocks_are_fitted(stats: Seq<BlockStats>, data_len: int, n: int, b: usize)
    requires
        0 <= n <= usize::MAX,
    ensures
        seen_blocks(stats, data_len, n).contains(b) <==> b < n && b < stats.len() && (b + 1) * 144
            <= data_len && stats[b as int].count > 0,
        forall|i: int, j: int|
            0 <= i < j < seen_blocks(stats, data_len, n).len() ==> (#[trigger] seen_blocks(
                stats,
                data_len,
                n,
            )[i]) < (#[trigger] seen_blocks(stats, data_len, n)[j]),
        forall|i: int|
            0 <= i < seen_blocks(stats, data_len, n).len() ==> (#[trigger] seen_blocks(
                stats,
                data_len,
                n,
            )[i]) < n,
    decreases n,
{
    if n > 0 {
        law_seen_blocks_are_fitted(stats, data_len, n - 1, b);
        let fewer = seen_blocks(stats, data_len, n - 1);
        let all = seen_blocks(stats, data_len, n);
        if fewer.contains(b) {
            let k = choose|k: int| 0 <= k < fewer.len() && fewer[k] == b;
            assert(all[k] == b);
        }
        if all.len() > fewer.len() {
            assert(all[fewer.len() as int] == (n - 1) as usize);
            assert forall|i: int, j: int| 0 <= i < j < all.len() implies (#[trigger] all[i]) < (
            #[trigger] all[j]) by {
                assert(all[i] == fewer[i]);
                if j < fewer.len() {
                    assert(all[j] == fewer[j]);
                }
            }
        }
    }
}

/// A block to fit starts 144 bytes behind the one before it, in the bytes of its own
/// matrix, and ends in them.
pub proof fn law_fitted_blocks_lie_in_their_matrix(
    c: QatCalibrator,
    layer: int,
    r: RingView,
    t: int,
    i: int,
)
    requires
        r.wf(),
        0 <= t < 7,
        0 <= tensor_rows(r, t) * c.row_blocks(t) * 144 <= usize::MAX,
        0 <= i < c.ring_blocks(layer, r, t).len(),
    ensures
        ({
            let starts = seq![
                r.q_off as int,
                r.k_off as int,
                r.v_off as int,
                r.o_off as int,
                r.gate_off as int,
                r.up_off as int,
                r.down_off as int,
                r.ring@.len() as int,
            ];
            let b = c.ring_blocks(layer, r, t)[i];
            &&& b.tensor == t
            &&& b.offset == starts[t] + 144 * b.block
            &&& b.offset + 144 <= starts[t + 1]
            &&& c.layer_stats@[layer]@[t].blocks@[b.block as int].count > 0
        }),
{
    let stats = c.layer_stats@[layer]@[t].blocks@;
    let len = tensor_start(r, t + 1) - tensor_start(r, t);
    let n = tensor_rows(r, t) * c.row_blocks(t);
    let seen = seen_blocks(stats, len, n);
    lemma_seen_fit(stats, len, n);
    assert(r.ring.len() <= usize::MAX);
    assert(r.ring.len() == r.ring@.len());
    assert(seen.contains(seen[i]));
    law_seen_blocks_are_fitted(stats, len, n, seen[i]);
}

/// The blocks of a matrix are its rows times the blocks of a row: those of the embedding
/// for six of the matrices, and those of the feed-forward part for the last.
pub proof fn law_matrices_have_their_blocks(r: LayerRows, embed: int, ffn: int, t: int)
    requires
        0 <= t < 7,
    ensures
        blocks_of(r, embed, ffn, t) == seq![r.q, r.k, r.v, r.o, r.gate, r.up, r.down][t] * (if t
            == 6 {
            ffn
        } else {
            embed
        }),
{
}

/// Of equally good pairs the first is picked.
pub proof fn law_first_of_the_least_is_picked(errors: Seq<u64>, n: int, i: int)
    requires
        0 <= n <= errors.len(),
        least_error(errors, n) is Some,
        0 <= i < least_error(errors, n)->0,
        less64(errors[i], LARGEST),
    ensures
        less64(errors[least_error(errors, n)->0], errors[i]),
    decreases n,
{
    lemma_least_error(errors, n);
    if least_error(errors, n)->0 < n - 1 {
        law_first_of_the_least_is_picked(errors, n - 1, i);
    } else {
        law_picked_error_is_least(errors, n - 1, i);
    }
}

/// The matrices of a ring are attention's four and the feed-forward part's three, in this
/// order, and the ring ends behind the last.
pub proof fn law_matrices_start_in_order(r: RingView, t: int)
    requires
        0 <= t <= 7,
    ensures
        tensor_start(r, t) == seq![
            r.q_off as int,
            r.k_off as int,
            r.v_off as int,
            r.o_off as int,
            r.gate_off as int,
            r.up_off as int,
            r.down_off as int,
            r.ring@.len() as int,
        ][t],
{
}

/// The rows of the matrices stand in the same order.
pub proof fn law_matrices_have_their_rows(r: RingView, t: int)
    requires
        0 <= t < 7,
    ensures
        tensor_rows(r, t) == seq![
            r.q_nr as int,
            r.k_nr as int,
            r.v_nr as int,
            r.o_nr as int,
            r.gate_nr as int,
            r.up_nr as int,
            r.down_nr as int,
        ][t],
{
}

/// Blank statistics have seen nothing: no count, and a sum of zero for each of the 256
/// activations of each block.
pub proof fn law_blank_statistics_saw_nothing(t: TensorStats, n: int, b: int, i: int)
    requires
        is_blank_tensor(t, n),
        0 <= b < n,
        0 <= i < 256,
    ensures
        t.blocks@.len() == n,
        t.blocks@[b].count == 0,
        t.blocks@[b].act_sum@.len() == 256,
        t.blocks@[b].act_sum@[i] == 0,
{
    assert(is_blank(t.blocks@[b]));
}

} // verus!
