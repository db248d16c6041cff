//! A model's weights: one contiguous ring per layer, and the layers that share
//! their weights.

use crate::text::same_bytes;
use vstd::prelude::*;

verus! {

/// Values per block of weights.
pub const BLOCK_VALUES: usize = 256;

/// Rings end on a cache line.
pub const RING_ALIGN: usize = 64;

/// Used when a model file lists no tokens.
pub const DEFAULT_VOCAB: usize = 32000;

pub struct ModelConfig {
    pub architecture: String,
    pub num_layers: usize,
    pub num_heads: usize,
    pub num_kv_heads: usize,
    pub embed_dim: usize,
    pub context_len: usize,
    pub vocab_size: usize,
    /// A single, as a bit pattern.
    pub rope_freq_base: u32,
    pub rope_dim: usize,
}

/// How weights are packed.
#[derive(Debug, Clone, Copy, PartialEq, Eq, Structural)]
pub enum WeightType {
    Q4K,
    Q6K,
    /// Anything else is unpacked before use.
    Other,
}

/// Bytes per block of weights.
pub open spec fn block_bytes(dtype: WeightType) -> usize {
    if dtype == WeightType::Q6K {
        210
    } else {
        144
    }
}

pub fn block_size_for_dtype(dtype: WeightType) -> (n: usize)
    ensures
        n == block_bytes(dtype),
{
    match dtype {
        WeightType::Q4K => 144,
        WeightType::Q6K => 210,
        WeightType::Other => 144,
    }
}

/// One of a layer's weight matrices.
pub struct RingPart {
    /// Output dimension.
    pub n_rows: usize,
    /// Input dimension.
    pub n_cols: usize,
    pub dtype: WeightType,
    pub data: Vec<u8>,
}

pub open spec fn part_data(parts: Seq<RingPart>) -> Seq<Seq<u8>> {
    Seq::new(parts.len(), |i: int| parts[i].data@)
}

/// The first `n` pieces, one after the other.
pub open spec fn joined(pieces: Seq<Seq<u8>>, n: int) -> Seq<u8>
    decreases n,
{
    if n <= 0 {
        Seq::empty()
    } else {
        joined(pieces, n - 1) + pieces[n - 1]
    }
}

/// Zeros that take a length to the next multiple of the alignment.
pub open spec fn padding(len: int) -> Seq<u8> {
    Seq::new(((64 - len % 64) % 64) as nat, |i: int| 0u8)
}

/// A layer's weights, in the order query, key, value, output, gate, up, down.
pub struct RingView {
    pub ring: Vec<u8>,
    pub q_off: usize,
    pub q_nr: usize,
    pub q_nc: usize,
    pub q_bs: usize,
    pub k_off: usize,
    pub k_nr: usize,
    pub k_nc: usize,
    pub k_bs: usize,
    pub v_off: usize,
    pub v_nr: usize,
    pub v_nc: usize,
    pub v_bs: usize,
    pub o_off: usize,
    pub o_nr: usize,
    pub o_nc: usize,
    pub o_bs: usize,
    pub gate_off: usize,
    pub gate_nr: usize,
    pub gate_nc: usize,
    pub gate_bs: usize,
    pub up_off: usize,
    pub up_nr: usize,
    pub up_nc: usize,
    pub up_bs: usize,
    pub down_off: usize,
    pub down_nr: usize,
    pub down_nc: usize,
    pub down_bs: usize,
    pub q_row_stride: usize,
    pub k_row_stride: usize,
    pub v_row_stride: usize,
    pub o_row_stride: usize,
    pub gate_row_stride: usize,
    pub up_row_stride: usize,
    pub down_row_stride: usize,
}

/// Place, extents, block size and row stride of one matrix are those of a part.
pub open spec fn holds_part(
    parts: Seq<RingPart>,
    i: int,
    off: usize,
    nr: usize,
    nc: usize,
    bs: usize,
    stride: usize,
) -> bool {
    &&& off == joined(part_data(parts), i).len()
    &&& nr == parts[i].n_rows
    &&& nc == parts[i].n_cols
    &&& bs == block_bytes(parts[i].dtype)
    &&& stride == (nc / BLOCK_VALUES) * bs
}

impl RingView {
    /// The offsets ascend and stay in the ring.
    pub open spec fn wf(&self) -> bool {
        &&& self.q_off <= self.k_off <= self.v_off <= self.o_off <= self.gate_off <= self.up_off
            <= self.down_off <= self.ring@.len()
    }

    /// The ring holds these matrices.
    pub open spec fn holds(&self, parts: Seq<RingPart>) -> bool {
        &&& self.ring@ == joined(part_data(parts), 7) + padding(
            joined(part_data(parts), 7).len() as int,
        )
        &&& holds_part(parts, 0, self.q_off, self.q_nr, self.q_nc, self.q_bs, self.q_row_stride)
        &&& holds_part(parts, 1, self.k_off, self.k_nr, self.k_nc, self.k_bs, self.k_row_stride)
        &&& holds_part(parts, 2, self.v_off, self.v_nr, self.v_nc, self.v_bs, self.v_row_stride)
        &&& holds_part(parts, 3, self.o_off, self.o_nr, self.o_nc, self.o_bs, self.o_row_stride)
        &&& holds_part(
            parts,
            4,
            self.gate_off,
            self.gate_nr,
            self.gate_nc,
            self.gate_bs,
            self.gate_row_stride,
        )
        &&& holds_part(
            parts,
            5,
            self.up_off,
            self.up_nr,
            self.up_nc,
            self.up_bs,
            self.up_row_stride,
        )
        &&& holds_part(
            parts,
            6,
            self.down_off,
            self.down_nr,
            self.down_nc,
            self.down_bs,
            self.down_row_stride,
        )
    }

    pub fn q_slice(&self) -> (s: &[u8])
        requires
            self.wf(),
        ensures
            s@ == self.ring@.subrange(self.q_off as int, self.k_off as int),
    {
        vstd::slice::slice_subrange(self.ring.as_slice(), self.q_off, self.k_off)
    }

    pub fn k_slice(&self) -> (s: &[u8])
        requires
            self.wf(),
        ensures
            s@ == self.ring@.subrange(self.k_off as int, self.v_off as int),
    {
        vstd::slice::slice_subrange(self.ring.as_slice(), self.k_off, self.v_off)
    }

    pub fn v_slice(&self) -> (s: &[u8])
        requires
            self.wf(),
        ensures
            s@ == self.ring@.subrange(self.v_off as int, self.o_off as int),
    {
        vstd::slice::slice_subrange(self.ring.as_slice(), self.v_off, self.o_off)
    }

    pub fn o_slice(&self) -> (s: &[u8])
        requires
            self.wf(),
        ensures
            s@ == self.ring@.subrange(self.o_off as int, self.gate_off as int),
    {
        vstd::slice::slice_subrange(self.ring.as_slice(), self.o_off, self.gate_off)
    }

    pub fn gate_slice(&self) -> (s: &[u8])
        requires
            self.wf(),
        ensures
            s@ == self.ring@.subrange(self.gate_off as int, self.up_off as int),
    {
        vstd::slice::slice_subrange(self.ring.as_slice(), self.gate_off, self.up_off)
    }

    pub fn up_slice(&self) -> (s: &[u8])
        requires
            self.wf(),
        ensures
            s@ == self.ring@.subrange(self.up_off as int, self.down_off as int),
    {
        vstd::slice::slice_subrange(self.ring.as_slice(), self.up_off, self.down_off)
    }

    /// The last matrix, with the padding behind it.
    pub fn down_slice(&self) -> (s: &[u8])
        requires
            self.wf(),
        ensures
            s@ == self.ring@.subrange(self.down_off as int, self.ring@.len() as int),
    {
        vstd::slice::slice_subrange(self.ring.as_slice(), self.down_off, self.ring.len())
    }
}

fn row_stride(part: &RingPart) -> (n: usize)
    requires
        (part.n_cols / BLOCK_VALUES) * block_bytes(part.dtype) <= usize::MAX,
    ensures
        n == (part.n_cols / BLOCK_VALUES) * block_bytes(part.dtype),
{
    let blocks: usize = part.n_cols / BLOCK_VALUES;
    match part.dtype {
        WeightType::Q6K => blocks * 210,
        _ => blocks * 144,
    }
}

proof fn lemma_joined_grows(pieces: Seq<Seq<u8>>, i: int, j: int)
    requires
        0 <= i <= j <= pieces.len(),
    ensures
        joined(pieces, i).len() <= joined(pieces, j).len(),
        joined(pieces, i) == joined(pieces, j).subrange(0, joined(pieces, i).len() as int),
    decreases j - i,
{
    if i < j {
        lemma_joined_grows(pieces, i, j - 1);
        let n = joined(pieces, i).len() as int;
        assert(joined(pieces, j).subrange(0, n) =~= joined(pieces, j - 1).subrange(0, n));
    } else {
        assert(joined(pieces, j).subrange(0, joined(pieces, j).len() as int) =~= joined(pieces, j));
    }
}

/// Lays a layer's seven matrices out in one ring.
pub fn build_layer_ring(parts: &Vec<RingPart>) -> (r: RingView)
    requires
        parts@.len() == 7,
        joined(part_data(parts@), 7).len() + 63 <= usize::MAX,
        forall|i: int|
            0 <= i < 7 ==> ((#[trigger] parts@[i]).n_cols / BLOCK_VALUES) * block_bytes(
                parts@[i].dtype,
            ) <= usize::MAX,
    ensures
        r.wf(),
        r.holds(parts@),
        r.ring@.len() % 64 == 0,
{
    let ghost pieces = part_data(parts@);
    let mut ring: Vec<u8> = Vec::new();
    let mut offsets: Vec<usize> = Vec::new();
    let mut i: usize = 0;
    while i < 7
        invariant
            i <= 7,
            parts@.len() == 7,
            pieces == part_data(parts@),
            ring@ == joined(pieces, i as int),
            offsets@.len() == i,
            forall|j: int|
                0 <= j < i ==> (#[trigger] offsets@[j]) == joined(pieces, j).len(),
        decreases 7 - i,
    {
        offsets.push(ring.len());
        let mut j: usize = 0;
        let ghost before = ring@;
        while j < parts[i as usize].data.len()
            invariant
                i < 7,
                parts@.len() == 7,
                j <= parts@[i as int].data@.len(),
                ring@ == before + parts@[i as int].data@.subrange(0, j as int),
            decreases parts@[i as int].data@.len() - j,
        {
            ring.push(parts[i].data[j]);
            proof {
                let d = parts@[i as int].data@;
                assert(d.subrange(0, j + 1) =~= d.subrange(0, j as int).push(d[j as int]));
            }
            j = j + 1;
        }
        proof {
            let d = parts@[i as int].data@;
            assert(d.subrange(0, d.len() as int) =~= d);
            assert(pieces[i as int] == d);
        }
        i = i + 1;
    }
    let ghost full = ring@;
    assert(full + Seq::new(0nat, |k: int| 0u8) =~= full);
    let ghost mut added: nat = 0;
    while ring.len() % RING_ALIGN != 0
        invariant
            ring@ == full + Seq::new(added, |k: int| 0u8),
            full.len() + 63 <= usize::MAX,
            added <= (64 - full.len() as int % 64) % 64,
        decreases 64 - added,
    {
        ring.push(0);
        proof {
            assert(Seq::new(added + 1, |k: int| 0u8) =~= Seq::new(added, |k: int| 0u8).push(0u8));
            added = added + 1;
        }
    }
    proof {
        assert(Seq::new(added, |k: int| 0u8) =~= padding(full.len() as int));
        lemma_joined_grows(pieces, 0, 1);
        lemma_joined_grows(pieces, 1, 2);
        lemma_joined_grows(pieces, 2, 3);
        lemma_joined_grows(pieces, 3, 4);
        lemma_joined_grows(pieces, 4, 5);
        lemma_joined_grows(pieces, 5, 6);
        lemma_joined_grows(pieces, 6, 7);
    }
    RingView {
        ring,
        q_off: offsets[0],
        q_nr: parts[0].n_rows,
        q_nc: parts[0].n_cols,
        q_bs: block_size_for_dtype(parts[0].dtype),
        k_off: offsets[1],
        k_nr: parts[1].n_rows,
        k_nc: parts[1].n_cols,
        k_bs: block_size_for_dtype(parts[1].dtype),
        v_off: offsets[2],
        v_nr: parts[2].n_rows,
        v_nc: parts[2].n_cols,
        v_bs: block_size_for_dtype(parts[2].dtype),
        o_off: offsets[3],
        o_nr: parts[3].n_rows,
        o_nc: parts[3].n_cols,
        o_bs: block_size_for_dtype(parts[3].dtype),
        gate_off: offsets[4],
        gate_nr: parts[4].n_rows,
        gate_nc: parts[4].n_cols,
        gate_bs: block_size_for_dtype(parts[4].dtype),
        up_off: offsets[5],
        up_nr: parts[5].n_rows,
        up_nc: parts[5].n_cols,
        up_bs: block_size_for_dtype(parts[5].dtype),
        down_off: offsets[6],
        down_nr: parts[6].n_rows,
        down_nc: parts[6].n_cols,
        down_bs: block_size_for_dtype(parts[6].dtype),
        q_row_stride: row_stride(&parts[0]),
        k_row_stride: row_stride(&parts[1]),
        v_row_stride: row_stride(&parts[2]),
        o_row_stride: row_stride(&parts[3]),
        gate_row_stride: row_stride(&parts[4]),
        up_row_stride: row_stride(&parts[5]),
        down_row_stride: row_stride(&parts[6]),
    }
}

/// Each matrix reads back from the ring as it was put in; the last one with the
/// padding behind it.
pub proof fn law_ring_reads_back(r: RingView, parts: Seq<RingPart>)
    requires
        r.wf(),
        r.holds(parts),
        parts.len() == 7,
    ensures
        r.ring@.subrange(r.q_off as int, r.k_off as int) == parts[0].data@,
        r.ring@.subrange(r.k_off as int, r.v_off as int) == parts[1].data@,
        r.ring@.subrange(r.v_off as int, r.o_off as int) == parts[2].data@,
        r.ring@.subrange(r.o_off as int, r.gate_off as int) == parts[3].data@,
        r.ring@.subrange(r.gate_off as int, r.up_off as int) == parts[4].data@,
        r.ring@.subrange(r.up_off as int, r.down_off as int) == parts[5].data@,
        r.ring@.subrange(r.down_off as int, r.ring@.len() as int) == parts[6].data@ + padding(
            joined(part_data(parts), 7).len() as int,
        ),
{
    let pieces = part_data(parts);
    lemma_piece_reads_back(r.ring@, pieces, 0);
    lemma_piece_reads_back(r.ring@, pieces, 1);
    lemma_piece_reads_back(r.ring@, pieces, 2);
    lemma_piece_reads_back(r.ring@, pieces, 3);
    lemma_piece_reads_back(r.ring@, pieces, 4);
    lemma_piece_reads_back(r.ring@, pieces, 5);
    lemma_piece_reads_back(r.ring@, pieces, 6);
    let all = joined(pieces, 7);
    let down = r.ring@.subrange(r.down_off as int, r.ring@.len() as int);
    assert(down =~= r.ring@.subrange(r.down_off as int, all.len() as int) + padding(
        all.len() as int,
    ));
}

proof fn lemma_piece_reads_back(ring: Seq<u8>, pieces: Seq<Seq<u8>>, i: int)
    requires
        pieces.len() == 7,
        0 <= i < 7,
        ring == joined(pieces, 7) + padding(joined(pieces, 7).len() as int),
    ensures
        ring.subrange(joined(pieces, i).len() as int, joined(pieces, i + 1).len() as int)
            == pieces[i],
{
    lemma_joined_grows(pieces, i + 1, 7);
    let a = joined(pieces, i).len() as int;
    let b = joined(pieces, i + 1).len() as int;
    assert(joined(pieces, i + 1) == joined(pieces, i) + pieces[i]);
    assert(b <= joined(pieces, 7).len());
    assert forall|k: int| a <= k < b implies #[trigger] ring[k] == pieces[i][k - a] by {
        assert(ring[k] == joined(pieces, 7)[k]);
        assert(joined(pieces, 7).subrange(0, b)[k] == joined(pieces, 7)[k]);
        assert(joined(pieces, i + 1)[k] == pieces[i][k - a]);
    }
    assert(ring.subrange(a, b) =~= pieces[i]);
}

/// Consecutive layers with the same weights, in order.
pub type LayerGroup = Vec<usize>;

pub open spec fn group_views(g: Seq<LayerGroup>) -> Seq<Seq<usize>> {
    Seq::new(g.len(), |i: int| g[i]@)
}

/// Layer `n` behind the layers before it: in their last group if the weights are
/// the same, in a group of its own otherwise.
pub open spec fn groups_before(rings: Seq<Seq<u8>>, n: int) -> Seq<Seq<usize>>
    decreases n,
{
    if n <= 0 {
        Seq::empty()
    } else if n == 1 || rings[n - 1] != rings[n - 2] {
        groups_before(rings, n - 1).push(seq![(n - 1) as usize])
    } else {
        let before = groups_before(rings, n - 1);
        before.drop_last().push(before.last().push((n - 1) as usize))
    }
}

pub open spec fn ring_bytes(rings: Seq<RingView>) -> Seq<Seq<u8>> {
    Seq::new(rings.len(), |i: int| rings[i].ring@)
}

proof fn lemma_groups_exist(rings: Seq<Seq<u8>>, n: int)
    ensures
        n >= 1 ==> groups_before(rings, n).len() >= 1,
    decreases n,
{
    if n > 1 {
        lemma_groups_exist(rings, n - 1);
    }
}

/// Groups the layers that share all their weights with the layer before.
pub fn detect_weight_groups(layer_rings: &Vec<RingView>, num_layers: usize) -> (groups: Vec<
    LayerGroup,
>)
    requires
        num_layers <= layer_rings@.len(),
    ensures
        group_views(groups@) == groups_before(ring_bytes(layer_rings@), num_layers as int),
{
    let ghost rings = ring_bytes(layer_rings@);
    let mut groups: Vec<LayerGroup> = Vec::new();
    if num_layers == 0 {
        assert(group_views(groups@) =~= groups_before(rings, 0));
        return groups;
    }
    let mut current: LayerGroup = Vec::new();
    current.push(0);
    let mut l: usize = 1;
    assert(groups_before(rings, 0) =~= Seq::<Seq<usize>>::empty());
    assert(current@ =~= seq![0usize]);
    assert(group_views(groups@).push(current@) =~= groups_before(rings, 1));
    while l < num_layers
        invariant
            1 <= l <= num_layers <= layer_rings@.len(),
            rings == ring_bytes(layer_rings@),
            group_views(groups@).push(current@) == groups_before(rings, l as int),
        decreases num_layers - l,
    {
        let same: bool = layer_rings[l - 1].ring.len() == layer_rings[l].ring.len() && same_bytes(
            layer_rings[l - 1].ring.as_slice(),
            layer_rings[l].ring.as_slice(),
        );
        proof {
            let before = groups_before(rings, l as int);
            assert(before.drop_last() =~= group_views(groups@));
            assert(before.last() == current@);
            assert(rings[l - 1] == layer_rings@[l - 1].ring@);
            assert(rings[l as int] == layer_rings@[l as int].ring@);
        }
        if same {
            current.push(l);
            assert(group_views(groups@).push(current@) =~= groups_before(rings, l + 1));
        } else {
            let ghost before = group_views(groups@);
            let ghost done = current@;
            groups.push(current);
            assert(group_views(groups@) =~= before.push(done));
            current = Vec::new();
            current.push(l);
            assert(current@ =~= seq![l]);
            assert(group_views(groups@).push(current@) =~= groups_before(rings, l + 1));
        }
        l = l + 1;
    }
    let ghost before = group_views(groups@);
    let ghost done = current@;
    groups.push(current);
    assert(group_views(groups@) =~= before.push(done));
    groups
}

/// All members of the groups, in order.
pub open spec fn flat(groups: Seq<Seq<usize>>, n: int) -> Seq<usize>
    decreases n,
{
    if n <= 0 {
        Seq::empty()
    } else {
        flat(groups, n - 1) + groups[n - 1]
    }
}

proof fn lemma_flat_prefix(a: Seq<Seq<usize>>, b: Seq<Seq<usize>>, n: int)
    requires
        n <= a.len(),
        n <= b.len(),
        forall|i: int| 0 <= i < n ==> a[i] == b[i],
    ensures
        flat(a, n) == flat(b, n),
    decreases n,
{
    if n > 0 {
        lemma_flat_prefix(a, b, n - 1);
    }
}

/// The groups list every layer once, in order.
pub proof fn law_groups_cover_layers(rings: Seq<Seq<u8>>, n: int)
    requires
        0 <= n <= rings.len(),
        n <= usize::MAX,
    ensures
        flat(groups_before(rings, n), groups_before(rings, n).len() as int) == Seq::new(
            n as nat,
            |i: int| i as usize,
        ),
    decreases n,
{
    let all = Seq::new(n as nat, |i: int| i as usize);
    let g = groups_before(rings, n);
    if n == 0 {
        assert(flat(g, 0) =~= all);
    } else {
        law_groups_cover_layers(rings, n - 1);
        let before = groups_before(rings, n - 1);
        let fewer = Seq::new((n - 1) as nat, |i: int| i as usize);
        if n == 1 || rings[n - 1] != rings[n - 2] {
            lemma_flat_prefix(before, g, before.len() as int);
            assert(flat(g, g.len() as int) =~= flat(before, before.len() as int) + seq![
                (n - 1) as usize,
            ]);
        } else {
            lemma_groups_exist(rings, n - 1);
            let m = before.len() - 1;
            lemma_flat_prefix(before, g, m);
            assert(flat(g, g.len() as int) == flat(g, m) + g[m]);
            assert(flat(before, before.len() as int) == flat(before, m) + before[m]);
            assert(g[m] == before[m].push((n - 1) as usize));
            assert(flat(g, g.len() as int) =~= flat(before, before.len() as int) + seq![
                (n - 1) as usize,
            ]);
        }
        assert(all =~= fewer + seq![(n - 1) as usize]);
    }
}

/// All layers of a group have the weights of its first, and no group is empty.
pub proof fn law_groups_share_weights(rings: Seq<Seq<u8>>, n: int)
    requires
        0 <= n <= rings.len(),
        n <= usize::MAX,
    ensures
        forall|g: int|
            0 <= g < groups_before(rings, n).len() ==> (#[trigger] groups_before(
                rings,
                n,
            )[g]).len() >= 1,
        forall|g: int, i: int|
            0 <= g < groups_before(rings, n).len() && 0 <= i < groups_before(rings, n)[g].len()
                ==> {
                &&& (#[trigger] groups_before(rings, n)[g][i]) < n
                &&& rings[groups_before(rings, n)[g][i] as int] == rings[groups_before(
                    rings,
                    n,
                )[g][0] as int]
            },
        n >= 1 ==> groups_before(rings, n).last().last() == n - 1,
    decreases n,
{
    if n > 0 {
        law_groups_share_weights(rings, n - 1);
        lemma_groups_exist(rings, n);
        let before = groups_before(rings, n - 1);
        let after = groups_before(rings, n);
        let m = after.len() - 1;
        assert(forall|g: int| 0 <= g < m ==> after[g] == before[g]);
        assert forall|g: int, i: int|
            0 <= g < after.len() && 0 <= i < after[g].len() implies (#[trigger] after[g][i]) < n
            && rings[after[g][i] as int] == rings[after[g][0] as int] by {
            if g < m {
                assert(before[g][i] < n - 1);
            } else if n == 1 || rings[n - 1] != rings[n - 2] {
                assert(after[g] == seq![(n - 1) as usize]);
            } else {
                lemma_groups_exist(rings, n - 1);
                assert(after[g] == before[m].push((n - 1) as usize));
                let last = before[m];
                assert(last[last.len() - 1] == n - 2);
                if i < last.len() {
                    assert(before[m][i] < n - 1);
                } else {
                    assert(before[m][last.len() - 1] < n - 1);
                }
            }
        }
    }
}

/// Tokens a model knows.
pub fn vocab_size_of(listed: Option<usize>) -> (n: usize)
    ensures
        n == (match listed {
            Some(k) => k,
            None => DEFAULT_VOCAB,
        }),
{
    match listed {
        Some(k) => k,
        None => DEFAULT_VOCAB,
    }
}

/// Bytes touched ahead of building rings of `total` bytes.
pub fn pre_alloc_size(total: usize) -> (n: usize)
    requires
        total + 67_108_864 <= usize::MAX,
    ensures
        n == (if total + 67_108_864 < 536_870_912 {
            536_870_912
        } else {
            total + 67_108_864
        }),
{
    let n: usize = total + 67_108_864;
    if n < 536_870_912 {
        536_870_912
    } else {
        n
    }
}

/// Layers of groups with more than one member, among the first `n` groups.
pub open spec fn shared_layers(groups: Seq<Seq<usize>>, n: int) -> int
    decreases n,
{
    if n <= 0 {
        0
    } else {
        shared_layers(groups, n - 1) + (if groups[n - 1].len() > 1 {
            groups[n - 1].len() as int
        } else {
            0
        })
    }
}

/// Groups with more than one member, among the first `n`.
pub open spec fn shared_groups(groups: Seq<Seq<usize>>, n: int) -> int
    decreases n,
{
    if n <= 0 {
        0
    } else {
        shared_groups(groups, n - 1) + (if groups[n - 1].len() > 1 {
            1int
        } else {
            0int
        })
    }
}

/// How many layers share weights, and in how many groups.
pub fn count_sharing(groups: &Vec<LayerGroup>) -> (r: (usize, usize))
    requires
        shared_layers(group_views(groups@), groups@.len() as int) <= usize::MAX,
    ensures
        r.0 == shared_layers(group_views(groups@), groups@.len() as int),
        r.1 == shared_groups(group_views(groups@), groups@.len() as int),
{
    let ghost g = group_views(groups@);
    let mut layers: usize = 0;
    let mut count: usize = 0;
    let mut i: usize = 0;
    while i < groups.len()
        invariant
            i <= groups@.len(),
            g == group_views(groups@),
            layers == shared_layers(g, i as int),
            count == shared_groups(g, i as int),
            count <= i,
            shared_layers(g, groups@.len() as int) <= usize::MAX,
        decreases groups@.len() - i,
    {
        proof {
            lemma_shared_grows(g, i + 1, groups@.len() as int);
            assert(g[i as int] == groups@[i as int]@);
        }
        if groups[i].len() > 1 {
            layers = layers + groups[i].len();
            count = count + 1;
        }
        i = i + 1;
    }
    (layers, count)
}

proof fn lemma_shared_grows(g: Seq<Seq<usize>>, i: int, j: int)
    requires
        0 <= i <= j,
    ensures
        shared_layers(g, i) <= shared_layers(g, j),
    decreases j - i,
{
    if i < j {
        lemma_shared_grows(g, i, j - 1);
    }
}

/// Neighbouring layers are in one group exactly if their weights are the same.
pub proof fn law_same_weights_make_a_group(rings: Seq<Seq<u8>>, n: int, i: int)
    requires
        0 < i < n <= rings.len(),
        n <= usize::MAX,
    ensures
        rings[i] == rings[i - 1] <==> exists|g: int|
            0 <= g < groups_before(rings, n).len() && (#[trigger] groups_before(rings, n)[g]).contains(
                i as usize,
            ) && groups_before(rings, n)[g].contains((i - 1) as usize),
{
    law_groups_share_weights(rings, n);
    let all = groups_before(rings, n);
    if rings[i] == rings[i - 1] {
        let g = lemma_neighbours_together(rings, n, i);
        assert(all[g].contains(i as usize));
    }
    if exists|g: int|
        0 <= g < all.len() && (#[trigger] all[g]).contains(i as usize) && all[g].contains(
            (i - 1) as usize,
        ) {
        let g = choose|g: int|
            0 <= g < all.len() && (#[trigger] all[g]).contains(i as usize) && all[g].contains(
                (i - 1) as usize,
            );
        let a = choose|a: int| 0 <= a < all[g].len() && all[g][a] == i as usize;
        let b = choose|b: int| 0 <= b < all[g].len() && all[g][b] == (i - 1) as usize;
        assert(rings[all[g][a] as int] == rings[all[g][0] as int]);
        assert(rings[all[g][b] as int] == rings[all[g][0] as int]);
    }
}

proof fn lemma_neighbours_together(rings: Seq<Seq<u8>>, n: int, i: int) -> (g: int)
    requires
        0 < i < n <= rings.len(),
        n <= usize::MAX,
        rings[i] == rings[i - 1],
    ensures
        0 <= g < groups_before(rings, n).len(),
        groups_before(rings, n)[g].contains(i as usize),
        groups_before(rings, n)[g].contains((i - 1) as usize),
    decreases n,
{
    let all = groups_before(rings, n);
    let before = groups_before(rings, n - 1);
    lemma_groups_exist(rings, n - 1);
    if i == n - 1 {
        law_groups_share_weights(rings, n - 1);
        let last = before.last();
        assert(last.last() == (n - 2) as usize);
        let grown = all.last();
        assert(grown == last.push((n - 1) as usize));
        assert(grown[last.len() as int] == i as usize);
        assert(grown[last.len() - 1] == (i - 1) as usize);
        all.len() - 1
    } else {
        let g = lemma_neighbours_together(rings, n - 1, i);
        if rings[n - 1] == rings[n - 2] && g == before.len() - 1 {
            let grown = before[g].push((n - 1) as usize);
            assert(all[g] == grown);
            let a = choose|a: int| 0 <= a < before[g].len() && before[g][a] == i as usize;
            let b = choose|b: int| 0 <= b < before[g].len() && before[g][b] == (i - 1) as usize;
            assert(grown[a] == i as usize);
            assert(grown[b] == (i - 1) as usize);
        } else {
            assert(all[g] == before[g]);
        }
        g
    }
}

/// A ring knows the rows and columns of each matrix, and how many bytes a row takes: 144
/// for each 256 columns with four bits per weight, 210 with six.
pub proof fn law_ring_knows_its_matrices(r: RingView, parts: Seq<RingPart>)
    requires
        r.holds(parts),
        parts.len() == 7,
    ensures
        ({
            let rows = seq![r.q_nr, r.k_nr, r.v_nr, r.o_nr, r.gate_nr, r.up_nr, r.down_nr];
            let cols = seq![r.q_nc, r.k_nc, r.v_nc, r.o_nc, r.gate_nc, r.up_nc, r.down_nc];
            let strides = seq![
                r.q_row_stride,
                r.k_row_stride,
                r.v_row_stride,
                r.o_row_stride,
                r.gate_row_stride,
                r.up_row_stride,
                r.down_row_stride,
            ];
            forall|i: int|
                0 <= i < 7 ==> rows[i] == (#[trigger] parts[i]).n_rows && cols[i]
                    == parts[i].n_cols && strides[i] == (parts[i].n_cols as int / 256) * (
                if parts[i].dtype == WeightType::Q6K {
                    210int
                } else {
                    144int
                })
        }),
{
}

/// Groups with one member.
pub open spec fn lone_layers(groups: Seq<Seq<usize>>, n: int) -> int
    decreases n,
{
    if n <= 0 {
        0
    } else {
        lone_layers(groups, n - 1) + (if groups[n - 1].len() == 1 {
            1int
        } else {
            0int
        })
    }
}

/// A layer shares its weights unless it is alone in its group, and so does a group.
pub proof fn law_sharing_leaves_out_lone_layers(groups: Seq<Seq<usize>>, n: int)
    requires
        0 <= n <= groups.len(),
        forall|i: int| 0 <= i < n ==> (#[trigger] groups[i]).len() > 0,
    ensures
        shared_layers(groups, n) + lone_layers(groups, n) == flat(groups, n).len(),
        shared_groups(groups, n) + lone_layers(groups, n) == n,
    decreases n,
{
    if n > 0 {
        law_sharing_leaves_out_lone_layers(groups, n - 1);
    }
}

/// Blocks of 256 four-bit weights take 144 bytes, of six-bit weights 210.
pub proof fn law_blocks_have_their_bytes(dtype: WeightType)
    ensures
        dtype is Q6K ==> block_bytes(dtype) == 256 * 6 / 8 + 16 + 2,
        !(dtype is Q6K) ==> block_bytes(dtype) == 256 * 4 / 8 + 12 + 4,
{
}

/// Padding takes a length to a multiple of 64 with fewer than 64 zeros.
pub proof fn law_padding_fills_the_line(len: int, i: int)
    requires
        0 <= len,
        0 <= i < padding(len).len(),
    ensures
        padding(len)[i] == 0,
        padding(len).len() < 64,
        (len + padding(len).len()) % 64 == 0,
{
}

/// A length that is a multiple of 64 needs no padding, and only such a length.
pub proof fn law_full_lines_need_no_padding(len: int)
    requires
        0 <= len,
    ensures
        padding(len).len() == 0 <==> len % 64 == 0,
        (len + padding(len).len()) % 64 == 0,
{
}

} // verus!
