//! What attention reads: positions, pages, heads and rotation tables.

use crate::cache::{CacheView, PagedKVCache};
use crate::q4::BLOCK_BYTES;
use crate::zones::{self, spec_page_id, spec_slot, spec_zone_block_size, spec_zone_index};
use vstd::prelude::*;

verus! {

/// Most positions taken from before the window.
pub const MAX_GLOBAL_POSITIONS: usize = 128;

/// The last position a query may look at.
pub open spec fn last_visible(q_pos: int, seq_len: int) -> int {
    if q_pos < seq_len - 1 {
        q_pos
    } else {
        seq_len - 1
    }
}

pub fn valid_end(q_pos: usize, seq_len: usize) -> (end: usize)
    requires
        seq_len > 0,
    ensures
        end == last_visible(q_pos as int, seq_len as int),
{
    if q_pos < seq_len - 1 {
        q_pos
    } else {
        seq_len - 1
    }
}

/// First position of the window that ends at `end`.
pub open spec fn window_start(end: int, window: int) -> int {
    if end > window {
        end - window + 1
    } else {
        0
    }
}

/// How many positions are taken from before the window.
pub open spec fn global_count(start: int, stride: int) -> int {
    if start / stride < MAX_GLOBAL_POSITIONS {
        start / stride
    } else {
        MAX_GLOBAL_POSITIONS as int
    }
}

/// Every `stride`-th position before the window, the oldest first, then the
/// window.
pub open spec fn sparse_set(end: int, window: int, stride: int) -> Seq<usize> {
    let start = window_start(end, window);
    Seq::new(global_count(start, stride) as nat, |i: int| (stride * i) as usize) + Seq::new(
        (end + 1 - start) as nat,
        |i: int| (start + i) as usize,
    )
}

proof fn lemma_global_position(start: int, stride: int, i: int)
    requires
        0 <= start,
        0 < stride,
        0 <= i < global_count(start, stride),
    ensures
        0 <= stride * i < start,
        stride * i + stride <= start,
{
    vstd::arithmetic::div_mod::lemma_fundamental_div_mod(start, stride);
    let q = start / stride;
    assert(0 <= stride * i < start && stride * i + stride <= start) by (nonlinear_arith)
        requires
            start == stride * q + start % stride,
            0 <= start % stride,
            0 <= i < q,
            0 < stride,
    ;
}

/// The positions that a query looks at with sparse attention.
pub fn attention_sparse(q_pos: usize, seq_len: usize, window: usize, global_stride: usize) -> (r: Vec<
    usize,
>)
    requires
        seq_len > 0,
        global_stride > 0,
    ensures
        r@ == sparse_set(
            last_visible(q_pos as int, seq_len as int),
            window as int,
            global_stride as int,
        ),
{
    sparse_positions(valid_end(q_pos, seq_len), window, global_stride)
}

/// The window and what is taken from before it.
fn sparse_positions(end: usize, window: usize, stride: usize) -> (r: Vec<usize>)
    requires
        end < usize::MAX,
        stride > 0,
    ensures
        r@ == sparse_set(end as int, window as int, stride as int),
{
    let start: usize = if end > window {
        end - window + 1
    } else {
        0
    };
    let mut count: usize = start / stride;
    if count > MAX_GLOBAL_POSITIONS {
        count = MAX_GLOBAL_POSITIONS;
    }
    let mut r: Vec<usize> = Vec::new();
    let mut i: usize = 0;
    while i < count
        invariant
            i <= count,
            stride > 0,
            start == window_start(end as int, window as int),
            count == global_count(start as int, stride as int),
            r@ == Seq::new(i as nat, |k: int| (stride * k) as usize),
        decreases count - i,
    {
        proof {
            lemma_global_position(start as int, stride as int, i as int);
        }
        r.push(stride * i);
        assert(r@ =~= Seq::new((i + 1) as nat, |k: int| (stride * k) as usize));
        i = i + 1;
    }
    let ghost globals = r@;
    let mut t: usize = start;
    assert(r@ =~= globals + Seq::new(0nat, |k: int| (start + k) as usize));
    while t <= end
        invariant
            start <= t <= end + 1,
            end < usize::MAX,
            r@ == globals + Seq::new((t - start) as nat, |k: int| (start + k) as usize),
        decreases end + 1 - t,
    {
        r.push(t);
        assert(r@ =~= globals + Seq::new((t + 1 - start) as nat, |k: int| (start + k) as usize));
        t = t + 1;
    }
    r
}

/// Sparse attention looks at each position once, in order, at none past the end,
/// and at the whole window.
pub proof fn law_sparse_positions_ascend(end: int, window: int, stride: int)
    requires
        0 <= end < usize::MAX,
        0 <= window,
        0 < stride,
    ensures
        forall|i: int, j: int|
            0 <= i < j < sparse_set(end, window, stride).len() ==> sparse_set(
                end,
                window,
                stride,
            )[i] < sparse_set(end, window, stride)[j],
        forall|i: int|
            0 <= i < sparse_set(end, window, stride).len() ==> sparse_set(end, window, stride)[i]
                <= end,
        forall|p: usize|
            window_start(end, window) <= p <= end ==> #[trigger] sparse_set(
                end,
                window,
                stride,
            ).contains(p),
{
    let start = window_start(end, window);
    let s = sparse_set(end, window, stride);
    let g = global_count(start, stride);
    vstd::arithmetic::div_mod::lemma_div_pos_is_pos(start, stride);
    assert forall|i: int| 0 <= i < g implies s[i] == stride * i && stride * i < start && (i + 1 < g
        ==> stride * i < stride * (i + 1)) by {
        lemma_global_position(start, stride, i);
        assert(stride * (i + 1) == stride * i + stride) by (nonlinear_arith);
    }
    assert forall|i: int, j: int| 0 <= i < j < s.len() implies s[i] < s[j] by {
        if j < g {
            lemma_global_position(start, stride, i);
            lemma_global_position(start, stride, j);
            assert(stride * i < stride * j) by (nonlinear_arith)
                requires
                    i < j,
                    stride > 0,
            ;
        } else if i < g {
            lemma_global_position(start, stride, i);
            assert(s[j] == start + (j - g));
        } else {
            assert(s[i] == start + (i - g));
            assert(s[j] == start + (j - g));
        }
    }
    assert forall|i: int| 0 <= i < s.len() implies s[i] <= end by {
        if i < g {
            lemma_global_position(start, stride, i);
        } else {
            assert(s[i] == start + (i - g));
        }
    }
    assert forall|p: usize| start <= p <= end implies #[trigger] s.contains(p) by {
        assert(s[g + (p - start)] == p);
    }
}

/// `found` behind `positions`, without those past the end and those there already.
pub open spec fn with_candidates(
    positions: Seq<usize>,
    found: Seq<usize>,
    end: int,
    n: int,
) -> Seq<usize>
    decreases n,
{
    if n <= 0 {
        positions
    } else {
        let before = with_candidates(positions, found, end, n - 1);
        if found[n - 1] <= end && !before.contains(found[n - 1]) {
            before.push(found[n - 1])
        } else {
            before
        }
    }
}

fn holds(positions: &Vec<usize>, p: usize) -> (b: bool)
    ensures
        b == positions@.contains(p),
{
    let mut i: usize = 0;
    while i < positions.len()
        invariant
            i <= positions@.len(),
            forall|k: int| 0 <= k < i ==> positions@[k] != p,
        decreases positions@.len() - i,
    {
        if positions[i] == p {
            assert(positions@[i as int] == p);
            return true;
        }
        i = i + 1;
    }
    false
}

/// The positions that a query looks at with sparse attention and candidates from
/// drafts.
pub fn attention_fugu(
    q_pos: usize,
    seq_len: usize,
    window: usize,
    sentinel_stride: usize,
    dspark_positions: &Vec<usize>,
) -> (r: Vec<usize>)
    requires
        seq_len > 0,
        sentinel_stride > 0,
    ensures
        r@ == with_candidates(
            sparse_set(
                last_visible(q_pos as int, seq_len as int),
                window as int,
                sentinel_stride as int,
            ),
            dspark_positions@,
            last_visible(q_pos as int, seq_len as int),
            dspark_positions@.len() as int,
        ),
{
    let end: usize = valid_end(q_pos, seq_len);
    let mut r: Vec<usize> = sparse_positions(end, window, sentinel_stride);
    let ghost base = r@;
    let mut i: usize = 0;
    while i < dspark_positions.len()
        invariant
            i <= dspark_positions@.len(),
            r@ == with_candidates(base, dspark_positions@, end as int, i as int),
        decreases dspark_positions@.len() - i,
    {
        let p: usize = dspark_positions[i];
        if p <= end && !holds(&r, p) {
            r.push(p);
        }
        i = i + 1;
    }
    r
}

/// Candidates add no position twice and none past the end, lose none that was
/// there, and every candidate up to the end is looked at.
pub proof fn law_candidates_join_once(positions: Seq<usize>, found: Seq<usize>, end: int, n: int)
    requires
        0 <= n <= found.len(),
        positions.no_duplicates(),
        forall|i: int| 0 <= i < positions.len() ==> positions[i] <= end,
    ensures
        with_candidates(positions, found, end, n).no_duplicates(),
        forall|i: int|
            0 <= i < with_candidates(positions, found, end, n).len() ==> with_candidates(
                positions,
                found,
                end,
                n,
            )[i] <= end,
        positions.len() <= with_candidates(positions, found, end, n).len(),
        forall|i: int|
            0 <= i < positions.len() ==> with_candidates(positions, found, end, n)[i]
                == positions[i],
        forall|i: int|
            0 <= i < n && found[i] <= end ==> with_candidates(
                positions,
                found,
                end,
                n,
            ).contains(#[trigger] found[i]),
    decreases n,
{
    if n > 0 {
        law_candidates_join_once(positions, found, end, n - 1);
        let before = with_candidates(positions, found, end, n - 1);
        let after = with_candidates(positions, found, end, n);
        assert forall|i: int| 0 <= i < n && found[i] <= end implies after.contains(
            #[trigger] found[i],
        ) by {
            if i < n - 1 {
                let k = before.index_of(found[i]);
                assert(before[k] == found[i]);
                assert(after[k] == found[i]);
            } else if before.contains(found[i]) {
            } else {
                assert(after[after.len() - 1] == found[i]);
            }
        }
    }
}

/// Consecutive positions on one page.
#[derive(Debug, Clone, Copy, PartialEq, Eq, Structural)]
pub struct PageRun {
    pub page: usize,
    pub start: usize,
    /// The last position of the run.
    pub end: usize,
}

/// The run of the page that holds `t`, up to `end`.
pub open spec fn run_at(t: int, end: int) -> PageRun {
    let start = t - spec_slot(t);
    let stop = start + spec_zone_block_size(spec_zone_index(t)) - 1;
    PageRun {
        page: spec_page_id(t) as usize,
        start: start as usize,
        end: (if stop < end {
            stop
        } else {
            end
        }) as usize,
    }
}

/// First position behind the page that holds `t`.
pub open spec fn next_page_start(t: int) -> int {
    t - spec_slot(t) + spec_zone_block_size(spec_zone_index(t))
}

/// The runs of the positions from `t` to `end`.
pub open spec fn runs_from(t: int, end: int) -> Seq<PageRun>
    decreases
            if t > end {
                0
            } else {
                end + 1 - t
            },
{
    if t > end || next_page_start(t) <= t {
        Seq::empty()
    } else {
        seq![run_at(t, end)] + runs_from(next_page_start(t), end)
    }
}

/// The pages that a query reads with full attention, each with the positions that
/// it looks at.
pub fn attention(q_pos: usize, seq_len: usize) -> (r: Vec<PageRun>)
    requires
        0 < seq_len <= usize::MAX - 2048,
    ensures
        r@ == runs_from(0, last_visible(q_pos as int, seq_len as int)),
{
    page_runs(valid_end(q_pos, seq_len))
}

fn page_runs(end: usize) -> (r: Vec<PageRun>)
    requires
        end <= usize::MAX - 2048,
    ensures
        r@ == runs_from(0, end as int),
{
    let mut r: Vec<PageRun> = Vec::new();
    let mut t: usize = 0;
    assert(r@ + runs_from(0, end as int) =~= runs_from(0, end as int));
    while t <= end
        invariant
            t <= end + 1024,
            end <= usize::MAX - 2048,
            r@ + runs_from(t as int, end as int) == runs_from(0, end as int),
        decreases end + 1024 - t,
    {
        proof {
            zones::law_position_splits(t as int);
        }
        let page: usize = zones::page_id(t);
        let start: usize = zones::page_start_for(t);
        let bs: usize = zones::zone_block_size(zones::zone_index(t));
        let stop: usize = start + bs - 1;
        let run = PageRun {
            page,
            start,
            end: if stop < end {
                stop
            } else {
                end
            },
        };
        let ghost before = r@;
        r.push(run);
        proof {
            assert(run == run_at(t as int, end as int));
            assert(r@ + runs_from(start + bs, end as int) =~= before + runs_from(
                t as int,
                end as int,
            ));
        }
        t = start + bs;
    }
    assert(runs_from(t as int, end as int) =~= Seq::empty());
    assert(r@ + Seq::empty() =~= r@);
    r
}

/// Pages start behind one another.
proof fn lemma_next_page_starts(t: int)
    requires
        0 <= t,
        spec_slot(t) == 0,
    ensures
        next_page_start(t) > t,
        spec_slot(next_page_start(t)) == 0,
        forall|p: int| t <= p < next_page_start(t) ==> #[trigger] spec_page_id(p) == spec_page_id(t),
{
    let zi = spec_zone_index(t);
    let bs = spec_zone_block_size(zi);
    let n = t + bs;
    zones::law_position_splits(t);
    if zi == 0 {
        assert(t % 32 == 0);
        assert(n % 32 == 0);
        assert(spec_slot(n) == 0);
    } else if zi == 1 {
        assert((t - 4096) % 128 == 0);
        assert((n - 4096) % 128 == 0);
        assert(spec_slot(n) == 0);
    } else {
        assert((t - 131072) % 1024 == 0);
        assert((n - 131072) % 1024 == 0);
    }
    assert forall|p: int| t <= p < n implies #[trigger] spec_page_id(p) == spec_page_id(t) by {
        assert(spec_zone_index(p) == zi);
        if zi == 0 {
            assert(p / 32 == t / 32);
        } else if zi == 1 {
            assert((p - 4096) / 128 == (t - 4096) / 128);
        } else {
            assert((p - 131072) / 1024 == (t - 131072) / 1024);
        }
    }
}

/// The runs cover the positions from the first on without a gap, and every
/// position of a run lies on the run's page.
pub proof fn law_runs_cover_positions(t: int, end: int)
    requires
        0 <= t <= end <= usize::MAX,
        spec_slot(t) == 0,
    ensures
        runs_from(t, end).len() > 0,
        runs_from(t, end)[0].start == t,
        runs_from(t, end).last().end == end,
        forall|i: int|
            0 <= i < runs_from(t, end).len() - 1 ==> (#[trigger] runs_from(t, end)[i]).end + 1
                == runs_from(t, end)[i + 1].start,
        forall|i: int, p: int|
            0 <= i < runs_from(t, end).len() && runs_from(t, end)[i].start <= p <= runs_from(
                t,
                end,
            )[i].end ==> (#[trigger] runs_from(t, end)[i]).page == #[trigger] spec_page_id(p),
        forall|i: int|
            0 <= i < runs_from(t, end).len() ==> t <= (#[trigger] runs_from(t, end)[i]).start
                <= runs_from(t, end)[i].end,
    decreases end - t,
{
    lemma_next_page_starts(t);
    zones::law_position_splits(t);
    let n = next_page_start(t);
    let runs = runs_from(t, end);
    let rest = runs_from(n, end);
    assert(runs[0] == run_at(t, end));
    assert(0 <= spec_page_id(t) <= t + 2048);
    assert forall|p: int| runs[0].start <= p <= runs[0].end implies runs[0].page
        == #[trigger] spec_page_id(p) by {
        assert(t <= p < n);
        lemma_page_id_small(t);
    }
    if n <= end {
        law_runs_cover_positions(n, end);
        assert(runs.len() == rest.len() + 1);
        assert(forall|i: int| 0 <= i < rest.len() ==> runs[i + 1] == rest[i]);
        assert(runs[0].end + 1 == n);
        assert forall|i: int| 0 <= i < runs.len() - 1 implies (#[trigger] runs[i]).end + 1 == runs[i
            + 1].start by {
            if i > 0 {
                assert(runs[i] == rest[i - 1]);
                assert(runs[i + 1] == rest[i]);
            }
        }
        assert forall|i: int, p: int|
            0 <= i < runs.len() && runs[i].start <= p <= runs[i].end implies (
        #[trigger] runs[i]).page == #[trigger] spec_page_id(p) by {
            if i > 0 {
                assert(runs[i] == rest[i - 1]);
            }
        }
        assert forall|i: int| 0 <= i < runs.len() implies t <= (#[trigger] runs[i]).start
            <= runs[i].end by {
            if i > 0 {
                assert(runs[i] == rest[i - 1]);
            }
        }
        assert(runs.last() == rest.last());
    } else {
        assert(rest.len() == 0);
        assert(runs.len() == 1);
    }
}

proof fn lemma_page_id_small(t: int)
    requires
        0 <= t <= usize::MAX,
    ensures
        0 <= spec_page_id(t) <= usize::MAX,
{
}

/// The key and value head that query head `h` reads.
pub fn kv_head(h: usize, n_heads: usize, n_kv_heads: usize) -> (r: usize)
    requires
        0 < n_kv_heads <= n_heads,
    ensures
        r as int == h as int / (n_heads as int / n_kv_heads as int),
{
    proof {
        vstd::arithmetic::div_mod::lemma_div_non_zero(n_heads as int, n_kv_heads as int);
    }
    let n_rep: usize = n_heads / n_kv_heads;
    h / n_rep
}

/// Query heads share the key and value heads evenly: where the counts divide,
/// every query head has one.
pub proof fn law_query_heads_have_kv_heads(h: int, n_heads: int, n_kv_heads: int)
    requires
        0 < n_kv_heads <= n_heads,
        n_heads % n_kv_heads == 0,
        0 <= h < n_heads,
    ensures
        0 <= h / (n_heads / n_kv_heads) < n_kv_heads,
{
    vstd::arithmetic::div_mod::lemma_fundamental_div_mod(n_heads, n_kv_heads);
    let r = n_heads / n_kv_heads;
    assert(r > 0) by (nonlinear_arith)
        requires
            n_heads == n_kv_heads * r,
            0 < n_kv_heads <= n_heads,
    ;
    vstd::arithmetic::div_mod::lemma_fundamental_div_mod(h, r);
    let q = h / r;
    assert(0 <= q < n_kv_heads) by (nonlinear_arith)
        requires
            h == r * q + h % r,
            0 <= h % r < r,
            0 <= h < n_kv_heads * r,
            r > 0,
    ;
}

/// Where a block of a head's vector starts on a packed page.
pub fn q4_block_offset(slot: usize, blocks_per_head: usize, blk: usize) -> (off: usize)
    requires
        (slot * blocks_per_head + blk) * BLOCK_BYTES <= usize::MAX,
        slot * blocks_per_head <= usize::MAX,
        slot * blocks_per_head + blk <= usize::MAX,
    ensures
        off == (slot * blocks_per_head + blk) * BLOCK_BYTES,
{
    (slot * blocks_per_head + blk) * BLOCK_BYTES
}

/// Cosine and sine of every rotation, as singles, for one head size.
pub struct RopeTable {
    pub head_dim: usize,
    pub cos_sin: Vec<(u32, u32)>,
}

/// Rotation tables by head size.
pub struct RopeTables {
    pub tables: Vec<RopeTable>,
}

/// Place of the table for a head size, from place `i` on.
pub open spec fn table_place(tables: Seq<RopeTable>, head_dim: usize, i: int) -> Option<int>
    decreases tables.len() - i,
{
    if i >= tables.len() {
        None
    } else if tables[i].head_dim == head_dim {
        Some(i)
    } else {
        table_place(tables, head_dim, i + 1)
    }
}

/// Where the rotations of a position start: positions past the context use the
/// last of it.
pub open spec fn rotation_start(pos: int, max_context: int, half_dim: int) -> int {
    (if pos < max_context - 1 {
        pos
    } else {
        max_context - 1
    }) * half_dim
}

impl RopeTables {
    pub fn new() -> (t: Self)
        ensures
            t.tables@.len() == 0,
    {
        RopeTables { tables: Vec::new() }
    }

    fn place(&self, head_dim: usize) -> (r: Option<usize>)
        ensures
            match table_place(self.tables@, head_dim, 0) {
                Some(i) => r matches Some(k) && k == i && 0 <= i < self.tables@.len(),
                None => r is None,
            },
    {
        let mut i: usize = 0;
        while i < self.tables.len()
            invariant
                i <= self.tables@.len(),
                table_place(self.tables@, head_dim, 0) == table_place(
                    self.tables@,
                    head_dim,
                    i as int,
                ),
            decreases self.tables@.len() - i,
        {
            if self.tables[i].head_dim == head_dim {
                return Some(i);
            }
            i = i + 1;
        }
        None
    }

    /// Whether a table for a head size is still to be computed.
    pub fn is_missing(&self, head_dim: usize) -> (b: bool)
        ensures
            b == (table_place(self.tables@, head_dim, 0) is None),
    {
        self.place(head_dim).is_none()
    }

    /// Adds a table; one that is there already stays.
    pub fn init_rope_lut(&mut self, table: RopeTable)
        ensures
            final(self).tables@ == (if table_place(old(self).tables@, table.head_dim, 0) is None {
                old(self).tables@.push(table)
            } else {
                old(self).tables@
            }),
    {
        if self.is_missing(table.head_dim) {
            self.tables.push(table);
        }
    }

    /// The rotations of a position: none without a table for the head size.
    pub fn rotations(&self, head_dim: usize, pos: usize, max_context: usize) -> (r: Option<
        &[(u32, u32)],
    >)
        requires
            max_context > 0,
            table_place(self.tables@, head_dim, 0) matches Some(i) ==> rotation_start(
                pos as int,
                max_context as int,
                head_dim as int / 2,
            ) + head_dim as int / 2 <= self.tables@[i].cos_sin@.len(),
        ensures
            match table_place(self.tables@, head_dim, 0) {
                Some(i) => r matches Some(s) && s@ == self.tables@[i].cos_sin@.subrange(
                    rotation_start(pos as int, max_context as int, head_dim as int / 2),
                    rotation_start(pos as int, max_context as int, head_dim as int / 2) + head_dim
                        as int / 2,
                ),
                None => r is None,
            },
            r matches Some(s) ==> s@.len() == head_dim as int / 2,
    {
        match self.place(head_dim) {
            Some(i) => {
                let half_dim: usize = head_dim / 2;
                let p: usize = if pos < max_context - 1 {
                    pos
                } else {
                    max_context - 1
                };
                let table = &self.tables[i].cos_sin;
                assert(table.len() <= usize::MAX);
                assert(0 <= p * half_dim) by (nonlinear_arith)
                    requires
                        half_dim >= 0,
                        p >= 0,
                ;
                let start: usize = p * half_dim;
                Some(vstd::slice::slice_subrange(table.as_slice(), start, start + half_dim))
            },
            None => None,
        }
    }
}

/// Every position up to `n` has its restored numbers.
pub open spec fn restored_up_to(c: CacheView, n: int) -> bool {
    forall|p: int|
        0 <= p < n ==> #[trigger] c.has_page(spec_page_id(p)) && c.page(spec_page_id(p)).floats
            is Some
}

/// The first `n` key or value vectors of a layer, head by head and in order of
/// position.
pub open spec fn vectors_in_line(
    c: CacheView,
    layer: int,
    seq_len: int,
    keys: bool,
    n: int,
) -> Seq<u32>
    decreases n,
{
    if n <= 0 {
        Seq::empty()
    } else {
        let head = (n - 1) / seq_len;
        let pos = (n - 1) % seq_len;
        let floats = c.page(spec_page_id(pos)).floats->0;
        vectors_in_line(c, layer, seq_len, keys, n - 1) + c.vector(
            if keys {
                floats.0
            } else {
                floats.1
            },
            layer,
            head,
            pos,
        )
    }
}

fn append_all(to: &mut Vec<u32>, from: &[u32])
    ensures
        final(to)@ == old(to)@ + from@,
{
    let mut i: usize = 0;
    assert(to@ =~= old(to)@ + from@.subrange(0, 0));
    while i < from.len()
        invariant
            i <= from@.len(),
            to@ == old(to)@ + from@.subrange(0, i as int),
        decreases from@.len() - i,
    {
        to.push(from[i]);
        assert(from@.subrange(0, i + 1) =~= from@.subrange(0, i as int).push(from@[i as int]));
        i = i + 1;
    }
    assert(from@.subrange(0, from@.len() as int) =~= from@);
}

/// Keys and values of a layer in one piece each, as the device takes them.
pub fn gpu_attention_forward(cache: &PagedKVCache, layer: usize, n_kv_heads: usize, seq_len: usize) -> (r: (
    Vec<u32>,
    Vec<u32>,
))
    requires
        cache.wf(),
        layer < cache@.shape.num_layers,
        n_kv_heads <= cache@.shape.num_kv_heads,
        restored_up_to(cache@, seq_len as int),
    ensures
        r.0@ == vectors_in_line(
            cache@,
            layer as int,
            seq_len as int,
            true,
            n_kv_heads * seq_len,
        ),
        r.1@ == vectors_in_line(
            cache@,
            layer as int,
            seq_len as int,
            false,
            n_kv_heads * seq_len,
        ),
{
    let mut k: Vec<u32> = Vec::new();
    let mut v: Vec<u32> = Vec::new();
    let mut h: usize = 0;
    assert(0 * seq_len == 0) by (nonlinear_arith);
    while h < n_kv_heads
        invariant
            h <= n_kv_heads <= cache@.shape.num_kv_heads,
            cache.wf(),
            layer < cache@.shape.num_layers,
            restored_up_to(cache@, seq_len as int),
            k@ == vectors_in_line(cache@, layer as int, seq_len as int, true, h * seq_len),
            v@ == vectors_in_line(cache@, layer as int, seq_len as int, false, h * seq_len),
        decreases n_kv_heads - h,
    {
        let mut t: usize = 0;
        while t < seq_len
            invariant
                t <= seq_len,
                h < n_kv_heads <= cache@.shape.num_kv_heads,
                cache.wf(),
                layer < cache@.shape.num_layers,
                restored_up_to(cache@, seq_len as int),
                k@ == vectors_in_line(
                    cache@,
                    layer as int,
                    seq_len as int,
                    true,
                    h * seq_len + t,
                ),
                v@ == vectors_in_line(
                    cache@,
                    layer as int,
                    seq_len as int,
                    false,
                    h * seq_len + t,
                ),
            decreases seq_len - t,
        {
            assert(cache@.has_page(spec_page_id(t as int)));
            let kv = cache.get_k_unchecked(layer, h, t);
            let vv = cache.get_v_unchecked(layer, h, t);
            append_all(&mut k, kv);
            append_all(&mut v, vv);
            proof {
                let n = h * seq_len + t + 1;
                vstd::arithmetic::div_mod::lemma_fundamental_div_mod_converse(
                    n - 1,
                    seq_len as int,
                    h as int,
                    t as int,
                );
                assert(0 <= h * seq_len) by (nonlinear_arith)
                    requires
                        h >= 0,
                        seq_len >= 0,
                ;
            }
            t = t + 1;
        }
        assert(h * seq_len + seq_len == (h + 1) * seq_len) by (nonlinear_arith);
        h = h + 1;
    }
    (k, v)
}

/// A query looks at every position of the sequence up to its own, and at no later one.
pub proof fn law_no_later_position_is_visible(q_pos: int, seq_len: int, p: int)
    requires
        0 <= q_pos,
        0 < seq_len,
        0 <= p,
    ensures
        p <= last_visible(q_pos, seq_len) <==> p <= q_pos && p < seq_len,
{
}

/// Sparse attention looks at the last `window` positions, and before them at nothing
/// but multiples of the stride: at the first of these, up to the largest count, that
/// are a whole stride before the window.
pub proof fn law_sparse_positions_are_near_or_regular(
    end: int,
    window: int,
    stride: int,
    p: usize,
)
    requires
        0 <= end < usize::MAX,
        0 <= window,
        0 < stride,
    ensures
        0 <= end - p < window ==> sparse_set(end, window, stride).contains(p),
        end <= window && p <= end ==> sparse_set(end, window, stride).contains(p),
        sparse_set(end, window, stride).contains(p) ==> p <= end,
        sparse_set(end, window, stride).contains(p) ==> end - p < window || p as int % stride == 0
            || end <= window,
        end > window && p as int % stride == 0 && p as int / stride < 128 && p + stride <= end
            - window + 1 ==> sparse_set(end, window, stride).contains(p),
        sparse_set(end, window, stride).contains(p) && end - p >= window && end > window ==> p as int
            / stride < 128 && p + stride <= end - window + 1,
{
    let start = window_start(end, window);
    let count = global_count(start, stride);
    let all = sparse_set(end, window, stride);
    law_sparse_positions_ascend(end, window, stride);
    vstd::arithmetic::div_mod::lemma_fundamental_div_mod(start, stride);
    vstd::arithmetic::div_mod::lemma_div_pos_is_pos(start, stride);
    let k = p as int / stride;
    vstd::arithmetic::div_mod::lemma_fundamental_div_mod(p as int, stride);
    vstd::arithmetic::div_mod::lemma_div_pos_is_pos(p as int, stride);
    if end > window && p as int % stride == 0 && k < 128 && p + stride <= end - window + 1 {
        assert(k < start / stride) by (nonlinear_arith)
            requires
                stride * k + stride <= start,
                start == stride * (start / stride) + start % stride,
                start % stride < stride,
                0 < stride,
        ;
        assert(all[k] == (stride * k) as usize);
        assert(all[k] == p);
    }
    if all.contains(p) {
        let i = choose|i: int| 0 <= i < all.len() && all[i] == p;
        if i < count {
            lemma_global_position(start, stride, i);
            assert(all[i] == (stride * i) as usize);
            assert(stride * i == p);
            vstd::arithmetic::div_mod::lemma_fundamental_div_mod_converse(
                p as int,
                stride,
                i,
                0,
            );
        } else {
            assert(all[i] == (start + (i - count)) as usize);
        }
    }
}

/// What sparse attention with candidates looks at was there before or is a candidate.
pub proof fn law_candidates_add_nothing_else(
    positions: Seq<usize>,
    found: Seq<usize>,
    end: int,
    n: int,
    p: usize,
)
    requires
        0 <= n <= found.len(),
        with_candidates(positions, found, end, n).contains(p),
    ensures
        positions.contains(p) || found.contains(p),
    decreases n,
{
    if n > 0 {
        let before = with_candidates(positions, found, end, n - 1);
        let all = with_candidates(positions, found, end, n);
        let i = choose|i: int| 0 <= i < all.len() && all[i] == p;
        if i < before.len() {
            assert(before[i] == p);
            law_candidates_add_nothing_else(positions, found, end, n - 1, p);
        } else {
            assert(found[n - 1] == p);
        }
    }
}

/// A table is found by its head size: the first one for it, if there is any.
pub proof fn law_table_is_found(tables: Seq<RopeTable>, head_dim: usize, i: int, k: int)
    requires
        0 <= i <= k < tables.len(),
    ensures
        match table_place(tables, head_dim, i) {
            Some(p) => {
                &&& i <= p < tables.len()
                &&& tables[p].head_dim == head_dim
                &&& tables[k].head_dim == head_dim ==> p <= k
            },
            None => tables[k].head_dim != head_dim,
        },
    decreases tables.len() - i,
{
    if tables[i].head_dim != head_dim && i < k {
        law_table_is_found(tables, head_dim, i + 1, k);
    } else if tables[i].head_dim != head_dim {
        lemma_table_place(tables, head_dim, i + 1);
    }
}

proof fn lemma_table_place(tables: Seq<RopeTable>, head_dim: usize, i: int)
    requires
        0 <= i <= tables.len(),
    ensures
        table_place(tables, head_dim, i) matches Some(p) ==> i <= p < tables.len()
            && tables[p].head_dim == head_dim,
    decreases tables.len() - i,
{
    if i < tables.len() && tables[i].head_dim != head_dim {
        lemma_table_place(tables, head_dim, i + 1);
    }
}

/// A position finds the rotations that were computed for it: out of a table that lists
/// them position by position, `half_dim` for each, the `k`-th of a position of the
/// context is the one that was written as its `k`-th.  Positions past the context have
/// those of the last one.
pub proof fn law_position_finds_its_rotations(
    table: Seq<(u32, u32)>,
    written: spec_fn(int, int) -> (u32, u32),
    pos: int,
    max_context: int,
    half_dim: int,
    k: int,
)
    requires
        0 < max_context,
        0 <= pos,
        0 <= k < half_dim,
        table.len() == max_context * half_dim,
        forall|m: int, j: int|
            0 <= m < max_context && 0 <= j < half_dim ==> table[m * half_dim + j]
                == #[trigger] written(m, j),
    ensures
        ({
            let at = rotation_start(pos, max_context, half_dim);
            &&& 0 <= at && at + half_dim <= table.len()
            &&& pos < max_context ==> table.subrange(at, at + half_dim)[k] == written(pos, k)
            &&& pos >= max_context ==> table.subrange(at, at + half_dim)[k] == written(
                max_context - 1,
                k,
            )
        }),
{
    let p = if pos < max_context {
        pos
    } else {
        max_context - 1
    };
    assert(0 <= p * half_dim && p * half_dim + half_dim <= max_context * half_dim)
        by (nonlinear_arith)
        requires
            0 <= p <= max_context - 1,
            0 < half_dim,
    ;
    assert(table[p * half_dim + k] == written(p, k));
}

/// Two positions of the context have no rotation in common.
pub proof fn law_positions_have_their_own_rotations(
    a: int,
    b: int,
    max_context: int,
    half_dim: int,
)
    requires
        0 <= a < b < max_context,
        0 < half_dim,
    ensures
        rotation_start(a, max_context, half_dim) + half_dim <= rotation_start(
            b,
            max_context,
            half_dim,
        ),
{
    assert(a * half_dim + half_dim <= b * half_dim) by (nonlinear_arith)
        requires
            a + 1 <= b,
            0 < half_dim,
    ;
}

/// The restored key or value vector of a head at a position.
pub open spec fn restored_vector(c: CacheView, layer: int, keys: bool, head: int, pos: int) -> Seq<
    u32,
> {
    let floats = c.page(spec_page_id(pos)).floats->0;
    if keys {
        c.vector(floats.0, layer, head, pos)
    } else {
        c.vector(floats.1, layer, head, pos)
    }
}

/// Keys or values in one piece: the vector of a head at a position comes behind those
/// of the heads before it, and behind those of the same head at earlier positions.
pub proof fn law_vectors_stand_in_line(
    c: CacheView,
    layer: int,
    n_heads: int,
    seq_len: int,
    keys: bool,
    head: int,
    pos: int,
)
    requires
        0 <= head < n_heads,
        0 <= pos < seq_len,
        forall|h: int, p: int|
            0 <= h < n_heads && 0 <= p < seq_len ==> (#[trigger] restored_vector(c, layer, keys, h, p)).len() == c.shape.head_dim,
    ensures
        ({
            let at = (head * seq_len + pos) * c.shape.head_dim;
            let all = vectors_in_line(c, layer, seq_len, keys, n_heads * seq_len);
            &&& all.len() == n_heads * seq_len * c.shape.head_dim
            &&& 0 <= at && at + c.shape.head_dim <= all.len()
            &&& all.subrange(at, at + c.shape.head_dim) == restored_vector(c, layer, keys, head, pos)
        }),
{
    assert(head * seq_len + pos < n_heads * seq_len && 0 <= head * seq_len) by (nonlinear_arith)
        requires
            0 <= head < n_heads,
            0 <= pos < seq_len,
    ;
    lemma_in_line(c, layer, n_heads, seq_len, keys, n_heads * seq_len, head, pos);
}

proof fn lemma_in_line(
    c: CacheView,
    layer: int,
    n_heads: int,
    seq_len: int,
    keys: bool,
    n: int,
    head: int,
    pos: int,
)
    requires
        0 <= head < n_heads,
        0 <= pos < seq_len,
        0 <= n <= n_heads * seq_len,
        forall|h: int, p: int|
            0 <= h < n_heads && 0 <= p < seq_len ==> (#[trigger] restored_vector(c, layer, keys, h, p)).len() == c.shape.head_dim,
    ensures
        ({
            let d = c.shape.head_dim as int;
            let at = (head * seq_len + pos) * d;
            let all = vectors_in_line(c, layer, seq_len, keys, n);
            &&& all.len() == n * d
            &&& head * seq_len + pos < n ==> 0 <= at && at + d <= all.len() && all.subrange(
                at,
                at + d,
            ) == restored_vector(c, layer, keys, head, pos)
        }),
    decreases n,
{
    let d = c.shape.head_dim as int;
    let all = vectors_in_line(c, layer, seq_len, keys, n);
    assert(0 * d == 0);
    if n > 0 {
        lemma_in_line(c, layer, n_heads, seq_len, keys, n - 1, head, pos);
        let h = (n - 1) / seq_len;
        let p = (n - 1) % seq_len;
        vstd::arithmetic::div_mod::lemma_fundamental_div_mod(n - 1, seq_len);
        vstd::arithmetic::div_mod::lemma_div_pos_is_pos(n - 1, seq_len);
        assert(h < n_heads) by (nonlinear_arith)
            requires
                n - 1 == seq_len * h + p,
                n <= n_heads * seq_len,
                0 <= p,
                0 < seq_len,
        ;
        let earlier = vectors_in_line(c, layer, seq_len, keys, n - 1);
        let last = restored_vector(c, layer, keys, h, p);
        assert(all == earlier + last);
        assert(n * d == (n - 1) * d + d) by (nonlinear_arith);
        let i = head * seq_len + pos;
        assert(0 <= i) by (nonlinear_arith)
            requires
                i == head * seq_len + pos,
                0 <= head,
                0 <= pos < seq_len,
        ;
        let at = i * d;
        if i < n - 1 {
            assert(0 <= at && at + d <= (n - 1) * d) by (nonlinear_arith)
                requires
                    at == i * d,
                    0 <= i < n - 1,
                    0 <= d,
            ;
            assert(all.subrange(at, at + d) =~= earlier.subrange(at, at + d));
        } else if i == n - 1 {
            vstd::arithmetic::div_mod::lemma_fundamental_div_mod_converse(
                n - 1,
                seq_len,
                head,
                pos,
            );
            assert(h == head && p == pos);
            assert(0 <= at) by (nonlinear_arith)
                requires
                    at == i * d,
                    0 <= i,
                    0 <= d,
            ;
            assert(all.subrange(at, at + d) =~= last);
        }
    }
}

} // verus!
