//! How the vectors of one page are laid out.
//!
//! A page holds one vector per layer, head and slot.  They are numbered with
//! the slot running fastest, then the head, then the layer.  The quantised
//! page keeps the blocks of each vector together, the restored page its
//! numbers.

use crate::q4::{
    block_at, block_bytes_of, block_len, blocks_per_head, law_block_reads_back, load_term,
    spec_block_len, spec_blocks_per_head, store_block, term_in_block, Q4Block, Q4Term,
};
use vstd::arithmetic::div_mod::{
    lemma_fundamental_div_mod, lemma_fundamental_div_mod_converse,
};
use vstd::prelude::*;

verus! {

/// Extent of the cached vectors.
#[derive(Debug, Clone, Copy, PartialEq, Eq, Structural)]
pub struct Shape {
    pub num_layers: usize,
    pub num_kv_heads: usize,
    pub head_dim: usize,
}

impl Shape {
    /// Number of the vector for a layer, a head and a slot.
    pub open spec fn cell(self, bs: int, layer: int, head: int, slot: int) -> int {
        (layer * self.num_kv_heads + head) * bs + slot
    }

    pub open spec fn cell_slot(self, bs: int, c: int) -> int {
        c % bs
    }

    pub open spec fn cell_head(self, bs: int, c: int) -> int {
        (c / bs) % self.num_kv_heads as int
    }

    pub open spec fn cell_layer(self, bs: int, c: int) -> int {
        (c / bs) / self.num_kv_heads as int
    }

    /// Vectors of one page.
    pub open spec fn cells(self, bs: int) -> int {
        self.num_layers * self.num_kv_heads * bs
    }

    pub open spec fn blocks(self) -> int {
        spec_blocks_per_head(self.head_dim as int)
    }

    /// Bytes of one quantised page.
    pub open spec fn page_bytes(self, bs: int) -> int {
        self.cells(bs) * self.blocks() * 20
    }

    /// Numbers of one restored page.
    pub open spec fn page_floats(self, bs: int) -> int {
        self.cells(bs) * self.head_dim
    }

    /// The pages can be allocated, aligned to 64 bytes.
    pub open spec fn fits(self, bs: int) -> bool {
        &&& self.head_dim + 31 <= usize::MAX
        &&& self.page_bytes(bs) + 63 <= isize::MAX
        &&& self.page_floats(bs) * 4 + 63 <= isize::MAX
        &&& self.num_layers * self.num_kv_heads <= usize::MAX
        &&& self.num_kv_heads * self.blocks() <= usize::MAX
        &&& self.cells(bs) <= usize::MAX
    }

    /// Bytes of a quantised page after one slot of one layer is stored.
    pub open spec fn page_after_store(
        self,
        bs: int,
        page: Seq<u8>,
        layer: int,
        slot: int,
        blocks: Seq<Q4Block>,
    ) -> Seq<u8> {
        Seq::new(
            page.len(),
            |b: int| self.block_after_store(bs, page, layer, slot, blocks, b / 20)[b % 20],
        )
    }

    /// Block `q` of that page: replaced if it lies in the stored slot and
    /// layer, else as it was.
    pub open spec fn block_after_store(
        self,
        bs: int,
        page: Seq<u8>,
        layer: int,
        slot: int,
        blocks: Seq<Q4Block>,
        q: int,
    ) -> Seq<u8> {
        let c = q / self.blocks();
        let blk = q % self.blocks();
        if self.cell_layer(bs, c) == layer && self.cell_slot(bs, c) == slot {
            block_bytes_of(
                blocks[self.cell_head(bs, c) * self.blocks() + blk],
                spec_block_len(self.head_dim as int, blk),
            )
        } else {
            block_at(page, q)
        }
    }

    /// Numbers of a restored page after one slot of one layer is stored.
    pub open spec fn floats_after_store(
        self,
        bs: int,
        page: Seq<u32>,
        layer: int,
        slot: int,
        source: Seq<u32>,
    ) -> Seq<u32> {
        Seq::new(
            page.len(),
            |e: int|
                {
                    let c = e / self.head_dim as int;
                    if self.cell_layer(bs, c) == layer && self.cell_slot(bs, c) == slot {
                        source[self.cell_head(bs, c) * self.head_dim + e % self.head_dim as int]
                    } else {
                        page[e]
                    }
                },
        )
    }

    /// What restores number `e` of a page.
    pub open spec fn term(self, page: Seq<u8>, e: int) -> Q4Term {
        let c = e / self.head_dim as int;
        let i = e % self.head_dim as int;
        term_in_block(block_at(page, c * self.blocks() + i / 32), i % 32)
    }

    /// What restores each number of a page, in the order of the restored page.
    pub open spec fn terms(self, bs: int, page: Seq<u8>) -> Seq<Q4Term> {
        Seq::new(self.page_floats(bs) as nat, |e: int| self.term(page, e))
    }
}

/// A two-digit number is below the product of the bases.
pub proof fn lemma_two_digits(a: int, b: int, m: int, n: int)
    by (nonlinear_arith)
    requires
        0 <= a < m,
        0 <= b < n,
    ensures
        0 <= a * n + b < m * n,
{
}

/// The digits of a two-digit number.
pub proof fn lemma_digits_of(a: int, b: int, n: int)
    requires
        0 <= a,
        0 <= b < n,
    ensures
        (a * n + b) / n == a,
        (a * n + b) % n == b,
{
    lemma_fundamental_div_mod_converse(a * n + b, n, a, b);
}

/// A number is made of its digits.
pub proof fn lemma_from_digits(x: int, n: int)
    requires
        0 < n,
        0 <= x,
    ensures
        x == (x / n) * n + x % n,
        0 <= x % n < n,
        0 <= x / n,
{
    lemma_fundamental_div_mod(x, n);
    assert(n * (x / n) == (x / n) * n) by (nonlinear_arith);
    vstd::arithmetic::div_mod::lemma_div_pos_is_pos(x, n);
}

/// Layer, head and slot can be read off a vector's number.
pub proof fn lemma_cell(shape: Shape, bs: int, layer: int, head: int, slot: int)
    requires
        0 <= layer < shape.num_layers,
        0 <= head < shape.num_kv_heads,
        0 <= slot < bs,
    ensures
        0 <= shape.cell(bs, layer, head, slot) < shape.cells(bs),
        shape.cell_layer(bs, shape.cell(bs, layer, head, slot)) == layer,
        shape.cell_head(bs, shape.cell(bs, layer, head, slot)) == head,
        shape.cell_slot(bs, shape.cell(bs, layer, head, slot)) == slot,
{
    let u = layer * shape.num_kv_heads + head;
    lemma_two_digits(layer, head, shape.num_layers as int, shape.num_kv_heads as int);
    lemma_two_digits(u, slot, shape.num_layers * shape.num_kv_heads, bs);
    lemma_digits_of(u, slot, bs);
    lemma_digits_of(layer, head, shape.num_kv_heads as int);
}

/// A vector's number is made of its layer, head and slot.
pub proof fn lemma_cell_parts(shape: Shape, bs: int, c: int)
    requires
        0 < bs,
        0 < shape.num_kv_heads,
        0 <= c,
    ensures
        c == shape.cell(
            bs,
            shape.cell_layer(bs, c),
            shape.cell_head(bs, c),
            shape.cell_slot(bs, c),
        ),
        0 <= shape.cell_head(bs, c) < shape.num_kv_heads,
        0 <= shape.cell_slot(bs, c) < bs,
        0 <= shape.cell_layer(bs, c),
{
    lemma_from_digits(c, bs);
    lemma_from_digits(c / bs, shape.num_kv_heads as int);
}

/// Stores the blocks of every head for one layer and one slot.
pub fn store_cells(
    page: &mut Vec<u8>,
    shape: Shape,
    bs: usize,
    layer: usize,
    slot: usize,
    blocks: &[Q4Block],
)
    requires
        shape.fits(bs as int),
        layer < shape.num_layers,
        slot < bs,
        old(page)@.len() == shape.page_bytes(bs as int),
        blocks@.len() == shape.num_kv_heads * shape.blocks(),
    ensures
        final(page)@ == shape.page_after_store(
            bs as int,
            old(page)@,
            layer as int,
            slot as int,
            blocks@,
        ),
{
    let ghost before = page@;
    let ghost sb: int = bs as int;
    let bph: usize = blocks_per_head(shape.head_dim);
    let total: usize = blocks.len();
    let mut j: usize = 0;
    proof {
        assert forall|q: int|
            0 <= q && q * 20 + 20 <= before.len() implies #[trigger] block_at(before, q)
            == stored_so_far(shape, sb, before, layer as int, slot as int, blocks@, 0, q) by {
            lemma_page_not_empty(shape, sb);
            lemma_block_source(shape, sb, q);
        }
    }
    while j < total
        invariant
            j <= total,
            total == blocks@.len(),
            shape.fits(sb),
            sb == bs,
            layer < shape.num_layers,
            slot < bs,
            bph == shape.blocks(),
            before.len() == shape.page_bytes(sb),
            page@.len() == before.len(),
            blocks@.len() == shape.num_kv_heads * shape.blocks(),
            forall|q: int|
                0 <= q && q * 20 + 20 <= before.len() ==> #[trigger] block_at(page@, q)
                    == stored_so_far(
                    shape,
                    sb,
                    before,
                    layer as int,
                    slot as int,
                    blocks@,
                    j as int,
                    q,
                ),
        decreases total - j,
    {
        proof {
            assert(bph > 0) by (nonlinear_arith)
                requires
                    shape.num_kv_heads * bph > 0,
                    0 <= bph,
            ;
            lemma_from_digits(j as int, bph as int);
            assert(j / bph < shape.num_kv_heads) by (nonlinear_arith)
                requires
                    j < shape.num_kv_heads * bph,
                    j == (j / bph) * bph + j % bph,
                    0 <= j % bph,
            ;
        }
        let head: usize = j / bph;
        let blk: usize = j % bph;
        let ghost c = shape.cell(sb, layer as int, head as int, slot as int);
        proof {
            lemma_cell(shape, sb, layer as int, head as int, slot as int);
            lemma_two_digits(
                layer as int,
                head as int,
                shape.num_layers as int,
                shape.num_kv_heads as int,
            );
            let u = layer * shape.num_kv_heads + head;
            assert(u * bs <= c);
            lemma_two_digits(c, blk as int, shape.cells(sb), bph as int);
            assert(c * bph <= c * bph + blk);
            assert(layer * shape.num_kv_heads <= u);
        }
        let u: usize = layer * shape.num_kv_heads + head;
        let cell: usize = u * bs + slot;
        let q: usize = cell * bph + blk;
        proof {
            lemma_digits_of(c, blk as int, bph as int);
            lemma_block_source(shape, sb, q as int);
            lemma_block_len(shape.head_dim as int, blk as int);
        }
        let ghost mid = page@;
        store_block(page, q, &blocks[j], block_len(shape.head_dim, blk));
        proof {
            assert forall|p: int|
                0 <= p && p * 20 + 20 <= before.len() implies #[trigger] block_at(page@, p)
                == stored_so_far(
                shape,
                sb,
                before,
                layer as int,
                slot as int,
                blocks@,
                j + 1,
                p,
            ) by {
                assert(block_at(mid, p) == stored_so_far(
                    shape,
                    sb,
                    before,
                    layer as int,
                    slot as int,
                    blocks@,
                    j as int,
                    p,
                ));
                lemma_block_source(shape, sb, p);
                if p != q {
                    let pc = p / shape.blocks();
                    if shape.cell_layer(sb, pc) == layer && shape.cell_slot(sb, pc) == slot
                        && source_of(shape, sb, p) == j {
                        lemma_digits_of(
                            shape.cell_head(sb, pc),
                            p % shape.blocks(),
                            shape.blocks(),
                        );
                        lemma_from_digits(p, shape.blocks());
                        lemma_cell_parts(shape, sb, pc);
                        assert(pc == c);
                    }
                }
            }
        }
        j = j + 1;
    }
    proof {
        let after = shape.page_after_store(sb, before, layer as int, slot as int, blocks@);
        assert forall|b: int| 0 <= b < before.len() implies page@[b] == after[b] by {
            let q = b / 20;
            assert(q * 20 + 20 <= before.len()) by {
                lemma_whole_blocks(shape.cells(sb) * shape.blocks(), b);
            }
            assert(block_at(page@, q)[b % 20] == page@[b]);
            lemma_page_not_empty(shape, sb);
            lemma_block_source(shape, sb, q);
            let c = q / shape.blocks();
            lemma_cell_parts(shape, sb, c);
            lemma_from_digits(q, shape.blocks());
            lemma_two_digits(
                shape.cell_head(sb, c),
                q % shape.blocks(),
                shape.num_kv_heads as int,
                shape.blocks(),
            );
        }
        assert(page@ =~= after);
    }
}

/// Copies the numbers of every head for one layer and one slot.
pub fn store_floats(
    page: &mut Vec<u32>,
    shape: Shape,
    bs: usize,
    layer: usize,
    slot: usize,
    source: &[u32],
)
    requires
        shape.fits(bs as int),
        layer < shape.num_layers,
        slot < bs,
        old(page)@.len() == shape.page_floats(bs as int),
        source@.len() == shape.num_kv_heads * shape.head_dim,
    ensures
        final(page)@ == shape.floats_after_store(
            bs as int,
            old(page)@,
            layer as int,
            slot as int,
            source@,
        ),
{
    let ghost before = page@;
    let ghost sb: int = bs as int;
    let hd: usize = shape.head_dim;
    let ghost want = shape.floats_after_store(sb, before, layer as int, slot as int, source@);
    let total: usize = source.len();
    let mut j: usize = 0;
    proof {
        assert forall|e: int| 0 <= e < before.len() implies #[trigger] page@[e] == (if number_of(
            shape,
            sb,
            e,
        ) < 0 {
            want[e]
        } else {
            before[e]
        }) by {
            lemma_floats_not_empty(shape, sb);
            lemma_number_source(shape, sb, e);
        }
    }
    while j < total
        invariant
            j <= total,
            total == source@.len(),
            shape.fits(sb),
            sb == bs,
            hd == shape.head_dim,
            layer < shape.num_layers,
            slot < bs,
            before.len() == shape.page_floats(sb),
            page@.len() == before.len(),
            source@.len() == shape.num_kv_heads * shape.head_dim,
            want == shape.floats_after_store(sb, before, layer as int, slot as int, source@),
            forall|e: int|
                0 <= e < before.len() ==> #[trigger] page@[e] == (if number_of(shape, sb, e) < j {
                    want[e]
                } else {
                    before[e]
                }),
        decreases total - j,
    {
        proof {
            assert(hd > 0) by (nonlinear_arith)
                requires
                    shape.num_kv_heads * hd > 0,
                    0 <= hd,
            ;
            lemma_from_digits(j as int, hd as int);
            assert(j / hd < shape.num_kv_heads) by (nonlinear_arith)
                requires
                    j < shape.num_kv_heads * hd,
                    j == (j / hd) * hd + j % hd,
                    0 <= j % hd,
            ;
        }
        let head: usize = j / hd;
        let i: usize = j % hd;
        let ghost c = shape.cell(sb, layer as int, head as int, slot as int);
        proof {
            lemma_cell(shape, sb, layer as int, head as int, slot as int);
            lemma_two_digits(
                layer as int,
                head as int,
                shape.num_layers as int,
                shape.num_kv_heads as int,
            );
            let u = layer * shape.num_kv_heads + head;
            assert(u * bs <= c);
            lemma_two_digits(c, i as int, shape.cells(sb), hd as int);
            assert(c * hd <= c * hd + i);
            assert(layer * shape.num_kv_heads <= u);
        }
        let u: usize = layer * shape.num_kv_heads + head;
        let cell: usize = u * bs + slot;
        let at: usize = cell * hd + i;
        proof {
            lemma_digits_of(c, i as int, hd as int);
        }
        page.set(at, source[j]);
        proof {
            assert forall|e: int| 0 <= e < before.len() implies #[trigger] page@[e] == (if number_of(
                shape,
                sb,
                e,
            ) < j + 1 {
                want[e]
            } else {
                before[e]
            }) by {
                lemma_number_source(shape, sb, e);
                if e != at {
                    let ec = e / hd as int;
                    if shape.cell_layer(sb, ec) == layer && shape.cell_slot(sb, ec) == slot
                        && number_of(shape, sb, e) == j {
                        lemma_digits_of(shape.cell_head(sb, ec), e % hd as int, hd as int);
                        lemma_from_digits(e, hd as int);
                        lemma_cell_parts(shape, sb, ec);
                        assert(ec == c);
                    }
                }
            }
        }
        j = j + 1;
    }
    proof {
        assert forall|e: int| 0 <= e < before.len() implies page@[e] == want[e] by {
            lemma_floats_not_empty(shape, sb);
            lemma_number_source(shape, sb, e);
            let c = e / hd as int;
            lemma_cell_parts(shape, sb, c);
            lemma_from_digits(e, hd as int);
            lemma_two_digits(
                shape.cell_head(sb, c),
                e % hd as int,
                shape.num_kv_heads as int,
                hd as int,
            );
        }
        assert(page@ =~= want);
    }
}

/// Lists what restores each number of a page.
pub fn page_terms(page: &Vec<u8>, shape: Shape, bs: usize) -> (r: Vec<Q4Term>)
    requires
        shape.fits(bs as int),
        0 < bs,
        page@.len() == shape.page_bytes(bs as int),
    ensures
        r@ == shape.terms(bs as int, page@),
{
    let ghost sb: int = bs as int;
    let hd: usize = shape.head_dim;
    let bph: usize = blocks_per_head(hd);
    proof {
        assert(0 <= shape.num_layers * shape.num_kv_heads) by (nonlinear_arith);
    }
    let pairs: usize = shape.num_layers * shape.num_kv_heads;
    let cells: usize = pairs * bs;
    let mut r: Vec<Q4Term> = Vec::new();
    let mut c: usize = 0;
    while c < cells
        invariant
            c <= cells,
            cells == shape.cells(sb),
            shape.fits(sb),
            hd == shape.head_dim,
            bph == shape.blocks(),
            page@.len() == shape.page_bytes(sb),
            r@.len() == c * hd,
            forall|e: int| 0 <= e < r@.len() ==> #[trigger] r@[e] == shape.term(page@, e),
        decreases cells - c,
    {
        let mut i: usize = 0;
        while i < hd
            invariant
                c < cells,
                i <= hd,
                cells == shape.cells(sb),
                shape.fits(sb),
                hd == shape.head_dim,
                bph == shape.blocks(),
                page@.len() == shape.page_bytes(sb),
                r@.len() == c * hd + i,
                forall|e: int| 0 <= e < r@.len() ==> #[trigger] r@[e] == shape.term(page@, e),
            decreases hd - i,
        {
            proof {
                lemma_two_digits(c as int, (i / 32) as int, cells as int, bph as int);
                lemma_digits_of(c as int, i as int, hd as int);
                assert(0 <= c * bph) by (nonlinear_arith)
                    requires
                        0 <= c,
                        0 <= bph,
                ;
            }
            let q: usize = c * bph + i / 32;
            r.push(load_term(page, q, i % 32));
            i = i + 1;
        }
        assert((c + 1) * hd == c * hd + hd) by (nonlinear_arith);
        c = c + 1;
    }
    assert(r@ =~= shape.terms(sb, page@));
    r
}

/// What is stored for a slot is what a later read of that slot restores
/// from, whatever the slot held before.
pub proof fn law_stored_vector_reads_back(
    shape: Shape,
    bs: int,
    page: Seq<u8>,
    layer: int,
    head: int,
    slot: int,
    blocks: Seq<Q4Block>,
    i: int,
)
    requires
        shape.fits(bs),
        page.len() == shape.page_bytes(bs),
        blocks.len() == shape.num_kv_heads * shape.blocks(),
        0 <= layer < shape.num_layers,
        0 <= head < shape.num_kv_heads,
        0 <= slot < bs,
        0 <= i < shape.head_dim,
        blocks[head * shape.blocks() + i / 32].valid(),
    ensures
        shape.term(
            shape.page_after_store(bs, page, layer, slot, blocks),
            shape.cell(bs, layer, head, slot) * shape.head_dim + i,
        ) == (Q4Term {
            d: blocks[head * shape.blocks() + i / 32].d,
            dmin: blocks[head * shape.blocks() + i / 32].dmin,
            code: blocks[head * shape.blocks() + i / 32].codes@[i % 32],
        }),
{
    let c = shape.cell(bs, layer, head, slot);
    let q = c * shape.blocks() + i / 32;
    let after = shape.page_after_store(bs, page, layer, slot, blocks);
    lemma_cell(shape, bs, layer, head, slot);
    lemma_digits_of(c, i, shape.head_dim as int);
    lemma_digits_of(c, i / 32, shape.blocks());
    lemma_two_digits(c, i / 32, shape.cells(bs), shape.blocks());
    lemma_stored_block(shape, bs, page, layer, slot, blocks, q);
    lemma_block_len(shape.head_dim as int, i / 32);
    law_block_reads_back(
        blocks[head * shape.blocks() + i / 32],
        spec_block_len(shape.head_dim as int, i / 32),
        i % 32,
    );
}

/// Storing a slot of a layer leaves every other vector of the page alone.
pub proof fn law_store_keeps_other_vectors(
    shape: Shape,
    bs: int,
    page: Seq<u8>,
    layer: int,
    slot: int,
    blocks: Seq<Q4Block>,
    other_layer: int,
    other_head: int,
    other_slot: int,
    i: int,
)
    requires
        shape.fits(bs),
        page.len() == shape.page_bytes(bs),
        0 <= other_layer < shape.num_layers,
        0 <= other_head < shape.num_kv_heads,
        0 <= other_slot < bs,
        0 <= i < shape.head_dim,
        other_layer != layer || other_slot != slot,
    ensures
        shape.term(
            shape.page_after_store(bs, page, layer, slot, blocks),
            shape.cell(bs, other_layer, other_head, other_slot) * shape.head_dim + i,
        ) == shape.term(
            page,
            shape.cell(bs, other_layer, other_head, other_slot) * shape.head_dim + i,
        ),
{
    let c = shape.cell(bs, other_layer, other_head, other_slot);
    let q = c * shape.blocks() + i / 32;
    lemma_cell(shape, bs, other_layer, other_head, other_slot);
    lemma_digits_of(c, i, shape.head_dim as int);
    lemma_digits_of(c, i / 32, shape.blocks());
    lemma_two_digits(c, i / 32, shape.cells(bs), shape.blocks());
    lemma_stored_block(shape, bs, page, layer, slot, blocks, q);
}

proof fn lemma_stored_block(
    shape: Shape,
    bs: int,
    page: Seq<u8>,
    layer: int,
    slot: int,
    blocks: Seq<Q4Block>,
    q: int,
)
    requires
        0 <= q < shape.cells(bs) * shape.blocks(),
        page.len() == shape.page_bytes(bs),
    ensures
        block_at(shape.page_after_store(bs, page, layer, slot, blocks), q)
            == shape.block_after_store(bs, page, layer, slot, blocks, q),
{
    let after = shape.page_after_store(bs, page, layer, slot, blocks);
    let want = shape.block_after_store(bs, page, layer, slot, blocks, q);
    assert(q * 20 + 20 <= page.len());
    assert forall|r: int| 0 <= r < 20 implies block_at(after, q)[r] == want[r] by {
        assert((q * 20 + r) / 20 == q && (q * 20 + r) % 20 == r);
    }
    assert(block_at(after, q) =~= want);
}

/// Place in the source of the number stored as number `e`.
spec fn number_of(shape: Shape, bs: int, e: int) -> int {
    shape.cell_head(bs, e / shape.head_dim as int) * shape.head_dim + e % shape.head_dim as int
}

proof fn lemma_number_source(shape: Shape, bs: int, e: int)
    requires
        0 <= e,
        0 < shape.head_dim,
        0 < shape.num_kv_heads,
        0 < bs,
    ensures
        0 <= number_of(shape, bs, e),
{
    let hd = shape.head_dim as int;
    lemma_from_digits(e, hd);
    lemma_cell_parts(shape, bs, e / hd);
    lemma_two_digits(shape.cell_head(bs, e / hd), e % hd, shape.num_kv_heads as int, hd);
}

proof fn lemma_floats_not_empty(shape: Shape, bs: int)
    requires
        shape.page_floats(bs) > 0,
        0 < bs,
    ensures
        shape.head_dim > 0,
        shape.num_kv_heads > 0,
{
    assert(shape.head_dim > 0) by (nonlinear_arith)
        requires
            shape.num_layers * shape.num_kv_heads * bs * shape.head_dim > 0,
            0 <= shape.head_dim,
    ;
    assert(shape.num_kv_heads > 0) by (nonlinear_arith)
        requires
            shape.num_layers * shape.num_kv_heads * bs * shape.head_dim > 0,
            0 <= shape.num_kv_heads,
    ;
}

/// Place in the source of the block stored as block `q`.
spec fn source_of(shape: Shape, bs: int, q: int) -> int {
    shape.cell_head(bs, q / shape.blocks()) * shape.blocks() + q % shape.blocks()
}

/// Block `q` once the first `j` source blocks are stored.
spec fn stored_so_far(
    shape: Shape,
    bs: int,
    page: Seq<u8>,
    layer: int,
    slot: int,
    blocks: Seq<Q4Block>,
    j: int,
    q: int,
) -> Seq<u8> {
    if source_of(shape, bs, q) < j {
        shape.block_after_store(bs, page, layer, slot, blocks, q)
    } else {
        block_at(page, q)
    }
}

proof fn lemma_block_source(shape: Shape, bs: int, q: int)
    requires
        0 <= q,
        0 < shape.blocks(),
        0 < bs,
    ensures
        shape.num_kv_heads > 0 ==> 0 <= source_of(shape, bs, q),
{
    lemma_from_digits(q, shape.blocks());
    if shape.num_kv_heads > 0 {
        lemma_cell_parts(shape, bs, q / shape.blocks());
        assert(0 <= source_of(shape, bs, q)) by (nonlinear_arith)
            requires
                0 <= shape.cell_head(bs, q / shape.blocks()),
                0 < shape.blocks(),
                0 <= q % shape.blocks(),
                source_of(shape, bs, q) == shape.cell_head(bs, q / shape.blocks())
                    * shape.blocks() + q % shape.blocks(),
        ;
    }
}

proof fn lemma_page_not_empty(shape: Shape, bs: int)
    requires
        shape.page_bytes(bs) > 0,
        0 < bs,
    ensures
        shape.blocks() > 0,
        shape.num_kv_heads > 0,
{
    let cells = shape.cells(bs);
    let blocks = shape.blocks();
    assert(blocks > 0) by (nonlinear_arith)
        requires
            cells * blocks * 20 > 0,
            0 <= blocks,
    ;
    assert(shape.num_kv_heads > 0) by (nonlinear_arith)
        requires
            shape.num_layers * shape.num_kv_heads * bs * blocks * 20 > 0,
            0 <= shape.num_kv_heads,
    ;
}

proof fn lemma_block_len(head_dim: int, blk: int)
    requires
        0 <= blk < spec_blocks_per_head(head_dim),
    ensures
        blk * 32 <= head_dim,
        0 <= spec_block_len(head_dim, blk) <= 32,
{
}

proof fn lemma_whole_blocks(n: int, b: int)
    requires
        0 <= b < n * 20,
    ensures
        (b / 20) * 20 + 20 <= n * 20,
{
}

/// Vectors lie slot by slot, then head by head, then layer by layer, without gaps.
pub proof fn law_vectors_lie_slot_by_slot(shape: Shape, bs: int, layer: int, head: int, slot: int)
    ensures
        shape.cell(bs, 0, 0, 0) == 0,
        shape.cell(bs, layer, head, slot + 1) == shape.cell(bs, layer, head, slot) + 1,
        shape.cell(bs, layer, head + 1, slot) == shape.cell(bs, layer, head, slot) + bs,
        shape.cell(bs, layer + 1, head, slot) == shape.cell(bs, layer, head, slot)
            + shape.num_kv_heads * bs,
        shape.cells(bs) == shape.cell(bs, shape.num_layers as int, 0, 0),
{
    let h = shape.num_kv_heads as int;
    let l = shape.num_layers as int;
    assert((layer * h + (head + 1)) * bs == (layer * h + head) * bs + bs) by (nonlinear_arith);
    assert(((layer + 1) * h + head) * bs == (layer * h + head) * bs + h * bs) by (nonlinear_arith);
    assert((0 * h + 0) * bs == 0) by (nonlinear_arith);
    assert((l * h + 0) * bs == l * h * bs) by (nonlinear_arith);
}

/// A quantised page has twenty bytes for each block of each of its vectors, a restored
/// page a number for each of their entries.
pub proof fn law_pages_hold_their_vectors(shape: Shape, bs: int)
    ensures
        shape.page_bytes(bs) == 20 * (shape.cells(bs) * shape.blocks()),
        shape.page_floats(bs) == shape.cells(bs) * shape.head_dim,
{
}

} // verus!
