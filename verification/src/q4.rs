//! The four-bit block format of cached keys and values.
//!
//! A block covers up to 32 numbers of one head in 20 bytes: the scale and
//! the minimum as half-precision bit patterns in little-endian order, then
//! sixteen bytes of nibbles, even positions low and odd positions high.

use vstd::prelude::*;

verus! {

/// Bytes of one block.
pub const BLOCK_BYTES: usize = 20;

/// One quantised block before it is stored.
#[derive(Debug, Clone, Copy)]
pub struct Q4Block {
    /// Bit pattern of the half-precision scale.
    pub d: u16,
    /// Bit pattern of the half-precision minimum.
    pub dmin: u16,
    /// One code below sixteen per number.
    pub codes: [u8; 32],
}

/// What is needed to restore one number: `d * code + dmin`.
#[derive(Debug, Clone, Copy, PartialEq, Eq, Structural)]
pub struct Q4Term {
    pub d: u16,
    pub dmin: u16,
    pub code: u8,
}

impl Q4Block {
    /// Every code fits in a nibble.
    pub open spec fn valid(&self) -> bool {
        forall|i: int| 0 <= i < 32 ==> (#[trigger] self.codes@[i]) <= 15
    }
}

/// Blocks needed for one head.
pub open spec fn spec_blocks_per_head(head_dim: int) -> int {
    (head_dim + 31) / 32
}

/// Numbers in block `blk` of a head.
pub open spec fn spec_block_len(head_dim: int, blk: int) -> int {
    if head_dim - blk * 32 < 32 {
        head_dim - blk * 32
    } else {
        32
    }
}

/// The `i`-th of a block's codes, or zero past the numbers that it covers.
pub open spec fn code_or_zero(b: Q4Block, len: int, i: int) -> u8 {
    if i < len {
        b.codes@[i]
    } else {
        0
    }
}

/// The `n`-th nibble byte of a block.
pub open spec fn packed_byte(b: Q4Block, len: int, n: int) -> u8 {
    code_or_zero(b, len, 2 * n) | (code_or_zero(b, len, 2 * n + 1) << 4)
}

/// The bytes of a block in which `b` is stored, whatever was there before.
pub open spec fn block_bytes_of(b: Q4Block, len: int) -> Seq<u8> {
    Seq::new(
        20,
        |r: int|
            if r == 0 {
                (b.d % 256) as u8
            } else if r == 1 {
                (b.d / 256) as u8
            } else if r == 2 {
                (b.dmin % 256) as u8
            } else if r == 3 {
                (b.dmin / 256) as u8
            } else {
                packed_byte(b, len, r - 4)
            },
    )
}

/// Block `q` of a page.
pub open spec fn block_at(page: Seq<u8>, q: int) -> Seq<u8> {
    page.subrange(q * 20, q * 20 + 20)
}

/// The term for number `i` of a block.
pub open spec fn term_in_block(block: Seq<u8>, i: int) -> Q4Term {
    Q4Term {
        d: (block[0] + block[1] * 256) as u16,
        dmin: (block[2] + block[3] * 256) as u16,
        code: if i % 2 == 0 {
            block[4 + i / 2] & 0x0F
        } else {
            block[4 + i / 2] >> 4
        },
    }
}

/// Blocks needed for one head.
pub fn blocks_per_head(head_dim: usize) -> (n: usize)
    requires
        head_dim + 31 <= usize::MAX,
    ensures
        n == spec_blocks_per_head(head_dim as int),
{
    (head_dim + 31) / 32
}

/// Numbers in block `blk` of a head.
pub fn block_len(head_dim: usize, blk: usize) -> (n: usize)
    requires
        blk * 32 <= head_dim,
    ensures
        n == spec_block_len(head_dim as int, blk as int),
{
    let rest: usize = head_dim - blk * 32;
    if rest < 32 {
        rest
    } else {
        32
    }
}

/// Stores `b` as block `q` of `page`.
pub fn store_block(page: &mut Vec<u8>, q: usize, b: &Q4Block, len: usize)
    requires
        len <= 32,
        q * 20 + 20 <= old(page)@.len(),
    ensures
        final(page)@.len() == old(page)@.len(),
        block_at(final(page)@, q as int) == block_bytes_of(*b, len as int),
        forall|p: int|
            0 <= p && p != q && p * 20 + 20 <= old(page)@.len() ==> #[trigger] block_at(
                final(page)@,
                p,
            ) == block_at(old(page)@, p),
{
    let ghost before = page@;
    assert(page.len() <= usize::MAX);
    let off: usize = q * 20;
    let ghost want = block_bytes_of(*b, len as int);
    page.set(off, (b.d % 256) as u8);
    page.set(off + 1, (b.d / 256) as u8);
    page.set(off + 2, (b.dmin % 256) as u8);
    page.set(off + 3, (b.dmin / 256) as u8);
    let mut n: usize = 0;
    while n < 16
        invariant
            n <= 16,
            len <= 32,
            off == q * 20,
            off + 20 <= before.len() <= usize::MAX,
            page@.len() == before.len(),
            want == block_bytes_of(*b, len as int),
            forall|r: int| 0 <= r < 4 + n ==> (#[trigger] page@[off + r]) == want[r],
            forall|x: int|
                0 <= x < before.len() && !(off <= x < off + 4 + n) ==> (#[trigger] page@[x])
                    == before[x],
        decreases 16 - n,
    {
        let low: u8 = if 2 * n < len {
            b.codes[2 * n]
        } else {
            0
        };
        let high: u8 = if 2 * n + 1 < len {
            b.codes[2 * n + 1]
        } else {
            0
        };
        let at: usize = off + 4 + n;
        page.set(at, low | (high << 4));
        n = n + 1;
    }
    proof {
        assert(block_at(page@, q as int) =~= want) by {
            assert forall|r: int| 0 <= r < 20 implies block_at(page@, q as int)[r] == want[r] by {
                assert(page@[off + r] == want[r]);
            }
        }
        assert forall|p: int|
            0 <= p && p != q && p * 20 + 20 <= before.len() implies #[trigger] block_at(page@, p)
            == block_at(before, p) by {
            assert(block_at(page@, p) =~= block_at(before, p));
        }
    }
}

/// Reads the term of number `i` in block `q` of `page`.
pub fn load_term(page: &Vec<u8>, q: usize, i: usize) -> (t: Q4Term)
    requires
        i < 32,
        q * 20 + 20 <= page@.len(),
    ensures
        t == term_in_block(block_at(page@, q as int), i as int),
{
    assert(page.len() <= usize::MAX);
    let off: usize = q * 20;
    let d: u16 = page[off] as u16 + page[off + 1] as u16 * 256;
    let dmin: u16 = page[off + 2] as u16 + page[off + 3] as u16 * 256;
    let byte: u8 = page[off + 4 + i / 2];
    let code: u8 = if i % 2 == 0 {
        byte & 0x0F
    } else {
        byte >> 4
    };
    Q4Term { d, dmin, code }
}

/// A stored block reads back as it was: the same scale, the same minimum and
/// the same code at every covered number.
pub proof fn law_block_reads_back(b: Q4Block, len: int, i: int)
    requires
        b.valid(),
        0 <= i < len <= 32,
    ensures
        term_in_block(block_bytes_of(b, len), i) == (Q4Term {
            d: b.d,
            dmin: b.dmin,
            code: b.codes@[i],
        }),
{
    let block = block_bytes_of(b, len);
    let n = i / 2;
    let low = code_or_zero(b, len, 2 * n);
    let high = code_or_zero(b, len, 2 * n + 1);
    assert(low <= 15 && high <= 15);
    assert(block[4 + n] == low | (high << 4));
    assert((low | (high << 4)) & 0x0F == low) by (bit_vector)
        requires
            low <= 15,
            high <= 15,
    ;
    assert((low | (high << 4)) >> 4 == high) by (bit_vector)
        requires
            low <= 15,
            high <= 15,
    ;
}

/// The blocks of a head cover its numbers, one after the other: all but the last hold
/// thirty-two, and the last holds what is left.
pub proof fn law_blocks_cover_the_head(head_dim: int, blk: int)
    requires
        0 <= head_dim,
        0 <= blk < spec_blocks_per_head(head_dim),
    ensures
        1 <= spec_block_len(head_dim, blk) <= 32,
        blk + 1 < spec_blocks_per_head(head_dim) ==> spec_block_len(head_dim, blk) == 32,
        blk + 1 == spec_blocks_per_head(head_dim) ==> 32 * blk + spec_block_len(head_dim, blk)
            == head_dim,
{
}

/// How a block lies in memory: scale and minimum with the lower byte first, then the
/// codes, two to a byte with the earlier one in the lower half; codes past the covered
/// numbers are zero.
pub proof fn law_block_layout(b: Q4Block, len: int, n: int)
    requires
        b.valid(),
        0 <= len <= 32,
        0 <= n < 16,
    ensures
        ({
            let bytes = block_bytes_of(b, len);
            &&& bytes.len() == 20
            &&& bytes[0] + 256 * bytes[1] == b.d
            &&& bytes[2] + 256 * bytes[3] == b.dmin
            &&& bytes[4 + n] == (if 2 * n < len {
                b.codes@[2 * n] as int
            } else {
                0
            }) + 16 * (if 2 * n + 1 < len {
                b.codes@[2 * n + 1] as int
            } else {
                0
            })
        }),
{
    let lo = code_or_zero(b, len, 2 * n);
    let hi = code_or_zero(b, len, 2 * n + 1);
    assert(lo | (hi << 4) == lo + 16 * hi) by (bit_vector)
        requires
            lo <= 15,
            hi <= 15,
    ;
}

} // verus!
