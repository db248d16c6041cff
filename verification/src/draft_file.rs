//! The file format of a saved draft ring.
//!
//! All numbers are little-endian.  A header of eight words (the magic, the
//! version, the extent of the projections, the capacity, the draft length,
//! the head and the length) is followed by the projections as 32-bit
//! patterns and by the hashes, tokens and positions of the ring as 64-bit
//! numbers.

use crate::pattern_draft::PatternDraft;
use vstd::prelude::*;

verus! {

/// Bytes of the header.
pub const HEADER_BYTES: usize = 32;

/// "SWDP" as a little-endian word.
pub const MAGIC: u32 = 0x5044_5753;

pub const VERSION: u32 = 1;

/// Observations between two saves.
pub const SAVE_INTERVAL: usize = 100;

/// The 32-bit number at `at`.
pub open spec fn word(data: Seq<u8>, at: int) -> int {
    data[at] + data[at + 1] * 0x100 + data[at + 2] * 0x1_0000 + data[at + 3] * 0x100_0000
}

/// The 64-bit number at `at`.
pub open spec fn long(data: Seq<u8>, at: int) -> int {
    word(data, at) + word(data, at + 4) * 0x1_0000_0000
}

/// Bytes of a file with the given extent.
pub open spec fn file_bytes(num_bits: int, embed_dim: int, capacity: int) -> int {
    HEADER_BYTES + 4 * (num_bits * embed_dim) + 24 * capacity
}

/// The low 32 bits of a number.
pub open spec fn low32(x: int) -> int {
    x % 0x1_0000_0000
}

/// The header of `data` holds the numbers of `d`, cut to 32 bits.
pub open spec fn header_of(data: Seq<u8>, d: &PatternDraft) -> bool {
    &&& word(data, 8) == low32(d.spec_embed_dim())
    &&& word(data, 12) == low32(d.spec_num_bits())
    &&& word(data, 16) == low32(d.spec_capacity())
    &&& word(data, 20) == low32(d.spec_draft_length())
    &&& word(data, 24) == low32(d.spec_head())
    &&& word(data, 28) == low32(d.spec_len())
}

/// The rest of `data` holds the projections and the ring of `d`.
pub open spec fn body_of(data: Seq<u8>, d: &PatternDraft) -> bool {
    let ring = HEADER_BYTES + 4 * d.projections().len();
    let cap = d.spec_capacity();
    &&& data.len() >= ring + 24 * cap
    &&& forall|i: int|
        0 <= i < d.projections().len() ==> (#[trigger] d.projections()[i]) == word(
            data,
            HEADER_BYTES + 4 * i,
        )
    &&& forall|i: int|
        0 <= i < cap ==> (#[trigger] d.ring_hashes()[i]) == long(data, ring + 8 * i)
    &&& forall|i: int|
        0 <= i < cap ==> (#[trigger] d.ring_tokens()[i]) == long(data, ring + 8 * cap + 8 * i)
            as usize
    &&& forall|i: int|
        0 <= i < cap ==> (#[trigger] d.ring_positions()[i]) == long(
            data,
            ring + 16 * cap + 8 * i,
        ) as usize
}

/// `data` starts with the magic and is as long as its header says.
pub open spec fn readable(data: Seq<u8>) -> bool {
    &&& data.len() >= HEADER_BYTES
    &&& word(data, 0) == MAGIC
    &&& data.len() >= file_bytes(word(data, 12), word(data, 8), word(data, 16))
}

fn push_word(buf: &mut Vec<u8>, x: u32)
    ensures
        final(buf)@.len() == old(buf)@.len() + 4,
        final(buf)@.take(old(buf)@.len() as int) == old(buf)@,
        word(final(buf)@, old(buf)@.len() as int) == x,
{
    let ghost before = buf@;
    buf.push((x % 0x100) as u8);
    buf.push((x / 0x100 % 0x100) as u8);
    buf.push((x / 0x1_0000 % 0x100) as u8);
    buf.push((x / 0x100_0000) as u8);
    assert(buf@.take(before.len() as int) =~= before);
}

fn push_long(buf: &mut Vec<u8>, x: u64)
    ensures
        final(buf)@.len() == old(buf)@.len() + 8,
        final(buf)@.take(old(buf)@.len() as int) == old(buf)@,
        long(final(buf)@, old(buf)@.len() as int) == x,
{
    let ghost before = buf@;
    push_word(buf, (x % 0x1_0000_0000) as u32);
    let ghost middle = buf@;
    push_word(buf, (x / 0x1_0000_0000) as u32);
    proof {
        lemma_word_kept(middle, buf@, before.len() as int);
        assert(buf@.take(before.len() as int) =~= before) by {
            assert(buf@.take(middle.len() as int) == middle);
            assert forall|i: int| 0 <= i < before.len() implies buf@[i] == before[i] by {
                assert(buf@.take(middle.len() as int)[i] == middle[i]);
                assert(middle.take(before.len() as int)[i] == before[i]);
            }
        }
    }
}

/// Numbers of a prefix are numbers of the whole.
proof fn lemma_word_kept(short: Seq<u8>, whole: Seq<u8>, at: int)
    requires
        short.len() <= whole.len(),
        whole.take(short.len() as int) == short,
        0 <= at,
        at + 4 <= short.len(),
    ensures
        word(short, at) == word(whole, at),
{
    assert(short[at] == whole[at]);
    assert(short[at + 1] == whole[at + 1]);
    assert(short[at + 2] == whole[at + 2]);
    assert(short[at + 3] == whole[at + 3]);
}

proof fn lemma_long_kept(short: Seq<u8>, whole: Seq<u8>, at: int)
    requires
        short.len() <= whole.len(),
        whole.take(short.len() as int) == short,
        0 <= at,
        at + 8 <= short.len(),
    ensures
        long(short, at) == long(whole, at),
{
    lemma_word_kept(short, whole, at);
    lemma_word_kept(short, whole, at + 4);
}

fn read_word(data: &[u8], at: usize) -> (x: u32)
    requires
        at + 4 <= data@.len(),
    ensures
        x == word(data@, at as int),
{
    assert(data.len() <= usize::MAX);
    data[at] as u32 + data[at + 1] as u32 * 0x100 + data[at + 2] as u32 * 0x1_0000 + data[at
        + 3] as u32 * 0x100_0000
}

fn read_long(data: &[u8], at: usize) -> (x: u64)
    requires
        at + 8 <= data@.len(),
    ensures
        x == long(data@, at as int),
{
    assert(data.len() <= usize::MAX);
    read_word(data, at) as u64 + read_word(data, at + 4) as u64 * 0x1_0000_0000
}

fn push_words(buf: &mut Vec<u8>, words: &Vec<u32>)
    ensures
        final(buf)@.len() == old(buf)@.len() + 4 * words@.len(),
        final(buf)@.take(old(buf)@.len() as int) == old(buf)@,
        forall|i: int|
            0 <= i < words@.len() ==> (#[trigger] words@[i]) == word(
                final(buf)@,
                old(buf)@.len() + 4 * i,
            ),
{
    let ghost base = buf@;
    let mut i: usize = 0;
    assert(buf@.take(base.len() as int) =~= base);
    while i < words.len()
        invariant
            i <= words@.len(),
            buf@.len() == base.len() + 4 * i,
            buf@.take(base.len() as int) == base,
            forall|k: int|
                0 <= k < i ==> (#[trigger] words@[k]) == word(buf@, base.len() + 4 * k),
        decreases words@.len() - i,
    {
        let ghost before = buf@;
        push_word(buf, words[i]);
        proof {
            assert(buf@.take(base.len() as int) =~= base) by {
                assert forall|k: int| 0 <= k < base.len() implies buf@[k] == base[k] by {
                    assert(buf@.take(before.len() as int)[k] == before[k]);
                    assert(before.take(base.len() as int)[k] == base[k]);
                }
            }
            assert forall|k: int| 0 <= k < i + 1 implies (#[trigger] words@[k]) == word(
                buf@,
                base.len() + 4 * k,
            ) by {
                if k < i {
                    lemma_word_kept(before, buf@, base.len() + 4 * k);
                }
            }
        }
        i = i + 1;
    }
}

fn push_longs(buf: &mut Vec<u8>, longs: &Vec<u64>)
    ensures
        final(buf)@.len() == old(buf)@.len() + 8 * longs@.len(),
        final(buf)@.take(old(buf)@.len() as int) == old(buf)@,
        forall|i: int|
            0 <= i < longs@.len() ==> (#[trigger] longs@[i]) == long(
                final(buf)@,
                old(buf)@.len() + 8 * i,
            ),
{
    let ghost base = buf@;
    let mut i: usize = 0;
    assert(buf@.take(base.len() as int) =~= base);
    while i < longs.len()
        invariant
            i <= longs@.len(),
            buf@.len() == base.len() + 8 * i,
            buf@.take(base.len() as int) == base,
            forall|k: int|
                0 <= k < i ==> (#[trigger] longs@[k]) == long(buf@, base.len() + 8 * k),
        decreases longs@.len() - i,
    {
        let ghost before = buf@;
        push_long(buf, longs[i]);
        proof {
            assert(buf@.take(base.len() as int) =~= base) by {
                assert forall|k: int| 0 <= k < base.len() implies buf@[k] == base[k] by {
                    assert(buf@.take(before.len() as int)[k] == before[k]);
                    assert(before.take(base.len() as int)[k] == base[k]);
                }
            }
            assert forall|k: int| 0 <= k < i + 1 implies (#[trigger] longs@[k]) == long(
                buf@,
                base.len() + 8 * k,
            ) by {
                if k < i {
                    lemma_long_kept(before, buf@, base.len() + 8 * k);
                }
            }
        }
        i = i + 1;
    }
}

fn push_sizes(buf: &mut Vec<u8>, sizes: &Vec<usize>)
    ensures
        final(buf)@.len() == old(buf)@.len() + 8 * sizes@.len(),
        final(buf)@.take(old(buf)@.len() as int) == old(buf)@,
        forall|i: int|
            0 <= i < sizes@.len() ==> (#[trigger] sizes@[i]) == long(
                final(buf)@,
                old(buf)@.len() + 8 * i,
            ),
{
    let ghost base = buf@;
    let mut i: usize = 0;
    assert(buf@.take(base.len() as int) =~= base);
    while i < sizes.len()
        invariant
            i <= sizes@.len(),
            buf@.len() == base.len() + 8 * i,
            buf@.take(base.len() as int) == base,
            forall|k: int|
                0 <= k < i ==> (#[trigger] sizes@[k]) == long(buf@, base.len() + 8 * k),
        decreases sizes@.len() - i,
    {
        let ghost before = buf@;
        push_long(buf, sizes[i] as u64);
        proof {
            assert(buf@.take(base.len() as int) =~= base) by {
                assert forall|k: int| 0 <= k < base.len() implies buf@[k] == base[k] by {
                    assert(buf@.take(before.len() as int)[k] == before[k]);
                    assert(before.take(base.len() as int)[k] == base[k]);
                }
            }
            assert forall|k: int| 0 <= k < i + 1 implies (#[trigger] sizes@[k]) == long(
                buf@,
                base.len() + 8 * k,
            ) by {
                if k < i {
                    lemma_long_kept(before, buf@, base.len() + 8 * k);
                }
            }
        }
        i = i + 1;
    }
}

fn cut32(x: usize) -> (r: u32)
    ensures
        r == low32(x as int),
{
    (x as u64 % 0x1_0000_0000) as u32
}

/// The bytes of a draft ring.
pub fn encode_draft(d: &PatternDraft) -> (data: Vec<u8>)
    requires
        d.sized(),
    ensures
        data@.len() == file_bytes(d.spec_num_bits(), d.spec_embed_dim(), d.spec_capacity()),
        word(data@, 0) == MAGIC,
        word(data@, 4) == VERSION,
        header_of(data@, d),
        body_of(data@, d),
{
    let mut buf: Vec<u8> = Vec::new();
    push_word(&mut buf, MAGIC);
    let ghost b1 = buf@;
    push_word(&mut buf, VERSION);
    let ghost b2 = buf@;
    push_word(&mut buf, cut32(d.embed_dim()));
    let ghost b3 = buf@;
    push_word(&mut buf, cut32(d.num_bits()));
    let ghost b4 = buf@;
    push_word(&mut buf, cut32(d.capacity()));
    let ghost b5 = buf@;
    push_word(&mut buf, cut32(d.draft_length()));
    let ghost b6 = buf@;
    push_word(&mut buf, cut32(d.head()));
    let ghost b7 = buf@;
    push_word(&mut buf, cut32(d.len()));
    let ghost b8 = buf@;
    proof {
        lemma_prefix(b7, b8);
        lemma_prefix(b6, b7);
        lemma_prefix(b5, b6);
        lemma_prefix(b4, b5);
        lemma_prefix(b3, b4);
        lemma_prefix(b2, b3);
        lemma_prefix(b1, b2);
    }
    push_words(&mut buf, d.lsh());
    let ghost c1 = buf@;
    push_longs(&mut buf, d.hashes());
    let ghost c2 = buf@;
    push_sizes(&mut buf, d.tokens());
    let ghost c3 = buf@;
    push_sizes(&mut buf, d.positions());
    proof {
        let data = buf@;
        let ring = HEADER_BYTES + 4 * d.projections().len();
        let cap = d.spec_capacity();
        lemma_prefix(b8, c1);
        lemma_prefix(c1, c2);
        lemma_prefix(c2, c3);
        lemma_prefix(c3, data);
        assert(data.take(b8.len() as int) =~= b8) by {
            assert forall|i: int| 0 <= i < b8.len() implies data[i] == b8[i] by {
                assert(b8[i] == c1[i] && c1[i] == c2[i] && c2[i] == c3[i]);
            }
        }
        assert(data.take(c1.len() as int) =~= c1) by {
            assert forall|i: int| 0 <= i < c1.len() implies data[i] == c1[i] by {
                assert(c1[i] == c2[i] && c2[i] == c3[i]);
            }
        }
        assert(data.take(c2.len() as int) =~= c2) by {
            assert forall|i: int| 0 <= i < c2.len() implies data[i] == c2[i] by {
                assert(c2[i] == c3[i]);
            }
        }
        lemma_word_kept(b8, data, 0);
        lemma_word_kept(b8, data, 4);
        lemma_word_kept(b8, data, 8);
        lemma_word_kept(b8, data, 12);
        lemma_word_kept(b8, data, 16);
        lemma_word_kept(b8, data, 20);
        lemma_word_kept(b8, data, 24);
        lemma_word_kept(b8, data, 28);
        assert forall|i: int|
            0 <= i < d.projections().len() implies (#[trigger] d.projections()[i]) == word(
            data,
            HEADER_BYTES + 4 * i,
        ) by {
            lemma_word_kept(c1, data, HEADER_BYTES + 4 * i);
        }
        assert forall|i: int| 0 <= i < cap implies (#[trigger] d.ring_hashes()[i]) == long(
            data,
            ring + 8 * i,
        ) by {
            lemma_long_kept(c2, data, ring + 8 * i);
        }
        assert forall|i: int| 0 <= i < cap implies (#[trigger] d.ring_tokens()[i]) == long(
            data,
            ring + 8 * cap + 8 * i,
        ) as usize by {
            lemma_long_kept(c3, data, ring + 8 * cap + 8 * i);
        }
    }
    buf
}

/// Reads numbers out of `data` from `at` on.
fn read_words(data: &[u8], at: usize, n: usize) -> (r: Vec<u32>)
    requires
        at + 4 * n <= data@.len(),
    ensures
        r@.len() == n,
        forall|i: int| 0 <= i < n ==> (#[trigger] r@[i]) == word(data@, at + 4 * i),
{
    assert(data.len() <= usize::MAX);
    let mut r: Vec<u32> = Vec::new();
    let mut i: usize = 0;
    while i < n
        invariant
            i <= n,
            at + 4 * n <= data@.len() <= usize::MAX,
            r@.len() == i,
            forall|k: int| 0 <= k < i ==> (#[trigger] r@[k]) == word(data@, at + 4 * k),
        decreases n - i,
    {
        r.push(read_word(data, at + 4 * i));
        i = i + 1;
    }
    r
}

fn read_longs(data: &[u8], at: usize, n: usize) -> (r: Vec<u64>)
    requires
        at + 8 * n <= data@.len(),
    ensures
        r@.len() == n,
        forall|i: int| 0 <= i < n ==> (#[trigger] r@[i]) == long(data@, at + 8 * i),
{
    assert(data.len() <= usize::MAX);
    let mut r: Vec<u64> = Vec::new();
    let mut i: usize = 0;
    while i < n
        invariant
            i <= n,
            at + 8 * n <= data@.len() <= usize::MAX,
            r@.len() == i,
            forall|k: int| 0 <= k < i ==> (#[trigger] r@[k]) == long(data@, at + 8 * k),
        decreases n - i,
    {
        r.push(read_long(data, at + 8 * i));
        i = i + 1;
    }
    r
}

fn read_sizes(data: &[u8], at: usize, n: usize) -> (r: Vec<usize>)
    requires
        at + 8 * n <= data@.len(),
    ensures
        r@.len() == n,
        forall|i: int| 0 <= i < n ==> (#[trigger] r@[i]) == long(data@, at + 8 * i) as usize,
{
    assert(data.len() <= usize::MAX);
    let mut r: Vec<usize> = Vec::new();
    let mut i: usize = 0;
    while i < n
        invariant
            i <= n,
            at + 8 * n <= data@.len() <= usize::MAX,
            r@.len() == i,
            forall|k: int| 0 <= k < i ==> (#[trigger] r@[k]) == long(data@, at + 8 * k) as usize,
        decreases n - i,
    {
        r.push(read_long(data, at + 8 * i) as usize);
        i = i + 1;
    }
    r
}

/// Reads a draft ring back; bytes after the ring are ignored, and so is the
/// version.
pub fn decode_draft(data: &[u8]) -> (r: Option<PatternDraft>)
    ensures
        r is Some <==> readable(data@),
        r matches Some(d) ==> {
            &&& d.sized()
            &&& header_of(data@, &d)
            &&& body_of(data@, &d)
            &&& d.spec_num_bits() == word(data@, 12)
            &&& d.spec_embed_dim() == word(data@, 8)
            &&& d.spec_capacity() == word(data@, 16)
            &&& d.spec_draft_length() == word(data@, 20)
            &&& d.spec_head() == word(data@, 24)
            &&& d.spec_len() == word(data@, 28)
        },
{
    assert(data.len() <= usize::MAX);
    if data.len() < HEADER_BYTES || read_word(data, 0) != MAGIC {
        return None;
    }
    let embed_dim: u32 = read_word(data, 8);
    let num_bits: u32 = read_word(data, 12);
    let capacity: u32 = read_word(data, 16);
    let draft_length: u32 = read_word(data, 20);
    let head: u32 = read_word(data, 24);
    let len: u32 = read_word(data, 28);
    proof {
        assert(0 <= num_bits * embed_dim <= 0xffff_ffff * 0xffff_ffff) by (nonlinear_arith)
            requires
                0 <= num_bits <= 0xffff_ffff,
                0 <= embed_dim <= 0xffff_ffff,
        ;
    }
    let words: u128 = num_bits as u128 * embed_dim as u128;
    let total: u128 = 32 + 4 * words + 24 * (capacity as u128);
    if (data.len() as u128) < total {
        return None;
    }
    let n: usize = words as usize;
    let cap: usize = capacity as usize;
    let ring: usize = HEADER_BYTES + 4 * n;
    let lsh = read_words(data, HEADER_BYTES, n);
    let hashes = read_longs(data, ring, cap);
    let tokens = read_sizes(data, ring + 8 * cap, cap);
    let positions = read_sizes(data, ring + 16 * cap, cap);
    let d = PatternDraft::from_parts(
        embed_dim as usize,
        num_bits as usize,
        draft_length as usize,
        head as usize,
        len as usize,
        lsh,
        hashes,
        tokens,
        positions,
    );
    Some(d)
}

/// Whether the ring should be saved after this many observations.
pub fn save_due(observe_count: usize) -> (b: bool)
    ensures
        b == (observe_count > 0 && observe_count as int % SAVE_INTERVAL as int == 0),
{
    observe_count > 0 && observe_count % SAVE_INTERVAL == 0
}

/// A saved ring reads back as it was: the encoded bytes are readable, and
/// whatever is read from them has the same extent, head, length, projections
/// and ring, as long as the extents fit in 32 bits.
#[verifier::rlimit(40)]
pub proof fn law_saved_draft_reads_back(data: Seq<u8>, saved: PatternDraft, loaded: PatternDraft)
    requires
        saved.sized(),
        saved.spec_embed_dim() <= u32::MAX,
        saved.spec_num_bits() <= u32::MAX,
        saved.spec_capacity() <= u32::MAX,
        saved.spec_draft_length() <= u32::MAX,
        saved.spec_head() <= u32::MAX,
        saved.spec_len() <= u32::MAX,
        // what is known of the encoded bytes
        data.len() == file_bytes(
            saved.spec_num_bits(),
            saved.spec_embed_dim(),
            saved.spec_capacity(),
        ),
        word(data, 0) == MAGIC,
        header_of(data, &saved),
        body_of(data, &saved),
        // what is known of the ring read from them
        loaded.sized(),
        body_of(data, &loaded),
        loaded.spec_num_bits() == word(data, 12),
        loaded.spec_embed_dim() == word(data, 8),
        loaded.spec_capacity() == word(data, 16),
        loaded.spec_draft_length() == word(data, 20),
        loaded.spec_head() == word(data, 24),
        loaded.spec_len() == word(data, 28),
    ensures
        readable(data),
        loaded.spec_embed_dim() == saved.spec_embed_dim(),
        loaded.spec_num_bits() == saved.spec_num_bits(),
        loaded.spec_capacity() == saved.spec_capacity(),
        loaded.spec_draft_length() == saved.spec_draft_length(),
        loaded.spec_head() == saved.spec_head(),
        loaded.spec_len() == saved.spec_len(),
        loaded.projections() == saved.projections(),
        loaded.ring_hashes() == saved.ring_hashes(),
        loaded.ring_tokens() == saved.ring_tokens(),
        loaded.ring_positions() == saved.ring_positions(),
        loaded@ == saved@,
{
    saved.lemma_extents_are_sizes();
    lemma_low32(saved.spec_embed_dim());
    lemma_low32(saved.spec_num_bits());
    lemma_low32(saved.spec_capacity());
    lemma_low32(saved.spec_draft_length());
    lemma_low32(saved.spec_head());
    lemma_low32(saved.spec_len());
    assert(loaded.projections().len() == saved.projections().len());
    assert forall|i: int| 0 <= i < saved.projections().len() implies loaded.projections()[i]
        == saved.projections()[i] by {}
    assert(loaded.projections() =~= saved.projections());
    assert forall|i: int| 0 <= i < saved.spec_capacity() implies loaded.ring_hashes()[i]
        == saved.ring_hashes()[i] by {}
    assert(loaded.ring_hashes() =~= saved.ring_hashes());
    assert forall|i: int| 0 <= i < saved.spec_capacity() implies loaded.ring_tokens()[i]
        == saved.ring_tokens()[i] by {}
    assert(loaded.ring_tokens() =~= saved.ring_tokens());
    assert forall|i: int| 0 <= i < saved.spec_capacity() implies loaded.ring_positions()[i]
        == saved.ring_positions()[i] by {}
    assert(loaded.ring_positions() =~= saved.ring_positions());
    assert(loaded@ =~= saved@);
}

proof fn lemma_low32(x: int)
    requires
        0 <= x <= u32::MAX,
    ensures
        low32(x) == x,
{
}

/// What holds of every prefix holds of a prefix of a prefix.
proof fn lemma_prefix(short: Seq<u8>, whole: Seq<u8>)
    requires
        short.len() <= whole.len(),
        whole.take(short.len() as int) == short,
    ensures
        forall|i: int| 0 <= i < short.len() ==> (#[trigger] short[i]) == whole[i],
{
    assert forall|i: int| 0 <= i < short.len() implies (#[trigger] short[i]) == whole[i] by {
        assert(whole.take(short.len() as int)[i] == short[i]);
    }
}

/// A number of four bytes, the lowest first.
pub open spec fn low_byte_first(a: u8, b: u8, c: u8, d: u8) -> int {
    a + 256 * (b + 256 * (c + 256 * d))
}

/// A file starts with its mark and version, then the numbers of the ring: the extent of
/// the embedding, the bits of a hash, the capacity, the length of drafts, the head and
/// the observations, each in four bytes with the lowest first.
pub proof fn law_header_has_its_numbers_in_order(data: Seq<u8>, d: PatternDraft)
    requires
        header_of(data, &d),
    ensures
        low_byte_first(data[8], data[9], data[10], data[11]) == d.spec_embed_dim() as int
            % 0x1_0000_0000,
        low_byte_first(data[12], data[13], data[14], data[15]) == d.spec_num_bits() as int
            % 0x1_0000_0000,
        low_byte_first(data[16], data[17], data[18], data[19]) == d.spec_capacity() as int
            % 0x1_0000_0000,
        low_byte_first(data[20], data[21], data[22], data[23]) == d.spec_draft_length() as int
            % 0x1_0000_0000,
        low_byte_first(data[24], data[25], data[26], data[27]) == d.spec_head() as int
            % 0x1_0000_0000,
        low_byte_first(data[28], data[29], data[30], data[31]) == d.spec_len() as int
            % 0x1_0000_0000,
{
}

/// Behind the header stand the projections, then the hashes, the tokens and the
/// positions of the ring, in lines of their own.
pub proof fn law_body_has_its_lines_in_order(data: Seq<u8>, d: PatternDraft, i: int)
    requires
        body_of(data, &d),
        0 <= i < d.spec_capacity(),
    ensures
        ({
            let ring = 32 + 4 * d.projections().len();
            let cap = d.spec_capacity();
            &&& d.ring_hashes()[i] == low_byte_first(
                data[ring + 8 * i],
                data[ring + 8 * i + 1],
                data[ring + 8 * i + 2],
                data[ring + 8 * i + 3],
            ) + 0x1_0000_0000 * low_byte_first(
                data[ring + 8 * i + 4],
                data[ring + 8 * i + 5],
                data[ring + 8 * i + 6],
                data[ring + 8 * i + 7],
            )
            &&& d.ring_tokens()[i] == long(data, ring + 8 * (cap + i)) as usize
            &&& d.ring_positions()[i] == long(data, ring + 8 * (2 * cap + i)) as usize
            &&& forall|j: int|
                0 <= j < d.projections().len() ==> (#[trigger] d.projections()[j])
                    == low_byte_first(
                    data[32 + 4 * j],
                    data[32 + 4 * j + 1],
                    data[32 + 4 * j + 2],
                    data[32 + 4 * j + 3],
                )
        }),
{
    let ring = 32 + 4 * d.projections().len();
    assert(d.ring_hashes()[i] == long(data, ring + 8 * i));
    assert(d.ring_tokens()[i] == long(data, ring + 8 * d.spec_capacity() + 8 * i) as usize);
    assert(d.ring_positions()[i] == long(data, ring + 16 * d.spec_capacity() + 8 * i) as usize);
}

} // verus!
