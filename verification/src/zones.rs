//! Position geometry of the paged cache.
//!
//! Positions fall into three zones by distance from the start.  Pages grow
//! with the zone: 32 positions, 128 positions, 1024 positions.  Pages are
//! numbered flat across the zones, in order of position.

use vstd::arithmetic::div_mod::{lemma_div_is_ordered, lemma_fundamental_div_mod};
use vstd::prelude::*;

verus! {

/// First position of the second zone.
pub const ZONE_1_START: usize = 4096;

/// First position of the third zone.
pub const ZONE_2_START: usize = 131072;

/// Pages of the first zone.
pub const ZONE_0_PAGES: usize = 128;

/// Pages of the second zone.
pub const ZONE_1_PAGES: usize = 992;

/// Flat number of the third zone's first page.
pub const ZONE_2_OFFSET: usize = 1120;

pub open spec fn spec_zone_index(pos: int) -> int {
    if pos < ZONE_1_START {
        0
    } else if pos < ZONE_2_START {
        1
    } else {
        2
    }
}

pub open spec fn spec_zone_start(zi: int) -> int {
    if zi == 0 {
        0
    } else if zi == 1 {
        ZONE_1_START as int
    } else {
        ZONE_2_START as int
    }
}

pub open spec fn spec_zone_block_size(zi: int) -> int {
    if zi == 0 {
        32
    } else if zi == 1 {
        128
    } else {
        1024
    }
}

/// Flat number of a zone's first page.
pub open spec fn spec_zone_offset(zi: int) -> int {
    if zi == 0 {
        0
    } else if zi == 1 {
        ZONE_0_PAGES as int
    } else {
        ZONE_2_OFFSET as int
    }
}

/// Pages of a zone in a cache for `max_seq_len` positions.
///
/// Only the last zone depends on the length.
pub open spec fn spec_zone_pages(zi: int, max_seq_len: int) -> int {
    if zi == 0 {
        ZONE_0_PAGES as int
    } else if zi == 1 {
        ZONE_1_PAGES as int
    } else if max_seq_len > ZONE_2_START {
        (max_seq_len - ZONE_2_START + 1023) / 1024
    } else {
        0
    }
}

/// Page of a position within its zone.
pub open spec fn spec_local_page(pos: int) -> int {
    let zi = spec_zone_index(pos);
    (pos - spec_zone_start(zi)) / spec_zone_block_size(zi)
}

/// Slot of a position within its page.
pub open spec fn spec_slot(pos: int) -> int {
    let zi = spec_zone_index(pos);
    (pos - spec_zone_start(zi)) % spec_zone_block_size(zi)
}

/// Flat page number of a position.
pub open spec fn spec_page_id(pos: int) -> int {
    spec_zone_offset(spec_zone_index(pos)) + spec_local_page(pos)
}

/// Zone of a flat page number.
pub open spec fn spec_flat_zone(flat: int) -> int {
    if flat >= ZONE_2_OFFSET {
        2
    } else if flat >= ZONE_0_PAGES {
        1
    } else {
        0
    }
}

/// Page within the zone of a flat page number.
pub open spec fn spec_flat_local(flat: int) -> int {
    flat - spec_zone_offset(spec_flat_zone(flat))
}

pub fn zone_index(pos: usize) -> (zi: usize)
    ensures
        zi == spec_zone_index(pos as int),
        zi < 3,
{
    if pos < ZONE_1_START {
        0
    } else if pos < ZONE_2_START {
        1
    } else {
        2
    }
}

pub fn zone_start(zi: usize) -> (s: usize)
    ensures
        s == spec_zone_start(zi as int),
{
    if zi == 0 {
        0
    } else if zi == 1 {
        ZONE_1_START
    } else {
        ZONE_2_START
    }
}

pub fn zone_block_size(zi: usize) -> (s: usize)
    ensures
        s == spec_zone_block_size(zi as int),
        0 < s <= 1024,
{
    if zi == 0 {
        32
    } else if zi == 1 {
        128
    } else {
        1024
    }
}

pub fn zone_offset(zi: usize) -> (s: usize)
    ensures
        s == spec_zone_offset(zi as int),
        s <= ZONE_2_OFFSET,
{
    if zi == 0 {
        0
    } else if zi == 1 {
        ZONE_0_PAGES
    } else {
        ZONE_2_OFFSET
    }
}

pub fn zone_pages(zi: usize, max_seq_len: usize) -> (n: usize)
    ensures
        n == spec_zone_pages(zi as int, max_seq_len as int),
{
    if zi == 0 {
        ZONE_0_PAGES
    } else if zi == 1 {
        ZONE_1_PAGES
    } else if max_seq_len > ZONE_2_START {
        (max_seq_len - ZONE_2_START + 1023) / 1024
    } else {
        0
    }
}

pub fn local_page_id(pos: usize) -> (id: usize)
    ensures
        id == spec_local_page(pos as int),
{
    let zi: usize = zone_index(pos);
    let bs: usize = zone_block_size(zi);
    (pos - zone_start(zi)) / bs
}

pub fn slot_in_page(pos: usize) -> (slot: usize)
    ensures
        slot == spec_slot(pos as int),
        slot < spec_zone_block_size(spec_zone_index(pos as int)),
{
    let zi: usize = zone_index(pos);
    let bs: usize = zone_block_size(zi);
    (pos - zone_start(zi)) % bs
}

/// Flat page number of a position.
pub fn page_id(pos: usize) -> (id: usize)
    ensures
        id == spec_page_id(pos as int),
{
    let zi: usize = zone_index(pos);
    zone_offset(zi) + local_page_id(pos)
}

/// First position of the page that holds `pos`.
pub fn page_start_for(pos: usize) -> (start: usize)
    ensures
        start == pos - spec_slot(pos as int),
        0 <= start <= pos,
{
    proof {
        law_position_splits(pos as int);
    }
    pos - slot_in_page(pos)
}

/// Zone and page within the zone of a flat page number.
pub fn resolve_flat(flat: usize) -> (r: (usize, usize))
    ensures
        r.0 == spec_flat_zone(flat as int),
        r.1 == spec_flat_local(flat as int),
        r.0 < 3,
        r.1 < usize::MAX,
{
    if flat >= ZONE_2_OFFSET {
        (2, flat - ZONE_2_OFFSET)
    } else if flat >= ZONE_0_PAGES {
        (1, flat - ZONE_0_PAGES)
    } else {
        (0, flat)
    }
}

/// A position is its zone's start, plus whole pages, plus its slot.
pub proof fn law_position_splits(pos: int)
    requires
        0 <= pos,
    ensures
        pos == spec_zone_start(spec_zone_index(pos)) + spec_local_page(pos) * spec_zone_block_size(
            spec_zone_index(pos),
        ) + spec_slot(pos),
        0 <= spec_slot(pos) < spec_zone_block_size(spec_zone_index(pos)),
        0 <= spec_local_page(pos),
        spec_slot(pos) <= pos,
{
    let zi = spec_zone_index(pos);
    lemma_fundamental_div_mod(pos - spec_zone_start(zi), spec_zone_block_size(zi));
    assert(spec_zone_block_size(zi) * spec_local_page(pos) == spec_local_page(pos)
        * spec_zone_block_size(zi)) by (nonlinear_arith);
}

/// Resolving the flat page number of a position finds the position's zone
/// and its page there.
pub proof fn law_flat_page_resolves(pos: int)
    requires
        0 <= pos,
    ensures
        spec_flat_zone(spec_page_id(pos)) == spec_zone_index(pos),
        spec_flat_local(spec_page_id(pos)) == spec_local_page(pos),
{
}

/// Pages are numbered in order of position.
pub proof fn law_page_ids_ascend(a: int, b: int)
    requires
        0 <= a <= b,
    ensures
        spec_page_id(a) <= spec_page_id(b),
{
    if spec_zone_index(a) == spec_zone_index(b) {
        let zi = spec_zone_index(a);
        lemma_div_is_ordered(
            a - spec_zone_start(zi),
            b - spec_zone_start(zi),
            spec_zone_block_size(zi),
        );
    }
}

/// Two positions lie in one page exactly if the page starts agree.
pub proof fn law_same_page(a: int, b: int)
    requires
        0 <= a,
        0 <= b,
    ensures
        spec_page_id(a) == spec_page_id(b) <==> a - spec_slot(a) == b - spec_slot(b),
{
    law_position_splits(a);
    law_position_splits(b);
    law_flat_page_resolves(a);
    law_flat_page_resolves(b);
    if spec_zone_index(a) == spec_zone_index(b) {
        let bs = spec_zone_block_size(spec_zone_index(a));
        let x = spec_local_page(a);
        let y = spec_local_page(b);
        assert(x * bs == y * bs ==> x == y) by (nonlinear_arith)
            requires
                bs > 0,
        ;
    } else {
        assert(spec_zone_start(spec_zone_index(a)) <= a - spec_slot(a)) by (nonlinear_arith)
            requires
                a == spec_zone_start(spec_zone_index(a)) + spec_local_page(a)
                    * spec_zone_block_size(spec_zone_index(a)) + spec_slot(a),
                0 <= spec_local_page(a),
                0 <= spec_zone_block_size(spec_zone_index(a)),
        ;
        assert(spec_zone_start(spec_zone_index(b)) <= b - spec_slot(b)) by (nonlinear_arith)
            requires
                b == spec_zone_start(spec_zone_index(b)) + spec_local_page(b)
                    * spec_zone_block_size(spec_zone_index(b)) + spec_slot(b),
                0 <= spec_local_page(b),
                0 <= spec_zone_block_size(spec_zone_index(b)),
        ;
    }
}

/// Within the configured length every position's page number is below the
/// page count of the cache.
pub proof fn law_positions_have_pages(pos: int, max_seq_len: int)
    requires
        0 <= pos < max_seq_len,
    ensures
        spec_local_page(pos) < spec_zone_pages(spec_zone_index(pos), max_seq_len),
{
}

/// Positions fill a page slot by slot and go on with the next page: a page holds 32
/// positions before position 4096, 128 before position 131072, and 1024 from there on.
/// Page numbers start at zero and leave none out.
pub proof fn law_pages_follow_without_gap(pos: int)
    requires
        0 <= pos,
    ensures
        spec_page_id(0) == 0 && spec_slot(0) == 0,
        ({
            let room = if pos < 4096 {
                32int
            } else if pos < 131072 {
                128
            } else {
                1024
            };
            if spec_slot(pos) + 1 == room {
                spec_page_id(pos + 1) == spec_page_id(pos) + 1 && spec_slot(pos + 1) == 0
            } else {
                spec_page_id(pos + 1) == spec_page_id(pos) && spec_slot(pos + 1) == spec_slot(pos)
                    + 1
            }
        }),
{
    if pos < 4096 {
        assert(spec_slot(pos) == pos % 32 && spec_page_id(pos) == pos / 32);
        if pos + 1 < 4096 {
            assert(spec_slot(pos + 1) == (pos + 1) % 32 && spec_page_id(pos + 1) == (pos + 1) / 32);
        } else {
            assert(spec_slot(4096) == 0 && spec_page_id(4096) == 128);
        }
    } else if pos < 131072 {
        let p = pos - 4096;
        assert(spec_slot(pos) == p % 128 && spec_page_id(pos) == 128 + p / 128);
        if pos + 1 < 131072 {
            assert(spec_slot(pos + 1) == (p + 1) % 128 && spec_page_id(pos + 1) == 128 + (p + 1)
                / 128);
        } else {
            assert(spec_slot(131072) == 0 && spec_page_id(131072) == 1120);
        }
    } else {
        let p = pos - 131072;
        assert(spec_slot(pos) == p % 1024 && spec_page_id(pos) == 1120 + p / 1024);
        assert(spec_slot(pos + 1) == (p + 1) % 1024 && spec_page_id(pos + 1) == 1120 + (p + 1)
            / 1024);
    }
}

/// A cache has no more pages of the last zone than its positions need.
pub proof fn law_last_zone_has_no_spare_page(max_seq_len: int)
    requires
        0 <= max_seq_len,
    ensures
        spec_zone_pages(2, max_seq_len) > 0 ==> spec_local_page(max_seq_len - 1)
            == spec_zone_pages(2, max_seq_len) - 1,
        spec_zone_pages(2, max_seq_len) == 0 <==> max_seq_len <= 131072,
{
}

} // verus!
