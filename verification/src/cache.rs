//! The tiered key/value cache.
//!
//! Pages live in memory in the four-bit format, with restored numbers beside
//! them on demand, and move to slots of a cold store when memory is short.
//! The cache decides; whoever owns the store reads and writes it.  A request
//! for a page answers with what has to be done next.

use crate::cache_zone::{CacheZone, PageState, PageView, ZoneView};
use crate::layout::{
    law_store_keeps_other_vectors, law_stored_vector_reads_back, lemma_cell, lemma_two_digits,
    page_terms, Shape,
};
use crate::q4::{blocks_per_head, Q4Block, Q4Term};
use crate::zones;
use crate::zones::{
    spec_flat_local, spec_flat_zone, spec_local_page, spec_page_id, spec_slot,
    spec_zone_block_size, spec_zone_index, spec_zone_pages,
};
use vstd::prelude::*;
use vstd::slice::slice_subrange;

verus! {

/// Cold slots where neither memory nor the slot count is limited.
pub const DEFAULT_COLD_PAGES: usize = 65536;

/// A page leaves for the cold store.
pub struct ColdWrite {
    pub slot: usize,
    /// Where the slot starts in the store.
    pub offset: u128,
    pub k: Vec<u8>,
    pub v: Vec<u8>,
}

/// A page is to be fetched from the cold store.
pub struct ColdRead {
    pub slot: usize,
    /// Where the slot starts in the store.
    pub offset: u128,
    /// Bytes of the keys; as many of the values follow.
    pub page_bytes: usize,
}

/// What a request for a page needs next.
pub enum PageAction {
    /// The page is hot and the most recently used of its zone.
    Ready,
    /// Write these bytes, then ask again, saying so.
    Store(ColdWrite),
    /// Read these bytes and hand them in.
    Load(ColdRead),
}

pub struct PagedKVCache {
    zone_list: Vec<CacheZone>,
    shape: Shape,
    cold_capacity: usize,
    cold_slot_used: Vec<bool>,
    cold_write_cursor: usize,
    ram_page_limit: usize,
    pub max_seq_len: usize,
    pub block_size: usize,
    current_pos: usize,
}

/// The cache as the contracts see it.
#[verifier::ext_equal]
pub struct CacheView {
    pub shape: Shape,
    /// Hot pages that a zone may keep.
    pub limit: int,
    pub zones: Seq<ZoneView>,
    /// Which cold slots are taken.
    pub slots: Seq<bool>,
    /// Where the search for a cold slot begins.
    pub cursor: int,
    pub pos: int,
    pub max_seq_len: int,
    /// Positions per page of the first zone.
    pub block_size: int,
}

/// How far a zone has grown.
pub enum Growth {
    /// The page exists; the flag says whether room was made and not used.
    Grown(CacheView, bool),
    /// A page must leave first.
    Stopped(CacheView),
}

/// The first free slot at or after place `i` of the round that starts at the
/// cursor, or the cursor itself where every slot is taken.
pub open spec fn free_slot(slots: Seq<bool>, cursor: int, i: int) -> int
    decreases slots.len() - i,
{
    if i >= slots.len() {
        cursor
    } else if !slots[(cursor + i) % slots.len() as int] {
        (cursor + i) % slots.len() as int
    } else {
        free_slot(slots, cursor, i + 1)
    }
}

impl CacheView {
    pub open spec fn page_bytes(self, zi: int) -> int {
        self.shape.page_bytes(spec_zone_block_size(zi))
    }

    pub open spec fn page_floats(self, zi: int) -> int {
        self.shape.page_floats(spec_zone_block_size(zi))
    }

    /// Every slot can take a page of any zone.
    pub open spec fn slot_bytes(self) -> int {
        2 * self.page_bytes(2)
    }

    pub open spec fn cold_slots_ok(self, zi: int) -> bool {
        forall|id: int| 0 <= id < self.zones[zi].pages.len() ==> self.cold_slot_ok(zi, id)
    }

    pub open spec fn cold_slot_ok(self, zi: int, id: int) -> bool {
        (#[trigger] self.zones[zi].pages[id]).state matches PageState::Cold(s) ==> s
            < self.slots.len()
    }

    pub open spec fn zone_ok(self, zi: int) -> bool {
        &&& self.zones[zi].wf(self.page_bytes(zi), self.page_floats(zi))
        &&& self.shape.fits(spec_zone_block_size(zi))
        &&& self.cold_slots_ok(zi)
    }

    pub open spec fn wf(self) -> bool {
        &&& self.zones.len() == 3
        &&& self.zone_ok(0)
        &&& self.zone_ok(1)
        &&& self.zone_ok(2)
        &&& self.slots.len() <= usize::MAX
        &&& 0 <= self.cursor
        &&& self.cursor < self.slots.len() || self.cursor == 0
        &&& 0 <= self.limit <= usize::MAX
        &&& 0 <= self.pos <= usize::MAX
    }

    pub open spec fn with_zone(self, zi: int, z: ZoneView) -> CacheView {
        CacheView { zones: self.zones.update(zi, z), ..self }
    }

    /// A page of the zone can leave.
    pub open spec fn can_evict(self, zi: int) -> bool {
        self.zones[zi].order.len() > 0 && self.slots.len() > 0
    }

    /// A page of the zone has to leave before another becomes hot.
    pub open spec fn needs_room(self, zi: int) -> bool {
        self.zones[zi].order.len() >= self.limit && self.can_evict(zi)
    }

    /// The slot that the next page to leave goes to.
    pub open spec fn next_slot(self) -> int {
        free_slot(self.slots, self.cursor, 0)
    }

    /// The zone's victim has left for the next slot.
    pub open spec fn evicted(self, zi: int) -> CacheView {
        let z = self.zones[zi];
        let slot = self.next_slot();
        CacheView {
            zones: self.zones.update(zi, z.evicted(z.victim(), slot as usize)),
            slots: self.slots.update(slot, true),
            cursor: (slot + 1) % self.slots.len() as int,
            ..self
        }
    }

    /// Blank pages are added until page `local` exists, or until one has to
    /// leave first.
    pub open spec fn grown(self, zi: int, local: int, room: bool) -> Growth
        decreases local + 1 - self.zones[zi].pages.len(),
    {
        if zi < 0 || zi >= self.zones.len() || local < self.zones[zi].pages.len() {
            Growth::Grown(self, room)
        } else if !room && self.needs_room(zi) {
            Growth::Stopped(self)
        } else {
            self.with_zone(zi, self.zones[zi].with_new_page(self.page_bytes(zi))).grown(
                zi,
                local,
                false,
            )
        }
    }

    /// The page has been fetched; its slot is free again.
    pub open spec fn loaded(self, zi: int, local: int, k: Seq<u8>, v: Seq<u8>) -> CacheView {
        let slot = self.zones[zi].pages[local].state->Cold_0;
        let z = self.zones[zi].reloaded(local as usize, k, v);
        CacheView {
            zones: self.zones.update(zi, z.touched(local as usize)),
            slots: self.slots.update(slot as int, false),
            ..self
        }
    }

    pub open spec fn is_cold(self, zi: int, local: int) -> bool {
        &&& 0 <= local < self.zones[zi].pages.len()
        &&& self.zones[zi].pages[local].state != PageState::Hot
    }

    pub open spec fn is_cold_at(self, zi: int, local: int) -> bool {
        0 <= zi < 3 && self.is_cold(zi, local)
    }

    /// The slot of a cold page.
    pub open spec fn slot_of(self, zi: int, local: int) -> int {
        self.zones[zi].pages[local].state->Cold_0 as int
    }

    /// Every cold page has a taken slot that no other cold page has.
    pub open spec fn slots_owned(self) -> bool {
        &&& forall|zi: int, j: int|
            self.is_cold_at(zi, j) ==> self.slots[#[trigger] self.slot_of(zi, j)]
        &&& forall|zi: int, j: int, zk: int, k: int|
            self.is_cold_at(zi, j) && self.is_cold_at(zk, k) && (zi != zk || j != k) ==> (
            #[trigger] self.slot_of(zi, j)) != (#[trigger] self.slot_of(zk, k))
    }

    /// What restores number `i` of a layer and a head at `pos`, out of the
    /// page that holds `pos`.
    pub open spec fn number_at(self, page: Seq<u8>, layer: int, head: int, pos: int, i: int) -> Q4Term {
        let bs = spec_zone_block_size(spec_zone_index(pos));
        self.shape.term(
            page,
            self.shape.cell(bs, layer, head, spec_slot(pos)) * self.shape.head_dim + i,
        )
    }

    /// `w` takes the zone's victim to the next slot.
    pub open spec fn write_matches(self, zi: int, w: ColdWrite) -> bool {
        let z = self.zones[zi];
        &&& w.slot == self.next_slot()
        &&& w.offset == w.slot * self.slot_bytes()
        &&& w.k@ == z.pages[z.victim() as int].k
        &&& w.v@ == z.pages[z.victim() as int].v
    }

    /// The answer to a request for a page, and the cache after it.
    ///
    /// Missing pages are added first.  A page that has to leave is handed
    /// out; a cold page is asked for; a hot one becomes the most recent.
    pub open spec fn request_answered(
        self,
        zi: int,
        local: int,
        stored: bool,
        r: PageAction,
        after: CacheView,
    ) -> bool {
        match self.grown(zi, local, stored) {
            Growth::Stopped(c) => {
                &&& r matches PageAction::Store(w) && c.write_matches(zi, w)
                &&& after == c.evicted(zi)
            },
            Growth::Grown(c, room) => match c.zones[zi].pages[local].state {
                PageState::Cold(slot) => if !room && c.needs_room(zi) {
                    &&& r matches PageAction::Store(w) && c.write_matches(zi, w)
                    &&& after == c.evicted(zi)
                } else {
                    &&& r matches PageAction::Load(l) && l.slot == slot && l.offset == slot
                        * c.slot_bytes() && l.page_bytes == c.page_bytes(zi)
                    &&& after == c
                },
                PageState::Hot => {
                    &&& r is Ready
                    &&& after == c.with_zone(zi, c.zones[zi].touched(local as usize))
                },
            },
        }
    }

    /// The page with a flat number exists.
    pub open spec fn has_page(self, flat: int) -> bool {
        spec_flat_local(flat) < self.zones[spec_flat_zone(flat)].pages.len()
    }

    pub open spec fn page(self, flat: int) -> PageView {
        self.zones[spec_flat_zone(flat)].pages[spec_flat_local(flat)]
    }

    /// The vector of a layer and a head at `pos`, out of a restored page.
    pub open spec fn vector(self, page: Seq<u32>, layer: int, head: int, pos: int) -> Seq<u32> {
        let bs = spec_zone_block_size(spec_zone_index(pos));
        let at = self.shape.cell(bs, layer, head, spec_slot(pos)) * self.shape.head_dim;
        page.subrange(at, at + self.shape.head_dim)
    }

    /// The entries of a layer and a head in a page whose vectors take `unit`
    /// entries each.
    pub open spec fn head_span<T>(
        self,
        page: Seq<T>,
        zi: int,
        layer: int,
        head: int,
        unit: int,
    ) -> Seq<T> {
        let bs = spec_zone_block_size(zi);
        let at = self.shape.cell(bs, layer, head, 0) * unit;
        page.subrange(at, at + bs * unit)
    }

    pub open spec fn page_of(self, pos: int) -> PageView {
        self.zones[spec_zone_index(pos)].pages[spec_local_page(pos)]
    }

    /// The page that holds `pos` is in memory.
    pub open spec fn is_hot(self, pos: int) -> bool {
        &&& spec_local_page(pos) < self.zones[spec_zone_index(pos)].pages.len()
        &&& self.page_of(pos).state == PageState::Hot
    }

    /// One layer's keys and values are stored at `pos`.
    pub open spec fn stored(self, layer: int, pos: int, k: Seq<Q4Block>, v: Seq<Q4Block>) -> CacheView {
        let zi = spec_zone_index(pos);
        self.with_zone(
            zi,
            self.zones[zi].stored(
                spec_local_page(pos) as usize,
                self.shape,
                spec_zone_block_size(zi),
                layer,
                spec_slot(pos),
                k,
                v,
            ),
        )
    }

    pub open spec fn floats_stored(self, layer: int, pos: int, k: Seq<u32>, v: Seq<u32>) -> CacheView {
        let zi = spec_zone_index(pos);
        self.with_zone(
            zi,
            self.zones[zi].floats_stored(
                spec_local_page(pos) as usize,
                self.shape,
                spec_zone_block_size(zi),
                layer,
                spec_slot(pos),
                k,
                v,
            ),
        )
    }
}

/// Bytes of a page of the first zone.
pub open spec fn first_zone_page_bytes(shape: Shape) -> int {
    shape.page_bytes(32)
}

/// Pages that a memory budget in megabytes allows: at least one.
pub open spec fn pages_for_megabytes(mb: int, page_bytes: int) -> int {
    if mb * 1048576 < page_bytes {
        1
    } else {
        mb * 1048576 / page_bytes
    }
}

/// Hot pages that a zone may keep.
pub open spec fn page_limit(shape: Shape, ram_mb: Option<usize>) -> int {
    match ram_mb {
        Some(mb) => pages_for_megabytes(mb as int, first_zone_page_bytes(shape)),
        None => usize::MAX as int,
    }
}

/// Slots of the cold store.
pub open spec fn slot_count(max_seq_len: int, limit: int, cold_pages: Option<usize>) -> int {
    match cold_pages {
        Some(n) => n as int,
        None => if limit == usize::MAX {
            DEFAULT_COLD_PAGES as int
        } else {
            let total = spec_zone_pages(0, max_seq_len) + spec_zone_pages(1, max_seq_len)
                + spec_zone_pages(2, max_seq_len);
            if total - limit > DEFAULT_COLD_PAGES {
                DEFAULT_COLD_PAGES as int
            } else if total > limit {
                total - limit
            } else {
                0
            }
        },
    }
}

/// A cache without pages, whose cold slots are all free.
pub open spec fn empty_cache(shape: Shape, limit: int, slots: int, max_seq_len: int) -> CacheView {
    CacheView {
        shape,
        limit,
        zones: Seq::new(3, |zi: int| ZoneView { pages: Seq::empty(), order: Seq::empty() }),
        slots: Seq::new(slots as nat, |i: int| false),
        cursor: 0,
        pos: 0,
        max_seq_len,
        block_size: 32,
    }
}

impl View for PagedKVCache {
    type V = CacheView;

    closed spec fn view(&self) -> CacheView {
        CacheView {
            shape: self.shape,
            limit: self.ram_page_limit as int,
            zones: Seq::new(self.zone_list@.len(), |i: int| self.zone_list@[i]@),
            slots: if self.cold_slot_used@.len() == 0 {
                Seq::new(self.cold_capacity as nat, |i: int| false)
            } else {
                self.cold_slot_used@
            },
            cursor: self.cold_write_cursor as int,
            pos: self.current_pos as int,
            max_seq_len: self.max_seq_len as int,
            block_size: self.block_size as int,
        }
    }
}

impl PagedKVCache {
    pub closed spec fn fields_match(&self) -> bool {
        &&& self.zone_list@.len() == 3
        &&& forall|zi: int| 0 <= zi < 3 ==> #[trigger] self.zone_fields_match(zi)
        &&& self.cold_slot_used@.len() == 0 || self.cold_slot_used@.len() == self.cold_capacity
    }

    pub closed spec fn zone_fields_match(&self, zi: int) -> bool {
        let z = self.zone_list@[zi];
        &&& z.wf()
        &&& z.bytes_per_page() == self.shape.page_bytes(spec_zone_block_size(zi))
        &&& z.floats_per_page() == self.shape.page_floats(spec_zone_block_size(zi))
    }

    pub open spec fn wf(&self) -> bool {
        &&& self.fields_match()
        &&& self@.wf()
    }

    /// A cache with the default memory and store limits.
    pub fn new(num_layers: usize, num_kv_heads: usize, max_seq_len: usize, head_dim: usize) -> (c:
        Self)
        requires
            (Shape { num_layers, num_kv_heads, head_dim }).fits(1024),
        ensures
            c.wf(),
            c@ == empty_cache(
                Shape { num_layers, num_kv_heads, head_dim },
                usize::MAX as int,
                DEFAULT_COLD_PAGES as int,
                max_seq_len as int,
            ),
    {
        Self::with_block_size(num_layers, num_kv_heads, max_seq_len, head_dim, 32, None, None)
    }

    /// A cache with the given limits: memory in megabytes and cold slots.
    ///
    /// The block size of a position follows from its zone alone.
    pub fn with_block_size(
        num_layers: usize,
        num_kv_heads: usize,
        max_seq_len: usize,
        head_dim: usize,
        _block_size: usize,
        ram_mb: Option<usize>,
        cold_pages: Option<usize>,
    ) -> (c: Self)
        requires
            (Shape { num_layers, num_kv_heads, head_dim }).fits(1024),
            ram_mb matches Some(mb) ==> {
                &&& mb * 1048576 <= usize::MAX
                &&& first_zone_page_bytes(Shape { num_layers, num_kv_heads, head_dim }) > 0
            },
        ensures
            c.wf(),
            ({
                let shape = Shape { num_layers, num_kv_heads, head_dim };
                let limit = page_limit(shape, ram_mb);
                c@ == empty_cache(
                    shape,
                    limit,
                    slot_count(max_seq_len as int, limit, cold_pages),
                    max_seq_len as int,
                )
            }),
    {
        let shape = Shape { num_layers, num_kv_heads, head_dim };
        proof {
            lemma_smaller_pages_fit(shape);
        }
        let (b0, f0) = page_sizes(shape, 32);
        let (b1, f1) = page_sizes(shape, 128);
        let (b2, f2) = page_sizes(shape, 1024);
        let limit: usize = match ram_mb {
            Some(mb) => {
                let bytes: usize = mb * 1048576;
                if bytes < b0 {
                    proof {
                        assert(b0 as int / b0 as int == 1) by (nonlinear_arith)
                            requires
                                b0 > 0,
                        ;
                    }
                    1
                } else {
                    bytes / b0
                }
            },
            None => usize::MAX,
        };
        let total: usize = zones::zone_pages(0, max_seq_len) + zones::zone_pages(1, max_seq_len)
            + zones::zone_pages(2, max_seq_len);
        let capacity: usize = match cold_pages {
            Some(n) => n,
            None => if limit == usize::MAX {
                DEFAULT_COLD_PAGES
            } else if total > limit {
                if total - limit > DEFAULT_COLD_PAGES {
                    DEFAULT_COLD_PAGES
                } else {
                    total - limit
                }
            } else {
                0
            },
        };
        let mut zone_list: Vec<CacheZone> = Vec::new();
        zone_list.push(CacheZone::new(b0, f0));
        zone_list.push(CacheZone::new(b1, f1));
        zone_list.push(CacheZone::new(b2, f2));
        let c = PagedKVCache {
            zone_list,
            shape,
            cold_capacity: capacity,
            cold_slot_used: Vec::new(),
            cold_write_cursor: 0,
            ram_page_limit: limit,
            max_seq_len,
            block_size: 32,
            current_pos: 0,
        };
        proof {
            assert forall|zi: int| 0 <= zi < 3 implies #[trigger] c.zone_fields_match(zi) by {}
            assert(c@.zones[0] == c.zone_list@[0]@);
            assert(c@.zones[1] == c.zone_list@[1]@);
            assert(c@.zones[2] == c.zone_list@[2]@);
        }
        c
    }

    /// The bytes of one cold slot: room for the keys and values of the
    /// largest page.
    pub fn cold_slot_bytes(&self) -> (n: u128)
        requires
            self.wf(),
        ensures
            n == self@.slot_bytes(),
    {
        let (bytes, _) = page_sizes(self.shape, 1024);
        bytes as u128 * 2
    }

    /// Where cold slot `slot` starts in the store.
    fn cold_offset(&self, slot: usize) -> (n: u128)
        requires
            self.wf(),
        ensures
            n == slot * self@.slot_bytes(),
    {
        let (bytes, _) = page_sizes(self.shape, 1024);
        proof {
            assert(0 <= slot * (bytes * 2) <= usize::MAX * (isize::MAX * 2)) by (nonlinear_arith)
                requires
                    0 <= slot <= usize::MAX,
                    0 <= bytes <= isize::MAX,
            ;
        }
        slot as u128 * (bytes as u128 * 2)
    }

    /// The slot for the next page to leave.
    fn find_cold_slot(&self) -> (slot: usize)
        requires
            self.wf(),
            self@.slots.len() > 0,
        ensures
            slot == self@.next_slot(),
            slot < self@.slots.len(),
    {
        let n: usize = self.cold_capacity;
        let ghost slots = self@.slots;
        let ghost cursor = self@.cursor;
        let mut i: usize = 0;
        while i < n
            invariant
                i <= n,
                n == slots.len(),
                n > 0,
                n == self.cold_capacity,
                self.wf(),
                slots == self@.slots,
                cursor == self.cold_write_cursor,
                0 <= cursor < n,
                free_slot(slots, cursor, 0) == free_slot(slots, cursor, i as int),
            decreases n - i,
        {
            let at: usize = if self.cold_write_cursor >= n - i {
                self.cold_write_cursor - (n - i)
            } else {
                self.cold_write_cursor + i
            };
            proof {
                lemma_wrap(cursor, i as int, n as int);
            }
            let used: bool = self.cold_slot_used.len() > 0 && self.cold_slot_used[at];
            if !used {
                return at;
            }
            i = i + 1;
        }
        self.cold_write_cursor
    }

    /// Sends one page of a zone to the cold store, if one can leave.
    pub fn evict_one_page_from_zone(&mut self, zi: usize) -> (r: Option<ColdWrite>)
        requires
            old(self).wf(),
            zi < 3,
        ensures
            final(self).wf(),
            r is Some <==> old(self)@.can_evict(zi as int),
            r is None ==> final(self)@ == old(self)@,
            r matches Some(w) ==> {
                &&& old(self)@.write_matches(zi as int, w)
                &&& final(self)@ == old(self)@.evicted(zi as int)
            },
    {
        let ghost before = self@;
        assert(self.zone_fields_match(zi as int));
        let victim: usize = match self.zone_list[zi].pick_victim() {
            Some(id) => id,
            None => {
                return None;
            },
        };
        if self.cold_capacity == 0 {
            return None;
        }
        let slot: usize = self.find_cold_slot();
        let offset: u128 = self.cold_offset(slot);
        if self.cold_slot_used.len() == 0 {
            self.cold_slot_used = vec![false; self.cold_capacity];
        }
        assert(self@.slots =~= before.slots);
        self.cold_slot_used.set(slot, true);
        self.cold_write_cursor = if slot + 1 == self.cold_capacity {
            0
        } else {
            slot + 1
        };
        proof {
            let z = before.zones[zi as int];
            assert(z.page_ok(
                victim as int,
                before.page_bytes(zi as int),
                before.page_floats(zi as int),
            ));
            if slot + 1 < before.slots.len() {
                vstd::arithmetic::div_mod::lemma_small_mod(
                    (slot + 1) as nat,
                    before.slots.len(),
                );
            } else {
                vstd::arithmetic::div_mod::lemma_mod_self_0(before.slots.len() as int);
            }
        }
        let (k, v) = self.zone_list[zi].evict(victim, slot);
        proof {
            let after = before.evicted(zi as int);
            assert(self@.zones =~= after.zones);
            assert(self@.slots =~= after.slots);
            assert(self@ =~= after);
            assert forall|i: int| 0 <= i < 3 implies #[trigger] self.zone_fields_match(i) by {
                assert(old(self).zone_fields_match(i));
            }
            assert forall|id: int|
                0 <= id < after.zones[zi as int].pages.len() implies after.cold_slot_ok(
                zi as int,
                id,
            ) by {
                assert(before.cold_slots_ok(zi as int));
                assert(before.cold_slot_ok(zi as int, id));
            }
            lemma_zones_kept(before, after, zi as int);
        }
        Some(ColdWrite { slot, offset, k, v })
    }

    /// Works towards having page `flat_id` hot and most recently used.
    ///
    /// `stored` says that the bytes of the last answer have been written.
    pub fn ensure_page(&mut self, flat_id: usize, stored: bool) -> (r: PageAction)
        requires
            old(self).wf(),
        ensures
            final(self).wf(),
            old(self)@.request_answered(
                spec_flat_zone(flat_id as int),
                spec_flat_local(flat_id as int),
                stored,
                r,
                final(self)@,
            ),
    {
        let (zi, local) = zones::resolve_flat(flat_id);
        let ghost before = self@;
        let mut room: bool = stored;
        proof {
            assert(self.zone_fields_match(zi as int));
        }
        while local >= self.zone_list[zi].num_pages()
            invariant
                self.wf(),
                zi < 3,
                zi == spec_flat_zone(flat_id as int),
                local == spec_flat_local(flat_id as int),
                local < usize::MAX,
                before.grown(zi as int, local as int, stored) == self@.grown(
                    zi as int,
                    local as int,
                    room,
                ),
                self@.shape == before.shape,
                before == old(self)@,
            decreases local + 1 - self@.zones[zi as int].pages.len(),
        {
            assert(self.zone_fields_match(zi as int));
            assert(self@.zones[zi as int] == self.zone_list@[zi as int]@);
            if !room && self.zone_list[zi].hot_count() >= self.ram_page_limit {
                let ghost here = self@;
                if let Some(w) = self.evict_one_page_from_zone(zi) {
                    assert(here.grown(zi as int, local as int, room) == Growth::Stopped(here));
                    return PageAction::Store(w);
                }
                assert(self@ == here);
                assert(self.zone_fields_match(zi as int));
            }
            let ghost here = self@;
            let ghost fields = *self;
            assert(self@.zones[zi as int] == self.zone_list@[zi as int]@);
            let _ = self.zone_list[zi].alloc_hot_page();
            room = false;
            proof {
                let after = here.with_zone(
                    zi as int,
                    here.zones[zi as int].with_new_page(here.page_bytes(zi as int)),
                );
                assert(self@.zones =~= after.zones);
                assert(self@ =~= after);
                assert forall|i: int| 0 <= i < 3 implies #[trigger] self.zone_fields_match(i) by {
                    assert(fields.zone_fields_match(i));
                }
                assert forall|id: int|
                    0 <= id < after.zones[zi as int].pages.len() implies after.cold_slot_ok(
                    zi as int,
                    id,
                ) by {
                    assert(here.cold_slots_ok(zi as int));
                    if id < here.zones[zi as int].pages.len() {
                        assert(here.cold_slot_ok(zi as int, id));
                    }
                }
                lemma_zones_kept(here, after, zi as int);
            }
        }
        let ghost here = self@;
        let ghost fields = *self;
        assert(self.zone_fields_match(zi as int));
        assert(self@.zones[zi as int] == self.zone_list@[zi as int]@);
        match self.zone_list[zi].page_state(local) {
            PageState::Cold(slot) => {
                if !room && self.zone_list[zi].hot_count() >= self.ram_page_limit {
                    if let Some(w) = self.evict_one_page_from_zone(zi) {
                        return PageAction::Store(w);
                    }
                }
                let offset: u128 = self.cold_offset(slot);
                let (page_bytes, _) = page_sizes(self.shape, zones::zone_block_size(zi));
                PageAction::Load(ColdRead { slot, offset, page_bytes })
            },
            PageState::Hot => {
                self.zone_list[zi].touch_lru(local);
                proof {
                    let after = here.with_zone(
                        zi as int,
                        here.zones[zi as int].touched(local),
                    );
                    assert(self@.zones =~= after.zones);
                    assert(self@ =~= after);
                    assert forall|i: int| 0 <= i < 3 implies #[trigger] self.zone_fields_match(i) by {
                        assert(fields.zone_fields_match(i));
                    }
                    assert(here.cold_slots_ok(zi as int));
                    assert forall|id: int|
                        0 <= id < after.zones[zi as int].pages.len() implies after.cold_slot_ok(
                        zi as int,
                        id,
                    ) by {
                        assert(here.cold_slot_ok(zi as int, id));
                    }
                    lemma_zones_kept(here, after, zi as int);
                }
                PageAction::Ready
            },
        }
    }

    /// Takes in the bytes of a cold page, which is then hot and the most
    /// recently used.
    pub fn reload_cold_page(&mut self, flat_id: usize, k: Vec<u8>, v: Vec<u8>)
        requires
            old(self).wf(),
            old(self)@.is_cold(spec_flat_zone(flat_id as int), spec_flat_local(flat_id as int)),
            k@.len() == old(self)@.page_bytes(spec_flat_zone(flat_id as int)),
            v@.len() == old(self)@.page_bytes(spec_flat_zone(flat_id as int)),
        ensures
            final(self).wf(),
            final(self)@ == old(self)@.loaded(
                spec_flat_zone(flat_id as int),
                spec_flat_local(flat_id as int),
                k@,
                v@,
            ),
    {
        let (zi, local) = zones::resolve_flat(flat_id);
        let ghost before = self@;
        let ghost kb = k@;
        let ghost vb = v@;
        assert(self.zone_fields_match(zi as int));
        assert(self@.zones[zi as int] == self.zone_list@[zi as int]@);
        proof {
            assert(before.cold_slots_ok(zi as int));
            assert(before.cold_slot_ok(zi as int, local as int));
        }
        if let PageState::Cold(slot) = self.zone_list[zi].page_state(local) {
            if self.cold_slot_used.len() == 0 {
                self.cold_slot_used = vec![false; self.cold_capacity];
            }
            assert(self@.slots =~= before.slots);
            self.cold_slot_used.set(slot, false);
            self.zone_list[zi].reload(local, k, v);
            self.zone_list[zi].touch_lru(local);
            proof {
                let after = before.loaded(zi as int, local as int, kb, vb);
                assert(self@.zones =~= after.zones);
                assert(self@.slots =~= after.slots);
                assert(self@ =~= after);
                assert forall|i: int| 0 <= i < 3 implies #[trigger] self.zone_fields_match(i) by {
                    assert(old(self).zone_fields_match(i));
                }
                assert forall|id: int|
                    0 <= id < after.zones[zi as int].pages.len() implies after.cold_slot_ok(
                    zi as int,
                    id,
                ) by {
                    assert(before.cold_slot_ok(zi as int, id));
                }
                lemma_zones_kept(before, after, zi as int);
            }
        }
    }

    /// Stores one layer's keys and values at the current position, whose page
    /// must be hot; where the page has restored numbers they are updated too.
    pub fn save(
        &mut self,
        layer: usize,
        k: &[Q4Block],
        v: &[Q4Block],
        k_numbers: &[u32],
        v_numbers: &[u32],
    )
        requires
            old(self).wf(),
            old(self)@.is_hot(old(self)@.pos),
            layer < old(self)@.shape.num_layers,
            k@.len() == old(self)@.shape.num_kv_heads * old(self)@.shape.blocks(),
            v@.len() == old(self)@.shape.num_kv_heads * old(self)@.shape.blocks(),
            k_numbers@.len() == old(self)@.shape.num_kv_heads * old(self)@.shape.head_dim,
            v_numbers@.len() == old(self)@.shape.num_kv_heads * old(self)@.shape.head_dim,
        ensures
            final(self).wf(),
            final(self)@ == old(self)@.stored(
                layer as int,
                old(self)@.pos,
                k@,
                v@,
            ).floats_stored(layer as int, old(self)@.pos, k_numbers@, v_numbers@),
    {
        let pos: usize = self.current_pos;
        self.save_at(layer, pos, k, v);
        let zi: usize = zones::zone_index(pos);
        let local: usize = zones::local_page_id(pos);
        let slot: usize = zones::slot_in_page(pos);
        let bs: usize = zones::zone_block_size(zi);
        let ghost before = self@;
        let ghost fields = *self;
        assert(self.zone_fields_match(zi as int));
        assert(self@.zones[zi as int] == self.zone_list@[zi as int]@);
        self.zone_list[zi].store_restored(local, self.shape, bs, layer, slot, k_numbers, v_numbers);
        proof {
            let after = before.floats_stored(layer as int, pos as int, k_numbers@, v_numbers@);
            assert(self@.zones =~= after.zones);
            assert(self@ =~= after);
            assert forall|i: int| 0 <= i < 3 implies #[trigger] self.zone_fields_match(i) by {
                assert(fields.zone_fields_match(i));
            }
            assert(before.cold_slots_ok(zi as int));
            assert forall|id: int|
                0 <= id < after.zones[zi as int].pages.len() implies after.cold_slot_ok(
                zi as int,
                id,
            ) by {
                assert(before.cold_slot_ok(zi as int, id));
            }
            lemma_zones_kept(before, after, zi as int);
        }
    }

    /// Stores one layer's keys and values at a position whose page is hot.
    pub fn save_at(&mut self, layer: usize, pos: usize, k: &[Q4Block], v: &[Q4Block])
        requires
            old(self).wf(),
            old(self)@.is_hot(pos as int),
            layer < old(self)@.shape.num_layers,
            k@.len() == old(self)@.shape.num_kv_heads * old(self)@.shape.blocks(),
            v@.len() == old(self)@.shape.num_kv_heads * old(self)@.shape.blocks(),
        ensures
            final(self).wf(),
            final(self)@ == old(self)@.stored(layer as int, pos as int, k@, v@),
    {
        let zi: usize = zones::zone_index(pos);
        let local: usize = zones::local_page_id(pos);
        let slot: usize = zones::slot_in_page(pos);
        let bs: usize = zones::zone_block_size(zi);
        let ghost before = self@;
        assert(self.zone_fields_match(zi as int));
        assert(self@.zones[zi as int] == self.zone_list@[zi as int]@);
        self.zone_list[zi].store(local, self.shape, bs, layer, slot, k, v);
        proof {
            let after = before.stored(layer as int, pos as int, k@, v@);
            assert(self@.zones =~= after.zones);
            assert(self@ =~= after);
            assert forall|i: int| 0 <= i < 3 implies #[trigger] self.zone_fields_match(i) by {
                assert(old(self).zone_fields_match(i));
            }
            assert(before.cold_slots_ok(zi as int));
            assert forall|id: int|
                0 <= id < after.zones[zi as int].pages.len() implies after.cold_slot_ok(
                zi as int,
                id,
            ) by {
                assert(before.cold_slot_ok(zi as int, id));
            }
            lemma_zones_kept(before, after, zi as int);
        }
    }

    /// Whether the restored numbers of a page are there.
    pub fn has_f32_page(&self, page_id: usize) -> (b: bool)
        requires
            self.wf(),
            self@.has_page(page_id as int),
        ensures
            b == (self@.page(page_id as int).floats is Some),
    {
        let (zi, local) = zones::resolve_flat(page_id);
        assert(self@.zones[zi as int] == self.zone_list@[zi as int]@);
        self.zone_list[zi].has_floats(local)
    }

    /// What restores the keys and the values of a hot page, number by number.
    pub fn q4_terms(&self, page_id: usize) -> (r: (Vec<Q4Term>, Vec<Q4Term>))
        requires
            self.wf(),
            self@.has_page(page_id as int),
            self@.page(page_id as int).state == PageState::Hot,
        ensures
            r.0@ == self@.shape.terms(
                spec_zone_block_size(spec_flat_zone(page_id as int)),
                self@.page(page_id as int).k,
            ),
            r.1@ == self@.shape.terms(
                spec_zone_block_size(spec_flat_zone(page_id as int)),
                self@.page(page_id as int).v,
            ),
    {
        let (zi, local) = zones::resolve_flat(page_id);
        let bs: usize = zones::zone_block_size(zi);
        assert(self.zone_fields_match(zi as int));
        assert(self@.zones[zi as int] == self.zone_list@[zi as int]@);
        assert(self@.zones[zi as int].page_ok(
            local as int,
            self@.page_bytes(zi as int),
            self@.page_floats(zi as int),
        ));
        let k = page_terms(self.zone_list[zi].k_bytes(local), self.shape, bs);
        let v = page_terms(self.zone_list[zi].v_bytes(local), self.shape, bs);
        (k, v)
    }

    /// Gives a hot page its restored numbers, as bit patterns, unless it has
    /// them.
    pub fn ensure_f32_page(&mut self, page_id: usize, k: Vec<u32>, v: Vec<u32>)
        requires
            old(self).wf(),
            old(self)@.has_page(page_id as int),
            old(self)@.page(page_id as int).state == PageState::Hot,
            k@.len() == old(self)@.page_floats(spec_flat_zone(page_id as int)),
            v@.len() == old(self)@.page_floats(spec_flat_zone(page_id as int)),
        ensures
            final(self).wf(),
            final(self)@ == (if old(self)@.page(page_id as int).floats is Some {
                old(self)@
            } else {
                old(self)@.with_zone(
                    spec_flat_zone(page_id as int),
                    old(self)@.zones[spec_flat_zone(page_id as int)].with_floats(
                        spec_flat_local(page_id as int) as usize,
                        k@,
                        v@,
                    ),
                )
            }),
    {
        let (zi, local) = zones::resolve_flat(page_id);
        let ghost before = self@;
        let ghost kf = k@;
        let ghost vf = v@;
        assert(self.zone_fields_match(zi as int));
        assert(self@.zones[zi as int] == self.zone_list@[zi as int]@);
        if self.zone_list[zi].has_floats(local) {
            return ;
        }
        self.zone_list[zi].install_floats(local, k, v);
        proof {
            let after = before.with_zone(
                zi as int,
                before.zones[zi as int].with_floats(local, kf, vf),
            );
            assert(self@.zones =~= after.zones);
            assert(self@ =~= after);
            assert forall|i: int| 0 <= i < 3 implies #[trigger] self.zone_fields_match(i) by {
                assert(old(self).zone_fields_match(i));
            }
            assert(before.cold_slots_ok(zi as int));
            assert forall|id: int|
                0 <= id < after.zones[zi as int].pages.len() implies after.cold_slot_ok(
                zi as int,
                id,
            ) by {
                assert(before.cold_slot_ok(zi as int, id));
            }
            lemma_zones_kept(before, after, zi as int);
        }
    }

    /// Where the vector of a layer, a head and a slot starts in a restored
    /// page, and the vector's number.
    fn vector_at(&self, zi: usize, layer: usize, kv_head: usize, slot: usize) -> (r: (usize, usize))
        requires
            self.wf(),
            zi < 3,
            layer < self@.shape.num_layers,
            kv_head < self@.shape.num_kv_heads,
            slot < spec_zone_block_size(zi as int),
        ensures
            r.0 == r.1 * self@.shape.head_dim,
            r.1 == self@.shape.cell(
                spec_zone_block_size(zi as int),
                layer as int,
                kv_head as int,
                slot as int,
            ),
            r.0 + self@.shape.head_dim <= self@.page_floats(zi as int),
            r.1 < self@.shape.cells(spec_zone_block_size(zi as int)),
    {
        let bs: usize = zones::zone_block_size(zi);
        let ghost c = self@.shape.cell(bs as int, layer as int, kv_head as int, slot as int);
        proof {
            lemma_cell(self@.shape, bs as int, layer as int, kv_head as int, slot as int);
            lemma_two_digits(
                layer as int,
                kv_head as int,
                self@.shape.num_layers as int,
                self@.shape.num_kv_heads as int,
            );
            let u = layer * self@.shape.num_kv_heads + kv_head;
            assert(layer * self@.shape.num_kv_heads <= u);
            assert(u * bs <= c);
            let hd = self@.shape.head_dim as int;
            let cells = self@.shape.cells(bs as int);
            assert(c * hd + hd <= cells * hd) by (nonlinear_arith)
                requires
                    0 <= c,
                    c + 1 <= cells,
                    0 <= hd,
            ;
            assert(0 <= c * hd) by (nonlinear_arith)
                requires
                    0 <= c,
                    0 <= hd,
            ;
        }
        let u: usize = layer * self.shape.num_kv_heads + kv_head;
        let cell: usize = u * bs + slot;
        (cell * self.shape.head_dim, cell)
    }

    /// The restored key of a layer and a head at a position.
    pub fn get_k_unchecked(&self, layer: usize, kv_head: usize, pos: usize) -> (r: &[u32])
        requires
            self.wf(),
            layer < self@.shape.num_layers,
            kv_head < self@.shape.num_kv_heads,
            self@.has_page(spec_page_id(pos as int)),
            self@.page(spec_page_id(pos as int)).floats is Some,
        ensures
            r@ == self@.vector((self@.page(spec_page_id(pos as int)).floats->0).0, layer as int, kv_head as int, pos as int),
    {
        let zi: usize = zones::zone_index(pos);
        let local: usize = zones::local_page_id(pos);
        let slot: usize = zones::slot_in_page(pos);
        proof {
            zones::law_flat_page_resolves(pos as int);
            assert(self.zone_fields_match(zi as int));
        }
        assert(self@.zones[zi as int] == self.zone_list@[zi as int]@);
        assert(self@.zones[zi as int].page_ok(
            local as int,
            self@.page_bytes(zi as int),
            self@.page_floats(zi as int),
        ));
        let (off, _) = self.vector_at(zi, layer, kv_head, slot);
        slice_subrange(self.zone_list[zi].k_floats(local).as_slice(), off, off + self.shape.head_dim)
    }

    /// The restored value of a layer and a head at a position.
    pub fn get_v_unchecked(&self, layer: usize, kv_head: usize, pos: usize) -> (r: &[u32])
        requires
            self.wf(),
            layer < self@.shape.num_layers,
            kv_head < self@.shape.num_kv_heads,
            self@.has_page(spec_page_id(pos as int)),
            self@.page(spec_page_id(pos as int)).floats is Some,
        ensures
            r@ == self@.vector((self@.page(spec_page_id(pos as int)).floats->0).1, layer as int, kv_head as int, pos as int),
    {
        let zi: usize = zones::zone_index(pos);
        let local: usize = zones::local_page_id(pos);
        let slot: usize = zones::slot_in_page(pos);
        proof {
            zones::law_flat_page_resolves(pos as int);
            assert(self.zone_fields_match(zi as int));
        }
        assert(self@.zones[zi as int] == self.zone_list@[zi as int]@);
        assert(self@.zones[zi as int].page_ok(
            local as int,
            self@.page_bytes(zi as int),
            self@.page_floats(zi as int),
        ));
        let (off, _) = self.vector_at(zi, layer, kv_head, slot);
        slice_subrange(self.zone_list[zi].v_floats(local).as_slice(), off, off + self.shape.head_dim)
    }

    /// Range of a layer and a head in a page whose vectors take `unit`
    /// entries each.
    fn head_range(&self, zi: usize, layer: usize, kv_head: usize, unit: usize) -> (r: (usize, usize))
        requires
            self.wf(),
            zi < 3,
            layer < self@.shape.num_layers,
            kv_head < self@.shape.num_kv_heads,
            self@.shape.cells(spec_zone_block_size(zi as int)) * unit <= usize::MAX,
        ensures
            r.0 == self@.shape.cell(
                spec_zone_block_size(zi as int),
                layer as int,
                kv_head as int,
                0,
            ) * unit,
            r.1 == r.0 + spec_zone_block_size(zi as int) * unit,
            r.0 <= r.1 <= self@.shape.cells(spec_zone_block_size(zi as int)) * unit,
    {
        let bs: usize = zones::zone_block_size(zi);
        proof {
            lemma_cell(self@.shape, bs as int, layer as int, kv_head as int, 0);
            lemma_two_digits(
                layer as int,
                kv_head as int,
                self@.shape.num_layers as int,
                self@.shape.num_kv_heads as int,
            );
            let pairs = self@.shape.num_layers * self@.shape.num_kv_heads;
            let u = layer * self@.shape.num_kv_heads + kv_head;
            assert(layer * self@.shape.num_kv_heads <= u);
            assert(0 <= u * bs && u * bs + bs <= pairs * bs) by (nonlinear_arith)
                requires
                    0 <= u,
                    u + 1 <= pairs,
                    0 <= bs,
            ;
            let c = u * bs;
            let cells = pairs * bs;
            assert(0 <= c * unit && 0 <= bs * unit && c * unit + bs * unit <= cells * unit)
                by (nonlinear_arith)
                requires
                    0 <= c,
                    0 <= bs,
                    c + bs <= cells,
                    0 <= unit,
            ;
        }
        let u: usize = layer * self.shape.num_kv_heads + kv_head;
        let cell: usize = u * bs;
        let from: usize = cell * unit;
        (from, from + bs * unit)
    }

    /// The restored keys of a layer and a head over a page.
    pub fn k_page_ptr(&self, layer: usize, kv_head: usize, page_id: usize) -> (r: &[u32])
        requires
            self.wf(),
            layer < self@.shape.num_layers,
            kv_head < self@.shape.num_kv_heads,
            self@.has_page(page_id as int),
            self@.page(page_id as int).floats is Some,
        ensures
            r@ == self@.head_span(
                (self@.page(page_id as int).floats->0).0,
                spec_flat_zone(page_id as int),
                layer as int,
                kv_head as int,
                self@.shape.head_dim as int,
            ),
    {
        let (zi, local) = zones::resolve_flat(page_id);
        assert(self.zone_fields_match(zi as int));
        assert(self@.zones[zi as int] == self.zone_list@[zi as int]@);
        assert(self@.zones[zi as int].page_ok(
            local as int,
            self@.page_bytes(zi as int),
            self@.page_floats(zi as int),
        ));
        let (from, to) = self.head_range(zi, layer, kv_head, self.shape.head_dim);
        slice_subrange(self.zone_list[zi].k_floats(local).as_slice(), from, to)
    }

    /// The restored values of a layer and a head over a page.
    pub fn v_page_ptr(&self, layer: usize, kv_head: usize, page_id: usize) -> (r: &[u32])
        requires
            self.wf(),
            layer < self@.shape.num_layers,
            kv_head < self@.shape.num_kv_heads,
            self@.has_page(page_id as int),
            self@.page(page_id as int).floats is Some,
        ensures
            r@ == self@.head_span(
                (self@.page(page_id as int).floats->0).1,
                spec_flat_zone(page_id as int),
                layer as int,
                kv_head as int,
                self@.shape.head_dim as int,
            ),
    {
        let (zi, local) = zones::resolve_flat(page_id);
        assert(self.zone_fields_match(zi as int));
        assert(self@.zones[zi as int] == self.zone_list@[zi as int]@);
        assert(self@.zones[zi as int].page_ok(
            local as int,
            self@.page_bytes(zi as int),
            self@.page_floats(zi as int),
        ));
        let (from, to) = self.head_range(zi, layer, kv_head, self.shape.head_dim);
        slice_subrange(self.zone_list[zi].v_floats(local).as_slice(), from, to)
    }

    /// The quantised keys of a layer and a head over a page.
    pub fn k_q4_page_ptr(&self, layer: usize, kv_head: usize, page_id: usize) -> (r: &[u8])
        requires
            self.wf(),
            layer < self@.shape.num_layers,
            kv_head < self@.shape.num_kv_heads,
            self@.has_page(page_id as int),
            self@.page(page_id as int).state == PageState::Hot,
        ensures
            r@ == self@.head_span(
                self@.page(page_id as int).k,
                spec_flat_zone(page_id as int),
                layer as int,
                kv_head as int,
                self@.shape.blocks() * 20,
            ),
    {
        let (zi, local) = zones::resolve_flat(page_id);
        assert(self.zone_fields_match(zi as int));
        assert(self@.zones[zi as int] == self.zone_list@[zi as int]@);
        assert(self@.zones[zi as int].page_ok(
            local as int,
            self@.page_bytes(zi as int),
            self@.page_floats(zi as int),
        ));
        proof {
            lemma_unit_fits(self@.shape, spec_zone_block_size(zi as int));
        }
        let unit: usize = blocks_per_head(self.shape.head_dim) * 20;
        let (from, to) = self.head_range(zi, layer, kv_head, unit);
        slice_subrange(self.zone_list[zi].k_bytes(local).as_slice(), from, to)
    }

    /// The quantised values of a layer and a head over a page.
    pub fn v_q4_page_ptr(&self, layer: usize, kv_head: usize, page_id: usize) -> (r: &[u8])
        requires
            self.wf(),
            layer < self@.shape.num_layers,
            kv_head < self@.shape.num_kv_heads,
            self@.has_page(page_id as int),
            self@.page(page_id as int).state == PageState::Hot,
        ensures
            r@ == self@.head_span(
                self@.page(page_id as int).v,
                spec_flat_zone(page_id as int),
                layer as int,
                kv_head as int,
                self@.shape.blocks() * 20,
            ),
    {
        let (zi, local) = zones::resolve_flat(page_id);
        assert(self.zone_fields_match(zi as int));
        assert(self@.zones[zi as int] == self.zone_list@[zi as int]@);
        assert(self@.zones[zi as int].page_ok(
            local as int,
            self@.page_bytes(zi as int),
            self@.page_floats(zi as int),
        ));
        proof {
            lemma_unit_fits(self@.shape, spec_zone_block_size(zi as int));
        }
        let unit: usize = blocks_per_head(self.shape.head_dim) * 20;
        let (from, to) = self.head_range(zi, layer, kv_head, unit);
        slice_subrange(self.zone_list[zi].v_bytes(local).as_slice(), from, to)
    }

    /// Replaces the accumulated attention of the page that holds `pos`, if
    /// the page exists.
    ///
    /// The score is an order key: the bit pattern of a number that is not
    /// negative.
    pub fn record_importance(&mut self, pos: usize, total: u64)
        requires
            old(self).wf(),
        ensures
            final(self).wf(),
            final(self)@ == (if old(self)@.has_page(spec_page_id(pos as int)) {
                old(self)@.with_zone(
                    spec_zone_index(pos as int),
                    old(self)@.zones[spec_zone_index(pos as int)].with_importance(
                        spec_local_page(pos as int) as usize,
                        total,
                    ),
                )
            } else {
                old(self)@
            }),
    {
        let zi: usize = zones::zone_index(pos);
        let local: usize = zones::local_page_id(pos);
        let ghost before = self@;
        proof {
            zones::law_flat_page_resolves(pos as int);
        }
        assert(self.zone_fields_match(zi as int));
        assert(self@.zones[zi as int] == self.zone_list@[zi as int]@);
        if local < self.zone_list[zi].num_pages() {
            self.zone_list[zi].set_importance(local, total);
            proof {
                let after = before.with_zone(
                    zi as int,
                    before.zones[zi as int].with_importance(local, total),
                );
                assert(self@.zones =~= after.zones);
                assert(self@ =~= after);
                assert forall|i: int| 0 <= i < 3 implies #[trigger] self.zone_fields_match(i) by {
                    assert(old(self).zone_fields_match(i));
                }
                assert(before.cold_slots_ok(zi as int));
                assert forall|id: int|
                    0 <= id < after.zones[zi as int].pages.len() implies after.cold_slot_ok(
                    zi as int,
                    id,
                ) by {
                    assert(before.cold_slot_ok(zi as int, id));
                }
                lemma_zones_kept(before, after, zi as int);
            }
        }
    }

    /// The accumulated attention of the page that holds `pos`.
    pub fn entropy_for(&self, pos: usize) -> (w: u64)
        requires
            self.wf(),
        ensures
            w == (if self@.has_page(spec_page_id(pos as int)) {
                self@.page(spec_page_id(pos as int)).importance
            } else {
                0
            }),
    {
        let zi: usize = zones::zone_index(pos);
        let local: usize = zones::local_page_id(pos);
        proof {
            zones::law_flat_page_resolves(pos as int);
        }
        assert(self@.zones[zi as int] == self.zone_list@[zi as int]@);
        if local < self.zone_list[zi].num_pages() {
            self.zone_list[zi].importance(local)
        } else {
            0
        }
    }

    /// Forgets all accumulated attention.
    pub fn reset_entropy(&mut self)
        requires
            old(self).wf(),
        ensures
            final(self).wf(),
            final(self)@ == (CacheView {
                zones: Seq::new(3, |i: int| old(self)@.zones[i].without_importance()),
                ..old(self)@
            }),
    {
        let ghost before = self@;
        let mut zi: usize = 0;
        while zi < 3
            invariant
                zi <= 3,
                before == old(self)@,
                before.wf(),
                self.fields_match(),
                self.zone_list@.len() == 3,
                self.shape == before.shape,
                self@.limit == before.limit,
                self@.slots == before.slots,
                self@.cursor == before.cursor,
                self@.pos == before.pos,
                self@.max_seq_len == before.max_seq_len,
                self@.block_size == before.block_size,
                forall|i: int|
                    0 <= i < 3 ==> (#[trigger] self.zone_list@[i])@ == (if i < zi {
                        before.zones[i].without_importance()
                    } else {
                        before.zones[i]
                    }),
            decreases 3 - zi,
        {
            let ghost fields = *self;
            assert(self.zone_fields_match(zi as int));
            self.zone_list[zi].reset_importance();
            assert forall|i: int| 0 <= i < 3 implies #[trigger] self.zone_fields_match(i) by {
                assert(fields.zone_fields_match(i));
            }
            zi = zi + 1;
        }
        proof {
            let after = CacheView {
                zones: Seq::new(3, |i: int| before.zones[i].without_importance()),
                ..before
            };
            assert(self@.zones =~= after.zones);
            assert(self@ =~= after);
            lemma_scores_do_not_matter(before, after, 0);
            lemma_scores_do_not_matter(before, after, 1);
            lemma_scores_do_not_matter(before, after, 2);
        }
    }

    /// Positions per page around `pos`.
    pub fn block_size_for(&self, pos: usize) -> (n: usize)
        ensures
            n == spec_zone_block_size(spec_zone_index(pos as int)),
    {
        zones::zone_block_size(zones::zone_index(pos))
    }

    /// Flat page number of a position.
    pub fn page_id(&self, pos: usize) -> (id: usize)
        ensures
            id == spec_page_id(pos as int),
    {
        zones::page_id(pos)
    }

    /// First position of the page that holds `pos`.
    pub fn page_start_for(&self, pos: usize) -> (start: usize)
        ensures
            start == pos - spec_slot(pos as int),
    {
        zones::page_start_for(pos)
    }

    pub fn slot_in_page(&self, pos: usize) -> (slot: usize)
        ensures
            slot == spec_slot(pos as int),
    {
        zones::slot_in_page(pos)
    }

    /// Changes how many hot pages a zone may keep; nothing moves at once.
    pub fn set_ram_page_limit(&mut self, limit: usize)
        requires
            old(self).wf(),
        ensures
            final(self).wf(),
            final(self)@ == (CacheView { limit: limit as int, ..old(self)@ }),
    {
        let ghost before = self@;
        self.ram_page_limit = limit;
        proof {
            let after = CacheView { limit: limit as int, ..before };
            assert(self@ =~= after);
            assert forall|i: int| 0 <= i < 3 implies #[trigger] self.zone_fields_match(i) by {
                assert(old(self).zone_fields_match(i));
            }
            assert(before.cold_slots_ok(0));
            assert forall|id: int| 0 <= id < after.zones[0].pages.len() implies after.cold_slot_ok(
                0,
                id,
            ) by {
                assert(before.cold_slot_ok(0, id));
            }
            lemma_zones_kept(before, after, 0);
        }
    }

    /// Moves on to the next position.
    pub fn advance(&mut self)
        requires
            old(self).wf(),
            old(self)@.pos < usize::MAX,
        ensures
            final(self).wf(),
            final(self)@ == (CacheView { pos: old(self)@.pos + 1, ..old(self)@ }),
    {
        let next: usize = self.current_pos + 1;
        self.set_pos(next);
    }

    /// Goes back to the first position; the pages stay as they are.
    pub fn reset(&mut self)
        requires
            old(self).wf(),
        ensures
            final(self).wf(),
            final(self)@ == (CacheView { pos: 0, ..old(self)@ }),
    {
        self.set_pos(0);
    }

    fn set_pos(&mut self, pos: usize)
        requires
            old(self).wf(),
        ensures
            final(self).wf(),
            final(self)@ == (CacheView { pos: pos as int, ..old(self)@ }),
    {
        let ghost before = self@;
        self.current_pos = pos;
        proof {
            let after = CacheView { pos: pos as int, ..before };
            assert(self@ =~= after);
            assert forall|i: int| 0 <= i < 3 implies #[trigger] self.zone_fields_match(i) by {
                assert(old(self).zone_fields_match(i));
            }
            assert(before.cold_slots_ok(0));
            assert forall|id: int| 0 <= id < after.zones[0].pages.len() implies after.cold_slot_ok(
                0,
                id,
            ) by {
                assert(before.cold_slot_ok(0, id));
            }
            lemma_zones_kept(before, after, 0);
        }
    }

    pub fn current_pos(&self) -> (pos: usize)
        ensures
            pos == self@.pos,
    {
        self.current_pos
    }
}

/// A page that left and is loaded again with the bytes that were written has
/// the keys, values and score that it had; no other page changes.
pub proof fn law_evicted_page_comes_back(c: CacheView, zi: int)
    requires
        c.wf(),
        0 <= zi < 3,
        c.can_evict(zi),
    ensures
        ({
            let id = c.zones[zi].victim() as int;
            let page = c.zones[zi].pages[id];
            let away = c.evicted(zi);
            let back = away.loaded(zi, id, page.k, page.v);
            &&& page.state == PageState::Hot
            &&& away.is_cold(zi, id)
            &&& away.zones[zi].pages[id].state == PageState::Cold(c.next_slot() as usize)
            &&& back.zones[zi].pages[id] == PageView { floats: None, ..page }
            &&& back.zones[zi].order[0] == id
            &&& forall|zj: int, j: int|
                0 <= zj < 3 && (zj != zi || j != id) && 0 <= j < c.zones[zj].pages.len() ==> (
                #[trigger] back.zones[zj].pages[j]) == c.zones[zj].pages[j]
        }),
{
    let z = c.zones[zi];
    lemma_victim_in_window(z, z.window_start());
    let id = z.victim();
    assert(z.order.contains(id));
    assert(z.page_ok(id as int, c.page_bytes(zi), c.page_floats(zi)));
}

/// Where every cold page has a slot of its own and a slot is free, a page
/// that leaves takes a free slot, so that no cold page is overwritten, and
/// every cold page still has a slot of its own.
pub proof fn law_eviction_to_a_free_slot_loses_nothing(c: CacheView, zi: int, free: int)
    requires
        c.wf(),
        c.slots_owned(),
        0 <= zi < 3,
        c.can_evict(zi),
        0 <= free < c.slots.len(),
        !c.slots[free],
    ensures
        0 <= c.next_slot() < c.slots.len(),
        !c.slots[c.next_slot()],
        forall|zj: int, j: int|
            c.is_cold_at(zj, j) ==> (#[trigger] c.slot_of(zj, j)) != c.next_slot(),
        c.evicted(zi).slots_owned(),
{
    let n = c.slots.len() as int;
    let i: int = if free >= c.cursor {
        free - c.cursor
    } else {
        n - c.cursor + free
    };
    lemma_wrap(c.cursor, i, n);
    lemma_free_slot_found(c.slots, c.cursor, 0, i);
    let slot = c.next_slot();
    let z = c.zones[zi];
    lemma_victim_in_window(z, z.window_start());
    let id = z.victim();
    let away = c.evicted(zi);
    assert(z.order[z.least_important(z.window_start())] == id);
    assert forall|zj: int, j: int| away.is_cold_at(zj, j) implies away.slots[#[trigger] away.slot_of(
        zj,
        j,
    )] by {
        if zj != zi || j != id {
            assert(c.is_cold_at(zj, j));
            assert(c.slots[c.slot_of(zj, j)]);
            assert(c.cold_slots_ok(zj)) by {
                assert(c.zone_ok(0) && c.zone_ok(1) && c.zone_ok(2));
            }
            assert(c.cold_slot_ok(zj, j));
        }
    }
    assert forall|zj: int, j: int, zk: int, k: int|
        away.is_cold_at(zj, j) && away.is_cold_at(zk, k) && (zj != zk || j != k) implies (
    #[trigger] away.slot_of(zj, j)) != (#[trigger] away.slot_of(zk, k)) by {
        if zj != zi || j != id {
            assert(c.is_cold_at(zj, j));
            assert(c.slots[c.slot_of(zj, j)]);
            assert(away.slot_of(zj, j) == c.slot_of(zj, j));
        }
        if zk != zi || k != id {
            assert(c.is_cold_at(zk, k));
            assert(c.slots[c.slot_of(zk, k)]);
            assert(away.slot_of(zk, k) == c.slot_of(zk, k));
        }
    }
}

/// Loading a page frees its slot and no other; every cold page still has a
/// slot of its own.
pub proof fn law_loading_keeps_slots(c: CacheView, zi: int, local: int, k: Seq<u8>, v: Seq<u8>)
    requires
        c.wf(),
        c.slots_owned(),
        0 <= zi < 3,
        c.is_cold(zi, local),
    ensures
        c.loaded(zi, local, k, v).slots_owned(),
        !c.loaded(zi, local, k, v).slots[c.slot_of(zi, local)],
{
    let back = c.loaded(zi, local, k, v);
    assert(c.is_cold_at(zi, local));
    assert(c.zone_ok(0) && c.zone_ok(1) && c.zone_ok(2));
    assert(c.cold_slot_ok(zi, local));
    assert forall|zj: int, j: int| back.is_cold_at(zj, j) implies back.slots[#[trigger] back.slot_of(
        zj,
        j,
    )] by {
        assert(c.is_cold_at(zj, j));
        assert(c.slots[c.slot_of(zj, j)]);
        assert(c.cold_slots_ok(zj));
        assert(c.cold_slot_ok(zj, j));
        assert(c.slot_of(zj, j) != c.slot_of(zi, local));
    }
    assert forall|zj: int, j: int, zk: int, m: int|
        back.is_cold_at(zj, j) && back.is_cold_at(zk, m) && (zj != zk || j != m) implies (
    #[trigger] back.slot_of(zj, j)) != (#[trigger] back.slot_of(zk, m)) by {
        assert(c.is_cold_at(zj, j));
        assert(c.is_cold_at(zk, m));
        assert(c.slot_of(zj, j) != c.slot_of(zk, m));
    }
}

/// The keys and values of a page of any zone end before the next slot of the
/// cold store begins.
pub proof fn law_cold_slots_do_not_overlap(c: CacheView, zi: int, slot: int)
    requires
        c.wf(),
        0 <= zi < 3,
        0 <= slot,
    ensures
        slot * c.slot_bytes() + 2 * c.page_bytes(zi) <= (slot + 1) * c.slot_bytes(),
{
    let pairs = c.shape.num_layers * c.shape.num_kv_heads;
    let blocks = c.shape.blocks();
    let bs = spec_zone_block_size(zi);
    assert(pairs * bs * blocks * 20 <= pairs * 1024 * blocks * 20) by (nonlinear_arith)
        requires
            0 <= pairs,
            0 <= blocks,
            0 <= bs <= 1024,
    ;
    assert((slot + 1) * c.slot_bytes() == slot * c.slot_bytes() + c.slot_bytes())
        by (nonlinear_arith);
}

/// The page that leaves has the least score of the eviction window, and of
/// equals it was used longest ago.
pub proof fn law_victim_is_least_important(z: ZoneView, j: int)
    requires
        z.order.len() > 0,
        z.window_start() <= j < z.order.len(),
    ensures
        ({
            let at = z.least_important(z.window_start());
            &&& z.window_start() <= at < z.order.len()
            &&& z.victim() == z.order[at]
            &&& z.score(at) <= z.score(j)
            &&& j > at ==> z.score(at) < z.score(j)
        }),
{
    lemma_victim_in_window(z, z.window_start());
    lemma_victim_least(z, z.window_start(), j);
}

/// A request that is answered `Ready` leaves the page hot and first in the
/// recency order of its zone.
pub proof fn law_ready_page_is_most_recent(
    c: CacheView,
    zi: int,
    local: int,
    stored: bool,
    after: CacheView,
)
    requires
        0 <= zi < 3,
        c.zones.len() == 3,
        0 <= local <= usize::MAX,
        c.request_answered(zi, local, stored, PageAction::Ready, after),
    ensures
        after.zones[zi].pages[local].state == PageState::Hot,
        after.zones[zi].order[0] == local,
{
    lemma_grown_keeps_zones(c, zi, local, stored);
}

/// A vector saved at a position restores from what was saved.
pub proof fn law_saved_vector_reads_back(
    c: CacheView,
    layer: int,
    head: int,
    pos: int,
    k: Seq<Q4Block>,
    v: Seq<Q4Block>,
    i: int,
)
    requires
        c.wf(),
        0 <= pos <= usize::MAX,
        c.is_hot(pos),
        0 <= layer < c.shape.num_layers,
        0 <= head < c.shape.num_kv_heads,
        0 <= i < c.shape.head_dim,
        k.len() == c.shape.num_kv_heads * c.shape.blocks(),
        v.len() == c.shape.num_kv_heads * c.shape.blocks(),
        k[head * c.shape.blocks() + i / 32].valid(),
        v[head * c.shape.blocks() + i / 32].valid(),
    ensures
        ({
            let after = c.stored(layer, pos, k, v);
            let at = head * c.shape.blocks() + i / 32;
            &&& c.number_at(after.page_of(pos).k, layer, head, pos, i) == (Q4Term {
                d: k[at].d,
                dmin: k[at].dmin,
                code: k[at].codes@[i % 32],
            })
            &&& c.number_at(after.page_of(pos).v, layer, head, pos, i) == (Q4Term {
                d: v[at].d,
                dmin: v[at].dmin,
                code: v[at].codes@[i % 32],
            })
        }),
{
    let zi = spec_zone_index(pos);
    let bs = spec_zone_block_size(zi);
    zones::law_position_splits(pos);
    assert(c.zone_ok(0) && c.zone_ok(1) && c.zone_ok(2));
    assert(c.zones[zi].page_ok(spec_local_page(pos), c.page_bytes(zi), c.page_floats(zi)));
    law_stored_vector_reads_back(
        c.shape,
        bs,
        c.page_of(pos).k,
        layer,
        head,
        spec_slot(pos),
        k,
        i,
    );
    law_stored_vector_reads_back(
        c.shape,
        bs,
        c.page_of(pos).v,
        layer,
        head,
        spec_slot(pos),
        v,
        i,
    );
}

/// Saving at one position leaves the vectors of every other position of the
/// same page, and of every other layer, as they were.
pub proof fn law_saving_keeps_other_vectors(
    c: CacheView,
    layer: int,
    pos: int,
    k: Seq<Q4Block>,
    v: Seq<Q4Block>,
    other_layer: int,
    other_head: int,
    other_pos: int,
    i: int,
)
    requires
        c.wf(),
        0 <= pos <= usize::MAX,
        0 <= other_pos <= usize::MAX,
        c.is_hot(pos),
        c.is_hot(other_pos),
        0 <= other_layer < c.shape.num_layers,
        0 <= other_head < c.shape.num_kv_heads,
        0 <= i < c.shape.head_dim,
        other_layer != layer || other_pos != pos,
    ensures
        ({
            let after = c.stored(layer, pos, k, v);
            &&& c.number_at(after.page_of(other_pos).k, other_layer, other_head, other_pos, i)
                == c.number_at(c.page_of(other_pos).k, other_layer, other_head, other_pos, i)
            &&& c.number_at(after.page_of(other_pos).v, other_layer, other_head, other_pos, i)
                == c.number_at(c.page_of(other_pos).v, other_layer, other_head, other_pos, i)
        }),
{
    let zi = spec_zone_index(pos);
    let zj = spec_zone_index(other_pos);
    zones::law_position_splits(pos);
    zones::law_position_splits(other_pos);
    assert(c.zone_ok(0) && c.zone_ok(1) && c.zone_ok(2));
    if zi == zj && spec_local_page(pos) == spec_local_page(other_pos) {
        let bs = spec_zone_block_size(zi);
        assert(c.zones[zi].page_ok(spec_local_page(pos), c.page_bytes(zi), c.page_floats(zi)));
        law_store_keeps_other_vectors(
            c.shape,
            bs,
            c.page_of(pos).k,
            layer,
            spec_slot(pos),
            k,
            other_layer,
            other_head,
            spec_slot(other_pos),
            i,
        );
        law_store_keeps_other_vectors(
            c.shape,
            bs,
            c.page_of(pos).v,
            layer,
            spec_slot(pos),
            v,
            other_layer,
            other_head,
            spec_slot(other_pos),
            i,
        );
    }
}

proof fn lemma_victim_in_window(z: ZoneView, j: int)
    requires
        0 <= j < z.order.len(),
    ensures
        j <= z.least_important(j) < z.order.len(),
    decreases z.order.len() - j,
{
    if j < z.order.len() - 1 {
        lemma_victim_in_window(z, j + 1);
    }
}

proof fn lemma_victim_least(z: ZoneView, from: int, j: int)
    requires
        0 <= from <= j < z.order.len(),
    ensures
        z.score(z.least_important(from)) <= z.score(j),
        j > z.least_important(from) ==> z.score(z.least_important(from)) < z.score(j),
    decreases z.order.len() - from,
{
    if from < z.order.len() - 1 {
        lemma_victim_in_window(z, from + 1);
        if j > from {
            lemma_victim_least(z, from + 1, j);
        } else {
            lemma_victim_least(z, from + 1, z.least_important(from + 1));
        }
    }
}

proof fn lemma_free_slot_found(slots: Seq<bool>, cursor: int, i: int, free: int)
    requires
        0 <= cursor < slots.len(),
        0 <= i <= free < slots.len(),
        !slots[(cursor + free) % slots.len() as int],
    ensures
        0 <= free_slot(slots, cursor, i) < slots.len(),
        !slots[free_slot(slots, cursor, i)],
    decreases free - i,
{
    lemma_wrap(cursor, i, slots.len() as int);
    if slots[(cursor + i) % slots.len() as int] {
        lemma_free_slot_found(slots, cursor, i + 1, free);
    }
}

proof fn lemma_grown_keeps_zones(c: CacheView, zi: int, local: int, room: bool)
    requires
        0 <= zi < c.zones.len(),
        0 <= local,
    ensures
        c.grown(zi, local, room) matches Growth::Grown(d, r) ==> d.zones.len() == c.zones.len()
            && local < d.zones[zi].pages.len(),
    decreases local + 1 - c.zones[zi].pages.len(),
{
    if local >= c.zones[zi].pages.len() && (room || !c.needs_room(zi)) {
        let d = c.with_zone(zi, c.zones[zi].with_new_page(c.page_bytes(zi)));
        lemma_grown_keeps_zones(d, zi, local, false);
    }
}

/// Sizes of a quantised page in bytes and of a restored page in numbers.
fn page_sizes(shape: Shape, bs: usize) -> (r: (usize, usize))
    requires
        shape.fits(bs as int),
    ensures
        r.0 == shape.page_bytes(bs as int),
        r.1 == shape.page_floats(bs as int),
{
    let pairs: usize = shape.num_layers * shape.num_kv_heads;
    let cells: usize = pairs * bs;
    let blocks: usize = blocks_per_head(shape.head_dim);
    proof {
        assert(0 <= cells * blocks) by (nonlinear_arith)
            requires
                0 <= cells,
                0 <= blocks,
        ;
        assert(0 <= cells * shape.head_dim) by (nonlinear_arith)
            requires
                0 <= cells,
                0 <= shape.head_dim,
        ;
    }
    (cells * blocks * 20, cells * shape.head_dim)
}

/// Where the largest pages can be addressed, the smaller ones can.
proof fn lemma_smaller_pages_fit(shape: Shape)
    requires
        shape.fits(1024),
    ensures
        shape.fits(32),
        shape.fits(128),
{
    let pairs = shape.num_layers * shape.num_kv_heads;
    let blocks = shape.blocks();
    assert(0 <= pairs) by (nonlinear_arith)
        requires
            pairs == shape.num_layers * shape.num_kv_heads,
    ;
    assert(pairs * 32 * blocks * 20 <= pairs * 1024 * blocks * 20) by (nonlinear_arith)
        requires
            0 <= pairs,
            0 <= blocks,
    ;
    assert(pairs * 128 * blocks * 20 <= pairs * 1024 * blocks * 20) by (nonlinear_arith)
        requires
            0 <= pairs,
            0 <= blocks,
    ;
    assert(pairs * 32 * shape.head_dim <= pairs * 1024 * shape.head_dim) by (nonlinear_arith)
        requires
            0 <= pairs,
    ;
    assert(pairs * 128 * shape.head_dim <= pairs * 1024 * shape.head_dim) by (nonlinear_arith)
        requires
            0 <= pairs,
    ;
}

proof fn lemma_unit_fits(shape: Shape, bs: int)
    requires
        shape.fits(bs),
        shape.num_layers > 0,
        shape.num_kv_heads > 0,
        bs > 0,
    ensures
        shape.blocks() * 20 <= usize::MAX,
        shape.cells(bs) * (shape.blocks() * 20) == shape.page_bytes(bs),
{
    let cells = shape.cells(bs);
    let blocks = shape.blocks();
    assert(cells >= 1) by (nonlinear_arith)
        requires
            cells == shape.num_layers * shape.num_kv_heads * bs,
            shape.num_layers > 0,
            shape.num_kv_heads > 0,
            bs > 0,
    ;
    assert(blocks * 20 <= cells * blocks * 20) by (nonlinear_arith)
        requires
            cells >= 1,
            blocks >= 0,
    ;
    assert(cells * (blocks * 20) == cells * blocks * 20) by (nonlinear_arith);
}

/// Clearing scores keeps a zone in order.
proof fn lemma_scores_do_not_matter(before: CacheView, after: CacheView, zi: int)
    requires
        before.wf(),
        0 <= zi < 3,
        after.shape == before.shape,
        after.slots == before.slots,
        after.zones[zi] == before.zones[zi].without_importance(),
    ensures
        after.zone_ok(zi),
{
    let b = before.zones[zi];
    let a = after.zones[zi];
    assert(before.cold_slots_ok(zi));
    assert forall|id: int| 0 <= id < a.pages.len() implies #[trigger] a.page_ok(
        id,
        after.page_bytes(zi),
        after.page_floats(zi),
    ) by {
        assert(b.page_ok(id, before.page_bytes(zi), before.page_floats(zi)));
    }
    assert forall|id: int| 0 <= id < a.pages.len() implies after.cold_slot_ok(zi, id) by {
        assert(before.cold_slot_ok(zi, id));
    }
}

/// A step past the end of a ring starts over.
proof fn lemma_wrap(cursor: int, i: int, n: int)
    requires
        0 <= cursor < n,
        0 <= i < n,
    ensures
        (cursor + i) % n == (if cursor >= n - i {
            cursor - (n - i)
        } else {
            cursor + i
        }),
{
    if cursor >= n - i {
        vstd::arithmetic::div_mod::lemma_fundamental_div_mod_converse(
            cursor + i,
            n,
            1,
            cursor - (n - i),
        );
    } else {
        vstd::arithmetic::div_mod::lemma_small_mod((cursor + i) as nat, n as nat);
    }
}

/// Changing one zone and one slot keeps the other zones in order.
proof fn lemma_zones_kept(before: CacheView, after: CacheView, zi: int)
    requires
        before.wf(),
        0 <= zi < 3,
        after.zones.len() == 3,
        after.shape == before.shape,
        after.slots.len() == before.slots.len(),
        forall|i: int| 0 <= i < 3 && i != zi ==> #[trigger] after.zones[i] == before.zones[i],
        after.zones[zi].wf(before.page_bytes(zi), before.page_floats(zi)),
        after.cold_slots_ok(zi),
    ensures
        after.zone_ok(0),
        after.zone_ok(1),
        after.zone_ok(2),
{
    assert forall|i: int| 0 <= i < 3 && i != zi implies after.cold_slots_ok(i) by {
        assert(before.cold_slots_ok(0) && before.cold_slots_ok(1) && before.cold_slots_ok(2));
        assert forall|id: int| 0 <= id < after.zones[i].pages.len() implies after.cold_slot_ok(
            i,
            id,
        ) by {
            assert(before.cold_slot_ok(i, id));
        }
    }
    assert(after.zones[0] == before.zones[0] || zi == 0);
    assert(after.zones[1] == before.zones[1] || zi == 1);
    assert(after.zones[2] == before.zones[2] || zi == 2);
}

/// The page that leaves is one of the eight used longest ago, and none of those eight
/// has a lower score.
pub proof fn law_victim_is_of_the_oldest_eight(z: ZoneView, j: int)
    requires
        z.order.len() > 0,
        0 <= j < z.order.len(),
        z.order.len() - 8 <= j,
    ensures
        ({
            let at = z.least_important(z.window_start());
            &&& z.victim() == z.order[at]
            &&& 0 <= at < z.order.len()
            &&& z.order.len() - 8 <= at
            &&& z.pages[z.victim() as int].importance <= z.pages[z.order[j] as int].importance
        }),
{
    law_victim_is_least_important(z, j);
}

/// Numbers stored for a position are the vectors that a later read of it gives, head by
/// head; the vectors of other positions and layers stay as they were.
pub proof fn law_stored_numbers_read_back(
    c: CacheView,
    layer: int,
    pos: int,
    k: Seq<u32>,
    v: Seq<u32>,
    at_layer: int,
    head: int,
    at_pos: int,
)
    requires
        c.wf(),
        0 <= pos <= usize::MAX,
        0 <= at_pos <= usize::MAX,
        c.is_hot(pos),
        c.is_hot(at_pos),
        c.page_of(pos).floats is Some,
        c.page_of(at_pos).floats is Some,
        0 <= layer < c.shape.num_layers,
        0 <= at_layer < c.shape.num_layers,
        0 <= head < c.shape.num_kv_heads,
        k.len() == c.shape.num_kv_heads * c.shape.head_dim,
        v.len() == c.shape.num_kv_heads * c.shape.head_dim,
    ensures
        ({
            let after = c.floats_stored(layer, pos, k, v);
            let was = c.page_of(at_pos).floats->0;
            let is = after.page_of(at_pos).floats->0;
            let d = c.shape.head_dim as int;
            &&& after.page_of(at_pos).floats is Some
            &&& if at_layer == layer && at_pos == pos {
                &&& after.vector(is.0, at_layer, head, at_pos) == k.subrange(head * d, head * d + d)
                &&& after.vector(is.1, at_layer, head, at_pos) == v.subrange(head * d, head * d + d)
            } else {
                &&& after.vector(is.0, at_layer, head, at_pos) == c.vector(
                    was.0,
                    at_layer,
                    head,
                    at_pos,
                )
                &&& after.vector(is.1, at_layer, head, at_pos) == c.vector(
                    was.1,
                    at_layer,
                    head,
                    at_pos,
                )
            }
        }),
{
    let zi = spec_zone_index(pos);
    let zj = spec_zone_index(at_pos);
    zones::law_position_splits(pos);
    zones::law_position_splits(at_pos);
    assert(c.zone_ok(0) && c.zone_ok(1) && c.zone_ok(2));
    assert(c.zones[zj].page_ok(spec_local_page(at_pos), c.page_bytes(zj), c.page_floats(zj)));
    let after = c.floats_stored(layer, pos, k, v);
    let was = c.page_of(at_pos).floats->0;
    let is = after.page_of(at_pos).floats->0;
    if zi == zj && spec_local_page(pos) == spec_local_page(at_pos) {
        let bs = spec_zone_block_size(zi);
        lemma_vector_after_store(c, was.0, layer, pos, k, at_layer, head, at_pos);
        lemma_vector_after_store(c, was.1, layer, pos, v, at_layer, head, at_pos);
    }
}

proof fn lemma_vector_after_store(
    c: CacheView,
    page: Seq<u32>,
    layer: int,
    pos: int,
    source: Seq<u32>,
    at_layer: int,
    head: int,
    at_pos: int,
)
    requires
        0 <= pos,
        0 <= at_pos,
        spec_zone_index(pos) == spec_zone_index(at_pos),
        spec_local_page(pos) == spec_local_page(at_pos),
        page.len() == c.page_floats(spec_zone_index(pos)),
        0 <= layer < c.shape.num_layers,
        0 <= at_layer < c.shape.num_layers,
        0 <= head < c.shape.num_kv_heads,
        source.len() == c.shape.num_kv_heads * c.shape.head_dim,
    ensures
        ({
            let bs = spec_zone_block_size(spec_zone_index(pos));
            let d = c.shape.head_dim as int;
            let after = c.shape.floats_after_store(bs, page, layer, spec_slot(pos), source);
            c.vector(after, at_layer, head, at_pos) == (if at_layer == layer && at_pos == pos {
                source.subrange(head * d, head * d + d)
            } else {
                c.vector(page, at_layer, head, at_pos)
            })
        }),
{
    let bs = spec_zone_block_size(spec_zone_index(pos));
    let d = c.shape.head_dim as int;
    let slot = spec_slot(at_pos);
    zones::law_position_splits(pos);
    zones::law_position_splits(at_pos);
    let after = c.shape.floats_after_store(bs, page, layer, spec_slot(pos), source);
    let cell = c.shape.cell(bs, at_layer, head, slot);
    lemma_cell(c.shape, bs, at_layer, head, slot);
    let at = cell * d;
    assert(0 <= at && at + d <= c.shape.cells(bs) * d) by (nonlinear_arith)
        requires
            at == cell * d,
            0 <= cell < c.shape.cells(bs),
            0 <= d,
    ;
    assert(0 <= head * d && head * d + d <= c.shape.num_kv_heads * d) by (nonlinear_arith)
        requires
            0 <= head < c.shape.num_kv_heads,
            0 <= d,
    ;
    let want = if at_layer == layer && at_pos == pos {
        source.subrange(head * d, head * d + d)
    } else {
        c.vector(page, at_layer, head, at_pos)
    };
    let got = c.vector(after, at_layer, head, at_pos);
    assert forall|i: int| 0 <= i < d implies got[i] == want[i] by {
        vstd::arithmetic::div_mod::lemma_fundamental_div_mod_converse(at + i, d, cell, i);
    }
    assert(got =~= want);
}

/// The numbers that a restored page has for a position are those that its quantised
/// vectors restore to, in the same places.
pub proof fn law_restored_vector_is_the_stored_one(
    c: CacheView,
    page: Seq<u8>,
    numbers: Seq<u32>,
    restore: spec_fn(Q4Term) -> u32,
    layer: int,
    head: int,
    pos: int,
    i: int,
)
    requires
        0 <= pos,
        0 <= layer < c.shape.num_layers,
        0 <= head < c.shape.num_kv_heads,
        0 <= i < c.shape.head_dim,
        numbers == c.shape.terms(spec_zone_block_size(spec_zone_index(pos)), page).map_values(
            restore,
        ),
    ensures
        c.vector(numbers, layer, head, pos)[i] == restore(c.number_at(page, layer, head, pos, i)),
{
    let bs = spec_zone_block_size(spec_zone_index(pos));
    let d = c.shape.head_dim as int;
    zones::law_position_splits(pos);
    let cell = c.shape.cell(bs, layer, head, spec_slot(pos));
    lemma_cell(c.shape, bs, layer, head, spec_slot(pos));
    assert(0 <= cell * d && cell * d + d <= c.shape.cells(bs) * d) by (nonlinear_arith)
        requires
            0 <= cell < c.shape.cells(bs),
            0 <= d,
    ;
}

/// What a page holds for a layer and a head has the vector of each of its positions, one
/// after the other.
pub proof fn law_head_span_lists_the_positions(
    c: CacheView,
    page: Seq<u32>,
    layer: int,
    head: int,
    pos: int,
)
    requires
        0 <= pos,
        0 <= layer < c.shape.num_layers,
        0 <= head < c.shape.num_kv_heads,
        page.len() == c.page_floats(spec_zone_index(pos)),
    ensures
        ({
            let d = c.shape.head_dim as int;
            let span = c.head_span(page, spec_zone_index(pos), layer, head, d);
            &&& span.len() == spec_zone_block_size(spec_zone_index(pos)) * d
            &&& 0 <= spec_slot(pos) * d && spec_slot(pos) * d + d <= span.len()
            &&& span.subrange(spec_slot(pos) * d, spec_slot(pos) * d + d) == c.vector(
                page,
                layer,
                head,
                pos,
            )
        }),
{
    let bs = spec_zone_block_size(spec_zone_index(pos));
    let d = c.shape.head_dim as int;
    let slot = spec_slot(pos);
    zones::law_position_splits(pos);
    lemma_cell(c.shape, bs, layer, head, 0);
    lemma_cell(c.shape, bs, layer, head, bs - 1);
    let first = c.shape.cell(bs, layer, head, 0);
    let cells = c.shape.cells(bs);
    assert(c.shape.cell(bs, layer, head, bs - 1) == first + bs - 1);
    assert(0 <= first * d && first * d + bs * d <= cells * d && (first + slot) * d == first * d
        + slot * d && 0 <= slot * d && slot * d + d <= bs * d) by (nonlinear_arith)
        requires
            0 <= first,
            first + bs <= cells,
            0 <= slot < bs,
            0 <= d,
    ;
    let span = c.head_span(page, spec_zone_index(pos), layer, head, d);
    assert(span.subrange(slot * d, slot * d + d) =~= c.vector(page, layer, head, pos));
}

/// Recorded attention is that of all positions of the page that holds the position, and
/// of no other.
pub proof fn law_importance_is_kept_by_page(c: CacheView, pos: int, total: u64, other: int)
    requires
        c.wf(),
        0 <= pos <= usize::MAX,
        0 <= other <= usize::MAX,
        c.has_page(spec_page_id(pos)),
        c.has_page(spec_page_id(other)),
    ensures
        c.with_zone(
            spec_zone_index(pos),
            c.zones[spec_zone_index(pos)].with_importance(spec_local_page(pos) as usize, total),
        ).page(spec_page_id(other)).importance == (if pos - spec_slot(pos) == other - spec_slot(
            other,
        ) {
            total
        } else {
            c.page(spec_page_id(other)).importance
        }),
{
    zones::law_position_splits(pos);
    zones::law_position_splits(other);
    zones::law_flat_page_resolves(pos);
    zones::law_flat_page_resolves(other);
    zones::law_same_page(pos, other);
}

/// The memory limit holds as many pages as fit the given megabytes, at least one.
pub proof fn law_limit_fills_the_memory(mb: int, page_bytes: int)
    requires
        0 <= mb,
        0 < page_bytes,
    ensures
        ({
            let n = pages_for_megabytes(mb, page_bytes);
            &&& n >= 1
            &&& n == 1 || n * page_bytes <= mb * 1024 * 1024
            &&& mb * 1024 * 1024 < (n + 1) * page_bytes
        }),
{
    let total = mb * 1048576;
    vstd::arithmetic::div_mod::lemma_fundamental_div_mod(total, page_bytes);
    let q = total / page_bytes;
    if total >= page_bytes {
        assert(q >= 1 && q * page_bytes <= total && total < (q + 1) * page_bytes)
            by (nonlinear_arith)
            requires
                total == page_bytes * q + total % page_bytes,
                0 <= total % page_bytes < page_bytes,
                page_bytes <= total,
        ;
    } else {
        assert(total < 2 * page_bytes);
    }
}

/// Where memory is limited and the slot count is not given, memory and cold slots
/// together take every page of the longest sequence, short of the default slot count.
pub proof fn law_slots_take_what_memory_does_not(max_seq_len: int, limit: int, pos: int)
    requires
        0 <= limit < usize::MAX,
        0 <= pos < max_seq_len,
        slot_count(max_seq_len, limit, None) < DEFAULT_COLD_PAGES,
    ensures
        spec_page_id(pos) < limit + slot_count(max_seq_len, limit, None),
{
    zones::law_positions_have_pages(pos, max_seq_len);
}

/// A request loses nothing.  A page that is ready, or is to be loaded, leaves all pages
/// as they were; where a page has to leave, its bytes are handed out with the slot that
/// it goes to, and all others stay as they were.
pub proof fn law_request_loses_nothing(
    c: CacheView,
    zi: int,
    local: int,
    stored: bool,
    r: PageAction,
    after: CacheView,
    zj: int,
    j: int,
)
    requires
        c.wf(),
        0 <= zi < 3,
        0 <= local < usize::MAX,
        c.request_answered(zi, local, stored, r, after),
        0 <= zj < 3,
        0 <= j < c.zones[zj].pages.len(),
    ensures
        ({
            let was = c.zones[zj].pages[j];
            let is = after.zones[zj].pages[j];
            match r {
                PageAction::Store(w) => is == was || {
                    &&& zj == zi
                    &&& was.state == PageState::Hot
                    &&& w.k@ == was.k
                    &&& w.v@ == was.v
                    &&& is.state == PageState::Cold(w.slot)
                    &&& is.importance == was.importance
                },
                PageAction::Load(l) => is == was && (zj == zi && j == local ==> was.state
                    == PageState::Cold(l.slot)),
                PageAction::Ready => is == was,
            }
        }),
{
    assert(c.zone_ok(0) && c.zone_ok(1) && c.zone_ok(2));
    let z = c.zones[zi];
    assert forall|i: int| 0 <= i < z.order.len() implies z.pages[(
    #[trigger] z.order[i]) as int].state == PageState::Hot by {
        assert(z.page_ok(z.order[i] as int, c.page_bytes(zi), c.page_floats(zi)));
    }
    lemma_grown_keeps_pages(c, zi, local, stored, zj, j);
    lemma_grown_keeps_zones(c, zi, local, stored);
    match c.grown(zi, local, stored) {
        Growth::Stopped(d) => {
            lemma_victim_in_window(d.zones[zi], d.zones[zi].window_start());
        },
        Growth::Grown(d, room) => {
            if d.needs_room(zi) {
                lemma_victim_in_window(d.zones[zi], d.zones[zi].window_start());
            }
        },
    }
}

spec fn grown_state(g: Growth) -> CacheView {
    match g {
        Growth::Grown(c, room) => c,
        Growth::Stopped(c) => c,
    }
}

proof fn lemma_grown_keeps_pages(
    c: CacheView,
    zi: int,
    local: int,
    room: bool,
    zj: int,
    j: int,
)
    requires
        c.zones.len() == 3,
        0 <= zi < 3,
        0 <= local < usize::MAX,
        0 <= zj < 3,
        0 <= j < c.zones[zj].pages.len(),
        forall|i: int|
            0 <= i < c.zones[zi].order.len() ==> (#[trigger] c.zones[zi].order[i])
                < c.zones[zi].pages.len(),
        forall|i: int|
            0 <= i < c.zones[zi].order.len() ==> c.zones[zi].pages[(
            #[trigger] c.zones[zi].order[i]) as int].state == PageState::Hot,
        c.zones[zi].pages.len() <= usize::MAX,
    ensures
        ({
            let d = grown_state(c.grown(zi, local, room));
            &&& c.grown(zi, local, room) is Stopped ==> d.needs_room(zi)
            &&& d.zones.len() == 3
            &&& j < d.zones[zj].pages.len()
            &&& d.zones[zj].pages[j] == c.zones[zj].pages[j]
            &&& forall|i: int|
                0 <= i < d.zones[zi].order.len() ==> (#[trigger] d.zones[zi].order[i])
                    < d.zones[zi].pages.len()
            &&& forall|i: int|
                0 <= i < d.zones[zi].order.len() ==> d.zones[zi].pages[(
                #[trigger] d.zones[zi].order[i]) as int].state == PageState::Hot
        }),
    decreases local + 1 - c.zones[zi].pages.len(),
{
    if local < c.zones[zi].pages.len() {
    } else if !room && c.needs_room(zi) {
    } else {
        let z = c.zones[zi];
        let next = c.with_zone(zi, z.with_new_page(c.page_bytes(zi)));
        assert forall|i: int| 0 <= i < next.zones[zi].order.len() implies (
        #[trigger] next.zones[zi].order[i]) < next.zones[zi].pages.len()
            && next.zones[zi].pages[next.zones[zi].order[i] as int].state == PageState::Hot by {
            if i > 0 {
                assert(next.zones[zi].order[i] == z.order[i - 1]);
            }
        }
        lemma_grown_keeps_pages(next, zi, local, false, zj, j);
    }
}

/// Memory stays within its limit: where a cold slot exists, a request that starts within
/// the limit, with room made if it says so, ends within it, and a page that it asks to be
/// loaded still fits.
pub proof fn law_hot_pages_stay_within_the_limit(
    c: CacheView,
    zi: int,
    local: int,
    stored: bool,
    r: PageAction,
    after: CacheView,
)
    requires
        c.wf(),
        0 <= zi < 3,
        0 <= local < usize::MAX,
        0 < c.limit,
        0 < c.slots.len(),
        c.zones[zi].order.len() <= c.limit,
        stored ==> c.zones[zi].order.len() < c.limit,
        c.request_answered(zi, local, stored, r, after),
    ensures
        after.zones[zi].order.len() <= c.limit,
        !(r is Ready) ==> after.zones[zi].order.len() < c.limit,
{
    lemma_grown_within_limit(c, zi, local, stored);
    lemma_grown_keeps_zones(c, zi, local, stored);
    match c.grown(zi, local, stored) {
        Growth::Stopped(d) => {
            lemma_evicted_order(d, zi);
        },
        Growth::Grown(d, room) => {
            if d.zones[zi].pages[local].state == PageState::Hot {
                assert(d.zones[zi].page_ok(local, d.page_bytes(zi), d.page_floats(zi)));
                crate::cache_zone::lemma_contains_without(
                    d.zones[zi].order,
                    local as usize,
                    local as usize,
                );
            } else if !room && d.needs_room(zi) {
                lemma_evicted_order(d, zi);
            }
        },
    }
}

proof fn lemma_evicted_order(c: CacheView, zi: int)
    requires
        c.zones.len() == 3,
        0 <= zi < 3,
        c.zones[zi].order.no_duplicates(),
        c.zones[zi].order.len() > 0,
    ensures
        c.evicted(zi).zones[zi].order.len() == c.zones[zi].order.len() - 1,
{
    let z = c.zones[zi];
    lemma_victim_in_window(z, z.window_start());
    assert(z.order.contains(z.victim()));
    crate::cache_zone::lemma_contains_without(z.order, z.victim(), z.victim());
}

proof fn lemma_grown_within_limit(c: CacheView, zi: int, local: int, room: bool)
    requires
        c.wf(),
        0 <= zi < 3,
        0 <= local < usize::MAX,
        0 < c.limit,
        0 < c.slots.len(),
        c.zones[zi].order.len() <= c.limit,
        room ==> c.zones[zi].order.len() < c.limit,
    ensures
        ({
            let g = c.grown(zi, local, room);
            let d = grown_state(g);
            &&& g is Stopped ==> d.needs_room(zi)
            &&& d.zones.len() == 3
            &&& d.limit == c.limit
            &&& d.slots == c.slots
            &&& d.shape == c.shape
            &&& d.zones[zi].order.len() <= c.limit
            &&& d.zones[zi].order.no_duplicates()
            &&& d.zones[zi].wf(c.page_bytes(zi), c.page_floats(zi))
            &&& g matches Growth::Grown(e, left) ==> (left ==> e.zones[zi].order.len() < c.limit)
        }),
    decreases local + 1 - c.zones[zi].pages.len(),
{
    assert(c.zone_ok(0) && c.zone_ok(1) && c.zone_ok(2));
    if local < c.zones[zi].pages.len() {
    } else if !room && c.needs_room(zi) {
    } else {
        let z = c.zones[zi];
        let next = c.with_zone(zi, z.with_new_page(c.page_bytes(zi)));
        let id = z.pages.len() as usize;
        assert(!z.order.contains(id));
        crate::cache_zone::lemma_no_duplicates_after_push_front(z.order, id);
        let y = next.zones[zi];
        assert forall|i: int| 0 <= i < y.order.len() implies (#[trigger] y.order[i])
            < y.pages.len() by {
            if i > 0 {
                assert(y.order[i] == z.order[i - 1]);
            }
        }
        assert forall|k: int| 0 <= k < y.pages.len() implies #[trigger] y.page_ok(
            k,
            c.page_bytes(zi),
            c.page_floats(zi),
        ) by {
            crate::cache_zone::lemma_contains_after_push_front(z.order, id, k as usize);
            if k < z.pages.len() {
                assert(z.page_ok(k, c.page_bytes(zi), c.page_floats(zi)));
                assert(y.pages[k] == z.pages[k]);
            }
        }
        assert(next.cold_slots_ok(zi)) by {
            assert forall|k: int| 0 <= k < y.pages.len() implies next.cold_slot_ok(zi, k) by {
                if k < z.pages.len() {
                    assert(c.cold_slot_ok(zi, k));
                }
            }
        }
        lemma_zones_kept(c, next, zi);
        lemma_grown_within_limit(next, zi, local, false);
    }
}

/// The slot for a page is the first free one of the round that starts at the cursor; only
/// where all are taken is it the cursor's.
pub proof fn law_free_slots_are_taken_first(slots: Seq<bool>, cursor: int, i: int, k: int)
    requires
        0 <= cursor < slots.len(),
        0 <= i <= k < slots.len(),
        !slots[(cursor + k) % (slots.len() as int)],
    ensures
        exists|j: int|
            i <= j <= k && free_slot(slots, cursor, i) == #[trigger] ((cursor + j)
                % (slots.len() as int)),
        0 <= free_slot(slots, cursor, i) < slots.len(),
        !slots[free_slot(slots, cursor, i)],
    decreases slots.len() - i,
{
    if !slots[(cursor + i) % (slots.len() as int)] {
        assert(free_slot(slots, cursor, i) == (cursor + i) % (slots.len() as int));
    } else {
        law_free_slots_are_taken_first(slots, cursor, i + 1, k);
        let j = choose|j: int|
            i + 1 <= j <= k && free_slot(slots, cursor, i + 1) == #[trigger] ((cursor + j)
                % (slots.len() as int));
        assert(free_slot(slots, cursor, i) == (cursor + j) % (slots.len() as int));
    }
}

/// A new cache has three zones without pages and all its slots free; without a limit on
/// its memory a zone may keep any number of pages.
pub proof fn law_new_cache_is_empty(
    shape: Shape,
    limit: int,
    slots: int,
    max_seq_len: int,
    zi: int,
    i: int,
)
    requires
        0 <= zi < 3,
        0 <= i < slots,
    ensures
        ({
            let c = empty_cache(shape, limit, slots, max_seq_len);
            &&& c.shape == shape
            &&& c.limit == limit
            &&& c.max_seq_len == max_seq_len
            &&& c.pos == 0
            &&& c.cursor == 0
            &&& c.block_size == 32
            &&& c.zones.len() == 3
            &&& c.zones[zi].pages.len() == 0
            &&& c.zones[zi].order.len() == 0
            &&& c.slots.len() == slots
            &&& !c.slots[i]
            &&& !c.can_evict(zi)
        }),
        page_limit(shape, None) == usize::MAX,
{
}

/// A zone that grew has the page that was asked for: what it had is still there, and
/// what came to it is blank.  Nothing else changes, neither slots nor other zones.
pub proof fn law_growth_reaches_the_page(c: CacheView, zi: int, local: int, room: bool, j: int)
    requires
        0 <= zi < c.zones.len(),
        0 <= j,
    ensures
        c.grown(zi, local, room) matches Growth::Grown(s, _) ==> {
            &&& local < s.zones[zi].pages.len()
            &&& s.zones[zi].pages.len() == c.zones[zi].pages.len() || s.zones[zi].pages.len()
                == local + 1
            &&& s.slots == c.slots
            &&& s.zones == c.zones.update(zi, s.zones[zi])
            &&& j < c.zones[zi].pages.len() ==> s.zones[zi].pages[j] == c.zones[zi].pages[j]
            &&& c.zones[zi].pages.len() <= j < s.zones[zi].pages.len() ==> {
                let p = s.zones[zi].pages[j];
                &&& p.state == PageState::Hot
                &&& p.k == Seq::new(c.page_bytes(zi) as nat, |i: int| 0u8)
                &&& p.v == Seq::new(c.page_bytes(zi) as nat, |i: int| 0u8)
                &&& p.floats is None
                &&& p.importance == 0
            }
        },
    decreases local + 1 - c.zones[zi].pages.len(),
{
    if local < c.zones[zi].pages.len() {
        assert(c.zones =~= c.zones.update(zi, c.zones[zi]));
    } else if room || !c.needs_room(zi) {
        let next = c.with_zone(zi, c.zones[zi].with_new_page(c.page_bytes(zi)));
        law_growth_reaches_the_page(next, zi, local, false, j);
        if let Growth::Grown(s, _) = next.grown(zi, local, false) {
            assert(next.zones.update(zi, s.zones[zi]) =~= c.zones.update(zi, s.zones[zi]));
        }
    }
}

/// A page that left is read where it was written: the request that brings it back asks
/// for the same slot and the same place, and for as many bytes as went there.  Slots have
/// room for keys and values of a page of the last zone.
pub proof fn law_page_is_read_where_it_was_written(
    c: CacheView,
    zi: int,
    w: ColdWrite,
    r: PageAction,
    after: CacheView,
)
    requires
        c.wf(),
        0 <= zi < 3,
        c.can_evict(zi),
        c.write_matches(zi, w),
        c.evicted(zi).request_answered(zi, c.zones[zi].victim() as int, true, r, after),
    ensures
        ({
            let page = c.zones[zi].pages[c.zones[zi].victim() as int];
            &&& w.k@ == page.k
            &&& w.v@ == page.v
            &&& w.offset == w.slot * (2 * c.shape.page_bytes(1024))
            &&& r matches PageAction::Load(l) && {
                &&& l.slot == w.slot
                &&& l.offset == w.offset
                &&& l.page_bytes == w.k@.len()
                &&& l.page_bytes == w.v@.len()
            }
            &&& after == c.evicted(zi)
        }),
{
    let z = c.zones[zi];
    lemma_victim_in_window(z, z.window_start());
    let id = z.victim();
    assert(z.order.contains(id));
    assert(z.page_ok(id as int, c.page_bytes(zi), c.page_floats(zi)));
    law_evicted_page_comes_back(c, zi);
    let away = c.evicted(zi);
    assert(away.grown(zi, id as int, true) == Growth::Grown(away, true));
}

} // verus!
