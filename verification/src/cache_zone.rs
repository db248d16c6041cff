//! One zone of the paged cache: its pages, their recency and their scores.

use crate::layout::{store_cells, store_floats, Shape};
use crate::lru::{moved_to_front, without, LruList};
use crate::q4::Q4Block;
use vstd::prelude::*;

verus! {

/// Pages looked at, from the least recently used end, when one must leave.
pub const EVICTION_WINDOW: usize = 8;

/// Where the bytes of a page are.
#[derive(Debug, Clone, Copy, PartialEq, Eq, Structural)]
pub enum PageState {
    /// In memory.
    Hot,
    /// In a slot of the cold store.
    Cold(usize),
}

pub struct Page {
    state: PageState,
    k_q4: Vec<u8>,
    v_q4: Vec<u8>,
    has_f32: bool,
    k_f32: Vec<u32>,
    v_f32: Vec<u32>,
    importance: u64,
}

/// The pages of one zone.
pub struct CacheZone {
    pages: Vec<Page>,
    lru: LruList,
    hot_count: usize,
    page_bytes: usize,
    page_floats: usize,
}

/// A page as the contracts see it.
#[verifier::ext_equal]
pub struct PageView {
    pub state: PageState,
    /// Quantised keys; empty while the page is cold.
    pub k: Seq<u8>,
    /// Quantised values; empty while the page is cold.
    pub v: Seq<u8>,
    /// Restored keys and values, as bit patterns, where they were made.
    pub floats: Option<(Seq<u32>, Seq<u32>)>,
    /// Accumulated attention, as an order key.
    pub importance: u64,
}

/// A zone as the contracts see it.
#[verifier::ext_equal]
pub struct ZoneView {
    pub pages: Seq<PageView>,
    /// Hot pages, most recently used first.
    pub order: Seq<usize>,
}

impl View for Page {
    type V = PageView;

    closed spec fn view(&self) -> PageView {
        PageView {
            state: self.state,
            k: self.k_q4@,
            v: self.v_q4@,
            floats: if self.has_f32 {
                Some((self.k_f32@, self.v_f32@))
            } else {
                None
            },
            importance: self.importance,
        }
    }
}

/// A page of zeros with no attention.
pub open spec fn blank_page(page_bytes: int) -> PageView {
    PageView {
        state: PageState::Hot,
        k: Seq::new(page_bytes as nat, |i: int| 0u8),
        v: Seq::new(page_bytes as nat, |i: int| 0u8),
        floats: None,
        importance: 0,
    }
}

impl ZoneView {
    /// A blank page is added and becomes the most recently used.
    pub open spec fn with_new_page(self, page_bytes: int) -> ZoneView {
        ZoneView {
            pages: self.pages.push(blank_page(page_bytes)),
            order: seq![self.pages.len() as usize] + self.order,
        }
    }

    pub open spec fn touched(self, id: usize) -> ZoneView {
        ZoneView { order: moved_to_front(self.order, id), ..self }
    }

    /// Page `id` has moved to a cold slot.
    pub open spec fn evicted(self, id: usize, slot: usize) -> ZoneView {
        let page = PageView {
            state: PageState::Cold(slot),
            k: Seq::empty(),
            v: Seq::empty(),
            floats: None,
            importance: self.pages[id as int].importance,
        };
        ZoneView {
            pages: self.pages.update(id as int, page),
            order: without(self.order, id),
        }
    }

    /// Page `id` is back in memory with the given bytes.
    pub open spec fn reloaded(self, id: usize, k: Seq<u8>, v: Seq<u8>) -> ZoneView {
        let page = PageView {
            state: PageState::Hot,
            k,
            v,
            floats: self.pages[id as int].floats,
            importance: self.pages[id as int].importance,
        };
        ZoneView {
            pages: self.pages.update(id as int, page),
            order: seq![id] + self.order,
        }
    }

    pub open spec fn with_floats(self, id: usize, k: Seq<u32>, v: Seq<u32>) -> ZoneView {
        let page = PageView { floats: Some((k, v)), ..self.pages[id as int] };
        ZoneView { pages: self.pages.update(id as int, page), ..self }
    }

    /// One slot of one layer of page `id` is stored.
    pub open spec fn stored(
        self,
        id: usize,
        shape: Shape,
        bs: int,
        layer: int,
        slot: int,
        k: Seq<Q4Block>,
        v: Seq<Q4Block>,
    ) -> ZoneView {
        let p = self.pages[id as int];
        let page = PageView {
            k: shape.page_after_store(bs, p.k, layer, slot, k),
            v: shape.page_after_store(bs, p.v, layer, slot, v),
            ..p
        };
        ZoneView { pages: self.pages.update(id as int, page), ..self }
    }

    /// One slot of one layer of page `id` is stored in the restored numbers,
    /// where the page has them.
    pub open spec fn floats_stored(
        self,
        id: usize,
        shape: Shape,
        bs: int,
        layer: int,
        slot: int,
        k: Seq<u32>,
        v: Seq<u32>,
    ) -> ZoneView {
        let p = self.pages[id as int];
        match p.floats {
            Some(f) => {
                self.with_floats(
                    id,
                    shape.floats_after_store(bs, f.0, layer, slot, k),
                    shape.floats_after_store(bs, f.1, layer, slot, v),
                )
            },
            None => self,
        }
    }

    pub open spec fn with_importance(self, id: usize, importance: u64) -> ZoneView {
        let page = PageView { importance, ..self.pages[id as int] };
        ZoneView { pages: self.pages.update(id as int, page), ..self }
    }

    pub open spec fn without_importance(self) -> ZoneView {
        ZoneView {
            pages: Seq::new(
                self.pages.len(),
                |i: int| PageView { importance: 0, ..self.pages[i] },
            ),
            ..self
        }
    }

    pub open spec fn score(self, j: int) -> u64 {
        self.pages[self.order[j] as int].importance
    }

    /// Place in the order, from `j` on, of the page with the least
    /// importance; on a tie, the one used longer ago.
    pub open spec fn least_important(self, j: int) -> int
        decreases self.order.len() - j,
    {
        if j >= self.order.len() - 1 {
            self.order.len() - 1
        } else {
            let rest = self.least_important(j + 1);
            if self.score(j) < self.score(rest) {
                j
            } else {
                rest
            }
        }
    }

    /// First place of the window at the least recently used end.
    pub open spec fn window_start(self) -> int {
        if self.order.len() > EVICTION_WINDOW {
            self.order.len() - EVICTION_WINDOW
        } else {
            0
        }
    }

    /// The page that leaves when room is needed.
    pub open spec fn victim(self) -> usize {
        self.order[self.least_important(self.window_start())]
    }

    pub open spec fn page_ok(self, id: int, page_bytes: int, page_floats: int) -> bool {
        let p = self.pages[id];
        &&& p.state == PageState::Hot <==> self.order.contains(id as usize)
        &&& p.state == PageState::Hot ==> p.k.len() == page_bytes && p.v.len() == page_bytes
        &&& p.state != PageState::Hot ==> p.k.len() == 0 && p.v.len() == 0 && p.floats is None
        &&& p.floats matches Some(f) ==> f.0.len() == page_floats && f.1.len() == page_floats
    }

    /// Exactly the hot pages are in the recency order, once each; hot pages
    /// have all their bytes and cold ones none.
    pub open spec fn wf(self, page_bytes: int, page_floats: int) -> bool {
        &&& self.order.no_duplicates()
        &&& self.pages.len() <= usize::MAX
        &&& forall|i: int| 0 <= i < self.order.len() ==> (#[trigger] self.order[i]) < self.pages.len()
        &&& forall|id: int|
            0 <= id < self.pages.len() ==> #[trigger] self.page_ok(id, page_bytes, page_floats)
    }
}

impl View for CacheZone {
    type V = ZoneView;

    closed spec fn view(&self) -> ZoneView {
        ZoneView {
            pages: Seq::new(self.pages@.len(), |i: int| self.pages@[i]@),
            order: self.lru@,
        }
    }
}

impl CacheZone {
    pub closed spec fn bytes_per_page(&self) -> int {
        self.page_bytes as int
    }

    pub closed spec fn floats_per_page(&self) -> int {
        self.page_floats as int
    }

    pub closed spec fn fields_match(&self) -> bool {
        &&& self.lru.wf()
        &&& self.lru.spec_len() == self.pages@.len()
        &&& self.hot_count == self.lru@.len()
    }

    pub open spec fn wf(&self) -> bool {
        &&& self.fields_match()
        &&& self@.wf(self.bytes_per_page(), self.floats_per_page())
    }

    pub fn new(page_bytes: usize, page_floats: usize) -> (z: Self)
        ensures
            z.wf(),
            z@ == (ZoneView { pages: Seq::empty(), order: Seq::empty() }),
            z.bytes_per_page() == page_bytes,
            z.floats_per_page() == page_floats,
    {
        let z = CacheZone {
            pages: Vec::new(),
            lru: LruList::new(),
            hot_count: 0,
            page_bytes,
            page_floats,
        };
        assert(z@.pages =~= Seq::empty());
        z
    }

    pub fn num_pages(&self) -> (n: usize)
        ensures
            n == self@.pages.len(),
    {
        self.pages.len()
    }

    pub fn hot_count(&self) -> (n: usize)
        requires
            self.wf(),
        ensures
            n == self@.order.len(),
    {
        self.hot_count
    }

    pub fn page_state(&self, id: usize) -> (s: PageState)
        requires
            id < self@.pages.len(),
        ensures
            s == self@.pages[id as int].state,
    {
        self.pages[id].state
    }

    /// Adds a blank page at the recent end and returns its number.
    pub fn alloc_hot_page(&mut self) -> (id: usize)
        requires
            old(self).wf(),
            old(self)@.pages.len() < usize::MAX,
        ensures
            final(self).wf(),
            id == old(self)@.pages.len(),
            final(self)@ == old(self)@.with_new_page(old(self).bytes_per_page()),
            final(self).bytes_per_page() == old(self).bytes_per_page(),
            final(self).floats_per_page() == old(self).floats_per_page(),
    {
        let ghost before = self@;
        let id: usize = self.lru.grow();
        let page = Page {
            state: PageState::Hot,
            k_q4: vec![0u8; self.page_bytes],
            v_q4: vec![0u8; self.page_bytes],
            has_f32: false,
            k_f32: Vec::new(),
            v_f32: Vec::new(),
            importance: 0,
        };
        assert(page@ =~= blank_page(self.page_bytes as int));
        self.pages.push(page);
        self.lru.push_front(id);
        proof {
            lemma_order_bounded(before.order, before.pages.len() as int);
        }
        self.hot_count = self.hot_count + 1;
        proof {
            let after = before.with_new_page(self.page_bytes as int);
            assert(self@ =~= after);
            lemma_no_duplicates_after_push_front(before.order, id);
            assert forall|x: int|
                0 <= x < after.pages.len() implies #[trigger] after.page_ok(
                x,
                self.page_bytes as int,
                self.page_floats as int,
            ) by {
                lemma_contains_after_push_front(before.order, id, x as usize);
                if x < before.pages.len() {
                    assert(before.page_ok(x, self.page_bytes as int, self.page_floats as int));
                }
            }
        }
        id
    }

    /// Makes a hot page the most recently used.
    pub fn touch_lru(&mut self, id: usize)
        requires
            old(self).wf(),
            id < old(self)@.pages.len(),
            old(self)@.pages[id as int].state == PageState::Hot,
        ensures
            final(self).wf(),
            final(self)@ == old(self)@.touched(id),
            final(self).bytes_per_page() == old(self).bytes_per_page(),
            final(self).floats_per_page() == old(self).floats_per_page(),
    {
        let ghost before = self@;
        assert(before.page_ok(id as int, self.page_bytes as int, self.page_floats as int));
        self.lru.touch(id);
        proof {
            let after = before.touched(id);
            assert(self@ =~= after);
            lemma_contains_without(before.order, id, id);
            lemma_no_duplicates_after_push_front(without(before.order, id), id);
            assert forall|x: int|
                0 <= x < after.pages.len() implies #[trigger] after.page_ok(
                x,
                self.page_bytes as int,
                self.page_floats as int,
            ) by {
                lemma_contains_without(before.order, id, x as usize);
                lemma_contains_after_push_front(without(before.order, id), id, x as usize);
                assert(before.page_ok(x, self.page_bytes as int, self.page_floats as int));
            }
        }
    }

    /// The page that should leave: of the pages used longest ago, the one
    /// with the least accumulated attention.
    pub fn pick_victim(&self) -> (r: Option<usize>)
        requires
            self.wf(),
        ensures
            r == (if self@.order.len() == 0 {
                None
            } else {
                Some(self@.victim())
            }),
            r matches Some(id) ==> self@.order.contains(id) && id < self@.pages.len(),
    {
        let tail: usize = match self.lru.tail() {
            Some(id) => id,
            None => {
                return None;
            },
        };
        let ghost z = self@;
        let ghost mut at: int = z.order.len() - 1;
        let ghost mut best_at: int = at;
        let mut best: usize = tail;
        assert(z.order[at] == tail);
        let mut best_importance: u64 = self.pages[tail].importance;
        assert(z.order.index_of(tail) == at) by {
            assert(z.order[z.order.index_of(tail)] == tail);
        }
        let mut cursor: Option<usize> = self.lru.newer(tail);
        let mut looked: usize = 1;
        while looked < EVICTION_WINDOW && cursor.is_some()
            invariant
                self.wf(),
                z == self@,
                0 < z.order.len(),
                1 <= looked <= EVICTION_WINDOW,
                at == z.order.len() - looked,
                0 <= at < z.order.len(),
                best_at == z.least_important(at),
                0 <= best_at < z.order.len(),
                best == z.order[best_at],
                best_importance == z.score(best_at),
                cursor == (if at == 0 {
                    None::<usize>
                } else {
                    Some(z.order[at - 1])
                }),
            decreases EVICTION_WINDOW - looked,
        {
            if let Some(id) = cursor {
                proof {
                    at = at - 1;
                }
                assert(z.order[at] == id);
                let importance: u64 = self.pages[id].importance;
                if importance < best_importance {
                    best_importance = importance;
                    best = id;
                    proof {
                        best_at = at;
                    }
                }
                assert(z.order.contains(id));
                assert(z.order.index_of(id) == at) by {
                    assert(z.order[z.order.index_of(id)] == id);
                }
                cursor = self.lru.newer(id);
            }
            looked = looked + 1;
        }
        assert(z.order.contains(best));
        Some(best)
    }

    /// Takes the bytes of a hot page out; the page is then in cold slot `slot`.
    pub fn evict(&mut self, id: usize, slot: usize) -> (r: (Vec<u8>, Vec<u8>))
        requires
            old(self).wf(),
            id < old(self)@.pages.len(),
            old(self)@.pages[id as int].state == PageState::Hot,
        ensures
            final(self).wf(),
            r.0@ == old(self)@.pages[id as int].k,
            r.1@ == old(self)@.pages[id as int].v,
            final(self)@ == old(self)@.evicted(id, slot),
            final(self).bytes_per_page() == old(self).bytes_per_page(),
            final(self).floats_per_page() == old(self).floats_per_page(),
    {
        let ghost before = self@;
        assert(before.page_ok(id as int, self.page_bytes as int, self.page_floats as int));
        self.lru.unlink(id);
        proof {
            lemma_contains_without(before.order, id, id);
        }
        self.hot_count = self.hot_count - 1;
        let mut page = Page {
            state: PageState::Cold(slot),
            k_q4: Vec::new(),
            v_q4: Vec::new(),
            has_f32: false,
            k_f32: Vec::new(),
            v_f32: Vec::new(),
            importance: self.pages[id].importance,
        };
        let ghost cold = page@;
        std::mem::swap(&mut self.pages[id], &mut page);
        proof {
            let after = before.evicted(id, slot);
            assert(cold =~= after.pages[id as int]);
            assert(self@ =~= after);
            assert forall|x: int|
                0 <= x < after.pages.len() implies #[trigger] after.page_ok(
                x,
                self.page_bytes as int,
                self.page_floats as int,
            ) by {
                lemma_contains_without(before.order, id, x as usize);
                assert(before.page_ok(x, self.page_bytes as int, self.page_floats as int));
            }
        }
        (page.k_q4, page.v_q4)
    }

    /// Brings a cold page back with the given bytes, as the most recently used.
    pub fn reload(&mut self, id: usize, k: Vec<u8>, v: Vec<u8>)
        requires
            old(self).wf(),
            id < old(self)@.pages.len(),
            old(self)@.pages[id as int].state != PageState::Hot,
            k@.len() == old(self).bytes_per_page(),
            v@.len() == old(self).bytes_per_page(),
        ensures
            final(self).wf(),
            final(self)@ == old(self)@.reloaded(id, k@, v@),
            final(self).bytes_per_page() == old(self).bytes_per_page(),
            final(self).floats_per_page() == old(self).floats_per_page(),
    {
        let ghost before = self@;
        assert(before.page_ok(id as int, self.page_bytes as int, self.page_floats as int));
        let ghost kb = k@;
        let ghost vb = v@;
        self.lru.push_front(id);
        let mut page = Page {
            state: PageState::Hot,
            k_q4: k,
            v_q4: v,
            has_f32: false,
            k_f32: Vec::new(),
            v_f32: Vec::new(),
            importance: self.pages[id].importance,
        };
        let ghost hot = page@;
        std::mem::swap(&mut self.pages[id], &mut page);
        proof {
            let after = before.reloaded(id, kb, vb);
            assert(hot =~= after.pages[id as int]);
            assert(self@ =~= after);
            lemma_no_duplicates_after_push_front(before.order, id);
            lemma_order_bounded(after.order, after.pages.len() as int);
            assert forall|x: int|
                0 <= x < after.pages.len() implies #[trigger] after.page_ok(
                x,
                self.page_bytes as int,
                self.page_floats as int,
            ) by {
                lemma_contains_after_push_front(before.order, id, x as usize);
                assert(before.page_ok(x, self.page_bytes as int, self.page_floats as int));
            }
        }
        self.hot_count = self.hot_count + 1;
    }

    pub fn importance(&self, id: usize) -> (w: u64)
        requires
            id < self@.pages.len(),
        ensures
            w == self@.pages[id as int].importance,
    {
        self.pages[id].importance
    }

    pub fn set_importance(&mut self, id: usize, importance: u64)
        requires
            old(self).wf(),
            id < old(self)@.pages.len(),
        ensures
            final(self).wf(),
            final(self)@ == old(self)@.with_importance(id, importance),
            final(self).bytes_per_page() == old(self).bytes_per_page(),
            final(self).floats_per_page() == old(self).floats_per_page(),
    {
        let ghost before = self@;
        self.pages[id].importance = importance;
        proof {
            let after = before.with_importance(id, importance);
            assert(self@.pages[id as int] =~= after.pages[id as int]);
            assert(self@ =~= after);
            assert forall|x: int|
                0 <= x < after.pages.len() implies #[trigger] after.page_ok(
                x,
                self.page_bytes as int,
                self.page_floats as int,
            ) by {
                assert(before.page_ok(x, self.page_bytes as int, self.page_floats as int));
            }
        }
    }

    /// Clears the scores of all pages.
    pub fn reset_importance(&mut self)
        requires
            old(self).wf(),
        ensures
            final(self).wf(),
            final(self)@ == old(self)@.without_importance(),
            final(self).bytes_per_page() == old(self).bytes_per_page(),
            final(self).floats_per_page() == old(self).floats_per_page(),
    {
        let ghost before = self@;
        let n: usize = self.pages.len();
        let mut id: usize = 0;
        while id < n
            invariant
                id <= n,
                n == self.pages@.len(),
                n == before.pages.len(),
                self.fields_match(),
                self.page_bytes == old(self).page_bytes,
                self.page_floats == old(self).page_floats,
                self@.order == before.order,
                before == old(self)@,
                forall|i: int|
                    0 <= i < n ==> (#[trigger] self.pages@[i])@ == (PageView {
                        importance: if i < id {
                            0
                        } else {
                            before.pages[i].importance
                        },
                        ..before.pages[i]
                    }),
            decreases n - id,
        {
            self.pages[id].importance = 0;
            id = id + 1;
        }
        proof {
            let after = before.without_importance();
            assert(self@ =~= after);
            assert forall|x: int|
                0 <= x < after.pages.len() implies #[trigger] after.page_ok(
                x,
                self.page_bytes as int,
                self.page_floats as int,
            ) by {
                assert(before.page_ok(x, self.page_bytes as int, self.page_floats as int));
            }
        }
    }

    /// Stores the blocks of one slot of one layer into a hot page.
    pub fn store(
        &mut self,
        id: usize,
        shape: Shape,
        bs: usize,
        layer: usize,
        slot: usize,
        k: &[Q4Block],
        v: &[Q4Block],
    )
        requires
            old(self).wf(),
            id < old(self)@.pages.len(),
            old(self)@.pages[id as int].state == PageState::Hot,
            shape.fits(bs as int),
            shape.page_bytes(bs as int) == old(self).bytes_per_page(),
            layer < shape.num_layers,
            slot < bs,
            k@.len() == shape.num_kv_heads * shape.blocks(),
            v@.len() == shape.num_kv_heads * shape.blocks(),
        ensures
            final(self).wf(),
            final(self)@ == old(self)@.stored(
                id,
                shape,
                bs as int,
                layer as int,
                slot as int,
                k@,
                v@,
            ),
            final(self).bytes_per_page() == old(self).bytes_per_page(),
            final(self).floats_per_page() == old(self).floats_per_page(),
    {
        let ghost before = self@;
        assert(before.page_ok(id as int, self.page_bytes as int, self.page_floats as int));
        store_cells(&mut self.pages[id].k_q4, shape, bs, layer, slot, k);
        store_cells(&mut self.pages[id].v_q4, shape, bs, layer, slot, v);
        proof {
            let after = before.stored(id, shape, bs as int, layer as int, slot as int, k@, v@);
            assert(self@.pages[id as int] =~= after.pages[id as int]);
            assert(self@ =~= after);
            assert forall|x: int|
                0 <= x < after.pages.len() implies #[trigger] after.page_ok(
                x,
                self.page_bytes as int,
                self.page_floats as int,
            ) by {
                assert(before.page_ok(x, self.page_bytes as int, self.page_floats as int));
            }
        }
    }

    /// Copies the numbers of one slot of one layer into the restored page,
    /// if there is one.
    pub fn store_restored(
        &mut self,
        id: usize,
        shape: Shape,
        bs: usize,
        layer: usize,
        slot: usize,
        k: &[u32],
        v: &[u32],
    )
        requires
            old(self).wf(),
            id < old(self)@.pages.len(),
            shape.fits(bs as int),
            shape.page_floats(bs as int) == old(self).floats_per_page(),
            layer < shape.num_layers,
            slot < bs,
            k@.len() == shape.num_kv_heads * shape.head_dim,
            v@.len() == shape.num_kv_heads * shape.head_dim,
        ensures
            final(self).wf(),
            final(self)@ == old(self)@.floats_stored(
                id,
                shape,
                bs as int,
                layer as int,
                slot as int,
                k@,
                v@,
            ),
            final(self).bytes_per_page() == old(self).bytes_per_page(),
            final(self).floats_per_page() == old(self).floats_per_page(),
    {
        let ghost before = self@;
        assert(before.page_ok(id as int, self.page_bytes as int, self.page_floats as int));
        if !self.pages[id].has_f32 {
            return ;
        }
        store_floats(&mut self.pages[id].k_f32, shape, bs, layer, slot, k);
        store_floats(&mut self.pages[id].v_f32, shape, bs, layer, slot, v);
        proof {
            let after = before.floats_stored(id, shape, bs as int, layer as int, slot as int, k@, v@);
            assert(self@.pages[id as int] =~= after.pages[id as int]);
            assert(self@ =~= after);
            assert forall|x: int|
                0 <= x < after.pages.len() implies #[trigger] after.page_ok(
                x,
                self.page_bytes as int,
                self.page_floats as int,
            ) by {
                assert(before.page_ok(x, self.page_bytes as int, self.page_floats as int));
            }
        }
    }

    /// Gives a hot page its restored numbers.
    pub fn install_floats(&mut self, id: usize, k: Vec<u32>, v: Vec<u32>)
        requires
            old(self).wf(),
            id < old(self)@.pages.len(),
            old(self)@.pages[id as int].state == PageState::Hot,
            k@.len() == old(self).floats_per_page(),
            v@.len() == old(self).floats_per_page(),
        ensures
            final(self).wf(),
            final(self)@ == old(self)@.with_floats(id, k@, v@),
            final(self).bytes_per_page() == old(self).bytes_per_page(),
            final(self).floats_per_page() == old(self).floats_per_page(),
    {
        let ghost before = self@;
        let ghost kf = k@;
        let ghost vf = v@;
        assert(before.page_ok(id as int, self.page_bytes as int, self.page_floats as int));
        self.pages[id].k_f32 = k;
        self.pages[id].v_f32 = v;
        self.pages[id].has_f32 = true;
        proof {
            let after = before.with_floats(id, kf, vf);
            assert(self@.pages[id as int] =~= after.pages[id as int]);
            assert(self@ =~= after);
            assert forall|x: int|
                0 <= x < after.pages.len() implies #[trigger] after.page_ok(
                x,
                self.page_bytes as int,
                self.page_floats as int,
            ) by {
                assert(before.page_ok(x, self.page_bytes as int, self.page_floats as int));
            }
        }
    }

    pub fn has_floats(&self, id: usize) -> (b: bool)
        requires
            id < self@.pages.len(),
        ensures
            b == (self@.pages[id as int].floats is Some),
    {
        self.pages[id].has_f32
    }

    pub fn k_bytes(&self, id: usize) -> (b: &Vec<u8>)
        requires
            id < self@.pages.len(),
        ensures
            b@ == self@.pages[id as int].k,
    {
        &self.pages[id].k_q4
    }

    pub fn v_bytes(&self, id: usize) -> (b: &Vec<u8>)
        requires
            id < self@.pages.len(),
        ensures
            b@ == self@.pages[id as int].v,
    {
        &self.pages[id].v_q4
    }

    pub fn k_floats(&self, id: usize) -> (b: &Vec<u32>)
        requires
            id < self@.pages.len(),
            self@.pages[id as int].floats is Some,
        ensures
            b@ == (self@.pages[id as int].floats->0).0,
    {
        &self.pages[id].k_f32
    }

    pub fn v_floats(&self, id: usize) -> (b: &Vec<u32>)
        requires
            id < self@.pages.len(),
            self@.pages[id as int].floats is Some,
        ensures
            b@ == (self@.pages[id as int].floats->0).1,
    {
        &self.pages[id].v_f32
    }
}

/// Distinct numbers below `n` are at most `n` many.
pub proof fn lemma_order_bounded(order: Seq<usize>, n: int)
    requires
        order.no_duplicates(),
        forall|i: int| 0 <= i < order.len() ==> (#[trigger] order[i]) < n,
        0 <= n,
    ensures
        order.len() <= n,
{
    let ids = order.map_values(|x: usize| x as int);
    assert(ids.no_duplicates()) by {
        assert forall|i: int, j: int|
            0 <= i < ids.len() && 0 <= j < ids.len() && i != j implies ids[i] != ids[j] by {
            assert(order[i] != order[j]);
        }
    }
    ids.unique_seq_to_set();
    vstd::set_lib::lemma_int_range(0, n);
    assert(ids.to_set().subset_of(vstd::set_lib::set_int_range(0, n))) by {
        assert forall|x: int| ids.to_set().contains(x) implies vstd::set_lib::set_int_range(
            0,
            n,
        ).contains(x) by {
            let i = ids.index_of(x);
            assert(ids[i] == x);
            assert(order[i] < n);
        }
    }
    vstd::set_lib::lemma_len_subset(ids.to_set(), vstd::set_lib::set_int_range(0, n));
}

pub proof fn lemma_no_duplicates_after_push_front(order: Seq<usize>, id: usize)
    requires
        order.no_duplicates(),
        !order.contains(id),
    ensures
        (seq![id] + order).no_duplicates(),
{
    let n = seq![id] + order;
    assert forall|i: int, j: int|
        0 <= i < n.len() && 0 <= j < n.len() && i != j implies n[i] != n[j] by {
        if i > 0 && j > 0 {
            assert(order[i - 1] != order[j - 1]);
        } else if i > 0 {
            assert(order.contains(order[i - 1]));
        } else {
            assert(order.contains(order[j - 1]));
        }
    }
}

pub proof fn lemma_contains_after_push_front(order: Seq<usize>, id: usize, x: usize)
    ensures
        (seq![id] + order).contains(x) <==> x == id || order.contains(x),
{
    let n = seq![id] + order;
    assert(n[0] == id);
    if order.contains(x) {
        assert(n[order.index_of(x) + 1] == x);
    }
    if n.contains(x) && x != id {
        let i = n.index_of(x);
        assert(order[i - 1] == x);
    }
}

pub proof fn lemma_contains_without(order: Seq<usize>, id: usize, x: usize)
    requires
        order.no_duplicates(),
    ensures
        without(order, id).contains(x) <==> x != id && order.contains(x),
        without(order, id).no_duplicates(),
        order.contains(id) ==> without(order, id).len() == order.len() - 1,
        forall|i: int|
            0 <= i < without(order, id).len() ==> order.contains(#[trigger] without(order, id)[i]),
{
    if order.contains(id) {
        let k = order.index_of(id);
        let m = order.remove(k);
        assert forall|i: int| 0 <= i < m.len() implies #[trigger] m[i] == (if i < k {
            order[i]
        } else {
            order[i + 1]
        }) by {}
        if order.contains(x) && x != id {
            let j = order.index_of(x);
            if j < k {
                assert(m[j] == x);
            } else {
                assert(m[j - 1] == x);
            }
        }
        if m.contains(x) {
            let i = m.index_of(x);
            let j = if i < k {
                i
            } else {
                i + 1
            };
            assert(order[j] == x);
            assert(order[j] != order[k]);
        }
    }
}

/// Making a page the most recently used puts it first and keeps the order of the others.
pub proof fn law_touch_keeps_the_order_of_others(order: Seq<usize>, id: usize, a: int, b: int)
    requires
        order.no_duplicates(),
        0 <= a < b < order.len(),
        order[a] != id,
        order[b] != id,
    ensures
        moved_to_front(order, id)[0] == id,
        moved_to_front(order, id).no_duplicates(),
        moved_to_front(order, id).contains(order[a]),
        moved_to_front(order, id).contains(order[b]),
        moved_to_front(order, id).index_of(order[a]) < moved_to_front(order, id).index_of(order[b]),
{
    let rest = without(order, id);
    let all = moved_to_front(order, id);
    lemma_contains_without(order, id, order[a]);
    lemma_contains_without(order, id, id);
    lemma_no_duplicates_after_push_front(rest, id);
    let at = if order.contains(id) {
        order.index_of(id)
    } else {
        order.len() as int
    };
    let i = 1 + if a < at {
        a
    } else {
        a - 1
    };
    let j = 1 + if b < at {
        b
    } else {
        b - 1
    };
    assert(all[i] == order[a]);
    assert(all[j] == order[b]);
    assert(all.index_of(order[a]) == i);
    assert(all.index_of(order[b]) == j);
}

/// A new page is the last of its zone and the most recently used: zeros, without
/// restored numbers and without attention.
pub proof fn law_new_page_is_blank(z: ZoneView, page_bytes: int, i: int)
    requires
        0 <= i < page_bytes,
        z.pages.len() <= usize::MAX,
    ensures
        ({
            let after = z.with_new_page(page_bytes);
            let page = after.pages.last();
            &&& after.pages.drop_last() == z.pages
            &&& after.order[0] == z.pages.len()
            &&& after.order.drop_first() == z.order
            &&& page.state == PageState::Hot
            &&& page.k.len() == page_bytes
            &&& page.v.len() == page_bytes
            &&& page.k[i] == 0
            &&& page.v[i] == 0
            &&& page.floats is None
            &&& page.importance == 0
        }),
{
    assert(z.with_new_page(page_bytes).pages.drop_last() =~= z.pages);
    assert(z.with_new_page(page_bytes).order.drop_first() =~= z.order);
}

/// A page that comes back has the bytes that came and becomes the most recently used; its
/// restored numbers and its attention are what they were, and no other page changes.
pub proof fn law_reloaded_page_has_its_bytes(
    z: ZoneView,
    id: usize,
    k: Seq<u8>,
    v: Seq<u8>,
    other: int,
)
    requires
        id < z.pages.len(),
        0 <= other < z.pages.len(),
        other != id,
    ensures
        ({
            let after = z.reloaded(id, k, v);
            let page = after.pages[id as int];
            &&& after.pages.len() == z.pages.len()
            &&& page.state == PageState::Hot
            &&& page.k == k
            &&& page.v == v
            &&& page.floats == z.pages[id as int].floats
            &&& page.importance == z.pages[id as int].importance
            &&& after.pages[other] == z.pages[other]
            &&& after.order[0] == id
            &&& after.order.drop_first() == z.order
        }),
{
    assert(z.reloaded(id, k, v).order.drop_first() =~= z.order);
}

/// Restoring a page's numbers changes nothing but these; forgetting attention nothing but
/// that, of every page.
pub proof fn law_pages_change_one_thing(
    z: ZoneView,
    id: usize,
    k: Seq<u32>,
    v: Seq<u32>,
    i: int,
)
    requires
        id < z.pages.len(),
        0 <= i < z.pages.len(),
    ensures
        z.with_floats(id, k, v).order == z.order,
        z.with_floats(id, k, v).pages.len() == z.pages.len(),
        z.with_floats(id, k, v).pages[id as int].floats == Some((k, v)),
        i != id ==> z.with_floats(id, k, v).pages[i] == z.pages[i],
        z.with_floats(id, k, v).pages[i].k == z.pages[i].k,
        z.with_floats(id, k, v).pages[i].v == z.pages[i].v,
        z.with_floats(id, k, v).pages[i].state == z.pages[i].state,
        z.with_floats(id, k, v).pages[i].importance == z.pages[i].importance,
        z.without_importance().order == z.order,
        z.without_importance().pages.len() == z.pages.len(),
        z.without_importance().pages[i].importance == 0,
        z.without_importance().pages[i].k == z.pages[i].k,
        z.without_importance().pages[i].v == z.pages[i].v,
        z.without_importance().pages[i].state == z.pages[i].state,
        z.without_importance().pages[i].floats == z.pages[i].floats,
{
}

} // verus!
