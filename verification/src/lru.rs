//! A doubly linked recency list over dense page numbers.
//!
//! The links live in two vectors indexed by page number, so that moving a
//! page to the front touches a constant number of entries.

use vstd::prelude::*;

verus! {

/// Pages from most to least recently used.
///
/// Every page number below `len` is either linked or detached.
pub struct LruList {
    prev: Vec<Option<usize>>,
    next: Vec<Option<usize>>,
    head: Option<usize>,
    tail: Option<usize>,
    order: Ghost<Seq<usize>>,
}

/// `id` moved to the front of `order`, or put there.
pub open spec fn moved_to_front(order: Seq<usize>, id: usize) -> Seq<usize> {
    seq![id] + without(order, id)
}

/// `order` without `id`.
pub open spec fn without(order: Seq<usize>, id: usize) -> Seq<usize> {
    if order.contains(id) {
        order.remove(order.index_of(id))
    } else {
        order
    }
}

impl View for LruList {
    type V = Seq<usize>;

    /// The linked pages, most recently used first.
    closed spec fn view(&self) -> Seq<usize> {
        self.order@
    }
}

impl LruList {
    /// How many page numbers the list knows.
    pub closed spec fn spec_len(&self) -> nat {
        self.prev@.len()
    }

    spec fn before(&self, i: int) -> Option<usize> {
        if i == 0 {
            None
        } else {
            Some(self.order@[i - 1])
        }
    }

    spec fn after(&self, i: int) -> Option<usize> {
        if i + 1 == self.order@.len() {
            None
        } else {
            Some(self.order@[i + 1])
        }
    }

    /// The links of the `i`-th page name its neighbours.
    spec fn link_ok(&self, i: int) -> bool {
        &&& self.prev@[self.order@[i] as int] == self.before(i)
        &&& self.next@[self.order@[i] as int] == self.after(i)
    }

    spec fn detached(&self, id: usize) -> bool {
        self.prev@[id as int] == None::<usize> && self.next@[id as int] == None::<usize>
    }

    /// The links, the head and the tail spell out the order; detached pages
    /// have no links.
    pub closed spec fn links_match(&self) -> bool {
        &&& self.prev@.len() == self.next@.len()
        &&& self.head == (if self.order@.len() == 0 {
            None
        } else {
            Some(self.order@[0])
        })
        &&& self.tail == (if self.order@.len() == 0 {
            None
        } else {
            Some(self.order@[self.order@.len() - 1])
        })
        &&& forall|i: int| 0 <= i < self.order@.len() ==> #[trigger] self.link_ok(i)
        &&& forall|id: usize|
            id < self.prev@.len() && !self.order@.contains(id) ==> #[trigger] self.detached(id)
    }

    /// No page is linked twice, every linked page is known, and the links
    /// spell out the order.
    pub open spec fn wf(&self) -> bool {
        &&& self@.no_duplicates()
        &&& forall|i: int| 0 <= i < self@.len() ==> (#[trigger] self@[i]) < self.spec_len()
        &&& self.spec_len() <= usize::MAX
        &&& self.links_match()
    }

    pub fn new() -> (l: Self)
        ensures
            l.wf(),
            l@ == Seq::<usize>::empty(),
            l.spec_len() == 0,
    {
        LruList {
            prev: Vec::new(),
            next: Vec::new(),
            head: None,
            tail: None,
            order: Ghost(Seq::empty()),
        }
    }

    pub fn len(&self) -> (n: usize)
        ensures
            n == self.spec_len(),
    {
        self.prev.len()
    }

    /// The least recently used page.
    pub fn tail(&self) -> (t: Option<usize>)
        requires
            self.wf(),
        ensures
            t == (if self@.len() == 0 {
                None
            } else {
                Some(self@.last())
            }),
    {
        self.tail
    }

    /// The most recently used page.
    pub fn head(&self) -> (h: Option<usize>)
        requires
            self.wf(),
        ensures
            h == (if self@.len() == 0 {
                None
            } else {
                Some(self@[0])
            }),
    {
        self.head
    }

    /// The neighbour of `id` on the recent side.
    pub fn newer(&self, id: usize) -> (p: Option<usize>)
        requires
            self.wf(),
            self@.contains(id),
        ensures
            p == (if self@.index_of(id) == 0 {
                None
            } else {
                Some(self@[self@.index_of(id) - 1])
            }),
    {
        assert(self.link_ok(self@.index_of(id)));
        self.prev[id]
    }

    /// Adds a detached page and returns its number.
    pub fn grow(&mut self) -> (id: usize)
        requires
            old(self).wf(),
            old(self).spec_len() < usize::MAX,
        ensures
            final(self).wf(),
            id == old(self).spec_len(),
            final(self).spec_len() == old(self).spec_len() + 1,
            final(self)@ == old(self)@,
            !final(self)@.contains(id),
    {
        let id: usize = self.prev.len();
        self.prev.push(None);
        self.next.push(None);
        proof {
            let o = self.order@;
            assert forall|i: int| 0 <= i < o.len() implies #[trigger] self.link_ok(i) by {
                assert(old(self).link_ok(i));
                assert(o[i] < old(self).spec_len());
            }
            assert forall|k: usize|
                k < self.prev@.len() && !o.contains(k) implies #[trigger] self.detached(k) by {
                if k != id {
                    assert(old(self).detached(k));
                }
            }
        }
        id
    }

    /// Links a detached page as the most recently used.
    pub fn push_front(&mut self, id: usize)
        requires
            old(self).wf(),
            id < old(self).spec_len(),
            !old(self)@.contains(id),
        ensures
            final(self).wf(),
            final(self).spec_len() == old(self).spec_len(),
            final(self)@ == seq![id] + old(self)@,
    {
        let ghost o = self.order@;
        self.prev.set(id, None);
        self.next.set(id, self.head);
        if let Some(h) = self.head {
            self.prev.set(h, Some(id));
        }
        self.head = Some(id);
        if self.tail.is_none() {
            self.tail = Some(id);
        }
        self.order = Ghost(seq![id] + o);
        proof {
            let n = self.order@;
            assert forall|i: int, j: int|
                0 <= i < n.len() && 0 <= j < n.len() && i != j implies n[i] != n[j] by {
                if i > 0 && j > 0 {
                    assert(o[i - 1] != o[j - 1]);
                } else if i > 0 {
                    assert(o.contains(o[i - 1]));
                } else {
                    assert(o.contains(o[j - 1]));
                }
            }
            assert forall|i: int| 0 <= i < n.len() implies #[trigger] self.link_ok(i) by {
                if i > 0 {
                    assert(n[i] == o[i - 1]);
                    assert(o.contains(o[i - 1]));
                    assert(old(self).link_ok(i - 1));
                    if i > 1 {
                        assert(o[i - 1] != o[0]);
                    }
                }
            }
            assert forall|i: int| 0 <= i < n.len() implies (#[trigger] n[i]) < self.spec_len() by {
                if i > 0 {
                    assert(n[i] == o[i - 1]);
                }
            }
            assert forall|k: usize|
                k < self.prev@.len() && !n.contains(k) implies #[trigger] self.detached(k) by {
                assert(n[0] == id);
                if o.contains(k) {
                    let j = o.index_of(k);
                    assert(n[j + 1] == k);
                }
                assert(old(self).detached(k));
                if o.len() > 0 {
                    assert(n[1] == o[0]);
                }
            }
        }
    }

    /// Detaches a linked page.
    pub fn unlink(&mut self, id: usize)
        requires
            old(self).wf(),
            old(self)@.contains(id),
        ensures
            final(self).wf(),
            final(self).spec_len() == old(self).spec_len(),
            final(self)@ == without(old(self)@, id),
            !final(self)@.contains(id),
    {
        let ghost o = self.order@;
        let ghost k = o.index_of(id);
        assert(o[k] == id);
        assert(self.link_ok(k));
        let p: Option<usize> = self.prev[id];
        let n: Option<usize> = self.next[id];
        if let Some(a) = p {
            assert(a == o[k - 1]);
            self.next.set(a, n);
        }
        if let Some(b) = n {
            assert(b == o[k + 1]);
            self.prev.set(b, p);
        }
        if self.head == Some(id) {
            self.head = n;
        }
        if self.tail == Some(id) {
            self.tail = p;
        }
        self.prev.set(id, None);
        self.next.set(id, None);
        self.order = Ghost(o.remove(k));
        proof {
            let m = self.order@;
            assert forall|i: int| 0 <= i < m.len() implies #[trigger] m[i] == (if i < k {
                o[i]
            } else {
                o[i + 1]
            }) by {}
            assert forall|i: int| #![trigger m[i]] 0 <= i < m.len() implies {
                &&& m[i] < self.spec_len()
                &&& m[i] != id
            } by {
                if i < k {
                    assert(o[i] != o[k]);
                } else {
                    assert(o[i + 1] != o[k]);
                }
            }
            assert forall|i: int| 0 <= i < m.len() implies #[trigger] self.link_ok(i) by {
                let j: int = if i < k {
                    i
                } else {
                    i + 1
                };
                assert(m[i] == o[j]);
                assert(old(self).link_ok(j));
                if k > 0 && j != k - 1 {
                    assert(o[j] != o[k - 1]);
                }
                if k + 1 < o.len() && j != k + 1 {
                    assert(o[j] != o[k + 1]);
                }
                assert(o[j] != o[k]);
                if i > 0 {
                    assert(m[i - 1] == (if i - 1 < k { o[i - 1] } else { o[i] }));
                }
                if i + 1 < m.len() {
                    assert(m[i + 1] == (if i + 1 < k { o[i + 1] } else { o[i + 2] }));
                }
            }
            assert forall|x: usize|
                x < self.prev@.len() && !m.contains(x) implies #[trigger] self.detached(x) by {
                if x != id {
                    if o.contains(x) {
                        let j = o.index_of(x);
                        if j < k {
                            assert(m[j] == x);
                        } else {
                            assert(m[j - 1] == x);
                        }
                    }
                    assert(old(self).detached(x));
                }
                if k > 0 {
                    assert(m[k - 1] == o[k - 1]);
                }
                if k + 1 < o.len() {
                    assert(m[k] == o[k + 1]);
                }
            }
        }
    }

    /// Makes a linked page the most recently used.
    pub fn touch(&mut self, id: usize)
        requires
            old(self).wf(),
            old(self)@.contains(id),
        ensures
            final(self).wf(),
            final(self).spec_len() == old(self).spec_len(),
            final(self)@ == moved_to_front(old(self)@, id),
    {
        let ghost o = self.order@;
        if self.head == Some(id) {
            proof {
                assert(o[0] == id);
                assert(o.index_of(id) == 0) by {
                    if o.index_of(id) != 0 {
                        assert(o[o.index_of(id)] == id);
                    }
                }
                assert(seq![id] + o.remove(0) =~= o);
            }
            return ;
        }
        assert(id < self.spec_len()) by {
            assert(o[o.index_of(id)] == id);
        }
        self.unlink(id);
        self.push_front(id);
    }
}

/// A page that is used comes first, and the others keep their order behind it.
pub proof fn law_used_page_comes_first(order: Seq<usize>, id: usize)
    requires
        order.no_duplicates(),
    ensures
        moved_to_front(order, id)[0] == id,
        moved_to_front(order, id).drop_first() == order.filter(|x: usize| x != id),
        without(order, id) == order.filter(|x: usize| x != id),
        moved_to_front(order, id).no_duplicates(),
{
    let keep = |x: usize| x != id;
    let rest = without(order, id);
    assert(moved_to_front(order, id).drop_first() =~= rest);
    if order.contains(id) {
        let i = order.index_of(id);
        assert(order[i] == id);
        lemma_kept_whole(order.take(i), keep);
        lemma_kept_whole(order.skip(i + 1), keep);
        lemma_kept_whole(Seq::empty(), keep);
        assert(order =~= order.take(i) + (seq![id] + order.skip(i + 1)));
        Seq::filter_distributes_over_add(order.take(i), seq![id] + order.skip(i + 1), keep);
        Seq::filter_distributes_over_add(seq![id], order.skip(i + 1), keep);
        assert(seq![id].filter(keep) =~= Seq::empty()) by {
            reveal(Seq::filter);
            assert(seq![id].drop_last() =~= Seq::<usize>::empty());
            assert(!keep(seq![id].last()));
        }
        assert(order.filter(keep) =~= order.take(i) + order.skip(i + 1));
        assert(rest =~= order.take(i) + order.skip(i + 1));
    } else {
        assert forall|i: int| 0 <= i < order.len() implies keep(#[trigger] order[i]) by {
            assert(order.contains(order[i]));
        }
        lemma_kept_whole(order, keep);
    }
    let after = moved_to_front(order, id);
    assert forall|i: int| 0 <= i < rest.len() implies rest[i] != id by {
        if order.contains(id) {
            let at = order.index_of(id);
            assert(order[at] == id);
        } else {
            assert(order.contains(order[i]));
        }
    }
    assert forall|i: int, j: int|
        0 <= i < after.len() && 0 <= j < after.len() && i != j implies after[i] != after[j] by {
        if i > 0 && j > 0 {
            assert(after[i] == rest[i - 1]);
            assert(after[j] == rest[j - 1]);
        }
    }
}

proof fn lemma_kept_whole(s: Seq<usize>, keep: spec_fn(usize) -> bool)
    requires
        forall|i: int| 0 <= i < s.len() ==> keep(#[trigger] s[i]),
    ensures
        s.filter(keep) == s,
    decreases s.len(),
{
    reveal(Seq::filter);
    if s.len() > 0 {
        lemma_kept_whole(s.drop_last(), keep);
        assert(keep(s[s.len() - 1]));
        assert(s.drop_last().push(s.last()) =~= s);
    }
}

} // verus!
