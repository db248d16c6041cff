//! Bringing a range of pages into memory, one answer at a time.

use crate::cache::{PageAction, PagedKVCache};
use crate::zones::{spec_flat_local, spec_flat_zone};
use vstd::prelude::*;

verus! {

/// The pages from `next` to `end` are still to be brought in.
#[derive(Debug, Clone, Copy, PartialEq, Eq, Structural)]
pub struct HotRange {
    pub next: usize,
    pub end: usize,
}

impl HotRange {
    /// The pages from `start` to `end`, both with.
    pub fn ensure_pages_hot(start: usize, end: usize) -> (r: Self)
        ensures
            r == (HotRange { next: start, end }),
    {
        HotRange { next: start, end }
    }

    /// Asks for the next page.  A page that is ready, or whose bytes are asked
    /// for, is done with; one for which bytes have to be stored first is asked for
    /// again, with `stored` set.
    pub fn step(&mut self, cache: &mut PagedKVCache, stored: bool) -> (r: Option<PageAction>)
        requires
            old(cache).wf(),
            old(self).end < usize::MAX,
        ensures
            final(cache).wf(),
            final(self).end == old(self).end,
            match r {
                None => {
                    &&& old(self).next > old(self).end
                    &&& *final(self) == *old(self)
                    &&& *final(cache) == *old(cache)
                },
                Some(a) => {
                    &&& old(self).next <= old(self).end
                    &&& old(cache)@.request_answered(
                        spec_flat_zone(old(self).next as int),
                        spec_flat_local(old(self).next as int),
                        stored,
                        a,
                        final(cache)@,
                    )
                    &&& final(self).next == (if a is Store {
                        old(self).next as int
                    } else {
                        old(self).next + 1
                    })
                },
            },
    {
        if self.next > self.end {
            return None;
        }
        let a = cache.ensure_page(self.next, stored);
        match a {
            PageAction::Store(_) => {},
            _ => {
                self.next = self.next + 1;
            },
        }
        Some(a)
    }
}

} // verus!
