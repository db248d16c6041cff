//! Partial results of several workers, combined when all are there.

use vstd::prelude::*;

verus! {

/// The part of one worker: numbers, as bit patterns, and whether they are
/// done.
pub struct StagingSlice {
    pub data: Vec<u32>,
    pub ready: bool,
}

/// A part as the contracts see it.
#[verifier::ext_equal]
pub struct SliceView {
    pub data: Seq<u32>,
    pub ready: bool,
}

impl View for StagingSlice {
    type V = SliceView;

    open spec fn view(&self) -> SliceView {
        SliceView { data: self.data@, ready: self.ready }
    }
}

impl StagingSlice {
    fn new(size: usize) -> (s: Self)
        ensures
            s@ == blank_slice(size as nat),
    {
        let s = StagingSlice { data: vec![0u32; size], ready: false };
        assert(s@ =~= blank_slice(size as nat));
        s
    }

    pub fn mark_ready(&mut self)
        ensures
            final(self)@ == (SliceView { ready: true, ..old(self)@ }),
    {
        self.ready = true;
    }

    pub fn is_ready(&self) -> (b: bool)
        ensures
            b == self@.ready,
    {
        self.ready
    }

    pub fn reset(&mut self)
        ensures
            final(self)@ == (SliceView { ready: false, ..old(self)@ }),
    {
        self.ready = false;
    }
}

pub open spec fn blank_slice(size: nat) -> SliceView {
    SliceView { data: Seq::new(size, |i: int| 0u32), ready: false }
}

/// One part per worker, all of one size.
pub struct StagingBuffer {
    slices: Vec<StagingSlice>,
    size: usize,
}

impl View for StagingBuffer {
    type V = Seq<SliceView>;

    closed spec fn view(&self) -> Seq<SliceView> {
        Seq::new(self.slices@.len(), |i: int| self.slices@[i]@)
    }
}

impl StagingBuffer {
    pub closed spec fn spec_slice_size(&self) -> nat {
        self.size as nat
    }

    pub fn new(num_slices: usize, slice_size: usize) -> (b: Self)
        ensures
            b@ == Seq::new(num_slices as nat, |i: int| blank_slice(slice_size as nat)),
            b.spec_slice_size() == slice_size,
    {
        let mut slices: Vec<StagingSlice> = Vec::new();
        let mut i: usize = 0;
        while i < num_slices
            invariant
                i <= num_slices,
                slices@.len() == i,
                forall|k: int|
                    0 <= k < i ==> (#[trigger] slices@[k])@ == blank_slice(slice_size as nat),
            decreases num_slices - i,
        {
            slices.push(StagingSlice::new(slice_size));
            i = i + 1;
        }
        let b = StagingBuffer { slices, size: slice_size };
        assert(b@ =~= Seq::new(num_slices as nat, |i: int| blank_slice(slice_size as nat)));
        b
    }

    pub fn num_slices(&self) -> (n: usize)
        ensures
            n == self@.len(),
    {
        self.slices.len()
    }

    pub fn slice_size(&self) -> (n: usize)
        ensures
            n == self.spec_slice_size(),
    {
        self.size
    }

    /// The numbers of a part.
    pub fn slice_data(&self, i: usize) -> (d: &[u32])
        requires
            i < self@.len(),
        ensures
            d@ == self@[i as int].data,
    {
        self.slices[i].data.as_slice()
    }

    /// Puts one number into a part.
    pub fn write(&mut self, i: usize, at: usize, value: u32)
        requires
            i < old(self)@.len(),
            at < old(self)@[i as int].data.len(),
        ensures
            final(self)@ == old(self)@.update(
                i as int,
                SliceView {
                    data: old(self)@[i as int].data.update(at as int, value),
                    ..old(self)@[i as int]
                },
            ),
            final(self).spec_slice_size() == old(self).spec_slice_size(),
    {
        let ghost before = self@;
        self.slices[i].data.set(at, value);
        assert(self@ =~= before.update(
            i as int,
            SliceView {
                data: before[i as int].data.update(at as int, value),
                ..before[i as int]
            },
        ));
    }

    /// Says that a part is done.
    pub fn mark_ready(&mut self, i: usize)
        requires
            i < old(self)@.len(),
        ensures
            final(self)@ == old(self)@.update(
                i as int,
                SliceView { ready: true, ..old(self)@[i as int] },
            ),
            final(self).spec_slice_size() == old(self).spec_slice_size(),
    {
        let ghost before = self@;
        self.slices[i].ready = true;
        assert(self@ =~= before.update(
            i as int,
            SliceView { ready: true, ..before[i as int] },
        ));
    }

    /// Empties all parts: zeros, not done.
    pub fn reset_all(&mut self)
        ensures
            final(self)@ == Seq::new(
                old(self)@.len(),
                |i: int| blank_slice(old(self)@[i].data.len()),
            ),
            final(self).spec_slice_size() == old(self).spec_slice_size(),
    {
        let ghost before = self@;
        let n: usize = self.slices.len();
        let mut i: usize = 0;
        while i < n
            invariant
                i <= n,
                n == self.slices@.len(),
                n == before.len(),
                self.size == old(self).size,
                forall|k: int|
                    0 <= k < n ==> (#[trigger] self.slices@[k])@ == (if k < i {
                        blank_slice(before[k].data.len())
                    } else {
                        before[k]
                    }),
            decreases n - i,
        {
            let size: usize = self.slices[i].data.len();
            self.slices.set(i, StagingSlice::new(size));
            i = i + 1;
        }
        assert(self@ =~= Seq::new(before.len(), |i: int| blank_slice(before[i].data.len())));
    }

    /// Whether all parts are done.
    pub fn all_ready(&self) -> (b: bool)
        ensures
            b == (forall|i: int| 0 <= i < self@.len() ==> (#[trigger] self@[i]).ready),
    {
        let mut i: usize = 0;
        while i < self.slices.len()
            invariant
                i <= self.slices@.len(),
                forall|k: int| 0 <= k < i ==> (#[trigger] self@[k]).ready,
            decreases self.slices@.len() - i,
        {
            assert(self@[i as int] == self.slices@[i as int]@);
            if !self.slices[i].ready {
                return false;
            }
            i = i + 1;
        }
        true
    }
}

/// Parts start out as zeros that are not done.
pub proof fn law_parts_start_blank(size: nat, i: int)
    requires
        0 <= i < size,
    ensures
        blank_slice(size).data.len() == size,
        blank_slice(size).data[i] == 0,
        !blank_slice(size).ready,
{
}

} // verus!
