//! Tensors and the memory that they live in.

use vstd::arithmetic::power2::pow2;
use vstd::prelude::*;

verus! {

#[derive(Debug, Clone, Copy, PartialEq, Eq, Structural)]
pub enum MemoryLocation {
    HostPinned,
    DeviceLocal,
    UnifiedMapped,
}

#[derive(Debug, Clone, Copy, PartialEq, Eq, Structural)]
pub enum DType {
    F32,
    F16,
    Q4K,
    Q6K,
}

impl DType {
    pub open spec fn spec_element_size(self) -> int {
        match self {
            DType::F32 => 4,
            DType::F16 => 2,
            DType::Q4K => 1,
            DType::Q6K => 1,
        }
    }

    /// Bytes of one element; quantised elements count as one.
    pub fn element_size(&self) -> (n: usize)
        ensures
            n == self.spec_element_size(),
    {
        match self {
            DType::F32 => 4,
            DType::F16 => 2,
            DType::Q4K => 1,
            DType::Q6K => 1,
        }
    }
}

/// A piece of memory, by address.
#[derive(Debug, Clone, Copy, PartialEq, Eq, Structural)]
pub struct Allocation {
    /// Zero where there is no memory on the host.
    pub ptr: u64,
    pub size: usize,
    pub location: MemoryLocation,
    pub device_handle: Option<u64>,
}

impl Allocation {
    pub fn null() -> (a: Self)
        ensures
            a == (Allocation {
                ptr: 0,
                size: 0,
                location: MemoryLocation::HostPinned,
                device_handle: None,
            }),
    {
        Allocation { ptr: 0, size: 0, location: MemoryLocation::HostPinned, device_handle: None }
    }

    pub fn is_null(&self) -> (b: bool)
        ensures
            b == (self.ptr == 0),
    {
        self.ptr == 0
    }
}

/// The product of the extents from dimension `i` on.
pub open spec fn tail_product(shape: Seq<usize>, i: int) -> int
    decreases shape.len() - i,
{
    if i >= shape.len() {
        1
    } else {
        shape[i] * tail_product(shape, i + 1)
    }
}

/// The product of the first `n` extents.
pub open spec fn head_product(shape: Seq<usize>, n: int) -> int
    decreases n,
{
    if n <= 0 {
        1
    } else {
        head_product(shape, n - 1) * shape[n - 1]
    }
}

/// Elements of a tensor.
pub open spec fn elements(shape: Seq<usize>) -> int {
    head_product(shape, shape.len() as int)
}

/// The product of the extents from any dimension on can be counted.
pub open spec fn shape_fits(shape: Seq<usize>) -> bool {
    forall|i: int| 0 <= i <= shape.len() ==> (#[trigger] tail_product(shape, i)) <= usize::MAX
}

/// Distance of neighbours in each dimension: the product of the extents
/// behind it.
pub fn compute_strides(shape: &[usize]) -> (strides: Vec<usize>)
    requires
        shape_fits(shape@),
    ensures
        strides@ == Seq::new(shape@.len(), |i: int| tail_product(shape@, i + 1) as usize),
{
    let n: usize = shape.len();
    let mut strides: Vec<usize> = vec![0usize; n];
    let mut stride: usize = 1;
    let mut i: usize = n;
    while i > 0
        invariant
            i <= n,
            n == shape@.len(),
            strides@.len() == n,
            shape_fits(shape@),
            stride == tail_product(shape@, i as int),
            forall|k: int|
                i <= k < n ==> (#[trigger] strides@[k]) == tail_product(shape@, k + 1) as usize,
        decreases i,
    {
        i = i - 1;
        strides.set(i, stride);
        proof {
            assert(tail_product(shape@, i as int) == shape@[i as int] * tail_product(
                shape@,
                i + 1,
            ));
            assert(stride * shape@[i as int] == shape@[i as int] * stride) by (nonlinear_arith);
        }
        stride = stride * shape[i];
    }
    assert(strides@ =~= Seq::new(n as nat, |k: int| tail_product(shape@, k + 1) as usize));
    strides
}

/// Counting elements from the front or from the back gives the same.
pub proof fn law_products_agree(shape: Seq<usize>)
    ensures
        elements(shape) == tail_product(shape, 0),
{
    lemma_products_meet(shape, shape.len() as int);
    assert(tail_product(shape, shape.len() as int) == 1);
}

proof fn lemma_products_meet(shape: Seq<usize>, i: int)
    requires
        0 <= i <= shape.len(),
    ensures
        head_product(shape, i) * tail_product(shape, i) == tail_product(shape, 0),
    decreases i,
{
    if i == 0 {
        assert(head_product(shape, 0) == 1);
        assert(1 * tail_product(shape, 0) == tail_product(shape, 0));
    } else {
        lemma_products_meet(shape, i - 1);
        let h = head_product(shape, i - 1);
        let x = shape[i - 1] as int;
        let t = tail_product(shape, i);
        assert(head_product(shape, i) == h * x);
        assert(tail_product(shape, i - 1) == x * t);
        assert((h * x) * t == h * (x * t)) by (nonlinear_arith);
    }
}

/// Where an element lies: the sum of its indices, each times its stride.
pub open spec fn offset_of(shape: Seq<usize>, index: Seq<int>, i: int) -> int
    decreases shape.len() - i,
{
    if i >= shape.len() {
        0
    } else {
        index[i] * tail_product(shape, i + 1) + offset_of(shape, index, i + 1)
    }
}

/// With these strides every index within the extents lies inside the tensor.
pub proof fn law_strides_stay_inside(shape: Seq<usize>, index: Seq<int>, i: int)
    requires
        index.len() == shape.len(),
        0 <= i <= shape.len(),
        forall|k: int| 0 <= k < shape.len() ==> 0 <= (#[trigger] index[k]) < shape[k],
    ensures
        0 <= offset_of(shape, index, i) < tail_product(shape, i),
    decreases shape.len() - i,
{
    if i < shape.len() {
        law_strides_stay_inside(shape, index, i + 1);
        let t = tail_product(shape, i + 1);
        let rest = offset_of(shape, index, i + 1);
        let x = index[i];
        let n = shape[i] as int;
        assert(0 <= x * t + rest < n * t) by (nonlinear_arith)
            requires
                0 <= x < n,
                0 <= rest < t,
        ;
    }
}

/// A tensor and its memory.
pub struct TensorHandle {
    pub id: u64,
    pub location: MemoryLocation,
    pub dtype: DType,
    pub shape: Vec<usize>,
    pub strides: Vec<usize>,
    pub allocation: Option<Allocation>,
}

/// The number after `n`, which starts over after the largest.
pub open spec fn next_number(n: u64) -> u64 {
    if n == u64::MAX {
        0
    } else {
        (n + 1) as u64
    }
}

/// Takes the next number of a counter.
pub fn take_number(counter: &mut u64) -> (n: u64)
    ensures
        n == *old(counter),
        *final(counter) == next_number(*old(counter)),
{
    let n: u64 = *counter;
    *counter = if n == 0xffff_ffff_ffff_ffff {
        0
    } else {
        n + 1
    };
    n
}

impl TensorHandle {
    /// A tensor without memory; its number comes from the counter.
    pub fn new(ids: &mut u64, location: MemoryLocation, dtype: DType, shape: Vec<usize>) -> (t: Self)
        requires
            shape_fits(shape@),
        ensures
            t.id == *old(ids),
            *final(ids) == next_number(*old(ids)),
            t.location == location,
            t.dtype == dtype,
            t.shape == shape,
            t.strides@ == Seq::new(shape@.len(), |i: int| tail_product(shape@, i + 1) as usize),
            t.allocation is None,
    {
        let strides = compute_strides(shape.as_slice());
        TensorHandle { id: take_number(ids), location, dtype, shape, strides, allocation: None }
    }

    pub fn element_count(&self) -> (n: usize)
        requires
            elements(self.shape@) <= usize::MAX,
        ensures
            n == elements(self.shape@),
    {
        count_elements(self.shape.as_slice())
    }

    pub fn byte_size(&self) -> (n: usize)
        requires
            elements(self.shape@) * self.dtype.spec_element_size() <= usize::MAX,
        ensures
            n == elements(self.shape@) * self.dtype.spec_element_size(),
    {
        proof {
            let n = elements(self.shape@);
            let b = self.dtype.spec_element_size();
            lemma_product_is_natural(self.shape@, self.shape@.len() as int);
            assert(n <= n * b) by (nonlinear_arith)
                requires
                    0 <= n,
                    1 <= b,
            ;
        }
        self.element_count() * self.dtype.element_size()
    }

    /// Takes over the memory that an allocator granted; whether it did.
    pub fn allocate(&mut self, granted: Option<Allocation>) -> (b: bool)
        ensures
            b == (granted is Some),
            *final(self) == (match granted {
                Some(a) => TensorHandle { allocation: Some(a), ..*old(self) },
                None => *old(self),
            }),
    {
        match granted {
            Some(a) => {
                self.allocation = Some(a);
                true
            },
            None => false,
        }
    }

    pub fn device_id(&self) -> (d: Option<u64>)
        ensures
            d == (match self.allocation {
                Some(a) => a.device_handle,
                None => None,
            }),
    {
        match &self.allocation {
            Some(a) => a.device_handle,
            None => None,
        }
    }

    /// The address of the memory, zero where there is none.
    pub fn host_ptr(&self) -> (p: u64)
        ensures
            p == (match self.allocation {
                Some(a) => a.ptr,
                None => 0,
            }),
    {
        match &self.allocation {
            Some(a) => a.ptr,
            None => 0,
        }
    }
}

proof fn lemma_product_is_natural(shape: Seq<usize>, n: int)
    ensures
        0 <= head_product(shape, n),
    decreases n,
{
    if n > 0 {
        lemma_product_is_natural(shape, n - 1);
        let h = head_product(shape, n - 1);
        let x = shape[n - 1] as int;
        assert(0 <= h * x) by (nonlinear_arith)
            requires
                0 <= h,
                0 <= x,
        ;
    }
}

/// An empty extent leaves no elements.
proof fn lemma_empty_extent(shape: Seq<usize>, i: int, n: int)
    requires
        0 <= i < n,
        shape[i] == 0,
    ensures
        head_product(shape, n) == 0,
    decreases n,
{
    let h = head_product(shape, n - 1);
    if i == n - 1 {
        assert(h * 0 == 0) by (nonlinear_arith);
    } else {
        lemma_empty_extent(shape, i, n - 1);
        let x = shape[n - 1] as int;
        assert(0 * x == 0) by (nonlinear_arith);
    }
}

/// Without empty extents the products grow.
proof fn lemma_products_grow(shape: Seq<usize>, i: int, n: int)
    requires
        0 <= i <= n <= shape.len(),
        forall|k: int| 0 <= k < shape.len() ==> (#[trigger] shape[k]) > 0,
    ensures
        head_product(shape, i) <= head_product(shape, n),
    decreases n,
{
    if i < n {
        lemma_products_grow(shape, i, n - 1);
        lemma_product_is_natural(shape, n - 1);
        let h = head_product(shape, n - 1);
        let x = shape[n - 1] as int;
        assert(h <= h * x) by (nonlinear_arith)
            requires
                0 <= h,
                1 <= x,
        ;
    }
}

fn has_empty_extent(shape: &[usize]) -> (b: bool)
    ensures
        b == (exists|i: int| 0 <= i < shape@.len() && (#[trigger] shape@[i]) == 0),
{
    let mut i: usize = 0;
    while i < shape.len()
        invariant
            i <= shape@.len(),
            forall|k: int| 0 <= k < i ==> (#[trigger] shape@[k]) != 0,
        decreases shape@.len() - i,
    {
        if shape[i] == 0 {
            assert(shape@[i as int] == 0);
            return true;
        }
        i = i + 1;
    }
    false
}

/// Elements of a tensor with the given extents.
pub fn count_elements(shape: &[usize]) -> (n: usize)
    requires
        elements(shape@) <= usize::MAX,
    ensures
        n == elements(shape@),
{
    if has_empty_extent(shape) {
        proof {
            let i = choose|i: int| 0 <= i < shape@.len() && (#[trigger] shape@[i]) == 0;
            lemma_empty_extent(shape@, i, shape@.len() as int);
        }
        return 0;
    }
    let mut n: usize = 1;
    let mut i: usize = 0;
    while i < shape.len()
        invariant
            i <= shape@.len(),
            elements(shape@) <= usize::MAX,
            forall|k: int| 0 <= k < shape@.len() ==> (#[trigger] shape@[k]) > 0,
            n == head_product(shape@, i as int),
        decreases shape@.len() - i,
    {
        proof {
            lemma_products_grow(shape@, i + 1, shape@.len() as int);
            lemma_product_is_natural(shape@, i + 1);
        }
        assert(head_product(shape@, i + 1) == head_product(shape@, i as int) * shape@[i as int]);
        n = n * shape[i];
        i = i + 1;
    }
    n
}

/// `p` is a power of two.
pub open spec fn is_power_of_two(p: int) -> bool {
    exists|k: nat| p == #[trigger] pow2(k)
}

/// `p` is the least power of two that is at least `n`.
pub open spec fn is_next_power(n: int, p: int) -> bool {
    &&& is_power_of_two(p)
    &&& n <= p
    &&& p == 1 || p < 2 * n
}

/// The largest power of two that a size can be.
pub open spec fn max_power() -> int {
    (usize::MAX + 1) / 2
}

/// The least power of two that is at least `n`.
pub fn next_power_of_two(n: usize) -> (p: usize)
    requires
        n <= max_power(),
    ensures
        is_next_power(n as int, p as int),
{
    let mut p: usize = 1;
    let ghost mut k: nat = 0;
    proof {
        vstd::arithmetic::power2::lemma2_to64();
    }
    while p < n
        invariant
            p == pow2(k),
            n <= max_power(),
            p == 1 || p < 2 * n,
            1 <= p,
        decreases 2 * n + 1 - p,
    {
        proof {
            vstd::arithmetic::power2::lemma_pow2_unfold((k + 1) as nat);
            k = (k + 1) as nat;
        }
        p = p * 2;
    }
    p
}

/// Grants of host memory start at multiples of this, counted from the front of
/// their block.
pub const HOST_ALIGN: usize = 64;

/// A grant of host memory: a range of a block.
#[derive(Debug, Clone, Copy, PartialEq, Eq, Structural)]
pub struct ArenaGrant {
    pub block: usize,
    pub offset: usize,
    pub size: usize,
    /// The size of the block, where it has to be made first; it is to start at
    /// a multiple of `HOST_ALIGN`.
    pub new_block: Option<usize>,
}

/// Hands out host memory block by block, from front to back.
pub struct HostPinnedArena {
    pub blocks: Vec<usize>,
    pub bump_offset: usize,
    pub block_size: usize,
}

/// The size that a request is rounded to.
pub open spec fn is_rounded(size: int, rounded: int) -> bool {
    exists|p: int|
        {
            &&& #[trigger] is_next_power(size, p)
            &&& rounded == (if p < 64 {
                64
            } else {
                p
            })
        }
}

impl HostPinnedArena {
    pub open spec fn last_size(&self) -> int {
        if self.blocks@.len() == 0 {
            0
        } else {
            self.blocks@.last() as int
        }
    }

    /// Blocks can be allocated, and the grants lie inside the last one; the
    /// next one starts aligned.
    pub open spec fn wf(&self) -> bool {
        &&& self.bump_offset <= self.last_size() <= isize::MAX
        &&& self.bump_offset % HOST_ALIGN == 0
        &&& self.block_size <= isize::MAX
    }

    /// An arena with blocks of at least the given size, rounded up to a
    /// power of two and to a page.
    pub fn new(block_size: usize) -> (a: Self)
        requires
            block_size <= max_power() / 2,
        ensures
            a.wf(),
            a.blocks@.len() == 0,
            a.bump_offset == 0,
            exists|p: int|
                #[trigger] is_next_power(block_size as int, p) && a.block_size == (if p < 4096 {
                    4096
                } else {
                    p
                }),
    {
        let p: usize = next_power_of_two(block_size);
        assert(is_next_power(block_size as int, p as int));
        HostPinnedArena {
            blocks: Vec::new(),
            bump_offset: 0,
            block_size: if p < 4096 {
                4096
            } else {
                p
            },
        }
    }

    /// A request for `size` bytes is granted as `g` and leaves the arena
    /// `after`.
    pub open spec fn grants(&self, size: int, g: ArenaGrant, after: &Self) -> bool {
        &&& after.block_size == self.block_size
        &&& is_rounded(size, g.size as int)
        &&& g.new_block is Some <==> self.bump_offset + g.size > self.last_size()
        &&& match g.new_block {
            Some(n) => {
                &&& n == (if g.size > self.block_size {
                    g.size
                } else {
                    self.block_size
                })
                &&& after.blocks@ == self.blocks@.push(n)
                &&& g.offset == 0
            },
            None => {
                &&& after.blocks@ == self.blocks@
                &&& g.offset == self.bump_offset
            },
        }
        &&& g.offset % HOST_ALIGN == 0
        &&& g.block == after.blocks@.len() - 1
        &&& after.bump_offset == g.offset + g.size
    }

    /// Grants a range of at least `size` bytes, rounded up to a power of two
    /// and to 64: behind the last grant where it fits, else at the front of
    /// a new block.
    pub fn allocate(&mut self, size: usize) -> (g: ArenaGrant)
        requires
            old(self).wf(),
            size <= max_power() / 2,
        ensures
            final(self).wf(),
            old(self).grants(size as int, g, final(self)),
    {
        let p: usize = next_power_of_two(size);
        assert(is_next_power(size as int, p as int));
        let rounded: usize = if p < 64 {
            64
        } else {
            p
        };
        let n: usize = self.blocks.len();
        let last: usize = if n == 0 {
            0
        } else {
            self.blocks[n - 1]
        };
        let mut new_block: Option<usize> = None;
        if self.bump_offset + rounded > last {
            let alloc_size: usize = if rounded > self.block_size {
                rounded
            } else {
                self.block_size
            };
            self.blocks.push(alloc_size);
            self.bump_offset = 0;
            new_block = Some(alloc_size);
        }
        proof {
            if p >= 64 {
                lemma_large_power_is_aligned(p as int);
            }
        }
        let offset: usize = self.bump_offset;
        self.bump_offset = offset + rounded;
        ArenaGrant { block: self.blocks.len() - 1, offset, size: rounded, new_block }
    }

    /// Starts over at the front of the last block.
    pub fn reset(&mut self)
        requires
            old(self).wf(),
        ensures
            final(self).wf(),
            *final(self) == (HostPinnedArena { bump_offset: 0, ..*old(self) }),
    {
        self.bump_offset = 0;
    }
}

/// Powers of two from 64 on are multiples of 64.
proof fn lemma_large_power_is_aligned(p: int)
    requires
        is_power_of_two(p),
        64 <= p,
    ensures
        p % 64 == 0,
{
    vstd::arithmetic::power2::lemma2_to64();
    let k = choose|k: nat| p == #[trigger] pow2(k);
    if k < 6 {
        vstd::arithmetic::power2::lemma_pow2_strictly_increases(k, 6);
    } else {
        vstd::arithmetic::power2::lemma_pow2_adds(6, (k - 6) as nat);
        let q = pow2((k - 6) as nat) as int;
        assert((64 * q) % 64 == 0) by (nonlinear_arith);
    }
}

/// A power of two is the least that reaches it.
proof fn lemma_power_reaches_itself(k: nat, p: int)
    requires
        is_next_power(pow2(k) as int, p),
    ensures
        p == pow2(k),
{
    vstd::arithmetic::power2::lemma2_to64();
    vstd::arithmetic::power2::lemma_pow2_pos(k);
    let j = choose|j: nat| p == #[trigger] pow2(j);
    vstd::arithmetic::power2::lemma_pow2_unfold((k + 1) as nat);
    if j < k {
        vstd::arithmetic::power2::lemma_pow2_strictly_increases(j, k);
    } else if j > k {
        if j > k + 1 {
            vstd::arithmetic::power2::lemma_pow2_strictly_increases((k + 1) as nat, j);
        }
    }
}

/// Two grants in a row lie in different blocks or do not overlap, and each
/// lies inside its block.
pub proof fn law_grants_do_not_overlap(
    a0: HostPinnedArena,
    size1: int,
    g1: ArenaGrant,
    a1: HostPinnedArena,
    size2: int,
    g2: ArenaGrant,
    a2: HostPinnedArena,
)
    requires
        a1.wf(),
        a2.wf(),
        a0.grants(size1, g1, &a1),
        a1.grants(size2, g2, &a2),
    ensures
        g1.block != g2.block || g1.offset + g1.size <= g2.offset,
        g1.offset + g1.size <= a1.blocks@[g1.block as int],
        g2.offset + g2.size <= a2.blocks@[g2.block as int],
{
}

/// Device memory, as a device backend implements it.
pub trait DeviceAllocator: Send + Sync {
    fn allocate_device(&self, size: usize) -> Option<Allocation>;

    fn allocate_unified(&self, size: usize) -> Option<Allocation>;

    fn free(&self, alloc: &Allocation);

    fn upload(&self, dst: &Allocation, src: &[u8]);

    fn download(&self, dst: &mut [u8], src: &Allocation);
}

/// What an allocator granted.
#[derive(Debug, Clone, Copy, PartialEq, Eq, Structural)]
pub enum HmaGrant {
    Host(ArenaGrant),
    /// What the device answered.
    Device(Option<Allocation>),
}

/// Host memory, and device memory where there is a device.
pub struct HeterogeneousMemoryAllocator<D: DeviceAllocator> {
    pub host: HostPinnedArena,
    pub device: Option<D>,
}

/// Block size of the host arena.
pub const HOST_BLOCK_SIZE: usize = 16777216;

proof fn lemma_host_block_size()
    ensures
        forall|p: int| #[trigger] is_next_power(HOST_BLOCK_SIZE as int, p) ==> p == HOST_BLOCK_SIZE,
{
    vstd::arithmetic::power2::lemma2_to64();
    assert(pow2(24) == HOST_BLOCK_SIZE);
    assert forall|p: int| #[trigger] is_next_power(HOST_BLOCK_SIZE as int, p) implies p
        == HOST_BLOCK_SIZE by {
        lemma_power_reaches_itself(24, p);
    }
}

impl<D: DeviceAllocator> HeterogeneousMemoryAllocator<D> {
    pub fn new() -> (h: Self)
        ensures
            h.host.wf(),
            h.host.blocks@.len() == 0,
            h.host.bump_offset == 0,
            h.host.block_size == HOST_BLOCK_SIZE,
            h.device is None,
    {
        proof {
            lemma_host_block_size();
        }
        HeterogeneousMemoryAllocator { host: HostPinnedArena::new(HOST_BLOCK_SIZE), device: None }
    }

    pub fn with_device(device: D) -> (h: Self)
        ensures
            h.host.wf(),
            h.host.blocks@.len() == 0,
            h.host.bump_offset == 0,
            h.host.block_size == HOST_BLOCK_SIZE,
            h.device == Some(device),
    {
        proof {
            lemma_host_block_size();
        }
        HeterogeneousMemoryAllocator {
            host: HostPinnedArena::new(HOST_BLOCK_SIZE),
            device: Some(device),
        }
    }

    /// Memory at a location; without a device, host memory instead.
    pub fn allocate(&mut self, size: usize, location: MemoryLocation) -> (g: HmaGrant)
        requires
            old(self).host.wf(),
            size <= max_power() / 2,
        ensures
            final(self).host.wf(),
            final(self).device == old(self).device,
            g is Host <==> location == MemoryLocation::HostPinned || old(self).device is None,
            g matches HmaGrant::Host(a) ==> old(self).host.grants(
                size as int,
                a,
                &final(self).host,
            ),
            g matches HmaGrant::Device(r) ==> {
                &&& final(self).host == old(self).host
                &&& location == MemoryLocation::DeviceLocal ==> call_ensures(
                    D::allocate_device,
                    (&old(self).device->0, size),
                    r,
                )
                &&& location == MemoryLocation::UnifiedMapped ==> call_ensures(
                    D::allocate_unified,
                    (&old(self).device->0, size),
                    r,
                )
            },
    {
        if location == MemoryLocation::HostPinned {
            return HmaGrant::Host(self.host.allocate(size));
        }
        match &self.device {
            Some(dev) => {
                let r = if location == MemoryLocation::DeviceLocal {
                    dev.allocate_device(size)
                } else {
                    dev.allocate_unified(size)
                };
                HmaGrant::Device(r)
            },
            None => HmaGrant::Host(self.host.allocate(size)),
        }
    }

    /// Starts the host arena over.
    pub fn reset(&mut self)
        requires
            old(self).host.wf(),
        ensures
            final(self).host.wf(),
            final(self).host == (HostPinnedArena { bump_offset: 0, ..old(self).host }),
            final(self).device == old(self).device,
    {
        self.host.reset();
    }
}

pub proof fn lemma_elements_are_natural(shape: Seq<usize>)
    ensures
        0 <= elements(shape),
{
    lemma_product_is_natural(shape, shape.len() as int);
}

/// Appending a dimension multiplies the elements by its extent; a tensor without
/// dimensions has one.
pub proof fn law_extents_multiply(shape: Seq<usize>, extent: usize)
    ensures
        elements(Seq::empty()) == 1,
        elements(shape.push(extent)) == elements(shape) * extent,
{
    lemma_heads_agree(shape, shape.push(extent), shape.len() as int);
}

proof fn lemma_heads_agree(a: Seq<usize>, b: Seq<usize>, n: int)
    requires
        0 <= n <= a.len(),
        n <= b.len(),
        forall|i: int| 0 <= i < n ==> a[i] == #[trigger] b[i],
    ensures
        head_product(a, n) == head_product(b, n),
    decreases n,
{
    if n > 0 {
        lemma_heads_agree(a, b, n - 1);
        assert(a[n - 1] == b[n - 1]);
    }
}

/// With these strides different elements lie at different places.
pub proof fn law_strides_tell_elements_apart(
    shape: Seq<usize>,
    a: Seq<int>,
    b: Seq<int>,
    i: int,
    k: int,
)
    requires
        a.len() == shape.len(),
        b.len() == shape.len(),
        0 <= i <= k < shape.len(),
        forall|j: int| 0 <= j < shape.len() ==> 0 <= (#[trigger] a[j]) < shape[j],
        forall|j: int| 0 <= j < shape.len() ==> 0 <= (#[trigger] b[j]) < shape[j],
        offset_of(shape, a, i) == offset_of(shape, b, i),
    ensures
        a[k] == b[k],
    decreases shape.len() - i,
{
    law_strides_stay_inside(shape, a, i + 1);
    law_strides_stay_inside(shape, b, i + 1);
    let t = tail_product(shape, i + 1);
    let x = a[i];
    let y = b[i];
    let r = offset_of(shape, a, i + 1);
    let s = offset_of(shape, b, i + 1);
    assert(x == y && r == s) by (nonlinear_arith)
        requires
            x * t + r == y * t + s,
            0 <= r < t,
            0 <= s < t,
    ;
    if k > i {
        law_strides_tell_elements_apart(shape, a, b, i + 1, k);
    }
}

/// The last dimension lies in line: neighbours in it are one apart.
pub proof fn law_last_dimension_is_in_line(shape: Seq<usize>)
    requires
        shape.len() > 0,
    ensures
        tail_product(shape, shape.len() as int) == 1,
        forall|i: int|
            0 <= i < shape.len() ==> #[trigger] tail_product(shape, i) == shape[i] * tail_product(
                shape,
                i + 1,
            ),
{
}

/// Numbers count up and start over after the largest, so that no two follow on one.
pub proof fn law_numbers_count_up(a: u64, b: u64)
    ensures
        next_number(a) == (a + 1) % 0x1_0000_0000_0000_0000,
        next_number(a) == next_number(b) ==> a == b,
{
}

/// Singles take twice the bytes of halves, and those twice those of quantised elements,
/// which count as one.
pub proof fn law_element_sizes(d: DType)
    ensures
        d is Q4K || d is Q6K <==> d.spec_element_size() == 1,
        d is F16 <==> d.spec_element_size() == 2,
        d is F32 <==> d.spec_element_size() == 4,
{
}

/// A grant is no less than what was asked for and less than twice as much, but for the
/// least one of 64 bytes; the block that it lies in holds it.
pub proof fn law_grant_is_large_enough(
    before: HostPinnedArena,
    size: int,
    g: ArenaGrant,
    after: HostPinnedArena,
)
    requires
        before.wf(),
        before.grants(size, g, &after),
    ensures
        g.size >= size,
        g.size == 64 || 64 < g.size < 2 * size,
        is_power_of_two(g.size as int),
        after.blocks@.len() > 0,
        g.offset + g.size <= after.blocks@.last(),
        after.blocks@.last() >= before.block_size || g.new_block is None,
        before.blocks@.is_prefix_of(after.blocks@),
{
    let p = choose|p: int|
        {
            &&& #[trigger] is_next_power(size, p)
            &&& g.size == (if p < 64 {
                64
            } else {
                p
            })
        };
    assert(pow2(6) == 64) by {
        vstd::arithmetic::power2::lemma2_to64();
    }
}

/// Twice the largest power of two is the first number that a size cannot be.
pub proof fn law_largest_power_is_half_the_range()
    ensures
        2 * max_power() == usize::MAX + 1,
{
    assert((usize::MAX + 1) % 2 == 0);
}

} // verus!
