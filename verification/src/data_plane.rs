//! Carrying out batches of commands on the device side.

use crate::compute_graph::{
    graph_steps, step_views, ComputeNodeOp, GpuComputeContext, GraphStep, NodeView, Submission,
};
use crate::control_plane::{
    Command, KernelDispatchCmd, OpaqueHandleStore, OpaqueResource, ResourceHandle, ResourceView,
    TensorCreateCmd,
};
use crate::hma::{
    elements, max_power, next_number, shape_fits, DType, DeviceAllocator,
    HeterogeneousMemoryAllocator, HmaGrant, MemoryLocation, TensorHandle,
};
use crate::policy::dtype_code;
use vstd::prelude::*;

verus! {

/// The element type with the given number; unknown numbers mean singles.
pub open spec fn spec_dtype(code: u32) -> DType {
    if code == 1 {
        DType::F16
    } else if code == 2 {
        DType::Q4K
    } else if code == 3 {
        DType::Q6K
    } else {
        DType::F32
    }
}

/// The place with the given number; unknown numbers mean the host.
pub open spec fn spec_location(code: u32) -> MemoryLocation {
    if code == 1 {
        MemoryLocation::DeviceLocal
    } else if code == 2 {
        MemoryLocation::UnifiedMapped
    } else {
        MemoryLocation::HostPinned
    }
}

pub fn decode_dtype(code: u32) -> (d: DType)
    ensures
        d == spec_dtype(code),
{
    match code {
        0 => DType::F32,
        1 => DType::F16,
        2 => DType::Q4K,
        3 => DType::Q6K,
        _ => DType::F32,
    }
}

pub fn decode_location(code: u32) -> (l: MemoryLocation)
    ensures
        l == spec_location(code),
{
    match code {
        0 => MemoryLocation::HostPinned,
        1 => MemoryLocation::DeviceLocal,
        2 => MemoryLocation::UnifiedMapped,
        _ => MemoryLocation::HostPinned,
    }
}

/// The extents that a command gives.
pub open spec fn created_shape(c: TensorCreateCmd) -> Seq<usize> {
    c.dims@.take(c.ndim as int)
}

pub open spec fn created_bytes(c: TensorCreateCmd) -> int {
    elements(created_shape(c)) * spec_dtype(c.dtype).spec_element_size()
}

/// The command has at most four extents, and memory for it can be asked for.
pub open spec fn can_create(c: TensorCreateCmd) -> bool {
    &&& c.ndim <= 4
    &&& shape_fits(created_shape(c))
    &&& created_bytes(c) <= max_power() / 2
}

pub open spec fn command_ok(cmd: Command) -> bool {
    cmd matches Command::TensorCreate(c) ==> can_create(c)
}

/// The resource that a command creates, as tensor `id` with device buffer
/// `handle`.
pub open spec fn created(c: TensorCreateCmd, id: u64, handle: u64) -> ResourceView {
    ResourceView::Tensor {
        id,
        shape: created_shape(c),
        dtype: spec_dtype(c.dtype),
        location: spec_location(c.location),
        byte_size: created_bytes(c) as usize,
        device_handle: handle,
    }
}

/// The device buffer of a grant, zero where it has none.
pub open spec fn handle_of(g: HmaGrant) -> u64 {
    match g {
        HmaGrant::Device(Some(a)) => match a.device_handle {
            Some(h) => h,
            None => 0,
        },
        _ => 0,
    }
}

/// The memory of a created tensor was granted as `g`: out of the host arena, or
/// as the device answered the request.
pub open spec fn granted_for<D: DeviceAllocator>(
    c: TensorCreateCmd,
    before: HeterogeneousMemoryAllocator<D>,
    after: HeterogeneousMemoryAllocator<D>,
    g: HmaGrant,
) -> bool {
    let location = spec_location(c.location);
    &&& after.device == before.device
    &&& g is Host <==> location == MemoryLocation::HostPinned || before.device is None
    &&& match g {
        HmaGrant::Host(a) => before.host.grants(created_bytes(c), a, &after.host),
        HmaGrant::Device(r) => {
            &&& after.host == before.host
            &&& location == MemoryLocation::DeviceLocal ==> call_ensures(
                D::allocate_device,
                (&before.device->0, created_bytes(c) as usize),
                r,
            )
            &&& location == MemoryLocation::UnifiedMapped ==> call_ensures(
                D::allocate_unified,
                (&before.device->0, created_bytes(c) as usize),
                r,
            )
        },
    }
}

/// The device buffer under a handle: that of a tensor which has one.
pub open spec fn buffer_of(store: Map<u64, ResourceView>, id: u64) -> Option<u64> {
    if store.dom().contains(id) {
        match store[id] {
            ResourceView::Tensor { id, shape, dtype, location, byte_size, device_handle } =>
                if device_handle == 0 {
                None
            } else {
                Some(device_handle)
            },
            ResourceView::Kernel { name } => None,
        }
    } else {
        None
    }
}

/// The operation that a dispatch asks for, if its kernel is known and its
/// buffers are there.
pub open spec fn dispatched(store: Map<u64, ResourceView>, c: KernelDispatchCmd) -> Option<
    ComputeNodeOp,
> {
    if c.kernel_type == 0 {
        match (
            buffer_of(store, c.kernel_id),
            buffer_of(store, c.input_ids@[0]),
            buffer_of(store, c.output_ids@[0]),
        ) {
            (Some(w), Some(x), Some(o)) => Some(
                ComputeNodeOp::GEMVQ4K {
                    d_w: w,
                    d_x: x,
                    d_out: o,
                    n_rows: c.push0,
                    n_blocks: c.push1,
                },
            ),
            _ => None,
        }
    } else if c.kernel_type == 1 {
        match (
            buffer_of(store, c.input_ids@[0]),
            buffer_of(store, c.input_ids@[1]),
            buffer_of(store, c.input_ids@[2]),
            buffer_of(store, c.output_ids@[0]),
            buffer_of(store, c.output_ids@[1]),
        ) {
            (Some(q), Some(k), Some(v), Some(s), Some(o)) => Some(
                ComputeNodeOp::Attention {
                    d_q: q,
                    d_k: k,
                    d_v: v,
                    d_scores: s,
                    d_out: o,
                    n_heads: c.push0,
                    n_kv_heads: c.push1,
                    seq_len: c.push2,
                    head_dim: c.push3,
                    kv_stride: c.push4,
                },
            ),
            _ => None,
        }
    } else {
        None
    }
}

/// The data plane as the contracts see it.
#[verifier::ext_equal]
pub struct PlaneView {
    pub store: Map<u64, ResourceView>,
    pub nodes: Seq<NodeView>,
    pub node_count: int,
    /// The graph has been recorded.
    pub built: bool,
    pub next_id: u64,
}

/// The plane made of its parts.
pub open spec fn plane(
    store: Map<u64, ResourceView>,
    ctx: &GpuComputeContext,
    next_id: u64,
) -> PlaneView {
    PlaneView {
        store,
        nodes: ctx.graph@,
        node_count: ctx.node_count as int,
        built: ctx.graph.is_built(),
        next_id,
    }
}

/// The allocator around one command: only a created tensor takes memory.
pub open spec fn memory_step<D: DeviceAllocator>(
    cmd: Command,
    before: HeterogeneousMemoryAllocator<D>,
    after: HeterogeneousMemoryAllocator<D>,
    g: HmaGrant,
) -> bool {
    match cmd {
        Command::TensorCreate(c) => granted_for(c, before, after, g),
        _ => after == before,
    }
}

/// The allocator over a batch: `states[k]` is the one before command `k`, and
/// `grants[k]` what a tensor created by that command got.
pub struct MemoryTrace<D: DeviceAllocator> {
    pub states: Seq<HeterogeneousMemoryAllocator<D>>,
    pub grants: Seq<HmaGrant>,
}

impl<D: DeviceAllocator> MemoryTrace<D> {
    pub open spec fn step(self, batch: Seq<Command>, k: int) -> bool {
        memory_step(batch[k], self.states[k], self.states[k + 1], self.grants[k])
    }

    /// The commands `from .. to` took the allocator from `before` to `after`.
    pub open spec fn leads(
        self,
        batch: Seq<Command>,
        from: int,
        to: int,
        before: HeterogeneousMemoryAllocator<D>,
        after: HeterogeneousMemoryAllocator<D>,
    ) -> bool {
        &&& self.grants.len() == batch.len()
        &&& self.states.len() == batch.len() + 1
        &&& self.states[from] == before
        &&& self.states[to] == after
        &&& forall|k: int| from <= k < to ==> #[trigger] self.step(batch, k)
    }

    /// Command `k` has been done, with the allocator `after` behind it.
    spec fn with_step(self, k: int, after: HeterogeneousMemoryAllocator<D>, g: HmaGrant) -> Self {
        MemoryTrace { states: self.states.update(k + 1, after), grants: self.grants.update(k, g) }
    }
}

proof fn lemma_trace_grows<D: DeviceAllocator>(
    t: MemoryTrace<D>,
    batch: Seq<Command>,
    from: int,
    k: int,
    start: HeterogeneousMemoryAllocator<D>,
    before: HeterogeneousMemoryAllocator<D>,
    after: HeterogeneousMemoryAllocator<D>,
    g: HmaGrant,
)
    requires
        0 <= from <= k < batch.len(),
        t.leads(batch, from, k, start, before),
        memory_step(batch[k], before, after, g),
    ensures
        t.with_step(k, after, g).leads(batch, from, k + 1, start, after),
{
    let u = t.with_step(k, after, g);
    assert forall|j: int| from <= j < k + 1 implies #[trigger] u.step(batch, j) by {
        if j < k {
            assert(t.step(batch, j));
        }
    }
}

/// The plane after a command that does not stop the batch; `handle` is the
/// device buffer of a created tensor.
pub open spec fn after_command(s: PlaneView, cmd: Command, handle: u64, operational: bool) -> PlaneView {
    match cmd {
        Command::TensorCreate(c) => PlaneView {
            store: s.store.insert(c.id, created(c, s.next_id, handle)),
            next_id: next_number(s.next_id),
            ..s
        },
        Command::KernelDispatch(c) => match dispatched(s.store, c) {
            Some(op) => if operational {
                PlaneView {
                    nodes: s.nodes.push(NodeView { op, dependencies: Seq::empty() }),
                    node_count: s.node_count + 1,
                    ..s
                }
            } else {
                s
            },
            None => s,
        },
        Command::Commit(_) => PlaneView { node_count: 0, ..s },
        _ => s,
    }
}

/// A shutdown stops a batch, and so does a commit with work to submit.
pub open spec fn stops(s: PlaneView, cmd: Command, operational: bool) -> bool {
    cmd is Shutdown || (cmd is Commit && operational && s.node_count > 0)
}

/// The plane after commands `from .. to` of a batch.
pub open spec fn after_commands(
    s: PlaneView,
    batch: Seq<Command>,
    from: int,
    to: int,
    grants: Seq<HmaGrant>,
    operational: bool,
) -> PlaneView
    decreases to - from,
{
    if to <= from {
        s
    } else {
        after_command(
            after_commands(s, batch, from, to - 1, grants, operational),
            batch[to - 1],
            handle_of(grants[to - 1]),
            operational,
        )
    }
}

/// Why a run over a batch came to an end.
#[derive(Debug)]
pub enum BatchEvent {
    /// All commands are done.
    Done,
    /// Submit these steps, wait, and go on behind the commit.
    Submit(Vec<GraphStep>),
    Shutdown,
}

/// The buffer under a handle.
pub fn resolve_buf(id: u64, hs: &OpaqueHandleStore) -> (b: Option<u64>)
    ensures
        b == buffer_of(hs@, id),
{
    match hs.get(ResourceHandle(id)) {
        Some(OpaqueResource::Tensor { device_handle, .. }) => if *device_handle == 0 {
            None
        } else {
            Some(*device_handle)
        },
        _ => None,
    }
}

fn shape_of(c: &TensorCreateCmd) -> (shape: Vec<usize>)
    requires
        c.ndim <= 4,
    ensures
        shape@ == created_shape(*c),
{
    let mut shape: Vec<usize> = Vec::new();
    let mut i: usize = 0;
    while i < c.ndim as usize
        invariant
            i <= c.ndim <= 4,
            shape@ == c.dims@.take(i as int),
        decreases c.ndim - i,
    {
        shape.push(c.dims[i]);
        assert(c.dims@.take(i + 1) =~= c.dims@.take(i as int).push(c.dims@[i as int]));
        i = i + 1;
    }
    shape
}

/// Makes the tensor of a command, with memory from `hma`, and registers it.
/// Returns the device buffer, zero where there is none.
pub fn create_tensor<D: DeviceAllocator>(
    c: &TensorCreateCmd,
    hs: &mut OpaqueHandleStore,
    hma: &mut HeterogeneousMemoryAllocator<D>,
    ids: &mut u64,
) -> (handle: u64)
    requires
        can_create(*c),
        old(hma).host.wf(),
    ensures
        final(hma).host.wf(),
        final(hma).device == old(hma).device,
        exists|g: HmaGrant|
            #[trigger] granted_for(*c, *old(hma), *final(hma), g) && handle == handle_of(g),
        final(hs)@ == old(hs)@.insert(c.id, created(*c, *old(ids), handle)),
        *final(ids) == next_number(*old(ids)),
{
    let location = decode_location(c.location);
    let dtype = decode_dtype(c.dtype);
    let tensor = TensorHandle::new(ids, location, dtype, shape_of(c));
    let byte_size: usize = tensor.byte_size();
    let grant = hma.allocate(byte_size, location);
    assert(granted_for(*c, *old(hma), *hma, grant));
    let handle: u64 = match grant {
        HmaGrant::Host(_) => 0,
        HmaGrant::Device(granted) => match granted {
            Some(a) => match a.device_handle {
                Some(h) => h,
                None => 0,
            },
            None => 0,
        },
    };
    hs.register(
        ResourceHandle(c.id),
        OpaqueResource::Tensor {
            id: tensor.id,
            shape: tensor.shape,
            dtype,
            location,
            byte_size,
            device_handle: handle,
        },
    );
    handle
}

/// Adds the operation of a dispatch to the graph.
pub fn dispatch_kernel(c: &KernelDispatchCmd, hs: &OpaqueHandleStore, ctx: &mut GpuComputeContext)
    requires
        old(ctx).node_count < usize::MAX,
    ensures
        final(ctx).enabled == old(ctx).enabled,
        match dispatched(hs@, *c) {
            Some(op) => if old(ctx).enabled {
                &&& final(ctx).graph@ == old(ctx).graph@.push(
                    NodeView { op, dependencies: Seq::empty() },
                )
                &&& final(ctx).graph.is_built() == old(ctx).graph.is_built()
                &&& final(ctx).node_count == old(ctx).node_count + 1
            } else {
                *final(ctx) == *old(ctx)
            },
            None => *final(ctx) == *old(ctx),
        },
{
    if !ctx.is_operational() {
        return ;
    }
    if c.kernel_type == 0 {
        let w = resolve_buf(c.kernel_id, hs);
        let x = resolve_buf(c.input_ids[0], hs);
        let o = resolve_buf(c.output_ids[0], hs);
        if let (Some(w), Some(x), Some(o)) = (w, x, o) {
            let _ = ctx.add_gemv_q4k_node(w, x, o, c.push0, c.push1, Vec::new());
        }
    } else if c.kernel_type == 1 {
        let q = resolve_buf(c.input_ids[0], hs);
        let k = resolve_buf(c.input_ids[1], hs);
        let v = resolve_buf(c.input_ids[2], hs);
        let s = resolve_buf(c.output_ids[0], hs);
        let o = resolve_buf(c.output_ids[1], hs);
        if let (Some(q), Some(k), Some(v), Some(s), Some(o)) = (q, k, v, s, o) {
            let _ = ctx.add_attention_node(
                q,
                k,
                v,
                s,
                o,
                c.push0,
                c.push1,
                c.push2,
                c.push3,
                c.push4,
                Vec::new(),
            );
        }
    }
}

/// Carries out a batch from command `from` on, up to its end, to a shutdown
/// or to a commit with work to submit.  Returns where to go on and why it
/// stopped.
///
/// Created tensors get their memory from the allocator, in the order of the
/// commands.
pub fn process_batch_with_ctx<D: DeviceAllocator>(
    batch: &[Command],
    from: usize,
    ctx: &mut GpuComputeContext,
    hs: &mut OpaqueHandleStore,
    hma: &mut HeterogeneousMemoryAllocator<D>,
    ids: &mut u64,
) -> (r: (usize, BatchEvent))
    requires
        from <= batch@.len(),
        forall|i: int| from <= i < batch@.len() ==> command_ok(#[trigger] batch@[i]),
        old(hma).host.wf(),
        old(ctx).node_count + (batch@.len() - from) <= usize::MAX,
    ensures
        final(hma).host.wf(),
        final(hma).device == old(hma).device,
        final(ctx).enabled == old(ctx).enabled,
        from <= r.0 <= batch@.len(),
        batch_ran(
            plane(old(hs)@, old(ctx), *old(ids)),
            batch@,
            from as int,
            old(ctx).enabled,
            *old(hma),
            *final(hma),
            r.0 as int,
            r.1,
            plane(final(hs)@, final(ctx), *final(ids)),
        ),
{
    let ghost s0 = plane(hs@, ctx, *ids);
    let ghost operational = ctx.enabled;
    let ghost mut trace = MemoryTrace {
        states: Seq::new(batch@.len() + 1, |i: int| *hma),
        grants: Seq::new(batch@.len(), |i: int| HmaGrant::Device(None)),
    };
    let mut i: usize = from;
    while i < batch.len()
        invariant
            from <= i <= batch@.len(),
            forall|k: int| from <= k < batch@.len() ==> command_ok(#[trigger] batch@[k]),
            hma.host.wf(),
            hma.device == old(hma).device,
            ctx.enabled == operational,
            operational == old(ctx).enabled,
            ctx.node_count + (batch@.len() - i) <= usize::MAX,
            trace.leads(batch@, from as int, i as int, *old(hma), *hma),
            s0 == plane(old(hs)@, old(ctx), *old(ids)),
            after_commands(s0, batch@, from as int, i as int, trace.grants, operational) == plane(
                hs@,
                ctx,
                *ids,
            ),
            ran_through(s0, batch@, from as int, i as int, trace.grants, operational),
        decreases batch@.len() - i,
    {
        let ghost here = after_commands(s0, batch@, from as int, i as int, trace.grants, operational);
        let ghost before = trace;
        let ghost memory = *hma;
        let ghost mut grant = HmaGrant::Device(None);
        match &batch[i] {
            Command::TensorCreate(c) => {
                assert(command_ok(batch@[i as int]));
                let handle: u64 = create_tensor(c, hs, hma, ids);
                proof {
                    grant = choose|g: HmaGrant|
                        #[trigger] granted_for(*c, memory, *hma, g) && handle == handle_of(g);
                }
            },
            Command::KernelDispatch(c) => {
                dispatch_kernel(c, hs, ctx);
            },
            Command::Commit(_) => {
                match ctx.submit_and_wait() {
                    Submission::Skipped => {
                        ctx.reset_graph();
                    },
                    Submission::Run(steps) => {
                        ctx.reset_graph();
                        assert(batch_ran_with(
                            s0,
                            batch@,
                            from as int,
                            operational,
                            *old(hma),
                            *hma,
                            trace,
                            i + 1,
                            BatchEvent::Submit(steps),
                            plane(hs@, ctx, *ids),
                        ));
                        return (i + 1, BatchEvent::Submit(steps));
                    },
                }
            },
            Command::Shutdown(_) => {
                assert(batch_ran_with(
                    s0,
                    batch@,
                    from as int,
                    operational,
                    *old(hma),
                    *hma,
                    trace,
                    i + 1,
                    BatchEvent::Shutdown,
                    here,
                ));
                return (i + 1, BatchEvent::Shutdown);
            },
            _ => {},
        }
        proof {
            lemma_trace_grows(
                before,
                batch@,
                from as int,
                i as int,
                *old(hma),
                memory,
                *hma,
                grant,
            );
            trace = before.with_step(i as int, *hma, grant);
            lemma_same_prefix(
                s0,
                batch@,
                from as int,
                i as int,
                before.grants,
                trace.grants,
                operational,
            );
            assert forall|k: int| from <= k < i + 1 implies !stops(
                #[trigger] after_commands(s0, batch@, from as int, k, trace.grants, operational),
                batch@[k],
                operational,
            ) by {
                lemma_same_prefix(
                    s0,
                    batch@,
                    from as int,
                    k,
                    before.grants,
                    trace.grants,
                    operational,
                );
            }
        }
        i = i + 1;
    }
    assert(batch_ran_with(
        s0,
        batch@,
        from as int,
        operational,
        *old(hma),
        *hma,
        trace,
        i as int,
        BatchEvent::Done,
        plane(hs@, ctx, *ids),
    ));
    (i, BatchEvent::Done)
}

/// No command of `from .. to` stops the batch.
pub open spec fn ran_through(
    s: PlaneView,
    batch: Seq<Command>,
    from: int,
    to: int,
    grants: Seq<HmaGrant>,
    operational: bool,
) -> bool {
    forall|k: int|
        from <= k < to ==> !stops(
            #[trigger] after_commands(s, batch, from, k, grants, operational),
            batch[k],
            operational,
        )
}

/// A run over a batch: commands before the stop take effect in order; the
/// stop is the first command that stops the batch, or its end.  Memory goes as
/// `trace` tells.
pub open spec fn batch_ran_with<D: DeviceAllocator>(
    s: PlaneView,
    batch: Seq<Command>,
    from: int,
    operational: bool,
    memory: HeterogeneousMemoryAllocator<D>,
    memory_after: HeterogeneousMemoryAllocator<D>,
    trace: MemoryTrace<D>,
    next: int,
    event: BatchEvent,
    after: PlaneView,
) -> bool {
    let last = if event is Done {
        next
    } else {
        next - 1
    };
    let reached = after_commands(s, batch, from, last, trace.grants, operational);
    &&& trace.leads(batch, from, last, memory, memory_after)
    &&& ran_through(s, batch, from, last, trace.grants, operational)
    &&& match event {
        BatchEvent::Done => next == batch.len() && after == reached,
        BatchEvent::Shutdown => from < next && batch[last] is Shutdown && after == reached,
        BatchEvent::Submit(steps) => {
            &&& from < next
            &&& batch[last] is Commit
            &&& stops(reached, batch[last], operational)
            &&& step_views(steps@) == graph_steps(reached.nodes, reached.nodes.len() as int)
            &&& after == (PlaneView {
                nodes: Seq::empty(),
                node_count: 0,
                built: false,
                ..reached
            })
        },
    }
}

/// A run over a batch, for some grants of memory to its tensors.
pub open spec fn batch_ran<D: DeviceAllocator>(
    s: PlaneView,
    batch: Seq<Command>,
    from: int,
    operational: bool,
    memory: HeterogeneousMemoryAllocator<D>,
    memory_after: HeterogeneousMemoryAllocator<D>,
    next: int,
    event: BatchEvent,
    after: PlaneView,
) -> bool {
    exists|trace: MemoryTrace<D>|
        batch_ran_with(
            s,
            batch,
            from,
            operational,
            memory,
            memory_after,
            trace,
            next,
            event,
            after,
        )
}

proof fn lemma_same_prefix(
    s: PlaneView,
    batch: Seq<Command>,
    from: int,
    to: int,
    a: Seq<HmaGrant>,
    b: Seq<HmaGrant>,
    operational: bool,
)
    requires
        0 <= from,
        forall|k: int| from <= k < to ==> a[k] == b[k],
    ensures
        after_commands(s, batch, from, to, a, operational) == after_commands(
            s,
            batch,
            from,
            to,
            b,
            operational,
        ),
    decreases to - from,
{
    if to > from {
        lemma_same_prefix(s, batch, from, to - 1, a, b, operational);
    }
}

/// Carries out the part of a batch that needs no device: tensors are made
/// until a shutdown.  Returns the number of commands done.
pub fn process_batch_light<D: DeviceAllocator>(
    batch: &[Command],
    hs: &mut OpaqueHandleStore,
    hma: &mut HeterogeneousMemoryAllocator<D>,
    ids: &mut u64,
) -> (n: usize)
    requires
        forall|i: int| 0 <= i < batch@.len() ==> command_ok(#[trigger] batch@[i]),
        old(hma).host.wf(),
    ensures
        final(hma).host.wf(),
        final(hma).device == old(hma).device,
        n <= batch@.len(),
        forall|i: int| 0 <= i < n ==> !(#[trigger] batch@[i] is Shutdown),
        n < batch@.len() ==> batch@[n as int] is Shutdown,
        exists|trace: MemoryTrace<D>|
            {
                &&& #[trigger] trace.leads(batch@, 0, n as int, *old(hma), *final(hma))
                &&& (final(hs)@, *final(ids)) == after_creates(
                    old(hs)@,
                    *old(ids),
                    batch@,
                    n as int,
                    trace.grants,
                )
            },
{
    let ghost mut trace = MemoryTrace {
        states: Seq::new(batch@.len() + 1, |i: int| *hma),
        grants: Seq::new(batch@.len(), |i: int| HmaGrant::Device(None)),
    };
    let mut i: usize = 0;
    while i < batch.len()
        invariant
            i <= batch@.len(),
            forall|k: int| 0 <= k < batch@.len() ==> command_ok(#[trigger] batch@[k]),
            forall|k: int| 0 <= k < i ==> !(#[trigger] batch@[k] is Shutdown),
            hma.host.wf(),
            hma.device == old(hma).device,
            trace.leads(batch@, 0, i as int, *old(hma), *hma),
            (hs@, *ids) == after_creates(old(hs)@, *old(ids), batch@, i as int, trace.grants),
        decreases batch@.len() - i,
    {
        let ghost before = trace;
        let ghost memory = *hma;
        let ghost mut grant = HmaGrant::Device(None);
        match &batch[i] {
            Command::TensorCreate(c) => {
                assert(command_ok(batch@[i as int]));
                let handle: u64 = create_tensor(c, hs, hma, ids);
                proof {
                    grant = choose|g: HmaGrant|
                        #[trigger] granted_for(*c, memory, *hma, g) && handle == handle_of(g);
                }
            },
            Command::Shutdown(_) => {
                return i;
            },
            _ => {},
        }
        proof {
            lemma_trace_grows(before, batch@, 0, i as int, *old(hma), memory, *hma, grant);
            trace = before.with_step(i as int, *hma, grant);
            lemma_same_creates(
                old(hs)@,
                *old(ids),
                batch@,
                i as int,
                before.grants,
                trace.grants,
            );
        }
        i = i + 1;
    }
    i
}

/// The store and the counter after the first `n` commands, where only
/// tensors are made.
pub open spec fn after_creates(
    store: Map<u64, ResourceView>,
    next_id: u64,
    batch: Seq<Command>,
    n: int,
    grants: Seq<HmaGrant>,
) -> (Map<u64, ResourceView>, u64)
    decreases n,
{
    if n <= 0 {
        (store, next_id)
    } else {
        let s = after_creates(store, next_id, batch, n - 1, grants);
        match batch[n - 1] {
            Command::TensorCreate(c) => (
                s.0.insert(c.id, created(c, s.1, handle_of(grants[n - 1]))),
                next_number(s.1),
            ),
            _ => s,
        }
    }
}

proof fn lemma_same_creates(
    store: Map<u64, ResourceView>,
    next_id: u64,
    batch: Seq<Command>,
    n: int,
    a: Seq<HmaGrant>,
    b: Seq<HmaGrant>,
)
    requires
        forall|k: int| 0 <= k < n ==> a[k] == b[k],
    ensures
        after_creates(store, next_id, batch, n, a) == after_creates(store, next_id, batch, n, b),
    decreases n,
{
    if n > 0 {
        lemma_same_creates(store, next_id, batch, n - 1, a, b);
    }
}

/// The number that a script's command gives for an element type is read back as that
/// type; one and two are the places on the device.
pub proof fn law_numbers_are_read_back(d: DType, code: u32)
    ensures
        spec_dtype(dtype_code(d)) == d,
        code > 3 ==> spec_dtype(code) == DType::F32,
        spec_location(code) == MemoryLocation::DeviceLocal <==> code == 1,
        spec_location(code) == MemoryLocation::UnifiedMapped <==> code == 2,
{
}

/// A created tensor has the extents of its command and as many bytes as its elements
/// take.  Kernels find its buffer under the number of the command; all other tensors
/// and the graph are as they were.
pub proof fn law_created_tensor_is_as_asked(
    s: PlaneView,
    c: TensorCreateCmd,
    handle: u64,
    operational: bool,
    other: u64,
    i: int,
)
    requires
        can_create(c),
        other != c.id,
        0 <= i < c.ndim,
    ensures
        ({
            let after = after_command(s, Command::TensorCreate(c), handle, operational);
            &&& after.store.dom().contains(c.id)
            &&& after.store[c.id] matches ResourceView::Tensor {
                id,
                shape,
                dtype,
                location,
                byte_size,
                device_handle,
            } && {
                &&& id == s.next_id
                &&& shape.len() == c.ndim
                &&& shape[i] == c.dims@[i]
                &&& dtype == spec_dtype(c.dtype)
                &&& location == spec_location(c.location)
                &&& byte_size == elements(shape) * dtype.spec_element_size()
                &&& device_handle == handle
            }
            &&& handle != 0 ==> buffer_of(after.store, c.id) == Some(handle)
            &&& handle == 0 ==> buffer_of(after.store, c.id) is None
            &&& buffer_of(after.store, other) == buffer_of(s.store, other)
            &&& after.store.remove(c.id) == s.store.remove(c.id)
            &&& after.nodes == s.nodes
            &&& after.node_count == s.node_count
        }),
{
    let after = after_command(s, Command::TensorCreate(c), handle, operational);
    assert(after.store.remove(c.id) =~= s.store.remove(c.id));
    assert(max_power() / 2 <= usize::MAX);
    lemma_bytes_are_natural(c);
}

proof fn lemma_bytes_are_natural(c: TensorCreateCmd)
    requires
        can_create(c),
    ensures
        0 <= created_bytes(c),
{
    crate::hma::lemma_elements_are_natural(created_shape(c));
    let n = elements(created_shape(c));
    let k = spec_dtype(c.dtype).spec_element_size() as int;
    assert(0 <= n * k) by (nonlinear_arith)
        requires
            0 <= n,
            0 <= k,
    ;
}

/// A matrix product is done where its weights, input and output have buffers, and on
/// those; likewise attention.  Other kernels are not known.
pub proof fn law_kernels_work_on_their_tensors(
    store: Map<u64, ResourceView>,
    c: KernelDispatchCmd,
    w: u64,
    x: u64,
    k: u64,
    v: u64,
    a: u64,
    o: u64,
)
    requires
        buffer_of(store, c.kernel_id) == Some(w),
        buffer_of(store, c.input_ids@[0]) == Some(x),
        buffer_of(store, c.input_ids@[1]) == Some(k),
        buffer_of(store, c.input_ids@[2]) == Some(v),
        buffer_of(store, c.output_ids@[0]) == Some(a),
        buffer_of(store, c.output_ids@[1]) == Some(o),
    ensures
        dispatched(store, c) is Some <==> c.kernel_type == 0 || c.kernel_type == 1,
        dispatched(store, c) matches Some(ComputeNodeOp::GEMVQ4K {
            d_w,
            d_x,
            d_out,
            n_rows,
            n_blocks,
        }) ==> c.kernel_type == 0 && d_w == w && d_x == x && d_out == a && n_rows == c.push0
            && n_blocks == c.push1,
        dispatched(store, c) matches Some(ComputeNodeOp::Attention {
            d_q,
            d_k,
            d_v,
            d_scores,
            d_out,
            n_heads,
            n_kv_heads,
            seq_len,
            head_dim,
            kv_stride,
        }) ==> c.kernel_type == 1 && d_q == x && d_k == k && d_v == v && d_scores == a && d_out
            == o && n_heads == c.push0 && n_kv_heads == c.push1 && seq_len == c.push2
            && head_dim == c.push3 && kv_stride == c.push4,
        c.kernel_type == 0 ==> dispatched(store, c)->0 is GEMVQ4K,
        c.kernel_type == 1 ==> dispatched(store, c)->0 is Attention,
{
}

/// A matrix product without a buffer for its weights, its input or its output is not
/// done.
pub proof fn law_missing_buffers_leave_the_kernel_out(
    store: Map<u64, ResourceView>,
    c: KernelDispatchCmd,
)
    requires
        dispatched(store, c) is Some,
    ensures
        buffer_of(store, c.input_ids@[0]) is Some,
        buffer_of(store, c.output_ids@[0]) is Some,
        c.kernel_type == 0 ==> buffer_of(store, c.kernel_id) is Some,
        c.kernel_type == 1 ==> buffer_of(store, c.input_ids@[1]) is Some && buffer_of(
            store,
            c.input_ids@[2],
        ) is Some && buffer_of(store, c.output_ids@[1]) is Some,
{
}

/// A batch may be cut anywhere: doing the commands up to the cut and then those behind
/// it is doing all of them.
pub proof fn law_batch_may_be_cut(
    s: PlaneView,
    batch: Seq<Command>,
    from: int,
    cut: int,
    to: int,
    grants: Seq<HmaGrant>,
    operational: bool,
)
    requires
        from <= cut <= to,
    ensures
        after_commands(s, batch, from, to, grants, operational) == after_commands(
            after_commands(s, batch, from, cut, grants, operational),
            batch,
            cut,
            to,
            grants,
            operational,
        ),
    decreases to - cut,
{
    if cut < to {
        law_batch_may_be_cut(s, batch, from, cut, to - 1, grants, operational);
    }
}

/// Between commits each operation that joins the graph is counted; a commit starts the
/// count again and leaves the tensors alone.
pub proof fn law_operations_are_counted_up_to_the_commit(
    s: PlaneView,
    cmd: Command,
    handle: u64,
    operational: bool,
)
    ensures
        ({
            let after = after_command(s, cmd, handle, operational);
            &&& cmd is Commit ==> after.node_count == 0 && after.nodes == s.nodes
            &&& !(cmd is Commit) ==> after.node_count - s.node_count == after.nodes.len()
                - s.nodes.len()
            &&& s.nodes.is_prefix_of(after.nodes)
            &&& !operational ==> after.nodes == s.nodes
            &&& !(cmd is TensorCreate) ==> after.store == s.store && after.next_id == s.next_id
        }),
{
}

/// A tensor has a device buffer only where the device granted one; a grant on the host
/// and a refusal leave it without.
pub proof fn law_buffers_come_from_the_device(g: HmaGrant)
    ensures
        g is Host ==> handle_of(g) == 0,
        g == HmaGrant::Device(None) ==> handle_of(g) == 0,
        g matches HmaGrant::Device(Some(a)) ==> (a.device_handle matches Some(h) ==> handle_of(g)
            == h),
        handle_of(g) != 0 ==> (g matches HmaGrant::Device(Some(a)) && a.device_handle == Some(
            handle_of(g),
        )),
{
}

/// A batch goes on through every command but a shutdown and a commit with work to submit.
pub proof fn law_batches_stop_for_work(s: PlaneView, cmd: Command, operational: bool)
    ensures
        cmd is Shutdown ==> stops(s, cmd, operational),
        cmd is Commit ==> (stops(s, cmd, operational) <==> operational && s.node_count > 0),
        !(cmd is Shutdown) && !(cmd is Commit) ==> !stops(s, cmd, operational),
{
}

/// A batch never passes a shutdown, nor a commit while there is work to submit.
pub proof fn law_batch_does_not_pass_work(
    s: PlaneView,
    batch: Seq<Command>,
    from: int,
    to: int,
    grants: Seq<HmaGrant>,
    operational: bool,
    k: int,
)
    requires
        ran_through(s, batch, from, to, grants, operational),
        from <= k < to,
    ensures
        !(batch[k] is Shutdown),
        batch[k] is Commit && operational ==> after_commands(
            s,
            batch,
            from,
            k,
            grants,
            operational,
        ).node_count <= 0,
{
    assert(!stops(
        after_commands(s, batch, from, k, grants, operational),
        batch[k],
        operational,
    ));
}

/// A run over a batch ends behind its last command, behind a shutdown, or behind a commit
/// whose work is handed over whole and leaves the graph empty; tensors stay in any case.
pub proof fn law_batch_ends_for_a_reason<D: DeviceAllocator>(
    s: PlaneView,
    batch: Seq<Command>,
    from: int,
    operational: bool,
    memory: HeterogeneousMemoryAllocator<D>,
    memory_after: HeterogeneousMemoryAllocator<D>,
    trace: MemoryTrace<D>,
    next: int,
    event: BatchEvent,
    after: PlaneView,
)
    requires
        from <= batch.len(),
        batch_ran_with(
            s,
            batch,
            from,
            operational,
            memory,
            memory_after,
            trace,
            next,
            event,
            after,
        ),
    ensures
        event is Done ==> next == batch.len() && after == after_commands(
            s,
            batch,
            from,
            next,
            trace.grants,
            operational,
        ),
        !(event is Done) ==> from < next && after.store == after_commands(
            s,
            batch,
            from,
            next - 1,
            trace.grants,
            operational,
        ).store,
        event is Shutdown <==> !(event is Done) && batch[next - 1] is Shutdown,
        event matches BatchEvent::Submit(steps) ==> {
            let reached = after_commands(s, batch, from, next - 1, trace.grants, operational);
            &&& batch[next - 1] is Commit
            &&& operational
            &&& reached.node_count > 0
            &&& step_views(steps@) == graph_steps(reached.nodes, reached.nodes.len() as int)
            &&& after.nodes.len() == 0
            &&& after.node_count == 0
            &&& !after.built
            &&& after.next_id == reached.next_id
        },
{
}

/// Making tensors alone is what a batch does of it without a device to run on.
pub proof fn law_tensors_are_made_alike(
    s: PlaneView,
    batch: Seq<Command>,
    n: int,
    grants: Seq<HmaGrant>,
    operational: bool,
)
    requires
        0 <= n <= batch.len(),
    ensures
        after_creates(s.store, s.next_id, batch, n, grants) == (
            after_commands(s, batch, 0, n, grants, operational).store,
            after_commands(s, batch, 0, n, grants, operational).next_id,
        ),
    decreases n,
{
    if n > 0 {
        law_tensors_are_made_alike(s, batch, n - 1, grants, operational);
    }
}

} // verus!
