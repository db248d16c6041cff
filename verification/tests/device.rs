//! Memory, commands and work for the device.

use swamp::compute_graph::{ComputeGraph, ComputeNodeOp, GpuComputeContext, GraphStep, Submission};
use swamp::control_plane::{
    Command, CommandQueue, CommandTag, CommitCmd, KernelDispatchCmd, KernelType,
    OpaqueHandleStore, OpaqueResource, ResourceHandle, ShutdownCmd, TensorCreateCmd,
    TensorFreeCmd,
};
use swamp::data_plane::{
    decode_dtype, decode_location, process_batch_light, process_batch_with_ctx, resolve_buf,
    BatchEvent,
};
use swamp::gpu::{
    gpu_available, gpu_event_create, gpu_event_destroy, gpu_event_record, gpu_event_synchronize,
    gpu_free_weights, gpu_init, gpu_stream_create, gpu_stream_destroy, gpu_stream_synchronize,
    gpu_sync, CudaEvent, CudaStream, GpuError,
};
use swamp::hma::{
    compute_strides, count_elements, next_power_of_two, take_number, Allocation, ArenaGrant,
    DType, DeviceAllocator, HeterogeneousMemoryAllocator, HmaGrant, HostPinnedArena,
    MemoryLocation, TensorHandle,
};
use swamp::policy::{
    adapt_threads, commit_command, create_command, parse_dtype, reload_due, should_skip_layer,
    suggested_batch_size, PolicyReply,
};
use swamp::shaders::{find_memory_type, kv_buffer_bytes, scratch_sizes, ShaderCache, ShaderType};
use swamp::staging::StagingBuffer;

/// Gives every tensor the buffer that its size names.
struct SizedDevice;

impl DeviceAllocator for SizedDevice {
    fn allocate_device(&self, size: usize) -> Option<Allocation> {
        if size > 1000 {
            return None;
        }
        Some(Allocation {
            ptr: 0,
            size,
            location: MemoryLocation::DeviceLocal,
            device_handle: Some(size as u64),
        })
    }

    fn allocate_unified(&self, size: usize) -> Option<Allocation> {
        Some(Allocation {
            ptr: 7,
            size,
            location: MemoryLocation::UnifiedMapped,
            device_handle: None,
        })
    }

    fn free(&self, _alloc: &Allocation) {}

    fn upload(&self, _dst: &Allocation, _src: &[u8]) {}

    fn download(&self, _dst: &mut [u8], _src: &Allocation) {}
}

#[test]
fn strides_are_products_of_later_extents() {
    assert_eq!(compute_strides(&[2, 3, 4]), vec![12, 4, 1]);
    assert_eq!(compute_strides(&[]), vec![]);
    assert_eq!(count_elements(&[2, 3, 4]), 24);
    assert_eq!(count_elements(&[]), 1);
    assert_eq!(next_power_of_two(0), 1);
    assert_eq!(next_power_of_two(64), 64);
    assert_eq!(next_power_of_two(65), 128);
}

#[test]
fn tensors_know_their_size() {
    let mut ids = 5;
    let mut t = TensorHandle::new(&mut ids, MemoryLocation::HostPinned, DType::F16, vec![3, 5]);
    assert_eq!((t.id, ids), (5, 6));
    assert_eq!(t.element_count(), 15);
    assert_eq!(t.byte_size(), 30);
    assert_eq!(t.strides, vec![5, 1]);
    assert_eq!((t.host_ptr(), t.device_id()), (0, None));
    assert!(!t.allocate(None));
    let a = Allocation {
        ptr: 9,
        size: 30,
        location: MemoryLocation::DeviceLocal,
        device_handle: Some(4),
    };
    assert!(t.allocate(Some(a)));
    assert_eq!((t.host_ptr(), t.device_id()), (9, Some(4)));
    assert!(Allocation::null().is_null() && !a.is_null());
    let mut n = u64::MAX;
    assert_eq!(take_number(&mut n), u64::MAX);
    assert_eq!(n, 0);
    assert_eq!(
        [DType::F32, DType::F16, DType::Q4K, DType::Q6K].map(|d| d.element_size()),
        [4, 2, 1, 1]
    );
}

#[test]
fn grants_lie_side_by_side() {
    let mut arena = HostPinnedArena::new(1000);
    assert_eq!(arena.block_size, 4096);
    let a = arena.allocate(10);
    assert_eq!(a, ArenaGrant { block: 0, offset: 0, size: 64, new_block: Some(4096) });
    let b = arena.allocate(100);
    assert_eq!(b, ArenaGrant { block: 0, offset: 64, size: 128, new_block: None });
    let c = arena.allocate(5000);
    assert_eq!(c, ArenaGrant { block: 1, offset: 0, size: 8192, new_block: Some(8192) });
    arena.reset();
    let d = arena.allocate(1);
    assert_eq!(d, ArenaGrant { block: 1, offset: 0, size: 64, new_block: None });
}

#[test]
fn device_memory_falls_back_to_the_host() {
    let mut none: HeterogeneousMemoryAllocator<SizedDevice> = HeterogeneousMemoryAllocator::new();
    assert!(matches!(none.allocate(8, MemoryLocation::DeviceLocal), HmaGrant::Host(g) if g.size == 64));
    let mut some = HeterogeneousMemoryAllocator::with_device(SizedDevice);
    assert!(matches!(some.allocate(8, MemoryLocation::HostPinned), HmaGrant::Host(_)));
    assert!(matches!(
        some.allocate(8, MemoryLocation::DeviceLocal),
        HmaGrant::Device(Some(a)) if a.device_handle == Some(8)
    ));
    assert!(matches!(
        some.allocate(8, MemoryLocation::UnifiedMapped),
        HmaGrant::Device(Some(a)) if a.ptr == 7
    ));
    assert!(matches!(some.allocate(1001, MemoryLocation::DeviceLocal), HmaGrant::Device(None)));
    some.reset();
    assert_eq!(some.host.bump_offset, 0);
}

fn create(id: u64, n: usize, location: u32) -> Command {
    Command::TensorCreate(TensorCreateCmd {
        tag: CommandTag::TensorCreate.code(),
        id,
        dims: [n, 2, 9, 9],
        ndim: 2,
        dtype: 1,
        location,
        _pad: 0,
    })
}

fn product(weights: u64, input: u64, output: u64) -> Command {
    Command::KernelDispatch(KernelDispatchCmd {
        tag: CommandTag::KernelDispatch.code(),
        kernel_type: KernelType::GEMVQ4K.code(),
        kernel_id: weights,
        input_ids: [input, 0, 0, 0],
        output_ids: [output, 0],
        n_inputs: 1,
        n_outputs: 1,
        _pad: 0,
        push0: 11,
        push1: 12,
        push2: 0,
        push3: 0,
        push4: 0,
        push5: 0,
        push6: 0,
        push7: 0,
    })
}

fn commit() -> Command {
    Command::Commit(CommitCmd { tag: CommandTag::Commit.code(), frame_id: 1, timestamp: 2, _pad: 0 })
}

fn shutdown() -> Command {
    Command::Shutdown(ShutdownCmd { tag: CommandTag::Shutdown.code(), _pad: [0; 3] })
}

fn free(id: u64) -> Command {
    Command::TensorFree(TensorFreeCmd { tag: CommandTag::TensorFree.code(), id, _pad: [0; 2] })
}

#[test]
fn frames_are_taken_whole() {
    let mut q = CommandQueue::new();
    q.push(create(1, 1, 0));
    assert_eq!(q.pending_frames(), 0);
    assert_eq!(q.pop_frame_batch().len(), 1);
    assert!(q.pop_frame_batch().is_empty());
    q.push(create(1, 1, 0));
    q.push(commit());
    q.push(free(1));
    assert_eq!(q.pending_frames(), 1);
    let batch = q.pop_frame_batch();
    assert_eq!(batch.len(), 2);
    assert!(matches!(batch[1], Command::Commit(_)));
    assert_eq!(q.pending_frames(), 0);
    assert_eq!(q.sender().len(), 1);
    assert_eq!(q.pop_all().len(), 1);
    assert!(q.pop_all().is_empty());
}

#[test]
fn handles_stand_for_resources() {
    let mut counter = 1;
    let h = ResourceHandle::new(&mut counter);
    assert!(!h.is_null() && ResourceHandle::null().is_null());
    let mut store = OpaqueHandleStore::new();
    store.register(h, OpaqueResource::Kernel { name: "k".to_string() });
    assert!(matches!(store.get(h), Some(OpaqueResource::Kernel { name }) if name == "k"));
    assert!(resolve_buf(h.0, &store).is_none());
    assert!(store.remove(h).is_some());
    assert!(store.get(h).is_none());
}

#[test]
fn batches_stop_at_work_and_at_shutdown() {
    let mut ctx = GpuComputeContext::new(true).unwrap();
    let mut store = OpaqueHandleStore::new();
    let mut hma = HeterogeneousMemoryAllocator::with_device(SizedDevice);
    let mut ids = 100;
    let batch = vec![
        commit(),
        create(1, 10, 1),
        create(2, 20, 1),
        create(3, 30, 1),
        create(4, 1, 0),
        product(1, 2, 3),
        product(1, 2, 4),
        commit(),
        shutdown(),
        free(1),
    ];
    let (next, event) =
        process_batch_with_ctx(&batch, 0, &mut ctx, &mut store, &mut hma, &mut ids);
    assert_eq!(next, 8);
    assert!(matches!(event, BatchEvent::Submit(_)));
    assert_eq!(ids, 104);
    assert_eq!(resolve_buf(1, &store), Some(40));
    assert_eq!(resolve_buf(4, &store), None);
    assert!(matches!(
        store.get(ResourceHandle(2)),
        Some(OpaqueResource::Tensor { id: 101, byte_size: 80, device_handle: 80, .. })
    ));
    let (_, event) =
        process_batch_with_ctx(&batch, next, &mut ctx, &mut store, &mut hma, &mut ids);
    assert!(matches!(event, BatchEvent::Shutdown));
    let (end, event) = process_batch_with_ctx(&batch, 9, &mut ctx, &mut store, &mut hma, &mut ids);
    assert_eq!(end, 10);
    assert!(matches!(event, BatchEvent::Done));
}

#[test]
fn without_a_device_only_tensors_are_made() {
    let mut store = OpaqueHandleStore::new();
    let mut hma: HeterogeneousMemoryAllocator<SizedDevice> = HeterogeneousMemoryAllocator::new();
    let mut ids = 1;
    let batch = vec![create(1, 10, 1), product(1, 1, 1), commit(), shutdown(), create(2, 1, 1)];
    assert_eq!(process_batch_light(&batch, &mut store, &mut hma, &mut ids), 3);
    assert_eq!(ids, 2);
    assert!(store.get(ResourceHandle(1)).is_some());
    assert!(store.get(ResourceHandle(2)).is_none());
}

#[test]
fn codes_name_types_and_places() {
    assert_eq!(
        [0, 1, 2, 3, 9].map(decode_dtype),
        [DType::F32, DType::F16, DType::Q4K, DType::Q6K, DType::F32]
    );
    assert_eq!(
        [0, 1, 2, 9].map(decode_location),
        [
            MemoryLocation::HostPinned,
            MemoryLocation::DeviceLocal,
            MemoryLocation::UnifiedMapped,
            MemoryLocation::HostPinned,
        ]
    );
    assert_eq!(KernelType::Add.code(), 5);
    assert_eq!(CommandTag::Shutdown.code(), 7);
}

#[test]
fn readers_wait_for_writers() {
    let mut g = ComputeGraph::new();
    assert!(!g.can_submit());
    let w = ComputeNodeOp::GEMVQ4K { d_w: 1, d_x: 2, d_out: 3, n_rows: 4, n_blocks: 5 };
    let a = g.add_node(w, vec![]);
    let b = g.add_node(ComputeNodeOp::MemoryBarrier, vec![a]);
    assert_eq!((a, b, g.node_count()), (0, 1, 2));
    g.add_node(ComputeNodeOp::Add { d_a: 3, d_b: 3, d_out: 8, n: 1 }, vec![a]);
    let steps = g.build();
    assert!(steps.iter().any(|s| matches!(s, GraphStep::MemoryBarrier)));
    assert!(steps.iter().any(|s| matches!(s, GraphStep::BufferBarriers(v) if v == &vec![3])));
    g.reset();
    assert_eq!(g.node_count(), 0);
}

#[test]
fn work_is_submitted_once() {
    assert!(GpuComputeContext::new(false).is_none());
    let mut ctx = GpuComputeContext::new(true).unwrap();
    assert!(matches!(ctx.submit_and_wait(), Submission::Skipped));
    assert_eq!(ctx.add_gemv_q4k_node(1, 2, 3, 4, 5, vec![]), 0);
    assert_eq!(ctx.add_attention_node(1, 2, 3, 4, 5, 6, 7, 8, 9, 10, vec![0]), 1);
    assert_eq!(ctx.add_barrier(vec![1]), 2);
    assert!(matches!(ctx.submit_and_wait(), Submission::Run(_)));
    assert!(matches!(ctx.submit_and_wait(), Submission::Skipped));
    ctx.add_barrier(vec![]);
    ctx.reset_graph();
    assert!(matches!(ctx.submit_and_wait(), Submission::Skipped));
}

#[test]
fn programs_are_loaded_once() {
    let mut c = ShaderCache::new();
    assert_eq!(c.load_shader(ShaderType::Attention, None), None);
    assert_eq!(c.load_shader(ShaderType::Attention, Some(5)), Some(5));
    assert_eq!(c.load_shader(ShaderType::Attention, Some(6)), Some(5));
    assert_eq!(c.module(ShaderType::Attention), Some(5));
    assert_eq!(c.module(ShaderType::RoPE), None);
    assert_eq!(c.get_or_create_pipeline(ShaderType::Add, None), None);
    assert_eq!(c.get_or_create_pipeline(ShaderType::Add, Some((1, 2))), Some(1));
    assert_eq!(c.get_or_create_pipeline(ShaderType::Add, Some((3, 4))), Some(1));
    assert_eq!(c.pipeline(&ShaderType::Add), Some(1));
}

#[test]
fn device_buffers_have_sizes() {
    assert_eq!(find_memory_type(0b110, 0b01, &[0b01, 0b10, 0b11]), Some(2));
    assert_eq!(find_memory_type(0b001, 0b10, &[0b01, 0b10]), None);
    let s = scratch_sizes(10, 20, 4, 100, 8);
    assert_eq!((s.d_x, s.d_gate, s.d_q, s.d_scores), (40, 80, 128, 1600));
    assert_eq!(scratch_sizes(1, 1, 0, 9, 8).d_k, 32);
    assert_eq!(kv_buffer_bytes(4, 100, 8), 6400);
}

#[test]
fn slices_are_ready_one_by_one() {
    let mut b = StagingBuffer::new(2, 3);
    assert_eq!((b.num_slices(), b.slice_size()), (2, 3));
    b.write(1, 2, 42);
    assert_eq!(b.slice_data(1), &[0, 0, 42]);
    b.mark_ready(0);
    assert!(!b.all_ready());
    b.mark_ready(1);
    assert!(b.all_ready());
    b.reset_all();
    assert!(!b.all_ready());
}

#[test]
fn policies_are_kept_in_bounds() {
    assert_eq!(adapt_threads(PolicyReply::Value(0), 3), 1);
    assert_eq!(adapt_threads(PolicyReply::Value(5), 3), 5);
    assert_eq!(adapt_threads(PolicyReply::Value(70), 3), 6);
    assert_eq!(adapt_threads(PolicyReply::Missing, 3), 3);
    assert_eq!(adapt_threads(PolicyReply::Failed, 3), 3);
    assert!(should_skip_layer(PolicyReply::Value(true)));
    assert!(!should_skip_layer(PolicyReply::Value(false)));
    assert!(!should_skip_layer(PolicyReply::Failed));
    assert_eq!(suggested_batch_size(PolicyReply::Value(1)), 8);
    assert_eq!(suggested_batch_size(PolicyReply::Value(100)), 100);
    assert_eq!(suggested_batch_size(PolicyReply::Value(i64::MAX)), 2048);
    assert_eq!(suggested_batch_size(PolicyReply::Missing), 512);
    assert!(reload_due(true, Some(5), 4));
    assert!(!reload_due(true, Some(4), 4));
    assert!(!reload_due(false, Some(5), 4));
    assert!(!reload_due(true, None, 4));
}

#[test]
fn scripts_make_commands() {
    assert_eq!(parse_dtype(b"f16"), DType::F16);
    assert_eq!(parse_dtype(b"q4k"), DType::Q4K);
    assert_eq!(parse_dtype(b"q6k"), DType::Q6K);
    assert_eq!(parse_dtype(b"other"), DType::F32);
    match create_command(&[1, 2, 3, 4, 5], b"q6k", ResourceHandle(8)) {
        Command::TensorCreate(c) => {
            assert_eq!((c.tag, c.id, c.ndim, c.dtype), (1, 8, 5, 3));
            assert_eq!(c.dims, [1, 2, 3, 4]);
        }
        _ => panic!("not a creation"),
    }
    match commit_command(3, 4) {
        Command::Commit(c) => assert_eq!((c.tag, c.frame_id, c.timestamp), (6, 3, 4)),
        _ => panic!("not a commit"),
    }
}

#[test]
fn no_vendor_device_is_there() {
    assert!(gpu_available(true) && !gpu_available(false));
    assert!(matches!(gpu_init(), Err(GpuError::NotAvailable(_))));
    assert!(gpu_sync().is_err());
    assert!(gpu_stream_create().is_err());
    assert!(gpu_stream_destroy(CudaStream(1)).is_err());
    assert!(gpu_stream_synchronize(CudaStream(1)).is_err());
    assert!(gpu_event_create().is_err());
    assert!(gpu_event_destroy(CudaEvent(1)).is_err());
    assert!(gpu_event_record(CudaEvent(1), 0).is_err());
    assert!(gpu_event_synchronize(CudaEvent(1)).is_err());
    assert!(gpu_free_weights(0).is_err());
}

#[test]
fn empty_extents_leave_nothing_to_count() {
    let big = 1usize << 40;
    let mut ids = 1;
    let t = TensorHandle::new(&mut ids, MemoryLocation::HostPinned, DType::F32, vec![big, big, 0]);
    assert_eq!(t.strides, vec![0, 0, 1]);
    assert_eq!((t.element_count(), t.byte_size()), (0, 0));
    assert_eq!(compute_strides(&[big, big, 0]), vec![0, 0, 1]);
}

#[test]
fn host_grants_are_aligned() {
    let mut h: HeterogeneousMemoryAllocator<SizedDevice> = HeterogeneousMemoryAllocator::new();
    assert_eq!(h.host.block_size, 16 * 1024 * 1024);
    for size in [1, 63, 64, 65, 1000, 3, 1 << 25, 5] {
        let g = h.host.allocate(size);
        assert_eq!(g.offset % 64, 0);
        assert!(g.size >= size);
    }
    assert_eq!(HeterogeneousMemoryAllocator::with_device(SizedDevice).host.block_size, 16777216);
}

#[test]
fn every_operation_is_waited_for() {
    let barriers = |op: ComputeNodeOp| {
        let mut g = ComputeGraph::new();
        let a = g.add_node(op, vec![]);
        g.add_node(ComputeNodeOp::Add { d_a: 1, d_b: 2, d_out: 3, n: 1 }, vec![a]);
        let mut waited = Vec::new();
        for step in g.build() {
            if let GraphStep::BufferBarriers(b) = step {
                waited.extend(b);
            }
        }
        waited
    };
    let rope =
        ComputeNodeOp::RoPE { d_q: 4, d_k: 5, pos: 0, head_dim: 64, n_heads: 1, n_kv_heads: 1 };
    assert_eq!(barriers(rope), vec![4, 5]);
    assert_eq!(barriers(ComputeNodeOp::SiLUMul { d_gate: 6, d_up: 7, d_out: 8, n: 1 }), vec![8]);
    assert_eq!(barriers(ComputeNodeOp::Add { d_a: 9, d_b: 10, d_out: 11, n: 1 }), vec![11]);
    assert_eq!(
        barriers(ComputeNodeOp::RMSNorm { d_x: 1, d_w: 2, d_out: 12, n: 1, eps: 0 }),
        vec![12]
    );
    assert_eq!(barriers(ComputeNodeOp::Add { d_a: 9, d_b: 10, d_out: 0, n: 1 }), vec![]);
}

#[test]
fn batches_take_their_memory_in_order() {
    let mut store = OpaqueHandleStore::new();
    let mut hma = HeterogeneousMemoryAllocator::with_device(SizedDevice);
    let mut ids = 1;
    let batch = vec![create(1, 10, 0), create(2, 40, 1), create(3, 100, 0)];
    assert_eq!(process_batch_light(&batch, &mut store, &mut hma, &mut ids), 3);
    assert_eq!(hma.host.blocks, vec![16777216]);
    assert_eq!(hma.host.bump_offset, 64 + 512);
    assert_eq!(resolve_buf(2, &store), Some(160));
    assert_eq!(resolve_buf(1, &store), None);
}
