//! The dispatcher: model steps of many sessions, each sent where it runs.

use crate::cache::{
    empty_cache, first_zone_page_bytes, page_limit, slot_count, PagedKVCache,
};
use crate::forward::{walk_start, LayerWalk, WalkOptions};
use crate::governor::{
    law_session_is_found, session_place, session_views, CognitiveToken, CognitiveWorkerPool, ResourceGovernor, SessionId,
    WorkloadClass,
};
use crate::layout::Shape;
use crate::model::{group_views, LayerGroup};
use crate::model_registry::MemoryTier;
use crate::step_ring::{open_ring, queued, receive, send, StepRing};
use vstd::prelude::*;

verus! {

/// Supporting models that may run at once.
pub const COGNITIVE_THREADS: usize = 12;

/// The least sequence a session has room for.
pub const MIN_SEQ_LEN: usize = 2048;

#[derive(Debug, Clone, Copy, PartialEq, Eq, Structural)]
pub enum StepType {
    PrefillChunk,
    DecodeToken,
}

/// One step of a model for a session.
#[derive(Debug, Clone, Copy, PartialEq, Eq, Structural)]
pub struct ModelStepOpcode {
    pub session_id: SessionId,
    /// The generation of the session when the step was asked for.
    pub generation: u64,
    pub model_id: u32,
    pub step_type: StepType,
    pub workload_class: WorkloadClass,
    pub token_id: u32,
    pub pos: u32,
}

#[derive(Debug, Clone, Copy, PartialEq, Eq, Structural)]
pub struct VmStats {
    pub total_ops: u64,
    pub gpu_ops: u64,
    pub cpu_ops: u64,
    pub cognitive_ops: u64,
    pub stale_dropped: u64,
}

impl Default for VmStats {
    fn default() -> (s: Self)
        ensures
            s == (VmStats {
                total_ops: 0,
                gpu_ops: 0,
                cpu_ops: 0,
                cognitive_ops: 0,
                stale_dropped: 0,
            }),
    {
        VmStats { total_ops: 0, gpu_ops: 0, cpu_ops: 0, cognitive_ops: 0, stale_dropped: 0 }
    }
}

impl VmStats {
    /// No step is counted under two heads.
    pub open spec fn wf(&self) -> bool {
        self.gpu_ops + self.cpu_ops + self.cognitive_ops + self.stale_dropped <= self.total_ops
    }
}

/// What the dispatcher knows of a model.
#[derive(Debug)]
pub struct ModelSlot {
    pub model_name: String,
    pub model_size: usize,
    pub tier: MemoryTier,
    /// The device is set up for the model.
    pub has_device_state: bool,
}

/// A model goes to the device if it is large enough, lies there, and the device
/// is set up for it.
pub open spec fn runs_on_device(m: ModelSlot, threshold: u64) -> bool {
    m.model_size >= threshold && m.tier == MemoryTier::Vram && m.has_device_state
}

impl ModelSlot {
    pub fn can_route_to_gpu(&self, threshold: u64) -> (b: bool)
        ensures
            b == runs_on_device(*self, threshold),
    {
        self.model_size as u64 >= threshold && self.tier == MemoryTier::Vram
            && self.has_device_state
    }
}

/// Where a step goes.
pub enum Route {
    /// The session is gone or has moved on.
    Stale,
    UnknownModel,
    /// A supporting model, with a share of the pool if one was free.
    Cognitive(Option<CognitiveToken>),
    Device,
    Host,
}

/// The step is of an earlier generation of its session, or of none.
pub open spec fn is_outdated(op: ModelStepOpcode, g: &ResourceGovernor) -> bool {
    match session_place(session_views(g.sessions@), op.session_id, 0) {
        Some(i) => g.sessions@[i].generation != op.generation,
        None => true,
    }
}

/// The queue takes no more steps.
#[derive(Debug, Clone, Copy, PartialEq, Eq, Structural)]
pub struct RingClosed;

pub struct SwampVm {
    pub ring: StepRing,
    pub models: Vec<ModelSlot>,
    pub cognitive_pool: CognitiveWorkerPool,
    pub stats: VmStats,
}

impl SwampVm {
    pub open spec fn wf(&self) -> bool {
        &&& self.cognitive_pool.wf()
        &&& self.stats.wf()
    }

    pub fn new() -> (vm: Self)
        ensures
            vm.wf(),
            queued(vm.ring) == Seq::<ModelStepOpcode>::empty(),
            vm.models@.len() == 0,
            vm.cognitive_pool.limit() == COGNITIVE_THREADS,
            vm.cognitive_pool.running() == 0,
            vm.stats == (VmStats {
                total_ops: 0,
                gpu_ops: 0,
                cpu_ops: 0,
                cognitive_ops: 0,
                stale_dropped: 0,
            }),
    {
        SwampVm {
            ring: open_ring(),
            models: Vec::new(),
            cognitive_pool: CognitiveWorkerPool::new(COGNITIVE_THREADS),
            stats: VmStats::default(),
        }
    }

    /// Adds a model; its number is its place.
    pub fn register_model(&mut self, name: &str, model_size: usize, tier: MemoryTier)
        requires
            old(self).wf(),
        ensures
            final(self).wf(),
            final(self).models@.len() == old(self).models@.len() + 1,
            final(self).models@.drop_last() == old(self).models@,
            final(self).models@.last().model_name@ == name@,
            final(self).models@.last().model_size == model_size,
            final(self).models@.last().tier == tier,
            !final(self).models@.last().has_device_state,
            final(self).ring == old(self).ring,
            final(self).cognitive_pool == old(self).cognitive_pool,
            final(self).stats == old(self).stats,
    {
        self.models.push(
            ModelSlot { model_name: name.to_owned(), model_size, tier, has_device_state: false },
        );
        assert(self.models@.drop_last() =~= old(self).models@);
    }

    /// Queues a step; the queue takes all of them.
    pub fn enqueue(&mut self, op: ModelStepOpcode) -> (r: Result<(), RingClosed>)
        requires
            old(self).wf(),
        ensures
            final(self).wf(),
            r is Ok,
            queued(final(self).ring) == queued(old(self).ring).push(op),
            final(self).models == old(self).models,
            final(self).cognitive_pool == old(self).cognitive_pool,
            final(self).stats == old(self).stats,
    {
        if send(&mut self.ring, op) {
            Ok(())
        } else {
            Err(RingClosed)
        }
    }

    /// Takes the oldest step.
    pub fn next_op(&mut self) -> (r: Option<ModelStepOpcode>)
        requires
            old(self).wf(),
        ensures
            final(self).wf(),
            match r {
                Some(op) => {
                    &&& queued(old(self).ring).len() > 0
                    &&& op == queued(old(self).ring)[0]
                    &&& queued(final(self).ring) == queued(old(self).ring).drop_first()
                },
                None => {
                    &&& queued(old(self).ring).len() == 0
                    &&& queued(final(self).ring) == queued(old(self).ring)
                },
            },
            final(self).models == old(self).models,
            final(self).cognitive_pool == old(self).cognitive_pool,
            final(self).stats == old(self).stats,
    {
        receive(&mut self.ring)
    }

    /// Decides where a step goes and counts it.
    pub fn dispatch(&mut self, op: &ModelStepOpcode, governor: &ResourceGovernor) -> (r: Route)
        requires
            old(self).wf(),
            old(self).stats.total_ops < u64::MAX,
        ensures
            final(self).wf(),
            final(self).ring == old(self).ring,
            final(self).models == old(self).models,
            ({
                let s = old(self).stats;
                let counted = VmStats { total_ops: (s.total_ops + 1) as u64, ..s };
                let known = (op.model_id as int) < old(self).models@.len();
                if is_outdated(*op, governor) {
                    &&& r is Stale
                    &&& final(self).stats == (VmStats {
                        stale_dropped: (s.stale_dropped + 1) as u64,
                        ..counted
                    })
                    &&& final(self).cognitive_pool == old(self).cognitive_pool
                } else if !known {
                    &&& r is UnknownModel
                    &&& final(self).stats == counted
                    &&& final(self).cognitive_pool == old(self).cognitive_pool
                } else if op.workload_class is Cognitive {
                    &&& r is Cognitive
                    &&& r->Cognitive_0 is Some <==> old(self).cognitive_pool.running() < old(self).cognitive_pool.limit()
                    &&& final(self).cognitive_pool.running() == old(self).cognitive_pool.running()
                        + (if r->Cognitive_0 is Some {
                        1int
                    } else {
                        0int
                    })
                    &&& final(self).cognitive_pool.limit() == old(self).cognitive_pool.limit()
                    &&& final(self).stats == (VmStats {
                        cognitive_ops: (s.cognitive_ops + 1) as u64,
                        ..counted
                    })
                } else if runs_on_device(
                    old(self).models@[op.model_id as int],
                    governor.flags.gpu_model_threshold,
                ) {
                    &&& r is Device
                    &&& final(self).stats == (VmStats {
                        gpu_ops: (s.gpu_ops + 1) as u64,
                        ..counted
                    })
                    &&& final(self).cognitive_pool == old(self).cognitive_pool
                } else {
                    &&& r is Host
                    &&& final(self).stats == (VmStats {
                        cpu_ops: (s.cpu_ops + 1) as u64,
                        ..counted
                    })
                    &&& final(self).cognitive_pool == old(self).cognitive_pool
                }
            }),
    {
        self.stats.total_ops = self.stats.total_ops + 1;
        if governor.is_stale_generation(op.session_id, op.generation) {
            self.stats.stale_dropped = self.stats.stale_dropped + 1;
            return Route::Stale;
        }
        let slot_idx: usize = op.model_id as usize;
        if slot_idx >= self.models.len() {
            return Route::UnknownModel;
        }
        match op.workload_class {
            WorkloadClass::Cognitive => {
                self.stats.cognitive_ops = self.stats.cognitive_ops + 1;
                Route::Cognitive(self.cognitive_pool.try_acquire())
            },
            _ => {
                if self.models[slot_idx].can_route_to_gpu(governor.flags.gpu_model_threshold) {
                    self.stats.gpu_ops = self.stats.gpu_ops + 1;
                    Route::Device
                } else {
                    self.stats.cpu_ops = self.stats.cpu_ops + 1;
                    Route::Host
                }
            },
        }
    }

    /// Notes whether the device is set up for a model.
    pub fn set_device_state(&mut self, model: usize, ready: bool)
        requires
            old(self).wf(),
            model < old(self).models@.len(),
        ensures
            final(self).wf(),
            final(self).models@ == old(self).models@.update(
                model as int,
                ModelSlot { has_device_state: ready, ..old(self).models@[model as int] },
            ),
            final(self).ring == old(self).ring,
            final(self).cognitive_pool == old(self).cognitive_pool,
            final(self).stats == old(self).stats,
    {
        self.models[model].has_device_state = ready;
    }

    /// A step's way through the layers on the processor.
    pub fn execute_cpu(groups: Vec<LayerGroup>, num_layers: usize) -> (w: LayerWalk)
        requires
            forall|i: int|
                0 <= i < group_views(groups@).len() ==> (#[trigger] group_views(groups@)[i]).len()
                    > 0,
        ensures
            w@.wf(),
            w@ == walk_start(
                (WalkOptions { device: false, device_attention: false, managed: false }),
                group_views(groups@),
                num_layers as int,
            ),
    {
        LayerWalk::new(
            WalkOptions { device: false, device_attention: false, managed: false },
            groups,
            num_layers,
        )
    }

    /// A step's way through the layers with the device; on the processor alone if
    /// the device is not set up for the model.
    pub fn execute_gpu(&self, model: usize, groups: Vec<LayerGroup>, num_layers: usize) -> (w:
        LayerWalk)
        requires
            model < self.models@.len(),
            forall|i: int|
                0 <= i < group_views(groups@).len() ==> (#[trigger] group_views(groups@)[i]).len()
                    > 0,
        ensures
            w@.wf(),
            w@ == walk_start(
                (WalkOptions {
                    device: self.models@[model as int].has_device_state,
                    device_attention: self.models@[model as int].has_device_state,
                    managed: false,
                }),
                group_views(groups@),
                num_layers as int,
            ),
    {
        if !self.models[model].has_device_state {
            return Self::execute_cpu(groups, num_layers);
        }
        LayerWalk::new(
            WalkOptions { device: true, device_attention: true, managed: false },
            groups,
            num_layers,
        )
    }

    pub fn stats(&self) -> (s: &VmStats)
        ensures
            *s == self.stats,
    {
        &self.stats
    }

    pub fn reset_stats(&mut self)
        requires
            old(self).wf(),
        ensures
            final(self).wf(),
            final(self).stats == (VmStats {
                total_ops: 0,
                gpu_ops: 0,
                cpu_ops: 0,
                cognitive_ops: 0,
                stale_dropped: 0,
            }),
            final(self).ring == old(self).ring,
            final(self).models == old(self).models,
            final(self).cognitive_pool == old(self).cognitive_pool,
    {
        self.stats = VmStats::default();
    }
}

/// The extents of a session's buffers.
#[derive(Debug, Clone, Copy, PartialEq, Eq, Structural)]
pub struct SessionShape {
    pub embed_dim: usize,
    pub num_heads: usize,
    pub num_kv_heads: usize,
    pub head_dim: usize,
    pub ffn_dim: usize,
    pub num_layers: usize,
    pub vocab_size: usize,
    pub context_len: usize,
}

/// A session's buffers, singles as bit patterns, and its cache.
pub struct SessionContext {
    pub shape: SessionShape,
    pub max_seq_len: usize,
    pub x: Vec<u32>,
    pub x_norm: Vec<u32>,
    pub q: Vec<u32>,
    pub k: Vec<u32>,
    pub v: Vec<u32>,
    pub attn_out: Vec<u32>,
    pub wo_out: Vec<u32>,
    pub ffn_gate: Vec<u32>,
    pub ffn_up: Vec<u32>,
    pub ffn_down: Vec<u32>,
    pub logits: Vec<u32>,
    pub kv_cache: PagedKVCache,
}

pub open spec fn zeros(n: int) -> Seq<u32> {
    Seq::new(n as nat, |i: int| 0u32)
}

fn zeroed(n: usize) -> (r: Vec<u32>)
    ensures
        r@ == zeros(n as int),
{
    let mut r: Vec<u32> = Vec::new();
    let mut i: usize = 0;
    while i < n
        invariant
            i <= n,
            r@ == zeros(i as int),
        decreases n - i,
    {
        r.push(0);
        assert(r@ =~= zeros(i + 1));
        i = i + 1;
    }
    r
}

impl SessionContext {
    /// Buffers of zeros, and an empty cache with room for the context and the given
    /// limits: memory in megabytes and cold slots.
    pub fn new(shape: SessionShape, ram_mb: Option<usize>, cold_pages: Option<usize>) -> (c: Self)
        requires
            shape.num_heads * shape.head_dim <= usize::MAX,
            shape.num_kv_heads * shape.head_dim <= usize::MAX,
            (Shape {
                num_layers: shape.num_layers,
                num_kv_heads: shape.num_kv_heads,
                head_dim: shape.head_dim,
            }).fits(1024),
            ram_mb matches Some(mb) ==> {
                &&& mb * 1048576 <= usize::MAX
                &&& first_zone_page_bytes(
                    Shape {
                        num_layers: shape.num_layers,
                        num_kv_heads: shape.num_kv_heads,
                        head_dim: shape.head_dim,
                    },
                ) > 0
            },
        ensures
            c.shape == shape,
            c.max_seq_len == (if shape.context_len < MIN_SEQ_LEN {
                MIN_SEQ_LEN
            } else {
                shape.context_len
            }),
            c.x@ == zeros(shape.embed_dim as int),
            c.x_norm@ == zeros(shape.embed_dim as int),
            c.q@ == zeros(shape.num_heads * shape.head_dim),
            c.k@ == zeros(shape.num_kv_heads * shape.head_dim),
            c.v@ == zeros(shape.num_kv_heads * shape.head_dim),
            c.attn_out@ == zeros(shape.embed_dim as int),
            c.wo_out@ == zeros(shape.embed_dim as int),
            c.ffn_gate@ == zeros(shape.ffn_dim as int),
            c.ffn_up@ == zeros(shape.ffn_dim as int),
            c.ffn_down@ == zeros(shape.embed_dim as int),
            c.logits@ == zeros(shape.vocab_size as int),
            c.kv_cache.wf(),
            ({
                let pages = Shape {
                    num_layers: shape.num_layers,
                    num_kv_heads: shape.num_kv_heads,
                    head_dim: shape.head_dim,
                };
                let limit = page_limit(pages, ram_mb);
                c.kv_cache@ == empty_cache(
                    pages,
                    limit,
                    slot_count(c.max_seq_len as int, limit, cold_pages),
                    c.max_seq_len as int,
                )
            }),
    {
        let max_seq_len: usize = if shape.context_len < MIN_SEQ_LEN {
            MIN_SEQ_LEN
        } else {
            shape.context_len
        };
        SessionContext {
            shape,
            max_seq_len,
            x: zeroed(shape.embed_dim),
            x_norm: zeroed(shape.embed_dim),
            q: zeroed(shape.num_heads * shape.head_dim),
            k: zeroed(shape.num_kv_heads * shape.head_dim),
            v: zeroed(shape.num_kv_heads * shape.head_dim),
            attn_out: zeroed(shape.embed_dim),
            wo_out: zeroed(shape.embed_dim),
            ffn_gate: zeroed(shape.ffn_dim),
            ffn_up: zeroed(shape.ffn_dim),
            ffn_down: zeroed(shape.embed_dim),
            logits: zeroed(shape.vocab_size),
            kv_cache: PagedKVCache::with_block_size(
                shape.num_layers,
                shape.num_kv_heads,
                max_seq_len,
                shape.head_dim,
                32,
                ram_mb,
                cold_pages,
            ),
        }
    }
}

/// Where a token's embedding starts and ends in the table; nothing if it is not
/// in the table.
pub fn embedding_range(token: usize, embed_dim: usize, table_len: usize) -> (r: Option<
    (usize, usize),
>)
    ensures
        r is Some <==> (token + 1) * embed_dim <= table_len,
        r matches Some(p) ==> p.0 == token * embed_dim && p.1 == (token + 1) * embed_dim,
{
    if embed_dim == 0 {
        assert((token + 1) * 0 == 0 && token * 0 == 0) by (nonlinear_arith);
        return Some((0, 0));
    }
    let rows: usize = table_len / embed_dim;
    proof {
        vstd::arithmetic::div_mod::lemma_fundamental_div_mod(table_len as int, embed_dim as int);
        let d = embed_dim as int;
        let m = table_len as int % d;
        assert((token + 1) * d <= table_len <==> token + 1 <= rows) by (nonlinear_arith)
            requires
                table_len == d * rows + m,
                0 <= m < d,
        ;
        assert(0 <= token * d <= (token + 1) * d) by (nonlinear_arith)
            requires
                token >= 0,
                d >= 0,
        ;
    }
    if token < rows {
        Some((token * embed_dim, (token + 1) * embed_dim))
    } else {
        None
    }
}

/// The queue after `n` steps were taken.
pub open spec fn after_takes(q: Seq<ModelStepOpcode>, n: int) -> Seq<ModelStepOpcode>
    decreases n,
{
    if n <= 0 {
        q
    } else {
        after_takes(q, n - 1).drop_first()
    }
}

/// Steps leave in the order in which they were queued: behind `i` others, a step is
/// the next to be taken after `i` takes.
pub proof fn law_steps_leave_in_order(q: Seq<ModelStepOpcode>, i: int)
    requires
        0 <= i < q.len(),
    ensures
        after_takes(q, i).len() == q.len() - i,
        after_takes(q, i)[0] == q[i],
{
    lemma_after_takes(q, i);
}

proof fn lemma_after_takes(q: Seq<ModelStepOpcode>, i: int)
    requires
        0 <= i <= q.len(),
    ensures
        after_takes(q, i) == q.skip(i),
    decreases i,
{
    if i > 0 {
        lemma_after_takes(q, i - 1);
        assert(q.skip(i - 1).drop_first() =~= q.skip(i));
    } else {
        assert(q.skip(0) =~= q);
    }
}

/// A step is outdated exactly if its session is gone or has moved to another generation.
pub proof fn law_steps_belong_to_a_generation(op: ModelStepOpcode, g: ResourceGovernor, k: int)
    requires
        0 <= k < g.sessions@.len(),
        g.sessions@[k]@.id == op.session_id,
        forall|j: int| 0 <= j < k ==> (#[trigger] g.sessions@[j])@.id != op.session_id,
    ensures
        is_outdated(op, &g) <==> g.sessions@[k].generation != op.generation,
{
    let views = session_views(g.sessions@);
    law_session_is_found(views, op.session_id, 0, k);
    let p = session_place(views, op.session_id, 0)->0;
    if p < k {
        assert(g.sessions@[p]@.id != op.session_id);
    }
}

/// Steps of sessions that are gone are outdated.
pub proof fn law_steps_of_lost_sessions_are_outdated(op: ModelStepOpcode, g: ResourceGovernor)
    requires
        forall|j: int| 0 <= j < g.sessions@.len() ==> (#[trigger] g.sessions@[j])@.id
            != op.session_id,
    ensures
        is_outdated(op, &g),
{
    let views = session_views(g.sessions@);
    if views.len() > 0 {
        law_session_is_found(views, op.session_id, 0, 0);
        if let Some(p) = session_place(views, op.session_id, 0) {
            assert(g.sessions@[p]@.id != op.session_id);
        }
    }
}

/// Only a model that lies on the device, is set up there and is no smaller than the
/// threshold runs there.
pub proof fn law_device_takes_large_models_in_place(m: ModelSlot, threshold: u64)
    ensures
        runs_on_device(m, threshold) ==> m.model_size >= threshold && m.tier is Vram
            && m.has_device_state,
        !runs_on_device(m, threshold) ==> m.model_size < threshold || !(m.tier is Vram)
            || !m.has_device_state,
{
}

/// Buffers start out as so many zeros.
pub proof fn law_buffers_start_as_zeros(n: int, i: int)
    requires
        0 <= i < n,
    ensures
        zeros(n).len() == n,
        zeros(n)[i] == 0,
{
}

} // verus!
