//! Device operations and the barriers between them.

use vstd::prelude::*;

verus! {

/// A device operation over buffers, by handle.
#[derive(Debug, Clone, Copy)]
pub enum ComputeNodeOp {
    GEMVQ4K { d_w: u64, d_x: u64, d_out: u64, n_rows: u32, n_blocks: u32 },
    Attention {
        d_q: u64,
        d_k: u64,
        d_v: u64,
        d_scores: u64,
        d_out: u64,
        n_heads: u32,
        n_kv_heads: u32,
        seq_len: u32,
        head_dim: u32,
        kv_stride: u32,
    },
    /// The epsilon is a bit pattern.
    RMSNorm { d_x: u64, d_w: u64, d_out: u64, n: u32, eps: u32 },
    RoPE { d_q: u64, d_k: u64, pos: u32, head_dim: u32, n_heads: u32, n_kv_heads: u32 },
    SiLUMul { d_gate: u64, d_up: u64, d_out: u64, n: u32 },
    Add { d_a: u64, d_b: u64, d_out: u64, n: u32 },
    MemoryBarrier,
}

#[derive(Debug)]
pub struct ComputeNode {
    pub op: ComputeNodeOp,
    pub dependencies: Vec<usize>,
}

/// A node as the contracts see it.
#[verifier::ext_equal]
pub struct NodeView {
    pub op: ComputeNodeOp,
    pub dependencies: Seq<usize>,
}

impl View for ComputeNode {
    type V = NodeView;

    open spec fn view(&self) -> NodeView {
        NodeView { op: self.op, dependencies: self.dependencies@ }
    }
}

/// What is recorded for a graph.
#[derive(Debug)]
pub enum GraphStep {
    /// Writes of these buffers come before later reads.
    BufferBarriers(Vec<u64>),
    /// All writes come before later reads.
    MemoryBarrier,
}

/// A recorded step as the contracts see it.
#[verifier::ext_equal]
pub enum StepView {
    BufferBarriers(Seq<u64>),
    MemoryBarrier,
}

impl View for GraphStep {
    type V = StepView;

    open spec fn view(&self) -> StepView {
        match self {
            GraphStep::BufferBarriers(b) => StepView::BufferBarriers(b@),
            GraphStep::MemoryBarrier => StepView::MemoryBarrier,
        }
    }
}

/// A buffer where the handle stands for one.
pub open spec fn buffer_or_none(handle: u64) -> Seq<u64> {
    if handle == 0 {
        Seq::empty()
    } else {
        seq![handle]
    }
}

/// The buffers that an operation writes its results to; a rotation changes
/// queries and keys in place.
pub open spec fn written_buffers(op: ComputeNodeOp) -> Seq<u64> {
    match op {
        ComputeNodeOp::GEMVQ4K { d_w, d_x, d_out, n_rows, n_blocks } => buffer_or_none(d_out),
        ComputeNodeOp::Attention {
            d_q,
            d_k,
            d_v,
            d_scores,
            d_out,
            n_heads,
            n_kv_heads,
            seq_len,
            head_dim,
            kv_stride,
        } => buffer_or_none(d_out),
        ComputeNodeOp::RMSNorm { d_x, d_w, d_out, n, eps } => buffer_or_none(d_out),
        ComputeNodeOp::RoPE { d_q, d_k, pos, head_dim, n_heads, n_kv_heads } => buffer_or_none(d_q)
            + buffer_or_none(d_k),
        ComputeNodeOp::SiLUMul { d_gate, d_up, d_out, n } => buffer_or_none(d_out),
        ComputeNodeOp::Add { d_a, d_b, d_out, n } => buffer_or_none(d_out),
        ComputeNodeOp::MemoryBarrier => Seq::empty(),
    }
}

/// The buffers that the first `n` dependencies make a node wait for.
pub open spec fn barriers(nodes: Seq<NodeView>, deps: Seq<usize>, n: int) -> Seq<u64>
    decreases n,
{
    if n <= 0 {
        Seq::empty()
    } else {
        let before = barriers(nodes, deps, n - 1);
        let d = deps[n - 1] as int;
        if d < nodes.len() {
            before + written_buffers(nodes[d].op)
        } else {
            before
        }
    }
}

/// What is recorded for one node.
pub open spec fn node_steps(nodes: Seq<NodeView>, i: int) -> Seq<StepView> {
    let b = barriers(nodes, nodes[i].dependencies, nodes[i].dependencies.len() as int);
    let waits = if b.len() > 0 {
        seq![StepView::BufferBarriers(b)]
    } else {
        Seq::empty()
    };
    if nodes[i].op is MemoryBarrier {
        waits.push(StepView::MemoryBarrier)
    } else {
        waits
    }
}

/// What is recorded for the first `n` nodes.
pub open spec fn graph_steps(nodes: Seq<NodeView>, n: int) -> Seq<StepView>
    decreases n,
{
    if n <= 0 {
        Seq::empty()
    } else {
        graph_steps(nodes, n - 1) + node_steps(nodes, n - 1)
    }
}

/// Recorded steps, by view.
pub open spec fn step_views(steps: Seq<GraphStep>) -> Seq<StepView> {
    Seq::new(steps.len(), |i: int| steps[i]@)
}

/// Operations in order, with what each waits for.
pub struct ComputeGraph {
    nodes: Vec<ComputeNode>,
    built: bool,
}

impl View for ComputeGraph {
    type V = Seq<NodeView>;

    closed spec fn view(&self) -> Seq<NodeView> {
        Seq::new(self.nodes@.len(), |i: int| self.nodes@[i]@)
    }
}

fn push_buffer(to: &mut Vec<u64>, handle: u64)
    ensures
        final(to)@ == old(to)@ + buffer_or_none(handle),
{
    if handle != 0 {
        to.push(handle);
        assert(to@ =~= old(to)@ + buffer_or_none(handle));
    } else {
        assert(to@ =~= old(to)@ + buffer_or_none(handle));
    }
}

fn push_written(to: &mut Vec<u64>, op: &ComputeNodeOp)
    ensures
        final(to)@ == old(to)@ + written_buffers(*op),
{
    match op {
        ComputeNodeOp::GEMVQ4K { d_out, .. } => push_buffer(to, *d_out),
        ComputeNodeOp::Attention { d_out, .. } => push_buffer(to, *d_out),
        ComputeNodeOp::RMSNorm { d_out, .. } => push_buffer(to, *d_out),
        ComputeNodeOp::RoPE { d_q, d_k, .. } => {
            push_buffer(to, *d_q);
            push_buffer(to, *d_k);
        },
        ComputeNodeOp::SiLUMul { d_out, .. } => push_buffer(to, *d_out),
        ComputeNodeOp::Add { d_out, .. } => push_buffer(to, *d_out),
        ComputeNodeOp::MemoryBarrier => {},
    }
    assert(to@ =~= old(to)@ + written_buffers(*op));
}

impl ComputeGraph {
    /// The graph has been recorded since it was last emptied.
    pub closed spec fn is_built(&self) -> bool {
        self.built
    }

    pub fn new() -> (g: Self)
        ensures
            g@ == Seq::<NodeView>::empty(),
            !g.is_built(),
    {
        let g = ComputeGraph { nodes: Vec::new(), built: false };
        assert(g@ =~= Seq::<NodeView>::empty());
        g
    }

    /// Appends an operation and returns its number.
    pub fn add_node(&mut self, op: ComputeNodeOp, dependencies: Vec<usize>) -> (idx: usize)
        ensures
            idx == old(self)@.len(),
            final(self)@ == old(self)@.push(NodeView { op, dependencies: dependencies@ }),
            final(self).is_built() == old(self).is_built(),
    {
        let ghost before = self@;
        let idx: usize = self.nodes.len();
        self.nodes.push(ComputeNode { op, dependencies });
        assert(self@ =~= before.push(NodeView { op, dependencies: dependencies@ }));
        idx
    }

    pub fn node_count(&self) -> (n: usize)
        ensures
            n == self@.len(),
    {
        self.nodes.len()
    }

    /// Records the graph: before each node the barriers that its
    /// dependencies ask for, then the node's own barrier if it is one.
    pub fn build(&mut self) -> (steps: Vec<GraphStep>)
        ensures
            step_views(steps@) == graph_steps(old(self)@, old(self)@.len() as int),
            final(self)@ == old(self)@,
            final(self).is_built(),
    {
        let ghost nodes = self@;
        let mut steps: Vec<GraphStep> = Vec::new();
        assert(step_views(steps@) =~= graph_steps(nodes, 0));
        let mut i: usize = 0;
        while i < self.nodes.len()
            invariant
                i <= self.nodes@.len(),
                nodes == self@,
                step_views(steps@) == graph_steps(nodes, i as int),
            decreases self.nodes@.len() - i,
        {
            let ghost before = steps@;
            let waits = self.node_barriers(i);
            if waits.len() > 0 {
                steps.push(GraphStep::BufferBarriers(waits));
            }
            if let ComputeNodeOp::MemoryBarrier = &self.nodes[i].op {
                steps.push(GraphStep::MemoryBarrier);
            }
            assert(nodes[i as int] == self.nodes@[i as int]@);
            assert(step_views(steps@) =~= step_views(before) + node_steps(nodes, i as int));
            i = i + 1;
        }
        self.built = true;
        assert(self@ =~= nodes);
        steps
    }

    fn node_barriers(&self, i: usize) -> (r: Vec<u64>)
        requires
            i < self@.len(),
        ensures
            r@ == barriers(
                self@,
                self@[i as int].dependencies,
                self@[i as int].dependencies.len() as int,
            ),
    {
        let ghost nodes = self@;
        let ghost deps = self@[i as int].dependencies;
        let mut r: Vec<u64> = Vec::new();
        let mut k: usize = 0;
        assert(nodes[i as int] == self.nodes@[i as int]@);
        while k < self.nodes[i].dependencies.len()
            invariant
                nodes == self@,
                i < self.nodes@.len(),
                deps == self.nodes@[i as int].dependencies@,
                k <= deps.len(),
                r@ == barriers(nodes, deps, k as int),
            decreases deps.len() - k,
        {
            let d: usize = self.nodes[i].dependencies[k];
            if d < self.nodes.len() {
                assert(nodes[d as int] == self.nodes@[d as int]@);
                push_written(&mut r, &self.nodes[d].op);
            }
            k = k + 1;
        }
        r
    }

    /// Whether there is a recording to submit.
    pub fn can_submit(&self) -> (b: bool)
        ensures
            b == self.is_built(),
    {
        self.built
    }

    /// Empties the graph and forgets the recording.
    pub fn reset(&mut self)
        ensures
            final(self)@ == Seq::<NodeView>::empty(),
            !final(self).is_built(),
    {
        self.nodes.clear();
        self.built = false;
        assert(self@ =~= Seq::<NodeView>::empty());
    }
}

/// A node waits for everything that its dependencies write: each buffer is
/// among those of its barrier.
pub proof fn law_dependencies_are_waited_for(
    nodes: Seq<NodeView>,
    deps: Seq<usize>,
    n: int,
    k: int,
    buffer: u64,
)
    requires
        0 <= k < n <= deps.len(),
        deps[k] < nodes.len(),
        written_buffers(nodes[deps[k] as int].op).contains(buffer),
    ensures
        barriers(nodes, deps, n).contains(buffer),
    decreases n,
{
    let before = barriers(nodes, deps, n - 1);
    let after = barriers(nodes, deps, n);
    if k == n - 1 {
        let written = written_buffers(nodes[deps[k] as int].op);
        let j = written.index_of(buffer);
        assert(after[before.len() + j] == buffer);
    } else {
        law_dependencies_are_waited_for(nodes, deps, n - 1, k, buffer);
        let j = before.index_of(buffer);
        assert(after[j] == buffer);
    }
}

/// The graph of a device with the count of operations since the last
/// submission.
pub struct GpuComputeContext {
    pub enabled: bool,
    pub graph: ComputeGraph,
    pub node_count: usize,
}

/// What a submission does.
#[derive(Debug)]
pub enum Submission {
    /// Nothing: the device is off, or there is nothing to do.
    Skipped,
    /// Record these steps, submit and wait.
    Run(Vec<GraphStep>),
}

impl GpuComputeContext {
    pub fn new(enabled: bool) -> (c: Option<Self>)
        ensures
            c is Some <==> enabled,
            c matches Some(x) ==> x.enabled && x.graph@ == Seq::<NodeView>::empty()
                && !x.graph.is_built() && x.node_count == 0,
    {
        if enabled {
            Some(GpuComputeContext { enabled: true, graph: ComputeGraph::new(), node_count: 0 })
        } else {
            None
        }
    }

    pub fn is_operational(&self) -> (b: bool)
        ensures
            b == self.enabled,
    {
        self.enabled
    }

    pub fn reset_graph(&mut self)
        ensures
            *final(self) == (GpuComputeContext { node_count: 0, ..*old(self) }),
    {
        self.node_count = 0;
    }

    fn add_op(&mut self, op: ComputeNodeOp, deps: Vec<usize>) -> (idx: usize)
        requires
            old(self).node_count < usize::MAX,
        ensures
            idx == old(self).graph@.len(),
            final(self).graph@ == old(self).graph@.push(NodeView { op, dependencies: deps@ }),
            final(self).graph.is_built() == old(self).graph.is_built(),
            final(self).node_count == old(self).node_count + 1,
            final(self).enabled == old(self).enabled,
    {
        let idx: usize = self.graph.add_node(op, deps);
        self.node_count = self.node_count + 1;
        idx
    }

    /// Adds a matrix-vector product and returns its number.
    pub fn add_gemv_q4k_node(
        &mut self,
        w: u64,
        input: u64,
        output: u64,
        n_rows: u32,
        n_blocks: u32,
        deps: Vec<usize>,
    ) -> (idx: usize)
        requires
            old(self).node_count < usize::MAX,
        ensures
            idx == old(self).graph@.len(),
            final(self).graph@ == old(self).graph@.push(
                NodeView {
                    op: ComputeNodeOp::GEMVQ4K {
                        d_w: w,
                        d_x: input,
                        d_out: output,
                        n_rows,
                        n_blocks,
                    },
                    dependencies: deps@,
                },
            ),
            final(self).graph.is_built() == old(self).graph.is_built(),
            final(self).node_count == old(self).node_count + 1,
            final(self).enabled == old(self).enabled,
    {
        self.add_op(
            ComputeNodeOp::GEMVQ4K { d_w: w, d_x: input, d_out: output, n_rows, n_blocks },
            deps,
        )
    }

    /// Adds an attention and returns its number.
    pub fn add_attention_node(
        &mut self,
        d_q: u64,
        d_k: u64,
        d_v: u64,
        d_scores: u64,
        d_out: u64,
        n_heads: u32,
        n_kv_heads: u32,
        seq_len: u32,
        head_dim: u32,
        kv_stride: u32,
        deps: Vec<usize>,
    ) -> (idx: usize)
        requires
            old(self).node_count < usize::MAX,
        ensures
            idx == old(self).graph@.len(),
            final(self).graph@ == old(self).graph@.push(
                NodeView {
                    op: ComputeNodeOp::Attention {
                        d_q,
                        d_k,
                        d_v,
                        d_scores,
                        d_out,
                        n_heads,
                        n_kv_heads,
                        seq_len,
                        head_dim,
                        kv_stride,
                    },
                    dependencies: deps@,
                },
            ),
            final(self).graph.is_built() == old(self).graph.is_built(),
            final(self).node_count == old(self).node_count + 1,
            final(self).enabled == old(self).enabled,
    {
        self.add_op(
            ComputeNodeOp::Attention {
                d_q,
                d_k,
                d_v,
                d_scores,
                d_out,
                n_heads,
                n_kv_heads,
                seq_len,
                head_dim,
                kv_stride,
            },
            deps,
        )
    }

    /// Adds a barrier over all memory and returns its number.
    pub fn add_barrier(&mut self, deps: Vec<usize>) -> (idx: usize)
        requires
            old(self).node_count < usize::MAX,
        ensures
            idx == old(self).graph@.len(),
            final(self).graph@ == old(self).graph@.push(
                NodeView { op: ComputeNodeOp::MemoryBarrier, dependencies: deps@ },
            ),
            final(self).graph.is_built() == old(self).graph.is_built(),
            final(self).node_count == old(self).node_count + 1,
            final(self).enabled == old(self).enabled,
    {
        self.add_op(ComputeNodeOp::MemoryBarrier, deps)
    }

    /// Hands out the recording of the graph and empties it.
    pub fn submit_and_wait(&mut self) -> (s: Submission)
        ensures
            final(self).enabled == old(self).enabled,
            match s {
                Submission::Skipped => {
                    &&& !old(self).enabled || old(self).node_count == 0
                    &&& *final(self) == *old(self)
                },
                Submission::Run(steps) => {
                    &&& old(self).enabled && old(self).node_count > 0
                    &&& step_views(steps@) == graph_steps(
                        old(self).graph@,
                        old(self).graph@.len() as int,
                    )
                    &&& final(self).graph@ == Seq::<NodeView>::empty()
                    &&& !final(self).graph.is_built()
                    &&& final(self).node_count == 0
                },
            },
    {
        if !self.enabled || self.node_count == 0 {
            return Submission::Skipped;
        }
        let steps = self.graph.build();
        self.graph.reset();
        self.node_count = 0;
        Submission::Run(steps)
    }
}

/// A rotation writes its queries and keys, every other operation its output; a handle
/// of zero is no buffer.
pub proof fn law_operations_write_their_output(op: ComputeNodeOp, b: u64)
    ensures
        written_buffers(op).contains(b) <==> b != 0 && (match op {
            ComputeNodeOp::GEMVQ4K { d_out, .. } => b == d_out,
            ComputeNodeOp::Attention { d_out, .. } => b == d_out,
            ComputeNodeOp::RMSNorm { d_out, .. } => b == d_out,
            ComputeNodeOp::RoPE { d_q, d_k, .. } => b == d_q || b == d_k,
            ComputeNodeOp::SiLUMul { d_out, .. } => b == d_out,
            ComputeNodeOp::Add { d_out, .. } => b == d_out,
            ComputeNodeOp::MemoryBarrier => false,
        }),
{
    let w = written_buffers(op);
    match op {
        ComputeNodeOp::GEMVQ4K { d_out, .. } => {
            assert(d_out != 0 ==> w[0] == d_out);
        },
        ComputeNodeOp::Attention { d_out, .. } => {
            assert(d_out != 0 ==> w[0] == d_out);
        },
        ComputeNodeOp::RMSNorm { d_out, .. } => {
            assert(d_out != 0 ==> w[0] == d_out);
        },
        ComputeNodeOp::RoPE { d_q, d_k, .. } => {
            assert(d_q != 0 ==> w[0] == d_q);
            assert(d_k != 0 ==> w[w.len() - 1] == d_k);
        },
        ComputeNodeOp::SiLUMul { d_out, .. } => {
            assert(d_out != 0 ==> w[0] == d_out);
        },
        ComputeNodeOp::Add { d_out, .. } => {
            assert(d_out != 0 ==> w[0] == d_out);
        },
        ComputeNodeOp::MemoryBarrier => {},
    }
}

/// A node waits for nothing but what its dependencies write.
pub proof fn law_only_dependencies_are_waited_for(
    nodes: Seq<NodeView>,
    deps: Seq<usize>,
    n: int,
    b: u64,
)
    requires
        0 <= n <= deps.len(),
        barriers(nodes, deps, n).contains(b),
    ensures
        exists|k: int|
            0 <= k < n && #[trigger] deps[k] < nodes.len() && written_buffers(
                nodes[deps[k] as int].op,
            ).contains(b),
    decreases n,
{
    if n > 0 {
        let before = barriers(nodes, deps, n - 1);
        let d = deps[n - 1] as int;
        let all = barriers(nodes, deps, n);
        let j = choose|j: int| 0 <= j < all.len() && all[j] == b;
        if j < before.len() {
            assert(before[j] == b);
            law_only_dependencies_are_waited_for(nodes, deps, n - 1, b);
        } else {
            assert(d < nodes.len());
            assert(written_buffers(nodes[d].op)[j - before.len()] == b);
            assert(deps[n - 1] < nodes.len());
        }
    }
}

/// Steps are recorded node by node: those of earlier nodes stand first, those of a node
/// come with its barriers before its own, and later nodes only append.
pub proof fn law_nodes_are_recorded_in_order(nodes: Seq<NodeView>, i: int, n: int)
    requires
        0 <= i < n <= nodes.len(),
    ensures
        (graph_steps(nodes, i) + node_steps(nodes, i)).is_prefix_of(graph_steps(nodes, n)),
        nodes[i].op is MemoryBarrier <==> node_steps(nodes, i).len() > 0 && node_steps(
            nodes,
            i,
        ).last() is MemoryBarrier,
        barriers(
            nodes,
            nodes[i].dependencies,
            nodes[i].dependencies.len() as int,
        ).len() > 0 ==> node_steps(nodes, i).len() > 0 && node_steps(nodes, i)[0]
            == StepView::BufferBarriers(
            barriers(nodes, nodes[i].dependencies, nodes[i].dependencies.len() as int),
        ),
        node_steps(nodes, i).len() <= 2,
    decreases n,
{
    if i < n - 1 {
        law_nodes_are_recorded_in_order(nodes, i, n - 1);
    }
}

} // verus!
