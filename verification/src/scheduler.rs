//! One layer's work on the device: which buffers, how many bytes, in which order.

use crate::compute_graph::{ComputeGraph, ComputeNodeOp, NodeView};
use vstd::prelude::*;

verus! {

/// Buffers that a layer's results go through, by handle.
#[derive(Debug, Clone, Copy, PartialEq, Eq, Structural)]
pub struct ScratchBuffers {
    pub d_x: u64,
    pub d_q: u64,
    pub d_k: u64,
    pub d_v: u64,
    pub d_scores: u64,
    pub d_attn: u64,
    pub d_gate: u64,
    pub d_up: u64,
    pub d_down: u64,
}

/// Weights on the device, layer by layer; zero stands for none.
#[derive(Debug)]
pub struct LayerWeights {
    pub q: Vec<u64>,
    pub k: Vec<u64>,
    pub v: Vec<u64>,
    pub o: Vec<u64>,
    pub gate: Vec<u64>,
    pub up: Vec<u64>,
    pub down: Vec<u64>,
    pub attn_norm: Vec<u64>,
    pub ffn_norm: Vec<u64>,
}

fn no_buffers(n: usize) -> (r: Vec<u64>)
    ensures
        r@ == Seq::new(n as nat, |i: int| 0u64),
{
    let mut r: Vec<u64> = Vec::new();
    let mut i: usize = 0;
    while i < n
        invariant
            i <= n,
            r@ == Seq::new(i as nat, |i: int| 0u64),
        decreases n - i,
    {
        r.push(0);
        assert(r@ =~= Seq::new((i + 1) as nat, |i: int| 0u64));
        i = i + 1;
    }
    r
}

impl LayerWeights {
    /// The nine kinds of weights, in the order in which they are uploaded.
    pub open spec fn kind(&self, i: int) -> Seq<u64> {
        if i == 0 {
            self.q@
        } else if i == 1 {
            self.k@
        } else if i == 2 {
            self.v@
        } else if i == 3 {
            self.o@
        } else if i == 4 {
            self.gate@
        } else if i == 5 {
            self.up@
        } else if i == 6 {
            self.down@
        } else if i == 7 {
            self.attn_norm@
        } else {
            self.ffn_norm@
        }
    }

    /// Every kind has a place for the layer.
    pub open spec fn has_layer(&self, layer: int) -> bool {
        forall|i: int| 0 <= i < 9 ==> 0 <= layer < (#[trigger] self.kind(i)).len()
    }

    /// Places for so many layers, all empty.
    pub fn new(num_layers: usize) -> (w: Self)
        ensures
            forall|i: int|
                0 <= i < 9 ==> #[trigger] w.kind(i) == Seq::new(num_layers as nat, |l: int| 0u64),
    {
        LayerWeights {
            q: no_buffers(num_layers),
            k: no_buffers(num_layers),
            v: no_buffers(num_layers),
            o: no_buffers(num_layers),
            gate: no_buffers(num_layers),
            up: no_buffers(num_layers),
            down: no_buffers(num_layers),
            attn_norm: no_buffers(num_layers),
            ffn_norm: no_buffers(num_layers),
        }
    }

    fn put(&mut self, kind: usize, layer: usize, buffer: u64)
        requires
            kind < 9,
            old(self).has_layer(layer as int),
        ensures
            forall|i: int|
                0 <= i < 9 ==> #[trigger] final(self).kind(i) == (if i == kind {
                    old(self).kind(i).update(layer as int, buffer)
                } else {
                    old(self).kind(i)
                }),
    {
        proof {
            assert(self.kind(0).len() > layer && self.kind(1).len() > layer && self.kind(2).len()
                > layer && self.kind(3).len() > layer && self.kind(4).len() > layer && self.kind(
                5,
            ).len() > layer && self.kind(6).len() > layer && self.kind(7).len() > layer
                && self.kind(8).len() > layer);
        }
        if kind == 0 {
            self.q.set(layer, buffer);
        } else if kind == 1 {
            self.k.set(layer, buffer);
        } else if kind == 2 {
            self.v.set(layer, buffer);
        } else if kind == 3 {
            self.o.set(layer, buffer);
        } else if kind == 4 {
            self.gate.set(layer, buffer);
        } else if kind == 5 {
            self.up.set(layer, buffer);
        } else if kind == 6 {
            self.down.set(layer, buffer);
        } else if kind == 7 {
            self.attn_norm.set(layer, buffer);
        } else {
            self.ffn_norm.set(layer, buffer);
        }
    }

    /// Keeps the buffers of a layer's weights as they were uploaded, up to the
    /// first that failed.
    pub fn upload_layer_weights(&mut self, layer: usize, uploaded: &[Option<u64>; 9]) -> (ok: bool)
        requires
            old(self).has_layer(layer as int),
        ensures
            ok == (first_failure(uploaded@, 0) == 9),
            forall|i: int|
                0 <= i < 9 ==> #[trigger] final(self).kind(i) == (if i < first_failure(
                    uploaded@,
                    0,
                ) {
                    old(self).kind(i).update(layer as int, uploaded@[i]->0)
                } else {
                    old(self).kind(i)
                }),
    {
        let mut n: usize = 0;
        proof {
            lemma_first_failure(uploaded@, 0);
        }
        while n < 9
            invariant
                n <= 9,
                first_failure(uploaded@, 0) == first_failure(uploaded@, n as int),
                first_failure(uploaded@, 0) >= n,
                self.has_layer(layer as int),
                forall|i: int|
                    0 <= i < 9 ==> #[trigger] self.kind(i) == (if i < n {
                        old(self).kind(i).update(layer as int, uploaded@[i]->0)
                    } else {
                        old(self).kind(i)
                    }),
            decreases 9 - n,
        {
            match uploaded[n] {
                Some(b) => {
                    let ghost before = *self;
                    self.put(n, layer, b);
                    assert forall|i: int| 0 <= i < 9 implies 0 <= layer < (#[trigger] self.kind(
                        i,
                    )).len() by {
                        assert(before.kind(i).len() > layer);
                    }
                    proof {
                        lemma_first_failure(uploaded@, n + 1);
                    }
                },
                None => {
                    return false;
                },
            }
            n = n + 1;
        }
        true
    }
}

/// Place of the first upload, from `i` on, that failed; nine if none did.
pub open spec fn first_failure(uploaded: Seq<Option<u64>>, i: int) -> int
    decreases 9 - i,
{
    if i >= 9 {
        9
    } else if uploaded[i] is None {
        i
    } else {
        first_failure(uploaded, i + 1)
    }
}

proof fn lemma_first_failure(uploaded: Seq<Option<u64>>, i: int)
    requires
        i <= 9,
    ensures
        i <= first_failure(uploaded, i) <= 9,
    decreases 9 - i,
{
    if i < 9 && uploaded[i] is Some {
        lemma_first_failure(uploaded, i + 1);
    }
}

/// What was set up on the device.
#[derive(Debug)]
pub struct DeviceContext {
    pub scratch: Option<ScratchBuffers>,
    /// Keys and values.
    pub kv: Option<(u64, u64)>,
    pub staging: Option<u64>,
    pub weights: LayerWeights,
}

/// A buffer to read back: so many singles.
#[derive(Debug, Clone, Copy, PartialEq, Eq, Structural)]
pub struct Readback {
    pub buffer: u64,
    pub values: usize,
    pub bytes: u64,
}

/// A product that stands by itself in a layer.
#[derive(Debug, Clone, Copy, PartialEq, Eq, Structural)]
pub enum SingleProduct {
    /// What attention gives out.
    Output,
    /// What the feed-forward part gives out.
    Down,
}

/// A product on the device: what goes in, and what comes back.
#[derive(Debug)]
pub struct GemvPlan {
    pub d_x: u64,
    /// Singles to copy in.
    pub x_values: usize,
    pub x_bytes: u64,
    pub outputs: Vec<Readback>,
}

/// Where a position's keys and values go on the device.
#[derive(Debug, Clone, Copy, PartialEq, Eq, Structural)]
pub struct KvUpload {
    pub offset: u64,
    pub bytes: u64,
}

/// An attention on the device: bytes in and out, and where they lie.
#[derive(Debug, Clone, Copy, PartialEq, Eq, Structural)]
pub struct AttentionPlan {
    pub d_q: u64,
    pub d_attn: u64,
    pub bytes: u64,
}

/// Entry `i` of a list of handles, if it is there and stands for a buffer.
pub open spec fn buffer_at(list: Seq<u64>, i: int) -> Option<u64> {
    if 0 <= i < list.len() && list[i] != 0 {
        Some(list[i])
    } else {
        None
    }
}

fn buffer(list: &Vec<u64>, i: usize) -> (b: Option<u64>)
    ensures
        b == buffer_at(list@, i as int),
{
    if i < list.len() && list[i] != 0 {
        Some(list[i])
    } else {
        None
    }
}

/// A node of a product.
pub open spec fn gemv_node(w: u64, x: u64, out: u64, rows: u32, blocks: u32, deps: Seq<usize>) -> NodeView {
    NodeView {
        op: ComputeNodeOp::GEMVQ4K { d_w: w, d_x: x, d_out: out, n_rows: rows, n_blocks: blocks },
        dependencies: deps,
    }
}

pub open spec fn readback_of(buffer: u64, values: u32) -> Readback {
    Readback { buffer, values: values as usize, bytes: (values * 4) as u64 }
}

fn readback(buffer: u64, values: u32) -> (r: Readback)
    ensures
        r == readback_of(buffer, values),
{
    Readback { buffer, values: values as usize, bytes: values as u64 * 4 }
}

/// How many singles of an input are copied: whole blocks, as far as it goes.
pub open spec fn copied(blocks: u32, x_len: usize) -> int {
    if blocks * 256 < x_len {
        blocks * 256
    } else {
        x_len as int
    }
}

fn copied_values(blocks: u32, x_len: usize) -> (n: usize)
    ensures
        n == copied(blocks, x_len),
{
    let whole: u64 = blocks as u64 * 256;
    if whole < x_len as u64 {
        whole as usize
    } else {
        x_len
    }
}

fn one_dependency(n: usize) -> (v: Vec<usize>)
    ensures
        v@ == seq![n],
{
    let mut v: Vec<usize> = Vec::new();
    v.push(n);
    assert(v@ =~= seq![n]);
    v
}

/// The device's share of a model's layers.
#[derive(Debug)]
pub struct PerLayerGpuState {
    pub ctx: Option<DeviceContext>,
    pub enabled: bool,
    pub num_layers: usize,
    pub window_size: usize,
    pub num_heads: u32,
    pub n_kv_heads: u32,
    pub head_dim: u32,
}

impl PerLayerGpuState {
    /// Bytes of a position's keys, in half precision.
    pub open spec fn kv_bytes(&self) -> int {
        self.n_kv_heads * self.head_dim * 2
    }

    pub open spec fn fits(&self) -> bool {
        &&& self.window_size > 0
        &&& self.window_size <= u32::MAX
        &&& self.window_size * self.kv_bytes() <= u64::MAX
        &&& self.num_heads * self.head_dim * 4 <= u64::MAX
    }

    /// The state of a model; without a device, or where setting it up failed,
    /// nothing runs there.
    pub fn new(
        device_enabled: bool,
        ctx: Option<DeviceContext>,
        window_size: usize,
        num_heads: u32,
        n_kv_heads: u32,
        head_dim: u32,
        num_layers: usize,
    ) -> (s: Self)
        ensures
            s == (PerLayerGpuState {
                ctx: if device_enabled {
                    ctx
                } else {
                    None
                },
                enabled: device_enabled && ctx is Some,
                num_layers,
                window_size,
                num_heads,
                n_kv_heads,
                head_dim,
            }),
    {
        let present: bool = ctx.is_some();
        PerLayerGpuState {
            ctx: if device_enabled {
                ctx
            } else {
                None
            },
            enabled: device_enabled && present,
            num_layers,
            window_size,
            num_heads,
            n_kv_heads,
            head_dim,
        }
    }

    /// The state of a model on a device that is shared with others; where
    /// setting it up failed, nothing runs there.
    pub fn with_device(
        ctx: Option<DeviceContext>,
        window_size: usize,
        num_heads: u32,
        n_kv_heads: u32,
        head_dim: u32,
        num_layers: usize,
    ) -> (s: Self)
        ensures
            s == (PerLayerGpuState {
                ctx,
                enabled: ctx is Some,
                num_layers,
                window_size,
                num_heads,
                n_kv_heads,
                head_dim,
            }),
    {
        let enabled: bool = ctx.is_some();
        PerLayerGpuState { ctx, enabled, num_layers, window_size, num_heads, n_kv_heads, head_dim }
    }

    pub fn is_operational(&self) -> (b: bool)
        ensures
            b == (self.enabled && self.ctx is Some),
    {
        self.enabled && self.ctx.is_some()
    }

    /// Where the keys and values of a position go: positions share the window in
    /// turn.
    pub fn upload_kv_async(&self, pos: usize) -> (r: Option<KvUpload>)
        requires
            self.fits(),
        ensures
            r is Some <==> (self.ctx matches Some(c) && c.kv is Some && c.staging is Some),
            r matches Some(u) ==> {
                &&& u.offset == (pos as int % self.window_size as int) * self.kv_bytes()
                &&& u.bytes == self.kv_bytes()
                &&& u.offset + u.bytes <= self.window_size * self.kv_bytes()
            },
    {
        let ctx = match &self.ctx {
            Some(c) => c,
            None => return None,
        };
        if ctx.kv.is_none() || ctx.staging.is_none() {
            return None;
        }
        let place: usize = pos % self.window_size;
        proof {
            let a = self.n_kv_heads as int;
            let b = self.head_dim as int;
            assert(0 <= a * b <= 0xffff_ffff * 0xffff_ffff) by (nonlinear_arith)
                requires
                    0 <= a <= 0xffff_ffff,
                    0 <= b <= 0xffff_ffff,
            ;
            let kb = self.kv_bytes();
            let w = self.window_size as int;
            assert(kb <= w * kb && 0 <= place * kb && place * kb + kb <= w * kb) by (
            nonlinear_arith)
                requires
                    0 <= place < w,
                    0 <= kb,
            ;
        }
        let bytes: u64 = self.n_kv_heads as u64 * self.head_dim as u64 * 2;
        Some(KvUpload { offset: place as u64 * bytes, bytes })
    }

    /// Puts an attention over the window into the graph.
    pub fn execute_attention_async(&self, graph: &mut ComputeGraph, seq_len: usize) -> (r: Option<
        AttentionPlan,
    >)
        requires
            self.fits(),
        ensures
            r is Some <==> (self.ctx matches Some(c) && c.scratch is Some && c.kv is Some
                && c.staging is Some && seq_len > 0),
            final(graph).is_built() == old(graph).is_built(),
            r is None ==> final(graph)@ == old(graph)@,
            r matches Some(p) ==> {
                let s = (self.ctx->0).scratch->0;
                let kv = (self.ctx->0).kv->0;
                &&& p == (AttentionPlan {
                    d_q: s.d_q,
                    d_attn: s.d_attn,
                    bytes: (self.num_heads * self.head_dim * 4) as u64,
                })
                &&& final(graph)@ == old(graph)@.push(
                    NodeView {
                        op: ComputeNodeOp::Attention {
                            d_q: s.d_q,
                            d_k: kv.0,
                            d_v: kv.1,
                            d_scores: s.d_scores,
                            d_out: s.d_attn,
                            n_heads: self.num_heads,
                            n_kv_heads: self.n_kv_heads,
                            seq_len: (if seq_len < self.window_size {
                                seq_len
                            } else {
                                self.window_size
                            }) as u32,
                            head_dim: self.head_dim,
                            kv_stride: self.window_size as u32,
                        },
                        dependencies: Seq::empty(),
                    },
                )
            },
    {
        let ctx = match &self.ctx {
            Some(c) => c,
            None => return None,
        };
        let s = match ctx.scratch {
            Some(s) => s,
            None => return None,
        };
        let kv = match ctx.kv {
            Some(kv) => kv,
            None => return None,
        };
        if ctx.staging.is_none() {
            return None;
        }
        let len: usize = if seq_len < self.window_size {
            seq_len
        } else {
            self.window_size
        };
        if len == 0 {
            return None;
        }
        let deps: Vec<usize> = Vec::new();
        assert(deps@ =~= Seq::empty());
        let _ = graph.add_node(
            ComputeNodeOp::Attention {
                d_q: s.d_q,
                d_k: kv.0,
                d_v: kv.1,
                d_scores: s.d_scores,
                d_out: s.d_attn,
                n_heads: self.num_heads,
                n_kv_heads: self.n_kv_heads,
                seq_len: len as u32,
                head_dim: self.head_dim,
                kv_stride: self.window_size as u32,
            },
            deps,
        );
        proof {
            let a = self.num_heads as int;
            let b = self.head_dim as int;
            assert(0 <= a * b) by (nonlinear_arith)
                requires
                    0 <= a,
                    0 <= b,
            ;
        }
        Some(
            AttentionPlan {
                d_q: s.d_q,
                d_attn: s.d_attn,
                bytes: self.num_heads as u64 * self.head_dim as u64 * 4,
            },
        )
    }

    /// The weights and scratch of a layer's query, key and value products.
    pub open spec fn qkv_ready(&self, layer: int) -> bool {
        self.ctx matches Some(c) && c.scratch is Some && c.staging is Some && buffer_at(
            c.weights.q@,
            layer,
        ) is Some && buffer_at(c.weights.k@, layer) is Some && buffer_at(c.weights.v@, layer)
            is Some
    }

    /// Puts a layer's query, key and value products into the graph, each behind
    /// the one before.
    pub fn gemv_qkv_async(
        &self,
        graph: &mut ComputeGraph,
        layer: usize,
        x_len: usize,
        rows_q: u32,
        rows_k: u32,
        rows_v: u32,
        blocks: u32,
    ) -> (r: Option<GemvPlan>)
        ensures
            r is Some <==> self.qkv_ready(layer as int),
            final(graph).is_built() == old(graph).is_built(),
            r is None ==> final(graph)@ == old(graph)@,
            r matches Some(p) ==> {
                let c = self.ctx->0;
                let s = c.scratch->0;
                let n = old(graph)@.len() as usize;
                &&& p.d_x == s.d_x
                &&& p.x_values == copied(blocks, x_len)
                &&& p.x_bytes == blocks * 1024
                &&& p.outputs@ == seq![
                    readback_of(s.d_q, rows_q),
                    readback_of(s.d_k, rows_k),
                    readback_of(s.d_v, rows_v),
                ]
                &&& final(graph)@ == old(graph)@.push(
                    gemv_node(
                        c.weights.q@[layer as int],
                        s.d_x,
                        s.d_q,
                        rows_q,
                        blocks,
                        Seq::empty(),
                    ),
                ).push(
                    gemv_node(
                        c.weights.k@[layer as int],
                        s.d_x,
                        s.d_k,
                        rows_k,
                        blocks,
                        seq![n],
                    ),
                ).push(
                    gemv_node(
                        c.weights.v@[layer as int],
                        s.d_x,
                        s.d_v,
                        rows_v,
                        blocks,
                        seq![(n + 1) as usize],
                    ),
                )
            },
    {
        let ctx = match &self.ctx {
            Some(c) => c,
            None => return None,
        };
        let s = match ctx.scratch {
            Some(s) => s,
            None => return None,
        };
        let w_q = match buffer(&ctx.weights.q, layer) {
            Some(b) => b,
            None => return None,
        };
        let w_k = match buffer(&ctx.weights.k, layer) {
            Some(b) => b,
            None => return None,
        };
        let w_v = match buffer(&ctx.weights.v, layer) {
            Some(b) => b,
            None => return None,
        };
        if ctx.staging.is_none() {
            return None;
        }
        let none: Vec<usize> = Vec::new();
        assert(none@ =~= Seq::empty());
        let n0: usize = graph.add_node(
            ComputeNodeOp::GEMVQ4K {
                d_w: w_q,
                d_x: s.d_x,
                d_out: s.d_q,
                n_rows: rows_q,
                n_blocks: blocks,
            },
            none,
        );
        let n1: usize = graph.add_node(
            ComputeNodeOp::GEMVQ4K {
                d_w: w_k,
                d_x: s.d_x,
                d_out: s.d_k,
                n_rows: rows_k,
                n_blocks: blocks,
            },
            one_dependency(n0),
        );
        let _ = graph.add_node(
            ComputeNodeOp::GEMVQ4K {
                d_w: w_v,
                d_x: s.d_x,
                d_out: s.d_v,
                n_rows: rows_v,
                n_blocks: blocks,
            },
            one_dependency(n1),
        );
        let mut outputs: Vec<Readback> = Vec::new();
        outputs.push(readback(s.d_q, rows_q));
        outputs.push(readback(s.d_k, rows_k));
        outputs.push(readback(s.d_v, rows_v));
        Some(
            GemvPlan {
                d_x: s.d_x,
                x_values: copied_values(blocks, x_len),
                x_bytes: blocks as u64 * 1024,
                outputs,
            },
        )
    }

    /// The weights and scratch of a layer's gate and up products.
    pub open spec fn gate_up_ready(&self, layer: int) -> bool {
        self.ctx matches Some(c) && c.scratch is Some && c.staging is Some && buffer_at(
            c.weights.gate@,
            layer,
        ) is Some && buffer_at(c.weights.up@, layer) is Some
    }

    /// Puts a layer's gate and up products into the graph, one behind the other.
    pub fn gemv_gate_up_async(
        &self,
        graph: &mut ComputeGraph,
        layer: usize,
        x_len: usize,
        rows: u32,
        blocks: u32,
    ) -> (r: Option<GemvPlan>)
        ensures
            r is Some <==> self.gate_up_ready(layer as int),
            final(graph).is_built() == old(graph).is_built(),
            r is None ==> final(graph)@ == old(graph)@,
            r matches Some(p) ==> {
                let c = self.ctx->0;
                let s = c.scratch->0;
                let n = old(graph)@.len() as usize;
                &&& p.d_x == s.d_x
                &&& p.x_values == copied(blocks, x_len)
                &&& p.x_bytes == blocks * 1024
                &&& p.outputs@ == seq![readback_of(s.d_gate, rows), readback_of(s.d_up, rows)]
                &&& final(graph)@ == old(graph)@.push(
                    gemv_node(
                        c.weights.gate@[layer as int],
                        s.d_x,
                        s.d_gate,
                        rows,
                        blocks,
                        Seq::empty(),
                    ),
                ).push(
                    gemv_node(
                        c.weights.up@[layer as int],
                        s.d_x,
                        s.d_up,
                        rows,
                        blocks,
                        seq![n],
                    ),
                )
            },
    {
        let ctx = match &self.ctx {
            Some(c) => c,
            None => return None,
        };
        let s = match ctx.scratch {
            Some(s) => s,
            None => return None,
        };
        let w_g = match buffer(&ctx.weights.gate, layer) {
            Some(b) => b,
            None => return None,
        };
        let w_u = match buffer(&ctx.weights.up, layer) {
            Some(b) => b,
            None => return None,
        };
        if ctx.staging.is_none() {
            return None;
        }
        let none: Vec<usize> = Vec::new();
        assert(none@ =~= Seq::empty());
        let n0: usize = graph.add_node(
            ComputeNodeOp::GEMVQ4K {
                d_w: w_g,
                d_x: s.d_x,
                d_out: s.d_gate,
                n_rows: rows,
                n_blocks: blocks,
            },
            none,
        );
        let _ = graph.add_node(
            ComputeNodeOp::GEMVQ4K {
                d_w: w_u,
                d_x: s.d_x,
                d_out: s.d_up,
                n_rows: rows,
                n_blocks: blocks,
            },
            one_dependency(n0),
        );
        let mut outputs: Vec<Readback> = Vec::new();
        outputs.push(readback(s.d_gate, rows));
        outputs.push(readback(s.d_up, rows));
        Some(
            GemvPlan {
                d_x: s.d_x,
                x_values: copied_values(blocks, x_len),
                x_bytes: blocks as u64 * 1024,
                outputs,
            },
        )
    }

    /// The weights of a product by itself: those of the layer for that product.
    pub open spec fn single_weight(&self, layer: int, product: SingleProduct) -> Option<u64> {
        match self.ctx {
            Some(c) => match product {
                SingleProduct::Output => buffer_at(c.weights.o@, layer),
                SingleProduct::Down => buffer_at(c.weights.down@, layer),
            },
            None => None,
        }
    }

    fn get_weight_buf(&self, layer: usize, product: SingleProduct) -> (r: Option<u64>)
        ensures
            r == self.single_weight(layer as int, product),
    {
        let ctx = match &self.ctx {
            Some(c) => c,
            None => return None,
        };
        match product {
            SingleProduct::Output => buffer(&ctx.weights.o, layer),
            SingleProduct::Down => buffer(&ctx.weights.down, layer),
        }
    }

    /// Puts a product by itself into the graph.
    pub fn execute_gemv_async(
        &self,
        graph: &mut ComputeGraph,
        layer: usize,
        product: SingleProduct,
        x_len: usize,
        rows: u32,
        blocks: u32,
    ) -> (r: Option<GemvPlan>)
        ensures
            r is Some <==> (self.single_weight(layer as int, product) is Some && (
            self.ctx->0).scratch is Some && (self.ctx->0).staging is Some),
            final(graph).is_built() == old(graph).is_built(),
            r is None ==> final(graph)@ == old(graph)@,
            r matches Some(p) ==> {
                let s = (self.ctx->0).scratch->0;
                &&& p.d_x == s.d_x
                &&& p.x_values == copied(blocks, x_len)
                &&& p.x_bytes == blocks * 1024
                &&& p.outputs@ == seq![readback_of(s.d_down, rows)]
                &&& final(graph)@ == old(graph)@.push(
                    gemv_node(
                        self.single_weight(layer as int, product)->0,
                        s.d_x,
                        s.d_down,
                        rows,
                        blocks,
                        Seq::empty(),
                    ),
                )
            },
    {
        let w = match self.get_weight_buf(layer, product) {
            Some(w) => w,
            None => return None,
        };
        let ctx = match &self.ctx {
            Some(c) => c,
            None => return None,
        };
        let s = match ctx.scratch {
            Some(s) => s,
            None => return None,
        };
        if ctx.staging.is_none() {
            return None;
        }
        let none: Vec<usize> = Vec::new();
        assert(none@ =~= Seq::empty());
        let _ = graph.add_node(
            ComputeNodeOp::GEMVQ4K {
                d_w: w,
                d_x: s.d_x,
                d_out: s.d_down,
                n_rows: rows,
                n_blocks: blocks,
            },
            none,
        );
        let mut outputs: Vec<Readback> = Vec::new();
        outputs.push(readback(s.d_down, rows));
        Some(
            GemvPlan {
                d_x: s.d_x,
                x_values: copied_values(blocks, x_len),
                x_bytes: blocks as u64 * 1024,
                outputs,
            },
        )
    }

    /// A handle for weights on the device: the copy itself is left to the layer
    /// uploads.
    pub fn upload_weight() -> (r: Option<u64>)
        ensures
            r == Some(0u64),
    {
        Some(0)
    }

    /// Whether the device is done; `graph_ok` tells how the wait for the graph
    /// ended.
    pub fn sync(&self, graph_ok: bool) -> (b: bool)
        ensures
            b == (self.ctx is Some && graph_ok),
    {
        self.ctx.is_some() && graph_ok
    }

    /// Hidden states are not kept on the device.
    pub fn upload_x(&self) -> (b: bool)
        ensures
            !b,
    {
        false
    }

    pub fn download_x(&self) -> (b: bool)
        ensures
            !b,
    {
        false
    }

    /// Layer graphs need nothing but the device.
    pub fn create_layer_graph(&self) -> (b: bool)
        ensures
            b == (self.enabled && self.ctx is Some),
    {
        self.is_operational()
    }

    /// Layers do not run as one graph.
    pub fn execute_layer_fused(&self) -> (b: bool)
        ensures
            !b,
    {
        false
    }

    /// Layers whose weights are uploaded, given the rings there are.
    pub open spec fn layers_to_upload(&self, rings: int) -> int {
        if rings < self.num_layers {
            rings
        } else {
            self.num_layers as int
        }
    }

    /// Uploads the weights of all layers that have a ring, up to the first that
    /// fails.
    pub fn upload_all_weights<F: Fn(usize) -> bool>(&self, rings: usize, upload: F) -> (ok: bool)
        requires
            forall|l: usize| #[trigger] upload.requires((l,)),
        ensures
            self.ctx is None ==> !ok,
            self.ctx is Some && ok ==> forall|l: usize|
                l < self.layers_to_upload(rings as int) ==> #[trigger] upload.ensures((l,), true),
            self.ctx is Some && !ok ==> exists|k: usize|
                k < self.layers_to_upload(rings as int) && #[trigger] upload.ensures((k,), false)
                    && forall|l: usize| l < k ==> #[trigger] upload.ensures((l,), true),
    {
        if self.ctx.is_none() {
            return false;
        }
        let n: usize = if rings < self.num_layers {
            rings
        } else {
            self.num_layers
        };
        let mut l: usize = 0;
        while l < n
            invariant
                l <= n,
                n == self.layers_to_upload(rings as int),
                self.ctx is Some,
                forall|l: usize| #[trigger] upload.requires((l,)),
                forall|k: usize| k < l ==> #[trigger] upload.ensures((k,), true),
            decreases n - l,
        {
            if !upload(l) {
                assert(upload.ensures((l,), false));
                return false;
            }
            l = l + 1;
        }
        true
    }

    /// Layers whose normalisation weights are uploaded: before attention, and
    /// before the feed-forward part.
    pub fn norms_to_upload(&self, attn: usize, ffn: usize) -> (r: (usize, usize))
        ensures
            match self.ctx {
                None => r == (0usize, 0usize),
                Some(c) => {
                    &&& r.0 <= self.num_layers && r.0 <= attn && r.0 <= c.weights.attn_norm@.len()
                    &&& r.0 == self.num_layers || r.0 == attn || r.0
                        == c.weights.attn_norm@.len()
                    &&& r.1 <= self.num_layers && r.1 <= ffn && r.1 <= c.weights.ffn_norm@.len()
                    &&& r.1 == self.num_layers || r.1 == ffn || r.1 == c.weights.ffn_norm@.len()
                },
            },
    {
        match &self.ctx {
            None => (0, 0),
            Some(c) => (
                least(self.num_layers, attn, c.weights.attn_norm.len()),
                least(self.num_layers, ffn, c.weights.ffn_norm.len()),
            ),
        }
    }
}

fn least(a: usize, b: usize, c: usize) -> (r: usize)
    ensures
        r <= a && r <= b && r <= c,
        r == a || r == b || r == c,
{
    let ab: usize = if a < b {
        a
    } else {
        b
    };
    if ab < c {
        ab
    } else {
        c
    }
}

/// Two positions share a place in the window exactly if they are whole windows
/// apart.
pub proof fn law_window_places_repeat(a: int, b: int, window: int)
    requires
        0 <= a,
        0 <= b,
        0 < window,
    ensures
        a % window == b % window <==> (a - b) % window == 0,
{
    vstd::arithmetic::div_mod::lemma_mod_equivalence(a, b, window);
}

/// Counts work in a pipeline.
#[derive(Debug, Clone, Copy, PartialEq, Eq, Structural)]
pub struct PipelineCounter {
    pub depth: u32,
}

/// A place in a pipeline.
#[derive(Debug)]
pub struct PipelineToken {
    held: (),
}

impl PipelineToken {
    /// Takes a place, unless the pipeline is full.
    pub fn acquire(counter: &mut PipelineCounter, max_depth: u32) -> (t: Option<Self>)
        ensures
            t is Some <==> old(counter).depth < max_depth,
            final(counter).depth == old(counter).depth + (if t is Some {
                1int
            } else {
                0int
            }),
    {
        if counter.depth >= max_depth {
            return None;
        }
        counter.depth = counter.depth + 1;
        Some(PipelineToken { held: () })
    }

    /// Gives a place back.
    pub fn release(self, counter: &mut PipelineCounter)
        requires
            old(counter).depth > 0,
        ensures
            final(counter).depth == old(counter).depth - 1,
    {
        counter.depth = counter.depth - 1;
    }
}

/// Uploads count up to the first that failed: all before it succeeded.
pub proof fn law_first_failure_is_the_first(uploaded: Seq<Option<u64>>, k: int)
    requires
        0 <= k < 9,
    ensures
        0 <= first_failure(uploaded, 0) <= 9,
        k < first_failure(uploaded, 0) ==> uploaded[k] is Some,
        k == first_failure(uploaded, 0) ==> uploaded[k] is None,
{
    lemma_first_failure_from(uploaded, 0, k);
}

proof fn lemma_first_failure_from(uploaded: Seq<Option<u64>>, i: int, k: int)
    requires
        0 <= i <= 9,
    ensures
        i <= first_failure(uploaded, i) <= 9,
        i <= k < first_failure(uploaded, i) ==> uploaded[k] is Some,
        k == first_failure(uploaded, i) && k < 9 ==> uploaded[k] is None,
    decreases 9 - i,
{
    if i < 9 && uploaded[i] is Some {
        lemma_first_failure_from(uploaded, i + 1, k);
    }
}

/// Each kind of weights has a list of its own: attention's four, the feed-forward
/// part's three, and the two norms, in this order.
pub proof fn law_kinds_are_in_order(w: LayerWeights, i: int)
    requires
        0 <= i < 9,
    ensures
        w.kind(i) == seq![
            w.q@,
            w.k@,
            w.v@,
            w.o@,
            w.gate@,
            w.up@,
            w.down@,
            w.attn_norm@,
            w.ffn_norm@,
        ][i],
{
}

/// A buffer is found where the list has an entry for the layer that is not zero.
pub proof fn law_buffers_are_found(list: Seq<u64>, i: int, b: u64)
    ensures
        buffer_at(list, i) == Some(b) <==> 0 <= i < list.len() && list[i] == b && b != 0,
{
}

/// Blocks hold 256 numbers, of four bytes each: so many are copied in, but no more than
/// there are, and as many are read back as the product has rows.
pub proof fn law_products_move_singles(blocks: u32, x_len: usize, buffer: u64, rows: u32)
    ensures
        copied(blocks, x_len) <= x_len,
        copied(blocks, x_len) <= 256 * blocks,
        copied(blocks, x_len) == x_len || copied(blocks, x_len) == 256 * blocks,
        readback_of(buffer, rows).buffer == buffer,
        readback_of(buffer, rows).values == rows,
        readback_of(buffer, rows).bytes == 4 * rows,
{
    assert(rows as usize == rows);
}

/// A product reads its weights and its input and writes its output.
pub proof fn law_product_has_its_buffers(
    w: u64,
    x: u64,
    out: u64,
    rows: u32,
    blocks: u32,
    deps: Seq<usize>,
)
    ensures
        gemv_node(w, x, out, rows, blocks, deps).dependencies == deps,
        gemv_node(w, x, out, rows, blocks, deps).op matches ComputeNodeOp::GEMVQ4K {
            d_w,
            d_x,
            d_out,
            n_rows,
            n_blocks,
        } && d_w == w && d_x == x && d_out == out && n_rows == rows && n_blocks == blocks,
        crate::compute_graph::written_buffers(gemv_node(w, x, out, rows, blocks, deps).op)
            == crate::compute_graph::buffer_or_none(out),
{
}

/// The keys of positions that do not share a place of the window do not overlap.
pub proof fn law_window_places_do_not_overlap(s: PerLayerGpuState, a: int, b: int)
    requires
        s.fits(),
        0 <= a,
        0 <= b,
        a % (s.window_size as int) < b % (s.window_size as int),
    ensures
        s.kv_bytes() == 2 * (s.n_kv_heads * s.head_dim),
        (a % (s.window_size as int)) * s.kv_bytes() + 2 * (s.n_kv_heads * s.head_dim) <= (b % (
        s.window_size as int)) * s.kv_bytes(),
{
    let x = a % (s.window_size as int);
    let y = b % (s.window_size as int);
    let h = s.n_kv_heads as int;
    let d = s.head_dim as int;
    let k = s.kv_bytes();
    assert(0 <= h * d) by (nonlinear_arith)
        requires
            0 <= h,
            0 <= d,
    ;
    assert(x * k + k <= y * k) by (nonlinear_arith)
        requires
            x < y,
            0 <= k,
    ;
}

/// A layer's products run on the device only where it has scratch, staging and the
/// weights of just these products for the layer.
pub proof fn law_products_need_their_weights(s: PerLayerGpuState, layer: int)
    ensures
        s.ctx is None ==> !s.qkv_ready(layer) && !s.gate_up_ready(layer) && s.single_weight(
            layer,
            SingleProduct::Output,
        ) is None && s.single_weight(layer, SingleProduct::Down) is None,
        s.ctx matches Some(c) ==> {
            &&& s.qkv_ready(layer) <==> c.scratch is Some && c.staging is Some && 0 <= layer
                < c.weights.q@.len() && layer < c.weights.k@.len() && layer < c.weights.v@.len()
                && c.weights.q@[layer] != 0 && c.weights.k@[layer] != 0 && c.weights.v@[layer]
                != 0
            &&& s.gate_up_ready(layer) <==> c.scratch is Some && c.staging is Some && 0 <= layer
                < c.weights.gate@.len() && layer < c.weights.up@.len() && c.weights.gate@[layer]
                != 0 && c.weights.up@[layer] != 0
            &&& s.single_weight(layer, SingleProduct::Output) matches Some(b) ==> b
                == c.weights.o@[layer]
            &&& s.single_weight(layer, SingleProduct::Down) matches Some(b) ==> b
                == c.weights.down@[layer]
            &&& s.single_weight(layer, SingleProduct::Output) is Some <==> 0 <= layer
                < c.weights.o@.len() && c.weights.o@[layer] != 0
            &&& s.single_weight(layer, SingleProduct::Down) is Some <==> 0 <= layer
                < c.weights.down@.len() && c.weights.down@[layer] != 0
        },
{
}

/// Weights are uploaded for every layer that the model has and a ring exists for, and
/// for no other.
pub proof fn law_layers_with_rings_are_uploaded(s: PerLayerGpuState, rings: int, layer: int)
    ensures
        layer < s.layers_to_upload(rings) <==> layer < rings && layer < s.num_layers,
{
}

} // verus!
