//! Device programs: what they are called, and which are loaded.

use vstd::prelude::*;

verus! {

#[derive(Debug, Clone, Copy, PartialEq, Eq, Structural, Hash)]
pub enum ShaderType {
    GEMVQ4K,
    GEMVQ6K,
    Attention,
    RMSNorm,
    RoPE,
    SiLUMul,
    Add,
}

impl ShaderType {
    pub fn name(&self) -> (s: &'static str)
        ensures
            s@ == (match *self {
                ShaderType::GEMVQ4K => "gemv_q4k"@,
                ShaderType::GEMVQ6K => "gemv_q6k"@,
                ShaderType::Attention => "attention"@,
                ShaderType::RMSNorm => "rmsnorm"@,
                ShaderType::RoPE => "rope"@,
                ShaderType::SiLUMul => "silu_mul"@,
                ShaderType::Add => "add"@,
            }),
    {
        match self {
            ShaderType::GEMVQ4K => "gemv_q4k",
            ShaderType::GEMVQ6K => "gemv_q6k",
            ShaderType::Attention => "attention",
            ShaderType::RMSNorm => "rmsnorm",
            ShaderType::RoPE => "rope",
            ShaderType::SiLUMul => "silu_mul",
            ShaderType::Add => "add",
        }
    }
}

/// Modules and pipelines by program, as device handles.
pub struct ShaderCache {
    pub modules: Vec<(ShaderType, u64)>,
    /// Pipeline and layout.
    pub pipelines: Vec<(ShaderType, u64, u64)>,
}

/// The first module of a program, from place `i` on.
pub open spec fn module_of(modules: Seq<(ShaderType, u64)>, shader: ShaderType, i: int) -> Option<u64>
    decreases modules.len() - i,
{
    if i >= modules.len() {
        None
    } else if modules[i].0 == shader {
        Some(modules[i].1)
    } else {
        module_of(modules, shader, i + 1)
    }
}

/// The first pipeline of a program, from place `i` on.
pub open spec fn pipeline_of(
    pipelines: Seq<(ShaderType, u64, u64)>,
    shader: ShaderType,
    i: int,
) -> Option<u64>
    decreases pipelines.len() - i,
{
    if i >= pipelines.len() {
        None
    } else if pipelines[i].0 == shader {
        Some(pipelines[i].1)
    } else {
        pipeline_of(pipelines, shader, i + 1)
    }
}

impl ShaderCache {
    pub fn new() -> (c: Self)
        ensures
            c.modules@.len() == 0,
            c.pipelines@.len() == 0,
    {
        ShaderCache { modules: Vec::new(), pipelines: Vec::new() }
    }

    /// The module of a program, if it is loaded.
    pub fn module(&self, shader: ShaderType) -> (m: Option<u64>)
        ensures
            m == module_of(self.modules@, shader, 0),
    {
        let mut i: usize = 0;
        while i < self.modules.len()
            invariant
                i <= self.modules@.len(),
                module_of(self.modules@, shader, 0) == module_of(self.modules@, shader, i as int),
            decreases self.modules@.len() - i,
        {
            if self.modules[i].0 == shader {
                return Some(self.modules[i].1);
            }
            i = i + 1;
        }
        None
    }

    /// Takes in what loading a program gave, unless one is loaded; returns
    /// the module to use.  `created` is asked for only where none is loaded.
    pub fn load_shader(&mut self, shader: ShaderType, created: Option<u64>) -> (m: Option<u64>)
        ensures
            m == (match module_of(old(self).modules@, shader, 0) {
                Some(x) => Some(x),
                None => created,
            }),
            final(self).pipelines == old(self).pipelines,
            final(self).modules@ == (if module_of(old(self).modules@, shader, 0) is None
                && created is Some {
                old(self).modules@.push((shader, created->0))
            } else {
                old(self).modules@
            }),
    {
        if let Some(m) = self.module(shader) {
            return Some(m);
        }
        if let Some(m) = created {
            self.modules.push((shader, m));
        }
        created
    }

    /// The pipeline of a program, if it was made.
    pub fn pipeline(&self, shader: &ShaderType) -> (p: Option<u64>)
        ensures
            p == pipeline_of(self.pipelines@, *shader, 0),
    {
        let mut i: usize = 0;
        while i < self.pipelines.len()
            invariant
                i <= self.pipelines@.len(),
                pipeline_of(self.pipelines@, *shader, 0) == pipeline_of(
                    self.pipelines@,
                    *shader,
                    i as int,
                ),
            decreases self.pipelines@.len() - i,
        {
            if self.pipelines[i].0 == *shader {
                return Some(self.pipelines[i].1);
            }
            i = i + 1;
        }
        None
    }

    /// Takes in a pipeline and its layout, unless the program has one;
    /// returns the pipeline to use.
    pub fn get_or_create_pipeline(
        &mut self,
        shader: ShaderType,
        created: Option<(u64, u64)>,
    ) -> (p: Option<u64>)
        ensures
            p == (match pipeline_of(old(self).pipelines@, shader, 0) {
                Some(x) => Some(x),
                None => match created {
                    Some(c) => Some(c.0),
                    None => None,
                },
            }),
            final(self).modules == old(self).modules,
            final(self).pipelines@ == (if pipeline_of(old(self).pipelines@, shader, 0) is None
                && created is Some {
                old(self).pipelines@.push((shader, (created->0).0, (created->0).1))
            } else {
                old(self).pipelines@
            }),
    {
        if let Some(p) = self.pipeline(&shader) {
            return Some(p);
        }
        match created {
            Some((p, layout)) => {
                self.pipelines.push((shader, p, layout));
                Some(p)
            },
            None => None,
        }
    }
}

/// A program that was loaded is found again, and loading it once more
/// changes nothing.
pub proof fn law_loaded_shader_is_found(modules: Seq<(ShaderType, u64)>, shader: ShaderType, m: u64)
    requires
        module_of(modules, shader, 0) is None,
    ensures
        module_of(modules.push((shader, m)), shader, 0) == Some(m),
{
    lemma_found(modules, shader, m, 0);
}

proof fn lemma_found(modules: Seq<(ShaderType, u64)>, shader: ShaderType, m: u64, i: int)
    requires
        0 <= i <= modules.len(),
        module_of(modules, shader, i) is None,
    ensures
        module_of(modules.push((shader, m)), shader, i) == Some(m),
    decreases modules.len() - i,
{
    if i < modules.len() {
        assert(modules.push((shader, m))[i] == modules[i]);
        lemma_found(modules, shader, m, i + 1);
    }
}

/// The memory type for an allocation: the first that the filter allows and
/// that has all the wanted properties.
pub open spec fn memory_type(filter: u32, wanted: u32, types: Seq<u32>, i: int) -> Option<u32>
    decreases types.len() - i,
{
    if i >= types.len() {
        None
    } else if filter & (1u32 << (i as u32)) != 0 && types[i] & wanted == wanted {
        Some(i as u32)
    } else {
        memory_type(filter, wanted, types, i + 1)
    }
}

/// Finds the memory type for an allocation; `types` holds the properties of
/// each type of the device.
pub fn find_memory_type(filter: u32, wanted: u32, types: &[u32]) -> (t: Option<u32>)
    requires
        types@.len() <= 32,
    ensures
        t == memory_type(filter, wanted, types@, 0),
{
    let mut i: usize = 0;
    while i < types.len()
        invariant
            i <= types@.len() <= 32,
            memory_type(filter, wanted, types@, 0) == memory_type(
                filter,
                wanted,
                types@,
                i as int,
            ),
        decreases types@.len() - i,
    {
        let bit: u32 = 1u32 << (i as u32);
        if filter & bit != 0 && types[i] & wanted == wanted {
            return Some(i as u32);
        }
        i = i + 1;
    }
    None
}

/// Sizes in bytes of the working buffers of a layer.
#[derive(Debug, Clone, Copy, PartialEq, Eq, Structural)]
pub struct ScratchSizes {
    pub d_x: usize,
    pub d_x_norm: usize,
    pub d_q: usize,
    pub d_k: usize,
    pub d_v: usize,
    pub d_attn: usize,
    pub d_gate: usize,
    pub d_up: usize,
    pub d_down: usize,
    pub d_scores: usize,
}

pub open spec fn at_least_one(n: int) -> int {
    if n < 1 {
        1
    } else {
        n
    }
}

/// Sizes of the working buffers for a model.
pub fn scratch_sizes(
    embed_dim: usize,
    ffn_dim: usize,
    n_heads: usize,
    window_size: usize,
    head_dim: usize,
) -> (s: ScratchSizes)
    requires
        embed_dim * 4 <= usize::MAX,
        ffn_dim * 4 <= usize::MAX,
        at_least_one(n_heads as int) * head_dim * 4 <= usize::MAX,
        n_heads * window_size * 4 <= usize::MAX,
    ensures
        s.d_x == embed_dim * 4,
        s.d_x_norm == embed_dim * 4,
        s.d_attn == embed_dim * 4,
        s.d_down == embed_dim * 4,
        s.d_gate == ffn_dim * 4,
        s.d_up == ffn_dim * 4,
        s.d_q == at_least_one(n_heads as int) * head_dim * 4,
        s.d_k == s.d_q,
        s.d_v == s.d_q,
        s.d_scores == n_heads * window_size * 4,
{
    let e: usize = embed_dim * 4;
    let f: usize = ffn_dim * 4;
    let heads: usize = if n_heads < 1 {
        1
    } else {
        n_heads
    };
    proof {
        assert(0 <= heads * head_dim) by (nonlinear_arith)
            requires
                0 <= heads,
                0 <= head_dim,
        ;
        assert(0 <= n_heads * window_size) by (nonlinear_arith)
            requires
                0 <= n_heads,
                0 <= window_size,
        ;
    }
    let qkv: usize = heads * head_dim * 4;
    let scores: usize = n_heads * window_size * 4;
    ScratchSizes {
        d_x: e,
        d_x_norm: e,
        d_q: qkv,
        d_k: qkv,
        d_v: qkv,
        d_attn: e,
        d_gate: f,
        d_up: f,
        d_down: e,
        d_scores: scores,
    }
}

/// Bytes of the key or value buffer on the device, in half precision.
pub fn kv_buffer_bytes(n_kv_heads: usize, window_size: usize, head_dim: usize) -> (n: u64)
    requires
        n_kv_heads * window_size <= u64::MAX,
        n_kv_heads * window_size * head_dim * 2 <= u64::MAX,
    ensures
        n == n_kv_heads * window_size * head_dim * 2,
{
    proof {
        assert(0 <= n_kv_heads * window_size * head_dim) by (nonlinear_arith)
            requires
                0 <= n_kv_heads,
                0 <= window_size,
                0 <= head_dim,
        ;
    }
    n_kv_heads as u64 * window_size as u64 * head_dim as u64 * 2
}

/// Loading a program leaves those that are found as they are, and a program that was
/// never loaded is not found.
pub proof fn law_other_shaders_are_kept(
    modules: Seq<(ShaderType, u64)>,
    shader: ShaderType,
    entry: (ShaderType, u64),
    i: int,
)
    requires
        0 <= i <= modules.len(),
    ensures
        module_of(modules, shader, i) is Some ==> module_of(modules.push(entry), shader, i)
            == module_of(modules, shader, i),
        entry.0 != shader ==> module_of(modules.push(entry), shader, i) == module_of(
            modules,
            shader,
            i,
        ),
        module_of(modules, shader, i) matches Some(m) ==> exists|k: int|
            i <= k < modules.len() && #[trigger] modules[k] == (shader, m),
    decreases modules.len() - i,
{
    if i < modules.len() {
        assert(modules.push(entry)[i] == modules[i]);
        if modules[i].0 != shader {
            law_other_shaders_are_kept(modules, shader, entry, i + 1);
        } else {
            assert(modules[i] == (shader, modules[i].1));
        }
    } else {
        assert(modules.push(entry)[i] == entry);
        assert(module_of(modules.push(entry), shader, i + 1) is None);
    }
}

/// A pipeline that was created is found again under its program; others stay.
pub proof fn law_created_pipeline_is_found(
    pipelines: Seq<(ShaderType, u64, u64)>,
    shader: ShaderType,
    entry: (ShaderType, u64, u64),
    i: int,
)
    requires
        0 <= i <= pipelines.len(),
    ensures
        pipeline_of(pipelines, shader, i) is Some ==> pipeline_of(pipelines.push(entry), shader, i)
            == pipeline_of(pipelines, shader, i),
        pipeline_of(pipelines, shader, i) is None ==> pipeline_of(
            pipelines.push(entry),
            shader,
            i,
        ) == (if entry.0 == shader {
            Some(entry.1)
        } else {
            None
        }),
    decreases pipelines.len() - i,
{
    if i < pipelines.len() {
        assert(pipelines.push(entry)[i] == pipelines[i]);
        if pipelines[i].0 != shader {
            law_created_pipeline_is_found(pipelines, shader, entry, i + 1);
        }
    } else {
        assert(pipelines.push(entry)[i] == entry);
        assert(pipeline_of(pipelines.push(entry), shader, i + 1) is None);
    }
}

/// The memory type is the first that the filter admits and that has all wanted
/// properties.
pub proof fn law_memory_type_is_the_first_that_suits(
    filter: u32,
    wanted: u32,
    types: Seq<u32>,
    i: int,
    k: int,
)
    requires
        0 <= i <= k < types.len() <= 32,
        filter & (1u32 << (k as u32)) != 0,
        types[k] & wanted == wanted,
    ensures
        memory_type(filter, wanted, types, i) matches Some(t) && {
            &&& i <= t <= k
            &&& filter & (1u32 << t) != 0
            &&& types[t as int] & wanted == wanted
        },
    decreases types.len() - i,
{
    if i < k && !(filter & (1u32 << (i as u32)) != 0 && types[i] & wanted == wanted) {
        law_memory_type_is_the_first_that_suits(filter, wanted, types, i + 1, k);
    }
}

/// Without a memory type that suits there is none.
pub proof fn law_unsuitable_types_are_refused(filter: u32, wanted: u32, types: Seq<u32>, i: int)
    requires
        0 <= i <= types.len() <= 32,
        forall|k: int|
            i <= k < types.len() ==> filter & (1u32 << (k as u32)) == 0 || (#[trigger] types[k])
                & wanted != wanted,
    ensures
        memory_type(filter, wanted, types, i) is None,
    decreases types.len() - i,
{
    if i < types.len() {
        assert(filter & (1u32 << (i as u32)) == 0 || types[i] & wanted != wanted);
        law_unsuitable_types_are_refused(filter, wanted, types, i + 1);
    }
}

} // verus!
