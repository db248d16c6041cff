//! Choosing how a step runs: attention, products, speculation, cache.

use crate::ieee::{less64, lt64};
use vstd::prelude::*;

verus! {

/// Contexts up to this length get full attention.
pub const SPARSE_ATTENTION_THRESHOLD: usize = 512;

/// How much earlier attention turns sparse when throttling is near.
pub const THROTTLE_RELIEF: usize = 256;

pub const SPARSE_WINDOW: usize = 256;

pub const SPARSE_RANDOM_SAMPLES: usize = 32;

/// Contexts longer than this get blocks picked by similarity.
pub const DSPARK_THRESHOLD: usize = 2048;

pub const DSPARK_BLOCKS: usize = 16;

pub const SENTINEL_STRIDE: usize = 64;

/// Drafted tokens per step where speculation is on.
pub const DRAFT_TOKENS: usize = 2;

/// One in Q16.16.
pub const FP_ONE: u64 = 65536;

/// The least Q16.16 number above three tenths.
pub const SPECULATION_RATE: u64 = 19661;

/// The bit pattern of 0.8.
pub const HIGH_PRESSURE: u64 = 0x3fe9_9999_9999_999a;

#[derive(Debug, Clone, Copy, PartialEq, Eq, Structural)]
pub enum AttentionStrategy {
    /// Over all positions.
    Full,
    /// Over a recent window and samples of the past.
    Sparse { window: usize, num_random: usize },
    /// Over a recent window, sentinels at a stride and blocks picked by
    /// similarity.
    SparseWithDSPark { window: usize, sentinel_stride: usize, num_dspark: usize },
}

#[derive(Debug, Clone, Copy, PartialEq, Eq, Structural)]
pub enum GemvStrategy {
    /// Rows over threads; zero threads leave the count to the scheduler.
    RowParallel(usize),
}

#[derive(Debug, Clone, Copy, PartialEq, Eq, Structural)]
pub enum SpeculationStrategy {
    Disabled,
    /// Drafted tokens per step.
    Enabled(usize),
}

#[derive(Debug, Clone, Copy, PartialEq, Eq, Structural)]
pub enum CacheStrategy {
    Normal,
    /// Keep pages in main memory.
    RamPreferred,
}

#[derive(Debug, Clone, Copy, PartialEq, Eq, Structural)]
pub struct FuguStrategy {
    pub attention: AttentionStrategy,
    pub gemv: GemvStrategy,
    pub speculation: SpeculationStrategy,
    pub cache: CacheStrategy,
}

/// The state of the system before a step; fractions are doubles, as bit
/// patterns.
#[derive(Debug, Clone, Copy, PartialEq, Eq, Structural)]
pub struct SystemSnapshot {
    pub seq_len: usize,
    /// Share of the cache in use.
    pub cache_pressure: u64,
    pub n_prompt_tokens: usize,
    pub batch_size: usize,
    pub is_prefill: bool,
    pub coherence: u64,
    /// Share of drafted tokens accepted of late.
    pub dspark_accept_rate: u64,
    /// Throttling is near.
    pub predictive_throttle: bool,
}

impl Default for SystemSnapshot {
    fn default() -> (s: Self)
        ensures
            s == (SystemSnapshot {
                seq_len: 0,
                cache_pressure: 0,
                n_prompt_tokens: 0,
                batch_size: 0,
                is_prefill: false,
                coherence: 0,
                dspark_accept_rate: 0,
                predictive_throttle: false,
            }),
    {
        SystemSnapshot {
            seq_len: 0,
            cache_pressure: 0,
            n_prompt_tokens: 0,
            batch_size: 0,
            is_prefill: false,
            coherence: 0,
            dspark_accept_rate: 0,
            predictive_throttle: false,
        }
    }
}

/// What the orchestrator has done.
#[derive(Debug, Clone, Copy, PartialEq, Eq, Structural)]
pub struct FuguDiagnostics {
    pub full_attention: u64,
    pub sparse_attention: u64,
    /// In Q16.16.
    pub accept_rate: u64,
}

pub struct FuguOrchestrator {
    pub n_layers: usize,
    pub n_heads: usize,
    pub n_kv_heads: usize,
    pub head_dim: usize,
    /// Acceptance of drafts, in Q16.16.
    pub accept_rate_ewma: u64,
    pub n_full_attention: u64,
    pub n_sparse_attention: u64,
}

/// The attention of a step.
pub open spec fn attention_for(s: SystemSnapshot) -> AttentionStrategy {
    let threshold: int = if s.predictive_throttle {
        SPARSE_ATTENTION_THRESHOLD - THROTTLE_RELIEF
    } else {
        SPARSE_ATTENTION_THRESHOLD as int
    };
    let window = if s.predictive_throttle {
        (SPARSE_WINDOW / 2) as usize
    } else {
        SPARSE_WINDOW
    };
    if s.is_prefill || s.seq_len <= threshold {
        AttentionStrategy::Full
    } else if less64(0, s.dspark_accept_rate) && s.seq_len > DSPARK_THRESHOLD {
        AttentionStrategy::SparseWithDSPark {
            window,
            sentinel_stride: SENTINEL_STRIDE,
            num_dspark: DSPARK_BLOCKS,
        }
    } else {
        AttentionStrategy::Sparse { window, num_random: SPARSE_RANDOM_SAMPLES }
    }
}

pub open spec fn speculation_for(s: SystemSnapshot, accept_rate: u64) -> SpeculationStrategy {
    if !s.is_prefill && accept_rate >= SPECULATION_RATE {
        SpeculationStrategy::Enabled(DRAFT_TOKENS)
    } else {
        SpeculationStrategy::Disabled
    }
}

pub open spec fn cache_for(s: SystemSnapshot) -> CacheStrategy {
    if less64(HIGH_PRESSURE, s.cache_pressure) {
        CacheStrategy::RamPreferred
    } else {
        CacheStrategy::Normal
    }
}

/// A counter after one more event, which starts over after the largest.
pub open spec fn counted(n: u64, event: bool) -> u64 {
    if !event {
        n
    } else if n == u64::MAX {
        0
    } else {
        (n + 1) as u64
    }
}

fn count(n: u64) -> (r: u64)
    ensures
        r == counted(n, true),
{
    if n == 0xffff_ffff_ffff_ffff {
        0
    } else {
        n + 1
    }
}

impl FuguOrchestrator {
    pub fn new(n_layers: usize, n_heads: usize, n_kv_heads: usize, head_dim: usize) -> (f: Self)
        ensures
            f == (FuguOrchestrator {
                n_layers,
                n_heads,
                n_kv_heads,
                head_dim,
                accept_rate_ewma: 32768,
                n_full_attention: 0,
                n_sparse_attention: 0,
            }),
    {
        FuguOrchestrator {
            n_layers,
            n_heads,
            n_kv_heads,
            head_dim,
            accept_rate_ewma: FP_ONE / 2,
            n_full_attention: 0,
            n_sparse_attention: 0,
        }
    }

    /// The orchestrator after a decision.
    pub open spec fn decided(self, s: SystemSnapshot) -> Self {
        FuguOrchestrator {
            n_full_attention: counted(
                self.n_full_attention,
                !s.is_prefill && attention_for(s) is Full,
            ),
            n_sparse_attention: counted(
                self.n_sparse_attention,
                !(attention_for(s) is Full),
            ),
            ..self
        }
    }

    /// How the next step runs; steps outside of prefill are counted by their
    /// attention.
    pub fn decide(&mut self, s: &SystemSnapshot) -> (r: FuguStrategy)
        ensures
            r.attention == attention_for(*s),
            r.gemv == GemvStrategy::RowParallel(0),
            r.speculation == speculation_for(*s, old(self).accept_rate_ewma),
            r.cache == cache_for(*s),
            *final(self) == old(self).decided(*s),
    {
        let attention = self.decide_attention(s);
        let gemv = self.decide_gemv();
        let speculation = self.decide_speculation(s);
        let cache = self.decide_cache(s);
        FuguStrategy { attention, gemv, speculation, cache }
    }

    fn decide_attention(&mut self, s: &SystemSnapshot) -> (r: AttentionStrategy)
        ensures
            r == attention_for(*s),
            *final(self) == old(self).decided(*s),
    {
        if s.is_prefill {
            return AttentionStrategy::Full;
        }
        let threshold: usize = if s.predictive_throttle {
            SPARSE_ATTENTION_THRESHOLD - THROTTLE_RELIEF
        } else {
            SPARSE_ATTENTION_THRESHOLD
        };
        if s.seq_len <= threshold {
            self.n_full_attention = count(self.n_full_attention);
            return AttentionStrategy::Full;
        }
        self.n_sparse_attention = count(self.n_sparse_attention);
        let window: usize = if s.predictive_throttle {
            SPARSE_WINDOW / 2
        } else {
            SPARSE_WINDOW
        };
        if lt64(0, s.dspark_accept_rate) && s.seq_len > DSPARK_THRESHOLD {
            AttentionStrategy::SparseWithDSPark {
                window,
                sentinel_stride: SENTINEL_STRIDE,
                num_dspark: DSPARK_BLOCKS,
            }
        } else {
            AttentionStrategy::Sparse { window, num_random: SPARSE_RANDOM_SAMPLES }
        }
    }

    fn decide_gemv(&self) -> (r: GemvStrategy)
        ensures
            r == GemvStrategy::RowParallel(0),
    {
        GemvStrategy::RowParallel(0)
    }

    fn decide_speculation(&self, s: &SystemSnapshot) -> (r: SpeculationStrategy)
        ensures
            r == speculation_for(*s, self.accept_rate_ewma),
    {
        if !s.is_prefill && self.accept_rate_ewma >= SPECULATION_RATE {
            SpeculationStrategy::Enabled(DRAFT_TOKENS)
        } else {
            SpeculationStrategy::Disabled
        }
    }

    fn decide_cache(&self, s: &SystemSnapshot) -> (r: CacheStrategy)
        ensures
            r == cache_for(*s),
    {
        if lt64(HIGH_PRESSURE, s.cache_pressure) {
            CacheStrategy::RamPreferred
        } else {
            CacheStrategy::Normal
        }
    }

    /// Takes in the blend of the acceptance so far with a new observation,
    /// in Q16.16.
    pub fn record_acceptance(&mut self, blended: u64)
        ensures
            *final(self) == (FuguOrchestrator { accept_rate_ewma: blended, ..*old(self) }),
    {
        self.accept_rate_ewma = blended;
    }

    /// The acceptance of drafts, in Q16.16.
    pub fn accept_rate(&self) -> (r: u64)
        ensures
            r == self.accept_rate_ewma,
    {
        self.accept_rate_ewma
    }

    pub fn diagnostics(&self) -> (d: FuguDiagnostics)
        ensures
            d == (FuguDiagnostics {
                full_attention: self.n_full_attention,
                sparse_attention: self.n_sparse_attention,
                accept_rate: self.accept_rate_ewma,
            }),
    {
        FuguDiagnostics {
            full_attention: self.n_full_attention,
            sparse_attention: self.n_sparse_attention,
            accept_rate: self.accept_rate_ewma,
        }
    }
}

/// A step never attends in full when a shorter context already attends
/// sparsely, and near throttling turns attention sparse no later than
/// without.
pub proof fn law_attention_turns_sparse_once(s: SystemSnapshot, longer: usize)
    requires
        s.seq_len <= longer,
    ensures
        attention_for(SystemSnapshot { seq_len: longer, ..s }) is Full ==> attention_for(s) is Full,
        attention_for(SystemSnapshot { predictive_throttle: true, ..s }) is Full ==> attention_for(
            SystemSnapshot { predictive_throttle: false, ..s },
        ) is Full,
{
}

/// Attention is full in prefill and over short contexts: up to 512 positions, or 256
/// where throttling is near.  Otherwise it has a window of 256 positions, or 128 where
/// throttling is near; over 2048 positions, where drafts were accepted, it adds picked
/// blocks to sentinels, and samples in all other cases.
pub proof fn law_attention_by_length(s: SystemSnapshot)
    ensures
        ({
            let near = s.predictive_throttle;
            let a = attention_for(s);
            &&& a is Full <==> s.is_prefill || s.seq_len <= 256 || (!near && s.seq_len <= 512)
            &&& a matches AttentionStrategy::Sparse { window, num_random } ==> window == (if near {
                128int
            } else {
                256
            }) && num_random == 32
            &&& a matches AttentionStrategy::SparseWithDSPark {
                window,
                sentinel_stride,
                num_dspark,
            } ==> window == (if near {
                128int
            } else {
                256
            }) && sentinel_stride == 64 && num_dspark == 16
            &&& a is SparseWithDSPark <==> !s.is_prefill && s.seq_len > 2048 && less64(
                0,
                s.dspark_accept_rate,
            )
        }),
{
}

/// Two tokens are drafted exactly if at least three tenths of the drafted tokens were
/// accepted of late, and none in prefill.
pub proof fn law_speculation_by_acceptance(s: SystemSnapshot, accept_rate: u64)
    ensures
        speculation_for(s, accept_rate) == (if !s.is_prefill && 10 * accept_rate >= 3 * 65536 {
            SpeculationStrategy::Enabled(2)
        } else {
            SpeculationStrategy::Disabled
        }),
{
}

/// More pressure never makes the cache less eager to stay in main memory; what is not a
/// number, or is not over eight tenths, leaves it as it is.
pub proof fn law_cache_follows_pressure(s: SystemSnapshot, more: u64)
    requires
        less64(s.cache_pressure, more),
    ensures
        cache_for(s) == CacheStrategy::RamPreferred ==> cache_for(
            SystemSnapshot { cache_pressure: more, ..s },
        ) == CacheStrategy::RamPreferred,
        cache_for(SystemSnapshot { cache_pressure: 0x3fe9_9999_9999_999a, ..s })
            == CacheStrategy::Normal,
        cache_for(SystemSnapshot { cache_pressure: 0x3fe9_9999_9999_999b, ..s })
            == CacheStrategy::RamPreferred,
{
}

/// Every step outside of prefill is counted once, by its attention; prefill is not.
pub proof fn law_decisions_are_counted_once(f: FuguOrchestrator, s: SystemSnapshot)
    requires
        f.n_full_attention < u64::MAX,
        f.n_sparse_attention < u64::MAX,
    ensures
        ({
            let g = f.decided(s);
            let full = g.n_full_attention - f.n_full_attention;
            let sparse = g.n_sparse_attention - f.n_sparse_attention;
            &&& 0 <= full && 0 <= sparse
            &&& full + sparse == (if s.is_prefill {
                0int
            } else {
                1int
            })
            &&& sparse == 1 <==> !(attention_for(s) is Full)
            &&& g.accept_rate_ewma == f.accept_rate_ewma
        }),
{
}

/// Counters count events, and start over after the largest.
pub proof fn law_counters_count_events(n: u64, event: bool)
    ensures
        counted(n, event) == (n + (if event {
            1int
        } else {
            0int
        })) % 0x1_0000_0000_0000_0000,
{
}

} // verus!
