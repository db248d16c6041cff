//! One request from prompt to last token: every decision between two pieces of
//! arithmetic.

use crate::aimd::{ramp_start, scaled, AimdRamp};
use crate::draft_file::{save_due, SAVE_INTERVAL};
use crate::forward::{walk_start, LayerWalk, WalkOptions};
use crate::fugu::{attention_for, AttentionStrategy, FuguOrchestrator, SystemSnapshot};
use crate::ieee::{less64, lt64};
use crate::linear::ascending;
use crate::model::{group_views, LayerGroup};
use crate::pattern_draft::MatchConfidence;
use crate::policy::{adapt_threads, clamped, PolicyReply, MAX_POLICY_THREADS};
use vstd::prelude::*;

verus! {

/// Prompt tokens that are processed at a time.
pub const PREFILL_CHUNK_SIZE: usize = 4096;

/// The token that stands for an empty prompt.
pub const START_TOKEN: usize = 1;

/// Steps between two looks at the policy script.
pub const RELOAD_STEPS: usize = 10;

/// Steps between two looks at the sensors.
pub const TELEMETRY_STEPS: usize = 20;

/// Threads when nothing holds back.
pub const FULL_THREADS: usize = 6;

/// Pages that are fetched ahead at most.
pub const MAX_PREDICTED_PAGES: usize = 64;

/// Stride of sparse attention before its window.
pub const GLOBAL_STRIDE: usize = 64;

/// A draft counts above this many percent.
pub const DRAFT_PERCENT: u32 = 60;

/// The least budget, in eighths, at which weights are fetched ahead.
pub const PREFETCH_BUDGET: u32 = 4;

/// 85 degrees.
pub const HOT: u64 = 0x4055_4000_0000_0000;

/// 80 degrees.
pub const WARM: u64 = 0x4054_0000_0000_0000;

/// 78 degrees.
pub const MILD: u64 = 0x4053_8000_0000_0000;

/// The bit pattern of 0.86.
pub const FULL_COHERENCE: u64 = 0x3feb_851e_b851_eb85;

/// The bit pattern of 0.85.
pub const STRESS_COHERENCE: u64 = 0x3feb_3333_3333_3333;

/// The bit pattern of 0.7.
pub const PART_COHERENCE: u64 = 0x3fe6_6666_6666_6666;

/// The bit pattern of 0.001.
pub const LEAST_IMPORTANCE: u64 = 0x3f50_624d_d2f1_a9fc;

/// The prompt of a request: its messages, formatted, before its plain text.
pub fn choose_prompt(messages: Option<String>, prompt: Option<String>) -> (s: String)
    ensures
        match messages {
            Some(m) => s == m,
            None => match prompt {
                Some(p) => s == p,
                None => s@ == ""@,
            },
        },
{
    match messages {
        Some(m) => m,
        None => match prompt {
            Some(p) => p,
            None => "".to_owned(),
        },
    }
}

/// The tokens of a prompt; an empty one has the start token.
pub fn prompt_tokens<F: Fn(&str) -> Vec<usize>>(prompt: &str, encode: F) -> (r: Vec<usize>)
    requires
        encode.requires((prompt,)),
    ensures
        prompt@.len() == 0 ==> r@ == seq![START_TOKEN],
        prompt@.len() > 0 ==> encode.ensures((prompt,), r),
{
    if prompt.is_empty() {
        let mut r: Vec<usize> = Vec::new();
        r.push(START_TOKEN);
        assert(r@ =~= seq![START_TOKEN]);
        return r;
    }
    encode(prompt)
}

/// Threads at the start: temperature and coherence are doubles.
pub open spec fn threads_at(temp: u64, coherence: u64) -> usize {
    if less64(HOT, temp) {
        1
    } else if less64(FULL_COHERENCE, coherence) {
        FULL_THREADS
    } else if less64(PART_COHERENCE, coherence) {
        4
    } else if less64(MILD, temp) {
        2
    } else {
        FULL_THREADS
    }
}

pub fn initial_threads(temp: u64, coherence: u64) -> (n: usize)
    ensures
        n == threads_at(temp, coherence),
{
    if lt64(HOT, temp) {
        1
    } else if lt64(FULL_COHERENCE, coherence) {
        FULL_THREADS
    } else if lt64(PART_COHERENCE, coherence) {
        4
    } else if lt64(MILD, temp) {
        2
    } else {
        FULL_THREADS
    }
}

/// A part of the prompt: from `start` up to `end`.
#[derive(Debug, Clone, Copy, PartialEq, Eq, Structural)]
pub struct PromptChunk {
    pub start: usize,
    pub end: usize,
}

/// Chunk `i` of a prompt.
pub open spec fn chunk_at(len: int, i: int) -> PromptChunk {
    PromptChunk {
        start: (i * 4096) as usize,
        end: (if (i + 1) * 4096 < len {
            (i + 1) * 4096
        } else {
            len
        }) as usize,
    }
}

/// The chunks a prompt is processed in.
pub fn prefill_batch(len: usize) -> (r: Vec<PromptChunk>)
    requires
        len <= usize::MAX - 4096,
    ensures
        r@ == Seq::new(((len + 4095) / 4096) as nat, |i: int| chunk_at(len as int, i)),
{
    let mut r: Vec<PromptChunk> = Vec::new();
    let mut offset: usize = 0;
    let ghost mut n: nat = 0;
    while offset < len
        invariant
            len <= usize::MAX - 4096,
            offset == (if n * 4096 < len {
                n * 4096
            } else {
                len as nat
            }),
            n <= (len + 4095) / 4096,
            r@ == Seq::new(n, |i: int| chunk_at(len as int, i)),
        decreases len - offset,
    {
        let end: usize = if offset + PREFILL_CHUNK_SIZE < len {
            offset + PREFILL_CHUNK_SIZE
        } else {
            len
        };
        r.push(PromptChunk { start: offset, end });
        proof {
            assert(r@ =~= Seq::new(n + 1, |i: int| chunk_at(len as int, i)));
            n = n + 1;
        }
        offset = end;
    }
    r
}

/// The chunks follow one another from the first token to the last.
pub proof fn law_chunks_cover_prompt(len: int, i: int)
    requires
        0 < len <= usize::MAX,
        0 <= i < (len + 4095) / 4096,
    ensures
        chunk_at(len, i).start < chunk_at(len, i).end <= len,
        chunk_at(len, i).end - chunk_at(len, i).start <= PREFILL_CHUNK_SIZE,
        chunk_at(len, 0).start == 0,
        i + 1 < (len + 4095) / 4096 ==> chunk_at(len, i).end == chunk_at(len, i + 1).start,
        i + 1 == (len + 4095) / 4096 ==> chunk_at(len, i).end == len,
{
}

/// A position of a chunk: where it is, and how long the sequence is then.
#[derive(Debug, Clone, Copy, PartialEq, Eq, Structural)]
pub struct PrefillPosition {
    pub pos: usize,
    pub seq_len: usize,
}

/// A chunk of the prompt on its way through the layers.
pub struct PrefillPlan {
    /// Every layer by itself: products on the processor, attention on the device
    /// where there is one.
    pub walk: LayerWalk,
    pub positions: Vec<PrefillPosition>,
}

/// Layers that each have weights of their own.
pub open spec fn single_groups(num_layers: int) -> Seq<Seq<usize>> {
    Seq::new(num_layers as nat, |l: int| seq![l as usize])
}

/// Plans how a chunk goes through the layers: its positions are absolute.  With a
/// device attention is tried there, at every position; products are not.
pub fn prefill_slice(chunk: &PromptChunk, num_layers: usize, device: bool) -> (p: PrefillPlan)
    requires
        chunk.start <= chunk.end < usize::MAX,
    ensures
        p.walk@.wf(),
        p.walk@ == walk_start(
            (WalkOptions { device: false, device_attention: device, managed: false }),
            single_groups(num_layers as int),
            num_layers as int,
        ),
        p.positions@ == Seq::new(
            (chunk.end - chunk.start) as nat,
            |t: int|
                PrefillPosition {
                    pos: (chunk.start + t) as usize,
                    seq_len: (chunk.start + t + 1) as usize,
                },
        ),
{
    let mut groups: Vec<LayerGroup> = Vec::new();
    let mut l: usize = 0;
    while l < num_layers
        invariant
            l <= num_layers,
            group_views(groups@) == single_groups(l as int),
        decreases num_layers - l,
    {
        let mut g: LayerGroup = Vec::new();
        g.push(l);
        assert(g@ =~= seq![l]);
        let ghost before = group_views(groups@);
        groups.push(g);
        assert(group_views(groups@) =~= before.push(seq![l]));
        assert(before.push(seq![l]) =~= single_groups(l + 1));
        l = l + 1;
    }
    let mut positions: Vec<PrefillPosition> = Vec::new();
    let mut pos: usize = chunk.start;
    while pos < chunk.end
        invariant
            chunk.start <= pos <= chunk.end < usize::MAX,
            positions@ == Seq::new(
                (pos - chunk.start) as nat,
                |t: int|
                    PrefillPosition {
                        pos: (chunk.start + t) as usize,
                        seq_len: (chunk.start + t + 1) as usize,
                    },
            ),
        decreases chunk.end - pos,
    {
        positions.push(PrefillPosition { pos, seq_len: pos + 1 });
        assert(positions@ =~= Seq::new(
            (pos + 1 - chunk.start) as nat,
            |t: int|
                PrefillPosition {
                    pos: (chunk.start + t) as usize,
                    seq_len: (chunk.start + t + 1) as usize,
                },
        ));
        pos = pos + 1;
    }
    let walk = LayerWalk::new(
        WalkOptions { device: false, device_attention: device, managed: false },
        groups,
        num_layers,
    );
    PrefillPlan { walk, positions }
}

/// What to do before a step's layers.
#[derive(Debug)]
pub struct StepPlan {
    pub step: usize,
    /// The token that goes in.
    pub token: usize,
    /// Pages to bring into memory.
    pub heat: Vec<usize>,
    pub reload_policy: bool,
    pub read_sensors: bool,
}

/// What to do after a token was chosen.
#[derive(Debug, Clone, Copy, PartialEq, Eq, Structural)]
pub struct TokenNote {
    /// The draft had the token.
    pub draft_hit: bool,
    pub save_draft: bool,
    pub prefetch_weights: bool,
}

/// A draft has the sampled token and is sure enough of it.
pub open spec fn draft_agrees(drafted: Option<(usize, MatchConfidence)>, sampled: usize) -> bool {
    match drafted {
        Some(d) => d.1.spec_percent() > DRAFT_PERCENT && d.0 == sampled,
        None => false,
    }
}

/// How the processor computes attention.
#[derive(Debug, Clone, Copy, PartialEq, Eq, Structural)]
pub enum HostAttention {
    /// Over all positions, with the weight of each taken down.
    Weighed,
    Sparse { window: usize, stride: usize },
    Candidates { window: usize, stride: usize },
}

pub fn host_attention(strategy: &AttentionStrategy) -> (h: HostAttention)
    ensures
        h == (match *strategy {
            AttentionStrategy::Full => HostAttention::Weighed,
            AttentionStrategy::Sparse { window, num_random } => HostAttention::Sparse {
                window,
                stride: GLOBAL_STRIDE,
            },
            AttentionStrategy::SparseWithDSPark { window, sentinel_stride, num_dspark } =>
            HostAttention::Candidates { window, stride: sentinel_stride },
        }),
{
    match strategy {
        AttentionStrategy::Full => HostAttention::Weighed,
        AttentionStrategy::Sparse { window, .. } => HostAttention::Sparse {
            window: *window,
            stride: GLOBAL_STRIDE,
        },
        AttentionStrategy::SparseWithDSPark { window, sentinel_stride, .. } =>
        HostAttention::Candidates { window: *window, stride: *sentinel_stride },
    }
}

/// Where a request stands.
#[derive(Debug, Clone, Copy, PartialEq, Eq, Structural)]
pub enum Phase {
    /// Before a step.
    Ready,
    /// In a step, without its token.
    Running,
    /// In a step, its token chosen.
    Chosen,
    /// In a step, its token delivered.
    Delivered,
    /// Nobody listens any more.
    Closed,
}

pub struct Generation {
    pub prompt: Vec<usize>,
    pub max_tokens: usize,
    pub step: usize,
    pub tokens: Vec<usize>,
    pub tokens_generated: usize,
    pub n_threads: usize,
    pub predicted_pages: Vec<usize>,
    pub draft_observations: usize,
    pub aimd: AimdRamp,
    pub fugu: FuguOrchestrator,
    /// Doubles, as bit patterns.
    pub temperature: u64,
    pub coherence: u64,
    pub phase: Phase,
}

impl Generation {
    /// The steps of the request.
    pub open spec fn total_steps(&self) -> int {
        self.max_tokens + self.prompt@.len() - 1
    }

    /// All tokens so far are the prompt and what was generated, and the next one
    /// to go in is there.
    pub open spec fn wf(&self) -> bool {
        &&& self.prompt@.len() > 0
        &&& self.prompt@.len() + self.max_tokens < usize::MAX
        &&& self.aimd.wf()
        &&& match self.phase {
            Phase::Ready => self.step <= self.total_steps() || (self.max_tokens == 0 && self.step
                == self.prompt@.len()),
            _ => self.step < self.total_steps(),
        }
        &&& self.prompt@.is_prefix_of(self.tokens@)
        &&& self.tokens@.len() == self.step + 1 + (match self.phase {
            Phase::Chosen => 1int,
            Phase::Delivered => 1int,
            Phase::Closed => 1int,
            _ => 0int,
        })
        &&& self.tokens@.len() == self.prompt@.len() + self.tokens_generated + (match self.phase {
            Phase::Chosen => 1int,
            Phase::Closed => 1int,
            _ => 0int,
        })
    }

    /// A request for `max_tokens` tokens, before its prompt went in.
    ///
    /// With more than one prompt token the prompt goes in as a whole and gives
    /// `first`, the first token; with one the steps start with it.
    pub fn new(
        prompt: Vec<usize>,
        max_tokens: usize,
        first: Option<usize>,
        draft_observations: usize,
        fugu: FuguOrchestrator,
        temperature: u64,
        coherence: u64,
        now_ns: u64,
    ) -> (g: Self)
        requires
            prompt@.len() > 0,
            prompt@.len() + max_tokens < usize::MAX,
            first is Some <==> prompt@.len() > 1,
        ensures
            g.wf(),
            g.prompt == prompt,
            g.max_tokens == max_tokens,
            g.tokens@ == (match first {
                Some(t) => prompt@.push(t),
                None => prompt@,
            }),
            g.step == (match first {
                Some(t) => prompt@.len() as int,
                None => 0,
            }),
            g.tokens_generated == (match first {
                Some(t) => 1int,
                None => 0,
            }),
            g.n_threads == threads_at(temperature, coherence),
            g.predicted_pages@.len() == 0,
            g.draft_observations == draft_observations,
            g.fugu == fugu,
            g.aimd == ramp_start(now_ns),
            g.temperature == temperature,
            g.coherence == coherence,
            g.phase == Phase::Ready,
    {
        let mut tokens: Vec<usize> = Vec::new();
        let mut i: usize = 0;
        while i < prompt.len()
            invariant
                i <= prompt@.len(),
                tokens@ == prompt@.subrange(0, i as int),
            decreases prompt@.len() - i,
        {
            tokens.push(prompt[i]);
            assert(prompt@.subrange(0, i + 1) =~= prompt@.subrange(0, i as int).push(
                prompt@[i as int],
            ));
            i = i + 1;
        }
        assert(prompt@.subrange(0, prompt@.len() as int) =~= prompt@);
        let mut step: usize = 0;
        let mut tokens_generated: usize = 0;
        if let Some(t) = first {
            tokens.push(t);
            step = prompt.len();
            tokens_generated = 1;
        }
        Generation {
            prompt,
            max_tokens,
            step,
            tokens,
            tokens_generated,
            n_threads: initial_threads(temperature, coherence),
            predicted_pages: Vec::new(),
            draft_observations,
            aimd: AimdRamp::new(now_ns),
            fugu,
            temperature,
            coherence,
            phase: Phase::Ready,
        }
    }

    /// Starts the next step, if there is one: the token that goes in is the one
    /// that came out last.
    pub fn begin_step(&mut self) -> (r: Option<StepPlan>)
        requires
            old(self).wf(),
            old(self).phase == Phase::Ready || old(self).phase == Phase::Closed,
        ensures
            final(self).wf(),
            r is Some <==> old(self).phase == Phase::Ready && old(self).step < old(self).total_steps(),
            r is None ==> *final(self) == *old(self),
            r matches Some(p) ==> {
                &&& p.step == old(self).step
                &&& p.token == old(self).tokens@[old(self).step as int]
                &&& p.heat == old(self).predicted_pages
                &&& p.reload_policy == (p.step as int % 10 == 0)
                &&& p.read_sensors == (p.step as int % 20 == 0 && p.step > 0)
                &&& *final(self) == (Generation {
                    phase: Phase::Running,
                    predicted_pages: final(self).predicted_pages,
                    ..*old(self)
                })
                &&& final(self).predicted_pages@.len() == 0
            },
    {
        match self.phase {
            Phase::Ready => {},
            _ => return None,
        }
        let total: usize = self.max_tokens + self.prompt.len() - 1;
        let step: usize = self.step;
        if step >= total {
            return None;
        }
        let token: usize = self.tokens[self.tokens.len() - 1];
        let mut heat: Vec<usize> = Vec::new();
        std::mem::swap(&mut heat, &mut self.predicted_pages);
        self.phase = Phase::Running;
        Some(
            StepPlan {
                step,
                token,
                heat,
                reload_policy: step % RELOAD_STEPS == 0,
                read_sensors: step % TELEMETRY_STEPS == 0 && step > 0,
            },
        )
    }

    /// The step's way through the layers; `device` tells whether there is one.
    pub fn layer_walk(groups: Vec<LayerGroup>, num_layers: usize, device: bool) -> (w: LayerWalk)
        requires
            forall|i: int|
                0 <= i < group_views(groups@).len() ==> (#[trigger] group_views(groups@)[i]).len()
                    > 0,
        ensures
            w@.wf(),
            w@ == walk_start(
                (WalkOptions { device, device_attention: device, managed: true }),
                group_views(groups@),
                num_layers as int,
            ),
    {
        LayerWalk::new(
            WalkOptions { device, device_attention: device, managed: true },
            groups,
            num_layers,
        )
    }

    /// Heat or a drop in frequency means stress.
    pub open spec fn is_stressed(temp: u64, coherence: u64) -> bool {
        less64(WARM, temp) || less64(coherence, STRESS_COHERENCE)
    }

    /// Takes in sensor readings, moves the budget and returns the threads for it,
    /// of which the processor's share of the power is then taken.
    pub fn take_sensors(&mut self, temp: u64, coherence: u64, now_ns: u64) -> (n: usize)
        requires
            old(self).wf(),
            old(self).aimd.cycles < u64::MAX,
            old(self).aimd.halvings < u64::MAX,
        ensures
            final(self).wf(),
            n == scaled(
                if Self::is_stressed(temp, coherence) {
                    2
                } else {
                    6
                },
                final(self).aimd.budget as int,
            ),
            *final(self) == (Generation {
                temperature: temp,
                coherence,
                aimd: old(self).aimd.assessed(Self::is_stressed(temp, coherence), now_ns),
                ..*old(self)
            }),
    {
        self.temperature = temp;
        self.coherence = coherence;
        let stressed: bool = lt64(WARM, temp) || lt64(coherence, STRESS_COHERENCE);
        let _ = self.aimd.assess(stressed, now_ns);
        let base: usize = if stressed {
            2
        } else {
            FULL_THREADS
        };
        self.aimd.scaled_threads(base)
    }

    /// Sets the threads, at least one.
    pub fn set_threads(&mut self, n: usize)
        requires
            old(self).wf(),
        ensures
            final(self).wf(),
            *final(self) == (Generation {
                n_threads: if n < 1 {
                    1
                } else {
                    n
                },
                ..*old(self)
            }),
    {
        self.n_threads = if n < 1 {
            1
        } else {
            n
        };
    }

    /// Takes in the thread count of a policy that was just loaded again; a policy
    /// that has no say leaves the threads as they are.
    pub fn take_policy(&mut self, reply: PolicyReply<i64>)
        requires
            old(self).wf(),
        ensures
            final(self).wf(),
            *final(self) == (Generation {
                n_threads: match reply {
                    PolicyReply::Value(v) => clamped(v as int, 1, MAX_POLICY_THREADS as int) as usize,
                    _ => old(self).n_threads,
                },
                ..*old(self)
            }),
    {
        self.n_threads = adapt_threads(reply, self.n_threads);
    }

    /// The state of the system before a step; the acceptance rate of drafts is a
    /// double.
    pub open spec fn snapshot(&self, seq_len: usize, accept_rate: u64) -> SystemSnapshot {
        SystemSnapshot {
            seq_len,
            cache_pressure: 0,
            n_prompt_tokens: self.prompt@.len() as usize,
            batch_size: ((self.aimd.budget + 7) / 8) as usize,
            is_prefill: false,
            coherence: self.coherence,
            dspark_accept_rate: accept_rate,
            predictive_throttle: self.aimd.budget < 8,
        }
    }

    /// How the step's attention is computed.
    pub fn plan_attention(&mut self, seq_len: usize, accept_rate: u64) -> (a: AttentionStrategy)
        requires
            old(self).wf(),
        ensures
            final(self).wf(),
            a == attention_for(old(self).snapshot(seq_len, accept_rate)),
            *final(self) == (Generation {
                fugu: old(self).fugu.decided(old(self).snapshot(seq_len, accept_rate)),
                ..*old(self)
            }),
    {
        let s = SystemSnapshot {
            seq_len,
            cache_pressure: 0,
            n_prompt_tokens: self.prompt.len(),
            batch_size: self.aimd.concurrency(),
            is_prefill: false,
            coherence: self.coherence,
            dspark_accept_rate: accept_rate,
            predictive_throttle: self.aimd.budget() < 8,
        };
        self.fugu.decide(&s).attention
    }

    /// Takes the step's token.  A draft that has it changes nothing but the note.
    pub fn choose_token(&mut self, sampled: usize, drafted: Option<(usize, MatchConfidence)>) -> (n:
        TokenNote)
        requires
            old(self).wf(),
            old(self).phase == Phase::Running,
            old(self).draft_observations < usize::MAX,
        ensures
            final(self).wf(),
            n.draft_hit == draft_agrees(drafted, sampled),
            n.save_draft == ((old(self).draft_observations + 1) % SAVE_INTERVAL as int == 0),
            n.prefetch_weights == (old(self).aimd.budget >= PREFETCH_BUDGET),
            final(self).tokens@ == old(self).tokens@.push(sampled),
            *final(self) == (Generation {
                tokens: final(self).tokens,
                draft_observations: (old(self).draft_observations + 1) as usize,
                phase: Phase::Chosen,
                ..*old(self)
            }),
    {
        let draft_hit: bool = match drafted {
            Some((token, confidence)) => confidence.percent() > DRAFT_PERCENT && token == sampled,
            None => false,
        };
        assert(self.tokens.len() <= usize::MAX);
        self.tokens.push(sampled);
        self.draft_observations = self.draft_observations + 1;
        self.phase = Phase::Chosen;
        TokenNote {
            draft_hit,
            save_draft: save_due(self.draft_observations),
            prefetch_weights: self.aimd.budget() >= PREFETCH_BUDGET,
        }
    }

    /// The pages that the next step brings into memory: each once, in order, and
    /// no more than the limit.
    pub fn plan_pages(&mut self, next: &Vec<usize>)
        requires
            old(self).wf(),
        ensures
            final(self).wf(),
            *final(self) == (Generation {
                predicted_pages: final(self).predicted_pages,
                ..*old(self)
            }),
            exists|all: Seq<usize>| #[trigger]
                lists_once(old(self).predicted_pages@ + next@, all) && final(self).predicted_pages@ == first_of(all, MAX_PREDICTED_PAGES as int),
    {
        let mut all: Vec<usize> = Vec::new();
        let ghost mut seen: Seq<usize> = Seq::empty();
        let mut i: usize = 0;
        while i < self.predicted_pages.len()
            invariant
                i <= self.predicted_pages@.len(),
                seen == self.predicted_pages@.subrange(0, i as int),
                lists_once(seen, all@),
            decreases self.predicted_pages@.len() - i,
        {
            insert_once(&mut all, self.predicted_pages[i]);
            proof {
                let x = self.predicted_pages@[i as int];
                lemma_lists_push(seen, x, all@);
                seen = seen.push(x);
                assert(seen =~= self.predicted_pages@.subrange(0, i + 1));
            }
            i = i + 1;
        }
        let ghost old_pages = self.predicted_pages@;
        assert(seen =~= old_pages);
        let mut j: usize = 0;
        assert(seen =~= old_pages + next@.subrange(0, 0));
        while j < next.len()
            invariant
                j <= next@.len(),
                seen == old_pages + next@.subrange(0, j as int),
                lists_once(seen, all@),
            decreases next@.len() - j,
        {
            insert_once(&mut all, next[j]);
            proof {
                let x = next@[j as int];
                lemma_lists_push(seen, x, all@);
                seen = seen.push(x);
                assert(seen =~= old_pages + next@.subrange(0, j + 1));
            }
            j = j + 1;
        }
        assert(next@.subrange(0, next@.len() as int) =~= next@);
        let ghost full = all@;
        assert(lists_once(old_pages + next@, full));
        all.truncate(MAX_PREDICTED_PAGES);
        assert(all@ =~= first_of(full, MAX_PREDICTED_PAGES as int));
        self.predicted_pages = all;
    }

    /// Whether the token reached the listener; without a listener the request
    /// ends.
    pub fn deliver(&mut self, ok: bool)
        requires
            old(self).wf(),
            old(self).phase == Phase::Chosen,
        ensures
            final(self).wf(),
            *final(self) == (if ok {
                Generation {
                    tokens_generated: (old(self).tokens_generated + 1) as usize,
                    phase: Phase::Delivered,
                    ..*old(self)
                }
            } else {
                Generation { phase: Phase::Closed, ..*old(self) }
            }),
    {
        assert(self.tokens.len() <= usize::MAX);
        if ok {
            self.tokens_generated = self.tokens_generated + 1;
            self.phase = Phase::Delivered;
        } else {
            self.phase = Phase::Closed;
        }
    }

    /// Ends a step whose token was delivered.
    pub fn end_step(&mut self)
        requires
            old(self).wf(),
            old(self).phase == Phase::Delivered,
        ensures
            final(self).wf(),
            *final(self) == (Generation {
                step: (old(self).step + 1) as usize,
                phase: Phase::Ready,
                ..*old(self)
            }),
    {
        assert(self.tokens.len() <= usize::MAX);
        self.step = self.step + 1;
        self.phase = Phase::Ready;
    }
}

/// A request that ran to its end generated as many tokens as were asked for; a
/// longer prompt gives its first token in any case.
pub proof fn law_request_gets_its_tokens(g: Generation)
    requires
        g.wf(),
        g.phase == Phase::Ready,
        g.step >= g.total_steps(),
    ensures
        g.tokens_generated == g.max_tokens || (g.tokens_generated == 1 && g.max_tokens == 0),
        g.tokens@ == g.prompt@ + g.tokens@.skip(g.prompt@.len() as int),
        g.tokens@.skip(g.prompt@.len() as int).len() == g.tokens_generated,
{
    assert(g.tokens@ =~= g.prompt@ + g.tokens@.skip(g.prompt@.len() as int));
}

/// `all` has the members of `s`, each once and in order.
pub open spec fn lists_once(s: Seq<usize>, all: Seq<usize>) -> bool {
    &&& ascending(all)
    &&& forall|x: usize| #[trigger] all.contains(x) <==> s.contains(x)
}

/// The first `n` of a list, or all if there are fewer.
pub open spec fn first_of(s: Seq<usize>, n: int) -> Seq<usize> {
    if s.len() <= n {
        s
    } else {
        s.take(n)
    }
}

proof fn lemma_lists_push(s: Seq<usize>, x: usize, all: Seq<usize>)
    requires
        ascending(all),
        forall|y: usize| #[trigger] all.contains(y) <==> s.contains(y) || y == x,
    ensures
        lists_once(s.push(x), all),
{
    assert forall|y: usize| #[trigger] all.contains(y) <==> s.push(x).contains(y) by {
        if s.contains(y) {
            let k = s.index_of(y);
            assert(s.push(x)[k] == y);
        }
        if y == x {
            assert(s.push(x)[s.len() as int] == y);
        }
        if s.push(x).contains(y) && y != x {
            let k = s.push(x).index_of(y);
            assert(s[k] == y);
        }
    }
}

/// Puts a number in its place in an ascending list, unless it is there.
fn insert_once(list: &mut Vec<usize>, x: usize)
    requires
        ascending(old(list)@),
    ensures
        ascending(final(list)@),
        forall|y: usize| #[trigger]
            final(list)@.contains(y) <==> old(list)@.contains(y) || y == x,
{
    let mut i: usize = 0;
    while i < list.len() && list[i] < x
        invariant
            i <= list@.len(),
            list@ == old(list)@,
            forall|k: int| 0 <= k < i ==> list@[k] < x,
        decreases list@.len() - i,
    {
        i = i + 1;
    }
    if i < list.len() && list[i] == x {
        assert(list@[i as int] == x);
        return ;
    }
    let ghost before = list@;
    list.insert(i, x);
    proof {
        let after = list@;
        assert(after == before.insert(i as int, x));
        assert forall|k: int| i <= k < before.len() implies before[k] > x by {
            if k > i {
                assert(before[i as int] < before[k]);
            }
        }
        assert forall|y: usize| #[trigger] after.contains(y) <==> before.contains(y) || y == x by {
            if before.contains(y) {
                let k = before.index_of(y);
                if k < i {
                    assert(after[k] == y);
                } else {
                    assert(after[k + 1] == y);
                }
            }
            if y == x {
                assert(after[i as int] == y);
            }
            if after.contains(y) && y != x {
                let k = after.index_of(y);
                if k < i {
                    assert(before[k] == y);
                } else {
                    assert(before[k - 1] == y);
                }
            }
        }
    }
}

/// The positions among the first `n` that weigh enough to be kept in mind.
pub open spec fn weighty(weights: Seq<u64>, n: int) -> Seq<usize>
    decreases n,
{
    if n <= 0 {
        Seq::empty()
    } else if less64(LEAST_IMPORTANCE, weights[n - 1]) {
        weighty(weights, n - 1).push((n - 1) as usize)
    } else {
        weighty(weights, n - 1)
    }
}

/// The positions whose attention weight, a double, is kept in mind.
pub fn important_positions(weights: &Vec<u64>) -> (r: Vec<usize>)
    ensures
        r@ == weighty(weights@, weights@.len() as int),
{
    let mut r: Vec<usize> = Vec::new();
    let mut i: usize = 0;
    while i < weights.len()
        invariant
            i <= weights@.len(),
            r@ == weighty(weights@, i as int),
        decreases weights@.len() - i,
    {
        if lt64(LEAST_IMPORTANCE, weights[i]) {
            r.push(i);
        }
        i = i + 1;
    }
    r
}

/// Where the rows of a group lie in a matrix of `ffn_dim` rows that starts at
/// `offset`: start and length in bytes, nothing without rows.
pub fn expert_range(
    offset: usize,
    len: usize,
    ffn_dim: usize,
    start_row: usize,
    end_row: usize,
) -> (r: Option<(usize, usize)>)
    requires
        start_row <= end_row <= ffn_dim,
        offset + len <= usize::MAX,
    ensures
        r is Some <==> start_row < end_row,
        r matches Some(p) ==> {
            &&& p.0 == offset + start_row * (len as int / ffn_dim as int)
            &&& p.1 == (end_row - start_row) * (len as int / ffn_dim as int)
            &&& p.0 + p.1 <= offset + len
        },
{
    if end_row == start_row {
        return None;
    }
    let row_size: usize = len / ffn_dim;
    proof {
        vstd::arithmetic::div_mod::lemma_fundamental_div_mod(len as int, ffn_dim as int);
        assert(0 <= start_row * row_size && start_row * row_size + (end_row - start_row) * row_size
            <= len && 0 <= (end_row - start_row) * row_size) by (nonlinear_arith)
            requires
                len == ffn_dim * row_size + len as int % ffn_dim as int,
                0 <= len as int % ffn_dim as int,
                0 <= start_row <= end_row <= ffn_dim,
                0 <= row_size,
        ;
    }
    Some((offset + start_row * row_size, (end_row - start_row) * row_size))
}

/// Requests that run at the same time, and what came of each.
pub struct RequestBoard {
    pub pending: Vec<usize>,
    pub results: Vec<Option<String>>,
}

/// Why a request has no text.
#[derive(Debug, Clone, Copy, PartialEq, Eq, Structural)]
pub enum BatchError {
    RequestFailed,
}

impl RequestBoard {
    /// A board of `n` requests, all pending.
    pub fn new(n: usize) -> (b: Self)
        ensures
            b.pending@ == Seq::new(n as nat, |i: int| i as usize),
            b.results@.len() == n,
            forall|i: int| 0 <= i < n ==> (#[trigger] b.results@[i]) is None,
    {
        let mut pending: Vec<usize> = Vec::new();
        let mut results: Vec<Option<String>> = Vec::new();
        let mut i: usize = 0;
        while i < n
            invariant
                i <= n,
                pending@ == Seq::new(i as nat, |i: int| i as usize),
                results@.len() == i,
                forall|k: int| 0 <= k < i ==> (#[trigger] results@[k]) is None,
            decreases n - i,
        {
            pending.push(i);
            results.push(None);
            assert(pending@ =~= Seq::new((i + 1) as nat, |i: int| i as usize));
            i = i + 1;
        }
        RequestBoard { pending, results }
    }

    /// Workers that are worth starting.
    pub fn workers(&self, max_concurrency: usize) -> (n: usize)
        ensures
            n == (if max_concurrency < self.results@.len() {
                max_concurrency as int
            } else {
                self.results@.len() as int
            }),
    {
        if max_concurrency < self.results.len() {
            max_concurrency
        } else {
            self.results.len()
        }
    }

    /// Takes the last of the pending requests.
    pub fn take(&mut self) -> (r: Option<usize>)
        ensures
            final(self).results == old(self).results,
            r is Some <==> old(self).pending@.len() > 0,
            r matches Some(i) ==> {
                &&& i == old(self).pending@.last()
                &&& final(self).pending@ == old(self).pending@.drop_last()
            },
            r is None ==> final(self).pending@ == old(self).pending@,
    {
        self.pending.pop()
    }

    /// Keeps the text of a request.
    pub fn finish(&mut self, request: usize, text: String)
        requires
            request < old(self).results@.len(),
        ensures
            final(self).pending == old(self).pending,
            final(self).results@ == old(self).results@.update(request as int, Some(text)),
    {
        self.results.set(request, Some(text));
    }

    /// The text of each request, in the order of the requests.
    pub fn into_results(self) -> (r: Vec<Result<String, BatchError>>)
        ensures
            r@.len() == self.results@.len(),
            forall|i: int|
                0 <= i < r@.len() ==> (#[trigger] r@[i]) == (match self.results@[i] {
                    Some(s) => Ok::<String, BatchError>(s),
                    None => Err(BatchError::RequestFailed),
                }),
    {
        let mut r: Vec<Result<String, BatchError>> = Vec::new();
        let mut i: usize = 0;
        while i < self.results.len()
            invariant
                i <= self.results@.len(),
                r@.len() == i,
                forall|k: int|
                    0 <= k < i ==> (#[trigger] r@[k]) == (match self.results@[k] {
                        Some(s) => Ok::<String, BatchError>(s),
                        None => Err(BatchError::RequestFailed),
                    }),
            decreases self.results@.len() - i,
        {
            match &self.results[i] {
                Some(s) => {
                    r.push(Ok(s.clone()));
                },
                None => {
                    r.push(Err(BatchError::RequestFailed));
                },
            }
            i = i + 1;
        }
        r
    }
}

/// Threads at the start: one above 85 degrees; otherwise six, unless the processor lost
/// frequency and is above 78 degrees.  Warmer never means more threads.
pub proof fn law_heat_costs_threads(temp: u64, coherence: u64, cooler: u64)
    ensures
        less64(0x4055_4000_0000_0000, temp) ==> threads_at(temp, coherence) == 1,
        !less64(0x4055_4000_0000_0000, temp) && less64(0x3feb_851e_b851_eb85, coherence)
            ==> threads_at(temp, coherence) == 6,
        !less64(0x4055_4000_0000_0000, temp) && !less64(0x3feb_851e_b851_eb85, coherence)
            && less64(0x3fe6_6666_6666_6666, coherence) ==> threads_at(temp, coherence) == 4,
        !less64(0x3fe6_6666_6666_6666, coherence) && less64(0x4053_8000_0000_0000, temp)
            ==> threads_at(temp, coherence) <= 2,
        !less64(0x3fe6_6666_6666_6666, coherence) && !less64(0x4053_8000_0000_0000, temp)
            ==> threads_at(temp, coherence) == 6,
        less64(cooler, temp) ==> threads_at(temp, coherence) <= threads_at(cooler, coherence),
        1 <= threads_at(temp, coherence) <= 6,
{
}

/// Above 80 degrees, or below 85 hundredths of the frequency, there is stress.
pub proof fn law_stress_has_two_signs(temp: u64, coherence: u64)
    ensures
        less64(0x4054_0000_0000_0000, temp) ==> Generation::is_stressed(temp, coherence),
        less64(coherence, 0x3feb_3333_3333_3333) ==> Generation::is_stressed(temp, coherence),
        !less64(0x4054_0000_0000_0000, temp) && !less64(coherence, 0x3feb_3333_3333_3333)
            ==> !Generation::is_stressed(temp, coherence),
{
}

/// Only an exact match makes a draft sure enough, and only for the token that was
/// sampled.
pub proof fn law_exact_drafts_agree(token: usize, confidence: MatchConfidence, sampled: usize)
    ensures
        draft_agrees(Some((token, confidence)), sampled) <==> confidence is Exact && token
            == sampled,
        !draft_agrees(None, sampled),
{
}

/// Every layer is a group by itself.
pub proof fn law_layers_stand_alone(num_layers: int, l: int)
    requires
        0 <= l < num_layers <= usize::MAX,
    ensures
        single_groups(num_layers).len() == num_layers,
        single_groups(num_layers)[l].len() == 1,
        single_groups(num_layers)[l][0] == l,
{
}

/// What a step is planned by: the sequence and the acceptance rate as given, the length
/// of the prompt, and the budget, below one of which throttling is ahead.
pub proof fn law_plan_sees_the_budget(g: Generation, seq_len: usize, accept_rate: u64)
    requires
        g.wf(),
    ensures
        ({
            let s = g.snapshot(seq_len, accept_rate);
            &&& s.seq_len == seq_len
            &&& s.dspark_accept_rate == accept_rate
            &&& s.n_prompt_tokens == g.prompt@.len()
            &&& s.coherence == g.coherence
            &&& !s.is_prefill
            &&& s.cache_pressure == 0
            &&& s.predictive_throttle <==> g.aimd.budget < 8
            &&& 8 * s.batch_size >= g.aimd.budget
            &&& 8 * (s.batch_size - 1) < g.aimd.budget
        }),
{
    assert(g.prompt@.len() == g.prompt.len());
}

/// A list that names the members of another once and in order is the only one.
pub proof fn law_listing_is_unique(s: Seq<usize>, a: Seq<usize>, b: Seq<usize>)
    requires
        lists_once(s, a),
        lists_once(s, b),
    ensures
        a == b,
    decreases a.len(),
{
    if a.len() == 0 {
        if b.len() > 0 {
            assert(b.contains(b[0]));
            assert(a.contains(b[0]));
        }
    } else {
        let x = a.last();
        assert(a.contains(x));
        assert(b.contains(x));
        let j = choose|j: int| 0 <= j < b.len() && b[j] == x;
        let y = b.last();
        assert(b.contains(y));
        assert(a.contains(y));
        let i = choose|i: int| 0 <= i < a.len() && a[i] == y;
        assert(a[i] <= a[a.len() - 1]);
        assert(b[j] <= b[b.len() - 1]);
        assert(x == y);
        let a2 = a.drop_last();
        let b2 = b.drop_last();
        assert forall|z: usize| #[trigger] b2.contains(z) implies a2.contains(z) by {
            let k = choose|k: int| 0 <= k < b2.len() && b2[k] == z;
            assert(b[k] == z);
            assert(b[k] < b[b.len() - 1]);
            assert(b.contains(z));
            assert(a.contains(z));
            let m = choose|m: int| 0 <= m < a.len() && a[m] == z;
            assert(a2[m] == z);
        }
        assert forall|z: usize| #[trigger] a2.contains(z) implies b2.contains(z) by {
            let k = choose|k: int| 0 <= k < a2.len() && a2[k] == z;
            assert(a[k] == z);
            assert(a[k] < a[a.len() - 1]);
            assert(a.contains(z));
            assert(b.contains(z));
            let m = choose|m: int| 0 <= m < b.len() && b[m] == z;
            assert(b2[m] == z);
        }
        assert forall|z: usize| #[trigger] a2.contains(z) <==> a2.contains(z) by {}
        law_listing_is_unique(a2, a2, b2);
        assert(a =~= a2.push(x));
        assert(b =~= b2.push(x));
    }
}

/// The pages that are brought in are the first of those that were asked for: no more
/// than 64, and all if there are no more.
pub proof fn law_first_pages_are_taken(s: Seq<usize>, n: int)
    requires
        0 <= n,
    ensures
        first_of(s, n).is_prefix_of(s),
        first_of(s, n).len() <= n,
        s.len() <= n ==> first_of(s, n) == s,
        s.len() > n ==> first_of(s, n).len() == n,
{
}

/// Positions kept in mind are those that weigh more than a thousandth, in order.
pub proof fn law_weighty_positions_are_kept(weights: Seq<u64>, n: int, k: usize)
    requires
        0 <= n <= weights.len(),
        n <= usize::MAX,
    ensures
        weighty(weights, n).contains(k) <==> k < n && less64(
            0x3f50_624d_d2f1_a9fc,
            weights[k as int],
        ),
        forall|i: int, j: int|
            0 <= i < j < weighty(weights, n).len() ==> weighty(weights, n)[i] < weighty(
                weights,
                n,
            )[j],
        forall|i: int|
            0 <= i < weighty(weights, n).len() ==> (#[trigger] weighty(weights, n)[i]) < n,
    decreases n,
{
    let s = weighty(weights, n);
    if n > 0 {
        law_weighty_positions_are_kept(weights, n - 1, k);
        let before = weighty(weights, n - 1);
        if less64(LEAST_IMPORTANCE, weights[n - 1]) {
            assert(s.last() == n - 1);
            if before.contains(k) {
                let i = choose|i: int| 0 <= i < before.len() && before[i] == k;
                assert(s[i] == k);
            }
            if s.contains(k) {
                let i = choose|i: int| 0 <= i < s.len() && s[i] == k;
                if i < before.len() {
                    assert(before[i] == k);
                }
            }
            assert(k == n - 1 ==> s[s.len() - 1] == k);
        }
    }
}

} // verus!
