//! Who runs, with which settings: sessions, admission and their upkeep.

use crate::aimd::{ramp_start, scaled, AimdRamp};
use crate::ieee::{at_least32, ge32, less64, lt64};
use crate::model_registry::{
    active_vram, find_entry, law_model_is_found, names_differ, with_count, EntryView, MemoryTier,
    ModelRegistry,
};
use crate::model_swapper::{touched, ModelSwapper, SwapEvent};
use crate::thermal::{
    unheated, Telemetry, ThermalLSC, ThermalState, DEFAULT_CRITICAL_TEMP, DEFAULT_WARNING_TEMP,
};
use vstd::prelude::*;

verus! {

/// 50 milliseconds.
pub const QUEUE_GAP_MS: u64 = 0x4049_0000_0000_0000;

/// One second.
pub const INTERACTIVE_GAP_MS: u64 = 0x408f_4000_0000_0000;

/// Requests before a session is judged by its pace.
pub const WARMUP_REQUESTS: u64 = 5;

/// Prompts shorter than this count as a dialogue.
pub const SHORT_PROMPT: usize = 512;

/// Supporting models are smaller than this.
pub const COGNITIVE_MAX_BYTES: usize = 500_000_000;

/// A session is stale after this long without a request.
pub const STALE_NS: u64 = 30_000_000_000;

pub const CYCLE_INTERVAL_NS: u64 = 500_000_000;

/// Share of the budget kept free, in hundredths.
pub const SAFE_HEADROOM_PERCENT: u32 = 15;

pub const MIN_CHUNK: usize = 512;

pub const MAX_CHUNK: usize = 16384;

/// Names a session.
pub type SessionId = u64;

/// What a session is like; gaps are doubles, as bit patterns.
#[derive(Debug, Clone, Copy, PartialEq, Eq, Structural)]
pub enum WorkloadClass {
    /// Someone waits: latency counts.
    Interactive { avg_gap_ms: u64 },
    /// A queue: throughput counts.
    Batch { queue_depth: usize },
    /// A small supporting model on the processor.
    Cognitive,
}

/// What was seen of a session.
#[derive(Debug, Clone, Copy, PartialEq, Eq, Structural)]
pub struct SessionTelemetry {
    pub gap_from_last_ms: u64,
    pub prompt_len: usize,
    pub total_processed: u64,
}

#[derive(Debug)]
pub struct SessionRecord {
    pub id: SessionId,
    pub class: WorkloadClass,
    pub model_name: String,
    /// Counts requests, to tell stale work.
    pub generation: u64,
    pub last_gap_ms: u64,
    pub total_tokens: u64,
    pub created_ns: u64,
    pub last_active_ns: u64,
}

/// A session as the contracts see it.
#[verifier::ext_equal]
pub struct SessionView {
    pub id: SessionId,
    pub class: WorkloadClass,
    pub model: Seq<char>,
    pub generation: u64,
    pub last_gap_ms: u64,
    pub total_tokens: u64,
    pub created_ns: u64,
    pub last_active_ns: u64,
}

impl View for SessionRecord {
    type V = SessionView;

    open spec fn view(&self) -> SessionView {
        SessionView {
            id: self.id,
            class: self.class,
            model: self.model_name@,
            generation: self.generation,
            last_gap_ms: self.last_gap_ms,
            total_tokens: self.total_tokens,
            created_ns: self.created_ns,
            last_active_ns: self.last_active_ns,
        }
    }
}

pub open spec fn session_views(s: Seq<SessionRecord>) -> Seq<SessionView> {
    Seq::new(s.len(), |i: int| s[i]@)
}

/// Sessions start out interactive.  Later, a short gap means a queue, a
/// moderate gap with a short prompt a dialogue, and all else a queue.
pub open spec fn class_of(t: SessionTelemetry) -> WorkloadClass {
    if t.total_processed < WARMUP_REQUESTS {
        WorkloadClass::Interactive { avg_gap_ms: t.gap_from_last_ms }
    } else if less64(t.gap_from_last_ms, QUEUE_GAP_MS) {
        WorkloadClass::Batch { queue_depth: 1 }
    } else if less64(t.gap_from_last_ms, INTERACTIVE_GAP_MS) && t.prompt_len < SHORT_PROMPT {
        WorkloadClass::Interactive { avg_gap_ms: t.gap_from_last_ms }
    } else {
        WorkloadClass::Batch { queue_depth: 1 }
    }
}

pub fn classify_workload(t: &SessionTelemetry) -> (c: WorkloadClass)
    ensures
        c == class_of(*t),
{
    if t.total_processed < WARMUP_REQUESTS {
        return WorkloadClass::Interactive { avg_gap_ms: t.gap_from_last_ms };
    }
    if lt64(t.gap_from_last_ms, QUEUE_GAP_MS) {
        return WorkloadClass::Batch { queue_depth: 1 };
    }
    if lt64(t.gap_from_last_ms, INTERACTIVE_GAP_MS) && t.prompt_len < SHORT_PROMPT {
        return WorkloadClass::Interactive { avg_gap_ms: t.gap_from_last_ms };
    }
    WorkloadClass::Batch { queue_depth: 1 }
}

/// A model of `bytes` bytes may join: supporting models if small, others if
/// there is headroom and they fit in what is usable, queues in half of it.
pub open spec fn admits(
    bytes: usize,
    class: WorkloadClass,
    usable_vram: usize,
    budget: u32,
    headroom_percent: u32,
) -> bool {
    match class {
        WorkloadClass::Cognitive => bytes < COGNITIVE_MAX_BYTES,
        WorkloadClass::Interactive { avg_gap_ms } => budget * 100 >= headroom_percent * 8 && bytes
            <= usable_vram,
        WorkloadClass::Batch { queue_depth } => budget * 100 >= headroom_percent * 8 && bytes
            <= usable_vram / 2,
    }
}

/// Place of the session with a number, from place `i` on.
pub open spec fn session_place(s: Seq<SessionView>, id: SessionId, i: int) -> Option<int>
    decreases s.len() - i,
{
    if i >= s.len() {
        None
    } else if s[i].id == id {
        Some(i)
    } else {
        session_place(s, id, i + 1)
    }
}

pub open spec fn is_stale(s: SessionView, now_ns: u64) -> bool {
    now_ns - s.last_active_ns > STALE_NS
}

/// The sessions among the first `n` that are not stale.
pub open spec fn fresh(s: Seq<SessionView>, n: int, now_ns: u64) -> Seq<SessionView>
    decreases n,
{
    if n <= 0 {
        Seq::empty()
    } else if is_stale(s[n - 1], now_ns) {
        fresh(s, n - 1, now_ns)
    } else {
        fresh(s, n - 1, now_ns).push(s[n - 1])
    }
}

/// The models after the stale sessions among the first `n` gave theirs back.
pub open spec fn released(
    entries: Seq<EntryView>,
    s: Seq<SessionView>,
    n: int,
    now_ns: u64,
) -> Seq<EntryView>
    decreases n,
{
    if n <= 0 {
        entries
    } else if is_stale(s[n - 1], now_ns) {
        with_count(released(entries, s, n - 1, now_ns), s[n - 1].model, -1)
    } else {
        released(entries, s, n - 1, now_ns)
    }
}

/// Numbers of the queues, or of the dialogues, among the first `n` sessions.
pub open spec fn ids_of(s: Seq<SessionView>, batch: bool, n: int) -> Seq<SessionId>
    decreases n,
{
    if n <= 0 {
        Seq::empty()
    } else if (batch && s[n - 1].class is Batch) || (!batch && s[n - 1].class is Interactive) {
        ids_of(s, batch, n - 1).push(s[n - 1].id)
    } else {
        ids_of(s, batch, n - 1)
    }
}

/// Sessions that are not supporting ones, among the first `n`.
pub open spec fn active_sessions(s: Seq<SessionView>, n: int) -> int
    decreases n,
{
    if n <= 0 {
        0
    } else {
        active_sessions(s, n - 1) + (if s[n - 1].class is Cognitive {
            0int
        } else {
            1int
        })
    }
}

/// Settings that follow from the budget and the temperature.
#[derive(Debug, Clone, Copy, PartialEq, Eq, Structural)]
pub struct Flags {
    pub prefill_chunk_size: usize,
    pub cpu_threads: usize,
    /// Models of at least this size go to the device.
    pub gpu_model_threshold: u64,
}

/// The settings for a budget in eighths, a temperature and a thread count.
pub open spec fn flags_for(budget: u32, temp: u32, cpu_threads: usize) -> Flags {
    if at_least32(temp, DEFAULT_CRITICAL_TEMP) {
        Flags { prefill_chunk_size: MIN_CHUNK, cpu_threads: 1, gpu_model_threshold: u64::MAX }
    } else {
        Flags {
            prefill_chunk_size: if 512 * budget > MAX_CHUNK {
                MAX_CHUNK
            } else {
                (512 * budget) as usize
            },
            cpu_threads: if cpu_threads < 1 {
                1
            } else {
                cpu_threads
            },
            gpu_model_threshold: if budget < 4 {
                4_000_000_000
            } else if budget < 8 {
                3_000_000_000
            } else {
                1_500_000_000
            },
        }
    }
}

pub struct ResourceGovernor {
    pub aimd: AimdRamp,
    pub thermal: ThermalLSC,
    pub registry: ModelRegistry,
    pub swapper: ModelSwapper,
    pub max_n_threads: usize,
    pub sessions: Vec<SessionRecord>,
    pub next_session_id: SessionId,
    pub flags: Flags,
    /// In eighths.
    pub total_budget: u32,
    pub last_cycle_ns: u64,
    pub cycle_count: u64,
    pub min_safe_headroom_percent: u32,
}

impl ResourceGovernor {
    pub open spec fn wf(&self) -> bool {
        &&& self.aimd.wf()
        &&& self.registry.wf()
    }

    /// Everything but sessions, models and their recency is as before.
    pub open spec fn same_settings(&self, other: &Self) -> bool {
        &&& self.aimd == other.aimd
        &&& self.thermal == other.thermal
        &&& self.max_n_threads == other.max_n_threads
        &&& self.flags == other.flags
        &&& self.total_budget == other.total_budget
        &&& self.last_cycle_ns == other.last_cycle_ns
        &&& self.cycle_count == other.cycle_count
        &&& self.min_safe_headroom_percent == other.min_safe_headroom_percent
    }

    pub fn new(vram_bytes: usize, max_n_threads: usize, now_ns: u64) -> (g: Self)
        ensures
            g.wf(),
            g.sessions@.len() == 0,
            g.next_session_id == 1,
            g.registry@ == Seq::<EntryView>::empty(),
            g.swapper@ == Seq::<Seq<char>>::empty(),
            g.swapper.spec_capacity() == vram_bytes,
            g.max_n_threads == max_n_threads,
            g.swapper.log() == Seq::<SwapEvent>::empty(),
            g.swapper.predicted() is None,
            g.aimd == ramp_start(now_ns),
            g.thermal == unheated(DEFAULT_WARNING_TEMP, DEFAULT_CRITICAL_TEMP, now_ns),
            g.flags == (Flags {
                prefill_chunk_size: 4096,
                cpu_threads: max_n_threads,
                gpu_model_threshold: 3_000_000_000,
            }),
            g.total_budget == 8,
            g.last_cycle_ns == now_ns,
            g.cycle_count == 0,
            g.min_safe_headroom_percent == SAFE_HEADROOM_PERCENT,
    {
        ResourceGovernor {
            aimd: AimdRamp::new(now_ns),
            thermal: ThermalLSC::with_defaults(now_ns),
            registry: ModelRegistry::new(),
            swapper: ModelSwapper::new(vram_bytes),
            max_n_threads,
            sessions: Vec::new(),
            next_session_id: 1,
            flags: Flags {
                prefill_chunk_size: 4096,
                cpu_threads: max_n_threads,
                gpu_model_threshold: 3_000_000_000,
            },
            total_budget: 8,
            last_cycle_ns: now_ns,
            cycle_count: 0,
            min_safe_headroom_percent: SAFE_HEADROOM_PERCENT,
        }
    }

    /// Device memory that no model in use takes.
    pub open spec fn spec_free_vram(&self) -> int {
        let active = active_vram(self.registry@, None, self.registry@.len() as int);
        if self.swapper.spec_capacity() > active {
            self.swapper.spec_capacity() - active
        } else {
            0
        }
    }

    pub fn free_vram(&self) -> (n: usize)
        ensures
            n == self.spec_free_vram(),
    {
        let capacity: usize = self.swapper.vram_capacity();
        if !self.registry.vram_is_countable() {
            return 0;
        }
        let active: usize = self.registry.total_vram_active();
        if capacity > active {
            capacity - active
        } else {
            0
        }
    }

    /// Whether a model may join; `usable_vram` is the share of the free
    /// device memory that the budget leaves.  One that takes device memory fits
    /// what is free.
    pub fn can_admit(&self, model_size_bytes: usize, class: &WorkloadClass, usable_vram: usize) -> (b:
        bool)
        requires
            usable_vram <= self.spec_free_vram(),
        ensures
            b == admits(
                model_size_bytes,
                *class,
                usable_vram,
                self.aimd.budget,
                self.min_safe_headroom_percent,
            ),
            b && !(class is Cognitive) ==> model_size_bytes <= self.spec_free_vram(),
    {
        let headroom: bool = self.aimd.budget as u64 * 100 >= self.min_safe_headroom_percent as u64
            * 8;
        match class {
            WorkloadClass::Cognitive => model_size_bytes < COGNITIVE_MAX_BYTES,
            WorkloadClass::Interactive { .. } => headroom && model_size_bytes <= usable_vram,
            WorkloadClass::Batch { .. } => headroom && model_size_bytes <= usable_vram / 2,
        }
    }

    /// Opens a session on a model, if it may join.  A model that is on the
    /// device already is taken at once.
    pub fn register_session(
        &mut self,
        model_name: &str,
        model_size_bytes: usize,
        telemetry: SessionTelemetry,
        usable_vram: usize,
        now_ns: u64,
    ) -> (r: Option<SessionId>)
        requires
            old(self).wf(),
            old(self).next_session_id < u64::MAX,
            usable_vram <= old(self).spec_free_vram(),
            find_entry(old(self).registry@, model_name@) matches Some(i) ==> old(self).registry@[i].active_count < usize::MAX,
        ensures
            final(self).wf(),
            r is Some <==> admits(
                model_size_bytes,
                class_of(telemetry),
                usable_vram,
                old(self).aimd.budget,
                old(self).min_safe_headroom_percent,
            ),
            r is None ==> *final(self) == *old(self),
            r is Some && !(class_of(telemetry) is Cognitive) ==> model_size_bytes
                <= old(self).spec_free_vram(),
            r matches Some(id) ==> {
                &&& id == old(self).next_session_id
                &&& final(self).next_session_id == id + 1
                &&& final(self).same_settings(old(self))
                &&& session_views(final(self).sessions@) == session_views(
                    old(self).sessions@,
                ).push(
                    SessionView {
                        id,
                        class: class_of(telemetry),
                        model: model_name@,
                        generation: 0,
                        last_gap_ms: telemetry.gap_from_last_ms,
                        total_tokens: telemetry.total_processed,
                        created_ns: now_ns,
                        last_active_ns: now_ns,
                    },
                )
                &&& final(self).swapper.same_memory(&old(self).swapper)
                &&& final(self).swapper.predicted() == old(self).swapper.predicted()
                &&& match find_entry(old(self).registry@, model_name@) {
                    Some(i) => {
                        &&& final(self).swapper@ == touched(old(self).swapper@, model_name@)
                        &&& final(self).registry@ == (if old(self).registry@[i].tier
                            == MemoryTier::Vram {
                            with_count(old(self).registry@, model_name@, 1)
                        } else {
                            old(self).registry@
                        })
                    },
                    None => {
                        &&& final(self).swapper@ == old(self).swapper@
                        &&& final(self).registry@ == old(self).registry@
                    },
                }
            },
    {
        let class = classify_workload(&telemetry);
        if !self.can_admit(model_size_bytes, &class, usable_vram) {
            return None;
        }
        let ghost before = session_views(self.sessions@);
        let id: SessionId = self.next_session_id;
        self.next_session_id = id + 1;
        let record = SessionRecord {
            id,
            class,
            model_name: model_name.to_owned(),
            generation: 0,
            last_gap_ms: telemetry.gap_from_last_ms,
            total_tokens: telemetry.total_processed,
            created_ns: now_ns,
            last_active_ns: now_ns,
        };
        let ghost added = record@;
        self.sessions.push(record);
        assert(session_views(self.sessions@) =~= before.push(added));
        let tier: Option<MemoryTier> = match self.registry.get(model_name) {
            Some(e) => Some(e.tier),
            None => None,
        };
        if let Some(t) = tier {
            self.swapper.touch(model_name);
            if t == MemoryTier::Vram {
                let _ = self.registry.acquire(model_name);
            }
        }
        Some(id)
    }

    fn place(&self, id: SessionId) -> (p: Option<usize>)
        ensures
            match session_place(session_views(self.sessions@), id, 0) {
                Some(i) => p matches Some(k) && k == i && 0 <= i < self.sessions@.len(),
                None => p is None,
            },
    {
        let mut i: usize = 0;
        while i < self.sessions.len()
            invariant
                i <= self.sessions@.len(),
                session_place(session_views(self.sessions@), id, 0) == session_place(
                    session_views(self.sessions@),
                    id,
                    i as int,
                ),
            decreases self.sessions@.len() - i,
        {
            assert(session_views(self.sessions@)[i as int] == self.sessions@[i as int]@);
            if self.sessions[i].id == id {
                return Some(i);
            }
            i = i + 1;
        }
        None
    }

    /// Closes a session and gives its model back.
    pub fn unregister_session(&mut self, id: SessionId)
        requires
            old(self).wf(),
        ensures
            final(self).wf(),
            final(self).same_settings(old(self)),
            final(self).next_session_id == old(self).next_session_id,
            final(self).swapper == old(self).swapper,
            match session_place(session_views(old(self).sessions@), id, 0) {
                Some(i) => {
                    &&& session_views(final(self).sessions@) == session_views(
                        old(self).sessions@,
                    ).remove(i)
                    &&& final(self).registry@ == with_count(
                        old(self).registry@,
                        old(self).sessions@[i].model_name@,
                        -1,
                    )
                },
                None => *final(self) == *old(self),
            },
    {
        if let Some(i) = self.place(id) {
            let ghost before = session_views(self.sessions@);
            let session = self.sessions.remove(i);
            assert(session_views(self.sessions@) =~= before.remove(i as int));
            self.registry.release(session.model_name.as_str());
        }
    }

    /// Notes a request of a session.
    pub fn touch_session(&mut self, id: SessionId, now_ns: u64)
        requires
            old(self).wf(),
            session_place(session_views(old(self).sessions@), id, 0) matches Some(i) ==> old(self).sessions@[i].generation < u64::MAX,
        ensures
            final(self).wf(),
            final(self).same_settings(old(self)),
            final(self).next_session_id == old(self).next_session_id,
            final(self).registry == old(self).registry,
            final(self).swapper == old(self).swapper,
            session_views(final(self).sessions@) == (match session_place(
                session_views(old(self).sessions@),
                id,
                0,
            ) {
                Some(i) => session_views(old(self).sessions@).update(
                    i,
                    SessionView {
                        last_active_ns: now_ns,
                        generation: (old(self).sessions@[i].generation + 1) as u64,
                        ..old(self).sessions@[i]@
                    },
                ),
                None => session_views(old(self).sessions@),
            }),
    {
        let ghost before = session_views(self.sessions@);
        if let Some(i) = self.place(id) {
            let generation: u64 = self.sessions[i].generation + 1;
            self.sessions[i].last_active_ns = now_ns;
            self.sessions[i].generation = generation;
            assert(session_views(self.sessions@) =~= before.update(
                i as int,
                SessionView {
                    last_active_ns: now_ns,
                    generation,
                    ..before[i as int]
                },
            ));
        }
    }

    /// The generation of a session.
    pub fn session_generation(&self, id: SessionId) -> (g: Option<u64>)
        ensures
            g == (match session_place(session_views(self.sessions@), id, 0) {
                Some(i) => Some(self.sessions@[i].generation),
                None => None,
            }),
    {
        match self.place(id) {
            Some(i) => Some(self.sessions[i].generation),
            None => None,
        }
    }

    pub fn find_session(&self, id: SessionId) -> (r: Option<&SessionRecord>)
        ensures
            match session_place(session_views(self.sessions@), id, 0) {
                Some(i) => r matches Some(s) && *s == self.sessions@[i],
                None => r is None,
            },
    {
        match self.place(id) {
            Some(i) => Some(&self.sessions[i]),
            None => None,
        }
    }

    /// Work of a generation is stale if the session is gone or has moved on.
    pub fn is_stale_generation(&self, id: SessionId, generation: u64) -> (b: bool)
        ensures
            b == (match session_place(session_views(self.sessions@), id, 0) {
                Some(i) => self.sessions@[i].generation != generation,
                None => true,
            }),
    {
        match self.session_generation(id) {
            Some(g) => g != generation,
            None => true,
        }
    }

    /// Starts a cycle, at most once per interval: takes in telemetry, moves
    /// the budget and returns the thread count for it.
    pub fn begin_cycle(&mut self, t: &Telemetry, pl1_limit_uw: u64) -> (r: Option<usize>)
        requires
            old(self).wf(),
            old(self).cycle_count < u64::MAX,
            old(self).aimd.cycles < u64::MAX,
            old(self).aimd.halvings < u64::MAX,
        ensures
            final(self).wf(),
            r is Some <==> t.now_ns - old(self).last_cycle_ns >= CYCLE_INTERVAL_NS,
            r is None ==> *final(self) == *old(self),
            r matches Some(n) ==> {
                let thermal = old(self).thermal.updated(*t);
                let stressed = thermal.throttle_near(pl1_limit_uw as int) || thermal.state
                    == ThermalState::Warning;
                &&& final(self).last_cycle_ns == t.now_ns
                &&& final(self).cycle_count == old(self).cycle_count + 1
                &&& final(self).thermal == thermal
                &&& final(self).aimd == old(self).aimd.assessed(stressed, t.now_ns)
                &&& final(self).total_budget == final(self).aimd.budget
                &&& n == scaled(old(self).max_n_threads as int, final(self).aimd.budget as int)
                &&& final(self).sessions == old(self).sessions
                &&& final(self).registry == old(self).registry
                &&& final(self).swapper == old(self).swapper
                &&& final(self).flags == old(self).flags
                &&& final(self).max_n_threads == old(self).max_n_threads
                &&& final(self).next_session_id == old(self).next_session_id
                &&& final(self).min_safe_headroom_percent == old(self).min_safe_headroom_percent
            },
    {
        if t.now_ns < self.last_cycle_ns || t.now_ns - self.last_cycle_ns < CYCLE_INTERVAL_NS {
            return None;
        }
        self.last_cycle_ns = t.now_ns;
        self.cycle_count = self.cycle_count + 1;
        self.thermal.update(t);
        let stressed: bool = self.thermal.predictive_throttle(pl1_limit_uw) || self.thermal.state
            == ThermalState::Warning;
        self.total_budget = self.aimd.assess(stressed, t.now_ns);
        Some(self.aimd.scaled_threads(self.max_n_threads))
    }

    /// Ends a cycle: sets the flags for a thread count, drops stale sessions
    /// and tells the swapper which model comes next.
    pub fn finish_cycle(&mut self, cpu_threads: usize, now_ns: u64)
        requires
            old(self).wf(),
        ensures
            final(self).wf(),
            final(self).flags == flags_for(
                old(self).aimd.budget,
                old(self).thermal.current_temp,
                cpu_threads,
            ),
            session_views(final(self).sessions@) == fresh(
                session_views(old(self).sessions@),
                old(self).sessions@.len() as int,
                now_ns,
            ),
            final(self).registry@ == released(
                old(self).registry@,
                session_views(old(self).sessions@),
                old(self).sessions@.len() as int,
                now_ns,
            ),
            final(self).swapper@ == old(self).swapper@,
            final(self).swapper.predicted() == (if final(self).sessions@.len() > 0 {
                Some(final(self).sessions@[0].model_name@)
            } else {
                None
            }),
            final(self).swapper.same_memory(&old(self).swapper),
            final(self).same_settings(
                &(ResourceGovernor {
                    flags: flags_for(
                        old(self).aimd.budget,
                        old(self).thermal.current_temp,
                        cpu_threads,
                    ),
                    ..*old(self)
                }),
            ),
            final(self).next_session_id == old(self).next_session_id,
    {
        self.tune_flags(cpu_threads);
        self.evict_stale_sessions(now_ns);
        self.update_swap_hints();
    }

    fn tune_flags(&mut self, cpu_threads: usize)
        requires
            old(self).wf(),
        ensures
            *final(self) == (ResourceGovernor {
                flags: flags_for(
                    old(self).aimd.budget,
                    old(self).thermal.current_temp,
                    cpu_threads,
                ),
                ..*old(self)
            }),
    {
        let budget: u32 = self.aimd.budget;
        if ge32(self.thermal.current_temp, DEFAULT_CRITICAL_TEMP) {
            self.flags = Flags {
                prefill_chunk_size: MIN_CHUNK,
                cpu_threads: 1,
                gpu_model_threshold: 0xffff_ffff_ffff_ffff,
            };
            return ;
        }
        let chunk: usize = 512 * budget as usize;
        self.flags = Flags {
            prefill_chunk_size: if chunk > MAX_CHUNK {
                MAX_CHUNK
            } else {
                chunk
            },
            cpu_threads: if cpu_threads < 1 {
                1
            } else {
                cpu_threads
            },
            gpu_model_threshold: if budget < 4 {
                4_000_000_000
            } else if budget < 8 {
                3_000_000_000
            } else {
                1_500_000_000
            },
        };
    }

    fn evict_stale_sessions(&mut self, now_ns: u64)
        requires
            old(self).wf(),
        ensures
            final(self).wf(),
            final(self).same_settings(old(self)),
            final(self).next_session_id == old(self).next_session_id,
            final(self).swapper == old(self).swapper,
            session_views(final(self).sessions@) == fresh(
                session_views(old(self).sessions@),
                old(self).sessions@.len() as int,
                now_ns,
            ),
            final(self).registry@ == released(
                old(self).registry@,
                session_views(old(self).sessions@),
                old(self).sessions@.len() as int,
                now_ns,
            ),
    {
        let ghost all = session_views(self.sessions@);
        let ghost mut done: int = 0;
        let mut i: usize = 0;
        assert(all.skip(0) =~= all);
        assert(fresh(all, 0, now_ns) + all.skip(0) =~= all);
        while i < self.sessions.len()
            invariant
                i <= self.sessions@.len(),
                all == session_views(old(self).sessions@),
                0 <= done <= all.len(),
                fresh(all, done, now_ns).len() == i,
                session_views(self.sessions@) == fresh(all, done, now_ns) + all.skip(done),
                self.registry@ == released(old(self).registry@, all, done, now_ns),
                self.wf(),
                self.same_settings(old(self)),
                self.next_session_id == old(self).next_session_id,
                self.swapper == old(self).swapper,
            decreases all.len() - done,
        {
            let ghost here = session_views(self.sessions@);
            assert(here[i as int] == self.sessions@[i as int]@);
            assert(here[i as int] == all.skip(done)[0]);
            assert(all.skip(done)[0] == all[done]);
            let last: u64 = self.sessions[i].last_active_ns;
            if now_ns >= last && now_ns - last > STALE_NS {
                let session = self.sessions.remove(i);
                self.registry.release(session.model_name.as_str());
                proof {
                    assert(session_views(self.sessions@) =~= here.remove(i as int));
                    assert(here.remove(i as int) =~= fresh(all, done + 1, now_ns) + all.skip(
                        done + 1,
                    ));
                }
            } else {
                proof {
                    assert(here =~= fresh(all, done + 1, now_ns) + all.skip(done + 1));
                }
                i = i + 1;
            }
            proof {
                done = done + 1;
            }
        }
        proof {
            assert(session_views(self.sessions@).len() == i);
            assert(all.skip(done).len() == 0);
            assert(session_views(self.sessions@) =~= fresh(all, done, now_ns));
        }
    }

    fn update_swap_hints(&mut self)
        requires
            old(self).wf(),
        ensures
            final(self).wf(),
            final(self).same_settings(old(self)),
            final(self).next_session_id == old(self).next_session_id,
            final(self).sessions == old(self).sessions,
            final(self).registry == old(self).registry,
            final(self).swapper@ == old(self).swapper@,
            final(self).swapper.same_memory(&old(self).swapper),
            final(self).swapper.predicted() == (if old(self).sessions@.len() > 0 {
                Some(old(self).sessions@[0].model_name@)
            } else {
                None
            }),
    {
        if self.sessions.len() > 0 {
            let name: String = self.sessions[0].model_name.clone();
            self.swapper.predict_next(Some(name.as_str()));
        } else {
            self.swapper.predict_next(None);
        }
    }

    /// The sessions that give way, first to last: queues, then dialogues;
    /// supporting ones never do.
    pub fn backpressure_order(&self) -> (r: Vec<SessionId>)
        ensures
            r@ == ids_of(session_views(self.sessions@), true, self.sessions@.len() as int)
                + ids_of(session_views(self.sessions@), false, self.sessions@.len() as int),
    {
        let ghost s = session_views(self.sessions@);
        let mut r: Vec<SessionId> = Vec::new();
        let mut i: usize = 0;
        while i < self.sessions.len()
            invariant
                i <= self.sessions@.len(),
                s == session_views(self.sessions@),
                r@ == ids_of(s, true, i as int),
            decreases self.sessions@.len() - i,
        {
            assert(s[i as int] == self.sessions@[i as int]@);
            if let WorkloadClass::Batch { .. } = self.sessions[i].class {
                r.push(self.sessions[i].id);
            }
            i = i + 1;
        }
        let ghost first = r@;
        assert(first + ids_of(s, false, 0) =~= first);
        let mut j: usize = 0;
        while j < self.sessions.len()
            invariant
                j <= self.sessions@.len(),
                s == session_views(self.sessions@),
                r@ == first + ids_of(s, false, j as int),
            decreases self.sessions@.len() - j,
        {
            assert(s[j as int] == self.sessions@[j as int]@);
            if let WorkloadClass::Interactive { .. } = self.sessions[j].class {
                r.push(self.sessions[j].id);
                assert(r@ =~= first + ids_of(s, false, j + 1));
            }
            j = j + 1;
        }
        r
    }

    /// Sessions that are not supporting ones, and how many may run at once.
    pub fn current_load(&self) -> (r: (usize, usize))
        requires
            self.wf(),
        ensures
            r.0 == active_sessions(session_views(self.sessions@), self.sessions@.len() as int),
            r.1 == (self.aimd.budget + 7) / 8,
    {
        let ghost s = session_views(self.sessions@);
        let mut n: usize = 0;
        let mut i: usize = 0;
        while i < self.sessions.len()
            invariant
                i <= self.sessions@.len(),
                n <= i,
                s == session_views(self.sessions@),
                n == active_sessions(s, i as int),
            decreases self.sessions@.len() - i,
        {
            assert(s[i as int] == self.sessions@[i as int]@);
            match self.sessions[i].class {
                WorkloadClass::Cognitive => {},
                _ => {
                    n = n + 1;
                },
            }
            i = i + 1;
        }
        (n, self.aimd.concurrency())
    }
}

/// No session that is left is stale, and every session that was not stale is
/// left.
pub proof fn law_upkeep_keeps_fresh_sessions(s: Seq<SessionView>, n: int, now_ns: u64)
    requires
        0 <= n <= s.len(),
    ensures
        forall|k: int|
            0 <= k < fresh(s, n, now_ns).len() ==> !is_stale(
                #[trigger] fresh(s, n, now_ns)[k],
                now_ns,
            ),
        forall|i: int|
            0 <= i < n && !is_stale(#[trigger] s[i], now_ns) ==> fresh(s, n, now_ns).contains(
                s[i],
            ),
    decreases n,
{
    if n > 0 {
        law_upkeep_keeps_fresh_sessions(s, n - 1, now_ns);
        let before = fresh(s, n - 1, now_ns);
        let after = fresh(s, n, now_ns);
        assert forall|k: int| 0 <= k < after.len() implies !is_stale(#[trigger] after[k], now_ns) by {
            if k < before.len() {
                assert(after[k] == before[k]);
            }
        }
        assert forall|i: int| 0 <= i < n && !is_stale(#[trigger] s[i], now_ns) implies after.contains(
            s[i],
        ) by {
            if i < n - 1 {
                let k = before.index_of(s[i]);
                assert(before[k] == s[i]);
                assert(after[k] == s[i]);
            } else {
                assert(after[after.len() - 1] == s[i]);
            }
        }
    }
}

/// A model that may join, other than a supporting one, fits the device memory that
/// is free, next to the models in use.
pub proof fn law_admitted_models_fit(
    g: ResourceGovernor,
    bytes: usize,
    class: WorkloadClass,
    usable_vram: usize,
)
    requires
        !(class is Cognitive),
        usable_vram <= g.spec_free_vram(),
        admits(bytes, class, usable_vram, g.aimd.budget, g.min_safe_headroom_percent),
    ensures
        bytes <= g.spec_free_vram(),
        bytes > 0 ==> active_vram(g.registry@, None, g.registry@.len() as int) + bytes
            <= g.swapper.spec_capacity(),
{
}

/// A queue that may join could join as a dialogue too.
pub proof fn law_dialogues_are_admitted_first(
    bytes: usize,
    queue_depth: usize,
    avg_gap_ms: u64,
    usable_vram: usize,
    budget: u32,
    headroom_percent: u32,
)
    requires
        admits(
            bytes,
            WorkloadClass::Batch { queue_depth },
            usable_vram,
            budget,
            headroom_percent,
        ),
    ensures
        admits(
            bytes,
            WorkloadClass::Interactive { avg_gap_ms },
            usable_vram,
            budget,
            headroom_percent,
        ),
{
}

/// A share of the pool.
pub struct CognitiveToken {
    held: (),
}

/// Counts the supporting models that run.
pub struct CognitiveWorkerPool {
    max_threads: usize,
    active: u32,
}

impl CognitiveWorkerPool {
    /// How many may run at once: the limit in 32 bits.
    pub closed spec fn limit(&self) -> int {
        self.max_threads as int % 0x1_0000_0000
    }

    pub closed spec fn running(&self) -> int {
        self.active as int
    }

    pub open spec fn wf(&self) -> bool {
        0 <= self.running() <= self.limit()
    }

    pub fn new(max_threads: usize) -> (p: Self)
        ensures
            p.wf(),
            p.limit() == max_threads as int % 0x1_0000_0000,
            p.running() == 0,
    {
        CognitiveWorkerPool { max_threads, active: 0 }
    }

    /// Takes a share, unless all are taken.
    pub fn try_acquire(&mut self) -> (t: Option<CognitiveToken>)
        requires
            old(self).wf(),
        ensures
            final(self).wf(),
            final(self).limit() == old(self).limit(),
            t is Some <==> old(self).running() < old(self).limit(),
            final(self).running() == old(self).running() + (if t is Some {
                1int
            } else {
                0int
            }),
    {
        let limit: u32 = (self.max_threads as u64 % 0x1_0000_0000) as u32;
        if self.active >= limit {
            return None;
        }
        self.active = self.active + 1;
        Some(CognitiveToken { held: () })
    }

    /// Gives a share back.
    pub fn release(&mut self, _token: CognitiveToken)
        requires
            old(self).wf(),
            old(self).running() > 0,
        ensures
            final(self).wf(),
            final(self).limit() == old(self).limit(),
            final(self).running() == old(self).running() - 1,
    {
        self.active = self.active - 1;
    }
}

/// A session counts as a dialogue for its first five requests.  Then a gap of less than
/// fifty milliseconds makes it a queue; so does one of a second or more, and a prompt of
/// 512 tokens or more; what is between is a dialogue.
pub proof fn law_pace_tells_dialogues_from_queues(t: SessionTelemetry)
    ensures
        !(class_of(t) is Cognitive),
        t.total_processed < 5 ==> class_of(t) is Interactive,
        t.total_processed >= 5 ==> (class_of(t) is Interactive <==> {
            &&& !less64(t.gap_from_last_ms, 0x4049_0000_0000_0000)
            &&& less64(t.gap_from_last_ms, 0x408f_4000_0000_0000)
            &&& t.prompt_len < 512
        }),
        class_of(t) matches WorkloadClass::Interactive { avg_gap_ms } ==> avg_gap_ms
            == t.gap_from_last_ms,
{
}

/// A model joins a dialogue if it fits what is usable, a queue if it fits half of that,
/// both only while the budget, in eighths, keeps the headroom; a supporting model joins
/// if it is below five hundred megabytes.
pub proof fn law_admission_by_size_and_headroom(
    bytes: usize,
    class: WorkloadClass,
    usable_vram: usize,
    budget: u32,
    headroom_percent: u32,
)
    ensures
        class is Cognitive ==> (admits(bytes, class, usable_vram, budget, headroom_percent)
            <==> bytes < 500_000_000),
        !(class is Cognitive) && admits(bytes, class, usable_vram, budget, headroom_percent)
            ==> budget * 100 >= 8 * headroom_percent,
        class is Interactive && budget * 100 >= 8 * headroom_percent ==> (admits(
            bytes,
            class,
            usable_vram,
            budget,
            headroom_percent,
        ) <==> bytes <= usable_vram),
        class is Batch && budget * 100 >= 8 * headroom_percent ==> (admits(
            bytes,
            class,
            usable_vram,
            budget,
            headroom_percent,
        ) <==> 2 * bytes <= usable_vram),
{
}

/// A session is found by its number: the first one with it, if there is any.
pub proof fn law_session_is_found(s: Seq<SessionView>, id: SessionId, i: int, k: int)
    requires
        0 <= i <= k < s.len(),
    ensures
        match session_place(s, id, i) {
            Some(p) => i <= p < s.len() && s[p].id == id && (s[k].id == id ==> p <= k),
            None => s[k].id != id,
        },
    decreases s.len() - i,
{
    if s[i].id != id {
        if i < k {
            law_session_is_found(s, id, i + 1, k);
        } else {
            lemma_session_place(s, id, i + 1);
        }
    }
}

proof fn lemma_session_place(s: Seq<SessionView>, id: SessionId, i: int)
    requires
        0 <= i <= s.len(),
    ensures
        session_place(s, id, i) matches Some(p) ==> i <= p < s.len() && s[p].id == id,
    decreases s.len() - i,
{
    if i < s.len() && s[i].id != id {
        lemma_session_place(s, id, i + 1);
    }
}

/// A session is stale after more than thirty seconds without a request.
pub proof fn law_sessions_get_stale(s: SessionView, now_ns: u64)
    ensures
        is_stale(s, now_ns) <==> now_ns > s.last_active_ns + 30 * 1_000_000_000,
{
}

/// Upkeep drops the stale sessions and keeps the others in order.
pub proof fn law_upkeep_drops_stale_sessions(s: Seq<SessionView>, n: int, now_ns: u64)
    requires
        0 <= n <= s.len(),
    ensures
        fresh(s, n, now_ns) == s.take(n).filter(|x: SessionView| !is_stale(x, now_ns)),
    decreases n,
{
    let keep = |x: SessionView| !is_stale(x, now_ns);
    reveal(Seq::filter);
    if n > 0 {
        law_upkeep_drops_stale_sessions(s, n - 1, now_ns);
        assert(s.take(n).drop_last() =~= s.take(n - 1));
        assert(s.take(n).last() == s[n - 1]);
    } else {
        assert(s.take(0).filter(keep) =~= Seq::empty());
    }
}

/// Sessions give way class by class: each class lists the numbers of its sessions, all of
/// them and in order.
pub proof fn law_classes_list_their_sessions(s: Seq<SessionView>, batch: bool, n: int)
    requires
        0 <= n <= s.len(),
    ensures
        ids_of(s, batch, n) == s.take(n).filter(
            |x: SessionView| if batch {
                x.class is Batch
            } else {
                x.class is Interactive
            },
        ).map_values(|x: SessionView| x.id),
    decreases n,
{
    let of_class = |x: SessionView| if batch {
        x.class is Batch
    } else {
        x.class is Interactive
    };
    let number = |x: SessionView| x.id;
    reveal(Seq::filter);
    if n > 0 {
        law_classes_list_their_sessions(s, batch, n - 1);
        assert(s.take(n).drop_last() =~= s.take(n - 1));
        assert(s.take(n).last() == s[n - 1]);
        assert(ids_of(s, batch, n) =~= s.take(n).filter(of_class).map_values(number));
    } else {
        assert(s.take(0).filter(of_class).map_values(number) =~= Seq::empty());
    }
}

/// The load counts every session that is not a supporting one.
pub proof fn law_load_leaves_out_supporting_sessions(s: Seq<SessionView>, n: int)
    requires
        0 <= n <= s.len(),
    ensures
        active_sessions(s, n) == ids_of(s, true, n).len() + ids_of(s, false, n).len(),
        0 <= active_sessions(s, n) <= n,
    decreases n,
{
    if n > 0 {
        law_load_leaves_out_supporting_sessions(s, n - 1);
    }
}

/// A critical package runs on one thread, in the smallest chunks, and sends nothing to
/// the device.  Otherwise a chunk has 4096 tokens for a budget of one and as many times
/// that as the budget, up to 16384; models go to the device from 1.5 gigabytes on for a
/// budget of one, from three for half of that, and from four below.
pub proof fn law_settings_follow_the_budget(budget: u32, temp: u32, cpu_threads: usize)
    requires
        1 <= budget <= 128,
    ensures
        ({
            let f = flags_for(budget, temp, cpu_threads);
            if at_least32(temp, 0x42aa_0000) {
                f.cpu_threads == 1 && f.prefill_chunk_size == 512 && f.gpu_model_threshold
                    == u64::MAX
            } else {
                &&& f.cpu_threads == (if cpu_threads == 0 {
                    1
                } else {
                    cpu_threads
                })
                &&& 8 * f.prefill_chunk_size == 4096 * budget || (f.prefill_chunk_size == 16384
                    && 4096 * budget > 8 * 16384)
                &&& f.gpu_model_threshold == 1_500_000_000 <==> budget >= 8
                &&& f.gpu_model_threshold == 3_000_000_000 <==> 4 <= budget < 8
                &&& f.gpu_model_threshold == 4_000_000_000 <==> budget < 4
            }
        }),
{
}

/// Stale sessions of a model among the first `n`.
pub open spec fn stale_users(s: Seq<SessionView>, n: int, model: Seq<char>, now_ns: u64) -> int
    decreases n,
{
    if n <= 0 {
        0
    } else {
        stale_users(s, n - 1, model, now_ns) + (if s[n - 1].model == model && is_stale(
            s[n - 1],
            now_ns,
        ) {
            1int
        } else {
            0int
        })
    }
}

/// Upkeep gives back what stale sessions held: the count of each model goes down by its
/// stale sessions, though not below zero, and nothing else of it changes.
pub proof fn law_stale_sessions_give_back_their_model(
    entries: Seq<EntryView>,
    s: Seq<SessionView>,
    n: int,
    now_ns: u64,
    i: int,
)
    requires
        names_differ(entries),
        0 <= n <= s.len(),
        0 <= i < entries.len(),
    ensures
        released(entries, s, n, now_ns).len() == entries.len(),
        ({
            let after = released(entries, s, n, now_ns)[i];
            let left = entries[i].active_count - stale_users(s, n, entries[i].name, now_ns);
            &&& after == (EntryView { active_count: after.active_count, ..entries[i] })
            &&& after.active_count == (if left < 0 {
                0
            } else {
                left
            })
        }),
    decreases n,
{
    lemma_stale_users(s, n, entries[i].name, now_ns);
    if n > 0 {
        law_stale_sessions_give_back_their_model(entries, s, n - 1, now_ns, i);
        lemma_stale_users(s, n - 1, entries[i].name, now_ns);
        if is_stale(s[n - 1], now_ns) {
            let before = released(entries, s, n - 1, now_ns);
            let name = s[n - 1].model;
            law_model_is_found(before, name, i);
            if let Some(p) = find_entry(before, name) {
                law_stale_sessions_give_back_their_model(entries, s, n - 1, now_ns, p);
                if p < i {
                    assert(entries[p].name != entries[i].name);
                } else if i < p {
                    assert(entries[i].name != entries[p].name);
                }
            }
        }
    }
}

proof fn lemma_stale_users(s: Seq<SessionView>, n: int, model: Seq<char>, now_ns: u64)
    ensures
        0 <= stale_users(s, n, model, now_ns),
    decreases n,
{
    if n > 0 {
        lemma_stale_users(s, n - 1, model, now_ns);
    }
}

/// Where the settings are the same, only sessions and their numbers, models and what the
/// swapper keeps may differ.
pub proof fn law_settings_are_all_the_rest(a: ResourceGovernor, b: ResourceGovernor)
    ensures
        a.same_settings(&b) <==> a == (ResourceGovernor {
            registry: a.registry,
            swapper: a.swapper,
            sessions: a.sessions,
            next_session_id: a.next_session_id,
            ..b
        }),
{
}

} // verus!
