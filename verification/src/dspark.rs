//! Speculative decoding: drafts are verified one token at a time.

use crate::pattern_draft::{
    after_observation, drafted, similar, MatchConfidence, Observation, PatternDraft,
    DEFAULT_CAPACITY, DEFAULT_DRAFT_LENGTH, DEFAULT_NUM_BITS,
};
use crate::zones;
use crate::zones::spec_page_id;
use vstd::prelude::*;

verus! {

/// Entries of the logit cache.
pub const LOGIT_CACHE_CAPACITY: usize = 8;

/// Pages fetched ahead per step, at most.
pub const MAX_COLD_PAGES: usize = 64;

/// Matches nearer than this are in memory anyway.
pub const NEAR_POSITIONS: usize = 128;

/// First state of the generator behind `xorshift`.
pub const RANDOM_SEED: u64 = 0x0123_4567_89ab_cdef;

/// One remembered result.
pub struct LogitEntry {
    pub hash: u64,
    pub token: usize,
    /// Logits, as bit patterns.
    pub logits: Vec<u32>,
}

/// Remembers the logits of the last few pairs of state and token.
pub struct LogitCache {
    entries: Vec<LogitEntry>,
    head: usize,
}

impl LogitEntry {
    pub open spec fn is_for(&self, hash: u64, token: usize) -> bool {
        self.hash == hash && self.token == token
    }
}

/// The first entry for a pair, from place `i` on.
pub open spec fn first_entry(
    entries: Seq<LogitEntry>,
    hash: u64,
    token: usize,
    i: int,
) -> Option<int>
    decreases entries.len() - i,
{
    if i >= entries.len() {
        None
    } else if entries[i].is_for(hash, token) {
        Some(i)
    } else {
        first_entry(entries, hash, token, i + 1)
    }
}

/// The entries with one more, which takes `place` where there is no room.
pub open spec fn after_insert(entries: Seq<LogitEntry>, place: int, e: LogitEntry) -> Seq<
    LogitEntry,
> {
    if entries.len() < LOGIT_CACHE_CAPACITY {
        entries.push(e)
    } else {
        entries.update(place, e)
    }
}

impl View for LogitCache {
    type V = Seq<LogitEntry>;

    /// The entries by place.
    closed spec fn view(&self) -> Seq<LogitEntry> {
        self.entries@
    }
}

impl LogitCache {
    /// The place that the next entry takes.
    pub closed spec fn next_place(&self) -> int {
        self.head as int
    }

    pub open spec fn wf(&self) -> bool {
        &&& self@.len() <= LOGIT_CACHE_CAPACITY
        &&& 0 <= self.next_place() < LOGIT_CACHE_CAPACITY
        &&& self@.len() < LOGIT_CACHE_CAPACITY ==> self.next_place() == self@.len()
    }

    pub fn new() -> (c: Self)
        ensures
            c.wf(),
            c@ == Seq::<LogitEntry>::empty(),
            c.next_place() == 0,
    {
        LogitCache { entries: Vec::new(), head: 0 }
    }

    /// The logits of the first entry for the pair.
    pub fn lookup(&self, hash: u64, token: usize) -> (r: Option<&[u32]>)
        requires
            self.wf(),
        ensures
            match first_entry(self@, hash, token, 0) {
                None => r is None,
                Some(i) => r matches Some(l) && l@ == self@[i].logits@,
            },
    {
        let mut i: usize = 0;
        while i < self.entries.len()
            invariant
                i <= self.entries@.len(),
                first_entry(self@, hash, token, 0) == first_entry(self@, hash, token, i as int),
            decreases self.entries@.len() - i,
        {
            if self.entries[i].hash == hash && self.entries[i].token == token {
                return Some(self.entries[i].logits.as_slice());
            }
            i = i + 1;
        }
        None
    }

    /// Remembers a result; a full cache overwrites its oldest.
    pub fn insert(&mut self, hash: u64, token: usize, logits: Vec<u32>)
        requires
            old(self).wf(),
        ensures
            final(self).wf(),
            final(self).next_place() == (old(self).next_place() + 1) % 8,
            final(self)@ == after_insert(
                old(self)@,
                old(self).next_place(),
                LogitEntry { hash, token, logits },
            ),
    {
        let entry = LogitEntry { hash, token, logits };
        if self.entries.len() < LOGIT_CACHE_CAPACITY {
            self.entries.push(entry);
        } else {
            self.entries.set(self.head, entry);
        }
        self.head = (self.head + 1) % LOGIT_CACHE_CAPACITY;
    }

    pub fn clear(&mut self)
        ensures
            final(self).wf(),
            final(self)@ == Seq::<LogitEntry>::empty(),
            final(self).next_place() == 0,
    {
        self.entries.clear();
        self.head = 0;
    }
}

/// What was just remembered is found, unless another entry for the same pair
/// stands before it, whether the cache had room or overwrote an entry.
pub proof fn law_inserted_logits_are_found(before: Seq<LogitEntry>, place: int, e: LogitEntry)
    requires
        0 <= place < LOGIT_CACHE_CAPACITY,
        before.len() <= LOGIT_CACHE_CAPACITY,
        before.len() < LOGIT_CACHE_CAPACITY ==> place == before.len(),
        forall|i: int| 0 <= i < place ==> !(#[trigger] before[i]).is_for(e.hash, e.token),
    ensures
        first_entry(after_insert(before, place, e), e.hash, e.token, 0) == Some(place),
        after_insert(before, place, e)[place] == e,
        forall|i: int|
            0 <= i < before.len() && i != place ==> (#[trigger] after_insert(before, place, e)[i])
                == before[i],
{
    lemma_first_is_place(after_insert(before, place, e), place, e, 0);
}

proof fn lemma_first_is_place(entries: Seq<LogitEntry>, place: int, e: LogitEntry, i: int)
    requires
        0 <= i <= place < entries.len(),
        entries[place] == e,
        forall|k: int| 0 <= k < place ==> !(#[trigger] entries[k]).is_for(e.hash, e.token),
    ensures
        first_entry(entries, e.hash, e.token, i) == Some(place),
    decreases place - i,
{
    if i < place {
        lemma_first_is_place(entries, place, e, i + 1);
    }
}

/// Counters of the speculation.
#[derive(Debug, Clone, Copy, PartialEq, Eq, Structural)]
pub struct DSparkStats {
    pub total_steps: u64,
    pub total_draft_tokens: u64,
    pub accepted_tokens: u64,
    pub rejected_steps: u64,
    pub total_draft_attempts: u64,
    pub draft_accepted: u64,
    pub draft_rejected: u64,
    pub total_rollbacks: u64,
    pub cache_hits: u64,
    pub cache_misses: u64,
}

/// Nothing has been counted.
pub open spec fn no_stats() -> DSparkStats {
    DSparkStats {
        total_steps: 0,
        total_draft_tokens: 0,
        accepted_tokens: 0,
        rejected_steps: 0,
        total_draft_attempts: 0,
        draft_accepted: 0,
        draft_rejected: 0,
        total_rollbacks: 0,
        cache_hits: 0,
        cache_misses: 0,
    }
}

impl Default for DSparkStats {
    fn default() -> (s: Self)
        ensures
            s == no_stats(),
    {
        DSparkStats {
            total_steps: 0,
            total_draft_tokens: 0,
            accepted_tokens: 0,
            rejected_steps: 0,
            total_draft_attempts: 0,
            draft_accepted: 0,
            draft_rejected: 0,
            total_rollbacks: 0,
            cache_hits: 0,
            cache_misses: 0,
        }
    }
}

/// What the target model says to a drafted token.
#[derive(Debug, Clone, Copy, PartialEq, Eq, Structural)]
pub enum Verdict {
    /// The target gives the token no probability.
    Impossible,
    Accepted,
    /// Another token was sampled in its place.
    Rejected(usize),
}

/// The verdicts of one run over a draft of `n` tokens: one per token until
/// one is not accepted.
pub open spec fn is_run(verdicts: Seq<Verdict>, n: int) -> bool {
    &&& verdicts.len() <= n
    &&& forall|i: int|
        0 <= i < verdicts.len() - 1 ==> (#[trigger] verdicts[i]) == Verdict::Accepted
    &&& verdicts.len() < n ==> verdicts.len() > 0 && verdicts.last() != Verdict::Accepted
}

/// How many tokens of the draft a run accepts.
pub open spec fn run_accepts(verdicts: Seq<Verdict>) -> int {
    if verdicts.len() > 0 && verdicts.last() != Verdict::Accepted {
        verdicts.len() - 1
    } else {
        verdicts.len() as int
    }
}

/// The tokens that a step produces: its own, then the accepted part of the
/// draft, then the substitute of a rejected token.
pub open spec fn run_tokens(t0: usize, draft: Seq<usize>, verdicts: Seq<Verdict>) -> Seq<usize> {
    let accepted = seq![t0] + draft.take(run_accepts(verdicts));
    if verdicts.len() > 0 && verdicts.last() is Rejected {
        accepted.push(verdicts.last()->Rejected_0)
    } else {
        accepted
    }
}

/// The counters after a step with the given verdicts.
pub open spec fn run_stats(before: DSparkStats, verdicts: Seq<Verdict>) -> DSparkStats {
    let accepts = run_accepts(verdicts);
    let stopped: int = if accepts < verdicts.len() {
        1
    } else {
        0
    };
    let rejected: int = if verdicts.len() > 0 && verdicts.last() is Rejected {
        1
    } else {
        0
    };
    DSparkStats {
        total_steps: (before.total_steps + 1) as u64,
        total_draft_tokens: (before.total_draft_tokens + verdicts.len()) as u64,
        accepted_tokens: (before.accepted_tokens + 1 + accepts) as u64,
        rejected_steps: (before.rejected_steps + stopped) as u64,
        draft_accepted: (before.draft_accepted + accepts) as u64,
        draft_rejected: (before.draft_rejected + rejected) as u64,
        ..before
    }
}

/// The draft of a query: no tokens where none is offered.
pub open spec fn draft_tokens(d: &PatternDraft, hash: u64) -> Seq<usize> {
    match drafted(d@, hash, d.spec_num_bits(), d.spec_draft_length()) {
        None => Seq::empty(),
        Some(t) => t.0,
    }
}

/// How sure the draft of a query is.
pub open spec fn draft_confidence(d: &PatternDraft, hash: u64) -> MatchConfidence {
    (drafted(d@, hash, d.spec_num_bits(), d.spec_draft_length())->0).1
}

/// Drafting, verification and their counters.
pub struct DSparkEngine {
    pub draft_model: PatternDraft,
    pub logit_cache: LogitCache,
    pub max_draft: usize,
    /// In percent.
    pub min_acceptance_percent: u32,
    pub stats: DSparkStats,
}

impl DSparkEngine {
    pub open spec fn wf(&self) -> bool {
        &&& self.draft_model.sized()
        &&& self.logit_cache.wf()
    }

    /// An engine of the default extent with the given projections.
    pub fn new(embed_dim: usize, lsh: Vec<u32>) -> (e: Self)
        requires
            lsh@.len() == DEFAULT_NUM_BITS * embed_dim,
        ensures
            e.wf(),
            e.draft_model.in_order(),
            e.draft_model@ == Seq::<Observation>::empty(),
            e.draft_model.spec_embed_dim() == embed_dim,
            e.draft_model.spec_num_bits() == DEFAULT_NUM_BITS,
            e.draft_model.spec_capacity() == DEFAULT_CAPACITY,
            e.draft_model.spec_draft_length() == DEFAULT_DRAFT_LENGTH,
            e.draft_model.projections() == lsh@,
            e.logit_cache@ == Seq::<LogitEntry>::empty(),
            e.max_draft == DEFAULT_DRAFT_LENGTH,
            e.min_acceptance_percent == 1,
            e.stats == no_stats(),
    {
        DSparkEngine {
            draft_model: PatternDraft::new_default(embed_dim, lsh),
            logit_cache: LogitCache::new(),
            max_draft: DEFAULT_DRAFT_LENGTH,
            min_acceptance_percent: 1,
            stats: DSparkStats::default(),
        }
    }

    pub fn with_params(
        embed_dim: usize,
        num_bits: usize,
        capacity: usize,
        draft_length: usize,
        lsh: Vec<u32>,
    ) -> (e: Self)
        requires
            lsh@.len() == num_bits * embed_dim,
        ensures
            e.wf(),
            e.draft_model.spec_head() == 0,
            0 < capacity ==> e.draft_model.in_order(),
            e.draft_model@ == Seq::<Observation>::empty(),
            e.draft_model.spec_embed_dim() == embed_dim,
            e.draft_model.spec_num_bits() == num_bits,
            e.draft_model.spec_capacity() == capacity,
            e.draft_model.spec_draft_length() == draft_length,
            e.draft_model.projections() == lsh@,
            e.logit_cache@ == Seq::<LogitEntry>::empty(),
            e.max_draft == draft_length,
            e.min_acceptance_percent == 1,
            e.stats == no_stats(),
    {
        DSparkEngine {
            draft_model: PatternDraft::new(embed_dim, num_bits, capacity, draft_length, lsh),
            logit_cache: LogitCache::new(),
            max_draft: draft_length,
            min_acceptance_percent: 1,
            stats: DSparkStats::default(),
        }
    }

    pub fn stats(&self) -> (s: &DSparkStats)
        ensures
            *s == self.stats,
    {
        &self.stats
    }

    /// The counters, to be changed.
    pub fn stats_mut(&mut self) -> (s: &mut DSparkStats)
        ensures
            *s == old(self).stats,
            *final(self) == (DSparkEngine { stats: *final(s), ..*old(self) }),
    {
        &mut self.stats
    }

    /// Takes over a ring that was loaded, if there is one.
    pub fn load_draft_cache(&mut self, loaded: Option<PatternDraft>)
        requires
            old(self).wf(),
            loaded matches Some(d) ==> d.sized(),
        ensures
            final(self).wf(),
            final(self).draft_model == (match loaded {
                Some(d) => d,
                None => old(self).draft_model,
            }),
            final(self).logit_cache == old(self).logit_cache,
            final(self).stats == old(self).stats,
            final(self).max_draft == old(self).max_draft,
            final(self).min_acceptance_percent == old(self).min_acceptance_percent,
    {
        if let Some(d) = loaded {
            self.draft_model = d;
        }
    }

    /// Forgets the remembered logits, at the start of a decode step.
    pub fn clear_logit_cache(&mut self)
        requires
            old(self).wf(),
        ensures
            final(self).wf(),
            final(self).logit_cache@ == Seq::<LogitEntry>::empty(),
            final(self).draft_model == old(self).draft_model,
            final(self).stats == old(self).stats,
            final(self).max_draft == old(self).max_draft,
            final(self).min_acceptance_percent == old(self).min_acceptance_percent,
    {
        self.logit_cache.clear();
    }

    pub fn logit_cache_hit(&mut self)
        requires
            old(self).stats.cache_hits < u64::MAX,
        ensures
            *final(self) == (DSparkEngine {
                stats: DSparkStats {
                    cache_hits: (old(self).stats.cache_hits + 1) as u64,
                    ..old(self).stats
                },
                ..*old(self)
            }),
    {
        self.stats.cache_hits = self.stats.cache_hits + 1;
    }

    pub fn logit_cache_miss(&mut self)
        requires
            old(self).stats.cache_misses < u64::MAX,
        ensures
            *final(self) == (DSparkEngine {
                stats: DSparkStats {
                    cache_misses: (old(self).stats.cache_misses + 1) as u64,
                    ..old(self).stats
                },
                ..*old(self)
            }),
    {
        self.stats.cache_misses = self.stats.cache_misses + 1;
    }

    /// Feeds the draft ring.
    pub fn observe(&mut self, hash: u64, token: usize)
        requires
            old(self).wf(),
            old(self).draft_model.writable(),
        ensures
            final(self).wf(),
            old(self).draft_model.observed(
                Observation { hash, token, position: 0 },
                &final(self).draft_model,
            ),
            old(self).draft_model.in_order() ==> {
                &&& final(self).draft_model.in_order()
                &&& final(self).draft_model@ == after_observation(
                    old(self).draft_model@,
                    old(self).draft_model.spec_capacity(),
                    Observation { hash, token, position: 0 },
                )
            },
            final(self).stats == old(self).stats,
            final(self).logit_cache == old(self).logit_cache,
            final(self).max_draft == old(self).max_draft,
            final(self).min_acceptance_percent == old(self).min_acceptance_percent,
    {
        self.draft_model.observe(hash, token);
    }

    /// Feeds the draft ring, with a position of the cache.
    pub fn observe_at(&mut self, hash: u64, token: usize, pos: usize)
        requires
            old(self).wf(),
            old(self).draft_model.writable(),
        ensures
            final(self).wf(),
            old(self).draft_model.observed(
                Observation { hash, token, position: pos },
                &final(self).draft_model,
            ),
            old(self).draft_model.in_order() ==> {
                &&& final(self).draft_model.in_order()
                &&& final(self).draft_model@ == after_observation(
                    old(self).draft_model@,
                    old(self).draft_model.spec_capacity(),
                    Observation { hash, token, position: pos },
                )
            },
            final(self).stats == old(self).stats,
            final(self).logit_cache == old(self).logit_cache,
            final(self).max_draft == old(self).max_draft,
            final(self).min_acceptance_percent == old(self).min_acceptance_percent,
    {
        self.draft_model.observe_at(hash, token, pos);
    }

    /// The `n` past positions most similar to the present state.
    pub fn find_attention_candidates(&self, hash: u64, n: usize) -> (r: Vec<(usize, u32)>)
        requires
            self.wf(),
            self.draft_model.searchable(),
        ensures
            r@ == similar(self.draft_model@, hash, n as int),
    {
        self.draft_model.find_similar_positions(hash, n)
    }

    /// Pages that will likely be read soon: those around the past positions
    /// most similar to the present state, in order of similarity.
    pub fn predict_cold_pages(
        &self,
        hash: u64,
        current_pos: usize,
        n_matches: usize,
        lookback: usize,
        lookahead: usize,
    ) -> (r: Vec<usize>)
        requires
            self.wf(),
            self.draft_model.searchable(),
            current_pos + lookahead <= usize::MAX,
        ensures
            r@ == cold_pages(
                similar(self.draft_model@, hash, n_matches as int),
                current_pos as int,
                lookback as int,
                lookahead as int,
            ),
    {
        let found = self.find_attention_candidates(hash, n_matches);
        let mut pages: Vec<usize> = Vec::new();
        let mut i: usize = 0;
        while i < found.len()
            invariant
                i <= found@.len(),
                current_pos + lookahead <= usize::MAX,
                pages@ == window_pages(
                    found@,
                    current_pos as int,
                    lookback as int,
                    lookahead as int,
                    i as int,
                ),
            decreases found@.len() - i,
        {
            let at: usize = found[i].0;
            if at < current_pos && current_pos - at >= NEAR_POSITIONS {
                let start: usize = if at > lookback {
                    at - lookback
                } else {
                    0
                };
                let end: usize = if at + lookahead < current_pos {
                    at + lookahead
                } else {
                    current_pos
                };
                add_page_range(&mut pages, zones::page_id(start), zones::page_id(end));
            }
            i = i + 1;
        }
        let ghost all = pages@;
        pages.truncate(MAX_COLD_PAGES);
        assert(pages@ =~= first_pages(all));
        pages
    }

    /// One step of speculative decoding.
    ///
    /// `t0` is the token sampled for the step itself.  `verify` runs the
    /// target model on one drafted token, given how sure the draft is, and
    /// says whether the token stands.  At least `t0` is returned.
    pub fn speculate<F: Fn(usize, MatchConfidence) -> Verdict>(
        &mut self,
        hash: u64,
        t0: usize,
        verify: F,
    ) -> (r: Vec<usize>)
        requires
            old(self).wf(),
            old(self).draft_model.draftable(),
            forall|d: usize, c: MatchConfidence| verify.requires((d, c)),
            old(self).stats.total_steps < u64::MAX,
            old(self).stats.accepted_tokens + 1 + old(self).draft_model.spec_draft_length()
                <= u64::MAX,
            old(self).stats.total_draft_tokens + old(self).draft_model.spec_draft_length()
                <= u64::MAX,
            old(self).stats.draft_accepted + old(self).draft_model.spec_draft_length() <= u64::MAX,
            old(self).stats.rejected_steps < u64::MAX,
            old(self).stats.draft_rejected < u64::MAX,
        ensures
            final(self).wf(),
            final(self).draft_model == old(self).draft_model,
            final(self).logit_cache == old(self).logit_cache,
            final(self).max_draft == old(self).max_draft,
            final(self).min_acceptance_percent == old(self).min_acceptance_percent,
            exists|vs: Seq<Verdict>|
                {
                    &&& is_run(vs, draft_tokens(&old(self).draft_model, hash).len() as int)
                    &&& forall|i: int|
                        0 <= i < vs.len() ==> verify.ensures(
                            (
                                draft_tokens(&old(self).draft_model, hash)[i],
                                draft_confidence(&old(self).draft_model, hash),
                            ),
                            #[trigger] vs[i],
                        )
                    &&& r@ == #[trigger] run_tokens(
                        t0,
                        draft_tokens(&old(self).draft_model, hash),
                        vs,
                    )
                    &&& final(self).stats == run_stats(old(self).stats, vs)
                },
    {
        let ghost before = self.stats;
        let ghost draft = draft_tokens(&self.draft_model, hash);
        let ghost sure = draft_confidence(&self.draft_model, hash);
        let ghost mut vs: Seq<Verdict> = Seq::empty();
        proof {
            self.draft_model.lemma_extents_are_sizes();
        }
        self.stats.total_steps = self.stats.total_steps + 1;
        let mut accepted: Vec<usize> = Vec::new();
        accepted.push(t0);
        self.stats.accepted_tokens = self.stats.accepted_tokens + 1;
        let (tokens, confs) = self.draft_model.draft(hash);
        assert(tokens@ =~= draft);
        assert(accepted@ =~= run_tokens(t0, draft, vs));
        let mut i: usize = 0;
        let mut stopped: bool = false;
        while i < tokens.len() && !stopped
            invariant
                i <= tokens@.len(),
                tokens@ == draft,
                confs@.len() == draft.len(),
                forall|k: int| 0 <= k < draft.len() ==> (#[trigger] confs@[k]) == sure,
                draft.len() == 0 || draft.len() == self.draft_model.spec_draft_length(),
                forall|d: usize, c: MatchConfidence| verify.requires((d, c)),
                self.wf(),
                self.draft_model == old(self).draft_model,
                self.logit_cache == old(self).logit_cache,
                self.max_draft == old(self).max_draft,
                self.min_acceptance_percent == old(self).min_acceptance_percent,
                before == old(self).stats,
                before.total_steps < u64::MAX,
                before.accepted_tokens + 1 + self.draft_model.spec_draft_length() <= u64::MAX,
                before.total_draft_tokens + self.draft_model.spec_draft_length() <= u64::MAX,
                before.draft_accepted + self.draft_model.spec_draft_length() <= u64::MAX,
                before.rejected_steps < u64::MAX,
                before.draft_rejected < u64::MAX,
                vs.len() <= draft.len(),
                forall|k: int| 0 <= k < vs.len() - 1 ==> (#[trigger] vs[k]) == Verdict::Accepted,
                !stopped ==> vs.len() == i && (vs.len() > 0 ==> vs.last() == Verdict::Accepted),
                stopped ==> vs.len() > 0 && vs.last() != Verdict::Accepted,
                forall|k: int|
                    0 <= k < vs.len() ==> verify.ensures((draft[k], sure), #[trigger] vs[k]),
                accepted@ == run_tokens(t0, draft, vs),
                self.stats == run_stats(before, vs),
            decreases tokens@.len() - i, if stopped { 0int } else { 1int },
        {
            let d: usize = tokens[i];
            let verdict = verify(d, confs[i]);
            let ghost so_far = vs;
            proof {
                vs = vs.push(verdict);
                assert(vs.last() == verdict);
                assert forall|k: int| 0 <= k < vs.len() - 1 implies (#[trigger] vs[k])
                    == Verdict::Accepted by {
                    if k == so_far.len() - 1 {
                        assert(so_far.last() == Verdict::Accepted);
                    } else {
                        assert(so_far[k] == Verdict::Accepted);
                    }
                }
            }
            self.stats.total_draft_tokens = self.stats.total_draft_tokens + 1;
            match verdict {
                Verdict::Impossible => {
                    self.stats.rejected_steps = self.stats.rejected_steps + 1;
                    stopped = true;
                    assert(accepted@ =~= run_tokens(t0, draft, vs));
                },
                Verdict::Accepted => {
                    accepted.push(d);
                    self.stats.accepted_tokens = self.stats.accepted_tokens + 1;
                    self.stats.draft_accepted = self.stats.draft_accepted + 1;
                    i = i + 1;
                    assert(accepted@ =~= run_tokens(t0, draft, vs));
                },
                Verdict::Rejected(resampled) => {
                    accepted.push(resampled);
                    self.stats.draft_rejected = self.stats.draft_rejected + 1;
                    self.stats.rejected_steps = self.stats.rejected_steps + 1;
                    stopped = true;
                    assert(accepted@ =~= run_tokens(t0, draft, vs));
                },
            }
        }
        assert(is_run(vs, draft.len() as int));
        accepted
    }
}

/// `pages` with `lo ..= hi` behind it, leaving out what is there.
pub open spec fn with_page_range(pages: Seq<usize>, lo: int, hi: int) -> Seq<usize>
    decreases hi - lo + 1,
{
    if lo > hi {
        pages
    } else if pages.contains(lo as usize) {
        with_page_range(pages, lo + 1, hi)
    } else {
        with_page_range(pages.push(lo as usize), lo + 1, hi)
    }
}

/// The pages around the first `n` matches that are far enough back.
pub open spec fn window_pages(
    found: Seq<(usize, u32)>,
    current_pos: int,
    lookback: int,
    lookahead: int,
    n: int,
) -> Seq<usize>
    decreases n,
{
    if n <= 0 {
        Seq::empty()
    } else {
        let pages = window_pages(found, current_pos, lookback, lookahead, n - 1);
        let at = found[n - 1].0 as int;
        if current_pos - at < NEAR_POSITIONS {
            pages
        } else {
            let start = if at > lookback {
                at - lookback
            } else {
                0
            };
            let end = if at + lookahead < current_pos {
                at + lookahead
            } else {
                current_pos
            };
            with_page_range(pages, spec_page_id(start), spec_page_id(end))
        }
    }
}

pub open spec fn first_pages(pages: Seq<usize>) -> Seq<usize> {
    if pages.len() > MAX_COLD_PAGES {
        pages.take(MAX_COLD_PAGES as int)
    } else {
        pages
    }
}

/// The pages to fetch ahead.
pub open spec fn cold_pages(
    found: Seq<(usize, u32)>,
    current_pos: int,
    lookback: int,
    lookahead: int,
) -> Seq<usize> {
    first_pages(window_pages(found, current_pos, lookback, lookahead, found.len() as int))
}

fn has_page(pages: &Vec<usize>, id: usize) -> (b: bool)
    ensures
        b == pages@.contains(id),
{
    let mut i: usize = 0;
    while i < pages.len()
        invariant
            i <= pages@.len(),
            forall|k: int| 0 <= k < i ==> (#[trigger] pages@[k]) != id,
        decreases pages@.len() - i,
    {
        if pages[i] == id {
            return true;
        }
        i = i + 1;
    }
    false
}

fn add_page_range(pages: &mut Vec<usize>, lo: usize, hi: usize)
    ensures
        final(pages)@ == with_page_range(old(pages)@, lo as int, hi as int),
{
    let ghost before = pages@;
    if lo > hi {
        return ;
    }
    let mut id: usize = lo;
    loop
        invariant
            lo <= id <= hi,
            before == old(pages)@,
            with_page_range(before, lo as int, hi as int) == with_page_range(
                pages@,
                id as int,
                hi as int,
            ),
        decreases hi - id,
    {
        if !has_page(pages, id) {
            pages.push(id);
        }
        if id == hi {
            assert(with_page_range(pages@, hi + 1, hi as int) == pages@);
            return ;
        }
        id = id + 1;
    }
}

/// No page is fetched twice, and at most sixty-four are.
pub proof fn law_cold_pages_are_distinct(
    found: Seq<(usize, u32)>,
    current_pos: int,
    lookback: int,
    lookahead: int,
)
    ensures
        cold_pages(found, current_pos, lookback, lookahead).no_duplicates(),
        cold_pages(found, current_pos, lookback, lookahead).len() <= MAX_COLD_PAGES,
{
    lemma_window_distinct(found, current_pos, lookback, lookahead, found.len() as int);
}

proof fn lemma_range_distinct(pages: Seq<usize>, lo: int, hi: int)
    requires
        pages.no_duplicates(),
    ensures
        with_page_range(pages, lo, hi).no_duplicates(),
    decreases hi - lo + 1,
{
    if lo <= hi {
        if pages.contains(lo as usize) {
            lemma_range_distinct(pages, lo + 1, hi);
        } else {
            let longer = pages.push(lo as usize);
            assert forall|i: int, j: int|
                0 <= i < longer.len() && 0 <= j < longer.len() && i != j implies longer[i]
                != longer[j] by {
                if i < pages.len() {
                    assert(pages.contains(pages[i]));
                }
                if j < pages.len() {
                    assert(pages.contains(pages[j]));
                }
            }
            lemma_range_distinct(longer, lo + 1, hi);
        }
    }
}

proof fn lemma_window_distinct(
    found: Seq<(usize, u32)>,
    current_pos: int,
    lookback: int,
    lookahead: int,
    n: int,
)
    ensures
        window_pages(found, current_pos, lookback, lookahead, n).no_duplicates(),
    decreases n,
{
    if n > 0 {
        lemma_window_distinct(found, current_pos, lookback, lookahead, n - 1);
        let pages = window_pages(found, current_pos, lookback, lookahead, n - 1);
        let at = found[n - 1].0 as int;
        let start = if at > lookback {
            at - lookback
        } else {
            0
        };
        let end = if at + lookahead < current_pos {
            at + lookahead
        } else {
            current_pos
        };
        lemma_range_distinct(pages, spec_page_id(start), spec_page_id(end));
    }
}

/// A step returns its own token first, and between one token and one more
/// than the draft is long.
pub proof fn law_step_returns_its_token(t0: usize, draft: Seq<usize>, verdicts: Seq<Verdict>)
    requires
        is_run(verdicts, draft.len() as int),
    ensures
        run_tokens(t0, draft, verdicts)[0] == t0,
        1 <= run_tokens(t0, draft, verdicts).len() <= draft.len() + 1,
        forall|i: int|
            0 <= i < run_accepts(verdicts) ==> (#[trigger] run_tokens(t0, draft, verdicts)[i + 1])
                == draft[i],
{
}

/// One step of the generator that the acceptance test draws from.
pub open spec fn spec_xorshift(x: u64) -> u64 {
    let a = x ^ (x << 13);
    let b = a ^ (a >> 7);
    b ^ (b << 17)
}

pub fn xorshift(x: u64) -> (r: u64)
    ensures
        r == spec_xorshift(x),
{
    let a: u64 = x ^ (x << 13);
    let b: u64 = a ^ (a >> 7);
    b ^ (b << 17)
}

/// The generator never falls into zero, so that it goes on drawing.
pub proof fn law_xorshift_stays_alive(x: u64)
    requires
        x != 0,
    ensures
        spec_xorshift(x) != 0,
{
    let a = x ^ (x << 13);
    let b = a ^ (a >> 7);
    assert(x ^ (x << 13) != 0) by (bit_vector)
        requires
            x != 0,
    ;
    assert(a ^ (a >> 7) != 0) by (bit_vector)
        requires
            a != 0,
    ;
    assert(b ^ (b << 17) != 0) by (bit_vector)
        requires
            b != 0,
    ;
}

/// A lookup finds the first entry for a pair, and nothing only where there is none.
pub proof fn law_lookup_finds_the_pair(
    entries: Seq<LogitEntry>,
    hash: u64,
    token: usize,
    i: int,
    k: int,
)
    requires
        0 <= i <= k < entries.len(),
    ensures
        match first_entry(entries, hash, token, i) {
            Some(p) => {
                &&& i <= p < entries.len()
                &&& entries[p].hash == hash && entries[p].token == token
                &&& entries[k].hash == hash && entries[k].token == token ==> p <= k
            },
            None => entries[k].hash != hash || entries[k].token != token,
        },
    decreases entries.len() - i,
{
    if !entries[i].is_for(hash, token) {
        if i < k {
            law_lookup_finds_the_pair(entries, hash, token, i + 1, k);
        } else {
            lemma_first_entry(entries, hash, token, i + 1);
        }
    }
}

proof fn lemma_first_entry(entries: Seq<LogitEntry>, hash: u64, token: usize, i: int)
    requires
        0 <= i <= entries.len(),
    ensures
        first_entry(entries, hash, token, i) matches Some(p) ==> i <= p < entries.len()
            && entries[p].hash == hash && entries[p].token == token,
    decreases entries.len() - i,
{
    if i < entries.len() && !entries[i].is_for(hash, token) {
        lemma_first_entry(entries, hash, token, i + 1);
    }
}

/// A step yields its own token, then the drafted tokens up to the first that the target
/// did not accept, then what was sampled in the place of that one, if anything was.
/// Nothing behind a token that was not accepted is kept.
pub proof fn law_step_stops_at_the_first_refusal(
    t0: usize,
    draft: Seq<usize>,
    verdicts: Seq<Verdict>,
)
    requires
        is_run(verdicts, draft.len() as int),
    ensures
        ({
            let out = run_tokens(t0, draft, verdicts);
            let kept = run_accepts(verdicts);
            &&& 0 <= kept <= verdicts.len()
            &&& forall|i: int|
                0 <= i < kept ==> (#[trigger] verdicts[i]) == Verdict::Accepted
            &&& out[0] == t0
            &&& out.subrange(1, 1 + kept) == draft.take(kept)
            &&& if kept == verdicts.len() {
                kept == draft.len() && out.len() == 1 + kept
            } else {
                match verdicts[kept] {
                    Verdict::Rejected(other) => out.len() == 2 + kept && out.last() == other,
                    Verdict::Impossible => out.len() == 1 + kept,
                    Verdict::Accepted => false,
                }
            }
        }),
{
    let out = run_tokens(t0, draft, verdicts);
    let kept = run_accepts(verdicts);
    assert(out.subrange(1, 1 + kept) =~= draft.take(kept));
}

/// The counters add up: a step counts once, every token that was put to the target counts
/// as drafted, the accepted ones and the step's own as accepted, and a refusal once.
pub proof fn law_counters_add_up(
    before: DSparkStats,
    t0: usize,
    draft: Seq<usize>,
    verdicts: Seq<Verdict>,
)
    requires
        is_run(verdicts, draft.len() as int),
        before.total_steps < u64::MAX,
        before.accepted_tokens + 1 + draft.len() <= u64::MAX,
        before.total_draft_tokens + draft.len() <= u64::MAX,
        before.draft_accepted + draft.len() <= u64::MAX,
        before.rejected_steps < u64::MAX,
        before.draft_rejected < u64::MAX,
    ensures
        ({
            let after = run_stats(before, verdicts);
            let out = run_tokens(t0, draft, verdicts);
            let substituted = verdicts.len() > 0 && verdicts.last() is Rejected;
            &&& after.total_steps == before.total_steps + 1
            &&& after.total_draft_tokens == before.total_draft_tokens + verdicts.len()
            &&& after.accepted_tokens - before.accepted_tokens + (if substituted {
                1int
            } else {
                0int
            }) == out.len()
            &&& after.draft_accepted - before.draft_accepted + 1 == after.accepted_tokens
                - before.accepted_tokens
            &&& after.draft_rejected == before.draft_rejected + (if substituted {
                1int
            } else {
                0int
            })
            &&& after.rejected_steps == before.rejected_steps + (if verdicts.len() > 0
                && verdicts.last() != Verdict::Accepted {
                1int
            } else {
                0int
            })
            &&& after.cache_hits == before.cache_hits
            &&& after.cache_misses == before.cache_misses
            &&& after.total_draft_attempts == before.total_draft_attempts
            &&& after.total_rollbacks == before.total_rollbacks
        }),
{
}

proof fn lemma_page_range_has(pages: Seq<usize>, lo: int, hi: int, p: usize)
    requires
        0 <= lo,
        hi <= usize::MAX,
    ensures
        with_page_range(pages, lo, hi).contains(p) <==> pages.contains(p) || lo <= p <= hi,
    decreases hi - lo + 1,
{
    if lo <= hi {
        if pages.contains(lo as usize) {
            lemma_page_range_has(pages, lo + 1, hi, p);
        } else {
            let more = pages.push(lo as usize);
            lemma_page_range_has(more, lo + 1, hi, p);
            if pages.contains(p) {
                let k = choose|k: int| 0 <= k < pages.len() && pages[k] == p;
                assert(more[k] == p);
            }
            assert(more[pages.len() as int] == lo as usize);
        }
    }
}

/// A page is around a match: between the page of the position that lies `lookback`
/// before it, or of the first, and that of the one `lookahead` behind it, or of the
/// present one.
pub open spec fn is_around(at: int, current_pos: int, lookback: int, lookahead: int, page: int) -> bool {
    exists|q: int|
        {
            &&& at - lookback <= q <= at + lookahead
            &&& 0 <= q <= current_pos
            &&& #[trigger] spec_page_id(q) == page
        }
}

/// The pages to fetch ahead are those of the positions around the matches that lie at
/// least 128 positions back, all of them and no others, as long as they are no more than
/// sixty-four; of more the first sixty-four are fetched.
pub proof fn law_cold_pages_surround_far_matches(
    found: Seq<(usize, u32)>,
    current_pos: int,
    lookback: int,
    lookahead: int,
    n: int,
    p: usize,
)
    requires
        0 <= n <= found.len(),
        0 <= current_pos <= usize::MAX,
        0 <= lookback,
        0 <= lookahead,
    ensures
        window_pages(found, current_pos, lookback, lookahead, n).contains(p) <==> exists|i: int|
            0 <= i < n && current_pos - (#[trigger] found[i]).0 >= 128 && is_around(
                found[i].0 as int,
                current_pos,
                lookback,
                lookahead,
                p as int,
            ),
        n == found.len() && window_pages(found, current_pos, lookback, lookahead, n).len() <= 64
            ==> cold_pages(found, current_pos, lookback, lookahead) == window_pages(
            found,
            current_pos,
            lookback,
            lookahead,
            n,
        ),
        n == found.len() && window_pages(found, current_pos, lookback, lookahead, n).len() > 64
            ==> cold_pages(found, current_pos, lookback, lookahead) == window_pages(
            found,
            current_pos,
            lookback,
            lookahead,
            n,
        ).take(64),
    decreases n,
{
    if n > 0 {
        law_cold_pages_surround_far_matches(
            found,
            current_pos,
            lookback,
            lookahead,
            n - 1,
            p,
        );
        let pages = window_pages(found, current_pos, lookback, lookahead, n - 1);
        let at = found[n - 1].0 as int;
        if current_pos - at >= 128 {
            let start = if at > lookback {
                at - lookback
            } else {
                0
            };
            let end = if at + lookahead < current_pos {
                at + lookahead
            } else {
                current_pos
            };
            lemma_page_of(start);
            lemma_page_of(end);
            lemma_page_range_has(pages, spec_page_id(start), spec_page_id(end), p);
            if spec_page_id(start) <= p <= spec_page_id(end) {
                lemma_pages_between(start, end, p as int);
            }
            if is_around(at, current_pos, lookback, lookahead, p as int) {
                let q = choose|q: int|
                    {
                        &&& at - lookback <= q <= at + lookahead
                        &&& 0 <= q <= current_pos
                        &&& #[trigger] spec_page_id(q) == p
                    };
                zones::law_page_ids_ascend(start, q);
                zones::law_page_ids_ascend(q, end);
            }
            assert(found[n - 1] == found[n - 1]);
        }
    }
}

proof fn lemma_page_of(pos: int)
    requires
        0 <= pos,
    ensures
        0 <= spec_page_id(pos) <= pos,
{
    zones::law_position_splits(pos);
}

/// Between two positions every page number occurs.
proof fn lemma_pages_between(a: int, b: int, p: int)
    requires
        0 <= a <= b,
        spec_page_id(a) <= p <= spec_page_id(b),
    ensures
        exists|q: int| a <= q <= b && #[trigger] spec_page_id(q) == p,
    decreases b - a,
{
    if spec_page_id(a) == p {
    } else {
        zones::law_pages_follow_without_gap(a);
        lemma_pages_between(a + 1, b, p);
        let q = choose|q: int| a + 1 <= q <= b && #[trigger] spec_page_id(q) == p;
        assert(spec_page_id(q) == p);
    }
}

/// The generator mixes states without losing any: the difference of two states decides
/// the difference of their successors, so that different states have different ones.
pub proof fn law_xorshift_tells_states_apart(x: u64, y: u64)
    ensures
        spec_xorshift(x ^ y) == spec_xorshift(x) ^ spec_xorshift(y),
        x != y ==> spec_xorshift(x) != spec_xorshift(y),
{
    let (a, b) = (x ^ (x << 13), y ^ (y << 13));
    let (c, d) = (a ^ (a >> 7), b ^ (b >> 7));
    assert((x ^ y) ^ ((x ^ y) << 13) == (x ^ (x << 13)) ^ (y ^ (y << 13))) by (bit_vector);
    assert((a ^ b) ^ ((a ^ b) >> 7) == (a ^ (a >> 7)) ^ (b ^ (b >> 7))) by (bit_vector);
    assert((c ^ d) ^ ((c ^ d) << 17) == (c ^ (c << 17)) ^ (d ^ (d << 17))) by (bit_vector);
    if x != y {
        assert(x != y ==> x ^ y != 0) by (bit_vector);
        law_xorshift_stays_alive(x ^ y);
        let (e, f) = (spec_xorshift(x), spec_xorshift(y));
        assert(e ^ f != 0 ==> e != f) by (bit_vector);
    }
}

/// At first nothing has been counted.
pub proof fn law_counters_start_at_zero()
    ensures
        no_stats().total_steps == 0,
        no_stats().total_draft_tokens == 0,
        no_stats().accepted_tokens == 0,
        no_stats().rejected_steps == 0,
        no_stats().total_draft_attempts == 0,
        no_stats().draft_accepted == 0,
        no_stats().draft_rejected == 0,
        no_stats().total_rollbacks == 0,
        no_stats().cache_hits == 0,
        no_stats().cache_misses == 0,
{
}

} // verus!
