//! Routing of matrix products to the fastest kernel.
//!
//! Each class of operations keeps a moving average of the cost of each
//! kernel.  Most calls go to the cheapest; every so often one explores.

use vstd::prelude::*;

verus! {

pub const NUM_EXPERTS: usize = 3;

/// Slots of the cost table.
pub const NUM_SLOTS: usize = 192;

/// Weight of a new sample, one eighth in Q32.
pub const EWMA_ALPHA_Q32: u64 = 536_870_912;

/// Weight of the running average, seven eighths in Q32.
pub const ONE_MINUS_ALPHA_Q32: u64 = 3_758_096_384;

/// Calls between two explorations of the shared router.
pub const GLOBAL_EXPLORE_INTERVAL: u32 = 128;

/// What the processor can do.
#[derive(Debug, Clone, Copy, PartialEq, Eq, Structural)]
pub struct CpuFeatures {
    pub avx512f: bool,
    pub avx512vnni: bool,
    pub avx2: bool,
    pub fma: bool,
}

/// A kernel.
#[derive(Debug, Clone, Copy, PartialEq, Eq, Structural, Hash)]
pub enum GemmExpert {
    Vnni,
    Avx2,
    Scalar,
}

impl GemmExpert {
    pub open spec fn spec_index(self) -> int {
        match self {
            GemmExpert::Vnni => 0,
            GemmExpert::Avx2 => 1,
            GemmExpert::Scalar => 2,
        }
    }

    pub fn from_index(i: usize) -> (e: Self)
        ensures
            e == (if i == 0 {
                GemmExpert::Vnni
            } else if i == 1 {
                GemmExpert::Avx2
            } else {
                GemmExpert::Scalar
            }),
            i < 3 ==> e.spec_index() == i,
    {
        match i {
            0 => GemmExpert::Vnni,
            1 => GemmExpert::Avx2,
            _ => GemmExpert::Scalar,
        }
    }

    pub fn index(self) -> (i: usize)
        ensures
            i == self.spec_index(),
            i < 3,
    {
        match self {
            GemmExpert::Vnni => 0,
            GemmExpert::Avx2 => 1,
            GemmExpert::Scalar => 2,
        }
    }

    pub fn name(self) -> (s: &'static str)
        ensures
            s@ == (match self {
                GemmExpert::Vnni => "vnni"@,
                GemmExpert::Avx2 => "avx2"@,
                GemmExpert::Scalar => "scalar"@,
            }),
    {
        match self {
            GemmExpert::Vnni => "vnni",
            GemmExpert::Avx2 => "avx2",
            GemmExpert::Scalar => "scalar",
        }
    }
}

/// A class of operations.
#[derive(Debug, Clone, Copy, PartialEq, Eq, Structural, Hash)]
pub struct OpProfile {
    pub row_bucket: u32,
    pub col_bucket: u32,
    pub is_batched: bool,
}

pub open spec fn spec_bucket(v: int) -> int {
    if v <= 256 {
        0
    } else if v <= 1024 {
        1
    } else if v <= 4096 {
        2
    } else if v <= 16384 {
        3
    } else {
        4
    }
}

/// Size class of a dimension.
pub fn bucket_dim(v: usize) -> (b: u32)
    ensures
        b == spec_bucket(v as int),
        b < 5,
{
    if v <= 256 {
        0
    } else if v <= 1024 {
        1
    } else if v <= 4096 {
        2
    } else if v <= 16384 {
        3
    } else {
        4
    }
}

impl OpProfile {
    /// Number of the class.
    pub open spec fn class(self) -> int {
        (self.row_bucket * 5 + self.col_bucket) * 2 + (if self.is_batched {
            1int
        } else {
            0int
        })
    }

    /// The class has a place in the cost table.
    pub open spec fn in_table(self) -> bool {
        self.class() < 64
    }

    pub fn new(n_rows: usize, n_cols: usize, is_batched: bool) -> (p: Self)
        ensures
            p == (OpProfile {
                row_bucket: spec_bucket(n_rows as int) as u32,
                col_bucket: spec_bucket(n_cols as int) as u32,
                is_batched,
            }),
            p.in_table(),
    {
        OpProfile { row_bucket: bucket_dim(n_rows), col_bucket: bucket_dim(n_cols), is_batched }
    }
}

pub open spec fn slot_of(profile: OpProfile, expert: GemmExpert) -> int {
    profile.class() * 3 + expert.spec_index()
}

/// The kernels that the processor can run, fastest kind first.
pub open spec fn experts_of(f: CpuFeatures) -> Seq<GemmExpert> {
    let vnni = if f.avx512f && f.avx512vnni {
        seq![GemmExpert::Vnni]
    } else {
        Seq::empty()
    };
    let avx2 = if f.avx2 && f.fma {
        seq![GemmExpert::Avx2]
    } else {
        Seq::empty()
    };
    vnni + avx2 + seq![GemmExpert::Scalar]
}

pub fn available_experts(f: &CpuFeatures) -> (v: Vec<GemmExpert>)
    ensures
        v@ == experts_of(*f),
        1 <= v@.len() <= 3,
{
    let mut v: Vec<GemmExpert> = Vec::new();
    if f.avx512f && f.avx512vnni {
        v.push(GemmExpert::Vnni);
    }
    if f.avx2 && f.fma {
        v.push(GemmExpert::Avx2);
    }
    v.push(GemmExpert::Scalar);
    assert(v@ =~= experts_of(*f));
    v
}

/// With a single kernel there is nothing to route.
pub fn num_available_experts(f: &CpuFeatures) -> (n: usize)
    ensures
        n == experts_of(*f).len(),
{
    available_experts(f).len()
}

/// The cost after one more sample.
pub open spec fn cost_step(cost: int, elapsed_ns: int) -> int {
    if cost == 0 {
        elapsed_ns
    } else {
        (elapsed_ns * EWMA_ALPHA_Q32 + cost * ONE_MINUS_ALPHA_Q32) / 0x1_0000_0000
    }
}

/// The counter after one more, which starts over after the largest.
pub open spec fn count_step(n: u32) -> u32 {
    if n == u32::MAX {
        0
    } else {
        (n + 1) as u32
    }
}

/// Place of the kernel that an exploring call takes.
pub open spec fn explore_place(call: int, n: int) -> int {
    (call * 2654435761 % 0x1_0000_0000) / 0x1_0000 % n
}

/// Costs and sample counts by slot, with the call counter.
pub struct ExpertRouter {
    costs: Vec<u64>,
    samples: Vec<u32>,
    explore_interval: u32,
    call_count: u32,
}

/// The router that all products share: the one in the slot, which is made at
/// the first call.
pub fn global_router(shared: &mut Option<ExpertRouter>) -> (r: &mut ExpertRouter)
    ensures
        match *old(shared) {
            Some(x) => *r == x,
            None => {
                &&& r.wf()
                &&& r.spec_costs() == Seq::new(NUM_SLOTS as nat, |i: int| 0u64)
                &&& r.spec_samples() == Seq::new(NUM_SLOTS as nat, |i: int| 0u32)
                &&& r.interval() == GLOBAL_EXPLORE_INTERVAL
                &&& r.calls() == 0
            },
        },
        *final(shared) == Some(*final(r)),
{
    if shared.is_none() {
        *shared = Some(ExpertRouter::new(GLOBAL_EXPLORE_INTERVAL));
    }
    match shared {
        Some(r) => r,
        None => vstd::pervasive::unreached(),
    }
}

/// The cheapest of the first `n` kernels that have samples; the first of all
/// where none has, or where none is below the largest cost.
pub open spec fn cheapest(
    experts: Seq<GemmExpert>,
    costs: Seq<u64>,
    samples: Seq<u32>,
    profile: OpProfile,
    n: int,
) -> (GemmExpert, u64)
    decreases n,
{
    if n <= 0 {
        (experts[0], u64::MAX)
    } else {
        let best = cheapest(experts, costs, samples, profile, n - 1);
        let s = slot_of(profile, experts[n - 1]);
        if samples[s] > 0 && costs[s] < best.1 {
            (experts[n - 1], costs[s])
        } else {
            best
        }
    }
}

impl ExpertRouter {
    pub closed spec fn spec_costs(&self) -> Seq<u64> {
        self.costs@
    }

    pub closed spec fn spec_samples(&self) -> Seq<u32> {
        self.samples@
    }

    pub closed spec fn interval(&self) -> u32 {
        self.explore_interval
    }

    pub closed spec fn calls(&self) -> u32 {
        self.call_count
    }

    pub open spec fn wf(&self) -> bool {
        &&& self.spec_costs().len() == NUM_SLOTS
        &&& self.spec_samples().len() == NUM_SLOTS
    }

    /// The call is one that explores.
    pub open spec fn explores(&self) -> bool {
        self.interval() > 0 && self.calls() % self.interval() == 0
    }

    pub fn new(explore_interval: u32) -> (r: Self)
        ensures
            r.wf(),
            r.spec_costs() == Seq::new(NUM_SLOTS as nat, |i: int| 0u64),
            r.spec_samples() == Seq::new(NUM_SLOTS as nat, |i: int| 0u32),
            r.interval() == explore_interval,
            r.calls() == 0,
    {
        let r = ExpertRouter {
            costs: vec![0u64; NUM_SLOTS],
            samples: vec![0u32; NUM_SLOTS],
            explore_interval,
            call_count: 0,
        };
        assert(r.costs@ =~= Seq::new(NUM_SLOTS as nat, |i: int| 0u64));
        assert(r.samples@ =~= Seq::new(NUM_SLOTS as nat, |i: int| 0u32));
        r
    }

    /// Place of a kernel's figures for a class.
    fn slot(&self, profile: &OpProfile, expert: GemmExpert) -> (s: usize)
        requires
            profile.in_table(),
        ensures
            s == slot_of(*profile, expert),
            s < NUM_SLOTS,
    {
        let batched: u32 = if profile.is_batched {
            1
        } else {
            0
        };
        let class: u32 = (profile.row_bucket * 5 + profile.col_bucket) * 2 + batched;
        class as usize * 3 + expert.index()
    }

    /// Picks the kernel for an operation.
    ///
    /// With one kernel there is no choice.  Else the call counts, and either
    /// explores or takes the cheapest.
    pub fn select(&mut self, profile: &OpProfile, f: &CpuFeatures) -> (e: GemmExpert)
        requires
            old(self).wf(),
            profile.in_table(),
        ensures
            final(self).wf(),
            final(self).spec_costs() == old(self).spec_costs(),
            final(self).spec_samples() == old(self).spec_samples(),
            final(self).interval() == old(self).interval(),
            experts_of(*f).len() == 1 ==> e == experts_of(*f)[0] && *final(self) == *old(self),
            experts_of(*f).len() > 1 ==> {
                &&& final(self).calls() == count_step(old(self).calls())
                &&& e == (if old(self).explores() {
                    experts_of(*f)[explore_place(
                        old(self).calls() as int,
                        experts_of(*f).len() as int,
                    )]
                } else {
                    cheapest(
                        experts_of(*f),
                        old(self).spec_costs(),
                        old(self).spec_samples(),
                        *profile,
                        experts_of(*f).len() as int,
                    ).0
                })
            },
    {
        let avail = available_experts(f);
        if avail.len() <= 1 {
            return avail[0];
        }
        let call: u32 = self.call_count;
        self.call_count = next_count(call);
        if self.explore_interval > 0 && call % self.explore_interval == 0 {
            let mixed: u64 = call as u64 * 2654435761 % 0x1_0000_0000 / 0x1_0000;
            let i: usize = (mixed % avail.len() as u64) as usize;
            return avail[i];
        }
        let mut best = avail[0];
        let mut best_cost: u64 = 0xffff_ffff_ffff_ffff;
        let mut i: usize = 0;
        while i < avail.len()
            invariant
                i <= avail@.len(),
                avail@ == experts_of(*f),
                1 <= avail@.len(),
                self.wf(),
                profile.in_table(),
                (best, best_cost) == cheapest(
                    avail@,
                    self.spec_costs(),
                    self.spec_samples(),
                    *profile,
                    i as int,
                ),
            decreases avail@.len() - i,
        {
            let s: usize = self.slot(profile, avail[i]);
            let c: u64 = self.costs[s];
            if self.samples[s] > 0 && c < best_cost {
                best_cost = c;
                best = avail[i];
            }
            i = i + 1;
        }
        best
    }

    /// Accounts for a call of a kernel that took `elapsed_ns`.
    pub fn record(&mut self, profile: &OpProfile, expert: GemmExpert, elapsed_ns: u64)
        requires
            old(self).wf(),
            profile.in_table(),
        ensures
            final(self).wf(),
            final(self).interval() == old(self).interval(),
            final(self).calls() == old(self).calls(),
            final(self).spec_costs() == old(self).spec_costs().update(
                slot_of(*profile, expert),
                cost_step(
                    old(self).spec_costs()[slot_of(*profile, expert)] as int,
                    elapsed_ns as int,
                ) as u64,
            ),
            final(self).spec_samples() == old(self).spec_samples().update(
                slot_of(*profile, expert),
                count_step(old(self).spec_samples()[slot_of(*profile, expert)]),
            ),
            0 <= cost_step(
                old(self).spec_costs()[slot_of(*profile, expert)] as int,
                elapsed_ns as int,
            ) <= u64::MAX,
    {
        let s: usize = self.slot(profile, expert);
        let n: u32 = next_count(self.samples[s]);
        self.samples.set(s, n);
        let c: u64 = next_cost(self.costs[s], elapsed_ns);
        self.costs.set(s, c);
    }

    /// Cost and sample count of each kernel for a class.
    pub fn report_profile(&self, profile: &OpProfile, f: &CpuFeatures) -> (r: Vec<
        (GemmExpert, u64, u32),
    >)
        requires
            self.wf(),
            profile.in_table(),
        ensures
            r@ == Seq::new(
                experts_of(*f).len(),
                |i: int|
                    (
                        experts_of(*f)[i],
                        self.spec_costs()[slot_of(*profile, experts_of(*f)[i])],
                        self.spec_samples()[slot_of(*profile, experts_of(*f)[i])],
                    ),
            ),
    {
        let avail = available_experts(f);
        let mut r: Vec<(GemmExpert, u64, u32)> = Vec::new();
        let mut i: usize = 0;
        while i < avail.len()
            invariant
                i <= avail@.len(),
                avail@ == experts_of(*f),
                self.wf(),
                profile.in_table(),
                r@.len() == i,
                forall|k: int|
                    0 <= k < i ==> (#[trigger] r@[k]) == (
                        avail@[k],
                        self.spec_costs()[slot_of(*profile, avail@[k])],
                        self.spec_samples()[slot_of(*profile, avail@[k])],
                    ),
            decreases avail@.len() - i,
        {
            let s: usize = self.slot(profile, avail[i]);
            r.push((avail[i], self.costs[s], self.samples[s]));
            i = i + 1;
        }
        r
    }
}

fn next_count(n: u32) -> (r: u32)
    ensures
        r == count_step(n),
{
    if n == 0xffff_ffff {
        0
    } else {
        n + 1
    }
}

fn next_cost(cost: u64, elapsed_ns: u64) -> (r: u64)
    ensures
        r == cost_step(cost as int, elapsed_ns as int),
{
    if cost == 0 {
        return elapsed_ns;
    }
    proof {
        assert(elapsed_ns * EWMA_ALPHA_Q32 <= u64::MAX * EWMA_ALPHA_Q32) by (nonlinear_arith)
            requires
                0 <= elapsed_ns <= u64::MAX,
                0 <= EWMA_ALPHA_Q32,
        ;
        assert(cost * ONE_MINUS_ALPHA_Q32 <= u64::MAX * ONE_MINUS_ALPHA_Q32) by (nonlinear_arith)
            requires
                0 <= cost <= u64::MAX,
                0 <= ONE_MINUS_ALPHA_Q32,
        ;
    }
    ((elapsed_ns as u128 * EWMA_ALPHA_Q32 as u128 + cost as u128 * ONE_MINUS_ALPHA_Q32 as u128)
        / 0x1_0000_0000) as u64
}

/// The pick of a call that does not explore costs no more than any kernel
/// with samples.
pub proof fn law_pick_is_cheapest(
    experts: Seq<GemmExpert>,
    costs: Seq<u64>,
    samples: Seq<u32>,
    profile: OpProfile,
    n: int,
    i: int,
)
    requires
        0 <= i < n <= experts.len(),
        samples[slot_of(profile, experts[i])] > 0,
    ensures
        cheapest(experts, costs, samples, profile, n).1 <= costs[slot_of(profile, experts[i])],
        experts.contains(cheapest(experts, costs, samples, profile, n).0),
    decreases n,
{
    lemma_pick_is_available(experts, costs, samples, profile, n);
    if i < n - 1 {
        law_pick_is_cheapest(experts, costs, samples, profile, n - 1, i);
    }
}

proof fn lemma_pick_is_available(
    experts: Seq<GemmExpert>,
    costs: Seq<u64>,
    samples: Seq<u32>,
    profile: OpProfile,
    n: int,
)
    requires
        0 <= n <= experts.len(),
        0 < experts.len(),
    ensures
        experts.contains(cheapest(experts, costs, samples, profile, n).0),
    decreases n,
{
    assert(experts[0] == experts[0]);
    if n > 0 {
        lemma_pick_is_available(experts, costs, samples, profile, n - 1);
        assert(experts.contains(experts[n - 1]));
    }
}

/// Classes and kernels do not share figures.
pub proof fn law_slots_are_distinct(p: OpProfile, a: GemmExpert, q: OpProfile, b: GemmExpert)
    requires
        p.row_bucket < 5,
        p.col_bucket < 5,
        q.row_bucket < 5,
        q.col_bucket < 5,
        slot_of(p, a) == slot_of(q, b),
    ensures
        p == q,
        a == b,
{
}

/// A class of sizes reaches up to 256 and four times as far with each class, and the
/// last has no end.
pub proof fn law_classes_grow_by_four(v: int)
    requires
        0 <= v,
    ensures
        0 <= spec_bucket(v) <= 4,
        spec_bucket(v) == 0 <==> v <= 256,
        spec_bucket(v) <= 1 <==> v <= 4 * 256,
        spec_bucket(v) <= 2 <==> v <= 16 * 256,
        spec_bucket(v) <= 3 <==> v <= 64 * 256,
{
}

/// Every processor has the plain kernel, last of all; the others are there exactly if
/// the processor has what they need, and none is listed twice.
pub proof fn law_kernels_follow_the_processor(f: CpuFeatures)
    ensures
        experts_of(f).last() == GemmExpert::Scalar,
        experts_of(f).contains(GemmExpert::Vnni) <==> f.avx512f && f.avx512vnni,
        experts_of(f).contains(GemmExpert::Avx2) <==> f.avx2 && f.fma,
        experts_of(f).no_duplicates(),
{
    let all = experts_of(f);
    if f.avx512f && f.avx512vnni {
        assert(all[0] == GemmExpert::Vnni);
        if f.avx2 && f.fma {
            assert(all[1] == GemmExpert::Avx2);
        }
    } else if f.avx2 && f.fma {
        assert(all[0] == GemmExpert::Avx2);
    }
}

/// A sample counts for one eighth of a kernel's cost and the past for seven, rounded
/// down; the first sample is the cost.
pub proof fn law_cost_weighs_samples(cost: int, elapsed_ns: int)
    requires
        0 <= cost,
        0 <= elapsed_ns,
    ensures
        cost_step(0, elapsed_ns) == elapsed_ns,
        cost > 0 ==> 8 * cost_step(cost, elapsed_ns) <= elapsed_ns + 7 * cost < 8 * cost_step(
            cost,
            elapsed_ns,
        ) + 8,
{
    assert((elapsed_ns * 536_870_912 + cost * 3_758_096_384) / 0x1_0000_0000 == (elapsed_ns + 7
        * cost) / 8);
}

/// The kernel that a call picks by cost has samples for the class, and no kernel with
/// samples costs less.
pub proof fn law_pick_has_the_least_cost(
    experts: Seq<GemmExpert>,
    costs: Seq<u64>,
    samples: Seq<u32>,
    profile: OpProfile,
    n: int,
    i: int,
)
    requires
        0 <= i < n <= experts.len(),
        samples[slot_of(profile, experts[i])] > 0,
        costs[slot_of(profile, experts[i])] < u64::MAX,
    ensures
        ({
            let pick = cheapest(experts, costs, samples, profile, n).0;
            &&& experts.contains(pick)
            &&& samples[slot_of(profile, pick)] > 0
            &&& costs[slot_of(profile, pick)] <= costs[slot_of(profile, experts[i])]
        }),
{
    law_pick_is_cheapest(experts, costs, samples, profile, n, i);
    lemma_pick_has_its_cost(experts, costs, samples, profile, n);
}

proof fn lemma_pick_has_its_cost(
    experts: Seq<GemmExpert>,
    costs: Seq<u64>,
    samples: Seq<u32>,
    profile: OpProfile,
    n: int,
)
    requires
        0 <= n <= experts.len(),
    ensures
        ({
            let best = cheapest(experts, costs, samples, profile, n);
            best.1 < u64::MAX ==> samples[slot_of(profile, best.0)] > 0 && costs[slot_of(
                profile,
                best.0,
            )] == best.1
        }),
    decreases n,
{
    if n > 0 {
        lemma_pick_has_its_cost(experts, costs, samples, profile, n - 1);
    }
}

/// A call that explores takes one of the kernels that there are.
pub proof fn law_exploring_takes_a_kernel(call: int, n: int)
    requires
        0 <= call,
        0 < n,
    ensures
        0 <= explore_place(call, n) < n,
{
}

/// Counters count up and start over after the largest.
pub proof fn law_counters_start_over(n: u32)
    ensures
        count_step(n) == (n + 1) % 0x1_0000_0000,
{
}

/// Every class of products and every kernel have a place of their own in the table.
pub proof fn law_places_tell_classes_apart(
    p: OpProfile,
    q: OpProfile,
    a: GemmExpert,
    b: GemmExpert,
)
    requires
        p.row_bucket < 5,
        p.col_bucket < 5,
        q.row_bucket < 5,
        q.col_bucket < 5,
    ensures
        slot_of(p, a) == slot_of(q, b) ==> a == b && p.row_bucket == q.row_bucket && p.col_bucket
            == q.col_bucket && p.is_batched == q.is_batched,
        0 <= slot_of(p, a) < 3 * 64,
        p.in_table(),
{
}

} // verus!
