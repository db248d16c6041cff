//! The resource ramp: double while all is well, halve at the first stress.
//!
//! The budget is a power of two between an eighth and sixteen, kept in
//! eighths.

use vstd::prelude::*;

verus! {

/// The least budget, in eighths.
pub const MIN_BUDGET: u32 = 1;

/// The largest budget, in eighths.
pub const MAX_BUDGET: u32 = 128;

/// Nanoseconds without stress before the budget doubles.
pub const ASSESS_INTERVAL_NS: u64 = 500_000_000;

/// Threads that a budget can grow to.
pub const MAX_SCALED_THREADS: usize = 12;

pub struct AimdRamp {
    pub budget: u32,
    pub last_assessment_ns: u64,
    pub stressed: bool,
    pub cycles: u64,
    pub halvings: u64,
}

/// The budget after an assessment.
pub open spec fn budget_step(budget: u32, stressed: bool) -> u32 {
    if stressed {
        if budget / 2 < MIN_BUDGET {
            MIN_BUDGET
        } else {
            (budget / 2) as u32
        }
    } else if budget * 2 > MAX_BUDGET {
        MAX_BUDGET
    } else {
        (budget * 2) as u32
    }
}

/// The interval since the last assessment is over.
pub open spec fn assessment_due(last_ns: u64, now_ns: u64) -> bool {
    now_ns - last_ns >= ASSESS_INTERVAL_NS
}

pub open spec fn later(a: u64, b: u64) -> u64 {
    if b > a {
        b
    } else {
        a
    }
}

pub open spec fn scaled(base: int, budget: int) -> int {
    let n = (base * budget + 4) / 8;
    if n < 1 {
        1
    } else if n > MAX_SCALED_THREADS {
        MAX_SCALED_THREADS as int
    } else {
        n
    }
}

/// A ramp at a budget of one, with nothing assessed yet.
pub open spec fn ramp_start(now_ns: u64) -> AimdRamp {
    AimdRamp { budget: 8, last_assessment_ns: now_ns, stressed: false, cycles: 0, halvings: 0 }
}

/// The budgets that doubling and halving lead to: powers of two.
pub open spec fn is_budget(b: u32) -> bool {
    b == 1 || b == 2 || b == 4 || b == 8 || b == 16 || b == 32 || b == 64 || b == 128
}

impl AimdRamp {
    pub open spec fn wf(&self) -> bool {
        is_budget(self.budget)
    }

    /// A ramp that starts at a budget of one.
    pub fn new(now_ns: u64) -> (r: Self)
        ensures
            r.wf(),
            r == ramp_start(now_ns),
    {
        AimdRamp { budget: 8, last_assessment_ns: now_ns, stressed: false, cycles: 0, halvings: 0 }
    }

    /// The ramp after an assessment at `now_ns`: stress counts at any time, its
    /// absence only where the interval is over.
    pub open spec fn assessed(self, stressed: bool, now_ns: u64) -> Self {
        if stressed {
            AimdRamp {
                budget: budget_step(self.budget, true),
                last_assessment_ns: later(self.last_assessment_ns, now_ns),
                stressed: true,
                cycles: (self.cycles + 1) as u64,
                halvings: (self.halvings + 1) as u64,
            }
        } else if !assessment_due(self.last_assessment_ns, now_ns) {
            self
        } else {
            AimdRamp {
                budget: budget_step(self.budget, false),
                last_assessment_ns: now_ns,
                stressed: false,
                cycles: (self.cycles + 1) as u64,
                ..self
            }
        }
    }

    /// Assesses the system at `now_ns` and returns the budget in eighths.
    /// Stress halves it at once; without stress it doubles at most once per
    /// interval.
    pub fn assess(&mut self, stressed: bool, now_ns: u64) -> (b: u32)
        requires
            old(self).wf(),
            old(self).cycles < u64::MAX,
            old(self).halvings < u64::MAX,
        ensures
            final(self).wf(),
            b == final(self).budget,
            *final(self) == old(self).assessed(stressed, now_ns),
    {
        if stressed {
            if now_ns > self.last_assessment_ns {
                self.last_assessment_ns = now_ns;
            }
            self.cycles = self.cycles + 1;
            self.budget = if self.budget / 2 < MIN_BUDGET {
                MIN_BUDGET
            } else {
                self.budget / 2
            };
            self.halvings = self.halvings + 1;
            self.stressed = true;
            return self.budget;
        }
        if now_ns < self.last_assessment_ns || now_ns - self.last_assessment_ns
            < ASSESS_INTERVAL_NS {
            return self.budget;
        }
        self.last_assessment_ns = now_ns;
        self.cycles = self.cycles + 1;
        self.budget = if self.budget * 2 > MAX_BUDGET {
            MAX_BUDGET
        } else {
            self.budget * 2
        };
        self.stressed = false;
        self.budget
    }

    /// The budget, in eighths.
    pub fn budget(&self) -> (b: u32)
        ensures
            b == self.budget,
    {
        self.budget
    }

    /// Instances that may run at once: the budget rounded up, at least one.
    pub fn concurrency(&self) -> (n: usize)
        requires
            self.wf(),
        ensures
            n == (self.budget + 7) / 8,
            1 <= n <= 16,
    {
        ((self.budget + 7) / 8) as usize
    }

    /// Threads for a base count: scaled by the budget, rounded to the
    /// nearest, within one and twelve.
    pub fn scaled_threads(&self, base_threads: usize) -> (n: usize)
        requires
            self.wf(),
        ensures
            n == scaled(base_threads as int, self.budget as int),
    {
        proof {
            assert(0 <= base_threads * self.budget <= usize::MAX * 128) by (nonlinear_arith)
                requires
                    0 <= base_threads <= usize::MAX,
                    0 <= self.budget <= 128,
            ;
        }
        let n: u128 = (base_threads as u128 * self.budget as u128 + 4) / 8;
        if n < 1 {
            1
        } else if n > 12 {
            MAX_SCALED_THREADS
        } else {
            n as usize
        }
    }

    pub fn cycles(&self) -> (n: u64)
        ensures
            n == self.cycles,
    {
        self.cycles
    }

    pub fn halvings(&self) -> (n: u64)
        ensures
            n == self.halvings,
    {
        self.halvings
    }

    /// Whether the last assessment found stress.
    pub fn just_stressed(&self) -> (b: bool)
        ensures
            b == self.stressed,
    {
        self.stressed
    }
}

/// Stress halves the budget and its absence doubles it, both exactly, but for the
/// least budget under stress and the largest without.  One undoes the other.
pub proof fn law_budget_ramp(budget: u32)
    requires
        is_budget(budget),
    ensures
        MIN_BUDGET <= budget <= MAX_BUDGET,
        is_budget(budget_step(budget, true)),
        is_budget(budget_step(budget, false)),
        budget_step(budget, true) * 2 == budget || (budget == MIN_BUDGET && budget_step(
            budget,
            true,
        ) == budget),
        budget_step(budget, false) == budget * 2 || (budget == MAX_BUDGET && budget_step(
            budget,
            false,
        ) == budget),
        budget < MAX_BUDGET ==> budget_step(budget_step(budget, false), true) == budget,
        budget > MIN_BUDGET ==> budget_step(budget_step(budget, true), false) == budget,
{
}

/// Stress halves the budget at once, however short the time since the last
/// assessment; without stress the budget only moves when the interval is over.
pub proof fn law_stress_is_never_ignored(ramp: AimdRamp, now_ns: u64)
    requires
        ramp.wf(),
        ramp.halvings < u64::MAX,
    ensures
        ramp.assessed(true, now_ns).budget == budget_step(ramp.budget, true),
        ramp.assessed(true, now_ns).halvings == ramp.halvings + 1,
        ramp.assessed(true, now_ns).stressed,
        now_ns < ramp.last_assessment_ns + ASSESS_INTERVAL_NS ==> ramp.assessed(false, now_ns)
            == ramp,
{
}

/// Threads grow with the budget, whose unit is an eighth: the count is the nearest whole
/// one to the scaled base, but for those below one and above twelve.
pub proof fn law_threads_scale_with_the_budget(base: int, budget: int)
    requires
        0 <= base,
        0 <= budget,
    ensures
        1 <= scaled(base, budget) <= 12,
        1 < scaled(base, budget) ==> 8 * scaled(base, budget) - 4 <= base * budget,
        scaled(base, budget) < 12 ==> base * budget < 8 * scaled(base, budget) + 4,
{
}

/// Half a second without stress doubles the budget up to sixteen, and the next such
/// time starts then.
pub proof fn law_calm_doubles_the_budget(ramp: AimdRamp, now_ns: u64)
    requires
        ramp.wf(),
        ramp.cycles < u64::MAX,
        now_ns >= ramp.last_assessment_ns + 500_000_000,
    ensures
        ramp.budget < 128 ==> ramp.assessed(false, now_ns).budget == 2 * ramp.budget,
        ramp.budget == 128 ==> ramp.assessed(false, now_ns).budget == 128,
        ramp.assessed(false, now_ns).last_assessment_ns == now_ns,
        !ramp.assessed(false, now_ns).stressed,
        ramp.assessed(false, now_ns).cycles == ramp.cycles + 1,
        ramp.assessed(false, now_ns).halvings == ramp.halvings,
        ramp.assessed(true, now_ns).last_assessment_ns == now_ns,
        ramp.assessed(true, now_ns).cycles == ramp.cycles + 1,
{
}

} // verus!
