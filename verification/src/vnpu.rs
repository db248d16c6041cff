//! Thread-count scheduling for matrix-vector products.
//!
//! A scheduler keeps a moving average of the nanoseconds spent per row, as a
//! Q32.32 fixed-point number, and nudges its thread count by one after each
//! measured call.

use vstd::prelude::*;

verus! {

/// Time budget of one product, in nanoseconds.
pub const DEFAULT_BUDGET_NS: u64 = 2_000_000;

/// Weight of a new sample, one eighth in Q32.
pub const EWMA_ALPHA_Q32: u64 = 536_870_912;

/// Weight of the running average, seven eighths in Q32.
pub const EWMA_ONE_MINUS_ALPHA_Q32: u64 = 3_758_096_384;

/// Thread count of a fresh scheduler.
pub const INITIAL_THREADS: u32 = 4;

pub const MIN_THREADS: u32 = 1;

pub const MAX_THREADS: u32 = 6;

/// Where a product runs.
#[derive(Debug, Clone, Copy, PartialEq, Eq, Structural)]
pub enum Backend {
    Cpu,
    Gpu,
}

/// Tunes the thread count of one group of products.
pub struct VirtualNpuScheduler {
    ewma_ns_per_row_q32: u64,
    suggested_threads: u32,
    budget_ns: u64,
    backend: Backend,
}

/// One scheduler per group of products in a layer.
///
/// The groups differ in row count, so each converges on its own.
pub struct GemvSchedulers {
    pub qkv: VirtualNpuScheduler,
    pub output: VirtualNpuScheduler,
    pub gateup: VirtualNpuScheduler,
    pub down: VirtualNpuScheduler,
    pub logits: VirtualNpuScheduler,
}

/// The low 64 bits of a number.
pub open spec fn low64(x: int) -> int {
    x % 0x1_0000_0000_0000_0000
}

/// The average after one sample of `ns_per_row`, in Q32.
///
/// The first sample is taken as it is; both forms keep the low 64 bits.
pub open spec fn ewma_step(average_q32: int, ns_per_row: int) -> int {
    let sample: int = ns_per_row * 0x1_0000_0000;
    if average_q32 == 0 {
        low64(sample)
    } else {
        low64((sample * EWMA_ALPHA_Q32 + average_q32 * EWMA_ONE_MINUS_ALPHA_Q32) / 0x1_0000_0000)
    }
}

/// The thread count after a call that is expected to take `expected_ns`.
pub open spec fn threads_step(threads: int, expected_ns: int, budget_ns: int) -> int {
    if expected_ns > budget_ns && threads < MAX_THREADS {
        threads + 1
    } else if expected_ns < budget_ns / 2 && threads > MIN_THREADS {
        threads - 1
    } else {
        threads
    }
}

impl VirtualNpuScheduler {
    /// Nanoseconds per row, in Q32.
    pub closed spec fn average_q32(&self) -> int {
        self.ewma_ns_per_row_q32 as int
    }

    pub closed spec fn threads(&self) -> int {
        self.suggested_threads as int
    }

    pub closed spec fn budget(&self) -> int {
        self.budget_ns as int
    }

    pub closed spec fn target(&self) -> Backend {
        self.backend
    }

    /// The thread count never leaves its bounds.
    pub open spec fn wf(&self) -> bool {
        &&& MIN_THREADS <= self.threads() <= MAX_THREADS
        &&& 0 <= self.average_q32() <= u64::MAX
        &&& 0 <= self.budget() <= u64::MAX
    }

    pub fn new(budget_ns: u64) -> (s: Self)
        ensures
            s.wf(),
            s.average_q32() == 0,
            s.threads() == INITIAL_THREADS,
            s.budget() == budget_ns,
            s.target() == Backend::Cpu,
    {
        VirtualNpuScheduler {
            ewma_ns_per_row_q32: 0,
            suggested_threads: INITIAL_THREADS,
            budget_ns,
            backend: Backend::Cpu,
        }
    }

    /// The thread count and the backend for the next call.
    pub fn schedule(&self) -> (r: (usize, Backend))
        requires
            self.wf(),
        ensures
            r.0 == self.threads(),
            r.1 == self.target(),
    {
        (self.suggested_threads as usize, self.backend)
    }

    /// Accounts for a call over `n_rows` rows that took `elapsed_ns`.
    pub fn record(&mut self, elapsed_ns: u64, n_rows: usize)
        requires
            old(self).wf(),
        ensures
            final(self).wf(),
            final(self).budget() == old(self).budget(),
            final(self).target() == old(self).target(),
            n_rows == 0 ==> *final(self) == *old(self),
            n_rows != 0 ==> {
                &&& final(self).average_q32() == ewma_step(
                    old(self).average_q32(),
                    elapsed_ns as int / n_rows as int,
                )
                &&& final(self).threads() == threads_step(
                    old(self).threads(),
                    final(self).average_q32() * n_rows / 0x1_0000_0000,
                    old(self).budget(),
                )
            },
    {
        if n_rows == 0 {
            return ;
        }
        let ns_per_row: u64 = elapsed_ns / n_rows as u64;
        let average: u64 = next_average(self.ewma_ns_per_row_q32, ns_per_row);
        self.ewma_ns_per_row_q32 = average;

        proof {
            assert(average as int * n_rows as int <= u64::MAX * u64::MAX) by (nonlinear_arith)
                requires
                    0 <= average <= u64::MAX,
                    0 <= n_rows <= u64::MAX,
            ;
            assert(0 <= average as int * n_rows as int) by (nonlinear_arith)
                requires
                    0 <= average,
                    0 <= n_rows,
            ;
        }
        let expected_total: u128 = average as u128 * n_rows as u128 / 0x1_0000_0000;
        let current: u32 = self.suggested_threads;
        self.suggested_threads = if expected_total > self.budget_ns as u128 && current < MAX_THREADS {
            current + 1
        } else if expected_total < self.budget_ns as u128 / 2 && current > MIN_THREADS {
            current - 1
        } else {
            current
        };
    }

    pub fn set_backend(&mut self, backend: Backend)
        requires
            old(self).wf(),
        ensures
            final(self).wf(),
            final(self).target() == backend,
            final(self).average_q32() == old(self).average_q32(),
            final(self).threads() == old(self).threads(),
            final(self).budget() == old(self).budget(),
    {
        self.backend = backend;
    }

    /// The average in whole nanoseconds per row.
    pub fn current_estimate_ns(&self) -> (ns: u64)
        ensures
            ns == self.average_q32() / 0x1_0000_0000,
    {
        self.ewma_ns_per_row_q32 / 0x1_0000_0000
    }

    /// Forgets the measurements; the budget and the backend stay.
    pub fn reset(&mut self)
        ensures
            final(self).average_q32() == 0,
            final(self).threads() == INITIAL_THREADS,
            final(self).budget() == old(self).budget(),
            final(self).target() == old(self).target(),
            final(self).wf(),
    {
        self.ewma_ns_per_row_q32 = 0;
        self.suggested_threads = INITIAL_THREADS;
    }
}

fn next_average(average: u64, ns_per_row: u64) -> (r: u64)
    ensures
        r == ewma_step(average as int, ns_per_row as int),
{
    let sample: u128 = ns_per_row as u128 * 0x1_0000_0000;
    if average == 0 {
        proof {
            assert(sample as u64 == sample % 0x1_0000_0000_0000_0000) by (bit_vector);
        }
        #[verifier::truncate]
        (sample as u64)
    } else {
        proof {
            assert(sample * EWMA_ALPHA_Q32 <= u64::MAX * 0x1_0000_0000 * 0x1_0000_0000)
                by (nonlinear_arith)
                requires
                    0 <= sample <= u64::MAX * 0x1_0000_0000,
                    0 <= EWMA_ALPHA_Q32 <= 0x1_0000_0000,
            ;
            assert(average * EWMA_ONE_MINUS_ALPHA_Q32 <= u64::MAX * 0x1_0000_0000)
                by (nonlinear_arith)
                requires
                    0 <= average <= u64::MAX,
                    0 <= EWMA_ONE_MINUS_ALPHA_Q32 <= 0x1_0000_0000,
            ;
        }
        let blend: u128 = (sample * EWMA_ALPHA_Q32 as u128
            + average as u128 * EWMA_ONE_MINUS_ALPHA_Q32 as u128) / 0x1_0000_0000;
        proof {
            assert(blend as u64 == blend % 0x1_0000_0000_0000_0000) by (bit_vector);
        }
        #[verifier::truncate]
        (blend as u64)
    }
}

impl GemvSchedulers {
    pub open spec fn wf(&self) -> bool {
        &&& self.qkv.wf()
        &&& self.output.wf()
        &&& self.gateup.wf()
        &&& self.down.wf()
        &&& self.logits.wf()
    }

    pub fn new(budget_ns: u64) -> (s: Self)
        ensures
            s.wf(),
            forall|i: int| 0 <= i < 5 ==> {
                let g = #[trigger] s.group(i);
                &&& g.average_q32() == 0
                &&& g.threads() == INITIAL_THREADS
                &&& g.budget() == budget_ns
                &&& g.target() == Backend::Cpu
            },
    {
        GemvSchedulers {
            qkv: VirtualNpuScheduler::new(budget_ns),
            output: VirtualNpuScheduler::new(budget_ns),
            gateup: VirtualNpuScheduler::new(budget_ns),
            down: VirtualNpuScheduler::new(budget_ns),
            logits: VirtualNpuScheduler::new(budget_ns),
        }
    }

    /// The schedulers by number, in field order.
    pub open spec fn group(&self, i: int) -> VirtualNpuScheduler {
        if i == 0 {
            self.qkv
        } else if i == 1 {
            self.output
        } else if i == 2 {
            self.gateup
        } else if i == 3 {
            self.down
        } else {
            self.logits
        }
    }

    pub fn reset_all(&mut self)
        ensures
            final(self).wf(),
            forall|i: int| 0 <= i < 5 ==> {
                let g = #[trigger] final(self).group(i);
                &&& g.average_q32() == 0
                &&& g.threads() == INITIAL_THREADS
                &&& g.budget() == old(self).group(i).budget()
                &&& g.target() == old(self).group(i).target()
            },
    {
        self.qkv.reset();
        self.output.reset();
        self.gateup.reset();
        self.down.reset();
        self.logits.reset();
    }
}

/// One measurement moves the thread count by at most one, up only when the
/// expected time is over budget and down only when it is under half of it.
pub proof fn law_threads_move_by_one(threads: int, expected_ns: int, budget_ns: int)
    requires
        MIN_THREADS <= threads <= MAX_THREADS,
        0 <= budget_ns,
    ensures
        -1 <= threads_step(threads, expected_ns, budget_ns) - threads <= 1,
        MIN_THREADS <= threads_step(threads, expected_ns, budget_ns) <= MAX_THREADS,
        threads_step(threads, expected_ns, budget_ns) > threads ==> expected_ns > budget_ns,
        threads_step(threads, expected_ns, budget_ns) < threads ==> expected_ns < budget_ns / 2,
{
}

/// A steady workload leaves the average where it is.
pub proof fn law_average_is_steady(ns_per_row: int)
    requires
        0 < ns_per_row < 0x1_0000_0000,
    ensures
        ewma_step(0, ns_per_row) == ns_per_row * 0x1_0000_0000,
        ewma_step(ewma_step(0, ns_per_row), ns_per_row) == ewma_step(0, ns_per_row),
{
    let sample: int = ns_per_row * 0x1_0000_0000;
    assert(0 < sample < 0x1_0000_0000_0000_0000);
    assert(sample * EWMA_ALPHA_Q32 + sample * EWMA_ONE_MINUS_ALPHA_Q32 == sample * 0x1_0000_0000);
}

/// A sample counts for one eighth of the average and the past for seven, rounded down.
pub proof fn law_average_weighs_samples(average_q32: int, ns_per_row: int)
    requires
        0 < average_q32 <= u64::MAX,
        0 <= ns_per_row < 0x1_0000_0000,
    ensures
        ({
            let sample = ns_per_row * 0x1_0000_0000;
            let next = ewma_step(average_q32, ns_per_row);
            &&& 8 * next <= sample + 7 * average_q32 < 8 * next + 8
            &&& sample <= average_q32 ==> next <= average_q32
            &&& average_q32 <= sample ==> average_q32 <= next <= sample
        }),
{
    let sample = ns_per_row * 0x1_0000_0000;
    let sum = sample + 7 * average_q32;
    assert((sample * 536_870_912 + average_q32 * 3_758_096_384) / 0x1_0000_0000 == sum / 8);
    assert(sum / 8 <= u64::MAX);
}

/// The thread count goes up by one over budget and down by one under half of it, between
/// one and six threads, and stays otherwise.
pub proof fn law_threads_follow_the_budget(threads: int, expected_ns: int, budget_ns: int)
    requires
        1 <= threads <= 6,
        0 <= budget_ns,
    ensures
        threads_step(threads, expected_ns, budget_ns) == threads + 1 <==> expected_ns > budget_ns
            && threads < 6,
        threads_step(threads, expected_ns, budget_ns) == threads - 1 <==> expected_ns < budget_ns
            / 2 && threads > 1,
{
}

/// Each kind of product has a scheduler of its own: attention's inputs and output, the
/// feed-forward part's two, and the logits.
pub proof fn law_groups_are_in_order(s: GemvSchedulers, i: int)
    requires
        0 <= i < 5,
    ensures
        s.group(i) == seq![s.qkv, s.output, s.gateup, s.down, s.logits][i],
{
}

} // verus!
