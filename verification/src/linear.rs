//! Products of weights with vectors: which thread does which rows, and where
//! their weights lie.

use crate::halves::{widen, widens};
use crate::ieee::{less32, lt32};
use crate::model::{block_bytes, block_size_for_dtype, WeightType, BLOCK_VALUES};
use vstd::prelude::*;

verus! {

/// Bytes per block of four-bit weights.
pub const Q4K_BYTES: usize = 144;

/// Why a product was not done.
#[derive(Debug, Clone, Copy, PartialEq, Eq, Structural)]
pub enum LinearError {
    /// The input is shorter than the columns, or the output than the rows.
    ShapeMismatch,
    /// As many inputs as outputs are needed.
    BatchMismatch { inputs: usize, outputs: usize },
}

/// Rows that one thread does: from `start` up to `end`.
#[derive(Debug, Clone, Copy, PartialEq, Eq, Structural)]
pub struct RowSpan {
    pub start: usize,
    pub end: usize,
}

/// Rows per thread: an even share, rounded up.
pub open spec fn rows_per_thread(n_rows: int, n_threads: int) -> int {
    (n_rows + n_threads - 1) / n_threads
}

/// The rows of thread `t`; the last threads may have none.
pub open spec fn span_of(n_rows: int, n_threads: int, t: int) -> Option<RowSpan> {
    let share = rows_per_thread(n_rows, n_threads);
    let start = t * share;
    let end = if start + share < n_rows {
        start + share
    } else {
        n_rows
    };
    if start >= end {
        None
    } else {
        Some(RowSpan { start: start as usize, end: end as usize })
    }
}

pub fn row_span(n_rows: usize, n_threads: usize, t: usize) -> (r: Option<RowSpan>)
    requires
        t < n_threads,
        2 * (n_rows + n_threads) <= usize::MAX,
    ensures
        r == span_of(n_rows as int, n_threads as int, t as int),
        r matches Some(s) ==> s.start < s.end <= n_rows,
{
    let share: usize = (n_rows + n_threads - 1) / n_threads;
    proof {
        lemma_share_bounds(n_rows as int, n_threads as int, t as int);
    }
    let start: usize = t * share;
    let end: usize = if start + share < n_rows {
        start + share
    } else {
        n_rows
    };
    if start >= end {
        None
    } else {
        Some(RowSpan { start, end })
    }
}

proof fn lemma_share_bounds(n_rows: int, n_threads: int, t: int)
    requires
        0 <= n_rows,
        0 <= t < n_threads,
    ensures
        0 <= t * rows_per_thread(n_rows, n_threads) <= n_rows + n_threads,
        rows_per_thread(n_rows, n_threads) <= n_rows + n_threads,
        rows_per_thread(n_rows, n_threads) >= 0,
        n_rows > 0 ==> rows_per_thread(n_rows, n_threads) >= 1,
        n_rows <= n_threads * rows_per_thread(n_rows, n_threads),
{
    let share = rows_per_thread(n_rows, n_threads);
    let x = n_rows + n_threads - 1;
    vstd::arithmetic::div_mod::lemma_fundamental_div_mod(x, n_threads);
    assert(0 <= t * share <= n_rows + n_threads && 0 <= share <= n_rows + n_threads) by (
    nonlinear_arith)
        requires
            x == n_threads * share + x % n_threads,
            0 <= x % n_threads < n_threads,
            x == n_rows + n_threads - 1,
            0 <= n_rows,
            0 <= t < n_threads,
    ;
    assert(n_rows <= n_threads * share);
    assert(n_rows > 0 ==> share >= 1) by (nonlinear_arith)
        requires
            n_rows <= n_threads * share,
            n_threads > 0,
    ;
}

/// Every row is done by exactly one thread.
pub proof fn law_spans_cover_rows(n_rows: int, n_threads: int, row: int, t: int)
    requires
        0 < n_threads,
        0 <= row < n_rows,
        n_rows <= usize::MAX,
        0 <= t < n_threads,
    ensures
        0 <= row / rows_per_thread(n_rows, n_threads) < n_threads,
        (span_of(n_rows, n_threads, t) matches Some(s) && s.start <= row < s.end) <==> t == row
            / rows_per_thread(n_rows, n_threads),
{
    let share = rows_per_thread(n_rows, n_threads);
    lemma_share_bounds(n_rows, n_threads, t);
    vstd::arithmetic::div_mod::lemma_fundamental_div_mod(row, share);
    let q = row / share;
    assert(0 <= q < n_threads) by (nonlinear_arith)
        requires
            row == share * q + row % share,
            0 <= row % share < share,
            row < n_rows,
            n_rows <= n_threads * share,
            0 <= row,
            share >= 1,
    ;
    assert((t * share <= row < t * share + share) <==> t == q) by (nonlinear_arith)
        requires
            row == share * q + row % share,
            0 <= row % share < share,
            share >= 1,
    ;
}

/// Code that multiplies packed weights.
#[derive(Debug, Clone, Copy, PartialEq, Eq, Structural)]
pub enum Kernel {
    Q4K,
    Q6K,
}

/// A piece of a product.
#[derive(Debug, Clone, Copy, PartialEq, Eq, Structural)]
pub enum LinearJob {
    /// Rows from packed weights, which start at an offset.
    Packed { kernel: Kernel, first_row: usize, rows: usize, raw_offset: usize, raw_len: usize },
    /// One row from weights kept in full precision, which start at an offset.
    Precise { row: usize, weights_offset: usize },
    /// Rows from unpacked weights, which start at an offset.
    Unpacked { first_row: usize, rows: usize, weights_offset: usize },
}

/// A weight matrix.
#[derive(Debug, Clone, Copy, PartialEq, Eq, Structural)]
pub struct LinearShape {
    pub n_rows: usize,
    pub n_cols: usize,
    pub dtype: WeightType,
}

impl LinearShape {
    /// Bytes of a packed row.
    pub open spec fn row_bytes(self) -> int {
        (self.n_cols / BLOCK_VALUES) * block_bytes(self.dtype)
    }

    /// All offsets into the matrix can be written down.
    pub open spec fn fits(self) -> bool {
        &&& self.n_rows * self.row_bytes() <= usize::MAX
        &&& self.row_bytes() <= usize::MAX
        &&& self.n_rows * self.n_cols <= usize::MAX
    }
}

/// Products need an input and an output that are long enough.
pub fn check_shapes(shape: &LinearShape, x_len: usize, out_len: usize) -> (r: Result<
    (),
    LinearError,
>)
    ensures
        r == (if x_len < shape.n_cols || out_len < shape.n_rows {
            Err::<(), LinearError>(LinearError::ShapeMismatch)
        } else {
            Ok(())
        }),
{
    if x_len < shape.n_cols || out_len < shape.n_rows {
        return Err(LinearError::ShapeMismatch);
    }
    Ok(())
}

/// The jobs of a span of rows.  Rows listed in `precise` are done one by one.
pub open spec fn span_jobs(shape: LinearShape, precise: Option<Seq<usize>>, s: RowSpan) -> Seq<
    LinearJob,
> {
    match shape.dtype {
        WeightType::Q4K => match precise {
            Some(rows) => Seq::new(
                (s.end - s.start) as nat,
                |j: int| single_row_job(shape, rows, s.start + j),
            ),
            None => seq![
                LinearJob::Packed {
                    kernel: Kernel::Q4K,
                    first_row: s.start,
                    rows: (s.end - s.start) as usize,
                    raw_offset: (s.start * shape.row_bytes()) as usize,
                    raw_len: ((s.end - s.start) * shape.row_bytes()) as usize,
                },
            ],
        },
        WeightType::Q6K => seq![
            LinearJob::Packed {
                kernel: Kernel::Q6K,
                first_row: s.start,
                rows: (s.end - s.start) as usize,
                raw_offset: (s.start * shape.row_bytes()) as usize,
                raw_len: ((s.end - s.start) * shape.row_bytes()) as usize,
            },
        ],
        WeightType::Other => seq![
            LinearJob::Unpacked {
                first_row: s.start,
                rows: (s.end - s.start) as usize,
                weights_offset: (s.start * shape.n_cols) as usize,
            },
        ],
    }
}

/// The job of one row of four-bit weights.
pub open spec fn single_row_job(shape: LinearShape, precise: Seq<usize>, row: int) -> LinearJob {
    if precise.contains(row as usize) {
        LinearJob::Precise {
            row: row as usize,
            weights_offset: (precise.index_of(row as usize) * shape.n_cols) as usize,
        }
    } else {
        LinearJob::Packed {
            kernel: Kernel::Q4K,
            first_row: row as usize,
            rows: 1,
            raw_offset: (row * shape.row_bytes()) as usize,
            raw_len: shape.row_bytes() as usize,
        }
    }
}

pub open spec fn ascending(rows: Seq<usize>) -> bool {
    forall|i: int, j: int| 0 <= i < j < rows.len() ==> rows[i] < rows[j]
}

/// Place of a number in an ascending list.
pub fn find_row(rows: &Vec<usize>, row: usize) -> (r: Option<usize>)
    requires
        ascending(rows@),
    ensures
        r is Some <==> rows@.contains(row),
        r matches Some(i) ==> i < rows@.len() && rows@[i as int] == row && rows@.index_of(row) == i,
{
    let mut lo: usize = 0;
    let mut hi: usize = rows.len();
    while lo < hi
        invariant
            lo <= hi <= rows@.len(),
            ascending(rows@),
            forall|k: int| 0 <= k < lo ==> rows@[k] < row,
            forall|k: int| hi <= k < rows@.len() ==> rows@[k] > row,
        decreases hi - lo,
    {
        let mid: usize = lo + (hi - lo) / 2;
        if rows[mid] == row {
            proof {
                let k = rows@.index_of(row);
                assert(rows@[mid as int] == row);
                assert(rows@[k] == row);
            }
            return Some(mid);
        }
        if rows[mid] < row {
            lo = mid + 1;
        } else {
            hi = mid;
        }
    }
    assert forall|k: int| 0 <= k < rows@.len() implies rows@[k] != row by {
        if k < lo {
        } else {
            assert(rows@[k] > row);
        }
    }
    None
}

proof fn lemma_offsets_fit(row: int, end: int, n_rows: int, per_row: int)
    requires
        0 <= row <= end <= n_rows,
        0 <= per_row,
        n_rows * per_row <= usize::MAX,
    ensures
        0 <= row * per_row <= usize::MAX,
        0 <= (end - row) * per_row <= usize::MAX,
{
    assert(0 <= row * per_row <= n_rows * per_row && 0 <= (end - row) * per_row <= n_rows
        * per_row) by (nonlinear_arith)
        requires
            0 <= row <= end <= n_rows,
            0 <= per_row,
    ;
}

/// What thread `t` does of a product.
pub fn thread_jobs(
    shape: &LinearShape,
    precise: Option<&Vec<usize>>,
    n_threads: usize,
    t: usize,
) -> (r: Vec<LinearJob>)
    requires
        t < n_threads,
        2 * (shape.n_rows + n_threads) <= usize::MAX,
        shape.fits(),
        precise matches Some(rows) ==> {
            &&& ascending(rows@)
            &&& rows@.len() <= shape.n_rows
        },
    ensures
        match span_of(shape.n_rows as int, n_threads as int, t as int) {
            Some(s) => r@ == span_jobs(
                *shape,
                match precise {
                    Some(rows) => Some(rows@),
                    None => None,
                },
                s,
            ),
            None => r@.len() == 0,
        },
{
    let mut jobs: Vec<LinearJob> = Vec::new();
    let span = match row_span(shape.n_rows, n_threads, t) {
        Some(s) => s,
        None => return jobs,
    };
    let blocks: usize = shape.n_cols / BLOCK_VALUES;
    proof {
        lemma_offsets_fit(
            span.start as int,
            span.end as int,
            shape.n_rows as int,
            shape.row_bytes(),
        );
        lemma_offsets_fit(
            span.start as int,
            span.end as int,
            shape.n_rows as int,
            shape.n_cols as int,
        );
    }
    let rows: usize = span.end - span.start;
    match shape.dtype {
        WeightType::Q4K => {
            let row_bytes: usize = blocks * Q4K_BYTES;
            match precise {
                Some(list) => {
                    let mut row: usize = span.start;
                    while row < span.end
                        invariant
                            span.start <= row <= span.end <= shape.n_rows,
                            shape.dtype == WeightType::Q4K,
                            shape.fits(),
                            row_bytes == shape.row_bytes(),
                            ascending(list@),
                            list@.len() <= shape.n_rows,
                            jobs@ == Seq::new(
                                (row - span.start) as nat,
                                |j: int| single_row_job(*shape, list@, span.start + j),
                            ),
                        decreases span.end - row,
                    {
                        proof {
                            lemma_offsets_fit(
                                row as int,
                                row + 1,
                                shape.n_rows as int,
                                shape.row_bytes(),
                            );
                        }
                        match find_row(list, row) {
                            Some(i) => {
                                proof {
                                    lemma_offsets_fit(
                                        i as int,
                                        i + 1,
                                        shape.n_rows as int,
                                        shape.n_cols as int,
                                    );
                                }
                                jobs.push(
                                    LinearJob::Precise {
                                        row,
                                        weights_offset: i * shape.n_cols,
                                    },
                                );
                            },
                            None => {
                                jobs.push(
                                    LinearJob::Packed {
                                        kernel: Kernel::Q4K,
                                        first_row: row,
                                        rows: 1,
                                        raw_offset: row * row_bytes,
                                        raw_len: row_bytes,
                                    },
                                );
                            },
                        }
                        proof {
                            assert(jobs@ =~= Seq::new(
                                (row + 1 - span.start) as nat,
                                |j: int| single_row_job(*shape, list@, span.start + j),
                            ));
                        }
                        row = row + 1;
                    }
                },
                None => {
                    jobs.push(
                        LinearJob::Packed {
                            kernel: Kernel::Q4K,
                            first_row: span.start,
                            rows,
                            raw_offset: span.start * row_bytes,
                            raw_len: rows * row_bytes,
                        },
                    );
                },
            }
        },
        WeightType::Q6K => {
            let row_bytes: usize = blocks * 210;
            jobs.push(
                LinearJob::Packed {
                    kernel: Kernel::Q6K,
                    first_row: span.start,
                    rows,
                    raw_offset: span.start * row_bytes,
                    raw_len: rows * row_bytes,
                },
            );
        },
        WeightType::Other => {
            jobs.push(
                LinearJob::Unpacked {
                    first_row: span.start,
                    rows,
                    weights_offset: span.start * shape.n_cols,
                },
            );
        },
    }
    jobs
}

/// The jobs of all threads.
pub open spec fn all_jobs(shape: LinearShape, precise: Option<Seq<usize>>, n_threads: int) -> Seq<
    Seq<LinearJob>,
> {
    Seq::new(
        n_threads as nat,
        |t: int|
            match span_of(shape.n_rows as int, n_threads, t) {
                Some(s) => span_jobs(shape, precise, s),
                None => Seq::empty(),
            },
    )
}

pub open spec fn job_views(jobs: Seq<Vec<LinearJob>>) -> Seq<Seq<LinearJob>> {
    Seq::new(jobs.len(), |t: int| jobs[t]@)
}

/// A product of weights with a vector, shared out to threads; `precise` lists the
/// rows whose weights are kept in full precision.
pub fn forward_linear(
    shape: &LinearShape,
    x_len: usize,
    out_len: usize,
    precise: Option<&Vec<usize>>,
    n_threads: usize,
) -> (r: Result<Vec<Vec<LinearJob>>, LinearError>)
    requires
        n_threads > 0,
        2 * (shape.n_rows + n_threads) <= usize::MAX,
        shape.fits(),
        precise matches Some(rows) ==> ascending(rows@) && rows@.len() <= shape.n_rows,
    ensures
        match r {
            Ok(jobs) => {
                &&& x_len >= shape.n_cols && out_len >= shape.n_rows
                &&& job_views(jobs@) == all_jobs(
                    *shape,
                    match precise {
                        Some(rows) => Some(rows@),
                        None => None,
                    },
                    n_threads as int,
                )
            },
            Err(e) => e == LinearError::ShapeMismatch && (x_len < shape.n_cols || out_len
                < shape.n_rows),
        },
{
    match check_shapes(shape, x_len, out_len) {
        Ok(_) => {},
        Err(e) => return Err(e),
    }
    Ok(share_out(shape, precise, n_threads))
}

fn share_out(shape: &LinearShape, precise: Option<&Vec<usize>>, n_threads: usize) -> (jobs: Vec<
    Vec<LinearJob>,
>)
    requires
        n_threads > 0,
        2 * (shape.n_rows + n_threads) <= usize::MAX,
        shape.fits(),
        precise matches Some(rows) ==> ascending(rows@) && rows@.len() <= shape.n_rows,
    ensures
        job_views(jobs@) == all_jobs(
            *shape,
            match precise {
                Some(rows) => Some(rows@),
                None => None,
            },
            n_threads as int,
        ),
{
    let ghost listed = match precise {
        Some(rows) => Some(rows@),
        None => None,
    };
    let mut jobs: Vec<Vec<LinearJob>> = Vec::new();
    let mut t: usize = 0;
    while t < n_threads
        invariant
            t <= n_threads,
            n_threads > 0,
            2 * (shape.n_rows + n_threads) <= usize::MAX,
            shape.fits(),
            precise matches Some(rows) ==> ascending(rows@) && rows@.len() <= shape.n_rows,
            listed == (match precise {
                Some(rows) => Some(rows@),
                None => None,
            }),
            jobs@.len() == t,
            forall|k: int|
                0 <= k < t ==> (#[trigger] jobs@[k])@ == all_jobs(
                    *shape,
                    listed,
                    n_threads as int,
                )[k],
        decreases n_threads - t,
    {
        let mine = thread_jobs(shape, precise, n_threads, t);
        assert(mine@ =~= all_jobs(*shape, listed, n_threads as int)[t as int]);
        jobs.push(mine);
        t = t + 1;
    }
    assert(job_views(jobs@) =~= all_jobs(*shape, listed, n_threads as int));
    jobs
}

/// Products of several matrices with one vector, one matrix after the other.
/// Extents are not looked at, and no row is kept in full precision.
pub fn forward_linear_multi(shapes: &Vec<LinearShape>, n_threads: usize) -> (r: Vec<
    Vec<Vec<LinearJob>>,
>)
    requires
        n_threads > 0,
        forall|i: int|
            0 <= i < shapes@.len() ==> (#[trigger] shapes@[i]).fits() && 2 * (shapes@[i].n_rows
                + n_threads) <= usize::MAX,
    ensures
        r@.len() == shapes@.len(),
        forall|i: int|
            0 <= i < shapes@.len() ==> job_views((#[trigger] r@[i])@) == all_jobs(
                shapes@[i],
                None,
                n_threads as int,
            ),
{
    let mut r: Vec<Vec<Vec<LinearJob>>> = Vec::new();
    let mut i: usize = 0;
    while i < shapes.len()
        invariant
            i <= shapes@.len(),
            n_threads > 0,
            forall|i: int|
                0 <= i < shapes@.len() ==> (#[trigger] shapes@[i]).fits() && 2 * (shapes@[i].n_rows
                    + n_threads) <= usize::MAX,
            r@.len() == i,
            forall|k: int|
                0 <= k < i ==> job_views((#[trigger] r@[k])@) == all_jobs(
                    shapes@[k],
                    None,
                    n_threads as int,
                ),
        decreases shapes@.len() - i,
    {
        assert(shapes@[i as int].fits());
        r.push(share_out(&shapes[i], None, n_threads));
        i = i + 1;
    }
    r
}

/// How a product with many inputs is shared out.
#[derive(Debug, Clone, Copy, PartialEq, Eq, Structural)]
pub enum BatchPlan {
    /// There are no inputs.
    Nothing,
    /// Threads share the rows, so that weights are read once for all inputs.
    ByRows,
    /// Threads share the inputs.
    ByInputs(Kernel),
}

/// Decides how a product with many inputs is shared out.
pub fn forward_linear_batch(dtype: WeightType, inputs: usize, outputs: usize) -> (r: Result<
    BatchPlan,
    LinearError,
>)
    ensures
        r == (if inputs == 0 {
            Ok(BatchPlan::Nothing)
        } else if inputs != outputs {
            Err(LinearError::BatchMismatch { inputs, outputs })
        } else {
            Ok(
                match dtype {
                    WeightType::Q4K => BatchPlan::ByRows,
                    WeightType::Q6K => BatchPlan::ByInputs(Kernel::Q6K),
                    WeightType::Other => BatchPlan::ByInputs(Kernel::Q4K),
                },
            )
        }),
{
    if inputs == 0 {
        return Ok(BatchPlan::Nothing);
    }
    if inputs != outputs {
        return Err(LinearError::BatchMismatch { inputs, outputs });
    }
    Ok(
        match dtype {
            WeightType::Q4K => BatchPlan::ByRows,
            WeightType::Q6K => BatchPlan::ByInputs(Kernel::Q6K),
            WeightType::Other => BatchPlan::ByInputs(Kernel::Q4K),
        },
    )
}

/// What one thread does of a product with many inputs.
#[derive(Debug, Clone, Copy, PartialEq, Eq, Structural)]
pub enum BatchJob {
    /// These rows, from packed weights that start at an offset, for all inputs.
    Rows { first_row: usize, rows: usize, raw_offset: usize, raw_len: usize },
    /// All rows, for these inputs.
    Inputs { kernel: Kernel, first: usize, count: usize },
}

/// The share of thread `t`: of the rows or of the inputs, as the plan says.
pub open spec fn batch_share(
    plan: BatchPlan,
    shape: LinearShape,
    inputs: int,
    n_threads: int,
    t: int,
) -> Option<BatchJob> {
    match plan {
        BatchPlan::Nothing => None,
        BatchPlan::ByRows => match span_of(shape.n_rows as int, n_threads, t) {
            Some(s) => Some(
                BatchJob::Rows {
                    first_row: s.start,
                    rows: (s.end - s.start) as usize,
                    raw_offset: (s.start * shape.row_bytes()) as usize,
                    raw_len: ((s.end - s.start) * shape.row_bytes()) as usize,
                },
            ),
            None => None,
        },
        BatchPlan::ByInputs(kernel) => match span_of(inputs, n_threads, t) {
            Some(s) => Some(
                BatchJob::Inputs { kernel, first: s.start, count: (s.end - s.start) as usize },
            ),
            None => None,
        },
    }
}

/// What thread `t` does of a product with many inputs; the last threads may have
/// nothing to do.
pub fn batch_job(
    plan: &BatchPlan,
    shape: &LinearShape,
    inputs: usize,
    n_threads: usize,
    t: usize,
) -> (r: Option<BatchJob>)
    requires
        t < n_threads,
        plan is ByRows ==> 2 * (shape.n_rows + n_threads) <= usize::MAX && shape.fits(),
        plan is ByInputs ==> 2 * (inputs + n_threads) <= usize::MAX,
    ensures
        r == batch_share(*plan, *shape, inputs as int, n_threads as int, t as int),
{
    match plan {
        BatchPlan::Nothing => None,
        BatchPlan::ByRows => match row_span(shape.n_rows, n_threads, t) {
            Some(s) => {
                let row_bytes: usize = (shape.n_cols / BLOCK_VALUES) * block_size_for_dtype(shape.dtype);
                proof {
                    lemma_offsets_fit(
                        s.start as int,
                        s.end as int,
                        shape.n_rows as int,
                        shape.row_bytes(),
                    );
                }
                Some(
                    BatchJob::Rows {
                        first_row: s.start,
                        rows: s.end - s.start,
                        raw_offset: s.start * row_bytes,
                        raw_len: (s.end - s.start) * row_bytes,
                    },
                )
            },
            None => None,
        },
        BatchPlan::ByInputs(kernel) => match row_span(inputs, n_threads, t) {
            Some(s) => Some(
                BatchJob::Inputs { kernel: *kernel, first: s.start, count: s.end - s.start },
            ),
            None => None,
        },
    }
}

/// Thread `t` does output `row` of input `x`.
pub open spec fn does(job: Option<BatchJob>, row: int, x: int) -> bool {
    match job {
        Some(BatchJob::Rows { first_row, rows, raw_offset, raw_len }) => first_row <= row
            < first_row + rows,
        Some(BatchJob::Inputs { kernel, first, count }) => first <= x < first + count,
        None => false,
    }
}

/// Every output of every input is done by exactly one thread.
pub proof fn law_batch_covers_outputs(
    plan: BatchPlan,
    shape: LinearShape,
    inputs: int,
    n_threads: int,
    row: int,
    x: int,
    t: int,
)
    requires
        !(plan is Nothing),
        0 <= row < shape.n_rows,
        0 <= x < inputs <= usize::MAX,
        0 <= t < n_threads,
    ensures
        ({
            let owner = if plan is ByRows {
                row / rows_per_thread(shape.n_rows as int, n_threads)
            } else {
                x / rows_per_thread(inputs, n_threads)
            };
            &&& 0 <= owner < n_threads
            &&& does(batch_share(plan, shape, inputs, n_threads, t), row, x) <==> t == owner
        }),
{
    if plan is ByRows {
        law_spans_cover_rows(shape.n_rows as int, n_threads, row, t);
    } else {
        law_spans_cover_rows(inputs, n_threads, x, t);
    }
}

/// One of several matrices that are multiplied together.
#[derive(Debug, Clone, Copy, PartialEq, Eq, Structural)]
pub struct GemvSpec {
    pub n_rows: usize,
    pub n_cols: usize,
    pub block_size: usize,
}

impl GemvSpec {
    pub open spec fn row_bytes(self) -> int {
        (self.n_cols / BLOCK_VALUES) * self.block_size
    }

    pub open spec fn fits(self) -> bool {
        &&& self.row_bytes() <= usize::MAX
        &&& self.n_rows * self.row_bytes() <= usize::MAX
    }
}

/// A thread's rows of one of the matrices.
#[derive(Debug, Clone, Copy, PartialEq, Eq, Structural)]
pub struct GemvJob {
    pub matrix: usize,
    pub kernel: Kernel,
    pub first_row: usize,
    pub rows: usize,
    pub raw_offset: usize,
    pub raw_len: usize,
}

/// The most rows of any of the first `n` matrices.
pub open spec fn most_rows(specs: Seq<GemvSpec>, n: int) -> int
    decreases n,
{
    if n <= 0 {
        0
    } else if specs[n - 1].n_rows > most_rows(specs, n - 1) {
        specs[n - 1].n_rows as int
    } else {
        most_rows(specs, n - 1)
    }
}

/// The part of a matrix in a span of rows.
pub open spec fn matrix_job(specs: Seq<GemvSpec>, i: int, s: RowSpan) -> Option<GemvJob> {
    let m = specs[i];
    let end = if s.end < m.n_rows {
        s.end
    } else {
        m.n_rows
    };
    if s.start >= m.n_rows {
        None
    } else {
        Some(
            GemvJob {
                matrix: i as usize,
                kernel: if m.block_size == Q4K_BYTES {
                    Kernel::Q4K
                } else {
                    Kernel::Q6K
                },
                first_row: s.start,
                rows: (end - s.start) as usize,
                raw_offset: (s.start * m.row_bytes()) as usize,
                raw_len: ((end - s.start) * m.row_bytes()) as usize,
            },
        )
    }
}

/// The parts of the first `n` matrices in a span of rows.
pub open spec fn matrix_jobs(specs: Seq<GemvSpec>, n: int, s: RowSpan) -> Seq<GemvJob>
    decreases n,
{
    if n <= 0 {
        Seq::empty()
    } else {
        match matrix_job(specs, n - 1, s) {
            Some(j) => matrix_jobs(specs, n - 1, s).push(j),
            None => matrix_jobs(specs, n - 1, s),
        }
    }
}

/// What thread `t` does of several products at once.  All threads share the rows
/// of the tallest matrix.
pub fn forward_gemvs_ring(specs: &Vec<GemvSpec>, n_threads: usize, t: usize) -> (r: Vec<GemvJob>)
    requires
        t < n_threads,
        2 * (most_rows(specs@, specs@.len() as int) + n_threads) <= usize::MAX,
        forall|i: int| 0 <= i < specs@.len() ==> (#[trigger] specs@[i]).fits(),
    ensures
        match span_of(most_rows(specs@, specs@.len() as int), n_threads as int, t as int) {
            Some(s) => r@ == matrix_jobs(specs@, specs@.len() as int, s),
            None => r@.len() == 0,
        },
{
    let mut jobs: Vec<GemvJob> = Vec::new();
    let mut most: usize = 0;
    let mut i: usize = 0;
    while i < specs.len()
        invariant
            i <= specs@.len(),
            most == most_rows(specs@, i as int),
        decreases specs@.len() - i,
    {
        if specs[i].n_rows > most {
            most = specs[i].n_rows;
        }
        i = i + 1;
    }
    let span = match row_span(most, n_threads, t) {
        Some(s) => s,
        None => return jobs,
    };
    let mut k: usize = 0;
    while k < specs.len()
        invariant
            k <= specs@.len(),
            span.start < span.end,
            forall|i: int| 0 <= i < specs@.len() ==> (#[trigger] specs@[i]).fits(),
            jobs@ == matrix_jobs(specs@, k as int, span),
        decreases specs@.len() - k,
    {
        let m = specs[k];
        if span.start < m.n_rows {
            let end: usize = if span.end < m.n_rows {
                span.end
            } else {
                m.n_rows
            };
            proof {
                assert(specs@[k as int].fits());
                lemma_offsets_fit(span.start as int, end as int, m.n_rows as int, m.row_bytes());
            }
            let row_bytes: usize = (m.n_cols / BLOCK_VALUES) * m.block_size;
            let rows: usize = end - span.start;
            jobs.push(
                GemvJob {
                    matrix: k,
                    kernel: if m.block_size == Q4K_BYTES {
                        Kernel::Q4K
                    } else {
                        Kernel::Q6K
                    },
                    first_row: span.start,
                    rows,
                    raw_offset: span.start * row_bytes,
                    raw_len: rows * row_bytes,
                },
            );
        }
        k = k + 1;
    }
    jobs
}

/// The matrix that a packed tensor is, for products at once: what is not packed
/// with four bits counts as packed with six.
pub open spec fn spec_of_shape(s: LinearShape) -> GemvSpec {
    GemvSpec {
        n_rows: s.n_rows,
        n_cols: s.n_cols,
        block_size: if s.dtype == WeightType::Q4K {
            144
        } else {
            210
        },
    }
}

/// What thread `t` does of the products of several tensors.
pub fn forward_gemvs(shapes: &Vec<LinearShape>, n_threads: usize, t: usize) -> (r: Vec<GemvJob>)
    requires
        t < n_threads,
        ({
            let specs = Seq::new(shapes@.len(), |i: int| spec_of_shape(shapes@[i]));
            2 * (most_rows(specs, specs.len() as int) + n_threads) <= usize::MAX
        }),
        forall|i: int|
            0 <= i < shapes@.len() ==> spec_of_shape(#[trigger] shapes@[i]).fits(),
    ensures
        ({
            let specs = Seq::new(shapes@.len(), |i: int| spec_of_shape(shapes@[i]));
            match span_of(most_rows(specs, specs.len() as int), n_threads as int, t as int) {
                Some(s) => r@ == matrix_jobs(specs, specs.len() as int, s),
                None => r@.len() == 0,
            }
        }),
{
    let mut specs: Vec<GemvSpec> = Vec::new();
    let mut i: usize = 0;
    while i < shapes.len()
        invariant
            i <= shapes@.len(),
            specs@ == Seq::new(i as nat, |k: int| spec_of_shape(shapes@[k])),
        decreases shapes@.len() - i,
    {
        let s = shapes[i];
        specs.push(
            GemvSpec {
                n_rows: s.n_rows,
                n_cols: s.n_cols,
                block_size: if s.dtype == WeightType::Q4K {
                    144
                } else {
                    210
                },
            },
        );
        assert(specs@ =~= Seq::new((i + 1) as nat, |k: int| spec_of_shape(shapes@[k])));
        i = i + 1;
    }
    assert forall|i: int| 0 <= i < specs@.len() implies (#[trigger] specs@[i]).fits() by {
        assert(spec_of_shape(shapes@[i]).fits());
    }
    forward_gemvs_ring(&specs, n_threads, t)
}

/// Every row of every matrix is done by exactly one thread.
pub proof fn law_matrix_rows_are_covered(
    specs: Seq<GemvSpec>,
    i: int,
    n_threads: int,
    row: int,
    t: int,
)
    requires
        0 < n_threads,
        0 <= i < specs.len(),
        0 <= row < specs[i].n_rows,
        0 <= t < n_threads,
    ensures
        (span_of(most_rows(specs, specs.len() as int), n_threads, t) matches Some(s) && matrix_job(
            specs,
            i,
            s,
        ) matches Some(j) && j.first_row <= row < j.first_row + j.rows) <==> t == row
            / rows_per_thread(most_rows(specs, specs.len() as int), n_threads),
{
    lemma_most_rows(specs, i, specs.len() as int);
    law_spans_cover_rows(most_rows(specs, specs.len() as int), n_threads, row, t);
}

proof fn lemma_most_rows(specs: Seq<GemvSpec>, i: int, n: int)
    requires
        0 <= n <= specs.len(),
    ensures
        0 <= i < n ==> specs[i].n_rows <= most_rows(specs, n),
        0 <= most_rows(specs, n) <= usize::MAX,
    decreases n,
{
    if n > 0 {
        lemma_most_rows(specs, i, n - 1);
    }
}

/// The rows among the first `n` whose error is over the limit.
pub open spec fn rows_over(errors: Seq<u32>, limit: u32, n: int) -> Seq<usize>
    decreases n,
{
    if n <= 0 {
        Seq::empty()
    } else if less32(limit, errors[n - 1]) {
        rows_over(errors, limit, n - 1).push((n - 1) as usize)
    } else {
        rows_over(errors, limit, n - 1)
    }
}

/// Flags the rows whose error is over the limit; both are singles.
pub fn flag_sensitive_rows(errors: &Vec<u32>, limit: u32) -> (r: Vec<usize>)
    ensures
        r@ == rows_over(errors@, limit, errors@.len() as int),
        ascending(r@),
        r@.len() <= errors@.len(),
{
    let mut r: Vec<usize> = Vec::new();
    let mut i: usize = 0;
    while i < errors.len()
        invariant
            i <= errors@.len(),
            r@ == rows_over(errors@, limit, i as int),
            ascending(r@),
            r@.len() <= i,
            forall|k: int| 0 <= k < r@.len() ==> r@[k] < i,
        decreases errors@.len() - i,
    {
        if lt32(limit, errors[i]) {
            r.push(i);
        }
        i = i + 1;
    }
    r
}

/// The weights of the first `n` listed rows, one row after the other.
pub open spec fn rows_gathered(weights: Seq<u32>, rows: Seq<usize>, n_cols: int, n: int) -> Seq<u32>
    decreases n,
{
    if n <= 0 {
        Seq::empty()
    } else {
        rows_gathered(weights, rows, n_cols, n - 1) + weights.subrange(
            rows[n - 1] * n_cols,
            rows[n - 1] * n_cols + n_cols,
        )
    }
}

/// Collects the weights of the listed rows.
pub fn gather_rows(weights: &Vec<u32>, rows: &Vec<usize>, n_cols: usize) -> (r: Vec<u32>)
    requires
        forall|i: int|
            0 <= i < rows@.len() ==> (#[trigger] rows@[i]) * n_cols + n_cols <= weights@.len(),
    ensures
        r@ == rows_gathered(weights@, rows@, n_cols as int, rows@.len() as int),
{
    let mut r: Vec<u32> = Vec::new();
    let mut i: usize = 0;
    while i < rows.len()
        invariant
            i <= rows@.len(),
            forall|i: int|
                0 <= i < rows@.len() ==> (#[trigger] rows@[i]) * n_cols + n_cols <= weights@.len(),
            r@ == rows_gathered(weights@, rows@, n_cols as int, i as int),
        decreases rows@.len() - i,
    {
        assert(weights.len() <= usize::MAX);
        assert(rows@[i as int] * n_cols + n_cols <= weights@.len());
        assert(0 <= rows@[i as int] * n_cols) by (nonlinear_arith)
            requires
                rows@[i as int] >= 0,
                n_cols >= 0,
        ;
        let start: usize = rows[i] * n_cols;
        let ghost before = r@;
        let mut j: usize = 0;
        assert(before + weights@.subrange(start as int, start as int) =~= before);
        while j < n_cols
            invariant
                j <= n_cols,
                start + n_cols <= weights@.len(),
                r@ == before + weights@.subrange(start as int, start + j),
            decreases n_cols - j,
        {
            assert(weights.len() <= usize::MAX);
            r.push(weights[start + j]);
            proof {
                assert(weights@.subrange(start as int, start + j + 1) =~= weights@.subrange(
                    start as int,
                    start + j,
                ).push(weights@[start + j]));
            }
            j = j + 1;
        }
        i = i + 1;
    }
    r
}

/// The rows of a tensor to keep in full precision, with their weights: nothing if
/// no error is over the limit.
pub fn calibrate_row_sensitivity(
    errors: &Vec<u32>,
    limit: u32,
    weights: &Vec<u32>,
    n_cols: usize,
) -> (r: Option<(Vec<usize>, Vec<u32>)>)
    requires
        errors@.len() * n_cols <= weights@.len(),
    ensures
        ({
            let rows = rows_over(errors@, limit, errors@.len() as int);
            &&& r is Some <==> rows.len() > 0
            &&& r matches Some(p) ==> {
                &&& p.0@ == rows
                &&& p.1@ == rows_gathered(weights@, rows, n_cols as int, rows.len() as int)
                &&& ascending(rows)
            }
        }),
{
    let rows = flag_sensitive_rows(errors, limit);
    if rows.len() == 0 {
        return None;
    }
    proof {
        assert(errors.len() <= usize::MAX);
        lemma_rows_over(errors@, limit, errors@.len() as int);
        assert forall|i: int| 0 <= i < rows@.len() implies (#[trigger] rows@[i]) * n_cols + n_cols
            <= weights@.len() by {
            let r = rows@[i] as int;
            assert(r * n_cols + n_cols <= errors@.len() * n_cols) by (nonlinear_arith)
                requires
                    r + 1 <= errors@.len(),
                    n_cols >= 0,
            ;
        }
    }
    let kept = gather_rows(weights, &rows, n_cols);
    Some((rows, kept))
}

proof fn lemma_rows_over(errors: Seq<u32>, limit: u32, n: int)
    requires
        0 <= n <= errors.len(),
        errors.len() <= usize::MAX,
    ensures
        forall|i: int|
            0 <= i < rows_over(errors, limit, n).len() ==> (#[trigger] rows_over(
                errors,
                limit,
                n,
            )[i]) < n,
    decreases n,
{
    if n > 0 {
        lemma_rows_over(errors, limit, n - 1);
        let before = rows_over(errors, limit, n - 1);
        let after = rows_over(errors, limit, n);
        assert forall|i: int| 0 <= i < after.len() implies (#[trigger] after[i]) < n by {
            if i < before.len() {
                assert(after[i] == before[i]);
            }
        }
    }
}

/// The precise weights that a row's job points at are the row's own.
pub proof fn law_precise_row_finds_its_weights(
    weights: Seq<u32>,
    rows: Seq<usize>,
    n_cols: int,
    i: int,
    j: int,
)
    requires
        0 <= i < rows.len(),
        0 <= j < n_cols,
        forall|k: int|
            0 <= k < rows.len() ==> 0 <= (#[trigger] rows[k]) * n_cols && rows[k] * n_cols + n_cols
                <= weights.len(),
    ensures
        i * n_cols + j < rows_gathered(weights, rows, n_cols, rows.len() as int).len(),
        rows_gathered(weights, rows, n_cols, rows.len() as int)[i * n_cols + j] == weights[rows[i]
            * n_cols + j],
{
    lemma_gathered(weights, rows, n_cols, rows.len() as int, i, j);
}

proof fn lemma_gathered(
    weights: Seq<u32>,
    rows: Seq<usize>,
    n_cols: int,
    n: int,
    i: int,
    j: int,
)
    requires
        0 <= n <= rows.len(),
        0 <= j < n_cols,
        forall|k: int|
            0 <= k < rows.len() ==> 0 <= (#[trigger] rows[k]) * n_cols && rows[k] * n_cols + n_cols
                <= weights.len(),
    ensures
        rows_gathered(weights, rows, n_cols, n).len() == n * n_cols,
        0 <= i < n ==> 0 <= i * n_cols + j < n * n_cols && rows_gathered(
            weights,
            rows,
            n_cols,
            n,
        )[i * n_cols + j] == weights[rows[i] * n_cols + j],
    decreases n,
{
    if n > 0 {
        lemma_gathered(weights, rows, n_cols, n - 1, i, j);
        assert((n - 1) * n_cols + n_cols == n * n_cols) by (nonlinear_arith);
        assert(rows[n - 1] * n_cols + n_cols <= weights.len());
        if 0 <= i < n - 1 {
        } else if i == n - 1 {
            let part = weights.subrange(rows[n - 1] * n_cols, rows[n - 1] * n_cols + n_cols);
            assert(part[j] == weights[rows[n - 1] * n_cols + j]);
            assert(0 <= (n - 1) * n_cols) by (nonlinear_arith)
                requires
                    n >= 1,
                    n_cols > 0,
            ;
        }
    } else {
        assert(0 * n_cols == 0) by (nonlinear_arith);
    }
}

/// Scales and minima of a block of four-bit weights: six bits each for the first
/// four parts, four bits and two borrowed ones for the last four.
pub open spec fn scale_code(blk: Seq<u8>, j: int) -> u8 {
    if j < 4 {
        blk[4 + j] & 63
    } else {
        (blk[j + 4] & 0xf) | ((blk[j - 4] >> 6) << 4)
    }
}

pub open spec fn min_code(blk: Seq<u8>, j: int) -> u8 {
    if j < 4 {
        blk[8 + j] & 63
    } else {
        (blk[j + 4] >> 4) | ((blk[j] >> 6) << 4)
    }
}

/// What one weight is made of: the block's two numbers, and three codes.
#[derive(Debug, Clone, Copy, PartialEq, Eq, Structural)]
pub struct WeightTerm {
    pub scale: u8,
    pub min: u8,
    pub code: u8,
}

/// The four-bit code of weight `e`: low and high halves of a byte alternate.
pub open spec fn weight_code(blk: Seq<u8>, e: int) -> u8 {
    let byte = blk[16 + e / 2];
    if e % 2 == 0 {
        byte & 0xf
    } else {
        (byte >> 4) & 0xf
    }
}

pub open spec fn weight_term(blk: Seq<u8>, e: int) -> WeightTerm {
    WeightTerm {
        scale: scale_code(blk, e / 32),
        min: min_code(blk, e / 32),
        code: weight_code(blk, e),
    }
}

fn code_of_scale(blk: &[u8], j: usize) -> (c: u8)
    requires
        blk@.len() >= 144,
        j < 8,
    ensures
        c == scale_code(blk@, j as int),
{
    if j < 4 {
        blk[4 + j] & 63
    } else {
        (blk[j + 4] & 0xf) | ((blk[j - 4] >> 6) << 4)
    }
}

fn code_of_min(blk: &[u8], j: usize) -> (c: u8)
    requires
        blk@.len() >= 144,
        j < 8,
    ensures
        c == min_code(blk@, j as int),
{
    if j < 4 {
        blk[8 + j] & 63
    } else {
        (blk[j + 4] >> 4) | ((blk[j] >> 6) << 4)
    }
}

/// A block of four-bit weights, taken apart: scale and minimum as singles, and
/// the terms of its weights.
pub struct UnpackedBlock {
    pub d: u32,
    pub dmin: u32,
    pub terms: Vec<WeightTerm>,
}

/// The half that two bytes hold, the lower one first.
pub open spec fn half_at(blk: Seq<u8>, i: int) -> u16 {
    (blk[i] + blk[i + 1] * 256) as u16
}

/// Takes a block of four-bit weights apart.
pub fn deq_q4k(blk: &[u8]) -> (r: UnpackedBlock)
    requires
        blk@.len() >= 144,
    ensures
        widens(half_at(blk@, 0), r.d),
        widens(half_at(blk@, 2), r.dmin),
        r.terms@ == Seq::new(256, |e: int| weight_term(blk@, e)),
{
    let d: u32 = widen(blk[0] as u16 + blk[1] as u16 * 256);
    let dmin: u32 = widen(blk[2] as u16 + blk[3] as u16 * 256);
    let mut terms: Vec<WeightTerm> = Vec::new();
    let mut e: usize = 0;
    while e < 256
        invariant
            e <= 256,
            blk@.len() >= 144,
            terms@ == Seq::new(e as nat, |e: int| weight_term(blk@, e)),
        decreases 256 - e,
    {
        let byte: u8 = blk[16 + e / 2];
        let code: u8 = if e % 2 == 0 {
            byte & 0xf
        } else {
            (byte >> 4) & 0xf
        };
        terms.push(
            WeightTerm {
                scale: code_of_scale(blk, e / 32),
                min: code_of_min(blk, e / 32),
                code,
            },
        );
        assert(terms@ =~= Seq::new((e + 1) as nat, |e: int| weight_term(blk@, e)));
        e = e + 1;
    }
    UnpackedBlock { d, dmin, terms }
}

/// Bytes of a packed row, by type: a block of 256 weights takes 144 bytes with four
/// bits per weight and 210 with six.
pub open spec fn packed_row(n_cols: int, six_bits: bool) -> int {
    (n_cols / 256) * (if six_bits {
        210int
    } else {
        144int
    })
}

/// A job computes output `row`.
pub open spec fn computes(job: LinearJob, row: int) -> bool {
    match job {
        LinearJob::Packed { kernel, first_row, rows, raw_offset, raw_len } => first_row <= row
            < first_row + rows,
        LinearJob::Precise { row: own, weights_offset } => own == row,
        LinearJob::Unpacked { first_row, rows, weights_offset } => first_row <= row < first_row
            + rows,
    }
}

/// A job reads the weights of the rows that it computes, packed ones with the code
/// for their type.
pub open spec fn reads_own_rows(
    job: LinearJob,
    shape: LinearShape,
    precise: Option<Seq<usize>>,
) -> bool {
    match job {
        LinearJob::Packed { kernel, first_row, rows, raw_offset, raw_len } => {
            let row = packed_row(shape.n_cols as int, shape.dtype == WeightType::Q6K);
            &&& shape.dtype != WeightType::Other
            &&& kernel == Kernel::Q6K <==> shape.dtype == WeightType::Q6K
            &&& 0 < rows
            &&& first_row + rows <= shape.n_rows
            &&& raw_offset == first_row * row
            &&& raw_len == rows * row
            &&& shape.dtype == WeightType::Q4K && precise is Some ==> rows == 1
                && !precise->0.contains(first_row)
        },
        LinearJob::Precise { row, weights_offset } => {
            &&& shape.dtype == WeightType::Q4K
            &&& row < shape.n_rows
            &&& precise is Some
            &&& exists|p: int|
                0 <= p < precise->0.len() && #[trigger] precise->0[p] == row && weights_offset == p
                    * shape.n_cols
        },
        LinearJob::Unpacked { first_row, rows, weights_offset } => {
            &&& shape.dtype == WeightType::Other
            &&& 0 < rows
            &&& first_row + rows <= shape.n_rows
            &&& weights_offset == first_row * shape.n_cols
        },
    }
}

/// Whatever the type and however many threads share a product, each job reads the
/// weights of its own rows.
pub proof fn law_jobs_read_their_own_rows(
    shape: LinearShape,
    precise: Option<Seq<usize>>,
    n_threads: int,
    t: int,
    i: int,
)
    requires
        shape.fits(),
        precise matches Some(rows) ==> rows.len() <= shape.n_rows,
        0 <= t < n_threads,
        0 <= i < all_jobs(shape, precise, n_threads)[t].len(),
    ensures
        reads_own_rows(all_jobs(shape, precise, n_threads)[t][i], shape, precise),
{
    lemma_share_bounds(shape.n_rows as int, n_threads, t);
    let share = rows_per_thread(shape.n_rows as int, n_threads);
    let s = span_of(shape.n_rows as int, n_threads, t)->0;
    assert(s.start < s.end <= shape.n_rows);
    lemma_offsets_fit(s.start as int, s.end as int, shape.n_rows as int, shape.row_bytes());
    lemma_offsets_fit(s.start as int, s.end as int, shape.n_rows as int, shape.n_cols as int);
    if let Some(rows) = precise {
        if shape.dtype == WeightType::Q4K {
            let row = s.start + i;
            lemma_offsets_fit(row, row + 1, shape.n_rows as int, shape.row_bytes());
            assert(1 * shape.row_bytes() == shape.row_bytes());
            if rows.contains(row as usize) {
                let p = rows.index_of(row as usize);
                assert(rows[p] == row as usize && 0 <= p < rows.len());
                lemma_offsets_fit(p, p, shape.n_rows as int, shape.n_cols as int);
            }
        }
    }
}

/// Every output of a product is computed by one job of one thread, and by no other.
pub proof fn law_jobs_compute_every_row_once(
    shape: LinearShape,
    precise: Option<Seq<usize>>,
    n_threads: int,
    row: int,
) -> (owner: (int, int))
    requires
        shape.fits(),
        precise matches Some(rows) ==> rows.len() <= shape.n_rows,
        0 < n_threads,
        0 <= row < shape.n_rows,
    ensures
        0 <= owner.0 < n_threads,
        0 <= owner.1 < all_jobs(shape, precise, n_threads)[owner.0].len(),
        forall|t: int, i: int|
            0 <= t < n_threads && 0 <= i < all_jobs(shape, precise, n_threads)[t].len() ==> (
            #[trigger] computes(all_jobs(shape, precise, n_threads)[t][i], row) <==> (t, i)
                == owner),
{
    let n_rows = shape.n_rows as int;
    let jobs = all_jobs(shape, precise, n_threads);
    let t0 = row / rows_per_thread(n_rows, n_threads);
    law_spans_cover_rows(n_rows, n_threads, row, 0);
    law_spans_cover_rows(n_rows, n_threads, row, t0);
    let s0 = span_of(n_rows, n_threads, t0)->0;
    let i0 = if shape.dtype == WeightType::Q4K && precise is Some {
        row - s0.start
    } else {
        0
    };
    assert forall|t: int, i: int| 0 <= t < n_threads && 0 <= i < jobs[t].len() implies (
    #[trigger] computes(jobs[t][i], row) <==> (t, i) == (t0, i0)) by {
        law_spans_cover_rows(n_rows, n_threads, row, t);
        law_jobs_read_their_own_rows(shape, precise, n_threads, t, i);
        lemma_share_bounds(n_rows, n_threads, t);
    }
    (t0, i0)
}

/// A share of a product with many inputs reads the weights of its own rows.
pub proof fn law_batch_jobs_read_their_own_rows(
    plan: BatchPlan,
    shape: LinearShape,
    inputs: int,
    n_threads: int,
    t: int,
)
    requires
        shape.fits(),
        0 <= t < n_threads,
        0 <= inputs <= usize::MAX,
    ensures
        match batch_share(plan, shape, inputs, n_threads, t) {
            Some(BatchJob::Rows { first_row, rows, raw_offset, raw_len }) => {
                let row = packed_row(shape.n_cols as int, shape.dtype == WeightType::Q6K);
                &&& plan is ByRows
                &&& first_row + rows <= shape.n_rows
                &&& raw_offset == first_row * row
                &&& raw_len == rows * row
            },
            Some(BatchJob::Inputs { kernel, first, count }) => plan == BatchPlan::ByInputs(kernel)
                && first + count <= inputs,
            None => true,
        },
{
    lemma_share_bounds(shape.n_rows as int, n_threads, t);
    lemma_share_bounds(inputs, n_threads, t);
    if let Some(s) = span_of(shape.n_rows as int, n_threads, t) {
        lemma_offsets_fit(s.start as int, s.end as int, shape.n_rows as int, shape.row_bytes());
    }
}

/// A thread's part of one of several matrices reads the weights of its own rows, and
/// all matrices that reach into a span of rows have their part.
pub proof fn law_matrix_jobs_read_their_own_rows(specs: Seq<GemvSpec>, i: int, s: RowSpan)
    requires
        0 <= i < specs.len() <= usize::MAX,
        specs[i].fits(),
        s.start < s.end,
    ensures
        match matrix_job(specs, i, s) {
            Some(j) => {
                let row = (specs[i].n_cols as int / 256) * specs[i].block_size;
                &&& j.matrix == i
                &&& j.kernel == Kernel::Q4K <==> specs[i].block_size == 144
                &&& s.start == j.first_row
                &&& j.first_row + j.rows == (if s.end < specs[i].n_rows {
                    s.end
                } else {
                    specs[i].n_rows
                })
                &&& j.raw_offset == j.first_row * row
                &&& j.raw_len == j.rows * row
                &&& matrix_jobs(specs, specs.len() as int, s).contains(j)
            },
            None => specs[i].n_rows <= s.start,
        },
{
    let m = specs[i];
    if s.start < m.n_rows {
        let end = if s.end < m.n_rows {
            s.end
        } else {
            m.n_rows
        };
        lemma_offsets_fit(s.start as int, end as int, m.n_rows as int, m.row_bytes());
        lemma_matrix_job_listed(specs, i, specs.len() as int, s);
    }
}

proof fn lemma_matrix_job_listed(specs: Seq<GemvSpec>, i: int, n: int, s: RowSpan)
    requires
        0 <= i < n <= specs.len(),
        matrix_job(specs, i, s) is Some,
    ensures
        matrix_jobs(specs, n, s).contains(matrix_job(specs, i, s)->0),
    decreases n,
{
    let j = matrix_job(specs, i, s)->0;
    let all = matrix_jobs(specs, n, s);
    if i == n - 1 {
        assert(all[all.len() - 1] == j);
    } else {
        lemma_matrix_job_listed(specs, i, n - 1, s);
        let fewer = matrix_jobs(specs, n - 1, s);
        let k = choose|k: int| 0 <= k < fewer.len() && fewer[k] == j;
        assert(all[k] == j);
    }
}

/// A tensor takes part in products at once with its own extents and the bytes of its
/// type.
pub proof fn law_tensor_keeps_its_extents(s: LinearShape)
    requires
        s.dtype != WeightType::Other,
    ensures
        spec_of_shape(s).n_rows == s.n_rows,
        spec_of_shape(s).row_bytes() == packed_row(s.n_cols as int, s.dtype == WeightType::Q6K),
{
}

/// A row is flagged exactly if its error is over the limit.
pub proof fn law_flagged_rows_are_over_the_limit(
    errors: Seq<u32>,
    limit: u32,
    n: int,
    row: usize,
)
    requires
        0 <= n <= errors.len() <= usize::MAX,
    ensures
        rows_over(errors, limit, n).contains(row) <==> row < n && less32(
            limit,
            errors[row as int],
        ),
    decreases n,
{
    if n > 0 {
        law_flagged_rows_are_over_the_limit(errors, limit, n - 1, row);
        let fewer = rows_over(errors, limit, n - 1);
        let all = rows_over(errors, limit, n);
        if fewer.contains(row) {
            let k = choose|k: int| 0 <= k < fewer.len() && fewer[k] == row;
            assert(all[k] == row);
        }
        if less32(limit, errors[n - 1]) {
            assert(all[all.len() - 1] == (n - 1) as usize);
        }
    }
}

/// Byte `n` of packed four-bit codes: the earlier of two codes in the lower half.
pub open spec fn code_byte(codes: Seq<u8>, n: int) -> int {
    codes[2 * n] + 16 * codes[2 * n + 1]
}

/// Codes that were packed two to a byte, in order and behind the first sixteen bytes,
/// come back when the block is taken apart.
pub proof fn law_packed_codes_come_back(codes: Seq<u8>, blk: Seq<u8>, e: int)
    requires
        codes.len() == 256,
        forall|i: int| 0 <= i < 256 ==> (#[trigger] codes[i]) < 16,
        blk.len() >= 144,
        forall|n: int| 0 <= n < 128 ==> (#[trigger] blk[16 + n]) == code_byte(codes, n),
        0 <= e < 256,
    ensures
        weight_term(blk, e).code == codes[e],
{
    let n = e / 2;
    let b = blk[16 + n];
    let lo = codes[2 * n];
    let hi = codes[2 * n + 1];
    assert(b == code_byte(codes, n));
    assert(b & 0xf == lo && (b >> 4) & 0xf == hi) by (bit_vector)
        requires
            b == lo + 16 * hi,
            lo < 16,
            hi < 16,
    ;
}

/// The thirty-two weights of a part share a scale and a minimum.  In the first four
/// parts these are the low six bits of a byte; in the last four a half byte with the
/// top two bits of another byte above it.
pub proof fn law_parts_have_scale_and_minimum(blk: Seq<u8>, e: int)
    requires
        blk.len() >= 144,
        0 <= e < 256,
    ensures
        ({
            let j = e / 32;
            let t = weight_term(blk, e);
            &&& t == (WeightTerm { code: t.code, ..weight_term(blk, 32 * j) })
            &&& j < 4 ==> t.scale == blk[4 + j] as int % 64 && t.min == blk[8 + j] as int % 64
            &&& j >= 4 ==> t.scale == blk[4 + j] as int % 16 + 16 * (blk[j - 4] as int / 64)
            &&& j >= 4 ==> t.min == blk[4 + j] as int / 16 + 16 * (blk[j] as int / 64)
        }),
{
    let j = e / 32;
    assert(32 * j / 32 == j);
    let (a, b, c) = (blk[4 + j], blk[8 + j], blk[j]);
    let d = if j >= 4 {
        blk[j - 4]
    } else {
        0
    };
    assert(a & 63 == a % 64 && b & 63 == b % 64) by (bit_vector);
    assert((a & 0xf) | ((d >> 6) << 4) == a % 16 + 16 * (d / 64)) by (bit_vector);
    assert((a >> 4) | ((c >> 6) << 4) == a / 16 + 16 * (c / 64)) by (bit_vector);
}

/// Two bytes hold a half, the lower one first.
pub proof fn law_half_comes_back(blk: Seq<u8>, i: int, h: u16)
    requires
        0 <= i < blk.len() - 1,
        blk[i] == h as int % 256,
        blk[i + 1] == h as int / 256,
    ensures
        half_at(blk, i) == h,
{
}

/// Shares are even: all threads together have room for every row, and with one row less
/// each they would not.
pub proof fn law_shares_are_even(n_rows: int, n_threads: int)
    requires
        0 < n_rows,
        0 < n_threads,
    ensures
        n_threads * rows_per_thread(n_rows, n_threads) >= n_rows,
        n_threads * (rows_per_thread(n_rows, n_threads) - 1) < n_rows,
{
    let share = rows_per_thread(n_rows, n_threads);
    let x = n_rows + n_threads - 1;
    vstd::arithmetic::div_mod::lemma_fundamental_div_mod(x, n_threads);
    assert(n_threads * (share - 1) == n_threads * share - n_threads) by (nonlinear_arith);
}

} // verus!
