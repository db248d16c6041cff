//! Rows of a feed-forward layer in groups, and a guess at the next group.

use vstd::prelude::*;

verus! {

pub struct VirtualExpertPrefetcher {
    pub num_experts: usize,
    pub ffn_rows: usize,
    pub last_predicted: Option<usize>,
    pub hits: u64,
    pub total: u64,
}

/// First row of a group.
pub open spec fn group_start(i: int, num_experts: int, ffn_rows: int) -> int {
    i * (ffn_rows / num_experts)
}

/// Row behind the last of a group; the last group takes what is left.
pub open spec fn group_end(i: int, num_experts: int, ffn_rows: int) -> int {
    if i == num_experts - 1 {
        ffn_rows
    } else {
        (i + 1) * (ffn_rows / num_experts)
    }
}

impl VirtualExpertPrefetcher {
    pub open spec fn wf(&self) -> bool {
        self.num_experts > 0
    }

    pub fn new(num_experts: usize, ffn_rows: usize) -> (p: Self)
        requires
            num_experts > 0,
        ensures
            p.wf(),
            p == (VirtualExpertPrefetcher {
                num_experts,
                ffn_rows,
                last_predicted: None,
                hits: 0,
                total: 0,
            }),
    {
        VirtualExpertPrefetcher { num_experts, ffn_rows, last_predicted: None, hits: 0, total: 0 }
    }

    /// The group that a hash stands for.
    pub fn hash_to_expert(&self, hash: u64) -> (e: usize)
        requires
            self.wf(),
        ensures
            e == hash as int % self.num_experts as int,
            e < self.num_experts,
    {
        (hash % self.num_experts as u64) as usize
    }

    /// The rows of a group.
    pub fn row_range(&self, e: usize) -> (r: (usize, usize))
        requires
            self.wf(),
            e < self.num_experts,
        ensures
            r.0 == group_start(e as int, self.num_experts as int, self.ffn_rows as int),
            r.1 == group_end(e as int, self.num_experts as int, self.ffn_rows as int),
            r.0 <= r.1 <= self.ffn_rows,
    {
        let rows: usize = self.ffn_rows / self.num_experts;
        proof {
            law_groups_cover_rows(e as int, self.num_experts as int, self.ffn_rows as int);
            assert(e * rows <= (e + 1) * rows) by (nonlinear_arith)
                requires
                    0 <= rows,
            ;
            assert(0 <= e * rows) by (nonlinear_arith)
                requires
                    0 <= e,
                    0 <= rows,
            ;
            lemma_groups_fit(e as int, self.num_experts as int, self.ffn_rows as int);
        }
        let start: usize = e * rows;
        let end: usize = if e == self.num_experts - 1 {
            self.ffn_rows
        } else {
            (e + 1) * rows
        };
        (start, end)
    }

    /// The rows that the next token will likely use; a guess that repeats
    /// the last one counts as a hit.
    pub fn predict_expert(&mut self, hash: u64) -> (r: (usize, usize))
        requires
            old(self).wf(),
            old(self).total < u64::MAX,
            old(self).hits < u64::MAX,
        ensures
            final(self).wf(),
            ({
                let e = hash as int % old(self).num_experts as int;
                &&& r.0 == group_start(e, old(self).num_experts as int, old(self).ffn_rows as int)
                &&& r.1 == group_end(e, old(self).num_experts as int, old(self).ffn_rows as int)
                &&& *final(self) == (VirtualExpertPrefetcher {
                    last_predicted: Some(e as usize),
                    total: (old(self).total + 1) as u64,
                    hits: if old(self).last_predicted == Some(e as usize) {
                        (old(self).hits + 1) as u64
                    } else {
                        old(self).hits
                    },
                    ..*old(self)
                })
            }),
    {
        let e: usize = self.hash_to_expert(hash);
        self.total = self.total + 1;
        if self.last_predicted == Some(e) {
            self.hits = self.hits + 1;
        }
        self.last_predicted = Some(e);
        self.row_range(e)
    }

    /// Hits and guesses that could hit, or none before the second guess.
    pub fn accuracy(&self) -> (r: Option<(u64, u64)>)
        ensures
            r == (if self.total <= 1 {
                None
            } else {
                Some((self.hits, (self.total - 1) as u64))
            }),
    {
        if self.total <= 1 {
            None
        } else {
            Some((self.hits, self.total - 1))
        }
    }
}

proof fn lemma_groups_fit(i: int, n: int, rows: int)
    requires
        0 < n,
        0 <= rows,
        0 <= i < n,
    ensures
        (i + 1) * (rows / n) <= rows,
        0 <= rows / n,
{
    vstd::arithmetic::div_mod::lemma_fundamental_div_mod(rows, n);
    vstd::arithmetic::div_mod::lemma_div_pos_is_pos(rows, n);
    let q = rows / n;
    assert((i + 1) * q <= n * q) by (nonlinear_arith)
        requires
            i + 1 <= n,
            0 <= q,
    ;
}

/// The groups lie one behind the other from the first row to the last: the
/// first starts at zero, each starts where the one before ends, and the last
/// ends with the rows.
pub proof fn law_groups_cover_rows(i: int, num_experts: int, ffn_rows: int)
    requires
        0 < num_experts,
        0 <= ffn_rows,
        0 <= i < num_experts,
    ensures
        group_start(0, num_experts, ffn_rows) == 0,
        i + 1 < num_experts ==> group_end(i, num_experts, ffn_rows) == group_start(
            i + 1,
            num_experts,
            ffn_rows,
        ),
        group_end(num_experts - 1, num_experts, ffn_rows) == ffn_rows,
        0 <= group_start(i, num_experts, ffn_rows) <= group_end(i, num_experts, ffn_rows)
            <= ffn_rows,
{
    lemma_groups_fit(i, num_experts, ffn_rows);
    let q = ffn_rows / num_experts;
    assert(0 * q == 0);
    assert(0 <= i * q <= (i + 1) * q) by (nonlinear_arith)
        requires
            0 <= i,
            0 <= q,
    ;
}

/// All groups but the last have the same number of rows, and the last has fewer than
/// that many more than the number of groups.
pub proof fn law_groups_are_even(i: int, num_experts: int, ffn_rows: int)
    requires
        0 < num_experts,
        0 <= ffn_rows,
        0 <= i < num_experts,
    ensures
        ({
            let size = group_end(i, num_experts, ffn_rows) - group_start(i, num_experts, ffn_rows);
            let share = ffn_rows / num_experts;
            &&& i + 1 < num_experts ==> size == share
            &&& i + 1 == num_experts ==> share <= size < share + num_experts
            &&& share * num_experts <= ffn_rows < (share + 1) * num_experts
        }),
{
    let share = ffn_rows / num_experts;
    vstd::arithmetic::div_mod::lemma_fundamental_div_mod(ffn_rows, num_experts);
    assert((i + 1) * share == i * share + share && (num_experts - 1) * share == num_experts * share
        - share && (share + 1) * num_experts == num_experts * share + num_experts && share
        * num_experts == num_experts * share) by (nonlinear_arith);
}

} // verus!
