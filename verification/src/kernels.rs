//! Integer kernels: a bounded cache by score, softmax in fixed point, and
//! products of small integers.

use crate::ieee::{is_nan32, key32, lt32};
use vstd::prelude::*;

verus! {

/// Tokens that the cache keeps.
pub const STOKES_CAPACITY: usize = 4096;

/// One in fixed point with sixteen fraction bits.
pub const Q16_ONE: i32 = 65536;

/// Ten below zero in fixed point: exponentials further down are nothing.
pub const EXP_FLOOR: i32 = -655360;

/// A cached token: key, value and score, as bit patterns of singles.
#[verifier::ext_equal]
pub struct StokesEntry {
    pub key: Seq<u32>,
    pub value: Seq<u32>,
    pub score: u32,
}

/// Keeps the tokens with the best scores.
pub struct StokesKVCacheSim {
    pub num_tokens: usize,
    pub head_dim: usize,
    pub keys: Vec<u32>,
    pub values: Vec<u32>,
    pub scores: Vec<u32>,
}

/// Piece `i` of a line of pieces of `n`.
pub open spec fn piece(s: Seq<u32>, n: int, i: int) -> Seq<u32> {
    s.subrange(i * n, i * n + n)
}

impl View for StokesKVCacheSim {
    type V = Seq<StokesEntry>;

    open spec fn view(&self) -> Seq<StokesEntry> {
        Seq::new(
            self.num_tokens as nat,
            |i: int|
                StokesEntry {
                    key: piece(self.keys@, self.head_dim as int, i),
                    value: piece(self.values@, self.head_dim as int, i),
                    score: self.scores@[i],
                },
        )
    }
}

/// Place of the first of the lowest scores among the first `n`.
pub open spec fn lowest(s: Seq<StokesEntry>, n: int) -> int
    decreases n,
{
    if n <= 1 {
        0
    } else if key32(s[n - 1].score) < key32(s[lowest(s, n - 1)].score) {
        n - 1
    } else {
        lowest(s, n - 1)
    }
}

/// The entries after one more came in: over the limit, the lowest leaves.
pub open spec fn with_entry(s: Seq<StokesEntry>, e: StokesEntry) -> Seq<StokesEntry> {
    let all = s.push(e);
    if all.len() > STOKES_CAPACITY {
        all.remove(lowest(all, all.len() as int))
    } else {
        all
    }
}

proof fn lemma_piece_fits(len: int, n: int, i: int, count: int)
    requires
        0 <= i < count,
        0 <= n,
        len == count * n,
    ensures
        0 <= i * n <= i * n + n <= len,
{
    assert(0 <= i * n && i * n + n <= count * n) by (nonlinear_arith)
        requires
            0 <= i < count,
            0 <= n,
    ;
}

/// `from` behind `to`.
fn extend(to: &mut Vec<u32>, from: &[u32])
    ensures
        final(to)@ == old(to)@ + from@,
{
    let mut i: usize = 0;
    assert(to@ =~= old(to)@ + from@.subrange(0, 0));
    while i < from.len()
        invariant
            i <= from@.len(),
            to@ == old(to)@ + from@.subrange(0, i as int),
        decreases from@.len() - i,
    {
        to.push(from[i]);
        assert(from@.subrange(0, i + 1) =~= from@.subrange(0, i as int).push(from@[i as int]));
        i = i + 1;
    }
    assert(from@.subrange(0, from@.len() as int) =~= from@);
}

/// Takes out the `n` entries from `at` on.
fn cut(v: &mut Vec<u32>, at: usize, n: usize)
    requires
        at + n <= old(v)@.len(),
    ensures
        final(v)@ == old(v)@.subrange(0, at as int) + old(v)@.subrange(
            at + n,
            old(v)@.len() as int,
        ),
{
    let mut rest = v.split_off(at);
    let mut tail = rest.split_off(n);
    v.append(&mut tail);
    assert(v@ =~= old(v)@.subrange(0, at as int) + old(v)@.subrange(
        at + n,
        old(v)@.len() as int,
    ));
}

proof fn lemma_piece_after_cut(s: Seq<u32>, n: int, count: int, m: int, i: int)
    requires
        0 <= n,
        0 <= m < count,
        s.len() == count * n,
        0 <= i < count - 1,
    ensures
        ({
            let c = s.subrange(0, m * n) + s.subrange(m * n + n, s.len() as int);
            piece(c, n, i) == piece(
                s,
                n,
                if i < m {
                    i
                } else {
                    i + 1
                },
            )
        }),
{
    lemma_piece_fits(s.len() as int, n, m, count);
    let c = s.subrange(0, m * n) + s.subrange(m * n + n, s.len() as int);
    assert((count - 1) * n == count * n - n) by (nonlinear_arith);
    lemma_piece_fits(c.len() as int, n, i, count - 1);
    if i < m {
        lemma_piece_fits(m * n, n, i, m);
        assert(piece(c, n, i) =~= piece(s, n, i));
    } else {
        lemma_piece_fits(s.len() as int, n, i + 1, count);
        assert((i + 1) * n == i * n + n) by (nonlinear_arith);
        assert(m * n <= i * n) by (nonlinear_arith)
            requires
                m <= i,
                0 <= n,
        ;
        assert(piece(c, n, i) =~= piece(s, n, i + 1));
    }
}

impl StokesKVCacheSim {
    pub open spec fn wf(&self) -> bool {
        &&& self.num_tokens <= STOKES_CAPACITY
        &&& self.keys@.len() == self.num_tokens * self.head_dim
        &&& self.values@.len() == self.num_tokens * self.head_dim
        &&& self.scores@.len() == self.num_tokens
    }

    /// An empty cache.
    pub fn new(head_dim: usize) -> (c: Self)
        ensures
            c.wf(),
            c.head_dim == head_dim,
            c@ == Seq::<StokesEntry>::empty(),
    {
        assert(0 * head_dim == 0) by (nonlinear_arith);
        let c = StokesKVCacheSim {
            num_tokens: 0,
            head_dim,
            keys: Vec::new(),
            values: Vec::new(),
            scores: Vec::new(),
        };
        assert(c@ =~= Seq::<StokesEntry>::empty());
        c
    }

    fn lowest_score(&self) -> (m: usize)
        requires
            self.scores@.len() == self.num_tokens,
            self.num_tokens > 0,
            forall|i: int| 0 <= i < self.scores@.len() ==> !is_nan32(#[trigger] self.scores@[i]),
        ensures
            m == lowest(self@, self.num_tokens as int),
            m < self.num_tokens,
    {
        let mut m: usize = 0;
        let mut i: usize = 1;
        while i < self.scores.len()
            invariant
                1 <= i <= self.scores@.len(),
                self.scores@.len() == self.num_tokens,
                m < i,
                m == lowest(self@, i as int),
                forall|i: int|
                    0 <= i < self.scores@.len() ==> !is_nan32(#[trigger] self.scores@[i]),
            decreases self.scores@.len() - i,
        {
            assert(self@[i as int].score == self.scores@[i as int]);
            assert(self@[m as int].score == self.scores@[m as int]);
            if lt32(self.scores[i], self.scores[m]) {
                m = i;
            }
            i = i + 1;
        }
        m
    }

    /// Adds a token.  Over the limit the token with the lowest score leaves, the
    /// oldest of several.  Scores can then be compared.
    pub fn mojo_stokes_append(&mut self, key: &[u32], value: &[u32], score: u32)
        requires
            old(self).wf(),
            key@.len() == old(self).head_dim,
            value@.len() == old(self).head_dim,
            old(self).num_tokens == STOKES_CAPACITY ==> {
                &&& !is_nan32(score)
                &&& forall|i: int|
                    0 <= i < old(self).scores@.len() ==> !is_nan32(#[trigger] old(self).scores@[i])
            },
        ensures
            final(self).wf(),
            final(self).head_dim == old(self).head_dim,
            final(self)@ == with_entry(
                old(self)@,
                StokesEntry { key: key@, value: value@, score },
            ),
    {
        let n: usize = self.head_dim;
        let ghost before = self@;
        let ghost e = StokesEntry { key: key@, value: value@, score };
        let ghost count = self.num_tokens as int;
        extend(&mut self.keys, key);
        extend(&mut self.values, value);
        self.scores.push(score);
        self.num_tokens = self.num_tokens + 1;
        proof {
            assert((count + 1) * n == count * n + n) by (nonlinear_arith);
            assert forall|i: int| 0 <= i < count + 1 implies self@[i] == before.push(e)[i] by {
                lemma_piece_fits(self.keys@.len() as int, n as int, i, count + 1);
                if i < count {
                    lemma_piece_fits(old(self).keys@.len() as int, n as int, i, count);
                    assert(piece(self.keys@, n as int, i) =~= piece(
                        old(self).keys@,
                        n as int,
                        i,
                    ));
                    assert(piece(self.values@, n as int, i) =~= piece(
                        old(self).values@,
                        n as int,
                        i,
                    ));
                } else {
                    assert(piece(self.keys@, n as int, i) =~= key@);
                    assert(piece(self.values@, n as int, i) =~= value@);
                }
            }
            assert(self@ =~= before.push(e));
        }
        if self.num_tokens > STOKES_CAPACITY {
            let m: usize = self.lowest_score();
            let ghost all = self@;
            let ghost keys = self.keys@;
            let ghost values = self.values@;
            let ghost scores = self.scores@;
            proof {
                lemma_piece_fits(keys.len() as int, n as int, m as int, count + 1);
                assert(self.keys.len() <= usize::MAX);
            }
            let at: usize = m * n;
            cut(&mut self.keys, at, n);
            cut(&mut self.values, at, n);
            let _ = self.scores.remove(m);
            self.num_tokens = self.num_tokens - 1;
            proof {
                assert forall|i: int| 0 <= i < count implies self@[i] == all.remove(m as int)[i] by {
                    lemma_piece_after_cut(keys, n as int, count + 1, m as int, i);
                    lemma_piece_after_cut(values, n as int, count + 1, m as int, i);
                    let j = if i < m {
                        i
                    } else {
                        i + 1
                    };
                    assert(self.scores@[i] == scores[j]);
                    assert(all.remove(m as int)[i] == all[j]);
                }
                assert(self@ =~= all.remove(m as int));
            }
        }
    }
}

/// The token that leaves has no higher score than any that stays.
pub proof fn law_lowest_leaves(s: Seq<StokesEntry>, n: int, i: int)
    requires
        0 <= i < n <= s.len(),
    ensures
        0 <= lowest(s, n) < n,
        key32(s[lowest(s, n)].score) <= key32(s[i].score),
        i < lowest(s, n) ==> key32(s[lowest(s, n)].score) < key32(s[i].score),
    decreases n,
{
    if n > 1 {
        if i < n - 1 {
            law_lowest_leaves(s, n - 1, i);
        } else {
            law_lowest_leaves(s, n - 1, 0);
        }
    }
}

/// The exponential of a number in fixed point, in fixed point: nothing far below
/// zero, one from zero on, and between them what `exp` gives, if it is not
/// negative.
pub fn exp_q16_16<F: Fn(i32) -> i32>(x_fixed: i32, exp: &F) -> (r: i32)
    requires
        EXP_FLOOR <= x_fixed < 0 ==> exp.requires((x_fixed,)),
    ensures
        exp_is(*exp, x_fixed, r),
        r >= 0,
{
    if x_fixed < EXP_FLOOR {
        return 0;
    }
    if x_fixed >= 0 {
        return Q16_ONE;
    }
    let v: i32 = exp(x_fixed);
    assert(exp.ensures((x_fixed,), v));
    if v < 0 {
        0
    } else {
        v
    }
}

/// `r` is the exponential of `x`.
pub open spec fn exp_is<F: Fn(i32) -> i32>(exp: F, x: i32, r: i32) -> bool {
    if x < EXP_FLOOR {
        r == 0
    } else if x >= 0 {
        r == Q16_ONE
    } else {
        exists|v: i32| #[trigger]
            exp.ensures((x,), v) && r == (if v < 0 {
                0
            } else {
                v
            })
    }
}

/// The sum of the first `n`.
pub open spec fn sum_to(s: Seq<i32>, n: int) -> int
    decreases n,
{
    if n <= 0 {
        0
    } else {
        sum_to(s, n - 1) + s[n - 1]
    }
}

/// The largest of the first `n`.
pub open spec fn largest(s: Seq<i32>, n: int) -> int
    decreases n,
{
    if n <= 1 {
        s[0] as int
    } else if s[n - 1] > largest(s, n - 1) {
        s[n - 1] as int
    } else {
        largest(s, n - 1)
    }
}

/// A share in fixed point: the part of the sum, by way of the sum's reciprocal.
pub open spec fn share(e: int, sum: int) -> int {
    e * (0x1_0000_0000int / sum) / 65536
}

/// The softmax of `logits` are the shares of the exponentials `es`.
pub open spec fn softmax_is<F: Fn(i32) -> i32>(
    exp: F,
    logits: Seq<i32>,
    es: Seq<i32>,
    r: Seq<i32>,
) -> bool {
    let n = logits.len() as int;
    &&& es.len() == n
    &&& r.len() == n
    &&& forall|i: int|
        0 <= i < n ==> exp_is(exp, (logits[i] - largest(logits, n)) as i32, #[trigger] es[i])
    &&& forall|i: int| 0 <= i < n ==> (#[trigger] r[i]) == share(es[i] as int, sum_to(es, n))
}

proof fn lemma_largest(s: Seq<i32>, n: int, i: int)
    requires
        0 <= i < n <= s.len(),
    ensures
        s[i] <= largest(s, n),
        exists|k: int| 0 <= k < n && (#[trigger] s[k]) == largest(s, n),
    decreases n,
{
    if n <= 1 {
        assert(s[0] == largest(s, n));
    } else {
        if i < n - 1 {
            lemma_largest(s, n - 1, i);
        } else {
            lemma_largest(s, n - 1, 0);
        }
        if s[n - 1] > largest(s, n - 1) {
            assert(s[n - 1] == largest(s, n));
        }
    }
}

proof fn lemma_sum_has(s: Seq<i32>, n: int, i: int)
    requires
        0 <= i < n <= s.len(),
        forall|k: int| 0 <= k < n ==> 0 <= #[trigger] s[k],
    ensures
        s[i] <= sum_to(s, n),
        0 <= sum_to(s, n),
    decreases n,
{
    lemma_sum_bounds(s, n - 1, i32::MAX as int);
    if i < n - 1 {
        lemma_sum_has(s, n - 1, i);
    }
}

proof fn lemma_sum_bounds(s: Seq<i32>, n: int, top: int)
    requires
        0 <= n <= s.len(),
        forall|k: int| 0 <= k < n ==> 0 <= #[trigger] s[k] <= top,
    ensures
        0 <= sum_to(s, n) <= n * top,
    decreases n,
{
    if n > 0 {
        lemma_sum_bounds(s, n - 1, top);
        assert((n - 1) * top + top == n * top) by (nonlinear_arith);
    } else {
        assert(0 * top == 0) by (nonlinear_arith);
    }
}

proof fn lemma_share_bounds(e: int, sum: int)
    requires
        0 <= e <= sum,
        65536 <= sum,
    ensures
        0 <= 0x1_0000_0000int / sum <= 65536,
        0 <= e * (0x1_0000_0000int / sum) <= 0x1_0000_0000,
        0 <= share(e, sum) <= 65536,
{
    let inv = 0x1_0000_0000int / sum;
    vstd::arithmetic::div_mod::lemma_fundamental_div_mod(0x1_0000_0000, sum);
    assert(0 <= inv <= 65536 && 0 <= e * inv <= 0x1_0000_0000) by (nonlinear_arith)
        requires
            0x1_0000_0000 == sum * inv + 0x1_0000_0000int % sum,
            0 <= 0x1_0000_0000int % sum < sum,
            0 <= e <= sum,
            65536 <= sum,
    ;
}

/// Softmax in fixed point; `exp` gives exponentials of numbers below zero.
pub fn mojo_softmax_padic<F: Fn(i32) -> i32>(logits: &Vec<i32>, exp: &F) -> (r: Vec<i32>)
    requires
        logits@.len() <= i32::MAX,
        forall|i: int, j: int|
            0 <= i < logits@.len() && 0 <= j < logits@.len() ==> (#[trigger] logits@[i]) - (
            #[trigger] logits@[j]) <= i32::MAX,
        forall|x: i32| EXP_FLOOR <= x < 0 ==> #[trigger] exp.requires((x,)),
    ensures
        logits@.len() == 0 ==> r@.len() == 0,
        logits@.len() > 0 ==> exists|es: Seq<i32>| #[trigger]
            softmax_is(*exp, logits@, es, r@),
{
    let mut r: Vec<i32> = Vec::new();
    if logits.len() == 0 {
        return r;
    }
    let ghost n = logits@.len() as int;
    let mut max: i32 = logits[0];
    let mut i: usize = 1;
    while i < logits.len()
        invariant
            1 <= i <= logits@.len(),
            max == largest(logits@, i as int),
        decreases logits@.len() - i,
    {
        if logits[i] > max {
            max = logits[i];
        }
        i = i + 1;
    }
    let mut es: Vec<i32> = Vec::new();
    let mut sum: u64 = 0;
    let mut j: usize = 0;
    while j < logits.len()
        invariant
            j <= logits@.len(),
            n == logits@.len(),
            n <= i32::MAX,
            max == largest(logits@, n),
            forall|i: int, j: int|
                0 <= i < logits@.len() && 0 <= j < logits@.len() ==> (#[trigger] logits@[i]) - (
                #[trigger] logits@[j]) <= i32::MAX,
            forall|x: i32| EXP_FLOOR <= x < 0 ==> #[trigger] exp.requires((x,)),
            es@.len() == j,
            sum == sum_to(es@, j as int),
            sum <= j * 0x7fff_ffff,
            forall|k: int| 0 <= k < j ==> 0 <= #[trigger] es@[k],
            forall|k: int|
                0 <= k < j ==> exp_is(*exp, (logits@[k] - max) as i32, #[trigger] es@[k]),
        decreases logits@.len() - j,
    {
        proof {
            lemma_largest(logits@, n, j as int);
            let k = choose|k: int| 0 <= k < n && (#[trigger] logits@[k]) == largest(logits@, n);
            assert(logits@[k] - logits@[j as int] <= i32::MAX);
        }
        let e: i32 = exp_q16_16(logits[j] - max, exp);
        let ghost before = es@;
        es.push(e);
        proof {
            lemma_sum_prefix(before, es@, j as int);
        }
        sum = sum + e as u64;
        j = j + 1;
    }
    proof {
        lemma_largest(logits@, n, 0);
        let k = choose|k: int| 0 <= k < n && (#[trigger] logits@[k]) == largest(logits@, n);
        assert(es@[k] == Q16_ONE);
        lemma_sum_has(es@, n, k);
    }
    let inv: u64 = 0x1_0000_0000 / sum;
    let mut m: usize = 0;
    while m < es.len()
        invariant
            m <= es@.len(),
            es@.len() == n,
            65536 <= sum,
            sum == sum_to(es@, n),
            inv == 0x1_0000_0000int / sum as int,
            forall|k: int| 0 <= k < n ==> 0 <= #[trigger] es@[k],
            r@.len() == m,
            forall|k: int| 0 <= k < m ==> (#[trigger] r@[k]) == share(es@[k] as int, sum as int),
        decreases es@.len() - m,
    {
        proof {
            lemma_sum_has(es@, n, m as int);
            lemma_share_bounds(es@[m as int] as int, sum as int);
        }
        let p: u64 = es[m] as u64 * inv / 65536;
        r.push(p as i32);
        m = m + 1;
    }
    assert(softmax_is(*exp, logits@, es@, r@));
    r
}

proof fn lemma_sum_prefix(a: Seq<i32>, b: Seq<i32>, n: int)
    requires
        0 <= n <= a.len(),
        n <= b.len(),
        forall|k: int| 0 <= k < n ==> a[k] == b[k],
    ensures
        sum_to(a, n) == sum_to(b, n),
    decreases n,
{
    if n > 0 {
        lemma_sum_prefix(a, b, n - 1);
    }
}

/// The sum of the shares of the first `n`.
pub open spec fn shares_sum(es: Seq<i32>, sum: int, n: int) -> int
    decreases n,
{
    if n <= 0 {
        0
    } else {
        shares_sum(es, sum, n - 1) + share(es[n - 1] as int, sum)
    }
}

/// Shares add up to one, but for two units in the last place for each of them.
pub proof fn law_shares_add_up_to_one(es: Seq<i32>)
    requires
        forall|i: int| 0 <= i < es.len() ==> 0 <= #[trigger] es[i] <= Q16_ONE,
        exists|i: int| 0 <= i < es.len() && (#[trigger] es[i]) == Q16_ONE,
    ensures
        65536 - 2 * es.len() <= shares_sum(es, sum_to(es, es.len() as int), es.len() as int)
            <= 65536,
{
    let n = es.len() as int;
    let k = choose|i: int| 0 <= i < es.len() && (#[trigger] es[i]) == Q16_ONE;
    let sum = sum_to(es, n);
    lemma_sum_has(es, n, k);
    lemma_sum_bounds(es, n, 65536);
    let inv = 0x1_0000_0000int / sum;
    lemma_shares_sum(es, sum, n);
    vstd::arithmetic::div_mod::lemma_fundamental_div_mod(0x1_0000_0000, sum);
    assert(sum * inv <= 0x1_0000_0000 && sum * inv > 0x1_0000_0000 - sum);
    assert(shares_sum(es, sum, n) * 65536 <= sum * inv);
    assert(shares_sum(es, sum, n) * 65536 >= sum * inv - n * 65536);
}

proof fn lemma_shares_sum(es: Seq<i32>, sum: int, n: int)
    requires
        0 <= n <= es.len(),
    ensures
        shares_sum(es, sum, n) * 65536 <= sum_to(es, n) * (0x1_0000_0000int / sum),
        shares_sum(es, sum, n) * 65536 >= sum_to(es, n) * (0x1_0000_0000int / sum) - n * 65536,
    decreases n,
{
    let inv = 0x1_0000_0000int / sum;
    if n > 0 {
        lemma_shares_sum(es, sum, n - 1);
        let e = es[n - 1] as int;
        assert((sum_to(es, n - 1) + e) * inv == sum_to(es, n - 1) * inv + e * inv)
            by (nonlinear_arith);
    } else {
        assert(0 * inv == 0) by (nonlinear_arith);
    }
}

/// A larger exponential has no smaller share.
pub proof fn law_shares_keep_order(a: int, b: int, sum: int)
    requires
        0 <= a <= b <= sum,
        0 < sum,
    ensures
        share(a, sum) <= share(b, sum),
{
    let inv = 0x1_0000_0000int / sum;
    vstd::arithmetic::div_mod::lemma_div_pos_is_pos(0x1_0000_0000, sum);
    assert(a * inv <= b * inv) by (nonlinear_arith)
        requires
            0 <= inv,
            a <= b,
    ;
}

/// The product of the first `n` weights and activations.
pub open spec fn dot(w: Seq<i8>, a: Seq<i8>, n: int) -> int
    decreases n,
{
    if n <= 0 {
        0
    } else {
        dot(w, a, n - 1) + w[n - 1] * a[n - 1]
    }
}

/// The product with weights moved up to be positive.
pub open spec fn biased_dot(w: Seq<i8>, a: Seq<i8>, n: int) -> int
    decreases n,
{
    if n <= 0 {
        0
    } else {
        biased_dot(w, a, n - 1) + (w[n - 1] + 128) * a[n - 1]
    }
}

pub open spec fn activation_sum(a: Seq<i8>, n: int) -> int
    decreases n,
{
    if n <= 0 {
        0
    } else {
        activation_sum(a, n - 1) + a[n - 1]
    }
}

/// What the moved weights add is 128 times the sum of the activations.
pub proof fn law_bias_cancels(w: Seq<i8>, a: Seq<i8>, n: int)
    requires
        0 <= n <= w.len(),
        n <= a.len(),
    ensures
        biased_dot(w, a, n) - 128 * activation_sum(a, n) == dot(w, a, n),
    decreases n,
{
    if n > 0 {
        law_bias_cancels(w, a, n - 1);
        let x = w[n - 1] as int;
        let y = a[n - 1] as int;
        assert((x + 128) * y == x * y + 128 * y) by (nonlinear_arith);
    }
}

proof fn lemma_product_bounds(x: int, y: int)
    requires
        -128 <= x <= 255,
        -128 <= y <= 127,
    ensures
        -32640 <= x * y <= 32640,
{
    assert(-32640 <= x * y <= 32640) by (nonlinear_arith)
        requires
            -128 <= x <= 255,
            -128 <= y <= 127,
    ;
}

proof fn lemma_small_product_bounds(x: int, y: int)
    requires
        -128 <= x <= 127,
        -128 <= y <= 127,
    ensures
        -16384 <= x * y <= 16384,
{
    assert(-16384 <= x * y <= 16384) by (nonlinear_arith)
        requires
            -128 <= x <= 127,
            -128 <= y <= 127,
    ;
}

proof fn lemma_dot_bounds(w: Seq<i8>, a: Seq<i8>, n: int)
    requires
        0 <= n <= w.len(),
        n <= a.len(),
    ensures
        -16384 * n <= dot(w, a, n) <= 16384 * n,
    decreases n,
{
    if n > 0 {
        lemma_dot_bounds(w, a, n - 1);
        lemma_small_product_bounds(w[n - 1] as int, a[n - 1] as int);
    }
}

/// The product of weights and activations, by way of unsigned weights: whole
/// blocks of 64 with the bias taken out afterwards, the rest directly.
pub fn swamp_gemv_q8_vnni(w: &[i8], acts: &[i8]) -> (r: i32)
    requires
        w@.len() == acts@.len(),
        w@.len() <= i32::MAX,
        i32::MIN <= dot(w@, acts@, w@.len() as int) <= i32::MAX,
    ensures
        r == dot(w@, acts@, w@.len() as int),
{
    let k: usize = w.len();
    let whole: usize = k - k % 64;
    let mut acc: i64 = 0;
    let mut sum_a: i64 = 0;
    let mut i: usize = 0;
    while i < whole
        invariant
            i <= whole <= k,
            k == w@.len(),
            w@.len() == acts@.len(),
            k <= i32::MAX,
            acc == biased_dot(w@, acts@, i as int),
            sum_a == activation_sum(acts@, i as int),
            -32640 * i <= acc <= 32640 * i,
            -128 * i <= sum_a <= 128 * i,
        decreases whole - i,
    {
        proof {
            lemma_product_bounds(w@[i as int] + 128, acts@[i as int] as int);
        }
        let unsigned: i64 = w[i] as i64 + 128;
        acc = acc + unsigned * acts[i] as i64;
        sum_a = sum_a + acts[i] as i64;
        i = i + 1;
    }
    proof {
        law_bias_cancels(w@, acts@, whole as int);
        lemma_dot_bounds(w@, acts@, whole as int);
    }
    let mut r: i64 = acc - 128 * sum_a;
    while i < k
        invariant
            i <= k,
            k == w@.len(),
            w@.len() == acts@.len(),
            k <= i32::MAX,
            r == dot(w@, acts@, i as int),
            -16384 * i <= r <= 16384 * i,
        decreases k - i,
    {
        proof {
            lemma_small_product_bounds(w@[i as int] as int, acts@[i as int] as int);
        }
        r = r + w[i] as i64 * acts[i] as i64;
        i = i + 1;
    }
    r as i32
}

/// The product of row `i` of `a` with row `j` of `w`, rows of `k` numbers.
pub open spec fn row_product(a: Seq<i8>, w: Seq<i8>, k: int, i: int, j: int) -> int {
    dot(w.subrange(j * k, j * k + k), a.subrange(i * k, i * k + k), k)
}

/// Products of every row of `a` (m rows of k) with every row of `w` (n rows of
/// k), row by row: what remains is to scale them.
pub fn mojo_matmul_w3(a: &Vec<i8>, w: &Vec<i8>, m: usize, n: usize, k: usize) -> (c: Vec<i32>)
    requires
        a@.len() == m * k,
        w@.len() == n * k,
        k <= i32::MAX,
        forall|i: int, j: int|
            0 <= i < m && 0 <= j < n ==> i32::MIN <= #[trigger] row_product(
                a@,
                w@,
                k as int,
                i,
                j,
            ) <= i32::MAX,
    ensures
        c@.len() == m * n,
        forall|i: int, j: int|
            0 <= i < m && 0 <= j < n ==> #[trigger] c@[i * n + j] == row_product(
                a@,
                w@,
                k as int,
                i,
                j,
            ),
{
    let mut c: Vec<i32> = Vec::new();
    let mut i: usize = 0;
    assert(0 * n == 0) by (nonlinear_arith);
    while i < m
        invariant
            i <= m,
            a@.len() == m * k,
            w@.len() == n * k,
            k <= i32::MAX,
            forall|i: int, j: int|
                0 <= i < m && 0 <= j < n ==> i32::MIN <= #[trigger] row_product(
                    a@,
                    w@,
                    k as int,
                    i,
                    j,
                ) <= i32::MAX,
            c@.len() == i * n,
            forall|x: int, j: int|
                0 <= x < i && 0 <= j < n ==> #[trigger] c@[x * n + j] == row_product(
                    a@,
                    w@,
                    k as int,
                    x,
                    j,
                ),
        decreases m - i,
    {
        proof {
            lemma_piece_fits(a@.len() as int, k as int, i as int, m as int);
            assert(a.len() <= usize::MAX);
        }
        let a_row = vstd::slice::slice_subrange(a.as_slice(), i * k, i * k + k);
        let ghost done = c@;
        let mut j: usize = 0;
        while j < n
            invariant
                i < m,
                j <= n,
                a@.len() == m * k,
                w@.len() == n * k,
                k <= i32::MAX,
                forall|i: int, j: int|
                    0 <= i < m && 0 <= j < n ==> i32::MIN <= #[trigger] row_product(
                        a@,
                        w@,
                        k as int,
                        i,
                        j,
                    ) <= i32::MAX,
                a_row@ == a@.subrange(i * k, i * k + k),
                a_row@.len() == k,
                done.len() == i * n,
                c@.len() == i * n + j,
                forall|x: int| 0 <= x < done.len() ==> c@[x] == done[x],
                forall|y: int|
                    0 <= y < j ==> #[trigger] c@[i * n + y] == row_product(
                        a@,
                        w@,
                        k as int,
                        i as int,
                        y,
                    ),
            decreases n - j,
        {
            proof {
                lemma_piece_fits(w@.len() as int, k as int, j as int, n as int);
                assert(w.len() <= usize::MAX);
            }
            let w_row = vstd::slice::slice_subrange(w.as_slice(), j * k, j * k + k);
            assert(row_product(a@, w@, k as int, i as int, j as int) == dot(
                w_row@,
                a_row@,
                k as int,
            ));
            c.push(swamp_gemv_q8_vnni(w_row, a_row));
            j = j + 1;
        }
        proof {
            assert((i + 1) * n == i * n + n) by (nonlinear_arith);
            assert forall|x: int, y: int| 0 <= x < i + 1 && 0 <= y < n implies #[trigger] c@[x * n
                + y] == row_product(a@, w@, k as int, x, y) by {
                if x < i {
                    assert(0 <= x * n + y < i * n) by (nonlinear_arith)
                        requires
                            0 <= x < i,
                            0 <= y < n,
                    ;
                    assert(c@[x * n + y] == done[x * n + y]);
                }
            }
        }
        i = i + 1;
    }
    c
}

/// Below the limit the new token joins those that are there; at the limit one leaves,
/// whose score is no higher than any other, and the rest stay as many as before.
pub proof fn law_better_tokens_stay(s: Seq<StokesEntry>, e: StokesEntry)
    requires
        s.len() <= 4096,
    ensures
        s.len() < 4096 ==> with_entry(s, e) == s.push(e),
        s.len() == 4096 ==> with_entry(s, e).len() == 4096 && exists|m: int|
            {
                &&& 0 <= m <= 4096
                &&& forall|i: int|
                    0 <= i <= 4096 ==> key32((#[trigger] s.push(e)[m]).score) <= key32(
                        (#[trigger] s.push(e)[i]).score,
                    )
                &&& with_entry(s, e) == s.push(e).take(m) + s.push(e).skip(m + 1)
            },
{
    let all = s.push(e);
    if s.len() == 4096 {
        let m = lowest(all, all.len() as int);
        law_lowest_leaves(all, all.len() as int, 0);
        assert forall|i: int| 0 <= i <= 4096 implies key32((#[trigger] all[m]).score) <= key32(
            (#[trigger] all[i]).score,
        ) by {
            law_lowest_leaves(all, all.len() as int, i);
        }
        assert(all.remove(m) =~= all.take(m) + all.skip(m + 1));
    }
}

/// The largest number is among them and none is larger.
pub proof fn law_largest_is_among_them(s: Seq<i32>, i: int)
    requires
        0 <= i < s.len(),
    ensures
        s[i] <= largest(s, s.len() as int),
        exists|k: int| 0 <= k < s.len() && (#[trigger] s[k]) == largest(s, s.len() as int),
{
    lemma_largest(s, s.len() as int, i);
}

/// Softmax goes by distances from the largest number, whose exponential is one; numbers
/// more than ten below it get nothing.
pub proof fn law_softmax_goes_by_distances<F: Fn(i32) -> i32>(
    exp: F,
    logits: Seq<i32>,
    es: Seq<i32>,
    r: Seq<i32>,
    i: int,
    k: int,
)
    requires
        softmax_is(exp, logits, es, r),
        0 <= i < logits.len(),
        0 <= k < logits.len(),
        forall|j: int| 0 <= j < logits.len() ==> (#[trigger] logits[j]) <= logits[k],
        logits[k] - logits[i] <= i32::MAX,
        sum_to(es, logits.len() as int) > 0,
    ensures
        es[k] == 65536,
        logits[i] < logits[k] - 655360 ==> es[i] == 0 && r[i] == 0,
        logits[i] == logits[k] ==> r[i] == r[k],
        logits[k] - 655360 <= logits[i] < logits[k] ==> exists|v: i32| #[trigger]
            exp.ensures(((logits[i] - logits[k]) as i32,), v) && es[i] == (if v < 0 {
                0
            } else {
                v
            }),
{
    lemma_largest(logits, logits.len() as int, k);
    assert(largest(logits, logits.len() as int) == logits[k]);
    assert(exp_is(exp, (logits[k] - logits[k]) as i32, es[k]));
    assert(exp_is(exp, (logits[i] - logits[k]) as i32, es[i]));
    let sum = sum_to(es, logits.len() as int);
    assert(0 * (0x1_0000_0000int / sum) == 0);
    assert(r[i] == share(es[i] as int, sum));
    assert(r[k] == share(es[k] as int, sum));
}

/// The sum of numbers that are zero but for one is that one.
pub proof fn law_sum_counts_each_once(s: Seq<i32>, n: int, k: int)
    requires
        0 <= n <= s.len(),
        0 <= k < s.len(),
        forall|i: int| 0 <= i < s.len() && i != k ==> (#[trigger] s[i]) == 0,
    ensures
        sum_to(s, n) == (if k < n {
            s[k] as int
        } else {
            0
        }),
    decreases n,
{
    if n > 0 {
        law_sum_counts_each_once(s, n - 1, k);
        if n - 1 != k {
            assert(s[n - 1] == 0);
        }
    }
}

/// A single weight of one picks the activation at its own place out of the product, and
/// weights and activations may be exchanged.
pub proof fn law_product_pairs_places(w: Seq<i8>, a: Seq<i8>, n: int, k: int)
    requires
        0 <= k < n <= w.len(),
        n <= a.len(),
        w[k] == 1,
        forall|i: int| 0 <= i < n && i != k ==> (#[trigger] w[i]) == 0,
    ensures
        dot(w, a, n) == a[k],
        dot(a, w, n) == a[k],
{
    lemma_unit_product(w, a, n, k);
}

proof fn lemma_unit_product(w: Seq<i8>, a: Seq<i8>, n: int, k: int)
    requires
        0 <= k < w.len(),
        0 <= n <= w.len(),
        n <= a.len(),
        w[k] == 1,
        forall|i: int| 0 <= i < n && i != k ==> (#[trigger] w[i]) == 0,
    ensures
        dot(w, a, n) == (if k < n {
            a[k] as int
        } else {
            0
        }),
        dot(a, w, n) == dot(w, a, n),
    decreases n,
{
    if n > 0 {
        lemma_unit_product(w, a, n - 1, k);
        let x = w[n - 1] as int;
        let y = a[n - 1] as int;
        assert(x * y == y * x) by (nonlinear_arith);
        if n - 1 != k {
            assert(w[n - 1] == 0);
            assert(0 * y == 0);
        } else {
            assert(1 * y == y);
        }
    }
}

/// Products add: splitting the weights splits the product.
pub proof fn law_products_add(u: Seq<i8>, v: Seq<i8>, w: Seq<i8>, a: Seq<i8>, n: int)
    requires
        0 <= n <= w.len(),
        n <= u.len(),
        n <= v.len(),
        n <= a.len(),
        forall|i: int| 0 <= i < n ==> (#[trigger] w[i]) == u[i] + v[i],
    ensures
        dot(w, a, n) == dot(u, a, n) + dot(v, a, n),
    decreases n,
{
    if n > 0 {
        law_products_add(u, v, w, a, n - 1);
        let x = u[n - 1] as int;
        let y = v[n - 1] as int;
        let z = a[n - 1] as int;
        assert(w[n - 1] == u[n - 1] + v[n - 1]);
        assert((x + y) * z == x * z + y * z) by (nonlinear_arith);
    }
}

/// The product of two rows is of those rows: a row of weights that is one at one place
/// and zero elsewhere picks that place of the row of activations.
pub proof fn law_rows_are_multiplied_with_rows(
    a: Seq<i8>,
    w: Seq<i8>,
    m: int,
    n: int,
    k: int,
    i: int,
    j: int,
    t: int,
)
    requires
        a.len() == m * k,
        w.len() == n * k,
        0 <= i < m,
        0 <= j < n,
        0 <= t < k,
        w[j * k + t] == 1,
        forall|x: int| j * k <= x < j * k + k && x != j * k + t ==> (#[trigger] w[x]) == 0,
    ensures
        row_product(a, w, k, i, j) == a[i * k + t],
{
    assert(0 <= i * k && i * k + k <= m * k) by (nonlinear_arith)
        requires
            0 <= i < m,
            0 < k,
    ;
    assert(0 <= j * k && j * k + k <= n * k) by (nonlinear_arith)
        requires
            0 <= j < n,
            0 < k,
    ;
    let wr = w.subrange(j * k, j * k + k);
    let ar = a.subrange(i * k, i * k + k);
    assert forall|x: int| 0 <= x < k && x != t implies (#[trigger] wr[x]) == 0 by {
        assert(w[j * k + x] == 0);
    }
    law_product_pairs_places(wr, ar, k, t);
}

/// The share of a part is that part of one, rounded down twice.
pub proof fn law_share_is_the_part_of_one(e: int, sum: int)
    requires
        0 <= e <= 65536 <= sum,
    ensures
        share(e, sum) * sum <= e * 65536,
        e * 65536 < (share(e, sum) + 2) * sum,
{
    let q = 0x1_0000_0000int / sum;
    let s = share(e, sum);
    assert(q * sum <= 0x1_0000_0000 < (q + 1) * sum) by (nonlinear_arith)
        requires
            q == 0x1_0000_0000int / sum,
            sum > 0,
    ;
    assert(s * 65536 <= e * q < s * 65536 + 65536);
    assert(s * sum <= e * 65536) by (nonlinear_arith)
        requires
            s * 65536 <= e * q,
            q * sum <= 0x1_0000_0000,
            0 <= e,
            sum > 0,
    ;
    assert(e * 0x1_0000_0000 <= e * ((q + 1) * sum)) by (nonlinear_arith)
        requires
            0x1_0000_0000 < (q + 1) * sum,
            0 <= e,
    ;
    assert(e * ((q + 1) * sum) == (e * q + e) * sum) by (nonlinear_arith);
    assert((e * q + e) * sum < ((s + 2) * 65536) * sum) by (nonlinear_arith)
        requires
            e * q < s * 65536 + 65536,
            0 <= e <= 65536,
            sum > 0,
    ;
    assert(((s + 2) * 65536) * sum == ((s + 2) * sum) * 65536) by (nonlinear_arith);
}

} // verus!
