//! Choosing a token: order, cuts and draws over probabilities, singles as bit
//! patterns.

use crate::ieee::{at_least32, ge32, is_nan32, key32, less32, lt32};
use vstd::prelude::*;

verus! {

/// The bit pattern of one.
pub const ONE: u32 = 0x3f80_0000;

/// The bit pattern of 0.8.
pub const DEFAULT_TEMPERATURE: u32 = 0x3f4c_cccd;

/// The bit pattern of 0.95.
pub const DEFAULT_TOP_P: u32 = 0x3f73_3333;

#[derive(Debug, Clone, Copy, PartialEq, Eq, Structural)]
pub struct Sampler {
    pub temperature: u32,
    pub top_k: usize,
    pub top_p: u32,
}

impl Default for Sampler {
    fn default() -> (s: Self)
        ensures
            s == (Sampler { temperature: DEFAULT_TEMPERATURE, top_k: 40, top_p: DEFAULT_TOP_P }),
    {
        Sampler { temperature: DEFAULT_TEMPERATURE, top_k: 40, top_p: DEFAULT_TOP_P }
    }
}

/// Token `a` comes before token `b`: it is likelier, or as likely and has the
/// smaller number.
pub open spec fn comes_before(probs: Seq<u32>, a: usize, b: usize) -> bool {
    key32(probs[a as int]) > key32(probs[b as int]) || (key32(probs[a as int]) == key32(
        probs[b as int],
    ) && a < b)
}

pub open spec fn is_ordered(probs: Seq<u32>, s: Seq<usize>) -> bool {
    forall|i: int, j: int| 0 <= i < j < s.len() ==> comes_before(probs, s[i], s[j])
}

/// Numbers of tokens that have a probability.
pub open spec fn in_range(probs: Seq<u32>, s: Seq<usize>) -> bool {
    forall|i: int| 0 <= i < s.len() ==> (#[trigger] s[i]) < probs.len()
}

fn before(probs: &Vec<u32>, a: usize, b: usize) -> (r: bool)
    requires
        a < probs@.len(),
        b < probs@.len(),
        forall|i: int| 0 <= i < probs@.len() ==> !is_nan32(#[trigger] probs@[i]),
    ensures
        r == comes_before(probs@, a, b),
{
    lt32(probs[b], probs[a]) || (!lt32(probs[a], probs[b]) && a < b)
}

proof fn lemma_order_is_transitive(probs: Seq<u32>, a: usize, b: usize, c: usize)
    requires
        comes_before(probs, a, b),
        comes_before(probs, b, c),
    ensures
        comes_before(probs, a, c),
{
}

/// Merges two ordered lists without a number in common.
fn merge(probs: &Vec<u32>, a: &Vec<usize>, b: &Vec<usize>) -> (r: Vec<usize>)
    requires
        forall|i: int| 0 <= i < probs@.len() ==> !is_nan32(#[trigger] probs@[i]),
        in_range(probs@, a@),
        in_range(probs@, b@),
        is_ordered(probs@, a@),
        is_ordered(probs@, b@),
        forall|i: int, j: int| 0 <= i < a@.len() && 0 <= j < b@.len() ==> a@[i] != b@[j],
    ensures
        is_ordered(probs@, r@),
        r@.to_multiset() == a@.to_multiset().add(b@.to_multiset()),
{
    broadcast use vstd::seq_lib::group_to_multiset_ensures;

    let mut r: Vec<usize> = Vec::new();
    let mut i: usize = 0;
    let mut j: usize = 0;
    assert(a@.subrange(0, 0) =~= Seq::empty());
    assert(b@.subrange(0, 0) =~= Seq::empty());
    assert(r@.to_multiset() =~= a@.subrange(0, 0).to_multiset().add(
        b@.subrange(0, 0).to_multiset(),
    ));
    while i < a.len() || j < b.len()
        invariant
            i <= a@.len(),
            j <= b@.len(),
            forall|i: int| 0 <= i < probs@.len() ==> !is_nan32(#[trigger] probs@[i]),
            in_range(probs@, a@),
            in_range(probs@, b@),
            is_ordered(probs@, a@),
            is_ordered(probs@, b@),
            forall|i: int, j: int| 0 <= i < a@.len() && 0 <= j < b@.len() ==> a@[i] != b@[j],
            is_ordered(probs@, r@),
            forall|k: int, x: int|
                0 <= k < r@.len() && i <= x < a@.len() ==> comes_before(probs@, r@[k], a@[x]),
            forall|k: int, x: int|
                0 <= k < r@.len() && j <= x < b@.len() ==> comes_before(probs@, r@[k], b@[x]),
            r@.to_multiset() == a@.subrange(0, i as int).to_multiset().add(
                b@.subrange(0, j as int).to_multiset(),
            ),
        decreases a@.len() - i + b@.len() - j,
    {
        broadcast use vstd::seq_lib::group_to_multiset_ensures;

        let from_a: bool = if i >= a.len() {
            false
        } else if j >= b.len() {
            true
        } else {
            before(probs, a[i], b[j])
        };
        let ghost done = r@;
        if from_a {
            let x: usize = a[i];
            r.push(x);
            proof {
                assert(a@.subrange(0, i + 1) =~= a@.subrange(0, i as int).push(x));
                assert(r@.to_multiset() =~= a@.subrange(0, i + 1).to_multiset().add(
                    b@.subrange(0, j as int).to_multiset(),
                ));
                assert forall|k: int, y: int|
                    0 <= k < r@.len() && j <= y < b@.len() implies comes_before(
                    probs@,
                    r@[k],
                    b@[y],
                ) by {
                    if k == done.len() && y > j {
                        lemma_order_is_transitive(probs@, x, b@[j as int], b@[y]);
                    }
                }
            }
            i = i + 1;
        } else {
            let x: usize = b[j];
            r.push(x);
            proof {
                assert(b@.subrange(0, j + 1) =~= b@.subrange(0, j as int).push(x));
                assert(r@.to_multiset() =~= a@.subrange(0, i as int).to_multiset().add(
                    b@.subrange(0, j + 1).to_multiset(),
                ));
                assert forall|k: int, y: int|
                    0 <= k < r@.len() && i <= y < a@.len() implies comes_before(
                    probs@,
                    r@[k],
                    a@[y],
                ) by {
                    if k == done.len() {
                        assert(a@[i as int] != x);
                        assert(comes_before(probs@, x, a@[i as int]));
                        if y > i {
                            lemma_order_is_transitive(probs@, x, a@[i as int], a@[y]);
                        }
                    }
                }
            }
            j = j + 1;
        }
    }
    assert(a@.subrange(0, a@.len() as int) =~= a@);
    assert(b@.subrange(0, b@.len() as int) =~= b@);
    r
}

/// The numbers from `lo` up to `hi`.
pub open spec fn numbers(lo: int, hi: int) -> Seq<usize> {
    Seq::new((hi - lo) as nat, |i: int| (lo + i) as usize)
}

fn sort_range(probs: &Vec<u32>, lo: usize, hi: usize) -> (r: Vec<usize>)
    requires
        lo <= hi <= probs@.len(),
        forall|i: int| 0 <= i < probs@.len() ==> !is_nan32(#[trigger] probs@[i]),
    ensures
        is_ordered(probs@, r@),
        r@.to_multiset() == numbers(lo as int, hi as int).to_multiset(),
    decreases hi - lo,
{
    broadcast use vstd::seq_lib::group_to_multiset_ensures;

    if hi - lo <= 1 {
        let mut r: Vec<usize> = Vec::new();
        if lo < hi {
            r.push(lo);
        }
        assert(r@ =~= numbers(lo as int, hi as int));
        return r;
    }
    let mid: usize = lo + (hi - lo) / 2;
    let a = sort_range(probs, lo, mid);
    let b = sort_range(probs, mid, hi);
    proof {
        lemma_members(a@, lo as int, mid as int);
        lemma_members(b@, mid as int, hi as int);
        assert forall|i: int, j: int| 0 <= i < a@.len() && 0 <= j < b@.len() implies a@[i]
            != b@[j] by {
            assert(a@[i] < mid);
            assert(b@[j] >= mid);
        }
        assert(numbers(lo as int, hi as int) =~= numbers(lo as int, mid as int) + numbers(
            mid as int,
            hi as int,
        ));
        vstd::seq_lib::lemma_multiset_commutative(
            numbers(lo as int, mid as int),
            numbers(mid as int, hi as int),
        );
    }
    merge(probs, &a, &b)
}

proof fn lemma_members(s: Seq<usize>, lo: int, hi: int)
    requires
        0 <= lo <= hi <= usize::MAX,
        s.to_multiset() == numbers(lo, hi).to_multiset(),
    ensures
        forall|i: int| 0 <= i < s.len() ==> lo <= (#[trigger] s[i]) < hi,
        s.len() == hi - lo,
{
    broadcast use vstd::seq_lib::group_to_multiset_ensures;

    assert forall|i: int| 0 <= i < s.len() implies lo <= (#[trigger] s[i]) < hi by {
        assert(s.contains(s[i]));
        assert(s.to_multiset().count(s[i]) > 0);
        assert(numbers(lo, hi).contains(s[i]));
    }
    assert(s.to_multiset().len() == s.len());
    assert(numbers(lo, hi).to_multiset().len() == numbers(lo, hi).len());
}

/// All tokens, the likeliest first; of equally likely ones the smaller number.
pub fn rank_tokens(probs: &Vec<u32>) -> (r: Vec<usize>)
    requires
        forall|i: int| 0 <= i < probs@.len() ==> !is_nan32(#[trigger] probs@[i]),
    ensures
        is_ordered(probs@, r@),
        r@.to_multiset() == numbers(0, probs@.len() as int).to_multiset(),
        r@.len() == probs@.len(),
{
    let r = sort_range(probs, 0, probs.len());
    proof {
        assert(probs.len() <= usize::MAX);
        lemma_members(r@, 0, probs@.len() as int);
    }
    r
}

/// How many of `n` ranked tokens `top_k` leaves; zero leaves all.
pub open spec fn top_k_count(n: int, top_k: int) -> int {
    if 0 < top_k < n {
        top_k
    } else {
        n
    }
}

pub fn keep_top_k(n: usize, top_k: usize) -> (k: usize)
    ensures
        k == top_k_count(n as int, top_k as int),
{
    if top_k > 0 && top_k < n {
        top_k
    } else {
        n
    }
}

/// Place of the first running sum, from `i` on, that reaches `bar`.
pub open spec fn first_reaching(sums: Seq<u32>, bar: u32, i: int) -> Option<int>
    decreases sums.len() - i,
{
    if i >= sums.len() {
        None
    } else if at_least32(sums[i], bar) {
        Some(i)
    } else {
        first_reaching(sums, bar, i + 1)
    }
}

fn find_reaching(sums: &Vec<u32>, bar: u32) -> (r: Option<usize>)
    ensures
        match first_reaching(sums@, bar, 0) {
            Some(i) => r matches Some(k) && k == i && 0 <= i < sums@.len(),
            None => r is None,
        },
{
    let mut i: usize = 0;
    while i < sums.len()
        invariant
            i <= sums@.len(),
            first_reaching(sums@, bar, 0) == first_reaching(sums@, bar, i as int),
        decreases sums@.len() - i,
    {
        if ge32(sums[i], bar) {
            return Some(i);
        }
        i = i + 1;
    }
    None
}

/// The nucleus leaves some tokens out: `top_p` is between zero and one.
pub open spec fn has_nucleus(top_p: u32) -> bool {
    less32(0, top_p) && less32(top_p, ONE)
}

/// How many ranked tokens the nucleus has, given their running sums: as many as
/// reach `top_p`, all if it is not between zero and one.
pub open spec fn nucleus_count(sums: Seq<u32>, top_p: u32) -> int {
    if has_nucleus(top_p) {
        match first_reaching(sums, top_p, 0) {
            Some(i) => i + 1,
            None => sums.len() as int,
        }
    } else {
        sums.len() as int
    }
}

pub fn nucleus_cut(sums: &Vec<u32>, top_p: u32) -> (k: usize)
    ensures
        k == nucleus_count(sums@, top_p),
{
    assert(sums.len() <= usize::MAX);
    if lt32(0, top_p) && lt32(top_p, ONE) {
        match find_reaching(sums, top_p) {
            Some(i) => i + 1,
            None => sums.len(),
        }
    } else {
        sums.len()
    }
}

pub open spec fn is_finite32(x: u32) -> bool {
    x % 0x8000_0000 < 0x7f80_0000
}

/// The last of the largest finite numbers among the first `n`.
pub open spec fn last_largest(logits: Seq<u32>, n: int) -> Option<int>
    decreases n,
{
    if n <= 0 {
        None
    } else if !is_finite32(logits[n - 1]) {
        last_largest(logits, n - 1)
    } else {
        match last_largest(logits, n - 1) {
            Some(i) => if key32(logits[n - 1]) >= key32(logits[i]) {
                Some(n - 1)
            } else {
                Some(i)
            },
            None => Some(n - 1),
        }
    }
}

/// The token to take when no draw hits: the likeliest, or the first of all if
/// none has a finite number.
pub fn fallback_token(logits: &Vec<u32>) -> (t: usize)
    ensures
        t == (match last_largest(logits@, logits@.len() as int) {
            Some(i) => i,
            None => 0,
        }),
{
    let mut best: Option<usize> = None;
    let mut i: usize = 0;
    while i < logits.len()
        invariant
            i <= logits@.len(),
            match last_largest(logits@, i as int) {
                Some(k) => best matches Some(b) && b == k && 0 <= k < i && is_finite32(logits@[k]),
                None => best is None,
            },
        decreases logits@.len() - i,
    {
        if logits[i] % 0x8000_0000 < 0x7f80_0000 {
            best = match best {
                Some(b) => if ge32(logits[i], logits[b]) {
                    Some(i)
                } else {
                    Some(b)
                },
                None => Some(i),
            };
        }
        i = i + 1;
    }
    match best {
        Some(b) => b,
        None => 0,
    }
}

/// The token that a draw gives: the first ranked one whose running sum in `cut` is
/// no less than `r`, or the fallback where there is none.
pub open spec fn sampled(ranked: Seq<usize>, cut: Seq<u32>, r: u32, logits: Seq<u32>) -> usize {
    match first_reaching(cut, r, 0) {
        Some(i) => ranked[i],
        None => match last_largest(logits, logits.len() as int) {
            Some(i) => i as usize,
            None => 0,
        },
    }
}

impl Sampler {
    pub fn new(temperature: u32, top_k: usize, top_p: u32) -> (s: Self)
        ensures
            s == (Sampler { temperature, top_k, top_p }),
    {
        Sampler { temperature, top_k, top_p }
    }

    /// Takes a token: the first ranked one whose running sum is no less than `r`.
    /// `kept` holds the running sums of the tokens that the largest count leaves,
    /// `cut` those of the tokens that the nucleus leaves of them.
    pub fn sample(
        &self,
        logits: &Vec<u32>,
        ranked: &Vec<usize>,
        kept: &Vec<u32>,
        cut: &Vec<u32>,
        r: u32,
    ) -> (t: usize)
        requires
            kept@.len() == top_k_count(ranked@.len() as int, self.top_k as int),
            cut@.len() == nucleus_count(kept@, self.top_p),
        ensures
            t == sampled(ranked@, cut@, r, logits@),
            first_reaching(cut@, r, 0) is Some ==> ranked@.take(
                top_k_count(ranked@.len() as int, self.top_k as int),
            ).take(nucleus_count(kept@, self.top_p)).contains(t),
    {
        proof {
            lemma_first_reaching(kept@, self.top_p, 0);
            lemma_first_reaching(cut@, r, 0);
        }
        match find_reaching(cut, r) {
            Some(i) => {
                proof {
                    let left = ranked@.take(
                        top_k_count(ranked@.len() as int, self.top_k as int),
                    ).take(nucleus_count(kept@, self.top_p));
                    assert(left[i as int] == ranked@[i as int]);
                }
                ranked[i]
            },
            None => fallback_token(logits),
        }
    }
}

proof fn lemma_first_reaching(sums: Seq<u32>, bar: u32, i: int)
    requires
        0 <= i <= sums.len(),
    ensures
        first_reaching(sums, bar, i) matches Some(k) ==> {
            &&& i <= k < sums.len()
            &&& at_least32(sums[k], bar)
            &&& forall|j: int| i <= j < k ==> !at_least32(#[trigger] sums[j], bar)
        },
        first_reaching(sums, bar, i) is None ==> forall|j: int|
            i <= j < sums.len() ==> !at_least32(#[trigger] sums[j], bar),
    decreases sums.len() - i,
{
    if i < sums.len() && !at_least32(sums[i], bar) {
        lemma_first_reaching(sums, bar, i + 1);
    }
}

/// A token that is drawn survived both cuts: fewer tokens than the largest count
/// come before it, those that do are likelier or as likely with a smaller number,
/// and together they do not reach the nucleus.
pub proof fn law_drawn_token_survives_cuts(
    s: Sampler,
    probs: Seq<u32>,
    ranked: Seq<usize>,
    kept: Seq<u32>,
    cut: Seq<u32>,
    r: u32,
    logits: Seq<u32>,
)
    requires
        is_ordered(probs, ranked),
        kept.len() == top_k_count(ranked.len() as int, s.top_k as int),
        cut.len() == nucleus_count(kept, s.top_p),
        first_reaching(cut, r, 0) is Some,
    ensures
        ({
            let i = first_reaching(cut, r, 0)->0;
            &&& 0 <= i < ranked.len()
            &&& sampled(ranked, cut, r, logits) == ranked[i]
            &&& s.top_k > 0 ==> i < s.top_k
            &&& i < nucleus_count(kept, s.top_p) <= kept.len()
            &&& forall|j: int| 0 <= j < i ==> comes_before(probs, #[trigger] ranked[j], ranked[i])
            &&& has_nucleus(s.top_p) ==> forall|j: int|
                0 <= j < i ==> !at_least32(#[trigger] kept[j], s.top_p)
        }),
{
    lemma_first_reaching(cut, r, 0);
    lemma_first_reaching(kept, s.top_p, 0);
}

/// Ranked tokens are the tokens, in an order that probability and number fix.
pub proof fn law_ranking_is_unique(probs: Seq<u32>, a: Seq<usize>, b: Seq<usize>)
    requires
        is_ordered(probs, a),
        is_ordered(probs, b),
        a.to_multiset() == b.to_multiset(),
    ensures
        a == b,
    decreases a.len(),
{
    broadcast use vstd::seq_lib::group_to_multiset_ensures;

    assert(a.len() == a.to_multiset().len());
    assert(b.len() == b.to_multiset().len());
    if a.len() > 0 {
        let x = a.last();
        let y = b.last();
        if x != y {
            assert(a.contains(x) && b.contains(y));
            assert(b.to_multiset().count(x) > 0);
            assert(b.contains(x));
            assert(a.to_multiset().count(y) > 0);
            assert(a.contains(y));
            let i = b.index_of(x);
            let j = a.index_of(y);
            assert(comes_before(probs, b[i], b[b.len() - 1]));
            assert(comes_before(probs, a[j], a[a.len() - 1]));
            assert(false);
        }
        let a0 = a.drop_last();
        let b0 = b.drop_last();
        assert(a =~= a0.push(x));
        assert(b =~= b0.push(x));
        assert(a0.to_multiset() =~= a.to_multiset().remove(x));
        assert(b0.to_multiset() =~= b.to_multiset().remove(x));
        law_ranking_is_unique(probs, a0, b0);
    } else {
        assert(a =~= b);
    }
}

/// Likelier tokens come first and of equally likely ones the smaller number, so that of
/// any two one comes before the other.
pub proof fn law_likelier_tokens_come_first(probs: Seq<u32>, a: usize, b: usize)
    ensures
        a != b ==> comes_before(probs, a, b) != comes_before(probs, b, a),
        less32(probs[b as int], probs[a as int]) ==> comes_before(probs, a, b),
        probs[a as int] == probs[b as int] && a < b ==> comes_before(probs, a, b),
        !comes_before(probs, a, a),
{
}

/// The largest count leaves no more than it says and no more than there are; zero leaves
/// all.
pub proof fn law_largest_count_limits(n: int, top_k: int)
    requires
        0 <= n,
        0 <= top_k,
    ensures
        top_k == 0 ==> top_k_count(n, top_k) == n,
        top_k > 0 ==> top_k_count(n, top_k) <= top_k && top_k_count(n, top_k) <= n && (top_k_count(
            n,
            top_k,
        ) == top_k || top_k_count(n, top_k) == n),
{
}

/// A draw gives the first ranked token whose running sum reaches it: its own does, none
/// before it does, and where none does at all the draw misses.
pub proof fn law_draw_takes_the_first_that_reaches(
    ranked: Seq<usize>,
    cut: Seq<u32>,
    r: u32,
    logits: Seq<u32>,
    i: int,
)
    requires
        0 <= i < cut.len(),
        at_least32(cut[i], r),
        forall|j: int| 0 <= j < i ==> !at_least32(#[trigger] cut[j], r),
    ensures
        sampled(ranked, cut, r, logits) == ranked[i],
{
    lemma_first_reaching(cut, r, 0);
}

/// The nucleus is the shortest front of the ranking whose sum reaches the bar; without a
/// bar between zero and one it is everything.
pub proof fn law_nucleus_is_the_shortest_front(sums: Seq<u32>, top_p: u32)
    ensures
        0 <= nucleus_count(sums, top_p) <= sums.len(),
        less32(0, top_p) && less32(top_p, 0x3f80_0000) ==> {
            let k = nucleus_count(sums, top_p);
            &&& forall|j: int| 0 <= j < k - 1 ==> !at_least32(#[trigger] sums[j], top_p)
            &&& k < sums.len() ==> k > 0 && at_least32(sums[k - 1], top_p)
        },
        !(less32(0, top_p) && less32(top_p, 0x3f80_0000)) ==> nucleus_count(sums, top_p)
            == sums.len(),
{
    lemma_first_reaching(sums, top_p, 0);
}

/// Where a draw misses, the token with the largest finite number is taken, the last of
/// several; the first token where there is none.
pub proof fn law_missed_draw_takes_the_largest(logits: Seq<u32>, n: int, k: int)
    requires
        0 <= k < n <= logits.len(),
        logits[k] % 0x8000_0000 < 0x7f80_0000,
    ensures
        ({
            let best = last_largest(logits, n);
            &&& best is Some
            &&& 0 <= best->0 < n
            &&& logits[best->0] % 0x8000_0000 < 0x7f80_0000
            &&& !less32(logits[best->0], logits[k])
            &&& best->0 < k ==> less32(logits[k], logits[best->0])
        }),
    decreases n,
{
    lemma_some_largest(logits, n);
    if k < n - 1 {
        law_missed_draw_takes_the_largest(logits, n - 1, k);
    } else {
        lemma_some_largest(logits, n - 1);
    }
}

proof fn lemma_some_largest(logits: Seq<u32>, n: int)
    ensures
        last_largest(logits, n) matches Some(i) ==> 0 <= i < n && logits[i] % 0x8000_0000
            < 0x7f80_0000,
    decreases n,
{
    if n > 0 {
        lemma_some_largest(logits, n - 1);
    }
}

} // verus!
