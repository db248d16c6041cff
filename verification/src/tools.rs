//! What the command line tools compute.

use crate::text::{contains, occurs, same_bytes};
use vstd::prelude::*;

verus! {

/// A tensor this large is worth measuring.
pub const LARGE_TENSOR: usize = 10000;

/// Prompt tokens for measuring: one to a hundred, over and over.
pub fn dummy_tokens(n: usize) -> (r: Vec<usize>)
    ensures
        r@ == Seq::new(n as nat, |i: int| (1 + i % 100) as usize),
{
    let mut r: Vec<usize> = Vec::new();
    let mut i: usize = 0;
    while i < n
        invariant
            i <= n,
            r@ == Seq::new(i as nat, |i: int| (1 + i % 100) as usize),
        decreases n - i,
    {
        r.push(1 + i % 100);
        assert(r@ =~= Seq::new((i + 1) as nat, |i: int| (1 + i % 100) as usize));
        i = i + 1;
    }
    r
}

/// How many of `total` tensors are shown; a limit of zero shows all.
pub fn shown_count(total: usize, max: usize) -> (n: usize)
    ensures
        n == (if max == 0 || total < max {
            total
        } else {
            max
        }),
{
    if max == 0 || total < max {
        total
    } else {
        max
    }
}

/// A tensor of a model file.
#[derive(Debug)]
pub struct TensorEntry {
    pub name: Vec<u8>,
    pub n_elems: usize,
    pub dtype: Vec<u8>,
    pub n_bytes: usize,
}

/// A tensor's name has the pattern; no pattern matches all.
pub open spec fn is_selected(t: TensorEntry, filter: Option<Seq<u8>>) -> bool {
    match filter {
        Some(f) => occurs(t.name@, f),
        None => true,
    }
}

/// The places among the first `n` tensors that are selected.
pub open spec fn selected(tensors: Seq<TensorEntry>, filter: Option<Seq<u8>>, n: int) -> Seq<usize>
    decreases n,
{
    if n <= 0 {
        Seq::empty()
    } else if is_selected(tensors[n - 1], filter) {
        selected(tensors, filter, n - 1).push((n - 1) as usize)
    } else {
        selected(tensors, filter, n - 1)
    }
}

/// The tensors whose name has a pattern.
pub fn select_tensors(tensors: &Vec<TensorEntry>, filter: Option<&[u8]>) -> (r: Vec<usize>)
    ensures
        r@ == selected(
            tensors@,
            match filter {
                Some(f) => Some(f@),
                None => None,
            },
            tensors@.len() as int,
        ),
{
    let ghost pattern = match filter {
        Some(f) => Some(f@),
        None => None,
    };
    let mut r: Vec<usize> = Vec::new();
    let mut i: usize = 0;
    while i < tensors.len()
        invariant
            i <= tensors@.len(),
            pattern == (match filter {
                Some(f) => Some(f@),
                None => None,
            }),
            r@ == selected(tensors@, pattern, i as int),
        decreases tensors@.len() - i,
    {
        let take: bool = match filter {
            Some(f) => contains(tensors[i].name.as_slice(), f),
            None => true,
        };
        if take {
            r.push(i);
        }
        i = i + 1;
    }
    r
}

/// Place of the first large weight, from `i` on.
pub open spec fn first_large_weight(
    tensors: Seq<TensorEntry>,
    weight: Seq<u8>,
    i: int,
) -> Option<int>
    decreases tensors.len() - i,
{
    if i >= tensors.len() {
        None
    } else if occurs(tensors[i].name@, weight) && tensors[i].n_elems > LARGE_TENSOR {
        Some(i)
    } else {
        first_large_weight(tensors, weight, i + 1)
    }
}

/// The tensor to measure: the first large weight, or the first of all.
/// `weight` is what names of weights have in them.
pub fn pick_tensor(tensors: &Vec<TensorEntry>, weight: &[u8]) -> (r: usize)
    ensures
        r == (match first_large_weight(tensors@, weight@, 0) {
            Some(i) => i,
            None => 0,
        }),
{
    let mut i: usize = 0;
    while i < tensors.len()
        invariant
            i <= tensors@.len(),
            first_large_weight(tensors@, weight@, 0) == first_large_weight(
                tensors@,
                weight@,
                i as int,
            ),
        decreases tensors@.len() - i,
    {
        if contains(tensors[i].name.as_slice(), weight) && tensors[i].n_elems > LARGE_TENSOR {
            return i;
        }
        i = i + 1;
    }
    0
}

/// What a model file holds of one type.
#[derive(Debug)]
pub struct TypeTotal {
    pub dtype: Vec<u8>,
    pub count: usize,
    pub bytes: usize,
}

#[verifier::ext_equal]
pub struct TotalView {
    pub dtype: Seq<u8>,
    pub count: int,
    pub bytes: int,
}

pub open spec fn total_views(t: Seq<TypeTotal>) -> Seq<TotalView> {
    Seq::new(
        t.len(),
        |i: int| TotalView { dtype: t[i].dtype@, count: t[i].count as int, bytes: t[i].bytes as int },
    )
}

/// Tensors of a type among the first `n`.
pub open spec fn count_of(tensors: Seq<TensorEntry>, dtype: Seq<u8>, n: int) -> int
    decreases n,
{
    if n <= 0 {
        0
    } else {
        count_of(tensors, dtype, n - 1) + (if tensors[n - 1].dtype@ == dtype {
            1int
        } else {
            0int
        })
    }
}

/// Bytes of a type among the first `n`.
pub open spec fn bytes_of(tensors: Seq<TensorEntry>, dtype: Seq<u8>, n: int) -> int
    decreases n,
{
    if n <= 0 {
        0
    } else {
        bytes_of(tensors, dtype, n - 1) + (if tensors[n - 1].dtype@ == dtype {
            tensors[n - 1].n_bytes as int
        } else {
            0int
        })
    }
}

/// Bytes of the first `n` tensors.
pub open spec fn all_bytes(tensors: Seq<TensorEntry>, n: int) -> int
    decreases n,
{
    if n <= 0 {
        0
    } else {
        all_bytes(tensors, n - 1) + tensors[n - 1].n_bytes
    }
}

/// The totals list every type among the first `n` tensors once, each with its
/// count and bytes.
pub open spec fn totals_match(tensors: Seq<TensorEntry>, totals: Seq<TotalView>, n: int) -> bool {
    &&& forall|i: int, j: int| 0 <= i < j < totals.len() ==> totals[i].dtype != totals[j].dtype
    &&& forall|i: int|
        0 <= i < totals.len() ==> (#[trigger] totals[i]).count == count_of(
            tensors,
            totals[i].dtype,
            n,
        ) && totals[i].bytes == bytes_of(tensors, totals[i].dtype, n) && totals[i].count > 0
    &&& forall|k: int| 0 <= k < n ==> lists_type(totals, (#[trigger] tensors[k]).dtype@)
}

/// The totals have an entry for a type.
pub open spec fn lists_type(totals: Seq<TotalView>, dtype: Seq<u8>) -> bool {
    exists|i: int| 0 <= i < totals.len() && (#[trigger] totals[i]).dtype == dtype
}

proof fn lemma_bytes_bounded(tensors: Seq<TensorEntry>, dtype: Seq<u8>, n: int, m: int)
    requires
        0 <= n <= m <= tensors.len(),
    ensures
        0 <= bytes_of(tensors, dtype, n) <= all_bytes(tensors, n) <= all_bytes(tensors, m),
        0 <= count_of(tensors, dtype, n) <= n,
    decreases m,
{
    if n < m {
        lemma_bytes_bounded(tensors, dtype, n, m - 1);
    } else if n > 0 {
        lemma_bytes_bounded(tensors, dtype, n - 1, n - 1);
    }
}

proof fn lemma_absent_type(tensors: Seq<TensorEntry>, dtype: Seq<u8>, n: int)
    requires
        0 <= n <= tensors.len(),
        forall|k: int| 0 <= k < n ==> (#[trigger] tensors[k]).dtype@ != dtype,
    ensures
        count_of(tensors, dtype, n) == 0,
        bytes_of(tensors, dtype, n) == 0,
    decreases n,
{
    if n > 0 {
        lemma_absent_type(tensors, dtype, n - 1);
    }
}

fn place_of(totals: &Vec<TypeTotal>, dtype: &Vec<u8>) -> (r: Option<usize>)
    ensures
        match r {
            Some(i) => i < totals@.len() && totals@[i as int].dtype@ == dtype@,
            None => forall|i: int|
                0 <= i < totals@.len() ==> (#[trigger] totals@[i]).dtype@ != dtype@,
        },
{
    let mut i: usize = 0;
    while i < totals.len()
        invariant
            i <= totals@.len(),
            forall|k: int| 0 <= k < i ==> (#[trigger] totals@[k]).dtype@ != dtype@,
        decreases totals@.len() - i,
    {
        if same_bytes(totals[i].dtype.as_slice(), dtype.as_slice()) {
            return Some(i);
        }
        i = i + 1;
    }
    None
}

fn copy_bytes(b: &Vec<u8>) -> (r: Vec<u8>)
    ensures
        r@ == b@,
{
    let mut r: Vec<u8> = Vec::new();
    let mut i: usize = 0;
    while i < b.len()
        invariant
            i <= b@.len(),
            r@ == b@.subrange(0, i as int),
        decreases b@.len() - i,
    {
        r.push(b[i]);
        assert(b@.subrange(0, i + 1) =~= b@.subrange(0, i as int).push(b@[i as int]));
        i = i + 1;
    }
    assert(b@.subrange(0, b@.len() as int) =~= b@);
    r
}

/// Types with more bytes come first.
pub open spec fn by_bytes(totals: Seq<TotalView>) -> bool {
    forall|i: int, j: int| 0 <= i < j < totals.len() ==> totals[i].bytes >= totals[j].bytes
}

/// Taking the last of `a` into `b` keeps the totals of both together.
proof fn lemma_total_moves(
    tensors: Seq<TensorEntry>,
    a: Seq<TotalView>,
    x: TotalView,
    b: Seq<TotalView>,
    k: int,
    n: int,
)
    requires
        0 <= k <= b.len(),
        n <= tensors.len(),
        totals_match(tensors, a.push(x) + b, n),
    ensures
        totals_match(tensors, a + b.insert(k, x), n),
{
    let old = a.push(x) + b;
    let new = a + b.insert(k, x);
    let la = a.len() as int;
    // Where an entry of the new list stood in the old one.
    let from = |j: int|
        if j < la || j > la + k {
            j
        } else if j == la + k {
            la
        } else {
            j + 1
        };
    assert forall|j: int| 0 <= j < new.len() implies #[trigger] new[j] == old[from(j)] by {}
    assert forall|i: int, j: int| 0 <= i < j < new.len() implies new[i].dtype != new[j].dtype by {
        assert(new[i] == old[from(i)] && new[j] == old[from(j)]);
        if from(i) < from(j) {
            assert(old[from(i)].dtype != old[from(j)].dtype);
        } else {
            assert(old[from(j)].dtype != old[from(i)].dtype);
        }
    }
    assert forall|i: int| 0 <= i < new.len() implies (#[trigger] new[i]).count == count_of(
        tensors,
        new[i].dtype,
        n,
    ) && new[i].bytes == bytes_of(tensors, new[i].dtype, n) && new[i].count > 0 by {
        assert(new[i] == old[from(i)]);
    }
    assert forall|t: int| 0 <= t < n implies lists_type(
        new,
        (#[trigger] tensors[t]).dtype@,
    ) by {
        assert(lists_type(old, tensors[t].dtype@));
        let i = choose|i: int|
            0 <= i < old.len() && (#[trigger] old[i]).dtype == tensors[t].dtype@;
        let j = if i < la || i > la + k {
            i
        } else if i == la {
            la + k
        } else {
            i - 1
        };
        assert(new[j] == old[i]);
    }
}

/// Orders totals by their bytes, the most first.
fn sort_totals(totals: Vec<TypeTotal>, tensors: &Vec<TensorEntry>) -> (r: Vec<TypeTotal>)
    requires
        totals_match(tensors@, total_views(totals@), tensors@.len() as int),
    ensures
        totals_match(tensors@, total_views(r@), tensors@.len() as int),
        by_bytes(total_views(r@)),
{
    let mut rest: Vec<TypeTotal> = totals;
    let mut sorted: Vec<TypeTotal> = Vec::new();
    assert(total_views(rest@) + total_views(sorted@) =~= total_views(rest@));
    while rest.len() > 0
        invariant
            totals_match(
                tensors@,
                total_views(rest@) + total_views(sorted@),
                tensors@.len() as int,
            ),
            by_bytes(total_views(sorted@)),
        decreases rest@.len(),
    {
        let ghost a = total_views(rest@.drop_last());
        let ghost b = total_views(sorted@);
        let ghost x = total_views(rest@).last();
        assert(total_views(rest@) =~= a.push(x));
        let last = match rest.pop() {
            Some(t) => t,
            None => return sorted,
        };
        let mut k: usize = 0;
        while k < sorted.len() && sorted[k].bytes > last.bytes
            invariant
                k <= sorted@.len(),
                b == total_views(sorted@),
                forall|i: int| 0 <= i < k ==> (#[trigger] b[i]).bytes > last.bytes,
            decreases sorted@.len() - k,
        {
            assert(b[k as int].bytes == sorted@[k as int].bytes);
            k = k + 1;
        }
        proof {
            if k < sorted@.len() {
                assert(b[k as int].bytes == sorted@[k as int].bytes);
            }
            lemma_total_moves(tensors@, a, x, b, k as int, tensors@.len() as int);
        }
        sorted.insert(k, last);
        assert(total_views(sorted@) =~= b.insert(k as int, x));
        assert(total_views(rest@) =~= a);
    }
    assert(total_views(rest@) + total_views(sorted@) =~= total_views(sorted@));
    sorted
}

/// Counts the tensors of a model file by type; the type with the most bytes comes
/// first.
pub fn tally_types(tensors: &Vec<TensorEntry>) -> (r: Vec<TypeTotal>)
    requires
        all_bytes(tensors@, tensors@.len() as int) <= usize::MAX,
    ensures
        totals_match(tensors@, total_views(r@), tensors@.len() as int),
        by_bytes(total_views(r@)),
{
    let mut totals: Vec<TypeTotal> = Vec::new();
    let mut n: usize = 0;
    while n < tensors.len()
        invariant
            n <= tensors@.len(),
            all_bytes(tensors@, tensors@.len() as int) <= usize::MAX,
            totals_match(tensors@, total_views(totals@), n as int),
        decreases tensors@.len() - n,
    {
        let ghost before = total_views(totals@);
        let ghost t = tensors@[n as int];
        proof {
            lemma_bytes_bounded(tensors@, t.dtype@, n + 1, tensors@.len() as int);
        }
        match place_of(&totals, &tensors[n].dtype) {
            Some(i) => {
                assert(before[i as int].count == count_of(tensors@, t.dtype@, n as int));
                assert(before[i as int].bytes == bytes_of(tensors@, t.dtype@, n as int));
                let count: usize = totals[i].count + 1;
                let bytes: usize = totals[i].bytes + tensors[n].n_bytes;
                totals[i].count = count;
                totals[i].bytes = bytes;
                proof {
                    let after = total_views(totals@);
                    assert forall|k: int| 0 <= k < after.len() implies after[k].dtype
                        == before[k].dtype by {}
                    assert forall|k: int| 0 <= k < n + 1 implies lists_type(
                        after,
                        (#[trigger] tensors@[k]).dtype@,
                    ) by {
                        if k < n {
                            assert(lists_type(before, tensors@[k].dtype@));
                            let j = choose|j: int|
                                0 <= j < before.len() && (#[trigger] before[j]).dtype
                                    == tensors@[k].dtype@;
                            assert(after[j].dtype == tensors@[k].dtype@);
                        } else {
                            assert(after[i as int].dtype == tensors@[k].dtype@);
                        }
                    }
                    assert forall|k: int| 0 <= k < after.len() implies (#[trigger] after[k]).count
                        == count_of(tensors@, after[k].dtype, n + 1) && after[k].bytes == bytes_of(
                        tensors@,
                        after[k].dtype,
                        n + 1,
                    ) && after[k].count > 0 by {
                        assert(before[k].count == count_of(tensors@, before[k].dtype, n as int));
                        if k != i {
                            if k < i {
                                assert(before[k].dtype != before[i as int].dtype);
                            } else {
                                assert(before[i as int].dtype != before[k].dtype);
                            }
                        }
                    }
                }
            },
            None => {
                proof {
                    assert forall|k: int| 0 <= k < n implies (#[trigger] tensors@[k]).dtype@
                        != t.dtype@ by {
                        assert(lists_type(before, tensors@[k].dtype@));
                        let j = choose|j: int|
                            0 <= j < before.len() && (#[trigger] before[j]).dtype
                                == tensors@[k].dtype@;
                        assert(totals@[j].dtype@ != t.dtype@);
                    }
                    lemma_absent_type(tensors@, t.dtype@, n as int);
                }
                totals.push(
                    TypeTotal {
                        dtype: copy_bytes(&tensors[n].dtype),
                        count: 1,
                        bytes: tensors[n].n_bytes,
                    },
                );
                proof {
                    let after = total_views(totals@);
                    assert(forall|k: int| 0 <= k < before.len() ==> after[k] == before[k]);
                    assert forall|i: int, j: int| 0 <= i < j < after.len() implies after[i].dtype
                        != after[j].dtype by {
                        if j == before.len() {
                            assert(totals@[i].dtype@ != t.dtype@);
                        }
                    }
                    assert forall|k: int| 0 <= k < n + 1 implies lists_type(
                        after,
                        (#[trigger] tensors@[k]).dtype@,
                    ) by {
                        if k < n {
                            assert(lists_type(before, tensors@[k].dtype@));
                            let j = choose|j: int|
                                0 <= j < before.len() && (#[trigger] before[j]).dtype
                                    == tensors@[k].dtype@;
                            assert(after[j].dtype == tensors@[k].dtype@);
                        } else {
                            assert(after[before.len() as int].dtype == tensors@[k].dtype@);
                        }
                    }
                    assert forall|k: int| 0 <= k < after.len() implies (#[trigger] after[k]).count
                        == count_of(tensors@, after[k].dtype, n + 1) && after[k].bytes == bytes_of(
                        tensors@,
                        after[k].dtype,
                        n + 1,
                    ) && after[k].count > 0 by {
                        if k < before.len() {
                            assert(before[k].count == count_of(
                                tensors@,
                                before[k].dtype,
                                n as int,
                            ));
                            assert(totals@[k].dtype@ != t.dtype@);
                        }
                    }
                }
            },
        }
        n = n + 1;
    }
    sort_totals(totals, tensors)
}

/// Bytes of all tensors.
pub fn total_bytes(tensors: &Vec<TensorEntry>) -> (n: usize)
    requires
        all_bytes(tensors@, tensors@.len() as int) <= usize::MAX,
    ensures
        n == all_bytes(tensors@, tensors@.len() as int),
{
    let mut n: usize = 0;
    let mut i: usize = 0;
    while i < tensors.len()
        invariant
            i <= tensors@.len(),
            n == all_bytes(tensors@, i as int),
            all_bytes(tensors@, tensors@.len() as int) <= usize::MAX,
        decreases tensors@.len() - i,
    {
        proof {
            lemma_bytes_bounded(tensors@, Seq::empty(), i + 1, tensors@.len() as int);
        }
        n = n + tensors[i].n_bytes;
        i = i + 1;
    }
    n
}

/// Selected tensors are listed by their places, in order and once: all whose name has the
/// pattern, and all there are without one.
pub proof fn law_selection_lists_the_matches(
    tensors: Seq<TensorEntry>,
    filter: Option<Seq<u8>>,
    n: int,
    k: usize,
)
    requires
        0 <= n <= tensors.len(),
        n <= usize::MAX,
    ensures
        filter is None ==> is_selected(tensors[k as int], filter),
        filter matches Some(f) ==> (is_selected(tensors[k as int], filter) <==> occurs(
            tensors[k as int].name@,
            f,
        )),
        selected(tensors, filter, n).contains(k) <==> k < n && is_selected(
            tensors[k as int],
            filter,
        ),
        forall|i: int, j: int|
            0 <= i < j < selected(tensors, filter, n).len() ==> selected(tensors, filter, n)[i]
                < selected(tensors, filter, n)[j],
        forall|i: int|
            0 <= i < selected(tensors, filter, n).len() ==> (#[trigger] selected(
                tensors,
                filter,
                n,
            )[i]) < n,
    decreases n,
{
    let s = selected(tensors, filter, n);
    if n > 0 {
        law_selection_lists_the_matches(tensors, filter, n - 1, k);
        let before = selected(tensors, filter, n - 1);
        if is_selected(tensors[n - 1], filter) {
            assert(s.last() == n - 1);
            if before.contains(k) {
                let i = choose|i: int| 0 <= i < before.len() && before[i] == k;
                assert(s[i] == k);
            }
            if s.contains(k) {
                let i = choose|i: int| 0 <= i < s.len() && s[i] == k;
                if i < before.len() {
                    assert(before[i] == k);
                }
            }
            assert(k == n - 1 ==> s[s.len() - 1] == k);
        }
    }
}

/// The tensor that is measured is the first large weight: over ten thousand elements,
/// with the name of a weight, and none like it before.
pub proof fn law_first_large_weight_is_picked(
    tensors: Seq<TensorEntry>,
    weight: Seq<u8>,
    i: int,
    k: int,
)
    requires
        0 <= i <= k < tensors.len(),
        occurs(tensors[k].name@, weight),
        tensors[k].n_elems > 10000,
    ensures
        first_large_weight(tensors, weight, i) matches Some(p) && {
            &&& i <= p <= k
            &&& occurs(tensors[p].name@, weight)
            &&& tensors[p].n_elems > 10000
        },
    decreases tensors.len() - i,
{
    if i < k && !(occurs(tensors[i].name@, weight) && tensors[i].n_elems > LARGE_TENSOR) {
        law_first_large_weight_is_picked(tensors, weight, i + 1, k);
    }
}

/// Without a large weight none is picked.
pub proof fn law_small_tensors_are_not_picked(
    tensors: Seq<TensorEntry>,
    weight: Seq<u8>,
    i: int,
)
    requires
        0 <= i <= tensors.len(),
        forall|k: int|
            i <= k < tensors.len() ==> !occurs((#[trigger] tensors[k]).name@, weight)
                || tensors[k].n_elems <= 10000,
    ensures
        first_large_weight(tensors, weight, i) is None,
    decreases tensors.len() - i,
{
    if i < tensors.len() {
        law_small_tensors_are_not_picked(tensors, weight, i + 1);
    }
}

/// Counts and bytes grow with each tensor: by one and by its bytes for its own type, by
/// nothing for another, and by its bytes for all together.
pub proof fn law_each_tensor_is_counted_once(
    tensors: Seq<TensorEntry>,
    t: TensorEntry,
    dtype: Seq<u8>,
)
    ensures
        ({
            let n = tensors.len() as int;
            let more = tensors.push(t);
            &&& count_of(Seq::empty(), dtype, 0) == 0
            &&& bytes_of(Seq::empty(), dtype, 0) == 0
            &&& all_bytes(Seq::empty(), 0) == 0
            &&& all_bytes(more, n + 1) == all_bytes(tensors, n) + t.n_bytes
            &&& t.dtype@ == dtype ==> count_of(more, dtype, n + 1) == count_of(tensors, dtype, n)
                + 1 && bytes_of(more, dtype, n + 1) == bytes_of(tensors, dtype, n) + t.n_bytes
            &&& t.dtype@ != dtype ==> count_of(more, dtype, n + 1) == count_of(tensors, dtype, n)
                && bytes_of(more, dtype, n + 1) == bytes_of(tensors, dtype, n)
        }),
{
    lemma_front_counts(tensors, t, dtype, tensors.len() as int);
}

proof fn lemma_front_counts(tensors: Seq<TensorEntry>, t: TensorEntry, dtype: Seq<u8>, n: int)
    requires
        0 <= n <= tensors.len(),
    ensures
        count_of(tensors.push(t), dtype, n) == count_of(tensors, dtype, n),
        bytes_of(tensors.push(t), dtype, n) == bytes_of(tensors, dtype, n),
        all_bytes(tensors.push(t), n) == all_bytes(tensors, n),
    decreases n,
{
    if n > 0 {
        lemma_front_counts(tensors, t, dtype, n - 1);
    }
}

} // verus!
