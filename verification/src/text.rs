//! Searching in bytes.

use vstd::prelude::*;

verus! {

/// `needle` stands in `hay` at `i`.
pub open spec fn occurs_at(hay: Seq<u8>, needle: Seq<u8>, i: int) -> bool {
    &&& 0 <= i
    &&& i + needle.len() <= hay.len()
    &&& forall|k: int| 0 <= k < needle.len() ==> hay[i + k] == #[trigger] needle[k]
}

/// `needle` stands somewhere in `hay`.
pub open spec fn occurs(hay: Seq<u8>, needle: Seq<u8>) -> bool {
    exists|i: int| occurs_at(hay, needle, i)
}

/// Whether `needle` stands in `hay` at `at`.
pub fn matches_at(hay: &[u8], needle: &[u8], at: usize) -> (b: bool)
    requires
        at + needle@.len() <= hay@.len(),
    ensures
        b == occurs_at(hay@, needle@, at as int),
{
    let mut k: usize = 0;
    assert(hay.len() <= usize::MAX);
    while k < needle.len()
        invariant
            k <= needle@.len(),
            at + needle@.len() <= hay@.len() <= usize::MAX,
            forall|j: int| 0 <= j < k ==> hay@[at + j] == #[trigger] needle@[j],
        decreases needle@.len() - k,
    {
        if hay[at + k] != needle[k] {
            assert(hay@[at + k] != needle@[k as int]);
            return false;
        }
        k = k + 1;
    }
    true
}

/// Whether `needle` stands somewhere in `hay`.
pub fn contains(hay: &[u8], needle: &[u8]) -> (b: bool)
    ensures
        b == occurs(hay@, needle@),
{
    if needle.len() > hay.len() {
        assert forall|i: int| !occurs_at(hay@, needle@, i) by {}
        return false;
    }
    let last: usize = hay.len() - needle.len();
    let mut i: usize = 0;
    loop
        invariant
            i <= last,
            last == hay@.len() - needle@.len(),
            forall|j: int| 0 <= j < i ==> !occurs_at(hay@, needle@, j),
        decreases last - i,
    {
        if matches_at(hay, needle, i) {
            return true;
        }
        if i == last {
            assert forall|j: int| !occurs_at(hay@, needle@, j) by {}
            return false;
        }
        i = i + 1;
    }
}

/// Whether two byte strings are equal.
pub fn same_bytes(a: &[u8], b: &[u8]) -> (r: bool)
    ensures
        r == (a@ == b@),
{
    if a.len() != b.len() {
        return false;
    }
    let r: bool = matches_at(a, b, 0);
    proof {
        if r {
            assert forall|k: int| 0 <= k < a@.len() implies a@[k] == b@[k] by {
                assert(a@[0 + k] == b@[k]);
            }
            assert(a@ =~= b@);
        }
    }
    r
}

/// What stands at a place is a piece of the text, and putting a text between two others
/// lets it be found there.
pub proof fn law_occurrence_is_a_piece(hay: Seq<u8>, needle: Seq<u8>, i: int, before: Seq<u8>, after: Seq<u8>)
    ensures
        0 <= i && i + needle.len() <= hay.len() ==> (occurs_at(hay, needle, i) <==> hay.subrange(
            i,
            i + needle.len(),
        ) == needle),
        !(0 <= i && i + needle.len() <= hay.len()) ==> !occurs_at(hay, needle, i),
        occurs_at(before + needle + after, needle, before.len() as int),
        occurs(before + needle + after, needle),
{
    if 0 <= i && i + needle.len() <= hay.len() {
        let piece = hay.subrange(i, i + needle.len());
        if piece == needle {
            assert forall|k: int| 0 <= k < needle.len() implies hay[i + k] == #[trigger] needle[k] by {
                assert(piece[k] == needle[k]);
            }
        }
        if occurs_at(hay, needle, i) {
            assert forall|k: int| 0 <= k < needle.len() implies piece[k] == needle[k] by {
                assert(hay[i + k] == needle[k]);
            }
            assert(piece =~= needle);
        }
    }
    assert(occurs_at(before + needle + after, needle, before.len() as int));
}

} // verus!
