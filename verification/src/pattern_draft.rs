//! Drafting by recurring patterns.
//!
//! Each observed state is reduced to a locality-sensitive hash, one bit per
//! projection.  A ring keeps the last hashes with the tokens that followed.
//! A query finds the most similar past state and offers what came after it.

use vstd::prelude::*;

verus! {

pub const DEFAULT_NUM_BITS: usize = 32;

pub const DEFAULT_CAPACITY: usize = 4096;

pub const DEFAULT_DRAFT_LENGTH: usize = 3;

/// How sure a draft is of its tokens.
#[derive(Debug, Clone, Copy, PartialEq, Eq, Structural)]
pub enum MatchConfidence {
    /// The hashes are equal.
    Exact,
    /// At most a quarter of the bits differ.
    Near,
    /// At most half of the bits differ.
    Far,
}

impl MatchConfidence {
    pub open spec fn spec_percent(self) -> int {
        match self {
            MatchConfidence::Exact => 90,
            MatchConfidence::Near => 50,
            MatchConfidence::Far => 10,
        }
    }

    /// The probability that the draft gives each of its tokens, in percent.
    pub fn percent(&self) -> (p: u32)
        ensures
            p == self.spec_percent(),
    {
        match self {
            MatchConfidence::Exact => 90,
            MatchConfidence::Near => 50,
            MatchConfidence::Far => 10,
        }
    }
}

/// One observation.
#[derive(Debug, Clone, Copy, PartialEq, Eq, Structural)]
pub struct Observation {
    pub hash: u64,
    pub token: usize,
    /// Position in the cache, zero where it was not given.
    pub position: usize,
}

/// The ring of observations and the projections that hash states.
pub struct PatternDraft {
    hashes: Vec<u64>,
    tokens: Vec<usize>,
    positions: Vec<usize>,
    head: usize,
    len: usize,
    capacity: usize,
    lsh: Vec<u32>,
    num_bits: usize,
    embed_dim: usize,
    draft_length: usize,
}

/// Ones in the binary form of a number.
pub open spec fn ones(x: u64) -> nat
    decreases x,
{
    if x == 0 {
        0
    } else {
        (x % 2) as nat + ones(x / 2)
    }
}

/// Bits in which two hashes differ.
pub open spec fn distance(a: u64, b: u64) -> nat {
    ones(a ^ b)
}

/// Bit `i` of a hash.
pub open spec fn bit(hash: u64, i: int) -> bool {
    (hash >> (i as u64)) & 1 == 1
}

/// Counts the ones in the binary form of a number.
pub fn count_ones(x: u64) -> (n: u32)
    ensures
        n == ones(x),
        n <= 64,
{
    let mut rest: u64 = x;
    let mut n: u32 = 0;
    let mut steps: u32 = 0;
    proof {
        assert(x < pow_two(64)) by {
            lemma_pow_two_64();
        }
    }
    while rest != 0
        invariant
            steps <= 64,
            n <= steps,
            n + ones(rest) == ones(x),
            rest < pow_two((64 - steps) as nat),
        decreases rest,
    {
        proof {
            assert(steps < 64) by {
                if steps == 64 {
                    assert(pow_two(0) == 1);
                }
            }
            assert(pow_two((64 - steps) as nat) == 2 * pow_two((64 - steps - 1) as nat));
        }
        n = n + (rest % 2) as u32;
        rest = rest / 2;
        steps = steps + 1;
    }
    n
}

spec fn pow_two(n: nat) -> nat
    decreases n,
{
    if n == 0 {
        1
    } else {
        2 * pow_two((n - 1) as nat)
    }
}

proof fn lemma_pow_two_64()
    ensures
        pow_two(64) == 0x1_0000_0000_0000_0000,
{
    reveal_with_fuel(pow_two, 65);
}

proof fn lemma_ones_bound(x: u64, n: nat)
    requires
        x < pow_two(n),
    ensures
        ones(x) <= n,
    decreases n,
{
    if x != 0 {
        if n == 0 {
            assert(pow_two(0) == 1);
        } else {
            assert(pow_two(n) == 2 * pow_two((n - 1) as nat));
            lemma_ones_bound(x / 2, (n - 1) as nat);
        }
    }
}

/// Two hashes differ in at most 64 bits, and in none exactly if they are
/// equal; the distance is the same both ways.
pub proof fn law_distance(a: u64, b: u64)
    ensures
        distance(a, b) <= 64,
        distance(a, b) == 0 <==> a == b,
        distance(a, b) == distance(b, a),
{
    lemma_pow_two_64();
    lemma_ones_bound(a ^ b, 64);
    assert(a ^ b == b ^ a) by (bit_vector);
    assert((a ^ b) == 0 <==> a == b) by (bit_vector);
    lemma_ones_zero(a ^ b);
}

proof fn lemma_ones_zero(x: u64)
    ensures
        ones(x) == 0 <==> x == 0,
    decreases x,
{
    if x != 0 {
        lemma_ones_zero(x / 2);
        if x / 2 == 0 {
            assert(x == 1);
        }
    }
}

/// Packs the signs of the projections into a hash: bit `i` is set exactly if
/// projection `i` came out positive.
pub fn hash_signs(positive: &[bool]) -> (hash: u64)
    ensures
        forall|i: int|
            0 <= i < 64 ==> (#[trigger] bit(hash, i) <==> i < positive@.len() && positive@[i]),
{
    let mut hash: u64 = 0;
    let n: usize = if positive.len() < 64 {
        positive.len()
    } else {
        64
    };
    let mut i: usize = 0;
    proof {
        assert forall|j: int| 0 <= j < 64 implies !(#[trigger] bit(hash, j)) by {
            let k = j as u64;
            assert((0u64 >> k) & 1 == 0) by (bit_vector);
        }
    }
    while i < n
        invariant
            i <= n <= 64,
            n <= positive@.len(),
            n == 64 || n == positive@.len(),
            forall|j: int| 0 <= j < 64 ==> (#[trigger] bit(hash, j) <==> j < i && positive@[j]),
        decreases n - i,
    {
        if positive[i] {
            let ghost before = hash;
            let k: u64 = i as u64;
            hash = hash | (1u64 << k);
            proof {
                assert forall|j: int| 0 <= j < 64 implies (#[trigger] bit(hash, j) <==> j < i + 1
                    && positive@[j]) by {
                    let m = j as u64;
                    assert(((before | (1u64 << k)) >> m) & 1 == 1 <==> ((before >> m) & 1 == 1 || m
                        == k)) by (bit_vector)
                        requires
                            m < 64,
                            k < 64,
                    ;
                    assert(bit(before, j) <==> j < i && positive@[j]);
                }
            }
        }
        i = i + 1;
    }
    hash
}

impl View for PatternDraft {
    type V = Seq<Observation>;

    /// The observations, oldest first.
    open spec fn view(&self) -> Seq<Observation> {
        Seq::new(self.spec_len() as nat, |i: int| self.stored_at(self.place(i)))
    }
}

impl PatternDraft {
    /// Where the `i`-th oldest observation is kept.
    pub open spec fn place(&self, i: int) -> int {
        if self.spec_len() < self.spec_capacity() {
            i
        } else {
            (self.spec_head() + i) % self.spec_capacity()
        }
    }

    pub open spec fn stored_at(&self, s: int) -> Observation {
        Observation {
            hash: self.ring_hashes()[s],
            token: self.ring_tokens()[s],
            position: self.ring_positions()[s],
        }
    }

    pub closed spec fn spec_capacity(&self) -> int {
        self.capacity as int
    }

    pub closed spec fn spec_num_bits(&self) -> int {
        self.num_bits as int
    }

    pub closed spec fn spec_embed_dim(&self) -> int {
        self.embed_dim as int
    }

    pub closed spec fn spec_draft_length(&self) -> int {
        self.draft_length as int
    }

    pub closed spec fn spec_head(&self) -> int {
        self.head as int
    }

    pub closed spec fn spec_len(&self) -> int {
        self.len as int
    }

    /// The projections, one after the other, as bit patterns.
    pub closed spec fn projections(&self) -> Seq<u32> {
        self.lsh@
    }

    pub closed spec fn ring_hashes(&self) -> Seq<u64> {
        self.hashes@
    }

    pub closed spec fn ring_tokens(&self) -> Seq<usize> {
        self.tokens@
    }

    pub closed spec fn ring_positions(&self) -> Seq<usize> {
        self.positions@
    }

    pub proof fn lemma_extents_are_sizes(&self)
        ensures
            0 <= self.spec_capacity() <= usize::MAX,
            0 <= self.spec_num_bits() <= usize::MAX,
            0 <= self.spec_embed_dim() <= usize::MAX,
            0 <= self.spec_draft_length() <= usize::MAX,
            0 <= self.spec_head() <= usize::MAX,
            0 <= self.spec_len() <= usize::MAX,
    {
    }

    /// All vectors have the extent that the numbers say.
    pub open spec fn sized(&self) -> bool {
        &&& self.ring_hashes().len() == self.spec_capacity()
        &&& self.ring_tokens().len() == self.spec_capacity()
        &&& self.ring_positions().len() == self.spec_capacity()
        &&& self.projections().len() == self.spec_num_bits() * self.spec_embed_dim()
    }

    /// There is a place for the next observation.
    pub open spec fn writable(&self) -> bool {
        self.sized() && self.spec_head() < self.spec_capacity()
    }

    /// Every observation that a search looks at has a place.
    pub open spec fn searchable(&self) -> bool {
        self.sized() && (self.spec_len() < 2 || 0 < self.spec_capacity())
    }

    /// Every observation that a draft looks at has a place, and distances can be
    /// compared with the number of bits.
    pub open spec fn draftable(&self) -> bool {
        &&& self.sized()
        &&& self.spec_len() <= self.spec_draft_length() || 0 < self.spec_capacity()
        &&& self.spec_num_bits() < u32::MAX
    }

    /// The ring is in order: the next write goes behind the newest entry.  A ring
    /// that was filled by observations is; one out of a file may not be, and is
    /// used as it is.
    pub open spec fn in_order(&self) -> bool {
        &&& self.writable()
        &&& self.spec_len() <= self.spec_capacity()
        &&& self.spec_len() < self.spec_capacity() ==> self.spec_head() == self.spec_len()
    }

    /// An empty ring with the given projections.
    pub fn new(
        embed_dim: usize,
        num_bits: usize,
        capacity: usize,
        draft_length: usize,
        lsh: Vec<u32>,
    ) -> (d: Self)
        requires
            lsh@.len() == num_bits * embed_dim,
        ensures
            d.sized(),
            d@ == Seq::<Observation>::empty(),
            d.spec_head() == 0,
            0 < capacity ==> d.in_order(),
            d.spec_embed_dim() == embed_dim,
            d.spec_num_bits() == num_bits,
            d.spec_capacity() == capacity,
            d.spec_draft_length() == draft_length,
            d.projections() == lsh@,
    {
        let d = PatternDraft {
            hashes: vec![0u64; capacity],
            tokens: vec![0usize; capacity],
            positions: vec![0usize; capacity],
            head: 0,
            len: 0,
            capacity,
            lsh,
            num_bits,
            embed_dim,
            draft_length,
        };
        assert(d@ =~= Seq::<Observation>::empty());
        d
    }

    /// An empty ring of the default extent.
    pub fn new_default(embed_dim: usize, lsh: Vec<u32>) -> (d: Self)
        requires
            lsh@.len() == DEFAULT_NUM_BITS * embed_dim,
        ensures
            d.in_order(),
            d@ == Seq::<Observation>::empty(),
            d.spec_embed_dim() == embed_dim,
            d.spec_num_bits() == DEFAULT_NUM_BITS,
            d.spec_capacity() == DEFAULT_CAPACITY,
            d.spec_draft_length() == DEFAULT_DRAFT_LENGTH,
            d.projections() == lsh@,
    {
        Self::new(embed_dim, DEFAULT_NUM_BITS, DEFAULT_CAPACITY, DEFAULT_DRAFT_LENGTH, lsh)
    }

    /// A ring out of its parts, whether or not they fit together.
    pub fn from_parts(
        embed_dim: usize,
        num_bits: usize,
        draft_length: usize,
        head: usize,
        len: usize,
        lsh: Vec<u32>,
        hashes: Vec<u64>,
        tokens: Vec<usize>,
        positions: Vec<usize>,
    ) -> (d: Self)
        ensures
            d.spec_embed_dim() == embed_dim,
            d.spec_num_bits() == num_bits,
            d.spec_capacity() == hashes@.len(),
            d.spec_draft_length() == draft_length,
            d.spec_head() == head,
            d.spec_len() == len,
            d.projections() == lsh@,
            d.ring_hashes() == hashes@,
            d.ring_tokens() == tokens@,
            d.ring_positions() == positions@,
    {
        let capacity: usize = hashes.len();
        PatternDraft {
            hashes,
            tokens,
            positions,
            head,
            len,
            capacity,
            lsh,
            num_bits,
            embed_dim,
            draft_length,
        }
    }

    /// Whether there is a place for the next observation.
    pub fn can_observe(&self) -> (b: bool)
        requires
            self.sized(),
        ensures
            b == self.writable(),
    {
        self.head < self.capacity
    }

    /// Whether past positions can be searched.
    pub fn can_search(&self) -> (b: bool)
        requires
            self.sized(),
        ensures
            b == self.searchable(),
    {
        self.len < 2 || 0 < self.capacity
    }

    /// Whether tokens can be drafted.
    pub fn can_draft(&self) -> (b: bool)
        requires
            self.sized(),
        ensures
            b == self.draftable(),
    {
        (self.len <= self.draft_length || 0 < self.capacity) && self.num_bits < 0xffff_ffff
    }

    pub fn embed_dim(&self) -> (n: usize)
        ensures
            n == self.spec_embed_dim(),
    {
        self.embed_dim
    }

    pub fn num_bits(&self) -> (n: usize)
        ensures
            n == self.spec_num_bits(),
    {
        self.num_bits
    }

    pub fn capacity(&self) -> (n: usize)
        ensures
            n == self.spec_capacity(),
    {
        self.capacity
    }

    pub fn draft_length(&self) -> (n: usize)
        ensures
            n == self.spec_draft_length(),
    {
        self.draft_length
    }

    /// Where the next observation goes.
    pub fn head(&self) -> (n: usize)
        ensures
            n == self.spec_head(),
    {
        self.head
    }

    /// How many observations there are.
    pub fn len(&self) -> (n: usize)
        ensures
            n == self.spec_len(),
            n == self@.len(),
    {
        self.len
    }

    pub fn lsh(&self) -> (r: &Vec<u32>)
        ensures
            r@ == self.projections(),
    {
        &self.lsh
    }

    pub fn hashes(&self) -> (r: &Vec<u64>)
        ensures
            r@ == self.ring_hashes(),
    {
        &self.hashes
    }

    pub fn tokens(&self) -> (r: &Vec<usize>)
        ensures
            r@ == self.ring_tokens(),
    {
        &self.tokens
    }

    pub fn positions(&self) -> (r: &Vec<usize>)
        ensures
            r@ == self.ring_positions(),
    {
        &self.positions
    }

    /// Where the `logical`-th oldest observation is kept.
    fn ordered_idx(&self, logical: usize) -> (r: Option<usize>)
        requires
            self.sized(),
            0 < self.capacity,
        ensures
            r is Some <==> logical < self@.len(),
            r matches Some(s) ==> s < self.capacity && self.stored_at(s as int)
                == self@[logical as int] && s == self.place(logical as int),
    {
        if logical >= self.len {
            return None;
        }
        if self.len < self.capacity {
            Some(logical)
        } else {
            Some(((self.head as u128 + logical as u128) % self.capacity as u128) as usize)
        }
    }

    /// Adds an observation without a position.
    pub fn observe(&mut self, hash: u64, token: usize)
        requires
            old(self).writable(),
        ensures
            old(self).observed(Observation { hash, token, position: 0 }, final(self)),
            old(self).in_order() ==> final(self).in_order() && final(self)@ == after_observation(
                old(self)@,
                old(self).spec_capacity(),
                Observation { hash, token, position: 0 },
            ),
    {
        self.observe_at(hash, token, 0);
    }

    /// Adds an observation; a full ring drops its oldest.
    pub fn observe_at(&mut self, hash: u64, token: usize, pos: usize)
        requires
            old(self).writable(),
        ensures
            old(self).observed(Observation { hash, token, position: pos }, final(self)),
            old(self).in_order() ==> final(self).in_order() && final(self)@ == after_observation(
                old(self)@,
                old(self).spec_capacity(),
                Observation { hash, token, position: pos },
            ),
    {
        let ghost before = *self;
        let h: usize = self.head;
        self.hashes.set(h, hash);
        self.tokens.set(h, token);
        self.positions.set(h, pos);
        self.head = if h + 1 == self.capacity {
            0
        } else {
            h + 1
        };
        if self.len < self.capacity {
            self.len = self.len + 1;
        }
        proof {
            if before.head + 1 < before.capacity {
                vstd::arithmetic::div_mod::lemma_small_mod(
                    (before.head + 1) as nat,
                    before.capacity as nat,
                );
            } else {
                vstd::arithmetic::div_mod::lemma_mod_self_0(before.capacity as int);
            }
            if before.in_order() {
                let o = Observation { hash, token, position: pos };
                let want = after_observation(before@, before.capacity as int, o);
                let cap = self.capacity as int;
                assert(self@.len() == want.len());
                assert forall|i: int| 0 <= i < want.len() implies self@[i] == want[i] by {
                    if before.len < before.capacity {
                        if self.len == self.capacity {
                            lemma_ring(self.head as int, i, cap);
                        }
                    } else {
                        lemma_ring(self.head as int, i, cap);
                        if i + 1 < want.len() {
                            lemma_ring(before.head as int, i + 1, cap);
                        }
                    }
                }
                assert(self@ =~= want);
            }
        }
    }

    /// Writing `o` at the head turns this ring into `after`.
    pub open spec fn observed(&self, o: Observation, after: &Self) -> bool {
        &&& after.writable()
        &&& after.same_setup(self)
        &&& after.ring_hashes() == self.ring_hashes().update(self.spec_head(), o.hash)
        &&& after.ring_tokens() == self.ring_tokens().update(self.spec_head(), o.token)
        &&& after.ring_positions() == self.ring_positions().update(self.spec_head(), o.position)
        &&& after.spec_head() == (self.spec_head() + 1) % self.spec_capacity()
        &&& after.spec_len() == (if self.spec_len() < self.spec_capacity() {
            self.spec_len() + 1
        } else {
            self.spec_len()
        })
    }

    pub open spec fn same_setup(&self, other: &Self) -> bool {
        &&& self.spec_capacity() == other.spec_capacity()
        &&& self.spec_num_bits() == other.spec_num_bits()
        &&& self.spec_embed_dim() == other.spec_embed_dim()
        &&& self.spec_draft_length() == other.spec_draft_length()
        &&& self.projections() == other.projections()
    }
}

/// Place of the first observation, below `n`, with the least distance to
/// `hash`, or none where every distance is at least `limit`.
pub open spec fn nearest(past: Seq<Observation>, hash: u64, n: int, limit: int) -> Option<int>
    decreases n,
{
    if n <= 0 {
        None
    } else {
        let d = distance(hash, past[n - 1].hash);
        match nearest(past, hash, n - 1, limit) {
            None => if d < limit {
                Some(n - 1)
            } else {
                None
            },
            Some(j) => if d < distance(hash, past[j].hash) {
                Some(n - 1)
            } else {
                Some(j)
            },
        }
    }
}

/// How sure a match at distance `d` is, of hashes with `num_bits` bits.
pub open spec fn confidence(d: int, num_bits: int) -> Option<MatchConfidence> {
    if d == 0 {
        Some(MatchConfidence::Exact)
    } else if d <= num_bits / 4 {
        Some(MatchConfidence::Near)
    } else if d <= num_bits / 2 {
        Some(MatchConfidence::Far)
    } else {
        None
    }
}

/// What a query with `hash` drafts: the tokens that followed the nearest
/// observation, unless there are too few observations or it is too far.
pub open spec fn drafted(
    past: Seq<Observation>,
    hash: u64,
    num_bits: int,
    draft_length: int,
) -> Option<(Seq<usize>, MatchConfidence)> {
    if past.len() <= draft_length {
        None
    } else {
        match nearest(past, hash, past.len() - draft_length, num_bits + 1) {
            None => None,
            Some(j) => match confidence(distance(hash, past[j].hash) as int, num_bits) {
                None => None,
                Some(c) => Some(
                    (Seq::new(draft_length as nat, |i: int| past[j + 1 + i].token), c),
                ),
            },
        }
    }
}

/// Positions with their distances to `hash`, oldest first.
pub open spec fn position_distances(past: Seq<Observation>, hash: u64) -> Seq<(usize, u32)> {
    Seq::new(
        past.len(),
        |i: int| (past[i].position, distance(hash, past[i].hash) as u32),
    )
}

/// The candidates at distance `d`, in order.
pub open spec fn at_distance(s: Seq<(usize, u32)>, d: int) -> Seq<(usize, u32)>
    decreases s.len(),
{
    if s.len() == 0 {
        Seq::empty()
    } else if s.last().1 == d {
        at_distance(s.drop_last(), d).push(s.last())
    } else {
        at_distance(s.drop_last(), d)
    }
}

/// The candidates below distance `n`, nearest first, equals in order.
pub open spec fn by_distance(s: Seq<(usize, u32)>, n: int) -> Seq<(usize, u32)>
    decreases n,
{
    if n <= 0 {
        Seq::empty()
    } else {
        by_distance(s, n - 1) + at_distance(s, n - 1)
    }
}

/// The `n` observations nearest to `hash`: positions and distances, nearest
/// first, older ones first among equals.
pub open spec fn similar(past: Seq<Observation>, hash: u64, n: int) -> Seq<(usize, u32)> {
    if past.len() < 2 {
        Seq::empty()
    } else {
        let all = by_distance(position_distances(past, hash), 65);
        if n < all.len() {
            all.take(n)
        } else {
            all
        }
    }
}

impl PatternDraft {
    /// Offers the tokens that followed the most similar past state, each with
    /// how sure the match is.
    pub fn draft(&self, hash: u64) -> (r: (Vec<usize>, Vec<MatchConfidence>))
        requires
            self.draftable(),
        ensures
            match drafted(self@, hash, self.spec_num_bits(), self.spec_draft_length()) {
                None => r.0@.len() == 0 && r.1@.len() == 0,
                Some(t) => {
                    &&& r.0@ == t.0
                    &&& r.1@ == Seq::new(t.0.len(), |i: int| t.1)
                },
            },
    {
        if self.len <= self.draft_length {
            return (Vec::new(), Vec::new());
        }
        let ghost past = self@;
        let search_len: usize = self.len - self.draft_length;
        let limit: u32 = self.num_bits as u32 + 1;
        let mut best_idx: Option<usize> = None;
        let mut best_dist: u32 = limit;
        let mut logical: usize = 0;
        while logical < search_len
            invariant
                self.sized(),
                0 < self.capacity,
                past == self@,
                logical <= search_len,
                search_len == self.len - self.draft_length,
                limit == self.num_bits + 1,
                match nearest(past, hash, logical as int, limit as int) {
                    None => best_idx is None && best_dist == limit,
                    Some(j) => best_idx == Some(j as usize) && 0 <= j < logical && best_dist
                        == distance(hash, past[j].hash),
                },
            decreases search_len - logical,
        {
            if let Some(storage) = self.ordered_idx(logical) {
                let dist: u32 = count_ones(hash ^ self.hashes[storage]);
                assert(self.hashes@[storage as int] == past[logical as int].hash);
                if dist < best_dist {
                    best_dist = dist;
                    best_idx = Some(logical);
                }
            }
            logical = logical + 1;
        }
        let found: usize = match best_idx {
            Some(j) => j,
            None => {
                return (Vec::new(), Vec::new());
            },
        };
        let sure = if best_dist == 0 {
            MatchConfidence::Exact
        } else if best_dist <= self.num_bits as u32 / 4 {
            MatchConfidence::Near
        } else if best_dist <= self.num_bits as u32 / 2 {
            MatchConfidence::Far
        } else {
            return (Vec::new(), Vec::new());
        };
        let mut tokens: Vec<usize> = Vec::new();
        let mut confs: Vec<MatchConfidence> = Vec::new();
        let mut j: usize = 0;
        while j < self.draft_length
            invariant
                self.sized(),
                0 < self.capacity,
                past == self@,
                j <= self.draft_length,
                found + self.draft_length < past.len(),
                past.len() <= usize::MAX,
                tokens@.len() == j,
                confs@.len() == j,
                forall|i: int| 0 <= i < j ==> (#[trigger] tokens@[i]) == past[found + 1 + i].token,
                forall|i: int| 0 <= i < j ==> (#[trigger] confs@[i]) == sure,
            decreases self.draft_length - j,
        {
            if let Some(storage) = self.ordered_idx(found + 1 + j) {
                assert(self.tokens@[storage as int] == past[found + 1 + j].token);
                tokens.push(self.tokens[storage]);
                confs.push(sure);
            }
            j = j + 1;
        }
        proof {
            let t = drafted(past, hash, self.spec_num_bits(), self.spec_draft_length());
            assert(t is Some);
            assert(tokens@ =~= (t->0).0);
            assert(confs@ =~= Seq::new((t->0).0.len(), |i: int| sure));
        }
        (tokens, confs)
    }

    /// The positions of the `n` past states most similar to `hash`, with
    /// their distances.
    pub fn find_similar_positions(&self, hash: u64, n: usize) -> (r: Vec<(usize, u32)>)
        requires
            self.searchable(),
        ensures
            r@ == similar(self@, hash, n as int),
    {
        let mut r: Vec<(usize, u32)> = Vec::new();
        if self.len < 2 {
            return r;
        }
        let ghost past = self@;
        let ghost all = position_distances(past, hash);
        let mut candidates: Vec<(usize, u32)> = Vec::new();
        let mut logical: usize = 0;
        while logical < self.len
            invariant
                self.sized(),
                0 < self.capacity,
                past == self@,
                all == position_distances(past, hash),
                logical <= self.len,
                candidates@ == all.take(logical as int),
            decreases self.len - logical,
        {
            if let Some(storage) = self.ordered_idx(logical) {
                assert(self.hashes@[storage as int] == past[logical as int].hash);
                assert(self.positions@[storage as int] == past[logical as int].position);
                let dist: u32 = count_ones(hash ^ self.hashes[storage]);
                candidates.push((self.positions[storage], dist));
            }
            assert(all.take(logical + 1) =~= all.take(logical as int).push(all[logical as int]));
            logical = logical + 1;
        }
        assert(all.take(self.len as int) =~= all);
        let mut d: u32 = 0;
        while d < 65
            invariant
                d <= 65,
                candidates@ == all,
                r@ == by_distance(all, d as int),
            decreases 65 - d,
        {
            let ghost base = r@;
            let mut i: usize = 0;
            assert(all.take(0) =~= Seq::empty());
            assert(base + at_distance(all.take(0), d as int) =~= base);
            while i < candidates.len()
                invariant
                    i <= candidates@.len(),
                    candidates@ == all,
                    r@ == base + at_distance(all.take(i as int), d as int),
                decreases candidates@.len() - i,
            {
                let c: (usize, u32) = candidates[i];
                proof {
                    let longer = all.take(i + 1);
                    assert(longer.drop_last() =~= all.take(i as int));
                    assert(longer.last() == all[i as int]);
                }
                if c.1 == d {
                    r.push(c);
                    assert(r@ =~= base + at_distance(all.take(i + 1), d as int));
                }
                i = i + 1;
            }
            assert(all.take(all.len() as int) =~= all);
            d = d + 1;
        }
        r.truncate(n);
        proof {
            let sorted = by_distance(all, 65);
            if n < sorted.len() {
                assert(sorted.take(n as int) =~= sorted.subrange(0, n as int));
            }
        }
        r
    }
}

/// The match of a query is no farther than any candidate, and strictly
/// nearer than every older one.
pub proof fn law_nearest_is_first_of_the_least(
    past: Seq<Observation>,
    hash: u64,
    n: int,
    limit: int,
    i: int,
)
    requires
        0 <= i < n <= past.len(),
    ensures
        match nearest(past, hash, n, limit) {
            None => distance(hash, past[i].hash) >= limit,
            Some(j) => {
                &&& 0 <= j < n
                &&& distance(hash, past[j].hash) < limit
                &&& distance(hash, past[j].hash) <= distance(hash, past[i].hash)
                &&& i < j ==> distance(hash, past[j].hash) < distance(hash, past[i].hash)
            },
        },
    decreases n,
{
    assert(nearest(past, hash, 0, limit) is None);
    if n > 1 {
        law_nearest_is_first_of_the_least(
            past,
            hash,
            n - 1,
            limit,
            if i < n - 1 {
                i
            } else {
                0
            },
        );
    }
}

/// Similar positions come nearest first, and there are as many as asked for
/// or as there are observations.
pub proof fn law_similar_positions_are_sorted(past: Seq<Observation>, hash: u64, n: int)
    requires
        0 <= n,
    ensures
        forall|i: int, j: int|
            0 <= i <= j < similar(past, hash, n).len() ==> (#[trigger] similar(past, hash, n)[i]).1
                <= (#[trigger] similar(past, hash, n)[j]).1,
        past.len() >= 2 ==> similar(past, hash, n).len() == (if n < past.len() {
            n
        } else {
            past.len() as int
        }),
{
    let all = position_distances(past, hash);
    assert forall|i: int| 0 <= i < all.len() implies (#[trigger] all[i]).1 < 65 by {
        law_distance(hash, past[i].hash);
    }
    lemma_by_distance_sorted(all, 65);
    lemma_by_distance_complete(all);
    by_distance(all, 65).to_multiset_ensures();
    all.to_multiset_ensures();
}

/// Sorting by distance keeps every observation exactly once.
pub proof fn law_sorting_keeps_observations(past: Seq<Observation>, hash: u64)
    ensures
        by_distance(position_distances(past, hash), 65).to_multiset() == position_distances(
            past,
            hash,
        ).to_multiset(),
{
    let all = position_distances(past, hash);
    assert forall|i: int| 0 <= i < all.len() implies (#[trigger] all[i]).1 < 65 by {
        law_distance(hash, past[i].hash);
    }
    lemma_by_distance_complete(all);
}

proof fn lemma_at_distance_values(s: Seq<(usize, u32)>, d: int)
    ensures
        forall|i: int| 0 <= i < at_distance(s, d).len() ==> (#[trigger] at_distance(s, d)[i]).1 == d,
    decreases s.len(),
{
    if s.len() > 0 {
        let shorter = at_distance(s.drop_last(), d);
        lemma_at_distance_values(s.drop_last(), d);
        assert forall|i: int| 0 <= i < at_distance(s, d).len() implies (#[trigger] at_distance(
            s,
            d,
        )[i]).1 == d by {
            if i < shorter.len() {
                assert(at_distance(s, d)[i] == shorter[i]);
            }
        }
    }
}

proof fn lemma_by_distance_sorted(s: Seq<(usize, u32)>, n: int)
    requires
        0 <= n,
    ensures
        forall|i: int| 0 <= i < by_distance(s, n).len() ==> (#[trigger] by_distance(s, n)[i]).1 < n,
        forall|i: int, j: int|
            0 <= i <= j < by_distance(s, n).len() ==> (#[trigger] by_distance(s, n)[i]).1 <= (
            #[trigger] by_distance(s, n)[j]).1,
    decreases n,
{
    if n > 0 {
        lemma_by_distance_sorted(s, n - 1);
        lemma_at_distance_values(s, n - 1);
        let low = by_distance(s, n - 1);
        let high = at_distance(s, n - 1);
        let all = by_distance(s, n);
        assert forall|i: int| 0 <= i < all.len() implies (#[trigger] all[i]) == (if i < low.len() {
            low[i]
        } else {
            high[i - low.len()]
        }) by {}
        assert forall|i: int, j: int| 0 <= i <= j < all.len() implies (#[trigger] all[i]).1 <= (
        #[trigger] all[j]).1 by {
            if j < low.len() {
                assert(low[i].1 <= low[j].1);
            } else if i < low.len() {
                assert(low[i].1 < n - 1);
                assert(high[j - low.len()].1 == n - 1);
            } else {
                assert(high[i - low.len()].1 == n - 1);
                assert(high[j - low.len()].1 == n - 1);
            }
        }
        assert forall|i: int| 0 <= i < all.len() implies (#[trigger] all[i]).1 < n by {
            if i < low.len() {
                assert(low[i].1 < n - 1);
            } else {
                assert(high[i - low.len()].1 == n - 1);
            }
        }
    }
}

proof fn lemma_at_distance_count(s: Seq<(usize, u32)>, d: int, x: (usize, u32))
    ensures
        at_distance(s, d).to_multiset().count(x) == (if x.1 == d {
            s.to_multiset().count(x)
        } else {
            0
        }),
    decreases s.len(),
{
    broadcast use vstd::seq_lib::group_to_multiset_ensures;

    if s.len() > 0 {
        lemma_at_distance_count(s.drop_last(), d, x);
        assert(s =~= s.drop_last().push(s.last()));
    }
}

proof fn lemma_by_distance_count(s: Seq<(usize, u32)>, n: int, x: (usize, u32))
    requires
        0 <= n,
    ensures
        by_distance(s, n).to_multiset().count(x) == (if x.1 < n {
            s.to_multiset().count(x)
        } else {
            0
        }),
    decreases n,
{
    broadcast use vstd::seq_lib::group_to_multiset_ensures;

    if n > 0 {
        lemma_by_distance_count(s, n - 1, x);
        lemma_at_distance_count(s, n - 1, x);
        vstd::seq_lib::lemma_multiset_commutative(by_distance(s, n - 1), at_distance(s, n - 1));
    }
}

proof fn lemma_by_distance_complete(s: Seq<(usize, u32)>)
    requires
        forall|i: int| 0 <= i < s.len() ==> (#[trigger] s[i]).1 < 65,
    ensures
        by_distance(s, 65).to_multiset() == s.to_multiset(),
{
    broadcast use vstd::seq_lib::group_to_multiset_ensures;

    assert forall|x: (usize, u32)|
        by_distance(s, 65).to_multiset().count(x) == s.to_multiset().count(x) by {
        lemma_by_distance_count(s, 65, x);
        if s.to_multiset().count(x) > 0 {
            assert(s.contains(x));
        }
    }
    assert(by_distance(s, 65).to_multiset() =~= s.to_multiset());
}

/// The observations after one more.
pub open spec fn after_observation(
    past: Seq<Observation>,
    capacity: int,
    o: Observation,
) -> Seq<Observation> {
    if past.len() < capacity {
        past.push(o)
    } else {
        past.drop_first().push(o)
    }
}

proof fn lemma_ring(head: int, i: int, n: int)
    requires
        0 <= head < n,
        0 <= i < n,
    ensures
        (head + i) % n == (if i >= n - head {
            i - (n - head)
        } else {
            head + i
        }),
{
    if i >= n - head {
        vstd::arithmetic::div_mod::lemma_fundamental_div_mod_converse(
            head + i,
            n,
            1,
            i - (n - head),
        );
    } else {
        vstd::arithmetic::div_mod::lemma_small_mod((head + i) as nat, n as nat);
    }
}

/// How many of the lowest `n` bits differ.
pub open spec fn differing_bits(a: u64, b: u64, n: int) -> nat
    decreases n,
{
    if n <= 0 {
        0
    } else {
        differing_bits(a, b, n - 1) + (if bit(a, n - 1) != bit(b, n - 1) {
            1nat
        } else {
            0nat
        })
    }
}

spec fn ones_below(x: u64, n: int) -> nat
    decreases n,
{
    if n <= 0 {
        0
    } else {
        ones_below(x, n - 1) + (if bit(x, n - 1) {
            1nat
        } else {
            0nat
        })
    }
}

proof fn lemma_ones_below_half(x: u64, n: int)
    requires
        1 <= n <= 64,
    ensures
        ones_below(x, n) == x % 2 + ones_below(x / 2, n - 1),
    decreases n,
{
    if n == 1 {
        assert(((x >> 0u64) & 1 == 1) <==> x % 2 == 1) by (bit_vector);
        assert(ones_below(x, 0) == 0 && ones_below(x / 2, 0) == 0);
    } else {
        lemma_ones_below_half(x, n - 1);
        let k = (n - 1) as u64;
        let m = (n - 2) as u64;
        assert((x >> k) & 1 == ((x / 2) >> m) & 1) by (bit_vector)
            requires
                1 <= k < 64,
                m == k - 1,
        ;
        assert(bit(x, n - 1) == bit(x / 2, n - 2));
    }
}

proof fn lemma_ones_below(x: u64, n: int)
    requires
        0 <= n <= 64,
        x < pow_two(n as nat),
    ensures
        ones(x) == ones_below(x, n),
    decreases n,
{
    if n == 0 {
        assert(pow_two(0) == 1);
    } else {
        assert(pow_two(n as nat) == 2 * pow_two((n - 1) as nat));
        lemma_ones_below(x / 2, n - 1);
        lemma_ones_below_half(x, n);
        if x == 0 {
            assert(ones(0) == 0);
        }
    }
}

proof fn lemma_xor_bits(a: u64, b: u64, n: int)
    requires
        0 <= n <= 64,
    ensures
        ones_below(a ^ b, n) == differing_bits(a, b, n),
    decreases n,
{
    if n > 0 {
        lemma_xor_bits(a, b, n - 1);
        let k = (n - 1) as u64;
        assert(((a ^ b) >> k) & 1 == 1 <==> ((a >> k) & 1 == 1) != ((b >> k) & 1 == 1))
            by (bit_vector)
            requires
                k < 64,
        ;
    }
}

/// The distance of two hashes is the number of bits, of all sixty-four, in which
/// they differ.
pub proof fn law_distance_counts_bits(a: u64, b: u64)
    ensures
        distance(a, b) == differing_bits(a, b, 64),
{
    lemma_pow_two_64();
    lemma_ones_below(a ^ b, 64);
    lemma_xor_bits(a, b, 64);
}

/// A draft is made of the tokens that came right after one past observation.  Of all
/// observations that were followed by as many tokens as a draft has, none is nearer,
/// and no older one is as near.  At most half the bits differ; how sure the draft is
/// follows from how many do.  Where no draft is made, every such observation differs
/// in more than half the bits.
pub proof fn law_draft_follows_the_nearest(
    past: Seq<Observation>,
    hash: u64,
    num_bits: int,
    draft_length: int,
)
    requires
        0 <= num_bits,
        0 <= draft_length,
    ensures
        match drafted(past, hash, num_bits, draft_length) {
            Some((tokens, sure)) => exists|j: int|
                {
                    &&& 0 <= j
                    &&& j + draft_length < past.len()
                    &&& tokens.len() == draft_length
                    &&& forall|i: int|
                        0 <= i < draft_length ==> #[trigger] tokens[i] == past[j + 1 + i].token
                    &&& forall|i: int|
                        0 <= i && i + draft_length < past.len() ==> distance(
                            hash,
                            (#[trigger] past[i]).hash,
                        ) >= distance(hash, past[j].hash)
                    &&& forall|i: int|
                        0 <= i < j ==> distance(hash, (#[trigger] past[i]).hash) > distance(
                            hash,
                            past[j].hash,
                        )
                    &&& 2 * distance(hash, past[j].hash) <= num_bits
                    &&& sure == MatchConfidence::Exact <==> (#[trigger] past[j]).hash == hash
                    &&& sure == MatchConfidence::Near <==> past[j].hash != hash && 4 * distance(
                        hash,
                        past[j].hash,
                    ) <= num_bits
                },
            None => forall|i: int|
                0 <= i && i + draft_length < past.len() ==> 2 * distance(
                    hash,
                    (#[trigger] past[i]).hash,
                ) > num_bits,
        },
{
    let n = past.len() - draft_length;
    if n > 0 {
        assert forall|i: int| 0 <= i && i + draft_length < past.len() implies match nearest(
            past,
            hash,
            n,
            num_bits + 1,
        ) {
            None => distance(hash, (#[trigger] past[i]).hash) > num_bits,
            Some(j) => 0 <= j < n && distance(hash, past[j].hash) <= distance(hash, past[i].hash)
                && (i < j ==> distance(hash, past[j].hash) < distance(hash, past[i].hash)),
        } by {
            law_nearest_is_first_of_the_least(past, hash, n, num_bits + 1, i);
        }
        law_nearest_is_first_of_the_least(past, hash, n, num_bits + 1, 0);
        if let Some(j) = nearest(past, hash, n, num_bits + 1) {
            law_distance(hash, past[j].hash);
            assert(0 <= j < n);
            if let Some((tokens, sure)) = drafted(past, hash, num_bits, draft_length) {
                assert(past[j].hash == past[j].hash);
            }
        }
    }
}

/// A ring keeps the newest observations, in order, as many as it has room for.
pub proof fn law_ring_keeps_the_newest(past: Seq<Observation>, capacity: int, o: Observation)
    requires
        0 < capacity,
        past.len() <= capacity,
    ensures
        ({
            let all = past.push(o);
            let kept = after_observation(past, capacity, o);
            &&& kept.len() == (if all.len() <= capacity {
                all.len() as int
            } else {
                capacity
            })
            &&& kept == all.skip(all.len() - kept.len())
            &&& kept.last() == o
        }),
{
    let all = past.push(o);
    let kept = after_observation(past, capacity, o);
    assert(kept =~= all.skip(all.len() - kept.len()));
}

/// Each similar position is that of an observation, with the number of bits in which
/// it differs from the query, and an observation that is left out is no nearer than
/// any that is given.
pub proof fn law_similar_positions_are_the_nearest(
    past: Seq<Observation>,
    hash: u64,
    n: int,
    k: int,
    i: int,
)
    requires
        0 <= k < similar(past, hash, n).len(),
        0 <= i < past.len(),
        0 <= n,
    ensures
        exists|j: int|
            0 <= j < past.len() && (#[trigger] past[j]).position == similar(past, hash, n)[k].0
                && distance(hash, past[j].hash) == similar(past, hash, n)[k].1,
        similar(past, hash, n).contains((past[i].position, distance(hash, past[i].hash) as u32))
            || similar(past, hash, n)[k].1 <= distance(hash, past[i].hash),
{
    broadcast use vstd::seq_lib::group_to_multiset_ensures;

    let pairs = position_distances(past, hash);
    assert forall|j: int| 0 <= j < pairs.len() implies (#[trigger] pairs[j]).1 < 65 && pairs[j].1
        == distance(hash, past[j].hash) by {
        law_distance(hash, past[j].hash);
    }
    lemma_by_distance_complete(pairs);
    lemma_by_distance_sorted(pairs, 65);
    let all = by_distance(pairs, 65);
    let r = similar(past, hash, n);
    assert(r[k] == all[k]);
    assert(all.contains(r[k]));
    assert(pairs.to_multiset().count(r[k]) > 0);
    assert(pairs.contains(r[k]));
    let j = choose|j: int| 0 <= j < pairs.len() && pairs[j] == r[k];
    assert(past[j].position == r[k].0);
    let own = pairs[i];
    assert(pairs.contains(own));
    assert(pairs.to_multiset().count(own) > 0);
    assert(all.to_multiset().count(own) > 0);
    assert(all.contains(own));
    let at = choose|at: int| 0 <= at < all.len() && all[at] == own;
    if at < r.len() {
        assert(r[at] == own);
    } else {
        assert(all[k].1 <= all[at].1);
    }
}

/// Exact matches count ninety percent, near ones fifty and far ones ten.
pub proof fn law_confidence_in_percent(c: MatchConfidence)
    ensures
        c is Exact <==> c.spec_percent() == 90,
        c is Near <==> c.spec_percent() == 50,
        c is Far <==> c.spec_percent() == 10,
{
}

/// Writing an observation puts it where the head was, leaves all other places alone and
/// moves the head on by one, round the ring.
pub proof fn law_observation_goes_to_the_head(
    before: PatternDraft,
    o: Observation,
    after: PatternDraft,
    s: int,
)
    requires
        before.writable(),
        before.observed(o, &after),
        0 <= s < before.spec_capacity(),
        0 <= before.spec_head() < before.spec_capacity(),
        before.ring_hashes().len() == before.spec_capacity(),
        before.ring_tokens().len() == before.spec_capacity(),
        before.ring_positions().len() == before.spec_capacity(),
    ensures
        after.stored_at(before.spec_head()) == o,
        s != before.spec_head() ==> after.stored_at(s) == before.stored_at(s),
        before.spec_head() + 1 < before.spec_capacity() ==> after.spec_head()
            == before.spec_head() + 1,
        before.spec_head() + 1 == before.spec_capacity() ==> after.spec_head() == 0,
        before.spec_len() < before.spec_capacity() ==> after.spec_len() == before.spec_len() + 1,
        before.spec_len() >= before.spec_capacity() ==> after.spec_len() == before.spec_len(),
        after.spec_capacity() == before.spec_capacity(),
        after.projections() == before.projections(),
{
    let head = before.spec_head() as nat;
    let cap = before.spec_capacity() as nat;
    if head + 1 < cap {
        vstd::arithmetic::div_mod::lemma_small_mod(head + 1, cap);
    } else {
        vstd::arithmetic::div_mod::lemma_mod_self_0(cap as int);
    }
}

/// A ring with places can be searched, and one without only where there is nothing to
/// look at: fewer than two observations, or no more than a draft takes.
pub proof fn law_rings_with_places_can_be_searched(d: PatternDraft)
    requires
        d.sized(),
    ensures
        d.spec_capacity() > 0 ==> d.searchable(),
        d.spec_capacity() <= 0 ==> (d.searchable() <==> d.spec_len() < 2),
        d.spec_capacity() > 0 && d.spec_num_bits() < u32::MAX ==> d.draftable(),
        d.spec_capacity() <= 0 && d.spec_num_bits() < u32::MAX ==> (d.draftable()
            <==> d.spec_len() <= d.spec_draft_length()),
        d.draftable() ==> d.spec_num_bits() < u32::MAX,
{
}

} // verus!
