//! The models of a process and the memory that they live in.

use vstd::prelude::*;

verus! {

/// Memory beside the weights that a model needs on the device.
pub const BUFFER_BYTES: usize = 536870912;

#[derive(Debug, Clone, Copy, PartialEq, Eq, Structural)]
pub enum MemoryTier {
    /// On the device.
    Vram,
    /// In main memory, to be moved to the device first.
    Ram,
    /// Never on the device.
    CpuOnly,
}

#[derive(Debug)]
pub struct ModelEntry {
    pub name: String,
    pub tier: MemoryTier,
    /// Bytes that the model needs on the device.
    pub vram_estimate: usize,
    /// Requests that use the model now.
    pub active_count: usize,
}

/// An entry as the contracts see it.
#[verifier::ext_equal]
pub struct EntryView {
    pub name: Seq<char>,
    pub tier: MemoryTier,
    pub vram_estimate: usize,
    pub active_count: usize,
}

impl View for ModelEntry {
    type V = EntryView;

    open spec fn view(&self) -> EntryView {
        EntryView {
            name: self.name@,
            tier: self.tier,
            vram_estimate: self.vram_estimate,
            active_count: self.active_count,
        }
    }
}

/// Place of the entry with a name, from place `i` on.
pub open spec fn entry_place(entries: Seq<EntryView>, name: Seq<char>, i: int) -> Option<int>
    decreases entries.len() - i,
{
    if i >= entries.len() {
        None
    } else if entries[i].name == name {
        Some(i)
    } else {
        entry_place(entries, name, i + 1)
    }
}

pub open spec fn find_entry(entries: Seq<EntryView>, name: Seq<char>) -> Option<int> {
    entry_place(entries, name, 0)
}

/// The entries after one is put under a name, in place of what was there.
pub open spec fn with_entry(entries: Seq<EntryView>, e: EntryView) -> Seq<EntryView> {
    match find_entry(entries, e.name) {
        Some(i) => entries.update(i, e),
        None => entries.push(e),
    }
}

/// The entries after one request more or less on a model.
pub open spec fn with_count(entries: Seq<EntryView>, name: Seq<char>, delta: int) -> Seq<EntryView> {
    match find_entry(entries, name) {
        Some(i) => {
            let n = entries[i].active_count + delta;
            let count = if n < 0 {
                0
            } else {
                n
            };
            entries.update(i, EntryView { active_count: count as usize, ..entries[i] })
        },
        None => entries,
    }
}

pub open spec fn names_differ(entries: Seq<EntryView>) -> bool {
    forall|i: int, j: int|
        0 <= i < j < entries.len() ==> (#[trigger] entries[i]).name != (#[trigger] entries[j]).name
}

/// Device memory in use by the first `n` entries, leaving out a name.
pub open spec fn active_vram(entries: Seq<EntryView>, but: Option<Seq<char>>, n: int) -> int
    decreases n,
{
    if n <= 0 {
        0
    } else {
        let e = entries[n - 1];
        active_vram(entries, but, n - 1) + (if e.tier == MemoryTier::Vram && e.active_count > 0
            && but != Some(e.name) {
            e.vram_estimate as int
        } else {
            0
        })
    }
}

/// The entry could leave the device.
pub open spec fn idle_on_device(e: EntryView) -> bool {
    e.active_count == 0 && e.tier == MemoryTier::Vram
}

/// The order in which models leave: smaller first, then registered earlier.
pub open spec fn leaves_before(entries: Seq<EntryView>, a: usize, b: usize) -> bool {
    entries[a as int].vram_estimate < entries[b as int].vram_estimate || (entries[a as int].vram_estimate
        == entries[b as int].vram_estimate && a < b)
}

pub struct ModelRegistry {
    entries: Vec<ModelEntry>,
}

impl View for ModelRegistry {
    type V = Seq<EntryView>;

    closed spec fn view(&self) -> Seq<EntryView> {
        Seq::new(self.entries@.len(), |i: int| self.entries@[i]@)
    }
}

/// Bytes that a model of the given size needs on the device.
pub fn vram_estimate(model_bytes: usize) -> (n: usize)
    requires
        model_bytes + BUFFER_BYTES <= usize::MAX,
    ensures
        n == model_bytes + BUFFER_BYTES,
{
    model_bytes + BUFFER_BYTES
}

impl ModelRegistry {
    /// No name is registered twice.
    pub open spec fn wf(&self) -> bool {
        names_differ(self@)
    }

    pub fn new() -> (r: Self)
        ensures
            r.wf(),
            r@ == Seq::<EntryView>::empty(),
    {
        let r = ModelRegistry { entries: Vec::new() };
        assert(r@ =~= Seq::<EntryView>::empty());
        r
    }

    fn place(&self, name: &str) -> (p: Option<usize>)
        ensures
            match find_entry(self@, name@) {
                Some(i) => p matches Some(k) && k == i && 0 <= i < self@.len() && self@[i].name
                    == name@,
                None => p is None,
            },
    {
        let wanted: String = name.to_owned();
        let mut i: usize = 0;
        while i < self.entries.len()
            invariant
                i <= self.entries@.len(),
                wanted@ == name@,
                find_entry(self@, name@) == entry_place(self@, name@, i as int),
            decreases self.entries@.len() - i,
        {
            assert(self@[i as int] == self.entries@[i as int]@);
            if self.entries[i].name == wanted {
                return Some(i);
            }
            i = i + 1;
        }
        None
    }

    /// Registers a model of the given size, in place of one with its name.
    pub fn register(&mut self, name: &str, model_bytes: usize, tier: MemoryTier)
        requires
            old(self).wf(),
            model_bytes + BUFFER_BYTES <= usize::MAX,
        ensures
            final(self).wf(),
            final(self)@ == with_entry(
                old(self)@,
                EntryView {
                    name: name@,
                    tier,
                    vram_estimate: (model_bytes + BUFFER_BYTES) as usize,
                    active_count: 0,
                },
            ),
    {
        let ghost before = self@;
        let entry = ModelEntry {
            name: name.to_owned(),
            tier,
            vram_estimate: vram_estimate(model_bytes),
            active_count: 0,
        };
        let ghost e = entry@;
        match self.place(name) {
            Some(i) => {
                self.entries.set(i, entry);
            },
            None => {
                proof {
                    assert forall|i: int| 0 <= i < before.len() implies (#[trigger] before[i]).name
                        != name@ by {
                        lemma_not_found(before, name@, 0, i);
                    }
                }
                self.entries.push(entry);
            },
        }
        assert(self@ =~= with_entry(before, e));
    }

    pub fn get(&self, name: &str) -> (r: Option<&ModelEntry>)
        ensures
            match find_entry(self@, name@) {
                Some(i) => r matches Some(e) && e@ == self@[i],
                None => r is None,
            },
    {
        match self.place(name) {
            Some(i) => Some(&self.entries[i]),
            None => None,
        }
    }

    /// One request more uses the model; whether it is registered.
    pub fn acquire(&mut self, name: &str) -> (b: bool)
        requires
            old(self).wf(),
            find_entry(old(self)@, name@) matches Some(i) ==> old(self)@[i].active_count
                < usize::MAX,
        ensures
            final(self).wf(),
            b == (find_entry(old(self)@, name@) is Some),
            final(self)@ == with_count(old(self)@, name@, 1),
    {
        let ghost before = self@;
        match self.place(name) {
            Some(i) => {
                let n: usize = self.entries[i].active_count + 1;
                self.entries[i].active_count = n;
                assert(self@ =~= with_count(before, name@, 1));
                true
            },
            None => false,
        }
    }

    /// One request less uses the model.
    pub fn release(&mut self, name: &str)
        requires
            old(self).wf(),
        ensures
            final(self).wf(),
            final(self)@ == with_count(old(self)@, name@, -1),
    {
        let ghost before = self@;
        if let Some(i) = self.place(name) {
            let n: usize = self.entries[i].active_count;
            self.entries[i].active_count = if n == 0 {
                0
            } else {
                n - 1
            };
            assert(self@ =~= with_count(before, name@, -1));
        }
    }

    /// The model at a place.
    pub fn entry_at(&self, place: usize) -> (e: Option<&ModelEntry>)
        ensures
            match e {
                Some(m) => place < self@.len() && m@ == self@[place as int],
                None => place >= self@.len(),
            },
    {
        if place < self.entries.len() {
            assert(self@[place as int] == self.entries@[place as int]@);
            Some(&self.entries[place])
        } else {
            None
        }
    }

    /// The models that could leave the device, by place, smaller ones first.
    pub fn swap_candidates(&self) -> (r: Vec<usize>)
        ensures
            forall|k: int|
                0 <= k < r@.len() ==> (#[trigger] r@[k]) < self@.len() && idle_on_device(
                    self@[r@[k] as int],
                ),
            forall|i: int|
                0 <= i < self@.len() && idle_on_device(#[trigger] self@[i]) ==> r@.contains(
                    i as usize,
                ),
            forall|j: int, k: int|
                0 <= j < k < r@.len() ==> leaves_before(
                    self@,
                    #[trigger] r@[j],
                    #[trigger] r@[k],
                ),
    {
        let ghost entries = self@;
        let mut r: Vec<usize> = Vec::new();
        let mut i: usize = 0;
        while i < self.entries.len()
            invariant
                i <= self.entries@.len(),
                entries == self@,
                forall|k: int|
                    0 <= k < r@.len() ==> (#[trigger] r@[k]) < i && idle_on_device(
                        entries[r@[k] as int],
                    ),
                forall|x: int|
                    0 <= x < i && idle_on_device(#[trigger] entries[x]) ==> r@.contains(x as usize),
                forall|j: int, k: int|
                    0 <= j < k < r@.len() ==> leaves_before(
                        entries,
                        #[trigger] r@[j],
                        #[trigger] r@[k],
                    ),
            decreases self.entries@.len() - i,
        {
            assert(entries[i as int] == self.entries@[i as int]@);
            if self.entries[i].active_count == 0 && self.entries[i].tier == MemoryTier::Vram {
                let size: usize = self.entries[i].vram_estimate;
                let mut at: usize = 0;
                while at < r.len() && self.entries[r[at]].vram_estimate <= size
                    invariant
                        at <= r@.len(),
                        i < self.entries@.len(),
                        entries == self@,
                        size == entries[i as int].vram_estimate,
                        forall|k: int| 0 <= k < r@.len() ==> (#[trigger] r@[k]) < i,
                        forall|k: int|
                            0 <= k < at ==> entries[(#[trigger] r@[k]) as int].vram_estimate
                                <= size,
                    ensures
                        at <= r@.len(),
                        at < r@.len() ==> entries[r@[at as int] as int].vram_estimate > size,
                        forall|k: int|
                            0 <= k < at ==> entries[(#[trigger] r@[k]) as int].vram_estimate
                                <= size,
                    decreases r@.len() - at,
                {
                    assert(entries[r@[at as int] as int] == self.entries@[r@[at as int] as int]@);
                    at = at + 1;
                }
                let ghost before = r@;
                r.insert(at, i);
                proof {
                    let after = r@;
                    assert forall|k: int| 0 <= k < after.len() implies #[trigger] after[k] == (
                    if k < at {
                        before[k]
                    } else if k == at {
                        i
                    } else {
                        before[k - 1]
                    }) by {}
                    assert forall|x: int|
                        0 <= x < i + 1 && idle_on_device(#[trigger] entries[x]) implies after.contains(
                        x as usize,
                    ) by {
                        if x == i {
                            assert(after[at as int] == i);
                        } else {
                            let k = before.index_of(x as usize);
                            assert(before[k] == x as usize);
                            if k < at {
                                assert(after[k] == x as usize);
                            } else {
                                assert(after[k + 1] == x as usize);
                            }
                        }
                    }
                    assert forall|j: int, k: int| 0 <= j < k < after.len() implies leaves_before(
                        entries,
                        #[trigger] after[j],
                        #[trigger] after[k],
                    ) by {
                        if j < at && k < at {
                            assert(leaves_before(entries, before[j], before[k]));
                        } else if j < at && k == at {
                            assert(entries[before[j] as int].vram_estimate <= size);
                        } else if j < at {
                            assert(leaves_before(entries, before[j], before[k - 1]));
                        } else if j == at {
                            if k - 1 > at {
                                assert(leaves_before(entries, before[at as int], before[k - 1]));
                            }
                        } else {
                            assert(leaves_before(entries, before[j - 1], before[k - 1]));
                        }
                    }
                }
            }
            i = i + 1;
        }
        r
    }

    /// Whether the device memory of the models in use can be counted.
    pub fn vram_is_countable(&self) -> (b: bool)
        ensures
            b == (active_vram(self@, None, self@.len() as int) <= usize::MAX),
    {
        let mut n: usize = 0;
        let mut i: usize = 0;
        while i < self.entries.len()
            invariant
                i <= self.entries@.len(),
                n == active_vram(self@, None, i as int),
            decreases self.entries@.len() - i,
        {
            assert(self@[i as int] == self.entries@[i as int]@);
            proof {
                lemma_active_grows(self@, None, i + 1, self@.len() as int);
            }
            let e = &self.entries[i];
            if e.tier == MemoryTier::Vram && e.active_count > 0 {
                if e.vram_estimate > usize::MAX - n {
                    return false;
                }
                n = n + e.vram_estimate;
            }
            i = i + 1;
        }
        true
    }

    /// Device memory of the models in use.
    pub fn total_vram_active(&self) -> (n: usize)
        requires
            active_vram(self@, None, self@.len() as int) <= usize::MAX,
        ensures
            n == active_vram(self@, None, self@.len() as int),
    {
        let mut n: usize = 0;
        let mut i: usize = 0;
        while i < self.entries.len()
            invariant
                i <= self.entries@.len(),
                n == active_vram(self@, None, i as int),
                active_vram(self@, None, self@.len() as int) <= usize::MAX,
            decreases self.entries@.len() - i,
        {
            assert(self@[i as int] == self.entries@[i as int]@);
            proof {
                lemma_active_grows(self@, None, i + 1, self@.len() as int);
            }
            if self.entries[i].tier == MemoryTier::Vram && self.entries[i].active_count > 0 {
                n = n + self.entries[i].vram_estimate;
            }
            i = i + 1;
        }
        n
    }

    /// Device memory of the models in use, leaving out one.
    pub fn vram_active_but(&self, name: &str) -> (n: usize)
        requires
            active_vram(self@, Some(name@), self@.len() as int) <= usize::MAX,
        ensures
            n == active_vram(self@, Some(name@), self@.len() as int),
    {
        let but: String = name.to_owned();
        let mut n: usize = 0;
        let mut i: usize = 0;
        while i < self.entries.len()
            invariant
                i <= self.entries@.len(),
                but@ == name@,
                n == active_vram(self@, Some(name@), i as int),
                active_vram(self@, Some(name@), self@.len() as int) <= usize::MAX,
            decreases self.entries@.len() - i,
        {
            assert(self@[i as int] == self.entries@[i as int]@);
            proof {
                lemma_active_grows(self@, Some(name@), i + 1, self@.len() as int);
            }
            let same: bool = self.entries[i].name == but;
            if self.entries[i].tier == MemoryTier::Vram && self.entries[i].active_count > 0
                && !same {
                n = n + self.entries[i].vram_estimate;
            }
            i = i + 1;
        }
        n
    }

    /// Whether a request uses the model now.
    pub fn is_active(&self, name: &str) -> (b: bool)
        ensures
            b == (find_entry(self@, name@) matches Some(i) && self@[i].active_count > 0),
    {
        match self.place(name) {
            Some(i) => self.entries[i].active_count > 0,
            None => false,
        }
    }
}

proof fn lemma_not_found(entries: Seq<EntryView>, name: Seq<char>, from: int, i: int)
    requires
        0 <= from <= i < entries.len(),
        entry_place(entries, name, from) is None,
    ensures
        entries[i].name != name,
    decreases i - from,
{
    if from < i {
        lemma_not_found(entries, name, from + 1, i);
    }
}

proof fn lemma_active_grows(entries: Seq<EntryView>, but: Option<Seq<char>>, a: int, b: int)
    requires
        0 <= a <= b <= entries.len(),
    ensures
        0 <= active_vram(entries, but, a) <= active_vram(entries, but, b),
    decreases b,
{
    if a < b {
        lemma_active_grows(entries, but, a, b - 1);
    } else if a > 0 {
        lemma_active_grows(entries, but, a - 1, a - 1);
    }
}

/// A request that takes a model and gives it back leaves the registry as it
/// was.
pub proof fn law_release_undoes_acquire(entries: Seq<EntryView>, name: Seq<char>)
    requires
        find_entry(entries, name) matches Some(i) ==> 0 <= i < entries.len()
            && entries[i].active_count < usize::MAX,
    ensures
        with_count(with_count(entries, name, 1), name, -1) == entries,
{
    let more = with_count(entries, name, 1);
    assert forall|i: int| 0 <= i <= entries.len() implies entry_place(more, name, i)
        == #[trigger] entry_place(entries, name, i) by {
        lemma_same_names(entries, more, name, i);
    }
    assert(find_entry(more, name) == find_entry(entries, name));
    assert(with_count(more, name, -1) =~= entries);
}

proof fn lemma_same_names(a: Seq<EntryView>, b: Seq<EntryView>, name: Seq<char>, i: int)
    requires
        a.len() == b.len(),
        0 <= i <= a.len(),
        forall|k: int| 0 <= k < a.len() ==> a[k].name == (#[trigger] b[k]).name,
    ensures
        entry_place(a, name, i) == entry_place(b, name, i),
    decreases a.len() - i,
{
    if i < a.len() {
        assert(a[i].name == b[i].name);
        lemma_same_names(a, b, name, i + 1);
    }
}

/// A model is found by its name: the first one of that name, if there is any.
pub proof fn law_model_is_found(entries: Seq<EntryView>, name: Seq<char>, k: int)
    requires
        0 <= k < entries.len(),
    ensures
        match find_entry(entries, name) {
            Some(p) => 0 <= p < entries.len() && entries[p].name == name && (entries[k].name == name
                ==> p <= k),
            None => entries[k].name != name,
        },
{
    lemma_entry_found(entries, name, 0, k);
}

proof fn lemma_entry_found(entries: Seq<EntryView>, name: Seq<char>, i: int, k: int)
    requires
        0 <= i <= entries.len(),
    ensures
        match entry_place(entries, name, i) {
            Some(p) => i <= p < entries.len() && entries[p].name == name && (i <= k < entries.len()
                && entries[k].name == name ==> p <= k),
            None => i <= k < entries.len() ==> entries[k].name != name,
        },
    decreases entries.len() - i,
{
    if i < entries.len() && entries[i].name != name {
        lemma_entry_found(entries, name, i + 1, k);
    }
}

/// What was registered under a name is what the name finds, and every other name finds
/// what it found before.
pub proof fn law_registered_model_is_found(
    entries: Seq<EntryView>,
    e: EntryView,
    other: Seq<char>,
)
    requires
        names_differ(entries),
        other != e.name,
    ensures
        names_differ(with_entry(entries, e)),
        find_entry(with_entry(entries, e), e.name) is Some,
        with_entry(entries, e)[find_entry(with_entry(entries, e), e.name)->0] == e,
        find_entry(with_entry(entries, e), other) == find_entry(entries, other),
        find_entry(entries, other) is Some ==> with_entry(entries, e)[find_entry(
            entries,
            other,
        )->0] == entries[find_entry(entries, other)->0],
{
    let after = with_entry(entries, e);
    lemma_entry_found(entries, e.name, 0, 0);
    lemma_entry_found(entries, other, 0, 0);
    lemma_entry_found(after, e.name, 0, 0);
    lemma_entry_found(after, other, 0, 0);
    let at = match find_entry(entries, e.name) {
        Some(i) => i,
        None => entries.len() as int,
    };
    assert(after[at] == e);
    lemma_entry_found(after, e.name, 0, at);
    assert forall|i: int, j: int| 0 <= i < j < after.len() implies (#[trigger] after[i]).name != (
    #[trigger] after[j]).name by {
        lemma_entry_found(entries, e.name, 0, i);
        lemma_entry_found(entries, e.name, 0, j);
    }
    if let Some(p) = find_entry(entries, other) {
        assert(after[p] == entries[p]);
        lemma_entry_found(after, other, 0, p);
        if let Some(q) = find_entry(after, other) {
            lemma_entry_found(entries, other, 0, q);
        }
    } else {
        if let Some(q) = find_entry(after, other) {
            lemma_entry_found(entries, other, 0, q);
        }
    }
}

/// The memory of one entry while it is in use on the device.
pub open spec fn memory_in_use(e: EntryView) -> int {
    if e.tier == MemoryTier::Vram && e.active_count > 0 {
        e.vram_estimate as int
    } else {
        0
    }
}

/// Using a model counts its memory once, with the first request, if it is on the device;
/// the counts of other models and all that is not a count stay as they were.
pub proof fn law_memory_counts_with_the_first_request(
    entries: Seq<EntryView>,
    name: Seq<char>,
    i: int,
    k: int,
)
    requires
        find_entry(entries, name) == Some(i),
        entries[i].active_count < usize::MAX,
        0 <= k < entries.len(),
    ensures
        ({
            let after = with_count(entries, name, 1);
            let n = entries.len() as int;
            &&& after[i].active_count == entries[i].active_count + 1
            &&& k != i ==> after[k] == entries[k]
            &&& after[k] == (EntryView { active_count: after[k].active_count, ..entries[k] })
            &&& active_vram(after, None, n) == active_vram(entries, None, n) + (if entries[i].tier
                == MemoryTier::Vram && entries[i].active_count == 0 {
                entries[i].vram_estimate as int
            } else {
                0
            })
        }),
{
    lemma_entry_found(entries, name, 0, 0);
    lemma_sum_after_update(
        entries,
        i,
        with_count(entries, name, 1)[i],
        entries.len() as int,
    );
}

proof fn lemma_sum_after_update(entries: Seq<EntryView>, i: int, e: EntryView, n: int)
    requires
        0 <= i < entries.len(),
        0 <= n <= entries.len(),
    ensures
        active_vram(entries.update(i, e), None, n) == active_vram(entries, None, n) + (if i < n {
            memory_in_use(e) - memory_in_use(entries[i])
        } else {
            0
        }),
    decreases n,
{
    if n > 0 {
        lemma_sum_after_update(entries, i, e, n - 1);
    }
}

/// Leaving a model out takes the memory of that model off, and nothing else.
pub proof fn law_left_out_model_does_not_count(entries: Seq<EntryView>, name: Seq<char>, i: int)
    requires
        names_differ(entries),
        find_entry(entries, name) == Some(i),
    ensures
        active_vram(entries, Some(name), entries.len() as int) + memory_in_use(entries[i])
            == active_vram(entries, None, entries.len() as int),
{
    lemma_entry_found(entries, name, 0, 0);
    lemma_left_out(entries, name, i, entries.len() as int);
}

proof fn lemma_left_out(entries: Seq<EntryView>, name: Seq<char>, i: int, n: int)
    requires
        names_differ(entries),
        0 <= i < entries.len(),
        entries[i].name == name,
        0 <= n <= entries.len(),
    ensures
        active_vram(entries, Some(name), n) + (if i < n {
            memory_in_use(entries[i])
        } else {
            0
        }) == active_vram(entries, None, n),
    decreases n,
{
    if n > 0 {
        lemma_left_out(entries, name, i, n - 1);
        if n - 1 < i {
            assert(entries[n - 1].name != entries[i].name);
        } else if n - 1 > i {
            assert(entries[i].name != entries[n - 1].name);
        }
    }
}

/// Smaller models leave first; of any two models one leaves before the other.
pub proof fn law_smaller_models_leave_first(entries: Seq<EntryView>, a: usize, b: usize)
    requires
        a != b,
    ensures
        leaves_before(entries, a, b) != leaves_before(entries, b, a),
        entries[a as int].vram_estimate < entries[b as int].vram_estimate ==> leaves_before(
            entries,
            a,
            b,
        ),
{
}

/// A model can leave the device exactly if it lies there and no request uses it, so that
/// its memory does not count.
pub proof fn law_only_unused_models_can_leave(e: EntryView)
    requires
        e.vram_estimate > 0,
    ensures
        idle_on_device(e) ==> memory_in_use(e) == 0,
        e.tier == MemoryTier::Vram && !idle_on_device(e) ==> memory_in_use(e) == e.vram_estimate,
        idle_on_device(e) ==> e.tier == MemoryTier::Vram,
{
}

/// Giving a model back takes one request off it, unless it has none; with a request more
/// and one less the models are as they were.
pub proof fn law_giving_back_undoes_taking(entries: Seq<EntryView>, name: Seq<char>, i: int)
    requires
        find_entry(entries, name) == Some(i),
        entries[i].active_count < usize::MAX,
    ensures
        entries[i].active_count == 0 ==> with_count(entries, name, -1) == entries,
        entries[i].active_count > 0 ==> with_count(entries, name, -1)[i].active_count
            == entries[i].active_count - 1,
        with_count(with_count(entries, name, 1), name, -1) == entries,
{
    lemma_entry_found(entries, name, 0, 0);
    let more = with_count(entries, name, 1);
    lemma_entry_found(more, name, 0, i);
    if let Some(p) = find_entry(more, name) {
        lemma_entry_found(entries, name, 0, p);
    }
    assert(with_count(more, name, -1) =~= entries);
    assert(entries[i].active_count == 0 ==> with_count(entries, name, -1) =~= entries);
}

} // verus!
