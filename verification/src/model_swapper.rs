//! Which model is on the device, and which leaves for another.
//!
//! The model used longest ago leaves, unless a request uses it.

use crate::model_registry::{active_vram, find_entry, EntryView, MemoryTier, ModelEntry, ModelRegistry};
use vstd::prelude::*;

verus! {

/// Swaps that are remembered.
pub const SWAP_LOG_CAPACITY: usize = 32;

/// A swap that was done; the duration is a double, as a bit pattern.
#[derive(Debug)]
pub struct SwapEvent {
    pub model_out: String,
    pub model_in: String,
    pub duration_ms: u64,
}

#[derive(Debug)]
pub enum SwapAction {
    AlreadyHot,
    /// Load the model, after another has left where one is named.
    SwapIn { evict: Option<String> },
}

pub struct ModelSwapper {
    lru_order: Vec<String>,
    swap_log: Vec<SwapEvent>,
    predicted_next: Option<String>,
    capacity: usize,
}

/// Place of a name, from place `i` on.
pub open spec fn name_place(names: Seq<Seq<char>>, name: Seq<char>, i: int) -> Option<int>
    decreases names.len() - i,
{
    if i >= names.len() {
        None
    } else if names[i] == name {
        Some(i)
    } else {
        name_place(names, name, i + 1)
    }
}

/// The names after one was used: it moves to the end.
pub open spec fn touched(names: Seq<Seq<char>>, name: Seq<char>) -> Seq<Seq<char>> {
    match name_place(names, name, 0) {
        Some(i) => names.remove(i).push(name),
        None => names.push(name),
    }
}

/// The model is in use.
pub open spec fn in_use(entries: Seq<EntryView>, name: Seq<char>) -> bool {
    find_entry(entries, name) matches Some(i) && entries[i].active_count > 0
}

/// Place of the name that leaves for `name`: the first, from place `i` on,
/// that is another and not in use.
pub open spec fn leaving(
    names: Seq<Seq<char>>,
    name: Seq<char>,
    entries: Seq<EntryView>,
    i: int,
) -> Option<int>
    decreases names.len() - i,
{
    if i >= names.len() {
        None
    } else if names[i] != name && !in_use(entries, names[i]) {
        Some(i)
    } else {
        leaving(names, name, entries, i + 1)
    }
}

/// The model fits beside those in use.
pub open spec fn fits(capacity: int, estimate: int, name: Seq<char>, entries: Seq<EntryView>) -> bool {
    let used = active_vram(entries, Some(name), entries.len() as int);
    let available = if capacity > used {
        capacity - used
    } else {
        0
    };
    available >= estimate
}

impl View for ModelSwapper {
    type V = Seq<Seq<char>>;

    /// The names of the models, the one used longest ago first.
    closed spec fn view(&self) -> Seq<Seq<char>> {
        Seq::new(self.lru_order@.len(), |i: int| self.lru_order@[i]@)
    }
}

impl ModelSwapper {
    /// Device memory for models, in bytes.
    pub closed spec fn spec_capacity(&self) -> int {
        self.capacity as int
    }

    pub closed spec fn log(&self) -> Seq<SwapEvent> {
        self.swap_log@
    }

    /// Memory and remembered swaps are as before.
    pub open spec fn same_memory(&self, other: &Self) -> bool {
        self.spec_capacity() == other.spec_capacity() && self.log() == other.log()
    }

    /// The model that will be needed next.
    pub closed spec fn predicted(&self) -> Option<Seq<char>> {
        match self.predicted_next {
            Some(s) => Some(s@),
            None => None,
        }
    }

    pub fn new(vram_capacity_bytes: usize) -> (s: Self)
        ensures
            s@ == Seq::<Seq<char>>::empty(),
            s.spec_capacity() == vram_capacity_bytes,
            s.log() == Seq::<SwapEvent>::empty(),
            s.predicted() is None,
    {
        let s = ModelSwapper {
            lru_order: Vec::new(),
            swap_log: Vec::new(),
            predicted_next: None,
            capacity: vram_capacity_bytes,
        };
        assert(s@ =~= Seq::<Seq<char>>::empty());
        s
    }

    pub fn vram_capacity(&self) -> (n: usize)
        ensures
            n == self.spec_capacity(),
    {
        self.capacity
    }

    /// The model was used: it is now the most recent.
    pub fn touch(&mut self, name: &str)
        ensures
            final(self)@ == touched(old(self)@, name@),
            final(self).spec_capacity() == old(self).spec_capacity(),
            final(self).log() == old(self).log(),
            final(self).predicted() == old(self).predicted(),
    {
        let ghost before = self@;
        let wanted: String = name.to_owned();
        let mut i: usize = 0;
        let mut found: Option<usize> = None;
        while i < self.lru_order.len() && found.is_none()
            invariant
                i <= self.lru_order@.len(),
                before == self@,
                wanted@ == name@,
                match found {
                    None => name_place(before, name@, 0) == name_place(before, name@, i as int),
                    Some(k) => name_place(before, name@, 0) == Some(k as int) && k
                        < self.lru_order@.len(),
                },
            decreases self.lru_order@.len() - i, if found is None { 1int } else { 0int },
        {
            assert(before[i as int] == self.lru_order@[i as int]@);
            if self.lru_order[i] == wanted {
                found = Some(i);
            } else {
                i = i + 1;
            }
        }
        if let Some(k) = found {
            let _ = self.lru_order.remove(k);
        }
        self.lru_order.push(wanted);
        assert(self@ =~= touched(before, name@));
    }

    /// Says which model will be needed next.
    pub fn predict_next(&mut self, name: Option<&str>)
        ensures
            final(self)@ == old(self)@,
            final(self).spec_capacity() == old(self).spec_capacity(),
            final(self).log() == old(self).log(),
            final(self).predicted() == (match name {
                Some(s) => Some(s@),
                None => None,
            }),
    {
        self.predicted_next = match name {
            Some(s) => Some(s.to_owned()),
            None => None,
        };
    }

    /// What has to be done to have a model on the device.
    pub fn check_swap(&mut self, name: &str, entry: &ModelEntry, registry: &ModelRegistry) -> (r:
        SwapAction)
        requires
            active_vram(registry@, Some(name@), registry@.len() as int) <= usize::MAX,
        ensures
            final(self).spec_capacity() == old(self).spec_capacity(),
            final(self).log() == old(self).log(),
            final(self).predicted() == old(self).predicted(),
            r is AlreadyHot <==> entry.tier == MemoryTier::Vram,
            r is AlreadyHot ==> final(self)@ == old(self)@,
            r matches SwapAction::SwapIn { evict } ==> {
                let place = leaving(old(self)@, name@, registry@, 0);
                if fits(
                    old(self).spec_capacity(),
                    entry.vram_estimate as int,
                    name@,
                    registry@,
                ) || place is None {
                    evict is None && final(self)@ == old(self)@
                } else {
                    &&& 0 <= place->0 < old(self)@.len()
                    &&& evict matches Some(e) && e@ == old(self)@[place->0]
                    &&& final(self)@ == old(self)@.remove(place->0)
                }
            },
    {
        if entry.tier == MemoryTier::Vram {
            return SwapAction::AlreadyHot;
        }
        let used: usize = registry.vram_active_but(name);
        let available: usize = if self.capacity > used {
            self.capacity - used
        } else {
            0
        };
        if available >= entry.vram_estimate {
            return SwapAction::SwapIn { evict: None };
        }
        let ghost before = self@;
        let own: String = name.to_owned();
        let mut i: usize = 0;
        while i < self.lru_order.len()
            invariant
                i <= self.lru_order@.len(),
                before == self@,
                own@ == name@,
                before == old(self)@,
                *self == *old(self),
                entry.tier != MemoryTier::Vram,
                !fits(self.spec_capacity(), entry.vram_estimate as int, name@, registry@),
                leaving(before, name@, registry@, 0) == leaving(
                    before,
                    name@,
                    registry@,
                    i as int,
                ),
            decreases self.lru_order@.len() - i,
        {
            assert(before[i as int] == self.lru_order@[i as int]@);
            let same: bool = self.lru_order[i] == own;
            if !same && !registry.is_active(self.lru_order[i].as_str()) {
                let evict: String = self.lru_order.remove(i);
                assert(self@ =~= before.remove(i as int));
                return SwapAction::SwapIn { evict: Some(evict) };
            }
            i = i + 1;
        }
        SwapAction::SwapIn { evict: None }
    }

    /// Remembers a swap; the oldest is forgotten when there are too many.
    pub fn log_swap(&mut self, event: SwapEvent)
        ensures
            final(self)@ == old(self)@,
            final(self).spec_capacity() == old(self).spec_capacity(),
            final(self).predicted() == old(self).predicted(),
            final(self).log() == (if old(self).log().len() >= SWAP_LOG_CAPACITY {
                old(self).log().remove(0).push(event)
            } else {
                old(self).log().push(event)
            }),
    {
        if self.swap_log.len() >= SWAP_LOG_CAPACITY {
            let _ = self.swap_log.remove(0);
        }
        self.swap_log.push(event);
    }

    pub fn swap_count(&self) -> (n: usize)
        ensures
            n == self.log().len(),
    {
        self.swap_log.len()
    }

    /// The durations of the remembered swaps, as bit patterns.
    pub fn swap_durations(&self) -> (r: Vec<u64>)
        ensures
            r@ == Seq::new(self.log().len(), |i: int| self.log()[i].duration_ms),
    {
        let mut r: Vec<u64> = Vec::new();
        let mut i: usize = 0;
        while i < self.swap_log.len()
            invariant
                i <= self.swap_log@.len(),
                r@ == Seq::new(i as nat, |k: int| self.swap_log@[k].duration_ms),
            decreases self.swap_log@.len() - i,
        {
            r.push(self.swap_log[i].duration_ms);
            assert(r@ =~= Seq::new((i + 1) as nat, |k: int| self.swap_log@[k].duration_ms));
            i = i + 1;
        }
        r
    }
}

/// The model that leaves is not in use and is not the one that comes, and
/// every model used longer ago is in use or is the one that comes.
pub proof fn law_leaving_model_is_idle(
    names: Seq<Seq<char>>,
    name: Seq<char>,
    entries: Seq<EntryView>,
    i: int,
    j: int,
)
    requires
        0 <= i <= names.len(),
        leaving(names, name, entries, i) is Some,
    ensures
        ({
            let at = leaving(names, name, entries, i)->0;
            &&& i <= at < names.len()
            &&& names[at] != name
            &&& !in_use(entries, names[at])
            &&& i <= j < at ==> names[j] == name || in_use(entries, names[j])
        }),
    decreases names.len() - i,
{
    if i < names.len() && !(names[i] != name && !in_use(entries, names[i])) {
        law_leaving_model_is_idle(names, name, entries, i + 1, j);
    }
}

/// A model that is used becomes the most recent, and the others keep their order.
pub proof fn law_used_model_is_most_recent(names: Seq<Seq<char>>, name: Seq<char>)
    requires
        names.no_duplicates(),
    ensures
        touched(names, name).last() == name,
        touched(names, name).no_duplicates(),
        touched(names, name).drop_last() == names.filter(|x: Seq<char>| x != name),
{
    lemma_name_place(names, name, 0);
    let keep = |x: Seq<char>| x != name;
    let after = touched(names, name);
    let rest = after.drop_last();
    assert forall|i: int, j: int|
        0 <= i < after.len() && 0 <= j < after.len() && i != j implies after[i] != after[j] by {}
    match name_place(names, name, 0) {
        Some(i) => {
            assert(rest =~= names.remove(i));
            lemma_filter_all(names.take(i), keep);
            lemma_filter_all(names.skip(i + 1), keep);
            Seq::filter_distributes_over_add(names.take(i), seq![name] + names.skip(i + 1), keep);
            Seq::filter_distributes_over_add(seq![name], names.skip(i + 1), keep);
            assert(names =~= names.take(i) + (seq![name] + names.skip(i + 1)));
            assert(seq![name].filter(keep) =~= Seq::empty()) by {
                lemma_filter_all(Seq::empty(), keep);
                reveal(Seq::filter);
                assert(seq![name].drop_last() =~= Seq::<Seq<char>>::empty());
                assert(!keep(seq![name].last()));
            }
            assert(names.filter(keep) =~= names.take(i) + names.skip(i + 1));
            assert(names.remove(i) =~= names.take(i) + names.skip(i + 1));
        },
        None => {
            assert(rest =~= names);
            lemma_filter_all(names, keep);
        },
    }
}

proof fn lemma_filter_all(s: Seq<Seq<char>>, keep: spec_fn(Seq<char>) -> bool)
    requires
        forall|i: int| 0 <= i < s.len() ==> keep(#[trigger] s[i]),
    ensures
        s.filter(keep) == s,
    decreases s.len(),
{
    reveal(Seq::filter);
    if s.len() > 0 {
        lemma_filter_all(s.drop_last(), keep);
        assert(keep(s[s.len() - 1]));
        assert(s.drop_last().push(s.last()) =~= s);
    }
}

proof fn lemma_name_place(names: Seq<Seq<char>>, name: Seq<char>, i: int)
    requires
        0 <= i <= names.len(),
    ensures
        match name_place(names, name, i) {
            Some(p) => i <= p < names.len() && names[p] == name,
            None => forall|k: int| i <= k < names.len() ==> (#[trigger] names[k]) != name,
        },
    decreases names.len() - i,
{
    if i < names.len() && names[i] != name {
        lemma_name_place(names, name, i + 1);
    }
}

/// A model fits if it and all other models in use on the device take no more than there
/// is.
pub proof fn law_model_fits_beside_those_in_use(
    capacity: int,
    estimate: int,
    name: Seq<char>,
    entries: Seq<EntryView>,
)
    requires
        0 < estimate,
    ensures
        fits(capacity, estimate, name, entries) <==> active_vram(
            entries,
            Some(name),
            entries.len() as int,
        ) + estimate <= capacity,
{
}

} // verus!
