//! The walk of one token through the layers: which piece of work comes next, on
//! the device or on the processor.

use crate::model::{flat, group_views, LayerGroup};
use vstd::prelude::*;

verus! {

/// A piece of work before the first layer, on one layer, or behind the last.
#[derive(Debug, Clone, Copy, PartialEq, Eq, Structural)]
pub enum Work {
    /// Hand the hidden state to the device.
    UploadHidden,
    /// Ask the policy whether to leave the layer out; success means yes.
    AskPolicy,
    /// Replay the layer as one device graph.
    FusedLayer,
    /// Wait for the device and take the hidden state back.
    FetchHidden,
    AttentionNorm,
    DeviceQkv,
    HostQkv,
    Rotate,
    SaveKv,
    DeviceAttention,
    /// Bring the pages that attention on the processor reads into memory.
    HeatPages,
    HostAttention,
    DeviceOutput,
    HostOutput,
    AddOutput,
    FfnNorm,
    DeviceGateUp,
    HostGateUp,
    Activate,
    DeviceDown,
    HostDown,
    AddDown,
    /// Ask for the weights of the layer behind the group.
    PrefetchNext,
    /// Wait for the device and take the last hidden state back.
    FetchFinal,
    FinalNorm,
    Logits,
    Finished,
}

/// Where work may run and what goes with it.
#[derive(Debug, Clone, Copy, PartialEq, Eq, Structural)]
pub struct WalkOptions {
    /// Products are tried on the device first.
    pub device: bool,
    /// Attention is tried on the device first.
    pub device_attention: bool,
    /// The walk asks the policy, tries fused layers on the device, and prefetches.
    pub managed: bool,
}

/// The first work of a layer.
pub open spec fn opening(o: WalkOptions) -> Work {
    if o.managed {
        Work::AskPolicy
    } else {
        Work::AttentionNorm
    }
}

/// The work behind `w` on the same layer, if there is any.  `ok` tells whether
/// `w` succeeded; `fused` whether all layers so far were fused.
pub open spec fn behind(o: WalkOptions, w: Work, ok: bool, fused: bool, prefetch: bool) -> Option<
    Work,
> {
    match w {
        Work::AskPolicy => if ok {
            None
        } else if fused {
            Some(Work::FusedLayer)
        } else if o.device {
            Some(Work::FetchHidden)
        } else {
            Some(Work::AttentionNorm)
        },
        Work::FusedLayer => if ok {
            None
        } else {
            Some(Work::FetchHidden)
        },
        Work::FetchHidden => Some(Work::AttentionNorm),
        Work::AttentionNorm => Some(
            if o.device {
                Work::DeviceQkv
            } else {
                Work::HostQkv
            },
        ),
        Work::DeviceQkv => Some(
            if ok {
                Work::Rotate
            } else {
                Work::HostQkv
            },
        ),
        Work::HostQkv => Some(Work::Rotate),
        Work::Rotate => Some(Work::SaveKv),
        Work::SaveKv => Some(
            if o.device_attention {
                Work::DeviceAttention
            } else {
                Work::HeatPages
            },
        ),
        Work::DeviceAttention => Some(
            if !ok {
                Work::HeatPages
            } else if o.device {
                Work::DeviceOutput
            } else {
                Work::HostOutput
            },
        ),
        Work::HeatPages => Some(Work::HostAttention),
        Work::HostAttention => Some(
            if o.device {
                Work::DeviceOutput
            } else {
                Work::HostOutput
            },
        ),
        Work::DeviceOutput => Some(
            if ok {
                Work::AddOutput
            } else {
                Work::HostOutput
            },
        ),
        Work::HostOutput => Some(Work::AddOutput),
        Work::AddOutput => Some(Work::FfnNorm),
        Work::FfnNorm => Some(
            if o.device {
                Work::DeviceGateUp
            } else {
                Work::HostGateUp
            },
        ),
        Work::DeviceGateUp => Some(
            if ok {
                Work::Activate
            } else {
                Work::HostGateUp
            },
        ),
        Work::HostGateUp => Some(Work::Activate),
        Work::Activate => Some(
            if o.device {
                Work::DeviceDown
            } else {
                Work::HostDown
            },
        ),
        Work::DeviceDown => Some(
            if ok {
                Work::AddDown
            } else {
                Work::HostDown
            },
        ),
        Work::HostDown => Some(Work::AddDown),
        Work::AddDown => if prefetch {
            Some(Work::PrefetchNext)
        } else {
            None
        },
        _ => None,
    }
}

/// The last work of a walk: behind the layers and in this order.
pub open spec fn is_closing(w: Work) -> bool {
    w == Work::FetchFinal || w == Work::FinalNorm || w == Work::Logits || w == Work::Finished
}

/// Work that is on a layer, neither before the first nor behind the last.
pub open spec fn is_on_layer(w: Work) -> bool {
    w != Work::UploadHidden && !is_closing(w)
}

/// Where a walk stands.
#[verifier::ext_equal]
pub struct WalkView {
    pub options: WalkOptions,
    pub groups: Seq<Seq<usize>>,
    pub num_layers: int,
    /// Group and place in it.
    pub group: int,
    pub member: int,
    pub work: Work,
    /// All layers so far were fused.
    pub fused: bool,
}

impl WalkView {
    pub open spec fn wf(self) -> bool {
        &&& forall|i: int| 0 <= i < self.groups.len() ==> (#[trigger] self.groups[i]).len() > 0
        &&& is_on_layer(self.work) ==> {
            &&& 0 <= self.group < self.groups.len()
            &&& 0 <= self.member < self.groups[self.group].len()
        }
        &&& self.work == Work::UploadHidden ==> self.group == 0 && self.member == 0 && self.fused
        &&& self.fused ==> self.options.managed && self.options.device
        &&& !self.options.managed ==> self.work != Work::AskPolicy && self.work
            != Work::FusedLayer && self.work != Work::FetchHidden
    }

    /// The layer the walk is on.
    pub open spec fn layer(self) -> int {
        self.groups[self.group][self.member] as int
    }

    /// The layer whose weights are used: the first of the group.
    pub open spec fn weights(self) -> int {
        self.groups[self.group][0] as int
    }

    /// Whether the weights behind this layer are asked for.
    pub open spec fn prefetches(self) -> bool {
        self.options.managed && self.layer() == self.groups[self.group].last() && self.layer() + 1
            < self.num_layers
    }

    /// The walk after the layers.
    pub open spec fn closed(self) -> WalkView {
        WalkView {
            work: if self.fused {
                Work::FetchFinal
            } else {
                Work::FinalNorm
            },
            ..self
        }
    }

    /// The walk at its first layer, or behind the last where there is none.
    pub open spec fn at_first_layer(self) -> WalkView {
        if self.groups.len() > 0 {
            WalkView { work: opening(self.options), ..self }
        } else {
            self.closed()
        }
    }

    /// The walk at its next layer, or behind the last.
    pub open spec fn on_next_layer(self) -> WalkView {
        if self.member + 1 < self.groups[self.group].len() {
            WalkView { member: self.member + 1, work: opening(self.options), ..self }
        } else if self.group + 1 < self.groups.len() {
            WalkView { group: self.group + 1, member: 0, work: opening(self.options), ..self }
        } else {
            self.closed()
        }
    }

    /// The walk after its present work ended.
    pub open spec fn next(self, ok: bool) -> WalkView {
        match self.work {
            Work::UploadHidden => self.at_first_layer(),
            Work::FetchFinal => WalkView { work: Work::FinalNorm, ..self },
            Work::FinalNorm => WalkView { work: Work::Logits, ..self },
            Work::Logits => WalkView { work: Work::Finished, ..self },
            Work::Finished => self,
            _ => {
                let fused = self.fused && (self.work == Work::FusedLayer ==> ok);
                let here = WalkView { fused, ..self };
                match behind(self.options, self.work, ok, self.fused, self.prefetches()) {
                    Some(w) => WalkView { work: w, ..here },
                    None => here.on_next_layer(),
                }
            },
        }
    }
}

/// Where a walk starts: one that may go through fused layers hands the hidden
/// state to the device first.
pub open spec fn walk_start(options: WalkOptions, groups: Seq<Seq<usize>>, num_layers: int) -> WalkView {
    let w = WalkView {
        options,
        groups,
        num_layers,
        group: 0,
        member: 0,
        work: opening(options),
        fused: options.device && options.managed,
    };
    if w.fused {
        WalkView { work: Work::UploadHidden, ..w }
    } else {
        w.at_first_layer()
    }
}

pub struct LayerWalk {
    options: WalkOptions,
    groups: Vec<LayerGroup>,
    num_layers: usize,
    group: usize,
    member: usize,
    work: Work,
    fused: bool,
}

impl View for LayerWalk {
    type V = WalkView;

    closed spec fn view(&self) -> WalkView {
        WalkView {
            options: self.options,
            groups: group_views(self.groups@),
            num_layers: self.num_layers as int,
            group: self.group as int,
            member: self.member as int,
            work: self.work,
            fused: self.fused,
        }
    }
}

impl LayerWalk {
    /// A walk over layers in groups that share their weights.
    pub fn new(options: WalkOptions, groups: Vec<LayerGroup>, num_layers: usize) -> (w: Self)
        requires
            forall|i: int|
                0 <= i < group_views(groups@).len() ==> (#[trigger] group_views(groups@)[i]).len()
                    > 0,
        ensures
            w@ == walk_start(options, group_views(groups@), num_layers as int),
            w@.wf(),
    {
        let fused: bool = options.device && options.managed;
        let work: Work = if fused {
            Work::UploadHidden
        } else if groups.len() == 0 {
            Work::FinalNorm
        } else if options.managed {
            Work::AskPolicy
        } else {
            Work::AttentionNorm
        };
        LayerWalk { options, groups, num_layers, group: 0, member: 0, work, fused }
    }

    /// The work to do.
    pub fn work(&self) -> (w: Work)
        ensures
            w == self@.work,
    {
        self.work
    }

    /// Whether the work is on a layer.
    pub fn on_layer(&self) -> (b: bool)
        ensures
            b == is_on_layer(self@.work),
    {
        match self.work {
            Work::UploadHidden => false,
            Work::FetchFinal => false,
            Work::FinalNorm => false,
            Work::Logits => false,
            Work::Finished => false,
            _ => true,
        }
    }

    /// The layer that the work is on.
    pub fn layer(&self) -> (l: usize)
        requires
            self@.wf(),
            is_on_layer(self@.work),
        ensures
            l == self@.layer(),
    {
        proof {
            assert(self@.groups[self.group as int] == self.groups@[self.group as int]@);
        }
        self.groups[self.group][self.member]
    }

    /// The layer whose weights the work uses.
    pub fn weights(&self) -> (l: usize)
        requires
            self@.wf(),
            is_on_layer(self@.work),
        ensures
            l == self@.weights(),
    {
        proof {
            assert(self@.groups[self.group as int] == self.groups@[self.group as int]@);
        }
        self.groups[self.group][0]
    }

    fn prefetches(&self) -> (b: bool)
        requires
            self@.wf(),
            is_on_layer(self@.work),
        ensures
            b == self@.prefetches(),
    {
        let l: usize = self.layer();
        proof {
            assert(self@.groups[self.group as int] == self.groups@[self.group as int]@);
        }
        let group = &self.groups[self.group];
        self.options.managed && l == group[group.len() - 1] && l < self.num_layers
            && self.num_layers - l > 1
    }

    /// The present work ended; for work that cannot fail `ok` is not looked at.
    pub fn advance(&mut self, ok: bool)
        requires
            old(self)@.wf(),
        ensures
            final(self)@ == old(self)@.next(ok),
            final(self)@.wf(),
    {
        let next: Option<Work> = match self.work {
            Work::UploadHidden => Some(
                if self.groups.len() > 0 {
                    Work::AskPolicy
                } else {
                    Work::FetchFinal
                },
            ),
            Work::FetchFinal => Some(Work::FinalNorm),
            Work::FinalNorm => Some(Work::Logits),
            Work::Logits => Some(Work::Finished),
            Work::Finished => Some(Work::Finished),
            Work::AskPolicy => if ok {
                None
            } else if self.fused {
                Some(Work::FusedLayer)
            } else if self.options.device {
                Some(Work::FetchHidden)
            } else {
                Some(Work::AttentionNorm)
            },
            Work::FusedLayer => if ok {
                None
            } else {
                self.fused = false;
                Some(Work::FetchHidden)
            },
            Work::FetchHidden => Some(Work::AttentionNorm),
            Work::AttentionNorm => Some(self.pick(Work::DeviceQkv, Work::HostQkv)),
            Work::DeviceQkv => Some(
                if ok {
                    Work::Rotate
                } else {
                    Work::HostQkv
                },
            ),
            Work::HostQkv => Some(Work::Rotate),
            Work::Rotate => Some(Work::SaveKv),
            Work::SaveKv => Some(
                if self.options.device_attention {
                    Work::DeviceAttention
                } else {
                    Work::HeatPages
                },
            ),
            Work::DeviceAttention => Some(
                if ok {
                    self.pick(Work::DeviceOutput, Work::HostOutput)
                } else {
                    Work::HeatPages
                },
            ),
            Work::HeatPages => Some(Work::HostAttention),
            Work::HostAttention => Some(self.pick(Work::DeviceOutput, Work::HostOutput)),
            Work::DeviceOutput => Some(
                if ok {
                    Work::AddOutput
                } else {
                    Work::HostOutput
                },
            ),
            Work::HostOutput => Some(Work::AddOutput),
            Work::AddOutput => Some(Work::FfnNorm),
            Work::FfnNorm => Some(self.pick(Work::DeviceGateUp, Work::HostGateUp)),
            Work::DeviceGateUp => Some(
                if ok {
                    Work::Activate
                } else {
                    Work::HostGateUp
                },
            ),
            Work::HostGateUp => Some(Work::Activate),
            Work::Activate => Some(self.pick(Work::DeviceDown, Work::HostDown)),
            Work::DeviceDown => Some(
                if ok {
                    Work::AddDown
                } else {
                    Work::HostDown
                },
            ),
            Work::HostDown => Some(Work::AddDown),
            Work::AddDown => if self.prefetches() {
                Some(Work::PrefetchNext)
            } else {
                None
            },
            Work::PrefetchNext => None,
        };
        match next {
            Some(w) => {
                self.work = w;
            },
            None => {
                self.enter_next_layer();
            },
        }
    }

    fn pick(&self, device: Work, host: Work) -> (w: Work)
        ensures
            w == (if self@.options.device {
                device
            } else {
                host
            }),
    {
        if self.options.device {
            device
        } else {
            host
        }
    }

    fn enter_next_layer(&mut self)
        requires
            old(self)@.wf(),
            is_on_layer(old(self)@.work),
        ensures
            final(self)@ == old(self)@.on_next_layer(),
            final(self)@.wf(),
    {
        proof {
            assert(self@.groups[self.group as int] == self.groups@[self.group as int]@);
        }
        let opening: Work = if self.options.managed {
            Work::AskPolicy
        } else {
            Work::AttentionNorm
        };
        if self.member < self.groups[self.group].len() - 1 {
            self.member = self.member + 1;
            self.work = opening;
        } else if self.group < self.groups.len() - 1 {
            self.group = self.group + 1;
            self.member = 0;
            self.work = opening;
        } else if self.fused {
            self.work = Work::FetchFinal;
        } else {
            self.work = Work::FinalNorm;
        }
    }
}

/// How the work of a layer is ordered: what comes later has a smaller number.
pub open spec fn rank(w: Work) -> int {
    match w {
        Work::UploadHidden => 26,
        Work::AskPolicy => 25,
        Work::FusedLayer => 24,
        Work::FetchHidden => 23,
        Work::AttentionNorm => 22,
        Work::DeviceQkv => 21,
        Work::HostQkv => 20,
        Work::Rotate => 19,
        Work::SaveKv => 18,
        Work::DeviceAttention => 17,
        Work::HeatPages => 16,
        Work::HostAttention => 15,
        Work::DeviceOutput => 14,
        Work::HostOutput => 13,
        Work::AddOutput => 12,
        Work::FfnNorm => 11,
        Work::DeviceGateUp => 10,
        Work::HostGateUp => 9,
        Work::Activate => 8,
        Work::DeviceDown => 7,
        Work::HostDown => 6,
        Work::AddDown => 5,
        Work::PrefetchNext => 4,
        Work::FetchFinal => 3,
        Work::FinalNorm => 2,
        Work::Logits => 1,
        Work::Finished => 0,
    }
}

/// Layers before the one the walk is on; none before the first, all of them when it is behind the last.
pub open spec fn layers_passed(w: WalkView) -> int {
    if is_closing(w.work) {
        flat(w.groups, w.groups.len() as int).len() as int
    } else {
        flat(w.groups, w.group).len() + w.member
    }
}

/// What is left of a walk.
pub open spec fn work_left(w: WalkView) -> int {
    (flat(w.groups, w.groups.len() as int).len() - layers_passed(w)) * 27 + rank(w.work)
}

/// Every piece of work leads on: to later work on the same layer, or to the next
/// layer in line.  A walk that has not finished has less left after it.
pub proof fn law_walk_gets_on(w: WalkView, ok: bool)
    requires
        w.wf(),
        w.work != Work::Finished,
    ensures
        layers_passed(w.next(ok)) == layers_passed(w) || layers_passed(w.next(ok)) == layers_passed(
            w,
        ) + 1,
        layers_passed(w.next(ok)) == layers_passed(w) ==> rank(w.next(ok).work) < rank(w.work),
        work_left(w.next(ok)) < work_left(w),
{
    if is_on_layer(w.work) {
        assert(flat(w.groups, w.group + 1) == flat(w.groups, w.group) + w.groups[w.group]);
    }
}

/// A walk is on the layer that its count of passed layers names.
pub proof fn law_layers_come_in_order(w: WalkView)
    requires
        w.wf(),
        is_on_layer(w.work),
    ensures
        layers_passed(w) < flat(w.groups, w.groups.len() as int).len(),
        w.layer() == flat(w.groups, w.groups.len() as int)[layers_passed(w)],
{
    assert(flat(w.groups, w.group + 1) == flat(w.groups, w.group) + w.groups[w.group]);
    lemma_flat_grows(w.groups, w.group + 1, w.groups.len() as int);
}

proof fn lemma_flat_grows(groups: Seq<Seq<usize>>, i: int, j: int)
    requires
        0 <= i <= j <= groups.len(),
    ensures
        flat(groups, i).len() <= flat(groups, j).len(),
        forall|k: int|
            0 <= k < flat(groups, i).len() ==> flat(groups, i)[k] == flat(groups, j)[k],
    decreases j - i,
{
    if i < j {
        lemma_flat_grows(groups, i, j - 1);
    }
}

/// Pages are brought into memory for attention on the processor alone: without a
/// device, or where the device failed.  A device that does the attention leaves
/// cold pages cold.
pub proof fn law_pages_heat_for_the_host_only(
    o: WalkOptions,
    w: Work,
    ok: bool,
    fused: bool,
    prefetch: bool,
)
    ensures
        behind(o, w, ok, fused, prefetch) == Some(Work::HeatPages) <==> (w == Work::SaveKv
            && !o.device_attention) || (w == Work::DeviceAttention && !ok),
        behind(o, w, ok, fused, prefetch) == Some(Work::HostAttention) <==> w == Work::HeatPages,
{
}

/// A walk that may go through fused layers starts by handing the hidden state to
/// the device, and no later work does so again.  Any other walk starts on its first
/// layer, or behind the last where there is none.
pub proof fn law_hidden_state_goes_up_first(
    o: WalkOptions,
    groups: Seq<Seq<usize>>,
    num_layers: int,
    w: WalkView,
    ok: bool,
)
    requires
        w.wf(),
    ensures
        walk_start(o, groups, num_layers).work == Work::UploadHidden <==> o.device && o.managed,
        !(o.device && o.managed) ==> walk_start(o, groups, num_layers).work == (if groups.len()
            > 0 {
            opening(o)
        } else {
            Work::FinalNorm
        }),
        w.next(ok).work != Work::UploadHidden,
{
}

/// Work that the device could not do is done on the processor, and work that the
/// device did is not done again: either way the walk goes on with the same work.
pub proof fn law_host_stands_in(o: WalkOptions, fused: bool, prefetch: bool, any: bool)
    ensures
        behind(o, Work::DeviceQkv, false, fused, prefetch) == Some(Work::HostQkv),
        behind(o, Work::DeviceQkv, true, fused, prefetch) == behind(
            o,
            Work::HostQkv,
            any,
            fused,
            prefetch,
        ),
        behind(o, Work::DeviceAttention, false, fused, prefetch) == Some(Work::HeatPages),
        behind(o, Work::HeatPages, any, fused, prefetch) == Some(Work::HostAttention),
        behind(o, Work::DeviceAttention, true, fused, prefetch) == behind(
            o,
            Work::HostAttention,
            any,
            fused,
            prefetch,
        ),
        behind(o, Work::DeviceOutput, false, fused, prefetch) == Some(Work::HostOutput),
        behind(o, Work::DeviceOutput, true, fused, prefetch) == behind(
            o,
            Work::HostOutput,
            any,
            fused,
            prefetch,
        ),
        behind(o, Work::DeviceGateUp, false, fused, prefetch) == Some(Work::HostGateUp),
        behind(o, Work::DeviceGateUp, true, fused, prefetch) == behind(
            o,
            Work::HostGateUp,
            any,
            fused,
            prefetch,
        ),
        behind(o, Work::DeviceDown, false, fused, prefetch) == Some(Work::HostDown),
        behind(o, Work::DeviceDown, true, fused, prefetch) == behind(
            o,
            Work::HostDown,
            any,
            fused,
            prefetch,
        ),
{
}

/// What has to happen to a token on a layer, wherever it is done.
#[derive(Debug, Clone, Copy, PartialEq, Eq, Structural)]
pub enum Stage {
    Normed,
    Projected,
    Rotated,
    Cached,
    Attended,
    Mixed,
    MixAdded,
    NormedAgain,
    Gated,
    Activated,
    Narrowed,
    FedAdded,
}

/// The stages of a layer, in the order in which a transformer has them.
pub open spec fn all_stages() -> Seq<Stage> {
    seq![
        Stage::Normed,
        Stage::Projected,
        Stage::Rotated,
        Stage::Cached,
        Stage::Attended,
        Stage::Mixed,
        Stage::MixAdded,
        Stage::NormedAgain,
        Stage::Gated,
        Stage::Activated,
        Stage::Narrowed,
        Stage::FedAdded,
    ]
}

/// The stage that a piece of work completes: device work only where it succeeded.
pub open spec fn completes(w: Work, ok: bool) -> Seq<Stage> {
    match w {
        Work::AttentionNorm => seq![Stage::Normed],
        Work::HostQkv => seq![Stage::Projected],
        Work::DeviceQkv if ok => seq![Stage::Projected],
        Work::Rotate => seq![Stage::Rotated],
        Work::SaveKv => seq![Stage::Cached],
        Work::HostAttention => seq![Stage::Attended],
        Work::DeviceAttention if ok => seq![Stage::Attended],
        Work::HostOutput => seq![Stage::Mixed],
        Work::DeviceOutput if ok => seq![Stage::Mixed],
        Work::AddOutput => seq![Stage::MixAdded],
        Work::FfnNorm => seq![Stage::NormedAgain],
        Work::HostGateUp => seq![Stage::Gated],
        Work::DeviceGateUp if ok => seq![Stage::Gated],
        Work::Activate => seq![Stage::Activated],
        Work::HostDown => seq![Stage::Narrowed],
        Work::DeviceDown if ok => seq![Stage::Narrowed],
        Work::AddDown => seq![Stage::FedAdded],
        _ => Seq::empty(),
    }
}

/// A walk after its work ended with these outcomes, one after the other.
pub open spec fn walked(w: WalkView, outcomes: Seq<bool>) -> WalkView
    decreases outcomes.len(),
{
    if outcomes.len() == 0 {
        w
    } else {
        walked(w, outcomes.drop_last()).next(outcomes.last())
    }
}

/// The stages that a walk completes while it is on its layer number `k`, counted
/// in the order in which it visits them.
pub open spec fn stages_on(w: WalkView, outcomes: Seq<bool>, k: int) -> Seq<Stage>
    decreases outcomes.len(),
{
    if outcomes.len() == 0 {
        Seq::empty()
    } else {
        let before = walked(w, outcomes.drop_last());
        let earlier = stages_on(w, outcomes.drop_last(), k);
        if is_on_layer(before.work) && layers_passed(before) == k {
            earlier + completes(before.work, outcomes.last())
        } else {
            earlier
        }
    }
}

/// The policy left layer number `k` out, or the device replayed it as one graph.
pub open spec fn left_to_others(w: WalkView, outcomes: Seq<bool>, k: int) -> bool
    decreases outcomes.len(),
{
    outcomes.len() > 0 && {
        let before = walked(w, outcomes.drop_last());
        ||| left_to_others(w, outcomes.drop_last(), k)
        ||| is_on_layer(before.work) && layers_passed(before) == k && outcomes.last() && (
        before.work == Work::AskPolicy || before.work == Work::FusedLayer)
    }
}

/// Stages that are behind a walk which stands at `w`.
spec fn stages_before(w: Work) -> int {
    match w {
        Work::DeviceQkv => 1,
        Work::HostQkv => 1,
        Work::Rotate => 2,
        Work::SaveKv => 3,
        Work::DeviceAttention => 4,
        Work::HeatPages => 4,
        Work::HostAttention => 4,
        Work::DeviceOutput => 5,
        Work::HostOutput => 5,
        Work::AddOutput => 6,
        Work::FfnNorm => 7,
        Work::DeviceGateUp => 8,
        Work::HostGateUp => 8,
        Work::Activate => 9,
        Work::DeviceDown => 10,
        Work::HostDown => 10,
        Work::AddDown => 11,
        Work::PrefetchNext => 12,
        _ => 0,
    }
}

proof fn lemma_next_stays_sound(w: WalkView, ok: bool)
    requires
        w.wf(),
    ensures
        w.next(ok).wf(),
{
}

proof fn lemma_walk_stays_sound(w: WalkView, outcomes: Seq<bool>)
    requires
        w.wf(),
    ensures
        walked(w, outcomes).wf(),
    decreases outcomes.len(),
{
    if outcomes.len() > 0 {
        lemma_walk_stays_sound(w, outcomes.drop_last());
        lemma_next_stays_sound(walked(w, outcomes.drop_last()), outcomes.last());
    }
}

/// On one layer, every piece of work completes the stage that is due, or none.
proof fn lemma_stage_is_due(w: WalkView, ok: bool)
    requires
        w.wf(),
        is_on_layer(w.work),
    ensures
        ({
            let done = all_stages().take(stages_before(w.work)) + completes(w.work, ok);
            let next = w.next(ok);
            if layers_passed(next) == layers_passed(w) && is_on_layer(next.work) {
                done == all_stages().take(stages_before(next.work))
            } else {
                &&& !is_on_layer(next.work) || stages_before(next.work) == 0
                &&& done == all_stages() || (done == Seq::<Stage>::empty() && ok && (w.work
                    == Work::AskPolicy || w.work == Work::FusedLayer))
            }
        }),
{
    law_walk_gets_on(w, ok);
    let done = all_stages().take(stages_before(w.work)) + completes(w.work, ok);
    let next = w.next(ok);
    assert(flat(w.groups, w.group + 1) == flat(w.groups, w.group) + w.groups[w.group]);
    if layers_passed(next) == layers_passed(w) && is_on_layer(next.work) {
        assert(done =~= all_stages().take(stages_before(next.work)));
    } else if stages_before(w.work) == 0 && w.work != Work::AttentionNorm {
        assert(done =~= Seq::<Stage>::empty());
    } else {
        assert(done =~= all_stages());
    }
}

/// How often the policy is asked about layer number `k`.
pub open spec fn questions_on(w: WalkView, outcomes: Seq<bool>, k: int) -> int
    decreases outcomes.len(),
{
    if outcomes.len() == 0 {
        0
    } else {
        let before = walked(w, outcomes.drop_last());
        questions_on(w, outcomes.drop_last(), k) + (if before.work == Work::AskPolicy
            && layers_passed(before) == k {
            1int
        } else {
            0int
        })
    }
}

/// The work that a walk does behind its last layer.
pub open spec fn last_work(w: WalkView, outcomes: Seq<bool>) -> Seq<Work>
    decreases outcomes.len(),
{
    if outcomes.len() == 0 {
        Seq::empty()
    } else {
        let before = walked(w, outcomes.drop_last());
        let earlier = last_work(w, outcomes.drop_last());
        if before.work == Work::FinalNorm || before.work == Work::Logits {
            earlier.push(before.work)
        } else {
            earlier
        }
    }
}

/// The device has the hidden state, and the processor's copy is out of date.
pub open spec fn is_on_device(w: WalkView, outcomes: Seq<bool>) -> bool
    decreases outcomes.len(),
{
    outcomes.len() > 0 && match walked(w, outcomes.drop_last()).work {
        Work::UploadHidden => true,
        Work::FetchHidden => false,
        Work::FetchFinal => false,
        _ => is_on_device(w, outcomes.drop_last()),
    }
}

/// What is known of every layer, wherever a walk stands.
spec fn trace_is_sound(start: WalkView, outcomes: Seq<bool>, k: int) -> bool {
    let now = walked(start, outcomes);
    let passed = layers_passed(now);
    let asked = if start.options.managed {
        1int
    } else {
        0int
    };
    &&& now.wf()
    &&& now.options == start.options
    &&& now.groups == start.groups
    &&& 0 <= passed <= flat(now.groups, now.groups.len() as int).len()
    &&& now.work == Work::UploadHidden ==> passed == 0
    &&& if k < passed {
        &&& questions_on(start, outcomes, k) == asked
        &&& if left_to_others(start, outcomes, k) {
            stages_on(start, outcomes, k) == Seq::<Stage>::empty() && start.options.managed
        } else {
            stages_on(start, outcomes, k) == all_stages()
        }
    } else if k == passed && is_on_layer(now.work) {
        &&& !left_to_others(start, outcomes, k)
        &&& stages_on(start, outcomes, k) == all_stages().take(stages_before(now.work))
        &&& questions_on(start, outcomes, k) == (if now.work == opening(start.options) {
            0
        } else {
            asked
        })
    } else {
        &&& !left_to_others(start, outcomes, k)
        &&& stages_on(start, outcomes, k) == Seq::<Stage>::empty()
        &&& questions_on(start, outcomes, k) == 0
    }
}

proof fn lemma_opening_comes_once(w: WalkView, ok: bool)
    requires
        w.wf(),
        is_on_layer(w.work),
    ensures
        ({
            let next = w.next(ok);
            if layers_passed(next) == layers_passed(w) && is_on_layer(next.work) {
                next.work != opening(w.options)
            } else {
                !is_on_layer(next.work) || next.work == opening(w.options)
            }
        }),
{
    law_walk_gets_on(w, ok);
    assert(flat(w.groups, w.group + 1) == flat(w.groups, w.group) + w.groups[w.group]);
}

proof fn lemma_trace(start: WalkView, outcomes: Seq<bool>, k: int)
    requires
        forall|i: int| 0 <= i < start.groups.len() ==> (#[trigger] start.groups[i]).len() > 0,
        start == walk_start(start.options, start.groups, start.num_layers),
        k >= 0,
    ensures
        trace_is_sound(start, outcomes, k),
    decreases outcomes.len(),
{
    assert(all_stages().take(0) =~= Seq::<Stage>::empty());
    if outcomes.len() == 0 {
        assert(flat(start.groups, 0) == Seq::<usize>::empty());
        lemma_flat_grows(start.groups, 0, start.groups.len() as int);
    } else {
        let earlier = outcomes.drop_last();
        let ok = outcomes.last();
        lemma_trace(start, earlier, k);
        let before = walked(start, earlier);
        lemma_next_stays_sound(before, ok);
        if before.work != Work::Finished {
            law_walk_gets_on(before, ok);
        }
        if is_on_layer(before.work) {
            law_layers_come_in_order(before);
            lemma_stage_is_due(before, ok);
            lemma_opening_comes_once(before, ok);
        }
    }
}

/// A finished walk took the token through every layer: on each one that the policy
/// did not leave out and the device did not replay as a whole, it normed, projected,
/// rotated, cached, attended, mixed, added, normed again, gated, activated, narrowed
/// and added, each exactly once and in this order, whatever failed on the device.
/// A managed walk asked the policy once about each layer; any other left none out.
pub proof fn law_every_layer_is_done(
    o: WalkOptions,
    groups: Seq<Seq<usize>>,
    num_layers: int,
    outcomes: Seq<bool>,
    k: int,
)
    requires
        forall|i: int| 0 <= i < groups.len() ==> (#[trigger] groups[i]).len() > 0,
        walked(walk_start(o, groups, num_layers), outcomes).work == Work::Finished,
        0 <= k < flat(groups, groups.len() as int).len(),
    ensures
        ({
            let start = walk_start(o, groups, num_layers);
            &&& stages_on(start, outcomes, k) == (if left_to_others(start, outcomes, k) {
                Seq::<Stage>::empty()
            } else {
                all_stages()
            })
            &&& !o.managed ==> !left_to_others(start, outcomes, k)
            &&& questions_on(start, outcomes, k) == (if o.managed {
                1int
            } else {
                0int
            })
        }),
{
    lemma_trace(walk_start(o, groups, num_layers), outcomes, k);
}

/// Behind the layers a finished walk norms once more and computes the logits, each
/// once and in this order.
pub proof fn law_logits_come_last(
    o: WalkOptions,
    groups: Seq<Seq<usize>>,
    num_layers: int,
    outcomes: Seq<bool>,
)
    requires
        forall|i: int| 0 <= i < groups.len() ==> (#[trigger] groups[i]).len() > 0,
        walked(walk_start(o, groups, num_layers), outcomes).work == Work::Finished,
    ensures
        last_work(walk_start(o, groups, num_layers), outcomes) == seq![
            Work::FinalNorm,
            Work::Logits,
        ],
{
    lemma_last_work(walk_start(o, groups, num_layers), outcomes);
}

proof fn lemma_last_work(start: WalkView, outcomes: Seq<bool>)
    requires
        forall|i: int| 0 <= i < start.groups.len() ==> (#[trigger] start.groups[i]).len() > 0,
        start == walk_start(start.options, start.groups, start.num_layers),
    ensures
        last_work(start, outcomes) == (match walked(start, outcomes).work {
            Work::Finished => seq![Work::FinalNorm, Work::Logits],
            Work::Logits => seq![Work::FinalNorm],
            _ => Seq::empty(),
        }),
    decreases outcomes.len(),
{
    if outcomes.len() > 0 {
        lemma_last_work(start, outcomes.drop_last());
        lemma_trace(start, outcomes.drop_last(), 0);
        assert(seq![Work::FinalNorm].push(Work::Logits) =~= seq![Work::FinalNorm, Work::Logits]);
        assert(Seq::<Work>::empty().push(Work::FinalNorm) =~= seq![Work::FinalNorm]);
    }
}

/// The processor never works on a hidden state that is out of date: before any stage
/// and before the last norm the state was fetched from the device.  A layer is only
/// replayed there while the device has the state.
pub proof fn law_hidden_state_is_where_the_work_is(
    o: WalkOptions,
    groups: Seq<Seq<usize>>,
    num_layers: int,
    outcomes: Seq<bool>,
    ok: bool,
)
    requires
        forall|i: int| 0 <= i < groups.len() ==> (#[trigger] groups[i]).len() > 0,
    ensures
        ({
            let start = walk_start(o, groups, num_layers);
            let work = walked(start, outcomes).work;
            &&& completes(work, ok).len() > 0 || work == Work::FinalNorm ==> !is_on_device(
                start,
                outcomes,
            )
            &&& work == Work::FusedLayer ==> is_on_device(start, outcomes)
        }),
{
    lemma_location(walk_start(o, groups, num_layers), outcomes);
}

proof fn lemma_location(start: WalkView, outcomes: Seq<bool>)
    requires
        forall|i: int| 0 <= i < start.groups.len() ==> (#[trigger] start.groups[i]).len() > 0,
        start == walk_start(start.options, start.groups, start.num_layers),
    ensures
        ({
            let now = walked(start, outcomes);
            &&& now.wf()
            &&& now.fused && is_on_layer(now.work) ==> now.work == Work::AskPolicy || now.work
                == Work::FusedLayer
            &&& now.work == Work::FusedLayer || now.work == Work::FetchFinal ==> now.fused
            &&& now.fused && (is_on_layer(now.work) || now.work == Work::FetchFinal)
                ==> is_on_device(start, outcomes)
            &&& !now.fused && now.work != Work::FetchHidden ==> !is_on_device(start, outcomes)
            &&& now.work == Work::FinalNorm || now.work == Work::Logits || now.work
                == Work::Finished ==> !is_on_device(start, outcomes)
        }),
    decreases outcomes.len(),
{
    if outcomes.len() > 0 {
        lemma_location(start, outcomes.drop_last());
        lemma_next_stays_sound(walked(start, outcomes.drop_last()), outcomes.last());
    }
}

/// A layer uses the weights of the first layer of its group, so that all layers of a
/// group use the same; one that is alone in its group uses its own.
pub proof fn law_group_shares_weights(w: WalkView)
    requires
        w.wf(),
        is_on_layer(w.work),
    ensures
        w.groups[w.group].contains(w.layer() as usize),
        w.weights() == w.groups[w.group].first(),
        w.groups[w.group].len() == 1 ==> w.weights() == w.layer(),
{
    assert(w.groups[w.group][w.member] == w.layer() as usize);
}

/// Behind the last layer of a group, and there alone, a managed walk asks for the
/// weights of the layer that follows, if there is one.
pub proof fn law_weights_are_fetched_ahead(w: WalkView, ok: bool)
    requires
        w.wf(),
    ensures
        w.next(ok).work == Work::PrefetchNext <==> w.work == Work::AddDown && w.options.managed
            && w.groups[w.group][w.member] == w.groups[w.group].last() && w.groups[w.group][w.member]
            + 1 < w.num_layers,
{
}

} // verus!
