//! Hybrid logical clocks over a tick counter.
//!
//! The clocks compute; their readings come in as arguments.

use crate::gpu;
use crate::gpu::CudaEvent;
use crate::text;
use crate::text::occurs;
use vstd::prelude::*;
use vstd::std_specs::cmp::PartialOrdSpec;

verus! {

/// Length of a calibration sample, in nanoseconds.
pub const SAMPLE_NS: u64 = 10_000_000;

/// Whether profiling is asked for: by its own switch, or by a log level that
/// shows debug output.
pub fn profiling_requested(switch: Option<&[u8]>, log: Option<&[u8]>) -> (b: bool)
    ensures
        b == ((switch matches Some(s) && s@ == seq![49u8]) || (log matches Some(l) && (occurs(
            l@,
            seq![100u8, 101, 98, 117, 103],
        ) || occurs(l@, seq![116u8, 114, 97, 99, 101])))),
{
    if let Some(s) = switch {
        if s.len() == 1 && s[0] == 49 {
            assert(s@ =~= seq![49u8]);
            return true;
        }
    }
    if let Some(l) = log {
        let debug: [u8; 5] = [100, 101, 98, 117, 103];
        let trace: [u8; 5] = [116, 114, 97, 99, 101];
        assert(debug@ =~= seq![100u8, 101, 98, 117, 103]);
        assert(trace@ =~= seq![116u8, 114, 97, 99, 101]);
        return text::contains(l, &debug) || text::contains(l, &trace);
    }
    false
}

/// A tick counter calibrated to nanoseconds.
pub struct WallClock {
    scale: u64,
    tsc0: u64,
    monon0: u64,
}

/// Nanoseconds per tick in Q32, measured over one sample.
pub open spec fn scale_of(sample_start: int, sample_end: int) -> int {
    if sample_end <= sample_start {
        0x1_0000_0000
    } else {
        SAMPLE_NS * 0x1_0000_0000 / (sample_end - sample_start)
    }
}

/// Measures nanoseconds per tick, in Q32, from the counter before and after
/// a sample; a counter that stood still counts as one tick per nanosecond.
pub fn measure_scale(sample_start: u64, sample_end: u64) -> (scale: u64)
    ensures
        scale == scale_of(sample_start as int, sample_end as int),
{
    if sample_end <= sample_start {
        return 0x1_0000_0000;
    }
    let elapsed: u64 = sample_end - sample_start;
    let ns: u128 = SAMPLE_NS as u128 * 0x1_0000_0000;
    proof {
        vstd::arithmetic::div_mod::lemma_div_is_ordered_by_denominator(
            ns as int,
            1,
            elapsed as int,
        );
    }
    (ns / elapsed as u128) as u64
}

impl WallClock {
    /// Nanoseconds per tick, in Q32.
    pub closed spec fn spec_scale(&self) -> int {
        self.scale as int
    }

    /// The counter at calibration.
    pub closed spec fn base_ticks(&self) -> int {
        self.tsc0 as int
    }

    /// The time at calibration.
    pub closed spec fn base_ns(&self) -> int {
        self.monon0 as int
    }

    /// The time when the counter shows `tsc`.
    pub open spec fn reading(&self, tsc: int) -> int {
        let delta = if tsc > self.base_ticks() {
            tsc - self.base_ticks()
        } else {
            0
        };
        self.base_ns() + delta * self.spec_scale() / 0x1_0000_0000
    }

    /// A clock calibrated at counter `tsc` and time `mono_ns`, with a sample
    /// of the counter's speed.
    pub fn new(tsc: u64, mono_ns: u64, sample_start: u64, sample_end: u64) -> (c: Self)
        ensures
            c.base_ticks() == tsc,
            c.base_ns() == mono_ns,
            c.spec_scale() == scale_of(sample_start as int, sample_end as int),
    {
        let (tsc0, monon0) = Self::calibrate(tsc, mono_ns);
        WallClock { scale: measure_scale(sample_start, sample_end), tsc0, monon0 }
    }

    /// The base of a clock: counter and time, read in quick succession.
    fn calibrate(tsc: u64, mono_ns: u64) -> (r: (u64, u64))
        ensures
            r == (tsc, mono_ns),
    {
        (tsc, mono_ns)
    }

    /// Whether the time at `tsc` can be told.
    pub fn can_read(&self, tsc: u64) -> (b: bool)
        ensures
            b == (self.reading(tsc as int) <= u64::MAX),
    {
        let delta: u64 = if tsc > self.tsc0 {
            tsc - self.tsc0
        } else {
            0
        };
        proof {
            lemma_product_bound(delta as int, self.scale as int);
        }
        let ns: u128 = delta as u128 * self.scale as u128 / 0x1_0000_0000;
        self.monon0 as u128 + ns <= 0xffff_ffff_ffff_ffff
    }

    /// The time in nanoseconds when the counter shows `tsc`.
    pub fn now_ns(&self, tsc: u64) -> (ns: u64)
        requires
            self.reading(tsc as int) <= u64::MAX,
        ensures
            ns == self.reading(tsc as int),
    {
        let delta: u64 = if tsc > self.tsc0 {
            tsc - self.tsc0
        } else {
            0
        };
        proof {
            lemma_product_bound(delta as int, self.scale as int);
        }
        let ns: u128 = delta as u128 * self.scale as u128 / 0x1_0000_0000;
        self.monon0 + ns as u64
    }

    /// Takes a new speed sample.  The old clock is read at `tsc`; the new
    /// base, at `new_tsc`, has that time, so that the clock goes on from it.
    pub fn recalibrate(&mut self, tsc: u64, sample_start: u64, sample_end: u64, new_tsc: u64)
        requires
            old(self).reading(tsc as int) <= u64::MAX,
        ensures
            final(self).base_ticks() == new_tsc,
            final(self).base_ns() == old(self).reading(tsc as int),
            final(self).spec_scale() == scale_of(sample_start as int, sample_end as int),
    {
        let old_now: u64 = self.now_ns(tsc);
        self.scale = measure_scale(sample_start, sample_end);
        self.tsc0 = new_tsc;
        self.monon0 = old_now;
    }
}

proof fn lemma_product_bound(a: int, b: int)
    requires
        0 <= a <= u64::MAX,
        0 <= b <= u64::MAX,
    ensures
        0 <= a * b <= u64::MAX * u64::MAX,
{
    assert(0 <= a * b <= u64::MAX * u64::MAX) by (nonlinear_arith)
        requires
            0 <= a <= u64::MAX,
            0 <= b <= u64::MAX,
    ;
}

/// Time does not go back as the counter goes on.
pub proof fn law_wall_clock_is_monotonic(c: WallClock, earlier: int, later: int)
    requires
        earlier <= later,
        0 <= c.spec_scale(),
    ensures
        c.reading(earlier) <= c.reading(later),
{
    let d1 = if earlier > c.base_ticks() {
        earlier - c.base_ticks()
    } else {
        0
    };
    let d2 = if later > c.base_ticks() {
        later - c.base_ticks()
    } else {
        0
    };
    assert(d1 * c.spec_scale() <= d2 * c.spec_scale()) by (nonlinear_arith)
        requires
            d1 <= d2,
            0 <= c.spec_scale(),
    ;
    vstd::arithmetic::div_mod::lemma_div_is_ordered(
        d1 * c.spec_scale(),
        d2 * c.spec_scale(),
        0x1_0000_0000,
    );
}

/// A clock whose base is moved to a reading of itself goes on from there:
/// at the new base it tells what the old clock told.
pub proof fn law_recalibration_is_continuous(before: WallClock, after: WallClock, tsc: int)
    requires
        after.base_ns() == before.reading(tsc),
    ensures
        after.reading(after.base_ticks()) == before.reading(tsc),
{
    assert(0 * after.spec_scale() == 0) by (nonlinear_arith);
}

/// A length of time in seconds and nanoseconds.
#[derive(Debug, Clone, Copy, PartialEq, Eq, Structural)]
pub struct WallDuration {
    pub secs: u64,
    pub nanos: u32,
}

/// A point on the hybrid timeline.
#[derive(Debug, Clone, Copy, PartialEq, Eq, Structural, Ord)]
pub struct HlcTimestamp {
    /// Nanoseconds.
    pub wall: u64,
    /// Counts events of one wall time.
    pub logical: u32,
}

impl Default for HlcTimestamp {
    fn default() -> (t: Self)
        ensures
            t == (HlcTimestamp { wall: 0, logical: 0 }),
    {
        HlcTimestamp { wall: 0, logical: 0 }
    }
}

impl HlcTimestamp {
    /// By wall time, then by the logical counter.
    pub open spec fn before(self, other: HlcTimestamp) -> bool {
        self.wall < other.wall || (self.wall == other.wall && self.logical < other.logical)
    }

    pub fn new(wall: u64, logical: u32) -> (t: Self)
        ensures
            t == (HlcTimestamp { wall, logical }),
    {
        HlcTimestamp { wall, logical }
    }

    /// The start of the timeline.
    pub fn zero() -> (t: Self)
        ensures
            t == (HlcTimestamp { wall: 0, logical: 0 }),
    {
        HlcTimestamp { wall: 0, logical: 0 }
    }

    /// The wall time as seconds and nanoseconds.
    pub fn wall_duration(&self) -> (d: WallDuration)
        ensures
            d.secs * 1_000_000_000 + d.nanos == self.wall,
            d.nanos < 1_000_000_000,
    {
        WallDuration {
            secs: self.wall / 1_000_000_000,
            nanos: (self.wall % 1_000_000_000) as u32,
        }
    }

    /// Whether this point lies before the other.
    pub fn happened_before(&self, other: &HlcTimestamp) -> (b: bool)
        ensures
            b == self.before(*other),
    {
        self.wall < other.wall || (self.wall == other.wall && self.logical < other.logical)
    }

    /// Whether this point can have caused the other.
    pub fn could_cause(&self, other: &HlcTimestamp) -> (b: bool)
        ensures
            b == self.before(*other),
    {
        self.happened_before(other)
    }
}

impl PartialOrd for HlcTimestamp {
    fn partial_cmp(&self, other: &Self) -> (r: Option<core::cmp::Ordering>) {
        if self.happened_before(other) {
            Some(core::cmp::Ordering::Less)
        } else if other.happened_before(self) {
            Some(core::cmp::Ordering::Greater)
        } else {
            Some(core::cmp::Ordering::Equal)
        }
    }
}

impl vstd::std_specs::cmp::PartialOrdSpecImpl for HlcTimestamp {
    open spec fn obeys_partial_cmp_spec() -> bool {
        true
    }

    open spec fn partial_cmp_spec(&self, other: &Self) -> Option<core::cmp::Ordering> {
        if self.before(*other) {
            Some(core::cmp::Ordering::Less)
        } else if other.before(*self) {
            Some(core::cmp::Ordering::Greater)
        } else {
            Some(core::cmp::Ordering::Equal)
        }
    }
}

/// The timestamp right behind another: the next logical count, and where that
/// has run out, the next nanosecond.  Nothing lies behind the last of all.
pub open spec fn successor(t: HlcTimestamp) -> HlcTimestamp {
    if t.logical < u32::MAX {
        HlcTimestamp { wall: t.wall, logical: (t.logical + 1) as u32 }
    } else if t.wall < u64::MAX {
        HlcTimestamp { wall: (t.wall + 1) as u64, logical: 0 }
    } else {
        t
    }
}

/// The timestamp after `last` when the clock shows `physical`.
pub open spec fn next_stamp(last: HlcTimestamp, physical: u64) -> HlcTimestamp {
    if physical > last.wall {
        HlcTimestamp { wall: physical, logical: 0 }
    } else {
        successor(last)
    }
}

/// The end of the timeline.
pub open spec fn last_of_all() -> HlcTimestamp {
    HlcTimestamp { wall: u64::MAX, logical: u32::MAX }
}

pub open spec fn max_stamp(a: HlcTimestamp, b: HlcTimestamp) -> HlcTimestamp {
    if a.before(b) {
        b
    } else {
        a
    }
}

/// Timestamps that never go back, whatever the wall clock does.
pub struct HybridClock {
    wall_clock: WallClock,
    last: HlcTimestamp,
}

impl HybridClock {
    pub closed spec fn spec_wall_clock(&self) -> WallClock {
        self.wall_clock
    }

    /// The last timestamp that was given out.
    pub closed spec fn last_stamp(&self) -> HlcTimestamp {
        self.last
    }

    /// The time when the counter shows `tsc`.
    pub open spec fn physical(&self, tsc: u64) -> u64 {
        self.spec_wall_clock().reading(tsc as int) as u64
    }

    /// The counter can be read as a time.
    pub open spec fn readable(&self, tsc: u64) -> bool {
        self.spec_wall_clock().reading(tsc as int) <= u64::MAX
    }

    /// A clock over `wall_clock`, started when the counter shows `tsc`.
    pub fn new(wall_clock: WallClock, tsc: u64) -> (c: Self)
        requires
            wall_clock.reading(tsc as int) <= u64::MAX,
        ensures
            c.spec_wall_clock() == wall_clock,
            c.last_stamp() == (HlcTimestamp {
                wall: wall_clock.reading(tsc as int) as u64,
                logical: 0,
            }),
    {
        let wall: u64 = wall_clock.now_ns(tsc);
        HybridClock { wall_clock, last: HlcTimestamp { wall, logical: 0 } }
    }

    /// A new timestamp, after all that this clock gave out.
    pub fn now(&mut self, tsc: u64) -> (t: HlcTimestamp)
        requires
            old(self).readable(tsc),
        ensures
            t == next_stamp(old(self).last_stamp(), old(self).physical(tsc)),
            final(self).last_stamp() == t,
            final(self).spec_wall_clock() == old(self).spec_wall_clock(),
    {
        let physical: u64 = self.wall_clock.now_ns(tsc);
        self.last = if physical > self.last.wall {
            HlcTimestamp { wall: physical, logical: 0 }
        } else {
            advance(self.last)
        };
        self.last
    }

    /// Takes in a timestamp from elsewhere; the new timestamp, and with it
    /// the clock, is ahead of it.
    pub fn witness(&mut self, ts: HlcTimestamp, tsc: u64) -> (t: HlcTimestamp)
        requires
            old(self).readable(tsc),
        ensures
            t == next_stamp(max_stamp(old(self).last_stamp(), ts), old(self).physical(tsc)),
            final(self).last_stamp() == t,
            final(self).spec_wall_clock() == old(self).spec_wall_clock(),
    {
        let physical: u64 = self.wall_clock.now_ns(tsc);
        let seen = if self.last.happened_before(&ts) {
            ts
        } else {
            self.last
        };
        self.last = if physical > seen.wall {
            HlcTimestamp { wall: physical, logical: 0 }
        } else {
            advance(seen)
        };
        self.last
    }

    pub fn recalibrate(&mut self, tsc: u64, sample_start: u64, sample_end: u64, new_tsc: u64)
        requires
            old(self).readable(tsc),
        ensures
            final(self).last_stamp() == old(self).last_stamp(),
            final(self).spec_wall_clock().base_ticks() == new_tsc,
            final(self).spec_wall_clock().base_ns() == old(self).spec_wall_clock().reading(
                tsc as int,
            ),
            final(self).spec_wall_clock().spec_scale() == scale_of(
                sample_start as int,
                sample_end as int,
            ),
    {
        self.wall_clock.recalibrate(tsc, sample_start, sample_end, new_tsc);
    }

    /// The clock underneath.
    pub fn wall_clock(&self) -> (c: &WallClock)
        ensures
            *c == self.spec_wall_clock(),
    {
        &self.wall_clock
    }
}

fn advance(t: HlcTimestamp) -> (r: HlcTimestamp)
    ensures
        r == successor(t),
{
    if t.logical < 0xffff_ffff {
        HlcTimestamp { wall: t.wall, logical: t.logical + 1 }
    } else if t.wall < 0xffff_ffff_ffff_ffff {
        HlcTimestamp { wall: t.wall + 1, logical: 0 }
    } else {
        t
    }
}

/// A new timestamp is after the last one, unless that is the end of the
/// timeline.
pub proof fn law_timestamps_ascend(last: HlcTimestamp, physical: u64)
    requires
        last != last_of_all(),
    ensures
        last.before(next_stamp(last, physical)),
{
}

/// After a foreign timestamp is taken in, the clock is ahead of it and of
/// all that it gave out, unless one of them is the end of the timeline.
pub proof fn law_witness_stays_ahead(last: HlcTimestamp, ts: HlcTimestamp, physical: u64)
    requires
        last != last_of_all(),
        ts != last_of_all(),
    ensures
        last.before(next_stamp(max_stamp(last, ts), physical)),
        ts.before(next_stamp(max_stamp(last, ts), physical)),
{
}

/// The order of timestamps is total and strict.
pub proof fn law_order_is_total(a: HlcTimestamp, b: HlcTimestamp, c: HlcTimestamp)
    ensures
        !a.before(a),
        a.before(b) || b.before(a) || a == b,
        a.before(b) ==> !b.before(a),
        a.before(b) && b.before(c) ==> a.before(c),
{
}

/// Times a device operation between two events.
pub struct CudaEventTimer {
    start: CudaEvent,
    end: CudaEvent,
}

impl CudaEventTimer {
    /// Without a native device runtime there are no events to time with.
    pub fn new(gpu_available: bool) -> (t: Option<Self>)
        ensures
            t is None,
    {
        if !gpu_available {
            return None;
        }
        match gpu::gpu_event_create() {
            Ok(start) => match gpu::gpu_event_create() {
                Ok(end) => Some(CudaEventTimer { start, end }),
                Err(_) => None,
            },
            Err(_) => None,
        }
    }

    /// Whether the start was recorded.
    pub fn record_start(&self) -> (b: bool)
        ensures
            !b,
    {
        gpu::gpu_event_record(self.start, 0).is_ok()
    }

    /// Whether the end was recorded.
    pub fn record_end(&self) -> (b: bool)
        ensures
            !b,
    {
        gpu::gpu_event_record(self.end, 0).is_ok()
    }
}

/// How long a layer took.
#[derive(Debug, Clone, Copy, PartialEq, Eq, Structural)]
pub struct LayerTiming {
    pub layer: usize,
    pub wall_start: HlcTimestamp,
    pub wall_end: HlcTimestamp,
    /// Milliseconds on the device, as a bit pattern.
    pub gpu_attention_ms: Option<u64>,
    pub elapsed_ns: u64,
}

impl Default for LayerTiming {
    fn default() -> (t: Self)
        ensures
            t == (LayerTiming {
                layer: 0,
                wall_start: HlcTimestamp { wall: 0, logical: 0 },
                wall_end: HlcTimestamp { wall: 0, logical: 0 },
                gpu_attention_ms: None,
                elapsed_ns: 0,
            }),
    {
        LayerTiming {
            layer: 0,
            wall_start: HlcTimestamp::zero(),
            wall_end: HlcTimestamp::zero(),
            gpu_attention_ms: None,
            elapsed_ns: 0,
        }
    }
}

/// The figures of a profile.
#[derive(Debug, Clone, Copy, PartialEq, Eq, Structural)]
pub struct ProfileSummary {
    pub layers: usize,
    pub avg_ns: u64,
    /// The slowest layer; of equals, the last.
    pub max_layer: usize,
    pub max_ns: u64,
    pub total_ns: u64,
}

/// Collects layer timings.
pub struct ProfileSink {
    pub enabled: bool,
    pub layers: Vec<LayerTiming>,
    pub clock: HybridClock,
}

/// The time spent in the first `n` layers.
pub open spec fn total_ns(layers: Seq<LayerTiming>, n: int) -> int
    decreases n,
{
    if n <= 0 {
        0
    } else {
        total_ns(layers, n - 1) + layers[n - 1].elapsed_ns
    }
}

/// Place of the slowest of the first `n` layers; of equals, the last.
pub open spec fn slowest(layers: Seq<LayerTiming>, n: int) -> int
    decreases n,
{
    if n <= 1 {
        0
    } else {
        let s = slowest(layers, n - 1);
        if layers[n - 1].elapsed_ns >= layers[s].elapsed_ns {
            n - 1
        } else {
            s
        }
    }
}

pub open spec fn wall_elapsed(start: HlcTimestamp, end: HlcTimestamp) -> u64 {
    if end.wall > start.wall {
        (end.wall - start.wall) as u64
    } else {
        0
    }
}

impl ProfileSink {
    pub fn new(enabled: bool, clock: HybridClock) -> (s: Self)
        ensures
            s == (ProfileSink { enabled, layers: s.layers, clock }),
            s.layers@ == Seq::<LayerTiming>::empty(),
    {
        ProfileSink { enabled, layers: Vec::new(), clock }
    }

    /// Starts the timing of a layer.
    pub fn begin_layer(&mut self, layer: usize, gpu_expected: bool, tsc: u64) -> (t: LayerTiming)
        requires
            old(self).clock.readable(tsc),
        ensures
            final(self).enabled == old(self).enabled,
            final(self).layers == old(self).layers,
            !old(self).enabled ==> *final(self) == *old(self) && t == (LayerTiming {
                layer: 0,
                wall_start: HlcTimestamp { wall: 0, logical: 0 },
                wall_end: HlcTimestamp { wall: 0, logical: 0 },
                gpu_attention_ms: None,
                elapsed_ns: 0,
            }),
            old(self).enabled ==> {
                &&& final(self).clock.last_stamp() == next_stamp(
                    old(self).clock.last_stamp(),
                    old(self).clock.physical(tsc),
                )
                &&& final(self).clock.spec_wall_clock() == old(self).clock.spec_wall_clock()
                &&& t == (LayerTiming {
                    layer,
                    wall_start: final(self).clock.last_stamp(),
                    wall_end: HlcTimestamp { wall: 0, logical: 0 },
                    gpu_attention_ms: if gpu_expected {
                        Some(0u64)
                    } else {
                        None
                    },
                    elapsed_ns: 0,
                })
            },
    {
        if !self.enabled {
            return LayerTiming::default();
        }
        let ts = self.clock.now(tsc);
        LayerTiming {
            layer,
            wall_start: ts,
            wall_end: HlcTimestamp::zero(),
            gpu_attention_ms: if gpu_expected {
                Some(0)
            } else {
                None
            },
            elapsed_ns: 0,
        }
    }

    /// Ends the timing of a layer and keeps it.
    pub fn end_layer(&mut self, timing: LayerTiming, tsc: u64)
        requires
            old(self).clock.readable(tsc),
        ensures
            final(self).enabled == old(self).enabled,
            !old(self).enabled ==> *final(self) == *old(self),
            old(self).enabled ==> {
                &&& final(self).clock.last_stamp() == next_stamp(
                    old(self).clock.last_stamp(),
                    old(self).clock.physical(tsc),
                )
                &&& final(self).clock.spec_wall_clock() == old(self).clock.spec_wall_clock()
                &&& final(self).layers@ == old(self).layers@.push(
                    LayerTiming {
                        wall_end: final(self).clock.last_stamp(),
                        elapsed_ns: wall_elapsed(
                            timing.wall_start,
                            final(self).clock.last_stamp(),
                        ),
                        ..timing
                    },
                )
            },
    {
        if !self.enabled {
            return ;
        }
        let ts = self.clock.now(tsc);
        let elapsed_ns: u64 = if ts.wall > timing.wall_start.wall {
            ts.wall - timing.wall_start.wall
        } else {
            0
        };
        self.layers.push(
            LayerTiming {
                layer: timing.layer,
                wall_start: timing.wall_start,
                wall_end: ts,
                gpu_attention_ms: timing.gpu_attention_ms,
                elapsed_ns,
            },
        );
    }

    /// Notes the device time of a layer.
    pub fn record_gpu_attention(&self, timing: &mut LayerTiming, elapsed_ms: u64)
        ensures
            *final(timing) == (if self.enabled {
                LayerTiming { gpu_attention_ms: Some(elapsed_ms), ..*old(timing) }
            } else {
                *old(timing)
            }),
    {
        if self.enabled {
            timing.gpu_attention_ms = Some(elapsed_ms);
        }
    }

    pub fn is_empty(&self) -> (b: bool)
        ensures
            b == (!self.enabled || self.layers@.len() == 0),
    {
        !self.enabled || self.layers.len() == 0
    }

    /// The figures of what was collected, or none without data.
    pub fn report(&self) -> (r: Option<ProfileSummary>)
        requires
            total_ns(self.layers@, self.layers@.len() as int) <= u64::MAX,
        ensures
            r is None <==> self.layers@.len() == 0,
            r matches Some(p) ==> {
                let n = self.layers@.len() as int;
                let s = slowest(self.layers@, n);
                &&& p.layers == n
                &&& p.total_ns == total_ns(self.layers@, n)
                &&& p.avg_ns == p.total_ns as int / n
                &&& p.max_layer == self.layers@[s].layer
                &&& p.max_ns == self.layers@[s].elapsed_ns
            },
    {
        let n: usize = self.layers.len();
        if n == 0 {
            return None;
        }
        let mut total: u64 = 0;
        let mut at: usize = 0;
        let mut i: usize = 0;
        while i < n
            invariant
                i <= n,
                n == self.layers@.len(),
                0 < n,
                total == total_ns(self.layers@, i as int),
                at == slowest(self.layers@, i as int),
                at < n,
                total_ns(self.layers@, n as int) <= u64::MAX,
            decreases n - i,
        {
            proof {
                lemma_total_grows(self.layers@, i + 1, n as int);
            }
            total = total + self.layers[i].elapsed_ns;
            if i > 0 && self.layers[i].elapsed_ns >= self.layers[at].elapsed_ns {
                at = i;
            }
            i = i + 1;
        }
        Some(
            ProfileSummary {
                layers: n,
                avg_ns: total / n as u64,
                max_layer: self.layers[at].layer,
                max_ns: self.layers[at].elapsed_ns,
                total_ns: total,
            },
        )
    }
}

proof fn lemma_total_grows(layers: Seq<LayerTiming>, a: int, b: int)
    requires
        0 <= a <= b <= layers.len(),
    ensures
        0 <= total_ns(layers, a) <= total_ns(layers, b),
    decreases b,
{
    if a < b {
        lemma_total_grows(layers, a, b - 1);
    } else if a > 0 {
        lemma_total_grows(layers, a - 1, a - 1);
    }
}

/// No layer is slower than the one that a report names.
pub proof fn law_report_names_the_slowest(layers: Seq<LayerTiming>, n: int, i: int)
    requires
        0 <= i < n <= layers.len(),
    ensures
        0 <= slowest(layers, n) < n,
        layers[i].elapsed_ns <= layers[slowest(layers, n)].elapsed_ns,
    decreases n,
{
    if n > 1 {
        law_report_names_the_slowest(
            layers,
            n - 1,
            if i < n - 1 {
                i
            } else {
                0
            },
        );
    }
}

/// The clock goes at the speed that was measured: as many ticks as a sample took are the
/// ten milliseconds of the sample, to the nanosecond.
pub proof fn law_clock_goes_at_the_measured_speed(c: WallClock, start: int, end: int)
    requires
        0 <= start < end,
        end - start <= 0x1_0000_0000,
        c.spec_scale() == scale_of(start, end),
    ensures
        ({
            let passed = c.reading(c.base_ticks() + (end - start)) - c.base_ns();
            10_000_000 - 1 <= passed <= 10_000_000
        }),
{
    let t = end - start;
    let whole: int = 10_000_000int * 0x1_0000_0000int;
    let scale = c.spec_scale();
    vstd::arithmetic::div_mod::lemma_fundamental_div_mod(whole, t);
    assert(scale == whole / t);
    assert(whole - t < t * scale <= whole) by (nonlinear_arith)
        requires
            whole == t * scale + whole % t,
            0 <= whole % t < t,
    ;
}

/// A new timestamp is the first on the timeline that is after the last one and not
/// before the clock.
pub proof fn law_new_timestamp_is_the_first_possible(
    last: HlcTimestamp,
    physical: u64,
    other: HlcTimestamp,
)
    requires
        last.before(other),
        !other.before(HlcTimestamp { wall: physical, logical: 0 }),
    ensures
        !other.before(next_stamp(last, physical)),
        !next_stamp(last, physical).before(HlcTimestamp { wall: physical, logical: 0 }),
{
}

/// Wall time comes first in the order of timestamps, and the count decides only within
/// one wall time.
pub proof fn law_wall_time_orders_first(a: HlcTimestamp, b: HlcTimestamp)
    ensures
        a.wall < b.wall ==> a.before(b),
        a.wall == b.wall ==> (a.before(b) <==> a.logical < b.logical),
{
}

/// A layer's time is what passed between its timestamps, and nothing if time stood still
/// or went back.
pub proof fn law_elapsed_time_adds_up(start: HlcTimestamp, end: HlcTimestamp)
    ensures
        start.wall <= end.wall ==> start.wall + wall_elapsed(start, end) == end.wall,
        end.wall <= start.wall ==> wall_elapsed(start, end) == 0,
{
}

/// The time of all layers is no less than that of one, and grows by what each adds; of
/// equally slow layers the last is named.
pub proof fn law_report_adds_layers(layers: Seq<LayerTiming>, n: int, i: int)
    requires
        0 <= i < n <= layers.len(),
    ensures
        total_ns(layers, 0) == 0,
        total_ns(layers, i + 1) - total_ns(layers, i) == layers[i].elapsed_ns,
        total_ns(layers, n) >= layers[i].elapsed_ns,
        slowest(layers, n) < i ==> layers[i].elapsed_ns < layers[slowest(layers, n)].elapsed_ns,
    decreases n,
{
    lemma_total_grows(layers, i + 1, n);
    lemma_total_grows(layers, 0, i);
    law_report_names_the_slowest(layers, n, i);
    if i < n - 1 {
        law_report_adds_layers(layers, n - 1, i);
    }
}

/// Comparing timestamps goes by the wall time, then by the logical count.
pub proof fn law_timestamps_compare_by_time(a: HlcTimestamp, b: HlcTimestamp)
    ensures
        a.partial_cmp_spec(&b) == Some(core::cmp::Ordering::Less) <==> a.wall < b.wall || (a.wall
            == b.wall && a.logical < b.logical),
        a.partial_cmp_spec(&b) == Some(core::cmp::Ordering::Greater) <==> a.wall > b.wall || (
        a.wall == b.wall && a.logical > b.logical),
        a.partial_cmp_spec(&b) == Some(core::cmp::Ordering::Equal) <==> a.wall == b.wall
            && a.logical == b.logical,
{
}

} // verus!
