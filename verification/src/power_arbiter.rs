//! Dividing the power of a package between processor and graphics.
//!
//! Measurements are doubles, as bit patterns.

use crate::ieee::{less64, lt64};
use vstd::prelude::*;

verus! {

/// Nanoseconds between two assessments.
pub const ARBITER_INTERVAL_NS: u64 = 500_000_000;

/// Half a degree per second.
pub const RISING_TREND: u64 = 0x3fe0_0000_0000_0000;

/// 80 degrees.
pub const HOT_TEMP: u64 = 0x4054_0000_0000_0000;

/// 70 degrees.
pub const COOL_TEMP: u64 = 0x4051_8000_0000_0000;

/// How the share of the processor changes, in hundredths.
#[derive(Debug, Clone, Copy, PartialEq, Eq, Structural)]
pub enum PowerShift {
    /// Down, but not below a bound.
    TowardsGraphics { by: u32, floor: u32 },
    /// Up, but not above a bound.
    TowardsProcessor { by: u32, ceiling: u32 },
    Keep,
}

/// One measurement, with the two marks of the power limit that it is held
/// against.
#[derive(Debug, Clone, Copy, PartialEq, Eq, Structural)]
pub struct PowerReading {
    pub power_w: u64,
    /// Nine tenths of the limit.
    pub near_limit_w: u64,
    /// Six tenths of the limit.
    pub low_power_w: u64,
    pub temp_c: u64,
    pub temp_trend: u64,
}

pub open spec fn shift_for(r: PowerReading) -> PowerShift {
    if less64(r.near_limit_w, r.power_w) && less64(RISING_TREND, r.temp_trend) {
        PowerShift::TowardsGraphics { by: 10, floor: 20 }
    } else if less64(HOT_TEMP, r.temp_c) && less64(0, r.temp_trend) {
        PowerShift::TowardsGraphics { by: 5, floor: 30 }
    } else if less64(r.power_w, r.low_power_w) && less64(r.temp_c, COOL_TEMP) {
        PowerShift::TowardsProcessor { by: 5, ceiling: 85 }
    } else {
        PowerShift::Keep
    }
}

/// Keeps the pace of the assessments.
pub struct PowerArbiter {
    pub last_assessment_ns: u64,
}

impl PowerArbiter {
    pub fn new(now_ns: u64) -> (a: Self)
        ensures
            a.last_assessment_ns == now_ns,
    {
        PowerArbiter { last_assessment_ns: now_ns }
    }

    /// Whether an assessment is due.
    pub fn due(&self, now_ns: u64) -> (b: bool)
        ensures
            b == (now_ns - self.last_assessment_ns >= ARBITER_INTERVAL_NS),
    {
        now_ns >= self.last_assessment_ns && now_ns - self.last_assessment_ns
            >= ARBITER_INTERVAL_NS
    }

    /// How the share of the processor changes, at most once per interval.
    pub fn reassess(&mut self, now_ns: u64, r: &PowerReading) -> (s: PowerShift)
        ensures
            now_ns - old(self).last_assessment_ns < ARBITER_INTERVAL_NS ==> s == PowerShift::Keep
                && *final(self) == *old(self),
            now_ns - old(self).last_assessment_ns >= ARBITER_INTERVAL_NS ==> s == shift_for(*r)
                && final(self).last_assessment_ns == now_ns,
    {
        if !self.due(now_ns) {
            return PowerShift::Keep;
        }
        self.last_assessment_ns = now_ns;
        if lt64(r.near_limit_w, r.power_w) && lt64(RISING_TREND, r.temp_trend) {
            PowerShift::TowardsGraphics { by: 10, floor: 20 }
        } else if lt64(HOT_TEMP, r.temp_c) && lt64(0, r.temp_trend) {
            PowerShift::TowardsGraphics { by: 5, floor: 30 }
        } else if lt64(r.power_w, r.low_power_w) && lt64(r.temp_c, COOL_TEMP) {
            PowerShift::TowardsProcessor { by: 5, ceiling: 85 }
        } else {
            PowerShift::Keep
        }
    }
}

/// Power moves towards the graphics by ten hundredths where it is near the limit and the
/// temperature rises by more than half a degree per second, else by five where it is
/// above eighty degrees and rises; towards the processor only where neither holds, power
/// is low and it is below seventy degrees.
pub proof fn law_power_follows_heat(r: PowerReading)
    ensures
        shift_for(r) matches PowerShift::TowardsGraphics { by, floor } ==> (by == 10 && floor == 20)
            || (by == 5 && floor == 30),
        shift_for(r) == (PowerShift::TowardsGraphics { by: 10, floor: 20 }) <==> less64(
            r.near_limit_w,
            r.power_w,
        ) && less64(0x3fe0_0000_0000_0000, r.temp_trend),
        less64(0x4054_0000_0000_0000, r.temp_c) && less64(0, r.temp_trend) ==> shift_for(
            r,
        ) is TowardsGraphics,
        shift_for(r) == (PowerShift::TowardsGraphics { by: 5, floor: 30 }) ==> less64(
            0x4054_0000_0000_0000,
            r.temp_c,
        ) && less64(0, r.temp_trend),
        shift_for(r) is TowardsProcessor ==> shift_for(r) == (PowerShift::TowardsProcessor {
            by: 5,
            ceiling: 85,
        }) && less64(r.power_w, r.low_power_w) && less64(r.temp_c, 0x4051_8000_0000_0000),
        less64(r.power_w, r.low_power_w) && less64(r.temp_c, 0x4051_8000_0000_0000) ==> !(
        shift_for(r) is Keep),
{
}

} // verus!
