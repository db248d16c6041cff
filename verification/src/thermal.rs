//! Thermal state and power draw, out of telemetry that is handed in.
//!
//! Temperatures and their trend are singles, as bit patterns.

use crate::ieee::{at_least32, ge32, less32, lt32};
use vstd::prelude::*;

verus! {

#[derive(Debug, Clone, Copy, PartialEq, Eq, Structural)]
pub enum ThermalState {
    Normal,
    Warning,
    Critical,
}

/// 45 degrees, taken until a reading comes in.
pub const INITIAL_TEMP: u32 = 0x4234_0000;

/// 75 degrees.
pub const DEFAULT_WARNING_TEMP: u32 = 0x4296_0000;

/// 85 degrees.
pub const DEFAULT_CRITICAL_TEMP: u32 = 0x42aa_0000;

/// One degree per second.
pub const FAST_TREND: u32 = 0x3f80_0000;

/// The largest power that is believed, in microwatts.
pub const MAX_POWER_UW: u64 = 200_000_000;

/// Nanoseconds between two looks at the frequency.
pub const THROTTLE_INTERVAL_NS: u64 = 50_000_000;

/// One look at the sensors.
#[derive(Debug, Clone, Copy, PartialEq, Eq, Structural)]
pub struct Telemetry {
    pub now_ns: u64,
    pub temp: u32,
    /// Degrees per second since the look before.
    pub temp_trend: u32,
    pub freq_khz: u64,
    /// Energy used so far, in microjoules.
    pub energy_uj: u64,
}

#[derive(Debug, Clone, Copy, PartialEq, Eq, Structural)]
pub struct ThermalLSC {
    pub max_observed_freq: u64,
    pub throttle_count: u32,
    pub warning_temp: u32,
    pub critical_temp: u32,
    pub current_temp: u32,
    pub state: ThermalState,
    pub last_check_ns: u64,
    pub last_energy_uj: u64,
    pub last_energy_ns: u64,
    pub power_uw: u64,
    pub temp_trend: u32,
}

pub type ThermalCoordinator = ThermalLSC;

pub open spec fn state_at(temp: u32, warning: u32, critical: u32) -> ThermalState {
    if at_least32(temp, critical) {
        ThermalState::Critical
    } else if at_least32(temp, warning) {
        ThermalState::Warning
    } else {
        ThermalState::Normal
    }
}

/// Microwatts: microjoules per second, up to the largest that is believed.
pub open spec fn power_of(energy_uj: int, elapsed_ns: int) -> int {
    let power = energy_uj * 1_000_000_000 / elapsed_ns;
    if power > MAX_POWER_UW {
        MAX_POWER_UW as int
    } else {
        power
    }
}

/// The time between two points, at least one nanosecond.
pub open spec fn elapsed_at_least_one(from: u64, to: u64) -> int {
    if to > from {
        to - from
    } else {
        1
    }
}

pub open spec fn energy_used(from: u64, to: u64) -> int {
    if to > from {
        to - from
    } else {
        0
    }
}

pub open spec fn max_freq(a: u64, b: u64) -> u64 {
    if b > a {
        b
    } else {
        a
    }
}

/// The frequency has fallen below seven tenths of the largest seen.
pub open spec fn freq_dropped(freq: u64, max: u64) -> bool {
    max > 0 && freq < max * 70 / 100
}

/// The thermal state before any look at the sensors.
pub open spec fn unheated(warning_temp: u32, critical_temp: u32, now_ns: u64) -> ThermalLSC {
    ThermalLSC {
        max_observed_freq: 0,
        throttle_count: 0,
        warning_temp,
        critical_temp,
        current_temp: INITIAL_TEMP,
        state: ThermalState::Normal,
        last_check_ns: now_ns,
        last_energy_uj: 0,
        last_energy_ns: now_ns,
        power_uw: 0,
        temp_trend: 0,
    }
}

impl ThermalLSC {
    pub fn new(warning_temp: u32, critical_temp: u32, now_ns: u64) -> (t: Self)
        ensures
            t == unheated(warning_temp, critical_temp, now_ns),
    {
        ThermalLSC {
            max_observed_freq: 0,
            throttle_count: 0,
            warning_temp,
            critical_temp,
            current_temp: INITIAL_TEMP,
            state: ThermalState::Normal,
            last_check_ns: now_ns,
            last_energy_uj: 0,
            last_energy_ns: now_ns,
            power_uw: 0,
            temp_trend: 0,
        }
    }

    /// With the default temperatures.
    pub fn with_defaults(now_ns: u64) -> (t: Self)
        ensures
            t == unheated(DEFAULT_WARNING_TEMP, DEFAULT_CRITICAL_TEMP, now_ns),
    {
        Self::new(DEFAULT_WARNING_TEMP, DEFAULT_CRITICAL_TEMP, now_ns)
    }

    /// The state after a look at the sensors.
    pub open spec fn updated(self, t: Telemetry) -> Self {
        ThermalLSC {
            temp_trend: t.temp_trend,
            current_temp: t.temp,
            state: state_at(t.temp, self.warning_temp, self.critical_temp),
            max_observed_freq: max_freq(self.max_observed_freq, t.freq_khz),
            power_uw: if self.last_energy_uj > 0 {
                power_of(
                    energy_used(self.last_energy_uj, t.energy_uj),
                    elapsed_at_least_one(self.last_energy_ns, t.now_ns),
                ) as u64
            } else {
                self.power_uw
            },
            last_energy_uj: t.energy_uj,
            last_energy_ns: t.now_ns,
            last_check_ns: t.now_ns,
            ..self
        }
    }

    /// Takes in one look at the sensors.
    pub fn update(&mut self, t: &Telemetry)
        ensures
            *final(self) == old(self).updated(*t),
            old(self).power_uw <= MAX_POWER_UW ==> final(self).power_uw <= MAX_POWER_UW,
    {
        self.temp_trend = t.temp_trend;
        self.current_temp = t.temp;
        self.state = if ge32(t.temp, self.critical_temp) {
            ThermalState::Critical
        } else if ge32(t.temp, self.warning_temp) {
            ThermalState::Warning
        } else {
            ThermalState::Normal
        };
        if t.freq_khz > self.max_observed_freq {
            self.max_observed_freq = t.freq_khz;
        }
        if self.last_energy_uj > 0 {
            let used: u64 = if t.energy_uj > self.last_energy_uj {
                t.energy_uj - self.last_energy_uj
            } else {
                0
            };
            let elapsed: u64 = if t.now_ns > self.last_energy_ns {
                t.now_ns - self.last_energy_ns
            } else {
                1
            };
            let power: u128 = used as u128 * 1_000_000_000 / elapsed as u128;
            proof {
                vstd::arithmetic::div_mod::lemma_div_pos_is_pos(
                    used * 1_000_000_000,
                    elapsed as int,
                );
            }
            self.power_uw = if power > MAX_POWER_UW as u128 {
                MAX_POWER_UW
            } else {
                power as u64
            };
        }
        self.last_energy_uj = t.energy_uj;
        self.last_energy_ns = t.now_ns;
        self.last_check_ns = t.now_ns;
    }

    /// The power of the last measurement, in microwatts.
    pub fn power_draw_uw(&self) -> (p: u64)
        ensures
            p == self.power_uw,
    {
        self.power_uw
    }

    /// Throttling is near.
    pub open spec fn throttle_near(self, pl1_limit_uw: int) -> bool {
        ||| self.power_uw > pl1_limit_uw * 90 / 100 && less32(0, self.temp_trend)
        ||| at_least32(self.current_temp, self.warning_temp) && less32(FAST_TREND, self.temp_trend)
        ||| self.state == ThermalState::Critical
    }

    /// Whether throttling is near: power close to the limit while the
    /// temperature rises, a warm package that heats up fast, or a critical
    /// state.
    pub fn predictive_throttle(&self, pl1_limit_uw: u64) -> (b: bool)
        ensures
            b == self.throttle_near(pl1_limit_uw as int),
    {
        let limit: u128 = pl1_limit_uw as u128 * 90 / 100;
        if self.power_uw as u128 > limit && lt32(0, self.temp_trend) {
            return true;
        }
        if ge32(self.current_temp, self.warning_temp) && lt32(FAST_TREND, self.temp_trend) {
            return true;
        }
        self.state == ThermalState::Critical
    }

    /// Whether the processor is throttling, judged by its frequency; shortly
    /// after the last look, by the count of drops.
    pub fn is_throttling(&mut self, now_ns: u64, freq_khz: u64) -> (b: bool)
        ensures
            now_ns - old(self).last_check_ns < THROTTLE_INTERVAL_NS ==> *final(self) == *old(self)
                && b == (old(self).throttle_count > 0),
            now_ns - old(self).last_check_ns >= THROTTLE_INTERVAL_NS ==> {
                let max = max_freq(old(self).max_observed_freq, freq_khz);
                &&& b == freq_dropped(freq_khz, max)
                &&& *final(self) == (ThermalLSC {
                    max_observed_freq: max,
                    throttle_count: if b {
                        if old(self).throttle_count == u32::MAX {
                            u32::MAX
                        } else {
                            (old(self).throttle_count + 1) as u32
                        }
                    } else if old(self).throttle_count == 0 {
                        0
                    } else {
                        (old(self).throttle_count - 1) as u32
                    },
                    ..*old(self)
                })
            },
    {
        if now_ns < self.last_check_ns || now_ns - self.last_check_ns < THROTTLE_INTERVAL_NS {
            return self.throttle_count > 0;
        }
        if freq_khz > self.max_observed_freq {
            self.max_observed_freq = freq_khz;
        }
        let floor: u128 = self.max_observed_freq as u128 * 70 / 100;
        if self.max_observed_freq > 0 && (freq_khz as u128) < floor {
            if self.throttle_count < 0xffff_ffff {
                self.throttle_count = self.throttle_count + 1;
            }
            true
        } else {
            if self.throttle_count > 0 {
                self.throttle_count = self.throttle_count - 1;
            }
            false
        }
    }

    /// Notes a temperature; the state waits for the next update.
    pub fn update_temperature(&mut self, temp: u32) -> (s: ThermalState)
        ensures
            s == old(self).state,
            *final(self) == (ThermalLSC { current_temp: temp, ..*old(self) }),
    {
        self.current_temp = temp;
        self.state
    }

    /// How much of the usual work to take on, in tenths, by how far the
    /// frequency is below the largest seen.
    pub fn throttle_factor(&self, freq_khz: u64) -> (tenths: u32)
        ensures
            tenths == (if self.max_observed_freq == 0 {
                10int
            } else if freq_khz * 10 < self.max_observed_freq * 6 {
                3int
            } else if freq_khz * 100 < self.max_observed_freq * 86 {
                7int
            } else {
                10int
            }),
    {
        let max: u128 = self.max_observed_freq as u128;
        if max == 0 {
            10
        } else if (freq_khz as u128) * 10 < max * 6 {
            3
        } else if (freq_khz as u128) * 100 < max * 86 {
            7
        } else {
            10
        }
    }
}

/// A critical package always counts as near throttling, and a cooling one
/// that is not critical never does.
pub proof fn law_throttle_follows_state(t: ThermalLSC, pl1_limit_uw: int)
    ensures
        t.state == ThermalState::Critical ==> t.throttle_near(pl1_limit_uw),
        t.state != ThermalState::Critical && !less32(0, t.temp_trend) && !less32(
            FAST_TREND,
            t.temp_trend,
        ) ==> !t.throttle_near(pl1_limit_uw),
{
}

/// A package is critical from the critical temperature on, and warm from the warning
/// temperature on; hotter is never less.
pub proof fn law_state_follows_temperature(temp: u32, warning: u32, critical: u32)
    requires
        at_least32(critical, warning),
    ensures
        state_at(temp, warning, critical) == ThermalState::Critical <==> at_least32(temp, critical),
        state_at(temp, warning, critical) == ThermalState::Normal <==> !at_least32(temp, warning),
{
}

/// Power is energy over time, rounded down: in microwatts, out of microjoules and
/// nanoseconds.  More than two hundred watts is not believed.
pub proof fn law_power_is_energy_over_time(energy_uj: int, elapsed_ns: int)
    requires
        0 <= energy_uj,
        0 < elapsed_ns,
    ensures
        ({
            let p = power_of(energy_uj, elapsed_ns);
            &&& 0 <= p <= 200_000_000
            &&& p * elapsed_ns <= energy_uj * 1_000_000_000
            &&& p < 200_000_000 ==> energy_uj * 1_000_000_000 < (p + 1) * elapsed_ns
        }),
{
    let e = energy_uj * 1_000_000_000;
    let q = e / elapsed_ns;
    let p = power_of(energy_uj, elapsed_ns);
    vstd::arithmetic::div_mod::lemma_fundamental_div_mod(e, elapsed_ns);
    vstd::arithmetic::div_mod::lemma_div_pos_is_pos(e, elapsed_ns);
    assert(q * elapsed_ns <= e < (q + 1) * elapsed_ns) by (nonlinear_arith)
        requires
            e == elapsed_ns * q + e % elapsed_ns,
            0 <= e % elapsed_ns < elapsed_ns,
    ;
    assert(p * elapsed_ns <= q * elapsed_ns) by (nonlinear_arith)
        requires
            p <= q,
            0 < elapsed_ns,
    ;
}

/// A look at the sensors measures power from the energy that was used since the last
/// one, if there was one; the largest frequency never falls.
pub proof fn law_update_measures_since_the_last_look(s: ThermalLSC, t: Telemetry)
    requires
        s.last_energy_uj > 0,
        t.energy_uj >= s.last_energy_uj,
        t.now_ns > s.last_energy_ns,
    ensures
        s.updated(t).power_uw == power_of(
            t.energy_uj - s.last_energy_uj,
            t.now_ns - s.last_energy_ns,
        ),
        s.updated(t).max_observed_freq >= s.max_observed_freq,
        s.updated(t).max_observed_freq >= t.freq_khz,
        s.updated(t).max_observed_freq == s.max_observed_freq || s.updated(t).max_observed_freq
            == t.freq_khz,
        s.updated(t).current_temp == t.temp,
        s.updated(t).temp_trend == t.temp_trend,
        s.updated(t).last_energy_uj == t.energy_uj,
        s.updated(t).last_energy_ns == t.now_ns,
        s.updated(t).throttle_count == s.throttle_count,
{
    law_power_is_energy_over_time(
        t.energy_uj - s.last_energy_uj,
        t.now_ns - s.last_energy_ns,
    );
}

/// A frequency has dropped if it is below seven tenths of the largest seen.
pub proof fn law_drop_is_below_seven_tenths(freq: u64, max: u64)
    ensures
        freq_dropped(freq, max) ==> 10 * freq < 7 * max,
        10 * (freq + 1) <= 7 * max ==> freq_dropped(freq, max),
{
}

/// Throttling is near where the power is over nine tenths of the limit and the
/// temperature rises, where a warm package heats up by more than a degree per second,
/// and where the package is critical; and nowhere else.
pub proof fn law_throttling_has_three_signs(t: ThermalLSC, limit_uw: int)
    requires
        0 <= limit_uw,
    ensures
        t.state != ThermalState::Critical && t.throttle_near(limit_uw) ==> less32(0, t.temp_trend),
        10 * t.power_uw > 9 * limit_uw + 10 && less32(0, t.temp_trend) ==> t.throttle_near(limit_uw),
        at_least32(t.current_temp, t.warning_temp) && less32(0x3f80_0000, t.temp_trend)
            ==> t.throttle_near(limit_uw),
        t.throttle_near(limit_uw) && t.state != ThermalState::Critical && 10 * t.power_uw <= 9
            * limit_uw ==> at_least32(t.current_temp, t.warning_temp) && less32(
            0x3f80_0000,
            t.temp_trend,
        ),
{
}

/// Before any look at the sensors nothing is known but the limits and the time.
pub proof fn law_nothing_is_known_at_first(warning_temp: u32, critical_temp: u32, now_ns: u64)
    ensures
        ({
            let t = unheated(warning_temp, critical_temp, now_ns);
            &&& t.warning_temp == warning_temp
            &&& t.critical_temp == critical_temp
            &&& t.state is Normal
            &&& t.last_check_ns == now_ns
            &&& t.last_energy_ns == now_ns
            &&& t.max_observed_freq == 0
            &&& t.throttle_count == 0
            &&& t.last_energy_uj == 0
            &&& t.power_uw == 0
            &&& t.temp_trend == 0
        }),
{
}

} // verus!
