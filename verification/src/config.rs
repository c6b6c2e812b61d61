//! Configuration values, and their validation.

pub mod defaults;
pub mod validation;

pub use validation::{validate, validate_control, ValidationError, ValidationErrors};

use crate::float::{whole, Float64};
use crate::source_map::SourceMap;
use crate::time::{law_whole_seconds_are_exact, representable};
use vstd::prelude::*;

verus! {

/// The name of a sensor source.
pub type SourceKey = crate::source_map::SourceKey;

/// How a profile drives its port.
#[derive(Debug, Clone, Copy, PartialEq, Eq, Structural)]
pub enum Mode {
    /// A fixed duty.
    StaticPercent,
    /// A duty looked up on a curve over temperature.
    Curve,
    /// A duty that a controller sets to hold a temperature.
    TargetTemp,
    /// The device drives the port by itself.
    DeviceMemory,
}

/// How the comfort sources are reduced to one temperature.
#[derive(Debug, Clone, Copy, PartialEq, Eq, Structural)]
pub enum FoldRule {
    /// The hottest source counts.
    Max,
    /// All sources count alike.
    Avg,
}

impl Default for FoldRule {
    fn default() -> (r: FoldRule)
        ensures
            r == FoldRule::Max,
    {
        FoldRule::Max
    }
}

/// One point of a curve.
#[derive(Debug, Clone, Copy, PartialEq)]
pub struct CurvePoint {
    /// Temperature, in degrees Celsius.
    pub temp_c: Float64,
    /// Duty, in percent.
    pub pwm: Float64,
}

/// The gains of a controller.
#[derive(Debug, Clone, Copy, PartialEq)]
pub struct PidGains {
    pub kp: Float64,
    pub ki: Float64,
    pub kd: Float64,
}

/// How fast the duty may change, in percent per second.
#[derive(Debug, Clone, Copy, PartialEq)]
pub struct SlewRates {
    pub up: Float64,
    pub down: Float64,
}

impl Default for SlewRates {
    fn default() -> (r: SlewRates)
        ensures
            r.up == whole(20),
            r.down == whole(7),
    {
        SlewRates { up: defaults::slew_up(), down: defaults::slew_down() }
    }
}

/// A source's tuning as a comfort source.
#[derive(Debug, Clone, Copy, PartialEq)]
pub struct ComfortSourceConfig {
    /// Time constant of the filter, in seconds.
    pub ema_tau_s: Float64,
    /// Whether the port fails safe without this source.
    pub required: bool,
}

/// A source's tuning as a tripwire.
#[derive(Debug, Clone, Copy, PartialEq)]
pub struct TripwireConfig {
    /// The smoothed temperature that trips, in degrees Celsius.
    pub threshold_c: Float64,
    /// The smoothed rise that trips, in degrees per second.
    pub spike_rate_c_per_s: Float64,
    /// Time constant of the filter, in seconds.
    pub ema_tau_s: Float64,
    /// How far below the threshold the latch clears, in degrees.
    pub hysteresis_c: Float64,
    /// The duty that a latched tripwire asks for, in percent.
    pub protection_target: Float64,
}

/// What the configuration says of one sensor source.
#[derive(Debug, Clone, Copy, PartialEq)]
pub struct SensorSourceConfig {
    pub display_only: bool,
    pub comfort: Option<ComfortSourceConfig>,
    pub tripwire: Option<TripwireConfig>,
}

/// A profile's use of a comfort source; what is left out comes from the
/// source's own tuning.
#[derive(Debug, Clone, PartialEq)]
pub struct ComfortSourceRef {
    pub key: SourceKey,
    pub ema_tau_s: Option<Float64>,
    pub required: Option<bool>,
}

/// A profile's use of a tripwire.
#[derive(Debug, Clone, PartialEq, Eq)]
pub struct TripwireRef {
    pub key: SourceKey,
}

/// The configuration of one profile, which owns one port.
#[derive(Debug, Clone, PartialEq)]
pub struct FanProfileConfig {
    pub id: String,
    pub mode: Mode,
    /// The fixed duty, in percent.
    pub static_percent: Option<Float64>,
    pub curve_points: Option<Vec<CurvePoint>>,
    /// The temperature to hold, in degrees Celsius.
    pub setpoint_c: Option<Float64>,
    pub gains: Option<PidGains>,
    /// The least duty of the temperature-driven modes, in percent.
    pub min_duty: Float64,
    pub fold: FoldRule,
    pub slew: SlewRates,
    pub comfort: Vec<ComfortSourceRef>,
    pub tripwires: Vec<TripwireRef>,
    pub display_only: Vec<SourceKey>,
}

/// What all profiles share.
#[derive(Debug, Clone)]
pub struct FanControlConfig {
    pub sensor_sources: SourceMap<SensorSourceConfig>,
    /// The age, in seconds, at which a comfort sample is stale.
    pub max_staleness_s: Float64,
    /// The longest step, in seconds, that filters and controllers integrate.
    pub max_tick_gap_s: Float64,
}

impl FanControlConfig {
    /// The table of sources is in order.
    pub open spec fn wf(&self) -> bool {
        self.sensor_sources.wf()
    }
}

impl Default for FanControlConfig {
    fn default() -> (r: FanControlConfig)
        ensures
            r.wf(),
            r.sensor_sources@ == Seq::<(Seq<char>, SensorSourceConfig)>::empty(),
            r.max_staleness_s == whole(10),
            r.max_tick_gap_s == whole(5),
            representable(r.max_staleness_s),
            representable(r.max_tick_gap_s),
    {
        proof {
            law_whole_seconds_are_exact(10);
            law_whole_seconds_are_exact(5);
        }
        FanControlConfig {
            sensor_sources: SourceMap::new(),
            max_staleness_s: defaults::max_staleness_s(),
            max_tick_gap_s: defaults::max_tick_gap_s(),
        }
    }
}

} // verus!
