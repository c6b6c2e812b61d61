//! The values that stand in for what a configuration leaves out.

use crate::float::{whole, Float64};
use vstd::prelude::*;

verus! {

/// The time constant of a comfort source's filter, in seconds: 1.5.
pub fn comfort_ema_tau_s() -> (r: Float64)
    ensures
        r == whole(3).over(whole(2)),
{
    Float64::from_u64(3).div(Float64::from_u64(2))
}

/// Comfort sources are required unless the configuration says otherwise.
pub fn comfort_required() -> (r: bool)
    ensures
        r,
{
    true
}

/// The duty a latched tripwire asks for, in percent: 90.
pub fn protection_target() -> (r: Float64)
    ensures
        r == whole(90),
{
    Float64::from_u64(90)
}

/// The proportional gain, in percent per degree: 2.
pub fn kp() -> (r: Float64)
    ensures
        r == whole(2),
{
    Float64::from_u64(2)
}

/// The integral gain, in percent per degree and second: 0.2.
pub fn ki() -> (r: Float64)
    ensures
        r == whole(1).over(whole(5)),
{
    Float64::from_u64(1).div(Float64::from_u64(5))
}

/// The derivative gain, in percent seconds per degree: 0.
pub fn kd() -> (r: Float64)
    ensures
        r == whole(0),
{
    Float64::from_u64(0)
}

/// The upward slew rate, in percent per second: 20.
pub fn slew_up() -> (r: Float64)
    ensures
        r == whole(20),
{
    Float64::from_u64(20)
}

/// The downward slew rate, in percent per second: 7.
pub fn slew_down() -> (r: Float64)
    ensures
        r == whole(7),
{
    Float64::from_u64(7)
}

/// The age, in seconds, at which a comfort sample is stale: 10.
pub fn max_staleness_s() -> (r: Float64)
    ensures
        r == whole(10),
{
    Float64::from_u64(10)
}

/// The longest step, in seconds, that filters and controllers integrate: 5.
pub fn max_tick_gap_s() -> (r: Float64)
    ensures
        r == whole(5),
{
    Float64::from_u64(5)
}

} // verus!
