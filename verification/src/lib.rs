//! The pure fan-control core: one deterministic tick per fan profile.
//!
//! There is no I/O and no clock here. The time, the readings of the sensor
//! sources and the duty that a port runs at come in with every tick, and
//! exactly one [`profile::Outcome`] per profile goes out, with the faults that
//! go with it.
//!
//! - [`config`]: configuration values and their validation
//! - [`ema`]: the time-corrected moving average
//! - [`fold`]: several temperatures into one
//! - [`curve`]: a duty as a piecewise linear function of temperature
//! - [`pid`]: the controller that holds a temperature
//! - [`slew`]: how far a duty may move in one tick
//! - [`tripwire`]: which sources call for protection, shared by all profiles
//! - [`profile`]: the tick of one profile
//! - [`interface`]: what the public calls give, one after another
//!
//! Numbers are binary64 numbers ([`float`]), computed on integers and proved
//! correctly rounded ([`rounding`], [`order`]); [`accuracy`] says how far results
//! are from the exact ones.

pub mod accuracy;
pub mod config;
pub mod curve;
pub mod ema;
pub mod float;
pub mod fold;
pub mod interface;
pub mod order;
pub mod pid;
pub mod profile;
pub mod rounding;
pub mod slew;
pub mod source_map;
pub mod text;
pub mod time;
pub mod tripwire;
