//! Verified core of the AegiSec host agent: risk scoring, containment
//! planning, telemetry framing and the parsers behind the sensors.

pub mod text;
pub mod config;
pub mod sensor;
pub mod drs;
pub mod isolator;
pub mod telemetry;
