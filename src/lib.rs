//! Spatially-aware control of installation devices: zones over a tracked space,
//! a registry of devices that accept commands, and an engine that turns zone
//! transitions into device commands with bounded retries.
use vstd::prelude::*;

pub mod device;
pub mod config;
pub mod dispatch;
pub mod error;
pub mod spatial;

verus! {

/// Version of the library.
pub const VERSION: &'static str = "0.1.0";

/// Greeting that shows the library is linked.
pub fn hello() -> (r: &'static str)
    ensures
        r@ == "Hello from eddi-pad!"@,
{
    "Hello from eddi-pad!"
}

} // verus!
