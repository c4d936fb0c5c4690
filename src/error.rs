//! Errors raised while a configuration is put together.
use vstd::prelude::*;

verus! {

/// A configuration that cannot be accepted; each variant carries the offending id.
#[derive(Clone, Debug, PartialEq, Eq)]
pub enum ConfigurationError {
    DuplicateZoneId(String),
    DuplicateDeviceId(String),
    MalformedBounds(String),
    UnknownZone(String),
    UnknownDevice(String),
    NoAttempts,
}

} // verus!
