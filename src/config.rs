//! Settings the installation starts from.
use vstd::prelude::*;

verus! {

pub struct Config {
    pub device_settings: DeviceSettings,
    pub spatial_settings: SpatialSettings,
}

pub struct DeviceSettings {
    pub dmx_port: Option<String>,
    pub osc_port: u16,
}

/// `default_bounds` is the extent of a zone on the x, y and z axes, in grid units.
pub struct SpatialSettings {
    pub zone_count: usize,
    pub default_bounds: (i64, i64, i64),
}

impl Default for Config {
    fn default() -> (r: Self)
        ensures
            r.device_settings.dmx_port is None,
            r.device_settings.osc_port == 8000,
            r.spatial_settings.zone_count == 4,
            r.spatial_settings.default_bounds == (10i64, 10i64, 3i64),
    {
        Config {
            device_settings: DeviceSettings { dmx_port: None, osc_port: 8000 },
            spatial_settings: SpatialSettings { zone_count: 4, default_bounds: (10, 10, 3) },
        }
    }
}

} // verus!
