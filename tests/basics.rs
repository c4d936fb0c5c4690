use eddi_pad::config::Config;
use eddi_pad::{hello, VERSION};

#[test]
fn test_version() {
    assert!(!VERSION.is_empty());
}

#[test]
fn test_hello() {
    assert_eq!(hello(), "Hello from eddi-pad!");
}

#[test]
fn test_default_config() {
    let config = Config::default();
    assert_eq!(config.device_settings.osc_port, 8000);
    assert_eq!(config.spatial_settings.zone_count, 4);
}

#[test]
fn default_config_bounds_and_port() {
    let config = Config::default();
    assert!(config.device_settings.dmx_port.is_none());
    assert_eq!(config.spatial_settings.default_bounds, (10, 10, 3));
}
