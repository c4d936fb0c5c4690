use eddi_pad::device::{ConnectionState, Device, DeviceError, DeviceManager};
use eddi_pad::error::ConfigurationError;

struct MockDevice {
    should_fail: bool,
}

impl MockDevice {
    fn new(should_fail: bool) -> Self {
        Self { should_fail }
    }
}

impl Device for MockDevice {
    fn send_command(&mut self, _command: &str) -> Result<(), DeviceError> {
        if self.should_fail {
            Err(DeviceError::CommandFailed("Mock failure".to_string()))
        } else {
            Ok(())
        }
    }
}

#[test]
fn test_device_manager_creation() {
    let manager: DeviceManager<MockDevice> = DeviceManager::new();
    assert_eq!(manager.len(), 0);
}

#[test]
fn test_mock_device_success() {
    let mut device = MockDevice::new(false);
    assert!(device.send_command("test").is_ok());
}

#[test]
fn test_mock_device_failure() {
    let mut device = MockDevice::new(true);
    assert!(device.send_command("test").is_err());
}

#[test]
fn duplicate_device_id_is_refused() {
    let mut manager = DeviceManager::new();
    assert_eq!(manager.register("dmx1".to_string(), MockDevice::new(false)), Ok(()));
    assert_eq!(
        manager.register("dmx1".to_string(), MockDevice::new(true)),
        Err(ConfigurationError::DuplicateDeviceId("dmx1".to_string()))
    );
    assert_eq!(manager.len(), 1);
    assert!(manager.contains(&"dmx1".to_string()));
    assert!(!manager.contains(&"osc1".to_string()));
}

#[test]
fn send_to_unknown_device_fails() {
    let mut manager = DeviceManager::new();
    manager.register("dmx1".to_string(), MockDevice::new(false)).unwrap();
    assert_eq!(
        manager.send(&"osc1".to_string(), "go"),
        Err(DeviceError::DeviceNotFound("osc1".to_string()))
    );
}

#[test]
fn send_forwards_device_answer() {
    let mut manager = DeviceManager::new();
    manager.register("ok".to_string(), MockDevice::new(false)).unwrap();
    manager.register("bad".to_string(), MockDevice::new(true)).unwrap();
    assert_eq!(manager.send(&"ok".to_string(), "go"), Ok(()));
    assert_eq!(
        manager.send(&"bad".to_string(), "go"),
        Err(DeviceError::CommandFailed("Mock failure".to_string()))
    );
}

#[test]
fn connection_states_follow_their_order() {
    let mut manager = DeviceManager::new();
    manager.register("dmx1".to_string(), MockDevice::new(false)).unwrap();
    let id = "dmx1".to_string();
    assert_eq!(manager.state_of(&id), Some(&ConnectionState::Disconnected));
    assert!(!manager.set_state(&id, ConnectionState::Ready));
    assert!(manager.set_state(&id, ConnectionState::Connecting));
    assert!(manager.set_state(&id, ConnectionState::Failed("timeout".to_string())));
    assert_eq!(manager.state_of(&id), Some(&ConnectionState::Failed("timeout".to_string())));
    assert!(!manager.set_state(&id, ConnectionState::Ready));
    assert!(manager.set_state(&id, ConnectionState::Connecting));
    assert!(manager.set_state(&id, ConnectionState::Ready));
    assert!(manager.send(&id, "go").is_ok());
    assert_eq!(manager.state_of(&id), Some(&ConnectionState::Ready));
    assert!(!manager.set_state(&"none".to_string(), ConnectionState::Connecting));
    assert_eq!(manager.state_of(&"none".to_string()), None);
}

#[test]
fn state_order_table() {
    assert!(ConnectionState::Disconnected.may_become(&ConnectionState::Connecting));
    assert!(!ConnectionState::Disconnected.may_become(&ConnectionState::Ready));
    assert!(ConnectionState::Connecting.may_become(&ConnectionState::Ready));
    assert!(ConnectionState::Connecting.may_become(&ConnectionState::Failed("x".to_string())));
    assert!(!ConnectionState::Connecting.may_become(&ConnectionState::Disconnected));
    assert!(ConnectionState::Ready.may_become(&ConnectionState::Connecting));
    assert!(!ConnectionState::Ready.may_become(&ConnectionState::Failed("x".to_string())));
    assert!(ConnectionState::Failed("x".to_string()).may_become(&ConnectionState::Connecting));
    assert!(!ConnectionState::Failed("x".to_string()).may_become(&ConnectionState::Ready));
}
