use std::cell::RefCell;
use std::rc::Rc;

use eddi_pad::device::{Device, DeviceError, DeviceManager};
use eddi_pad::dispatch::{
    lex_less, next_state, ActivationState, Binding, DispatchEngine, EventKind, RetryPolicy,
};
use eddi_pad::error::ConfigurationError;
use eddi_pad::spatial::{Position, SpatialController, SpatialZone, ZoneEvent};

/// Logs every command it is given and fails the first `failures_left` of them.
struct Recorder {
    name: String,
    log: Rc<RefCell<Vec<String>>>,
    failures_left: u32,
}

impl Device for Recorder {
    fn send_command(&mut self, command: &str) -> Result<(), DeviceError> {
        self.log.borrow_mut().push(format!("{}:{}", self.name, command));
        if self.failures_left > 0 {
            self.failures_left -= 1;
            Err(DeviceError::ConnectionFailed(self.name.clone()))
        } else {
            Ok(())
        }
    }
}

fn recorder(name: &str, log: &Rc<RefCell<Vec<String>>>, failures_left: u32) -> Recorder {
    Recorder { name: name.to_string(), log: log.clone(), failures_left }
}

fn policy(max_attempts: u32) -> RetryPolicy {
    RetryPolicy { max_attempts, base_delay_ms: 100, max_delay_ms: 1000 }
}

fn zones() -> SpatialController {
    let mut c = SpatialController::new();
    c.add_zone(SpatialZone::new("B".to_string(), Position::new(5, 5, 5), Position::new(15, 15, 15)))
        .unwrap();
    c.add_zone(SpatialZone::new("A".to_string(), Position::new(0, 0, 0), Position::new(10, 10, 10)))
        .unwrap();
    c
}

fn bind(zone: &str, kind: EventKind, device: &str, command: &str) -> Binding {
    Binding::new(zone.to_string(), kind, device.to_string(), command.to_string())
}

#[test]
fn overlapping_zones_are_served_in_zone_id_order() {
    let mut final_logs = Vec::new();
    for _ in 0..2 {
        let log = Rc::new(RefCell::new(Vec::new()));
        let mut devices = DeviceManager::new();
        devices.register("lamp".to_string(), recorder("lamp", &log, 0)).unwrap();
        let mut c = zones();
        let engine = DispatchEngine::new(
            vec![
                bind("B", EventKind::Enter, "lamp", "blue"),
                bind("A", EventKind::Enter, "lamp", "red"),
            ],
            policy(3),
            &c,
            &devices,
        )
        .unwrap();
        let events = c.update_position(1, Position::new(6, 6, 6));
        assert_eq!(
            events,
            vec![ZoneEvent::Enter("B".to_string()), ZoneEvent::Enter("A".to_string())]
        );
        assert_eq!(engine.plan(&events), vec![1, 0]);
        let records = engine.dispatch(&events, &mut devices);
        assert_eq!(records.len(), 2);
        assert_eq!(records[0].binding, 1);
        assert_eq!(records[1].binding, 0);
        let got = log.borrow().clone();
        assert_eq!(got, vec!["lamp:red".to_string(), "lamp:blue".to_string()]);
        final_logs.push(got);
    }
    assert_eq!(final_logs[0], final_logs[1]);
}

#[test]
fn failing_device_is_dropped_and_others_still_sent() {
    let log = Rc::new(RefCell::new(Vec::new()));
    let mut devices = DeviceManager::new();
    devices.register("broken".to_string(), recorder("broken", &log, u32::MAX)).unwrap();
    devices.register("lamp".to_string(), recorder("lamp", &log, 0)).unwrap();
    let c = zones();
    let engine = DispatchEngine::new(
        vec![
            bind("A", EventKind::Enter, "broken", "x"),
            bind("B", EventKind::Enter, "lamp", "y"),
        ],
        policy(3),
        &c,
        &devices,
    )
    .unwrap();
    let events = vec![ZoneEvent::Enter("A".to_string()), ZoneEvent::Enter("B".to_string())];
    let records = engine.dispatch(&events, &mut devices);
    assert_eq!(records.len(), 2);
    assert_eq!(records[0].binding, 0);
    assert_eq!(records[0].state, ActivationState::Dropped(3));
    assert_eq!(records[0].errors.len(), 3);
    assert_eq!(records[0].errors[0], DeviceError::ConnectionFailed("broken".to_string()));
    assert_eq!(records[1].binding, 1);
    assert_eq!(records[1].state, ActivationState::Sent(1));
    assert!(records[1].errors.is_empty());
    assert_eq!(log.borrow().len(), 4);
}

#[test]
fn flaky_device_is_sent_after_retries() {
    let log = Rc::new(RefCell::new(Vec::new()));
    let mut devices = DeviceManager::new();
    devices.register("lamp".to_string(), recorder("lamp", &log, 2)).unwrap();
    let c = zones();
    let engine =
        DispatchEngine::new(vec![bind("A", EventKind::Exit, "lamp", "off")], policy(5), &c, &devices)
            .unwrap();
    let records = engine.dispatch(&vec![ZoneEvent::Exit("A".to_string())], &mut devices);
    assert_eq!(records.len(), 1);
    assert_eq!(records[0].state, ActivationState::Sent(3));
    assert_eq!(records[0].errors.len(), 2);
}

#[test]
fn bindings_fire_only_on_their_kind_and_once_per_cycle() {
    let log = Rc::new(RefCell::new(Vec::new()));
    let mut devices = DeviceManager::new();
    devices.register("lamp".to_string(), recorder("lamp", &log, 0)).unwrap();
    let c = zones();
    let engine = DispatchEngine::new(
        vec![bind("A", EventKind::Enter, "lamp", "on"), bind("A", EventKind::Exit, "lamp", "off")],
        policy(1),
        &c,
        &devices,
    )
    .unwrap();
    let events = vec![ZoneEvent::Enter("A".to_string()), ZoneEvent::Enter("A".to_string())];
    assert_eq!(engine.plan(&events), vec![0]);
    assert!(engine.plan(&vec![ZoneEvent::Enter("B".to_string())]).is_empty());
    let records = engine.dispatch(&events, &mut devices);
    assert_eq!(records.len(), 1);
    assert_eq!(*log.borrow(), vec!["lamp:on".to_string()]);
}

#[test]
fn unknown_zone_device_and_empty_policy_are_refused() {
    let log = Rc::new(RefCell::new(Vec::new()));
    let mut devices = DeviceManager::new();
    devices.register("lamp".to_string(), recorder("lamp", &log, 0)).unwrap();
    let c = zones();
    let r = DispatchEngine::new(
        vec![bind("A", EventKind::Enter, "lamp", "on"), bind("Q", EventKind::Enter, "fog", "x")],
        policy(2),
        &c,
        &devices,
    );
    assert_eq!(r.err(), Some(ConfigurationError::UnknownZone("Q".to_string())));
    let r = DispatchEngine::new(vec![bind("A", EventKind::Enter, "fog", "x")], policy(2), &c, &devices);
    assert_eq!(r.err(), Some(ConfigurationError::UnknownDevice("fog".to_string())));
    let r = DispatchEngine::new(vec![bind("A", EventKind::Enter, "lamp", "x")], policy(0), &c, &devices);
    assert_eq!(r.err(), Some(ConfigurationError::NoAttempts));
    let e = DispatchEngine::new(vec![], policy(2), &c, &devices).unwrap();
    assert_eq!(e.binding_count(), 0);
    assert_eq!(e.policy_of(), policy(2));
}

#[test]
fn state_machine_steps() {
    assert_eq!(next_state(ActivationState::Pending, true, 3), ActivationState::Sent(1));
    assert_eq!(next_state(ActivationState::Pending, false, 3), ActivationState::Retrying(1));
    assert_eq!(next_state(ActivationState::Pending, false, 1), ActivationState::Dropped(1));
    assert_eq!(next_state(ActivationState::Retrying(1), false, 3), ActivationState::Retrying(2));
    assert_eq!(next_state(ActivationState::Retrying(2), false, 3), ActivationState::Dropped(3));
    assert_eq!(next_state(ActivationState::Retrying(2), true, 3), ActivationState::Sent(3));
    assert_eq!(next_state(ActivationState::Idle, true, 3), ActivationState::Idle);
    assert_eq!(next_state(ActivationState::Sent(1), false, 3), ActivationState::Sent(1));
}

#[test]
fn backoff_doubles_up_to_cap() {
    let p = policy(10);
    assert_eq!(p.backoff_delay(1), 100);
    assert_eq!(p.backoff_delay(2), 200);
    assert_eq!(p.backoff_delay(4), 800);
    assert_eq!(p.backoff_delay(5), 1000);
    assert_eq!(p.backoff_delay(9), 1000);
    let odd = RetryPolicy { max_attempts: 4, base_delay_ms: 2, max_delay_ms: 5 };
    assert_eq!(odd.backoff_delay(2), 4);
    assert_eq!(odd.backoff_delay(3), 5);
    let big = RetryPolicy { max_attempts: 4, base_delay_ms: u64::MAX, max_delay_ms: u64::MAX };
    assert_eq!(big.backoff_delay(3), u64::MAX);
}

#[test]
fn lexical_order_of_ids() {
    assert!(lex_less(&"A".to_string(), &"B".to_string()));
    assert!(!lex_less(&"B".to_string(), &"A".to_string()));
    assert!(lex_less(&"ab".to_string(), &"abc".to_string()));
    assert!(!lex_less(&"abc".to_string(), &"abc".to_string()));
    assert!(lex_less(&"".to_string(), &"a".to_string()));
    assert!(lex_less(&"Z".to_string(), &"a".to_string()));
}

#[test]
fn inside_bindings_follow_their_period() {
    let log = Rc::new(RefCell::new(Vec::new()));
    let mut devices = DeviceManager::new();
    devices.register("lamp".to_string(), recorder("lamp", &log, 0)).unwrap();
    let mut c = zones();
    let engine = DispatchEngine::new(
        vec![
            bind("A", EventKind::Inside(3), "lamp", "pulse"),
            bind("B", EventKind::Inside(0), "lamp", "never"),
        ],
        policy(1),
        &c,
        &devices,
    )
    .unwrap();
    c.update_position(1, Position::new(6, 6, 6));
    assert!(engine.plan(&c.ticks_inside(1, 4)).is_empty());
    let ticks = c.ticks_inside(1, 6);
    assert_eq!(engine.plan(&ticks), vec![0]);
    engine.dispatch(&ticks, &mut devices);
    assert_eq!(*log.borrow(), vec!["lamp:pulse".to_string()]);
}
