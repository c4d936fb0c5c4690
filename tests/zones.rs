use eddi_pad::error::ConfigurationError;
use eddi_pad::spatial::{Position, SpatialController, SpatialZone, ZoneEvent};

fn zone(id: &str, lo: i64, hi: i64) -> SpatialZone {
    SpatialZone::new(id.to_string(), Position::new(lo, lo, lo), Position::new(hi, hi, hi))
}

#[test]
fn test_position_creation() {
    let pos = Position::new(1, 2, 3);
    assert_eq!(pos.x, 1);
    assert_eq!(pos.y, 2);
    assert_eq!(pos.z, 3);
}

#[test]
fn test_spatial_zone_contains() {
    let zone = SpatialZone {
        id: "test_zone".to_string(),
        bounds: (Position::new(0, 0, 0), Position::new(10, 10, 10)),
    };

    let inside_pos = Position::new(5, 5, 5);
    let outside_pos = Position::new(15, 5, 5);

    assert!(zone.contains(&inside_pos));
    assert!(!zone.contains(&outside_pos));
}

#[test]
fn test_spatial_controller_creation() {
    let controller = SpatialController::new();
    assert_eq!(controller.zone_count(), 0);
}

#[test]
fn containment_includes_boundaries() {
    let z = zone("a", 0, 10);
    assert!(z.contains(&Position::new(0, 0, 0)));
    assert!(z.contains(&Position::new(10, 10, 10)));
    assert!(z.contains(&Position::new(0, 10, 5)));
    assert!(!z.contains(&Position::new(-1, 5, 5)));
    assert!(!z.contains(&Position::new(5, 11, 5)));
    assert!(!z.contains(&Position::new(5, 5, 11)));
}

#[test]
fn duplicate_zone_id_is_refused() {
    let mut c = SpatialController::new();
    assert_eq!(c.add_zone(zone("a", 0, 10)), Ok(()));
    assert_eq!(
        c.add_zone(zone("a", 20, 30)),
        Err(ConfigurationError::DuplicateZoneId("a".to_string()))
    );
    assert_eq!(c.zone_count(), 1);
}

#[test]
fn malformed_bounds_are_refused() {
    let mut c = SpatialController::new();
    let bad = SpatialZone::new("b".to_string(), Position::new(0, 5, 0), Position::new(10, 4, 10));
    assert_eq!(c.add_zone(bad), Err(ConfigurationError::MalformedBounds("b".to_string())));
    assert_eq!(c.zone_count(), 0);
}

#[test]
fn overlapping_zones_scenario() {
    let mut c = SpatialController::new();
    c.add_zone(zone("A", 0, 10)).unwrap();
    c.add_zone(zone("B", 5, 15)).unwrap();
    assert_eq!(c.update_position(7, Position::new(1, 1, 1)), vec![ZoneEvent::Enter("A".to_string())]);
    assert_eq!(c.update_position(7, Position::new(6, 6, 6)), vec![ZoneEvent::Enter("B".to_string())]);
    assert_eq!(
        c.update_position(7, Position::new(20, 20, 20)),
        vec![ZoneEvent::Exit("A".to_string()), ZoneEvent::Exit("B".to_string())]
    );
}

#[test]
fn repeated_position_is_silent() {
    let mut c = SpatialController::new();
    c.add_zone(zone("A", 0, 10)).unwrap();
    c.add_zone(zone("B", 5, 15)).unwrap();
    let first = c.update_position(1, Position::new(6, 6, 6));
    assert_eq!(first.len(), 2);
    assert!(c.update_position(1, Position::new(6, 6, 6)).is_empty());
}

#[test]
fn enter_then_exit_once_each() {
    let mut c = SpatialController::new();
    c.add_zone(zone("A", 0, 10)).unwrap();
    c.add_zone(zone("far", 100, 110)).unwrap();
    let into = c.update_position(3, Position::new(2, 2, 2));
    assert_eq!(into, vec![ZoneEvent::Enter("A".to_string())]);
    let out = c.update_position(3, Position::new(50, 50, 50));
    assert_eq!(out, vec![ZoneEvent::Exit("A".to_string())]);
}

#[test]
fn entities_are_tracked_apart_and_can_be_dropped() {
    let mut c = SpatialController::new();
    c.add_zone(zone("A", 0, 10)).unwrap();
    assert_eq!(c.update_position(1, Position::new(1, 1, 1)).len(), 1);
    assert_eq!(c.update_position(2, Position::new(1, 1, 1)).len(), 1);
    assert!(c.update_position(1, Position::new(2, 2, 2)).is_empty());
    c.deregister_entity(1);
    assert_eq!(c.update_position(1, Position::new(2, 2, 2)), vec![ZoneEvent::Enter("A".to_string())]);
    assert!(c.has_zone(&"A".to_string()));
    assert!(!c.has_zone(&"Z".to_string()));
}

#[test]
fn zone_added_later_is_entered_on_next_update() {
    let mut c = SpatialController::new();
    c.add_zone(zone("A", 0, 10)).unwrap();
    c.update_position(1, Position::new(1, 1, 1));
    c.add_zone(zone("B", 0, 5)).unwrap();
    assert_eq!(c.update_position(1, Position::new(1, 1, 1)), vec![ZoneEvent::Enter("B".to_string())]);
}

#[test]
fn ticks_report_zones_still_held() {
    let mut c = SpatialController::new();
    c.add_zone(zone("A", 0, 10)).unwrap();
    c.add_zone(zone("B", 5, 15)).unwrap();
    assert!(c.ticks_inside(4, 1).is_empty());
    c.update_position(4, Position::new(6, 6, 6));
    assert_eq!(
        c.ticks_inside(4, 9),
        vec![ZoneEvent::Inside("A".to_string(), 9), ZoneEvent::Inside("B".to_string(), 9)]
    );
    c.update_position(4, Position::new(12, 12, 12));
    assert_eq!(c.ticks_inside(4, 10), vec![ZoneEvent::Inside("B".to_string(), 10)]);
}
