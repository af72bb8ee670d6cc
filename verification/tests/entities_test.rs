// Ships, berths and cranes: state changes on single entities.

use port_game::domain::entities::{Berth, Crane, Ship};
use port_game::domain::value_objects::{BerthId, CraneId, ShipId};

#[test]
fn test_ship_creation() {
    let ship = Ship::new(ShipId::new(1), 50, 0);

    assert_eq!(ship.id, ShipId::new(1));
    assert_eq!(ship.containers, 50);
    assert_eq!(ship.containers_remaining, 50);
    assert!(!ship.is_docked());
    assert!(!ship.is_completed());
}

#[test]
fn test_ship_docking() {
    let mut ship = Ship::new(ShipId::new(1), 50, 0);
    let berth = BerthId::new(1);

    ship.dock(berth);

    assert!(ship.is_docked());
    assert_eq!(ship.docked_at, Some(berth));
}

#[test]
fn entities_test_crane_assignment() {
    let mut ship = Ship::new(ShipId::new(1), 50, 0);
    let crane = CraneId::new(1);

    ship.assign_crane(crane);

    assert_eq!(ship.assigned_cranes.len(), 1);
    assert!(ship.assigned_cranes.contains(&crane));
}

#[test]
fn test_container_processing() {
    let mut ship = Ship::new(ShipId::new(1), 50, 0);

    ship.process_containers(20);

    assert_eq!(ship.containers_remaining, 30);
    assert!(!ship.is_completed());

    ship.process_containers(30);

    assert_eq!(ship.containers_remaining, 0);
    assert!(ship.is_completed());
}

#[test]
fn test_berth_occupation() {
    let mut berth = Berth::new(BerthId::new(1));
    let ship_id = ShipId::new(1);

    assert!(berth.is_free());

    berth.occupy(ship_id);

    assert!(!berth.is_free());
    assert_eq!(berth.occupied_by, Some(ship_id));

    berth.free();

    assert!(berth.is_free());
}

#[test]
fn test_crane_availability() {
    let mut crane = Crane::new(CraneId::new(1), 2);

    assert!(crane.is_free());

    crane.assign(ShipId::new(1));

    assert!(!crane.is_free());
    assert_eq!(crane.assigned_to, Some(ShipId::new(1)));

    crane.unassign();

    assert!(crane.is_free());
}

#[test]
fn test_crane_duplicate_assignment_ignored() {
    let mut ship = Ship::new(ShipId::new(7), 10, 0);
    ship.assign_crane(CraneId::new(3));
    ship.assign_crane(CraneId::new(3));
    assert_eq!(ship.assigned_cranes.len(), 1);

    ship.unassign_crane(CraneId::new(3));
    assert!(ship.assigned_cranes.is_empty());
}

#[test]
fn test_crane_throughput() {
    let crane = Crane::new(CraneId::new(0), 2);
    assert_eq!(crane.containers_per_turn(), 20);

    let fast = Crane::new(CraneId::new(1), u32::MAX);
    assert_eq!(fast.containers_per_turn(), u32::MAX);
}

#[test]
fn test_waiting_time() {
    let ship = Ship::new(ShipId::new(1), 10, 6);
    assert_eq!(ship.waiting_time(10), 4);
    assert_eq!(ship.waiting_time(2), -4);
}
