// The port aggregate: construction, events, queries and the score.

use port_game::domain::aggregates::Port;
use port_game::domain::entities::Ship;
use port_game::domain::events::PortEvent;
use port_game::domain::value_objects::{BerthId, CraneId, PlayerId, ShipId};

#[test]
fn test_port_creation() {
    let player_id = PlayerId::new();
    let port = Port::new(player_id, 2, 2);

    assert_eq!(port.berths.len(), 2);
    assert_eq!(port.cranes.len(), 2);
    assert_eq!(port.ships.len(), 0);
    assert_eq!(port.version, 0);
}

#[test]
fn test_ship_arrival_event() {
    let player_id = PlayerId::new();
    let mut port = Port::new(player_id, 2, 2);

    let event = PortEvent::ShipArrived {
        ship_id: ShipId::new(1),
        container_count: 50,
        arrival_time: 0,
    };

    port.apply_event(&event);

    assert_eq!(port.ships.len(), 1);
    assert_eq!(port.version, 1);
}

#[test]
fn test_ship_docking_event() {
    let player_id = PlayerId::new();
    let mut port = Port::new(player_id, 2, 2);

    let arrival_event = PortEvent::ShipArrived {
        ship_id: ShipId::new(1),
        container_count: 50,
        arrival_time: 0,
    };
    port.apply_event(&arrival_event);

    let dock_event = PortEvent::ShipDocked {
        ship_id: ShipId::new(1),
        berth_id: BerthId::new(0),
        player: player_id,
        docking_time: 2,
    };
    port.apply_event(&dock_event);

    assert_eq!(port.waiting_ships().len(), 0);
    assert_eq!(port.docked_ships().len(), 1);
    assert_eq!(port.free_berths().len(), 1);
}

#[test]
fn aggregates_test_crane_assignment() {
    let player_id = PlayerId::new();
    let mut port = Port::new(player_id, 2, 2);

    let arrival_event = PortEvent::ShipArrived {
        ship_id: ShipId::new(1),
        container_count: 50,
        arrival_time: 0,
    };
    port.apply_event(&arrival_event);

    let dock_event = PortEvent::ShipDocked {
        ship_id: ShipId::new(1),
        berth_id: BerthId::new(0),
        player: player_id,
        docking_time: 2,
    };
    port.apply_event(&dock_event);

    let crane_event = PortEvent::CraneAssigned {
        crane_id: CraneId::new(0),
        ship_id: ShipId::new(1),
        player: player_id,
        assignment_time: 4,
    };
    port.apply_event(&crane_event);

    assert_eq!(port.free_cranes().len(), 1);

    let ship = port.get_ship(ShipId::new(1)).unwrap();
    assert_eq!(ship.assigned_cranes.len(), 1);
}

#[test]
fn test_free_crane() {
    let player_id = PlayerId::new();
    let mut port = Port::new(player_id, 2, 2);

    let arrival_event = PortEvent::ShipArrived {
        ship_id: ShipId::new(1),
        container_count: 50,
        arrival_time: 0,
    };
    port.apply_event(&arrival_event);

    let dock_event = PortEvent::ShipDocked {
        ship_id: ShipId::new(1),
        berth_id: BerthId::new(0),
        player: player_id,
        docking_time: 2,
    };
    port.apply_event(&dock_event);

    let crane_event = PortEvent::CraneAssigned {
        crane_id: CraneId::new(0),
        ship_id: ShipId::new(1),
        player: player_id,
        assignment_time: 4,
    };
    port.apply_event(&crane_event);

    assert_eq!(port.free_cranes().len(), 1);

    port.free_crane(CraneId::new(0));

    assert_eq!(port.free_cranes().len(), 2);
}

#[test]
fn test_undock_ship() {
    let player_id = PlayerId::new();
    let mut port = Port::new(player_id, 2, 2);

    let arrival_event = PortEvent::ShipArrived {
        ship_id: ShipId::new(1),
        container_count: 50,
        arrival_time: 0,
    };
    port.apply_event(&arrival_event);

    let dock_event = PortEvent::ShipDocked {
        ship_id: ShipId::new(1),
        berth_id: BerthId::new(0),
        player: player_id,
        docking_time: 2,
    };
    port.apply_event(&dock_event);

    port.undock_ship(ShipId::new(1), BerthId::new(0));

    assert_eq!(port.ships.len(), 0);
    assert_eq!(port.free_berths().len(), 2);
}

#[test]
fn test_score_formula() {
    let player_id = PlayerId::new();
    let mut port = Port::new(player_id, 1, 1);
    // One waiting ship, twenty containers already moved, two whole time
    // units (four ticks) of waiting: 10 * 20 - 5 * 2 = 190.
    let mut ship = Ship::new(ShipId::new(1), 50, 0);
    ship.process_containers(20);
    port.ships.push(ship);
    port.current_time = 4;

    assert_eq!(port.calculate_score(), 190);
}

#[test]
fn test_container_processed_event_updates_score() {
    let player_id = PlayerId::new();
    let mut port = Port::new(player_id, 1, 1);
    port.ships.push(Ship::new(ShipId::new(1), 50, 0));

    let event = PortEvent::ContainerProcessed {
        crane_id: CraneId::new(0),
        ship_id: ShipId::new(1),
        containers_remaining: 35,
    };
    port.apply_event(&event);

    assert_eq!(port.score, 150);
    assert_eq!(port.get_ship(ShipId::new(1)).unwrap().containers_remaining, 35);
}

#[test]
fn test_free_all_cranes() {
    let player_id = PlayerId::new();
    let mut port = Port::new(player_id, 2, 2);
    port.apply_event(&PortEvent::ShipArrived {
        ship_id: ShipId::new(1),
        container_count: 50,
        arrival_time: 0,
    });
    port.apply_event(&PortEvent::ShipDocked {
        ship_id: ShipId::new(1),
        berth_id: BerthId::new(0),
        player: player_id,
        docking_time: 0,
    });
    port.apply_event(&PortEvent::CraneAssigned {
        crane_id: CraneId::new(1),
        ship_id: ShipId::new(1),
        player: player_id,
        assignment_time: 0,
    });
    assert_eq!(port.free_cranes().len(), 1);

    port.free_all_cranes();

    assert_eq!(port.free_cranes().len(), 2);
    assert!(port.get_ship(ShipId::new(1)).unwrap().assigned_cranes.is_empty());
}

#[test]
fn test_event_type_labels() {
    let ev = PortEvent::ShipArrived { ship_id: ShipId::new(1), container_count: 1, arrival_time: 0 };
    assert_eq!(ev.event_type(), "ShipArrived");
    let ev = PortEvent::TurnStarted { turn_number: 1, current_player: PlayerId::new() };
    assert_eq!(ev.event_type(), "TurnStarted");
}

#[test]
fn test_uncommitted_events_lifecycle() {
    let player_id = PlayerId::new();
    let mut port = Port::new(player_id, 1, 1);
    port.apply_event(&PortEvent::ShipArrived {
        ship_id: ShipId::new(1),
        container_count: 10,
        arrival_time: 0,
    });
    port.apply_event(&PortEvent::ShipDocked {
        ship_id: ShipId::new(1),
        berth_id: BerthId::new(0),
        player: player_id,
        docking_time: 0,
    });
    assert!(port.uncommitted_events().is_empty());

    port.undock_ship(ShipId::new(1), BerthId::new(0));
    assert_eq!(port.uncommitted_events().len(), 1);
    assert_eq!(port.uncommitted_events()[0].event_type(), "ShipUndocked");

    port.mark_events_committed();
    assert!(port.uncommitted_events().is_empty());
}
