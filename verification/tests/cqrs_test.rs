// The command/query surface: validation, events and read models.

use port_game::application::commands::Command;
use port_game::application::handlers::{
    handle_assign_crane_command, handle_dock_ship_command, query_port_state,
};
use port_game::domain::aggregates::Port;
use port_game::domain::entities::Ship;
use port_game::domain::value_objects::{BerthId, CraneId, PlayerId, ShipId};

#[test]
fn test_command_creation() {
    let player_id = PlayerId::new();
    let cmd = Command::DockShip {
        player_id,
        ship_id: ShipId::new(1),
        berth_id: BerthId::new(0),
    };

    assert_eq!(cmd.player_id(), player_id);
    assert_eq!(cmd.command_type(), "DockShip");
}

#[test]
fn test_command_labels() {
    let player_id = PlayerId::new();
    assert_eq!(Command::EndTurn { player_id }.command_type(), "EndTurn");
    assert_eq!(
        Command::AITakeTurn { player_id, num_simulations: 100 }.command_type(),
        "AITakeTurn"
    );
    assert_eq!(
        Command::ForceUndock { player_id, ship_id: ShipId::new(1) }.command_type(),
        "ForceUndock"
    );
    assert_eq!(
        Command::UnassignCrane { player_id, crane_id: CraneId::new(0), ship_id: ShipId::new(1) }
            .command_type(),
        "UnassignCrane"
    );
}

#[test]
fn test_dock_ship_command_validation() {
    let player_id = PlayerId::new();
    let mut port = Port::new(player_id, 2, 2);

    port.ships.push(Ship::new(ShipId::new(1), 30, 0));

    let result = handle_dock_ship_command(&port, ShipId::new(1), BerthId::new(0));
    assert!(result.is_ok());

    let result = handle_dock_ship_command(&port, ShipId::new(999), BerthId::new(0));
    assert!(result.is_err());
    assert!(result.unwrap_err().contains("not found"));

    let result = handle_dock_ship_command(&port, ShipId::new(1), BerthId::new(9));
    assert_eq!(result.unwrap_err(), "Berth not found");
}

#[test]
fn test_assign_crane_command_validation() {
    let player_id = PlayerId::new();
    let mut port = Port::new(player_id, 2, 2);

    port.ships.push(Ship::new(ShipId::new(1), 30, 0));

    let dock_events = handle_dock_ship_command(&port, ShipId::new(1), BerthId::new(0)).unwrap();
    for event in &dock_events {
        port.apply_event(event);
    }

    let result = handle_assign_crane_command(&port, CraneId::new(0), ShipId::new(1));
    assert!(result.is_ok());

    for event in &result.unwrap() {
        port.apply_event(event);
    }

    let result = handle_assign_crane_command(&port, CraneId::new(0), ShipId::new(1));
    assert!(result.is_err());
    assert!(result.unwrap_err().contains("already assigned"));
}

#[test]
fn test_query_port_state() {
    let player_id = PlayerId::new();
    let mut port = Port::new(player_id, 2, 2);

    port.ships.push(Ship::new(ShipId::new(1), 30, 0));
    port.ships.push(Ship::new(ShipId::new(2), 30, 2));

    let view = query_port_state(&port);

    assert_eq!(view.ships.len(), 2);
    for ship in &view.ships {
        assert_eq!(ship.containers_remaining, 30);
    }
    assert_eq!(view.berths.len(), 2);
    assert_eq!(view.cranes.len(), 2);
    assert_eq!(view.player_id, player_id);
}

#[test]
fn test_event_sourcing_command_flow() {
    let player_id = PlayerId::new();
    let mut port = Port::new(player_id, 2, 2);

    let initial_version = port.version();

    port.ships.push(Ship::new(ShipId::new(1), 50, 0));

    let events = handle_dock_ship_command(&port, ShipId::new(1), BerthId::new(0)).unwrap();

    assert_eq!(events.len(), 1);

    for event in &events {
        port.apply_event(event);
    }

    assert_eq!(port.version(), initial_version + 1);

    let ship = port.get_ship(ShipId::new(1)).unwrap();
    assert!(ship.is_docked());
    assert_eq!(ship.docked_at, Some(BerthId::new(0)));

    let berth = port.get_berth(BerthId::new(0)).unwrap();
    assert!(!berth.is_free());
}

#[test]
fn test_command_idempotency() {
    let player_id = PlayerId::new();
    let mut port = Port::new(player_id, 2, 2);

    port.ships.push(Ship::new(ShipId::new(1), 30, 0));

    let result1 = handle_dock_ship_command(&port, ShipId::new(1), BerthId::new(0));
    assert!(result1.is_ok());

    for event in &result1.unwrap() {
        port.apply_event(event);
    }

    let result2 = handle_dock_ship_command(&port, ShipId::new(1), BerthId::new(0));
    assert!(result2.is_err());
}

#[test]
fn test_complex_workflow() {
    let player_id = PlayerId::new();
    let mut port = Port::new(player_id, 2, 2);

    port.ships.push(Ship::new(ShipId::new(1), 30, 0));
    port.ships.push(Ship::new(ShipId::new(2), 30, 2));

    let events = handle_dock_ship_command(&port, ShipId::new(1), BerthId::new(0)).unwrap();
    for event in &events {
        port.apply_event(event);
    }

    let events = handle_dock_ship_command(&port, ShipId::new(2), BerthId::new(1)).unwrap();
    for event in &events {
        port.apply_event(event);
    }

    let events = handle_assign_crane_command(&port, CraneId::new(0), ShipId::new(1)).unwrap();
    for event in &events {
        port.apply_event(event);
    }

    let events = handle_assign_crane_command(&port, CraneId::new(1), ShipId::new(2)).unwrap();
    for event in &events {
        port.apply_event(event);
    }

    assert_eq!(port.docked_ships().len(), 2);
    assert_eq!(port.free_berths().len(), 0);
    assert_eq!(port.free_cranes().len(), 0);

    let ship1 = port.get_ship(ShipId::new(1)).unwrap();
    assert_eq!(ship1.assigned_cranes.len(), 1);

    let ship2 = port.get_ship(ShipId::new(2)).unwrap();
    assert_eq!(ship2.assigned_cranes.len(), 1);
}

#[test]
fn test_game_rules() {
    let player_id = PlayerId::new();
    let mut port = Port::new(player_id, 1, 1);
    assert!(!port_game::game::is_game_over(&port, 0));
    assert!(port_game::game::is_game_over(&port, 30));
    port.score = 1001;
    assert!(port_game::game::is_game_over(&port, 0));

    assert_eq!(port_game::game::winner_label(10, 5), "player");
    assert_eq!(port_game::game::winner_label(5, 10), "ai");
    assert_eq!(port_game::game::winner_label(7, 7), "tie");
}

#[test]
fn test_random_ranges() {
    for _ in 0..50 {
        let a = port_game::utils::random::range_usize(2, 7);
        assert!((2..7).contains(&a));
        let b = port_game::utils::random::range_usize_inclusive(3, 5);
        assert!((3..=5).contains(&b));
        let c = port_game::utils::random::range_u32_inclusive(1, 3);
        assert!((1..=3).contains(&c));
    }
    assert_eq!(port_game::utils::random::range_usize(5, 5), 5);
    assert_eq!(port_game::utils::random::range_usize_inclusive(9, 2), 9);
    assert_eq!(port_game::utils::random::range_u32_inclusive(4, 1), 4);
}
