// Identifier types: construction, labels, equality.

use port_game::domain::value_objects::{BerthId, PlayerId, ShipId};

#[test]
fn test_ship_id_creation() {
    let ship_id = ShipId::new(42);
    assert_eq!(ship_id.0, 42);
    assert_eq!(ship_id.to_string(), "Ship#42");
}

#[test]
fn test_berth_id_equality() {
    let b1 = BerthId::new(1);
    let b2 = BerthId::new(1);
    let b3 = BerthId::new(2);

    assert_eq!(b1, b2);
    assert_ne!(b1, b3);
}

#[test]
fn test_player_id_unique() {
    let p1 = PlayerId::new();
    let p2 = PlayerId::new();

    assert_ne!(p1, p2);
}

#[test]
fn test_id_labels() {
    assert_eq!(BerthId::new(0).to_string(), "Berth#0");
    assert_eq!(port_game::domain::value_objects::CraneId::new(107).to_string(), "Crane#107");
    assert_eq!(ShipId::new(1000).to_string(), "Ship#1000");
}
