// The action vocabulary of the engine.

use port_game::domain::value_objects::{BerthId, CraneId, ShipId};
use port_game::mcts::MCTSAction;

#[test]
fn test_action_type() {
    let action = MCTSAction::DockShip {
        ship_id: ShipId::new(1),
        berth_id: BerthId::new(0),
    };

    assert_eq!(action.action_type(), "DockShip");
}

#[test]
fn test_action_equality() {
    let a1 = MCTSAction::Pass;
    let a2 = MCTSAction::Pass;

    assert_eq!(a1, a2);
}

#[test]
fn test_all_action_labels() {
    assert_eq!(
        MCTSAction::AssignCrane { crane_id: CraneId::new(0), ship_id: ShipId::new(1) }
            .action_type(),
        "AssignCrane"
    );
    assert_eq!(
        MCTSAction::UnassignCrane { crane_id: CraneId::new(0) }.action_type(),
        "UnassignCrane"
    );
    assert_eq!(MCTSAction::Pass.action_type(), "Pass");
}
