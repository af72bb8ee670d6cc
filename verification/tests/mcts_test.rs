// The search engine: tree mechanics, the generator, the transition and
// full searches.

use port_game::domain::aggregates::Port;
use port_game::domain::entities::Ship;
use port_game::domain::events::PortEvent;
use port_game::domain::value_objects::{BerthId, CraneId, PlayerId, ShipId};
use port_game::mcts::tree::Ucb1;
use port_game::mcts::{MCTSAction, MCTSConfig, MCTSEngine, MCTSNode, MCTSTree};

#[test]
fn test_tree_initialization() {
    let mut tree = MCTSTree::new();
    let port = Port::new(PlayerId::new(), 2, 2);

    tree.init_root(port);

    assert_eq!(tree.node_count(), 1);
    assert_eq!(tree.root_id, Some(0));
}

#[test]
fn test_ucb1_unvisited_node() {
    let port = Port::new(PlayerId::new(), 2, 2);
    let node = MCTSNode::new(port, None, None, 0);

    let ucb = node.ucb1(10, 1410);

    assert_eq!(ucb, Ucb1::Infinity);
}

#[test]
fn test_backpropagation() {
    let mut tree = MCTSTree::new();
    let port = Port::new(PlayerId::new(), 2, 2);

    tree.init_root(port);
    tree.backpropagate(0, 100);

    let root = tree.node(0);
    assert_eq!(root.visits, 1);
    assert_eq!(root.total_score, 100);
}

#[test]
fn test_backpropagation_accumulates() {
    let mut tree = MCTSTree::new();
    let port = Port::new(PlayerId::new(), 1, 1);
    tree.init_root(port);
    tree.backpropagate(0, 40);
    tree.backpropagate(0, -15);
    tree.backpropagate(0, 5);

    assert_eq!(tree.node(0).visits, 3);
    assert_eq!(tree.node(0).total_score, 30);
}

#[test]
fn test_mcts_engine_creation() {
    let config = MCTSConfig::default();
    let engine = MCTSEngine::new(config);

    assert_eq!(engine.config.num_simulations, 1000);
}

#[test]
fn test_mcts_search_simple() {
    let config = MCTSConfig {
        num_simulations: 10,
        exploration_constant: 1410,
        max_depth: 10,
        max_actions_per_turn: 2,
    };

    let mut engine = MCTSEngine::new(config);
    let port = Port::new(PlayerId::new(), 2, 2);

    // An empty port still offers Pass, so the search must pick something.
    let action = engine.search(&port);
    assert_eq!(action, Some(MCTSAction::Pass));
}

fn port_with_waiting_ship() -> (Port, PlayerId) {
    let player_id = PlayerId::new();
    let mut port = Port::new(player_id, 1, 1);
    port.apply_event(&PortEvent::ShipArrived {
        ship_id: ShipId::new(1),
        container_count: 30,
        arrival_time: 0,
    });
    (port, player_id)
}

#[test]
fn test_search_recommends_docking() {
    // One waiting ship with 30 work units, one free berth, one free crane:
    // docking is the only move at the root, and the search must find it.
    let (port, _) = port_with_waiting_ship();
    let config = MCTSConfig {
        num_simulations: 50,
        exploration_constant: 1410,
        max_depth: 5,
        max_actions_per_turn: 1,
    };
    let mut engine = MCTSEngine::new(config);

    let action = engine.search(&port);

    assert_eq!(
        action,
        Some(MCTSAction::DockShip { ship_id: ShipId::new(1), berth_id: BerthId::new(0) })
    );
}

#[test]
fn test_search_without_budget_returns_nothing() {
    let (port, _) = port_with_waiting_ship();
    let config = MCTSConfig {
        num_simulations: 0,
        exploration_constant: 1410,
        max_depth: 5,
        max_actions_per_turn: 1,
    };
    let mut engine = MCTSEngine::new(config);
    assert_eq!(engine.search(&port), None);

    let config = MCTSConfig {
        num_simulations: 50,
        exploration_constant: 1410,
        max_depth: 0,
        max_actions_per_turn: 1,
    };
    let mut engine = MCTSEngine::new(config);
    assert_eq!(engine.search(&port), None);
    assert_eq!(engine.get_tree().best_action(), None);
}

#[test]
fn test_generate_actions_products() {
    // Two waiting ships and two free berths give four docking moves; one
    // docked ship and one free crane add one crane move.
    let player_id = PlayerId::new();
    let mut port = Port::new(player_id, 3, 1);
    for i in 0..3u32 {
        port.apply_event(&PortEvent::ShipArrived {
            ship_id: ShipId::new(i as usize),
            container_count: 20,
            arrival_time: 0,
        });
    }
    port.apply_event(&PortEvent::ShipDocked {
        ship_id: ShipId::new(2),
        berth_id: BerthId::new(2),
        player: player_id,
        docking_time: 0,
    });

    let tree = MCTSTree::new();
    let actions = tree.generate_actions(&port);

    let docks = actions
        .iter()
        .filter(|a| matches!(a, MCTSAction::DockShip { .. }))
        .count();
    let assigns = actions
        .iter()
        .filter(|a| matches!(a, MCTSAction::AssignCrane { .. }))
        .count();
    assert_eq!(docks, 4);
    assert_eq!(assigns, 1);
    assert_eq!(actions.len(), 5);
}

#[test]
fn test_generate_actions_pass_only() {
    // Nothing to do: no waiting ship, no docked ship. Only Pass remains.
    let port = Port::new(PlayerId::new(), 2, 2);
    let tree = MCTSTree::new();
    let actions = tree.generate_actions(&port);
    assert_eq!(actions, vec![MCTSAction::Pass]);
}

#[test]
fn test_dock_not_offered_again() {
    // After docking ship 1 at berth 0, regenerating the move list must not
    // offer that same move again.
    let (mut port, _) = port_with_waiting_ship();
    let action = MCTSAction::DockShip { ship_id: ShipId::new(1), berth_id: BerthId::new(0) };
    MCTSTree::apply_action_to_state(&mut port, &action);

    let tree = MCTSTree::new();
    let actions = tree.generate_actions(&port);
    assert!(!actions.contains(&action));
}

#[test]
fn test_apply_action_advances_clock_and_processes() {
    let player_id = PlayerId::new();
    let mut port = Port::new(player_id, 1, 1);
    port.apply_event(&PortEvent::ShipArrived {
        ship_id: ShipId::new(1),
        container_count: 30,
        arrival_time: 0,
    });
    port.apply_event(&PortEvent::ShipDocked {
        ship_id: ShipId::new(1),
        berth_id: BerthId::new(0),
        player: player_id,
        docking_time: 0,
    });

    // Assigning the crane costs one whole unit (two ticks) and triggers
    // one processing step of ten containers.
    let assign = MCTSAction::AssignCrane { crane_id: CraneId::new(0), ship_id: ShipId::new(1) };
    MCTSTree::apply_action_to_state(&mut port, &assign);
    assert_eq!(port.current_time, 2);
    assert_eq!(port.get_ship(ShipId::new(1)).unwrap().containers_remaining, 20);

    // Two passes cost one tick each and process ten containers each; the
    // third pass finishes the ship, which frees everything and leaves.
    MCTSTree::apply_action_to_state(&mut port, &MCTSAction::Pass);
    assert_eq!(port.current_time, 3);
    assert_eq!(port.get_ship(ShipId::new(1)).unwrap().containers_remaining, 10);
    MCTSTree::apply_action_to_state(&mut port, &MCTSAction::Pass);
    assert!(port.get_ship(ShipId::new(1)).is_none());
    assert_eq!(port.free_berths().len(), 1);
    assert_eq!(port.free_cranes().len(), 1);
}

#[test]
fn test_expand_at_depth_cap_is_a_no_op() {
    let mut tree = MCTSTree::new();
    let (port, _) = port_with_waiting_ship();
    tree.init_root(port);

    // The root sits at depth zero; a zero depth cap forbids expansion.
    let expanded = tree.expand(0, 0);
    assert_eq!(expanded, 0);
    assert_eq!(tree.node_count(), 1);
    assert!(tree.node(0).children.is_empty());
}

#[test]
fn test_expand_creates_one_child_per_action() {
    let mut tree = MCTSTree::new();
    let (port, _) = port_with_waiting_ship();
    tree.init_root(port);

    let first_child = tree.expand(0, 5);
    assert_eq!(first_child, 1);
    assert_eq!(tree.node_count(), 2);
    assert_eq!(tree.node(0).children, vec![1]);
    assert_eq!(
        tree.node(1).action,
        Some(MCTSAction::DockShip { ship_id: ShipId::new(1), berth_id: BerthId::new(0) })
    );
    assert_eq!(tree.node(1).depth, 1);
    assert_eq!(tree.node(1).parent, Some(0));
}

#[test]
fn test_best_action_prefers_most_visited() {
    let mut tree = MCTSTree::new();
    let (port, _) = port_with_waiting_ship();
    tree.init_root(port);
    tree.expand(0, 5);

    assert_eq!(tree.best_action(), tree.node(1).action);
}

#[test]
fn test_statistics_reflect_tree() {
    let (port, _) = port_with_waiting_ship();
    let config = MCTSConfig {
        num_simulations: 20,
        exploration_constant: 1410,
        max_depth: 3,
        max_actions_per_turn: 1,
    };
    let mut engine = MCTSEngine::new(config);
    engine.search(&port);
    let stats = engine.get_statistics();

    assert_eq!(stats.simulations_performed, 20);
    assert_eq!(stats.total_nodes, engine.get_tree().node_count());
    assert!(stats.max_depth_reached >= 1);
    assert!(stats.max_depth_reached <= 3);
}

#[test]
fn test_node_depth_out_of_range_is_zero() {
    let tree = MCTSTree::new();
    assert_eq!(tree.node_depth(5), 0);
}

#[test]
fn test_average_score_truncates_toward_zero() {
    let port = Port::new(PlayerId::new(), 1, 1);
    let mut node = MCTSNode::new(port, None, None, 0);
    node.visits = 2;
    node.total_score = -3;
    // -3 * 1000 / 2 = -1500 exactly; -3000 / 4 would truncate toward zero.
    assert_eq!(node.average_score(), -1500);
    node.visits = 4;
    node.total_score = -3;
    assert_eq!(node.average_score(), -750);
}

#[test]
fn test_simulator_exists() {
    let s = port_game::mcts::simulation::Simulator::new();
    assert_eq!(s, port_game::mcts::simulation::Simulator::default());
}

#[test]
fn test_ship_views_flatten() {
    let mut ship = Ship::new(ShipId::new(1), 50, 0);
    ship.assign_crane(CraneId::new(4));
    let view = port_game::application::queries::ShipView::from_ship(&ship);
    assert_eq!(view.id, 1);
    assert_eq!(view.containers, 50);
    assert!(!view.is_docked);
    assert_eq!(view.assigned_cranes, vec![4]);
}
