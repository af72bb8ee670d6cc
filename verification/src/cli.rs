//! Vocabulary of the interactive command line: the actions a player can
//! pick from the menu. The input and rendering loop around it lives with
//! the program, not the library.

use vstd::prelude::*;

use crate::domain::value_objects::{BerthId, CraneId, ShipId};

verus! {

/// One choice from the player's action menu.
#[derive(Debug, Clone, Copy, PartialEq, Eq, Structural)]
pub enum PlayerAction {
    /// Dock a waiting ship at a free berth.
    DockShip { ship_id: ShipId, berth_id: BerthId },
    /// Assign a free crane to a docked ship.
    AssignCrane { crane_id: CraneId, ship_id: ShipId },
    /// Show the current port.
    ViewState,
    /// Show the player-versus-engine comparison.
    ViewComparison,
    /// End the turn.
    EndTurn,
    /// Leave the game.
    Quit,
}

} // verus!
