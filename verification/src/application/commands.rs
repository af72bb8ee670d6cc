//! Write operations: everything a player can ask for.

use vstd::prelude::*;

use crate::domain::value_objects::{BerthId, CraneId, PlayerId, ShipId};

verus! {

/// All commands a player can issue.
#[derive(Debug, Clone, Copy, PartialEq, Eq, Structural)]
pub enum Command {
    /// Dock a waiting ship at a free berth.
    DockShip { player_id: PlayerId, ship_id: ShipId, berth_id: BerthId },
    /// Assign a free crane to a docked ship.
    AssignCrane { player_id: PlayerId, crane_id: CraneId, ship_id: ShipId },
    /// Take a crane off a ship.
    UnassignCrane { player_id: PlayerId, crane_id: CraneId, ship_id: ShipId },
    /// Send a ship away early, penalty applied.
    ForceUndock { player_id: PlayerId, ship_id: ShipId },
    /// End the player's turn.
    EndTurn { player_id: PlayerId },
    /// Let the search engine take its turn.
    AITakeTurn { player_id: PlayerId, num_simulations: usize },
}

impl Command {
    /// The issuing player, at the spec level.
    pub open spec fn spec_player_id(self) -> PlayerId {
        match self {
            Command::DockShip { player_id, .. } => player_id,
            Command::AssignCrane { player_id, .. } => player_id,
            Command::UnassignCrane { player_id, .. } => player_id,
            Command::ForceUndock { player_id, .. } => player_id,
            Command::EndTurn { player_id } => player_id,
            Command::AITakeTurn { player_id, .. } => player_id,
        }
    }

    /// The issuing player.
    pub fn player_id(&self) -> (r: PlayerId)
        ensures
            r == self.spec_player_id(),
    {
        match self {
            Command::DockShip { player_id, .. } => *player_id,
            Command::AssignCrane { player_id, .. } => *player_id,
            Command::UnassignCrane { player_id, .. } => *player_id,
            Command::ForceUndock { player_id, .. } => *player_id,
            Command::EndTurn { player_id } => *player_id,
            Command::AITakeTurn { player_id, .. } => *player_id,
        }
    }

    /// The label of each command kind, at the spec level.
    pub open spec fn spec_command_type(self) -> Seq<char> {
        match self {
            Command::DockShip { .. } => "DockShip"@,
            Command::AssignCrane { .. } => "AssignCrane"@,
            Command::UnassignCrane { .. } => "UnassignCrane"@,
            Command::ForceUndock { .. } => "ForceUndock"@,
            Command::EndTurn { .. } => "EndTurn"@,
            Command::AITakeTurn { .. } => "AITakeTurn"@,
        }
    }

    /// Short label naming the kind of command.
    pub fn command_type(&self) -> (r: &'static str)
        ensures
            r@ == self.spec_command_type(),
    {
        match self {
            Command::DockShip { .. } => "DockShip",
            Command::AssignCrane { .. } => "AssignCrane",
            Command::UnassignCrane { .. } => "UnassignCrane",
            Command::ForceUndock { .. } => "ForceUndock",
            Command::EndTurn { .. } => "EndTurn",
            Command::AITakeTurn { .. } => "AITakeTurn",
        }
    }
}

} // verus!
