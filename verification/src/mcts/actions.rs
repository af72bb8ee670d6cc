//! The moves the search engine can recommend.

use vstd::prelude::*;

use crate::domain::value_objects::{BerthId, CraneId, ShipId};

verus! {

/// One move in the game, as the search engine sees it.
#[derive(Debug, Clone, Copy, PartialEq, Eq, Hash, Structural)]
pub enum MCTSAction {
    /// Dock a waiting ship at a free berth.
    DockShip { ship_id: ShipId, berth_id: BerthId },
    /// Assign a free crane to a docked ship.
    AssignCrane { crane_id: CraneId, ship_id: ShipId },
    /// Take a crane off its ship. Part of the vocabulary for manual play;
    /// the action generator never proposes it.
    UnassignCrane { crane_id: CraneId },
    /// Do nothing and let time pass.
    Pass,
}

impl MCTSAction {
    /// Short label naming the kind of action.
    pub fn action_type(&self) -> (r: &'static str)
        ensures
            r@ == self.spec_action_type(),
    {
        match self {
            MCTSAction::DockShip { .. } => "DockShip",
            MCTSAction::AssignCrane { .. } => "AssignCrane",
            MCTSAction::UnassignCrane { .. } => "UnassignCrane",
            MCTSAction::Pass => "Pass",
        }
    }

    /// The label of each action kind, at the spec level.
    pub open spec fn spec_action_type(self) -> Seq<char> {
        match self {
            MCTSAction::DockShip { .. } => "DockShip"@,
            MCTSAction::AssignCrane { .. } => "AssignCrane"@,
            MCTSAction::UnassignCrane { .. } => "UnassignCrane"@,
            MCTSAction::Pass => "Pass"@,
        }
    }
}

} // verus!
