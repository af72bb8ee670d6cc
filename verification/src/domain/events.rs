//! State-changing events of a port, the vocabulary of the event-sourced
//! surface around the game. Times are in ticks (half time units); scores in
//! plain integers. Persistence metadata (event ids, wall-clock stamps) is
//! not part of the core and lives with the surrounding layers.

use vstd::prelude::*;

use crate::domain::value_objects::{BerthId, CraneId, PlayerId, ShipId};
use crate::mcts::actions::MCTSAction;

verus! {

/// Everything that can happen to a game, as plain data.
#[derive(Debug, Clone, Copy, PartialEq, Eq)]
pub enum PortEvent {
    GameStarted {
        player_id: PlayerId,
        ai_player_id: PlayerId,
        num_berths: usize,
        num_cranes: usize,
    },
    TurnStarted { turn_number: u32, current_player: PlayerId },
    TurnEnded { turn_number: u32, player: PlayerId },
    GameEnded { winner: Option<PlayerId>, player_score: i64, ai_score: i64 },
    ShipArrived { ship_id: ShipId, container_count: u32, arrival_time: u64 },
    ShipDocked { ship_id: ShipId, berth_id: BerthId, player: PlayerId, docking_time: u64 },
    ShipUndocked {
        ship_id: ShipId,
        berth_id: BerthId,
        completion_time: u64,
        containers_processed: u32,
    },
    CraneAssigned { crane_id: CraneId, ship_id: ShipId, player: PlayerId, assignment_time: u64 },
    CraneUnassigned { crane_id: CraneId, ship_id: ShipId, unassignment_time: u64 },
    ContainerProcessed { crane_id: CraneId, ship_id: ShipId, containers_remaining: u32 },
    MCTSSearchStarted { player: PlayerId, num_simulations: usize },
    MCTSSearchCompleted {
        player: PlayerId,
        best_action: MCTSAction,
        confidence_millis: i64,
        simulations_performed: usize,
    },
}

impl PortEvent {
    /// Short label naming the kind of event.
    pub fn event_type(&self) -> (r: &'static str)
        ensures
            r@ == self.spec_event_type(),
    {
        match self {
            PortEvent::GameStarted { .. } => "GameStarted",
            PortEvent::TurnStarted { .. } => "TurnStarted",
            PortEvent::TurnEnded { .. } => "TurnEnded",
            PortEvent::GameEnded { .. } => "GameEnded",
            PortEvent::ShipArrived { .. } => "ShipArrived",
            PortEvent::ShipDocked { .. } => "ShipDocked",
            PortEvent::ShipUndocked { .. } => "ShipUndocked",
            PortEvent::CraneAssigned { .. } => "CraneAssigned",
            PortEvent::CraneUnassigned { .. } => "CraneUnassigned",
            PortEvent::ContainerProcessed { .. } => "ContainerProcessed",
            PortEvent::MCTSSearchStarted { .. } => "MCTSSearchStarted",
            PortEvent::MCTSSearchCompleted { .. } => "MCTSSearchCompleted",
        }
    }

    /// The label of each event kind, at the spec level.
    pub open spec fn spec_event_type(self) -> Seq<char> {
        match self {
            PortEvent::GameStarted { .. } => "GameStarted"@,
            PortEvent::TurnStarted { .. } => "TurnStarted"@,
            PortEvent::TurnEnded { .. } => "TurnEnded"@,
            PortEvent::GameEnded { .. } => "GameEnded"@,
            PortEvent::ShipArrived { .. } => "ShipArrived"@,
            PortEvent::ShipDocked { .. } => "ShipDocked"@,
            PortEvent::ShipUndocked { .. } => "ShipUndocked"@,
            PortEvent::CraneAssigned { .. } => "CraneAssigned"@,
            PortEvent::CraneUnassigned { .. } => "CraneUnassigned"@,
            PortEvent::ContainerProcessed { .. } => "ContainerProcessed"@,
            PortEvent::MCTSSearchStarted { .. } => "MCTSSearchStarted"@,
            PortEvent::MCTSSearchCompleted { .. } => "MCTSSearchCompleted"@,
        }
    }
}

} // verus!
