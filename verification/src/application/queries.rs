//! Read operations: queries and the flat view models they return.

use vstd::prelude::*;

use crate::domain::entities::{Berth, Crane, Ship, ShipV};
use crate::domain::value_objects::{CraneId, PlayerId};

verus! {

/// All queries for reading game state.
#[derive(Debug, Clone, Copy, PartialEq, Eq, Structural)]
pub enum Query {
    /// Current port state for a player.
    GetPortState { player_id: PlayerId },
    /// All waiting ships.
    GetWaitingShips { player_id: PlayerId },
    /// All docked ships.
    GetDockedShips { player_id: PlayerId },
    /// Free berths.
    GetFreeBerths { player_id: PlayerId },
    /// Free cranes.
    GetFreeCranes { player_id: PlayerId },
    /// Current score.
    GetScore { player_id: PlayerId },
    /// Player-versus-engine comparison.
    GetComparisonStats,
    /// Search-tree state, for visualization.
    GetMCTSState { player_id: PlayerId },
}

/// Flat read model of one ship.
#[derive(Debug, Clone, PartialEq, Eq)]
pub struct ShipView {
    pub id: usize,
    pub containers: u32,
    pub containers_remaining: u32,
    pub is_docked: bool,
    pub docked_at: Option<usize>,
    pub assigned_cranes: Vec<usize>,
}

/// The view a ship should flatten to.
pub open spec fn ship_view_ok(v: ShipView, s: ShipV) -> bool {
    &&& v.id == s.id.0
    &&& v.containers == s.containers
    &&& v.containers_remaining == s.containers_remaining
    &&& v.is_docked == s.is_docked()
    &&& v.docked_at == (match s.docked_at {
        Some(b) => Some(b.0),
        None => None::<usize>,
    })
    &&& v.assigned_cranes@ == s.assigned_cranes.map_values(|c: CraneId| c.0)
}

impl ShipView {
    /// Flattens a ship into plain numbers.
    pub fn from_ship(ship: &Ship) -> (r: Self)
        ensures
            ship_view_ok(r, ship@),
    {
        let mut cranes: Vec<usize> = Vec::new();
        let mut i: usize = 0;
        while i < ship.assigned_cranes.len()
            invariant
                i <= ship.assigned_cranes@.len(),
                cranes@.len() == i,
                forall|k: int| 0 <= k < i ==> cranes@[k] == (#[trigger] ship.assigned_cranes@[k]).0,
            decreases ship.assigned_cranes@.len() - i,
        {
            cranes.push(ship.assigned_cranes[i].0);
            i = i + 1;
        }
        proof {
            assert(cranes@ =~= ship@.assigned_cranes.map_values(|c: CraneId| c.0));
        }
        ShipView {
            id: ship.id.0,
            containers: ship.containers,
            containers_remaining: ship.containers_remaining,
            is_docked: ship.is_docked(),
            docked_at: match ship.docked_at {
                Some(b) => Some(b.0),
                None => None,
            },
            assigned_cranes: cranes,
        }
    }
}

/// Flat read model of one berth.
#[derive(Debug, Clone, Copy, PartialEq, Eq)]
pub struct BerthView {
    pub id: usize,
    pub is_free: bool,
    pub occupied_by: Option<usize>,
}

/// The view a berth should flatten to.
pub open spec fn berth_view_ok(v: BerthView, b: Berth) -> bool {
    &&& v.id == b.id.0
    &&& v.is_free == (b.occupied_by is None)
    &&& v.occupied_by == (match b.occupied_by {
        Some(s) => Some(s.0),
        None => None::<usize>,
    })
}

impl BerthView {
    /// Flattens a berth into plain numbers.
    pub fn from_berth(berth: &Berth) -> (r: Self)
        ensures
            berth_view_ok(r, *berth),
    {
        BerthView {
            id: berth.id.0,
            is_free: berth.is_free(),
            occupied_by: match berth.occupied_by {
                Some(s) => Some(s.0),
                None => None,
            },
        }
    }
}

/// Flat read model of one crane.
#[derive(Debug, Clone, Copy, PartialEq, Eq)]
pub struct CraneView {
    pub id: usize,
    pub is_free: bool,
    pub assigned_to: Option<usize>,
    pub processing_speed: u32,
}

/// The view a crane should flatten to.
pub open spec fn crane_view_ok(v: CraneView, c: Crane) -> bool {
    &&& v.id == c.id.0
    &&& v.is_free == (c.assigned_to is None)
    &&& v.assigned_to == (match c.assigned_to {
        Some(s) => Some(s.0),
        None => None::<usize>,
    })
    &&& v.processing_speed == c.processing_speed
}

impl CraneView {
    /// Flattens a crane into plain numbers.
    pub fn from_crane(crane: &Crane) -> (r: Self)
        ensures
            crane_view_ok(r, *crane),
    {
        CraneView {
            id: crane.id.0,
            is_free: crane.is_free(),
            assigned_to: match crane.assigned_to {
                Some(s) => Some(s.0),
                None => None,
            },
            processing_speed: crane.processing_speed,
        }
    }
}

/// Flat read model of a whole port.
#[derive(Debug, Clone, PartialEq, Eq)]
pub struct PortStateView {
    pub player_id: PlayerId,
    pub ships: Vec<ShipView>,
    pub berths: Vec<BerthView>,
    pub cranes: Vec<CraneView>,
    pub score: i32,
    /// Clock in ticks (half time units).
    pub current_time: u64,
}

} // verus!
