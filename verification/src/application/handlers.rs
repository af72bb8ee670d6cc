//! Command handlers: validation of player intentions against the current
//! port, producing events, and the port-state query.

use vstd::prelude::*;
use vstd::string::StringExecFns;

use crate::domain::aggregates::{Port, PortV};
use crate::domain::events::PortEvent;
use crate::domain::value_objects::{spec_decimal, BerthId, CraneId, ShipId};
use crate::numeric::clamp_i32;

verus! {

/// Seam for a full command-dispatch service.
#[derive(Debug, Clone, Copy, PartialEq, Eq, Structural)]
pub struct CommandHandler;

/// Seam for a full read-model service.
#[derive(Debug, Clone, Copy, PartialEq, Eq, Structural)]
pub struct QueryHandler;

/// Message for an unknown ship.
fn ship_not_found_msg(ship_id: ShipId) -> (r: String)
    ensures
        r@ == "Ship#"@ + spec_decimal(ship_id.0 as int) + " not found"@,
{
    let mut s = ship_id.to_string();
    s.append(" not found");
    s
}

/// Validates a docking request and turns it into the event that docks the
/// ship: accepted exactly when the ship exists and the berth exists and is
/// free; each rejection names its reason.
pub fn handle_dock_ship_command(port: &Port, ship_id: ShipId, berth_id: BerthId) -> (r: Result<
    Vec<PortEvent>,
    String,
>)
    requires
        port@.wf(),
    ensures
        r is Ok <==> (port@.has_ship(ship_id) && port@.has_berth(berth_id) && port@.berth_of(
            berth_id,
        ).occupied_by is None),
        r matches Ok(evs) ==> evs@ == seq![
            (PortEvent::ShipDocked {
                ship_id,
                berth_id,
                player: port@.player_id,
                docking_time: port@.current_time,
            }),
        ],
        r matches Err(msg) ==> msg@ == if !port@.has_ship(ship_id) {
            "Ship#"@ + spec_decimal(ship_id.0 as int) + " not found"@
        } else if !port@.has_berth(berth_id) {
            "Berth not found"@
        } else {
            "Berth#"@ + spec_decimal(berth_id.0 as int) + " is occupied"@
        },
{
    if port.get_ship(ship_id).is_none() {
        return Err(ship_not_found_msg(ship_id));
    }
    match port.get_berth(berth_id) {
        None => Err("Berth not found".to_owned()),
        Some(berth) => {
            if !berth.is_free() {
                let mut s = berth_id.to_string();
                s.append(" is occupied");
                Err(s)
            } else {
                let event = PortEvent::ShipDocked {
                    ship_id,
                    berth_id,
                    player: port.player_id,
                    docking_time: port.current_time,
                };
                let mut evs: Vec<PortEvent> = Vec::new();
                evs.push(event);
                proof {
                    assert(evs@ =~= seq![
                        (PortEvent::ShipDocked {
                            ship_id,
                            berth_id,
                            player: port@.player_id,
                            docking_time: port@.current_time,
                        }),
                    ]);
                }
                Ok(evs)
            }
        },
    }
}

/// Validates a crane request and turns it into the event that assigns the
/// crane: accepted exactly when the ship exists and the crane exists and
/// is free; each rejection names its reason.
pub fn handle_assign_crane_command(port: &Port, crane_id: CraneId, ship_id: ShipId) -> (r: Result<
    Vec<PortEvent>,
    String,
>)
    requires
        port@.wf(),
    ensures
        r is Ok <==> (port@.has_ship(ship_id) && port@.has_crane(crane_id) && port@.crane_of(
            crane_id,
        ).assigned_to is None),
        r matches Ok(evs) ==> evs@ == seq![
            (PortEvent::CraneAssigned {
                crane_id,
                ship_id,
                player: port@.player_id,
                assignment_time: port@.current_time,
            }),
        ],
        r matches Err(msg) ==> msg@ == if !port@.has_ship(ship_id) {
            "Ship#"@ + spec_decimal(ship_id.0 as int) + " not found"@
        } else if !port@.has_crane(crane_id) {
            "Crane not found"@
        } else {
            "Crane#"@ + spec_decimal(crane_id.0 as int) + " is already assigned"@
        },
{
    if port.get_ship(ship_id).is_none() {
        return Err(ship_not_found_msg(ship_id));
    }
    match port.get_crane(crane_id) {
        None => Err("Crane not found".to_owned()),
        Some(crane) => {
            if !crane.is_free() {
                let mut s = crane_id.to_string();
                s.append(" is already assigned");
                Err(s)
            } else {
                let event = PortEvent::CraneAssigned {
                    crane_id,
                    ship_id,
                    player: port.player_id,
                    assignment_time: port.current_time,
                };
                let mut evs: Vec<PortEvent> = Vec::new();
                evs.push(event);
                proof {
                    assert(evs@ =~= seq![
                        (PortEvent::CraneAssigned {
                            crane_id,
                            ship_id,
                            player: port@.player_id,
                            assignment_time: port@.current_time,
                        }),
                    ]);
                }
                Ok(evs)
            }
        },
    }
}

/// Flattens the whole port into its read model.
pub fn query_port_state(port: &Port) -> (r: super::queries::PortStateView)
    requires
        port@.wf(),
    ensures
        r.player_id == port@.player_id,
        r.current_time == port@.current_time,
        r.score == clamp_i32(port@.spec_score()),
        r.ships@.len() == port@.ships.len(),
        forall|i: int|
            0 <= i < port@.ships.len() ==> super::queries::ship_view_ok(
                #[trigger] r.ships@[i],
                port@.ships[i],
            ),
        r.berths@.len() == port@.berths.len(),
        forall|i: int|
            0 <= i < port@.berths.len() ==> super::queries::berth_view_ok(
                #[trigger] r.berths@[i],
                port@.berths[i],
            ),
        r.cranes@.len() == port@.cranes.len(),
        forall|i: int|
            0 <= i < port@.cranes.len() ==> super::queries::crane_view_ok(
                #[trigger] r.cranes@[i],
                port@.cranes[i],
            ),
{
    let mut ships: Vec<super::queries::ShipView> = Vec::new();
    let mut i: usize = 0;
    while i < port.ships.len()
        invariant
            i <= port.ships@.len(),
            ships@.len() == i,
            forall|k: int|
                0 <= k < i ==> super::queries::ship_view_ok(
                    #[trigger] ships@[k],
                    (#[trigger] port.ships@[k])@,
                ),
        decreases port.ships@.len() - i,
    {
        ships.push(super::queries::ShipView::from_ship(&port.ships[i]));
        i = i + 1;
    }
    let mut berths: Vec<super::queries::BerthView> = Vec::new();
    let mut j: usize = 0;
    while j < port.berths.len()
        invariant
            j <= port.berths@.len(),
            berths@.len() == j,
            forall|k: int|
                0 <= k < j ==> super::queries::berth_view_ok(
                    #[trigger] berths@[k],
                    #[trigger] port.berths@[k],
                ),
        decreases port.berths@.len() - j,
    {
        berths.push(super::queries::BerthView::from_berth(&port.berths[j]));
        j = j + 1;
    }
    let mut cranes: Vec<super::queries::CraneView> = Vec::new();
    let mut k: usize = 0;
    while k < port.cranes.len()
        invariant
            k <= port.cranes@.len(),
            cranes@.len() == k,
            forall|t: int|
                0 <= t < k ==> super::queries::crane_view_ok(
                    #[trigger] cranes@[t],
                    #[trigger] port.cranes@[t],
                ),
        decreases port.cranes@.len() - k,
    {
        cranes.push(super::queries::CraneView::from_crane(&port.cranes[k]));
        k = k + 1;
    }
    super::queries::PortStateView {
        player_id: port.player_id,
        ships,
        berths,
        cranes,
        score: port.calculate_score(),
        current_time: port.current_time,
    }
}

} // verus!
