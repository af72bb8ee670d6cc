//! Entities of the port: ships, berths and cranes.
//!
//! The simulated clock runs in half time units ("ticks"): a whole time unit
//! is two ticks. Arrival times and the port clock are measured in ticks.

use vstd::prelude::*;

use crate::domain::value_objects::{BerthId, CraneId, ShipId};

verus! {

/// A sequence without repeated elements.
pub open spec fn distinct_seq<T>(s: Seq<T>) -> bool {
    forall|i: int, j: int| 0 <= i < j < s.len() ==> s[i] != s[j]
}

/// Cargo ship waiting to dock or being unloaded.
#[derive(Debug)]
pub struct Ship {
    pub id: ShipId,
    pub containers: u32,
    pub containers_remaining: u32,
    pub arrival_time: u64,
    pub docked_at: Option<BerthId>,
    pub assigned_cranes: Vec<CraneId>,
}

/// Spec-level picture of a [`Ship`], with the crane list as a sequence.
pub ghost struct ShipV {
    pub id: ShipId,
    pub containers: u32,
    pub containers_remaining: u32,
    pub arrival_time: u64,
    pub docked_at: Option<BerthId>,
    pub assigned_cranes: Seq<CraneId>,
}

impl ShipV {
    pub open spec fn is_docked(self) -> bool {
        self.docked_at is Some
    }

    pub open spec fn is_completed(self) -> bool {
        self.containers_remaining == 0
    }

    /// Remaining work never exceeds the total, and no crane is listed twice.
    pub open spec fn wf(self) -> bool {
        &&& self.containers_remaining <= self.containers
        &&& distinct_seq(self.assigned_cranes)
    }
}

impl View for Ship {
    type V = ShipV;

    open spec fn view(&self) -> ShipV {
        ShipV {
            id: self.id,
            containers: self.containers,
            containers_remaining: self.containers_remaining,
            arrival_time: self.arrival_time,
            docked_at: self.docked_at,
            assigned_cranes: self.assigned_cranes@,
        }
    }
}

impl Clone for Ship {
    fn clone(&self) -> (res: Self)
        ensures
            res@ == self@,
    {
        let cranes = self.assigned_cranes.clone();
        proof {
            assert(cranes@ =~= self.assigned_cranes@);
        }
        Ship {
            id: self.id,
            containers: self.containers,
            containers_remaining: self.containers_remaining,
            arrival_time: self.arrival_time,
            docked_at: self.docked_at,
            assigned_cranes: cranes,
        }
    }
}

impl Ship {
    /// A freshly arrived ship: full work load, not docked, no cranes.
    pub fn new(id: ShipId, containers: u32, arrival_time: u64) -> (r: Self)
        ensures
            r@ == (ShipV {
                id,
                containers,
                containers_remaining: containers,
                arrival_time,
                docked_at: None,
                assigned_cranes: Seq::empty(),
            }),
            r@.wf(),
    {
        let r = Ship {
            id,
            containers,
            containers_remaining: containers,
            arrival_time,
            docked_at: None,
            assigned_cranes: Vec::new(),
        };
        proof {
            assert(r.assigned_cranes@ =~= Seq::<CraneId>::empty());
        }
        r
    }

    pub fn is_docked(&self) -> (r: bool)
        ensures
            r == self@.is_docked(),
    {
        self.docked_at.is_some()
    }

    pub fn is_completed(&self) -> (r: bool)
        ensures
            r == self@.is_completed(),
    {
        self.containers_remaining == 0
    }

    pub fn dock(&mut self, berth_id: BerthId)
        ensures
            final(self)@ == (ShipV { docked_at: Some(berth_id), ..old(self)@ }),
    {
        self.docked_at = Some(berth_id);
    }

    pub fn undock(&mut self)
        ensures
            final(self)@ == (ShipV {
                docked_at: None,
                assigned_cranes: Seq::empty(),
                ..old(self)@
            }),
    {
        self.docked_at = None;
        self.assigned_cranes.clear();
        proof {
            assert(self.assigned_cranes@ =~= Seq::<CraneId>::empty());
        }
    }

    /// Records the crane on the ship; a crane already on board is not
    /// listed a second time.
    pub fn assign_crane(&mut self, crane_id: CraneId)
        ensures
            final(self)@ == (ShipV {
                assigned_cranes: if old(self)@.assigned_cranes.contains(crane_id) {
                    old(self)@.assigned_cranes
                } else {
                    old(self)@.assigned_cranes.push(crane_id)
                },
                ..old(self)@
            }),
    {
        if !self.has_crane(crane_id) {
            self.assigned_cranes.push(crane_id);
        }
    }

    /// Drops every occurrence of the crane from the ship's list.
    pub fn unassign_crane(&mut self, crane_id: CraneId)
        ensures
            final(self)@ == (ShipV {
                assigned_cranes: old(self)@.assigned_cranes.filter(|c: CraneId| c != crane_id),
                ..old(self)@
            }),
    {
        let ghost orig = self.assigned_cranes@;
        let ghost pred = |c: CraneId| c != crane_id;
        let mut kept: Vec<CraneId> = Vec::new();
        let mut i: usize = 0;
        proof {
            assert(orig.subrange(0, 0) =~= Seq::<CraneId>::empty());
            reveal(Seq::filter);
        }
        while i < self.assigned_cranes.len()
            invariant
                i <= self.assigned_cranes.len(),
                self.assigned_cranes@ == orig,
                pred == (|c: CraneId| c != crane_id),
                kept@ == orig.subrange(0, i as int).filter(pred),
            decreases self.assigned_cranes.len() - i,
        {
            let c = self.assigned_cranes[i];
            proof {
                reveal(Seq::filter);
                assert(orig.subrange(0, i + 1).drop_last() =~= orig.subrange(0, i as int));
                assert(orig.subrange(0, i + 1).last() == c);
            }
            if c.0 != crane_id.0 {
                kept.push(c);
            }
            proof {
                if c.0 == crane_id.0 {
                    assert(c == crane_id);
                }
            }
            i = i + 1;
        }
        proof {
            assert(orig.subrange(0, orig.len() as int) =~= orig);
        }
        self.assigned_cranes = kept;
    }

    /// Unloads up to `count` containers, flooring the remaining work at zero.
    pub fn process_containers(&mut self, count: u32)
        ensures
            final(self)@ == (ShipV {
                containers_remaining: if old(self).containers_remaining >= count {
                    (old(self).containers_remaining - count) as u32
                } else {
                    0
                },
                ..old(self)@
            }),
    {
        self.containers_remaining = crate::numeric::sat_sub_u32(self.containers_remaining, count);
    }

    /// Ticks spent waiting since arrival; negative if the clock has not yet
    /// reached the arrival time.
    pub fn waiting_time(&self, current_time: u64) -> (r: i128)
        ensures
            r == current_time - self.arrival_time,
    {
        current_time as i128 - self.arrival_time as i128
    }

    /// Empties the crane list without undocking.
    pub fn clear_cranes(&mut self)
        ensures
            final(self)@ == (ShipV { assigned_cranes: Seq::empty(), ..old(self)@ }),
    {
        self.assigned_cranes.clear();
        proof {
            assert(self.assigned_cranes@ =~= Seq::<CraneId>::empty());
        }
    }

    /// Whether the crane is already listed on this ship.
    pub fn has_crane(&self, crane_id: CraneId) -> (r: bool)
        ensures
            r == self@.assigned_cranes.contains(crane_id),
    {
        let n = self.assigned_cranes.len();
        let mut i: usize = 0;
        while i < n
            invariant
                i <= n,
                n == self.assigned_cranes.len(),
                forall|j: int| 0 <= j < i ==> self.assigned_cranes@[j] != crane_id,
            decreases n - i,
        {
            if self.assigned_cranes[i].0 == crane_id.0 {
                return true;
            }
            i = i + 1;
        }
        false
    }
}

/// Docking position for one ship.
#[derive(Debug, PartialEq, Eq)]
pub struct Berth {
    pub id: BerthId,
    pub occupied_by: Option<ShipId>,
}

impl Clone for Berth {
    fn clone(&self) -> (res: Self)
        ensures
            res == *self,
    {
        Berth { id: self.id, occupied_by: self.occupied_by }
    }
}

impl Berth {
    pub fn new(id: BerthId) -> (r: Self)
        ensures
            r == (Berth { id, occupied_by: None }),
    {
        Berth { id, occupied_by: None }
    }

    pub fn is_free(&self) -> (r: bool)
        ensures
            r == (self.occupied_by is None),
    {
        self.occupied_by.is_none()
    }

    pub fn occupy(&mut self, ship_id: ShipId)
        ensures
            *final(self) == (Berth { occupied_by: Some(ship_id), ..*old(self) }),
    {
        self.occupied_by = Some(ship_id);
    }

    pub fn free(&mut self)
        ensures
            *final(self) == (Berth { occupied_by: None, ..*old(self) }),
    {
        self.occupied_by = None;
    }
}

/// Unloading equipment; the throughput rate is in containers per time unit.
#[derive(Debug, PartialEq, Eq)]
pub struct Crane {
    pub id: CraneId,
    pub assigned_to: Option<ShipId>,
    pub processing_speed: u32,
}

impl Clone for Crane {
    fn clone(&self) -> (res: Self)
        ensures
            res == *self,
    {
        Crane { id: self.id, assigned_to: self.assigned_to, processing_speed: self.processing_speed }
    }
}

impl Crane {
    pub fn new(id: CraneId, processing_speed: u32) -> (r: Self)
        ensures
            r == (Crane { id, assigned_to: None, processing_speed }),
    {
        Crane { id, assigned_to: None, processing_speed }
    }

    pub fn is_free(&self) -> (r: bool)
        ensures
            r == (self.assigned_to is None),
    {
        self.assigned_to.is_none()
    }

    pub fn assign(&mut self, ship_id: ShipId)
        ensures
            *final(self) == (Crane { assigned_to: Some(ship_id), ..*old(self) }),
    {
        self.assigned_to = Some(ship_id);
    }

    pub fn unassign(&mut self)
        ensures
            *final(self) == (Crane { assigned_to: None, ..*old(self) }),
    {
        self.assigned_to = None;
    }

    /// Containers this crane moves in one turn: ten per unit of speed,
    /// capped at the largest `u32`.
    pub fn containers_per_turn(&self) -> (r: u32)
        ensures
            r == if 10 * self.processing_speed <= u32::MAX as int {
                10 * self.processing_speed as int
            } else {
                u32::MAX as int
            },
    {
        if self.processing_speed <= u32::MAX / 10 {
            10 * self.processing_speed
        } else {
            u32::MAX
        }
    }
}

} // verus!
