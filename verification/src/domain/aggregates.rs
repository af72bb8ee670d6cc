//! The port aggregate: one player's ships, berths and cranes, a clock in
//! ticks (half time units) and a running score, together with the
//! consistency invariant that ties the three collections together.

use vstd::prelude::*;

use crate::domain::entities::{distinct_seq, Berth, Crane, Ship, ShipV};
use crate::domain::events::PortEvent;
use crate::domain::value_objects::{BerthId, CraneId, PlayerId, ShipId};
use crate::numeric::{clamp_i32, div_trunc};

verus! {

/// Cap on the size of each resource collection; it keeps every score and
/// progress computation inside machine integers.
pub const MAX_RESOURCES: usize = 0x0400_0000;

/// One player's port.
#[derive(Debug)]
pub struct Port {
    pub player_id: PlayerId,
    pub ships: Vec<Ship>,
    pub berths: Vec<Berth>,
    pub cranes: Vec<Crane>,
    /// Simulated clock in ticks; one tick is half a time unit.
    pub current_time: u64,
    /// Score accumulated through processed events.
    pub score: i64,
    /// How many events have been applied; bumped by every event.
    pub version: u64,
    /// Events applied here and not yet handed to a store.
    pub uncommitted_events: Vec<PortEvent>,
}

/// Spec-level picture of a [`Port`].
pub ghost struct PortV {
    pub player_id: PlayerId,
    pub ships: Seq<ShipV>,
    pub berths: Seq<Berth>,
    pub cranes: Seq<Crane>,
    pub current_time: u64,
    pub score: i64,
    pub version: u64,
    pub pending: Seq<PortEvent>,
}

impl View for Port {
    type V = PortV;

    open spec fn view(&self) -> PortV {
        PortV {
            player_id: self.player_id,
            ships: self.ships@.map_values(|s: Ship| s@),
            berths: self.berths@,
            cranes: self.cranes@,
            current_time: self.current_time,
            score: self.score,
            version: self.version,
            pending: self.uncommitted_events@,
        }
    }
}

impl PortV {
    pub open spec fn has_ship(self, id: ShipId) -> bool {
        exists|i: int| 0 <= i < self.ships.len() && (#[trigger] self.ships[i]).id == id
    }

    /// Index of the ship with the given id; meaningful under `has_ship`
    /// and unique ids.
    pub open spec fn ship_index(self, id: ShipId) -> int {
        choose|i: int| 0 <= i < self.ships.len() && (#[trigger] self.ships[i]).id == id
    }

    pub open spec fn ship_of(self, id: ShipId) -> ShipV {
        self.ships[self.ship_index(id)]
    }

    pub open spec fn has_berth(self, id: BerthId) -> bool {
        exists|i: int| 0 <= i < self.berths.len() && (#[trigger] self.berths[i]).id == id
    }

    pub open spec fn berth_index(self, id: BerthId) -> int {
        choose|i: int| 0 <= i < self.berths.len() && (#[trigger] self.berths[i]).id == id
    }

    pub open spec fn berth_of(self, id: BerthId) -> Berth {
        self.berths[self.berth_index(id)]
    }

    pub open spec fn has_crane(self, id: CraneId) -> bool {
        exists|i: int| 0 <= i < self.cranes.len() && (#[trigger] self.cranes[i]).id == id
    }

    pub open spec fn crane_index(self, id: CraneId) -> int {
        choose|i: int| 0 <= i < self.cranes.len() && (#[trigger] self.cranes[i]).id == id
    }

    pub open spec fn crane_of(self, id: CraneId) -> Crane {
        self.cranes[self.crane_index(id)]
    }

    /// Ships that have not docked yet, in insertion order.
    pub open spec fn waiting(self) -> Seq<ShipV> {
        self.ships.filter(|s: ShipV| !s.is_docked())
    }

    /// Docked ships, in insertion order.
    pub open spec fn docked(self) -> Seq<ShipV> {
        self.ships.filter(|s: ShipV| s.is_docked())
    }

    pub open spec fn free_berths_v(self) -> Seq<Berth> {
        self.berths.filter(|b: Berth| b.occupied_by is None)
    }

    pub open spec fn free_cranes_v(self) -> Seq<Crane> {
        self.cranes.filter(|c: Crane| c.assigned_to is None)
    }

    pub open spec fn distinct_ids(self) -> bool {
        &&& forall|i: int, j: int|
            0 <= i < j < self.ships.len() ==> (#[trigger] self.ships[i]).id != (
            #[trigger] self.ships[j]).id
        &&& forall|i: int, j: int|
            0 <= i < j < self.berths.len() ==> (#[trigger] self.berths[i]).id != (
            #[trigger] self.berths[j]).id
        &&& forall|i: int, j: int|
            0 <= i < j < self.cranes.len() ==> (#[trigger] self.cranes[i]).id != (
            #[trigger] self.cranes[j]).id
    }

    /// A docked ship's berth exists and points back at the ship.
    pub open spec fn dock_consistent(self) -> bool {
        forall|i: int|
            0 <= i < self.ships.len() && (#[trigger] self.ships[i]).docked_at is Some ==> {
                &&& self.has_berth(self.ships[i].docked_at->0)
                &&& self.berth_of(self.ships[i].docked_at->0).occupied_by == Some(
                    self.ships[i].id,
                )
            }
    }

    /// An occupied berth's ship exists and is docked right there.
    pub open spec fn berth_consistent(self) -> bool {
        forall|j: int|
            0 <= j < self.berths.len() && (#[trigger] self.berths[j]).occupied_by is Some ==> {
                &&& self.has_ship(self.berths[j].occupied_by->0)
                &&& self.ship_of(self.berths[j].occupied_by->0).docked_at == Some(
                    self.berths[j].id,
                )
            }
    }

    /// An assigned crane's ship exists and lists the crane.
    pub open spec fn crane_consistent(self) -> bool {
        forall|k: int|
            0 <= k < self.cranes.len() && (#[trigger] self.cranes[k]).assigned_to is Some ==> {
                &&& self.has_ship(self.cranes[k].assigned_to->0)
                &&& self.ship_of(self.cranes[k].assigned_to->0).assigned_cranes.contains(
                    self.cranes[k].id,
                )
            }
    }

    /// A crane listed on a ship exists and is assigned to that very ship.
    pub open spec fn ship_cranes_consistent(self) -> bool {
        forall|i: int, k: int|
            0 <= i < self.ships.len() && 0 <= k < self.ships[i].assigned_cranes.len() ==> {
                &&& self.has_crane(#[trigger] self.ships[i].assigned_cranes[k])
                &&& self.crane_of(self.ships[i].assigned_cranes[k]).assigned_to == Some(
                    self.ships[i].id,
                )
            }
    }

    /// Full well-formedness of a port.
    pub open spec fn wf(self) -> bool {
        &&& self.ships.len() <= MAX_RESOURCES
        &&& self.berths.len() <= MAX_RESOURCES
        &&& self.cranes.len() <= MAX_RESOURCES
        &&& (forall|i: int| 0 <= i < self.ships.len() ==> (#[trigger] self.ships[i]).wf())
        &&& self.distinct_ids()
        &&& self.dock_consistent()
        &&& self.berth_consistent()
        &&& self.crane_consistent()
        &&& self.ship_cranes_consistent()
    }

    /// Score of one ship at a point in time: ten points per processed
    /// container, minus five points per whole time unit spent waiting
    /// (waiting time is truncated toward zero).
    pub open spec fn ship_score_term(s: ShipV, time: u64) -> int {
        10 * (s.containers - s.containers_remaining) - if !s.is_docked() {
            div_trunc((time - s.arrival_time) * 5, 2)
        } else {
            0
        }
    }

    pub open spec fn score_sum(ships: Seq<ShipV>, time: u64) -> int
        decreases ships.len(),
    {
        if ships.len() == 0 {
            0
        } else {
            Self::score_sum(ships.drop_last(), time) + Self::ship_score_term(ships.last(), time)
        }
    }

    /// The derived score of the whole port.
    pub open spec fn spec_score(self) -> int {
        Self::score_sum(self.ships, self.current_time)
    }
}

/// With distinct ids, `ship_index` recovers exactly the position a ship
/// sits at.
pub proof fn lemma_ship_index_inverse(p: PortV, i: int)
    requires
        p.distinct_ids(),
        0 <= i < p.ships.len(),
    ensures
        p.has_ship(p.ships[i].id),
        p.ship_index(p.ships[i].id) == i,
        p.ship_of(p.ships[i].id) == p.ships[i],
{
    assert(p.has_ship(p.ships[i].id));
    let j = p.ship_index(p.ships[i].id);
    if j != i {
        assert(p.ships[i].id != p.ships[j].id);
    }
}

pub proof fn lemma_berth_index_inverse(p: PortV, i: int)
    requires
        p.distinct_ids(),
        0 <= i < p.berths.len(),
    ensures
        p.has_berth(p.berths[i].id),
        p.berth_index(p.berths[i].id) == i,
        p.berth_of(p.berths[i].id) == p.berths[i],
{
    assert(p.has_berth(p.berths[i].id));
    let j = p.berth_index(p.berths[i].id);
    if j != i {
        assert(p.berths[i].id != p.berths[j].id);
    }
}

pub proof fn lemma_crane_index_inverse(p: PortV, i: int)
    requires
        p.distinct_ids(),
        0 <= i < p.cranes.len(),
    ensures
        p.has_crane(p.cranes[i].id),
        p.crane_index(p.cranes[i].id) == i,
        p.crane_of(p.cranes[i].id) == p.cranes[i],
{
    assert(p.has_crane(p.cranes[i].id));
    let j = p.crane_index(p.cranes[i].id);
    if j != i {
        assert(p.cranes[i].id != p.cranes[j].id);
    }
}

impl Clone for Port {
    fn clone(&self) -> (res: Self)
        ensures
            res@ == self@,
    {
        let mut ships: Vec<Ship> = Vec::new();
        let mut i: usize = 0;
        while i < self.ships.len()
            invariant
                i <= self.ships.len(),
                ships@.len() == i,
                forall|k: int| 0 <= k < i ==> (#[trigger] ships@[k])@ == self.ships@[k]@,
            decreases self.ships.len() - i,
        {
            ships.push(self.ships[i].clone());
            i = i + 1;
        }
        let berths = self.berths.clone();
        let cranes = self.cranes.clone();
        let events = self.uncommitted_events.clone();
        let res = Port {
            player_id: self.player_id,
            ships,
            berths,
            cranes,
            current_time: self.current_time,
            score: self.score,
            version: self.version,
            uncommitted_events: events,
        };
        proof {
            assert(res.ships@.map_values(|s: Ship| s@) =~= self.ships@.map_values(|s: Ship| s@));
            assert(res.berths@ =~= self.berths@);
            assert(res.cranes@ =~= self.cranes@);
            assert(res.uncommitted_events@ =~= self.uncommitted_events@);
        }
        res
    }
}

impl Port {
    /// A fresh port with the requested number of empty berths, cranes of
    /// throughput rate 2, no ships, clock at zero and score zero.
    pub fn new(player_id: PlayerId, num_berths: usize, num_cranes: usize) -> (r: Self)
        requires
            num_berths <= MAX_RESOURCES,
            num_cranes <= MAX_RESOURCES,
        ensures
            r@ == (PortV {
                player_id,
                ships: Seq::empty(),
                berths: Seq::new(num_berths as nat, |i: int| (Berth {
                    id: BerthId(i as usize),
                    occupied_by: None,
                })),
                cranes: Seq::new(num_cranes as nat, |i: int| (Crane {
                    id: CraneId(i as usize),
                    assigned_to: None,
                    processing_speed: 2,
                })),
                current_time: 0,
                score: 0,
                version: 0,
                pending: Seq::empty(),
            }),
            r@.wf(),
    {
        let mut berths: Vec<Berth> = Vec::new();
        let mut i: usize = 0;
        while i < num_berths
            invariant
                i <= num_berths,
                berths@.len() == i,
                forall|k: int|
                    0 <= k < i ==> #[trigger] berths@[k] == (Berth {
                        id: BerthId(k as usize),
                        occupied_by: None,
                    }),
            decreases num_berths - i,
        {
            berths.push(Berth::new(BerthId::new(i)));
            i = i + 1;
        }
        let mut cranes: Vec<Crane> = Vec::new();
        let mut j: usize = 0;
        while j < num_cranes
            invariant
                j <= num_cranes,
                cranes@.len() == j,
                forall|k: int|
                    0 <= k < j ==> #[trigger] cranes@[k] == (Crane {
                        id: CraneId(k as usize),
                        assigned_to: None,
                        processing_speed: 2,
                    }),
            decreases num_cranes - j,
        {
            cranes.push(Crane::new(CraneId::new(j), 2));
            j = j + 1;
        }
        let r = Port {
            player_id,
            ships: Vec::new(),
            berths,
            cranes,
            current_time: 0,
            score: 0,
            version: 0,
            uncommitted_events: Vec::new(),
        };
        proof {
            assert(r.ships@.map_values(|s: Ship| s@) =~= Seq::<ShipV>::empty());
            assert(r.uncommitted_events@ =~= Seq::<PortEvent>::empty());
            assert(r.berths@ =~= Seq::new(num_berths as nat, |i: int| (Berth {
                id: BerthId(i as usize),
                occupied_by: None,
            })));
            assert(r.cranes@ =~= Seq::new(num_cranes as nat, |i: int| (Crane {
                id: CraneId(i as usize),
                assigned_to: None,
                processing_speed: 2,
            })));
        }
        r
    }

    /// Position of the ship with this id, if it is in the port.
    pub fn find_ship_index(&self, id: ShipId) -> (r: Option<usize>)
        requires
            self@.distinct_ids(),
        ensures
            r is Some <==> self@.has_ship(id),
            r is Some ==> r->0 < self.ships@.len() && self@.ship_index(id) == r->0 as int
                && self@.ships[r->0 as int].id == id,
    {
        let n = self.ships.len();
        let mut i: usize = 0;
        while i < n
            invariant
                i <= n,
                n == self.ships@.len(),
                self@.distinct_ids(),
                forall|k: int| 0 <= k < i ==> (#[trigger] self.ships@[k]).id != id,
            decreases n - i,
        {
            if self.ships[i].id.0 == id.0 {
                proof {
                    lemma_ship_index_inverse(self@, i as int);
                }
                return Some(i);
            }
            i = i + 1;
        }
        proof {
            assert(forall|k: int|
                0 <= k < self@.ships.len() ==> (#[trigger] self@.ships[k]).id != id);
        }
        None
    }

    /// Position of the berth with this id, if the port has it.
    pub fn find_berth_index(&self, id: BerthId) -> (r: Option<usize>)
        requires
            self@.distinct_ids(),
        ensures
            r is Some <==> self@.has_berth(id),
            r is Some ==> r->0 < self.berths@.len() && self@.berth_index(id) == r->0 as int
                && self@.berths[r->0 as int].id == id,
    {
        let n = self.berths.len();
        let mut i: usize = 0;
        while i < n
            invariant
                i <= n,
                n == self.berths@.len(),
                self@.distinct_ids(),
                forall|k: int| 0 <= k < i ==> (#[trigger] self.berths@[k]).id != id,
            decreases n - i,
        {
            if self.berths[i].id.0 == id.0 {
                proof {
                    lemma_berth_index_inverse(self@, i as int);
                }
                return Some(i);
            }
            i = i + 1;
        }
        None
    }

    /// Position of the crane with this id, if the port has it.
    pub fn find_crane_index(&self, id: CraneId) -> (r: Option<usize>)
        requires
            self@.distinct_ids(),
        ensures
            r is Some <==> self@.has_crane(id),
            r is Some ==> r->0 < self.cranes@.len() && self@.crane_index(id) == r->0 as int
                && self@.cranes[r->0 as int].id == id,
    {
        let n = self.cranes.len();
        let mut i: usize = 0;
        while i < n
            invariant
                i <= n,
                n == self.cranes@.len(),
                self@.distinct_ids(),
                forall|k: int| 0 <= k < i ==> (#[trigger] self.cranes@[k]).id != id,
            decreases n - i,
        {
            if self.cranes[i].id.0 == id.0 {
                proof {
                    lemma_crane_index_inverse(self@, i as int);
                }
                return Some(i);
            }
            i = i + 1;
        }
        None
    }

    /// The ship with this id, if it is in the port.
    pub fn get_ship(&self, id: ShipId) -> (r: Option<&Ship>)
        requires
            self@.distinct_ids(),
        ensures
            r is Some <==> self@.has_ship(id),
            r is Some ==> (*r->0)@ == self@.ship_of(id),
    {
        match self.find_ship_index(id) {
            Some(i) => Some(&self.ships[i]),
            None => None,
        }
    }

    /// The berth with this id, if the port has it.
    pub fn get_berth(&self, id: BerthId) -> (r: Option<&Berth>)
        requires
            self@.distinct_ids(),
        ensures
            r is Some <==> self@.has_berth(id),
            r is Some ==> *r->0 == self@.berth_of(id),
    {
        match self.find_berth_index(id) {
            Some(i) => Some(&self.berths[i]),
            None => None,
        }
    }

    /// The crane with this id, if the port has it.
    pub fn get_crane(&self, id: CraneId) -> (r: Option<&Crane>)
        requires
            self@.distinct_ids(),
        ensures
            r is Some <==> self@.has_crane(id),
            r is Some ==> *r->0 == self@.crane_of(id),
    {
        match self.find_crane_index(id) {
            Some(i) => Some(&self.cranes[i]),
            None => None,
        }
    }

    /// Ships still waiting to dock, in insertion order.
    pub fn waiting_ships(&self) -> (r: Vec<&Ship>)
        ensures
            r@.map_values(|s: &Ship| s@) == self@.waiting(),
    {
        let ghost pred = |s: ShipV| !s.is_docked();
        let mut out: Vec<&Ship> = Vec::new();
        let mut i: usize = 0;
        proof {
            reveal(Seq::filter);
            assert(self@.ships.subrange(0, 0) =~= Seq::<ShipV>::empty());
            assert(out@.map_values(|s: &Ship| s@) =~= Seq::<ShipV>::empty());
        }
        while i < self.ships.len()
            invariant
                i <= self.ships.len(),
                pred == (|s: ShipV| !s.is_docked()),
                out@.map_values(|s: &Ship| s@) == self@.ships.subrange(0, i as int).filter(pred),
            decreases self.ships.len() - i,
        {
            proof {
                reveal(Seq::filter);
                assert(self@.ships.subrange(0, i + 1).drop_last() =~= self@.ships.subrange(
                    0,
                    i as int,
                ));
                assert(self@.ships.subrange(0, i + 1).last() == self@.ships[i as int]);
            }
            let ghost prev = out@;
            if !self.ships[i].is_docked() {
                out.push(&self.ships[i]);
                proof {
                    assert(out@.map_values(|s: &Ship| s@) =~= prev.map_values(|s: &Ship| s@).push(
                        self@.ships[i as int],
                    ));
                }
            }
            i = i + 1;
        }
        proof {
            assert(self@.ships.subrange(0, self@.ships.len() as int) =~= self@.ships);
        }
        out
    }

    /// Docked ships, in insertion order.
    pub fn docked_ships(&self) -> (r: Vec<&Ship>)
        ensures
            r@.map_values(|s: &Ship| s@) == self@.docked(),
    {
        let ghost pred = |s: ShipV| s.is_docked();
        let mut out: Vec<&Ship> = Vec::new();
        let mut i: usize = 0;
        proof {
            reveal(Seq::filter);
            assert(self@.ships.subrange(0, 0) =~= Seq::<ShipV>::empty());
            assert(out@.map_values(|s: &Ship| s@) =~= Seq::<ShipV>::empty());
        }
        while i < self.ships.len()
            invariant
                i <= self.ships.len(),
                pred == (|s: ShipV| s.is_docked()),
                out@.map_values(|s: &Ship| s@) == self@.ships.subrange(0, i as int).filter(pred),
            decreases self.ships.len() - i,
        {
            proof {
                reveal(Seq::filter);
                assert(self@.ships.subrange(0, i + 1).drop_last() =~= self@.ships.subrange(
                    0,
                    i as int,
                ));
                assert(self@.ships.subrange(0, i + 1).last() == self@.ships[i as int]);
            }
            let ghost prev = out@;
            if self.ships[i].is_docked() {
                out.push(&self.ships[i]);
                proof {
                    assert(out@.map_values(|s: &Ship| s@) =~= prev.map_values(|s: &Ship| s@).push(
                        self@.ships[i as int],
                    ));
                }
            }
            i = i + 1;
        }
        proof {
            assert(self@.ships.subrange(0, self@.ships.len() as int) =~= self@.ships);
        }
        out
    }

    /// Berths with no occupant, in insertion order.
    pub fn free_berths(&self) -> (r: Vec<&Berth>)
        ensures
            r@.map_values(|b: &Berth| *b) == self@.free_berths_v(),
    {
        let ghost pred = |b: Berth| b.occupied_by is None;
        let mut out: Vec<&Berth> = Vec::new();
        let mut i: usize = 0;
        proof {
            reveal(Seq::filter);
            assert(self@.berths.subrange(0, 0) =~= Seq::<Berth>::empty());
            assert(out@.map_values(|b: &Berth| *b) =~= Seq::<Berth>::empty());
        }
        while i < self.berths.len()
            invariant
                i <= self.berths.len(),
                pred == (|b: Berth| b.occupied_by is None),
                out@.map_values(|b: &Berth| *b) == self@.berths.subrange(0, i as int).filter(pred),
            decreases self.berths.len() - i,
        {
            proof {
                reveal(Seq::filter);
                assert(self@.berths.subrange(0, i + 1).drop_last() =~= self@.berths.subrange(
                    0,
                    i as int,
                ));
                assert(self@.berths.subrange(0, i + 1).last() == self@.berths[i as int]);
            }
            let ghost prev = out@;
            if self.berths[i].is_free() {
                out.push(&self.berths[i]);
                proof {
                    assert(out@.map_values(|b: &Berth| *b) =~= prev.map_values(|b: &Berth| *b).push(
                        self@.berths[i as int],
                    ));
                }
            }
            i = i + 1;
        }
        proof {
            assert(self@.berths.subrange(0, self@.berths.len() as int) =~= self@.berths);
        }
        out
    }

    /// Cranes with no assignment, in insertion order.
    pub fn free_cranes(&self) -> (r: Vec<&Crane>)
        ensures
            r@.map_values(|c: &Crane| *c) == self@.free_cranes_v(),
    {
        let ghost pred = |c: Crane| c.assigned_to is None;
        let mut out: Vec<&Crane> = Vec::new();
        let mut i: usize = 0;
        proof {
            reveal(Seq::filter);
            assert(self@.cranes.subrange(0, 0) =~= Seq::<Crane>::empty());
            assert(out@.map_values(|c: &Crane| *c) =~= Seq::<Crane>::empty());
        }
        while i < self.cranes.len()
            invariant
                i <= self.cranes.len(),
                pred == (|c: Crane| c.assigned_to is None),
                out@.map_values(|c: &Crane| *c) == self@.cranes.subrange(0, i as int).filter(pred),
            decreases self.cranes.len() - i,
        {
            proof {
                reveal(Seq::filter);
                assert(self@.cranes.subrange(0, i + 1).drop_last() =~= self@.cranes.subrange(
                    0,
                    i as int,
                ));
                assert(self@.cranes.subrange(0, i + 1).last() == self@.cranes[i as int]);
            }
            let ghost prev = out@;
            if self.cranes[i].is_free() {
                out.push(&self.cranes[i]);
                proof {
                    assert(out@.map_values(|c: &Crane| *c) =~= prev.map_values(|c: &Crane| *c).push(
                        self@.cranes[i as int],
                    ));
                }
            }
            i = i + 1;
        }
        proof {
            assert(self@.cranes.subrange(0, self@.cranes.len() as int) =~= self@.cranes);
        }
        out
    }

    /// Derived score of the port: ten points per processed container,
    /// minus five per whole time unit a waiting ship has been waiting,
    /// clamped into the `i32` range.
    pub fn calculate_score(&self) -> (r: i32)
        requires
            self@.wf(),
        ensures
            r == clamp_i32(self@.spec_score()),
    {
        let mut acc: i128 = 0;
        let mut i: usize = 0;
        proof {
            assert(self@.ships.subrange(0, 0) =~= Seq::<ShipV>::empty());
        }
        while i < self.ships.len()
            invariant
                i <= self.ships.len(),
                self@.wf(),
                acc == PortV::score_sum(self@.ships.subrange(0, i as int), self.current_time),
                -(i as int) * 0x8_0000_0000_0000_0000 <= acc <= (i as int)
                    * 0x8_0000_0000_0000_0000,
            decreases self.ships.len() - i,
        {
            let s = &self.ships[i];
            assert(s@ == self@.ships[i as int]);
            assert(s@.wf());
            let done: u32 = s.containers - s.containers_remaining;
            let mut term: i128 = 10 * (done as i128);
            if s.docked_at.is_none() {
                let behind = self.current_time >= s.arrival_time;
                let mag: u64 = if behind {
                    self.current_time - s.arrival_time
                } else {
                    s.arrival_time - self.current_time
                };
                let pen_mag: u128 = (mag as u128 * 5) / 2;
                let pen: i128 = if behind {
                    pen_mag as i128
                } else {
                    -(pen_mag as i128)
                };
                proof {
                    let diff = self.current_time - s.arrival_time;
                    if behind {
                        assert(diff * 5 == mag as int * 5);
                        assert(pen == div_trunc(diff * 5, 2));
                    } else {
                        assert(-(diff * 5) == mag as int * 5);
                        assert(pen == div_trunc(diff * 5, 2));
                    }
                }
                term = term - pen;
            }
            proof {
                assert(term == PortV::ship_score_term(self@.ships[i as int], self.current_time));
                assert(-0x8_0000_0000_0000_0000 <= term <= 0x8_0000_0000_0000_0000);
                assert(self@.ships.subrange(0, i + 1).drop_last() =~= self@.ships.subrange(
                    0,
                    i as int,
                ));
                assert(self@.ships.subrange(0, i + 1).last() == self@.ships[i as int]);
            }
            acc = acc + term;
            i = i + 1;
        }
        proof {
            assert(self@.ships.subrange(0, self@.ships.len() as int) =~= self@.ships);
        }
        if acc > i32::MAX as i128 {
            i32::MAX
        } else if acc < i32::MIN as i128 {
            i32::MIN
        } else {
            acc as i32
        }
    }

    /// How many events have been applied to this port.
    pub fn version(&self) -> (r: u64)
        ensures
            r == self@.version,
    {
        self.version
    }

    /// Events applied here and not yet handed to a store.
    pub fn uncommitted_events(&self) -> (r: &[PortEvent])
        ensures
            r@ == self@.pending,
    {
        self.uncommitted_events.as_slice()
    }

    /// Forgets the pending events, after a store took them.
    pub fn mark_events_committed(&mut self)
        ensures
            final(self)@ == (PortV { pending: Seq::empty(), ..old(self)@ }),
    {
        self.uncommitted_events.clear();
        proof {
            assert(self.uncommitted_events@ =~= Seq::<PortEvent>::empty());
        }
    }
}

} // verus!

verus! {

/// Distinctness of ship ids in a bare sequence.
pub open spec fn distinct_ship_ids(s: Seq<ShipV>) -> bool {
    forall|i: int, j: int| 0 <= i < j < s.len() ==> (#[trigger] s[i]).id != (#[trigger] s[j]).id
}

/// Filtering keeps ship ids distinct.
pub proof fn lemma_filter_ships_distinct(s: Seq<ShipV>, pred: spec_fn(ShipV) -> bool)
    requires
        distinct_ship_ids(s),
    ensures
        distinct_ship_ids(s.filter(pred)),
    decreases s.len(),
{
    reveal(Seq::filter);
    broadcast use vstd::prelude::Seq::lemma_filter_contains_rev;

    if s.len() > 0 {
        let rest = s.drop_last();
        let last = s.last();
        assert(distinct_ship_ids(rest));
        lemma_filter_ships_distinct(rest, pred);
        if pred(last) {
            let f = rest.filter(pred).push(last);
            assert forall|i: int, j: int| 0 <= i < j < f.len() implies (#[trigger] f[i]).id != (
            #[trigger] f[j]).id by {
                if j == f.len() - 1 {
                    assert(rest.filter(pred).contains(f[i]));
                    assert(rest.contains(f[i]));
                    let w = choose|w: int| 0 <= w < rest.len() && rest[w] == f[i];
                    assert(s[w] == f[i]);
                    assert(s[w].id != last.id);
                }
            }
        }
    }
}

/// Filtering keeps the elements of a distinct sequence distinct.
pub proof fn lemma_filter_distinct<T>(s: Seq<T>, pred: spec_fn(T) -> bool)
    requires
        distinct_seq(s),
    ensures
        distinct_seq(s.filter(pred)),
    decreases s.len(),
{
    reveal(Seq::filter);
    broadcast use vstd::prelude::Seq::lemma_filter_contains_rev;

    if s.len() > 0 {
        let rest = s.drop_last();
        let last = s.last();
        assert(distinct_seq(rest));
        lemma_filter_distinct(rest, pred);
        if pred(last) {
            let f = rest.filter(pred).push(last);
            assert forall|i: int, j: int| 0 <= i < j < f.len() implies f[i] != f[j] by {
                if j == f.len() - 1 {
                    assert(rest.filter(pred).contains(f[i]));
                    assert(rest.contains(f[i]));
                    let w = choose|w: int| 0 <= w < rest.len() && rest[w] == f[i];
                    assert(s[w] == f[i]);
                    assert(s[w] != last);
                }
            }
        }
    }
}

/// Ship lookups agree between two ports whose ship lists carry the same
/// ids at the same positions.
pub proof fn lemma_ship_lookup_stable(p1: PortV, p2: PortV, id: ShipId)
    requires
        p1.ships.len() == p2.ships.len(),
        forall|i: int|
            0 <= i < p1.ships.len() ==> (#[trigger] p2.ships[i]).id == (#[trigger] p1.ships[i]).id,
        p1.distinct_ids(),
    ensures
        p2.has_ship(id) == p1.has_ship(id),
        p1.has_ship(id) ==> p2.ship_index(id) == p1.ship_index(id),
{
    if p1.has_ship(id) {
        let i1 = p1.ship_index(id);
        assert(p2.ships[i1].id == id);
        assert(p2.has_ship(id));
        let i2 = p2.ship_index(id);
        assert(p1.ships[i2].id == id);
        if i1 != i2 {
            assert(p1.ships[i1].id != p1.ships[i2].id);
        }
    }
    if p2.has_ship(id) {
        let i2 = p2.ship_index(id);
        assert(p1.ships[i2].id == id);
        assert(p1.has_ship(id));
    }
}

/// Berth lookups agree between two ports whose berth lists carry the same
/// ids at the same positions.
pub proof fn lemma_berth_lookup_stable(p1: PortV, p2: PortV, id: BerthId)
    requires
        p1.berths.len() == p2.berths.len(),
        forall|i: int|
            0 <= i < p1.berths.len() ==> (#[trigger] p2.berths[i]).id == (
            #[trigger] p1.berths[i]).id,
        p1.distinct_ids(),
    ensures
        p2.has_berth(id) == p1.has_berth(id),
        p1.has_berth(id) ==> p2.berth_index(id) == p1.berth_index(id),
{
    if p1.has_berth(id) {
        let i1 = p1.berth_index(id);
        assert(p2.berths[i1].id == id);
        assert(p2.has_berth(id));
        let i2 = p2.berth_index(id);
        assert(p1.berths[i2].id == id);
        if i1 != i2 {
            assert(p1.berths[i1].id != p1.berths[i2].id);
        }
    }
    if p2.has_berth(id) {
        let i2 = p2.berth_index(id);
        assert(p1.berths[i2].id == id);
        assert(p1.has_berth(id));
    }
}

/// Crane lookups agree between two ports whose crane lists carry the same
/// ids at the same positions.
pub proof fn lemma_crane_lookup_stable(p1: PortV, p2: PortV, id: CraneId)
    requires
        p1.cranes.len() == p2.cranes.len(),
        forall|i: int|
            0 <= i < p1.cranes.len() ==> (#[trigger] p2.cranes[i]).id == (
            #[trigger] p1.cranes[i]).id,
        p1.distinct_ids(),
    ensures
        p2.has_crane(id) == p1.has_crane(id),
        p1.has_crane(id) ==> p2.crane_index(id) == p1.crane_index(id),
{
    if p1.has_crane(id) {
        let i1 = p1.crane_index(id);
        assert(p2.cranes[i1].id == id);
        assert(p2.has_crane(id));
        let i2 = p2.crane_index(id);
        assert(p1.cranes[i2].id == id);
        if i1 != i2 {
            assert(p1.cranes[i1].id != p1.cranes[i2].id);
        }
    }
    if p2.has_crane(id) {
        let i2 = p2.crane_index(id);
        assert(p1.cranes[i2].id == id);
        assert(p1.has_crane(id));
    }
}

} // verus!

verus! {

/// When an event can actually take effect on a port. Events that carry no
/// state change (game and turn lifecycle, search telemetry) never do.
pub open spec fn event_ok(p: PortV, e: PortEvent) -> bool {
    match e {
        PortEvent::ShipArrived { ship_id, .. } => !p.has_ship(ship_id) && p.ships.len()
            < MAX_RESOURCES,
        PortEvent::ShipDocked { ship_id, berth_id, .. } => {
            &&& p.has_ship(ship_id)
            &&& !p.ship_of(ship_id).is_docked()
            &&& p.has_berth(berth_id)
            &&& p.berth_of(berth_id).occupied_by is None
        },
        PortEvent::ShipUndocked { ship_id, berth_id, .. } => {
            &&& p.has_ship(ship_id)
            &&& p.ship_of(ship_id).docked_at == Some(berth_id)
            &&& p.ship_of(ship_id).assigned_cranes.len() == 0
        },
        PortEvent::CraneAssigned { crane_id, ship_id, .. } => {
            &&& p.has_crane(crane_id)
            &&& p.crane_of(crane_id).assigned_to is None
            &&& p.has_ship(ship_id)
        },
        PortEvent::CraneUnassigned { crane_id, ship_id, .. } => {
            &&& p.has_crane(crane_id)
            &&& p.crane_of(crane_id).assigned_to == Some(ship_id)
        },
        PortEvent::ContainerProcessed { ship_id, containers_remaining, .. } => {
            &&& p.has_ship(ship_id)
            &&& containers_remaining <= p.ship_of(ship_id).containers_remaining
        },
        _ => false,
    }
}

/// The state change one event causes, version bump included; an event
/// whose guard fails only bumps the version.
pub open spec fn apply_event_model(p: PortV, e: PortEvent) -> PortV {
    let bumped = PortV {
        version: if p.version < u64::MAX {
            (p.version + 1) as u64
        } else {
            u64::MAX
        },
        ..p
    };
    if !event_ok(p, e) {
        bumped
    } else {
        match e {
            PortEvent::ShipArrived { ship_id, container_count, arrival_time } => PortV {
                ships: bumped.ships.push(
                    ShipV {
                        id: ship_id,
                        containers: container_count,
                        containers_remaining: container_count,
                        arrival_time,
                        docked_at: None,
                        assigned_cranes: Seq::empty(),
                    },
                ),
                ..bumped
            },
            PortEvent::ShipDocked { ship_id, berth_id, .. } => {
                let si = p.ship_index(ship_id);
                let bi = p.berth_index(berth_id);
                PortV {
                    ships: p.ships.update(
                        si,
                        ShipV { docked_at: Some(berth_id), ..p.ships[si] },
                    ),
                    berths: p.berths.update(
                        bi,
                        Berth { occupied_by: Some(ship_id), ..p.berths[bi] },
                    ),
                    ..bumped
                }
            },
            PortEvent::ShipUndocked { ship_id, berth_id, .. } => {
                let si = p.ship_index(ship_id);
                let bi = p.berth_index(berth_id);
                PortV {
                    ships: p.ships.subrange(0, si) + p.ships.subrange(
                        si + 1,
                        p.ships.len() as int,
                    ),
                    berths: p.berths.update(bi, Berth { occupied_by: None, ..p.berths[bi] }),
                    ..bumped
                }
            },
            PortEvent::CraneAssigned { crane_id, ship_id, .. } => {
                let ci = p.crane_index(crane_id);
                let si = p.ship_index(ship_id);
                let s = p.ships[si];
                PortV {
                    cranes: p.cranes.update(
                        ci,
                        Crane { assigned_to: Some(ship_id), ..p.cranes[ci] },
                    ),
                    ships: p.ships.update(
                        si,
                        ShipV {
                            assigned_cranes: if s.assigned_cranes.contains(crane_id) {
                                s.assigned_cranes
                            } else {
                                s.assigned_cranes.push(crane_id)
                            },
                            ..s
                        },
                    ),
                    ..bumped
                }
            },
            PortEvent::CraneUnassigned { crane_id, ship_id, .. } => {
                let ci = p.crane_index(crane_id);
                let si = p.ship_index(ship_id);
                PortV {
                    cranes: p.cranes.update(ci, Crane { assigned_to: None, ..p.cranes[ci] }),
                    ships: p.ships.update(
                        si,
                        ShipV {
                            assigned_cranes: p.ships[si].assigned_cranes.filter(
                                |x: CraneId| x != crane_id,
                            ),
                            ..p.ships[si]
                        },
                    ),
                    ..bumped
                }
            },
            PortEvent::ContainerProcessed { ship_id, containers_remaining, .. } => {
                let si = p.ship_index(ship_id);
                let done = p.ships[si].containers_remaining - containers_remaining;
                PortV {
                    ships: p.ships.update(
                        si,
                        ShipV { containers_remaining, ..p.ships[si] },
                    ),
                    score: crate::numeric::clamp_i64(p.score + 10 * done) as i64,
                    ..bumped
                }
            },
            _ => bumped,
        }
    }
}

/// An applicable event keeps the port well-formed.
pub proof fn lemma_apply_event_wf(p: PortV, e: PortEvent)
    requires
        p.wf(),
    ensures
        apply_event_model(p, e).wf(),
{
    let q = apply_event_model(p, e);
    if !event_ok(p, e) {
        assert(q.ships == p.ships && q.berths == p.berths && q.cranes == p.cranes);
        return ;
    }
    match e {
        PortEvent::ShipArrived { ship_id, container_count, arrival_time } => {
            let fresh = ShipV {
                id: ship_id,
                containers: container_count,
                containers_remaining: container_count,
                arrival_time,
                docked_at: None,
                assigned_cranes: Seq::empty(),
            };
            assert(q.ships == p.ships.push(fresh));
            assert forall|i: int|
                0 <= i < q.ships.len() && (#[trigger] q.ships[i]).docked_at is Some implies {
                &&& q.has_berth(q.ships[i].docked_at->0)
                &&& q.berth_of(q.ships[i].docked_at->0).occupied_by == Some(q.ships[i].id)
            } by {
                assert(i < p.ships.len());
                assert(q.ships[i] == p.ships[i]);
            }
            assert forall|j: int|
                0 <= j < q.berths.len() && (#[trigger] q.berths[j]).occupied_by is Some implies {
                &&& q.has_ship(q.berths[j].occupied_by->0)
                &&& q.ship_of(q.berths[j].occupied_by->0).docked_at == Some(q.berths[j].id)
            } by {
                let sid = q.berths[j].occupied_by->0;
                let si = p.ship_index(sid);
                assert(q.ships[si] == p.ships[si]);
                assert(q.has_ship(sid));
                let qi = q.ship_index(sid);
                assert(q.ships[qi].id == sid);
                if qi == q.ships.len() - 1 {
                    assert(fresh.id == sid);
                    assert(!p.has_ship(ship_id));
                }
                assert(q.ships[qi] == p.ships[qi]);
                if qi != si {
                    assert(p.ships[qi].id != p.ships[si].id);
                }
            }
            assert forall|k: int|
                0 <= k < q.cranes.len() && (#[trigger] q.cranes[k]).assigned_to is Some implies {
                &&& q.has_ship(q.cranes[k].assigned_to->0)
                &&& q.ship_of(q.cranes[k].assigned_to->0).assigned_cranes.contains(q.cranes[k].id)
            } by {
                let sid = q.cranes[k].assigned_to->0;
                let si = p.ship_index(sid);
                assert(q.ships[si] == p.ships[si]);
                assert(q.has_ship(sid));
                let qi = q.ship_index(sid);
                assert(q.ships[qi].id == sid);
                if qi == q.ships.len() - 1 {
                    assert(!p.has_ship(ship_id));
                }
                assert(q.ships[qi] == p.ships[qi]);
                if qi != si {
                    assert(p.ships[qi].id != p.ships[si].id);
                }
            }
            assert forall|i: int, k: int|
                0 <= i < q.ships.len() && 0 <= k < q.ships[i].assigned_cranes.len() implies {
                &&& q.has_crane(#[trigger] q.ships[i].assigned_cranes[k])
                &&& q.crane_of(q.ships[i].assigned_cranes[k]).assigned_to == Some(q.ships[i].id)
            } by {
                assert(i < p.ships.len());
                assert(q.ships[i] == p.ships[i]);
            }
        },
        PortEvent::ShipDocked { ship_id, berth_id, .. } => {
            let a = crate::mcts::tree::action_phase(
                p,
                crate::mcts::MCTSAction::DockShip { ship_id, berth_id },
            );
            crate::mcts::tree::lemma_action_phase_wf(
                p,
                crate::mcts::MCTSAction::DockShip { ship_id, berth_id },
            );
            assert(q.ships == a.ships && q.berths == a.berths && q.cranes == a.cranes);
        },
        PortEvent::ShipUndocked { ship_id, berth_id, .. } => {
            let si = p.ship_index(ship_id);
            let bi = p.berth_index(berth_id);
            assert(p.berth_of(berth_id).occupied_by == Some(ship_id));
            assert(p.berths[bi].occupied_by == Some(ship_id));
            let kept = p.ships.subrange(0, si) + p.ships.subrange(si + 1, p.ships.len() as int);
            assert(q.ships == kept);
            // Positions shift by one past the removed ship.
            assert forall|i: int| 0 <= i < kept.len() implies #[trigger] kept[i] == if i < si {
                p.ships[i]
            } else {
                p.ships[i + 1]
            } by {}
            assert forall|i: int|
                0 <= i < q.ships.len() && (#[trigger] q.ships[i]).docked_at is Some implies {
                &&& q.has_berth(q.ships[i].docked_at->0)
                &&& q.berth_of(q.ships[i].docked_at->0).occupied_by == Some(q.ships[i].id)
            } by {
                let oi = if i < si {
                    i
                } else {
                    i + 1
                };
                let b = q.ships[i].docked_at->0;
                assert(q.ships[i] == p.ships[oi]);
                let obi = p.berth_index(b);
                assert(p.berths[obi].occupied_by == Some(p.ships[oi].id));
                lemma_berth_lookup_stable(p, q, b);
                if obi == bi {
                    assert(p.ships[oi].id == ship_id);
                    if oi != si {
                        assert(p.ships[oi].id != p.ships[si].id);
                    }
                }
                assert(q.berths[obi] == p.berths[obi]);
            }
            assert forall|j: int|
                0 <= j < q.berths.len() && (#[trigger] q.berths[j]).occupied_by is Some implies {
                &&& q.has_ship(q.berths[j].occupied_by->0)
                &&& q.ship_of(q.berths[j].occupied_by->0).docked_at == Some(q.berths[j].id)
            } by {
                let sid = q.berths[j].occupied_by->0;
                assert(j != bi);
                assert(q.berths[j] == p.berths[j]);
                let osi = p.ship_index(sid);
                if osi == si {
                    assert(p.ships[si].docked_at == Some(p.berths[j].id));
                    assert(p.has_berth(p.berths[j].id));
                    lemma_berth_index_inverse(p, j);
                    assert(p.berths[j].id != berth_id) by {
                        if j != bi {
                            assert(p.berths[j].id != p.berths[bi].id);
                        }
                    }
                }
                let ni = if osi < si {
                    osi
                } else {
                    osi - 1
                };
                assert(kept[ni] == p.ships[osi]);
                assert(q.has_ship(sid));
                let qi = q.ship_index(sid);
                let oq = if qi < si {
                    qi
                } else {
                    qi + 1
                };
                assert(kept[qi] == p.ships[oq]);
                if oq != osi {
                    assert(p.ships[oq].id != p.ships[osi].id);
                }
            }
            assert forall|k: int|
                0 <= k < q.cranes.len() && (#[trigger] q.cranes[k]).assigned_to is Some implies {
                &&& q.has_ship(q.cranes[k].assigned_to->0)
                &&& q.ship_of(q.cranes[k].assigned_to->0).assigned_cranes.contains(q.cranes[k].id)
            } by {
                let sid = q.cranes[k].assigned_to->0;
                assert(q.cranes[k] == p.cranes[k]);
                let osi = p.ship_index(sid);
                if osi == si {
                    assert(p.ships[si].assigned_cranes.contains(p.cranes[k].id));
                    let w = choose|w: int|
                        0 <= w < p.ships[si].assigned_cranes.len()
                            && p.ships[si].assigned_cranes[w] == p.cranes[k].id;
                }
                let ni = if osi < si {
                    osi
                } else {
                    osi - 1
                };
                assert(kept[ni] == p.ships[osi]);
                assert(q.has_ship(sid));
                let qi = q.ship_index(sid);
                let oq = if qi < si {
                    qi
                } else {
                    qi + 1
                };
                assert(kept[qi] == p.ships[oq]);
                if oq != osi {
                    assert(p.ships[oq].id != p.ships[osi].id);
                }
            }
            assert forall|i: int, k: int|
                0 <= i < q.ships.len() && 0 <= k < q.ships[i].assigned_cranes.len() implies {
                &&& q.has_crane(#[trigger] q.ships[i].assigned_cranes[k])
                &&& q.crane_of(q.ships[i].assigned_cranes[k]).assigned_to == Some(q.ships[i].id)
            } by {
                let oi = if i < si {
                    i
                } else {
                    i + 1
                };
                assert(q.ships[i] == p.ships[oi]);
                let c = q.ships[i].assigned_cranes[k];
                lemma_crane_lookup_stable(p, q, c);
                assert(q.crane_of(c) == p.crane_of(c));
            }
            assert forall|i: int, j: int|
                0 <= i < j < q.ships.len() implies (#[trigger] q.ships[i]).id != (
            #[trigger] q.ships[j]).id by {
                let oi = if i < si {
                    i
                } else {
                    i + 1
                };
                let oj = if j < si {
                    j
                } else {
                    j + 1
                };
                assert(q.ships[i] == p.ships[oi] && q.ships[j] == p.ships[oj]);
                assert(p.ships[oi].id != p.ships[oj].id);
            }
        },
        PortEvent::CraneAssigned { crane_id, ship_id, .. } => {
            // Same shape as assigning a crane through an action, except
            // that the ship need not be docked, which no invariant needs.
            let ci = p.crane_index(crane_id);
            let si = p.ship_index(ship_id);
            let s0 = p.ships[si];
            assert(!s0.assigned_cranes.contains(crane_id)) by {
                if s0.assigned_cranes.contains(crane_id) {
                    let k = choose|k: int|
                        0 <= k < s0.assigned_cranes.len() && s0.assigned_cranes[k] == crane_id;
                    assert(p.crane_of(s0.assigned_cranes[k]).assigned_to == Some(s0.id));
                }
            }
            assert forall|id: ShipId| true implies {
                &&& q.has_ship(id) == p.has_ship(id)
                &&& (p.has_ship(id) ==> q.ship_index(id) == p.ship_index(id))
            } by {
                lemma_ship_lookup_stable(p, q, id);
            }
            assert forall|id: BerthId| true implies {
                &&& q.has_berth(id) == p.has_berth(id)
                &&& (p.has_berth(id) ==> q.berth_index(id) == p.berth_index(id))
            } by {
                lemma_berth_lookup_stable(p, q, id);
            }
            assert forall|id: CraneId| true implies {
                &&& q.has_crane(id) == p.has_crane(id)
                &&& (p.has_crane(id) ==> q.crane_index(id) == p.crane_index(id))
            } by {
                lemma_crane_lookup_stable(p, q, id);
            }
            assert forall|i: int| 0 <= i < q.ships.len() implies (#[trigger] q.ships[i]).wf() by {
                if i == si {
                    let lst = q.ships[si].assigned_cranes;
                    assert(lst == s0.assigned_cranes.push(crane_id));
                    assert forall|x: int, y: int| 0 <= x < y < lst.len() implies lst[x]
                        != lst[y] by {
                        if y == lst.len() - 1 {
                            assert(s0.assigned_cranes.contains(s0.assigned_cranes[x]));
                        }
                    }
                }
            }
            assert forall|i: int|
                0 <= i < q.ships.len() && (#[trigger] q.ships[i]).docked_at is Some implies {
                &&& q.has_berth(q.ships[i].docked_at->0)
                &&& q.berth_of(q.ships[i].docked_at->0).occupied_by == Some(q.ships[i].id)
            } by {
                assert(p.ships[i].docked_at == q.ships[i].docked_at);
                assert(p.ships[i].id == q.ships[i].id);
            }
            assert forall|j: int|
                0 <= j < q.berths.len() && (#[trigger] q.berths[j]).occupied_by is Some implies {
                &&& q.has_ship(q.berths[j].occupied_by->0)
                &&& q.ship_of(q.berths[j].occupied_by->0).docked_at == Some(q.berths[j].id)
            } by {
                let sid = q.berths[j].occupied_by->0;
                let osi = p.ship_index(sid);
                assert(q.ships[osi].docked_at == p.ships[osi].docked_at);
            }
            assert forall|k: int|
                0 <= k < q.cranes.len() && (#[trigger] q.cranes[k]).assigned_to is Some implies {
                &&& q.has_ship(q.cranes[k].assigned_to->0)
                &&& q.ship_of(q.cranes[k].assigned_to->0).assigned_cranes.contains(q.cranes[k].id)
            } by {
                let sid = q.cranes[k].assigned_to->0;
                if k == ci {
                    assert(sid == ship_id);
                    assert(q.ships[si].assigned_cranes == s0.assigned_cranes.push(crane_id));
                    assert(q.ships[si].assigned_cranes[s0.assigned_cranes.len() as int]
                        == crane_id);
                    assert(q.ships[si].assigned_cranes.contains(crane_id));
                    assert(q.cranes[ci].id == p.cranes[ci].id);
                } else {
                    assert(p.cranes[k].assigned_to == Some(sid));
                    let osi = p.ship_index(sid);
                    assert(p.ships[osi].assigned_cranes.contains(p.cranes[k].id));
                    if osi == si {
                        let w = choose|w: int|
                            0 <= w < s0.assigned_cranes.len() && s0.assigned_cranes[w]
                                == p.cranes[k].id;
                        assert(q.ships[si].assigned_cranes[w] == p.cranes[k].id);
                        assert(q.ships[si].assigned_cranes.contains(p.cranes[k].id));
                    }
                }
            }
            assert forall|i: int, k: int|
                0 <= i < q.ships.len() && 0 <= k < q.ships[i].assigned_cranes.len() implies {
                &&& q.has_crane(#[trigger] q.ships[i].assigned_cranes[k])
                &&& q.crane_of(q.ships[i].assigned_cranes[k]).assigned_to == Some(q.ships[i].id)
            } by {
                let c = q.ships[i].assigned_cranes[k];
                if i == si && k == s0.assigned_cranes.len() {
                    assert(c == crane_id);
                    assert(q.cranes[ci].assigned_to == Some(ship_id));
                } else {
                    assert(p.ships[i].assigned_cranes[k] == c);
                    assert(p.ships[i].assigned_cranes.contains(c));
                    let oci = p.crane_index(c);
                    assert(p.cranes[oci].assigned_to == Some(p.ships[i].id));
                    if oci == ci {
                        assert(p.cranes[ci].assigned_to is None);
                    }
                    assert(q.cranes[oci] == p.cranes[oci]);
                    assert(q.ships[i].id == p.ships[i].id);
                }
            }
        },
        PortEvent::CraneUnassigned { crane_id, ship_id, .. } => {
            let a = crate::mcts::tree::action_phase(
                p,
                crate::mcts::MCTSAction::UnassignCrane { crane_id },
            );
            crate::mcts::tree::lemma_action_phase_wf(
                p,
                crate::mcts::MCTSAction::UnassignCrane { crane_id },
            );
            assert(p.crane_of(crane_id).assigned_to == Some(ship_id));
            assert(q.ships == a.ships && q.berths == a.berths && q.cranes == a.cranes);
        },
        PortEvent::ContainerProcessed { ship_id, containers_remaining, .. } => {
            let si = p.ship_index(ship_id);
            assert forall|id: ShipId| true implies {
                &&& q.has_ship(id) == p.has_ship(id)
                &&& (p.has_ship(id) ==> q.ship_index(id) == p.ship_index(id))
            } by {
                lemma_ship_lookup_stable(p, q, id);
            }
            assert forall|i: int|
                0 <= i < q.ships.len() && (#[trigger] q.ships[i]).docked_at is Some implies {
                &&& q.has_berth(q.ships[i].docked_at->0)
                &&& q.berth_of(q.ships[i].docked_at->0).occupied_by == Some(q.ships[i].id)
            } by {
                assert(q.ships[i].docked_at == p.ships[i].docked_at);
                assert(q.ships[i].id == p.ships[i].id);
            }
            assert forall|j: int|
                0 <= j < q.berths.len() && (#[trigger] q.berths[j]).occupied_by is Some implies {
                &&& q.has_ship(q.berths[j].occupied_by->0)
                &&& q.ship_of(q.berths[j].occupied_by->0).docked_at == Some(q.berths[j].id)
            } by {
                let sid = q.berths[j].occupied_by->0;
                let osi = p.ship_index(sid);
                assert(q.ships[osi].docked_at == p.ships[osi].docked_at);
            }
            assert forall|k: int|
                0 <= k < q.cranes.len() && (#[trigger] q.cranes[k]).assigned_to is Some implies {
                &&& q.has_ship(q.cranes[k].assigned_to->0)
                &&& q.ship_of(q.cranes[k].assigned_to->0).assigned_cranes.contains(q.cranes[k].id)
            } by {
                let sid = q.cranes[k].assigned_to->0;
                let osi = p.ship_index(sid);
                assert(q.ships[osi].assigned_cranes == p.ships[osi].assigned_cranes);
            }
            assert forall|i: int, k: int|
                0 <= i < q.ships.len() && 0 <= k < q.ships[i].assigned_cranes.len() implies {
                &&& q.has_crane(#[trigger] q.ships[i].assigned_cranes[k])
                &&& q.crane_of(q.ships[i].assigned_cranes[k]).assigned_to == Some(q.ships[i].id)
            } by {
                assert(q.ships[i].assigned_cranes == p.ships[i].assigned_cranes);
                assert(q.ships[i].id == p.ships[i].id);
            }
        },
        _ => {},
    }
}

} // verus!

verus! {

impl Port {
    /// Applies one event: the guarded state change of `apply_event_model`,
    /// plus a version bump that happens for every event, applicable or not
    /// (saturating at the largest version). Events whose guard fails — and
    /// every purely informational event — change nothing else.
    pub fn apply_event(&mut self, event: &PortEvent)
        requires
            old(self)@.wf(),
        ensures
            final(self)@ == apply_event_model(old(self)@, *event),
            final(self)@.wf(),
    {
        let ghost p0 = self@;
        match event {
            PortEvent::ShipArrived { ship_id, container_count, arrival_time } => {
                let fresh = self.find_ship_index(*ship_id).is_none();
                if fresh && self.ships.len() < MAX_RESOURCES {
                    self.ships.push(Ship::new(*ship_id, *container_count, *arrival_time));
                }
            },
            PortEvent::ShipDocked { ship_id, berth_id, .. } => {
                let si = self.find_ship_index(*ship_id);
                let bi = self.find_berth_index(*berth_id);
                match (si, bi) {
                    (Some(si), Some(bi)) => {
                        if self.ships[si].docked_at.is_none() && self.berths[bi].is_free() {
                            self.ships[si].dock(*berth_id);
                            self.berths[bi].occupy(*ship_id);
                        }
                    },
                    _ => {},
                }
            },
            PortEvent::ShipUndocked { ship_id, berth_id, .. } => {
                let si = self.find_ship_index(*ship_id);
                let bi = self.find_berth_index(*berth_id);
                match (si, bi) {
                    (Some(si), Some(bi)) => {
                        let docked_here = match self.ships[si].docked_at {
                            Some(b) => b.0 == berth_id.0,
                            None => false,
                        };
                        if docked_here && self.ships[si].assigned_cranes.len() == 0 {
                            proof {
                                assert(p0.ship_of(*ship_id).docked_at == Some(*berth_id));
                                assert(p0.berth_of(*berth_id).occupied_by == Some(*ship_id));
                            }
                            self.ships.remove(si);
                            self.berths[bi].free();
                        }
                    },
                    _ => {},
                }
            },
            PortEvent::CraneAssigned { crane_id, ship_id, .. } => {
                let ci = self.find_crane_index(*crane_id);
                let si = self.find_ship_index(*ship_id);
                match (ci, si) {
                    (Some(ci), Some(si)) => {
                        if self.cranes[ci].is_free() {
                            self.cranes[ci].assign(*ship_id);
                            self.ships[si].assign_crane(*crane_id);
                        }
                    },
                    _ => {},
                }
            },
            PortEvent::CraneUnassigned { crane_id, ship_id, .. } => {
                let ci = self.find_crane_index(*crane_id);
                match ci {
                    Some(ci) => {
                        let here = match self.cranes[ci].assigned_to {
                            Some(s) => s.0 == ship_id.0,
                            None => false,
                        };
                        if here {
                            proof {
                                assert(p0.crane_of(*crane_id).assigned_to == Some(*ship_id));
                            }
                            if let Some(si) = self.find_ship_index(*ship_id) {
                                self.ships[si].unassign_crane(*crane_id);
                            }
                            proof {
                                assert forall|x: int|
                                    0 <= x < p0.cranes.len() implies (
                                #[trigger] self@.cranes[x]).id == p0.cranes[x].id by {}
                            }
                            self.cranes[ci].unassign();
                        }
                    },
                    None => {},
                }
            },
            PortEvent::ContainerProcessed { ship_id, containers_remaining, .. } => {
                if let Some(si) = self.find_ship_index(*ship_id) {
                    if *containers_remaining <= self.ships[si].containers_remaining {
                        let done: u32 = self.ships[si].containers_remaining
                            - *containers_remaining;
                        let sub: u32 = done;
                        self.ships[si].process_containers(sub);
                        proof {
                            assert(self@.ships[si as int].containers_remaining
                                == *containers_remaining);
                        }
                        let gain: i64 = 10 * (done as i64);
                        self.score = crate::numeric::sat_add_i64(self.score, gain);
                    }
                }
            },
            _ => {},
        }
        if self.version < u64::MAX {
            self.version = self.version + 1;
        }
        proof {
            if event_ok(p0, *event) {
                match *event {
                    PortEvent::ShipArrived { .. } => {
                        assert(self@.ships =~= apply_event_model(p0, *event).ships);
                    },
                    PortEvent::ShipDocked { .. } => {
                        assert(self@.ships =~= apply_event_model(p0, *event).ships);
                        assert(self@.berths =~= apply_event_model(p0, *event).berths);
                    },
                    PortEvent::ShipUndocked { .. } => {
                        assert(self@.ships =~= apply_event_model(p0, *event).ships);
                        assert(self@.berths =~= apply_event_model(p0, *event).berths);
                    },
                    PortEvent::CraneAssigned { .. } => {
                        assert(self@.ships =~= apply_event_model(p0, *event).ships);
                        assert(self@.cranes =~= apply_event_model(p0, *event).cranes);
                    },
                    PortEvent::CraneUnassigned { .. } => {
                        assert(self@.ships =~= apply_event_model(p0, *event).ships);
                        assert(self@.cranes =~= apply_event_model(p0, *event).cranes);
                    },
                    PortEvent::ContainerProcessed { .. } => {
                        assert(self@.ships =~= apply_event_model(p0, *event).ships);
                    },
                    _ => {},
                }
            }
            assert(self@ == apply_event_model(p0, *event));
            lemma_apply_event_wf(p0, *event);
        }
    }
}

} // verus!

verus! {

impl Port {
    /// Takes an assigned crane off its ship, recording the corresponding
    /// event; a free or unknown crane leaves the port untouched.
    pub fn free_crane(&mut self, crane_id: CraneId)
        requires
            old(self)@.wf(),
        ensures
            final(self)@.wf(),
            ({
                let p0 = old(self)@;
                if p0.has_crane(crane_id) && p0.crane_of(crane_id).assigned_to is Some {
                    let ev = (PortEvent::CraneUnassigned {
                        crane_id,
                        ship_id: p0.crane_of(crane_id).assigned_to->0,
                        unassignment_time: p0.current_time,
                    });
                    final(self)@ == (PortV {
                        pending: p0.pending.push(ev),
                        ..apply_event_model(p0, ev)
                    })
                } else {
                    final(self)@ == p0
                }
            }),
    {
        let ci = self.find_crane_index(crane_id);
        if let Some(ci) = ci {
            if let Some(ship_id) = self.cranes[ci].assigned_to {
                let event = PortEvent::CraneUnassigned {
                    crane_id,
                    ship_id,
                    unassignment_time: self.current_time,
                };
                self.apply_event(&event);
                self.uncommitted_events.push(event);
            }
        }
    }

    /// Sends a ship away from its berth, recording the corresponding
    /// event. The event takes effect only once the ship has no cranes
    /// left; either way nothing happens unless the ship is docked at
    /// exactly the given berth.
    pub fn undock_ship(&mut self, ship_id: ShipId, berth_id: BerthId)
        requires
            old(self)@.wf(),
        ensures
            final(self)@.wf(),
            ({
                let p0 = old(self)@;
                if p0.has_ship(ship_id) && p0.ship_of(ship_id).docked_at == Some(berth_id) {
                    let ev = (PortEvent::ShipUndocked {
                        ship_id,
                        berth_id,
                        completion_time: p0.current_time,
                        containers_processed: (p0.ship_of(ship_id).containers - p0.ship_of(
                            ship_id,
                        ).containers_remaining) as u32,
                    });
                    final(self)@ == (PortV {
                        pending: p0.pending.push(ev),
                        ..apply_event_model(p0, ev)
                    })
                } else {
                    final(self)@ == p0
                }
            }),
    {
        let si = self.find_ship_index(ship_id);
        if let Some(si) = si {
            let here = match self.ships[si].docked_at {
                Some(b) => b.0 == berth_id.0,
                None => false,
            };
            if here {
                proof {
                    assert(self@.ships[si as int].wf());
                }
                let containers_processed: u32 = self.ships[si].containers
                    - self.ships[si].containers_remaining;
                let event = PortEvent::ShipUndocked {
                    ship_id,
                    berth_id,
                    completion_time: self.current_time,
                    containers_processed,
                };
                self.apply_event(&event);
                self.uncommitted_events.push(event);
            }
        }
    }

    /// Releases every crane in the port, on both sides of the relation:
    /// all assignments are dropped and all ships' crane lists emptied.
    pub fn free_all_cranes(&mut self)
        requires
            old(self)@.wf(),
        ensures
            final(self)@.wf(),
            final(self)@ == (PortV {
                cranes: old(self)@.cranes.map_values(
                    |c: Crane| (Crane { assigned_to: None, ..c }),
                ),
                ships: old(self)@.ships.map_values(
                    |s: ShipV| (ShipV { assigned_cranes: Seq::empty(), ..s }),
                ),
                ..old(self)@
            }),
    {
        let ghost p0 = self@;
        let mut i: usize = 0;
        while i < self.cranes.len()
            invariant
                i <= self.cranes@.len(),
                self.cranes@.len() == p0.cranes.len(),
                forall|k: int|
                    0 <= k < i ==> #[trigger] self.cranes@[k] == (Crane {
                        assigned_to: None,
                        ..p0.cranes[k]
                    }),
                forall|k: int| i <= k < p0.cranes.len() ==> #[trigger] self.cranes@[k] == p0.cranes[k],
                self@.ships == p0.ships,
                self@.berths == p0.berths,
                self@.player_id == p0.player_id,
                self@.current_time == p0.current_time,
                self@.score == p0.score,
                self@.version == p0.version,
                self@.pending == p0.pending,
            decreases self.cranes@.len() - i,
        {
            self.cranes[i].unassign();
            i = i + 1;
        }
        let mut j: usize = 0;
        while j < self.ships.len()
            invariant
                j <= self.ships@.len(),
                self.ships@.len() == p0.ships.len(),
                forall|k: int|
                    0 <= k < j ==> (#[trigger] self.ships@[k])@ == (ShipV {
                        assigned_cranes: Seq::empty(),
                        ..p0.ships[k]
                    }),
                forall|k: int| j <= k < p0.ships.len() ==> (#[trigger] self.ships@[k])@ == p0.ships[k],
                self.cranes@.len() == p0.cranes.len(),
                forall|k: int|
                    0 <= k < p0.cranes.len() ==> #[trigger] self.cranes@[k] == (Crane {
                        assigned_to: None,
                        ..p0.cranes[k]
                    }),
                self@.berths == p0.berths,
                self@.player_id == p0.player_id,
                self@.current_time == p0.current_time,
                self@.score == p0.score,
                self@.version == p0.version,
                self@.pending == p0.pending,
            decreases self.ships@.len() - j,
        {
            self.ships[j].clear_cranes();
            j = j + 1;
        }
        let ghost q = self@;
        proof {
            assert forall|k: int| 0 <= k < p0.cranes.len() implies #[trigger] q.cranes[k]
                == (Crane { assigned_to: None, ..p0.cranes[k] }) by {
                assert(self.cranes@[k] == (Crane { assigned_to: None, ..p0.cranes[k] }));
            }
            assert forall|k: int| 0 <= k < p0.ships.len() implies #[trigger] q.ships[k] == (ShipV {
                assigned_cranes: Seq::empty(),
                ..p0.ships[k]
            }) by {
                assert((self.ships@[k])@ == (ShipV { assigned_cranes: Seq::empty(), ..p0.ships[k] }));
            }
            assert(q.cranes =~= p0.cranes.map_values(
                |c: Crane| (Crane { assigned_to: None, ..c }),
            ));
            assert(q.ships =~= p0.ships.map_values(
                |s: ShipV| (ShipV { assigned_cranes: Seq::empty(), ..s }),
            ));
            assert forall|i: int|
                0 <= i < q.ships.len() && (#[trigger] q.ships[i]).docked_at is Some implies {
                &&& q.has_berth(q.ships[i].docked_at->0)
                &&& q.berth_of(q.ships[i].docked_at->0).occupied_by == Some(q.ships[i].id)
            } by {
                assert(q.ships[i].docked_at == p0.ships[i].docked_at);
                assert(q.ships[i].id == p0.ships[i].id);
            }
            assert forall|j2: int|
                0 <= j2 < q.berths.len() && (#[trigger] q.berths[j2]).occupied_by is Some
                implies {
                &&& q.has_ship(q.berths[j2].occupied_by->0)
                &&& q.ship_of(q.berths[j2].occupied_by->0).docked_at == Some(q.berths[j2].id)
            } by {
                let sid = q.berths[j2].occupied_by->0;
                lemma_ship_lookup_stable(p0, q, sid);
                let osi = p0.ship_index(sid);
                assert(q.ships[osi].docked_at == p0.ships[osi].docked_at);
            }
        }
    }
}

} // verus!
