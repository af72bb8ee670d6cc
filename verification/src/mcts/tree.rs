//! The search tree: an arena of nodes addressed by integer index, plus the
//! game moves it explores. Parent and child links are plain indices, never
//! references, so the tree has no ownership cycles; children always sit at
//! higher indices than their parent, because the arena only ever appends.

use vstd::prelude::*;

use crate::domain::aggregates::{
    distinct_ship_ids, lemma_berth_lookup_stable, lemma_crane_lookup_stable, lemma_filter_distinct,
    lemma_filter_ships_distinct, lemma_ship_lookup_stable, Port, PortV,
};
use crate::domain::entities::{Berth, Crane, Ship, ShipV};
use crate::domain::value_objects::{BerthId, CraneId, ShipId};
use crate::mcts::actions::MCTSAction;
use crate::numeric::sat_add_u64;

verus! {

/// Clock advance that pins at the largest representable tick.
pub open spec fn advance_time(t: u64, d: u64) -> u64 {
    if t + d > u64::MAX {
        u64::MAX
    } else {
        (t + d) as u64
    }
}

/// When an action may be applied to a port: exactly the situations in which
/// the generator proposes it (plus any crane for `UnassignCrane`, which is
/// never generated but is defined for manual play).
pub open spec fn action_legal(p: PortV, a: MCTSAction) -> bool {
    match a {
        MCTSAction::DockShip { ship_id, berth_id } => {
            &&& p.has_ship(ship_id)
            &&& !p.ship_of(ship_id).is_docked()
            &&& p.has_berth(berth_id)
            &&& p.berth_of(berth_id).occupied_by is None
        },
        MCTSAction::AssignCrane { crane_id, ship_id } => {
            &&& p.has_crane(crane_id)
            &&& p.crane_of(crane_id).assigned_to is None
            &&& p.has_ship(ship_id)
            &&& p.ship_of(ship_id).is_docked()
        },
        MCTSAction::UnassignCrane { crane_id } => p.has_crane(crane_id),
        MCTSAction::Pass => true,
    }
}

/// The immediate effect of one action, before the processing step.
/// Docking and crane assignment cost a whole time unit (two ticks);
/// unassignment and passing cost half a unit (one tick).
pub open spec fn action_phase(p: PortV, a: MCTSAction) -> PortV {
    match a {
        MCTSAction::DockShip { ship_id, berth_id } => {
            let si = p.ship_index(ship_id);
            let bi = p.berth_index(berth_id);
            PortV {
                ships: p.ships.update(si, ShipV { docked_at: Some(berth_id), ..p.ships[si] }),
                berths: p.berths.update(bi, Berth { occupied_by: Some(ship_id), ..p.berths[bi] }),
                current_time: advance_time(p.current_time, 2),
                ..p
            }
        },
        MCTSAction::AssignCrane { crane_id, ship_id } => {
            let ci = p.crane_index(crane_id);
            let si = p.ship_index(ship_id);
            let s = p.ships[si];
            PortV {
                cranes: p.cranes.update(ci, Crane { assigned_to: Some(ship_id), ..p.cranes[ci] }),
                ships: p.ships.update(si, ShipV {
                    assigned_cranes: if s.assigned_cranes.contains(crane_id) {
                        s.assigned_cranes
                    } else {
                        s.assigned_cranes.push(crane_id)
                    },
                    ..s
                }),
                current_time: advance_time(p.current_time, 2),
                ..p
            }
        },
        MCTSAction::UnassignCrane { crane_id } => {
            let ci = p.crane_index(crane_id);
            let c = p.cranes[ci];
            let cranes2 = p.cranes.update(ci, Crane { assigned_to: None, ..c });
            let ships2 = if c.assigned_to is Some && p.has_ship(c.assigned_to->0) {
                let si = p.ship_index(c.assigned_to->0);
                p.ships.update(si, ShipV {
                    assigned_cranes: p.ships[si].assigned_cranes.filter(
                        |x: CraneId| x != crane_id,
                    ),
                    ..p.ships[si]
                })
            } else {
                p.ships
            };
            PortV {
                cranes: cranes2,
                ships: ships2,
                current_time: advance_time(p.current_time, 1),
                ..p
            }
        },
        MCTSAction::Pass => PortV { current_time: advance_time(p.current_time, 1), ..p },
    }
}

/// One step of background progress on a single ship: a docked ship with
/// cranes aboard loses ten units of remaining work per crane, floored at
/// zero; every other ship is untouched.
pub open spec fn processed_ship(s: ShipV) -> ShipV {
    if s.is_docked() && s.assigned_cranes.len() > 0 {
        ShipV {
            containers_remaining: if s.containers_remaining >= 10 * s.assigned_cranes.len() {
                (s.containers_remaining - 10 * s.assigned_cranes.len()) as u32
            } else {
                0
            },
            ..s
        }
    } else {
        s
    }
}

/// Whether a ship (already processed this tick) finished its work and now
/// leaves the port: it was docked, had cranes working, and nothing remains.
pub open spec fn completed_after(s: ShipV) -> bool {
    s.is_docked() && s.assigned_cranes.len() > 0 && s.containers_remaining == 0
}

/// A crane is released by the tick when some completing ship listed it.
pub open spec fn crane_released(ships: Seq<ShipV>, c: CraneId) -> bool {
    exists|i: int|
        0 <= i < ships.len() && completed_after(#[trigger] ships[i])
            && ships[i].assigned_cranes.contains(c)
}

/// A berth is released by the tick when some completing ship sat in it.
pub open spec fn berth_released(ships: Seq<ShipV>, b: BerthId) -> bool {
    exists|i: int|
        0 <= i < ships.len() && completed_after(#[trigger] ships[i]) && ships[i].docked_at == Some(
            b,
        )
}

/// The implicit processing step after every action: work happens on every
/// docked ship with cranes, finished ships free their cranes and berth and
/// leave the ship collection.
pub open spec fn tick(p: PortV) -> PortV {
    let worked = p.ships.map_values(|s: ShipV| processed_ship(s));
    PortV {
        ships: worked.filter(|s: ShipV| !completed_after(s)),
        cranes: p.cranes.map_values(
            |c: Crane|
                if crane_released(worked, c.id) {
                    Crane { assigned_to: None, ..c }
                } else {
                    c
                },
        ),
        berths: p.berths.map_values(
            |b: Berth|
                if berth_released(worked, b.id) {
                    Berth { occupied_by: None, ..b }
                } else {
                    b
                },
        ),
        ..p
    }
}

/// Full deterministic transition: the action's effect, then one processing
/// step. Each tree edge therefore carries both a decision and one tick of
/// background progress.
pub open spec fn spec_apply_action(p: PortV, a: MCTSAction) -> PortV {
    tick(action_phase(p, a))
}

/// All docking moves for one ship, one per free berth, in berth order.
pub open spec fn dock_row(s: ShipV, free_b: Seq<Berth>) -> Seq<MCTSAction> {
    free_b.map_values(
        |b: Berth| MCTSAction::DockShip { ship_id: s.id, berth_id: b.id },
    )
}

/// All crane moves for one crane, one per docked ship, in ship order.
pub open spec fn assign_row(c: Crane, docked: Seq<ShipV>) -> Seq<MCTSAction> {
    docked.map_values(
        |s: ShipV| MCTSAction::AssignCrane { crane_id: c.id, ship_id: s.id },
    )
}

/// The exhaustive, unpruned move list: one `DockShip` per waiting ship and
/// free berth, then one `AssignCrane` per free crane and docked ship; when
/// nothing else is possible, `Pass` alone.
pub open spec fn spec_generate_actions(p: PortV) -> Seq<MCTSAction> {
    let dock = p.waiting().flat_map(|s: ShipV| dock_row(s, p.free_berths_v()));
    let assign = p.free_cranes_v().flat_map(|c: Crane| assign_row(c, p.docked()));
    let all = dock + assign;
    if all.len() == 0 {
        seq![MCTSAction::Pass]
    } else {
        all
    }
}

} // verus!

verus! {

/// Bound on the magnitude of a playout score: a clamped `i32` score plus a
/// noise term of at most five.
pub const SCORE_BOUND: i64 = 0x8000_0005;

/// A UCB1 value: unvisited nodes rank above every finite value, so each
/// child is explored once before any sibling is revisited. Finite values
/// are in thousandths.
#[derive(Debug, Clone, Copy, PartialEq, Eq, Structural)]
pub enum Ucb1 {
    /// The rank of a node that has never been visited.
    Infinity,
    /// Average score plus exploration bonus, in thousandths.
    Value(i128),
}

/// Strict order on UCB1 values; two infinities do not outrank each other,
/// so ties keep the earlier candidate.
pub open spec fn ucb_gt(a: Ucb1, b: Ucb1) -> bool {
    match (a, b) {
        (Ucb1::Infinity, Ucb1::Infinity) => false,
        (Ucb1::Infinity, Ucb1::Value(_)) => true,
        (Ucb1::Value(_), Ucb1::Infinity) => false,
        (Ucb1::Value(x), Ucb1::Value(y)) => x > y,
    }
}

/// The UCB1 formula in fixed point, for a visited node: average score plus
/// `c * sqrt(ln(parent_visits) / visits)`, everything in thousandths. The
/// natural logarithm is approximated by `0.693 * floor(log2(n))`.
pub open spec fn spec_ucb1_value(total: int, visits: nat, parent_visits: nat, c: nat) -> int
    recommends
        visits >= 1,
{
    crate::numeric::div_trunc(total * 1000, visits as int) + (c * crate::numeric::spec_isqrt(
        693 * crate::numeric::spec_log2(parent_visits) * 1000 / visits,
    ) / 1000) as int
}

/// One node of the search tree, owning its own snapshot of the game.
#[derive(Debug)]
pub struct MCTSNode {
    pub state: Port,
    /// The move that produced this node from its parent; the root has none.
    pub action: Option<MCTSAction>,
    /// Arena index of the parent; always smaller than this node's index.
    pub parent: Option<usize>,
    /// Arena indices of the children, in the order they were created.
    pub children: Vec<usize>,
    pub visits: usize,
    /// Sum of all backpropagated scores.
    pub total_score: i128,
    /// Distance from the root.
    pub depth: usize,
}

/// Spec-level picture of a node.
pub ghost struct NodeV {
    pub state: PortV,
    pub action: Option<MCTSAction>,
    pub parent: Option<usize>,
    pub children: Seq<usize>,
    pub visits: usize,
    pub total_score: i128,
    pub depth: usize,
}

impl NodeV {
    /// The score sum never outruns the visit count: each visit contributes
    /// at most `SCORE_BOUND` in magnitude.
    pub open spec fn stats_wf(self) -> bool {
        -(self.visits as int) * (SCORE_BOUND as int) <= self.total_score <= (self.visits as int)
            * (SCORE_BOUND as int)
    }
}

impl View for MCTSNode {
    type V = NodeV;

    open spec fn view(&self) -> NodeV {
        NodeV {
            state: self.state@,
            action: self.action,
            parent: self.parent,
            children: self.children@,
            visits: self.visits,
            total_score: self.total_score,
            depth: self.depth,
        }
    }
}

/// The UCB1 rank of a node under a given parent visit count and
/// exploration constant.
pub open spec fn spec_node_ucb(n: NodeV, parent_visits: nat, c: nat) -> Ucb1 {
    if n.visits == 0 {
        Ucb1::Infinity
    } else {
        Ucb1::Value(
            spec_ucb1_value(n.total_score as int, n.visits as nat, parent_visits, c) as i128,
        )
    }
}

impl MCTSNode {
    /// A fresh node: no children, never visited, no score.
    pub fn new(state: Port, action: Option<MCTSAction>, parent: Option<usize>, depth: usize) -> (r:
        Self)
        ensures
            r@ == (NodeV {
                state: state@,
                action,
                parent,
                children: Seq::empty(),
                visits: 0,
                total_score: 0,
                depth,
            }),
    {
        let r = MCTSNode {
            state,
            action,
            parent,
            children: Vec::new(),
            visits: 0,
            total_score: 0,
            depth,
        };
        proof {
            assert(r.children@ =~= Seq::<usize>::empty());
        }
        r
    }

    /// Average backpropagated score in thousandths; zero for an unvisited
    /// node. Truncates toward zero as machine division does.
    pub fn average_score(&self) -> (r: i128)
        requires
            self@.stats_wf(),
        ensures
            r == if self.visits == 0 {
                0int
            } else {
                crate::numeric::div_trunc(self.total_score * 1000, self.visits as int)
            },
            -(SCORE_BOUND as int) * 1000 <= r <= (SCORE_BOUND as int) * 1000,
    {
        if self.visits == 0 {
            0
        } else {
            let neg = self.total_score < 0;
            proof {
                assert((self.visits as int) * (SCORE_BOUND as int) <= 0x1_0000_0000_0000_0000
                    * 0x8000_0005) by (nonlinear_arith)
                    requires
                        0 <= self.visits as int <= 0x1_0000_0000_0000_0000,
                ;
            }
            let mag: u128 = if neg {
                (-self.total_score) as u128
            } else {
                self.total_score as u128
            };
            let q: u128 = (mag * 1000) / (self.visits as u128);
            proof {
                let b1000 = (SCORE_BOUND as int) * 1000;
                assert(mag * 1000 <= (self.visits as int) * b1000) by (nonlinear_arith)
                    requires
                        mag <= (self.visits as int) * (SCORE_BOUND as int),
                        b1000 == (SCORE_BOUND as int) * 1000,
                ;
                vstd::arithmetic::div_mod::lemma_div_is_ordered(
                    mag * 1000,
                    (self.visits as int) * b1000,
                    self.visits as int,
                );
                vstd::arithmetic::div_mod::lemma_div_multiples_vanish(
                    b1000,
                    self.visits as int,
                );
                assert(q <= b1000);
            }
            if neg {
                -(q as i128)
            } else {
                q as i128
            }
        }
    }

    /// UCB1 rank of this node: infinity when unvisited (which forces every
    /// child to be explored once), else the fixed-point formula.
    pub fn ucb1(&self, parent_visits: usize, exploration_constant: u32) -> (r: Ucb1)
        requires
            self.visits > 0 ==> self@.stats_wf(),
        ensures
            self.visits == 0 ==> r == Ucb1::Infinity,
            r == spec_node_ucb(self@, parent_visits as nat, exploration_constant as nat),
    {
        if self.visits == 0 {
            Ucb1::Infinity
        } else {
            let exploitation: i128 = self.average_score();
            let lg: usize = crate::numeric::log2_usize(parent_visits);
            let ratio: u64 = 693 * (lg as u64) * 1000 / (self.visits as u64);
            let root: u64 = crate::numeric::isqrt_u64(ratio);
            proof {
                crate::numeric::lemma_isqrt_bounds(ratio as nat);
                assert(root as int <= 6660) by (nonlinear_arith)
                    requires
                        (root as int) * (root as int) <= ratio as int,
                        ratio as int <= 44_352_000,
                ;
                assert((exploration_constant as int) * (root as int) <= 0xFFFF_FFFF * 6660)
                    by (nonlinear_arith)
                    requires
                        0 <= exploration_constant as int <= 0xFFFF_FFFF,
                        0 <= root as int <= 6660,
                ;
            }
            let bonus: u64 = (exploration_constant as u64) * root / 1000;
            let value: i128 = exploitation + bonus as i128;
            proof {
                assert(693 * (lg as int) * 1000 == 693 * crate::numeric::spec_log2(
                    parent_visits as nat,
                ) * 1000);
                assert(value == spec_ucb1_value(
                    self.total_score as int,
                    self.visits as nat,
                    parent_visits as nat,
                    exploration_constant as nat,
                ));
            }
            Ucb1::Value(value)
        }
    }
}

/// Whether `a` outranks `b` under UCB1.
pub fn ucb_gt_exec(a: Ucb1, b: Ucb1) -> (r: bool)
    ensures
        r == ucb_gt(a, b),
{
    match (a, b) {
        (Ucb1::Infinity, Ucb1::Infinity) => false,
        (Ucb1::Infinity, Ucb1::Value(_)) => true,
        (Ucb1::Value(_), Ucb1::Infinity) => false,
        (Ucb1::Value(x), Ucb1::Value(y)) => x > y,
    }
}

} // verus!

verus! {

/// Spec-level picture of the whole tree.
pub ghost struct TreeV {
    pub nodes: Seq<NodeV>,
    pub root_id: Option<usize>,
}

/// Structural soundness of one arena slot: the root sits at index zero with
/// no parent and no action; every other node points to an earlier parent
/// and carries the action that produced it; children sit later in the
/// arena, point back here, and are one level deeper; the node's snapshot is
/// well-formed and its statistics within bounds.
pub open spec fn node_wf_at(nodes: Seq<NodeV>, i: int) -> bool {
    let n = nodes[i];
    &&& (i == 0 ==> n.parent is None && n.depth == 0)
    &&& (i > 0 ==> n.parent is Some && 0 <= n.parent->0 < i && n.action is Some)
    &&& (forall|k: int|
        0 <= k < n.children.len() ==> {
            let c = (#[trigger] n.children[k]) as int;
            &&& i < c < nodes.len()
            &&& nodes[c].parent == Some(i as usize)
            &&& nodes[c].depth == n.depth + 1
        })
    &&& n.state.wf()
    &&& n.stats_wf()
}

pub open spec fn nodes_wf(nodes: Seq<NodeV>) -> bool {
    forall|i: int| 0 <= i < nodes.len() ==> #[trigger] node_wf_at(nodes, i)
}

impl TreeV {
    /// A tree is well-formed when the root index is zero exactly when the
    /// arena is non-empty, and every slot is structurally sound.
    pub open spec fn wf(self) -> bool {
        &&& match self.root_id {
            None => self.nodes.len() == 0,
            Some(r) => r == 0 && self.nodes.len() > 0,
        }
        &&& nodes_wf(self.nodes)
    }
}

/// The search tree arena. Rebuilt from scratch by `init_root` at the start
/// of every search; nodes are only ever appended within one search.
#[derive(Debug)]
pub struct MCTSTree {
    pub nodes: Vec<MCTSNode>,
    pub root_id: Option<usize>,
}

impl View for MCTSTree {
    type V = TreeV;

    open spec fn view(&self) -> TreeV {
        TreeV { nodes: self.nodes@.map_values(|n: MCTSNode| n@), root_id: self.root_id }
    }
}

impl MCTSTree {
    /// An empty, uninitialized tree.
    pub fn new() -> (r: Self)
        ensures
            r@ == (TreeV { nodes: Seq::empty(), root_id: None }),
            r@.wf(),
    {
        let r = MCTSTree { nodes: Vec::new(), root_id: None };
        proof {
            assert(r.nodes@.map_values(|n: MCTSNode| n@) =~= Seq::<NodeV>::empty());
        }
        r
    }

    /// Throws the previous tree away and starts over with a single root
    /// node owning the given snapshot.
    pub fn init_root(&mut self, state: Port)
        requires
            state@.wf(),
        ensures
            final(self)@ == (TreeV {
                nodes: seq![
                    (NodeV {
                        state: state@,
                        action: None,
                        parent: None,
                        children: Seq::empty(),
                        visits: 0,
                        total_score: 0,
                        depth: 0,
                    }),
                ],
                root_id: Some(0usize),
            }),
            final(self)@.wf(),
    {
        let root = MCTSNode::new(state, None, None, 0);
        self.nodes.clear();
        self.nodes.push(root);
        self.root_id = Some(0);
        proof {
            assert(self.nodes@.map_values(|n: MCTSNode| n@) =~= seq![
                (NodeV {
                    state: state@,
                    action: None,
                    parent: None,
                    children: Seq::empty(),
                    visits: 0,
                    total_score: 0,
                    depth: 0,
                }),
            ]);
        }
    }

    /// Borrow of the arena slot at the given index.
    pub fn node(&self, node_id: usize) -> (r: &MCTSNode)
        requires
            node_id < self@.nodes.len(),
        ensures
            r@ == self@.nodes[node_id as int],
    {
        &self.nodes[node_id]
    }

    /// The snapshot owned by a node.
    pub fn get_state(&self, node_id: usize) -> (r: &Port)
        requires
            node_id < self@.nodes.len(),
        ensures
            r@ == self@.nodes[node_id as int].state,
    {
        &self.nodes[node_id].state
    }

    /// How many nodes the arena holds.
    pub fn node_count(&self) -> (r: usize)
        ensures
            r == self@.nodes.len(),
    {
        self.nodes.len()
    }

    /// Depth of the given node; zero for an index outside the arena.
    pub fn node_depth(&self, node_id: usize) -> (r: usize)
        ensures
            r == if node_id < self@.nodes.len() {
                self@.nodes[node_id as int].depth as int
            } else {
                0
            },
    {
        if node_id < self.nodes.len() {
            self.nodes[node_id].depth
        } else {
            0
        }
    }

    /// The deepest level any node has reached; zero for an empty arena.
    pub fn max_depth(&self) -> (r: usize)
        ensures
            forall|i: int| 0 <= i < self@.nodes.len() ==> (#[trigger] self@.nodes[i]).depth <= r,
            self@.nodes.len() == 0 ==> r == 0,
            self@.nodes.len() > 0 ==> exists|i: int|
                0 <= i < self@.nodes.len() && (#[trigger] self@.nodes[i]).depth == r,
    {
        let mut best: usize = 0;
        let mut i: usize = 0;
        while i < self.nodes.len()
            invariant
                i <= self.nodes@.len(),
                forall|k: int| 0 <= k < i ==> (#[trigger] self@.nodes[k]).depth <= best,
                i == 0 ==> best == 0,
                i > 0 ==> exists|k: int|
                    0 <= k < i && (#[trigger] self@.nodes[k]).depth == best,
            decreases self.nodes@.len() - i,
        {
            if self.nodes[i].depth > best {
                best = self.nodes[i].depth;
                proof {
                    assert((self@.nodes[i as int]).depth == best);
                }
            } else {
                proof {
                    if i == 0 {
                        assert((self@.nodes[0]).depth == best);
                    }
                }
            }
            i = i + 1;
        }
        best
    }

    /// Every legal move from the given snapshot, exhaustively and without
    /// pruning: all docking moves, then all crane assignments; `Pass` alone
    /// when nothing else is possible.
    pub fn generate_actions(&self, port: &Port) -> (r: Vec<MCTSAction>)
        ensures
            r@ == spec_generate_actions(port@),
            r@.len() > 0,
    {
        broadcast use vstd::prelude::Seq::push_distributes_over_add;

        let ghost waiting = port@.waiting();
        let ghost freeb = port@.free_berths_v();
        let ghost freec = port@.free_cranes_v();
        let ghost dockd = port@.docked();
        let ghost drow = |s: ShipV| dock_row(s, freeb);
        let ghost arow = |c: Crane| assign_row(c, dockd);

        let ws = port.waiting_ships();
        let fbs = port.free_berths();
        let fcs = port.free_cranes();
        let ds = port.docked_ships();

        let mut actions: Vec<MCTSAction> = Vec::new();
        proof {
            assert(waiting.take(0) =~= Seq::<ShipV>::empty());
            assert(Seq::<ShipV>::empty().map_values(drow) =~= Seq::<Seq<MCTSAction>>::empty());
            assert(Seq::<Seq<MCTSAction>>::empty().flatten() =~= Seq::<MCTSAction>::empty());
            assert(actions@ =~= waiting.take(0).flat_map(drow));
        }
        let mut i: usize = 0;
        while i < ws.len()
            invariant
                i <= ws@.len(),
                ws@.map_values(|s: &Ship| s@) == waiting,
                fbs@.map_values(|b: &Berth| *b) == freeb,
                drow == (|s: ShipV| dock_row(s, freeb)),
                actions@ == waiting.take(i as int).flat_map(drow),
            decreases ws@.len() - i,
        {
            let ghost base = actions@;
            let ghost mk = |b: Berth| MCTSAction::DockShip {
                ship_id: waiting[i as int].id,
                berth_id: b.id,
            };
            proof {
                assert(freeb.take(0).map_values(mk) =~= Seq::<MCTSAction>::empty());
                assert(actions@ =~= base + freeb.take(0).map_values(mk));
            }
            let mut j: usize = 0;
            while j < fbs.len()
                invariant
                    j <= fbs@.len(),
                    i < ws@.len(),
                    ws@.map_values(|s: &Ship| s@) == waiting,
                    fbs@.map_values(|b: &Berth| *b) == freeb,
                    mk == (|b: Berth| MCTSAction::DockShip {
                        ship_id: waiting[i as int].id,
                        berth_id: b.id,
                    }),
                    actions@ == base + freeb.take(j as int).map_values(mk),
                decreases fbs@.len() - j,
            {
                let act = MCTSAction::DockShip { ship_id: ws[i].id, berth_id: fbs[j].id };
                proof {
                    assert((ws@[i as int])@ == waiting[i as int]);
                    assert(*fbs@[j as int] == freeb[j as int]);
                    assert(act == mk(freeb[j as int]));
                }
                actions.push(act);
                proof {
                    assert(freeb.take(j + 1).map_values(mk) =~= freeb.take(j as int).map_values(
                        mk,
                    ).push(mk(freeb[j as int])));
                }
                j = j + 1;
            }
            proof {
                assert(freeb.take(freeb.len() as int) =~= freeb);
                assert(freeb.map_values(mk) =~= drow(waiting[i as int]));
                waiting.lemma_flat_map_take_append(drow, i as int);
            }
            i = i + 1;
        }
        let ghost dock_all = waiting.flat_map(drow);
        proof {
            assert(waiting.take(waiting.len() as int) =~= waiting);
            assert(actions@ == dock_all);
            assert(freec.take(0).flat_map(arow) =~= Seq::<MCTSAction>::empty()) by {
                assert(freec.take(0) =~= Seq::<Crane>::empty());
                assert(Seq::<Crane>::empty().map_values(arow) =~= Seq::<Seq<MCTSAction>>::empty());
            }
            assert(actions@ =~= dock_all + freec.take(0).flat_map(arow));
        }
        let mut k: usize = 0;
        while k < fcs.len()
            invariant
                k <= fcs@.len(),
                fcs@.map_values(|c: &Crane| *c) == freec,
                ds@.map_values(|s: &Ship| s@) == dockd,
                arow == (|c: Crane| assign_row(c, dockd)),
                dock_all == waiting.flat_map(drow),
                actions@ == dock_all + freec.take(k as int).flat_map(arow),
            decreases fcs@.len() - k,
        {
            let ghost base = actions@;
            let ghost mk = |s: ShipV| MCTSAction::AssignCrane {
                crane_id: freec[k as int].id,
                ship_id: s.id,
            };
            proof {
                assert(dockd.take(0).map_values(mk) =~= Seq::<MCTSAction>::empty());
                assert(actions@ =~= base + dockd.take(0).map_values(mk));
            }
            let mut j: usize = 0;
            while j < ds.len()
                invariant
                    j <= ds@.len(),
                    k < fcs@.len(),
                    fcs@.map_values(|c: &Crane| *c) == freec,
                    ds@.map_values(|s: &Ship| s@) == dockd,
                    mk == (|s: ShipV| MCTSAction::AssignCrane {
                        crane_id: freec[k as int].id,
                        ship_id: s.id,
                    }),
                    actions@ == base + dockd.take(j as int).map_values(mk),
                decreases ds@.len() - j,
            {
                let act = MCTSAction::AssignCrane { crane_id: fcs[k].id, ship_id: ds[j].id };
                proof {
                    assert(*fcs@[k as int] == freec[k as int]);
                    assert((ds@[j as int])@ == dockd[j as int]);
                    assert(act == mk(dockd[j as int]));
                }
                actions.push(act);
                proof {
                    assert(dockd.take(j + 1).map_values(mk) =~= dockd.take(j as int).map_values(
                        mk,
                    ).push(mk(dockd[j as int])));
                }
                j = j + 1;
            }
            proof {
                assert(dockd.take(dockd.len() as int) =~= dockd);
                assert(dockd.map_values(mk) =~= arow(freec[k as int]));
                freec.lemma_flat_map_take_append(arow, k as int);
            }
            k = k + 1;
        }
        proof {
            assert(freec.take(freec.len() as int) =~= freec);
        }
        if actions.len() == 0 {
            actions.push(MCTSAction::Pass);
            proof {
                assert(actions@ =~= seq![MCTSAction::Pass]);
            }
        }
        actions
    }
}

} // verus!

verus! {

/// The processing step keeps the port well-formed.
pub proof fn lemma_tick_wf(p: PortV)
    requires
        p.wf(),
    ensures
        tick(p).wf(),
{
    broadcast use vstd::prelude::Seq::lemma_filter_contains_rev;
    broadcast use vstd::prelude::Seq::lemma_filter_pred;
    broadcast use vstd::prelude::Seq::lemma_filter_len;
    broadcast use vstd::prelude::Seq::lemma_filter_contains;

    let worked = p.ships.map_values(|s: ShipV| processed_ship(s));
    let keep = |s: ShipV| !completed_after(s);
    let kept = worked.filter(keep);
    let q = tick(p);
    assert(q.ships == kept);
    assert(worked.len() == p.ships.len());

    assert(distinct_ship_ids(worked));
    lemma_filter_ships_distinct(worked, keep);
    assert(q.distinct_ids());

    // For every kept ship there is a position in the old list holding the
    // same (processed) ship.
    assert forall|i: int| 0 <= i < kept.len() implies {
        exists|j: int| 0 <= j < worked.len() && worked[j] == #[trigger] kept[i]
    } by {
        assert(kept.contains(kept[i]));
        assert(worked.contains(kept[i]));
    }

    // Each kept ship is well-formed.
    assert forall|i: int| 0 <= i < kept.len() implies (#[trigger] kept[i]).wf() by {
        assert(kept.contains(kept[i]));
        assert(worked.contains(kept[i]));
        let j = choose|j: int| 0 <= j < worked.len() && worked[j] == kept[i];
        assert(p.ships[j].wf());
        assert(worked[j] == processed_ship(p.ships[j]));
    }

    // Docked kept ships still point at a berth that points back.
    assert forall|i: int|
        0 <= i < q.ships.len() && (#[trigger] q.ships[i]).docked_at is Some implies {
        &&& q.has_berth(q.ships[i].docked_at->0)
        &&& q.berth_of(q.ships[i].docked_at->0).occupied_by == Some(q.ships[i].id)
    } by {
        let b = q.ships[i].docked_at->0;
        assert(kept.contains(kept[i]));
        assert(worked.contains(kept[i]));
        let j = choose|j: int| 0 <= j < worked.len() && worked[j] == kept[i];
        assert(p.ships[j].docked_at == Some(b));
        assert(p.has_berth(b));
        let bi = p.berth_index(b);
        assert(p.berths[bi].occupied_by == Some(p.ships[j].id));
        lemma_berth_lookup_stable(p, q, b);
        assert(q.berth_index(b) == bi);
        if berth_released(worked, b) {
            let m = choose|m: int|
                0 <= m < worked.len() && completed_after(worked[m]) && worked[m].docked_at == Some(
                    b,
                );
            assert(p.ships[m].docked_at == Some(b));
            assert(p.berths[bi].occupied_by == Some(p.ships[m].id));
            assert(p.ships[m].id == p.ships[j].id);
            if m != j {
                assert(p.ships[m].id != p.ships[j].id);
            }
            assert(completed_after(kept[i]));
            assert(!completed_after(kept[i]));
        }
        assert(q.berths[bi] == p.berths[bi]);
    }

    // Occupied berths still hold a surviving ship docked right there.
    assert forall|j: int|
        0 <= j < q.berths.len() && (#[trigger] q.berths[j]).occupied_by is Some implies {
        &&& q.has_ship(q.berths[j].occupied_by->0)
        &&& q.ship_of(q.berths[j].occupied_by->0).docked_at == Some(q.berths[j].id)
    } by {
        let sid = q.berths[j].occupied_by->0;
        assert(!berth_released(worked, p.berths[j].id));
        assert(q.berths[j] == p.berths[j]);
        assert(p.berths[j].occupied_by == Some(sid));
        let sj = p.ship_index(sid);
        assert(p.ships[sj].docked_at == Some(p.berths[j].id));
        assert(worked[sj].docked_at == Some(p.berths[j].id));
        assert(worked[sj].id == sid);
        if completed_after(worked[sj]) {
            assert(berth_released(worked, p.berths[j].id));
        }
        assert(keep(worked[sj]));
        assert(kept.contains(worked[sj]));
        let ki = choose|ki: int| 0 <= ki < kept.len() && kept[ki] == worked[sj];
        assert(q.has_ship(sid));
        let qi = q.ship_index(sid);
        assert(kept[qi].id == sid);
        assert(kept.contains(kept[qi]));
        assert(worked.contains(kept[qi]));
        let m = choose|m: int| 0 <= m < worked.len() && worked[m] == kept[qi];
        assert(worked[m].id == sid);
        if m != sj {
            assert(p.ships[m].id != p.ships[sj].id);
        }
        assert(kept[qi] == worked[sj]);
    }

    // Assigned cranes still point at a surviving ship that lists them.
    assert forall|k: int|
        0 <= k < q.cranes.len() && (#[trigger] q.cranes[k]).assigned_to is Some implies {
        &&& q.has_ship(q.cranes[k].assigned_to->0)
        &&& q.ship_of(q.cranes[k].assigned_to->0).assigned_cranes.contains(q.cranes[k].id)
    } by {
        let sid = q.cranes[k].assigned_to->0;
        assert(!crane_released(worked, p.cranes[k].id));
        assert(q.cranes[k] == p.cranes[k]);
        assert(p.cranes[k].assigned_to == Some(sid));
        let sj = p.ship_index(sid);
        assert(p.ships[sj].assigned_cranes.contains(p.cranes[k].id));
        assert(worked[sj].assigned_cranes == p.ships[sj].assigned_cranes);
        assert(worked[sj].id == sid);
        if completed_after(worked[sj]) {
            assert(crane_released(worked, p.cranes[k].id));
        }
        assert(keep(worked[sj]));
        assert(kept.contains(worked[sj]));
        assert(q.has_ship(sid));
        let qi = q.ship_index(sid);
        assert(kept[qi].id == sid);
        assert(kept.contains(kept[qi]));
        assert(worked.contains(kept[qi]));
        let m = choose|m: int| 0 <= m < worked.len() && worked[m] == kept[qi];
        assert(worked[m].id == sid);
        if m != sj {
            assert(p.ships[m].id != p.ships[sj].id);
        }
        assert(kept[qi] == worked[sj]);
    }

    // Cranes listed on surviving ships are still assigned to them.
    assert forall|i: int, k: int|
        0 <= i < q.ships.len() && 0 <= k < q.ships[i].assigned_cranes.len() implies {
        &&& q.has_crane(#[trigger] q.ships[i].assigned_cranes[k])
        &&& q.crane_of(q.ships[i].assigned_cranes[k]).assigned_to == Some(q.ships[i].id)
    } by {
        let c = q.ships[i].assigned_cranes[k];
        assert(kept.contains(kept[i]));
        assert(worked.contains(kept[i]));
        let j = choose|j: int| 0 <= j < worked.len() && worked[j] == kept[i];
        assert(p.ships[j].assigned_cranes[k] == c);
        assert(p.has_crane(c));
        let ci = p.crane_index(c);
        assert(p.cranes[ci].assigned_to == Some(p.ships[j].id));
        lemma_crane_lookup_stable(p, q, c);
        assert(q.crane_index(c) == ci);
        if crane_released(worked, c) {
            let m = choose|m: int|
                0 <= m < worked.len() && completed_after(worked[m])
                    && worked[m].assigned_cranes.contains(c);
            assert(p.ships[m].assigned_cranes.contains(c));
            assert(p.cranes[ci].assigned_to == Some(p.ships[m].id));
            if m != j {
                assert(p.ships[m].id != p.ships[j].id);
            }
            assert(completed_after(kept[i]));
            assert(!completed_after(kept[i]));
        }
        assert(q.cranes[ci] == p.cranes[ci]);
    }
}

} // verus!

verus! {

/// The immediate effect of a legal action keeps the port well-formed.
pub proof fn lemma_action_phase_wf(p: PortV, a: MCTSAction)
    requires
        p.wf(),
        action_legal(p, a),
    ensures
        action_phase(p, a).wf(),
{
    let q = action_phase(p, a);
    match a {
        MCTSAction::DockShip { ship_id, berth_id } => {
            let si = p.ship_index(ship_id);
            let bi = p.berth_index(berth_id);
            assert forall|id: ShipId| true implies {
                &&& q.has_ship(id) == p.has_ship(id)
                &&& (p.has_ship(id) ==> q.ship_index(id) == p.ship_index(id))
            } by {
                lemma_ship_lookup_stable(p, q, id);
            }
            assert forall|id: BerthId| true implies {
                &&& q.has_berth(id) == p.has_berth(id)
                &&& (p.has_berth(id) ==> q.berth_index(id) == p.berth_index(id))
            } by {
                lemma_berth_lookup_stable(p, q, id);
            }
            assert forall|id: CraneId| true implies {
                &&& q.has_crane(id) == p.has_crane(id)
                &&& (p.has_crane(id) ==> q.crane_index(id) == p.crane_index(id))
            } by {
                lemma_crane_lookup_stable(p, q, id);
            }
            // Docked ships point at berths that point back.
            assert forall|i: int|
                0 <= i < q.ships.len() && (#[trigger] q.ships[i]).docked_at is Some implies {
                &&& q.has_berth(q.ships[i].docked_at->0)
                &&& q.berth_of(q.ships[i].docked_at->0).occupied_by == Some(q.ships[i].id)
            } by {
                let b = q.ships[i].docked_at->0;
                if i == si {
                    assert(b == berth_id);
                    assert(q.berths[bi].occupied_by == Some(ship_id));
                } else {
                    assert(p.ships[i].docked_at is Some);
                    let obi = p.berth_index(b);
                    assert(p.berths[obi].occupied_by == Some(p.ships[i].id));
                    if obi == bi {
                        assert(p.berths[bi].occupied_by is None);
                    }
                    assert(q.berths[obi] == p.berths[obi]);
                }
            }
            // Occupied berths hold a ship docked right there.
            assert forall|j: int|
                0 <= j < q.berths.len() && (#[trigger] q.berths[j]).occupied_by is Some implies {
                &&& q.has_ship(q.berths[j].occupied_by->0)
                &&& q.ship_of(q.berths[j].occupied_by->0).docked_at == Some(q.berths[j].id)
            } by {
                let sid = q.berths[j].occupied_by->0;
                if j == bi {
                    assert(sid == ship_id);
                    assert(q.ships[si].docked_at == Some(berth_id));
                    assert(q.berths[j].id == p.berths[bi].id);
                } else {
                    assert(p.berths[j].occupied_by == Some(sid));
                    let osi = p.ship_index(sid);
                    assert(p.ships[osi].docked_at == Some(p.berths[j].id));
                    if osi == si {
                        assert(p.ships[si].docked_at is None);
                    }
                    assert(q.ships[osi] == p.ships[osi]);
                }
            }
            // Crane sides untouched.
            assert forall|k: int|
                0 <= k < q.cranes.len() && (#[trigger] q.cranes[k]).assigned_to is Some implies {
                &&& q.has_ship(q.cranes[k].assigned_to->0)
                &&& q.ship_of(q.cranes[k].assigned_to->0).assigned_cranes.contains(q.cranes[k].id)
            } by {
                let sid = q.cranes[k].assigned_to->0;
                assert(p.cranes[k].assigned_to == Some(sid));
                let osi = p.ship_index(sid);
                assert(p.ships[osi].assigned_cranes.contains(p.cranes[k].id));
                assert(q.ships[osi].assigned_cranes == p.ships[osi].assigned_cranes);
            }
            assert forall|i: int, k: int|
                0 <= i < q.ships.len() && 0 <= k < q.ships[i].assigned_cranes.len() implies {
                &&& q.has_crane(#[trigger] q.ships[i].assigned_cranes[k])
                &&& q.crane_of(q.ships[i].assigned_cranes[k]).assigned_to == Some(q.ships[i].id)
            } by {
                let c = q.ships[i].assigned_cranes[k];
                assert(p.ships[i].assigned_cranes[k] == c);
            }
        },
        MCTSAction::AssignCrane { crane_id, ship_id } => {
            let ci = p.crane_index(crane_id);
            let si = p.ship_index(ship_id);
            let s0 = p.ships[si];
            // The ship cannot already list a free crane.
            assert(!s0.assigned_cranes.contains(crane_id)) by {
                if s0.assigned_cranes.contains(crane_id) {
                    let k = choose|k: int|
                        0 <= k < s0.assigned_cranes.len() && s0.assigned_cranes[k] == crane_id;
                    assert(p.crane_of(s0.assigned_cranes[k]).assigned_to == Some(s0.id));
                }
            }
            assert forall|id: ShipId| true implies {
                &&& q.has_ship(id) == p.has_ship(id)
                &&& (p.has_ship(id) ==> q.ship_index(id) == p.ship_index(id))
            } by {
                lemma_ship_lookup_stable(p, q, id);
            }
            assert forall|id: BerthId| true implies {
                &&& q.has_berth(id) == p.has_berth(id)
                &&& (p.has_berth(id) ==> q.berth_index(id) == p.berth_index(id))
            } by {
                lemma_berth_lookup_stable(p, q, id);
            }
            assert forall|id: CraneId| true implies {
                &&& q.has_crane(id) == p.has_crane(id)
                &&& (p.has_crane(id) ==> q.crane_index(id) == p.crane_index(id))
            } by {
                lemma_crane_lookup_stable(p, q, id);
            }
            // Each ship stays well-formed: the new crane was not listed.
            assert forall|i: int| 0 <= i < q.ships.len() implies (#[trigger] q.ships[i]).wf() by {
                if i == si {
                    let lst = q.ships[si].assigned_cranes;
                    assert(lst == s0.assigned_cranes.push(crane_id));
                    assert forall|x: int, y: int| 0 <= x < y < lst.len() implies lst[x]
                        != lst[y] by {
                        if y == lst.len() - 1 {
                            assert(s0.assigned_cranes.contains(s0.assigned_cranes[x]));
                        }
                    }
                }
            }
            assert forall|i: int|
                0 <= i < q.ships.len() && (#[trigger] q.ships[i]).docked_at is Some implies {
                &&& q.has_berth(q.ships[i].docked_at->0)
                &&& q.berth_of(q.ships[i].docked_at->0).occupied_by == Some(q.ships[i].id)
            } by {
                assert(p.ships[i].docked_at == q.ships[i].docked_at);
                assert(p.ships[i].id == q.ships[i].id);
                let b = q.ships[i].docked_at->0;
                assert(q.berths == p.berths);
            }
            assert forall|j: int|
                0 <= j < q.berths.len() && (#[trigger] q.berths[j]).occupied_by is Some implies {
                &&& q.has_ship(q.berths[j].occupied_by->0)
                &&& q.ship_of(q.berths[j].occupied_by->0).docked_at == Some(q.berths[j].id)
            } by {
                let sid = q.berths[j].occupied_by->0;
                let osi = p.ship_index(sid);
                assert(q.ships[osi].docked_at == p.ships[osi].docked_at);
            }
            assert forall|k: int|
                0 <= k < q.cranes.len() && (#[trigger] q.cranes[k]).assigned_to is Some implies {
                &&& q.has_ship(q.cranes[k].assigned_to->0)
                &&& q.ship_of(q.cranes[k].assigned_to->0).assigned_cranes.contains(q.cranes[k].id)
            } by {
                let sid = q.cranes[k].assigned_to->0;
                if k == ci {
                    assert(sid == ship_id);
                    assert(q.ships[si].assigned_cranes == s0.assigned_cranes.push(crane_id));
                    assert(q.ships[si].assigned_cranes[s0.assigned_cranes.len() as int]
                        == crane_id);
                    assert(q.ships[si].assigned_cranes.contains(crane_id));
                    assert(q.cranes[ci].id == p.cranes[ci].id);
                } else {
                    assert(p.cranes[k].assigned_to == Some(sid));
                    let osi = p.ship_index(sid);
                    assert(p.ships[osi].assigned_cranes.contains(p.cranes[k].id));
                    if osi == si {
                        let w = choose|w: int|
                            0 <= w < s0.assigned_cranes.len() && s0.assigned_cranes[w]
                                == p.cranes[k].id;
                        assert(q.ships[si].assigned_cranes[w] == p.cranes[k].id);
                        assert(q.ships[si].assigned_cranes.contains(p.cranes[k].id));
                    }
                }
            }
            assert forall|i: int, k: int|
                0 <= i < q.ships.len() && 0 <= k < q.ships[i].assigned_cranes.len() implies {
                &&& q.has_crane(#[trigger] q.ships[i].assigned_cranes[k])
                &&& q.crane_of(q.ships[i].assigned_cranes[k]).assigned_to == Some(q.ships[i].id)
            } by {
                let c = q.ships[i].assigned_cranes[k];
                if i == si && k == s0.assigned_cranes.len() {
                    assert(c == crane_id);
                    assert(q.cranes[ci].assigned_to == Some(ship_id));
                } else {
                    assert(p.ships[i].assigned_cranes[k] == c);
                    assert(p.ships[i].assigned_cranes.contains(c));
                    let oci = p.crane_index(c);
                    assert(p.cranes[oci].assigned_to == Some(p.ships[i].id));
                    if oci == ci {
                        assert(p.cranes[ci].assigned_to is None);
                    }
                    assert(q.cranes[oci] == p.cranes[oci]);
                    assert(q.ships[i].id == p.ships[i].id);
                }
            }
        },
        MCTSAction::UnassignCrane { crane_id } => {
            let ci = p.crane_index(crane_id);
            let c0 = p.cranes[ci];
            assert forall|id: ShipId| true implies {
                &&& q.has_ship(id) == p.has_ship(id)
                &&& (p.has_ship(id) ==> q.ship_index(id) == p.ship_index(id))
            } by {
                lemma_ship_lookup_stable(p, q, id);
            }
            assert forall|id: BerthId| true implies {
                &&& q.has_berth(id) == p.has_berth(id)
                &&& (p.has_berth(id) ==> q.berth_index(id) == p.berth_index(id))
            } by {
                lemma_berth_lookup_stable(p, q, id);
            }
            assert forall|id: CraneId| true implies {
                &&& q.has_crane(id) == p.has_crane(id)
                &&& (p.has_crane(id) ==> q.crane_index(id) == p.crane_index(id))
            } by {
                lemma_crane_lookup_stable(p, q, id);
            }
            if c0.assigned_to is Some && p.has_ship(c0.assigned_to->0) {
                let sid = c0.assigned_to->0;
                let si = p.ship_index(sid);
                let s0 = p.ships[si];
                let pred = |x: CraneId| x != crane_id;
                broadcast use vstd::prelude::Seq::lemma_filter_contains_rev;
                broadcast use vstd::prelude::Seq::lemma_filter_pred;
                broadcast use vstd::prelude::Seq::lemma_filter_len;
                broadcast use vstd::prelude::Seq::lemma_filter_contains;

                assert forall|i: int| 0 <= i < q.ships.len() implies (
                #[trigger] q.ships[i]).wf() by {
                    if i == si {
                        lemma_filter_distinct(s0.assigned_cranes, pred);
                    }
                }
                assert forall|i: int|
                    0 <= i < q.ships.len() && (#[trigger] q.ships[i]).docked_at is Some implies {
                    &&& q.has_berth(q.ships[i].docked_at->0)
                    &&& q.berth_of(q.ships[i].docked_at->0).occupied_by == Some(q.ships[i].id)
                } by {
                    assert(p.ships[i].docked_at == q.ships[i].docked_at);
                    assert(p.ships[i].id == q.ships[i].id);
                }
                assert forall|j: int|
                    0 <= j < q.berths.len() && (#[trigger] q.berths[j]).occupied_by is Some
                    implies {
                    &&& q.has_ship(q.berths[j].occupied_by->0)
                    &&& q.ship_of(q.berths[j].occupied_by->0).docked_at == Some(q.berths[j].id)
                } by {
                    let osid = q.berths[j].occupied_by->0;
                    let osi = p.ship_index(osid);
                    assert(q.ships[osi].docked_at == p.ships[osi].docked_at);
                    assert(q.ships[osi].id == p.ships[osi].id);
                }
                assert forall|k: int|
                    0 <= k < q.cranes.len() && (#[trigger] q.cranes[k]).assigned_to is Some
                    implies {
                    &&& q.has_ship(q.cranes[k].assigned_to->0)
                    &&& q.ship_of(q.cranes[k].assigned_to->0).assigned_cranes.contains(
                        q.cranes[k].id,
                    )
                } by {
                    let osid = q.cranes[k].assigned_to->0;
                    assert(k != ci);
                    assert(p.cranes[k].assigned_to == Some(osid));
                    let osi = p.ship_index(osid);
                    assert(p.ships[osi].assigned_cranes.contains(p.cranes[k].id));
                    if osi == si {
                        assert(p.cranes[k].id != crane_id) by {
                            if k != ci {
                                assert(p.cranes[k].id != p.cranes[ci].id);
                            }
                        }
                        let w = choose|w: int|
                            0 <= w < s0.assigned_cranes.len() && s0.assigned_cranes[w]
                                == p.cranes[k].id;
                        assert(pred(s0.assigned_cranes[w]));
                        assert(s0.assigned_cranes.filter(pred).contains(p.cranes[k].id));
                    }
                }
                assert forall|i: int, k: int|
                    0 <= i < q.ships.len() && 0 <= k < q.ships[i].assigned_cranes.len() implies {
                    &&& q.has_crane(#[trigger] q.ships[i].assigned_cranes[k])
                    &&& q.crane_of(q.ships[i].assigned_cranes[k]).assigned_to == Some(
                        q.ships[i].id,
                    )
                } by {
                    let c = q.ships[i].assigned_cranes[k];
                    if i == si {
                        assert(q.ships[si].assigned_cranes == s0.assigned_cranes.filter(pred));
                        assert(q.ships[si].assigned_cranes.contains(c));
                        assert(s0.assigned_cranes.contains(c));
                        assert(pred(c));
                        let oci = p.crane_index(c);
                        assert(p.cranes[oci].assigned_to == Some(s0.id));
                        if oci == ci {
                            assert(p.cranes[ci].id == crane_id);
                            assert(c == crane_id);
                        }
                        assert(q.cranes[oci] == p.cranes[oci]);
                        assert(q.ships[si].id == s0.id);
                    } else {
                        assert(p.ships[i].assigned_cranes[k] == c);
                        assert(p.ships[i].assigned_cranes.contains(c));
                        let oci = p.crane_index(c);
                        assert(p.cranes[oci].assigned_to == Some(p.ships[i].id));
                        if oci == ci {
                            assert(p.cranes[ci].assigned_to == Some(sid));
                            assert(p.ships[i].id == sid);
                            if i != si {
                                assert(p.ships[i].id != p.ships[si].id);
                            }
                        }
                        assert(q.cranes[oci] == p.cranes[oci]);
                    }
                }
            } else {
                // The crane was idle (or dangling toward no ship, which
                // well-formedness rules out): only its slot is rewritten,
                // with an empty assignment either way.
                assert(c0.assigned_to is None);
                assert(q.cranes =~= p.cranes.update(ci, Crane { assigned_to: None, ..c0 }));
                assert(q.cranes =~= p.cranes);
                assert(q.ships == p.ships);
                assert forall|i: int, k: int|
                    0 <= i < q.ships.len() && 0 <= k < q.ships[i].assigned_cranes.len() implies {
                    &&& q.has_crane(#[trigger] q.ships[i].assigned_cranes[k])
                    &&& q.crane_of(q.ships[i].assigned_cranes[k]).assigned_to == Some(
                        q.ships[i].id,
                    )
                } by {
                    let c = q.ships[i].assigned_cranes[k];
                    assert(p.has_crane(c));
                    assert(p.crane_of(c).assigned_to == Some(p.ships[i].id));
                }
                assert(q.wf());
            }
        },
        MCTSAction::Pass => {
            assert(q.ships == p.ships);
            assert(q.berths == p.berths);
            assert(q.cranes == p.cranes);
        },
    }
}

} // verus!

verus! {

/// One tick of work on every docked ship that has cranes aboard.
fn work_ships(ships: &mut Vec<Ship>)
    ensures
        final(ships)@.map_values(|s: Ship| s@) == old(ships)@.map_values(|s: Ship| s@).map_values(
            |s: ShipV| processed_ship(s),
        ),
{
    let ghost orig = ships@.map_values(|s: Ship| s@);
    let mut i: usize = 0;
    while i < ships.len()
        invariant
            i <= ships@.len(),
            ships@.len() == orig.len(),
            forall|k: int|
                0 <= k < orig.len() ==> (#[trigger] ships@[k])@ == if k < i {
                    processed_ship(orig[k])
                } else {
                    orig[k]
                },
        decreases ships@.len() - i,
    {
        let docked = ships[i].is_docked();
        let count = ships[i].assigned_cranes.len();
        if docked && count > 0 {
            let amount: u32 = if count <= (u32::MAX / 10) as usize {
                (count as u32) * 10
            } else {
                u32::MAX
            };
            ships[i].process_containers(amount);
            proof {
                assert((ships@[i as int])@ == processed_ship(orig[i as int]));
            }
        }
        i = i + 1;
    }
    proof {
        assert(ships@.map_values(|s: Ship| s@) =~= orig.map_values(|s: ShipV| processed_ship(s)));
    }
}

/// Whether the tick releases this crane: some ship that just finished its
/// work lists it.
fn crane_freed_by(ships: &Vec<Ship>, id: CraneId) -> (r: bool)
    ensures
        r == crane_released(ships@.map_values(|s: Ship| s@), id),
{
    let ghost view = ships@.map_values(|s: Ship| s@);
    let mut i: usize = 0;
    while i < ships.len()
        invariant
            i <= ships@.len(),
            view == ships@.map_values(|s: Ship| s@),
            forall|k: int|
                0 <= k < i ==> !(completed_after(#[trigger] view[k])
                    && view[k].assigned_cranes.contains(id)),
        decreases ships@.len() - i,
    {
        let s = &ships[i];
        if s.is_docked() && s.assigned_cranes.len() > 0 && s.containers_remaining == 0
            && s.has_crane(id) {
            proof {
                assert(completed_after(view[i as int]) && view[i as int].assigned_cranes.contains(
                    id,
                ));
            }
            return true;
        }
        i = i + 1;
    }
    false
}

/// Whether the tick releases this berth: some ship that just finished its
/// work sat in it.
fn berth_freed_by(ships: &Vec<Ship>, id: BerthId) -> (r: bool)
    ensures
        r == berth_released(ships@.map_values(|s: Ship| s@), id),
{
    let ghost view = ships@.map_values(|s: Ship| s@);
    let mut i: usize = 0;
    while i < ships.len()
        invariant
            i <= ships@.len(),
            view == ships@.map_values(|s: Ship| s@),
            forall|k: int|
                0 <= k < i ==> !(completed_after(#[trigger] view[k]) && view[k].docked_at == Some(
                    id,
                )),
        decreases ships@.len() - i,
    {
        let s = &ships[i];
        let here = match s.docked_at {
            Some(b) => b.0 == id.0,
            None => false,
        };
        if s.is_docked() && s.assigned_cranes.len() > 0 && s.containers_remaining == 0 && here {
            proof {
                assert(completed_after(view[i as int]) && view[i as int].docked_at == Some(id));
            }
            return true;
        }
        i = i + 1;
    }
    false
}

/// Unassign every crane that a finishing ship was using.
fn free_released_cranes(cranes: &mut Vec<Crane>, ships: &Vec<Ship>)
    ensures
        final(cranes)@ == old(cranes)@.map_values(
            |c: Crane|
                if crane_released(ships@.map_values(|s: Ship| s@), c.id) {
                    Crane { assigned_to: None, ..c }
                } else {
                    c
                },
        ),
{
    let ghost view = ships@.map_values(|s: Ship| s@);
    let ghost orig = cranes@;
    let mut i: usize = 0;
    while i < cranes.len()
        invariant
            i <= cranes@.len(),
            cranes@.len() == orig.len(),
            view == ships@.map_values(|s: Ship| s@),
            forall|k: int|
                0 <= k < orig.len() ==> #[trigger] cranes@[k] == if k < i {
                    if crane_released(view, orig[k].id) {
                        Crane { assigned_to: None, ..orig[k] }
                    } else {
                        orig[k]
                    }
                } else {
                    orig[k]
                },
        decreases cranes@.len() - i,
    {
        let freed = crane_freed_by(ships, cranes[i].id);
        if freed {
            cranes[i].unassign();
        }
        i = i + 1;
    }
    proof {
        assert(cranes@ =~= orig.map_values(
            |c: Crane|
                if crane_released(view, c.id) {
                    Crane { assigned_to: None, ..c }
                } else {
                    c
                },
        ));
    }
}

/// Free every berth that a finishing ship was occupying.
fn free_released_berths(berths: &mut Vec<Berth>, ships: &Vec<Ship>)
    ensures
        final(berths)@ == old(berths)@.map_values(
            |b: Berth|
                if berth_released(ships@.map_values(|s: Ship| s@), b.id) {
                    Berth { occupied_by: None, ..b }
                } else {
                    b
                },
        ),
{
    let ghost view = ships@.map_values(|s: Ship| s@);
    let ghost orig = berths@;
    let mut i: usize = 0;
    while i < berths.len()
        invariant
            i <= berths@.len(),
            berths@.len() == orig.len(),
            view == ships@.map_values(|s: Ship| s@),
            forall|k: int|
                0 <= k < orig.len() ==> #[trigger] berths@[k] == if k < i {
                    if berth_released(view, orig[k].id) {
                        Berth { occupied_by: None, ..orig[k] }
                    } else {
                        orig[k]
                    }
                } else {
                    orig[k]
                },
        decreases berths@.len() - i,
    {
        let freed = berth_freed_by(ships, berths[i].id);
        if freed {
            berths[i].free();
        }
        i = i + 1;
    }
    proof {
        assert(berths@ =~= orig.map_values(
            |b: Berth|
                if berth_released(view, b.id) {
                    Berth { occupied_by: None, ..b }
                } else {
                    b
                },
        ));
    }
}

/// Drop every ship that just finished its work.
fn retain_unfinished(ships: &mut Vec<Ship>)
    ensures
        final(ships)@.map_values(|s: Ship| s@) == old(ships)@.map_values(|s: Ship| s@).filter(
            |s: ShipV| !completed_after(s),
        ),
{
    let ghost orig = ships@.map_values(|s: Ship| s@);
    let ghost pred = |s: ShipV| !completed_after(s);
    let mut kept: Vec<Ship> = Vec::new();
    let mut i: usize = 0;
    proof {
        reveal(Seq::filter);
        assert(orig.subrange(0, 0) =~= Seq::<ShipV>::empty());
        assert(kept@.map_values(|s: Ship| s@) =~= Seq::<ShipV>::empty());
    }
    while i < ships.len()
        invariant
            i <= ships@.len(),
            orig == ships@.map_values(|s: Ship| s@),
            pred == (|s: ShipV| !completed_after(s)),
            kept@.map_values(|s: Ship| s@) == orig.subrange(0, i as int).filter(pred),
        decreases ships@.len() - i,
    {
        proof {
            reveal(Seq::filter);
            assert(orig.subrange(0, i + 1).drop_last() =~= orig.subrange(0, i as int));
            assert(orig.subrange(0, i + 1).last() == orig[i as int]);
        }
        let s = &ships[i];
        let finished = s.is_docked() && s.assigned_cranes.len() > 0 && s.containers_remaining == 0;
        let ghost prev = kept@;
        if !finished {
            kept.push(ships[i].clone());
            proof {
                assert(kept@.map_values(|s: Ship| s@) =~= prev.map_values(|s: Ship| s@).push(
                    orig[i as int],
                ));
            }
        }
        i = i + 1;
    }
    proof {
        assert(orig.subrange(0, orig.len() as int) =~= orig);
    }
    *ships = kept;
}

/// The processing step, in place: work, then release cranes and berths of
/// finished ships, then drop the finished ships.
fn run_processing(state: &mut Port)
    requires
        old(state)@.wf(),
    ensures
        final(state)@ == tick(old(state)@),
        final(state)@.wf(),
{
    let ghost p0 = state@;
    work_ships(&mut state.ships);
    let ghost worked = state@.ships;
    free_released_cranes(&mut state.cranes, &state.ships);
    free_released_berths(&mut state.berths, &state.ships);
    retain_unfinished(&mut state.ships);
    proof {
        assert(worked == p0.ships.map_values(|s: ShipV| processed_ship(s)));
        assert(state@.ships == worked.filter(|s: ShipV| !completed_after(s)));
        assert(state@ == tick(p0));
        lemma_tick_wf(p0);
    }
}

impl MCTSTree {
    /// Deterministic transition of the game: apply the chosen move, then
    /// one tick of background progress (docked ships with cranes lose ten
    /// units of work per crane; finished ships free everything and leave).
    pub fn apply_action_to_state(state: &mut Port, action: &MCTSAction)
        requires
            old(state)@.wf(),
            action_legal(old(state)@, *action),
        ensures
            final(state)@ == spec_apply_action(old(state)@, *action),
            final(state)@.wf(),
    {
        let ghost p0 = state@;
        match action {
            MCTSAction::DockShip { ship_id, berth_id } => {
                if let Some(si) = state.find_ship_index(*ship_id) {
                    state.ships[si].dock(*berth_id);
                }
                proof {
                    assert forall|x: int|
                        0 <= x < p0.ships.len() implies (#[trigger] state@.ships[x]).id
                        == p0.ships[x].id by {}
                    assert(state@.distinct_ids());
                    lemma_berth_lookup_stable(p0, state@, *berth_id);
                }
                if let Some(bi) = state.find_berth_index(*berth_id) {
                    state.berths[bi].occupy(*ship_id);
                }
                state.current_time = sat_add_u64(state.current_time, 2);
                proof {
                    assert(state@.ships =~= action_phase(p0, *action).ships);
                    assert(state@.berths =~= action_phase(p0, *action).berths);
                    assert(state@ == action_phase(p0, *action));
                }
            },
            MCTSAction::AssignCrane { crane_id, ship_id } => {
                if let Some(ci) = state.find_crane_index(*crane_id) {
                    state.cranes[ci].assign(*ship_id);
                }
                proof {
                    assert forall|x: int|
                        0 <= x < p0.cranes.len() implies (#[trigger] state@.cranes[x]).id
                        == p0.cranes[x].id by {}
                    assert(state@.distinct_ids());
                    lemma_ship_lookup_stable(p0, state@, *ship_id);
                }
                if let Some(si) = state.find_ship_index(*ship_id) {
                    state.ships[si].assign_crane(*crane_id);
                }
                state.current_time = sat_add_u64(state.current_time, 2);
                proof {
                    assert(state@.ships =~= action_phase(p0, *action).ships);
                    assert(state@.cranes =~= action_phase(p0, *action).cranes);
                    assert(state@ == action_phase(p0, *action));
                }
            },
            MCTSAction::UnassignCrane { crane_id } => {
                if let Some(ci) = state.find_crane_index(*crane_id) {
                    let assigned = state.cranes[ci].assigned_to;
                    if let Some(sid) = assigned {
                        if let Some(si) = state.find_ship_index(sid) {
                            state.ships[si].unassign_crane(*crane_id);
                        }
                    }
                    proof {
                        lemma_crane_lookup_stable(p0, state@, *crane_id);
                    }
                    state.cranes[ci].unassign();
                }
                state.current_time = sat_add_u64(state.current_time, 1);
                proof {
                    assert(state@.ships =~= action_phase(p0, *action).ships);
                    assert(state@.cranes =~= action_phase(p0, *action).cranes);
                    assert(state@ == action_phase(p0, *action));
                }
            },
            MCTSAction::Pass => {
                state.current_time = sat_add_u64(state.current_time, 1);
                proof {
                    assert(state@ == action_phase(p0, *action));
                }
            },
        }
        proof {
            lemma_action_phase_wf(p0, *action);
        }
        run_processing(state);
    }
}

} // verus!

verus! {

/// Position (within `children`) of the first child whose UCB1 rank is
/// maximal among the first `j` children.
pub open spec fn best_child_upto(
    nodes: Seq<NodeV>,
    children: Seq<usize>,
    parent_visits: nat,
    c: nat,
    j: int,
) -> int
    decreases j,
{
    if j <= 1 {
        0
    } else {
        let b = best_child_upto(nodes, children, parent_visits, c, j - 1);
        if ucb_gt(
            spec_node_ucb(nodes[children[j - 1] as int], parent_visits, c),
            spec_node_ucb(nodes[children[b] as int], parent_visits, c),
        ) {
            j - 1
        } else {
            b
        }
    }
}

/// The first maximal position stays within range.
pub proof fn lemma_best_child_upto_range(
    nodes: Seq<NodeV>,
    children: Seq<usize>,
    parent_visits: nat,
    c: nat,
    j: int,
)
    requires
        j >= 1,
    ensures
        0 <= best_child_upto(nodes, children, parent_visits, c, j) < j,
    decreases j,
{
    if j > 1 {
        lemma_best_child_upto_range(nodes, children, parent_visits, c, j - 1);
    }
}

/// Where greedy UCB1 descent from node `i` ends: the first node reached,
/// always taking the first child of maximal rank, that has no children.
/// The inner guard cannot fail on a well-formed tree; it keeps the
/// recursion well-founded on any input.
pub open spec fn spec_select(nodes: Seq<NodeV>, i: int, c: nat) -> int
    decreases nodes.len() - i,
    when 0 <= i < nodes.len()
{
    let n = nodes[i];
    if n.children.len() == 0 {
        i
    } else {
        let b = best_child_upto(nodes, n.children, n.visits as nat, c, n.children.len() as int);
        if 0 <= b < n.children.len() && i < n.children[b] < nodes.len() {
            spec_select(nodes, n.children[b] as int, c)
        } else {
            i
        }
    }
}

/// Greedy descent ends at a leaf of the tree.
pub proof fn lemma_spec_select_leaf(nodes: Seq<NodeV>, i: int, c: nat)
    requires
        nodes_wf(nodes),
        0 <= i < nodes.len(),
    ensures
        0 <= spec_select(nodes, i, c) < nodes.len(),
        nodes[spec_select(nodes, i, c)].children.len() == 0,
    decreases nodes.len() - i,
{
    let n = nodes[i];
    assert(node_wf_at(nodes, i));
    if n.children.len() > 0 {
        lemma_best_child_upto_range(nodes, n.children, n.visits as nat, c, n.children.len() as int);
        let b = best_child_upto(nodes, n.children, n.visits as nat, c, n.children.len() as int);
        lemma_spec_select_leaf(nodes, n.children[b] as int, c);
    }
}

/// Whether `j` lies on the parent chain from `leaf` up to the root
/// (both ends included).
pub open spec fn on_path(nodes: Seq<NodeV>, leaf: int, j: int) -> bool
    decreases leaf,
    when leaf >= 0
{
    if leaf == j {
        true
    } else if 0 <= leaf < nodes.len() && nodes[leaf].parent is Some && 0 <= nodes[leaf].parent->0
        < leaf {
        on_path(nodes, nodes[leaf].parent->0 as int, j)
    } else {
        false
    }
}

/// Stepping from any node on a path to its parent stays on the path.
pub proof fn lemma_on_path_parent(nodes: Seq<NodeV>, leaf: int, j: int)
    requires
        0 <= leaf,
        on_path(nodes, leaf, j),
        0 <= j < nodes.len(),
        nodes[j].parent is Some,
        0 <= nodes[j].parent->0 < j,
    ensures
        on_path(nodes, leaf, nodes[j].parent->0 as int),
    decreases leaf,
{
    if leaf == j {
        assert(on_path(nodes, nodes[j].parent->0 as int, nodes[j].parent->0 as int));
    } else {
        lemma_on_path_parent(nodes, nodes[leaf].parent->0 as int, j);
    }
}

/// A path never climbs to a higher index: parents sit strictly below
/// their children in the arena.
pub proof fn lemma_on_path_le(nodes: Seq<NodeV>, leaf: int, j: int)
    requires
        0 <= leaf,
        on_path(nodes, leaf, j),
    ensures
        j <= leaf,
    decreases leaf,
{
    if leaf != j {
        lemma_on_path_le(nodes, nodes[leaf].parent->0 as int, j);
    }
}

/// A node with one more visit and `s` more accumulated score.
pub open spec fn bumped(n: NodeV, s: int) -> NodeV {
    NodeV { visits: (n.visits + 1) as usize, total_score: (n.total_score + s) as i128, ..n }
}

/// The whole arena after one backpropagation from `leaf`: every node on
/// the path to the root is bumped, everything else is untouched.
pub open spec fn bp_model(nodes: Seq<NodeV>, leaf: int, s: int) -> Seq<NodeV> {
    Seq::new(
        nodes.len(),
        |j: int|
            if on_path(nodes, leaf, j) {
                bumped(nodes[j], s)
            } else {
                nodes[j]
            },
    )
}

/// Position (within `children`) of the first child with the most visits
/// among the first `j` children.
pub open spec fn robust_child_upto(nodes: Seq<NodeV>, children: Seq<usize>, j: int) -> int
    decreases j,
{
    if j <= 1 {
        0
    } else {
        let b = robust_child_upto(nodes, children, j - 1);
        if nodes[children[j - 1] as int].visits > nodes[children[b] as int].visits {
            j - 1
        } else {
            b
        }
    }
}

/// The most-visited position stays within range.
pub proof fn lemma_robust_child_upto_range(nodes: Seq<NodeV>, children: Seq<usize>, j: int)
    requires
        j >= 1,
    ensures
        0 <= robust_child_upto(nodes, children, j) < j,
    decreases j,
{
    if j > 1 {
        lemma_robust_child_upto_range(nodes, children, j - 1);
    }
}

impl MCTSTree {
    /// Walks from the root toward the leaves, at every step moving to the
    /// child with the highest UCB1 rank (first child wins ties), and
    /// returns the first node without children.
    pub fn select_ucb1(&self, exploration_constant: u32) -> (r: usize)
        requires
            self@.wf(),
            self@.root_id == Some(0usize),
        ensures
            r < self@.nodes.len(),
            self@.nodes[r as int].children.len() == 0,
            r == spec_select(self@.nodes, 0, exploration_constant as nat),
    {
        let ghost nodes = self@.nodes;
        let ghost c = exploration_constant as nat;
        let mut current: usize = 0;
        proof {
            lemma_spec_select_leaf(nodes, 0, c);
        }
        while self.nodes[current].children.len() > 0
            invariant
                self@.wf(),
                nodes == self@.nodes,
                c == exploration_constant as nat,
                current < nodes.len(),
                spec_select(nodes, current as int, c) == spec_select(nodes, 0, c),
            decreases nodes.len() - current,
        {
            let node = &self.nodes[current];
            let parent_visits = node.visits;
            let ghost ch = node@.children;
            proof {
                assert(node_wf_at(nodes, current as int));
                assert(node_wf_at(nodes, ch[0] as int));
            }
            let mut best: usize = 0;
            let mut best_val = self.nodes[node.children[0]].ucb1(
                parent_visits,
                exploration_constant,
            );
            let mut j: usize = 1;
            proof {
                assert(best_val == spec_node_ucb(nodes[ch[0] as int], parent_visits as nat, c));
            }
            while j < node.children.len()
                invariant
                    nodes_wf(nodes),
                    nodes == self@.nodes,
                    c == exploration_constant as nat,
                    current < nodes.len(),
                    node == self.nodes@[current as int],
                    ch == node@.children,
                    node_wf_at(nodes, current as int),
                    parent_visits == node.visits,
                    1 <= j <= ch.len(),
                    best < ch.len(),
                    best as int == best_child_upto(nodes, ch, parent_visits as nat, c, j as int),
                    best_val == spec_node_ucb(nodes[ch[best as int] as int], parent_visits as nat, c),
                decreases ch.len() - j,
            {
                proof {
                    assert(node_wf_at(nodes, current as int));
                    assert(node_wf_at(nodes, ch[j as int] as int));
                }
                let child_id = node.children[j];
                let val = self.nodes[child_id].ucb1(parent_visits, exploration_constant);
                proof {
                    assert(val == spec_node_ucb(nodes[ch[j as int] as int], parent_visits as nat, c));
                }
                if ucb_gt_exec(val, best_val) {
                    best = j;
                    best_val = val;
                }
                j = j + 1;
            }
            let next = node.children[best];
            proof {
                assert(best as int == best_child_upto(
                    nodes,
                    ch,
                    parent_visits as nat,
                    c,
                    ch.len() as int,
                ));
                assert(current < next < nodes.len());
                assert(spec_select(nodes, current as int, c) == spec_select(nodes, next as int, c));
            }
            current = next;
        }
        current
    }

    /// Adds one visit and `score` to every node from `node_id` up to the
    /// root, both included; no other node changes.
    #[verifier::spinoff_prover]
    pub fn backpropagate(&mut self, node_id: usize, score: i64)
        requires
            old(self)@.wf(),
            node_id < old(self)@.nodes.len(),
            -SCORE_BOUND <= score <= SCORE_BOUND,
            forall|j: int|
                0 <= j < old(self)@.nodes.len() ==> (#[trigger] old(self)@.nodes[j]).visits
                    < usize::MAX,
        ensures
            final(self)@.nodes == bp_model(old(self)@.nodes, node_id as int, score as int),
            final(self)@.root_id == old(self)@.root_id,
            final(self)@.wf(),
    {
        let ghost nodes0 = self@.nodes;
        let mut current: usize = node_id;
        proof {
            assert(on_path(nodes0, node_id as int, node_id as int));
        }
        loop
            invariant_except_break
                current < nodes0.len(),
                on_path(nodes0, node_id as int, current as int),
                // Everything strictly below `current` on the path from
                // node_id is already bumped; the rest is untouched.
                forall|j: int|
                    #![trigger self@.nodes[j]]
                    #![trigger on_path(nodes0, node_id as int, j)]
                    0 <= j < nodes0.len() ==> self@.nodes[j] == if on_path(
                        nodes0,
                        node_id as int,
                        j,
                    ) && !on_path(nodes0, current as int, j) {
                        bumped(nodes0[j], score as int)
                    } else {
                        nodes0[j]
                    },
                forall|j: int|
                    #![trigger on_path(nodes0, node_id as int, j)]
                    0 <= j < nodes0.len() ==> (on_path(nodes0, node_id as int, j) && !on_path(
                        nodes0,
                        current as int,
                        j,
                    ) ==> j > current),
            invariant
                self@.root_id == old(self)@.root_id,
                self@.nodes.len() == nodes0.len(),
                nodes_wf(nodes0),
                forall|j: int|
                    0 <= j < nodes0.len() ==> (#[trigger] nodes0[j]).visits < usize::MAX,
                -SCORE_BOUND <= score <= SCORE_BOUND,
                node_id < nodes0.len(),
            ensures
                forall|j: int|
                    0 <= j < nodes0.len() ==> #[trigger] self@.nodes[j] == if on_path(
                        nodes0,
                        node_id as int,
                        j,
                    ) {
                        bumped(nodes0[j], score as int)
                    } else {
                        nodes0[j]
                    },
                self@.nodes.len() == nodes0.len(),
                self@.root_id == old(self)@.root_id,
            decreases current,
        {
            proof {
                assert(node_wf_at(nodes0, current as int));
                assert(self@.nodes[current as int] == nodes0[current as int]);
                assert(nodes0[current as int].stats_wf());
                assert((nodes0[current as int].visits as int + 1) * (SCORE_BOUND as int) == (
                nodes0[current as int].visits as int) * (SCORE_BOUND as int) + SCORE_BOUND as int)
                    by (nonlinear_arith);
            }
            let parent = self.nodes[current].parent;
            self.nodes[current].visits = self.nodes[current].visits + 1;
            self.nodes[current].total_score = self.nodes[current].total_score + score as i128;
            proof {
                assert(self@.nodes[current as int] == bumped(nodes0[current as int], score as int));
                assert forall|j: int|
                    0 <= j < nodes0.len() && on_path(nodes0, current as int, j) && j != current
                    implies on_path(nodes0, nodes0[current as int].parent->0 as int, j) by {}
            }
            match parent {
                Some(parent_id) => {
                    proof {
                        assert(0 <= parent_id < current);
                        lemma_on_path_parent(nodes0, node_id as int, current as int);
                        assert(on_path(nodes0, parent_id as int, parent_id as int));
                        if on_path(nodes0, parent_id as int, current as int) {
                            lemma_on_path_le(nodes0, parent_id as int, current as int);
                        }
                        assert(!on_path(nodes0, parent_id as int, current as int));
                        assert forall|j: int|
                            0 <= j < nodes0.len() && on_path(nodes0, current as int, j) && j
                            != current implies on_path(nodes0, parent_id as int, j) by {}
                        assert forall|j: int|
                            0 <= j < nodes0.len() && on_path(nodes0, parent_id as int, j)
                            implies on_path(nodes0, current as int, j) by {}
                        assert forall|j: int|
                            #![trigger self@.nodes[j]]
                            #![trigger on_path(nodes0, node_id as int, j)]
                            0 <= j < nodes0.len() implies self@.nodes[j] == if on_path(
                            nodes0,
                            node_id as int,
                            j,
                        ) && !on_path(nodes0, parent_id as int, j) {
                            bumped(nodes0[j], score as int)
                        } else {
                            nodes0[j]
                        } by {
                            if j == current {
                                assert(on_path(nodes0, node_id as int, j));
                                assert(!on_path(nodes0, parent_id as int, j));
                            } else if on_path(nodes0, node_id as int, j) && !on_path(
                                nodes0,
                                parent_id as int,
                                j,
                            ) {
                                assert(!on_path(nodes0, current as int, j));
                                assert(self@.nodes[j] == bumped(nodes0[j], score as int));
                            } else {
                                if on_path(nodes0, node_id as int, j) {
                                    assert(on_path(nodes0, current as int, j) || self@.nodes[j]
                                        == nodes0[j]);
                                }
                            }
                        }
                        assert forall|j: int|
                            #![trigger on_path(nodes0, node_id as int, j)]
                            0 <= j < nodes0.len() && on_path(nodes0, node_id as int, j)
                            && !on_path(nodes0, parent_id as int, j) implies j > parent_id by {
                            if j != current {
                                assert(!on_path(nodes0, current as int, j));
                            }
                        }
                    }
                    current = parent_id;
                },
                None => {
                    proof {
                        assert(current == 0) by {
                            if current > 0 {
                                assert(node_wf_at(nodes0, current as int));
                            }
                        }
                        assert forall|j: int|
                            0 <= j < nodes0.len() && on_path(nodes0, 0, j) implies j == 0 by {}
                        assert forall|j: int|
                            0 <= j < nodes0.len() implies #[trigger] self@.nodes[j] == if on_path(
                            nodes0,
                            node_id as int,
                            j,
                        ) {
                            bumped(nodes0[j], score as int)
                        } else {
                            nodes0[j]
                        } by {}
                    }
                    break ;
                },
            }
        }
        proof {
            assert(self@.nodes =~= bp_model(nodes0, node_id as int, score as int));
            // Well-formedness survives: only visit counts and score sums
            // changed, and the statistics stay within their bound.
            assert forall|i: int| 0 <= i < self@.nodes.len() implies #[trigger] node_wf_at(
                self@.nodes,
                i,
            ) by {
                assert(node_wf_at(nodes0, i));
                assert forall|k: int| 0 <= k < self@.nodes[i].children.len() implies {
                    let ch = (#[trigger] self@.nodes[i].children[k]) as int;
                    &&& i < ch < self@.nodes.len()
                    &&& self@.nodes[ch].parent == Some(i as usize)
                    &&& self@.nodes[ch].depth == self@.nodes[i].depth + 1
                } by {
                    let ch = self@.nodes[i].children[k] as int;
                    assert(self@.nodes[i].children == nodes0[i].children);
                    assert(i < ch < nodes0.len());
                }
                if on_path(nodes0, node_id as int, i) {
                    let n0 = nodes0[i];
                    assert((n0.visits as int + 1) * (SCORE_BOUND as int) == (n0.visits as int) * (
                    SCORE_BOUND as int) + SCORE_BOUND as int) by (nonlinear_arith);
                }
            }
        }
    }

    /// The recommended move: the action of the root child with the most
    /// visits (robust-child selection; the earliest such child wins ties),
    /// or nothing when the root has no children.
    pub fn best_action(&self) -> (r: Option<MCTSAction>)
        requires
            self@.wf(),
        ensures
            self@.root_id is None ==> r is None,
            self@.root_id == Some(0usize) ==> {
                let ch = self@.nodes[0].children;
                &&& (r is None <==> ch.len() == 0)
                &&& (ch.len() > 0 ==> r == self@.nodes[ch[robust_child_upto(
                    self@.nodes,
                    ch,
                    ch.len() as int,
                )] as int].action)
            },
    {
        let root_id = match self.root_id {
            Some(id) => id,
            None => {
                return None;
            },
        };
        let root = &self.nodes[root_id];
        if root.children.len() == 0 {
            return None;
        }
        let ghost nodes = self@.nodes;
        let ghost ch = root@.children;
        proof {
            assert(node_wf_at(nodes, 0));
        }
        let mut best: usize = 0;
        let mut best_visits: usize = self.nodes[root.children[0]].visits;
        let mut j: usize = 1;
        while j < root.children.len()
            invariant
                self@.wf(),
                nodes == self@.nodes,
                self.root_id == Some(0usize),
                root == self.nodes@[0],
                ch == root@.children,
                node_wf_at(nodes, 0),
                1 <= j <= ch.len(),
                best < ch.len(),
                best as int == robust_child_upto(nodes, ch, j as int),
                best_visits == nodes[ch[best as int] as int].visits,
            decreases ch.len() - j,
        {
            let child_id = root.children[j];
            let visits = self.nodes[child_id].visits;
            if visits > best_visits {
                best = j;
                best_visits = visits;
            }
            j = j + 1;
        }
        let best_child = root.children[best];
        proof {
            assert(node_wf_at(nodes, best_child as int));
            assert(best_child > 0);
        }
        self.nodes[best_child].action
    }
}

} // verus!

verus! {

/// Every element of a flat map comes from some row.
proof fn lemma_flat_map_elem<A, B>(s: Seq<A>, f: spec_fn(A) -> Seq<B>, x: B)
    requires
        s.flat_map(f).contains(x),
    ensures
        exists|i: int| 0 <= i < s.len() && (#[trigger] f(s[i])).contains(x),
    decreases s.len(),
{
    if s.len() == 0 {
        assert(s.map_values(f) =~= Seq::<Seq<B>>::empty());
        assert(Seq::<Seq<B>>::empty().flatten() =~= Seq::<B>::empty());
    } else {
        let rest = s.drop_last();
        let last = s.last();
        rest.lemma_flat_map_push(f, last);
        assert(rest.push(last) =~= s);
        assert(s.flat_map(f) == rest.flat_map(f) + f(last));
        let w = choose|w: int| 0 <= w < s.flat_map(f).len() && s.flat_map(f)[w] == x;
        if w < rest.flat_map(f).len() {
            assert(rest.flat_map(f).contains(x));
            lemma_flat_map_elem(rest, f, x);
            let i = choose|i: int| 0 <= i < rest.len() && (#[trigger] f(rest[i])).contains(x);
            assert(f(s[i]).contains(x));
        } else {
            assert(f(last).contains(x));
            assert(f(s[s.len() - 1]).contains(x));
        }
    }
}

/// Everything the generator proposes is legal in the port it was
/// generated from.
pub proof fn lemma_generated_actions_legal(p: PortV)
    requires
        p.wf(),
    ensures
        forall|t: int|
            0 <= t < spec_generate_actions(p).len() ==> action_legal(
                p,
                #[trigger] spec_generate_actions(p)[t],
            ),
{
    broadcast use vstd::prelude::Seq::lemma_filter_contains_rev;
    broadcast use vstd::prelude::Seq::lemma_filter_pred;

    let drow = |s: ShipV| dock_row(s, p.free_berths_v());
    let arow = |c: Crane| assign_row(c, p.docked());
    let dock = p.waiting().flat_map(drow);
    let assign = p.free_cranes_v().flat_map(arow);
    let all = dock + assign;
    assert forall|t: int| 0 <= t < spec_generate_actions(p).len() implies action_legal(
        p,
        #[trigger] spec_generate_actions(p)[t],
    ) by {
        if all.len() == 0 {
            assert(spec_generate_actions(p)[t] == MCTSAction::Pass);
        } else {
            let a = all[t];
            if t < dock.len() {
                assert(dock.contains(a));
                lemma_flat_map_elem(p.waiting(), drow, a);
                let i = choose|i: int|
                    0 <= i < p.waiting().len() && (#[trigger] drow(p.waiting()[i])).contains(a);
                let s = p.waiting()[i];
                let row = dock_row(s, p.free_berths_v());
                let j = choose|j: int| 0 <= j < row.len() && row[j] == a;
                let b = p.free_berths_v()[j];
                assert(a == MCTSAction::DockShip { ship_id: s.id, berth_id: b.id });
                // The ship is a waiting ship of the port.
                assert(p.waiting().contains(s));
                assert(p.ships.contains(s));
                let si = choose|si: int| 0 <= si < p.ships.len() && p.ships[si] == s;
                assert(p.has_ship(s.id));
                let w = p.ship_index(s.id);
                if w != si {
                    assert(p.ships[w].id != p.ships[si].id);
                }
                assert(p.ship_of(s.id) == s);
                assert(!s.is_docked());
                // The berth is a free berth of the port.
                assert(p.free_berths_v().contains(b));
                assert(p.berths.contains(b));
                let bi = choose|bi: int| 0 <= bi < p.berths.len() && p.berths[bi] == b;
                assert(p.has_berth(b.id));
                let wb = p.berth_index(b.id);
                if wb != bi {
                    assert(p.berths[wb].id != p.berths[bi].id);
                }
                assert(p.berth_of(b.id) == b);
                assert(b.occupied_by is None);
            } else {
                let a2 = assign[t - dock.len()];
                assert(a == a2);
                assert(assign.contains(a));
                lemma_flat_map_elem(p.free_cranes_v(), arow, a);
                let i = choose|i: int|
                    0 <= i < p.free_cranes_v().len() && (#[trigger] arow(
                        p.free_cranes_v()[i],
                    )).contains(a);
                let cr = p.free_cranes_v()[i];
                let row = assign_row(cr, p.docked());
                let j = choose|j: int| 0 <= j < row.len() && row[j] == a;
                let s = p.docked()[j];
                assert(a == MCTSAction::AssignCrane { crane_id: cr.id, ship_id: s.id });
                // The crane is a free crane of the port.
                assert(p.free_cranes_v().contains(cr));
                assert(p.cranes.contains(cr));
                let ci = choose|ci: int| 0 <= ci < p.cranes.len() && p.cranes[ci] == cr;
                assert(p.has_crane(cr.id));
                let wc = p.crane_index(cr.id);
                if wc != ci {
                    assert(p.cranes[wc].id != p.cranes[ci].id);
                }
                assert(p.crane_of(cr.id) == cr);
                assert(cr.assigned_to is None);
                // The ship is a docked ship of the port.
                assert(p.docked().contains(s));
                assert(p.ships.contains(s));
                let si = choose|si: int| 0 <= si < p.ships.len() && p.ships[si] == s;
                assert(p.has_ship(s.id));
                let w = p.ship_index(s.id);
                if w != si {
                    assert(p.ships[w].id != p.ships[si].id);
                }
                assert(p.ship_of(s.id) == s);
                assert(s.is_docked());
            }
        }
    }
}

/// What full-width expansion does to the arena: one child per generated
/// action appended at the end, the expanded node now listing them, and the
/// first child handed back.
pub open spec fn expand_post(old_nodes: Seq<NodeV>, i: int, new_nodes: Seq<NodeV>, r: int) -> bool {
    let acts = spec_generate_actions(old_nodes[i].state);
    let base = old_nodes.len() as int;
    &&& new_nodes.len() == base + acts.len()
    &&& (forall|j: int| 0 <= j < base && j != i ==> new_nodes[j] == old_nodes[j])
    &&& new_nodes[i] == (NodeV {
        children: Seq::new(acts.len(), |t: int| (base + t) as usize),
        ..old_nodes[i]
    })
    &&& (forall|t: int|
        0 <= t < acts.len() ==> new_nodes[base + t] == (NodeV {
            state: spec_apply_action(old_nodes[i].state, acts[t]),
            action: Some(acts[t]),
            parent: Some(i as usize),
            children: Seq::empty(),
            visits: 0,
            total_score: 0,
            depth: (old_nodes[i].depth + 1) as usize,
        }))
    &&& r == base
}

impl MCTSTree {
    /// Full-width expansion. A node at the depth cap is left untouched and
    /// handed back (the cap defines an implicit terminal state); otherwise
    /// one child per generated action is created, each owning a fresh
    /// clone of the parent's snapshot with that action applied, and the
    /// first child is returned for the simulation phase.
    pub fn expand(&mut self, node_id: usize, max_depth: usize) -> (r: usize)
        requires
            old(self)@.wf(),
            node_id < old(self)@.nodes.len(),
            old(self)@.nodes[node_id as int].children.len() == 0,
        ensures
            final(self)@.wf(),
            final(self)@.root_id == old(self)@.root_id,
            r < final(self)@.nodes.len(),
            final(self)@.nodes.len() >= old(self)@.nodes.len(),
            old(self)@.nodes[node_id as int].depth >= max_depth ==> final(self)@ == old(self)@
                && r == node_id,
            old(self)@.nodes[node_id as int].depth < max_depth ==> expand_post(
                old(self)@.nodes,
                node_id as int,
                final(self)@.nodes,
                r as int,
            ),
    {
        let ghost nodes0 = self@.nodes;
        let state = self.nodes[node_id].state.clone();
        let depth = self.nodes[node_id].depth;
        if depth >= max_depth {
            return node_id;
        }
        let ghost p0 = nodes0[node_id as int].state;
        let actions = self.generate_actions(&state);
        let ghost acts = spec_generate_actions(p0);
        proof {
            assert(node_wf_at(nodes0, node_id as int));
            assert(acts == actions@);
            lemma_generated_actions_legal(p0);
        }
        if actions.len() == 0 {
            return node_id;
        }
        let ghost base = nodes0.len() as int;
        let mut child_ids: Vec<usize> = Vec::new();
        let mut t: usize = 0;
        while t < actions.len()
            invariant
                t <= actions@.len(),
                actions@ == acts,
                acts == spec_generate_actions(p0),
                state@ == p0,
                p0.wf(),
                forall|u: int|
                    0 <= u < acts.len() ==> action_legal(p0, #[trigger] acts[u]),
                node_id < nodes0.len(),
                nodes0[node_id as int].depth == depth,
                depth < max_depth,
                self@.nodes.len() == nodes0.len() + t,
                self@.root_id == old(self)@.root_id,
                forall|j: int| 0 <= j < nodes0.len() ==> self@.nodes[j] == nodes0[j],
                child_ids@.len() == t,
                forall|u: int| 0 <= u < t ==> child_ids@[u] == nodes0.len() + u,
                forall|u: int|
                    0 <= u < t ==> self@.nodes[nodes0.len() + u] == (NodeV {
                        state: spec_apply_action(p0, acts[u]),
                        action: Some(acts[u]),
                        parent: Some(node_id),
                        children: Seq::empty(),
                        visits: 0,
                        total_score: 0,
                        depth: (depth + 1) as usize,
                    }),
            decreases actions@.len() - t,
        {
            let action = actions[t];
            let mut new_state = state.clone();
            MCTSTree::apply_action_to_state(&mut new_state, &action);
            let child = MCTSNode::new(new_state, Some(action), Some(node_id), depth + 1);
            let child_id = self.nodes.len();
            self.nodes.push(child);
            child_ids.push(child_id);
            t = t + 1;
        }
        self.nodes[node_id].children = child_ids;
        let r = if actions.len() > 0 {
            let ghost newn = self@.nodes;
            proof {
                assert(newn.len() == base + acts.len());
                assert(newn[node_id as int] == (NodeV {
                    children: Seq::new(acts.len(), |u: int| (base + u) as usize),
                    ..nodes0[node_id as int]
                })) by {
                    assert(newn[node_id as int].children =~= Seq::new(
                        acts.len(),
                        |u: int| (base + u) as usize,
                    ));
                }
                assert(expand_post(nodes0, node_id as int, newn, base));
                // The new arena stays well-formed.
                assert forall|i: int| 0 <= i < newn.len() implies #[trigger] node_wf_at(
                    newn,
                    i,
                ) by {
                    if i < base {
                        assert(node_wf_at(nodes0, i));
                        if i == node_id {
                            assert forall|k: int| 0 <= k < newn[i].children.len() implies {
                                let ch = (#[trigger] newn[i].children[k]) as int;
                                &&& i < ch < newn.len()
                                &&& newn[ch].parent == Some(i as usize)
                                &&& newn[ch].depth == newn[i].depth + 1
                            } by {
                                assert(newn[i].children[k] == (base + k) as usize);
                                assert(newn[base + k] == (NodeV {
                                    state: spec_apply_action(p0, acts[k]),
                                    action: Some(acts[k]),
                                    parent: Some(node_id),
                                    children: Seq::empty(),
                                    visits: 0,
                                    total_score: 0,
                                    depth: (depth + 1) as usize,
                                }));
                            }
                        } else {
                            assert(newn[i] == nodes0[i]);
                            assert forall|k: int| 0 <= k < newn[i].children.len() implies {
                                let ch = (#[trigger] newn[i].children[k]) as int;
                                &&& i < ch < newn.len()
                                &&& newn[ch].parent == Some(i as usize)
                                &&& newn[ch].depth == newn[i].depth + 1
                            } by {
                                let ch = newn[i].children[k] as int;
                                assert(nodes0[i].children[k] == newn[i].children[k]);
                                assert(ch < base);
                                if ch == node_id {
                                    assert(newn[ch].parent == nodes0[ch].parent);
                                    assert(newn[ch].depth == nodes0[ch].depth);
                                }
                            }
                        }
                    } else {
                        let u = i - base;
                        assert(newn[i] == (NodeV {
                            state: spec_apply_action(p0, acts[u]),
                            action: Some(acts[u]),
                            parent: Some(node_id),
                            children: Seq::empty(),
                            visits: 0,
                            total_score: 0,
                            depth: (depth + 1) as usize,
                        }));
                        lemma_action_phase_wf(p0, acts[u]);
                        lemma_tick_wf(action_phase(p0, acts[u]));
                        assert(newn[i].state.wf());
                        assert(newn[i].stats_wf()) by {
                            assert((0int) * (SCORE_BOUND as int) == 0) by (nonlinear_arith);
                        }
                    }
                }
            }
            self.nodes.len() - actions.len()
        } else {
            node_id
        };
        r
    }
}

} // verus!

verus! {

/// Sum of a sequence of scores.
pub open spec fn sum_scores(s: Seq<int>) -> int
    decreases s.len(),
{
    if s.len() == 0 {
        0
    } else {
        s[0] + sum_scores(s.subrange(1, s.len() as int))
    }
}

/// The arena after a whole series of backpropagations from the same leaf.
pub open spec fn bp_many(nodes: Seq<NodeV>, leaf: int, scores: Seq<int>) -> Seq<NodeV>
    decreases scores.len(),
{
    if scores.len() == 0 {
        nodes
    } else {
        bp_many(bp_model(nodes, leaf, scores[0]), leaf, scores.subrange(1, scores.len() as int))
    }
}

/// Paths only depend on the parent links, which backpropagation never
/// touches.
proof fn lemma_on_path_congruence(n1: Seq<NodeV>, n2: Seq<NodeV>, leaf: int, j: int)
    requires
        0 <= leaf,
        n1.len() == n2.len(),
        forall|i: int| 0 <= i < n1.len() ==> (#[trigger] n2[i]).parent == n1[i].parent,
    ensures
        on_path(n1, leaf, j) == on_path(n2, leaf, j),
    decreases leaf,
{
    if leaf != j && 0 <= leaf < n1.len() && n1[leaf].parent is Some && 0 <= n1[leaf].parent->0
        < leaf {
        lemma_on_path_congruence(n1, n2, n1[leaf].parent->0 as int, j);
    }
}

/// Backpropagating scores `s1 .. sN` from one leaf, one call after the
/// other, raises the visit count of every node on the path from that leaf
/// to the root (both included) by exactly `N` and its score sum by exactly
/// `s1 + .. + sN`, and leaves every other node untouched.
pub proof fn lemma_backpropagate_many(nodes: Seq<NodeV>, leaf: int, scores: Seq<int>)
    requires
        0 <= leaf < nodes.len(),
        forall|j: int| 0 <= j < nodes.len() ==> (#[trigger] nodes[j]).stats_wf(),
        forall|j: int|
            0 <= j < nodes.len() ==> (#[trigger] nodes[j]).visits + scores.len()
                <= usize::MAX,
        forall|t: int|
            0 <= t < scores.len() ==> -(SCORE_BOUND as int) <= #[trigger] scores[t]
                <= SCORE_BOUND as int,
    ensures
        bp_many(nodes, leaf, scores).len() == nodes.len(),
        forall|j: int|
            0 <= j < nodes.len() ==> #[trigger] bp_many(nodes, leaf, scores)[j] == if on_path(
                nodes,
                leaf,
                j,
            ) {
                (NodeV {
                    visits: (nodes[j].visits + scores.len()) as usize,
                    total_score: (nodes[j].total_score + sum_scores(scores)) as i128,
                    ..nodes[j]
                })
            } else {
                nodes[j]
            },
        forall|j: int|
            0 <= j < nodes.len() ==> (#[trigger] bp_many(nodes, leaf, scores)[j]).stats_wf(),
    decreases scores.len(),
{
    if scores.len() == 0 {
        assert forall|j: int| 0 <= j < nodes.len() implies (#[trigger] bp_many(
            nodes,
            leaf,
            scores,
        )[j]) == if on_path(nodes, leaf, j) {
            (NodeV {
                visits: (nodes[j].visits + scores.len()) as usize,
                total_score: (nodes[j].total_score + sum_scores(scores)) as i128,
                ..nodes[j]
            })
        } else {
            nodes[j]
        } by {
            if on_path(nodes, leaf, j) {
                assert((nodes[j].visits + 0) as usize == nodes[j].visits);
                assert((nodes[j].total_score + 0) as i128 == nodes[j].total_score);
            }
        }
    } else {
        let s0 = scores[0];
        let rest = scores.subrange(1, scores.len() as int);
        let m1 = bp_model(nodes, leaf, s0);
        assert(m1.len() == nodes.len());
        // One step bumps the path by one visit and `s0` score.
        assert forall|j: int| 0 <= j < nodes.len() implies {
            &&& (#[trigger] m1[j]).parent == nodes[j].parent
            &&& m1[j].stats_wf()
            &&& m1[j].visits + rest.len() <= usize::MAX
            &&& m1[j] == if on_path(nodes, leaf, j) {
                (NodeV {
                    visits: (nodes[j].visits + 1) as usize,
                    total_score: (nodes[j].total_score + s0) as i128,
                    ..nodes[j]
                })
            } else {
                nodes[j]
            }
        } by {
            if on_path(nodes, leaf, j) {
                let n = nodes[j];
                assert(n.visits + 1 <= usize::MAX);
                assert((n.visits as int + 1) * (SCORE_BOUND as int) == (n.visits as int) * (
                SCORE_BOUND as int) + SCORE_BOUND as int) by (nonlinear_arith);
            }
        }
        lemma_backpropagate_many(m1, leaf, rest);
        assert forall|j: int| 0 <= j < nodes.len() implies on_path(m1, leaf, j) == on_path(
            nodes,
            leaf,
            j,
        ) by {
            lemma_on_path_congruence(nodes, m1, leaf, j);
        }
        assert(bp_many(nodes, leaf, scores) == bp_many(m1, leaf, rest));
        assert forall|j: int| 0 <= j < nodes.len() implies (#[trigger] bp_many(
            nodes,
            leaf,
            scores,
        )[j]) == if on_path(nodes, leaf, j) {
            (NodeV {
                visits: (nodes[j].visits + scores.len()) as usize,
                total_score: (nodes[j].total_score + sum_scores(scores)) as i128,
                ..nodes[j]
            })
        } else {
            nodes[j]
        } by {
            if on_path(nodes, leaf, j) {
                assert(bp_many(m1, leaf, rest)[j] == (NodeV {
                    visits: (m1[j].visits + rest.len()) as usize,
                    total_score: (m1[j].total_score + sum_scores(rest)) as i128,
                    ..m1[j]
                }));
                assert(sum_scores(scores) == s0 + sum_scores(rest));
            }
        }
    }
}

} // verus!

verus! {

/// A flat map whose rows all share one length has the product length.
proof fn lemma_flat_map_const_len<A, B>(s: Seq<A>, f: spec_fn(A) -> Seq<B>, m: nat)
    requires
        forall|i: int| 0 <= i < s.len() ==> (#[trigger] f(s[i])).len() == m,
    ensures
        s.flat_map(f).len() == s.len() * m,
    decreases s.len(),
{
    if s.len() == 0 {
        assert(s.map_values(f) =~= Seq::<Seq<B>>::empty());
        assert(Seq::<Seq<B>>::empty().flatten() =~= Seq::<B>::empty());
        assert(s.len() * m == 0) by (nonlinear_arith)
            requires
                s.len() == 0,
        ;
    } else {
        let rest = s.drop_last();
        let last = s.last();
        rest.lemma_flat_map_push(f, last);
        assert(rest.push(last) =~= s);
        lemma_flat_map_const_len(rest, f, m);
        assert(s.flat_map(f).len() == rest.len() * m + m);
        assert(rest.len() * m + m == s.len() * m) by (nonlinear_arith)
            requires
                rest.len() + 1 == s.len(),
        ;
    }
}

/// Every element of a flat map satisfies what every row element does.
proof fn lemma_flat_map_all<A, B>(s: Seq<A>, f: spec_fn(A) -> Seq<B>, pred: spec_fn(B) -> bool)
    requires
        forall|i: int, j: int|
            0 <= i < s.len() && 0 <= j < (#[trigger] f(s[i])).len() ==> pred(#[trigger] f(s[i])[j]),
    ensures
        forall|t: int| 0 <= t < s.flat_map(f).len() ==> pred(#[trigger] s.flat_map(f)[t]),
    decreases s.len(),
{
    if s.len() == 0 {
        assert(s.map_values(f) =~= Seq::<Seq<B>>::empty());
        assert(Seq::<Seq<B>>::empty().flatten() =~= Seq::<B>::empty());
    } else {
        let rest = s.drop_last();
        let last = s.last();
        rest.lemma_flat_map_push(f, last);
        assert(rest.push(last) =~= s);
        lemma_flat_map_all(rest, f, pred);
        assert forall|t: int| 0 <= t < s.flat_map(f).len() implies pred(
            #[trigger] s.flat_map(f)[t],
        ) by {
            if t < rest.flat_map(f).len() {
                assert(s.flat_map(f)[t] == rest.flat_map(f)[t]);
            } else {
                assert(s.flat_map(f)[t] == f(last)[t - rest.flat_map(f).len()]);
                assert(f(s[s.len() - 1]) == f(last));
            }
        }
    }
}

/// The block of docking moves the generator builds first.
pub open spec fn dock_block(p: PortV) -> Seq<MCTSAction> {
    p.waiting().flat_map(|s: ShipV| dock_row(s, p.free_berths_v()))
}

/// The block of crane moves the generator builds second.
pub open spec fn assign_block(p: PortV) -> Seq<MCTSAction> {
    p.free_cranes_v().flat_map(|c: Crane| assign_row(c, p.docked()))
}

/// The block of docking moves: one per waiting ship and free berth.
proof fn lemma_dock_block(p: PortV)
    ensures
        dock_block(p).len() == p.waiting().len() * p.free_berths_v().len(),
        forall|t: int| 0 <= t < dock_block(p).len() ==> (#[trigger] dock_block(p)[t]) is DockShip,
{
    let w = p.waiting();
    let fb = p.free_berths_v();
    let drow = |s: ShipV| dock_row(s, fb);
    assert forall|i: int| 0 <= i < w.len() implies (#[trigger] drow(w[i])).len() == fb.len() by {}
    lemma_flat_map_const_len(w, drow, fb.len());
    lemma_flat_map_all(w, drow, |a: MCTSAction| a is DockShip);
}

/// The block of crane moves: one per free crane and docked ship.
proof fn lemma_assign_block(p: PortV)
    ensures
        assign_block(p).len() == p.free_cranes_v().len() * p.docked().len(),
        forall|t: int|
            0 <= t < assign_block(p).len() ==> (#[trigger] assign_block(p)[t]) is AssignCrane,
{
    let fc = p.free_cranes_v();
    let d = p.docked();
    let arow = |c: Crane| assign_row(c, d);
    assert forall|i: int| 0 <= i < fc.len() implies (#[trigger] arow(fc[i])).len() == d.len() by {}
    lemma_flat_map_const_len(fc, arow, d.len());
    lemma_flat_map_all(fc, arow, |a: MCTSAction| a is AssignCrane);
}

/// Exhaustiveness of the generator: exactly one `DockShip` per pair of a
/// waiting ship and a free berth (their product), then exactly one
/// `AssignCrane` per pair of a free crane and a docked ship; `Pass` stands
/// alone exactly when both products are empty, so in particular a port
/// with no waiting-ship/free-berth pair and no free-crane/docked-ship pair
/// offers `Pass` and nothing else.
/// Exhaustiveness of the generator: the move list is exactly one block of
/// `DockShip` moves — one per pair of a waiting ship and a free berth, so
/// exactly `W * B` of them — followed by one block of `AssignCrane` moves,
/// one per pair of a free crane and a docked ship; and it is the single
/// move `Pass` exactly when both blocks are empty.
#[verifier::spinoff_prover]
pub proof fn lemma_generate_actions_shape(p: PortV)
    ensures
        spec_generate_actions(p) == if dock_block(p).len() + assign_block(p).len() == 0 {
            seq![MCTSAction::Pass]
        } else {
            dock_block(p) + assign_block(p)
        },
        dock_block(p).len() == p.waiting().len() * p.free_berths_v().len(),
        assign_block(p).len() == p.free_cranes_v().len() * p.docked().len(),
        forall|t: int| 0 <= t < dock_block(p).len() ==> (#[trigger] dock_block(p)[t]) is DockShip,
        forall|t: int|
            0 <= t < assign_block(p).len() ==> (#[trigger] assign_block(p)[t]) is AssignCrane,
        (p.waiting().len() * p.free_berths_v().len() + p.free_cranes_v().len() * p.docked().len()
            == 0) <==> spec_generate_actions(p) == seq![MCTSAction::Pass],
        spec_generate_actions(p).len() >= 1,
{
    lemma_dock_block(p);
    lemma_assign_block(p);
    let dock = dock_block(p);
    let assign = assign_block(p);
    let all = dock + assign;
    if all.len() == 0 {
        assert(spec_generate_actions(p) == seq![MCTSAction::Pass]);
    } else {
        assert(spec_generate_actions(p) == all);
        assert(all[0] is DockShip || all[0] is AssignCrane) by {
            if dock.len() > 0 {
                assert(all[0] == dock[0]);
            } else {
                assert(all[0] == assign[0]);
            }
        }
        assert(spec_generate_actions(p) != seq![MCTSAction::Pass]) by {
            assert(seq![MCTSAction::Pass][0] == MCTSAction::Pass);
        }
    }
}

/// Docking a ship takes the berth off the market: regenerating the move
/// list right after applying `DockShip(s, b)` never offers `DockShip(s, b)`
/// again (the ship is no longer waiting, or has already finished and left).
pub proof fn lemma_dock_not_reoffered(p: PortV, ship_id: ShipId, berth_id: BerthId)
    requires
        p.wf(),
        action_legal(p, MCTSAction::DockShip { ship_id, berth_id }),
    ensures
        !spec_generate_actions(
            spec_apply_action(p, MCTSAction::DockShip { ship_id, berth_id }),
        ).contains(MCTSAction::DockShip { ship_id, berth_id }),
{
    broadcast use vstd::prelude::Seq::lemma_filter_contains_rev;
    broadcast use vstd::prelude::Seq::lemma_filter_pred;

    let a = MCTSAction::DockShip { ship_id, berth_id };
    let q1 = action_phase(p, a);
    let q = spec_apply_action(p, a);
    let si = p.ship_index(ship_id);
    let worked = q1.ships.map_values(|s: ShipV| processed_ship(s));
    lemma_action_phase_wf(p, a);
    lemma_tick_wf(q1);

    // In the port after the move, no waiting ship carries the docked
    // ship's id: the ship is either docked or gone.
    assert forall|i: int| 0 <= i < q.waiting().len() implies (#[trigger] q.waiting()[i]).id
        != ship_id by {
        let s = q.waiting()[i];
        assert(q.waiting().contains(s));
        assert(!s.is_docked());
        assert(q.ships.contains(s));
        assert(worked.contains(s));
        let m = choose|m: int| 0 <= m < worked.len() && worked[m] == s;
        if s.id == ship_id {
            assert(q1.ships[m].id == ship_id);
            if m != si {
                assert(q1.ships[m].id != q1.ships[si].id);
            }
            assert(q1.ships[si].docked_at == Some(berth_id));
            assert(worked[si].docked_at == Some(berth_id));
        }
    }
    if spec_generate_actions(q).contains(a) {
        let dq = |s: ShipV| dock_row(s, q.free_berths_v());
        let aq = |c: Crane| assign_row(c, q.docked());
        let dock = q.waiting().flat_map(dq);
        let assign = q.free_cranes_v().flat_map(aq);
        let all = dock + assign;
        if all.len() == 0 {
            assert(spec_generate_actions(q) == seq![MCTSAction::Pass]);
            assert(spec_generate_actions(q)[0] == MCTSAction::Pass);
        } else {
            let t = choose|t: int|
                0 <= t < spec_generate_actions(q).len() && spec_generate_actions(q)[t] == a;
            if t < dock.len() {
                assert(dock.contains(a));
                lemma_flat_map_elem(q.waiting(), dq, a);
                let i = choose|i: int|
                    0 <= i < q.waiting().len() && (#[trigger] dq(q.waiting()[i])).contains(a);
                let row = dock_row(q.waiting()[i], q.free_berths_v());
                let j = choose|j: int| 0 <= j < row.len() && row[j] == a;
                assert(q.waiting()[i].id == ship_id);
            } else {
                assert(assign[t - dock.len()] == a);
                assert(assign.contains(a));
                lemma_flat_map_elem(q.free_cranes_v(), aq, a);
                let i = choose|i: int|
                    0 <= i < q.free_cranes_v().len() && (#[trigger] aq(
                        q.free_cranes_v()[i],
                    )).contains(a);
                let row = assign_row(q.free_cranes_v()[i], q.docked());
                let j = choose|j: int| 0 <= j < row.len() && row[j] == a;
            }
        }
    }
}

} // verus!
