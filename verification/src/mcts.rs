//! Monte Carlo tree search engine: select, expand, simulate and
//! backpropagate for a configured simulation budget, then recommend the
//! most-visited root move.

pub mod actions;
pub mod simulation;
pub mod tree;

pub use actions::MCTSAction;
pub use tree::{MCTSNode, MCTSTree};

use vstd::prelude::*;

use crate::domain::aggregates::Port;
use crate::mcts::tree::{
    expand_post, lemma_generated_actions_legal, lemma_robust_child_upto_range, robust_child_upto,
    spec_generate_actions, NodeV, SCORE_BOUND,
};

verus! {

/// Engine configuration.
#[derive(Debug, Clone, Copy, PartialEq, Eq, Structural)]
pub struct MCTSConfig {
    /// How many select/expand/simulate/backpropagate rounds one search runs.
    pub num_simulations: usize,
    /// UCB1 exploration constant in thousandths; 1410 approximates the
    /// conventional square root of two.
    pub exploration_constant: u32,
    /// Depth cap for both the tree and the random playouts.
    pub max_depth: usize,
    /// Reserved for future turn budgeting; the core loop does not read it.
    pub max_actions_per_turn: usize,
}

impl Default for MCTSConfig {
    fn default() -> (r: Self)
        ensures
            r == (MCTSConfig {
                num_simulations: 1000,
                exploration_constant: 1410,
                max_depth: 50,
                max_actions_per_turn: 1,
            }),
    {
        MCTSConfig {
            num_simulations: 1000,
            exploration_constant: 1410,
            max_depth: 50,
            max_actions_per_turn: 1,
        }
    }
}

/// Telemetry about one finished search; not part of the decision contract.
#[derive(Debug, Clone, Copy, PartialEq, Eq, Structural)]
pub struct MCTSStatistics {
    pub simulations_performed: usize,
    pub total_nodes: usize,
    pub max_depth_reached: usize,
}

/// The search engine: one configuration and one arena, rebuilt per search.
#[derive(Debug)]
pub struct MCTSEngine {
    pub config: MCTSConfig,
    pub tree: MCTSTree,
}

impl MCTSEngine {
    pub fn new(config: MCTSConfig) -> (r: Self)
        ensures
            r.config == config,
            r.tree@.nodes.len() == 0,
            r.tree@.root_id is None,
    {
        MCTSEngine { config, tree: MCTSTree::new() }
    }

    /// Runs the full search on a snapshot of the port and returns the
    /// recommended move: `None` exactly when the budget or the depth cap
    /// is zero (the root then never grows children), otherwise the action
    /// of the most-visited root child, which is always one of the moves
    /// the generator offers on the given snapshot.
    pub fn search(&mut self, port: &Port) -> (r: Option<MCTSAction>)
        requires
            port@.wf(),
        ensures
            final(self).config == old(self).config,
            final(self).tree@.wf(),
            r is None <==> (old(self).config.num_simulations == 0 || old(self).config.max_depth
                == 0),
            r is Some ==> spec_generate_actions(port@).contains(r->0),
    {
        let ghost acts = spec_generate_actions(port@);
        proof {
            assert(acts.len() >= 1);
        }
        self.tree.init_root(port.clone());
        let mut k: usize = 0;
        while k < self.config.num_simulations
            invariant
                self.config == old(self).config,
                self.tree@.wf(),
                self.tree@.root_id == Some(0usize),
                self.tree@.nodes.len() >= 1,
                self.tree@.nodes[0].state == port@,
                acts == spec_generate_actions(port@),
                acts.len() >= 1,
                k <= self.config.num_simulations,
                forall|j: int|
                    0 <= j < self.tree@.nodes.len() ==> (#[trigger] self.tree@.nodes[j]).visits
                        <= k,
                self.config.max_depth == 0 ==> self.tree@.nodes[0].children.len() == 0,
                k == 0 ==> self.tree@.nodes[0].children.len() == 0,
                (k >= 1 && self.config.max_depth >= 1) ==> self.tree@.nodes[0].children.len()
                    == acts.len(),
                forall|t: int|
                    0 <= t < self.tree@.nodes[0].children.len() ==> {
                        let ch = (#[trigger] self.tree@.nodes[0].children[t]) as int;
                        &&& ch < self.tree@.nodes.len()
                        &&& self.tree@.nodes[ch].action == Some(acts[t])
                    },
            decreases self.config.num_simulations - k,
        {
            let ghost pre = self.tree@.nodes;
            // 1. Selection: walk the tree by UCB1 down to a leaf.
            let node_id = self.select();
            // 2. Expansion: materialize one child per legal action.
            proof {
                assert(tree::node_wf_at(pre, 0));
                if pre[0].children.len() == 0 {
                    assert(node_id == 0) by {
                        assert(tree::spec_select(
                            pre,
                            0,
                            self.config.exploration_constant as nat,
                        ) == 0);
                    }
                }
            }
            let expand_id = self.expand(node_id, port);
            let total = self.tree.node_count();
            proof {
                if pre[node_id as int].depth < self.config.max_depth {
                    assert(expand_post(
                        pre,
                        node_id as int,
                        self.tree@.nodes,
                        expand_id as int,
                    ));
                    if node_id == 0 {
                        assert(pre[0].state == port@);
                        assert(self.tree@.nodes[0].children.len() == acts.len());
                    }
                    assert forall|t: int|
                        0 <= t < self.tree@.nodes[0].children.len() implies {
                        let ch = (#[trigger] self.tree@.nodes[0].children[t]) as int;
                        &&& ch < self.tree@.nodes.len()
                        &&& self.tree@.nodes[ch].action == Some(acts[t])
                    } by {
                        let ch = self.tree@.nodes[0].children[t] as int;
                        if node_id == 0 {
                            assert(self.tree@.nodes[0].children[t] == (pre.len() + t) as usize);
                            assert(pre.len() + t < total);
                            assert(ch == pre.len() + t);
                            assert(self.tree@.nodes[pre.len() + t].action == Some(acts[t]));
                        } else {
                            assert(self.tree@.nodes[0].children == pre[0].children);
                            assert(ch < pre.len());
                            if ch == node_id as int {
                                assert(self.tree@.nodes[ch].action == pre[ch].action);
                            }
                        }
                    }
                    if self.config.max_depth == 0 {
                        assert(pre[node_id as int].depth >= self.config.max_depth);
                    }
                }
            }
            let ghost mid = self.tree@.nodes;
            proof {
                // After expansion every old node kept its statistics and
                // each new child starts unvisited.
                assert forall|j: int| 0 <= j < mid.len() implies (#[trigger] mid[j]).visits
                    <= k by {
                    if pre[node_id as int].depth < self.config.max_depth {
                        assert(expand_post(pre, node_id as int, mid, expand_id as int));
                        if j < pre.len() {
                            if j == node_id as int {
                                assert(mid[j].visits == pre[j].visits);
                            }
                        } else {
                            let t = j - pre.len();
                            let gacts = spec_generate_actions(pre[node_id as int].state);
                            assert(mid.len() == pre.len() + gacts.len());
                            assert(0 <= t < gacts.len());
                            assert(mid[pre.len() + t] == (NodeV {
                                state: tree::spec_apply_action(
                                    pre[node_id as int].state,
                                    gacts[t],
                                ),
                                action: Some(gacts[t]),
                                parent: Some(node_id),
                                children: Seq::empty(),
                                visits: 0,
                                total_score: 0,
                                depth: (pre[node_id as int].depth + 1) as usize,
                            }));
                        }
                    }
                }
                assert(self.tree@.nodes[0].state == port@) by {
                    if pre[node_id as int].depth < self.config.max_depth {
                        if node_id == 0 {
                            assert(mid[0].state == pre[0].state);
                        }
                    }
                }
            }
            // 3. Simulation: one random playout from the expanded node.
            let score = self.simulate(expand_id);
            // 4. Backpropagation: push the score up to the root.
            self.backpropagate(expand_id, score);
            proof {
                assert forall|j: int|
                    0 <= j < self.tree@.nodes.len() implies (#[trigger] self.tree@.nodes[j]).visits
                    <= k + 1 by {
                    assert(self.tree@.nodes[j] == tree::bp_model(
                        mid,
                        expand_id as int,
                        score as int,
                    )[j]);
                }
                assert(self.tree@.nodes[0].state == mid[0].state);
                assert forall|t: int|
                    0 <= t < self.tree@.nodes[0].children.len() implies {
                    let ch = (#[trigger] self.tree@.nodes[0].children[t]) as int;
                    &&& ch < self.tree@.nodes.len()
                    &&& self.tree@.nodes[ch].action == Some(acts[t])
                } by {
                    assert(self.tree@.nodes[0].children == mid[0].children);
                    let ch = self.tree@.nodes[0].children[t] as int;
                    assert(self.tree@.nodes[ch].action == mid[ch].action);
                }
            }
            k = k + 1;
        }
        let r = self.tree.best_action();
        proof {
            let ch = self.tree@.nodes[0].children;
            if self.config.num_simulations >= 1 && self.config.max_depth >= 1 {
                assert(ch.len() == acts.len());
                lemma_robust_child_upto_range(self.tree@.nodes, ch, ch.len() as int);
                let b = robust_child_upto(self.tree@.nodes, ch, ch.len() as int);
                assert(self.tree@.nodes[ch[b] as int].action == Some(acts[b]));
                assert(r == Some(acts[b]));
                assert(spec_generate_actions(port@).contains(acts[b]));
            }
        }
        r
    }

    /// Selection phase: greedy UCB1 descent from the root.
    fn select(&self) -> (r: usize)
        requires
            self.tree@.wf(),
            self.tree@.root_id == Some(0usize),
        ensures
            r < self.tree@.nodes.len(),
            self.tree@.nodes[r as int].children.len() == 0,
            r == tree::spec_select(
                self.tree@.nodes,
                0,
                self.config.exploration_constant as nat,
            ),
    {
        self.tree.select_ucb1(self.config.exploration_constant)
    }

    /// Expansion phase; the port argument mirrors the engine's surface and
    /// is not read, since each node owns its snapshot.
    fn expand(&mut self, node_id: usize, _port: &Port) -> (r: usize)
        requires
            old(self).tree@.wf(),
            node_id < old(self).tree@.nodes.len(),
            old(self).tree@.nodes[node_id as int].children.len() == 0,
        ensures
            final(self).config == old(self).config,
            final(self).tree@.wf(),
            final(self).tree@.root_id == old(self).tree@.root_id,
            r < final(self).tree@.nodes.len(),
            final(self).tree@.nodes.len() >= old(self).tree@.nodes.len(),
            old(self).tree@.nodes[node_id as int].depth >= old(self).config.max_depth
                ==> final(self).tree@ == old(self).tree@ && r == node_id,
            old(self).tree@.nodes[node_id as int].depth < old(self).config.max_depth
                ==> expand_post(
                old(self).tree@.nodes,
                node_id as int,
                final(self).tree@.nodes,
                r as int,
            ),
    {
        self.tree.expand(node_id, self.config.max_depth)
    }

    /// Simulation phase: a random playout from the node's snapshot down to
    /// the depth cap, scored with a small symmetric noise term that breaks
    /// ties without biasing the mean.
    fn simulate(&self, node_id: usize) -> (r: i64)
        requires
            self.tree@.wf(),
            node_id < self.tree@.nodes.len(),
        ensures
            -SCORE_BOUND <= r <= SCORE_BOUND,
    {
        let mut sim_state = self.tree.get_state(node_id).clone();
        let mut depth = self.tree.node_depth(node_id);
        proof {
            assert(tree::node_wf_at(self.tree@.nodes, node_id as int));
        }
        while depth < self.config.max_depth
            invariant
                sim_state@.wf(),
                depth <= usize::MAX,
            ensures
                sim_state@.wf(),
            decreases self.config.max_depth - depth,
        {
            let actions = self.tree.generate_actions(&sim_state);
            if actions.len() == 0 {
                break ;
            }
            let idx = crate::utils::random::range_usize(0, actions.len());
            let action = actions[idx];
            proof {
                lemma_generated_actions_legal(sim_state@);
                assert(tree::action_legal(sim_state@, action));
            }
            MCTSTree::apply_action_to_state(&mut sim_state, &action);
            depth = depth + 1;
        }
        let score = sim_state.calculate_score();
        let noise_raw = crate::utils::random::range_usize_inclusive(0, 10);
        let noise: i64 = noise_raw as i64 - 5;
        score as i64 + noise
    }

    /// Backpropagation phase: one more visit and the playout score for
    /// every node from the leaf up to the root.
    fn backpropagate(&mut self, node_id: usize, score: i64)
        requires
            old(self).tree@.wf(),
            node_id < old(self).tree@.nodes.len(),
            -SCORE_BOUND <= score <= SCORE_BOUND,
            forall|j: int|
                0 <= j < old(self).tree@.nodes.len() ==> (#[trigger] old(
                    self,
                ).tree@.nodes[j]).visits < usize::MAX,
        ensures
            final(self).config == old(self).config,
            final(self).tree@.wf(),
            final(self).tree@.root_id == old(self).tree@.root_id,
            final(self).tree@.nodes == tree::bp_model(
                old(self).tree@.nodes,
                node_id as int,
                score as int,
            ),
    {
        self.tree.backpropagate(node_id, score)
    }

    /// Borrow of the whole search tree, for inspection.
    pub fn get_tree(&self) -> (r: &MCTSTree)
        ensures
            r@ == self.tree@,
    {
        &self.tree
    }

    /// Borrow of the engine configuration.
    pub fn config(&self) -> (r: &MCTSConfig)
        ensures
            *r == self.config,
    {
        &self.config
    }

    /// Telemetry of the last search: budget, arena size and deepest level.
    pub fn get_statistics(&self) -> (r: MCTSStatistics)
        ensures
            r.simulations_performed == self.config.num_simulations,
            r.total_nodes == self.tree@.nodes.len(),
            forall|i: int|
                0 <= i < self.tree@.nodes.len() ==> (#[trigger] self.tree@.nodes[i]).depth
                    <= r.max_depth_reached,
            self.tree@.nodes.len() == 0 ==> r.max_depth_reached == 0,
    {
        MCTSStatistics {
            simulations_performed: self.config.num_simulations,
            total_nodes: self.tree.node_count(),
            max_depth_reached: self.tree.max_depth(),
        }
    }
}

} // verus!
