//! Simulation helpers. Playouts are currently run by the engine itself;
//! this type is the seam where richer playout policies would plug in.

use vstd::prelude::*;

verus! {

/// Placeholder policy object for the playout phase.
#[derive(Debug, Clone, Copy, PartialEq, Eq, Structural)]
pub struct Simulator;

impl Simulator {
    pub fn new() -> (r: Self)
        ensures
            r == (Simulator {  }),
    {
        Simulator
    }
}

impl Default for Simulator {
    fn default() -> (r: Self)
        ensures
            r == (Simulator {  }),
    {
        Simulator::new()
    }
}

} // verus!
