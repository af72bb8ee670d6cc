//! Turn-based port-management game with a Monte Carlo tree search opponent.
//!
//! The heart of the crate is the search engine in [`mcts`]: an arena-based
//! search tree over cloneable port snapshots, UCB1 selection in fixed-point
//! arithmetic, full-width expansion, random playouts and backpropagation.
//! The [`domain`] module holds the port snapshot itself (ships, berths,
//! cranes) together with its state transitions.

pub mod application;
pub mod cli;
pub mod domain;
pub mod game;
pub mod mcts;
pub mod numeric;
pub mod utils;

pub use application::commands::Command;
pub use application::queries::Query;
pub use domain::events::PortEvent;
