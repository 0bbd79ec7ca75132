//! A ternary pheromone market: nodes on a ring balance their load without a scheduler.
//!
//! Each node is an agent that emits demand and supply pheromones into grow-only counters,
//! gossips what it knows to its two neighbors, and lets a ternary strategy network decide
//! whether to hand out work, to take work or to idle. Tokens pay for migrations: they are
//! moved, never made or destroyed.
//!
//! - `gcounter` and `pheromone`: the replicated counters, and the laws of merging them
//! - `trit`, `rng` and `net`: ternary weights, where they are drawn from, and the networks
//! - `rank`: how single-precision loads and scores enter the decisions
//! - `agent` and `fleet`: the nodes, the ring, emission and gossip
//! - `market` and `settlement`: who hands work to whom, and how it is paid for
//! - `gossip` and `soundness`: what rounds of gossip achieve and what every tick keeps
//! - `history`: what any number of ticks keeps

pub mod agent;
pub mod fleet;
pub mod gcounter;
pub mod gossip;
pub mod history;
pub mod market;
pub mod net;
pub mod pheromone;
pub mod rank;
pub mod rng;
pub mod settlement;
pub mod soundness;
pub mod trit;

pub use agent::{Agent, Readings};
pub use fleet::{Fleet, Signal};
pub use gcounter::{GCounter, NodeId};
pub use market::{Forecast, Migration};
pub use net::{Action, Term, TritLayer, TritNet};
pub use pheromone::{Gradient, PheromoneMap};
pub use rank::Rank;
pub use rng::Rng;
pub use trit::Trit;
