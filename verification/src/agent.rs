//! Nodes of the market.

use vstd::prelude::*;

use crate::gcounter::NodeId;
use crate::net::{drawn_net, net_draws, TritNet};
use crate::pheromone::{level, readable, Gradient, PheromoneMap, Pheromones};
use crate::rank::{Rank, NAN, ONE, ZERO};
use crate::rng::{stream, Rng};

verus! {

/// The tokens that a node starts with.
pub const STARTING_TOKENS: i64 = 100;

/// What an agent holds.
#[verifier::ext_equal]
pub struct AgentState {
    pub id: NodeId,
    pub utilization: Rank,
    pub token_balance: i64,
    pub pheromones: Pheromones,
    pub strategy: Seq<Seq<Seq<int>>>,
    pub neighbors: Seq<NodeId>,
}

/// `number`, or the nearer end of [0, 1] where it is outside. What is not a number stays so.
pub open spec fn clamped(number: Rank) -> Rank {
    if number < ZERO {
        ZERO
    } else if number > ONE && number != NAN {
        ONE
    } else {
        number
    }
}

/// An agent whose strategy is drawn from the state `start`.
pub open spec fn drawn_agent(id: NodeId, utilization: Rank, start: u64) -> AgentState {
    AgentState {
        id,
        utilization: clamped(utilization),
        token_balance: STARTING_TOKENS,
        pheromones: Pheromones::empty(),
        strategy: drawn_net(start),
        neighbors: Seq::empty(),
    }
}

/// A load from 0 to 1 is kept as it is, and what is not a number too. A load below becomes
/// 0, and a load above becomes 1.
pub proof fn law_loads_within_range_are_kept(number: Rank)
    ensures
        0 <= number <= 0x3F80_0000 ==> clamped(number) == number,
        number < 0 ==> clamped(number) == 0,
        0x3F80_0000 < number < 0x7FFF_FFFF ==> clamped(number) == 0x3F80_0000,
        number == 0x7FFF_FFFF ==> clamped(number) == number,
{
}

/// A new agent has its name, 100 tokens, no neighbors, has heard of nobody, and its strategy
/// is the network that is drawn next.
pub proof fn law_new_agent(id: NodeId, utilization: Rank, start: u64, node: NodeId)
    ensures
        drawn_agent(id, utilization, start).id == id,
        drawn_agent(id, utilization, start).utilization == clamped(utilization),
        drawn_agent(id, utilization, start).token_balance == 100,
        drawn_agent(id, utilization, start).neighbors.len() == 0,
        drawn_agent(id, utilization, start).strategy == drawn_net(start),
        !drawn_agent(id, utilization, start).pheromones.demand.contains_key(node),
        !drawn_agent(id, utilization, start).pheromones.supply.contains_key(node),
{
}

impl AgentState {
    /// The levels that the agent decides by fit a machine word.
    pub open spec fn readable(self) -> bool {
        self.neighbors.len() > 0 ==> {
            &&& level(self.pheromones.demand, self.id) <= u64::MAX
            &&& level(self.pheromones.supply, self.id) <= u64::MAX
            &&& readable(self.pheromones.demand, self.neighbors)
            &&& readable(self.pheromones.supply, self.neighbors)
        }
    }
}

/// An agent with neighbors can read whatever levels fit a machine word, and one without
/// neighbors has nothing to read.
pub proof fn law_agents_can_read(agent: AgentState)
    ensures
        agent.readable() <==> agent.neighbors.len() == 0 || {
            &&& level(agent.pheromones.demand, agent.id) <= u64::MAX
            &&& level(agent.pheromones.supply, agent.id) <= u64::MAX
            &&& forall|k: int|
                0 <= k < agent.neighbors.len() ==> level(
                    agent.pheromones.demand,
                    #[trigger] agent.neighbors[k],
                ) <= u64::MAX
            &&& forall|k: int|
                0 <= k < agent.neighbors.len() ==> level(
                    agent.pheromones.supply,
                    #[trigger] agent.neighbors[k],
                ) <= u64::MAX
        },
{
}

/// What an agent decides by. The inputs of its strategy network are computed from it.
#[derive(Debug, PartialEq, Eq)]
pub struct Readings {
    pub utilization: Rank,
    pub demand: Gradient,
    pub supply: Gradient,
    pub token_balance: i64,
}

/// Autonomous GPU agent: owns utilization state, a pheromone replica, a ternary strategy,
/// and a token balance for economic settlement.
pub struct Agent {
    pub id: NodeId,
    pub utilization: Rank,
    pub token_balance: i64,
    pub pheromone_map: PheromoneMap,
    pub strategy: TritNet,
    pub neighbors: Vec<NodeId>,
}

impl View for Agent {
    type V = AgentState;

    open spec fn view(&self) -> AgentState {
        AgentState {
            id: self.id,
            utilization: self.utilization,
            token_balance: self.token_balance,
            pheromones: self.pheromone_map@,
            strategy: self.strategy@,
            neighbors: self.neighbors@,
        }
    }
}

impl Agent {
    /// What an agent holds is what its fields hold.
    pub proof fn law_what_an_agent_holds(&self)
        ensures
            self@.id == self.id,
            self@.utilization == self.utilization,
            self@.token_balance == self.token_balance,
            self@.pheromones == self.pheromone_map@,
            self@.strategy == self.strategy@,
            self@.neighbors == self.neighbors@,
    {
    }

    /// An agent without neighbors that has heard of nobody.
    pub fn new(id: NodeId, utilization: Rank, rng: &mut Rng) -> (agent: Self)
        ensures
            agent@ == drawn_agent(id, utilization, old(rng)@),
            final(rng)@ == stream(old(rng)@, net_draws()),
    {
        let within: Rank = if utilization < ZERO {
            ZERO
        } else if utilization > ONE && utilization != NAN {
            ONE
        } else {
            utilization
        };
        Agent {
            id,
            utilization: within,
            token_balance: STARTING_TOKENS,
            pheromone_map: PheromoneMap::default(),
            strategy: TritNet::random(rng),
            neighbors: Vec::new(),
        }
    }

    /// What the agent decides by.
    pub fn readings(&self) -> (readings: Readings)
        requires
            self@.readable(),
        ensures
            readings.utilization == self.utilization,
            readings.demand.reads(self@.pheromones.demand, self.id, self.neighbors@),
            readings.supply.reads(self@.pheromones.supply, self.id, self.neighbors@),
            readings.token_balance == self.token_balance,
    {
        Readings {
            utilization: self.utilization,
            demand: self.pheromone_map.demand_gradient(self.id, self.neighbors.as_slice()),
            supply: self.pheromone_map.supply_gradient(self.id, self.neighbors.as_slice()),
            token_balance: self.token_balance,
        }
    }
}

} // verus!
