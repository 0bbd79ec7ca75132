//! Fleets of agents on a ring, and the ticks of the market.

use vstd::arithmetic::div_mod::{
    lemma_mod_add_multiples_vanish, lemma_mod_self_0, lemma_small_mod,
};
use vstd::prelude::*;

use crate::agent::{drawn_agent, Agent, AgentState};
use crate::gcounter::{slot, NodeId};
use crate::net::{drawn_net, net_draws};
use crate::pheromone::{emitted, law_emission_adds, trail, PheromoneMap, Pheromones};
use crate::rank::{fraction_rank, law_fraction_below_one, Rank, LOWEST, NAN};
use crate::rng::{lemma_stream_adds, seeded, stream, Rng};

verus! {

/// What a fleet holds.
#[verifier::ext_equal]
pub struct FleetState {
    pub agents: Seq<AgentState>,
    pub tick: u64,
}

/// The neighbors at position `i` of a ring of `n` nodes: the one before it and the one
/// after it.
pub open spec fn ring(i: int, n: int) -> Seq<NodeId> {
    seq![((i + n - 1) % n) as NodeId, ((i + 1) % n) as NodeId]
}

/// On a ring of at least three nodes the two neighbors of a node are distinct and not the
/// node itself, and a node is a neighbor of its neighbors.
pub proof fn law_ring_topology(i: int, j: int, n: int)
    requires
        3 <= n <= usize::MAX,
        0 <= i < n,
        0 <= j < n,
    ensures
        ring(i, n).len() == 2,
        ring(i, n)[0] != i,
        ring(i, n)[1] != i,
        ring(i, n)[0] != ring(i, n)[1],
        ring(i, n).contains(j as NodeId) <==> ring(j, n).contains(i as NodeId),
{
    lemma_ring(i, n);
    lemma_ring(j, n);
    let a = ring(i, n);
    let b = ring(j, n);
    if a.contains(j as NodeId) {
        assert(a[0] == j || a[1] == j);
        assert(b[0] == i || b[1] == i);
    }
    if b.contains(i as NodeId) {
        assert(b[0] == i || b[1] == i);
        assert(a[0] == j || a[1] == j);
    }
}

/// The state of the generator from which the agent at position `i` is drawn. An agent
/// takes a draw for its load and the draws of its network.
pub open spec fn agent_start(seed: u64, i: nat) -> u64 {
    stream(seeded(seed), 77 * i)
}

/// Going around a ring, the node before the first is the last, and the node after the
/// last is the first.
pub proof fn lemma_ring(i: int, n: int)
    requires
        0 <= i < n,
    ensures
        (i + n - 1) % n == if i == 0 {
            n - 1
        } else {
            i - 1
        },
        (i + 1) % n == if i + 1 == n {
            0
        } else {
            i + 1
        },
{
    if i == 0 {
        lemma_small_mod((n - 1) as nat, n as nat);
    } else {
        lemma_mod_add_multiples_vanish(i - 1, n);
        lemma_small_mod((i - 1) as nat, n as nat);
    }
    if i + 1 == n {
        lemma_mod_self_0(n);
    } else {
        lemma_small_mod((i + 1) as nat, n as nat);
    }
}

/// The agent at position `i` of a fleet of `n` that is drawn from `seed`.
pub open spec fn fleet_agent(n: int, seed: u64, i: int) -> AgentState {
    let load = stream(agent_start(seed, i as nat), 1);
    AgentState {
        neighbors: ring(i, n),
        ..drawn_agent(i as NodeId, fraction_rank((load >> 11) as nat) as Rank, load)
    }
}

/// A fleet of `n` agents that is drawn from `seed`.
pub open spec fn drawn_fleet(n: nat, seed: u64) -> FleetState {
    FleetState { agents: Seq::new(n, |i: int| fleet_agent(n as int, seed, i)), tick: 0 }
}

/// All agents are drawn from one running generator: the first from the state that the seed
/// gives, and every further one from the state that the agent before it left behind after
/// a draw for its load and the draws of its network.
pub proof fn law_agents_are_drawn_one_after_the_other(seed: u64, i: nat)
    ensures
        agent_start(seed, 0) == seed | 1,
        agent_start(seed, i + 1) == stream(agent_start(seed, i), 1 + 76),
        agent_start(seed, i) == stream(seed | 1, 77 * i),
{
    lemma_stream_adds(seeded(seed), 77 * i, 77);
}

/// A new fleet has as many agents as asked for, and no tick behind it. The agent at each
/// position is named after it and sits between the one before and the one after. Its load
/// comes from the first word that is drawn for it, and its strategy from the 76 words after
/// that. It has 100 tokens and has heard of nobody.
pub proof fn law_new_fleet(n: nat, seed: u64, i: int, node: NodeId)
    requires
        0 <= i < n <= usize::MAX,
    ensures
        ({
            let fleet = drawn_fleet(n, seed);
            let agent = fleet.agents[i];
            let word = stream(seed | 1, (77 * i + 1) as nat);
            &&& fleet.agents.len() == n
            &&& fleet.tick == 0
            &&& agent.id == i
            &&& agent.utilization == fraction_rank((word / 2048) as nat)
            &&& agent.strategy == drawn_net(word)
            &&& agent.token_balance == 100
            &&& agent.neighbors.len() == 2
            &&& agent.neighbors[0] == if i == 0 {
                n - 1
            } else {
                i - 1
            }
            &&& agent.neighbors[1] == if i == n - 1 {
                0
            } else {
                i + 1
            }
            &&& !agent.pheromones.demand.contains_key(node)
            &&& !agent.pheromones.supply.contains_key(node)
        }),
{
    let word = stream(agent_start(seed, i as nat), 1);
    lemma_stream_adds(seeded(seed), 77 * i as nat, 1);
    assert(word >> 11 == word / 2048) by (bit_vector);
    law_fraction_below_one((word >> 11) as nat);
    lemma_ring(i, n as int);
}

/// What an agent signals in a tick.
#[derive(Debug, Clone, Copy, PartialEq, Eq)]
pub struct Signal {
    pub demand: u64,
    pub supply: u64,
}

impl AgentState {
    /// The slots that the agent signals in have room for `signal`.
    pub open spec fn can_emit(self, signal: Signal) -> bool {
        &&& slot(trail(self.pheromones.demand, self.id), self.id) + signal.demand <= u64::MAX
        &&& slot(trail(self.pheromones.supply, self.id), self.id) + signal.supply <= u64::MAX
    }

    /// The agent after it signalled.
    pub open spec fn emitted(self, signal: Signal) -> AgentState {
        AgentState {
            pheromones: Pheromones {
                demand: emitted(self.pheromones.demand, self.id, signal.demand),
                supply: emitted(self.pheromones.supply, self.id, signal.supply),
            },
            ..self
        }
    }

    /// The agent after it heard what `nodes` knew when `fleet` was taken.
    pub open spec fn heard(self, fleet: Seq<AgentState>, nodes: Seq<NodeId>) -> AgentState {
        AgentState { pheromones: heard(self.pheromones, fleet, nodes), ..self }
    }
}

/// An agent can signal whatever its own slots have room for.
pub proof fn law_room_for_a_signal(agent: AgentState, signal: Signal)
    ensures
        agent.can_emit(signal) <==> {
            let id = agent.id;
            let demand = agent.pheromones.demand;
            let supply = agent.pheromones.supply;
            &&& demand.contains_key(id) && demand[id].contains_key(id) ==> demand[id][id]
                + signal.demand <= u64::MAX
            &&& supply.contains_key(id) && supply[id].contains_key(id) ==> supply[id][id]
                + signal.supply <= u64::MAX
        },
{
}

/// `own`, merged with what each of `nodes` knows in `fleet`.
pub open spec fn heard(own: Pheromones, fleet: Seq<AgentState>, nodes: Seq<NodeId>) -> Pheromones
    decreases nodes.len(),
{
    if nodes.len() == 0 {
        own
    } else {
        heard(own, fleet, nodes.drop_last()).merged(fleet[nodes.last() as int].pheromones)
    }
}

/// Every neighbor is a position in the fleet.
pub open spec fn linked(agents: Seq<AgentState>) -> bool {
    forall|i: int, k: int|
        0 <= i < agents.len() && 0 <= k < agents[i].neighbors.len()
            ==> #[trigger] agents[i].neighbors[k] < agents.len()
}

/// A fleet is linked where every neighbor of every agent is a position in it.
pub proof fn law_links(agents: Seq<AgentState>)
    ensures
        linked(agents) <==> forall|i: int, k: int|
            0 <= i < agents.len() && 0 <= k < agents[i].neighbors.len()
                ==> #[trigger] agents[i].neighbors[k] < agents.len(),
{
}

/// The sum of the token balances.
pub open spec fn tokens(agents: Seq<AgentState>) -> int
    decreases agents.len(),
{
    if agents.len() == 0 {
        0
    } else {
        tokens(agents.drop_last()) + agents.last().token_balance
    }
}

/// The tokens of all agents are those of each agent, counted once.
pub proof fn law_tokens_add_up(agents: Seq<AgentState>, further: AgentState)
    ensures
        tokens(Seq::empty()) == 0,
        tokens(agents.push(further)) == tokens(agents) + further.token_balance,
{
    assert(agents.push(further).drop_last() =~= agents);
}

impl FleetState {
    /// The fleet after every agent signalled.
    pub open spec fn emitted(self, signals: Seq<Signal>) -> FleetState {
        FleetState {
            agents: self.agents.map(|i: int, agent: AgentState| agent.emitted(signals[i])),
            ..self
        }
    }

    /// The fleet after every agent heard what its neighbors knew.
    pub open spec fn gossiped(self) -> FleetState {
        FleetState {
            agents: self.agents.map_values(
                |agent: AgentState| agent.heard(self.agents, agent.neighbors),
            ),
            ..self
        }
    }
}

/// When a fleet signals, every agent adds the whole of its own signal to the slot that it
/// has in its own counters, where what is missing counts as zero. Every other slot and
/// counter, and everything else, stays as it is.
pub proof fn law_fleet_emission(
    fleet: FleetState,
    signals: Seq<Signal>,
    i: int,
    node: NodeId,
    writer: NodeId,
)
    requires
        0 <= i < fleet.agents.len(),
        fleet.agents[i].can_emit(signals[i]),
        node != fleet.agents[i].id,
        writer != fleet.agents[i].id,
    ensures
        ({
            let before = fleet.agents[i];
            let after = fleet.emitted(signals).agents[i];
            let id = before.id;
            let old_demand = before.pheromones.demand;
            let old_supply = before.pheromones.supply;
            let demand = after.pheromones.demand;
            let supply = after.pheromones.supply;
            &&& fleet.emitted(signals).agents.len() == fleet.agents.len()
            &&& fleet.emitted(signals).tick == fleet.tick
            &&& after == (AgentState { pheromones: after.pheromones, ..before })
            &&& demand.contains_key(id) && demand[id].contains_key(id)
            &&& demand[id][id] == signals[i].demand + if old_demand.contains_key(id)
                && old_demand[id].contains_key(id) {
                old_demand[id][id] as int
            } else {
                0
            }
            &&& demand[id].contains_key(writer) <==> old_demand.contains_key(id)
                && old_demand[id].contains_key(writer)
            &&& demand[id].contains_key(writer) ==> demand[id][writer] == old_demand[id][writer]
            &&& demand.contains_key(node) <==> old_demand.contains_key(node)
            &&& demand.contains_key(node) ==> demand[node] == old_demand[node]
            &&& supply.contains_key(id) && supply[id].contains_key(id)
            &&& supply[id][id] == signals[i].supply + if old_supply.contains_key(id)
                && old_supply[id].contains_key(id) {
                old_supply[id][id] as int
            } else {
                0
            }
            &&& supply[id].contains_key(writer) <==> old_supply.contains_key(id)
                && old_supply[id].contains_key(writer)
            &&& supply[id].contains_key(writer) ==> supply[id][writer] == old_supply[id][writer]
            &&& supply.contains_key(node) <==> old_supply.contains_key(node)
            &&& supply.contains_key(node) ==> supply[node] == old_supply[node]
        }),
{
    let agent = fleet.agents[i];
    law_emission_adds(agent.pheromones.demand, agent.id, signals[i].demand, node, writer);
    law_emission_adds(agent.pheromones.supply, agent.id, signals[i].supply, node, writer);
}

/// What a list of agents holds.
pub open spec fn states(agents: Seq<Agent>) -> Seq<AgentState> {
    agents.map_values(|agent: Agent| agent@)
}

/// Ring-connected fleet running the pheromone market protocol.
///
/// Each tick:
///   1. Emit: agents update their own pheromone counters
///   2. Gossip: agents merge what their neighbors knew before the round
///   3. Decide: each agent takes the action that its strategy scores highest
///   4. Match: MigrateWork agents find AcceptWork neighbors
///   5. Execute: load migrates and tokens are settled
pub struct Fleet {
    pub agents: Vec<Agent>,
    pub tick: u64,
}

impl View for Fleet {
    type V = FleetState;

    open spec fn view(&self) -> FleetState {
        FleetState { agents: states(self.agents@), tick: self.tick }
    }
}

impl Fleet {
    /// What a fleet holds is what each of its agents holds, and the number of its ticks.
    pub proof fn law_what_a_fleet_holds(&self, i: int)
        ensures
            self@.agents.len() == self.agents@.len(),
            self@.tick == self.tick,
            0 <= i < self.agents@.len() ==> self@.agents[i] == self.agents@[i]@,
    {
    }

    /// Creates `n` agents with random utilizations, wired in a ring.
    pub fn new(n: usize, seed: u64) -> (fleet: Self)
        ensures
            fleet@ == drawn_fleet(n as nat, seed),
    {
        let mut rng = Rng::new(seed);
        let mut agents: Vec<Agent> = Vec::new();
        for i in 0..n
            invariant
                rng@ == agent_start(seed, i as nat),
                agents@.len() == i,
                forall|j: int|
                    0 <= j < i ==> (#[trigger] agents@[j])@ == fleet_agent(n as int, seed, j),
        {
            let utilization: Rank = rng.fraction();
            let mut agent = Agent::new(i, utilization, &mut rng);
            let before: usize = if i == 0 {
                n - 1
            } else {
                i - 1
            };
            let after: usize = if i + 1 == n {
                0
            } else {
                i + 1
            };
            agent.neighbors = vec![before, after];
            proof {
                lemma_stream_adds(seeded(seed), 77 * i as nat, 1);
                lemma_stream_adds(seeded(seed), 77 * i as nat + 1, net_draws());
                reveal_with_fuel(stream, 2);
                lemma_ring(i as int, n as int);
            }
            assert(agent.neighbors@ =~= ring(i as int, n as int));
            agents.push(agent);
        }
        let fleet = Fleet { agents, tick: 0 };
        assert(fleet@ =~= drawn_fleet(n as nat, seed));
        fleet
    }

    /// Adds the signal of each agent to the pheromones that it owns.
    pub fn emit(&mut self, signals: &Vec<Signal>)
        requires
            signals@.len() == old(self)@.agents.len(),
            forall|i: int|
                0 <= i < signals@.len() ==> (#[trigger] old(self)@.agents[i]).can_emit(signals@[i]),
        ensures
            final(self)@ == old(self)@.emitted(signals@),
    {
        let count: usize = self.agents.len();
        for i in 0..count
            invariant
                count == signals@.len(),
                signals@.len() == old(self)@.agents.len(),
                self.agents@.len() == signals@.len(),
                self.tick == old(self).tick,
                forall|j: int|
                    0 <= j < signals@.len() ==> (#[trigger] old(self)@.agents[j]).can_emit(
                        signals@[j],
                    ),
                forall|j: int|
                    0 <= j < i ==> (#[trigger] self.agents@[j])@ == old(self)@.agents[j].emitted(
                        signals@[j],
                    ),
                forall|j: int|
                    i <= j < signals@.len() ==> #[trigger] self.agents@[j] == old(self).agents@[j],
        {
            assert(old(self)@.agents[i as int].can_emit(signals@[i as int]));
            let source: NodeId = self.agents[i].id;
            self.agents[i].pheromone_map.emit_demand(source, signals[i].demand);
            self.agents[i].pheromone_map.emit_supply(source, signals[i].supply);
        }
        assert(self@ =~= old(self)@.emitted(signals@));
    }

    /// Every agent merges what each of its neighbors knew before the round.
    pub fn gossip(&mut self)
        requires
            linked(old(self)@.agents),
        ensures
            final(self)@ == old(self)@.gossiped(),
    {
        let ghost before = self@.agents;
        let count: usize = self.agents.len();
        let mut snapshots: Vec<PheromoneMap> = Vec::new();
        for i in 0..count
            invariant
                count == self.agents@.len(),
                snapshots@.len() == i,
                before == states(self.agents@),
                forall|j: int| 0 <= j < i ==> (#[trigger] snapshots@[j])@ == before[j].pheromones,
        {
            snapshots.push(self.agents[i].pheromone_map.clone());
        }
        for i in 0..count
            invariant
                count == self.agents@.len(),
                count == before.len(),
                snapshots@.len() == count,
                linked(before),
                self.tick == old(self).tick,
                forall|j: int|
                    0 <= j < count ==> (#[trigger] snapshots@[j])@ == before[j].pheromones,
                forall|j: int|
                    0 <= j < i ==> (#[trigger] self.agents@[j])@ == before[j].heard(
                        before,
                        before[j].neighbors,
                    ),
                forall|j: int| i <= j < count ==> (#[trigger] self.agents@[j])@ == before[j],
        {
            let width: usize = self.agents[i].neighbors.len();
            let ghost nodes = before[i as int].neighbors;
            for k in 0..width
                invariant
                    i < count,
                    count == self.agents@.len(),
                    count == before.len(),
                    snapshots@.len() == count,
                    linked(before),
                    self.tick == old(self).tick,
                    nodes == before[i as int].neighbors,
                    width == nodes.len(),
                    forall|j: int|
                        0 <= j < count ==> (#[trigger] snapshots@[j])@ == before[j].pheromones,
                    forall|j: int|
                        0 <= j < i ==> (#[trigger] self.agents@[j])@ == before[j].heard(
                            before,
                            before[j].neighbors,
                        ),
                    forall|j: int| i < j < count ==> (#[trigger] self.agents@[j])@ == before[j],
                    self.agents@[i as int]@ == before[i as int].heard(before, nodes.take(k as int)),
            {
                let j: NodeId = self.agents[i].neighbors[k];
                assert(before[i as int].neighbors[k as int] < count);
                assert(nodes.take(k + 1).drop_last() =~= nodes.take(k as int));
                self.agents[i].pheromone_map.merge(&snapshots[j]);
            }
            assert(nodes.take(width as int) =~= nodes);
        }
        assert(self@ =~= old(self)@.gossiped());
    }

    /// The highest utilization, or the lowest finite number where no agent has one that is
    /// a number.
    pub fn max_utilization(&self) -> (max: Rank)
        ensures
            max >= LOWEST,
            forall|i: int|
                0 <= i < self@.agents.len() ==> (#[trigger] self@.agents[i]).utilization <= max
                    || self@.agents[i].utilization == NAN,
            max != NAN,
            max == LOWEST || exists|i: int|
                0 <= i < self@.agents.len() && (#[trigger] self@.agents[i]).utilization == max,
    {
        let mut max: Rank = LOWEST;
        for i in 0..self.agents.len()
            invariant
                max >= LOWEST,
                forall|j: int|
                    0 <= j < i ==> (#[trigger] self@.agents[j]).utilization <= max
                        || self@.agents[j].utilization == NAN,
                max != NAN,
                max == LOWEST || exists|j: int|
                    0 <= j < i && (#[trigger] self@.agents[j]).utilization == max,
        {
            assert(self@.agents[i as int].utilization == self.agents@[i as int].utilization);
            if self.agents[i].utilization > max && self.agents[i].utilization != NAN {
                max = self.agents[i].utilization;
            }
        }
        max
    }

    /// The tokens of all agents together.
    pub fn total_tokens(&self) -> (total: i64)
        requires
            forall|count: int|
                0 <= count <= self@.agents.len() ==> i64::MIN <= #[trigger] tokens(
                    self@.agents.take(count),
                ) <= i64::MAX,
        ensures
            total == tokens(self@.agents),
    {
        let mut total: i64 = 0;
        for i in 0..self.agents.len()
            invariant
                forall|count: int|
                    0 <= count <= self@.agents.len() ==> i64::MIN <= #[trigger] tokens(
                        self@.agents.take(count),
                    ) <= i64::MAX,
                total == tokens(self@.agents.take(i as int)),
        {
            assert(self@.agents.take(i + 1).drop_last() =~= self@.agents.take(i as int));
            assert(i64::MIN <= tokens(self@.agents.take(i + 1)) <= i64::MAX);
            total = total + self.agents[i].token_balance;
        }
        assert(self@.agents.take(self.agents@.len() as int) =~= self@.agents);
        total
    }
}

} // verus!
