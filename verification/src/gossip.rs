//! What gossip achieves: knowledge spreads around the ring until all agree.

use vstd::arithmetic::div_mod::{
    lemma_add_mod_noop_right, lemma_mod_bound, lemma_mod_self_0, lemma_small_mod,
};
use vstd::prelude::*;

use crate::agent::AgentState;
use crate::fleet::{heard, lemma_ring, linked, ring, FleetState};
use crate::gcounter::NodeId;
use crate::pheromone::{
    law_included_partial_order, law_merge_least_upper_bound, law_replicas_merge_slot_by_slot,
    Pheromones, Trails,
};

verus! {

/// The agents are wired in a ring.
pub open spec fn ring_wired(agents: Seq<AgentState>) -> bool {
    forall|i: int|
        0 <= i < agents.len() ==> (#[trigger] agents[i]).neighbors == ring(i, agents.len() as int)
}

/// `all` includes what every agent knows.
pub open spec fn covers(all: Pheromones, agents: Seq<AgentState>) -> bool {
    forall|i: int| 0 <= i < agents.len() ==> (#[trigger] agents[i]).pheromones.included(all)
}

impl FleetState {
    /// The fleet after `rounds` rounds of gossip with no emission between them.
    pub open spec fn after_rounds(self, rounds: nat) -> FleetState
        decreases rounds,
    {
        if rounds == 0 {
            self
        } else {
            self.after_rounds((rounds - 1) as nat).gossiped()
        }
    }
}

/// Hearing loses nothing, and learns what each of the nodes knows.
proof fn lemma_heard_includes(own: Pheromones, fleet: Seq<AgentState>, nodes: Seq<NodeId>)
    ensures
        own.included(heard(own, fleet, nodes)),
        forall|k: int|
            0 <= k < nodes.len() ==> fleet[#[trigger] nodes[k] as int].pheromones.included(
                heard(own, fleet, nodes),
            ),
    decreases nodes.len(),
{
    if nodes.len() == 0 {
        law_included_partial_order(own, own, own);
    } else {
        let before = heard(own, fleet, nodes.drop_last());
        let last = fleet[nodes.last() as int].pheromones;
        let after = heard(own, fleet, nodes);
        lemma_heard_includes(own, fleet, nodes.drop_last());
        law_merge_least_upper_bound(before, last, after);
        law_included_partial_order(own, before, after);
        assert forall|k: int| 0 <= k < nodes.len() implies fleet[
            #[trigger] nodes[k] as int].pheromones.included(after) by {
            if k < nodes.len() - 1 {
                assert(nodes.drop_last()[k] == nodes[k]);
                law_included_partial_order(fleet[nodes[k] as int].pheromones, before, after);
            }
        }
    }
}

/// Hearing learns nothing that nobody knew.
proof fn lemma_heard_covered(
    own: Pheromones,
    fleet: Seq<AgentState>,
    nodes: Seq<NodeId>,
    all: Pheromones,
)
    requires
        own.included(all),
        covers(all, fleet),
        forall|k: int| 0 <= k < nodes.len() ==> #[trigger] nodes[k] < fleet.len(),
    ensures
        heard(own, fleet, nodes).included(all),
    decreases nodes.len(),
{
    if nodes.len() > 0 {
        let rest = nodes.drop_last();
        assert forall|k: int| 0 <= k < rest.len() implies #[trigger] rest[k] < fleet.len() by {
            assert(rest[k] == nodes[k]);
        }
        lemma_heard_covered(own, fleet, rest, all);
        assert(nodes[nodes.len() - 1] < fleet.len());
        let last = fleet[nodes.last() as int];
        law_merge_least_upper_bound(heard(own, fleet, rest), last.pheromones, all);
    }
}

/// In a round of gossip every agent keeps what it knew and learns what its neighbors
/// knew. Nothing but what is known changes, and nothing is known that nobody knew.
pub proof fn law_gossip_round(fleet: FleetState, i: int, all: Pheromones)
    requires
        linked(fleet.agents),
        0 <= i < fleet.agents.len(),
    ensures
        fleet.gossiped().agents.len() == fleet.agents.len(),
        fleet.gossiped().tick == fleet.tick,
        fleet.gossiped().agents[i] == (AgentState {
            pheromones: fleet.gossiped().agents[i].pheromones,
            ..fleet.agents[i]
        }),
        fleet.agents[i].pheromones.included(fleet.gossiped().agents[i].pheromones),
        forall|k: int|
            0 <= k < fleet.agents[i].neighbors.len() ==> fleet.agents[
            #[trigger] fleet.agents[i].neighbors[k] as int].pheromones.included(
                fleet.gossiped().agents[i].pheromones,
            ),
        covers(all, fleet.agents) ==> fleet.gossiped().agents[i].pheromones.included(all),
{
    let agent = fleet.agents[i];
    lemma_heard_includes(agent.pheromones, fleet.agents, agent.neighbors);
    if covers(all, fleet.agents) {
        lemma_heard_covered(agent.pheromones, fleet.agents, agent.neighbors, all);
    }
}

/// What a round of gossip leaves in each slot: an agent has the counters that it or one of
/// its neighbors had before the round, with the slots that one of them had, and in each slot
/// the largest of their counts, where what is missing counts as zero. What others learn in
/// the same round is not passed on.
pub proof fn law_gossip_takes_the_largest(
    fleet: FleetState,
    i: int,
    node: NodeId,
    writer: NodeId,
)
    requires
        0 <= i < fleet.agents.len(),
    ensures
        ({
            let own = fleet.agents[i].pheromones;
            let nodes = fleet.agents[i].neighbors;
            let after = fleet.gossiped().agents[i].pheromones;
            let theirs = |k: int| fleet.agents[nodes[k] as int].pheromones;
            let has = |t: Trails| t.contains_key(node) && t[node].contains_key(writer);
            let count = |t: Trails|
                if t.contains_key(node) && t[node].contains_key(writer) {
                    t[node][writer] as int
                } else {
                    0
                };
            &&& after.demand.contains_key(node) <==> own.demand.contains_key(node) || exists|k: int|
                0 <= k < nodes.len() && #[trigger] theirs(k).demand.contains_key(node)
            &&& has(after.demand) <==> has(own.demand) || exists|k: int|
                0 <= k < nodes.len() && has((#[trigger] theirs(k)).demand)
            &&& count(after.demand) >= count(own.demand)
            &&& forall|k: int|
                0 <= k < nodes.len() ==> count(after.demand) >= count((#[trigger] theirs(k)).demand)
            &&& count(after.demand) == count(own.demand) || exists|k: int|
                0 <= k < nodes.len() && count(after.demand) == count((#[trigger] theirs(k)).demand)
            &&& after.supply.contains_key(node) <==> own.supply.contains_key(node) || exists|k: int|
                0 <= k < nodes.len() && #[trigger] theirs(k).supply.contains_key(node)
            &&& has(after.supply) <==> has(own.supply) || exists|k: int|
                0 <= k < nodes.len() && has((#[trigger] theirs(k)).supply)
            &&& count(after.supply) >= count(own.supply)
            &&& forall|k: int|
                0 <= k < nodes.len() ==> count(after.supply) >= count((#[trigger] theirs(k)).supply)
            &&& count(after.supply) == count(own.supply) || exists|k: int|
                0 <= k < nodes.len() && count(after.supply) == count((#[trigger] theirs(k)).supply)
        }),
{
    let agent = fleet.agents[i];
    lemma_heard_slots(agent.pheromones, fleet.agents, agent.neighbors, node, writer);
    assert(fleet.gossiped().agents[i].pheromones == heard(
        agent.pheromones,
        fleet.agents,
        agent.neighbors,
    ));
}

proof fn lemma_heard_slots(
    own: Pheromones,
    fleet: Seq<AgentState>,
    nodes: Seq<NodeId>,
    node: NodeId,
    writer: NodeId,
)
    ensures
        ({
            let after = heard(own, fleet, nodes);
            let theirs = |k: int| fleet[nodes[k] as int].pheromones;
            let has = |t: Trails| t.contains_key(node) && t[node].contains_key(writer);
            let count = |t: Trails|
                if t.contains_key(node) && t[node].contains_key(writer) {
                    t[node][writer] as int
                } else {
                    0
                };
            &&& after.demand.contains_key(node) <==> own.demand.contains_key(node) || exists|k: int|
                0 <= k < nodes.len() && #[trigger] theirs(k).demand.contains_key(node)
            &&& has(after.demand) <==> has(own.demand) || exists|k: int|
                0 <= k < nodes.len() && has((#[trigger] theirs(k)).demand)
            &&& count(after.demand) >= count(own.demand)
            &&& forall|k: int|
                0 <= k < nodes.len() ==> count(after.demand) >= count((#[trigger] theirs(k)).demand)
            &&& count(after.demand) == count(own.demand) || exists|k: int|
                0 <= k < nodes.len() && count(after.demand) == count((#[trigger] theirs(k)).demand)
            &&& after.supply.contains_key(node) <==> own.supply.contains_key(node) || exists|k: int|
                0 <= k < nodes.len() && #[trigger] theirs(k).supply.contains_key(node)
            &&& has(after.supply) <==> has(own.supply) || exists|k: int|
                0 <= k < nodes.len() && has((#[trigger] theirs(k)).supply)
            &&& count(after.supply) >= count(own.supply)
            &&& forall|k: int|
                0 <= k < nodes.len() ==> count(after.supply) >= count((#[trigger] theirs(k)).supply)
            &&& count(after.supply) == count(own.supply) || exists|k: int|
                0 <= k < nodes.len() && count(after.supply) == count((#[trigger] theirs(k)).supply)
        }),
    decreases nodes.len(),
{
    if nodes.len() > 0 {
        let rest = nodes.drop_last();
        let theirs = |k: int| fleet[nodes[k] as int].pheromones;
        let earlier = |k: int| fleet[rest[k] as int].pheromones;
        let last = nodes.len() - 1;
        lemma_heard_slots(own, fleet, rest, node, writer);
        law_replicas_merge_slot_by_slot(
            heard(own, fleet, rest),
            fleet[nodes.last() as int].pheromones,
            node,
            writer,
        );
        assert(forall|k: int| 0 <= k < rest.len() ==> #[trigger] theirs(k) == earlier(k));
        assert(forall|k: int| 0 <= k < rest.len() ==> #[trigger] earlier(k) == theirs(k));
        assert(theirs(last) == fleet[nodes.last() as int].pheromones);
    }
}

/// Rounds of gossip keep the ring, and nothing is ever known that nobody knew.
proof fn lemma_rounds(fleet: FleetState, rounds: nat, all: Pheromones)
    requires
        ring_wired(fleet.agents),
        fleet.agents.len() <= usize::MAX,
    ensures
        fleet.after_rounds(rounds).agents.len() == fleet.agents.len(),
        ring_wired(fleet.after_rounds(rounds).agents),
        linked(fleet.after_rounds(rounds).agents),
        covers(all, fleet.agents) ==> covers(all, fleet.after_rounds(rounds).agents),
    decreases rounds,
{
    if rounds > 0 {
        let before = fleet.after_rounds((rounds - 1) as nat);
        let after = fleet.after_rounds(rounds);
        lemma_rounds(fleet, (rounds - 1) as nat, all);
        assert forall|i: int| 0 <= i < after.agents.len() implies (
        #[trigger] after.agents[i]).neighbors == ring(i, after.agents.len() as int) by {
            assert(before.agents[i].neighbors == after.agents[i].neighbors);
        }
        if covers(all, fleet.agents) {
            assert forall|i: int| 0 <= i < after.agents.len() implies (
            #[trigger] after.agents[i]).pheromones.included(all) by {
                law_gossip_round(before, i, all);
            }
        }
    }
    lemma_ring_linked(fleet.after_rounds(rounds).agents);
}

/// In a ring every neighbor is a position.
pub proof fn lemma_ring_linked(agents: Seq<AgentState>)
    requires
        ring_wired(agents),
        agents.len() <= usize::MAX,
    ensures
        linked(agents),
{
    assert forall|i: int, k: int|
        0 <= i < agents.len() && 0 <= k < agents[i].neighbors.len() implies
        #[trigger] agents[i].neighbors[k] < agents.len() by {
        assert(agents[i].neighbors == ring(i, agents.len() as int));
        lemma_ring(i, agents.len() as int);
    }
}

/// After `rounds` rounds an agent knows what the agent `distance` steps ahead and the one
/// as many steps behind knew at first.
proof fn lemma_reach(fleet: FleetState, i: int, distance: nat, rounds: nat)
    requires
        ring_wired(fleet.agents),
        fleet.agents.len() <= usize::MAX,
        0 <= i < fleet.agents.len(),
        distance <= rounds,
    ensures
        fleet.agents[(i + distance) % fleet.agents.len() as int].pheromones.included(
            fleet.after_rounds(rounds).agents[i].pheromones,
        ),
        fleet.agents[(i - distance) % fleet.agents.len() as int].pheromones.included(
            fleet.after_rounds(rounds).agents[i].pheromones,
        ),
    decreases rounds,
{
    let n = fleet.agents.len() as int;
    let known = fleet.after_rounds(rounds).agents[i].pheromones;
    lemma_small_mod(i as nat, n as nat);
    if rounds == 0 {
        law_included_partial_order(known, known, known);
    } else {
        let before = fleet.after_rounds((rounds - 1) as nat);
        lemma_rounds(fleet, (rounds - 1) as nat, known);
        law_gossip_round(before, i, known);
        if distance == 0 {
            lemma_reach(fleet, i, 0, (rounds - 1) as nat);
            law_included_partial_order(
                fleet.agents[i].pheromones,
                before.agents[i].pheromones,
                known,
            );
        } else {
            lemma_ring(i, n);
            assert(before.agents[i].neighbors == ring(i, n));
            let next = (i + 1) % n;
            let previous = (i + n - 1) % n;
            assert(before.agents[i].neighbors[0] == previous);
            assert(before.agents[i].neighbors[1] == next);
            lemma_reach(fleet, next, (distance - 1) as nat, (rounds - 1) as nat);
            lemma_reach(fleet, previous, (distance - 1) as nat, (rounds - 1) as nat);
            assert((next + (distance - 1)) % n == (i + distance) % n) by {
                lemma_shift(i + 1, distance - 1, n);
            }
            assert((previous - (distance - 1)) % n == (i - distance) % n) by {
                lemma_shift(i + n - 1, -(distance - 1), n);
                lemma_shift(n, i - distance, n);
                lemma_mod_self_0(n);
            }
            law_included_partial_order(
                fleet.agents[(i + distance) % n].pheromones,
                before.agents[next].pheromones,
                known,
            );
            law_included_partial_order(
                fleet.agents[(i - distance) % n].pheromones,
                before.agents[previous].pheromones,
                known,
            );
        }
    }
}

/// Steps can be taken from the reduced position.
proof fn lemma_shift(x: int, y: int, n: int)
    requires
        n > 0,
    ensures
        (x % n + y) % n == (x + y) % n,
{
    lemma_add_mod_noop_right(y, x, n);
}

/// Gossip converges without coordination: on a ring of `n` agents, after `n / 2` rounds
/// (and from then on) all agents know the same, namely everything that any of them knew.
pub proof fn law_gossip_reaches_consensus(fleet: FleetState, rounds: nat, i: int, j: int)
    requires
        ring_wired(fleet.agents),
        fleet.agents.len() <= usize::MAX,
        rounds >= fleet.agents.len() / 2,
        0 <= i < fleet.agents.len(),
        0 <= j < fleet.agents.len(),
    ensures
        fleet.after_rounds(rounds).agents[i].pheromones
            == fleet.after_rounds(rounds).agents[j].pheromones,
        covers(fleet.after_rounds(rounds).agents[i].pheromones, fleet.agents),
        forall|all: Pheromones|
            covers(all, fleet.agents) ==> #[trigger] fleet.after_rounds(
                rounds,
            ).agents[i].pheromones.included(all),
{
    let after = fleet.after_rounds(rounds).agents;
    lemma_knows_all(fleet, rounds, i);
    lemma_knows_all(fleet, rounds, j);
    lemma_rounds(fleet, rounds, after[i].pheromones);
    lemma_rounds(fleet, rounds, after[j].pheromones);
    law_included_partial_order(after[i].pheromones, after[j].pheromones, after[i].pheromones);
    assert forall|all: Pheromones| covers(all, fleet.agents) implies #[trigger] fleet.after_rounds(
        rounds,
    ).agents[i].pheromones.included(all) by {
        lemma_rounds(fleet, rounds, all);
    }
}

/// After half a ring of rounds an agent knows what anybody knew at first.
proof fn lemma_knows_all(fleet: FleetState, rounds: nat, i: int)
    requires
        ring_wired(fleet.agents),
        fleet.agents.len() <= usize::MAX,
        rounds >= fleet.agents.len() / 2,
        0 <= i < fleet.agents.len(),
    ensures
        covers(fleet.after_rounds(rounds).agents[i].pheromones, fleet.agents),
{
    let n = fleet.agents.len() as int;
    let known = fleet.after_rounds(rounds).agents[i].pheromones;
    assert forall|j: int| 0 <= j < n implies (#[trigger] fleet.agents[j]).pheromones.included(
        known,
    ) by {
        let ahead = (j - i) % n;
        lemma_mod_bound(j - i, n);
        lemma_small_mod(j as nat, n as nat);
        assert((i + ahead) % n == j) by {
            lemma_shift(j - i, i, n);
        }
        if ahead <= n / 2 {
            lemma_reach(fleet, i, ahead as nat, rounds);
        } else {
            let behind = n - ahead;
            assert((i - behind) % n == j) by {
                lemma_shift(n, i + ahead - n, n);
                lemma_mod_self_0(n);
            }
            lemma_reach(fleet, i, behind as nat, rounds);
        }
    }
}

} // verus!
