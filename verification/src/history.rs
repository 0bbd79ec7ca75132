//! Runs of a fleet: what holds after any number of whole ticks.

use vstd::arithmetic::div_mod::{lemma_mod_add_multiples_vanish, lemma_small_mod};
use vstd::prelude::*;

use crate::agent::AgentState;
use crate::fleet::{drawn_fleet, heard, lemma_ring, ring, tokens, FleetState, Signal};
use crate::gcounter;
use crate::gcounter::{included, slot, NodeId};
use crate::gossip::law_gossip_round;
use crate::market::{payable, Forecast, ACCEPT_CEILING};
use crate::pheromone::{
    emitted, law_included_partial_order, law_owned_level, level, owned, trail, trails_included,
    Pheromones, Trails,
};
use crate::rank::Rank;
use crate::soundness::{
    law_emission_keeps_soundness, law_gossip_keeps_soundness, law_new_fleet_is_sound,
    law_sound_fleet_operates, law_tick_effect, law_tick_keeps_soundness, no_better, sound,
};

verus! {

/// What a whole tick is fed with: a signal, the scores of the actions and a forecast for
/// each agent.
pub struct Inputs {
    pub signals: Seq<Signal>,
    pub scores: Seq<[Rank; 3]>,
    pub forecasts: Seq<Forecast>,
}

impl FleetState {
    /// There is an input for each agent, the signals fit the counters, and the tick can be
    /// counted.
    pub open spec fn admits(self, inputs: Inputs) -> bool {
        &&& inputs.signals.len() == self.agents.len()
        &&& inputs.scores.len() == self.agents.len()
        &&& inputs.forecasts.len() == self.agents.len()
        &&& forall|i: int|
            0 <= i < self.agents.len() ==> (#[trigger] self.agents[i]).can_emit(inputs.signals[i])
        &&& forall|i: int|
            0 <= i < self.agents.len() ==> (#[trigger] inputs.forecasts[i]).loaded@.len()
                == self.agents[i].neighbors.len()
        &&& self.tick < u64::MAX
    }

    /// The fleet after a whole tick: all emit, gossip, decide, match and settle.
    pub open spec fn advanced(self, inputs: Inputs) -> FleetState {
        self.emitted(inputs.signals).gossiped().ticked(inputs.scores, inputs.forecasts)
    }

    /// The fleet after a whole tick for each of `history`.
    pub open spec fn after_ticks(self, history: Seq<Inputs>) -> FleetState
        decreases history.len(),
    {
        if history.len() == 0 {
            self
        } else {
            self.after_ticks(history.drop_last()).advanced(history.last())
        }
    }

    /// Every tick of `history` is admitted when it comes.
    pub open spec fn admits_all(self, history: Seq<Inputs>) -> bool
        decreases history.len(),
    {
        history.len() == 0 || {
            &&& self.admits_all(history.drop_last())
            &&& self.after_ticks(history.drop_last()).admits(history.last())
        }
    }
}

/// A whole tick of a sound fleet runs to its end: gossip finds every neighbor, the market
/// is complete, and every fee finds room. The fleet stays sound, with as many tokens as
/// before, no agent loses anything that it knew, and nobody gets above the limit for
/// taking work who was not as loaded before.
pub proof fn law_whole_tick(fleet: FleetState, inputs: Inputs)
    requires
        sound(fleet),
        fleet.admits(inputs),
    ensures
        ({
            let told = fleet.emitted(inputs.signals).gossiped();
            let after = fleet.advanced(inputs);
            &&& told.market(inputs.scores, inputs.forecasts).complete()
            &&& payable(told.agents, told.market(inputs.scores, inputs.forecasts).plan())
            &&& told.tick < u64::MAX
            &&& sound(after)
            &&& after.agents.len() == fleet.agents.len()
            &&& after.tick == fleet.tick + 1
            &&& tokens(after.agents) == tokens(fleet.agents)
            &&& forall|i: int|
                0 <= i < fleet.agents.len() ==> (
                #[trigger] after.agents[i]).pheromones == told.agents[i].pheromones
            &&& forall|i: int|
                0 <= i < fleet.agents.len() ==> (#[trigger] fleet.agents[i]).pheromones.included(
                    after.agents[i].pheromones,
                )
            &&& forall|i: int|
                0 <= i < fleet.agents.len() ==> (#[trigger] after.agents[i]).utilization
                    <= fleet.agents[i].utilization || after.agents[i].utilization
                    <= ACCEPT_CEILING
        }),
{
    let said = fleet.emitted(inputs.signals);
    let told = said.gossiped();
    let after = fleet.advanced(inputs);
    law_emission_keeps_soundness(fleet, inputs.signals);
    law_gossip_keeps_soundness(said);
    assert forall|i: int| 0 <= i < told.agents.len() implies (
    #[trigger] inputs.forecasts[i]).loaded@.len() == told.agents[i].neighbors.len() by {
        assert(told.agents[i].neighbors == fleet.agents[i].neighbors);
    }
    law_sound_fleet_operates(told, inputs.scores, inputs.forecasts);
    law_tick_keeps_soundness(told, inputs.scores, inputs.forecasts);
    if fleet.agents.len() > 0 {
        law_tick_effect(told, inputs.scores, inputs.forecasts, 0);
    }
    assert forall|i: int| 0 <= i < fleet.agents.len() implies (
    #[trigger] after.agents[i]).pheromones == told.agents[i].pheromones by {
        law_tick_effect(told, inputs.scores, inputs.forecasts, i);
    }
    law_sound_fleet_operates(said, inputs.scores, inputs.forecasts);
    assert forall|i: int| 0 <= i < fleet.agents.len() implies (
    #[trigger] fleet.agents[i]).pheromones.included(after.agents[i].pheromones) by {
        let agent = fleet.agents[i];
        law_gossip_round(said, i, agent.pheromones);
        lemma_emission_includes(agent.pheromones.demand, agent.id, inputs.signals[i].demand);
        lemma_emission_includes(agent.pheromones.supply, agent.id, inputs.signals[i].supply);
        law_included_partial_order(
            agent.pheromones,
            said.agents[i].pheromones,
            told.agents[i].pheromones,
        );
        assert(after.agents[i].pheromones == told.agents[i].pheromones);
    }
}

/// Emission forgets nothing.
proof fn lemma_emission_includes(t: Trails, source: NodeId, amount: u64)
    requires
        slot(trail(t, source), source) + amount <= u64::MAX,
    ensures
        trails_included(t, emitted(t, source, amount)),
{
    assert forall|node: NodeId| #[trigger] t.contains_key(node) implies included(
        t[node],
        emitted(t, source, amount)[node],
    ) by {
        gcounter::law_included_partial_order(t[node], t[node], t[node]);
    }
}

/// However many ticks a sound fleet runs, it stays sound, every tick is counted, and there
/// are as many tokens as at first: supply is closed. What an agent knows never shrinks, and
/// nobody gets above the limit for taking work who was not as loaded at first.
pub proof fn law_run(fleet: FleetState, history: Seq<Inputs>)
    requires
        sound(fleet),
        fleet.admits_all(history),
    ensures
        sound(fleet.after_ticks(history)),
        fleet.after_ticks(history).agents.len() == fleet.agents.len(),
        fleet.after_ticks(history).tick == fleet.tick + history.len(),
        tokens(fleet.after_ticks(history).agents) == tokens(fleet.agents),
        forall|i: int|
            0 <= i < fleet.agents.len() ==> (#[trigger] fleet.agents[i]).pheromones.included(
                fleet.after_ticks(history).agents[i].pheromones,
            ),
        forall|i: int|
            0 <= i < fleet.agents.len() ==> {
                let load = (#[trigger] fleet.after_ticks(history).agents[i]).utilization;
                load <= fleet.agents[i].utilization || load <= ACCEPT_CEILING
            },
    decreases history.len(),
{
    let after = fleet.after_ticks(history);
    if history.len() == 0 {
        assert forall|i: int| 0 <= i < fleet.agents.len() implies (
        #[trigger] fleet.agents[i]).pheromones.included(after.agents[i].pheromones) by {
            let known = fleet.agents[i].pheromones;
            law_included_partial_order(known, known, known);
        }
    } else {
        let before = fleet.after_ticks(history.drop_last());
        law_run(fleet, history.drop_last());
        law_whole_tick(before, history.last());
        assert forall|i: int| 0 <= i < fleet.agents.len() implies (
        #[trigger] fleet.agents[i]).pheromones.included(after.agents[i].pheromones) by {
            assert(before.agents[i].pheromones.included(after.agents[i].pheromones));
            law_included_partial_order(
                fleet.agents[i].pheromones,
                before.agents[i].pheromones,
                after.agents[i].pheromones,
            );
        }
    }
}

/// Levels only rise, and nobody is ahead of the source: over any number of ticks, the level
/// that an agent has for a node does not fall, and it is never above the level that the
/// node has for itself.
pub proof fn law_levels_rise_up_to_the_source(
    fleet: FleetState,
    history: Seq<Inputs>,
    i: int,
    node: int,
)
    requires
        sound(fleet),
        fleet.admits_all(history),
        0 <= i < fleet.agents.len(),
        0 <= node < fleet.agents.len(),
    ensures
        ({
            let before = fleet.agents[i].pheromones;
            let after = fleet.after_ticks(history).agents[i].pheromones;
            let source = fleet.after_ticks(history).agents[node].pheromones;
            let id = node as NodeId;
            &&& level(before.demand, id) <= level(after.demand, id) <= level(source.demand, id)
            &&& level(before.supply, id) <= level(after.supply, id) <= level(source.supply, id)
        }),
{
    law_run(fleet, history);
    let end = fleet.after_ticks(history);
    let before = fleet.agents[i].pheromones;
    let after = end.agents[i].pheromones;
    let source = end.agents[node].pheromones;
    let id = node as NodeId;
    assert(no_better(end.agents[i].pheromones, end.agents[node].pheromones, node as NodeId));
    assert(before.included(after));
    assert(owned(before.demand) && owned(after.demand) && owned(source.demand));
    lemma_level_rises(before.demand, after.demand, id);
    lemma_level_rises(before.supply, after.supply, id);
    lemma_level_rises(after.demand, source.demand, id);
    lemma_level_rises(after.supply, source.supply, id);
}

/// With owned slots, a counter that is included in another has no higher level.
proof fn lemma_level_rises(a: Trails, b: Trails, node: NodeId)
    requires
        owned(a),
        owned(b),
        included(trail(a, node), trail(b, node)),
    ensures
        level(a, node) <= level(b, node),
{
    law_owned_level(a, node);
    law_owned_level(b, node);
}

/// The number of steps from position `i` to position `k` of a ring of `n`, the shorter way.
pub open spec fn ring_distance(i: int, k: int, n: int) -> int {
    let ahead = (k - i) % n;
    if ahead <= n - ahead {
        ahead
    } else {
        n - ahead
    }
}

/// The steps ahead from `i` to `k`.
proof fn lemma_steps_ahead(i: int, k: int, n: int)
    requires
        0 <= i < n,
        0 <= k < n,
    ensures
        (k - i) % n == if k >= i {
            k - i
        } else {
            k - i + n
        },
{
    if k >= i {
        lemma_small_mod((k - i) as nat, n as nat);
    } else {
        lemma_mod_add_multiples_vanish(k - i, n);
        lemma_small_mod((k - i + n) as nat, n as nat);
    }
}

/// A distance is at most half the ring, only a node itself is at distance zero, and a node
/// is within one step more exactly where it is within reach of a node or of one of its
/// neighbors.
proof fn lemma_ring_distance(i: int, k: int, n: int, reach: int)
    requires
        0 <= i < n,
        0 <= k < n,
        0 <= reach,
    ensures
        0 <= ring_distance(i, k, n) <= n / 2,
        ring_distance(i, k, n) == 0 <==> i == k,
        ring_distance(i, k, n) <= reach + 1 <==> {
            ||| ring_distance(i, k, n) <= reach
            ||| ring_distance((i + n - 1) % n, k, n) <= reach
            ||| ring_distance((i + 1) % n, k, n) <= reach
        },
{
    lemma_ring(i, n);
    lemma_steps_ahead(i, k, n);
    lemma_steps_ahead((i + n - 1) % n, k, n);
    lemma_steps_ahead((i + 1) % n, k, n);
}

/// Every agent has counters for the nodes within `reach` steps, and for no others.
pub open spec fn knows_within(agents: Seq<AgentState>, reach: int) -> bool {
    let n = agents.len() as int;
    &&& forall|i: int, node: NodeId|
        0 <= i < n ==> (#[trigger] agents[i].pheromones.demand.contains_key(node) <==> node < n
            && ring_distance(i, node as int, n) <= reach)
    &&& forall|i: int, node: NodeId|
        0 <= i < n ==> (#[trigger] agents[i].pheromones.supply.contains_key(node) <==> node < n
            && ring_distance(i, node as int, n) <= reach)
}

/// Whoever signals knows itself.
proof fn lemma_emission_reach(fleet: FleetState, signals: Seq<Signal>, reach: int)
    requires
        sound(fleet),
        knows_within(fleet.agents, reach),
        reach >= -1,
    ensures
        knows_within(
            fleet.emitted(signals).agents,
            if reach < 0 {
                0
            } else {
                reach
            },
        ),
{
    let n = fleet.agents.len() as int;
    let after = fleet.emitted(signals).agents;
    let wider = if reach < 0 {
        0
    } else {
        reach
    };
    assert forall|i: int, node: NodeId| 0 <= i < n implies (
    #[trigger] after[i].pheromones.demand.contains_key(node) <==> node < n && ring_distance(
        i,
        node as int,
        n,
    ) <= wider) by {
        lemma_said(fleet, signals, reach, i, node);
    }
    assert forall|i: int, node: NodeId| 0 <= i < n implies (
    #[trigger] after[i].pheromones.supply.contains_key(node) <==> node < n && ring_distance(
        i,
        node as int,
        n,
    ) <= wider) by {
        lemma_said(fleet, signals, reach, i, node);
    }
}

proof fn lemma_said(fleet: FleetState, signals: Seq<Signal>, reach: int, i: int, node: NodeId)
    requires
        sound(fleet),
        knows_within(fleet.agents, reach),
        reach >= -1,
        0 <= i < fleet.agents.len(),
    ensures
        ({
            let n = fleet.agents.len() as int;
            let known = fleet.emitted(signals).agents[i].pheromones;
            let distance = ring_distance(i, node as int, n);
            let near = node < n && (distance <= reach || distance <= 0);
            (known.demand.contains_key(node) <==> near) && (known.supply.contains_key(node)
                <==> near)
        }),
{
    let n = fleet.agents.len() as int;
    let before = fleet.agents[i].pheromones;
    assert(fleet.agents[i].id == i);
    assert(before.demand.contains_key(node) == before.supply.contains_key(node));
    if node < n {
        lemma_ring_distance(i, node as int, n, 0);
    }
}

/// What an agent on a ring hears in a round: its own counters and those of the two agents
/// beside it.
proof fn lemma_heard_on_ring(own: Pheromones, fleet: Seq<AgentState>, i: int, node: NodeId)
    requires
        0 <= i < fleet.len() <= usize::MAX,
    ensures
        ({
            let n = fleet.len() as int;
            let known = heard(own, fleet, ring(i, n));
            let left = fleet[(i + n - 1) % n].pheromones;
            let right = fleet[(i + 1) % n].pheromones;
            &&& known.demand.contains_key(node) <==> own.demand.contains_key(node)
                || left.demand.contains_key(node) || right.demand.contains_key(node)
            &&& known.supply.contains_key(node) <==> own.supply.contains_key(node)
                || left.supply.contains_key(node) || right.supply.contains_key(node)
        }),
{
    let n = fleet.len() as int;
    let nodes = ring(i, n);
    lemma_ring(i, n);
    reveal_with_fuel(heard, 3);
    assert(nodes.drop_last() =~= seq![nodes[0]]);
    assert(nodes.drop_last().drop_last() =~= Seq::<NodeId>::empty());
}

/// A round of gossip reaches one step further.
proof fn lemma_gossip_reach(fleet: FleetState, reach: int)
    requires
        sound(fleet),
        knows_within(fleet.agents, reach),
        reach >= 0,
    ensures
        knows_within(fleet.gossiped().agents, reach + 1),
{
    let n = fleet.agents.len() as int;
    let after = fleet.gossiped().agents;
    assert forall|i: int, node: NodeId| 0 <= i < n implies (
    #[trigger] after[i].pheromones.demand.contains_key(node) <==> node < n && ring_distance(
        i,
        node as int,
        n,
    ) <= reach + 1) by {
        lemma_told(fleet, reach, i, node);
    }
    assert forall|i: int, node: NodeId| 0 <= i < n implies (
    #[trigger] after[i].pheromones.supply.contains_key(node) <==> node < n && ring_distance(
        i,
        node as int,
        n,
    ) <= reach + 1) by {
        lemma_told(fleet, reach, i, node);
    }
}

proof fn lemma_told(fleet: FleetState, reach: int, i: int, node: NodeId)
    requires
        sound(fleet),
        knows_within(fleet.agents, reach),
        reach >= 0,
        0 <= i < fleet.agents.len(),
    ensures
        ({
            let n = fleet.agents.len() as int;
            let known = fleet.gossiped().agents[i].pheromones;
            let near = node < n && ring_distance(i, node as int, n) <= reach + 1;
            (known.demand.contains_key(node) <==> near) && (known.supply.contains_key(node)
                <==> near)
        }),
{
    let n = fleet.agents.len() as int;
    let agents = fleet.agents;
    let left = (i + n - 1) % n;
    let right = (i + 1) % n;
    lemma_ring(i, n);
    assert(agents[i].neighbors == ring(i, n));
    lemma_heard_on_ring(agents[i].pheromones, agents, i, node);
    if node < n {
        lemma_ring_distance(i, node as int, n, reach);
    }
}

/// Knowledge spreads one step around the ring in each tick: after `t` ticks of a new fleet,
/// with `t` at least one, an agent has a demand and a supply counter for exactly the nodes
/// within `t` steps.
pub proof fn law_knowledge_spreads(n: nat, seed: u64, history: Seq<Inputs>)
    requires
        n <= usize::MAX,
        n * 100 <= i64::MAX,
        drawn_fleet(n, seed).admits_all(history),
        history.len() >= 1,
    ensures
        knows_within(
            drawn_fleet(n, seed).after_ticks(history).agents,
            history.len() as int,
        ),
{
    lemma_reach_of_run(n, seed, history);
}

proof fn lemma_reach_of_run(n: nat, seed: u64, history: Seq<Inputs>)
    requires
        n <= usize::MAX,
        n * 100 <= i64::MAX,
        drawn_fleet(n, seed).admits_all(history),
    ensures
        knows_within(
            drawn_fleet(n, seed).after_ticks(history).agents,
            if history.len() == 0 {
                -1
            } else {
                history.len() as int
            },
        ),
    decreases history.len(),
{
    let fleet = drawn_fleet(n, seed);
    law_new_fleet_is_sound(n, seed);
    if history.len() == 0 {
        assert forall|i: int, node: NodeId| 0 <= i < n && node < n implies 0
            <= #[trigger] ring_distance(i, node as int, n as int) by {
            lemma_ring_distance(i, node as int, n as int, 0);
        }
    } else {
        let earlier = history.drop_last();
        let before = fleet.after_ticks(earlier);
        let inputs = history.last();
        let said = before.emitted(inputs.signals);
        let told = said.gossiped();
        let reach = earlier.len() as int;
        let start = if earlier.len() == 0 {
            -1
        } else {
            reach
        };
        lemma_reach_of_run(n, seed, earlier);
        law_run(fleet, earlier);
        lemma_emission_reach(before, inputs.signals, start);
        law_emission_keeps_soundness(before, inputs.signals);
        lemma_gossip_reach(said, reach);
        law_whole_tick(before, inputs);
        let after = before.advanced(inputs);
        assert forall|i: int, node: NodeId| 0 <= i < n implies
            #[trigger] after.agents[i].pheromones.demand.contains_key(node)
            == told.agents[i].pheromones.demand.contains_key(node) by {
            assert(after.agents[i].pheromones == told.agents[i].pheromones);
        }
        assert forall|i: int, node: NodeId| 0 <= i < n implies
            #[trigger] after.agents[i].pheromones.supply.contains_key(node)
            == told.agents[i].pheromones.supply.contains_key(node) by {
            assert(after.agents[i].pheromones == told.agents[i].pheromones);
        }
    }
}

/// After half a ring of ticks, and at least one, everybody knows of everybody.
pub proof fn law_everybody_becomes_known(
    n: nat,
    seed: u64,
    history: Seq<Inputs>,
    i: int,
    node: NodeId,
)
    requires
        n <= usize::MAX,
        n * 100 <= i64::MAX,
        drawn_fleet(n, seed).admits_all(history),
        history.len() >= 1,
        history.len() >= n / 2,
        0 <= i < n,
        node < n,
    ensures
        ({
            let known = drawn_fleet(n, seed).after_ticks(history).agents[i].pheromones;
            known.demand.contains_key(node) && known.supply.contains_key(node)
        }),
{
    law_knowledge_spreads(n, seed, history);
    law_new_fleet_is_sound(n, seed);
    law_run(drawn_fleet(n, seed), history);
    lemma_ring_distance(i, node as int, n as int, 0);
    let agents = drawn_fleet(n, seed).after_ticks(history).agents;
    assert(agents[i].pheromones.demand.contains_key(node));
    assert(agents[i].pheromones.supply.contains_key(node));
}

} // verus!
