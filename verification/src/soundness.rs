//! What every tick keeps.

use vstd::prelude::*;

use crate::agent::AgentState;
use crate::fleet::{
    drawn_fleet, fleet_agent, heard, linked, ring, tokens, FleetState, Signal,
};
use crate::gcounter::{
    included, law_included_partial_order, law_merge_least_upper_bound, NodeId,
};
use crate::gossip::{law_gossip_round, lemma_ring_linked, ring_wired};
use crate::market::{
    hands_out, payable, takes, Forecast, ACCEPT_CEILING, FEE, OFFLOAD_FLOOR,
};
use crate::pheromone::{law_owned_level, law_slots_stay_owned, level, owned, trail, Pheromones};
use crate::rank::{Rank, NAN, ONE, ZERO};
use crate::settlement::{
    lemma_settled_each, lemma_settled_len, lemma_settled_others, lemma_settled_tokens,
};

verus! {

/// What holds of a fleet from its first tick on: the agents sit on a ring at the positions
/// that they are named after, nobody writes to the pheromones of another or knows them
/// better, utilizations are within [0, 1], nobody is out of tokens, and the tokens in
/// circulation can be counted.
pub open spec fn sound(fleet: FleetState) -> bool {
    &&& fleet.agents.len() <= usize::MAX
    &&& ring_wired(fleet.agents)
    &&& forall|i: int|
        0 <= i < fleet.agents.len() ==> {
            let agent = #[trigger] fleet.agents[i];
            &&& agent.id == i
            &&& owned(agent.pheromones.demand)
            &&& owned(agent.pheromones.supply)
            &&& ZERO <= agent.utilization <= ONE
            &&& agent.token_balance > 0
        }
    &&& firsthand(fleet.agents)
    &&& tokens(fleet.agents) <= i64::MAX
}

/// What `one` knows of the pheromones of `node` is no more than `other` knows.
pub open spec fn no_better(one: Pheromones, other: Pheromones, node: NodeId) -> bool {
    &&& included(trail(one.demand, node), trail(other.demand, node))
    &&& included(trail(one.supply, node), trail(other.supply, node))
}

/// Nobody knows more of the pheromones of an agent than the agent itself.
pub open spec fn firsthand(agents: Seq<AgentState>) -> bool {
    forall|i: int, j: int|
        0 <= i < agents.len() && 0 <= j < agents.len() ==> #[trigger] no_better(
            agents[j].pheromones,
            agents[i].pheromones,
            i as NodeId,
        )
}

/// Who is included in another knows no more of anybody.
proof fn lemma_included_no_better(one: Pheromones, other: Pheromones, node: NodeId)
    requires
        one.included(other),
    ensures
        no_better(one, other, node),
{
}

/// Knowing no more is transitive.
proof fn lemma_no_better_transitive(a: Pheromones, b: Pheromones, c: Pheromones, node: NodeId)
    requires
        no_better(a, b, node),
        no_better(b, c, node),
    ensures
        no_better(a, c, node),
{
    law_included_partial_order(
        trail(a.demand, node),
        trail(b.demand, node),
        trail(c.demand, node),
    );
    law_included_partial_order(
        trail(a.supply, node),
        trail(b.supply, node),
        trail(c.supply, node),
    );
}

/// Hearing from those who know no more of a node leaves one knowing no more of it.
proof fn lemma_heard_no_better(
    own: Pheromones,
    fleet: Seq<AgentState>,
    nodes: Seq<NodeId>,
    best: Pheromones,
    node: NodeId,
)
    requires
        no_better(own, best, node),
        forall|k: int| 0 <= k < nodes.len() ==> #[trigger] nodes[k] < fleet.len(),
        forall|i: int|
            0 <= i < fleet.len() ==> no_better((#[trigger] fleet[i]).pheromones, best, node),
    ensures
        no_better(heard(own, fleet, nodes), best, node),
    decreases nodes.len(),
{
    if nodes.len() > 0 {
        let rest = nodes.drop_last();
        assert(forall|k: int| 0 <= k < rest.len() ==> #[trigger] rest[k] == nodes[k]);
        lemma_heard_no_better(own, fleet, rest, best, node);
        assert(nodes[nodes.len() - 1] < fleet.len());
        let before = heard(own, fleet, rest);
        let last = fleet[nodes.last() as int].pheromones;
        law_merge_least_upper_bound(
            trail(before.demand, node),
            trail(last.demand, node),
            trail(best.demand, node),
        );
        law_merge_least_upper_bound(
            trail(before.supply, node),
            trail(last.supply, node),
            trail(best.supply, node),
        );
    }
}

/// What a tick does to each agent: one that hands out work pays the fee, keeps tokens and
/// is not more loaded than before, one that takes work had tokens, is paid, is not less
/// loaded than before and stays within its limit, and the others keep their load and
/// balance. Nothing else changes, except that the tick is counted.
pub proof fn law_tick_effect(
    fleet: FleetState,
    scores: Seq<[Rank; 3]>,
    forecasts: Seq<Forecast>,
    i: int,
)
    requires
        fleet.agents.len() <= usize::MAX,
        fleet.market(scores, forecasts).complete(),
        payable(fleet.agents, fleet.market(scores, forecasts).plan()),
        fleet.tick < u64::MAX,
        0 <= i < fleet.agents.len(),
    ensures
        ({
            let plan = fleet.market(scores, forecasts).plan();
            let before = fleet.agents[i];
            let after = fleet.ticked(scores, forecasts).agents[i];
            &&& fleet.ticked(scores, forecasts).agents.len() == fleet.agents.len()
            &&& fleet.ticked(scores, forecasts).tick == fleet.tick + 1
            &&& after == (AgentState {
                utilization: after.utilization,
                token_balance: after.token_balance,
                ..before
            })
            &&& !(hands_out(plan, i as NodeId) && takes(plan, i as NodeId))
            &&& hands_out(plan, i as NodeId) ==> {
                &&& ZERO <= after.utilization <= before.utilization
                &&& after == before.offloaded(forecasts[i].offloaded)
                &&& after.token_balance == before.token_balance - FEE
                &&& after.token_balance > 0
            }
            &&& takes(plan, i as NodeId) ==> {
                &&& before.utilization <= after.utilization
                &&& after.utilization <= ACCEPT_CEILING || after.utilization == before.utilization
                &&& after.token_balance == before.token_balance + FEE
                &&& before.token_balance > 0
            }
            &&& !hands_out(plan, i as NodeId) && !takes(plan, i as NodeId) ==> after == before
        }),
{
    let market = fleet.market(scores, forecasts);
    let plan = market.plan();
    market.law_plan();
    if hands_out(plan, i as NodeId) {
        let x = choose|x: int| 0 <= x < plan.len() && (#[trigger] plan[x]).from == i as NodeId;
        lemma_settled_each(fleet.agents, plan, x);
        assert(market.fair(plan[x]));
        if takes(plan, i as NodeId) {
            let y = choose|y: int| 0 <= y < plan.len() && (#[trigger] plan[y]).to == i as NodeId;
            assert(plan[x].from != plan[y].to);
        }
    } else if takes(plan, i as NodeId) {
        let x = choose|x: int| 0 <= x < plan.len() && (#[trigger] plan[x]).to == i as NodeId;
        lemma_settled_each(fleet.agents, plan, x);
        assert(market.fair(plan[x]));
    } else {
        lemma_settled_others(fleet.agents, plan, i);
    }
}

/// A node without tokens takes no work: its load does not rise in a tick.
pub proof fn law_no_work_without_tokens(
    fleet: FleetState,
    scores: Seq<[Rank; 3]>,
    forecasts: Seq<Forecast>,
    i: int,
)
    requires
        fleet.agents.len() <= usize::MAX,
        fleet.market(scores, forecasts).complete(),
        payable(fleet.agents, fleet.market(scores, forecasts).plan()),
        fleet.tick < u64::MAX,
        0 <= i < fleet.agents.len(),
        fleet.agents[i].token_balance <= 0,
    ensures
        !takes(fleet.market(scores, forecasts).plan(), i as NodeId),
        fleet.ticked(scores, forecasts).agents[i].utilization <= fleet.agents[i].utilization,
{
    law_tick_effect(fleet, scores, forecasts, i);
}

/// The forecasts of a tick are those of loads: an agent that hands out a part of its work
/// keeps a load between none and what it has, and a neighbor that takes work does not get
/// below the load that it has.
pub open spec fn plausible(fleet: FleetState, forecasts: Seq<Forecast>) -> bool {
    forall|i: int|
        0 <= i < fleet.agents.len() && fleet.agents[i].utilization > OFFLOAD_FLOOR ==> {
            let forecast = #[trigger] forecasts[i];
            &&& ZERO <= forecast.offloaded <= fleet.agents[i].utilization
            &&& forecast.offloaded != NAN
            &&& forall|k: int|
                0 <= k < forecast.loaded@.len() ==> #[trigger] forecast.loaded@[k]
                    >= fleet.agents[fleet.agents[i].neighbors[k] as int].utilization
        }
}

/// Work moves whole: each migration goes from an agent to one of its neighbors and leads
/// to the loads that were forecast, with nothing cut off, while the fee moves the same way.
/// Who hands out work does so to one neighbor, and who takes work takes it from one.
pub proof fn law_work_moves_whole(
    fleet: FleetState,
    scores: Seq<[Rank; 3]>,
    forecasts: Seq<Forecast>,
    x: int,
)
    requires
        fleet.agents.len() <= usize::MAX,
        fleet.market(scores, forecasts).complete(),
        payable(fleet.agents, fleet.market(scores, forecasts).plan()),
        plausible(fleet, forecasts),
        0 <= x < fleet.market(scores, forecasts).plan().len(),
    ensures
        ({
            let plan = fleet.market(scores, forecasts).plan();
            let before = fleet.agents;
            let after = fleet.ticked(scores, forecasts).agents;
            let from = plan[x].from as int;
            let to = plan[x].to as int;
            &&& 0 <= from < before.len() && 0 <= to < before.len() && from != to
            &&& after[from].utilization == forecasts[from].offloaded
            &&& after[from].token_balance == before[from].token_balance - FEE
            &&& exists|k: int|
                {
                    &&& 0 <= k < before[from].neighbors.len()
                    &&& before[from].neighbors[k] == to
                    &&& after[to].utilization == #[trigger] forecasts[from].loaded@[k]
                }
            &&& after[to].utilization <= ACCEPT_CEILING
            &&& after[to].token_balance == before[to].token_balance + FEE
            &&& forall|y: int|
                0 <= y < plan.len() && ((#[trigger] plan[y]).from == from || plan[y].to == to)
                    ==> y == x
        }),
{
    let market = fleet.market(scores, forecasts);
    let plan = market.plan();
    market.law_plan();
    lemma_settled_each(fleet.agents, plan, x);
    assert(market.fair(plan[x]));
    let from = plan[x].from as int;
    let k = choose|k: int|
        0 <= k < fleet.agents[from].neighbors.len() && plan[x] == market.migration(from, k);
    assert(forecasts[from].loaded@[k] >= fleet.agents[fleet.agents[from].neighbors[k] as int]
        .utilization);
    assert forall|y: int|
        0 <= y < plan.len() && ((#[trigger] plan[y]).from == from || plan[y].to
            == plan[x].to) implies y == x by {
        if y < x {
            assert(plan[y].from != plan[x].from && plan[y].to != plan[x].to);
        } else if x < y {
            assert(plan[x].from != plan[y].from && plan[x].to != plan[y].to);
        }
    }
}

/// Token supply is closed: a tick only redistributes tokens, it never makes or destroys
/// any.
pub proof fn law_tick_conserves_tokens(
    fleet: FleetState,
    scores: Seq<[Rank; 3]>,
    forecasts: Seq<Forecast>,
)
    requires
        fleet.agents.len() <= usize::MAX,
        fleet.market(scores, forecasts).complete(),
        payable(fleet.agents, fleet.market(scores, forecasts).plan()),
    ensures
        tokens(fleet.ticked(scores, forecasts).agents) == tokens(fleet.agents),
{
    let market = fleet.market(scores, forecasts);
    market.law_plan();
    lemma_settled_tokens(fleet.agents, market.plan());
}

/// A part of the tokens is no more than all of them, while nobody is in debt.
proof fn lemma_two_balances(agents: Seq<AgentState>, i: int, j: int)
    requires
        forall|k: int| 0 <= k < agents.len() ==> (#[trigger] agents[k]).token_balance >= 0,
        0 <= i < agents.len(),
        0 <= j < agents.len(),
        i != j,
    ensures
        agents[i].token_balance + agents[j].token_balance <= tokens(agents),
        agents[i].token_balance <= tokens(agents),
        0 <= tokens(agents),
    decreases agents.len(),
{
    let rest = agents.drop_last();
    let last = agents.len() - 1;
    assert(forall|k: int| 0 <= k < rest.len() ==> #[trigger] rest[k] == agents[k]);
    lemma_balances(rest);
    if i < last && j < last {
        lemma_two_balances(rest, i, j);
    } else if i < last {
        lemma_one_balance(rest, i);
    } else {
        lemma_one_balance(rest, j);
    }
}

proof fn lemma_one_balance(agents: Seq<AgentState>, i: int)
    requires
        forall|k: int| 0 <= k < agents.len() ==> (#[trigger] agents[k]).token_balance >= 0,
        0 <= i < agents.len(),
    ensures
        agents[i].token_balance <= tokens(agents),
    decreases agents.len(),
{
    let rest = agents.drop_last();
    assert(forall|k: int| 0 <= k < rest.len() ==> #[trigger] rest[k] == agents[k]);
    lemma_balances(rest);
    if i < agents.len() - 1 {
        lemma_one_balance(rest, i);
    }
}

proof fn lemma_balances(agents: Seq<AgentState>)
    requires
        forall|k: int| 0 <= k < agents.len() ==> (#[trigger] agents[k]).token_balance >= 0,
    ensures
        0 <= tokens(agents),
    decreases agents.len(),
{
    if agents.len() > 0 {
        let rest = agents.drop_last();
        assert(forall|k: int| 0 <= k < rest.len() ==> #[trigger] rest[k] == agents[k]);
        lemma_balances(rest);
    }
}

/// A sound fleet can always read its pheromones, and every fee finds room on the balance
/// of the node that is paid.
pub proof fn law_sound_fleet_operates(
    fleet: FleetState,
    scores: Seq<[Rank; 3]>,
    forecasts: Seq<Forecast>,
)
    requires
        sound(fleet),
        scores.len() == fleet.agents.len(),
        forecasts.len() == fleet.agents.len(),
        forall|i: int|
            0 <= i < fleet.agents.len() ==> (#[trigger] forecasts[i]).loaded@.len()
                == fleet.agents[i].neighbors.len(),
    ensures
        linked(fleet.agents),
        forall|i: int| 0 <= i < fleet.agents.len() ==> (#[trigger] fleet.agents[i]).readable(),
        fleet.market(scores, forecasts).complete(),
        payable(fleet.agents, fleet.market(scores, forecasts).plan()),
{
    let market = fleet.market(scores, forecasts);
    lemma_ring_linked(fleet.agents);
    assert forall|i: int| 0 <= i < fleet.agents.len() implies (
    #[trigger] fleet.agents[i]).readable() by {
        let agent = fleet.agents[i];
        law_owned_level(agent.pheromones.demand, agent.id);
        law_owned_level(agent.pheromones.supply, agent.id);
        assert forall|k: int| 0 <= k < agent.neighbors.len() implies level(
            agent.pheromones.demand,
            #[trigger] agent.neighbors[k],
        ) <= u64::MAX by {
            law_owned_level(agent.pheromones.demand, agent.neighbors[k]);
        }
        assert forall|k: int| 0 <= k < agent.neighbors.len() implies level(
            agent.pheromones.supply,
            #[trigger] agent.neighbors[k],
        ) <= u64::MAX by {
            law_owned_level(agent.pheromones.supply, agent.neighbors[k]);
        }
    }
    assert forall|i: int| 0 <= i < market.agents.len() implies #[trigger] market.demand(i)
        <= u64::MAX by {
        let agent = fleet.agents[i];
        law_owned_level(agent.pheromones.demand, agent.id);
    }
    market.law_plan();
    let plan = market.plan();
    assert forall|x: int| 0 <= x < plan.len() implies fleet.agents[(
    #[trigger] plan[x]).to as int].token_balance + FEE <= i64::MAX by {
        assert(market.fair(plan[x]));
        lemma_two_balances(fleet.agents, plan[x].from as int, plan[x].to as int);
    }
}

/// Hearing keeps slots owned.
proof fn lemma_heard_owned(own: Pheromones, fleet: Seq<AgentState>, nodes: Seq<NodeId>)
    requires
        owned(own.demand),
        owned(own.supply),
        forall|k: int| 0 <= k < nodes.len() ==> #[trigger] nodes[k] < fleet.len(),
        forall|i: int|
            0 <= i < fleet.len() ==> owned((#[trigger] fleet[i]).pheromones.demand) && owned(
                fleet[i].pheromones.supply,
            ),
    ensures
        owned(heard(own, fleet, nodes).demand),
        owned(heard(own, fleet, nodes).supply),
    decreases nodes.len(),
{
    if nodes.len() > 0 {
        let rest = nodes.drop_last();
        assert(forall|k: int| 0 <= k < rest.len() ==> #[trigger] rest[k] == nodes[k]);
        lemma_heard_owned(own, fleet, rest);
        assert(nodes[nodes.len() - 1] < fleet.len());
        let before = heard(own, fleet, rest);
        let last = fleet[nodes.last() as int].pheromones;
        law_slots_stay_owned(before.demand, last.demand, 0, 0);
        law_slots_stay_owned(before.supply, last.supply, 0, 0);
    }
}

/// The sum of the tokens only depends on the balances.
proof fn lemma_tokens_same(a: Seq<AgentState>, b: Seq<AgentState>)
    requires
        a.len() == b.len(),
        forall|i: int|
            0 <= i < a.len() ==> (#[trigger] a[i]).token_balance == b[i].token_balance,
    ensures
        tokens(a) == tokens(b),
    decreases a.len(),
{
    if a.len() > 0 {
        let c = a.drop_last();
        let d = b.drop_last();
        assert forall|i: int| 0 <= i < c.len() implies (#[trigger] c[i]).token_balance
            == d[i].token_balance by {
            assert(c[i] == a[i]);
        }
        lemma_tokens_same(c, d);
        assert(a[a.len() - 1].token_balance == b[a.len() - 1].token_balance);
    }
}

/// A new fleet is sound, as far as its tokens can be counted, and each of its agents has
/// the same tokens.
pub proof fn law_new_fleet_is_sound(n: nat, seed: u64)
    requires
        n <= usize::MAX,
        n * 100 <= i64::MAX,
    ensures
        sound(drawn_fleet(n, seed)),
        tokens(drawn_fleet(n, seed).agents) == n * 100,
{
    let fleet = drawn_fleet(n, seed);
    assert forall|i: int| 0 <= i < n implies {
        let agent = #[trigger] fleet.agents[i];
        &&& agent.id == i
        &&& owned(agent.pheromones.demand)
        &&& owned(agent.pheromones.supply)
        &&& ZERO <= agent.utilization <= ONE
        &&& agent.token_balance == 100
    } by {
        assert(fleet.agents[i] == fleet_agent(n as int, seed, i));
    }
    assert forall|i: int, j: int|
        0 <= i < n && 0 <= j < n implies #[trigger] no_better(
        fleet.agents[j].pheromones,
        fleet.agents[i].pheromones,
        i as NodeId,
    ) by {
        assert(fleet.agents[i].pheromones == Pheromones::empty());
        assert(fleet.agents[j].pheromones == Pheromones::empty());
    }
    lemma_tokens_of_equals(fleet.agents);
}

proof fn lemma_tokens_of_equals(agents: Seq<AgentState>)
    requires
        forall|i: int| 0 <= i < agents.len() ==> (#[trigger] agents[i]).token_balance == 100,
    ensures
        tokens(agents) == agents.len() * 100,
    decreases agents.len(),
{
    if agents.len() > 0 {
        let rest = agents.drop_last();
        assert(forall|i: int| 0 <= i < rest.len() ==> #[trigger] rest[i] == agents[i]);
        lemma_tokens_of_equals(rest);
    }
}

/// Emission keeps a fleet sound, with as many tokens as before.
pub proof fn law_emission_keeps_soundness(fleet: FleetState, signals: Seq<Signal>)
    requires
        sound(fleet),
        forall|i: int|
            0 <= i < fleet.agents.len() ==> (#[trigger] fleet.agents[i]).can_emit(signals[i]),
    ensures
        sound(fleet.emitted(signals)),
        tokens(fleet.emitted(signals).agents) == tokens(fleet.agents),
{
    let after = fleet.emitted(signals);
    assert forall|i: int| 0 <= i < after.agents.len() implies {
        let agent = #[trigger] after.agents[i];
        &&& agent.neighbors == ring(i, after.agents.len() as int)
        &&& agent.id == i
        &&& owned(agent.pheromones.demand)
        &&& owned(agent.pheromones.supply)
        &&& ZERO <= agent.utilization <= ONE
        &&& agent.token_balance > 0
        &&& agent.token_balance == fleet.agents[i].token_balance
    } by {
        let before = fleet.agents[i];
        law_slots_stay_owned(
            before.pheromones.demand,
            before.pheromones.demand,
            before.id,
            signals[i].demand,
        );
        law_slots_stay_owned(
            before.pheromones.supply,
            before.pheromones.supply,
            before.id,
            signals[i].supply,
        );
    }
    assert forall|i: int, j: int|
        0 <= i < after.agents.len() && 0 <= j < after.agents.len() implies #[trigger] no_better(
        after.agents[j].pheromones,
        after.agents[i].pheromones,
        i as NodeId,
    ) by {
        let node = i as NodeId;
        let mine = fleet.agents[i].pheromones;
        let theirs = fleet.agents[j].pheromones;
        assert(fleet.agents[i].id == i && fleet.agents[j].id == j);
        assert(fleet.agents[i].can_emit(signals[i]));
        assert(no_better(theirs, mine, node));
        assert(no_better(mine, after.agents[i].pheromones, node));
        if i == j {
            law_included_partial_order(
                trail(after.agents[i].pheromones.demand, node),
                trail(mine.demand, node),
                trail(mine.demand, node),
            );
            law_included_partial_order(
                trail(after.agents[i].pheromones.supply, node),
                trail(mine.supply, node),
                trail(mine.supply, node),
            );
        } else {
            assert(no_better(after.agents[j].pheromones, theirs, node));
            lemma_no_better_transitive(after.agents[j].pheromones, theirs, mine, node);
            lemma_no_better_transitive(
                after.agents[j].pheromones,
                mine,
                after.agents[i].pheromones,
                node,
            );
        }
    }
    lemma_tokens_same(after.agents, fleet.agents);
}

/// Gossip keeps a fleet sound, with as many tokens as before.
pub proof fn law_gossip_keeps_soundness(fleet: FleetState)
    requires
        sound(fleet),
    ensures
        sound(fleet.gossiped()),
        tokens(fleet.gossiped().agents) == tokens(fleet.agents),
{
    let after = fleet.gossiped();
    lemma_ring_linked(fleet.agents);
    assert forall|i: int| 0 <= i < after.agents.len() implies {
        let agent = #[trigger] after.agents[i];
        &&& agent.neighbors == ring(i, after.agents.len() as int)
        &&& agent.id == i
        &&& owned(agent.pheromones.demand)
        &&& owned(agent.pheromones.supply)
        &&& ZERO <= agent.utilization <= ONE
        &&& agent.token_balance > 0
        &&& agent.token_balance == fleet.agents[i].token_balance
    } by {
        let before = fleet.agents[i];
        lemma_heard_owned(before.pheromones, fleet.agents, before.neighbors);
    }
    assert forall|i: int, j: int|
        0 <= i < after.agents.len() && 0 <= j < after.agents.len() implies #[trigger] no_better(
        after.agents[j].pheromones,
        after.agents[i].pheromones,
        i as NodeId,
    ) by {
        let node = i as NodeId;
        let mine = fleet.agents[i].pheromones;
        assert forall|k: int| 0 <= k < fleet.agents.len() implies no_better(
            (#[trigger] fleet.agents[k]).pheromones,
            mine,
            node,
        ) by {}
        lemma_heard_no_better(
            fleet.agents[j].pheromones,
            fleet.agents,
            fleet.agents[j].neighbors,
            mine,
            node,
        );
        law_gossip_round(fleet, i, mine);
        lemma_included_no_better(mine, after.agents[i].pheromones, node);
        lemma_no_better_transitive(
            after.agents[j].pheromones,
            mine,
            after.agents[i].pheromones,
            node,
        );
    }
    lemma_tokens_same(after.agents, fleet.agents);
}

/// A tick keeps a fleet sound: utilizations stay within [0, 1], nobody runs out of tokens,
/// and there are as many tokens as before. Nobody ends up above the limit for taking work
/// who was not as loaded before.
pub proof fn law_tick_keeps_soundness(
    fleet: FleetState,
    scores: Seq<[Rank; 3]>,
    forecasts: Seq<Forecast>,
)
    requires
        sound(fleet),
        fleet.tick < u64::MAX,
        scores.len() == fleet.agents.len(),
        forecasts.len() == fleet.agents.len(),
        forall|i: int|
            0 <= i < fleet.agents.len() ==> (#[trigger] forecasts[i]).loaded@.len()
                == fleet.agents[i].neighbors.len(),
    ensures
        sound(fleet.ticked(scores, forecasts)),
        tokens(fleet.ticked(scores, forecasts).agents) == tokens(fleet.agents),
        forall|i: int|
            0 <= i < fleet.agents.len() ==> {
                let load = (#[trigger] fleet.ticked(scores, forecasts).agents[i]).utilization;
                load <= fleet.agents[i].utilization || load <= ACCEPT_CEILING
            },
{
    let market = fleet.market(scores, forecasts);
    let plan = market.plan();
    let after = fleet.ticked(scores, forecasts);
    law_sound_fleet_operates(fleet, scores, forecasts);
    law_tick_conserves_tokens(fleet, scores, forecasts);
    market.law_plan();
    lemma_settled_len(fleet.agents, plan);
    assert forall|i: int| 0 <= i < after.agents.len() implies {
        let agent = #[trigger] after.agents[i];
        &&& agent.neighbors == ring(i, after.agents.len() as int)
        &&& agent.id == i
        &&& owned(agent.pheromones.demand)
        &&& owned(agent.pheromones.supply)
        &&& ZERO <= agent.utilization <= ONE
        &&& agent.token_balance > 0
        &&& agent.utilization <= fleet.agents[i].utilization || agent.utilization <= ACCEPT_CEILING
    } by {
        law_tick_effect(fleet, scores, forecasts, i);
        assert(fleet.agents[i].id == i);
    }
    assert forall|i: int, j: int|
        0 <= i < after.agents.len() && 0 <= j < after.agents.len() implies #[trigger] no_better(
        after.agents[j].pheromones,
        after.agents[i].pheromones,
        i as NodeId,
    ) by {
        law_tick_effect(fleet, scores, forecasts, i);
        law_tick_effect(fleet, scores, forecasts, j);
        assert(no_better(fleet.agents[j].pheromones, fleet.agents[i].pheromones, i as NodeId));
    }
}

} // verus!
