//! The market: who hands work to whom.

use std::collections::HashSet;

use vstd::prelude::*;

use crate::agent::{Agent, AgentState};
use crate::fleet::{linked, Fleet};
use crate::gcounter::NodeId;
use crate::net::Action;
use crate::pheromone::level;
use crate::rank::Rank;

verus! {

broadcast use vstd::std_specs::hash::group_hash_axioms;

/// The tokens that a migration moves from the node that hands work out to the node that
/// takes it. A node pays only out of a larger balance.
pub const FEE: i64 = 10;

/// The rank of 0.3. A node hands out work only above this utilization.
pub const OFFLOAD_FLOOR: Rank = 0x3E99_999A;

/// The rank of 0.95. A node takes work only up to this utilization.
pub const ACCEPT_CEILING: Rank = 0x3F73_3333;

/// The utilizations that a migration from a node would lead to.
#[derive(Debug, PartialEq, Eq)]
pub struct Forecast {
    /// That of the node itself, after it gave up 30% of its utilization.
    pub offloaded: Rank,
    /// That of each neighbor, after it took over this workload.
    pub loaded: Vec<Rank>,
}

/// A migration of work, with the utilizations that it leads to.
#[derive(Debug, Clone, Copy, PartialEq, Eq)]
pub struct Migration {
    pub from: NodeId,
    pub to: NodeId,
    pub offloaded: Rank,
    pub loaded: Rank,
}

/// Some migration of `plan` starts at `node`.
pub open spec fn hands_out(plan: Seq<Migration>, node: NodeId) -> bool {
    exists|x: int| 0 <= x < plan.len() && (#[trigger] plan[x]).from == node
}

/// Some migration of `plan` ends at `node`.
pub open spec fn takes(plan: Seq<Migration>, node: NodeId) -> bool {
    exists|x: int| 0 <= x < plan.len() && (#[trigger] plan[x]).to == node
}

/// Every migration of `plan` is between positions of a fleet of `n`, and no position takes
/// part in two migrations or at both ends of one.
pub open spec fn separate(plan: Seq<Migration>, n: int) -> bool {
    &&& forall|x: int|
        0 <= x < plan.len() ==> (#[trigger] plan[x]).from < n && plan[x].to < n
    &&& forall|x: int, y: int|
        0 <= x < plan.len() && 0 <= y < plan.len() ==> (#[trigger] plan[x]).from
            != (#[trigger] plan[y]).to
    &&& forall|x: int, y: int|
        0 <= x < y < plan.len() ==> (#[trigger] plan[x]).from != (#[trigger] plan[y]).from
            && plan[x].to != plan[y].to
}

/// Every payer of `plan` has more than the fee.
pub open spec fn affordable(agents: Seq<AgentState>, plan: Seq<Migration>) -> bool {
    forall|x: int|
        0 <= x < plan.len() ==> agents[(#[trigger] plan[x]).from as int].token_balance > FEE
}

/// Whoever is paid in `plan` has room for the fee.
pub open spec fn payable(agents: Seq<AgentState>, plan: Seq<Migration>) -> bool {
    forall|x: int|
        0 <= x < plan.len() ==> agents[(#[trigger] plan[x]).to as int].token_balance + FEE
            <= i64::MAX
}

/// A plan is payable where ten more tokens fit the balance of everybody who is paid.
pub proof fn law_room_for_fees(agents: Seq<AgentState>, plan: Seq<Migration>)
    ensures
        payable(agents, plan) <==> forall|x: int|
            0 <= x < plan.len() ==> agents[(#[trigger] plan[x]).to as int].token_balance + 10
                <= i64::MAX,
{
}

/// What migrations are matched on.
pub struct Market {
    pub agents: Seq<AgentState>,
    pub actions: Seq<Action>,
    pub forecasts: Seq<Forecast>,
}

impl Market {
    /// The demand that the agent at position `i` signals.
    pub open spec fn demand(self, i: int) -> nat {
        level(self.agents[i].pheromones.demand, self.agents[i].id)
    }

    /// The position of a neighbor.
    pub open spec fn neighbor(self, i: int, k: int) -> int {
        self.agents[i].neighbors[k] as int
    }

    /// The agent at position `i` wants to hand out work, has enough of it and can pay.
    pub open spec fn offers(self, i: int) -> bool {
        &&& self.actions[i] == Action::MigrateWork
        &&& self.agents[i].utilization > OFFLOAD_FLOOR
        &&& self.agents[i].token_balance > FEE
    }

    /// Neighbor `k` of the agent at position `i` wants to take work, has tokens, was not
    /// claimed in `plan` and has room for the work.
    pub open spec fn accepts(self, i: int, k: int, plan: Seq<Migration>) -> bool {
        &&& 0 <= k < self.agents[i].neighbors.len()
        &&& self.actions[self.neighbor(i, k)] == Action::AcceptWork
        &&& self.agents[self.neighbor(i, k)].token_balance > 0
        &&& !takes(plan, self.agents[i].neighbors[k])
        &&& self.forecasts[i].loaded@[k] <= ACCEPT_CEILING
    }

    /// Neighbor `k` accepts, and is the first of those that accept with the least demand.
    pub open spec fn chosen(self, i: int, k: int, plan: Seq<Migration>) -> bool {
        &&& self.accepts(i, k, plan)
        &&& forall|other: int| #[trigger]
            self.accepts(i, other, plan) ==> {
                &&& self.demand(self.neighbor(i, k)) <= self.demand(self.neighbor(i, other))
                &&& other < k ==> self.demand(self.neighbor(i, k)) < self.demand(
                    self.neighbor(i, other),
                )
            }
    }

    /// The migration from the agent at position `i` to its neighbor `k`.
    pub open spec fn migration(self, i: int, k: int) -> Migration {
        Migration {
            from: i as NodeId,
            to: self.agents[i].neighbors[k],
            offloaded: self.forecasts[i].offloaded,
            loaded: self.forecasts[i].loaded@[k],
        }
    }

    /// The migrations of the first `count` agents. Each agent that offers work, in the
    /// order of positions, claims the neighbor that is chosen among those still free.
    pub open spec fn matched(self, count: nat) -> Seq<Migration>
        decreases count,
    {
        if count == 0 {
            Seq::empty()
        } else {
            let plan = self.matched((count - 1) as nat);
            let i = count - 1;
            if self.offers(i) && exists|k: int| self.chosen(i, k, plan) {
                plan.push(self.migration(i, choose|k: int| self.chosen(i, k, plan)))
            } else {
                plan
            }
        }
    }

    /// All migrations of a tick.
    pub open spec fn plan(self) -> Seq<Migration> {
        self.matched(self.agents.len())
    }

    /// The parts of the market fit together, and the demands fit a machine word.
    pub open spec fn complete(self) -> bool {
        &&& self.actions.len() == self.agents.len()
        &&& self.forecasts.len() == self.agents.len()
        &&& linked(self.agents)
        &&& forall|i: int|
            0 <= i < self.agents.len() ==> (#[trigger] self.forecasts[i]).loaded@.len()
                == self.agents[i].neighbors.len()
        &&& forall|i: int| 0 <= i < self.agents.len() ==> #[trigger] self.demand(i) <= u64::MAX
    }

    /// Migrations can be matched wherever there is an action and a forecast for every agent,
    /// with a load for each of its neighbors, every neighbor is a position, and the demands
    /// fit a machine word.
    pub proof fn law_market_that_can_be_matched(self)
        ensures
            self.complete() <==> {
                &&& self.actions.len() == self.agents.len()
                &&& self.forecasts.len() == self.agents.len()
                &&& forall|i: int, k: int|
                    0 <= i < self.agents.len() && 0 <= k < self.agents[i].neighbors.len()
                        ==> #[trigger] self.agents[i].neighbors[k] < self.agents.len()
                &&& forall|i: int|
                    0 <= i < self.agents.len() ==> (#[trigger] self.forecasts[i]).loaded@.len()
                        == self.agents[i].neighbors.len()
                &&& forall|i: int|
                    0 <= i < self.agents.len() ==> level(
                        (#[trigger] self.agents[i]).pheromones.demand,
                        self.agents[i].id,
                    ) <= u64::MAX
            },
    {
        if forall|i: int|
            0 <= i < self.agents.len() ==> #[trigger] self.demand(i) <= u64::MAX {
            assert forall|i: int| 0 <= i < self.agents.len() implies level(
                (#[trigger] self.agents[i]).pheromones.demand,
                self.agents[i].id,
            ) <= u64::MAX by {
                assert(self.demand(i) <= u64::MAX);
            }
        }
    }

    /// What holds of every migration of a tick: it goes from an agent that offers work to
    /// a neighbor that accepts it, has tokens and ends up within its limit.
    pub open spec fn fair(self, m: Migration) -> bool {
        &&& m.from < self.agents.len()
        &&& m.to < self.agents.len()
        &&& self.offers(m.from as int)
        &&& self.actions[m.to as int] == Action::AcceptWork
        &&& self.agents[m.to as int].token_balance > 0
        &&& exists|k: int|
            0 <= k < self.agents[m.from as int].neighbors.len() && m == self.migration(
                m.from as int,
                k,
            )
        &&& m.loaded <= ACCEPT_CEILING
    }

    /// The migrations of the first `count` agents are fair, start in the order of
    /// positions, and no agent takes part in two of them.
    pub proof fn lemma_matched(self, count: nat)
        requires
            self.complete(),
            count <= self.agents.len() <= usize::MAX,
        ensures
            forall|x: int|
                0 <= x < self.matched(count).len() ==> self.fair(#[trigger] self.matched(count)[x]),
            forall|x: int|
                0 <= x < self.matched(count).len() ==> (#[trigger] self.matched(count)[x]).from
                    < count,
            separate(self.matched(count), self.agents.len() as int),
        decreases count,
    {
        if count > 0 {
            let before = self.matched((count - 1) as nat);
            let i = count - 1;
            self.lemma_matched((count - 1) as nat);
            if self.offers(i) && exists|k: int| self.chosen(i, k, before) {
                let k = choose|k: int| self.chosen(i, k, before);
                let next = self.migration(i, k);
                let plan = before.push(next);
                assert(self.agents[i].neighbors[k] < self.agents.len());
                assert(self.fair(next));
                assert forall|x: int| 0 <= x < plan.len() implies self.fair(#[trigger] plan[x])
                    && plan[x].from < count by {
                    if x < before.len() {
                        assert(plan[x] == before[x]);
                    }
                }
                assert forall|x: int, y: int| 0 <= x < y < plan.len() implies (
                #[trigger] plan[x]).from != (#[trigger] plan[y]).from && plan[x].to
                    != plan[y].to by {
                    assert(plan[x] == before[x]);
                    if y < before.len() {
                        assert(plan[y] == before[y]);
                    } else {
                        assert(before[x].to != next.to);
                    }
                }
            }
        }
    }

    /// The plan of a tick is fair, affordable, and no agent takes part in two migrations.
    pub proof fn law_plan(self)
        requires
            self.complete(),
            self.agents.len() <= usize::MAX,
        ensures
            forall|x: int| 0 <= x < self.plan().len() ==> self.fair(#[trigger] self.plan()[x]),
            separate(self.plan(), self.agents.len() as int),
            affordable(self.agents, self.plan()),
    {
        self.lemma_matched(self.agents.len());
    }

    /// Later agents claim further targets and leave the earlier migrations as they are.
    proof fn lemma_matched_grows(self, early: nat, late: nat)
        requires
            early <= late,
        ensures
            self.matched(early).is_prefix_of(self.matched(late)),
        decreases late,
    {
        if early < late {
            self.lemma_matched_grows(early, (late - 1) as nat);
            let before = self.matched((late - 1) as nat);
            assert(before.is_prefix_of(self.matched(late)));
            let first = self.matched(early);
            assert(first =~= self.matched(late).take(first.len() as int));
        }
    }

    /// No migration is missed: where an agent offers work and hands out none, every
    /// neighbor does not want work, has no tokens, has no room for the work, or was claimed
    /// by an agent at an earlier position.
    pub proof fn law_no_match_missed(self, i: int, k: int)
        requires
            self.complete(),
            self.agents.len() <= usize::MAX,
            0 <= i < self.agents.len(),
            self.offers(i),
            !hands_out(self.plan(), i as NodeId),
        ensures
            !self.accepts(i, k, self.matched(i as nat)),
    {
        let plan = self.plan();
        let before = self.matched(i as nat);
        self.lemma_matched_grows((i + 1) as nat, self.agents.len());
        if self.accepts(i, k, before) {
            self.lemma_some_chosen(i, before, k);
            let next = self.matched((i + 1) as nat);
            assert(next[before.len() as int].from == i as NodeId);
            assert(plan[before.len() as int] == next[before.len() as int]);
        }
    }

    /// Where a migration of the plan comes from: the agent at its start offers work, the
    /// migrations before it are those of the agents before, and its target is the neighbor
    /// that is chosen after those.
    proof fn lemma_matched_at(self, count: nat, x: int)
        requires
            self.complete(),
            count <= self.agents.len() <= usize::MAX,
            0 <= x < self.matched(count).len(),
        ensures
            ({
                let i = self.matched(count)[x].from as int;
                &&& 0 <= i < count
                &&& self.offers(i)
                &&& self.matched(i as nat) == self.matched(count).take(x)
                &&& exists|k: int| #[trigger]
                    self.chosen(i, k, self.matched(i as nat)) && self.matched(count)[x]
                        == self.migration(i, k)
            }),
        decreases count,
    {
        if count > 0 {
            let before = self.matched((count - 1) as nat);
            let after = self.matched(count);
            if x < before.len() {
                self.lemma_matched_at((count - 1) as nat, x);
                assert(after[x] == before[x]);
                assert(after.take(x) =~= before.take(x));
            } else {
                let i = count - 1;
                let k = choose|k: int| self.chosen(i, k, before);
                assert(self.chosen(i, k, before) && after[x] == self.migration(i, k));
                assert(after.take(x) =~= before);
            }
        }
    }

    /// What a migration of the plan is, field by field. It starts at an agent that decided
    /// to migrate work, is loaded above 0.3 and has more than ten tokens. It ends at a
    /// neighbor that decided to accept work, has tokens, would be loaded to 0.95 at most and
    /// is not the target of a migration before. No other neighbor of which the same holds
    /// has less demand, and none that comes first has as little.
    pub proof fn law_migration_field_by_field(self, x: int)
        requires
            self.complete(),
            self.agents.len() <= usize::MAX,
            0 <= x < self.plan().len(),
        ensures
            ({
                let m = self.plan()[x];
                let source = self.agents[m.from as int];
                let forecast = self.forecasts[m.from as int];
                let demand = |j: int|
                    level(self.agents[j].pheromones.demand, self.agents[j].id);
                &&& m.from < self.agents.len()
                &&& self.actions[m.from as int] == Action::MigrateWork
                &&& source.utilization > 0x3E99_999A
                &&& source.token_balance > 10
                &&& m.offloaded == forecast.offloaded
                &&& self.actions[m.to as int] == Action::AcceptWork
                &&& self.agents[m.to as int].token_balance > 0
                &&& m.loaded <= 0x3F73_3333
                &&& forall|y: int|
                    0 <= y < x ==> (#[trigger] self.plan()[y]).to != m.to && self.plan()[y].from
                        < m.from
                &&& exists|k: int|
                    {
                        &&& 0 <= k < source.neighbors.len()
                        &&& #[trigger] source.neighbors[k] == m.to
                        &&& m.loaded == forecast.loaded@[k]
                        &&& forall|other: int|
                            {
                                let node = #[trigger] source.neighbors[other] as int;
                                &&& 0 <= other < source.neighbors.len()
                                &&& self.actions[node] == Action::AcceptWork
                                &&& self.agents[node].token_balance > 0
                                &&& forecast.loaded@[other] <= 0x3F73_3333
                                &&& forall|y: int|
                                    0 <= y < x ==> (#[trigger] self.plan()[y]).to != node
                            } ==> {
                                let node = source.neighbors[other] as int;
                                &&& demand(m.to as int) <= demand(node)
                                &&& other < k ==> demand(m.to as int) < demand(node)
                            }
                    }
            }),
    {
        let plan = self.plan();
        let m = plan[x];
        let i = m.from as int;
        let n = self.agents.len();
        self.lemma_matched(n);
        self.lemma_matched_at(n, x);
        let before = self.matched(i as nat);
        let k = choose|k: int| #[trigger] self.chosen(i, k, before) && m == self.migration(i, k);
        self.lemma_matched(i as nat);
        let source = self.agents[i];
        let forecast = self.forecasts[i];
        let demand = |j: int| level(self.agents[j].pheromones.demand, self.agents[j].id);
        assert(forall|y: int| 0 <= y < x ==> #[trigger] plan[y] == before[y]);
        assert(self.accepts(i, k, before));
        assert forall|other: int|
            {
                let node = #[trigger] source.neighbors[other] as int;
                &&& 0 <= other < source.neighbors.len()
                &&& self.actions[node] == Action::AcceptWork
                &&& self.agents[node].token_balance > 0
                &&& forecast.loaded@[other] <= 0x3F73_3333
                &&& forall|y: int| 0 <= y < x ==> (#[trigger] plan[y]).to != node
            } implies {
            let node = source.neighbors[other] as int;
            &&& demand(m.to as int) <= demand(node)
            &&& other < k ==> demand(m.to as int) < demand(node)
        } by {
            assert(!takes(before, source.neighbors[other])) by {
                if takes(before, source.neighbors[other]) {
                    let y = choose|y: int|
                        0 <= y < before.len() && (#[trigger] before[y]).to
                            == source.neighbors[other];
                    assert(plan[y].to == source.neighbors[other]);
                }
            }
            assert(self.accepts(i, other, before));
        }
        assert(source.neighbors[k] == m.to);
    }

    /// No migration is missed, field by field. Where an agent decided to migrate work, is
    /// loaded above 0.3, has more than ten tokens and hands out nothing, each neighbor did
    /// not decide to accept work, has no tokens, would be loaded above 0.95, or is the target
    /// of a migration from an agent at an earlier position.
    pub proof fn law_every_offer_is_served(self, i: int, k: int)
        requires
            self.complete(),
            self.agents.len() <= usize::MAX,
            0 <= i < self.agents.len(),
            0 <= k < self.agents[i].neighbors.len(),
            self.actions[i] == Action::MigrateWork,
            self.agents[i].utilization > 0x3E99_999A,
            self.agents[i].token_balance > 10,
            forall|x: int| 0 <= x < self.plan().len() ==> (#[trigger] self.plan()[x]).from != i,
        ensures
            ({
                let node = self.agents[i].neighbors[k];
                ||| self.actions[node as int] != Action::AcceptWork
                ||| self.agents[node as int].token_balance <= 0
                ||| self.forecasts[i].loaded@[k] > 0x3F73_3333
                ||| exists|x: int|
                    0 <= x < self.plan().len() && (#[trigger] self.plan()[x]).from < i
                        && self.plan()[x].to == node
            }),
    {
        let node = self.agents[i].neighbors[k];
        let before = self.matched(i as nat);
        self.law_no_match_missed(i, k);
        self.lemma_matched(i as nat);
        self.lemma_matched_grows(i as nat, self.agents.len());
        if takes(before, node) {
            let x = choose|x: int| 0 <= x < before.len() && (#[trigger] before[x]).to == node;
            assert(self.plan()[x] == before[x]);
        }
    }

    /// Where some neighbor accepts, one is chosen.
    proof fn lemma_some_chosen(self, i: int, plan: Seq<Migration>, k: int)
        requires
            self.accepts(i, k, plan),
        ensures
            exists|best: int| self.chosen(i, best, plan),
        decreases self.demand(self.neighbor(i, k)), k,
    {
        if !self.chosen(i, k, plan) {
            let other = choose|other: int| #[trigger]
                self.accepts(i, other, plan) && !({
                    &&& self.demand(self.neighbor(i, k)) <= self.demand(self.neighbor(i, other))
                    &&& other < k ==> self.demand(self.neighbor(i, k)) < self.demand(
                        self.neighbor(i, other),
                    )
                });
            self.lemma_some_chosen(i, plan, other);
        }
    }

    /// At most one neighbor is chosen.
    proof fn lemma_chosen_unique(self, i: int, a: int, b: int, plan: Seq<Migration>)
        requires
            self.chosen(i, a, plan),
            self.chosen(i, b, plan),
        ensures
            a == b,
    {
        assert(self.accepts(i, a, plan) && self.accepts(i, b, plan));
    }
}

/// A further migration claims its own target, and no other.
proof fn lemma_takes_push(plan: Seq<Migration>, next: Migration)
    ensures
        forall|node: NodeId| #[trigger]
            takes(plan.push(next), node) <==> takes(plan, node) || node == next.to,
{
    assert forall|node: NodeId| #[trigger] takes(plan.push(next), node) <==> takes(plan, node)
        || node == next.to by {
        if takes(plan, node) {
            let x = choose|x: int| 0 <= x < plan.len() && (#[trigger] plan[x]).to == node;
            assert(plan.push(next)[x] == plan[x]);
        }
        if node == next.to {
            assert(plan.push(next)[plan.len() as int] == next);
        }
        if takes(plan.push(next), node) && node != next.to {
            let x = choose|x: int|
                0 <= x < plan.push(next).len() && (#[trigger] plan.push(next)[x]).to == node;
            assert(plan[x] == plan.push(next)[x]);
        }
    }
}

impl Fleet {
    /// Matches the agents that hand out work with neighbors that take it.
    ///
    /// Each MigrateWork agent, in the order of positions, claims one AcceptWork neighbor
    /// with tokens and with room for the work, the one with the least demand. A node without
    /// tokens takes no work.
    pub fn plan(&self, actions: &Vec<Action>, forecasts: &Vec<Forecast>) -> (plan: Vec<Migration>)
        requires
            (Market { agents: self@.agents, actions: actions@, forecasts: forecasts@ }).complete(),
        ensures
            plan@ == (Market {
                agents: self@.agents,
                actions: actions@,
                forecasts: forecasts@,
            }).plan(),
    {
        let ghost market = Market {
            agents: self@.agents,
            actions: actions@,
            forecasts: forecasts@,
        };
        let count: usize = self.agents.len();
        let mut demands: Vec<u64> = Vec::new();
        for i in 0..count
            invariant
                market.complete(),
                market.agents == self@.agents,
                count == self.agents@.len(),
                demands@.len() == i,
                forall|j: int| 0 <= j < i ==> #[trigger] demands@[j] == market.demand(j),
        {
            assert(market.demand(i as int) <= u64::MAX);
            assert(self@.agents[i as int] == self.agents@[i as int]@);
            let agent: &Agent = &self.agents[i];
            demands.push(agent.pheromone_map.demand_total(agent.id));
        }
        let mut claimed: HashSet<NodeId> = HashSet::new();
        let mut plan: Vec<Migration> = Vec::new();
        for i in 0..count
            invariant
                market.complete(),
                market.agents == self@.agents,
                market.actions == actions@,
                market.forecasts == forecasts@,
                count == self.agents@.len(),
                count == market.agents.len(),
                demands@.len() == count,
                forall|j: int| 0 <= j < count ==> #[trigger] demands@[j] == market.demand(j),
                plan@ == market.matched(i as nat),
                forall|j: NodeId| claimed@.contains(j) <==> takes(plan@, j),
        {
            assert(market.agents[i as int] == self.agents@[i as int]@);
            let agent: &Agent = &self.agents[i];
            if actions[i] == Action::MigrateWork && agent.utilization > OFFLOAD_FLOOR
                && agent.token_balance > FEE {
                let mut best: Option<usize> = None;
                let forecast: &Forecast = &forecasts[i];
                let width: usize = agent.neighbors.len();
                for k in 0..width
                    invariant
                        market.complete(),
                        market.agents == self@.agents,
                        market.actions == actions@,
                        market.forecasts == forecasts@,
                        count == market.agents.len(),
                        count == self.agents@.len(),
                        i < count,
                        market.agents[i as int] == agent@,
                        forecast == forecasts@[i as int],
                        width == agent.neighbors@.len(),
                        demands@.len() == count,
                        forall|j: int|
                            0 <= j < count ==> #[trigger] demands@[j] == market.demand(j),
                        forall|j: NodeId| claimed@.contains(j) <==> takes(plan@, j),
                        match best {
                            None => forall|other: int|
                                0 <= other < k ==> !market.accepts(i as int, other, plan@),
                            Some(b) => {
                                &&& b < k
                                &&& market.accepts(i as int, b as int, plan@)
                                &&& forall|other: int|
                                    0 <= other < k && #[trigger] market.accepts(
                                        i as int,
                                        other,
                                        plan@,
                                    ) ==> {
                                        &&& market.demand(market.neighbor(i as int, b as int))
                                            <= market.demand(market.neighbor(i as int, other))
                                        &&& other < b ==> market.demand(
                                            market.neighbor(i as int, b as int),
                                        ) < market.demand(market.neighbor(i as int, other))
                                    }
                            },
                        },
                {
                    let j: NodeId = agent.neighbors[k];
                    assert(market.agents[i as int].neighbors[k as int] < count);
                    assert(forecasts@[i as int].loaded@.len() == width);
                    assert(market.agents[j as int] == self.agents@[j as int]@);
                    if actions[j] == Action::AcceptWork && self.agents[j].token_balance > 0
                        && !claimed.contains(&j) && forecast.loaded[k] <= ACCEPT_CEILING {
                        assert(market.accepts(i as int, k as int, plan@));
                        let better: bool = match best {
                            None => true,
                            Some(b) => {
                                assert(market.agents[i as int].neighbors[b as int] < count);
                                demands[j] < demands[agent.neighbors[b]]
                            },
                        };
                        if better {
                            best = Some(k);
                        }
                    }
                }
                match best {
                    Some(k) => {
                        let to: NodeId = agent.neighbors[k];
                        assert(market.chosen(i as int, k as int, plan@));
                        proof {
                            let other = choose|other: int|
                                market.chosen(i as int, other, plan@);
                            market.lemma_chosen_unique(i as int, k as int, other, plan@);
                        }
                        let ghost before = plan@;
                        assert(forecasts@[i as int].loaded@.len() == width);
                        claimed.insert(to);
                        plan.push(
                            Migration {
                                from: i,
                                to,
                                offloaded: forecast.offloaded,
                                loaded: forecast.loaded[k],
                            },
                        );
                        proof {
                            lemma_takes_push(before, plan@.last());
                        }
                    },
                    None => {
                        assert(forall|k: int| !market.accepts(i as int, k, plan@));
                    },
                }
            }
        }
        plan
    }
}

} // verus!
