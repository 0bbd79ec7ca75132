//! The end of a tick: load migrates and tokens change hands.

use vstd::prelude::*;

use crate::agent::AgentState;
use crate::fleet::{tokens, Fleet, FleetState};
use crate::gcounter::NodeId;
use crate::market::{
    affordable, hands_out, payable, separate, takes, Forecast, Market, Migration, FEE,
};
use crate::net::{decided, law_decisions_follow_the_scores, rectified, Action, TritNet};
use crate::rank::{Rank, NAN, ONE, ZERO};

verus! {

/// The actions that the scores of all agents lead to.
pub open spec fn all_decided(scores: Seq<[Rank; 3]>) -> Seq<Action> {
    scores.map_values(|s: [Rank; 3]| decided(s@))
}

impl AgentState {
    /// The agent after it handed out work and paid for it. The load that is left is not
    /// negative, and handing out work does not raise it.
    pub open spec fn offloaded(self, load: Rank) -> AgentState {
        let left = rectified(load);
        AgentState {
            utilization: if left > self.utilization {
                self.utilization
            } else {
                left
            },
            token_balance: (self.token_balance - FEE) as i64,
            ..self
        }
    }

    /// The agent after it took work and was paid for it. It is never more than fully loaded
    /// by that, and taking work does not lower its load.
    pub open spec fn loaded(self, load: Rank) -> AgentState {
        let reached = if load > ONE {
            ONE
        } else {
            load
        };
        AgentState {
            utilization: if reached < self.utilization {
                self.utilization
            } else {
                reached
            },
            token_balance: (self.token_balance + FEE) as i64,
            ..self
        }
    }
}

/// The agents after the migrations of `plan`, one after the other.
pub open spec fn settled(agents: Seq<AgentState>, plan: Seq<Migration>) -> Seq<AgentState>
    decreases plan.len(),
{
    if plan.len() == 0 {
        agents
    } else {
        let before = settled(agents, plan.drop_last());
        let next = plan.last();
        let paid = before.update(
            next.from as int,
            before[next.from as int].offloaded(next.offloaded),
        );
        paid.update(next.to as int, paid[next.to as int].loaded(next.loaded))
    }
}

impl FleetState {
    /// The market in which the scores and forecasts of all agents are matched.
    pub open spec fn market(self, scores: Seq<[Rank; 3]>, forecasts: Seq<Forecast>) -> Market {
        Market { agents: self.agents, actions: all_decided(scores), forecasts }
    }

    /// The fleet after it decided, matched and settled.
    pub open spec fn ticked(
        self,
        scores: Seq<[Rank; 3]>,
        forecasts: Seq<Forecast>,
    ) -> FleetState {
        FleetState {
            agents: settled(self.agents, self.market(scores, forecasts).plan()),
            tick: (self.tick + 1) as u64,
        }
    }
}

/// The first migrations of a separate plan are separate.
proof fn lemma_separate_prefix(plan: Seq<Migration>, n: int, count: int)
    requires
        separate(plan, n),
        0 <= count <= plan.len(),
    ensures
        separate(plan.take(count), n),
{
    let part = plan.take(count);
    assert forall|x: int| 0 <= x < part.len() implies (#[trigger] part[x]).from < n && part[x].to
        < n by {
        assert(part[x] == plan[x]);
    }
    assert forall|x: int, y: int| 0 <= x < part.len() && 0 <= y < part.len() implies (
    #[trigger] part[x]).from != (#[trigger] part[y]).to by {
        assert(part[x] == plan[x] && part[y] == plan[y]);
    }
    assert forall|x: int, y: int| 0 <= x < y < part.len() implies (#[trigger] part[x]).from != (
    #[trigger] part[y]).from && part[x].to != part[y].to by {
        assert(part[x] == plan[x] && part[y] == plan[y]);
    }
}

/// A settlement keeps the number of agents.
pub proof fn lemma_settled_len(agents: Seq<AgentState>, plan: Seq<Migration>)
    requires
        separate(plan, agents.len() as int),
    ensures
        settled(agents, plan).len() == agents.len(),
    decreases plan.len(),
{
    if plan.len() > 0 {
        lemma_separate_prefix(plan, agents.len() as int, plan.len() - 1);
        assert(plan.take(plan.len() - 1) =~= plan.drop_last());
        lemma_settled_len(agents, plan.drop_last());
        assert(plan[plan.len() - 1] == plan.last());
    }
}

/// A settlement leaves alone whoever takes no part in it.
pub proof fn lemma_settled_others(agents: Seq<AgentState>, plan: Seq<Migration>, i: int)
    requires
        separate(plan, agents.len() as int),
        0 <= i < agents.len(),
        !hands_out(plan, i as NodeId),
        !takes(plan, i as NodeId),
    ensures
        settled(agents, plan).len() == agents.len(),
        settled(agents, plan)[i] == agents[i],
    decreases plan.len(),
{
    lemma_settled_len(agents, plan);
    if plan.len() > 0 {
        let before = plan.drop_last();
        lemma_separate_prefix(plan, agents.len() as int, plan.len() - 1);
        assert(plan.take(plan.len() - 1) =~= before);
        assert(!hands_out(before, i as NodeId)) by {
            if hands_out(before, i as NodeId) {
                let x = choose|x: int|
                    0 <= x < before.len() && (#[trigger] before[x]).from == i as NodeId;
                assert(plan[x].from == i as NodeId);
            }
        }
        assert(!takes(before, i as NodeId)) by {
            if takes(before, i as NodeId) {
                let x = choose|x: int|
                    0 <= x < before.len() && (#[trigger] before[x]).to == i as NodeId;
                assert(plan[x].to == i as NodeId);
            }
        }
        lemma_settled_others(agents, before, i);
        assert(plan[plan.len() - 1] == plan.last());
    }
}

/// A settlement gives every migration its effect, exactly once: its source hands out work
/// and pays, its target takes the work and is paid.
pub proof fn lemma_settled_each(agents: Seq<AgentState>, plan: Seq<Migration>, x: int)
    requires
        separate(plan, agents.len() as int),
        0 <= x < plan.len(),
    ensures
        settled(agents, plan).len() == agents.len(),
        settled(agents, plan)[plan[x].from as int] == agents[plan[x].from as int].offloaded(
            plan[x].offloaded,
        ),
        settled(agents, plan)[plan[x].to as int] == agents[plan[x].to as int].loaded(
            plan[x].loaded,
        ),
    decreases plan.len(),
{
    let n = agents.len() as int;
    let before = plan.drop_last();
    let last = plan.len() - 1;
    lemma_settled_len(agents, plan);
    lemma_separate_prefix(plan, n, last);
    assert(plan.take(last) =~= before);
    lemma_settled_len(agents, before);
    assert(forall|y: int| 0 <= y < before.len() ==> #[trigger] before[y] == plan[y]);
    assert(plan.last() == plan[last]);
    if x < last {
        lemma_settled_each(agents, before, x);
        assert(before[x] == plan[x]);
    } else {
        lemma_settled_others(agents, before, plan[x].from as int);
        lemma_settled_others(agents, before, plan[x].to as int);
    }
}

/// Changing one agent changes the sum of the tokens by as much as its balance.
proof fn lemma_tokens_update(agents: Seq<AgentState>, i: int, agent: AgentState)
    requires
        0 <= i < agents.len(),
    ensures
        tokens(agents.update(i, agent)) == tokens(agents) - agents[i].token_balance
            + agent.token_balance,
    decreases agents.len(),
{
    let changed = agents.update(i, agent);
    if i == agents.len() - 1 {
        assert(changed.drop_last() =~= agents.drop_last());
    } else {
        assert(changed.drop_last() =~= agents.drop_last().update(i, agent));
        lemma_tokens_update(agents.drop_last(), i, agent);
    }
}

/// A settlement only moves tokens: it neither makes nor destroys any.
pub proof fn lemma_settled_tokens(agents: Seq<AgentState>, plan: Seq<Migration>)
    requires
        separate(plan, agents.len() as int),
        affordable(agents, plan),
        payable(agents, plan),
    ensures
        tokens(settled(agents, plan)) == tokens(agents),
    decreases plan.len(),
{
    if plan.len() > 0 {
        let n = agents.len() as int;
        let part = plan.drop_last();
        let last = plan.len() - 1;
        lemma_separate_prefix(plan, n, last);
        assert(plan.take(last) =~= part);
        assert(forall|y: int| 0 <= y < part.len() ==> #[trigger] part[y] == plan[y]);
        lemma_settled_tokens(agents, part);
        lemma_settled_len(agents, part);
        let next = plan[last];
        assert(plan.last() == next);
        lemma_settled_others(agents, part, next.from as int);
        lemma_settled_others(agents, part, next.to as int);
        let before = settled(agents, part);
        let payer = before[next.from as int].offloaded(next.offloaded);
        let paid = before.update(next.from as int, payer);
        lemma_tokens_update(before, next.from as int, payer);
        lemma_tokens_update(
            paid,
            next.to as int,
            paid[next.to as int].loaded(next.loaded),
        );
    }
}

/// The market of a tick: the agents and forecasts as they are, and for each agent the action
/// that its scores lead to. Idling wins where no score is above its own, accepting where it
/// beats idling and migrating does not beat it, and migrating where it beats both.
pub proof fn law_market_of_a_tick(
    fleet: FleetState,
    scores: Seq<[Rank; 3]>,
    forecasts: Seq<Forecast>,
    i: int,
)
    requires
        0 <= i < scores.len(),
    ensures
        ({
            let market = fleet.market(scores, forecasts);
            let score = scores[i]@;
            &&& market.agents == fleet.agents
            &&& market.forecasts == forecasts
            &&& market.actions.len() == scores.len()
            &&& market.actions[i] == Action::Idle <==> score[2] >= score[0] && score[2]
                >= score[1]
            &&& market.actions[i] == Action::AcceptWork <==> score[1] >= score[0] && score[1]
                > score[2]
            &&& market.actions[i] == Action::MigrateWork <==> score[0] > score[1] && score[0]
                > score[2]
        }),
{
    law_decisions_follow_the_scores(scores[i]@);
}

/// What a migration of a tick does, field by field. Its source pays ten tokens and keeps the
/// load that was forecast, which counts as zero where it is negative or not a number and as
/// the present load where it is higher. Its target is paid ten tokens and reaches the load
/// that was forecast, or stays at the present load where that is higher. Nothing else of the
/// two changes.
pub proof fn law_migration_moves_load_and_fee(
    fleet: FleetState,
    scores: Seq<[Rank; 3]>,
    forecasts: Seq<Forecast>,
    x: int,
)
    requires
        fleet.agents.len() <= usize::MAX,
        fleet.market(scores, forecasts).complete(),
        payable(fleet.agents, fleet.market(scores, forecasts).plan()),
        0 <= x < fleet.market(scores, forecasts).plan().len(),
    ensures
        ({
            let m = fleet.market(scores, forecasts).plan()[x];
            let after = fleet.ticked(scores, forecasts).agents;
            let source = fleet.agents[m.from as int];
            let target = fleet.agents[m.to as int];
            let source_after = after[m.from as int];
            let target_after = after[m.to as int];
            &&& after.len() == fleet.agents.len()
            &&& source_after == (AgentState {
                utilization: source_after.utilization,
                token_balance: source_after.token_balance,
                ..source
            })
            &&& source_after.token_balance == source.token_balance - 10
            &&& source_after.utilization == if m.offloaded < 0 || m.offloaded == 0x7FFF_FFFF {
                0
            } else if m.offloaded > source.utilization {
                source.utilization
            } else {
                m.offloaded
            }
            &&& target_after == (AgentState {
                utilization: target_after.utilization,
                token_balance: target_after.token_balance,
                ..target
            })
            &&& target_after.token_balance == target.token_balance + 10
            &&& target_after.utilization == if m.loaded < target.utilization {
                target.utilization
            } else {
                m.loaded
            }
        }),
{
    let market = fleet.market(scores, forecasts);
    market.law_plan();
    market.law_migration_field_by_field(x);
    lemma_settled_each(fleet.agents, market.plan(), x);
    assert(market.fair(market.plan()[x]));
}

/// Whoever takes no part in a migration goes through a tick unchanged, and the tick is
/// counted.
pub proof fn law_bystanders_stay_as_they_are(
    fleet: FleetState,
    scores: Seq<[Rank; 3]>,
    forecasts: Seq<Forecast>,
    i: int,
)
    requires
        fleet.agents.len() <= usize::MAX,
        fleet.market(scores, forecasts).complete(),
        fleet.tick < u64::MAX,
        0 <= i < fleet.agents.len(),
        forall|x: int|
            0 <= x < fleet.market(scores, forecasts).plan().len() ==> {
                let m = #[trigger] fleet.market(scores, forecasts).plan()[x];
                m.from != i && m.to != i
            },
    ensures
        fleet.ticked(scores, forecasts).agents.len() == fleet.agents.len(),
        fleet.ticked(scores, forecasts).agents[i] == fleet.agents[i],
        fleet.ticked(scores, forecasts).tick == fleet.tick + 1,
{
    let market = fleet.market(scores, forecasts);
    market.law_plan();
    assert(!hands_out(market.plan(), i as NodeId) && !takes(market.plan(), i as NodeId));
    lemma_settled_others(fleet.agents, market.plan(), i);
}

impl Fleet {
    /// Moves the load and the fees of a plan.
    fn settle(&mut self, plan: &Vec<Migration>)
        requires
            separate(plan@, old(self)@.agents.len() as int),
            payable(old(self)@.agents, plan@),
            affordable(old(self)@.agents, plan@),
        ensures
            final(self)@.agents == settled(old(self)@.agents, plan@),
            final(self).tick == old(self).tick,
    {
        let ghost before = self@.agents;
        for x in 0..plan.len()
            invariant
                separate(plan@, before.len() as int),
                payable(before, plan@),
                affordable(before, plan@),
                self@.agents == settled(before, plan@.take(x as int)),
                self.agents@.len() == before.len(),
                self.tick == old(self).tick,
        {
            let next: Migration = plan[x];
            let ghost part = plan@.take(x as int);
            proof {
                assert(plan@[x as int] == next);
                assert(plan@.take(x + 1).drop_last() =~= part);
                lemma_separate_prefix(plan@, before.len() as int, x as int);
                assert(!hands_out(part, next.from) && !takes(part, next.from)
                    && !hands_out(part, next.to) && !takes(part, next.to)) by {
                    assert(forall|y: int| 0 <= y < part.len() ==> #[trigger] part[y] == plan@[y]);
                }
                lemma_settled_others(before, part, next.from as int);
                lemma_settled_others(before, part, next.to as int);
                assert(self@.agents[next.from as int] == self.agents@[next.from as int]@);
                assert(self@.agents[next.to as int] == self.agents@[next.to as int]@);
            }
            let ghost between = self@.agents;
            let left: i64 = self.agents[next.from].token_balance - FEE;
            let kept: Rank = if next.offloaded < ZERO || next.offloaded == NAN {
                ZERO
            } else {
                next.offloaded
            };
            if kept < self.agents[next.from].utilization {
                self.agents[next.from].utilization = kept;
            }
            self.agents[next.from].token_balance = left;
            assert(self@.agents =~= between.update(
                next.from as int,
                between[next.from as int].offloaded(next.offloaded),
            ));
            let ghost paid = self@.agents;
            let earned: i64 = self.agents[next.to].token_balance + FEE;
            let reached: Rank = if next.loaded > ONE {
                ONE
            } else {
                next.loaded
            };
            if reached > self.agents[next.to].utilization {
                self.agents[next.to].utilization = reached;
            }
            self.agents[next.to].token_balance = earned;
            assert(self@.agents =~= paid.update(
                next.to as int,
                paid[next.to as int].loaded(next.loaded),
            ));
        }
        assert(plan@.take(plan@.len() as int) =~= plan@);
    }

    /// Ends a tick: each agent takes the action that it scored highest, migrations are
    /// matched on the forecasts, and load and tokens are moved.
    ///
    /// The forecasts start from the utilizations before the tick. As no agent takes part
    /// in two migrations, these are the utilizations at the time of its migration. A
    /// forecast by which a node would hand out work and be more loaded, or take work and be
    /// less loaded, leaves its load as it is.
    pub fn tick(&mut self, scores: &Vec<[Rank; 3]>, forecasts: &Vec<Forecast>)
        requires
            old(self)@.market(scores@, forecasts@).complete(),
            payable(old(self)@.agents, old(self)@.market(scores@, forecasts@).plan()),
            old(self).tick < u64::MAX,
        ensures
            final(self)@ == old(self)@.ticked(scores@, forecasts@),
    {
        let ghost market = self@.market(scores@, forecasts@);
        let mut actions: Vec<Action> = Vec::new();
        for i in 0..scores.len()
            invariant
                actions@.len() == i,
                forall|j: int| 0 <= j < i ==> #[trigger] actions@[j] == decided(scores@[j]@),
        {
            actions.push(TritNet::decide(&scores[i]));
        }
        assert(actions@ =~= market.actions);
        let plan = self.plan(&actions, forecasts);
        assert(market.agents.len() == self.agents.len());
        proof {
            market.lemma_matched(market.agents.len());
        }
        self.settle(&plan);
        self.tick = self.tick + 1;
    }
}

} // verus!
