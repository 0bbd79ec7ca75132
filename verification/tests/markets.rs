//! Matching, settlement and gossip on fleets that are set up by hand.

use ternary_pheromone_market::market::{ACCEPT_CEILING, FEE, OFFLOAD_FLOOR};
use ternary_pheromone_market::rank::{LOWEST, NAN, ONE, ZERO};
use ternary_pheromone_market::{
    Action, Agent, Fleet, Forecast, Migration, PheromoneMap, Rank, Rng, Signal,
};

const MIGRATE: [Rank; 3] = [1, 0, 0];
const ACCEPT: [Rank; 3] = [0, 1, 0];
const IDLE: [Rank; 3] = [0, 0, 1];

/// A ring of agents with the given utilizations, each of which signalled a demand.
fn fleet(loads: &[Rank], demands: &[u64]) -> Fleet {
    let mut fleet = Fleet::new(loads.len(), 9);
    for (agent, &load) in fleet.agents.iter_mut().zip(loads) {
        agent.utilization = load;
    }
    let signals: Vec<Signal> =
        demands.iter().map(|&demand| Signal { demand, supply: 0 }).collect();
    fleet.emit(&signals);
    fleet
}

fn forecasts(all: &[(Rank, [Rank; 2])]) -> Vec<Forecast> {
    all.iter()
        .map(|(offloaded, loaded)| Forecast { offloaded: *offloaded, loaded: loaded.to_vec() })
        .collect()
}

const HIGH: Rank = OFFLOAD_FLOOR + 1;

#[test]
fn work_goes_to_the_neighbor_with_the_least_demand() {
    let fleet = fleet(&[HIGH, 5, 6], &[50, 30, 20]);
    let actions = vec![Action::MigrateWork, Action::AcceptWork, Action::AcceptWork];
    // The neighbors of node 0 are 2 and 1.
    let f = forecasts(&[(70, [200, 300]), (0, [0, 0]), (0, [0, 0])]);
    assert_eq!(
        fleet.plan(&actions, &f),
        vec![Migration { from: 0, to: 2, offloaded: 70, loaded: 200 }]
    );
}

#[test]
fn the_first_of_equal_neighbors_is_chosen() {
    let fleet = fleet(&[HIGH, 5, 6], &[50, 20, 20]);
    let actions = vec![Action::MigrateWork, Action::AcceptWork, Action::AcceptWork];
    let f = forecasts(&[(70, [200, 300]), (0, [0, 0]), (0, [0, 0])]);
    assert_eq!(fleet.plan(&actions, &f)[0].to, 2);
}

#[test]
fn a_neighbor_is_claimed_once() {
    let fleet = fleet(&[HIGH, 5, HIGH], &[0, 0, 0]);
    let actions = vec![Action::MigrateWork, Action::AcceptWork, Action::MigrateWork];
    let f = forecasts(&[(1, [2, 3]), (0, [0, 0]), (4, [5, 6])]);
    assert_eq!(
        fleet.plan(&actions, &f),
        vec![Migration { from: 0, to: 1, offloaded: 1, loaded: 3 }]
    );
}

#[test]
fn work_is_offered_only_above_the_floor_and_with_tokens() {
    let actions = vec![Action::MigrateWork, Action::AcceptWork, Action::Idle];
    let f = forecasts(&[(1, [2, 3]), (0, [0, 0]), (0, [0, 0])]);
    let mut fleet = fleet(&[OFFLOAD_FLOOR, 5, 5], &[0, 0, 0]);
    assert_eq!(fleet.plan(&actions, &f), vec![]);
    fleet.agents[0].utilization = HIGH;
    fleet.agents[0].token_balance = FEE;
    assert_eq!(fleet.plan(&actions, &f), vec![]);
    fleet.agents[0].token_balance = FEE + 1;
    assert_eq!(fleet.plan(&actions, &f).len(), 1);
}

#[test]
fn work_is_taken_only_up_to_the_ceiling() {
    let fleet = fleet(&[HIGH, 5, 5], &[0, 0, 0]);
    let actions = vec![Action::MigrateWork, Action::AcceptWork, Action::AcceptWork];
    let over = ACCEPT_CEILING + 1;
    let f = forecasts(&[(1, [over, over]), (0, [0, 0]), (0, [0, 0])]);
    assert_eq!(fleet.plan(&actions, &f), vec![]);
    let f = forecasts(&[(1, [over, ACCEPT_CEILING]), (0, [0, 0]), (0, [0, 0])]);
    assert_eq!(fleet.plan(&actions, &f)[0].to, 1);
}

#[test]
fn a_node_without_tokens_takes_no_work() {
    let actions = vec![Action::MigrateWork, Action::AcceptWork, Action::AcceptWork];
    let f = forecasts(&[(1, [20, 30]), (0, [0, 0]), (0, [0, 0])]);
    let mut fleet = fleet(&[HIGH, 5, 6], &[0, 1, 9]);
    // Node 1 has the least demand.
    assert_eq!(fleet.plan(&actions, &f)[0].to, 1);
    for broke in [0, -5, i64::MIN] {
        fleet.agents[1].token_balance = broke;
        assert_eq!(fleet.plan(&actions, &f)[0].to, 2);
    }
    fleet.agents[2].token_balance = 0;
    assert_eq!(fleet.plan(&actions, &f), vec![]);
    fleet.tick(&vec![MIGRATE, ACCEPT, ACCEPT], &f);
    let loads: Vec<Rank> = fleet.agents.iter().map(|a| a.utilization).collect();
    let balances: Vec<i64> = fleet.agents.iter().map(|a| a.token_balance).collect();
    assert_eq!(loads, vec![HIGH, 5, 6]);
    assert_eq!(balances, vec![100, i64::MIN, 0]);

    fleet.agents[1].token_balance = 1;
    fleet.tick(&vec![MIGRATE, ACCEPT, ACCEPT], &f);
    assert_eq!(fleet.agents[1].token_balance, 11);
    assert_eq!(fleet.agents[1].utilization, 30);
}

#[test]
fn a_migration_turns_no_load_around() {
    let mut fleet = fleet(&[HIGH, 5, 6], &[0, 0, 0]);
    // Who hands out work is not more loaded for it, and who takes work not less.
    let f = forecasts(&[(HIGH + 9, [2, 3]), (0, [0, 0]), (0, [0, 0])]);
    fleet.tick(&vec![MIGRATE, ACCEPT, IDLE], &f);
    assert_eq!(fleet.agents[0].utilization, HIGH);
    assert_eq!(fleet.agents[1].utilization, 5);
    assert_eq!(fleet.agents[0].token_balance, 90);
    assert_eq!(fleet.agents[1].token_balance, 110);
}

#[test]
fn loads_that_are_not_numbers_are_handled() {
    let actions = vec![Action::MigrateWork, Action::AcceptWork, Action::Idle];
    let mut fleet = fleet(&[NAN, 5, 6], &[0, 0, 0]);
    // Nobody takes a load that is not a number.
    let f = forecasts(&[(NAN, [NAN, NAN]), (0, [0, 0]), (0, [0, 0])]);
    assert_eq!(fleet.plan(&actions, &f), vec![]);
    assert_eq!(fleet.max_utilization(), 6);
    // Who hands out such a load keeps none.
    let f = forecasts(&[(NAN, [50, 60]), (0, [0, 0]), (0, [0, 0])]);
    fleet.tick(&vec![MIGRATE, ACCEPT, IDLE], &f);
    assert_eq!(fleet.agents[0].utilization, ZERO);
    assert_eq!(fleet.agents[1].utilization, 60);
    assert_eq!(Agent::new(0, NAN, &mut Rng::new(1)).utilization, NAN);
}

#[test]
fn a_tick_moves_load_and_fees() {
    let mut fleet = fleet(&[HIGH, 5, 6], &[0, 0, 0]);
    let f = forecasts(&[(-7, [20, 30]), (0, [0, 0]), (0, [0, 0])]);
    fleet.tick(&vec![MIGRATE, ACCEPT, IDLE], &f);
    let loads: Vec<Rank> = fleet.agents.iter().map(|a| a.utilization).collect();
    let balances: Vec<i64> = fleet.agents.iter().map(|a| a.token_balance).collect();
    assert_eq!(loads, vec![ZERO, 30, 6]);
    assert_eq!(balances, vec![90, 110, 100]);
    assert_eq!(fleet.tick, 1);
    assert_eq!(fleet.total_tokens(), 300);

    // Nobody accepts: nothing moves.
    fleet.tick(&vec![MIGRATE, IDLE, IDLE], &f);
    assert_eq!(fleet.agents[0].token_balance, 90);
    assert_eq!(fleet.tick, 2);
}

#[test]
fn a_node_that_runs_low_on_tokens_stops_paying() {
    let mut fleet = fleet(&[HIGH, 5, 6], &[0, 0, 0]);
    for _ in 0..20 {
        fleet.agents[0].utilization = HIGH;
        let f = forecasts(&[(1, [2, 3]), (0, [0, 0]), (0, [0, 0])]);
        fleet.tick(&vec![MIGRATE, ACCEPT, IDLE], &f);
    }
    assert_eq!(fleet.agents[0].token_balance, 10);
    assert_eq!(fleet.agents[1].token_balance, 190);
    assert_eq!(fleet.total_tokens(), 300);
}

#[test]
fn a_lone_node_is_its_own_neighbor_and_never_migrates() {
    let mut fleet = fleet(&[HIGH], &[4]);
    assert_eq!(fleet.agents[0].neighbors, vec![0, 0]);
    fleet.gossip();
    fleet.tick(&vec![MIGRATE], &forecasts(&[(1, [2, 3])]));
    assert_eq!(fleet.agents[0].token_balance, 100);
    assert_eq!(fleet.agents[0].utilization, HIGH);
    assert_eq!(Fleet::new(2, 9).agents[1].neighbors, vec![0, 0]);
}

#[test]
fn an_empty_fleet_ticks() {
    let mut fleet = Fleet::new(0, 3);
    fleet.emit(&vec![]);
    fleet.gossip();
    fleet.tick(&vec![], &vec![]);
    assert_eq!(fleet.tick, 1);
    assert_eq!(fleet.total_tokens(), 0);
    assert_eq!(fleet.max_utilization(), LOWEST);
}

#[test]
fn utilizations_are_held_within_their_range() {
    let mut rng = Rng::new(1);
    assert_eq!(Agent::new(3, -1, &mut rng).utilization, ZERO);
    assert_eq!(Agent::new(3, ONE + 1, &mut rng).utilization, ONE);
    let agent = Agent::new(3, 17, &mut rng);
    assert_eq!(agent.utilization, 17);
    assert_eq!(agent.id, 3);
    assert_eq!(agent.token_balance, 100);
    assert!(agent.neighbors.is_empty());
    assert_eq!(agent.pheromone_map, PheromoneMap::default());
    let fleet = fleet(&[3, 9, 4], &[0, 0, 0]);
    assert_eq!(fleet.max_utilization(), 9);
}

#[test]
fn agents_report_what_they_decide_by() {
    let mut fleet = fleet(&[7, 5, 6], &[50, 30, 20]);
    fleet.gossip();
    let readings = fleet.agents[0].readings();
    assert_eq!(readings.utilization, 7);
    assert_eq!(readings.token_balance, 100);
    assert_eq!(readings.demand.own, 50);
    assert_eq!(readings.demand.around, vec![20, 30]);
    assert_eq!(readings.supply.around, vec![0, 0]);
}

#[test]
fn emission_touches_only_the_own_slot() {
    let mut fleet = Fleet::new(3, 1);
    let signals = vec![
        Signal { demand: 1, supply: 2 },
        Signal { demand: 3, supply: 4 },
        Signal { demand: 0, supply: 0 },
    ];
    fleet.emit(&signals);
    fleet.emit(&signals);
    for (i, agent) in fleet.agents.iter().enumerate() {
        assert_eq!(agent.pheromone_map.demand.len(), 1);
        assert_eq!(agent.pheromone_map.demand[&i].get(i), 2 * signals[i].demand);
        assert_eq!(agent.pheromone_map.supply[&i].get(i), 2 * signals[i].supply);
    }
}

#[test]
fn gossip_takes_what_was_known_before_the_round() {
    let mut fleet = fleet(&[0; 5], &[1, 2, 3, 4, 5]);
    fleet.gossip();
    // One round reaches the neighbors and nobody else.
    let known = &fleet.agents[0].pheromone_map;
    assert_eq!(known.demand_total(4), 5);
    assert_eq!(known.demand_total(1), 2);
    assert_eq!(known.demand_total(2), 0);
    assert_eq!(known.demand_total(3), 0);
}

#[test]
fn gossip_reaches_consensus_in_half_a_ring_of_rounds() {
    for n in 1..12usize {
        let demands: Vec<u64> = (0..n as u64).map(|i| 10 + i).collect();
        let mut fleet = fleet(&vec![0; n], &demands);
        for _ in 0..n / 2 {
            fleet.gossip();
        }
        for agent in &fleet.agents {
            assert_eq!(agent.pheromone_map, fleet.agents[0].pheromone_map);
            for node in 0..n {
                assert_eq!(agent.pheromone_map.demand_total(node), demands[node]);
            }
        }
    }
    // One round less does not do.
    let mut short = fleet(&[0; 8], &[1; 8]);
    for _ in 0..3 {
        short.gossip();
    }
    assert_ne!(short.agents[0].pheromone_map, short.agents[4].pheromone_map);
}

#[test]
fn knowledge_spreads_one_step_per_tick() {
    for n in 1..10usize {
        let mut fleet = Fleet::new(n, 3);
        let idle = vec![IDLE; n];
        let f = forecasts(&vec![(0, [0, 0]); n]);
        for t in 1..=n {
            fleet.emit(&vec![Signal { demand: 2, supply: 0 }; n]);
            fleet.gossip();
            fleet.tick(&idle, &f);
            for i in 0..n {
                let known = &fleet.agents[i].pheromone_map;
                for k in 0..n {
                    let ahead = (k + n - i) % n;
                    let distance = ahead.min(n - ahead);
                    assert_eq!(known.demand.contains_key(&k), distance <= t);
                    assert_eq!(known.supply.contains_key(&k), distance <= t);
                    // What is known of a node is as old as the way is long.
                    let ticks = if distance == 0 { t } else { (t + 1).saturating_sub(distance) };
                    assert_eq!(known.demand_total(k), 2 * ticks as u64);
                }
            }
        }
        assert_eq!(fleet.tick, n as u64);
        assert_eq!(fleet.total_tokens(), 100 * n as i64);
    }
}

#[test]
fn nobody_knows_an_agent_better_than_itself() {
    let mut fleet = Fleet::new(5, 4);
    for round in 0..6u64 {
        let signals: Vec<Signal> =
            (0..5).map(|i| Signal { demand: round * i, supply: 7 }).collect();
        fleet.emit(&signals);
        fleet.gossip();
        for i in 0..5 {
            let own = fleet.agents[i].pheromone_map.demand_total(i);
            for other in &fleet.agents {
                assert!(other.pheromone_map.demand_total(i) <= own);
            }
        }
    }
}
