//! Fleets, driven with measurements in single precision.

use std::collections::{HashMap, HashSet};

use ternary_pheromone_market::rank::NAN;
use ternary_pheromone_market::{
    Action, Agent, Fleet, Forecast, Gradient, PheromoneMap, Rank, Rng, Signal, Term, Trit,
    TritLayer, TritNet,
};

fn rank(number: f32) -> Rank {
    if number.is_nan() {
        return NAN;
    }
    let bits = (number.to_bits() & 0x7FFF_FFFF) as i32;
    if number.is_sign_negative() {
        -bits
    } else {
        bits
    }
}

fn number(rank: Rank) -> f32 {
    if rank < 0 {
        -f32::from_bits(rank.unsigned_abs())
    } else {
        f32::from_bits(rank as u32)
    }
}

fn slope(gradient: &Gradient) -> f32 {
    if gradient.around.is_empty() {
        return 0.0;
    }
    let sum = gradient.around.iter().map(|&level| level as f64).sum::<f64>();
    let mean = sum / gradient.around.len() as f64;
    (mean - gradient.own as f64) as f32
}

fn layer_forward(layer: &TritLayer, input: &[f32]) -> Vec<f32> {
    assert_eq!(input.len(), layer.in_dim());
    let sums: Vec<Rank> = (0..layer.out_dim())
        .map(|row| {
            let sum = layer
                .terms(row)
                .iter()
                .map(|term| match *term {
                    Term::Add(k) => input[k],
                    Term::Subtract(k) => -input[k],
                })
                .sum::<f32>();
            rank(sum)
        })
        .collect();
    layer.forward(&sums).into_iter().map(number).collect()
}

fn net_forward(net: &TritNet, input: &[f32; 4]) -> [f32; 3] {
    let mut x: Vec<f32> = input.to_vec();
    for layer in net.layers() {
        x = layer_forward(layer, &x);
    }
    [x[0], x[1], x[2]]
}

fn net_scores(net: &TritNet, utilization: f32, demand: f32, supply: f32, tokens: i64) -> [Rank; 3] {
    let inputs = TritNet::inputs(
        rank(utilization),
        rank(demand / 1000.0),
        rank(supply / 1000.0),
        rank(tokens as f32 / 100.0),
    );
    net_forward(net, &inputs.map(number)).map(rank)
}

fn agent_scores(agent: &Agent) -> [Rank; 3] {
    let readings = agent.readings();
    net_scores(
        &agent.strategy,
        number(readings.utilization),
        slope(&readings.demand),
        slope(&readings.supply),
        readings.token_balance,
    )
}

fn run_tick(fleet: &mut Fleet) {
    let loads: Vec<f32> = fleet.agents.iter().map(|a| number(a.utilization)).collect();
    let signals: Vec<Signal> = loads
        .iter()
        .map(|&load| Signal {
            demand: (load * 1000.0) as u64,
            supply: ((1.0 - load).max(0.0) * 1000.0) as u64,
        })
        .collect();
    fleet.emit(&signals);
    fleet.gossip();
    let scores: Vec<[Rank; 3]> = fleet.agents.iter().map(agent_scores).collect();
    let forecasts: Vec<Forecast> = fleet
        .agents
        .iter()
        .enumerate()
        .map(|(i, a)| {
            let workload = loads[i] * 0.3;
            Forecast {
                offloaded: rank(loads[i] - workload),
                loaded: a.neighbors.iter().map(|&j| rank(loads[j] + workload)).collect(),
            }
        })
        .collect();
    fleet.tick(&scores, &forecasts);
}

// --- gradients ---

#[test]
fn pheromone_gradient_direction_is_correct() {
    let mut map = PheromoneMap::default();

    // Node 0: heavily loaded (demand = 900)
    for _ in 0..9 {
        map.emit_demand(0, 100);
    }
    // Node 1: lightly loaded (demand = 100)
    map.emit_demand(1, 100);

    // Overloaded node 0 sees neighbor (1) with less demand: negative gradient
    let grad0 = map.demand_gradient(0, &[1]);
    assert!(
        grad0.direction().val() < 0 && slope(&grad0) < 0.0,
        "Overloaded node must see negative demand gradient (neighbor has less demand)"
    );

    // Underloaded node 1 sees neighbor (0) with more demand: positive gradient
    let grad1 = map.demand_gradient(1, &[0]);
    assert!(
        grad1.direction().val() > 0 && slope(&grad1) > 0.0,
        "Underloaded node must see positive demand gradient (neighbor has more demand)"
    );
    assert_eq!(slope(&grad0), -800.0);
    assert_eq!(slope(&grad1), 800.0);
}

#[test]
fn pheromone_gradient_zero_with_no_neighbors() {
    let map = PheromoneMap::default();
    assert_eq!(slope(&map.demand_gradient(0, &[])), 0.0);
    assert_eq!(slope(&map.supply_gradient(0, &[])), 0.0);
    assert_eq!(map.demand_gradient(0, &[]).direction().val(), 0);
    assert_eq!(map.supply_gradient(0, &[]).direction().val(), 0);
}

#[test]
fn gradient_reads_levels_in_the_order_of_neighbors() {
    let mut map = PheromoneMap::default();
    map.emit_supply(4, 7);
    map.emit_supply(2, 30);
    map.emit_supply(9, 1);
    let gradient = map.supply_gradient(4, &[9, 2, 5, 2]);
    assert_eq!(gradient, Gradient { own: 7, around: vec![1, 30, 0, 30] });
    // 61 above four times 7
    assert_eq!(gradient.direction(), Trit::new(1).unwrap());
    let level = Gradient { own: 5, around: vec![4, 6] };
    assert_eq!(level.direction().val(), 0);
    let extreme = Gradient { own: u64::MAX, around: vec![u64::MAX, u64::MAX - 1] };
    assert_eq!(extreme.direction().val(), -1);
}

// --- layers and networks ---

#[test]
fn trit_layer_output_has_correct_shape_and_nonneg() {
    let mut rng = Rng::new(7);
    let layer = TritLayer::random(4, 3, &mut rng);
    let out = layer_forward(&layer, &[1.0, -0.5, 0.0, 0.8]);
    assert_eq!(out.len(), 3);
    assert!(out.iter().all(|&v| v >= 0.0), "ReLU must clamp negatives to 0");
}

#[test]
fn trit_net_always_returns_valid_action() {
    let mut rng = Rng::new(42);
    let net = TritNet::random(&mut rng);
    // Exhaustive boundary inputs
    for &(u, d, s, t) in &[
        (0.0f32, 0.0f32, 0.0f32, 0i64),
        (1.0, 1000.0, -1000.0, 1000),
        (0.5, -500.0, 500.0, -100),
    ] {
        let action = TritNet::decide(&net_scores(&net, u, d, s, t));
        assert!(matches!(
            action,
            Action::MigrateWork | Action::AcceptWork | Action::Idle
        ));
    }
}

#[test]
fn trit_net_forward_shape() {
    let mut rng = Rng::new(99);
    let net = TritNet::random(&mut rng);
    let scores = net_forward(&net, &[0.8, 0.3, -0.2, 0.1]);
    assert_eq!(scores.len(), 3);
    let shape: Vec<(usize, usize)> =
        net.layers().iter().map(|layer| (layer.in_dim(), layer.out_dim())).collect();
    assert_eq!(shape, vec![(4, 8), (8, 4), (4, 3)]);
}

// --- agents ---

#[test]
fn agent_emits_higher_demand_when_overloaded() {
    let mut rng = Rng::new(1);
    let mut agent = Agent::new(0, rank(0.9), &mut rng);

    let demand_before = agent.pheromone_map.demand_total(0);
    agent
        .pheromone_map
        .emit_demand(0, (number(agent.utilization) * 1000.0) as u64);
    let demand_after = agent.pheromone_map.demand_total(0);

    assert!(demand_after > demand_before);
    // High utilization (0.9) means demand signal ~900, supply ~100
    agent
        .pheromone_map
        .emit_supply(0, ((1.0 - number(agent.utilization)) * 1000.0) as u64);
    assert!(
        agent.pheromone_map.demand_total(0) > agent.pheromone_map.supply_total(0),
        "Overloaded agent: demand must exceed supply"
    );
}

// --- fleets ---

#[test]
fn fleet_ring_topology_has_two_neighbors_each() {
    let fleet = Fleet::new(8, 42);
    for agent in &fleet.agents {
        assert_eq!(agent.neighbors.len(), 2);
        // Neighbors are distinct and not self
        assert_ne!(agent.neighbors[0], agent.id);
        assert_ne!(agent.neighbors[1], agent.id);
        assert_ne!(agent.neighbors[0], agent.neighbors[1]);
    }
}

#[test]
fn fleet_utilizations_stay_in_range_after_ticks() {
    let mut fleet = Fleet::new(8, 42);
    for _ in 0..100 {
        run_tick(&mut fleet);
    }
    for a in &fleet.agents {
        assert!(
            (0.0..=1.0).contains(&number(a.utilization)),
            "Utilization out of [0,1]: node {} = {}",
            a.id,
            number(a.utilization)
        );
    }
}

#[test]
fn fleet_tokens_are_conserved_across_migrations() {
    let mut fleet = Fleet::new(8, 42);
    let initial = fleet.total_tokens();
    for _ in 0..100 {
        run_tick(&mut fleet);
    }
    assert_eq!(
        fleet.total_tokens(),
        initial,
        "Token supply is closed: migrations only redistribute, never create/destroy"
    );
}

#[test]
fn migration_mechanics_reduce_variance() {
    // Directly verify that moving load from an overloaded node to an
    // underloaded one decreases utilization variance: the fundamental
    // correctness property the pheromone market relies on.
    let util_hi = 0.8_f32;
    let util_lo = 0.1_f32;
    let mean = (util_hi + util_lo) / 2.0;
    let var_before = ((util_hi - mean).powi(2) + (util_lo - mean).powi(2)) / 2.0;

    let workload = util_hi * 0.3;
    let new_hi = util_hi - workload;
    let new_lo = util_lo + workload;
    let var_after = ((new_hi - mean).powi(2) + (new_lo - mean).powi(2)) / 2.0;

    assert!(
        var_after < var_before,
        "Migrating 30% from overloaded to underloaded must reduce variance: {var_before:.4} -> {var_after:.4}"
    );
}

#[test]
fn fleet_tick_count_advances_correctly() {
    let mut fleet = Fleet::new(4, 1);
    assert_eq!(fleet.tick, 0);
    run_tick(&mut fleet);
    run_tick(&mut fleet);
    run_tick(&mut fleet);
    assert_eq!(fleet.tick, 3);
}

// --- against a direct simulation ---

struct Word(u64);

impl Word {
    fn draw(&mut self) -> u64 {
        let mut x = self.0;
        x ^= x << 13;
        x ^= x >> 7;
        x ^= x << 17;
        self.0 = x;
        x
    }
}

type Levels = HashMap<usize, u64>;

struct Peer {
    load: f32,
    balance: i64,
    demand: Levels,
    supply: Levels,
    weights: Vec<Vec<Vec<f32>>>,
    neighbors: Vec<usize>,
}

fn peers(n: usize, seed: u64) -> Vec<Peer> {
    let mut word = Word(seed | 1);
    (0..n)
        .map(|i| {
            let load = ((word.draw() >> 11) as f32 / (1u64 << 53) as f32).clamp(0.0, 1.0);
            let weights = [(4, 8), (8, 4), (4, 3)]
                .iter()
                .map(|&(inputs, outputs)| {
                    (0..outputs)
                        .map(|_| (0..inputs).map(|_| (word.draw() % 3) as f32 - 1.0).collect())
                        .collect()
                })
                .collect();
            Peer {
                load,
                balance: 100,
                demand: Levels::new(),
                supply: Levels::new(),
                weights,
                neighbors: vec![(i + n - 1) % n, (i + 1) % n],
            }
        })
        .collect()
}

fn level_slope(levels: &Levels, node: usize, neighbors: &[usize]) -> f32 {
    let of = |n: &usize| *levels.get(n).unwrap_or(&0) as f64;
    let mean = neighbors.iter().map(of).sum::<f64>() / neighbors.len() as f64;
    (mean - of(&node)) as f32
}

fn peer_action(peer: &Peer, i: usize) -> usize {
    let mut x = vec![
        peer.load,
        (level_slope(&peer.demand, i, &peer.neighbors) / 1000.0).clamp(-1.0, 1.0),
        (level_slope(&peer.supply, i, &peer.neighbors) / 1000.0).clamp(-1.0, 1.0),
        (peer.balance as f32 / 100.0).clamp(-1.0, 1.0),
    ];
    for layer in &peer.weights {
        x = layer
            .iter()
            .map(|row| row.iter().zip(&x).map(|(w, v)| w * v).sum::<f32>().max(0.0))
            .collect();
    }
    (0..3).max_by(|&a, &b| x[a].partial_cmp(&x[b]).unwrap()).unwrap()
}

fn run_peers(peers: &mut Vec<Peer>) {
    let n = peers.len();
    for (i, p) in peers.iter_mut().enumerate() {
        *p.demand.entry(i).or_default() += (p.load * 1000.0) as u64;
        *p.supply.entry(i).or_default() += ((1.0 - p.load).max(0.0) * 1000.0) as u64;
    }
    let known: Vec<(Levels, Levels)> =
        peers.iter().map(|p| (p.demand.clone(), p.supply.clone())).collect();
    for p in peers.iter_mut() {
        for j in p.neighbors.clone() {
            for (&node, &level) in &known[j].0 {
                let mine = p.demand.entry(node).or_default();
                *mine = (*mine).max(level);
            }
            for (&node, &level) in &known[j].1 {
                let mine = p.supply.entry(node).or_default();
                *mine = (*mine).max(level);
            }
        }
    }
    let actions: Vec<usize> = peers.iter().enumerate().map(|(i, p)| peer_action(p, i)).collect();
    let loads: Vec<f32> = peers.iter().map(|p| p.load).collect();
    let demands: Vec<u64> = peers.iter().enumerate().map(|(i, p)| p.demand[&i]).collect();
    let mut claimed: HashSet<usize> = HashSet::new();
    let mut moves: Vec<(usize, usize, f32)> = Vec::new();
    for i in 0..n {
        if actions[i] != 0 || loads[i] <= 0.3 || peers[i].balance <= 10 {
            continue;
        }
        let workload = loads[i] * 0.3;
        let target = peers[i]
            .neighbors
            .iter()
            .filter(|&&j| actions[j] == 1 && !claimed.contains(&j) && loads[j] + workload <= 0.95)
            .min_by_key(|&&j| demands[j])
            .copied();
        if let Some(j) = target {
            claimed.insert(j);
            moves.push((i, j, workload));
        }
    }
    for (from, to, workload) in moves {
        peers[from].load = (peers[from].load - workload).max(0.0);
        peers[from].balance -= 10;
        peers[to].load = (peers[to].load + workload).min(1.0);
        peers[to].balance += 10;
    }
}

#[test]
fn fleet_agrees_with_a_direct_simulation() {
    let mut moved = 0;
    for seed in 0..60u64 {
        let n = 1 + (seed as usize * 7) % 13;
        let mut fleet = Fleet::new(n, seed);
        let mut direct = peers(n, seed);
        for round in 0..40 {
            for (i, agent) in fleet.agents.iter().enumerate() {
                assert_eq!(number(agent.utilization), direct[i].load, "seed {seed} round {round}");
                assert_eq!(agent.token_balance, direct[i].balance, "seed {seed} round {round}");
                for node in 0..n {
                    let demand = direct[i].demand.get(&node).copied().unwrap_or(0);
                    let supply = direct[i].supply.get(&node).copied().unwrap_or(0);
                    assert_eq!(agent.pheromone_map.demand_total(node), demand);
                    assert_eq!(agent.pheromone_map.supply_total(node), supply);
                }
            }
            run_tick(&mut fleet);
            run_peers(&mut direct);
        }
        moved += direct.iter().filter(|p| p.balance != 100).count();
    }
    assert!(moved > 20, "too few migrations to compare: {moved}");
}

// --- numbers out of range ---

#[test]
fn every_reading_leads_to_an_action() {
    let numbers =
        [f32::NAN, f32::INFINITY, f32::NEG_INFINITY, f32::MAX, f32::MIN, 0.0, -0.0, 0.5, 1e-40];
    for seed in 1..20 {
        let net = TritNet::random(&mut Rng::new(seed));
        for utilization in numbers {
            for demand in numbers {
                for supply in numbers {
                    let scores = net_scores(&net, utilization, demand, supply, i64::MIN);
                    assert!(scores.iter().all(|&score| (0..NAN).contains(&score)));
                    let action = TritNet::decide(&scores);
                    let index = match action {
                        Action::MigrateWork => 0,
                        Action::AcceptWork => 1,
                        Action::Idle => 2,
                    };
                    assert!(scores.iter().all(|&score| score <= scores[index]));
                }
            }
        }
    }
}

#[test]
fn signals_out_of_scale_saturate() {
    for seed in 1..50 {
        let net = TritNet::random(&mut Rng::new(seed));
        for (demand, supply, tokens) in [
            (5000.0, -7000.0, 900),
            (f32::INFINITY, f32::NEG_INFINITY, i64::MAX),
            (1e30, 3.0, -101),
        ] {
            let held = net_scores(
                &net,
                0.4,
                f32::clamp(demand, -1000.0, 1000.0),
                f32::clamp(supply, -1000.0, 1000.0),
                tokens.clamp(-100, 100),
            );
            assert_eq!(net_scores(&net, 0.4, demand, supply, tokens), held);
        }
    }
}

#[test]
fn fleets_tick_with_loads_that_are_no_fractions() {
    let mut fleet = Fleet::new(12, 5);
    let loads = [f32::NAN, f32::INFINITY, f32::NEG_INFINITY, 7.5, -3.0];
    for (agent, load) in fleet.agents.iter_mut().zip(loads) {
        agent.utilization = rank(load);
    }
    for _ in 0..30 {
        run_tick(&mut fleet);
        assert_eq!(fleet.total_tokens(), 1200);
    }
    assert_eq!(fleet.tick, 30);
}

#[test]
fn nobody_gets_above_the_limit_who_was_not_before() {
    for seed in 1..30 {
        let mut fleet = Fleet::new(9, seed);
        let highest = number(fleet.max_utilization()).max(0.95);
        for _ in 0..40 {
            run_tick(&mut fleet);
            assert!(number(fleet.max_utilization()) <= highest);
        }
    }
}

#[test]
fn work_moves_whole() {
    let mut moved = 0;
    for seed in 1..60 {
        let mut fleet = Fleet::new(8, seed);
        for _ in 0..10 {
            let before: Vec<(f32, i64)> =
                fleet.agents.iter().map(|a| (number(a.utilization), a.token_balance)).collect();
            run_tick(&mut fleet);
            let after: Vec<(f32, i64)> =
                fleet.agents.iter().map(|a| (number(a.utilization), a.token_balance)).collect();
            for i in 0..8 {
                let workload = before[i].0 * 0.3;
                if after[i].1 < before[i].1 {
                    moved += 1;
                    assert_eq!(after[i], (before[i].0 - workload, before[i].1 - 10));
                    let takers = fleet.agents[i].neighbors.iter().filter(|&&j| {
                        after[j] == (before[j].0 + workload, before[j].1 + 10)
                    });
                    assert!(takers.count() >= 1);
                } else if after[i].1 == before[i].1 {
                    assert_eq!(after[i], before[i]);
                } else {
                    assert!(after[i].1 == before[i].1 + 10 && after[i].0 <= 0.95);
                }
            }
        }
    }
    assert!(moved > 0);
}
