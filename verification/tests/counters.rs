//! Grow-only counters and pheromone maps.

use ternary_pheromone_market::{GCounter, PheromoneMap};

#[test]
fn gcounter_increment_and_read() {
    let mut c = GCounter::new();
    c.increment(0, 10);
    c.increment(1, 5);
    assert_eq!(c.value(), 15);
    assert_eq!(c.get(0), 10);
    assert_eq!(c.get(1), 5);
    assert_eq!(c.get(2), 0); // missing node
}

#[test]
fn gcounter_merge_is_commutative() {
    let mut a = GCounter::new();
    a.increment(0, 10);
    a.increment(1, 5);

    let mut b = GCounter::new();
    b.increment(1, 7); // node 1 has a higher count in b
    b.increment(2, 3);

    let mut ab = a.clone();
    ab.merge(&b);

    let mut ba = b.clone();
    ba.merge(&a);

    assert_eq!(ab, ba, "G-Counter merge must be commutative");
    // node 1 should take the max: 7
    assert_eq!(ab.get(1), 7);
}

#[test]
fn gcounter_merge_is_idempotent() {
    let mut c = GCounter::new();
    c.increment(0, 10);
    c.increment(1, 5);

    let copy = c.clone();
    c.merge(&copy);

    assert_eq!(c.get(0), 10);
    assert_eq!(c.get(1), 5);
}

#[test]
fn gcounter_merge_is_associative() {
    let mut a = GCounter::new();
    a.increment(0, 3);
    let mut b = GCounter::new();
    b.increment(1, 7);
    let mut c_ctr = GCounter::new();
    c_ctr.increment(2, 2);

    let mut ab_c = a.clone();
    ab_c.merge(&b);
    ab_c.merge(&c_ctr);

    let mut a_bc = b.clone();
    a_bc.merge(&c_ctr);
    let mut a_bc2 = a.clone();
    a_bc2.merge(&a_bc);

    assert_eq!(ab_c, a_bc2);
}

#[test]
fn pheromone_map_merge_converges_after_gossip() {
    let mut map_a = PheromoneMap::default();
    let mut map_b = PheromoneMap::default();

    map_a.emit_demand(0, 800);
    map_a.emit_supply(0, 200);
    map_b.emit_demand(1, 200);
    map_b.emit_supply(1, 800);

    // Single gossip round
    let snap_a = map_a.clone();
    let snap_b = map_b.clone();
    map_a.merge(&snap_b);
    map_b.merge(&snap_a);

    // Both replicas now see both nodes
    assert_eq!(map_a.demand_total(0), 800);
    assert_eq!(map_a.demand_total(1), 200);
    assert_eq!(map_b.demand_total(0), 800);
    assert_eq!(map_b.demand_total(1), 200);
    assert_eq!(map_a, map_b, "Maps must converge after gossip");
}

#[test]
fn pheromone_crdt_gossip_reaches_consensus_in_two_rounds() {
    // Simulate two isolated clusters merging their pheromone views.
    let mut cluster_a = PheromoneMap::default();
    let mut cluster_b = PheromoneMap::default();

    cluster_a.emit_demand(0, 500);
    cluster_a.emit_demand(1, 300);
    cluster_b.emit_demand(2, 700);
    cluster_b.emit_demand(3, 100);

    // Round 1: each cluster learns about the other
    let snap_a = cluster_a.clone();
    let snap_b = cluster_b.clone();
    cluster_a.merge(&snap_b);
    cluster_b.merge(&snap_a);

    // Round 2: converge (idempotent for already-known data)
    let snap_a2 = cluster_a.clone();
    let snap_b2 = cluster_b.clone();
    cluster_a.merge(&snap_b2);
    cluster_b.merge(&snap_a2);

    // Both clusters must now agree on the full fleet demand picture
    for node in [0, 1, 2, 3] {
        assert_eq!(
            cluster_a.demand_total(node),
            cluster_b.demand_total(node),
            "Clusters disagree on node {node} after gossip"
        );
    }
}

#[test]
fn counters_can_be_filled_slot_by_slot() {
    // Four nodes in a ring with varying demand
    let mut counters: Vec<GCounter> = (0..4)
        .map(|i| {
            let mut c = GCounter::default();
            c.0.insert(i, (i as u64) * 10);
            c
        })
        .collect();

    // Merge the counter of node 2 into that of node 3
    let second = counters[2].clone();
    counters[3].merge(&second);
    assert_eq!(counters[3].get(2), 20);
    assert_eq!(counters[3].get(3), 30);
    assert_eq!(counters[3].value(), 50);
    assert_eq!(counters[2].get(3), 0);
}

#[test]
fn merge_keeps_slots_that_count_zero() {
    let mut a = GCounter::new();
    a.increment(4, 0);
    assert_eq!(a.value(), 0);
    assert_ne!(a, GCounter::new());
    let mut b = GCounter::new();
    b.merge(&a);
    assert_eq!(a, b);
    b.merge(&GCounter::new());
    assert_eq!(a, b);
}

#[test]
fn counters_only_grow() {
    let mut a = GCounter::new();
    a.increment(0, 3);
    a.increment(1, 9);
    let mut b = GCounter::new();
    b.increment(0, 8);
    b.increment(1, 2);
    let mut both = a.clone();
    both.merge(&b);
    assert_eq!((both.get(0), both.get(1)), (8, 9));
    assert!(both.value() >= a.value() && both.value() >= b.value());
    both.increment(1, 1);
    assert_eq!(both.value(), 18);
    a.increment(2, u64::MAX - 12);
    assert_eq!(a.value(), u64::MAX);
}

#[test]
fn maps_merge_counter_by_counter() {
    let mut a = PheromoneMap::default();
    a.emit_demand(0, 5);
    a.emit_demand(0, 6);
    a.emit_supply(1, 1);
    let mut b = a.clone();
    b.emit_demand(0, 4);
    b.emit_demand(2, 2);
    let mut ab = a.clone();
    ab.merge(&b);
    assert_eq!(ab, b);
    let mut ba = b.clone();
    ba.merge(&a);
    assert_eq!(ab, ba);
    let copy = ab.clone();
    ab.merge(&copy);
    assert_eq!(ab, copy);
    assert_eq!(ab.demand_total(0), 15);
    assert_eq!(ab.demand_total(2), 2);
    assert_eq!(ab.supply_total(1), 1);
    assert_eq!(ab.supply_total(0), 0);
}
