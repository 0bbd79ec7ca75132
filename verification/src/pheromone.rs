//! Pheromone maps: the demand and supply counters that a node has heard of.

use std::collections::HashMap;

use vstd::prelude::*;

use crate::gcounter;
use crate::gcounter::{included, incremented, merged, slot, total, GCounter, NodeId, Slots};
use crate::trit::Trit;

verus! {

broadcast use vstd::std_specs::hash::group_hash_axioms;

/// One kind of pheromone: a counter for each node that was heard of.
pub type Trails = Map<NodeId, Slots>;

/// What a pheromone map holds.
#[verifier::ext_equal]
pub struct Pheromones {
    pub demand: Trails,
    pub supply: Trails,
}

/// The counter of `node`, without slots where the node was never heard of.
pub open spec fn trail(t: Trails, node: NodeId) -> Slots {
    if t.contains_key(node) {
        t[node]
    } else {
        Slots::empty()
    }
}

/// The pheromone level of `node`: the sum of its counter.
pub open spec fn level(t: Trails, node: NodeId) -> nat {
    total(trail(t, node))
}

/// `t` after `source` added `amount` to its own slot of its own counter.
pub open spec fn emitted(t: Trails, source: NodeId, amount: u64) -> Trails {
    t.insert(source, incremented(trail(t, source), source, amount))
}

/// The merge of two kinds of trails, counter by counter.
pub open spec fn trails_merged(a: Trails, b: Trails) -> Trails {
    Map::new(
        |node: NodeId| a.contains_key(node) || b.contains_key(node),
        |node: NodeId| merged(trail(a, node), trail(b, node)),
    )
}

/// Every counter of `a` is in `b`, with at least the same counts.
pub open spec fn trails_included(a: Trails, b: Trails) -> bool {
    forall|node: NodeId| #[trigger]
        a.contains_key(node) ==> b.contains_key(node) && included(a[node], b[node])
}

impl Pheromones {
    /// Nothing heard of.
    pub open spec fn empty() -> Self {
        Pheromones { demand: Trails::empty(), supply: Trails::empty() }
    }

    /// The merge of two replicas.
    pub open spec fn merged(self, other: Self) -> Self {
        Pheromones {
            demand: trails_merged(self.demand, other.demand),
            supply: trails_merged(self.supply, other.supply),
        }
    }

    /// `other` knows everything that `self` knows.
    pub open spec fn included(self, other: Self) -> bool {
        &&& trails_included(self.demand, other.demand)
        &&& trails_included(self.supply, other.supply)
    }
}

/// The counter of a node is the one that is stored for it, and its level is the sum of that
/// counter. A node that was never heard of is at level zero.
pub proof fn law_level_sums_the_counter(t: Trails, node: NodeId)
    ensures
        t.contains_key(node) ==> trail(t, node) == t[node] && level(t, node) == total(t[node]),
        !t.contains_key(node) ==> trail(t, node) == Slots::empty() && level(t, node) == 0,
{
}

/// An emission adds the whole amount to the slot that its source has in its own counter,
/// where what is missing counts as zero. Every other slot of that counter and every other
/// counter stays as it is.
pub proof fn law_emission_adds(
    t: Trails,
    source: NodeId,
    amount: u64,
    node: NodeId,
    writer: NodeId,
)
    requires
        t.contains_key(source) && t[source].contains_key(source) ==> t[source][source] + amount
            <= u64::MAX,
        node != source,
        writer != source,
    ensures
        ({
            let after = emitted(t, source, amount);
            let heard_of = t.contains_key(source);
            &&& after.contains_key(source)
            &&& after[source].contains_key(source)
            &&& heard_of && t[source].contains_key(source) ==> after[source][source]
                == t[source][source] + amount
            &&& !(heard_of && t[source].contains_key(source)) ==> after[source][source] == amount
            &&& after[source].contains_key(writer) <==> heard_of && t[source].contains_key(writer)
            &&& heard_of && t[source].contains_key(writer) ==> after[source][writer]
                == t[source][writer]
            &&& after.contains_key(node) <==> t.contains_key(node)
            &&& t.contains_key(node) ==> after[node] == t[node]
        }),
{
}

/// An emission raises the level of its source by exactly the amount, and no other level.
pub proof fn law_emission_raises_the_level(t: Trails, source: NodeId, amount: u64, node: NodeId)
    requires
        t.contains_key(source) ==> t[source].dom().finite(),
        t.contains_key(source) && t[source].contains_key(source) ==> t[source][source] + amount
            <= u64::MAX,
        node != source,
    ensures
        level(emitted(t, source, amount), source) == level(t, source) + amount,
        level(emitted(t, source, amount), node) == level(t, node),
{
    let counter = trail(t, source);
    gcounter::law_counters_grow(counter, counter, source, amount);
}

/// A merge of replicas has the counters of both and no others. In each counter it has the
/// slots of both, each with the larger of the two counts, where what is missing counts as
/// zero.
pub proof fn law_replicas_merge_slot_by_slot(
    a: Pheromones,
    b: Pheromones,
    node: NodeId,
    writer: NodeId,
)
    ensures
        ({
            let both = a.merged(b);
            let has = |t: Trails| t.contains_key(node) && t[node].contains_key(writer);
            let count = |t: Trails|
                if t.contains_key(node) && t[node].contains_key(writer) {
                    t[node][writer] as int
                } else {
                    0
                };
            &&& both.demand.contains_key(node) <==> a.demand.contains_key(node)
                || b.demand.contains_key(node)
            &&& has(both.demand) <==> has(a.demand) || has(b.demand)
            &&& count(a.demand) >= count(b.demand) ==> count(both.demand) == count(a.demand)
            &&& count(a.demand) <= count(b.demand) ==> count(both.demand) == count(b.demand)
            &&& both.supply.contains_key(node) <==> a.supply.contains_key(node)
                || b.supply.contains_key(node)
            &&& has(both.supply) <==> has(a.supply) || has(b.supply)
            &&& count(a.supply) >= count(b.supply) ==> count(both.supply) == count(a.supply)
            &&& count(a.supply) <= count(b.supply) ==> count(both.supply) == count(b.supply)
        }),
{
}

/// Inclusion of replicas is meant counter by counter and slot by slot.
pub proof fn law_included_counter_by_counter(a: Pheromones, b: Pheromones)
    ensures
        a.included(b) <==> {
            &&& forall|node: NodeId| #[trigger]
                a.demand.contains_key(node) ==> b.demand.contains_key(node) && included(
                    a.demand[node],
                    b.demand[node],
                )
            &&& forall|node: NodeId| #[trigger]
                a.supply.contains_key(node) ==> b.supply.contains_key(node) && included(
                    a.supply[node],
                    b.supply[node],
                )
        },
{
}

/// Merging replicas is commutative.
pub proof fn law_merge_commutative(a: Pheromones, b: Pheromones)
    ensures
        a.merged(b) == b.merged(a),
{
    lemma_trails_commutative(a.demand, b.demand);
    lemma_trails_commutative(a.supply, b.supply);
}

proof fn lemma_trails_commutative(a: Trails, b: Trails)
    ensures
        trails_merged(a, b) == trails_merged(b, a),
{
    assert forall|node: NodeId| merged(trail(a, node), trail(b, node)) == merged(
        trail(b, node),
        trail(a, node),
    ) by {
        gcounter::law_merge_commutative(trail(a, node), trail(b, node));
    }
    assert(trails_merged(a, b) =~= trails_merged(b, a));
}

/// Merging replicas is associative.
pub proof fn law_merge_associative(a: Pheromones, b: Pheromones, c: Pheromones)
    ensures
        a.merged(b).merged(c) == a.merged(b.merged(c)),
{
    lemma_trails_associative(a.demand, b.demand, c.demand);
    lemma_trails_associative(a.supply, b.supply, c.supply);
}

proof fn lemma_trails_associative(a: Trails, b: Trails, c: Trails)
    ensures
        trails_merged(trails_merged(a, b), c) == trails_merged(a, trails_merged(b, c)),
{
    let left = trails_merged(trails_merged(a, b), c);
    let right = trails_merged(a, trails_merged(b, c));
    assert forall|node: NodeId| left.contains_key(node) implies left[node] == right[node] by {
        lemma_trail_of_merge(a, b, node);
        lemma_trail_of_merge(b, c, node);
        gcounter::law_merge_associative(trail(a, node), trail(b, node), trail(c, node));
    }
    assert(left =~= right);
}

/// The counter of a node in a merge is the merge of its counters.
proof fn lemma_trail_of_merge(a: Trails, b: Trails, node: NodeId)
    ensures
        trail(trails_merged(a, b), node) == merged(trail(a, node), trail(b, node)),
{
    gcounter::law_merge_identity(Slots::empty());
}

/// Merging a replica with itself changes nothing.
pub proof fn law_merge_idempotent(a: Pheromones)
    ensures
        a.merged(a) == a,
{
    lemma_trails_idempotent(a.demand);
    lemma_trails_idempotent(a.supply);
}

proof fn lemma_trails_idempotent(a: Trails)
    ensures
        trails_merged(a, a) == a,
{
    assert forall|node: NodeId| a.contains_key(node) implies merged(a[node], a[node])
        == a[node] by {
        gcounter::law_merge_idempotent(a[node]);
    }
    assert(trails_merged(a, a) =~= a);
}

/// A merge includes both replicas, and every replica that includes both includes it.
pub proof fn law_merge_least_upper_bound(a: Pheromones, b: Pheromones, c: Pheromones)
    ensures
        a.included(a.merged(b)),
        b.included(a.merged(b)),
        a.included(c) && b.included(c) ==> a.merged(b).included(c),
{
    lemma_trails_least_upper_bound(a.demand, b.demand, c.demand);
    lemma_trails_least_upper_bound(a.supply, b.supply, c.supply);
}

proof fn lemma_trails_least_upper_bound(a: Trails, b: Trails, c: Trails)
    ensures
        trails_included(a, trails_merged(a, b)),
        trails_included(b, trails_merged(a, b)),
        trails_included(a, c) && trails_included(b, c) ==> trails_included(trails_merged(a, b), c),
{
    assert forall|node: NodeId|
        included(trail(a, node), merged(trail(a, node), trail(b, node))) && included(
            trail(b, node),
            merged(trail(a, node), trail(b, node)),
        ) by {
        gcounter::law_merge_least_upper_bound(trail(a, node), trail(b, node), Slots::empty());
    }
    if trails_included(a, c) && trails_included(b, c) {
        assert forall|node: NodeId| #[trigger]
            trails_merged(a, b).contains_key(node) implies c.contains_key(node) && included(
            trails_merged(a, b)[node],
            c[node],
        ) by {
            assert(a.contains_key(node) || b.contains_key(node));
            gcounter::law_merge_least_upper_bound(trail(a, node), trail(b, node), c[node]);
        }
    }
}

/// Inclusion of replicas is a partial order.
pub proof fn law_included_partial_order(a: Pheromones, b: Pheromones, c: Pheromones)
    ensures
        a.included(a),
        a.included(b) && b.included(c) ==> a.included(c),
        a.included(b) && b.included(a) ==> a == b,
{
    lemma_trails_partial_order(a.demand, b.demand, c.demand);
    lemma_trails_partial_order(a.supply, b.supply, c.supply);
}

proof fn lemma_trails_partial_order(a: Trails, b: Trails, c: Trails)
    ensures
        trails_included(a, a),
        trails_included(a, b) && trails_included(b, c) ==> trails_included(a, c),
        trails_included(a, b) && trails_included(b, a) ==> a == b,
{
    if trails_included(a, b) && trails_included(b, c) {
        assert forall|node: NodeId| #[trigger] a.contains_key(node) implies c.contains_key(node)
            && included(a[node], c[node]) by {
            assert(b.contains_key(node));
            gcounter::law_included_partial_order(a[node], b[node], c[node]);
        }
    }
    if trails_included(a, b) && trails_included(b, a) {
        assert forall|node: NodeId| #[trigger] a.contains_key(node) == b.contains_key(node) && (
        a.contains_key(node) ==> a[node] == b[node]) by {
            if a.contains_key(node) {
                assert(b.contains_key(node));
                gcounter::law_included_partial_order(a[node], b[node], a[node]);
            }
        }
        assert(a =~= b);
    }
}

/// Two replicas that exchange what they know agree from then on: a further exchange
/// changes neither.
pub proof fn law_exchange_converges(a: Pheromones, b: Pheromones)
    ensures
        a.merged(b) == b.merged(a),
        a.merged(b).merged(b.merged(a)) == a.merged(b),
{
    law_merge_commutative(a, b);
    law_merge_idempotent(a.merged(b));
}

/// In every counter only the slot of its own node is in use.
pub open spec fn owned(t: Trails) -> bool {
    forall|node: NodeId, writer: NodeId|
        t.contains_key(node) && #[trigger] t[node].contains_key(writer) ==> writer == node
}

/// Each node owns exactly one slot: nobody else ever writes to it, however replicas emit
/// and merge.
pub proof fn law_slots_stay_owned(a: Trails, b: Trails, source: NodeId, amount: u64)
    requires
        owned(a),
        owned(b),
    ensures
        owned(Trails::empty()),
        owned(emitted(a, source, amount)),
        owned(trails_merged(a, b)),
{
    let after = emitted(a, source, amount);
    assert forall|node: NodeId, writer: NodeId|
        after.contains_key(node) && #[trigger] after[node].contains_key(writer) implies writer
        == node by {
        if node != source {
            assert(a[node].contains_key(writer));
        } else if writer != source {
            assert(trail(a, source).contains_key(writer));
        }
    }
    let both = trails_merged(a, b);
    assert forall|node: NodeId, writer: NodeId|
        both.contains_key(node) && #[trigger] both[node].contains_key(writer) implies writer
        == node by {
        assert(trail(a, node).contains_key(writer) || trail(b, node).contains_key(writer));
    }
}

/// While slots are owned, the level of a node is the count in its own slot, and so it
/// fits a machine word.
pub proof fn law_owned_level(t: Trails, node: NodeId)
    requires
        owned(t),
    ensures
        level(t, node) == slot(trail(t, node), node),
        level(t, node) <= u64::MAX,
{
    let counter = trail(t, node);
    if counter.contains_key(node) {
        assert(counter =~= Slots::empty().insert(node, counter[node]));
        gcounter::lemma_total_insert(Slots::empty(), node, counter[node]);
    } else {
        assert(counter =~= Slots::empty());
    }
}

/// The sum of a list of levels.
pub open spec fn sum(levels: Seq<u64>) -> nat
    decreases levels.len(),
{
    if levels.len() == 0 {
        0
    } else {
        sum(levels.drop_last()) + levels.last() as nat
    }
}

/// The levels of `nodes` fit a machine word.
pub open spec fn readable(t: Trails, nodes: Seq<NodeId>) -> bool {
    forall|k: int| 0 <= k < nodes.len() ==> level(t, #[trigger] nodes[k]) <= u64::MAX
}

/// Levels can be read wherever they fit a machine word.
pub proof fn law_levels_that_fit_can_be_read(t: Trails, nodes: Seq<NodeId>)
    ensures
        readable(t, nodes) <==> forall|k: int|
            0 <= k < nodes.len() ==> level(t, #[trigger] nodes[k]) <= u64::MAX,
{
}

/// The levels of a node and of its neighbors, from which a gradient is taken. A node
/// without neighbors has no gradient, and its own level is left at zero.
#[derive(Debug, PartialEq, Eq)]
pub struct Gradient {
    pub own: u64,
    pub around: Vec<u64>,
}

impl Gradient {
    /// `self` holds the levels of `node` and of its `neighbors` in `t`, in their order.
    pub open spec fn reads(self, t: Trails, node: NodeId, neighbors: Seq<NodeId>) -> bool {
        &&& self.own == if neighbors.len() == 0 {
            0
        } else {
            level(t, node)
        }
        &&& self.around@.len() == neighbors.len()
        &&& forall|k: int|
            0 <= k < neighbors.len() ==> #[trigger] self.around@[k] == level(t, neighbors[k])
    }

    /// How far the neighbors are above the node, all together. The mean of the neighbors
    /// exceeds the level of the node by this rise, divided by the number of neighbors.
    pub open spec fn rise(self) -> int {
        sum(self.around@) - self.own * self.around@.len()
    }

    /// Positive where the neighbors have a higher level than the node on average (pull
    /// work here), negative where the node has (push work out), zero where neither has.
    pub fn direction(&self) -> (trit: Trit)
        ensures
            trit@ == if self.rise() > 0 {
                1int
            } else if self.rise() < 0 {
                -1int
            } else {
                0int
            },
            trit@ == 1 <==> sum(self.around@) > self.own * self.around@.len(),
            trit@ == -1 <==> sum(self.around@) < self.own * self.around@.len(),
    {
        let mut above: u128 = 0;
        let count: usize = self.around.len();
        for k in 0..count
            invariant
                count == self.around@.len(),
                above == sum(self.around@.take(k as int)),
                above <= k * 0xFFFF_FFFF_FFFF_FFFF,
        {
            assert(self.around@.take(k + 1).drop_last() =~= self.around@.take(k as int));
            above = above + self.around[k] as u128;
        }
        assert(self.around@.take(count as int) =~= self.around@);
        assert(0 <= self.own * count <= 0xFFFF_FFFF_FFFF_FFFF * 0xFFFF_FFFF_FFFF_FFFF)
            by (nonlinear_arith)
            requires
                0 <= self.own <= 0xFFFF_FFFF_FFFF_FFFF,
                0 <= count <= 0xFFFF_FFFF_FFFF_FFFF,
        ;
        let here: u128 = self.own as u128 * count as u128;
        if above > here {
            Trit::plus()
        } else if above < here {
            Trit::minus()
        } else {
            Trit::zero()
        }
    }
}

/// What a gradient reads: the level of the node, and that of every neighbor at its place,
/// where a neighbor that was never heard of is at level zero. Without neighbors there is
/// nothing to read.
pub proof fn law_gradient_reads_every_neighbor(
    gradient: Gradient,
    t: Trails,
    node: NodeId,
    neighbors: Seq<NodeId>,
)
    requires
        gradient.reads(t, node, neighbors),
    ensures
        gradient.around@.len() == neighbors.len(),
        forall|k: int|
            0 <= k < neighbors.len() ==> #[trigger] gradient.around@[k] == if t.contains_key(
                neighbors[k],
            ) {
                total(t[neighbors[k]])
            } else {
                0
            },
        neighbors.len() == 0 ==> gradient.own == 0,
        neighbors.len() > 0 ==> gradient.own == if t.contains_key(node) {
            total(t[node])
        } else {
            0
        },
{
}

/// Sums count every level once.
pub proof fn law_sum_adds_up(levels: Seq<u64>, further: u64)
    ensures
        sum(Seq::empty()) == 0,
        sum(levels.push(further)) == sum(levels) + further,
{
    assert(levels.push(further).drop_last() =~= levels);
}

/// Every neighbor weighs the same, those at level zero too: without neighbors there is no
/// rise, and a further neighbor changes the rise by how far it is above the node.
pub proof fn law_every_neighbor_weighs_the_same(few: Gradient, more: Gradient, further: u64)
    requires
        few.own == more.own,
        more.around@ == few.around@.push(further),
    ensures
        few.around@.len() == 0 ==> few.rise() == 0,
        more.rise() == few.rise() + further - few.own,
{
    law_sum_adds_up(few.around@, further);
    let own = few.own as int;
    let count = few.around@.len() as int;
    assert(own * (count + 1) == own * count + own) by (nonlinear_arith);
    assert(own * 0 == 0) by (nonlinear_arith);
}

/// What a map of counters holds.
pub open spec fn trails_of(counters: Map<NodeId, GCounter>) -> Trails {
    counters.map_values(|counter: GCounter| counter@)
}

/// Two counter maps per node: demand (high utilization) and supply (spare capacity).
///
/// Each entry is itself a counter, so that merging two replicas of the map (a gossip
/// step) is a merge counter by counter.
#[derive(Debug, PartialEq)]
pub struct PheromoneMap {
    pub demand: HashMap<NodeId, GCounter>,
    pub supply: HashMap<NodeId, GCounter>,
}

impl View for PheromoneMap {
    type V = Pheromones;

    open spec fn view(&self) -> Pheromones {
        Pheromones { demand: trails_of(self.demand@), supply: trails_of(self.supply@) }
    }
}

impl PheromoneMap {
    /// A map holds the counters that are stored in it, each with its slots.
    pub proof fn law_what_a_map_holds(&self, node: NodeId)
        ensures
            self@.demand.contains_key(node) <==> self.demand@.contains_key(node),
            self.demand@.contains_key(node) ==> self@.demand[node] == self.demand@[node].0@,
            self@.supply.contains_key(node) <==> self.supply@.contains_key(node),
            self.supply@.contains_key(node) ==> self@.supply[node] == self.supply@[node].0@,
    {
    }
}

impl Default for PheromoneMap {
    fn default() -> (map: Self)
        ensures
            map@ == Pheromones::empty(),
    {
        let map = PheromoneMap { demand: HashMap::new(), supply: HashMap::new() };
        assert(map@ =~= Pheromones::empty());
        map
    }
}

impl Clone for PheromoneMap {
    fn clone(&self) -> (map: Self)
        ensures
            map@ == self@,
    {
        PheromoneMap { demand: self.demand.clone(), supply: self.supply.clone() }
    }
}

/// Adds `amount` to the slot that `source` owns in its own counter.
fn emit(counters: &mut HashMap<NodeId, GCounter>, source: NodeId, amount: u64)
    requires
        slot(trail(trails_of(old(counters)@), source), source) + amount <= u64::MAX,
    ensures
        trails_of(final(counters)@) == emitted(trails_of(old(counters)@), source, amount),
{
    let counter: &mut GCounter = counters.entry(source).or_insert(GCounter::new());
    counter.increment(source, amount);
    assert(trails_of(counters@) =~= emitted(trails_of(old(counters)@), source, amount));
}

/// Merges every counter of `theirs` into `mine`.
fn merge_counters(mine: &mut HashMap<NodeId, GCounter>, theirs: &HashMap<NodeId, GCounter>)
    ensures
        trails_of(final(mine)@) == trails_merged(trails_of(old(mine)@), trails_of(theirs@)),
{
    let ghost before = trails_of(mine@);
    let ghost mut seen = Trails::empty();
    assert(before =~= trails_merged(before, seen)) by {
        assert forall|n: NodeId| before.contains_key(n) implies before[n] == merged(
            before[n],
            Slots::empty(),
        ) by {
            assert(before[n] =~= merged(before[n], Slots::empty()));
        }
    }
    for (node, counter) in it: theirs.iter()
        invariant
            trails_of(mine@) == trails_merged(before, seen),
            forall|n: NodeId| #[trigger]
                seen.contains_key(n) ==> theirs@.contains_key(n) && seen[n] == theirs@[n]@,
            forall|j: int| 0 <= j < it.index() ==> seen.contains_key(*(#[trigger] it.seq()[j]).0),
    {
        let ghost between = trails_of(mine@);
        let entry: &mut GCounter = mine.entry(*node).or_insert(GCounter::new());
        entry.merge(counter);
        assert(theirs@.contains_key(*it.seq()[it.index()].0));
        proof {
            assert(merged(trail(between, *node), counter@) =~= merged(
                trail(before, *node),
                counter@,
            ));
            seen = seen.insert(*node, counter@);
        }
        assert(trails_of(mine@) =~= between.insert(*node, merged(trail(between, *node), counter@)));
        assert(between.insert(*node, merged(trail(between, *node), counter@)) =~= trails_merged(
            before,
            seen,
        ));
    }
    assert(seen =~= trails_of(theirs@));
}

/// Collects the levels of a node and of its neighbors.
fn gradient(
    counters: &HashMap<NodeId, GCounter>,
    self_node: NodeId,
    neighbors: &[NodeId],
) -> (gradient: Gradient)
    requires
        neighbors@.len() > 0 ==> level(trails_of(counters@), self_node) <= u64::MAX,
        readable(trails_of(counters@), neighbors@),
    ensures
        gradient.reads(trails_of(counters@), self_node, neighbors@),
{
    let mut around: Vec<u64> = Vec::new();
    if neighbors.len() == 0 {
        return Gradient { own: 0, around };
    }
    let count: usize = neighbors.len();
    for k in 0..count
        invariant
            count == neighbors@.len(),
            readable(trails_of(counters@), neighbors@),
            around@.len() == k,
            forall|j: int|
                0 <= j < k ==> #[trigger] around@[j] == level(trails_of(counters@), neighbors@[j]),
    {
        around.push(level_of(counters, neighbors[k]));
    }
    Gradient { own: level_of(counters, self_node), around }
}

/// The level of `node`.
fn level_of(counters: &HashMap<NodeId, GCounter>, node: NodeId) -> (sum: u64)
    requires
        level(trails_of(counters@), node) <= u64::MAX,
    ensures
        sum == level(trails_of(counters@), node),
{
    match counters.get(&node) {
        Some(counter) => counter.value(),
        None => 0,
    }
}

impl PheromoneMap {
    /// Raises the demand that `source` signals by `level`.
    pub fn emit_demand(&mut self, source: NodeId, level: u64)
        requires
            slot(trail(old(self)@.demand, source), source) + level <= u64::MAX,
        ensures
            final(self)@.demand == emitted(old(self)@.demand, source, level),
            final(self)@.supply == old(self)@.supply,
    {
        emit(&mut self.demand, source, level);
    }

    /// Raises the supply that `source` signals by `level`.
    pub fn emit_supply(&mut self, source: NodeId, level: u64)
        requires
            slot(trail(old(self)@.supply, source), source) + level <= u64::MAX,
        ensures
            final(self)@.supply == emitted(old(self)@.supply, source, level),
            final(self)@.demand == old(self)@.demand,
    {
        emit(&mut self.supply, source, level);
    }

    /// Learns everything that `other` knows.
    pub fn merge(&mut self, other: &PheromoneMap)
        ensures
            final(self)@ == old(self)@.merged(other@),
    {
        merge_counters(&mut self.demand, &other.demand);
        merge_counters(&mut self.supply, &other.supply);
    }

    /// The demand level of `node`.
    pub fn demand_total(&self, node: NodeId) -> (sum: u64)
        requires
            level(self@.demand, node) <= u64::MAX,
        ensures
            sum == level(self@.demand, node),
    {
        level_of(&self.demand, node)
    }

    /// The supply level of `node`.
    pub fn supply_total(&self, node: NodeId) -> (sum: u64)
        requires
            level(self@.supply, node) <= u64::MAX,
        ensures
            sum == level(self@.supply, node),
    {
        level_of(&self.supply, node)
    }

    /// What the demand gradient at `self_node` is taken from.
    pub fn demand_gradient(&self, self_node: NodeId, neighbors: &[NodeId]) -> (gradient: Gradient)
        requires
            neighbors@.len() > 0 ==> level(self@.demand, self_node) <= u64::MAX,
            readable(self@.demand, neighbors@),
        ensures
            gradient.reads(self@.demand, self_node, neighbors@),
    {
        gradient(&self.demand, self_node, neighbors)
    }

    /// What the supply gradient at `self_node` is taken from.
    pub fn supply_gradient(&self, self_node: NodeId, neighbors: &[NodeId]) -> (gradient: Gradient)
        requires
            neighbors@.len() > 0 ==> level(self@.supply, self_node) <= u64::MAX,
            readable(self@.supply, neighbors@),
        ensures
            gradient.reads(self@.supply, self_node, neighbors@),
    {
        gradient(&self.supply, self_node, neighbors)
    }
}

} // verus!
