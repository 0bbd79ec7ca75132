//! Grow-only counters that replicas merge slot by slot.

use std::collections::HashMap;

use vstd::prelude::*;

verus! {

broadcast use vstd::std_specs::hash::group_hash_axioms;

/// Identifies a node. In a fleet it is also the node's position.
pub type NodeId = usize;

/// What a counter holds: a count for each node that has a slot.
pub type Slots = Map<NodeId, u64>;

/// The count in the slot of `node`, where a missing slot counts as zero.
pub open spec fn slot(m: Slots, node: NodeId) -> u64 {
    if m.contains_key(node) {
        m[node]
    } else {
        0
    }
}

/// The sum of all slots.
pub open spec fn total(m: Slots) -> nat
    decreases m.dom().len(),
{
    if m.dom().finite() && m.dom().len() > 0 {
        let node = m.dom().choose();
        m[node] as nat + total(m.remove(node))
    } else {
        0
    }
}

/// The larger of two counts.
pub open spec fn larger(x: u64, y: u64) -> u64 {
    if x >= y {
        x
    } else {
        y
    }
}

/// `m` after `amount` was added to the slot of `node`.
pub open spec fn incremented(m: Slots, node: NodeId, amount: u64) -> Slots {
    m.insert(node, (slot(m, node) + amount) as u64)
}

/// The merge of two counters: every slot of either, each with the larger count.
pub open spec fn merged(a: Slots, b: Slots) -> Slots {
    Map::new(
        |node: NodeId| a.contains_key(node) || b.contains_key(node),
        |node: NodeId| larger(slot(a, node), slot(b, node)),
    )
}

/// `b` has every slot of `a`, with at least the same count.
pub open spec fn included(a: Slots, b: Slots) -> bool {
    forall|node: NodeId| #[trigger]
        a.contains_key(node) ==> b.contains_key(node) && a[node] <= b[node]
}

/// The total splits off any one slot.
pub proof fn lemma_total_remove(m: Slots, node: NodeId)
    requires
        m.dom().finite(),
        m.contains_key(node),
    ensures
        total(m) == m[node] + total(m.remove(node)),
    decreases m.dom().len(),
{
    let first = m.dom().choose();
    if first != node {
        lemma_total_remove(m.remove(first), node);
        lemma_total_remove(m.remove(node), first);
        assert(m.remove(first).remove(node) =~= m.remove(node).remove(first));
    }
}

/// A new slot adds its count to the total.
pub proof fn lemma_total_insert(m: Slots, node: NodeId, count: u64)
    requires
        m.dom().finite(),
        !m.contains_key(node),
    ensures
        total(m.insert(node, count)) == total(m) + count,
{
    lemma_total_remove(m.insert(node, count), node);
    assert(m.insert(node, count).remove(node) =~= m);
}

/// Totals never shrink along inclusion.
pub proof fn lemma_total_monotone(a: Slots, b: Slots)
    requires
        a.dom().finite(),
        b.dom().finite(),
        included(a, b),
    ensures
        total(a) <= total(b),
    decreases a.dom().len(),
{
    if a.dom().len() > 0 {
        let node = a.dom().choose();
        assert(a.contains_key(node));
        lemma_total_remove(b, node);
        assert forall|n: NodeId| #[trigger] a.remove(node).contains_key(n) implies b.remove(
            node,
        ).contains_key(n) && a.remove(node)[n] <= b.remove(node)[n] by {
            assert(a.contains_key(n));
        }
        lemma_total_monotone(a.remove(node), b.remove(node));
    }
}

/// Reading a slot gives the count that is stored for the node, and zero where none is.
pub proof fn law_slot_reads_the_count(m: Slots, node: NodeId)
    ensures
        m.contains_key(node) ==> slot(m, node) == m[node],
        !m.contains_key(node) ==> slot(m, node) == 0,
{
}

/// The total counts every slot once: without slots it is zero, and each further slot adds
/// its count.
pub proof fn law_total_adds_up(m: Slots, node: NodeId, count: u64)
    requires
        m.dom().finite(),
        !m.contains_key(node),
    ensures
        total(Slots::empty()) == 0,
        total(m.insert(node, count)) == total(m) + count,
{
    lemma_total_insert(m, node, count);
}

/// An increment adds the whole amount to the count of the node, where a missing slot counts
/// as zero, and leaves every other slot as it is.
pub proof fn law_increment_adds(m: Slots, node: NodeId, amount: u64, other: NodeId)
    requires
        m.contains_key(node) ==> m[node] + amount <= u64::MAX,
        other != node,
    ensures
        incremented(m, node, amount).contains_key(node),
        m.contains_key(node) ==> incremented(m, node, amount)[node] == m[node] + amount,
        !m.contains_key(node) ==> incremented(m, node, amount)[node] == amount,
        incremented(m, node, amount).contains_key(other) == m.contains_key(other),
        m.contains_key(other) ==> incremented(m, node, amount)[other] == m[other],
{
}

/// A merge has the slots of both counters and no others. A slot that both have gets the
/// larger count, and a slot that one has keeps its count.
pub proof fn law_merge_keeps_the_larger(a: Slots, b: Slots, node: NodeId)
    ensures
        merged(a, b).contains_key(node) <==> a.contains_key(node) || b.contains_key(node),
        a.contains_key(node) && b.contains_key(node) && a[node] >= b[node] ==> merged(a, b)[node]
            == a[node],
        a.contains_key(node) && b.contains_key(node) && a[node] <= b[node] ==> merged(a, b)[node]
            == b[node],
        a.contains_key(node) && !b.contains_key(node) ==> merged(a, b)[node] == a[node],
        !a.contains_key(node) && b.contains_key(node) ==> merged(a, b)[node] == b[node],
{
}

/// Inclusion is meant slot by slot.
pub proof fn law_included_slot_by_slot(a: Slots, b: Slots)
    ensures
        included(a, b) <==> forall|node: NodeId| #[trigger]
            a.contains_key(node) ==> b.contains_key(node) && a[node] <= b[node],
{
}

/// Merging is commutative.
pub proof fn law_merge_commutative(a: Slots, b: Slots)
    ensures
        merged(a, b) == merged(b, a),
{
    assert(merged(a, b) =~= merged(b, a));
}

/// Merging is associative.
pub proof fn law_merge_associative(a: Slots, b: Slots, c: Slots)
    ensures
        merged(merged(a, b), c) == merged(a, merged(b, c)),
{
    assert(merged(merged(a, b), c) =~= merged(a, merged(b, c)));
}

/// Merging is idempotent.
pub proof fn law_merge_idempotent(a: Slots)
    ensures
        merged(a, a) == a,
{
    assert(merged(a, a) =~= a);
}

/// A counter without slots adds nothing to a merge.
pub proof fn law_merge_identity(a: Slots)
    ensures
        merged(a, Slots::empty()) == a,
        merged(Slots::empty(), a) == a,
{
    assert(merged(a, Slots::empty()) =~= a);
    assert(merged(Slots::empty(), a) =~= a);
}

/// A merge includes both counters, and every counter that includes both includes it.
pub proof fn law_merge_least_upper_bound(a: Slots, b: Slots, c: Slots)
    ensures
        included(a, merged(a, b)),
        included(b, merged(a, b)),
        included(a, c) && included(b, c) ==> included(merged(a, b), c),
{
}

/// Inclusion is a partial order.
pub proof fn law_included_partial_order(a: Slots, b: Slots, c: Slots)
    ensures
        included(a, a),
        included(a, b) && included(b, c) ==> included(a, c),
        included(a, b) && included(b, a) ==> a == b,
{
    if included(a, b) && included(b, a) {
        assert forall|node: NodeId| #[trigger] a.contains_key(node) == b.contains_key(node) && (
        a.contains_key(node) ==> a[node] == b[node]) by {
            if a.contains_key(node) {
                assert(b.contains_key(node));
            }
        }
        assert(a =~= b);
    }
}

/// Counters only grow: neither an increment nor a merge lowers a slot or the total.
pub proof fn law_counters_grow(a: Slots, b: Slots, node: NodeId, amount: u64)
    requires
        a.dom().finite(),
        b.dom().finite(),
        slot(a, node) + amount <= u64::MAX,
    ensures
        included(a, incremented(a, node, amount)),
        total(incremented(a, node, amount)) == total(a) + amount,
        included(a, merged(a, b)),
        total(a) <= total(merged(a, b)),
{
    let raised = incremented(a, node, amount);
    lemma_total_remove(raised, node);
    assert(raised.remove(node) =~= a.remove(node));
    if a.contains_key(node) {
        lemma_total_remove(a, node);
    } else {
        assert(a.remove(node) =~= a);
    }
    assert(merged(a, b).dom() =~= a.dom().union(b.dom()));
    lemma_total_monotone(a, merged(a, b));
}

/// G-Counter CRDT. Each node owns exactly one slot, and a merge keeps the larger
/// count of each slot.
#[derive(Debug, PartialEq, Eq)]
pub struct GCounter(pub HashMap<NodeId, u64>);

impl View for GCounter {
    type V = Slots;

    open spec fn view(&self) -> Slots {
        self.0@
    }
}

impl Default for GCounter {
    fn default() -> (counter: Self)
        ensures
            counter@ == Slots::empty(),
    {
        GCounter::new()
    }
}

impl Clone for GCounter {
    fn clone(&self) -> (counter: Self)
        ensures
            counter@ == self@,
    {
        GCounter(self.0.clone())
    }
}

impl GCounter {
    /// A counter has finitely many slots.
    pub proof fn law_finitely_many_slots(&self)
        ensures
            self@.dom().finite(),
    {
    }

    /// A counter without slots.
    pub fn new() -> (counter: Self)
        ensures
            counter@ == Slots::empty(),
    {
        GCounter(HashMap::new())
    }

    /// Adds `amount` to the slot of `node`, which is made if it is missing.
    pub fn increment(&mut self, node: NodeId, amount: u64)
        requires
            slot(old(self)@, node) + amount <= u64::MAX,
        ensures
            final(self)@ == incremented(old(self)@, node, amount),
    {
        let count: &mut u64 = self.0.entry(node).or_insert(0);
        *count += amount;
    }

    /// Sum of all slots: the global pheromone level seen by this replica.
    pub fn value(&self) -> (sum: u64)
        requires
            total(self@) <= u64::MAX,
        ensures
            sum == total(self@),
    {
        let mut sum: u64 = 0;
        let ghost mut seen = Slots::empty();
        for (node, count) in it: self.0.iter()
            invariant
                total(self@) <= u64::MAX,
                self@ == self.0@,
                sum == total(seen),
                seen.dom().finite(),
                it.seq().no_duplicates(),
                forall|n: NodeId| #[trigger]
                    seen.contains_key(n) ==> self@.contains_key(n) && seen[n] == self@[n]
                        && exists|j: int| 0 <= j < it.index() && *it.seq()[j].0 == n,
                forall|j: int|
                    0 <= j < it.index() ==> seen.contains_key(*(#[trigger] it.seq()[j]).0),
        {
            proof {
                assert(self@.contains_key(*it.seq()[it.index()].0));
                assert(!seen.contains_key(*node)) by {
                    if seen.contains_key(*node) {
                        let j = choose|j: int| 0 <= j < it.index() && *it.seq()[j].0 == *node;
                        assert(self@.contains_key(*it.seq()[j].0));
                        assert(it.seq()[j] == it.seq()[it.index()]);
                    }
                }
                lemma_total_insert(seen, *node, *count);
                lemma_total_monotone(seen.insert(*node, *count), self@);
                seen = seen.insert(*node, *count);
            }
            sum += *count;
        }
        assert(seen =~= self@);
        sum
    }

    /// The count in the slot of `node`, zero where there is none.
    pub fn get(&self, node: NodeId) -> (count: u64)
        ensures
            count == slot(self@, node),
    {
        match self.0.get(&node) {
            Some(count) => *count,
            None => 0,
        }
    }

    /// Takes over every slot of `other` whose count is larger.
    pub fn merge(&mut self, other: &GCounter)
        ensures
            final(self)@ == merged(old(self)@, other@),
    {
        let ghost before = self@;
        let ghost mut seen = Slots::empty();
        for (node, count) in it: other.0.iter()
            invariant
                self@ == merged(before, seen),
                forall|n: NodeId| #[trigger]
                    seen.contains_key(n) ==> other@.contains_key(n) && seen[n] == other@[n],
                forall|j: int|
                    0 <= j < it.index() ==> seen.contains_key(*(#[trigger] it.seq()[j]).0),
        {
            let slot: &mut u64 = self.0.entry(*node).or_insert(0);
            if *slot < *count {
                *slot = *count;
            }
            proof {
                seen = seen.insert(*node, *count);
            }
            assert(self@ =~= merged(before, seen));
        }
        assert(seen =~= other@);
    }
}

} // verus!
