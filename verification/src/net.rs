//! Ternary strategy networks.

use vstd::prelude::*;

use crate::rank::{Rank, NAN, ONE, ZERO};
use crate::rng::{lemma_stream_adds, stream, Rng};
use crate::trit::{is_ternary, word_weight, Trit};

verus! {

/// What a node does in a tick.
#[derive(Debug, Clone, Copy, PartialEq, Eq, Structural)]
pub enum Action {
    /// Offload 30% of local utilization to the least-loaded AcceptWork neighbor.
    MigrateWork,
    /// Accept incoming workload from a MigrateWork neighbor.
    AcceptWork,
    Idle,
}

/// One step of a ternary dot product, with the index of the input that it takes.
#[derive(Debug, Clone, Copy, PartialEq, Eq, Structural)]
pub enum Term {
    Add(usize),
    Subtract(usize),
}

/// The dot product of a row of weights with an input.
pub open spec fn dot(row: Seq<int>, input: Seq<int>) -> int
    decreases row.len(),
{
    if row.len() == 0 {
        0
    } else {
        dot(row.drop_last(), input) + row.last() * input[row.len() - 1]
    }
}

/// The steps of a row: its nonzero weights, in order.
pub open spec fn row_terms(row: Seq<int>) -> Seq<Term>
    decreases row.len(),
{
    if row.len() == 0 {
        Seq::empty()
    } else {
        let before = row_terms(row.drop_last());
        if row.last() == 1 {
            before.push(Term::Add((row.len() - 1) as usize))
        } else if row.last() == -1 {
            before.push(Term::Subtract((row.len() - 1) as usize))
        } else {
            before
        }
    }
}

/// What a list of steps computes from an input.
pub open spec fn evaluate(terms: Seq<Term>, input: Seq<int>) -> int
    decreases terms.len(),
{
    if terms.len() == 0 {
        0
    } else {
        let before = evaluate(terms.drop_last(), input);
        match terms.last() {
            Term::Add(k) => before + input[k as int],
            Term::Subtract(k) => before - input[k as int],
        }
    }
}

/// A ternary dot product never multiplies: adding and subtracting the inputs that the
/// steps of a row name, in their order, gives the dot product of the row.
pub proof fn law_terms_compute_dot_product(row: Seq<int>, input: Seq<int>)
    requires
        row.len() <= input.len(),
        row.len() <= usize::MAX,
        forall|k: int| 0 <= k < row.len() ==> is_ternary(#[trigger] row[k]),
    ensures
        evaluate(row_terms(row), input) == dot(row, input),
    decreases row.len(),
{
    if row.len() > 0 {
        let rest = row.drop_last();
        assert forall|k: int| 0 <= k < rest.len() implies is_ternary(#[trigger] rest[k]) by {
            assert(rest[k] == row[k]);
        }
        law_terms_compute_dot_product(rest, input);
        let before = row_terms(rest);
        let k = row.len() - 1;
        assert(is_ternary(row[k]));
        assert(row.last() * input[k] == if row.last() == 1 {
            input[k]
        } else if row.last() == -1 {
            -input[k]
        } else {
            0
        }) by (nonlinear_arith)
            requires
                is_ternary(row.last()),
        ;
        assert(before.push(Term::Add(k as usize)).drop_last() =~= before);
        assert(before.push(Term::Subtract(k as usize)).drop_last() =~= before);
    }
}

/// The steps of a row are its nonzero weights and nothing else: each step names an input
/// that has the weight of its kind, steps go from the lower inputs to the higher, and every
/// input with a nonzero weight has its step.
pub proof fn law_steps_are_the_nonzero_weights(row: Seq<int>)
    requires
        row.len() <= usize::MAX,
        forall|k: int| 0 <= k < row.len() ==> -1 <= #[trigger] row[k] <= 1,
    ensures
        forall|j: int|
            0 <= j < row_terms(row).len() ==> match #[trigger] row_terms(row)[j] {
                Term::Add(k) => k < row.len() && row[k as int] == 1,
                Term::Subtract(k) => k < row.len() && row[k as int] == -1,
            },
        forall|i: int, j: int|
            #![trigger row_terms(row)[i], row_terms(row)[j]]
            0 <= i < j < row_terms(row).len() ==> {
                let low = match row_terms(row)[i] {
                    Term::Add(k) => k,
                    Term::Subtract(k) => k,
                };
                let high = match row_terms(row)[j] {
                    Term::Add(k) => k,
                    Term::Subtract(k) => k,
                };
                low < high
            },
        forall|k: int|
            0 <= k < row.len() && #[trigger] row[k] == 1 ==> exists|j: int|
                0 <= j < row_terms(row).len() && #[trigger] row_terms(row)[j] == Term::Add(
                    k as usize,
                ),
        forall|k: int|
            0 <= k < row.len() && #[trigger] row[k] == -1 ==> exists|j: int|
                0 <= j < row_terms(row).len() && #[trigger] row_terms(row)[j] == Term::Subtract(
                    k as usize,
                ),
    decreases row.len(),
{
    if row.len() > 0 {
        let rest = row.drop_last();
        let last = row.len() - 1;
        assert(forall|k: int| 0 <= k < rest.len() ==> #[trigger] rest[k] == row[k]);
        law_steps_are_the_nonzero_weights(rest);
        let before = row_terms(rest);
        let terms = row_terms(row);
        assert(-1 <= row[last] <= 1);
        assert(forall|j: int| 0 <= j < before.len() ==> #[trigger] terms[j] == before[j]);
        assert forall|k: int| 0 <= k < row.len() && #[trigger] row[k] == 1 implies exists|j: int|
            0 <= j < terms.len() && #[trigger] terms[j] == Term::Add(k as usize) by {
            if k < last {
                assert(rest[k] == 1);
                let j = choose|j: int|
                    0 <= j < before.len() && #[trigger] before[j] == Term::Add(k as usize);
                assert(terms[j] == Term::Add(k as usize));
            } else {
                assert(terms[before.len() as int] == Term::Add(k as usize));
            }
        }
        assert forall|k: int| 0 <= k < row.len() && #[trigger] row[k] == -1 implies exists|j: int|
            0 <= j < terms.len() && #[trigger] terms[j] == Term::Subtract(k as usize) by {
            if k < last {
                assert(rest[k] == -1);
                let j = choose|j: int|
                    0 <= j < before.len() && #[trigger] before[j] == Term::Subtract(k as usize);
                assert(terms[j] == Term::Subtract(k as usize));
            } else {
                assert(terms[before.len() as int] == Term::Subtract(k as usize));
            }
        }
    }
}

/// A dot product takes every weight once, and a list of steps every step once.
pub proof fn law_products_add_up(row: Seq<int>, weight: int, terms: Seq<Term>, input: Seq<int>)
    ensures
        dot(Seq::empty(), input) == 0,
        dot(row.push(weight), input) == dot(row, input) + weight * input[row.len() as int],
        evaluate(Seq::empty(), input) == 0,
        forall|k: usize| #[trigger]
            evaluate(terms.push(Term::Add(k)), input) == evaluate(terms, input) + input[k as int],
        forall|k: usize| #[trigger]
            evaluate(terms.push(Term::Subtract(k)), input) == evaluate(terms, input)
                - input[k as int],
{
    assert(row.push(weight).drop_last() =~= row);
    assert forall|k: usize| #[trigger]
        evaluate(terms.push(Term::Add(k)), input) == evaluate(terms, input) + input[k as int] by {
        assert(terms.push(Term::Add(k)).drop_last() =~= terms);
    }
    assert forall|k: usize| #[trigger]
        evaluate(terms.push(Term::Subtract(k)), input) == evaluate(terms, input)
            - input[k as int] by {
        assert(terms.push(Term::Subtract(k)).drop_last() =~= terms);
    }
}

/// The weights that a layer draws from the state `start`, row by row.
pub open spec fn drawn_layer(start: u64, in_dim: nat, out_dim: nat) -> Seq<Seq<int>> {
    Seq::new(
        out_dim,
        |row: int|
            Seq::new(
                in_dim,
                |column: int| word_weight(stream(start, (row * in_dim + column + 1) as nat)),
            ),
    )
}

/// The number of weights in a strategy network.
pub open spec fn net_draws() -> nat {
    4 * 8 + 8 * 4 + 4 * 3
}

/// The weights that a network draws from the state `start`, layer by layer.
pub open spec fn drawn_net(start: u64) -> Seq<Seq<Seq<int>>> {
    seq![
        drawn_layer(start, 4, 8),
        drawn_layer(stream(start, 32), 8, 4),
        drawn_layer(stream(start, 64), 4, 3),
    ]
}

/// A layer draws its weights one after the other: the next word gives the next weight, the
/// weights of a row from its first input to its last, and then those of the next row.
pub proof fn law_layer_draws_in_order(start: u64, in_dim: nat, out_dim: nat, row: int, column: int)
    requires
        0 <= row < out_dim,
        0 <= column < in_dim,
    ensures
        drawn_layer(start, in_dim, out_dim).len() == out_dim,
        drawn_layer(start, in_dim, out_dim)[row].len() == in_dim,
        row * in_dim + column >= 0,
        drawn_layer(start, in_dim, out_dim)[row][column] == stream(
            start,
            (row * in_dim + column + 1) as nat,
        ) % 3 - 1,
{
    assert(row * in_dim >= 0) by (nonlinear_arith)
        requires
            row >= 0,
    ;
}

/// A network has three layers of 4 to 8, 8 to 4 and 4 to 3. It draws 76 words, one for each
/// weight, and each layer goes on with the word after the last one of the layer before it.
pub proof fn law_network_draws_in_order(start: u64, row: int, column: int)
    ensures
        net_draws() == 76,
        drawn_net(start).len() == 3,
        drawn_net(start)[0].len() == 8,
        drawn_net(start)[1].len() == 4,
        drawn_net(start)[2].len() == 3,
        0 <= row < 8 && 0 <= column < 4 ==> {
            &&& drawn_net(start)[0][row].len() == 4
            &&& drawn_net(start)[0][row][column] == stream(
                start,
                (row * 4 + column + 1) as nat,
            ) % 3 - 1
        },
        0 <= row < 4 && 0 <= column < 8 ==> {
            &&& drawn_net(start)[1][row].len() == 8
            &&& drawn_net(start)[1][row][column] == stream(
                start,
                (32 + row * 8 + column + 1) as nat,
            ) % 3 - 1
        },
        0 <= row < 3 && 0 <= column < 4 ==> {
            &&& drawn_net(start)[2][row].len() == 4
            &&& drawn_net(start)[2][row][column] == stream(
                start,
                (64 + row * 4 + column + 1) as nat,
            ) % 3 - 1
        },
{
    if 0 <= row < 4 && 0 <= column < 8 {
        lemma_stream_adds(start, 32, (row * 8 + column + 1) as nat);
    }
    if 0 <= row < 3 && 0 <= column < 4 {
        lemma_stream_adds(start, 64, (row * 4 + column + 1) as nat);
    }
}

/// `number`, and zero where it is negative or not a number.
pub open spec fn rectified(number: Rank) -> Rank {
    if number < ZERO || number == NAN {
        ZERO
    } else {
        number
    }
}

/// `number`, or the nearer end of [-1, 1] where it is outside. What is not a number stays
/// so.
pub open spec fn limited(number: Rank) -> Rank {
    if number < -ONE {
        (-ONE) as Rank
    } else if number > ONE && number != NAN {
        ONE
    } else {
        number
    }
}

/// Rectifying keeps every number that is not negative as it is, and so the order of such
/// numbers. All else becomes zero.
pub proof fn law_rectifying_keeps_what_is_not_negative(number: Rank)
    ensures
        0 <= number < 0x7FFF_FFFF ==> rectified(number) == number,
        number < 0 || number == 0x7FFF_FFFF ==> rectified(number) == 0,
{
}

/// Limiting keeps every number from -1 to 1 as it is, and what is not a number too. All
/// numbers below become -1, and all numbers above become 1.
pub proof fn law_limiting_keeps_what_is_within(number: Rank)
    ensures
        -0x3F80_0000 <= number <= 0x3F80_0000 ==> limited(number) == number,
        number < -0x3F80_0000 ==> limited(number) == -0x3F80_0000,
        0x3F80_0000 < number < 0x7FFF_FFFF ==> limited(number) == 0x3F80_0000,
        number == 0x7FFF_FFFF ==> limited(number) == number,
{
}

/// The inputs of a network: the utilization, and the limited gradients and token balance.
pub open spec fn net_inputs(utilization: Rank, demand: Rank, supply: Rank, tokens: Rank) -> Seq<
    Rank,
> {
    seq![utilization, limited(demand), limited(supply), limited(tokens)]
}

/// A network takes the utilization as it is, and then the demand, the supply and the tokens
/// at their places, each as it is while it is within [-1, 1].
pub proof fn law_inputs_at_their_places(
    utilization: Rank,
    demand: Rank,
    supply: Rank,
    tokens: Rank,
)
    ensures
        net_inputs(utilization, demand, supply, tokens).len() == 4,
        net_inputs(utilization, demand, supply, tokens)[0] == utilization,
        net_inputs(utilization, demand, supply, tokens)[1] == limited(demand),
        net_inputs(utilization, demand, supply, tokens)[2] == limited(supply),
        net_inputs(utilization, demand, supply, tokens)[3] == limited(tokens),
{
}

/// Signals that are out of scale saturate: a network gets the same inputs as if they had
/// been held within [-1, 1] before.
pub proof fn law_inputs_saturate(utilization: Rank, demand: Rank, supply: Rank, tokens: Rank)
    ensures
        net_inputs(utilization, limited(demand), limited(supply), limited(tokens)) == net_inputs(
            utilization,
            demand,
            supply,
            tokens,
        ),
        forall|k: int|
            1 <= k < 4 ==> {
                let input = #[trigger] net_inputs(utilization, demand, supply, tokens)[k];
                -ONE <= input <= ONE || input == NAN
            },
{
}

/// The score at `best` is a maximum, and the last one.
pub open spec fn wins(scores: Seq<Rank>, best: int) -> bool {
    &&& 0 <= best < scores.len()
    &&& forall|k: int| 0 <= k < best ==> #[trigger] scores[k] <= scores[best]
    &&& forall|k: int| best < k < scores.len() ==> #[trigger] scores[k] < scores[best]
}

/// The action that the scores of a network lead to.
pub open spec fn decided(scores: Seq<Rank>) -> Action {
    if wins(scores, 2) {
        Action::Idle
    } else if wins(scores, 1) {
        Action::AcceptWork
    } else {
        Action::MigrateWork
    }
}

/// The place of an action among the scores of a network.
pub open spec fn output(action: Action) -> int {
    match action {
        Action::MigrateWork => 0,
        Action::AcceptWork => 1,
        Action::Idle => 2,
    }
}

/// Any three scores lead to one of the three actions, and to no other.
pub proof fn law_one_action_wins(scores: Seq<Rank>, action: Action)
    requires
        scores.len() == 3,
    ensures
        wins(scores, output(action)) <==> action == decided(scores),
{
    let migrate = scores[0];
    let accept = scores[1];
    let idle = scores[2];
    assert(wins(scores, 2) <==> migrate <= idle && accept <= idle);
    assert(wins(scores, 1) <==> migrate <= accept && idle < accept);
    assert(wins(scores, 0) <==> accept < migrate && idle < migrate);
}

/// Idling wins where no score is above its own, accepting where it beats idling and
/// migrating does not beat it, and migrating where it beats both.
pub proof fn law_decisions_follow_the_scores(scores: Seq<Rank>)
    requires
        scores.len() == 3,
    ensures
        decided(scores) == Action::Idle <==> scores[2] >= scores[0] && scores[2] >= scores[1],
        decided(scores) == Action::AcceptWork <==> scores[1] >= scores[0] && scores[1] > scores[2],
        decided(scores) == Action::MigrateWork <==> scores[0] > scores[1] && scores[0] > scores[2],
{
    law_one_action_wins(scores, Action::Idle);
    law_one_action_wins(scores, Action::AcceptWork);
    law_one_action_wins(scores, Action::MigrateWork);
    assert(wins(scores, 2) <==> scores[0] <= scores[2] && scores[1] <= scores[2]);
    assert(wins(scores, 1) <==> scores[0] <= scores[1] && scores[2] < scores[1]);
}

/// Dense layer with ternary weights and ReLU activation.
///
/// The output of a row is the sum of its terms over the input, cut off at zero.
#[derive(Debug)]
pub struct TritLayer {
    weights: Vec<Vec<Trit>>,
    in_dim: usize,
}

/// The values of a list of weights.
pub open spec fn values(row: Seq<Trit>) -> Seq<int> {
    row.map_values(|trit: Trit| trit@)
}

impl View for TritLayer {
    type V = Seq<Seq<int>>;

    /// The values of the weights, a row for each output.
    closed spec fn view(&self) -> Seq<Seq<int>> {
        self.weights@.map_values(|row: Vec<Trit>| values(row@))
    }
}

impl Clone for TritLayer {
    fn clone(&self) -> (layer: Self)
        ensures
            layer@ == self@,
            layer.inputs() == self.inputs(),
    {
        proof {
            use_type_invariant(self);
        }
        let mut weights: Vec<Vec<Trit>> = Vec::new();
        for row in 0..self.weights.len()
            invariant
                weights@.len() == row,
                forall|r: int|
                    0 <= r < row ==> (#[trigger] weights@[r])@ == self.weights@[r]@,
        {
            let line: Vec<Trit> = self.weights[row].clone();
            assert(line@ =~= self.weights@[row as int]@);
            weights.push(line);
        }
        let layer = TritLayer { weights, in_dim: self.in_dim };
        assert(layer@ =~= self@);
        layer
    }
}

impl TritLayer {
    #[verifier::type_invariant]
    spec fn rectangular(self) -> bool {
        forall|row: int|
            0 <= row < self.weights@.len() ==> (#[trigger] self.weights@[row])@.len() == self.in_dim
    }

    /// The number of inputs.
    pub closed spec fn inputs(&self) -> nat {
        self.in_dim as nat
    }

    /// Draws the weights of a layer.
    pub fn random(in_dim: usize, out_dim: usize, rng: &mut Rng) -> (layer: Self)
        ensures
            layer.inputs() == in_dim,
            layer@ == drawn_layer(old(rng)@, in_dim as nat, out_dim as nat),
            final(rng)@ == stream(old(rng)@, (in_dim * out_dim) as nat),
    {
        let ghost start = rng@;
        let mut weights: Vec<Vec<Trit>> = Vec::new();
        for row in 0..out_dim
            invariant
                rng@ == stream(start, (row * in_dim) as nat),
                weights@.len() == row,
                forall|r: int| 0 <= r < row ==> (#[trigger] weights@[r])@.len() == in_dim,
                forall|r: int, c: int|
                    0 <= r < row && 0 <= c < in_dim ==> (#[trigger] weights@[r]@[c])@
                        == word_weight(stream(start, (r * in_dim + c + 1) as nat)),
        {
            let mut line: Vec<Trit> = Vec::new();
            for column in 0..in_dim
                invariant
                    rng@ == stream(start, (row * in_dim + column) as nat),
                    line@.len() == column,
                    forall|c: int|
                        0 <= c < column ==> (#[trigger] line@[c])@ == word_weight(
                            stream(start, (row * in_dim + c + 1) as nat),
                        ),
            {
                assert(row * in_dim >= 0) by (nonlinear_arith);
                line.push(Trit::rand(rng));
            }
            assert((row + 1) * in_dim == row * in_dim + in_dim) by (nonlinear_arith);
            weights.push(line);
        }
        assert(out_dim * in_dim == in_dim * out_dim) by (nonlinear_arith);
        let layer = TritLayer { weights, in_dim };
        assert(layer@ =~~= drawn_layer(start, in_dim as nat, out_dim as nat));
        layer
    }

    /// The number of inputs.
    pub fn in_dim(&self) -> (count: usize)
        ensures
            count == self.inputs(),
    {
        self.in_dim
    }

    /// The number of outputs.
    pub fn out_dim(&self) -> (count: usize)
        ensures
            count == self@.len(),
    {
        self.weights.len()
    }

    /// The steps that compute the output at `row` before it is cut off at zero.
    pub fn terms(&self, row: usize) -> (terms: Vec<Term>)
        requires
            row < self@.len(),
        ensures
            terms@ == row_terms(self@[row as int]),
            self@[row as int].len() == self.inputs(),
            forall|k: int|
                0 <= k < self.inputs() ==> is_ternary(#[trigger] self@[row as int][k]),
            forall|k: int|
                0 <= k < terms@.len() ==> match #[trigger] terms@[k] {
                    Term::Add(input) => input < self.inputs(),
                    Term::Subtract(input) => input < self.inputs(),
                },
    {
        proof {
            use_type_invariant(self);
        }
        let mut terms: Vec<Term> = Vec::new();
        let ghost line = self@[row as int];
        for column in 0..self.in_dim
            invariant
                row < self.weights@.len(),
                self.weights@[row as int]@.len() == self.in_dim,
                line == values(self.weights@[row as int]@),
                terms@ == row_terms(line.take(column as int)),
                forall|k: int| 0 <= k < column ==> is_ternary(#[trigger] line[k]),
                forall|k: int|
                    0 <= k < terms@.len() ==> match #[trigger] terms@[k] {
                        Term::Add(input) => input < column,
                        Term::Subtract(input) => input < column,
                    },
        {
            assert(line.take(column + 1).drop_last() =~= line.take(column as int));
            let weight: i8 = self.weights[row][column].val();
            if weight == 1 {
                terms.push(Term::Add(column));
            } else if weight == -1 {
                terms.push(Term::Subtract(column));
            }
        }
        assert(line.take(self.in_dim as int) =~= line);
        terms
    }

    /// The outputs, given the sum of the terms of each row: a negative sum is cut off at
    /// zero, and a sum that is not a number counts as zero.
    pub fn forward(&self, sums: &[Rank]) -> (outputs: Vec<Rank>)
        requires
            sums@.len() == self@.len(),
        ensures
            outputs@ == sums@.map_values(|sum: Rank| rectified(sum)),
            outputs@.len() == self@.len(),
            forall|row: int|
                0 <= row < outputs@.len() ==> ZERO <= #[trigger] outputs@[row] && outputs@[row]
                    != NAN,
            forall|row: int|
                0 <= row < sums@.len() ==> #[trigger] outputs@[row] == if 0 <= sums@[row]
                    < 0x7FFF_FFFF {
                    sums@[row]
                } else {
                    0
                },
    {
        let mut outputs: Vec<Rank> = Vec::new();
        for row in 0..sums.len()
            invariant
                outputs@.len() == row,
                forall|r: int| 0 <= r < row ==> #[trigger] outputs@[r] == rectified(sums@[r]),
        {
            let sum: Rank = sums[row];
            if sum < ZERO || sum == NAN {
                outputs.push(ZERO);
            } else {
                outputs.push(sum);
            }
        }
        assert(outputs@ =~= sums@.map_values(|sum: Rank| rectified(sum)));
        outputs
    }
}

/// The nearer end of [-1, 1] where `number` is a number outside.
fn limit(number: Rank) -> (within: Rank)
    ensures
        within == limited(number),
{
    if number < -ONE {
        -ONE
    } else if number > ONE && number != NAN {
        ONE
    } else {
        number
    }
}

/// 4→8→4→3 ternary strategy network.
///
/// Inputs:  utilization, demand gradient, supply gradient and token balance, the last
/// three normalized.
/// Outputs: the scores of migrating, accepting and idling.
///
/// With random weights the network produces arbitrary decisions.
#[derive(Debug)]
pub struct TritNet {
    layers: Vec<TritLayer>,
}

impl View for TritNet {
    type V = Seq<Seq<Seq<int>>>;

    /// The values of the weights, layer by layer.
    closed spec fn view(&self) -> Seq<Seq<Seq<int>>> {
        self.layers@.map_values(|layer: TritLayer| layer@)
    }
}

impl Clone for TritNet {
    fn clone(&self) -> (net: Self)
        ensures
            net@ == self@,
    {
        proof {
            use_type_invariant(self);
        }
        let first = self.layers[0].clone();
        let second = self.layers[1].clone();
        let third = self.layers[2].clone();
        let net = TritNet { layers: vec![first, second, third] };
        assert(net@ =~= self@);
        net
    }
}

/// The layers of a network: each takes what the one before it gives.
pub open spec fn net_shaped(layers: Seq<TritLayer>) -> bool {
    &&& layers.len() == 3
    &&& layers[0].inputs() == 4 && layers[0]@.len() == 8
    &&& layers[1].inputs() == 8 && layers[1]@.len() == 4
    &&& layers[2].inputs() == 4 && layers[2]@.len() == 3
}

impl TritNet {
    #[verifier::type_invariant]
    spec fn shaped(self) -> bool {
        net_shaped(self.layers@)
    }

    /// Draws the weights of a network.
    pub fn random(rng: &mut Rng) -> (net: Self)
        ensures
            net@ == drawn_net(old(rng)@),
            final(rng)@ == stream(old(rng)@, net_draws()),
    {
        let ghost start = rng@;
        let first = TritLayer::random(4, 8, rng);
        let second = TritLayer::random(8, 4, rng);
        let third = TritLayer::random(4, 3, rng);
        proof {
            lemma_stream_adds(start, 32, 32);
            lemma_stream_adds(start, 64, 12);
        }
        let net = TritNet { layers: vec![first, second, third] };
        assert(net@ =~= drawn_net(start));
        net
    }

    /// The layers, from the inputs to the outputs.
    pub fn layers(&self) -> (layers: &Vec<TritLayer>)
        ensures
            net_shaped(layers@),
            self@ == layers@.map_values(|layer: TritLayer| layer@),
    {
        proof {
            use_type_invariant(self);
        }
        &self.layers
    }

    /// The inputs of the network: the utilization as it is, then the demand gradient and the
    /// supply gradient in thousandths and the token balance in hundredths, each of these
    /// three held within [-1, 1].
    pub fn inputs(utilization: Rank, demand: Rank, supply: Rank, tokens: Rank) -> (inputs: [Rank;
        4])
        ensures
            inputs@ == net_inputs(utilization, demand, supply, tokens),
    {
        let inputs = [utilization, limit(demand), limit(supply), limit(tokens)];
        assert(inputs@ =~= net_inputs(utilization, demand, supply, tokens));
        inputs
    }

    /// The action with the highest score. A tie goes to the last one, so that idling is
    /// the conservative default.
    pub fn decide(scores: &[Rank; 3]) -> (action: Action)
        ensures
            action == decided(scores@),
            wins(scores@, output(action)),
            action == Action::Idle <==> scores@[2] >= scores@[0] && scores@[2] >= scores@[1],
            action == Action::AcceptWork <==> scores@[1] >= scores@[0] && scores@[1] > scores@[2],
    {
        let migrate: Rank = scores[0];
        let accept: Rank = scores[1];
        let idle: Rank = scores[2];
        if idle >= migrate && idle >= accept {
            Action::Idle
        } else if accept >= migrate {
            Action::AcceptWork
        } else {
            Action::MigrateWork
        }
    }
}

} // verus!
