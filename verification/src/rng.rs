//! The generator that strategies and initial loads are drawn from.

use vstd::prelude::*;

use crate::rank::Rank;

verus! {

/// One step of XorShift64.
pub open spec fn xorshift(x: u64) -> u64 {
    let a = x ^ (x << 13);
    let b = a ^ (a >> 7);
    b ^ (b << 17)
}

/// The state of the generator after `draws` draws from the state `start`, and at the
/// same time the word that the last of those draws returned.
pub open spec fn stream(start: u64, draws: nat) -> u64
    decreases draws,
{
    if draws == 0 {
        start
    } else {
        xorshift(stream(start, (draws - 1) as nat))
    }
}

/// The state that a seed starts from.
pub open spec fn seeded(seed: u64) -> u64 {
    seed | 1
}

/// XorShift64: deterministic and small, sufficient for drawing strategies.
pub struct Rng(u64);

impl View for Rng {
    type V = u64;

    closed spec fn view(&self) -> u64 {
        self.0
    }
}

impl Rng {
    #[verifier::type_invariant]
    spec fn alive(self) -> bool {
        self.0 != 0
    }

    /// A generator for `seed`. Its state is never zero.
    pub fn new(seed: u64) -> (rng: Self)
        ensures
            rng@ == seeded(seed),
    {
        assert(seed | 1 != 0) by (bit_vector);
        Rng(seed | 1)
    }

    /// Draws a word.
    pub fn next(&mut self) -> (word: u64)
        ensures
            word == xorshift(old(self)@),
            final(self)@ == word,
            word != 0,
    {
        proof {
            use_type_invariant(&*self);
            lemma_xorshift_nonzero(self.0);
        }
        let mut x: u64 = self.0;
        x ^= x << 13;
        x ^= x >> 7;
        x ^= x << 17;
        self.0 = x;
        x
    }

    /// Draws a number from [0, 1): the upper 53 bits of a word, read as a fraction.
    pub fn fraction(&mut self) -> (number: Rank)
        ensures
            final(self)@ == xorshift(old(self)@),
            number == crate::rank::fraction_rank((final(self)@ >> 11) as nat),
    {
        let word: u64 = self.next();
        assert(word >> 11 < 0x20_0000_0000_0000) by (bit_vector);
        crate::rank::rank_fraction(word >> 11)
    }
}

/// Draws go on from where the draws before them stopped.
pub proof fn lemma_stream_adds(start: u64, first: nat, second: nat)
    ensures
        stream(stream(start, first), second) == stream(start, first + second),
    decreases second,
{
    if second > 0 {
        lemma_stream_adds(start, first, (second - 1) as nat);
    }
}

/// A step shifts three times: by 13 to the left, by 7 to the right and by 17 to the left,
/// and each time the shifted word is combined with the word before the shift.
pub proof fn law_step_shifts_three_times(x: u64)
    ensures
        exists|a: u64, b: u64|
            {
                &&& #[trigger] (a ^ x) == x << 13
                &&& #[trigger] (b ^ a) == a >> 7
                &&& xorshift(x) ^ b == b << 17
            },
{
    let a = x ^ (x << 13);
    let b = a ^ (a >> 7);
    assert((x ^ (x << 13)) ^ x == x << 13) by (bit_vector);
    assert((a ^ (a >> 7)) ^ a == a >> 7) by (bit_vector);
    assert((b ^ (b << 17)) ^ b == b << 17) by (bit_vector);
    assert((a ^ x) == x << 13 && (b ^ a) == a >> 7 && xorshift(x) ^ b == b << 17);
}

/// Steps are linear: combining two states and then stepping gives the same as stepping both
/// and then combining.
pub proof fn law_steps_are_linear(x: u64, y: u64)
    ensures
        xorshift(x ^ y) == xorshift(x) ^ xorshift(y),
        xorshift(0) == 0,
{
    let a = x ^ (x << 13);
    let b = a ^ (a >> 7);
    let c = y ^ (y << 13);
    let d = c ^ (c >> 7);
    assert((x ^ y) ^ ((x ^ y) << 13) == (x ^ (x << 13)) ^ (y ^ (y << 13))) by (bit_vector);
    assert((a ^ c) ^ ((a ^ c) >> 7) == (a ^ (a >> 7)) ^ (c ^ (c >> 7))) by (bit_vector);
    assert((b ^ d) ^ ((b ^ d) << 17) == (b ^ (b << 17)) ^ (d ^ (d << 17))) by (bit_vector);
    assert(0u64 ^ (0u64 << 13) == 0) by (bit_vector);
    assert(0u64 ^ (0u64 >> 7) == 0) by (bit_vector);
    assert(0u64 ^ (0u64 << 17) == 0) by (bit_vector);
}

/// Draws are consecutive: no draw leaves the state as it is, and each draw steps on from
/// the state that the draw before it left.
pub proof fn law_draws_are_consecutive(start: u64, draws: nat, more: nat)
    ensures
        stream(start, 0) == start,
        stream(start, draws + 1) == xorshift(stream(start, draws)),
        stream(start, draws + more) == stream(stream(start, draws), more),
{
    lemma_stream_adds(start, draws, more);
}

/// A generator starts from its seed where that is odd, and from the next odd number where
/// it is even.
pub proof fn law_seeds_are_made_odd(seed: u64)
    ensures
        seed % 2 == 1 ==> seeded(seed) == seed,
        seed % 2 == 0 ==> seeded(seed) == seed + 1,
{
    assert(seed % 2 == 1 ==> seed | 1 == seed) by (bit_vector);
    assert(seed % 2 == 0 ==> seed | 1 == seed + 1) by (bit_vector);
}

/// The generator never gets stuck at zero, whatever the seed.
pub proof fn law_stream_never_zero(seed: u64, draws: nat)
    ensures
        stream(seeded(seed), draws) != 0,
    decreases draws,
{
    if draws == 0 {
        assert(seed | 1 != 0) by (bit_vector);
    } else {
        law_stream_never_zero(seed, (draws - 1) as nat);
        lemma_xorshift_nonzero(stream(seeded(seed), (draws - 1) as nat));
    }
}

/// A step can be undone: no two states have the same successor.
pub proof fn law_xorshift_injective(x: u64, y: u64)
    requires
        xorshift(x) == xorshift(y),
    ensures
        x == y,
{
    let a = x ^ (x << 13);
    let b = a ^ (a >> 7);
    let c = y ^ (y << 13);
    let d = c ^ (c >> 7);
    assert(b == d) by (bit_vector)
        requires
            b ^ (b << 17) == d ^ (d << 17),
    ;
    assert(a == c) by (bit_vector)
        requires
            a ^ (a >> 7) == c ^ (c >> 7),
    ;
    assert(x == y) by (bit_vector)
        requires
            x ^ (x << 13) == y ^ (y << 13),
    ;
}

/// A live state stays alive.
pub proof fn lemma_xorshift_nonzero(x: u64)
    requires
        x != 0,
    ensures
        xorshift(x) != 0,
{
    let a = x ^ (x << 13);
    let b = a ^ (a >> 7);
    assert(x != 0 ==> x ^ (x << 13) != 0) by (bit_vector);
    assert(a != 0 ==> a ^ (a >> 7) != 0) by (bit_vector);
    assert(b != 0 ==> b ^ (b << 17) != 0) by (bit_vector);
}

} // verus!
