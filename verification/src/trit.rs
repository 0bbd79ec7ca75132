//! Ternary weights.

use vstd::prelude::*;

use crate::rng::Rng;

verus! {

/// Ternary weight constrained to {-1, 0, +1}.
///
/// A dot product with such weights adds, subtracts or skips; it never multiplies.
#[derive(Debug, Clone, Copy, PartialEq, Eq)]
pub struct Trit(i8);

impl View for Trit {
    type V = int;

    closed spec fn view(&self) -> int {
        self.0 as int
    }
}

/// The three values of a weight.
pub open spec fn is_ternary(v: int) -> bool {
    v == -1 || v == 0 || v == 1
}

/// The weight that a random word stands for.
pub open spec fn word_weight(word: u64) -> int {
    word % 3 - 1
}

/// The values of weights are the integers from -1 to 1.
pub proof fn law_three_values(v: int)
    ensures
        is_ternary(v) <==> -1 <= v <= 1,
{
}

/// A word stands for the weight that, shifted up by one, leaves the same remainder by
/// three.
pub proof fn law_weight_of_a_word(word: u64)
    ensures
        -1 <= word_weight(word) <= 1,
        (word - (word_weight(word) + 1)) % 3 == 0,
{
}

impl Trit {
    #[verifier::type_invariant]
    spec fn in_range(self) -> bool {
        is_ternary(self.0 as int)
    }

    /// The weight `v`, or `None` where `v` is none of the three values.
    pub fn new(v: i8) -> (trit: Option<Self>)
        ensures
            match trit {
                Some(t) => is_ternary(v as int) && t@ == v,
                None => !is_ternary(v as int),
            },
            trit is Some <==> -1 <= v <= 1,
            trit is Some ==> trit->0@ == v,
    {
        if v == -1 || v == 0 || v == 1 {
            Some(Trit(v))
        } else {
            None
        }
    }

    /// The value of the weight.
    #[inline]
    pub fn val(self) -> (v: i8)
        ensures
            v == self@,
            is_ternary(v as int),
    {
        proof {
            use_type_invariant(&self);
        }
        self.0
    }

    /// The weight -1.
    pub(crate) fn minus() -> (trit: Self)
        ensures
            trit@ == -1,
    {
        Trit(-1)
    }

    /// The weight 0.
    pub(crate) fn zero() -> (trit: Self)
        ensures
            trit@ == 0,
    {
        Trit(0)
    }

    /// The weight +1.
    pub(crate) fn plus() -> (trit: Self)
        ensures
            trit@ == 1,
    {
        Trit(1)
    }

    /// Draws a weight.
    pub(crate) fn rand(rng: &mut Rng) -> (trit: Self)
        ensures
            final(rng)@ == crate::rng::xorshift(old(rng)@),
            trit@ == word_weight(final(rng)@),
    {
        let third: u64 = rng.next() % 3;
        Trit(third as i8 - 1)
    }
}

} // verus!
