//! Numbers known by their order.
//!
//! Loads and scores are single-precision numbers, and the arithmetic on them is done
//! by whoever measures them. The decisions of the market only compare them. So a number
//! travels as its rank: the bit pattern of its magnitude, negated for a negative number.
//! Ranks are ordered as the numbers are, and both zeros have the rank zero. What is not a
//! number has a rank above all numbers.

use vstd::arithmetic::div_mod::{
    lemma_div_by_multiple, lemma_fundamental_div_mod, lemma_mod_bound,
};
use vstd::arithmetic::power2::{
    lemma2_to64, lemma2_to64_rest, lemma_pow2_adds, lemma_pow2_pos, lemma_pow2_strictly_increases,
    lemma_pow2_unfold, pow2,
};
use vstd::prelude::*;

verus! {

/// Stands for a single-precision number, or for what is none.
pub type Rank = i32;

/// The rank of 0.
pub const ZERO: Rank = 0;

/// The rank of 1.
pub const ONE: Rank = 0x3F80_0000;

/// The rank of the lowest finite number.
pub const LOWEST: Rank = -0x7F7F_FFFF;

/// The rank of what is not a number.
pub const NAN: Rank = 0x7FFF_FFFF;

/// The number that a rank of at least zero stands for, in units of 2^-149. The upper bits
/// of the rank are the exponent, the lower 23 bits the fraction.
pub open spec fn magnitude(rank: nat) -> nat {
    if rank < 0x80_0000 {
        rank
    } else {
        (0x80_0000 + rank % 0x80_0000) * pow2((rank / 0x80_0000 - 1) as nat)
    }
}

/// How far two numbers are apart.
pub open spec fn distance(a: int, b: int) -> int {
    if a <= b {
        b - a
    } else {
        a - b
    }
}

/// A distance is the difference of the larger and the smaller number.
pub proof fn law_distance_is_the_difference(a: int, b: int)
    ensures
        a <= b ==> distance(a, b) == b - a,
        a >= b ==> distance(a, b) == a - b,
{
}

/// The floor of the base two logarithm.
pub open spec fn binade(n: nat) -> nat
    decreases n,
{
    if n <= 1 {
        0
    } else {
        1 + binade(n / 2)
    }
}

/// `n / unit`, rounded to the nearest integer and to the even one of two as near.
pub open spec fn nearest(n: nat, unit: nat) -> nat {
    let quotient = n / unit;
    let twice_rest = 2 * (n % unit);
    if twice_rest > unit || (twice_rest == unit && quotient % 2 == 1) {
        quotient + 1
    } else {
        quotient
    }
}

/// The leading 24 bits of `n`, rounded.
pub open spec fn significand(n: nat) -> nat {
    if binade(n) <= 23 {
        n * pow2((23 - binade(n)) as nat)
    } else {
        nearest(n, pow2((binade(n) - 23) as nat))
    }
}

/// The rank of the single-precision number nearest to `n / 2^53`, among those below 1.
pub open spec fn fraction_rank(n: nat) -> int {
    if n == 0 {
        0
    } else {
        let rank: int = (binade(n) + 73) * 0x80_0000 + significand(n) as int;
        if rank < ONE {
            rank
        } else {
            ONE - 1
        }
    }
}

/// Fractions are drawn from [0, 1).
pub proof fn law_fraction_below_one(n: nat)
    ensures
        ZERO <= fraction_rank(n) < ONE,
{
}

/// The step from one rank to the next is one unit in the last place.
proof fn lemma_magnitude_step(rank: nat)
    ensures
        magnitude(rank + 1) == magnitude(rank) + if rank < 0x80_0000 {
            1
        } else {
            pow2((rank / 0x80_0000 - 1) as nat)
        },
{
    lemma2_to64();
    if rank >= 0x80_0000 {
        let exponent = (rank / 0x80_0000 - 1) as nat;
        let fraction = rank % 0x80_0000;
        if fraction + 1 < 0x80_0000 {
            assert((rank + 1) / 0x80_0000 == rank / 0x80_0000);
            assert((rank + 1) % 0x80_0000 == fraction + 1);
        } else {
            assert((rank + 1) / 0x80_0000 == rank / 0x80_0000 + 1);
            assert((rank + 1) % 0x80_0000 == 0);
            lemma_pow2_unfold(exponent + 1);
        }
        let unit = pow2(exponent);
        assert((0x80_0000 + (fraction + 1)) * unit == (0x80_0000 + fraction) * unit + unit)
            by (nonlinear_arith);
        if fraction + 1 == 0x80_0000 {
            assert((0x80_0000 + (fraction + 1)) * unit == (0x80_0000 + 0) * (2 * unit))
                by (nonlinear_arith)
                requires
                    fraction + 1 == 0x80_0000,
            ;
        }
    } else if rank + 1 == 0x80_0000 {
        assert((0x80_0000 + (rank + 1) % 0x80_0000) * 1 == 0x80_0000);
    }
}

/// Ranks are ordered as the numbers that they stand for.
pub proof fn law_ranks_are_ordered(a: nat, b: nat)
    requires
        a < b,
    ensures
        magnitude(a) < magnitude(b),
    decreases b,
{
    lemma_magnitude_step((b - 1) as nat);
    lemma_pow2_pos(((b - 1) as nat / 0x80_0000 - 1) as nat);
    if a < b - 1 {
        law_ranks_are_ordered(a, (b - 1) as nat);
    }
}

/// A number between two powers of two is in the binade of the lower one.
proof fn lemma_binade(n: nat, e: nat)
    requires
        pow2(e) <= n < pow2(e + 1),
    ensures
        binade(n) == e,
    decreases e,
{
    lemma_pow2_unfold(e + 1);
    if e == 0 {
        lemma2_to64();
    } else {
        lemma_pow2_unfold(e);
        lemma_pow2_pos((e - 1) as nat);
        lemma_binade(n / 2, (e - 1) as nat);
    }
}

/// The binade of a number lies between two powers of two.
proof fn lemma_binade_bounds(n: nat)
    requires
        n > 0,
    ensures
        pow2(binade(n)) <= n < pow2(binade(n) + 1),
    decreases n,
{
    lemma2_to64();
    if n > 1 {
        lemma_binade_bounds(n / 2);
        lemma_pow2_unfold(binade(n));
        lemma_pow2_unfold(binade(n) + 1);
    }
}

/// Powers of two grow with the exponent.
proof fn lemma_pow2_below(e: nat, bound: nat)
    requires
        pow2(e) < pow2(bound),
    ensures
        e < bound,
{
    if bound < e {
        lemma_pow2_strictly_increases(bound, e);
    }
}

/// Dividing a product by one factor leaves the other.
proof fn lemma_exact_quotient(a: nat, b: nat)
    requires
        a > 0,
        b > 0,
    ensures
        (a * b) / a == b,
        (a * b) / b == a,
{
    lemma_div_by_multiple(b as int, a as int);
    lemma_div_by_multiple(a as int, b as int);
    assert(b * a == a * b) by (nonlinear_arith);
}

/// A number below 2^24 steps has a quotient below 2^24.
proof fn lemma_quotient_below(n: nat, step: nat)
    requires
        step > 0,
        n < 2 * (0x80_0000 * step),
    ensures
        n / step < 0x100_0000,
{
    lemma_fundamental_div_mod(n as int, step as int);
    assert(n / step < 0x100_0000) by (nonlinear_arith)
        requires
            n == step * (n / step) + n % step,
            n % step >= 0,
            n < 2 * (0x80_0000 * step),
            step > 0,
    ;
}

/// The rank of the single-precision number nearest to `n / 2^53`, among those below 1.
pub fn rank_fraction(n: u64) -> (rank: Rank)
    requires
        n < 0x20_0000_0000_0000,
    ensures
        rank == fraction_rank(n as nat),
{
    if n == 0 {
        return 0;
    }
    let mut exponent: i32 = 0;
    let mut unit: u64 = 1;
    proof {
        lemma2_to64();
    }
    while unit * 2 <= n
        invariant
            0 < unit <= n < 0x20_0000_0000_0000,
            unit == pow2(exponent as nat),
            0 <= exponent < 53,
        decreases n - unit,
    {
        unit = unit * 2;
        proof {
            lemma_pow2_unfold((exponent + 1) as nat);
            lemma2_to64_rest();
            lemma_pow2_below((exponent + 1) as nat, 53);
        }
        exponent = exponent + 1;
    }
    proof {
        lemma_pow2_unfold((exponent + 1) as nat);
        lemma_binade(n as nat, exponent as nat);
        lemma2_to64();
    }
    let rounded: u64;
    if exponent <= 23 {
        let scale: u64 = 0x80_0000 / unit;
        proof {
            lemma_pow2_adds(exponent as nat, (23 - exponent) as nat);
            lemma_exact_quotient(unit as nat, pow2((23 - exponent) as nat));
            assert(n * scale < 2 * unit * scale) by (nonlinear_arith)
                requires
                    n < 2 * unit,
                    scale > 0,
            ;
            assert(2 * unit * scale == 2 * (unit * scale)) by (nonlinear_arith);
        }
        rounded = n * scale;
    } else {
        let step: u64 = unit / 0x80_0000;
        proof {
            lemma_pow2_adds(23, (exponent - 23) as nat);
            lemma_exact_quotient(pow2(23), pow2((exponent - 23) as nat));
            lemma_quotient_below(n as nat, step as nat);
        }
        let quotient: u64 = n / step;
        let rest: u64 = n % step;
        if rest > step - rest || (rest == step - rest && quotient % 2 == 1) {
            rounded = quotient + 1;
        } else {
            rounded = quotient;
        }
    }
    assert(rounded == significand(n as nat));
    let rank: Rank = (exponent + 73) * 0x80_0000 + rounded as i32;
    if rank < ONE {
        rank
    } else {
        ONE - 1
    }
}

/// A rounded quotient is off by at most half a unit, and on the right side at the lower
/// end of a binade.
proof fn lemma_nearest(n: nat, unit: nat)
    requires
        unit > 0,
    ensures
        2 * distance(nearest(n, unit) * unit as int, n as int) <= unit,
        nearest(n, unit) == n / unit || nearest(n, unit) == n / unit + 1,
        (n / unit) * unit <= n,
{
    lemma_fundamental_div_mod(n as int, unit as int);
    lemma_mod_bound(n as int, unit as int);
    let quotient = n / unit;
    assert(unit * quotient == quotient * unit) by (nonlinear_arith);
    assert((quotient + 1) * unit == quotient * unit + unit) by (nonlinear_arith);
}

/// The rank of a fraction before it is held below 1, and the number that it stands for.
proof fn lemma_fraction_magnitude(n: nat)
    requires
        0 < n < 0x20_0000_0000_0000,
    ensures
        ({
            let rank = ((binade(n) + 73) * 0x80_0000 + significand(n)) as nat;
            &&& 0x80_0000 <= significand(n) <= 0x100_0000
            &&& magnitude(rank) == significand(n) * pow2(binade(n) + 73)
        }),
{
    let h = binade(n);
    let rank = ((h + 73) * 0x80_0000 + significand(n)) as nat;
    lemma_binade_bounds(n);
    lemma_pow2_unfold(h + 1);
    lemma_pow2_pos(h);
    lemma2_to64();
    if h <= 23 {
        let scale = pow2((23 - h) as nat);
        lemma_pow2_pos((23 - h) as nat);
        lemma_pow2_adds(h, (23 - h) as nat);
        assert(pow2(h) * scale <= n * scale < 2 * (pow2(h) * scale)) by (nonlinear_arith)
            requires
                pow2(h) <= n < 2 * pow2(h),
                scale > 0,
        ;
    } else {
        let unit = pow2((h - 23) as nat);
        lemma_pow2_pos((h - 23) as nat);
        lemma_pow2_adds(23, (h - 23) as nat);
        lemma_nearest(n, unit);
        lemma_quotient_below(n, unit);
        lemma_fundamental_div_mod(n as int, unit as int);
        lemma_mod_bound(n as int, unit as int);
        assert(n / unit >= 0x80_0000) by (nonlinear_arith)
            requires
                n == unit * (n / unit) + n % unit,
                n % unit < unit,
                n >= 0x80_0000 * unit,
                unit > 0,
        ;
    }
    lemma_pow2_unfold(h + 74);
    let unit = pow2(h + 73);
    if significand(n) < 0x100_0000 {
        assert(rank / 0x80_0000 == h + 74);
        assert(rank % 0x80_0000 == significand(n) - 0x80_0000);
        assert(0x80_0000 + rank % 0x80_0000 == significand(n));
    } else {
        assert(rank / 0x80_0000 == h + 75);
        assert(rank % 0x80_0000 == 0);
        assert((0x80_0000 + rank % 0x80_0000) * (2 * unit) == significand(n) * unit)
            by (nonlinear_arith)
            requires
                rank % 0x80_0000 == 0,
                significand(n) == 0x100_0000,
        ;
    }
}

/// The number before it is held below 1 is off by at most half a unit in its last place,
/// and not below the fraction where it starts a binade.
proof fn lemma_fraction_error(n: nat)
    requires
        0 < n < 0x20_0000_0000_0000,
    ensures
        ({
            let exact = (n * pow2(96)) as int;
            let found = (significand(n) * pow2(binade(n) + 73)) as int;
            &&& 2 * distance(found, exact) <= pow2(binade(n) + 73)
            &&& significand(n) == 0x80_0000 ==> found <= exact
        }),
{
    let h = binade(n);
    let s = significand(n);
    lemma_binade_bounds(n);
    lemma2_to64();
    lemma_pow2_pos(h + 73);
    if h <= 23 {
        let scale = pow2((23 - h) as nat);
        lemma_pow2_adds((23 - h) as nat, h + 73);
        assert((n * scale) * pow2(h + 73) == n * (scale * pow2(h + 73))) by (nonlinear_arith);
    } else {
        let unit = pow2((h - 23) as nat);
        let grid = pow2(96);
        lemma_pow2_pos((h - 23) as nat);
        lemma_pow2_pos(96);
        lemma_pow2_adds((h - 23) as nat, 96);
        lemma_nearest(n, unit);
        assert(s * (unit * grid) == (s * unit) * grid) by (nonlinear_arith);
        let off = distance(s * unit as int, n as int);
        assert(distance((s * unit) * grid as int, n * grid as int) == off * grid)
            by (nonlinear_arith)
            requires
                off == if s * unit <= n {
                    n - s * unit
                } else {
                    s * unit - n
                },
                grid > 0,
        ;
        assert(2 * (off * grid) <= unit * grid) by (nonlinear_arith)
            requires
                2 * off <= unit,
                grid > 0,
        ;
        if s == 0x80_0000 {
            lemma_pow2_adds(23, (h - 23) as nat);
            assert((s * unit) * grid <= n * grid) by (nonlinear_arith)
                requires
                    s * unit <= n,
                    grid > 0,
            ;
        }
    }
}

/// The fraction `n / 2^53` is `n * 2^96` units of 2^-149, and no number below 1 is nearer
/// to it than the one whose rank is drawn.
pub proof fn law_fraction_is_nearest(n: nat, other: nat)
    requires
        n < 0x20_0000_0000_0000,
        other < ONE,
    ensures
        distance(magnitude(fraction_rank(n) as nat) as int, n * pow2(96) as int) <= distance(
            magnitude(other) as int,
            n * pow2(96) as int,
        ),
{
    let exact = (n * pow2(96)) as int;
    if n == 0 {
        assert(0 * pow2(96) == 0) by (nonlinear_arith);
    } else {
        let h = binade(n);
        let rank = ((h + 73) * 0x80_0000 + significand(n)) as nat;
        let unit = pow2(h + 73);
        lemma_fraction_magnitude(n);
        lemma_pow2_pos(h + 73);
        lemma_magnitude_step(rank);
        lemma_magnitude_step((rank - 1) as nat);
        lemma_fraction_error(n);
        lemma_pow2_unfold(h + 74);
        lemma_pow2_unfold(h + 73);
        let chosen = fraction_rank(n) as nat;
        let found = magnitude(rank) as int;
        lemma_binade_bounds(n);
        lemma2_to64_rest();
        lemma_pow2_below(h, 53);
        assert(rank <= ONE);
        assert(magnitude(rank + 1) >= found + unit) by {
            assert(rank / 0x80_0000 == h + 74 || rank / 0x80_0000 == h + 75);
        }
        assert(significand(n) > 0x80_0000 ==> magnitude((rank - 1) as nat) == found - unit) by {
            if significand(n) > 0x80_0000 {
                assert((rank - 1) as nat / 0x80_0000 == h + 74);
            }
        }
        if other < rank {
            if other < rank - 1 {
                law_ranks_are_ordered(other, (rank - 1) as nat);
            }
            assert(magnitude(other) <= magnitude((rank - 1) as nat));
            law_ranks_are_ordered((rank - 1) as nat, rank);
        } else if other > rank {
            if other > rank + 1 {
                law_ranks_are_ordered(rank + 1, other);
            }
        }
    }
}

/// Ranks count the numbers: rank zero stands for zero, and the next rank for the next
/// number, which is one unit in the last place larger. A unit is the smallest number up to
/// the end of the second run of 2^23 ranks, and doubles with every further run.
pub proof fn law_ranks_count_the_numbers(rank: nat)
    ensures
        magnitude(0) == 0,
        rank < 0x100_0000 ==> magnitude(rank + 1) == magnitude(rank) + 1,
        rank >= 0x80_0000 ==> magnitude(rank + 1) == magnitude(rank) + pow2(
            (rank / 0x80_0000 - 1) as nat,
        ),
{
    lemma2_to64();
    lemma_magnitude_step(rank);
}

/// A significand that is off by exactly half a unit is even.
proof fn lemma_tie_is_even(n: nat)
    requires
        0 < n < 0x20_0000_0000_0000,
        2 * distance(significand(n) * pow2(binade(n) + 73) as int, n * pow2(96) as int) == pow2(
            binade(n) + 73,
        ),
    ensures
        significand(n) % 2 == 0,
{
    let h = binade(n);
    let s = significand(n);
    lemma_pow2_pos(h + 73);
    if h <= 23 {
        let scale = pow2((23 - h) as nat);
        lemma_pow2_adds((23 - h) as nat, h + 73);
        assert((n * scale) * pow2(h + 73) == n * (scale * pow2(h + 73))) by (nonlinear_arith);
    } else {
        let unit = pow2((h - 23) as nat);
        let grid = pow2(96);
        let quotient = n / unit;
        let rest = n % unit;
        lemma_pow2_pos((h - 23) as nat);
        lemma_pow2_pos(96);
        lemma_pow2_adds((h - 23) as nat, 96);
        lemma_nearest(n, unit);
        lemma_fundamental_div_mod(n as int, unit as int);
        assert(s * (unit * grid) == (s * unit) * grid) by (nonlinear_arith);
        let off = distance(s * unit as int, n as int);
        assert(distance((s * unit) * grid as int, n * grid as int) == off * grid)
            by (nonlinear_arith)
            requires
                off == if s * unit <= n {
                    n - s * unit
                } else {
                    s * unit - n
                },
                grid > 0,
        ;
        assert(2 * off == unit) by (nonlinear_arith)
            requires
                2 * (off * grid) == unit * grid,
                grid > 0,
        ;
        assert(unit * quotient == quotient * unit) by (nonlinear_arith);
        assert((quotient + 1) * unit == quotient * unit + unit) by (nonlinear_arith);
        assert(2 * rest == unit);
    }
}

/// Of two numbers that are as near to the fraction, the one whose rank is even is drawn.
pub proof fn law_ties_go_to_the_even_rank(n: nat, other: nat)
    requires
        n < 0x20_0000_0000_0000,
        other < 0x3F80_0000,
        other != fraction_rank(n),
        distance(magnitude(other) as int, n * pow2(96) as int) == distance(
            magnitude(fraction_rank(n) as nat) as int,
            n * pow2(96) as int,
        ),
    ensures
        fraction_rank(n) % 2 == 0,
{
    if n > 0 {
        let exact = (n * pow2(96)) as int;
        let h = binade(n);
        let rank = ((h + 73) * 0x80_0000 + significand(n)) as nat;
        let unit = pow2(h + 73);
        lemma_fraction_magnitude(n);
        lemma_pow2_pos(h + 73);
        lemma_magnitude_step(rank);
        lemma_magnitude_step((rank - 1) as nat);
        lemma_fraction_error(n);
        lemma_pow2_unfold(h + 74);
        lemma_pow2_unfold(h + 73);
        let found = magnitude(rank) as int;
        lemma_binade_bounds(n);
        lemma2_to64_rest();
        lemma_pow2_below(h, 53);
        assert(rank <= ONE);
        assert(magnitude(rank + 1) >= found + unit) by {
            assert(rank / 0x80_0000 == h + 74 || rank / 0x80_0000 == h + 75);
        }
        assert(significand(n) > 0x80_0000 ==> magnitude((rank - 1) as nat) == found - unit) by {
            if significand(n) > 0x80_0000 {
                assert((rank - 1) as nat / 0x80_0000 == h + 74);
            }
        }
        if rank == ONE {
            if significand(n) == 0x80_0000 {
                assert(h == 53);
            }
            law_ranks_are_ordered(other, (rank - 1) as nat);
        } else {
            if other < rank {
                if other < rank - 1 {
                    law_ranks_are_ordered(other, (rank - 1) as nat);
                }
                law_ranks_are_ordered((rank - 1) as nat, rank);
            } else if other > rank + 1 {
                law_ranks_are_ordered(rank + 1, other);
            }
            assert(2 * distance(found, exact) == unit);
            lemma_tie_is_even(n);
        }
    }
}

} // verus!
