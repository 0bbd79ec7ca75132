//! Random numbers, ranks, layers and decisions.

use ternary_pheromone_market::rank::{rank_fraction, LOWEST, NAN, ONE, ZERO};
use ternary_pheromone_market::{Action, Rank, Rng, Term, TritLayer, TritNet};

#[test]
fn generator_draws_the_expected_words() {
    let mut rng = Rng::new(42);
    assert_eq!(rng.next(), 46537075435);
    assert_eq!(rng.next(), 12685210767805585150);
    assert_eq!(rng.next(), 1156789259011059539);

    // A seed of zero starts from one.
    let mut zero = Rng::new(0);
    let mut one = Rng::new(1);
    for _ in 0..100 {
        let word = zero.next();
        assert_eq!(word, one.next());
        assert_ne!(word, 0);
    }
    assert_eq!(Rng::new(0).next(), 1082269761);
}

#[test]
fn fractions_are_the_upper_bits_of_a_word() {
    let mut rng = Rng::new(42);
    let mut words = Rng::new(42);
    for _ in 0..10_000 {
        let number = (words.next() >> 11) as f32 / (1u64 << 53) as f32;
        let rank = rng.fraction();
        assert_eq!(rank as u32, number.to_bits());
        assert!((ZERO..ONE).contains(&rank));
    }
}

#[test]
fn fractions_round_to_the_nearest_number() {
    let native = |n: u64| (n as f32 / (1u64 << 53) as f32).to_bits() as i32;
    for n in [0, 1, 2, 3, 5, 0x7F_FFFF, 0x80_0000, 0xFF_FFFF, 0x100_0000, 123456789012345] {
        assert_eq!(rank_fraction(n), native(n), "{n}");
    }
    // Ties go to the even significand.
    assert_eq!(rank_fraction(0x100_0001), 0x3100_0000);
    assert_eq!(rank_fraction(0x100_0003), 0x3100_0002);
    assert_eq!(rank_fraction(1), 0x2500_0000);
    for shift in 0..30 {
        for low in 0..64u64 {
            let n = (0x7F_FFE0 + low) << shift | (low * 0x9E37) & ((1 << shift) - 1);
            assert_eq!(rank_fraction(n), native(n), "{n}");
        }
    }
    // The largest fractions are nearer to 1 than to any smaller number, but stay below it.
    assert_eq!(rank_fraction((1 << 53) - (1 << 28) - 1), 0x3F7F_FFFF);
    assert_eq!(rank_fraction((1 << 53) - (1 << 28)), ONE - 1);
    assert_eq!(rank_fraction((1 << 53) - 1), ONE - 1);
}

#[test]
fn ranks_are_the_patterns_of_their_numbers() {
    assert_eq!(ZERO as u32, 0.0f32.to_bits());
    assert_eq!(ONE as u32, 1.0f32.to_bits());
    assert_eq!(LOWEST.unsigned_abs(), f32::MAX.to_bits());
    assert!(f32::from_bits(NAN as u32).is_nan());
    assert!(f32::INFINITY.to_bits() < NAN as u32);
    assert_eq!(ternary_pheromone_market::market::OFFLOAD_FLOOR as u32, 0.3f32.to_bits());
    assert_eq!(ternary_pheromone_market::market::ACCEPT_CEILING as u32, 0.95f32.to_bits());
    let numbers = [0.0f32, f32::MIN_POSITIVE / 4.0, 1e-30, 0.25, 0.3, 1.0, 1.5, 1e30, f32::MAX];
    for pair in numbers.windows(2) {
        assert!((pair[0].to_bits() as i32) < pair[1].to_bits() as i32);
    }
}

#[test]
fn layers_draw_their_weights_row_by_row() {
    let mut rng = Rng::new(7);
    let layer = TritLayer::random(3, 2, &mut rng);
    // The words of seed 7 stand for -1, -1, -1 and 0, 0, 0.
    assert_eq!(
        layer.terms(0),
        vec![Term::Subtract(0), Term::Subtract(1), Term::Subtract(2)]
    );
    assert_eq!(layer.terms(1), vec![]);
    let mut words = Rng::new(7);
    for _ in 0..6 {
        words.next();
    }
    assert_eq!(rng.next(), words.next());
}

#[test]
fn terms_add_up_to_the_dot_product() {
    let mut rng = Rng::new(11);
    let mut words = Rng::new(11);
    let layer = TritLayer::random(9, 5, &mut rng);
    let input: [i64; 9] = [3, -14, 15, 92, -65, 35, 89, -79, 32];
    for row in 0..5 {
        let dot: i64 = (0..9).map(|k| ((words.next() % 3) as i64 - 1) * input[k]).sum();
        let sum: i64 = layer
            .terms(row)
            .iter()
            .map(|term| match *term {
                Term::Add(k) => input[k],
                Term::Subtract(k) => -input[k],
            })
            .sum();
        assert_eq!(sum, dot);
    }
}

#[test]
fn layers_cut_off_negative_sums() {
    let layer = TritLayer::random(2, 4, &mut Rng::new(3));
    assert_eq!(layer.forward(&[5, -5, 0, LOWEST]), vec![5, 0, 0, 0]);
    let infinity = f32::INFINITY.to_bits() as Rank;
    assert_eq!(layer.forward(&[NAN, 7, infinity, -infinity]), vec![0, 7, infinity, 0]);
    let empty = TritLayer::random(3, 0, &mut Rng::new(3));
    assert_eq!(empty.forward(&[]), Vec::<Rank>::new());
    assert_eq!((empty.in_dim(), empty.out_dim()), (3, 0));
}

#[test]
fn copies_of_networks_have_the_same_weights() {
    let net = TritNet::random(&mut Rng::new(5));
    let copy = net.clone();
    for (a, b) in net.layers().iter().zip(copy.layers()) {
        assert_eq!((a.in_dim(), a.out_dim()), (b.in_dim(), b.out_dim()));
        for row in 0..a.out_dim() {
            assert_eq!(a.terms(row), b.terms(row));
        }
    }
}

#[test]
fn networks_take_limited_inputs() {
    assert_eq!(
        TritNet::inputs(2 * (ONE / 2) + 7, ONE + 1, -ONE - 1, -3),
        [2 * (ONE / 2) + 7, ONE, -ONE, -3]
    );
    assert_eq!(TritNet::inputs(-4, -ONE, ONE, 0), [-4, -ONE, ONE, 0]);
    assert_eq!(TritNet::inputs(NAN, NAN, -5, NAN), [NAN, NAN, -5, NAN]);
    let inputs = TritNet::inputs(9, ONE + 5, LOWEST, 8);
    assert_eq!(TritNet::inputs(inputs[0], inputs[1], inputs[2], inputs[3]), inputs);
}

#[test]
fn decisions_take_the_highest_score_and_the_last_of_equals() {
    assert_eq!(TritNet::decide(&[3, 2, 1]), Action::MigrateWork);
    assert_eq!(TritNet::decide(&[2, 3, 1]), Action::AcceptWork);
    assert_eq!(TritNet::decide(&[1, 2, 3]), Action::Idle);
    assert_eq!(TritNet::decide(&[0, 0, 0]), Action::Idle);
    assert_eq!(TritNet::decide(&[3, 3, 1]), Action::AcceptWork);
    assert_eq!(TritNet::decide(&[3, 1, 3]), Action::Idle);
    assert_eq!(TritNet::decide(&[1, 3, 3]), Action::Idle);
    assert_eq!(TritNet::decide(&[-1, -1, -2]), Action::AcceptWork);
}
