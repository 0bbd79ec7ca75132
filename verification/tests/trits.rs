//! Ternary weights.

use ternary_pheromone_market::Trit;

#[test]
fn trit_accepts_valid_range() {
    assert_eq!(Trit::new(-1).unwrap().val(), -1);
    assert_eq!(Trit::new(0).unwrap().val(), 0);
    assert_eq!(Trit::new(1).unwrap().val(), 1);
}

#[test]
fn trit_rejects_out_of_range() {
    assert!(Trit::new(2).is_none());
    assert!(Trit::new(-2).is_none());
    assert!(Trit::new(127).is_none());
}
