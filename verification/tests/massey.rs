use ext::motivic::massey::{pack_terms, product_terms, MotivicMassey};
use ext::motivic::Gen;

fn g(s: i32, t: i32, idx: usize) -> Gen {
    Gen { s, t, idx }
}

#[test]
fn packing_sums_tau_powers_per_generator() {
    let terms = vec![(g(2, 7, 0), 1), (g(2, 7, 2), 0), (g(2, 7, 0), 3), (g(2, 7, 2), 0)];
    assert_eq!(pack_terms(&terms, 3), vec![0b1010, 0, 0]);
    assert_eq!(pack_terms(&Vec::new(), 2), vec![0, 0]);
}

#[test]
fn massey_coset_degree_and_triviality() {
    let (a, b, c) = (g(1, 2, 0), g(1, 2, 0), g(1, 3, 0));
    // τ·x lies in the indeterminacy generated by x.
    let m = MotivicMassey::from_representative(a, b, c, vec![(g(2, 7, 0), 1)], vec![vec![(g(2, 7, 0), 0)]], 1);
    assert_eq!(m.degree, (5, 2));
    assert!(m.is_zero);
    // x does not lie in the indeterminacy generated by τ·x.
    let m = MotivicMassey::from_representative(a, b, c, vec![(g(2, 7, 0), 0)], vec![vec![(g(2, 7, 0), 1)]], 1);
    assert!(!m.is_zero);
    assert_eq!(m.representative, vec![(g(2, 7, 0), 0)]);
    assert_eq!(m.indeterminacy, vec![vec![(g(2, 7, 0), 1)]]);
    // With no indeterminacy the bracket contains zero only when the representative vanishes.
    let m = MotivicMassey::from_representative(a, b, c, vec![(g(2, 7, 1), 2), (g(2, 7, 1), 2)], Vec::new(), 2);
    assert!(m.is_zero);
    let m = MotivicMassey::from_representative(a, b, c, vec![(g(2, 7, 1), 2)], Vec::new(), 2);
    assert!(!m.is_zero);
}

#[test]
fn product_terms_carry_the_hidden_tau_power() {
    // h0 · (h0 h2) at (3, 6): the generator there with weight w(a) + w(b) − 1 gets τ¹.
    let a = g(1, 1, 0);
    let b = g(2, 5, 0);
    let r = product_terms(a, b, 5, 10, &vec![false, true], &vec![0, 2], 1, 2);
    assert_eq!(r, vec![(g(3, 6, 1), 1)]);
    // A product visible mod τ has τ-power zero.
    let r = product_terms(a, b, 5, 10, &vec![true], &vec![3], 1, 2);
    assert_eq!(r, vec![(g(3, 6, 0), 0)]);
    // Outside the computed box the product is zero.
    assert_eq!(product_terms(a, b, 2, 10, &vec![true], &vec![3], 1, 2), Vec::new());
    assert_eq!(product_terms(a, b, 5, 2, &vec![true], &vec![3], 1, 2), Vec::new());
}
