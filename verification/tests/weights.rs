use ext::motivic::weights::{delta_terms, mod_tau_support, weight_from_terms, Term};
use ext::motivic::Gen;

fn term(op_degree: i32, op_weight: i32, s: i32, t: i32, idx: usize, w: Option<i32>) -> Term {
    Term { op_degree, op_weight, target: Gen { s, t, idx }, target_weight: w }
}

#[test]
fn weight_is_the_common_term_weight() {
    // Both terms carry weight 0: 0 + 0 and -1 + 1.
    let terms = vec![term(1, 0, 0, 0, 0, Some(0)), term(0, -1, 1, 1, 0, Some(1))];
    assert_eq!(weight_from_terms(&terms), Some(0));
    // Targets without a weight are skipped.
    let terms = vec![term(2, 1, 0, 0, 0, None), term(1, 2, 0, 0, 1, Some(3))];
    assert_eq!(weight_from_terms(&terms), Some(5));
    assert_eq!(weight_from_terms(&vec![term(1, 0, 0, 0, 0, None)]), None);
    assert_eq!(weight_from_terms(&Vec::new()), None);
}

#[test]
fn delta_keeps_unit_terms_with_their_tau_power() {
    let terms = vec![
        term(0, 0, 1, 4, 0, Some(3)),
        term(2, 1, 1, 2, 0, Some(2)),
        term(0, 0, 1, 4, 1, Some(1)),
    ];
    assert_eq!(
        delta_terms(1, &terms),
        vec![(Gen { s: 1, t: 4, idx: 0 }, 2), (Gen { s: 1, t: 4, idx: 1 }, 0)]
    );
    assert_eq!(delta_terms(0, &vec![term(3, 1, 0, 0, 0, None)]), Vec::new());
}

#[test]
fn mod_tau_support_keeps_entries_of_the_generator_weight() {
    assert_eq!(mod_tau_support(2, &vec![(0, 2), (3, 1), (5, 2), (7, 4)]), vec![0, 5]);
    assert_eq!(mod_tau_support(0, &vec![(1, 1)]), Vec::<usize>::new());
}
