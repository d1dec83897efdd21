use std::collections::BTreeSet;

use ext::motivic::tau_lift::{lowest_order_error, toggle_support, CellLift, LiftAction, LIFT_ROUNDS};

fn set(v: &[usize]) -> BTreeSet<usize> {
    v.iter().copied().collect()
}

#[test]
fn lowest_order_error_picks_the_lowest_surviving_order() {
    let parity = vec![true, false, true, true];
    let weights = vec![5, 0, 3, 3];
    assert_eq!(lowest_order_error(&parity, &weights, 2), Some((1, vec![false, false, true, true])));
    assert_eq!(lowest_order_error(&vec![false, false], &vec![0, 9], 0), None);
    assert_eq!(lowest_order_error(&Vec::new(), &Vec::new(), 0), None);
}

#[test]
fn toggling_is_the_symmetric_difference() {
    let mut s = set(&[1, 3, 7]);
    toggle_support(&mut s, &vec![true, true, false, false]);
    assert_eq!(s, set(&[0, 3, 7]));
    let mut s = set(&[0, 2]);
    toggle_support(&mut s, &vec![true, false, true]);
    assert_eq!(s, set(&[]));
    let mut s = set(&[]);
    toggle_support(&mut s, &vec![false, true, true]);
    assert_eq!(s, set(&[1, 2]));
    // Toggling the same correction twice restores the support.
    let mut s = set(&[2, 4, 9]);
    toggle_support(&mut s, &vec![false, true, true, true]);
    assert_eq!(s, set(&[1, 3, 4, 9]));
    toggle_support(&mut s, &vec![false, true, true, true]);
    assert_eq!(s, set(&[2, 4, 9]));
}

#[test]
fn cell_lift_steps() {
    let mut lift = CellLift::new(set(&[0, 5]));
    match lift.next_action(&vec![false, true], &vec![0, 4], 2) {
        LiftAction::Solve { order, error } => {
            assert_eq!(order, 2);
            assert_eq!(error, vec![false, true]);
        }
        LiftAction::Finish => panic!("the defect has not been cancelled"),
    }
    lift.apply_correction(&vec![true, true]);
    assert_eq!(lift.support, set(&[1, 5]));
    assert_eq!(lift.rounds, 1);
    assert!(matches!(lift.next_action(&vec![false, false], &vec![0, 4], 2), LiftAction::Finish));
    lift.rounds = LIFT_ROUNDS;
    assert!(matches!(lift.next_action(&vec![false, true], &vec![0, 4], 2), LiftAction::Finish));
}
