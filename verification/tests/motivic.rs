use ext::motivic::cohomology::{capped_matrix, kept, tau_torsion_orders, TauModule};
use ext::motivic::deformation::Deformation;
use ext::motivic::persist::{decode_lift_cache, encode_lift_cache, lifted_table, support_set, weight_table, LIFT_CACHE_MAGIC};
use std::collections::BTreeSet;
use ext::motivic::Gen;

#[test]
fn tau_module_labels() {
    assert_eq!(TauModule { free: 0, torsion: vec![] }.to_string(), "·");
    assert_eq!(TauModule { free: 2, torsion: vec![] }.to_string(), "2");
    assert_eq!(TauModule { free: 0, torsion: vec![1] }.to_string(), "τ");
    assert_eq!(TauModule { free: 1, torsion: vec![2] }.to_string(), "1+τ²");
    assert_eq!(TauModule { free: 0, torsion: vec![1, 3] }.to_string(), "τ+τ³");
    assert_eq!(TauModule { free: 12, torsion: vec![1, 1, 10] }.to_string(), "12+τ+τ+τ¹⁰");
}

fn g(s: i32, t: i32, idx: usize) -> Gen {
    Gen { s, t, idx }
}

#[test]
fn tau_torsion_of_a_single_tau_power() {
    // δ(g) = τ·h: one summand F₂[τ]/τ.
    let deltas = vec![vec![(g(0, 4, 0), 1)]];
    assert_eq!(tau_torsion_orders(1, 1, 1, &deltas), vec![1]);
    // δ(g) = τ³·h.
    let deltas = vec![vec![(g(0, 4, 0), 3)]];
    assert_eq!(tau_torsion_orders(1, 1, 1, &deltas), vec![3]);
}

#[test]
fn tau_torsion_unit_and_cancelled_entries() {
    // A unit entry gives no torsion.
    let deltas = vec![vec![(g(0, 4, 0), 0)]];
    assert_eq!(tau_torsion_orders(1, 1, 1, &deltas), Vec::<u32>::new());
    // τ + τ = 0 over F₂[τ].
    let deltas = vec![vec![(g(0, 4, 0), 1), (g(0, 4, 0), 1)]];
    assert_eq!(tau_torsion_orders(1, 1, 1, &deltas), Vec::<u32>::new());
}

#[test]
fn tau_torsion_ignores_other_filtrations_and_orders_ascending() {
    let deltas = vec![
        vec![(g(0, 4, 1), 2), (g(5, 4, 0), 1)],
        vec![(g(0, 4, 0), 1)],
    ];
    assert_eq!(tau_torsion_orders(1, 2, 2, &deltas), vec![1, 2]);
    // Filtration zero has nothing below it.
    assert_eq!(tau_torsion_orders(0, 2, 2, &deltas), Vec::<u32>::new());
    // Targets beyond the first `cols` generators are ignored.
    assert_eq!(tau_torsion_orders(1, 2, 1, &deltas), vec![1]);
}

#[test]
fn deformation_profile_round_trip() {
    assert_eq!(Deformation::MIN_R, 1);
    let b = [3, 2, 5];
    let c = Deformation::profile(2, b);
    assert_eq!(c, [4, 1, 7]);
    assert_eq!(Deformation::profile_inverse(2, c), b);
    assert_eq!(Deformation::differential_length([1, -1, 4]), 4);
}

#[test]
fn lift_cache_round_trip() {
    let header = [10, 5, 8, 4];
    let weights = vec![(g(1, 2, 0), 3), (g(2, 9, 7), -1)];
    let lifted = vec![(g(2, 3, 1), vec![0, 5, 1 << 40]), (g(3, 4, 0), vec![])];
    let bytes = encode_lift_cache(&header, &weights, &lifted);
    assert_eq!(bytes.len(), 4 + 16 + 8 + 2 * 20 + 8 + (24 + 3 * 8) + 24);
    assert_eq!(&bytes[0..4], &LIFT_CACHE_MAGIC.to_le_bytes());
    let (w, l) = decode_lift_cache(&bytes, &header).unwrap();
    assert_eq!(w, weights);
    assert_eq!(l, lifted);
    // Trailing bytes are not read.
    let mut longer = bytes.clone();
    longer.extend_from_slice(&[9, 9, 9]);
    assert_eq!(decode_lift_cache(&longer, &header), Some((weights, lifted)));
}

#[test]
fn lift_cache_rejects_other_boxes_and_damage() {
    let header = [10, 5, 8, 4];
    let weights = vec![(g(1, 2, 0), 3)];
    let lifted = vec![(g(2, 3, 1), vec![4])];
    let bytes = encode_lift_cache(&header, &weights, &lifted);
    assert_eq!(decode_lift_cache(&bytes, &[10, 5, 8, 5]), None);
    assert_eq!(decode_lift_cache(&bytes[..bytes.len() - 1], &header), None);
    assert_eq!(decode_lift_cache(&bytes[..27], &header), None);
    let mut bad_magic = bytes.clone();
    bad_magic[0] ^= 1;
    assert_eq!(decode_lift_cache(&bad_magic, &header), None);
    assert_eq!(decode_lift_cache(&[], &header), None);
}

#[test]
fn lift_cache_byte_layout() {
    let bytes = encode_lift_cache(&[-1, 0, 0, 0], &vec![], &vec![]);
    let mut expected = vec![0x04, 0x00, 0x4D, 0x00];
    expected.extend_from_slice(&[0xff, 0xff, 0xff, 0xff]);
    expected.extend_from_slice(&[0; 12]);
    expected.extend_from_slice(&[0; 16]);
    assert_eq!(bytes, expected);
}

#[test]
fn capped_coboundary_keeps_generators_by_weight() {
    assert_eq!(kept(&vec![Some(0), None, Some(3), Some(1)], 1), vec![0, 3]);
    assert_eq!(kept(&vec![Some(0), None, Some(3), Some(1)], i32::MAX), vec![0, 2, 3]);
    assert_eq!(kept(&Vec::new(), 0), Vec::<usize>::new());
    let gen = |idx: usize| Gen { s: 1, t: 4, idx };
    let deltas = vec![vec![(gen(0), 1), (gen(2), 0)], vec![], vec![(gen(1), 2)]];
    assert_eq!(
        capped_matrix(&vec![0, 2], &vec![0, 1], &deltas),
        vec![vec![true, false], vec![false, true]]
    );
    assert_eq!(capped_matrix(&vec![1], &vec![0, 1, 2], &deltas), vec![vec![false, false, false]]);
}

#[test]
fn decoded_cache_reads_into_tables() {
    let g = |idx: usize| Gen { s: 1, t: 2, idx };
    let weights = weight_table(&vec![(g(0), 3), (g(1), 4), (g(0), 5)]);
    assert_eq!(weights, vec![(g(0), 5), (g(1), 4)]);
    let lifted = lifted_table(&vec![(g(2), vec![7, 1, 7]), (g(3), vec![]), (g(2), vec![9, 4, 9, 0])]);
    assert_eq!(lifted, vec![(g(2), BTreeSet::from([0, 4, 9])), (g(3), BTreeSet::new())]);
    assert_eq!(support_set(&vec![5, 2, 5, 1, 2]), BTreeSet::from([1, 2, 5]));
}
