use ext::nassau::{MilnorSubalgebra, PPartEntry, ProfileReadError, SubalgebraIterator};

fn signatures(subalgebra: &MilnorSubalgebra, degree: i32) -> Vec<Vec<PPartEntry>> {
    let mut it = subalgebra.iter_signatures(degree);
    let mut out = Vec::new();
    while let Some(signature) = it.next() {
        out.push(signature);
    }
    out
}

#[test]
fn test_signature_iterator() {
    let subalgebra = MilnorSubalgebra::new(vec![2, 1]);
    assert_eq!(
        signatures(&subalgebra, 6),
        vec![
            vec![1, 0],
            vec![2, 0],
            vec![3, 0],
            vec![0, 1],
            vec![1, 1],
            vec![2, 1],
            vec![3, 1],
        ]
    );

    assert_eq!(
        signatures(&subalgebra, 5),
        vec![
            vec![1, 0],
            vec![2, 0],
            vec![3, 0],
            vec![0, 1],
            vec![1, 1],
            vec![2, 1],
        ]
    );
    assert_eq!(
        signatures(&subalgebra, 4),
        vec![vec![1, 0], vec![2, 0], vec![3, 0], vec![0, 1], vec![1, 1],]
    );
    assert_eq!(
        signatures(&subalgebra, 3),
        vec![vec![1, 0], vec![2, 0], vec![3, 0], vec![0, 1],]
    );
    assert_eq!(signatures(&subalgebra, 2), vec![vec![1, 0], vec![2, 0],]);
    assert_eq!(signatures(&subalgebra, 1), vec![vec![1, 0],]);
    assert_eq!(signatures(&subalgebra, 0), Vec::<Vec<PPartEntry>>::new());
}

#[test]
fn test_signature_iterator_large() {
    let subalgebra = MilnorSubalgebra::new(vec![
        0,
        MilnorSubalgebra::INFINITY,
        MilnorSubalgebra::INFINITY,
        MilnorSubalgebra::INFINITY,
    ]);
    assert_eq!(
        signatures(&subalgebra, 7),
        vec![vec![0, 1, 0, 0], vec![0, 2, 0, 0], vec![0, 0, 1, 0],]
    );
}

#[test]
fn test_subalgebra_fmt() {
    let f2 = MilnorSubalgebra::zero_algebra();
    let a2 = MilnorSubalgebra::new(vec![3, 2, 1]);
    let b3321 = MilnorSubalgebra::new(vec![3, 3, 2, 1]);

    assert_eq!(f2.to_string(), "F_2");
    assert_eq!(a2.to_string(), "A(2)");
    assert_eq!(b3321.to_string(), "B(3,3,2,1)");
}

#[test]
fn signature_iterator_starts_over_after_the_last() {
    let subalgebra = MilnorSubalgebra::new(vec![1]);
    let mut it = subalgebra.iter_signatures(10);
    assert_eq!(it.next(), Some(vec![1]));
    assert_eq!(it.next(), None);
    assert_eq!(it.next(), Some(vec![1]));
}

#[test]
fn signature_iterator_of_trivial_algebra_is_empty() {
    let subalgebra = MilnorSubalgebra::zero_algebra();
    assert_eq!(signatures(&subalgebra, 100), Vec::<Vec<PPartEntry>>::new());
}

#[test]
fn signature_iterator_negative_degree_is_empty() {
    let subalgebra = MilnorSubalgebra::new(vec![2, 1]);
    assert_eq!(signatures(&subalgebra, -5), Vec::<Vec<PPartEntry>>::new());
}

#[test]
fn subalgebra_iterator_walks_through_a_n() {
    let mut it = SubalgebraIterator::new();
    let names: Vec<String> = (0..10).map(|_| it.next().unwrap().to_string()).collect();
    assert_eq!(
        names,
        vec![
            "A(0)",
            "B(1,1)",
            "A(1)",
            "B(2,1,1)",
            "B(2,2,1)",
            "A(2)",
            "B(3,2,1,1)",
            "B(3,2,2,1)",
            "B(3,3,2,1)",
            "A(3)",
        ]
    );
}

#[test]
fn top_degree_of_small_algebras() {
    assert_eq!(MilnorSubalgebra::zero_algebra().top_degree(), 0);
    assert_eq!(MilnorSubalgebra::new(vec![1]).top_degree(), 1);
    assert_eq!(MilnorSubalgebra::new(vec![2, 1]).top_degree(), 6);
    assert_eq!(MilnorSubalgebra::new(vec![3, 2, 1]).top_degree(), 23);
    assert_eq!(MilnorSubalgebra::new(vec![2, 2, 1]).top_degree(), 19);
}

#[test]
fn optimal_for_picks_the_last_vanishing_subalgebra() {
    assert_eq!(MilnorSubalgebra::optimal_for(0, 0).to_string(), "F_2");
    assert_eq!(MilnorSubalgebra::optimal_for(0, 1).to_string(), "F_2");
    assert_eq!(MilnorSubalgebra::optimal_for(0, 2).to_string(), "A(0)");
    assert_eq!(MilnorSubalgebra::optimal_for(1, 10).to_string(), "B(1,1)");
    assert_eq!(MilnorSubalgebra::optimal_for(1, 11).to_string(), "B(1,1)");
    assert_eq!(MilnorSubalgebra::optimal_for(1, 12).to_string(), "A(1)");
    assert_eq!(MilnorSubalgebra::optimal_for(0, 100).to_string(), "A(3)");
    assert_eq!(MilnorSubalgebra::optimal_for(3, -7).to_string(), "F_2");
}

#[test]
fn optimal_for_terminates_at_the_largest_degree() {
    let a = MilnorSubalgebra::optimal_for(0, i32::MAX);
    assert!(a.to_string().starts_with('A') || a.to_string().starts_with('B'));
    assert!(a.top_degree() > 0);
}

#[test]
fn profile_save_form() {
    let a = MilnorSubalgebra::new(vec![3, 2, 1]);
    assert_eq!(
        a.to_bytes(),
        vec![3, 0, 0, 0, 0, 0, 0, 0, 3, 2, 1, 0, 0, 0]
    );
    assert_eq!(MilnorSubalgebra::zero_algebra().to_bytes(), vec![0; 8]);
}

#[test]
fn signature_save_form_round_trips() {
    let bytes = MilnorSubalgebra::signature_to_bytes(&[1, 2, 0x0304]);
    assert_eq!(bytes, vec![1, 0, 2, 0, 4, 3, 0, 0, 0, 0, 0, 0]);
    let a = MilnorSubalgebra::new(vec![3, 2, 1]);
    assert_eq!(a.signature_from_bytes(&bytes), vec![1, 2, 0x0304]);
    let four = MilnorSubalgebra::signature_to_bytes(&[5, 6, 7, 8]);
    assert_eq!(four.len(), 8);
}

#[test]
fn zero_signature_has_one_entry_per_profile_entry() {
    assert_eq!(MilnorSubalgebra::new(vec![3, 2, 1]).zero_signature(), vec![0, 0, 0]);
    assert_eq!(MilnorSubalgebra::zero_algebra().zero_signature(), Vec::<PPartEntry>::new());
}

#[test]
fn profile_save_form_round_trips() {
    let a = MilnorSubalgebra::new(vec![3, 3, 2, 1]);
    let mut bytes = a.to_bytes();
    bytes.extend_from_slice(&[7, 7]);
    let (b, n) = MilnorSubalgebra::from_bytes(&bytes, 16).unwrap();
    assert_eq!(b.to_string(), "B(3,3,2,1)");
    assert_eq!(n, 8 + 4 + 4);
    assert_eq!(b.to_bytes(), a.to_bytes());
}

#[test]
fn profile_read_errors() {
    let bytes = MilnorSubalgebra::new(vec![3, 2, 1]).to_bytes();
    assert_eq!(
        MilnorSubalgebra::from_bytes(&bytes, 2).err(),
        Some(ProfileReadError::TooLong { len: 3, max: 2 })
    );
    assert_eq!(
        MilnorSubalgebra::from_bytes(&bytes[..bytes.len() - 1], 8).err(),
        Some(ProfileReadError::UnexpectedEof)
    );
    assert_eq!(
        MilnorSubalgebra::from_bytes(&bytes[..5], 8).err(),
        Some(ProfileReadError::UnexpectedEof)
    );
    let (empty, n) = MilnorSubalgebra::from_bytes(&[0; 8], 8).unwrap();
    assert_eq!(empty.to_string(), "F_2");
    assert_eq!(n, 8);
}
