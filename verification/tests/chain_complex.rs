use ext::chain_complex::{euler_characteristic, graded_dimension_string, Fnv, StemIterator};

#[test]
fn fnv_of_nothing_is_the_offset_basis() {
    assert_eq!(Fnv::new().finish(), 0xcbf2_9ce4_8422_2325);
}

#[test]
fn fnv_known_values() {
    let mut h = Fnv::new();
    h.write_u64(0);
    assert_eq!(h.finish(), 0xa8c7_f832_281a_39c5);

    let mut h = Fnv::new();
    h.write_i32(-1);
    assert_eq!(h.finish(), 0x4eba_ad86_4bc6_f2e1);

    let mut h = Fnv::new();
    h.write_usize(1);
    h.write_u64(2);
    assert_eq!(h.finish(), 0x7717_9803_63c8_e066);
}

#[test]
fn fnv_is_order_sensitive() {
    let mut a = Fnv::new();
    a.write_u64(1);
    a.write_u64(2);
    let mut b = Fnv::new();
    b.write_u64(2);
    b.write_u64(1);
    assert_ne!(a.finish(), b.finish());
}

#[test]
fn euler_characteristic_alternates() {
    assert_eq!(euler_characteristic(&vec![1, 2, 3]), 2);
    assert_eq!(euler_characteristic(&vec![]), 0);
    assert_eq!(euler_characteristic(&vec![0, 5]), -5);
}

#[test]
fn dimension_chart() {
    let gens = vec![vec![1, 0, 2], vec![0, 1, 1], vec![0, 0, 0]];
    assert_eq!(graded_dimension_string(&gens), "  · · \n·   : \n");
    assert_eq!(graded_dimension_string(&vec![vec![0, 0]]), "");
    assert_eq!(graded_dimension_string(&vec![vec![9, 10]]), "9 * \n");
}

fn stems(min_degree: i32, max_degrees: Vec<i32>) -> Vec<(i32, i32)> {
    let mut it = StemIterator::new(min_degree, max_degrees);
    let mut out = Vec::new();
    while let Some(b) = it.next() {
        out.push(b);
    }
    out
}

#[test]
fn stem_order() {
    // Modules computed through degrees 2, 2 and 3: stem 0 has (s, t) = (0, 0), (1, 1), (2, 2);
    // stem 1 has (0, 1), (1, 2), (2, 3); stem 2 has (0, 2) only, since (1, 3) is not computed.
    assert_eq!(
        stems(0, vec![2, 2, 3]),
        vec![(0, 0), (1, 1), (2, 2), (0, 1), (1, 2), (2, 3), (0, 2)]
    );
    assert_eq!(stems(0, vec![]), vec![]);
    assert_eq!(stems(5, vec![2]), vec![]);
    assert_eq!(stems(-1, vec![0]), vec![(0, -1), (0, 0)]);
}

#[test]
fn stem_iterator_stays_done() {
    let mut it = StemIterator::new(0, vec![0]);
    assert_eq!(it.next(), Some((0, 0)));
    assert_eq!(it.next(), None);
    assert_eq!(it.next(), None);
}

