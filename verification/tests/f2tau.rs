use ext::motivic::f2tau::{deg, div, invariant_factors, mul, reduce_mod};

#[test]
fn f2tau_reduce_mod_detects_membership() {
    // Over F₂[τ], reduce vectors modulo the submodule spanned by rows.
    // Rows: (1, τ) and (0, τ²). Column 0 pivot is the unit 1.
    let rows = vec![vec![0b1u128, 0b10], vec![0, 0b100]];
    // (1, τ) is in the span → reduces to 0.
    assert!(
        reduce_mod(rows.clone(), vec![0b1, 0b10])
            .iter()
            .all(|&x| x == 0)
    );
    // (1, 0): col-0 pivot kills entry 0, leaving (0, τ) from the first row; then
    // (0, τ) mod (0, τ²) stays τ (τ has lower degree than τ²) → not in submodule.
    assert!(
        reduce_mod(rows.clone(), vec![0b1, 0])
            .iter()
            .any(|&x| x != 0)
    );
    // (0, τ³) = τ·(0, τ²) is in the span → reduces to 0.
    assert!(reduce_mod(rows, vec![0, 0b1000]).iter().all(|&x| x == 0));
}

#[test]
fn reduce_mod_remainder_is_the_reduced_representative() {
    let rows = vec![vec![0b1u128, 0b10], vec![0, 0b100]];
    assert_eq!(reduce_mod(rows.clone(), vec![0b1, 0]), vec![0, 0b10]);
    assert_eq!(reduce_mod(rows, vec![0, 0b111]), vec![0, 0b11]);
}

#[test]
fn reduce_mod_with_no_rows_returns_the_target() {
    assert_eq!(reduce_mod(Vec::new(), vec![0b101, 0b1]), vec![0b101, 0b1]);
}

#[test]
fn reduce_mod_euclidean_pivot() {
    // The rows (τ) and (τ + 1) span the whole ring, so everything reduces to zero.
    let rows = vec![vec![0b10u128], vec![0b11]];
    assert_eq!(reduce_mod(rows.clone(), vec![0b1]), vec![0]);
    assert_eq!(reduce_mod(rows, vec![0b1011]), vec![0]);
}

#[test]
fn degree_of_polynomials() {
    assert_eq!(deg(0), -1);
    assert_eq!(deg(1), 0);
    assert_eq!(deg(0b1000), 3);
    assert_eq!(deg(0b1011), 3);
    assert_eq!(deg(1u128 << 127), 127);
}

#[test]
fn carryless_product() {
    // (1 + τ)² = 1 + τ² in characteristic two.
    assert_eq!(mul(0b11, 0b11), 0b101);
    assert_eq!(mul(0b10, 0b101), 0b1010);
    assert_eq!(mul(0, 0b111), 0);
    assert_eq!(mul(0b111, 1), 0b111);
}

#[test]
fn euclidean_quotient() {
    assert_eq!(div(0b101, 0b11), 0b11);
    // τ² = (τ + 1)(τ + 1) + 1.
    assert_eq!(div(0b100, 0b11), 0b11);
    assert_eq!(div(0b1, 0b10), 0);
    assert_eq!(div(0b1010, 0b10), 0b101);
}

#[test]
fn invariant_factors_of_diagonal_matrices() {
    assert_eq!(invariant_factors(vec![vec![0b10, 0], vec![0, 0b100]]), vec![0b10, 0b100]);
    // Units are not invariant factors.
    assert_eq!(invariant_factors(vec![vec![0b1, 0], vec![0, 0b10]]), vec![0b10]);
    assert_eq!(invariant_factors(vec![vec![0, 0], vec![0, 0]]), Vec::<u128>::new());
    assert_eq!(invariant_factors(Vec::new()), Vec::<u128>::new());
}

#[test]
fn invariant_factors_need_elimination() {
    // [[τ, τ], [0, τ]] is equivalent to diag(τ, τ).
    assert_eq!(invariant_factors(vec![vec![0b10, 0b10], vec![0, 0b10]]), vec![0b10, 0b10]);
    // [[τ, 1]] has a unit entry: no torsion.
    assert_eq!(invariant_factors(vec![vec![0b10, 0b1]]), Vec::<u128>::new());
}

#[test]
fn invariant_factors_divide_each_other() {
    // diag(τ, 1 + τ): the pivot τ does not divide 1 + τ, so the Smith form is
    // diag(1, τ + τ²).
    assert_eq!(invariant_factors(vec![vec![0b10, 0], vec![0, 0b11]]), vec![0b110]);
    // diag(τ², τ) reorders to diag(τ, τ²).
    assert_eq!(invariant_factors(vec![vec![0b100, 0], vec![0, 0b10]]), vec![0b10, 0b100]);
    // diag(τ, τ, 1 + τ²) has Smith form diag(1, τ, τ + τ³).
    assert_eq!(
        invariant_factors(vec![vec![0b10, 0, 0], vec![0, 0b10, 0], vec![0, 0, 0b101]]),
        vec![0b10, 0b1010]
    );
}

#[test]
fn product_is_associative() {
    let (a, b, c) = (0b1011u128, 0b110u128, 0b10011u128);
    assert_eq!(mul(mul(a, b), c), mul(a, mul(b, c)));
    // (1 + τ)(1 + τ) = 1 + τ², then times τ.
    assert_eq!(mul(mul(0b11, 0b11), 0b10), 0b1010);
    assert_eq!(mul(0b11, mul(0b11, 0b10)), 0b1010);
}

#[test]
fn reduce_mod_reads_only_the_target_columns() {
    // Entries past the target's length are ignored.
    let rows = vec![vec![0b1u128, 0b10, 0b111], vec![0, 0b100, 0b1]];
    assert_eq!(reduce_mod(rows.clone(), vec![0b1, 0b10]), vec![0, 0]);
    assert_eq!(reduce_mod(rows, vec![0b1, 0]), vec![0, 0b10]);
}

#[test]
fn reduce_mod_keeps_a_unit_that_no_row_divides() {
    // 1 is not a multiple of 1 + τ over F2[τ]: the remainder is 1 itself.
    assert_eq!(reduce_mod(vec![vec![0b11]], vec![0b1]), vec![0b1]);
    // τ² + 1 = (1 + τ)², so it reduces to zero; τ² reduces to 1.
    assert_eq!(reduce_mod(vec![vec![0b11]], vec![0b101]), vec![0]);
    assert_eq!(reduce_mod(vec![vec![0b11]], vec![0b100]), vec![0b1]);
}
