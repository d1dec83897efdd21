//! Reading the motivic Adams $E_2 = H(\delta)$ as an $\mathbb{F}_2[\tau]$-module.
use vstd::prelude::*;
use super::Gen;
use super::f2tau::{
    all_zero, apply_ops, cut, deg, invariant_factors, is_diagonal, lemma_xor, matrix_cols,
    nonunit_diagonal, poly_deg, smith_steps, wide, MatrixOp, exact_ops, exact_chain,
};
use crate::utils::{decimal, push_decimal, push_superscript, sort_ascending, superscript};

verus! {

/// The motivic Adams $E_2$ at one bidegree as an $\mathbb{F}_2[\tau]$-module
/// (structure theorem over the PID $\mathbb{F}_2[\tau]$):
/// $\mathbb{F}_2[\tau]^{\,\mathrm{free}} \oplus \bigoplus_i
/// \mathbb{F}_2[\tau]/\tau^{k_i}$.
#[derive(Debug, Clone, PartialEq, Eq)]
pub struct TauModule {
    /// The free rank — the classical Adams $E_2$ (invert $\tau$).
    pub free: usize,
    /// The orders $k_i$ of the $\tau$-torsion summands $\mathbb{F}_2[\tau]/\tau^{k_i}$,
    /// ascending. Empty iff the module is $\tau$-torsion-free.
    pub torsion: Vec<u32>,
}

/// The label of one torsion summand: `τ` for order one, `τ` with the order in superscript
/// digits otherwise (`τ²`).
pub open spec fn torsion_label(k: u32) -> Seq<char> {
    if k == 1 {
        seq!['τ']
    } else {
        seq!['τ'] + superscript(k as nat)
    }
}

/// The labels of the summands: the free rank (when positive), then each torsion summand.
pub open spec fn summand_labels(free: usize, torsion: Seq<u32>) -> Seq<Seq<char>> {
    (if free > 0 {
        seq![decimal(free as nat)]
    } else {
        Seq::empty()
    }) + torsion.map_values(|k: u32| torsion_label(k))
}

/// The parts joined by `+`.
pub open spec fn join_plus(parts: Seq<Seq<char>>) -> Seq<char>
    decreases parts.len(),
{
    if parts.len() == 0 {
        Seq::empty()
    } else if parts.len() == 1 {
        parts[0]
    } else {
        join_plus(parts.drop_last()).push('+') + parts.last()
    }
}

/// A compact chart label, e.g. `2` (free rank 2, no torsion), `τ` (one
/// $\mathbb{F}_2[\tau]/\tau$), `1+τ²`, or `·` for the zero module.
pub open spec fn tau_module_label(free: usize, torsion: Seq<u32>) -> Seq<char> {
    let parts = summand_labels(free, torsion);
    if parts.len() == 0 {
        seq!['·']
    } else {
        join_plus(parts)
    }
}

impl TauModule {
    /// The chart label of the module (see [`tau_module_label`]).
    pub fn to_string(&self) -> (s: String)
        ensures
            s@ == tau_module_label(self.free, self.torsion@),
    {
        let mut s = String::new();
        let mut first = true;
        let ghost mut parts: Seq<Seq<char>> = Seq::empty();
        if self.free > 0 {
            push_decimal(&mut s, self.free as u64);
            first = false;
            proof {
                parts = seq![decimal(self.free as nat)];
                assert(s@ =~= join_plus(parts));
            }
        }
        proof {
            assert(s@ =~= join_plus(parts));
        }
        let mut i: usize = 0;
        while i < self.torsion.len()
            invariant
                i <= self.torsion@.len(),
                parts == (if self.free > 0 {
                    seq![decimal(self.free as nat)]
                } else {
                    Seq::<Seq<char>>::empty()
                }) + self.torsion@.subrange(0, i as int).map_values(|k: u32| torsion_label(k)),
                first <==> parts.len() == 0,
                s@ == join_plus(parts),
            decreases self.torsion@.len() - i,
        {
            let k = self.torsion[i];
            let ghost before = s@;
            if !first {
                s.push('+');
            }
            s.push('τ');
            if k != 1 {
                push_superscript(&mut s, k as u64);
            }
            proof {
                let old_parts = parts;
                parts = old_parts.push(torsion_label(k));
                assert(parts.drop_last() == old_parts);
                assert(self.torsion@.subrange(0, i + 1).map_values(|k: u32| torsion_label(k))
                    == self.torsion@.subrange(0, i as int).map_values(|k: u32| torsion_label(k)).push(
                    torsion_label(k),
                ));
                if old_parts.len() == 0 {
                    assert(s@ =~= torsion_label(k));
                } else {
                    assert(s@ =~= before.push('+') + torsion_label(k));
                }
            }
            first = false;
            i += 1;
        }
        if first {
            s.push('·');
        }
        proof {
            assert(self.torsion@.subrange(0, self.torsion@.len() as int) == self.torsion@);
            if first {
                assert(s@ =~= seq!['·']);
            }
        }
        s
    }
}

/// What the term `t` of a coboundary contributes to column `j` of the coboundary matrix in
/// filtration `s`: $\tau^{\mathrm{power}}$ when it hits the `j`-th generator of filtration
/// `s - 1`.
pub open spec fn term_value(t: (Gen, u32), s: int, j: int) -> u128 {
    if t.0.s == s - 1 && t.0.idx == j {
        1u128 << t.1
    } else {
        0
    }
}

/// Column `j` of the coboundary row of the first `k` terms: the sum of their contributions.
pub open spec fn delta_entry(terms: Seq<(Gen, u32)>, s: int, j: int, k: int) -> u128
    decreases k,
{
    if k <= 0 {
        0
    } else {
        delta_entry(terms, s, j, k - 1) ^ term_value(terms[k - 1], s, j)
    }
}

/// The coboundary matrix over $\mathbb{F}_2[\tau]$: entry `(i, j)` sums the contributions of
/// the terms of `deltas[i]` to column `j`.
pub open spec fn delta_matrix(deltas: Seq<Vec<(Gen, u32)>>, s: int, rows: nat, cols: nat) -> Seq<
    Seq<u128>,
> {
    Seq::new(
        rows,
        |i: int| Seq::new(cols, |j: int| delta_entry(deltas[i]@, s, j, deltas[i]@.len() as int)),
    )
}

/// The $\tau$-torsion orders at a bidegree with `rows` generators in filtration `s`, mapping
/// by the coboundary to `cols` generators in filtration `s - 1`: the degrees of the non-unit
/// invariant factors of the coboundary matrix over $\mathbb{F}_2[\tau]$, ascending.
///
/// `deltas[i]` lists the terms `(target, τ-power)` of the coboundary of the `i`-th generator;
/// terms outside filtration `s - 1` or beyond the first `cols` generators are ignored, and the
/// entry of the matrix is the sum of $\tau^{\mathrm{power}}$ over the remaining terms.
pub fn tau_torsion_orders(
    s: i32,
    rows: usize,
    cols: usize,
    deltas: &Vec<Vec<(Gen, u32)>>,
) -> (orders: Vec<u32>)
    requires
        s >= 1 ==> deltas.len() >= rows,
        forall|i: int, j: int|
            0 <= i < deltas.len() && 0 <= j < deltas@[i].len() && s >= 1 && (
            #[trigger] deltas@[i]@[j]).0.s == s - 1 && deltas@[i]@[j].0.idx < cols ==> deltas@[i]@[j].1
                < 128,
    ensures
        (s < 1 || rows == 0 || cols == 0) ==> orders@.len() == 0,
        orders@.len() <= rows,
        orders@.len() <= cols,
        forall|i: int| 0 <= i < orders@.len() ==> 1 <= #[trigger] orders@[i] <= 127,
        forall|i: int, j: int| 0 <= i < j < orders@.len() ==> orders@[i] <= orders@[j],
        (forall|i: int, j: int|
            0 <= i < rows && 0 <= j < deltas@[i].len() ==> !((#[trigger] deltas@[i]@[j]).0.s == s
                - 1 && deltas@[i]@[j].0.idx < cols)) ==> orders@.len() == 0,
        s >= 1 && rows > 0 && cols > 0 ==> exists|ops: Seq<MatrixOp>|
            #[trigger] is_diagonal(
                apply_ops(delta_matrix(deltas@, s as int, rows as nat, cols as nat), ops),
            ) && smith_steps(delta_matrix(deltas@, s as int, rows as nat, cols as nat), ops)
                && (exact_ops(delta_matrix(deltas@, s as int, rows as nat, cols as nat), ops)
                ==> exact_chain(
                nonunit_diagonal(
                    apply_ops(delta_matrix(deltas@, s as int, rows as nat, cols as nat), ops),
                    if rows < cols {
                        rows as int
                    } else {
                        cols as int
                    },
                ),
            )) && orders@.to_multiset() == nonunit_diagonal(
                apply_ops(delta_matrix(deltas@, s as int, rows as nat, cols as nat), ops),
                if rows < cols {
                    rows as int
                } else {
                    cols as int
                },
            ).map_values(|x: u128| poly_deg(x) as u32).to_multiset(),
{
    if s < 1 {
        return Vec::new();
    }
    if rows == 0 || cols == 0 {
        return Vec::new();
    }
    // The δ matrix over F₂[τ]: entry (i, j) is the sum of τ^power over the terms
    // of δ(gᵢ) hitting the j-th generator at (s-1, t).
    let ghost no_terms = forall|i: int, j: int|
        0 <= i < rows && 0 <= j < deltas@[i].len() ==> !((#[trigger] deltas@[i]@[j]).0.s == s - 1
            && deltas@[i]@[j].0.idx < cols);
    let mut m: Vec<Vec<u128>> = Vec::new();
    let mut ri: usize = 0;
    while ri < rows
        invariant
            ri <= rows,
            deltas.len() >= rows,
            m@.len() == ri,
            forall|k: int|
                0 <= k < ri ==> #[trigger] m@[k]@ == delta_matrix(
                    deltas@,
                    s as int,
                    rows as nat,
                    cols as nat,
                )[k],
            wide(m@, cols as nat),
            forall|k: int| 0 <= k < ri ==> #[trigger] m@[k]@.len() == cols,
            no_terms ==> all_zero(m@),
            no_terms == forall|i: int, j: int|
                0 <= i < rows && 0 <= j < deltas@[i].len() ==> !((#[trigger] deltas@[i]@[j]).0.s
                    == s - 1 && deltas@[i]@[j].0.idx < cols),
            s >= 1,
            forall|i: int, j: int|
                0 <= i < deltas.len() && 0 <= j < deltas@[i].len() && (
                #[trigger] deltas@[i]@[j]).0.s == s - 1 && deltas@[i]@[j].0.idx < cols
                    ==> deltas@[i]@[j].1 < 128,
        decreases rows - ri,
    {
        let mut row: Vec<u128> = Vec::new();
        let mut j: usize = 0;
        while j < cols
            invariant
                j <= cols,
                row@.len() == j,
                forall|k: int| 0 <= k < j ==> row@[k] == 0,
            decreases cols - j,
        {
            row.push(0);
            j += 1;
        }
        let terms = &deltas[ri];
        let mut k: usize = 0;
        while k < terms.len()
            invariant
                k <= terms@.len(),
                ri < rows,
                terms@ == deltas@[ri as int]@,
                row@.len() == cols,
                no_terms ==> forall|c: int| 0 <= c < cols ==> row@[c] == 0,
                forall|c: int|
                    0 <= c < cols ==> #[trigger] row@[c] == delta_entry(terms@, s as int, c, k as int),
                no_terms == forall|i: int, j: int|
                    0 <= i < rows && 0 <= j < deltas@[i].len() ==> !((#[trigger] deltas@[i]@[j]).0.s
                        == s - 1 && deltas@[i]@[j].0.idx < cols),
                forall|i: int, j: int|
                    0 <= i < deltas.len() && 0 <= j < deltas@[i].len() && (
                    #[trigger] deltas@[i]@[j]).0.s == s - 1 && deltas@[i]@[j].0.idx < cols
                        ==> deltas@[i]@[j].1 < 128,
                deltas.len() >= rows,
                s >= 1,
            decreases terms@.len() - k,
        {
            let (gj, power) = terms[k];
            let ghost before = row@;
            if gj.s == s - 1 && gj.idx < cols {
                proof {
                    assert(deltas@[ri as int]@[k as int] == (gj, power));
                }
                let x = row[gj.idx] ^ (1u128 << power);
                row.set(gj.idx, x);
            }
            proof {
                assert forall|c: int| 0 <= c < cols implies #[trigger] row@[c] == delta_entry(
                    terms@,
                    s as int,
                    c,
                    k + 1,
                ) by {
                    assert(terms@[k as int] == (gj, power));
                    if gj.s == s - 1 && gj.idx == c {
                        assert(row@[c] == before[c] ^ (1u128 << power));
                    } else {
                        assert(term_value(terms@[k as int], s as int, c) == 0);
                        assert(row@[c] == before[c]);
                        lemma_xor(before[c], 0, 0);
                    }
                }
            }
            k += 1;
        }
        proof {
            assert(row@ =~= delta_matrix(deltas@, s as int, rows as nat, cols as nat)[ri as int]);
        }
        m.push(row);
        ri += 1;
    }
    let ghost dm = delta_matrix(deltas@, s as int, rows as nat, cols as nat);
    proof {
        assert(matrix_cols(m@) == cols);
        assert forall|k: int| 0 <= k < rows implies #[trigger] cut(m@, cols as nat)[k] == dm[k] by {
            assert(m@[k]@ == dm[k]);
            assert(m@[k]@.len() == cols);
            assert(m@[k]@.subrange(0, cols as int) =~= m@[k]@);
        }
        assert(cut(m@, cols as nat) =~= dm);
    }
    proof {
        assert(m@.len() > 0 ==> wide(m@, m@[0]@.len()));
    }
    let factors = invariant_factors(m);
    let mut orders: Vec<u32> = Vec::new();
    let mut i: usize = 0;
    while i < factors.len()
        invariant
            i <= factors@.len(),
            orders@.len() == i,
            orders@ == factors@.subrange(0, i as int).map_values(|x: u128| poly_deg(x) as u32),
            forall|k: int| 0 <= k < factors@.len() ==> 1 <= #[trigger] poly_deg(factors@[k]),
            forall|k: int| 0 <= k < i ==> 1 <= #[trigger] orders@[k] <= 127,
        decreases factors@.len() - i,
    {
        let d = deg(factors[i]);
        assert(1 <= poly_deg(factors@[i as int]));
        orders.push(d as u32);
        proof {
            assert(orders@ =~= factors@.subrange(0, i + 1).map_values(|x: u128| poly_deg(x) as u32));
        }
        i += 1;
    }
    proof {
        assert(factors@.subrange(0, factors@.len() as int) == factors@);
        assert(orders@ == factors@.map_values(|x: u128| poly_deg(x) as u32));
    }
    let sorted = sort_ascending(orders);
    proof {
        assert forall|k: int| 0 <= k < sorted@.len() implies 1 <= #[trigger] sorted@[k] <= 127 by {
            assert(sorted@.contains(sorted@[k]));
            vstd::seq_lib::to_multiset_contains(sorted@, sorted@[k]);
            vstd::seq_lib::to_multiset_contains(orders@, sorted@[k]);
            assert(orders@.contains(sorted@[k]));
        }
    }
    sorted
}

/// The indices, ascending, of the generators whose weight is known and at most `cap`.
pub open spec fn kept_spec(weights: Seq<Option<i32>>, cap: int) -> Seq<usize>
    decreases weights.len(),
{
    if weights.len() == 0 {
        seq![]
    } else {
        let rest = kept_spec(weights.drop_last(), cap);
        let last = (weights.len() - 1) as usize;
        if weights.last() matches Some(w) && w <= cap {
            rest.push(last)
        } else {
            rest
        }
    }
}

/// The kept generators are exactly those of known weight at most `cap`, each once and in
/// increasing order, whatever the weights of the others.
pub proof fn lemma_kept_exactly(weights: Seq<Option<i32>>, cap: int)
    requires
        weights.len() <= usize::MAX,
    ensures
        forall|j: int|
            0 <= j < kept_spec(weights, cap).len() ==> {
                let k = #[trigger] kept_spec(weights, cap)[j];
                &&& k < weights.len()
                &&& weights[k as int] matches Some(w) && w <= cap
            },
        forall|j1: int, j2: int|
            0 <= j1 < j2 < kept_spec(weights, cap).len() ==> #[trigger] kept_spec(weights, cap)[j1]
                < #[trigger] kept_spec(weights, cap)[j2],
        forall|k: int|
            0 <= k < weights.len() && (#[trigger] weights[k] matches Some(w) && w <= cap)
                ==> exists|j: int|
                0 <= j < kept_spec(weights, cap).len() && #[trigger] kept_spec(weights, cap)[j] == k,
    decreases weights.len(),
{
    let r = kept_spec(weights, cap);
    if weights.len() > 0 {
        let init = weights.drop_last();
        let last = weights.len() - 1;
        lemma_kept_exactly(init, cap);
        let r0 = kept_spec(init, cap);
        assert forall|j: int| 0 <= j < r0.len() implies r[j] == r0[j] && r0[j] < last by {}
        assert forall|j: int| 0 <= j < r.len() implies {
            let k = #[trigger] r[j];
            &&& k < weights.len()
            &&& weights[k as int] matches Some(w) && w <= cap
        } by {
            if j < r0.len() {
                assert(init[r0[j] as int] == weights[r0[j] as int]);
            }
        }
        assert forall|j1: int, j2: int| 0 <= j1 < j2 < r.len() implies #[trigger] r[j1]
            < #[trigger] r[j2] by {
            assert(r[j1] == r0[j1]);
            if j2 < r0.len() {
                assert(r[j2] == r0[j2]);
            }
        }
        assert forall|k: int|
            0 <= k < weights.len() && (#[trigger] weights[k] matches Some(w) && w <= cap) implies exists|j: int|
            0 <= j < r.len() && #[trigger] r[j] == k by {
            if k < last {
                assert(init[k] == weights[k]);
                let j = choose|j: int| 0 <= j < r0.len() && #[trigger] r0[j] == k;
                assert(r[j] == r0[j]);
            } else {
                assert(r[r0.len() as int] == k);
            }
        }
    }
}

/// The generators of one bidegree, by index, that the weight-capped coboundary keeps:
/// `weights[idx]` is the weight of generator `idx` (`None` for a weightless generator, which
/// is never kept).
pub fn kept(weights: &Vec<Option<i32>>, cap: i32) -> (r: Vec<usize>)
    ensures
        r@ == kept_spec(weights@, cap as int),
{
    let mut out: Vec<usize> = Vec::new();
    let mut idx: usize = 0;
    while idx < weights.len()
        invariant
            idx <= weights@.len(),
            out@ == kept_spec(weights@.subrange(0, idx as int), cap as int),
        decreases weights@.len() - idx,
    {
        proof {
            let sub = weights@.subrange(0, idx + 1);
            assert(sub.drop_last() == weights@.subrange(0, idx as int));
        }
        match weights[idx] {
            Some(w) => {
                if w <= cap {
                    out.push(idx);
                }
            },
            None => {},
        }
        idx += 1;
    }
    proof {
        assert(weights@.subrange(0, weights@.len() as int) == weights@);
    }
    out
}

/// Some term of `terms` has target generator index `idx`.
pub open spec fn has_target(terms: Seq<(Gen, u32)>, idx: usize) -> bool {
    exists|k: int| 0 <= k < terms.len() && (#[trigger] terms[k]).0.idx == idx
}

fn targets(terms: &Vec<(Gen, u32)>, idx: usize) -> (r: bool)
    ensures
        r == has_target(terms@, idx),
{
    let mut k: usize = 0;
    while k < terms.len()
        invariant
            k <= terms@.len(),
            forall|m: int| 0 <= m < k ==> (#[trigger] terms@[m]).0.idx != idx,
        decreases terms@.len() - k,
    {
        if terms[k].0.idx == idx {
            return true;
        }
        k += 1;
    }
    false
}

/// The matrix of δ between the kept generators `rows` of one filtration and `cols` of the
/// next lower one, over $\mathbb{F}_2$ (τ set to one): entry `(r, c)` is one exactly when δ of
/// generator `rows[r]` has a term on generator `cols[c]`. `deltas[idx]` lists the terms of δ
/// on generator `idx` of the source bidegree.
pub fn capped_matrix(rows: &Vec<usize>, cols: &Vec<usize>, deltas: &Vec<Vec<(Gen, u32)>>) -> (m: Vec<Vec<bool>>)
    requires
        forall|r: int| 0 <= r < rows@.len() ==> #[trigger] rows@[r] < deltas@.len(),
    ensures
        m@.len() == rows@.len(),
        forall|r: int| 0 <= r < rows@.len() ==> (#[trigger] m@[r])@.len() == cols@.len(),
        forall|r: int, c: int|
            0 <= r < rows@.len() && 0 <= c < cols@.len() ==> #[trigger] m@[r]@[c] == has_target(
                deltas@[rows@[r] as int]@,
                cols@[c],
            ),
{
    let mut m: Vec<Vec<bool>> = Vec::new();
    let mut r: usize = 0;
    while r < rows.len()
        invariant
            r <= rows@.len(),
            m@.len() == r,
            forall|k: int| 0 <= k < rows@.len() ==> #[trigger] rows@[k] < deltas@.len(),
            forall|k: int| 0 <= k < r ==> (#[trigger] m@[k])@.len() == cols@.len(),
            forall|k: int, c: int|
                0 <= k < r && 0 <= c < cols@.len() ==> #[trigger] m@[k]@[c] == has_target(
                    deltas@[rows@[k] as int]@,
                    cols@[c],
                ),
        decreases rows@.len() - r,
    {
        let terms = &deltas[rows[r]];
        let mut row: Vec<bool> = Vec::new();
        let mut c: usize = 0;
        while c < cols.len()
            invariant
                c <= cols@.len(),
                row@.len() == c,
                forall|k: int| 0 <= k < c ==> #[trigger] row@[k] == has_target(terms@, cols@[k]),
            decreases cols@.len() - c,
        {
            row.push(targets(terms, cols[c]));
            c += 1;
        }
        m.push(row);
        r += 1;
    }
    m
}

} // verus!
