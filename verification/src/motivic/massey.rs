//! Motivic products `a·b`, read off the lifted product chain map, and motivic Massey products
//! `⟨a, b, c⟩` as cosets over $\mathbb{F}_2[\tau]$: a representative together with the
//! indeterminacy `a·Ext + Ext·c` it is defined modulo, and whether the coset contains zero,
//! decided by reducing the representative modulo the indeterminacy.
use vstd::prelude::*;
use super::Gen;
use super::f2tau::{
    in_submodule, lemma_zero_remainder_in_submodule, matrix_view, reduce_mod, reduces_to, vxor,
    vzero,
};

verus! {

/// The coefficient at generator index `j` of a list of `(generator, τ-power)` terms: the sum of
/// $\tau^{p}$ over its terms `(g, p)` with `g.idx == j`.
pub open spec fn packed_entry(terms: Seq<(Gen, u32)>, j: int) -> u128
    decreases terms.len(),
{
    if terms.len() == 0 {
        0
    } else {
        let rest = packed_entry(terms.drop_last(), j);
        if terms.last().0.idx == j {
            rest ^ (1u128 << terms.last().1)
        } else {
            rest
        }
    }
}

/// A term list as its coefficient vector over the first `n` generators.
pub open spec fn packed(terms: Seq<(Gen, u32)>, n: nat) -> Seq<u128> {
    Seq::new(n, |j: int| packed_entry(terms, j))
}

/// Each of a list of term lists as its coefficient vector.
pub open spec fn packed_rows(lists: Seq<Vec<(Gen, u32)>>, n: nat) -> Seq<Seq<u128>> {
    Seq::new(lists.len(), |i: int| packed(lists[i]@, n))
}

/// Every term names one of the first `n` generators and a τ-power that a word holds.
pub open spec fn packable(terms: Seq<(Gen, u32)>, n: nat) -> bool {
    forall|i: int| 0 <= i < terms.len() ==> (#[trigger] terms[i]).0.idx < n && terms[i].1 < 128
}

/// A term list as its coefficient vector over the first `ncols` generators, τ-powers as
/// $\mathbb{F}_2[\tau]$ monomials.
pub fn pack_terms(terms: &Vec<(Gen, u32)>, ncols: usize) -> (v: Vec<u128>)
    requires
        packable(terms@, ncols as nat),
    ensures
        v@ == packed(terms@, ncols as nat),
{
    let mut v: Vec<u128> = Vec::new();
    let mut j: usize = 0;
    while j < ncols
        invariant
            j <= ncols,
            v@ == Seq::new(j as nat, |k: int| 0u128),
        decreases ncols - j,
    {
        v.push(0);
        j += 1;
    }
    proof {
        assert(v@ =~= packed(terms@.subrange(0, 0), ncols as nat));
    }
    let mut i: usize = 0;
    while i < terms.len()
        invariant
            i <= terms@.len(),
            packable(terms@, ncols as nat),
            v@ == packed(terms@.subrange(0, i as int), ncols as nat),
        decreases terms@.len() - i,
    {
        let (g, p) = terms[i];
        let ghost old_v = v@;
        let ghost sub = terms@.subrange(0, i + 1);
        proof {
            assert(sub.drop_last() =~= terms@.subrange(0, i as int));
            assert(sub.last() == terms@[i as int]);
            assert(terms@[i as int].0.idx < ncols && terms@[i as int].1 < 128);
        }
        let x = v[g.idx] ^ (1u128 << p);
        v.set(g.idx, x);
        proof {
            assert forall|k: int| 0 <= k < ncols implies #[trigger] v@[k] == packed_entry(sub, k) by {
                if k == g.idx {
                } else {
                    assert(v@[k] == old_v[k]);
                }
            }
            assert(v@ =~= packed(sub, ncols as nat));
        }
        i += 1;
    }
    proof {
        assert(terms@.subrange(0, terms@.len() as int) =~= terms@);
    }
    v
}

/// The terms of the motivic product `a·b` at `(s, t)`: generator `k` of that bidegree, for each
/// `k` that `hits` marks, with τ-power `w(a) + w(b) − weights[k]`.
pub open spec fn product_spec(s: i32, t: i32, hits: Seq<bool>, weights: Seq<i32>, wab: int) -> Seq<
    (Gen, u32),
>
    decreases hits.len(),
{
    if hits.len() == 0 {
        seq![]
    } else {
        let k = hits.len() - 1;
        let rest = product_spec(s, t, hits.drop_last(), weights, wab);
        if hits.last() {
            rest.push((Gen { s, t, idx: k as usize }, (wab - weights[k]) as u32))
        } else {
            rest
        }
    }
}

/// The product's terms are one per marked generator, in the order of the generators: every
/// term names a generator `k` at `(s, t)` that `hits` marks, with τ-power `wab − weights[k]`;
/// the generators of the terms increase; and every marked generator has a term.
pub proof fn lemma_product_terms_listed(
    s: i32,
    t: i32,
    hits: Seq<bool>,
    weights: Seq<i32>,
    wab: int,
)
    requires
        hits.len() <= usize::MAX,
    ensures
        forall|i: int|
            0 <= i < product_spec(s, t, hits, weights, wab).len() ==> {
                let term = #[trigger] product_spec(s, t, hits, weights, wab)[i];
                &&& term.0.idx < hits.len()
                &&& hits[term.0.idx as int]
                &&& term == (
                    Gen { s, t, idx: term.0.idx },
                    (wab - weights[term.0.idx as int]) as u32,
                )
            },
        forall|i1: int, i2: int|
            0 <= i1 < i2 < product_spec(s, t, hits, weights, wab).len() ==> (
            #[trigger] product_spec(s, t, hits, weights, wab)[i1]).0.idx < (
            #[trigger] product_spec(s, t, hits, weights, wab)[i2]).0.idx,
        forall|k: int|
            0 <= k < hits.len() && #[trigger] hits[k] ==> exists|i: int|
                0 <= i < product_spec(s, t, hits, weights, wab).len() && (
                #[trigger] product_spec(s, t, hits, weights, wab)[i]).0.idx == k,
    decreases hits.len(),
{
    let r = product_spec(s, t, hits, weights, wab);
    if hits.len() > 0 {
        let init = hits.drop_last();
        let last = hits.len() - 1;
        lemma_product_terms_listed(s, t, init, weights, wab);
        let r0 = product_spec(s, t, init, weights, wab);
        assert forall|i: int| 0 <= i < r0.len() implies r[i] == r0[i] && r0[i].0.idx < last by {
            let term = r0[i];
            assert(init[term.0.idx as int] == hits[term.0.idx as int]);
        }
        assert forall|i: int| 0 <= i < r.len() implies {
            let term = #[trigger] r[i];
            &&& term.0.idx < hits.len()
            &&& hits[term.0.idx as int]
            &&& term == (Gen { s, t, idx: term.0.idx }, (wab - weights[term.0.idx as int]) as u32)
        } by {
            if i < r0.len() {
                let term = r0[i];
                assert(init[term.0.idx as int] == hits[term.0.idx as int]);
            }
        }
        assert forall|i1: int, i2: int| 0 <= i1 < i2 < r.len() implies (#[trigger] r[i1]).0.idx
            < (#[trigger] r[i2]).0.idx by {
            assert(r[i1] == r0[i1]);
            if i2 < r0.len() {
                assert(r[i2] == r0[i2]);
            }
        }
        assert forall|k: int| 0 <= k < hits.len() && #[trigger] hits[k] implies exists|i: int|
            0 <= i < r.len() && (#[trigger] r[i]).0.idx == k by {
            if k < last {
                assert(init[k] == hits[k]);
                let i = choose|i: int| 0 <= i < r0.len() && (#[trigger] r0[i]).0.idx == k;
                assert(r[i] == r0[i]);
            } else {
                assert(r[r0.len() as int].0.idx == k);
            }
        }
    }
}

/// The motivic product `a·b` of two generators over $\mathbb{F}_2[\tau]$, as
/// `(target generator, τ-power)` terms at `(aₛ+bₛ, aₜ+bₜ)`, read off the lifted product chain
/// map: `hits[k]` says whether the augmentation term `1 ⊗ b` lies in the support of `φₐ(gₖ)`,
/// and `weights[k]` is the weight of `gₖ`, so the term's τ-power is `w(a) + w(b) − w(gₖ)`.
/// Outside the computed box (filtration above `max_s`, stem above `max_n`) the product is
/// uncomputed and reported as zero.
pub fn product_terms(
    a: Gen,
    b: Gen,
    max_s: i32,
    max_n: i32,
    hits: &Vec<bool>,
    weights: &Vec<i32>,
    wa: i32,
    wb: i32,
) -> (r: Vec<(Gen, u32)>)
    requires
        i32::MIN <= a.s + b.s <= i32::MAX,
        i32::MIN <= a.t + b.t <= i32::MAX,
        i32::MIN <= (a.t + b.t) - (a.s + b.s) <= i32::MAX,
        hits@.len() <= weights@.len(),
        forall|k: int|
            0 <= k < hits@.len() && #[trigger] hits@[k] ==> i32::MIN <= wa + wb - weights@[k]
                <= i32::MAX,
    ensures
        a.s + b.s > max_s || (a.t + b.t) - (a.s + b.s) > max_n ==> r@.len() == 0,
        a.s + b.s <= max_s && (a.t + b.t) - (a.s + b.s) <= max_n ==> r@ == product_spec(
            (a.s + b.s) as i32,
            (a.t + b.t) as i32,
            hits@,
            weights@,
            wa + wb,
        ),
{
    let target_s = (a.s as i64 + b.s as i64) as i32;
    let target_t = (a.t as i64 + b.t as i64) as i32;
    if target_s > max_s || (target_t as i64 - target_s as i64) > max_n as i64 {
        return Vec::new();
    }
    let mut out: Vec<(Gen, u32)> = Vec::new();
    let mut k: usize = 0;
    while k < hits.len()
        invariant
            k <= hits@.len() <= weights@.len(),
            forall|m: int|
                0 <= m < hits@.len() && #[trigger] hits@[m] ==> i32::MIN <= wa + wb - weights@[m]
                    <= i32::MAX,
            out@ == product_spec(target_s, target_t, hits@.subrange(0, k as int), weights@, wa + wb),
        decreases hits@.len() - k,
    {
        proof {
            let sub = hits@.subrange(0, k + 1);
            assert(sub.drop_last() == hits@.subrange(0, k as int));
        }
        if hits[k] {
            let power = (wa as i64 + wb as i64 - weights[k] as i64) as i32 as u32;
            out.push((Gen { s: target_s, t: target_t, idx: k }, power));
        }
        k += 1;
    }
    proof {
        assert(hits@.subrange(0, hits@.len() as int) == hits@);
    }
    out
}

/// A motivic Massey product `⟨a, b, c⟩` as a coset in the motivic Ext: its bidegree, a
/// representative, and the $\mathbb{F}_2[\tau]$-module generators of the indeterminacy
/// `a·Ext + Ext·c` it is defined modulo.
pub struct MotivicMassey {
    /// The bracket bidegree, as (stem, filtration): filtration `aₛ+bₛ+cₛ−1`, internal degree
    /// `aₜ+bₜ+cₜ`.
    pub degree: (i32, i32),
    /// A representative, as `(target generator, τ-power)` terms.
    pub representative: Vec<(Gen, u32)>,
    /// $\mathbb{F}_2[\tau]$-module generators of the indeterminacy.
    pub indeterminacy: Vec<Vec<(Gen, u32)>>,
    /// Whether the bracket contains zero: the representative reduces to zero modulo the
    /// indeterminacy submodule (so the bracket is the trivial coset).
    pub is_zero: bool,
}

/// The remainder `rem` of `target` modulo the rows: it differs from `target` by an element of
/// the submodule the rows generate, and division steps against the rows carry `target` to it
/// (see [`reduces_to`]).
pub open spec fn is_remainder(rows: Seq<Seq<u128>>, target: Seq<u128>, rem: Seq<u128>) -> bool {
    &&& rem.len() == target.len()
    &&& in_submodule(rows, vxor(rem, target))
    &&& reduces_to(rows, target, rem)
}

impl MotivicMassey {
    /// The coset of `⟨a, b, c⟩` with the given representative and indeterminacy generators,
    /// whose terms lie among the `ncols` generators of the bracket bidegree. It contains zero
    /// when the representative reduces to zero modulo the indeterminacy over
    /// $\mathbb{F}_2[\tau]$.
    pub fn from_representative(
        a: Gen,
        b: Gen,
        c: Gen,
        representative: Vec<(Gen, u32)>,
        indeterminacy: Vec<Vec<(Gen, u32)>>,
        ncols: usize,
    ) -> (r: Self)
        requires
            i32::MIN <= a.s + b.s + c.s - 1 <= i32::MAX,
            i32::MIN <= a.t + b.t + c.t <= i32::MAX,
            i32::MIN <= (a.t + b.t + c.t) - (a.s + b.s + c.s - 1) <= i32::MAX,
            packable(representative@, ncols as nat),
            forall|i: int|
                0 <= i < indeterminacy@.len() ==> packable(
                    #[trigger] indeterminacy@[i]@,
                    ncols as nat,
                ),
        ensures
            r.degree.0 == (a.t + b.t + c.t) - (a.s + b.s + c.s - 1),
            r.degree.1 == a.s + b.s + c.s - 1,
            r.representative == representative,
            r.indeterminacy == indeterminacy,
            exists|rem: Seq<u128>|
                #[trigger] is_remainder(
                    packed_rows(indeterminacy@, ncols as nat),
                    packed(representative@, ncols as nat),
                    rem,
                ) && (r.is_zero <==> rem == vzero(ncols as nat)),
            r.is_zero ==> in_submodule(
                packed_rows(indeterminacy@, ncols as nat),
                packed(representative@, ncols as nat),
            ),
    {
        let tot_s = (a.s as i64 + b.s as i64 + c.s as i64 - 1) as i32;
        let tot_t = (a.t as i64 + b.t as i64 + c.t as i64) as i32;
        let mut rows: Vec<Vec<u128>> = Vec::new();
        let mut i: usize = 0;
        while i < indeterminacy.len()
            invariant
                i <= indeterminacy@.len(),
                rows@.len() == i,
                forall|k: int|
                    0 <= k < indeterminacy@.len() ==> packable(
                        #[trigger] indeterminacy@[k]@,
                        ncols as nat,
                    ),
                forall|k: int|
                    0 <= k < i ==> (#[trigger] rows@[k])@ == packed(indeterminacy@[k]@, ncols as nat),
            decreases indeterminacy@.len() - i,
        {
            let row = pack_terms(&indeterminacy[i], ncols);
            rows.push(row);
            i += 1;
        }
        let target = pack_terms(&representative, ncols);
        let ghost rows_view = packed_rows(indeterminacy@, ncols as nat);
        proof {
            assert(matrix_view(rows@) =~= rows_view);
            assert(rows_view =~= super::f2tau::cut(rows@, ncols as nat)) by {
                assert forall|k: int| 0 <= k < rows@.len() implies #[trigger] rows_view[k]
                    =~= super::f2tau::cut(rows@, ncols as nat)[k] by {
                    assert(rows@[k]@.subrange(0, ncols as int) =~= rows@[k]@);
                }
            }
        }
        let remainder = reduce_mod(rows, target);
        let mut is_zero = true;
        let mut j: usize = 0;
        while j < remainder.len()
            invariant
                j <= remainder@.len(),
                is_zero <==> forall|k: int| 0 <= k < j ==> #[trigger] remainder@[k] == 0,
            decreases remainder@.len() - j,
        {
            if remainder[j] != 0 {
                is_zero = false;
            }
            j += 1;
        }
        proof {
            let tv = packed(representative@, ncols as nat);
            assert(is_remainder(rows_view, tv, remainder@));
            if is_zero {
                assert(remainder@ =~= vzero(ncols as nat));
                lemma_zero_remainder_in_submodule(rows_view, tv, remainder@);
            } else {
                let k = choose|k: int| 0 <= k < remainder@.len() && remainder@[k] != 0;
                assert(remainder@[k] != vzero(ncols as nat)[k]);
            }
        }
        MotivicMassey { degree: (tot_t - tot_s, tot_s), representative, indeterminacy, is_zero }
    }
}

} // verus!
