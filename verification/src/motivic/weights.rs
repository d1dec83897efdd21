//! Weights of generators, and the τ-powers of the coboundary δ that they determine.
//!
//! A basis element of a free module in the resolution decodes as `operation ⊗ generator`;
//! its weight is the operation's weight plus the generator's. Weights propagate up the
//! resolution: a generator's weight is that of every term of its differential, and δ keeps
//! the unit-operation terms of the lifted differential, each with the τ-power by which it
//! raises the weight.
use vstd::prelude::*;
use super::Gen;

verus! {

/// One term `operation ⊗ target` of a differential's value on a generator: the operation's
/// degree and weight, the target generator, and the target's weight where it has one.
#[derive(Clone, Copy, Debug)]
pub struct Term {
    pub op_degree: i32,
    pub op_weight: i32,
    pub target: Gen,
    pub target_weight: Option<i32>,
}

/// The weight a term carries: the operation's plus the target's.
pub open spec fn term_weight(t: Term) -> int {
    t.op_weight + t.target_weight.unwrap()
}

/// Every term whose target has a weight carries the same weight.
pub open spec fn homogeneous(ts: Seq<Term>) -> bool {
    forall|i: int, j: int|
        0 <= i < ts.len() && 0 <= j < ts.len() && ts[i].target_weight is Some
            && ts[j].target_weight is Some ==> term_weight(#[trigger] ts[i]) == term_weight(
            #[trigger] ts[j],
        )
}

/// The weight of a generator from the terms of its differential: the common weight of the
/// terms whose target has a weight, or `None` when no target has one (such a generator gets
/// no weight). Terms of differing weight make the generator weight-inhomogeneous, which a
/// resolution over the motivic Steenrod algebra does not have.
pub fn weight_from_terms(terms: &Vec<Term>) -> (r: Option<i32>)
    requires
        homogeneous(terms@),
        forall|i: int|
            0 <= i < terms@.len() && (#[trigger] terms@[i]).target_weight is Some ==> i32::MIN
                <= term_weight(terms@[i]) <= i32::MAX,
    ensures
        r is None <==> forall|i: int|
            0 <= i < terms@.len() ==> (#[trigger] terms@[i]).target_weight is None,
        r matches Some(w) ==> forall|i: int|
            0 <= i < terms@.len() && (#[trigger] terms@[i]).target_weight is Some ==> term_weight(
                terms@[i],
            ) == w,
{
    let mut weight: Option<i32> = None;
    let mut i: usize = 0;
    while i < terms.len()
        invariant
            i <= terms@.len(),
            homogeneous(terms@),
            forall|k: int|
                0 <= k < terms@.len() && (#[trigger] terms@[k]).target_weight is Some ==> i32::MIN
                    <= term_weight(terms@[k]) <= i32::MAX,
            weight is None <==> forall|k: int|
                0 <= k < i ==> (#[trigger] terms@[k]).target_weight is None,
            weight matches Some(w) ==> exists|k: int|
                0 <= k < i && (#[trigger] terms@[k]).target_weight is Some && term_weight(
                    terms@[k],
                ) == w,
        decreases terms@.len() - i,
    {
        let term = terms[i];
        match term.target_weight {
            Some(tw) => {
                let w = term.op_weight + tw;
                if weight.is_none() {
                    weight = Some(w);
                }
            },
            None => {},
        }
        i += 1;
    }
    proof {
        if let Some(w) = weight {
            let k = choose|k: int|
                0 <= k < i && (#[trigger] terms@[k]).target_weight is Some && term_weight(terms@[k])
                    == w;
            assert forall|j: int|
                0 <= j < terms@.len() && (#[trigger] terms@[j]).target_weight is Some implies term_weight(
                terms@[j],
            ) == w by {
                assert(term_weight(terms@[k]) == term_weight(terms@[j]));
            }
        }
    }
    weight
}

/// The terms of δ on a generator of weight `w`: the unit-operation (degree zero) terms of its
/// lifted differential, in order, each with the τ-power by which it raises the weight.
pub open spec fn delta_spec(w: int, ts: Seq<Term>) -> Seq<(Gen, u32)>
    decreases ts.len(),
{
    if ts.len() == 0 {
        seq![]
    } else {
        let rest = delta_spec(w, ts.drop_last());
        let t = ts.last();
        if t.op_degree == 0 {
            rest.push((t.target, (t.target_weight.unwrap() - w) as u32))
        } else {
            rest
        }
    }
}

/// δ keeps the unit-operation terms, all of them and in order, and drops the others: the
/// returned positions `pos` increase, the `j`-th term of δ is the target of the term at
/// `pos[j]`, a unit-operation term, with τ-power its target's weight less `w`, and every
/// unit-operation term stands at one of those positions.
pub proof fn lemma_delta_selects(w: int, ts: Seq<Term>) -> (pos: Seq<int>)
    ensures
        pos.len() == delta_spec(w, ts).len(),
        forall|j: int|
            0 <= j < pos.len() ==> 0 <= #[trigger] pos[j] < ts.len() && ts[pos[j]].op_degree == 0
                && delta_spec(w, ts)[j] == (
                ts[pos[j]].target,
                (ts[pos[j]].target_weight.unwrap() - w) as u32,
            ),
        forall|j1: int, j2: int| 0 <= j1 < j2 < pos.len() ==> #[trigger] pos[j1] < #[trigger] pos[j2],
        forall|i: int|
            0 <= i < ts.len() && #[trigger] ts[i].op_degree == 0 ==> exists|j: int|
                0 <= j < pos.len() && #[trigger] pos[j] == i,
    decreases ts.len(),
{
    if ts.len() == 0 {
        Seq::empty()
    } else {
        let init = ts.drop_last();
        let last = ts.len() - 1;
        let p0 = lemma_delta_selects(w, init);
        let pos = if ts.last().op_degree == 0 {
            p0.push(last)
        } else {
            p0
        };
        assert forall|j: int| 0 <= j < pos.len() implies 0 <= #[trigger] pos[j] < ts.len()
            && ts[pos[j]].op_degree == 0 && delta_spec(w, ts)[j] == (
            ts[pos[j]].target,
            (ts[pos[j]].target_weight.unwrap() - w) as u32,
        ) by {
            if j < p0.len() {
                assert(pos[j] == p0[j]);
                assert(init[p0[j]] == ts[p0[j]]);
            }
        }
        assert forall|j1: int, j2: int| 0 <= j1 < j2 < pos.len() implies #[trigger] pos[j1]
            < #[trigger] pos[j2] by {
            assert(pos[j1] == p0[j1]);
            if j2 < p0.len() {
                assert(pos[j2] == p0[j2]);
            }
        }
        assert forall|i: int| 0 <= i < ts.len() && #[trigger] ts[i].op_degree == 0 implies exists|j: int|
            0 <= j < pos.len() && #[trigger] pos[j] == i by {
            if i < last {
                assert(init[i] == ts[i]);
                let j = choose|j: int| 0 <= j < p0.len() && #[trigger] p0[j] == i;
                assert(pos[j] == i);
            } else {
                assert(pos[p0.len() as int] == i);
            }
        }
        pos
    }
}

/// A unit-operation term has a target of known weight, at least `w` and less than $2^{32}$
/// above it.
pub open spec fn raises_weight(w: int, t: Term) -> bool {
    t.op_degree == 0 ==> (t.target_weight is Some && w <= t.target_weight.unwrap() && t.target_weight.unwrap() - w <= u32::MAX)
}

/// δ on a generator of weight `weight`, from the terms of its lifted differential. Every
/// unit-operation term has a target of known weight, and δ never lowers the weight.
pub fn delta_terms(weight: i32, terms: &Vec<Term>) -> (r: Vec<(Gen, u32)>)
    requires
        forall|i: int| 0 <= i < terms@.len() ==> raises_weight(weight as int, #[trigger] terms@[i]),
    ensures
        r@ == delta_spec(weight as int, terms@),
{
    let mut out: Vec<(Gen, u32)> = Vec::new();
    let mut i: usize = 0;
    while i < terms.len()
        invariant
            i <= terms@.len(),
            forall|k: int| 0 <= k < terms@.len() ==> raises_weight(weight as int, #[trigger] terms@[k]),
            out@ == delta_spec(weight as int, terms@.subrange(0, i as int)),
        decreases terms@.len() - i,
    {
        let term = terms[i];
        proof {
            let sub = terms@.subrange(0, i + 1);
            assert(sub.drop_last() == terms@.subrange(0, i as int));
            assert(sub.last() == term);
        }
        if term.op_degree == 0 {
            match term.target_weight {
                Some(tw) => {
                    let power = (tw as i64 - weight as i64) as u32;
                    out.push((term.target, power));
                },
                None => {},
            }
        }
        i += 1;
    }
    proof {
        assert(terms@.subrange(0, terms@.len() as int) == terms@);
    }
    out
}

/// The entries of `entries` (pairs of a basis index and that basis element's weight) whose
/// weight is `weight`, in order.
pub open spec fn support_spec(weight: int, entries: Seq<(usize, i32)>) -> Seq<usize>
    decreases entries.len(),
{
    if entries.len() == 0 {
        seq![]
    } else {
        let rest = support_spec(weight, entries.drop_last());
        if entries.last().1 == weight {
            rest.push(entries.last().0)
        } else {
            rest
        }
    }
}

/// The mod-τ support selects the entries of weight `weight`, all of them and in order: the
/// returned positions `pos` increase, the `j`-th index of the support is the index of the
/// entry at `pos[j]`, whose weight is `weight`, and every entry of weight `weight` stands at
/// one of those positions, whatever the weights of the other entries.
pub proof fn lemma_support_selects(weight: int, entries: Seq<(usize, i32)>) -> (pos: Seq<int>)
    ensures
        pos.len() == support_spec(weight, entries).len(),
        forall|j: int|
            0 <= j < pos.len() ==> 0 <= #[trigger] pos[j] < entries.len() && entries[pos[j]].1
                == weight && support_spec(weight, entries)[j] == entries[pos[j]].0,
        forall|j1: int, j2: int| 0 <= j1 < j2 < pos.len() ==> #[trigger] pos[j1] < #[trigger] pos[j2],
        forall|i: int|
            0 <= i < entries.len() && #[trigger] entries[i].1 == weight ==> exists|j: int|
                0 <= j < pos.len() && #[trigger] pos[j] == i,
    decreases entries.len(),
{
    if entries.len() == 0 {
        Seq::empty()
    } else {
        let init = entries.drop_last();
        let last = entries.len() - 1;
        let p0 = lemma_support_selects(weight, init);
        let rest = support_spec(weight, init);
        let pos = if entries.last().1 == weight {
            p0.push(last)
        } else {
            p0
        };
        assert forall|j: int| 0 <= j < pos.len() implies 0 <= #[trigger] pos[j] < entries.len()
            && entries[pos[j]].1 == weight && support_spec(weight, entries)[j] == entries[pos[j]].0 by {
            if j < p0.len() {
                assert(pos[j] == p0[j]);
                assert(init[p0[j]] == entries[p0[j]]);
            }
        }
        assert forall|j1: int, j2: int| 0 <= j1 < j2 < pos.len() implies #[trigger] pos[j1]
            < #[trigger] pos[j2] by {
            assert(pos[j1] == p0[j1]);
            if j2 < p0.len() {
                assert(pos[j2] == p0[j2]);
            }
        }
        assert forall|i: int| 0 <= i < entries.len() && #[trigger] entries[i].1 == weight implies exists|j: int|
            0 <= j < pos.len() && #[trigger] pos[j] == i by {
            if i < last {
                assert(init[i] == entries[i]);
                let j = choose|j: int| 0 <= j < p0.len() && #[trigger] p0[j] == i;
                assert(pos[j] == i);
            } else {
                assert(pos[p0.len() as int] == i);
            }
        }
        pos
    }
}

/// The mod-τ support of a lifted differential on a generator of weight `weight`: the basis
/// elements of its value (each given with its weight) whose weight equals the generator's, that
/// is, those with no τ in front.
pub fn mod_tau_support(weight: i32, entries: &Vec<(usize, i32)>) -> (r: Vec<usize>)
    ensures
        r@ == support_spec(weight as int, entries@),
{
    let mut out: Vec<usize> = Vec::new();
    let mut i: usize = 0;
    while i < entries.len()
        invariant
            i <= entries@.len(),
            out@ == support_spec(weight as int, entries@.subrange(0, i as int)),
        decreases entries@.len() - i,
    {
        let (bidx, w) = entries[i];
        proof {
            let sub = entries@.subrange(0, i + 1);
            assert(sub.drop_last() == entries@.subrange(0, i as int));
            assert(sub.last() == entries@[i as int]);
        }
        if w == weight {
            out.push(bidx);
        }
        i += 1;
    }
    proof {
        assert(entries@.subrange(0, entries@.len() as int) == entries@);
    }
    out
}

} // verus!
