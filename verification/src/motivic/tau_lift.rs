//! The decisions of the τ-adic lift of one cell.
//!
//! A map given over the mod-τ algebra is lifted to one over $\mathbb{F}_2[\tau]$ by
//! cancelling its τ-divisible defect one weight-order at a time. The defect is a vector over
//! the basis of the defect module (`true` where a basis element survives), each basis element
//! carrying a weight; its τ-order is that weight less the source's. Each round takes the error
//! at the lowest surviving order, has it solved outside (by the mod-τ quasi-inverse of the
//! target complex), and toggles the correction into the support. This module holds those
//! decisions; computing the defect and solving are done by the caller.
use vstd::prelude::*;
use std::collections::BTreeSet;

verus! {

/// The most rounds of correction a cell is given before its partial lift is kept.
pub const LIFT_ROUNDS: u32 = 256;

/// The τ-order of defect basis element `f`: its weight less the source weight.
pub open spec fn order_of(weights: Seq<i32>, source_weight: int, f: int) -> int {
    weights[f] - source_weight
}

/// The lowest τ-order among the surviving error terms, with the error at that order: `None`
/// when the defect is cancelled. Every surviving term has order at least one, which holds
/// whenever the mod-τ map is a complex (its mod-τ defect vanishes).
pub fn lowest_order_error(parity: &Vec<bool>, defect_weights: &Vec<i32>, source_weight: i32) -> (r:
    Option<(i32, Vec<bool>)>)
    requires
        parity@.len() == defect_weights@.len(),
        forall|f: int|
            0 <= f < parity@.len() && #[trigger] parity@[f] ==> 1 <= order_of(
                defect_weights@,
                source_weight as int,
                f,
            ) <= i32::MAX,
    ensures
        r is None <==> forall|f: int| 0 <= f < parity@.len() ==> !#[trigger] parity@[f],
        r matches Some((order, error)) ==> {
            &&& exists|f: int|
                0 <= f < parity@.len() && #[trigger] parity@[f] && order_of(
                    defect_weights@,
                    source_weight as int,
                    f,
                ) == order
            &&& forall|f: int|
                0 <= f < parity@.len() && #[trigger] parity@[f] ==> order <= order_of(
                    defect_weights@,
                    source_weight as int,
                    f,
                )
            &&& error@.len() == parity@.len()
            &&& forall|f: int|
                0 <= f < parity@.len() ==> #[trigger] error@[f] == (parity@[f] && order_of(
                    defect_weights@,
                    source_weight as int,
                    f,
                ) == order)
        },
{
    let n = parity.len();
    let mut best: Option<i32> = None;
    let mut f: usize = 0;
    while f < n
        invariant
            n == parity@.len() == defect_weights@.len(),
            f <= n,
            forall|k: int|
                0 <= k < n && #[trigger] parity@[k] ==> 1 <= order_of(
                    defect_weights@,
                    source_weight as int,
                    k,
                ) <= i32::MAX,
            best is None <==> forall|k: int| 0 <= k < f ==> !#[trigger] parity@[k],
            best matches Some(o) ==> (exists|k: int|
                0 <= k < f && #[trigger] parity@[k] && order_of(
                    defect_weights@,
                    source_weight as int,
                    k,
                ) == o) && (forall|k: int|
                0 <= k < f && #[trigger] parity@[k] ==> o <= order_of(
                    defect_weights@,
                    source_weight as int,
                    k,
                )),
        decreases n - f,
    {
        if parity[f] {
            let o = (defect_weights[f] as i64 - source_weight as i64) as i32;
            let better = match best {
                None => true,
                Some(b) => o < b,
            };
            if better {
                best = Some(o);
            }
        }
        f += 1;
    }
    match best {
        None => None,
        Some(order) => {
            let mut error: Vec<bool> = Vec::new();
            let mut k: usize = 0;
            while k < n
                invariant
                    n == parity@.len() == defect_weights@.len(),
                    k <= n,
                    error@.len() == k,
                    forall|m: int|
                        0 <= m < n && #[trigger] parity@[m] ==> 1 <= order_of(
                            defect_weights@,
                            source_weight as int,
                            m,
                        ) <= i32::MAX,
                    forall|m: int|
                        0 <= m < k ==> #[trigger] error@[m] == (parity@[m] && order_of(
                            defect_weights@,
                            source_weight as int,
                            m,
                        ) == order),
                decreases n - k,
            {
                let hit = parity[k] && (defect_weights[k] as i64 - source_weight as i64) == order as i64;
                error.push(hit);
                k += 1;
            }
            Some((order, error))
        },
    }
}

/// Whether `x` belongs to the support after toggling in the correction `c`: it was in the
/// support, or the correction has it, but not both.
pub open spec fn toggled(support: Set<usize>, c: Seq<bool>, x: usize) -> bool {
    support.contains(x) != (x < c.len() && c[x as int])
}

/// Toggle the correction `c` (a vector over the output module's basis) into the support: each
/// index that `c` has leaves the support if it was there and joins it otherwise.
pub fn toggle_support(support: &mut BTreeSet<usize>, c: &Vec<bool>)
    ensures
        forall|x: usize| #[trigger] final(support)@.contains(x) <==> toggled(old(support)@, c@, x),
{
    broadcast use vstd::std_specs::btree::group_btree_axioms;
    let ghost s0 = support@;
    let mut i: usize = 0;
    while i < c.len()
        invariant
            i <= c@.len(),
            forall|x: usize| #[trigger] support@.contains(x) <==> (s0.contains(x) != (x < i && c@[x as int])),
        decreases c@.len() - i,
    {
        if c[i] {
            let fresh = support.insert(i);
            if !fresh {
                support.remove(&i);
            }
        }
        i += 1;
    }
}

/// What the lift of a cell does next.
pub enum LiftAction {
    /// Stop: the support is the lift (or, past the round cap, the partial lift that is kept).
    Finish,
    /// Have `d̄(c) = error` solved for a correction `c` cancelling the defect at τ-order `order`.
    Solve { order: i32, error: Vec<bool> },
}

/// The state of the lift of one cell: the support so far, as a set of basis indices of the
/// output module, and the number of corrections made.
pub struct CellLift {
    pub support: BTreeSet<usize>,
    pub rounds: u32,
}

impl CellLift {
    /// The rounds stay within the cap.
    pub open spec fn wf(&self) -> bool {
        self.rounds <= LIFT_ROUNDS
    }

    /// Start from the mod-τ seed.
    pub fn new(seed: BTreeSet<usize>) -> (l: Self)
        ensures
            l.wf(),
            l.support == seed,
            l.rounds == 0,
    {
        CellLift { support: seed, rounds: 0 }
    }

    /// The next step, given the current defect: finish when it is cancelled or the rounds are
    /// spent, else solve at its lowest τ-order.
    pub fn next_action(&self, parity: &Vec<bool>, defect_weights: &Vec<i32>, source_weight: i32) -> (a:
        LiftAction)
        requires
            parity@.len() == defect_weights@.len(),
            forall|f: int|
                0 <= f < parity@.len() && #[trigger] parity@[f] ==> 1 <= order_of(
                    defect_weights@,
                    source_weight as int,
                    f,
                ) <= i32::MAX,
        ensures
            (a is Finish) <==> (self.rounds >= LIFT_ROUNDS || forall|f: int|
                0 <= f < parity@.len() ==> !#[trigger] parity@[f]),
            a matches LiftAction::Solve { order, error } ==> {
                &&& forall|f: int|
                    0 <= f < parity@.len() && #[trigger] parity@[f] ==> order <= order_of(
                        defect_weights@,
                        source_weight as int,
                        f,
                    )
                &&& exists|f: int|
                    0 <= f < parity@.len() && #[trigger] parity@[f] && order_of(
                        defect_weights@,
                        source_weight as int,
                        f,
                    ) == order
                &&& error@.len() == parity@.len()
                &&& forall|f: int|
                    0 <= f < parity@.len() ==> #[trigger] error@[f] == (parity@[f] && order_of(
                        defect_weights@,
                        source_weight as int,
                        f,
                    ) == order)
            },
    {
        if self.rounds >= LIFT_ROUNDS {
            return LiftAction::Finish;
        }
        match lowest_order_error(parity, defect_weights, source_weight) {
            None => LiftAction::Finish,
            Some((order, error)) => LiftAction::Solve { order, error },
        }
    }

    /// Toggle a solved correction into the support: one round more.
    pub fn apply_correction(&mut self, c: &Vec<bool>)
        requires
            old(self).wf(),
            old(self).rounds < LIFT_ROUNDS,
        ensures
            final(self).wf(),
            final(self).rounds == old(self).rounds + 1,
            forall|x: usize| #[trigger] final(self).support@.contains(x) <==> toggled(
                old(self).support@,
                c@,
                x,
            ),
    {
        toggle_support(&mut self.support, c);
        self.rounds = self.rounds + 1;
    }
}

} // verus!
