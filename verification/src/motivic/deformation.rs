//! The direction of the deformation (algebraic Novikov / τ-Bockstein) spectral sequence.
use vstd::prelude::*;

verus! {

/// The direction of the **deformation spectral sequence** (the algebraic Novikov
/// / $\tau$-Bockstein SS), trigraded by (stem $n$, Adams filtration $s$, weight
/// $w$). Each $d_r$ carries δ's fixed $(n, s) \mapsto (n+1, s-1)$ shift and jumps the
/// weight by $r$ (the $\tau$-power).
pub struct Deformation;

impl Deformation {
    /// The first page with differentials.
    pub const MIN_R: i32 = 1;

    /// The target of a $d_r$ out of `b`.
    pub fn profile(r: i32, b: [i32; 3]) -> (c: [i32; 3])
        requires
            b[0] < i32::MAX,
            b[1] > i32::MIN,
            i32::MIN <= b[2] + r <= i32::MAX,
        ensures
            c[0] == b[0] + 1,
            c[1] == b[1] - 1,
            c[2] == b[2] + r,
    {
        [b[0] + 1, b[1] - 1, b[2] + r]
    }

    /// The source of a $d_r$ into `b`.
    pub fn profile_inverse(r: i32, b: [i32; 3]) -> (c: [i32; 3])
        requires
            b[0] > i32::MIN,
            b[1] < i32::MAX,
            i32::MIN <= b[2] - r <= i32::MAX,
        ensures
            c[0] == b[0] - 1,
            c[1] == b[1] + 1,
            c[2] == b[2] - r,
    {
        [b[0] - 1, b[1] + 1, b[2] - r]
    }

    /// The length of a differential with this offset: its weight component.
    pub fn differential_length(offset: [i32; 3]) -> (r: i32)
        ensures
            r == offset[2],
    {
        offset[2]
    }
}

/// The source of a $d_r$, in the direction `profile_inverse` gives, taken from its target.
pub open spec fn source_of(r: int, c: (int, int, int)) -> (int, int, int) {
    (c.0 - 1, c.1 + 1, c.2 - r)
}

/// The target of a $d_r$, in the direction `profile` gives.
pub open spec fn target_of(r: int, b: (int, int, int)) -> (int, int, int) {
    (b.0 + 1, b.1 - 1, b.2 + r)
}

/// Following a $d_r$ back from its target returns to its source, and forward from its source
/// to its target.
pub proof fn lemma_profile_round_trip(r: int, b: (int, int, int))
    ensures
        source_of(r, target_of(r, b)) == b,
        target_of(r, source_of(r, b)) == b,
{
}

} // verus!
