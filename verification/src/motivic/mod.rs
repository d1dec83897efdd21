//! Motivic Ext as a module over $\mathbb{F}_2[\tau]$.

pub mod cohomology;
pub mod deformation;
pub mod f2tau;
pub mod massey;
pub mod persist;
pub mod tau_lift;
pub mod weights;

use vstd::prelude::*;

verus! {

/// A generator of the resolution: filtration `s`, internal degree `t`, index `idx` in its
/// bidegree.
#[derive(Clone, Copy, PartialEq, Eq, Structural, Debug)]
pub struct Gen {
    pub s: i32,
    pub t: i32,
    pub idx: usize,
}

} // verus!
