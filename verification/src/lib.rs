//! Ext over the Steenrod algebra: the combinatorial and bookkeeping core of the
//! resolution machinery, with machine-checked contracts.

pub mod motivic;
pub mod nassau;
pub mod bytes;
pub mod chain_complex;
pub mod lift;
pub mod module_spec;
pub mod save;
pub mod utils;
