//! Finite modules over the rings Z/n, the matrices that represent their
//! morphisms, and the bookkeeping structures used to enumerate them.
use vstd::prelude::*;

pub mod category;
pub mod error;
pub mod matrix;
pub mod ralg;
pub mod rmodule;
pub mod szymczak_category;
pub mod torsion_coeff;
pub mod util;
pub mod zmodule;

verus! {

/// The unsigned integer type in which orders, coefficients and indices are held.
pub type Int = u16;

/// The number of endomorphisms above which the raw Szymczak classes are
/// found for each half apart and then merged.
pub const RECURSION_PARAMETER_SZYMCZAK_FUNCTOR: usize = 100;

} // verus!
