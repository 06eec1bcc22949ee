use vstd::prelude::*;

pub mod combinatorics;
pub mod matrix;
pub mod vector;

verus! {

} // verus!
