use vstd::prelude::*;

pub mod cil;
pub mod text;
pub mod parsers;
pub mod analysis;

verus! {

} // verus!
