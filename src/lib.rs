use vstd::prelude::*;

pub mod parse;
pub mod dataflow;
pub mod sheet;

verus! {

} // verus!
