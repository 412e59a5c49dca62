use vstd::prelude::*;

pub mod board;
pub mod search;

verus! {

} // verus!
