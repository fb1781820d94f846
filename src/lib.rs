use vstd::prelude::*;

pub mod aggregate;
pub mod cluster;
pub mod row;
pub mod series;

verus! {

} // verus!
