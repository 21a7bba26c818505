use vstd::prelude::*;

pub mod text;
pub mod query;
pub mod expansion;
pub mod json;
pub mod table;
pub mod memory;
pub mod error;
pub mod providers;
pub mod retrieval;

verus! {

} // verus!
