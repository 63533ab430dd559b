use vstd::prelude::*;

pub mod certificates;
pub mod error;
pub mod execution;
pub mod laws;
pub mod plan;
pub mod plan_parser;
pub mod plan_paths;
pub mod sorting;
pub mod store;
pub mod substitution;
pub mod text;
pub mod upload;

verus! {

} // verus!
