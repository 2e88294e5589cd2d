use vstd::prelude::*;

pub mod certify;
pub mod collections;
pub mod form;
pub mod freezing;
pub mod fst_inclusion;
pub mod grammar;
pub mod layers;
pub mod maintenance;
pub mod evaluator;
pub mod meaning;
pub mod engine;
pub mod store;
pub mod synthesis;
pub mod text;
pub mod utils;

verus! {





} // verus!
