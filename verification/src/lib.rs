use vstd::prelude::*;

pub mod text;
pub mod conditions;
pub mod config;
pub mod service;
pub mod monitor;

verus! {

} // verus!
