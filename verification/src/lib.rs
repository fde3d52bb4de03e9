//! Verified core of a terminal-scenario test runner.
use vstd::prelude::*;

pub mod acquire;
pub mod claim;
pub mod digest;
pub mod error;
pub mod expand;
pub mod facts;
pub mod identity;
pub mod json;
pub mod lognames;
pub mod logwriter;
pub mod mask;
pub mod pair_table;
pub mod path;
pub mod rawpath;
pub mod report;
pub mod resolve;
pub mod runner;
pub mod safepath;
pub mod scenario;
pub mod snapshot;
pub mod string_map;
pub mod text;
pub mod workspace;

verus! {

} // verus!
