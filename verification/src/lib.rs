//! Directory-difference engine: classifies files across directory trees as
//! content-unique or duplicated, by staged grouping on byte length and then
//! on a strong content digest.

pub mod config;
pub mod digest;
pub mod engine;
pub mod errors;
pub mod fileinfo;
pub mod filter;
pub mod laws;
pub mod stats;

use vstd::prelude::*;

verus! {

/// Output format selected for rendering results.
#[derive(Debug, Copy, Clone)]
pub enum PrintFmt {
    Standard,
    Json,
}

/// How much of the result collections is rendered.
pub enum Verbosity {
    Quiet,
    Duplicates,
    All,
}

} // verus!
