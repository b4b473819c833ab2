//! What a run is asked to do.
use regex::Regex;
use vstd::prelude::*;

verus! {

/// The order in which the files of a batch are numbered.
#[derive(Copy, Clone, Debug, PartialEq, Eq)]
pub enum SortMode {
    /// Sort by created date
    Created,
    /// Sort by modified date
    Modified,
    /// Sort by path (default)
    Path,
}

/// What is done with each file.
#[derive(Copy, Clone, Debug, PartialEq, Eq)]
pub enum ExecutionMode {
    Copy,
    Move,
    Preview,
}

/// The settings of one run.
#[derive(Clone, Debug)]
pub struct Opts {
    /// The template that gives each file its new stem.
    pub template: String,
    /// Files, directories or glob patterns that name the files of the batch.
    pub paths: Vec<String>,
    /// Selects the part of each file stem that filename segments use.
    pub pattern: Option<Regex>,
    /// The running index of the first file.
    pub start: u32,
    pub execution: ExecutionMode,
    pub sort: SortMode,
}

} // verus!
