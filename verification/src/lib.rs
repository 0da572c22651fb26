//! A build tool for projects made of interdependent proof scripts laid out in
//! a directory tree: it models the tree of sources, reads the dependency
//! analyzer's answers into one graph, and orders each directory's files so
//! that every script is compiled after the scripts it needs.

use vstd::prelude::*;

pub mod error;
pub mod text;
pub mod dependencies;
pub mod coqdep;
pub mod package;
pub mod invocation;
pub mod coqc;
pub mod manifest;

verus! {

/// What the tool was asked to do.
#[derive(Debug, PartialEq, Eq, Structural, Clone, Copy)]
pub enum Command {
    /// Compile the project in the current directory.
    Build,
}

} // verus!
