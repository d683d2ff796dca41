//! The switches of a run.

use vstd::prelude::*;

verus! {

/// The switches of a run.
#[derive(Clone, Copy, Debug, PartialEq, Eq, Structural)]
pub struct Config {
    /// Show the arguments of each process in place of its name.
    pub arguments: bool,
    /// Make the threads of each process part of its tree.
    pub threads: bool,
    /// Tell more.
    pub verbose: bool,
}

} // verus!
