//! Process trees of a running system: a tree is put together from a flat
//! listing of processes, threads are hung in as leaves, and a walk over the
//! tree changes or draws every process, one failing process stopping
//! nothing. With it come the validation of process identifiers and of the
//! other values of the command line, and the reading of identifiers from
//! lines of input.

pub mod cli;
pub mod config;
pub mod pid;
pub mod text;
pub mod tree;
pub mod util;
