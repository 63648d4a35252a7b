//! Reconciles a server's working directory with a list of file-producing
//! operations, and computes which files of an earlier run have gone stale.

pub mod state;
pub mod doc;
pub mod env;
pub mod prune;
pub mod linker;
