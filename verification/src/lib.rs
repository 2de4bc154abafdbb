//! A dotfiles manager's file-virtualization and safe-restore engine.
//!
//! Managed configuration files are relocated into a version-controlled
//! store and replaced at their original locations by symbolic links; a
//! restore puts them back, as links or as copies. The parts that must
//! reason about filesystem state — classifying what to manage, the
//! move-then-link step, the restore decision table, and the scratch area
//! that receives displaced content — are verified here against an explicit
//! model of that state, so that the engine provably never destroys data it
//! did not first move somewhere recoverable. Version control itself and all
//! real input and output stay in the surrounding program.

pub mod classify;
pub mod cmds;
pub mod config;
pub mod engine;
pub mod fs_model;
pub mod laws;
pub mod messages;
pub mod paths;
pub mod resolver;
pub mod scratch;

use vstd::prelude::*;

verus! {

} // verus!
