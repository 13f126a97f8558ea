//! A patch-stack manager layered on a content-addressed version control
//! repository. An ordered series of named patches is maintained on a branch;
//! each patch is realized as a commit, and the stack records which patches
//! are applied, unapplied, or hidden. The stack itself is persisted to a
//! metadata reference whose tip is a stack-state commit.
//!
//! This crate holds the verified core: patch names, the stack-state model
//! and its invariants, the transaction engine, and the decision logic of
//! the `commit` and `refresh` commands. The unverified driver around it
//! performs the actual repository I/O and hands the results back in as
//! plain values.

pub mod cmd;
pub mod error;
pub mod ids;
pub mod patchname;
pub mod stack;
pub mod state;
pub mod statedoc;
pub mod transaction;
