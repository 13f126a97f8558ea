//! The commands and their decision logic. Argument vectors are parsed by
//! the driver; the rules that govern them — which options exclude each
//! other, which patches a selection denotes, what a refresh may touch —
//! live here.

use vstd::prelude::*;

pub mod commit;
pub mod refresh;

verus! {

/// Where a command sits in the command listing.
#[derive(Clone, Copy, Debug, PartialEq, Eq, Structural)]
pub enum CommandCategory {
    StackManipulation,
    PatchManipulation,
}

/// A command's name and category.
#[derive(Debug)]
pub struct CommandInfo {
    pub name: String,
    pub category: CommandCategory,
}

} // verus!
