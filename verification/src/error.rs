//! The error surface of the stack manager.
//!
//! Every failure a verified function can report is a variant here; the
//! driver renders them with [`Error::message`]. Underlying store failures
//! that the driver observes are carried through as [`Error::Vcs`] with a
//! short description.

use vstd::prelude::*;
use vstd::string::StringExecFns;

verus! {

/// Everything that can go wrong in the stack core.
#[derive(Debug)]
pub enum Error {
    /// A string does not satisfy the patch-name grammar.
    InvalidPatchName(String),
    /// A patch with this name already exists in the stack.
    PatchNameExists(String),
    /// A patch with this name does not exist in the stack.
    PatchNotFound(String),
    /// The stack has no applied patches, but one was needed.
    NoAppliedPatches,
    /// HEAD is detached, so there is no branch to bind a stack to.
    HeadDetached,
    /// HEAD points at something that is not a branch; carries the ref name.
    HeadNotBranch(String),
    /// No local branch has this name.
    BranchNotFound(String),
    /// The branch name is not well formed.
    InvalidBranchName(String),
    /// The branch name is not valid UTF-8; carries a lossy rendering.
    NonUtf8BranchName(String),
    /// The branch has no stack metadata reference yet.
    StackNotInitialized(String),
    /// The branch already has a stack metadata reference.
    StackAlreadyInitialized(String),
    /// The metadata reference exists but its state could not be found.
    StackMetadataNotFound,
    /// The branch tip and the recorded stack head disagree.
    StackTopHeadMismatch,
    /// Conflicts are outstanding in the index.
    OutstandingConflicts,
    /// The index has staged changes where none were allowed.
    DirtyIndex,
    /// The worktree has changes where none were allowed.
    DirtyWorktree,
    /// Both the index and the worktree are dirty and no override was given.
    DirtyIndexAndWorktree,
    /// The repository is in the middle of an operation; carries its name.
    ActiveRepositoryState(String),
    /// Selected patches are empty and no override was given; carries their
    /// names in stack order.
    CommitEmptyPatches(Vec<String>),
    /// Fewer applied patches exist than were asked for; carries the count
    /// that was requested.
    NotEnoughAppliedPatches(u64),
    /// Two options that exclude each other were both given.
    ConflictingOptions(String, String),
    /// The transaction could not record its new state; all user-visible
    /// references are unchanged.
    Transaction,
    /// A failure reported by the underlying version-control store.
    Vcs(String),
}

/// The diagnostic text of an error.
pub open spec fn spec_message(e: Error) -> Seq<char> {
    match e {
        Error::InvalidPatchName(t) => "invalid patch name `"@ + t@ + "`"@,
        Error::PatchNameExists(t) => "patch `"@ + t@ + "` already exists"@,
        Error::PatchNotFound(t) => "patch `"@ + t@ + "` does not exist"@,
        Error::NoAppliedPatches => "no patches applied"@,
        Error::HeadDetached => "not on branch, HEAD is detached"@,
        Error::HeadNotBranch(t) => "not on branch, HEAD points at `"@ + t@ + "`"@,
        Error::BranchNotFound(t) => "branch `"@ + t@ + "` not found"@,
        Error::InvalidBranchName(t) => "invalid branch name `"@ + t@ + "`"@,
        Error::NonUtf8BranchName(t) => "non-UTF-8 branch name `"@ + t@ + "`"@,
        Error::StackNotInitialized(t) => "branch `"@ + t@ + "` not initialized"@,
        Error::StackAlreadyInitialized(t) => "branch `"@ + t@ + "` already initialized"@,
        Error::StackMetadataNotFound => "stack metadata not found"@,
        Error::StackTopHeadMismatch =>
            "HEAD and stack top are not the same. This can happen if you modify the branch with git."@,
        Error::OutstandingConflicts => "resolve outstanding conflicts first"@,
        Error::DirtyIndex => "Index not clean. Use `refresh` or `reset --hard`"@,
        Error::DirtyWorktree => "Worktree not clean. Use `refresh` or `reset --hard`"@,
        Error::DirtyIndexAndWorktree => "The index is dirty; consider using `--index` or `--force`"@,
        Error::ActiveRepositoryState(t) => "Complete the in-progress `"@ + t@
            + "` before trying again."@,
        Error::CommitEmptyPatches(ns) => if ns@.len() == 1 {
            "Attempt to commit empty patch `"@ + ns@[0]@ + "`; use --allow-empty to override"@
        } else {
            "Attempt to commit "@ + crate::patchname::dec_digits(ns@.len())
                + " empty patches; use `--allow-empty` to override"@
        },
        Error::NotEnoughAppliedPatches(n) => "There are not `"@ + crate::patchname::dec_digits(
            n as nat,
        ) + "` applied patches to commit"@,
        Error::ConflictingOptions(a, b) => "`"@ + a@ + "` cannot be used with `"@ + b@ + "`"@,
        Error::Transaction => "Command aborted (all changes rolled back)"@,
        Error::Vcs(t) => t@,
    }
}

impl Error {
    /// The diagnostic text of this error, exactly [`spec_message`].
    pub fn message(&self) -> (r: String)
        ensures
            r@ == spec_message(*self),
    {
        match self {
            Error::InvalidPatchName(t) => text("invalid patch name `").concat(t.as_str()).concat(
                "`",
            ),
            Error::PatchNameExists(t) => text("patch `").concat(t.as_str()).concat(
                "` already exists",
            ),
            Error::PatchNotFound(t) => text("patch `").concat(t.as_str()).concat(
                "` does not exist",
            ),
            Error::NoAppliedPatches => text("no patches applied"),
            Error::HeadDetached => text("not on branch, HEAD is detached"),
            Error::HeadNotBranch(t) => text("not on branch, HEAD points at `").concat(
                t.as_str(),
            ).concat("`"),
            Error::BranchNotFound(t) => text("branch `").concat(t.as_str()).concat("` not found"),
            Error::InvalidBranchName(t) => text("invalid branch name `").concat(t.as_str()).concat(
                "`",
            ),
            Error::NonUtf8BranchName(t) => text("non-UTF-8 branch name `").concat(
                t.as_str(),
            ).concat("`"),
            Error::StackNotInitialized(t) => text("branch `").concat(t.as_str()).concat(
                "` not initialized",
            ),
            Error::StackAlreadyInitialized(t) => text("branch `").concat(t.as_str()).concat(
                "` already initialized",
            ),
            Error::StackMetadataNotFound => text("stack metadata not found"),
            Error::StackTopHeadMismatch => text(
                "HEAD and stack top are not the same. This can happen if you modify the branch with git.",
            ),
            Error::OutstandingConflicts => text("resolve outstanding conflicts first"),
            Error::DirtyIndex => text("Index not clean. Use `refresh` or `reset --hard`"),
            Error::DirtyWorktree => text("Worktree not clean. Use `refresh` or `reset --hard`"),
            Error::DirtyIndexAndWorktree => text(
                "The index is dirty; consider using `--index` or `--force`",
            ),
            Error::ActiveRepositoryState(t) => text("Complete the in-progress `").concat(
                t.as_str(),
            ).concat("` before trying again."),
            Error::CommitEmptyPatches(ns) => {
                if ns.len() == 1 {
                    text("Attempt to commit empty patch `").concat(ns[0].as_str()).concat(
                        "`; use --allow-empty to override",
                    )
                } else {
                    let count = crate::patchname::u64_text(ns.len() as u64);
                    text("Attempt to commit ").concat(count.as_str()).concat(
                        " empty patches; use `--allow-empty` to override",
                    )
                }
            },
            Error::NotEnoughAppliedPatches(n) => {
                let count = crate::patchname::u64_text(*n);
                text("There are not `").concat(count.as_str()).concat(
                    "` applied patches to commit",
                )
            },
            Error::ConflictingOptions(a, b) => text("`").concat(a.as_str()).concat(
                "` cannot be used with `",
            ).concat(b.as_str()).concat("`"),
            Error::Transaction => text("Command aborted (all changes rolled back)"),
            Error::Vcs(t) => t.clone(),
        }
    }
}

/// An owned copy of a literal.
fn text(s: &str) -> (r: String)
    ensures
        r@ == s@,
{
    <String as StringExecFns>::from_str(s)
}

} // verus!
