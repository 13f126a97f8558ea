//! Binding a stack to a branch.
//!
//! A stack is persisted under a metadata reference named after the
//! branch's short name; the reference's tip is the latest stack-state
//! commit. The driver resolves branches, reads references and statuses,
//! and hands the outcomes in as plain values; the decisions — which branch
//! the stack binds to, whether it may be initialized or loaded, and
//! whether the working copy is in a fit state — are made here.

use vstd::prelude::*;
use vstd::string::StringExecFns;
use vstd::utf8::{decode_utf8, valid_utf8};

use crate::error::Error;
use crate::ids::Oid;
use crate::patchname::PatchName;
use crate::state::{spec_new_state, state_wf, StackState, StackView};

verus! {

/// The name of the metadata reference that records a branch's stack.
pub fn state_refname_from_branch_name(branch_shorthand: &str) -> (r: String)
    ensures
        r@ == "refs/stacks/"@ + branch_shorthand@,
{
    let s = <String as StringExecFns>::from_str("refs/stacks/");
    s.concat(branch_shorthand)
}

/// The modes the repository's working copy can be in; only `Clean` is
/// always acceptable for stack operations.
#[derive(Clone, Copy, Debug, PartialEq, Eq, Structural)]
pub enum RepositoryMode {
    Clean,
    Merge,
    Revert,
    RevertSequence,
    CherryPick,
    CherryPickSequence,
    Bisect,
    Rebase,
    RebaseInteractive,
    RebaseMerge,
    ApplyMailbox,
    ApplyMailboxOrRebase,
}

/// The user-facing name of a repository mode.
pub open spec fn mode_text(mode: RepositoryMode) -> Seq<char> {
    match mode {
        RepositoryMode::Clean => "clean"@,
        RepositoryMode::Merge => "merge"@,
        RepositoryMode::Revert => "revert"@,
        RepositoryMode::RevertSequence => "revert"@,
        RepositoryMode::CherryPick => "cherry-pick"@,
        RepositoryMode::CherryPickSequence => "cherry-pick"@,
        RepositoryMode::Bisect => "bisect"@,
        RepositoryMode::Rebase => "rebase"@,
        RepositoryMode::RebaseInteractive => "interactive rebase"@,
        RepositoryMode::RebaseMerge => "rebase merge"@,
        RepositoryMode::ApplyMailbox => "apply mailbox"@,
        RepositoryMode::ApplyMailboxOrRebase => "rebase or apply mailbox"@,
    }
}

/// The user-facing name of a repository mode.
pub fn repo_state_to_str(mode: RepositoryMode) -> (r: String)
    ensures
        r@ == mode_text(mode),
{
    match mode {
        RepositoryMode::Clean => <String as StringExecFns>::from_str("clean"),
        RepositoryMode::Merge => <String as StringExecFns>::from_str("merge"),
        RepositoryMode::Revert => <String as StringExecFns>::from_str("revert"),
        RepositoryMode::RevertSequence => <String as StringExecFns>::from_str("revert"),
        RepositoryMode::CherryPick => <String as StringExecFns>::from_str("cherry-pick"),
        RepositoryMode::CherryPickSequence => <String as StringExecFns>::from_str("cherry-pick"),
        RepositoryMode::Bisect => <String as StringExecFns>::from_str("bisect"),
        RepositoryMode::Rebase => <String as StringExecFns>::from_str("rebase"),
        RepositoryMode::RebaseInteractive => <String as StringExecFns>::from_str(
            "interactive rebase",
        ),
        RepositoryMode::RebaseMerge => <String as StringExecFns>::from_str("rebase merge"),
        RepositoryMode::ApplyMailbox => <String as StringExecFns>::from_str("apply mailbox"),
        RepositoryMode::ApplyMailboxOrRebase => <String as StringExecFns>::from_str(
            "rebase or apply mailbox",
        ),
    }
}

/// What the driver's lookup of an explicitly named branch found.
#[derive(Debug)]
pub enum BranchLookup {
    /// A local branch of that name exists.
    Found,
    /// No local branch has that name.
    NotFound,
    /// The name is not a well-formed reference name.
    InvalidSpec,
    /// The lookup failed for another reason, described here.
    Failed(String),
}

/// What the driver read of the repository's HEAD.
#[derive(Debug)]
pub struct HeadInfo {
    /// HEAD is detached.
    pub detached: bool,
    /// HEAD points at a branch.
    pub is_branch: bool,
    /// The short name of what HEAD points at, as raw bytes.
    pub name_bytes: Vec<u8>,
}

/// A lossy textual rendering of possibly non-UTF-8 bytes, as
/// `String::from_utf8_lossy` produces it.
pub uninterp spec fn lossy_text(bytes: Seq<u8>) -> Seq<char>;

/// Relies on `String::from_utf8_lossy`: the rendering depends on the
/// bytes alone, and valid UTF-8 is rendered as itself.
#[verifier::external_body]
fn bytes_to_string_lossy(bytes: &Vec<u8>) -> (r: String)
    ensures
        r@ == lossy_text(bytes@),
        valid_utf8(bytes@) ==> r@ == decode_utf8(bytes@),
{
    String::from_utf8_lossy(bytes.as_slice()).to_string()
}

/// Relies on `core::str::from_utf8`: it succeeds exactly on valid UTF-8
/// and decodes it.
#[verifier::external_body]
pub(crate) fn bytes_to_string(bytes: &Vec<u8>) -> (r: Option<String>)
    ensures
        match r {
            Some(s) => valid_utf8(bytes@) && s@ == decode_utf8(bytes@),
            None => !valid_utf8(bytes@),
        },
{
    match core::str::from_utf8(bytes.as_slice()) {
        Ok(s) => Some(s.to_string()),
        Err(_) => None,
    }
}

/// The branch name spelled by raw bytes; non-UTF-8 names are rejected
/// with a lossy rendering in the error.
pub fn get_branch_name(name_bytes: &Vec<u8>) -> (r: Result<String, Error>)
    ensures
        match r {
            Ok(s) => valid_utf8(name_bytes@) && s@ == decode_utf8(name_bytes@),
            Err(e) => {
                &&& !valid_utf8(name_bytes@)
                &&& e matches Error::NonUtf8BranchName(t) && t@ == lossy_text(name_bytes@)
            },
        },
{
    match bytes_to_string(name_bytes) {
        Some(s) => Ok(s),
        None => Err(Error::NonUtf8BranchName(bytes_to_string_lossy(name_bytes))),
    }
}

/// Decide which branch a stack operation binds to: the explicitly named
/// branch when one was requested (with the driver's lookup outcome mapped
/// to the precise error), else the branch HEAD points at — failing when
/// HEAD is detached or not on a branch.
pub fn get_branch(
    requested: Option<&String>,
    lookup: &BranchLookup,
    head: &HeadInfo,
) -> (r: Result<String, Error>)
    ensures
        match requested {
            Some(name) => match r {
                Ok(s) => lookup matches BranchLookup::Found && s@ == name@,
                Err(e) => match e {
                    Error::BranchNotFound(t) => lookup matches BranchLookup::NotFound && t@
                        == name@,
                    Error::InvalidBranchName(t) => lookup matches BranchLookup::InvalidSpec && t@
                        == name@,
                    Error::Vcs(t) => lookup matches BranchLookup::Failed(m) && t@ == m@,
                    _ => false,
                },
            },
            None => match r {
                Ok(s) => {
                    &&& !head.detached
                    &&& head.is_branch
                    &&& valid_utf8(head.name_bytes@)
                    &&& s@ == decode_utf8(head.name_bytes@)
                },
                Err(e) => match e {
                    Error::HeadDetached => head.detached,
                    Error::HeadNotBranch(t) => !head.detached && !head.is_branch && t@
                        == lossy_text(head.name_bytes@),
                    Error::NonUtf8BranchName(t) => {
                        &&& !head.detached
                        &&& head.is_branch
                        &&& !valid_utf8(head.name_bytes@)
                        &&& t@ == lossy_text(head.name_bytes@)
                    },
                    _ => false,
                },
            },
        },
{
    match requested {
        Some(name) => match lookup {
            BranchLookup::Found => Ok(name.clone()),
            BranchLookup::NotFound => Err(Error::BranchNotFound(name.clone())),
            BranchLookup::InvalidSpec => Err(Error::InvalidBranchName(name.clone())),
            BranchLookup::Failed(m) => Err(Error::Vcs(m.clone())),
        },
        None => {
            if head.detached {
                Err(Error::HeadDetached)
            } else if !head.is_branch {
                Err(Error::HeadNotBranch(bytes_to_string_lossy(&head.name_bytes)))
            } else {
                get_branch_name(&head.name_bytes)
            }
        },
    }
}

/// A stack bound to a branch: the branch's name, the name of the stack's
/// metadata reference, the branch tip the driver observed, and the loaded
/// snapshot.
#[derive(Debug)]
pub struct Stack {
    pub branch_name: String,
    pub state_refname: String,
    pub branch_head: Oid,
    pub state: StackState,
}

impl Stack {
    /// Bind a brand-new stack to a branch: the stack starts empty at the
    /// current branch tip. Fails exactly when the metadata reference
    /// already exists. The driver then writes the initial state commit at
    /// the returned stack's reference name.
    pub fn initialize(branch_name: String, state_ref_exists: bool, head: Oid) -> (r: Result<
        Stack,
        Error,
    >)
        ensures
            match r {
                Ok(st) => {
                    &&& !state_ref_exists
                    &&& st.branch_name@ == branch_name@
                    &&& st.state_refname@ == "refs/stacks/"@ + branch_name@
                    &&& st.branch_head == head
                    &&& st.state@ =~= spec_new_state(head)
                },
                Err(e) => {
                    &&& state_ref_exists
                    &&& e matches Error::StackAlreadyInitialized(t) && t@ == branch_name@
                },
            },
    {
        if state_ref_exists {
            return Err(Error::StackAlreadyInitialized(branch_name));
        }
        let state_refname = state_refname_from_branch_name(branch_name.as_str());
        Ok(Stack { branch_name, state_refname, branch_head: head, state: StackState::new(head) })
    }

    /// Bind to the existing stack of a branch. Fails exactly when the
    /// branch has no stack metadata reference (nothing was loaded).
    pub fn from_branch(branch_name: String, loaded: Option<StackState>, branch_head: Oid) -> (r:
        Result<Stack, Error>)
        ensures
            match r {
                Ok(st) => {
                    &&& loaded matches Some(s) && st.state@ == s@
                    &&& st.branch_name@ == branch_name@
                    &&& st.state_refname@ == "refs/stacks/"@ + branch_name@
                    &&& st.branch_head == branch_head
                },
                Err(e) => {
                    &&& loaded is None
                    &&& e matches Error::StackNotInitialized(t) && t@ == branch_name@
                },
            },
    {
        match loaded {
            Some(state) => {
                let state_refname = state_refname_from_branch_name(branch_name.as_str());
                Ok(Stack { branch_name, state_refname, branch_head, state })
            },
            None => Err(Error::StackNotInitialized(branch_name)),
        }
    }

    /// All patch names of the stack: applied, then unapplied, then hidden.
    pub fn all_patches(&self) -> (r: Vec<PatchName>)
        ensures
            crate::patchname::names_of(r@) == self.state@.applied + self.state@.unapplied
                + self.state@.hidden,
    {
        self.state.all_patch_names()
    }

    /// The branch tip the driver observed when the stack was bound.
    pub fn head_commit(&self) -> (r: Oid)
        ensures
            r == self.branch_head,
    {
        self.branch_head
    }

    /// Whether stack operations are acceptable in the given repository
    /// mode: a clean repository always is; a merge is when the caller
    /// tolerates outstanding conflicts; every other mode is refused by its
    /// name.
    pub fn check_repository_state(&self, mode: RepositoryMode, conflicts_okay: bool) -> (r: Result<
        (),
        Error,
    >)
        ensures
            match r {
                Ok(()) => mode == RepositoryMode::Clean || (mode == RepositoryMode::Merge
                    && conflicts_okay),
                Err(e) => match e {
                    Error::OutstandingConflicts => mode == RepositoryMode::Merge
                        && !conflicts_okay,
                    Error::ActiveRepositoryState(t) => mode != RepositoryMode::Clean && mode
                        != RepositoryMode::Merge && t@ == mode_text(mode),
                    _ => false,
                },
            },
    {
        match mode {
            RepositoryMode::Clean => Ok(()),
            RepositoryMode::Merge => {
                if conflicts_okay {
                    Ok(())
                } else {
                    Err(Error::OutstandingConflicts)
                }
            },
            _ => Err(Error::ActiveRepositoryState(repo_state_to_str(mode))),
        }
    }

    /// Whether the observed branch tip equals the stack's recorded head.
    pub fn is_head_top(&self) -> (r: bool)
        ensures
            r == (self.state@.head == self.branch_head),
    {
        self.state.head() == self.branch_head
    }

    /// Fail when the branch tip and the recorded stack head differ — the
    /// branch was moved behind the stack's back — and pass when they
    /// agree.
    pub fn check_head_top_mismatch(&self) -> (r: Result<(), Error>)
        ensures
            match r {
                Ok(()) => self.state@.head == self.branch_head,
                Err(e) => self.state@.head != self.branch_head && (
                e matches Error::StackTopHeadMismatch),
            },
    {
        if self.is_head_top() {
            Ok(())
        } else {
            Err(Error::StackTopHeadMismatch)
        }
    }

    /// Fail exactly when the driver found staged changes in the index.
    pub fn check_index_clean(&self, index_clean: bool) -> (r: Result<(), Error>)
        ensures
            match r {
                Ok(()) => index_clean,
                Err(e) => !index_clean && (e matches Error::DirtyIndex),
            },
    {
        if index_clean {
            Ok(())
        } else {
            Err(Error::DirtyIndex)
        }
    }

    /// Fail exactly when the driver found changes in the worktree.
    pub fn check_worktree_clean(&self, worktree_clean: bool) -> (r: Result<(), Error>)
        ensures
            match r {
                Ok(()) => worktree_clean,
                Err(e) => !worktree_clean && (e matches Error::DirtyWorktree),
            },
    {
        if worktree_clean {
            Ok(())
        } else {
            Err(Error::DirtyWorktree)
        }
    }

    /// The stack after its state advanced to a new head: the snapshot
    /// records the new head and points back at the previous state commit.
    /// The driver writes the snapshot as a commit and swaps the metadata
    /// reference from `prev_state` to it; on a failed swap it reports
    /// `Error::Transaction` and leaves every reference unchanged.
    pub fn advance_state(self, new_head: Oid, prev_state: Oid) -> (r: Stack)
        requires
            self.state@.applied.len() > 0 ==> new_head == self.state@.patches[
                self.state@.applied.last()
            ],
        ensures
            r.state@ =~= (StackView { head: new_head, prev: Some(prev_state), ..self.state@ }),
            state_wf(r.state@),
            r.branch_name@ == self.branch_name@,
            r.state_refname@ == self.state_refname@,
            r.branch_head == new_head,
    {
        let state = self.state.advance_head(new_head, prev_state);
        Stack {
            branch_name: self.branch_name,
            state_refname: self.state_refname,
            branch_head: new_head,
            state,
        }
    }
}

} // verus!
