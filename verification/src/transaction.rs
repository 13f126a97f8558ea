//! The transaction engine: a staged mutation of a loaded stack.
//!
//! A transaction holds the snapshot it started from, the staged snapshot
//! its operations have built, and the commit metadata the driver has
//! registered. Operations mutate the staged snapshot only; nothing outside
//! the transaction changes until the driver acts on the decision of
//! [`Transaction::prepare_execute`]: it writes the new stack-state commit
//! and advances the metadata reference (and the branch reference) with a
//! compare-and-swap keyed on the previously observed state commit. When
//! that swap fails, the driver leaves every reference untouched and
//! reports [`Error::Transaction`], so a failed execution changes nothing
//! the user can see.

use vstd::prelude::*;

use crate::error::Error;
use crate::ids::{CommitMeta, CommitTable, Oid};
use crate::patchname::{names_of, PatchName};
use crate::state::{
    base_known, extras_of, first_match_index, spec_commit_patches, spec_delete_patch,
    spec_new_applied, spec_pop_patches, spec_push_patch, spec_rename_patch,
    spec_uncommit_patches, spec_update_patch, state_base, state_wf, PatchDesc, StackState,
    StackView,
};

verus! {

/// Whether two snapshots have the same patch on top (or are both without
/// applied patches).
pub open spec fn same_top(a: StackView, b: StackView) -> bool {
    if a.applied.len() == 0 {
        b.applied.len() == 0
    } else {
        b.applied.len() > 0 && a.applied.last() == b.applied.last()
    }
}

/// What executing a transaction decides.
#[derive(Debug)]
pub enum ExecuteDecision {
    /// No operation changed the stack: nothing is recorded.
    Unchanged,
    /// A merge left conflicts and the configuration does not tolerate
    /// them: the driver must roll back, leaving every reference as it was.
    ConflictsAbort,
    /// The staged snapshot, with its previous-state pointer set, is to be
    /// written as the new stack state and both references advanced by
    /// compare-and-swap.
    Advance(StackState),
}

/// A staged mutation of a loaded stack.
#[derive(Debug)]
pub struct Transaction {
    initial: StackState,
    state: StackState,
    table: CommitTable,
    use_index_and_worktree: bool,
    allow_conflicts_if_same_top: bool,
    conflicts: bool,
    changed: bool,
}

impl Transaction {
    /// The staged snapshot.
    pub closed spec fn staged(&self) -> StackView {
        self.state@
    }

    /// The snapshot the transaction started from.
    pub closed spec fn started(&self) -> StackView {
        self.initial@
    }

    /// The commit metadata registered with this transaction.
    pub closed spec fn commits(&self) -> Map<Oid, CommitMeta> {
        self.table@
    }

    /// Whether a push left conflicts in the index and worktree.
    pub closed spec fn has_conflicts(&self) -> bool {
        self.conflicts
    }

    /// Whether any operation changed the staged snapshot.
    pub closed spec fn is_changed(&self) -> bool {
        self.changed
    }

    /// Whether this transaction may move files in the working copy.
    pub closed spec fn uses_worktree(&self) -> bool {
        self.use_index_and_worktree
    }

    /// Whether conflicts are tolerated when the top patch is unchanged.
    pub closed spec fn tolerates_conflicts(&self) -> bool {
        self.allow_conflicts_if_same_top
    }

    /// Open a transaction on a loaded stack.
    pub fn new(
        stack_state: &StackState,
        table: CommitTable,
        use_index_and_worktree: bool,
        allow_conflicts_if_same_top: bool,
    ) -> (r: Transaction)
        ensures
            r.staged() == stack_state@,
            r.started() == stack_state@,
            r.commits() == table@,
            !r.has_conflicts(),
            !r.is_changed(),
            r.uses_worktree() == use_index_and_worktree,
            r.tolerates_conflicts() == allow_conflicts_if_same_top,
    {
        let initial = stack_state.duplicate();
        let state = stack_state.duplicate();
        proof {
            assert(initial@ =~= state@);
        }
        Transaction {
            initial,
            state,
            table,
            use_index_and_worktree,
            allow_conflicts_if_same_top,
            conflicts: false,
            changed: false,
        }
    }

    /// Register a commit's metadata for this transaction to read.
    pub fn record_commit(&mut self, id: Oid, meta: CommitMeta) -> (r: Result<(), Error>)
        ensures
            final(self).staged() == old(self).staged(),
            final(self).started() == old(self).started(),
            final(self).has_conflicts() == old(self).has_conflicts(),
            final(self).is_changed() == old(self).is_changed(),
            match r {
                Ok(()) => !old(self).commits().dom().contains(id) && final(self).commits() == old(
                    self,
                ).commits().insert(id, meta),
                Err(_) => old(self).commits().dom().contains(id) && final(self).commits() == old(
                    self,
                ).commits(),
            },
    {
        let r = self.table.record(id, meta);
        match r {
            Ok(()) => Ok(()),
            Err(e) => Err(e),
        }
    }

    /// The registered metadata of a commit, if any.
    pub fn lookup_commit(&self, id: Oid) -> (r: Option<CommitMeta>)
        ensures
            match r {
                Some(m) => self.commits().dom().contains(id) && self.commits()[id] == m,
                None => !self.commits().dom().contains(id),
            },
    {
        self.table.lookup(id)
    }

    /// The staged applied patch names, bottom to top.
    pub fn applied(&self) -> (r: &Vec<PatchName>)
        ensures
            names_of(r@) == self.staged().applied,
    {
        self.state.applied()
    }

    /// The staged unapplied patch names.
    pub fn unapplied(&self) -> (r: &Vec<PatchName>)
        ensures
            names_of(r@) == self.staged().unapplied,
    {
        self.state.unapplied()
    }

    /// The staged hidden patch names.
    pub fn hidden(&self) -> (r: &Vec<PatchName>)
        ensures
            names_of(r@) == self.staged().hidden,
    {
        self.state.hidden()
    }

    /// The staged head.
    pub fn head(&self) -> (r: Oid)
        ensures
            r == self.staged().head,
    {
        self.state.head()
    }

    /// The commit staged for a patch, if the patch exists.
    pub fn get_patch_commit(&self, name: &PatchName) -> (r: Option<Oid>)
        ensures
            match r {
                Some(oid) => self.staged().patches.dom().contains(name@) && self.staged().patches[
                    name@
                ] == oid,
                None => !self.staged().patches.dom().contains(name@),
            },
    {
        self.state.patch_oid(name)
    }

    /// The staged base: the first parent of the bottom applied patch, or
    /// the head itself when nothing is applied. Fails exactly when a
    /// bottom patch exists whose commit is not registered with a parent.
    pub fn base(&self) -> (r: Result<Oid, Error>)
        ensures
            match r {
                Ok(b) => {
                    &&& base_known(self.staged(), self.commits())
                    &&& if self.staged().applied.len() == 0 {
                        b == self.staged().head
                    } else {
                        &&& self.commits().dom().contains(
                            self.staged().patches[self.staged().applied[0]],
                        )
                        &&& self.commits()[self.staged().patches[self.staged().applied[0]]].parent
                            == Some(b)
                        &&& b == state_base(self.staged(), self.commits())
                    }
                },
                Err(e) => {
                    &&& !base_known(self.staged(), self.commits())
                    &&& e matches Error::Vcs(_)
                },
            },
    {
        let applied = self.state.applied();
        if applied.len() == 0 {
            return Ok(self.state.head());
        }
        let bottom_oid = match self.state.patch_oid(&applied[0]) {
            Some(oid) => oid,
            None => {
                proof {
                    use_type_invariant(&self.state);
                    self.state.lemma_inv_wf();
                    let v = self.staged();
                    assert(v.applied.to_set().contains(v.applied[0])) by {
                        assert(v.applied.contains(v.applied[0]));
                    }
                    assert((v.applied.to_set() + v.unapplied.to_set()
                        + v.hidden.to_set()).contains(v.applied[0]));
                    assert(v.patches.dom().contains(v.applied[0]));
                    assert(names_of(applied@)[0] == v.applied[0]);
                }
                unreached()
            },
        };
        proof {
            assert(names_of(applied@)[0] == self.staged().applied[0]);
            assert(bottom_oid == self.staged().patches[self.staged().applied[0]]);
        }
        match self.table.lookup(bottom_oid) {
            Some(m) => match m.parent {
                Some(p) => Ok(p),
                None => Err(Error::Vcs(base_unknown_text())),
            },
            None => Err(Error::Vcs(base_unknown_text())),
        }
    }

    /// Insert a brand-new patch at the top of the stack: its commit must be registered with the current head
    /// as first parent. Fails with `PatchNameExists` on a name collision
    /// and refuses an unregistered or mis-parented commit.
    pub fn new_applied(&mut self, name: &PatchName, oid: Oid) -> (r: Result<(), Error>)
        requires
            !old(self).has_conflicts(),
        ensures
            final(self).started() == old(self).started(),
            final(self).commits() == old(self).commits(),
            !final(self).has_conflicts(),
            match r {
                Ok(()) => {
                    &&& !old(self).staged().patches.dom().contains(name@)
                    &&& old(self).commits().dom().contains(oid)
                    &&& old(self).commits()[oid].parent == Some(old(self).staged().head)
                    &&& final(self).staged() =~= spec_new_applied(old(self).staged(), name@, oid)
                    &&& final(self).is_changed()
                },
                Err(e) => {
                    &&& final(self).staged() == old(self).staged()
                    &&& final(self).is_changed() == old(self).is_changed()
                    &&& match e {
                        Error::PatchNameExists(t) => old(self).staged().patches.dom().contains(
                            name@,
                        ) && t@ == name@,
                        Error::Vcs(_) => !(old(self).commits().dom().contains(oid) && old(
                            self,
                        ).commits()[oid].parent == Some(old(self).staged().head)),
                        _ => false,
                    }
                },
            },
    {
        let head = self.state.head();
        match self.table.lookup(oid) {
            Some(m) => {
                if !(m.parent == Some(head)) {
                    return Err(Error::Vcs(parent_mismatch_text()));
                }
            },
            None => {
                return Err(Error::Vcs(parent_mismatch_text()));
            },
        }
        let r = self.state.new_applied(name, oid);
        match r {
            Ok(()) => {
                self.changed = true;
                Ok(())
            },
            Err(e) => Err(e),
        }
    }

    /// Reapply a stored patch at the top of the stack: `oid` is the commit produced by merging
    /// the patch onto the current head, and must be registered with that
    /// head as first parent. `conflict` records that the merge left
    /// conflicts in the index and worktree; no further operation may
    /// follow one that did.
    pub fn push_patch(&mut self, name: &PatchName, oid: Oid, conflict: bool) -> (r: Result<
        (),
        Error,
    >)
        requires
            !old(self).has_conflicts(),
        ensures
            final(self).started() == old(self).started(),
            final(self).commits() == old(self).commits(),
            match r {
                Ok(()) => {
                    &&& old(self).staged().unapplied.contains(name@) || old(
                        self,
                    ).staged().hidden.contains(name@)
                    &&& old(self).commits().dom().contains(oid)
                    &&& old(self).commits()[oid].parent == Some(old(self).staged().head)
                    &&& final(self).staged() =~= spec_push_patch(old(self).staged(), name@, oid)
                    &&& final(self).is_changed()
                    &&& final(self).has_conflicts() == conflict
                },
                Err(e) => {
                    &&& final(self).staged() == old(self).staged()
                    &&& final(self).is_changed() == old(self).is_changed()
                    &&& !final(self).has_conflicts()
                    &&& match e {
                        Error::PatchNotFound(t) => !old(self).staged().unapplied.contains(name@)
                            && !old(self).staged().hidden.contains(name@) && t@ == name@,
                        Error::Vcs(_) => !(old(self).commits().dom().contains(oid) && old(
                            self,
                        ).commits()[oid].parent == Some(old(self).staged().head)),
                        _ => false,
                    }
                },
            },
    {
        let head = self.state.head();
        match self.table.lookup(oid) {
            Some(m) => {
                if !(m.parent == Some(head)) {
                    return Err(Error::Vcs(parent_mismatch_text()));
                }
            },
            None => {
                return Err(Error::Vcs(parent_mismatch_text()));
            },
        }
        let r = self.state.push_patch(name, oid);
        match r {
            Ok(()) => {
                self.changed = true;
                if conflict {
                    self.conflicts = true;
                }
                Ok(())
            },
            Err(e) => Err(e),
        }
    }

    /// Pop the topmost applied patches down to the first one bearing one
    /// of the given names; returns the popped patches that were not asked
    /// for. Fails exactly when the stack base cannot be read — a bottom
    /// patch exists whose commit is not registered with a parent.
    pub fn pop_patches(&mut self, names: &Vec<PatchName>) -> (r: Result<Vec<PatchName>, Error>)
        requires
            !old(self).has_conflicts(),
        ensures
            final(self).started() == old(self).started(),
            final(self).commits() == old(self).commits(),
            !final(self).has_conflicts(),
            match r {
                Ok(extras) => {
                    let v = old(self).staged();
                    let k = first_match_index(v.applied, names_of(names@));
                    &&& base_known(v, old(self).commits())
                    &&& final(self).staged() =~= spec_pop_patches(
                        v,
                        k,
                        state_base(v, old(self).commits()),
                    )
                    &&& names_of(extras@) == extras_of(v.applied.skip(k), names_of(names@))
                    &&& final(self).is_changed()
                },
                Err(e) => {
                    &&& !base_known(old(self).staged(), old(self).commits())
                    &&& final(self).staged() == old(self).staged()
                    &&& final(self).is_changed() == old(self).is_changed()
                    &&& e matches Error::Vcs(_)
                },
            },
    {
        let empty_head = match self.base() {
            Ok(b) => b,
            Err(e) => {
                return Err(e);
            },
        };
        let extras = self.state.pop_patches(names, empty_head);
        self.changed = true;
        Ok(extras)
    }

    /// Replace the commit staged for a patch. The
    /// patch must not be applied below the top — callers pop first — and
    /// the new commit must be registered.
    pub fn update_patch(&mut self, name: &PatchName, oid: Oid) -> (r: Result<(), Error>)
        requires
            !old(self).has_conflicts(),
            old(self).staged().applied.contains(name@) ==> old(self).staged().applied.len() > 0
                && old(self).staged().applied.last() == name@,
        ensures
            final(self).started() == old(self).started(),
            final(self).commits() == old(self).commits(),
            !final(self).has_conflicts(),
            match r {
                Ok(()) => {
                    &&& old(self).staged().patches.dom().contains(name@)
                    &&& old(self).commits().dom().contains(oid)
                    &&& final(self).staged() =~= spec_update_patch(old(self).staged(), name@, oid)
                    &&& final(self).is_changed()
                },
                Err(e) => {
                    &&& final(self).staged() == old(self).staged()
                    &&& final(self).is_changed() == old(self).is_changed()
                    &&& match e {
                        Error::PatchNotFound(t) => !old(self).staged().patches.dom().contains(
                            name@,
                        ) && t@ == name@,
                        Error::Vcs(_) => !old(self).commits().dom().contains(oid),
                        _ => false,
                    }
                },
            },
    {
        match self.table.lookup(oid) {
            Some(_) => {},
            None => {
                return Err(Error::Vcs(parent_mismatch_text()));
            },
        }
        let r = self.state.update_patch(name, oid);
        match r {
            Ok(()) => {
                self.changed = true;
                Ok(())
            },
            Err(e) => Err(e),
        }
    }

    /// Rename a patch in place.
    pub fn rename_patch(&mut self, old_name: &PatchName, new_name: &PatchName) -> (r: Result<
        (),
        Error,
    >)
        requires
            !old(self).has_conflicts(),
        ensures
            final(self).started() == old(self).started(),
            final(self).commits() == old(self).commits(),
            !final(self).has_conflicts(),
            match r {
                Ok(()) => {
                    &&& old(self).staged().patches.dom().contains(old_name@)
                    &&& !old(self).staged().patches.dom().contains(new_name@)
                    &&& final(self).staged() =~= spec_rename_patch(
                        old(self).staged(),
                        old_name@,
                        new_name@,
                    )
                    &&& final(self).is_changed()
                },
                Err(e) => {
                    &&& final(self).staged() == old(self).staged()
                    &&& final(self).is_changed() == old(self).is_changed()
                    &&& match e {
                        Error::PatchNotFound(t) => !old(self).staged().patches.dom().contains(
                            old_name@,
                        ) && t@ == old_name@,
                        Error::PatchNameExists(t) => old(self).staged().patches.dom().contains(
                            old_name@,
                        ) && old(self).staged().patches.dom().contains(new_name@) && t@
                            == new_name@,
                        _ => false,
                    }
                },
            },
    {
        let r = self.state.rename_patch(old_name, new_name);
        match r {
            Ok(()) => {
                self.changed = true;
                Ok(())
            },
            Err(e) => Err(e),
        }
    }

    /// Delete a patch from the stack entirely. An applied patch may only
    /// be deleted from the top. Fails exactly when no patch of that name
    /// exists, or when the stack base cannot be read — a bottom patch
    /// exists whose commit is not registered with a parent.
    pub fn delete_patch(&mut self, name: &PatchName) -> (r: Result<(), Error>)
        requires
            !old(self).has_conflicts(),
            old(self).staged().applied.contains(name@) ==> old(self).staged().applied.len() > 0
                && old(self).staged().applied.last() == name@,
        ensures
            final(self).started() == old(self).started(),
            final(self).commits() == old(self).commits(),
            !final(self).has_conflicts(),
            match r {
                Ok(()) => {
                    &&& base_known(old(self).staged(), old(self).commits())
                    &&& old(self).staged().patches.dom().contains(name@)
                    &&& final(self).staged() =~= spec_delete_patch(
                        old(self).staged(),
                        name@,
                        state_base(old(self).staged(), old(self).commits()),
                    )
                    &&& final(self).is_changed()
                },
                Err(e) => {
                    &&& final(self).staged() == old(self).staged()
                    &&& final(self).is_changed() == old(self).is_changed()
                    &&& match e {
                        Error::PatchNotFound(t) => {
                            &&& base_known(old(self).staged(), old(self).commits())
                            &&& !old(self).staged().patches.dom().contains(name@)
                            &&& t@ == name@
                        },
                        Error::Vcs(_) => !base_known(old(self).staged(), old(self).commits()),
                        _ => false,
                    }
                },
            },
    {
        let empty_head = match self.base() {
            Ok(b) => b,
            Err(e) => {
                return Err(e);
            },
        };
        let r = self.state.delete_patch(name, empty_head);
        match r {
            Ok(()) => {
                self.changed = true;
                Ok(())
            },
            Err(e) => Err(e),
        }
    }

    /// Finalize the bottom applied patches into base history: the names
    /// must spell out the bottom of the
    /// applied sequence in order.
    pub fn commit_patches(&mut self, names: &Vec<PatchName>)
        requires
            !old(self).has_conflicts(),
            names@.len() <= old(self).staged().applied.len(),
            names_of(names@) == old(self).staged().applied.take(names@.len() as int),
        ensures
            final(self).started() == old(self).started(),
            final(self).commits() == old(self).commits(),
            !final(self).has_conflicts(),
            final(self).staged() =~= spec_commit_patches(old(self).staged(), names@.len() as int),
            final(self).is_changed(),
    {
        self.state.commit_patches(names);
        self.changed = true;
    }

    /// Reinstate finalized patches at the bottom of the stack: the inverse
    /// of `commit_patches` for the same descriptors.
    pub fn uncommit_patches(&mut self, descs: &Vec<PatchDesc>)
        requires
            !old(self).has_conflicts(),
            crate::state::desc_names(descs@).no_duplicates(),
            forall|i: int|
                0 <= i < descs@.len() ==> !old(self).staged().patches.dom().contains(
                    #[trigger] crate::state::desc_names(descs@)[i],
                ),
            (old(self).staged().applied.len() == 0 && descs@.len() > 0) ==> descs@.last().oid
                == old(self).staged().head,
        ensures
            final(self).started() == old(self).started(),
            final(self).commits() == old(self).commits(),
            !final(self).has_conflicts(),
            final(self).staged() =~= spec_uncommit_patches(old(self).staged(), descs@),
            final(self).is_changed(),
    {
        self.state.uncommit_patches(descs);
        self.changed = true;
    }

    /// Whether a push left conflicts in the index and worktree.
    pub fn conflicts(&self) -> (r: bool)
        ensures
            r == self.has_conflicts(),
    {
        self.conflicts
    }

    /// Whether the staged snapshot has the same patch on top as the
    /// snapshot the transaction started from.
    pub fn top_unchanged(&self) -> (r: bool)
        ensures
            r == same_top(self.started(), self.staged()),
    {
        let a = self.initial.applied();
        let b = self.state.applied();
        if a.len() == 0 {
            b.len() == 0
        } else if b.len() == 0 {
            false
        } else {
            proof {
                assert(names_of(a@)[a@.len() - 1] == self.started().applied.last());
                assert(names_of(b@)[b@.len() - 1] == self.staged().applied.last());
            }
            a[a.len() - 1].same_as(&b[b.len() - 1])
        }
    }

    /// Decide what executing the transaction does: an
    /// untouched transaction records nothing; intolerable conflicts roll
    /// everything back; otherwise the staged snapshot, pointing back at
    /// the previously observed state commit, becomes the new stack state.
    /// The advanced snapshot always satisfies the invariants.
    pub fn prepare_execute(&self, prev_state: Oid) -> (r: ExecuteDecision)
        ensures
            match r {
                ExecuteDecision::Unchanged => !self.is_changed(),
                ExecuteDecision::ConflictsAbort => {
                    &&& self.is_changed()
                    &&& self.has_conflicts()
                    &&& !(self.tolerates_conflicts() && same_top(self.started(), self.staged()))
                },
                ExecuteDecision::Advance(s) => {
                    &&& self.is_changed()
                    &&& self.has_conflicts() ==> self.tolerates_conflicts() && same_top(
                        self.started(),
                        self.staged(),
                    )
                    &&& s@ =~= (StackView { prev: Some(prev_state), ..self.staged() })
                    &&& state_wf(s@)
                    &&& crate::state::state_consistent(self.staged(), self.commits())
                        ==> crate::state::state_consistent(s@, self.commits())
                },
            },
    {
        proof {
            use_type_invariant(&self.state);
            self.state.lemma_inv_wf();
        }
        if !self.changed {
            return ExecuteDecision::Unchanged;
        }
        if self.conflicts {
            let tolerated = self.allow_conflicts_if_same_top && self.top_unchanged();
            if !tolerated {
                return ExecuteDecision::ConflictsAbort;
            }
        }
        let head = self.state.head();
        let s = self.state.duplicate().advance_head(head, prev_state);
        ExecuteDecision::Advance(s)
    }
}

/// The message reported when a commit needed by an operation was not
/// registered or does not sit on the current head.
fn parent_mismatch_text() -> (r: String)
    ensures
        r@ == "commit not registered on the current head"@,
{
    <String as vstd::string::StringExecFns>::from_str("commit not registered on the current head")
}

/// The message reported when the stack base has not been registered.
fn base_unknown_text() -> (r: String)
    ensures
        r@ == "stack base commit not registered"@,
{
    <String as vstd::string::StringExecFns>::from_str("stack base commit not registered")
}

} // verus!
