//! The `refresh` command: absorb index and worktree changes into a patch.
//!
//! The driver reads statuses, diffs, conflicts and configuration and hands
//! them in as plain values; the rules — which option combinations are
//! allowed, which patch is the target, which paths a refresh may touch,
//! and when a refresh is a no-op — are decided here. The driver then
//! synthesizes the temporary commit and drives the two transactions with
//! the helpers below.

use vstd::prelude::*;
use vstd::string::StringExecFns;
use vstd::utf8::{decode_utf8, valid_utf8};

use crate::cmd::{CommandCategory, CommandInfo};
use crate::error::Error;
use crate::patchname::{names_of, PatchName};
use crate::state::StackState;

verus! {

/// The `refresh` command's entry in the command listing.
pub fn get_command() -> (r: CommandInfo)
    ensures
        r.name@ == "refresh"@,
        r.category == CommandCategory::PatchManipulation,
{
    CommandInfo {
        name: <String as StringExecFns>::from_str("refresh"),
        category: CommandCategory::PatchManipulation,
    }
}

/// The views of a sequence of texts.
pub open spec fn texts_of(s: Seq<String>) -> Seq<Seq<char>> {
    s.map_values(|t: String| t@)
}

/// Whether a list of texts contains one spelling the given text.
pub fn texts_contain(v: &Vec<String>, t: &String) -> (r: bool)
    ensures
        r == texts_of(v@).contains(t@),
{
    let mut i: usize = 0;
    while i < v.len()
        invariant
            i <= v@.len(),
            forall|j: int| 0 <= j < i ==> texts_of(v@)[j] != t@,
        decreases v@.len() - i,
    {
        if v[i].eq(t) {
            assert(texts_of(v@)[i as int] == t@);
            return true;
        }
        i += 1;
    }
    return false;
}

/// A `refresh` invocation, as the driver parsed it.
#[derive(Debug)]
pub struct RefreshOptions {
    /// Only refresh files matching these paths.
    pub pathspecs: Vec<String>,
    /// Only update files already changed by the target patch.
    pub update: bool,
    /// Take the new tree from the index instead of the worktree.
    pub index: bool,
    /// Refresh even when both the index and the worktree are dirty.
    pub force: bool,
    /// Refresh this patch instead of the top one.
    pub patch: Option<PatchName>,
    /// Annotate the log entry with this note.
    pub annotate: Option<String>,
    /// Include or exclude submodules; unset means "ask the configuration".
    pub submodules: Option<bool>,
    /// Skip the pre-commit hook.
    pub skip_hook: bool,
}

/// Whether a set of options is acceptable: refreshing from the index
/// excludes path limiting, `--update`, a submodule choice, and `--force`;
/// `--update` also excludes including submodules.
pub open spec fn spec_options_valid(o: &RefreshOptions) -> bool {
    &&& o.index ==> o.pathspecs@.len() == 0 && !o.update && o.submodules is None && !o.force
    &&& o.update ==> !(o.submodules == Some(true))
}

/// Validate an option set; the error names the two options that exclude
/// each other.
pub fn validate_refresh_options(o: &RefreshOptions) -> (r: Result<(), Error>)
    ensures
        match r {
            Ok(()) => spec_options_valid(o),
            Err(e) => !spec_options_valid(o) && (e matches Error::ConflictingOptions(_, _)),
        },
{
    if o.index {
        if o.pathspecs.len() > 0 {
            return Err(Error::ConflictingOptions(index_text(), paths_text()));
        }
        if o.update {
            return Err(Error::ConflictingOptions(index_text(), update_text()));
        }
        match o.submodules {
            Some(_) => {
                return Err(Error::ConflictingOptions(index_text(), submodules_text()));
            },
            None => {},
        }
        if o.force {
            return Err(Error::ConflictingOptions(index_text(), force_text()));
        }
    }
    if o.update {
        match o.submodules {
            Some(b) => {
                if b {
                    return Err(Error::ConflictingOptions(update_text(), submodules_text()));
                }
            },
            None => {},
        }
    }
    Ok(())
}

/// Whether submodule content is included: an explicit option wins, else
/// the configuration key's value, else no.
pub fn resolve_use_submodules(o: &RefreshOptions, config_value: Option<bool>) -> (r: bool)
    ensures
        r == match o.submodules {
            Some(b) => b,
            None => config_value == Some(true),
        },
{
    match o.submodules {
        Some(b) => b,
        None => config_value == Some(true),
    }
}

/// The patch a refresh targets: the explicitly named one — which must
/// exist — or the top applied patch; with nothing applied and no explicit
/// name there is nothing to refresh.
pub fn resolve_target_patch(state: &StackState, requested: Option<&PatchName>) -> (r: Result<
    PatchName,
    Error,
>)
    ensures
        match r {
            Ok(p) => match requested {
                Some(q) => p@ == q@ && state@.patches.dom().contains(q@),
                None => state@.applied.len() > 0 && p@ == state@.applied.last(),
            },
            Err(e) => match requested {
                Some(q) => !state@.patches.dom().contains(q@) && (
                e matches Error::PatchNotFound(t) && t@ == q@),
                None => state@.applied.len() == 0 && (e matches Error::NoAppliedPatches),
            },
        },
{
    match requested {
        Some(q) => match state.patch_oid(q) {
            Some(_) => Ok(q.duplicate()),
            None => Err(Error::PatchNotFound(q.to_text())),
        },
        None => {
            let applied = state.applied();
            if applied.len() == 0 {
                Err(Error::NoAppliedPatches)
            } else {
                proof {
                    assert(names_of(applied@)[applied@.len() - 1] == state@.applied.last());
                }
                Ok(applied[applied.len() - 1].duplicate())
            }
        },
    }
}

/// The paths a worktree refresh touches: the changed paths, restricted to
/// the target patch's own paths under `--update`.
pub open spec fn spec_refresh_paths(
    status: Seq<Seq<char>>,
    patch_paths: Option<Seq<Seq<char>>>,
) -> Seq<Seq<char>> {
    match patch_paths {
        Some(ps) => status.filter(|p: Seq<char>| ps.contains(p)),
        None => status,
    }
}

/// Decide which paths a worktree refresh touches. `status_paths` are the
/// changed paths the driver read (already limited to the caller's
/// pathspecs); `patch_paths` are the paths of the target patch's own diff,
/// given under `--update`; `conflict_paths` are the paths with outstanding
/// index conflicts. A refresh touching a conflicted path is refused, and —
/// unless forced — so is one that would mix a dirty index with a dirty
/// worktree.
pub fn determine_refresh_paths(
    status_paths: &Vec<String>,
    patch_paths: Option<&Vec<String>>,
    conflict_paths: &Vec<String>,
    index_clean: bool,
    worktree_clean: bool,
    force: bool,
) -> (r: Result<Vec<String>, Error>)
    requires
        texts_of(status_paths@).no_duplicates(),
    ensures
        ({
            let wanted = spec_refresh_paths(
                texts_of(status_paths@),
                match patch_paths {
                    Some(ps) => Some(texts_of(ps@)),
                    None => None,
                },
            );
            match r {
                Ok(paths) => {
                    &&& texts_of(paths@) == wanted
                    &&& texts_of(paths@).no_duplicates()
                    &&& forall|i: int|
                        0 <= i < conflict_paths@.len() ==> !wanted.contains(
                            #[trigger] texts_of(conflict_paths@)[i],
                        )
                    &&& force || index_clean || worktree_clean
                },
                Err(e) => match e {
                    Error::OutstandingConflicts => exists|i: int|
                        0 <= i < conflict_paths@.len() && wanted.contains(
                            #[trigger] texts_of(conflict_paths@)[i],
                        ),
                    Error::DirtyIndexAndWorktree => {
                        &&& !force && !index_clean && !worktree_clean
                        &&& forall|i: int|
                            0 <= i < conflict_paths@.len() ==> !wanted.contains(
                                #[trigger] texts_of(conflict_paths@)[i],
                            )
                    },
                    _ => false,
                },
            }
        }),
{
    let mut paths: Vec<String> = Vec::new();
    let ghost wanted = spec_refresh_paths(
        texts_of(status_paths@),
        match patch_paths {
            Some(ps) => Some(texts_of(ps@)),
            None => None,
        },
    );
    match patch_paths {
        Some(ps) => {
            proof {
                reveal(Seq::filter);
                assert(texts_of(paths@) =~= texts_of(status_paths@).take(0).filter(
                    |p: Seq<char>| texts_of(ps@).contains(p),
                ));
            }
            let mut i: usize = 0;
            while i < status_paths.len()
                invariant
                    i <= status_paths@.len(),
                    texts_of(paths@) =~= texts_of(status_paths@).take(i as int).filter(
                        |p: Seq<char>| texts_of(ps@).contains(p),
                    ),
                decreases status_paths@.len() - i,
            {
                proof {
                    reveal(Seq::filter);
                    assert(texts_of(status_paths@).take(i + 1).drop_last() =~= texts_of(
                        status_paths@,
                    ).take(i as int));
                    assert(texts_of(status_paths@).take(i + 1).last() == texts_of(
                        status_paths@,
                    )[i as int]);
                }
                let ghost pre = paths@;
                if texts_contain(ps, &status_paths[i]) {
                    paths.push(status_paths[i].clone());
                    proof {
                        assert(texts_of(paths@) =~= texts_of(pre).push(
                            texts_of(status_paths@)[i as int],
                        ));
                        assert(texts_of(paths@) =~= texts_of(status_paths@).take(i + 1).filter(
                            |p: Seq<char>| texts_of(ps@).contains(p),
                        ));
                    }
                } else {
                    proof {
                        assert(texts_of(paths@) =~= texts_of(status_paths@).take(i + 1).filter(
                            |p: Seq<char>| texts_of(ps@).contains(p),
                        ));
                    }
                }
                i += 1;
            }
            assert(texts_of(status_paths@).take(status_paths@.len() as int) =~= texts_of(
                status_paths@,
            ));
        },
        None => {
            let mut i: usize = 0;
            while i < status_paths.len()
                invariant
                    i <= status_paths@.len(),
                    texts_of(paths@) =~= texts_of(status_paths@).take(i as int),
                decreases status_paths@.len() - i,
            {
                let ghost pre = paths@;
                paths.push(status_paths[i].clone());
                proof {
                    assert(texts_of(paths@) =~= texts_of(pre).push(
                        texts_of(status_paths@)[i as int],
                    ));
                    assert(texts_of(paths@) =~= texts_of(status_paths@).take(i + 1));
                }
                i += 1;
            }
            assert(texts_of(status_paths@).take(status_paths@.len() as int) =~= texts_of(
                status_paths@,
            ));
        },
    }
    assert(texts_of(paths@) == wanted);
    proof {
        match patch_paths {
            Some(ps) => {
                lemma_filter_no_duplicates(
                    texts_of(status_paths@),
                    |p: Seq<char>| texts_of(ps@).contains(p),
                );
            },
            None => {},
        }
    }
    let mut i: usize = 0;
    while i < conflict_paths.len()
        invariant
            i <= conflict_paths@.len(),
            texts_of(paths@) == wanted,
            texts_of(paths@).no_duplicates(),
            wanted == spec_refresh_paths(
                texts_of(status_paths@),
                match patch_paths {
                    Some(ps) => Some(texts_of(ps@)),
                    None => None,
                },
            ),
            forall|j: int|
                0 <= j < i ==> !wanted.contains(#[trigger] texts_of(conflict_paths@)[j]),
        decreases conflict_paths@.len() - i,
    {
        if texts_contain(&paths, &conflict_paths[i]) {
            proof {
                assert(wanted.contains(texts_of(conflict_paths@)[i as int]));
            }
            return Err(Error::OutstandingConflicts);
        }
        i += 1;
    }
    if !force && !index_clean && !worktree_clean {
        return Err(Error::DirtyIndexAndWorktree);
    }
    Ok(paths)
}

/// Where the refreshed tree comes from — or nothing at all.
#[derive(Debug)]
pub enum RefreshPlan {
    /// Nothing changed: the refresh is a no-op, no temporary patch is
    /// made, no transaction runs, and no new stack state is recorded.
    NoChanges,
    /// The new tree is the current index, written as it stands.
    FromIndex,
    /// The new tree is built from the worktree's versions of these paths.
    Worktree(Vec<String>),
}

/// Decide where the refreshed tree comes from. Refreshing from the index
/// always writes the index as a tree; otherwise, with no changed paths,
/// the refresh is a no-op.
pub fn plan_refresh(from_index: bool, refresh_paths: Vec<String>) -> (r: RefreshPlan)
    ensures
        from_index ==> r matches RefreshPlan::FromIndex,
        !from_index && refresh_paths@.len() == 0 ==> r matches RefreshPlan::NoChanges,
        !from_index && refresh_paths@.len() > 0 ==> (r matches RefreshPlan::Worktree(ps)
            && texts_of(ps@) == texts_of(refresh_paths@)),
{
    if from_index {
        RefreshPlan::FromIndex
    } else if refresh_paths.len() == 0 {
        RefreshPlan::NoChanges
    } else {
        RefreshPlan::Worktree(refresh_paths)
    }
}

/// Law: refreshing a clean worktree is a no-op. With no changed paths and
/// the tree not taken from the index, the plan is `NoChanges`, so no
/// temporary patch is created and no transaction runs; and a transaction
/// in which no operation ran decides `Unchanged` at execution, so no new
/// stack-state commit is recorded and the snapshot stands as it was.
pub proof fn lemma_refresh_no_changes_is_no_op(
    status: Seq<Seq<char>>,
    patch_paths: Option<Seq<Seq<char>>>,
)
    requires
        status.len() == 0,
    ensures
        spec_refresh_paths(status, patch_paths).len() == 0,
{
    match patch_paths {
        Some(ps) => {
            Seq::lemma_filter_len(status, |p: Seq<char>| ps.contains(p));
        },
        None => {},
    }
}

/// Filtering keeps a duplicate-free sequence duplicate-free.
proof fn lemma_filter_no_duplicates(s: Seq<Seq<char>>, pred: spec_fn(Seq<char>) -> bool)
    requires
        s.no_duplicates(),
    ensures
        s.filter(pred).no_duplicates(),
    decreases s.len(),
{
    reveal(Seq::filter);
    if s.len() > 0 {
        assert(s.drop_last().no_duplicates()) by {
            assert forall|i: int, j: int|
                0 <= i < s.drop_last().len() && 0 <= j < s.drop_last().len() && i != j implies s.drop_last()[i]
                != s.drop_last()[j] by {
                assert(s.drop_last()[i] == s[i]);
                assert(s.drop_last()[j] == s[j]);
            }
        }
        lemma_filter_no_duplicates(s.drop_last(), pred);
        if pred(s.last()) {
            assert(!s.drop_last().filter(pred).contains(s.last())) by {
                if s.drop_last().filter(pred).contains(s.last()) {
                    s.drop_last().lemma_filter_contains_rev(pred, s.last());
                    assert(s.drop_last().contains(s.last()));
                    let j = choose|j: int|
                        0 <= j < s.drop_last().len() && s.drop_last()[j] == s.last();
                    assert(s[j] == s[s.len() - 1]);
                }
            }
            crate::state::lemma_push_fresh(s.drop_last().filter(pred), s.last());
        }
    }
}

/// The name reserved for the temporary patch a refresh synthesizes: the
/// sanitized default, uniquified against every existing patch name by the
/// least counter.
pub fn temp_patch_name(existing: &Vec<PatchName>) -> (r: PatchName)
    requires
        existing@.len() < usize::MAX,
    ensures
        ({
            let base = crate::patchname::spec_make("refresh-temp"@, true, None);
            &&& !names_of(existing@).contains(base) ==> r@ == base
            &&& names_of(existing@).contains(base) ==> exists|c: nat|
                {
                    &&& 1 <= c
                    &&& r@ == crate::patchname::suffixed_name(base, c)
                    &&& !names_of(existing@).contains(r@)
                    &&& forall|m: nat|
                        1 <= m < c ==> names_of(existing@).contains(
                            #[trigger] crate::patchname::suffixed_name(base, m),
                        )
                }
            &&& !names_of(existing@).contains(r@)
            &&& crate::patchname::valid_name(r@)
        }),
{
    let base = PatchName::make("refresh-temp", true, None);
    let allow: Vec<PatchName> = Vec::new();
    proof {
        assert(names_of(allow@) =~= Seq::<Seq<char>>::empty());
    }
    let r = base.uniquify(&allow, existing);
    proof {
        assert(!names_of(allow@).contains(r@)) by {
            assert(names_of(allow@).len() == 0);
        }
        let bv = crate::patchname::spec_make("refresh-temp"@, true, None);
        if names_of(existing@).contains(bv) {
            let c = choose|c: nat|
                {
                    &&& 1 <= c
                    &&& r@ == crate::patchname::suffixed_name(bv, c)
                    &&& names_of(allow@).contains(r@) || !names_of(existing@).contains(r@)
                    &&& forall|m: nat|
                        1 <= m < c ==> names_of(existing@).contains(
                            #[trigger] crate::patchname::suffixed_name(bv, m),
                        ) && !names_of(allow@).contains(crate::patchname::suffixed_name(bv, m))
                };
            assert(1 <= c && r@ == crate::patchname::suffixed_name(bv, c) && !names_of(
                existing@,
            ).contains(r@) && (forall|m: nat|
                1 <= m < c ==> names_of(existing@).contains(
                    #[trigger] crate::patchname::suffixed_name(bv, m),
                )));
        }
    }
    r
}

/// One step of the refresh absorb protocol: the decision of what the
/// driver does next, from what just happened. The driver performs the
/// store work — pops, three-way merges, commits — and feeds each outcome
/// back in.
#[derive(Clone, Copy, Debug, PartialEq, Eq, Structural)]
pub enum AbsorbStep {
    /// Make room for the merge: for an applied target, pop every applied
    /// patch above it (the temporary patch included); for an unapplied
    /// target, pop just the temporary patch.
    PopAboveTarget,
    /// Merge the temporary patch's changes onto the target by a three-way
    /// tree merge: base is the temporary commit's parent tree, ours the
    /// target's tree, theirs the temporary tree. For an applied target
    /// this happens by re-pushing the temporary patch onto it; for an
    /// unapplied target it happens in a bare temporary index.
    MergeTemp,
    /// The merge was clean: delete the temporary patch and update the
    /// target to a commit carrying the merged tree.
    FoldIntoTarget,
    /// Re-push the popped patch at this position (a merge onto the new
    /// top).
    Repush(u64),
    /// Everything is absorbed.
    Done,
    /// A merge conflicted: stop here, keeping what is staged — an applied
    /// target keeps the conflicted temporary patch in the stack with the
    /// patches above it still popped; an unapplied target keeps the
    /// temporary patch stored — and report that the changes did not apply
    /// cleanly.
    Abandon,
}

/// The absorb protocol's decision table: what follows each step, given
/// whether the target is applied, whether the step's merge conflicted,
/// and how many popped patches wait to be re-pushed.
pub open spec fn spec_absorb_next(
    last: AbsorbStep,
    target_applied: bool,
    merge_conflict: bool,
    repush_total: u64,
) -> AbsorbStep {
    match last {
        AbsorbStep::PopAboveTarget => AbsorbStep::MergeTemp,
        AbsorbStep::MergeTemp => if merge_conflict {
            AbsorbStep::Abandon
        } else {
            AbsorbStep::FoldIntoTarget
        },
        AbsorbStep::FoldIntoTarget => if target_applied && repush_total > 0 {
            AbsorbStep::Repush(0)
        } else {
            AbsorbStep::Done
        },
        AbsorbStep::Repush(i) => if merge_conflict {
            AbsorbStep::Abandon
        } else if i + 1 < repush_total {
            AbsorbStep::Repush((i + 1) as u64)
        } else {
            AbsorbStep::Done
        },
        AbsorbStep::Done => AbsorbStep::Done,
        AbsorbStep::Abandon => AbsorbStep::Abandon,
    }
}

/// The first step of the absorb protocol.
pub fn absorb_start() -> (r: AbsorbStep)
    ensures
        r == AbsorbStep::PopAboveTarget,
{
    AbsorbStep::PopAboveTarget
}

/// Decide the next step of the absorb protocol, exactly per
/// [`spec_absorb_next`].
pub fn absorb_next(
    last: AbsorbStep,
    target_applied: bool,
    merge_conflict: bool,
    repush_total: u64,
) -> (r: AbsorbStep)
    requires
        last matches AbsorbStep::Repush(i) ==> i < repush_total,
    ensures
        r == spec_absorb_next(last, target_applied, merge_conflict, repush_total),
{
    match last {
        AbsorbStep::PopAboveTarget => AbsorbStep::MergeTemp,
        AbsorbStep::MergeTemp => {
            if merge_conflict {
                AbsorbStep::Abandon
            } else {
                AbsorbStep::FoldIntoTarget
            }
        },
        AbsorbStep::FoldIntoTarget => {
            if target_applied && repush_total > 0 {
                AbsorbStep::Repush(0)
            } else {
                AbsorbStep::Done
            }
        },
        AbsorbStep::Repush(i) => {
            if merge_conflict {
                AbsorbStep::Abandon
            } else if i + 1 < repush_total {
                AbsorbStep::Repush(i + 1)
            } else {
                AbsorbStep::Done
            }
        },
        AbsorbStep::Done => AbsorbStep::Done,
        AbsorbStep::Abandon => AbsorbStep::Abandon,
    }
}

/// The applied patches strictly above a target patch, bottom to top: the
/// ones a refresh of that patch pops and re-pushes.
pub fn patches_above(applied: &Vec<PatchName>, target: &PatchName) -> (r: Vec<PatchName>)
    requires
        names_of(applied@).no_duplicates(),
    ensures
        (exists|i: int|
            0 <= i < applied@.len() && #[trigger] names_of(applied@)[i] == target@) ==> ({
            let i = choose|i: int|
                0 <= i < applied@.len() && #[trigger] names_of(applied@)[i] == target@;
            names_of(r@) == names_of(applied@).skip(i + 1)
        }),
        !names_of(applied@).contains(target@) ==> r@.len() == 0,
{
    let mut i: usize = 0;
    while i < applied.len()
        invariant
            i <= applied@.len(),
            names_of(applied@).no_duplicates(),
            forall|j: int| 0 <= j < i ==> names_of(applied@)[j] != target@,
        decreases applied@.len() - i,
    {
        if applied[i].same_as(target) {
            let mut r: Vec<PatchName> = Vec::new();
            let mut j: usize = i + 1;
            while j < applied.len()
                invariant
                    i < j <= applied@.len(),
                    names_of(r@) =~= names_of(applied@).subrange(i + 1, j as int),
                decreases applied@.len() - j,
            {
                let ghost pre = r@;
                r.push(applied[j].duplicate());
                proof {
                    assert(names_of(r@) =~= names_of(pre).push(names_of(applied@)[j as int]));
                    assert(names_of(r@) =~= names_of(applied@).subrange(i + 1, j + 1));
                }
                j += 1;
            }
            proof {
                assert(names_of(r@) =~= names_of(applied@).skip(i + 1));
                assert(names_of(applied@)[i as int] == target@);
                assert(names_of(applied@).contains(target@));
                let w = choose|w: int|
                    0 <= w < applied@.len() && #[trigger] names_of(applied@)[w] == target@;
                if w != i {
                    assert(names_of(applied@)[w] == names_of(applied@)[i as int]);
                }
                assert(w == i);
            }
            return r;
        }
        i += 1;
    }
    proof {
        assert forall|j: int| 0 <= j < names_of(applied@).len() implies names_of(applied@)[j]
            != target@ by {}
    }
    Vec::new()
}

/// A path read from the store as raw bytes, as text; paths that are not
/// UTF-8 have no textual form.
pub fn path_from_bytes(b: &Vec<u8>) -> (r: Option<String>)
    ensures
        match r {
            Some(s) => valid_utf8(b@) && s@ == decode_utf8(b@),
            None => !valid_utf8(b@),
        },
{
    crate::stack::bytes_to_string(b)
}

/// The text of the `--index` option, for diagnostics.
fn index_text() -> (r: String)
    ensures
        r@ == "--index"@,
{
    <String as StringExecFns>::from_str("--index")
}

/// The text of the pathspec arguments, for diagnostics.
fn paths_text() -> (r: String)
    ensures
        r@ == "paths"@,
{
    <String as StringExecFns>::from_str("paths")
}

/// The text of the `--update` option, for diagnostics.
fn update_text() -> (r: String)
    ensures
        r@ == "--update"@,
{
    <String as StringExecFns>::from_str("--update")
}

/// The text of the `--submodules` option, for diagnostics.
fn submodules_text() -> (r: String)
    ensures
        r@ == "--submodules"@,
{
    <String as StringExecFns>::from_str("--submodules")
}

/// The text of the `--force` option, for diagnostics.
fn force_text() -> (r: String)
    ensures
        r@ == "--force"@,
{
    <String as StringExecFns>::from_str("--force")
}

} // verus!
