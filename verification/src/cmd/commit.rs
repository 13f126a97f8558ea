//! The `commit` command: finalize patches into the base of the stack and
//! remove them from the series.
//!
//! The driver parses arguments into a [`CommitSelection`], resolves it
//! here against the applied list, runs the empty-patch guard, checks that
//! head and top agree, and then rearranges and finalizes the selected
//! patches through a transaction.

use vstd::prelude::*;
use vstd::string::StringExecFns;

use crate::cmd::{CommandCategory, CommandInfo};
use crate::error::Error;
use crate::ids::{CommitMeta, CommitTable, Oid};
use crate::patchname::{names_contain, names_of, PatchName};
use crate::state::{StackState, StackView};

verus! {

/// The `commit` command's entry in the command listing.
pub fn get_command() -> (r: CommandInfo)
    ensures
        r.name@ == "commit"@,
        r.category == CommandCategory::StackManipulation,
{
    CommandInfo {
        name: <String as StringExecFns>::from_str("commit"),
        category: CommandCategory::StackManipulation,
    }
}

/// Which patches a `commit` invocation asks for: an explicit list, a count
/// of bottom-most applied patches, all applied patches, or — by default —
/// the bottommost one.
#[derive(Debug)]
pub enum CommitSelection {
    Names(Vec<PatchName>),
    Number(u64),
    All,
    Default,
}

/// The applied patches an explicit request denotes, in stack order.
pub open spec fn spec_selected(applied: Seq<Seq<char>>, requested: Seq<Seq<char>>) -> Seq<
    Seq<char>,
> {
    applied.filter(|n: Seq<char>| requested.contains(n))
}

/// Resolve a selection against the stack: explicit names may be any
/// visible (applied or unapplied) patches, and come back reordered to the
/// existing applied-then-unapplied order; a count takes that many patches
/// from the bottom and must not exceed what is applied; `All` and
/// `Default` need at least one applied patch.
pub fn resolve_commit_selection(
    applied: &Vec<PatchName>,
    unapplied: &Vec<PatchName>,
    sel: &CommitSelection,
) -> (r: Result<Vec<PatchName>, Error>)
    ensures
        match r {
            Ok(ns) => match sel {
                CommitSelection::Names(req) => {
                    &&& forall|i: int|
                        0 <= i < req@.len() ==> (names_of(applied@) + names_of(
                            unapplied@,
                        )).contains(#[trigger] names_of(req@)[i])
                    &&& names_of(ns@) == spec_selected(
                        names_of(applied@) + names_of(unapplied@),
                        names_of(req@),
                    )
                },
                CommitSelection::Number(n) => n <= applied@.len() && names_of(ns@) == names_of(
                    applied@,
                ).take(n as int),
                CommitSelection::All => applied@.len() > 0 && names_of(ns@) == names_of(applied@),
                CommitSelection::Default => applied@.len() > 0 && names_of(ns@) == names_of(
                    applied@,
                ).take(1),
            },
            Err(e) => match sel {
                CommitSelection::Names(req) => {
                    &&& e matches Error::PatchNotFound(t)
                    &&& names_of(req@).contains(t@)
                    &&& !(names_of(applied@) + names_of(unapplied@)).contains(t@)
                },
                CommitSelection::Number(n) => e matches Error::NotEnoughAppliedPatches(m) && m == n
                    && n > applied@.len(),
                CommitSelection::All => applied@.len() == 0 && (
                e matches Error::NoAppliedPatches),
                CommitSelection::Default => applied@.len() == 0 && (
                e matches Error::NoAppliedPatches),
            },
        },
{
    match sel {
        CommitSelection::Names(req) => {
            let mut visible: Vec<PatchName> = Vec::new();
            crate::patchname::append_all(&mut visible, applied);
            crate::patchname::append_all(&mut visible, unapplied);
            proof {
                assert(names_of(visible@) =~= names_of(applied@) + names_of(unapplied@));
            }
            select_by_names(&visible, req)
        },
        CommitSelection::Number(n) => {
            let count = *n;
            if count > applied.len() as u64 {
                return Err(Error::NotEnoughAppliedPatches(count));
            }
            let mut ns: Vec<PatchName> = Vec::new();
            let mut i: usize = 0;
            while (i as u64) < count
                invariant
                    count <= applied@.len(),
                    applied@.len() <= usize::MAX,
                    i <= count,
                    names_of(ns@) =~= names_of(applied@).take(i as int),
                decreases count - i,
            {
                let ghost pre = ns@;
                ns.push(applied[i].duplicate());
                proof {
                    assert(names_of(ns@) =~= names_of(pre).push(names_of(applied@)[i as int]));
                    assert(names_of(ns@) =~= names_of(applied@).take(i + 1));
                }
                i += 1;
            }
            Ok(ns)
        },
        CommitSelection::All => {
            if applied.len() == 0 {
                return Err(Error::NoAppliedPatches);
            }
            let mut ns: Vec<PatchName> = Vec::new();
            crate::patchname::append_all(&mut ns, applied);
            proof {
                assert(names_of(ns@) =~= names_of(applied@));
            }
            Ok(ns)
        },
        CommitSelection::Default => {
            if applied.len() == 0 {
                return Err(Error::NoAppliedPatches);
            }
            let mut ns: Vec<PatchName> = Vec::new();
            ns.push(applied[0].duplicate());
            proof {
                assert(names_of(ns@) =~= names_of(applied@).take(1));
            }
            Ok(ns)
        },
    }
}

/// Resolve an explicit request: every requested patch must be applied, and
/// the result lists them in the applied order.
fn select_by_names(applied: &Vec<PatchName>, req: &Vec<PatchName>) -> (r: Result<
    Vec<PatchName>,
    Error,
>)
    ensures
        match r {
            Ok(ns) => {
                &&& forall|i: int|
                    0 <= i < req@.len() ==> names_of(applied@).contains(
                        #[trigger] names_of(req@)[i],
                    )
                &&& names_of(ns@) == spec_selected(names_of(applied@), names_of(req@))
            },
            Err(e) => {
                &&& e matches Error::PatchNotFound(t)
                &&& names_of(req@).contains(t@)
                &&& !names_of(applied@).contains(t@)
            },
        },
{
    let mut i: usize = 0;
    while i < req.len()
        invariant
            i <= req@.len(),
            forall|j: int|
                0 <= j < i ==> names_of(applied@).contains(#[trigger] names_of(req@)[j]),
        decreases req@.len() - i,
    {
        if !names_contain(applied, &req[i]) {
            proof {
                assert(names_of(req@)[i as int] == req@[i as int]@);
                assert(names_of(req@).contains(names_of(req@)[i as int]));
            }
            return Err(Error::PatchNotFound(req[i].to_text()));
        }
        i += 1;
    }
    let mut ns: Vec<PatchName> = Vec::new();
    proof {
        reveal(Seq::filter);
        assert(names_of(ns@) =~= spec_selected(names_of(applied@).take(0), names_of(req@)));
    }
    let mut i: usize = 0;
    while i < applied.len()
        invariant
            i <= applied@.len(),
            forall|j: int|
                0 <= j < req@.len() ==> names_of(applied@).contains(#[trigger] names_of(req@)[j]),
            names_of(ns@) =~= spec_selected(names_of(applied@).take(i as int), names_of(req@)),
        decreases applied@.len() - i,
    {
        proof {
            reveal(Seq::filter);
            assert(names_of(applied@).take(i + 1).drop_last() =~= names_of(applied@).take(
                i as int,
            ));
            assert(names_of(applied@).take(i + 1).last() == names_of(applied@)[i as int]);
        }
        let ghost pre = ns@;
        if names_contain(req, &applied[i]) {
            ns.push(applied[i].duplicate());
            proof {
                assert(names_of(ns@) =~= names_of(pre).push(names_of(applied@)[i as int]));
                assert(names_of(ns@) =~= spec_selected(
                    names_of(applied@).take(i + 1),
                    names_of(req@),
                ));
            }
        } else {
            proof {
                assert(names_of(ns@) =~= spec_selected(
                    names_of(applied@).take(i + 1),
                    names_of(req@),
                ));
            }
        }
        i += 1;
    }
    assert(names_of(applied@).take(applied@.len() as int) =~= names_of(applied@));
    Ok(ns)
}

/// Whether everything the empty-patch guard reads of a patch is known: its
/// commit, that commit's first parent, and the parent's tree.
pub open spec fn patch_meta_known(v: StackView, m: Map<Oid, CommitMeta>, n: Seq<char>) -> bool {
    &&& v.patches.dom().contains(n)
    &&& m.dom().contains(v.patches[n])
    &&& m[v.patches[n]].parent is Some
    &&& m.dom().contains(m[v.patches[n]].parent->Some_0)
}

/// Whether a patch is empty: its commit's tree equals its first parent's
/// tree, so it changes nothing.
pub open spec fn is_empty_patch(v: StackView, m: Map<Oid, CommitMeta>, n: Seq<char>) -> bool {
    m[v.patches[n]].tree == m[m[v.patches[n]].parent->Some_0].tree
}

/// The empty patches among a selection, in selection order. Fails when a
/// selected patch's commit or parent is not registered.
pub fn find_empty_patches(
    selected: &Vec<PatchName>,
    state: &StackState,
    table: &CommitTable,
) -> (r: Result<Vec<PatchName>, Error>)
    ensures
        match r {
            Ok(es) => {
                &&& forall|i: int|
                    0 <= i < selected@.len() ==> patch_meta_known(
                        state@,
                        table@,
                        #[trigger] names_of(selected@)[i],
                    )
                &&& names_of(es@) == names_of(selected@).filter(
                    |n: Seq<char>| is_empty_patch(state@, table@, n),
                )
            },
            Err(e) => {
                &&& e matches Error::Vcs(_)
                &&& exists|i: int|
                    0 <= i < selected@.len() && !patch_meta_known(
                        state@,
                        table@,
                        #[trigger] names_of(selected@)[i],
                    )
            },
        },
{
    let mut es: Vec<PatchName> = Vec::new();
    proof {
        reveal(Seq::filter);
        assert(names_of(es@) =~= names_of(selected@).take(0).filter(
            |n: Seq<char>| is_empty_patch(state@, table@, n),
        ));
    }
    let mut i: usize = 0;
    while i < selected.len()
        invariant
            i <= selected@.len(),
            forall|j: int|
                0 <= j < i ==> patch_meta_known(state@, table@, #[trigger] names_of(selected@)[j]),
            names_of(es@) =~= names_of(selected@).take(i as int).filter(
                |n: Seq<char>| is_empty_patch(state@, table@, n),
            ),
        decreases selected@.len() - i,
    {
        let name = &selected[i];
        let oid = match state.patch_oid(name) {
            Some(oid) => oid,
            None => {
                proof {
                    assert(!patch_meta_known(state@, table@, names_of(selected@)[i as int]));
                }
                return Err(Error::Vcs(meta_missing_text()));
            },
        };
        let meta = match table.lookup(oid) {
            Some(m) => m,
            None => {
                proof {
                    assert(!patch_meta_known(state@, table@, names_of(selected@)[i as int]));
                }
                return Err(Error::Vcs(meta_missing_text()));
            },
        };
        let parent = match meta.parent {
            Some(p) => p,
            None => {
                proof {
                    assert(!patch_meta_known(state@, table@, names_of(selected@)[i as int]));
                }
                return Err(Error::Vcs(meta_missing_text()));
            },
        };
        let parent_meta = match table.lookup(parent) {
            Some(m) => m,
            None => {
                proof {
                    assert(!patch_meta_known(state@, table@, names_of(selected@)[i as int]));
                }
                return Err(Error::Vcs(meta_missing_text()));
            },
        };
        proof {
            reveal(Seq::filter);
            assert(names_of(selected@).take(i + 1).drop_last() =~= names_of(selected@).take(
                i as int,
            ));
            assert(names_of(selected@).take(i + 1).last() == names_of(selected@)[i as int]);
        }
        let ghost pre = es@;
        if parent_meta.tree == meta.tree {
            es.push(name.duplicate());
            proof {
                assert(names_of(es@) =~= names_of(pre).push(names_of(selected@)[i as int]));
                assert(names_of(es@) =~= names_of(selected@).take(i + 1).filter(
                    |n: Seq<char>| is_empty_patch(state@, table@, n),
                ));
            }
        } else {
            proof {
                assert(names_of(es@) =~= names_of(selected@).take(i + 1).filter(
                    |n: Seq<char>| is_empty_patch(state@, table@, n),
                ));
            }
        }
        i += 1;
    }
    assert(names_of(selected@).take(selected@.len() as int) =~= names_of(selected@));
    Ok(es)
}

/// The empty-patch guard: committing empty patches is refused unless the
/// caller allowed it; the error carries the empty patches' names.
pub fn check_commit_allowed(allow_empty: bool, empties: &Vec<PatchName>) -> (r: Result<(), Error>)
    ensures
        match r {
            Ok(()) => allow_empty || empties@.len() == 0,
            Err(e) => {
                &&& !allow_empty && empties@.len() > 0
                &&& e matches Error::CommitEmptyPatches(ts) && crate::cmd::refresh::texts_of(ts@)
                    == names_of(empties@)
            },
        },
{
    if allow_empty || empties.len() == 0 {
        return Ok(());
    }
    let mut ts: Vec<String> = Vec::new();
    let mut i: usize = 0;
    while i < empties.len()
        invariant
            i <= empties@.len(),
            crate::cmd::refresh::texts_of(ts@) =~= names_of(empties@).take(i as int),
        decreases empties@.len() - i,
    {
        let ghost pre = ts@;
        ts.push(empties[i].to_text());
        proof {
            assert(crate::cmd::refresh::texts_of(ts@) =~= crate::cmd::refresh::texts_of(
                pre,
            ).push(names_of(empties@)[i as int]));
            assert(crate::cmd::refresh::texts_of(ts@) =~= names_of(empties@).take(i + 1));
        }
        i += 1;
    }
    assert(names_of(empties@).take(empties@.len() as int) =~= names_of(empties@));
    Err(Error::CommitEmptyPatches(ts))
}

/// The length of the longest common prefix of two name sequences.
pub open spec fn prefix_match_len(a: Seq<Seq<char>>, b: Seq<Seq<char>>) -> int
    decreases a.len(),
{
    if a.len() == 0 || b.len() == 0 || a[0] != b[0] {
        0
    } else {
        1 + prefix_match_len(a.drop_first(), b.drop_first())
    }
}

/// The longest common prefix is a common prefix, no longer than either
/// sequence, and maximal.
pub proof fn lemma_prefix_match_props(a: Seq<Seq<char>>, b: Seq<Seq<char>>)
    ensures
        0 <= prefix_match_len(a, b) <= a.len(),
        prefix_match_len(a, b) <= b.len(),
        forall|j: int| 0 <= j < prefix_match_len(a, b) ==> a[j] == #[trigger] b[j],
    decreases a.len(),
{
    if a.len() == 0 || b.len() == 0 || a[0] != b[0] {
    } else {
        lemma_prefix_match_props(a.drop_first(), b.drop_first());
        assert forall|j: int| 0 <= j < prefix_match_len(a, b) implies a[j] == #[trigger] b[j] by {
            if j > 0 {
                assert(a.drop_first()[j - 1] == b.drop_first()[j - 1]);
            }
        }
    }
}

/// A pointwise-agreeing prefix that cannot be extended is the longest
/// common prefix.
proof fn lemma_prefix_match_at(a: Seq<Seq<char>>, b: Seq<Seq<char>>, i: int)
    requires
        0 <= i <= a.len(),
        i <= b.len(),
        forall|j: int| 0 <= j < i ==> a[j] == #[trigger] b[j],
        i == a.len() || i == b.len() || a[i] != b[i],
    ensures
        prefix_match_len(a, b) == i,
    decreases i,
{
    if a.len() == 0 || b.len() == 0 || a[0] != b[0] {
        assert(i == 0) by {
            if i > 0 {
                assert(a[0] == b[0]);
            }
        }
    } else {
        assert(i > 0) by {
            if i == 0 {
                assert(a[0] != b[0] || a.len() == 0 || b.len() == 0);
            }
        }
        assert(forall|j: int|
            0 <= j < i - 1 ==> a.drop_first()[j] == #[trigger] b.drop_first()[j]);
        if i < a.len() && i < b.len() {
            assert(a.drop_first()[i - 1] == a[i] && b.drop_first()[i - 1] == b[i]);
        }
        lemma_prefix_match_at(a.drop_first(), b.drop_first(), i - 1);
    }
}

/// Law: executing the rearrangement plan puts the selection at the
/// bottom. Popping the applied patches above the agreeing prefix and
/// pushing back the remaining selected names followed by anything else
/// leaves the applied sequence starting with exactly the selected names —
/// whatever commits the driver's merges produce.
pub proof fn lemma_plan_puts_selection_at_bottom(
    v: crate::state::StackView,
    selected: Seq<Seq<char>>,
    rest: Seq<Seq<char>>,
    oids: Seq<crate::ids::Oid>,
    empty_head: crate::ids::Oid,
)
    requires
        prefix_match_len(v.applied, selected) < selected.len(),
        selected.skip(prefix_match_len(v.applied, selected)).len() + rest.len() == oids.len(),
    ensures
        ({
            let k = prefix_match_len(v.applied, selected);
            let after = crate::state::spec_push_names(
                crate::state::spec_pop_patches(v, k, empty_head),
                selected.skip(k) + rest,
                oids,
            );
            &&& after.applied.len() >= selected.len()
            &&& after.applied.take(selected.len() as int) =~= selected
        }),
{
    lemma_prefix_match_props(v.applied, selected);
    crate::state::lemma_rearrangement_yields_bottom_prefix(
        v,
        selected,
        prefix_match_len(v.applied, selected),
        rest,
        oids,
        empty_head,
    );
}

/// How `commit` brings the selected patches to the bottom of the stack:
/// the applied patches to pop, and what to push back in order.
#[derive(Debug)]
pub struct RearrangePlan {
    /// The applied patches to pop, bottom to top: everything at or above
    /// the first applied position that disagrees with the selection.
    pub to_pop: Vec<PatchName>,
    /// What to push back: first the selected patches not already in
    /// place, then the popped patches that were not selected, each kept in
    /// its order.
    pub to_push: Vec<PatchName>,
}

/// Plan the rearrangement that puts the selected patches at the bottom of
/// the applied sequence: when the whole selection already sits there,
/// nothing moves; otherwise the longest applied prefix that agrees with
/// the selection stays, everything above it is popped, the remaining
/// selected patches are pushed, then the popped non-selected ones. The
/// driver performs the pops and pushes (each push is a merge) and then
/// finalizes the selection.
pub fn plan_rearrangement(applied: &Vec<PatchName>, selected: &Vec<PatchName>) -> (r:
    RearrangePlan)
    ensures
        ({
            let k = prefix_match_len(names_of(applied@), names_of(selected@));
            if k == selected@.len() {
                r.to_pop@.len() == 0 && r.to_push@.len() == 0
            } else {
                &&& names_of(r.to_pop@) == names_of(applied@).skip(k)
                &&& names_of(r.to_push@) == names_of(selected@).skip(k)
                    + crate::state::extras_of(
                    names_of(applied@).skip(k),
                    names_of(selected@),
                )
            }
        }),
{
    let mut i: usize = 0;
    let limit = if applied.len() < selected.len() {
        applied.len()
    } else {
        selected.len()
    };
    while i < limit
        invariant
            limit <= applied@.len(),
            limit <= selected@.len(),
            i <= limit,
            forall|j: int| 0 <= j < i ==> names_of(applied@)[j] == #[trigger] names_of(selected@)[j],
        decreases limit - i,
    {
        if !applied[i].same_as(&selected[i]) {
            proof {
                lemma_prefix_match_at(names_of(applied@), names_of(selected@), i as int);
            }
            return build_plan(applied, selected, i);
        }
        i += 1;
    }
    proof {
        lemma_prefix_match_at(names_of(applied@), names_of(selected@), limit as int);
    }
    if limit == selected.len() {
        // The whole selection already sits at the bottom: nothing moves.
        return RearrangePlan { to_pop: Vec::new(), to_push: Vec::new() };
    }
    build_plan(applied, selected, limit)
}

/// Assemble the plan once the agreeing prefix length is known.
fn build_plan(applied: &Vec<PatchName>, selected: &Vec<PatchName>, k: usize) -> (r: RearrangePlan)
    requires
        k <= applied@.len(),
        k <= selected@.len(),
        k as int == prefix_match_len(names_of(applied@), names_of(selected@)),
    ensures
        names_of(r.to_pop@) == names_of(applied@).skip(k as int),
        names_of(r.to_push@) == names_of(selected@).skip(k as int) + crate::state::extras_of(
            names_of(applied@).skip(k as int),
            names_of(selected@),
        ),
{
    let mut to_pop: Vec<PatchName> = Vec::new();
    let mut j: usize = k;
    while j < applied.len()
        invariant
            k <= j <= applied@.len(),
            names_of(to_pop@) =~= names_of(applied@).subrange(k as int, j as int),
        decreases applied@.len() - j,
    {
        let ghost pre = to_pop@;
        to_pop.push(applied[j].duplicate());
        proof {
            assert(names_of(to_pop@) =~= names_of(pre).push(names_of(applied@)[j as int]));
            assert(names_of(to_pop@) =~= names_of(applied@).subrange(k as int, j + 1));
        }
        j += 1;
    }
    assert(names_of(to_pop@) =~= names_of(applied@).skip(k as int));
    let mut to_push: Vec<PatchName> = Vec::new();
    let mut j: usize = k;
    while j < selected.len()
        invariant
            k <= j <= selected@.len(),
            names_of(to_push@) =~= names_of(selected@).subrange(k as int, j as int),
        decreases selected@.len() - j,
    {
        let ghost pre = to_push@;
        to_push.push(selected[j].duplicate());
        proof {
            assert(names_of(to_push@) =~= names_of(pre).push(names_of(selected@)[j as int]));
            assert(names_of(to_push@) =~= names_of(selected@).subrange(k as int, j + 1));
        }
        j += 1;
    }
    assert(names_of(to_push@) =~= names_of(selected@).skip(k as int));
    let ghost pushed_sel = names_of(to_push@);
    let ghost popped = names_of(applied@).skip(k as int);
    proof {
        reveal(Seq::filter);
        assert(names_of(to_push@) =~= pushed_sel + crate::state::extras_of(
            popped.take(0),
            names_of(selected@),
        ));
    }
    let mut j: usize = 0;
    while j < to_pop.len()
        invariant
            j <= to_pop@.len(),
            popped == names_of(to_pop@),
            names_of(to_push@) =~= pushed_sel + crate::state::extras_of(
                popped.take(j as int),
                names_of(selected@),
            ),
        decreases to_pop@.len() - j,
    {
        proof {
            reveal(Seq::filter);
            assert(popped.take(j + 1).drop_last() =~= popped.take(j as int));
            assert(popped.take(j + 1).last() == popped[j as int]);
        }
        let ghost pre = to_push@;
        if !names_contain(selected, &to_pop[j]) {
            to_push.push(to_pop[j].duplicate());
            proof {
                assert(names_of(to_push@) =~= names_of(pre).push(popped[j as int]));
                assert(names_of(to_push@) =~= pushed_sel + crate::state::extras_of(
                    popped.take(j + 1),
                    names_of(selected@),
                ));
            }
        } else {
            proof {
                assert(names_of(to_push@) =~= pushed_sel + crate::state::extras_of(
                    popped.take(j + 1),
                    names_of(selected@),
                ));
            }
        }
        j += 1;
    }
    proof {
        assert(popped.take(popped.len() as int) =~= popped);
    }
    RearrangePlan { to_pop, to_push }
}

/// The message reported when a selected patch's commit metadata is not
/// registered.
fn meta_missing_text() -> (r: String)
    ensures
        r@ == "patch commit not registered"@,
{
    <String as StringExecFns>::from_str("patch commit not registered")
}

} // verus!
