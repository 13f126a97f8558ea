use stgit::cmd::commit::{
    check_commit_allowed, find_empty_patches, get_command as commit_command, plan_rearrangement,
    resolve_commit_selection, CommitSelection,
};
use stgit::cmd::refresh::{
    absorb_next, absorb_start, determine_refresh_paths, get_command as refresh_command,
    patches_above, path_from_bytes, plan_refresh, resolve_target_patch, resolve_use_submodules,
    temp_patch_name, validate_refresh_options, AbsorbStep, RefreshOptions, RefreshPlan,
};
use stgit::cmd::CommandCategory;
use stgit::error::Error;
use stgit::ids::{CommitMeta, CommitTable, Oid};
use stgit::patchname::PatchName;
use stgit::state::StackState;
use stgit::transaction::{ExecuteDecision, Transaction};

fn name(s: &str) -> PatchName {
    PatchName::parse(s).unwrap()
}

fn options() -> RefreshOptions {
    RefreshOptions {
        pathspecs: vec![],
        update: false,
        index: false,
        force: false,
        patch: None,
        annotate: None,
        submodules: None,
        skip_hook: false,
    }
}

/// A stack [p1, p2, p3] on base commit 1, with all commit metadata
/// registered; p2's tree equals p1's tree, so p2 is empty.
fn sample() -> (StackState, CommitTable) {
    let mut st = StackState::new(Oid::new(1));
    st.new_applied(&name("p1"), Oid::new(10)).unwrap();
    st.new_applied(&name("p2"), Oid::new(20)).unwrap();
    st.new_applied(&name("p3"), Oid::new(30)).unwrap();
    let mut t = CommitTable::new();
    t.record(Oid::new(1), CommitMeta { parent: None, tree: Oid::new(100) }).unwrap();
    t.record(Oid::new(10), CommitMeta { parent: Some(Oid::new(1)), tree: Oid::new(110) }).unwrap();
    t.record(Oid::new(20), CommitMeta { parent: Some(Oid::new(10)), tree: Oid::new(110) })
        .unwrap();
    t.record(Oid::new(30), CommitMeta { parent: Some(Oid::new(20)), tree: Oid::new(130) })
        .unwrap();
    (st, t)
}

#[test]
fn command_listing_entries() {
    let c = commit_command();
    assert_eq!(c.name, "commit");
    assert_eq!(c.category, CommandCategory::StackManipulation);
    let r = refresh_command();
    assert_eq!(r.name, "refresh");
    assert_eq!(r.category, CommandCategory::PatchManipulation);
}

#[test]
fn selection_by_number_takes_bottom_patches() {
    let (st, _) = sample();
    let ns = resolve_commit_selection(st.applied(), st.unapplied(), &CommitSelection::Number(2)).unwrap();
    let texts: Vec<&str> = ns.iter().map(|p| p.as_str()).collect();
    assert_eq!(texts, ["p1", "p2"]);
    assert!(matches!(
        resolve_commit_selection(st.applied(), st.unapplied(), &CommitSelection::Number(4)),
        Err(Error::NotEnoughAppliedPatches(4))
    ));
    let none = resolve_commit_selection(st.applied(), st.unapplied(), &CommitSelection::Number(0)).unwrap();
    assert!(none.is_empty());
}

#[test]
fn selection_by_names_follows_stack_order() {
    let (st, _) = sample();
    let ns = resolve_commit_selection(
        st.applied(),
        st.unapplied(),
        &CommitSelection::Names(vec![name("p2"), name("p1")]),
    )
    .unwrap();
    let texts: Vec<&str> = ns.iter().map(|p| p.as_str()).collect();
    assert_eq!(texts, ["p1", "p2"]);
    assert!(matches!(
        resolve_commit_selection(st.applied(), st.unapplied(), &CommitSelection::Names(vec![name("zzz")])),
        Err(Error::PatchNotFound(_))
    ));
}

#[test]
fn selection_all_and_default() {
    let (st, _) = sample();
    let all = resolve_commit_selection(st.applied(), st.unapplied(), &CommitSelection::All).unwrap();
    assert_eq!(all.len(), 3);
    let one = resolve_commit_selection(st.applied(), st.unapplied(), &CommitSelection::Default).unwrap();
    assert_eq!(one.len(), 1);
    assert_eq!(one[0].as_str(), "p1");

    let empty = StackState::new(Oid::new(1));
    assert!(matches!(
        resolve_commit_selection(empty.applied(), empty.unapplied(), &CommitSelection::All),
        Err(Error::NoAppliedPatches)
    ));
    assert!(matches!(
        resolve_commit_selection(empty.applied(), empty.unapplied(), &CommitSelection::Default),
        Err(Error::NoAppliedPatches)
    ));
}

#[test]
fn empty_patch_guard_names_the_empty_patch() {
    let (st, t) = sample();
    let empties = find_empty_patches(&vec![name("p1"), name("p2")], &st, &t).unwrap();
    assert_eq!(empties.len(), 1);
    assert_eq!(empties[0].as_str(), "p2");

    assert!(check_commit_allowed(true, &empties).is_ok());
    match check_commit_allowed(false, &empties) {
        Err(Error::CommitEmptyPatches(ts)) => assert_eq!(ts, ["p2"]),
        other => panic!("unexpected: {other:?}"),
    }
    let no_empties = find_empty_patches(&vec![name("p3")], &st, &t).unwrap();
    assert!(no_empties.is_empty());
    assert!(check_commit_allowed(false, &no_empties).is_ok());
}

#[test]
fn commit_two_bottom_patches_leaves_the_rest() {
    // Applied [p1, p2, p3]: committing the bottom two leaves [p3] with the
    // branch tip unchanged.
    let (st, t) = sample();
    let mut trans = Transaction::new(&st, t, true, true);
    let sel = resolve_commit_selection(trans.applied(), trans.unapplied(), &CommitSelection::Number(2)).unwrap();
    trans.commit_patches(&sel);
    let texts: Vec<&str> = trans.applied().iter().map(|p| p.as_str()).collect();
    assert_eq!(texts, ["p3"]);
    assert_eq!(trans.head(), Oid::new(30));
    assert_eq!(trans.get_patch_commit(&name("p1")), None);
    match trans.prepare_execute(Oid::new(77)) {
        ExecuteDecision::Advance(s) => {
            assert_eq!(s.head(), Oid::new(30));
            assert_eq!(s.prev(), Some(Oid::new(77)));
        },
        other => panic!("unexpected: {other:?}"),
    }
}

#[test]
fn transaction_without_operations_is_not_recorded() {
    let (st, t) = sample();
    let trans = Transaction::new(&st, t, false, false);
    assert!(matches!(trans.prepare_execute(Oid::new(77)), ExecuteDecision::Unchanged));
}

#[test]
fn conflicts_roll_back_unless_top_is_preserved() {
    let (st, t) = sample();
    let mut trans = Transaction::new(&st, t, true, false);
    trans.pop_patches(&vec![name("p3")]).unwrap();
    trans
        .record_commit(Oid::new(31), CommitMeta { parent: Some(Oid::new(20)), tree: Oid::new(131) })
        .unwrap();
    trans.push_patch(&name("p3"), Oid::new(31), true).unwrap();
    // Same top, but conflicts are not tolerated by this transaction.
    assert!(matches!(trans.prepare_execute(Oid::new(77)), ExecuteDecision::ConflictsAbort));

    let (st2, t2) = sample();
    let mut trans2 = Transaction::new(&st2, t2, true, true);
    trans2.pop_patches(&vec![name("p3")]).unwrap();
    trans2
        .record_commit(Oid::new(31), CommitMeta { parent: Some(Oid::new(20)), tree: Oid::new(131) })
        .unwrap();
    trans2.push_patch(&name("p3"), Oid::new(31), true).unwrap();
    assert!(matches!(trans2.prepare_execute(Oid::new(77)), ExecuteDecision::Advance(_)));
}

#[test]
fn new_applied_requires_commit_on_head() {
    let (st, t) = sample();
    let mut trans = Transaction::new(&st, t, false, false);
    // Not registered at all.
    assert!(matches!(trans.new_applied(&name("tmp"), Oid::new(40)), Err(Error::Vcs(_))));
    trans
        .record_commit(Oid::new(40), CommitMeta { parent: Some(Oid::new(30)), tree: Oid::new(140) })
        .unwrap();
    trans.new_applied(&name("tmp"), Oid::new(40)).unwrap();
    assert_eq!(trans.head(), Oid::new(40));
    // A commit whose parent is not the new head is refused.
    trans
        .record_commit(Oid::new(50), CommitMeta { parent: Some(Oid::new(30)), tree: Oid::new(150) })
        .unwrap();
    assert!(matches!(trans.new_applied(&name("tmp2"), Oid::new(50)), Err(Error::Vcs(_))));
}

#[test]
fn refresh_option_conflicts_are_rejected() {
    // Refreshing from the index excludes path limiting.
    let mut o = options();
    o.index = true;
    o.pathspecs = vec!["src/a.rs".to_string()];
    assert!(matches!(validate_refresh_options(&o), Err(Error::ConflictingOptions(_, _))));

    let mut o2 = options();
    o2.index = true;
    o2.update = true;
    assert!(matches!(validate_refresh_options(&o2), Err(Error::ConflictingOptions(_, _))));

    let mut o3 = options();
    o3.index = true;
    assert!(validate_refresh_options(&o3).is_ok());
    assert!(validate_refresh_options(&options()).is_ok());
}

#[test]
fn submodule_choice_falls_back_to_configuration() {
    let mut o = options();
    assert!(!resolve_use_submodules(&o, None));
    assert!(resolve_use_submodules(&o, Some(true)));
    o.submodules = Some(false);
    assert!(!resolve_use_submodules(&o, Some(true)));
    o.submodules = Some(true);
    assert!(resolve_use_submodules(&o, None));
}

#[test]
fn target_patch_defaults_to_top() {
    let (st, _) = sample();
    assert_eq!(resolve_target_patch(&st, None).unwrap().as_str(), "p3");
    assert_eq!(resolve_target_patch(&st, Some(&name("p1"))).unwrap().as_str(), "p1");
    assert!(matches!(resolve_target_patch(&st, Some(&name("zz"))), Err(Error::PatchNotFound(_))));
    let empty = StackState::new(Oid::new(1));
    assert!(matches!(resolve_target_patch(&empty, None), Err(Error::NoAppliedPatches)));
}

#[test]
fn refresh_paths_intersect_patch_paths() {
    let status = vec!["a.txt".to_string(), "b.txt".to_string(), "c.txt".to_string()];
    let patch = vec!["b.txt".to_string(), "z.txt".to_string()];
    let paths =
        determine_refresh_paths(&status, Some(&patch), &vec![], true, false, false).unwrap();
    assert_eq!(paths, ["b.txt"]);
    let all = determine_refresh_paths(&status, None, &vec![], true, false, false).unwrap();
    assert_eq!(all, ["a.txt", "b.txt", "c.txt"]);
}

#[test]
fn refresh_refuses_conflicted_paths() {
    let status = vec!["a.txt".to_string()];
    let conflicts = vec!["a.txt".to_string()];
    assert!(matches!(
        determine_refresh_paths(&status, None, &conflicts, true, true, false),
        Err(Error::OutstandingConflicts)
    ));
    let elsewhere = vec!["other.txt".to_string()];
    assert!(determine_refresh_paths(&status, None, &elsewhere, true, true, false).is_ok());
}

#[test]
fn error_messages_spell_out_the_diagnosis() {
    assert_eq!(
        Error::DirtyIndexAndWorktree.message(),
        "The index is dirty; consider using `--index` or `--force`"
    );
    assert_eq!(
        Error::NotEnoughAppliedPatches(4).message(),
        "There are not `4` applied patches to commit"
    );
    assert_eq!(
        Error::CommitEmptyPatches(vec!["p2".to_string()]).message(),
        "Attempt to commit empty patch `p2`; use --allow-empty to override"
    );
    assert_eq!(
        Error::CommitEmptyPatches(vec!["a".to_string(), "b".to_string()]).message(),
        "Attempt to commit 2 empty patches; use `--allow-empty` to override"
    );
    assert_eq!(Error::BranchNotFound("dev".to_string()).message(), "branch `dev` not found");
}

#[test]
fn dirty_index_and_worktree_need_force() {
    let status = vec!["a.txt".to_string()];
    assert!(matches!(
        determine_refresh_paths(&status, None, &vec![], false, false, false),
        Err(Error::DirtyIndexAndWorktree)
    ));
    assert!(determine_refresh_paths(&status, None, &vec![], false, false, true).is_ok());
    assert!(determine_refresh_paths(&status, None, &vec![], false, true, false).is_ok());
    assert!(determine_refresh_paths(&status, None, &vec![], true, false, false).is_ok());
}

#[test]
fn refresh_with_no_changes_is_a_no_op() {
    // No changed paths and the tree not taken from the index: nothing to
    // do, so no temporary patch and no transaction — the snapshot stays
    // and no stack-state commit is recorded.
    assert!(matches!(plan_refresh(false, vec![]), RefreshPlan::NoChanges));
    match plan_refresh(false, vec!["a.txt".to_string()]) {
        RefreshPlan::Worktree(ps) => assert_eq!(ps, ["a.txt"]),
        other => panic!("unexpected: {other:?}"),
    }
    assert!(matches!(plan_refresh(true, vec![]), RefreshPlan::FromIndex));
}

#[test]
fn temporary_patch_name_avoids_collisions() {
    let (st, _) = sample();
    let fresh = temp_patch_name(&st.all_patch_names());
    assert_eq!(fresh.as_str(), "refresh-temp");

    let mut st2 = StackState::new(Oid::new(1));
    st2.new_applied(&name("refresh-temp"), Oid::new(10)).unwrap();
    let fresh2 = temp_patch_name(&st2.all_patch_names());
    assert_eq!(fresh2.as_str(), "refresh-temp-1");
}

#[test]
fn patches_above_target() {
    let (st, _) = sample();
    let above = patches_above(st.applied(), &name("p1"));
    let texts: Vec<&str> = above.iter().map(|p| p.as_str()).collect();
    assert_eq!(texts, ["p2", "p3"]);
    assert!(patches_above(st.applied(), &name("p3")).is_empty());
    assert!(patches_above(st.applied(), &name("zz")).is_empty());
}

#[test]
fn refresh_of_non_top_patch_pops_and_repushes() {
    // Refresh of p2 in [p1, p2, p3]: pop above p2, push the temporary
    // patch, fold it into p2, delete it, and re-push what was popped.
    let (st, t) = sample();
    let mut trans = Transaction::new(&st, t, true, false);
    let target = name("p2");

    // Temporary patch on top of p3.
    trans
        .record_commit(Oid::new(40), CommitMeta { parent: Some(Oid::new(30)), tree: Oid::new(140) })
        .unwrap();
    let temp = temp_patch_name(&st.all_patch_names());
    trans.new_applied(&temp, Oid::new(40)).unwrap();

    // Pop everything above the target (including the temporary patch),
    // then bring the temporary patch back so it sits right on the target.
    let extras = trans.pop_patches(&vec![name("p3"), temp.duplicate()]).unwrap();
    assert!(extras.is_empty());
    trans
        .record_commit(Oid::new(41), CommitMeta { parent: Some(Oid::new(20)), tree: Oid::new(141) })
        .unwrap();
    trans.push_patch(&temp, Oid::new(41), false).unwrap();

    // Fold: delete the temporary patch, update the target.
    trans.delete_patch(&temp).unwrap();
    trans
        .record_commit(Oid::new(21), CommitMeta { parent: Some(Oid::new(10)), tree: Oid::new(141) })
        .unwrap();
    trans.update_patch(&target, Oid::new(21)).unwrap();

    // Re-push what was popped.
    trans
        .record_commit(Oid::new(31), CommitMeta { parent: Some(Oid::new(21)), tree: Oid::new(130) })
        .unwrap();
    trans.push_patch(&name("p3"), Oid::new(31), false).unwrap();

    let texts: Vec<&str> = trans.applied().iter().map(|p| p.as_str()).collect();
    assert_eq!(texts, ["p1", "p2", "p3"]);
    assert_eq!(trans.get_patch_commit(&target), Some(Oid::new(21)));
    assert_eq!(trans.head(), Oid::new(31));
    assert!(matches!(trans.prepare_execute(Oid::new(88)), ExecuteDecision::Advance(_)));
}

#[test]
fn paths_from_bytes_decode_utf8() {
    assert_eq!(path_from_bytes(&b"src/caf\xc3\xa9.rs".to_vec()).unwrap(), "src/caf\u{e9}.rs");
    assert_eq!(path_from_bytes(&vec![0x61, 0xff]), None);
}

#[test]
fn selection_may_name_unapplied_patches() {
    // A visible (unapplied) patch may be committed; the selection comes
    // back in applied-then-unapplied order.
    let (mut st, _) = sample();
    st.pop_patches(&vec![name("p3")], Oid::new(1));
    let ns = resolve_commit_selection(
        st.applied(),
        st.unapplied(),
        &CommitSelection::Names(vec![name("p3"), name("p1")]),
    )
    .unwrap();
    let texts: Vec<&str> = ns.iter().map(|p| p.as_str()).collect();
    assert_eq!(texts, ["p1", "p3"]);
    // A hidden or absent patch is still refused.
    assert!(matches!(
        resolve_commit_selection(
            st.applied(),
            st.unapplied(),
            &CommitSelection::Names(vec![name("nope")]),
        ),
        Err(Error::PatchNotFound(_))
    ));
}

#[test]
fn rearrangement_plan_brings_selection_to_bottom() {
    let (st, _) = sample();
    // Selecting the middle patch: nothing agrees, so everything pops and
    // the selected patch is pushed first.
    let plan = plan_rearrangement(st.applied(), &vec![name("p2")]);
    let pops: Vec<&str> = plan.to_pop.iter().map(|p| p.as_str()).collect();
    let pushes: Vec<&str> = plan.to_push.iter().map(|p| p.as_str()).collect();
    assert_eq!(pops, ["p1", "p2", "p3"]);
    assert_eq!(pushes, ["p2", "p1", "p3"]);

    // A selection that is already the bottom needs no rearrangement.
    let plan2 = plan_rearrangement(st.applied(), &vec![name("p1"), name("p2")]);
    assert!(plan2.to_pop.is_empty());
    assert!(plan2.to_push.is_empty());

    // Committing the top patch pops everything and pushes it first.
    let plan3 = plan_rearrangement(st.applied(), &vec![name("p3")]);
    let pops3: Vec<&str> = plan3.to_pop.iter().map(|p| p.as_str()).collect();
    let pushes3: Vec<&str> = plan3.to_push.iter().map(|p| p.as_str()).collect();
    assert_eq!(pops3, ["p1", "p2", "p3"]);
    assert_eq!(pushes3, ["p3", "p1", "p2"]);
}

#[test]
fn commit_rearranged_selection_through_transaction() {
    // Commit the middle patch of [p1, p2, p3]: rearrange so p2 sits at the
    // bottom, then finalize it, leaving [p1, p3].
    let (st, t) = sample();
    let mut trans = Transaction::new(&st, t, true, true);
    let selected = vec![name("p2")];
    let plan = plan_rearrangement(st.applied(), &selected);
    trans.pop_patches(&plan.to_pop).unwrap();
    // The driver's merges produce fresh commits chained on the base.
    let mut next_commit = 40u64;
    let mut next_tree = 140u64;
    for pn in &plan.to_push {
        let head = trans.head();
        trans
            .record_commit(
                Oid::new(next_commit),
                CommitMeta { parent: Some(head), tree: Oid::new(next_tree) },
            )
            .unwrap();
        trans.push_patch(pn, Oid::new(next_commit), false).unwrap();
        next_commit += 1;
        next_tree += 1;
    }
    let texts: Vec<&str> = trans.applied().iter().map(|p| p.as_str()).collect();
    assert_eq!(texts, ["p2", "p1", "p3"]);
    trans.commit_patches(&selected);
    let texts: Vec<&str> = trans.applied().iter().map(|p| p.as_str()).collect();
    assert_eq!(texts, ["p1", "p3"]);
    assert!(matches!(trans.prepare_execute(Oid::new(77)), ExecuteDecision::Advance(_)));
}

#[test]
fn absorb_steps_follow_the_protocol() {
    // Clean absorb into an applied target with one patch to re-push.
    let mut step = absorb_start();
    assert_eq!(step, AbsorbStep::PopAboveTarget);
    step = absorb_next(step, true, false, 1);
    assert_eq!(step, AbsorbStep::MergeTemp);
    step = absorb_next(step, true, false, 1);
    assert_eq!(step, AbsorbStep::FoldIntoTarget);
    step = absorb_next(step, true, false, 1);
    assert_eq!(step, AbsorbStep::Repush(0));
    step = absorb_next(step, true, false, 1);
    assert_eq!(step, AbsorbStep::Done);

    // A conflicted merge abandons the absorb, keeping the partial state.
    let conflicted = absorb_next(AbsorbStep::MergeTemp, true, true, 1);
    assert_eq!(conflicted, AbsorbStep::Abandon);

    // An unapplied target has nothing to re-push.
    let after_fold = absorb_next(AbsorbStep::FoldIntoTarget, false, false, 0);
    assert_eq!(after_fold, AbsorbStep::Done);

    // A conflicted re-push abandons as well.
    assert_eq!(absorb_next(AbsorbStep::Repush(0), true, true, 2), AbsorbStep::Abandon);
    assert_eq!(absorb_next(AbsorbStep::Repush(0), true, false, 2), AbsorbStep::Repush(1));
}

#[test]
fn pop_and_delete_need_a_readable_base() {
    // With the bottom patch's commit unregistered, the base cannot be
    // read: popping and deleting fail, and nothing changes.
    let mut st = StackState::new(Oid::new(1));
    st.new_applied(&name("p1"), Oid::new(10)).unwrap();
    let mut trans = Transaction::new(&st, CommitTable::new(), true, false);
    assert!(matches!(trans.base(), Err(Error::Vcs(_))));
    assert!(matches!(trans.pop_patches(&vec![name("p1")]), Err(Error::Vcs(_))));
    assert!(matches!(trans.delete_patch(&name("p1")), Err(Error::Vcs(_))));
    assert_eq!(trans.applied().len(), 1);
    assert!(matches!(trans.prepare_execute(Oid::new(77)), ExecuteDecision::Unchanged));

    // With the commit registered, the same operations go through.
    let mut table = CommitTable::new();
    table.record(Oid::new(10), CommitMeta { parent: Some(Oid::new(1)), tree: Oid::new(110) })
        .unwrap();
    let mut trans2 = Transaction::new(&st, table, true, false);
    assert_eq!(trans2.base().unwrap(), Oid::new(1));
    trans2.delete_patch(&name("p1")).unwrap();
    assert!(trans2.applied().is_empty());
    assert_eq!(trans2.head(), Oid::new(1));

    // With nothing applied, the base is the head and needs no registry.
    let empty = StackState::new(Oid::new(5));
    let trans3 = Transaction::new(&empty, CommitTable::new(), false, false);
    assert_eq!(trans3.base().unwrap(), Oid::new(5));
}
