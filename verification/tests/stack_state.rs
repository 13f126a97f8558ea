use stgit::error::Error;
use stgit::ids::{CommitMeta, CommitTable, Oid};
use stgit::patchname::PatchName;
use stgit::stack::{
    get_branch, get_branch_name, state_refname_from_branch_name, BranchLookup, HeadInfo,
    RepositoryMode, Stack,
};
use stgit::state::{PatchDesc, StackState};

fn name(s: &str) -> PatchName {
    PatchName::parse(s).unwrap()
}

fn applied_names(state: &StackState) -> Vec<String> {
    state.applied().iter().map(|p| p.as_str().to_string()).collect()
}

fn unapplied_names(state: &StackState) -> Vec<String> {
    state.unapplied().iter().map(|p| p.as_str().to_string()).collect()
}

#[test]
fn empty_state_has_no_patches() {
    let st = StackState::new(Oid::new(7));
    assert_eq!(st.head(), Oid::new(7));
    assert_eq!(st.prev(), None);
    assert!(st.applied().is_empty());
    assert!(st.unapplied().is_empty());
    assert!(st.hidden().is_empty());
}

#[test]
fn new_applied_moves_head() {
    let mut st = StackState::new(Oid::new(1));
    st.new_applied(&name("a"), Oid::new(10)).unwrap();
    st.new_applied(&name("b"), Oid::new(20)).unwrap();
    assert_eq!(applied_names(&st), ["a", "b"]);
    assert_eq!(st.head(), Oid::new(20));
    assert_eq!(st.patch_oid(&name("a")), Some(Oid::new(10)));
    assert_eq!(st.patch_oid(&name("b")), Some(Oid::new(20)));
    assert_eq!(st.patch_oid(&name("c")), None);
}

#[test]
fn new_applied_rejects_duplicate_name() {
    let mut st = StackState::new(Oid::new(1));
    st.new_applied(&name("a"), Oid::new(10)).unwrap();
    assert!(matches!(st.new_applied(&name("a"), Oid::new(11)), Err(Error::PatchNameExists(_))));
    assert_eq!(st.head(), Oid::new(10));
}

#[test]
fn pop_moves_names_to_front_of_unapplied() {
    let mut st = StackState::new(Oid::new(1));
    st.new_applied(&name("a"), Oid::new(10)).unwrap();
    st.new_applied(&name("b"), Oid::new(20)).unwrap();
    st.new_applied(&name("c"), Oid::new(30)).unwrap();
    let extras = st.pop_patches(&vec![name("b")], Oid::new(1));
    assert_eq!(applied_names(&st), ["a"]);
    assert_eq!(unapplied_names(&st), ["b", "c"]);
    assert_eq!(extras.len(), 1);
    assert_eq!(extras[0].as_str(), "c");
    assert_eq!(st.head(), Oid::new(10));
}

#[test]
fn pop_everything_returns_to_base() {
    let mut st = StackState::new(Oid::new(1));
    st.new_applied(&name("a"), Oid::new(10)).unwrap();
    let extras = st.pop_patches(&vec![name("a")], Oid::new(1));
    assert!(extras.is_empty());
    assert!(st.applied().is_empty());
    assert_eq!(unapplied_names(&st), ["a"]);
    assert_eq!(st.head(), Oid::new(1));
}

#[test]
fn push_reapplies_a_stored_patch() {
    let mut st = StackState::new(Oid::new(1));
    st.new_applied(&name("a"), Oid::new(10)).unwrap();
    st.pop_patches(&vec![name("a")], Oid::new(1));
    st.push_patch(&name("a"), Oid::new(11)).unwrap();
    assert_eq!(applied_names(&st), ["a"]);
    assert!(st.unapplied().is_empty());
    assert_eq!(st.head(), Oid::new(11));
    assert_eq!(st.patch_oid(&name("a")), Some(Oid::new(11)));
}

#[test]
fn push_rejects_unknown_patch() {
    let mut st = StackState::new(Oid::new(1));
    assert!(matches!(st.push_patch(&name("nope"), Oid::new(5)), Err(Error::PatchNotFound(_))));
}

#[test]
fn update_patch_moves_head_only_for_top() {
    let mut st = StackState::new(Oid::new(1));
    st.new_applied(&name("a"), Oid::new(10)).unwrap();
    st.new_applied(&name("b"), Oid::new(20)).unwrap();
    st.update_patch(&name("b"), Oid::new(21)).unwrap();
    assert_eq!(st.head(), Oid::new(21));
    assert_eq!(st.patch_oid(&name("b")), Some(Oid::new(21)));
    assert!(matches!(st.update_patch(&name("zzz"), Oid::new(5)), Err(Error::PatchNotFound(_))));
}

#[test]
fn rename_patch_keeps_commit() {
    let mut st = StackState::new(Oid::new(1));
    st.new_applied(&name("a"), Oid::new(10)).unwrap();
    st.rename_patch(&name("a"), &name("b")).unwrap();
    assert_eq!(applied_names(&st), ["b"]);
    assert_eq!(st.patch_oid(&name("b")), Some(Oid::new(10)));
    assert_eq!(st.patch_oid(&name("a")), None);
}

#[test]
fn rename_patch_rejects_collision() {
    let mut st = StackState::new(Oid::new(1));
    st.new_applied(&name("a"), Oid::new(10)).unwrap();
    st.new_applied(&name("b"), Oid::new(20)).unwrap();
    assert!(matches!(st.rename_patch(&name("a"), &name("b")), Err(Error::PatchNameExists(_))));
    assert!(matches!(st.rename_patch(&name("zzz"), &name("c")), Err(Error::PatchNotFound(_))));
}

#[test]
fn delete_top_patch_lowers_head() {
    let mut st = StackState::new(Oid::new(1));
    st.new_applied(&name("a"), Oid::new(10)).unwrap();
    st.new_applied(&name("b"), Oid::new(20)).unwrap();
    st.delete_patch(&name("b"), Oid::new(1)).unwrap();
    assert_eq!(applied_names(&st), ["a"]);
    assert_eq!(st.head(), Oid::new(10));
    assert_eq!(st.patch_oid(&name("b")), None);
}

#[test]
fn commit_then_uncommit_restores_the_stack() {
    let mut st = StackState::new(Oid::new(1));
    st.new_applied(&name("p1"), Oid::new(10)).unwrap();
    st.new_applied(&name("p2"), Oid::new(20)).unwrap();
    st.new_applied(&name("p3"), Oid::new(30)).unwrap();

    st.commit_patches(&vec![name("p1")]);
    assert_eq!(applied_names(&st), ["p2", "p3"]);
    assert_eq!(st.patch_oid(&name("p1")), None);
    assert_eq!(st.head(), Oid::new(30));

    st.uncommit_patches(&vec![PatchDesc { name: name("p1"), oid: Oid::new(10) }]);
    assert_eq!(applied_names(&st), ["p1", "p2", "p3"]);
    assert_eq!(st.patch_oid(&name("p1")), Some(Oid::new(10)));
    assert_eq!(st.patch_oid(&name("p2")), Some(Oid::new(20)));
    assert_eq!(st.patch_oid(&name("p3")), Some(Oid::new(30)));
    assert_eq!(st.head(), Oid::new(30));
}

#[test]
fn from_parts_round_trips_a_snapshot() {
    let applied = vec![
        PatchDesc { name: name("p1"), oid: Oid::new(10) },
        PatchDesc { name: name("p2"), oid: Oid::new(20) },
    ];
    let unapplied = vec![PatchDesc { name: name("u1"), oid: Oid::new(30) }];
    let hidden = vec![PatchDesc { name: name("h1"), oid: Oid::new(40) }];
    let st = StackState::from_parts(Oid::new(20), Some(Oid::new(99)), &applied, &unapplied, &hidden)
        .unwrap();
    assert_eq!(applied_names(&st), ["p1", "p2"]);
    assert_eq!(unapplied_names(&st), ["u1"]);
    assert_eq!(st.hidden()[0].as_str(), "h1");
    assert_eq!(st.head(), Oid::new(20));
    assert_eq!(st.prev(), Some(Oid::new(99)));
    assert_eq!(st.patch_oid(&name("u1")), Some(Oid::new(30)));
}

#[test]
fn from_parts_rejects_duplicate_names() {
    let applied = vec![PatchDesc { name: name("p1"), oid: Oid::new(10) }];
    let unapplied = vec![PatchDesc { name: name("p1"), oid: Oid::new(30) }];
    assert!(matches!(
        StackState::from_parts(Oid::new(10), None, &applied, &unapplied, &vec![]),
        Err(Error::Vcs(_))
    ));
}

#[test]
fn from_parts_rejects_head_mismatch() {
    let applied = vec![PatchDesc { name: name("p1"), oid: Oid::new(10) }];
    assert!(matches!(
        StackState::from_parts(Oid::new(11), None, &applied, &vec![], &vec![]),
        Err(Error::Vcs(_))
    ));
}

#[test]
fn advance_head_records_prev() {
    let mut st = StackState::new(Oid::new(1));
    st.new_applied(&name("a"), Oid::new(10)).unwrap();
    let st2 = st.advance_head(Oid::new(10), Oid::new(99));
    assert_eq!(st2.head(), Oid::new(10));
    assert_eq!(st2.prev(), Some(Oid::new(99)));
}

#[test]
fn commit_table_records_and_looks_up() {
    let mut t = CommitTable::new();
    t.record(Oid::new(1), CommitMeta { parent: None, tree: Oid::new(100) }).unwrap();
    t.record(Oid::new(2), CommitMeta { parent: Some(Oid::new(1)), tree: Oid::new(200) }).unwrap();
    assert_eq!(
        t.lookup(Oid::new(2)),
        Some(CommitMeta { parent: Some(Oid::new(1)), tree: Oid::new(200) })
    );
    assert_eq!(t.lookup(Oid::new(3)), None);
    assert!(matches!(
        t.record(Oid::new(1), CommitMeta { parent: None, tree: Oid::new(1) }),
        Err(Error::Vcs(_))
    ));
}

#[test]
fn refname_follows_branch() {
    let r = state_refname_from_branch_name("main");
    assert_eq!(r, "refs/stacks/main");
}

#[test]
fn initialize_refuses_existing_metadata() {
    let st = Stack::initialize("main".to_string(), false, Oid::new(5)).unwrap();
    assert_eq!(st.state_refname, "refs/stacks/main");
    assert_eq!(st.branch_head, Oid::new(5));
    assert!(st.state.applied().is_empty());
    assert!(matches!(
        Stack::initialize("main".to_string(), true, Oid::new(5)),
        Err(Error::StackAlreadyInitialized(_))
    ));
}

#[test]
fn from_branch_requires_loaded_state() {
    assert!(matches!(
        Stack::from_branch("main".to_string(), None, Oid::new(5)),
        Err(Error::StackNotInitialized(_))
    ));
    let loaded = StackState::new(Oid::new(5));
    let st = Stack::from_branch("main".to_string(), Some(loaded), Oid::new(5)).unwrap();
    assert_eq!(st.branch_name, "main");
}

#[test]
fn repository_state_checks() {
    let st = Stack::initialize("main".to_string(), false, Oid::new(5)).unwrap();
    assert!(st.check_repository_state(RepositoryMode::Clean, false).is_ok());
    assert!(st.check_repository_state(RepositoryMode::Merge, true).is_ok());
    assert!(matches!(
        st.check_repository_state(RepositoryMode::Merge, false),
        Err(Error::OutstandingConflicts)
    ));
    match st.check_repository_state(RepositoryMode::Rebase, true) {
        Err(Error::ActiveRepositoryState(t)) => assert_eq!(t, "rebase"),
        other => panic!("unexpected: {other:?}"),
    }
}

#[test]
fn head_top_mismatch_is_detected() {
    // The branch tip moved behind the stack's back: refresh and commit
    // refuse to run.
    let mut st = Stack::initialize("main".to_string(), false, Oid::new(5)).unwrap();
    assert!(st.check_head_top_mismatch().is_ok());
    st.branch_head = Oid::new(6);
    assert!(matches!(st.check_head_top_mismatch(), Err(Error::StackTopHeadMismatch)));
}

#[test]
fn index_and_worktree_checks() {
    let st = Stack::initialize("main".to_string(), false, Oid::new(5)).unwrap();
    assert!(st.check_index_clean(true).is_ok());
    assert!(matches!(st.check_index_clean(false), Err(Error::DirtyIndex)));
    assert!(st.check_worktree_clean(true).is_ok());
    assert!(matches!(st.check_worktree_clean(false), Err(Error::DirtyWorktree)));
}

#[test]
fn branch_resolution() {
    let head = HeadInfo { detached: false, is_branch: true, name_bytes: b"main".to_vec() };
    let r = get_branch(Some(&"dev".to_string()), &BranchLookup::Found, &head).unwrap();
    assert_eq!(r, "dev");
    assert!(matches!(
        get_branch(Some(&"dev".to_string()), &BranchLookup::NotFound, &head),
        Err(Error::BranchNotFound(_))
    ));
    assert!(matches!(
        get_branch(Some(&"d v".to_string()), &BranchLookup::InvalidSpec, &head),
        Err(Error::InvalidBranchName(_))
    ));
    assert_eq!(get_branch(None, &BranchLookup::Found, &head).unwrap(), "main");

    let detached = HeadInfo { detached: true, is_branch: false, name_bytes: vec![] };
    assert!(matches!(get_branch(None, &BranchLookup::Found, &detached), Err(Error::HeadDetached)));

    let tag = HeadInfo { detached: false, is_branch: false, name_bytes: b"v1".to_vec() };
    assert!(matches!(get_branch(None, &BranchLookup::Found, &tag), Err(Error::HeadNotBranch(_))));
}

#[test]
fn branch_name_decoding() {
    assert_eq!(get_branch_name(&b"caf\xc3\xa9".to_vec()).unwrap(), "caf\u{e9}");
    match get_branch_name(&vec![0x66, 0xff, 0x6f]) {
        Err(Error::NonUtf8BranchName(t)) => assert_eq!(t, "f\u{fffd}o"),
        other => panic!("unexpected: {other:?}"),
    }
}
