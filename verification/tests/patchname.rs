use stgit::error::Error;
use stgit::patchname::PatchName;

#[test]
fn parse_accepts_simple_names() {
    let p = PatchName::parse("fix-bug_1.2").unwrap();
    assert_eq!(p.as_str(), "fix-bug_1.2");
}

#[test]
fn parse_format_round_trip() {
    for text in ["a", "patch-1", "A.B_C-9", "x".repeat(100).as_str()] {
        let p = PatchName::parse(text).unwrap();
        let q = PatchName::parse(p.as_str()).unwrap();
        assert_eq!(q.as_str(), p.as_str());
        assert!(q == p);
    }
}

#[test]
fn parse_rejects_empty() {
    assert!(matches!(PatchName::parse(""), Err(Error::InvalidPatchName(_))));
}

#[test]
fn parse_rejects_leading_dot() {
    assert!(matches!(PatchName::parse(".hidden"), Err(Error::InvalidPatchName(_))));
}

#[test]
fn parse_rejects_bad_characters() {
    for text in ["a b", "a/b", "a:b", "caf\u{e9}", "a~1", "@{0}", "{base}"] {
        assert!(matches!(PatchName::parse(text), Err(Error::InvalidPatchName(_))), "{text}");
    }
}

#[test]
fn parse_rejects_overlong() {
    let text = "y".repeat(101);
    assert!(matches!(PatchName::parse(&text), Err(Error::InvalidPatchName(_))));
}

#[test]
fn make_replaces_and_collapses() {
    let p = PatchName::make("Hello,  World", false, None);
    assert_eq!(p.as_str(), "Hello-World");
    let q = PatchName::make("a//b", false, None);
    assert_eq!(q.as_str(), "a-b");
}

#[test]
fn make_trims_leading_separators() {
    let p = PatchName::make("...fix", true, None);
    assert_eq!(p.as_str(), "fix");
}

#[test]
fn make_respects_dots_flag() {
    assert_eq!(PatchName::make("a.b", true, None).as_str(), "a.b");
    assert_eq!(PatchName::make("a.b", false, None).as_str(), "a-b");
}

#[test]
fn make_caps_length() {
    let p = PatchName::make("abcdefgh", true, Some(3));
    assert_eq!(p.as_str(), "abc");
}

#[test]
fn make_falls_back_to_default() {
    let p = PatchName::make("!!!", false, None);
    assert_eq!(p.as_str(), "patch");
}

#[test]
fn uniquify_passes_through_fresh_name() {
    let n = PatchName::parse("topic").unwrap();
    let allow: Vec<PatchName> = vec![];
    let disallow = vec![PatchName::parse("other").unwrap()];
    let r = n.uniquify(&allow, &disallow);
    assert_eq!(r.as_str(), "topic");
}

#[test]
fn uniquify_allowed_collision_is_idempotent() {
    // A name that may collide with itself passes through unchanged,
    // whatever is disallowed.
    let disallow = vec![
        PatchName::parse("topic").unwrap(),
        PatchName::parse("topic-1").unwrap(),
        PatchName::parse("zzz").unwrap(),
    ];
    let n = PatchName::parse("topic").unwrap();
    let allow = vec![PatchName::parse("topic").unwrap()];
    let r = n.uniquify(&allow, &disallow);
    assert_eq!(r.as_str(), "topic");
}

#[test]
fn uniquify_appends_counter() {
    let allow: Vec<PatchName> = vec![];
    let disallow = vec![PatchName::parse("topic").unwrap()];
    let r = PatchName::parse("topic").unwrap().uniquify(&allow, &disallow);
    assert_eq!(r.as_str(), "topic-1");

    let disallow2 = vec![
        PatchName::parse("topic").unwrap(),
        PatchName::parse("topic-1").unwrap(),
        PatchName::parse("topic-2").unwrap(),
    ];
    let r2 = PatchName::parse("topic").unwrap().uniquify(&allow, &disallow2);
    assert_eq!(r2.as_str(), "topic-3");
}

#[test]
fn uniquify_clips_long_names() {
    let long = "q".repeat(100);
    let n = PatchName::parse(&long).unwrap();
    let allow: Vec<PatchName> = vec![];
    let disallow = vec![PatchName::parse(&long).unwrap()];
    let r = n.uniquify(&allow, &disallow);
    let expected = format!("{}-1", "q".repeat(79));
    assert_eq!(r.as_str(), expected);
}
