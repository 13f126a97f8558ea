use stgit::error::Error;
use stgit::patchname::PatchName;
use stgit::statedoc::{format_state_doc, parse_state_doc, DocPatch, StateDoc};

fn name(s: &str) -> PatchName {
    PatchName::parse(s).unwrap()
}

fn entry(id: &str, nm: &str) -> DocPatch {
    DocPatch { id: id.to_string(), name: name(nm) }
}

fn entry_texts(list: &Vec<DocPatch>) -> Vec<(String, String)> {
    list.iter().map(|d| (d.id.clone(), d.name.as_str().to_string())).collect()
}

#[test]
fn document_format_is_line_based() {
    let doc = StateDoc {
        head: "beef".to_string(),
        prev: None,
        applied: vec![entry("0a", "p1")],
        unapplied: vec![],
        hidden: vec![],
    };
    let text = format_state_doc(&doc);
    assert_eq!(text, "stackstate-1\nbeef\n-\na\n0a\np1\n");
}

#[test]
fn document_round_trips() {
    let doc = StateDoc {
        head: "beef".to_string(),
        prev: Some("cafe".to_string()),
        applied: vec![entry("0a", "p1"), entry("0b", "p2")],
        unapplied: vec![entry("0c", "stored")],
        hidden: vec![entry("0d", "shelved")],
    };
    let text = format_state_doc(&doc);
    let back = parse_state_doc(&text).unwrap();
    assert_eq!(back.head, "beef");
    assert_eq!(back.prev.as_deref(), Some("cafe"));
    assert_eq!(
        entry_texts(&back.applied),
        [("0a".to_string(), "p1".to_string()), ("0b".to_string(), "p2".to_string())]
    );
    assert_eq!(entry_texts(&back.unapplied), [("0c".to_string(), "stored".to_string())]);
    assert_eq!(entry_texts(&back.hidden), [("0d".to_string(), "shelved".to_string())]);
}

#[test]
fn empty_document_round_trips() {
    let doc = StateDoc {
        head: "beef".to_string(),
        prev: None,
        applied: vec![],
        unapplied: vec![],
        hidden: vec![],
    };
    let back = parse_state_doc(&format_state_doc(&doc)).unwrap();
    assert_eq!(back.head, "beef");
    assert_eq!(back.prev, None);
    assert!(back.applied.is_empty() && back.unapplied.is_empty() && back.hidden.is_empty());
}

#[test]
fn unknown_version_is_rejected() {
    assert!(matches!(parse_state_doc("stackstate-2\nbeef\n-\n"), Err(Error::Vcs(_))));
}

#[test]
fn malformed_documents_are_rejected() {
    // An unclosed last line.
    assert!(matches!(parse_state_doc("stackstate-1\nbeef\n-"), Err(Error::Vcs(_))));
    // Too few lines.
    assert!(matches!(parse_state_doc("stackstate-1\nbeef\n"), Err(Error::Vcs(_))));
    // Trailing lines that are not a record triple.
    assert!(matches!(parse_state_doc("stackstate-1\nbeef\n-\nzzz\n"), Err(Error::Vcs(_))));
    // A record with an invalid patch name ends the segment, leaving
    // unconsumed lines behind.
    assert!(matches!(
        parse_state_doc("stackstate-1\nbeef\n-\na\n0a\n.bad\n"),
        Err(Error::Vcs(_))
    ));
}
