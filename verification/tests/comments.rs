//! Anchors and threads.

use folio_core::comment::{anchor_from_selection, create, list, locate, open_counts, ListFilter};
use folio_core::corpus::{Policy, Resolved, Root, RootKind};
use folio_core::disk::Disk;
use folio_core::store::Store;
use folio_core::Config;

const DOC: &str = "# Skill\n\nrender it as HTML automatically and tell them the file path.\n\
    The threshold: if the table has 4+ rows or 3+ columns, it belongs in the browser.\n\
    You can still include a brief text summary in the chat,\n";

fn anchor() -> (String, String, String) {
    let anchor_text = "The threshold: if the table has 4+ rows or 3+ columns, it belongs in the browser.";
    let start = DOC.find(anchor_text).unwrap();
    anchor_from_selection(DOC, start, start + anchor_text.len(), 2).unwrap()
}

#[test]
fn an_anchor_captures_context_on_both_sides() {
    let (text, before, after) = anchor();
    assert!(text.starts_with("The threshold"));
    assert!(before.contains("render it as HTML"));
    assert!(after.contains("brief text summary"));
}

#[test]
fn a_comment_survives_its_paragraph_moving_verbatim() {
    let (text, before, after) = anchor();
    // The same sentence, moved to the top of a rewritten document.
    let moved =
        format!("{text}\n\n# Skill\n\nEntirely new opening prose that did not exist before.\n");
    let position = locate(&moved, &text, &before, &after).expect("moved anchors must still pin");
    assert_eq!(position.offset, 0);
    assert_eq!(position.line, 1);
}

#[test]
fn edited_anchor_text_goes_outdated_not_missing() {
    let (text, before, after) = anchor();
    let edited = DOC.replace("4+ rows or 3+ columns", "4 rows and 4 columns");
    assert!(locate(&edited, &text, &before, &after).is_none());
}

#[test]
fn context_breaks_ties_between_duplicate_anchors() {
    let text = "Do the thing.";
    let doc = format!("## First\n\nlead in one\n{text}\ntail one\n\n## Second\n\nlead in two\n{text}\ntail two\n");
    let second_start = doc.rfind(text).unwrap();
    let (a, b, c) = anchor_from_selection(&doc, second_start, second_start + text.len(), 2).unwrap();
    let found = locate(&doc, &a, &b, &c).unwrap();
    assert_eq!(found.offset, second_start, "the stored context must select the right occurrence");
}

#[test]
fn an_empty_selection_is_refused() {
    assert_eq!(anchor_from_selection(DOC, 5, 5, 2).unwrap_err().code(), "invalid");
}

#[test]
fn a_selection_snaps_to_whole_characters() {
    let doc = "a\u{e9}b\n";
    // The second byte of the accented letter is no place to start.
    let (text, _, _) = anchor_from_selection(doc, 2, 4, 2).unwrap();
    assert!(doc.contains(&text));
}

#[test]
fn threads_are_found_under_every_spelling_where_case_does_not_count() {
    let mut store = Store::open("/store", None);
    store.host.drives = true;
    let mut disk = Disk::new();
    let root = Root {
        id: "root_test".into(),
        display: "/work".into(),
        path: "/work".into(),
        kind: RootKind::Dir,
        policy: Policy::Auto,
        label: "work".into(),
        added_at: 0,
    };
    disk.write("/work/A.md", DOC.as_bytes(), 0);
    let at = Resolved { root, path: "/work/A.md".into(), dirs: vec![] };
    create(&mut store, &disk, &Config::default(), &at, DOC, 0, 7, "why?").unwrap();
    let filter = ListFilter { path: Some("/WORK/a.md".into()), ..Default::default() };
    assert_eq!(list(&store, &disk, &filter).len(), 1);
    let counts = open_counts(&store, &disk);
    assert_eq!((counts[0].key.as_str(), counts[0].count), ("/work/a.md", 1));
    store.host.drives = false;
    assert_eq!(list(&store, &disk, &filter).len(), 0);
    assert_eq!(open_counts(&store, &disk)[0].key, "/work/A.md");
}
