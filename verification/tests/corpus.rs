//! Types, policies, roots, and the sandbox.

use folio_core::api::docs::root_id_for;
use folio_core::corpus::roots::{lookups, Place};
use folio_core::corpus::sandbox::{keeps_entry, places, Found};
use folio_core::corpus::{
    add_root, detect_type, get_root, list_path_policies, list_roots, policy_for, read_text,
    remove_path_policy, remove_root, resolve, set_path_policy, set_root_policy, slot_names,
    ArtifactType, Policy, Resolved, Root, RootKind,
};
use folio_core::store::Store;
use folio_core::util;

#[test]
fn skill_md_with_frontmatter_is_a_skill() {
    let doc = "---\nname: visual-explainer\ndescription: Draws\n---\n# Overview\n";
    assert_eq!(detect_type("C:/x/visual-explainer/SKILL.md", doc, &[]), ArtifactType::Skill);
}

#[test]
fn a_slot_body_is_a_prompt() {
    assert_eq!(detect_type("C:/x/a.md", "Write about {{topic}}.\n", &[]), ArtifactType::Prompt);
    assert_eq!(
        detect_type("C:/x/a.md", "---\nvariables: [topic]\n---\nhello\n", &[]),
        ArtifactType::Prompt
    );
}

#[test]
fn slots_inside_code_fences_do_not_make_a_prompt() {
    let doc = "# Templating\n\n```\n{{topic}}\n```\n\nProse about templates.\n";
    assert_eq!(detect_type("C:/x/a.md", doc, &[]), ArtifactType::Doc);
}

#[test]
fn a_checkbox_file_is_a_task_list() {
    let doc = "# TODO\n\n- [ ] Ship Folio 1.0 @carlos #release\n- [x] Write the spec @carlos\n";
    assert_eq!(detect_type("C:/x/TODO.md", doc, &[]), ArtifactType::TaskList);
}

#[test]
fn a_doc_with_one_checklist_is_still_a_doc() {
    let doc = "# Design\n\nProse paragraph one.\nProse paragraph two.\nMore prose here.\n\n- [ ] a stray item\n- [ ] another\n\nAnd a closing paragraph that keeps going.\n";
    assert_eq!(detect_type("C:/x/a.md", doc, &[]), ArtifactType::Doc);
}

#[test]
fn non_markdown_is_an_asset() {
    assert_eq!(detect_type("C:/x/diagram.png", "", &[]), ArtifactType::Asset);
}

#[test]
fn auto_policy_splits_by_type() {
    assert_eq!(Policy::Auto.resolve(ArtifactType::TaskList), Policy::Direct);
    assert_eq!(Policy::Auto.resolve(ArtifactType::Skill), Policy::Propose);
    assert_eq!(Policy::Auto.resolve(ArtifactType::Doc), Policy::Propose);
    // An explicit setting is never overridden by type.
    assert_eq!(Policy::Propose.resolve(ArtifactType::TaskList), Policy::Propose);
}

#[test]
fn slot_names_are_deduped_and_ordered() {
    let names = slot_names("{{topic}} and {{tone}} and {{topic}} again");
    assert_eq!(names, vec!["topic", "tone"]);
}

#[test]
fn words_for_kinds_policies_and_types_round_trip() {
    for k in [RootKind::Dir, RootKind::File] {
        assert_eq!(RootKind::parse(k.as_str()), k);
    }
    for p in [Policy::Auto, Policy::Propose, Policy::Direct] {
        assert_eq!(Policy::parse(p.as_str()), p);
    }
    for t in [
        ArtifactType::Skill,
        ArtifactType::Prompt,
        ArtifactType::TaskList,
        ArtifactType::Doc,
        ArtifactType::Asset,
    ] {
        assert_eq!(ArtifactType::parse(t.as_str()), t);
    }
}

// ---------------------------------------------------------------------------
// Roots
// ---------------------------------------------------------------------------

fn dir(key: &str) -> Option<Place> {
    Some(Place { key: key.into(), is_dir: true })
}

fn with_root() -> (Store, Root) {
    let mut store = Store::open("/store", None);
    let root = add_root(&mut store, "/work/docs", Policy::Auto, None, dir("/work/docs")).unwrap();
    (store, root)
}

#[test]
fn a_root_is_labelled_by_its_folder() {
    let (store, root) = with_root();
    assert!(root.id.starts_with("root_"));
    assert_eq!(root.label, "docs");
    assert_eq!(root.kind, RootKind::Dir);
    assert_eq!(list_roots(&store).len(), 1);
    assert_eq!(get_root(&store, &root.id).unwrap().path, "/work/docs");
    assert_eq!(get_root(&store, "root_none").unwrap_err().code(), "not_found");
}

#[test]
fn a_root_inside_another_is_refused() {
    let (mut store, _) = with_root();
    let inner = add_root(&mut store, "/work/docs/sub", Policy::Auto, None, dir("/work/docs/sub"));
    assert_eq!(inner.unwrap_err().code(), "invalid");
    let outer = add_root(&mut store, "/work", Policy::Auto, None, dir("/work"));
    assert_eq!(outer.unwrap_err().code(), "invalid");
    // A name that merely starts the same is another folder.
    assert!(add_root(&mut store, "/work/docs-old", Policy::Auto, None, dir("/work/docs-old")).is_ok());
    assert_eq!(list_roots(&store).len(), 2);
}

#[test]
fn a_root_that_is_not_there_is_refused() {
    let mut store = Store::open("/store", None);
    let err = add_root(&mut store, "/gone", Policy::Auto, None, None).unwrap_err();
    assert_eq!(err.code(), "not_found");
}

#[test]
fn removing_a_root_takes_its_overrides_along() {
    let (mut store, root) = with_root();
    set_path_policy(&mut store, &root.id, "*.md", Policy::Direct).unwrap();
    remove_root(&mut store, &root.id).unwrap();
    assert!(list_roots(&store).is_empty());
    assert!(list_path_policies(&store, &root.id).is_empty());
    assert_eq!(remove_root(&mut store, &root.id).unwrap_err().code(), "not_found");
}

// ---------------------------------------------------------------------------
// Policies
// ---------------------------------------------------------------------------

fn at(root: &Root, path: &str) -> Resolved {
    Resolved { root: root.copy(), path: path.into(), dirs: vec![] }
}

#[test]
fn the_most_specific_override_wins() {
    let (mut store, root) = with_root();
    let doc = at(&root, "/work/docs/notes/a.md");
    assert_eq!(policy_for(&store, &doc, ArtifactType::Doc), Policy::Propose);
    set_path_policy(&mut store, &root.id, "**/*.md", Policy::Direct).unwrap();
    assert_eq!(policy_for(&store, &doc, ArtifactType::Doc), Policy::Direct);
    let narrow = set_path_policy(&mut store, &root.id, "notes/a.md", Policy::Propose);
    let narrow = narrow.unwrap();
    let longer = set_path_policy(&mut store, &root.id, "notes/*.nothing", Policy::Direct).unwrap();
    assert_eq!(list_path_policies(&store, &root.id).len(), 3);
    assert_eq!(policy_for(&store, &doc, ArtifactType::Doc), Policy::Propose);
    remove_path_policy(&mut store, &narrow.id);
    remove_path_policy(&mut store, &longer.id);
    assert_eq!(policy_for(&store, &doc, ArtifactType::Doc), Policy::Direct);
}

#[test]
fn a_glob_matches_the_relative_or_the_whole_path() {
    let (mut store, root) = with_root();
    let doc = at(&root, "/work/docs/a.md");
    set_path_policy(&mut store, &root.id, "/work/docs/*.md", Policy::Direct).unwrap();
    assert_eq!(policy_for(&store, &doc, ArtifactType::Doc), Policy::Direct);
    let other = at(&root, "/work/docs/a.txt");
    assert_eq!(policy_for(&store, &other, ArtifactType::Doc), Policy::Propose);
}

#[test]
fn a_bad_glob_and_an_unknown_root_are_refused() {
    let (mut store, root) = with_root();
    let bad = set_path_policy(&mut store, &root.id, "a[", Policy::Direct).unwrap_err();
    assert_eq!(bad.code(), "invalid");
    let lost = set_path_policy(&mut store, "root_none", "*.md", Policy::Direct).unwrap_err();
    assert_eq!(lost.code(), "store");
    assert_eq!(set_root_policy(&mut store, "root_none", Policy::Direct).unwrap_err().code(), "not_found");
    assert_eq!(set_root_policy(&mut store, &root.id, Policy::Direct).unwrap().policy, Policy::Direct);
}

// ---------------------------------------------------------------------------
// The sandbox
// ---------------------------------------------------------------------------

/// What the file system says of each place where no file is.
fn nothing_there(store: &Store, input: &str) -> Vec<Found> {
    let roots = list_roots(store);
    places(&roots, input, &store.host)
        .into_iter()
        .map(|p| Found { key: util::key_from(&util::lexical_normalize(&p)), exists: false, dirs: vec![] })
        .collect()
}

#[test]
fn a_relative_path_is_looked_for_under_the_roots() {
    let (store, root) = with_root();
    let found = nothing_there(&store, "new.md");
    let r = resolve(&store, "new.md", &found).unwrap();
    assert_eq!(r.path, "/work/docs/new.md");
    assert_eq!(r.root.id, root.id);
}

#[test]
fn nothing_outside_the_roots_resolves() {
    let (store, _) = with_root();
    for input in ["/etc/passwd", "../secret.md", "/work/docs/../secret.md", "/work/docs-old/a.md"] {
        let found = nothing_there(&store, input);
        let err = resolve(&store, input, &found).unwrap_err();
        assert_eq!(err.code(), "outside_root", "{input}");
    }
    let empty = Store::open("/store", None);
    let found = nothing_there(&empty, "a.md");
    assert_eq!(resolve(&empty, "a.md", &found).unwrap_err().code(), "outside_root");
}

#[test]
fn a_drive_makes_a_path_absolute_where_there_are_drives() {
    let (mut store, _) = with_root();
    assert_eq!(lookups(&store, "C:/notes/a.md"), ["/work/docs/C:/notes/a.md"]);
    store.host.drives = true;
    for input in ["C:/notes/a.md", "d:\\a.md", "\\\\server\\share\\a.md"] {
        assert_eq!(lookups(&store, input), [input]);
    }
    assert_eq!(lookups(&store, "C:a.md").len(), 1);
    assert_ne!(lookups(&store, "C:a.md")[0], "C:a.md");
}

#[test]
fn roots_compare_as_the_file_system_does() {
    let mut store = Store::open("/store", None);
    store.host.drives = true;
    let root =
        add_root(&mut store, "C:\\notes", Policy::Auto, None, dir("C:/notes")).unwrap();
    assert_eq!(root.label, "notes");
    let inner = add_root(&mut store, "c:/Notes/sub", Policy::Auto, None, dir("c:/Notes/sub"));
    assert_eq!(inner.unwrap_err().code(), "invalid");
    let found = [Found { key: "c:/NOTES/a.md".into(), exists: true, dirs: vec![] }];
    let at = resolve(&store, "c:/NOTES/a.md", &found).unwrap();
    assert_eq!((at.root.id.as_str(), at.path.as_str()), (root.id.as_str(), "c:/NOTES/a.md"));
    assert_eq!(root_id_for(&store, "C:/NOTES", "C:/NOTES").unwrap(), root.id);

    let mut exact = Store::open("/store", None);
    add_root(&mut exact, "/notes", Policy::Auto, None, dir("/notes")).unwrap();
    assert!(add_root(&mut exact, "/Notes/sub", Policy::Auto, None, dir("/Notes/sub")).is_ok());
    assert_eq!(root_id_for(&exact, "/NOTES", "/NOTES").unwrap_err().code(), "not_found");
}

#[test]
fn walks_skip_what_is_hidden_or_generated() {
    assert!(!keeps_entry("node_modules", true));
    assert!(!keeps_entry(".git", true));
    assert!(keeps_entry("docs", true));
    assert!(keeps_entry("a.md", false));
}

#[test]
fn a_document_too_large_for_the_editor_is_refused() {
    assert_eq!(read_text("a.md", b"abc", 3).unwrap(), "abc");
    let err = read_text("a.md", b"abcd", 3).unwrap_err();
    assert_eq!(err.code(), "too_large");
    assert_eq!(err.message(), "too large: a.md is 4 bytes; the editor limit is 3");
    // What is not UTF-8 is read as well as it can be.
    assert_eq!(read_text("a.md", &[0x61, 0xff, 0x62], 10).unwrap(), "a\u{fffd}b");
}
