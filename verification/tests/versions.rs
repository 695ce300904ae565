//! Recording, reading back, restoring, exporting.

use folio_core::corpus::{Policy, Resolved, Root, RootKind};
use folio_core::disk::Disk;
use folio_core::store::Store;
use folio_core::version::{
    content, export_history, get, latest, list_versions, record, record_from_disk, resolve_ref,
    restore, tracked_paths, write_and_record, RecordOutcome, RecordRequest, Source,
    AUTHOR_EXTERNAL, AUTHOR_YOU,
};
use folio_core::Config;

struct Fixture {
    store: Store,
    disk: Disk,
    cfg: Config,
    resolved: Resolved,
}

fn fixture() -> Fixture {
    let root = Root {
        id: "root_test".into(),
        display: "/work".into(),
        path: "/work".into(),
        kind: RootKind::Dir,
        policy: Policy::Auto,
        label: "work".into(),
        added_at: 0,
    };
    let mut disk = Disk::new();
    disk.write("/work/doc.md", b"one\n", 0);
    Fixture {
        store: Store::open("/store", None),
        disk,
        cfg: Config::default(),
        resolved: Resolved { root, path: "/work/doc.md".into(), dirs: vec![] },
    }
}

impl Fixture {
    fn save(&mut self, text: &str, message: Option<&str>) -> RecordOutcome {
        write_and_record(
            &mut self.store,
            &mut self.disk,
            &self.cfg,
            &self.resolved,
            text,
            Source::Save,
            None,
            None,
            message,
        )
        .unwrap()
    }

    fn on_disk(&self) -> String {
        self.disk.read_text(&self.resolved.path).unwrap()
    }
}

#[test]
fn identical_content_creates_no_new_version() {
    let mut f = fixture();
    let a = f.save("hello\n", None);
    assert!(a.created);
    let b = f.save("hello\n", None);
    assert!(!b.created, "re-saving unchanged content must not create a version");
    assert_eq!(a.snapshot.id, b.snapshot.id);
    assert_eq!(list_versions(&f.store, &f.resolved.path, 50).len(), 1);
}

#[test]
fn a_checkpoint_marks_a_milestone_even_when_nothing_changed() {
    let mut f = fixture();
    f.save("hello\n", None);
    let cp = record(
        &mut f.store,
        &f.cfg,
        &RecordRequest {
            resolved: &f.resolved,
            content: b"hello\n",
            source: Source::Checkpoint,
            author: Some(AUTHOR_YOU),
            client: None,
            message: Some("before restructuring commands"),
            mtime: None,
        },
    )
    .unwrap();
    assert!(cp.created);
    assert_eq!(list_versions(&f.store, &f.resolved.path, 50).len(), 2);
}

#[test]
fn restore_round_trips_and_is_itself_undoable() {
    let mut f = fixture();
    let first = f.save("v1\n", None);
    f.save("v2\n", None);

    restore(&mut f.store, &mut f.disk, &f.cfg, &f.resolved, &first.snapshot.id).unwrap();
    assert_eq!(f.on_disk(), "v1\n");

    let timeline = list_versions(&f.store, &f.resolved.path, 50);
    assert_eq!(timeline.len(), 3, "the restore is itself a version");
    assert_eq!(timeline[0].source, Source::Restore);
}

#[test]
fn timeline_carries_source_author_and_size_delta() {
    let mut f = fixture();
    f.save("short\n", None);
    write_and_record(
        &mut f.store,
        &mut f.disk,
        &f.cfg,
        &f.resolved,
        "a much longer body\n",
        Source::Proposal,
        Some("sonnet-4.6"),
        Some("alpha-code"),
        Some("Tighten table threshold"),
    )
    .unwrap();
    let timeline = list_versions(&f.store, &f.resolved.path, 10);
    assert_eq!(timeline[0].author, "sonnet-4.6");
    assert_eq!(timeline[0].source, Source::Proposal);
    assert_eq!(
        timeline[0].size_delta,
        Some("a much longer body\n".len() as i64 - "short\n".len() as i64)
    );
    assert_eq!(timeline[1].author, "you");
}

#[test]
fn export_history_produces_an_applicable_patch_series() {
    let mut f = fixture();
    f.save("one\n", None);
    f.save("one\ntwo\n", Some("add two"));
    let series = export_history(&f.store, &f.resolved.path).unwrap();
    assert!(series.contains("Subject: [PATCH 1/2]"));
    assert!(series.contains("Subject: [PATCH 2/2] add two"));
    assert!(series.contains("diff --git"));
}

#[test]
fn version_refs_accept_latest_and_offsets() {
    let mut f = fixture();
    f.save("one\n", None);
    let second = f.save("two\n", None);
    assert_eq!(
        resolve_ref(&f.store, &f.resolved.path, "latest").unwrap().id,
        second.snapshot.id
    );
    let earlier = resolve_ref(&f.store, &f.resolved.path, "~1").unwrap();
    assert_eq!(content(&f.store, &earlier).unwrap(), "one\n");
}

#[test]
fn a_version_that_is_not_there_is_not_found() {
    let mut f = fixture();
    f.save("one\n", None);
    for reference in ["~1", "snap_none"] {
        let err = resolve_ref(&f.store, &f.resolved.path, reference).unwrap_err();
        assert_eq!(err.code(), "not_found", "{reference}");
    }
    assert_eq!(get(&f.store, "snap_none").unwrap_err().code(), "not_found");
    let err = restore(&mut f.store, &mut f.disk, &f.cfg, &f.resolved, "snap_none").unwrap_err();
    assert_eq!(err.code(), "not_found");
    assert_eq!(export_history(&f.store, "/work/other.md").unwrap_err().code(), "not_found");
    assert!(latest(&f.store, "/work/other.md").is_none());
}

#[test]
fn a_version_of_another_document_is_not_restored_here() {
    let mut f = fixture();
    let first = f.save("one\n", None);
    f.resolved.path = "/work/other.md".into();
    let err = restore(&mut f.store, &mut f.disk, &f.cfg, &f.resolved, &first.snapshot.id);
    assert_eq!(err.unwrap_err().code(), "invalid");
}

#[test]
fn content_that_is_too_large_is_not_recorded() {
    let mut f = fixture();
    f.cfg.max_blob_bytes = 3;
    let err = record_from_disk(
        &mut f.store,
        &f.disk,
        &f.cfg,
        &f.resolved,
        Source::External,
        None,
        None,
        None,
    )
    .unwrap_err();
    assert_eq!(err.code(), "too_large");
    assert_eq!(list_versions(&f.store, &f.resolved.path, 50).len(), 0);
}

#[test]
fn what_is_on_disk_is_recorded_as_somebody_elses() {
    let mut f = fixture();
    let done = record_from_disk(
        &mut f.store,
        &f.disk,
        &f.cfg,
        &f.resolved,
        Source::External,
        None,
        None,
        None,
    )
    .unwrap();
    assert_eq!(done.snapshot.author, AUTHOR_EXTERNAL);
    assert_eq!(content(&f.store, &done.snapshot).unwrap(), "one\n");
}

#[test]
fn what_cannot_be_recorded_is_not_written() {
    let mut f = fixture();
    let long = f.save("a text of some length\n", None).snapshot;
    f.save("short\n", None);
    f.cfg.max_blob_bytes = 8;
    let files = f.disk.files.len();

    let err = write_and_record(
        &mut f.store,
        &mut f.disk,
        &f.cfg,
        &f.resolved,
        "far too long\n",
        Source::Save,
        None,
        None,
        None,
    )
    .unwrap_err();
    assert_eq!(err.code(), "too_large");
    assert_eq!(f.on_disk(), "short\n");

    let err = restore(&mut f.store, &mut f.disk, &f.cfg, &f.resolved, &long.id).unwrap_err();
    assert_eq!(err.code(), "too_large");
    assert_eq!(f.on_disk(), "short\n");
    assert_eq!(f.disk.files.len(), files);
    assert_eq!(list_versions(&f.store, &f.resolved.path, 10).len(), 2);
}

#[test]
fn what_was_recorded_is_read_back_and_is_the_newest() {
    let mut f = fixture();
    for text in ["one\n", "zwei\r\n", "", "one\n"] {
        let saved = f.save(text, None);
        assert!(saved.created);
        assert_eq!(content(&f.store, &saved.snapshot).unwrap(), text);
        assert_eq!(latest(&f.store, &f.resolved.path).unwrap().id, saved.snapshot.id);
        assert_eq!(get(&f.store, &saved.snapshot.id).unwrap().blob_hash, saved.snapshot.blob_hash);
        assert_eq!(f.on_disk(), text);
    }
}

#[test]
fn a_document_is_one_whatever_the_case_where_case_does_not_count() {
    let mut f = fixture();
    f.store.host.drives = true;
    let first = f.save("one\n", None);
    f.resolved.path = "/work/DOC.md".into();
    let again = f.save("one\n", None);
    assert!(!again.created);
    assert_eq!(again.snapshot.id, first.snapshot.id);
    let second = f.save("two\n", None);
    assert!(second.created);
    assert_eq!(latest(&f.store, "/Work/doc.MD").unwrap().id, second.snapshot.id);
    assert_eq!(list_versions(&f.store, "/work/doc.md", 50).len(), 2);
    assert_eq!(resolve_ref(&f.store, "/work/doc.md", "~1").unwrap().id, first.snapshot.id);
    assert_eq!(tracked_paths(&f.store, None), ["/work/DOC.md"]);
    assert_eq!(tracked_paths(&f.store, Some("root_none")).len(), 0);
    let back = restore(&mut f.store, &mut f.disk, &f.cfg, &f.resolved, &first.snapshot.id);
    assert_eq!(back.unwrap().snapshot.blob_hash, first.snapshot.blob_hash);

    let mut g = fixture();
    g.save("one\n", None);
    g.resolved.path = "/work/DOC.md".into();
    assert!(g.save("one\n", None).created);
    assert_eq!(tracked_paths(&g.store, None), ["/work/DOC.md", "/work/doc.md"]);
    assert!(latest(&g.store, "/Work/doc.MD").is_none());
}
