//! The watcher and the socket.

use folio_core::corpus::{Policy, Resolved, Root, RootKind};
use folio_core::disk::Disk;
use folio_core::error::Error;
use folio_core::event::Event;
use folio_core::ipc::{
    authorised, check_handshake, read_reply, reply, store_mismatch, unauthorised_reply,
    unnamed_caller, unreadable_reply,
};
use folio_core::json::{to_text, Json};
use folio_core::store::Store;
use folio_core::watch::{handle_change, touched, Seen};
use folio_core::Config;

fn seen(name: &str, is_dir: bool) -> Seen {
    Seen { name: name.into(), is_dir, key: format!("/work/{name}") }
}

#[test]
fn a_burst_of_events_is_each_file_once() {
    let burst = [
        seen("b.md", false),
        seen("a.md", false),
        seen("b.md", false),
        seen("docs", true),
        seen(".a.md.folio-tmp-1234", false),
    ];
    assert_eq!(touched(&burst), vec!["/work/a.md", "/work/b.md"]);
}

fn at(kind: RootKind, path: &str) -> Resolved {
    let root = Root {
        id: "root_w".into(),
        display: "/work".into(),
        path: "/work".into(),
        kind,
        policy: Policy::Auto,
        label: "work".into(),
        added_at: 0,
    };
    Resolved { root, path: path.into(), dirs: vec![] }
}

#[test]
fn a_change_becomes_a_version_and_a_loss_a_notice() {
    let mut store = Store::open("/store", None);
    let cfg = Config::default();
    let mut disk = Disk::new();
    disk.write("/work/a.md", b"# A\n", 0);
    disk.write("/work/a.bin", b"\x00", 0);

    let first = handle_change(&mut store, &disk, &cfg, Ok(at(RootKind::Dir, "/work/a.md")), 1);
    assert!(matches!(first, Some(Event::SnapshotCreated { .. })));
    let again = handle_change(&mut store, &disk, &cfg, Ok(at(RootKind::Dir, "/work/a.md")), 1);
    assert!(again.is_none());
    let other = handle_change(&mut store, &disk, &cfg, Ok(at(RootKind::Dir, "/work/a.bin")), 1);
    assert!(other.is_none());
    let gone = handle_change(&mut store, &disk, &cfg, Ok(at(RootKind::Dir, "/work/b.md")), 1);
    assert!(matches!(gone, Some(Event::DocRemoved { path, .. }) if path == "/work/b.md"));
    let outside =
        handle_change(&mut store, &disk, &cfg, Err(Error::OutsideRoot("/etc".into())), 1);
    assert!(outside.is_none());
    assert_eq!(store.snapshots.len(), 1);
}

#[test]
fn a_change_that_is_too_large_is_passed_over() {
    let mut store = Store::open("/store", None);
    let mut cfg = Config::default();
    cfg.max_blob_bytes = 1;
    let mut disk = Disk::new();
    disk.write("/work/a.md", b"# A\n", 0);
    let told = handle_change(&mut store, &disk, &cfg, Ok(at(RootKind::Dir, "/work/a.md")), 3);
    assert!(told.is_none());
    assert!(store.snapshots.is_empty());
}

#[test]
fn a_reply_reports_what_happened() {
    let fine = reply(Ok(Json::Bool(true)));
    assert_eq!(to_text(&fine), "{\"ok\":true,\"result\":true}");
    assert!(matches!(read_reply(&fine), Ok(Json::Bool(true))));
    assert!(check_handshake(&fine).is_ok());

    let refused = reply(Err(Error::QueueFull("q".into())));
    assert_eq!(read_reply(&refused).unwrap_err().code(), "queue_full");
    assert!(check_handshake(&refused).unwrap_err().starts_with("unexpected reply from the app: "));

    let stale = reply(Err(Error::stale("old", Json::Bool(false))));
    let err = read_reply(&stale).unwrap_err();
    assert_eq!(err.code(), "stale");
    assert!(matches!(err.data(), Some(Json::Bool(false))));

    let odd = read_reply(&Json::Null).unwrap_err();
    assert_eq!(odd.code(), "error");
    assert_eq!(odd.message(), "the Folio app rejected the call");
}

#[test]
fn an_error_reads_the_same_over_the_socket() {
    let errors = || {
        vec![
            Error::Io("disk full".into()),
            Error::Db("locked".into()),
            Error::Json("eof".into()),
            Error::NotFound("x".into()),
            Error::OutsideRoot("/etc".into()),
            Error::PolicyDenied { path: "/a is `b`.md".into(), policy: "propose".into() },
            Error::Conflict("conflict: twice".into()),
            Error::Invalid("bad".into()),
            Error::TooLarge("big".into()),
            Error::QueueFull("q".into()),
            Error::RateLimited("slow".into()),
            Error::stale("old", Json::Bool(true)),
            Error::UnknownOp("fly".into()),
            Error::Other("hm".into()),
        ]
    };
    for (sent, e) in errors().into_iter().zip(errors()) {
        let got = read_reply(&reply(Err(e))).unwrap_err();
        assert_eq!(got.code(), sent.code());
        assert_eq!(got.message(), sent.message());
        assert_eq!(to_text(&got.to_wire()), to_text(&sent.to_wire()));
    }
}

#[test]
fn the_socket_is_guarded_by_a_token() {
    assert!(authorised("abc", "abc"));
    assert!(!authorised("abd", "abc"));
    assert!(to_text(&unauthorised_reply()).contains("\"ok\":false"));
    assert_eq!(read_reply(&unreadable_reply("bad line")).unwrap_err().code(), "invalid");
    assert!(!unnamed_caller().is_human);
}

#[test]
fn a_bridge_joins_only_the_store_that_it_was_told() {
    assert_eq!(store_mismatch(None, "/app", false), None);
    assert_eq!(store_mismatch(Some("/app"), "/app", true), None);
    assert_eq!(
        store_mismatch(Some("/mine"), "/app", false).unwrap(),
        "a Folio app is running but on a different store (/app); FOLIO_STORE asks for /mine"
    );
}
