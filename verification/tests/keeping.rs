//! The store: blobs, settings, clients, usage events, paths, events.

use folio_core::corpus::fold;
use folio_core::error::Error;
use folio_core::event::{Bus, Event};
use folio_core::instrumentation;
use folio_core::json::{to_text, Json};
use folio_core::store::blobs::{path_for, BlobStore};
use folio_core::store::{
    cloud_hit, default_store_dir, ipc_token, standard_store_dir, store_dir_override, Store,
};
use folio_core::util::{
    canonical_key, display_path, expand_tilde, fold_all, hash_text, is_under, join_lines, key_eq,
    lexical_normalize, ms_to_rfc3339, now_ms, now_rfc3339, path_eq, random_suffix, sha256_hex,
    split_lines, to_fs_path, Host,
};
use folio_core::Config;
use std::sync::atomic::{AtomicUsize, Ordering};
use std::sync::Arc;

fn store() -> Store {
    Store::open("/store", None)
}

#[test]
fn identical_content_stores_once() {
    let mut blobs = BlobStore::new();
    let a = blobs.put(b"# Skill\n");
    let b = blobs.put(b"# Skill\n");
    assert_eq!(a, b);
    assert_eq!(blobs.get(&a).unwrap(), b"# Skill\n");
    assert!(blobs.contains(&a));
}

#[test]
fn missing_blob_is_not_found_not_io() {
    let blobs = BlobStore::new();
    let err = blobs.get(&"0".repeat(64)).unwrap_err();
    assert_eq!(err.code(), "not_found");
}

#[test]
fn a_blob_is_filed_by_the_head_of_its_hash() {
    assert_eq!(path_for("/store/blobs", "abcdef01"), "/store/blobs/ab/cd/abcdef01");
    let mut blobs = BlobStore::new();
    let a = blobs.put(b"abc");
    assert_eq!(a, "ba7816bf8f01cfea414140de5dae2223b00361a396177a9cb410ff61f20015ad");
    blobs.put(b"de");
    assert_eq!(blobs.total_size(), 5);
    assert_eq!(blobs.get_text(&a).unwrap(), "abc");
}

#[test]
fn opens_and_allocates_unique_ids() {
    let a = Store::alloc_id(&[], "prop").unwrap();
    assert!(a.starts_with("prop_"));
    assert_eq!(a.len(), "prop_".len() + 4);
}

#[test]
fn an_identifier_is_found_where_few_are_taken() {
    let taken: Vec<String> = vec!["prop_1".into(), "prop_zzzz".into(), "prop_0123456789ab".into()];
    for _ in 0..50 {
        let id = Store::alloc_id(&taken, "prop").unwrap();
        assert!(!taken.contains(&id));
        assert_eq!(id.len(), "prop_0000".len());
    }
}

#[test]
fn rate_limit_trips_then_reports() {
    let mut store = store();
    for _ in 0..3 {
        store.check_rate_limit("looping-agent", "reply", 3, 60_000).unwrap();
    }
    let err = store.check_rate_limit("looping-agent", "reply", 3, 60_000).unwrap_err();
    assert_eq!(err.code(), "rate_limited");
    // Another client, and a later time, are another matter.
    assert!(store.check_rate_limit("other-agent", "reply", 3, 60_000).is_ok());
    let later = folio_core::util::now_ms() + 120_000;
    assert!(store.check_rate_limit_at("looping-agent", "reply", 3, 60_000, later).is_ok());
}

#[test]
fn meta_round_trips() {
    let mut store = store();
    store.set_meta("last_review_at", "42");
    store.set_meta("last_review_at", "43");
    assert_eq!(store.get_meta("last_review_at").as_deref(), Some("43"));
    assert_eq!(store.get_meta("absent"), None);
}

#[test]
fn a_client_is_active_for_a_while() {
    let mut store = store();
    store.touch_client_at("codex", "headless", 1_000);
    store.touch_client_at("alpha-code", "bridged", 5_000);
    store.touch_client_at("codex", "bridged", 6_000);
    let all = store.active_clients_at(10_000, 6_000);
    let names: Vec<&str> = all.iter().map(|c| c.name.as_str()).collect();
    assert_eq!(names, vec!["alpha-code", "codex"]);
    assert_eq!(all[1].mode, "bridged");
    assert_eq!(store.active_clients_at(500, 6_000).len(), 1);
}

#[test]
fn records_nothing_until_enabled_and_can_be_cleared() {
    let mut store = store();

    assert!(!instrumentation::record(&mut store, "launch-1", "view.today").unwrap());
    assert_eq!(instrumentation::count(&store), 0);

    instrumentation::set_enabled(&mut store, true);
    assert!(instrumentation::record(&mut store, "launch-1", "view.today").unwrap());
    assert!(instrumentation::record(&mut store, "launch-1", "action.save").unwrap());
    let events = instrumentation::list(&store);
    assert_eq!(events.len(), 2);
    assert_eq!(events[0].event, "view.today");
    assert_eq!(events[1].event, "action.save");
    assert_eq!(events[0].session, "launch-1");

    assert_eq!(instrumentation::clear(&mut store), 2);
    assert_eq!(instrumentation::count(&store), 0);
}

#[test]
fn rejects_context_disguised_as_an_event_name() {
    let mut store = store();
    instrumentation::set_enabled(&mut store, true);

    let error =
        instrumentation::record(&mut store, "launch-1", "open./home/carlos/private.md").unwrap_err();
    assert_eq!(error.code(), "invalid");
    assert_eq!(instrumentation::count(&store), 0);
}

#[test]
fn a_synchronised_folder_is_warned_of() {
    assert_eq!(cloud_hit("/home/me/Dropbox/folio"), Some("dropbox"));
    assert_eq!(cloud_hit("/home/me/.local/share/folio"), None);
    let store = Store::open("/home/me/OneDrive/folio", None);
    assert_eq!(store.cloud_sync_warning().as_deref(), Some("onedrive"));
}

#[test]
fn the_store_lives_where_it_is_told_to() {
    assert_eq!(default_store_dir(Some("/asked"), Some("/data"), Some("/home/me")), "/asked");
    assert_eq!(default_store_dir(Some(" "), Some("/data"), None), "/data/Folio");
    assert_eq!(standard_store_dir(None), "./Folio");
    assert_eq!(store_dir_override(Some("~/s"), Some("/home/me")).as_deref(), Some("/home/me/s"));
    assert_eq!(store_dir_override(None, None), None);
}

#[test]
fn a_key_is_a_path_in_the_systems_own_way() {
    assert_eq!(to_fs_path("C:/a/b.md", true), "C:\\a\\b.md");
    assert_eq!(to_fs_path("/a/b.md", false), "/a/b.md");
}

#[test]
fn a_token_is_kept_once_made() {
    let (fresh, made) = ipc_token(None);
    assert!(made);
    assert_eq!(fresh.len(), 48);
    let (kept, made) = ipc_token(Some(&fresh));
    assert!(!made);
    assert_eq!(kept, fresh);
}

#[test]
fn listeners_receive_events() {
    let mut bus = Bus::new();
    let count = Arc::new(AtomicUsize::new(0));
    let seen = count.clone();
    bus.subscribe(move |_: &Event| {
        seen.fetch_add(1, Ordering::SeqCst);
    });
    bus.emit(Event::CorpusChanged);
    bus.emit(Event::WatcherStatus { watching: 2, healthy: true, message: None });
    assert_eq!(count.load(Ordering::SeqCst), 2);
}

// ---------------------------------------------------------------------------
// Paths, lines, hashes
// ---------------------------------------------------------------------------

#[test]
fn lexical_normalize_eats_traversal() {
    assert_eq!(lexical_normalize("a/b/../c"), "a/c");
    assert_eq!(lexical_normalize("./a/./b"), "a/b");
}

#[test]
fn a_normal_path_has_no_dots_and_stays_as_it_is() {
    for (path, normal) in [
        ("a/b/../c", "a/c"),
        ("/a/./b//../c/", "/a/c"),
        ("a/..", ""),
        ("/a/..", "/"),
        ("//", "/"),
        ("", ""),
    ] {
        assert_eq!(lexical_normalize(path), normal);
        assert_eq!(lexical_normalize(normal), normal);
    }
}

#[test]
fn paths_compare_as_the_file_system_does() {
    assert!(path_eq("C:/Roots/a.md", "c:/roots/A.md", true));
    assert!(!path_eq("C:/Roots/a.md", "c:/roots/A.md", false));
    assert!(!path_eq("/\u{c9}", "/\u{e9}", true));
    assert!(path_eq("/a", "/a", false));
    assert_eq!(fold("/A/\u{c9}.md", true), "/a/\u{e9}.md");
    assert_eq!(fold("/A/\u{c9}.md", false), "/A/\u{c9}.md");
    // Paths that are the same in any case have one key, whatever else they hold.
    for (a, b) in [("/A/\u{c9}.md", "/a/\u{c9}.MD"), ("C:/\u{3a3}A", "c:/\u{3a3}a"), ("", "")] {
        assert!(path_eq(a, b, true));
        assert_eq!(fold(a, true), fold(b, true));
        assert!(key_eq(a, b, true));
    }
    assert!(key_eq("/\u{c9}", "/\u{e9}", true));
    assert!(!key_eq("/A", "/a", false));
    let paths = ["/A".to_string(), "/b".to_string()];
    assert_eq!(fold_all(&paths, true), ["/a", "/b"]);
    assert_eq!(fold_all(&paths, false), ["/A", "/b"]);
}

#[test]
fn a_new_store_counts_nothing() {
    let store = store();
    assert!(!instrumentation::enabled(&store));
    assert_eq!(instrumentation::count(&store), 0);
}

#[test]
fn is_under_requires_a_component_boundary() {
    assert!(is_under("C:/roots/skills", "C:/roots/skills/a/SKILL.md", false));
    assert!(is_under("C:/roots/skills", "C:/roots/skills", false));
    // The classic prefix bug: `skills-backup` is not inside `skills`.
    assert!(!is_under("C:/roots/skills", "C:/roots/skills-backup/x.md", false));
    assert!(is_under("C:/Roots/Skills", "c:/roots/skills/a/SKILL.md", true));
    assert!(!is_under("C:/Roots/Skills", "c:/roots/skills/a/SKILL.md", false));
    assert!(!is_under("C:/roots/skills", "C:/roots/SKILLS-backup/x.md", true));
}

#[test]
fn lines_round_trip() {
    for text in ["a\nb\n", "a\nb", "", "\n"] {
        let (lines, trailing) = split_lines(text);
        assert_eq!(join_lines(&lines, trailing, "\n"), text.replace("\r\n", "\n"));
    }
}

#[test]
fn random_suffix_has_the_requested_width() {
    assert_eq!(random_suffix(4).len(), 4);
    assert_eq!(random_suffix(20).len(), 20);
}

#[test]
fn hashes_and_dates_are_what_they_are_everywhere() {
    assert_eq!(
        sha256_hex(b""),
        "e3b0c44298fc1c149afbf4c8996fb92427ae41e4649b934ca495991b7852b855"
    );
    assert_eq!(hash_text("a\r\nb\n"), hash_text("a\r\nb\n"));
    assert_ne!(hash_text("a\n"), hash_text("b\n"));
    assert_eq!(ms_to_rfc3339(0), "1970-01-01T00:00:00Z");
    assert_eq!(ms_to_rfc3339(1_700_000_000_123), "2023-11-14T22:13:20Z");
}

#[test]
fn the_home_directory_is_a_tilde() {
    let host = Host::new(Some("/home/me"), false);
    assert_eq!(display_path("/home/me/docs/a.md", &host), "~/docs/a.md");
    assert_eq!(display_path("/home/mean/a.md", &host), "/home/mean/a.md");
    assert_eq!(expand_tilde("~/a.md", Some("/home/me")), "/home/me/a.md");
    assert_eq!(expand_tilde("a.md", Some("/home/me")), "a.md");
    assert_eq!(display_path("/home/me", &host), "/home/me");
    assert_eq!(display_path("/Home/me/a.md", &host), "/Home/me/a.md");
    let drives = Host::new(Some("C:/Users/me"), true);
    assert_eq!(drives.home(), Some("C:/Users/me"));
    assert_eq!(display_path("c:/users/Me/Notes/a.md", &drives), "~/Notes/a.md");
    assert_eq!(display_path("/a.md", &Host::new(None, true)), "/a.md");
}

#[test]
fn the_clock_names_a_date() {
    let before = now_ms();
    let text = now_rfc3339();
    let after = now_ms();
    assert!(before > 0 && before <= after);
    assert_eq!(text.len(), "1970-01-01T00:00:00Z".len());
    assert!(ms_to_rfc3339(before) <= text && text <= ms_to_rfc3339(after));
    // A time that names no date is shown as the present one.
    let shown = ms_to_rfc3339(i64::MAX);
    assert!(ms_to_rfc3339(before) <= shown && shown <= now_rfc3339());
}

#[test]
fn a_path_that_is_not_there_yet_hangs_below_what_is() {
    assert_eq!(
        canonical_key("/link/new/a.md", Some(("/real", &["new".into(), "a.md".into()]))),
        "/real/new/a.md"
    );
    assert_eq!(canonical_key("/x/../y/a.md", None), "/y/a.md");
}

// ---------------------------------------------------------------------------
// Errors and settings
// ---------------------------------------------------------------------------

#[test]
fn errors_go_over_the_wire_with_a_code_and_a_message() {
    let cases = [
        (Error::Io("gone".into()), "io", "gone"),
        (Error::Db("locked".into()), "store", "store: locked"),
        (Error::Json("bad".into()), "json", "json: bad"),
        (Error::not_found("x"), "not_found", "not found: x"),
        (
            Error::OutsideRoot("/etc".into()),
            "outside_root",
            "path is outside every registered root: /etc",
        ),
        (
            Error::PolicyDenied { path: "a.md".into(), policy: "propose".into() },
            "policy_denied",
            "write policy for a.md is `propose`; this write must go through a proposal",
        ),
        (Error::Conflict("c".into()), "conflict", "conflict: c"),
        (Error::invalid("i"), "invalid", "invalid: i"),
        (Error::TooLarge("t".into()), "too_large", "too large: t"),
        (Error::QueueFull("q".into()), "queue_full", "queue full: q"),
        (Error::RateLimited("r".into()), "rate_limited", "rate limited: r"),
        (Error::UnknownOp("o".into()), "unknown_op", "unknown operation: o"),
        (Error::other("e"), "error", "e"),
    ];
    for (e, code, message) in cases {
        assert_eq!(e.code(), code);
        assert_eq!(e.message(), message);
        assert_eq!(
            to_text(&e.to_wire()),
            format!("{{\"code\":\"{code}\",\"message\":\"{message}\"}}")
        );
    }
    let stale = Error::stale("old", Json::Array(vec![Json::Null]));
    assert_eq!(to_text(&stale.to_wire()), "{\"code\":\"stale\",\"data\":[null],\"message\":\"old\"}");
}

#[test]
fn the_defaults_are_what_the_docs_say() {
    let cfg = Config::default();
    assert_eq!(cfg.max_pending_proposals, 500);
    assert_eq!(cfg.coalesce_ms, 2_000);
    assert_eq!(cfg.anchor_context_lines, 2);
}
