//! Writing documents together with their history, and putting old versions
//! back.

use super::history::{get, newest, no_version, snapshot_ids};
use super::record::{
    backed, fresh_id, fresh_or_none, id_view, new_snapshot, newest_in_window, record_at,
    record_result, records_as, same_window, unchanged, window_of, RecordOutcome, RecordRequest,
    RequestModel,
};
use super::types::{snapshot_models, SnapshotModel, Source, AUTHOR_YOU};
use crate::comment::threads::dated;
use crate::config::Config;
use crate::corpus::types::{Resolved, ResolvedModel};
use crate::disk::{appended, Disk, FileModel};
use crate::error::{Error, ErrorModel, Result};
use crate::store::blobs::{address_of, addressed, blob_text};
use crate::store::Store;
use crate::table::place_of;
use crate::text::{opt_str_view, text_in};
use crate::util::{
    display_of, display_path, ms_to_rfc3339, now_ms, path_eq, same_key, same_path, HostModel,
};
use vstd::prelude::*;
use vstd::utf8::encode_utf8;

verus! {

/// A request to record what a document holds.
pub open spec fn request_of(
    at: ResolvedModel,
    content: Seq<u8>,
    source: Source,
    author: Option<Seq<char>>,
    client: Option<Seq<char>>,
    message: Option<Seq<char>>,
    mtime: Option<i64>,
) -> RequestModel {
    RequestModel {
        resolved: at,
        content: content,
        source: source,
        author: author,
        client: client,
        message: message,
        mtime: mtime,
    }
}

/// What a caller is told of a file that is not there.
pub open spec fn no_file() -> ErrorModel {
    ErrorModel::Io("No such file or directory (os error 2)"@)
}

/// Records what a document holds on disk. The watcher's entry point.
pub fn record_from_disk(
    store: &mut Store,
    disk: &Disk,
    cfg: &Config,
    resolved: &Resolved,
    source: Source,
    author: Option<&str>,
    client: Option<&str>,
    message: Option<&str>,
) -> (out: Result<RecordOutcome>)
    ensures
        !disk@.dom().contains(resolved@.path) ==> *final(store) == *old(store) && (out matches Err(
            e,
        ) && e@ == no_file()),
        disk@.dom().contains(resolved@.path) ==> exists|
            id: std::result::Result<Seq<char>, ErrorModel>,
            now: i64,
            iso: Seq<char>,
        |
            ({
                let want = #[trigger] record_result(
                    snapshot_models(old(store).snapshots@),
                    old(store).blobs@,
                    old(store).host@,
                    *cfg,
                    request_of(
                        resolved@,
                        disk@[resolved@.path].bytes,
                        source,
                        opt_str_view(author),
                        opt_str_view(client),
                        opt_str_view(message),
                        disk@[resolved@.path].mtime,
                    ),
                    id,
                    now,
                    iso,
                );
                &&& fresh_or_none(snapshot_models(old(store).snapshots@), id)
                &&& dated(now, iso)
                &&& snapshot_models(final(store).snapshots@) == want.0
                &&& final(store).blobs@ == want.1
                &&& records_as(out, want.2)
            }),
        backed(snapshot_models(old(store).snapshots@), old(store).blobs@) ==> backed(
            snapshot_models(final(store).snapshots@),
            final(store).blobs@,
        ),
        addressed(old(store).blobs@) ==> addressed(final(store).blobs@),
        *final(store) == (Store {
            snapshots: final(store).snapshots,
            blobs: final(store).blobs,
            ..*old(store)
        }),
{
    match disk.find(resolved.path.as_str()) {
        None => Err(Error::Io("No such file or directory (os error 2)".to_owned())),
        Some(file) => super::record::record(
            store,
            cfg,
            &RecordRequest {
                resolved: resolved,
                content: &file.bytes,
                source: source,
                author: author,
                client: client,
                message: message,
                mtime: file.mtime,
            },
        ),
    }
}

/// The files after a write that was to be recorded. One that could not be
/// recorded leaves them as they were.
pub open spec fn disk_after(
    before: Map<Seq<char>, FileModel>,
    path: Seq<char>,
    bytes: Seq<u8>,
    now: i64,
    recorded: std::result::Result<(SnapshotModel, bool), ErrorModel>,
) -> Map<Seq<char>, FileModel> {
    if recorded is Ok {
        before.insert(path, FileModel { bytes: bytes, mtime: Some(now) })
    } else {
        before
    }
}

/// Writes a document and records it in one step as of a moment, so that the
/// file and its history can never disagree: what cannot be recorded is not
/// written.
pub fn write_and_record_at(
    store: &mut Store,
    disk: &mut Disk,
    cfg: &Config,
    resolved: &Resolved,
    content: &str,
    source: Source,
    author: Option<&str>,
    client: Option<&str>,
    message: Option<&str>,
    id: Result<String>,
    now: i64,
    iso: &str,
) -> (out: Result<RecordOutcome>)
    ensures
        appended(*old(disk), *final(disk)),
        out is Err ==> *final(disk) == *old(disk),
        ({
            let want = record_result(
                snapshot_models(old(store).snapshots@),
                old(store).blobs@,
                old(store).host@,
                *cfg,
                request_of(
                    resolved@,
                    encode_utf8(content@),
                    source,
                    opt_str_view(author),
                    opt_str_view(client),
                    opt_str_view(message),
                    Some(now),
                ),
                id_view(id),
                now,
                iso@,
            );
            &&& final(disk)@ == disk_after(
                old(disk)@,
                resolved@.path,
                encode_utf8(content@),
                now,
                want.2,
            )
            &&& snapshot_models(final(store).snapshots@) == want.0
            &&& final(store).blobs@ == want.1
            &&& records_as(out, want.2)
        }),
        backed(snapshot_models(old(store).snapshots@), old(store).blobs@) ==> backed(
            snapshot_models(final(store).snapshots@),
            final(store).blobs@,
        ),
        addressed(old(store).blobs@) ==> addressed(final(store).blobs@),
        *final(store) == (Store {
            snapshots: final(store).snapshots,
            blobs: final(store).blobs,
            ..*old(store)
        }),
{
    let bytes = content.as_bytes();
    let out = record_at(
        store,
        cfg,
        &RecordRequest {
            resolved: resolved,
            content: bytes,
            source: source,
            author: author,
            client: client,
            message: message,
            mtime: Some(now),
        },
        id,
        now,
        iso,
    );
    if out.is_ok() {
        disk.write(resolved.path.as_str(), bytes, now);
    }
    out
}

/// Writes a document and records it in one step now.
pub fn write_and_record(
    store: &mut Store,
    disk: &mut Disk,
    cfg: &Config,
    resolved: &Resolved,
    content: &str,
    source: Source,
    author: Option<&str>,
    client: Option<&str>,
    message: Option<&str>,
) -> (out: Result<RecordOutcome>)
    ensures
        appended(*old(disk), *final(disk)),
        out is Err ==> *final(disk) == *old(disk),
        exists|id: std::result::Result<Seq<char>, ErrorModel>, now: i64, iso: Seq<char>|
            ({
                let want = #[trigger] record_result(
                    snapshot_models(old(store).snapshots@),
                    old(store).blobs@,
                    old(store).host@,
                    *cfg,
                    request_of(
                        resolved@,
                        encode_utf8(content@),
                        source,
                        opt_str_view(author),
                        opt_str_view(client),
                        opt_str_view(message),
                        Some(now),
                    ),
                    id,
                    now,
                    iso,
                );
                &&& fresh_or_none(snapshot_models(old(store).snapshots@), id)
                &&& dated(now, iso)
                &&& final(disk)@ == disk_after(
                    old(disk)@,
                    resolved@.path,
                    encode_utf8(content@),
                    now,
                    want.2,
                )
                &&& snapshot_models(final(store).snapshots@) == want.0
                &&& final(store).blobs@ == want.1
                &&& records_as(out, want.2)
            }),
        backed(snapshot_models(old(store).snapshots@), old(store).blobs@) ==> backed(
            snapshot_models(final(store).snapshots@),
            final(store).blobs@,
        ),
        addressed(old(store).blobs@) ==> addressed(final(store).blobs@),
        *final(store) == (Store {
            snapshots: final(store).snapshots,
            blobs: final(store).blobs,
            ..*old(store)
        }),
{
    let id = fresh_id(store);
    let now = now_ms();
    let iso = ms_to_rfc3339(now);
    let ghost name = id_view(id);
    assert(fresh_or_none(snapshot_models(store.snapshots@), name));
    write_and_record_at(
        store,
        disk,
        cfg,
        resolved,
        content,
        source,
        author,
        client,
        message,
        id,
        now,
        iso.as_str(),
    )
}

/// What a caller is told who restores another document's version.
pub open spec fn belongs_elsewhere(
    id: Seq<char>,
    theirs: Seq<char>,
    ours: Seq<char>,
) -> ErrorModel {
    ErrorModel::Invalid("version "@ + id + " belongs to "@ + theirs + ", not "@ + ours)
}

pub(crate) fn elsewhere(id: &str, theirs: &str, ours: &str) -> (out: Error)
    ensures
        out@ == belongs_elsewhere(id@, theirs@, ours@),
{
    let mut m = "version ".to_owned();
    m.append(id);
    m.append(" belongs to ");
    m.append(theirs);
    m.append(", not ");
    m.append(ours);
    Error::Invalid(m)
}

/// The note on a restored version.
pub open spec fn restore_note(target: SnapshotModel) -> Seq<char> {
    "restore "@ + target.id + " ("@ + target.created_at_iso + ")"@
}

/// What keeps a version from being restored, if anything does.
pub open spec fn restore_refusal(
    s: Seq<SnapshotModel>,
    blobs: Map<Seq<char>, Seq<u8>>,
    host: HostModel,
    at: ResolvedModel,
    version: Seq<char>,
) -> Option<ErrorModel> {
    let i = place_of(snapshot_ids(s), version);
    if i >= s.len() {
        Some(no_version(version))
    } else if !same_path(s[i].path, at.path, host.drives) {
        Some(belongs_elsewhere(version, s[i].display, display_of(at.path, host)))
    } else if !blobs.dom().contains(s[i].blob_hash) {
        Some(ErrorModel::NotFound("blob "@ + s[i].blob_hash))
    } else {
        None
    }
}

/// The request with which a restored version is recorded.
pub open spec fn restore_request(
    target: SnapshotModel,
    content: Seq<u8>,
    at: ResolvedModel,
    now: i64,
) -> RequestModel {
    request_of(
        at,
        content,
        Source::Restore,
        Some("you"@),
        None,
        Some(restore_note(target)),
        Some(now),
    )
}

/// Puts an old version back on disk as of a moment. The restore is itself
/// recorded, so restores are undoable: there is no way to lose content by
/// exploring history.
pub fn restore_at(
    store: &mut Store,
    disk: &mut Disk,
    cfg: &Config,
    resolved: &Resolved,
    version_id: &str,
    id: Result<String>,
    now: i64,
    iso: &str,
) -> (out: Result<RecordOutcome>)
    ensures
        appended(*old(disk), *final(disk)),
        out is Err ==> *final(disk) == *old(disk),
        ({
            let was = snapshot_models(old(store).snapshots@);
            let host = old(store).host@;
            match restore_refusal(was, old(store).blobs@, host, resolved@, version_id@) {
                Some(why) => {
                    &&& out matches Err(e) && e@ == why
                    &&& *final(store) == *old(store)
                    &&& *final(disk) == *old(disk)
                },
                None => {
                    let target = was[place_of(snapshot_ids(was), version_id@)];
                    let content = old(store).blobs@[target.blob_hash];
                    let want = record_result(
                        was,
                        old(store).blobs@,
                        host,
                        *cfg,
                        restore_request(target, content, resolved@, now),
                        id_view(id),
                        now,
                        iso@,
                    );
                    &&& final(disk)@ == disk_after(
                        old(disk)@,
                        resolved@.path,
                        content,
                        now,
                        want.2,
                    )
                    &&& snapshot_models(final(store).snapshots@) == want.0
                    &&& final(store).blobs@ == want.1
                    &&& records_as(out, want.2)
                },
            }
        }),
        backed(snapshot_models(old(store).snapshots@), old(store).blobs@) ==> backed(
            snapshot_models(final(store).snapshots@),
            final(store).blobs@,
        ),
        addressed(old(store).blobs@) ==> addressed(final(store).blobs@),
        *final(store) == (Store {
            snapshots: final(store).snapshots,
            blobs: final(store).blobs,
            ..*old(store)
        }),
{
    let target = match get(store, version_id) {
        Ok(s) => s,
        Err(e) => {
            return Err(e);
        },
    };
    if !path_eq(target.path.as_str(), resolved.path.as_str(), store.host.drives) {
        let ours = display_path(resolved.path.as_str(), &store.host);
        return Err(elsewhere(version_id, target.display.as_str(), ours.as_str()));
    }
    let bytes = match store.blobs.get(target.blob_hash.as_str()) {
        Ok(b) => b,
        Err(e) => {
            return Err(e);
        },
    };
    let mut note = "restore ".to_owned();
    note.append(target.id.as_str());
    note.append(" (");
    note.append(target.created_at_iso.as_str());
    note.append(")");
    let out = record_at(
        store,
        cfg,
        &RecordRequest {
            resolved: resolved,
            content: &bytes,
            source: Source::Restore,
            author: Some(AUTHOR_YOU),
            client: None,
            message: Some(note.as_str()),
            mtime: Some(now),
        },
        id,
        now,
        iso,
    );
    if out.is_ok() {
        disk.write(resolved.path.as_str(), &bytes, now);
    }
    out
}

/// Is this how an old version is put back?
pub open spec fn version_restored(
    prior: Store,
    later: Store,
    old_disk: Disk,
    new_disk: Disk,
    cfg: Config,
    at: ResolvedModel,
    version_id: Seq<char>,
    out: Result<RecordOutcome>,
) -> bool {
    &&& ({
        let was = snapshot_models(prior.snapshots@);
        let host = prior.host@;
        match restore_refusal(was, prior.blobs@, host, at, version_id) {
            Some(why) => {
                &&& out matches Err(e) && e@ == why
                &&& later == prior
                &&& new_disk == old_disk
            },
            None => {
                let target = was[place_of(snapshot_ids(was), version_id)];
                let content = prior.blobs@[target.blob_hash];
                exists|id: std::result::Result<Seq<char>, ErrorModel>, now: i64, iso: Seq<char>|
                    ({
                        let want = #[trigger] record_result(
                            was,
                            prior.blobs@,
                            host,
                            cfg,
                            restore_request(target, content, at, now),
                            id,
                            now,
                            iso,
                        );
                        &&& fresh_or_none(was, id)
                        &&& dated(now, iso)
                        &&& new_disk@ == disk_after(old_disk@, at.path, content, now, want.2)
                        &&& snapshot_models(later.snapshots@) == want.0
                        &&& later.blobs@ == want.1
                        &&& records_as(out, want.2)
                    })
            },
        }
    })
    &&& backed(snapshot_models(prior.snapshots@), prior.blobs@) ==> backed(
            snapshot_models(later.snapshots@),
            later.blobs@,
        )
    &&& addressed(prior.blobs@) ==> addressed(later.blobs@)
    &&& later == (Store {
        snapshots: later.snapshots,
        blobs: later.blobs,
        ..prior
    })
}

/// Puts an old version back on disk now.
pub fn restore(
    store: &mut Store,
    disk: &mut Disk,
    cfg: &Config,
    resolved: &Resolved,
    version_id: &str,
) -> (out: Result<RecordOutcome>)
    ensures
        appended(*old(disk), *final(disk)),
        out is Err ==> *final(disk) == *old(disk),
        version_restored(
            *old(store),
            *final(store),
            *old(disk),
            *final(disk),
            *cfg,
            resolved@,
            version_id@,
            out,
        ),
{
    let id = fresh_id(store);
    let now = now_ms();
    let iso = ms_to_rfc3339(now);
    let ghost name = id_view(id);
    assert(fresh_or_none(snapshot_models(store.snapshots@), name));
    restore_at(store, disk, cfg, resolved, version_id, id, now, iso.as_str())
}

// ---------------------------------------------------------------------------
// Laws
// ---------------------------------------------------------------------------

/// History only grows: recording keeps every version that was there, in its
/// place, and every content.
pub proof fn law_history_only_grows(
    was: Seq<SnapshotModel>,
    blobs: Map<Seq<char>, Seq<u8>>,
    host: HostModel,
    cfg: Config,
    req: RequestModel,
    id: std::result::Result<Seq<char>, ErrorModel>,
    now: i64,
    iso: Seq<char>,
)
    ensures
        ({
            let after = record_result(was, blobs, host, cfg, req, id, now, iso);
            &&& was.is_prefix_of(after.0)
            &&& after.0.len() <= was.len() + 1
            &&& forall|h: Seq<char>| #[trigger]
                blobs.dom().contains(h) ==> after.1.dom().contains(h) && after.1[h] == blobs[h]
            &&& backed(was, blobs) ==> backed(after.0, after.1)
        }),
{
}

/// Saving again without a change is free: once a version has been added, the
/// same content adds no other, and the version itself is handed back. Only a
/// checkpoint, and a clock that goes backwards, can add one.
pub proof fn law_resave_is_free(
    was: Seq<SnapshotModel>,
    blobs: Map<Seq<char>, Seq<u8>>,
    host: HostModel,
    cfg: Config,
    req: RequestModel,
    id: std::result::Result<Seq<char>, ErrorModel>,
    now: i64,
    iso: Seq<char>,
    again: RequestModel,
    id2: std::result::Result<Seq<char>, ErrorModel>,
    now2: i64,
    iso2: Seq<char>,
)
    requires
        same_key(again.resolved.path, req.resolved.path, host.drives),
        again.content == req.content,
        again.source != Source::Checkpoint,
        forall|i: int|
            0 <= i < was.len() && same_key(
                (#[trigger] was[i]).path,
                req.resolved.path,
                host.drives,
            ) ==> was[i].created_at <= now,
    ensures
        ({
            let one = record_result(was, blobs, host, cfg, req, id, now, iso);
            let two = record_result(one.0, one.1, host, cfg, again, id2, now2, iso2);
            one.2 is Ok && one.2->Ok_0.1 ==> two.2 == Ok::<(SnapshotModel, bool), ErrorModel>(
                (one.2->Ok_0.0, false),
            ) && two.0 == one.0 && two.1 == one.1
        }),
{
    let one = record_result(was, blobs, host, cfg, req, id, now, iso);
    if let Ok((s, created)) = one.2 {
        if created {
            super::history::law_recorded_is_newest(was, s, s.path, host.drives);
            super::history::law_found_by_key(one.0, again.resolved.path, s.path, host.drives);
        }
    }
}

/// A checkpoint marks a milestone even when nothing changed.
pub proof fn law_checkpoint_always_marks(
    was: Seq<SnapshotModel>,
    blobs: Map<Seq<char>, Seq<u8>>,
    host: HostModel,
    cfg: Config,
    req: RequestModel,
    name: Seq<char>,
    now: i64,
    iso: Seq<char>,
)
    requires
        req.source == Source::Checkpoint,
        req.content.len() <= cfg.max_blob_bytes,
    ensures
        ({
            let after = record_result(was, blobs, host, cfg, req, Ok(name), now, iso);
            after.0 == was.push(new_snapshot(req, cfg, host, name, now, iso)) && after.2 == Ok::<
                (SnapshotModel, bool),
                ErrorModel,
            >((new_snapshot(req, cfg, host, name, now, iso), true))
        }),
{
}

/// Two watchers of the same root are harmless: what one has recorded, the other
/// does not record again in the same window, whatever was recorded in between.
pub proof fn law_watchers_coalesce(
    was: Seq<SnapshotModel>,
    blobs: Map<Seq<char>, Seq<u8>>,
    host: HostModel,
    cfg: Config,
    req: RequestModel,
    id: std::result::Result<Seq<char>, ErrorModel>,
    now: i64,
    iso: Seq<char>,
    later: Seq<SnapshotModel>,
    blobs2: Map<Seq<char>, Seq<u8>>,
    id2: std::result::Result<Seq<char>, ErrorModel>,
    now2: i64,
    iso2: Seq<char>,
)
    requires
        req.source == Source::External,
        window_of(now, cfg) == window_of(now2, cfg),
        record_result(was, blobs, host, cfg, req, id, now, iso).2 is Ok,
        record_result(was, blobs, host, cfg, req, id, now, iso).2->Ok_0.1,
        record_result(was, blobs, host, cfg, req, id, now, iso).0.is_prefix_of(later),
    ensures
        record_result(later, blobs2, host, cfg, req, id2, now2, iso2).0 == later,
        id2 is Ok ==> (record_result(later, blobs2, host, cfg, req, id2, now2, iso2).2 matches Ok((
            _,
            created,
        )) && !created),
{
    let one = record_result(was, blobs, host, cfg, req, id, now, iso);
    let s = one.2->Ok_0.0;
    let hash = address_of(req.content);
    let window = window_of(now, cfg) as i64;
    assert(one.0.last() == s);
    assert(later[was.len() as int] == s) by {
        assert(later.subrange(0, one.0.len() as int)[was.len() as int] == one.0[was.len() as int]);
    }
    assert(same_window(
        later[was.len() as int],
        req.resolved.path,
        hash,
        window,
        host.drives,
    ));
    lemma_found_in_window(
        later,
        req.resolved.path,
        hash,
        window,
        host.drives,
        was.len() as int,
    );
}

proof fn lemma_found_in_window(
    s: Seq<SnapshotModel>,
    path: Seq<char>,
    hash: Seq<char>,
    window: i64,
    any_case: bool,
    i: int,
)
    requires
        0 <= i < s.len(),
        same_window(s[i], path, hash, window, any_case),
    ensures
        newest_in_window(s, path, hash, window, any_case) is Some,
    decreases s.len(),
{
    if i < s.len() - 1 {
        lemma_found_in_window(s.drop_last(), path, hash, window, any_case, i);
    }
}

/// Restoring a version brings its content back under its own address, and the
/// version that was current before can be restored in turn: its content is
/// still there.
pub proof fn law_restore_is_undoable(
    was: Seq<SnapshotModel>,
    blobs: Map<Seq<char>, Seq<u8>>,
    host: HostModel,
    cfg: Config,
    at: ResolvedModel,
    version: Seq<char>,
    before: Seq<char>,
    id: std::result::Result<Seq<char>, ErrorModel>,
    now: i64,
    iso: Seq<char>,
)
    requires
        addressed(blobs),
        restore_refusal(was, blobs, host, at, version) is None,
        restore_refusal(was, blobs, host, at, before) is None,
    ensures
        ({
            let target = was[place_of(snapshot_ids(was), version)];
            let content = blobs[target.blob_hash];
            let after = record_result(
                was,
                blobs,
                host,
                cfg,
                restore_request(target, content, at, now),
                id,
                now,
                iso,
            );
            &&& address_of(content) == target.blob_hash
            &&& after.2 matches Ok((s, _)) ==> s.blob_hash == target.blob_hash && same_key(
                s.path,
                at.path,
                host.drives,
            )
            &&& restore_refusal(after.0, after.1, host, at, before) is None
        }),
{
    let target = was[place_of(snapshot_ids(was), version)];
    let content = blobs[target.blob_hash];
    let req = restore_request(target, content, at, now);
    let after = record_result(was, blobs, host, cfg, req, id, now, iso);
    super::history::law_newest(was, at.path, host.drives);
    let ids = snapshot_ids(was);
    let ids2 = snapshot_ids(after.0);
    crate::table::lemma_place_facts(ids, before);
    let k = place_of(ids, before);
    assert(after.0[k] == was[k]);
    assert forall|j: int| 0 <= j < k implies #[trigger] ids2[j] != before by {
        assert(ids2[j] == ids[j]);
    }
    crate::table::lemma_place(ids2, before, k);
}

/// Does no other content share the address of this one?
pub open spec fn alone(content: Seq<u8>) -> bool {
    forall|other: Seq<u8>| #[trigger] address_of(other) == address_of(content) ==> other == content
}

/// What was recorded is read back: the version that comes back is kept, it is
/// one of the document's, and under its address lies content with the digest of
/// what was recorded. That is the recorded text itself where the address is
/// new, or where no other content has it.
pub proof fn law_recorded_is_read_back(
    was: Seq<SnapshotModel>,
    blobs: Map<Seq<char>, Seq<u8>>,
    host: HostModel,
    cfg: Config,
    req: RequestModel,
    id: std::result::Result<Seq<char>, ErrorModel>,
    now: i64,
    iso: Seq<char>,
)
    requires
        backed(was, blobs),
        addressed(blobs),
    ensures
        ({
            let after = record_result(was, blobs, host, cfg, req, id, now, iso);
            after.2 matches Ok((s, _)) ==> {
                &&& after.0.contains(s)
                &&& same_key(s.path, req.resolved.path, host.drives)
                &&& s.blob_hash == address_of(req.content)
                &&& after.1.dom().contains(s.blob_hash)
                &&& address_of(after.1[s.blob_hash]) == address_of(req.content)
                &&& !blobs.dom().contains(s.blob_hash) || alone(req.content) ==> blob_text(
                    after.1,
                    s.blob_hash,
                ) == Some(text_in(req.content))
            }
        }),
{
    let after = record_result(was, blobs, host, cfg, req, id, now, iso);
    super::history::law_newest(was, req.resolved.path, host.drives);
    if let Ok((s, created)) = after.2 {
        let window = window_of(now, cfg) as i64;
        if created {
            assert(after.0.last() == s);
        } else if unchanged(was, req, host.drives) is None {
            lemma_in_window(was, req.resolved.path, address_of(req.content), window, host.drives);
        }
    }
}

pub proof fn lemma_in_window(
    s: Seq<SnapshotModel>,
    path: Seq<char>,
    hash: Seq<char>,
    window: i64,
    any_case: bool,
)
    ensures
        newest_in_window(s, path, hash, window, any_case) matches Some(i) ==> 0 <= i < s.len(
        ) && same_window(
            s[i],
            path,
            hash,
            window,
            any_case,
        ),
    decreases s.len(),
{
    if s.len() > 0 {
        lemma_in_window(s.drop_last(), path, hash, window, any_case);
    }
}

/// The version that recording adds, or finds unchanged, is the newest of its
/// document, and its identifier leads to it. A clock that goes backwards is
/// left out: the newest version is the one with the latest time.
pub proof fn law_recorded_is_newest(
    was: Seq<SnapshotModel>,
    blobs: Map<Seq<char>, Seq<u8>>,
    host: HostModel,
    cfg: Config,
    req: RequestModel,
    id: std::result::Result<Seq<char>, ErrorModel>,
    now: i64,
    iso: Seq<char>,
)
    requires
        fresh_or_none(was, id),
        forall|i: int|
            0 <= i < was.len() && same_key(
                (#[trigger] was[i]).path,
                req.resolved.path,
                host.drives,
            ) ==> was[i].created_at <= now,
    ensures
        ({
            let after = record_result(was, blobs, host, cfg, req, id, now, iso);
            after.2 matches Ok((s, created)) ==> {
                &&& created || unchanged(was, req, host.drives) is Some ==> (newest(
                    after.0,
                    req.resolved.path,
                    host.drives,
                ) matches Some(k) && after.0[k] == s)
                &&& created ==> place_of(snapshot_ids(after.0), s.id) == was.len()
                    && after.0[was.len() as int] == s
            }
        }),
{
    let after = record_result(was, blobs, host, cfg, req, id, now, iso);
    super::history::law_newest(was, req.resolved.path, host.drives);
    if let Ok((s, created)) = after.2 {
        if created {
            assert(after.0.drop_last() =~= was);
            let ids = snapshot_ids(was);
            let all = snapshot_ids(after.0);
            let n = was.len() as int;
            assert forall|k: int| 0 <= k < n implies #[trigger] all[k] != s.id by {
                assert(all[k] == ids[k]);
            }
            crate::table::lemma_place(all, s.id, n);
        }
    }
}

/// A file and its history do not disagree: after a write that was recorded the
/// file holds the text, and the version that comes back has its address; after
/// one that was not, the file and the versions are what they were.
pub proof fn law_file_and_history_agree(
    was: Seq<SnapshotModel>,
    blobs: Map<Seq<char>, Seq<u8>>,
    host: HostModel,
    cfg: Config,
    req: RequestModel,
    id: std::result::Result<Seq<char>, ErrorModel>,
    now: i64,
    iso: Seq<char>,
    disk: Map<Seq<char>, FileModel>,
)
    requires
        backed(was, blobs),
        addressed(blobs),
    ensures
        ({
            let after = record_result(was, blobs, host, cfg, req, id, now, iso);
            let files = disk_after(disk, req.resolved.path, req.content, now, after.2);
            match after.2 {
                Ok((s, _)) => {
                    &&& files.dom().contains(req.resolved.path)
                    &&& files[req.resolved.path].bytes == req.content
                    &&& address_of(files[req.resolved.path].bytes) == s.blob_hash
                    &&& same_key(s.path, req.resolved.path, host.drives)
                    &&& after.0.contains(s)
                },
                Err(_) => files == disk && after.0 == was,
            }
        }),
{
    law_recorded_is_read_back(was, blobs, host, cfg, req, id, now, iso);
}

/// Restoring puts back what the version held: the file has the bytes that are
/// kept for it, the version belongs to the document, and no other file changes.
/// What comes back has that content too, and nothing of history is lost.
pub proof fn law_restoring_writes_the_version(
    prior: Store,
    later: Store,
    old_disk: Disk,
    new_disk: Disk,
    cfg: Config,
    at: ResolvedModel,
    version_id: Seq<char>,
    o: RecordOutcome,
) -> (k: int)
    requires
        version_restored(prior, later, old_disk, new_disk, cfg, at, version_id, Ok(o)),
        addressed(prior.blobs@),
    ensures
        ({
            let s = snapshot_models(prior.snapshots@);
            &&& 0 <= k < s.len()
            &&& s[k].id == version_id
            &&& same_path(s[k].path, at.path, prior.host.drives)
            &&& prior.blobs@.dom().contains(s[k].blob_hash)
            &&& new_disk@.dom().contains(at.path)
            &&& new_disk@[at.path].bytes == prior.blobs@[s[k].blob_hash]
            &&& forall|path: Seq<char>|
                path != at.path ==> (#[trigger] new_disk@.dom().contains(path)
                    <==> old_disk@.dom().contains(path)) && (old_disk@.dom().contains(path)
                    ==> new_disk@[path] == old_disk@[path])
            &&& o.snapshot@.blob_hash == s[k].blob_hash
            &&& s.is_prefix_of(snapshot_models(later.snapshots@))
        }),
{
    let was = snapshot_models(prior.snapshots@);
    let host = prior.host@;
    let k = place_of(snapshot_ids(was), version_id);
    crate::table::lemma_place_facts(snapshot_ids(was), version_id);
    assert(restore_refusal(was, prior.blobs@, host, at, version_id) is None);
    let target = was[k];
    assert(snapshot_ids(was)[k] == version_id);
    let content = prior.blobs@[target.blob_hash];
    let (id, now, iso) = choose|
        id: std::result::Result<Seq<char>, ErrorModel>,
        now: i64,
        iso: Seq<char>,
    |
        ({
            let want = #[trigger] record_result(
                was,
                prior.blobs@,
                host,
                cfg,
                restore_request(target, content, at, now),
                id,
                now,
                iso,
            );
            &&& fresh_or_none(was, id)
            &&& dated(now, iso)
            &&& new_disk@ == disk_after(old_disk@, at.path, content, now, want.2)
            &&& snapshot_models(later.snapshots@) == want.0
            &&& later.blobs@ == want.1
            &&& records_as(Ok(o), want.2)
        });
    let req = restore_request(target, content, at, now);
    super::history::law_newest(was, at.path, host.drives);
    lemma_in_window(was, at.path, address_of(content), window_of(now, cfg) as i64, host.drives);
    law_history_only_grows(was, prior.blobs@, host, cfg, req, id, now, iso);
    k
}

} // verus!
