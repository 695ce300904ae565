//! Recording versions.

use super::history::{latest_place, newest, snapshot_ids};
use super::types::{author_for, snapshot_models, Snapshot, SnapshotModel, Source};
use crate::comment::threads::{dated, no_id};
use crate::config::Config;
use crate::corpus::types::{Resolved, ResolvedModel};
use crate::corpus::typing::{detect_type, is_markdown_path, markdown_path, type_of};
use crate::corpus::ArtifactType;
use crate::error::{Error, ErrorModel, Result};
use crate::store::blobs::{address_of, addressed, with_blob};
use crate::store::{crowded, is_id, Store};
use crate::text::{
    among, decimal, decimal_of, opt_str_view, own, push_text, same_str, text_from, text_in, views,
};
use crate::util::{
    display_of, display_path, divide, key_eq, ms_to_rfc3339, now_ms, quotient, same_key, sha256_hex,
    HostModel,
};
use vstd::prelude::*;

verus! {

/// What is to be recorded.
pub struct RecordRequest<'a> {
    pub resolved: &'a Resolved,
    pub content: &'a [u8],
    pub source: Source,
    pub author: Option<&'a str>,
    pub client: Option<&'a str>,
    pub message: Option<&'a str>,
    pub mtime: Option<i64>,
}

/// What came of recording.
#[derive(Debug)]
pub struct RecordOutcome {
    pub snapshot: Snapshot,
    /// False when the content was identical to the latest version, so nothing
    /// new was written. Saving twice with no change creates no new version.
    pub created: bool,
}

/// What a request asks for.
pub struct RequestModel {
    pub resolved: ResolvedModel,
    pub content: Seq<u8>,
    pub source: Source,
    pub author: Option<Seq<char>>,
    pub client: Option<Seq<char>>,
    pub message: Option<Seq<char>>,
    pub mtime: Option<i64>,
}

impl<'a> View for RecordRequest<'a> {
    type V = RequestModel;

    open spec fn view(&self) -> RequestModel {
        RequestModel {
            resolved: self.resolved@,
            content: self.content@,
            source: self.source,
            author: opt_str_view(self.author),
            client: opt_str_view(self.client),
            message: opt_str_view(self.message),
            mtime: self.mtime,
        }
    }
}

/// What a caller is told whose content is too large.
pub open spec fn oversize(shown: Seq<char>, len: nat, max: nat) -> ErrorModel {
    ErrorModel::TooLarge(
        shown + " is "@ + decimal_of(len) + " bytes; the per-file limit is "@ + decimal_of(max),
    )
}

/// The type of a document with this content.
pub open spec fn recorded_type(at: ResolvedModel, content: Seq<u8>) -> ArtifactType {
    if markdown_path(at.path) {
        type_of(at.path, text_in(content), at.dirs)
    } else {
        ArtifactType::Asset
    }
}

/// The window of time that a moment falls into.
pub open spec fn window_of(now: i64, cfg: Config) -> int {
    quotient(
        now as int,
        if cfg.coalesce_ms >= 1 {
            cfg.coalesce_ms as int
        } else {
            1
        },
    )
}

/// A version as it is kept.
pub open spec fn new_snapshot(
    req: RequestModel,
    cfg: Config,
    host: HostModel,
    id: Seq<char>,
    now: i64,
    iso: Seq<char>,
) -> SnapshotModel {
    SnapshotModel {
        id: id,
        root_id: req.resolved.root.id,
        path: req.resolved.path,
        display: display_of(req.resolved.path, host),
        blob_hash: address_of(req.content),
        size: req.content.len() as i64,
        mtime: req.mtime,
        source: req.source,
        author: match req.author {
            Some(a) => a,
            None => author_for(req.source),
        },
        client: req.client,
        message: req.message,
        artifact_type: recorded_type(req.resolved, req.content),
        created_at: now,
        created_at_iso: iso,
        size_delta: None,
        coalesce_window: window_of(now, cfg) as i64,
    }
}

/// Is it this content of this document, recorded in this window?
pub open spec fn same_window(
    s: SnapshotModel,
    path: Seq<char>,
    hash: Seq<char>,
    window: i64,
    any_case: bool,
) -> bool {
    same_key(s.path, path, any_case) && s.blob_hash == hash && s.coalesce_window == window
}

/// Has a watcher already recorded this content in this window?
pub open spec fn seen_outside(
    s: Seq<SnapshotModel>,
    path: Seq<char>,
    hash: Seq<char>,
    window: i64,
    any_case: bool,
) -> bool {
    exists|i: int|
        0 <= i < s.len() && same_window(
            #[trigger] s[i],
            path,
            hash,
            window,
            any_case,
        ) && s[i].source
            == Source::External
}

/// The place of the newest version with this content in this window.
pub open spec fn newest_in_window(
    s: Seq<SnapshotModel>,
    path: Seq<char>,
    hash: Seq<char>,
    window: i64,
    any_case: bool,
) -> Option<int>
    decreases s.len(),
{
    if s.len() == 0 {
        None
    } else {
        let before = newest_in_window(s.drop_last(), path, hash, window, any_case);
        if !same_window(s.last(), path, hash, window, any_case) {
            before
        } else {
            match before {
                Some(i) => if s[i].created_at <= s.last().created_at {
                    Some(s.len() - 1)
                } else {
                    Some(i)
                },
                None => Some(s.len() - 1),
            }
        }
    }
}

/// The version that stands for the content already, so that none is added: the
/// newest one where it has this content, unless a checkpoint is asked for.
pub open spec fn unchanged(
    s: Seq<SnapshotModel>,
    req: RequestModel,
    any_case: bool,
) -> Option<int> {
    if req.source == Source::Checkpoint {
        None
    } else {
        match newest(s, req.resolved.path, any_case) {
            Some(i) if s[i].blob_hash == address_of(req.content) => Some(i),
            _ => None,
        }
    }
}

/// The version that another watcher has recorded for the same content in the
/// same window.
pub open spec fn coalesced(
    s: Seq<SnapshotModel>,
    req: RequestModel,
    window: i64,
    any_case: bool,
) -> Option<int> {
    let hash = address_of(req.content);
    if req.source == Source::External && seen_outside(
        s,
        req.resolved.path,
        hash,
        window,
        any_case,
    ) {
        newest_in_window(s, req.resolved.path, hash, window, any_case)
    } else {
        None
    }
}

/// Does every version's content lie in the blobs?
pub open spec fn backed(s: Seq<SnapshotModel>, blobs: Map<Seq<char>, Seq<u8>>) -> bool {
    forall|i: int| 0 <= i < s.len() ==> blobs.dom().contains((#[trigger] s[i]).blob_hash)
}

/// How a store and its answer look after recording a request at a time, under
/// an identifier if one could be found.
pub open spec fn record_result(
    was: Seq<SnapshotModel>,
    blobs: Map<Seq<char>, Seq<u8>>,
    host: HostModel,
    cfg: Config,
    req: RequestModel,
    id: std::result::Result<Seq<char>, ErrorModel>,
    now: i64,
    iso: Seq<char>,
) -> (
    Seq<SnapshotModel>,
    Map<Seq<char>, Seq<u8>>,
    std::result::Result<(SnapshotModel, bool), ErrorModel>,
) {
    if req.content.len() > cfg.max_blob_bytes {
        (
            was,
            blobs,
            Err(
                oversize(
                    display_of(req.resolved.path, host),
                    req.content.len(),
                    cfg.max_blob_bytes as nat,
                ),
            ),
        )
    } else {
        match unchanged(was, req, host.drives) {
            Some(i) => (was, blobs, Ok((was[i], false))),
            None => {
                let kept = with_blob(blobs, req.content);
                match id {
                    Err(e) => (was, kept, Err(e)),
                    Ok(name) => match coalesced(was, req, window_of(now, cfg) as i64, host.drives) {
                        Some(i) => (was, kept, Ok((was[i], false))),
                        None => {
                            let s = new_snapshot(req, cfg, host, name, now, iso);
                            (was.push(s), kept, Ok((s, true)))
                        },
                    },
                }
            },
        }
    }
}

/// An executable outcome against a stated one.
pub open spec fn records_as(
    out: Result<RecordOutcome>,
    want: std::result::Result<(SnapshotModel, bool), ErrorModel>,
) -> bool {
    match out {
        Ok(o) => want == Ok::<(SnapshotModel, bool), ErrorModel>((o.snapshot@, o.created)),
        Err(e) => want == Err::<(SnapshotModel, bool), ErrorModel>(e@),
    }
}

/// An identifier, if one could be found, as a model.
pub open spec fn id_view(id: Result<String>) -> std::result::Result<Seq<char>, ErrorModel> {
    match id {
        Ok(name) => Ok(name@),
        Err(e) => Err(e@),
    }
}

fn find_in_window(
    snapshots: &[Snapshot],
    path: &str,
    hash: &str,
    window: i64,
    any_case: bool,
) -> (out: (
    bool,
    Option<usize>,
))
    ensures
        ({
            let all = snapshot_models(snapshots@);
            &&& out.0 == seen_outside(all, path@, hash@, window, any_case)
            &&& match out.1 {
                Some(i) => i < snapshots@.len() && newest_in_window(
                    all,
                    path@,
                    hash@,
                    window,
                    any_case,
                )
                    == Some(i as int),
                None => newest_in_window(all, path@, hash@, window, any_case) is None,
            }
            &&& out.0 ==> out.1 is Some
        }),
{
    let ghost all = snapshot_models(snapshots@);
    let mut outside = false;
    let mut best: Option<usize> = None;
    let mut i: usize = 0;
    assert(newest_in_window(all.take(0), path@, hash@, window, any_case) is None);
    while i < snapshots.len()
        invariant
            i <= snapshots@.len(),
            all == snapshot_models(snapshots@),
            outside == (exists|k: int|
                0 <= k < i && same_window(
                    #[trigger] all[k],
                    path@,
                    hash@,
                    window,
                    any_case,
                ) && all[k].source
                    == Source::External),
            outside ==> best is Some,
            match best {
                Some(b) => b < i && newest_in_window(
                    all.take(i as int),
                    path@,
                    hash@,
                    window,
                    any_case,
                )
                    == Some(b as int),
                None => newest_in_window(
                    all.take(i as int),
                    path@,
                    hash@,
                    window,
                    any_case,
                ) is None,
            },
        decreases snapshots@.len() - i,
    {
        assert(all.take(i + 1).drop_last() =~= all.take(i as int));
        assert(all.take(i + 1).last() == all[i as int]);
        let s = &snapshots[i];
        if key_eq(s.path.as_str(), path, any_case) && same_str(s.blob_hash.as_str(), hash)
            && s.coalesce_window == window {
            assert(same_window(all[i as int], path@, hash@, window, any_case));
            if s.source == Source::External {
                outside = true;
            }
            let newer = match best {
                Some(b) => {
                    assert(all.take(i + 1)[b as int] == all[b as int]);
                    snapshots[b].created_at <= s.created_at
                },
                None => true,
            };
            if newer {
                best = Some(i);
            }
        }
        i += 1;
    }
    assert(all.take(i as int) =~= all);
    (outside, best)
}

fn too_large(shown: &str, len: usize, max: u64) -> (out: Error)
    ensures
        out@ == oversize(shown@, len as nat, max as nat),
{
    let mut m = shown.to_owned();
    m.append(" is ");
    m.append(decimal(len as u64).as_str());
    m.append(" bytes; the per-file limit is ");
    m.append(decimal(max).as_str());
    Error::TooLarge(m)
}

/// Records a version as of a moment, under an identifier if one could be found.
///
/// Deduplication is the load-bearing behaviour here: if the newest version of
/// this path already has this content, nothing is added and the existing one
/// is returned. That single rule makes re-saving free and makes a headless
/// bridge and the GUI watching the same root harmless. Checkpoints are the one
/// exception: a milestone marker on unchanged content is exactly what the user
/// asked for.
pub fn record_at(
    store: &mut Store,
    cfg: &Config,
    req: &RecordRequest<'_>,
    id: Result<String>,
    now: i64,
    iso: &str,
) -> (out: Result<RecordOutcome>)
    ensures
        ({
            let was = snapshot_models(old(store).snapshots@);
            let is = snapshot_models(final(store).snapshots@);
            let want = record_result(
                was,
                old(store).blobs@,
                old(store).host@,
                *cfg,
                req@,
                id_view(id),
                now,
                iso@,
            );
            &&& is == want.0
            &&& final(store).blobs@ == want.1
            &&& records_as(out, want.2)
            &&& backed(was, old(store).blobs@) ==> backed(is, final(store).blobs@)
            &&& addressed(old(store).blobs@) ==> addressed(final(store).blobs@)
        }),
        *final(store) == (Store {
            snapshots: final(store).snapshots,
            blobs: final(store).blobs,
            ..*old(store)
        }),
{
    let len: usize = req.content.len();
    let path = req.resolved.path.as_str();
    if len as u64 > cfg.max_blob_bytes {
        let shown = display_path(path, &store.host);
        return Err(too_large(shown.as_str(), len, cfg.max_blob_bytes));
    }
    let hash = sha256_hex(req.content);
    if req.source != Source::Checkpoint {
        if let Some(i) = latest_place(&store.snapshots, path, store.host.drives) {
            if same_str(store.snapshots[i].blob_hash.as_str(), hash.as_str()) {
                return Ok(
                    RecordOutcome { snapshot: store.snapshots[i].copy(), created: false },
                );
            }
        }
    }
    // Blob before index: a hard kill can leave an unreferenced blob, never an
    // index row pointing at content that is not there.
    let _ = store.blobs.put(req.content);
    let artifact_type = if is_markdown_path(path) {
        let text = text_from(req.content);
        detect_type(path, text.as_str(), &req.resolved.dirs)
    } else {
        ArtifactType::Asset
    };
    let unit: i64 = if cfg.coalesce_ms >= 1 {
        cfg.coalesce_ms
    } else {
        1
    };
    let window: i64 = divide(now, unit);
    let author = match req.author {
        Some(a) => a.to_owned(),
        None => req.source.default_author().to_owned(),
    };
    let name = match id {
        Ok(name) => name,
        Err(e) => {
            return Err(e);
        },
    };
    if req.source == Source::External {
        let (outside, twin) = find_in_window(
            &store.snapshots,
            path,
            hash.as_str(),
            window,
            store.host.drives,
        );
        if outside {
            if let Some(i) = twin {
                return Ok(
                    RecordOutcome { snapshot: store.snapshots[i].copy(), created: false },
                );
            }
        }
    }
    let s = Snapshot {
        id: name,
        root_id: req.resolved.root.id.clone(),
        path: req.resolved.path.clone(),
        display: display_path(path, &store.host),
        blob_hash: hash,
        size: len as i64,
        mtime: req.mtime,
        source: req.source,
        author: author,
        client: own(req.client),
        message: own(req.message),
        artifact_type: artifact_type,
        created_at: now,
        created_at_iso: iso.to_owned(),
        size_delta: None,
        coalesce_window: window,
    };
    let given = s.copy();
    let ghost was = snapshot_models(store.snapshots@);
    store.snapshots.push(s);
    assert(snapshot_models(store.snapshots@) =~= was.push(given@));
    Ok(RecordOutcome { snapshot: given, created: true })
}

fn ids_of(snapshots: &[Snapshot]) -> (out: Vec<String>)
    ensures
        views(out@) == snapshot_ids(snapshot_models(snapshots@)),
{
    let mut out: Vec<String> = Vec::new();
    let ghost ids = snapshot_ids(snapshot_models(snapshots@));
    let mut i: usize = 0;
    while i < snapshots.len()
        invariant
            i <= snapshots@.len(),
            ids == snapshot_ids(snapshot_models(snapshots@)),
            views(out@) == ids.take(i as int),
        decreases snapshots@.len() - i,
    {
        push_text(&mut out, snapshots[i].id.clone());
        assert(ids.take(i + 1) =~= ids.take(i as int).push(ids[i as int]));
        i += 1;
    }
    assert(ids.take(i as int) =~= ids);
    out
}

/// An identifier for a new version, if one can be found.
pub fn fresh_id(store: &Store) -> (out: Result<String>)
    ensures
        match out {
            Ok(id) => is_id(id@, "snap"@) && !among(
                snapshot_ids(snapshot_models(store.snapshots@)),
                id@,
            ),
            Err(e) => crowded(snapshot_ids(snapshot_models(store.snapshots@)), "snap"@) && e@
                == no_id("snap"@),
        },
{
    Store::alloc_id(&ids_of(&store.snapshots), "snap")
}

/// May an identifier that was asked for have come back as `id`?
pub open spec fn fresh_or_none(
    s: Seq<SnapshotModel>,
    id: std::result::Result<Seq<char>, ErrorModel>,
) -> bool {
    match id {
        Ok(name) => is_id(name, "snap"@) && !among(snapshot_ids(s), name),
        Err(e) => crowded(snapshot_ids(s), "snap"@) && e == no_id("snap"@),
    }
}

/// Records a version now.
pub fn record(store: &mut Store, cfg: &Config, req: &RecordRequest<'_>) -> (out: Result<
    RecordOutcome,
>)
    ensures
        exists|id: std::result::Result<Seq<char>, ErrorModel>, now: i64, iso: Seq<char>|
            ({
                let want = #[trigger] record_result(
                    snapshot_models(old(store).snapshots@),
                    old(store).blobs@,
                    old(store).host@,
                    *cfg,
                    req@,
                    id,
                    now,
                    iso,
                );
                &&& fresh_or_none(snapshot_models(old(store).snapshots@), id)
                &&& dated(now, iso)
                &&& snapshot_models(final(store).snapshots@) == want.0
                &&& final(store).blobs@ == want.1
                &&& records_as(out, want.2)
            }),
        backed(snapshot_models(old(store).snapshots@), old(store).blobs@) ==> backed(
            snapshot_models(final(store).snapshots@),
            final(store).blobs@,
        ),
        addressed(old(store).blobs@) ==> addressed(final(store).blobs@),
        *final(store) == (Store {
            snapshots: final(store).snapshots,
            blobs: final(store).blobs,
            ..*old(store)
        }),
{
    let id = fresh_id(store);
    let now = now_ms();
    let iso = ms_to_rfc3339(now);
    let ghost name = id_view(id);
    let ghost was = snapshot_models(store.snapshots@);
    assert(fresh_or_none(was, name));
    record_at(store, cfg, req, id, now, iso.as_str())
}

} // verus!
