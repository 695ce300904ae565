//! Reading one document, and the ways to change it.

use super::docs::{current_text, read_current};
use super::params::{missing, missing_count, required, required_count};
use super::request::Caller;
use crate::artifact::frontmatter::{self, frontmatter_of, Frontmatter};
use crate::comment::anchor::selection_of;
use crate::comment::threads::{dated, thread_opened};
use crate::comment::types::Comment;
use crate::config::Config;
use crate::corpus::roots::{effective_policy, policy_for};
use crate::corpus::types::{path_policy_models, Resolved, ResolvedModel};
use crate::corpus::typing::{detect_type, type_of};
use crate::corpus::{ArtifactType, Policy};
use crate::disk::{appended, Disk, FileModel};
use crate::error::{Error, ErrorModel, Result};
use crate::proposal::create::{
    newest_id, proposal_id_or_none, writes, Change, ChangeModel, CreateModel, CreateRequest,
    WriteOutcome,
};
use crate::proposal::types::proposal_models;
use crate::store::blobs::{address_of, blob_text};
use crate::store::Store;
use crate::text::{opt_str_view, opt_view, text_in};
use crate::util::{display_of, display_path, ms_to_rfc3339, now_ms};
use crate::version::history::{latest, newest, version_count, versions_back};
use crate::version::record::{
    fresh_id, fresh_or_none, id_view, record_at, record_result, records_as, RecordOutcome,
    RecordRequest,
};
use crate::version::restore::{disk_after, request_of, write_and_record_at};
use crate::version::types::{snapshot_models, Source, AUTHOR_YOU};
use vstd::prelude::*;
use vstd::utf8::encode_utf8;

verus! {

// ---------------------------------------------------------------------------
// Reading
// ---------------------------------------------------------------------------

/// A document as a reader gets it.
#[derive(Debug)]
pub struct DocView {
    pub path: String,
    pub display: String,
    pub content: String,
    pub frontmatter: Frontmatter,
    pub artifact_type: ArtifactType,
    /// The newest version.
    pub version: Option<String>,
    pub versions: usize,
    pub policy: Policy,
    pub exists: bool,
}

/// Is this the document with this text?
pub open spec fn is_view(
    v: DocView,
    store: Store,
    disk: Map<Seq<char>, FileModel>,
    at: ResolvedModel,
    text: Seq<char>,
) -> bool {
    let s = snapshot_models(store.snapshots@);
    let ty = type_of(at.path, text, at.dirs);
    &&& v.path@ == at.path
    &&& v.display@ == display_of(at.path, store.host@)
    &&& v.content@ == text
    &&& v.frontmatter@ == frontmatter_of(text)
    &&& v.artifact_type == ty
    &&& opt_view(v.version) == newest_id(s, at.path, store.host.drives)
    &&& v.versions == versions_back(s, at.path, store.host.drives).len()
    &&& v.policy == effective_policy(
        path_policy_models(store.path_policies@),
        at,
        ty,
        store.host.drives,
    )
    &&& v.exists == disk.dom().contains(at.path)
}

/// Is this how a document is read?
pub open spec fn doc_read(
    store: Store,
    disk: Disk,
    cfg: Config,
    at: ResolvedModel,
    out: Result<DocView>,
) -> bool {
    &&& match (out, current_text(store, disk@, cfg, at.path)) {
            (Ok(v), Ok(text)) => is_view(v, store, disk@, at, text),
            (Err(e), Err(why)) => e@ == why,
            _ => false,
        }
}

/// Reads a document.
pub fn read_doc(store: &Store, disk: &Disk, cfg: &Config, resolved: &Resolved) -> (out: Result<
    DocView,
>)
    ensures
        doc_read(
            *store,
            *disk,
            *cfg,
            resolved@,
            out,
        ),
{
    let content = match read_current(store, disk, cfg, resolved) {
        Ok(text) => text,
        Err(e) => {
            return Err(e);
        },
    };
    let path = resolved.path.as_str();
    let fm = frontmatter::parse(content.as_str());
    let ty = detect_type(path, content.as_str(), &resolved.dirs);
    let version = match latest(store, path) {
        Some(s) => Some(s.id),
        None => None,
    };
    let policy = policy_for(store, resolved, ty);
    Ok(
        DocView {
            path: resolved.path.clone(),
            display: display_path(path, &store.host),
            content: content,
            frontmatter: fm,
            artifact_type: ty,
            version: version,
            versions: version_count(store, path),
            policy: policy,
            exists: disk.find(path).is_some(),
        },
    )
}

// ---------------------------------------------------------------------------
// Saving
// ---------------------------------------------------------------------------

/// Is this how the human user's text is put on disk and recorded?
pub open spec fn saves(
    was: Store,
    is: Store,
    before: Map<Seq<char>, FileModel>,
    after: Map<Seq<char>, FileModel>,
    cfg: Config,
    at: ResolvedModel,
    text: Seq<char>,
    message: Option<Seq<char>>,
    id: std::result::Result<Seq<char>, ErrorModel>,
    now: i64,
    iso: Seq<char>,
    out: Result<RecordOutcome>,
) -> bool {
    let bytes = encode_utf8(text);
    let want = record_result(
        snapshot_models(was.snapshots@),
        was.blobs@,
        was.host@,
        cfg,
        request_of(at, bytes, Source::Save, Some("you"@), None, message, Some(now)),
        id,
        now,
        iso,
    );
    &&& after == disk_after(before, at.path, bytes, now, want.2)
    &&& snapshot_models(is.snapshots@) == want.0
    &&& is.blobs@ == want.1
    &&& records_as(out, want.2)
}

/// Is this how the editor saves?
pub open spec fn doc_saved(
    prior: Store,
    later: Store,
    old_disk: Disk,
    new_disk: Disk,
    cfg: Config,
    at: ResolvedModel,
    content: Seq<char>,
    message: Option<Seq<char>>,
    out: Result<RecordOutcome>,
) -> bool {
    &&& exists|id: std::result::Result<Seq<char>, ErrorModel>, now: i64, iso: Seq<char>|
            fresh_or_none(snapshot_models(prior.snapshots@), id) && dated(now, iso)
                && #[trigger] saves(
                prior,
                later,
                old_disk@,
                new_disk@,
                cfg,
                at,
                content,
                message,
                id,
                now,
                iso,
                out,
            )
    &&& later == (Store {
        snapshots: later.snapshots,
        blobs: later.blobs,
        ..prior
    })
}

/// Saves from the editor. Human edits never become proposals: the queue is for
/// agents, not for you.
pub fn save_doc(
    store: &mut Store,
    disk: &mut Disk,
    cfg: &Config,
    resolved: &Resolved,
    content: &str,
    message: Option<&str>,
) -> (out: Result<RecordOutcome>)
    ensures
        appended(*old(disk), *final(disk)),
        doc_saved(
            *old(store),
            *final(store),
            *old(disk),
            *final(disk),
            *cfg,
            resolved@,
            content@,
            opt_str_view(message),
            out,
        ),
{
    let id = fresh_id(store);
    let now = now_ms();
    let iso = ms_to_rfc3339(now);
    let ghost name = id_view(id);
    let ghost before = disk@;
    assert(fresh_or_none(snapshot_models(store.snapshots@), name));
    let out = write_and_record_at(
        store,
        disk,
        cfg,
        resolved,
        content,
        Source::Save,
        Some(AUTHOR_YOU),
        None,
        message,
        id,
        now,
        iso.as_str(),
    );
    assert(saves(
        *old(store),
        *store,
        before,
        disk@,
        *cfg,
        resolved@,
        content@,
        opt_str_view(message),
        name,
        now,
        iso@,
        out,
    ));
    out
}

/// What keeps a document from being made, if anything does.
pub open spec fn taken(
    store: Store,
    disk: Map<Seq<char>, FileModel>,
    path: Seq<char>,
) -> Option<ErrorModel> {
    if disk.dom().contains(path) {
        Some(
            ErrorModel::Invalid(
                display_of(path, store.host@) + " already exists"@,
            ),
        )
    } else {
        None
    }
}

/// A text that may be left out, else the empty one.
pub open spec fn text_or_empty(text: Option<Seq<char>>) -> Seq<char> {
    match text {
        Some(t) => t,
        None => ""@,
    }
}

/// Is this how a document is made?
pub open spec fn doc_created(
    prior: Store,
    later: Store,
    old_disk: Disk,
    new_disk: Disk,
    cfg: Config,
    at: ResolvedModel,
    content: Option<Seq<char>>,
    out: Result<RecordOutcome>,
) -> bool {
    &&& match taken(prior, old_disk@, at.path) {
            Some(why) => out matches Err(e) && e@ == why && later == prior
                && new_disk == old_disk,
            None => exists|
                id: std::result::Result<Seq<char>, ErrorModel>,
                now: i64,
                iso: Seq<char>,
            |
                fresh_or_none(snapshot_models(prior.snapshots@), id) && dated(now, iso)
                    && #[trigger] saves(
                    prior,
                    later,
                    old_disk@,
                    new_disk@,
                    cfg,
                    at,
                    text_or_empty(content),
                    Some("created"@),
                    id,
                    now,
                    iso,
                    out,
                ),
        }
    &&& later == (Store {
        snapshots: later.snapshots,
        blobs: later.blobs,
        ..prior
    })
}

/// Makes a new document.
pub fn create_doc(
    store: &mut Store,
    disk: &mut Disk,
    cfg: &Config,
    resolved: &Resolved,
    content: Option<&str>,
) -> (out: Result<RecordOutcome>)
    ensures
        appended(*old(disk), *final(disk)),
        doc_created(
            *old(store),
            *final(store),
            *old(disk),
            *final(disk),
            *cfg,
            resolved@,
            opt_str_view(content),
            out,
        ),
{
    if disk.find(resolved.path.as_str()).is_some() {
        let mut m = display_path(resolved.path.as_str(), &store.host);
        m.append(" already exists");
        return Err(Error::Invalid(m));
    }
    let text = match content {
        Some(t) => t,
        None => "",
    };
    assert(text@ == text_or_empty(opt_str_view(content)));
    assert(opt_str_view(Some("created")) == Some("created"@));
    save_doc(store, disk, cfg, resolved, text, Some("created"))
}

/// Is this how a milestone is recorded?
pub open spec fn marks(
    was: Store,
    is: Store,
    cfg: Config,
    caller: Caller,
    at: ResolvedModel,
    text: Seq<char>,
    message: Seq<char>,
    id: std::result::Result<Seq<char>, ErrorModel>,
    now: i64,
    iso: Seq<char>,
    out: Result<RecordOutcome>,
) -> bool {
    let want = record_result(
        snapshot_models(was.snapshots@),
        was.blobs@,
        was.host@,
        cfg,
        request_of(
            at,
            encode_utf8(text),
            Source::Checkpoint,
            Some(caller.author@),
            if caller.is_human {
                None
            } else {
                Some(caller.client@)
            },
            Some(message),
            None,
        ),
        id,
        now,
        iso,
    );
    &&& snapshot_models(is.snapshots@) == want.0
    &&& is.blobs@ == want.1
    &&& records_as(out, want.2)
}

/// What keeps a milestone from being recorded, if anything does.
pub open spec fn checkpoint_refusal(
    current: std::result::Result<Seq<char>, ErrorModel>,
    message: Option<Seq<char>>,
) -> Option<ErrorModel> {
    match current {
        Err(why) => Some(why),
        Ok(_) => if message is None {
            Some(missing("message"@))
        } else {
            None
        },
    }
}

/// Is this how a milestone of a document is recorded?
pub open spec fn checkpoint_made(
    prior: Store,
    later: Store,
    disk: Disk,
    cfg: Config,
    caller: Caller,
    at: ResolvedModel,
    message: Option<Seq<char>>,
    out: Result<RecordOutcome>,
) -> bool {
    &&& ({
        let current = current_text(prior, disk@, cfg, at.path);
        match checkpoint_refusal(current, message) {
            Some(why) => out matches Err(e) && e@ == why && later == prior,
            None => exists|
                id: std::result::Result<Seq<char>, ErrorModel>,
                now: i64,
                iso: Seq<char>,
            |
                fresh_or_none(snapshot_models(prior.snapshots@), id) && dated(now, iso)
                    && #[trigger] marks(
                    prior,
                    later,
                    cfg,
                    caller,
                    at,
                    current->Ok_0,
                    message->Some_0,
                    id,
                    now,
                    iso,
                    out,
                ),
        }
    })
    &&& later == (Store {
        snapshots: later.snapshots,
        blobs: later.blobs,
        ..prior
    })
}

/// Records a milestone of a document as it is.
pub fn checkpoint(
    store: &mut Store,
    disk: &Disk,
    cfg: &Config,
    caller: &Caller,
    resolved: &Resolved,
    message: Option<String>,
) -> (out: Result<RecordOutcome>)
    ensures
        checkpoint_made(
            *old(store),
            *final(store),
            *disk,
            *cfg,
            *caller,
            resolved@,
            opt_view(message),
            out,
        ),
{
    let content = match read_current(store, disk, cfg, resolved) {
        Ok(text) => text,
        Err(e) => {
            return Err(e);
        },
    };
    let ghost said = opt_view(message);
    let ghost current = current_text(*store, disk@, *cfg, resolved@.path);
    let note = match required(message, "message") {
        Ok(m) => m,
        Err(e) => {
            return Err(e);
        },
    };
    let id = fresh_id(store);
    let now = now_ms();
    let iso = ms_to_rfc3339(now);
    let ghost name = id_view(id);
    assert(fresh_or_none(snapshot_models(store.snapshots@), name));
    let client = if caller.is_human {
        None
    } else {
        Some(caller.client.as_str())
    };
    let out = record_at(
        store,
        cfg,
        &RecordRequest {
            resolved: resolved,
            content: content.as_str().as_bytes(),
            source: Source::Checkpoint,
            author: Some(caller.author.as_str()),
            client: client,
            message: Some(note.as_str()),
            mtime: None,
        },
        id,
        now,
        iso.as_str(),
    );
    assert(marks(
        *old(store),
        *store,
        *cfg,
        *caller,
        resolved@,
        current->Ok_0,
        said->Some_0,
        name,
        now,
        iso@,
        out,
    ));
    out
}

// ---------------------------------------------------------------------------
// Proposing
// ---------------------------------------------------------------------------

/// The change that an agent asks for: a whole text, or a patch.
pub open spec fn change_of(
    content: Option<Seq<char>>,
    patch: Option<Seq<char>>,
) -> std::result::Result<
    ChangeModel,
    ErrorModel,
> {
    match (content, patch) {
        (Some(c), None) => Ok(ChangeModel::Content(c)),
        (None, Some(p)) => Ok(ChangeModel::Patch(p)),
        (Some(_), Some(_)) => Err(
            ErrorModel::Invalid("pass either `content` or `patch`, not both"@),
        ),
        (None, None) => Err(ErrorModel::Invalid("pass either `content` or `patch`"@)),
    }
}

/// What an agent asks for, as a request to write.
pub open spec fn edit_model(
    at: ResolvedModel,
    change: ChangeModel,
    caller: Caller,
    base_version: Option<Seq<char>>,
    intent: Option<Seq<char>>,
    addressing: Option<Seq<char>>,
) -> CreateModel {
    CreateModel {
        resolved: at,
        change: change,
        base_version: base_version,
        author: caller.author@,
        client: caller.client@,
        message: intent,
        addressing: addressing,
    }
}

/// Is this how an agent's edit is taken?
pub open spec fn edit_proposed(
    prior: Store,
    later: Store,
    old_disk: Disk,
    new_disk: Disk,
    cfg: Config,
    caller: Caller,
    at: ResolvedModel,
    content: Option<Seq<char>>,
    patch: Option<Seq<char>>,
    base_version: Option<Seq<char>>,
    intent: Option<Seq<char>>,
    addressing: Option<Seq<char>>,
    out: Result<WriteOutcome>,
) -> bool {
    &&& match change_of(content, patch) {
            Err(why) => out matches Err(e) && e@ == why && later == prior
                && new_disk == old_disk,
            Ok(change) => exists|
                snapshot_id: std::result::Result<Seq<char>, ErrorModel>,
                proposal_id: std::result::Result<Seq<char>, ErrorModel>,
                now: i64,
                iso: Seq<char>,
            |
                fresh_or_none(snapshot_models(prior.snapshots@), snapshot_id)
                    && proposal_id_or_none(proposal_models(prior.proposals@), proposal_id)
                    && dated(now, iso) && #[trigger] writes(
                    prior,
                    later,
                    old_disk@,
                    new_disk@,
                    cfg,
                    edit_model(
                        at,
                        change,
                        caller,
                        base_version,
                        intent,
                        addressing,
                    ),
                    snapshot_id,
                    proposal_id,
                    now,
                    iso,
                    out,
                ),
        }
    &&& later == (Store {
        snapshots: later.snapshots,
        proposals: later.proposals,
        comments: later.comments,
        blobs: later.blobs,
        ..prior
    })
}

/// An agent's edit: queued for review, or written, as the policy has it.
pub fn propose_edit(
    store: &mut Store,
    disk: &mut Disk,
    cfg: &Config,
    caller: &Caller,
    resolved: &Resolved,
    content: Option<&str>,
    patch: Option<&str>,
    base_version: Option<&str>,
    intent: Option<&str>,
    addressing: Option<&str>,
) -> (out: Result<WriteOutcome>)
    ensures
        appended(*old(disk), *final(disk)),
        edit_proposed(
            *old(store),
            *final(store),
            *old(disk),
            *final(disk),
            *cfg,
            *caller,
            resolved@,
            opt_str_view(content),
            opt_str_view(patch),
            opt_str_view(base_version),
            opt_str_view(intent),
            opt_str_view(addressing),
            out,
        ),
{
    let change = match content {
        Some(c) => match patch {
            None => Change::Content(c),
            Some(_) => {
                return Err(
                    Error::Invalid("pass either `content` or `patch`, not both".to_owned()),
                );
            },
        },
        None => match patch {
            Some(p) => Change::Patch(p),
            None => {
                return Err(Error::Invalid("pass either `content` or `patch`".to_owned()));
            },
        },
    };
    crate::proposal::create::write(
        store,
        disk,
        cfg,
        &CreateRequest {
            resolved: resolved,
            change: change,
            base_version: base_version,
            author: caller.author.as_str(),
            client: caller.client.as_str(),
            message: intent,
            addressing: addressing,
        },
    )
}

// ---------------------------------------------------------------------------
// Commenting
// ---------------------------------------------------------------------------

/// What keeps a thread from being opened before its body and its selection are
/// looked at.
pub open spec fn comment_refusal(
    current: std::result::Result<Seq<char>, ErrorModel>,
    start: Option<usize>,
    end: Option<usize>,
    body: Option<Seq<char>>,
) -> Option<ErrorModel> {
    match current {
        Err(why) => Some(why),
        Ok(_) => if start is None {
            Some(missing_count("selection_start"@))
        } else if end is None {
            Some(missing_count("selection_end"@))
        } else if body is None {
            Some(missing("body"@))
        } else {
            None
        },
    }
}

/// Is this how a thread is opened on a selection?
pub open spec fn comment_created(
    prior: Store,
    later: Store,
    disk: Disk,
    cfg: Config,
    at: ResolvedModel,
    selection_start: Option<usize>,
    selection_end: Option<usize>,
    body: Option<Seq<char>>,
    out: Result<Comment>,
) -> bool {
    &&& ({
        let current = current_text(prior, disk@, cfg, at.path);
        match comment_refusal(current, selection_start, selection_end, body) {
            Some(why) => out matches Err(e) && e@ == why && later == prior,
            None => {
                let content = current->Ok_0;
                thread_opened(
                    prior,
                    later,
                    disk@,
                    at.path,
                    content,
                    selection_of(
                        encode_utf8(content),
                        selection_start->Some_0 as int,
                        selection_end->Some_0 as int,
                        cfg.anchor_context_lines as nat,
                    ),
                    body->Some_0,
                    out,
                )
            },
        }
    })
    &&& later == (Store { comments: later.comments, ..prior })
}

/// Opens a thread on a selection of a document as it is.
pub fn create_comment(
    store: &mut Store,
    disk: &Disk,
    cfg: &Config,
    resolved: &Resolved,
    selection_start: Option<usize>,
    selection_end: Option<usize>,
    body: Option<String>,
) -> (out: Result<Comment>)
    ensures
        comment_created(
            *old(store),
            *final(store),
            *disk,
            *cfg,
            resolved@,
            selection_start,
            selection_end,
            opt_view(body),
            out,
        ),
{
    let content = match read_current(store, disk, cfg, resolved) {
        Ok(text) => text,
        Err(e) => {
            return Err(e);
        },
    };
    let start: usize = match required_count(selection_start, "selection_start") {
        Ok(n) => n,
        Err(e) => {
            return Err(e);
        },
    };
    let end: usize = match required_count(selection_end, "selection_end") {
        Ok(n) => n,
        Err(e) => {
            return Err(e);
        },
    };
    let said = match required(body, "body") {
        Ok(s) => s,
        Err(e) => {
            return Err(e);
        },
    };
    crate::comment::threads::create(
        store,
        disk,
        cfg,
        resolved,
        content.as_str(),
        start,
        end,
        said.as_str(),
    )
}

/// A document that is saved holds what was given, and no other file changes;
/// the version that comes back has its content. A save that fails changes no
/// file, and so does creating a document where there is one already.
pub proof fn law_saving_writes_the_document(
    prior: Store,
    later: Store,
    old_disk: Disk,
    new_disk: Disk,
    cfg: Config,
    at: ResolvedModel,
    content: Seq<char>,
    message: Option<Seq<char>>,
    out: Result<RecordOutcome>,
)
    requires
        doc_saved(prior, later, old_disk, new_disk, cfg, at, content, message, out)
            || doc_created(prior, later, old_disk, new_disk, cfg, at, Some(content), out),
    ensures
        out matches Ok(o) ==> {
            &&& new_disk@.dom().contains(at.path)
            &&& new_disk@[at.path].bytes == encode_utf8(content)
            &&& forall|path: Seq<char>|
                path != at.path ==> (#[trigger] new_disk@.dom().contains(path)
                    <==> old_disk@.dom().contains(path)) && (old_disk@.dom().contains(path)
                    ==> new_disk@[path] == old_disk@[path])
            &&& o.snapshot@.blob_hash == address_of(encode_utf8(content))
            &&& snapshot_models(prior.snapshots@).is_prefix_of(snapshot_models(later.snapshots@))
        },
        out is Err ==> new_disk@ == old_disk@,
        doc_created(prior, later, old_disk, new_disk, cfg, at, Some(content), out)
            && old_disk@.dom().contains(at.path) ==> out is Err && later == prior,
{
    let s = snapshot_models(prior.snapshots@);
    crate::version::history::law_newest(s, at.path, prior.host.drives);
    if doc_saved(prior, later, old_disk, new_disk, cfg, at, content, message, out) {
        let (id, now, iso) = choose|
            id: std::result::Result<Seq<char>, ErrorModel>,
            now: i64,
            iso: Seq<char>,
        |
            fresh_or_none(s, id) && dated(now, iso) && #[trigger] saves(
                prior,
                later,
                old_disk@,
                new_disk@,
                cfg,
                at,
                content,
                message,
                id,
                now,
                iso,
                out,
            );
        lemma_saved(
            prior,
            later,
            old_disk@,
            new_disk@,
            cfg,
            at,
            content,
            message,
            id,
            now,
            iso,
            out,
        );
    } else if taken(prior, old_disk@, at.path) is None {
        let (id, now, iso) = choose|
            id: std::result::Result<Seq<char>, ErrorModel>,
            now: i64,
            iso: Seq<char>,
        |
            fresh_or_none(s, id) && dated(now, iso) && #[trigger] saves(
                prior,
                later,
                old_disk@,
                new_disk@,
                cfg,
                at,
                text_or_empty(Some(content)),
                Some("created"@),
                id,
                now,
                iso,
                out,
            );
        lemma_saved(
            prior,
            later,
            old_disk@,
            new_disk@,
            cfg,
            at,
            content,
            Some("created"@),
            id,
            now,
            iso,
            out,
        );
    }
}

proof fn lemma_saved(
    was: Store,
    is: Store,
    before: Map<Seq<char>, FileModel>,
    after: Map<Seq<char>, FileModel>,
    cfg: Config,
    at: ResolvedModel,
    text: Seq<char>,
    message: Option<Seq<char>>,
    id: std::result::Result<Seq<char>, ErrorModel>,
    now: i64,
    iso: Seq<char>,
    out: Result<RecordOutcome>,
)
    requires
        saves(was, is, before, after, cfg, at, text, message, id, now, iso, out),
    ensures
        out matches Ok(o) ==> after == before.insert(
            at.path,
            FileModel { bytes: encode_utf8(text), mtime: Some(now) },
        ) && o.snapshot@.blob_hash == address_of(encode_utf8(text)) && snapshot_models(
            was.snapshots@,
        ).is_prefix_of(snapshot_models(is.snapshots@)),
        out is Err ==> after == before,
{
    let s = snapshot_models(was.snapshots@);
    let bytes = encode_utf8(text);
    let req = request_of(at, bytes, Source::Save, Some("you"@), None, message, Some(now));
    crate::version::history::law_newest(s, at.path, was.host.drives);
    crate::version::restore::lemma_in_window(
        s,
        at.path,
        address_of(bytes),
        crate::version::record::window_of(now, cfg) as i64,
        was.host.drives,
    );
    crate::version::restore::law_history_only_grows(
        s,
        was.blobs@,
        was.host@,
        cfg,
        req,
        id,
        now,
        iso,
    );
}

/// A document is read as it is now: from disk where there is a file, even if
/// history knows another content, and from its newest version where there is
/// none. What was saved is what is read.
pub proof fn law_reading_sees_the_disk(
    store: Store,
    disk: Disk,
    cfg: Config,
    at: ResolvedModel,
    v: DocView,
)
    requires
        doc_read(store, disk, cfg, at, Ok(v)),
    ensures
        v.path@ == at.path,
        disk@.dom().contains(at.path) ==> v.content@ == text_in(disk@[at.path].bytes) && v.exists,
        !disk@.dom().contains(at.path) ==> !v.exists && exists|i: int|
            newest(snapshot_models(store.snapshots@), at.path, store.host.drives) == Some(i)
                && blob_text(
                store.blobs@,
                (#[trigger] snapshot_models(store.snapshots@)[i]).blob_hash,
            ) == Some(v.content@),
{
    if !disk@.dom().contains(at.path) {
        let s = snapshot_models(store.snapshots@);
        let i = newest(s, at.path, store.host.drives)->0;
        assert(blob_text(store.blobs@, s[i].blob_hash) == Some(v.content@));
    }
}

/// A checkpoint adds one version, even where nothing changed: it is marked as
/// one, carries the message and the author, and has what the document holds
/// now. Nothing else of the store changes but where its content is kept.
pub proof fn law_checkpoint_marks_the_document(
    prior: Store,
    later: Store,
    disk: Disk,
    cfg: Config,
    caller: Caller,
    at: ResolvedModel,
    message: Seq<char>,
    o: RecordOutcome,
)
    requires
        checkpoint_made(prior, later, disk, cfg, caller, at, Some(message), Ok(o)),
    ensures
        o.created,
        snapshot_models(later.snapshots@) == snapshot_models(prior.snapshots@).push(o.snapshot@),
        o.snapshot@.source == Source::Checkpoint,
        o.snapshot@.message == Some(message),
        o.snapshot@.author == caller.author@,
        o.snapshot@.path == at.path,
        current_text(prior, disk@, cfg, at.path) matches Ok(text) && o.snapshot@.blob_hash
            == address_of(encode_utf8(text)),
        later.proposals == prior.proposals && later.comments == prior.comments,
{
}

} // verus!
