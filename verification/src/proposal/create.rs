//! Queueing proposals, and routing writes by policy.

use super::read::{decorate, decorated, or_empty, pending_paths, proposal_ids, waiting};
use super::types::{proposal_models, Proposal, ProposalModel, Status};
use crate::comment::threads::{
    comment_ids, dated, link_proposal, no_comment, no_id,
};
use crate::comment::types::{comment_models, CommentModel};
use crate::config::Config;
use crate::corpus::roots::{effective_policy, policy_for};
use crate::corpus::types::{path_policy_models, Policy, Resolved, ResolvedModel};
use crate::corpus::typing::{detect_type, type_of};
use crate::diff::patch::patch_outcome;
use crate::disk::{appended, text_at, Disk, FileModel};
use crate::error::{Error, ErrorModel, Result};
use crate::json::{model, Json, JsonModel};
use crate::store::blobs::{address_of, addressed, blob_text, with_blob};
use crate::store::{crowded, is_id, Store};
use crate::table::{listed, place_of};
use crate::text::{
    among, byte_len, bytes_in, decimal, decimal_of, integer, integer_of, opt_str_view, own,
    push_text, same_str, views,
};
use crate::util::{
    display_of, display_path, hash_text, ms_to_rfc3339, now_ms, path_eq, same_path, text_hash,
    HostModel,
};
use crate::version::history::{get, latest, newest, no_version, snapshot_ids};
use crate::version::record::{fresh_id, fresh_or_none, id_view, record_result};
use crate::version::restore::{
    belongs_elsewhere, disk_after, elsewhere, request_of, write_and_record_at,
};
use crate::version::types::{snapshot_models, Snapshot, SnapshotModel, Source};
use vstd::prelude::*;
use vstd::utf8::encode_utf8;

verus! {

/// What the caller is proposing.
pub enum Change<'a> {
    /// Replace the whole file.
    Content(&'a str),
    /// Apply a unified diff to the base the agent read.
    Patch(&'a str),
}

/// A change to a document, by an agent.
pub struct CreateRequest<'a> {
    pub resolved: &'a Resolved,
    pub change: Change<'a>,
    /// The exact version the agent read. Task operations omit this because
    /// they perform their own stale check immediately before.
    pub base_version: Option<&'a str>,
    pub author: &'a str,
    pub client: &'a str,
    pub message: Option<&'a str>,
    pub addressing: Option<&'a str>,
}

/// What a change is.
pub enum ChangeModel {
    Content(Seq<char>),
    Patch(Seq<char>),
}

/// What a request holds.
pub struct CreateModel {
    pub resolved: ResolvedModel,
    pub change: ChangeModel,
    pub base_version: Option<Seq<char>>,
    pub author: Seq<char>,
    pub client: Seq<char>,
    pub message: Option<Seq<char>>,
    pub addressing: Option<Seq<char>>,
}

impl<'a> View for CreateRequest<'a> {
    type V = CreateModel;

    open spec fn view(&self) -> CreateModel {
        CreateModel {
            resolved: self.resolved@,
            change: match self.change {
                Change::Content(text) => ChangeModel::Content(text@),
                Change::Patch(patch) => ChangeModel::Patch(patch@),
            },
            base_version: opt_str_view(self.base_version),
            author: self.author@,
            client: self.client@,
            message: opt_str_view(self.message),
            addressing: opt_str_view(self.addressing),
        }
    }
}

/// The result of routing a write through the policy layer.
#[derive(Debug)]
pub enum WriteOutcome {
    /// Policy is `propose`: the change is queued for review.
    Proposed { proposal: Box<Proposal> },
    /// Policy is `direct`: the change is on disk, and recorded.
    Applied { snapshot: Box<Snapshot> },
}

// ---------------------------------------------------------------------------
// What a change comes to
// ---------------------------------------------------------------------------

/// The identifier of a document's newest version.
pub open spec fn newest_id(
    s: Seq<SnapshotModel>,
    path: Seq<char>,
    any_case: bool,
) -> Option<Seq<char>> {
    match newest(s, path, any_case) {
        Some(i) => Some(s[i].id),
        None => None,
    }
}

/// What an agent is told who proposes against an old version: where the
/// document stands now.
pub open spec fn moved_on(
    shown: Seq<char>,
    claimed: Seq<char>,
    path: Seq<char>,
    latest: Option<Seq<char>>,
) -> ErrorModel {
    ErrorModel::Stale(
        shown + " has moved on since version "@ + claimed + "; re-read it before proposing"@,
        JsonModel::Object(
            seq![
                ("path"@, JsonModel::Text(path)),
                (
                    "version"@,
                    match latest {
                        Some(id) => JsonModel::Text(id),
                        None => JsonModel::Null,
                    },
                ),
            ],
        ),
    )
}

/// The version that a change is made against. A version that the agent names
/// has to be the document's, and its newest.
pub open spec fn base_of(
    s: Seq<SnapshotModel>,
    host: HostModel,
    at: ResolvedModel,
    claimed: Option<Seq<char>>,
) -> std::result::Result<Option<SnapshotModel>, ErrorModel> {
    match claimed {
        None => Ok(
            match newest(s, at.path, host.drives) {
                Some(i) => Some(s[i]),
                None => None,
            },
        ),
        Some(id) => {
            let i = place_of(snapshot_ids(s), id);
            if i >= s.len() {
                Err(no_version(id))
            } else if !same_path(s[i].path, at.path, host.drives) {
                Err(belongs_elsewhere(id, s[i].display, display_of(at.path, host)))
            } else if newest_id(s, at.path, host.drives) != Some(id) {
                Err(moved_on(
                    display_of(at.path, host),
                    id,
                    at.path,
                    newest_id(s, at.path, host.drives),
                ))
            } else {
                Ok(Some(s[i]))
            }
        },
    }
}

/// The text that a change is made against: the version's, or without history
/// what is on disk.
pub open spec fn base_text_of(
    base: Option<SnapshotModel>,
    blobs: Map<Seq<char>, Seq<u8>>,
    disk: Map<Seq<char>, FileModel>,
    path: Seq<char>,
) -> std::result::Result<Seq<char>, ErrorModel> {
    match base {
        Some(s) => match blob_text(blobs, s.blob_hash) {
            Some(text) => Ok(text),
            None => Err(ErrorModel::NotFound("blob "@ + s.blob_hash)),
        },
        None => Ok(or_empty(text_at(disk, path))),
    }
}

/// What a change comes to: the proposed text, the version it was made against,
/// and that version's text.
pub open spec fn materialised(
    s: Seq<SnapshotModel>,
    blobs: Map<Seq<char>, Seq<u8>>,
    disk: Map<Seq<char>, FileModel>,
    host: HostModel,
    req: CreateModel,
) -> std::result::Result<(Seq<char>, Option<SnapshotModel>, Seq<char>), ErrorModel> {
    match base_of(s, host, req.resolved, req.base_version) {
        Err(e) => Err(e),
        Ok(base) => match base_text_of(base, blobs, disk, req.resolved.path) {
            Err(e) => Err(e),
            Ok(before) => match req.change {
                ChangeModel::Content(text) => Ok((text, base, before)),
                ChangeModel::Patch(patch) => match patch_outcome(before, patch) {
                    Ok(text) => Ok((text, base, before)),
                    Err(e) => Err(e),
                },
            },
        },
    }
}

/// A version that may be missing, as a model.
pub open spec fn opt_snapshot(s: Option<Snapshot>) -> Option<SnapshotModel> {
    match s {
        Some(v) => Some(v@),
        None => None,
    }
}

/// A borrowed version that may be missing, as a model.
pub open spec fn opt_snapshot_ref(s: Option<&Snapshot>) -> Option<SnapshotModel> {
    match s {
        Some(v) => Some(v@),
        None => None,
    }
}

fn stale(shown: &str, claimed: &str, path: &str, latest: Option<&str>) -> (out: Error)
    ensures
        out@ == moved_on(shown@, claimed@, path@, opt_str_view(latest)),
{
    let mut m = shown.to_owned();
    m.append(" has moved on since version ");
    m.append(claimed);
    m.append("; re-read it before proposing");
    let mut members: Vec<(String, Json)> = Vec::new();
    members.push(("path".to_owned(), Json::Text(path.to_owned())));
    let version = match latest {
        Some(id) => Json::Text(id.to_owned()),
        None => Json::Null,
    };
    members.push(("version".to_owned(), version));
    let data = Json::Object(members);
    proof {
        reveal_with_fuel(model, 2);
        assert(model(data)->Object_0 =~= moved_on(shown@, claimed@, path@, opt_str_view(latest))
            ->Stale_1->Object_0);
    }
    Error::Stale { message: m, data: Box::new(data) }
}

fn find_base(store: &Store, resolved: &Resolved, claimed: Option<&str>) -> (out: Result<
    Option<Snapshot>,
>)
    ensures
        ({
            let want = base_of(
                snapshot_models(store.snapshots@),
                store.host@,
                resolved@,
                opt_str_view(claimed),
            );
            match out {
                Ok(base) => want == Ok::<Option<SnapshotModel>, ErrorModel>(opt_snapshot(base)),
                Err(e) => want == Err::<Option<SnapshotModel>, ErrorModel>(e@),
            }
        }),
{
    let newest = latest(store, resolved.path.as_str());
    match claimed {
        None => Ok(newest),
        Some(id) => {
            let s = match get(store, id) {
                Ok(s) => s,
                Err(e) => {
                    return Err(e);
                },
            };
            let shown = display_path(resolved.path.as_str(), &store.host);
            if !path_eq(s.path.as_str(), resolved.path.as_str(), store.host.drives) {
                return Err(elsewhere(id, s.display.as_str(), shown.as_str()));
            }
            let current = match &newest {
                Some(n) => Some(n.id.as_str()),
                None => None,
            };
            let same = match current {
                Some(n) => same_str(n, id),
                None => false,
            };
            if !same {
                return Err(stale(shown.as_str(), id, resolved.path.as_str(), current));
            }
            Ok(Some(s))
        },
    }
}

/// Resolves the content a change produces, against the base the agent read.
pub fn materialise(store: &Store, disk: &Disk, req: &CreateRequest<'_>) -> (out: Result<
    (String, Option<Snapshot>, String),
>)
    ensures
        ({
            let want = materialised(
                snapshot_models(store.snapshots@),
                store.blobs@,
                disk@,
                store.host@,
                req@,
            );
            match out {
                Ok((text, base, before)) => want == Ok::<
                    (Seq<char>, Option<SnapshotModel>, Seq<char>),
                    ErrorModel,
                >((text@, opt_snapshot(base), before@)),
                Err(e) => want == Err::<
                    (Seq<char>, Option<SnapshotModel>, Seq<char>),
                    ErrorModel,
                >(e@),
            }
        }),
{
    let base = match find_base(store, req.resolved, req.base_version) {
        Ok(b) => b,
        Err(e) => {
            return Err(e);
        },
    };
    let before = match &base {
        Some(s) => match store.blobs.get_text(s.blob_hash.as_str()) {
            Ok(text) => text,
            Err(e) => {
                return Err(e);
            },
        },
        None => match disk.read_text(req.resolved.path.as_str()) {
            Some(text) => text,
            None => String::new(),
        },
    };
    proof {
        if base is None {
            assert(before@ =~= or_empty(text_at(disk@, req.resolved@.path)));
        }
    }
    match req.change {
        Change::Content(text) => Ok((text.to_owned(), base, before)),
        Change::Patch(patch) => match crate::diff::patch::apply(before.as_str(), patch) {
            Ok(text) => Ok((text, base, before)),
            Err(e) => Err(e),
        },
    }
}

// ---------------------------------------------------------------------------
// Queueing
// ---------------------------------------------------------------------------

/// What a proposal is turned down for, if anything.
pub open spec fn create_refusal(
    proposals: Seq<ProposalModel>,
    comments: Seq<CommentModel>,
    cfg: Config,
    req: CreateModel,
    proposed: Seq<char>,
    base: Option<SnapshotModel>,
) -> Option<ErrorModel> {
    let waiting = pending_paths(proposals).len();
    if base matches Some(b) && b.blob_hash == text_hash(proposed) {
        Some(
            ErrorModel::Invalid("the proposed content is identical to the current version"@),
        )
    } else if byte_len(proposed) > cfg.max_blob_bytes {
        Some(
            ErrorModel::TooLarge(
                "proposed content is "@ + decimal_of(byte_len(proposed))
                    + " bytes; the per-file limit is "@ + decimal_of(cfg.max_blob_bytes as nat),
            ),
        )
    } else if waiting >= cfg.max_pending_proposals {
        Some(
            ErrorModel::QueueFull(
                decimal_of(waiting) + " proposals are already pending (limit "@ + integer_of(
                    cfg.max_pending_proposals as int,
                ) + "); review some before proposing more"@,
            ),
        )
    } else if req.addressing matches Some(c) && !listed(comment_ids(comments), c) {
        Some(no_comment(req.addressing->Some_0))
    } else {
        None
    }
}

/// A proposal as it is first kept.
pub open spec fn new_proposal(
    req: CreateModel,
    host: HostModel,
    proposed: Seq<char>,
    base: Option<SnapshotModel>,
    id: Seq<char>,
    now: i64,
    iso: Seq<char>,
) -> ProposalModel {
    ProposalModel {
        id: id,
        root_id: req.resolved.root.id,
        path: req.resolved.path,
        display: display_of(req.resolved.path, host),
        base_snapshot_id: match base {
            Some(b) => Some(b.id),
            None => None,
        },
        base_blob_hash: match base {
            Some(b) => Some(b.blob_hash),
            None => None,
        },
        proposed_blob_hash: text_hash(proposed),
        author: req.author,
        client: req.client,
        message: req.message,
        addressing: req.addressing,
        status: Status::Pending,
        stored_status: Status::Pending,
        created_at: now,
        created_at_iso: iso,
        decided_at: None,
        decided_at_iso: None,
        decision_note: None,
        result_snapshot_id: None,
        stats: None,
        target_missing: false,
    }
}

/// The threads after a proposal has been linked to the one it answers.
pub open spec fn linked(
    comments: Seq<CommentModel>,
    addressing: Option<Seq<char>>,
    id: Seq<char>,
) -> Seq<CommentModel> {
    match addressing {
        Some(c) => {
            let at = place_of(comment_ids(comments), c);
            comments.update(
                at,
                CommentModel { addressed_by_proposal: Some(id), ..comments[at] },
            )
        },
        None => comments,
    }
}

/// How the tables and the answer look after queueing a proposal at a time,
/// under an identifier if one could be found.
pub open spec fn create_result(
    proposals: Seq<ProposalModel>,
    comments: Seq<CommentModel>,
    blobs: Map<Seq<char>, Seq<u8>>,
    host: HostModel,
    cfg: Config,
    req: CreateModel,
    proposed: Seq<char>,
    base: Option<SnapshotModel>,
    id: std::result::Result<Seq<char>, ErrorModel>,
    now: i64,
    iso: Seq<char>,
) -> (
    Seq<ProposalModel>,
    Seq<CommentModel>,
    Map<Seq<char>, Seq<u8>>,
    std::result::Result<ProposalModel, ErrorModel>,
) {
    match create_refusal(proposals, comments, cfg, req, proposed, base) {
        Some(why) => (proposals, comments, blobs, Err(why)),
        None => {
            let kept = with_blob(blobs, encode_utf8(proposed));
            match id {
                Err(e) => (proposals, comments, kept, Err(e)),
                Ok(name) => {
                    let p = new_proposal(req, host, proposed, base, name, now, iso);
                    (proposals.push(p), linked(comments, req.addressing, name), kept, Ok(p))
                },
            }
        },
    }
}

/// An executable outcome against a stated one, as read.
pub open spec fn proposes_as(
    out: Result<Proposal>,
    want: std::result::Result<ProposalModel, ErrorModel>,
    blobs: Map<Seq<char>, Seq<u8>>,
    disk: Map<Seq<char>, FileModel>,
) -> bool {
    match (out, want) {
        (Ok(p), Ok(stored)) => p@ == decorated(stored, blobs, disk),
        (Err(e), Err(why)) => e@ == why,
        _ => false,
    }
}

/// Do the contents that proposals speak of lie in the blobs?
pub open spec fn proposals_backed(
    p: Seq<ProposalModel>,
    blobs: Map<Seq<char>, Seq<u8>>,
) -> bool {
    forall|i: int|
        0 <= i < p.len() ==> blobs.dom().contains((#[trigger] p[i]).proposed_blob_hash)
}

/// Queues a proposal as of a moment. Durable: created headless, reviewed
/// later. Nothing is lost if the app is closed for a week.
pub fn create_at(
    store: &mut Store,
    disk: &Disk,
    cfg: &Config,
    req: &CreateRequest<'_>,
    proposed: &str,
    base: Option<&Snapshot>,
    id: Result<String>,
    now: i64,
    iso: &str,
) -> (out: Result<Proposal>)
    ensures
        ({
            let want = create_result(
                proposal_models(old(store).proposals@),
                comment_models(old(store).comments@),
                old(store).blobs@,
                old(store).host@,
                *cfg,
                req@,
                proposed@,
                opt_snapshot_ref(base),
                id_view(id),
                now,
                iso@,
            );
            &&& proposal_models(final(store).proposals@) == want.0
            &&& comment_models(final(store).comments@) == want.1
            &&& final(store).blobs@ == want.2
            &&& proposes_as(out, want.3, final(store).blobs@, disk@)
            &&& addressed(old(store).blobs@) ==> addressed(final(store).blobs@)
            &&& proposals_backed(proposal_models(old(store).proposals@), old(store).blobs@)
                ==> proposals_backed(
                proposal_models(final(store).proposals@),
                final(store).blobs@,
            )
        }),
        *final(store) == (Store {
            proposals: final(store).proposals,
            comments: final(store).comments,
            blobs: final(store).blobs,
            ..*old(store)
        }),
{
    let hash = hash_text(proposed);
    if let Some(b) = base {
        if same_str(b.blob_hash.as_str(), hash.as_str()) {
            return Err(
                Error::invalid("the proposed content is identical to the current version"),
            );
        }
    }
    let len: usize = bytes_in(proposed);
    if len as u64 > cfg.max_blob_bytes {
        let mut m = "proposed content is ".to_owned();
        m.append(decimal(len as u64).as_str());
        m.append(" bytes; the per-file limit is ");
        m.append(decimal(cfg.max_blob_bytes).as_str());
        return Err(Error::TooLarge(m));
    }
    // Runaway-agent guard.
    let waiting_now = waiting(&store.proposals);
    assert(views(waiting_now@).len() == waiting_now@.len());
    let pending: u64 = waiting_now.len() as u64;
    if cfg.max_pending_proposals <= 0 || pending >= cfg.max_pending_proposals as u64 {
        let mut m = decimal(pending);
        m.append(" proposals are already pending (limit ");
        m.append(integer(cfg.max_pending_proposals).as_str());
        m.append("); review some before proposing more");
        return Err(Error::QueueFull(m));
    }
    if let Some(c) = req.addressing {
        // Fail early rather than storing a dangling link.
        if let Err(e) = crate::comment::threads::get(store, disk, c) {
            return Err(e);
        }
    }
    let _ = store.blobs.put(proposed.as_bytes());
    let name = match id {
        Ok(name) => name,
        Err(e) => {
            return Err(e);
        },
    };
    let p = Proposal {
        id: name.clone(),
        root_id: req.resolved.root.id.clone(),
        path: req.resolved.path.clone(),
        display: display_path(req.resolved.path.as_str(), &store.host),
        base_snapshot_id: match base {
            Some(b) => Some(b.id.clone()),
            None => None,
        },
        base_blob_hash: match base {
            Some(b) => Some(b.blob_hash.clone()),
            None => None,
        },
        proposed_blob_hash: hash,
        author: req.author.to_owned(),
        client: req.client.to_owned(),
        message: own(req.message),
        addressing: own(req.addressing),
        status: Status::Pending,
        stored_status: Status::Pending,
        created_at: now,
        created_at_iso: iso.to_owned(),
        decided_at: None,
        decided_at_iso: None,
        decision_note: None,
        result_snapshot_id: None,
        stats: None,
        target_missing: false,
    };
    let out = decorate(&p, store, disk);
    let ghost was = proposal_models(store.proposals@);
    store.proposals.push(p);
    assert(proposal_models(store.proposals@) =~= was.push(p@));
    if let Some(c) = req.addressing {
        let linked_now = link_proposal(store, c, name.as_str());
        if let Err(e) = linked_now {
            return Err(e);
        }
    }
    Ok(out)
}

fn ids_of(proposals: &[Proposal]) -> (out: Vec<String>)
    ensures
        views(out@) == proposal_ids(proposal_models(proposals@)),
{
    let mut out: Vec<String> = Vec::new();
    let ghost ids = proposal_ids(proposal_models(proposals@));
    let mut i: usize = 0;
    while i < proposals.len()
        invariant
            i <= proposals@.len(),
            ids == proposal_ids(proposal_models(proposals@)),
            views(out@) == ids.take(i as int),
        decreases proposals@.len() - i,
    {
        push_text(&mut out, proposals[i].id.clone());
        assert(ids.take(i + 1) =~= ids.take(i as int).push(ids[i as int]));
        i += 1;
    }
    assert(ids.take(i as int) =~= ids);
    out
}

/// An identifier for a new proposal, if one can be found.
pub fn fresh_proposal_id(store: &Store) -> (out: Result<String>)
    ensures
        proposal_id_or_none(proposal_models(store.proposals@), id_view(out)),
{
    Store::alloc_id(&ids_of(&store.proposals), "prop")
}

/// May an identifier that was asked for have come back as `id`?
pub open spec fn proposal_id_or_none(
    p: Seq<ProposalModel>,
    id: std::result::Result<Seq<char>, ErrorModel>,
) -> bool {
    match id {
        Ok(name) => is_id(name, "prop"@) && !among(proposal_ids(p), name),
        Err(e) => crowded(proposal_ids(p), "prop"@) && e == no_id("prop"@),
    }
}

/// Queues a proposal now.
pub fn create(
    store: &mut Store,
    disk: &Disk,
    cfg: &Config,
    req: &CreateRequest<'_>,
    proposed: &str,
    base: Option<&Snapshot>,
) -> (out: Result<Proposal>)
    ensures
        exists|id: std::result::Result<Seq<char>, ErrorModel>, now: i64, iso: Seq<char>|
            ({
                let want = #[trigger] create_result(
                    proposal_models(old(store).proposals@),
                    comment_models(old(store).comments@),
                    old(store).blobs@,
                    old(store).host@,
                    *cfg,
                    req@,
                    proposed@,
                    opt_snapshot_ref(base),
                    id,
                    now,
                    iso,
                );
                &&& proposal_id_or_none(proposal_models(old(store).proposals@), id)
                &&& dated(now, iso)
                &&& proposal_models(final(store).proposals@) == want.0
                &&& comment_models(final(store).comments@) == want.1
                &&& final(store).blobs@ == want.2
                &&& proposes_as(out, want.3, final(store).blobs@, disk@)
            }),
        *final(store) == (Store {
            proposals: final(store).proposals,
            comments: final(store).comments,
            blobs: final(store).blobs,
            ..*old(store)
        }),
{
    let id = fresh_proposal_id(store);
    let now = now_ms();
    let iso = ms_to_rfc3339(now);
    let ghost name = id_view(id);
    assert(proposal_id_or_none(proposal_models(store.proposals@), name));
    create_at(store, disk, cfg, req, proposed, base, id, now, iso.as_str())
}

// ---------------------------------------------------------------------------
// Routing
// ---------------------------------------------------------------------------

/// The write policy that a change falls under, once its text is known.
pub open spec fn policy_of_write(store: Store, req: CreateModel, text: Seq<char>) -> Policy {
    effective_policy(
        path_policy_models(store.path_policies@),
        req.resolved,
        type_of(req.resolved.path, text, req.resolved.dirs),
        store.host.drives,
    )
}

/// The request with which a direct write is recorded.
pub open spec fn direct_request(
    req: CreateModel,
    text: Seq<char>,
    now: i64,
) -> crate::version::record::RequestModel {
    request_of(
        req.resolved,
        encode_utf8(text),
        Source::Direct,
        Some(req.author),
        Some(req.client),
        req.message,
        Some(now),
    )
}

/// How a write leaves the store and the disk, and what comes of it: at a time,
/// with identifiers if they could be found.
pub open spec fn writes(
    was: Store,
    is: Store,
    before: Map<Seq<char>, FileModel>,
    after: Map<Seq<char>, FileModel>,
    cfg: Config,
    req: CreateModel,
    snapshot_id: std::result::Result<Seq<char>, ErrorModel>,
    proposal_id: std::result::Result<Seq<char>, ErrorModel>,
    now: i64,
    iso: Seq<char>,
    out: Result<WriteOutcome>,
) -> bool {
    let s = snapshot_models(was.snapshots@);
    let p = proposal_models(was.proposals@);
    let c = comment_models(was.comments@);
    let host = was.host@;
    match materialised(s, was.blobs@, before, host, req) {
        Err(why) => {
            &&& out matches Err(e) && e@ == why
            &&& is == was
            &&& after == before
        },
        Ok((text, base, _)) => if policy_of_write(was, req, text)
            == Policy::Direct {
            let want = record_result(
                s,
                was.blobs@,
                host,
                cfg,
                direct_request(req, text, now),
                snapshot_id,
                now,
                iso,
            );
            &&& after == disk_after(before, req.resolved.path, encode_utf8(text), now, want.2)
            &&& snapshot_models(is.snapshots@) == want.0
            &&& is.blobs@ == want.1
            &&& is.proposals == was.proposals
            &&& is.comments == was.comments
            &&& match (out, want.2) {
                (Ok(WriteOutcome::Applied { snapshot }), Ok((v, _))) => snapshot@ == v,
                (Err(e), Err(why)) => e@ == why,
                _ => false,
            }
        } else {
            let want = create_result(
                p,
                c,
                was.blobs@,
                host,
                cfg,
                req,
                text,
                base,
                proposal_id,
                now,
                iso,
            );
            &&& after == before
            &&& is.snapshots == was.snapshots
            &&& proposal_models(is.proposals@) == want.0
            &&& comment_models(is.comments@) == want.1
            &&& is.blobs@ == want.2
            &&& match (out, want.3) {
                (Ok(WriteOutcome::Proposed { proposal }), Ok(v)) => proposal@ == decorated(
                    v,
                    is.blobs@,
                    after,
                ),
                (Err(e), Err(why)) => e@ == why,
                _ => false,
            }
        },
    }
}

/// Routes a write through the effective policy for its path as of a moment: a
/// proposal, or a direct write. Enforced here in the core, not in the bridge,
/// so no client can bypass it.
pub fn write_at(
    store: &mut Store,
    disk: &mut Disk,
    cfg: &Config,
    req: &CreateRequest<'_>,
    snapshot_id: Result<String>,
    proposal_id: Result<String>,
    now: i64,
    iso: &str,
) -> (out: Result<WriteOutcome>)
    ensures
        appended(*old(disk), *final(disk)),
        writes(
            *old(store),
            *final(store),
            old(disk)@,
            final(disk)@,
            *cfg,
            req@,
            id_view(snapshot_id),
            id_view(proposal_id),
            now,
            iso@,
            out,
        ),
        *final(store) == (Store {
            snapshots: final(store).snapshots,
            proposals: final(store).proposals,
            comments: final(store).comments,
            blobs: final(store).blobs,
            ..*old(store)
        }),
{
    let (text, base) = match materialise(store, disk, req) {
        Ok((text, base, _)) => (text, base),
        Err(e) => {
            return Err(e);
        },
    };
    let ty = detect_type(req.resolved.path.as_str(), text.as_str(), &req.resolved.dirs);
    let policy = policy_for(store, req.resolved, ty);
    if policy == Policy::Direct {
        match write_and_record_at(
            store,
            disk,
            cfg,
            req.resolved,
            text.as_str(),
            Source::Direct,
            Some(req.author),
            Some(req.client),
            req.message,
            snapshot_id,
            now,
            iso,
        ) {
            Ok(o) => Ok(WriteOutcome::Applied { snapshot: Box::new(o.snapshot) }),
            Err(e) => Err(e),
        }
    } else {
        let base_ref = match &base {
            Some(b) => Some(b),
            None => None,
        };
        match create_at(store, disk, cfg, req, text.as_str(), base_ref, proposal_id, now, iso) {
            Ok(p) => Ok(WriteOutcome::Proposed { proposal: Box::new(p) }),
            Err(e) => Err(e),
        }
    }
}

/// Routes a write through the effective policy for its path now.
pub fn write(store: &mut Store, disk: &mut Disk, cfg: &Config, req: &CreateRequest<'_>) -> (out:
    Result<WriteOutcome>)
    ensures
        appended(*old(disk), *final(disk)),
        exists|
            snapshot_id: std::result::Result<Seq<char>, ErrorModel>,
            proposal_id: std::result::Result<Seq<char>, ErrorModel>,
            now: i64,
            iso: Seq<char>,
        |
            fresh_or_none(snapshot_models(old(store).snapshots@), snapshot_id)
                && proposal_id_or_none(proposal_models(old(store).proposals@), proposal_id)
                && dated(now, iso) && #[trigger] writes(
                *old(store),
                *final(store),
                old(disk)@,
                final(disk)@,
                *cfg,
                req@,
                snapshot_id,
                proposal_id,
                now,
                iso,
                out,
            ),
        *final(store) == (Store {
            snapshots: final(store).snapshots,
            proposals: final(store).proposals,
            comments: final(store).comments,
            blobs: final(store).blobs,
            ..*old(store)
        }),
{
    let snapshot_id = fresh_id(store);
    let proposal_id = fresh_proposal_id(store);
    let now = now_ms();
    let iso = ms_to_rfc3339(now);
    let ghost first = id_view(snapshot_id);
    let ghost second = id_view(proposal_id);
    assert(fresh_or_none(snapshot_models(store.snapshots@), first));
    assert(proposal_id_or_none(proposal_models(store.proposals@), second));
    write_at(store, disk, cfg, req, snapshot_id, proposal_id, now, iso.as_str())
}

/// The policy decides, and nothing else: where it asks for proposals, a write
/// leaves every file and every version as it is and at most queues a proposal;
/// where it allows direct writes, nothing is queued.
pub proof fn law_policy_routes_writes(
    was: Store,
    is: Store,
    before: Map<Seq<char>, FileModel>,
    after: Map<Seq<char>, FileModel>,
    cfg: Config,
    req: CreateModel,
    snapshot_id: std::result::Result<Seq<char>, ErrorModel>,
    proposal_id: std::result::Result<Seq<char>, ErrorModel>,
    now: i64,
    iso: Seq<char>,
    out: Result<WriteOutcome>,
    text: Seq<char>,
)
    requires
        writes(was, is, before, after, cfg, req, snapshot_id, proposal_id, now, iso, out),
        materialised(
            snapshot_models(was.snapshots@),
            was.blobs@,
            before,
            was.host@,
            req,
        ) matches Ok(m) && m.0 == text,
    ensures
        policy_of_write(was, req, text) != Policy::Direct ==> after == before && is.snapshots
            == was.snapshots && !(out matches Ok(WriteOutcome::Applied { .. })),
        policy_of_write(was, req, text) == Policy::Direct ==> is.proposals == was.proposals && !(
        out matches Ok(WriteOutcome::Proposed { .. })),
{
}

/// A write carries what was asked for, whole: written directly, the file holds
/// the content that was given, and so does the version; queued, the proposal is
/// the last one, waits, is for that document, is by that author and client, and
/// keeps that content under its hash. A write that is refused changes no file
/// and queues nothing.
pub proof fn law_writes_carry_the_content(
    was: Store,
    is: Store,
    before: Map<Seq<char>, FileModel>,
    after: Map<Seq<char>, FileModel>,
    cfg: Config,
    req: CreateModel,
    snapshot_id: std::result::Result<Seq<char>, ErrorModel>,
    proposal_id: std::result::Result<Seq<char>, ErrorModel>,
    now: i64,
    iso: Seq<char>,
    out: Result<WriteOutcome>,
    text: Seq<char>,
)
    requires
        writes(was, is, before, after, cfg, req, snapshot_id, proposal_id, now, iso, out),
        req.change == ChangeModel::Content(text),
    ensures
        out matches Ok(WriteOutcome::Applied { snapshot }) ==> {
            &&& after.dom().contains(req.resolved.path)
            &&& after[req.resolved.path].bytes == encode_utf8(text)
            &&& forall|path: Seq<char>|
                path != req.resolved.path ==> (#[trigger] after.dom().contains(path)
                    <==> before.dom().contains(path)) && (before.dom().contains(path)
                    ==> after[path] == before[path])
            &&& snapshot@.blob_hash == address_of(encode_utf8(text))
        },
        out matches Ok(WriteOutcome::Proposed { proposal }) ==> {
            let p = proposal_models(was.proposals@);
            let q = proposal_models(is.proposals@);
            &&& after == before
            &&& q.len() == p.len() + 1
            &&& q.drop_last() == p
            &&& q.last().id == proposal@.id
            &&& q.last().stored_status == Status::Pending
            &&& q.last().path == req.resolved.path
            &&& q.last().author == req.author
            &&& q.last().client == req.client
            &&& q.last().message == req.message
            &&& q.last().addressing == req.addressing
            &&& q.last().proposed_blob_hash == text_hash(text)
            &&& is.blobs@.dom().contains(text_hash(text))
            &&& !was.blobs@.dom().contains(text_hash(text)) ==> is.blobs@[text_hash(text)]
                == encode_utf8(text)
        },
        out is Err ==> after == before && is.proposals@.len() == was.proposals@.len(),
{
    let s = snapshot_models(was.snapshots@);
    crate::version::history::law_newest(s, req.resolved.path, was.host.drives);
    crate::version::restore::lemma_in_window(
        s,
        req.resolved.path,
        address_of(encode_utf8(text)),
        crate::version::record::window_of(now, cfg) as i64,
        was.host.drives,
    );
    let p = proposal_models(was.proposals@);
    let q = proposal_models(is.proposals@);
    if out matches Ok(WriteOutcome::Proposed { .. }) {
        assert(q.drop_last() =~= p);
    }
    if out is Err {
        assert(q.len() == is.proposals@.len());
        assert(p.len() == was.proposals@.len());
    }
}

/// A change is made against the newest version or not at all: a base that is
/// named has to be a version of the document, and its newest one.
pub proof fn law_base_is_the_newest(
    s: Seq<SnapshotModel>,
    host: HostModel,
    at: ResolvedModel,
    claimed: Option<Seq<char>>,
)
    ensures
        base_of(s, host, at, claimed) matches Ok(base) ==> {
            let newest = newest(s, at.path, host.drives);
            &&& base is Some <==> newest is Some || claimed is Some
            &&& claimed matches Some(id) ==> base is Some && base->0.id == id && newest is Some
                && s[newest->0].id == id && same_path(base->0.path, at.path, host.drives)
            &&& claimed is None && newest is Some ==> base->0 == s[newest->0]
        },
        claimed matches Some(id) && newest_id(s, at.path, host.drives) != Some(id) ==> base_of(
            s,
            host,
            at,
            claimed,
        ) is Err,
{
    if let Some(id) = claimed {
        crate::table::lemma_place_facts(snapshot_ids(s), id);
        if base_of(s, host, at, claimed) is Ok {
            assert(snapshot_ids(s)[place_of(snapshot_ids(s), id)] == id);
        }
    }
}

} // verus!
