//! Deciding on proposals: accept, reject, rebase.

use super::read::{
    decorate, decorated, find, missing, moved, no_proposal, or_empty, proposal_got, proposal_ids,
    proposed_content, review_options,
};
use super::types::{
    open_status, proposal_models, status_name, Proposal, ProposalModel, Status,
};
use crate::comment::threads::{
    comment_ids, dated, new_reply, no_comment, reply_at, reply_id_or_none, resolve_thread_at,
    settled,
};
use crate::comment::types::{comment_models, CommentModel};
use crate::config::Config;
use crate::corpus::types::{Resolved, ResolvedModel};
use crate::diff::apply::{applied_text, apply_hunks};
use crate::diff::changes::{can_compare, cannot_compare, comparable, unwieldy};
use crate::diff::hunks::{cut, diff_text, hunk_models, hunks_of, Hunk, HunkModel};
use crate::diff::merge::{
    clash_message, law_merge_keeps_both_sides, merge3, merge_of, merged_trailing, stand_in, Merge,
};
use crate::diff::ranges::changed;
use crate::disk::{appended, text_at, Disk, FileModel};
use crate::error::{message_of, Error, ErrorModel, Result};
use crate::store::blobs::{blob_text, with_blob};
use crate::store::Store;
use crate::table::{lemma_place_facts, listed, place_of};
use crate::text::{
    chars_of, decimal, decimal_of, join, join_of, opt_str_view, opt_view, push_text, same_str,
    string_of, trim, trim_of, views,
};
use crate::util::{
    document_of, ends_in_newline, hash_text, lines_of, ms_to_rfc3339, newline_of, now_ms, text_hash,
};
use crate::version::history::{latest, newest};
use crate::version::record::{fresh_id, fresh_or_none, id_view, record_result, RequestModel};
use crate::version::restore::{disk_after, request_of, write_and_record_at};
use crate::version::types::{snapshot_models, Snapshot, SnapshotModel, Source};
use vstd::prelude::*;
use vstd::utf8::encode_utf8;

verus! {

/// What came of a decision.
#[derive(Debug)]
pub struct Decision {
    pub proposal: Proposal,
    pub snapshot: Option<Snapshot>,
    /// Set when accepting resolved the comment this proposal addressed.
    pub resolved_comment: Option<String>,
    /// Hunks actually applied, when the accept was partial.
    pub applied_hunks: Option<Vec<usize>>,
}

/// What a decision holds.
pub open spec fn decision_is(
    d: Decision,
    proposal: ProposalModel,
    snapshot: Option<SnapshotModel>,
    resolved_comment: Option<Seq<char>>,
    applied: Option<Seq<usize>>,
) -> bool {
    &&& d.proposal@ == proposal
    &&& super::create::opt_snapshot(d.snapshot) == snapshot
    &&& opt_view(d.resolved_comment) == resolved_comment
    &&& (match d.applied_hunks {
        Some(h) => Some(h@),
        None => None,
    }) == applied
}

/// What a caller is told of a proposal that has been decided.
pub open spec fn already(id: Seq<char>, status: Status) -> ErrorModel {
    ErrorModel::Invalid("proposal "@ + id + " is already "@ + status_name(status))
}

fn decided_already(id: &str, status: Status) -> (out: Error)
    ensures
        out@ == already(id@, status),
{
    let mut m = "proposal ".to_owned();
    m.append(id);
    m.append(" is already ");
    m.append(status.as_str());
    Error::Invalid(m)
}

// ---------------------------------------------------------------------------
// What accepting comes to
// ---------------------------------------------------------------------------

/// A proposal's change replayed on top of what is there now: a real three-way
/// merge, not a base-pointer bump.
pub open spec fn replayed(
    base: Seq<char>,
    current: Seq<char>,
    proposed: Seq<char>,
) -> std::result::Result<Seq<char>, ErrorModel> {
    match merge_of(lines_of(base), lines_of(current), lines_of(proposed)) {
        Merge::Lines(lines) => Ok(
            document_of(lines, merged_trailing(base, current, proposed), newline_of(current)),
        ),
        Merge::Clash(from, to) => Err(ErrorModel::Conflict(clash_message(from, to))),
    }
}

/// The complaint about a change that will not replay.
pub open spec fn will_not_replay(lead: Seq<char>, why: ErrorModel, advice: Seq<char>) -> ErrorModel {
    ErrorModel::Conflict(lead + message_of(why) + advice)
}

fn not_replayable(lead: &str, why: &Error, advice: &str) -> (out: Error)
    ensures
        out@ == will_not_replay(lead@, why@, advice@),
{
    let mut m = lead.to_owned();
    m.append(why.message().as_str());
    m.append(advice);
    Error::Conflict(m)
}

/// The complaint about a proposal that would drop newer edits.
pub open spec fn would_drop(why: ErrorModel) -> ErrorModel {
    will_not_replay(
        "cannot apply this proposal without dropping newer edits: "@,
        why,
        ". Rebase it and review the result."@,
    )
}

/// The complaint about a proposal that cannot be rebased.
pub open spec fn stuck(why: ErrorModel) -> ErrorModel {
    will_not_replay(
        "cannot replay this proposal onto the current content: "@,
        why,
        ". Reject it and ask the agent to re-read."@,
    )
}

/// Is there a hunk with this number?
pub open spec fn known_hunk(hunks: Seq<HunkModel>, index: usize) -> bool {
    exists|k: int| 0 <= k < hunks.len() && (#[trigger] hunks[k]).index == index
}

/// The numbers among those selected that belong to no hunk.
pub open spec fn unknown_of(selected: Seq<usize>, hunks: Seq<HunkModel>) -> Seq<usize>
    decreases selected.len(),
{
    if selected.len() == 0 {
        Seq::empty()
    } else if known_hunk(hunks, selected.last()) {
        unknown_of(selected.drop_last(), hunks)
    } else {
        unknown_of(selected.drop_last(), hunks).push(selected.last())
    }
}

/// Numbers as they are listed in a message.
pub open spec fn numbers_text(n: Seq<usize>) -> Seq<char> {
    "["@ + join_of(Seq::new(n.len(), |i: int| decimal_of(n[i] as nat)), ", "@) + "]"@
}

fn write_numbers(n: &[usize]) -> (out: String)
    ensures
        out@ == numbers_text(n@),
{
    let ghost all = Seq::new(n@.len(), |i: int| decimal_of(n@[i] as nat));
    let mut parts: Vec<String> = Vec::new();
    let mut i: usize = 0;
    while i < n.len()
        invariant
            i <= n@.len(),
            all == Seq::new(n@.len(), |i: int| decimal_of(n@[i] as nat)),
            views(parts@) == all.take(i as int),
        decreases n@.len() - i,
    {
        push_text(&mut parts, decimal(n[i] as u64));
        assert(all.take(i + 1) =~= all.take(i as int).push(all[i as int]));
        i += 1;
    }
    assert(all.take(i as int) =~= all);
    let mut out = "[".to_owned();
    out.append(join(&parts, ", ").as_str());
    out.append("]");
    out
}

/// The text that a selection of hunks gives, or the complaint about numbers
/// that belong to none.
pub open spec fn chosen(
    current: Seq<char>,
    proposed: Seq<char>,
    selected: Seq<usize>,
) -> std::result::Result<Seq<char>, ErrorModel> {
    let hunks = hunks_of(lines_of(current), lines_of(proposed), review_options());
    let unknown = unknown_of(selected, hunks);
    if !comparable(current, proposed) {
        Err(unwieldy())
    } else if unknown.len() > 0 {
        Err(
            ErrorModel::Invalid(
                "hunk(s) "@ + numbers_text(unknown)
                    + " are not in this proposal's current diff; re-read it and retry"@,
            ),
        )
    } else {
        Ok(applied_text(current, proposed, hunks, selected))
    }
}

fn has_hunk(hunks: &[Hunk], index: usize) -> (out: bool)
    ensures
        out == known_hunk(hunk_models(hunks@), index),
{
    let mut i: usize = 0;
    while i < hunks.len()
        invariant
            i <= hunks@.len(),
            forall|k: int| 0 <= k < i ==> (#[trigger] hunk_models(hunks@)[k]).index != index,
        decreases hunks@.len() - i,
    {
        if hunks[i].index == index {
            assert(hunk_models(hunks@)[i as int].index == index);
            return true;
        }
        i += 1;
    }
    false
}

fn choose_hunks(current: &str, proposed: &str, selected: &[usize]) -> (out: Result<String>)
    ensures
        match out {
            Ok(text) => chosen(current@, proposed@, selected@) == Ok::<Seq<char>, ErrorModel>(
                text@,
            ),
            Err(e) => chosen(current@, proposed@, selected@) == Err::<Seq<char>, ErrorModel>(e@),
        },
{
    if !can_compare(current, proposed) {
        return Err(cannot_compare());
    }
    let d = diff_text(current, proposed);
    let ghost hunks = hunk_models(d.hunks@);
    let mut unknown: Vec<usize> = Vec::new();
    let mut i: usize = 0;
    assert(unknown@ =~= unknown_of(selected@.take(0), hunks));
    while i < selected.len()
        invariant
            i <= selected@.len(),
            hunks == hunk_models(d.hunks@),
            unknown@ == unknown_of(selected@.take(i as int), hunks),
        decreases selected@.len() - i,
    {
        assert(selected@.take(i + 1).drop_last() =~= selected@.take(i as int));
        if !has_hunk(&d.hunks, selected[i]) {
            unknown.push(selected[i]);
        }
        i += 1;
    }
    assert(selected@.take(i as int) =~= selected@);
    if unknown.len() > 0 {
        let mut m = "hunk(s) ".to_owned();
        m.append(write_numbers(&unknown).as_str());
        m.append(" are not in this proposal's current diff; re-read it and retry");
        return Err(Error::Invalid(m));
    }
    Ok(apply_hunks(current, proposed, &d, selected))
}

/// The text that a proposal puts in place as a whole: what was proposed, and
/// where the file moved since, what is there now with the proposed change
/// replayed on top.
pub open spec fn whole_text(
    p: ProposalModel,
    blobs: Map<Seq<char>, Seq<u8>>,
    current: Seq<char>,
    proposed: Seq<char>,
) -> std::result::Result<Seq<char>, ErrorModel> {
    match p.base_blob_hash {
        Some(hash) if text_hash(current) != hash => match blob_text(blobs, hash) {
            None => Err(ErrorModel::NotFound("blob "@ + hash)),
            Some(base) => if !comparable(base, current) || !comparable(base, proposed) {
                Err(unwieldy())
            } else {
                match replayed(base, current, proposed) {
                    Ok(text) => Ok(text),
                    Err(why) => Err(would_drop(why)),
                }
            },
        },
        _ => Ok(proposed),
    }
}

/// The text that accepting a proposal, or some of its hunks, puts on disk; or
/// why it is refused. Hunks are those between what is on disk and what was
/// proposed, whether or not the file moved.
pub open spec fn accepted_text(
    p: ProposalModel,
    blobs: Map<Seq<char>, Seq<u8>>,
    disk: Map<Seq<char>, FileModel>,
    hunks: Option<Seq<usize>>,
) -> std::result::Result<Seq<char>, ErrorModel> {
    if !open_status(p.stored_status) {
        Err(already(p.id, p.stored_status))
    } else {
        let current = or_empty(text_at(disk, p.path));
        match blob_text(blobs, p.proposed_blob_hash) {
            None => Err(ErrorModel::NotFound("blob "@ + p.proposed_blob_hash)),
            Some(proposed) => {
                let text = match hunks {
                    None => whole_text(p, blobs, current, proposed),
                    Some(selected) => chosen(current, proposed, selected),
                };
                match text {
                    Err(why) => Err(why),
                    Ok(t) => if t == current {
                        Err(ErrorModel::Invalid("accepting these hunks would change nothing"@))
                    } else {
                        Ok(t)
                    },
                }
            },
        }
    }
}

/// Numbers that may be missing, as a model.
pub open spec fn opt_numbers(n: Option<&[usize]>) -> Option<Seq<usize>> {
    match n {
        Some(s) => Some(s@),
        None => None,
    }
}

fn replay(base: &str, current: &str, proposed: &str) -> (out: Result<String>)
    requires
        comparable(base@, current@),
        comparable(base@, proposed@),
    ensures
        match out {
            Ok(text) => replayed(base@, current@, proposed@) == Ok::<Seq<char>, ErrorModel>(text@),
            Err(e) => replayed(base@, current@, proposed@) == Err::<Seq<char>, ErrorModel>(e@),
        },
{
    merge3(base, current, proposed)
}

/// The text that a proposal puts in place as a whole.
fn whole(store: &Store, p: &Proposal, current: &str, proposed: String) -> (out: Result<String>)
    ensures
        match out {
            Ok(text) => whole_text(p@, store.blobs@, current@, proposed@) == Ok::<
                Seq<char>,
                ErrorModel,
            >(text@),
            Err(e) => whole_text(p@, store.blobs@, current@, proposed@) == Err::<
                Seq<char>,
                ErrorModel,
            >(e@),
        },
{
    if let Some(hash) = &p.base_blob_hash {
        let now = hash_text(current);
        if !same_str(now.as_str(), hash.as_str()) {
            let base = match store.blobs.get_text(hash.as_str()) {
                Ok(text) => text,
                Err(e) => {
                    return Err(e);
                },
            };
            if !can_compare(base.as_str(), current) || !can_compare(
                base.as_str(),
                proposed.as_str(),
            ) {
                return Err(cannot_compare());
            }
            return match replay(base.as_str(), current, proposed.as_str()) {
                Ok(text) => Ok(text),
                Err(why) => Err(
                    not_replayable(
                        "cannot apply this proposal without dropping newer edits: ",
                        &why,
                        ". Rebase it and review the result.",
                    ),
                ),
            };
        }
    }
    Ok(proposed)
}

/// The text that accepting a proposal, or some of its hunks, puts on disk.
pub fn plan_accept(store: &Store, disk: &Disk, p: &Proposal, hunks: Option<&[usize]>) -> (out:
    Result<String>)
    ensures
        match out {
            Ok(text) => accepted_text(p@, store.blobs@, disk@, opt_numbers(hunks)) == Ok::<
                Seq<char>,
                ErrorModel,
            >(text@),
            Err(e) => accepted_text(p@, store.blobs@, disk@, opt_numbers(hunks)) == Err::<
                Seq<char>,
                ErrorModel,
            >(e@),
        },
{
    if !p.stored_status.is_open() {
        return Err(decided_already(p.id.as_str(), p.stored_status));
    }
    let current = match disk.read_text(p.path.as_str()) {
        Some(text) => text,
        None => String::new(),
    };
    assert(current@ =~= or_empty(text_at(disk@, p@.path)));
    let proposed = match proposed_content(store, p) {
        Ok(text) => text,
        Err(e) => {
            return Err(e);
        },
    };
    let text = match hunks {
        None => match whole(store, p, current.as_str(), proposed) {
            Ok(t) => t,
            Err(e) => {
                return Err(e);
            },
        },
        Some(selected) => match choose_hunks(current.as_str(), proposed.as_str(), selected) {
            Ok(t) => t,
            Err(e) => {
                return Err(e);
            },
        },
    };
    if same_str(text.as_str(), current.as_str()) {
        return Err(Error::invalid("accepting these hunks would change nothing"));
    }
    Ok(text)
}

// ---------------------------------------------------------------------------
// Accepting
// ---------------------------------------------------------------------------

/// The request with which an accepted proposal is recorded: the agent is its
/// author.
pub open spec fn accept_request(
    p: ProposalModel,
    at: ResolvedModel,
    text: Seq<char>,
    now: i64,
) -> RequestModel {
    request_of(
        at,
        encode_utf8(text),
        Source::Proposal,
        Some(p.author),
        Some(p.client),
        Some(
            match p.message {
                Some(m) => m,
                None => "proposal "@ + p.id,
            },
        ),
        Some(now),
    )
}

/// A proposal that has been accepted.
pub open spec fn accepted_proposal(
    p: ProposalModel,
    now: i64,
    iso: Seq<char>,
    snapshot: Seq<char>,
) -> ProposalModel {
    ProposalModel {
        status: Status::Accepted,
        stored_status: Status::Accepted,
        decided_at: Some(now),
        decided_at_iso: Some(iso),
        result_snapshot_id: Some(snapshot),
        ..p
    }
}

/// How accepting leaves the store and the disk, and what comes of it: at a
/// time, with an identifier for the version if one could be found.
pub open spec fn accepts(
    was: Store,
    is: Store,
    before: Map<Seq<char>, FileModel>,
    after: Map<Seq<char>, FileModel>,
    cfg: Config,
    at_root: ResolvedModel,
    name: Seq<char>,
    hunks: Option<Seq<usize>>,
    id: std::result::Result<Seq<char>, ErrorModel>,
    now: i64,
    iso: Seq<char>,
    out: Result<Decision>,
) -> bool {
    let p = proposal_models(was.proposals@);
    let c = comment_models(was.comments@);
    let at = place_of(proposal_ids(p), name);
    if at >= p.len() {
        &&& out matches Err(e) && e@ == no_proposal(name)
        &&& is == was
        &&& after == before
    } else {
        match accepted_text(p[at], was.blobs@, before, hunks) {
            Err(why) => {
                &&& out matches Err(e) && e@ == why
                &&& is == was
                &&& after == before
            },
            Ok(text) => {
                let want = record_result(
                    snapshot_models(was.snapshots@),
                    was.blobs@,
                    was.host@,
                    cfg,
                    accept_request(p[at], at_root, text, now),
                    id,
                    now,
                    iso,
                );
                &&& after == disk_after(before, at_root.path, encode_utf8(text), now, want.2)
                &&& snapshot_models(is.snapshots@) == want.0
                &&& is.blobs@ == want.1
                &&& match want.2 {
                    Err(why) => {
                        &&& out matches Err(e) && e@ == why
                        &&& is.proposals == was.proposals
                        &&& is.comments == was.comments
                    },
                    Ok((s, _)) => {
                        let done = accepted_proposal(p[at], now, iso, s.id);
                        let shown = decorated(done, is.blobs@, after);
                        &&& proposal_models(is.proposals@) == p.update(at, done)
                        &&& match p[at].addressing {
                            None => {
                                &&& is.comments == was.comments
                                &&& out matches Ok(d) && decision_is(
                                    d,
                                    shown,
                                    Some(s),
                                    None,
                                    hunks,
                                )
                            },
                            Some(thread) => {
                                let k = place_of(comment_ids(c), thread);
                                if k < c.len() {
                                    &&& comment_models(is.comments@) == c.update(
                                        k,
                                        settled(c[k], "you"@, now),
                                    )
                                    &&& out matches Ok(d) && decision_is(
                                        d,
                                        shown,
                                        Some(s),
                                        Some(thread),
                                        hunks,
                                    )
                                } else {
                                    &&& is.comments == was.comments
                                    &&& out matches Err(e) && e@ == no_comment(thread)
                                }
                            },
                        }
                    },
                }
            },
        }
    }
}

/// Accepts a proposal as of a moment: applies it to disk and records it with
/// the agent as author.
///
/// `hunks` selects a subset; the partial patch is recomputed against current
/// disk state, so hunk-level accept applies exactly the accepted hunks even if
/// the file moved since the proposal was made.
pub fn accept_at(
    store: &mut Store,
    disk: &mut Disk,
    cfg: &Config,
    resolved: &Resolved,
    proposal_id: &str,
    hunks: Option<&[usize]>,
    id: Result<String>,
    now: i64,
    iso: &str,
) -> (out: Result<Decision>)
    ensures
        appended(*old(disk), *final(disk)),
        accepts(
            *old(store),
            *final(store),
            old(disk)@,
            final(disk)@,
            *cfg,
            resolved@,
            proposal_id@,
            opt_numbers(hunks),
            id_view(id),
            now,
            iso@,
            out,
        ),
        *final(store) == (Store {
            snapshots: final(store).snapshots,
            proposals: final(store).proposals,
            comments: final(store).comments,
            blobs: final(store).blobs,
            ..*old(store)
        }),
{
    let at: usize = find(&store.proposals, proposal_id);
    if at >= store.proposals.len() {
        return Err(missing(proposal_id));
    }
    let mut p = store.proposals[at].copy();
    let text = match plan_accept(store, disk, &p, hunks) {
        Ok(t) => t,
        Err(e) => {
            return Err(e);
        },
    };
    let message = match &p.message {
        Some(m) => m.clone(),
        None => {
            let mut m = "proposal ".to_owned();
            m.append(p.id.as_str());
            m
        },
    };
    let outcome = match write_and_record_at(
        store,
        disk,
        cfg,
        resolved,
        text.as_str(),
        Source::Proposal,
        Some(p.author.as_str()),
        Some(p.client.as_str()),
        Some(message.as_str()),
        id,
        now,
        iso,
    ) {
        Ok(o) => o,
        Err(e) => {
            return Err(e);
        },
    };
    p.status = Status::Accepted;
    p.stored_status = Status::Accepted;
    p.decided_at = Some(now);
    p.decided_at_iso = Some(iso.to_owned());
    p.result_snapshot_id = Some(outcome.snapshot.id.clone());
    let shown = decorate(&p, store, disk);
    let addressing = crate::text::copy_opt(&p.addressing);
    let ghost was = proposal_models(store.proposals@);
    store.proposals.set(at, p);
    assert(proposal_models(store.proposals@) =~= was.update(at as int, p@));
    // Accepting an addressing proposal closes the loop: the thread resolves.
    if let Some(thread) = &addressing {
        if let Err(e) = resolve_thread_at(store, disk, thread.as_str(), "you", now) {
            return Err(e);
        }
    }
    let applied = match hunks {
        Some(selected) => {
            let mut copied: Vec<usize> = Vec::new();
            let mut i: usize = 0;
            while i < selected.len()
                invariant
                    i <= selected@.len(),
                    copied@ == selected@.take(i as int),
                decreases selected@.len() - i,
            {
                copied.push(selected[i]);
                i += 1;
            }
            assert(selected@.take(i as int) =~= selected@);
            Some(copied)
        },
        None => None,
    };
    Ok(
        Decision {
            proposal: shown,
            snapshot: Some(outcome.snapshot),
            resolved_comment: addressing,
            applied_hunks: applied,
        },
    )
}

/// Is this how a proposal is accepted?
pub open spec fn proposal_accepted(
    prior: Store,
    later: Store,
    old_disk: Disk,
    new_disk: Disk,
    cfg: Config,
    at: ResolvedModel,
    proposal_id: Seq<char>,
    hunks: Option<Seq<usize>>,
    out: Result<Decision>,
) -> bool {
    &&& exists|id: std::result::Result<Seq<char>, ErrorModel>, now: i64, iso: Seq<char>|
            fresh_or_none(snapshot_models(prior.snapshots@), id) && dated(now, iso)
                && #[trigger] accepts(
                prior,
                later,
                old_disk@,
                new_disk@,
                cfg,
                at,
                proposal_id,
                hunks,
                id,
                now,
                iso,
                out,
            )
    &&& later == (Store {
        snapshots: later.snapshots,
        proposals: later.proposals,
        comments: later.comments,
        blobs: later.blobs,
        ..prior
    })
}

/// Accepts a proposal now: applies it to disk and records it with the agent as
/// author.
///
/// `hunks` selects a subset; the partial patch is recomputed against current
/// disk state, so hunk-level accept applies exactly the accepted hunks even if
/// the file moved since the proposal was made.
pub fn accept(
    store: &mut Store,
    disk: &mut Disk,
    cfg: &Config,
    resolved: &Resolved,
    proposal_id: &str,
    hunks: Option<&[usize]>,
) -> (out: Result<Decision>)
    ensures
        appended(*old(disk), *final(disk)),
        proposal_accepted(
            *old(store),
            *final(store),
            *old(disk),
            *final(disk),
            *cfg,
            resolved@,
            proposal_id@,
            opt_numbers(hunks),
            out,
        ),
{
    let id = fresh_id(store);
    let now = now_ms();
    let iso = ms_to_rfc3339(now);
    let ghost name = id_view(id);
    assert(fresh_or_none(snapshot_models(store.snapshots@), name));
    accept_at(store, disk, cfg, resolved, proposal_id, hunks, id, now, iso.as_str())
}

// ---------------------------------------------------------------------------
// Rejecting
// ---------------------------------------------------------------------------

/// A note that says something, without white space around it.
pub open spec fn note_of(note: Option<Seq<char>>) -> Option<Seq<char>> {
    match note {
        Some(n) if trim_of(n).len() > 0 => Some(trim_of(n)),
        _ => None,
    }
}

/// A proposal that has been rejected.
pub open spec fn rejected_proposal(
    p: ProposalModel,
    now: i64,
    iso: Seq<char>,
    note: Option<Seq<char>>,
) -> ProposalModel {
    ProposalModel {
        status: Status::Rejected,
        stored_status: Status::Rejected,
        decided_at: Some(now),
        decided_at_iso: Some(iso),
        decision_note: note,
        ..p
    }
}

/// The note as it is filed into the thread that a proposal answered.
pub open spec fn rejection_body(id: Seq<char>, note: Seq<char>) -> Seq<char> {
    "Rejected "@ + id + ": "@ + note
}

/// How rejecting leaves the store, and what comes of it: at a time, with an
/// identifier for a reply if one could be found.
pub open spec fn rejects(
    was: Store,
    is: Store,
    disk: Map<Seq<char>, FileModel>,
    name: Seq<char>,
    note: Option<Seq<char>>,
    id: std::result::Result<Seq<char>, ErrorModel>,
    now: i64,
    iso: Seq<char>,
    out: Result<Decision>,
) -> bool {
    let p = proposal_models(was.proposals@);
    let c = comment_models(was.comments@);
    let at = place_of(proposal_ids(p), name);
    if at >= p.len() {
        &&& out matches Err(e) && e@ == no_proposal(name)
        &&& is == was
    } else if !open_status(p[at].stored_status) {
        &&& out matches Err(e) && e@ == already(name, p[at].stored_status)
        &&& is == was
    } else {
        let said = note_of(note);
        let done = rejected_proposal(p[at], now, iso, said);
        let shown = decorated(done, is.blobs@, disk);
        &&& proposal_models(is.proposals@) == p.update(at, done)
        &&& match (p[at].addressing, said) {
            (Some(thread), Some(n)) => {
                let k = place_of(comment_ids(c), thread);
                if k >= c.len() {
                    &&& out matches Err(e) && e@ == no_comment(thread)
                    &&& is.comments == was.comments
                } else {
                    match id {
                        Err(cause) => {
                            &&& out matches Err(e) && e@ == cause
                            &&& is.comments == was.comments
                        },
                        Ok(given) => {
                            let r = new_reply(
                                given,
                                thread,
                                "you"@,
                                rejection_body(name, n),
                                now,
                                iso,
                            );
                            &&& out matches Ok(d) && decision_is(
                                d,
                                shown,
                                None,
                                None,
                                None,
                            )
                            &&& comment_models(is.comments@) == c.update(
                                k,
                                CommentModel { replies: c[k].replies.push(r), ..c[k] },
                            )
                        },
                    }
                }
            },
            _ => {
                &&& out matches Ok(d) && decision_is(d, shown, None, None, None)
                &&& is.comments == was.comments
            },
        }
    }
}

/// Rejects a proposal as of a moment. The note is the entire feedback channel
/// to agents, and it is enough: lists hold rejected proposals with their notes.
pub fn reject_at(
    store: &mut Store,
    disk: &Disk,
    proposal_id: &str,
    note: Option<&str>,
    id: Result<String>,
    now: i64,
    iso: &str,
) -> (out: Result<Decision>)
    ensures
        rejects(
            *old(store),
            *final(store),
            disk@,
            proposal_id@,
            opt_str_view(note),
            id_view(id),
            now,
            iso@,
            out,
        ),
        *final(store) == (Store {
            proposals: final(store).proposals,
            comments: final(store).comments,
            rate_events: final(store).rate_events,
            ..*old(store)
        }),
{
    let at: usize = find(&store.proposals, proposal_id);
    if at >= store.proposals.len() {
        return Err(missing(proposal_id));
    }
    let mut p = store.proposals[at].copy();
    if !p.stored_status.is_open() {
        return Err(decided_already(proposal_id, p.stored_status));
    }
    let said = match note {
        Some(n) => {
            let chars = chars_of(n);
            let trimmed = trim(&chars);
            if trimmed.len() > 0 {
                Some(string_of(trimmed))
            } else {
                None
            }
        },
        None => None,
    };
    p.status = Status::Rejected;
    p.stored_status = Status::Rejected;
    p.decided_at = Some(now);
    p.decided_at_iso = Some(iso.to_owned());
    p.decision_note = crate::text::copy_opt(&said);
    let shown = decorate(&p, store, disk);
    let addressing = crate::text::copy_opt(&p.addressing);
    let ghost was = proposal_models(store.proposals@);
    store.proposals.set(at, p);
    assert(proposal_models(store.proposals@) =~= was.update(at as int, p@));
    // Rejecting leaves the comment open and files the note into the thread, so
    // the agent gets the feedback where it is already looking.
    if let (Some(thread), Some(n)) = (&addressing, &said) {
        let cfg = Config::default();
        let mut body = "Rejected ".to_owned();
        body.append(proposal_id);
        body.append(": ");
        body.append(n.as_str());
        proof {
            reveal_strlit("Rejected ");
            assert(body@[0] == 'R');
            crate::text::lemma_not_blank(body@);
        }
        if let Err(e) = reply_at(
            store,
            &cfg,
            thread.as_str(),
            "you",
            body.as_str(),
            None,
            id,
            now,
            iso,
        ) {
            return Err(e);
        }
    }
    Ok(
        Decision {
            proposal: shown,
            snapshot: None,
            resolved_comment: None,
            applied_hunks: None,
        },
    )
}

/// Is this how a proposal is rejected?
pub open spec fn proposal_rejected(
    prior: Store,
    later: Store,
    disk: Disk,
    proposal_id: Seq<char>,
    note: Option<Seq<char>>,
    out: Result<Decision>,
) -> bool {
    &&& exists|id: std::result::Result<Seq<char>, ErrorModel>, now: i64, iso: Seq<char>|
            reply_id_or_none(comment_models(prior.comments@), id) && dated(now, iso)
                && #[trigger] rejects(
                prior,
                later,
                disk@,
                proposal_id,
                note,
                id,
                now,
                iso,
                out,
            )
    &&& later == (Store {
        proposals: later.proposals,
        comments: later.comments,
        rate_events: later.rate_events,
        ..prior
    })
}

/// Rejects a proposal now.
pub fn reject(store: &mut Store, disk: &Disk, proposal_id: &str, note: Option<&str>) -> (out: Result<
    Decision,
>)
    ensures
        proposal_rejected(
            *old(store),
            *final(store),
            *disk,
            proposal_id@,
            opt_str_view(note),
            out,
        ),
{
    let id = crate::comment::threads::fresh_reply_id(store);
    let now = now_ms();
    let iso = ms_to_rfc3339(now);
    let ghost name = id_view(id);
    assert(reply_id_or_none(comment_models(store.comments@), name));
    reject_at(store, disk, proposal_id, note, id, now, iso.as_str())
}

// ---------------------------------------------------------------------------
// Rebasing
// ---------------------------------------------------------------------------

/// What a proposal comes to on top of what is there now: nothing where nothing
/// moved, else the replayed text.
pub open spec fn rebased_text(
    p: ProposalModel,
    blobs: Map<Seq<char>, Seq<u8>>,
    disk: Map<Seq<char>, FileModel>,
) -> std::result::Result<Option<Seq<char>>, ErrorModel> {
    if !open_status(p.stored_status) {
        Err(ErrorModel::Invalid("only a pending proposal can be rebased"@))
    } else {
        let base = match p.base_blob_hash {
            Some(hash) => blob_text(blobs, hash),
            None => Some(Seq::empty()),
        };
        match base {
            None => Err(ErrorModel::NotFound("blob "@ + p.base_blob_hash->Some_0)),
            Some(before) => match blob_text(blobs, p.proposed_blob_hash) {
                None => Err(ErrorModel::NotFound("blob "@ + p.proposed_blob_hash)),
                Some(proposed) => match text_at(disk, p.path) {
                    None => Err(
                        ErrorModel::Conflict(p.display + " no longer exists on disk"@),
                    ),
                    Some(current) => if before == current {
                        Ok(None)
                    } else if !comparable(before, current) || !comparable(before, proposed) {
                        Err(unwieldy())
                    } else {
                        match replayed(before, current, proposed) {
                            Ok(text) => Ok(Some(text)),
                            Err(why) => Err(stuck(why)),
                        }
                    },
                },
            },
        }
    }
}

/// A proposal that has been rebased onto the newest version.
pub open spec fn rebased_proposal(
    p: ProposalModel,
    text: Seq<char>,
    base: Option<SnapshotModel>,
) -> ProposalModel {
    ProposalModel {
        proposed_blob_hash: text_hash(text),
        base_snapshot_id: match base {
            Some(b) => Some(b.id),
            None => None,
        },
        base_blob_hash: match base {
            Some(b) => Some(b.blob_hash),
            None => None,
        },
        ..p
    }
}

fn plan_rebase(store: &Store, disk: &Disk, p: &Proposal) -> (out: Result<Option<String>>)
    ensures
        match out {
            Ok(text) => rebased_text(p@, store.blobs@, disk@) == Ok::<
                Option<Seq<char>>,
                ErrorModel,
            >(opt_view(text)),
            Err(e) => rebased_text(p@, store.blobs@, disk@) == Err::<
                Option<Seq<char>>,
                ErrorModel,
            >(e@),
        },
{
    if !p.stored_status.is_open() {
        return Err(Error::invalid("only a pending proposal can be rebased"));
    }
    let before = match &p.base_blob_hash {
        Some(hash) => match store.blobs.get_text(hash.as_str()) {
            Ok(text) => text,
            Err(e) => {
                return Err(e);
            },
        },
        None => String::new(),
    };
    proof {
        if p.base_blob_hash is None {
            assert(before@ =~= Seq::<char>::empty());
        }
    }
    let proposed = match proposed_content(store, p) {
        Ok(text) => text,
        Err(e) => {
            return Err(e);
        },
    };
    let current = match disk.read_text(p.path.as_str()) {
        Some(text) => text,
        None => {
            let mut m = p.display.clone();
            m.append(" no longer exists on disk");
            return Err(Error::Conflict(m));
        },
    };
    if same_str(before.as_str(), current.as_str()) {
        return Ok(None);
    }
    if !can_compare(before.as_str(), current.as_str()) || !can_compare(
        before.as_str(),
        proposed.as_str(),
    ) {
        return Err(cannot_compare());
    }
    match replay(before.as_str(), current.as_str(), proposed.as_str()) {
        Ok(text) => Ok(Some(text)),
        Err(why) => Err(
            not_replayable(
                "cannot replay this proposal onto the current content: ",
                &why,
                ". Reject it and ask the agent to re-read.",
            ),
        ),
    }
}

/// Is this how a proposal is rebased?
pub open spec fn proposal_rebased(
    prior: Store,
    later: Store,
    disk: Disk,
    proposal_id: Seq<char>,
    out: Result<Proposal>,
) -> bool {
    &&& ({
        let p = proposal_models(prior.proposals@);
        let at = place_of(proposal_ids(p), proposal_id);
        if at >= p.len() {
            &&& out matches Err(e) && e@ == no_proposal(proposal_id)
            &&& later == prior
        } else {
            match rebased_text(p[at], prior.blobs@, disk@) {
                Err(why) => {
                    &&& out matches Err(e) && e@ == why
                    &&& later == prior
                },
                Ok(None) => {
                    &&& out matches Ok(r) && r@ == decorated(p[at], prior.blobs@, disk@)
                    &&& later == prior
                },
                Ok(Some(text)) => {
                    let s = snapshot_models(prior.snapshots@);
                    let done = rebased_proposal(
                        p[at],
                        text,
                        match newest(s, p[at].path, prior.host.drives) {
                            Some(i) => Some(s[i]),
                            None => None,
                        },
                    );
                    &&& later.blobs@ == with_blob(prior.blobs@, encode_utf8(text))
                    &&& proposal_models(later.proposals@) == p.update(at, done)
                    &&& out matches Ok(r) && r@ == decorated(done, later.blobs@, disk@)
                },
            }
        }
    })
    &&& later == (Store {
        proposals: later.proposals,
        blobs: later.blobs,
        ..prior
    })
}

/// Rebases a conflicting proposal onto the current content: the agent's change
/// is replayed on top of what is on disk now. If it will not replay, the
/// human is told, and rejecting remains the other option.
pub fn rebase(store: &mut Store, disk: &Disk, proposal_id: &str) -> (out: Result<Proposal>)
    ensures
        proposal_rebased(
            *old(store),
            *final(store),
            *disk,
            proposal_id@,
            out,
        ),
{
    let at: usize = find(&store.proposals, proposal_id);
    if at >= store.proposals.len() {
        return Err(missing(proposal_id));
    }
    let mut p = store.proposals[at].copy();
    let text = match plan_rebase(store, disk, &p) {
        Ok(Some(t)) => t,
        Ok(None) => {
            return Ok(decorate(&p, store, disk));
        },
        Err(e) => {
            return Err(e);
        },
    };
    let _ = store.blobs.put(text.as_str().as_bytes());
    let base = latest(store, p.path.as_str());
    p.proposed_blob_hash = hash_text(text.as_str());
    match base {
        Some(b) => {
            p.base_snapshot_id = Some(b.id);
            p.base_blob_hash = Some(b.blob_hash);
        },
        None => {
            p.base_snapshot_id = None;
            p.base_blob_hash = None;
        },
    }
    let out = decorate(&p, store, disk);
    let ghost was = proposal_models(store.proposals@);
    store.proposals.set(at, p);
    assert(proposal_models(store.proposals@) =~= was.update(at as int, p@));
    Ok(out)
}

// ---------------------------------------------------------------------------
// Laws
// ---------------------------------------------------------------------------

/// A decision is final: a proposal that was accepted or rejected can be neither
/// accepted again, with whatever hunks, nor rebased.
pub proof fn law_decisions_are_final(
    p: ProposalModel,
    blobs: Map<Seq<char>, Seq<u8>>,
    disk: Map<Seq<char>, FileModel>,
    hunks: Option<Seq<usize>>,
    now: i64,
    iso: Seq<char>,
    snapshot: Seq<char>,
    note: Option<Seq<char>>,
)
    ensures
        accepted_text(accepted_proposal(p, now, iso, snapshot), blobs, disk, hunks) == Err::<
            Seq<char>,
            ErrorModel,
        >(already(p.id, Status::Accepted)),
        accepted_text(rejected_proposal(p, now, iso, note), blobs, disk, hunks) == Err::<
            Seq<char>,
            ErrorModel,
        >(already(p.id, Status::Rejected)),
        rebased_text(accepted_proposal(p, now, iso, snapshot), blobs, disk) is Err,
        rebased_text(rejected_proposal(p, now, iso, note), blobs, disk) is Err,
        !open_status(accepted_proposal(p, now, iso, snapshot).stored_status),
        !open_status(rejected_proposal(p, now, iso, note).stored_status),
{
}

/// Accepting as a whole a proposal whose file did not move puts exactly the
/// proposed content in place. A selection of the hunks that are shown, between
/// what is on disk now and what was proposed, puts exactly those in place,
/// even if the file moved; it is refused only where one of them is not shown,
/// or where nothing would change.
pub proof fn law_accept_applies_what_was_reviewed(
    p: ProposalModel,
    blobs: Map<Seq<char>, Seq<u8>>,
    disk: Map<Seq<char>, FileModel>,
    proposed: Seq<char>,
    hunks: Option<Seq<usize>>,
)
    requires
        blob_text(blobs, p.proposed_blob_hash) == Some(proposed),
        text_at(disk, p.path) is Some,
        comparable(text_at(disk, p.path)->Some_0, proposed),
    ensures
        ({
            let current = text_at(disk, p.path)->Some_0;
            let shown = hunks_of(lines_of(current), lines_of(proposed), review_options());
            accepted_text(p, blobs, disk, hunks) matches Ok(text) ==> {
                &&& !moved(p.base_blob_hash, Some(current)) && hunks is None ==> text == proposed
                &&& hunks matches Some(selected) ==> text == applied_text(
                    current,
                    proposed,
                    shown,
                    selected,
                ) && forall|k: int|
                    0 <= k < selected.len() ==> known_hunk(shown, #[trigger] selected[k])
            }
        }),
        ({
            let current = text_at(disk, p.path)->Some_0;
            let shown = hunks_of(lines_of(current), lines_of(proposed), review_options());
            hunks matches Some(selected) ==> {
                let text = applied_text(current, proposed, shown, selected);
                open_status(p.stored_status) && text != current && (forall|k: int|
                    0 <= k < selected.len() ==> known_hunk(shown, #[trigger] selected[k]))
                    ==> accepted_text(p, blobs, disk, hunks) == Ok::<Seq<char>, ErrorModel>(text)
            }
        }),
{
    if accepted_text(p, blobs, disk, hunks) is Ok {
        let current = text_at(disk, p.path)->Some_0;
        let shown = hunks_of(lines_of(current), lines_of(proposed), review_options());
        if let Some(selected) = hunks {
            lemma_none_unknown(selected, shown);
        }
    }
    if let Some(selected) = hunks {
        let current = text_at(disk, p.path)->Some_0;
        let shown = hunks_of(lines_of(current), lines_of(proposed), review_options());
        if forall|k: int| 0 <= k < selected.len() ==> known_hunk(shown, #[trigger] selected[k]) {
            lemma_all_known(selected, shown);
        }
    }
}

proof fn lemma_all_known(selected: Seq<usize>, hunks: Seq<HunkModel>)
    requires
        forall|k: int| 0 <= k < selected.len() ==> known_hunk(hunks, #[trigger] selected[k]),
    ensures
        unknown_of(selected, hunks).len() == 0,
    decreases selected.len(),
{
    if selected.len() > 0 {
        let d = selected.drop_last();
        assert forall|k: int| 0 <= k < d.len() implies known_hunk(hunks, #[trigger] d[k]) by {
            assert(d[k] == selected[k]);
        }
        lemma_all_known(d, hunks);
        assert(known_hunk(hunks, selected[selected.len() - 1]));
    }
}

proof fn lemma_none_unknown(selected: Seq<usize>, hunks: Seq<HunkModel>)
    requires
        unknown_of(selected, hunks).len() == 0,
    ensures
        forall|k: int| 0 <= k < selected.len() ==> known_hunk(hunks, #[trigger] selected[k]),
    decreases selected.len(),
{
    if selected.len() > 0 {
        let d = selected.drop_last();
        lemma_none_unknown(d, hunks);
        assert forall|k: int| 0 <= k < selected.len() implies known_hunk(
            hunks,
            #[trigger] selected[k],
        ) by {
            if k < d.len() {
                assert(d[k] == selected[k]);
            }
        }
    }
}

/// Changing a thread keeps the identifiers in their places.
proof fn lemma_ids_stay(c: Seq<CommentModel>, k: int, changed: CommentModel)
    requires
        0 <= k < c.len(),
        changed.id == c[k].id,
    ensures
        comment_ids(c.update(k, changed)) == comment_ids(c),
{
    assert(comment_ids(c.update(k, changed)) =~= comment_ids(c));
}

/// Accepting closes the loop: the thread that the proposal answers is settled,
/// and no other thread changes.
pub proof fn law_accepting_settles_the_thread(
    prior: Store,
    later: Store,
    old_disk: Disk,
    new_disk: Disk,
    cfg: Config,
    at: ResolvedModel,
    id: Seq<char>,
    hunks: Option<Seq<usize>>,
    d: Decision,
    thread: Seq<char>,
)
    requires
        proposal_accepted(prior, later, old_disk, new_disk, cfg, at, id, hunks, Ok(d)),
        ({
            let p = proposal_models(prior.proposals@);
            p[place_of(proposal_ids(p), id)].addressing == Some(thread)
        }),
    ensures
        opt_view(d.resolved_comment) == Some(thread),
        ({
            let was = comment_models(prior.comments@);
            let is = comment_models(later.comments@);
            let k = place_of(comment_ids(is), thread);
            &&& listed(comment_ids(is), thread)
            &&& is[k].resolved_at is Some
            &&& is.len() == was.len()
            &&& forall|i: int| 0 <= i < is.len() && i != k ==> #[trigger] is[i] == was[i]
        }),
{
    let (name, now, iso) = choose|
        name: std::result::Result<Seq<char>, ErrorModel>,
        now: i64,
        iso: Seq<char>,
    |
        fresh_or_none(snapshot_models(prior.snapshots@), name) && dated(now, iso)
            && #[trigger] accepts(
            prior,
            later,
            old_disk@,
            new_disk@,
            cfg,
            at,
            id,
            hunks,
            name,
            now,
            iso,
            Ok(d),
        );
    let c = comment_models(prior.comments@);
    let k = place_of(comment_ids(c), thread);
    lemma_place_facts(comment_ids(c), thread);
    lemma_ids_stay(c, k, settled(c[k], "you"@, now));
}

/// Rejecting leaves the thread that the proposal answered as open as it was,
/// and files the note into it as a reply.
pub proof fn law_rejecting_files_the_note(
    prior: Store,
    later: Store,
    disk: Disk,
    id: Seq<char>,
    note: Seq<char>,
    d: Decision,
    thread: Seq<char>,
)
    requires
        proposal_rejected(prior, later, disk, id, Some(note), Ok(d)),
        trim_of(note).len() > 0,
        ({
            let p = proposal_models(prior.proposals@);
            p[place_of(proposal_ids(p), id)].addressing == Some(thread)
        }),
    ensures
        ({
            let was = comment_models(prior.comments@);
            let is = comment_models(later.comments@);
            let k = place_of(comment_ids(was), thread);
            &&& listed(comment_ids(was), thread)
            &&& place_of(comment_ids(is), thread) == k
            &&& is[k].resolved_at == was[k].resolved_at
            &&& is[k].replies.len() == was[k].replies.len() + 1
            &&& is[k].replies.drop_last() == was[k].replies
            &&& is[k].replies.last().body == rejection_body(id, trim_of(note))
            &&& is[k].replies.last().author == "you"@
        }),
{
    let (name, now, iso) = choose|
        name: std::result::Result<Seq<char>, ErrorModel>,
        now: i64,
        iso: Seq<char>,
    |
        reply_id_or_none(comment_models(prior.comments@), name) && dated(now, iso)
            && #[trigger] rejects(
            prior,
            later,
            disk@,
            id,
            Some(note),
            name,
            now,
            iso,
            Ok(d),
        );
    let c = comment_models(prior.comments@);
    let k = place_of(comment_ids(c), thread);
    lemma_place_facts(comment_ids(c), thread);
    let r = new_reply(name->Ok_0, thread, "you"@, rejection_body(id, trim_of(note)), now, iso);
    let body = rejection_body(id, trim_of(note));
    reveal_strlit("Rejected ");
    reveal_strlit(": ");
    crate::text::lemma_trim_end_last(crate::text::trim_start_of(note));
    assert(body[0] == 'R');
    assert(body.last() == trim_of(note).last());
    assert(trim_of(body) == body);
    let changed = CommentModel { replies: c[k].replies.push(r), ..c[k] };
    lemma_ids_stay(c, k, changed);
    assert(note_of(Some(note)) == Some(trim_of(note)));
    assert(comment_models(later.comments@) == c.update(k, changed));
    assert(changed.replies.drop_last() =~= c[k].replies);
}

/// Rejections carry reasons: a rejected proposal is read back as rejected,
/// with the note.
pub proof fn law_rejection_is_read_back(
    prior: Store,
    later: Store,
    disk: Disk,
    id: Seq<char>,
    note: Option<Seq<char>>,
    d: Decision,
    read: Result<Proposal>,
)
    requires
        proposal_rejected(prior, later, disk, id, note, Ok(d)),
        proposal_got(later, disk, id, read),
    ensures
        read matches Ok(p) && p@.status == Status::Rejected && p@.decision_note == note_of(note),
{
    let (name, now, iso) = choose|
        name: std::result::Result<Seq<char>, ErrorModel>,
        now: i64,
        iso: Seq<char>,
    |
        reply_id_or_none(comment_models(prior.comments@), name) && dated(now, iso)
            && #[trigger] rejects(
            prior,
            later,
            disk@,
            id,
            note,
            name,
            now,
            iso,
            Ok(d),
        );
    let p = proposal_models(prior.proposals@);
    let at = place_of(proposal_ids(p), id);
    lemma_place_facts(proposal_ids(p), id);
    let done = rejected_proposal(p[at], now, iso, note_of(note));
    assert(proposal_ids(p.update(at, done)) =~= proposal_ids(p));
}

/// Accepting puts the accepted text on disk, in the one document that was
/// resolved, and leaves every other file as it is. The proposal reads as
/// accepted, the others as before, and history has kept all it had and at most
/// one version more.
pub proof fn law_accepting_writes_one_document(
    prior: Store,
    later: Store,
    old_disk: Disk,
    new_disk: Disk,
    cfg: Config,
    at: ResolvedModel,
    id: Seq<char>,
    hunks: Option<Seq<usize>>,
    d: Decision,
) -> (text: Seq<char>)
    requires
        proposal_accepted(prior, later, old_disk, new_disk, cfg, at, id, hunks, Ok(d)),
    ensures
        ({
            let p = proposal_models(prior.proposals@);
            let q = proposal_models(later.proposals@);
            let k = place_of(proposal_ids(p), id);
            &&& 0 <= k < p.len() == q.len()
            &&& p[k].id == id
            &&& accepted_text(p[k], prior.blobs@, old_disk@, hunks) == Ok::<Seq<char>, ErrorModel>(
                text,
            )
            &&& new_disk@.dom().contains(at.path)
            &&& new_disk@[at.path].bytes == encode_utf8(text)
            &&& forall|path: Seq<char>|
                path != at.path ==> (#[trigger] new_disk@.dom().contains(path)
                    <==> old_disk@.dom().contains(path)) && (old_disk@.dom().contains(path)
                    ==> new_disk@[path] == old_disk@[path])
            &&& q[k].stored_status == Status::Accepted
            &&& d.proposal@.status == Status::Accepted
            &&& d.proposal@.id == id
            &&& (ProposalModel {
                status: p[k].status,
                stored_status: p[k].stored_status,
                decided_at: p[k].decided_at,
                decided_at_iso: p[k].decided_at_iso,
                result_snapshot_id: p[k].result_snapshot_id,
                ..q[k]
            }) == p[k]
            &&& forall|i: int| 0 <= i < p.len() && i != k ==> #[trigger] q[i] == p[i]
            &&& d.snapshot is Some
            &&& q[k].result_snapshot_id == Some(d.snapshot->0@.id)
            &&& snapshot_models(later.snapshots@).len() <= snapshot_models(
                prior.snapshots@,
            ).len() + 1
            &&& snapshot_models(prior.snapshots@).is_prefix_of(snapshot_models(later.snapshots@))
        }),
{
    let (name, now, iso) = choose|
        name: std::result::Result<Seq<char>, ErrorModel>,
        now: i64,
        iso: Seq<char>,
    |
        fresh_or_none(snapshot_models(prior.snapshots@), name) && dated(now, iso)
            && #[trigger] accepts(
            prior,
            later,
            old_disk@,
            new_disk@,
            cfg,
            at,
            id,
            hunks,
            name,
            now,
            iso,
            Ok(d),
        );
    let p = proposal_models(prior.proposals@);
    let k = place_of(proposal_ids(p), id);
    lemma_place_facts(proposal_ids(p), id);
    assert(proposal_ids(p)[k] == id);
    let text = accepted_text(p[k], prior.blobs@, old_disk@, hunks)->Ok_0;
    crate::version::restore::law_history_only_grows(
        snapshot_models(prior.snapshots@),
        prior.blobs@,
        prior.host@,
        cfg,
        accept_request(p[k], at, text, now),
        name,
        now,
        iso,
    );
    text
}

/// Rejecting touches no document and no version: it marks the one proposal as
/// rejected, with the note, and leaves the others as they are.
pub proof fn law_rejecting_marks_one_proposal(
    prior: Store,
    later: Store,
    disk: Disk,
    id: Seq<char>,
    note: Option<Seq<char>>,
    d: Decision,
)
    requires
        proposal_rejected(prior, later, disk, id, note, Ok(d)),
    ensures
        ({
            let p = proposal_models(prior.proposals@);
            let q = proposal_models(later.proposals@);
            let k = place_of(proposal_ids(p), id);
            &&& 0 <= k < p.len() == q.len()
            &&& p[k].id == id
            &&& p[k].stored_status == Status::Pending || p[k].stored_status == Status::Conflict
            &&& q[k].stored_status == Status::Rejected
            &&& q[k].proposed_blob_hash == p[k].proposed_blob_hash
            &&& q[k].base_blob_hash == p[k].base_blob_hash
            &&& q[k].path == p[k].path
            &&& forall|i: int| 0 <= i < p.len() && i != k ==> #[trigger] q[i] == p[i]
            &&& later.snapshots == prior.snapshots
            &&& later.blobs == prior.blobs
            &&& d.snapshot is None
        }),
{
    let (name, now, iso) = choose|
        name: std::result::Result<Seq<char>, ErrorModel>,
        now: i64,
        iso: Seq<char>,
    |
        reply_id_or_none(comment_models(prior.comments@), name) && dated(now, iso)
            && #[trigger] rejects(prior, later, disk@, id, note, name, now, iso, Ok(d));
    let p = proposal_models(prior.proposals@);
    let k = place_of(proposal_ids(p), id);
    lemma_place_facts(proposal_ids(p), id);
    assert(proposal_ids(p)[k] == id);
}

/// A proposal whose file moved loses nobody's edit: what accepting it as a
/// whole puts in place is made of lines in which every stretch that the file
/// changed since the base, and every stretch that the proposal changed, stands
/// as it was written.
pub proof fn law_replaying_keeps_both_edits(
    base: Seq<char>,
    current: Seq<char>,
    proposed: Seq<char>,
    text: Seq<char>,
) -> (lines: Seq<Seq<char>>)
    requires
        replayed(base, current, proposed) == Ok::<Seq<char>, ErrorModel>(text),
    ensures
        text == document_of(
            lines,
            ends_in_newline(current) && (ends_in_newline(proposed) || ends_in_newline(base)),
            newline_of(current),
        ),
        forall|a: int|
            0 <= a < changed(lines_of(base), lines_of(current)).len() ==> stand_in(
                lines,
                cut(
                    lines_of(current),
                    (#[trigger] changed(lines_of(base), lines_of(current))[a]).new_start,
                    changed(lines_of(base), lines_of(current))[a].new_end,
                ),
            ),
        forall|b: int|
            0 <= b < changed(lines_of(base), lines_of(proposed)).len() ==> stand_in(
                lines,
                cut(
                    lines_of(proposed),
                    (#[trigger] changed(lines_of(base), lines_of(proposed))[b]).new_start,
                    changed(lines_of(base), lines_of(proposed))[b].new_end,
                ),
            ),
{
    let lines = merge_of(lines_of(base), lines_of(current), lines_of(proposed))->Lines_0;
    law_merge_keeps_both_sides(lines_of(base), lines_of(current), lines_of(proposed), lines);
    lines
}

/// Rebasing settles a conflict: a proposal that was replayed onto what the file
/// holds, and whose base is now the version with that content, waits again
/// without one, asks for the replayed text, and is otherwise what it was.
pub proof fn law_rebasing_settles_the_conflict(
    p: ProposalModel,
    text: Seq<char>,
    base: SnapshotModel,
    blobs: Map<Seq<char>, Seq<u8>>,
    disk: Map<Seq<char>, FileModel>,
)
    requires
        p.stored_status == Status::Pending,
        text_at(disk, p.path) is Some,
        base.blob_hash == text_hash(text_at(disk, p.path)->0),
    ensures
        ({
            let done = rebased_proposal(p, text, Some(base));
            &&& decorated(done, blobs, disk).status == Status::Pending
            &&& done.proposed_blob_hash == text_hash(text)
            &&& done.base_snapshot_id == Some(base.id)
            &&& done.path == p.path
            &&& done.author == p.author
            &&& done.addressing == p.addressing
            &&& done.id == p.id
        }),
{
}

} // verus!
