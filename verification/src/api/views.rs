//! Looking things up: roots, versions, proposals under review, rendered
//! prompts, validation reports.

use super::docs::{current_text, doc_models, doc_summaries, read_current, rows_of, summaries, DocModel};
use super::tasks::{editable_text, read_editable};
use crate::artifact::finding::Validation;
use crate::artifact::frontmatter::body_text;
use crate::artifact::prompt::{
    declared_variables, render, rendered, used_slots, variable_models, variables_of, VariableSpec,
};
use crate::artifact::yaml::member_models;
use crate::comment::threads::{comment_ids, no_comment, read_thread};
use crate::comment::types::{comment_models, Comment};
use crate::config::Config;
use crate::corpus::roots::{added_earlier, list_roots};
use crate::corpus::types::{root_models, Resolved, ResolvedModel, Root};
use crate::corpus::typing::slots_of;
use crate::corpus::ArtifactType;
use crate::diff::changes::{can_compare, cannot_compare, comparable, unwieldy};
use crate::diff::hunks::{diff_text, is_diff, least, lemma_plain, Diff};
use crate::diff::unified::{grouped_diff, unified, unified_of};
use crate::disk::{text_at, Disk, FileModel};
use crate::error::{Error, ErrorModel, Result};
use crate::json::{json_text, model, to_text, Json, JsonModel};
use crate::order::sorted;
use crate::proposal::read::{
    decorated, no_proposal, or_empty, proposal_ids, review_diff, review_options, review_refusal,
};
use crate::proposal::types::{proposal_models, Proposal};
use crate::store::blobs::blob_text;
use crate::store::Store;
use crate::table::{listed, place_of};
use crate::text::{opt_view, views};
use crate::util::{display_of, display_path, lines_of};
use crate::version::history::{
    content, count_docs, law_latest_heads_timeline, recorded_paths, referred, resolve_ref, timeline,
};
use crate::version::types::{snapshot_models, Snapshot, SnapshotModel};
use vstd::prelude::*;

verus! {

// ---------------------------------------------------------------------------
// Roots
// ---------------------------------------------------------------------------

/// A root and how many documents it holds.
#[derive(Debug)]
pub struct RootView {
    pub root: Root,
    pub docs: usize,
}

/// Are these the roots as they are listed?
pub open spec fn roots_viewed(
    store: Store,
    out: Vec<RootView>,
) -> bool {
    let roots = sorted(root_models(store.roots@), added_earlier());
    &&& out@.len() == roots.len()
    &&& forall|i: int|
        0 <= i < roots.len() ==> (#[trigger] out@[i]).root@ == roots[i] && out@[i].docs
            == recorded_paths(
            snapshot_models(store.snapshots@),
            Some(roots[i].id),
            store.host.drives,
        ).len()
}

/// The roots with their documents, as they are listed.
pub fn root_views(store: &Store) -> (out: Vec<RootView>)
    ensures
        roots_viewed(
            *store,
            out,
        ),
{
    let roots = list_roots(store);
    let ghost all = root_models(roots@);
    let mut out: Vec<RootView> = Vec::new();
    let mut i: usize = 0;
    while i < roots.len()
        invariant
            i <= roots@.len(),
            all == root_models(roots@),
            out@.len() == i,
            forall|k: int|
                0 <= k < i ==> (#[trigger] out@[k]).root@ == all[k] && out@[k].docs
                    == recorded_paths(
                    snapshot_models(store.snapshots@),
                    Some(all[k].id),
                    store.host.drives,
                ).len(),
        decreases roots@.len() - i,
    {
        assert(all[i as int] == roots@[i as int]@);
        let docs = count_docs(store, roots[i].id.as_str());
        out.push(RootView { root: roots[i].copy(), docs: docs });
        i += 1;
    }
    out
}

// ---------------------------------------------------------------------------
// Versions
// ---------------------------------------------------------------------------

/// The version that a reference means and its text, or what is wrong.
pub open spec fn version_text(
    store: Store,
    path: Seq<char>,
    reference: Seq<char>,
) -> std::result::Result<(SnapshotModel, Seq<char>), ErrorModel> {
    match referred(snapshot_models(store.snapshots@), path, reference, store.host.drives) {
        Err(why) => Err(why),
        Ok(s) => match blob_text(store.blobs@, s.blob_hash) {
            Some(text) => Ok((s, text)),
            None => Err(ErrorModel::NotFound("blob "@ + s.blob_hash)),
        },
    }
}

/// A reference, else a default.
pub open spec fn reference_or(reference: Option<Seq<char>>, default: Seq<char>) -> Seq<char> {
    match reference {
        Some(r) => r,
        None => default,
    }
}

/// Is this the version that a reference means, with its text?
pub open spec fn version_read(
    store: Store,
    path: Seq<char>,
    reference: Option<Seq<char>>,
    out: Result<(Snapshot, String)>,
) -> bool {
    let want = version_text(store, path, reference_or(reference, ""@));
    match out {
        Ok((s, text)) => want == Ok::<(SnapshotModel, Seq<char>), ErrorModel>(
            (s@, text@),
        ) && text@.len() <= store.blobs@[s@.blob_hash].len(),
        Err(e) => want == Err::<(SnapshotModel, Seq<char>), ErrorModel>(e@),
    }
}

/// A version with its text. Without a reference, the newest.
pub fn read_version(store: &Store, path: &str, reference: Option<String>) -> (out: Result<
    (Snapshot, String),
>)
    ensures
        version_read(
            *store,
            path@,
            opt_view(reference),
            out,
        ),
{
    let wanted = match reference {
        Some(r) => r,
        None => "".to_owned(),
    };
    match resolve_ref(store, path, wanted.as_str()) {
        Err(e) => Err(e),
        Ok(s) => match content(store, &s) {
            Ok(text) => Ok((s, text)),
            Err(e) => Err(e),
        },
    }
}

/// Two versions of a document and how they differ.
#[derive(Debug)]
pub struct VersionDiff {
    pub from: Snapshot,
    pub to: Snapshot,
    pub old: String,
    pub new: String,
    pub diff: Diff,
    pub unified: String,
}

/// The first of two things that are wrong, both versions being looked up
/// before either text is.
pub open spec fn diff_refusal(
    store: Store,
    path: Seq<char>,
    from: Seq<char>,
    to: Seq<char>,
) -> Option<ErrorModel> {
    let s = snapshot_models(store.snapshots@);
    match referred(s, path, from, store.host.drives) {
        Err(why) => Some(why),
        Ok(_) => match referred(s, path, to, store.host.drives) {
            Err(why) => Some(why),
            Ok(_) => match version_text(store, path, from) {
                Err(why) => Some(why),
                Ok((_, old)) => match version_text(store, path, to) {
                    Err(why) => Some(why),
                    Ok((_, new)) => if comparable(old, new) {
                        None
                    } else {
                        Some(unwieldy())
                    },
                },
            },
        },
    }
}

/// Are these the two versions, and how they differ?
pub open spec fn is_version_diff(
    d: VersionDiff,
    store: Store,
    path: Seq<char>,
    from: Seq<char>,
    to: Seq<char>,
) -> bool {
    &&& version_text(store, path, from) == Ok::<(SnapshotModel, Seq<char>), ErrorModel>(
        (d.from@, d.old@),
    )
    &&& version_text(store, path, to) == Ok::<(SnapshotModel, Seq<char>), ErrorModel>(
        (d.to@, d.new@),
    )
    &&& is_diff(d.diff, lines_of(d.old@), lines_of(d.new@), review_options())
    &&& d.unified@ == unified_of(
        grouped_diff(d.old@, d.new@, 3),
        "a/"@ + d.from@.display,
        "b/"@ + d.to@.display,
    )
}

/// Is this how two versions differ?
pub open spec fn versions_compared(
    store: Store,
    path: Seq<char>,
    from: Option<Seq<char>>,
    to: Option<Seq<char>>,
    out: Result<VersionDiff>,
) -> bool {
    let a = reference_or(from, "~1"@);
    let b = reference_or(to, "latest"@);
    match out {
        Ok(d) => diff_refusal(store, path, a, b) is None && is_version_diff(
            d,
            store,
            path,
            a,
            b,
        ),
        Err(e) => diff_refusal(store, path, a, b) == Some(e@),
    }
}

/// How two versions of a document differ. Without references, how the newest
/// differs from the one before it.
pub fn diff_versions(store: &Store, path: &str, from: Option<String>, to: Option<String>) -> (out:
    Result<VersionDiff>)
    ensures
        versions_compared(
            *store,
            path@,
            opt_view(from),
            opt_view(to),
            out,
        ),
{
    let a = match from {
        Some(r) => r,
        None => "~1".to_owned(),
    };
    let b = match to {
        Some(r) => r,
        None => "latest".to_owned(),
    };
    let first = match resolve_ref(store, path, a.as_str()) {
        Ok(s) => s,
        Err(e) => {
            return Err(e);
        },
    };
    let second = match resolve_ref(store, path, b.as_str()) {
        Ok(s) => s,
        Err(e) => {
            return Err(e);
        },
    };
    let old_text = match content(store, &first) {
        Ok(t) => t,
        Err(e) => {
            return Err(e);
        },
    };
    let new_text = match content(store, &second) {
        Ok(t) => t,
        Err(e) => {
            return Err(e);
        },
    };
    if !can_compare(old_text.as_str(), new_text.as_str()) {
        return Err(cannot_compare());
    }
    let diff = diff_text(old_text.as_str(), new_text.as_str());
    let mut left = "a/".to_owned();
    left.append(first.display.as_str());
    let mut right = "b/".to_owned();
    right.append(second.display.as_str());
    let shown = unified(
        old_text.as_str(),
        new_text.as_str(),
        left.as_str(),
        right.as_str(),
        3,
    );
    Ok(
        VersionDiff {
            from: first,
            to: second,
            old: old_text,
            new: new_text,
            diff: diff,
            unified: shown,
        },
    )
}

// ---------------------------------------------------------------------------
// Proposals
// ---------------------------------------------------------------------------

/// A proposal under review.
#[derive(Debug)]
pub struct ProposalReview {
    pub proposal: Proposal,
    pub current: String,
    pub proposed: String,
    pub diff: Diff,
    /// The thread that it addresses, where it is still there.
    pub addresses: Option<Comment>,
}

/// The thread that a proposal addresses, where it is still there.
pub open spec fn addressed_thread(
    store: Store,
    disk: Map<Seq<char>, FileModel>,
    id: Option<Seq<char>>,
) -> Option<crate::comment::CommentModel> {
    let all = comment_models(store.comments@);
    match id {
        Some(c) => if listed(comment_ids(all), c) {
            Some(read_thread(all[place_of(comment_ids(all), c)], disk))
        } else {
            None
        },
        None => None,
    }
}

pub open spec fn opt_comment(c: Option<Comment>) -> Option<crate::comment::CommentModel> {
    match c {
        Some(c) => Some(c@),
        None => None,
    }
}

/// Is this what there is to see of a proposal?
pub open spec fn proposal_shown(
    store: Store,
    disk: Disk,
    id: Seq<char>,
    out: Result<ProposalReview>,
) -> bool {
    let all = proposal_models(store.proposals@);
    let p = decorated(all[place_of(proposal_ids(all), id)], store.blobs@, disk@);
    match out {
        Ok(r) => {
            &&& listed(proposal_ids(all), id)
            &&& r.proposal@ == p
            &&& r.current@ == or_empty(text_at(disk@, p.path))
            &&& blob_text(store.blobs@, p.proposed_blob_hash) == Some(r.proposed@)
            &&& comparable(r.current@, r.proposed@)
            &&& is_diff(
                r.diff,
                lines_of(r.current@),
                lines_of(r.proposed@),
                review_options(),
            )
            &&& opt_comment(r.addresses) == addressed_thread(
                store,
                disk@,
                p.addressing,
            )
        },
        Err(e) => if listed(proposal_ids(all), id) {
            review_refusal(p, store.blobs@, disk@) == Some(e@)
        } else {
            e@ == no_proposal(id)
        },
    }
}

/// What there is to review of a proposal.
pub fn proposal_diff(store: &Store, disk: &Disk, id: &str) -> (out: Result<ProposalReview>)
    ensures
        proposal_shown(
            *store,
            *disk,
            id@,
            out,
        ),
{
    let proposal = match crate::proposal::read::get(store, disk, id) {
        Ok(p) => p,
        Err(e) => {
            return Err(e);
        },
    };
    let (current, proposed, diff) = match review_diff(store, disk, &proposal) {
        Ok(parts) => parts,
        Err(e) => {
            return Err(e);
        },
    };
    let addresses = match &proposal.addressing {
        Some(c) => match crate::comment::threads::get(store, disk, c.as_str()) {
            Ok(thread) => Some(thread),
            Err(_) => None,
        },
        None => None,
    };
    Ok(
        ProposalReview {
            proposal: proposal,
            current: current,
            proposed: proposed,
            diff: diff,
            addresses: addresses,
        },
    )
}

/// Is this how a thread is removed?
pub open spec fn comment_deleted(
    prior: Store,
    later: Store,
    disk: Disk,
    id: Seq<char>,
    out: Result<Comment>,
) -> bool {
    &&& ({
        let was = comment_models(prior.comments@);
        let at = place_of(comment_ids(was), id);
        match out {
            Ok(c) => listed(comment_ids(was), id) && c@ == read_thread(was[at], disk@)
                && comment_models(later.comments@) == was.remove(at),
            Err(e) => !listed(comment_ids(was), id) && e@ == no_comment(id)
                && later == prior,
        }
    })
    &&& later == (Store { comments: later.comments, ..prior })
}

/// Removes a thread, and hands it out as it last was.
pub fn delete_comment(store: &mut Store, disk: &Disk, id: &str) -> (out: Result<Comment>)
    ensures
        comment_deleted(
            *old(store),
            *final(store),
            *disk,
            id@,
            out,
        ),
{
    match crate::comment::threads::get(store, disk, id) {
        Ok(c) => match crate::comment::threads::delete(store, id) {
            Ok(_) => Ok(c),
            Err(e) => Err(e),
        },
        Err(e) => Err(e),
    }
}

// ---------------------------------------------------------------------------
// Prompts
// ---------------------------------------------------------------------------

/// A prompt with its variables filled in.
#[derive(Debug)]
pub struct RenderedPrompt {
    pub path: String,
    pub display: String,
    pub rendered: String,
    pub declared: Vec<VariableSpec>,
    pub used: Vec<String>,
}

/// The variables that are passed along: an object, or nothing.
pub open spec fn variables_in(v: Option<JsonModel>) -> std::result::Result<
    Seq<(Seq<char>, JsonModel)>,
    ErrorModel,
> {
    match v {
        Some(JsonModel::Object(members)) => Ok(members),
        Some(JsonModel::Null) => Ok(Seq::empty()),
        None => Ok(Seq::empty()),
        Some(other) => Err(
            ErrorModel::Invalid("`variables` must be an object, got "@ + json_text(other)),
        ),
    }
}

/// What a prompt is rendered as, or what keeps it from being rendered.
pub open spec fn render_plan(
    current: std::result::Result<Seq<char>, ErrorModel>,
    variables: Option<JsonModel>,
) -> std::result::Result<Seq<char>, ErrorModel> {
    match current {
        Err(why) => Err(why),
        Ok(text) => match variables_in(variables) {
            Err(why) => Err(why),
            Ok(members) => rendered(text, members),
        },
    }
}

fn take_variables(variables: Option<Json>) -> (out: Result<Vec<(String, Json)>>)
    ensures
        match (out, variables_in(super::request::opt_model(variables))) {
            (Ok(m), Ok(want)) => member_models(m@) == want,
            (Err(e), Err(why)) => e@ == why,
            _ => false,
        },
{
    match variables {
        Some(Json::Object(members)) => {
            assert(model(Json::Object(members))->Object_0 =~= member_models(members@));
            Ok(members)
        },
        Some(Json::Null) | None => {
            let none: Vec<(String, Json)> = Vec::new();
            assert(member_models(none@) =~= Seq::empty());
            Ok(none)
        },
        Some(other) => {
            let mut m = "`variables` must be an object, got ".to_owned();
            m.append(to_text(&other).as_str());
            Err(Error::Invalid(m))
        },
    }
}

/// Is this how a prompt is rendered?
pub open spec fn prompt_rendered(
    store: Store,
    disk: Disk,
    cfg: Config,
    at: ResolvedModel,
    variables: Option<JsonModel>,
    out: Result<RenderedPrompt>,
) -> bool {
    let current = current_text(store, disk@, cfg, at.path);
    let want = render_plan(current, variables);
    match out {
        Ok(r) => {
            &&& want == Ok::<Seq<char>, ErrorModel>(r.rendered@)
            &&& r.path@ == at.path
            &&& r.display@ == display_of(at.path, store.host@)
            &&& variable_models(r.declared@) == variables_of(current->Ok_0)
            &&& views(r.used@) == slots_of(body_text(current->Ok_0))
        },
        Err(e) => want == Err::<Seq<char>, ErrorModel>(e@),
    }
}

/// Renders a prompt.
pub fn render_prompt(
    store: &Store,
    disk: &Disk,
    cfg: &Config,
    resolved: &Resolved,
    variables: Option<Json>,
) -> (out: Result<RenderedPrompt>)
    ensures
        prompt_rendered(
            *store,
            *disk,
            *cfg,
            resolved@,
            super::request::opt_model(variables),
            out,
        ),
{
    let content = match read_current(store, disk, cfg, resolved) {
        Ok(text) => text,
        Err(e) => {
            return Err(e);
        },
    };
    let members = match take_variables(variables) {
        Ok(m) => m,
        Err(e) => {
            return Err(e);
        },
    };
    match render(content.as_str(), &members) {
        Ok(text) => Ok(
            RenderedPrompt {
                path: resolved.path.clone(),
                display: display_path(resolved.path.as_str(), &store.host),
                rendered: text,
                declared: declared_variables(content.as_str()),
                used: used_slots(content.as_str()),
            },
        ),
        Err(e) => Err(e),
    }
}

// ---------------------------------------------------------------------------
// Validation
// ---------------------------------------------------------------------------

/// A document with its text.
#[derive(Debug)]
pub struct Readable {
    pub path: String,
    pub text: String,
}

/// What a readable document is.
pub struct ReadableModel {
    pub path: Seq<char>,
    pub text: Seq<char>,
}

pub open spec fn readable_models(docs: Seq<Readable>) -> Seq<ReadableModel> {
    Seq::new(docs.len(), |i: int| ReadableModel { path: docs[i].path@, text: docs[i].text@ })
}

/// The documents that are on disk and not too large, with their texts.
pub open spec fn readable(
    docs: Seq<DocModel>,
    disk: Map<Seq<char>, FileModel>,
    cfg: Config,
) -> Seq<ReadableModel>
    decreases docs.len(),
{
    if docs.len() == 0 {
        Seq::empty()
    } else {
        let before = readable(docs.drop_last(), disk, cfg);
        match editable_text(disk, cfg, docs.last().path) {
            Some(text) => before.push(ReadableModel { path: docs.last().path, text: text }),
            None => before,
        }
    }
}

/// The documents of a type that can be validated.
pub fn to_validate(store: &Store, disk: &Disk, cfg: &Config, ty: ArtifactType) -> (out: Vec<
    Readable,
>)
    ensures
        readable_models(out@) == readable(
            summaries(
                *store,
                disk@,
                rows_of(snapshot_models(store.snapshots@), store.host.drives),
                None,
                Some(ty),
            ),
            disk@,
            *cfg,
        ),
{
    let docs = doc_summaries(store, disk, None, Some(ty));
    let ghost all = doc_models(docs@);
    let mut out: Vec<Readable> = Vec::new();
    let mut i: usize = 0;
    assert(readable_models(out@) =~= readable(all.take(0), disk@, *cfg));
    while i < docs.len()
        invariant
            i <= docs@.len(),
            all == doc_models(docs@),
            readable_models(out@) == readable(all.take(i as int), disk@, *cfg),
        decreases docs@.len() - i,
    {
        assert(all.take(i + 1).drop_last() =~= all.take(i as int));
        assert(all.take(i + 1).last() == docs@[i as int]@);
        if let Some(text) = read_editable(disk, cfg, docs[i].path.as_str()) {
            let ghost before = readable_models(out@);
            let r = Readable { path: docs[i].path.clone(), text: text };
            out.push(r);
            assert(readable_models(out@) =~= before.push(
                ReadableModel { path: r.path@, text: r.text@ },
            ));
        }
        i += 1;
    }
    assert(all.take(i as int) =~= all);
    out
}

/// How many errors some reports hold.
pub open spec fn errors_in(reports: Seq<Validation>) -> nat
    decreases reports.len(),
{
    if reports.len() == 0 {
        0
    } else {
        errors_in(reports.drop_last()) + reports.last().errors as nat
    }
}

/// How many warnings some reports hold.
pub open spec fn warnings_in(reports: Seq<Validation>) -> nat
    decreases reports.len(),
{
    if reports.len() == 0 {
        0
    } else {
        warnings_in(reports.drop_last()) + reports.last().warnings as nat
    }
}

/// How many errors and warnings some reports hold, as far as can be counted.
pub fn totals(reports: &[Validation]) -> (out: (usize, usize))
    ensures
        out.0 == least(errors_in(reports@) as int, usize::MAX as int),
        out.1 == least(warnings_in(reports@) as int, usize::MAX as int),
{
    let ghost all = reports@;
    let mut errors: usize = 0;
    let mut warnings: usize = 0;
    let mut i: usize = 0;
    while i < reports.len()
        invariant
            i <= reports@.len(),
            all == reports@,
            errors == least(errors_in(all.take(i as int)) as int, usize::MAX as int),
            warnings == least(warnings_in(all.take(i as int)) as int, usize::MAX as int),
        decreases reports@.len() - i,
    {
        assert(all.take(i + 1).drop_last() =~= all.take(i as int));
        errors = errors.saturating_add(reports[i].errors);
        warnings = warnings.saturating_add(reports[i].warnings);
        i += 1;
    }
    assert(all.take(i as int) =~= all);
    (errors, warnings)
}

/// Versions are compared from the older to the newer: without references, what
/// was before the newest version on the left and the newest on the right. The
/// comparison is of their own contents, so that it has as many more added than
/// removed lines as the right one has more lines.
pub proof fn law_versions_compared_in_order(
    store: Store,
    path: Seq<char>,
    from: Option<Seq<char>>,
    to: Option<Seq<char>>,
    d: VersionDiff,
)
    requires
        versions_compared(store, path, from, to, Ok(d)),
    ensures
        ({
            let line = timeline(snapshot_models(store.snapshots@), path, store.host.drives);
            &&& from is None ==> line.len() > 1 && d.from@.id == line[1].id
            &&& to is None ==> line.len() > 0 && d.to@.id == line[0].id
            &&& blob_text(store.blobs@, d.from@.blob_hash) == Some(d.old@)
            &&& blob_text(store.blobs@, d.to@.blob_hash) == Some(d.new@)
            &&& d.diff.added - d.diff.removed == lines_of(d.new@).len() - lines_of(d.old@).len()
        }),
{
    let s = snapshot_models(store.snapshots@);
    lemma_plain(d.old@);
    lemma_plain(d.new@);
    law_latest_heads_timeline(s, path, store.host.drives);
    reveal_strlit("~1");
    reveal_strlit("latest");
    reveal_strlit("current");
    let one = "~1"@;
    assert(crate::text::trim_start_of(one) == one);
    assert(crate::text::trim_of(one) == one);
    assert(one.len() == 2);
    assert(one.skip(1) =~= seq!['1']);
    assert(crate::text::digits_value(seq!['1']) == Some(1nat));
    let last = "latest"@;
    assert(crate::text::trim_start_of(last) == last);
    assert(crate::text::trim_of(last) == last);
    assert(crate::text::same_ignoring_case(last, "latest"@));
}

} // verus!
