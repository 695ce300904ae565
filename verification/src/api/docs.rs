//! Documents as the sidebar, the agents and the editor see them.

use crate::comment;
use crate::comment::threads::{open_counts, open_paths, read_thread};
use crate::comment::types::{comment_models, CommentModel};
use crate::config::Config;
use crate::corpus::roots::{added_earlier, effective_policy, list_roots, policy_for, root_ids};
use crate::corpus::sandbox::{read_text, relative_of, relative_to_root};
use crate::corpus::types::{path_policy_models, root_models, Resolved, ResolvedModel, RootModel};
use crate::corpus::{ArtifactType, Policy, Root};
use crate::disk::{Disk, FileModel};
use crate::error::{Error, ErrorModel, Result};
use crate::order::{
    is_total_order, lemma_sorted_in_order, lemma_sorted_map, lemma_sorted_same, sorted, stable_sort,
};
use crate::proposal;
use crate::proposal::read::{pending_counts, pending_paths};
use crate::proposal::types::{proposal_models, ProposalModel};
use crate::store::blobs::blob_text;
use crate::store::Store;
use crate::table::{count_in, is_tally, lemma_place, listed, place_of, tallied, Tally};
use crate::text::{
    copy_opt, decimal_of, equal_ignoring_case, law_text_order, lemma_text_le_transitive, no_later,
    opt_str_view, opt_view, same_ignoring_case, same_str, text_in, text_le,
};
use crate::util::{
    display_of, display_path, fold, folded, key_eq, keys_of, path_eq, same_key, same_path,
};
use crate::version::history::{content, latest, newest, version_count, versions_back};
use crate::version::types::{snapshot_models, Snapshot, SnapshotModel};
use vstd::prelude::*;

verus! {

/// A document as the sidebar and `list_docs` see it.
#[derive(Debug)]
pub struct DocSummary {
    pub path: String,
    pub display: String,
    /// Path relative to its root, which is what the sidebar tree renders.
    pub relative: String,
    pub root_id: String,
    pub artifact_type: ArtifactType,
    pub versions: usize,
    pub pending_proposals: usize,
    pub open_comments: usize,
    pub size: i64,
    pub latest_version: Option<String>,
    pub updated_at: Option<i64>,
    pub updated_at_iso: Option<String>,
    pub last_author: Option<String>,
    /// False when the file has history but is no longer on disk.
    pub exists: bool,
    pub policy: Policy,
}

/// What a summary says.
pub struct DocModel {
    pub path: Seq<char>,
    pub display: Seq<char>,
    pub relative: Seq<char>,
    pub root_id: Seq<char>,
    pub artifact_type: ArtifactType,
    pub versions: nat,
    pub pending_proposals: nat,
    pub open_comments: nat,
    pub size: i64,
    pub latest_version: Option<Seq<char>>,
    pub updated_at: Option<i64>,
    pub updated_at_iso: Option<Seq<char>>,
    pub last_author: Option<Seq<char>>,
    pub exists: bool,
    pub policy: Policy,
}

impl View for DocSummary {
    type V = DocModel;

    open spec fn view(&self) -> DocModel {
        DocModel {
            path: self.path@,
            display: self.display@,
            relative: self.relative@,
            root_id: self.root_id@,
            artifact_type: self.artifact_type,
            versions: self.versions as nat,
            pending_proposals: self.pending_proposals as nat,
            open_comments: self.open_comments as nat,
            size: self.size,
            latest_version: opt_view(self.latest_version),
            updated_at: self.updated_at,
            updated_at_iso: opt_view(self.updated_at_iso),
            last_author: opt_view(self.last_author),
            exists: self.exists,
            policy: self.policy,
        }
    }
}

impl DocSummary {
    pub fn copy(&self) -> (out: DocSummary)
        ensures
            out@ == self@,
    {
        DocSummary {
            path: self.path.clone(),
            display: self.display.clone(),
            relative: self.relative.clone(),
            root_id: self.root_id.clone(),
            artifact_type: self.artifact_type,
            versions: self.versions,
            pending_proposals: self.pending_proposals,
            open_comments: self.open_comments,
            size: self.size,
            latest_version: copy_opt(&self.latest_version),
            updated_at: self.updated_at,
            updated_at_iso: copy_opt(&self.updated_at_iso),
            last_author: copy_opt(&self.last_author),
            exists: self.exists,
            policy: self.policy,
        }
    }
}

pub open spec fn doc_models(docs: Seq<DocSummary>) -> Seq<DocModel> {
    Seq::new(docs.len(), |i: int| docs[i]@)
}

// ---------------------------------------------------------------------------
// Summaries
// ---------------------------------------------------------------------------

/// Was a later version of the same document recorded?
pub open spec fn superseded(s: Seq<SnapshotModel>, i: int, any_case: bool) -> bool {
    exists|k: int| i < k < s.len() && same_key((#[trigger] s[k]).path, s[i].path, any_case)
}

/// Of the first `n` versions those that were recorded last for their document.
pub open spec fn heads(s: Seq<SnapshotModel>, n: nat, any_case: bool) -> Seq<SnapshotModel>
    decreases n,
{
    if n == 0 {
        Seq::empty()
    } else if superseded(s, n - 1, any_case) {
        heads(s, (n - 1) as nat, any_case)
    } else {
        heads(s, (n - 1) as nat, any_case).push(s[n - 1])
    }
}

/// By path.
pub open spec fn by_path() -> spec_fn(SnapshotModel, SnapshotModel) -> bool {
    |a: SnapshotModel, b: SnapshotModel| text_le(a.path, b.path)
}

/// One version for each document, by path.
pub open spec fn rows_of(s: Seq<SnapshotModel>, any_case: bool) -> Seq<SnapshotModel> {
    sorted(heads(s, s.len(), any_case), by_path())
}

/// Is a document asked for, and in the corpus?
pub open spec fn wanted(
    row: SnapshotModel,
    roots: Seq<RootModel>,
    root_filter: Option<Seq<char>>,
    type_filter: Option<ArtifactType>,
) -> bool {
    &&& root_filter matches Some(id) ==> id == row.root_id
    &&& type_filter matches Some(ty) ==> ty == row.artifact_type
    &&& listed(root_ids(roots), row.root_id)
}

/// The roots, in the order they are listed.
pub open spec fn roots_of(store: Store) -> Seq<RootModel> {
    sorted(root_models(store.roots@), added_earlier())
}

/// The summary of a document whose last version is `row`.
pub open spec fn summary_of(
    store: Store,
    disk: Map<Seq<char>, FileModel>,
    row: SnapshotModel,
) -> DocModel {
    let roots = roots_of(store);
    let root = roots[place_of(root_ids(roots), row.root_id)];
    DocModel {
        path: row.path,
        display: display_of(row.path, store.host@),
        relative: relative_of(root.path, row.path, store.host.drives),
        root_id: row.root_id,
        artifact_type: row.artifact_type,
        versions: versions_back(
            snapshot_models(store.snapshots@),
            row.path,
            store.host.drives,
        ).len(),
        pending_proposals: count_in(
            keys_of(pending_paths(proposal_models(store.proposals@)), store.host.drives),
            folded(row.path, store.host.drives),
        ),
        open_comments: count_in(
            keys_of(open_paths(comment_models(store.comments@), disk), store.host.drives),
            folded(row.path, store.host.drives),
        ),
        size: row.size,
        latest_version: Some(row.id),
        updated_at: Some(row.created_at),
        updated_at_iso: Some(row.created_at_iso),
        last_author: Some(row.author),
        exists: disk.dom().contains(row.path),
        policy: effective_policy(
            path_policy_models(store.path_policies@),
            ResolvedModel { root: root, path: row.path, dirs: Seq::empty() },
            row.artifact_type,
            store.host.drives,
        ),
    }
}

/// The summaries of the documents that are asked for.
pub open spec fn summaries(
    store: Store,
    disk: Map<Seq<char>, FileModel>,
    rows: Seq<SnapshotModel>,
    root_filter: Option<Seq<char>>,
    type_filter: Option<ArtifactType>,
) -> Seq<DocModel>
    decreases rows.len(),
{
    if rows.len() == 0 {
        Seq::empty()
    } else {
        let before = summaries(store, disk, rows.drop_last(), root_filter, type_filter);
        if wanted(rows.last(), roots_of(store), root_filter, type_filter) {
            before.push(summary_of(store, disk, rows.last()))
        } else {
            before
        }
    }
}

fn replaced(snapshots: &[Snapshot], i: usize, any_case: bool) -> (out: bool)
    requires
        i < snapshots@.len(),
    ensures
        out == superseded(snapshot_models(snapshots@), i as int, any_case),
{
    let ghost all = snapshot_models(snapshots@);
    let n: usize = snapshots.len();
    let mut k: usize = i + 1;
    while k < n
        invariant
            i < k <= n,
            n == snapshots@.len(),
            all == snapshot_models(snapshots@),
            forall|j: int|
                i < j < k ==> !same_key((#[trigger] all[j]).path, all[i as int].path, any_case),
        decreases snapshots@.len() - k,
    {
        if key_eq(snapshots[k].path.as_str(), snapshots[i].path.as_str(), any_case) {
            assert(same_key(all[k as int].path, all[i as int].path, any_case));
            return true;
        }
        k += 1;
    }
    false
}

fn earlier_path(a: &Snapshot, b: &Snapshot) -> (out: bool)
    ensures
        out == text_le(a.path@, b.path@),
{
    no_later(&a.path, &b.path)
}

fn collect_rows(snapshots: &[Snapshot], any_case: bool) -> (out: Vec<Snapshot>)
    ensures
        snapshot_models(out@) == rows_of(snapshot_models(snapshots@), any_case),
{
    let ghost all = snapshot_models(snapshots@);
    let mut rows: Vec<Snapshot> = Vec::new();
    let mut i: usize = 0;
    assert(snapshot_models(rows@) =~= heads(all, 0, any_case));
    while i < snapshots.len()
        invariant
            i <= snapshots@.len(),
            all == snapshot_models(snapshots@),
            snapshot_models(rows@) == heads(all, i as nat, any_case),
        decreases snapshots@.len() - i,
    {
        if !replaced(snapshots, i, any_case) {
            let ghost before = snapshot_models(rows@);
            let s = snapshots[i].copy();
            rows.push(s);
            assert(snapshot_models(rows@) =~= before.push(s@));
        }
        i += 1;
    }
    let ghost unsorted = rows@;
    let ghost rel = |a: Snapshot, b: Snapshot| text_le(a.path@, b.path@);
    let out = stable_sort(rows, earlier_path, Ghost(rel));
    proof {
        let f = |s: Snapshot| s@;
        lemma_sorted_map(unsorted, f, rel, by_path());
        assert(snapshot_models(unsorted) =~= unsorted.map_values(f));
        assert(snapshot_models(out@) =~= out@.map_values(f));
    }
    out
}

fn find_root(roots: &[Root], id: &str) -> (out: Option<usize>)
    ensures
        ({
            let ids = root_ids(root_models(roots@));
            match out {
                Some(i) => i < roots@.len() && place_of(ids, id@) == i && listed(ids, id@),
                None => !listed(ids, id@),
            }
        }),
{
    let ghost ids = root_ids(root_models(roots@));
    let mut i: usize = 0;
    while i < roots.len() && !same_str(roots[i].id.as_str(), id)
        invariant
            i <= roots@.len(),
            ids == root_ids(root_models(roots@)),
            forall|k: int| 0 <= k < i ==> #[trigger] ids[k] != id@,
        decreases roots@.len() - i,
    {
        i += 1;
    }
    proof {
        lemma_place(ids, id@, i as int);
    }
    if i < roots.len() {
        Some(i)
    } else {
        None
    }
}

fn summarise(
    store: &Store,
    disk: &Disk,
    row: &Snapshot,
    root: &Root,
    pending: &[Tally],
    comments: &[Tally],
) -> (out: DocSummary)
    requires
        listed(root_ids(roots_of(*store)), row@.root_id),
        root@ == roots_of(*store)[place_of(root_ids(roots_of(*store)), row@.root_id)],
        is_tally(
            pending@,
            keys_of(pending_paths(proposal_models(store.proposals@)), store.host.drives),
        ),
        is_tally(
            comments@,
            keys_of(open_paths(comment_models(store.comments@), disk@), store.host.drives),
        ),
    ensures
        out@ == summary_of(*store, disk@, row@),
{
    let at = Resolved { root: root.copy(), path: row.path.clone(), dirs: Vec::new() };
    assert(at@.dirs =~= Seq::empty());
    let path = row.path.as_str();
    let key = fold(path, store.host.drives);
    let policy = policy_for(store, &at, row.artifact_type);
    DocSummary {
        path: row.path.clone(),
        display: display_path(path, &store.host),
        relative: relative_to_root(root, path, store.host.drives),
        root_id: row.root_id.clone(),
        artifact_type: row.artifact_type,
        versions: version_count(store, path),
        pending_proposals: tallied(pending, key.as_str()),
        open_comments: tallied(comments, key.as_str()),
        size: row.size,
        latest_version: Some(row.id.clone()),
        updated_at: Some(row.created_at),
        updated_at_iso: Some(row.created_at_iso.clone()),
        last_author: Some(row.author.clone()),
        exists: disk.find(path).is_some(),
        policy: policy,
    }
}

/// The documents of the corpus: one for each path with history under a root
/// that is still registered. Where a root was removed its history is kept, but
/// it is no longer part of the corpus.
pub fn doc_summaries(
    store: &Store,
    disk: &Disk,
    root_filter: Option<&str>,
    type_filter: Option<ArtifactType>,
) -> (out: Vec<DocSummary>)
    ensures
        doc_models(out@) == summaries(
            *store,
            disk@,
            rows_of(snapshot_models(store.snapshots@), store.host.drives),
            opt_str_view(root_filter),
            type_filter,
        ),
{
    let roots = list_roots(store);
    let pending = pending_counts(store);
    let comments = open_counts(store, disk);
    let rows = collect_rows(&store.snapshots, store.host.drives);
    let ghost all = snapshot_models(rows@);
    let ghost want = opt_str_view(root_filter);
    let mut out: Vec<DocSummary> = Vec::new();
    let mut i: usize = 0;
    assert(doc_models(out@) =~= summaries(*store, disk@, all.take(0), want, type_filter));
    while i < rows.len()
        invariant
            i <= rows@.len(),
            all == snapshot_models(rows@),
            want == opt_str_view(root_filter),
            root_models(roots@) == roots_of(*store),
            is_tally(
            pending@,
            keys_of(pending_paths(proposal_models(store.proposals@)), store.host.drives),
        ),
            is_tally(
            comments@,
            keys_of(open_paths(comment_models(store.comments@), disk@), store.host.drives),
        ),
            doc_models(out@) == summaries(*store, disk@, all.take(i as int), want, type_filter),
        decreases rows@.len() - i,
    {
        assert(all.take(i + 1).drop_last() =~= all.take(i as int));
        assert(all.take(i + 1).last() == all[i as int]);
        let row = &rows[i];
        let right_root = match root_filter {
            Some(id) => same_str(id, row.root_id.as_str()),
            None => true,
        };
        let right_type = match type_filter {
            Some(ty) => ty == row.artifact_type,
            None => true,
        };
        if right_root && right_type {
            if let Some(r) = find_root(&roots, row.root_id.as_str()) {
                assert(root_models(roots@)[r as int] == roots@[r as int]@);
                let d = summarise(store, disk, row, &roots[r], &pending, &comments);
                let ghost before = doc_models(out@);
                out.push(d);
                assert(doc_models(out@) =~= before.push(d@));
            }
        }
        i += 1;
    }
    assert(all.take(i as int) =~= all);
    out
}

// ---------------------------------------------------------------------------
// One document
// ---------------------------------------------------------------------------

/// The current text of a document: from disk when it is there, from the newest
/// version when it is not.
pub open spec fn current_text(
    store: Store,
    disk: Map<Seq<char>, FileModel>,
    cfg: Config,
    path: Seq<char>,
) -> std::result::Result<Seq<char>, ErrorModel> {
    let s = snapshot_models(store.snapshots@);
    if disk.dom().contains(path) {
        let bytes = disk[path].bytes;
        if bytes.len() > cfg.max_editor_bytes {
            Err(
                ErrorModel::TooLarge(
                    path + " is "@ + decimal_of(bytes.len()) + " bytes; the editor limit is "@
                        + decimal_of(cfg.max_editor_bytes as nat),
                ),
            )
        } else {
            Ok(text_in(bytes))
        }
    } else {
        match newest(s, path, store.host.drives) {
            Some(i) => match blob_text(store.blobs@, s[i].blob_hash) {
                Some(text) => Ok(text),
                None => Err(ErrorModel::NotFound("blob "@ + s[i].blob_hash)),
            },
            None => Err(ErrorModel::NotFound(display_of(path, store.host@))),
        }
    }
}

/// An executable text against a stated one.
pub open spec fn text_as(
    out: Result<String>,
    want: std::result::Result<Seq<char>, ErrorModel>,
) -> bool {
    match out {
        Ok(s) => want == Ok::<Seq<char>, ErrorModel>(s@),
        Err(e) => want == Err::<Seq<char>, ErrorModel>(e@),
    }
}

/// The current text of a document.
pub fn read_current(store: &Store, disk: &Disk, cfg: &Config, resolved: &Resolved) -> (out: Result<
    String,
>)
    ensures
        text_as(out, current_text(*store, disk@, *cfg, resolved@.path)),
{
    let path = resolved.path.as_str();
    match disk.find(path) {
        Some(file) => read_text(path, &file.bytes, cfg.max_editor_bytes),
        None => match latest(store, path) {
            Some(s) => content(store, &s),
            None => Err(Error::NotFound(display_path(path, &store.host))),
        },
    }
}

// ---------------------------------------------------------------------------
// Roots by name
// ---------------------------------------------------------------------------

/// The first root with a label, ignoring case.
pub open spec fn labelled(roots: Seq<RootModel>, label: Seq<char>) -> Option<RootModel>
    decreases roots.len(),
{
    if roots.len() == 0 {
        None
    } else if same_ignoring_case(roots[0].label, label) {
        Some(roots[0])
    } else {
        labelled(roots.skip(1), label)
    }
}

/// The first root at a path.
pub open spec fn rooted_at(
    roots: Seq<RootModel>,
    key: Seq<char>,
    any_case: bool,
) -> Option<RootModel>
    decreases roots.len(),
{
    if roots.len() == 0 {
        None
    } else if same_path(roots[0].path, key, any_case) {
        Some(roots[0])
    } else {
        rooted_at(roots.skip(1), key, any_case)
    }
}

/// The root that a reference means: an identifier, a label, or a path, whose
/// canonical key is `key`.
pub open spec fn root_meant(
    roots: Seq<RootModel>,
    value: Seq<char>,
    key: Seq<char>,
    any_case: bool,
) -> Option<Seq<char>> {
    if listed(root_ids(roots), value) {
        Some(value)
    } else {
        match labelled(roots, value) {
            Some(r) => Some(r.id),
            None => match rooted_at(roots, key, any_case) {
                Some(r) => Some(r.id),
                None => None,
            },
        }
    }
}

fn find_label(roots: &[Root], label: &str) -> (out: Option<usize>)
    ensures
        match out {
            Some(i) => i < roots@.len() && labelled(root_models(roots@), label@) == Some(
                roots@[i as int]@,
            ),
            None => labelled(root_models(roots@), label@) is None,
        },
{
    let ghost all = root_models(roots@);
    let mut i: usize = 0;
    assert(all.skip(0) =~= all);
    while i < roots.len()
        invariant
            i <= roots@.len(),
            all == root_models(roots@),
            labelled(all, label@) == labelled(all.skip(i as int), label@),
        decreases roots@.len() - i,
    {
        assert(all.skip(i as int)[0] == all[i as int]);
        assert(all.skip(i as int).skip(1) =~= all.skip(i + 1));
        if equal_ignoring_case(roots[i].label.as_str(), label) {
            return Some(i);
        }
        i += 1;
    }
    None
}

fn find_path(roots: &[Root], key: &str, any_case: bool) -> (out: Option<usize>)
    ensures
        match out {
            Some(i) => i < roots@.len() && rooted_at(root_models(roots@), key@, any_case) == Some(
                roots@[i as int]@,
            ),
            None => rooted_at(root_models(roots@), key@, any_case) is None,
        },
{
    let ghost all = root_models(roots@);
    let mut i: usize = 0;
    assert(all.skip(0) =~= all);
    while i < roots.len()
        invariant
            i <= roots@.len(),
            all == root_models(roots@),
            rooted_at(all, key@, any_case) == rooted_at(all.skip(i as int), key@, any_case),
        decreases roots@.len() - i,
    {
        assert(all.skip(i as int)[0] == all[i as int]);
        assert(all.skip(i as int).skip(1) =~= all.skip(i + 1));
        if path_eq(roots[i].path.as_str(), key, any_case) {
            return Some(i);
        }
        i += 1;
    }
    None
}

/// The identifier of the root that a reference means. `key` is the canonical
/// key of the reference taken as a path.
pub fn root_id_for(store: &Store, value: &str, key: &str) -> (out: Result<String>)
    ensures
        match out {
            Ok(id) => root_meant(roots_of(*store), value@, key@, store.host.drives) == Some(id@),
            Err(e) => root_meant(roots_of(*store), value@, key@, store.host.drives) is None && e@
                == ErrorModel::NotFound("root `"@ + value@ + "`"@),
        },
{
    let roots = list_roots(store);
    if find_root(&roots, value).is_some() {
        return Ok(value.to_owned());
    }
    if let Some(i) = find_label(&roots, value) {
        return Ok(roots[i].id.clone());
    }
    if let Some(i) = find_path(&roots, key, store.host.drives) {
        return Ok(roots[i].id.clone());
    }
    let mut m = "root `".to_owned();
    m.append(value);
    m.append("`");
    Err(Error::NotFound(m))
}

// ---------------------------------------------------------------------------
// Laws
// ---------------------------------------------------------------------------

/// The places of the versions that stand for their documents, among the first
/// `n`.
proof fn lemma_heads(s: Seq<SnapshotModel>, n: nat, any_case: bool) -> (at: Seq<int>)
    requires
        n <= s.len(),
    ensures
        at.len() == heads(s, n, any_case).len(),
        forall|k: int|
            0 <= k < at.len() ==> 0 <= #[trigger] at[k] < n && !superseded(s, at[k], any_case)
                && heads(s, n, any_case)[k] == s[at[k]],
        forall|k: int, l: int| 0 <= k < l < at.len() ==> #[trigger] at[k] < #[trigger] at[l],
        forall|i: int|
            0 <= i < n && !#[trigger] superseded(s, i, any_case) ==> at.contains(i),
    decreases n,
{
    if n == 0 {
        Seq::empty()
    } else {
        let before = lemma_heads(s, (n - 1) as nat, any_case);
        if superseded(s, n - 1, any_case) {
            before
        } else {
            let at = before.push(n - 1);
            assert forall|i: int|
                0 <= i < n && !#[trigger] superseded(s, i, any_case) implies at.contains(i) by {
                if i < n - 1 {
                    let k = choose|k: int| 0 <= k < before.len() && before[k] == i;
                    assert(before.contains(i));
                    assert(at[k] == i);
                } else {
                    assert(at[before.len() as int] == i);
                }
            }
            at
        }
    }
}

/// The version of a document that was recorded last.
proof fn lemma_last_of_document(s: Seq<SnapshotModel>, i: int, any_case: bool) -> (k: int)
    requires
        0 <= i < s.len(),
    ensures
        i <= k < s.len(),
        same_key(s[k].path, s[i].path, any_case),
        !superseded(s, k, any_case),
    decreases s.len() - i,
{
    if superseded(s, i, any_case) {
        let j = choose|j: int|
            i < j < s.len() && same_key((#[trigger] s[j]).path, s[i].path, any_case);
        lemma_last_of_document(s, j, any_case)
    } else {
        i
    }
}

/// Is there a row of the document at a path?
pub open spec fn has_row(rows: Seq<SnapshotModel>, path: Seq<char>, any_case: bool) -> bool {
    exists|k: int| 0 <= k < rows.len() && same_key((#[trigger] rows[k]).path, path, any_case)
}

/// Is a version the one of its document that was recorded last?
pub open spec fn recorded_last(s: Seq<SnapshotModel>, row: SnapshotModel, any_case: bool) -> bool {
    exists|i: int|
        0 <= i < s.len() && #[trigger] s[i] == row && forall|j: int|
            i < j < s.len() ==> !same_key((#[trigger] s[j]).path, row.path, any_case)
}

/// Documents are listed once each, by path: every version recorded belongs to a
/// document that has a row, the row is the version of it that was recorded
/// last, and no two rows are of one document.
pub proof fn law_one_row_for_each_document(s: Seq<SnapshotModel>, any_case: bool)
    ensures
        ({
            let rows = rows_of(s, any_case);
            &&& forall|i: int|
                0 <= i < s.len() ==> has_row(rows, (#[trigger] s[i]).path, any_case)
            &&& forall|k: int|
                0 <= k < rows.len() ==> recorded_last(s, #[trigger] rows[k], any_case)
            &&& forall|k: int, l: int|
                0 <= k < l < rows.len() ==> text_le((#[trigger] rows[k]).path, (
                #[trigger] rows[l]).path) && !same_key(rows[k].path, rows[l].path, any_case)
        }),
{
    let rows = rows_of(s, any_case);
    assert forall|i: int| 0 <= i < s.len() implies has_row(
        rows,
        (#[trigger] s[i]).path,
        any_case,
    ) by {
        let k = lemma_has_row(s, i, any_case);
        assert(same_key(rows[k].path, s[i].path, any_case));
    }
    assert forall|k: int| 0 <= k < rows.len() implies recorded_last(
        s,
        #[trigger] rows[k],
        any_case,
    ) by {
        let i = lemma_row_is_last(s, k, any_case);
        assert(s[i] == rows[k]);
    }
    assert forall|k: int, l: int| 0 <= k < l < rows.len() implies text_le(
        (#[trigger] rows[k]).path,
        (#[trigger] rows[l]).path,
    ) && !same_key(rows[k].path, rows[l].path, any_case) by {
        lemma_rows_differ(s, k, l, any_case);
    }
}

proof fn lemma_has_row(s: Seq<SnapshotModel>, i: int, any_case: bool) -> (k: int)
    requires
        0 <= i < s.len(),
    ensures
        0 <= k < rows_of(s, any_case).len(),
        same_key(rows_of(s, any_case)[k].path, s[i].path, any_case),
{
    let at = lemma_heads(s, s.len(), any_case);
    let found = heads(s, s.len(), any_case);
    let rows = rows_of(s, any_case);
    lemma_sorted_same(found, by_path());
    let last = lemma_last_of_document(s, i, any_case);
    assert(at.contains(last));
    let p = choose|p: int| 0 <= p < at.len() && at[p] == last;
    assert(found[p] == s[last]);
    assert(found.contains(s[last]));
    assert(rows.contains(s[last]));
    choose|k: int| 0 <= k < rows.len() && rows[k] == s[last]
}

proof fn lemma_row_is_last(s: Seq<SnapshotModel>, k: int, any_case: bool) -> (i: int)
    requires
        0 <= k < rows_of(s, any_case).len(),
    ensures
        0 <= i < s.len(),
        s[i] == rows_of(s, any_case)[k],
        forall|j: int|
            i < j < s.len() ==> !same_key((#[trigger] s[j]).path, s[i].path, any_case),
{
    let at = lemma_heads(s, s.len(), any_case);
    let found = heads(s, s.len(), any_case);
    let rows = rows_of(s, any_case);
    lemma_sorted_same(found, by_path());
    assert(rows.contains(rows[k]));
    assert(found.contains(rows[k]));
    let p = choose|p: int| 0 <= p < found.len() && found[p] == rows[k];
    assert(!superseded(s, at[p], any_case));
    at[p]
}

proof fn lemma_rows_differ(s: Seq<SnapshotModel>, k: int, l: int, any_case: bool)
    requires
        0 <= k < l < rows_of(s, any_case).len(),
    ensures
        text_le(rows_of(s, any_case)[k].path, rows_of(s, any_case)[l].path),
        !same_key(rows_of(s, any_case)[k].path, rows_of(s, any_case)[l].path, any_case),
{
    let at = lemma_heads(s, s.len(), any_case);
    let found = heads(s, s.len(), any_case);
    let rows = rows_of(s, any_case);
    lemma_by_path_is_total();
    lemma_sorted_in_order(found, by_path());
    assert(by_path()(rows[k], rows[l]));
    assert forall|p: int, q: int| 0 <= p < q < found.len() implies !same_key(
        (#[trigger] found[p]).path,
        (#[trigger] found[q]).path,
        any_case,
    ) by {
        assert(at[p] < at[q]);
        assert(!superseded(s, at[p], any_case));
        assert(found[p] == s[at[p]] && found[q] == s[at[q]]);
    }
    assert(found.no_duplicates()) by {
        assert forall|p: int, q: int|
            0 <= p < found.len() && 0 <= q < found.len() && p != q implies found[p] != found[q] by {
            if p < q {
                assert(!same_key(found[p].path, found[q].path, any_case));
            } else {
                assert(!same_key(found[q].path, found[p].path, any_case));
            }
        }
    }
    lemma_sorted_same(found, by_path());
    assert(rows.contains(rows[k]) && rows.contains(rows[l]));
    assert(found.contains(rows[k]) && found.contains(rows[l]));
    let p = choose|p: int| 0 <= p < found.len() && found[p] == rows[k];
    let q = choose|q: int| 0 <= q < found.len() && found[q] == rows[l];
    assert(rows[k] != rows[l]);
    if p < q {
        assert(!same_key(found[p].path, found[q].path, any_case));
    } else {
        assert(!same_key(found[q].path, found[p].path, any_case));
    }
}

proof fn lemma_by_path_is_total()
    ensures
        is_total_order(by_path()),
{
    let le = by_path();
    assert forall|a: SnapshotModel, b: SnapshotModel| #[trigger] le(a, b) || le(b, a) by {
        law_text_order(a.path, b.path);
    }
    assert forall|a: SnapshotModel, b: SnapshotModel, c: SnapshotModel| #[trigger]
        le(a, b) && #[trigger] le(b, c) implies le(a, c) by {
        lemma_text_le_transitive(a.path, b.path, c.path);
    }
}

/// The counts of a summary are of its document alone: how many versions were
/// recorded for it, how many proposals for it wait, and how many threads on it
/// are open.
pub proof fn law_summary_counts(
    store: Store,
    disk: Map<Seq<char>, FileModel>,
    row: SnapshotModel,
)
    ensures
        ({
            let d = summary_of(store, disk, row);
            let any_case = store.host.drives;
            &&& d.path == row.path
            &&& d.latest_version == Some(row.id)
            &&& d.versions == snapshot_models(store.snapshots@).filter(
                |v: SnapshotModel| same_key(v.path, row.path, any_case),
            ).len()
            &&& d.pending_proposals == proposal_models(store.proposals@).filter(
                |p: ProposalModel|
                    p.stored_status == proposal::Status::Pending && same_key(
                        p.path,
                        row.path,
                        any_case,
                    ),
            ).len()
            &&& d.open_comments == comment_models(store.comments@).filter(
                |c: CommentModel|
                    read_thread(c, disk).status == comment::Status::Open && same_key(
                        c.path,
                        row.path,
                        any_case,
                    ),
            ).len()
            &&& d.exists <==> disk.dom().contains(row.path)
        }),
{
    let any_case = store.host.drives;
    lemma_version_count(
        snapshot_models(store.snapshots@),
        row.path,
        any_case,
        |v: SnapshotModel| same_key(v.path, row.path, any_case),
    );
    lemma_pending_count(
        proposal_models(store.proposals@),
        row.path,
        any_case,
        |p: ProposalModel|
            p.stored_status == proposal::Status::Pending && same_key(p.path, row.path, any_case),
    );
    lemma_open_count(
        comment_models(store.comments@),
        disk,
        row.path,
        any_case,
        |c: CommentModel|
            read_thread(c, disk).status == comment::Status::Open && same_key(
                c.path,
                row.path,
                any_case,
            ),
    );
}

proof fn lemma_version_count(
    s: Seq<SnapshotModel>,
    path: Seq<char>,
    any_case: bool,
    mine: spec_fn(SnapshotModel) -> bool,
)
    requires
        forall|v: SnapshotModel| #[trigger] mine(v) == same_key(v.path, path, any_case),
    ensures
        versions_back(s, path, any_case).len() == s.filter(mine).len(),
    decreases s.len(),
{
    reveal(Seq::filter);
    if s.len() > 0 {
        lemma_version_count(s.drop_last(), path, any_case, mine);
    }
}

proof fn lemma_pending_count(
    all: Seq<ProposalModel>,
    path: Seq<char>,
    any_case: bool,
    mine: spec_fn(ProposalModel) -> bool,
)
    requires
        forall|p: ProposalModel| #[trigger]
            mine(p) == (p.stored_status == proposal::Status::Pending && same_key(
                p.path,
                path,
                any_case,
            )),
    ensures
        count_in(keys_of(pending_paths(all), any_case), folded(path, any_case)) == all.filter(
            mine,
        ).len(),
    decreases all.len(),
{
    reveal(Seq::filter);
    let keys = keys_of(pending_paths(all), any_case);
    if all.len() > 0 {
        let d = all.drop_last();
        lemma_pending_count(d, path, any_case, mine);
        let before = keys_of(pending_paths(d), any_case);
        if all.last().stored_status == proposal::Status::Pending {
            assert(keys =~= before.push(folded(all.last().path, any_case)));
            assert(keys.drop_last() =~= before);
        }
    }
}

proof fn lemma_open_count(
    all: Seq<CommentModel>,
    disk: Map<Seq<char>, FileModel>,
    path: Seq<char>,
    any_case: bool,
    mine: spec_fn(CommentModel) -> bool,
)
    requires
        forall|c: CommentModel| #[trigger]
            mine(c) == (read_thread(c, disk).status == comment::Status::Open && same_key(
                c.path,
                path,
                any_case,
            )),
    ensures
        count_in(keys_of(open_paths(all, disk), any_case), folded(path, any_case)) == all.filter(
            mine,
        ).len(),
    decreases all.len(),
{
    reveal(Seq::filter);
    let keys = keys_of(open_paths(all, disk), any_case);
    if all.len() > 0 {
        let d = all.drop_last();
        lemma_open_count(d, disk, path, any_case, mine);
        let before = keys_of(open_paths(d, disk), any_case);
        if read_thread(all.last(), disk).status == comment::Status::Open {
            assert(keys =~= before.push(folded(all.last().path, any_case)));
            assert(keys.drop_last() =~= before);
        }
    }
}

proof fn lemma_summaries(
    store: Store,
    disk: Map<Seq<char>, FileModel>,
    rows: Seq<SnapshotModel>,
    root_filter: Option<Seq<char>>,
    type_filter: Option<ArtifactType>,
    asked: spec_fn(SnapshotModel) -> bool,
    shown: spec_fn(SnapshotModel) -> DocModel,
)
    requires
        forall|r: SnapshotModel| #[trigger]
            asked(r) == wanted(r, roots_of(store), root_filter, type_filter),
        forall|r: SnapshotModel| #[trigger] shown(r) == summary_of(store, disk, r),
    ensures
        summaries(store, disk, rows, root_filter, type_filter) == rows.filter(asked).map_values(
            shown,
        ),
    decreases rows.len(),
{
    reveal(Seq::filter);
    if rows.len() > 0 {
        let d = rows.drop_last();
        lemma_summaries(store, disk, d, root_filter, type_filter, asked, shown);
        if asked(rows.last()) {
            assert(rows.filter(asked).map_values(shown) =~= d.filter(asked).map_values(shown).push(
                shown(rows.last()),
            ));
        }
    } else {
        assert(rows.filter(asked).map_values(shown) =~= Seq::empty());
    }
}

/// A list of documents holds those that are asked for, and no other, in order:
/// of the root and of the type, where one is given, and in a root that is
/// registered.
pub proof fn law_documents_listed(
    store: Store,
    disk: Map<Seq<char>, FileModel>,
    rows: Seq<SnapshotModel>,
    root_filter: Option<Seq<char>>,
    type_filter: Option<ArtifactType>,
)
    ensures
        summaries(store, disk, rows, root_filter, type_filter) == rows.filter(
            |r: SnapshotModel|
                (root_filter matches Some(id) ==> r.root_id == id) && (
                type_filter matches Some(ty) ==> r.artifact_type == ty) && listed(
                    root_ids(roots_of(store)),
                    r.root_id,
                ),
        ).map_values(|r: SnapshotModel| summary_of(store, disk, r)),
{
    lemma_summaries(
        store,
        disk,
        rows,
        root_filter,
        type_filter,
        |r: SnapshotModel|
            (root_filter matches Some(id) ==> r.root_id == id) && (type_filter matches Some(ty)
                ==> r.artifact_type == ty) && listed(root_ids(roots_of(store)), r.root_id),
        |r: SnapshotModel| summary_of(store, disk, r),
    );
}

} // verus!
