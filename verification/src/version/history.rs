//! Reading history: the newest version, the timeline, references.

use super::types::{snapshot_models, Snapshot, SnapshotModel};
use crate::error::{Error, ErrorModel, Result};
use crate::order::{sorted, stable_sort};
use crate::store::blobs::blob_text;
use crate::store::Store;
use crate::table::{lemma_place, listed, place_of};
use crate::text::{
    chars_of, decimal_of, equal_ignoring_case, first_is, fitting, number_of, opt_str_view,
    parse_usize, part, push_text, same_ignoring_case, same_str, sort_texts, sorted_texts, string_of,
    trim, trim_of, views,
};
use crate::util::{clamped, key_eq, minus, same_key};
use vstd::prelude::*;

verus! {

pub open spec fn snapshot_ids(s: Seq<SnapshotModel>) -> Seq<Seq<char>> {
    Seq::new(s.len(), |i: int| s[i].id)
}

/// What a reader is told who asks for a version that is not there.
pub open spec fn no_version(id: Seq<char>) -> ErrorModel {
    ErrorModel::NotFound("version "@ + id)
}

/// What a reader is told of a document without history.
pub open spec fn no_history(path: Seq<char>) -> ErrorModel {
    ErrorModel::NotFound("no versions recorded for "@ + path)
}

fn not_found(lead: &str, rest: &str) -> (out: Error)
    ensures
        out@ == ErrorModel::NotFound(lead@ + rest@),
{
    let mut m = lead.to_owned();
    m.append(rest);
    Error::NotFound(m)
}

/// The version with an identifier.
pub fn get(store: &Store, id: &str) -> (out: Result<Snapshot>)
    ensures
        ({
            let all = snapshot_models(store.snapshots@);
            match out {
                Ok(s) => listed(snapshot_ids(all), id@) && s@ == all[place_of(
                    snapshot_ids(all),
                    id@,
                )],
                Err(e) => !listed(snapshot_ids(all), id@) && e@ == no_version(id@),
            }
        }),
{
    let ghost ids = snapshot_ids(snapshot_models(store.snapshots@));
    let mut i: usize = 0;
    while i < store.snapshots.len() && !same_str(store.snapshots[i].id.as_str(), id)
        invariant
            i <= store.snapshots@.len(),
            ids == snapshot_ids(snapshot_models(store.snapshots@)),
            forall|k: int| 0 <= k < i ==> #[trigger] ids[k] != id@,
        decreases store.snapshots@.len() - i,
    {
        i += 1;
    }
    proof {
        lemma_place(ids, id@, i as int);
    }
    if i < store.snapshots.len() {
        Ok(store.snapshots[i].copy())
    } else {
        Err(not_found("version ", id))
    }
}

/// The place of a document's newest version. Of versions of the same time the
/// one that was recorded last counts as newer.
pub open spec fn newest(s: Seq<SnapshotModel>, path: Seq<char>, any_case: bool) -> Option<int>
    decreases s.len(),
{
    if s.len() == 0 {
        None
    } else {
        let before = newest(s.drop_last(), path, any_case);
        if !same_key(s.last().path, path, any_case) {
            before
        } else {
            match before {
                Some(i) => if s[i].created_at <= s.last().created_at {
                    Some(s.len() - 1)
                } else {
                    Some(i)
                },
                None => Some(s.len() - 1),
            }
        }
    }
}

/// The newest version is one of the document's, and every other of them was
/// made earlier, or at the same time and recorded before it. A document has
/// none exactly when nothing was recorded for it.
pub proof fn law_newest(s: Seq<SnapshotModel>, path: Seq<char>, any_case: bool)
    ensures
        match newest(s, path, any_case) {
            Some(i) => 0 <= i < s.len() && same_key(s[i].path, path, any_case) && forall|k: int|
                0 <= k < s.len() && same_key((#[trigger] s[k]).path, path, any_case)
                    ==> s[k].created_at < s[i].created_at || (s[k].created_at == s[i].created_at
                    && k <= i),
            None => forall|k: int|
                0 <= k < s.len() ==> !same_key((#[trigger] s[k]).path, path, any_case),
        },
    decreases s.len(),
{
    if s.len() > 0 {
        let d = s.drop_last();
        law_newest(d, path, any_case);
        assert forall|k: int| 0 <= k < d.len() implies #[trigger] s[k] == d[k] by {}
    }
}

/// The place of a document's newest version.
pub fn latest_place(snapshots: &[Snapshot], path: &str, any_case: bool) -> (out: Option<usize>)
    ensures
        match out {
            Some(i) => i < snapshots@.len() && newest(
                snapshot_models(snapshots@),
                path@,
                any_case,
            ) == Some(
                i as int,
            ),
            None => newest(snapshot_models(snapshots@), path@, any_case) is None,
        },
{
    let ghost all = snapshot_models(snapshots@);
    let mut best: Option<usize> = None;
    let mut i: usize = 0;
    assert(newest(all.take(0), path@, any_case) is None);
    while i < snapshots.len()
        invariant
            i <= snapshots@.len(),
            all == snapshot_models(snapshots@),
            match best {
                Some(b) => b < i && newest(all.take(i as int), path@, any_case) == Some(b as int),
                None => newest(all.take(i as int), path@, any_case) is None,
            },
        decreases snapshots@.len() - i,
    {
        assert(all.take(i + 1).drop_last() =~= all.take(i as int));
        assert(all.take(i + 1).last() == all[i as int]);
        if key_eq(snapshots[i].path.as_str(), path, any_case) {
            let newer = match best {
                Some(b) => {
                    assert(all.take(i + 1)[b as int] == all[b as int]);
                    snapshots[b].created_at <= snapshots[i].created_at
                },
                None => true,
            };
            if newer {
                best = Some(i);
            }
        }
        i += 1;
    }
    assert(all.take(i as int) =~= all);
    best
}

/// A document's newest version.
pub fn latest(store: &Store, path: &str) -> (out: Option<Snapshot>)
    ensures
        ({
            let all = snapshot_models(store.snapshots@);
            match out {
                Some(s) => newest(all, path@, store.host.drives) matches Some(i) && 0 <= i
                    < all.len() && s@ == all[i],
                None => newest(all, path@, store.host.drives) is None,
            }
        }),
{
    match latest_place(&store.snapshots, path, store.host.drives) {
        Some(i) => Some(store.snapshots[i].copy()),
        None => None,
    }
}

/// A document's versions, the last recorded first.
pub open spec fn versions_back(
    s: Seq<SnapshotModel>,
    path: Seq<char>,
    any_case: bool,
) -> Seq<SnapshotModel>
    decreases s.len(),
{
    if s.len() == 0 {
        Seq::empty()
    } else if same_key(s.last().path, path, any_case) {
        seq![s.last()] + versions_back(s.drop_last(), path, any_case)
    } else {
        versions_back(s.drop_last(), path, any_case)
    }
}

pub proof fn lemma_versions_back_len(s: Seq<SnapshotModel>, path: Seq<char>, any_case: bool)
    ensures
        versions_back(s, path, any_case).len() <= s.len(),
    decreases s.len(),
{
    if s.len() > 0 {
        lemma_versions_back_len(s.drop_last(), path, any_case);
    }
}

/// Newer versions first.
pub open spec fn newer_first() -> spec_fn(SnapshotModel, SnapshotModel) -> bool {
    |a: SnapshotModel, b: SnapshotModel| a.created_at >= b.created_at
}

/// A document's versions, newest first.
pub open spec fn timeline(
    s: Seq<SnapshotModel>,
    path: Seq<char>,
    any_case: bool,
) -> Seq<SnapshotModel> {
    sorted(versions_back(s, path, any_case), newer_first())
}

/// Rows with the change in size against the next older row.
pub open spec fn with_deltas(rows: Seq<SnapshotModel>) -> Seq<SnapshotModel> {
    Seq::new(
        rows.len(),
        |i: int|
            SnapshotModel {
                size_delta: if i + 1 < rows.len() {
                    Some(clamped(rows[i].size - rows[i + 1].size) as i64)
                } else {
                    None
                },
                ..rows[i]
            },
    )
}

/// At most `limit` rows.
pub open spec fn at_most<T>(rows: Seq<T>, limit: nat) -> Seq<T> {
    if limit < rows.len() {
        rows.take(limit as int)
    } else {
        rows
    }
}

fn newer_or_same(a: &Snapshot, b: &Snapshot) -> (out: bool)
    ensures
        out == (a.created_at >= b.created_at),
{
    a.created_at >= b.created_at
}

fn sort_newest_first(rows: Vec<Snapshot>) -> (out: Vec<Snapshot>)
    ensures
        snapshot_models(out@) == sorted(snapshot_models(rows@), newer_first()),
{
    let ghost unsorted = rows@;
    let ghost rel = |a: Snapshot, b: Snapshot| a.created_at >= b.created_at;
    let out = stable_sort(rows, newer_or_same, Ghost(rel));
    proof {
        let f = |s: Snapshot| s@;
        crate::order::lemma_sorted_map(unsorted, f, rel, newer_first());
        assert(snapshot_models(unsorted) =~= unsorted.map_values(f));
        assert(snapshot_models(out@) =~= out@.map_values(f));
    }
    out
}

fn cut_to(rows: &mut Vec<Snapshot>, limit: usize)
    ensures
        snapshot_models(final(rows)@) == at_most(snapshot_models(old(rows)@), limit as nat),
{
    if limit < rows.len() {
        let ghost before = snapshot_models(rows@);
        rows.truncate(limit);
        assert(snapshot_models(rows@) =~= before.take(limit as int));
    }
}

fn collect_back(snapshots: &[Snapshot], path: &str, any_case: bool) -> (out: Vec<Snapshot>)
    ensures
        snapshot_models(out@) == versions_back(snapshot_models(snapshots@), path@, any_case),
{
    let ghost all = snapshot_models(snapshots@);
    let mut out: Vec<Snapshot> = Vec::new();
    let mut n: usize = snapshots.len();
    assert(all.take(n as int) =~= all);
    assert(snapshot_models(out@) + versions_back(all, path@, any_case) =~= versions_back(
        all,
        path@,
        any_case,
    ));
    while n > 0
        invariant
            n <= snapshots@.len(),
            all == snapshot_models(snapshots@),
            snapshot_models(out@) + versions_back(
                all.take(n as int),
                path@,
                any_case,
            ) == versions_back(
                all,
                path@,
                any_case,
            ),
        decreases n,
    {
        assert(all.take(n as int).drop_last() =~= all.take(n - 1));
        assert(all.take(n as int).last() == all[n - 1]);
        if key_eq(snapshots[n - 1].path.as_str(), path, any_case) {
            let ghost before = snapshot_models(out@);
            let s = snapshots[n - 1].copy();
            out.push(s);
            assert(snapshot_models(out@) =~= before.push(s@));
            assert(before + (seq![s@] + versions_back(
                all.take(n - 1),
                path@,
                any_case,
            )) =~= before.push(s@)
                + versions_back(all.take(n - 1), path@, any_case));
        }
        n -= 1;
    }
    assert(versions_back(all.take(0), path@, any_case) =~= Seq::empty());
    assert(snapshot_models(out@) + Seq::<SnapshotModel>::empty() =~= snapshot_models(out@));
    out
}

/// The timeline of one document, newest first, with size deltas filled in.
pub fn list_versions(store: &Store, path: &str, limit: usize) -> (out: Vec<Snapshot>)
    ensures
        snapshot_models(out@) == with_deltas(
            at_most(
                timeline(snapshot_models(store.snapshots@), path@, store.host.drives),
                limit as nat,
            ),
        ),
{
    let found = collect_back(&store.snapshots, path, store.host.drives);
    let mut rows = sort_newest_first(found);
    cut_to(&mut rows, limit);
    let ghost plain = snapshot_models(rows@);
    let ghost goal = with_deltas(plain);
    let mut out: Vec<Snapshot> = Vec::new();
    let mut i: usize = 0;
    while i < rows.len()
        invariant
            i <= rows@.len(),
            plain == snapshot_models(rows@),
            goal == with_deltas(plain),
            snapshot_models(out@) == goal.take(i as int),
        decreases rows@.len() - i,
    {
        let mut s = rows[i].copy();
        s.size_delta = if i + 1 < rows.len() {
            assert(plain[i + 1] == rows@[i + 1]@);
            Some(minus(rows[i].size, rows[i + 1].size))
        } else {
            None
        };
        let ghost before = snapshot_models(out@);
        out.push(s);
        assert(snapshot_models(out@) =~= before.push(s@));
        assert(s@ == goal[i as int]);
        assert(goal.take(i + 1) =~= goal.take(i as int).push(goal[i as int]));
        i += 1;
    }
    assert(goal.take(i as int) =~= goal);
    out
}

/// The content of a version.
pub fn content(store: &Store, snapshot: &Snapshot) -> (out: Result<String>)
    ensures
        match out {
            Ok(text) => blob_text(store.blobs@, snapshot@.blob_hash) == Some(text@) && text@.len()
                <= store.blobs@[snapshot@.blob_hash].len(),
            Err(e) => blob_text(store.blobs@, snapshot@.blob_hash) is None && e@
                == ErrorModel::NotFound("blob "@ + snapshot@.blob_hash),
        },
{
    store.blobs.get_text(snapshot.blob_hash.as_str())
}

/// The content of the version with an identifier.
pub fn content_by_id(store: &Store, id: &str) -> (out: Result<String>)
    ensures
        ({
            let all = snapshot_models(store.snapshots@);
            let at = place_of(snapshot_ids(all), id@);
            if at < all.len() {
                match out {
                    Ok(text) => blob_text(store.blobs@, all[at].blob_hash) == Some(text@),
                    Err(e) => blob_text(store.blobs@, all[at].blob_hash) is None && e@
                        == ErrorModel::NotFound("blob "@ + all[at].blob_hash),
                }
            } else {
                out matches Err(e) && e@ == no_version(id@)
            }
        }),
{
    match get(store, id) {
        Ok(s) => content(store, &s),
        Err(e) => Err(e),
    }
}

/// The version that a reference means.
pub open spec fn referred(
    s: Seq<SnapshotModel>,
    path: Seq<char>,
    reference: Seq<char>,
    any_case: bool,
) -> std::result::Result<SnapshotModel, ErrorModel> {
    let r = trim_of(reference);
    if r.len() == 0 || same_ignoring_case(r, "latest"@) || same_ignoring_case(r, "current"@) {
        match newest(s, path, any_case) {
            Some(i) => Ok(s[i]),
            None => Err(no_history(path)),
        }
    } else if first_is(r, '~') {
        match fitting(number_of(r.skip(1))) {
            None => Err(
                ErrorModel::Invalid("bad version reference `"@ + reference + "`"@),
            ),
            Some(back) => {
                let rows = with_deltas(at_most(timeline(s, path, any_case), back as nat + 1));
                if back < rows.len() {
                    Ok(rows[back as int])
                } else {
                    Err(ErrorModel::NotFound(path + " has no version "@ + reference))
                }
            },
        }
    } else {
        let at = place_of(snapshot_ids(s), r);
        if at < s.len() {
            Ok(s[at])
        } else {
            Err(no_version(r))
        }
    }
}

/// Resolves a caller-supplied version reference: a snapshot id, `latest`, or
/// an offset like `~1` meaning "one version back".
pub fn resolve_ref(store: &Store, path: &str, reference: &str) -> (out: Result<Snapshot>)
    ensures
        match out {
            Ok(s) => referred(
                snapshot_models(store.snapshots@),
                path@,
                reference@,
                store.host.drives,
            ) == Ok::<
                SnapshotModel,
                ErrorModel,
            >(s@),
            Err(e) => referred(
                snapshot_models(store.snapshots@),
                path@,
                reference@,
                store.host.drives,
            ) == Err::<
                SnapshotModel,
                ErrorModel,
            >(e@),
        },
{
    let chars = chars_of(reference);
    let trimmed = trim(&chars);
    let r = string_of(trimmed);
    if trimmed.len() == 0 || equal_ignoring_case(r.as_str(), "latest") || equal_ignoring_case(
        r.as_str(),
        "current",
    ) {
        return match latest(store, path) {
            Some(s) => Ok(s),
            None => Err(not_found("no versions recorded for ", path)),
        };
    }
    if trimmed[0] == '~' {
        let rest = part(trimmed, 1, trimmed.len());
        assert(rest@ =~= r@.skip(1));
        let back: usize = match parse_usize(rest) {
            Some(n) => n,
            None => {
                let mut m = "bad version reference `".to_owned();
                m.append(reference);
                m.append("`");
                return Err(Error::Invalid(m));
            },
        };
        let ghost line = timeline(snapshot_models(store.snapshots@), path@, store.host.drives);
        let wanted: usize = if back < usize::MAX {
            back + 1
        } else {
            back
        };
        let rows = list_versions(store, path, wanted);
        let ghost models = snapshot_models(rows@);
        if back < rows.len() {
            assert(models[back as int] == rows@[back as int]@);
            return Ok(rows[back].copy());
        }
        proof {
            assert(models.len() == rows@.len());
            let all = snapshot_models(store.snapshots@);
            lemma_versions_back_len(all, path@, store.host.drives);
            crate::order::lemma_sorted_multiset(
                versions_back(all, path@, store.host.drives),
                newer_first(),
            );
            assert(all.len() == store.snapshots.len());
        }
        let mut m = path.to_owned();
        m.append(" has no version ");
        m.append(reference);
        return Err(Error::NotFound(m));
    }
    get(store, r.as_str())
}

/// The versions that were made since a moment, in the order of the store.
pub open spec fn made_since(s: Seq<SnapshotModel>, ms: i64) -> Seq<SnapshotModel>
    decreases s.len(),
{
    if s.len() == 0 {
        Seq::empty()
    } else if s.last().created_at >= ms {
        made_since(s.drop_last(), ms).push(s.last())
    } else {
        made_since(s.drop_last(), ms)
    }
}

/// Every version since a moment, newest first. Powers "changed overnight".
pub fn since(store: &Store, ms: i64, limit: usize) -> (out: Vec<Snapshot>)
    ensures
        snapshot_models(out@) == at_most(
            sorted(made_since(snapshot_models(store.snapshots@), ms), newer_first()),
            limit as nat,
        ),
{
    let ghost all = snapshot_models(store.snapshots@);
    let mut rows: Vec<Snapshot> = Vec::new();
    let mut i: usize = 0;
    assert(snapshot_models(rows@) =~= made_since(all.take(0), ms));
    while i < store.snapshots.len()
        invariant
            i <= store.snapshots@.len(),
            all == snapshot_models(store.snapshots@),
            snapshot_models(rows@) == made_since(all.take(i as int), ms),
        decreases store.snapshots@.len() - i,
    {
        assert(all.take(i + 1).drop_last() =~= all.take(i as int));
        if store.snapshots[i].created_at >= ms {
            let s = store.snapshots[i].copy();
            let ghost before = snapshot_models(rows@);
            rows.push(s);
            assert(snapshot_models(rows@) =~= before.push(s@));
        }
        i += 1;
    }
    assert(all.take(i as int) =~= all);
    let mut out = sort_newest_first(rows);
    cut_to(&mut out, limit);
    out
}

/// How many versions a document has.
pub fn version_count(store: &Store, path: &str) -> (out: usize)
    ensures
        out == versions_back(snapshot_models(store.snapshots@), path@, store.host.drives).len(),
{
    let found = collect_back(&store.snapshots, path, store.host.drives);
    assert(snapshot_models(found@).len() == found@.len());
    found.len()
}

/// The versions of one root, or of all.
pub open spec fn of_root(s: Seq<SnapshotModel>, root: Option<Seq<char>>) -> Seq<SnapshotModel>
    decreases s.len(),
{
    if s.len() == 0 {
        Seq::empty()
    } else {
        let front = of_root(s.drop_last(), root);
        let counts = match root {
            Some(id) => s.last().root_id == id,
            None => true,
        };
        if counts {
            front.push(s.last())
        } else {
            front
        }
    }
}

/// Is a path looked up under the key of one of these?
pub open spec fn keyed(paths: Seq<Seq<char>>, path: Seq<char>, any_case: bool) -> bool {
    exists|i: int| 0 <= i < paths.len() && same_key(#[trigger] paths[i], path, any_case)
}

/// The documents of some versions, each once, as they were first recorded.
pub open spec fn first_paths(s: Seq<SnapshotModel>, any_case: bool) -> Seq<Seq<char>>
    decreases s.len(),
{
    if s.len() == 0 {
        Seq::empty()
    } else {
        let front = first_paths(s.drop_last(), any_case);
        if keyed(front, s.last().path, any_case) {
            front
        } else {
            front.push(s.last().path)
        }
    }
}

/// A document's path as its newest version spells it.
pub open spec fn spelled(s: Seq<SnapshotModel>, path: Seq<char>, any_case: bool) -> Seq<char> {
    match newest(s, path, any_case) {
        Some(i) => s[i].path,
        None => path,
    }
}

/// The documents with any history, each once, in the order in which they were
/// first recorded; of one root, or of all.
pub open spec fn recorded_paths(
    s: Seq<SnapshotModel>,
    root: Option<Seq<char>>,
    any_case: bool,
) -> Seq<Seq<char>> {
    let own = of_root(s, root);
    let firsts = first_paths(own, any_case);
    Seq::new(firsts.len(), |i: int| spelled(own, firsts[i], any_case))
}

fn collect_of_root(snapshots: &[Snapshot], root: Option<&str>) -> (out: Vec<Snapshot>)
    ensures
        snapshot_models(out@) == of_root(snapshot_models(snapshots@), opt_str_view(root)),
{
    let ghost all = snapshot_models(snapshots@);
    let mut out: Vec<Snapshot> = Vec::new();
    let mut i: usize = 0;
    assert(snapshot_models(out@) =~= of_root(all.take(0), opt_str_view(root)));
    while i < snapshots.len()
        invariant
            i <= snapshots@.len(),
            all == snapshot_models(snapshots@),
            snapshot_models(out@) == of_root(all.take(i as int), opt_str_view(root)),
        decreases snapshots@.len() - i,
    {
        assert(all.take(i + 1).drop_last() =~= all.take(i as int));
        let counts = match root {
            Some(id) => same_str(snapshots[i].root_id.as_str(), id),
            None => true,
        };
        if counts {
            let ghost before = snapshot_models(out@);
            let s = snapshots[i].copy();
            out.push(s);
            assert(snapshot_models(out@) =~= before.push(s@));
        }
        i += 1;
    }
    assert(all.take(i as int) =~= all);
    out
}

fn is_keyed(paths: &[String], path: &str, any_case: bool) -> (out: bool)
    ensures
        out == keyed(views(paths@), path@, any_case),
{
    let mut i: usize = 0;
    while i < paths.len()
        invariant
            i <= paths@.len(),
            forall|k: int| 0 <= k < i ==> !same_key(#[trigger] views(paths@)[k], path@, any_case),
        decreases paths@.len() - i,
    {
        if key_eq(paths[i].as_str(), path, any_case) {
            assert(same_key(views(paths@)[i as int], path@, any_case));
            return true;
        }
        i += 1;
    }
    false
}

fn collect_paths(snapshots: &[Snapshot], root: Option<&str>, any_case: bool) -> (out: Vec<String>)
    ensures
        views(out@) == recorded_paths(
            snapshot_models(snapshots@),
            opt_str_view(root),
            any_case,
        ),
{
    let own = collect_of_root(snapshots, root);
    let ghost all = snapshot_models(own@);
    let mut firsts: Vec<String> = Vec::new();
    let mut i: usize = 0;
    assert(views(firsts@) =~= first_paths(all.take(0), any_case));
    while i < own.len()
        invariant
            i <= own@.len(),
            all == snapshot_models(own@),
            views(firsts@) == first_paths(all.take(i as int), any_case),
        decreases own@.len() - i,
    {
        assert(all.take(i + 1).drop_last() =~= all.take(i as int));
        if !is_keyed(&firsts, own[i].path.as_str(), any_case) {
            push_text(&mut firsts, own[i].path.clone());
        }
        i += 1;
    }
    assert(all.take(i as int) =~= all);
    let ghost goal = recorded_paths(snapshot_models(snapshots@), opt_str_view(root), any_case);
    assert(goal.len() == views(firsts@).len());
    let mut out: Vec<String> = Vec::new();
    let mut n: usize = 0;
    while n < firsts.len()
        invariant
            n <= firsts@.len(),
            all == snapshot_models(own@),
            goal.len() == firsts@.len(),
            forall|k: int|
                0 <= k < firsts@.len() ==> #[trigger] goal[k] == spelled(
                    all,
                    views(firsts@)[k],
                    any_case,
                ),
            views(out@) == goal.take(n as int),
        decreases firsts@.len() - n,
    {
        assert(goal[n as int] == spelled(all, firsts@[n as int]@, any_case));
        match latest_place(&own, firsts[n].as_str(), any_case) {
            Some(at) => push_text(&mut out, own[at].path.clone()),
            None => push_text(&mut out, firsts[n].clone()),
        }
        assert(goal.take(n + 1) =~= goal.take(n as int).push(goal[n as int]));
        n += 1;
    }
    assert(goal.take(n as int) =~= goal);
    out
}

/// Distinct paths that have any history, in order, optionally of one root.
pub fn tracked_paths(store: &Store, root_id: Option<&str>) -> (out: Vec<String>)
    ensures
        views(out@) == sorted_texts(
            recorded_paths(
                snapshot_models(store.snapshots@),
                opt_str_view(root_id),
                store.host.drives,
            ),
        ),
{
    sort_texts(collect_paths(&store.snapshots, root_id, store.host.drives))
}

/// How many documents of a root have any history.
pub fn count_docs(store: &Store, root_id: &str) -> (out: usize)
    ensures
        out == recorded_paths(
            snapshot_models(store.snapshots@),
            Some(root_id@),
            store.host.drives,
        ).len(),
{
    let found = collect_paths(&store.snapshots, Some(root_id), store.host.drives);
    assert(views(found@).len() == found@.len());
    found.len()
}

// ---------------------------------------------------------------------------
// The head of a timeline
// ---------------------------------------------------------------------------

/// The first row with the latest time.
spec fn head(b: Seq<SnapshotModel>) -> SnapshotModel
    decreases b.len(),
{
    if b.len() <= 1 {
        b[0]
    } else {
        let h = head(b.drop_last());
        if h.created_at >= b.last().created_at {
            h
        } else {
            b.last()
        }
    }
}

proof fn lemma_head_sorted(b: Seq<SnapshotModel>)
    requires
        b.len() > 0,
    ensures
        sorted(b, newer_first()).len() == b.len(),
        sorted(b, newer_first())[0] == head(b),
    decreases b.len(),
{
    let le = newer_first();
    let d = b.drop_last();
    assert(crate::order::is_total_order(le));
    crate::order::lemma_sorted_in_order(d, le);
    crate::order::lemma_inserted_head(sorted(d, le), b.last(), le);
    if d.len() > 0 {
        lemma_head_sorted(d);
    } else {
        assert(sorted(d, le).len() == 0);
    }
}

proof fn lemma_head_front(x: SnapshotModel, b: Seq<SnapshotModel>)
    ensures
        head(seq![x] + b) == (if b.len() == 0 || x.created_at >= head(b).created_at {
            x
        } else {
            head(b)
        }),
    decreases b.len(),
{
    let all = seq![x] + b;
    if b.len() > 0 {
        assert(all.drop_last() =~= seq![x] + b.drop_last());
        lemma_head_front(x, b.drop_last());
    }
}

/// A document is found under every spelling of its key: its newest version and
/// its timeline are the same for each.
pub proof fn law_found_by_key(
    s: Seq<SnapshotModel>,
    a: Seq<char>,
    b: Seq<char>,
    any_case: bool,
)
    requires
        same_key(a, b, any_case),
    ensures
        newest(s, a, any_case) == newest(s, b, any_case),
        versions_back(s, a, any_case) == versions_back(s, b, any_case),
        timeline(s, a, any_case) == timeline(s, b, any_case),
    decreases s.len(),
{
    if s.len() > 0 {
        law_found_by_key(s.drop_last(), a, b, any_case);
    }
}

/// The newest version is the first of the timeline, and a document without one
/// has an empty timeline.
pub proof fn law_latest_heads_timeline(s: Seq<SnapshotModel>, path: Seq<char>, any_case: bool)
    ensures
        match newest(s, path, any_case) {
            Some(i) => timeline(s, path, any_case).len() > 0 && timeline(
                s,
                path,
                any_case,
            )[0] == s[i],
            None => timeline(s, path, any_case).len() == 0,
        },
{
    lemma_newest_is_head(s, path, any_case);
    let b = versions_back(s, path, any_case);
    if b.len() > 0 {
        lemma_head_sorted(b);
    }
}

proof fn lemma_newest_is_head(s: Seq<SnapshotModel>, path: Seq<char>, any_case: bool)
    ensures
        match newest(s, path, any_case) {
            Some(i) => 0 <= i < s.len() && versions_back(s, path, any_case).len() > 0 && head(
                versions_back(s, path, any_case),
            ) == s[i],
            None => versions_back(s, path, any_case).len() == 0,
        },
    decreases s.len(),
{
    if s.len() > 0 {
        let d = s.drop_last();
        lemma_newest_is_head(d, path, any_case);
        lemma_head_front(s.last(), versions_back(d, path, any_case));
    }
}

/// A version that is recorded no earlier than the others of its document is
/// the newest, and versions of other documents stay as they were.
pub proof fn law_recorded_is_newest(
    s: Seq<SnapshotModel>,
    new: SnapshotModel,
    other: Seq<char>,
    any_case: bool,
)
    requires
        forall|i: int|
            0 <= i < s.len() && same_key((#[trigger] s[i]).path, new.path, any_case)
                ==> s[i].created_at <= new.created_at,
    ensures
        newest(s.push(new), new.path, any_case) == Some(s.len() as int),
        !same_key(new.path, other, any_case) ==> newest(s.push(new), other, any_case) == newest(
            s,
            other,
            any_case,
        ),
        !same_key(new.path, other, any_case) ==> timeline(s.push(new), other, any_case) == timeline(
            s,
            other,
            any_case,
        ),
{
    assert(s.push(new).drop_last() =~= s);
    law_newest(s, new.path, any_case);
}

proof fn lemma_versions_back(
    s: Seq<SnapshotModel>,
    path: Seq<char>,
    any_case: bool,
    mine: spec_fn(SnapshotModel) -> bool,
)
    requires
        forall|v: SnapshotModel| #[trigger] mine(v) == same_key(v.path, path, any_case),
    ensures
        versions_back(s, path, any_case).to_multiset() == s.filter(mine).to_multiset(),
    decreases s.len(),
{
    broadcast use vstd::seq_lib::group_to_multiset_ensures;

    reveal(Seq::filter);
    if s.len() > 0 {
        let d = s.drop_last();
        lemma_versions_back(d, path, any_case, mine);
        if mine(s.last()) {
            let back = versions_back(d, path, any_case);
            assert(seq![s.last()] + back =~= back.insert(0, s.last()));
        }
    }
}

/// A timeline holds every version of its document, and no other, the newer ones
/// first. The change in size that a row shows is what it has more than the next
/// older one; the oldest shows none.
pub proof fn law_timeline(s: Seq<SnapshotModel>, path: Seq<char>, any_case: bool)
    ensures
        ({
            let rows = timeline(s, path, any_case);
            let shown = with_deltas(rows);
            &&& rows.to_multiset() == s.filter(
                |v: SnapshotModel| same_key(v.path, path, any_case),
            ).to_multiset()
            &&& forall|i: int, j: int|
                0 <= i < j < rows.len() ==> (#[trigger] rows[i]).created_at >= (
                #[trigger] rows[j]).created_at
            &&& shown.len() == rows.len()
            &&& forall|i: int|
                0 <= i < rows.len() ==> (#[trigger] shown[i]).id == rows[i].id
                    && shown[i].blob_hash == rows[i].blob_hash && shown[i].size == rows[i].size
                    && shown[i].created_at == rows[i].created_at
            &&& forall|i: int|
                0 <= i < rows.len() - 1 && 0 <= rows[i].size && 0 <= rows[i + 1].size ==> (
                #[trigger] shown[i]).size_delta is Some && rows[i + 1].size
                    + shown[i].size_delta->0 == rows[i].size
            &&& rows.len() > 0 ==> shown.last().size_delta is None
        }),
{
    let mine = |v: SnapshotModel| same_key(v.path, path, any_case);
    lemma_versions_back(s, path, any_case, mine);
    let back = versions_back(s, path, any_case);
    crate::order::lemma_sorted_multiset(back, newer_first());
    assert(crate::order::is_total_order(newer_first()));
    crate::order::lemma_sorted_in_order(back, newer_first());
}

proof fn lemma_made_since(s: Seq<SnapshotModel>, ms: i64, late: spec_fn(SnapshotModel) -> bool)
    requires
        forall|v: SnapshotModel| #[trigger] late(v) == (v.created_at >= ms),
    ensures
        made_since(s, ms) == s.filter(late),
    decreases s.len(),
{
    reveal(Seq::filter);
    if s.len() > 0 {
        lemma_made_since(s.drop_last(), ms, late);
    }
}

/// What was made since a moment is every version that is no older, of all
/// documents, the newer ones first.
pub proof fn law_changes_since(s: Seq<SnapshotModel>, ms: i64)
    ensures
        ({
            let rows = sorted(made_since(s, ms), newer_first());
            &&& rows.to_multiset() == s.filter(
                |v: SnapshotModel| v.created_at >= ms,
            ).to_multiset()
            &&& forall|i: int, j: int|
                0 <= i < j < rows.len() ==> (#[trigger] rows[i]).created_at >= (
                #[trigger] rows[j]).created_at
        }),
{
    let late = |v: SnapshotModel| v.created_at >= ms;
    lemma_made_since(s, ms, late);
    crate::order::lemma_sorted_multiset(made_since(s, ms), newer_first());
    assert(crate::order::is_total_order(newer_first()));
    crate::order::lemma_sorted_in_order(made_since(s, ms), newer_first());
}

/// What references mean: `~n` is the version `n` places behind the newest, `~0`
/// and `latest` are the newest, and anything else that is the identifier of a
/// version is that version.
pub proof fn law_references(
    s: Seq<SnapshotModel>,
    path: Seq<char>,
    any_case: bool,
    n: usize,
    at: int,
)
    requires
        n < timeline(s, path, any_case).len(),
        0 <= at < s.len(),
        forall|k: int| 0 <= k < at ==> (#[trigger] s[k]).id != s[at].id,
        trim_of(s[at].id) == s[at].id,
        s[at].id.len() > 7,
        s[at].id[0] != '~',
    ensures
        referred(s, path, "~"@ + decimal_of(n as nat), any_case) matches Ok(v) && v.id == timeline(
            s,
            path,
            any_case,
        )[n as int].id && v.blob_hash == timeline(s, path, any_case)[n as int].blob_hash,
        referred(s, path, "latest"@, any_case) matches Ok(v) && v == timeline(
            s,
            path,
            any_case,
        )[0],
        referred(s, path, s[at].id, any_case) == Ok::<SnapshotModel, ErrorModel>(s[at]),
{
    reveal_strlit("~");
    reveal_strlit("latest");
    reveal_strlit("current");
    crate::text::lemma_decimal_value(n as nat);
    let d = decimal_of(n as nat);
    let r = "~"@ + d;
    assert(r[0] == '~');
    assert(crate::text::is_digit(d[d.len() - 1]));
    assert(r[r.len() - 1] == d[d.len() - 1]);
    assert(crate::text::trim_start_of(r) == r);
    assert(trim_of(r) == r);
    assert(r.skip(1) =~= d);
    assert(!same_ignoring_case(r, "latest"@)) by {
        if r.len() == 6 {
            assert(crate::text::ascii_lower_of(r[0]) != crate::text::ascii_lower_of("latest"@[0]));
        }
    }
    assert(!same_ignoring_case(r, "current"@)) by {
        if r.len() == 7 {
            assert(crate::text::ascii_lower_of(r[0]) != crate::text::ascii_lower_of("current"@[0]));
        }
    }
    law_latest_heads_timeline(s, path, any_case);
    let l = "latest"@;
    assert(crate::text::trim_start_of(l) == l);
    assert(trim_of(l) == l);
    assert(same_ignoring_case(l, "latest"@));
    let id = s[at].id;
    let ids = snapshot_ids(s);
    assert forall|k: int| 0 <= k < at implies #[trigger] ids[k] != id by {
        assert(s[k].id != id);
    }
    lemma_place(ids, id, at);
}

/// Every document with any history is tracked, once, under a path that one of
/// its versions has, and no other document is.
pub proof fn law_tracked_once(s: Seq<SnapshotModel>, any_case: bool)
    ensures
        ({
            let paths = recorded_paths(s, None, any_case);
            &&& forall|i: int|
                0 <= i < s.len() ==> keyed(paths, (#[trigger] s[i]).path, any_case)
            &&& forall|i: int, j: int|
                0 <= i < j < paths.len() ==> !same_key(
                    #[trigger] paths[i],
                    #[trigger] paths[j],
                    any_case,
                )
            &&& forall|i: int|
                0 <= i < paths.len() ==> exists|k: int|
                    0 <= k < s.len() && (#[trigger] s[k]).path == #[trigger] paths[i]
        }),
{
    lemma_of_all_roots(s);
    assert(of_root(s, None) == s);
    lemma_first_paths(s, any_case);
    let firsts = first_paths(s, any_case);
    let paths = recorded_paths(s, None, any_case);
    assert forall|i: int| 0 <= i < paths.len() implies same_key(
        #[trigger] paths[i],
        firsts[i],
        any_case,
    ) && exists|k: int| 0 <= k < s.len() && (#[trigger] s[k]).path == paths[i] by {
        law_newest(s, firsts[i], any_case);
        let k = choose|k: int| 0 <= k < s.len() && (#[trigger] s[k]).path == firsts[i];
        assert(same_key(s[k].path, firsts[i], any_case));
    }
    assert forall|i: int| 0 <= i < s.len() implies keyed(paths, (#[trigger] s[i]).path, any_case) by {
        assert(keyed(firsts, s[i].path, any_case));
        let k = choose|k: int|
            0 <= k < firsts.len() && same_key(#[trigger] firsts[k], s[i].path, any_case);
        assert(same_key(paths[k], firsts[k], any_case));
    }
    assert forall|i: int, j: int| 0 <= i < j < paths.len() implies !same_key(
        #[trigger] paths[i],
        #[trigger] paths[j],
        any_case,
    ) by {
        assert(!same_key(firsts[i], firsts[j], any_case));
        assert(same_key(paths[i], firsts[i], any_case) && same_key(paths[j], firsts[j], any_case));
    }
}

proof fn lemma_of_all_roots(s: Seq<SnapshotModel>)
    ensures
        of_root(s, None) == s,
    decreases s.len(),
{
    if s.len() > 0 {
        lemma_of_all_roots(s.drop_last());
        assert(s =~= s.drop_last().push(s.last()));
    } else {
        assert(of_root(s, None) =~= s);
    }
}

proof fn lemma_first_paths(s: Seq<SnapshotModel>, any_case: bool)
    ensures
        ({
            let firsts = first_paths(s, any_case);
            &&& forall|i: int|
                0 <= i < s.len() ==> keyed(firsts, (#[trigger] s[i]).path, any_case)
            &&& forall|i: int, j: int|
                0 <= i < j < firsts.len() ==> !same_key(
                    #[trigger] firsts[i],
                    #[trigger] firsts[j],
                    any_case,
                )
            &&& forall|i: int|
                0 <= i < firsts.len() ==> exists|k: int|
                    0 <= k < s.len() && (#[trigger] s[k]).path == #[trigger] firsts[i]
        }),
    decreases s.len(),
{
    if s.len() > 0 {
        let d = s.drop_last();
        lemma_first_paths(d, any_case);
        let before = first_paths(d, any_case);
        let firsts = first_paths(s, any_case);
        assert forall|i: int| 0 <= i < s.len() implies keyed(
            firsts,
            (#[trigger] s[i]).path,
            any_case,
        ) by {
            if i < d.len() {
                assert(d[i] == s[i]);
                assert(keyed(before, d[i].path, any_case));
                let k = choose|k: int|
                    0 <= k < before.len() && same_key(#[trigger] before[k], s[i].path, any_case);
                assert(firsts[k] == before[k]);
            } else if !keyed(before, s.last().path, any_case) {
                assert(firsts[before.len() as int] == s.last().path);
            }
        }
        assert forall|i: int, j: int| 0 <= i < j < firsts.len() implies !same_key(
            #[trigger] firsts[i],
            #[trigger] firsts[j],
            any_case,
        ) by {
            assert(firsts[i] == before[i]);
            if j < before.len() {
                assert(firsts[j] == before[j]);
            }
        }
        assert forall|i: int| 0 <= i < firsts.len() implies exists|k: int|
            0 <= k < s.len() && (#[trigger] s[k]).path == #[trigger] firsts[i] by {
            if i < before.len() {
                assert(firsts[i] == before[i]);
                let k = choose|k: int| 0 <= k < d.len() && (#[trigger] d[k]).path == before[i];
                assert(s[k].path == firsts[i]);
            } else {
                assert(s[s.len() - 1].path == firsts[i]);
            }
        }
    }
}

} // verus!
