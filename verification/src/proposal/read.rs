//! Reading proposals: what they would change, and whether the file moved.

use super::types::{proposal_models, Proposal, ProposalModel, Stats, Status};
use crate::comment::threads::limited;
use crate::diff::changes::{can_compare, cannot_compare, comparable, unwieldy};
use crate::diff::hunks::{added_of, diff_text, hunks_of, is_diff, least, removed_of, Diff, Options};
use crate::disk::{text_at, Disk, FileModel};
use crate::error::{Error, ErrorModel, Result};
use crate::order::{sorted, stable_sort};
use crate::store::blobs::blob_text;
use crate::store::Store;
use crate::table::{is_tally, lemma_place, listed, place_of, tally, Tally};
use crate::text::{equal_ignoring_case, push_text, same_ignoring_case, same_str, views};
use crate::util::{fold_all, hash_text, key_eq, keys_of, lines_of, same_key, text_hash};
use vstd::prelude::*;

verus! {

pub open spec fn proposal_ids(p: Seq<ProposalModel>) -> Seq<Seq<char>> {
    Seq::new(p.len(), |i: int| p[i].id)
}

/// What a reader is told who asks for a proposal that is not there.
pub open spec fn no_proposal(id: Seq<char>) -> ErrorModel {
    ErrorModel::NotFound("proposal "@ + id)
}

pub(crate) fn missing(id: &str) -> (out: Error)
    ensures
        out@ == no_proposal(id@),
{
    let mut m = "proposal ".to_owned();
    m.append(id);
    Error::NotFound(m)
}

/// Did the file change after the proposal's base? A proposal without a base
/// has nothing to move away from.
pub open spec fn moved(base: Option<Seq<char>>, current: Option<Seq<char>>) -> bool {
    match (base, current) {
        (Some(b), Some(text)) => b != text_hash(text),
        (Some(_), None) => true,
        _ => false,
    }
}

/// A text that is missing counts as empty.
pub open spec fn or_empty(text: Option<Seq<char>>) -> Seq<char> {
    match text {
        Some(t) => t,
        None => Seq::empty(),
    }
}

/// How the review view compares documents.
pub open spec fn review_options() -> Options {
    Options { context: 1, word_level_max_bytes: 4096 }
}

/// How much would change from one text to another.
pub open spec fn stats_of(current: Seq<char>, proposed: Seq<char>) -> Stats {
    let hunks = hunks_of(lines_of(current), lines_of(proposed), review_options());
    Stats {
        added: least(added_of(hunks), usize::MAX as int) as usize,
        removed: least(removed_of(hunks), usize::MAX as int) as usize,
        hunks: hunks.len() as usize,
    }
}

/// A proposal as it is read: with the derived conflict state, and with how much
/// it would change wherever its content is there and can be compared.
pub open spec fn decorated(
    p: ProposalModel,
    blobs: Map<Seq<char>, Seq<u8>>,
    disk: Map<Seq<char>, FileModel>,
) -> ProposalModel {
    let current = text_at(disk, p.path);
    ProposalModel {
        target_missing: current is None,
        status: if p.stored_status == Status::Pending && moved(p.base_blob_hash, current) {
            Status::Conflict
        } else {
            p.stored_status
        },
        stats: match blob_text(blobs, p.proposed_blob_hash) {
            Some(proposed) if comparable(or_empty(current), proposed) => Some(
                stats_of(or_empty(current), proposed),
            ),
            _ => None,
        },
        ..p
    }
}

/// Fills in what is derived of a proposal.
pub fn decorate(p: &Proposal, store: &Store, disk: &Disk) -> (out: Proposal)
    ensures
        out@ == decorated(p@, store.blobs@, disk@),
        out.stats matches Some(s) ==> s.added - s.removed == lines_of(
            blob_text(store.blobs@, p@.proposed_blob_hash)->0,
        ).len() - lines_of(or_empty(text_at(disk@, p@.path))).len(),
{
    let current = disk.read_text(p.path.as_str());
    let mut out = p.copy();
    out.target_missing = current.is_none();
    let gone = match (&p.base_blob_hash, &current) {
        (Some(b), Some(text)) => {
            let now = hash_text(text.as_str());
            !same_str(b.as_str(), now.as_str())
        },
        (Some(_), None) => true,
        _ => false,
    };
    out.status = if p.stored_status == Status::Pending && gone {
        Status::Conflict
    } else {
        p.stored_status
    };
    let against = match current {
        Some(text) => text,
        None => String::new(),
    };
    assert(against@ =~= or_empty(text_at(disk@, p.path@)));
    out.stats = match store.blobs.get_text(p.proposed_blob_hash.as_str()) {
        Ok(proposed) => {
            if can_compare(against.as_str(), proposed.as_str()) {
                let d = diff_text(against.as_str(), proposed.as_str());
                proof {
                    crate::diff::hunks::lemma_plain(against@);
                    crate::diff::hunks::lemma_plain(proposed@);
                }
                assert(crate::diff::hunks::hunk_models(d.hunks@).len() == d.hunks@.len());
                Some(Stats { added: d.added, removed: d.removed, hunks: d.hunks.len() })
            } else {
                None
            }
        },
        Err(_) => None,
    };
    out
}

pub(crate) fn find(proposals: &[Proposal], id: &str) -> (out: usize)
    ensures
        out == place_of(proposal_ids(proposal_models(proposals@)), id@),
        out <= proposals@.len(),
        out < proposals@.len() ==> proposals@[out as int].id@ == id@,
{
    let ghost ids = proposal_ids(proposal_models(proposals@));
    let mut i: usize = 0;
    while i < proposals.len() && !same_str(proposals[i].id.as_str(), id)
        invariant
            i <= proposals@.len(),
            ids == proposal_ids(proposal_models(proposals@)),
            forall|k: int| 0 <= k < i ==> #[trigger] ids[k] != id@,
        decreases proposals@.len() - i,
    {
        i += 1;
    }
    proof {
        lemma_place(ids, id@, i as int);
    }
    i
}

/// Is this the proposal with an identifier, as it is now?
pub open spec fn proposal_got(
    store: Store,
    disk: Disk,
    id: Seq<char>,
    out: Result<Proposal>,
) -> bool {
    let all = proposal_models(store.proposals@);
    match out {
        Ok(p) => listed(proposal_ids(all), id) && p@ == decorated(
            all[place_of(proposal_ids(all), id)],
            store.blobs@,
            disk@,
        ),
        Err(e) => !listed(proposal_ids(all), id) && e@ == no_proposal(id),
    }
}

/// The proposal with an identifier.
pub fn get(store: &Store, disk: &Disk, id: &str) -> (out: Result<Proposal>)
    ensures
        proposal_got(
            *store,
            *disk,
            id@,
            out,
        ),
{
    let at: usize = find(&store.proposals, id);
    if at < store.proposals.len() {
        Ok(decorate(&store.proposals[at], store, disk))
    } else {
        Err(missing(id))
    }
}

/// Which proposals to list.
#[derive(Debug)]
pub struct ListFilter {
    pub status: Option<Status>,
    pub path: Option<String>,
    pub client: Option<String>,
    /// How many at most; zero for all.
    pub limit: usize,
}

impl Default for ListFilter {
    fn default() -> (out: Self)
        ensures
            out.status is None,
            out.path is None,
            out.client is None,
            out.limit == 0,
    {
        ListFilter { status: None, path: None, client: None, limit: 0 }
    }
}

/// Does a proposal, as read, pass a filter?
pub open spec fn wanted(p: ProposalModel, filter: ListFilter, any_case: bool) -> bool {
    &&& filter.path matches Some(path) ==> same_key(p.path, path@, any_case)
    &&& filter.client matches Some(client) ==> same_ignoring_case(p.client, client@)
    &&& filter.status matches Some(s) ==> p.status == s
}

/// The proposals that pass a filter, as read, in the order of the store.
pub open spec fn selected(
    all: Seq<ProposalModel>,
    blobs: Map<Seq<char>, Seq<u8>>,
    disk: Map<Seq<char>, FileModel>,
    filter: ListFilter,
    any_case: bool,
) -> Seq<ProposalModel>
    decreases all.len(),
{
    if all.len() == 0 {
        Seq::empty()
    } else {
        let front = selected(all.drop_last(), blobs, disk, filter, any_case);
        let p = decorated(all.last(), blobs, disk);
        if wanted(p, filter, any_case) {
            front.push(p)
        } else {
            front
        }
    }
}

/// Newer proposals first.
pub open spec fn newer_first() -> spec_fn(ProposalModel, ProposalModel) -> bool {
    |a: ProposalModel, b: ProposalModel| a.created_at >= b.created_at
}

fn newer_or_same(a: &Proposal, b: &Proposal) -> (out: bool)
    ensures
        out == (a.created_at >= b.created_at),
{
    a.created_at >= b.created_at
}

fn passes(p: &Proposal, filter: &ListFilter, any_case: bool) -> (out: bool)
    ensures
        out == wanted(p@, *filter, any_case),
{
    if let Some(path) = &filter.path {
        if !key_eq(p.path.as_str(), path.as_str(), any_case) {
            return false;
        }
    }
    if let Some(client) = &filter.client {
        if !equal_ignoring_case(p.client.as_str(), client.as_str()) {
            return false;
        }
    }
    if let Some(s) = filter.status {
        if p.status != s {
            return false;
        }
    }
    true
}

/// The proposals that pass a filter, newest first.
pub fn list(store: &Store, disk: &Disk, filter: &ListFilter) -> (out: Vec<Proposal>)
    ensures
        proposal_models(out@) == limited(
            sorted(
                selected(
                    proposal_models(store.proposals@),
                    store.blobs@,
                    disk@,
                    *filter,
                    store.host.drives,
                ),
                newer_first(),
            ),
            filter.limit,
        ),
{
    let ghost all = proposal_models(store.proposals@);
    let mut found: Vec<Proposal> = Vec::new();
    let mut i: usize = 0;
    assert(proposal_models(found@) =~= selected(
        all.take(0),
        store.blobs@,
        disk@,
        *filter,
        store.host.drives,
    ));
    while i < store.proposals.len()
        invariant
            i <= store.proposals@.len(),
            all == proposal_models(store.proposals@),
            proposal_models(found@) == selected(
                all.take(i as int),
                store.blobs@,
                disk@,
                *filter,
                store.host.drives,
            ),
        decreases store.proposals@.len() - i,
    {
        assert(all.take(i + 1).drop_last() =~= all.take(i as int));
        let p = decorate(&store.proposals[i], store, disk);
        if passes(&p, filter, store.host.drives) {
            let ghost before = proposal_models(found@);
            found.push(p);
            assert(proposal_models(found@) =~= before.push(p@));
        }
        i += 1;
    }
    assert(all.take(i as int) =~= all);
    let ghost unsorted = found@;
    let ghost rel = |a: Proposal, b: Proposal| a.created_at >= b.created_at;
    let mut out = stable_sort(found, newer_or_same, Ghost(rel));
    proof {
        let f = |p: Proposal| p@;
        crate::order::lemma_sorted_map(unsorted, f, rel, newer_first());
        assert(proposal_models(unsorted) =~= unsorted.map_values(f));
        assert(proposal_models(out@) =~= out@.map_values(f));
    }
    if filter.limit > 0 && filter.limit < out.len() {
        let ghost full = proposal_models(out@);
        out.truncate(filter.limit);
        assert(proposal_models(out@) =~= full.take(filter.limit as int));
    }
    out
}

/// The documents of the proposals that wait, one for each proposal.
pub open spec fn pending_paths(all: Seq<ProposalModel>) -> Seq<Seq<char>>
    decreases all.len(),
{
    if all.len() == 0 {
        Seq::empty()
    } else if all.last().stored_status == Status::Pending {
        pending_paths(all.drop_last()).push(all.last().path)
    } else {
        pending_paths(all.drop_last())
    }
}

/// The documents of the proposals that wait, one for each proposal.
pub fn waiting(proposals: &[Proposal]) -> (out: Vec<String>)
    ensures
        views(out@) == pending_paths(proposal_models(proposals@)),
{
    let ghost all = proposal_models(proposals@);
    let mut keys: Vec<String> = Vec::new();
    let mut i: usize = 0;
    assert(views(keys@) =~= pending_paths(all.take(0)));
    while i < proposals.len()
        invariant
            i <= proposals@.len(),
            all == proposal_models(proposals@),
            views(keys@) == pending_paths(all.take(i as int)),
        decreases proposals@.len() - i,
    {
        assert(all.take(i + 1).drop_last() =~= all.take(i as int));
        if proposals[i].stored_status == Status::Pending {
            push_text(&mut keys, proposals[i].path.clone());
        }
        i += 1;
    }
    assert(all.take(i as int) =~= all);
    keys
}

/// Counts the proposals that wait for each document that has any, by its key.
pub fn pending_counts(store: &Store) -> (out: Vec<Tally>)
    ensures
        is_tally(
            out@,
            keys_of(pending_paths(proposal_models(store.proposals@)), store.host.drives),
        ),
{
    tally(&fold_all(&waiting(&store.proposals), store.host.drives))
}

/// The content that a proposal asks for.
pub fn proposed_content(store: &Store, proposal: &Proposal) -> (out: Result<String>)
    ensures
        match out {
            Ok(text) => blob_text(store.blobs@, proposal@.proposed_blob_hash) == Some(text@)
                && text@.len() <= store.blobs@[proposal@.proposed_blob_hash].len(),
            Err(e) => blob_text(store.blobs@, proposal@.proposed_blob_hash) is None && e@
                == ErrorModel::NotFound("blob "@ + proposal@.proposed_blob_hash),
        },
{
    store.blobs.get_text(proposal.proposed_blob_hash.as_str())
}

/// Why a proposal cannot be shown against what is on disk: its content is not
/// there, or the two are too large to be compared.
pub open spec fn review_refusal(
    p: ProposalModel,
    blobs: Map<Seq<char>, Seq<u8>>,
    disk: Map<Seq<char>, FileModel>,
) -> Option<ErrorModel> {
    match blob_text(blobs, p.proposed_blob_hash) {
        None => Some(ErrorModel::NotFound("blob "@ + p.proposed_blob_hash)),
        Some(proposed) => if comparable(or_empty(text_at(disk, p.path)), proposed) {
            None
        } else {
            Some(unwieldy())
        },
    }
}

/// The reviewable diff: current disk content on the left, proposal on the
/// right. Always recomputed against what is actually there now, so accepting a
/// hunk applies to reality rather than to a remembered base.
pub fn review_diff(store: &Store, disk: &Disk, proposal: &Proposal) -> (out: Result<
    (String, String, Diff),
>)
    ensures
        match out {
            Ok((current, proposed, d)) => current@ == or_empty(text_at(disk@, proposal@.path))
                && blob_text(store.blobs@, proposal@.proposed_blob_hash) == Some(proposed@)
                && comparable(current@, proposed@) && is_diff(
                d,
                lines_of(current@),
                lines_of(proposed@),
                review_options(),
            ),
            Err(e) => review_refusal(proposal@, store.blobs@, disk@) == Some(e@),
        },
{
    let current = match disk.read_text(proposal.path.as_str()) {
        Some(text) => text,
        None => String::new(),
    };
    assert(current@ =~= or_empty(text_at(disk@, proposal@.path)));
    match proposed_content(store, proposal) {
        Ok(proposed) => {
            if !can_compare(current.as_str(), proposed.as_str()) {
                return Err(cannot_compare());
            }
            let d = diff_text(current.as_str(), proposed.as_str());
            Ok((current, proposed, d))
        },
        Err(e) => Err(e),
    }
}

// ---------------------------------------------------------------------------
// Laws
// ---------------------------------------------------------------------------

/// A conflict is exactly "the file changed after the proposal's base", for a
/// proposal that waits; it goes away when the file holds the base again.
pub proof fn law_conflict_is_moved(
    p: ProposalModel,
    blobs: Map<Seq<char>, Seq<u8>>,
    disk: Map<Seq<char>, FileModel>,
)
    ensures
        p.stored_status != Status::Conflict ==> (decorated(p, blobs, disk).status
            == Status::Conflict <==> p.stored_status == Status::Pending && moved(
            p.base_blob_hash,
            text_at(disk, p.path),
        )),
        p.stored_status == Status::Pending && (p.base_blob_hash is None || (text_at(disk, p.path)
            matches Some(text) && p.base_blob_hash == Some(text_hash(text)))) ==> decorated(
            p,
            blobs,
            disk,
        ).status == Status::Pending,
        p.stored_status != Status::Pending ==> decorated(p, blobs, disk).status
            == p.stored_status,
{
}

proof fn lemma_selected(
    all: Seq<ProposalModel>,
    blobs: Map<Seq<char>, Seq<u8>>,
    disk: Map<Seq<char>, FileModel>,
    filter: ListFilter,
    any_case: bool,
    read: spec_fn(ProposalModel) -> ProposalModel,
    asked: spec_fn(ProposalModel) -> bool,
)
    requires
        forall|p: ProposalModel| #[trigger] read(p) == decorated(p, blobs, disk),
        forall|p: ProposalModel| #[trigger] asked(p) == wanted(p, filter, any_case),
    ensures
        selected(all, blobs, disk, filter, any_case) == all.map_values(read).filter(asked),
    decreases all.len(),
{
    reveal(Seq::filter);
    if all.len() > 0 {
        let d = all.drop_last();
        lemma_selected(d, blobs, disk, filter, any_case, read, asked);
        assert(all.map_values(read).drop_last() =~= d.map_values(read));
        assert(all.map_values(read).last() == read(all.last()));
    } else {
        assert(all.map_values(read) =~= Seq::empty());
    }
}

/// A list holds the proposals that are asked for, each once, and no other: those
/// for the document, of the client, with the status that they have now. The
/// newest comes first, and a limit keeps the first ones.
pub proof fn law_list_is_what_is_asked_for(
    all: Seq<ProposalModel>,
    blobs: Map<Seq<char>, Seq<u8>>,
    disk: Map<Seq<char>, FileModel>,
    filter: ListFilter,
    any_case: bool,
)
    ensures
        ({
            let list = sorted(selected(all, blobs, disk, filter, any_case), newer_first());
            let shown = limited(list, filter.limit);
            let asked = all.map_values(|p: ProposalModel| decorated(p, blobs, disk)).filter(
                |p: ProposalModel|
                    (filter.path matches Some(path) ==> same_key(p.path, path@, any_case)) && (
                    filter.client matches Some(client) ==> same_ignoring_case(p.client, client@))
                        && (filter.status matches Some(s) ==> p.status == s),
            );
            &&& list.to_multiset() == asked.to_multiset()
            &&& forall|i: int, j: int|
                0 <= i < j < list.len() ==> (#[trigger] list[i]).created_at >= (
                #[trigger] list[j]).created_at
            &&& filter.limit == 0 ==> shown == list
            &&& filter.limit > 0 ==> shown == list.take(
                least(filter.limit as int, list.len() as int),
            )
        }),
{
    let read = |p: ProposalModel| decorated(p, blobs, disk);
    let asked = |p: ProposalModel|
        (filter.path matches Some(path) ==> same_key(p.path, path@, any_case)) && (
        filter.client matches Some(client) ==> same_ignoring_case(p.client, client@)) && (
        filter.status matches Some(s) ==> p.status == s);
    lemma_selected(all, blobs, disk, filter, any_case, read, asked);
    let found = selected(all, blobs, disk, filter, any_case);
    crate::order::lemma_sorted_multiset(found, newer_first());
    assert(crate::order::is_total_order(newer_first()));
    crate::order::lemma_sorted_in_order(found, newer_first());
    let list = sorted(found, newer_first());
    assert forall|i: int, j: int| 0 <= i < j < list.len() implies (#[trigger] list[i]).created_at
        >= (#[trigger] list[j]).created_at by {
        assert(newer_first()(list[i], list[j]));
    }
    assert(list.take(list.len() as int) =~= list);
}

} // verus!
