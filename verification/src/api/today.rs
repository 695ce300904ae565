//! The morning view: what is open, and what changed since the last review.

use super::docs::{doc_summaries, rows_of, summaries};
use super::tasks::{collect_tasks, tasks_over};
use crate::artifact::task::{task_models, Filter, Task, TaskModel};
use crate::comment::threads::{limited, open_paths, open_threads, selected, urgency};
use crate::comment::types::{comment_models, Comment, CommentModel};
use crate::comment::{self, ListFilter};
use crate::config::Config;
use crate::corpus::ArtifactType;
use crate::diff::hunks::least;
use crate::disk::{Disk, FileModel};
use crate::order::{lemma_sorted_same, sorted};
use crate::proposal::read::{pending_paths, waiting};
use crate::proposal::types::{open_status, proposal_models, Proposal, ProposalModel};
use crate::proposal;
use crate::store::blobs::total_of;
use crate::store::clients::{active_of, client_models, Client};
use crate::store::{meta_map, setting, Store};
use crate::text::{
    chars_of, integer, integer_of, law_integer_round_trip, law_sorted_texts, law_text_order,
    opt_view, parse_i64, push_text, same_str, signed_of, sort_texts, sorted_texts, text_le, views,
};
use crate::util::{clamped, is_date, minus, ms_to_rfc3339, now_ms, rfc3339_of};
use crate::version::history::{at_most, made_since, newer_first, since};
use crate::version::types::{snapshot_models, Snapshot, SnapshotModel};
use vstd::prelude::*;

verus! {

// ---------------------------------------------------------------------------
// Groups
// ---------------------------------------------------------------------------

/// A label on the item at a place of a list.
#[derive(Debug)]
pub struct Label {
    pub key: String,
    pub at: usize,
}

/// What a label is.
pub struct LabelModel {
    pub key: Seq<char>,
    pub at: int,
}

pub open spec fn label_models(labels: Seq<Label>) -> Seq<LabelModel> {
    Seq::new(labels.len(), |i: int| LabelModel { key: labels[i].key@, at: labels[i].at as int })
}

/// The places of the items with one label.
#[derive(Debug)]
pub struct Group {
    pub key: String,
    pub members: Vec<usize>,
}

/// What a group is.
pub struct GroupModel {
    pub key: Seq<char>,
    pub members: Seq<int>,
}

pub open spec fn group_models(groups: Seq<Group>) -> Seq<GroupModel> {
    Seq::new(
        groups.len(),
        |i: int| GroupModel { key: groups[i].key@, members: places(groups[i].members@) },
    )
}

pub open spec fn places(members: Seq<usize>) -> Seq<int> {
    Seq::new(members.len(), |i: int| members[i] as int)
}

/// The places with a label, in the order of the labels.
pub open spec fn members_of(labels: Seq<LabelModel>, key: Seq<char>) -> Seq<int>
    decreases labels.len(),
{
    if labels.len() == 0 {
        Seq::empty()
    } else if labels.last().key == key {
        members_of(labels.drop_last(), key).push(labels.last().at)
    } else {
        members_of(labels.drop_last(), key)
    }
}

/// Ordered texts without their repetitions.
pub open spec fn unique(keys: Seq<Seq<char>>) -> Seq<Seq<char>>
    decreases keys.len(),
{
    if keys.len() == 0 {
        Seq::empty()
    } else if keys.len() > 1 && keys[keys.len() - 2] == keys.last() {
        unique(keys.drop_last())
    } else {
        unique(keys.drop_last()).push(keys.last())
    }
}

/// The keys of some labels.
pub open spec fn keys_of(labels: Seq<LabelModel>) -> Seq<Seq<char>> {
    Seq::new(labels.len(), |i: int| labels[i].key)
}

/// The items by their labels, in the order of the labels. The extra keys have
/// a group even if nothing carries them.
pub open spec fn groups_of(labels: Seq<LabelModel>, extra: Seq<Seq<char>>) -> Seq<GroupModel> {
    let keys = unique(sorted_texts(extra + keys_of(labels)));
    Seq::new(
        keys.len(),
        |i: int| GroupModel { key: keys[i], members: members_of(labels, keys[i]) },
    )
}

fn collect_members(labels: &[Label], key: &str) -> (out: Vec<usize>)
    ensures
        places(out@) == members_of(label_models(labels@), key@),
{
    let ghost all = label_models(labels@);
    let mut out: Vec<usize> = Vec::new();
    let mut i: usize = 0;
    assert(places(out@) =~= members_of(all.take(0), key@));
    while i < labels.len()
        invariant
            i <= labels@.len(),
            all == label_models(labels@),
            places(out@) == members_of(all.take(i as int), key@),
        decreases labels@.len() - i,
    {
        assert(all.take(i + 1).drop_last() =~= all.take(i as int));
        assert(all.take(i + 1).last() == all[i as int]);
        if same_str(labels[i].key.as_str(), key) {
            let ghost before = places(out@);
            out.push(labels[i].at);
            assert(places(out@) =~= before.push(labels@[i as int].at as int));
        }
        i += 1;
    }
    assert(all.take(i as int) =~= all);
    out
}

/// Ordered texts without their repetitions.
pub fn distinct(keys: &[String]) -> (out: Vec<String>)
    ensures
        views(out@) == unique(views(keys@)),
{
    let ghost all = views(keys@);
    let mut out: Vec<String> = Vec::new();
    let mut i: usize = 0;
    assert(views(out@) =~= unique(all.take(0)));
    while i < keys.len()
        invariant
            i <= keys@.len(),
            all == views(keys@),
            views(out@) == unique(all.take(i as int)),
        decreases keys@.len() - i,
    {
        assert(all.take(i + 1).drop_last() =~= all.take(i as int));
        let repeated = i > 0 && same_str(keys[i - 1].as_str(), keys[i].as_str());
        if !repeated {
            push_text(&mut out, keys[i].clone());
        }
        i += 1;
    }
    assert(all.take(i as int) =~= all);
    out
}

/// Groups items by their labels.
pub fn group(labels: &[Label], extra: &[String]) -> (out: Vec<Group>)
    ensures
        group_models(out@) == groups_of(label_models(labels@), views(extra@)),
{
    let ghost all = label_models(labels@);
    let mut keys: Vec<String> = crate::text::copy_texts(extra);
    let mut i: usize = 0;
    assert(views(keys@) =~= views(extra@) + keys_of(all.take(0)));
    while i < labels.len()
        invariant
            i <= labels@.len(),
            all == label_models(labels@),
            views(keys@) == views(extra@) + keys_of(all.take(i as int)),
        decreases labels@.len() - i,
    {
        let ghost before = views(keys@);
        push_text(&mut keys, labels[i].key.clone());
        assert(before.push(all[i as int].key) =~= views(extra@) + keys_of(all.take(i + 1)));
        i += 1;
    }
    assert(all.take(i as int) =~= all);
    let ordered = sort_texts(keys);
    let names = distinct(&ordered);
    let ghost want = groups_of(all, views(extra@));
    assert(views(names@) == unique(sorted_texts(views(extra@) + keys_of(all))));
    let mut out: Vec<Group> = Vec::new();
    let mut k: usize = 0;
    assert(group_models(out@) =~= want.take(0));
    while k < names.len()
        invariant
            k <= names@.len(),
            all == label_models(labels@),
            views(names@) == unique(sorted_texts(views(extra@) + keys_of(all))),
            want == groups_of(all, views(extra@)),
            group_models(out@) == want.take(k as int),
        decreases names@.len() - k,
    {
        let members = collect_members(labels, names[k].as_str());
        let ghost before = group_models(out@);
        let g = Group { key: names[k].clone(), members: members };
        assert(views(names@)[k as int] == names@[k as int]@);
        assert(want[k as int] == GroupModel { key: g.key@, members: places(g.members@) });
        out.push(g);
        assert(group_models(out@) =~= before.push(want[k as int]));
        assert(want.take(k + 1) =~= want.take(k as int).push(want[k as int]));
        k += 1;
    }
    assert(want.take(k as int) =~= want);
    out
}

// ---------------------------------------------------------------------------
// Labels
// ---------------------------------------------------------------------------

/// Whose task it is.
pub open spec fn owner_of(t: TaskModel) -> Seq<char> {
    match t.owner {
        Some(o) => o,
        None => "unassigned"@,
    }
}

/// Each task with its owner.
pub open spec fn owner_labels(tasks: Seq<TaskModel>) -> Seq<LabelModel> {
    Seq::new(tasks.len(), |i: int| LabelModel { key: owner_of(tasks[i]), at: i })
}

/// The tags of the task at a place, as labels.
pub open spec fn tag_labels_of(tags: Seq<Seq<char>>, at: int) -> Seq<LabelModel> {
    Seq::new(tags.len(), |i: int| LabelModel { key: tags[i], at: at })
}

/// Each task with each of its tags.
pub open spec fn tag_labels(tasks: Seq<TaskModel>) -> Seq<LabelModel>
    decreases tasks.len(),
{
    if tasks.len() == 0 {
        Seq::empty()
    } else {
        tag_labels(tasks.drop_last()) + tag_labels_of(
            tasks.last().tags,
            (tasks.len() - 1) as int,
        )
    }
}

/// A group of its own where there are tasks without a tag. It is a heading
/// alone: a task that has no tag stands in no group by tag, this one included.
pub open spec fn untagged(tasks: Seq<TaskModel>) -> Seq<Seq<char>> {
    if exists|i: int| 0 <= i < tasks.len() && (#[trigger] tasks[i]).tags.len() == 0 {
        seq!["untagged"@]
    } else {
        Seq::empty()
    }
}

/// Each change with its author.
pub open spec fn author_labels(changes: Seq<SnapshotModel>) -> Seq<LabelModel> {
    Seq::new(changes.len(), |i: int| LabelModel { key: changes[i].author, at: i })
}

fn label_owners(tasks: &[Task]) -> (out: Vec<Label>)
    ensures
        label_models(out@) == owner_labels(task_models(tasks@)),
{
    let ghost want = owner_labels(task_models(tasks@));
    let mut out: Vec<Label> = Vec::new();
    let mut i: usize = 0;
    assert(label_models(out@) =~= want.take(0));
    while i < tasks.len()
        invariant
            i <= tasks@.len(),
            want == owner_labels(task_models(tasks@)),
            label_models(out@) == want.take(i as int),
        decreases tasks@.len() - i,
    {
        let key = match &tasks[i].owner {
            Some(o) => o.clone(),
            None => "unassigned".to_owned(),
        };
        let ghost before = label_models(out@);
        assert(task_models(tasks@)[i as int] == tasks@[i as int]@);
        assert(key@ == owner_of(tasks@[i as int]@));
        out.push(Label { key: key, at: i });
        assert(label_models(out@) =~= before.push(want[i as int]));
        assert(want.take(i + 1) =~= want.take(i as int).push(want[i as int]));
        i += 1;
    }
    assert(want.take(i as int) =~= want);
    out
}

fn push_tags(out: &mut Vec<Label>, tags: &[String], at: usize)
    ensures
        label_models(final(out)@) == label_models(old(out)@) + tag_labels_of(
            views(tags@),
            at as int,
        ),
{
    let ghost start = label_models(out@);
    let ghost want = tag_labels_of(views(tags@), at as int);
    let mut i: usize = 0;
    assert(label_models(out@) =~= start + want.take(0));
    while i < tags.len()
        invariant
            i <= tags@.len(),
            want == tag_labels_of(views(tags@), at as int),
            label_models(out@) == start + want.take(i as int),
        decreases tags@.len() - i,
    {
        let ghost before = label_models(out@);
        assert(views(tags@)[i as int] == tags@[i as int]@);
        out.push(Label { key: tags[i].clone(), at: at });
        assert(label_models(out@) =~= before.push(want[i as int]));
        assert(start + want.take(i + 1) =~= (start + want.take(i as int)).push(want[i as int]));
        i += 1;
    }
    assert(want.take(i as int) =~= want);
}

fn label_tags(tasks: &[Task]) -> (out: (Vec<Label>, Vec<String>))
    ensures
        label_models(out.0@) == tag_labels(task_models(tasks@)),
        views(out.1@) == untagged(task_models(tasks@)),
{
    let ghost all = task_models(tasks@);
    let mut labels: Vec<Label> = Vec::new();
    let mut bare = false;
    let mut i: usize = 0;
    assert(label_models(labels@) =~= tag_labels(all.take(0)));
    while i < tasks.len()
        invariant
            i <= tasks@.len(),
            all == task_models(tasks@),
            label_models(labels@) == tag_labels(all.take(i as int)),
            bare == (exists|k: int| 0 <= k < i && (#[trigger] all[k]).tags.len() == 0),
        decreases tasks@.len() - i,
    {
        assert(all.take(i + 1).drop_last() =~= all.take(i as int));
        assert(all.take(i + 1).last() == tasks@[i as int]@);
        if tasks[i].tags.len() == 0 {
            assert(all[i as int].tags.len() == 0);
            bare = true;
        }
        push_tags(&mut labels, &tasks[i].tags, i);
        i += 1;
    }
    assert(all.take(i as int) =~= all);
    let mut extra: Vec<String> = Vec::new();
    if bare {
        push_text(&mut extra, "untagged".to_owned());
    }
    assert(views(extra@) =~= untagged(all));
    (labels, extra)
}

fn label_authors(changes: &[Snapshot]) -> (out: Vec<Label>)
    ensures
        label_models(out@) == author_labels(snapshot_models(changes@)),
{
    let ghost want = author_labels(snapshot_models(changes@));
    let mut out: Vec<Label> = Vec::new();
    let mut i: usize = 0;
    assert(label_models(out@) =~= want.take(0));
    while i < changes.len()
        invariant
            i <= changes@.len(),
            want == author_labels(snapshot_models(changes@)),
            label_models(out@) == want.take(i as int),
        decreases changes@.len() - i,
    {
        let ghost before = label_models(out@);
        out.push(Label { key: changes[i].author.clone(), at: i });
        assert(label_models(out@) =~= before.push(want[i as int]));
        assert(want.take(i + 1) =~= want.take(i as int).push(want[i as int]));
        i += 1;
    }
    assert(want.take(i as int) =~= want);
    out
}

// ---------------------------------------------------------------------------
// The review session
// ---------------------------------------------------------------------------

/// When the last review was, as of `now`. On the first run "overnight" means
/// the last day.
pub open spec fn review_start(store: Store, now: i64) -> int {
    let last = match setting(meta_map(store.meta@), "last_review_at"@) {
        Some(text) => signed_of(text),
        None => None,
    };
    match last {
        Some(ms) => ms as int,
        None => clamped(now - 86_400_000),
    }
}

/// When the last review was.
pub fn last_review_at(store: &Store, now: i64) -> (out: i64)
    ensures
        out == review_start(*store, now),
{
    let last = match store.get_meta("last_review_at") {
        Some(text) => parse_i64(&chars_of(text.as_str())),
        None => None,
    };
    match last {
        Some(ms) => ms,
        None => minus(now, 86_400_000),
    }
}

/// Notes that everything was reviewed at a moment.
pub fn mark_reviewed(store: &mut Store, now: i64)
    ensures
        meta_map(final(store).meta@) == meta_map(old(store).meta@).insert(
            "last_review_at"@,
            integer_of(now as int),
        ),
        *final(store) == (Store { meta: final(store).meta, ..*old(store) }),
{
    let text = integer(now);
    store.set_meta("last_review_at", text.as_str());
}

/// After a review the next one starts where it was.
pub proof fn law_review_starts_where_it_was_marked(was: Store, is: Store, now: i64, later: i64)
    requires
        meta_map(is.meta@) == meta_map(was.meta@).insert(
            "last_review_at"@,
            integer_of(now as int),
        ),
    ensures
        review_start(is, later) == now,
{
    law_integer_round_trip(now);
}

// ---------------------------------------------------------------------------
// Today
// ---------------------------------------------------------------------------

/// The morning view.
#[derive(Debug)]
pub struct Today {
    pub since: i64,
    pub since_iso: String,
    /// How many tasks there are, done or not.
    pub total: usize,
    /// The open tasks.
    pub open: Vec<Task>,
    /// The open tasks, by owner.
    pub by_owner: Vec<Group>,
    /// The open tasks, by tag.
    pub by_tag: Vec<Group>,
    pub threads: Vec<Comment>,
    pub outdated_threads: Vec<Comment>,
    /// The versions made since the last review, newest first.
    pub changes: Vec<Snapshot>,
    /// The changes, by author.
    pub by_author: Vec<Group>,
    /// The proposals that wait for a decision.
    pub proposals: Vec<Proposal>,
}

/// The tasks that are not done.
pub open spec fn not_done(tasks: Seq<TaskModel>) -> Seq<TaskModel>
    decreases tasks.len(),
{
    if tasks.len() == 0 {
        Seq::empty()
    } else if !tasks.last().done {
        not_done(tasks.drop_last()).push(tasks.last())
    } else {
        not_done(tasks.drop_last())
    }
}

/// The proposals that are neither accepted nor rejected.
pub open spec fn undecided(p: Seq<ProposalModel>) -> Seq<ProposalModel>
    decreases p.len(),
{
    if p.len() == 0 {
        Seq::empty()
    } else if open_status(p.last().status) {
        undecided(p.drop_last()).push(p.last())
    } else {
        undecided(p.drop_last())
    }
}

/// Everything goes through.
pub open spec fn no_filter() -> Filter {
    Filter { owner: None, tag: None, open_only: false, query: None }
}

/// Every task of the task lists in the corpus.
pub open spec fn all_tasks(
    store: Store,
    disk: Map<Seq<char>, FileModel>,
    cfg: Config,
) -> Seq<TaskModel> {
    tasks_over(
        summaries(
            store,
            disk,
            rows_of(snapshot_models(store.snapshots@), store.host.drives),
            None,
            Some(ArtifactType::TaskList),
        ),
        disk,
        cfg,
        no_filter(),
    )
}

/// The two hundred most urgent threads with a status.
pub open spec fn threads_with(
    store: Store,
    disk: Map<Seq<char>, FileModel>,
    status: comment::Status,
) -> Seq<CommentModel> {
    let filter = ListFilter {
        path: None,
        status: Some(status),
        participant: None,
        limit: 200,
    };
    limited(
        sorted(
            selected(comment_models(store.comments@), disk, filter, store.host.drives),
            urgency(),
        ),
        200,
    )
}

/// The two hundred newest proposals.
pub open spec fn newest_proposals(
    store: Store,
    disk: Map<Seq<char>, FileModel>,
) -> Seq<ProposalModel> {
    let filter = proposal::ListFilter { status: None, path: None, client: None, limit: 200 };
    limited(
        sorted(
            proposal::read::selected(
                proposal_models(store.proposals@),
                store.blobs@,
                disk,
                filter,
                store.host.drives,
            ),
            proposal::read::newer_first(),
        ),
        200,
    )
}

/// Is this the view of the time since a moment?
pub open spec fn is_today(
    t: Today,
    store: Store,
    disk: Map<Seq<char>, FileModel>,
    cfg: Config,
    start: i64,
) -> bool {
    let tasks = all_tasks(store, disk, cfg);
    let open = not_done(tasks);
    let changes = at_most(
        sorted(made_since(snapshot_models(store.snapshots@), start), newer_first()),
        500,
    );
    &&& t.since == start
    &&& rfc3339_of(start) matches Some(text) ==> t.since_iso@ == text
    &&& is_date(t.since_iso@)
    &&& t.total == tasks.len()
    &&& task_models(t.open@) == open
    &&& group_models(t.by_owner@) == groups_of(owner_labels(open), Seq::empty())
    &&& group_models(t.by_tag@) == groups_of(tag_labels(open), untagged(open))
    &&& comment_models(t.threads@) == threads_with(store, disk, comment::Status::Open)
    &&& comment_models(t.outdated_threads@) == threads_with(
        store,
        disk,
        comment::Status::Outdated,
    )
    &&& snapshot_models(t.changes@) == changes
    &&& group_models(t.by_author@) == groups_of(author_labels(changes), Seq::empty())
    &&& proposal_models(t.proposals@) == undecided(newest_proposals(store, disk))
}

fn still_open(tasks: &[Task]) -> (out: Vec<Task>)
    ensures
        task_models(out@) == not_done(task_models(tasks@)),
{
    let ghost all = task_models(tasks@);
    let mut out: Vec<Task> = Vec::new();
    let mut i: usize = 0;
    assert(task_models(out@) =~= not_done(all.take(0)));
    while i < tasks.len()
        invariant
            i <= tasks@.len(),
            all == task_models(tasks@),
            task_models(out@) == not_done(all.take(i as int)),
        decreases tasks@.len() - i,
    {
        assert(all.take(i + 1).drop_last() =~= all.take(i as int));
        assert(all.take(i + 1).last() == tasks@[i as int]@);
        if !tasks[i].done {
            let ghost before = task_models(out@);
            let t = tasks[i].copy();
            out.push(t);
            assert(task_models(out@) =~= before.push(t@));
        }
        i += 1;
    }
    assert(all.take(i as int) =~= all);
    out
}

fn still_waiting(found: &[Proposal]) -> (out: Vec<Proposal>)
    ensures
        proposal_models(out@) == undecided(proposal_models(found@)),
{
    let ghost all = proposal_models(found@);
    let mut out: Vec<Proposal> = Vec::new();
    let mut i: usize = 0;
    assert(proposal_models(out@) =~= undecided(all.take(0)));
    while i < found.len()
        invariant
            i <= found@.len(),
            all == proposal_models(found@),
            proposal_models(out@) == undecided(all.take(i as int)),
        decreases found@.len() - i,
    {
        assert(all.take(i + 1).drop_last() =~= all.take(i as int));
        assert(all.take(i + 1).last() == found@[i as int]@);
        if found[i].status.is_open() {
            let ghost before = proposal_models(out@);
            let p = found[i].copy();
            out.push(p);
            assert(proposal_models(out@) =~= before.push(p@));
        }
        i += 1;
    }
    assert(all.take(i as int) =~= all);
    out
}

fn threads(store: &Store, disk: &Disk, status: comment::Status) -> (out: Vec<Comment>)
    ensures
        comment_models(out@) == threads_with(*store, disk@, status),
{
    let filter = ListFilter { path: None, status: Some(status), participant: None, limit: 200 };
    comment::threads::list(store, disk, &filter)
}

/// The morning view: open tasks across the whole corpus, open comments, and
/// every change since the last review session grouped by author.
pub fn today_at(store: &Store, disk: &Disk, cfg: &Config, now: i64) -> (out: Today)
    ensures
        is_today(out, *store, disk@, *cfg, review_start(*store, now) as i64),
{
    let start = last_review_at(store, now);
    let docs = doc_summaries(store, disk, None, Some(ArtifactType::TaskList));
    let filter = Filter { owner: None, tag: None, open_only: false, query: None };
    let tasks = collect_tasks(&docs, disk, cfg, &filter);
    let open = still_open(&tasks);
    let nothing: Vec<String> = Vec::new();
    assert(views(nothing@) =~= Seq::empty());
    let by_owner = group(&label_owners(&open), &nothing);
    let (tag_list, extra) = label_tags(&open);
    let by_tag = group(&tag_list, &extra);
    let changes = since(store, start, 500);
    let by_author = group(&label_authors(&changes), &nothing);
    let wanted = proposal::ListFilter { status: None, path: None, client: None, limit: 200 };
    let found = proposal::read::list(store, disk, &wanted);
    Today {
        since: start,
        since_iso: ms_to_rfc3339(start),
        total: tasks.len(),
        open: open,
        by_owner: by_owner,
        by_tag: by_tag,
        threads: threads(store, disk, comment::Status::Open),
        outdated_threads: threads(store, disk, comment::Status::Outdated),
        changes: changes,
        by_author: by_author,
        proposals: still_waiting(&found),
    }
}

/// The morning view, as of now.
pub fn today(store: &Store, disk: &Disk, cfg: &Config) -> (out: Today)
    ensures
        exists|now: i64|
            is_today(
                out,
                *store,
                disk@,
                *cfg,
                #[trigger] review_start(*store, now) as i64,
            ),
{
    let now = now_ms();
    today_at(store, disk, cfg, now)
}

// ---------------------------------------------------------------------------
// Status
// ---------------------------------------------------------------------------

/// The state of the whole, at a glance.
#[derive(Debug)]
pub struct StatusView {
    pub store_bytes: u64,
    pub cloud_sync_warning: Option<String>,
    pub watching: usize,
    pub clients: Vec<Client>,
    pub pending_proposals: usize,
    pub open_comments: usize,
    pub roots: usize,
}

/// Is this the state as of a moment, where the index takes `index_bytes` bytes
/// on disk and `watching` roots are watched?
pub open spec fn is_status(
    v: StatusView,
    store: Store,
    disk: Map<Seq<char>, FileModel>,
    cfg: Config,
    index_bytes: u64,
    watching: usize,
    now: i64,
) -> bool {
    &&& v.store_bytes == least(
        index_bytes + least(total_of(store.blobs.blobs@) as int, u64::MAX as int),
        u64::MAX as int,
    )
    &&& opt_view(v.cloud_sync_warning) == (match setting(
        meta_map(store.meta@),
        "cloud_sync_warning"@,
    ) {
        Some(s) if s.len() > 0 => Some(s),
        _ => None,
    })
    &&& v.watching == watching
    &&& client_models(v.clients@) == active_of(
        client_models(store.clients@),
        clamped(now - cfg.client_active_window_ms),
    )
    &&& v.pending_proposals == pending_paths(proposal_models(store.proposals@)).len()
    &&& v.open_comments == open_paths(comment_models(store.comments@), disk).len()
    &&& v.roots == store.roots@.len()
}

/// The state of the whole as of a moment.
pub fn status_at(
    store: &Store,
    disk: &Disk,
    cfg: &Config,
    index_bytes: u64,
    watching: usize,
    now: i64,
) -> (out: StatusView)
    ensures
        is_status(out, *store, disk@, *cfg, index_bytes, watching, now),
{
    let pending = waiting(&store.proposals);
    let open = open_threads(store, disk);
    assert(views(pending@).len() == pending@.len());
    assert(views(open@).len() == open@.len());
    StatusView {
        store_bytes: store.size_bytes(index_bytes),
        cloud_sync_warning: store.cloud_sync_warning(),
        watching: watching,
        clients: store.active_clients_at(cfg.client_active_window_ms, now),
        pending_proposals: pending.len(),
        open_comments: open.len(),
        roots: store.roots.len(),
    }
}

// ---------------------------------------------------------------------------
// Laws
// ---------------------------------------------------------------------------

/// Texts in order, without their repetitions, are the same texts, each once.
pub proof fn lemma_unique(keys: Seq<Seq<char>>)
    requires
        forall|i: int, j: int|
            0 <= i < j < keys.len() ==> text_le(#[trigger] keys[i], #[trigger] keys[j]),
    ensures
        forall|k: Seq<char>| #[trigger] unique(keys).contains(k) <==> keys.contains(k),
        forall|i: int, j: int|
            0 <= i < j < unique(keys).len() ==> text_le(
                #[trigger] unique(keys)[i],
                #[trigger] unique(keys)[j],
            ) && unique(keys)[i] != unique(keys)[j],
    decreases keys.len(),
{
    let out = unique(keys);
    if keys.len() > 0 {
        let d = keys.drop_last();
        let last = keys.last();
        assert forall|i: int, j: int| 0 <= i < j < d.len() implies text_le(
            #[trigger] d[i],
            #[trigger] d[j],
        ) by {
            assert(text_le(keys[i], keys[j]));
        }
        lemma_unique(d);
        let before = unique(d);
        assert forall|k: Seq<char>| keys.contains(k) <==> #[trigger] d.contains(k) || k == last by {
            if keys.contains(k) && k != last {
                let i = choose|i: int| 0 <= i < keys.len() && keys[i] == k;
                assert(d[i] == k);
            }
            if d.contains(k) {
                let i = choose|i: int| 0 <= i < d.len() && d[i] == k;
                assert(keys[i] == k);
            }
            assert(keys[keys.len() - 1] == last);
        }
        if keys.len() > 1 && keys[keys.len() - 2] == last {
            assert(d[d.len() - 1] == last);
            assert(d.contains(last));
            assert forall|k: Seq<char>| #[trigger] out.contains(k) <==> keys.contains(k) by {
                assert(before.contains(k) <==> d.contains(k));
            }
        } else {
            assert(out == before.push(last));
            assert forall|k: Seq<char>| #[trigger] out.contains(k) <==> keys.contains(k) by {
                assert(before.contains(k) <==> d.contains(k));
                if before.contains(k) {
                    let i = choose|i: int| 0 <= i < before.len() && before[i] == k;
                    assert(out[i] == k);
                }
                if out.contains(k) && k != last {
                    let i = choose|i: int| 0 <= i < out.len() && out[i] == k;
                    assert(before[i] == k);
                }
                assert(out[before.len() as int] == last);
            }
            assert forall|i: int, j: int| 0 <= i < j < out.len() implies text_le(
                #[trigger] out[i],
                #[trigger] out[j],
            ) && out[i] != out[j] by {
                assert(out[i] == before[i]);
                if j < before.len() {
                    assert(out[j] == before[j]);
                } else {
                    assert(before.contains(before[i]));
                    assert(d.contains(before[i]));
                    let k = choose|k: int| 0 <= k < d.len() && d[k] == before[i];
                    assert(text_le(keys[k], keys[keys.len() - 1]));
                    if before[i] == last {
                        let m = d.len() - 1;
                        if k < m {
                            assert(text_le(keys[k], keys[m]));
                        }
                        assert(text_le(keys[m], keys[keys.len() - 1]));
                        law_text_order(last, keys[m]);
                    }
                }
            }
        }
    }
}

proof fn lemma_members(labels: Seq<LabelModel>, key: Seq<char>, at: int)
    ensures
        members_of(labels, key).contains(at) <==> exists|i: int|
            0 <= i < labels.len() && (#[trigger] labels[i]).key == key && labels[i].at == at,
    decreases labels.len(),
{
    if labels.len() > 0 {
        let d = labels.drop_last();
        let last = labels.last();
        lemma_members(d, key, at);
        let before = members_of(d, key);
        let out = members_of(labels, key);
        if exists|i: int| 0 <= i < labels.len() && (#[trigger] labels[i]).key == key && labels[i].at
            == at {
            let i = choose|i: int|
                0 <= i < labels.len() && (#[trigger] labels[i]).key == key && labels[i].at == at;
            if i < d.len() {
                assert(d[i] == labels[i]);
                let k = choose|k: int| 0 <= k < before.len() && before[k] == at;
                assert(before.contains(at));
                assert(out[k] == at);
            } else {
                assert(out[before.len() as int] == at);
            }
        }
        if out.contains(at) {
            let k = choose|k: int| 0 <= k < out.len() && out[k] == at;
            if k < before.len() {
                assert(before[k] == at);
                assert(before.contains(at));
                let i = choose|i: int|
                    0 <= i < d.len() && (#[trigger] d[i]).key == key && d[i].at == at;
                assert(labels[i] == d[i]);
            } else {
                assert(labels[labels.len() - 1] == last);
            }
        }
    }
}

/// Does a group under a key hold a place?
pub open spec fn grouped(groups: Seq<GroupModel>, key: Seq<char>, at: int) -> bool {
    exists|g: int|
        0 <= g < groups.len() && (#[trigger] groups[g]).key == key && groups[g].members.contains(at)
}

/// Items are grouped by their labels: a place stands in the group of a key
/// exactly when it carries that label. No two groups have one key, and the
/// groups come in the order of their keys.
pub proof fn law_groups(labels: Seq<LabelModel>, extra: Seq<Seq<char>>)
    ensures
        ({
            let groups = groups_of(labels, extra);
            &&& forall|key: Seq<char>, at: int| #[trigger]
                grouped(groups, key, at) <==> exists|i: int|
                    0 <= i < labels.len() && (#[trigger] labels[i]).key == key && labels[i].at == at
            &&& forall|g: int, h: int|
                0 <= g < h < groups.len() ==> text_le((#[trigger] groups[g]).key, (
                #[trigger] groups[h]).key) && groups[g].key != groups[h].key
        }),
{
    let groups = groups_of(labels, extra);
    let all = extra + keys_of(labels);
    law_sorted_texts(all);
    lemma_unique(sorted_texts(all));
    let keys = unique(sorted_texts(all));
    all.to_multiset_ensures();
    sorted_texts(all).to_multiset_ensures();
    assert forall|key: Seq<char>, at: int| #[trigger] grouped(groups, key, at) <==> exists|i: int|
        0 <= i < labels.len() && (#[trigger] labels[i]).key == key && labels[i].at == at by {
        lemma_members(labels, key, at);
        if exists|i: int| 0 <= i < labels.len() && (#[trigger] labels[i]).key == key && labels[i].at
            == at {
            let i = choose|i: int|
                0 <= i < labels.len() && (#[trigger] labels[i]).key == key && labels[i].at == at;
            assert(all[extra.len() + i] == key);
            assert(all.contains(key));
            assert(all.to_multiset().count(key) > 0);
            assert(sorted_texts(all).contains(key));
            assert(keys.contains(key));
            let g = choose|g: int| 0 <= g < keys.len() && keys[g] == key;
            assert(groups[g].key == key);
        }
    }
    assert forall|g: int, h: int| 0 <= g < h < groups.len() implies text_le(
        (#[trigger] groups[g]).key,
        (#[trigger] groups[h]).key,
    ) && groups[g].key != groups[h].key by {
        assert(keys[g] != keys[h]);
    }
}

proof fn lemma_not_done(tasks: Seq<TaskModel>, open: spec_fn(TaskModel) -> bool)
    requires
        forall|t: TaskModel| #[trigger] open(t) == !t.done,
    ensures
        not_done(tasks) == tasks.filter(open),
    decreases tasks.len(),
{
    reveal(Seq::filter);
    if tasks.len() > 0 {
        lemma_not_done(tasks.drop_last(), open);
    }
}

proof fn lemma_undecided(p: Seq<ProposalModel>, waits: spec_fn(ProposalModel) -> bool)
    requires
        forall|x: ProposalModel| #[trigger] waits(x) == open_status(x.status),
    ensures
        undecided(p) == p.filter(waits),
    decreases p.len(),
{
    reveal(Seq::filter);
    if p.len() > 0 {
        lemma_undecided(p.drop_last(), waits);
    }
}

/// The morning view shows the tasks that are not done and no other, each under
/// its owner, or as unassigned; the proposals that wait for a decision; and the
/// changes since the last review, each under its author.
pub proof fn law_today_shows_what_is_open(
    t: Today,
    store: Store,
    disk: Map<Seq<char>, FileModel>,
    cfg: Config,
    start: i64,
    i: int,
)
    requires
        is_today(t, store, disk, cfg, start),
    ensures
        task_models(t.open@) == all_tasks(store, disk, cfg).filter(|x: TaskModel| !x.done),
        t.total == all_tasks(store, disk, cfg).len(),
        0 <= i < t.open@.len() ==> forall|key: Seq<char>| #[trigger]
            grouped(group_models(t.by_owner@), key, i) <==> key == (match t.open@[i]@.owner {
                Some(o) => o,
                None => "unassigned"@,
            }),
        0 <= i < t.changes@.len() ==> forall|key: Seq<char>| #[trigger]
            grouped(group_models(t.by_author@), key, i) <==> key == t.changes@[i]@.author,
        proposal_models(t.proposals@) == newest_proposals(store, disk).filter(
            |p: ProposalModel|
                p.status == proposal::Status::Pending || p.status == proposal::Status::Conflict,
        ),
        0 <= i < t.changes@.len() ==> t.changes@[i]@.created_at >= start,
{
    let open = |x: TaskModel| !x.done;
    lemma_not_done(all_tasks(store, disk, cfg), open);
    let waits = |p: ProposalModel|
        p.status == proposal::Status::Pending || p.status == proposal::Status::Conflict;
    lemma_undecided(newest_proposals(store, disk), waits);
    let tasks = task_models(t.open@);
    let labels = owner_labels(tasks);
    law_groups(labels, Seq::empty());
    if 0 <= i < t.open@.len() {
        assert(tasks[i] == t.open@[i]@);
        assert forall|key: Seq<char>| #[trigger]
            grouped(group_models(t.by_owner@), key, i) <==> key == owner_of(tasks[i]) by {
            assert(labels[i] == (LabelModel { key: owner_of(tasks[i]), at: i }));
        }
    }
    let changes = snapshot_models(t.changes@);
    let named = author_labels(changes);
    law_groups(named, Seq::empty());
    if 0 <= i < t.changes@.len() {
        assert(changes[i] == t.changes@[i]@);
        assert forall|key: Seq<char>| #[trigger]
            grouped(group_models(t.by_author@), key, i) <==> key == changes[i].author by {
            assert(named[i] == (LabelModel { key: changes[i].author, at: i }));
        }
        lemma_recent(snapshot_models(store.snapshots@), start);
        let made = made_since(snapshot_models(store.snapshots@), start);
        lemma_sorted_same(made, newer_first());
        let rows = sorted(made, newer_first());
        assert(rows[i] == changes[i]);
        assert(rows.contains(rows[i]));
        assert(made.contains(rows[i]));
    }
}

proof fn lemma_recent(s: Seq<SnapshotModel>, ms: i64)
    ensures
        forall|i: int| 0 <= i < made_since(s, ms).len() ==> (#[trigger] made_since(s, ms)[i]).created_at
            >= ms,
    decreases s.len(),
{
    if s.len() > 0 {
        lemma_recent(s.drop_last(), ms);
    }
}

} // verus!
