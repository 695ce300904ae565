//! Tasks of the corpus: listing, adding, ticking off.

use super::docs::{
    current_text, doc_models, doc_summaries, read_current, rows_of, summaries, DocModel,
    DocSummary,
};
use super::edit::{edit_model, save_doc, saves};
use super::params::{missing, required};
use super::request::Caller;
use crate::artifact::task::{
    self, bad_id, lets_through, line_named, line_of_id, status_set, task_added, task_models,
    tasks_of, Filter, Task, TaskModel,
};
use crate::artifact::yaml::member_models;
use crate::comment::threads::dated;
use crate::config::Config;
use crate::corpus::sandbox::read_text;
use crate::corpus::types::{Resolved, ResolvedModel};
use crate::corpus::ArtifactType;
use crate::diff::changes::{cannot_compare, unwieldy};
use crate::disk::{appended, Disk, FileModel};
use crate::error::{Error, ErrorModel, Result};
use crate::json::{model, Json, JsonModel, NumberModel, Numeral};
use crate::proposal::create::{
    newest_id, proposal_id_or_none, writes, Change, ChangeModel, CreateRequest, WriteOutcome,
};
use crate::proposal::types::proposal_models;
use crate::store::Store;
use crate::text::{
    chars_of, copy_opt, lower_of, lowercase, occurs, opt_str_view, opt_view, same,
    same_ignoring_case, same_str, string_of, text_in, trim, trim_front_of, trim_of, views,
};
use crate::util::{display_of, display_path, lemma_line_bound, path_eq, same_path};
use crate::version::history::latest;
use crate::version::record::{fresh_or_none, RecordOutcome};
use crate::version::types::snapshot_models;
use vstd::prelude::*;

verus! {

// ---------------------------------------------------------------------------
// Listing
// ---------------------------------------------------------------------------

/// A task with the document it lives in.
pub open spec fn placed(t: TaskModel, doc: DocModel) -> TaskModel {
    TaskModel {
        doc: Some(doc.path),
        display: Some(doc.display),
        version: doc.latest_version,
        ..t
    }
}

/// Does a filter let a task through?
pub open spec fn passes(filter: Filter, t: TaskModel) -> bool {
    lets_through(
        opt_view(filter.owner),
        opt_view(filter.tag),
        filter.open_only,
        opt_view(filter.query),
        t,
    )
}

/// The tasks of a document that a filter lets through.
pub open spec fn kept_tasks(tasks: Seq<TaskModel>, filter: Filter, doc: DocModel) -> Seq<TaskModel>
    decreases tasks.len(),
{
    if tasks.len() == 0 {
        Seq::empty()
    } else {
        let before = kept_tasks(tasks.drop_last(), filter, doc);
        if passes(filter, tasks.last()) {
            before.push(placed(tasks.last(), doc))
        } else {
            before
        }
    }
}

/// The text of a document on disk, where the editor would take it.
pub open spec fn editable_text(
    disk: Map<Seq<char>, FileModel>,
    cfg: Config,
    path: Seq<char>,
) -> Option<Seq<char>> {
    if disk.dom().contains(path) && disk[path].bytes.len() <= cfg.max_editor_bytes {
        Some(text_in(disk[path].bytes))
    } else {
        None
    }
}

/// The tasks of some documents that a filter lets through. One that is gone,
/// or too large to read, has none.
pub open spec fn tasks_over(
    docs: Seq<DocModel>,
    disk: Map<Seq<char>, FileModel>,
    cfg: Config,
    filter: Filter,
) -> Seq<TaskModel>
    decreases docs.len(),
{
    if docs.len() == 0 {
        Seq::empty()
    } else {
        let before = tasks_over(docs.drop_last(), disk, cfg, filter);
        match editable_text(disk, cfg, docs.last().path) {
            Some(text) => before + kept_tasks(tasks_of(text), filter, docs.last()),
            None => before,
        }
    }
}

/// The text of a document on disk, where the editor would take it.
pub fn read_editable(disk: &Disk, cfg: &Config, path: &str) -> (out: Option<String>)
    ensures
        match out {
            Some(text) => editable_text(disk@, *cfg, path@) == Some(text@),
            None => editable_text(disk@, *cfg, path@) is None,
        },
{
    match disk.find(path) {
        Some(file) => match read_text(path, &file.bytes, cfg.max_editor_bytes) {
            Ok(text) => Some(text),
            Err(_) => None,
        },
        None => None,
    }
}

fn push_kept(tasks: &mut Vec<Task>, found: &[Task], filter: &Filter, doc: &DocSummary)
    ensures
        task_models(final(tasks)@) == task_models(old(tasks)@) + kept_tasks(
            task_models(found@),
            *filter,
            doc@,
        ),
{
    let ghost start = task_models(tasks@);
    let ghost all = task_models(found@);
    let mut i: usize = 0;
    assert(task_models(tasks@) =~= start + kept_tasks(all.take(0), *filter, doc@));
    while i < found.len()
        invariant
            i <= found@.len(),
            all == task_models(found@),
            task_models(tasks@) == start + kept_tasks(all.take(i as int), *filter, doc@),
        decreases found@.len() - i,
    {
        assert(all.take(i + 1).drop_last() =~= all.take(i as int));
        assert(all.take(i + 1).last() == found@[i as int]@);
        if filter.matches(&found[i]) {
            let mut t = found[i].copy();
            t.doc = Some(doc.path.clone());
            t.display = Some(doc.display.clone());
            t.version = copy_opt(&doc.latest_version);
            let ghost before = tasks@;
            tasks.push(t);
            assert(t@ == placed(all[i as int], doc@));
            assert(task_models(tasks@) =~= task_models(before).push(t@));
            assert(start + kept_tasks(all.take(i as int), *filter, doc@).push(t@) =~= (start
                + kept_tasks(all.take(i as int), *filter, doc@)).push(t@));
        }
        i += 1;
    }
    assert(all.take(i as int) =~= all);
}

/// The tasks of some documents that a filter lets through.
pub fn collect_tasks(docs: &[DocSummary], disk: &Disk, cfg: &Config, filter: &Filter) -> (out: Vec<
    Task,
>)
    ensures
        task_models(out@) == tasks_over(doc_models(docs@), disk@, *cfg, *filter),
{
    let ghost all = doc_models(docs@);
    let mut out: Vec<Task> = Vec::new();
    let mut i: usize = 0;
    assert(task_models(out@) =~= tasks_over(all.take(0), disk@, *cfg, *filter));
    while i < docs.len()
        invariant
            i <= docs@.len(),
            all == doc_models(docs@),
            task_models(out@) == tasks_over(all.take(i as int), disk@, *cfg, *filter),
        decreases docs@.len() - i,
    {
        assert(all.take(i + 1).drop_last() =~= all.take(i as int));
        assert(all.take(i + 1).last() == docs@[i as int]@);
        if let Some(text) = read_editable(disk, cfg, docs[i].path.as_str()) {
            let found = task::parse(text.as_str());
            push_kept(&mut out, &found, filter, &docs[i]);
        }
        i += 1;
    }
    assert(all.take(i as int) =~= all);
    out
}

/// The documents at a path.
pub open spec fn docs_at(docs: Seq<DocModel>, path: Seq<char>, any_case: bool) -> Seq<DocModel>
    decreases docs.len(),
{
    if docs.len() == 0 {
        Seq::empty()
    } else if same_path(docs.last().path, path, any_case) {
        docs_at(docs.drop_last(), path, any_case).push(docs.last())
    } else {
        docs_at(docs.drop_last(), path, any_case)
    }
}

fn pick_doc(docs: &[DocSummary], path: &str, any_case: bool) -> (out: Vec<DocSummary>)
    ensures
        doc_models(out@) == docs_at(doc_models(docs@), path@, any_case),
{
    let ghost all = doc_models(docs@);
    let mut out: Vec<DocSummary> = Vec::new();
    let mut i: usize = 0;
    assert(doc_models(out@) =~= docs_at(all.take(0), path@, any_case));
    while i < docs.len()
        invariant
            i <= docs@.len(),
            all == doc_models(docs@),
            doc_models(out@) == docs_at(all.take(i as int), path@, any_case),
        decreases docs@.len() - i,
    {
        assert(all.take(i + 1).drop_last() =~= all.take(i as int));
        assert(all.take(i + 1).last() == docs@[i as int]@);
        if path_eq(docs[i].path.as_str(), path, any_case) {
            let ghost before = doc_models(out@);
            let d = docs[i].copy();
            out.push(d);
            assert(doc_models(out@) =~= before.push(d@));
        }
        i += 1;
    }
    assert(all.take(i as int) =~= all);
    out
}

/// The documents whose tasks are listed: one, or the task lists of the whole
/// corpus.
pub open spec fn task_docs(
    store: Store,
    disk: Map<Seq<char>, FileModel>,
    doc: Option<ResolvedModel>,
) -> Seq<DocModel> {
    let rows = rows_of(snapshot_models(store.snapshots@), store.host.drives);
    match doc {
        Some(at) => docs_at(summaries(store, disk, rows, None, None), at.path, store.host.drives),
        None => summaries(store, disk, rows, None, Some(ArtifactType::TaskList)),
    }
}

pub open spec fn opt_resolved(doc: Option<&Resolved>) -> Option<ResolvedModel> {
    match doc {
        Some(at) => Some(at@),
        None => None,
    }
}

/// Reads tasks from one document or from the whole corpus. Task ids are
/// line-anchored and valid only for the version they were read from.
pub fn task_list(
    store: &Store,
    disk: &Disk,
    cfg: &Config,
    doc: Option<&Resolved>,
    filter: &Filter,
) -> (out: Vec<Task>)
    ensures
        task_models(out@) == tasks_over(
            task_docs(*store, disk@, opt_resolved(doc)),
            disk@,
            *cfg,
            *filter,
        ),
{
    let docs = match doc {
        Some(at) => {
            let all = doc_summaries(store, disk, None, None);
            pick_doc(&all, at.path.as_str(), store.host.drives)
        },
        None => doc_summaries(store, disk, None, Some(ArtifactType::TaskList)),
    };
    collect_tasks(&docs, disk, cfg, filter)
}

// ---------------------------------------------------------------------------
// Writing
// ---------------------------------------------------------------------------

/// What came of a write to a task list.
#[derive(Debug)]
pub enum TaskWrite {
    /// The human user's: saved.
    Saved(RecordOutcome),
    /// An agent's: routed by policy.
    Routed(WriteOutcome),
}

/// The part of an outcome that a save has.
pub open spec fn saved_part(out: Result<TaskWrite>) -> Result<RecordOutcome> {
    match out {
        Ok(TaskWrite::Saved(o)) => Ok(o),
        Ok(_) => arbitrary(),
        Err(e) => Err(e),
    }
}

/// The part of an outcome that a routed write has.
pub open spec fn routed_part(out: Result<TaskWrite>) -> Result<WriteOutcome> {
    match out {
        Ok(TaskWrite::Routed(o)) => Ok(o),
        Ok(_) => arbitrary(),
        Err(e) => Err(e),
    }
}

/// Is this how a changed task list is written? The human user's is saved, an
/// agent's obeys the same policy layer as every other write; the default just
/// happens to be `direct` for task lists.
pub open spec fn task_written(
    was: Store,
    is: Store,
    before: Map<Seq<char>, FileModel>,
    after: Map<Seq<char>, FileModel>,
    cfg: Config,
    caller: Caller,
    at: ResolvedModel,
    text: Seq<char>,
    message: Seq<char>,
    out: Result<TaskWrite>,
) -> bool {
    let s = snapshot_models(was.snapshots@);
    if caller.is_human {
        &&& out matches Ok(w) ==> w is Saved
        &&& exists|id: std::result::Result<Seq<char>, ErrorModel>, now: i64, iso: Seq<char>|
            fresh_or_none(s, id) && dated(now, iso) && #[trigger] saves(
                was,
                is,
                before,
                after,
                cfg,
                at,
                text,
                Some(message),
                id,
                now,
                iso,
                saved_part(out),
            )
        &&& is == (Store { snapshots: is.snapshots, blobs: is.blobs, ..was })
    } else {
        &&& out matches Ok(w) ==> w is Routed
        &&& exists|
            snapshot_id: std::result::Result<Seq<char>, ErrorModel>,
            proposal_id: std::result::Result<Seq<char>, ErrorModel>,
            now: i64,
            iso: Seq<char>,
        |
            fresh_or_none(s, snapshot_id) && proposal_id_or_none(
                proposal_models(was.proposals@),
                proposal_id,
            ) && dated(now, iso) && #[trigger] writes(
                was,
                is,
                before,
                after,
                cfg,
                edit_model(at, ChangeModel::Content(text), caller, None, Some(message), None),
                snapshot_id,
                proposal_id,
                now,
                iso,
                routed_part(out),
            )
        &&& is == (Store {
            snapshots: is.snapshots,
            proposals: is.proposals,
            comments: is.comments,
            blobs: is.blobs,
            ..was
        })
    }
}

/// Writes a changed task list.
pub fn route_task_write(
    store: &mut Store,
    disk: &mut Disk,
    cfg: &Config,
    caller: &Caller,
    resolved: &Resolved,
    updated: &str,
    message: &str,
) -> (out: Result<TaskWrite>)
    ensures
        appended(*old(disk), *final(disk)),
        task_written(
            *old(store),
            *final(store),
            old(disk)@,
            final(disk)@,
            *cfg,
            *caller,
            resolved@,
            updated@,
            message@,
            out,
        ),
{
    assert(opt_str_view(Some(message)) == Some(message@));
    if caller.is_human {
        let saved = save_doc(store, disk, cfg, resolved, updated, Some(message));
        let ghost copy = saved;
        let out: Result<TaskWrite> = match saved {
            Ok(o) => Ok(TaskWrite::Saved(o)),
            Err(e) => Err(e),
        };
        assert(saved_part(out) == copy);
        out
    } else {
        let none: Option<&str> = None;
        assert(opt_str_view(none) is None);
        let req = CreateRequest {
            resolved: resolved,
            change: Change::Content(updated),
            base_version: None,
            author: caller.author.as_str(),
            client: caller.client.as_str(),
            message: Some(message),
            addressing: None,
        };
        assert(req@ == edit_model(
            resolved@,
            ChangeModel::Content(updated@),
            *caller,
            None,
            Some(message@),
            None,
        ));
        let routed = crate::proposal::create::write(store, disk, cfg, &req);
        let ghost copy = routed;
        let out: Result<TaskWrite> = match routed {
            Ok(o) => Ok(TaskWrite::Routed(o)),
            Err(e) => Err(e),
        };
        assert(routed_part(out) == copy);
        out
    }
}

/// The note on an added task.
pub open spec fn add_note(message: Option<Seq<char>>, text: Seq<char>) -> Seq<char> {
    match message {
        Some(m) => m,
        None => "add task: "@ + text,
    }
}

/// Tags that may be left out.
pub open spec fn tags_of(tags: Option<Vec<String>>) -> Seq<Seq<char>> {
    match tags {
        Some(t) => views(t@),
        None => Seq::empty(),
    }
}

/// The list with the task and the task's line, or what keeps it from being
/// added.
pub open spec fn add_plan(
    current: std::result::Result<Seq<char>, ErrorModel>,
    text: Option<Seq<char>>,
    owner: Option<Seq<char>>,
    tags: Seq<Seq<char>>,
) -> std::result::Result<(Seq<char>, int), ErrorModel> {
    match current {
        Err(why) => Err(why),
        Ok(content) => match text {
            None => Err(missing("text"@)),
            Some(t) => if content.len() + 4 < usize::MAX {
                task_added(content, t, owner, tags)
            } else {
                Err(unwieldy())
            },
        },
    }
}

/// Is this how a task is added to a document?
pub open spec fn task_put(
    prior: Store,
    later: Store,
    old_disk: Disk,
    new_disk: Disk,
    cfg: Config,
    caller: Caller,
    at: ResolvedModel,
    text: Option<Seq<char>>,
    owner: Option<Seq<char>>,
    tags: Seq<Seq<char>>,
    message: Option<Seq<char>>,
    out: Result<(TaskWrite, usize)>,
) -> bool {
    let current = current_text(prior, old_disk@, cfg, at.path);
    match add_plan(current, text, owner, tags) {
        Err(why) => out matches Err(e) && e@ == why && later == prior
            && new_disk == old_disk,
        Ok((updated, line)) => {
            &&& task_written(
                prior,
                later,
                old_disk@,
                new_disk@,
                cfg,
                caller,
                at,
                updated,
                add_note(message, text->Some_0),
                write_part(out),
            )
            &&& out matches Ok((_, n)) ==> n == line
        },
    }
}

/// Adds a task to a document, and says on which line it stands.
pub fn task_add(
    store: &mut Store,
    disk: &mut Disk,
    cfg: &Config,
    caller: &Caller,
    resolved: &Resolved,
    text: Option<String>,
    owner: Option<&str>,
    tags: Option<Vec<String>>,
    message: Option<String>,
) -> (out: Result<(TaskWrite, usize)>)
    ensures
        appended(*old(disk), *final(disk)),
        task_put(
            *old(store),
            *final(store),
            *old(disk),
            *final(disk),
            *cfg,
            *caller,
            resolved@,
            opt_view(text),
            opt_str_view(owner),
            tags_of(tags),
            opt_view(message),
            out,
        ),
{
    let content = match read_current(store, disk, cfg, resolved) {
        Ok(t) => t,
        Err(e) => {
            return Err(e);
        },
    };
    let tags = match tags {
        Some(t) => t,
        None => {
            let none: Vec<String> = Vec::new();
            assert(views(none@) =~= Seq::empty());
            none
        },
    };
    let said = match required(text, "text") {
        Ok(t) => t,
        Err(e) => {
            return Err(e);
        },
    };
    if content.as_str().unicode_len() >= usize::MAX - 4 {
        return Err(cannot_compare());
    }
    proof {
        lemma_line_bound(content@);
    }
    let (updated, line) = match task::add(content.as_str(), said.as_str(), owner, &tags) {
        Ok(u) => u,
        Err(e) => {
            return Err(e);
        },
    };
    let note = match message {
        Some(m) => m,
        None => {
            let mut m = "add task: ".to_owned();
            m.append(said.as_str());
            m
        },
    };
    let routed = route_task_write(
        store,
        disk,
        cfg,
        caller,
        resolved,
        updated.as_str(),
        note.as_str(),
    );
    let ghost copy = routed;
    let out: Result<(TaskWrite, usize)> = match routed {
        Ok(w) => Ok((w, line)),
        Err(e) => Err(e),
    };
    assert(write_part(out) == copy);
    out
}

/// The part of an outcome that says how the list was written.
pub open spec fn write_part(out: Result<(TaskWrite, usize)>) -> Result<TaskWrite> {
    match out {
        Ok((w, _)) => Ok(w),
        Err(e) => Err(e),
    }
}

// ---------------------------------------------------------------------------
// Ticking off
// ---------------------------------------------------------------------------

/// One member of an object, where there is a value.
pub open spec fn opt_member(key: Seq<char>, value: Option<Seq<char>>) -> Seq<
    (Seq<char>, JsonModel),
> {
    match value {
        Some(v) => seq![(key, JsonModel::Text(v))],
        None => Seq::empty(),
    }
}

/// The tags of a task, where there are any.
pub open spec fn tag_member(tags: Seq<Seq<char>>) -> Seq<(Seq<char>, JsonModel)> {
    if tags.len() == 0 {
        Seq::empty()
    } else {
        seq![
            (
                "tags"@,
                JsonModel::Array(Seq::new(tags.len(), |i: int| JsonModel::Text(tags[i]))),
            ),
        ]
    }
}

pub open spec fn count_json(n: int) -> JsonModel {
    JsonModel::Number(NumberModel::Unsigned(n as u64))
}

/// A task as an agent reads it.
pub open spec fn task_json(t: TaskModel) -> JsonModel {
    JsonModel::Object(
        opt_member("display"@, t.display) + opt_member("doc"@, t.doc) + seq![
            ("done"@, JsonModel::Bool(t.done)),
            ("id"@, JsonModel::Text(t.id)),
            ("indent"@, count_json(t.indent)),
            ("line"@, count_json(t.line)),
        ] + opt_member("owner"@, t.owner) + seq![("raw"@, JsonModel::Text(t.raw))] + tag_member(
            t.tags,
        ) + seq![("text"@, JsonModel::Text(t.text))] + opt_member("version"@, t.version),
    )
}

/// What a stale writer gets to see: the list as it is now, so that the re-read
/// costs no extra round trip.
pub open spec fn list_now(
    content: Seq<char>,
    path: Seq<char>,
    shown: Seq<char>,
    version: Option<Seq<char>>,
) -> JsonModel {
    let tasks = tasks_of(content);
    JsonModel::Object(
        seq![
            ("doc"@, JsonModel::Text(path)),
            (
                "tasks"@,
                JsonModel::Array(
                    Seq::new(
                        tasks.len(),
                        |i: int|
                            task_json(
                                TaskModel {
                                    doc: Some(path),
                                    display: Some(shown),
                                    version: version,
                                    ..tasks[i]
                                },
                            ),
                    ),
                ),
            ),
            (
                "version"@,
                match version {
                    Some(id) => JsonModel::Text(id),
                    None => JsonModel::Null,
                },
            ),
        ],
    )
}

/// Does a word say that a task is done?
pub open spec fn done_word(word: Seq<char>) -> bool {
    word == "done"@ || word == "x"@ || word == "closed"@ || word == "complete"@ || word
        == "completed"@ || word == "true"@
}

/// Does a word say that a task is open?
pub open spec fn open_word(word: Seq<char>) -> bool {
    word == "open"@ || word == "todo"@ || word == " "@ || word == "false"@ || word
        == "incomplete"@
}

/// What a status means.
pub open spec fn status_of(status: Seq<char>) -> std::result::Result<bool, ErrorModel> {
    let word = lower_of(trim_of(status));
    if done_word(word) {
        Ok(true)
    } else if open_word(word) {
        Ok(false)
    } else {
        Err(
            ErrorModel::Invalid(
                "unknown status `"@ + word + "`; use `done` or `open`"@,
            ),
        )
    }
}

/// The task on a line.
pub open spec fn task_at(tasks: Seq<TaskModel>, line: int) -> Option<TaskModel>
    decreases tasks.len(),
{
    if tasks.len() == 0 {
        None
    } else if tasks[0].line == line {
        Some(tasks[0])
    } else {
        task_at(tasks.skip(1), line)
    }
}

/// Is the task on the line that an id names still the one that was read?
pub open spec fn text_check(
    content: Seq<char>,
    task_id: Seq<char>,
    expected: Option<Seq<char>>,
    now: JsonModel,
) -> Option<ErrorModel> {
    match expected {
        None => None,
        Some(want) => match line_named(task_id) {
            None => Some(bad_id(task_id)),
            Some(line) => match task_at(tasks_of(content), line as int) {
                None => Some(ErrorModel::Stale(task_id + " is no longer a task"@, now)),
                Some(t) => if trim_of(t.text) != trim_of(want) {
                    Some(
                        ErrorModel::Stale(
                            task_id + " is now `"@ + t.text + "`, not `"@ + want
                                + "`; re-read the list before writing"@,
                            now,
                        ),
                    )
                } else {
                    None
                },
            },
        },
    }
}

/// The list with the task ticked off or opened again, or what keeps it from
/// being changed. A stale write fails with the current list attached.
pub open spec fn status_plan(
    content: Seq<char>,
    path: Seq<char>,
    shown: Seq<char>,
    latest: Option<Seq<char>>,
    task_id: Option<Seq<char>>,
    version: Option<Seq<char>>,
    status: Option<Seq<char>>,
    text: Option<Seq<char>>,
) -> std::result::Result<(Seq<char>, bool), ErrorModel> {
    let now = list_now(content, path, shown, latest);
    let current = match latest {
        Some(id) => id,
        None => ""@,
    };
    match task_id {
        None => Err(missing("task_id"@)),
        Some(id) => if version matches Some(claimed) && claimed != current {
            Err(
                ErrorModel::Stale(
                    shown + " has moved on since version "@ + version->Some_0
                        + "; re-read the list before writing"@,
                    now,
                ),
            )
        } else {
            match status {
                None => Err(missing("status"@)),
                Some(word) => match status_of(word) {
                    Err(why) => Err(why),
                    Ok(done) => match text_check(content, id, text, now) {
                        Some(why) => Err(why),
                        None => match status_set(content, id, done) {
                            Ok(updated) => Ok((updated, done)),
                            Err(ErrorModel::NotFound(reason)) => Err(
                                ErrorModel::Stale(reason, now),
                            ),
                            Err(why) => Err(why),
                        },
                    },
                },
            }
        },
    }
}

fn push_member(members: &mut Vec<(String, Json)>, key: &str, value: Json)
    ensures
        member_models(final(members)@) == member_models(old(members)@).push((key@, value@)),
{
    let ghost before = member_models(members@);
    members.push((key.to_owned(), value));
    assert(member_models(members@) =~= before.push((key@, value@)));
}

fn push_opt(members: &mut Vec<(String, Json)>, key: &str, value: &Option<String>)
    ensures
        member_models(final(members)@) == member_models(old(members)@) + opt_member(
            key@,
            opt_view(*value),
        ),
{
    let ghost before = member_models(members@);
    if let Some(v) = value {
        let j = Json::Text(v.clone());
        push_member(members, key, j);
        assert(before.push((key@, j@)) =~= before + seq![(key@, j@)]);
    } else {
        assert(before + Seq::<(Seq<char>, JsonModel)>::empty() =~= before);
    }
}

fn text_items(parts: &[String]) -> (out: Json)
    ensures
        out@ == JsonModel::Array(Seq::new(parts@.len(), |i: int| JsonModel::Text(parts@[i]@))),
{
    let mut items: Vec<Json> = Vec::new();
    let mut i: usize = 0;
    while i < parts.len()
        invariant
            i <= parts@.len(),
            items@.len() == i,
            forall|k: int|
                0 <= k < i ==> model(#[trigger] items@[k]) == JsonModel::Text(parts@[k]@),
        decreases parts@.len() - i,
    {
        items.push(Json::Text(parts[i].clone()));
        i += 1;
    }
    let out = Json::Array(items);
    assert(model(out)->Array_0 =~= Seq::new(parts@.len(), |i: int| JsonModel::Text(parts@[i]@)));
    out
}

fn count_of(n: usize) -> (out: Json)
    ensures
        out@ == count_json(n as int),
{
    Json::Number(Numeral::Unsigned(n as u64))
}

/// A task as an agent reads it.
pub fn task_to_json(t: &Task) -> (out: Json)
    ensures
        out@ == task_json(t@),
{
    let mut m: Vec<(String, Json)> = Vec::new();
    assert(member_models(m@) =~= Seq::empty());
    push_opt(&mut m, "display", &t.display);
    push_opt(&mut m, "doc", &t.doc);
    let ghost head = opt_member("display"@, t@.display) + opt_member("doc"@, t@.doc);
    assert(member_models(m@) =~= head);
    push_member(&mut m, "done", Json::Bool(t.done));
    push_member(&mut m, "id", Json::Text(t.id.clone()));
    push_member(&mut m, "indent", count_of(t.indent));
    push_member(&mut m, "line", count_of(t.line));
    let ghost second = head + seq![
        ("done"@, JsonModel::Bool(t@.done)),
        ("id"@, JsonModel::Text(t@.id)),
        ("indent"@, count_json(t@.indent)),
        ("line"@, count_json(t@.line)),
    ];
    assert(member_models(m@) =~= second);
    push_opt(&mut m, "owner", &t.owner);
    push_member(&mut m, "raw", Json::Text(t.raw.clone()));
    let ghost third = second + opt_member("owner"@, t@.owner) + seq![
        ("raw"@, JsonModel::Text(t@.raw)),
    ];
    assert(member_models(m@) =~= third);
    if t.tags.len() > 0 {
        let tags = text_items(&t.tags);
        assert(tags@->Array_0 =~= Seq::new(
            t@.tags.len(),
            |i: int| JsonModel::Text(t@.tags[i]),
        ));
        push_member(&mut m, "tags", tags);
    }
    let ghost fourth = third + tag_member(t@.tags);
    assert(member_models(m@) =~= fourth);
    push_member(&mut m, "text", Json::Text(t.text.clone()));
    assert(member_models(m@) =~= fourth + seq![("text"@, JsonModel::Text(t@.text))]);
    push_opt(&mut m, "version", &t.version);
    let ghost all = member_models(m@);
    let out = Json::Object(m);
    assert(model(out)->Object_0 =~= all);
    out
}

fn current_list(content: &str, path: &str, shown: &str, version: &Option<String>) -> (out: Json)
    ensures
        out@ == list_now(content@, path@, shown@, opt_view(*version)),
{
    let tasks = task::parse(content);
    let ghost all = task_models(tasks@);
    let ghost want = list_now(content@, path@, shown@, opt_view(*version))->Object_0[1].1->Array_0;
    let mut items: Vec<Json> = Vec::new();
    let mut i: usize = 0;
    while i < tasks.len()
        invariant
            i <= tasks@.len(),
            all == task_models(tasks@),
            all == tasks_of(content@),
            want == list_now(content@, path@, shown@, opt_view(*version))->Object_0[1].1->Array_0,
            items@.len() == i,
            forall|k: int| 0 <= k < i ==> model(#[trigger] items@[k]) == want[k],
        decreases tasks@.len() - i,
    {
        let mut t = tasks[i].copy();
        t.doc = Some(path.to_owned());
        t.display = Some(shown.to_owned());
        t.version = copy_opt(version);
        assert(all[i as int] == tasks@[i as int]@);
        assert(t@ == TaskModel {
            doc: Some(path@),
            display: Some(shown@),
            version: opt_view(*version),
            ..all[i as int]
        });
        items.push(task_to_json(&t));
        i += 1;
    }
    let list = Json::Array(items);
    assert(model(list)->Array_0 =~= want);
    let mut m: Vec<(String, Json)> = Vec::new();
    push_member(&mut m, "doc", Json::Text(path.to_owned()));
    push_member(&mut m, "tasks", list);
    let v = match version {
        Some(id) => Json::Text(id.clone()),
        None => Json::Null,
    };
    push_member(&mut m, "version", v);
    let ghost members = member_models(m@);
    let out = Json::Object(m);
    assert(model(out)->Object_0 =~= members);
    assert(members =~= list_now(content@, path@, shown@, opt_view(*version))->Object_0);
    out
}

fn parse_status(status: &str) -> (out: Result<bool>)
    ensures
        match out {
            Ok(done) => status_of(status@) == Ok::<bool, ErrorModel>(done),
            Err(e) => status_of(status@) == Err::<bool, ErrorModel>(e@),
        },
{
    let chars = chars_of(status);
    let trimmed = string_of(trim(&chars));
    let word = lowercase(trimmed.as_str());
    let w = word.as_str();
    if same_str(w, "done") || same_str(w, "x") || same_str(w, "closed") || same_str(w, "complete")
        || same_str(w, "completed") || same_str(w, "true") {
        return Ok(true);
    }
    if same_str(w, "open") || same_str(w, "todo") || same_str(w, " ") || same_str(w, "false")
        || same_str(w, "incomplete") {
        return Ok(false);
    }
    let mut m = "unknown status `".to_owned();
    m.append(w);
    m.append("`; use `done` or `open`");
    Err(Error::Invalid(m))
}

fn find_line(tasks: &[Task], line: usize) -> (out: Option<usize>)
    ensures
        match out {
            Some(i) => i < tasks@.len() && task_at(task_models(tasks@), line as int) == Some(
                tasks@[i as int]@,
            ),
            None => task_at(task_models(tasks@), line as int) is None,
        },
{
    let ghost all = task_models(tasks@);
    let mut i: usize = 0;
    assert(all.skip(0) =~= all);
    while i < tasks.len()
        invariant
            i <= tasks@.len(),
            all == task_models(tasks@),
            task_at(all, line as int) == task_at(all.skip(i as int), line as int),
        decreases tasks@.len() - i,
    {
        assert(all.skip(i as int)[0] == all[i as int]);
        assert(all.skip(i as int).skip(1) =~= all.skip(i + 1));
        if tasks[i].line == line {
            return Some(i);
        }
        i += 1;
    }
    None
}

fn check_text(content: &str, task_id: &str, expected: &str, now: Json) -> (out: Option<Error>)
    ensures
        match out {
            Some(e) => text_check(content@, task_id@, Some(expected@), now@) == Some(e@),
            None => text_check(content@, task_id@, Some(expected@), now@) is None,
        },
{
    let line: usize = match line_of_id(task_id) {
        Ok(n) => n,
        Err(e) => {
            return Some(e);
        },
    };
    let tasks = task::parse(content);
    match find_line(&tasks, line) {
        None => {
            let mut m = task_id.to_owned();
            m.append(" is no longer a task");
            Some(Error::Stale { message: m, data: Box::new(now) })
        },
        Some(i) => {
            let have = chars_of(tasks[i].text.as_str());
            let want = chars_of(expected);
            if same(trim(&have), trim(&want)) {
                None
            } else {
                let mut m = task_id.to_owned();
                m.append(" is now `");
                m.append(tasks[i].text.as_str());
                m.append("`, not `");
                m.append(expected);
                m.append("`; re-read the list before writing");
                Some(Error::Stale { message: m, data: Box::new(now) })
            }
        },
    }
}

/// The list with the task ticked off or opened again.
pub fn plan_status(
    content: &str,
    path: &str,
    shown: &str,
    latest: &Option<String>,
    task_id: Option<String>,
    version: Option<String>,
    status: Option<String>,
    text: Option<String>,
) -> (out: Result<(String, bool)>)
    ensures
        ({
            let want = status_plan(
                content@,
                path@,
                shown@,
                opt_view(*latest),
                opt_view(task_id),
                opt_view(version),
                opt_view(status),
                opt_view(text),
            );
            match out {
                Ok((updated, done)) => want == Ok::<(Seq<char>, bool), ErrorModel>(
                    (updated@, done),
                ),
                Err(e) => want == Err::<(Seq<char>, bool), ErrorModel>(e@),
            }
        }),
{
    let id = match required(task_id, "task_id") {
        Ok(s) => s,
        Err(e) => {
            return Err(e);
        },
    };
    if let Some(claimed) = version {
        let current = match latest {
            Some(v) => v.clone(),
            None => "".to_owned(),
        };
        if !same_str(claimed.as_str(), current.as_str()) {
            let mut m = shown.to_owned();
            m.append(" has moved on since version ");
            m.append(claimed.as_str());
            m.append("; re-read the list before writing");
            let now = current_list(content, path, shown, latest);
            return Err(Error::Stale { message: m, data: Box::new(now) });
        }
    }
    let word = match required(status, "status") {
        Ok(s) => s,
        Err(e) => {
            return Err(e);
        },
    };
    let done = match parse_status(word.as_str()) {
        Ok(b) => b,
        Err(e) => {
            return Err(e);
        },
    };
    if let Some(expected) = text {
        let now = current_list(content, path, shown, latest);
        if let Some(e) = check_text(content, id.as_str(), expected.as_str(), now) {
            return Err(e);
        }
    }
    match task::set_status(content, id.as_str(), done) {
        Ok(updated) => Ok((updated, done)),
        Err(Error::NotFound(reason)) => {
            let now = current_list(content, path, shown, latest);
            Err(Error::Stale { message: reason, data: Box::new(now) })
        },
        Err(e) => Err(e),
    }
}

/// The note on a ticked task.
pub open spec fn status_note(task_id: Seq<char>, done: bool) -> Seq<char> {
    task_id + " -> "@ + if done {
        "done"@
    } else {
        "open"@
    }
}

/// What came of ticking a task.
#[derive(Debug)]
pub enum StatusWrite {
    /// The task already had that status.
    Unchanged { task_id: String },
    Written(TaskWrite),
}

/// The part of an outcome that says how the list was written.
pub open spec fn ticked_part(out: Result<StatusWrite>) -> Result<TaskWrite> {
    match out {
        Ok(StatusWrite::Written(w)) => Ok(w),
        Ok(_) => arbitrary(),
        Err(e) => Err(e),
    }
}

/// The plan for a document as it is, or what keeps it from being read.
pub open spec fn ticking(
    store: Store,
    current: std::result::Result<Seq<char>, ErrorModel>,
    path: Seq<char>,
    task_id: Option<Seq<char>>,
    version: Option<Seq<char>>,
    status: Option<Seq<char>>,
    text: Option<Seq<char>>,
) -> std::result::Result<(Seq<char>, bool), ErrorModel> {
    match current {
        Err(why) => Err(why),
        Ok(content) => status_plan(
            content,
            path,
            display_of(path, store.host@),
            newest_id(snapshot_models(store.snapshots@), path, store.host.drives),
            task_id,
            version,
            status,
            text,
        ),
    }
}

/// Is this how a task is ticked off or opened again?
pub open spec fn task_ticked(
    prior: Store,
    later: Store,
    old_disk: Disk,
    new_disk: Disk,
    cfg: Config,
    caller: Caller,
    at: ResolvedModel,
    task_id: Option<Seq<char>>,
    version: Option<Seq<char>>,
    status: Option<Seq<char>>,
    text: Option<Seq<char>>,
    out: Result<StatusWrite>,
) -> bool {
    let current = current_text(prior, old_disk@, cfg, at.path);
    match ticking(
        prior,
        current,
        at.path,
        task_id,
        version,
        status,
        text,
    ) {
        Err(why) => out matches Err(e) && e@ == why && later == prior
            && new_disk == old_disk,
        Ok((updated, done)) => if updated == current->Ok_0 {
            &&& out matches Ok(StatusWrite::Unchanged { task_id: same_id }) && Some(
                same_id@,
            ) == task_id
            &&& later == prior
            &&& new_disk == old_disk
        } else {
            &&& out matches Ok(w) ==> w is Written
            &&& task_written(
                prior,
                later,
                old_disk@,
                new_disk@,
                cfg,
                caller,
                at,
                updated,
                status_note(task_id->Some_0, done),
                ticked_part(out),
            )
        },
    }
}

/// Ticks a task off, or opens it again. Agents mutate task lists the way they
/// should: read, then write.
pub fn task_set_status(
    store: &mut Store,
    disk: &mut Disk,
    cfg: &Config,
    caller: &Caller,
    resolved: &Resolved,
    task_id: Option<String>,
    version: Option<String>,
    status: Option<String>,
    text: Option<String>,
) -> (out: Result<StatusWrite>)
    ensures
        appended(*old(disk), *final(disk)),
        task_ticked(
            *old(store),
            *final(store),
            *old(disk),
            *final(disk),
            *cfg,
            *caller,
            resolved@,
            opt_view(task_id),
            opt_view(version),
            opt_view(status),
            opt_view(text),
            out,
        ),
{
    let content = match read_current(store, disk, cfg, resolved) {
        Ok(t) => t,
        Err(e) => {
            return Err(e);
        },
    };
    let path = resolved.path.as_str();
    let newest = match latest(store, path) {
        Some(s) => Some(s.id),
        None => None,
    };
    assert(
        opt_view(newest) == newest_id(snapshot_models(store.snapshots@), path@, store.host.drives)
    );
    let shown = display_path(path, &store.host);
    let id = copy_opt(&task_id);
    let (updated, done) = match plan_status(
        content.as_str(),
        path,
        shown.as_str(),
        &newest,
        task_id,
        version,
        status,
        text,
    ) {
        Ok(plan) => plan,
        Err(e) => {
            return Err(e);
        },
    };
    let name = match id {
        Some(s) => s,
        None => "".to_owned(),
    };
    if same_str(updated.as_str(), content.as_str()) {
        return Ok(StatusWrite::Unchanged { task_id: name });
    }
    let mut note = name;
    note.append(" -> ");
    note.append(
        if done {
            "done"
        } else {
            "open"
        },
    );
    let routed = route_task_write(
        store,
        disk,
        cfg,
        caller,
        resolved,
        updated.as_str(),
        note.as_str(),
    );
    let ghost copy = routed;
    let out: Result<StatusWrite> = match routed {
        Ok(w) => Ok(StatusWrite::Written(w)),
        Err(e) => Err(e),
    };
    assert(ticked_part(out) == copy);
    out
}

/// A stale write never gets through: whoever names another version than the
/// newest is refused with the list as it is now, whatever the rest says.
pub proof fn law_stale_tick_is_refused(
    content: Seq<char>,
    path: Seq<char>,
    shown: Seq<char>,
    latest: Option<Seq<char>>,
    task_id: Seq<char>,
    claimed: Seq<char>,
    status: Option<Seq<char>>,
    text: Option<Seq<char>>,
)
    requires
        latest != Some(claimed),
        latest is None ==> claimed.len() > 0,
    ensures
        status_plan(
            content,
            path,
            shown,
            latest,
            Some(task_id),
            Some(claimed),
            status,
            text,
        ) == Err::<(Seq<char>, bool), ErrorModel>(
            ErrorModel::Stale(
                shown + " has moved on since version "@ + claimed
                    + "; re-read the list before writing"@,
                list_now(content, path, shown, latest),
            ),
        ),
{
    reveal_strlit("");
}

/// Is a task one that a filter asks for? It is not done, if only open ones are
/// asked for; it has the owner and one of its tags is the tag, both without
/// regard to case and whether or not their sign is written; and its text holds
/// the words, in lower case.
pub open spec fn asked_for(filter: Filter, t: TaskModel) -> bool {
    &&& filter.open_only ==> !t.done
    &&& filter.owner matches Some(o) ==> t.owner is Some && same_ignoring_case(
        t.owner->0,
        trim_front_of(o@, '@'),
    )
    &&& filter.tag matches Some(g) ==> exists|i: int|
        0 <= i < t.tags.len() && same_ignoring_case(
            #[trigger] t.tags[i],
            trim_front_of(g@, '#'),
        )
    &&& filter.query matches Some(q) ==> occurs(lower_of(t.text), lower_of(q@))
}

proof fn lemma_kept_tasks(
    tasks: Seq<TaskModel>,
    filter: Filter,
    doc: DocModel,
    asked: spec_fn(TaskModel) -> bool,
    put: spec_fn(TaskModel) -> TaskModel,
)
    requires
        forall|t: TaskModel| #[trigger] asked(t) == passes(filter, t),
        forall|t: TaskModel| #[trigger] put(t) == placed(t, doc),
    ensures
        kept_tasks(tasks, filter, doc) == tasks.filter(asked).map_values(put),
    decreases tasks.len(),
{
    reveal(Seq::filter);
    if tasks.len() > 0 {
        let d = tasks.drop_last();
        lemma_kept_tasks(d, filter, doc, asked, put);
        if asked(tasks.last()) {
            assert(tasks.filter(asked).map_values(put) =~= d.filter(asked).map_values(put).push(
                put(tasks.last()),
            ));
        }
    } else {
        assert(tasks.filter(asked).map_values(put) =~= Seq::empty());
    }
}

/// A list of tasks holds the tasks of a document that are asked for, in their
/// order, and no other. Each says where it is from: the document and the
/// version, and nothing else of it is changed.
pub proof fn law_tasks_listed(doc: DocModel, text: Seq<char>, filter: Filter)
    ensures
        ({
            let found = tasks_of(text).filter(|t: TaskModel| asked_for(filter, t));
            let out = kept_tasks(tasks_of(text), filter, doc);
            &&& out.len() == found.len()
            &&& forall|k: int|
                0 <= k < out.len() ==> ({
                    &&& (#[trigger] out[k]).doc == Some(doc.path)
                    &&& out[k].version == doc.latest_version
                    &&& (TaskModel {
                        doc: found[k].doc,
                        display: found[k].display,
                        version: found[k].version,
                        ..out[k]
                    }) == found[k]
                })
        }),
{
    let asked = |t: TaskModel| asked_for(filter, t);
    let put = |t: TaskModel| placed(t, doc);
    lemma_kept_tasks(tasks_of(text), filter, doc, asked, put);
}

/// The tasks of several documents are those of each, one document behind the
/// other; a document that cannot be read has none.
pub proof fn law_tasks_of_documents(
    a: Seq<DocModel>,
    b: Seq<DocModel>,
    disk: Map<Seq<char>, FileModel>,
    cfg: Config,
    filter: Filter,
)
    ensures
        tasks_over(a + b, disk, cfg, filter) == tasks_over(a, disk, cfg, filter) + tasks_over(
            b,
            disk,
            cfg,
            filter,
        ),
        b.len() == 1 && disk.dom().contains(b[0].path) && disk[b[0].path].bytes.len()
            <= cfg.max_editor_bytes ==> tasks_over(b, disk, cfg, filter) == kept_tasks(
            tasks_of(text_in(disk[b[0].path].bytes)),
            filter,
            b[0],
        ),
        b.len() == 1 && (!disk.dom().contains(b[0].path) || disk[b[0].path].bytes.len()
            > cfg.max_editor_bytes) ==> tasks_over(b, disk, cfg, filter).len() == 0,
    decreases b.len(),
{
    if b.len() == 0 {
        assert(a + b =~= a);
        assert(tasks_over(a, disk, cfg, filter) + tasks_over(b, disk, cfg, filter) =~= tasks_over(
            a,
            disk,
            cfg,
            filter,
        ));
    } else {
        let d = b.drop_last();
        law_tasks_of_documents(a, d, disk, cfg, filter);
        assert((a + b).drop_last() =~= a + d);
        assert(tasks_over(a + b, disk, cfg, filter) =~= tasks_over(a, disk, cfg, filter)
            + tasks_over(b, disk, cfg, filter));
        if b.len() == 1 {
            assert(tasks_over(d, disk, cfg, filter) =~= Seq::empty());
            if let Some(text) = editable_text(disk, cfg, b[0].path) {
                assert(tasks_over(b, disk, cfg, filter) =~= kept_tasks(
                    tasks_of(text),
                    filter,
                    b[0],
                ));
            }
        }
    }
}

} // verus!
