//! Threads in the store: opening, answering, settling and listing them.

use super::anchor::{
    anchor_from_selection, anchor_hash, fingerprint, is_anchor, locate, located, newlines_in,
    selection_of, AnchorPosition, Selection,
};
use super::types::{
    comment_models, copy_replies, reply_models, Comment, CommentModel, Reply, ReplyModel, Status,
    AUTHOR_YOU,
};
use crate::config::Config;
use crate::corpus::Resolved;
use crate::diff::hunks::least;
use crate::disk::{text_at, Disk, FileModel};
use crate::error::{Error, ErrorModel, Result};
use crate::order::{in_order, is_total_order, sorted, stable_sort};
use crate::store::clients::{rate_models, rate_outcome, RateModel};
use crate::store::{crowded, is_id, Store};
use crate::table::{is_tally, lemma_place, listed, place_of, tally, Tally};
use crate::text::{
    among, chars_of, equal_ignoring_case, join, join_of, opt_str_view, part, same_ignoring_case,
    same_str, string_of, trim, trim_of, views, words, words_of,
};
use crate::version::record::id_view;
use crate::util::{
    display_of, display_path, fold_all, key_eq, keys_of, ms_to_rfc3339, now_ms, rfc3339_of,
    same_key, HostModel,
};
use vstd::prelude::*;
use vstd::utf8::encode_utf8;

verus! {

/// Is `iso` the text of the time `ms`?
pub open spec fn dated(ms: i64, iso: Seq<char>) -> bool {
    rfc3339_of(ms) == Some(iso)
}

/// What a reader is told who asks for a thread that is not there.
pub open spec fn no_comment(id: Seq<char>) -> ErrorModel {
    ErrorModel::NotFound("comment "@ + id)
}

fn missing(id: &str) -> (out: Error)
    ensures
        out@ == no_comment(id@),
{
    let mut m = "comment ".to_owned();
    m.append(id);
    Error::NotFound(m)
}

// ---------------------------------------------------------------------------
// Reading
// ---------------------------------------------------------------------------

/// A text on one line, cut short where it is long.
pub open spec fn excerpt(text: Seq<char>) -> Seq<char> {
    let flat = join_of(words_of(text), " "@);
    if flat.len() <= 120 {
        flat
    } else {
        flat.take(117) + "..."@
    }
}

/// A text on one line, cut short where it is long.
pub fn excerpt_of(text: &str) -> (out: String)
    ensures
        out@ == excerpt(text@),
{
    let flat = join(&words(&chars_of(text)), " ");
    let chars = chars_of(flat.as_str());
    if chars.len() <= 120 {
        return flat;
    }
    let mut out = string_of(part(&chars, 0, 117));
    assert(chars@.subrange(0, 117) =~= chars@.take(117));
    out.append("...");
    out
}

/// Where an anchor sits in a content.
pub open spec fn anchor_in(
    content: Seq<char>,
    text: Seq<char>,
    before: Seq<char>,
    after: Seq<char>,
) -> Option<AnchorPosition> {
    let c = encode_utf8(content);
    let a = encode_utf8(text);
    match located(c, a, encode_utf8(before), encode_utf8(after)) {
        Some(at) => Some(
            AnchorPosition {
                offset: at as usize,
                end: (at + a.len()) as usize,
                line: (newlines_in(c.take(at)) + 1) as usize,
            },
        ),
        None => None,
    }
}

/// Where a thread stands, given what its document holds now.
pub open spec fn status_of(
    resolved_at: Option<i64>,
    content: Option<Seq<char>>,
    anchor: Option<AnchorPosition>,
) -> Status {
    if content is None {
        Status::Orphaned
    } else if resolved_at is Some {
        Status::Resolved
    } else if anchor is None {
        Status::Outdated
    } else {
        Status::Open
    }
}

/// Earlier replies first.
pub open spec fn earlier() -> spec_fn(ReplyModel, ReplyModel) -> bool {
    |a: ReplyModel, b: ReplyModel| a.created_at <= b.created_at
}

/// A thread as it is read: its replies in order, its anchor looked up in what
/// the document holds now, and its status by both.
pub open spec fn hydrated(c: CommentModel, content: Option<Seq<char>>) -> CommentModel {
    let anchor = match content {
        Some(text) => anchor_in(text, c.anchor_text, c.context_before, c.context_after),
        None => None,
    };
    CommentModel {
        replies: sorted(c.replies, earlier()),
        anchor: anchor,
        status: status_of(c.resolved_at, content, anchor),
        ..c
    }
}

/// The thread as it is read from a disk.
pub open spec fn read_thread(c: CommentModel, disk: Map<Seq<char>, FileModel>) -> CommentModel {
    hydrated(c, text_at(disk, c.path))
}

fn reply_no_later(a: &Reply, b: &Reply) -> (out: bool)
    ensures
        out == (a.created_at <= b.created_at),
{
    a.created_at <= b.created_at
}

fn ordered_replies(replies: &[Reply]) -> (out: Vec<Reply>)
    ensures
        reply_models(out@) == sorted(reply_models(replies@), earlier()),
{
    let copied = copy_replies(replies);
    let ghost unsorted = copied@;
    let ghost rel = |a: Reply, b: Reply| a.created_at <= b.created_at;
    let out = stable_sort(copied, reply_no_later, Ghost(rel));
    proof {
        let f = |r: Reply| r@;
        crate::order::lemma_sorted_map(unsorted, f, rel, earlier());
        assert(reply_models(unsorted) =~= unsorted.map_values(f));
        assert(reply_models(out@) =~= out@.map_values(f));
    }
    out
}

/// Fills in what is derived of a thread, given what its document holds now.
pub fn hydrate(c: &Comment, content: Option<&str>) -> (out: Comment)
    ensures
        out@ == hydrated(c@, opt_str_view(content)),
{
    let mut out = c.copy();
    out.replies = ordered_replies(&c.replies);
    match content {
        None => {
            out.status = Status::Orphaned;
            out.anchor = None;
        },
        Some(text) => {
            let anchor = locate(
                text,
                c.anchor_text.as_str(),
                c.context_before.as_str(),
                c.context_after.as_str(),
            );
            out.anchor = anchor;
            out.status = if c.resolved_at.is_some() {
                Status::Resolved
            } else if anchor.is_none() {
                Status::Outdated
            } else {
                Status::Open
            };
        },
    }
    out
}

pub open spec fn comment_ids(c: Seq<CommentModel>) -> Seq<Seq<char>> {
    Seq::new(c.len(), |i: int| c[i].id)
}

fn find(comments: &[Comment], id: &str) -> (out: usize)
    ensures
        out == place_of(comment_ids(comment_models(comments@)), id@),
        out <= comments@.len(),
        out < comments@.len() ==> comments@[out as int].id@ == id@,
{
    let ghost ids = comment_ids(comment_models(comments@));
    let mut i: usize = 0;
    while i < comments.len() && !same_str(comments[i].id.as_str(), id)
        invariant
            i <= comments@.len(),
            ids == comment_ids(comment_models(comments@)),
            forall|k: int| 0 <= k < i ==> #[trigger] ids[k] != id@,
        decreases comments@.len() - i,
    {
        i += 1;
    }
    proof {
        lemma_place(ids, id@, i as int);
    }
    i
}

fn from_disk(c: &Comment, disk: &Disk) -> (out: Comment)
    ensures
        out@ == read_thread(c@, disk@),
{
    match disk.read_text(c.path.as_str()) {
        Some(text) => hydrate(c, Some(text.as_str())),
        None => hydrate(c, None),
    }
}

/// Is this the thread with an identifier, as it is now?
pub open spec fn thread_got(
    store: Store,
    disk: Disk,
    id: Seq<char>,
    out: Result<Comment>,
) -> bool {
    let all = comment_models(store.comments@);
    match out {
        Ok(c) => listed(comment_ids(all), id) && c@ == read_thread(
            all[place_of(comment_ids(all), id)],
            disk@,
        ),
        Err(e) => !listed(comment_ids(all), id) && e@ == no_comment(id),
    }
}

/// The thread with an identifier.
pub fn get(store: &Store, disk: &Disk, id: &str) -> (out: Result<Comment>)
    ensures
        thread_got(
            *store,
            *disk,
            id@,
            out,
        ),
{
    let at: usize = find(&store.comments, id);
    if at < store.comments.len() {
        Ok(from_disk(&store.comments[at], disk))
    } else {
        Err(missing(id))
    }
}

/// Which threads to list.
#[derive(Debug)]
pub struct ListFilter {
    pub path: Option<String>,
    pub status: Option<Status>,
    /// Threads that this author has taken part in.
    pub participant: Option<String>,
    /// How many at most; zero for all.
    pub limit: usize,
}

impl Default for ListFilter {
    fn default() -> (out: Self)
        ensures
            out.path is None,
            out.status is None,
            out.participant is None,
            out.limit == 0,
    {
        ListFilter { path: None, status: None, participant: None, limit: 0 }
    }
}

/// Has an author taken part in a thread?
pub open spec fn takes_part(c: CommentModel, who: Seq<char>) -> bool {
    same_ignoring_case(c.author, who) || exists|i: int|
        0 <= i < c.replies.len() && same_ignoring_case((#[trigger] c.replies[i]).author, who)
}

/// Does a thread, as read, pass a filter?
pub open spec fn wanted(c: CommentModel, filter: ListFilter, any_case: bool) -> bool {
    &&& filter.path matches Some(p) ==> same_key(c.path, p@, any_case)
    &&& filter.status matches Some(s) ==> c.status == s
    &&& filter.participant matches Some(who) ==> takes_part(c, who@)
}

/// The threads that pass a filter, as read, in the order of the store.
pub open spec fn selected(
    all: Seq<CommentModel>,
    disk: Map<Seq<char>, FileModel>,
    filter: ListFilter,
    any_case: bool,
) -> Seq<CommentModel>
    decreases all.len(),
{
    if all.len() == 0 {
        Seq::empty()
    } else {
        let front = selected(all.drop_last(), disk, filter, any_case);
        let c = read_thread(all.last(), disk);
        if wanted(c, filter, any_case) {
            front.push(c)
        } else {
            front
        }
    }
}

/// How far down a list a status stands.
pub open spec fn rank_of(s: Status) -> int {
    match s {
        Status::Outdated => 0,
        Status::Open => 1,
        Status::Orphaned => 2,
        Status::Resolved => 3,
    }
}

/// Outdated threads first: a thread whose anchor moved out from under it is
/// the one at risk of being forgotten. Then the newest first.
pub open spec fn urgency() -> spec_fn(CommentModel, CommentModel) -> bool {
    |a: CommentModel, b: CommentModel|
        rank_of(a.status) < rank_of(b.status) || (rank_of(a.status) == rank_of(b.status)
            && a.created_at >= b.created_at)
}

/// The first rows of a list, all of them where no limit is set.
pub open spec fn limited<T>(s: Seq<T>, limit: usize) -> Seq<T> {
    if 0 < limit < s.len() {
        s.take(limit as int)
    } else {
        s
    }
}

fn rank(s: Status) -> (out: u8)
    ensures
        out == rank_of(s),
{
    match s {
        Status::Outdated => 0,
        Status::Open => 1,
        Status::Orphaned => 2,
        Status::Resolved => 3,
    }
}

fn no_less_urgent(a: &Comment, b: &Comment) -> (out: bool)
    ensures
        out == urgency()(a@, b@),
{
    let x: u8 = rank(a.status);
    let y: u8 = rank(b.status);
    x < y || (x == y && a.created_at >= b.created_at)
}

fn participates(c: &Comment, who: &str) -> (out: bool)
    ensures
        out == takes_part(c@, who@),
{
    if equal_ignoring_case(c.author.as_str(), who) {
        return true;
    }
    let mut i: usize = 0;
    while i < c.replies.len()
        invariant
            i <= c.replies@.len(),
            forall|k: int|
                0 <= k < i ==> !same_ignoring_case((#[trigger] c@.replies[k]).author, who@),
        decreases c.replies@.len() - i,
    {
        if equal_ignoring_case(c.replies[i].author.as_str(), who) {
            assert(same_ignoring_case(c@.replies[i as int].author, who@));
            return true;
        }
        assert(c@.replies[i as int].author == c.replies@[i as int].author@);
        i += 1;
    }
    false
}

fn passes(c: &Comment, filter: &ListFilter, any_case: bool) -> (out: bool)
    ensures
        out == wanted(c@, *filter, any_case),
{
    if let Some(p) = &filter.path {
        if !key_eq(c.path.as_str(), p.as_str(), any_case) {
            return false;
        }
    }
    if let Some(s) = filter.status {
        if c.status != s {
            return false;
        }
    }
    if let Some(who) = &filter.participant {
        if !participates(c, who.as_str()) {
            return false;
        }
    }
    true
}

/// The threads that pass a filter, the most urgent first.
pub fn list(store: &Store, disk: &Disk, filter: &ListFilter) -> (out: Vec<Comment>)
    ensures
        comment_models(out@) == limited(
            sorted(
                selected(comment_models(store.comments@), disk@, *filter, store.host.drives),
                urgency(),
            ),
            filter.limit,
        ),
{
    let ghost all = comment_models(store.comments@);
    let mut found: Vec<Comment> = Vec::new();
    let mut i: usize = 0;
    assert(comment_models(found@) =~= selected(all.take(0), disk@, *filter, store.host.drives));
    while i < store.comments.len()
        invariant
            i <= store.comments@.len(),
            all == comment_models(store.comments@),
            comment_models(found@) == selected(
                all.take(i as int),
                disk@,
                *filter,
                store.host.drives,
            ),
        decreases store.comments@.len() - i,
    {
        assert(all.take(i + 1).drop_last() =~= all.take(i as int));
        let c = from_disk(&store.comments[i], disk);
        if passes(&c, filter, store.host.drives) {
            let ghost before = found@;
            found.push(c);
            assert(comment_models(found@) =~= comment_models(before).push(c@));
        }
        i += 1;
    }
    assert(all.take(i as int) =~= all);
    let ghost unsorted = found@;
    let ghost rel = |a: Comment, b: Comment| urgency()(a@, b@);
    let mut out = stable_sort(found, no_less_urgent, Ghost(rel));
    proof {
        let f = |c: Comment| c@;
        crate::order::lemma_sorted_map(unsorted, f, rel, urgency());
        assert(comment_models(unsorted) =~= unsorted.map_values(f));
        assert(comment_models(out@) =~= out@.map_values(f));
    }
    if filter.limit > 0 && filter.limit < out.len() {
        let ghost full = out@;
        out.truncate(filter.limit);
        assert(comment_models(out@) =~= comment_models(full).take(filter.limit as int));
    }
    out
}

/// The documents of the threads that are open, one for each thread.
pub open spec fn open_paths(
    all: Seq<CommentModel>,
    disk: Map<Seq<char>, FileModel>,
) -> Seq<Seq<char>>
    decreases all.len(),
{
    if all.len() == 0 {
        Seq::empty()
    } else if read_thread(all.last(), disk).status == Status::Open {
        open_paths(all.drop_last(), disk).push(all.last().path)
    } else {
        open_paths(all.drop_last(), disk)
    }
}

/// The document of each open thread.
pub fn open_threads(store: &Store, disk: &Disk) -> (out: Vec<String>)
    ensures
        views(out@) == open_paths(comment_models(store.comments@), disk@),
{
    let ghost all = comment_models(store.comments@);
    let mut keys: Vec<String> = Vec::new();
    let mut i: usize = 0;
    assert(views(keys@) =~= open_paths(all.take(0), disk@));
    while i < store.comments.len()
        invariant
            i <= store.comments@.len(),
            all == comment_models(store.comments@),
            views(keys@) == open_paths(all.take(i as int), disk@),
        decreases store.comments@.len() - i,
    {
        assert(all.take(i + 1).drop_last() =~= all.take(i as int));
        let c = from_disk(&store.comments[i], disk);
        if c.status == Status::Open {
            let ghost before = keys@;
            keys.push(store.comments[i].path.clone());
            assert(views(keys@) =~= views(before).push(all[i as int].path));
        }
        i += 1;
    }
    assert(all.take(i as int) =~= all);
    keys
}

/// Counts the open threads of each document that has any, by its key.
pub fn open_counts(store: &Store, disk: &Disk) -> (out: Vec<Tally>)
    ensures
        is_tally(
            out@,
            keys_of(open_paths(comment_models(store.comments@), disk@), store.host.drives),
        ),
{
    tally(&fold_all(&open_threads(store, disk), store.host.drives))
}

// ---------------------------------------------------------------------------
// Opening
// ---------------------------------------------------------------------------

/// A thread as it is first kept.
pub open spec fn new_comment(
    id: Seq<char>,
    path: Seq<char>,
    host: HostModel,
    text: Seq<char>,
    before: Seq<char>,
    after: Seq<char>,
    body: Seq<char>,
    author: Seq<char>,
    now: i64,
    iso: Seq<char>,
) -> CommentModel {
    CommentModel {
        id: id,
        path: path,
        display: display_of(path, host),
        anchor_hash: fingerprint(before, text, after),
        anchor_text: text,
        context_before: before,
        context_after: after,
        author: author,
        body: trim_of(body),
        created_at: now,
        created_at_iso: iso,
        resolved_at: None,
        resolved_by: None,
        addressed_by_proposal: None,
        replies: Seq::empty(),
        status: Status::Open,
        anchor: None,
        excerpt: excerpt(text),
    }
}

/// Has exactly one thread been added, for this anchor and note?
pub open spec fn opened(
    was: Seq<CommentModel>,
    now: Seq<CommentModel>,
    path: Seq<char>,
    host: HostModel,
    text: Seq<char>,
    before: Seq<char>,
    after: Seq<char>,
    body: Seq<char>,
    author: Seq<char>,
) -> bool {
    &&& now.len() == was.len() + 1
    &&& now.drop_last() == was
    &&& is_id(now.last().id, "cm"@)
    &&& !among(comment_ids(was), now.last().id)
    &&& dated(now.last().created_at, now.last().created_at_iso)
    &&& now.last() == new_comment(
        now.last().id,
        path,
        host,
        text,
        before,
        after,
        body,
        author,
        now.last().created_at,
        now.last().created_at_iso,
    )
}

fn ids_of(comments: &[Comment]) -> (out: Vec<String>)
    ensures
        views(out@) == comment_ids(comment_models(comments@)),
{
    let mut out: Vec<String> = Vec::new();
    let ghost ids = comment_ids(comment_models(comments@));
    let mut i: usize = 0;
    while i < comments.len()
        invariant
            i <= comments@.len(),
            ids == comment_ids(comment_models(comments@)),
            views(out@) == ids.take(i as int),
        decreases comments@.len() - i,
    {
        let ghost before = views(out@);
        out.push(comments[i].id.clone());
        assert(views(out@) =~= before.push(ids[i as int]));
        assert(ids.take(i + 1) =~= ids.take(i as int).push(ids[i as int]));
        i += 1;
    }
    assert(ids.take(i as int) =~= ids);
    out
}

/// What a caller is told when no identifier can be found.
pub open spec fn no_id(prefix: Seq<char>) -> ErrorModel {
    ErrorModel::Other("could not allocate a unique "@ + prefix + " id"@)
}

/// Opens a thread on an anchor as of a moment, under an identifier if one could
/// be found.
pub fn create_with_anchor_at(
    store: &mut Store,
    disk: &Disk,
    resolved: &Resolved,
    anchor_text: &str,
    before: &str,
    after: &str,
    body: &str,
    author: &str,
    id: Result<String>,
    now: i64,
    iso: &str,
) -> (out: Result<Comment>)
    ensures
        match id {
            Err(cause) => out == Err::<Comment, Error>(cause) && *final(store) == *old(store),
            Ok(name) => {
                let c = new_comment(
                    name@,
                    resolved@.path,
                    old(store).host@,
                    anchor_text@,
                    before@,
                    after@,
                    body@,
                    author@,
                    now,
                    iso@,
                );
                &&& comment_models(final(store).comments@) == comment_models(
                    old(store).comments@,
                ).push(c)
                &&& out matches Ok(thread) && thread@ == read_thread(c, disk@)
            },
        },
        *final(store) == (Store { comments: final(store).comments, ..*old(store) }),
{
    let id = match id {
        Ok(id) => id,
        Err(e) => {
            return Err(e);
        },
    };
    let c = Comment {
        id: id,
        path: resolved.path.clone(),
        display: display_path(resolved.path.as_str(), &store.host),
        anchor_hash: anchor_hash(before, anchor_text, after),
        anchor_text: anchor_text.to_owned(),
        context_before: before.to_owned(),
        context_after: after.to_owned(),
        author: author.to_owned(),
        body: string_of(trim(&chars_of(body))),
        created_at: now,
        created_at_iso: iso.to_owned(),
        resolved_at: None,
        resolved_by: None,
        addressed_by_proposal: None,
        replies: Vec::new(),
        status: Status::Open,
        anchor: None,
        excerpt: excerpt_of(anchor_text),
    };
    let out = from_disk(&c, disk);
    let ghost was = comment_models(store.comments@);
    assert(c@.replies =~= Seq::<ReplyModel>::empty());
    store.comments.push(c);
    assert(comment_models(store.comments@) =~= was.push(c@));
    Ok(out)
}

/// Opens a thread on an anchor now.
pub fn create_with_anchor(
    store: &mut Store,
    disk: &Disk,
    resolved: &Resolved,
    anchor_text: &str,
    before: &str,
    after: &str,
    body: &str,
    author: &str,
) -> (out: Result<Comment>)
    ensures
        match out {
            Ok(c) => opened(
                comment_models(old(store).comments@),
                comment_models(final(store).comments@),
                resolved@.path,
                old(store).host@,
                anchor_text@,
                before@,
                after@,
                body@,
                author@,
            ) && c@ == read_thread(comment_models(final(store).comments@).last(), disk@),
            Err(e) => final(store).comments == old(store).comments && crowded(
                comment_ids(comment_models(old(store).comments@)),
                "cm"@,
            ) && e@ == no_id("cm"@),
        },
        *final(store) == (Store { comments: final(store).comments, ..*old(store) }),
{
    let id = Store::alloc_id(&ids_of(&store.comments), "cm");
    let now = now_ms();
    let iso = ms_to_rfc3339(now);
    let ghost was = comment_models(store.comments@);
    let out = create_with_anchor_at(
        store,
        disk,
        resolved,
        anchor_text,
        before,
        after,
        body,
        author,
        id,
        now,
        iso.as_str(),
    );
    assert(out is Ok ==> comment_models(store.comments@).drop_last() =~= was);
    out
}

/// Is this how a thread is opened on a selection of a text?
pub open spec fn thread_opened(
    prior: Store,
    later: Store,
    disk: Map<Seq<char>, FileModel>,
    path: Seq<char>,
    content: Seq<char>,
    sel: Selection,
    body: Seq<char>,
    out: Result<Comment>,
) -> bool {
    let was = comment_models(prior.comments@);
    let is = comment_models(later.comments@);
    let text = encode_utf8(content);
    &&& match out {
        Ok(c) => trim_of(body).len() > 0 && sel.start < sel.end && exists|
            part: Seq<char>,
            before: Seq<char>,
            after: Seq<char>,
        |
            is_anchor(text, sel, part, before, after) && opened(
                was,
                is,
                path,
                prior.host@,
                part,
                before,
                after,
                body,
                "you"@,
            ) && c@ == read_thread(is.last(), disk),
        Err(e) => {
            &&& later.comments == prior.comments
            &&& if trim_of(body).len() == 0 {
                e@ == ErrorModel::Invalid("a comment needs a body"@)
            } else if sel.start >= sel.end {
                e@ == ErrorModel::Invalid("a comment needs a non-empty selection"@)
            } else {
                crowded(comment_ids(was), "cm"@) && e@ == no_id("cm"@)
            }
        },
    }
    &&& later == (Store { comments: later.comments, ..prior })
}

/// Opens a thread on a selection. Only the human user opens and settles
/// threads from the UI; agents reply and address.
pub fn create(
    store: &mut Store,
    disk: &Disk,
    cfg: &Config,
    resolved: &Resolved,
    content: &str,
    selection_start: usize,
    selection_end: usize,
    body: &str,
) -> (out: Result<Comment>)
    ensures
        thread_opened(
            *old(store),
            *final(store),
            disk@,
            resolved@.path,
            content@,
            selection_of(
                encode_utf8(content@),
                selection_start as int,
                selection_end as int,
                cfg.anchor_context_lines as nat,
            ),
            body@,
            out,
        ),
{
    if trim(&chars_of(body)).len() == 0 {
        return Err(Error::invalid("a comment needs a body"));
    }
    match anchor_from_selection(
        content,
        selection_start,
        selection_end,
        cfg.anchor_context_lines,
    ) {
        Ok((text, before, after)) => create_with_anchor(
            store,
            disk,
            resolved,
            text.as_str(),
            before.as_str(),
            after.as_str(),
            body,
            AUTHOR_YOU,
        ),
        Err(e) => Err(e),
    }
}

// ---------------------------------------------------------------------------
// Answering and settling
// ---------------------------------------------------------------------------

/// The identifiers of all replies.
pub open spec fn reply_ids(all: Seq<CommentModel>) -> Seq<Seq<char>>
    decreases all.len(),
{
    if all.len() == 0 {
        Seq::empty()
    } else {
        reply_ids(all.drop_last()) + Seq::new(
            all.last().replies.len(),
            |i: int| all.last().replies[i].id,
        )
    }
}

fn ids_of_replies(comments: &[Comment]) -> (out: Vec<String>)
    ensures
        views(out@) == reply_ids(comment_models(comments@)),
{
    let mut out: Vec<String> = Vec::new();
    let ghost all = comment_models(comments@);
    let mut i: usize = 0;
    assert(views(out@) =~= reply_ids(all.take(0)));
    while i < comments.len()
        invariant
            i <= comments@.len(),
            all == comment_models(comments@),
            views(out@) == reply_ids(all.take(i as int)),
        decreases comments@.len() - i,
    {
        assert(all.take(i + 1).drop_last() =~= all.take(i as int));
        let ghost front = views(out@);
        let ghost mine = Seq::new(
            all[i as int].replies.len(),
            |k: int| all[i as int].replies[k].id,
        );
        let replies = &comments[i].replies;
        let mut j: usize = 0;
        while j < replies.len()
            invariant
                j <= replies@.len(),
                i < comments@.len(),
                replies == &comments@[i as int].replies,
                all == comment_models(comments@),
                mine == Seq::new(
                    all[i as int].replies.len(),
                    |k: int| all[i as int].replies[k].id,
                ),
                views(out@) == front + mine.take(j as int),
            decreases replies@.len() - j,
        {
            let ghost before = views(out@);
            out.push(replies[j].id.clone());
            assert(views(out@) =~= before.push(mine[j as int]));
            assert(front + mine.take(j + 1) =~= (front + mine.take(j as int)).push(
                mine[j as int],
            ));
            j += 1;
        }
        assert(mine.take(j as int) =~= mine);
        i += 1;
    }
    assert(all.take(i as int) =~= all);
    out
}

/// A reply as it is kept.
pub open spec fn new_reply(
    id: Seq<char>,
    comment_id: Seq<char>,
    author: Seq<char>,
    body: Seq<char>,
    now: i64,
    iso: Seq<char>,
) -> ReplyModel {
    ReplyModel {
        id: id,
        comment_id: comment_id,
        author: author,
        body: trim_of(body),
        created_at: now,
        created_at_iso: iso,
    }
}

/// The calls that are kept after a reply, and whether it is one too many.
/// Replies that come from no client are not counted.
pub open spec fn reply_rate(
    calls: Seq<RateModel>,
    client: Option<Seq<char>>,
    cfg: Config,
    now: i64,
) -> (Seq<RateModel>, Option<ErrorModel>) {
    match client {
        Some(name) => rate_outcome(
            calls,
            name,
            "reply"@,
            cfg.reply_rate_limit,
            cfg.reply_rate_window_ms,
            now,
        ),
        None => (calls, None),
    }
}

/// How a reply leaves the store, and what comes of it: at a time, under an
/// identifier if one could be found.
pub open spec fn replies(
    was: Store,
    is: Store,
    cfg: Config,
    thread: Seq<char>,
    author: Seq<char>,
    body: Seq<char>,
    client: Option<Seq<char>>,
    id: std::result::Result<Seq<char>, ErrorModel>,
    now: i64,
    iso: Seq<char>,
    out: Result<Reply>,
) -> bool {
    let c = comment_models(was.comments@);
    let at = place_of(comment_ids(c), thread);
    let rate = reply_rate(
        rate_models(was.rate_events@),
        client,
        cfg,
        now,
    );
    if trim_of(body).len() == 0 {
        &&& out matches Err(e) && e@ == ErrorModel::Invalid("a reply needs a body"@)
        &&& is == was
    } else {
        &&& rate_models(is.rate_events@) == rate.0
        &&& if rate.1 is Some {
            &&& out matches Err(e) && rate.1 == Some(e@)
            &&& is.comments == was.comments
        } else if at >= c.len() {
            &&& out matches Err(e) && e@ == no_comment(thread)
            &&& is.comments == was.comments
        } else {
            match id {
                Err(cause) => {
                    &&& out matches Err(e) && e@ == cause
                    &&& is.comments == was.comments
                },
                Ok(name) => {
                    let r = new_reply(name, thread, author, body, now, iso);
                    &&& out matches Ok(given) && given@ == r
                    &&& comment_models(is.comments@) == c.update(
                        at,
                        CommentModel { replies: c[at].replies.push(r), ..c[at] },
                    )
                },
            }
        }
    }
}

/// Adds a reply at the time `now`, under an identifier if one could be found.
pub fn reply_at(
    store: &mut Store,
    cfg: &Config,
    comment_id: &str,
    author: &str,
    body: &str,
    client: Option<&str>,
    id: Result<String>,
    now: i64,
    iso: &str,
) -> (out: Result<Reply>)
    ensures
        replies(
            *old(store),
            *final(store),
            *cfg,
            comment_id@,
            author@,
            body@,
            opt_str_view(client),
            id_view(id),
            now,
            iso@,
            out,
        ),
        *final(store) == (Store {
            comments: final(store).comments,
            rate_events: final(store).rate_events,
            ..*old(store)
        }),
{
    let chars = chars_of(body);
    let trimmed = trim(&chars);
    if trimmed.len() == 0 {
        return Err(Error::invalid("a reply needs a body"));
    }
    if let Some(name) = client {
        match store.check_rate_limit_at(
            name,
            "reply",
            cfg.reply_rate_limit,
            cfg.reply_rate_window_ms,
            now,
        ) {
            Ok(_) => {},
            Err(e) => {
                return Err(e);
            },
        }
    }
    let at: usize = find(&store.comments, comment_id);
    if at >= store.comments.len() {
        return Err(missing(comment_id));
    }
    match id {
        Err(cause) => Err(cause),
        Ok(name) => {
            let r = Reply {
                id: name,
                comment_id: comment_id.to_owned(),
                author: author.to_owned(),
                body: string_of(trimmed),
                created_at: now,
                created_at_iso: iso.to_owned(),
            };
            let given = r.copy();
            let ghost was = comment_models(store.comments@);
            let mut c = store.comments[at].copy();
            let ghost replies = reply_models(c.replies@);
            c.replies.push(r);
            assert(reply_models(c.replies@) =~= replies.push(r@));
            store.comments.set(at, c);
            assert(comment_models(store.comments@) =~= was.update(at as int, c@));
            Ok(given)
        },
    }
}

/// May an identifier that was asked for have come back as `id`?
pub open spec fn reply_id_or_none(
    c: Seq<CommentModel>,
    id: std::result::Result<Seq<char>, ErrorModel>,
) -> bool {
    match id {
        Ok(name) => is_id(name, "rp"@) && !among(reply_ids(c), name),
        Err(e) => crowded(reply_ids(c), "rp"@) && e == no_id("rp"@),
    }
}

/// An identifier for a new reply, if one can be found.
pub fn fresh_reply_id(store: &Store) -> (out: Result<String>)
    ensures
        reply_id_or_none(comment_models(store.comments@), id_view(out)),
{
    Store::alloc_id(&ids_of_replies(&store.comments), "rp")
}

/// Is this how a thread is replied to?
pub open spec fn thread_replied(
    prior: Store,
    later: Store,
    cfg: Config,
    comment_id: Seq<char>,
    author: Seq<char>,
    body: Seq<char>,
    client: Option<Seq<char>>,
    out: Result<Reply>,
) -> bool {
    &&& exists|id: std::result::Result<Seq<char>, ErrorModel>, now: i64, iso: Seq<char>|
            reply_id_or_none(comment_models(prior.comments@), id) && dated(now, iso)
                && #[trigger] replies(
                prior,
                later,
                cfg,
                comment_id,
                author,
                body,
                client,
                id,
                now,
                iso,
                out,
            )
    &&& later == (Store {
        comments: later.comments,
        rate_events: later.rate_events,
        ..prior
    })
}

/// Adds a reply. Rate-limited per client so that a looping agent cannot flood
/// a thread.
pub fn reply(
    store: &mut Store,
    cfg: &Config,
    comment_id: &str,
    author: &str,
    body: &str,
    client: Option<&str>,
) -> (out: Result<Reply>)
    ensures
        thread_replied(
            *old(store),
            *final(store),
            *cfg,
            comment_id@,
            author@,
            body@,
            opt_str_view(client),
            out,
        ),
{
    let id = fresh_reply_id(store);
    let now = now_ms();
    let iso = ms_to_rfc3339(now);
    let ghost name = id_view(id);
    assert(reply_id_or_none(comment_models(store.comments@), name));
    reply_at(store, cfg, comment_id, author, body, client, id, now, iso.as_str())
}

/// A thread after it has been settled. Settling twice keeps the first time.
pub open spec fn settled(c: CommentModel, by: Seq<char>, now: i64) -> CommentModel {
    if c.resolved_at is Some {
        c
    } else {
        CommentModel { resolved_at: Some(now), resolved_by: Some(by), ..c }
    }
}

/// Settles a thread as of `now`.
pub fn resolve_thread_at(
    store: &mut Store,
    disk: &Disk,
    comment_id: &str,
    by: &str,
    now: i64,
) -> (out:
    Result<Comment>)
    ensures
        ({
            let was = comment_models(old(store).comments@);
            let at = place_of(comment_ids(was), comment_id@);
            if at < was.len() {
                let done = settled(was[at], by@, now);
                &&& comment_models(final(store).comments@) == was.update(at, done)
                &&& out matches Ok(c) && c@ == read_thread(done, disk@)
            } else {
                &&& *final(store) == *old(store)
                &&& out matches Err(e) && e@ == no_comment(comment_id@)
            }
        }),
        *final(store) == (Store { comments: final(store).comments, ..*old(store) }),
{
    let at: usize = find(&store.comments, comment_id);
    if at >= store.comments.len() {
        return Err(missing(comment_id));
    }
    let ghost was = comment_models(store.comments@);
    let mut c = store.comments[at].copy();
    if c.resolved_at.is_none() {
        c.resolved_at = Some(now);
        c.resolved_by = Some(by.to_owned());
    }
    let out = from_disk(&c, disk);
    store.comments.set(at, c);
    assert(comment_models(store.comments@) =~= was.update(at as int, c@));
    Ok(out)
}

/// Is this how a thread is resolved?
pub open spec fn thread_resolved(
    prior: Store,
    later: Store,
    disk: Disk,
    comment_id: Seq<char>,
    by: Seq<char>,
    out: Result<Comment>,
) -> bool {
    &&& ({
        let was = comment_models(prior.comments@);
        let at = place_of(comment_ids(was), comment_id);
        if at < was.len() {
            exists|now: i64|
                ({
                    let done = #[trigger] settled(was[at], by, now);
                    &&& comment_models(later.comments@) == was.update(at, done)
                    &&& out matches Ok(c) && c@ == read_thread(done, disk@)
                })
        } else {
            &&& later == prior
            &&& out matches Err(e) && e@ == no_comment(comment_id)
        }
    })
    &&& later == (Store { comments: later.comments, ..prior })
}

/// Settles a thread.
pub fn resolve_thread(store: &mut Store, disk: &Disk, comment_id: &str, by: &str) -> (out: Result<
    Comment,
>)
    ensures
        thread_resolved(
            *old(store),
            *final(store),
            *disk,
            comment_id@,
            by@,
            out,
        ),
{
    let now = now_ms();
    resolve_thread_at(store, disk, comment_id, by, now)
}

/// Is this how a thread is opened again?
pub open spec fn thread_reopened(
    prior: Store,
    later: Store,
    disk: Disk,
    comment_id: Seq<char>,
    out: Result<Comment>,
) -> bool {
    &&& ({
        let was = comment_models(prior.comments@);
        let at = place_of(comment_ids(was), comment_id);
        if at < was.len() {
            let open = CommentModel { resolved_at: None, resolved_by: None, ..was[at] };
            &&& comment_models(later.comments@) == was.update(at, open)
            &&& out matches Ok(c) && c@ == read_thread(open, disk@)
        } else {
            &&& later == prior
            &&& out matches Err(e) && e@ == no_comment(comment_id)
        }
    })
    &&& later == (Store { comments: later.comments, ..prior })
}

/// Takes a settlement back.
pub fn reopen_thread(store: &mut Store, disk: &Disk, comment_id: &str) -> (out: Result<Comment>)
    ensures
        thread_reopened(
            *old(store),
            *final(store),
            *disk,
            comment_id@,
            out,
        ),
{
    let at: usize = find(&store.comments, comment_id);
    if at >= store.comments.len() {
        return Err(missing(comment_id));
    }
    let ghost was = comment_models(store.comments@);
    let mut c = store.comments[at].copy();
    c.resolved_at = None;
    c.resolved_by = None;
    let out = from_disk(&c, disk);
    store.comments.set(at, c);
    assert(comment_models(store.comments@) =~= was.update(at as int, c@));
    Ok(out)
}

/// Removes a thread and its replies.
pub fn delete(store: &mut Store, comment_id: &str) -> (out: Result<()>)
    ensures
        ({
            let was = comment_models(old(store).comments@);
            let at = place_of(comment_ids(was), comment_id@);
            if at < was.len() {
                &&& comment_models(final(store).comments@) == was.remove(at)
                &&& out is Ok
            } else {
                &&& *final(store) == *old(store)
                &&& out matches Err(e) && e@ == no_comment(comment_id@)
            }
        }),
        *final(store) == (Store { comments: final(store).comments, ..*old(store) }),
{
    let at: usize = find(&store.comments, comment_id);
    if at >= store.comments.len() {
        return Err(missing(comment_id));
    }
    let ghost was = comment_models(store.comments@);
    let _ = store.comments.remove(at);
    assert(comment_models(store.comments@) =~= was.remove(at as int));
    Ok(())
}

/// Links a proposal to the thread it addresses.
pub fn link_proposal(store: &mut Store, comment_id: &str, proposal_id: &str) -> (out: Result<()>)
    ensures
        ({
            let was = comment_models(old(store).comments@);
            let at = place_of(comment_ids(was), comment_id@);
            if at < was.len() {
                &&& comment_models(final(store).comments@) == was.update(
                    at,
                    CommentModel { addressed_by_proposal: Some(proposal_id@), ..was[at] },
                )
                &&& out is Ok
            } else {
                &&& *final(store) == *old(store)
                &&& out matches Err(e) && e@ == no_comment(comment_id@)
            }
        }),
        *final(store) == (Store { comments: final(store).comments, ..*old(store) }),
{
    let at: usize = find(&store.comments, comment_id);
    if at >= store.comments.len() {
        return Err(missing(comment_id));
    }
    let ghost was = comment_models(store.comments@);
    let mut c = store.comments[at].copy();
    c.addressed_by_proposal = Some(proposal_id.to_owned());
    store.comments.set(at, c);
    assert(comment_models(store.comments@) =~= was.update(at as int, c@));
    Ok(())
}

// ---------------------------------------------------------------------------
// Laws
// ---------------------------------------------------------------------------

/// A thread is orphaned exactly when its document is gone; while the document
/// is there, it is resolved once settled, and else open as long as the anchored
/// text still stands somewhere in it, verbatim, and outdated when it does not.
pub proof fn law_thread_status(c: CommentModel, content: Option<Seq<char>>)
    ensures
        ({
            let s = hydrated(c, content).status;
            &&& s == Status::Orphaned <==> content is None
            &&& content matches Some(text) ==> {
                let pinned = c.anchor_text.len() > 0 && exists|p: int|
                    super::anchor::bytes_at(encode_utf8(text), encode_utf8(c.anchor_text), p);
                &&& s == Status::Resolved <==> c.resolved_at is Some
                &&& s == Status::Open <==> c.resolved_at is None && pinned
                &&& s == Status::Outdated <==> c.resolved_at is None && !pinned
            }
        }),
{
    if let Some(text) = content {
        if c.anchor_text.len() > 0 {
            crate::text::lemma_byte_len_concat(c.anchor_text.take(1), c.anchor_text.skip(1));
            assert(c.anchor_text =~= c.anchor_text.take(1) + c.anchor_text.skip(1));
            let front = c.anchor_text.take(1);
            crate::text::lemma_byte_len_push(Seq::empty(), front[0]);
            assert(Seq::<char>::empty().push(front[0]) =~= front);
            super::anchor::law_anchor_pins(
                encode_utf8(text),
                encode_utf8(c.anchor_text),
                encode_utf8(c.context_before),
                encode_utf8(c.context_after),
            );
        } else {
            assert(c.anchor_text =~= Seq::empty());
            assert(encode_utf8(c.anchor_text).len() == 0);
        }
    }
}

/// Settling a thread and taking that back leaves it as an unsettled thread.
pub proof fn law_reopen_undoes_resolve(c: CommentModel, by: Seq<char>, now: i64)
    requires
        c.resolved_at is None,
        c.resolved_by is None,
    ensures
        settled(c, by, now).resolved_at is Some,
        (CommentModel { resolved_at: None, resolved_by: None, ..settled(c, by, now) }) == c,
        settled(settled(c, by, now), by, now) == settled(c, by, now),
{
}

/// No thread is ever dropped: a list without filter and limit holds every
/// thread of the store, and outdated ones come first.
pub proof fn law_list_complete(
    all: Seq<CommentModel>,
    disk: Map<Seq<char>, FileModel>,
    filter: ListFilter,
    any_case: bool,
)
    requires
        filter.path is None,
        filter.status is None,
        filter.participant is None,
    ensures
        sorted(selected(all, disk, filter, any_case), urgency()).to_multiset() == all.map_values(
            |c: CommentModel| read_thread(c, disk),
        ).to_multiset(),
        in_order(sorted(selected(all, disk, filter, any_case), urgency()), urgency()),
{
    lemma_all_selected(all, disk, filter, any_case);
    crate::order::lemma_sorted_multiset(selected(all, disk, filter, any_case), urgency());
    assert(is_total_order(urgency()));
    crate::order::lemma_sorted_in_order(selected(all, disk, filter, any_case), urgency());
}

proof fn lemma_all_selected(
    all: Seq<CommentModel>,
    disk: Map<Seq<char>, FileModel>,
    filter: ListFilter,
    any_case: bool,
)
    requires
        filter.path is None,
        filter.status is None,
        filter.participant is None,
    ensures
        selected(all, disk, filter, any_case) == all.map_values(
            |c: CommentModel| read_thread(c, disk),
        ),
    decreases all.len(),
{
    let f = |c: CommentModel| read_thread(c, disk);
    if all.len() > 0 {
        lemma_all_selected(all.drop_last(), disk, filter, any_case);
        assert(all.map_values(f) =~= all.drop_last().map_values(f).push(f(all.last())));
    } else {
        assert(all.map_values(f) =~= Seq::empty());
    }
}

proof fn lemma_selected(
    all: Seq<CommentModel>,
    disk: Map<Seq<char>, FileModel>,
    filter: ListFilter,
    any_case: bool,
    read: spec_fn(CommentModel) -> CommentModel,
    asked: spec_fn(CommentModel) -> bool,
)
    requires
        forall|c: CommentModel| #[trigger] read(c) == read_thread(c, disk),
        forall|c: CommentModel| #[trigger] asked(c) == wanted(c, filter, any_case),
    ensures
        selected(all, disk, filter, any_case) == all.map_values(read).filter(asked),
    decreases all.len(),
{
    reveal(Seq::filter);
    if all.len() > 0 {
        let d = all.drop_last();
        lemma_selected(d, disk, filter, any_case, read, asked);
        assert(all.map_values(read).drop_last() =~= d.map_values(read));
        assert(all.map_values(read).last() == read(all.last()));
    } else {
        assert(all.map_values(read) =~= Seq::empty());
    }
}

/// A list holds the threads that are asked for, each once, and no other: those
/// of the document, with the status, in which the author has taken part. The
/// outdated ones come first, then the open ones, the orphaned ones and the
/// resolved ones, and among those of one status the newest. A limit keeps the
/// first.
pub proof fn law_list_is_what_is_asked_for(
    all: Seq<CommentModel>,
    disk: Map<Seq<char>, FileModel>,
    filter: ListFilter,
    any_case: bool,
)
    ensures
        ({
            let list = sorted(selected(all, disk, filter, any_case), urgency());
            let shown = limited(list, filter.limit);
            let asked = all.map_values(|c: CommentModel| read_thread(c, disk)).filter(
                |c: CommentModel|
                    (filter.path matches Some(p) ==> same_key(c.path, p@, any_case)) && (
                    filter.status matches Some(s) ==> c.status == s) && (
                    filter.participant matches Some(who) ==> same_ignoring_case(c.author, who@)
                        || exists|i: int|
                        0 <= i < c.replies.len() && same_ignoring_case(
                            (#[trigger] c.replies[i]).author,
                            who@,
                        )),
            );
            &&& list.to_multiset() == asked.to_multiset()
            &&& forall|i: int, j: int|
                0 <= i < j < list.len() ==> ({
                    let a = (#[trigger] list[i]).status;
                    let b = (#[trigger] list[j]).status;
                    &&& b == Status::Outdated ==> a == Status::Outdated
                    &&& b == Status::Open ==> a == Status::Outdated || a == Status::Open
                    &&& a == Status::Resolved ==> b == Status::Resolved
                    &&& a == Status::Orphaned ==> b == Status::Orphaned || b == Status::Resolved
                    &&& a == b ==> list[i].created_at >= list[j].created_at
                })
            &&& filter.limit == 0 ==> shown == list
            &&& filter.limit > 0 ==> shown == list.take(least(filter.limit as int, list.len() as int))
        }),
{
    let read = |c: CommentModel| read_thread(c, disk);
    let asked = |c: CommentModel|
        (filter.path matches Some(p) ==> same_key(c.path, p@, any_case)) && (
        filter.status matches Some(s) ==> c.status == s) && (
        filter.participant matches Some(who) ==> same_ignoring_case(c.author, who@) || exists|i: int|
            0 <= i < c.replies.len() && same_ignoring_case((#[trigger] c.replies[i]).author, who@));
    lemma_selected(all, disk, filter, any_case, read, asked);
    let found = selected(all, disk, filter, any_case);
    crate::order::lemma_sorted_multiset(found, urgency());
    assert(is_total_order(urgency()));
    crate::order::lemma_sorted_in_order(found, urgency());
    let list = sorted(found, urgency());
    assert forall|i: int, j: int| 0 <= i < j < list.len() implies urgency()(
        #[trigger] list[i],
        #[trigger] list[j],
    ) by {}
    assert(list.take(list.len() as int) =~= list);
}

/// An open thread is where its text is: the position that is shown is the one
/// at which the anchor's text stands with most of its context around it, in
/// what the document holds now. Replies are kept, the earlier ones first.
pub proof fn law_thread_is_where_its_text_is(c: CommentModel, text: Seq<char>)
    requires
        encode_utf8(text).len() < usize::MAX,
    ensures
        ({
            let t = hydrated(c, Some(text));
            &&& super::anchor::position_view(t.anchor) == super::anchor::placed(
                text,
                c.anchor_text,
                c.context_before,
                c.context_after,
            )
            &&& t.replies.to_multiset() == c.replies.to_multiset()
            &&& forall|i: int, j: int|
                0 <= i < j < t.replies.len() ==> (#[trigger] t.replies[i]).created_at <= (
                #[trigger] t.replies[j]).created_at
        }),
{
    let a = encode_utf8(c.anchor_text);
    let b = encode_utf8(text);
    if let Some(at) = located(
        b,
        a,
        encode_utf8(c.context_before),
        encode_utf8(c.context_after),
    ) {
        super::anchor::law_anchor_pins(
            b,
            a,
            encode_utf8(c.context_before),
            encode_utf8(c.context_after),
        );
        super::anchor::law_anchor_line(
            text,
            c.anchor_text,
            c.context_before,
            c.context_after,
        );
        super::anchor::lemma_newlines_bound(b.take(at));
    }
    crate::order::lemma_sorted_multiset(c.replies, earlier());
    assert(is_total_order(earlier()));
    crate::order::lemma_sorted_in_order(c.replies, earlier());
}

/// Are these threads the same but for the one with an identifier?
pub open spec fn only_differs(
    was: Seq<CommentModel>,
    is: Seq<CommentModel>,
    id: Seq<char>,
    at: int,
) -> bool {
    &&& 0 <= at < was.len() == is.len()
    &&& was[at].id == id
    &&& is[at].id == id
    &&& forall|k: int| 0 <= k < was.len() && k != at ==> #[trigger] is[k] == was[k]
}

/// A reply goes behind the replies that are there, under its author, with its
/// text but for the white space around it. Everything else of the thread, and
/// every other thread, stays as it was.
pub proof fn law_reply_is_added(
    prior: Store,
    later: Store,
    cfg: Config,
    id: Seq<char>,
    author: Seq<char>,
    body: Seq<char>,
    client: Option<Seq<char>>,
    reply: Reply,
) -> (at: int)
    requires
        thread_replied(prior, later, cfg, id, author, body, client, Ok(reply)),
    ensures
        ({
            let was = comment_models(prior.comments@);
            let is = comment_models(later.comments@);
            &&& only_differs(was, is, id, at)
            &&& is[at].replies.len() == was[at].replies.len() + 1
            &&& is[at].replies.drop_last() == was[at].replies
            &&& is[at].replies.last() == reply@
            &&& reply@.author == author
            &&& reply@.body == trim_of(body)
            &&& reply@.comment_id == id
            &&& (CommentModel { replies: was[at].replies, ..is[at] }) == was[at]
        }),
{
    let was = comment_models(prior.comments@);
    let is = comment_models(later.comments@);
    let at = place_of(comment_ids(was), id);
    crate::table::lemma_place_facts(comment_ids(was), id);
    assert(comment_ids(was)[at] == id);
    assert(is[at].replies.drop_last() =~= was[at].replies);
    at
}

/// A thread that is resolved reads as resolved, by whom it was the first time,
/// as long as its document is there; reopened it has no resolver. Everything
/// else of it, and every other thread, stays as it was.
pub proof fn law_resolving_settles_one_thread(
    prior: Store,
    later: Store,
    disk: Disk,
    id: Seq<char>,
    by: Seq<char>,
    c: Comment,
) -> (at: int)
    requires
        thread_resolved(prior, later, disk, id, by, Ok(c)) || thread_reopened(
            prior,
            later,
            disk,
            id,
            Ok(c),
        ),
    ensures
        ({
            let was = comment_models(prior.comments@);
            let is = comment_models(later.comments@);
            &&& only_differs(was, is, id, at)
            &&& (CommentModel {
                resolved_at: was[at].resolved_at,
                resolved_by: was[at].resolved_by,
                ..is[at]
            }) == was[at]
            &&& thread_resolved(prior, later, disk, id, by, Ok(c)) ==> is[at].resolved_at is Some
                && (was[at].resolved_at is None ==> is[at].resolved_by == Some(by)) && (
            was[at].resolved_at is Some ==> is[at] == was[at]) && (text_at(disk@, was[at].path)
                is Some ==> c@.status == Status::Resolved)
            &&& thread_reopened(prior, later, disk, id, Ok(c)) ==> is[at].resolved_at is None
                && is[at].resolved_by is None && c@.status != Status::Resolved
        }),
{
    let was = comment_models(prior.comments@);
    let is = comment_models(later.comments@);
    let at = place_of(comment_ids(was), id);
    crate::table::lemma_place_facts(comment_ids(was), id);
    assert(comment_ids(was)[at] == id);
    assert(is[at].id == was[at].id);
    at
}

/// A thread that is opened on a selection of a document is pinned to it: it is
/// added behind the others, open, with the selected text as its anchor, and
/// that text stands where the thread is shown.
pub proof fn law_opened_thread_is_pinned(
    prior: Store,
    later: Store,
    disk: Map<Seq<char>, FileModel>,
    path: Seq<char>,
    content: Seq<char>,
    sel: Selection,
    body: Seq<char>,
    c: Comment,
)
    requires
        thread_opened(prior, later, disk, path, content, sel, body, Ok(c)),
        text_at(disk, path) == Some(content),
        0 <= sel.before <= sel.start < sel.end <= sel.after <= encode_utf8(content).len(),
        encode_utf8(content).len() < usize::MAX,
    ensures
        comment_models(later.comments@).drop_last() == comment_models(prior.comments@),
        comment_models(later.comments@).last().id == c@.id,
        c@.path == path,
        c@.body == trim_of(body),
        c@.replies.len() == 0,
        c@.status == Status::Open,
        encode_utf8(c@.anchor_text) == encode_utf8(content).subrange(sel.start, sel.end),
        c@.anchor matches Some(p) && p.offset <= sel.start && p.end - p.offset == sel.end - sel.start
            && encode_utf8(content).subrange(p.offset as int, p.end as int) == encode_utf8(
            content,
        ).subrange(sel.start, sel.end),
{
    let bytes = encode_utf8(content);
    super::anchor::law_anchor_found_again(bytes, sel.before, sel.start, sel.end, sel.after);
    let kept = comment_models(later.comments@).last();
    law_thread_is_where_its_text_is(kept, content);
    crate::order::lemma_sorted_multiset(kept.replies, earlier());
}

/// An excerpt is the text on one line: its words with one space between them, no
/// longer than 120 characters, and where it is cut it says so.
pub proof fn law_excerpt(text: Seq<char>)
    ensures
        ({
            let flat = join_of(words_of(text), " "@);
            &&& excerpt(text).len() <= 120
            &&& flat.len() <= 120 ==> excerpt(text) == flat
            &&& flat.len() > 120 ==> excerpt(text).take(117) == flat.take(117) && "..."@.is_suffix_of(
                excerpt(text),
            )
        }),
{
    reveal_strlit("...");
    let flat = join_of(words_of(text), " "@);
    if flat.len() > 120 {
        let e = excerpt(text);
        assert(e.take(117) =~= flat.take(117));
        assert(e.subrange(e.len() - 3, e.len() as int) =~= "..."@);
    }
}

} // verus!
