//! Comments.

use crate::api::edit::{comment_created, create_comment};
use crate::api::notices::{event_models, thread_activity, EventModel};
use crate::api::request::Caller;
use crate::api::turn::{
    fail, quiet, refused, replied_in, telling, thread_in, Answer, Turn, World,
};
use crate::api::views::{addressed_thread, comment_deleted, delete_comment};
use crate::comment::threads::{
    get, limited, list, reopen_thread, reply, resolve_thread, selected, thread_got,
    thread_reopened, thread_replied, thread_resolved, urgency, ListFilter,
};
use crate::comment::types::comment_models;
use crate::comment::Comment;
use crate::config::Config;
use crate::corpus::roots::{places_in, resolve, resolved_in};
use crate::corpus::sandbox::found_models;
use crate::disk::Disk;
use crate::error::{Error, Result};
use crate::event::CommentActivityKind;
use crate::order::sorted;
use crate::store::Store;
use crate::text::{opt_str_view, opt_view};
use vstd::prelude::*;

verus! {

/// Are these the threads that a filter asks for?
pub open spec fn threads_listed(store: Store, disk: Disk, filter: ListFilter, t: Turn) -> bool {
    t.answer matches Ok(Answer::Threads(v)) && comment_models(v@) == limited(
        sorted(
            selected(comment_models(store.comments@), disk@, filter, store.host.drives),
            urgency(),
        ),
        filter.limit,
    ) && t.events@.len() == 0
}

/// The path that a filter names is resolved before it filters.
pub open spec fn list_comments_turn(
    store: Store,
    disk: Disk,
    world: World,
    filter: ListFilter,
    t: Turn,
) -> bool {
    match filter.path {
        None => threads_listed(store, disk, filter, t),
        Some(path) => match resolved_in(store, path@, found_models(world.found@)) {
            Err(why) => refused(t, why),
            Ok(at) => exists|canonical: String|
                canonical@ == at.path && #[trigger] threads_listed(
                    store,
                    disk,
                    ListFilter { path: Some(canonical), ..filter },
                    t,
                ),
        },
    }
}

pub fn list_comments_op(store: &Store, disk: &Disk, world: &World, filter: ListFilter) -> (out:
    Turn)
    requires
        filter.path matches Some(path) ==> world.found@.len() == places_in(*store, path@).len(),
    ensures
        list_comments_turn(*store, *disk, *world, filter, out),
{
    match &filter.path {
        Some(path) => match resolve(store, path.as_str(), &world.found) {
            Ok(at) => {
                let wanted = ListFilter {
                    path: Some(at.path),
                    status: filter.status,
                    participant: filter.participant,
                    limit: filter.limit,
                };
                let out = quiet(Answer::Threads(list(store, disk, &wanted)));
                assert(threads_listed(*store, *disk, wanted, out));
                out
            },
            Err(e) => fail(e),
        },
        None => quiet(Answer::Threads(list(store, disk, &filter))),
    }
}

pub open spec fn get_comment_turn(store: Store, disk: Disk, id: Seq<char>, t: Turn) -> bool {
    &&& t.events@.len() == 0
    &&& t.answer matches Ok(a) ==> a is Thread
    &&& thread_got(store, disk, id, thread_in(t))
}

pub fn get_comment_op(store: &Store, disk: &Disk, id: String) -> (out: Turn)
    ensures
        get_comment_turn(*store, *disk, id@, out),
{
    match get(store, disk, id.as_str()) {
        Ok(c) => quiet(Answer::Thread(c)),
        Err(e) => fail(e),
    }
}

/// What the frontend is told of a thread that something was done to.
pub open spec fn thread_news(t: Turn, kind: CommentActivityKind) -> bool {
    &&& t.answer matches Ok(a) ==> a is Thread
    &&& event_models(t.events@) == (match thread_in(t) {
        Ok(c) => seq![EventModel::CommentActivity(kind, c@)],
        Err(_) => seq![],
    })
}

fn thread_changed(done: Result<Comment>, kind: CommentActivityKind) -> (out: Turn)
    ensures
        thread_in(out) == done,
        thread_news(out, kind),
{
    match done {
        Ok(c) => {
            let event = thread_activity(kind, &c);
            let out = telling(Ok(Answer::Thread(c)), event);
            assert(event_models(out.events@) =~= seq![EventModel::CommentActivity(kind, c@)]);
            out
        },
        Err(e) => {
            let out = fail(e);
            assert(event_models(out.events@) =~= seq![]);
            out
        },
    }
}

pub open spec fn create_comment_turn(
    prior: Store,
    later: Store,
    disk: Disk,
    cfg: Config,
    world: World,
    path: Seq<char>,
    selection_start: Option<usize>,
    selection_end: Option<usize>,
    body: Option<Seq<char>>,
    t: Turn,
) -> bool {
    match resolved_in(prior, path, found_models(world.found@)) {
        Err(why) => refused(t, why) && later == prior,
        Ok(at) => {
            &&& comment_created(
                prior,
                later,
                disk,
                cfg,
                at,
                selection_start,
                selection_end,
                body,
                thread_in(t),
            )
            &&& thread_news(t, CommentActivityKind::Created)
        },
    }
}

pub fn create_comment_op(
    store: &mut Store,
    disk: &Disk,
    cfg: &Config,
    world: &World,
    path: String,
    selection_start: Option<usize>,
    selection_end: Option<usize>,
    body: Option<String>,
) -> (out: Turn)
    requires
        world.found@.len() == places_in(*old(store), path@).len(),
    ensures
        create_comment_turn(
            *old(store),
            *final(store),
            *disk,
            *cfg,
            *world,
            path@,
            selection_start,
            selection_end,
            opt_view(body),
            out,
        ),
{
    let at = match resolve(store, path.as_str(), &world.found) {
        Ok(at) => at,
        Err(e) => {
            return fail(e);
        },
    };
    let done = create_comment(store, disk, cfg, &at, selection_start, selection_end, body);
    thread_changed(done, CommentActivityKind::Created)
}

/// The client whose replies are counted: nobody counts the human user's.
pub open spec fn counted_client(caller: Caller) -> Option<Seq<char>> {
    if caller.is_human {
        None
    } else {
        Some(caller.client@)
    }
}

pub open spec fn reply_comment_turn(
    prior: Store,
    later: Store,
    disk: Disk,
    cfg: Config,
    caller: Caller,
    id: Seq<char>,
    body: Seq<char>,
    t: Turn,
) -> bool {
    &&& t.answer matches Ok(a) ==> a is Replied
    &&& thread_replied(
        prior,
        later,
        cfg,
        id,
        caller.author@,
        body,
        counted_client(caller),
        replied_in(t),
    )
    &&& event_models(t.events@) == (match addressed_thread(later, disk@, Some(id)) {
        Some(c) if t.answer is Ok => seq![
            EventModel::CommentActivity(CommentActivityKind::Replied, c),
        ],
        _ => seq![],
    })
}

pub fn reply_comment_op(
    store: &mut Store,
    disk: &Disk,
    cfg: &Config,
    caller: &Caller,
    id: String,
    body: String,
) -> (out: Turn)
    ensures
        reply_comment_turn(
            *old(store),
            *final(store),
            *disk,
            *cfg,
            *caller,
            id@,
            body@,
            out,
        ),
{
    let client: Option<&str> = if caller.is_human {
        None
    } else {
        Some(caller.client.as_str())
    };
    assert(opt_str_view(client) == counted_client(*caller));
    match reply(store, cfg, id.as_str(), caller.author.as_str(), body.as_str(), client) {
        Ok(r) => match get(store, disk, id.as_str()) {
            Ok(c) => {
                let event = thread_activity(CommentActivityKind::Replied, &c);
                let out = telling(Ok(Answer::Replied(r)), event);
                assert(event_models(out.events@) =~= seq![
                    EventModel::CommentActivity(CommentActivityKind::Replied, c@),
                ]);
                assert(replied_in(out) == Ok::<_, Error>(r));
                out
            },
            Err(_) => {
                let out = quiet(Answer::Replied(r));
                assert(event_models(out.events@) =~= seq![]);
                assert(replied_in(out) == Ok::<_, Error>(r));
                out
            },
        },
        Err(e) => {
            let out = fail(e);
            assert(event_models(out.events@) =~= seq![]);
            out
        },
    }
}

pub open spec fn resolve_comment_turn(
    prior: Store,
    later: Store,
    disk: Disk,
    caller: Caller,
    id: Seq<char>,
    t: Turn,
) -> bool {
    &&& thread_resolved(prior, later, disk, id, caller.author@, thread_in(t))
    &&& thread_news(t, CommentActivityKind::Resolved)
}

pub fn resolve_comment_op(
    store: &mut Store,
    disk: &Disk,
    caller: &Caller,
    id: String,
) -> (out: Turn)
    ensures
        resolve_comment_turn(*old(store), *final(store), *disk, *caller, id@, out),
{
    let done = resolve_thread(store, disk, id.as_str(), caller.author.as_str());
    thread_changed(done, CommentActivityKind::Resolved)
}

pub open spec fn reopen_comment_turn(
    prior: Store,
    later: Store,
    disk: Disk,
    id: Seq<char>,
    t: Turn,
) -> bool {
    &&& thread_reopened(prior, later, disk, id, thread_in(t))
    &&& thread_news(t, CommentActivityKind::Reopened)
}

pub fn reopen_comment_op(store: &mut Store, disk: &Disk, id: String) -> (out: Turn)
    ensures
        reopen_comment_turn(*old(store), *final(store), *disk, id@, out),
{
    let done = reopen_thread(store, disk, id.as_str());
    thread_changed(done, CommentActivityKind::Reopened)
}

/// A thread is removed; the frontend is told how it last was.
pub open spec fn delete_comment_turn(
    prior: Store,
    later: Store,
    disk: Disk,
    id: Seq<char>,
    t: Turn,
) -> bool {
    match t.answer {
        Ok(a) => a is Done && exists|c: Comment|
            #[trigger] comment_deleted(prior, later, disk, id, Ok(c)) && event_models(t.events@)
                == seq![EventModel::CommentActivity(CommentActivityKind::Deleted, c@)],
        Err(e) => comment_deleted(prior, later, disk, id, Err(e)) && t.events@.len() == 0,
    }
}

pub fn delete_comment_op(store: &mut Store, disk: &Disk, id: String) -> (out: Turn)
    ensures
        delete_comment_turn(*old(store), *final(store), *disk, id@, out),
{
    match delete_comment(store, disk, id.as_str()) {
        Ok(c) => {
            let event = thread_activity(CommentActivityKind::Deleted, &c);
            let out = telling(Ok(Answer::Done), event);
            assert(event_models(out.events@) =~= seq![
                EventModel::CommentActivity(CommentActivityKind::Deleted, c@),
            ]);
            assert(comment_deleted(*old(store), *store, *disk, id@, Ok(c)));
            out
        },
        Err(e) => fail(e),
    }
}

} // verus!
