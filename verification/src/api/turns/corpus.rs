//! Roots and documents.

use crate::api::docs::{
    doc_models, doc_summaries, root_id_for, root_meant, roots_of, rows_of, summaries,
};
use crate::api::edit::{
    create_doc, doc_created, doc_read, doc_saved, read_doc, save_doc,
};
use crate::api::index::{corpus_indexed, index_all, index_root, root_indexed};
use crate::api::notices::{after_save, event_models, version_recorded, EventModel};
use crate::api::params::{missing, required};
use crate::api::turn::{
    created_in, doc_in, fail, indexed_in, matches_in, policy_set_in, quiet, refused, root_set_in,
    saved_in, telling, Answer, Turn, World,
};
use crate::api::views::{root_views, roots_viewed};
use crate::config::Config;
use crate::corpus::roots::{
    add_root, get_root, list_path_policies, more_specific, no_root, path_policy_set, places_in,
    policies_less, policies_of, remove_path_policy, remove_root, resolve, resolved_in, root_added,
    root_ids, root_policy_set, root_removed, set_path_policy, set_root_policy,
};
use crate::corpus::sandbox::found_models;
use crate::corpus::types::{path_policy_models, root_models};
use crate::corpus::{ArtifactType, Policy};
use crate::disk::{appended, Disk};
use crate::error::{ErrorModel, Result};
use crate::event::Event;
use crate::order::sorted;
use crate::search::{search, searched, Query};
use crate::store::Store;
use crate::table::{listed, place_of};
use crate::text::{lend, opt_view};
use crate::version::types::snapshot_models;
use vstd::prelude::*;

verus! {

/// What the frontend is told when the roots change.
pub open spec fn corpus_news(t: Turn) -> bool {
    event_models(t.events@) == (if t.answer is Ok {
        seq![EventModel::CorpusChanged]
    } else {
        seq![]
    })
}

fn corpus_changed(answer: Result<Answer>) -> (out: Turn)
    ensures
        out.answer == answer,
        corpus_news(out),
{
    match answer {
        Ok(a) => {
            let out = telling(Ok(a), Event::CorpusChanged);
            assert(event_models(out.events@) =~= seq![EventModel::CorpusChanged]);
            out
        },
        Err(e) => {
            let out = fail(e);
            assert(event_models(out.events@) =~= seq![]);
            out
        },
    }
}

// ---------------------------------------------------------------------------
// Roots
// ---------------------------------------------------------------------------

pub open spec fn list_roots_turn(store: Store, t: Turn) -> bool {
    t.answer matches Ok(Answer::Roots(v)) && roots_viewed(store, v) && t.events@.len() == 0
}

pub fn list_roots_op(store: &Store) -> (out: Turn)
    ensures
        list_roots_turn(*store, out),
{
    quiet(Answer::Roots(root_views(store)))
}

/// The walk of a root that is to be indexed.
pub open spec fn first_walk(world: World) -> Seq<crate::api::index::WalkedFile> {
    world.walks@[0]@
}

/// A root is registered, and what is below it recorded. Where recording fails
/// the root stays.
pub open spec fn add_root_turn(
    prior: Store,
    later: Store,
    disk: Disk,
    cfg: Config,
    world: World,
    path: Seq<char>,
    policy: Policy,
    label: Option<Seq<char>>,
    t: Turn,
) -> bool {
    &&& corpus_news(t)
    &&& match t.answer {
        Ok(Answer::RootAdded((root, n))) => exists|mid: Store|
            #[trigger] root_added(prior, mid, path, policy, label, world.place, Ok(root))
                && root_indexed(mid, later, disk, cfg, root@, first_walk(world), Ok(n)),
        Ok(_) => false,
        Err(e) => root_added(prior, later, path, policy, label, world.place, Err(e)) || exists|
            mid: Store,
            root: crate::corpus::Root,
        |
            #[trigger] root_added(prior, mid, path, policy, label, world.place, Ok(root))
                && root_indexed(mid, later, disk, cfg, root@, first_walk(world), Err(e)),
    }
}

pub fn add_root_op(
    store: &mut Store,
    disk: &Disk,
    cfg: &Config,
    world: World,
    path: String,
    policy: Policy,
    label: Option<String>,
) -> (out: Turn)
    requires
        world.walks@.len() > 0,
    ensures
        add_root_turn(
            *old(store),
            *final(store),
            *disk,
            *cfg,
            world,
            path@,
            policy,
            opt_view(label),
            out,
        ),
{
    let place = world.place;
    let root = match add_root(store, path.as_str(), policy, lend(&label), place) {
        Ok(r) => r,
        Err(e) => {
            return corpus_changed(Err(e));
        },
    };
    let ghost mid = *store;
    assert(root_added(*old(store), mid, path@, policy, opt_view(label), place, Ok(root)));
    match index_root(store, disk, cfg, &root, &world.walks[0]) {
        Ok(n) => corpus_changed(Ok(Answer::RootAdded((root, n)))),
        Err(e) => corpus_changed(Err(e)),
    }
}

pub open spec fn remove_root_turn(prior: Store, later: Store, id: Seq<char>, t: Turn) -> bool {
    &&& corpus_news(t)
    &&& root_removed(
        prior,
        later,
        id,
        match t.answer {
            Ok(_) => Ok(()),
            Err(e) => Err(e),
        },
    )
    &&& t.answer matches Ok(a) ==> a is Done
}

pub fn remove_root_op(store: &mut Store, id: String) -> (out: Turn)
    ensures
        remove_root_turn(*old(store), *final(store), id@, out),
{
    match remove_root(store, id.as_str()) {
        Ok(_) => corpus_changed(Ok(Answer::Done)),
        Err(e) => corpus_changed(Err(e)),
    }
}

pub open spec fn set_root_policy_turn(
    prior: Store,
    later: Store,
    id: Seq<char>,
    policy: Policy,
    t: Turn,
) -> bool {
    &&& corpus_news(t)
    &&& t.answer matches Ok(a) ==> a is RootSet
    &&& root_policy_set(prior, later, id, policy, root_set_in(t))
}

pub fn set_root_policy_op(store: &mut Store, id: String, policy: Policy) -> (out: Turn)
    ensures
        set_root_policy_turn(*old(store), *final(store), id@, policy, out),
{
    match set_root_policy(store, id.as_str(), policy) {
        Ok(r) => corpus_changed(Ok(Answer::RootSet(r))),
        Err(e) => corpus_changed(Err(e)),
    }
}

pub open spec fn set_path_policy_turn(
    prior: Store,
    later: Store,
    root_id: Seq<char>,
    pattern: Seq<char>,
    policy: Policy,
    t: Turn,
) -> bool {
    &&& corpus_news(t)
    &&& t.answer matches Ok(a) ==> a is PolicySet
    &&& path_policy_set(prior, later, root_id, pattern, policy, policy_set_in(t))
}

pub fn set_path_policy_op(store: &mut Store, root_id: String, pattern: String, policy: Policy) -> (
    out: Turn)
    ensures
        set_path_policy_turn(*old(store), *final(store), root_id@, pattern@, policy, out),
{
    match set_path_policy(store, root_id.as_str(), pattern.as_str(), policy) {
        Ok(p) => corpus_changed(Ok(Answer::PolicySet(p))),
        Err(e) => corpus_changed(Err(e)),
    }
}

pub open spec fn remove_path_policy_turn(
    prior: Store,
    later: Store,
    id: Seq<char>,
    t: Turn,
) -> bool {
    &&& corpus_news(t)
    &&& t.answer matches Ok(Answer::Done)
    &&& path_policy_models(later.path_policies@) == policies_less(
        path_policy_models(prior.path_policies@),
        id,
    )
    &&& later == (Store { path_policies: later.path_policies, ..prior })
}

pub fn remove_path_policy_op(store: &mut Store, id: String) -> (out: Turn)
    ensures
        remove_path_policy_turn(*old(store), *final(store), id@, out),
{
    remove_path_policy(store, id.as_str());
    corpus_changed(Ok(Answer::Done))
}

pub open spec fn list_path_policies_turn(store: Store, root_id: Seq<char>, t: Turn) -> bool {
    t.answer matches Ok(Answer::Policies(v)) && path_policy_models(v@) == sorted(
        policies_of(path_policy_models(store.path_policies@), root_id),
        more_specific(),
    ) && t.events@.len() == 0
}

pub fn list_path_policies_op(store: &Store, root_id: String) -> (out: Turn)
    ensures
        list_path_policies_turn(*store, root_id@, out),
{
    quiet(Answer::Policies(list_path_policies(store, root_id.as_str())))
}

pub open spec fn index_root_turn(
    prior: Store,
    later: Store,
    disk: Disk,
    cfg: Config,
    world: World,
    id: Seq<char>,
    t: Turn,
) -> bool {
    let all = root_models(prior.roots@);
    if listed(root_ids(all), id) {
        &&& t.events@.len() == 0
        &&& t.answer matches Ok(a) ==> a is Indexed
        &&& root_indexed(
            prior,
            later,
            disk,
            cfg,
            all[place_of(root_ids(all), id)],
            first_walk(world),
            indexed_in(t),
        )
    } else {
        refused(t, no_root(id)) && later == prior
    }
}

pub fn index_root_op(store: &mut Store, disk: &Disk, cfg: &Config, world: &World, id: String) -> (
    out: Turn)
    requires
        world.walks@.len() > 0,
    ensures
        index_root_turn(*old(store), *final(store), *disk, *cfg, *world, id@, out),
{
    let root = match get_root(store, id.as_str()) {
        Ok(r) => r,
        Err(e) => {
            return fail(e);
        },
    };
    match index_root(store, disk, cfg, &root, &world.walks[0]) {
        Ok(n) => quiet(Answer::Indexed(n)),
        Err(e) => fail(e),
    }
}

pub open spec fn index_all_turn(
    prior: Store,
    later: Store,
    disk: Disk,
    cfg: Config,
    world: World,
    t: Turn,
) -> bool {
    &&& t.events@.len() == 0
    &&& t.answer matches Ok(a) ==> a is Indexed
    &&& exists|states: Seq<Store>, counts: Seq<usize>| #[trigger]
        corpus_indexed(
            prior,
            later,
            disk,
            cfg,
            world.walks@,
            states,
            counts,
            indexed_in(t),
        )
}

pub fn index_all_op(store: &mut Store, disk: &Disk, cfg: &Config, world: &World) -> (out: Turn)
    requires
        world.walks@.len() == old(store).roots@.len(),
    ensures
        index_all_turn(*old(store), *final(store), *disk, *cfg, *world, out),
{
    let done = index_all(store, disk, cfg, &world.walks);
    let ghost kept = done;
    let out = match done {
        Ok(n) => quiet(Answer::Indexed(n)),
        Err(e) => fail(e),
    };
    assert(indexed_in(out) == kept);
    out
}

// ---------------------------------------------------------------------------
// Documents
// ---------------------------------------------------------------------------

pub open spec fn list_docs_turn(
    store: Store,
    disk: Disk,
    world: World,
    root: Option<Seq<char>>,
    ty: Option<ArtifactType>,
    t: Turn,
) -> bool {
    let meant = match root {
        Some(value) => root_meant(roots_of(store), value, world.root_key@, store.host.drives),
        None => None,
    };
    if root is Some && meant is None {
        refused(t, ErrorModel::NotFound("root `"@ + root->Some_0 + "`"@))
    } else {
        t.answer matches Ok(Answer::Docs(v)) && doc_models(v@) == summaries(
            store,
            disk@,
            rows_of(snapshot_models(store.snapshots@), store.host.drives),
            meant,
            ty,
        ) && t.events@.len() == 0
    }
}

pub fn list_docs_op(
    store: &Store,
    disk: &Disk,
    world: &World,
    root: Option<String>,
    ty: Option<ArtifactType>,
) -> (out: Turn)
    ensures
        list_docs_turn(*store, *disk, *world, opt_view(root), ty, out),
{
    let id = match root {
        Some(value) => match root_id_for(store, value.as_str(), world.root_key.as_str()) {
            Ok(id) => Some(id),
            Err(e) => {
                return fail(e);
            },
        },
        None => None,
    };
    quiet(Answer::Docs(doc_summaries(store, disk, lend(&id), ty)))
}

pub open spec fn read_doc_turn(
    store: Store,
    disk: Disk,
    cfg: Config,
    world: World,
    path: Seq<char>,
    t: Turn,
) -> bool {
    match resolved_in(store, path, found_models(world.found@)) {
        Err(why) => refused(t, why),
        Ok(at) => {
            &&& t.events@.len() == 0
            &&& t.answer matches Ok(a) ==> a is Doc
            &&& doc_read(store, disk, cfg, at, doc_in(t))
        },
    }
}

pub fn read_doc_op(store: &Store, disk: &Disk, cfg: &Config, world: &World, path: String) -> (out:
    Turn)
    requires
        world.found@.len() == places_in(*store, path@).len(),
    ensures
        read_doc_turn(*store, *disk, *cfg, *world, path@, out),
{
    let at = match resolve(store, path.as_str(), &world.found) {
        Ok(at) => at,
        Err(e) => {
            return fail(e);
        },
    };
    match read_doc(store, disk, cfg, &at) {
        Ok(v) => quiet(Answer::Doc(v)),
        Err(e) => fail(e),
    }
}

/// What is told of a version that was made on purpose.
pub open spec fn version_news(done: Result<crate::version::RecordOutcome>) -> Seq<EventModel> {
    match done {
        Ok(o) => seq![EventModel::SnapshotCreated(o.snapshot@)],
        Err(_) => seq![],
    }
}

pub open spec fn create_doc_turn(
    prior: Store,
    later: Store,
    old_disk: Disk,
    new_disk: Disk,
    cfg: Config,
    world: World,
    path: Seq<char>,
    content: Option<Seq<char>>,
    t: Turn,
) -> bool {
    match resolved_in(prior, path, found_models(world.found@)) {
        Err(why) => refused(t, why) && later == prior && new_disk == old_disk,
        Ok(at) => {
            &&& t.answer matches Ok(a) ==> a is Created
            &&& doc_created(prior, later, old_disk, new_disk, cfg, at, content, created_in(t))
            &&& event_models(t.events@) == version_news(created_in(t))
        },
    }
}

pub fn create_doc_op(
    store: &mut Store,
    disk: &mut Disk,
    cfg: &Config,
    world: &World,
    path: String,
    content: Option<String>,
) -> (out: Turn)
    requires
        world.found@.len() == places_in(*old(store), path@).len(),
    ensures
        appended(*old(disk), *final(disk)),
        create_doc_turn(
            *old(store),
            *final(store),
            *old(disk),
            *final(disk),
            *cfg,
            *world,
            path@,
            opt_view(content),
            out,
        ),
{
    let at = match resolve(store, path.as_str(), &world.found) {
        Ok(at) => at,
        Err(e) => {
            return fail(e);
        },
    };
    match create_doc(store, disk, cfg, &at, lend(&content)) {
        Ok(o) => {
            let event = version_recorded(&o.snapshot);
            let out = telling(Ok(Answer::Created(o)), event);
            assert(event_models(out.events@) =~= version_news(created_in(out)));
            out
        },
        Err(e) => {
            let out = fail(e);
            assert(event_models(out.events@) =~= version_news(created_in(out)));
            out
        },
    }
}

pub open spec fn save_doc_turn(
    prior: Store,
    later: Store,
    old_disk: Disk,
    new_disk: Disk,
    cfg: Config,
    world: World,
    path: Seq<char>,
    content: Option<Seq<char>>,
    message: Option<Seq<char>>,
    t: Turn,
) -> bool {
    match resolved_in(prior, path, found_models(world.found@)) {
        Err(why) => refused(t, why) && later == prior && new_disk == old_disk,
        Ok(at) => match content {
            None => refused(t, missing("content"@)) && later == prior && new_disk == old_disk,
            Some(text) => {
                &&& t.answer matches Ok(a) ==> a is Saved
                &&& doc_saved(
                    prior,
                    later,
                    old_disk,
                    new_disk,
                    cfg,
                    at,
                    text,
                    message,
                    saved_in(t),
                )
                &&& event_models(t.events@) == (match saved_in(t) {
                    Ok(o) => if o.created {
                        seq![EventModel::SnapshotCreated(o.snapshot@)]
                    } else {
                        seq![]
                    },
                    Err(_) => seq![],
                })
            },
        },
    }
}

pub fn save_doc_op(
    store: &mut Store,
    disk: &mut Disk,
    cfg: &Config,
    world: &World,
    path: String,
    content: Option<String>,
    message: Option<String>,
) -> (out: Turn)
    requires
        world.found@.len() == places_in(*old(store), path@).len(),
    ensures
        appended(*old(disk), *final(disk)),
        save_doc_turn(
            *old(store),
            *final(store),
            *old(disk),
            *final(disk),
            *cfg,
            *world,
            path@,
            opt_view(content),
            opt_view(message),
            out,
        ),
{
    let at = match resolve(store, path.as_str(), &world.found) {
        Ok(at) => at,
        Err(e) => {
            return fail(e);
        },
    };
    let text = match required(content, "content") {
        Ok(text) => text,
        Err(e) => {
            return fail(e);
        },
    };
    match save_doc(store, disk, cfg, &at, text.as_str(), lend(&message)) {
        Ok(o) => {
            let events = after_save(&o);
            Turn { answer: Ok(Answer::Saved(o)), events: events }
        },
        Err(e) => {
            let out = fail(e);
            assert(event_models(out.events@) =~= seq![]);
            out
        },
    }
}

pub open spec fn search_docs_turn(store: Store, world: World, query: Query, t: Turn) -> bool {
    &&& t.events@.len() == 0
    &&& t.answer matches Ok(a) ==> a is Matches
    &&& searched(world.files@, query, store.host@, matches_in(t))
}

pub fn search_docs_op(store: &Store, world: &World, query: Query) -> (out: Turn)
    ensures
        search_docs_turn(*store, *world, query, out),
{
    match search(&world.files, &query, &store.host) {
        Ok(v) => quiet(Answer::Matches(v)),
        Err(e) => fail(e),
    }
}

} // verus!
