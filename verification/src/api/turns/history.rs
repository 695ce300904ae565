//! Versions.

use super::corpus::version_news;
use crate::api::edit::{checkpoint, checkpoint_made};
use crate::api::notices::{event_models, version_recorded};
use crate::api::params::{missing, required};
use crate::api::request::Caller;
use crate::api::turn::{
    compared_in, fail, quiet, recorded_in, refused, telling, version_in, Answer, HistoryView, Turn,
    World,
};
use crate::api::views::{diff_versions, read_version, version_read, versions_compared};
use crate::config::Config;
use crate::corpus::roots::{places_in, resolve, resolved_in};
use crate::corpus::sandbox::found_models;
use crate::disk::{appended, Disk};
use crate::error::Result;
use crate::store::Store;
use crate::text::opt_view;
use crate::util::{display_of, display_path};
use crate::version::export::{export_history, history_exported};
use crate::version::history::{at_most, list_versions, timeline, with_deltas};
use crate::version::record::RecordOutcome;
use crate::version::restore::{restore, version_restored};
use crate::version::types::snapshot_models;
use vstd::prelude::*;

verus! {

pub open spec fn list_versions_turn(
    store: Store,
    world: World,
    path: Seq<char>,
    limit: usize,
    t: Turn,
) -> bool {
    match resolved_in(store, path, found_models(world.found@)) {
        Err(why) => refused(t, why),
        Ok(at) => t.answer matches Ok(Answer::Versions(v)) && snapshot_models(v@) == with_deltas(
            at_most(
                timeline(snapshot_models(store.snapshots@), at.path, store.host.drives),
                limit as nat,
            ),
        ) && t.events@.len() == 0,
    }
}

pub fn list_versions_op(store: &Store, world: &World, path: String, limit: usize) -> (out: Turn)
    requires
        world.found@.len() == places_in(*store, path@).len(),
    ensures
        list_versions_turn(*store, *world, path@, limit, out),
{
    let at = match resolve(store, path.as_str(), &world.found) {
        Ok(at) => at,
        Err(e) => {
            return fail(e);
        },
    };
    quiet(Answer::Versions(list_versions(store, at.path.as_str(), limit)))
}

pub open spec fn read_version_turn(
    store: Store,
    world: World,
    path: Seq<char>,
    reference: Option<Seq<char>>,
    t: Turn,
) -> bool {
    match resolved_in(store, path, found_models(world.found@)) {
        Err(why) => refused(t, why),
        Ok(at) => {
            &&& t.events@.len() == 0
            &&& t.answer matches Ok(a) ==> a is Version
            &&& version_read(store, at.path, reference, version_in(t))
        },
    }
}

pub fn read_version_op(store: &Store, world: &World, path: String, reference: Option<String>) -> (
    out: Turn)
    requires
        world.found@.len() == places_in(*store, path@).len(),
    ensures
        read_version_turn(*store, *world, path@, opt_view(reference), out),
{
    let at = match resolve(store, path.as_str(), &world.found) {
        Ok(at) => at,
        Err(e) => {
            return fail(e);
        },
    };
    match read_version(store, at.path.as_str(), reference) {
        Ok(v) => quiet(Answer::Version(v)),
        Err(e) => fail(e),
    }
}

pub open spec fn diff_versions_turn(
    store: Store,
    world: World,
    path: Seq<char>,
    from: Option<Seq<char>>,
    to: Option<Seq<char>>,
    t: Turn,
) -> bool {
    match resolved_in(store, path, found_models(world.found@)) {
        Err(why) => refused(t, why),
        Ok(at) => {
            &&& t.events@.len() == 0
            &&& t.answer matches Ok(a) ==> a is Compared
            &&& versions_compared(store, at.path, from, to, compared_in(t))
        },
    }
}

pub fn diff_versions_op(
    store: &Store,
    world: &World,
    path: String,
    from: Option<String>,
    to: Option<String>,
) -> (out: Turn)
    requires
        world.found@.len() == places_in(*store, path@).len(),
    ensures
        diff_versions_turn(*store, *world, path@, opt_view(from), opt_view(to), out),
{
    let at = match resolve(store, path.as_str(), &world.found) {
        Ok(at) => at,
        Err(e) => {
            return fail(e);
        },
    };
    match diff_versions(store, at.path.as_str(), from, to) {
        Ok(d) => quiet(Answer::Compared(d)),
        Err(e) => fail(e),
    }
}

/// An answer about a version that was made on purpose.
fn made(done: Result<RecordOutcome>) -> (out: Turn)
    ensures
        recorded_in(out) == done,
        out.answer matches Ok(a) ==> a is Recorded,
        event_models(out.events@) == version_news(done),
{
    match done {
        Ok(o) => {
            let event = version_recorded(&o.snapshot);
            let out = telling(Ok(Answer::Recorded(o)), event);
            assert(event_models(out.events@) =~= version_news(done));
            out
        },
        Err(e) => {
            let out = fail(e);
            assert(event_models(out.events@) =~= version_news(done));
            out
        },
    }
}

pub open spec fn checkpoint_turn(
    prior: Store,
    later: Store,
    disk: Disk,
    cfg: Config,
    caller: Caller,
    world: World,
    path: Seq<char>,
    message: Option<Seq<char>>,
    t: Turn,
) -> bool {
    match resolved_in(prior, path, found_models(world.found@)) {
        Err(why) => refused(t, why) && later == prior,
        Ok(at) => {
            &&& t.answer matches Ok(a) ==> a is Recorded
            &&& checkpoint_made(prior, later, disk, cfg, caller, at, message, recorded_in(t))
            &&& event_models(t.events@) == version_news(recorded_in(t))
        },
    }
}

pub fn checkpoint_op(
    store: &mut Store,
    disk: &Disk,
    cfg: &Config,
    caller: &Caller,
    world: &World,
    path: String,
    message: Option<String>,
) -> (out: Turn)
    requires
        world.found@.len() == places_in(*old(store), path@).len(),
    ensures
        checkpoint_turn(
            *old(store),
            *final(store),
            *disk,
            *cfg,
            *caller,
            *world,
            path@,
            opt_view(message),
            out,
        ),
{
    let at = match resolve(store, path.as_str(), &world.found) {
        Ok(at) => at,
        Err(e) => {
            return fail(e);
        },
    };
    made(checkpoint(store, disk, cfg, caller, &at, message))
}

pub open spec fn restore_version_turn(
    prior: Store,
    later: Store,
    old_disk: Disk,
    new_disk: Disk,
    cfg: Config,
    world: World,
    path: Seq<char>,
    version_id: Option<Seq<char>>,
    t: Turn,
) -> bool {
    match resolved_in(prior, path, found_models(world.found@)) {
        Err(why) => refused(t, why) && later == prior && new_disk == old_disk,
        Ok(at) => match version_id {
            None => refused(t, missing("version_id"@)) && later == prior && new_disk == old_disk,
            Some(id) => {
                &&& t.answer matches Ok(a) ==> a is Recorded
                &&& version_restored(
                    prior,
                    later,
                    old_disk,
                    new_disk,
                    cfg,
                    at,
                    id,
                    recorded_in(t),
                )
                &&& event_models(t.events@) == version_news(recorded_in(t))
            },
        },
    }
}

pub fn restore_version_op(
    store: &mut Store,
    disk: &mut Disk,
    cfg: &Config,
    world: &World,
    path: String,
    version_id: Option<String>,
) -> (out: Turn)
    requires
        world.found@.len() == places_in(*old(store), path@).len(),
    ensures
        appended(*old(disk), *final(disk)),
        restore_version_turn(
            *old(store),
            *final(store),
            *old(disk),
            *final(disk),
            *cfg,
            *world,
            path@,
            opt_view(version_id),
            out,
        ),
{
    let at = match resolve(store, path.as_str(), &world.found) {
        Ok(at) => at,
        Err(e) => {
            return fail(e);
        },
    };
    let id = match required(version_id, "version_id") {
        Ok(id) => id,
        Err(e) => {
            return fail(e);
        },
    };
    made(restore(store, disk, cfg, &at, id.as_str()))
}

pub open spec fn export_history_turn(
    store: Store,
    world: World,
    path: Seq<char>,
    t: Turn,
) -> bool {
    match resolved_in(store, path, found_models(world.found@)) {
        Err(why) => refused(t, why),
        Ok(at) => {
            &&& t.events@.len() == 0
            &&& match t.answer {
                Ok(Answer::History(h)) => h.path@ == at.path && h.display@ == display_of(
                    at.path,
                    store.host@,
                ) && history_exported(store, at.path, Ok(h.series)),
                Ok(_) => false,
                Err(e) => history_exported(store, at.path, Err(e)),
            }
        },
    }
}

pub fn export_history_op(store: &Store, world: &World, path: String) -> (out: Turn)
    requires
        world.found@.len() == places_in(*store, path@).len(),
    ensures
        export_history_turn(*store, *world, path@, out),
{
    let at = match resolve(store, path.as_str(), &world.found) {
        Ok(at) => at,
        Err(e) => {
            return fail(e);
        },
    };
    match export_history(store, at.path.as_str()) {
        Ok(series) => {
            let display = display_path(at.path.as_str(), &store.host);
            quiet(Answer::History(HistoryView { path: at.path, display: display, series: series }))
        },
        Err(e) => fail(e),
    }
}

} // verus!
