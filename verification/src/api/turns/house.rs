//! Views and housekeeping.

use crate::api::notices::{client_notice, clients_changed, event_models};
use crate::api::today::{
    is_status, is_today, mark_reviewed, review_start, status_at, today_at,
};
use crate::api::turn::{fail, quiet, telling, usage_in, Answer, Turn, World};
use crate::config::Config;
use crate::disk::Disk;
use crate::instrumentation::{
    clear, count, earlier, enabled, is_enabled, list, record, set_enabled, usage_models,
    usage_recorded,
};
use crate::order::sorted;
use crate::store::clients::{active_of, client_models, touched};
use crate::store::{meta_map, setting, Store};
use crate::text::{integer_of, opt_view};
use crate::util::clamped;
use vstd::prelude::*;

verus! {

pub open spec fn today_turn(store: Store, disk: Disk, cfg: Config, world: World, t: Turn) -> bool {
    t.answer matches Ok(Answer::Today(v)) && is_today(
        v,
        store,
        disk@,
        cfg,
        review_start(store, world.now) as i64,
    ) && t.events@.len() == 0
}

pub fn today_op(store: &Store, disk: &Disk, cfg: &Config, world: &World) -> (out: Turn)
    ensures
        today_turn(*store, *disk, *cfg, *world, out),
{
    quiet(Answer::Today(today_at(store, disk, cfg, world.now)))
}

pub open spec fn status_turn(store: Store, disk: Disk, cfg: Config, world: World, t: Turn) -> bool {
    t.answer matches Ok(Answer::Status(v)) && is_status(
        v,
        store,
        disk@,
        cfg,
        world.index_bytes,
        world.watching,
        world.now,
    ) && t.events@.len() == 0
}

pub fn status_op(store: &Store, disk: &Disk, cfg: &Config, world: &World) -> (out: Turn)
    ensures
        status_turn(*store, *disk, *cfg, *world, out),
{
    quiet(
        Answer::Status(status_at(store, disk, cfg, world.index_bytes, world.watching, world.now)),
    )
}

/// Does the turn set one setting, and nothing else?
pub open spec fn one_setting(prior: Store, later: Store, key: Seq<char>, value: Seq<char>) -> bool {
    &&& meta_map(later.meta@) == meta_map(prior.meta@).insert(key, value)
    &&& later == (Store { meta: later.meta, ..prior })
}

pub open spec fn mark_reviewed_turn(prior: Store, later: Store, world: World, t: Turn) -> bool {
    &&& t.answer matches Ok(Answer::Reviewed(at)) && at == world.now
    &&& t.events@.len() == 0
    &&& one_setting(prior, later, "last_review_at"@, integer_of(world.now as int))
}

pub fn mark_reviewed_op(store: &mut Store, world: &World) -> (out: Turn)
    ensures
        mark_reviewed_turn(*old(store), *final(store), *world, out),
{
    mark_reviewed(store, world.now);
    quiet(Answer::Reviewed(world.now))
}

/// The mode of a client that does not say.
pub open spec fn mode_or(mode: Option<Seq<char>>) -> Seq<char> {
    match mode {
        Some(m) => m,
        None => "headless"@,
    }
}

pub open spec fn touch_client_turn(
    prior: Store,
    later: Store,
    cfg: Config,
    world: World,
    name: Seq<char>,
    mode: Option<Seq<char>>,
    t: Turn,
) -> bool {
    let seen = touched(client_models(prior.clients@), name, mode_or(mode), world.now);
    &&& t.answer matches Ok(Answer::Done)
    &&& client_models(later.clients@) == seen
    &&& later == (Store { clients: later.clients, ..prior })
    &&& event_models(t.events@) == seq![
        client_notice(active_of(seen, clamped(world.now - cfg.client_active_window_ms))),
    ]
}

pub fn touch_client_op(
    store: &mut Store,
    cfg: &Config,
    world: &World,
    name: String,
    mode: Option<String>,
) -> (out: Turn)
    ensures
        touch_client_turn(
            *old(store),
            *final(store),
            *cfg,
            *world,
            name@,
            opt_view(mode),
            out,
        ),
{
    let ghost said = opt_view(mode);
    let mode = match mode {
        Some(m) => m,
        None => "headless".to_owned(),
    };
    assert(mode@ == mode_or(said));
    store.touch_client_at(name.as_str(), mode.as_str(), world.now);
    let clients = store.active_clients_at(cfg.client_active_window_ms, world.now);
    let event = clients_changed(&clients);
    let out = telling(Ok(Answer::Done), event);
    assert(event_models(out.events@) =~= seq![event@]);
    out
}

/// The setting that a scrap of interface state is kept in. The prefix keeps
/// this from becoming a general store.
pub open spec fn ui_key(key: Seq<char>) -> Seq<char> {
    "ui."@ + key
}

fn ui_name(key: &str) -> (out: String)
    ensures
        out@ == ui_key(key@),
{
    let mut name = "ui.".to_owned();
    name.append(key);
    name
}

pub open spec fn ui_state_set_turn(
    prior: Store,
    later: Store,
    key: Seq<char>,
    value: Option<Seq<char>>,
    t: Turn,
) -> bool {
    &&& t.answer matches Ok(Answer::Done)
    &&& t.events@.len() == 0
    &&& one_setting(
        prior,
        later,
        ui_key(key),
        match value {
            Some(v) => v,
            None => Seq::empty(),
        },
    )
}

pub fn ui_state_set_op(store: &mut Store, key: String, value: Option<String>) -> (out: Turn)
    ensures
        ui_state_set_turn(*old(store), *final(store), key@, opt_view(value), out),
{
    let name = ui_name(key.as_str());
    let ghost said = opt_view(value);
    let value = match value {
        Some(v) => v,
        None => String::new(),
    };
    assert(value@ == (match said {
        Some(v) => v,
        None => Seq::empty(),
    }));
    store.set_meta(name.as_str(), value.as_str());
    quiet(Answer::Done)
}

pub open spec fn ui_state_get_turn(store: Store, key: Seq<char>, t: Turn) -> bool {
    t.answer matches Ok(Answer::UiValue(v)) && opt_view(v) == setting(
        meta_map(store.meta@),
        ui_key(key),
    ) && t.events@.len() == 0
}

pub fn ui_state_get_op(store: &Store, key: String) -> (out: Turn)
    ensures
        ui_state_get_turn(*store, key@, out),
{
    let name = ui_name(key.as_str());
    quiet(Answer::UiValue(store.get_meta(name.as_str())))
}

/// A scrap of interface state is read back as it was kept.
pub proof fn law_ui_state_round_trip(
    prior: Store,
    later: Store,
    key: Seq<char>,
    value: Seq<char>,
    kept: Turn,
    read: Turn,
)
    requires
        ui_state_set_turn(prior, later, key, Some(value), kept),
        ui_state_get_turn(later, key, read),
    ensures
        read.answer matches Ok(Answer::UiValue(v)) && opt_view(v) == Some(value),
{
}

pub open spec fn config_turn(cfg: Config, t: Turn) -> bool {
    t.answer matches Ok(Answer::Settings(c)) && c == cfg && t.events@.len() == 0
}

pub fn config_op(cfg: &Config) -> (out: Turn)
    ensures
        config_turn(*cfg, out),
{
    quiet(
        Answer::Settings(
            Config {
                coalesce_ms: cfg.coalesce_ms,
                max_pending_proposals: cfg.max_pending_proposals,
                max_blob_bytes: cfg.max_blob_bytes,
                reply_rate_limit: cfg.reply_rate_limit,
                reply_rate_window_ms: cfg.reply_rate_window_ms,
                anchor_context_lines: cfg.anchor_context_lines,
                watch_debounce_ms: cfg.watch_debounce_ms,
                client_active_window_ms: cfg.client_active_window_ms,
                max_editor_bytes: cfg.max_editor_bytes,
            },
        ),
    )
}

pub open spec fn ping_turn(t: Turn) -> bool {
    t.answer matches Ok(Answer::Pong) && t.events@.len() == 0
}

pub fn ping_op() -> (out: Turn)
    ensures
        ping_turn(out),
{
    quiet(Answer::Pong)
}

// ---------------------------------------------------------------------------
// Instrumentation
// ---------------------------------------------------------------------------

pub open spec fn instrumentation_turn(store: Store, t: Turn) -> bool {
    t.answer matches Ok(Answer::Instrumentation((on, n))) && on == is_enabled(
        meta_map(store.meta@),
    ) && n == store.usage_events@.len() && t.events@.len() == 0
}

pub fn instrumentation_op(store: &Store) -> (out: Turn)
    ensures
        instrumentation_turn(*store, out),
{
    quiet(Answer::Instrumentation((enabled(store), count(store))))
}

pub open spec fn record_usage_turn(
    prior: Store,
    later: Store,
    session: Seq<char>,
    event: Seq<char>,
    t: Turn,
) -> bool {
    &&& t.events@.len() == 0
    &&& t.answer matches Ok(a) ==> a is UsageRecorded
    &&& usage_recorded(prior, later, session, event, usage_in(t))
}

pub fn record_usage_op(store: &mut Store, session: String, event: String) -> (out: Turn)
    ensures
        record_usage_turn(*old(store), *final(store), session@, event@, out),
{
    match record(store, session.as_str(), event.as_str()) {
        Ok(done) => quiet(Answer::UsageRecorded(done)),
        Err(e) => fail(e),
    }
}

pub open spec fn set_instrumentation_turn(
    prior: Store,
    later: Store,
    value: bool,
    t: Turn,
) -> bool {
    &&& instrumentation_turn(later, t)
    &&& is_enabled(meta_map(later.meta@)) == value
    &&& one_setting(
        prior,
        later,
        "instrumentation.enabled"@,
        if value {
            "true"@
        } else {
            "false"@
        },
    )
}

pub fn set_instrumentation_op(store: &mut Store, value: bool) -> (out: Turn)
    ensures
        set_instrumentation_turn(*old(store), *final(store), value, out),
{
    set_enabled(store, value);
    instrumentation_op(store)
}

pub open spec fn export_usage_turn(store: Store, t: Turn) -> bool {
    t.answer matches Ok(Answer::Usage(v)) && usage_models(v@) == sorted(
        usage_models(store.usage_events@),
        earlier(),
    ) && t.events@.len() == 0
}

pub fn export_usage_op(store: &Store) -> (out: Turn)
    ensures
        export_usage_turn(*store, out),
{
    quiet(Answer::Usage(list(store)))
}

pub open spec fn clear_usage_turn(prior: Store, later: Store, t: Turn) -> bool {
    &&& t.answer matches Ok(Answer::Cleared(n)) && n == prior.usage_events@.len()
    &&& t.events@.len() == 0
    &&& later.usage_events@.len() == 0
    &&& later == (Store { usage_events: later.usage_events, ..prior })
}

pub fn clear_usage_op(store: &mut Store) -> (out: Turn)
    ensures
        clear_usage_turn(*old(store), *final(store), out),
{
    quiet(Answer::Cleared(clear(store)))
}

} // verus!
