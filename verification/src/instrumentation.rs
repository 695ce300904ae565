//! Opt-in, local-only product instrumentation.
//!
//! Events intentionally carry no properties. Stable event names and a random
//! per-launch session id are enough to reveal which paths through the product
//! are common without collecting document paths, content, or user input.

use crate::error::{Error, ErrorModel, Result};
use crate::order::{sorted, stable_sort};
use crate::store::{meta_map, setting, Store};
use crate::text::{bytes_in, byte_len, chars_of, decimal, decimal_of, same_str};
use crate::util::now_ms;
use vstd::prelude::*;

verus! {

/// Something that was done, without what it was done to.
#[derive(Debug)]
pub struct UsageEvent {
    pub session: String,
    pub event: String,
    pub app_version: String,
    pub at: i64,
}

/// What an event is.
#[verifier::ext_equal]
pub struct UsageModel {
    pub session: Seq<char>,
    pub event: Seq<char>,
    pub app_version: Seq<char>,
    pub at: i64,
}

impl View for UsageEvent {
    type V = UsageModel;

    open spec fn view(&self) -> UsageModel {
        UsageModel {
            session: self.session@,
            event: self.event@,
            app_version: self.app_version@,
            at: self.at,
        }
    }
}

pub open spec fn usage_models(e: Seq<UsageEvent>) -> Seq<UsageModel> {
    Seq::new(e.len(), |i: int| e[i]@)
}

/// Has the user opted in?
pub open spec fn is_enabled(meta: Map<Seq<char>, Seq<char>>) -> bool {
    setting(meta, "instrumentation.enabled"@) == Some("true"@)
}

/// Has the user opted in?
pub fn enabled(store: &Store) -> (out: bool)
    ensures
        out == is_enabled(meta_map(store.meta@)),
{
    match store.get_meta("instrumentation.enabled") {
        Some(v) => same_str(v.as_str(), "true"),
        None => false,
    }
}

/// Opts in or out.
pub fn set_enabled(store: &mut Store, value: bool)
    ensures
        is_enabled(meta_map(final(store).meta@)) == value,
        meta_map(final(store).meta@) == meta_map(old(store).meta@).insert(
            "instrumentation.enabled"@,
            if value {
                "true"@
            } else {
                "false"@
            },
        ),
        *final(store) == (Store { meta: final(store).meta, ..*old(store) }),
{
    if value {
        store.set_meta("instrumentation.enabled", "true");
    } else {
        store.set_meta("instrumentation.enabled", "false");
    }
    proof {
        reveal_strlit("true");
        reveal_strlit("false");
        assert("true"@.len() != "false"@.len());
    }
}

/// A character that a name may hold.
pub open spec fn token_char(c: char) -> bool {
    'a' <= c <= 'z' || 'A' <= c <= 'Z' || '0' <= c <= '9' || c == '.' || c == '_' || c == '-'
}

/// Is a text a name that cannot carry context?
pub open spec fn is_token(value: Seq<char>, max: nat) -> bool {
    &&& value.len() > 0
    &&& byte_len(value) <= max
    &&& forall|i: int| 0 <= i < value.len() ==> token_char(#[trigger] value[i])
}

/// What a caller is told of a name that could carry context.
pub open spec fn bad_token(label: Seq<char>, max: nat) -> ErrorModel {
    ErrorModel::Invalid(
        "`"@ + label + "` must be 1-"@ + decimal_of(max)
            + " letters, numbers, dots, dashes, or underscores"@,
    )
}

fn validate_token(label: &str, value: &str, max_len: usize) -> (out: Result<()>)
    ensures
        match out {
            Ok(_) => is_token(value@, max_len as nat),
            Err(e) => !is_token(value@, max_len as nat) && e@ == bad_token(
                label@,
                max_len as nat,
            ),
        },
{
    let chars = chars_of(value);
    let mut valid = chars.len() > 0 && bytes_in(value) <= max_len;
    let mut i: usize = 0;
    while i < chars.len()
        invariant
            i <= chars@.len(),
            chars@ == value@,
            valid == (value@.len() > 0 && byte_len(value@) <= max_len && forall|k: int|
                0 <= k < i ==> token_char(#[trigger] value@[k])),
        decreases chars@.len() - i,
    {
        let c: char = chars[i];
        if !(('a' <= c && c <= 'z') || ('A' <= c && c <= 'Z') || ('0' <= c && c <= '9') || c == '.'
            || c == '_' || c == '-') {
            assert(!token_char(value@[i as int]));
            valid = false;
        }
        i += 1;
    }
    if valid {
        return Ok(());
    }
    let mut m = "`".to_owned();
    m.append(label);
    m.append("` must be 1-");
    m.append(decimal(max_len as u64).as_str());
    m.append(" letters, numbers, dots, dashes, or underscores");
    Err(Error::Invalid(m))
}

/// Records an event as of a moment, if the user has opted in.
pub fn record_at(store: &mut Store, session: &str, event: &str, now: i64) -> (out: Result<bool>)
    ensures
        ({
            let was = usage_models(old(store).usage_events@);
            let is = usage_models(final(store).usage_events@);
            if !is_enabled(meta_map(old(store).meta@)) {
                out == Ok::<bool, Error>(false) && is == was
            } else if !is_token(session@, 64) {
                is == was && (out matches Err(e) && e@ == bad_token("session"@, 64))
            } else if !is_token(event@, 80) {
                is == was && (out matches Err(e) && e@ == bad_token("event"@, 80))
            } else {
                out == Ok::<bool, Error>(true) && is == was.push(
                    UsageModel {
                        session: session@,
                        event: event@,
                        app_version: crate::VERSION@,
                        at: now,
                    },
                )
            }
        }),
        *final(store) == (Store { usage_events: final(store).usage_events, ..*old(store) }),
{
    if !enabled(store) {
        return Ok(false);
    }
    if let Err(e) = validate_token("session", session, 64) {
        return Err(e);
    }
    if let Err(e) = validate_token("event", event, 80) {
        return Err(e);
    }
    let ghost was = usage_models(store.usage_events@);
    let added = UsageEvent {
        session: session.to_owned(),
        event: event.to_owned(),
        app_version: crate::VERSION.to_owned(),
        at: now,
    };
    store.usage_events.push(added);
    assert(usage_models(store.usage_events@) =~= was.push(added@));
    Ok(true)
}

/// Is this how a usage event is recorded?
pub open spec fn usage_recorded(
    prior: Store,
    later: Store,
    session: Seq<char>,
    event: Seq<char>,
    out: Result<bool>,
) -> bool {
    &&& ({
        let was = usage_models(prior.usage_events@);
        let is = usage_models(later.usage_events@);
        if !is_enabled(meta_map(prior.meta@)) {
            out == Ok::<bool, Error>(false) && is == was
        } else if !is_token(session, 64) {
            is == was && (out matches Err(e) && e@ == bad_token("session"@, 64))
        } else if !is_token(event, 80) {
            is == was && (out matches Err(e) && e@ == bad_token("event"@, 80))
        } else {
            out == Ok::<bool, Error>(true) && is.len() == was.len() + 1 && is == was.push(
                UsageModel {
                    session: session,
                    event: event,
                    app_version: crate::VERSION@,
                    at: is.last().at,
                },
            )
        }
    })
    &&& later == (Store { usage_events: later.usage_events, ..prior })
}

/// Records an event now, if the user has opted in.
pub fn record(store: &mut Store, session: &str, event: &str) -> (out: Result<bool>)
    ensures
        usage_recorded(
            *old(store),
            *final(store),
            session@,
            event@,
            out,
        ),
{
    let now = now_ms();
    record_at(store, session, event, now)
}

/// Earlier events first.
pub open spec fn earlier() -> spec_fn(UsageModel, UsageModel) -> bool {
    |a: UsageModel, b: UsageModel| a.at <= b.at
}

fn no_later_event(a: &UsageEvent, b: &UsageEvent) -> (out: bool)
    ensures
        out == (a.at <= b.at),
{
    a.at <= b.at
}

/// The recorded events, earliest first.
pub fn list(store: &Store) -> (out: Vec<UsageEvent>)
    ensures
        usage_models(out@) == sorted(usage_models(store.usage_events@), earlier()),
{
    let ghost all = usage_models(store.usage_events@);
    let mut copied: Vec<UsageEvent> = Vec::new();
    let mut i: usize = 0;
    while i < store.usage_events.len()
        invariant
            i <= store.usage_events@.len(),
            all == usage_models(store.usage_events@),
            usage_models(copied@) == all.take(i as int),
        decreases store.usage_events@.len() - i,
    {
        let e = &store.usage_events[i];
        let c = UsageEvent {
            session: e.session.clone(),
            event: e.event.clone(),
            app_version: e.app_version.clone(),
            at: e.at,
        };
        let ghost before = usage_models(copied@);
        copied.push(c);
        assert(usage_models(copied@) =~= before.push(c@));
        assert(all.take(i + 1) =~= all.take(i as int).push(all[i as int]));
        i += 1;
    }
    assert(all.take(i as int) =~= all);
    let ghost unsorted = copied@;
    let ghost rel = |a: UsageEvent, b: UsageEvent| a.at <= b.at;
    let out = stable_sort(copied, no_later_event, Ghost(rel));
    proof {
        let f = |e: UsageEvent| e@;
        crate::order::lemma_sorted_map(unsorted, f, rel, earlier());
        assert(usage_models(unsorted) =~= unsorted.map_values(f));
        assert(usage_models(out@) =~= out@.map_values(f));
    }
    out
}

/// How many events are recorded.
pub fn count(store: &Store) -> (out: usize)
    ensures
        out == store.usage_events@.len(),
{
    store.usage_events.len()
}

/// Forgets all events, and says how many there were.
pub fn clear(store: &mut Store) -> (out: usize)
    ensures
        out == old(store).usage_events@.len(),
        final(store).usage_events@.len() == 0,
        *final(store) == (Store { usage_events: final(store).usage_events, ..*old(store) }),
{
    let n: usize = store.usage_events.len();
    store.usage_events = Vec::new();
    n
}

} // verus!
