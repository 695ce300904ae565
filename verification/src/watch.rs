//! What the file watcher makes of what it sees.
//!
//! Every registered root is watched. A change anyone makes, in another editor,
//! through a shell, by a script, becomes a version within a second. Content-
//! hash deduplication means this is safe to run in the GUI and in a headless
//! bridge at the same time: two watchers seeing the same write cannot produce
//! two history entries.

use crate::api::index::{is_tracked, tracks};
use crate::api::today::unique;
use crate::comment::threads::dated;
use crate::config::Config;
use crate::corpus::types::{Resolved, ResolvedModel};
use crate::disk::{Disk, FileModel};
use crate::error::{message_of, Error, ErrorModel, Result};
use crate::event::Event;
use crate::store::Store;
use crate::text::{chars_of, contains, occurs, opt_view, push_text, sort_texts, sorted_texts, views};
use crate::util::{display_of, display_path};
use crate::version::record::{fresh_or_none, record_result, records_as};
use crate::version::restore::{record_from_disk, request_of};
use crate::version::types::{snapshot_models, Source};
use vstd::prelude::*;

verus! {

/// A path that a file-system event names.
#[derive(Debug)]
pub struct Seen {
    /// Its last component.
    pub name: String,
    pub is_dir: bool,
    /// Canonical key.
    pub key: String,
}

/// Is the name that of a file that is only written on the way to another one?
pub open spec fn temporary(name: Seq<char>) -> bool {
    occurs(name, ".folio-tmp-"@)
}

/// The keys of the files among the paths. Temporary files are not news.
pub open spec fn news_in(seen: Seq<Seen>) -> Seq<Seq<char>>
    decreases seen.len(),
{
    if seen.len() == 0 {
        Seq::empty()
    } else if temporary(seen.last().name@) || seen.last().is_dir {
        news_in(seen.drop_last())
    } else {
        news_in(seen.drop_last()).push(seen.last().key@)
    }
}

/// The files that some events touched, each once, in order.
pub fn touched(seen: &[Seen]) -> (out: Vec<String>)
    ensures
        views(out@) == unique(sorted_texts(news_in(seen@))),
{
    let ghost all = seen@;
    let mark = chars_of(".folio-tmp-");
    let mut keys: Vec<String> = Vec::new();
    let mut i: usize = 0;
    assert(views(keys@) =~= news_in(all.take(0)));
    while i < seen.len()
        invariant
            i <= seen@.len(),
            all == seen@,
            mark@ == ".folio-tmp-"@,
            views(keys@) == news_in(all.take(i as int)),
        decreases seen@.len() - i,
    {
        assert(all.take(i + 1).drop_last() =~= all.take(i as int));
        let name = chars_of(seen[i].name.as_str());
        if !contains(&name, &mark) && !seen[i].is_dir {
            push_text(&mut keys, seen[i].key.clone());
        }
        i += 1;
    }
    assert(all.take(i as int) =~= all);
    let ordered = sort_texts(keys);
    crate::api::today::distinct(&ordered)
}

/// Is this what a watcher does about a file of the corpus that is there? Only
/// a genuinely new version is news; one that is too large is passed over.
pub open spec fn noticed(
    was: Store,
    is: Store,
    cfg: Config,
    at: ResolvedModel,
    file: FileModel,
    watching: usize,
    id: std::result::Result<Seq<char>, ErrorModel>,
    now: i64,
    iso: Seq<char>,
    out: Option<Event>,
) -> bool {
    let want = record_result(
        snapshot_models(was.snapshots@),
        was.blobs@,
        was.host@,
        cfg,
        request_of(at, file.bytes, Source::External, None, None, None, file.mtime),
        id,
        now,
        iso,
    );
    &&& snapshot_models(is.snapshots@) == want.0
    &&& is.blobs@ == want.1
    &&& match want.2 {
        Ok((s, true)) => out matches Some(Event::SnapshotCreated { snapshot }) && snapshot@ == s,
        Ok((_, false)) => out is None,
        Err(ErrorModel::TooLarge(_)) => out is None,
        Err(why) => out matches Some(Event::WatcherStatus { watching: n, healthy, message })
            && n == watching && !healthy && opt_view(message) == Some(
            display_of(at.path, was.host@) + ": "@ + message_of(why),
        ),
    }
}

fn trouble(shown: String, e: &Error, watching: usize) -> (out: Event)
    ensures
        out matches Event::WatcherStatus { watching: n, healthy, message } && n == watching
            && !healthy && opt_view(message) == Some(shown@ + ": "@ + message_of(e@)),
{
    let mut m = shown;
    m.append(": ");
    m.append(e.message().as_str());
    Event::WatcherStatus { watching: watching, healthy: false, message: Some(m) }
}

/// What is done about a change: sandboxing applies to the watcher too, so that
/// of a path outside the corpus nothing is recorded; a directory keeps only
/// its markdown; and what is gone is reported.
pub fn handle_change(
    store: &mut Store,
    disk: &Disk,
    cfg: &Config,
    resolved: Result<Resolved>,
    watching: usize,
) -> (out: Option<Event>)
    ensures
        match resolved {
            Err(_) => out is None && *final(store) == *old(store),
            Ok(at) => if !tracks(at@.root.kind, at@.path) {
                out is None && *final(store) == *old(store)
            } else if !disk@.dom().contains(at@.path) {
                &&& out matches Some(Event::DocRemoved { path, display }) && path@ == at@.path
                    && display@ == display_of(at@.path, old(store).host@)
                &&& *final(store) == *old(store)
            } else {
                exists|id: std::result::Result<Seq<char>, ErrorModel>, now: i64, iso: Seq<char>|
                    fresh_or_none(snapshot_models(old(store).snapshots@), id) && dated(now, iso)
                        && #[trigger] noticed(
                        *old(store),
                        *final(store),
                        *cfg,
                        at@,
                        disk@[at@.path],
                        watching,
                        id,
                        now,
                        iso,
                        out,
                    )
            },
        },
        *final(store) == (Store {
            snapshots: final(store).snapshots,
            blobs: final(store).blobs,
            ..*old(store)
        }),
{
    let at = match resolved {
        Ok(at) => at,
        Err(_) => {
            return None;
        },
    };
    if !is_tracked(at.root.kind, at.path.as_str()) {
        return None;
    }
    if disk.find(at.path.as_str()).is_none() {
        let display = display_path(at.path.as_str(), &store.host);
        return Some(Event::DocRemoved { path: at.path, display: display });
    }
    let shown = display_path(at.path.as_str(), &store.host);
    let ghost was = *store;
    let outcome = record_from_disk(store, disk, cfg, &at, Source::External, None, None, None);
    let ghost kept = outcome;
    let out = match outcome {
        Ok(o) => {
            if o.created {
                Some(Event::SnapshotCreated { snapshot: Box::new(o.snapshot) })
            } else {
                None
            }
        },
        Err(Error::TooLarge(_)) => None,
        Err(e) => Some(trouble(shown, &e, watching)),
    };
    proof {
        let req = request_of(
            at@,
            disk@[at@.path].bytes,
            Source::External,
            None,
            None,
            None,
            disk@[at@.path].mtime,
        );
        let (id, now, iso): (std::result::Result<Seq<char>, ErrorModel>, i64, Seq<char>) =
            choose|id: std::result::Result<Seq<char>, ErrorModel>, now: i64, iso: Seq<char>|
            ({
                let want = #[trigger] record_result(
                    snapshot_models(was.snapshots@),
                    was.blobs@,
                    was.host@,
                    *cfg,
                    req,
                    id,
                    now,
                    iso,
                );
                &&& fresh_or_none(snapshot_models(was.snapshots@), id)
                &&& dated(now, iso)
                &&& snapshot_models(store.snapshots@) == want.0
                &&& store.blobs@ == want.1
                &&& records_as(kept, want.2)
            });
        assert(noticed(was, *store, *cfg, at@, disk@[at@.path], watching, id, now, iso, out));
    }
    out
}

proof fn lemma_news(seen: Seq<Seen>, key: Seq<char>)
    ensures
        news_in(seen).contains(key) <==> exists|i: int|
            0 <= i < seen.len() && (#[trigger] seen[i]).key@ == key && !seen[i].is_dir && !occurs(
                seen[i].name@,
                ".folio-tmp-"@,
            ),
    decreases seen.len(),
{
    if seen.len() > 0 {
        let d = seen.drop_last();
        lemma_news(d, key);
        let before = news_in(d);
        let out = news_in(seen);
        assert(seen[seen.len() - 1] == seen.last());
        if before.contains(key) {
            let k = choose|k: int| 0 <= k < before.len() && before[k] == key;
            assert(out[k] == key);
            let i = choose|i: int|
                0 <= i < d.len() && (#[trigger] d[i]).key@ == key && !d[i].is_dir && !occurs(
                    d[i].name@,
                    ".folio-tmp-"@,
                );
            assert(seen[i] == d[i]);
        }
        if out.contains(key) && !before.contains(key) {
            let k = choose|k: int| 0 <= k < out.len() && out[k] == key;
            if k < before.len() {
                assert(before[k] == key);
            }
        }
        if exists|i: int|
            0 <= i < seen.len() && (#[trigger] seen[i]).key@ == key && !seen[i].is_dir && !occurs(
                seen[i].name@,
                ".folio-tmp-"@,
            ) {
            let i = choose|i: int|
                0 <= i < seen.len() && (#[trigger] seen[i]).key@ == key && !seen[i].is_dir
                    && !occurs(seen[i].name@, ".folio-tmp-"@);
            if i < d.len() {
                assert(d[i] == seen[i]);
            } else {
                assert(out[before.len() as int] == key);
            }
        }
    }
}

/// Every file that an event touched is looked at, once, and nothing else:
/// neither directories nor the temporary files of writes that are under way.
pub proof fn law_touched_files_are_looked_at_once(seen: Seq<Seen>, key: Seq<char>)
    ensures
        ({
            let out = unique(sorted_texts(news_in(seen)));
            &&& out.contains(key) <==> exists|i: int|
                0 <= i < seen.len() && (#[trigger] seen[i]).key@ == key && !seen[i].is_dir
                    && !occurs(seen[i].name@, ".folio-tmp-"@)
            &&& out.no_duplicates()
        }),
{
    let news = news_in(seen);
    lemma_news(seen, key);
    crate::text::law_sorted_texts(news);
    crate::api::today::lemma_unique(sorted_texts(news));
    let out = unique(sorted_texts(news));
    news.to_multiset_ensures();
    sorted_texts(news).to_multiset_ensures();
    assert(news.contains(key) <==> news.to_multiset().count(key) > 0);
    assert(sorted_texts(news).contains(key) <==> sorted_texts(news).to_multiset().count(key) > 0);
    assert forall|i: int, j: int| 0 <= i < out.len() && 0 <= j < out.len() && i != j implies out[i]
        != out[j] by {
        if i < j {
            assert(crate::text::text_le(out[i], out[j]));
        } else {
            assert(crate::text::text_le(out[j], out[i]));
        }
    }
}

} // verus!
