//! Who is connected, and how often they call.

use super::Store;
use crate::error::{Error, ErrorModel, Result};
use crate::order::{sorted, stable_sort};
use crate::text::{integer, integer_of, no_later, same_str, text_le};
use crate::util::{clamped, divide, minus, now_ms, quotient};
use vstd::prelude::*;

verus! {

/// A client that has been seen.
#[derive(Debug)]
pub struct Client {
    pub name: String,
    /// How it reaches the core: `bridged` or `headless`.
    pub mode: String,
    pub first_seen: i64,
    pub last_seen: i64,
}

/// What a client is.
#[verifier::ext_equal]
pub struct ClientModel {
    pub name: Seq<char>,
    pub mode: Seq<char>,
    pub first_seen: i64,
    pub last_seen: i64,
}

impl View for Client {
    type V = ClientModel;

    open spec fn view(&self) -> ClientModel {
        ClientModel {
            name: self.name@,
            mode: self.mode@,
            first_seen: self.first_seen,
            last_seen: self.last_seen,
        }
    }
}

pub open spec fn client_models(c: Seq<Client>) -> Seq<ClientModel> {
    Seq::new(c.len(), |i: int| c[i]@)
}

/// Where a client stands in the list; the list's length if it does not.
pub open spec fn client_at(c: Seq<ClientModel>, name: Seq<char>) -> int
    decreases c.len(),
{
    if c.len() == 0 {
        0
    } else if c[0].name == name {
        0
    } else {
        1 + client_at(c.skip(1), name)
    }
}

/// The clients after one has been seen.
pub open spec fn touched(
    c: Seq<ClientModel>,
    name: Seq<char>,
    mode: Seq<char>,
    now: i64,
) -> Seq<ClientModel> {
    let at = client_at(c, name);
    if at < c.len() {
        c.update(
            at,
            ClientModel {
                name: c[at].name,
                mode: mode,
                first_seen: c[at].first_seen,
                last_seen: now,
            },
        )
    } else {
        c.push(ClientModel { name: name, mode: mode, first_seen: now, last_seen: now })
    }
}

/// The clients that have been seen since `cutoff`.
pub open spec fn seen_since(c: Seq<ClientModel>, cutoff: int) -> Seq<ClientModel>
    decreases c.len(),
{
    if c.len() == 0 {
        Seq::empty()
    } else if c.last().last_seen >= cutoff {
        seen_since(c.drop_last(), cutoff).push(c.last())
    } else {
        seen_since(c.drop_last(), cutoff)
    }
}

/// By name.
pub open spec fn by_name() -> spec_fn(ClientModel, ClientModel) -> bool {
    |a: ClientModel, b: ClientModel| text_le(a.name, b.name)
}

/// The clients that have been seen since `cutoff`, by name.
pub open spec fn active_of(c: Seq<ClientModel>, cutoff: int) -> Seq<ClientModel> {
    sorted(seen_since(c, cutoff), by_name())
}

/// A call that counts towards a limit.
#[derive(Debug)]
pub struct RateEvent {
    pub client: String,
    pub kind: String,
    pub at: i64,
}

/// What such a call is.
#[verifier::ext_equal]
pub struct RateModel {
    pub client: Seq<char>,
    pub kind: Seq<char>,
    pub at: i64,
}

impl View for RateEvent {
    type V = RateModel;

    open spec fn view(&self) -> RateModel {
        RateModel { client: self.client@, kind: self.kind@, at: self.at }
    }
}

pub open spec fn rate_models(e: Seq<RateEvent>) -> Seq<RateModel> {
    Seq::new(e.len(), |i: int| e[i]@)
}

/// The calls that are not older than `from`.
pub open spec fn calls_from(e: Seq<RateModel>, from: int) -> Seq<RateModel>
    decreases e.len(),
{
    if e.len() == 0 {
        Seq::empty()
    } else if e.last().at >= from {
        calls_from(e.drop_last(), from).push(e.last())
    } else {
        calls_from(e.drop_last(), from)
    }
}

/// How many calls of a kind a client has made since `cutoff`.
pub open spec fn calls_of(e: Seq<RateModel>, client: Seq<char>, kind: Seq<char>, cutoff: int) -> nat
    decreases e.len(),
{
    if e.len() == 0 {
        0
    } else if e.last().client == client && e.last().kind == kind && e.last().at >= cutoff {
        calls_of(e.drop_last(), client, kind, cutoff) + 1
    } else {
        calls_of(e.drop_last(), client, kind, cutoff)
    }
}

/// What a client is told that has reached a limit.
pub open spec fn limit_message(
    client: Seq<char>,
    kind: Seq<char>,
    count: int,
    limit: int,
    window: int,
) -> Seq<char> {
    client + " has made "@ + integer_of(count) + " "@ + kind + " calls in the last "@ + integer_of(
        quotient(window, 60_000),
    ) + " minutes (limit "@ + integer_of(limit) + ")"@
}

/// The calls that are kept after one more, and what the caller is told if that
/// is one too many.
pub open spec fn rate_outcome(
    e: Seq<RateModel>,
    client: Seq<char>,
    kind: Seq<char>,
    limit: i64,
    window: i64,
    now: i64,
) -> (Seq<RateModel>, Option<ErrorModel>) {
    let cutoff = clamped(now - window);
    let kept = calls_from(e, clamped(cutoff - window));
    let count = calls_of(kept, client, kind, cutoff);
    if count >= limit {
        (
            kept,
            Some(
                ErrorModel::RateLimited(
                    limit_message(client, kind, count as int, limit as int, window as int),
                ),
            ),
        )
    } else {
        (kept.push(RateModel { client: client, kind: kind, at: now }), None)
    }
}

/// Once `limit` calls fall into the window, the next one is refused, and what
/// is refused does not count.
pub proof fn law_limit_trips(
    e: Seq<RateModel>,
    client: Seq<char>,
    kind: Seq<char>,
    limit: i64,
    window: i64,
    now: i64,
)
    requires
        0 <= window,
        i64::MIN <= now - 2 * window,
    ensures
        rate_outcome(e, client, kind, limit, window, now).1 is Some <==> calls_of(
            e,
            client,
            kind,
            now - window,
        ) >= limit,
        ({
            let after = rate_outcome(e, client, kind, limit, window, now);
            calls_of(after.0, client, kind, now - window) == calls_of(e, client, kind, now - window)
                + (if after.1 is Some {
                0int
            } else {
                1int
            })
        }),
{
    lemma_kept_calls(e, client, kind, now - window, now - 2 * window);
    let kept = calls_from(e, now - 2 * window);
    let one = RateModel { client: client, kind: kind, at: now };
    assert(kept.push(one).drop_last() =~= kept);
}

proof fn lemma_kept_calls(
    e: Seq<RateModel>,
    client: Seq<char>,
    kind: Seq<char>,
    cutoff: int,
    from: int,
)
    requires
        from <= cutoff,
    ensures
        calls_of(calls_from(e, from), client, kind, cutoff) == calls_of(e, client, kind, cutoff),
    decreases e.len(),
{
    if e.len() > 0 {
        lemma_kept_calls(e.drop_last(), client, kind, cutoff, from);
        let d = calls_from(e.drop_last(), from);
        assert(d.push(e.last()).drop_last() =~= d);
    }
}

fn name_no_later(a: &Client, b: &Client) -> (out: bool)
    ensures
        out == text_le(a@.name, b@.name),
{
    no_later(&a.name, &b.name)
}

fn copy_client(c: &Client) -> (out: Client)
    ensures
        out@ == c@,
{
    Client {
        name: c.name.clone(),
        mode: c.mode.clone(),
        first_seen: c.first_seen,
        last_seen: c.last_seen,
    }
}

impl Store {
    /// Records that a client was seen at `now`.
    pub fn touch_client_at(&mut self, name: &str, mode: &str, now: i64)
        ensures
            client_models(final(self).clients@) == touched(
                client_models(old(self).clients@),
                name@,
                mode@,
                now,
            ),
            *final(self) == (Store { clients: final(self).clients, ..*old(self) }),
    {
        let ghost all = client_models(self.clients@);
        let mut i: usize = 0;
        assert(all.skip(0) =~= all);
        while i < self.clients.len() && !same_str(self.clients[i].name.as_str(), name)
            invariant
                i <= self.clients@.len(),
                *self == *old(self),
                all == client_models(self.clients@),
                client_at(all, name@) == i + client_at(all.skip(i as int), name@),
            decreases self.clients@.len() - i,
        {
            assert(all.skip(i as int).skip(1) =~= all.skip(i + 1));
            i += 1;
        }
        if i < self.clients.len() {
            assert(all.skip(i as int)[0] == all[i as int]);
            let seen = Client {
                name: self.clients[i].name.clone(),
                mode: mode.to_owned(),
                first_seen: self.clients[i].first_seen,
                last_seen: now,
            };
            self.clients.set(i, seen);
            assert(client_models(self.clients@) =~= touched(all, name@, mode@, now));
        } else {
            self.clients.push(
                Client {
                    name: name.to_owned(),
                    mode: mode.to_owned(),
                    first_seen: now,
                    last_seen: now,
                },
            );
            assert(client_models(self.clients@) =~= touched(all, name@, mode@, now));
        }
    }

    /// Records a connected client so that readers can be told who is driving.
    pub fn touch_client(&mut self, name: &str, mode: &str)
        ensures
            exists|now: i64|
                client_models(final(self).clients@) == touched(
                    client_models(old(self).clients@),
                    name@,
                    mode@,
                    now,
                ),
            *final(self) == (Store { clients: final(self).clients, ..*old(self) }),
    {
        let now = now_ms();
        self.touch_client_at(name, mode, now);
    }

    /// Clients seen at most `window_ms` before `now`, by name. Anything older
    /// is assumed gone; stdio servers exit without saying goodbye.
    pub fn active_clients_at(&self, window_ms: i64, now: i64) -> (out: Vec<Client>)
        ensures
            client_models(out@) == active_of(
                client_models(self.clients@),
                clamped(now - window_ms),
            ),
    {
        let cutoff = minus(now, window_ms);
        let ghost all = client_models(self.clients@);
        let mut seen: Vec<Client> = Vec::new();
        let mut i: usize = 0;
        assert(client_models(seen@) =~= seen_since(all.take(0), cutoff as int));
        while i < self.clients.len()
            invariant
                i <= self.clients@.len(),
                all == client_models(self.clients@),
                client_models(seen@) == seen_since(all.take(i as int), cutoff as int),
            decreases self.clients@.len() - i,
        {
            assert(all.take(i + 1).drop_last() =~= all.take(i as int));
            if self.clients[i].last_seen >= cutoff {
                let c = copy_client(&self.clients[i]);
                let ghost before = seen@;
                seen.push(c);
                assert(client_models(seen@) =~= client_models(before).push(c@));
            }
            i += 1;
        }
        assert(all.take(i as int) =~= all);
        let ghost unsorted = seen@;
        let ghost rel = |a: Client, b: Client| text_le(a@.name, b@.name);
        let out = stable_sort(seen, name_no_later, Ghost(rel));
        proof {
            let f = |c: Client| c@;
            crate::order::lemma_sorted_map(unsorted, f, rel, by_name());
            assert(client_models(unsorted) =~= unsorted.map_values(f));
            assert(client_models(out@) =~= out@.map_values(f));
        }
        out
    }

    /// Clients seen within `window_ms` of the present time.
    pub fn active_clients(&self, window_ms: i64) -> (out: Vec<Client>)
        ensures
            exists|now: i64|
                client_models(out@) == #[trigger] active_of(
                    client_models(self.clients@),
                    clamped(now - window_ms),
                ),
    {
        let now = now_ms();
        self.active_clients_at(window_ms, now)
    }

    /// Sliding-window rate limit, as of `now`. Returns an error rather than
    /// silently dropping, so a looping agent learns it is looping.
    pub fn check_rate_limit_at(
        &mut self,
        client: &str,
        kind: &str,
        limit: i64,
        window_ms: i64,
        now: i64,
    ) -> (out: Result<()>)
        ensures
            ({
                let after = rate_outcome(
                    rate_models(old(self).rate_events@),
                    client@,
                    kind@,
                    limit,
                    window_ms,
                    now,
                );
                &&& rate_models(final(self).rate_events@) == after.0
                &&& match out {
                    Ok(_) => after.1 is None,
                    Err(e) => after.1 == Some(e@),
                }
            }),
            *final(self) == (Store { rate_events: final(self).rate_events, ..*old(self) }),
    {
        let cutoff = minus(now, window_ms);
        let oldest = minus(cutoff, window_ms);
        let ghost all = rate_models(self.rate_events@);
        let mut kept: Vec<RateEvent> = Vec::new();
        let mut count: u64 = 0;
        let mut i: usize = 0;
        let ghost none = Seq::<RateModel>::empty();
        assert(all.take(0) =~= none);
        assert(rate_models(kept@) =~= none);
        while i < self.rate_events.len()
            invariant
                i <= self.rate_events@.len(),
                *self == *old(self),
                all == rate_models(self.rate_events@),
                rate_models(kept@) == calls_from(all.take(i as int), oldest as int),
                count == calls_of(rate_models(kept@), client@, kind@, cutoff as int),
                count <= kept@.len(),
                kept@.len() <= i,
            decreases self.rate_events@.len() - i,
        {
            assert(all.take(i + 1).drop_last() =~= all.take(i as int));
            let ghost before = rate_models(kept@);
            let e = &self.rate_events[i];
            if e.at >= oldest {
                let copied = RateEvent {
                    client: e.client.clone(),
                    kind: e.kind.clone(),
                    at: e.at,
                };
                if same_str(e.client.as_str(), client) && same_str(e.kind.as_str(), kind) && e.at
                    >= cutoff {
                    count += 1;
                }
                kept.push(copied);
                assert(rate_models(kept@) =~= before.push(copied@));
                assert(rate_models(kept@).drop_last() =~= before);
            }
            i += 1;
        }
        assert(all.take(i as int) =~= all);
        if limit <= 0 || count >= limit as u64 {
            self.rate_events = kept;
            let mut m = client.to_owned();
            m.append(" has made ");
            m.append(crate::text::decimal(count).as_str());
            m.append(" ");
            m.append(kind);
            m.append(" calls in the last ");
            m.append(integer(divide(window_ms, 60_000)).as_str());
            m.append(" minutes (limit ");
            m.append(integer(limit).as_str());
            m.append(")");
            return Err(Error::RateLimited(m));
        }
        let ghost before = rate_models(kept@);
        kept.push(RateEvent { client: client.to_owned(), kind: kind.to_owned(), at: now });
        assert(rate_models(kept@) =~= before.push(
            RateModel { client: client@, kind: kind@, at: now },
        ));
        self.rate_events = kept;
        Ok(())
    }

    /// Sliding-window rate limit, as of the present time.
    pub fn check_rate_limit(&mut self, client: &str, kind: &str, limit: i64, window_ms: i64) -> (out:
        Result<()>)
        ensures
            exists|now: i64|
                ({
                    let after = #[trigger] rate_outcome(
                        rate_models(old(self).rate_events@),
                        client@,
                        kind@,
                        limit,
                        window_ms,
                        now,
                    );
                    &&& rate_models(final(self).rate_events@) == after.0
                    &&& match out {
                        Ok(_) => after.1 is None,
                        Err(e) => after.1 == Some(e@),
                    }
                }),
            *final(self) == (Store { rate_events: final(self).rate_events, ..*old(self) }),
    {
        let now = now_ms();
        self.check_rate_limit_at(client, kind, limit, window_ms, now)
    }
}

proof fn lemma_calls_of(
    e: Seq<RateModel>,
    client: Seq<char>,
    kind: Seq<char>,
    cutoff: int,
    counts: spec_fn(RateModel) -> bool,
)
    requires
        forall|c: RateModel| #[trigger]
            counts(c) == (c.client == client && c.kind == kind && c.at >= cutoff),
    ensures
        calls_of(e, client, kind, cutoff) == e.filter(counts).len(),
    decreases e.len(),
{
    reveal(Seq::filter);
    if e.len() > 0 {
        lemma_calls_of(e.drop_last(), client, kind, cutoff, counts);
    }
}

/// A limit counts the calls of one client, of one kind, in the window that ends
/// now, and no others: it trips exactly when there are as many of them as it
/// allows.
pub proof fn law_limit_counts_one_client(
    e: Seq<RateModel>,
    client: Seq<char>,
    kind: Seq<char>,
    limit: i64,
    window: i64,
    now: i64,
)
    requires
        0 <= window,
        i64::MIN <= now - 2 * window,
    ensures
        rate_outcome(e, client, kind, limit, window, now).1 is Some <==> e.filter(
            |c: RateModel| c.client == client && c.kind == kind && c.at >= now - window,
        ).len() >= limit,
{
    law_limit_trips(e, client, kind, limit, window, now);
    let counts = |c: RateModel| c.client == client && c.kind == kind && c.at >= now - window;
    lemma_calls_of(e, client, kind, now - window, counts);
}

proof fn lemma_seen_since(c: Seq<ClientModel>, cutoff: int, seen: spec_fn(ClientModel) -> bool)
    requires
        forall|x: ClientModel| #[trigger] seen(x) == (x.last_seen >= cutoff),
    ensures
        seen_since(c, cutoff) == c.filter(seen),
    decreases c.len(),
{
    reveal(Seq::filter);
    if c.len() > 0 {
        lemma_seen_since(c.drop_last(), cutoff, seen);
    }
}

/// The active clients are those that were seen no longer ago than the cutoff,
/// by name. A client that shows itself is one of them from then on, once.
pub proof fn law_active_clients(c: Seq<ClientModel>, cutoff: int)
    ensures
        active_of(c, cutoff).to_multiset() == c.filter(
            |x: ClientModel| x.last_seen >= cutoff,
        ).to_multiset(),
        forall|i: int, j: int|
            0 <= i < j < active_of(c, cutoff).len() ==> text_le(
                (#[trigger] active_of(c, cutoff)[i]).name,
                (#[trigger] active_of(c, cutoff)[j]).name,
            ),
{
    let seen = |x: ClientModel| x.last_seen >= cutoff;
    lemma_seen_since(c, cutoff, seen);
    let found = seen_since(c, cutoff);
    let le = by_name();
    assert forall|a: ClientModel, b: ClientModel| #[trigger] le(a, b) || le(b, a) by {
        crate::text::law_text_order(a.name, b.name);
    }
    assert forall|a: ClientModel, b: ClientModel, d: ClientModel| #[trigger]
        le(a, b) && #[trigger] le(b, d) implies le(a, d) by {
        crate::text::lemma_text_le_transitive(a.name, b.name, d.name);
    }
    crate::order::lemma_sorted_multiset(found, le);
    crate::order::lemma_sorted_in_order(found, le);
    let out = active_of(c, cutoff);
    assert forall|i: int, j: int| 0 <= i < j < out.len() implies text_le(
        (#[trigger] out[i]).name,
        (#[trigger] out[j]).name,
    ) by {
        assert(le(out[i], out[j]));
    }
}

} // verus!
