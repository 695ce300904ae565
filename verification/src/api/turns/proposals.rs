//! Proposals.

use crate::api::notices::{
    after_decision, decision_notices, event_models, proposal_decided, EventModel,
};
use crate::api::params::opt_counts;
use crate::api::turn::{
    decided_in, fail, proposal_in, quiet, refused, shown_in, telling, Answer, Turn, World,
};
use crate::api::views::{addressed_thread, opt_comment, proposal_diff, proposal_shown};
use crate::comment::threads::limited;
use crate::comment::Comment;
use crate::config::Config;
use crate::corpus::roots::{places_in, resolve, resolved_in};
use crate::corpus::sandbox::found_models;
use crate::disk::{appended, Disk};
use crate::order::sorted;
use crate::proposal::decide::{
    accept, opt_numbers, proposal_accepted, proposal_rebased, proposal_rejected, rebase, reject,
};
use crate::proposal::read::{
    get, list, newer_first, no_proposal, proposal_got, proposal_ids, selected, ListFilter,
};
use crate::proposal::types::proposal_models;
use crate::store::Store;
use crate::table::{listed, place_of};
use crate::text::{lend, opt_view};
use vstd::prelude::*;

verus! {

pub open spec fn list_proposals_turn(
    store: Store,
    disk: Disk,
    filter: ListFilter,
    t: Turn,
) -> bool {
    t.answer matches Ok(Answer::Proposals(v)) && proposal_models(v@) == limited(
        sorted(
            selected(
                proposal_models(store.proposals@),
                store.blobs@,
                disk@,
                filter,
                store.host.drives,
            ),
            newer_first(),
        ),
        filter.limit,
    ) && t.events@.len() == 0
}

pub fn list_proposals_op(store: &Store, disk: &Disk, filter: ListFilter) -> (out: Turn)
    ensures
        list_proposals_turn(*store, *disk, filter, out),
{
    quiet(Answer::Proposals(list(store, disk, &filter)))
}

pub open spec fn get_proposal_turn(store: Store, disk: Disk, id: Seq<char>, t: Turn) -> bool {
    &&& t.events@.len() == 0
    &&& t.answer matches Ok(a) ==> a is OneProposal
    &&& proposal_got(store, disk, id, proposal_in(t))
}

pub fn get_proposal_op(store: &Store, disk: &Disk, id: String) -> (out: Turn)
    ensures
        get_proposal_turn(*store, *disk, id@, out),
{
    match get(store, disk, id.as_str()) {
        Ok(p) => quiet(Answer::OneProposal(p)),
        Err(e) => fail(e),
    }
}

pub open spec fn proposal_diff_turn(store: Store, disk: Disk, id: Seq<char>, t: Turn) -> bool {
    &&& t.events@.len() == 0
    &&& t.answer matches Ok(a) ==> a is Review
    &&& proposal_shown(store, disk, id, shown_in(t))
}

pub fn proposal_diff_op(store: &Store, disk: &Disk, id: String) -> (out: Turn)
    ensures
        proposal_diff_turn(*store, *disk, id@, out),
{
    match proposal_diff(store, disk, id.as_str()) {
        Ok(r) => quiet(Answer::Review(r)),
        Err(e) => fail(e),
    }
}

/// The document that a proposal is for.
pub open spec fn proposal_target(store: Store, id: Seq<char>) -> Option<Seq<char>> {
    let all = proposal_models(store.proposals@);
    if listed(proposal_ids(all), id) {
        Some(all[place_of(proposal_ids(all), id)].path)
    } else {
        None
    }
}

/// What the frontend is told of a decision, once it has been taken.
pub open spec fn decision_news(later: Store, disk: Disk, t: Turn) -> bool {
    event_models(t.events@) == (match decided_in(t) {
        Ok(d) => decision_notices(
            d,
            addressed_thread(later, disk@, opt_view(d.resolved_comment)),
        ),
        Err(_) => seq![],
    })
}

pub open spec fn accept_proposal_turn(
    prior: Store,
    later: Store,
    old_disk: Disk,
    new_disk: Disk,
    cfg: Config,
    world: World,
    id: Seq<char>,
    hunks: Option<Seq<usize>>,
    t: Turn,
) -> bool {
    match proposal_target(prior, id) {
        None => refused(t, no_proposal(id)) && later == prior && new_disk == old_disk,
        Some(path) => match resolved_in(prior, path, found_models(world.found@)) {
            Err(why) => refused(t, why) && later == prior && new_disk == old_disk,
            Ok(at) => {
                &&& t.answer matches Ok(a) ==> a is Decided
                &&& proposal_accepted(
                    prior,
                    later,
                    old_disk,
                    new_disk,
                    cfg,
                    at,
                    id,
                    hunks,
                    decided_in(t),
                )
                &&& decision_news(later, new_disk, t)
            },
        },
    }
}

pub fn accept_proposal_op(
    store: &mut Store,
    disk: &mut Disk,
    cfg: &Config,
    world: &World,
    id: String,
    hunks: Option<Vec<usize>>,
) -> (out: Turn)
    requires
        proposal_target(*old(store), id@) matches Some(path) ==> world.found@.len() == places_in(
            *old(store),
            path,
        ).len(),
    ensures
        appended(*old(disk), *final(disk)),
        accept_proposal_turn(
            *old(store),
            *final(store),
            *old(disk),
            *final(disk),
            *cfg,
            *world,
            id@,
            opt_counts(hunks),
            out,
        ),
{
    let target = match get(store, disk, id.as_str()) {
        Ok(p) => p,
        Err(e) => {
            return fail(e);
        },
    };
    assert(proposal_target(*store, id@) == Some(target.path@));
    let at = match resolve(store, target.path.as_str(), &world.found) {
        Ok(at) => at,
        Err(e) => {
            return fail(e);
        },
    };
    let picked: Option<&[usize]> = match &hunks {
        Some(h) => Some(h.as_slice()),
        None => None,
    };
    assert(opt_numbers(picked) == opt_counts(hunks));
    match accept(store, disk, cfg, &at, id.as_str(), picked) {
        Ok(d) => {
            let thread = thread_of(store, disk, &d.resolved_comment);
            let events = after_decision(&d, thread);
            let out = Turn { answer: Ok(Answer::Decided(d)), events: events };
            assert(decided_in(out) == Ok::<_, crate::error::Error>(d));
            out
        },
        Err(e) => {
            let out = fail(e);
            assert(event_models(out.events@) =~= seq![]);
            out
        },
    }
}

/// The thread with an identifier, where there is one.
fn thread_of(store: &Store, disk: &Disk, id: &Option<String>) -> (out: Option<Comment>)
    ensures
        opt_comment(out) == addressed_thread(*store, disk@, opt_view(*id)),
{
    match id {
        Some(c) => match crate::comment::threads::get(store, disk, c.as_str()) {
            Ok(thread) => Some(thread),
            Err(_) => None,
        },
        None => None,
    }
}

pub open spec fn reject_proposal_turn(
    prior: Store,
    later: Store,
    disk: Disk,
    id: Seq<char>,
    note: Option<Seq<char>>,
    t: Turn,
) -> bool {
    &&& t.answer matches Ok(a) ==> a is Decided
    &&& proposal_rejected(prior, later, disk, id, note, decided_in(t))
    &&& event_models(t.events@) == (match decided_in(t) {
        Ok(d) => seq![EventModel::ProposalDecided(d.proposal@)],
        Err(_) => seq![],
    })
}

pub fn reject_proposal_op(store: &mut Store, disk: &Disk, id: String, note: Option<String>) -> (
    out: Turn)
    ensures
        reject_proposal_turn(*old(store), *final(store), *disk, id@, opt_view(note), out),
{
    match reject(store, disk, id.as_str(), lend(&note)) {
        Ok(d) => {
            let event = proposal_decided(&d.proposal);
            let out = telling(Ok(Answer::Decided(d)), event);
            assert(event_models(out.events@) =~= seq![EventModel::ProposalDecided(d.proposal@)]);
            out
        },
        Err(e) => {
            let out = fail(e);
            assert(event_models(out.events@) =~= seq![]);
            out
        },
    }
}

pub open spec fn rebase_proposal_turn(
    prior: Store,
    later: Store,
    disk: Disk,
    id: Seq<char>,
    t: Turn,
) -> bool {
    &&& t.answer matches Ok(a) ==> a is OneProposal
    &&& proposal_rebased(prior, later, disk, id, proposal_in(t))
    &&& event_models(t.events@) == (match proposal_in(t) {
        Ok(p) => seq![EventModel::ProposalDecided(p@)],
        Err(_) => seq![],
    })
}

pub fn rebase_proposal_op(store: &mut Store, disk: &Disk, id: String) -> (out: Turn)
    ensures
        rebase_proposal_turn(*old(store), *final(store), *disk, id@, out),
{
    match rebase(store, disk, id.as_str()) {
        Ok(p) => {
            let event = proposal_decided(&p);
            let out = telling(Ok(Answer::OneProposal(p)), event);
            assert(event_models(out.events@) =~= seq![EventModel::ProposalDecided(p@)]);
            out
        },
        Err(e) => {
            let out = fail(e);
            assert(event_models(out.events@) =~= seq![]);
            out
        },
    }
}

} // verus!
