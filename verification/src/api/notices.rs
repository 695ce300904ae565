//! What the frontend is told after an operation.

use super::tasks::{StatusWrite, TaskWrite};
use super::views::opt_comment;
use crate::comment::{Comment, CommentModel};
use crate::event::{ClientInfo, CommentActivityKind, Event};
use crate::proposal::{Decision, Proposal, ProposalModel, WriteOutcome};
use crate::store::clients::{client_models, Client, ClientModel};
use crate::text::opt_view;
use crate::version::record::RecordOutcome;
use crate::version::{Snapshot, SnapshotModel};
use vstd::prelude::*;

verus! {

/// What an event says.
pub enum EventModel {
    SnapshotCreated(SnapshotModel),
    ProposalArrived(ProposalModel),
    ProposalDecided(ProposalModel),
    CommentActivity(CommentActivityKind, CommentModel),
    WatcherStatus(usize, bool, Option<Seq<char>>),
    ClientsChanged(Seq<(Seq<char>, Seq<char>, i64)>),
    DocRemoved(Seq<char>, Seq<char>),
    CorpusChanged,
}

pub open spec fn client_facts(clients: Seq<ClientInfo>) -> Seq<(Seq<char>, Seq<char>, i64)> {
    Seq::new(clients.len(), |i: int| (clients[i].name@, clients[i].mode@, clients[i].last_seen))
}

impl View for Event {
    type V = EventModel;

    open spec fn view(&self) -> EventModel {
        match self {
            Event::SnapshotCreated { snapshot } => EventModel::SnapshotCreated(snapshot@),
            Event::ProposalArrived { proposal } => EventModel::ProposalArrived(proposal@),
            Event::ProposalDecided { proposal } => EventModel::ProposalDecided(proposal@),
            Event::CommentActivity { kind, comment } => EventModel::CommentActivity(
                *kind,
                comment@,
            ),
            Event::WatcherStatus { watching, healthy, message } => EventModel::WatcherStatus(
                *watching,
                *healthy,
                opt_view(*message),
            ),
            Event::ClientsChanged { clients } => EventModel::ClientsChanged(
                client_facts(clients@),
            ),
            Event::DocRemoved { path, display } => EventModel::DocRemoved(path@, display@),
            Event::CorpusChanged => EventModel::CorpusChanged,
        }
    }
}

pub open spec fn event_models(events: Seq<Event>) -> Seq<EventModel> {
    Seq::new(events.len(), |i: int| events[i]@)
}

/// A version that was recorded.
pub fn version_recorded(snapshot: &Snapshot) -> (out: Event)
    ensures
        out@ == EventModel::SnapshotCreated(snapshot@),
{
    Event::SnapshotCreated { snapshot: Box::new(snapshot.copy()) }
}

/// After saving: only a new version is news.
pub fn after_save(outcome: &RecordOutcome) -> (out: Vec<Event>)
    ensures
        event_models(out@) == (if outcome.created {
            seq![EventModel::SnapshotCreated(outcome.snapshot@)]
        } else {
            seq![]
        }),
{
    let mut out: Vec<Event> = Vec::new();
    if outcome.created {
        out.push(version_recorded(&outcome.snapshot));
        assert(event_models(out@) =~= seq![EventModel::SnapshotCreated(outcome.snapshot@)]);
    }
    assert(!outcome.created ==> event_models(out@) =~= seq![]);
    out
}

/// What is said of a routed write.
pub open spec fn write_notice(w: WriteOutcome) -> EventModel {
    match w {
        WriteOutcome::Proposed { proposal } => EventModel::ProposalArrived(proposal@),
        WriteOutcome::Applied { snapshot } => EventModel::SnapshotCreated(snapshot@),
    }
}

/// After an agent's write: a proposal arrived, or a version was recorded.
pub fn after_write(w: &WriteOutcome) -> (out: Event)
    ensures
        out@ == write_notice(*w),
{
    match w {
        WriteOutcome::Proposed { proposal } => Event::ProposalArrived {
            proposal: Box::new(proposal.copy()),
        },
        WriteOutcome::Applied { snapshot } => version_recorded(snapshot),
    }
}

/// What is said of a write to a task list.
pub open spec fn task_notices(w: TaskWrite) -> Seq<EventModel> {
    match w {
        TaskWrite::Saved(o) => if o.created {
            seq![EventModel::SnapshotCreated(o.snapshot@)]
        } else {
            seq![]
        },
        TaskWrite::Routed(o) => seq![write_notice(o)],
    }
}

/// After a write to a task list.
pub fn after_task_write(w: &TaskWrite) -> (out: Vec<Event>)
    ensures
        event_models(out@) == task_notices(*w),
{
    match w {
        TaskWrite::Saved(o) => after_save(o),
        TaskWrite::Routed(o) => {
            let mut out: Vec<Event> = Vec::new();
            out.push(after_write(o));
            assert(event_models(out@) =~= seq![write_notice(*o)]);
            out
        },
    }
}

/// After ticking a task: nothing where it already was as asked.
pub fn after_tick(w: &StatusWrite) -> (out: Vec<Event>)
    ensures
        event_models(out@) == (match *w {
            StatusWrite::Unchanged { .. } => seq![],
            StatusWrite::Written(t) => task_notices(t),
        }),
{
    match w {
        StatusWrite::Unchanged { .. } => {
            let out: Vec<Event> = Vec::new();
            assert(event_models(out@) =~= seq![]);
            out
        },
        StatusWrite::Written(t) => after_task_write(t),
    }
}

/// What is said of a thread.
pub fn thread_activity(kind: CommentActivityKind, thread: &Comment) -> (out: Event)
    ensures
        out@ == EventModel::CommentActivity(kind, thread@),
{
    Event::CommentActivity { kind: kind, comment: Box::new(thread.copy()) }
}

/// What is said of a decided proposal.
pub fn proposal_decided(proposal: &Proposal) -> (out: Event)
    ensures
        out@ == EventModel::ProposalDecided(proposal@),
{
    Event::ProposalDecided { proposal: Box::new(proposal.copy()) }
}

/// What is said of a decision: the version that it made, the decision, and the
/// thread that it resolved, as far as there are such.
pub open spec fn decision_notices(d: Decision, thread: Option<CommentModel>) -> Seq<EventModel> {
    (match d.snapshot {
        Some(s) => seq![EventModel::SnapshotCreated(s@)],
        None => seq![],
    }) + seq![EventModel::ProposalDecided(d.proposal@)] + (match thread {
        Some(c) => seq![EventModel::CommentActivity(CommentActivityKind::Resolved, c)],
        None => seq![],
    })
}

/// After a decision. `thread` is the thread that it resolved, as it is now.
pub fn after_decision(d: &Decision, thread: Option<Comment>) -> (out: Vec<Event>)
    ensures
        event_models(out@) == decision_notices(*d, opt_comment(thread)),
{
    let mut out: Vec<Event> = Vec::new();
    let ghost want = decision_notices(*d, opt_comment(thread));
    if let Some(s) = &d.snapshot {
        out.push(version_recorded(s));
    }
    out.push(proposal_decided(&d.proposal));
    match thread {
        Some(c) => {
            out.push(thread_activity(CommentActivityKind::Resolved, &c));
        },
        None => {},
    }
    assert(event_models(out@) =~= want);
    out
}

/// What is said of the clients that are connected.
pub open spec fn client_notice(clients: Seq<ClientModel>) -> EventModel {
    EventModel::ClientsChanged(
        Seq::new(
            clients.len(),
            |i: int| (clients[i].name, clients[i].mode, clients[i].last_seen),
        ),
    )
}

/// After a client showed itself.
pub fn clients_changed(clients: &[Client]) -> (out: Event)
    ensures
        out@ == client_notice(client_models(clients@)),
{
    let ghost want = client_notice(client_models(clients@))->ClientsChanged_0;
    let mut infos: Vec<ClientInfo> = Vec::new();
    let mut i: usize = 0;
    assert(client_facts(infos@) =~= want.take(0));
    while i < clients.len()
        invariant
            i <= clients@.len(),
            want == client_notice(client_models(clients@))->ClientsChanged_0,
            client_facts(infos@) == want.take(i as int),
        decreases clients@.len() - i,
    {
        let ghost before = client_facts(infos@);
        infos.push(
            ClientInfo {
                name: clients[i].name.clone(),
                mode: clients[i].mode.clone(),
                last_seen: clients[i].last_seen,
            },
        );
        assert(client_models(clients@)[i as int] == clients@[i as int]@);
        assert(client_facts(infos@) =~= before.push(want[i as int]));
        assert(want.take(i + 1) =~= want.take(i as int).push(want[i as int]));
        i += 1;
    }
    assert(want.take(i as int) =~= want);
    Event::ClientsChanged { clients: infos }
}

} // verus!
