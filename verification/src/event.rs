//! The core's event bus.
//!
//! Events, not polling: a proposal arriving from an agent reaches the frontend
//! within a heartbeat of the tool call rather than on the next poll tick.

use crate::comment::Comment;
use crate::proposal::Proposal;
use crate::version::Snapshot;
use vstd::prelude::*;

verus! {

/// Something that happened.
#[derive(Debug)]
pub enum Event {
    /// A new version of a document was recorded, from any of the triggers.
    SnapshotCreated { snapshot: Box<Snapshot> },
    /// An agent queued a change for review.
    ProposalArrived { proposal: Box<Proposal> },
    /// A proposal was accepted, rejected, or rebased.
    ProposalDecided { proposal: Box<Proposal> },
    /// A thread was created, replied to, or resolved.
    CommentActivity { kind: CommentActivityKind, comment: Box<Comment> },
    /// The file watcher's health, for the status-bar dot.
    WatcherStatus { watching: usize, healthy: bool, message: Option<String> },
    /// The set of connected clients changed.
    ClientsChanged { clients: Vec<ClientInfo> },
    /// A document disappeared from disk.
    DocRemoved { path: String, display: String },
    /// Roots were added or removed; the sidebar should reload.
    CorpusChanged,
}

/// What happened to a thread.
#[derive(Debug, Clone, Copy, PartialEq, Eq, Structural)]
pub enum CommentActivityKind {
    Created,
    Replied,
    Resolved,
    Reopened,
    Deleted,
}

/// A client that is connected.
#[derive(Debug)]
pub struct ClientInfo {
    pub name: String,
    pub mode: String,
    pub last_seen: i64,
}

/// A fan-out point with no ordering guarantees beyond "in registration order".
/// Listeners must not block.
pub struct Bus<F: Fn(&Event)> {
    pub listeners: Vec<F>,
}

impl<F: Fn(&Event)> Bus<F> {
    /// A bus that nobody listens to yet.
    pub fn new() -> (out: Bus<F>)
        ensures
            out.listeners@.len() == 0,
    {
        Bus { listeners: Vec::new() }
    }

    /// Adds a listener behind the others.
    pub fn subscribe(&mut self, listener: F)
        ensures
            final(self).listeners@ == old(self).listeners@.push(listener),
    {
        self.listeners.push(listener);
    }

    /// Hands an event to every listener, in the order of registration.
    pub fn emit(&self, event: Event)
        requires
            forall|i: int|
                0 <= i < self.listeners@.len() ==> call_requires(
                    #[trigger] self.listeners@[i],
                    (&event,),
                ),
        ensures
            forall|i: int|
                0 <= i < self.listeners@.len() ==> call_ensures(
                    #[trigger] self.listeners@[i],
                    (&event,),
                    (),
                ),
    {
        let mut i: usize = 0;
        while i < self.listeners.len()
            invariant
                i <= self.listeners@.len(),
                forall|k: int|
                    0 <= k < self.listeners@.len() ==> call_requires(
                        #[trigger] self.listeners@[k],
                        (&event,),
                    ),
                forall|k: int|
                    0 <= k < i ==> call_ensures(
                        #[trigger] self.listeners@[k],
                        (&event,),
                        (),
                    ),
            decreases self.listeners@.len() - i,
        {
            let listener = &self.listeners[i];
            listener(&event);
            i += 1;
        }
    }
}

} // verus!
