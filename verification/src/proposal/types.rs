//! What a proposal is.

use crate::text::{chars_of, copy_opt, lower_of, lowercase, opt_view, same_str, string_of, trim, trim_of};
use vstd::prelude::*;

verus! {

/// Where a proposal stands.
#[derive(Debug, Clone, Copy, PartialEq, Eq, Structural)]
pub enum Status {
    Pending,
    Accepted,
    Rejected,
    /// Replaced by a newer draft.
    Superseded,
    /// Pending, but the file moved under it. Derived, never stored: a
    /// conflict that resolves itself when the file moves back should stop
    /// being a conflict.
    Conflict,
}

pub open spec fn status_name(s: Status) -> Seq<char> {
    match s {
        Status::Pending => "pending"@,
        Status::Accepted => "accepted"@,
        Status::Rejected => "rejected"@,
        Status::Superseded => "superseded"@,
        Status::Conflict => "conflict"@,
    }
}

/// The status that a word names, apart from case and outer white space.
pub open spec fn status_named(s: Seq<char>) -> Option<Status> {
    let word = lower_of(trim_of(s));
    if word == "pending"@ {
        Some(Status::Pending)
    } else if word == "accepted"@ {
        Some(Status::Accepted)
    } else if word == "rejected"@ {
        Some(Status::Rejected)
    } else if word == "superseded"@ {
        Some(Status::Superseded)
    } else if word == "conflict"@ {
        Some(Status::Conflict)
    } else {
        None
    }
}

/// Is a proposal still waiting for a decision?
pub open spec fn open_status(s: Status) -> bool {
    s == Status::Pending || s == Status::Conflict
}

impl Status {
    pub fn as_str(self) -> (out: &'static str)
        ensures
            out@ == status_name(self),
    {
        match self {
            Status::Pending => "pending",
            Status::Accepted => "accepted",
            Status::Rejected => "rejected",
            Status::Superseded => "superseded",
            Status::Conflict => "conflict",
        }
    }

    pub fn parse(s: &str) -> (out: Option<Status>)
        ensures
            out == status_named(s@),
    {
        let chars = chars_of(s);
        let trimmed = string_of(trim(&chars));
        let word = lowercase(trimmed.as_str());
        if same_str(word.as_str(), "pending") {
            Some(Status::Pending)
        } else if same_str(word.as_str(), "accepted") {
            Some(Status::Accepted)
        } else if same_str(word.as_str(), "rejected") {
            Some(Status::Rejected)
        } else if same_str(word.as_str(), "superseded") {
            Some(Status::Superseded)
        } else if same_str(word.as_str(), "conflict") {
            Some(Status::Conflict)
        } else {
            None
        }
    }

    pub fn is_open(self) -> (out: bool)
        ensures
            out == open_status(self),
    {
        self == Status::Pending || self == Status::Conflict
    }
}

/// How much a proposal would change.
#[derive(Debug, Clone, Copy, PartialEq, Eq, Structural)]
pub struct Stats {
    pub added: usize,
    pub removed: usize,
    pub hunks: usize,
}

/// An agent's edit, waiting for or past judgement.
#[derive(Debug)]
pub struct Proposal {
    pub id: String,
    pub root_id: String,
    /// Canonical key of the document.
    pub path: String,
    /// The path as shown.
    pub display: String,
    pub base_snapshot_id: Option<String>,
    pub base_blob_hash: Option<String>,
    pub proposed_blob_hash: String,
    pub author: String,
    pub client: String,
    pub message: Option<String>,
    /// The comment that this proposal answers, if any.
    pub addressing: Option<String>,
    /// Derived: `conflict` when pending and the file moved under it.
    pub status: Status,
    /// What the store actually holds.
    pub stored_status: Status,
    pub created_at: i64,
    pub created_at_iso: String,
    pub decided_at: Option<i64>,
    pub decided_at_iso: Option<String>,
    /// The feedback channel to agents: why a change was turned down.
    pub decision_note: Option<String>,
    pub result_snapshot_id: Option<String>,
    pub stats: Option<Stats>,
    /// True when the document no longer exists on disk.
    pub target_missing: bool,
}

/// What a proposal holds.
#[verifier::ext_equal]
pub struct ProposalModel {
    pub id: Seq<char>,
    pub root_id: Seq<char>,
    pub path: Seq<char>,
    pub display: Seq<char>,
    pub base_snapshot_id: Option<Seq<char>>,
    pub base_blob_hash: Option<Seq<char>>,
    pub proposed_blob_hash: Seq<char>,
    pub author: Seq<char>,
    pub client: Seq<char>,
    pub message: Option<Seq<char>>,
    pub addressing: Option<Seq<char>>,
    pub status: Status,
    pub stored_status: Status,
    pub created_at: i64,
    pub created_at_iso: Seq<char>,
    pub decided_at: Option<i64>,
    pub decided_at_iso: Option<Seq<char>>,
    pub decision_note: Option<Seq<char>>,
    pub result_snapshot_id: Option<Seq<char>>,
    pub stats: Option<Stats>,
    pub target_missing: bool,
}

impl View for Proposal {
    type V = ProposalModel;

    open spec fn view(&self) -> ProposalModel {
        ProposalModel {
            id: self.id@,
            root_id: self.root_id@,
            path: self.path@,
            display: self.display@,
            base_snapshot_id: opt_view(self.base_snapshot_id),
            base_blob_hash: opt_view(self.base_blob_hash),
            proposed_blob_hash: self.proposed_blob_hash@,
            author: self.author@,
            client: self.client@,
            message: opt_view(self.message),
            addressing: opt_view(self.addressing),
            status: self.status,
            stored_status: self.stored_status,
            created_at: self.created_at,
            created_at_iso: self.created_at_iso@,
            decided_at: self.decided_at,
            decided_at_iso: opt_view(self.decided_at_iso),
            decision_note: opt_view(self.decision_note),
            result_snapshot_id: opt_view(self.result_snapshot_id),
            stats: self.stats,
            target_missing: self.target_missing,
        }
    }
}

impl Proposal {
    /// A copy of a proposal.
    pub fn copy(&self) -> (out: Proposal)
        ensures
            out@ == self@,
    {
        Proposal {
            id: self.id.clone(),
            root_id: self.root_id.clone(),
            path: self.path.clone(),
            display: self.display.clone(),
            base_snapshot_id: copy_opt(&self.base_snapshot_id),
            base_blob_hash: copy_opt(&self.base_blob_hash),
            proposed_blob_hash: self.proposed_blob_hash.clone(),
            author: self.author.clone(),
            client: self.client.clone(),
            message: copy_opt(&self.message),
            addressing: copy_opt(&self.addressing),
            status: self.status,
            stored_status: self.stored_status,
            created_at: self.created_at,
            created_at_iso: self.created_at_iso.clone(),
            decided_at: self.decided_at,
            decided_at_iso: copy_opt(&self.decided_at_iso),
            decision_note: copy_opt(&self.decision_note),
            result_snapshot_id: copy_opt(&self.result_snapshot_id),
            stats: self.stats,
            target_missing: self.target_missing,
        }
    }
}

pub open spec fn proposal_models(p: Seq<Proposal>) -> Seq<ProposalModel> {
    Seq::new(p.len(), |i: int| p[i]@)
}

} // verus!
