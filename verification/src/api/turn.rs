//! One operation: what it is asked with, and what comes of it.

use super::docs::DocSummary;
use super::edit::DocView;
use super::index::WalkedFile;
use super::tasks::{StatusWrite, TaskWrite};
use super::today::{StatusView, Today};
use super::views::{ProposalReview, RenderedPrompt, RootView, VersionDiff};
use crate::artifact::skill::SkillTree;
use crate::artifact::task::Task;
use crate::artifact::Validation;
use crate::comment::{Comment, Reply};
use crate::config::Config;
use crate::corpus::roots::Place;
use crate::corpus::sandbox::Found;
use crate::corpus::{PathPolicy, Root};
use crate::error::{Error, ErrorModel, Result};
use crate::event::Event;
use crate::instrumentation::UsageEvent;
use crate::proposal::{Decision, Proposal, WriteOutcome};
use crate::search::{Match, SearchFile};
use crate::version::record::RecordOutcome;
use crate::version::Snapshot;
use vstd::prelude::*;

verus! {

/// What an operation has to know of the world beyond the store and the files.
#[derive(Debug)]
pub struct World {
    /// What is at each place that has to be looked up for the document.
    pub found: Vec<Found>,
    /// What is at the path of a root that is to be added.
    pub place: Option<Place>,
    /// What a walk came across, for each root that is to be indexed.
    pub walks: Vec<Vec<WalkedFile>>,
    /// The files that are to be searched.
    pub files: Vec<SearchFile>,
    /// The canonical key of a reference to a root, taken as a path.
    pub root_key: String,
    /// What stands around each document that is to be validated.
    pub trees: Vec<SkillTree>,
    /// The directories beside each document that is to be validated.
    pub siblings: Vec<Vec<String>>,
    /// Bytes that the index takes on disk.
    pub index_bytes: u64,
    /// How many roots are watched.
    pub watching: usize,
    /// What the clock says.
    pub now: i64,
}

/// The history of a document as a series of patches.
#[derive(Debug)]
pub struct HistoryView {
    pub path: String,
    pub display: String,
    pub series: String,
}

/// Reports on several documents.
#[derive(Debug)]
pub struct ReportsView {
    pub reports: Vec<Validation>,
    pub errors: usize,
    pub warnings: usize,
}

/// What an operation answers.
#[derive(Debug)]
pub enum Answer {
    Roots(Vec<RootView>),
    RootAdded((Root, usize)),
    RootSet(Root),
    PolicySet(PathPolicy),
    Policies(Vec<PathPolicy>),
    Indexed(usize),
    Docs(Vec<DocSummary>),
    Doc(DocView),
    Created(RecordOutcome),
    Saved(RecordOutcome),
    Matches(Vec<Match>),
    Versions(Vec<Snapshot>),
    Version((Snapshot, String)),
    Compared(VersionDiff),
    Recorded(RecordOutcome),
    History(HistoryView),
    Written(WriteOutcome),
    Tasks(Vec<Task>),
    TaskAdded((TaskWrite, usize)),
    TaskTicked(StatusWrite),
    Report(Validation),
    Reports(ReportsView),
    Rendered(RenderedPrompt),
    Proposals(Vec<Proposal>),
    OneProposal(Proposal),
    Review(ProposalReview),
    Decided(Decision),
    Threads(Vec<Comment>),
    Thread(Comment),
    Replied(Reply),
    Today(Today),
    Status(StatusView),
    Reviewed(i64),
    UiValue(Option<String>),
    Settings(Config),
    Pong,
    Done,
    Instrumentation((bool, usize)),
    UsageRecorded(bool),
    Usage(Vec<UsageEvent>),
    Cleared(usize),
}

/// What comes of an operation: an answer, and what the frontend is told.
#[derive(Debug)]
pub struct Turn {
    pub answer: Result<Answer>,
    pub events: Vec<Event>,
}

/// Was the operation turned down, with nothing told?
pub open spec fn refused(t: Turn, why: ErrorModel) -> bool {
    t.answer matches Err(e) && e@ == why && t.events@.len() == 0
}

pub(crate) fn fail(e: Error) -> (out: Turn)
    ensures
        refused(out, e@),
        out.answer == Err::<Answer, Error>(e),
        out.events@.len() == 0,
{
    Turn { answer: Err(e), events: Vec::new() }
}

pub(crate) fn quiet(answer: Answer) -> (out: Turn)
    ensures
        out.answer == Ok::<Answer, Error>(answer),
        out.events@.len() == 0,
{
    Turn { answer: Ok(answer), events: Vec::new() }
}

pub(crate) fn telling(answer: Result<Answer>, event: Event) -> (out: Turn)
    ensures
        out.answer == answer,
        out.events@ == seq![event],
{
    let mut events: Vec<Event> = Vec::new();
    events.push(event);
    assert(events@ =~= seq![event]);
    Turn { answer: answer, events: events }
}

/// The outcome that an answer stands for.
pub open spec fn root_set_in(t: Turn) -> Result<Root> {
    match t.answer {
        Ok(Answer::RootSet(x)) => Ok(x),
        Ok(_) => arbitrary(),
        Err(e) => Err(e),
    }
}

/// The outcome that an answer stands for.
pub open spec fn policy_set_in(t: Turn) -> Result<PathPolicy> {
    match t.answer {
        Ok(Answer::PolicySet(x)) => Ok(x),
        Ok(_) => arbitrary(),
        Err(e) => Err(e),
    }
}

/// The outcome that an answer stands for.
pub open spec fn indexed_in(t: Turn) -> Result<usize> {
    match t.answer {
        Ok(Answer::Indexed(x)) => Ok(x),
        Ok(_) => arbitrary(),
        Err(e) => Err(e),
    }
}

/// The outcome that an answer stands for.
pub open spec fn doc_in(t: Turn) -> Result<DocView> {
    match t.answer {
        Ok(Answer::Doc(x)) => Ok(x),
        Ok(_) => arbitrary(),
        Err(e) => Err(e),
    }
}

/// The outcome that an answer stands for.
pub open spec fn created_in(t: Turn) -> Result<RecordOutcome> {
    match t.answer {
        Ok(Answer::Created(x)) => Ok(x),
        Ok(_) => arbitrary(),
        Err(e) => Err(e),
    }
}

/// The outcome that an answer stands for.
pub open spec fn saved_in(t: Turn) -> Result<RecordOutcome> {
    match t.answer {
        Ok(Answer::Saved(x)) => Ok(x),
        Ok(_) => arbitrary(),
        Err(e) => Err(e),
    }
}

/// The outcome that an answer stands for.
pub open spec fn matches_in(t: Turn) -> Result<Vec<Match>> {
    match t.answer {
        Ok(Answer::Matches(x)) => Ok(x),
        Ok(_) => arbitrary(),
        Err(e) => Err(e),
    }
}

/// The outcome that an answer stands for.
pub open spec fn version_in(t: Turn) -> Result<(Snapshot, String)> {
    match t.answer {
        Ok(Answer::Version(x)) => Ok(x),
        Ok(_) => arbitrary(),
        Err(e) => Err(e),
    }
}

/// The outcome that an answer stands for.
pub open spec fn compared_in(t: Turn) -> Result<VersionDiff> {
    match t.answer {
        Ok(Answer::Compared(x)) => Ok(x),
        Ok(_) => arbitrary(),
        Err(e) => Err(e),
    }
}

/// The outcome that an answer stands for.
pub open spec fn recorded_in(t: Turn) -> Result<RecordOutcome> {
    match t.answer {
        Ok(Answer::Recorded(x)) => Ok(x),
        Ok(_) => arbitrary(),
        Err(e) => Err(e),
    }
}

/// The outcome that an answer stands for.
pub open spec fn written_in(t: Turn) -> Result<WriteOutcome> {
    match t.answer {
        Ok(Answer::Written(x)) => Ok(x),
        Ok(_) => arbitrary(),
        Err(e) => Err(e),
    }
}

/// The outcome that an answer stands for.
pub open spec fn task_added_in(t: Turn) -> Result<(TaskWrite, usize)> {
    match t.answer {
        Ok(Answer::TaskAdded(x)) => Ok(x),
        Ok(_) => arbitrary(),
        Err(e) => Err(e),
    }
}

/// The outcome that an answer stands for.
pub open spec fn task_ticked_in(t: Turn) -> Result<StatusWrite> {
    match t.answer {
        Ok(Answer::TaskTicked(x)) => Ok(x),
        Ok(_) => arbitrary(),
        Err(e) => Err(e),
    }
}

/// The outcome that an answer stands for.
pub open spec fn rendered_in(t: Turn) -> Result<RenderedPrompt> {
    match t.answer {
        Ok(Answer::Rendered(x)) => Ok(x),
        Ok(_) => arbitrary(),
        Err(e) => Err(e),
    }
}

/// The outcome that an answer stands for.
pub open spec fn proposal_in(t: Turn) -> Result<Proposal> {
    match t.answer {
        Ok(Answer::OneProposal(x)) => Ok(x),
        Ok(_) => arbitrary(),
        Err(e) => Err(e),
    }
}

/// The outcome that an answer stands for.
pub open spec fn shown_in(t: Turn) -> Result<ProposalReview> {
    match t.answer {
        Ok(Answer::Review(x)) => Ok(x),
        Ok(_) => arbitrary(),
        Err(e) => Err(e),
    }
}

/// The outcome that an answer stands for.
pub open spec fn decided_in(t: Turn) -> Result<Decision> {
    match t.answer {
        Ok(Answer::Decided(x)) => Ok(x),
        Ok(_) => arbitrary(),
        Err(e) => Err(e),
    }
}

/// The outcome that an answer stands for.
pub open spec fn thread_in(t: Turn) -> Result<Comment> {
    match t.answer {
        Ok(Answer::Thread(x)) => Ok(x),
        Ok(_) => arbitrary(),
        Err(e) => Err(e),
    }
}

/// The outcome that an answer stands for.
pub open spec fn replied_in(t: Turn) -> Result<Reply> {
    match t.answer {
        Ok(Answer::Replied(x)) => Ok(x),
        Ok(_) => arbitrary(),
        Err(e) => Err(e),
    }
}

/// The outcome that an answer stands for.
pub open spec fn usage_in(t: Turn) -> Result<bool> {
    match t.answer {
        Ok(Answer::UsageRecorded(x)) => Ok(x),
        Ok(_) => arbitrary(),
        Err(e) => Err(e),
    }
}

} // verus!
