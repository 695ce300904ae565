//! One operation after another, by request.

use super::params::opt_counts;
use super::request::{
    denied, opt_model, reserved, reserved_name, turned_away, Caller, Request,
};
use super::tasks::{tags_of, StatusWrite, TaskWrite};
use super::turn::{fail, refused, Answer, Turn, World};
use super::turns::proposals::proposal_target;
use super::turns::writing::validated_docs;
use super::turns::{corpus, history, house, proposals, threads, writing};
use super::views::to_validate;
use crate::config::Config;
use crate::corpus::roots::{lookups, places_in, resolve, resolved_in};
use crate::corpus::sandbox::found_models;
use crate::corpus::types::ResolvedModel;
use crate::disk::{appended, Disk};
use crate::error::ErrorModel;
use crate::proposal::types::proposal_models;
use crate::proposal::WriteOutcome;
use crate::store::Store;
use crate::text::{copy_opt, opt_view, views};
use vstd::prelude::*;

verus! {

// ---------------------------------------------------------------------------
// What has to be known first
// ---------------------------------------------------------------------------

/// The path that an operation has to find in the corpus.
pub open spec fn asked(store: Store, request: Request) -> Option<Seq<char>> {
    match request {
        Request::ReadDoc { path } => Some(path@),
        Request::CreateDoc { path, .. } => Some(path@),
        Request::SaveDoc { path, .. } => Some(path@),
        Request::ListVersions { path, .. } => Some(path@),
        Request::ReadVersion { path, .. } => Some(path@),
        Request::DiffVersions { path, .. } => Some(path@),
        Request::Checkpoint { path, .. } => Some(path@),
        Request::RestoreVersion { path, .. } => Some(path@),
        Request::ExportHistory { path } => Some(path@),
        Request::ProposeEdit { path, .. } => Some(path@),
        Request::TaskList { doc, .. } => opt_view(doc),
        Request::TaskAdd { doc, .. } => Some(doc@),
        Request::TaskSetStatus { doc, .. } => Some(doc@),
        Request::ValidateDoc { path } => Some(path@),
        Request::RenderPrompt { path, .. } => Some(path@),
        Request::AcceptProposal { id, .. } => proposal_target(store, id@),
        Request::ListComments { filter } => opt_view(filter.path),
        Request::CreateComment { path, .. } => Some(path@),
        _ => None,
    }
}

/// The path that an operation has to find in the corpus.
pub fn asked_path(store: &Store, disk: &Disk, request: &Request) -> (out: Option<String>)
    ensures
        opt_view(out) == asked(*store, *request),
{
    match request {
        Request::ReadDoc { path } => Some(path.clone()),
        Request::CreateDoc { path, .. } => Some(path.clone()),
        Request::SaveDoc { path, .. } => Some(path.clone()),
        Request::ListVersions { path, .. } => Some(path.clone()),
        Request::ReadVersion { path, .. } => Some(path.clone()),
        Request::DiffVersions { path, .. } => Some(path.clone()),
        Request::Checkpoint { path, .. } => Some(path.clone()),
        Request::RestoreVersion { path, .. } => Some(path.clone()),
        Request::ExportHistory { path } => Some(path.clone()),
        Request::ProposeEdit { path, .. } => Some(path.clone()),
        Request::TaskList { doc, .. } => copy_opt(doc),
        Request::TaskAdd { doc, .. } => Some(doc.clone()),
        Request::TaskSetStatus { doc, .. } => Some(doc.clone()),
        Request::ValidateDoc { path } => Some(path.clone()),
        Request::RenderPrompt { path, .. } => Some(path.clone()),
        Request::AcceptProposal { id, .. } => match crate::proposal::read::get(
            store,
            disk,
            id.as_str(),
        ) {
            Ok(p) => Some(p.path),
            Err(_) => None,
        },
        Request::ListComments { filter } => copy_opt(&filter.path),
        Request::CreateComment { path, .. } => Some(path.clone()),
        _ => None,
    }
}

/// Was as much found out beforehand as the operation needs?
pub open spec fn ready(
    store: Store,
    disk: Disk,
    cfg: Config,
    world: World,
    request: Request,
) -> bool {
    &&& asked(store, request) matches Some(path) ==> world.found@.len() == places_in(
        store,
        path,
    ).len()
    &&& match request {
        Request::AddRoot { .. } => world.walks@.len() > 0,
        Request::IndexRoot { .. } => world.walks@.len() > 0,
        Request::IndexAll => world.walks@.len() == store.roots@.len(),
        Request::ValidateDoc { .. } => world.trees@.len() > 0,
        Request::ValidateAll { ty } => world.trees@.len() == validated_docs(
            store,
            disk,
            cfg,
            ty,
        ).len() && world.siblings@.len() == world.trees@.len(),
        _ => true,
    }
}

/// Was as much found out beforehand as the operation needs?
pub fn is_ready(store: &Store, disk: &Disk, cfg: &Config, world: &World, request: &Request) -> (out:
    bool)
    ensures
        out == ready(*store, *disk, *cfg, *world, *request),
{
    match asked_path(store, disk, request) {
        Some(path) => {
            let places = lookups(store, path.as_str());
            assert(views(places@).len() == places@.len());
            if world.found.len() != places.len() {
                return false;
            }
        },
        None => {},
    }
    match request {
        Request::AddRoot { .. } => world.walks.len() > 0,
        Request::IndexRoot { .. } => world.walks.len() > 0,
        Request::IndexAll => world.walks.len() == store.roots.len(),
        Request::ValidateDoc { .. } => world.trees.len() > 0,
        Request::ValidateAll { ty } => {
            let docs = to_validate(store, disk, cfg, *ty);
            assert(crate::api::views::readable_models(docs@).len() == docs@.len());
            world.trees.len() == docs.len() && world.siblings.len() == world.trees.len()
        },
        _ => true,
    }
}

// ---------------------------------------------------------------------------
// What comes of it
// ---------------------------------------------------------------------------

/// What comes of an operation on roots and documents.
pub open spec fn corpus_turned(
    prior: Store,
    later: Store,
    old_disk: Disk,
    new_disk: Disk,
    cfg: Config,
    caller: Caller,
    world: World,
    request: Request,
    t: Turn,
) -> bool {
    match request {
        Request::ListRoots => {
            &&& corpus::list_roots_turn(prior, t)
            &&& later == prior
            &&& new_disk == old_disk
        },
        Request::AddRoot { path, policy, label } => {
            &&& corpus::add_root_turn(
                prior,
                later,
                old_disk,
                cfg,
                world,
                path@,
                policy,
                opt_view(label),
                t,
            )
            &&& new_disk == old_disk
        },
        Request::RemoveRoot { id } => {
            &&& corpus::remove_root_turn(prior, later, id@, t)
            &&& new_disk == old_disk
        },
        Request::SetRootPolicy { id, policy } => {
            &&& corpus::set_root_policy_turn(prior, later, id@, policy, t)
            &&& new_disk == old_disk
        },
        Request::SetPathPolicy { root_id, pattern, policy } => {
            &&& corpus::set_path_policy_turn(prior, later, root_id@, pattern@, policy, t)
            &&& new_disk == old_disk
        },
        Request::RemovePathPolicy { id } => {
            &&& corpus::remove_path_policy_turn(prior, later, id@, t)
            &&& new_disk == old_disk
        },
        Request::ListPathPolicies { root_id } => {
            &&& corpus::list_path_policies_turn(prior, root_id@, t)
            &&& later == prior
            &&& new_disk == old_disk
        },
        Request::IndexRoot { id } => {
            &&& corpus::index_root_turn(prior, later, old_disk, cfg, world, id@, t)
            &&& new_disk == old_disk
        },
        Request::IndexAll => {
            &&& corpus::index_all_turn(prior, later, old_disk, cfg, world, t)
            &&& new_disk == old_disk
        },
        Request::ListDocs { root, ty } => {
            &&& corpus::list_docs_turn(prior, old_disk, world, opt_view(root), ty, t)
            &&& later == prior
            &&& new_disk == old_disk
        },
        Request::ReadDoc { path } => {
            &&& corpus::read_doc_turn(prior, old_disk, cfg, world, path@, t)
            &&& later == prior
            &&& new_disk == old_disk
        },
        Request::CreateDoc { path, content } => {
            corpus::create_doc_turn(
                prior,
                later,
                old_disk,
                new_disk,
                cfg,
                world,
                path@,
                opt_view(content),
                t,
            )
        },
        Request::SaveDoc { path, content, message } => {
            corpus::save_doc_turn(
                prior,
                later,
                old_disk,
                new_disk,
                cfg,
                world,
                path@,
                opt_view(content),
                opt_view(message),
                t,
            )
        },
        Request::SearchDocs { query } => {
            &&& corpus::search_docs_turn(prior, world, query, t)
            &&& later == prior
            &&& new_disk == old_disk
        },
        _ => false,
    }
}

/// What comes of an operation on versions.
pub open spec fn history_turned(
    prior: Store,
    later: Store,
    old_disk: Disk,
    new_disk: Disk,
    cfg: Config,
    caller: Caller,
    world: World,
    request: Request,
    t: Turn,
) -> bool {
    match request {
        Request::ListVersions { path, limit } => {
            &&& history::list_versions_turn(prior, world, path@, limit, t)
            &&& later == prior
            &&& new_disk == old_disk
        },
        Request::ReadVersion { path, reference } => {
            &&& history::read_version_turn(prior, world, path@, opt_view(reference), t)
            &&& later == prior
            &&& new_disk == old_disk
        },
        Request::DiffVersions { path, from, to } => {
            &&& history::diff_versions_turn(prior, world, path@, opt_view(from), opt_view(to), t)
            &&& later == prior
            &&& new_disk == old_disk
        },
        Request::Checkpoint { path, message } => {
            &&& history::checkpoint_turn(
                prior,
                later,
                old_disk,
                cfg,
                caller,
                world,
                path@,
                opt_view(message),
                t,
            )
            &&& new_disk == old_disk
        },
        Request::RestoreVersion { path, version_id } => {
            history::restore_version_turn(
                prior,
                later,
                old_disk,
                new_disk,
                cfg,
                world,
                path@,
                opt_view(version_id),
                t,
            )
        },
        Request::ExportHistory { path } => {
            &&& history::export_history_turn(prior, world, path@, t)
            &&& later == prior
            &&& new_disk == old_disk
        },
        _ => false,
    }
}

/// What comes of an operation on writing and artifacts.
pub open spec fn writing_turned(
    prior: Store,
    later: Store,
    old_disk: Disk,
    new_disk: Disk,
    cfg: Config,
    caller: Caller,
    world: World,
    request: Request,
    t: Turn,
) -> bool {
    match request {
        Request::ProposeEdit { path, content, patch, base_version, intent, addressing } => {
            writing::propose_edit_turn(
                prior,
                later,
                old_disk,
                new_disk,
                cfg,
                caller,
                world,
                path@,
                opt_view(content),
                opt_view(patch),
                opt_view(base_version),
                opt_view(intent),
                opt_view(addressing),
                t,
            )
        },
        Request::TaskList { doc, filter } => {
            &&& writing::task_list_turn(prior, old_disk, cfg, world, opt_view(doc), filter, t)
            &&& later == prior
            &&& new_disk == old_disk
        },
        Request::TaskAdd { doc, text, owner, tags, message } => {
            writing::task_add_turn(
                prior,
                later,
                old_disk,
                new_disk,
                cfg,
                caller,
                world,
                doc@,
                opt_view(text),
                opt_view(owner),
                tags_of(tags),
                opt_view(message),
                t,
            )
        },
        Request::TaskSetStatus { doc, task_id, version, status, text } => {
            writing::task_set_status_turn(
                prior,
                later,
                old_disk,
                new_disk,
                cfg,
                caller,
                world,
                doc@,
                opt_view(task_id),
                opt_view(version),
                opt_view(status),
                opt_view(text),
                t,
            )
        },
        Request::ValidateDoc { path } => {
            &&& writing::validate_doc_turn(prior, old_disk, cfg, world, path@, t)
            &&& later == prior
            &&& new_disk == old_disk
        },
        Request::ValidateAll { ty } => {
            &&& writing::validate_all_turn(prior, old_disk, cfg, world, ty, t)
            &&& later == prior
            &&& new_disk == old_disk
        },
        Request::RenderPrompt { path, variables } => {
            &&& writing::render_prompt_turn(
                prior,
                old_disk,
                cfg,
                world,
                path@,
                opt_model(variables),
                t,
            )
            &&& later == prior
            &&& new_disk == old_disk
        },
        _ => false,
    }
}

/// What comes of an operation on proposals.
pub open spec fn proposals_turned(
    prior: Store,
    later: Store,
    old_disk: Disk,
    new_disk: Disk,
    cfg: Config,
    caller: Caller,
    world: World,
    request: Request,
    t: Turn,
) -> bool {
    match request {
        Request::ListProposals { filter } => {
            &&& proposals::list_proposals_turn(prior, old_disk, filter, t)
            &&& later == prior
            &&& new_disk == old_disk
        },
        Request::GetProposal { id } => {
            &&& proposals::get_proposal_turn(prior, old_disk, id@, t)
            &&& later == prior
            &&& new_disk == old_disk
        },
        Request::ProposalDiff { id } => {
            &&& proposals::proposal_diff_turn(prior, old_disk, id@, t)
            &&& later == prior
            &&& new_disk == old_disk
        },
        Request::AcceptProposal { id, hunks } => {
            proposals::accept_proposal_turn(
                prior,
                later,
                old_disk,
                new_disk,
                cfg,
                world,
                id@,
                opt_counts(hunks),
                t,
            )
        },
        Request::RejectProposal { id, note } => {
            &&& proposals::reject_proposal_turn(prior, later, old_disk, id@, opt_view(note), t)
            &&& new_disk == old_disk
        },
        Request::RebaseProposal { id } => {
            &&& proposals::rebase_proposal_turn(prior, later, old_disk, id@, t)
            &&& new_disk == old_disk
        },
        _ => false,
    }
}

/// What comes of an operation on comments.
pub open spec fn threads_turned(
    prior: Store,
    later: Store,
    old_disk: Disk,
    new_disk: Disk,
    cfg: Config,
    caller: Caller,
    world: World,
    request: Request,
    t: Turn,
) -> bool {
    match request {
        Request::ListComments { filter } => {
            &&& threads::list_comments_turn(prior, old_disk, world, filter, t)
            &&& later == prior
            &&& new_disk == old_disk
        },
        Request::GetComment { comment_id } => {
            &&& threads::get_comment_turn(prior, old_disk, comment_id@, t)
            &&& later == prior
            &&& new_disk == old_disk
        },
        Request::CreateComment { path, selection_start, selection_end, body } => {
            &&& threads::create_comment_turn(
                prior,
                later,
                old_disk,
                cfg,
                world,
                path@,
                selection_start,
                selection_end,
                opt_view(body),
                t,
            )
            &&& new_disk == old_disk
        },
        Request::ReplyComment { comment_id, body } => {
            &&& threads::reply_comment_turn(
                prior,
                later,
                old_disk,
                cfg,
                caller,
                comment_id@,
                body@,
                t,
            )
            &&& new_disk == old_disk
        },
        Request::ResolveComment { comment_id } => {
            &&& threads::resolve_comment_turn(prior, later, old_disk, caller, comment_id@, t)
            &&& new_disk == old_disk
        },
        Request::ReopenComment { comment_id } => {
            &&& threads::reopen_comment_turn(prior, later, old_disk, comment_id@, t)
            &&& new_disk == old_disk
        },
        Request::DeleteComment { comment_id } => {
            &&& threads::delete_comment_turn(prior, later, old_disk, comment_id@, t)
            &&& new_disk == old_disk
        },
        _ => false,
    }
}

/// What comes of an operation on views and housekeeping.
pub open spec fn house_turned(
    prior: Store,
    later: Store,
    old_disk: Disk,
    new_disk: Disk,
    cfg: Config,
    caller: Caller,
    world: World,
    request: Request,
    t: Turn,
) -> bool {
    match request {
        Request::Today => {
            &&& house::today_turn(prior, old_disk, cfg, world, t)
            &&& later == prior
            &&& new_disk == old_disk
        },
        Request::Status => {
            &&& house::status_turn(prior, old_disk, cfg, world, t)
            &&& later == prior
            &&& new_disk == old_disk
        },
        Request::MarkReviewed => {
            &&& house::mark_reviewed_turn(prior, later, world, t)
            &&& new_disk == old_disk
        },
        Request::TouchClient { name, mode } => {
            &&& house::touch_client_turn(prior, later, cfg, world, name@, opt_view(mode), t)
            &&& new_disk == old_disk
        },
        Request::UiStateSet { key, value } => {
            &&& house::ui_state_set_turn(prior, later, key@, opt_view(value), t)
            &&& new_disk == old_disk
        },
        Request::UiStateGet { key } => {
            &&& house::ui_state_get_turn(prior, key@, t)
            &&& later == prior
            &&& new_disk == old_disk
        },
        Request::ShowConfig => house::config_turn(cfg, t) && later == prior && new_disk == old_disk,
        Request::Ping => house::ping_turn(t) && later == prior && new_disk == old_disk,
        Request::InstrumentationStatus => {
            &&& house::instrumentation_turn(prior, t)
            &&& later == prior
            &&& new_disk == old_disk
        },
        Request::RecordUsageEvent { session, event } => {
            &&& house::record_usage_turn(prior, later, session@, event@, t)
            &&& new_disk == old_disk
        },
        Request::SetInstrumentation { enabled } => {
            &&& house::set_instrumentation_turn(prior, later, enabled, t)
            &&& new_disk == old_disk
        },
        Request::ExportUsageEvents => {
            &&& house::export_usage_turn(prior, t)
            &&& later == prior
            &&& new_disk == old_disk
        },
        Request::ClearUsageEvents => {
            &&& house::clear_usage_turn(prior, later, t)
            &&& new_disk == old_disk
        },
        _ => false,
    }
}

/// Was the operation that a request asks for carried out?
pub open spec fn carried_out(
    prior: Store,
    later: Store,
    old_disk: Disk,
    new_disk: Disk,
    cfg: Config,
    caller: Caller,
    world: World,
    request: Request,
    t: Turn,
) -> bool {
    ||| corpus_turned(prior, later, old_disk, new_disk, cfg, caller, world, request, t)
    ||| history_turned(prior, later, old_disk, new_disk, cfg, caller, world, request, t)
    ||| writing_turned(prior, later, old_disk, new_disk, cfg, caller, world, request, t)
    ||| proposals_turned(prior, later, old_disk, new_disk, cfg, caller, world, request, t)
    ||| threads_turned(prior, later, old_disk, new_disk, cfg, caller, world, request, t)
    ||| house_turned(prior, later, old_disk, new_disk, cfg, caller, world, request, t)
}

/// Why an operation's path is not in the corpus, if it is not.
pub open spec fn unresolved(store: Store, world: World, request: Request) -> Option<ErrorModel> {
    match asked(store, request) {
        Some(path) => match resolved_in(store, path, found_models(world.found@)) {
            Ok(_) => None,
            Err(why) => Some(why),
        },
        None => None,
    }
}

/// What comes of an operation. An agent is turned away from what is reserved,
/// and a path that does not resolve ends any operation before it starts.
pub open spec fn turned(
    prior: Store,
    later: Store,
    old_disk: Disk,
    new_disk: Disk,
    cfg: Config,
    caller: Caller,
    world: World,
    request: Request,
    t: Turn,
) -> bool {
    if turned_away(request, caller) {
        refused(t, denied(reserved(request)->0)) && later == prior && new_disk == old_disk
    } else {
        match unresolved(prior, world, request) {
            Some(why) => refused(t, why) && later == prior && new_disk == old_disk,
            None => carried_out(prior, later, old_disk, new_disk, cfg, caller, world, request, t),
        }
    }
}

/// Does an operation only read?
pub open spec fn reads(request: Request) -> bool {
    match request {
        Request::ListRoots => true,
        Request::ListPathPolicies { .. } => true,
        Request::ListDocs { .. } => true,
        Request::ReadDoc { .. } => true,
        Request::SearchDocs { .. } => true,
        Request::ListVersions { .. } => true,
        Request::ReadVersion { .. } => true,
        Request::DiffVersions { .. } => true,
        Request::ExportHistory { .. } => true,
        Request::TaskList { .. } => true,
        Request::ValidateDoc { .. } => true,
        Request::ValidateAll { .. } => true,
        Request::RenderPrompt { .. } => true,
        Request::ListProposals { .. } => true,
        Request::GetProposal { .. } => true,
        Request::ProposalDiff { .. } => true,
        Request::ListComments { .. } => true,
        Request::GetComment { .. } => true,
        Request::Today => true,
        Request::Status => true,
        Request::UiStateGet { .. } => true,
        Request::ShowConfig => true,
        Request::Ping => true,
        Request::InstrumentationStatus => true,
        Request::ExportUsageEvents => true,
        _ => false,
    }
}

/// An operation that only reads leaves the store and the files as they were.
pub proof fn law_reading_changes_nothing(
    prior: Store,
    later: Store,
    old_disk: Disk,
    new_disk: Disk,
    cfg: Config,
    caller: Caller,
    world: World,
    request: Request,
    t: Turn,
)
    requires
        reads(request),
        turned(prior, later, old_disk, new_disk, cfg, caller, world, request, t),
    ensures
        later == prior,
        new_disk == old_disk,
{
}

/// A path that does not resolve is answered with the reason, and nothing
/// happens: whatever the operation, nothing outside the corpus is reached.
pub proof fn law_unresolved_paths_are_refused(
    prior: Store,
    later: Store,
    old_disk: Disk,
    new_disk: Disk,
    cfg: Config,
    caller: Caller,
    world: World,
    request: Request,
    t: Turn,
    path: Seq<char>,
    why: ErrorModel,
)
    requires
        turned(prior, later, old_disk, new_disk, cfg, caller, world, request, t),
        !turned_away(request, caller),
        asked(prior, request) == Some(path),
        resolved_in(prior, path, found_models(world.found@)) == Err::<ResolvedModel, ErrorModel>(
            why,
        ),
    ensures
        refused(t, why),
        later == prior,
        new_disk == old_disk,
{
}

/// Is it an operation on comments?
pub open spec fn about_comments(request: Request) -> bool {
    match request {
        Request::ListComments { .. } => true,
        Request::GetComment { .. } => true,
        Request::CreateComment { .. } => true,
        Request::ReplyComment { .. } => true,
        Request::ResolveComment { .. } => true,
        Request::ReopenComment { .. } => true,
        Request::DeleteComment { .. } => true,
        _ => false,
    }
}

/// Comments live beside the documents: no operation on them changes a file, a
/// version or a proposal.
pub proof fn law_comments_stay_out_of_documents(
    prior: Store,
    later: Store,
    old_disk: Disk,
    new_disk: Disk,
    cfg: Config,
    caller: Caller,
    world: World,
    request: Request,
    t: Turn,
)
    requires
        turned(prior, later, old_disk, new_disk, cfg, caller, world, request, t),
        about_comments(request),
    ensures
        new_disk == old_disk,
        later.snapshots == prior.snapshots,
        later.proposals == prior.proposals,
        later.blobs == prior.blobs,
{
}

/// An agent's edit that waits for a decision has changed no file and no
/// version.
pub proof fn law_waiting_edits_change_nothing(
    prior: Store,
    later: Store,
    old_disk: Disk,
    new_disk: Disk,
    cfg: Config,
    caller: Caller,
    world: World,
    request: Request,
    t: Turn,
)
    requires
        turned(prior, later, old_disk, new_disk, cfg, caller, world, request, t),
        request is ProposeEdit,
        t.answer matches Ok(Answer::Written(WriteOutcome::Proposed { .. })),
    ensures
        new_disk@ == old_disk@,
        later.snapshots == prior.snapshots,
        later.proposals@.len() == prior.proposals@.len() + 1,
{
    let p = proposal_models(prior.proposals@);
    let q = proposal_models(later.proposals@);
    assert(p.len() == prior.proposals@.len() && q.len() == later.proposals@.len());
}

/// The human user's edits never wait: saving, creating, restoring and working
/// on tasks queues nothing.
pub proof fn law_human_edits_never_wait(
    prior: Store,
    later: Store,
    old_disk: Disk,
    new_disk: Disk,
    cfg: Config,
    caller: Caller,
    world: World,
    request: Request,
    t: Turn,
)
    requires
        turned(prior, later, old_disk, new_disk, cfg, caller, world, request, t),
        caller.is_human,
        request is SaveDoc || request is CreateDoc || request is RestoreVersion
            || request is TaskAdd || request is TaskSetStatus,
    ensures
        later.proposals == prior.proposals,
        !(t.answer matches Ok(Answer::TaskAdded((TaskWrite::Routed(_), _)))),
        !(t.answer matches Ok(Answer::TaskTicked(StatusWrite::Written(TaskWrite::Routed(_))))),
{
}

/// Only a human decides: an operation that is for humans is refused to an
/// agent, naming the operation, and changes nothing.
pub proof fn law_agents_decide_nothing(
    prior: Store,
    later: Store,
    old_disk: Disk,
    new_disk: Disk,
    cfg: Config,
    caller: Caller,
    world: World,
    request: Request,
    t: Turn,
)
    requires
        turned(prior, later, old_disk, new_disk, cfg, caller, world, request, t),
        !caller.is_human,
        reserved(request) is Some,
    ensures
        refused(t, denied(reserved(request)->0)),
        later == prior,
        new_disk == old_disk,
{
}

/// Carries an operation out. Every shell goes through here, so that what an
/// agent sees cannot drift from what the frontend sees.
pub fn dispatch(
    store: &mut Store,
    disk: &mut Disk,
    cfg: &Config,
    caller: &Caller,
    world: World,
    request: Request,
) -> (out: Turn)
    requires
        ready(*old(store), *old(disk), *cfg, world, request),
    ensures
        appended(*old(disk), *final(disk)),
        turned(
            *old(store),
            *final(store),
            *old(disk),
            *final(disk),
            *cfg,
            *caller,
            world,
            request,
            out,
        ),
{
    if let Some(name) = reserved_name(&request) {
        if let Err(e) = caller.require_human(name) {
            return fail(e);
        }
    }
    if let Some(path) = asked_path(store, disk, &request) {
        if let Err(e) = resolve(store, path.as_str(), &world.found) {
            return fail(e);
        }
    }
    match request {
        Request::ListRoots => corpus::list_roots_op(store),
        Request::AddRoot { path, policy, label } => {
            corpus::add_root_op(store, disk, cfg, world, path, policy, label)
        },
        Request::RemoveRoot { id } => corpus::remove_root_op(store, id),
        Request::SetRootPolicy { id, policy } => corpus::set_root_policy_op(store, id, policy),
        Request::SetPathPolicy { root_id, pattern, policy } => {
            corpus::set_path_policy_op(store, root_id, pattern, policy)
        },
        Request::RemovePathPolicy { id } => corpus::remove_path_policy_op(store, id),
        Request::ListPathPolicies { root_id } => corpus::list_path_policies_op(store, root_id),
        Request::IndexRoot { id } => corpus::index_root_op(store, disk, cfg, &world, id),
        Request::IndexAll => corpus::index_all_op(store, disk, cfg, &world),
        Request::ListDocs { root, ty } => corpus::list_docs_op(store, disk, &world, root, ty),
        Request::ReadDoc { path } => corpus::read_doc_op(store, disk, cfg, &world, path),
        Request::CreateDoc { path, content } => {
            corpus::create_doc_op(store, disk, cfg, &world, path, content)
        },
        Request::SaveDoc { path, content, message } => {
            corpus::save_doc_op(store, disk, cfg, &world, path, content, message)
        },
        Request::SearchDocs { query } => corpus::search_docs_op(store, &world, query),
        Request::ListVersions { path, limit } => {
            history::list_versions_op(store, &world, path, limit)
        },
        Request::ReadVersion { path, reference } => {
            history::read_version_op(store, &world, path, reference)
        },
        Request::DiffVersions { path, from, to } => {
            history::diff_versions_op(store, &world, path, from, to)
        },
        Request::Checkpoint { path, message } => {
            history::checkpoint_op(store, disk, cfg, caller, &world, path, message)
        },
        Request::RestoreVersion { path, version_id } => {
            history::restore_version_op(store, disk, cfg, &world, path, version_id)
        },
        Request::ExportHistory { path } => history::export_history_op(store, &world, path),
        Request::ProposeEdit { path, content, patch, base_version, intent, addressing } => {
            writing::propose_edit_op(
                store,
                disk,
                cfg,
                caller,
                &world,
                path,
                content,
                patch,
                base_version,
                intent,
                addressing,
            )
        },
        Request::TaskList { doc, filter } => {
            writing::task_list_op(store, disk, cfg, &world, doc, filter)
        },
        Request::TaskAdd { doc, text, owner, tags, message } => {
            writing::task_add_op(
                store,
                disk,
                cfg,
                caller,
                &world,
                doc,
                text,
                owner,
                tags,
                message,
            )
        },
        Request::TaskSetStatus { doc, task_id, version, status, text } => {
            writing::task_set_status_op(
                store,
                disk,
                cfg,
                caller,
                &world,
                doc,
                task_id,
                version,
                status,
                text,
            )
        },
        Request::ValidateDoc { path } => writing::validate_doc_op(store, disk, cfg, &world, path),
        Request::ValidateAll { ty } => writing::validate_all_op(store, disk, cfg, &world, ty),
        Request::RenderPrompt { path, variables } => {
            writing::render_prompt_op(store, disk, cfg, &world, path, variables)
        },
        Request::ListProposals { filter } => proposals::list_proposals_op(store, disk, filter),
        Request::GetProposal { id } => proposals::get_proposal_op(store, disk, id),
        Request::ProposalDiff { id } => proposals::proposal_diff_op(store, disk, id),
        Request::AcceptProposal { id, hunks } => {
            proposals::accept_proposal_op(store, disk, cfg, &world, id, hunks)
        },
        Request::RejectProposal { id, note } => {
            proposals::reject_proposal_op(store, disk, id, note)
        },
        Request::RebaseProposal { id } => proposals::rebase_proposal_op(store, disk, id),
        Request::ListComments { filter } => threads::list_comments_op(store, disk, &world, filter),
        Request::GetComment { comment_id } => threads::get_comment_op(store, disk, comment_id),
        Request::CreateComment { path, selection_start, selection_end, body } => {
            threads::create_comment_op(
                store,
                disk,
                cfg,
                &world,
                path,
                selection_start,
                selection_end,
                body,
            )
        },
        Request::ReplyComment { comment_id, body } => {
            threads::reply_comment_op(store, disk, cfg, caller, comment_id, body)
        },
        Request::ResolveComment { comment_id } => {
            threads::resolve_comment_op(store, disk, caller, comment_id)
        },
        Request::ReopenComment { comment_id } => {
            threads::reopen_comment_op(store, disk, comment_id)
        },
        Request::DeleteComment { comment_id } => {
            threads::delete_comment_op(store, disk, comment_id)
        },
        Request::Today => house::today_op(store, disk, cfg, &world),
        Request::Status => house::status_op(store, disk, cfg, &world),
        Request::MarkReviewed => house::mark_reviewed_op(store, &world),
        Request::TouchClient { name, mode } => {
            house::touch_client_op(store, cfg, &world, name, mode)
        },
        Request::UiStateSet { key, value } => house::ui_state_set_op(store, key, value),
        Request::UiStateGet { key } => house::ui_state_get_op(store, key),
        Request::ShowConfig => house::config_op(cfg),
        Request::Ping => house::ping_op(),
        Request::InstrumentationStatus => house::instrumentation_op(store),
        Request::RecordUsageEvent { session, event } => {
            house::record_usage_op(store, session, event)
        },
        Request::SetInstrumentation { enabled } => house::set_instrumentation_op(store, enabled),
        Request::ExportUsageEvents => house::export_usage_op(store),
        Request::ClearUsageEvents => house::clear_usage_op(store),
    }
}

/// What an agent must not do it cannot do by handing in a request of its own
/// making: deciding on proposals and threads, writing documents past the
/// policy, restoring, and changing the corpus change nothing when an agent asks.
pub proof fn law_agents_change_nothing_that_is_decided(
    prior: Store,
    later: Store,
    old_disk: Disk,
    new_disk: Disk,
    cfg: Config,
    caller: Caller,
    world: World,
    request: Request,
    t: Turn,
)
    requires
        turned(prior, later, old_disk, new_disk, cfg, caller, world, request, t),
        !caller.is_human,
        request is AcceptProposal || request is RejectProposal || request is RebaseProposal
            || request is CreateComment || request is ResolveComment || request is ReopenComment
            || request is DeleteComment || request is CreateDoc || request is SaveDoc
            || request is RestoreVersion || request is RemoveRoot || request is SetRootPolicy
            || request is SetPathPolicy || request is RemovePathPolicy,
    ensures
        later == prior,
        new_disk == old_disk,
        t.answer is Err,
{
}

} // verus!
