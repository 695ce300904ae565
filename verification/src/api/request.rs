//! What a caller asks for: every operation the product has, by name.

use super::params::{
    bool_param, missing, opt_counts, opt_texts, str_list_param, str_param, text_param,
    usize_list_param, usize_param, Params,
};
use crate::artifact::task::Filter;
use crate::comment;
use crate::corpus::types::{artifact_named, policy_named};
use crate::corpus::{ArtifactType, Policy};
use crate::error::{Error, ErrorModel, Result};
use crate::json::{copy_json, get_of, Json, JsonModel};
use crate::proposal;
use crate::search::Query;
use crate::text::{opt_str_view, opt_view, same_str};
use vstd::prelude::*;

verus! {

/// Who is asking. Agents and the human user share one API and one enforcement
/// point; they differ only in what they are allowed to decide.
#[derive(Debug)]
pub struct Caller {
    /// Recorded as the snapshot author: `you`, or the agent's model name.
    pub author: String,
    /// The MCP client, e.g. `codex-cli`.
    pub client: String,
    /// Human callers may decide: accept, reject, resolve, restore, configure.
    pub is_human: bool,
}

/// What an agent is told who tries to decide.
pub open spec fn denied(what: Seq<char>) -> ErrorModel {
    ErrorModel::PolicyDenied(what, "human-only"@)
}

impl Caller {
    /// The human user.
    pub fn human() -> (out: Caller)
        ensures
            out.author@ == "you"@,
            out.client@ == "folio-app"@,
            out.is_human,
    {
        Caller { author: "you".to_owned(), client: "folio-app".to_owned(), is_human: true }
    }

    /// An agent.
    pub fn agent(author: &str, client: &str) -> (out: Caller)
        ensures
            out.author@ == author@,
            out.client@ == client@,
            !out.is_human,
    {
        Caller { author: author.to_owned(), client: client.to_owned(), is_human: false }
    }

    /// Refuses everybody but the human user.
    pub fn require_human(&self, what: &str) -> (out: Result<()>)
        ensures
            match out {
                Ok(_) => self.is_human,
                Err(e) => !self.is_human && e@ == denied(what@),
            },
    {
        if self.is_human {
            Ok(())
        } else {
            Err(
                Error::PolicyDenied {
                    path: what.to_owned(),
                    policy: "human-only".to_owned(),
                },
            )
        }
    }
}

/// An operation with its arguments. What an operation insists on only after it
/// has looked at the corpus may be missing here.
#[derive(Debug)]
pub enum Request {
    ListRoots,
    AddRoot { path: String, policy: Policy, label: Option<String> },
    RemoveRoot { id: String },
    SetRootPolicy { id: String, policy: Policy },
    SetPathPolicy { root_id: String, pattern: String, policy: Policy },
    RemovePathPolicy { id: String },
    ListPathPolicies { root_id: String },
    IndexRoot { id: String },
    IndexAll,
    ListDocs { root: Option<String>, ty: Option<ArtifactType> },
    ReadDoc { path: String },
    CreateDoc { path: String, content: Option<String> },
    SaveDoc { path: String, content: Option<String>, message: Option<String> },
    SearchDocs { query: Query },
    ListVersions { path: String, limit: usize },
    ReadVersion { path: String, reference: Option<String> },
    DiffVersions { path: String, from: Option<String>, to: Option<String> },
    Checkpoint { path: String, message: Option<String> },
    RestoreVersion { path: String, version_id: Option<String> },
    ExportHistory { path: String },
    ProposeEdit {
        path: String,
        content: Option<String>,
        patch: Option<String>,
        base_version: Option<String>,
        intent: Option<String>,
        addressing: Option<String>,
    },
    TaskList { doc: Option<String>, filter: Filter },
    TaskAdd {
        doc: String,
        text: Option<String>,
        owner: Option<String>,
        tags: Option<Vec<String>>,
        message: Option<String>,
    },
    TaskSetStatus {
        doc: String,
        task_id: Option<String>,
        version: Option<String>,
        status: Option<String>,
        text: Option<String>,
    },
    ValidateDoc { path: String },
    ValidateAll { ty: ArtifactType },
    RenderPrompt { path: String, variables: Option<Json> },
    ListProposals { filter: proposal::ListFilter },
    GetProposal { id: String },
    ProposalDiff { id: String },
    AcceptProposal { id: String, hunks: Option<Vec<usize>> },
    RejectProposal { id: String, note: Option<String> },
    RebaseProposal { id: String },
    ListComments { filter: comment::ListFilter },
    GetComment { comment_id: String },
    CreateComment {
        path: String,
        selection_start: Option<usize>,
        selection_end: Option<usize>,
        body: Option<String>,
    },
    ReplyComment { comment_id: String, body: String },
    ResolveComment { comment_id: String },
    ReopenComment { comment_id: String },
    DeleteComment { comment_id: String },
    Today,
    Status,
    MarkReviewed,
    TouchClient { name: String, mode: Option<String> },
    UiStateSet { key: String, value: Option<String> },
    UiStateGet { key: String },
    ShowConfig,
    Ping,
    InstrumentationStatus,
    RecordUsageEvent { session: String, event: String },
    SetInstrumentation { enabled: bool },
    ExportUsageEvents,
    ClearUsageEvents,
}

/// The name of the operation, where only the human user may ask for it.
pub open spec fn reserved(request: Request) -> Option<Seq<char>> {
    match request {
        Request::RemoveRoot { .. } => Some("remove_root"@),
        Request::SetRootPolicy { .. } => Some("set_root_policy"@),
        Request::SetPathPolicy { .. } => Some("set_path_policy"@),
        Request::RemovePathPolicy { .. } => Some("remove_path_policy"@),
        Request::CreateDoc { .. } => Some("create_doc"@),
        Request::SaveDoc { .. } => Some("save_doc"@),
        Request::RestoreVersion { .. } => Some("restore_version"@),
        Request::AcceptProposal { .. } => Some("accept_proposal"@),
        Request::RejectProposal { .. } => Some("reject_proposal"@),
        Request::RebaseProposal { .. } => Some("rebase_proposal"@),
        Request::CreateComment { .. } => Some("create_comment"@),
        Request::ResolveComment { .. } => Some("resolve_comment"@),
        Request::ReopenComment { .. } => Some("reopen_comment"@),
        Request::DeleteComment { .. } => Some("delete_comment"@),
        Request::MarkReviewed => Some("mark_reviewed"@),
        Request::UiStateSet { .. } => Some("ui_state_set"@),
        Request::SetInstrumentation { .. } => Some("set_instrumentation"@),
        Request::ExportUsageEvents => Some("export_usage_events"@),
        Request::ClearUsageEvents => Some("clear_usage_events"@),
        _ => None,
    }
}

/// Is a caller turned away, whatever they ask with?
pub open spec fn turned_away(request: Request, caller: Caller) -> bool {
    reserved(request) is Some && !caller.is_human
}

/// The name of the operation, where only the human user may ask for it.
pub fn reserved_name(request: &Request) -> (out: Option<&'static str>)
    ensures
        opt_str_view(out) == reserved(*request),
{
    match request {
        Request::RemoveRoot { .. } => Some("remove_root"),
        Request::SetRootPolicy { .. } => Some("set_root_policy"),
        Request::SetPathPolicy { .. } => Some("set_path_policy"),
        Request::RemovePathPolicy { .. } => Some("remove_path_policy"),
        Request::CreateDoc { .. } => Some("create_doc"),
        Request::SaveDoc { .. } => Some("save_doc"),
        Request::RestoreVersion { .. } => Some("restore_version"),
        Request::AcceptProposal { .. } => Some("accept_proposal"),
        Request::RejectProposal { .. } => Some("reject_proposal"),
        Request::RebaseProposal { .. } => Some("rebase_proposal"),
        Request::CreateComment { .. } => Some("create_comment"),
        Request::ResolveComment { .. } => Some("resolve_comment"),
        Request::ReopenComment { .. } => Some("reopen_comment"),
        Request::DeleteComment { .. } => Some("delete_comment"),
        Request::MarkReviewed => Some("mark_reviewed"),
        Request::UiStateSet { .. } => Some("ui_state_set"),
        Request::SetInstrumentation { .. } => Some("set_instrumentation"),
        Request::ExportUsageEvents => Some("export_usage_events"),
        Request::ClearUsageEvents => Some("clear_usage_events"),
        _ => None,
    }
}

/// What an operation insists on: that a human asks, these parameters, and a
/// truth value. One that the app shell drives is turned down all the same.
pub struct Shape {
    pub human: bool,
    pub keys: Seq<Seq<char>>,
    pub truth: Option<Seq<char>>,
    pub elsewhere: bool,
}

pub open spec fn plain(human: bool, keys: Seq<Seq<char>>) -> Shape {
    Shape { human: human, keys: keys, truth: None, elsewhere: false }
}

pub open spec fn open_to_all(keys: Seq<Seq<char>>) -> Option<Shape> {
    Some(plain(false, keys))
}

pub open spec fn for_humans(keys: Seq<Seq<char>>) -> Option<Shape> {
    Some(plain(true, keys))
}

/// The operations on roots and documents. Registering a root is explicitly an
/// agent's capability, not a human-only one: an agent that knows where its
/// skills live should be able to put them under version control.
pub open spec fn corpus_shape(op: Seq<char>) -> Option<Shape> {
    if op == "list_roots"@ {
        open_to_all(seq![])
    } else if op == "add_root"@ {
        open_to_all(seq!["path"@])
    } else if op == "remove_root"@ {
        for_humans(seq!["id"@])
    } else if op == "set_root_policy"@ {
        for_humans(seq!["id"@, "policy"@])
    } else if op == "set_path_policy"@ {
        for_humans(seq!["root_id"@, "pattern"@, "policy"@])
    } else if op == "remove_path_policy"@ {
        for_humans(seq!["id"@])
    } else if op == "list_path_policies"@ {
        open_to_all(seq!["root_id"@])
    } else if op == "index_root"@ {
        open_to_all(seq!["id"@])
    } else if op == "index_all"@ {
        open_to_all(seq![])
    } else if op == "list_docs"@ {
        open_to_all(seq![])
    } else if op == "read_doc"@ {
        open_to_all(seq!["path"@])
    } else if op == "create_doc"@ {
        for_humans(seq!["path"@])
    } else if op == "save_doc"@ {
        for_humans(seq!["path"@])
    } else if op == "search_docs"@ {
        open_to_all(seq!["query"@])
    } else {
        None
    }
}

/// The operations on history.
pub open spec fn version_shape(op: Seq<char>) -> Option<Shape> {
    if op == "list_versions"@ {
        open_to_all(seq!["path"@])
    } else if op == "read_version"@ {
        open_to_all(seq!["path"@])
    } else if op == "diff_versions"@ {
        open_to_all(seq!["path"@])
    } else if op == "checkpoint"@ {
        open_to_all(seq!["path"@])
    } else if op == "restore_version"@ {
        for_humans(seq!["path"@])
    } else if op == "export_history"@ {
        open_to_all(seq!["path"@])
    } else {
        None
    }
}

/// The operations by which agents write, and on what artifacts are.
pub open spec fn writing_shape(op: Seq<char>) -> Option<Shape> {
    if op == "propose_edit"@ {
        open_to_all(seq!["path"@])
    } else if op == "task_list"@ {
        open_to_all(seq![])
    } else if op == "task_add"@ {
        open_to_all(seq!["doc"@])
    } else if op == "task_set_status"@ {
        open_to_all(seq!["doc"@])
    } else if op == "validate_doc"@ {
        open_to_all(seq!["path"@])
    } else if op == "validate_all"@ {
        open_to_all(seq![])
    } else if op == "render_prompt"@ {
        open_to_all(seq!["path"@])
    } else {
        None
    }
}

/// The operations on proposals. Deciding stays with the human.
pub open spec fn proposal_shape(op: Seq<char>) -> Option<Shape> {
    if op == "list_proposals"@ {
        open_to_all(seq![])
    } else if op == "get_proposal"@ {
        open_to_all(seq!["id"@])
    } else if op == "proposal_diff"@ {
        open_to_all(seq!["id"@])
    } else if op == "accept_proposal"@ {
        for_humans(seq!["id"@])
    } else if op == "reject_proposal"@ {
        for_humans(seq!["id"@])
    } else if op == "rebase_proposal"@ {
        for_humans(seq!["id"@])
    } else {
        None
    }
}

/// The operations on threads. Only the human user opens and settles them;
/// agents reply and address.
pub open spec fn comment_shape(op: Seq<char>) -> Option<Shape> {
    if op == "list_comments"@ {
        open_to_all(seq![])
    } else if op == "get_comment"@ {
        open_to_all(seq!["comment_id"@])
    } else if op == "create_comment"@ {
        for_humans(seq!["path"@])
    } else if op == "reply_comment"@ {
        open_to_all(seq!["comment_id"@, "body"@])
    } else if op == "resolve_comment"@ {
        for_humans(seq!["comment_id"@])
    } else if op == "reopen_comment"@ {
        for_humans(seq!["comment_id"@])
    } else if op == "delete_comment"@ {
        for_humans(seq!["comment_id"@])
    } else {
        None
    }
}

/// The views, and the housekeeping.
pub open spec fn other_shape(op: Seq<char>) -> Option<Shape> {
    if op == "today"@ {
        open_to_all(seq![])
    } else if op == "status"@ {
        open_to_all(seq![])
    } else if op == "mark_reviewed"@ {
        for_humans(seq![])
    } else if op == "start_watching"@ {
        Some(Shape { elsewhere: true, ..plain(true, seq![]) })
    } else if op == "touch_client"@ {
        open_to_all(seq!["name"@])
    } else if op == "ui_state_set"@ {
        for_humans(seq!["key"@])
    } else if op == "ui_state_get"@ {
        open_to_all(seq!["key"@])
    } else if op == "config"@ {
        open_to_all(seq![])
    } else if op == "ping"@ {
        open_to_all(seq![])
    } else if op == "instrumentation_status"@ {
        open_to_all(seq![])
    } else if op == "record_usage_event"@ {
        open_to_all(seq!["session"@, "event"@])
    } else if op == "set_instrumentation"@ {
        Some(Shape { truth: Some("enabled"@), ..plain(true, seq![]) })
    } else if op == "export_usage_events"@ {
        for_humans(seq![])
    } else if op == "clear_usage_events"@ {
        for_humans(seq![])
    } else {
        None
    }
}

/// What an operation insists on; nothing for a name that is none. This table
/// *is* the API.
pub open spec fn shape_of(op: Seq<char>) -> Option<Shape> {
    match corpus_shape(op) {
        Some(s) => Some(s),
        None => match version_shape(op) {
            Some(s) => Some(s),
            None => match writing_shape(op) {
                Some(s) => Some(s),
                None => match proposal_shape(op) {
                    Some(s) => Some(s),
                    None => match comment_shape(op) {
                        Some(s) => Some(s),
                        None => other_shape(op),
                    },
                },
            },
        },
    }
}

/// The first parameter that is left out.
pub open spec fn first_missing(params: JsonModel, keys: Seq<Seq<char>>) -> Option<Seq<char>>
    decreases keys.len(),
{
    if keys.len() == 0 {
        None
    } else if str_param(params, keys[0]) is None {
        Some(keys[0])
    } else {
        first_missing(params, keys.skip(1))
    }
}

/// What an operation of a shape is turned down for, if anything.
pub open spec fn shape_refusal(
    human: bool,
    op: Seq<char>,
    params: JsonModel,
    shape: Shape,
) -> Option<ErrorModel> {
    if shape.human && !human {
        Some(denied(op))
    } else {
        match first_missing(params, shape.keys) {
            Some(key) => Some(missing(key)),
            None => if shape.truth matches Some(key) && bool_param(params, key) is None {
                Some(missing(shape.truth->Some_0))
            } else if shape.elsewhere {
                Some(driven_elsewhere())
            } else {
                None
            },
        }
    }
}

/// What is said of an operation that the app shell drives.
pub open spec fn driven_elsewhere() -> ErrorModel {
    ErrorModel::UnknownOp("start_watching is driven by the app shell, not by dispatch"@)
}

/// What a request is turned down for, if anything.
pub open spec fn request_refusal(human: bool, op: Seq<char>, params: JsonModel) -> Option<
    ErrorModel,
> {
    match shape_of(op) {
        None => Some(ErrorModel::UnknownOp(op)),
        Some(shape) => shape_refusal(human, op, params, shape),
    }
}

/// The first of two values that is there.
pub open spec fn first_of<T>(a: Option<T>, b: Option<T>) -> Option<T> {
    if a is Some {
        a
    } else {
        b
    }
}

/// A truth value that counts as false when it is left out.
pub open spec fn flag(params: JsonModel, key: Seq<char>) -> bool {
    bool_param(params, key) == Some(true)
}

/// The artifact type that a parameter names.
pub open spec fn type_param(params: JsonModel, key: Seq<char>) -> Option<ArtifactType> {
    match str_param(params, key) {
        Some(t) => Some(artifact_named(t)),
        None => None,
    }
}

pub open spec fn opt_model(v: Option<Json>) -> Option<JsonModel> {
    match v {
        Some(j) => Some(j@),
        None => None,
    }
}

/// Does a request on roots and documents hold what was asked for?
pub open spec fn corpus_asks(r: Request, op: Seq<char>, p: JsonModel) -> bool {
    match r {
        Request::ListRoots => op == "list_roots"@,
        Request::AddRoot { path, policy, label } => op == "add_root"@ && str_param(p, "path"@)
            == Some(path@) && policy == (match str_param(p, "policy"@) {
            Some(s) => policy_named(s),
            None => Policy::Auto,
        }) && opt_view(label) == str_param(p, "label"@),
        Request::RemoveRoot { id } => op == "remove_root"@ && str_param(p, "id"@) == Some(id@),
        Request::SetRootPolicy { id, policy } => op == "set_root_policy"@ && str_param(p, "id"@)
            == Some(id@) && (str_param(p, "policy"@) matches Some(s) && policy == policy_named(s)),
        Request::SetPathPolicy { root_id, pattern, policy } => op == "set_path_policy"@
            && str_param(p, "root_id"@) == Some(root_id@) && str_param(p, "pattern"@) == Some(
            pattern@,
        ) && (str_param(p, "policy"@) matches Some(s) && policy == policy_named(s)),
        Request::RemovePathPolicy { id } => op == "remove_path_policy"@ && str_param(p, "id"@)
            == Some(id@),
        Request::ListPathPolicies { root_id } => op == "list_path_policies"@ && str_param(
            p,
            "root_id"@,
        ) == Some(root_id@),
        Request::IndexRoot { id } => op == "index_root"@ && str_param(p, "id"@) == Some(id@),
        Request::IndexAll => op == "index_all"@,
        Request::ListDocs { root, ty } => op == "list_docs"@ && opt_view(root) == str_param(
            p,
            "root"@,
        ) && ty == type_param(p, "type"@),
        Request::ReadDoc { path } => op == "read_doc"@ && str_param(p, "path"@) == Some(path@),
        Request::CreateDoc { path, content } => op == "create_doc"@ && str_param(p, "path"@)
            == Some(path@) && opt_view(content) == text_param(p, "content"@),
        Request::SaveDoc { path, content, message } => op == "save_doc"@ && str_param(p, "path"@)
            == Some(path@) && opt_view(content) == text_param(p, "content"@) && opt_view(message)
            == str_param(p, "message"@),
        Request::SearchDocs { query } => op == "search_docs"@ && str_param(p, "query"@) == Some(
            query.pattern@,
        ) && query.regex == flag(p, "regex"@) && opt_view(query.glob) == str_param(p, "glob"@)
            && query.case_sensitive == flag(p, "case_sensitive"@) && query.max_results == (
        match usize_param(p, "max_results"@) {
            Some(n) => n,
            None => 200,
        }) && query.max_file_bytes == 4_194_304,
        _ => false,
    }
}

/// Does a request on history hold what was asked for?
pub open spec fn version_asks(r: Request, op: Seq<char>, p: JsonModel) -> bool {
    match r {
        Request::ListVersions { path, limit } => op == "list_versions"@ && str_param(p, "path"@)
            == Some(path@) && limit == (match usize_param(p, "limit"@) {
            Some(n) => n,
            None => 200,
        }),
        Request::ReadVersion { path, reference } => op == "read_version"@ && str_param(p, "path"@)
            == Some(path@) && opt_view(reference) == first_of(
            str_param(p, "version_id"@),
            str_param(p, "version"@),
        ),
        Request::DiffVersions { path, from, to } => op == "diff_versions"@ && str_param(p, "path"@)
            == Some(path@) && opt_view(from) == str_param(p, "from"@) && opt_view(to)
            == str_param(p, "to"@),
        Request::Checkpoint { path, message } => op == "checkpoint"@ && str_param(p, "path"@)
            == Some(path@) && opt_view(message) == str_param(p, "message"@),
        Request::RestoreVersion { path, version_id } => op == "restore_version"@ && str_param(
            p,
            "path"@,
        ) == Some(path@) && opt_view(version_id) == str_param(p, "version_id"@),
        Request::ExportHistory { path } => op == "export_history"@ && str_param(p, "path"@)
            == Some(path@),
        _ => false,
    }
}

/// Does a request to write, or on what an artifact is, hold what was asked for?
pub open spec fn writing_asks(r: Request, op: Seq<char>, p: JsonModel) -> bool {
    match r {
        Request::ProposeEdit { path, content, patch, base_version, intent, addressing } => op
            == "propose_edit"@ && str_param(p, "path"@) == Some(path@) && opt_view(content)
            == text_param(p, "content"@) && opt_view(patch) == text_param(p, "patch"@)
            && opt_view(base_version) == str_param(p, "base_version"@) && opt_view(intent)
            == first_of(str_param(p, "intent"@), str_param(p, "message"@)) && opt_view(addressing)
            == str_param(p, "addressing"@),
        Request::TaskList { doc, filter } => op == "task_list"@ && opt_view(doc) == str_param(
            p,
            "doc"@,
        ) && opt_view(filter.owner) == str_param(p, "owner"@) && opt_view(filter.tag) == str_param(
            p,
            "tag"@,
        ) && filter.open_only == flag(p, "open_only"@) && opt_view(filter.query) == str_param(
            p,
            "query"@,
        ),
        Request::TaskAdd { doc, text, owner, tags, message } => op == "task_add"@ && str_param(
            p,
            "doc"@,
        ) == Some(doc@) && opt_view(text) == str_param(p, "text"@) && opt_view(owner) == str_param(
            p,
            "owner"@,
        ) && opt_texts(tags) == first_of(
            str_list_param(p, "tag"@),
            str_list_param(p, "tags"@),
        ) && opt_view(message) == str_param(p, "message"@),
        Request::TaskSetStatus { doc, task_id, version, status, text } => op == "task_set_status"@
            && str_param(p, "doc"@) == Some(doc@) && opt_view(task_id) == str_param(
            p,
            "task_id"@,
        ) && opt_view(version) == str_param(p, "version"@) && opt_view(status) == str_param(
            p,
            "status"@,
        ) && opt_view(text) == str_param(p, "text"@),
        Request::ValidateDoc { path } => op == "validate_doc"@ && str_param(p, "path"@) == Some(
            path@,
        ),
        Request::ValidateAll { ty } => op == "validate_all"@ && ty == (match type_param(
            p,
            "type"@,
        ) {
            Some(t) => t,
            None => ArtifactType::Skill,
        }),
        Request::RenderPrompt { path, variables } => op == "render_prompt"@ && str_param(p, "path"@)
            == Some(path@) && opt_model(variables) == get_of(p, "variables"@),
        _ => false,
    }
}

/// The status that a parameter names.
pub open spec fn proposal_status_param(p: JsonModel) -> Option<proposal::Status> {
    match str_param(p, "status"@) {
        Some(s) => proposal::types::status_named(s),
        None => None,
    }
}

/// The status that a parameter names.
pub open spec fn comment_status_param(p: JsonModel) -> Option<comment::Status> {
    match str_param(p, "status"@) {
        Some(s) => comment::types::status_named(s),
        None => None,
    }
}

/// A limit that counts as none when it is left out.
pub open spec fn limit_param(p: JsonModel) -> usize {
    match usize_param(p, "limit"@) {
        Some(n) => n,
        None => 0,
    }
}

/// Does a request on proposals hold what was asked for?
pub open spec fn proposal_asks(r: Request, caller: Caller, op: Seq<char>, p: JsonModel) -> bool {
    match r {
        Request::ListProposals { filter } => op == "list_proposals"@ && filter.status
            == proposal_status_param(p) && opt_view(filter.path) == str_param(p, "path"@)
            && filter.limit == limit_param(p) && opt_view(filter.client) == first_of(
            str_param(p, "client"@),
            if flag(p, "mine_only"@) {
                Some(caller.client@)
            } else {
                None
            },
        ),
        Request::GetProposal { id } => op == "get_proposal"@ && str_param(p, "id"@) == Some(id@),
        Request::ProposalDiff { id } => op == "proposal_diff"@ && str_param(p, "id"@) == Some(id@),
        Request::AcceptProposal { id, hunks } => op == "accept_proposal"@ && str_param(p, "id"@)
            == Some(id@) && opt_counts(hunks) == usize_list_param(p, "hunks"@),
        Request::RejectProposal { id, note } => op == "reject_proposal"@ && str_param(p, "id"@)
            == Some(id@) && opt_view(note) == str_param(p, "note"@),
        Request::RebaseProposal { id } => op == "rebase_proposal"@ && str_param(p, "id"@) == Some(
            id@,
        ),
        _ => false,
    }
}

/// Does a request on threads hold what was asked for?
pub open spec fn comment_asks(r: Request, caller: Caller, op: Seq<char>, p: JsonModel) -> bool {
    match r {
        Request::ListComments { filter } => op == "list_comments"@ && filter.status
            == comment_status_param(p) && opt_view(filter.path) == str_param(p, "path"@)
            && filter.limit == limit_param(p) && opt_view(filter.participant) == (if flag(
            p,
            "mine_only"@,
        ) {
            Some(caller.author@)
        } else {
            None
        }),
        Request::GetComment { comment_id } => op == "get_comment"@ && str_param(p, "comment_id"@)
            == Some(comment_id@),
        Request::CreateComment { path, selection_start, selection_end, body } => op
            == "create_comment"@ && str_param(p, "path"@) == Some(path@) && selection_start
            == usize_param(p, "selection_start"@) && selection_end == usize_param(
            p,
            "selection_end"@,
        ) && opt_view(body) == str_param(p, "body"@),
        Request::ReplyComment { comment_id, body } => op == "reply_comment"@ && str_param(
            p,
            "comment_id"@,
        ) == Some(comment_id@) && str_param(p, "body"@) == Some(body@),
        Request::ResolveComment { comment_id } => op == "resolve_comment"@ && str_param(
            p,
            "comment_id"@,
        ) == Some(comment_id@),
        Request::ReopenComment { comment_id } => op == "reopen_comment"@ && str_param(
            p,
            "comment_id"@,
        ) == Some(comment_id@),
        Request::DeleteComment { comment_id } => op == "delete_comment"@ && str_param(
            p,
            "comment_id"@,
        ) == Some(comment_id@),
        _ => false,
    }
}

/// Does a request for a view, or for housekeeping, hold what was asked for?
pub open spec fn other_asks(r: Request, op: Seq<char>, p: JsonModel) -> bool {
    match r {
        Request::Today => op == "today"@,
        Request::Status => op == "status"@,
        Request::MarkReviewed => op == "mark_reviewed"@,
        Request::TouchClient { name, mode } => op == "touch_client"@ && str_param(p, "name"@)
            == Some(name@) && opt_view(mode) == str_param(p, "mode"@),
        Request::UiStateSet { key, value } => op == "ui_state_set"@ && str_param(p, "key"@) == Some(
            key@,
        ) && opt_view(value) == str_param(p, "value"@),
        Request::UiStateGet { key } => op == "ui_state_get"@ && str_param(p, "key"@) == Some(key@),
        Request::ShowConfig => op == "config"@,
        Request::Ping => op == "ping"@,
        Request::InstrumentationStatus => op == "instrumentation_status"@,
        Request::RecordUsageEvent { session, event } => op == "record_usage_event"@ && str_param(
            p,
            "session"@,
        ) == Some(session@) && str_param(p, "event"@) == Some(event@),
        Request::SetInstrumentation { enabled } => op == "set_instrumentation"@ && bool_param(
            p,
            "enabled"@,
        ) == Some(enabled),
        Request::ExportUsageEvents => op == "export_usage_events"@,
        Request::ClearUsageEvents => op == "clear_usage_events"@,
        _ => false,
    }
}

/// Does a request hold what was asked for?
pub open spec fn asks(r: Request, caller: Caller, op: Seq<char>, p: JsonModel) -> bool {
    corpus_asks(r, op, p) || version_asks(r, op, p) || writing_asks(r, op, p) || proposal_asks(
        r,
        caller,
        op,
        p,
    ) || comment_asks(r, caller, op, p) || other_asks(r, op, p)
}

/// Is this how an operation of a shape is answered, as far as the shape goes?
pub open spec fn answers(
    shape: Option<Shape>,
    caller: Caller,
    op: Seq<char>,
    params: JsonModel,
    out: Option<Result<Request>>,
) -> bool {
    match (shape, out) {
        (None, None) => true,
        (Some(shape), Some(out)) => match shape_refusal(caller.is_human, op, params, shape) {
            Some(why) => out matches Err(e) && e@ == why,
            None => out is Ok,
        },
        _ => false,
    }
}

fn none(caller: &Caller, human: bool, op: &str, p: &Params) -> (out: Result<()>)
    ensures
        match out {
            Ok(_) => shape_refusal(
                caller.is_human,
                op@,
                p.0@,
                plain(human, seq![]),
            ) is None,
            Err(e) => shape_refusal(
                caller.is_human,
                op@,
                p.0@,
                plain(human, seq![]),
            ) == Some(e@),
        },
{
    if human {
        caller.require_human(op)
    } else {
        Ok(())
    }
}

fn one(caller: &Caller, human: bool, op: &str, p: &Params, k: &str) -> (out: Result<String>)
    ensures
        match out {
            Ok(a) => shape_refusal(
                caller.is_human,
                op@,
                p.0@,
                plain(human, seq![k@]),
            ) is None && str_param(p.0@, k@) == Some(a@),
            Err(e) => shape_refusal(
                caller.is_human,
                op@,
                p.0@,
                plain(human, seq![k@]),
            ) == Some(e@),
        },
{
    proof {
        reveal_with_fuel(first_missing, 2);
    }
    match none(caller, human, op, p) {
        Ok(_) => p.req_str(k),
        Err(e) => Err(e),
    }
}

fn two(caller: &Caller, human: bool, op: &str, p: &Params, k: &str, l: &str) -> (out: Result<
    (String, String),
>)
    ensures
        match out {
            Ok((a, b)) => shape_refusal(
                caller.is_human,
                op@,
                p.0@,
                plain(human, seq![k@, l@]),
            ) is None && str_param(p.0@, k@) == Some(a@) && str_param(p.0@, l@) == Some(b@),
            Err(e) => shape_refusal(
                caller.is_human,
                op@,
                p.0@,
                plain(human, seq![k@, l@]),
            ) == Some(e@),
        },
{
    proof {
        reveal_with_fuel(first_missing, 3);
        assert(seq![k@, l@].skip(1) =~= seq![l@]);
    }
    match one(caller, human, op, p, k) {
        Ok(a) => match p.req_str(l) {
            Ok(b) => Ok((a, b)),
            Err(e) => Err(e),
        },
        Err(e) => Err(e),
    }
}

fn three(caller: &Caller, human: bool, op: &str, p: &Params, k: &str, l: &str, m: &str) -> (out:
    Result<(String, String, String)>)
    ensures
        match out {
            Ok((a, b, c)) => shape_refusal(
                caller.is_human,
                op@,
                p.0@,
                plain(human, seq![k@, l@, m@]),
            ) is None && str_param(p.0@, k@) == Some(a@) && str_param(p.0@, l@) == Some(b@)
                && str_param(p.0@, m@) == Some(c@),
            Err(e) => shape_refusal(
                caller.is_human,
                op@,
                p.0@,
                plain(human, seq![k@, l@, m@]),
            ) == Some(e@),
        },
{
    proof {
        reveal_with_fuel(first_missing, 4);
        assert(seq![k@, l@, m@].skip(1) =~= seq![l@, m@]);
        assert(seq![l@, m@].skip(1) =~= seq![m@]);
        assert(seq![k@, l@].skip(1) =~= seq![l@]);
    }
    match two(caller, human, op, p, k, l) {
        Ok((a, b)) => match p.req_str(m) {
            Ok(c) => Ok((a, b, c)),
            Err(e) => Err(e),
        },
        Err(e) => Err(e),
    }
}

fn is_set(p: &Params, key: &str) -> (out: bool)
    ensures
        out == flag(p.0@, key@),
{
    match p.opt_bool(key) {
        Some(b) => b,
        None => false,
    }
}

fn opt_type(p: &Params) -> (out: Option<ArtifactType>)
    ensures
        out == type_param(p.0@, "type"@),
{
    match p.opt_str("type") {
        Some(t) => Some(ArtifactType::parse(t.as_str())),
        None => None,
    }
}

fn or_else(a: Option<String>, b: Option<String>) -> (out: Option<String>)
    ensures
        opt_view(out) == first_of(opt_view(a), opt_view(b)),
{
    match a {
        Some(s) => Some(s),
        None => b,
    }
}

fn count_or(p: &Params, key: &str, default: usize) -> (out: usize)
    ensures
        out == (match usize_param(p.0@, key@) {
            Some(n) => n,
            None => default,
        }),
{
    match p.opt_usize(key) {
        Some(n) => n,
        None => default,
    }
}

fn left_out(key: &str) -> (out: Error)
    ensures
        out@ == missing(key@),
{
    let mut m = "`".to_owned();
    m.append(key);
    m.append("` is required");
    Error::Invalid(m)
}

/// A request on roots and documents.
fn corpus_request(caller: &Caller, op: &str, p: &Params) -> (out: Option<Result<Request>>)
    ensures
        answers(corpus_shape(op@), *caller, op@, p.0@, out),
        out matches Some(Ok(r)) ==> corpus_asks(r, op@, p.0@),
        out matches Some(Ok(r)) ==> !turned_away(r, *caller),
{
    if same_str(op, "list_roots") {
        Some(
            match none(caller, false, op, p) {
                Ok(_) => Ok(Request::ListRoots),
                Err(e) => Err(e),
            },
        )
    } else if same_str(op, "add_root") {
        Some(
            match one(caller, false, op, p, "path") {
                Ok(a) => {
                    let policy = match p.opt_str("policy") {
                        Some(s) => Policy::parse(s.as_str()),
                        None => Policy::Auto,
                    };
                    Ok(Request::AddRoot { path: a, policy: policy, label: p.opt_str("label") })
                },
                Err(e) => Err(e),
            },
        )
    } else if same_str(op, "remove_root") {
        Some(
            match one(caller, true, op, p, "id") {
                Ok(a) => Ok(Request::RemoveRoot { id: a }),
                Err(e) => Err(e),
            },
        )
    } else if same_str(op, "set_root_policy") {
        Some(
            match two(caller, true, op, p, "id", "policy") {
                Ok((a, b)) => Ok(Request::SetRootPolicy { id: a, policy: Policy::parse(b.as_str()) }),
                Err(e) => Err(e),
            },
        )
    } else if same_str(op, "set_path_policy") {
        Some(
            match three(caller, true, op, p, "root_id", "pattern", "policy") {
                Ok((a, b, c)) => Ok(
                    Request::SetPathPolicy {
                        root_id: a,
                        pattern: b,
                        policy: Policy::parse(c.as_str()),
                    },
                ),
                Err(e) => Err(e),
            },
        )
    } else if same_str(op, "remove_path_policy") {
        Some(
            match one(caller, true, op, p, "id") {
                Ok(a) => Ok(Request::RemovePathPolicy { id: a }),
                Err(e) => Err(e),
            },
        )
    } else if same_str(op, "list_path_policies") {
        Some(
            match one(caller, false, op, p, "root_id") {
                Ok(a) => Ok(Request::ListPathPolicies { root_id: a }),
                Err(e) => Err(e),
            },
        )
    } else if same_str(op, "index_root") {
        Some(
            match one(caller, false, op, p, "id") {
                Ok(a) => Ok(Request::IndexRoot { id: a }),
                Err(e) => Err(e),
            },
        )
    } else if same_str(op, "index_all") {
        Some(
            match none(caller, false, op, p) {
                Ok(_) => Ok(Request::IndexAll),
                Err(e) => Err(e),
            },
        )
    } else if same_str(op, "list_docs") {
        Some(
            match none(caller, false, op, p) {
                Ok(_) => Ok(Request::ListDocs { root: p.opt_str("root"), ty: opt_type(p) }),
                Err(e) => Err(e),
            },
        )
    } else if same_str(op, "read_doc") {
        Some(
            match one(caller, false, op, p, "path") {
                Ok(a) => Ok(Request::ReadDoc { path: a }),
                Err(e) => Err(e),
            },
        )
    } else if same_str(op, "create_doc") {
        Some(
            match one(caller, true, op, p, "path") {
                Ok(a) => Ok(Request::CreateDoc { path: a, content: p.opt_text("content") }),
                Err(e) => Err(e),
            },
        )
    } else if same_str(op, "save_doc") {
        Some(
            match one(caller, true, op, p, "path") {
                Ok(a) => Ok(
                    Request::SaveDoc {
                        path: a,
                        content: p.opt_text("content"),
                        message: p.opt_str("message"),
                    },
                ),
                Err(e) => Err(e),
            },
        )
    } else if same_str(op, "search_docs") {
        Some(
            match one(caller, false, op, p, "query") {
                Ok(a) => {
                    let base: Query = Default::default();
                    let query = Query {
                        pattern: a,
                        regex: is_set(p, "regex"),
                        glob: p.opt_str("glob"),
                        case_sensitive: is_set(p, "case_sensitive"),
                        max_results: count_or(p, "max_results", 200),
                        max_file_bytes: base.max_file_bytes,
                    };
                    Ok(Request::SearchDocs { query: query })
                },
                Err(e) => Err(e),
            },
        )
    } else {
        None
    }
}

/// A request on history.
fn version_request(caller: &Caller, op: &str, p: &Params) -> (out: Option<Result<Request>>)
    ensures
        answers(version_shape(op@), *caller, op@, p.0@, out),
        out matches Some(Ok(r)) ==> version_asks(r, op@, p.0@),
        out matches Some(Ok(r)) ==> !turned_away(r, *caller),
{
    if same_str(op, "list_versions") {
        Some(
            match one(caller, false, op, p, "path") {
                Ok(a) => Ok(Request::ListVersions { path: a, limit: count_or(p, "limit", 200) }),
                Err(e) => Err(e),
            },
        )
    } else if same_str(op, "read_version") {
        Some(
            match one(caller, false, op, p, "path") {
                Ok(a) => {
                    let reference = or_else(p.opt_str("version_id"), p.opt_str("version"));
                    Ok(Request::ReadVersion { path: a, reference: reference })
                },
                Err(e) => Err(e),
            },
        )
    } else if same_str(op, "diff_versions") {
        Some(
            match one(caller, false, op, p, "path") {
                Ok(a) => Ok(
                    Request::DiffVersions {
                        path: a,
                        from: p.opt_str("from"),
                        to: p.opt_str("to"),
                    },
                ),
                Err(e) => Err(e),
            },
        )
    } else if same_str(op, "checkpoint") {
        Some(
            match one(caller, false, op, p, "path") {
                Ok(a) => Ok(Request::Checkpoint { path: a, message: p.opt_str("message") }),
                Err(e) => Err(e),
            },
        )
    } else if same_str(op, "restore_version") {
        Some(
            match one(caller, true, op, p, "path") {
                Ok(a) => Ok(Request::RestoreVersion { path: a, version_id: p.opt_str("version_id") }),
                Err(e) => Err(e),
            },
        )
    } else if same_str(op, "export_history") {
        Some(
            match one(caller, false, op, p, "path") {
                Ok(a) => Ok(Request::ExportHistory { path: a }),
                Err(e) => Err(e),
            },
        )
    } else {
        None
    }
}

/// A request to write, or on what an artifact is.
fn writing_request(caller: &Caller, op: &str, p: &Params) -> (out: Option<Result<Request>>)
    ensures
        answers(writing_shape(op@), *caller, op@, p.0@, out),
        out matches Some(Ok(r)) ==> writing_asks(r, op@, p.0@),
        out matches Some(Ok(r)) ==> !turned_away(r, *caller),
{
    if same_str(op, "propose_edit") {
        Some(
            match one(caller, false, op, p, "path") {
                Ok(a) => {
                    let intent = or_else(p.opt_str("intent"), p.opt_str("message"));
                    Ok(
                        Request::ProposeEdit {
                            path: a,
                            content: p.opt_text("content"),
                            patch: p.opt_text("patch"),
                            base_version: p.opt_str("base_version"),
                            intent: intent,
                            addressing: p.opt_str("addressing"),
                        },
                    )
                },
                Err(e) => Err(e),
            },
        )
    } else if same_str(op, "task_list") {
        Some(
            match none(caller, false, op, p) {
                Ok(_) => {
                    let filter = Filter {
                        owner: p.opt_str("owner"),
                        tag: p.opt_str("tag"),
                        open_only: is_set(p, "open_only"),
                        query: p.opt_str("query"),
                    };
                    Ok(Request::TaskList { doc: p.opt_str("doc"), filter: filter })
                },
                Err(e) => Err(e),
            },
        )
    } else if same_str(op, "task_add") {
        Some(
            match one(caller, false, op, p, "doc") {
                Ok(a) => {
                    let tags = match p.opt_str_list("tag") {
                        Some(t) => Some(t),
                        None => p.opt_str_list("tags"),
                    };
                    Ok(
                        Request::TaskAdd {
                            doc: a,
                            text: p.opt_str("text"),
                            owner: p.opt_str("owner"),
                            tags: tags,
                            message: p.opt_str("message"),
                        },
                    )
                },
                Err(e) => Err(e),
            },
        )
    } else if same_str(op, "task_set_status") {
        Some(
            match one(caller, false, op, p, "doc") {
                Ok(a) => Ok(
                    Request::TaskSetStatus {
                        doc: a,
                        task_id: p.opt_str("task_id"),
                        version: p.opt_str("version"),
                        status: p.opt_str("status"),
                        text: p.opt_str("text"),
                    },
                ),
                Err(e) => Err(e),
            },
        )
    } else if same_str(op, "validate_doc") {
        Some(
            match one(caller, false, op, p, "path") {
                Ok(a) => Ok(Request::ValidateDoc { path: a }),
                Err(e) => Err(e),
            },
        )
    } else if same_str(op, "validate_all") {
        Some(
            match none(caller, false, op, p) {
                Ok(_) => {
                    let ty = match opt_type(p) {
                        Some(t) => t,
                        None => ArtifactType::Skill,
                    };
                    Ok(Request::ValidateAll { ty: ty })
                },
                Err(e) => Err(e),
            },
        )
    } else if same_str(op, "render_prompt") {
        Some(
            match one(caller, false, op, p, "path") {
                Ok(a) => {
                    let variables = match p.0.get("variables") {
                        Some(v) => Some(copy_json(v)),
                        None => None,
                    };
                    Ok(Request::RenderPrompt { path: a, variables: variables })
                },
                Err(e) => Err(e),
            },
        )
    } else {
        None
    }
}

/// A request on proposals.
fn proposal_request(caller: &Caller, op: &str, p: &Params) -> (out: Option<Result<Request>>)
    ensures
        answers(proposal_shape(op@), *caller, op@, p.0@, out),
        out matches Some(Ok(r)) ==> proposal_asks(r, *caller, op@, p.0@),
        out matches Some(Ok(r)) ==> !turned_away(r, *caller),
{
    if same_str(op, "list_proposals") {
        Some(
            match none(caller, false, op, p) {
                Ok(_) => {
                    let status = match p.opt_str("status") {
                        Some(s) => proposal::Status::parse(s.as_str()),
                        None => None,
                    };
                    let mine = if is_set(p, "mine_only") {
                        Some(caller.client.clone())
                    } else {
                        None
                    };
                    let filter = proposal::ListFilter {
                        status: status,
                        path: p.opt_str("path"),
                        client: or_else(p.opt_str("client"), mine),
                        limit: count_or(p, "limit", 0),
                    };
                    Ok(Request::ListProposals { filter: filter })
                },
                Err(e) => Err(e),
            },
        )
    } else if same_str(op, "get_proposal") {
        Some(
            match one(caller, false, op, p, "id") {
                Ok(a) => Ok(Request::GetProposal { id: a }),
                Err(e) => Err(e),
            },
        )
    } else if same_str(op, "proposal_diff") {
        Some(
            match one(caller, false, op, p, "id") {
                Ok(a) => Ok(Request::ProposalDiff { id: a }),
                Err(e) => Err(e),
            },
        )
    } else if same_str(op, "accept_proposal") {
        Some(
            match one(caller, true, op, p, "id") {
                Ok(a) => Ok(Request::AcceptProposal { id: a, hunks: p.opt_usize_list("hunks") }),
                Err(e) => Err(e),
            },
        )
    } else if same_str(op, "reject_proposal") {
        Some(
            match one(caller, true, op, p, "id") {
                Ok(a) => Ok(Request::RejectProposal { id: a, note: p.opt_str("note") }),
                Err(e) => Err(e),
            },
        )
    } else if same_str(op, "rebase_proposal") {
        Some(
            match one(caller, true, op, p, "id") {
                Ok(a) => Ok(Request::RebaseProposal { id: a }),
                Err(e) => Err(e),
            },
        )
    } else {
        None
    }
}

/// A request on threads.
fn comment_request(caller: &Caller, op: &str, p: &Params) -> (out: Option<Result<Request>>)
    ensures
        answers(comment_shape(op@), *caller, op@, p.0@, out),
        out matches Some(Ok(r)) ==> comment_asks(r, *caller, op@, p.0@),
        out matches Some(Ok(r)) ==> !turned_away(r, *caller),
{
    if same_str(op, "list_comments") {
        Some(
            match none(caller, false, op, p) {
                Ok(_) => {
                    let status = match p.opt_str("status") {
                        Some(s) => comment::Status::parse(s.as_str()),
                        None => None,
                    };
                    let participant = if is_set(p, "mine_only") {
                        Some(caller.author.clone())
                    } else {
                        None
                    };
                    let filter = comment::ListFilter {
                        path: p.opt_str("path"),
                        status: status,
                        participant: participant,
                        limit: count_or(p, "limit", 0),
                    };
                    Ok(Request::ListComments { filter: filter })
                },
                Err(e) => Err(e),
            },
        )
    } else if same_str(op, "get_comment") {
        Some(
            match one(caller, false, op, p, "comment_id") {
                Ok(a) => Ok(Request::GetComment { comment_id: a }),
                Err(e) => Err(e),
            },
        )
    } else if same_str(op, "create_comment") {
        Some(
            match one(caller, true, op, p, "path") {
                Ok(a) => Ok(
                    Request::CreateComment {
                        path: a,
                        selection_start: p.opt_usize("selection_start"),
                        selection_end: p.opt_usize("selection_end"),
                        body: p.opt_str("body"),
                    },
                ),
                Err(e) => Err(e),
            },
        )
    } else if same_str(op, "reply_comment") {
        Some(
            match two(caller, false, op, p, "comment_id", "body") {
                Ok((a, b)) => Ok(Request::ReplyComment { comment_id: a, body: b }),
                Err(e) => Err(e),
            },
        )
    } else if same_str(op, "resolve_comment") {
        Some(
            match one(caller, true, op, p, "comment_id") {
                Ok(a) => Ok(Request::ResolveComment { comment_id: a }),
                Err(e) => Err(e),
            },
        )
    } else if same_str(op, "reopen_comment") {
        Some(
            match one(caller, true, op, p, "comment_id") {
                Ok(a) => Ok(Request::ReopenComment { comment_id: a }),
                Err(e) => Err(e),
            },
        )
    } else if same_str(op, "delete_comment") {
        Some(
            match one(caller, true, op, p, "comment_id") {
                Ok(a) => Ok(Request::DeleteComment { comment_id: a }),
                Err(e) => Err(e),
            },
        )
    } else {
        None
    }
}

/// A request for a view, or for housekeeping.
fn other_request(caller: &Caller, op: &str, p: &Params) -> (out: Option<Result<Request>>)
    ensures
        answers(other_shape(op@), *caller, op@, p.0@, out),
        out matches Some(Ok(r)) ==> other_asks(r, op@, p.0@),
        out matches Some(Ok(r)) ==> !turned_away(r, *caller),
{
    if same_str(op, "today") {
        Some(
            match none(caller, false, op, p) {
                Ok(_) => Ok(Request::Today),
                Err(e) => Err(e),
            },
        )
    } else if same_str(op, "status") {
        Some(
            match none(caller, false, op, p) {
                Ok(_) => Ok(Request::Status),
                Err(e) => Err(e),
            },
        )
    } else if same_str(op, "mark_reviewed") {
        Some(
            match none(caller, true, op, p) {
                Ok(_) => Ok(Request::MarkReviewed),
                Err(e) => Err(e),
            },
        )
    } else if same_str(op, "start_watching") {
        Some(
            match none(caller, true, op, p) {
                Ok(_) => Err(
                    Error::UnknownOp(
                        "start_watching is driven by the app shell, not by dispatch".to_owned(),
                    ),
                ),
                Err(e) => Err(e),
            },
        )
    } else if same_str(op, "touch_client") {
        Some(
            match one(caller, false, op, p, "name") {
                Ok(a) => Ok(Request::TouchClient { name: a, mode: p.opt_str("mode") }),
                Err(e) => Err(e),
            },
        )
    } else if same_str(op, "ui_state_set") {
        Some(
            match one(caller, true, op, p, "key") {
                Ok(a) => Ok(Request::UiStateSet { key: a, value: p.opt_str("value") }),
                Err(e) => Err(e),
            },
        )
    } else if same_str(op, "ui_state_get") {
        Some(
            match one(caller, false, op, p, "key") {
                Ok(a) => Ok(Request::UiStateGet { key: a }),
                Err(e) => Err(e),
            },
        )
    } else if same_str(op, "config") {
        Some(
            match none(caller, false, op, p) {
                Ok(_) => Ok(Request::ShowConfig),
                Err(e) => Err(e),
            },
        )
    } else if same_str(op, "ping") {
        Some(
            match none(caller, false, op, p) {
                Ok(_) => Ok(Request::Ping),
                Err(e) => Err(e),
            },
        )
    } else if same_str(op, "instrumentation_status") {
        Some(
            match none(caller, false, op, p) {
                Ok(_) => Ok(Request::InstrumentationStatus),
                Err(e) => Err(e),
            },
        )
    } else if same_str(op, "record_usage_event") {
        Some(
            match two(caller, false, op, p, "session", "event") {
                Ok((a, b)) => Ok(Request::RecordUsageEvent { session: a, event: b }),
                Err(e) => Err(e),
            },
        )
    } else if same_str(op, "set_instrumentation") {
        Some(
            match none(caller, true, op, p) {
                Ok(_) => match p.opt_bool("enabled") {
                    Some(on) => Ok(Request::SetInstrumentation { enabled: on }),
                    None => Err(left_out("enabled")),
                },
                Err(e) => Err(e),
            },
        )
    } else if same_str(op, "export_usage_events") {
        Some(
            match none(caller, true, op, p) {
                Ok(_) => Ok(Request::ExportUsageEvents),
                Err(e) => Err(e),
            },
        )
    } else if same_str(op, "clear_usage_events") {
        Some(
            match none(caller, true, op, p) {
                Ok(_) => Ok(Request::ClearUsageEvents),
                Err(e) => Err(e),
            },
        )
    } else {
        None
    }
}

/// What a caller asks for, or why it is turned down: an unknown operation, one
/// that only the human user may ask for, or a parameter that is left out.
pub fn request(caller: &Caller, op: &str, params: &Json) -> (out: Result<Request>)
    ensures
        match out {
            Ok(r) => request_refusal(caller.is_human, op@, params@) is None && asks(
                r,
                *caller,
                op@,
                params@,
            ) && !turned_away(r, *caller),
            Err(e) => request_refusal(caller.is_human, op@, params@) == Some(e@),
        },
{
    let p = Params(params);
    if let Some(out) = corpus_request(caller, op, &p) {
        return out;
    }
    if let Some(out) = version_request(caller, op, &p) {
        return out;
    }
    if let Some(out) = writing_request(caller, op, &p) {
        return out;
    }
    if let Some(out) = proposal_request(caller, op, &p) {
        return out;
    }
    if let Some(out) = comment_request(caller, op, &p) {
        return out;
    }
    if let Some(out) = other_request(caller, op, &p) {
        return out;
    }
    Err(Error::UnknownOp(op.to_owned()))
}

/// Only a human decides: whatever an agent passes along, an operation that is
/// for humans turns it away, naming the operation.
pub proof fn law_agents_never_decide(op: Seq<char>, params: JsonModel)
    requires
        shape_of(op) matches Some(shape) && shape.human,
    ensures
        request_refusal(false, op, params) == Some(denied(op)),
{
}

/// Reading is for everybody: what an operation that is open to all answers to
/// the human user it answers to an agent.
pub proof fn law_open_operations_treat_all_alike(op: Seq<char>, params: JsonModel)
    requires
        shape_of(op) matches Some(shape) ==> !shape.human,
    ensures
        request_refusal(false, op, params) == request_refusal(true, op, params),
{
}

// ---------------------------------------------------------------------------
// Who may do what
// ---------------------------------------------------------------------------

/// The operations by which something is decided: what becomes of a proposal or
/// a thread, and what a document holds without a proposal.
pub open spec fn decisions() -> Seq<Seq<char>> {
    seq![
        "save_doc"@,
        "restore_version"@,
        "accept_proposal"@,
        "reject_proposal"@,
        "rebase_proposal"@,
        "resolve_comment"@,
        "delete_comment"@,
    ]
}

proof fn lemma_save_doc_is_for_humans()
    ensures
        shape_of("save_doc"@) matches Some(s) && s.human,
{
    reveal_strlit("save_doc");
    reveal_strlit("list_roots");
    reveal_strlit("add_root");
    reveal_strlit("remove_root");
    reveal_strlit("set_root_policy");
    reveal_strlit("set_path_policy");
    reveal_strlit("remove_path_policy");
    reveal_strlit("list_path_policies");
    reveal_strlit("index_root");
    reveal_strlit("index_all");
    reveal_strlit("list_docs");
    reveal_strlit("read_doc");
    reveal_strlit("create_doc");
    assert("list_roots"@.len() != "save_doc"@.len());
    assert("add_root"@[0] != "save_doc"@[0]);
    assert("remove_root"@.len() != "save_doc"@.len());
    assert("set_root_policy"@.len() != "save_doc"@.len());
    assert("set_path_policy"@.len() != "save_doc"@.len());
    assert("remove_path_policy"@.len() != "save_doc"@.len());
    assert("list_path_policies"@.len() != "save_doc"@.len());
    assert("index_root"@.len() != "save_doc"@.len());
    assert("index_all"@.len() != "save_doc"@.len());
    assert("list_docs"@.len() != "save_doc"@.len());
    assert("read_doc"@[0] != "save_doc"@[0]);
    assert("create_doc"@.len() != "save_doc"@.len());
}

proof fn lemma_restore_version_is_for_humans()
    ensures
        shape_of("restore_version"@) matches Some(s) && s.human,
{
    reveal_strlit("restore_version");
    reveal_strlit("list_roots");
    reveal_strlit("add_root");
    reveal_strlit("remove_root");
    reveal_strlit("set_root_policy");
    reveal_strlit("set_path_policy");
    reveal_strlit("remove_path_policy");
    reveal_strlit("list_path_policies");
    reveal_strlit("index_root");
    reveal_strlit("index_all");
    reveal_strlit("list_docs");
    reveal_strlit("read_doc");
    reveal_strlit("create_doc");
    reveal_strlit("save_doc");
    reveal_strlit("search_docs");
    reveal_strlit("list_versions");
    reveal_strlit("read_version");
    reveal_strlit("diff_versions");
    reveal_strlit("checkpoint");
    assert("list_roots"@.len() != "restore_version"@.len());
    assert("add_root"@.len() != "restore_version"@.len());
    assert("remove_root"@.len() != "restore_version"@.len());
    assert("set_root_policy"@[0] != "restore_version"@[0]);
    assert("set_path_policy"@[0] != "restore_version"@[0]);
    assert("remove_path_policy"@.len() != "restore_version"@.len());
    assert("list_path_policies"@.len() != "restore_version"@.len());
    assert("index_root"@.len() != "restore_version"@.len());
    assert("index_all"@.len() != "restore_version"@.len());
    assert("list_docs"@.len() != "restore_version"@.len());
    assert("read_doc"@.len() != "restore_version"@.len());
    assert("create_doc"@.len() != "restore_version"@.len());
    assert("save_doc"@.len() != "restore_version"@.len());
    assert("search_docs"@.len() != "restore_version"@.len());
    assert("list_versions"@.len() != "restore_version"@.len());
    assert("read_version"@.len() != "restore_version"@.len());
    assert("diff_versions"@.len() != "restore_version"@.len());
    assert("checkpoint"@.len() != "restore_version"@.len());
}

proof fn lemma_accept_proposal_is_for_humans()
    ensures
        shape_of("accept_proposal"@) matches Some(s) && s.human,
{
    reveal_strlit("accept_proposal");
    reveal_strlit("list_roots");
    reveal_strlit("add_root");
    reveal_strlit("remove_root");
    reveal_strlit("set_root_policy");
    reveal_strlit("set_path_policy");
    reveal_strlit("remove_path_policy");
    reveal_strlit("list_path_policies");
    reveal_strlit("index_root");
    reveal_strlit("index_all");
    reveal_strlit("list_docs");
    reveal_strlit("read_doc");
    reveal_strlit("create_doc");
    reveal_strlit("save_doc");
    reveal_strlit("search_docs");
    reveal_strlit("list_versions");
    reveal_strlit("read_version");
    reveal_strlit("diff_versions");
    reveal_strlit("checkpoint");
    reveal_strlit("restore_version");
    reveal_strlit("export_history");
    reveal_strlit("propose_edit");
    reveal_strlit("task_list");
    reveal_strlit("task_add");
    reveal_strlit("task_set_status");
    reveal_strlit("validate_doc");
    reveal_strlit("validate_all");
    reveal_strlit("render_prompt");
    reveal_strlit("list_proposals");
    reveal_strlit("get_proposal");
    reveal_strlit("proposal_diff");
    assert("list_roots"@.len() != "accept_proposal"@.len());
    assert("add_root"@.len() != "accept_proposal"@.len());
    assert("remove_root"@.len() != "accept_proposal"@.len());
    assert("set_root_policy"@[0] != "accept_proposal"@[0]);
    assert("set_path_policy"@[0] != "accept_proposal"@[0]);
    assert("remove_path_policy"@.len() != "accept_proposal"@.len());
    assert("list_path_policies"@.len() != "accept_proposal"@.len());
    assert("index_root"@.len() != "accept_proposal"@.len());
    assert("index_all"@.len() != "accept_proposal"@.len());
    assert("list_docs"@.len() != "accept_proposal"@.len());
    assert("read_doc"@.len() != "accept_proposal"@.len());
    assert("create_doc"@.len() != "accept_proposal"@.len());
    assert("save_doc"@.len() != "accept_proposal"@.len());
    assert("search_docs"@.len() != "accept_proposal"@.len());
    assert("list_versions"@.len() != "accept_proposal"@.len());
    assert("read_version"@.len() != "accept_proposal"@.len());
    assert("diff_versions"@.len() != "accept_proposal"@.len());
    assert("checkpoint"@.len() != "accept_proposal"@.len());
    assert("restore_version"@[0] != "accept_proposal"@[0]);
    assert("export_history"@.len() != "accept_proposal"@.len());
    assert("propose_edit"@.len() != "accept_proposal"@.len());
    assert("task_list"@.len() != "accept_proposal"@.len());
    assert("task_add"@.len() != "accept_proposal"@.len());
    assert("task_set_status"@[0] != "accept_proposal"@[0]);
    assert("validate_doc"@.len() != "accept_proposal"@.len());
    assert("validate_all"@.len() != "accept_proposal"@.len());
    assert("render_prompt"@.len() != "accept_proposal"@.len());
    assert("list_proposals"@.len() != "accept_proposal"@.len());
    assert("get_proposal"@.len() != "accept_proposal"@.len());
    assert("proposal_diff"@.len() != "accept_proposal"@.len());
}

proof fn lemma_reject_proposal_is_for_humans()
    ensures
        shape_of("reject_proposal"@) matches Some(s) && s.human,
{
    reveal_strlit("reject_proposal");
    reveal_strlit("list_roots");
    reveal_strlit("add_root");
    reveal_strlit("remove_root");
    reveal_strlit("set_root_policy");
    reveal_strlit("set_path_policy");
    reveal_strlit("remove_path_policy");
    reveal_strlit("list_path_policies");
    reveal_strlit("index_root");
    reveal_strlit("index_all");
    reveal_strlit("list_docs");
    reveal_strlit("read_doc");
    reveal_strlit("create_doc");
    reveal_strlit("save_doc");
    reveal_strlit("search_docs");
    reveal_strlit("list_versions");
    reveal_strlit("read_version");
    reveal_strlit("diff_versions");
    reveal_strlit("checkpoint");
    reveal_strlit("restore_version");
    reveal_strlit("export_history");
    reveal_strlit("propose_edit");
    reveal_strlit("task_list");
    reveal_strlit("task_add");
    reveal_strlit("task_set_status");
    reveal_strlit("validate_doc");
    reveal_strlit("validate_all");
    reveal_strlit("render_prompt");
    reveal_strlit("list_proposals");
    reveal_strlit("get_proposal");
    reveal_strlit("proposal_diff");
    reveal_strlit("accept_proposal");
    assert("list_roots"@.len() != "reject_proposal"@.len());
    assert("add_root"@.len() != "reject_proposal"@.len());
    assert("remove_root"@.len() != "reject_proposal"@.len());
    assert("set_root_policy"@[0] != "reject_proposal"@[0]);
    assert("set_path_policy"@[0] != "reject_proposal"@[0]);
    assert("remove_path_policy"@.len() != "reject_proposal"@.len());
    assert("list_path_policies"@.len() != "reject_proposal"@.len());
    assert("index_root"@.len() != "reject_proposal"@.len());
    assert("index_all"@.len() != "reject_proposal"@.len());
    assert("list_docs"@.len() != "reject_proposal"@.len());
    assert("read_doc"@.len() != "reject_proposal"@.len());
    assert("create_doc"@.len() != "reject_proposal"@.len());
    assert("save_doc"@.len() != "reject_proposal"@.len());
    assert("search_docs"@.len() != "reject_proposal"@.len());
    assert("list_versions"@.len() != "reject_proposal"@.len());
    assert("read_version"@.len() != "reject_proposal"@.len());
    assert("diff_versions"@.len() != "reject_proposal"@.len());
    assert("checkpoint"@.len() != "reject_proposal"@.len());
    assert("restore_version"@[2] != "reject_proposal"@[2]);
    assert("export_history"@.len() != "reject_proposal"@.len());
    assert("propose_edit"@.len() != "reject_proposal"@.len());
    assert("task_list"@.len() != "reject_proposal"@.len());
    assert("task_add"@.len() != "reject_proposal"@.len());
    assert("task_set_status"@[0] != "reject_proposal"@[0]);
    assert("validate_doc"@.len() != "reject_proposal"@.len());
    assert("validate_all"@.len() != "reject_proposal"@.len());
    assert("render_prompt"@.len() != "reject_proposal"@.len());
    assert("list_proposals"@.len() != "reject_proposal"@.len());
    assert("get_proposal"@.len() != "reject_proposal"@.len());
    assert("proposal_diff"@.len() != "reject_proposal"@.len());
    assert("accept_proposal"@[0] != "reject_proposal"@[0]);
}

proof fn lemma_rebase_proposal_is_for_humans()
    ensures
        shape_of("rebase_proposal"@) matches Some(s) && s.human,
{
    reveal_strlit("rebase_proposal");
    reveal_strlit("list_roots");
    reveal_strlit("add_root");
    reveal_strlit("remove_root");
    reveal_strlit("set_root_policy");
    reveal_strlit("set_path_policy");
    reveal_strlit("remove_path_policy");
    reveal_strlit("list_path_policies");
    reveal_strlit("index_root");
    reveal_strlit("index_all");
    reveal_strlit("list_docs");
    reveal_strlit("read_doc");
    reveal_strlit("create_doc");
    reveal_strlit("save_doc");
    reveal_strlit("search_docs");
    reveal_strlit("list_versions");
    reveal_strlit("read_version");
    reveal_strlit("diff_versions");
    reveal_strlit("checkpoint");
    reveal_strlit("restore_version");
    reveal_strlit("export_history");
    reveal_strlit("propose_edit");
    reveal_strlit("task_list");
    reveal_strlit("task_add");
    reveal_strlit("task_set_status");
    reveal_strlit("validate_doc");
    reveal_strlit("validate_all");
    reveal_strlit("render_prompt");
    reveal_strlit("list_proposals");
    reveal_strlit("get_proposal");
    reveal_strlit("proposal_diff");
    reveal_strlit("accept_proposal");
    reveal_strlit("reject_proposal");
    assert("list_roots"@.len() != "rebase_proposal"@.len());
    assert("add_root"@.len() != "rebase_proposal"@.len());
    assert("remove_root"@.len() != "rebase_proposal"@.len());
    assert("set_root_policy"@[0] != "rebase_proposal"@[0]);
    assert("set_path_policy"@[0] != "rebase_proposal"@[0]);
    assert("remove_path_policy"@.len() != "rebase_proposal"@.len());
    assert("list_path_policies"@.len() != "rebase_proposal"@.len());
    assert("index_root"@.len() != "rebase_proposal"@.len());
    assert("index_all"@.len() != "rebase_proposal"@.len());
    assert("list_docs"@.len() != "rebase_proposal"@.len());
    assert("read_doc"@.len() != "rebase_proposal"@.len());
    assert("create_doc"@.len() != "rebase_proposal"@.len());
    assert("save_doc"@.len() != "rebase_proposal"@.len());
    assert("search_docs"@.len() != "rebase_proposal"@.len());
    assert("list_versions"@.len() != "rebase_proposal"@.len());
    assert("read_version"@.len() != "rebase_proposal"@.len());
    assert("diff_versions"@.len() != "rebase_proposal"@.len());
    assert("checkpoint"@.len() != "rebase_proposal"@.len());
    assert("restore_version"@[2] != "rebase_proposal"@[2]);
    assert("export_history"@.len() != "rebase_proposal"@.len());
    assert("propose_edit"@.len() != "rebase_proposal"@.len());
    assert("task_list"@.len() != "rebase_proposal"@.len());
    assert("task_add"@.len() != "rebase_proposal"@.len());
    assert("task_set_status"@[0] != "rebase_proposal"@[0]);
    assert("validate_doc"@.len() != "rebase_proposal"@.len());
    assert("validate_all"@.len() != "rebase_proposal"@.len());
    assert("render_prompt"@.len() != "rebase_proposal"@.len());
    assert("list_proposals"@.len() != "rebase_proposal"@.len());
    assert("get_proposal"@.len() != "rebase_proposal"@.len());
    assert("proposal_diff"@.len() != "rebase_proposal"@.len());
    assert("accept_proposal"@[0] != "rebase_proposal"@[0]);
    assert("reject_proposal"@[2] != "rebase_proposal"@[2]);
}

proof fn lemma_resolve_comment_is_for_humans()
    ensures
        shape_of("resolve_comment"@) matches Some(s) && s.human,
{
    reveal_strlit("resolve_comment");
    reveal_strlit("list_roots");
    reveal_strlit("add_root");
    reveal_strlit("remove_root");
    reveal_strlit("set_root_policy");
    reveal_strlit("set_path_policy");
    reveal_strlit("remove_path_policy");
    reveal_strlit("list_path_policies");
    reveal_strlit("index_root");
    reveal_strlit("index_all");
    reveal_strlit("list_docs");
    reveal_strlit("read_doc");
    reveal_strlit("create_doc");
    reveal_strlit("save_doc");
    reveal_strlit("search_docs");
    reveal_strlit("list_versions");
    reveal_strlit("read_version");
    reveal_strlit("diff_versions");
    reveal_strlit("checkpoint");
    reveal_strlit("restore_version");
    reveal_strlit("export_history");
    reveal_strlit("propose_edit");
    reveal_strlit("task_list");
    reveal_strlit("task_add");
    reveal_strlit("task_set_status");
    reveal_strlit("validate_doc");
    reveal_strlit("validate_all");
    reveal_strlit("render_prompt");
    reveal_strlit("list_proposals");
    reveal_strlit("get_proposal");
    reveal_strlit("proposal_diff");
    reveal_strlit("accept_proposal");
    reveal_strlit("reject_proposal");
    reveal_strlit("rebase_proposal");
    reveal_strlit("list_comments");
    reveal_strlit("get_comment");
    reveal_strlit("create_comment");
    reveal_strlit("reply_comment");
    assert("list_roots"@.len() != "resolve_comment"@.len());
    assert("add_root"@.len() != "resolve_comment"@.len());
    assert("remove_root"@.len() != "resolve_comment"@.len());
    assert("set_root_policy"@[0] != "resolve_comment"@[0]);
    assert("set_path_policy"@[0] != "resolve_comment"@[0]);
    assert("remove_path_policy"@.len() != "resolve_comment"@.len());
    assert("list_path_policies"@.len() != "resolve_comment"@.len());
    assert("index_root"@.len() != "resolve_comment"@.len());
    assert("index_all"@.len() != "resolve_comment"@.len());
    assert("list_docs"@.len() != "resolve_comment"@.len());
    assert("read_doc"@.len() != "resolve_comment"@.len());
    assert("create_doc"@.len() != "resolve_comment"@.len());
    assert("save_doc"@.len() != "resolve_comment"@.len());
    assert("search_docs"@.len() != "resolve_comment"@.len());
    assert("list_versions"@.len() != "resolve_comment"@.len());
    assert("read_version"@.len() != "resolve_comment"@.len());
    assert("diff_versions"@.len() != "resolve_comment"@.len());
    assert("checkpoint"@.len() != "resolve_comment"@.len());
    assert("restore_version"@[3] != "resolve_comment"@[3]);
    assert("export_history"@.len() != "resolve_comment"@.len());
    assert("propose_edit"@.len() != "resolve_comment"@.len());
    assert("task_list"@.len() != "resolve_comment"@.len());
    assert("task_add"@.len() != "resolve_comment"@.len());
    assert("task_set_status"@[0] != "resolve_comment"@[0]);
    assert("validate_doc"@.len() != "resolve_comment"@.len());
    assert("validate_all"@.len() != "resolve_comment"@.len());
    assert("render_prompt"@.len() != "resolve_comment"@.len());
    assert("list_proposals"@.len() != "resolve_comment"@.len());
    assert("get_proposal"@.len() != "resolve_comment"@.len());
    assert("proposal_diff"@.len() != "resolve_comment"@.len());
    assert("accept_proposal"@[0] != "resolve_comment"@[0]);
    assert("reject_proposal"@[2] != "resolve_comment"@[2]);
    assert("rebase_proposal"@[2] != "resolve_comment"@[2]);
    assert("list_comments"@.len() != "resolve_comment"@.len());
    assert("get_comment"@.len() != "resolve_comment"@.len());
    assert("create_comment"@.len() != "resolve_comment"@.len());
    assert("reply_comment"@.len() != "resolve_comment"@.len());
}

proof fn lemma_delete_comment_is_for_humans()
    ensures
        shape_of("delete_comment"@) matches Some(s) && s.human,
{
    reveal_strlit("delete_comment");
    reveal_strlit("list_roots");
    reveal_strlit("add_root");
    reveal_strlit("remove_root");
    reveal_strlit("set_root_policy");
    reveal_strlit("set_path_policy");
    reveal_strlit("remove_path_policy");
    reveal_strlit("list_path_policies");
    reveal_strlit("index_root");
    reveal_strlit("index_all");
    reveal_strlit("list_docs");
    reveal_strlit("read_doc");
    reveal_strlit("create_doc");
    reveal_strlit("save_doc");
    reveal_strlit("search_docs");
    reveal_strlit("list_versions");
    reveal_strlit("read_version");
    reveal_strlit("diff_versions");
    reveal_strlit("checkpoint");
    reveal_strlit("restore_version");
    reveal_strlit("export_history");
    reveal_strlit("propose_edit");
    reveal_strlit("task_list");
    reveal_strlit("task_add");
    reveal_strlit("task_set_status");
    reveal_strlit("validate_doc");
    reveal_strlit("validate_all");
    reveal_strlit("render_prompt");
    reveal_strlit("list_proposals");
    reveal_strlit("get_proposal");
    reveal_strlit("proposal_diff");
    reveal_strlit("accept_proposal");
    reveal_strlit("reject_proposal");
    reveal_strlit("rebase_proposal");
    reveal_strlit("list_comments");
    reveal_strlit("get_comment");
    reveal_strlit("create_comment");
    reveal_strlit("reply_comment");
    reveal_strlit("resolve_comment");
    reveal_strlit("reopen_comment");
    assert("list_roots"@.len() != "delete_comment"@.len());
    assert("add_root"@.len() != "delete_comment"@.len());
    assert("remove_root"@.len() != "delete_comment"@.len());
    assert("set_root_policy"@.len() != "delete_comment"@.len());
    assert("set_path_policy"@.len() != "delete_comment"@.len());
    assert("remove_path_policy"@.len() != "delete_comment"@.len());
    assert("list_path_policies"@.len() != "delete_comment"@.len());
    assert("index_root"@.len() != "delete_comment"@.len());
    assert("index_all"@.len() != "delete_comment"@.len());
    assert("list_docs"@.len() != "delete_comment"@.len());
    assert("read_doc"@.len() != "delete_comment"@.len());
    assert("create_doc"@.len() != "delete_comment"@.len());
    assert("save_doc"@.len() != "delete_comment"@.len());
    assert("search_docs"@.len() != "delete_comment"@.len());
    assert("list_versions"@.len() != "delete_comment"@.len());
    assert("read_version"@.len() != "delete_comment"@.len());
    assert("diff_versions"@.len() != "delete_comment"@.len());
    assert("checkpoint"@.len() != "delete_comment"@.len());
    assert("restore_version"@.len() != "delete_comment"@.len());
    assert("export_history"@[0] != "delete_comment"@[0]);
    assert("propose_edit"@.len() != "delete_comment"@.len());
    assert("task_list"@.len() != "delete_comment"@.len());
    assert("task_add"@.len() != "delete_comment"@.len());
    assert("task_set_status"@.len() != "delete_comment"@.len());
    assert("validate_doc"@.len() != "delete_comment"@.len());
    assert("validate_all"@.len() != "delete_comment"@.len());
    assert("render_prompt"@.len() != "delete_comment"@.len());
    assert("list_proposals"@[0] != "delete_comment"@[0]);
    assert("get_proposal"@.len() != "delete_comment"@.len());
    assert("proposal_diff"@.len() != "delete_comment"@.len());
    assert("accept_proposal"@.len() != "delete_comment"@.len());
    assert("reject_proposal"@.len() != "delete_comment"@.len());
    assert("rebase_proposal"@.len() != "delete_comment"@.len());
    assert("list_comments"@.len() != "delete_comment"@.len());
    assert("get_comment"@.len() != "delete_comment"@.len());
    assert("create_comment"@[0] != "delete_comment"@[0]);
    assert("reply_comment"@.len() != "delete_comment"@.len());
    assert("resolve_comment"@.len() != "delete_comment"@.len());
    assert("reopen_comment"@[0] != "delete_comment"@[0]);
}

/// Decisions stay with the human user: whatever an agent passes along, each of
/// these operations turns it away.
pub proof fn law_decisions_are_for_humans(i: int, params: JsonModel)
    requires
        0 <= i < decisions().len(),
    ensures
        request_refusal(false, decisions()[i], params) == Some(denied(decisions()[i])),
{
    lemma_save_doc_is_for_humans();
    lemma_restore_version_is_for_humans();
    lemma_accept_proposal_is_for_humans();
    lemma_reject_proposal_is_for_humans();
    lemma_rebase_proposal_is_for_humans();
    lemma_resolve_comment_is_for_humans();
    lemma_delete_comment_is_for_humans();
}

} // verus!
