//! The tools, one by one.

use super::schema::{prop_models, Kind, KindModel, Prop, PropModel, ToolDef, ToolModel, tool_models};
use super::wording::{
    ADD_ROOT, ADD_ROOT_LABEL, ADD_ROOT_PATH, ADD_ROOT_POLICY, AUTHOR_DOC, CHECKPOINT,
    CHECKPOINT_MESSAGE, DIFF_VERSIONS, DIFF_VERSIONS_FROM, DIFF_VERSIONS_TO, LIST_COMMENTS,
    LIST_COMMENTS_LIMIT, LIST_COMMENTS_MINE_ONLY, LIST_COMMENTS_PATH, LIST_COMMENTS_STATUS,
    LIST_DOCS, LIST_DOCS_ROOT, LIST_DOCS_TYPE, LIST_PROPOSALS, LIST_PROPOSALS_LIMIT,
    LIST_PROPOSALS_MINE_ONLY, LIST_PROPOSALS_PATH, LIST_PROPOSALS_STATUS, LIST_ROOTS,
    LIST_VERSIONS, LIST_VERSIONS_LIMIT, PATH_DOC, PROPOSE_EDIT, PROPOSE_EDIT_ADDRESSING,
    PROPOSE_EDIT_BASE_VERSION, PROPOSE_EDIT_CONTENT, PROPOSE_EDIT_INTENT, PROPOSE_EDIT_MESSAGE,
    PROPOSE_EDIT_PATCH, READ_DOC, READ_VERSION, READ_VERSION_VERSION_ID, RENDER_PROMPT,
    RENDER_PROMPT_VARIABLES, REPLY_COMMENT, REPLY_COMMENT_BODY, REPLY_COMMENT_COMMENT_ID,
    SEARCH_DOCS, SEARCH_DOCS_CASE_SENSITIVE, SEARCH_DOCS_GLOB, SEARCH_DOCS_MAX_RESULTS,
    SEARCH_DOCS_QUERY, SEARCH_DOCS_REGEX, TASK_ADD, TASK_ADD_DOC, TASK_ADD_OWNER, TASK_ADD_TAG,
    TASK_ADD_TEXT, TASK_LIST, TASK_LIST_DOC, TASK_LIST_OPEN_ONLY, TASK_LIST_OWNER, TASK_LIST_QUERY,
    TASK_LIST_TAG, TASK_SET_STATUS, TASK_SET_STATUS_DOC, TASK_SET_STATUS_STATUS,
    TASK_SET_STATUS_TASK_ID, TASK_SET_STATUS_TEXT, TASK_SET_STATUS_VERSION, VALIDATE_DOC,
};
use crate::api::request::decisions;
use crate::text::{push_text, views};
use vstd::prelude::*;

verus! {

pub open spec fn prop(name: Seq<char>, kind: KindModel, doc: Seq<char>) -> PropModel {
    PropModel { name: name, kind: kind, doc: doc }
}

fn push_prop(props: &mut Vec<Prop>, name: &'static str, kind: Kind, doc: &'static str)
    ensures
        prop_models(final(props)@) == prop_models(old(props)@).push(
            prop(name@, kind@, doc@),
        ),
{
    let ghost before = prop_models(props@);
    let p = Prop { name: name, kind: kind, doc: doc };
    props.push(p);
    assert(prop_models(props@) =~= before.push(p@));
}

pub open spec fn list_roots_tool() -> ToolModel {
    ToolModel {
        name: "list_roots"@,
        op: "list_roots"@,
        description: LIST_ROOTS@,
        read_only: true,
        props: seq![
        ],
        required: seq![],
    }
}

pub open spec fn add_root_tool() -> ToolModel {
    ToolModel {
        name: "add_root"@,
        op: "add_root"@,
        description: ADD_ROOT@,
        read_only: false,
        props: seq![
            prop("label"@, KindModel::Text, ADD_ROOT_LABEL@),
            prop("path"@, KindModel::Text, ADD_ROOT_PATH@),
            prop(
                "policy"@,
                KindModel::Choice(seq!["auto"@, "propose"@, "direct"@]),
                ADD_ROOT_POLICY@,
            ),
        ],
        required: seq!["path"@],
    }
}

pub open spec fn list_docs_tool() -> ToolModel {
    ToolModel {
        name: "list_docs"@,
        op: "list_docs"@,
        description: LIST_DOCS@,
        read_only: true,
        props: seq![
            prop("root"@, KindModel::Text, LIST_DOCS_ROOT@),
            prop(
                "type"@,
                KindModel::Choice(seq!["skill"@, "prompt"@, "task_list"@, "doc"@, "asset"@]),
                LIST_DOCS_TYPE@,
            ),
        ],
        required: seq![],
    }
}

pub open spec fn read_doc_tool() -> ToolModel {
    ToolModel {
        name: "read_doc"@,
        op: "read_doc"@,
        description: READ_DOC@,
        read_only: true,
        props: seq![
            prop("path"@, KindModel::Text, PATH_DOC@),
        ],
        required: seq!["path"@],
    }
}

pub open spec fn search_docs_tool() -> ToolModel {
    ToolModel {
        name: "search_docs"@,
        op: "search_docs"@,
        description: SEARCH_DOCS@,
        read_only: true,
        props: seq![
            prop("case_sensitive"@, KindModel::Truth, SEARCH_DOCS_CASE_SENSITIVE@),
            prop("glob"@, KindModel::Text, SEARCH_DOCS_GLOB@),
            prop("max_results"@, KindModel::Count, SEARCH_DOCS_MAX_RESULTS@),
            prop("query"@, KindModel::Text, SEARCH_DOCS_QUERY@),
            prop("regex"@, KindModel::Truth, SEARCH_DOCS_REGEX@),
        ],
        required: seq!["query"@],
    }
}

pub open spec fn list_versions_tool() -> ToolModel {
    ToolModel {
        name: "list_versions"@,
        op: "list_versions"@,
        description: LIST_VERSIONS@,
        read_only: true,
        props: seq![
            prop("limit"@, KindModel::Count, LIST_VERSIONS_LIMIT@),
            prop("path"@, KindModel::Text, PATH_DOC@),
        ],
        required: seq!["path"@],
    }
}

pub open spec fn read_version_tool() -> ToolModel {
    ToolModel {
        name: "read_version"@,
        op: "read_version"@,
        description: READ_VERSION@,
        read_only: true,
        props: seq![
            prop("path"@, KindModel::Text, PATH_DOC@),
            prop("version_id"@, KindModel::Text, READ_VERSION_VERSION_ID@),
        ],
        required: seq!["path"@, "version_id"@],
    }
}

pub open spec fn diff_versions_tool() -> ToolModel {
    ToolModel {
        name: "diff_versions"@,
        op: "diff_versions"@,
        description: DIFF_VERSIONS@,
        read_only: true,
        props: seq![
            prop("from"@, KindModel::Text, DIFF_VERSIONS_FROM@),
            prop("path"@, KindModel::Text, PATH_DOC@),
            prop("to"@, KindModel::Text, DIFF_VERSIONS_TO@),
        ],
        required: seq!["path"@],
    }
}

pub open spec fn checkpoint_tool() -> ToolModel {
    ToolModel {
        name: "checkpoint"@,
        op: "checkpoint"@,
        description: CHECKPOINT@,
        read_only: false,
        props: seq![
            prop("author"@, KindModel::Text, AUTHOR_DOC@),
            prop("message"@, KindModel::Text, CHECKPOINT_MESSAGE@),
            prop("path"@, KindModel::Text, PATH_DOC@),
        ],
        required: seq!["path"@, "message"@],
    }
}

pub open spec fn propose_edit_tool() -> ToolModel {
    ToolModel {
        name: "propose_edit"@,
        op: "propose_edit"@,
        description: PROPOSE_EDIT@,
        read_only: false,
        props: seq![
            prop("addressing"@, KindModel::Text, PROPOSE_EDIT_ADDRESSING@),
            prop("author"@, KindModel::Text, AUTHOR_DOC@),
            prop("base_version"@, KindModel::Text, PROPOSE_EDIT_BASE_VERSION@),
            prop("content"@, KindModel::Text, PROPOSE_EDIT_CONTENT@),
            prop("intent"@, KindModel::Text, PROPOSE_EDIT_INTENT@),
            prop("message"@, KindModel::Text, PROPOSE_EDIT_MESSAGE@),
            prop("patch"@, KindModel::Text, PROPOSE_EDIT_PATCH@),
            prop("path"@, KindModel::Text, PATH_DOC@),
        ],
        required: seq!["path"@, "intent"@],
    }
}

pub open spec fn task_list_tool() -> ToolModel {
    ToolModel {
        name: "task_list"@,
        op: "task_list"@,
        description: TASK_LIST@,
        read_only: true,
        props: seq![
            prop("doc"@, KindModel::Text, TASK_LIST_DOC@),
            prop("open_only"@, KindModel::Truth, TASK_LIST_OPEN_ONLY@),
            prop("owner"@, KindModel::Text, TASK_LIST_OWNER@),
            prop("query"@, KindModel::Text, TASK_LIST_QUERY@),
            prop("tag"@, KindModel::Text, TASK_LIST_TAG@),
        ],
        required: seq![],
    }
}

pub open spec fn task_add_tool() -> ToolModel {
    ToolModel {
        name: "task_add"@,
        op: "task_add"@,
        description: TASK_ADD@,
        read_only: false,
        props: seq![
            prop("author"@, KindModel::Text, AUTHOR_DOC@),
            prop("doc"@, KindModel::Text, TASK_ADD_DOC@),
            prop("owner"@, KindModel::Text, TASK_ADD_OWNER@),
            prop("tag"@, KindModel::Tags, TASK_ADD_TAG@),
            prop("text"@, KindModel::Text, TASK_ADD_TEXT@),
        ],
        required: seq!["doc"@, "text"@],
    }
}

pub open spec fn task_set_status_tool() -> ToolModel {
    ToolModel {
        name: "task_set_status"@,
        op: "task_set_status"@,
        description: TASK_SET_STATUS@,
        read_only: false,
        props: seq![
            prop("author"@, KindModel::Text, AUTHOR_DOC@),
            prop("doc"@, KindModel::Text, TASK_SET_STATUS_DOC@),
            prop("status"@, KindModel::Choice(seq!["done"@, "open"@]), TASK_SET_STATUS_STATUS@),
            prop("task_id"@, KindModel::Text, TASK_SET_STATUS_TASK_ID@),
            prop("text"@, KindModel::Text, TASK_SET_STATUS_TEXT@),
            prop("version"@, KindModel::Text, TASK_SET_STATUS_VERSION@),
        ],
        required: seq!["doc"@, "task_id"@, "status"@],
    }
}

pub open spec fn validate_doc_tool() -> ToolModel {
    ToolModel {
        name: "validate_doc"@,
        op: "validate_doc"@,
        description: VALIDATE_DOC@,
        read_only: true,
        props: seq![
            prop("path"@, KindModel::Text, PATH_DOC@),
        ],
        required: seq!["path"@],
    }
}

pub open spec fn render_prompt_tool() -> ToolModel {
    ToolModel {
        name: "render_prompt"@,
        op: "render_prompt"@,
        description: RENDER_PROMPT@,
        read_only: true,
        props: seq![
            prop("path"@, KindModel::Text, PATH_DOC@),
            prop("variables"@, KindModel::Values, RENDER_PROMPT_VARIABLES@),
        ],
        required: seq!["path"@],
    }
}

pub open spec fn list_proposals_tool() -> ToolModel {
    ToolModel {
        name: "list_proposals"@,
        op: "list_proposals"@,
        description: LIST_PROPOSALS@,
        read_only: true,
        props: seq![
            prop("limit"@, KindModel::Count, LIST_PROPOSALS_LIMIT@),
            prop("mine_only"@, KindModel::Truth, LIST_PROPOSALS_MINE_ONLY@),
            prop("path"@, KindModel::Text, LIST_PROPOSALS_PATH@),
            prop(
                "status"@,
                KindModel::Choice(seq!["pending"@, "accepted"@, "rejected"@, "superseded"@, "conflict"@]),
                LIST_PROPOSALS_STATUS@,
            ),
        ],
        required: seq![],
    }
}

pub open spec fn list_comments_tool() -> ToolModel {
    ToolModel {
        name: "list_comments"@,
        op: "list_comments"@,
        description: LIST_COMMENTS@,
        read_only: true,
        props: seq![
            prop("limit"@, KindModel::Count, LIST_COMMENTS_LIMIT@),
            prop("mine_only"@, KindModel::Truth, LIST_COMMENTS_MINE_ONLY@),
            prop("path"@, KindModel::Text, LIST_COMMENTS_PATH@),
            prop(
                "status"@,
                KindModel::Choice(seq!["open"@, "resolved"@, "outdated"@, "orphaned"@]),
                LIST_COMMENTS_STATUS@,
            ),
        ],
        required: seq![],
    }
}

pub open spec fn reply_comment_tool() -> ToolModel {
    ToolModel {
        name: "reply_comment"@,
        op: "reply_comment"@,
        description: REPLY_COMMENT@,
        read_only: false,
        props: seq![
            prop("author"@, KindModel::Text, AUTHOR_DOC@),
            prop("body"@, KindModel::Text, REPLY_COMMENT_BODY@),
            prop("comment_id"@, KindModel::Text, REPLY_COMMENT_COMMENT_ID@),
        ],
        required: seq!["comment_id"@, "body"@],
    }
}

fn list_roots() -> (out: ToolDef)
    ensures
        out@ == list_roots_tool(),
{
    let props: Vec<Prop> = Vec::new();
    let required: Vec<String> = Vec::new();
    assert(prop_models(props@) =~= list_roots_tool().props);
    assert(views(required@) =~= list_roots_tool().required);
    ToolDef {
        name: "list_roots",
        op: "list_roots",
        description: LIST_ROOTS,
        read_only: true,
        props: props,
        required: required,
    }
}

fn add_root_words() -> (out: Vec<String>)
    ensures
        views(out@) == seq!["auto"@, "propose"@, "direct"@],
{
    let mut out: Vec<String> = Vec::new();
    push_text(&mut out, "auto".to_owned());
    push_text(&mut out, "propose".to_owned());
    push_text(&mut out, "direct".to_owned());
    assert(views(out@) =~= seq!["auto"@, "propose"@, "direct"@]);
    out
}

fn add_root() -> (out: ToolDef)
    ensures
        out@ == add_root_tool(),
{
    let mut props: Vec<Prop> = Vec::new();
    push_prop(&mut props, "label", Kind::Text, ADD_ROOT_LABEL);
    push_prop(&mut props, "path", Kind::Text, ADD_ROOT_PATH);
    push_prop(&mut props, "policy", Kind::Choice(add_root_words()), ADD_ROOT_POLICY);
    let mut required: Vec<String> = Vec::new();
    push_text(&mut required, "path".to_owned());
    assert(prop_models(props@) =~= add_root_tool().props);
    assert(views(required@) =~= add_root_tool().required);
    ToolDef {
        name: "add_root",
        op: "add_root",
        description: ADD_ROOT,
        read_only: false,
        props: props,
        required: required,
    }
}

fn list_docs_words() -> (out: Vec<String>)
    ensures
        views(out@) == seq!["skill"@, "prompt"@, "task_list"@, "doc"@, "asset"@],
{
    let mut out: Vec<String> = Vec::new();
    push_text(&mut out, "skill".to_owned());
    push_text(&mut out, "prompt".to_owned());
    push_text(&mut out, "task_list".to_owned());
    push_text(&mut out, "doc".to_owned());
    push_text(&mut out, "asset".to_owned());
    assert(views(out@) =~= seq!["skill"@, "prompt"@, "task_list"@, "doc"@, "asset"@]);
    out
}

fn list_docs() -> (out: ToolDef)
    ensures
        out@ == list_docs_tool(),
{
    let mut props: Vec<Prop> = Vec::new();
    push_prop(&mut props, "root", Kind::Text, LIST_DOCS_ROOT);
    push_prop(&mut props, "type", Kind::Choice(list_docs_words()), LIST_DOCS_TYPE);
    let required: Vec<String> = Vec::new();
    assert(prop_models(props@) =~= list_docs_tool().props);
    assert(views(required@) =~= list_docs_tool().required);
    ToolDef {
        name: "list_docs",
        op: "list_docs",
        description: LIST_DOCS,
        read_only: true,
        props: props,
        required: required,
    }
}

fn read_doc() -> (out: ToolDef)
    ensures
        out@ == read_doc_tool(),
{
    let mut props: Vec<Prop> = Vec::new();
    push_prop(&mut props, "path", Kind::Text, PATH_DOC);
    let mut required: Vec<String> = Vec::new();
    push_text(&mut required, "path".to_owned());
    assert(prop_models(props@) =~= read_doc_tool().props);
    assert(views(required@) =~= read_doc_tool().required);
    ToolDef {
        name: "read_doc",
        op: "read_doc",
        description: READ_DOC,
        read_only: true,
        props: props,
        required: required,
    }
}

fn search_docs() -> (out: ToolDef)
    ensures
        out@ == search_docs_tool(),
{
    let mut props: Vec<Prop> = Vec::new();
    push_prop(&mut props, "case_sensitive", Kind::Truth, SEARCH_DOCS_CASE_SENSITIVE);
    push_prop(&mut props, "glob", Kind::Text, SEARCH_DOCS_GLOB);
    push_prop(&mut props, "max_results", Kind::Count, SEARCH_DOCS_MAX_RESULTS);
    push_prop(&mut props, "query", Kind::Text, SEARCH_DOCS_QUERY);
    push_prop(&mut props, "regex", Kind::Truth, SEARCH_DOCS_REGEX);
    let mut required: Vec<String> = Vec::new();
    push_text(&mut required, "query".to_owned());
    assert(prop_models(props@) =~= search_docs_tool().props);
    assert(views(required@) =~= search_docs_tool().required);
    ToolDef {
        name: "search_docs",
        op: "search_docs",
        description: SEARCH_DOCS,
        read_only: true,
        props: props,
        required: required,
    }
}

fn list_versions() -> (out: ToolDef)
    ensures
        out@ == list_versions_tool(),
{
    let mut props: Vec<Prop> = Vec::new();
    push_prop(&mut props, "limit", Kind::Count, LIST_VERSIONS_LIMIT);
    push_prop(&mut props, "path", Kind::Text, PATH_DOC);
    let mut required: Vec<String> = Vec::new();
    push_text(&mut required, "path".to_owned());
    assert(prop_models(props@) =~= list_versions_tool().props);
    assert(views(required@) =~= list_versions_tool().required);
    ToolDef {
        name: "list_versions",
        op: "list_versions",
        description: LIST_VERSIONS,
        read_only: true,
        props: props,
        required: required,
    }
}

fn read_version() -> (out: ToolDef)
    ensures
        out@ == read_version_tool(),
{
    let mut props: Vec<Prop> = Vec::new();
    push_prop(&mut props, "path", Kind::Text, PATH_DOC);
    push_prop(&mut props, "version_id", Kind::Text, READ_VERSION_VERSION_ID);
    let mut required: Vec<String> = Vec::new();
    push_text(&mut required, "path".to_owned());
    push_text(&mut required, "version_id".to_owned());
    assert(prop_models(props@) =~= read_version_tool().props);
    assert(views(required@) =~= read_version_tool().required);
    ToolDef {
        name: "read_version",
        op: "read_version",
        description: READ_VERSION,
        read_only: true,
        props: props,
        required: required,
    }
}

fn diff_versions() -> (out: ToolDef)
    ensures
        out@ == diff_versions_tool(),
{
    let mut props: Vec<Prop> = Vec::new();
    push_prop(&mut props, "from", Kind::Text, DIFF_VERSIONS_FROM);
    push_prop(&mut props, "path", Kind::Text, PATH_DOC);
    push_prop(&mut props, "to", Kind::Text, DIFF_VERSIONS_TO);
    let mut required: Vec<String> = Vec::new();
    push_text(&mut required, "path".to_owned());
    assert(prop_models(props@) =~= diff_versions_tool().props);
    assert(views(required@) =~= diff_versions_tool().required);
    ToolDef {
        name: "diff_versions",
        op: "diff_versions",
        description: DIFF_VERSIONS,
        read_only: true,
        props: props,
        required: required,
    }
}

fn checkpoint() -> (out: ToolDef)
    ensures
        out@ == checkpoint_tool(),
{
    let mut props: Vec<Prop> = Vec::new();
    push_prop(&mut props, "author", Kind::Text, AUTHOR_DOC);
    push_prop(&mut props, "message", Kind::Text, CHECKPOINT_MESSAGE);
    push_prop(&mut props, "path", Kind::Text, PATH_DOC);
    let mut required: Vec<String> = Vec::new();
    push_text(&mut required, "path".to_owned());
    push_text(&mut required, "message".to_owned());
    assert(prop_models(props@) =~= checkpoint_tool().props);
    assert(views(required@) =~= checkpoint_tool().required);
    ToolDef {
        name: "checkpoint",
        op: "checkpoint",
        description: CHECKPOINT,
        read_only: false,
        props: props,
        required: required,
    }
}

fn propose_edit() -> (out: ToolDef)
    ensures
        out@ == propose_edit_tool(),
{
    let mut props: Vec<Prop> = Vec::new();
    push_prop(&mut props, "addressing", Kind::Text, PROPOSE_EDIT_ADDRESSING);
    push_prop(&mut props, "author", Kind::Text, AUTHOR_DOC);
    push_prop(&mut props, "base_version", Kind::Text, PROPOSE_EDIT_BASE_VERSION);
    push_prop(&mut props, "content", Kind::Text, PROPOSE_EDIT_CONTENT);
    push_prop(&mut props, "intent", Kind::Text, PROPOSE_EDIT_INTENT);
    push_prop(&mut props, "message", Kind::Text, PROPOSE_EDIT_MESSAGE);
    push_prop(&mut props, "patch", Kind::Text, PROPOSE_EDIT_PATCH);
    push_prop(&mut props, "path", Kind::Text, PATH_DOC);
    let mut required: Vec<String> = Vec::new();
    push_text(&mut required, "path".to_owned());
    push_text(&mut required, "intent".to_owned());
    assert(prop_models(props@) =~= propose_edit_tool().props);
    assert(views(required@) =~= propose_edit_tool().required);
    ToolDef {
        name: "propose_edit",
        op: "propose_edit",
        description: PROPOSE_EDIT,
        read_only: false,
        props: props,
        required: required,
    }
}

fn task_list() -> (out: ToolDef)
    ensures
        out@ == task_list_tool(),
{
    let mut props: Vec<Prop> = Vec::new();
    push_prop(&mut props, "doc", Kind::Text, TASK_LIST_DOC);
    push_prop(&mut props, "open_only", Kind::Truth, TASK_LIST_OPEN_ONLY);
    push_prop(&mut props, "owner", Kind::Text, TASK_LIST_OWNER);
    push_prop(&mut props, "query", Kind::Text, TASK_LIST_QUERY);
    push_prop(&mut props, "tag", Kind::Text, TASK_LIST_TAG);
    let required: Vec<String> = Vec::new();
    assert(prop_models(props@) =~= task_list_tool().props);
    assert(views(required@) =~= task_list_tool().required);
    ToolDef {
        name: "task_list",
        op: "task_list",
        description: TASK_LIST,
        read_only: true,
        props: props,
        required: required,
    }
}

fn task_add() -> (out: ToolDef)
    ensures
        out@ == task_add_tool(),
{
    let mut props: Vec<Prop> = Vec::new();
    push_prop(&mut props, "author", Kind::Text, AUTHOR_DOC);
    push_prop(&mut props, "doc", Kind::Text, TASK_ADD_DOC);
    push_prop(&mut props, "owner", Kind::Text, TASK_ADD_OWNER);
    push_prop(&mut props, "tag", Kind::Tags, TASK_ADD_TAG);
    push_prop(&mut props, "text", Kind::Text, TASK_ADD_TEXT);
    let mut required: Vec<String> = Vec::new();
    push_text(&mut required, "doc".to_owned());
    push_text(&mut required, "text".to_owned());
    assert(prop_models(props@) =~= task_add_tool().props);
    assert(views(required@) =~= task_add_tool().required);
    ToolDef {
        name: "task_add",
        op: "task_add",
        description: TASK_ADD,
        read_only: false,
        props: props,
        required: required,
    }
}

fn task_set_status_words() -> (out: Vec<String>)
    ensures
        views(out@) == seq!["done"@, "open"@],
{
    let mut out: Vec<String> = Vec::new();
    push_text(&mut out, "done".to_owned());
    push_text(&mut out, "open".to_owned());
    assert(views(out@) =~= seq!["done"@, "open"@]);
    out
}

fn task_set_status() -> (out: ToolDef)
    ensures
        out@ == task_set_status_tool(),
{
    let mut props: Vec<Prop> = Vec::new();
    push_prop(&mut props, "author", Kind::Text, AUTHOR_DOC);
    push_prop(&mut props, "doc", Kind::Text, TASK_SET_STATUS_DOC);
    push_prop(&mut props, "status", Kind::Choice(task_set_status_words()), TASK_SET_STATUS_STATUS);
    push_prop(&mut props, "task_id", Kind::Text, TASK_SET_STATUS_TASK_ID);
    push_prop(&mut props, "text", Kind::Text, TASK_SET_STATUS_TEXT);
    push_prop(&mut props, "version", Kind::Text, TASK_SET_STATUS_VERSION);
    let mut required: Vec<String> = Vec::new();
    push_text(&mut required, "doc".to_owned());
    push_text(&mut required, "task_id".to_owned());
    push_text(&mut required, "status".to_owned());
    assert(prop_models(props@) =~= task_set_status_tool().props);
    assert(views(required@) =~= task_set_status_tool().required);
    ToolDef {
        name: "task_set_status",
        op: "task_set_status",
        description: TASK_SET_STATUS,
        read_only: false,
        props: props,
        required: required,
    }
}

fn validate_doc() -> (out: ToolDef)
    ensures
        out@ == validate_doc_tool(),
{
    let mut props: Vec<Prop> = Vec::new();
    push_prop(&mut props, "path", Kind::Text, PATH_DOC);
    let mut required: Vec<String> = Vec::new();
    push_text(&mut required, "path".to_owned());
    assert(prop_models(props@) =~= validate_doc_tool().props);
    assert(views(required@) =~= validate_doc_tool().required);
    ToolDef {
        name: "validate_doc",
        op: "validate_doc",
        description: VALIDATE_DOC,
        read_only: true,
        props: props,
        required: required,
    }
}

fn render_prompt() -> (out: ToolDef)
    ensures
        out@ == render_prompt_tool(),
{
    let mut props: Vec<Prop> = Vec::new();
    push_prop(&mut props, "path", Kind::Text, PATH_DOC);
    push_prop(&mut props, "variables", Kind::Values, RENDER_PROMPT_VARIABLES);
    let mut required: Vec<String> = Vec::new();
    push_text(&mut required, "path".to_owned());
    assert(prop_models(props@) =~= render_prompt_tool().props);
    assert(views(required@) =~= render_prompt_tool().required);
    ToolDef {
        name: "render_prompt",
        op: "render_prompt",
        description: RENDER_PROMPT,
        read_only: true,
        props: props,
        required: required,
    }
}

fn list_proposals_words() -> (out: Vec<String>)
    ensures
        views(out@) == seq!["pending"@, "accepted"@, "rejected"@, "superseded"@, "conflict"@],
{
    let mut out: Vec<String> = Vec::new();
    push_text(&mut out, "pending".to_owned());
    push_text(&mut out, "accepted".to_owned());
    push_text(&mut out, "rejected".to_owned());
    push_text(&mut out, "superseded".to_owned());
    push_text(&mut out, "conflict".to_owned());
    assert(views(out@) =~= seq!["pending"@, "accepted"@, "rejected"@, "superseded"@, "conflict"@]);
    out
}

fn list_proposals() -> (out: ToolDef)
    ensures
        out@ == list_proposals_tool(),
{
    let mut props: Vec<Prop> = Vec::new();
    push_prop(&mut props, "limit", Kind::Count, LIST_PROPOSALS_LIMIT);
    push_prop(&mut props, "mine_only", Kind::Truth, LIST_PROPOSALS_MINE_ONLY);
    push_prop(&mut props, "path", Kind::Text, LIST_PROPOSALS_PATH);
    push_prop(&mut props, "status", Kind::Choice(list_proposals_words()), LIST_PROPOSALS_STATUS);
    let required: Vec<String> = Vec::new();
    assert(prop_models(props@) =~= list_proposals_tool().props);
    assert(views(required@) =~= list_proposals_tool().required);
    ToolDef {
        name: "list_proposals",
        op: "list_proposals",
        description: LIST_PROPOSALS,
        read_only: true,
        props: props,
        required: required,
    }
}

fn list_comments_words() -> (out: Vec<String>)
    ensures
        views(out@) == seq!["open"@, "resolved"@, "outdated"@, "orphaned"@],
{
    let mut out: Vec<String> = Vec::new();
    push_text(&mut out, "open".to_owned());
    push_text(&mut out, "resolved".to_owned());
    push_text(&mut out, "outdated".to_owned());
    push_text(&mut out, "orphaned".to_owned());
    assert(views(out@) =~= seq!["open"@, "resolved"@, "outdated"@, "orphaned"@]);
    out
}

fn list_comments() -> (out: ToolDef)
    ensures
        out@ == list_comments_tool(),
{
    let mut props: Vec<Prop> = Vec::new();
    push_prop(&mut props, "limit", Kind::Count, LIST_COMMENTS_LIMIT);
    push_prop(&mut props, "mine_only", Kind::Truth, LIST_COMMENTS_MINE_ONLY);
    push_prop(&mut props, "path", Kind::Text, LIST_COMMENTS_PATH);
    push_prop(&mut props, "status", Kind::Choice(list_comments_words()), LIST_COMMENTS_STATUS);
    let required: Vec<String> = Vec::new();
    assert(prop_models(props@) =~= list_comments_tool().props);
    assert(views(required@) =~= list_comments_tool().required);
    ToolDef {
        name: "list_comments",
        op: "list_comments",
        description: LIST_COMMENTS,
        read_only: true,
        props: props,
        required: required,
    }
}

fn reply_comment() -> (out: ToolDef)
    ensures
        out@ == reply_comment_tool(),
{
    let mut props: Vec<Prop> = Vec::new();
    push_prop(&mut props, "author", Kind::Text, AUTHOR_DOC);
    push_prop(&mut props, "body", Kind::Text, REPLY_COMMENT_BODY);
    push_prop(&mut props, "comment_id", Kind::Text, REPLY_COMMENT_COMMENT_ID);
    let mut required: Vec<String> = Vec::new();
    push_text(&mut required, "comment_id".to_owned());
    push_text(&mut required, "body".to_owned());
    assert(prop_models(props@) =~= reply_comment_tool().props);
    assert(views(required@) =~= reply_comment_tool().required);
    ToolDef {
        name: "reply_comment",
        op: "reply_comment",
        description: REPLY_COMMENT,
        read_only: false,
        props: props,
        required: required,
    }
}

/// The full tool surface. Everything the UI does, an agent can do, except
/// decide: accepting, rejecting, and resolving stay with the human.
pub open spec fn tool_surface() -> Seq<ToolModel> {
    seq![
        list_roots_tool(),
        add_root_tool(),
        list_docs_tool(),
        read_doc_tool(),
        search_docs_tool(),
        list_versions_tool(),
        read_version_tool(),
        diff_versions_tool(),
        checkpoint_tool(),
        propose_edit_tool(),
        task_list_tool(),
        task_add_tool(),
        task_set_status_tool(),
        validate_doc_tool(),
        render_prompt_tool(),
        list_proposals_tool(),
        list_comments_tool(),
        reply_comment_tool(),
    ]
}

/// The full tool surface.
pub fn tools() -> (out: Vec<ToolDef>)
    ensures
        tool_models(out@) == tool_surface(),
{
    let mut out: Vec<ToolDef> = Vec::new();
    out.push(list_roots());
    out.push(add_root());
    out.push(list_docs());
    out.push(read_doc());
    out.push(search_docs());
    out.push(list_versions());
    out.push(read_version());
    out.push(diff_versions());
    out.push(checkpoint());
    out.push(propose_edit());
    out.push(task_list());
    out.push(task_add());
    out.push(task_set_status());
    out.push(validate_doc());
    out.push(render_prompt());
    out.push(list_proposals());
    out.push(list_comments());
    out.push(reply_comment());
    assert(tool_models(out@) =~= tool_surface());
    out
}

/// Agents are given nothing that decides: every tool calls the operation of its
/// own name, and none of these is a decision.
pub proof fn law_tools_decide_nothing(i: int)
    requires
        0 <= i < tool_surface().len(),
    ensures
        tool_surface()[i].op == tool_surface()[i].name,
        !decisions().contains(tool_surface()[i].op),
{
    reveal_strlit("list_roots");
    reveal_strlit("add_root");
    reveal_strlit("list_docs");
    reveal_strlit("read_doc");
    reveal_strlit("search_docs");
    reveal_strlit("list_versions");
    reveal_strlit("read_version");
    reveal_strlit("diff_versions");
    reveal_strlit("checkpoint");
    reveal_strlit("propose_edit");
    reveal_strlit("task_list");
    reveal_strlit("task_add");
    reveal_strlit("task_set_status");
    reveal_strlit("validate_doc");
    reveal_strlit("render_prompt");
    reveal_strlit("list_proposals");
    reveal_strlit("list_comments");
    reveal_strlit("reply_comment");
    reveal_strlit("save_doc");
    reveal_strlit("restore_version");
    reveal_strlit("accept_proposal");
    reveal_strlit("reject_proposal");
    reveal_strlit("rebase_proposal");
    reveal_strlit("resolve_comment");
    reveal_strlit("delete_comment");
    assert("list_roots"@.len() != "save_doc"@.len());
    assert("list_roots"@.len() != "restore_version"@.len());
    assert("list_roots"@.len() != "accept_proposal"@.len());
    assert("list_roots"@.len() != "reject_proposal"@.len());
    assert("list_roots"@.len() != "rebase_proposal"@.len());
    assert("list_roots"@.len() != "resolve_comment"@.len());
    assert("list_roots"@.len() != "delete_comment"@.len());
    assert("add_root"@[0] != "save_doc"@[0]);
    assert("add_root"@.len() != "restore_version"@.len());
    assert("add_root"@.len() != "accept_proposal"@.len());
    assert("add_root"@.len() != "reject_proposal"@.len());
    assert("add_root"@.len() != "rebase_proposal"@.len());
    assert("add_root"@.len() != "resolve_comment"@.len());
    assert("add_root"@.len() != "delete_comment"@.len());
    assert("list_docs"@.len() != "save_doc"@.len());
    assert("list_docs"@.len() != "restore_version"@.len());
    assert("list_docs"@.len() != "accept_proposal"@.len());
    assert("list_docs"@.len() != "reject_proposal"@.len());
    assert("list_docs"@.len() != "rebase_proposal"@.len());
    assert("list_docs"@.len() != "resolve_comment"@.len());
    assert("list_docs"@.len() != "delete_comment"@.len());
    assert("read_doc"@[0] != "save_doc"@[0]);
    assert("read_doc"@.len() != "restore_version"@.len());
    assert("read_doc"@.len() != "accept_proposal"@.len());
    assert("read_doc"@.len() != "reject_proposal"@.len());
    assert("read_doc"@.len() != "rebase_proposal"@.len());
    assert("read_doc"@.len() != "resolve_comment"@.len());
    assert("read_doc"@.len() != "delete_comment"@.len());
    assert("search_docs"@.len() != "save_doc"@.len());
    assert("search_docs"@.len() != "restore_version"@.len());
    assert("search_docs"@.len() != "accept_proposal"@.len());
    assert("search_docs"@.len() != "reject_proposal"@.len());
    assert("search_docs"@.len() != "rebase_proposal"@.len());
    assert("search_docs"@.len() != "resolve_comment"@.len());
    assert("search_docs"@.len() != "delete_comment"@.len());
    assert("list_versions"@.len() != "save_doc"@.len());
    assert("list_versions"@.len() != "restore_version"@.len());
    assert("list_versions"@.len() != "accept_proposal"@.len());
    assert("list_versions"@.len() != "reject_proposal"@.len());
    assert("list_versions"@.len() != "rebase_proposal"@.len());
    assert("list_versions"@.len() != "resolve_comment"@.len());
    assert("list_versions"@.len() != "delete_comment"@.len());
    assert("read_version"@.len() != "save_doc"@.len());
    assert("read_version"@.len() != "restore_version"@.len());
    assert("read_version"@.len() != "accept_proposal"@.len());
    assert("read_version"@.len() != "reject_proposal"@.len());
    assert("read_version"@.len() != "rebase_proposal"@.len());
    assert("read_version"@.len() != "resolve_comment"@.len());
    assert("read_version"@.len() != "delete_comment"@.len());
    assert("diff_versions"@.len() != "save_doc"@.len());
    assert("diff_versions"@.len() != "restore_version"@.len());
    assert("diff_versions"@.len() != "accept_proposal"@.len());
    assert("diff_versions"@.len() != "reject_proposal"@.len());
    assert("diff_versions"@.len() != "rebase_proposal"@.len());
    assert("diff_versions"@.len() != "resolve_comment"@.len());
    assert("diff_versions"@.len() != "delete_comment"@.len());
    assert("checkpoint"@.len() != "save_doc"@.len());
    assert("checkpoint"@.len() != "restore_version"@.len());
    assert("checkpoint"@.len() != "accept_proposal"@.len());
    assert("checkpoint"@.len() != "reject_proposal"@.len());
    assert("checkpoint"@.len() != "rebase_proposal"@.len());
    assert("checkpoint"@.len() != "resolve_comment"@.len());
    assert("checkpoint"@.len() != "delete_comment"@.len());
    assert("propose_edit"@.len() != "save_doc"@.len());
    assert("propose_edit"@.len() != "restore_version"@.len());
    assert("propose_edit"@.len() != "accept_proposal"@.len());
    assert("propose_edit"@.len() != "reject_proposal"@.len());
    assert("propose_edit"@.len() != "rebase_proposal"@.len());
    assert("propose_edit"@.len() != "resolve_comment"@.len());
    assert("propose_edit"@.len() != "delete_comment"@.len());
    assert("task_list"@.len() != "save_doc"@.len());
    assert("task_list"@.len() != "restore_version"@.len());
    assert("task_list"@.len() != "accept_proposal"@.len());
    assert("task_list"@.len() != "reject_proposal"@.len());
    assert("task_list"@.len() != "rebase_proposal"@.len());
    assert("task_list"@.len() != "resolve_comment"@.len());
    assert("task_list"@.len() != "delete_comment"@.len());
    assert("task_add"@[0] != "save_doc"@[0]);
    assert("task_add"@.len() != "restore_version"@.len());
    assert("task_add"@.len() != "accept_proposal"@.len());
    assert("task_add"@.len() != "reject_proposal"@.len());
    assert("task_add"@.len() != "rebase_proposal"@.len());
    assert("task_add"@.len() != "resolve_comment"@.len());
    assert("task_add"@.len() != "delete_comment"@.len());
    assert("task_set_status"@.len() != "save_doc"@.len());
    assert("task_set_status"@[0] != "restore_version"@[0]);
    assert("task_set_status"@[0] != "accept_proposal"@[0]);
    assert("task_set_status"@[0] != "reject_proposal"@[0]);
    assert("task_set_status"@[0] != "rebase_proposal"@[0]);
    assert("task_set_status"@[0] != "resolve_comment"@[0]);
    assert("task_set_status"@.len() != "delete_comment"@.len());
    assert("validate_doc"@.len() != "save_doc"@.len());
    assert("validate_doc"@.len() != "restore_version"@.len());
    assert("validate_doc"@.len() != "accept_proposal"@.len());
    assert("validate_doc"@.len() != "reject_proposal"@.len());
    assert("validate_doc"@.len() != "rebase_proposal"@.len());
    assert("validate_doc"@.len() != "resolve_comment"@.len());
    assert("validate_doc"@.len() != "delete_comment"@.len());
    assert("render_prompt"@.len() != "save_doc"@.len());
    assert("render_prompt"@.len() != "restore_version"@.len());
    assert("render_prompt"@.len() != "accept_proposal"@.len());
    assert("render_prompt"@.len() != "reject_proposal"@.len());
    assert("render_prompt"@.len() != "rebase_proposal"@.len());
    assert("render_prompt"@.len() != "resolve_comment"@.len());
    assert("render_prompt"@.len() != "delete_comment"@.len());
    assert("list_proposals"@.len() != "save_doc"@.len());
    assert("list_proposals"@.len() != "restore_version"@.len());
    assert("list_proposals"@.len() != "accept_proposal"@.len());
    assert("list_proposals"@.len() != "reject_proposal"@.len());
    assert("list_proposals"@.len() != "rebase_proposal"@.len());
    assert("list_proposals"@.len() != "resolve_comment"@.len());
    assert("list_proposals"@[0] != "delete_comment"@[0]);
    assert("list_comments"@.len() != "save_doc"@.len());
    assert("list_comments"@.len() != "restore_version"@.len());
    assert("list_comments"@.len() != "accept_proposal"@.len());
    assert("list_comments"@.len() != "reject_proposal"@.len());
    assert("list_comments"@.len() != "rebase_proposal"@.len());
    assert("list_comments"@.len() != "resolve_comment"@.len());
    assert("list_comments"@.len() != "delete_comment"@.len());
    assert("reply_comment"@.len() != "save_doc"@.len());
    assert("reply_comment"@.len() != "restore_version"@.len());
    assert("reply_comment"@.len() != "accept_proposal"@.len());
    assert("reply_comment"@.len() != "reject_proposal"@.len());
    assert("reply_comment"@.len() != "rebase_proposal"@.len());
    assert("reply_comment"@.len() != "resolve_comment"@.len());
    assert("reply_comment"@.len() != "delete_comment"@.len());
    let op = tool_surface()[i].op;
    assert forall|k: int| 0 <= k < decisions().len() implies decisions()[k] != op by {}
}

} // verus!
