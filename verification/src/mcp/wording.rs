//! What the tools and their arguments are called in words.

use vstd::prelude::*;

verus! {

pub const PATH_DOC: &'static str = "Path to the document. Absolute, `~/`-relative, or relative to a registered root. Anything that resolves outside every root is rejected.";

pub const AUTHOR_DOC: &'static str = "The model making this change, recorded as the version's author (e.g. `sonnet-4.6`). Defaults to the MCP client name.";

pub const LIST_ROOTS: &'static str = "List the registered roots that make up the corpus, with each root's kind, write policy, and document count.";

pub const ADD_ROOT: &'static str = "Register a directory or a single file with Folio. Everything inside is indexed and versioned from then on.";

pub const ADD_ROOT_LABEL: &'static str = "Display name for the sidebar. Defaults to the folder name.";

pub const ADD_ROOT_PATH: &'static str = "Directory or file to register.";

pub const ADD_ROOT_POLICY: &'static str = "Write policy. `auto` (the default) proposes edits to docs, skills and prompts, and applies task-list edits directly.";

pub const LIST_DOCS: &'static str = "List documents in the corpus with their artifact type, version count, pending-proposal count, and open-comment count.";

pub const LIST_DOCS_ROOT: &'static str = "Restrict to one root, by id, label, or path.";

pub const LIST_DOCS_TYPE: &'static str = "Restrict to one artifact type.";

pub const READ_DOC: &'static str = "Read a document: its content, parsed frontmatter, artifact type, current version id, and effective write policy.";

pub const SEARCH_DOCS: &'static str = "Search the corpus. Ripgrep semantics: literal by default, regex on request, with an optional glob filter. Returns line numbers and snippets.";

pub const SEARCH_DOCS_CASE_SENSITIVE: &'static str = "Match case exactly. Defaults to false.";

pub const SEARCH_DOCS_GLOB: &'static str = "Only search paths matching this glob, e.g. `**/SKILL.md`.";

pub const SEARCH_DOCS_MAX_RESULTS: &'static str = "Cap on returned matches (default 200).";

pub const SEARCH_DOCS_QUERY: &'static str = "Text or regular expression to search for.";

pub const SEARCH_DOCS_REGEX: &'static str = "Treat `query` as a regular expression.";

pub const LIST_VERSIONS: &'static str = "The version timeline for a document: id, source, author, message, timestamp, and size delta, newest first.";

pub const LIST_VERSIONS_LIMIT: &'static str = "Maximum versions to return (default 200).";

pub const READ_VERSION: &'static str = "Read the content of a historical version.";

pub const READ_VERSION_VERSION_ID: &'static str = "A version id from list_versions, or `latest`, or `~1` for one version back.";

pub const DIFF_VERSIONS: &'static str = "Diff two versions of a document with the same prose-aware engine the UI uses: paragraph-grouped hunks with word-level highlights, plus a unified-diff rendering.";

pub const DIFF_VERSIONS_FROM: &'static str = "Older version id, or `~1`. Defaults to the previous version.";

pub const DIFF_VERSIONS_TO: &'static str = "Newer version id, or `latest`. Defaults to the current version.";

pub const CHECKPOINT: &'static str = "Mark a milestone in a document's timeline with a message. Records a version even when the content has not changed.";

pub const CHECKPOINT_MESSAGE: &'static str = "What this checkpoint marks, e.g. `before restructuring commands`.";

pub const PROPOSE_EDIT: &'static str = "Propose a narrowly scoped change against the exact document version you read. Existing documents require `base_version`; stale edits are rejected. Prefer `patch` so unchanged content is not regenerated. Under the default policy the human reviews each hunk before anything reaches disk.";

pub const PROPOSE_EDIT_ADDRESSING: &'static str = "The id of a comment this change answers, e.g. `cm_3f21`. Accepting the proposal resolves that thread automatically.";

pub const PROPOSE_EDIT_BASE_VERSION: &'static str = "Required for an existing document. Pass the exact `version` returned by read_doc; the proposal fails if that version is no longer current.";

pub const PROPOSE_EDIT_CONTENT: &'static str = "The complete new content. Prefer this only when creating a new file; use `patch` for existing documents.";

pub const PROPOSE_EDIT_INTENT: &'static str = "A concise statement of the requested outcome and why this particular change satisfies it. The human sees this above the diff.";

pub const PROPOSE_EDIT_MESSAGE: &'static str = "Deprecated alias for `intent`.";

pub const PROPOSE_EDIT_PATCH: &'static str = "A focused unified diff against `base_version`. Use instead of `content`, never with it.";

pub const TASK_LIST: &'static str = "List tasks across the corpus or in one document. Ids are line-anchored (`L42`) and valid only for the `version` they were read from; pass that version back to task_set_status.";

pub const TASK_LIST_DOC: &'static str = "Restrict to one document. Omit to aggregate every task list in the corpus.";

pub const TASK_LIST_OPEN_ONLY: &'static str = "Skip completed tasks.";

pub const TASK_LIST_OWNER: &'static str = "Only tasks assigned with this `@owner`.";

pub const TASK_LIST_QUERY: &'static str = "Only tasks whose text contains this.";

pub const TASK_LIST_TAG: &'static str = "Only tasks carrying this `#tag`.";

pub const TASK_ADD: &'static str = "Add a task to a task list. Applied immediately under the default policy for task lists; queued as a proposal if the path's policy says so.";

pub const TASK_ADD_DOC: &'static str = "The task list to add to.";

pub const TASK_ADD_OWNER: &'static str = "Assign to this owner, written as `@owner`.";

pub const TASK_ADD_TAG: &'static str = "One or more tags, written as `#tag`.";

pub const TASK_ADD_TEXT: &'static str = "The task text, without the `@owner` and `#tag` tokens.";

pub const TASK_SET_STATUS: &'static str = "Tick or untick a task. Read the list first: if the document has moved on since the version you read, this fails and returns the current list so you can retry without a second read.";

pub const TASK_SET_STATUS_DOC: &'static str = "The task list holding the task.";

pub const TASK_SET_STATUS_STATUS: &'static str = "The new state.";

pub const TASK_SET_STATUS_TASK_ID: &'static str = "A line-anchored id from task_list, e.g. `L42`.";

pub const TASK_SET_STATUS_TEXT: &'static str = "The task text you expect at this id, as a second safety check.";

pub const TASK_SET_STATUS_VERSION: &'static str = "The `version` task_list reported. Strongly recommended: it is what makes a stale write fail loudly instead of ticking the wrong line.";

pub const VALIDATE_DOC: &'static str = "Validate a document against the rules for its type: skill frontmatter, progressive-disclosure structure, reference integrity, the command inventory cross-check, and any lint rules the skill declares about itself; prompt slots against declared variables.";

pub const RENDER_PROMPT: &'static str = "Fill a prompt template's `{{slots}}` and return the text. Folio renders prompts; it never sends them to a model.";

pub const RENDER_PROMPT_VARIABLES: &'static str = "Values for the template's slots, keyed by variable name.";

pub const LIST_PROPOSALS: &'static str = "List proposals with their status. This is the feedback loop: a rejected proposal carries the human's note saying why, so read your own rejections before proposing again.";

pub const LIST_PROPOSALS_LIMIT: &'static str = "Maximum proposals to return.";

pub const LIST_PROPOSALS_MINE_ONLY: &'static str = "Only proposals from this MCP client.";

pub const LIST_PROPOSALS_PATH: &'static str = "Restrict to proposals for one document.";

pub const LIST_PROPOSALS_STATUS: &'static str = "Restrict to one status.";

pub const LIST_COMMENTS: &'static str = "List anchored comment threads. Open threads are work items addressed to you: read one, reply to it, then propose an edit with `addressing` set to its id. Accepting that proposal resolves the thread.";

pub const LIST_COMMENTS_LIMIT: &'static str = "Maximum threads to return.";

pub const LIST_COMMENTS_MINE_ONLY: &'static str = "Only threads you have taken part in.";

pub const LIST_COMMENTS_PATH: &'static str = "Restrict to one document.";

pub const LIST_COMMENTS_STATUS: &'static str = "`open` is your inbox. `outdated` means the anchored text has since changed.";

pub const REPLY_COMMENT: &'static str = "Reply in a comment thread. Use it to say what you are going to do before you propose it; the reply lands where the human is already looking.";

pub const REPLY_COMMENT_BODY: &'static str = "The reply text.";

pub const REPLY_COMMENT_COMMENT_ID: &'static str = "The thread to reply in, e.g. `cm_3f21`.";

/// What an agent is told at the handshake.
pub const INSTRUCTIONS: &'static str = "\
Folio is the system of record for this developer's agent-adjacent markdown: docs, prompts, \
task lists, and skills. Files on disk stay plain markdown; Folio keeps the history, the \
review queue, and the comment threads beside them.

Three things to know before you write:

1. Your edits are proposals, not writes. `propose_edit` queues a changeset for human review \
by default. It has not landed until the human accepts it. Task lists are the exception and \
apply immediately, because a list maintained overnight must not block on review.

2. Rejections carry reasons. Call `list_proposals` with `status: rejected` and `mine_only: true` \
before re-proposing; the human's note says what to change.

3. Open comments are your to-do list. `list_comments` with `status: open` is an inbox of \
passages the human has flagged. Reply in the thread, then send a `propose_edit` with \
`addressing` set to the comment id. Accepting it resolves the thread.

Read before you write. For `propose_edit`, pass the exact `version` from `read_doc` as \
`base_version`, prefer a focused patch, and preserve constraints outside the requested scope. \
Task ids are line-anchored and only valid for the version they came from, so pass `version` \
back to `task_set_status`.";

} // verus!
