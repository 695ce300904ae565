//! The two moments that matter, driven through the one entry point: an agent's
//! edit arriving as a proposal that can be read, and a comment closing the loop.

use folio_core::api::today::Group;
use folio_core::artifact::task::Task;
use folio_core::artifact::Validation;
use folio_core::comment::{self, Comment};
use folio_core::corpus::{ArtifactType, Policy};
use folio_core::event::{CommentActivityKind, Event};
use folio_core::proposal::{Decision, Status, WriteOutcome};
use folio_core::version::{Snapshot, Source};
use folio_core::api::dispatch::{asked_path, dispatch, is_ready};
use folio_core::api::index::WalkedFile;
use folio_core::api::request::request;
use folio_core::api::tasks::{StatusWrite, TaskWrite};
use folio_core::api::turn::{Answer, Turn, World};
use folio_core::api::views::to_validate;
use folio_core::api::{Caller, Request};
use folio_core::artifact::references::collect_references;
use folio_core::artifact::skill::{SkillFile, SkillTree};
use folio_core::corpus::roots::{lookups, Place};
use folio_core::corpus::sandbox::{keeps_entry, Found};
use folio_core::disk::Disk;
use folio_core::json::{Json, Numeral};
use folio_core::search::SearchFile;
use folio_core::store::Store;
use folio_core::util::{key_from, lexical_normalize, now_ms};
use folio_core::{Config, Result};

fn agent() -> Caller {
    Caller::agent("sonnet-4.6", "alpha-code")
}

fn you() -> Caller {
    Caller::human()
}

fn text(s: &str) -> Json {
    Json::Text(s.into())
}

fn number(n: usize) -> Json {
    Json::Number(Numeral::Unsigned(n as u64))
}

fn object(members: &[(&str, Json)]) -> Json {
    Json::Object(
        members
            .iter()
            .map(|(k, v)| (k.to_string(), folio_core::json::copy_json(v)))
            .collect(),
    )
}

fn texts(members: &[(&str, &str)]) -> Json {
    Json::Object(members.iter().map(|(k, v)| (k.to_string(), text(v))).collect())
}

/// A store and the files around it, all in memory.
struct Bed {
    store: Store,
    disk: Disk,
    cfg: Config,
}

const CORPUS: &str = "/work/corpus";

impl Bed {
    fn empty() -> Bed {
        Bed { store: Store::open("/store", None), disk: Disk::new(), cfg: Config::default() }
    }

    fn put(&mut self, relative: &str, content: &str) {
        self.disk.write(&self.path(relative), content.as_bytes(), 0);
    }

    fn path(&self, relative: &str) -> String {
        format!("{CORPUS}/{relative}")
    }

    fn read(&self, relative: &str) -> String {
        self.disk.read_text(&self.path(relative)).unwrap()
    }

    fn paths(&self) -> Vec<String> {
        let mut all: Vec<String> = self.disk.files.iter().map(|f| f.path.clone()).collect();
        all.sort();
        all.dedup();
        all
    }

    /// The names of the directories in a directory.
    fn dirs_in(&self, dir: &str) -> Vec<String> {
        let prefix = format!("{dir}/");
        let mut names: Vec<String> = self
            .paths()
            .iter()
            .filter_map(|p| p.strip_prefix(&prefix))
            .filter_map(|rest| rest.split_once('/'))
            .map(|(name, _)| name.to_string())
            .collect();
        names.sort();
        names.dedup();
        names
    }

    fn beside(&self, path: &str) -> Vec<String> {
        match path.rsplit_once('/') {
            Some((dir, _)) => self.dirs_in(dir),
            None => vec![],
        }
    }

    fn walk(&self, root: &str) -> Vec<WalkedFile> {
        let prefix = format!("{root}/");
        self.paths()
            .into_iter()
            .filter(|p| match p.strip_prefix(&prefix) {
                Some(rest) => {
                    let parts: Vec<&str> = rest.split('/').collect();
                    let last = parts.len() - 1;
                    parts.iter().enumerate().all(|(i, name)| keeps_entry(name, i < last))
                }
                None => false,
            })
            .map(|p| WalkedFile { dirs: self.beside(&p), path: p })
            .collect()
    }

    fn look(&self, place: &str) -> Found {
        let key = key_from(&lexical_normalize(place));
        let below = format!("{key}/");
        Found {
            exists: self.paths().iter().any(|p| *p == key || p.starts_with(&below)),
            dirs: self.beside(&key),
            key,
        }
    }

    /// What stands around a document.
    fn tree(&self, path: &str, content: &str) -> SkillTree {
        let dir = path.rsplit_once('/').map(|(d, _)| d.to_string()).unwrap_or_default();
        let prefix = format!("{dir}/");
        let inside: Vec<String> = self
            .paths()
            .iter()
            .filter_map(|p| p.strip_prefix(&prefix).map(|r| r.to_string()))
            .collect();
        let present = collect_references(content)
            .into_iter()
            .map(|r| r.target)
            .filter(|t| inside.contains(&lexical_normalize(t)))
            .collect();
        let disclosed = folio_core::artifact::references::disclosure_dirs();
        let entries: Vec<String> = inside
            .iter()
            .filter(|r| disclosed.iter().any(|d| r.starts_with(&format!("{d}/"))))
            .cloned()
            .collect();
        let commands: Vec<String> = inside
            .iter()
            .filter_map(|r| r.strip_prefix("commands/"))
            .map(|n| n.trim_end_matches(".md").to_string())
            .collect();
        let files = inside
            .iter()
            .map(|r| {
                let path = format!("{dir}/{r}");
                SkillFile { text: self.disk.read_text(&path), path }
            })
            .collect();
        SkillTree {
            present,
            entries,
            commands: if commands.is_empty() { None } else { Some(commands) },
            files,
        }
    }

    fn world(&self, asked: &Request) -> World {
        let found: Vec<Found> = match asked_path(&self.store, &self.disk, asked) {
            Some(path) => {
                lookups(&self.store, &path).iter().map(|p| self.look(p)).collect()
            }
            None => vec![],
        };
        let mut world = World {
            found,
            place: None,
            walks: vec![],
            files: vec![],
            root_key: String::new(),
            trees: vec![],
            siblings: vec![],
            index_bytes: 0,
            watching: 0,
            now: now_ms(),
        };
        match asked {
            Request::AddRoot { path, .. } => {
                if self.look(path).exists {
                    world.place = Some(Place { key: path.clone(), is_dir: true });
                }
                world.walks.push(self.walk(path));
            }
            Request::IndexRoot { id } => {
                let root = self.store.roots.iter().find(|r| r.id == *id);
                world.walks.push(root.map(|r| self.walk(&r.path)).unwrap_or_default());
            }
            Request::IndexAll => {
                world.walks = self.store.roots.iter().map(|r| self.walk(&r.path)).collect();
            }
            Request::SearchDocs { .. } => {
                for root in &self.store.roots {
                    for file in self.walk(&root.path) {
                        world.files.push(SearchFile {
                            root: root.path.clone(),
                            bytes: self.disk.find(&file.path).unwrap().bytes.clone(),
                            path: file.path,
                            dirs: file.dirs,
                        });
                    }
                }
            }
            Request::ValidateDoc { path } => {
                let content = self.disk.read_text(path).unwrap_or_default();
                world.trees.push(self.tree(path, &content));
            }
            Request::ValidateAll { ty } => {
                for doc in to_validate(&self.store, &self.disk, &self.cfg, *ty) {
                    world.trees.push(self.tree(&doc.path, &doc.text));
                    world.siblings.push(self.beside(&doc.path));
                }
            }
            _ => {}
        }
        world
    }

    fn turn(&mut self, caller: &Caller, op: &str, params: &Json) -> Turn {
        let asked = match request(caller, op, params) {
            Ok(asked) => asked,
            Err(e) => return Turn { answer: Err(e), events: vec![] },
        };
        let world = self.world(&asked);
        assert!(is_ready(&self.store, &self.disk, &self.cfg, &world, &asked), "{op}");
        dispatch(&mut self.store, &mut self.disk, &self.cfg, caller, world, asked)
    }

    fn try_call(&mut self, caller: &Caller, op: &str, params: Json) -> Result<Answer> {
        self.turn(caller, op, &params).answer
    }

    fn call(&mut self, caller: &Caller, op: &str, params: Json) -> Answer {
        match self.try_call(caller, op, params) {
            Ok(a) => a,
            Err(e) => panic!("{op} failed: {}", e.message()),
        }
    }
}

impl Bed {
    /// A skill tree, a design document, a prompt library, and a task list that
    /// an agent maintains.
    fn new() -> Bed {
        let mut bed = Bed::empty();
        bed.put("skills/visual-explainer/commands/render.md", "# render\n");
        bed.put("skills/visual-explainer/references/palette.md", "# palette\n");
        bed.put("skills/visual-explainer/SKILL.md", SKILL_MD);
        bed.put("markdowns/DESIGN.md", DESIGN_MD);
        bed.put("prompts/brief.md", BRIEF_MD);
        bed.put("TODO.md", TODO_MD);
        bed.call(&you(), "add_root", texts(&[("path", CORPUS), ("label", "corpus")]));
        bed
    }

    fn propose(&mut self, params: &[(&str, &str)]) -> folio_core::proposal::Proposal {
        match self.call(&agent(), "propose_edit", texts(params)) {
            Answer::Written(WriteOutcome::Proposed { proposal }) => *proposal,
            other => panic!("expected a proposal, got {other:?}"),
        }
    }

    fn comment_on(&mut self, path: &str, content: &str, anchor: &str, body: &str) -> Comment {
        let start = content.find(anchor).unwrap();
        let created = self.call(
            &you(),
            "create_comment",
            object(&[
                ("path", text(path)),
                ("selection_start", number(start)),
                ("selection_end", number(start + anchor.len())),
                ("body", text(body)),
            ]),
        );
        match created {
            Answer::Thread(c) => c,
            other => panic!("{other:?}"),
        }
    }

    fn thread(&mut self, id: &str) -> Comment {
        match self.call(&you(), "get_comment", texts(&[("comment_id", id)])) {
            Answer::Thread(c) => c,
            other => panic!("{other:?}"),
        }
    }

    fn threads(&mut self, caller: &Caller, status: &str) -> Vec<Comment> {
        match self.call(caller, "list_comments", texts(&[("status", status)])) {
            Answer::Threads(v) => v,
            other => panic!("{other:?}"),
        }
    }

    fn hunks_of(&mut self, id: &str) -> usize {
        match self.call(&you(), "proposal_diff", texts(&[("id", id)])) {
            Answer::Review(r) => r.diff.hunks.len(),
            other => panic!("{other:?}"),
        }
    }

    fn accept(&mut self, id: &str) -> Decision {
        match self.call(&you(), "accept_proposal", texts(&[("id", id)])) {
            Answer::Decided(d) => d,
            other => panic!("{other:?}"),
        }
    }

    fn save(&mut self, path: &str, content: &str) -> bool {
        match self.call(&you(), "save_doc", texts(&[("path", path), ("content", content)])) {
            Answer::Saved(o) => o.created,
            other => panic!("{other:?}"),
        }
    }

    fn versions(&mut self, path: &str) -> Vec<Snapshot> {
        match self.call(&you(), "list_versions", texts(&[("path", path)])) {
            Answer::Versions(v) => v,
            other => panic!("{other:?}"),
        }
    }

    fn report(&mut self, path: &str) -> Validation {
        match self.call(&agent(), "validate_doc", texts(&[("path", path)])) {
            Answer::Report(v) => v,
            other => panic!("{other:?}"),
        }
    }

    fn tasks(&mut self, params: Json) -> Vec<Task> {
        match self.call(&agent(), "task_list", params) {
            Answer::Tasks(v) => v,
            other => panic!("{other:?}"),
        }
    }
}

const SKILL_MD: &str = "---\nname: visual-explainer\ndescription: Renders explanations as pictures.\n---\n\n\
Short overview.\n\n\
## Workflow\n\n\
render it as HTML automatically and tell them the file path.\n\
The threshold: if the table has 4+ rows or 3+ columns, it belongs in the browser.\n\
You can still include a brief text summary in the chat,\n\n\
## Commands\n\n\
| Command | Purpose |\n|---|---|\n| `render` | Render it |\n\n\
See [palette](references/palette.md) and [render](commands/render.md).\n\n\
## Quality checks\n\n\
- Does it read at a glance?\n";

const DESIGN_MD: &str = "# Design\n\n\
The first paragraph of the design document.\n\n\
The second paragraph, which will be rewritten.\n\n\
The third paragraph, left alone.\n";

const BRIEF_MD: &str = "---\nname: brief\nvariables: [topic]\n---\n\n\
Write about {{topic}} in a {{tone}} voice.\n";

const TODO_MD: &str = "# TODO\n\n\
- [ ] Ship Folio 1.0 @carlos #release\n\
- [x] Write the spec @carlos\n\
- [ ] Package the installer @carlos #release\n";

const THRESHOLD: &str =
    "The threshold: if the table has 4+ rows or 3+ columns, it belongs in the browser.";

// ---------------------------------------------------------------------------
// Corpus, typing, sandboxing
// ---------------------------------------------------------------------------

#[test]
fn the_corpus_indexes_and_types_by_structure() {
    let mut bed = Bed::new();
    let Answer::Docs(docs) = bed.call(&agent(), "list_docs", texts(&[])) else { panic!() };
    let by_type = |want: ArtifactType| -> Vec<String> {
        docs.iter()
            .filter(|d| d.artifact_type == want)
            .map(|d| d.relative.clone())
            .collect()
    };

    assert_eq!(by_type(ArtifactType::Skill), vec!["skills/visual-explainer/SKILL.md"]);
    assert_eq!(by_type(ArtifactType::Prompt), vec!["prompts/brief.md"]);
    assert_eq!(by_type(ArtifactType::TaskList), vec!["TODO.md"]);
    assert!(by_type(ArtifactType::Doc).contains(&"markdowns/DESIGN.md".to_string()));
    // The skill's own files are tracked too, as plain docs.
    assert!(docs.len() >= 6, "everything under the root is indexed: {docs:#?}");
}

#[test]
fn a_large_directory_indexes_markdown_without_copying_unrelated_bytes() {
    let mut bed = Bed::empty();
    bed.put("notes.md", "# Notes\n");
    bed.put("archive.bin", "\u{0}\u{1}\u{2}");
    let Answer::RootAdded((_, indexed)) = bed.call(&you(), "add_root", texts(&[("path", CORPUS)]))
    else {
        panic!()
    };
    assert_eq!(indexed, 1);
    let Answer::Docs(docs) = bed.call(&you(), "list_docs", texts(&[])) else { panic!() };
    assert_eq!(docs.len(), 1);
    assert_eq!(docs[0].relative, "notes.md");
}

#[test]
fn an_operation_on_a_path_outside_the_roots_changes_nothing() {
    let mut bed = Bed::new();
    let versions = bed.store.snapshots.len();
    let files = bed.disk.files.len();
    for (op, params) in [
        ("save_doc", vec![("path", "/etc/hosts"), ("content", "x")]),
        ("create_doc", vec![("path", "/etc/new.md"), ("content", "x")]),
        ("checkpoint", vec![("path", "/etc/hosts"), ("message", "m")]),
        ("restore_version", vec![("path", "/etc/hosts"), ("version_id", "v")]),
        ("propose_edit", vec![("path", "/etc/hosts"), ("content", "x")]),
        ("task_add", vec![("doc", "/etc/TODO.md"), ("text", "x")]),
        ("validate_doc", vec![("path", "/etc/hosts")]),
    ] {
        let err = bed.try_call(&you(), op, texts(&params)).expect_err(op);
        assert_eq!(err.code(), "outside_root", "{op}: {}", err.message());
        assert_eq!(bed.store.snapshots.len(), versions);
        assert_eq!(bed.disk.files.len(), files);
        assert!(bed.store.proposals.is_empty());
    }
}

#[test]
fn a_path_escape_is_rejected() {
    let mut bed = Bed::new();
    for escape in [
        "../outside.md",
        "markdowns/../../outside.md",
        "C:/Windows/System32/drivers/etc/hosts",
        "/etc/passwd",
    ] {
        let err = bed.try_call(&agent(), "read_doc", texts(&[("path", escape)]));
        let err = err.expect_err(&format!("`{escape}` must not resolve"));
        assert!(
            matches!(err.code(), "outside_root" | "not_found" | "invalid"),
            "`{escape}` gave {}: {}",
            err.code(),
            err.message()
        );
    }
}

#[test]
fn search_finds_matches_with_line_numbers() {
    let mut bed = Bed::new();
    let result = bed.call(
        &agent(),
        "search_docs",
        texts(&[("query", "threshold"), ("glob", "skills/**")]),
    );
    let Answer::Matches(matches) = result else { panic!() };
    assert_eq!(matches.len(), 1);
    assert!(matches[0].text.contains("The threshold"));
    assert!(matches[0].line > 1);
}

// ---------------------------------------------------------------------------
// Proposals
// ---------------------------------------------------------------------------

#[test]
fn an_agent_edit_arrives_as_a_reviewable_proposal_end_to_end() {
    let mut bed = Bed::new();
    let path = bed.path("markdowns/DESIGN.md");

    // The agent reads, then writes.
    let Answer::Doc(doc) = bed.call(&agent(), "read_doc", texts(&[("path", &path)])) else {
        panic!()
    };
    let original = doc.content;
    let proposed = original.replace(
        "The second paragraph, which will be rewritten.",
        "The second paragraph, rewritten by an agent.",
    );
    let p = bed.propose(&[
        ("path", &path),
        ("content", &proposed),
        ("message", "Tighten the second paragraph"),
    ]);

    // Nothing has touched the file.
    assert_eq!(bed.read("markdowns/DESIGN.md"), original);

    // The human sees it, with a prose diff.
    let Answer::Proposals(pending) =
        bed.call(&you(), "list_proposals", texts(&[("status", "pending")]))
    else {
        panic!()
    };
    assert_eq!(pending.len(), 1);
    assert_eq!(bed.hunks_of(&p.id), 1, "one paragraph changed, one hunk");

    // Accepting applies it and records the agent as the author.
    let decision = bed.accept(&p.id);
    assert_eq!(decision.proposal.status, Status::Accepted);
    let snapshot = decision.snapshot.unwrap();
    assert_eq!(snapshot.author, "sonnet-4.6");
    assert_eq!(snapshot.source, Source::Proposal);
    assert!(bed.read("markdowns/DESIGN.md").contains("rewritten by an agent"));
}

#[test]
fn end_to_end_hunk_level_accept_applies_exactly_the_accepted_hunks() {
    let mut bed = Bed::new();
    let path = bed.path("markdowns/DESIGN.md");
    let original = bed.read("markdowns/DESIGN.md");
    let proposed = original
        .replace("The first paragraph", "The FIRST paragraph")
        .replace("The third paragraph", "The THIRD paragraph");
    let p = bed.propose(&[("path", &path), ("content", &proposed), ("message", "shout twice")]);
    assert_eq!(bed.hunks_of(&p.id), 2);

    bed.call(
        &you(),
        "accept_proposal",
        object(&[("id", text(&p.id)), ("hunks", Json::Array(vec![number(1)]))]),
    );
    let after = bed.read("markdowns/DESIGN.md");
    assert!(after.contains("The first paragraph"), "hunk 0 was rejected");
    assert!(after.contains("The THIRD paragraph"), "hunk 1 was accepted");
}

#[test]
fn a_rejection_note_is_the_feedback_loop() {
    let mut bed = Bed::new();
    let path = bed.path("markdowns/DESIGN.md");
    let proposed = bed.read("markdowns/DESIGN.md").replace("Design", "DESIGN");
    let p = bed.propose(&[("path", &path), ("content", &proposed), ("message", "shout the title")]);

    bed.call(
        &you(),
        "reject_proposal",
        texts(&[
            ("id", &p.id),
            ("note", "Keep the title as it is; shouting is not tightening."),
        ]),
    );

    // The agent reads its own rejections back.
    let Answer::Proposals(mine) = bed.call(
        &agent(),
        "list_proposals",
        object(&[("status", text("rejected")), ("mine_only", Json::Bool(true))]),
    ) else {
        panic!()
    };
    assert_eq!(mine.len(), 1);
    assert!(mine[0].decision_note.as_ref().unwrap().contains("shouting is not tightening"));
}

#[test]
fn a_proposal_queued_headless_is_waiting_later() {
    let mut bed = Bed::empty();
    bed.put("NOTE.md", "one\n\ntwo\n");
    bed.call(&you(), "add_root", texts(&[("path", CORPUS)]));
    let path = bed.path("NOTE.md");
    let p = bed.propose(&[("path", &path), ("content", "one\n\nTWO\n"), ("message", "overnight")]);

    let Answer::Proposals(pending) =
        bed.call(&you(), "list_proposals", texts(&[("status", "pending")]))
    else {
        panic!()
    };
    assert_eq!(pending.len(), 1);
    assert_eq!(pending[0].id, p.id);
    assert_eq!(
        bed.read("NOTE.md"),
        "one\n\ntwo\n",
        "nothing was written while the app was closed"
    );
}

// ---------------------------------------------------------------------------
// Anchored comments
// ---------------------------------------------------------------------------

#[test]
fn a_comment_closes_the_loop_from_highlight_to_resolution() {
    let mut bed = Bed::new();
    let path = bed.path("skills/visual-explainer/SKILL.md");
    let content = bed.read("skills/visual-explainer/SKILL.md");

    // You highlight and comment.
    let created = bed.comment_on(
        &path,
        &content,
        THRESHOLD,
        "4+ is too aggressive; two-column comparisons render fine inline. Make it 4 rows AND 4 columns.",
    );
    let id = created.id;
    assert_eq!(created.status, comment::Status::Open);

    // The agent finds it as a work item and replies.
    let inbox = bed.threads(&agent(), "open");
    assert_eq!(inbox.len(), 1);
    assert_eq!(inbox[0].id, id);
    bed.call(
        &agent(),
        "reply_comment",
        texts(&[
            ("comment_id", &id),
            ("body", "Tightened to 4 rows and 4 columns. A proposal addresses this."),
        ]),
    );

    // The agent proposes an edit addressing the comment.
    let fixed = content.replace("4+ rows or 3+ columns", "4 rows and 4 columns");
    let p = bed.propose(&[
        ("path", &path),
        ("content", &fixed),
        ("message", "Tighten the proactive-table threshold"),
        ("addressing", &id),
    ]);

    // The proposal card carries the comment it answers.
    let Answer::Review(review) = bed.call(&you(), "proposal_diff", texts(&[("id", &p.id)])) else {
        panic!()
    };
    assert_eq!(review.addresses.unwrap().id, id);

    // Accepting closes the thread.
    let decision = bed.accept(&p.id);
    assert_eq!(decision.resolved_comment.as_deref(), Some(id.as_str()));
    let resolved = bed.thread(&id);
    assert_eq!(resolved.status, comment::Status::Resolved);
    assert_eq!(resolved.resolved_by.as_deref(), Some("you"));
    assert_eq!(resolved.addressed_by_proposal.as_deref(), Some(p.id.as_str()));
    assert!(bed.read("skills/visual-explainer/SKILL.md").contains("4 rows and 4 columns"));
}

#[test]
fn rejecting_an_addressing_proposal_leaves_the_thread_open_with_the_note_in_it() {
    let mut bed = Bed::new();
    let path = bed.path("skills/visual-explainer/SKILL.md");
    let content = bed.read("skills/visual-explainer/SKILL.md");
    let id = bed.comment_on(&path, &content, THRESHOLD, "Reconsider the threshold.").id;
    let p = bed.propose(&[
        ("path", &path),
        ("content", &content.replace("4+ rows or 3+ columns", "2 rows or 2 columns")),
        ("message", "Loosen it a lot"),
        ("addressing", &id),
    ]);
    bed.call(
        &you(),
        "reject_proposal",
        texts(&[("id", &p.id), ("note", "Too loose. Try 4 rows AND 4 columns.")]),
    );

    let thread = bed.thread(&id);
    assert_eq!(thread.status, comment::Status::Open, "rejection leaves it open");
    assert!(
        thread.replies.iter().any(|r| r.body.contains("Too loose")),
        "the rejection note is filed into the thread: {:#?}",
        thread.replies
    );
}

#[test]
fn a_comment_survives_its_paragraph_moving_and_goes_outdated_when_edited() {
    let mut bed = Bed::new();
    let path = bed.path("markdowns/DESIGN.md");
    let content = bed.read("markdowns/DESIGN.md");
    let anchor = "The second paragraph, which will be rewritten.";
    let id = bed.comment_on(&path, &content, anchor, "This one needs work.").id;

    // The paragraph moves verbatim, with new prose above it.
    let moved = format!(
        "# Design\n\nA brand new opening that did not exist before.\n\n{anchor}\n\n\
         The first paragraph of the design document.\n\nThe third paragraph, left alone.\n"
    );
    bed.save(&path, &moved);
    let after_move = bed.thread(&id);
    assert_eq!(after_move.status, comment::Status::Open, "a moved anchor still pins");
    assert!(after_move.anchor.is_some());

    // Now the anchored text itself changes.
    let edited = moved.replace(anchor, "The second paragraph, now entirely different.");
    bed.save(&path, &edited);
    let after_edit = bed.thread(&id);
    assert_eq!(after_edit.status, comment::Status::Outdated, "never silently dropped");
    assert_eq!(bed.threads(&you(), "outdated").len(), 1);
}

// ---------------------------------------------------------------------------
// Artifact intelligence
// ---------------------------------------------------------------------------

#[test]
fn a_real_skill_tree_validates_and_reports_reference_integrity() {
    let mut bed = Bed::new();
    let path = bed.path("skills/visual-explainer/SKILL.md");
    let clean = bed.report(&path);
    assert_eq!(clean.artifact_type, ArtifactType::Skill);
    assert_eq!(clean.errors, 0, "the fixture skill is sound: {clean:#?}");

    // Break a reference and the finding is specific and located.
    let content = bed
        .read("skills/visual-explainer/SKILL.md")
        .replace("references/palette.md", "references/gone.md");
    bed.save(&path, &content);
    let broken = bed.report(&path);
    assert!(broken.findings.iter().any(|f| f.rule == "skill.reference.missing"));
    assert!(
        broken.findings.iter().any(|f| f.rule == "skill.reference.orphan"
            && f.file.as_deref() == Some("references/palette.md")),
        "the now-unreferenced file is reported: {:#?}",
        broken.findings
    );
    assert!(broken.errors > 0);
}

#[test]
fn a_prompt_with_an_undeclared_slot_is_flagged_and_renders_once_fixed() {
    let mut bed = Bed::new();
    let path = bed.path("prompts/brief.md");
    let report = bed.report(&path);
    assert_eq!(report.artifact_type, ArtifactType::Prompt);
    assert!(
        report
            .findings
            .iter()
            .any(|f| f.rule == "prompt.slot.undeclared" && f.message.contains("tone")),
        "{:#?}",
        report.findings
    );

    // Rendering with a hole is refused.
    let half = object(&[("path", text(&path)), ("variables", texts(&[("topic", "otters")]))]);
    let err = bed.try_call(&agent(), "render_prompt", half).unwrap_err();
    assert_eq!(err.code(), "invalid");
    assert!(err.message().contains("tone"));

    let both = object(&[
        ("path", text(&path)),
        ("variables", texts(&[("topic", "otters"), ("tone", "dry")])),
    ]);
    let Answer::Rendered(r) = bed.call(&agent(), "render_prompt", both) else { panic!() };
    assert_eq!(r.rendered, "Write about otters in a dry voice.\n");
}

// ---------------------------------------------------------------------------
// Task lists and Today
// ---------------------------------------------------------------------------

#[test]
fn an_agent_maintains_the_task_list_directly_and_it_shows_up_in_today() {
    let mut bed = Bed::new();
    let todo = bed.path("TODO.md");

    // The default policy for a task list is `direct`: an agent maintaining
    // TODO.md overnight must not block on review.
    let Answer::TaskAdded((added, _)) = bed.call(
        &agent(),
        "task_add",
        texts(&[
            ("doc", &todo),
            ("text", "Write the release notes"),
            ("owner", "carlos"),
            ("tag", "release"),
        ]),
    ) else {
        panic!()
    };
    assert!(matches!(added, TaskWrite::Routed(WriteOutcome::Applied { .. })));
    assert!(bed.read("TODO.md").contains("- [ ] Write the release notes @carlos #release"));

    // Read, then write.
    let tasks = bed.tasks(object(&[("doc", text(&todo)), ("open_only", Json::Bool(true))]));
    let ship =
        tasks.iter().find(|t| t.text == "Ship Folio 1.0").expect("the open task is listed");
    let ticked = bed.call(
        &agent(),
        "task_set_status",
        texts(&[
            ("doc", &todo),
            ("task_id", &ship.id),
            ("status", "done"),
            ("version", ship.version.as_ref().unwrap()),
            ("text", "Ship Folio 1.0"),
        ]),
    );
    assert!(matches!(ticked, Answer::TaskTicked(StatusWrite::Written(_))));
    assert!(bed.read("TODO.md").contains("- [x] Ship Folio 1.0 @carlos #release"));

    // Today aggregates what is left, grouped by owner and tag.
    let Answer::Today(today) = bed.call(&you(), "today", texts(&[])) else { panic!() };
    assert_eq!(today.open.len(), 2);
    let members = |groups: &[Group], key: &str| {
        groups.iter().find(|g| g.key == key).map(|g| g.members.len())
    };
    assert_eq!(members(&today.by_owner, "carlos"), Some(2));
    assert_eq!(members(&today.by_tag, "release"), Some(2));

    // Overnight changes are grouped by author.
    assert!(members(&today.by_author, "sonnet-4.6").is_some(), "{:#?}", today.by_author);
}

#[test]
fn a_stale_task_write_fails_with_the_current_list_attached() {
    let mut bed = Bed::new();
    let todo = bed.path("TODO.md");
    let listed = bed.tasks(texts(&[("doc", &todo)]));
    let stale_version = listed[0].version.clone().unwrap();
    let task_id = listed[0].id.clone();

    // Somebody else rewrites the list underneath.
    bed.save(
        &todo,
        "# TODO\n\n- [ ] Something else entirely @carlos\n- [ ] Ship Folio 1.0 @carlos #release\n",
    );

    let err = bed
        .try_call(
            &agent(),
            "task_set_status",
            texts(&[
                ("doc", &todo),
                ("task_id", &task_id),
                ("status", "done"),
                ("version", &stale_version),
            ]),
        )
        .unwrap_err();
    assert_eq!(err.code(), "stale");
    let data = err.data().expect("the current list must be attached");
    let Some(Json::Array(tasks)) = data.get("tasks") else { panic!() };
    assert_eq!(tasks.len(), 2, "the retry needs no second read");
    assert_ne!(data.get("version").unwrap().as_str().unwrap(), stale_version);
}

// ---------------------------------------------------------------------------
// Versioning
// ---------------------------------------------------------------------------

#[test]
fn versioning_is_ambient_and_restores_are_undoable() {
    let mut bed = Bed::new();
    let path = bed.path("markdowns/DESIGN.md");
    assert_eq!(bed.versions(&path).len(), 1, "indexing a root records one version per file");

    // Re-saving unchanged content creates nothing.
    let same = bed.read("markdowns/DESIGN.md");
    assert!(!bed.save(&path, &same));

    bed.save(&path, "# Design\n\nRewritten.\n");
    bed.call(
        &you(),
        "checkpoint",
        texts(&[("path", &path), ("message", "before restructuring")]),
    );
    let versions = bed.versions(&path);
    assert_eq!(versions.len(), 3);
    assert_eq!(versions[0].source, Source::Checkpoint);
    assert_eq!(versions[0].message.as_deref(), Some("before restructuring"));

    // Restore the original, and the restore is itself a version.
    let oldest = versions.last().unwrap().id.clone();
    bed.call(
        &you(),
        "restore_version",
        texts(&[("path", &path), ("version_id", &oldest)]),
    );
    assert_eq!(bed.read("markdowns/DESIGN.md"), DESIGN_MD);
    let after = bed.versions(&path);
    assert_eq!(after.len(), 4);
    assert_eq!(after[0].source, Source::Restore);
}

#[test]
fn history_exports_as_a_patch_series_without_touching_git() {
    let mut bed = Bed::new();
    let path = bed.path("markdowns/DESIGN.md");
    bed.save(&path, "# Design\n\nSecond version.\n");
    let Answer::History(h) = bed.call(&you(), "export_history", texts(&[("path", &path)])) else {
        panic!()
    };
    assert!(h.series.contains("Subject: [PATCH 1/2]"));
    assert!(h.series.contains("diff --git"));
    assert!(!bed.paths().iter().any(|p| p.contains("/.git")));
}

// ---------------------------------------------------------------------------
// Policy
// ---------------------------------------------------------------------------

#[test]
fn write_policy_is_enforced_in_the_core_and_overridable_per_path() {
    let mut bed = Bed::new();
    let Answer::Roots(roots) = bed.call(&you(), "list_roots", texts(&[])) else { panic!() };
    let root_id = roots[0].root.id.clone();

    // A doc proposes by default.
    let doc = bed.path("markdowns/DESIGN.md");
    bed.propose(&[("path", &doc), ("content", "# Design\n\nChanged.\n")]);

    // Pin that one path to `direct` and the same call now writes through.
    bed.call(
        &you(),
        "set_path_policy",
        texts(&[("root_id", &root_id), ("pattern", "markdowns/**"), ("policy", "direct")]),
    );
    let outcome = bed.call(
        &agent(),
        "propose_edit",
        texts(&[("path", &doc), ("content", "# Design\n\nChanged directly.\n")]),
    );
    assert!(matches!(outcome, Answer::Written(WriteOutcome::Applied { .. })));
    assert!(bed.read("markdowns/DESIGN.md").contains("Changed directly"));

    // And the reverse: pin the task list to `propose` and it stops applying.
    bed.call(
        &you(),
        "set_path_policy",
        texts(&[("root_id", &root_id), ("pattern", "TODO.md"), ("policy", "propose")]),
    );
    let todo = bed.path("TODO.md");
    let outcome =
        bed.call(&agent(), "task_add", texts(&[("doc", &todo), ("text", "Gated now")]));
    assert!(matches!(
        outcome,
        Answer::TaskAdded((TaskWrite::Routed(WriteOutcome::Proposed { .. }), _))
    ));
    assert!(!bed.read("TODO.md").contains("Gated now"));
}

#[test]
fn agents_cannot_decide_proposals_or_resolve_threads() {
    let mut bed = Bed::new();
    let path = bed.path("markdowns/DESIGN.md");
    let p = bed.propose(&[("path", &path), ("content", "# Design\n\nChanged.\n")]);

    for (op, params) in [
        ("accept_proposal", texts(&[("id", &p.id)])),
        ("reject_proposal", texts(&[("id", &p.id), ("note", "no")])),
        ("save_doc", texts(&[("path", &path), ("content", "sneaky")])),
        ("restore_version", texts(&[("path", &path), ("version_id", "snap_x")])),
    ] {
        let err = bed.try_call(&agent(), op, params);
        let err = err.expect_err(&format!("{op} must be human-only"));
        assert_eq!(err.code(), "policy_denied", "{op} gave {}", err.message());
    }

    // And the file is untouched by any of it.
    assert_eq!(bed.read("markdowns/DESIGN.md"), DESIGN_MD);
}

#[test]
fn an_agent_decides_nothing_even_with_a_request_at_hand() {
    let mut bed = Bed::new();
    let path = bed.path("markdowns/DESIGN.md");
    let p = bed.propose(&[("path", &path), ("content", "# Design\n\nChanged.\n")]);
    let asked = || Request::AcceptProposal { id: p.id.clone(), hunks: None };

    let world = bed.world(&asked());
    let turn = dispatch(&mut bed.store, &mut bed.disk, &bed.cfg, &agent(), world, asked());
    assert_eq!(turn.answer.err().unwrap().code(), "policy_denied");
    assert!(turn.events.is_empty());
    assert_eq!(bed.read("markdowns/DESIGN.md"), DESIGN_MD);

    let before: Vec<String> = bed.disk.files.iter().map(|f| f.path.clone()).collect();
    let world = bed.world(&asked());
    let turn = dispatch(&mut bed.store, &mut bed.disk, &bed.cfg, &you(), world, asked());
    assert!(turn.answer.is_ok());
    assert_eq!(bed.read("markdowns/DESIGN.md"), "# Design\n\nChanged.\n");
    let after: Vec<String> = bed.disk.files.iter().map(|f| f.path.clone()).collect();
    assert_eq!(after[..before.len()], before[..]);
    assert_eq!(after[before.len()..], [path]);
}

#[test]
fn usage_instrumentation_is_opt_in_context_free_and_human_controlled() {
    let mut bed = Bed::new();
    let launch = || texts(&[("session", "launch-1"), ("event", "view.today")]);
    let on = || object(&[("enabled", Json::Bool(true))]);

    let initial = bed.call(&you(), "instrumentation_status", texts(&[]));
    assert!(matches!(initial, Answer::Instrumentation((false, 0))));
    let recorded = bed.call(&you(), "record_usage_event", launch());
    assert!(matches!(recorded, Answer::UsageRecorded(false)));

    let denied = bed.try_call(&agent(), "set_instrumentation", on()).unwrap_err();
    assert_eq!(denied.code(), "policy_denied");

    bed.call(&you(), "set_instrumentation", on());
    bed.call(&you(), "record_usage_event", launch());
    let Answer::Usage(events) = bed.call(&you(), "export_usage_events", texts(&[])) else {
        panic!()
    };
    assert_eq!(events.len(), 1);
    assert_eq!(events[0].event, "view.today");
    assert_eq!(events[0].session, "launch-1");
    assert_eq!(events[0].app_version, folio_core::VERSION);

    assert!(matches!(bed.call(&you(), "clear_usage_events", texts(&[])), Answer::Cleared(1)));
    assert!(matches!(
        bed.call(&you(), "instrumentation_status", texts(&[])),
        Answer::Instrumentation((true, 0))
    ));
}

#[test]
fn emptying_a_document_is_a_legitimate_edit() {
    let mut bed = Bed::new();
    let path = bed.path("markdowns/DESIGN.md");

    // An empty string is a value, not an absence: the editor must be able to
    // clear a file, and an agent must be able to propose clearing one.
    let p = bed.propose(&[("path", &path), ("content", ""), ("message", "empty it")]);
    bed.accept(&p.id);
    assert_eq!(bed.read("markdowns/DESIGN.md"), "");

    bed.save(&path, "# Back\n");
    assert_eq!(bed.read("markdowns/DESIGN.md"), "# Back\n");
}

// ---------------------------------------------------------------------------
// Every other operation
// ---------------------------------------------------------------------------

#[test]
fn what_is_asked_for_wrongly_is_turned_down() {
    let mut bed = Bed::new();
    let unknown = bed.try_call(&you(), "fly", texts(&[])).unwrap_err();
    assert_eq!(unknown.code(), "unknown_op");
    let missing = bed.try_call(&agent(), "read_doc", texts(&[])).unwrap_err();
    assert_eq!(missing.code(), "invalid");
    assert_eq!(missing.message(), "invalid: `path` is required");
    let elsewhere = bed.try_call(&you(), "start_watching", texts(&[])).unwrap_err();
    assert_eq!(elsewhere.code(), "unknown_op");
    let denied = bed.try_call(&agent(), "start_watching", texts(&[])).unwrap_err();
    assert_eq!(denied.code(), "policy_denied");
}

#[test]
fn a_root_is_registered_configured_and_forgotten() {
    let mut bed = Bed::empty();
    bed.put("a.md", "# A\n");
    let turn = bed.turn(&agent(), "add_root", &texts(&[("path", CORPUS)]));
    assert!(matches!(turn.events[..], [Event::CorpusChanged]));
    let Ok(Answer::RootAdded((root, 1))) = turn.answer else { panic!() };

    let Answer::RootSet(changed) = bed.call(
        &you(),
        "set_root_policy",
        texts(&[("id", &root.id), ("policy", "direct")]),
    ) else {
        panic!()
    };
    assert_eq!(changed.policy, Policy::Direct);

    let Answer::PolicySet(pinned) = bed.call(
        &you(),
        "set_path_policy",
        texts(&[("root_id", &root.id), ("pattern", "*.md"), ("policy", "propose")]),
    ) else {
        panic!()
    };
    let root_id = || texts(&[("root_id", &root.id)]);
    let Answer::Policies(all) = bed.call(&agent(), "list_path_policies", root_id()) else {
        panic!()
    };
    assert_eq!(all.len(), 1);
    bed.call(&you(), "remove_path_policy", texts(&[("id", &pinned.id)]));
    let Answer::Policies(none) = bed.call(&agent(), "list_path_policies", root_id()) else {
        panic!()
    };
    assert!(none.is_empty());

    bed.call(&you(), "remove_root", texts(&[("id", &root.id)]));
    let Answer::Roots(left) = bed.call(&you(), "list_roots", texts(&[])) else { panic!() };
    assert!(left.is_empty());
    let lost = bed.try_call(&you(), "index_root", texts(&[("id", &root.id)])).unwrap_err();
    assert_eq!(lost.code(), "not_found");
}

#[test]
fn indexing_again_records_nothing_new() {
    let mut bed = Bed::new();
    let before = bed.store.snapshots.len();
    let Answer::Indexed(n) = bed.call(&you(), "index_all", texts(&[])) else { panic!() };
    assert_eq!(n, 0);
    assert_eq!(bed.store.snapshots.len(), before);
    bed.put("new.md", "# New\n");
    let Answer::Indexed(n) = bed.call(&you(), "index_all", texts(&[])) else { panic!() };
    assert_eq!(n, 1);
}

#[test]
fn a_document_is_created_once() {
    let mut bed = Bed::new();
    let path = bed.path("markdowns/new.md");
    let ask = || texts(&[("path", &path), ("content", "# New\n")]);
    let turn = bed.turn(&you(), "create_doc", &ask());
    assert!(matches!(turn.events[..], [Event::SnapshotCreated { .. }]));
    assert!(matches!(turn.answer, Ok(Answer::Created(_))));
    assert_eq!(bed.read("markdowns/new.md"), "# New\n");
    assert_eq!(bed.try_call(&you(), "create_doc", ask()).unwrap_err().code(), "invalid");
}

#[test]
fn saving_is_news_only_when_something_changed() {
    let mut bed = Bed::new();
    let path = bed.path("markdowns/DESIGN.md");
    let same = bed.read("markdowns/DESIGN.md");
    let turn = bed.turn(&you(), "save_doc", &texts(&[("path", &path), ("content", &same)]));
    assert!(turn.events.is_empty());
    let turn = bed.turn(&you(), "save_doc", &texts(&[("path", &path), ("content", "x\n")]));
    assert!(matches!(turn.events[..], [Event::SnapshotCreated { .. }]));
}

#[test]
fn two_versions_are_compared() {
    let mut bed = Bed::new();
    let path = bed.path("markdowns/DESIGN.md");
    bed.save(&path, "# Design\n\nSecond version.\n");
    let Answer::Compared(d) = bed.call(&agent(), "diff_versions", texts(&[("path", &path)])) else {
        panic!()
    };
    assert_eq!(d.old, DESIGN_MD);
    assert_eq!(d.new, "# Design\n\nSecond version.\n");
    assert!(d.unified.contains("+Second version."));
    let Answer::Version((_, text)) = bed.call(
        &agent(),
        "read_version",
        texts(&[("path", &path), ("version_id", "~1")]),
    ) else {
        panic!()
    };
    assert_eq!(text, DESIGN_MD);
}

#[test]
fn every_prompt_of_the_corpus_is_validated() {
    let mut bed = Bed::new();
    let Answer::Reports(r) = bed.call(&you(), "validate_all", texts(&[("type", "prompt")])) else {
        panic!()
    };
    assert_eq!(r.reports.len(), 1);
    assert_eq!(r.errors, r.reports[0].errors);
    assert_eq!(r.warnings, r.reports[0].warnings);
    let Answer::Reports(s) = bed.call(&you(), "validate_all", texts(&[])) else { panic!() };
    assert_eq!(s.reports.len(), 1);
    assert_eq!(s.reports[0].artifact_type, ArtifactType::Skill);
}

#[test]
fn a_thread_is_answered_settled_reopened_and_removed() {
    let mut bed = Bed::new();
    let path = bed.path("markdowns/DESIGN.md");
    let content = bed.read("markdowns/DESIGN.md");
    let id = bed.comment_on(&path, &content, "The third paragraph", "Why?").id;
    let ask = || texts(&[("comment_id", &id)]);

    let said = bed.turn(
        &you(),
        "reply_comment",
        &texts(&[("comment_id", &id), ("body", "Because.")]),
    );
    assert!(matches!(
        said.events[..],
        [Event::CommentActivity { kind: CommentActivityKind::Replied, .. }]
    ));
    let settled = bed.turn(&you(), "resolve_comment", &ask());
    assert!(matches!(
        settled.events[..],
        [Event::CommentActivity { kind: CommentActivityKind::Resolved, .. }]
    ));
    assert_eq!(bed.thread(&id).status, comment::Status::Resolved);
    bed.call(&you(), "reopen_comment", ask());
    assert_eq!(bed.thread(&id).status, comment::Status::Open);
    assert_eq!(bed.thread(&id).replies.len(), 1);

    let Answer::Threads(here) = bed.call(&you(), "list_comments", texts(&[("path", &path)])) else {
        panic!()
    };
    assert_eq!(here.len(), 1);
    let todo = bed.path("TODO.md");
    let Answer::Threads(there) = bed.call(&you(), "list_comments", texts(&[("path", &todo)])) else {
        panic!()
    };
    assert!(there.is_empty());

    let gone = bed.turn(&you(), "delete_comment", &ask());
    assert!(matches!(
        gone.events[..],
        [Event::CommentActivity { kind: CommentActivityKind::Deleted, .. }]
    ));
    assert_eq!(bed.try_call(&you(), "get_comment", ask()).unwrap_err().code(), "not_found");
}

#[test]
fn an_agent_that_floods_a_thread_is_told() {
    let mut bed = Bed::new();
    bed.cfg.reply_rate_limit = 1;
    let path = bed.path("markdowns/DESIGN.md");
    let content = bed.read("markdowns/DESIGN.md");
    let id = bed.comment_on(&path, &content, "The third paragraph", "Why?").id;
    let ask = || texts(&[("comment_id", &id), ("body", "Working on it.")]);
    bed.call(&agent(), "reply_comment", ask());
    let err = bed.try_call(&agent(), "reply_comment", ask()).unwrap_err();
    assert_eq!(err.code(), "rate_limited");
    // Nobody counts the human user's replies.
    bed.call(&you(), "reply_comment", ask());
    bed.call(&you(), "reply_comment", ask());
}

#[test]
fn a_conflict_is_rebased_and_the_frontend_told() {
    let mut bed = Bed::new();
    let path = bed.path("markdowns/DESIGN.md");
    let original = bed.read("markdowns/DESIGN.md");
    let p = bed.propose(&[
        ("path", &path),
        ("content", &original.replace("The third", "The THIRD")),
        ("message", "shout"),
    ]);
    bed.save(&path, &original.replace("The first", "The FIRST"));
    let turn = bed.turn(&you(), "rebase_proposal", &texts(&[("id", &p.id)]));
    assert!(matches!(turn.events[..], [Event::ProposalDecided { .. }]));
    bed.accept(&p.id);
    let merged = bed.read("markdowns/DESIGN.md");
    assert!(merged.contains("The FIRST") && merged.contains("The THIRD"));
    let lost = bed.try_call(&you(), "accept_proposal", texts(&[("id", "prop_none")]));
    assert_eq!(lost.unwrap_err().code(), "not_found");
}

#[test]
fn accepting_tells_of_the_version_the_decision_and_the_thread() {
    let mut bed = Bed::new();
    let path = bed.path("markdowns/DESIGN.md");
    let content = bed.read("markdowns/DESIGN.md");
    let id = bed.comment_on(&path, &content, "The third paragraph", "Shout it.").id;
    let p = bed.propose(&[
        ("path", &path),
        ("content", &content.replace("The third", "The THIRD")),
        ("addressing", &id),
    ]);
    let turn = bed.turn(&you(), "accept_proposal", &texts(&[("id", &p.id)]));
    assert!(matches!(
        turn.events[..],
        [
            Event::SnapshotCreated { .. },
            Event::ProposalDecided { .. },
            Event::CommentActivity { kind: CommentActivityKind::Resolved, .. },
        ]
    ));
}

#[test]
fn a_review_starts_where_the_last_one_was_marked() {
    let mut bed = Bed::new();
    let Answer::Reviewed(at) = bed.call(&you(), "mark_reviewed", texts(&[])) else { panic!() };
    let Answer::Today(today) = bed.call(&you(), "today", texts(&[])) else { panic!() };
    assert_eq!(today.since, at);
    assert_eq!(bed.store.get_meta("last_review_at"), Some(at.to_string()));
}

#[test]
fn a_client_that_shows_itself_is_in_the_status() {
    let mut bed = Bed::new();
    let turn = bed.turn(&agent(), "touch_client", &texts(&[("name", "alpha-code")]));
    let [Event::ClientsChanged { clients }] = &turn.events[..] else { panic!() };
    assert_eq!(clients[0].name, "alpha-code");
    assert_eq!(clients[0].mode, "headless");
    let Answer::Status(s) = bed.call(&you(), "status", texts(&[])) else { panic!() };
    assert_eq!(s.clients.len(), 1);
    assert_eq!(s.roots, 1);
    assert_eq!(s.pending_proposals, 0);
    assert!(s.store_bytes > 0);
}

#[test]
fn scraps_of_interface_state_are_kept_apart() {
    let mut bed = Bed::new();
    bed.call(&you(), "ui_state_set", texts(&[("key", "theme"), ("value", "dark")]));
    let Answer::UiValue(v) = bed.call(&agent(), "ui_state_get", texts(&[("key", "theme")])) else {
        panic!()
    };
    assert_eq!(v.as_deref(), Some("dark"));
    assert_eq!(bed.store.get_meta("theme"), None);
    assert_eq!(bed.store.get_meta("ui.theme").as_deref(), Some("dark"));
}

#[test]
fn settings_and_signs_of_life_are_there_for_everybody() {
    let mut bed = Bed::new();
    let Answer::Settings(c) = bed.call(&agent(), "config", texts(&[])) else { panic!() };
    assert_eq!(c.max_pending_proposals, 500);
    assert!(matches!(bed.call(&agent(), "ping", texts(&[])), Answer::Pong));
}

#[test]
fn reading_leaves_everything_as_it_was() {
    let mut bed = Bed::new();
    let path = bed.path("markdowns/DESIGN.md");
    let before = format!("{:?} {:?}", bed.store, bed.disk);
    for (op, params) in [
        ("list_roots", texts(&[])),
        ("list_docs", texts(&[])),
        ("read_doc", texts(&[("path", &path)])),
        ("list_versions", texts(&[("path", &path)])),
        ("task_list", texts(&[])),
        ("today", texts(&[])),
        ("status", texts(&[])),
    ] {
        bed.call(&agent(), op, params);
    }
    assert_eq!(format!("{:?} {:?}", bed.store, bed.disk), before);
}

#[test]
fn what_was_not_looked_up_cannot_be_carried_out() {
    let bed = Bed::new();
    let asked = request(&agent(), "read_doc", &texts(&[("path", "TODO.md")])).unwrap();
    let mut world = bed.world(&asked);
    assert!(is_ready(&bed.store, &bed.disk, &bed.cfg, &world, &asked));
    world.found.clear();
    assert!(!is_ready(&bed.store, &bed.disk, &bed.cfg, &world, &asked));
}
