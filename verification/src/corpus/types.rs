//! The kinds of roots, policies and artifacts.

use crate::text::{same_str, views};
use crate::util::{display_of, display_path, Host};
use vstd::prelude::*;

verus! {

#[derive(Debug, Clone, Copy, PartialEq, Eq, Structural)]
pub enum RootKind {
    Dir,
    File,
}

pub open spec fn root_kind_name(k: RootKind) -> Seq<char> {
    match k {
        RootKind::Dir => "dir"@,
        RootKind::File => "file"@,
    }
}

impl RootKind {
    pub fn as_str(self) -> (out: &'static str)
        ensures
            out@ == root_kind_name(self),
    {
        match self {
            RootKind::Dir => "dir",
            RootKind::File => "file",
        }
    }

    pub fn parse(s: &str) -> (out: RootKind)
        ensures
            out == (if s@ == "file"@ {
                RootKind::File
            } else {
                RootKind::Dir
            }),
    {
        if same_str(s, "file") {
            RootKind::File
        } else {
            RootKind::Dir
        }
    }
}

/// How agents' writes to a path are routed.
#[derive(Debug, Clone, Copy, PartialEq, Eq, Structural)]
pub enum Policy {
    /// Decide by artifact type: task lists direct, everything else proposed.
    /// An agent maintaining TODO.md overnight must not block on review, while
    /// a skill rewrite is exactly where you want a gate.
    Auto,
    /// Every write becomes a proposal.
    Propose,
    /// Writes apply immediately, always snapshotted.
    Direct,
}

pub open spec fn policy_name(p: Policy) -> Seq<char> {
    match p {
        Policy::Auto => "auto"@,
        Policy::Propose => "propose"@,
        Policy::Direct => "direct"@,
    }
}

pub open spec fn policy_named(s: Seq<char>) -> Policy {
    if s == "propose"@ {
        Policy::Propose
    } else if s == "direct"@ {
        Policy::Direct
    } else {
        Policy::Auto
    }
}

/// `Auto` resolved against an artifact type; anything explicit stays.
pub open spec fn resolved_policy(p: Policy, ty: ArtifactType) -> Policy {
    match p {
        Policy::Auto => if ty == ArtifactType::TaskList {
            Policy::Direct
        } else {
            Policy::Propose
        },
        explicit => explicit,
    }
}

impl Policy {
    pub fn as_str(self) -> (out: &'static str)
        ensures
            out@ == policy_name(self),
    {
        match self {
            Policy::Auto => "auto",
            Policy::Propose => "propose",
            Policy::Direct => "direct",
        }
    }

    pub fn parse(s: &str) -> (out: Policy)
        ensures
            out == policy_named(s@),
    {
        if same_str(s, "propose") {
            Policy::Propose
        } else if same_str(s, "direct") {
            Policy::Direct
        } else {
            Policy::Auto
        }
    }

    /// Resolves `Auto` against an artifact type.
    pub fn resolve(self, ty: ArtifactType) -> (out: Policy)
        ensures
            out == resolved_policy(self, ty),
    {
        match self {
            Policy::Auto => {
                if ty == ArtifactType::TaskList {
                    Policy::Direct
                } else {
                    Policy::Propose
                }
            },
            explicit => explicit,
        }
    }
}

/// Typing is by structure, never by folder name, and is re-derived on every
/// snapshot: a file is allowed to change what it is.
#[derive(Debug, Clone, Copy, PartialEq, Eq, Structural)]
pub enum ArtifactType {
    Skill,
    Prompt,
    TaskList,
    Doc,
    /// Tracked (snapshotted, restorable) but never diffed or edited.
    Asset,
}

pub open spec fn artifact_name(t: ArtifactType) -> Seq<char> {
    match t {
        ArtifactType::Skill => "skill"@,
        ArtifactType::Prompt => "prompt"@,
        ArtifactType::TaskList => "task_list"@,
        ArtifactType::Doc => "doc"@,
        ArtifactType::Asset => "asset"@,
    }
}

pub open spec fn artifact_named(s: Seq<char>) -> ArtifactType {
    if s == "skill"@ {
        ArtifactType::Skill
    } else if s == "prompt"@ {
        ArtifactType::Prompt
    } else if s == "task_list"@ {
        ArtifactType::TaskList
    } else if s == "asset"@ {
        ArtifactType::Asset
    } else {
        ArtifactType::Doc
    }
}

impl ArtifactType {
    pub fn as_str(self) -> (out: &'static str)
        ensures
            out@ == artifact_name(self),
    {
        match self {
            ArtifactType::Skill => "skill",
            ArtifactType::Prompt => "prompt",
            ArtifactType::TaskList => "task_list",
            ArtifactType::Doc => "doc",
            ArtifactType::Asset => "asset",
        }
    }

    pub fn parse(s: &str) -> (out: ArtifactType)
        ensures
            out == artifact_named(s@),
    {
        if same_str(s, "skill") {
            ArtifactType::Skill
        } else if same_str(s, "prompt") {
            ArtifactType::Prompt
        } else if same_str(s, "task_list") {
            ArtifactType::TaskList
        } else if same_str(s, "asset") {
            ArtifactType::Asset
        } else {
            ArtifactType::Doc
        }
    }

    pub fn is_text(self) -> (out: bool)
        ensures
            out == (self != ArtifactType::Asset),
    {
        self != ArtifactType::Asset
    }
}

/// Reading a name back gives the kind, policy or type it was written for.
pub proof fn law_names_round_trip(k: RootKind, p: Policy, t: ArtifactType)
    ensures
        (root_kind_name(k) == "file"@) == (k == RootKind::File),
        policy_named(policy_name(p)) == p,
        artifact_named(artifact_name(t)) == t,
{
    reveal_strlit("dir");
    reveal_strlit("file");
    reveal_strlit("auto");
    reveal_strlit("propose");
    reveal_strlit("direct");
    reveal_strlit("skill");
    reveal_strlit("prompt");
    reveal_strlit("task_list");
    reveal_strlit("doc");
    reveal_strlit("asset");
    assert("skill"@[0] == 's' && "prompt"@[0] == 'p' && "task_list"@[0] == 't');
    assert("asset"@[0] == 'a' && "doc"@[0] == 'd');
    assert("propose"@[0] == 'p' && "direct"@[0] == 'd' && "auto"@[0] == 'a');
    assert("dir"@[0] == 'd' && "file"@[0] == 'f');
}

/// An explicit policy is never overridden by type, and nothing stays `Auto`.
pub proof fn law_policy_resolution(p: Policy, ty: ArtifactType)
    ensures
        p != Policy::Auto ==> resolved_policy(p, ty) == p,
        resolved_policy(p, ty) != Policy::Auto,
        resolved_policy(Policy::Auto, ty) == Policy::Direct <==> ty == ArtifactType::TaskList,
        resolved_policy(resolved_policy(p, ty), ty) == resolved_policy(p, ty),
{
}

/// A registered directory or file.
#[derive(Debug)]
pub struct Root {
    pub id: String,
    /// Canonical key: absolute, forward slashes.
    pub path: String,
    /// The same path rendered with `~` for display.
    pub display: String,
    pub kind: RootKind,
    pub policy: Policy,
    pub label: String,
    pub added_at: i64,
}

/// What a root is.
pub struct RootModel {
    pub id: Seq<char>,
    pub path: Seq<char>,
    pub display: Seq<char>,
    pub kind: RootKind,
    pub policy: Policy,
    pub label: Seq<char>,
    pub added_at: i64,
}

impl View for Root {
    type V = RootModel;

    open spec fn view(&self) -> RootModel {
        RootModel {
            id: self.id@,
            path: self.path@,
            display: self.display@,
            kind: self.kind,
            policy: self.policy,
            label: self.label@,
            added_at: self.added_at,
        }
    }
}

impl Root {
    /// A copy of a root.
    pub fn copy(&self) -> (out: Root)
        ensures
            out@ == self@,
    {
        Root {
            id: self.id.clone(),
            path: self.path.clone(),
            display: self.display.clone(),
            kind: self.kind,
            policy: self.policy,
            label: self.label.clone(),
            added_at: self.added_at,
        }
    }
}

pub open spec fn root_models(roots: Seq<Root>) -> Seq<RootModel> {
    Seq::new(roots.len(), |i: int| roots[i]@)
}

/// A write policy for the paths that match a pattern.
#[derive(Debug)]
pub struct PathPolicy {
    pub id: String,
    pub root_id: String,
    pub pattern: String,
    pub policy: Policy,
}

/// What a path policy is.
pub struct PathPolicyModel {
    pub id: Seq<char>,
    pub root_id: Seq<char>,
    pub pattern: Seq<char>,
    pub policy: Policy,
}

impl View for PathPolicy {
    type V = PathPolicyModel;

    open spec fn view(&self) -> PathPolicyModel {
        PathPolicyModel {
            id: self.id@,
            root_id: self.root_id@,
            pattern: self.pattern@,
            policy: self.policy,
        }
    }
}

pub open spec fn path_policy_models(p: Seq<PathPolicy>) -> Seq<PathPolicyModel> {
    Seq::new(p.len(), |i: int| p[i]@)
}

/// A path that has passed sandboxing, together with the root that admits it.
#[derive(Debug)]
pub struct Resolved {
    pub root: Root,
    /// Canonical key.
    pub path: String,
    /// Names of the directories beside it.
    pub dirs: Vec<String>,
}

/// What a resolved path is.
pub struct ResolvedModel {
    pub root: RootModel,
    pub path: Seq<char>,
    pub dirs: Seq<Seq<char>>,
}

impl View for Resolved {
    type V = ResolvedModel;

    open spec fn view(&self) -> ResolvedModel {
        ResolvedModel { root: self.root@, path: self.path@, dirs: views(self.dirs@) }
    }
}

impl Resolved {
    /// The path as shown, on a system.
    pub fn display(&self, host: &Host) -> (out: String)
        ensures
            out@ == display_of(self.path@, host@),
    {
        display_path(self.path.as_str(), host)
    }
}

} // verus!
