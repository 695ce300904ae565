//! What a version is.

use crate::corpus::ArtifactType;
use crate::text::{copy_opt, opt_view, same_str};
use vstd::prelude::*;

verus! {

/// Every snapshot records how it came to exist and who caused it.
#[derive(Debug, Clone, Copy, PartialEq, Eq, Structural)]
pub enum Source {
    /// Save from the editor.
    Save,
    /// External change seen by the watcher.
    External,
    /// A proposal was accepted.
    Proposal,
    /// An old version was restored (which is itself undoable).
    Restore,
    /// Manual checkpoint, with a message.
    Checkpoint,
    /// A policy-permitted direct write over MCP.
    Direct,
}

pub open spec fn source_name(s: Source) -> Seq<char> {
    match s {
        Source::Save => "save"@,
        Source::External => "external"@,
        Source::Proposal => "proposal"@,
        Source::Restore => "restore"@,
        Source::Checkpoint => "checkpoint"@,
        Source::Direct => "direct"@,
    }
}

pub open spec fn source_named(s: Seq<char>) -> Source {
    if s == "save"@ {
        Source::Save
    } else if s == "proposal"@ {
        Source::Proposal
    } else if s == "restore"@ {
        Source::Restore
    } else if s == "checkpoint"@ {
        Source::Checkpoint
    } else if s == "direct"@ {
        Source::Direct
    } else {
        Source::External
    }
}

/// Who is taken to have caused a snapshot that names nobody.
pub open spec fn author_for(s: Source) -> Seq<char> {
    match s {
        Source::Save | Source::Restore | Source::Checkpoint => "you"@,
        _ => "external"@,
    }
}

pub const AUTHOR_YOU: &'static str = "you";

pub const AUTHOR_EXTERNAL: &'static str = "external";

impl Source {
    pub fn as_str(self) -> (out: &'static str)
        ensures
            out@ == source_name(self),
    {
        match self {
            Source::Save => "save",
            Source::External => "external",
            Source::Proposal => "proposal",
            Source::Restore => "restore",
            Source::Checkpoint => "checkpoint",
            Source::Direct => "direct",
        }
    }

    pub fn parse(s: &str) -> (out: Source)
        ensures
            out == source_named(s@),
    {
        if same_str(s, "save") {
            Source::Save
        } else if same_str(s, "proposal") {
            Source::Proposal
        } else if same_str(s, "restore") {
            Source::Restore
        } else if same_str(s, "checkpoint") {
            Source::Checkpoint
        } else if same_str(s, "direct") {
            Source::Direct
        } else {
            Source::External
        }
    }

    /// The author recorded when the caller does not name one.
    pub fn default_author(self) -> (out: &'static str)
        ensures
            out@ == author_for(self),
    {
        match self {
            Source::Save | Source::Restore | Source::Checkpoint => AUTHOR_YOU,
            _ => AUTHOR_EXTERNAL,
        }
    }
}

/// Reading a source's name back gives the source.
pub proof fn law_source_round_trip(s: Source)
    ensures
        source_named(source_name(s)) == s,
{
    reveal_strlit("save");
    reveal_strlit("external");
    reveal_strlit("proposal");
    reveal_strlit("restore");
    reveal_strlit("checkpoint");
    reveal_strlit("direct");
    assert("save"@[0] == 's' && "external"@[0] == 'e' && "proposal"@[0] == 'p');
    assert("restore"@[0] == 'r' && "checkpoint"@[0] == 'c' && "direct"@[0] == 'd');
}

/// One recorded version of a document.
#[derive(Debug)]
pub struct Snapshot {
    pub id: String,
    pub root_id: String,
    /// Canonical key of the document.
    pub path: String,
    /// The path as shown.
    pub display: String,
    pub blob_hash: String,
    /// Bytes of the content.
    pub size: i64,
    pub mtime: Option<i64>,
    pub source: Source,
    pub author: String,
    pub client: Option<String>,
    pub message: Option<String>,
    pub artifact_type: ArtifactType,
    pub created_at: i64,
    /// RFC 3339, so a reader never has to guess a timezone.
    pub created_at_iso: String,
    /// Size change against the previous version, in a timeline.
    pub size_delta: Option<i64>,
    /// The window of time in which it was recorded, counted from the epoch.
    pub coalesce_window: i64,
}

/// What a snapshot is.
#[verifier::ext_equal]
pub struct SnapshotModel {
    pub id: Seq<char>,
    pub root_id: Seq<char>,
    pub path: Seq<char>,
    pub display: Seq<char>,
    pub blob_hash: Seq<char>,
    pub size: i64,
    pub mtime: Option<i64>,
    pub source: Source,
    pub author: Seq<char>,
    pub client: Option<Seq<char>>,
    pub message: Option<Seq<char>>,
    pub artifact_type: ArtifactType,
    pub created_at: i64,
    pub created_at_iso: Seq<char>,
    pub size_delta: Option<i64>,
    pub coalesce_window: i64,
}

impl View for Snapshot {
    type V = SnapshotModel;

    open spec fn view(&self) -> SnapshotModel {
        SnapshotModel {
            id: self.id@,
            root_id: self.root_id@,
            path: self.path@,
            display: self.display@,
            blob_hash: self.blob_hash@,
            size: self.size,
            mtime: self.mtime,
            source: self.source,
            author: self.author@,
            client: opt_view(self.client),
            message: opt_view(self.message),
            artifact_type: self.artifact_type,
            created_at: self.created_at,
            created_at_iso: self.created_at_iso@,
            size_delta: self.size_delta,
            coalesce_window: self.coalesce_window,
        }
    }
}

impl Snapshot {
    /// A copy of a snapshot.
    pub fn copy(&self) -> (out: Snapshot)
        ensures
            out@ == self@,
    {
        Snapshot {
            id: self.id.clone(),
            root_id: self.root_id.clone(),
            path: self.path.clone(),
            display: self.display.clone(),
            blob_hash: self.blob_hash.clone(),
            size: self.size,
            mtime: self.mtime,
            source: self.source,
            author: self.author.clone(),
            client: copy_opt(&self.client),
            message: copy_opt(&self.message),
            artifact_type: self.artifact_type,
            created_at: self.created_at,
            created_at_iso: self.created_at_iso.clone(),
            size_delta: self.size_delta,
            coalesce_window: self.coalesce_window,
        }
    }
}

pub open spec fn snapshot_models(s: Seq<Snapshot>) -> Seq<SnapshotModel> {
    Seq::new(s.len(), |i: int| s[i]@)
}

} // verus!
