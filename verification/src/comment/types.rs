//! What a comment thread is.

use super::anchor::AnchorPosition;
use crate::text::{
    chars_of, copy_opt, lower_of, lowercase, opt_view, same_str, string_of, trim, trim_of,
};
use vstd::prelude::*;

verus! {

pub const AUTHOR_YOU: &'static str = "you";

/// Where a thread stands.
#[derive(Debug, Clone, Copy, PartialEq, Eq, Structural)]
pub enum Status {
    Open,
    Resolved,
    /// The anchored text no longer exists in the document.
    Outdated,
    /// The document itself is gone.
    Orphaned,
}

pub open spec fn status_name(s: Status) -> Seq<char> {
    match s {
        Status::Open => "open"@,
        Status::Resolved => "resolved"@,
        Status::Outdated => "outdated"@,
        Status::Orphaned => "orphaned"@,
    }
}

/// The status that a word names, apart from case and outer white space.
/// `all` names none, as no word does.
pub open spec fn status_named(s: Seq<char>) -> Option<Status> {
    let word = lower_of(trim_of(s));
    if word == "open"@ {
        Some(Status::Open)
    } else if word == "resolved"@ {
        Some(Status::Resolved)
    } else if word == "outdated"@ {
        Some(Status::Outdated)
    } else if word == "orphaned"@ {
        Some(Status::Orphaned)
    } else {
        None
    }
}

impl Status {
    pub fn as_str(self) -> (out: &'static str)
        ensures
            out@ == status_name(self),
    {
        match self {
            Status::Open => "open",
            Status::Resolved => "resolved",
            Status::Outdated => "outdated",
            Status::Orphaned => "orphaned",
        }
    }

    pub fn parse(s: &str) -> (out: Option<Status>)
        ensures
            out == status_named(s@),
    {
        let chars = chars_of(s);
        let trimmed = string_of(trim(&chars));
        let word = lowercase(trimmed.as_str());
        if same_str(word.as_str(), "open") {
            Some(Status::Open)
        } else if same_str(word.as_str(), "resolved") {
            Some(Status::Resolved)
        } else if same_str(word.as_str(), "outdated") {
            Some(Status::Outdated)
        } else if same_str(word.as_str(), "orphaned") {
            Some(Status::Orphaned)
        } else {
            None
        }
    }
}

/// An answer within a thread.
#[derive(Debug)]
pub struct Reply {
    pub id: String,
    pub comment_id: String,
    pub author: String,
    pub body: String,
    pub created_at: i64,
    pub created_at_iso: String,
}

/// What a reply is.
#[verifier::ext_equal]
pub struct ReplyModel {
    pub id: Seq<char>,
    pub comment_id: Seq<char>,
    pub author: Seq<char>,
    pub body: Seq<char>,
    pub created_at: i64,
    pub created_at_iso: Seq<char>,
}

impl View for Reply {
    type V = ReplyModel;

    open spec fn view(&self) -> ReplyModel {
        ReplyModel {
            id: self.id@,
            comment_id: self.comment_id@,
            author: self.author@,
            body: self.body@,
            created_at: self.created_at,
            created_at_iso: self.created_at_iso@,
        }
    }
}

impl Reply {
    /// A copy of a reply.
    pub fn copy(&self) -> (out: Reply)
        ensures
            out@ == self@,
    {
        Reply {
            id: self.id.clone(),
            comment_id: self.comment_id.clone(),
            author: self.author.clone(),
            body: self.body.clone(),
            created_at: self.created_at,
            created_at_iso: self.created_at_iso.clone(),
        }
    }
}

pub open spec fn reply_models(r: Seq<Reply>) -> Seq<ReplyModel> {
    Seq::new(r.len(), |i: int| r[i]@)
}

/// A thread: an anchored note and the answers to it.
#[derive(Debug)]
pub struct Comment {
    pub id: String,
    /// Canonical key of the document.
    pub path: String,
    /// The path as shown.
    pub display: String,
    pub anchor_hash: String,
    pub anchor_text: String,
    pub context_before: String,
    pub context_after: String,
    pub author: String,
    pub body: String,
    pub created_at: i64,
    pub created_at_iso: String,
    pub resolved_at: Option<i64>,
    pub resolved_by: Option<String>,
    pub addressed_by_proposal: Option<String>,
    pub replies: Vec<Reply>,
    /// Derived on read, never stored: anchors are re-resolved every time.
    pub status: Status,
    pub anchor: Option<AnchorPosition>,
    /// A short quotable excerpt for list views.
    pub excerpt: String,
}

/// What a thread holds.
#[verifier::ext_equal]
pub struct CommentModel {
    pub id: Seq<char>,
    pub path: Seq<char>,
    pub display: Seq<char>,
    pub anchor_hash: Seq<char>,
    pub anchor_text: Seq<char>,
    pub context_before: Seq<char>,
    pub context_after: Seq<char>,
    pub author: Seq<char>,
    pub body: Seq<char>,
    pub created_at: i64,
    pub created_at_iso: Seq<char>,
    pub resolved_at: Option<i64>,
    pub resolved_by: Option<Seq<char>>,
    pub addressed_by_proposal: Option<Seq<char>>,
    pub replies: Seq<ReplyModel>,
    pub status: Status,
    pub anchor: Option<AnchorPosition>,
    pub excerpt: Seq<char>,
}

impl View for Comment {
    type V = CommentModel;

    open spec fn view(&self) -> CommentModel {
        CommentModel {
            id: self.id@,
            path: self.path@,
            display: self.display@,
            anchor_hash: self.anchor_hash@,
            anchor_text: self.anchor_text@,
            context_before: self.context_before@,
            context_after: self.context_after@,
            author: self.author@,
            body: self.body@,
            created_at: self.created_at,
            created_at_iso: self.created_at_iso@,
            resolved_at: self.resolved_at,
            resolved_by: opt_view(self.resolved_by),
            addressed_by_proposal: opt_view(self.addressed_by_proposal),
            replies: reply_models(self.replies@),
            status: self.status,
            anchor: self.anchor,
            excerpt: self.excerpt@,
        }
    }
}

/// A copy of a list of replies.
pub fn copy_replies(replies: &[Reply]) -> (out: Vec<Reply>)
    ensures
        reply_models(out@) == reply_models(replies@),
{
    let mut out: Vec<Reply> = Vec::new();
    let mut i: usize = 0;
    while i < replies.len()
        invariant
            i <= replies@.len(),
            reply_models(out@) == reply_models(replies@).take(i as int),
        decreases replies@.len() - i,
    {
        let r = replies[i].copy();
        let ghost before = out@;
        out.push(r);
        assert(reply_models(out@) =~= reply_models(before).push(r@));
        assert(reply_models(replies@).take(i + 1) =~= reply_models(replies@).take(i as int).push(
            replies@[i as int]@,
        ));
        i += 1;
    }
    assert(reply_models(replies@).take(i as int) =~= reply_models(replies@));
    out
}

impl Comment {
    /// A copy of a thread.
    pub fn copy(&self) -> (out: Comment)
        ensures
            out@ == self@,
    {
        Comment {
            id: self.id.clone(),
            path: self.path.clone(),
            display: self.display.clone(),
            anchor_hash: self.anchor_hash.clone(),
            anchor_text: self.anchor_text.clone(),
            context_before: self.context_before.clone(),
            context_after: self.context_after.clone(),
            author: self.author.clone(),
            body: self.body.clone(),
            created_at: self.created_at,
            created_at_iso: self.created_at_iso.clone(),
            resolved_at: self.resolved_at,
            resolved_by: copy_opt(&self.resolved_by),
            addressed_by_proposal: copy_opt(&self.addressed_by_proposal),
            replies: copy_replies(&self.replies),
            status: self.status,
            anchor: self.anchor,
            excerpt: self.excerpt.clone(),
        }
    }
}

pub open spec fn comment_models(c: Seq<Comment>) -> Seq<CommentModel> {
    Seq::new(c.len(), |i: int| c[i]@)
}

} // verus!
