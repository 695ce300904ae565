//! Level one of a diff: which lines, or which words, differ.
//!
//! The comparison itself is `similar`'s. What comes back is a list of changes,
//! each a piece of text with a tag; everything the library does with such a
//! list is verified for every list.

use crate::error::{Error, ErrorModel};
use crate::text::views;
use similar::TextDiff;
use vstd::prelude::*;

verus! {

/// Which side of a comparison a piece of text belongs to.
#[derive(Debug, Clone, Copy, PartialEq, Eq, Structural)]
pub enum ChangeTag {
    Equal,
    Delete,
    Insert,
}

/// One piece of text with its tag.
#[derive(Debug)]
pub struct Change {
    pub tag: ChangeTag,
    pub value: String,
}

/// The contents of a list of changes.
pub open spec fn change_models(c: Seq<Change>) -> Seq<(ChangeTag, Seq<char>)> {
    Seq::new(c.len(), |i: int| (c[i].tag, c[i].value@))
}

/// The tags of a list of changes.
pub open spec fn tags_of(c: Seq<(ChangeTag, Seq<char>)>) -> Seq<ChangeTag> {
    Seq::new(c.len(), |i: int| c[i].0)
}

/// The pieces of the old text: all but the inserted ones.
pub open spec fn old_pieces(c: Seq<(ChangeTag, Seq<char>)>) -> Seq<Seq<char>>
    decreases c.len(),
{
    if c.len() == 0 {
        Seq::empty()
    } else if c.last().0 == ChangeTag::Insert {
        old_pieces(c.drop_last())
    } else {
        old_pieces(c.drop_last()).push(c.last().1)
    }
}

/// The pieces of the new text: all but the deleted ones.
pub open spec fn new_pieces(c: Seq<(ChangeTag, Seq<char>)>) -> Seq<Seq<char>>
    decreases c.len(),
{
    if c.len() == 0 {
        Seq::empty()
    } else if c.last().0 == ChangeTag::Delete {
        new_pieces(c.drop_last())
    } else {
        new_pieces(c.drop_last()).push(c.last().1)
    }
}

/// Where the line that holds position `i` ends, its terminator included: a
/// line feed, a carriage return, or the two together.
pub open spec fn line_end(s: Seq<char>, i: int) -> int
    decreases s.len() - i,
{
    if i < 0 || i >= s.len() {
        s.len() as int
    } else if s[i] == '\n' {
        i + 1
    } else if s[i] == '\r' {
        if i + 1 < s.len() && s[i + 1] == '\n' {
            i + 2
        } else {
            i + 1
        }
    } else {
        line_end(s, i + 1)
    }
}

pub proof fn lemma_line_end(s: Seq<char>, i: int)
    requires
        0 <= i < s.len(),
    ensures
        i < line_end(s, i) <= s.len(),
    decreases s.len() - i,
{
    if i + 1 < s.len() {
        lemma_line_end(s, i + 1);
    } else {
        assert(line_end(s, i + 1) == s.len());
    }
}

/// The lines of a text, each with its terminator.
pub open spec fn line_pieces(s: Seq<char>) -> Seq<Seq<char>>
    decreases s.len(),
    via line_pieces_decreases
{
    if s.len() == 0 {
        Seq::empty()
    } else {
        let e = line_end(s, 0);
        seq![s.take(e)] + line_pieces(s.skip(e))
    }
}

#[via_fn]
proof fn line_pieces_decreases(s: Seq<char>) {
    if s.len() > 0 {
        lemma_line_end(s, 0);
    }
}

/// A text has no more pieces than characters.
pub proof fn lemma_piece_count(s: Seq<char>)
    ensures
        line_pieces(s).len() <= s.len(),
    decreases s.len(),
{
    if s.len() > 0 {
        lemma_line_end(s, 0);
        lemma_piece_count(s.skip(line_end(s, 0)));
    }
}

/// The pieces one behind the other.
pub open spec fn concat_of(parts: Seq<Seq<char>>) -> Seq<char>
    decreases parts.len(),
{
    if parts.len() == 0 {
        Seq::empty()
    } else {
        concat_of(parts.drop_last()) + parts.last()
    }
}

/// Two texts small enough to be compared: their lines, and their words, can be
/// numbered in 32 bits. A text has at most one line more than newlines.
pub open spec fn comparable(old: Seq<char>, new: Seq<char>) -> bool {
    old.len() + new.len() + 2 <= u32::MAX
}

/// What a caller is told of texts that cannot be compared.
pub open spec fn unwieldy() -> ErrorModel {
    ErrorModel::TooLarge("a document is too large to be compared"@)
}

/// Can two texts be compared?
pub fn can_compare(old: &str, new: &str) -> (out: bool)
    ensures
        out == comparable(old@, new@),
{
    let a: usize = old.unicode_len();
    let b: usize = new.unicode_len();
    (a as u128) + (b as u128) + 2 <= u32::MAX as u128
}

/// What a caller is told of texts that cannot be compared.
pub(crate) fn cannot_compare() -> (out: Error)
    ensures
        out@ == unwieldy(),
{
    Error::TooLarge("a document is too large to be compared".to_owned())
}

/// The changes that `similar` finds between two lists of lines.
pub uninterp spec fn line_diff(old: Seq<Seq<char>>, new: Seq<Seq<char>>) -> Seq<
    (ChangeTag, Seq<char>),
>;

/// The changes that `similar` finds between the words of two texts.
pub uninterp spec fn word_diff(old: Seq<char>, new: Seq<char>) -> Seq<(ChangeTag, Seq<char>)>;

/// `similar::TextDiff::from_slices` and `iter_all_changes`. The changes run
/// over both lists in order: the equal and deleted ones are the old lines, the
/// equal and inserted ones the new lines. Between equal lists everything is
/// equal. The lines are numbered in 32 bits, so lists with more of them are
/// left out.
#[verifier::external_body]
pub(crate) fn compare_lines(old: &[String], new: &[String]) -> (out: Vec<Change>)
    requires
        old@.len() + new@.len() <= u32::MAX,
    ensures
        change_models(out@) == line_diff(views(old@), views(new@)),
        old_pieces(change_models(out@)) == views(old@),
        new_pieces(change_models(out@)) == views(new@),
        views(old@) == views(new@) ==> forall|i: int|
            0 <= i < out@.len() ==> (#[trigger] out@[i]).tag == ChangeTag::Equal,
{
    let old: Vec<&str> = old.iter().map(|s| s.as_str()).collect();
    let new: Vec<&str> = new.iter().map(|s| s.as_str()).collect();
    let diff = TextDiff::from_slices(&old, &new);
    let mut out = Vec::new();
    for c in diff.iter_all_changes() {
        let tag = match c.tag() {
            similar::ChangeTag::Equal => ChangeTag::Equal,
            similar::ChangeTag::Delete => ChangeTag::Delete,
            similar::ChangeTag::Insert => ChangeTag::Insert,
        };
        out.push(Change { tag, value: c.value().to_string() });
    }
    out
}

/// `similar::TextDiff::from_words` and `iter_all_changes`. The equal and
/// deleted pieces make up the old text, the equal and inserted ones the new
/// text. The words are numbered in 32 bits, so texts that could have more of
/// them are left out.
#[verifier::external_body]
pub(crate) fn compare_words(old: &str, new: &str) -> (out: Vec<Change>)
    requires
        comparable(old@, new@),
    ensures
        change_models(out@) == word_diff(old@, new@),
        concat_of(old_pieces(change_models(out@))) == old@,
        concat_of(new_pieces(change_models(out@))) == new@,
{
    let diff = TextDiff::from_words(old, new);
    let mut out = Vec::new();
    for c in diff.iter_all_changes() {
        let tag = match c.tag() {
            similar::ChangeTag::Equal => ChangeTag::Equal,
            similar::ChangeTag::Delete => ChangeTag::Delete,
            similar::ChangeTag::Insert => ChangeTag::Insert,
        };
        out.push(Change { tag, value: c.value().to_string() });
    }
    out
}

} // verus!
