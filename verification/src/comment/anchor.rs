//! Anchoring: a comment is tied to text, not to a place.
//!
//! The selected text and a couple of lines of context on each side are kept,
//! and looked for again in the current content. All positions here are byte
//! offsets.

use crate::error::{Error, ErrorModel, Result};
use crate::text::{byte_len, index_of, lemma_encode_concat, lemma_index_of, split_on};
use crate::util::{hex_of, sha256_hex, sha256_of};
use vstd::prelude::*;
use vstd::string::StringSliceAdditionalSpecFns;
use vstd::utf8::{
    encode_scalar, encode_utf8, encode_utf8_valid_utf8, is_char_boundary,
    is_char_boundary_iff_not_is_continuation_byte, is_char_boundary_start_end_of_seq,
    is_continuation_byte, is_leading_byte_width_1, length_of_first_scalar, pop_first_scalar,
    valid_utf8, valid_utf8_split,
};

verus! {

/// Where a comment currently sits in the live document.
#[derive(Debug, Clone, Copy, PartialEq, Eq, Structural)]
pub struct AnchorPosition {
    /// Byte offset of the anchored text in the current content.
    pub offset: usize,
    pub end: usize,
    /// 1-based line the anchor starts on.
    pub line: usize,
}

// ---------------------------------------------------------------------------
// The fingerprint
// ---------------------------------------------------------------------------

/// The stored fingerprint of an anchor.
pub open spec fn fingerprint(before: Seq<char>, text: Seq<char>, after: Seq<char>) -> Seq<char> {
    hex_of(sha256_of(encode_utf8(before + seq!['\0'] + text + seq!['\0'] + after)))
}

/// The stored fingerprint of an anchor. Not used for matching (verbatim text
/// is), but it makes an unchanged anchor cheap to recognise.
pub fn anchor_hash(before: &str, text: &str, after: &str) -> (out: String)
    ensures
        out@ == fingerprint(before@, text@, after@),
{
    let mut all = before.to_owned();
    all.push('\0');
    all.append(text);
    all.push('\0');
    all.append(after);
    assert(all@ =~= before@ + seq!['\0'] + text@ + seq!['\0'] + after@);
    sha256_hex(all.as_str().as_bytes())
}

// ---------------------------------------------------------------------------
// Selections
// ---------------------------------------------------------------------------

/// The last character boundary at or before `i`.
pub open spec fn floor_of(bytes: Seq<u8>, i: int) -> int
    decreases i,
{
    if i <= 0 || is_char_boundary(bytes, i) {
        i
    } else {
        floor_of(bytes, i - 1)
    }
}

/// The first character boundary at or behind `i`.
pub open spec fn ceil_of(bytes: Seq<u8>, i: int) -> int
    decreases bytes.len() - i,
{
    if i >= bytes.len() || is_char_boundary(bytes, i) {
        i
    } else {
        ceil_of(bytes, i + 1)
    }
}

/// The last newline before `at`.
pub open spec fn newline_before(bytes: Seq<u8>, at: int) -> Option<int>
    decreases at,
{
    if at <= 0 {
        None
    } else if bytes[at - 1] == 10 {
        Some(at - 1)
    } else {
        newline_before(bytes, at - 1)
    }
}

/// The first newline at or behind `at`.
pub open spec fn newline_from(bytes: Seq<u8>, at: int) -> Option<int>
    decreases bytes.len() - at,
{
    if at < 0 || at >= bytes.len() {
        None
    } else if bytes[at] == 10 {
        Some(at)
    } else {
        newline_from(bytes, at + 1)
    }
}

/// The start of the line that lies `lines` lines before the one at `at`.
pub open spec fn back_over(bytes: Seq<u8>, at: int, lines: nat) -> int
    decreases lines,
{
    match newline_before(bytes, at) {
        None => 0,
        Some(idx) => if lines == 0 {
            idx + 1
        } else {
            back_over(bytes, idx, (lines - 1) as nat)
        },
    }
}

/// The end of the line that lies `lines` lines behind the one at `at`.
pub open spec fn forward_over(bytes: Seq<u8>, at: int, lines: nat) -> int
    decreases lines,
{
    match newline_from(bytes, at) {
        None => bytes.len() as int,
        Some(idx) => if lines == 0 {
            idx
        } else {
            forward_over(bytes, idx + 1, (lines - 1) as nat)
        },
    }
}

/// A selection in bytes: where the text and its context begin and end.
pub struct Selection {
    pub before: int,
    pub start: int,
    pub end: int,
    pub after: int,
}

/// A selection, widened to whole characters, with its context lines.
pub open spec fn selection_of(bytes: Seq<u8>, start: int, end: int, lines: nat) -> Selection {
    let n = bytes.len() as int;
    let s = floor_of(
        bytes,
        if start <= n {
            start
        } else {
            n
        },
    );
    let e0 = if end <= n {
        end
    } else {
        n
    };
    let e = ceil_of(
        bytes,
        if e0 >= s {
            e0
        } else {
            s
        },
    );
    Selection {
        before: back_over(bytes, s, lines),
        start: s,
        end: e,
        after: forward_over(bytes, e, lines),
    }
}

/// The selected text and the context before and behind it.
pub open spec fn is_anchor(
    bytes: Seq<u8>,
    sel: Selection,
    text: Seq<char>,
    before: Seq<char>,
    after: Seq<char>,
) -> bool {
    &&& encode_utf8(text) == bytes.subrange(sel.start, sel.end)
    &&& encode_utf8(before) == bytes.subrange(sel.before, sel.start)
    &&& encode_utf8(after) == bytes.subrange(sel.end, sel.after)
}

/// Behind an ASCII byte a new character begins.
proof fn lemma_after_ascii(bytes: Seq<u8>, i: int)
    requires
        valid_utf8(bytes),
        0 <= i < bytes.len(),
        bytes[i] <= 0x7f,
    ensures
        is_char_boundary(bytes, i),
        is_char_boundary(bytes, i + 1),
    decreases bytes.len(),
{
    assert(!is_continuation_byte(bytes[i]));
    is_char_boundary_iff_not_is_continuation_byte(bytes, i);
    reveal_with_fuel(is_char_boundary, 2);
    if i > 0 {
        let n = length_of_first_scalar(bytes);
        let rest = pop_first_scalar(bytes);
        assert(i >= n) by {
            if i < n {
                assert(is_char_boundary(rest, i - n));
            }
        }
        assert(rest[i - n] == bytes[i]);
        lemma_after_ascii(rest, i - n);
    } else {
        assert(is_leading_byte_width_1(bytes[0]));
        assert(length_of_first_scalar(bytes) == 1);
    }
}

fn floor_boundary(s: &str, at: usize) -> (out: usize)
    requires
        at <= s.spec_bytes().len(),
    ensures
        out == floor_of(s.spec_bytes(), at as int),
        out <= at,
        is_char_boundary(s.spec_bytes(), out as int),
{
    proof {
        encode_utf8_valid_utf8(s@);
        is_char_boundary_start_end_of_seq(s.spec_bytes());
    }
    let mut i: usize = at;
    while i > 0 && !s.is_char_boundary(i)
        invariant
            i <= at,
            floor_of(s.spec_bytes(), at as int) == floor_of(s.spec_bytes(), i as int),
        decreases i,
    {
        i -= 1;
    }
    i
}

fn ceil_boundary(s: &str, at: usize) -> (out: usize)
    requires
        at <= s.spec_bytes().len(),
    ensures
        out == ceil_of(s.spec_bytes(), at as int),
        at <= out <= s.spec_bytes().len(),
        is_char_boundary(s.spec_bytes(), out as int),
{
    proof {
        encode_utf8_valid_utf8(s@);
        is_char_boundary_start_end_of_seq(s.spec_bytes());
    }
    let n: usize = s.as_bytes().len();
    let mut i: usize = at;
    while i < n && !s.is_char_boundary(i)
        invariant
            n == s.spec_bytes().len(),
            at <= i <= n,
            ceil_of(s.spec_bytes(), at as int) == ceil_of(s.spec_bytes(), i as int),
        decreases n - i,
    {
        i += 1;
    }
    i
}

fn back_over_lines(bytes: &[u8], from: usize, lines: usize) -> (out: usize)
    requires
        from <= bytes@.len(),
    ensures
        out == back_over(bytes@, from as int, lines as nat),
        out <= from,
        out > 0 ==> bytes@[out - 1] == 10,
{
    let mut at: usize = from;
    let mut left: usize = lines;
    loop
        invariant
            at <= from <= bytes@.len(),
            back_over(bytes@, from as int, lines as nat) == back_over(
                bytes@,
                at as int,
                left as nat,
            ),
        decreases at,
    {
        let mut i: usize = at;
        while i > 0 && bytes[i - 1] != 10
            invariant
                i <= at <= bytes@.len(),
                newline_before(bytes@, at as int) == newline_before(bytes@, i as int),
            decreases i,
        {
            i -= 1;
        }
        if i == 0 {
            return 0;
        }
        if left == 0 {
            return i;
        }
        left -= 1;
        at = i - 1;
    }
}

fn forward_over_lines(bytes: &[u8], from: usize, lines: usize) -> (out: usize)
    requires
        from <= bytes@.len(),
    ensures
        out == forward_over(bytes@, from as int, lines as nat),
        from <= out <= bytes@.len(),
        out < bytes@.len() ==> bytes@[out as int] == 10,
{
    let n: usize = bytes.len();
    let mut at: usize = from;
    let mut left: usize = lines;
    loop
        invariant
            n == bytes@.len(),
            from <= at <= n,
            forward_over(bytes@, from as int, lines as nat) == forward_over(
                bytes@,
                at as int,
                left as nat,
            ),
        decreases n - at,
    {
        let mut i: usize = at;
        while i < n && bytes[i] != 10
            invariant
                n == bytes@.len(),
                at <= i <= n,
                newline_from(bytes@, at as int) == newline_from(bytes@, i as int),
            decreases n - i,
        {
            i += 1;
        }
        if i == n {
            return n;
        }
        if left == 0 {
            return i;
        }
        left -= 1;
        at = i + 1;
    }
}

/// The part of a text between two character boundaries.
fn slice_bytes(s: &str, from: usize, to: usize) -> (out: String)
    requires
        from <= to <= s.spec_bytes().len(),
        is_char_boundary(s.spec_bytes(), from as int),
        is_char_boundary(s.spec_bytes(), to as int),
    ensures
        encode_utf8(out@) == s.spec_bytes().subrange(from as int, to as int),
{
    let ghost bytes = s.spec_bytes();
    proof {
        encode_utf8_valid_utf8(s@);
    }
    let (head, _) = s.split_at(to);
    proof {
        encode_utf8_valid_utf8(head@);
        lemma_boundary_prefix(bytes, to as int, from as int);
    }
    let (_, middle) = head.split_at(from);
    assert(middle.spec_bytes() =~= bytes.subrange(from as int, to as int));
    middle.to_owned()
}

/// A boundary inside a prefix is one of the prefix.
proof fn lemma_boundary_prefix(bytes: Seq<u8>, to: int, i: int)
    requires
        valid_utf8(bytes),
        is_char_boundary(bytes, to),
        is_char_boundary(bytes, i),
        0 <= i <= to <= bytes.len(),
    ensures
        is_char_boundary(bytes.subrange(0, to), i),
{
    let head = bytes.subrange(0, to);
    valid_utf8_split(bytes, to);
    if i == to {
        is_char_boundary_start_end_of_seq(head);
    } else {
        is_char_boundary_iff_not_is_continuation_byte(bytes, i);
        is_char_boundary_iff_not_is_continuation_byte(head, i);
        assert(head[i] == bytes[i]);
    }
}

/// Builds an anchor from a selection: the selected text plus `context_lines`
/// lines on each side.
pub fn anchor_from_selection(
    content: &str,
    start: usize,
    end: usize,
    context_lines: usize,
) -> (out: Result<(String, String, String)>)
    ensures
        ({
            let sel = selection_of(
                encode_utf8(content@),
                start as int,
                end as int,
                context_lines as nat,
            );
            match out {
                Ok((text, before, after)) => sel.start < sel.end && is_anchor(
                    encode_utf8(content@),
                    sel,
                    text@,
                    before@,
                    after@,
                ),
                Err(e) => sel.start == sel.end && e@ == ErrorModel::Invalid(
                    "a comment needs a non-empty selection"@,
                ),
            }
        }),
{
    let bytes = content.as_bytes();
    let n: usize = bytes.len();
    let ghost b = content.spec_bytes();
    proof {
        encode_utf8_valid_utf8(content@);
        is_char_boundary_start_end_of_seq(b);
    }
    let s: usize = floor_boundary(
        content,
        if start <= n {
            start
        } else {
            n
        },
    );
    let e0: usize = if end <= n {
        end
    } else {
        n
    };
    let e: usize = ceil_boundary(
        content,
        if e0 >= s {
            e0
        } else {
            s
        },
    );
    if s == e {
        return Err(Error::invalid("a comment needs a non-empty selection"));
    }
    let before_start: usize = back_over_lines(bytes, s, context_lines);
    let after_end: usize = forward_over_lines(bytes, e, context_lines);
    proof {
        if before_start > 0 {
            lemma_after_ascii(b, before_start - 1);
        }
        if after_end < n {
            lemma_after_ascii(b, after_end as int);
        }
    }
    Ok(
        (
            slice_bytes(content, s, e),
            slice_bytes(content, before_start, s),
            slice_bytes(content, e, after_end),
        ),
    )
}

// ---------------------------------------------------------------------------
// Locating
// ---------------------------------------------------------------------------

/// Do the bytes `needle` stand in `hay` at `p`?
pub open spec fn bytes_at(hay: Seq<u8>, needle: Seq<u8>, p: int) -> bool {
    0 <= p && p + needle.len() <= hay.len() && hay.subrange(p, p + needle.len()) == needle
}

/// How long the common end of `a` and `b` is.
pub open spec fn common_suffix(a: Seq<u8>, b: Seq<u8>) -> nat
    decreases a.len(),
{
    if a.len() > 0 && b.len() > 0 && a.last() == b.last() {
        1 + common_suffix(a.drop_last(), b.drop_last())
    } else {
        0
    }
}

/// How long the common start of `a` and `b` is.
pub open spec fn common_prefix(a: Seq<u8>, b: Seq<u8>) -> nat
    decreases a.len(),
{
    if a.len() > 0 && b.len() > 0 && a[0] == b[0] {
        1 + common_prefix(a.skip(1), b.skip(1))
    } else {
        0
    }
}

/// How much of the kept context stands around position `p`.
pub open spec fn score_at(
    content: Seq<u8>,
    anchor: Seq<u8>,
    before: Seq<u8>,
    after: Seq<u8>,
    p: int,
) -> nat {
    common_suffix(content.take(p), before) + common_prefix(
        content.skip(p + anchor.len()),
        after,
    )
}

/// The best place among the first `n` positions: the first of those where most
/// of the context stands.
pub open spec fn best_upto(
    content: Seq<u8>,
    anchor: Seq<u8>,
    before: Seq<u8>,
    after: Seq<u8>,
    n: int,
) -> Option<int>
    decreases n,
{
    if n <= 0 {
        None
    } else {
        let prev = best_upto(content, anchor, before, after, n - 1);
        if bytes_at(content, anchor, n - 1) && (match prev {
            None => true,
            Some(p) => score_at(content, anchor, before, after, n - 1) > score_at(
                content,
                anchor,
                before,
                after,
                p,
            ),
        }) {
            Some(n - 1)
        } else {
            prev
        }
    }
}

/// How many newlines stand in some bytes.
pub open spec fn newlines_in(bytes: Seq<u8>) -> nat
    decreases bytes.len(),
{
    if bytes.len() == 0 {
        0
    } else {
        newlines_in(bytes.drop_last()) + if bytes.last() == 10 {
            1nat
        } else {
            0nat
        }
    }
}

/// Where an anchor sits in a content.
pub open spec fn located(
    content: Seq<u8>,
    anchor: Seq<u8>,
    before: Seq<u8>,
    after: Seq<u8>,
) -> Option<int> {
    if anchor.len() == 0 {
        None
    } else {
        best_upto(content, anchor, before, after, content.len() as int)
    }
}

/// Where an anchor sits in a content: the bytes from and to which it stands, and
/// the number of the line that it starts on.
pub open spec fn placed(
    content: Seq<char>,
    anchor: Seq<char>,
    before: Seq<char>,
    after: Seq<char>,
) -> Option<(int, int, int)> {
    let c = encode_utf8(content);
    let a = encode_utf8(anchor);
    match located(c, a, encode_utf8(before), encode_utf8(after)) {
        Some(at) => Some((at, at + a.len(), newlines_in(c.take(at)) as int + 1)),
        None => None,
    }
}

/// A position as numbers.
pub open spec fn position_view(p: Option<AnchorPosition>) -> Option<(int, int, int)> {
    match p {
        Some(p) => Some((p.offset as int, p.end as int, p.line as int)),
        None => None,
    }
}

fn suffix_len(a: &[u8], a_end: usize, b: &[u8]) -> (out: usize)
    requires
        a_end <= a@.len(),
    ensures
        out == common_suffix(a@.take(a_end as int), b@),
        out <= b@.len(),
{
    let m: usize = b.len();
    let mut n: usize = 0;
    assert(b@.take(m as int) =~= b@);
    while n < a_end && n < m && a[a_end - 1 - n] == b[m - 1 - n]
        invariant
            m == b@.len(),
            a_end <= a@.len(),
            n <= a_end,
            n <= m,
            common_suffix(a@.take(a_end as int), b@) == n + common_suffix(
                a@.take(a_end - n),
                b@.take(m - n),
            ),
        decreases a_end - n,
    {
        assert(a@.take(a_end - n).drop_last() =~= a@.take(a_end - n - 1));
        assert(b@.take(m - n).drop_last() =~= b@.take(m - n - 1));
        n += 1;
    }
    n
}

fn prefix_len(a: &[u8], a_start: usize, b: &[u8]) -> (out: usize)
    requires
        a_start <= a@.len(),
    ensures
        out == common_prefix(a@.skip(a_start as int), b@),
        out <= b@.len(),
{
    let m: usize = b.len();
    let len: usize = a.len();
    let mut n: usize = 0;
    assert(b@.skip(0) =~= b@);
    while n < len - a_start && n < m && a[a_start + n] == b[n]
        invariant
            m == b@.len(),
            len == a@.len(),
            a_start <= len,
            n <= len - a_start,
            n <= m,
            common_prefix(a@.skip(a_start as int), b@) == n + common_prefix(
                a@.skip(a_start + n),
                b@.skip(n as int),
            ),
        decreases m - n,
    {
        assert(a@.skip(a_start + n).skip(1) =~= a@.skip(a_start + n + 1));
        assert(b@.skip(n as int).skip(1) =~= b@.skip(n + 1));
        n += 1;
    }
    n
}

fn matches_at(hay: &[u8], needle: &[u8], p: usize) -> (out: bool)
    ensures
        out == bytes_at(hay@, needle@, p as int),
{
    if needle.len() > hay.len() || p > hay.len() - needle.len() {
        return false;
    }
    let ghost here = hay@.subrange(p as int, p + needle@.len());
    let total: usize = hay.len();
    let mut i: usize = 0;
    while i < needle.len()
        invariant
            total == hay@.len(),
            p + needle@.len() <= total,
            here == hay@.subrange(p as int, p + needle@.len()),
            i <= needle.len(),
            forall|k: int| 0 <= k < i ==> here[k] == #[trigger] needle@[k],
        decreases needle.len() - i,
    {
        if hay[p + i] != needle[i] {
            assert(here[i as int] != needle@[i as int]);
            return false;
        }
        i += 1;
    }
    assert(here =~= needle@);
    true
}

fn count_newlines(bytes: &[u8], n: usize) -> (out: usize)
    requires
        n <= bytes@.len(),
    ensures
        out == newlines_in(bytes@.take(n as int)),
        out <= n,
{
    let mut i: usize = 0;
    let mut count: usize = 0;
    while i < n
        invariant
            i <= n <= bytes@.len(),
            count <= i,
            count == newlines_in(bytes@.take(i as int)),
        decreases n - i,
    {
        assert(bytes@.take(i + 1).drop_last() =~= bytes@.take(i as int));
        if bytes[i] == 10 {
            count += 1;
        }
        i += 1;
    }
    count
}

/// Finds the anchor in the current content.
///
/// Verbatim matching, deliberately: a fuzzy matcher would keep more threads
/// alive across agent rewrites at the cost of occasionally pinning to the
/// wrong spot. When the text appears more than once, the stored context breaks
/// the tie, which is what lets a comment survive its paragraph being moved.
pub fn locate(content: &str, anchor_text: &str, before: &str, after: &str) -> (out: Option<
    AnchorPosition,
>)
    ensures
        ({
            let c = encode_utf8(content@);
            let a = encode_utf8(anchor_text@);
            match (out, located(c, a, encode_utf8(before@), encode_utf8(after@))) {
                (Some(p), Some(at)) => p.offset == at && p.end == at + a.len() && p.line
                    == newlines_in(c.take(at)) + 1,
                (None, None) => true,
                _ => false,
            }
        }),
        position_view(out) == placed(content@, anchor_text@, before@, after@),
{
    let c = content.as_bytes();
    let a = anchor_text.as_bytes();
    let b = before.as_bytes();
    let f = after.as_bytes();
    let len: usize = c.len();
    let m: usize = a.len();
    if m == 0 {
        return None;
    }
    let mut best: Option<usize> = None;
    let mut best_score: u128 = 0;
    let mut p: usize = 0;
    while p < len
        invariant
            len == c@.len(),
            m == a@.len(),
            0 < m,
            p <= len,
            match best {
                Some(q) => best_upto(c@, a@, b@, f@, p as int) == Some(q as int) && q + m <= len
                    && best_score == score_at(c@, a@, b@, f@, q as int),
                None => best_upto(c@, a@, b@, f@, p as int) is None,
            },
        decreases len - p,
    {
        if matches_at(c, a, p) {
            let score: u128 = suffix_len(c, p, b) as u128 + prefix_len(c, p + m, f) as u128;
            let better = match best {
                None => true,
                Some(_) => score > best_score,
            };
            if better {
                best = Some(p);
                best_score = score;
            }
        }
        p += 1;
    }
    match best {
        None => None,
        Some(offset) => {
            let line: usize = count_newlines(c, offset) + 1;
            Some(AnchorPosition { offset, end: offset + m, line })
        },
    }
}

// ---------------------------------------------------------------------------
// What anchors promise
// ---------------------------------------------------------------------------

proof fn lemma_best(
    content: Seq<u8>,
    anchor: Seq<u8>,
    before: Seq<u8>,
    after: Seq<u8>,
    n: int,
)
    requires
        0 <= n,
    ensures
        match best_upto(content, anchor, before, after, n) {
            None => forall|p: int| 0 <= p < n ==> !#[trigger] bytes_at(content, anchor, p),
            Some(at) => 0 <= at < n && bytes_at(content, anchor, at) && forall|p: int|
                0 <= p < n && #[trigger] bytes_at(content, anchor, p) ==> score_at(
                    content,
                    anchor,
                    before,
                    after,
                    p,
                ) <= score_at(content, anchor, before, after, at) && (p < at ==> score_at(
                    content,
                    anchor,
                    before,
                    after,
                    p,
                ) < score_at(content, anchor, before, after, at)),
        },
    decreases n,
{
    if n > 0 {
        lemma_best(content, anchor, before, after, n - 1);
    }
}

/// An anchor is found exactly when its text stands in the content verbatim. It
/// is found where most of its context stands, at the first such place.
pub proof fn law_anchor_pins(
    content: Seq<u8>,
    anchor: Seq<u8>,
    before: Seq<u8>,
    after: Seq<u8>,
)
    requires
        anchor.len() > 0,
    ensures
        located(content, anchor, before, after) is Some <==> (exists|p: int|
            bytes_at(content, anchor, p)),
        located(content, anchor, before, after) matches Some(at) ==> bytes_at(content, anchor, at)
            && forall|p: int|
            #[trigger]
            bytes_at(content, anchor, p) ==> score_at(content, anchor, before, after, p)
                <= score_at(content, anchor, before, after, at) && (p < at ==> score_at(
                content,
                anchor,
                before,
                after,
                p,
            ) < score_at(content, anchor, before, after, at)),
{
    lemma_best(content, anchor, before, after, content.len() as int);
    assert forall|p: int| #[trigger] bytes_at(content, anchor, p) implies 0 <= p
        < content.len() by {}
}

proof fn lemma_suffix_bound(a: Seq<u8>, b: Seq<u8>)
    ensures
        common_suffix(a, b) <= b.len(),
        common_suffix(a, b) == b.len() ==> b.is_suffix_of(a),
    decreases a.len(),
{
    if a.len() > 0 && b.len() > 0 && a.last() == b.last() {
        lemma_suffix_bound(a.drop_last(), b.drop_last());
        if common_suffix(a, b) == b.len() {
            let x = a.drop_last();
            let y = b.drop_last();
            assert(y.is_suffix_of(x));
            assert(x.subrange(x.len() - y.len(), x.len() as int) =~= y);
            assert(a.subrange(a.len() - b.len(), a.len() as int) =~= b) by {
                assert forall|k: int| 0 <= k < b.len() implies a.subrange(
                    a.len() - b.len(),
                    a.len() as int,
                )[k] == b[k] by {
                    if k < y.len() {
                        assert(x.subrange(x.len() - y.len(), x.len() as int)[k] == y[k]);
                    }
                }
            }
        }
    } else if b.len() == 0 {
        assert(a.subrange(a.len() as int, a.len() as int) =~= b);
    }
}

proof fn lemma_prefix_bound(a: Seq<u8>, b: Seq<u8>)
    ensures
        common_prefix(a, b) <= b.len(),
        common_prefix(a, b) == b.len() ==> b.is_prefix_of(a),
    decreases a.len(),
{
    if a.len() > 0 && b.len() > 0 && a[0] == b[0] {
        lemma_prefix_bound(a.skip(1), b.skip(1));
        if common_prefix(a, b) == b.len() {
            let x = a.skip(1);
            let y = b.skip(1);
            assert(x.subrange(0, y.len() as int) =~= y);
            assert(a.subrange(0, b.len() as int) =~= b) by {
                assert forall|k: int| 0 <= k < b.len() implies a.subrange(0, b.len() as int)[k]
                    == b[k] by {
                    if k > 0 {
                        assert(x.subrange(0, y.len() as int)[k - 1] == y[k - 1]);
                    }
                }
            }
        }
    } else if b.len() == 0 {
        assert(a.subrange(0, 0) =~= b);
    }
}

proof fn lemma_suffix_whole(a: Seq<u8>, b: Seq<u8>)
    requires
        b.is_suffix_of(a),
    ensures
        common_suffix(a, b) == b.len(),
    decreases a.len(),
{
    if b.len() > 0 {
        assert(a.subrange(a.len() - b.len(), a.len() as int)[b.len() - 1] == b[b.len() - 1]);
        let x = a.drop_last();
        let y = b.drop_last();
        assert(x.subrange(x.len() - y.len(), x.len() as int) =~= y) by {
            assert forall|k: int| 0 <= k < y.len() implies x.subrange(
                x.len() - y.len(),
                x.len() as int,
            )[k] == y[k] by {
                assert(a.subrange(a.len() - b.len(), a.len() as int)[k] == b[k]);
            }
        }
        lemma_suffix_whole(x, y);
    }
}

proof fn lemma_prefix_whole(a: Seq<u8>, b: Seq<u8>)
    requires
        b.is_prefix_of(a),
    ensures
        common_prefix(a, b) == b.len(),
    decreases a.len(),
{
    if b.len() > 0 {
        assert(a.subrange(0, b.len() as int)[0] == b[0]);
        let x = a.skip(1);
        let y = b.skip(1);
        assert(x.subrange(0, y.len() as int) =~= y) by {
            assert forall|k: int| 0 <= k < y.len() implies x.subrange(0, y.len() as int)[k]
                == y[k] by {
                assert(a.subrange(0, b.len() as int)[k + 1] == b[k + 1]);
            }
        }
        lemma_prefix_whole(x, y);
    }
}

/// An anchor taken from a content is found again in that content, at a place
/// with the same text and the same context.
pub proof fn law_anchor_found_again(bytes: Seq<u8>, before: int, start: int, end: int, after: int)
    requires
        0 <= before <= start < end <= after <= bytes.len(),
    ensures
        ({
            let anchor = bytes.subrange(start, end);
            let lead = bytes.subrange(before, start);
            let tail = bytes.subrange(end, after);
            located(bytes, anchor, lead, tail) matches Some(at) && at <= start && bytes_at(
                bytes,
                anchor,
                at,
            ) && lead.is_suffix_of(bytes.take(at)) && tail.is_prefix_of(
                bytes.skip(at + anchor.len()),
            )
        }),
{
    let anchor = bytes.subrange(start, end);
    let lead = bytes.subrange(before, start);
    let tail = bytes.subrange(end, after);
    assert(bytes_at(bytes, anchor, start));
    law_anchor_pins(bytes, anchor, lead, tail);
    let at = located(bytes, anchor, lead, tail)->0;
    let here = bytes.take(start);
    assert(here.subrange(here.len() - lead.len(), here.len() as int) =~= lead);
    lemma_suffix_whole(here, lead);
    let rest = bytes.skip(start + anchor.len());
    assert(rest.subrange(0, tail.len() as int) =~= tail);
    lemma_prefix_whole(rest, tail);
    assert(score_at(bytes, anchor, lead, tail, start) == lead.len() + tail.len());
    lemma_suffix_bound(bytes.take(at), lead);
    lemma_prefix_bound(bytes.skip(at + anchor.len()), tail);
    assert(score_at(bytes, anchor, lead, tail, at) >= lead.len() + tail.len());
    assert(at <= start);
}

// ---------------------------------------------------------------------------
// Lines
// ---------------------------------------------------------------------------

proof fn lemma_newlines_concat(a: Seq<u8>, b: Seq<u8>)
    ensures
        newlines_in(a + b) == newlines_in(a) + newlines_in(b),
    decreases b.len(),
{
    if b.len() == 0 {
        assert(a + b =~= a);
    } else {
        assert((a + b).drop_last() =~= a + b.drop_last());
        lemma_newlines_concat(a, b.drop_last());
    }
}

pub proof fn lemma_newlines_bound(bytes: Seq<u8>)
    ensures
        newlines_in(bytes) <= bytes.len(),
    decreases bytes.len(),
{
    if bytes.len() > 0 {
        lemma_newlines_bound(bytes.drop_last());
    }
}

proof fn lemma_newlines_one(b: u8)
    ensures
        newlines_in(seq![b]) == (if b == 10 {
            1nat
        } else {
            0nat
        }),
{
    assert(seq![b].drop_last() =~= Seq::<u8>::empty());
    assert(newlines_in(Seq::<u8>::empty()) == 0);
    assert(seq![b].last() == b);
}

proof fn lemma_newlines_take(a: Seq<u8>, n: int)
    requires
        0 <= n <= a.len(),
    ensures
        newlines_in(a.take(n)) <= newlines_in(a),
{
    assert(a =~= a.take(n) + a.skip(n));
    lemma_newlines_concat(a.take(n), a.skip(n));
}

/// Only a newline is encoded with the byte of a newline.
proof fn lemma_newline_byte(c: char)
    ensures
        c == '\n' ==> encode_scalar(c as u32) == seq![10u8],
        c != '\n' ==> forall|i: int|
            0 <= i < encode_scalar(c as u32).len() ==> #[trigger] encode_scalar(c as u32)[i] != 10,
{
    let s = c as u32;
    assert(s <= 0x7f ==> (s & 0x7F) as u8 == s) by (bit_vector);
    assert((0xC0u8 | ((s >> 6) & 0x1F) as u8) != 10) by (bit_vector);
    assert((0xE0u8 | ((s >> 12) & 0x0F) as u8) != 10) by (bit_vector);
    assert((0xF0u8 | ((s >> 18) & 0x7) as u8) != 10) by (bit_vector);
    assert((0x80u8 | (s & 0x3F) as u8) != 10) by (bit_vector);
    assert((0x80u8 | ((s >> 6) & 0x3F) as u8) != 10) by (bit_vector);
    assert((0x80u8 | ((s >> 12) & 0x3F) as u8) != 10) by (bit_vector);
    if c == '\n' {
        assert(s == 10);
        assert(encode_scalar(s) =~= seq![10u8]);
    }
}

proof fn lemma_no_newlines(bytes: Seq<u8>)
    requires
        forall|i: int| 0 <= i < bytes.len() ==> #[trigger] bytes[i] != 10,
    ensures
        newlines_in(bytes) == 0,
    decreases bytes.len(),
{
    if bytes.len() > 0 {
        lemma_no_newlines(bytes.drop_last());
    }
}

/// A text without newlines is encoded without newlines.
proof fn lemma_plain_bytes(s: Seq<char>)
    requires
        forall|k: int| 0 <= k < s.len() ==> #[trigger] s[k] != '\n',
    ensures
        newlines_in(encode_utf8(s)) == 0,
    decreases s.len(),
{
    if s.len() > 0 {
        let rest = s.drop_first();
        assert forall|k: int| 0 <= k < rest.len() implies #[trigger] rest[k] != '\n' by {
            assert(rest[k] == s[k + 1]);
        }
        lemma_plain_bytes(rest);
        assert(s[0] != '\n');
        lemma_newline_byte(s[0]);
        lemma_no_newlines(encode_scalar(s[0] as u32));
        lemma_newlines_concat(encode_scalar(s[0] as u32), encode_utf8(rest));
    }
}

/// The byte that line `k`, from 0, starts at: behind the lines before it and
/// their newlines.
pub open spec fn line_start(lines: Seq<Seq<char>>, k: int) -> nat
    decreases k,
{
    if k <= 0 {
        0
    } else {
        line_start(lines, k - 1) + byte_len(lines[k - 1]) + 1
    }
}

proof fn lemma_line_start_shift(head: Seq<char>, rest: Seq<Seq<char>>, k: int)
    requires
        0 <= k <= rest.len(),
    ensures
        line_start(seq![head] + rest, k + 1) == byte_len(head) + 1 + line_start(rest, k),
    decreases k,
{
    if k > 0 {
        lemma_line_start_shift(head, rest, k - 1);
        assert((seq![head] + rest)[k] == rest[k - 1]);
    } else {
        assert((seq![head] + rest)[0] == head);
        assert(line_start(seq![head] + rest, 0) == 0);
    }
}

proof fn lemma_line_of(content: Seq<char>, at: int)
    requires
        0 <= at <= byte_len(content),
    ensures
        ({
            let lines = split_on(content, '\n');
            let k = newlines_in(encode_utf8(content).take(at)) as int;
            0 <= k < lines.len() && line_start(lines, k) <= at <= line_start(lines, k) + byte_len(
                lines[k],
            )
        }),
    decreases content.len(),
{
    lemma_index_of(content, '\n');
    let i = index_of(content, '\n');
    let bytes = encode_utf8(content);
    let lines = split_on(content, '\n');
    if i >= content.len() {
        lemma_plain_bytes(content);
        lemma_newlines_take(bytes, at);
        assert(lines[0] == content);
        assert(line_start(lines, 0) == 0);
    } else {
        let head = content.take(i);
        let tail = content.skip(i + 1);
        let rest = split_on(tail, '\n');
        assert(content =~= head + (seq!['\n'] + tail));
        lemma_encode_concat(head, seq!['\n'] + tail);
        lemma_encode_concat(seq!['\n'], tail);
        lemma_newline_byte('\n');
        assert(seq!['\n'].drop_first() =~= Seq::<char>::empty());
        assert(encode_utf8(seq!['\n']) == encode_scalar('\n' as u32) + encode_utf8(
            Seq::<char>::empty(),
        ));
        assert(encode_utf8(Seq::<char>::empty()) =~= Seq::<u8>::empty());
        assert(encode_utf8(seq!['\n']) =~= seq![10u8]);
        let h = encode_utf8(head);
        let t = encode_utf8(tail);
        assert(bytes =~= h + seq![10u8] + t);
        assert forall|k: int| 0 <= k < head.len() implies #[trigger] head[k] != '\n' by {
            assert(content[k] != '\n');
        }
        lemma_plain_bytes(head);
        assert(lines == seq![head] + rest);
        if at <= h.len() {
            assert(bytes.take(at) =~= h.take(at));
            lemma_newlines_take(h, at);
            assert(lines[0] == head);
            assert(line_start(lines, 0) == 0);
        } else {
            let m = at - h.len() - 1;
            assert(bytes.take(at) =~= h + seq![10u8] + t.take(m));
            lemma_newlines_concat(h + seq![10u8], t.take(m));
            lemma_newlines_concat(h, seq![10u8]);
            lemma_newlines_one(10);
            lemma_line_of(tail, m);
            let k = newlines_in(t.take(m)) as int;
            lemma_line_start_shift(head, rest, k);
            assert(lines[k + 1] == rest[k]);
        }
    }
}

/// The line that is reported for an anchor is the line of the document that it
/// starts on: there is such a line, and the anchor starts at or behind the
/// first byte of it and no further than its newline. The anchor's text stands
/// at the bytes that are reported.
pub proof fn law_anchor_line(
    content: Seq<char>,
    anchor: Seq<char>,
    before: Seq<char>,
    after: Seq<char>,
)
    ensures
        placed(content, anchor, before, after) matches Some((offset, end, line)) ==> {
            let lines = split_on(content, '\n');
            &&& 0 <= offset < end <= byte_len(content)
            &&& encode_utf8(content).subrange(offset, end) == encode_utf8(anchor)
            &&& 1 <= line <= lines.len()
            &&& line_start(lines, line - 1) <= offset < line_start(lines, line)
        },
{
    let c = encode_utf8(content);
    let a = encode_utf8(anchor);
    if let Some((offset, end, line)) = placed(content, anchor, before, after) {
        law_anchor_pins(c, a, encode_utf8(before), encode_utf8(after));
        assert(bytes_at(c, a, offset));
        lemma_line_of(content, offset);
    }
}

/// How much context counts is how much of it stands there: the longest end of
/// the text before that the content has in front of a place, and the longest
/// start of the text behind.
pub proof fn law_context_counts(a: Seq<u8>, b: Seq<u8>)
    ensures
        ({
            let n = common_suffix(a, b) as int;
            &&& n <= a.len() && n <= b.len()
            &&& a.skip(a.len() - n) == b.skip(b.len() - n)
            &&& n < a.len() && n < b.len() ==> a[a.len() - n - 1] != b[b.len() - n - 1]
        }),
        ({
            let n = common_prefix(a, b) as int;
            &&& n <= a.len() && n <= b.len()
            &&& a.take(n) == b.take(n)
            &&& n < a.len() && n < b.len() ==> a[n] != b[n]
        }),
{
    lemma_common_suffix(a, b);
    lemma_common_prefix(a, b);
}

proof fn lemma_common_suffix(a: Seq<u8>, b: Seq<u8>)
    ensures
        ({
            let n = common_suffix(a, b) as int;
            &&& n <= a.len() && n <= b.len()
            &&& a.skip(a.len() - n) == b.skip(b.len() - n)
            &&& n < a.len() && n < b.len() ==> a[a.len() - n - 1] != b[b.len() - n - 1]
        }),
    decreases a.len(),
{
    let n = common_suffix(a, b) as int;
    if n > 0 {
        let x = a.drop_last();
        let y = b.drop_last();
        lemma_common_suffix(x, y);
        assert(a.skip(a.len() - n) =~= x.skip(x.len() - (n - 1)).push(a.last()));
        assert(b.skip(b.len() - n) =~= y.skip(y.len() - (n - 1)).push(b.last()));
    } else {
        assert(a.skip(a.len() as int) =~= b.skip(b.len() as int));
    }
}

proof fn lemma_common_prefix(a: Seq<u8>, b: Seq<u8>)
    ensures
        ({
            let n = common_prefix(a, b) as int;
            &&& n <= a.len() && n <= b.len()
            &&& a.take(n) == b.take(n)
            &&& n < a.len() && n < b.len() ==> a[n] != b[n]
        }),
    decreases a.len(),
{
    let n = common_prefix(a, b) as int;
    if n > 0 {
        let x = a.skip(1);
        let y = b.skip(1);
        lemma_common_prefix(x, y);
        assert(a.take(n) =~= seq![a[0]] + x.take(n - 1));
        assert(b.take(n) =~= seq![b[0]] + y.take(n - 1));
        if n < a.len() && n < b.len() {
            assert(a[n] == x[n - 1] && b[n] == y[n - 1]);
        }
    } else {
        assert(a.take(0) =~= b.take(0));
    }
}

proof fn lemma_newline_before(bytes: Seq<u8>, at: int)
    requires
        0 <= at <= bytes.len(),
    ensures
        match newline_before(bytes, at) {
            Some(i) => 0 <= i < at && bytes[i] == 10 && newlines_in(bytes.subrange(i + 1, at))
                == 0,
            None => newlines_in(bytes.subrange(0, at)) == 0,
        },
    decreases at,
{
    if at > 0 && bytes[at - 1] != 10 {
        lemma_newline_before(bytes, at - 1);
        let from = match newline_before(bytes, at) {
            Some(i) => i + 1,
            None => 0,
        };
        assert(bytes.subrange(from, at).drop_last() =~= bytes.subrange(from, at - 1));
    }
}

proof fn lemma_newline_from(bytes: Seq<u8>, at: int)
    requires
        0 <= at <= bytes.len(),
    ensures
        match newline_from(bytes, at) {
            Some(i) => at <= i < bytes.len() && bytes[i] == 10 && newlines_in(
                bytes.subrange(at, i),
            ) == 0,
            None => newlines_in(bytes.subrange(at, bytes.len() as int)) == 0,
        },
    decreases bytes.len() - at,
{
    if at < bytes.len() && bytes[at] != 10 {
        lemma_newline_from(bytes, at + 1);
        let to = match newline_from(bytes, at) {
            Some(i) => i,
            None => bytes.len() as int,
        };
        assert(bytes.subrange(at, to) =~= seq![bytes[at]] + bytes.subrange(at + 1, to));
        lemma_newlines_concat(seq![bytes[at]], bytes.subrange(at + 1, to));
        lemma_newlines_one(bytes[at]);
    }
}

proof fn lemma_back_over(bytes: Seq<u8>, at: int, lines: nat)
    requires
        0 <= at <= bytes.len(),
    ensures
        ({
            let from = back_over(bytes, at, lines);
            &&& 0 <= from <= at
            &&& from > 0 ==> bytes[from - 1] == 10 && newlines_in(bytes.subrange(from, at))
                == lines
            &&& newlines_in(bytes.subrange(from, at)) <= lines
        }),
    decreases lines,
{
    lemma_newline_before(bytes, at);
    if let Some(i) = newline_before(bytes, at) {
        if lines > 0 {
            lemma_back_over(bytes, i, (lines - 1) as nat);
            let from = back_over(bytes, at, lines);
            assert(bytes.subrange(from, at) =~= bytes.subrange(from, i) + (seq![10u8]
                + bytes.subrange(i + 1, at)));
            lemma_newlines_concat(bytes.subrange(from, i), seq![10u8] + bytes.subrange(i + 1, at));
            lemma_newlines_concat(seq![10u8], bytes.subrange(i + 1, at));
            lemma_newlines_one(10);
        }
    }
}

proof fn lemma_forward_over(bytes: Seq<u8>, at: int, lines: nat)
    requires
        0 <= at <= bytes.len(),
    ensures
        ({
            let to = forward_over(bytes, at, lines);
            &&& at <= to <= bytes.len()
            &&& to < bytes.len() ==> bytes[to] == 10 && newlines_in(bytes.subrange(at, to))
                == lines
            &&& newlines_in(bytes.subrange(at, to)) <= lines
        }),
    decreases lines,
{
    lemma_newline_from(bytes, at);
    if let Some(i) = newline_from(bytes, at) {
        if lines > 0 {
            lemma_forward_over(bytes, i + 1, (lines - 1) as nat);
            let to = forward_over(bytes, at, lines);
            assert(bytes.subrange(at, to) =~= bytes.subrange(at, i) + (seq![10u8]
                + bytes.subrange(i + 1, to)));
            lemma_newlines_concat(bytes.subrange(at, i), seq![10u8] + bytes.subrange(i + 1, to));
            lemma_newlines_concat(seq![10u8], bytes.subrange(i + 1, to));
            lemma_newlines_one(10);
        }
    }
}

proof fn lemma_floor(bytes: Seq<u8>, i: int)
    requires
        0 <= i <= bytes.len(),
        valid_utf8(bytes),
    ensures
        0 <= floor_of(bytes, i) <= i,
        is_char_boundary(bytes, floor_of(bytes, i)),
        forall|k: int| floor_of(bytes, i) < k <= i ==> !#[trigger] is_char_boundary(bytes, k),
    decreases i,
{
    is_char_boundary_start_end_of_seq(bytes);
    if i > 0 && !is_char_boundary(bytes, i) {
        lemma_floor(bytes, i - 1);
    }
}

proof fn lemma_ceil(bytes: Seq<u8>, i: int)
    requires
        0 <= i <= bytes.len(),
        valid_utf8(bytes),
    ensures
        i <= ceil_of(bytes, i) <= bytes.len(),
        is_char_boundary(bytes, ceil_of(bytes, i)),
        forall|k: int| i <= k < ceil_of(bytes, i) ==> !#[trigger] is_char_boundary(bytes, k),
    decreases bytes.len() - i,
{
    is_char_boundary_start_end_of_seq(bytes);
    if i < bytes.len() && !is_char_boundary(bytes, i) {
        lemma_ceil(bytes, i + 1);
    }
}

/// A selection is what was selected, widened to whole characters and no
/// further, with that many lines of context on each side: the context begins
/// and ends with a line, and holds fewer newlines only where the document
/// begins or ends.
pub proof fn law_selection(bytes: Seq<u8>, start: int, end: int, lines: nat)
    requires
        valid_utf8(bytes),
        0 <= start <= end <= bytes.len(),
    ensures
        ({
            let sel = selection_of(bytes, start, end, lines);
            &&& 0 <= sel.before <= sel.start <= start
            &&& end <= sel.end <= sel.after <= bytes.len()
            &&& is_char_boundary(bytes, sel.start)
            &&& is_char_boundary(bytes, sel.end)
            &&& forall|k: int|
                sel.start < k <= start || end <= k < sel.end ==> !#[trigger] is_char_boundary(
                    bytes,
                    k,
                )
            &&& sel.before > 0 ==> bytes[sel.before - 1] == 10 && newlines_in(
                bytes.subrange(sel.before, sel.start),
            ) == lines
            &&& newlines_in(bytes.subrange(sel.before, sel.start)) <= lines
            &&& sel.after < bytes.len() ==> bytes[sel.after] == 10 && newlines_in(
                bytes.subrange(sel.end, sel.after),
            ) == lines
            &&& newlines_in(bytes.subrange(sel.end, sel.after)) <= lines
        }),
{
    lemma_floor(bytes, start);
    lemma_ceil(bytes, end);
    let sel = selection_of(bytes, start, end, lines);
    lemma_back_over(bytes, sel.start, lines);
    lemma_forward_over(bytes, sel.end, lines);
}

} // verus!
