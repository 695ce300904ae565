//! Fenced code blocks: which lines of a document are code.

use crate::text::{
    chars_of, part, starts_with, string_of, text_lines, trim_start, trim_start_of, views,
};
use vstd::prelude::*;

verus! {

/// Is a trimmed line a fence?
pub open spec fn is_fence(trimmed: Seq<char>) -> bool {
    "```"@.is_prefix_of(trimmed) || "~~~"@.is_prefix_of(trimmed)
}

/// How many backticks and tildes stand at the front of `s`.
pub open spec fn marker_len(s: Seq<char>) -> nat
    decreases s.len(),
{
    if s.len() > 0 && (s[0] == '`' || s[0] == '~') {
        1 + marker_len(s.skip(1))
    } else {
        0
    }
}

/// The marker that a fence opens with.
pub open spec fn marker_of(trimmed: Seq<char>) -> Seq<char> {
    trimmed.take(marker_len(trimmed) as int)
}

/// The open fence behind a line, given the one before it. A fence is closed by
/// a line that starts with its marker.
pub open spec fn fence_after(fence: Option<Seq<char>>, line: Seq<char>) -> Option<Seq<char>> {
    let trimmed = trim_start_of(line);
    if !is_fence(trimmed) {
        fence
    } else {
        match fence {
            None => Some(marker_of(trimmed)),
            Some(marker) => if marker.is_prefix_of(trimmed) {
                None
            } else {
                fence
            },
        }
    }
}

/// The open fence behind some lines.
pub open spec fn fence_of(lines: Seq<Seq<char>>) -> Option<Seq<char>>
    decreases lines.len(),
{
    if lines.len() == 0 {
        None
    } else {
        fence_after(fence_of(lines.drop_last()), lines.last())
    }
}

/// Is line `i` plain text: neither a fence nor inside one?
pub open spec fn is_plain(lines: Seq<Seq<char>>, i: int) -> bool {
    fence_of(lines.take(i)) is None && !is_fence(trim_start_of(lines[i]))
}

/// The lines that are plain text.
pub open spec fn plain_lines(lines: Seq<Seq<char>>) -> Seq<Seq<char>>
    decreases lines.len(),
{
    if lines.len() == 0 {
        Seq::empty()
    } else if is_plain(lines, lines.len() - 1) {
        plain_lines(lines.drop_last()).push(lines.last())
    } else {
        plain_lines(lines.drop_last())
    }
}

pub open spec fn fence_view(fence: Option<String>) -> Option<Seq<char>> {
    match fence {
        Some(m) => Some(m@),
        None => None,
    }
}

/// Is a trimmed line a fence?
pub fn fence_line(trimmed: &[char]) -> (out: bool)
    ensures
        out == is_fence(trimmed@),
{
    starts_with(trimmed, "```") || starts_with(trimmed, "~~~")
}

fn marker_length(s: &[char]) -> (out: usize)
    ensures
        out == marker_len(s@),
        out <= s.len(),
{
    let mut i: usize = 0;
    assert(s@.skip(0) == s@);
    while i < s.len() && (s[i] == '`' || s[i] == '~')
        invariant
            i <= s.len(),
            marker_len(s@) == i + marker_len(s@.skip(i as int)),
        decreases s.len() - i,
    {
        assert(s@.skip(i as int).skip(1) == s@.skip(i + 1));
        i += 1;
    }
    i
}

/// Moves over one line: returns the open fence behind it, and whether the line
/// is a fence.
pub fn step(fence: Option<String>, line: &str) -> (out: (Option<String>, bool))
    ensures
        fence_view(out.0) == fence_after(fence_view(fence), line@),
        out.1 == is_fence(trim_start_of(line@)),
{
    let chars = chars_of(line);
    let trimmed = trim_start(&chars);
    if !fence_line(trimmed) {
        return (fence, false);
    }
    match fence {
        None => {
            let n: usize = marker_length(trimmed);
            let marker = string_of(part(trimmed, 0, n));
            assert(marker@ =~= marker_of(trimmed@));
            (Some(marker), true)
        },
        Some(marker) => if starts_with(trimmed, marker.as_str()) {
            (None, true)
        } else {
            (Some(marker), true)
        },
    }
}

/// The plain lines among some lines.
pub fn plain_among(all: &[String]) -> (out: Vec<String>)
    ensures
        views(out@) == plain_lines(views(all@)),
{
    let ghost lines = views(all@);
    let mut out: Vec<String> = Vec::new();
    let mut fence: Option<String> = None;
    let mut i: usize = 0;
    assert(views(out@) =~= plain_lines(lines.take(0)));
    while i < all.len()
        invariant
            lines == views(all@),
            i <= all.len(),
            fence_view(fence) == fence_of(lines.take(i as int)),
            views(out@) == plain_lines(lines.take(i as int)),
        decreases all.len() - i,
    {
        assert(lines.take(i + 1).drop_last() =~= lines.take(i as int));
        assert(lines.take(i + 1).take(i as int) =~= lines.take(i as int));
        let outside = fence.is_none();
        let (next, is_fence_line) = step(fence, all[i].as_str());
        let ghost before = views(out@);
        if outside && !is_fence_line {
            out.push(all[i].clone());
            assert(views(out@) =~= before.push(lines[i as int]));
        }
        fence = next;
        i += 1;
    }
    assert(lines.take(i as int) =~= lines);
    out
}

/// The lines of `body` that are not inside a fenced code block.
pub fn outside_code_fences(body: &str) -> (out: Vec<String>)
    ensures
        views(out@) == plain_lines(text_lines(body@)),
{
    let all = crate::text::lines(&chars_of(body));
    plain_among(&all)
}

/// Where no line is a fence, every line is plain text.
proof fn lemma_no_fences(lines: Seq<Seq<char>>)
    requires
        forall|i: int| 0 <= i < lines.len() ==> !is_fence(trim_start_of(#[trigger] lines[i])),
    ensures
        fence_of(lines) is None,
    decreases lines.len(),
{
    if lines.len() > 0 {
        let d = lines.drop_last();
        assert(!is_fence(trim_start_of(lines[lines.len() - 1])));
        assert forall|i: int| 0 <= i < d.len() implies !is_fence(
            trim_start_of(#[trigger] d[i]),
        ) by {
            assert(d[i] == lines[i]);
        }
        lemma_no_fences(d);
    }
}

/// Inside a block that is open, every line that does not close it leaves it
/// open.
proof fn lemma_stays_open(
    front: Seq<Seq<char>>,
    code: Seq<Seq<char>>,
    marker: Seq<char>,
    n: int,
)
    requires
        fence_of(front) == Some(marker),
        0 <= n <= code.len(),
        forall|i: int|
            0 <= i < code.len() ==> !(is_fence(trim_start_of(#[trigger] code[i]))
                && marker.is_prefix_of(trim_start_of(code[i]))),
    ensures
        fence_of(front + code.take(n)) == Some(marker),
    decreases n,
{
    if n == 0 {
        assert(front + code.take(0) =~= front);
    } else {
        lemma_stays_open(front, code, marker, n - 1);
        let all = front + code.take(n);
        assert(all.drop_last() =~= front + code.take(n - 1));
        assert(all.last() == code[n - 1]);
    }
}

/// A code block runs from the fence that opens it to the first line behind it
/// that starts with the same marker: the lines between are code, whatever they
/// hold, the two fences are no plain text either, and behind the block plain
/// text goes on. Text without a fence is plain.
pub proof fn law_code_blocks(
    text: Seq<Seq<char>>,
    open: Seq<char>,
    code: Seq<Seq<char>>,
    close: Seq<char>,
)
    requires
        forall|i: int| 0 <= i < text.len() ==> !is_fence(trim_start_of(#[trigger] text[i])),
        "```"@.is_prefix_of(trim_start_of(open)) || "~~~"@.is_prefix_of(trim_start_of(open)),
        "```"@.is_prefix_of(trim_start_of(close)) || "~~~"@.is_prefix_of(trim_start_of(close)),
        marker_of(trim_start_of(open)).is_prefix_of(trim_start_of(close)),
        forall|i: int|
            0 <= i < code.len() ==> !marker_of(trim_start_of(open)).is_prefix_of(
                trim_start_of(#[trigger] code[i]),
            ),
    ensures
        ({
            let lines = text.push(open) + code.push(close);
            let n = text.len() as int;
            let m = code.len() as int;
            &&& forall|i: int| 0 <= i < n ==> #[trigger] is_plain(lines, i)
            &&& forall|i: int| n <= i < n + m + 2 ==> !#[trigger] is_plain(lines, i)
            &&& fence_of(lines) is None
        }),
{
    let lines = text.push(open) + code.push(close);
    let n = text.len() as int;
    let m = code.len() as int;
    let marker = marker_of(trim_start_of(open));
    lemma_no_fences(text);
    let front = text.push(open);
    assert(front.drop_last() =~= text);
    assert(fence_of(front) == Some(marker));
    assert forall|i: int| 0 <= i < n implies #[trigger] is_plain(lines, i) by {
        assert(lines.take(i) =~= text.take(i));
        assert forall|k: int| 0 <= k < i implies !is_fence(
            trim_start_of(#[trigger] text.take(i)[k]),
        ) by {
            assert(text.take(i)[k] == text[k]);
        }
        lemma_no_fences(text.take(i));
        assert(lines[i] == text[i]);
    }
    assert forall|i: int| n <= i < n + m + 2 implies !#[trigger] is_plain(lines, i) by {
        if i == n {
            assert(lines[i] == open);
        } else {
            let k = i - n - 1;
            lemma_stays_open(front, code, marker, k);
            assert(lines.take(i) =~= front + code.take(k));
        }
    }
    lemma_stays_open(front, code, marker, m);
    assert(code.take(m) =~= code);
    assert(lines.drop_last() =~= front + code);
    assert(lines.last() == close);
}

} // verus!
