//! Block structure: where a paragraph, a list item or a heading begins and
//! ends.

use crate::text::{
    chars_of, first_is, is_digit, part, starts_with, string_of, trim, trim_of, trim_start,
    trim_start_of, views,
};
use vstd::prelude::*;

verus! {

/// How many ASCII digits stand at the front of `s`.
pub open spec fn leading_digits(s: Seq<char>) -> nat
    decreases s.len(),
{
    if s.len() > 0 && is_digit(s[0]) {
        1 + leading_digits(s.skip(1))
    } else {
        0
    }
}

/// Is `t` the start of an ordered list item?
pub open spec fn numbered(t: Seq<char>) -> bool {
    let d = leading_digits(t) as int;
    d > 0 && (". "@.is_prefix_of(t.skip(d)) || ") "@.is_prefix_of(t.skip(d)))
}

/// Does `line` open a new block? Blank lines, headings, fences, quotes,
/// tables, rules and list items each start their own unit; everything else
/// continues the paragraph it is in.
pub open spec fn opens_block(line: Seq<char>) -> bool {
    let t = trim_start_of(line);
    ||| t.len() == 0
    ||| first_is(t, '#')
    ||| "```"@.is_prefix_of(t)
    ||| "~~~"@.is_prefix_of(t)
    ||| first_is(t, '>')
    ||| first_is(t, '|')
    ||| "---"@.is_prefix_of(t)
    ||| "***"@.is_prefix_of(t)
    ||| "___"@.is_prefix_of(t)
    ||| "- "@.is_prefix_of(t)
    ||| "* "@.is_prefix_of(t)
    ||| "+ "@.is_prefix_of(t)
    ||| numbered(t)
}

/// Is `line` nothing but white space?
pub open spec fn blank(line: Seq<char>) -> bool {
    trim_of(line).len() == 0
}

/// The first line of the block containing line `i`.
pub open spec fn block_start_of(lines: Seq<Seq<char>>, i: int) -> int {
    if i < 0 || i >= lines.len() || blank(lines[i]) {
        i
    } else {
        walk_back(lines, i)
    }
}

pub open spec fn walk_back(lines: Seq<Seq<char>>, j: int) -> int
    decreases j,
{
    if j <= 0 || opens_block(lines[j]) || blank(lines[j - 1]) {
        j
    } else {
        walk_back(lines, j - 1)
    }
}

/// Just behind the last line of the block containing line `i`.
pub open spec fn block_end_of(lines: Seq<Seq<char>>, i: int) -> int {
    if i < 0 || i >= lines.len() {
        lines.len() as int
    } else if blank(lines[i]) {
        i + 1
    } else {
        walk_forward(lines, i + 1)
    }
}

pub open spec fn walk_forward(lines: Seq<Seq<char>>, j: int) -> int
    decreases lines.len() - j,
{
    if j < 0 || j >= lines.len() || blank(lines[j]) || opens_block(lines[j]) {
        j
    } else {
        walk_forward(lines, j + 1)
    }
}

/// The last heading before line `from`, trimmed; empty where there is none.
pub open spec fn heading_before(lines: Seq<Seq<char>>, from: int) -> Seq<char>
    decreases from,
{
    if from <= 0 {
        Seq::empty()
    } else if from > lines.len() {
        heading_before(lines, lines.len() as int)
    } else if first_is(trim_start_of(lines[from - 1]), '#') {
        trim_of(lines[from - 1])
    } else {
        heading_before(lines, from - 1)
    }
}

fn count_digits(s: &[char]) -> (out: usize)
    ensures
        out == leading_digits(s@),
        out <= s.len(),
{
    let mut i: usize = 0;
    assert(s@.skip(0) == s@);
    while i < s.len() && '0' <= s[i] && s[i] <= '9'
        invariant
            i <= s.len(),
            leading_digits(s@) == i + leading_digits(s@.skip(i as int)),
        decreases s.len() - i,
    {
        assert(s@.skip(i as int).skip(1) == s@.skip(i + 1));
        i += 1;
    }
    i
}

/// Does `line` open a new block?
pub fn starts_block(line: &str) -> (out: bool)
    ensures
        out == opens_block(line@),
{
    let chars = chars_of(line);
    let t = trim_start(&chars);
    if t.len() == 0 {
        return true;
    }
    if t[0] == '#' || t[0] == '>' || t[0] == '|' {
        return true;
    }
    if starts_with(t, "```") || starts_with(t, "~~~") || starts_with(t, "---") || starts_with(
        t,
        "***",
    ) || starts_with(t, "___") {
        return true;
    }
    if starts_with(t, "- ") || starts_with(t, "* ") || starts_with(t, "+ ") {
        return true;
    }
    let digits: usize = count_digits(t);
    let after = part(t, digits, t.len());
    assert(after@ == t@.skip(digits as int));
    digits > 0 && (starts_with(after, ". ") || starts_with(after, ") "))
}

/// Is `line` nothing but white space?
pub fn is_blank(line: &str) -> (out: bool)
    ensures
        out == blank(line@),
{
    trim(&chars_of(line)).len() == 0
}

/// Walks back to the first line of the block containing `i`.
pub fn block_start(lines: &[String], i: usize) -> (out: usize)
    ensures
        out == block_start_of(views(lines@), i as int),
        out <= i,
{
    if i >= lines.len() || is_blank(lines[i].as_str()) {
        return i;
    }
    let mut j: usize = i;
    while j > 0 && !starts_block(lines[j].as_str()) && !is_blank(lines[j - 1].as_str())
        invariant
            j <= i < lines.len(),
            walk_back(views(lines@), i as int) == walk_back(views(lines@), j as int),
        decreases j,
    {
        j -= 1;
    }
    j
}

/// Walks forward past the last line of the block containing `i`.
pub fn block_end(lines: &[String], i: usize) -> (out: usize)
    ensures
        out == block_end_of(views(lines@), i as int),
        out <= lines.len(),
        i < lines.len() ==> out > i,
{
    if i >= lines.len() {
        return lines.len();
    }
    if is_blank(lines[i].as_str()) {
        return i + 1;
    }
    let mut j: usize = i + 1;
    while j < lines.len() && !is_blank(lines[j].as_str()) && !starts_block(lines[j].as_str())
        invariant
            i < j <= lines.len(),
            walk_forward(views(lines@), i + 1) == walk_forward(views(lines@), j as int),
        decreases lines.len() - j,
    {
        j += 1;
    }
    j
}

/// The nearest heading before line `from`.
pub fn nearest_heading(lines: &[String], from: usize) -> (out: String)
    ensures
        out@ == heading_before(views(lines@), from as int),
{
    let mut i: usize = if from > lines.len() {
        lines.len()
    } else {
        from
    };
    while i > 0
        invariant
            i <= lines.len(),
            heading_before(views(lines@), from as int) == heading_before(views(lines@), i as int),
        decreases i,
    {
        let chars = chars_of(lines[i - 1].as_str());
        let t = trim_start(&chars);
        if t.len() > 0 && t[0] == '#' {
            return string_of(trim(&chars));
        }
        i -= 1;
    }
    String::new()
}

/// The heading of a place is the last line in front of it that starts with a
/// `#`, trimmed; where no line does, it is empty.
pub proof fn law_heading_is_nearest(lines: Seq<Seq<char>>, from: int)
    requires
        0 <= from <= lines.len(),
    ensures
        (forall|k: int| 0 <= k < from ==> !first_is(trim_start_of(#[trigger] lines[k]), '#'))
            ==> heading_before(lines, from).len() == 0,
        forall|k: int|
            0 <= k < from && first_is(trim_start_of(#[trigger] lines[k]), '#') && (forall|j: int|
                k < j < from ==> !first_is(trim_start_of(#[trigger] lines[j]), '#'))
                ==> heading_before(lines, from) == trim_of(lines[k]),
    decreases from,
{
    if from > 0 {
        law_heading_is_nearest(lines, from - 1);
        if first_is(trim_start_of(lines[from - 1]), '#') {
            assert forall|k: int|
                0 <= k < from && first_is(trim_start_of(#[trigger] lines[k]), '#') && (forall|
                    j: int,
                |
                    k < j < from ==> !first_is(
                        trim_start_of(#[trigger] lines[j]),
                        '#',
                    )) implies heading_before(lines, from) == trim_of(lines[k]) by {
                if k < from - 1 {
                    assert(!first_is(trim_start_of(lines[from - 1]), '#'));
                }
            }
        }
    }
}

proof fn lemma_walk_back(lines: Seq<Seq<char>>, j: int)
    requires
        0 <= j < lines.len(),
    ensures
        0 <= walk_back(lines, j) <= j,
        forall|k: int| walk_back(lines, j) < k <= j ==> !opens_block(#[trigger] lines[k]),
        forall|k: int| walk_back(lines, j) <= k < j ==> !blank(#[trigger] lines[k]),
        walk_back(lines, j) > 0 ==> opens_block(lines[walk_back(lines, j)]) || blank(
            lines[walk_back(lines, j) - 1],
        ),
    decreases j,
{
    if j > 0 && !opens_block(lines[j]) && !blank(lines[j - 1]) {
        lemma_walk_back(lines, j - 1);
    }
}

proof fn lemma_walk_forward(lines: Seq<Seq<char>>, j: int)
    requires
        0 <= j <= lines.len(),
    ensures
        j <= walk_forward(lines, j) <= lines.len(),
        forall|k: int|
            j <= k < walk_forward(lines, j) ==> !opens_block(#[trigger] lines[k]) && !blank(
                lines[k],
            ),
        walk_forward(lines, j) < lines.len() ==> opens_block(lines[walk_forward(lines, j)])
            || blank(lines[walk_forward(lines, j)]),
    decreases lines.len() - j,
{
    if j < lines.len() && !blank(lines[j]) && !opens_block(lines[j]) {
        lemma_walk_forward(lines, j + 1);
    }
}

/// The block around a line is the largest stretch with that line in it that no
/// blank line and no line that opens a block of its own cuts in two.
pub proof fn law_block_is_whole(lines: Seq<Seq<char>>, i: int)
    requires
        0 <= i < lines.len(),
        !blank(lines[i]),
    ensures
        ({
            let s = block_start_of(lines, i);
            let e = block_end_of(lines, i);
            &&& 0 <= s <= i < e <= lines.len()
            &&& forall|k: int|
                s <= k < e ==> !blank(#[trigger] lines[k]) && (k > s ==> !opens_block(lines[k]))
            &&& s > 0 ==> opens_block(lines[s]) || blank(lines[s - 1])
            &&& e < lines.len() ==> opens_block(lines[e]) || blank(lines[e])
        }),
{
    lemma_walk_back(lines, i);
    lemma_walk_forward(lines, i + 1);
    let s = block_start_of(lines, i);
    let e = block_end_of(lines, i);
    assert forall|k: int| s <= k < e implies !blank(#[trigger] lines[k]) && (k > s
        ==> !opens_block(lines[k])) by {}
}

} // verus!
