//! Text as sequences of characters: slicing, trimming, splitting, joining.
//!
//! Every routine here works on `char`s, so a position is a character index.
//! Byte offsets, where a caller needs them, are the length of the UTF-8
//! encoding of a prefix.

use crate::order::{lemma_sorted_map, sorted, stable_sort};
use vstd::prelude::*;
use vstd::slice::slice_subrange;
use vstd::utf8::encode_utf8;

verus! {

/// `String::push` appends one character at the end.
pub assume_specification[ String::push ](s: &mut String, ch: char)
    ensures
        final(s)@ == old(s)@.push(ch),
;

/// The contents of each string of a sequence.
pub open spec fn views(parts: Seq<String>) -> Seq<Seq<char>> {
    Seq::new(parts.len(), |i: int| parts[i]@)
}

/// The characters of `s`.
pub fn chars_of(s: &str) -> (out: Vec<char>)
    ensures
        out@ == s@,
{
    let mut out: Vec<char> = Vec::new();
    for c in it: s.chars()
        invariant
            it.seq() == s@,
            out@ == s@.take(it.index()),
    {
        out.push(c);
    }
    out
}

/// The string with the given characters.
pub fn string_of(chars: &[char]) -> (out: String)
    ensures
        out@ == chars@,
{
    let mut out = String::new();
    let mut i: usize = 0;
    while i < chars.len()
        invariant
            i <= chars.len(),
            out@ == chars@.take(i as int),
        decreases chars.len() - i,
    {
        out.push(chars[i]);
        i += 1;
    }
    out
}

/// Do two character slices hold the same characters?
pub fn same(a: &[char], b: &[char]) -> (out: bool)
    ensures
        out == (a@ == b@),
{
    if a.len() != b.len() {
        return false;
    }
    let mut i: usize = 0;
    while i < a.len()
        invariant
            i <= a.len(),
            a.len() == b.len(),
            a@.take(i as int) == b@.take(i as int),
        decreases a.len() - i,
    {
        if a[i] != b[i] {
            assert(a@[i as int] != b@[i as int]);
            return false;
        }
        assert(a@.take(i + 1) == a@.take(i as int).push(a@[i as int]));
        assert(b@.take(i + 1) == b@.take(i as int).push(b@[i as int]));
        i += 1;
    }
    assert(a@.take(a.len() as int) == a@);
    assert(b@.take(b.len() as int) == b@);
    true
}

/// Are two strings equal?
pub fn same_str(a: &str, b: &str) -> (out: bool)
    ensures
        out == (a@ == b@),
{
    a.to_owned() == b.to_owned()
}

/// The part of `s` from `from` up to `to`.
pub fn part(s: &[char], from: usize, to: usize) -> (out: &[char])
    requires
        from <= to <= s.len(),
    ensures
        out@ == s@.subrange(from as int, to as int),
{
    slice_subrange(s, from, to)
}

// ---------------------------------------------------------------------------
// White space
// ---------------------------------------------------------------------------

/// The characters with the Unicode property `White_Space`.
pub open spec fn is_space(c: char) -> bool {
    ||| '\u{9}' <= c <= '\u{d}'
    ||| c == ' '
    ||| c == '\u{85}'
    ||| c == '\u{a0}'
    ||| c == '\u{1680}'
    ||| '\u{2000}' <= c <= '\u{200a}'
    ||| c == '\u{2028}'
    ||| c == '\u{2029}'
    ||| c == '\u{202f}'
    ||| c == '\u{205f}'
    ||| c == '\u{3000}'
}

/// Is `c` white space?
pub fn space(c: char) -> (out: bool)
    ensures
        out == is_space(c),
{
    ('\u{9}' <= c && c <= '\u{d}') || c == ' ' || c == '\u{85}' || c == '\u{a0}' || c == '\u{1680}'
        || ('\u{2000}' <= c && c <= '\u{200a}') || c == '\u{2028}' || c == '\u{2029}' || c
        == '\u{202f}' || c == '\u{205f}' || c == '\u{3000}'
}

/// `s` without its leading white space.
pub open spec fn trim_start_of(s: Seq<char>) -> Seq<char>
    decreases s.len(),
{
    if s.len() > 0 && is_space(s[0]) {
        trim_start_of(s.skip(1))
    } else {
        s
    }
}

/// `s` without its trailing white space.
pub open spec fn trim_end_of(s: Seq<char>) -> Seq<char>
    decreases s.len(),
{
    if s.len() > 0 && is_space(s.last()) {
        trim_end_of(s.drop_last())
    } else {
        s
    }
}

/// `s` without the white space at both ends.
pub open spec fn trim_of(s: Seq<char>) -> Seq<char> {
    trim_end_of(trim_start_of(s))
}

pub proof fn lemma_trim_end_len(s: Seq<char>)
    ensures
        trim_end_of(s).len() <= s.len(),
    decreases s.len(),
{
    if s.len() > 0 && is_space(s.last()) {
        lemma_trim_end_len(s.drop_last());
    }
}

/// What is left at the end of a trimmed text is no white space.
pub proof fn lemma_trim_end_last(s: Seq<char>)
    ensures
        trim_end_of(s).len() > 0 ==> !is_space(trim_end_of(s).last()),
    decreases s.len(),
{
    if s.len() > 0 && is_space(s.last()) {
        lemma_trim_end_last(s.drop_last());
    }
}

/// Drops leading white space.
pub fn trim_start(s: &[char]) -> (out: &[char])
    ensures
        out@ == trim_start_of(s@),
        out@.len() <= s@.len(),
        out@ == s@.skip(s@.len() - out@.len()),
{
    let mut i: usize = 0;
    assert(s@.skip(0) == s@);
    while i < s.len() && space(s[i])
        invariant
            i <= s.len(),
            trim_start_of(s@) == trim_start_of(s@.skip(i as int)),
        decreases s.len() - i,
    {
        assert(s@.skip(i as int).skip(1) == s@.skip(i + 1));
        i += 1;
    }
    assert(s@.subrange(i as int, s@.len() as int) == s@.skip(i as int));
    slice_subrange(s, i, s.len())
}

/// Drops trailing white space.
pub fn trim_end(s: &[char]) -> (out: &[char])
    ensures
        out@ == trim_end_of(s@),
        out@.len() <= s@.len(),
        out@ == s@.take(out@.len() as int),
{
    let mut n: usize = s.len();
    assert(s@.take(s@.len() as int) == s@);
    while n > 0 && space(s[n - 1])
        invariant
            n <= s.len(),
            trim_end_of(s@) == trim_end_of(s@.take(n as int)),
        decreases n,
    {
        assert(s@.take(n as int).drop_last() == s@.take(n - 1));
        n -= 1;
    }
    assert(s@.subrange(0, n as int) == s@.take(n as int));
    slice_subrange(s, 0, n)
}

/// Drops the white space at both ends.
pub fn trim(s: &[char]) -> (out: &[char])
    ensures
        out@ == trim_of(s@),
{
    trim_end(trim_start(s))
}

// ---------------------------------------------------------------------------
// Prefixes, suffixes, searching
// ---------------------------------------------------------------------------

/// Does `s` begin with `p`?
pub fn starts_with(s: &[char], p: &str) -> (out: bool)
    ensures
        out == p@.is_prefix_of(s@),
{
    let p = chars_of(p);
    if p.len() > s.len() {
        return false;
    }
    same(part(s, 0, p.len()), &p)
}

/// Does `s` end with `p`?
pub fn ends_with(s: &[char], p: &str) -> (out: bool)
    ensures
        out == p@.is_suffix_of(s@),
{
    let p = chars_of(p);
    if p.len() > s.len() {
        return false;
    }
    same(part(s, s.len() - p.len(), s.len()), &p)
}

/// Is the character `c` the first of `s`?
pub open spec fn first_is(s: Seq<char>, c: char) -> bool {
    s.len() > 0 && s[0] == c
}

/// Does `needle` stand in `hay` at position `at`?
pub open spec fn occurs_at(hay: Seq<char>, needle: Seq<char>, at: int) -> bool {
    0 <= at && at + needle.len() <= hay.len() && hay.subrange(at, at + needle.len()) == needle
}

/// Does `needle` stand anywhere in `hay`?
pub open spec fn occurs(hay: Seq<char>, needle: Seq<char>) -> bool {
    exists|at: int| occurs_at(hay, needle, at)
}

/// Is `at` the first position at or after `from` where `needle` stands?
pub open spec fn first_at(hay: Seq<char>, needle: Seq<char>, from: int, at: int) -> bool {
    &&& from <= at
    &&& occurs_at(hay, needle, at)
    &&& forall|k: int| from <= k < at ==> !#[trigger] occurs_at(hay, needle, k)
}

/// Does `needle` stand in `hay` at position `at`?
pub fn found_at(hay: &[char], needle: &[char], at: usize) -> (out: bool)
    ensures
        out == occurs_at(hay@, needle@, at as int),
{
    if needle.len() > hay.len() || at > hay.len() - needle.len() {
        return false;
    }
    same(part(hay, at, at + needle.len()), needle)
}

/// The first position at or after `from` where `needle` stands in `hay`.
pub open spec fn find_of(hay: Seq<char>, needle: Seq<char>, from: int) -> Option<int>
    decreases hay.len() + 1 - from,
{
    if from < 0 || from > hay.len() {
        None
    } else if occurs_at(hay, needle, from) {
        Some(from)
    } else {
        find_of(hay, needle, from + 1)
    }
}

pub proof fn lemma_find(hay: Seq<char>, needle: Seq<char>, from: int)
    requires
        0 <= from,
    ensures
        match find_of(hay, needle, from) {
            Some(at) => first_at(hay, needle, from, at),
            None => forall|k: int| from <= k ==> !#[trigger] occurs_at(hay, needle, k),
        },
    decreases hay.len() + 1 - from,
{
    if from <= hay.len() && !occurs_at(hay, needle, from) {
        lemma_find(hay, needle, from + 1);
    }
}

/// The first position at or after `from` where `needle` stands in `hay`.
pub fn find_from(hay: &[char], needle: &[char], from: usize) -> (out: Option<usize>)
    ensures
        match out {
            Some(at) => find_of(hay@, needle@, from as int) == Some(at as int) && first_at(
                hay@,
                needle@,
                from as int,
                at as int,
            ),
            None => find_of(hay@, needle@, from as int) is None && forall|k: int|
                from <= k ==> !#[trigger] occurs_at(hay@, needle@, k),
        },
{
    let mut i: usize = from;
    while i <= hay.len()
        invariant
            find_of(hay@, needle@, from as int) == find_of(hay@, needle@, i as int),
        ensures
            i > hay.len(),
        decreases hay.len() + 1 - i,
    {
        proof {
            lemma_find(hay@, needle@, from as int);
        }
        if found_at(hay, needle, i) {
            return Some(i);
        }
        if i == hay.len() {
            assert(find_of(hay@, needle@, i + 1) is None);
            return None;
        }
        i += 1;
    }
    proof {
        lemma_find(hay@, needle@, from as int);
    }
    None
}

/// Does `needle` stand anywhere in `hay`?
pub fn contains(hay: &[char], needle: &[char]) -> (out: bool)
    ensures
        out == occurs(hay@, needle@),
{
    match find_from(hay, needle, 0) {
        Some(at) => {
            assert(occurs_at(hay@, needle@, at as int));
            true
        },
        None => {
            assert forall|k: int| !#[trigger] occurs_at(hay@, needle@, k) by {}
            false
        },
    }
}

/// The first position of `c` in `s`, or the length of `s` if there is none.
pub open spec fn index_of(s: Seq<char>, c: char) -> int
    decreases s.len(),
{
    if s.len() == 0 || s[0] == c {
        0
    } else {
        1 + index_of(s.skip(1), c)
    }
}

pub proof fn lemma_index_of(s: Seq<char>, c: char)
    ensures
        0 <= index_of(s, c) <= s.len(),
        index_of(s, c) < s.len() ==> s[index_of(s, c)] == c,
        forall|k: int| 0 <= k < index_of(s, c) ==> s[k] != c,
    decreases s.len(),
{
    if s.len() > 0 && s[0] != c {
        lemma_index_of(s.skip(1), c);
        assert forall|k: int| 0 <= k < index_of(s, c) implies s[k] != c by {
            if k > 0 {
                assert(s[k] == s.skip(1)[k - 1]);
            }
        }
    }
}

/// The position named by `index_of` is the only one with its properties.
pub proof fn lemma_index_unique(s: Seq<char>, c: char, i: int)
    requires
        0 <= i <= s.len(),
        i < s.len() ==> s[i] == c,
        forall|k: int| 0 <= k < i ==> s[k] != c,
    ensures
        index_of(s, c) == i,
{
    lemma_index_of(s, c);
}

/// The first position of `c` in `s`, or the length of `s`.
pub fn position(s: &[char], c: char) -> (out: usize)
    ensures
        out == index_of(s@, c),
        out <= s.len(),
{
    let mut i: usize = 0;
    while i < s.len() && s[i] != c
        invariant
            i <= s.len(),
            forall|k: int| 0 <= k < i ==> s@[k] != c,
        decreases s.len() - i,
    {
        i += 1;
    }
    proof {
        lemma_index_unique(s@, c, i as int);
    }
    i
}

// ---------------------------------------------------------------------------
// Splitting and joining
// ---------------------------------------------------------------------------

/// The pieces of `s` between the occurrences of `c`; always at least one.
pub open spec fn split_on(s: Seq<char>, c: char) -> Seq<Seq<char>>
    decreases s.len(),
    via split_on_decreases
{
    let i = index_of(s, c);
    if i >= s.len() {
        seq![s]
    } else {
        seq![s.take(i)] + split_on(s.skip(i + 1), c)
    }
}

#[via_fn]
proof fn split_on_decreases(s: Seq<char>, c: char) {
    lemma_index_of(s, c);
}

pub proof fn lemma_split_len(s: Seq<char>, c: char)
    ensures
        split_on(s, c).len() <= s.len() + 1,
    decreases s.len(),
{
    lemma_index_of(s, c);
    let i = index_of(s, c);
    if i < s.len() {
        lemma_split_len(s.skip(i + 1), c);
    }
}

/// The pieces of `s` between the occurrences of `c`.
pub fn split(s: &[char], c: char) -> (out: Vec<String>)
    ensures
        views(out@) == split_on(s@, c),
{
    let mut out: Vec<String> = Vec::new();
    let mut rest: &[char] = s;
    loop
        invariant
            views(out@) + split_on(rest@, c) == split_on(s@, c),
        decreases rest.len(),
    {
        let i: usize = position(rest, c);
        let ghost before = views(out@);
        proof {
            lemma_index_of(rest@, c);
        }
        if i == rest.len() {
            out.push(string_of(rest));
            assert(views(out@) == before.push(rest@));
            assert(before + seq![rest@] == before.push(rest@));
            return out;
        }
        out.push(string_of(part(rest, 0, i)));
        assert(rest@.subrange(0, i as int) == rest@.take(i as int));
        assert(rest@.subrange(i + 1, rest@.len() as int) == rest@.skip(i + 1));
        assert(views(out@) == before.push(rest@.take(i as int)));
        assert(before.push(rest@.take(i as int)) + split_on(rest@.skip(i + 1), c) == before + (seq![
            rest@.take(i as int),
        ] + split_on(rest@.skip(i + 1), c)));
        rest = part(rest, i + 1, rest.len());
    }
}

/// The pieces with `sep` between each two of them.
pub open spec fn join_of(parts: Seq<Seq<char>>, sep: Seq<char>) -> Seq<char>
    decreases parts.len(),
{
    if parts.len() == 0 {
        Seq::empty()
    } else if parts.len() == 1 {
        parts[0]
    } else {
        join_of(parts.drop_last(), sep) + sep + parts.last()
    }
}

/// Joins the pieces with `sep` between each two of them.
pub fn join(parts: &[String], sep: &str) -> (out: String)
    ensures
        out@ == join_of(views(parts@), sep@),
{
    let mut out = String::new();
    let mut i: usize = 0;
    while i < parts.len()
        invariant
            i <= parts.len(),
            out@ == join_of(views(parts@).take(i as int), sep@),
        decreases parts.len() - i,
    {
        assert(views(parts@).take(i + 1).drop_last() == views(parts@).take(i as int));
        if i > 0 {
            out.append(sep);
        }
        out.append(parts[i].as_str());
        i += 1;
    }
    assert(views(parts@).take(i as int) == views(parts@));
    out
}

/// Joining two runs of pieces.
pub proof fn lemma_join_concat(a: Seq<Seq<char>>, b: Seq<Seq<char>>, sep: Seq<char>)
    ensures
        a.len() > 0 && b.len() > 0 ==> join_of(a + b, sep) == join_of(a, sep) + sep + join_of(
            b,
            sep,
        ),
        a.len() == 0 ==> join_of(a + b, sep) == join_of(b, sep),
        b.len() == 0 ==> join_of(a + b, sep) == join_of(a, sep),
    decreases b.len(),
{
    if b.len() == 0 {
        assert(a + b == a);
    } else if a.len() == 0 {
        assert(a + b == b);
    } else {
        assert((a + b).drop_last() == a + b.drop_last());
        lemma_join_concat(a, b.drop_last(), sep);
        if b.len() == 1 {
            assert(a + b.drop_last() == a);
        } else {
            assert(join_of(a, sep) + sep + join_of(b.drop_last(), sep) + sep + b.last() == join_of(
                a,
                sep,
            ) + sep + (join_of(b.drop_last(), sep) + sep + b.last()));
        }
    }
}

/// Splitting at a character and joining with it gives the text back.
pub proof fn lemma_join_split(s: Seq<char>, c: char)
    ensures
        join_of(split_on(s, c), seq![c]) == s,
        split_on(s, c).len() > 0,
    decreases s.len(),
{
    lemma_index_of(s, c);
    let i = index_of(s, c);
    if i < s.len() {
        lemma_join_split(s.skip(i + 1), c);
        lemma_join_concat(seq![s.take(i)], split_on(s.skip(i + 1), c), seq![c]);
        assert(s == s.take(i) + seq![c] + s.skip(i + 1));
    }
}

/// `s` without one carriage return at its end.
pub open spec fn strip_cr(s: Seq<char>) -> Seq<char> {
    if s.len() > 0 && s.last() == '\r' {
        s.drop_last()
    } else {
        s
    }
}

/// The lines of `s`. A line ends at a line feed, which may follow a carriage
/// return; both are left out. The last line needs no end.
pub open spec fn text_lines(s: Seq<char>) -> Seq<Seq<char>>
    decreases s.len(),
    via text_lines_decreases
{
    let i = index_of(s, '\n');
    if s.len() == 0 {
        Seq::empty()
    } else if i >= s.len() {
        seq![s]
    } else {
        seq![strip_cr(s.take(i))] + text_lines(s.skip(i + 1))
    }
}

#[via_fn]
proof fn text_lines_decreases(s: Seq<char>) {
    lemma_index_of(s, '\n');
}

/// A text has no more lines than characters.
pub proof fn lemma_line_count(s: Seq<char>)
    ensures
        text_lines(s).len() <= s.len(),
    decreases s.len(),
{
    lemma_index_of(s, '\n');
    let i = index_of(s, '\n');
    if s.len() > 0 && i < s.len() {
        lemma_line_count(s.skip(i + 1));
    }
}

/// The lines of `s`.
pub fn lines(s: &[char]) -> (out: Vec<String>)
    ensures
        views(out@) == text_lines(s@),
{
    let mut out: Vec<String> = Vec::new();
    let mut rest: &[char] = s;
    assert(views(out@) + text_lines(s@) =~= text_lines(s@));
    while rest.len() > 0
        invariant
            views(out@) + text_lines(rest@) == text_lines(s@),
        decreases rest.len(),
    {
        let i: usize = position(rest, '\n');
        let ghost before = views(out@);
        proof {
            lemma_index_of(rest@, '\n');
        }
        if i == rest.len() {
            out.push(string_of(rest));
            assert(views(out@) =~= before + seq![rest@]);
            return out;
        }
        let mut n: usize = i;
        if n > 0 && rest[n - 1] == '\r' {
            n -= 1;
        }
        out.push(string_of(part(rest, 0, n)));
        let ghost line = strip_cr(rest@.take(i as int));
        assert(rest@.subrange(0, n as int) =~= line);
        assert(rest@.subrange(i + 1, rest@.len() as int) =~= rest@.skip(i + 1));
        assert(views(out@) =~= before.push(line));
        assert(before.push(line) + text_lines(rest@.skip(i + 1)) =~= before + (seq![line]
            + text_lines(rest@.skip(i + 1))));
        rest = part(rest, i + 1, rest.len());
    }
    assert(views(out@) + text_lines(rest@) =~= views(out@));
    out
}

// ---------------------------------------------------------------------------
// Byte lengths
// ---------------------------------------------------------------------------

/// How many bytes the UTF-8 encoding of `s` has.
pub open spec fn byte_len(s: Seq<char>) -> nat {
    encode_utf8(s).len()
}

/// How many bytes one character takes.
pub open spec fn width_of(c: char) -> nat {
    if c as u32 <= 0x7f {
        1
    } else if c as u32 <= 0x7ff {
        2
    } else if c as u32 <= 0xffff {
        3
    } else {
        4
    }
}

/// How many bytes one character takes.
pub fn width(c: char) -> (out: usize)
    ensures
        out == width_of(c),
        1 <= out <= 4,
{
    let n: u32 = c as u32;
    if n <= 0x7f {
        1
    } else if n <= 0x7ff {
        2
    } else if n <= 0xffff {
        3
    } else {
        4
    }
}

pub proof fn lemma_encode_concat(a: Seq<char>, b: Seq<char>)
    ensures
        encode_utf8(a + b) == encode_utf8(a) + encode_utf8(b),
    decreases a.len(),
{
    if a.len() == 0 {
        assert(a + b == b);
    } else {
        assert((a + b).drop_first() == a.drop_first() + b);
        lemma_encode_concat(a.drop_first(), b);
        assert(encode_utf8(a + b) == vstd::utf8::encode_scalar(a[0] as u32) + (encode_utf8(
            a.drop_first(),
        ) + encode_utf8(b)));
    }
}

pub proof fn lemma_byte_len_concat(a: Seq<char>, b: Seq<char>)
    ensures
        byte_len(a + b) == byte_len(a) + byte_len(b),
{
    lemma_encode_concat(a, b);
}

pub proof fn lemma_byte_len_push(s: Seq<char>, c: char)
    ensures
        byte_len(s.push(c)) == byte_len(s) + width_of(c),
{
    assert(s.push(c) == s + seq![c]);
    lemma_encode_concat(s, seq![c]);
    assert(seq![c].drop_first() == Seq::<char>::empty());
    vstd::utf8::char_is_scalar(c);
    assert(encode_utf8(seq![c]) == vstd::utf8::encode_scalar(c as u32) + encode_utf8(
        Seq::<char>::empty(),
    ));
    assert(vstd::utf8::encode_scalar(c as u32).len() == width_of(c));
}

/// The number of bytes of a string.
pub fn bytes_in(s: &str) -> (out: usize)
    ensures
        out == byte_len(s@),
{
    s.as_bytes().len()
}

// ---------------------------------------------------------------------------
// Numbers
// ---------------------------------------------------------------------------

/// Is `c` one of the ten ASCII digits?
pub open spec fn is_digit(c: char) -> bool {
    '0' <= c <= '9'
}

/// The decimal digits of `n`, without leading zeros.
pub open spec fn decimal_of(n: nat) -> Seq<char>
    decreases n,
{
    if n < 10 {
        seq![(48 + n) as char]
    } else {
        decimal_of(n / 10).push((48 + n % 10) as char)
    }
}

/// The decimal digits of `n`, without leading zeros.
pub fn decimal(n: u64) -> (out: String)
    ensures
        out@ == decimal_of(n as nat),
    decreases n,
{
    if n < 10 {
        let mut out = String::new();
        out.push((48u8 + n as u8) as char);
        assert(out@ == seq![(48 + n) as char]);
        out
    } else {
        let mut out = decimal(n / 10);
        out.push((48u8 + (n % 10) as u8) as char);
        out
    }
}

/// The decimal text of an integer.
pub open spec fn integer_of(n: int) -> Seq<char> {
    if n < 0 {
        "-"@ + decimal_of((-n) as nat)
    } else {
        decimal_of(n as nat)
    }
}

/// The decimal text of an integer.
pub fn integer(n: i64) -> (out: String)
    ensures
        out@ == integer_of(n as int),
{
    if n < 0 {
        let mut out = "-".to_owned();
        let m: u64 = (-(n as i128)) as u64;
        out.append(decimal(m).as_str());
        out
    } else {
        decimal(n as u64)
    }
}

/// The value of a run of decimal digits; nothing where another character
/// stands in it or it is empty.
pub open spec fn digits_value(s: Seq<char>) -> Option<nat>
    decreases s.len(),
{
    if s.len() == 0 || !is_digit(s.last()) {
        None
    } else if s.len() == 1 {
        Some((s.last() as u32 - 48) as nat)
    } else {
        match digits_value(s.drop_last()) {
            Some(v) => Some(10 * v + (s.last() as u32 - 48) as nat),
            None => None,
        }
    }
}

/// The value of a number written as digits, after an optional plus sign.
pub open spec fn number_of(s: Seq<char>) -> Option<nat> {
    if s.len() > 0 && s[0] == '+' {
        digits_value(s.skip(1))
    } else {
        digits_value(s)
    }
}

/// The value that fits into a `usize`, if any.
pub open spec fn fitting(v: Option<nat>) -> Option<usize> {
    match v {
        Some(n) => if n <= usize::MAX {
            Some(n as usize)
        } else {
            None
        },
        None => None,
    }
}

proof fn lemma_digits_take(s: Seq<char>, n: int)
    requires
        0 < n <= s.len(),
        digits_value(s) is Some,
    ensures
        digits_value(s.take(n)) is Some,
        digits_value(s.take(n))->0 <= digits_value(s)->0,
    decreases s.len(),
{
    if n == s.len() {
        assert(s.take(n) == s);
    } else {
        lemma_digits_take(s.drop_last(), n);
        assert(s.drop_last().take(n) == s.take(n));
    }
}

/// Reads a run of digits as a `u64`.
fn parse_digits(s: &[char]) -> (out: Option<u64>)
    ensures
        out == (match digits_value(s@) {
            Some(n) => if n <= u64::MAX {
                Some(n as u64)
            } else {
                None
            },
            None => None,
        }),
{
    if s.len() == 0 {
        return None;
    }
    let mut v: u64 = 0;
    let mut i: usize = 0;
    while i < s.len()
        invariant
            0 < s.len(),
            i <= s.len(),
            i > 0 ==> digits_value(s@.take(i as int)) == Some(v as nat),
            i == 0 ==> v == 0,
        decreases s.len() - i,
    {
        let c: char = s[i];
        let ghost next = s@.take(i + 1);
        assert(next.drop_last() == s@.take(i as int));
        if c < '0' || c > '9' {
            proof {
                if digits_value(s@) is Some {
                    lemma_digits_take(s@, i + 1);
                }
            }
            return None;
        }
        let d: u64 = (c as u32 - 48) as u64;
        assert(digits_value(next) == Some((10 * v + d) as nat));
        proof {
            if digits_value(s@) is Some {
                lemma_digits_take(s@, i + 1);
            }
        }
        match v.checked_mul(10) {
            None => {
                return None;
            },
            Some(t) => match t.checked_add(d) {
                None => {
                    return None;
                },
                Some(sum) => {
                    v = sum;
                },
            },
        }
        i += 1;
    }
    assert(s@.take(i as int) == s@);
    Some(v)
}

/// Reads a number as `usize`'s `FromStr` does: digits after an optional plus
/// sign, in range.
pub fn parse_usize(s: &[char]) -> (out: Option<usize>)
    ensures
        out == fitting(number_of(s@)),
{
    match parse_number(s) {
        Some(n) => {
            if n <= usize::MAX as u64 {
                Some(n as usize)
            } else {
                None
            }
        },
        None => None,
    }
}

fn parse_number(s: &[char]) -> (out: Option<u64>)
    ensures
        out == (match number_of(s@) {
            Some(n) => if n <= u64::MAX {
                Some(n as u64)
            } else {
                None
            },
            None => None,
        }),
{
    if s.len() > 0 && s[0] == '+' {
        assert(s@.subrange(1, s@.len() as int) == s@.skip(1));
        parse_digits(part(s, 1, s.len()))
    } else {
        parse_digits(s)
    }
}

/// The value of a number with a sign, where it fits into an `i64`.
pub open spec fn signed_of(s: Seq<char>) -> Option<i64> {
    if s.len() > 0 && s[0] == '-' {
        match digits_value(s.skip(1)) {
            Some(n) => if n <= 0x8000_0000_0000_0000 {
                Some((-n) as i64)
            } else {
                None
            },
            None => None,
        }
    } else {
        match number_of(s) {
            Some(n) => if n <= i64::MAX {
                Some(n as i64)
            } else {
                None
            },
            None => None,
        }
    }
}

/// Reads a number as `i64`'s `FromStr` does: digits after an optional sign, in
/// range.
pub fn parse_i64(s: &[char]) -> (out: Option<i64>)
    ensures
        out == signed_of(s@),
{
    if s.len() > 0 && s[0] == '-' {
        assert(s@.subrange(1, s@.len() as int) == s@.skip(1));
        match parse_digits(part(s, 1, s.len())) {
            Some(n) => {
                if n < 0x8000_0000_0000_0000 {
                    Some(-(n as i64))
                } else if n == 0x8000_0000_0000_0000 {
                    Some(i64::MIN)
                } else {
                    None
                }
            },
            None => None,
        }
    } else {
        match parse_number(s) {
            Some(n) => {
                if n <= i64::MAX as u64 {
                    Some(n as i64)
                } else {
                    None
                }
            },
            None => None,
        }
    }
}

/// Reading back the text of an integer gives the integer.
pub proof fn law_integer_round_trip(n: i64)
    ensures
        signed_of(integer_of(n as int)) == Some(n),
{
    if n < 0 {
        let m = (-n) as nat;
        lemma_decimal_value(m);
        reveal_strlit("-");
        assert(integer_of(n as int).skip(1) =~= decimal_of(m));
    } else {
        lemma_decimal_value(n as nat);
        assert(is_digit(decimal_of(n as nat)[0]));
    }
}

/// The digits of a number have its value.
pub proof fn lemma_decimal_value(n: nat)
    ensures
        decimal_of(n).len() > 0,
        digits_value(decimal_of(n)) == Some(n),
        forall|i: int| 0 <= i < decimal_of(n).len() ==> is_digit(#[trigger] decimal_of(n)[i]),
    decreases n,
{
    if n >= 10 {
        lemma_decimal_value(n / 10);
        let d = (48 + n % 10) as char;
        assert(decimal_of(n).drop_last() == decimal_of(n / 10));
        assert(decimal_of(n).last() == d);
        assert(is_digit(d));
    } else {
        assert(is_digit((48 + n) as char));
    }
}

// ---------------------------------------------------------------------------
// Words
// ---------------------------------------------------------------------------

/// Where the run of characters that are (or are not) white space at `i` ends.
pub open spec fn run_end(s: Seq<char>, i: int, white: bool) -> int
    decreases s.len() - i,
{
    if 0 <= i < s.len() && is_space(s[i]) == white {
        run_end(s, i + 1, white)
    } else {
        i
    }
}

pub proof fn lemma_run_end(s: Seq<char>, i: int, white: bool)
    requires
        0 <= i <= s.len(),
    ensures
        i <= run_end(s, i, white) <= s.len(),
        forall|k: int| i <= k < run_end(s, i, white) ==> is_space(#[trigger] s[k]) == white,
        run_end(s, i, white) < s.len() ==> is_space(s[run_end(s, i, white)]) != white,
    decreases s.len() - i,
{
    if i < s.len() && is_space(s[i]) == white {
        lemma_run_end(s, i + 1, white);
    }
}

/// The words of `s` from position `i` on: its maximal runs without white space.
pub open spec fn words_from(s: Seq<char>, i: int) -> Seq<Seq<char>>
    decreases s.len() - i,
    via words_from_decreases
{
    if 0 <= i <= s.len() {
        let start = run_end(s, i, true);
        let end = run_end(s, start, false);
        if start >= s.len() {
            Seq::empty()
        } else {
            seq![s.subrange(start, end)] + words_from(s, end)
        }
    } else {
        Seq::empty()
    }
}

#[via_fn]
proof fn words_from_decreases(s: Seq<char>, i: int) {
    if 0 <= i <= s.len() {
        lemma_run_end(s, i, true);
        let start = run_end(s, i, true);
        if start < s.len() {
            lemma_run_end(s, start, false);
        }
    }
}

/// The words of `s`.
pub open spec fn words_of(s: Seq<char>) -> Seq<Seq<char>> {
    words_from(s, 0)
}

/// Moves over a run of characters that are (or are not) white space.
pub fn skip_run(s: &[char], from: usize, white: bool) -> (out: usize)
    requires
        from <= s.len(),
    ensures
        out == run_end(s@, from as int, white),
        from <= out <= s.len(),
{
    let mut i: usize = from;
    while i < s.len() && space(s[i]) == white
        invariant
            from <= i <= s.len(),
            run_end(s@, from as int, white) == run_end(s@, i as int, white),
        decreases s.len() - i,
    {
        i += 1;
    }
    i
}

/// The words of `s`.
pub fn words(s: &[char]) -> (out: Vec<String>)
    ensures
        views(out@) == words_of(s@),
{
    let mut out: Vec<String> = Vec::new();
    let mut i: usize = 0;
    assert(views(out@) + words_from(s@, 0) == words_of(s@));
    loop
        invariant
            i <= s.len(),
            views(out@) + words_from(s@, i as int) == words_of(s@),
        decreases s.len() - i,
    {
        let start: usize = skip_run(s, i, true);
        if start == s.len() {
            assert(views(out@) + Seq::<Seq<char>>::empty() == views(out@));
            return out;
        }
        let end: usize = skip_run(s, start, false);
        proof {
            lemma_run_end(s@, i as int, true);
            lemma_run_end(s@, start as int, false);
        }
        let ghost before = views(out@);
        let word = string_of(part(s, start, end));
        let ghost w = word@;
        out.push(word);
        assert(views(out@) == before.push(w));
        assert(before.push(w) + words_from(s@, end as int) == before + (seq![w] + words_from(
            s@,
            end as int,
        )));
        i = end;
    }
}

/// White space between two positions does not matter to the words behind it.
pub proof fn lemma_words_skip_space(s: Seq<char>, i: int, j: int)
    requires
        0 <= i <= j <= s.len(),
        forall|k: int| i <= k < j ==> is_space(#[trigger] s[k]),
    ensures
        words_from(s, i) == words_from(s, j),
        run_end(s, i, true) == run_end(s, j, true),
    decreases j - i,
{
    if i < j {
        assert(is_space(s[i]));
        lemma_words_skip_space(s, i + 1, j);
        lemma_run_end(s, i, true);
        lemma_run_end(s, i + 1, true);
    }
}

proof fn lemma_run_end_agrees(a: Seq<char>, s: Seq<char>, i: int, white: bool)
    requires
        0 <= i <= a.len() <= s.len(),
        a == s.take(a.len() as int),
        run_end(a, i, white) < a.len() || a.len() == s.len() || is_space(s[a.len() as int])
            != white,
    ensures
        run_end(s, i, white) == run_end(a, i, white),
    decreases a.len() - i,
{
    if i < a.len() {
        assert(a[i] == s[i]);
        if is_space(a[i]) == white {
            lemma_run_end_agrees(a, s, i + 1, white);
        }
    } else if a.len() < s.len() {
        assert(is_space(s[i]) != white);
    }
}

proof fn lemma_run_end_shift(s: Seq<char>, n: int, k: int, white: bool)
    requires
        0 <= n,
        0 <= k,
        n + k <= s.len(),
    ensures
        run_end(s, n + k, white) == n + run_end(s.skip(n), k, white),
    decreases s.len() - n - k,
{
    if n + k < s.len() {
        assert(s.skip(n)[k] == s[n + k]);
        if is_space(s[n + k]) == white {
            lemma_run_end_shift(s, n, k + 1, white);
        }
    }
}

/// The words behind a position are those of what stands there.
pub proof fn lemma_words_shift(s: Seq<char>, n: int, k: int)
    requires
        0 <= n,
        0 <= k,
        n + k <= s.len(),
    ensures
        words_from(s, n + k) == words_from(s.skip(n), k),
    decreases s.len() - n - k,
{
    let t = s.skip(n);
    lemma_run_end(s, n + k, true);
    lemma_run_end_shift(s, n, k, true);
    let start = run_end(s, n + k, true);
    if start < s.len() {
        lemma_run_end(s, start, false);
        lemma_run_end_shift(s, n, start - n, false);
        let end = run_end(s, start, false);
        assert(s.subrange(start, end) =~= t.subrange(start - n, end - n));
        lemma_words_shift(s, n, end - n);
    }
}

proof fn lemma_words_concat_from(a: Seq<char>, c: char, b: Seq<char>, i: int)
    requires
        is_space(c),
        0 <= i <= a.len(),
    ensures
        words_from(a.push(c) + b, i) == words_from(a, i) + words_of(b),
    decreases a.len() - i,
{
    let s = a.push(c) + b;
    let n = a.len() as int;
    assert(a =~= s.take(n));
    assert(s[n] == c);
    lemma_run_end(a, i, true);
    let start = run_end(a, i, true);
    if start == n {
        assert forall|k: int| i <= k < n + 1 implies is_space(#[trigger] s[k]) by {
            if k < n {
                assert(s[k] == a[k]);
            }
        }
        lemma_words_skip_space(s, i, n + 1);
        lemma_words_shift(s, n + 1, 0);
        assert(s.skip(n + 1) =~= b);
        assert(words_from(a, i) + words_of(b) =~= words_of(b));
    } else {
        lemma_run_end_agrees(a, s, i, true);
        lemma_run_end(a, start, false);
        lemma_run_end_agrees(a, s, start, false);
        let end = run_end(a, start, false);
        assert(s.subrange(start, end) =~= a.subrange(start, end));
        lemma_words_concat_from(a, c, b, end);
        assert(seq![a.subrange(start, end)] + (words_from(a, end) + words_of(b)) =~= words_from(
            a,
            i,
        ) + words_of(b));
    }
}

/// White space between two texts keeps their words apart.
pub proof fn lemma_words_concat(a: Seq<char>, c: char, b: Seq<char>)
    requires
        is_space(c),
    ensures
        words_of(a.push(c) + b) == words_of(a) + words_of(b),
{
    lemma_words_concat_from(a, c, b, 0);
}

/// A text without white space.
pub open spec fn solid(s: Seq<char>) -> bool {
    forall|k: int| 0 <= k < s.len() ==> !is_space(#[trigger] s[k])
}

/// A text without white space is one word.
pub proof fn lemma_words_one(w: Seq<char>)
    requires
        w.len() > 0,
        solid(w),
    ensures
        words_of(w) == seq![w],
{
    lemma_run_end(w, 0, true);
    assert(run_end(w, 0, true) == 0);
    lemma_run_end(w, 0, false);
    let end = run_end(w, 0, false);
    assert(end == w.len()) by {
        if end < w.len() {
            assert(!is_space(w[end]));
        }
    }
    assert(w.subrange(0, end) =~= w);
    assert(words_from(w, end).len() == 0);
    assert(words_of(w) =~= seq![w]);
}

/// Words are not empty and hold no white space.
pub proof fn lemma_words_solid(s: Seq<char>, i: int)
    requires
        0 <= i <= s.len(),
    ensures
        forall|k: int|
            0 <= k < words_from(s, i).len() ==> (#[trigger] words_from(s, i)[k]).len() > 0
                && solid(words_from(s, i)[k]),
    decreases s.len() - i,
{
    lemma_run_end(s, i, true);
    let start = run_end(s, i, true);
    if start < s.len() {
        lemma_run_end(s, start, false);
        let end = run_end(s, start, false);
        let word = s.subrange(start, end);
        lemma_words_solid(s, end);
        assert(solid(word)) by {
            assert forall|k: int| 0 <= k < word.len() implies !is_space(#[trigger] word[k]) by {
                assert(word[k] == s[start + k]);
            }
        }
        let all = words_from(s, i);
        assert forall|k: int| 0 <= k < all.len() implies (#[trigger] all[k]).len() > 0 && solid(
            all[k],
        ) by {
            if k > 0 {
                assert(all[k] == words_from(s, end)[k - 1]);
            }
        }
    }
}

/// White space at the ends does not matter to the words.
pub proof fn lemma_words_trim(s: Seq<char>)
    ensures
        words_of(trim_of(s)) == words_of(s),
{
    lemma_words_trim_start(s);
    lemma_words_trim_end(trim_start_of(s));
}

proof fn lemma_words_trim_start(s: Seq<char>)
    ensures
        words_of(trim_start_of(s)) == words_of(s),
    decreases s.len(),
{
    if s.len() > 0 && is_space(s[0]) {
        lemma_words_trim_start(s.skip(1));
        lemma_words_skip_space(s, 0, 1);
        lemma_words_shift(s, 1, 0);
    }
}

proof fn lemma_words_trim_end(s: Seq<char>)
    ensures
        words_of(trim_end_of(s)) == words_of(s),
    decreases s.len(),
{
    if s.len() > 0 && is_space(s.last()) {
        let d = s.drop_last();
        lemma_words_trim_end(d);
        lemma_words_concat(d, s.last(), Seq::empty());
        assert(d.push(s.last()) + Seq::<char>::empty() =~= s);
        assert(words_of(Seq::<char>::empty()).len() == 0);
        assert(words_of(d) + words_of(Seq::<char>::empty()) =~= words_of(d));
    }
}

// ---------------------------------------------------------------------------
// Letters
// ---------------------------------------------------------------------------

/// Is a character alphabetic or numeric, by the Unicode tables?
pub uninterp spec fn alphanumeric_of(c: char) -> bool;

/// `char::is_alphanumeric`: Unicode's alphabetic and numeric characters, which
/// in ASCII are the letters and the digits.
#[verifier::external_body]
pub(crate) fn alphanumeric(c: char) -> (out: bool)
    ensures
        out == alphanumeric_of(c),
        c as u32 <= 0x7f ==> out == ('0' <= c <= '9' || 'a' <= c <= 'z' || 'A' <= c <= 'Z'),
{
    c.is_alphanumeric()
}

/// The lower-case form of a text, by the Unicode tables.
pub uninterp spec fn lower_of(s: Seq<char>) -> Seq<char>;

/// The lower-case form of an ASCII letter; other characters stay.
pub open spec fn ascii_lower_of(c: char) -> char {
    if 'A' <= c <= 'Z' {
        (c as u32 + 32) as char
    } else {
        c
    }
}

/// `str::to_lowercase`: Unicode's lower-case form, which in ASCII changes the
/// letters one by one.
#[verifier::external_body]
pub(crate) fn lowercase(s: &str) -> (out: String)
    ensures
        out@ == lower_of(s@),
        (forall|i: int| 0 <= i < s@.len() ==> (#[trigger] s@[i]) as u32 <= 0x7f) ==> out@
            == s@.map_values(|c: char| ascii_lower_of(c)),
{
    s.to_lowercase()
}

/// The lower-case form of an ASCII letter; other characters stay.
pub fn ascii_lower(c: char) -> (out: char)
    ensures
        out == ascii_lower_of(c),
{
    if 'A' <= c && c <= 'Z' {
        (c as u8 + 32) as char
    } else {
        c
    }
}

/// Are two texts the same, apart from the case of ASCII letters?
pub open spec fn same_ignoring_case(a: Seq<char>, b: Seq<char>) -> bool {
    a.len() == b.len() && forall|i: int|
        0 <= i < a.len() ==> ascii_lower_of(#[trigger] a[i]) == ascii_lower_of(b[i])
}

/// Are two texts the same, apart from the case of ASCII letters?
pub fn equal_ignoring_case(a: &str, b: &str) -> (out: bool)
    ensures
        out == same_ignoring_case(a@, b@),
{
    let x = chars_of(a);
    let y = chars_of(b);
    if x.len() != y.len() {
        return false;
    }
    let mut i: usize = 0;
    while i < x.len()
        invariant
            x@ == a@,
            y@ == b@,
            x.len() == y.len(),
            i <= x.len(),
            forall|k: int| 0 <= k < i ==> ascii_lower_of(#[trigger] x@[k]) == ascii_lower_of(y@[k]),
        decreases x.len() - i,
    {
        if ascii_lower(x[i]) != ascii_lower(y[i]) {
            assert(ascii_lower_of(x@[i as int]) != ascii_lower_of(y@[i as int]));
            return false;
        }
        i += 1;
    }
    true
}

/// `s` without the characters `c` at its front.
pub open spec fn trim_front_of(s: Seq<char>, c: char) -> Seq<char>
    decreases s.len(),
{
    if s.len() > 0 && s[0] == c {
        trim_front_of(s.skip(1), c)
    } else {
        s
    }
}

/// Drops the characters `c` at the front.
pub fn trim_front(s: &[char], c: char) -> (out: &[char])
    ensures
        out@ == trim_front_of(s@, c),
        out@.len() <= s@.len(),
{
    let mut i: usize = 0;
    assert(s@.skip(0) == s@);
    while i < s.len() && s[i] == c
        invariant
            i <= s.len(),
            trim_front_of(s@, c) == trim_front_of(s@.skip(i as int), c),
        decreases s.len() - i,
    {
        assert(s@.skip(i as int).skip(1) == s@.skip(i + 1));
        i += 1;
    }
    assert(s@.subrange(i as int, s@.len() as int) == s@.skip(i as int));
    part(s, i, s.len())
}

/// Does `a` stand before `b` in the order of their characters, or equal it?
pub open spec fn text_le(a: Seq<char>, b: Seq<char>) -> bool
    decreases a.len(),
{
    if a.len() == 0 {
        true
    } else if b.len() == 0 {
        false
    } else if a[0] == b[0] {
        text_le(a.skip(1), b.skip(1))
    } else {
        a[0] < b[0]
    }
}

/// Does `a` stand before `b` in the order of their characters, or equal it?
pub fn no_later(a: &String, b: &String) -> (out: bool)
    ensures
        out == text_le(a@, b@),
{
    let x = chars_of(a.as_str());
    let y = chars_of(b.as_str());
    let mut i: usize = 0;
    assert(x@.skip(0) =~= x@ && y@.skip(0) =~= y@);
    while i < x.len() && i < y.len()
        invariant
            x@ == a@,
            y@ == b@,
            i <= x.len(),
            i <= y.len(),
            text_le(x@.skip(i as int), y@.skip(i as int)) == text_le(x@, y@),
        decreases x.len() - i,
    {
        assert(x@.skip(i as int).skip(1) =~= x@.skip(i + 1));
        assert(y@.skip(i as int).skip(1) =~= y@.skip(i + 1));
        if x[i] != y[i] {
            return x[i] < y[i];
        }
        i += 1;
    }
    i == x.len()
}

/// The order of texts: one that the other begins with comes first, and else the
/// first character in which they differ decides. Of two texts one comes first,
/// or they are equal.
pub proof fn law_text_order(a: Seq<char>, b: Seq<char>)
    ensures
        text_le(a, b) <==> exists|i: int| #[trigger] parts_at(a, b, i),
        text_le(a, b) || text_le(b, a),
        text_le(a, b) && text_le(b, a) ==> a == b,
        text_le(a, a),
    decreases a.len(),
{
    if a.len() == 0 {
        assert(a.take(0) =~= b.take(0));
        assert(parts_at(a, b, 0));
        if b.len() == 0 {
            assert(a =~= b);
        }
    } else if b.len() == 0 {
        assert forall|i: int| !#[trigger] parts_at(a, b, i) by {}
        law_text_order(a.skip(1), a.skip(1));
    } else {
        let x = a.skip(1);
        let y = b.skip(1);
        law_text_order(x, y);
        law_text_order(x, x);
        if a[0] == b[0] {
            if text_le(x, y) {
                let i = choose|i: int| #[trigger] parts_at(x, y, i);
                assert(a.take(i + 1) =~= seq![a[0]] + x.take(i));
                assert(b.take(i + 1) =~= seq![b[0]] + y.take(i));
                assert(parts_at(a, b, i + 1));
            }
            if exists|i: int| #[trigger] parts_at(a, b, i) {
                let i = choose|i: int| #[trigger] parts_at(a, b, i);
                assert(i > 0);
                assert(x.take(i - 1) =~= a.take(i).skip(1));
                assert(y.take(i - 1) =~= b.take(i).skip(1));
                assert(parts_at(x, y, i - 1));
            }
            if text_le(a, b) && text_le(b, a) {
                assert(a =~= seq![a[0]] + x);
                assert(b =~= seq![b[0]] + y);
            }
        } else {
            if a[0] < b[0] {
                assert(a.take(0) =~= b.take(0));
                assert(parts_at(a, b, 0));
            }
            assert forall|i: int| #[trigger] parts_at(a, b, i) implies a[0] < b[0] by {
                if i > 0 {
                    assert(a.take(i)[0] == b.take(i)[0]);
                }
            }
        }
    }
}

/// Are two texts equal up to a place, where the first ends or has the smaller
/// character?
pub open spec fn parts_at(a: Seq<char>, b: Seq<char>, i: int) -> bool {
    &&& 0 <= i <= a.len()
    &&& i <= b.len()
    &&& a.take(i) == b.take(i)
    &&& i == a.len() || (i < b.len() && a[i] < b[i])
}

pub proof fn lemma_text_le_transitive(a: Seq<char>, b: Seq<char>, c: Seq<char>)
    requires
        text_le(a, b),
        text_le(b, c),
    ensures
        text_le(a, c),
    decreases a.len(),
{
    if a.len() > 0 && b.len() > 0 && c.len() > 0 && a[0] == b[0] && b[0] == c[0] {
        lemma_text_le_transitive(a.skip(1), b.skip(1), c.skip(1));
    }
}

/// The texts in order.
pub open spec fn sorted_texts(parts: Seq<Seq<char>>) -> Seq<Seq<char>> {
    sorted(parts, |a: Seq<char>, b: Seq<char>| text_le(a, b))
}

/// Texts that were put in order are in order, and are the same texts.
pub proof fn law_sorted_texts(parts: Seq<Seq<char>>)
    ensures
        sorted_texts(parts).to_multiset() == parts.to_multiset(),
        sorted_texts(parts).len() == parts.len(),
        forall|i: int, j: int|
            0 <= i < j < sorted_texts(parts).len() ==> text_le(
                #[trigger] sorted_texts(parts)[i],
                #[trigger] sorted_texts(parts)[j],
            ),
{
    let le = |a: Seq<char>, b: Seq<char>| text_le(a, b);
    assert forall|a: Seq<char>, b: Seq<char>| #[trigger] le(a, b) || le(b, a) by {
        law_text_order(a, b);
    }
    assert forall|a: Seq<char>, b: Seq<char>, c: Seq<char>| #[trigger]
        le(a, b) && #[trigger] le(b, c) implies le(a, c) by {
        lemma_text_le_transitive(a, b, c);
    }
    crate::order::lemma_sorted_multiset(parts, le);
    crate::order::lemma_sorted_in_order(parts, le);
    let out = sorted_texts(parts);
    assert(out == sorted(parts, le));
    assert forall|i: int, j: int| 0 <= i < j < out.len() implies text_le(
        #[trigger] out[i],
        #[trigger] out[j],
    ) by {
        assert(le(out[i], out[j]));
    }
}

/// Puts strings in the order of their characters.
pub fn sort_texts(parts: Vec<String>) -> (out: Vec<String>)
    ensures
        views(out@) == sorted_texts(views(parts@)),
{
    let ghost unsorted = parts@;
    let ghost rel = |a: String, b: String| text_le(a@, b@);
    let out = stable_sort(parts, no_later, Ghost(rel));
    proof {
        let f = |s: String| s@;
        let named = |a: Seq<char>, b: Seq<char>| text_le(a, b);
        lemma_sorted_map(unsorted, f, rel, named);
        assert(unsorted.map_values(f) =~= views(unsorted));
        assert(out@.map_values(f) =~= views(out@));
    }
    out
}

/// Adds a string at the end.
pub fn push_text(out: &mut Vec<String>, s: String)
    ensures
        views(final(out)@) == views(old(out)@).push(s@),
{
    let ghost before = views(out@);
    out.push(s);
    assert(views(out@) =~= before.push(s@));
}

/// `s` without the characters `c` at its end.
pub open spec fn trim_back_of(s: Seq<char>, c: char) -> Seq<char>
    decreases s.len(),
{
    if s.len() > 0 && s.last() == c {
        trim_back_of(s.drop_last(), c)
    } else {
        s
    }
}

/// Drops the characters `c` at the end.
pub fn trim_back(s: &[char], c: char) -> (out: &[char])
    ensures
        out@ == trim_back_of(s@, c),
{
    let mut n: usize = s.len();
    assert(s@.take(s@.len() as int) == s@);
    while n > 0 && s[n - 1] == c
        invariant
            n <= s.len(),
            trim_back_of(s@, c) == trim_back_of(s@.take(n as int), c),
        decreases n,
    {
        assert(s@.take(n as int).drop_last() == s@.take(n - 1));
        n -= 1;
    }
    assert(s@.subrange(0, n as int) == s@.take(n as int));
    part(s, 0, n)
}

/// Does the character `c` stand in `s`?
pub open spec fn holds(s: Seq<char>, c: char) -> bool {
    exists|i: int| 0 <= i < s.len() && #[trigger] s[i] == c
}

/// Does the character `c` stand in `s`?
pub fn has_char(s: &[char], c: char) -> (out: bool)
    ensures
        out == holds(s@, c),
{
    let i: usize = position(s, c);
    proof {
        lemma_index_of(s@, c);
    }
    i < s.len()
}

/// Is a text among some strings?
pub open spec fn among(parts: Seq<Seq<char>>, s: Seq<char>) -> bool {
    exists|i: int| 0 <= i < parts.len() && #[trigger] parts[i] == s
}

/// Is a text among some strings?
pub fn is_among(parts: &[String], s: &str) -> (out: bool)
    ensures
        out == among(views(parts@), s@),
{
    let mut i: usize = 0;
    while i < parts.len()
        invariant
            i <= parts.len(),
            forall|k: int| 0 <= k < i ==> #[trigger] views(parts@)[k] != s@,
        decreases parts.len() - i,
    {
        if same_str(parts[i].as_str(), s) {
            assert(views(parts@)[i as int] == s@);
            return true;
        }
        i += 1;
    }
    false
}

// ---------------------------------------------------------------------------
// Bytes as text
// ---------------------------------------------------------------------------

/// A text that begins with anything but white space is not blank.
pub proof fn lemma_not_blank(s: Seq<char>)
    requires
        s.len() > 0,
        !is_space(s[0]),
    ensures
        trim_of(s).len() > 0,
    decreases s.len(),
{
    assert(trim_start_of(s) == s);
    lemma_end_not_blank(s);
}

proof fn lemma_end_not_blank(s: Seq<char>)
    requires
        s.len() > 0,
        !is_space(s[0]),
    ensures
        trim_end_of(s).len() > 0,
    decreases s.len(),
{
    if s.len() > 1 && is_space(s.last()) {
        lemma_end_not_blank(s.drop_last());
    }
}

/// The text that bytes which are not UTF-8 are read as.
pub uninterp spec fn lossy_of(bytes: Seq<u8>) -> Seq<char>;

/// The text that bytes are read as: what they encode, and where they are not
/// UTF-8 some text that stands for them.
pub open spec fn text_in(bytes: Seq<u8>) -> Seq<char> {
    if vstd::utf8::valid_utf8(bytes) {
        vstd::utf8::decode_utf8(bytes)
    } else {
        lossy_of(bytes)
    }
}

/// `String::from_utf8_lossy`: valid UTF-8 is decoded; in other bytes each
/// invalid piece, of one byte or more, gives one replacement character.
#[verifier::external_body]
pub(crate) fn text_from(bytes: &[u8]) -> (out: String)
    ensures
        out@ == if vstd::utf8::valid_utf8(bytes@) {
            vstd::utf8::decode_utf8(bytes@)
        } else {
            lossy_of(bytes@)
        },
        out@.len() <= bytes@.len(),
{
    String::from_utf8_lossy(bytes).into_owned()
}

/// Reading back the bytes of a text gives the text.
pub proof fn law_text_round_trip(text: Seq<char>)
    ensures
        text_in(vstd::utf8::encode_utf8(text)) == text,
{
    vstd::utf8::encode_utf8_valid_utf8(text);
    vstd::utf8::encode_utf8_decode_utf8(text);
}

/// A copy of some bytes.
pub fn copy_bytes(bytes: &[u8]) -> (out: Vec<u8>)
    ensures
        out@ == bytes@,
{
    let mut out: Vec<u8> = Vec::new();
    let mut i: usize = 0;
    while i < bytes.len()
        invariant
            i <= bytes@.len(),
            out@ == bytes@.take(i as int),
        decreases bytes@.len() - i,
    {
        out.push(bytes[i]);
        i += 1;
    }
    assert(bytes@.take(i as int) =~= bytes@);
    out
}

/// A copy of some strings.
pub fn copy_texts(parts: &[String]) -> (out: Vec<String>)
    ensures
        views(out@) == views(parts@),
{
    let mut out: Vec<String> = Vec::new();
    let mut i: usize = 0;
    while i < parts.len()
        invariant
            i <= parts@.len(),
            views(out@) == views(parts@).take(i as int),
        decreases parts@.len() - i,
    {
        push_text(&mut out, parts[i].clone());
        assert(views(parts@).take(i + 1) =~= views(parts@).take(i as int).push(
            views(parts@)[i as int],
        ));
        i += 1;
    }
    assert(views(parts@).take(i as int) =~= views(parts@));
    out
}

/// A text that may be missing, as a view.
pub open spec fn opt_view(s: Option<String>) -> Option<Seq<char>> {
    match s {
        Some(t) => Some(t@),
        None => None,
    }
}

/// A borrowed text that may be missing, as a view.
pub open spec fn opt_str_view(s: Option<&str>) -> Option<Seq<char>> {
    match s {
        Some(t) => Some(t@),
        None => None,
    }
}

/// An own copy of a text that may be missing.
pub fn own(s: Option<&str>) -> (out: Option<String>)
    ensures
        opt_view(out) == opt_str_view(s),
{
    match s {
        Some(t) => Some(t.to_owned()),
        None => None,
    }
}

/// A text that may be missing, borrowed.
pub fn lend(s: &Option<String>) -> (out: Option<&str>)
    ensures
        opt_str_view(out) == opt_view(*s),
{
    match s {
        Some(t) => Some(t.as_str()),
        None => None,
    }
}

/// A copy of a text that may be missing.
pub fn copy_opt(s: &Option<String>) -> (out: Option<String>)
    ensures
        opt_view(out) == opt_view(*s),
{
    match s {
        Some(t) => Some(t.clone()),
        None => None,
    }
}

} // verus!
