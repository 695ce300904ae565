//! Unified-diff parsing and application.
//!
//! A proposed edit is either whole `content` or a `patch`. A patch is applied
//! to the *base* the agent read, never blindly to whatever is on disk now:
//! that is what makes conflicts detectable at review time instead of silently
//! mis-applying.

use crate::diff::apply::extend_lines;
use crate::diff::hunks::{least, most};
use crate::error::{Error, ErrorModel, Result};
use crate::text::{
    chars_of, decimal, decimal_of, fitting, index_of, lines, number_of, parse_usize, part, position,
    same_str, starts_with, string_of, text_lines, trim, trim_of, views, words, words_of,
};
use crate::util::{
    document_of, dominant_newline, ends_in_newline, join_lines, lines_of, newline_of, split_lines,
    unix_newlines, unix_of,
};
use vstd::prelude::*;
use vstd::slice::slice_subrange;

verus! {

/// How far from its declared position a hunk may be found. Generous enough to
/// absorb an unrelated edit earlier in the file, tight enough that a hunk
/// never matches a coincidentally similar passage on the other side of a
/// long document.
pub const SEARCH_WINDOW: usize = 400;

#[derive(Debug)]
pub struct PatchHunk {
    /// 0-based line where the hunk claims to start in the old file.
    pub old_start: usize,
    /// Context + deleted lines: what must be present to apply.
    pub old_lines: Vec<String>,
    /// Context + inserted lines: what replaces them.
    pub new_lines: Vec<String>,
    /// The hunk ended with `\ No newline at end of file` after a line that is
    /// part of the new side. Every other line in a unified diff carries an
    /// implied newline, so this flag is the only way to produce a file that
    /// does not end with one.
    pub no_newline_new: bool,
}

/// What a patch hunk holds.
pub struct PatchHunkModel {
    pub old_start: int,
    pub old_lines: Seq<Seq<char>>,
    pub new_lines: Seq<Seq<char>>,
    pub no_newline_new: bool,
}

impl View for PatchHunk {
    type V = PatchHunkModel;

    open spec fn view(&self) -> PatchHunkModel {
        PatchHunkModel {
            old_start: self.old_start as int,
            old_lines: views(self.old_lines@),
            new_lines: views(self.new_lines@),
            no_newline_new: self.no_newline_new,
        }
    }
}

pub open spec fn patch_models(hunks: Seq<PatchHunk>) -> Seq<PatchHunkModel> {
    Seq::new(hunks.len(), |i: int| hunks[i]@)
}

// ---------------------------------------------------------------------------
// Parsing
// ---------------------------------------------------------------------------

/// `s` without the `@`s at its front.
pub open spec fn skip_ats(s: Seq<char>) -> Seq<char>
    decreases s.len(),
{
    if s.len() > 0 && s[0] == '@' {
        skip_ats(s.skip(1))
    } else {
        s
    }
}

/// The first word that begins with `sign`, from word `i` on.
pub open spec fn signed_word(words: Seq<Seq<char>>, sign: char, i: int) -> Option<Seq<char>>
    decreases words.len() - i,
{
    if i < 0 || i >= words.len() {
        None
    } else if words[i].len() > 0 && words[i][0] == sign {
        Some(words[i])
    } else {
        signed_word(words, sign, i + 1)
    }
}

/// The words of a header.
pub open spec fn header_words(raw: Seq<char>) -> Seq<Seq<char>> {
    words_of(trim_of(skip_ats(raw)))
}

/// The 0-based old line that a header names: `@@ -12,7 +12,9 @@ heading`.
pub open spec fn header_line(raw: Seq<char>) -> Option<int> {
    match signed_word(header_words(raw), '-', 0) {
        Some(word) => {
            let numeric = word.skip(1);
            match fitting(number_of(numeric.take(index_of(numeric, ',')))) {
                Some(n) => Some(most(n - 1, 0)),
                None => None,
            }
        },
        None => None,
    }
}

/// How many lines a header declares for a side: the number behind the comma of
/// that side's word; one where there is none.
pub open spec fn header_count(raw: Seq<char>, sign: char) -> int {
    match signed_word(header_words(raw), sign, 0) {
        Some(word) => {
            let numeric = word.skip(1);
            let comma = index_of(numeric, ',');
            if comma >= numeric.len() {
                1
            } else {
                match fitting(number_of(numeric.skip(comma + 1))) {
                    Some(n) => n as int,
                    None => 1,
                }
            }
        },
        None => 1,
    }
}

/// How far a patch has been read.
pub enum Scan {
    /// A header line that names no line number.
    Malformed(Seq<char>),
    /// The hunks that are complete, the one being read, how many old and new
    /// lines its header declares, and the sign of the line before.
    Reading {
        hunks: Seq<PatchHunkModel>,
        current: Option<PatchHunkModel>,
        due: (int, int),
        previous: Option<char>,
    },
}

/// The complete hunks, with the one being read.
pub open spec fn closed_hunks(
    hunks: Seq<PatchHunkModel>,
    current: Option<PatchHunkModel>,
) -> Seq<PatchHunkModel> {
    match current {
        Some(h) => hunks.push(h),
        None => hunks,
    }
}

/// Has a hunk the lines that its header declares?
pub open spec fn complete(h: PatchHunkModel, due: (int, int)) -> bool {
    h.old_lines.len() >= due.0 && h.new_lines.len() >= due.1
}

/// Do a line and the next one name the files of a diff?
pub open spec fn file_lines(raw: Seq<char>, next: Option<Seq<char>>) -> bool {
    "--- "@.is_prefix_of(raw) && match next {
        Some(line) => "+++ "@.is_prefix_of(line),
        None => false,
    }
}

/// A body line taken into the hunk being read.
pub open spec fn scan_body(
    hunks: Seq<PatchHunkModel>,
    h: PatchHunkModel,
    due: (int, int),
    previous: Option<char>,
    raw: Seq<char>,
) -> Scan {
    if "\\ No newline"@.is_prefix_of(raw) {
        Scan::Reading {
            hunks,
            current: Some(
                PatchHunkModel {
                    no_newline_new: h.no_newline_new || previous == Some('+') || previous == Some(
                        ' ',
                    ),
                    ..h
                },
            ),
            due,
            previous,
        }
    } else if raw.len() == 0 {
        // A context line whose trailing space was stripped in transit.
        Scan::Reading {
            hunks,
            current: Some(
                PatchHunkModel {
                    old_lines: h.old_lines.push(raw),
                    new_lines: h.new_lines.push(raw),
                    ..h
                },
            ),
            due,
            previous: Some(' '),
        }
    } else if raw[0] == ' ' {
        Scan::Reading {
            hunks,
            current: Some(
                PatchHunkModel {
                    old_lines: h.old_lines.push(raw.skip(1)),
                    new_lines: h.new_lines.push(raw.skip(1)),
                    ..h
                },
            ),
            due,
            previous: Some(' '),
        }
    } else if raw[0] == '-' {
        Scan::Reading {
            hunks,
            current: Some(PatchHunkModel { old_lines: h.old_lines.push(raw.skip(1)), ..h }),
            due,
            previous: Some('-'),
        }
    } else if raw[0] == '+' {
        Scan::Reading {
            hunks,
            current: Some(PatchHunkModel { new_lines: h.new_lines.push(raw.skip(1)), ..h }),
            due,
            previous: Some('+'),
        }
    } else if "diff "@.is_prefix_of(raw) {
        // A new file's header ends the hunk.
        Scan::Reading { hunks: hunks.push(h), current: None, due, previous: Some(raw[0]) }
    } else {
        Scan::Reading { hunks, current: Some(h), due, previous: Some(raw[0]) }
    }
}

/// One more line of a patch, and the line behind it.
pub open spec fn scan_line(state: Scan, raw: Seq<char>, next: Option<Seq<char>>) -> Scan {
    match state {
        Scan::Malformed(line) => Scan::Malformed(line),
        Scan::Reading { hunks, current, due, previous } => if "@@"@.is_prefix_of(raw) {
            match header_line(raw) {
                Some(old_start) => Scan::Reading {
                    hunks: closed_hunks(hunks, current),
                    current: Some(
                        PatchHunkModel {
                            old_start,
                            old_lines: Seq::empty(),
                            new_lines: Seq::empty(),
                            no_newline_new: false,
                        },
                    ),
                    due: (header_count(raw, '-'), header_count(raw, '+')),
                    previous: None,
                },
                None => Scan::Malformed(raw),
            }
        } else {
            match current {
                // The header of the next file ends a hunk that has all its
                // lines. Before that the same two lines are body: a line
                // `-- a` removed, and a line `++ b` added.
                Some(h) => if complete(h, due) && file_lines(raw, next) {
                    Scan::Reading { hunks: hunks.push(h), current: None, due, previous }
                } else {
                    scan_body(hunks, h, due, previous, raw)
                },
                // Everything before the first `@@` is header noise.
                None => state,
            }
        },
    }
}

/// Line `i`, if there is one.
pub open spec fn line_at(raws: Seq<Seq<char>>, i: int) -> Option<Seq<char>> {
    if 0 <= i < raws.len() {
        Some(raws[i])
    } else {
        None
    }
}

/// A patch read line by line, up to line `n`.
pub open spec fn scan(raws: Seq<Seq<char>>, n: int) -> Scan
    decreases n,
{
    if n <= 0 {
        Scan::Reading { hunks: Seq::empty(), current: None, due: (0, 0), previous: None }
    } else {
        scan_line(scan(raws, n - 1), raws[n - 1], line_at(raws, n))
    }
}

/// The lines of a patch.
pub open spec fn patch_lines(patch: Seq<char>) -> Seq<Seq<char>> {
    text_lines(unix_of(patch))
}

/// What a patch says: its hunks, or why it is refused.
pub open spec fn parsed(patch: Seq<char>) -> std::result::Result<Seq<PatchHunkModel>, ErrorModel> {
    match scan(patch_lines(patch), patch_lines(patch).len() as int) {
        Scan::Malformed(line) => Err(ErrorModel::Invalid("malformed hunk header: "@ + line)),
        Scan::Reading { hunks, current, .. } => if closed_hunks(hunks, current).len() == 0 {
            Err(ErrorModel::Invalid("patch contains no hunks"@))
        } else {
            Ok(closed_hunks(hunks, current))
        },
    }
}

/// The numbers of a word like `-12,7`: the one behind the sign, and the one
/// behind the comma, which is one where there is none.
fn parse_range(word: &str) -> (out: (Option<usize>, usize))
    requires
        word@.len() > 0,
    ensures
        out.0 == fitting(number_of(word@.skip(1).take(index_of(word@.skip(1), ',')))),
        out.1 == (if index_of(word@.skip(1), ',') >= word@.skip(1).len() {
            1int
        } else {
            match fitting(number_of(word@.skip(1).skip(index_of(word@.skip(1), ',') + 1))) {
                Some(n) => n as int,
                None => 1int,
            }
        }),
{
    let token = chars_of(word);
    let numeric = part(&token, 1, token.len());
    assert(numeric@ =~= word@.skip(1));
    let comma: usize = position(numeric, ',');
    let digits = part(numeric, 0, comma);
    assert(digits@ =~= numeric@.take(comma as int));
    let count: usize = if comma >= numeric.len() {
        1
    } else {
        let rest = part(numeric, comma + 1, numeric.len());
        assert(rest@ =~= numeric@.skip(comma + 1));
        match parse_usize(rest) {
            Some(n) => n,
            None => 1,
        }
    };
    (parse_usize(digits), count)
}

/// The first word that begins with `sign`.
fn find_signed(words: &Vec<String>, sign: char) -> (out: Option<usize>)
    ensures
        match out {
            Some(i) => i < words@.len() && words@[i as int]@.len() > 0 && signed_word(
                views(words@),
                sign,
                0,
            ) == Some(words@[i as int]@),
            None => signed_word(views(words@), sign, 0) is None,
        },
{
    let ghost all = views(words@);
    let mut i: usize = 0;
    while i < words.len()
        invariant
            all == views(words@),
            i <= words.len(),
            signed_word(all, sign, 0) == signed_word(all, sign, i as int),
        decreases words.len() - i,
    {
        let token = chars_of(words[i].as_str());
        assert(token@ == all[i as int]);
        if token.len() > 0 && token[0] == sign {
            return Some(i);
        }
        i += 1;
    }
    None
}

/// Reads a header: the old line it names, and how many old and new lines it
/// declares.
fn parse_hunk_header(line: &str) -> (out: Option<(usize, usize, usize)>)
    ensures
        match out {
            Some((n, old_due, new_due)) => header_line(line@) == Some(n as int) && n < usize::MAX
                && header_count(line@, '-') == old_due && header_count(line@, '+') == new_due,
            None => header_line(line@) is None,
        },
{
    let chars = chars_of(line);
    let mut rest: &[char] = &chars;
    while rest.len() > 0 && rest[0] == '@'
        invariant
            skip_ats(rest@) == skip_ats(line@),
        decreases rest.len(),
    {
        assert(rest@.subrange(1, rest@.len() as int) =~= rest@.skip(1));
        rest = part(rest, 1, rest.len());
    }
    let tokens = words(trim(rest));
    let new_due: usize = match find_signed(&tokens, '+') {
        Some(i) => parse_range(tokens[i].as_str()).1,
        None => 1,
    };
    match find_signed(&tokens, '-') {
        Some(i) => {
            let (start, old_due) = parse_range(tokens[i].as_str());
            match start {
                Some(n) => Some((n.saturating_sub(1), old_due, new_due)),
                None => None,
            }
        },
        None => None,
    }
}

fn push_line(lines: &mut Vec<String>, line: &str)
    ensures
        views(final(lines)@) == views(old(lines)@).push(line@),
{
    let ghost before = views(lines@);
    lines.push(line.to_owned());
    assert(views(lines@) =~= before.push(line@));
}

pub open spec fn current_model(h: Option<PatchHunk>) -> Option<PatchHunkModel> {
    match h {
        Some(h) => Some(h@),
        None => None,
    }
}

fn push_hunk(hunks: &mut Vec<PatchHunk>, h: PatchHunk)
    ensures
        patch_models(final(hunks)@) == patch_models(old(hunks)@).push(h@),
        final(hunks)@ == old(hunks)@.push(h),
{
    let ghost before = patch_models(hunks@);
    hunks.push(h);
    assert(patch_models(hunks@) =~= before.push(h@));
}

/// Do a line and the one at `next` name the files of a diff?
fn names_files(raw: &[char], raws: &Vec<String>, next: usize) -> (out: bool)
    ensures
        out == file_lines(raw@, line_at(views(raws@), next as int)),
{
    if !starts_with(raw, "--- ") || next >= raws.len() {
        return false;
    }
    starts_with(&chars_of(raws[next].as_str()), "+++ ")
}

/// Parses a unified diff. File headers are tolerated and ignored, in front of
/// the hunks and between them: a patch always targets one known path, which
/// the caller already supplied.
pub fn parse(patch: &str) -> (out: Result<Vec<PatchHunk>>)
    ensures
        match out {
            Ok(hunks) => parsed(patch@) == Ok::<Seq<PatchHunkModel>, ErrorModel>(
                patch_models(hunks@),
            ) && forall|i: int|
                0 <= i < hunks@.len() ==> (#[trigger] hunks@[i]).old_start < usize::MAX,
            Err(e) => parsed(patch@) == Err::<Seq<PatchHunkModel>, ErrorModel>(e@),
        },
{
    let mut hunks: Vec<PatchHunk> = Vec::new();
    let mut current: Option<PatchHunk> = None;
    let mut previous: Option<char> = None;
    let mut old_due: usize = 0;
    let mut new_due: usize = 0;
    let raws = lines(&unix_newlines(&chars_of(patch)));
    let ghost all = patch_lines(patch@);
    let mut i: usize = 0;
    assert(patch_models(hunks@) =~= Seq::<PatchHunkModel>::empty());
    while i < raws.len()
        invariant
            views(raws@) == all,
            all == patch_lines(patch@),
            i <= raws.len(),
            scan(all, i as int) == (Scan::Reading {
                hunks: patch_models(hunks@),
                current: current_model(current),
                due: (old_due as int, new_due as int),
                previous,
            }),
            forall|k: int| 0 <= k < hunks@.len() ==> (#[trigger] hunks@[k]).old_start < usize::MAX,
            current matches Some(h) ==> h.old_start < usize::MAX,
        decreases raws.len() - i,
    {
        let raw = chars_of(raws[i].as_str());
        assert(raw@ == all[i as int]);
        assert(scan(all, i + 1) == scan_line(scan(all, i as int), raw@, line_at(all, i + 1)));
        if starts_with(&raw, "@@") {
            match parse_hunk_header(raws[i].as_str()) {
                Some((old_start, old_count, new_count)) => {
                    if let Some(h) = current {
                        push_hunk(&mut hunks, h);
                    }
                    let fresh = PatchHunk {
                        old_start,
                        old_lines: Vec::new(),
                        new_lines: Vec::new(),
                        no_newline_new: false,
                    };
                    assert(fresh@.old_lines =~= Seq::<Seq<char>>::empty());
                    assert(fresh@.new_lines =~= Seq::<Seq<char>>::empty());
                    current = Some(fresh);
                    old_due = old_count;
                    new_due = new_count;
                    previous = None;
                },
                None => {
                    let mut message = "malformed hunk header: ".to_owned();
                    message.append(raws[i].as_str());
                    proof {
                        lemma_malformed_stays(all, i + 1, all.len() as int);
                    }
                    return Err(Error::Invalid(message));
                },
            }
        } else if let Some(h) = current {
            let mut h = h;
            if h.old_lines.len() >= old_due && h.new_lines.len() >= new_due && names_files(
                &raw,
                &raws,
                i + 1,
            ) {
                push_hunk(&mut hunks, h);
                current = None;
            } else if starts_with(&raw, "\\ No newline") {
                if let Some(c) = previous {
                    if c == '+' || c == ' ' {
                        h.no_newline_new = true;
                    }
                }
                current = Some(h);
            } else if raw.len() == 0 {
                push_line(&mut h.old_lines, "");
                push_line(&mut h.new_lines, "");
                proof {
                    reveal_strlit("");
                    assert(""@ =~= raw@);
                }
                current = Some(h);
                previous = Some(' ');
            } else {
                let sign: char = raw[0];
                let body = string_of(part(&raw, 1, raw.len()));
                assert(body@ =~= raw@.skip(1));
                previous = Some(sign);
                if sign == ' ' {
                    push_line(&mut h.old_lines, body.as_str());
                    push_line(&mut h.new_lines, body.as_str());
                    current = Some(h);
                } else if sign == '-' {
                    push_line(&mut h.old_lines, body.as_str());
                    current = Some(h);
                } else if sign == '+' {
                    push_line(&mut h.new_lines, body.as_str());
                    current = Some(h);
                } else if starts_with(&raw, "diff ") {
                    push_hunk(&mut hunks, h);
                    current = None;
                } else {
                    current = Some(h);
                }
            }
        }
        i += 1;
    }
    if let Some(h) = current {
        push_hunk(&mut hunks, h);
    }
    if hunks.len() == 0 {
        return Err(Error::invalid("patch contains no hunks"));
    }
    Ok(hunks)
}

/// A malformed header is not mended by what follows.
proof fn lemma_malformed_stays(raws: Seq<Seq<char>>, i: int, n: int)
    requires
        0 <= i <= n,
        scan(raws, i) is Malformed,
    ensures
        scan(raws, n) == scan(raws, i),
    decreases n,
{
    if i < n {
        lemma_malformed_stays(raws, i, n - 1);
    }
}

// ---------------------------------------------------------------------------
// Application
// ---------------------------------------------------------------------------

/// Do the lines `want` stand at `p`?
pub open spec fn stands_at(lines: Seq<Seq<char>>, want: Seq<Seq<char>>, p: int) -> bool {
    0 <= p && p + want.len() <= lines.len() && lines.subrange(p, p + want.len()) == want
}

/// The nearest place to `start` where `want` stands, `delta` lines away or
/// more, the one before it first.
pub open spec fn nearest(
    lines: Seq<Seq<char>>,
    want: Seq<Seq<char>>,
    start: int,
    min_pos: int,
    delta: int,
) -> Option<int>
    decreases SEARCH_WINDOW + 1 - delta,
{
    if delta > SEARCH_WINDOW {
        None
    } else if start - delta >= min_pos && stands_at(lines, want, start - delta) {
        Some(start - delta)
    } else if stands_at(lines, want, start + delta) {
        Some(start + delta)
    } else {
        nearest(lines, want, start, min_pos, delta + 1)
    }
}

/// Where a hunk applies: at the declared position if its lines stand there,
/// else at the nearest place within the window; never before `min_pos`.
pub open spec fn place_of(
    lines: Seq<Seq<char>>,
    want: Seq<Seq<char>>,
    hint: int,
    min_pos: int,
) -> Option<int> {
    if want.len() == 0 {
        Some(least(most(hint, min_pos), lines.len() as int))
    } else if want.len() > lines.len() {
        None
    } else {
        let start = least(most(hint, min_pos), lines.len() - want.len());
        if start >= min_pos && stands_at(lines, want, start) {
            Some(start)
        } else {
            nearest(lines, want, start, min_pos, 1)
        }
    }
}

/// How far a patch has been applied.
pub enum Patched {
    /// The lines so far, and the base line reached.
    At { out: Seq<Seq<char>>, cursor: int },
    /// The first hunk whose lines are not in the base.
    Lost(int),
}

pub open spec fn patched(hunks: Seq<PatchHunkModel>, lines: Seq<Seq<char>>) -> Patched
    decreases hunks.len(),
{
    if hunks.len() == 0 {
        Patched::At { out: Seq::empty(), cursor: 0 }
    } else {
        let h = hunks.last();
        match patched(hunks.drop_last(), lines) {
            Patched::Lost(k) => Patched::Lost(k),
            Patched::At { out, cursor } => match place_of(
                lines,
                h.old_lines,
                h.old_start,
                cursor,
            ) {
                Some(pos) => Patched::At {
                    out: out + lines.subrange(cursor, pos) + h.new_lines,
                    cursor: pos + h.old_lines.len(),
                },
                None => Patched::Lost(hunks.len() - 1),
            },
        }
    }
}

/// The message for a hunk that does not apply.
pub open spec fn lost_message(k: int, old_start: int) -> Seq<char> {
    "hunk "@ + decimal_of((k + 1) as nat)
        + " of the patch does not apply: the context around line "@ + decimal_of(
        (old_start + 1) as nat,
    ) + " is not in the base"@
}

/// The patched document, or why it cannot be had. Whoever supplied the last
/// line decides whether the file ends with a newline: the patch if it reached
/// the end, the base if its tail survived.
pub open spec fn patched_text(
    base: Seq<char>,
    hunks: Seq<PatchHunkModel>,
) -> std::result::Result<Seq<char>, ErrorModel> {
    let lines = lines_of(base);
    match patched(hunks, lines) {
        Patched::Lost(k) => Err(ErrorModel::Conflict(lost_message(k, hunks[k].old_start))),
        Patched::At { out, cursor } => {
            let all = out + lines.skip(cursor);
            let newline = if cursor >= lines.len() {
                !(hunks.len() > 0 && hunks.last().no_newline_new)
            } else {
                ends_in_newline(base)
            };
            Ok(document_of(all, newline && all.len() > 0, newline_of(base)))
        },
    }
}

fn lines_at(lines: &[String], want: &[String], p: usize) -> (out: bool)
    requires
        p + want@.len() <= lines@.len(),
    ensures
        out == stands_at(views(lines@), views(want@), p as int),
{
    let ghost here = views(lines@).subrange(p as int, p + want@.len());
    let n: usize = lines.len();
    let mut i: usize = 0;
    while i < want.len()
        invariant
            n == lines@.len(),
            p + want@.len() <= n,
            i <= want.len(),
            here == views(lines@).subrange(p as int, p + want@.len()),
            forall|k: int| 0 <= k < i ==> here[k] == #[trigger] views(want@)[k],
        decreases want.len() - i,
    {
        if !same_str(lines[p + i].as_str(), want[i].as_str()) {
            assert(here[i as int] != views(want@)[i as int]);
            return false;
        }
        assert(here[i as int] == views(want@)[i as int]);
        i += 1;
    }
    assert(here =~= views(want@));
    true
}

/// Finds where `want` sits in `lines`, preferring the declared position and
/// searching outward from it.
fn locate(lines: &[String], want: &[String], hint: usize, min_pos: usize) -> (out: Option<usize>)
    requires
        min_pos <= lines@.len(),
    ensures
        match out {
            Some(p) => place_of(views(lines@), views(want@), hint as int, min_pos as int) == Some(
                p as int,
            ) && min_pos <= p && p + want@.len() <= lines@.len(),
            None => place_of(views(lines@), views(want@), hint as int, min_pos as int) is None,
        },
{
    let ghost l = views(lines@);
    let ghost w = views(want@);
    let aim: usize = if hint >= min_pos {
        hint
    } else {
        min_pos
    };
    if want.len() == 0 {
        return Some(
            if aim <= lines.len() {
                aim
            } else {
                lines.len()
            },
        );
    }
    if want.len() > lines.len() {
        return None;
    }
    let last_valid: usize = lines.len() - want.len();
    let start: usize = if aim <= last_valid {
        aim
    } else {
        last_valid
    };
    if start >= min_pos && lines_at(lines, want, start) {
        return Some(start);
    }
    let mut delta: usize = 1;
    while delta <= SEARCH_WINDOW
        invariant
            l == views(lines@),
            w == views(want@),
            1 <= delta <= SEARCH_WINDOW + 1,
            want@.len() > 0,
            last_valid == lines@.len() - want@.len(),
            start <= last_valid,
            start < min_pos ==> start == last_valid,
            place_of(l, w, hint as int, min_pos as int) == nearest(
                l,
                w,
                start as int,
                min_pos as int,
                delta as int,
            ),
        decreases SEARCH_WINDOW + 1 - delta,
    {
        if start >= delta && start - delta >= min_pos {
            if lines_at(lines, want, start - delta) {
                return Some(start - delta);
            }
        }
        if delta <= last_valid - start {
            if lines_at(lines, want, start + delta) {
                return Some(start + delta);
            }
        }
        delta += 1;
    }
    None
}

/// Applies parsed hunks to `base`.
pub fn apply_hunks(base: &str, hunks: &[PatchHunk]) -> (out: Result<String>)
    requires
        forall|i: int| 0 <= i < hunks@.len() ==> (#[trigger] hunks@[i]).old_start < usize::MAX,
    ensures
        match out {
            Ok(text) => patched_text(base@, patch_models(hunks@)) == Ok::<Seq<char>, ErrorModel>(
                text@,
            ),
            Err(e) => patched_text(base@, patch_models(hunks@)) == Err::<Seq<char>, ErrorModel>(
                e@,
            ),
        },
{
    let (lines, trailing) = split_lines(base);
    let newline = dominant_newline(base);
    let ghost l = lines_of(base@);
    let ghost all = patch_models(hunks@);
    let n: usize = lines.len();
    let mut out: Vec<String> = Vec::new();
    let mut cursor: usize = 0;
    let mut i: usize = 0;
    assert(views(out@) =~= Seq::<Seq<char>>::empty());
    assert(all.take(0).len() == 0);
    while i < hunks.len()
        invariant
            n == lines@.len(),
            views(lines@) == l,
            l == lines_of(base@),
            all == patch_models(hunks@),
            i <= hunks.len(),
            cursor <= lines@.len(),
            patched(all.take(i as int), l) == (Patched::At {
                out: views(out@),
                cursor: cursor as int,
            }),
            forall|i: int| 0 <= i < hunks@.len() ==> (#[trigger] hunks@[i]).old_start < usize::MAX,
        decreases hunks.len() - i,
    {
        let hunk = &hunks[i];
        assert(hunks@[i as int].old_start < usize::MAX);
        assert(all[i as int] == hunk@);
        assert(all.take(i + 1).drop_last() =~= all.take(i as int));
        let ghost before = views(out@);
        match locate(&lines, &hunk.old_lines, hunk.old_start, cursor) {
            Some(pos) => {
                let between = slice_subrange(lines.as_slice(), cursor, pos);
                assert(views(between@) =~= l.subrange(cursor as int, pos as int));
                extend_lines(&mut out, between);
                extend_lines(&mut out, &hunk.new_lines);
                cursor = pos + hunk.old_lines.len();
            },
            None => {
                let mut message = "hunk ".to_owned();
                message.append(decimal(i as u64 + 1).as_str());
                message.append(" of the patch does not apply: the context around line ");
                message.append(decimal(hunk.old_start as u64 + 1).as_str());
                message.append(" is not in the base");
                proof {
                    lemma_lost_stays(all, l, i + 1);
                }
                return Err(Error::Conflict(message));
            },
        }
        i += 1;
    }
    assert(all.take(i as int) =~= all);
    let tail = slice_subrange(lines.as_slice(), cursor, n);
    assert(views(tail@) =~= l.skip(cursor as int));
    extend_lines(&mut out, tail);
    let final_newline = if cursor >= n {
        !(hunks.len() > 0 && hunks[hunks.len() - 1].no_newline_new)
    } else {
        trailing
    };
    Ok(join_lines(&out, final_newline && out.len() > 0, newline))
}

/// A hunk that does not apply is not mended by what follows.
proof fn lemma_lost_stays(hunks: Seq<PatchHunkModel>, lines: Seq<Seq<char>>, i: int)
    requires
        0 <= i <= hunks.len(),
        patched(hunks.take(i), lines) is Lost,
    ensures
        patched(hunks, lines) == patched(hunks.take(i), lines),
    decreases hunks.len(),
{
    if i == hunks.len() {
        assert(hunks.take(i) =~= hunks);
    } else {
        let d = hunks.drop_last();
        assert(d.take(i) =~= hunks.take(i));
        lemma_lost_stays(d, lines, i);
    }
}

/// What applying a patch comes to.
pub open spec fn patch_outcome(
    base: Seq<char>,
    patch: Seq<char>,
) -> std::result::Result<Seq<char>, ErrorModel> {
    match parsed(patch) {
        Ok(hunks) => patched_text(base, hunks),
        Err(e) => Err(e),
    }
}

/// Applies a patch to `base`.
pub fn apply(base: &str, patch: &str) -> (out: Result<String>)
    ensures
        match out {
            Ok(text) => patch_outcome(base@, patch@) == Ok::<Seq<char>, ErrorModel>(text@),
            Err(e) => patch_outcome(base@, patch@) == Err::<Seq<char>, ErrorModel>(e@),
        },
{
    match parse(patch) {
        Ok(hunks) => apply_hunks(base, &hunks),
        Err(e) => Err(e),
    }
}

proof fn lemma_nearest(
    lines: Seq<Seq<char>>,
    want: Seq<Seq<char>>,
    start: int,
    min_pos: int,
    delta: int,
)
    requires
        delta >= 1,
        want.len() <= lines.len(),
        start <= lines.len() - want.len(),
        start < min_pos ==> start == lines.len() - want.len(),
    ensures
        nearest(lines, want, start, min_pos, delta) matches Some(p) ==> min_pos <= p && stands_at(
            lines,
            want,
            p,
        ),
    decreases SEARCH_WINDOW + 1 - delta,
{
    if delta <= SEARCH_WINDOW {
        lemma_nearest(lines, want, start, min_pos, delta + 1);
    }
}

/// A hunk applies only where its old lines stand, and behind the hunk before.
pub proof fn law_place_matches(
    lines: Seq<Seq<char>>,
    want: Seq<Seq<char>>,
    hint: int,
    min_pos: int,
)
    requires
        0 <= min_pos <= lines.len(),
    ensures
        place_of(lines, want, hint, min_pos) matches Some(p) ==> min_pos <= p && stands_at(
            lines,
            want,
            p,
        ),
{
    if want.len() == 0 {
        let p = least(most(hint, min_pos), lines.len() as int);
        assert(lines.subrange(p, p) =~= want);
    } else if want.len() <= lines.len() {
        let start = least(most(hint, min_pos), lines.len() - want.len());
        lemma_nearest(lines, want, start, min_pos, 1);
    }
}

/// A patch that changes nothing leaves the lines as they are.
pub proof fn law_empty_patch(hunks: Seq<PatchHunkModel>, lines: Seq<Seq<char>>)
    requires
        forall|i: int|
            0 <= i < hunks.len() ==> (#[trigger] hunks[i]).old_lines == hunks[i].new_lines,
    ensures
        patched(hunks, lines) matches Patched::At { out, cursor } ==> 0 <= cursor <= lines.len()
            && out == lines.take(cursor),
    decreases hunks.len(),
{
    if hunks.len() == 0 {
        assert(lines.take(0) =~= Seq::<Seq<char>>::empty());
    } else {
        let d = hunks.drop_last();
        let h = hunks.last();
        assert forall|i: int| 0 <= i < d.len() implies (#[trigger] d[i]).old_lines
            == d[i].new_lines by {
            assert(d[i] == hunks[i]);
        }
        law_empty_patch(d, lines);
        if let Patched::At { out, cursor } = patched(d, lines) {
            law_place_matches(lines, h.old_lines, h.old_start, cursor);
            if let Some(pos) = place_of(lines, h.old_lines, h.old_start, cursor) {
                assert(hunks[hunks.len() - 1].old_lines == h.new_lines);
                assert(lines.take(cursor) + lines.subrange(cursor, pos) + lines.subrange(
                    pos,
                    pos + h.old_lines.len(),
                ) =~= lines.take(pos + h.old_lines.len()));
            }
        }
    }
}

/// How far two lines are apart.
pub open spec fn distance(a: int, b: int) -> int {
    if a <= b {
        b - a
    } else {
        a - b
    }
}

proof fn lemma_nearest_is_nearest(
    lines: Seq<Seq<char>>,
    want: Seq<Seq<char>>,
    start: int,
    min_pos: int,
    delta: int,
    q: int,
)
    requires
        delta >= 1,
        min_pos <= start,
        min_pos <= q,
        stands_at(lines, want, q),
        distance(q, start) >= delta,
    ensures
        match nearest(lines, want, start, min_pos, delta) {
            Some(p) => distance(p, start) <= distance(q, start),
            None => distance(q, start) > SEARCH_WINDOW,
        },
    decreases SEARCH_WINDOW + 1 - delta,
{
    if delta <= SEARCH_WINDOW {
        if !(start - delta >= min_pos && stands_at(lines, want, start - delta)) && !stands_at(
            lines,
            want,
            start + delta,
        ) {
            assert(distance(q, start) != delta);
            lemma_nearest_is_nearest(lines, want, start, min_pos, delta + 1, q);
        }
    }
}

/// A hunk that moved is put at the nearest place where its old lines stand: no
/// other place for them behind the hunk before is nearer to where it was
/// declared. It is given up only where they stand nowhere within the window.
pub proof fn law_place_is_nearest(
    lines: Seq<Seq<char>>,
    want: Seq<Seq<char>>,
    hint: int,
    min_pos: int,
    q: int,
)
    requires
        0 < want.len() <= lines.len(),
        0 <= min_pos <= hint <= lines.len() - want.len(),
        min_pos <= q,
        stands_at(lines, want, q),
    ensures
        match place_of(lines, want, hint, min_pos) {
            Some(p) => distance(p, hint) <= distance(q, hint),
            None => distance(q, hint) > SEARCH_WINDOW,
        },
{
    if !stands_at(lines, want, hint) {
        assert(q != hint);
        lemma_nearest_is_nearest(lines, want, hint, min_pos, 1, q);
    }
}

} // verus!
