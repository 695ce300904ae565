//! Task lists: checkboxes with two optional trailing tokens that are parsed
//! and preserved, `@owner` and `#tag`.
//!
//! ```markdown
//! - [ ] Ship Folio 1.0 @carlos #release
//! - [x] Write the spec @carlos
//! ```
//!
//! Task ids are line-anchored (`L42`) and valid only for the snapshot they
//! were read from. Writes carry the version they were read against, and a
//! stale write fails *with the current list attached*: agents mutate task
//! lists the way they should, read, then write.

use crate::artifact::finding::{
    finding_at, finding_models, plain_finding, push_finding, Finding, FindingModel, Severity,
};
use crate::corpus::typing::{after_bullet, has_bullet, is_task_line, task_line};
use crate::error::{Error, ErrorModel, Result};
use crate::fence::{fence_of, fence_view, is_fence, is_plain, step};
use crate::text::{
    alphanumeric, alphanumeric_of, byte_len, bytes_in, chars_of, contains, copy_opt, copy_texts,
    decimal, decimal_of, equal_ignoring_case, fitting, holds, is_space, join, join_of,
    lemma_byte_len_concat, lemma_byte_len_push, lemma_index_unique, lemma_words_concat,
    lemma_words_one, lemma_words_solid, lemma_words_trim, lines, lower_of, lowercase, number_of,
    occurs, opt_view, parse_usize, part, same_ignoring_case, solid, string_of, text_lines, trim,
    trim_end_of, trim_front, trim_front_of, trim_of, trim_start, trim_start_of, views, words,
    words_of,
};
use crate::util::{
    all_one_line, document_of, dominant_newline, ends_in_newline, join_lines, law_document_lines,
    lemma_last_line, lemma_same_lines, lines_of, newline_of, one_line, split_lines,
};
use vstd::prelude::*;

verus! {

/// One checkbox of a document.
#[derive(Debug)]
pub struct Task {
    /// Line-anchored id, e.g. `L42`.
    pub id: String,
    /// 1-based line number in the snapshot this was read from.
    pub line: usize,
    /// Text with the `@owner` and `#tag` tokens removed.
    pub text: String,
    /// The original line, verbatim.
    pub raw: String,
    pub done: bool,
    pub owner: Option<String>,
    pub tags: Vec<String>,
    /// Indent depth in spaces, so nested subtasks keep their shape.
    pub indent: usize,
    /// Document that the task lives in. Filled in by the aggregator.
    pub doc: Option<String>,
    pub display: Option<String>,
    /// The version these ids are anchored to.
    pub version: Option<String>,
}

/// What a task is.
pub struct TaskModel {
    pub id: Seq<char>,
    pub line: int,
    pub text: Seq<char>,
    pub raw: Seq<char>,
    pub done: bool,
    pub owner: Option<Seq<char>>,
    pub tags: Seq<Seq<char>>,
    pub indent: int,
    pub doc: Option<Seq<char>>,
    pub display: Option<Seq<char>>,
    pub version: Option<Seq<char>>,
}

impl View for Task {
    type V = TaskModel;

    open spec fn view(&self) -> TaskModel {
        TaskModel {
            id: self.id@,
            line: self.line as int,
            text: self.text@,
            raw: self.raw@,
            done: self.done,
            owner: opt_view(self.owner),
            tags: views(self.tags@),
            indent: self.indent as int,
            doc: opt_view(self.doc),
            display: opt_view(self.display),
            version: opt_view(self.version),
        }
    }
}

impl Task {
    pub fn copy(&self) -> (out: Task)
        ensures
            out@ == self@,
    {
        Task {
            id: self.id.clone(),
            line: self.line,
            text: self.text.clone(),
            raw: self.raw.clone(),
            done: self.done,
            owner: copy_opt(&self.owner),
            tags: copy_texts(&self.tags),
            indent: self.indent,
            doc: copy_opt(&self.doc),
            display: copy_opt(&self.display),
            version: copy_opt(&self.version),
        }
    }
}

pub open spec fn task_models(tasks: Seq<Task>) -> Seq<TaskModel> {
    Seq::new(tasks.len(), |i: int| tasks[i]@)
}

// ---------------------------------------------------------------------------
// Ids
// ---------------------------------------------------------------------------

/// The id of the task on a line.
pub open spec fn id_of_line(line: nat) -> Seq<char> {
    "L"@ + decimal_of(line)
}

/// `s` without the letters `L` and `l` at its front.
pub open spec fn skip_ls(s: Seq<char>) -> Seq<char>
    decreases s.len(),
{
    if s.len() > 0 && (s[0] == 'L' || s[0] == 'l') {
        skip_ls(s.skip(1))
    } else {
        s
    }
}

/// The line that an id names.
pub open spec fn line_named(id: Seq<char>) -> Option<usize> {
    match fitting(number_of(skip_ls(trim_of(id)))) {
        Some(n) => if n > 0 {
            Some(n)
        } else {
            None
        },
        None => None,
    }
}

/// The complaint about an id that names no line.
pub open spec fn bad_id(id: Seq<char>) -> ErrorModel {
    ErrorModel::Invalid("`"@ + id + "` is not a task id; expected `L42`"@)
}

pub fn id_for_line(line: usize) -> (out: String)
    ensures
        out@ == id_of_line(line as nat),
{
    let mut out = "L".to_owned();
    out.append(decimal(line as u64).as_str());
    out
}

pub fn line_of_id(id: &str) -> (out: Result<usize>)
    ensures
        match out {
            Ok(n) => line_named(id@) == Some(n) && n > 0,
            Err(e) => line_named(id@) is None && e@ == bad_id(id@),
        },
{
    let chars = chars_of(id);
    let mut rest: &[char] = trim(&chars);
    while rest.len() > 0 && (rest[0] == 'L' || rest[0] == 'l')
        invariant
            skip_ls(rest@) == skip_ls(trim_of(id@)),
        decreases rest.len(),
    {
        assert(rest@.subrange(1, rest@.len() as int) =~= rest@.skip(1));
        rest = part(rest, 1, rest.len());
    }
    if let Some(n) = parse_usize(rest) {
        if n > 0 {
            return Ok(n);
        }
    }
    let mut message = "`".to_owned();
    message.append(id);
    message.append("` is not a task id; expected `L42`");
    Err(Error::Invalid(message))
}

/// The id of a line names that line.
pub proof fn law_id_round_trip(line: usize)
    requires
        line > 0,
    ensures
        line_named(id_of_line(line as nat)) == Some(line),
{
    reveal_strlit("L");
    crate::text::lemma_decimal_value(line as nat);
    let d = decimal_of(line as nat);
    let id = id_of_line(line as nat);
    assert(id[0] == 'L');
    assert(d[d.len() - 1] == id[id.len() - 1]);
    assert(crate::text::is_digit(d[d.len() - 1]));
    assert(crate::text::is_digit(d[0]));
    assert(trim_start_of(id) == id);
    assert(trim_of(id) == id);
    assert(id.skip(1) =~= d);
    assert(skip_ls(d) == d);
    assert(skip_ls(id) == d);
}

// ---------------------------------------------------------------------------
// Parsing
// ---------------------------------------------------------------------------

/// ASCII punctuation, apart from the underscore and the hyphen.
pub open spec fn is_stop(c: char) -> bool {
    ('!' <= c <= '/' || ':' <= c <= '@' || '[' <= c <= '`' || '{' <= c <= '~') && c != '_' && c
        != '-'
}

/// `s` without the punctuation at its end.
pub open spec fn clean_of(s: Seq<char>) -> Seq<char>
    decreases s.len(),
{
    if s.len() > 0 && is_stop(s.last()) {
        clean_of(s.drop_last())
    } else {
        s
    }
}

/// A task's text taken apart: the other words, the owner, the tags.
pub struct Tokens {
    pub words: Seq<Seq<char>>,
    pub owner: Option<Seq<char>>,
    pub tags: Seq<Seq<char>>,
}

/// One more word of a task's text.
pub open spec fn token_added(t: Tokens, word: Seq<char>) -> Tokens {
    let clean = clean_of(word.skip(1));
    if word.len() > 0 && word[0] == '@' && clean.len() > 0 && t.owner is None {
        Tokens { owner: Some(clean), ..t }
    } else if word.len() > 0 && word[0] == '#' && clean.len() > 0 {
        Tokens { tags: t.tags.push(clean), ..t }
    } else {
        Tokens { words: t.words.push(word), ..t }
    }
}

/// The tokens of some words. The grammar stays at exactly these two: the first
/// `@owner`, and every `#tag`.
pub open spec fn tokens_of(words: Seq<Seq<char>>) -> Tokens
    decreases words.len(),
{
    if words.len() == 0 {
        Tokens { words: Seq::empty(), owner: None, tags: Seq::empty() }
    } else {
        token_added(tokens_of(words.drop_last()), words.last())
    }
}

/// What stands behind the checkbox.
pub open spec fn task_body(line: Seq<char>) -> Seq<char> {
    trim_of(after_bullet(line).skip(3))
}

/// Is the box of a task ticked?
pub open spec fn ticked(line: Seq<char>) -> bool {
    after_bullet(line)[1] == 'x' || after_bullet(line)[1] == 'X'
}

/// How many bytes of white space a line begins with.
pub open spec fn indent_of(line: Seq<char>) -> int {
    byte_len(line) - byte_len(trim_start_of(line))
}

/// The task on a line.
pub open spec fn task_of(line: Seq<char>, line_no: int) -> TaskModel {
    let tokens = tokens_of(words_of(task_body(line)));
    TaskModel {
        id: id_of_line(line_no as nat),
        line: line_no,
        text: join_of(tokens.words, " "@),
        raw: line,
        done: ticked(line),
        owner: tokens.owner,
        tags: tokens.tags,
        indent: indent_of(line),
        doc: None,
        display: None,
        version: None,
    }
}

/// The tasks of some lines. Lines inside code fences are not tasks.
pub open spec fn tasks_in(lines: Seq<Seq<char>>) -> Seq<TaskModel>
    decreases lines.len(),
{
    if lines.len() == 0 {
        Seq::empty()
    } else if is_plain(lines, lines.len() - 1) && task_line(lines.last()) {
        tasks_in(lines.drop_last()).push(task_of(lines.last(), lines.len() as int))
    } else {
        tasks_in(lines.drop_last())
    }
}

/// The tasks of a document.
pub open spec fn tasks_of(content: Seq<char>) -> Seq<TaskModel> {
    tasks_in(text_lines(content))
}

fn stop(c: char) -> (out: bool)
    ensures
        out == is_stop(c),
{
    (('!' <= c && c <= '/') || (':' <= c && c <= '@') || ('[' <= c && c <= '`') || ('{' <= c && c
        <= '~')) && c != '_' && c != '-'
}

fn clean(s: &[char]) -> (out: &[char])
    ensures
        out@ == clean_of(s@),
{
    let mut n: usize = s.len();
    assert(s@.take(s@.len() as int) == s@);
    while n > 0 && stop(s[n - 1])
        invariant
            n <= s.len(),
            clean_of(s@) == clean_of(s@.take(n as int)),
        decreases n,
    {
        assert(s@.take(n as int).drop_last() == s@.take(n - 1));
        n -= 1;
    }
    assert(s@.subrange(0, n as int) == s@.take(n as int));
    part(s, 0, n)
}

/// Pulls `@owner` and `#tag` out of the task text.
fn split_tokens(body: &[char]) -> (out: (String, Option<String>, Vec<String>))
    ensures
        out.0@ == join_of(tokens_of(words_of(body@)).words, " "@),
        opt_view(out.1) == tokens_of(words_of(body@)).owner,
        views(out.2@) == tokens_of(words_of(body@)).tags,
{
    let all = words(body);
    let ghost ws = words_of(body@);
    let mut owner: Option<String> = None;
    let mut tags: Vec<String> = Vec::new();
    let mut kept: Vec<String> = Vec::new();
    let mut i: usize = 0;
    assert(views(tags@) =~= Seq::<Seq<char>>::empty());
    assert(views(kept@) =~= Seq::<Seq<char>>::empty());
    assert(ws.take(0).len() == 0);
    while i < all.len()
        invariant
            views(all@) == ws,
            i <= all.len(),
            tokens_of(ws.take(i as int)) == (Tokens {
                words: views(kept@),
                owner: opt_view(owner),
                tags: views(tags@),
            }),
        decreases all.len() - i,
    {
        assert(ws.take(i + 1).drop_last() =~= ws.take(i as int));
        let word = chars_of(all[i].as_str());
        assert(ws.take(i + 1).last() == word@);
        let ghost k = views(kept@);
        let ghost t = views(tags@);
        let mut used = false;
        if word.len() > 0 {
            let name = part(&word, 1, word.len());
            assert(name@ =~= word@.skip(1));
            let trimmed = clean(name);
            if word[0] == '@' && trimmed.len() > 0 && owner.is_none() {
                owner = Some(string_of(trimmed));
                used = true;
            } else if word[0] == '#' && trimmed.len() > 0 {
                tags.push(string_of(trimmed));
                assert(views(tags@) =~= t.push(trimmed@));
                used = true;
            }
        }
        if !used {
            kept.push(all[i].clone());
            assert(views(kept@) =~= k.push(word@));
        }
        i += 1;
    }
    assert(ws.take(i as int) =~= ws);
    (join(&kept, " "), owner, tags)
}

/// Reads one task line.
pub fn parse_line(line: &str, line_no: usize) -> (out: Task)
    requires
        task_line(line@),
    ensures
        out@ == task_of(line@, line_no as int),
{
    proof {
        reveal_strlit("- ");
        reveal_strlit("* ");
        reveal_strlit("+ ");
    }
    let chars = chars_of(line);
    let trimmed = trim_start(&chars);
    let trimmed_bytes: usize = bytes_in(string_of(trimmed).as_str());
    let all_bytes: usize = bytes_in(line);
    proof {
        let n = line@.len() - trimmed@.len();
        assert(line@ =~= line@.take(n) + line@.skip(n));
        lemma_byte_len_concat(line@.take(n), line@.skip(n));
    }
    let behind = part(trimmed, 2, trimmed.len());
    assert(behind@ =~= trimmed@.skip(2));
    let rest = trim_start(behind);
    let done = rest[1] == 'x' || rest[1] == 'X';
    let body = part(rest, 3, rest.len());
    assert(body@ =~= rest@.skip(3));
    let (text, owner, tags) = split_tokens(trim(body));
    Task {
        id: id_for_line(line_no),
        line: line_no,
        text,
        raw: line.to_owned(),
        done,
        owner,
        tags,
        indent: all_bytes - trimmed_bytes,
        doc: None,
        display: None,
        version: None,
    }
}

/// Parses every task in a document.
pub fn parse(content: &str) -> (out: Vec<Task>)
    ensures
        task_models(out@) == tasks_of(content@),
{
    let all = lines(&chars_of(content));
    let ghost ls = text_lines(content@);
    let mut out: Vec<Task> = Vec::new();
    let mut fence: Option<String> = None;
    let mut i: usize = 0;
    assert(task_models(out@) =~= tasks_in(ls.take(0)));
    while i < all.len()
        invariant
            views(all@) == ls,
            i <= all.len(),
            fence_view(fence) == fence_of(ls.take(i as int)),
            task_models(out@) == tasks_in(ls.take(i as int)),
        decreases all.len() - i,
    {
        assert(ls.take(i + 1).drop_last() =~= ls.take(i as int));
        assert(ls.take(i + 1).take(i as int) =~= ls.take(i as int));
        let outside = fence.is_none();
        let (next, is_fence_line) = step(fence, all[i].as_str());
        if outside && !is_fence_line && is_task_line(all[i].as_str()) {
            let ghost before = task_models(out@);
            let task = parse_line(all[i].as_str(), i + 1);
            let ghost t = task@;
            out.push(task);
            assert(task_models(out@) =~= before.push(t));
        }
        fence = next;
        i += 1;
    }
    assert(ls.take(i as int) =~= ls);
    out
}

// ---------------------------------------------------------------------------
// Writing
// ---------------------------------------------------------------------------

/// `n` spaces.
pub open spec fn spaces(n: nat) -> Seq<char> {
    Seq::new(n, |i: int| ' ')
}

/// The owner of a line, where there is one.
pub open spec fn owner_part(owner: Option<Seq<char>>) -> Seq<char> {
    match owner {
        Some(o) => if trim_of(o).len() > 0 {
            " @"@ + trim_front_of(trim_of(o), '@')
        } else {
            Seq::empty()
        },
        None => Seq::empty(),
    }
}

/// The tags of a line.
pub open spec fn tags_part(tags: Seq<Seq<char>>) -> Seq<char>
    decreases tags.len(),
{
    if tags.len() == 0 {
        Seq::empty()
    } else if trim_of(tags.last()).len() > 0 {
        tags_part(tags.drop_last()) + (" #"@ + trim_front_of(trim_of(tags.last()), '#'))
    } else {
        tags_part(tags.drop_last())
    }
}

/// A task line from its parts.
pub open spec fn line_of_task(
    text: Seq<char>,
    done: bool,
    owner: Option<Seq<char>>,
    tags: Seq<Seq<char>>,
    indent: nat,
) -> Seq<char> {
    spaces(indent) + "- ["@ + (if done {
        "x"@
    } else {
        " "@
    }) + "] "@ + trim_of(text) + owner_part(owner) + tags_part(tags)
}

pub open spec fn opt_str(s: Option<&str>) -> Option<Seq<char>> {
    match s {
        Some(s) => Some(s@),
        None => None,
    }
}

/// Renders a task line from its parts, in the canonical order the parser reads.
pub fn format_line(
    text: &str,
    done: bool,
    owner: Option<&str>,
    tags: &[String],
    indent: usize,
) -> (out: String)
    ensures
        out@ == line_of_task(text@, done, opt_str(owner), views(tags@), indent as nat),
{
    let mut line = String::new();
    let mut n: usize = 0;
    assert(line@ =~= spaces(0));
    while n < indent
        invariant
            n <= indent,
            line@ == spaces(n as nat),
        decreases indent - n,
    {
        line.push(' ');
        assert(line@ =~= spaces((n + 1) as nat));
        n += 1;
    }
    line.append("- [");
    line.append(
        if done {
            "x"
        } else {
            " "
        },
    );
    line.append("] ");
    line.append(string_of(trim(&chars_of(text))).as_str());
    let ghost head = line@;
    if let Some(o) = owner {
        let chars = chars_of(o);
        let trimmed = trim(&chars);
        if trimmed.len() > 0 {
            line.append(" @");
            line.append(string_of(trim_front(trimmed, '@')).as_str());
        }
    }
    assert(line@ =~= head + owner_part(opt_str(owner)));
    let ghost front = line@;
    let ghost ts = views(tags@);
    let mut i: usize = 0;
    assert(line@ =~= front + tags_part(ts.take(0)));
    while i < tags.len()
        invariant
            ts == views(tags@),
            i <= tags.len(),
            line@ == front + tags_part(ts.take(i as int)),
        decreases tags.len() - i,
    {
        assert(ts.take(i + 1).drop_last() =~= ts.take(i as int));
        let chars = chars_of(tags[i].as_str());
        let trimmed = trim(&chars);
        if trimmed.len() > 0 {
            line.append(" #");
            line.append(string_of(trim_front(trimmed, '#')).as_str());
        }
        assert(line@ =~= front + tags_part(ts.take(i + 1)));
        i += 1;
    }
    assert(ts.take(i as int) =~= ts);
    line
}

/// Where the tick of a task stands in its line.
pub open spec fn box_at(line: Seq<char>) -> int {
    line.len() - after_bullet(line).len() + 1
}

/// A task line with its box set, and nothing else changed.
pub open spec fn boxed(line: Seq<char>, done: bool) -> Seq<char> {
    line.update(
        box_at(line),
        if done {
            'x'
        } else {
            ' '
        },
    )
}

/// Is line `i`, from 0, a task? Lines inside code fences are not.
pub open spec fn listed(lines: Seq<Seq<char>>, i: int) -> bool {
    0 <= i < lines.len() && is_plain(lines, i) && task_line(lines[i])
}

/// What setting a task's status comes to: the new document, or why not.
pub open spec fn status_set(
    content: Seq<char>,
    task_id: Seq<char>,
    done: bool,
) -> std::result::Result<Seq<char>, ErrorModel> {
    match line_named(task_id) {
        None => Err(bad_id(task_id)),
        Some(n) => {
            let lines = lines_of(content);
            if n > lines.len() {
                Err(
                    ErrorModel::NotFound(
                        task_id + " is past the end of the document ("@ + decimal_of(lines.len())
                            + " lines)"@,
                    ),
                )
            } else if !listed(lines, n - 1) {
                Err(
                    ErrorModel::NotFound(
                        "line "@ + decimal_of(n as nat) + " is no longer a task"@,
                    ),
                )
            } else if ticked(lines[n - 1]) == done {
                Ok(content)
            } else {
                Ok(
                    document_of(
                        lines.update(n - 1, boxed(lines[n - 1], done)),
                        ends_in_newline(content),
                        newline_of(content),
                    ),
                )
            }
        },
    }
}

/// Is a line a task?
fn is_listed(lines: &[String], at: usize) -> (out: bool)
    requires
        at < lines@.len(),
    ensures
        out == listed(views(lines@), at as int),
{
    let ghost ls = views(lines@);
    let mut fence: Option<String> = None;
    let mut i: usize = 0;
    assert(ls.take(0).len() == 0);
    while i < at
        invariant
            ls == views(lines@),
            i <= at < lines@.len(),
            fence_view(fence) == fence_of(ls.take(i as int)),
        decreases at - i,
    {
        assert(ls.take(i + 1).drop_last() =~= ls.take(i as int));
        let (next, _) = step(fence, lines[i].as_str());
        fence = next;
        i += 1;
    }
    let outside = fence.is_none();
    let (_, is_fence_line) = step(fence, lines[at].as_str());
    outside && !is_fence_line && is_task_line(lines[at].as_str())
}

/// Sets the box of a task line. Returns the line, or nothing where the box is
/// set that way already.
fn set_box(line: &str, done: bool) -> (out: Option<String>)
    requires
        task_line(line@),
    ensures
        match out {
            Some(l) => ticked(line@) != done && l@ == boxed(line@, done),
            None => ticked(line@) == done,
        },
{
    proof {
        reveal_strlit("- ");
        reveal_strlit("* ");
        reveal_strlit("+ ");
    }
    let mut chars = chars_of(line);
    let trimmed = trim_start(&chars);
    let behind = part(trimmed, 2, trimmed.len());
    assert(behind@ =~= trimmed@.skip(2));
    let rest = trim_start(behind);
    proof {
        lemma_trim_start_len(line@);
        lemma_trim_start_len(behind@);
    }
    if (rest[1] == 'x' || rest[1] == 'X') == done {
        return None;
    }
    let at: usize = chars.len() - rest.len() + 1;
    chars.set(
        at,
        if done {
            'x'
        } else {
            ' '
        },
    );
    Some(string_of(&chars))
}

/// Flips a checkbox, and changes nothing else. Returns the new document text.
///
/// Fails if the line is no longer a task: that is the staleness signal the
/// caller turns into an error carrying the current list.
pub fn set_status(content: &str, task_id: &str, done: bool) -> (out: Result<String>)
    ensures
        match out {
            Ok(text) => status_set(content@, task_id@, done) == Ok::<Seq<char>, ErrorModel>(text@),
            Err(e) => status_set(content@, task_id@, done) == Err::<Seq<char>, ErrorModel>(e@),
        },
{
    let line_no: usize = match line_of_id(task_id) {
        Ok(n) => n,
        Err(e) => {
            return Err(e);
        },
    };
    let (split, trailing) = split_lines(content);
    let mut lines = split;
    let newline = dominant_newline(content);
    let ghost ls = lines_of(content@);
    assert(lines@.len() == views(lines@).len());
    if line_no > lines.len() {
        let mut message = task_id.to_owned();
        message.append(" is past the end of the document (");
        message.append(decimal(lines.len() as u64).as_str());
        message.append(" lines)");
        return Err(Error::NotFound(message));
    }
    assert(lines@[line_no - 1]@ == ls[line_no - 1]);
    if !is_listed(&lines, line_no - 1) {
        let mut message = "line ".to_owned();
        message.append(decimal(line_no as u64).as_str());
        message.append(" is no longer a task");
        return Err(Error::NotFound(message));
    }
    match set_box(lines[line_no - 1].as_str(), done) {
        None => Ok(content.to_owned()),
        Some(line) => {
            let ghost l = line@;
            lines.set(line_no - 1, line);
            assert(views(lines@) =~= ls.update(line_no - 1, l));
            Ok(join_lines(&lines, trailing, newline))
        },
    }
}

/// The number of the last task among some lines, from 0.
pub open spec fn last_task(lines: Seq<Seq<char>>) -> Option<int>
    decreases lines.len(),
{
    if lines.len() == 0 {
        None
    } else if is_plain(lines, lines.len() - 1) && task_line(lines.last()) {
        Some(lines.len() - 1)
    } else {
        last_task(lines.drop_last())
    }
}

/// Where a new task goes: behind the last one, else behind everything.
pub open spec fn with_task(lines: Seq<Seq<char>>, line: Seq<char>) -> (Seq<Seq<char>>, int) {
    match last_task(lines) {
        Some(last) => (lines.insert(last + 1, line), last + 1),
        None => {
            // A blank line stays between prose and the new list.
            let padded = if lines.len() > 0 && trim_of(lines.last()).len() > 0 {
                lines.push(Seq::empty())
            } else {
                lines
            };
            (padded.push(line), padded.len() as int)
        },
    }
}

/// What adding a task comes to: the new document and the task's line number.
pub open spec fn task_added(
    content: Seq<char>,
    text: Seq<char>,
    owner: Option<Seq<char>>,
    tags: Seq<Seq<char>>,
) -> std::result::Result<(Seq<char>, int), ErrorModel> {
    if trim_of(text).len() == 0 {
        Err(ErrorModel::Invalid("task text is empty"@))
    } else {
        let (lines, at) = with_task(
            lines_of(content),
            line_of_task(text, false, owner, tags, 0),
        );
        Ok(
            (
                document_of(
                    lines,
                    ends_in_newline(content) || content.len() > 0,
                    newline_of(content),
                ),
                at + 1,
            ),
        )
    }
}

fn last_task_line(all: &[String]) -> (out: Option<usize>)
    ensures
        match out {
            Some(i) => last_task(views(all@)) == Some(i as int) && i < all@.len(),
            None => last_task(views(all@)) is None,
        },
{
    let ghost ls = views(all@);
    let mut fence: Option<String> = None;
    let mut last: Option<usize> = None;
    let mut i: usize = 0;
    while i < all.len()
        invariant
            ls == views(all@),
            i <= all.len(),
            fence_view(fence) == fence_of(ls.take(i as int)),
            match last {
                Some(k) => last_task(ls.take(i as int)) == Some(k as int) && k < i,
                None => last_task(ls.take(i as int)) is None,
            },
        decreases all.len() - i,
    {
        assert(ls.take(i + 1).drop_last() =~= ls.take(i as int));
        assert(ls.take(i + 1).take(i as int) =~= ls.take(i as int));
        let outside = fence.is_none();
        let (next, is_fence_line) = step(fence, all[i].as_str());
        if outside && !is_fence_line && is_task_line(all[i].as_str()) {
            last = Some(i);
        }
        fence = next;
        i += 1;
    }
    assert(ls.take(i as int) =~= ls);
    last
}

/// Appends a task. New items join the end of the last existing task block so an
/// agent's overnight additions land where a human would put them, rather than
/// at the bottom of the file under an unrelated heading.
pub fn add(content: &str, text: &str, owner: Option<&str>, tags: &[String]) -> (out: Result<
    (String, usize),
>)
    requires
        lines_of(content@).len() + 2 < usize::MAX,
    ensures
        match out {
            Ok((doc, line)) => task_added(content@, text@, opt_str(owner), views(tags@)) == Ok::<
                (Seq<char>, int),
                ErrorModel,
            >((doc@, line as int)),
            Err(e) => task_added(content@, text@, opt_str(owner), views(tags@)) == Err::<
                (Seq<char>, int),
                ErrorModel,
            >(e@),
        },
{
    if trim(&chars_of(text)).len() == 0 {
        return Err(Error::invalid("task text is empty"));
    }
    let (split, trailing) = split_lines(content);
    let mut lines = split;
    let newline = dominant_newline(content);
    let ghost ls = lines_of(content@);
    assert(lines@.len() == ls.len());
    let new_line = format_line(text, false, owner, tags, 0);
    let ghost l = new_line@;
    let at: usize = match last_task_line(&lines) {
        Some(last) => {
            lines.insert(last + 1, new_line);
            assert(views(lines@) =~= ls.insert(last + 1, l));
            last + 1
        },
        None => {
            let n: usize = lines.len();
            if n > 0 && trim(&chars_of(lines[n - 1].as_str())).len() > 0 {
                assert(ls.last() == lines@[n - 1]@);
                lines.push(String::new());
                assert(views(lines@) =~= ls.push(Seq::empty()));
            } else {
                assert(n > 0 ==> ls.last() == lines@[n - 1]@);
            }
            let ghost padded = views(lines@);
            let at: usize = lines.len();
            lines.push(new_line);
            assert(views(lines@) =~= padded.push(l));
            at
        },
    };
    let some_text = chars_of(content).len() > 0;
    Ok((join_lines(&lines, trailing || some_text, newline), at + 1))
}

// ---------------------------------------------------------------------------
// What writing and reading promise
// ---------------------------------------------------------------------------

/// The part of a written line behind its checkbox.
spec fn written_body(text: Seq<char>, owner: Option<Seq<char>>, tags: Seq<Seq<char>>) -> Seq<char> {
    trim_of(text) + owner_part(owner) + tags_part(tags)
}

proof fn lemma_trim_spaces(n: nat, rest: Seq<char>)
    requires
        rest.len() > 0,
        !is_space(rest[0]),
    ensures
        trim_start_of(spaces(n) + rest) == rest,
        byte_len(spaces(n) + rest) == n + byte_len(rest),
    decreases n,
{
    let s = spaces(n) + rest;
    if n == 0 {
        assert(s =~= rest);
    } else {
        lemma_trim_spaces((n - 1) as nat, rest);
        let t = spaces((n - 1) as nat) + rest;
        assert(s.skip(1) =~= t);
        assert(s =~= seq![' '] + t);
        lemma_byte_len_concat(seq![' '], t);
        lemma_byte_len_push(Seq::empty(), ' ');
        assert(Seq::<char>::empty().push(' ') =~= seq![' ']);
        assert(byte_len(Seq::<char>::empty()) == 0);
    }
}

/// What a written line is made of.
proof fn lemma_written(
    text: Seq<char>,
    done: bool,
    owner: Option<Seq<char>>,
    tags: Seq<Seq<char>>,
    indent: nat,
)
    ensures
        ({
            let line = line_of_task(text, done, owner, tags, indent);
            &&& task_line(line)
            &&& ticked(line) == done
            &&& indent_of(line) == indent
            &&& after_bullet(line).skip(3) == seq![' '] + written_body(text, owner, tags)
        }),
{
    reveal_strlit("- [");
    reveal_strlit("x");
    reveal_strlit(" ");
    reveal_strlit("] ");
    reveal_strlit("- ");
    let line = line_of_task(text, done, owner, tags, indent);
    let mark = if done {
        'x'
    } else {
        ' '
    };
    let body = written_body(text, owner, tags);
    let boxed = seq!['[', mark, ']', ' '] + body;
    let item = seq!['-', ' '] + boxed;
    assert(line =~= spaces(indent) + item);
    lemma_trim_spaces(indent, item);
    assert("- "@ =~= item.subrange(0, 2));
    assert(item.skip(2) =~= boxed);
    assert(trim_start_of(boxed) == boxed);
    assert(after_bullet(line) == boxed);
    assert(boxed.skip(3) =~= seq![' '] + body);
}

/// A line that was written for a task is one, with the box and the indent that
/// were asked for.
pub proof fn law_written_line_is_task(
    text: Seq<char>,
    done: bool,
    owner: Option<Seq<char>>,
    tags: Seq<Seq<char>>,
    indent: nat,
)
    ensures
        task_line(line_of_task(text, done, owner, tags, indent)),
        ticked(line_of_task(text, done, owner, tags, indent)) == done,
        indent_of(line_of_task(text, done, owner, tags, indent)) == indent,
{
    lemma_written(text, done, owner, tags, indent);
}

/// An owner or tag that is written as it is read: one word, without its sign
/// in front and without punctuation behind.
pub open spec fn is_token(s: Seq<char>, sign: char) -> bool {
    s.len() > 0 && solid(s) && s[0] != sign && clean_of(s) == s
}

/// Words that are no owners and no tags.
pub open spec fn plain_words(words: Seq<Seq<char>>) -> bool {
    forall|i: int|
        0 <= i < words.len() ==> (#[trigger] words[i]).len() > 0 && words[i][0] != '@'
            && words[i][0] != '#'
}

proof fn lemma_solid_trim(s: Seq<char>)
    requires
        s.len() > 0,
        solid(s),
    ensures
        trim_of(s) == s,
{
    assert(!is_space(s[0]));
    assert(!is_space(s[s.len() - 1]));
}

proof fn lemma_signed_word(sign: char, s: Seq<char>)
    requires
        is_token(s, sign),
        !is_space(sign),
    ensures
        words_of(seq![sign] + s) == seq![seq![sign] + s],
        trim_of(s) == s,
        trim_front_of(s, sign) == s,
{
    let w = seq![sign] + s;
    assert(solid(w)) by {
        assert forall|k: int| 0 <= k < w.len() implies !is_space(
            #[trigger] w[k],
        ) by {
            if k > 0 {
                assert(w[k] == s[k - 1]);
            }
        }
    }
    lemma_words_one(w);
    lemma_solid_trim(s);
}

/// The words that written tags are.
spec fn tag_words(tags: Seq<Seq<char>>) -> Seq<Seq<char>> {
    Seq::new(tags.len(), |i: int| seq!['#'] + tags[i])
}

proof fn lemma_tags_words(front: Seq<char>, tags: Seq<Seq<char>>)
    requires
        forall|i: int| 0 <= i < tags.len() ==> is_token(#[trigger] tags[i], '#'),
    ensures
        words_of(front + tags_part(tags)) == words_of(front) + tag_words(tags),
    decreases tags.len(),
{
    reveal_strlit(" #");
    if tags.len() == 0 {
        assert(front + tags_part(tags) =~= front);
        assert(words_of(front) + tag_words(tags) =~= words_of(front));
    } else {
        let d = tags.drop_last();
        let t = tags.last();
        assert(is_token(tags[tags.len() - 1], '#'));
        assert forall|i: int| 0 <= i < d.len() implies is_token(#[trigger] d[i], '#') by {
            assert(d[i] == tags[i]);
        }
        lemma_tags_words(front, d);
        lemma_signed_word('#', t);
        let before = front + tags_part(d);
        let word = seq!['#'] + t;
        assert(front + tags_part(tags) =~= before.push(' ') + word);
        lemma_words_concat(before, ' ', word);
        assert(words_of(front) + tag_words(d) + seq![word] =~= words_of(front) + tag_words(tags));
    }
}

proof fn lemma_plain_tokens(words: Seq<Seq<char>>)
    requires
        plain_words(words),
    ensures
        tokens_of(words) == (Tokens { words, owner: None, tags: Seq::empty() }),
    decreases words.len(),
{
    if words.len() > 0 {
        let d = words.drop_last();
        assert(plain_words(d)) by {
            assert forall|i: int| 0 <= i < d.len() implies (#[trigger] d[i]).len() > 0 && d[i][0]
                != '@' && d[i][0] != '#' by {
                assert(d[i] == words[i]);
            }
        }
        lemma_plain_tokens(d);
        let w = words[words.len() - 1];
        assert(w.len() > 0 && w[0] != '@' && w[0] != '#');
        assert(d.push(words.last()) =~= words);
    } else {
        assert(tokens_of(words).words =~= words);
    }
}

proof fn lemma_tag_tokens(words: Seq<Seq<char>>, tags: Seq<Seq<char>>)
    requires
        forall|i: int| 0 <= i < tags.len() ==> is_token(#[trigger] tags[i], '#'),
        tokens_of(words).tags.len() == 0,
    ensures
        tokens_of(words + tag_words(tags)) == (Tokens { tags, ..tokens_of(words) }),
    decreases tags.len(),
{
    if tags.len() == 0 {
        assert(words + tag_words(tags) =~= words);
        assert(tokens_of(words).tags =~= tags);
    } else {
        let d = tags.drop_last();
        let t = tags.last();
        assert(is_token(tags[tags.len() - 1], '#'));
        assert forall|i: int| 0 <= i < d.len() implies is_token(#[trigger] d[i], '#') by {
            assert(d[i] == tags[i]);
        }
        lemma_tag_tokens(words, d);
        let all = words + tag_words(tags);
        assert(all.drop_last() =~= words + tag_words(d));
        let w = seq!['#'] + t;
        assert(all.last() == w);
        assert(w.skip(1) =~= t);
        assert(d.push(t) =~= tags);
    }
}

/// A task line that was written is read back as it was: the text, the owner,
/// the tags, the box and the indent.
pub proof fn law_write_then_read(
    text: Seq<char>,
    done: bool,
    owner: Option<Seq<char>>,
    tags: Seq<Seq<char>>,
    indent: nat,
    line_no: int,
)
    requires
        plain_words(words_of(text)),
        text == join_of(words_of(text), " "@),
        owner matches Some(o) ==> is_token(o, '@'),
        forall|i: int| 0 <= i < tags.len() ==> is_token(#[trigger] tags[i], '#'),
    ensures
        ({
            let t = task_of(line_of_task(text, done, owner, tags, indent), line_no);
            &&& t.text == text
            &&& t.owner == owner
            &&& t.tags == tags
            &&& t.done == done
            &&& t.indent == indent
        }),
{
    reveal_strlit(" @");
    lemma_written(text, done, owner, tags, indent);
    let line = line_of_task(text, done, owner, tags, indent);
    let front = trim_of(text) + owner_part(owner);
    let body = front + tags_part(tags);
    assert(written_body(text, owner, tags) == body);
    lemma_words_trim(seq![' '] + body);
    lemma_words_concat(Seq::empty(), ' ', body);
    assert(Seq::<char>::empty().push(' ') + body =~= seq![' '] + body);
    assert(words_of(Seq::<char>::empty()).len() == 0);
    assert(words_of(Seq::<char>::empty()) + words_of(body) =~= words_of(body));
    assert(words_of(task_body(line)) == words_of(body));
    lemma_tags_words(front, tags);
    lemma_words_trim(text);
    let ws = words_of(text);
    lemma_plain_tokens(ws);
    match owner {
        None => {
            assert(front =~= trim_of(text));
            lemma_tag_tokens(ws, tags);
        },
        Some(o) => {
            lemma_signed_word('@', o);
            let word = seq!['@'] + o;
            assert(front =~= trim_of(text).push(' ') + word);
            lemma_words_concat(trim_of(text), ' ', word);
            let all = ws + seq![word];
            assert(all.drop_last() =~= ws);
            assert(all.last() == word);
            assert(word.skip(1) =~= o);
            assert(tokens_of(all) == (Tokens { words: ws, owner: Some(o), tags: Seq::empty() }));
            lemma_tag_tokens(all, tags);
        },
    }
}

proof fn lemma_solid_break(s: Seq<char>)
    requires
        solid(s),
    ensures
        !holds(s, '\n'),
{
    if holds(s, '\n') {
        let k = choose|k: int| 0 <= k < s.len() && #[trigger] s[k] == '\n';
        assert(!is_space(s[k]));
    }
}

proof fn lemma_concat_break(a: Seq<char>, b: Seq<char>)
    requires
        !holds(a, '\n'),
        !holds(b, '\n'),
    ensures
        !holds(a + b, '\n'),
{
    if holds(a + b, '\n') {
        let k = choose|k: int| 0 <= k < (a + b).len() && #[trigger] (a + b)[k] == '\n';
        if k < a.len() {
            assert(a[k] == '\n');
        } else {
            assert(b[k - a.len()] == '\n');
        }
    }
}

proof fn lemma_words_break(words: Seq<Seq<char>>)
    requires
        forall|i: int| 0 <= i < words.len() ==> solid(#[trigger] words[i]),
    ensures
        !holds(join_of(words, " "@), '\n'),
    decreases words.len(),
{
    reveal_strlit(" ");
    if words.len() == 1 {
        lemma_solid_break(words[0]);
    } else if words.len() > 1 {
        let d = words.drop_last();
        assert forall|i: int| 0 <= i < d.len() implies solid(#[trigger] d[i]) by {
            assert(d[i] == words[i]);
        }
        lemma_words_break(d);
        assert(solid(words[words.len() - 1]));
        lemma_solid_break(words.last());
        lemma_concat_break(join_of(d, " "@), " "@);
        lemma_concat_break(join_of(d, " "@) + " "@, words.last());
    }
}

proof fn lemma_tags_break(tags: Seq<Seq<char>>)
    requires
        forall|i: int| 0 <= i < tags.len() ==> is_token(#[trigger] tags[i], '#'),
    ensures
        !holds(tags_part(tags), '\n'),
    decreases tags.len(),
{
    reveal_strlit(" #");
    if tags.len() > 0 {
        let d = tags.drop_last();
        let t = tags.last();
        assert(is_token(tags[tags.len() - 1], '#'));
        assert forall|i: int| 0 <= i < d.len() implies is_token(#[trigger] d[i], '#') by {
            assert(d[i] == tags[i]);
        }
        lemma_tags_break(d);
        lemma_signed_word('#', t);
        lemma_solid_break(t);
        lemma_concat_break(" #"@, t);
        lemma_concat_break(tags_part(d), " #"@ + t);
    }
}

/// A task line that was written is, as a document, that one task: its text, its
/// owner, its tags, its box and its indent, on the first line.
pub proof fn law_write_then_parse(
    text: Seq<char>,
    done: bool,
    owner: Option<Seq<char>>,
    tags: Seq<Seq<char>>,
    indent: nat,
)
    requires
        plain_words(words_of(text)),
        text == join_of(words_of(text), " "@),
        owner matches Some(o) ==> is_token(o, '@'),
        forall|i: int| 0 <= i < tags.len() ==> is_token(#[trigger] tags[i], '#'),
    ensures
        ({
            let tasks = tasks_of(line_of_task(text, done, owner, tags, indent));
            &&& tasks.len() == 1
            &&& tasks[0].line == 1
            &&& tasks[0].text == text
            &&& tasks[0].owner == owner
            &&& tasks[0].tags == tags
            &&& tasks[0].done == done
            &&& tasks[0].indent == indent
        }),
{
    reveal_strlit("- [");
    reveal_strlit("x");
    reveal_strlit(" ");
    reveal_strlit("] ");
    reveal_strlit(" @");
    reveal_strlit("```");
    reveal_strlit("~~~");
    let line = line_of_task(text, done, owner, tags, indent);
    law_write_then_read(text, done, owner, tags, indent, 1);
    lemma_written(text, done, owner, tags, indent);
    // The line holds no newline.
    lemma_words_solid(text, 0);
    lemma_words_trim(text);
    lemma_words_break(words_of(text));
    lemma_trim_part(text);
    lemma_tags_break(tags);
    let head = spaces(indent) + "- ["@ + (if done {
        "x"@
    } else {
        " "@
    }) + "] "@;
    assert(!holds(head, '\n'));
    if let Some(o) = owner {
        lemma_signed_word('@', o);
        lemma_solid_break(o);
        lemma_concat_break(" @"@, o);
    }
    lemma_concat_break(head, trim_of(text));
    lemma_concat_break(head + trim_of(text), owner_part(owner));
    lemma_concat_break(head + trim_of(text) + owner_part(owner), tags_part(tags));
    // So it is the only line, and no fence.
    assert(line.len() > 0);
    assert forall|k: int| 0 <= k < line.len() implies line[k] != '\n' by {}
    lemma_index_unique(line, '\n', line.len() as int);
    let lines = text_lines(line);
    assert(lines =~= seq![line]);
    let item = line.skip(indent as int);
    assert(item[0] == '-');
    assert(line =~= spaces(indent) + item);
    lemma_trim_spaces(indent, item);
    if "```"@.is_prefix_of(item) {
        assert("```"@[0] == item.subrange(0, 3)[0]);
    }
    if "~~~"@.is_prefix_of(item) {
        assert("~~~"@[0] == item.subrange(0, 3)[0]);
    }
    assert(fence_of(lines.take(0)) is None);
    assert(is_plain(lines, 0));
    assert(lines.drop_last() =~= Seq::<Seq<char>>::empty());
    assert(tasks_in(lines.drop_last()).len() == 0);
    assert(tasks_in(lines) =~= seq![task_of(line, 1)]);
}

/// A trimmed text is a part of the text.
proof fn lemma_trim_part(s: Seq<char>)
    ensures
        !holds(s, '\n') ==> !holds(trim_of(s), '\n'),
{
    lemma_trim_start_part(s);
    lemma_trim_end_part(trim_start_of(s));
}

proof fn lemma_trim_start_part(s: Seq<char>)
    ensures
        !holds(s, '\n') ==> !holds(trim_start_of(s), '\n'),
    decreases s.len(),
{
    if s.len() > 0 && is_space(s[0]) {
        let d = s.skip(1);
        lemma_trim_start_part(d);
        if holds(d, '\n') {
            let k = choose|k: int| 0 <= k < d.len() && #[trigger] d[k] == '\n';
            assert(s[k + 1] == '\n');
        }
    }
}

proof fn lemma_trim_end_part(s: Seq<char>)
    ensures
        !holds(s, '\n') ==> !holds(trim_end_of(s), '\n'),
    decreases s.len(),
{
    if s.len() > 0 && is_space(s.last()) {
        let d = s.drop_last();
        lemma_trim_end_part(d);
        if holds(d, '\n') {
            let k = choose|k: int| 0 <= k < d.len() && #[trigger] d[k] == '\n';
            assert(s[k] == '\n');
        }
    }
}

/// The tasks with the one on line `n` set to a status, and all else kept: text,
/// owner, tags and indent.
pub open spec fn with_status(tasks: Seq<TaskModel>, n: int, done: bool) -> Seq<TaskModel> {
    Seq::new(
        tasks.len(),
        |k: int|
            if tasks[k].line == n && tasks[k].done != done {
                TaskModel { done, raw: boxed(tasks[k].raw, done), ..tasks[k] }
            } else {
                tasks[k]
            },
    )
}

/// Is there a task on line `n`?
pub open spec fn has_line(tasks: Seq<TaskModel>, n: int) -> bool {
    exists|k: int| 0 <= k < tasks.len() && (#[trigger] tasks[k]).line == n
}

/// A status can be set on the lines that the parser lists as tasks, and on no
/// other.
pub proof fn law_status_needs_a_task(content: Seq<char>, task_id: Seq<char>, done: bool)
    ensures
        match line_named(task_id) {
            Some(n) => if has_line(tasks_of(content), n as int) {
                status_set(content, task_id, done) is Ok
            } else {
                status_set(content, task_id, done) matches Err(ErrorModel::NotFound(_))
            },
            None => status_set(content, task_id, done) == Err::<Seq<char>, ErrorModel>(
                bad_id(task_id),
            ),
        },
{
    lemma_same_lines(content);
    if let Some(n) = line_named(task_id) {
        lemma_has_line(lines_of(content), n as int);
    }
}

proof fn lemma_has_line(lines: Seq<Seq<char>>, n: int)
    ensures
        has_line(tasks_in(lines), n) == listed(lines, n - 1),
        forall|k: int|
            0 <= k < tasks_in(lines).len() ==> 1 <= (#[trigger] tasks_in(lines)[k]).line
                <= lines.len(),
    decreases lines.len(),
{
    if lines.len() > 0 {
        let d = lines.drop_last();
        lemma_has_line(d, n);
        let before = tasks_in(d);
        let all = tasks_in(lines);
        if n - 1 < d.len() && n >= 1 {
            assert(d.take(n - 1) =~= lines.take(n - 1));
            assert(d[n - 1] == lines[n - 1]);
        }
        assert forall|k: int| 0 <= k < before.len() implies #[trigger] all[k] == before[k] by {}
        if has_line(before, n) {
            let k = choose|k: int| 0 <= k < before.len() && (#[trigger] before[k]).line == n;
            assert(all[k].line == n);
        }
        if listed(lines, lines.len() - 1) && n == lines.len() {
            assert(all[all.len() - 1].line == n);
        }
        if has_line(all, n) && !listed(lines, n - 1) {
            let k = choose|k: int| 0 <= k < all.len() && (#[trigger] all[k]).line == n;
            if k < before.len() {
                assert(before[k].line == n);
            }
        }
    }
}

/// The tasks of a document are its task lines outside code fences, each once and
/// from the top down, with the number of its line, the line itself, and ticked
/// or not as its box says.
pub proof fn law_tasks_are_the_task_lines(content: Seq<char>)
    ensures
        ({
            let lines = text_lines(content);
            let tasks = tasks_of(content);
            &&& forall|i: int|
                0 <= i < lines.len() ==> (has_line(tasks, i + 1) <==> is_plain(lines, i)
                    && task_line(#[trigger] lines[i]))
            &&& forall|k: int|
                0 <= k < tasks.len() ==> 1 <= (#[trigger] tasks[k]).line <= lines.len()
                    && tasks[k].raw == lines[tasks[k].line - 1] && (tasks[k].done <==> after_bullet(
                    tasks[k].raw,
                )[1] == 'x' || after_bullet(tasks[k].raw)[1] == 'X') && (tasks[k].line
                    <= usize::MAX ==> line_named(tasks[k].id) == Some(tasks[k].line as usize))
            &&& forall|k: int, l: int|
                0 <= k < l < tasks.len() ==> (#[trigger] tasks[k]).line < (#[trigger] tasks[l]).line
        }),
{
    let lines = text_lines(content);
    assert forall|i: int| 0 <= i < lines.len() implies (has_line(tasks_of(content), i + 1)
        <==> is_plain(lines, i) && task_line(#[trigger] lines[i])) by {
        lemma_has_line(lines, i + 1);
    }
    lemma_task_lines(lines);
    let tasks = tasks_of(content);
    assert forall|k: int| 0 <= k < tasks.len() && tasks[k].line <= usize::MAX implies line_named(
        (#[trigger] tasks[k]).id,
    ) == Some(tasks[k].line as usize) by {
        law_id_round_trip(tasks[k].line as usize);
    }
}

proof fn lemma_task_lines(lines: Seq<Seq<char>>)
    ensures
        ({
            let tasks = tasks_in(lines);
            &&& forall|k: int|
                0 <= k < tasks.len() ==> 1 <= (#[trigger] tasks[k]).line <= lines.len()
                    && tasks[k] == task_of(lines[tasks[k].line - 1], tasks[k].line)
            &&& forall|k: int, l: int|
                0 <= k < l < tasks.len() ==> (#[trigger] tasks[k]).line < (#[trigger] tasks[l]).line
        }),
    decreases lines.len(),
{
    if lines.len() > 0 {
        let d = lines.drop_last();
        lemma_task_lines(d);
        let before = tasks_in(d);
        let tasks = tasks_in(lines);
        assert forall|k: int| 0 <= k < before.len() implies #[trigger] tasks[k] == before[k] by {}
        assert forall|k: int| 0 <= k < before.len() implies lines[(#[trigger] before[k]).line - 1]
            == d[before[k].line - 1] by {}
    }
}

/// A task line with its box set is the same task with that status.
proof fn lemma_boxed(line: Seq<char>, done: bool, line_no: int)
    requires
        task_line(line),
    ensures
        task_line(boxed(line, done)),
        task_of(boxed(line, done), line_no) == (TaskModel {
            done,
            raw: boxed(line, done),
            ..task_of(line, line_no)
        }),
        !is_fence(trim_start_of(line)),
        !is_fence(trim_start_of(boxed(line, done))),
        one_line(line) ==> one_line(boxed(line, done)),
        boxed(line, done).len() == line.len() > 0,
{
    reveal_strlit("- ");
    reveal_strlit("* ");
    reveal_strlit("+ ");
    reveal_strlit("```");
    reveal_strlit("~~~");
    let new = boxed(line, done);
    let at = box_at(line);
    let a = lemma_trim_start(line);
    let t = trim_start_of(line);
    let b = lemma_trim_start(t.skip(2));
    let rest = after_bullet(line);
    assert(rest =~= line.skip(a + 2 + b));
    assert(at == a + 2 + b + 1);
    lemma_trim_start_is(new, a);
    let u = trim_start_of(new);
    assert(u =~= new.skip(a));
    assert forall|i: int| 0 <= i < b implies is_space(#[trigger] u.skip(2)[i]) by {
        assert(u.skip(2)[i] == t.skip(2)[i]);
    }
    assert(u.skip(2)[b] == t.skip(2)[b]);
    lemma_trim_start_is(u.skip(2), b);
    assert(u.skip(2).skip(b) =~= rest.update(1, new[at]));
    assert(after_bullet(new) =~= rest.update(1, new[at]));
    assert(has_bullet(t) && t[0] == u[0] && t[1] == u[1]);
    assert("- "@.is_prefix_of(t) ==> "- "@ =~= u.subrange(0, 2));
    assert("* "@.is_prefix_of(t) ==> "* "@ =~= u.subrange(0, 2));
    assert("+ "@.is_prefix_of(t) ==> "+ "@ =~= u.subrange(0, 2));
    assert(t[0] == '-' || t[0] == '*' || t[0] == '+') by {
        if "- "@.is_prefix_of(t) {
            assert("- "@[0] == t.subrange(0, 2)[0]);
        } else if "* "@.is_prefix_of(t) {
            assert("* "@[0] == t.subrange(0, 2)[0]);
        } else {
            assert("+ "@[0] == t.subrange(0, 2)[0]);
        }
    }
    lemma_no_fence(t);
    lemma_no_fence(u);
    assert(after_bullet(new).skip(3) =~= rest.skip(3));
    assert(line =~= line.take(a) + t);
    assert(new =~= line.take(a) + u);
    lemma_byte_len_concat(line.take(a), t);
    lemma_byte_len_concat(line.take(a), u);
    if one_line(line) {
        assert forall|k: int| 0 <= k < new.len() implies new[k] != '\n' && new[k] != '\r' by {
            if k != at {
                assert(new[k] == line[k]);
            }
        }
    }
}

proof fn lemma_no_fence(t: Seq<char>)
    requires
        t.len() > 0,
        t[0] != '`' && t[0] != '~',
    ensures
        !is_fence(t),
{
    reveal_strlit("```");
    reveal_strlit("~~~");
    if "```"@.is_prefix_of(t) {
        assert("```"@[0] == t.subrange(0, 3)[0]);
    }
    if "~~~"@.is_prefix_of(t) {
        assert("~~~"@[0] == t.subrange(0, 3)[0]);
    }
}

/// How much white space stands at the front of `s`.
proof fn lemma_trim_start(s: Seq<char>) -> (k: int)
    ensures
        0 <= k <= s.len(),
        trim_start_of(s) == s.skip(k),
        forall|i: int| 0 <= i < k ==> is_space(#[trigger] s[i]),
        k < s.len() ==> !is_space(s[k]),
    decreases s.len(),
{
    if s.len() > 0 && is_space(s[0]) {
        let k = lemma_trim_start(s.skip(1));
        assert(s.skip(1).skip(k) =~= s.skip(k + 1));
        assert forall|i: int| 0 <= i < k + 1 implies is_space(#[trigger] s[i]) by {
            if i > 0 {
                assert(s[i] == s.skip(1)[i - 1]);
            }
        }
        k + 1
    } else {
        assert(s.skip(0) =~= s);
        0
    }
}

proof fn lemma_trim_start_is(s: Seq<char>, k: int)
    requires
        0 <= k < s.len(),
        forall|i: int| 0 <= i < k ==> is_space(#[trigger] s[i]),
        !is_space(s[k]),
    ensures
        trim_start_of(s) == s.skip(k),
{
    let m = lemma_trim_start(s);
    if m < k {
        assert(is_space(s[m]));
    }
    if k < m {
        assert(is_space(s[k]));
    }
}

proof fn lemma_status_tasks(lines: Seq<Seq<char>>, at: int, done: bool, m: int)
    requires
        listed(lines, at),
        ticked(lines[at]) != done,
        0 <= m <= lines.len(),
    ensures
        ({
            let after = lines.update(at, boxed(lines[at], done));
            &&& fence_of(after.take(m)) == fence_of(lines.take(m))
            &&& tasks_in(after.take(m)) == with_status(tasks_in(lines.take(m)), at + 1, done)
        }),
    decreases m,
{
    let after = lines.update(at, boxed(lines[at], done));
    lemma_boxed(lines[at], done, at + 1);
    if m == 0 {
        assert(tasks_in(after.take(0)) =~= with_status(tasks_in(lines.take(0)), at + 1, done));
    } else {
        lemma_status_tasks(lines, at, done, m - 1);
        let a = after.take(m);
        let l = lines.take(m);
        assert(a.drop_last() =~= after.take(m - 1));
        assert(l.drop_last() =~= lines.take(m - 1));
        assert(a.take(m - 1) =~= after.take(m - 1));
        assert(l.take(m - 1) =~= lines.take(m - 1));
        lemma_has_line(lines.take(m - 1), m);
        if m - 1 == at {
            assert(a.last() == boxed(lines[at], done));
        } else {
            assert(a.last() == l.last());
        }
        assert(tasks_in(a) =~= with_status(tasks_in(l), at + 1, done));
    }
}

/// Setting a status sets it on the task that was named, and changes nothing
/// else: the other lines stay, and the task keeps its text, its owner, its tags
/// and its indent. Setting it again changes nothing.
pub proof fn law_status_sticks(content: Seq<char>, task_id: Seq<char>, done: bool, text: Seq<char>)
    requires
        status_set(content, task_id, done) == Ok::<Seq<char>, ErrorModel>(text),
        all_one_line(lines_of(content)),
    ensures
        tasks_of(text) == with_status(tasks_of(content), line_named(task_id)->0 as int, done),
        lines_of(text).len() == lines_of(content).len(),
        forall|i: int|
            0 <= i < lines_of(content).len() && i + 1 != line_named(task_id)->0
                ==> #[trigger] lines_of(text)[i] == lines_of(content)[i],
        ends_in_newline(text) == ends_in_newline(content),
        status_set(text, task_id, done) == Ok::<Seq<char>, ErrorModel>(text),
{
    let n = line_named(task_id)->0;
    let at = n - 1;
    let lines = lines_of(content);
    lemma_same_lines(content);
    lemma_same_lines(text);
    if ticked(lines[at]) == done {
        lemma_status_kept(lines, at, lines.len() as int);
        assert(lines.take(lines.len() as int) =~= lines);
        assert(tasks_of(text) =~= with_status(tasks_of(content), n as int, done));
    } else {
        let after = lines.update(at, boxed(lines[at], done));
        lemma_boxed(lines[at], done, n as int);
        assert(one_line(lines[at]));
        assert(all_one_line(after)) by {
            assert forall|i: int| 0 <= i < after.len() implies one_line(#[trigger] after[i]) by {
                if i != at {
                    assert(one_line(lines[i]));
                }
            }
        }
        if !ends_in_newline(content) {
            lemma_last_line(content);
        }
        law_document_lines(after, ends_in_newline(content), newline_of(content));
        assert(lines_of(text) == after);
        lemma_status_tasks(lines, at, done, lines.len() as int);
        lemma_status_tasks(lines, at, done, at);
        assert(lines.take(lines.len() as int) =~= lines);
        assert(after.take(lines.len() as int) =~= after);
        assert(is_plain(after, at));
        assert(ticked(after[at]) == done) by {
            assert(task_of(after[at], n as int).done == done);
        }
    }
}

/// The task on a line has the status that its box shows.
proof fn lemma_status_kept(lines: Seq<Seq<char>>, at: int, m: int)
    requires
        0 <= at < lines.len(),
        0 <= m <= lines.len(),
    ensures
        forall|k: int|
            0 <= k < tasks_in(lines.take(m)).len() && (#[trigger] tasks_in(lines.take(m))[k]).line
                == at + 1 ==> tasks_in(lines.take(m))[k].done == ticked(lines[at]),
    decreases m,
{
    if m > 0 {
        lemma_status_kept(lines, at, m - 1);
        let l = lines.take(m);
        assert(l.drop_last() =~= lines.take(m - 1));
        let before = tasks_in(l.drop_last());
        let all = tasks_in(l);
        assert forall|k: int| 0 <= k < all.len() && (#[trigger] all[k]).line == at + 1 implies
            all[k].done == ticked(lines[at]) by {
            if k < before.len() {
                assert(all[k] == before[k]);
            }
        }
    }
}

/// The last task is the last line that is listed as one.
proof fn lemma_last_task(lines: Seq<Seq<char>>)
    ensures
        match last_task(lines) {
            Some(k) => listed(lines, k) && forall|j: int| k < j ==> !#[trigger] listed(lines, j),
            None => forall|j: int| !#[trigger] listed(lines, j),
        },
    decreases lines.len(),
{
    if lines.len() > 0 && !listed(lines, lines.len() - 1) {
        let d = lines.drop_last();
        lemma_last_task(d);
        assert forall|j: int| listed(lines, j) == #[trigger] listed(d, j) by {
            if 0 <= j < d.len() {
                assert(d.take(j) =~= lines.take(j));
                assert(d[j] == lines[j]);
            }
        }
        assert forall|j: int| #[trigger] listed(lines, j) implies listed(d, j) by {
            assert(listed(lines, j) == listed(d, j));
        }
    }
}

/// Lines of which none behind the first `at` is a task have the tasks of those.
proof fn lemma_no_more_tasks(lines: Seq<Seq<char>>, at: int, m: int)
    requires
        0 <= at <= m <= lines.len(),
        forall|j: int| at <= j ==> !#[trigger] listed(lines, j),
    ensures
        tasks_in(lines.take(m)) == tasks_in(lines.take(at)),
    decreases m,
{
    if m > at {
        lemma_no_more_tasks(lines, at, m - 1);
        let l = lines.take(m);
        assert(l.drop_last() =~= lines.take(m - 1));
        assert(l.take(m - 1) =~= lines.take(m - 1));
        assert(!listed(lines, m - 1));
        assert(l.last() == lines[m - 1]);
    }
}

/// A task that goes in behind all others is listed behind them.
proof fn lemma_task_put_in(lines: Seq<Seq<char>>, at: int, line: Seq<char>, m: int)
    requires
        0 <= at <= lines.len(),
        at < m <= lines.len() + 1,
        forall|j: int| at <= j ==> !#[trigger] listed(lines, j),
        fence_of(lines.take(at)) is None,
        task_line(line),
    ensures
        ({
            let new = lines.insert(at, line);
            &&& fence_of(new.take(m)) == fence_of(lines.take(m - 1))
            &&& tasks_in(new.take(m)) == tasks_in(lines.take(at)).push(task_of(line, at + 1))
        }),
    decreases m,
{
    let new = lines.insert(at, line);
    let a = new.take(m);
    assert(a.drop_last() =~= new.take(m - 1));
    assert(a.take(m - 1) =~= new.take(m - 1));
    if m == at + 1 {
        lemma_boxed(line, true, at + 1);
        assert(new.take(at) =~= lines.take(at));
        assert(a.last() == line);
    } else {
        lemma_task_put_in(lines, at, line, m - 1);
        assert(a.last() == lines[m - 2]);
        assert(!listed(lines, m - 2));
        let l = lines.take(m - 1);
        assert(l.drop_last() =~= lines.take(m - 2));
        assert(l.last() == lines[m - 2]);
    }
}

proof fn lemma_one_line_part(s: Seq<char>, from: int, to: int)
    requires
        one_line(s),
        0 <= from <= to <= s.len(),
    ensures
        one_line(s.subrange(from, to)),
{
    let p = s.subrange(from, to);
    assert forall|k: int| 0 <= k < p.len() implies p[k] != '\n' && p[k] != '\r' by {
        assert(p[k] == s[from + k]);
    }
}

proof fn lemma_one_line_end(s: Seq<char>)
    requires
        one_line(s),
    ensures
        one_line(trim_end_of(s)),
    decreases s.len(),
{
    if s.len() > 0 && is_space(s.last()) {
        assert(s.drop_last() =~= s.subrange(0, s.len() - 1));
        lemma_one_line_part(s, 0, s.len() - 1);
        lemma_one_line_end(s.drop_last());
    }
}

proof fn lemma_one_line_trim(s: Seq<char>)
    requires
        one_line(s),
    ensures
        one_line(trim_of(s)),
{
    let k = lemma_trim_start(s);
    assert(s.skip(k) =~= s.subrange(k, s.len() as int));
    lemma_one_line_part(s, k, s.len() as int);
    lemma_one_line_end(trim_start_of(s));
}

proof fn lemma_one_line_front(s: Seq<char>, c: char)
    requires
        one_line(s),
    ensures
        one_line(trim_front_of(s, c)),
    decreases s.len(),
{
    if s.len() > 0 && s[0] == c {
        assert(s.skip(1) =~= s.subrange(1, s.len() as int));
        lemma_one_line_part(s, 1, s.len() as int);
        lemma_one_line_front(s.skip(1), c);
    }
}

proof fn lemma_one_line_concat(a: Seq<char>, b: Seq<char>)
    requires
        one_line(a),
        one_line(b),
    ensures
        one_line(a + b),
{
    assert forall|k: int| 0 <= k < (a + b).len() implies (a + b)[k] != '\n' && (a + b)[k]
        != '\r' by {
        if k < a.len() {
            assert((a + b)[k] == a[k]);
        } else {
            assert((a + b)[k] == b[k - a.len()]);
        }
    }
}

proof fn lemma_one_line_tags(tags: Seq<Seq<char>>)
    requires
        all_one_line(tags),
    ensures
        one_line(tags_part(tags)),
    decreases tags.len(),
{
    reveal_strlit(" #");
    if tags.len() > 0 {
        let d = tags.drop_last();
        assert(one_line(tags[tags.len() - 1]));
        assert forall|i: int| 0 <= i < d.len() implies one_line(#[trigger] d[i]) by {
            assert(d[i] == tags[i]);
        }
        lemma_one_line_tags(d);
        lemma_one_line_trim(tags.last());
        lemma_one_line_front(trim_of(tags.last()), '#');
        lemma_one_line_concat(" #"@, trim_front_of(trim_of(tags.last()), '#'));
        lemma_one_line_concat(
            tags_part(d),
            " #"@ + trim_front_of(trim_of(tags.last()), '#'),
        );
    }
}

/// A written task line is one line, if its parts are.
proof fn lemma_written_one_line(
    text: Seq<char>,
    done: bool,
    owner: Option<Seq<char>>,
    tags: Seq<Seq<char>>,
    indent: nat,
)
    requires
        one_line(text),
        owner matches Some(o) ==> one_line(o),
        all_one_line(tags),
    ensures
        one_line(line_of_task(text, done, owner, tags, indent)),
        line_of_task(text, done, owner, tags, indent).len() > 0,
{
    reveal_strlit("- [");
    reveal_strlit("x");
    reveal_strlit(" ");
    reveal_strlit("] ");
    reveal_strlit(" @");
    let head = spaces(indent) + "- ["@ + (if done {
        "x"@
    } else {
        " "@
    }) + "] "@;
    assert(one_line(head));
    lemma_one_line_trim(text);
    lemma_one_line_concat(head, trim_of(text));
    if let Some(o) = owner {
        lemma_one_line_trim(o);
        lemma_one_line_front(trim_of(o), '@');
        lemma_one_line_concat(" @"@, trim_front_of(trim_of(o), '@'));
    }
    lemma_one_line_concat(head + trim_of(text), owner_part(owner));
    lemma_one_line_tags(tags);
    lemma_one_line_concat(head + trim_of(text) + owner_part(owner), tags_part(tags));
}

/// Adding a task keeps every line of the document: without the new line it is
/// the old document, but for one blank line that may go between its text and
/// its first task. The new task stands right behind the last one, and the tasks
/// of the new document are those of the old one and the new one, which is open.
/// Only where no task was there and a code fence was left open does the new
/// line become part of the code.
pub proof fn law_add_keeps_the_document(
    content: Seq<char>,
    text: Seq<char>,
    owner: Option<Seq<char>>,
    tags: Seq<Seq<char>>,
    doc: Seq<char>,
    line: int,
)
    requires
        task_added(content, text, owner, tags) == Ok::<(Seq<char>, int), ErrorModel>((doc, line)),
        all_one_line(lines_of(content)),
        one_line(text),
        owner matches Some(o) ==> one_line(o),
        all_one_line(tags),
    ensures
        1 <= line <= lines_of(doc).len(),
        lines_of(doc).remove(line - 1) == lines_of(content) || (tasks_of(content).len() == 0
            && lines_of(doc).remove(line - 1) == lines_of(content).push(Seq::empty()) && line
            == lines_of(content).len() + 2),
        content.len() > 0 ==> ends_in_newline(doc),
        tasks_of(content).len() > 0 ==> line == tasks_of(content).last().line + 1,
        tasks_of(content).len() == 0 ==> line == lines_of(doc).len(),
        tasks_of(content).len() > 0 || fence_of(lines_of(content)) is None ==> {
            let after = tasks_of(doc);
            &&& after.len() == tasks_of(content).len() + 1
            &&& after.drop_last() == tasks_of(content)
            &&& after.last().line == line
            &&& after.last().raw == lines_of(doc)[line - 1]
            &&& !after.last().done
            &&& plain_words(words_of(text)) && text == join_of(words_of(text), " "@) && (
            owner matches Some(o) ==> is_token(o, '@')) && (forall|i: int|
                0 <= i < tags.len() ==> is_token(#[trigger] tags[i], '#')) ==> after.last().text
                == text && after.last().owner == owner && after.last().tags == tags
        },
{
    let lines = lines_of(content);
    let l = line_of_task(text, false, owner, tags, 0);
    let (new, at) = with_task(lines, l);
    lemma_same_lines(content);
    lemma_same_lines(doc);
    lemma_written(text, false, owner, tags, 0);
    lemma_written_one_line(text, false, owner, tags, 0);
    lemma_with_task(lines, l);
    let trailing = ends_in_newline(content) || content.len() > 0;
    if !trailing {
        assert(lines.len() == 0);
        assert(tasks_in(lines).len() == 0);
    }
    law_document_lines(new, trailing, newline_of(content));
    assert(lines_of(doc) == new);
    if tasks_in(lines).len() > 0 || fence_of(lines) is None {
        assert(tasks_of(doc).drop_last() =~= tasks_of(content));
    }
    if plain_words(words_of(text)) && text == join_of(words_of(text), " "@) && (owner matches Some(
        o,
    ) ==> is_token(o, '@')) && (forall|i: int|
        0 <= i < tags.len() ==> is_token(#[trigger] tags[i], '#')) {
        law_write_then_read(text, false, owner, tags, 0, line);
    }
}

/// Where a task goes among some lines, and what becomes of their tasks.
proof fn lemma_with_task(lines: Seq<Seq<char>>, l: Seq<char>)
    requires
        task_line(l),
        all_one_line(lines),
        one_line(l),
    ensures
        ({
            let (new, at) = with_task(lines, l);
            &&& 0 <= at < new.len()
            &&& new[at] == l
            &&& all_one_line(new)
            &&& new.remove(at) == lines || (tasks_in(lines).len() == 0 && new.remove(at)
                == lines.push(Seq::empty()) && at == lines.len() + 1)
            &&& tasks_in(lines).len() > 0 ==> at == tasks_in(lines).last().line
            &&& tasks_in(lines).len() == 0 ==> at + 1 == new.len()
            &&& tasks_in(lines).len() > 0 || fence_of(lines) is None ==> tasks_in(new) == tasks_in(
                lines,
            ).push(task_of(l, at + 1))
        }),
{
    let (new, at) = with_task(lines, l);
    lemma_last_task(lines);
    match last_task(lines) {
        Some(last) => {
            assert(new[at] == l);
            assert(new.remove(at) =~= lines);
            assert forall|i: int| 0 <= i < new.len() implies one_line(#[trigger] new[i]) by {
                if i < at {
                    assert(new[i] == lines[i]);
                } else if i > at {
                    assert(new[i] == lines[i - 1]);
                }
            }
            lemma_put_behind_last(lines, last, l);
        },
        None => {
            lemma_no_tasks(lines);
            let base = new.drop_last();
            assert(base == lines || base == lines.push(Seq::empty()));
            assert(new.remove(at) =~= base);
            assert(new[at] == l);
            assert forall|i: int| 0 <= i < new.len() implies one_line(#[trigger] new[i]) by {
                if i < lines.len() {
                    assert(new[i] == lines[i]);
                }
            }
            if fence_of(lines) is None {
                lemma_put_at_end(lines, base, l);
                assert(new =~= base.push(l));
            }
        },
    }
}

proof fn lemma_put_behind_last(lines: Seq<Seq<char>>, last: int, l: Seq<char>)
    requires
        listed(lines, last),
        forall|j: int| last < j ==> !#[trigger] listed(lines, j),
        task_line(l),
    ensures
        tasks_in(lines).len() > 0,
        tasks_in(lines).last().line == last + 1,
        tasks_in(lines.insert(last + 1, l)) == tasks_in(lines).push(task_of(l, last + 2)),
{
    let n = lines.len() as int;
    let new = lines.insert(last + 1, l);
    let upto = lines.take(last + 1);
    assert(upto.drop_last() =~= lines.take(last));
    assert(upto.take(last) =~= lines.take(last));
    assert(upto.last() == lines[last]);
    assert(fence_of(upto) is None);
    lemma_no_more_tasks(lines, last + 1, n);
    assert(lines.take(n) =~= lines);
    assert(tasks_in(upto).last() == task_of(lines[last], last + 1));
    lemma_task_put_in(lines, last + 1, l, n + 1);
    assert(new.take(n + 1) =~= new);
}

proof fn lemma_put_at_end(lines: Seq<Seq<char>>, base: Seq<Seq<char>>, l: Seq<char>)
    requires
        forall|j: int| !#[trigger] listed(lines, j),
        base == lines || base == lines.push(Seq::empty()),
        fence_of(lines) is None,
        task_line(l),
    ensures
        tasks_in(base.push(l)) == tasks_in(lines).push(task_of(l, base.len() as int + 1)),
{
    lemma_no_tasks(lines);
    lemma_blank_is_no_task();
    let n = base.len() as int;
    assert forall|j: int| !#[trigger] listed(base, j) by {
        if 0 <= j < lines.len() {
            assert(base.take(j) =~= lines.take(j));
            assert(base[j] == lines[j]);
            assert(!listed(lines, j));
        }
    }
    lemma_no_tasks(base);
    if n > lines.len() {
        assert(base.drop_last() =~= lines);
        assert(base.last() == Seq::<char>::empty());
        assert(fence_of(base) is None);
    }
    assert(base.take(n) =~= base);
    lemma_task_put_in(base, n, l, n + 1);
    assert(base.insert(n, l) =~= base.push(l));
    assert(base.push(l).take(n + 1) =~= base.push(l));
    assert(tasks_in(base) =~= tasks_in(lines));
}

proof fn lemma_no_tasks(lines: Seq<Seq<char>>)
    requires
        forall|j: int| !#[trigger] listed(lines, j),
    ensures
        tasks_in(lines).len() == 0,
{
    lemma_no_more_tasks(lines, 0, lines.len() as int);
    assert(lines.take(lines.len() as int) =~= lines);
    assert(lines.take(0).len() == 0);
}

proof fn lemma_blank_is_no_task()
    ensures
        !task_line(Seq::empty()),
        !is_fence(trim_start_of(Seq::empty())),
{
    reveal_strlit("- ");
    reveal_strlit("* ");
    reveal_strlit("+ ");
    reveal_strlit("```");
    reveal_strlit("~~~");
}

proof fn lemma_trim_start_len(s: Seq<char>)
    ensures
        trim_start_of(s).len() <= s.len(),
{
    let _ = lemma_trim_start(s);
}

// ---------------------------------------------------------------------------
// Validation
// ---------------------------------------------------------------------------

/// May a character stand in an ordinary tag?
pub open spec fn tag_char(c: char) -> bool {
    alphanumeric_of(c) || c == '-' || c == '_' || c == '/'
}

/// Does a tag hold punctuation?
pub open spec fn unusual_tag(tag: Seq<char>) -> bool {
    exists|i: int| 0 <= i < tag.len() && !tag_char(#[trigger] tag[i])
}

/// The findings about some tags.
pub open spec fn tag_findings(tags: Seq<Seq<char>>, line: int) -> Seq<FindingModel>
    decreases tags.len(),
{
    if tags.len() == 0 {
        Seq::empty()
    } else {
        let before = tag_findings(tags.drop_last(), line);
        if unusual_tag(tags.last()) {
            before.push(
                finding_at(
                    Severity::Info,
                    "task.tag.unusual"@,
                    "`#"@ + tags.last() + "` contains punctuation."@,
                    line,
                ),
            )
        } else {
            before
        }
    }
}

/// The findings about one task.
pub open spec fn one_task_findings(t: TaskModel) -> Seq<FindingModel> {
    (if trim_of(t.text).len() == 0 {
        seq![finding_at(Severity::Warning, "task.empty"@, "The task has no text."@, t.line)]
    } else {
        Seq::empty()
    }) + tag_findings(t.tags, t.line)
}

/// The findings about some tasks.
pub open spec fn each_task_findings(tasks: Seq<TaskModel>) -> Seq<FindingModel>
    decreases tasks.len(),
{
    if tasks.len() == 0 {
        Seq::empty()
    } else {
        each_task_findings(tasks.drop_last()) + one_task_findings(tasks.last())
    }
}

/// How many tasks are open.
pub open spec fn open_count(tasks: Seq<TaskModel>) -> nat
    decreases tasks.len(),
{
    if tasks.len() == 0 {
        0
    } else {
        open_count(tasks.drop_last()) + if tasks.last().done {
            0nat
        } else {
            1nat
        }
    }
}

/// The findings about a task list.
pub open spec fn task_findings(content: Seq<char>) -> Seq<FindingModel> {
    let tasks = tasks_of(content);
    each_task_findings(tasks).push(
        plain_finding(
            Severity::Info,
            "task.summary"@,
            decimal_of(tasks.len()) + " task(s), "@ + decimal_of(open_count(tasks)) + " open."@,
        ),
    )
}

fn is_unusual(tag: &str) -> (out: bool)
    ensures
        out == unusual_tag(tag@),
{
    let chars = chars_of(tag);
    let mut i: usize = 0;
    while i < chars.len()
        invariant
            chars@ == tag@,
            i <= chars.len(),
            forall|k: int| 0 <= k < i ==> tag_char(#[trigger] tag@[k]),
        decreases chars.len() - i,
    {
        let c: char = chars[i];
        if !alphanumeric(c) && c != '-' && c != '_' && c != '/' {
            assert(!tag_char(tag@[i as int]));
            return true;
        }
        i += 1;
    }
    false
}

/// Checks a task list.
pub fn validate(content: &str) -> (out: Vec<Finding>)
    ensures
        finding_models(out@) == task_findings(content@),
{
    let tasks = parse(content);
    let ghost ts = tasks_of(content@);
    let mut out: Vec<Finding> = Vec::new();
    let mut open: usize = 0;
    let mut i: usize = 0;
    assert(finding_models(out@) =~= each_task_findings(ts.take(0)));
    while i < tasks.len()
        invariant
            task_models(tasks@) == ts,
            i <= tasks.len(),
            open <= i,
            open == open_count(ts.take(i as int)),
            finding_models(out@) == each_task_findings(ts.take(i as int)),
        decreases tasks.len() - i,
    {
        assert(ts.take(i + 1).drop_last() =~= ts.take(i as int));
        let task = &tasks[i];
        let ghost t = task@;
        assert(ts[i as int] == t);
        let ghost before = finding_models(out@);
        if trim(&chars_of(task.text.as_str())).len() == 0 {
            push_finding(
                &mut out,
                Finding::warning("task.empty", "The task has no text.").at(task.line),
            );
        }
        let ghost head = finding_models(out@);
        let ghost tags = views(task.tags@);
        let mut k: usize = 0;
        assert(head + tag_findings(tags.take(0), t.line) =~= head);
        while k < task.tags.len()
            invariant
                tags == views(task.tags@),
                t == task@,
                k <= task.tags.len(),
                finding_models(out@) == head + tag_findings(tags.take(k as int), t.line),
            decreases task.tags.len() - k,
        {
            assert(tags.take(k + 1).drop_last() =~= tags.take(k as int));
            let tag = task.tags[k].as_str();
            if is_unusual(tag) {
                let mut message = "`#".to_owned();
                message.append(tag);
                message.append("` contains punctuation.");
                push_finding(
                    &mut out,
                    Finding::info("task.tag.unusual", message.as_str()).at(task.line),
                );
            }
            assert(finding_models(out@) =~= head + tag_findings(tags.take(k + 1), t.line));
            k += 1;
        }
        assert(tags.take(k as int) =~= tags);
        assert(finding_models(out@) =~= before + one_task_findings(t));
        if !task.done {
            open += 1;
        }
        i += 1;
    }
    assert(ts.take(i as int) =~= ts);
    let mut message = decimal(tasks.len() as u64);
    message.append(" task(s), ");
    message.append(decimal(open as u64).as_str());
    message.append(" open.");
    push_finding(&mut out, Finding::info("task.summary", message.as_str()));
    out
}

// ---------------------------------------------------------------------------
// Filtering
// ---------------------------------------------------------------------------

/// Which tasks to show.
#[derive(Debug)]
pub struct Filter {
    pub owner: Option<String>,
    pub tag: Option<String>,
    pub open_only: bool,
    pub query: Option<String>,
}

impl Default for Filter {
    fn default() -> (out: Filter)
        ensures
            out == (Filter { owner: None, tag: None, open_only: false, query: None }),
    {
        Filter { owner: None, tag: None, open_only: false, query: None }
    }
}

/// Does one of the tags have this name?
pub open spec fn tagged(tags: Seq<Seq<char>>, want: Seq<char>) -> bool {
    exists|i: int| 0 <= i < tags.len() && same_ignoring_case(#[trigger] tags[i], want)
}

/// Does a filter let a task through?
pub open spec fn lets_through(
    owner: Option<Seq<char>>,
    tag: Option<Seq<char>>,
    open_only: bool,
    query: Option<Seq<char>>,
    t: TaskModel,
) -> bool {
    &&& open_only ==> !t.done
    &&& match owner {
        Some(o) => match t.owner {
            Some(mine) => same_ignoring_case(mine, trim_front_of(o, '@')),
            None => false,
        },
        None => true,
    }
    &&& match tag {
        Some(tag) => tagged(t.tags, trim_front_of(tag, '#')),
        None => true,
    }
    &&& match query {
        Some(q) => occurs(lower_of(t.text), lower_of(q)),
        None => true,
    }
}

impl Filter {
    pub fn matches(&self, task: &Task) -> (out: bool)
        ensures
            out == lets_through(
                opt_view(self.owner),
                opt_view(self.tag),
                self.open_only,
                opt_view(self.query),
                task@,
            ),
    {
        if self.open_only && task.done {
            return false;
        }
        if let Some(owner) = &self.owner {
            let want = string_of(trim_front(&chars_of(owner.as_str()), '@'));
            match &task.owner {
                Some(mine) => {
                    if !equal_ignoring_case(mine.as_str(), want.as_str()) {
                        return false;
                    }
                },
                None => {
                    return false;
                },
            }
        }
        if let Some(tag) = &self.tag {
            let want = string_of(trim_front(&chars_of(tag.as_str()), '#'));
            if !has_tag(&task.tags, want.as_str()) {
                return false;
            }
        }
        if let Some(query) = &self.query {
            let text = lowercase(task.text.as_str());
            let wanted = lowercase(query.as_str());
            if !contains(&chars_of(text.as_str()), &chars_of(wanted.as_str())) {
                return false;
            }
        }
        true
    }
}

fn has_tag(tags: &Vec<String>, want: &str) -> (out: bool)
    ensures
        out == tagged(views(tags@), want@),
{
    let mut i: usize = 0;
    while i < tags.len()
        invariant
            i <= tags.len(),
            forall|k: int|
                0 <= k < i ==> !same_ignoring_case(#[trigger] views(tags@)[k], want@),
        decreases tags.len() - i,
    {
        if equal_ignoring_case(tags[i].as_str(), want) {
            assert(same_ignoring_case(views(tags@)[i as int], want@));
            return true;
        }
        assert(!same_ignoring_case(views(tags@)[i as int], want@));
        i += 1;
    }
    false
}

/// Is a word an owner or a tag: its sign, and more than punctuation behind it?
pub open spec fn signed(word: Seq<char>, sign: char) -> bool {
    word.len() > 0 && word[0] == sign && clean_of(word.skip(1)).len() > 0
}

/// A task belongs to the first owner that its text names, has every tag that it
/// names, in their order, and keeps the other words as its text, in theirs: a
/// further owner stays a word.
pub proof fn law_tokens(words: Seq<Seq<char>>)
    ensures
        ({
            let t = tokens_of(words);
            &&& t.owner is None <==> forall|i: int|
                0 <= i < words.len() ==> !signed(#[trigger] words[i], '@')
            &&& forall|i: int|
                0 <= i < words.len() && signed(#[trigger] words[i], '@') && (forall|j: int|
                    0 <= j < i ==> !signed(#[trigger] words[j], '@')) ==> t.owner == Some(
                    clean_of(words[i].skip(1)),
                )
            &&& t.tags == words.filter(|w: Seq<char>| signed(w, '#')).map_values(
                |w: Seq<char>| clean_of(w.skip(1)),
            )
            &&& t.words.len() + t.tags.len() + (if t.owner is Some {
                1int
            } else {
                0int
            }) == words.len()
        }),
{
    lemma_tokens(
        words,
        |w: Seq<char>| signed(w, '#'),
        |w: Seq<char>| clean_of(w.skip(1)),
    );
}

proof fn lemma_tokens(
    words: Seq<Seq<char>>,
    tag: spec_fn(Seq<char>) -> bool,
    bare: spec_fn(Seq<char>) -> Seq<char>,
)
    requires
        forall|w: Seq<char>| #[trigger] tag(w) == signed(w, '#'),
        forall|w: Seq<char>| #[trigger] bare(w) == clean_of(w.skip(1)),
    ensures
        ({
            let t = tokens_of(words);
            &&& t.owner is None <==> forall|i: int|
                0 <= i < words.len() ==> !signed(#[trigger] words[i], '@')
            &&& forall|i: int|
                0 <= i < words.len() && signed(#[trigger] words[i], '@') && (forall|j: int|
                    0 <= j < i ==> !signed(#[trigger] words[j], '@')) ==> t.owner == Some(
                    clean_of(words[i].skip(1)),
                )
            &&& t.tags == words.filter(tag).map_values(bare)
            &&& t.words.len() + t.tags.len() + (if t.owner is Some {
                1int
            } else {
                0int
            }) == words.len()
        }),
    decreases words.len(),
{
    reveal(Seq::filter);
    let t = tokens_of(words);
    if words.len() == 0 {
        assert(t.tags =~= words.filter(tag).map_values(bare));
    } else {
        let d = words.drop_last();
        let w = words.last();
        lemma_tokens(d, tag, bare);
        let before = tokens_of(d);
        assert(words[words.len() - 1] == w);
        if tag(w) {
            assert(words.filter(tag).map_values(bare) =~= d.filter(tag).map_values(bare).push(
                bare(w),
            ));
        }
        if before.owner is Some {
            assert(!(forall|i: int| 0 <= i < d.len() ==> !signed(#[trigger] d[i], '@')));
            let i = choose|i: int| 0 <= i < d.len() && signed(#[trigger] d[i], '@');
            assert(signed(words[i], '@'));
        } else {
            assert forall|i: int| 0 <= i < d.len() implies !signed(#[trigger] words[i], '@') by {
                assert(d[i] == words[i]);
            }
        }
        assert forall|i: int|
            0 <= i < words.len() && signed(#[trigger] words[i], '@') && (forall|j: int|
                0 <= j < i ==> !signed(#[trigger] words[j], '@')) implies t.owner == Some(
            clean_of(words[i].skip(1)),
        ) by {
            if i < d.len() {
                assert(d[i] == words[i]);
                assert forall|j: int| 0 <= j < i implies !signed(#[trigger] d[j], '@') by {
                    assert(words[j] == d[j]);
                }
            } else {
                assert forall|j: int| 0 <= j < d.len() implies !signed(#[trigger] d[j], '@') by {
                    assert(words[j] == d[j]);
                }
            }
        }
    }
}

} // verus!
