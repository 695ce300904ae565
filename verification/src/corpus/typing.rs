//! Artifact typing: what a document is, by its structure.

use crate::artifact::frontmatter::{
    body_chars, body_text, frontmatter_of, parse, string_list_of, text_member, Frontmatter,
    FrontmatterModel,
};
use crate::corpus::types::ArtifactType;
use crate::fence::{outside_code_fences, plain_lines};
use crate::json::member_of;
use crate::text::{
    alphanumeric, alphanumeric_of, among, byte_len, bytes_in, chars_of, equal_ignoring_case,
    find_from, find_of, first_is, is_among, lemma_find, lemma_join_split, lines, lower_of,
    lowercase, part, same_ignoring_case, same_str, split, split_on, starts_with, string_of,
    text_lines, trim, trim_of, trim_start, trim_start_of, views,
};
use vstd::prelude::*;

verus! {

// ---------------------------------------------------------------------------
// Names and extensions
// ---------------------------------------------------------------------------

/// What stands behind the last `c`; all of `s` if there is none.
pub open spec fn after_last(s: Seq<char>, c: char) -> Seq<char> {
    split_on(s, c).last()
}

/// What stands behind the last `c`.
pub fn tail_after(s: &str, c: char) -> (out: String)
    ensures
        out@ == after_last(s@, c),
{
    let pieces = split(&chars_of(s), c);
    proof {
        lemma_join_split(s@, c);
    }
    let n: usize = pieces.len();
    assert(views(pieces@).last() == pieces@[n - 1]@);
    pieces[n - 1].clone()
}

/// The last name of a path.
pub fn file_name_of(path: &str) -> (out: String)
    ensures
        out@ == after_last(path@, '/'),
{
    tail_after(path, '/')
}

/// The lower-case extensions of markdown documents.
pub open spec fn is_markdown_extension(ext: Seq<char>) -> bool {
    ext == "md"@ || ext == "markdown"@ || ext == "mdown"@ || ext == "mkd"@ || ext == "mdx"@
}

/// Does a path name a markdown document?
pub open spec fn markdown_path(path: Seq<char>) -> bool {
    split_on(path, '.').len() > 1 && is_markdown_extension(lower_of(after_last(path, '.')))
}

/// Is a lower-case extension one of markdown's?
pub fn markdown_extension(ext: &str) -> (out: bool)
    ensures
        out == is_markdown_extension(ext@),
{
    same_str(ext, "md") || same_str(ext, "markdown") || same_str(ext, "mdown") || same_str(
        ext,
        "mkd",
    ) || same_str(ext, "mdx")
}

pub fn is_markdown_path(path: &str) -> (out: bool)
    ensures
        out == markdown_path(path@),
{
    let pieces = split(&chars_of(path), '.');
    let ext = lowercase(tail_after(path, '.').as_str());
    assert(views(pieces@).len() == pieces@.len());
    pieces.len() > 1 && markdown_extension(ext.as_str())
}

// ---------------------------------------------------------------------------
// Slots
// ---------------------------------------------------------------------------

/// The names between `{{` and `}}` in a line, trimmed, from position `i` on.
/// An opening without a closing ends the line's names.
pub open spec fn slots_from(line: Seq<char>, i: int) -> Seq<Seq<char>>
    decreases line.len() - i,
    via slots_from_decreases
{
    if i < 0 {
        Seq::empty()
    } else {
        match find_of(line, "{{"@, i) {
            None => Seq::empty(),
            Some(open) => match find_of(line, "}}"@, open + 2) {
                None => Seq::empty(),
                Some(close) => seq![trim_of(line.subrange(open + 2, close))] + slots_from(
                    line,
                    close + 2,
                ),
            },
        }
    }
}

#[via_fn]
proof fn slots_from_decreases(line: Seq<char>, i: int) {
    if i >= 0 {
        lemma_find(line, "{{"@, i);
        if let Some(open) = find_of(line, "{{"@, i) {
            lemma_find(line, "}}"@, open + 2);
        }
        reveal_strlit("{{");
        reveal_strlit("}}");
    }
}

/// May a character stand in a slot's name?
pub open spec fn slot_char(c: char) -> bool {
    alphanumeric_of(c) || c == '_' || c == '-' || c == '.'
}

/// Is a name a variable's? Helpers of other template languages are not.
pub open spec fn slot_name(name: Seq<char>) -> bool {
    &&& name.len() > 0
    &&& byte_len(name) <= 64
    &&& forall|i: int| 0 <= i < name.len() ==> slot_char(#[trigger] name[i])
}

/// `names` with the new ones among `found` that are variables' names.
pub open spec fn names_with(names: Seq<Seq<char>>, found: Seq<Seq<char>>) -> Seq<Seq<char>>
    decreases found.len(),
{
    if found.len() == 0 {
        names
    } else {
        let before = names_with(names, found.drop_last());
        if slot_name(found.last()) && !among(before, found.last()) {
            before.push(found.last())
        } else {
            before
        }
    }
}

/// The slots of some lines, in first-use order.
pub open spec fn slots_of_lines(lines: Seq<Seq<char>>) -> Seq<Seq<char>>
    decreases lines.len(),
{
    if lines.len() == 0 {
        Seq::empty()
    } else {
        names_with(slots_of_lines(lines.drop_last()), slots_from(lines.last(), 0))
    }
}

/// The slots of a document's body, ignoring fenced code.
pub open spec fn slots_of(body: Seq<char>) -> Seq<Seq<char>> {
    slots_of_lines(plain_lines(text_lines(body)))
}

fn is_slot_name(name: &str) -> (out: bool)
    ensures
        out == slot_name(name@),
{
    let chars = chars_of(name);
    if chars.len() == 0 || bytes_in(name) > 64 {
        return false;
    }
    let mut i: usize = 0;
    while i < chars.len()
        invariant
            chars@ == name@,
            i <= chars.len(),
            forall|k: int| 0 <= k < i ==> slot_char(#[trigger] name@[k]),
        decreases chars.len() - i,
    {
        let c: char = chars[i];
        if !(alphanumeric(c) || c == '_' || c == '-' || c == '.') {
            assert(!slot_char(name@[i as int]));
            return false;
        }
        i += 1;
    }
    true
}

/// The names between `{{` and `}}` in a line.
fn line_slots(line: &[char]) -> (out: Vec<String>)
    ensures
        views(out@) == slots_from(line@, 0),
{
    let opening = chars_of("{{");
    let closing = chars_of("}}");
    let mut out: Vec<String> = Vec::new();
    let mut i: usize = 0;
    assert(views(out@) + slots_from(line@, 0) =~= slots_from(line@, 0));
    proof {
        reveal_strlit("{{");
        reveal_strlit("}}");
    }
    loop
        invariant
            opening@ == "{{"@,
            closing@ == "}}"@,
            "{{"@.len() == 2,
            "}}"@.len() == 2,
            i <= line.len(),
            views(out@) + slots_from(line@, i as int) == slots_from(line@, 0),
        decreases line.len() - i,
    {
        let ghost before = views(out@);
        match find_from(line, &opening, i) {
            None => {
                assert(before + Seq::<Seq<char>>::empty() =~= before);
                return out;
            },
            Some(open) => match find_from(line, &closing, open + 2) {
                None => {
                    assert(before + Seq::<Seq<char>>::empty() =~= before);
                    return out;
                },
                Some(close) => {
                    let name = string_of(trim(part(line, open + 2, close)));
                    let ghost n = name@;
                    out.push(name);
                    assert(views(out@) =~= before.push(n));
                    assert(before.push(n) + slots_from(line@, close + 2) =~= before + (seq![n]
                        + slots_from(line@, close + 2)));
                    i = close + 2;
                },
            },
        }
    }
}

/// The slots of a body, in first-use order, each once.
pub fn slot_names(body: &str) -> (out: Vec<String>)
    ensures
        views(out@) == slots_of(body@),
{
    let plain = outside_code_fences(body);
    let ghost all = views(plain@);
    let mut out: Vec<String> = Vec::new();
    let mut i: usize = 0;
    assert(views(out@) =~= slots_of_lines(all.take(0)));
    while i < plain.len()
        invariant
            all == views(plain@),
            i <= plain.len(),
            views(out@) == slots_of_lines(all.take(i as int)),
        decreases plain.len() - i,
    {
        assert(all.take(i + 1).drop_last() =~= all.take(i as int));
        let found = line_slots(&chars_of(plain[i].as_str()));
        let ghost names = views(out@);
        let ghost f = views(found@);
        let mut k: usize = 0;
        assert(f.take(0).len() == 0);
        while k < found.len()
            invariant
                f == views(found@),
                k <= found.len(),
                views(out@) == names_with(names, f.take(k as int)),
            decreases found.len() - k,
        {
            assert(f.take(k + 1).drop_last() =~= f.take(k as int));
            assert(f.take(k + 1).last() == found@[k as int]@);
            let ghost before = views(out@);
            if is_slot_name(found[k].as_str()) && !is_among(&out, found[k].as_str()) {
                out.push(found[k].clone());
                assert(views(out@) =~= before.push(f[k as int]));
            }
            k += 1;
        }
        assert(f.take(k as int) =~= f);
        i += 1;
    }
    assert(all.take(i as int) =~= all);
    out
}

/// Does a body have slots? A prompt library and a doc about templating should
/// not be confused, so fenced code does not count.
pub fn has_slots(body: &str) -> (out: bool)
    ensures
        out == (slots_of(body@).len() > 0),
{
    let names = slot_names(body);
    assert(views(names@).len() == names@.len());
    names.len() > 0
}

/// No text occurs twice.
pub open spec fn distinct(names: Seq<Seq<char>>) -> bool {
    forall|i: int, j: int| 0 <= i < j < names.len() ==> #[trigger] names[i] != #[trigger] names[j]
}

/// Every text is a variable's name.
pub open spec fn all_slot_names(names: Seq<Seq<char>>) -> bool {
    forall|i: int| 0 <= i < names.len() ==> slot_name(#[trigger] names[i])
}

/// The slots of a body are distinct variables' names.
pub proof fn law_slots_distinct(body: Seq<char>)
    ensures
        distinct(slots_of(body)),
        all_slot_names(slots_of(body)),
{
    lemma_slots_distinct(plain_lines(text_lines(body)));
}

proof fn lemma_slots_distinct(lines: Seq<Seq<char>>)
    ensures
        distinct(slots_of_lines(lines)),
        all_slot_names(slots_of_lines(lines)),
    decreases lines.len(),
{
    if lines.len() > 0 {
        lemma_slots_distinct(lines.drop_last());
        lemma_names_distinct(slots_of_lines(lines.drop_last()), slots_from(lines.last(), 0));
    }
}

proof fn lemma_names_distinct(names: Seq<Seq<char>>, found: Seq<Seq<char>>)
    requires
        distinct(names),
        all_slot_names(names),
    ensures
        distinct(names_with(names, found)),
        all_slot_names(names_with(names, found)),
    decreases found.len(),
{
    if found.len() > 0 {
        lemma_names_distinct(names, found.drop_last());
        let before = names_with(names, found.drop_last());
        let after = names_with(names, found);
        if slot_name(found.last()) && !among(before, found.last()) {
            assert forall|i: int, j: int| 0 <= i < j < after.len() implies #[trigger] after[i]
                != #[trigger] after[j] by {
                if j == before.len() {
                    assert(after[i] == before[i]);
                }
            }
        }
    }
}

// ---------------------------------------------------------------------------
// Tasks
// ---------------------------------------------------------------------------

/// The bullet of a list item, with its space.
pub open spec fn has_bullet(t: Seq<char>) -> bool {
    "- "@.is_prefix_of(t) || "* "@.is_prefix_of(t) || "+ "@.is_prefix_of(t)
}

/// What stands behind the bullet, trimmed at its front.
pub open spec fn after_bullet(line: Seq<char>) -> Seq<char> {
    trim_start_of(trim_start_of(line).skip(2))
}

/// Does `rest` begin with a checkbox?
pub open spec fn has_box(rest: Seq<char>) -> bool {
    rest.len() >= 3 && rest[0] == '[' && (rest[1] == ' ' || rest[1] == 'x' || rest[1] == 'X')
        && rest[2] == ']'
}

/// A checkbox line, e.g. `- [ ] Ship Folio 1.0 @carlos #release`.
pub open spec fn task_line(line: Seq<char>) -> bool {
    has_bullet(trim_start_of(line)) && has_box(after_bullet(line))
}

/// Is a line a task?
pub fn is_task_line(line: &str) -> (out: bool)
    ensures
        out == task_line(line@),
{
    let chars = chars_of(line);
    let t = trim_start(&chars);
    if !(starts_with(t, "- ") || starts_with(t, "* ") || starts_with(t, "+ ")) {
        return false;
    }
    proof {
        reveal_strlit("- ");
        reveal_strlit("* ");
        reveal_strlit("+ ");
    }
    let body = part(t, 2, t.len());
    assert(body@ =~= t@.skip(2));
    let rest = trim_start(body);
    rest.len() >= 3 && rest[0] == '[' && (rest[1] == ' ' || rest[1] == 'x' || rest[1] == 'X')
        && rest[2] == ']'
}

/// A heading or a comment: structure that groups a task list.
pub open spec fn structural(line: Seq<char>) -> bool {
    let t = trim_of(line);
    first_is(t, '#') || "<!--"@.is_prefix_of(t)
}

/// How many lines are tasks.
pub open spec fn task_count(lines: Seq<Seq<char>>) -> nat
    decreases lines.len(),
{
    if lines.len() == 0 {
        0
    } else {
        task_count(lines.drop_last()) + if trim_of(lines.last()).len() > 0 && task_line(
            lines.last(),
        ) {
            1nat
        } else {
            0nat
        }
    }
}

/// How many lines are content: neither blank nor structure.
pub open spec fn content_count(lines: Seq<Seq<char>>) -> nat
    decreases lines.len(),
{
    if lines.len() == 0 {
        0
    } else {
        content_count(lines.drop_last()) + if trim_of(lines.last()).len() > 0 && (task_line(
            lines.last(),
        ) || !structural(lines.last())) {
            1nat
        } else {
            0nat
        }
    }
}

/// "Predominantly task-list items": at least two tasks, and at least half of
/// the content.
pub open spec fn mostly_tasks(body: Seq<char>) -> bool {
    let lines = plain_lines(text_lines(body));
    task_count(lines) >= 2 && 2 * task_count(lines) >= content_count(lines)
}

/// Is a body a list of things to do, not a document that happens to contain a
/// checklist?
fn is_predominantly_tasks(body: &str) -> (out: bool)
    ensures
        out == mostly_tasks(body@),
{
    let plain = outside_code_fences(body);
    let ghost all = views(plain@);
    let mut tasks: usize = 0;
    let mut content: usize = 0;
    let mut i: usize = 0;
    while i < plain.len()
        invariant
            all == views(plain@),
            i <= plain.len(),
            tasks <= content <= i,
            tasks == task_count(all.take(i as int)),
            content == content_count(all.take(i as int)),
        decreases plain.len() - i,
    {
        assert(all.take(i + 1).drop_last() =~= all.take(i as int));
        let line = chars_of(plain[i].as_str());
        let trimmed = trim(&line);
        if trimmed.len() > 0 {
            if is_task_line(plain[i].as_str()) {
                tasks += 1;
                content += 1;
            } else if !(trimmed[0] == '#' || starts_with(trimmed, "<!--")) {
                content += 1;
            }
        }
        i += 1;
    }
    assert(all.take(i as int) =~= all);
    tasks >= 2 && tasks >= content - tasks
}

// ---------------------------------------------------------------------------
// The type of a document
// ---------------------------------------------------------------------------

/// The directories by which a skill tree is recognised.
pub open spec fn skill_dir(name: Seq<char>) -> bool {
    name == "commands"@ || name == "templates"@ || name == "references"@ || name == "scripts"@
        || name == "assets"@
}

/// Does a path have a parent in which a skill's directory stands? `dirs` are
/// the names of the directories there.
pub open spec fn skill_siblings(path: Seq<char>, dirs: Seq<Seq<char>>) -> bool {
    split_on(path, '/').len() > 1 && exists|i: int|
        0 <= i < dirs.len() && skill_dir(#[trigger] dirs[i])
}

/// A skill tree is recognised by its progressive-disclosure directories.
/// `dirs` are the names of the directories beside the document.
pub fn has_skill_sibling_dirs(path: &str, dirs: &[String]) -> (out: bool)
    ensures
        out == skill_siblings(path@, views(dirs@)),
{
    let pieces = split(&chars_of(path), '/');
    assert(views(pieces@).len() == pieces@.len());
    if pieces.len() <= 1 {
        return false;
    }
    let mut i: usize = 0;
    while i < dirs.len()
        invariant
            i <= dirs.len(),
            split_on(path@, '/').len() > 1,
            forall|k: int| 0 <= k < i ==> !skill_dir(#[trigger] views(dirs@)[k]),
        decreases dirs.len() - i,
    {
        let name = dirs[i].as_str();
        if same_str(name, "commands") || same_str(name, "templates") || same_str(
            name,
            "references",
        ) || same_str(name, "scripts") || same_str(name, "assets") {
            assert(skill_dir(views(dirs@)[i as int]));
            return true;
        }
        assert(!skill_dir(views(dirs@)[i as int]));
        i += 1;
    }
    false
}

/// Is a member a text that is not blank?
pub open spec fn has_text(fm: FrontmatterModel, key: Seq<char>) -> bool {
    match text_member(fm.data, key) {
        Some(s) => trim_of(s).len() > 0,
        None => false,
    }
}

/// The type of a document with the given frontmatter and body.
pub open spec fn type_with(
    path: Seq<char>,
    fm: FrontmatterModel,
    body: Seq<char>,
    dirs: Seq<Seq<char>>,
) -> ArtifactType {
    if !markdown_path(path) {
        ArtifactType::Asset
    } else if has_text(fm, "name"@) && has_text(fm, "description"@) && (same_ignoring_case(
        after_last(path, '/'),
        "SKILL.md"@,
    ) || skill_siblings(path, dirs)) {
        ArtifactType::Skill
    } else if (match string_list_of(member_of(fm.data, "variables"@)) {
        Some(list) => list.len() > 0,
        None => false,
    }) || slots_of(body).len() > 0 {
        ArtifactType::Prompt
    } else if mostly_tasks(body) {
        ArtifactType::TaskList
    } else {
        ArtifactType::Doc
    }
}

/// The type of a document.
pub open spec fn type_of(path: Seq<char>, content: Seq<char>, dirs: Seq<Seq<char>>) -> ArtifactType {
    type_with(path, frontmatter_of(content), body_text(content), dirs)
}

fn text_given(fm: &Frontmatter, key: &str) -> (out: bool)
    ensures
        out == has_text(fm@, key@),
{
    match fm.get_str(key) {
        Some(s) => trim(&chars_of(s)).len() > 0,
        None => false,
    }
}

/// Structural typing, given the frontmatter and the body. Order matters: a
/// `SKILL.md` that happens to contain a `{{slot}}` is still a skill.
pub fn detect_with(path: &str, fm: &Frontmatter, body: &str, dirs: &[String]) -> (out: ArtifactType)
    ensures
        out == type_with(path@, fm@, body@, views(dirs@)),
{
    if !is_markdown_path(path) {
        return ArtifactType::Asset;
    }
    if text_given(fm, "name") && text_given(fm, "description") {
        if equal_ignoring_case(file_name_of(path).as_str(), "SKILL.md") {
            return ArtifactType::Skill;
        }
        if has_skill_sibling_dirs(path, dirs) {
            return ArtifactType::Skill;
        }
    }
    let declared = match fm.string_list("variables") {
        Some(list) => {
            assert(views(list@).len() == list@.len());
            list.len() > 0
        },
        None => false,
    };
    if declared || has_slots(body) {
        return ArtifactType::Prompt;
    }
    if is_predominantly_tasks(body) {
        return ArtifactType::TaskList;
    }
    ArtifactType::Doc
}

/// The type of a document. `dirs` are the names of the directories beside it.
pub fn detect_type(path: &str, content: &str, dirs: &[String]) -> (out: ArtifactType)
    ensures
        out == type_of(path@, content@, views(dirs@)),
{
    let fm = parse(content);
    let body = string_of(&body_chars(content));
    detect_with(path, &fm, body.as_str(), dirs)
}

proof fn lemma_counts_are_filters(
    lines: Seq<Seq<char>>,
    tasks: spec_fn(Seq<char>) -> bool,
    content: spec_fn(Seq<char>) -> bool,
)
    requires
        forall|l: Seq<char>| #[trigger] tasks(l) == (trim_of(l).len() > 0 && task_line(l)),
        forall|l: Seq<char>| #[trigger]
            content(l) == (trim_of(l).len() > 0 && (task_line(l) || !structural(l))),
    ensures
        task_count(lines) == lines.filter(tasks).len(),
        content_count(lines) == lines.filter(content).len(),
    decreases lines.len(),
{
    reveal(Seq::filter);
    if lines.len() > 0 {
        lemma_counts_are_filters(lines.drop_last(), tasks, content);
    }
}

/// A document is a task list when, outside code fences, it has two tasks or
/// more, and at least every other line is one, apart from blank lines, headings
/// and comments. A document with a slot is a prompt before that, a skill before
/// both, and what is not markdown is none of them.
pub proof fn law_types(path: Seq<char>, content: Seq<char>, dirs: Seq<Seq<char>>)
    ensures
        ({
            let ty = type_of(path, content, dirs);
            let lines = plain_lines(text_lines(body_text(content)));
            let tasks = lines.filter(|l: Seq<char>| trim_of(l).len() > 0 && task_line(l)).len();
            let others = lines.filter(
                |l: Seq<char>|
                    trim_of(l).len() > 0 && (task_line(l) || !(first_is(trim_of(l), '#')
                        || "<!--"@.is_prefix_of(trim_of(l)))),
            ).len();
            &&& ty == ArtifactType::Asset <==> !markdown_path(path)
            &&& ty == ArtifactType::TaskList ==> tasks >= 2 && 2 * tasks >= others && slots_of(
                body_text(content),
            ).len() == 0
            &&& ty == ArtifactType::Doc ==> slots_of(body_text(content)).len() == 0 && (tasks < 2
                || 2 * tasks < others)
            &&& ty == ArtifactType::Skill ==> has_text(frontmatter_of(content), "name"@)
                && has_text(frontmatter_of(content), "description"@)
            &&& slots_of(body_text(content)).len() > 0 ==> ty == ArtifactType::Prompt || ty
                == ArtifactType::Skill || ty == ArtifactType::Asset
        }),
{
    let lines = plain_lines(text_lines(body_text(content)));
    let tasks = |l: Seq<char>| trim_of(l).len() > 0 && task_line(l);
    let others = |l: Seq<char>|
        trim_of(l).len() > 0 && (task_line(l) || !(first_is(trim_of(l), '#')
            || "<!--"@.is_prefix_of(trim_of(l))));
    lemma_counts_are_filters(lines, tasks, others);
}

} // verus!
