//! A skill against its tree: references, orphans, the command inventory, and
//! the skill's own lint rules.

use crate::artifact::finding::{
    finding_at, finding_models, plain_finding, push_finding, Finding, FindingModel, Severity,
};
use crate::artifact::references::{
    collect_references, disclosure_dir, disclosure_dirs, normal_of, normalise_rel,
    reference_models, references_of, skip_dots, without_dots, Reference, ReferenceModel,
};
use crate::artifact::skill::SkillTree;
use crate::corpus::typing::{after_last, tail_after};
use crate::text::{
    among, chars_of, contains, decimal, decimal_of, equal_ignoring_case, first_is, index_of,
    is_among, lines, lower_of, lowercase, occurs, occurs_at, part, position, push_text,
    same_ignoring_case, same_str, sort_texts, sorted_texts, starts_with, string_of, text_lines,
    trim, trim_back, trim_back_of, trim_front, trim_front_of, trim_of, views, words, words_of,
};
use crate::util::{joined_path, path_join};
use vstd::prelude::*;

verus! {

// ---------------------------------------------------------------------------
// References
// ---------------------------------------------------------------------------

/// The finding about a reference that does not resolve.
pub open spec fn missing_finding(dir: Seq<char>, r: ReferenceModel) -> FindingModel {
    FindingModel {
        severity: Severity::Error,
        rule: "skill.reference.missing"@,
        message: "`"@ + r.0 + "` does not resolve."@,
        line: Some(r.1),
        file: None,
        hint: Some("Expected "@ + joined_path(dir, skip_dots(r.0))),
    }
}

/// The findings about references whose targets are not among the present ones.
pub open spec fn missing_findings(
    refs: Seq<ReferenceModel>,
    dir: Seq<char>,
    present: Seq<Seq<char>>,
) -> Seq<FindingModel>
    decreases refs.len(),
{
    if refs.len() == 0 {
        Seq::empty()
    } else if among(present, refs.last().0) {
        missing_findings(refs.drop_last(), dir, present)
    } else {
        missing_findings(refs.drop_last(), dir, present).push(missing_finding(dir, refs.last()))
    }
}

/// The paths that the resolving references lead to.
pub open spec fn referenced_paths(refs: Seq<ReferenceModel>, present: Seq<Seq<char>>) -> Seq<
    Seq<char>,
>
    decreases refs.len(),
{
    if refs.len() == 0 {
        Seq::empty()
    } else if among(present, refs.last().0) {
        referenced_paths(refs.drop_last(), present).push(normal_of(skip_dots(refs.last().0)))
    } else {
        referenced_paths(refs.drop_last(), present)
    }
}

/// Is a path among some, apart from the case of ASCII letters?
pub open spec fn among_ignoring_case(paths: Seq<Seq<char>>, path: Seq<char>) -> bool {
    exists|i: int| 0 <= i < paths.len() && same_ignoring_case(#[trigger] paths[i], path)
}

/// The entries of one directory.
pub open spec fn entries_under(entries: Seq<Seq<char>>, prefix: Seq<char>) -> Seq<Seq<char>>
    decreases entries.len(),
{
    if entries.len() == 0 {
        Seq::empty()
    } else if prefix.is_prefix_of(entries.last()) {
        entries_under(entries.drop_last(), prefix).push(entries.last())
    } else {
        entries_under(entries.drop_last(), prefix)
    }
}

/// The finding about a file that nothing points at.
pub open spec fn orphan_finding(entry: Seq<char>) -> FindingModel {
    FindingModel {
        severity: Severity::Warning,
        rule: "skill.reference.orphan"@,
        message: "`"@ + entry + "` is not referenced from this skill."@,
        line: None,
        file: Some(entry),
        hint: Some("Link it, or delete it."@),
    }
}

/// The findings about the files of one directory that nothing points at.
pub open spec fn orphans_in(
    entries: Seq<Seq<char>>,
    referenced: Seq<Seq<char>>,
    self_name: Seq<char>,
) -> Seq<FindingModel>
    decreases entries.len(),
{
    if entries.len() == 0 {
        Seq::empty()
    } else {
        let before = orphans_in(entries.drop_last(), referenced, self_name);
        let entry = entries.last();
        if lower_of(entry) == self_name || among_ignoring_case(referenced, entry) {
            before
        } else {
            before.push(orphan_finding(entry))
        }
    }
}

/// The findings about files in the first `n` disclosure directories that
/// nothing points at. A skill's files should all be reachable from it.
pub open spec fn orphan_findings(
    entries: Seq<Seq<char>>,
    referenced: Seq<Seq<char>>,
    self_name: Seq<char>,
    n: int,
) -> Seq<FindingModel>
    decreases n,
{
    if n <= 0 {
        Seq::empty()
    } else {
        orphan_findings(entries, referenced, self_name, n - 1) + orphans_in(
            sorted_texts(entries_under(entries, disclosure_dir(n - 1) + "/"@)),
            referenced,
            self_name,
        )
    }
}

/// The findings about a skill's references and its unreferenced files.
pub open spec fn reference_findings(
    path: Seq<char>,
    dir: Seq<char>,
    content: Seq<char>,
    present: Seq<Seq<char>>,
    entries: Seq<Seq<char>>,
) -> Seq<FindingModel> {
    let refs = references_of(content);
    missing_findings(refs, dir, present) + orphan_findings(
        entries,
        referenced_paths(refs, present),
        lower_of(after_last(path, '/')),
        5,
    )
}

fn is_referenced(paths: &Vec<String>, path: &str) -> (out: bool)
    ensures
        out == among_ignoring_case(views(paths@), path@),
{
    let mut i: usize = 0;
    while i < paths.len()
        invariant
            i <= paths.len(),
            forall|k: int| 0 <= k < i ==> !same_ignoring_case(#[trigger] views(paths@)[k], path@),
        decreases paths.len() - i,
    {
        if equal_ignoring_case(paths[i].as_str(), path) {
            assert(same_ignoring_case(views(paths@)[i as int], path@));
            return true;
        }
        assert(!same_ignoring_case(views(paths@)[i as int], path@));
        i += 1;
    }
    false
}

fn under_prefix(entries: &Vec<String>, prefix: &str) -> (out: Vec<String>)
    ensures
        views(out@) == entries_under(views(entries@), prefix@),
{
    let ghost es = views(entries@);
    let mut out: Vec<String> = Vec::new();
    let mut i: usize = 0;
    assert(views(out@) =~= entries_under(es.take(0), prefix@));
    while i < entries.len()
        invariant
            es == views(entries@),
            i <= entries.len(),
            views(out@) == entries_under(es.take(i as int), prefix@),
        decreases entries.len() - i,
    {
        assert(es.take(i + 1).drop_last() =~= es.take(i as int));
        if starts_with(&chars_of(entries[i].as_str()), prefix) {
            push_text(&mut out, entries[i].clone());
        }
        i += 1;
    }
    assert(es.take(i as int) =~= es);
    out
}

fn check_references(
    dir: &str,
    refs: &Vec<Reference>,
    present: &Vec<String>,
    out: &mut Vec<Finding>,
) -> (referenced: Vec<String>)
    ensures
        finding_models(final(out)@) == finding_models(old(out)@) + missing_findings(
            reference_models(refs@),
            dir@,
            views(present@),
        ),
        views(referenced@) == referenced_paths(reference_models(refs@), views(present@)),
{
    let ghost before = finding_models(out@);
    let ghost rs = reference_models(refs@);
    let ghost ps = views(present@);
    let mut referenced: Vec<String> = Vec::new();
    let mut i: usize = 0;
    assert(before + missing_findings(rs.take(0), dir@, ps) =~= before);
    assert(views(referenced@) =~= referenced_paths(rs.take(0), ps));
    while i < refs.len()
        invariant
            rs == reference_models(refs@),
            ps == views(present@),
            i <= refs.len(),
            finding_models(out@) == before + missing_findings(rs.take(i as int), dir@, ps),
            views(referenced@) == referenced_paths(rs.take(i as int), ps),
        decreases refs.len() - i,
    {
        assert(rs.take(i + 1).drop_last() =~= rs.take(i as int));
        assert(rs[i as int] == refs@[i as int]@);
        let target = refs[i].target.as_str();
        let relative = string_of(without_dots(&chars_of(target)));
        if is_among(present, target) {
            push_text(&mut referenced, normalise_rel(relative.as_str()));
        } else {
            let mut message = "`".to_owned();
            message.append(target);
            message.append("` does not resolve.");
            let mut hint = "Expected ".to_owned();
            hint.append(path_join(dir, relative.as_str()).as_str());
            push_finding(
                out,
                Finding::error("skill.reference.missing", message.as_str()).at(
                    refs[i].line,
                ).with_hint(hint.as_str()),
            );
        }
        assert(finding_models(out@) =~= before + missing_findings(rs.take(i + 1), dir@, ps));
        i += 1;
    }
    assert(rs.take(i as int) =~= rs);
    referenced
}

fn check_orphans(
    entries: &Vec<String>,
    referenced: &Vec<String>,
    self_name: &str,
    out: &mut Vec<Finding>,
)
    ensures
        finding_models(final(out)@) == finding_models(old(out)@) + orphans_in(
            views(entries@),
            views(referenced@),
            self_name@,
        ),
{
    let ghost before = finding_models(out@);
    let ghost es = views(entries@);
    let ghost rs = views(referenced@);
    let mut i: usize = 0;
    assert(before + orphans_in(es.take(0), rs, self_name@) =~= before);
    while i < entries.len()
        invariant
            es == views(entries@),
            rs == views(referenced@),
            i <= entries.len(),
            finding_models(out@) == before + orphans_in(es.take(i as int), rs, self_name@),
        decreases entries.len() - i,
    {
        assert(es.take(i + 1).drop_last() =~= es.take(i as int));
        let entry = entries[i].as_str();
        if !same_str(lowercase(entry).as_str(), self_name) && !is_referenced(referenced, entry) {
            let mut message = "`".to_owned();
            message.append(entry);
            message.append("` is not referenced from this skill.");
            push_finding(
                out,
                Finding::warning("skill.reference.orphan", message.as_str()).in_file(
                    entry,
                ).with_hint("Link it, or delete it."),
            );
        }
        assert(finding_models(out@) =~= before + orphans_in(es.take(i + 1), rs, self_name@));
        i += 1;
    }
    assert(es.take(i as int) =~= es);
}

/// Checks that every reference resolves and every file is referred to.
pub fn validate_references(
    path: &str,
    dir: &str,
    content: &str,
    tree: &SkillTree,
    out: &mut Vec<Finding>,
)
    ensures
        finding_models(final(out)@) == finding_models(old(out)@) + reference_findings(
            path@,
            dir@,
            content@,
            views(tree.present@),
            views(tree.entries@),
        ),
{
    let ghost before = finding_models(out@);
    let refs = collect_references(content);
    let referenced = check_references(dir, &refs, &tree.present, out);
    let ghost head = finding_models(out@);
    let self_name = lowercase(tail_after(path, '/').as_str());
    let dirs = disclosure_dirs();
    let ghost es = views(tree.entries@);
    let ghost rs = views(referenced@);
    let mut i: usize = 0;
    assert(views(dirs@).len() == dirs@.len());
    assert(head + orphan_findings(es, rs, self_name@, 0) =~= head);
    while i < dirs.len()
        invariant
            dirs@.len() == 5,
            views(dirs@) == Seq::new(5, |i: int| disclosure_dir(i)),
            es == views(tree.entries@),
            rs == views(referenced@),
            i <= dirs.len(),
            finding_models(out@) == head + orphan_findings(es, rs, self_name@, i as int),
        decreases dirs.len() - i,
    {
        assert(views(dirs@)[i as int] == disclosure_dir(i as int));
        let mut prefix = dirs[i].clone();
        prefix.append("/");
        let entries = sort_texts(under_prefix(&tree.entries, prefix.as_str()));
        check_orphans(&entries, &referenced, self_name.as_str(), out);
        assert(finding_models(out@) =~= head + orphan_findings(es, rs, self_name@, i + 1));
        i += 1;
    }
    assert(finding_models(out@) =~= before + reference_findings(
        path@,
        dir@,
        content@,
        views(tree.present@),
        es,
    ));
}

// ---------------------------------------------------------------------------
// The command inventory
// ---------------------------------------------------------------------------

/// `s` without every `.md` at its end.
pub open spec fn without_md(s: Seq<char>) -> Seq<char>
    decreases s.len(),
{
    if s.len() >= 3 && s[s.len() - 3] == '.' && s[s.len() - 2] == 'm' && s[s.len() - 1] == 'd' {
        without_md(s.take(s.len() - 3))
    } else {
        s
    }
}

/// The first cell of a table's row, without its decoration.
pub open spec fn first_cell(row: Seq<char>) -> Seq<char> {
    let inner = trim_back_of(trim_front_of(row, '|'), '|');
    let cell = trim_of(inner.take(index_of(inner, '|')));
    let bare = trim_of(trim_back_of(trim_front_of(cell, '`'), '`'));
    let named = words_of(trim_front_of(bare, '/'));
    if named.len() > 0 {
        without_md(named[0])
    } else {
        Seq::empty()
    }
}

/// The commands that the rows from line `j` on list, with their line numbers.
pub open spec fn table_rows(lines: Seq<Seq<char>>, j: int) -> Seq<(Seq<char>, int)>
    decreases lines.len() - j,
{
    if j < 0 || j >= lines.len() || !first_is(trim_of(lines[j]), '|') {
        Seq::empty()
    } else {
        let cell = first_cell(trim_of(lines[j]));
        if cell.len() > 0 {
            seq![(cell, j + 1)] + table_rows(lines, j + 1)
        } else {
            table_rows(lines, j + 1)
        }
    }
}

/// Is line `i` the header of a table of commands?
pub open spec fn table_header(lines: Seq<Seq<char>>, i: int) -> bool {
    &&& first_is(trim_of(lines[i]), '|')
    &&& occurs(lower_of(trim_of(lines[i])), "command"@)
    &&& i + 1 < lines.len()
    &&& first_is(trim_of(lines[i + 1]), '|')
    &&& occurs(trim_of(lines[i + 1]), "---"@)
}

/// The first table of commands at or behind line `i`: the line number of its
/// header, and what it lists.
pub open spec fn table_from(lines: Seq<Seq<char>>, i: int) -> Option<
    (int, Seq<(Seq<char>, int)>),
>
    decreases lines.len() - i,
{
    if i < 0 || i >= lines.len() {
        None
    } else if table_header(lines, i) {
        Some((i + 1, table_rows(lines, i + 2)))
    } else {
        table_from(lines, i + 1)
    }
}

/// The table of commands of a document.
pub open spec fn table_of(content: Seq<char>) -> Option<(int, Seq<(Seq<char>, int)>)> {
    table_from(text_lines(content), 0)
}

/// The names that a table lists.
pub open spec fn listed_names(listed: Seq<(Seq<char>, int)>) -> Seq<Seq<char>> {
    Seq::new(listed.len(), |i: int| listed[i].0)
}

/// The findings about commands that are listed and not there.
pub open spec fn ghost_findings(
    listed: Seq<(Seq<char>, int)>,
    on_disk: Seq<Seq<char>>,
) -> Seq<FindingModel>
    decreases listed.len(),
{
    if listed.len() == 0 {
        Seq::empty()
    } else {
        let before = ghost_findings(listed.drop_last(), on_disk);
        if among_ignoring_case(on_disk, listed.last().0) {
            before
        } else {
            before.push(
                finding_at(
                    Severity::Error,
                    "skill.commands.table_ghost"@,
                    "The inventory table lists `"@ + listed.last().0
                        + "`, but `commands/` has no such file."@,
                    listed.last().1,
                ),
            )
        }
    }
}

/// The findings about commands that are there and not listed.
pub open spec fn unlisted_findings(
    on_disk: Seq<Seq<char>>,
    listed: Seq<Seq<char>>,
    table_line: int,
) -> Seq<FindingModel>
    decreases on_disk.len(),
{
    if on_disk.len() == 0 {
        Seq::empty()
    } else {
        let before = unlisted_findings(on_disk.drop_last(), listed, table_line);
        if among_ignoring_case(listed, on_disk.last()) {
            before
        } else {
            before.push(
                finding_at(
                    Severity::Warning,
                    "skill.commands.table_missing"@,
                    "`commands/"@ + on_disk.last() + "` exists but is not in the inventory table."@,
                    table_line,
                ),
            )
        }
    }
}

/// The findings about the command inventory.
pub open spec fn inventory_findings(
    content: Seq<char>,
    commands: Option<Seq<Seq<char>>>,
) -> Seq<FindingModel> {
    match commands {
        None => Seq::empty(),
        Some(stems) => {
            let on_disk = sorted_texts(stems);
            match table_of(content) {
                None => if on_disk.len() > 0 {
                    seq![
                        plain_finding(
                            Severity::Info,
                            "skill.commands.no_table"@,
                            "`commands/` holds "@ + decimal_of(on_disk.len())
                                + " file(s) but the skill has no command inventory table."@,
                        ),
                    ]
                } else {
                    Seq::empty()
                },
                Some((line, listed)) => ghost_findings(listed, on_disk) + unlisted_findings(
                    on_disk,
                    listed_names(listed),
                    line,
                ),
            }
        },
    }
}

fn strip_md(s: &[char]) -> (out: &[char])
    ensures
        out@ == without_md(s@),
{
    let mut rest: &[char] = s;
    while rest.len() >= 3 && rest[rest.len() - 3] == '.' && rest[rest.len() - 2] == 'm'
        && rest[rest.len() - 1] == 'd'
        invariant
            without_md(rest@) == without_md(s@),
        decreases rest.len(),
    {
        assert(rest@.subrange(0, rest@.len() - 3) =~= rest@.take(rest@.len() - 3));
        rest = part(rest, 0, rest.len() - 3);
    }
    rest
}

fn cell_of(row: &[char]) -> (out: String)
    ensures
        out@ == first_cell(row@),
{
    let inner = trim_back(trim_front(row, '|'), '|');
    let bar: usize = position(inner, '|');
    let head = part(inner, 0, bar);
    assert(head@ =~= inner@.take(bar as int));
    let cell = trim(head);
    let bare = trim(trim_back(trim_front(cell, '`'), '`'));
    let named = words(trim_front(bare, '/'));
    assert(views(named@).len() == named@.len());
    if named.len() > 0 {
        assert(views(named@)[0] == named@[0]@);
        string_of(strip_md(&chars_of(named[0].as_str())))
    } else {
        String::new()
    }
}

/// A command that a table lists, with its line number.
#[derive(Debug)]
pub struct Listed {
    pub name: String,
    pub line: usize,
}

pub open spec fn listed_models(l: Seq<Listed>) -> Seq<(Seq<char>, int)> {
    Seq::new(l.len(), |i: int| (l[i].name@, l[i].line as int))
}

fn read_rows(all: &Vec<String>, from: usize) -> (out: Vec<Listed>)
    requires
        from <= all@.len(),
    ensures
        listed_models(out@) == table_rows(views(all@), from as int),
{
    let ghost ls = views(all@);
    let mut out: Vec<Listed> = Vec::new();
    let mut j: usize = from;
    assert(listed_models(out@) + table_rows(ls, from as int) =~= table_rows(ls, from as int));
    while j < all.len()
        invariant
            ls == views(all@),
            from <= j <= all.len(),
            listed_models(out@) + table_rows(ls, j as int) == table_rows(ls, from as int),
        decreases all.len() - j,
    {
        let ghost before = listed_models(out@);
        let chars = chars_of(all[j].as_str());
        let row = trim(&chars);
        assert(chars@ == ls[j as int]);
        if !(row.len() > 0 && row[0] == '|') {
            assert(before + Seq::<(Seq<char>, int)>::empty() =~= before);
            return out;
        }
        let cell = cell_of(row);
        if chars_of(cell.as_str()).len() > 0 {
            let ghost entry = (cell@, j + 1);
            out.push(Listed { name: cell, line: j + 1 });
            assert(listed_models(out@) =~= before.push(entry));
            assert(before.push(entry) + table_rows(ls, j + 1) =~= before + (seq![entry]
                + table_rows(ls, j + 1)));
        }
        j += 1;
    }
    assert(listed_models(out@) + table_rows(ls, j as int) =~= listed_models(out@));
    out
}

/// Finds a markdown table whose header mentions "command" and returns its
/// first-column entries.
pub fn find_command_table(content: &str) -> (out: Option<(usize, Vec<Listed>)>)
    ensures
        match out {
            Some((line, listed)) => table_of(content@) == Some((line as int, listed_models(listed@))),
            None => table_of(content@) is None,
        },
{
    let all = lines(&chars_of(content));
    let ghost ls = text_lines(content@);
    let wanted = chars_of("command");
    let rule = chars_of("---");
    let mut i: usize = 0;
    while i < all.len()
        invariant
            views(all@) == ls,
            ls == text_lines(content@),
            wanted@ == "command"@,
            rule@ == "---"@,
            i <= all.len(),
            table_from(ls, 0) == table_from(ls, i as int),
        decreases all.len() - i,
    {
        let chars = chars_of(all[i].as_str());
        let t = trim(&chars);
        assert(chars@ == ls[i as int]);
        if t.len() > 0 && t[0] == '|' && i + 1 < all.len() {
            let lower = lowercase(string_of(t).as_str());
            let below = chars_of(all[i + 1].as_str());
            let separator = trim(&below);
            assert(below@ == ls[i + 1]);
            if contains(&chars_of(lower.as_str()), &wanted) && separator.len() > 0 && separator[0]
                == '|' && contains(separator, &rule) {
                let listed = read_rows(&all, i + 2);
                return Some((i + 1, listed));
            }
        }
        i += 1;
    }
    None
}

fn check_listed(listed: &Vec<Listed>, on_disk: &Vec<String>, out: &mut Vec<Finding>)
    ensures
        finding_models(final(out)@) == finding_models(old(out)@) + ghost_findings(
            listed_models(listed@),
            views(on_disk@),
        ),
{
    let ghost before = finding_models(out@);
    let ghost ls = listed_models(listed@);
    let ghost ds = views(on_disk@);
    let mut i: usize = 0;
    assert(before + ghost_findings(ls.take(0), ds) =~= before);
    while i < listed.len()
        invariant
            ls == listed_models(listed@),
            ds == views(on_disk@),
            i <= listed.len(),
            finding_models(out@) == before + ghost_findings(ls.take(i as int), ds),
        decreases listed.len() - i,
    {
        assert(ls.take(i + 1).drop_last() =~= ls.take(i as int));
        let name = listed[i].name.as_str();
        if !is_referenced(on_disk, name) {
            let mut message = "The inventory table lists `".to_owned();
            message.append(name);
            message.append("`, but `commands/` has no such file.");
            push_finding(
                out,
                Finding::error("skill.commands.table_ghost", message.as_str()).at(listed[i].line),
            );
        }
        assert(finding_models(out@) =~= before + ghost_findings(ls.take(i + 1), ds));
        i += 1;
    }
    assert(ls.take(i as int) =~= ls);
}

fn check_unlisted(
    on_disk: &Vec<String>,
    names: &Vec<String>,
    table_line: usize,
    out: &mut Vec<Finding>,
)
    ensures
        finding_models(final(out)@) == finding_models(old(out)@) + unlisted_findings(
            views(on_disk@),
            views(names@),
            table_line as int,
        ),
{
    let ghost before = finding_models(out@);
    let ghost ns = views(names@);
    let ghost ds = views(on_disk@);
    let mut i: usize = 0;
    assert(before + unlisted_findings(ds.take(0), ns, table_line as int) =~= before);
    while i < on_disk.len()
        invariant
            ns == views(names@),
            ds == views(on_disk@),
            i <= on_disk.len(),
            finding_models(out@) == before + unlisted_findings(
                ds.take(i as int),
                ns,
                table_line as int,
            ),
        decreases on_disk.len() - i,
    {
        assert(ds.take(i + 1).drop_last() =~= ds.take(i as int));
        let name = on_disk[i].as_str();
        if !is_referenced(names, name) {
            let mut message = "`commands/".to_owned();
            message.append(name);
            message.append("` exists but is not in the inventory table.");
            push_finding(
                out,
                Finding::warning("skill.commands.table_missing", message.as_str()).at(table_line),
            );
        }
        assert(finding_models(out@) =~= before + unlisted_findings(
            ds.take(i + 1),
            ns,
            table_line as int,
        ));
        i += 1;
    }
    assert(ds.take(i as int) =~= ds);
}

pub open spec fn opt_views(v: Option<Vec<String>>) -> Option<Seq<Seq<char>>> {
    match v {
        Some(v) => Some(views(v@)),
        None => None,
    }
}

fn copies(parts: &Vec<String>) -> (out: Vec<String>)
    ensures
        views(out@) == views(parts@),
{
    let mut out: Vec<String> = Vec::new();
    crate::diff::apply::extend_lines(&mut out, parts);
    assert(views(out@) =~= views(parts@));
    out
}

/// Cross-checks the command inventory table against the contents of
/// `commands/`. A table that has drifted from the directory is the single most
/// common way a skill lies to its reader.
pub fn validate_command_inventory(
    content: &str,
    commands: &Option<Vec<String>>,
    out: &mut Vec<Finding>,
)
    ensures
        finding_models(final(out)@) == finding_models(old(out)@) + inventory_findings(
            content@,
            opt_views(*commands),
        ),
{
    let ghost before = finding_models(out@);
    match commands {
        None => {
            assert(finding_models(out@) =~= before + inventory_findings(content@, None));
        },
        Some(stems) => {
            let on_disk = sort_texts(copies(stems));
            assert(views(on_disk@).len() == on_disk@.len());
            match find_command_table(content) {
                None => {
                    if on_disk.len() > 0 {
                        let mut message = "`commands/` holds ".to_owned();
                        message.append(decimal(on_disk.len() as u64).as_str());
                        message.append(" file(s) but the skill has no command inventory table.");
                        push_finding(
                            out,
                            Finding::info("skill.commands.no_table", message.as_str()),
                        );
                    }
                },
                Some((table_line, listed)) => {
                    let mut names: Vec<String> = Vec::new();
                    let ghost goal = listed_names(listed_models(listed@));
                    let mut i: usize = 0;
                    while i < listed.len()
                        invariant
                            goal == listed_names(listed_models(listed@)),
                            i <= listed.len(),
                            views(names@) == goal.take(i as int),
                        decreases listed.len() - i,
                    {
                        push_text(&mut names, listed[i].name.clone());
                        assert(goal.take(i + 1) =~= goal.take(i as int).push(goal[i as int]));
                        i += 1;
                    }
                    assert(goal.take(i as int) =~= goal);
                    check_listed(&listed, &on_disk, out);
                    check_unlisted(&on_disk, &names, table_line, out);
                },
            }
            assert(finding_models(out@) =~= before + inventory_findings(
                content@,
                Some(views(stems@)),
            ));
        },
    }
}

// ---------------------------------------------------------------------------
// Laws
// ---------------------------------------------------------------------------

/// Does a list of findings hold one of a rule about a file?
pub open spec fn reports_file(
    found: Seq<FindingModel>,
    rule: Seq<char>,
    severity: Severity,
    file: Seq<char>,
) -> bool {
    exists|i: int|
        0 <= i < found.len() && (#[trigger] found[i]).rule == rule && found[i].file == Some(file)
            && found[i].severity == severity
}

proof fn lemma_missing_findings(
    refs: Seq<ReferenceModel>,
    dir: Seq<char>,
    present: Seq<Seq<char>>,
    gone: spec_fn(ReferenceModel) -> bool,
)
    requires
        forall|r: ReferenceModel| #[trigger] gone(r) == !among(present, r.0),
    ensures
        missing_findings(refs, dir, present).len() == refs.filter(gone).len(),
        forall|i: int|
            0 <= i < refs.filter(gone).len() ==> #[trigger] missing_findings(
                refs,
                dir,
                present,
            )[i] == missing_finding(dir, refs.filter(gone)[i]),
    decreases refs.len(),
{
    reveal(Seq::filter);
    if refs.len() > 0 {
        lemma_missing_findings(refs.drop_last(), dir, present, gone);
    }
}

proof fn lemma_tree_rules_differ()
    ensures
        "skill.reference.missing"@ != "skill.reference.orphan"@,
        "skill.commands.table_ghost"@ != "skill.commands.table_missing"@,
{
    reveal_strlit("skill.reference.missing");
    reveal_strlit("skill.reference.orphan");
    reveal_strlit("skill.commands.table_ghost");
    reveal_strlit("skill.commands.table_missing");
    assert("skill.reference.missing"@[16] != "skill.reference.orphan"@[16]);
    assert("skill.commands.table_ghost"@[21] != "skill.commands.table_missing"@[21]);
}

/// Is a finding about one of some entries that nothing points at?
spec fn about_orphan(
    f: FindingModel,
    entries: Seq<Seq<char>>,
    referenced: Seq<Seq<char>>,
    self_name: Seq<char>,
) -> bool {
    exists|e: Seq<char>| #[trigger]
        entries.contains(e) && lower_of(e) != self_name && !among_ignoring_case(referenced, e) && f
            == orphan_finding(e)
}

proof fn lemma_orphans_in(
    entries: Seq<Seq<char>>,
    referenced: Seq<Seq<char>>,
    self_name: Seq<char>,
)
    ensures
        forall|i: int|
            0 <= i < orphans_in(entries, referenced, self_name).len() ==> about_orphan(
                #[trigger] orphans_in(entries, referenced, self_name)[i],
                entries,
                referenced,
                self_name,
            ),
        forall|e: Seq<char>| #[trigger]
            entries.contains(e) && lower_of(e) != self_name && !among_ignoring_case(referenced, e)
                ==> orphans_in(entries, referenced, self_name).contains(orphan_finding(e)),
    decreases entries.len(),
{
    if entries.len() > 0 {
        let d = entries.drop_last();
        let last = entries.last();
        lemma_orphans_in(d, referenced, self_name);
        let before = orphans_in(d, referenced, self_name);
        let out = orphans_in(entries, referenced, self_name);
        assert(entries[entries.len() - 1] == last);
        assert forall|e: Seq<char>| entries.contains(e) <==> #[trigger] d.contains(e) || e == last by {
            if entries.contains(e) && e != last {
                let k = choose|k: int| 0 <= k < entries.len() && entries[k] == e;
                assert(d[k] == e);
            }
            if d.contains(e) {
                let k = choose|k: int| 0 <= k < d.len() && d[k] == e;
                assert(entries[k] == e);
            }
        }
        assert forall|i: int| 0 <= i < out.len() implies about_orphan(
            #[trigger] out[i],
            entries,
            referenced,
            self_name,
        ) by {
            if i < before.len() {
                assert(out[i] == before[i]);
                assert(about_orphan(before[i], d, referenced, self_name));
                let e = choose|e: Seq<char>| #[trigger]
                    d.contains(e) && lower_of(e) != self_name && !among_ignoring_case(
                        referenced,
                        e,
                    ) && before[i] == orphan_finding(e);
                assert(entries.contains(e));
            } else {
                assert(entries.contains(last));
            }
        }
        assert forall|e: Seq<char>| #[trigger]
            entries.contains(e) && lower_of(e) != self_name && !among_ignoring_case(
                referenced,
                e,
            ) implies out.contains(orphan_finding(e)) by {
            if d.contains(e) {
                assert(before.contains(orphan_finding(e)));
                let k = choose|k: int| 0 <= k < before.len() && before[k] == orphan_finding(e);
                assert(out[k] == orphan_finding(e));
            } else {
                assert(out[before.len() as int] == orphan_finding(e));
            }
        }
    }
}

proof fn lemma_entries_under(entries: Seq<Seq<char>>, prefix: Seq<char>, e: Seq<char>)
    ensures
        entries_under(entries, prefix).contains(e) <==> entries.contains(e)
            && prefix.is_prefix_of(e),
    decreases entries.len(),
{
    if entries.len() > 0 {
        let d = entries.drop_last();
        let last = entries.last();
        lemma_entries_under(d, prefix, e);
        let before = entries_under(d, prefix);
        let out = entries_under(entries, prefix);
        assert(entries[entries.len() - 1] == last);
        assert(entries.contains(e) <==> d.contains(e) || e == last) by {
            if entries.contains(e) && e != last {
                let k = choose|k: int| 0 <= k < entries.len() && entries[k] == e;
                assert(d[k] == e);
            }
            if d.contains(e) {
                let k = choose|k: int| 0 <= k < d.len() && d[k] == e;
                assert(entries[k] == e);
            }
        }
        if prefix.is_prefix_of(last) {
            assert(out[before.len() as int] == last);
            if before.contains(e) {
                let k = choose|k: int| 0 <= k < before.len() && before[k] == e;
                assert(out[k] == e);
            }
            if out.contains(e) && e != last {
                let k = choose|k: int| 0 <= k < out.len() && out[k] == e;
                assert(before[k] == e);
            }
        }
    }
}

/// Is an entry a file of one of the first `n` disclosure directories?
pub open spec fn disclosed(e: Seq<char>, n: int) -> bool {
    exists|d: int| 0 <= d < n && (#[trigger] disclosure_dir(d) + "/"@).is_prefix_of(e)
}

proof fn lemma_orphans(
    entries: Seq<Seq<char>>,
    referenced: Seq<Seq<char>>,
    self_name: Seq<char>,
    n: int,
    e: Seq<char>,
)
    requires
        0 <= n,
    ensures
        ({
            let out = orphan_findings(entries, referenced, self_name, n);
            &&& reports_file(out, "skill.reference.orphan"@, Severity::Warning, e)
                <==> entries.contains(e) && disclosed(e, n) && lower_of(e) != self_name
                && !among_ignoring_case(referenced, e)
            &&& forall|i: int|
                0 <= i < out.len() ==> (#[trigger] out[i]).rule == "skill.reference.orphan"@
                    && out[i].severity == Severity::Warning
        }),
    decreases n,
{
    if n > 0 {
        lemma_orphans(entries, referenced, self_name, n - 1, e);
        let prefix = disclosure_dir(n - 1) + "/"@;
        let here = sorted_texts(entries_under(entries, prefix));
        let le = |a: Seq<char>, b: Seq<char>| crate::text::text_le(a, b);
        crate::order::lemma_sorted_same(entries_under(entries, prefix), le);
        assert(here == crate::order::sorted(entries_under(entries, prefix), le));
        lemma_entries_under(entries, prefix, e);
        lemma_orphans_in(here, referenced, self_name);
        let before = orphan_findings(entries, referenced, self_name, n - 1);
        let mine = orphans_in(here, referenced, self_name);
        let out = orphan_findings(entries, referenced, self_name, n);
        assert(out == before + mine);
        assert forall|i: int| 0 <= i < out.len() implies (#[trigger] out[i]).rule
            == "skill.reference.orphan"@ && out[i].severity == Severity::Warning by {
            if i < before.len() {
                assert(out[i] == before[i]);
            } else {
                assert(out[i] == mine[i - before.len()]);
                assert(about_orphan(mine[i - before.len()], here, referenced, self_name));
            }
        }
        assert(disclosed(e, n) <==> disclosed(e, n - 1) || prefix.is_prefix_of(e)) by {
            if prefix.is_prefix_of(e) {
                assert((disclosure_dir(n - 1) + "/"@).is_prefix_of(e));
            }
            if disclosed(e, n - 1) {
                let d = choose|d: int|
                    0 <= d < n - 1 && (#[trigger] disclosure_dir(d) + "/"@).is_prefix_of(e);
                assert((disclosure_dir(d) + "/"@).is_prefix_of(e));
            }
        }
        if reports_file(before, "skill.reference.orphan"@, Severity::Warning, e) {
            let i = choose|i: int|
                0 <= i < before.len() && (#[trigger] before[i]).rule == "skill.reference.orphan"@
                    && before[i].file == Some(e) && before[i].severity == Severity::Warning;
            assert(out[i] == before[i]);
        }
        if here.contains(e) && lower_of(e) != self_name && !among_ignoring_case(referenced, e) {
            assert(mine.contains(orphan_finding(e)));
            let k = choose|k: int| 0 <= k < mine.len() && mine[k] == orphan_finding(e);
            assert(out[before.len() + k] == orphan_finding(e));
        }
        if reports_file(out, "skill.reference.orphan"@, Severity::Warning, e) {
            let i = choose|i: int|
                0 <= i < out.len() && (#[trigger] out[i]).rule == "skill.reference.orphan"@
                    && out[i].file == Some(e) && out[i].severity == Severity::Warning;
            if i < before.len() {
                assert(before[i] == out[i]);
            } else {
                assert(mine[i - before.len()] == out[i]);
                assert(about_orphan(mine[i - before.len()], here, referenced, self_name));
                let x = choose|x: Seq<char>| #[trigger]
                    here.contains(x) && lower_of(x) != self_name && !among_ignoring_case(
                        referenced,
                        x,
                    ) && mine[i - before.len()] == orphan_finding(x);
                assert(x == e);
            }
        }
    }
}

proof fn lemma_referenced(refs: Seq<ReferenceModel>, present: Seq<Seq<char>>, e: Seq<char>)
    ensures
        among_ignoring_case(referenced_paths(refs, present), e) <==> exists|i: int|
            0 <= i < refs.len() && among(present, (#[trigger] refs[i]).0) && same_ignoring_case(
                normal_of(skip_dots(refs[i].0)),
                e,
            ),
    decreases refs.len(),
{
    if refs.len() > 0 {
        let d = refs.drop_last();
        lemma_referenced(d, present, e);
        let before = referenced_paths(d, present);
        let out = referenced_paths(refs, present);
        assert(refs[refs.len() - 1] == refs.last());
        if among_ignoring_case(before, e) {
            let k = choose|k: int| 0 <= k < before.len() && same_ignoring_case(#[trigger] before[k], e);
            assert(out[k] == before[k]);
            let i = choose|i: int|
                0 <= i < d.len() && among(present, (#[trigger] d[i]).0) && same_ignoring_case(
                    normal_of(skip_dots(d[i].0)),
                    e,
                );
            assert(refs[i] == d[i]);
        }
        if among_ignoring_case(out, e) && !among_ignoring_case(before, e) {
            let k = choose|k: int| 0 <= k < out.len() && same_ignoring_case(#[trigger] out[k], e);
            if k < before.len() {
                assert(before[k] == out[k]);
            }
        }
        if exists|i: int|
            0 <= i < refs.len() && among(present, (#[trigger] refs[i]).0) && same_ignoring_case(
                normal_of(skip_dots(refs[i].0)),
                e,
            ) {
            let i = choose|i: int|
                0 <= i < refs.len() && among(present, (#[trigger] refs[i]).0) && same_ignoring_case(
                    normal_of(skip_dots(refs[i].0)),
                    e,
                );
            if i < d.len() {
                assert(d[i] == refs[i]);
            } else {
                assert(same_ignoring_case(out[before.len() as int], e));
            }
        }
    }
}

/// Every reference of a skill whose target is not there is an error that names
/// it, on its line, in the order of the references, and no other reference is.
pub proof fn law_missing_references_are_errors(
    path: Seq<char>,
    dir: Seq<char>,
    content: Seq<char>,
    present: Seq<Seq<char>>,
    entries: Seq<Seq<char>>,
)
    ensures
        ({
            let found = reference_findings(path, dir, content, present, entries);
            let gone = references_of(content).filter(
                |r: ReferenceModel| !present.contains(r.0),
            );
            let errors = found.filter(|f: FindingModel| f.rule == "skill.reference.missing"@);
            &&& errors.len() == gone.len()
            &&& forall|i: int|
                0 <= i < gone.len() ==> (#[trigger] errors[i]).line == Some(gone[i].1)
                    && errors[i].severity == Severity::Error && occurs(
                    errors[i].message,
                    gone[i].0,
                )
        }),
{
    lemma_tree_rules_differ();
    let refs = references_of(content);
    let lost = |r: ReferenceModel| !present.contains(r.0);
    assert forall|r: ReferenceModel| #[trigger] lost(r) == !among(present, r.0) by {
        lemma_among(present, r.0);
    }
    lemma_missing_findings(refs, dir, present, lost);
    let gone = refs.filter(lost);
    let a = missing_findings(refs, dir, present);
    let b = orphan_findings(
        entries,
        referenced_paths(refs, present),
        lower_of(after_last(path, '/')),
        5,
    );
    lemma_orphans(
        entries,
        referenced_paths(refs, present),
        lower_of(after_last(path, '/')),
        5,
        path,
    );
    let of = |f: FindingModel| f.rule == "skill.reference.missing"@;
    assert forall|i: int| 0 <= i < a.len() implies of(#[trigger] a[i]) by {
        assert(a[i] == missing_finding(dir, gone[i]));
    }
    assert forall|i: int| 0 <= i < b.len() implies !of(#[trigger] b[i]) by {}
    lemma_filter_split(a, b, of);
    let found = reference_findings(path, dir, content, present, entries);
    assert(found == a + b);
    assert(found.filter(of) == a);
    assert forall|i: int| 0 <= i < gone.len() implies (#[trigger] a[i]).line == Some(gone[i].1)
        && a[i].severity == Severity::Error && occurs(a[i].message, gone[i].0) by {
        lemma_names_target(dir, gone[i]);
    }
}

proof fn lemma_names_target(dir: Seq<char>, r: ReferenceModel)
    ensures
        occurs(missing_finding(dir, r).message, r.0),
{
    let m = missing_finding(dir, r).message;
    let n = "`"@.len() as int;
    assert(m.subrange(n, n + r.0.len()) =~= r.0);
    assert(occurs_at(m, r.0, n));
}

proof fn lemma_among(parts: Seq<Seq<char>>, s: Seq<char>)
    ensures
        among(parts, s) == parts.contains(s),
{
    if parts.contains(s) {
        let k = choose|k: int| 0 <= k < parts.len() && parts[k] == s;
        assert(parts[k] == s);
    }
}

/// Every file of the disclosure directories that no reference of a skill leads
/// to is a warning that names it, but for the skill itself, and no other file
/// is. A reference whose target is not there leads nowhere.
pub proof fn law_orphans_are_warnings(
    path: Seq<char>,
    dir: Seq<char>,
    content: Seq<char>,
    present: Seq<Seq<char>>,
    entries: Seq<Seq<char>>,
    entry: Seq<char>,
)
    ensures
        reports_file(
            reference_findings(path, dir, content, present, entries),
            "skill.reference.orphan"@,
            Severity::Warning,
            entry,
        ) <==> (entries.contains(entry) && disclosed(entry, 5) && lower_of(entry) != lower_of(
            after_last(path, '/'),
        ) && !exists|i: int|
            0 <= i < references_of(content).len() && among(
                present,
                (#[trigger] references_of(content)[i]).0,
            ) && same_ignoring_case(normal_of(skip_dots(references_of(content)[i].0)), entry)),
{
    lemma_tree_rules_differ();
    let rule = "skill.reference.orphan"@;
    let refs = references_of(content);
    let a = missing_findings(refs, dir, present);
    let self_name = lower_of(after_last(path, '/'));
    let referenced = referenced_paths(refs, present);
    let b = orphan_findings(entries, referenced, self_name, 5);
    lemma_orphans(entries, referenced, self_name, 5, entry);
    lemma_referenced(refs, present, entry);
    let lost = |r: ReferenceModel| !among(present, r.0);
    lemma_missing_findings(refs, dir, present, lost);
    let found = reference_findings(path, dir, content, present, entries);
    assert(found == a + b);
    if reports_file(b, rule, Severity::Warning, entry) {
        let i = choose|i: int|
            0 <= i < b.len() && (#[trigger] b[i]).rule == rule && b[i].file == Some(entry)
                && b[i].severity == Severity::Warning;
        assert(found[a.len() + i] == b[i]);
    }
    if reports_file(found, rule, Severity::Warning, entry) {
        let i = choose|i: int|
            0 <= i < found.len() && (#[trigger] found[i]).rule == rule && found[i].file == Some(
                entry,
            ) && found[i].severity == Severity::Warning;
        if i < a.len() {
            assert(found[i] == a[i]);
            assert(a[i] == missing_finding(dir, refs.filter(lost)[i]));
        } else {
            assert(found[i] == b[i - a.len()]);
        }
    }
}

/// A list of which the front is kept and the rest left out is its front.
proof fn lemma_filter_split<T>(a: Seq<T>, b: Seq<T>, p: spec_fn(T) -> bool)
    requires
        forall|i: int| 0 <= i < a.len() ==> p(#[trigger] a[i]),
        forall|i: int| 0 <= i < b.len() ==> !p(#[trigger] b[i]),
    ensures
        (a + b).filter(p) == a,
    decreases a.len() + b.len(),
{
    reveal(Seq::filter);
    if b.len() > 0 {
        let d = b.drop_last();
        assert((a + b).drop_last() =~= a + d);
        assert(!p(b[b.len() - 1]));
        assert forall|i: int| 0 <= i < d.len() implies !p(#[trigger] d[i]) by {
            assert(d[i] == b[i]);
        }
        lemma_filter_split(a, d, p);
    } else {
        assert(a + b =~= a);
        if a.len() > 0 {
            let d = a.drop_last();
            assert(p(a[a.len() - 1]));
            assert forall|i: int| 0 <= i < d.len() implies p(#[trigger] d[i]) by {
                assert(d[i] == a[i]);
            }
            lemma_filter_split(d, Seq::<T>::empty(), p);
            assert(d + Seq::<T>::empty() =~= d);
            assert(a =~= d.push(a.last()));
        } else {
            assert((a + b).filter(p) =~= a);
        }
    }
}

proof fn lemma_ghosts(
    listed: Seq<(Seq<char>, int)>,
    on_disk: Seq<Seq<char>>,
    gone: spec_fn((Seq<char>, int)) -> bool,
)
    requires
        forall|c: (Seq<char>, int)| #[trigger] gone(c) == !among_ignoring_case(on_disk, c.0),
    ensures
        ({
            let out = ghost_findings(listed, on_disk);
            let lost = listed.filter(gone);
            &&& out.len() == lost.len()
            &&& forall|i: int|
                0 <= i < lost.len() ==> (#[trigger] out[i]).line == Some(lost[i].1)
                    && out[i].severity == Severity::Error && out[i].rule
                    == "skill.commands.table_ghost"@
        }),
    decreases listed.len(),
{
    reveal(Seq::filter);
    if listed.len() > 0 {
        lemma_ghosts(listed.drop_last(), on_disk, gone);
    }
}

proof fn lemma_unlisted(
    on_disk: Seq<Seq<char>>,
    listed: Seq<Seq<char>>,
    line: int,
    extra: spec_fn(Seq<char>) -> bool,
)
    requires
        forall|c: Seq<char>| #[trigger] extra(c) == !among_ignoring_case(listed, c),
    ensures
        ({
            let out = unlisted_findings(on_disk, listed, line);
            &&& out.len() == on_disk.filter(extra).len()
            &&& forall|i: int|
                0 <= i < out.len() ==> (#[trigger] out[i]).line == Some(line) && out[i].severity
                    == Severity::Warning && out[i].rule == "skill.commands.table_missing"@
        }),
    decreases on_disk.len(),
{
    reveal(Seq::filter);
    if on_disk.len() > 0 {
        lemma_unlisted(on_disk.drop_last(), listed, line, extra);
    }
}

/// The command table and the directory are held against each other: each listed
/// command without a file is an error on its line, each file that is not listed
/// a warning at the table, and nothing else is reported.
pub proof fn law_inventory_is_checked(content: Seq<char>, stems: Seq<Seq<char>>)
    requires
        table_of(content) is Some,
    ensures
        ({
            let (line, rows) = table_of(content)->0;
            let found = inventory_findings(content, Some(stems));
            let on_disk = sorted_texts(stems);
            let gone = rows.filter(|c: (Seq<char>, int)| !among_ignoring_case(on_disk, c.0));
            let extra = on_disk.filter(
                |s: Seq<char>|
                    !exists|i: int|
                        0 <= i < rows.len() && same_ignoring_case((#[trigger] rows[i]).0, s),
            );
            &&& found.len() == gone.len() + extra.len()
            &&& forall|i: int|
                0 <= i < gone.len() ==> (#[trigger] found[i]).severity == Severity::Error
                    && found[i].line == Some(gone[i].1)
            &&& forall|i: int|
                gone.len() <= i < found.len() ==> (#[trigger] found[i]).severity
                    == Severity::Warning && found[i].line == Some(line)
        }),
{
    let (line, rows) = table_of(content)->0;
    let on_disk = sorted_texts(stems);
    let names = listed_names(rows);
    let gone = |c: (Seq<char>, int)| !among_ignoring_case(on_disk, c.0);
    let extra = |s: Seq<char>|
        !exists|i: int| 0 <= i < rows.len() && same_ignoring_case((#[trigger] rows[i]).0, s);
    assert forall|s: Seq<char>| #[trigger] extra(s) == !among_ignoring_case(names, s) by {
        if among_ignoring_case(names, s) {
            let k = choose|k: int| 0 <= k < names.len() && same_ignoring_case(#[trigger] names[k], s);
            assert(rows[k].0 == names[k]);
        }
        if exists|i: int| 0 <= i < rows.len() && same_ignoring_case((#[trigger] rows[i]).0, s) {
            let i = choose|i: int| 0 <= i < rows.len() && same_ignoring_case((#[trigger] rows[i]).0, s);
            assert(names[i] == rows[i].0);
        }
    }
    lemma_ghosts(rows, on_disk, gone);
    lemma_unlisted(on_disk, names, line, extra);
    let a = ghost_findings(rows, on_disk);
    let b = unlisted_findings(on_disk, names, line);
    let found = inventory_findings(content, Some(stems));
    assert(found == a + b);
    assert forall|i: int| a.len() <= i < found.len() implies (#[trigger] found[i]).severity
        == Severity::Warning && found[i].line == Some(line) by {
        assert(found[i] == b[i - a.len()]);
    }
}

} // verus!
