//! The self-referential linter. A skill may declare its own forbidden patterns:
//!
//! ```yaml
//! lint:
//!   forbidden: ["#8b5cf6", "font-family: Inter"]
//! ```
//!
//! They are enforced across the skill's own files: a skill's rules apply to
//! itself.

use crate::artifact::finding::{
    finding_models, push_finding, Finding, FindingModel, Severity,
};
use crate::artifact::frontmatter::{find_member, Frontmatter, FrontmatterModel};
use crate::artifact::references::{normal_of, normalise_rel};
use crate::artifact::skill::SkillFile;
use crate::artifact::yaml::member_models;
use crate::json::{get_of, member_of, model, Json, JsonModel};
use crate::text::{
    chars_of, contains, lines, lower_of, lowercase, occurs, opt_view, part, push_text, same_str,
    starts_with, string_of, text_lines, views,
};
use vstd::prelude::*;

verus! {

/// The largest file that is linted, in bytes.
pub const MAX_LINT_BYTES: usize = 2_097_152;

/// Is a file's content linted? Large files and binary ones are not.
pub fn lintable(bytes: &[u8]) -> (out: bool)
    ensures
        out == (bytes@.len() <= MAX_LINT_BYTES && !bytes@.contains(0)),
{
    if bytes.len() > MAX_LINT_BYTES {
        return false;
    }
    let mut i: usize = 0;
    while i < bytes.len()
        invariant
            i <= bytes.len(),
            forall|k: int| 0 <= k < i ==> bytes@[k] != 0,
        decreases bytes.len() - i,
    {
        if bytes[i] == 0 {
            assert(bytes@[i as int] == 0);
            return false;
        }
        i += 1;
    }
    true
}

/// The strings among some values.
pub open spec fn strings_in(items: Seq<JsonModel>) -> Seq<Seq<char>>
    decreases items.len(),
{
    if items.len() == 0 {
        Seq::empty()
    } else {
        match items.last() {
            JsonModel::Text(s) => strings_in(items.drop_last()).push(s),
            _ => strings_in(items.drop_last()),
        }
    }
}

/// The patterns that a `lint` member forbids.
pub open spec fn forbidden_in(lint: JsonModel) -> Seq<Seq<char>> {
    match lint {
        JsonModel::Object(members) => match member_of(members, "forbidden"@) {
            Some(JsonModel::Array(items)) => strings_in(items),
            _ => Seq::empty(),
        },
        JsonModel::Array(items) => strings_in(items),
        _ => Seq::empty(),
    }
}

/// Does a `lint` member ask for the case to matter?
pub open spec fn case_matters(lint: JsonModel) -> bool {
    get_of(lint, "case_sensitive"@) == Some(JsonModel::Bool(true))
}

/// Does a pattern stand in a line?
pub open spec fn hits(line: Seq<char>, pattern: Seq<char>, cased: bool) -> bool {
    if cased {
        occurs(line, pattern)
    } else {
        occurs(lower_of(line), lower_of(pattern))
    }
}

/// The finding about a forbidden pattern.
pub open spec fn forbidden_finding(pattern: Seq<char>, line: int, file: Seq<char>) -> FindingModel {
    FindingModel {
        severity: Severity::Error,
        rule: "skill.lint.forbidden"@,
        message: "`"@ + pattern + "` is forbidden by this skill's own lint rules."@,
        line: Some(line),
        file: Some(file),
        hint: None,
    }
}

/// The findings about one line.
pub open spec fn line_hits(
    line: Seq<char>,
    patterns: Seq<Seq<char>>,
    cased: bool,
    line_no: int,
    file: Seq<char>,
) -> Seq<FindingModel>
    decreases patterns.len(),
{
    if patterns.len() == 0 {
        Seq::empty()
    } else {
        let before = line_hits(line, patterns.drop_last(), cased, line_no, file);
        if hits(line, patterns.last(), cased) {
            before.push(forbidden_finding(patterns.last(), line_no, file))
        } else {
            before
        }
    }
}

/// The findings about some lines behind the first `exempt` ones.
pub open spec fn text_hits(
    lines: Seq<Seq<char>>,
    patterns: Seq<Seq<char>>,
    cased: bool,
    exempt: int,
    file: Seq<char>,
) -> Seq<FindingModel>
    decreases lines.len(),
{
    if lines.len() == 0 {
        Seq::empty()
    } else {
        let before = text_hits(lines.drop_last(), patterns, cased, exempt, file);
        if lines.len() <= exempt {
            before
        } else {
            before + line_hits(lines.last(), patterns, cased, lines.len() as int, file)
        }
    }
}

/// A file's path and its text, if it is one that is linted.
pub type FileModel = (Seq<char>, Option<Seq<char>>);

pub open spec fn file_models(f: Seq<SkillFile>) -> Seq<FileModel> {
    Seq::new(f.len(), |i: int| (f[i].path@, opt_view(f[i].text)))
}

/// A path relative to a directory.
pub open spec fn inside(dir: Seq<char>, path: Seq<char>) -> Seq<char> {
    if dir.len() > 0 && (dir + "/"@).is_prefix_of(path) {
        normal_of(path.skip((dir.len() + 1) as int))
    } else if dir.len() == 0 {
        normal_of(path)
    } else {
        path
    }
}

/// The findings about one file. The declaring file is linted from the text
/// being validated, behind its declaration; the others from their own texts.
pub open spec fn file_hits(
    file: FileModel,
    declaring: Seq<char>,
    content: Seq<char>,
    dir: Seq<char>,
    patterns: Seq<Seq<char>>,
    cased: bool,
    exempt: int,
) -> Seq<FindingModel> {
    if file.0 == declaring {
        text_hits(text_lines(content), patterns, cased, exempt, inside(dir, file.0))
    } else {
        match file.1 {
            Some(text) => text_hits(text_lines(text), patterns, cased, 0, inside(dir, file.0)),
            None => Seq::empty(),
        }
    }
}

/// The findings about some files.
pub open spec fn files_hits(
    files: Seq<FileModel>,
    declaring: Seq<char>,
    content: Seq<char>,
    dir: Seq<char>,
    patterns: Seq<Seq<char>>,
    cased: bool,
    exempt: int,
) -> Seq<FindingModel>
    decreases files.len(),
{
    if files.len() == 0 {
        Seq::empty()
    } else {
        files_hits(files.drop_last(), declaring, content, dir, patterns, cased, exempt) + file_hits(
            files.last(),
            declaring,
            content,
            dir,
            patterns,
            cased,
            exempt,
        )
    }
}

/// Is a file among some?
pub open spec fn has_file(files: Seq<FileModel>, path: Seq<char>) -> bool {
    exists|i: int| 0 <= i < files.len() && (#[trigger] files[i]).0 == path
}

/// The files to lint: those of the tree, and the declaring one, which need not
/// be on disk yet.
pub open spec fn lint_targets(files: Seq<FileModel>, declaring: Seq<char>) -> Seq<FileModel> {
    if has_file(files, declaring) {
        files
    } else {
        files.push((declaring, None))
    }
}

/// How many lines a skill's declaration takes. A rule that forbids a string
/// necessarily holds that string: declaring a pattern is not violating it.
pub open spec fn declaration_end(fm: FrontmatterModel) -> int {
    if fm.present && fm.body_line > 0 {
        fm.body_line - 1
    } else {
        0
    }
}

/// The findings of a skill's own rules.
pub open spec fn lint_findings(
    path: Seq<char>,
    dir: Seq<char>,
    content: Seq<char>,
    fm: FrontmatterModel,
    files: Seq<FileModel>,
) -> Seq<FindingModel> {
    match member_of(fm.data, "lint"@) {
        None => Seq::empty(),
        Some(lint) => if forbidden_in(lint).len() == 0 {
            Seq::empty()
        } else {
            files_hits(
                lint_targets(files, path),
                path,
                content,
                dir,
                forbidden_in(lint),
                case_matters(lint),
                declaration_end(fm),
            )
        },
    }
}

fn read_strings(items: &Vec<Json>) -> (out: Vec<String>)
    ensures
        views(out@) == strings_in(model(Json::Array(*items))->Array_0),
{
    let ghost all = model(Json::Array(*items))->Array_0;
    let mut out: Vec<String> = Vec::new();
    let mut i: usize = 0;
    assert(views(out@) =~= strings_in(all.take(0)));
    while i < items.len()
        invariant
            all == model(Json::Array(*items))->Array_0,
            i <= items.len(),
            views(out@) == strings_in(all.take(i as int)),
        decreases items.len() - i,
    {
        assert(all.take(i + 1).drop_last() =~= all.take(i as int));
        assert(all[i as int] == items@[i as int]@);
        if let Json::Text(s) = &items[i] {
            push_text(&mut out, s.clone());
        }
        i += 1;
    }
    assert(all.take(i as int) =~= all);
    out
}

fn forbidden_patterns(lint: &Json) -> (out: Vec<String>)
    ensures
        views(out@) == forbidden_in(lint@),
{
    let none: Vec<String> = Vec::new();
    assert(views(none@) =~= Seq::<Seq<char>>::empty());
    match lint {
        Json::Object(members) => {
            assert(model(*lint)->Object_0 =~= member_models(members@));
            match find_member(members, "forbidden") {
                Some(Json::Array(items)) => read_strings(items),
                _ => none,
            }
        },
        Json::Array(items) => read_strings(items),
        _ => none,
    }
}

fn lint_line(
    line: &str,
    patterns: &Vec<String>,
    cased: bool,
    line_no: usize,
    file: &str,
    out: &mut Vec<Finding>,
)
    ensures
        finding_models(final(out)@) == finding_models(old(out)@) + line_hits(
            line@,
            views(patterns@),
            cased,
            line_no as int,
            file@,
        ),
{
    let ghost before = finding_models(out@);
    let ghost ps = views(patterns@);
    let plain = chars_of(line);
    let lower = chars_of(lowercase(line).as_str());
    let mut i: usize = 0;
    assert(before + line_hits(line@, ps.take(0), cased, line_no as int, file@) =~= before);
    while i < patterns.len()
        invariant
            ps == views(patterns@),
            plain@ == line@,
            lower@ == lower_of(line@),
            i <= patterns.len(),
            finding_models(out@) == before + line_hits(
                line@,
                ps.take(i as int),
                cased,
                line_no as int,
                file@,
            ),
        decreases patterns.len() - i,
    {
        assert(ps.take(i + 1).drop_last() =~= ps.take(i as int));
        let pattern = patterns[i].as_str();
        let hit = if cased {
            contains(&plain, &chars_of(pattern))
        } else {
            contains(&lower, &chars_of(lowercase(pattern).as_str()))
        };
        if hit {
            let mut message = "`".to_owned();
            message.append(pattern);
            message.append("` is forbidden by this skill's own lint rules.");
            push_finding(
                out,
                Finding::error("skill.lint.forbidden", message.as_str()).at(line_no).in_file(file),
            );
        }
        assert(finding_models(out@) =~= before + line_hits(
            line@,
            ps.take(i + 1),
            cased,
            line_no as int,
            file@,
        ));
        i += 1;
    }
    assert(ps.take(i as int) =~= ps);
}

fn lint_text(
    text: &str,
    patterns: &Vec<String>,
    cased: bool,
    exempt: usize,
    file: &str,
    out: &mut Vec<Finding>,
)
    ensures
        finding_models(final(out)@) == finding_models(old(out)@) + text_hits(
            text_lines(text@),
            views(patterns@),
            cased,
            exempt as int,
            file@,
        ),
{
    let ghost before = finding_models(out@);
    let ghost ps = views(patterns@);
    let all = lines(&chars_of(text));
    let ghost ls = text_lines(text@);
    let mut i: usize = 0;
    assert(before + text_hits(ls.take(0), ps, cased, exempt as int, file@) =~= before);
    while i < all.len()
        invariant
            views(all@) == ls,
            ps == views(patterns@),
            i <= all.len(),
            finding_models(out@) == before + text_hits(
                ls.take(i as int),
                ps,
                cased,
                exempt as int,
                file@,
            ),
        decreases all.len() - i,
    {
        assert(ls.take(i + 1).drop_last() =~= ls.take(i as int));
        assert(all@[i as int]@ == ls[i as int]);
        if i + 1 > exempt {
            lint_line(all[i].as_str(), patterns, cased, i + 1, file, out);
        }
        assert(finding_models(out@) =~= before + text_hits(
            ls.take(i + 1),
            ps,
            cased,
            exempt as int,
            file@,
        ));
        i += 1;
    }
    assert(ls.take(i as int) =~= ls);
}

fn relative_path(dir: &str, path: &str) -> (out: String)
    ensures
        out@ == inside(dir@, path@),
{
    proof {
        reveal_strlit("/");
    }
    let d = chars_of(dir);
    if d.len() == 0 {
        return normalise_rel(path);
    }
    let mut prefix = dir.to_owned();
    prefix.append("/");
    let chars = chars_of(path);
    if starts_with(&chars, prefix.as_str()) {
        assert(prefix@.len() == d@.len() + 1 && prefix@.len() <= chars@.len());
        let n: usize = chars.len();
        assert(d@.len() < n);
        let rest = string_of(part(&chars, d.len() + 1, n));
        assert(rest@ =~= path@.skip((dir@.len() + 1) as int));
        normalise_rel(rest.as_str())
    } else {
        path.to_owned()
    }
}

fn lint_file(
    file: &SkillFile,
    declaring: &str,
    content: &str,
    dir: &str,
    patterns: &Vec<String>,
    cased: bool,
    exempt: usize,
    out: &mut Vec<Finding>,
)
    ensures
        finding_models(final(out)@) == finding_models(old(out)@) + file_hits(
            (file.path@, opt_view(file.text)),
            declaring@,
            content@,
            dir@,
            views(patterns@),
            cased,
            exempt as int,
        ),
{
    let ghost before = finding_models(out@);
    let relative = relative_path(dir, file.path.as_str());
    if same_str(file.path.as_str(), declaring) {
        lint_text(content, patterns, cased, exempt, relative.as_str(), out);
    } else {
        match &file.text {
            Some(text) => {
                lint_text(text.as_str(), patterns, cased, 0, relative.as_str(), out);
            },
            None => {
                assert(before + Seq::<FindingModel>::empty() =~= before);
            },
        }
    }
}

/// Applies a skill's own rules to its files. `files` are those of its tree, in
/// the order they are reported.
pub fn self_lint(
    path: &str,
    dir: &str,
    content: &str,
    fm: &Frontmatter,
    files: &Vec<SkillFile>,
    out: &mut Vec<Finding>,
)
    ensures
        finding_models(final(out)@) == finding_models(old(out)@) + lint_findings(
            path@,
            dir@,
            content@,
            fm@,
            file_models(files@),
        ),
{
    let ghost before = finding_models(out@);
    let ghost none = Seq::<FindingModel>::empty();
    assert(before + none =~= before);
    let lint = match fm.get("lint") {
        Some(lint) => lint,
        None => {
            return ;
        },
    };
    let patterns = forbidden_patterns(lint);
    assert(views(patterns@).len() == patterns@.len());
    if patterns.len() == 0 {
        return ;
    }
    let cased = match lint.get("case_sensitive") {
        Some(Json::Bool(b)) => *b,
        _ => false,
    };
    let exempt: usize = if fm.present {
        fm.body_line.saturating_sub(1)
    } else {
        0
    };
    let ghost ps = views(patterns@);
    let ghost fs = file_models(files@);
    let ghost targets = lint_targets(fs, path@);
    let mut found = false;
    let mut i: usize = 0;
    assert(before + files_hits(
        targets.take(0),
        path@,
        content@,
        dir@,
        ps,
        cased,
        exempt as int,
    ) =~= before);
    while i < files.len()
        invariant
            ps == views(patterns@),
            fs == file_models(files@),
            targets == lint_targets(fs, path@),
            i <= files.len(),
            found == has_file(fs.take(i as int), path@),
            finding_models(out@) == before + files_hits(
                targets.take(i as int),
                path@,
                content@,
                dir@,
                ps,
                cased,
                exempt as int,
            ),
        decreases files.len() - i,
    {
        assert(targets.take(i + 1).drop_last() =~= targets.take(i as int));
        assert(targets[i as int] == fs[i as int]);
        let ghost seen = fs.take(i as int);
        let ghost next = fs.take(i + 1);
        let ghost was_found = found;
        if same_str(files[i].path.as_str(), path) {
            found = true;
        }
        proof {
            if fs[i as int].0 == path@ {
                assert(next[i as int].0 == path@);
            } else if was_found {
                let k = choose|k: int| 0 <= k < seen.len() && (#[trigger] seen[k]).0 == path@;
                assert(next[k] == seen[k]);
            } else {
                assert forall|k: int| 0 <= k < next.len() implies (#[trigger] next[k]).0
                    != path@ by {
                    if k < i {
                        assert(next[k] == seen[k]);
                    }
                }
            }
        }
        lint_file(&files[i], path, content, dir, &patterns, cased, exempt, out);
        assert(finding_models(out@) =~= before + files_hits(
            targets.take(i + 1),
            path@,
            content@,
            dir@,
            ps,
            cased,
            exempt as int,
        ));
        i += 1;
    }
    assert(fs.take(i as int) =~= fs);
    if !found {
        let own = SkillFile { path: path.to_owned(), text: None };
        assert(targets.drop_last() =~= targets.take(i as int));
        lint_file(&own, path, content, dir, &patterns, cased, exempt, out);
        assert(finding_models(out@) =~= before + files_hits(
            targets,
            path@,
            content@,
            dir@,
            ps,
            cased,
            exempt as int,
        ));
    } else {
        assert(targets.take(i as int) =~= targets);
    }
}

// ---------------------------------------------------------------------------
// Laws
// ---------------------------------------------------------------------------

/// The text that a file is linted from, and how many of its lines are exempt:
/// the declaring file from the text being validated, behind its declaration.
pub open spec fn linted_text(
    file: FileModel,
    declaring: Seq<char>,
    content: Seq<char>,
    exempt: int,
) -> (Option<Seq<char>>, int) {
    if file.0 == declaring {
        (Some(content), exempt)
    } else {
        (file.1, 0)
    }
}

/// Does pattern `p` stand in line `n`, from 1, of file `i`, where it must not?
pub open spec fn violates(
    files: Seq<FileModel>,
    declaring: Seq<char>,
    content: Seq<char>,
    patterns: Seq<Seq<char>>,
    cased: bool,
    exempt: int,
    i: int,
    n: int,
    p: Seq<char>,
) -> bool {
    &&& 0 <= i < files.len()
    &&& patterns.contains(p)
    &&& linted_text(files[i], declaring, content, exempt).0 matches Some(text) && n > linted_text(
        files[i],
        declaring,
        content,
        exempt,
    ).1 && 1 <= n <= text_lines(text).len() && (if cased {
        occurs(text_lines(text)[n - 1], p)
    } else {
        occurs(lower_of(text_lines(text)[n - 1]), lower_of(p))
    })
}

/// Is a finding about a violation in one of the files?
pub open spec fn about_violation(
    f: FindingModel,
    files: Seq<FileModel>,
    declaring: Seq<char>,
    content: Seq<char>,
    dir: Seq<char>,
    patterns: Seq<Seq<char>>,
    cased: bool,
    exempt: int,
) -> bool {
    exists|i: int, n: int, p: Seq<char>| #[trigger]
        violates(files, declaring, content, patterns, cased, exempt, i, n, p) && f
            == forbidden_finding(p, n, inside(dir, files[i].0))
}

proof fn lemma_line_hits(
    line: Seq<char>,
    patterns: Seq<Seq<char>>,
    cased: bool,
    line_no: int,
    file: Seq<char>,
    f: FindingModel,
)
    ensures
        line_hits(line, patterns, cased, line_no, file).contains(f) <==> exists|p: Seq<char>|
            #[trigger] patterns.contains(p) && hits(line, p, cased) && f == forbidden_finding(
                p,
                line_no,
                file,
            ),
    decreases patterns.len(),
{
    let out = line_hits(line, patterns, cased, line_no, file);
    if patterns.len() > 0 {
        let d = patterns.drop_last();
        let last = patterns.last();
        lemma_line_hits(line, d, cased, line_no, file, f);
        let before = line_hits(line, d, cased, line_no, file);
        assert(patterns[patterns.len() - 1] == last);
        assert forall|p: Seq<char>| patterns.contains(p) <==> #[trigger] d.contains(p) || p == last by {
            if patterns.contains(p) && p != last {
                let k = choose|k: int| 0 <= k < patterns.len() && patterns[k] == p;
                assert(d[k] == p);
            }
            if d.contains(p) {
                let k = choose|k: int| 0 <= k < d.len() && d[k] == p;
                assert(patterns[k] == p);
            }
        }
        if before.contains(f) {
            let k = choose|k: int| 0 <= k < before.len() && before[k] == f;
            assert(out[k] == f);
        }
        if out.contains(f) {
            let k = choose|k: int| 0 <= k < out.len() && out[k] == f;
            if k < before.len() {
                assert(before[k] == f);
                assert(before.contains(f));
                let p = choose|p: Seq<char>| #[trigger]
                    d.contains(p) && hits(line, p, cased) && f == forbidden_finding(
                        p,
                        line_no,
                        file,
                    );
                assert(patterns.contains(p));
            } else {
                assert(patterns.contains(last));
            }
        }
        if exists|p: Seq<char>| #[trigger]
            patterns.contains(p) && hits(line, p, cased) && f == forbidden_finding(
                p,
                line_no,
                file,
            ) {
            let p = choose|p: Seq<char>| #[trigger]
                patterns.contains(p) && hits(line, p, cased) && f == forbidden_finding(
                    p,
                    line_no,
                    file,
                );
            if p == last {
                assert(out[before.len() as int] == f);
            } else {
                assert(d.contains(p));
            }
        }
    }
}

proof fn lemma_text_hits(
    lines: Seq<Seq<char>>,
    patterns: Seq<Seq<char>>,
    cased: bool,
    exempt: int,
    file: Seq<char>,
    f: FindingModel,
)
    ensures
        text_hits(lines, patterns, cased, exempt, file).contains(f) <==> exists|
            n: int,
            p: Seq<char>,
        |
            1 <= n <= lines.len() && n > exempt && #[trigger] patterns.contains(p) && #[trigger] hits(
                lines[n - 1],
                p,
                cased,
            ) && f == forbidden_finding(p, n, file),
    decreases lines.len(),
{
    let out = text_hits(lines, patterns, cased, exempt, file);
    if lines.len() > 0 {
        let d = lines.drop_last();
        let m = lines.len() as int;
        lemma_text_hits(d, patterns, cased, exempt, file, f);
        let before = text_hits(d, patterns, cased, exempt, file);
        let here = line_hits(lines.last(), patterns, cased, m, file);
        lemma_line_hits(lines.last(), patterns, cased, m, file, f);
        if before.contains(f) {
            let k = choose|k: int| 0 <= k < before.len() && before[k] == f;
            assert(out[k] == f);
            let (n, p) = choose|n: int, p: Seq<char>|
                1 <= n <= d.len() && n > exempt && #[trigger] patterns.contains(p) && #[trigger] hits(
                    d[n - 1],
                    p,
                    cased,
                ) && f == forbidden_finding(p, n, file);
            assert(hits(lines[n - 1], p, cased));
        }
        if m > exempt && here.contains(f) {
            let k = choose|k: int| 0 <= k < here.len() && here[k] == f;
            assert(out[before.len() + k] == f);
            let p = choose|p: Seq<char>| #[trigger]
                patterns.contains(p) && hits(lines.last(), p, cased) && f == forbidden_finding(
                    p,
                    m,
                    file,
                );
            assert(hits(lines[m - 1], p, cased));
        }
        if out.contains(f) && !before.contains(f) {
            let k = choose|k: int| 0 <= k < out.len() && out[k] == f;
            if k < before.len() {
                assert(before[k] == f);
            } else {
                assert(here[k - before.len()] == f);
            }
        }
        if exists|n: int, p: Seq<char>|
            1 <= n <= lines.len() && n > exempt && #[trigger] patterns.contains(p)
                && #[trigger] hits(lines[n - 1], p, cased) && f == forbidden_finding(p, n, file) {
            let (n, p) = choose|n: int, p: Seq<char>|
                1 <= n <= lines.len() && n > exempt && #[trigger] patterns.contains(p)
                    && #[trigger] hits(lines[n - 1], p, cased) && f == forbidden_finding(
                    p,
                    n,
                    file,
                );
            if n < m {
                assert(hits(d[n - 1], p, cased));
            }
        }
    }
}

/// A skill's own rules are held to, everywhere: each forbidden pattern is
/// reported for each line that holds it, in each file of the skill, with the
/// file and the line, and nothing else is. Only the lines that declare the
/// rules are exempt.
pub proof fn law_forbidden_patterns_are_found(
    files: Seq<FileModel>,
    declaring: Seq<char>,
    content: Seq<char>,
    dir: Seq<char>,
    patterns: Seq<Seq<char>>,
    cased: bool,
    exempt: int,
    f: FindingModel,
)
    requires
        exempt >= 0,
    ensures
        files_hits(files, declaring, content, dir, patterns, cased, exempt).contains(f)
            <==> about_violation(
            f,
            files,
            declaring,
            content,
            dir,
            patterns,
            cased,
            exempt,
        ),
        about_violation(f, files, declaring, content, dir, patterns, cased, exempt) ==> f.severity
            == Severity::Error,
    decreases files.len(),
{
    let out = files_hits(files, declaring, content, dir, patterns, cased, exempt);
    if files.len() > 0 {
        let d = files.drop_last();
        let last = files.last();
        let m = files.len() - 1;
        law_forbidden_patterns_are_found(
            d,
            declaring,
            content,
            dir,
            patterns,
            cased,
            exempt,
            f,
        );
        let before = files_hits(d, declaring, content, dir, patterns, cased, exempt);
        let here = file_hits(last, declaring, content, dir, patterns, cased, exempt);
        assert(out == before + here);
        let (text, skip) = linted_text(last, declaring, content, exempt);
        let name = inside(dir, last.0);
        if let Some(t) = text {
            assert(here == text_hits(text_lines(t), patterns, cased, skip, name));
            lemma_text_hits(text_lines(t), patterns, cased, skip, name, f);
        }
        if before.contains(f) {
            let k = choose|k: int| 0 <= k < before.len() && before[k] == f;
            assert(out[k] == f);
            let (i, n, p) = choose|i: int, n: int, p: Seq<char>| #[trigger]
                violates(d, declaring, content, patterns, cased, exempt, i, n, p) && f
                    == forbidden_finding(p, n, inside(dir, d[i].0));
            assert(d[i] == files[i]);
            assert(violates(files, declaring, content, patterns, cased, exempt, i, n, p));
        }
        if here.contains(f) {
            let k = choose|k: int| 0 <= k < here.len() && here[k] == f;
            assert(out[before.len() + k] == f);
            let lines = text_lines(text->0);
            let (n, p) = choose|n: int, p: Seq<char>|
                1 <= n <= lines.len() && n > skip && #[trigger] patterns.contains(p)
                    && #[trigger] hits(lines[n - 1], p, cased) && f == forbidden_finding(
                    p,
                    n,
                    name,
                );
            assert(files[m] == last);
            assert(violates(files, declaring, content, patterns, cased, exempt, m, n, p));
        }
        if out.contains(f) && !before.contains(f) {
            let k = choose|k: int| 0 <= k < out.len() && out[k] == f;
            if k < before.len() {
                assert(before[k] == f);
            } else {
                assert(here[k - before.len()] == f);
            }
        }
        if about_violation(f, files, declaring, content, dir, patterns, cased, exempt) {
            let (i, n, p) = choose|i: int, n: int, p: Seq<char>| #[trigger]
                violates(files, declaring, content, patterns, cased, exempt, i, n, p) && f
                    == forbidden_finding(p, n, inside(dir, files[i].0));
            if i < m {
                assert(d[i] == files[i]);
                assert(violates(d, declaring, content, patterns, cased, exempt, i, n, p));
            } else {
                assert(hits(text_lines(text->0)[n - 1], p, cased));
            }
        }
    }
}

} // verus!
