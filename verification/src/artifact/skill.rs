//! Skill validation: frontmatter, progressive-disclosure structure, reference
//! integrity, the command inventory cross-check, and the self-referential
//! linter: a skill may declare its own forbidden patterns, and they are
//! enforced across the skill's own files.

use crate::artifact::finding::{
    finding_at, finding_models, plain_finding, push_finding, Finding, FindingModel, Severity,
};
use crate::artifact::frontmatter::{
    body_chars, body_text, frontmatter_of, parse, text_member, Frontmatter,
    FrontmatterModel,
};
use crate::artifact::lint::{file_models, lint_findings, self_lint};
use crate::artifact::tree::{
    inventory_findings, opt_views, reference_findings, validate_command_inventory,
    validate_references,
};
use crate::corpus::typing::{after_last, tail_after};
use crate::text::{
    chars_of, contains, decimal, decimal_of, ends_with, equal_ignoring_case, is_space, join_of,
    lines, lower_of, lowercase, occurs, push_text, same_ignoring_case, space, split, split_on,
    starts_with, string_of, text_lines, trim, trim_front, trim_front_of, trim_of, trim_start,
    trim_start_of, views, words, words_of,
};
use vstd::prelude::*;

verus! {

/// Frontmatter descriptions are a budget, not a place for the manual.
pub const MAX_DESCRIPTION: usize = 1024;

/// The overview exists to route the reader deeper, not to hold everything.
pub const MAX_OVERVIEW_WORDS: usize = 350;

/// A file of a skill's tree, by its key. The text is there if the file is one
/// that is linted.
#[derive(Debug)]
pub struct SkillFile {
    pub path: String,
    pub text: Option<String>,
}

/// What stands on disk around a skill.
#[derive(Debug)]
pub struct SkillTree {
    /// The targets, as they are written, that resolve.
    pub present: Vec<String>,
    /// The files inside the disclosure directories, by their relative paths.
    pub entries: Vec<String>,
    /// The stems of the files in `commands/`, where that directory exists.
    pub commands: Option<Vec<String>>,
    /// The files of the tree.
    pub files: Vec<SkillFile>,
}

/// Everything before the last separator of a path; nothing where there is none.
pub open spec fn dir_of(path: Seq<char>) -> Seq<char> {
    if split_on(path, '/').len() > 1 {
        join_of(split_on(path, '/').drop_last(), "/"@)
    } else {
        Seq::empty()
    }
}

fn parent_dir(path: &str) -> (out: String)
    ensures
        out@ == dir_of(path@),
{
    let pieces = split(&chars_of(path), '/');
    let n: usize = pieces.len();
    assert(views(pieces@).len() == n);
    if n > 1 {
        let front = vstd::slice::slice_subrange(pieces.as_slice(), 0, n - 1);
        assert(views(front@) =~= split_on(path@, '/').drop_last());
        crate::text::join(front, "/")
    } else {
        String::new()
    }
}

// ---------------------------------------------------------------------------
// Frontmatter
// ---------------------------------------------------------------------------

/// Does white space stand in `s`?
pub open spec fn has_space(s: Seq<char>) -> bool {
    exists|i: int| 0 <= i < s.len() && is_space(#[trigger] s[i])
}

/// A skill whose name disagrees with its directory is the one that gets invoked
/// by the wrong id and quietly never runs.
pub open spec fn name_mismatch(path: Seq<char>, dir_name: Seq<char>, name: Seq<char>) -> bool {
    dir_name.len() > 0 && !same_ignoring_case(dir_name, name) && "/skill.md"@.is_suffix_of(
        lower_of(path),
    )
}

pub open spec fn mismatch_finding(dir_name: Seq<char>, name: Seq<char>) -> FindingModel {
    FindingModel {
        severity: Severity::Error,
        rule: "skill.frontmatter.name.mismatch"@,
        message: "`name: "@ + name + "` does not match the directory name `"@ + dir_name + "`."@,
        line: Some(1),
        file: None,
        hint: Some("Rename the directory to `"@ + name + "`, or set `name: "@ + dir_name + "`."@),
    }
}

/// The findings about a skill's name.
pub open spec fn name_findings(path: Seq<char>, name: Option<Seq<char>>) -> Seq<FindingModel> {
    match name {
        None => seq![missing_name()],
        Some(n) => if n.len() == 0 {
            seq![missing_name()]
        } else {
            let dir_name = after_last(dir_of(path), '/');
            let mismatch = if name_mismatch(path, dir_name, n) {
                seq![mismatch_finding(dir_name, n)]
            } else {
                Seq::empty()
            };
            if has_space(n) {
                mismatch.push(
                    finding_at(
                        Severity::Warning,
                        "skill.frontmatter.name.spaces"@,
                        "`name: "@ + n
                            + "` contains whitespace; skill names are invoked as identifiers."@,
                        1,
                    ),
                )
            } else {
                mismatch
            }
        },
    }
}

pub open spec fn missing_name() -> FindingModel {
    finding_at(
        Severity::Error,
        "skill.frontmatter.name.missing"@,
        "Frontmatter is missing `name`."@,
        1,
    )
}

/// The findings about a skill's description.
pub open spec fn description_findings(description: Option<Seq<char>>) -> Seq<FindingModel> {
    let missing = seq![
        finding_at(
            Severity::Error,
            "skill.frontmatter.description.missing"@,
            "Frontmatter is missing `description`."@,
            1,
        ),
    ];
    match description {
        None => missing,
        Some(d) => if d.len() == 0 {
            missing
        } else if d.len() > MAX_DESCRIPTION {
            seq![
                finding_at(
                    Severity::Error,
                    "skill.frontmatter.description.long"@,
                    "`description` is "@ + decimal_of(d.len()) + " characters; the limit is 1024."@,
                    1,
                ),
            ]
        } else {
            Seq::empty()
        },
    }
}

/// The findings about a skill's frontmatter.
pub open spec fn header_findings(path: Seq<char>, fm: FrontmatterModel) -> Seq<FindingModel> {
    if !fm.present {
        seq![
            finding_at(
                Severity::Error,
                "skill.frontmatter.missing"@,
                "A skill needs YAML frontmatter with `name` and `description`."@,
                1,
            ),
        ]
    } else {
        name_findings(path, text_member(fm.data, "name"@)) + description_findings(
            text_member(fm.data, "description"@),
        )
    }
}

fn contains_space(s: &[char]) -> (out: bool)
    ensures
        out == has_space(s@),
{
    let mut i: usize = 0;
    while i < s.len()
        invariant
            i <= s.len(),
            forall|k: int| 0 <= k < i ==> !is_space(#[trigger] s@[k]),
        decreases s.len() - i,
    {
        if space(s[i]) {
            assert(is_space(s@[i as int]));
            return true;
        }
        i += 1;
    }
    false
}

fn check_name(path: &str, name: Option<&str>, out: &mut Vec<Finding>)
    ensures
        finding_models(final(out)@) == finding_models(old(out)@) + name_findings(
            path@,
            match name {
                Some(n) => Some(n@),
                None => None,
            },
        ),
{
    let ghost before = finding_models(out@);
    let given = match name {
        Some(n) => chars_of(n),
        None => Vec::new(),
    };
    if given.len() == 0 {
        push_finding(
            out,
            Finding::error(
                "skill.frontmatter.name.missing",
                "Frontmatter is missing `name`.",
            ).at(1),
        );
        assert(finding_models(out@) =~= before + seq![missing_name()]);
        return ;
    }
    let name = string_of(&given);
    let dir_name = tail_after(parent_dir(path).as_str(), '/');
    let lower = lowercase(path);
    let ghost mismatch = name_mismatch(path@, dir_name@, name@);
    if chars_of(dir_name.as_str()).len() > 0 && !equal_ignoring_case(
        dir_name.as_str(),
        name.as_str(),
    ) && ends_with(&chars_of(lower.as_str()), "/skill.md") {
        let mut message = "`name: ".to_owned();
        message.append(name.as_str());
        message.append("` does not match the directory name `");
        message.append(dir_name.as_str());
        message.append("`.");
        let mut hint = "Rename the directory to `".to_owned();
        hint.append(name.as_str());
        hint.append("`, or set `name: ");
        hint.append(dir_name.as_str());
        hint.append("`.");
        push_finding(
            out,
            Finding::error("skill.frontmatter.name.mismatch", message.as_str()).at(1).with_hint(
                hint.as_str(),
            ),
        );
    }
    if contains_space(&given) {
        let mut message = "`name: ".to_owned();
        message.append(name.as_str());
        message.append("` contains whitespace; skill names are invoked as identifiers.");
        push_finding(
            out,
            Finding::warning("skill.frontmatter.name.spaces", message.as_str()).at(1),
        );
    }
    assert(finding_models(out@) =~= before + name_findings(path@, Some(name@)));
}

fn check_description(description: Option<&str>, out: &mut Vec<Finding>)
    ensures
        finding_models(final(out)@) == finding_models(old(out)@) + description_findings(
            match description {
                Some(d) => Some(d@),
                None => None,
            },
        ),
{
    let ghost before = finding_models(out@);
    let given = match description {
        Some(d) => chars_of(d),
        None => Vec::new(),
    };
    if given.len() == 0 {
        push_finding(
            out,
            Finding::error(
                "skill.frontmatter.description.missing",
                "Frontmatter is missing `description`.",
            ).at(1),
        );
    } else if given.len() > MAX_DESCRIPTION {
        let mut message = "`description` is ".to_owned();
        message.append(decimal(given.len() as u64).as_str());
        message.append(" characters; the limit is 1024.");
        push_finding(
            out,
            Finding::error("skill.frontmatter.description.long", message.as_str()).at(1),
        );
    }
    assert(finding_models(out@) =~= before + description_findings(
        match description {
            Some(d) => Some(d@),
            None => None,
        },
    ));
}

fn validate_frontmatter(path: &str, fm: &Frontmatter, out: &mut Vec<Finding>)
    ensures
        finding_models(final(out)@) == finding_models(old(out)@) + header_findings(path@, fm@),
{
    let ghost before = finding_models(out@);
    if !fm.present {
        push_finding(
            out,
            Finding::error(
                "skill.frontmatter.missing",
                "A skill needs YAML frontmatter with `name` and `description`.",
            ).at(1),
        );
        assert(finding_models(out@) =~= before + header_findings(path@, fm@));
        return ;
    }
    check_name(path, fm.get_str("name"), out);
    check_description(fm.get_str("description"), out);
    assert(finding_models(out@) =~= before + header_findings(path@, fm@));
}

// ---------------------------------------------------------------------------
// Structure
// ---------------------------------------------------------------------------

/// Is a line the heading of a section?
pub open spec fn is_section(line: Seq<char>) -> bool {
    "##"@.is_prefix_of(trim_start_of(line))
}

/// The title of a section, in lower case.
pub open spec fn section_title(line: Seq<char>) -> Seq<char> {
    lower_of(trim_of(trim_front_of(trim_start_of(line), '#')))
}

/// The titles of the sections among some lines.
pub open spec fn sections_of(lines: Seq<Seq<char>>) -> Seq<Seq<char>>
    decreases lines.len(),
{
    if lines.len() == 0 {
        Seq::empty()
    } else if is_section(lines.last()) {
        sections_of(lines.drop_last()).push(section_title(lines.last()))
    } else {
        sections_of(lines.drop_last())
    }
}

/// How many words stand before the first section. Counting stops at the largest
/// number that a `usize` can hold.
pub open spec fn overview_words(lines: Seq<Seq<char>>) -> int
    decreases lines.len(),
{
    if lines.len() == 0 {
        0
    } else if sections_of(lines).len() > 0 {
        overview_words(lines.drop_last())
    } else {
        crate::diff::hunks::least(
            overview_words(lines.drop_last()) + words_of(lines.last()).len(),
            usize::MAX as int,
        )
    }
}

/// Does one of the titles hold one of the words?
pub open spec fn any_title(titles: Seq<Seq<char>>, needles: Seq<Seq<char>>) -> bool {
    exists|i: int, k: int|
        0 <= i < titles.len() && 0 <= k < needles.len() && occurs(
            #[trigger] titles[i],
            #[trigger] needles[k],
        )
}

pub open spec fn workflow_words() -> Seq<Seq<char>> {
    seq!["workflow"@, "steps"@, "process"@, "how to"@, "usage"@]
}

pub open spec fn quality_words() -> Seq<Seq<char>> {
    seq!["quality"@, "check"@, "criteria"@, "review"@]
}

/// The finding about an overview that is too long.
pub open spec fn overview_finding(n: int, body_line: int) -> FindingModel {
    finding_at(
        Severity::Warning,
        "skill.overview.long"@,
        "The overview is "@ + decimal_of(n as nat)
            + " words before the first section. Progressive disclosure wants a short overview that routes the reader deeper."@,
        body_line,
    )
}

/// The findings about the sections of a skill.
pub open spec fn structure_findings(body: Seq<char>, body_line: int) -> Seq<FindingModel> {
    let lines = text_lines(body);
    let titles = sections_of(lines);
    let n = overview_words(lines);
    let long = if n > MAX_OVERVIEW_WORDS {
        seq![overview_finding(n, body_line)]
    } else {
        Seq::empty()
    };
    if titles.len() == 0 {
        long.push(
            finding_at(
                Severity::Warning,
                "skill.structure.no_sections"@,
                "The skill has no `##` sections; there is nothing to disclose progressively."@,
                body_line,
            ),
        )
    } else {
        let workflow = if any_title(titles, workflow_words()) {
            long
        } else {
            long.push(
                plain_finding(
                    Severity::Info,
                    "skill.structure.no_workflow"@,
                    "No workflow section found (looked for `workflow`, `steps`, `process`, `usage`)."@,
                ),
            )
        };
        if any_title(titles, quality_words()) {
            workflow
        } else {
            workflow.push(
                plain_finding(
                    Severity::Info,
                    "skill.structure.no_quality_checks"@,
                    "No quality-checks section found (looked for `quality`, `checks`, `criteria`)."@,
                ),
            )
        }
    }
}

fn title_has(titles: &Vec<String>, needles: &Vec<String>) -> (out: bool)
    ensures
        out == any_title(views(titles@), views(needles@)),
{
    let ghost ts = views(titles@);
    let ghost ns = views(needles@);
    let mut i: usize = 0;
    while i < titles.len()
        invariant
            ts == views(titles@),
            ns == views(needles@),
            i <= titles.len(),
            forall|a: int, b: int|
                0 <= a < i && 0 <= b < ns.len() ==> !occurs(#[trigger] ts[a], #[trigger] ns[b]),
        decreases titles.len() - i,
    {
        let title = chars_of(titles[i].as_str());
        let mut k: usize = 0;
        while k < needles.len()
            invariant
                ts == views(titles@),
                ns == views(needles@),
                i < titles.len(),
                title@ == ts[i as int],
                k <= needles.len(),
                forall|b: int| 0 <= b < k ==> !occurs(ts[i as int], #[trigger] ns[b]),
            decreases needles.len() - k,
        {
            if contains(&title, &chars_of(needles[k].as_str())) {
                assert(occurs(ts[i as int], ns[k as int]));
                return true;
            }
            k += 1;
        }
        i += 1;
    }
    false
}

fn workflow_list() -> (out: Vec<String>)
    ensures
        views(out@) == workflow_words(),
{
    let mut out: Vec<String> = Vec::new();
    out.push("workflow".to_owned());
    out.push("steps".to_owned());
    out.push("process".to_owned());
    out.push("how to".to_owned());
    out.push("usage".to_owned());
    assert(views(out@) =~= workflow_words());
    out
}

fn quality_list() -> (out: Vec<String>)
    ensures
        views(out@) == quality_words(),
{
    let mut out: Vec<String> = Vec::new();
    out.push("quality".to_owned());
    out.push("check".to_owned());
    out.push("criteria".to_owned());
    out.push("review".to_owned());
    assert(views(out@) =~= quality_words());
    out
}

fn validate_structure(body: &Vec<char>, body_line: usize, out: &mut Vec<Finding>)
    ensures
        finding_models(final(out)@) == finding_models(old(out)@) + structure_findings(
            body@,
            body_line as int,
        ),
{
    let ghost before = finding_models(out@);
    let all = lines(body);
    let ghost ls = text_lines(body@);
    let mut titles: Vec<String> = Vec::new();
    let mut overview: usize = 0;
    let mut i: usize = 0;
    assert(views(titles@) =~= sections_of(ls.take(0)));
    while i < all.len()
        invariant
            views(all@) == ls,
            i <= all.len(),
            views(titles@) == sections_of(ls.take(i as int)),
            overview == overview_words(ls.take(i as int)),
        decreases all.len() - i,
    {
        assert(ls.take(i + 1).drop_last() =~= ls.take(i as int));
        let line = chars_of(all[i].as_str());
        assert(line@ == ls[i as int]);
        let t = trim_start(&line);
        if starts_with(t, "##") {
            let title = string_of(trim(trim_front(t, '#')));
            push_text(&mut titles, lowercase(title.as_str()));
        }
        assert(views(titles@).len() == titles@.len());
        if titles.len() == 0 {
            let ws = words(&line);
            assert(views(ws@).len() == ws@.len());
            overview = overview.saturating_add(ws.len());
        }
        i += 1;
    }
    assert(ls.take(i as int) =~= ls);
    if overview > MAX_OVERVIEW_WORDS {
        let mut message = "The overview is ".to_owned();
        message.append(decimal(overview as u64).as_str());
        message.append(
            " words before the first section. Progressive disclosure wants a short overview that routes the reader deeper.",
        );
        push_finding(
            out,
            Finding::warning("skill.overview.long", message.as_str()).at(body_line),
        );
    }
    assert(views(titles@).len() == titles@.len());
    if titles.len() == 0 {
        push_finding(
            out,
            Finding::warning(
                "skill.structure.no_sections",
                "The skill has no `##` sections; there is nothing to disclose progressively.",
            ).at(body_line),
        );
        assert(finding_models(out@) =~= before + structure_findings(body@, body_line as int));
        return ;
    }
    if !title_has(&titles, &workflow_list()) {
        push_finding(
            out,
            Finding::info(
                "skill.structure.no_workflow",
                "No workflow section found (looked for `workflow`, `steps`, `process`, `usage`).",
            ),
        );
    }
    if !title_has(&titles, &quality_list()) {
        push_finding(
            out,
            Finding::info(
                "skill.structure.no_quality_checks",
                "No quality-checks section found (looked for `quality`, `checks`, `criteria`).",
            ),
        );
    }
    assert(finding_models(out@) =~= before + structure_findings(body@, body_line as int));
}

// ---------------------------------------------------------------------------
// All of it
// ---------------------------------------------------------------------------

/// The findings about a skill with the given frontmatter.
pub open spec fn skill_findings_with(
    path: Seq<char>,
    content: Seq<char>,
    fm: FrontmatterModel,
    tree: SkillTree,
) -> Seq<FindingModel> {
    let dir = dir_of(path);
    header_findings(path, fm) + structure_findings(body_text(content), fm.body_line as int)
        + reference_findings(path, dir, content, views(tree.present@), views(tree.entries@))
        + inventory_findings(content, opt_views(tree.commands)) + lint_findings(
        path,
        dir,
        content,
        fm,
        file_models(tree.files@),
    )
}

/// The findings about a skill.
pub open spec fn skill_findings(
    path: Seq<char>,
    content: Seq<char>,
    tree: SkillTree,
) -> Seq<FindingModel> {
    skill_findings_with(path, content, frontmatter_of(content), tree)
}

/// Checks a skill with the given frontmatter.
pub fn validate_with(path: &str, content: &str, fm: &Frontmatter, tree: &SkillTree) -> (out: Vec<
    Finding,
>)
    ensures
        finding_models(out@) == skill_findings_with(path@, content@, fm@, *tree),
{
    let mut out: Vec<Finding> = Vec::new();
    let dir = parent_dir(path);
    let body = body_chars(content);
    assert(finding_models(out@) =~= Seq::<FindingModel>::empty());
    validate_frontmatter(path, fm, &mut out);
    validate_structure(&body, fm.body_line, &mut out);
    validate_references(path, dir.as_str(), content, tree, &mut out);
    validate_command_inventory(content, &tree.commands, &mut out);
    self_lint(path, dir.as_str(), content, fm, &tree.files, &mut out);
    assert(finding_models(out@) =~= skill_findings_with(path@, content@, fm@, *tree));
    out
}

/// Checks a skill. `tree` is what stands on disk around it.
pub fn validate(path: &str, content: &str, tree: &SkillTree) -> (out: Vec<Finding>)
    ensures
        finding_models(out@) == skill_findings(path@, content@, *tree),
{
    let fm = parse(content);
    validate_with(path, content, &fm, tree)
}

/// Is there an error among some findings?
pub open spec fn has_error(f: Seq<FindingModel>) -> bool {
    exists|i: int| 0 <= i < f.len() && (#[trigger] f[i]).severity == Severity::Error
}

/// A skill's header has an error exactly when it is not there, when its name or
/// its description is missing or empty, when its name is not that of its
/// directory, or when its description is longer than 1024 characters.
pub proof fn law_skill_header(path: Seq<char>, fm: FrontmatterModel)
    ensures
        has_error(header_findings(path, fm)) <==> ({
            let name = text_member(fm.data, "name"@);
            let description = text_member(fm.data, "description"@);
            let dir_name = after_last(dir_of(path), '/');
            ||| !fm.present
            ||| name is None
            ||| name->0.len() == 0
            ||| (dir_name.len() > 0 && !same_ignoring_case(dir_name, name->0)
                && "/skill.md"@.is_suffix_of(lower_of(path)))
            ||| description is None
            ||| description->0.len() == 0
            ||| description->0.len() > 1024
        }),
{
    let name = text_member(fm.data, "name"@);
    let description = text_member(fm.data, "description"@);
    let a = name_findings(path, name);
    let b = description_findings(description);
    let all = header_findings(path, fm);
    if !fm.present {
        assert(all[0].severity == Severity::Error);
    } else {
        assert(all == a + b);
        assert(has_error(all) <==> has_error(a) || has_error(b)) by {
            if has_error(a) {
                let i = choose|i: int| 0 <= i < a.len() && (#[trigger] a[i]).severity == Severity::Error;
                assert(all[i] == a[i]);
            }
            if has_error(b) {
                let i = choose|i: int| 0 <= i < b.len() && (#[trigger] b[i]).severity == Severity::Error;
                assert(all[a.len() + i] == b[i]);
            }
            if has_error(all) {
                let i = choose|i: int|
                    0 <= i < all.len() && (#[trigger] all[i]).severity == Severity::Error;
                if i < a.len() {
                    assert(all[i] == a[i]);
                } else {
                    assert(all[i] == b[i - a.len()]);
                }
            }
        }
        if a.len() > 0 {
            assert(a[0].severity == a[0].severity);
        }
        if b.len() > 0 {
            assert(b[0].severity == Severity::Error);
        }
    }
}

} // verus!
