//! Type-aware validation: every artifact type gets the checks that make sense
//! for it and none that do not.

use crate::artifact::finding::{
    finding_at, finding_models, is_validation, plain_finding, push_finding, Finding, FindingModel,
    Severity, Validation,
};
use crate::artifact::frontmatter::{frontmatter_of, parse, Frontmatter};
use crate::artifact::prompt::{self, prompt_findings};
use crate::artifact::skill::{self, skill_findings, SkillTree};
use crate::artifact::task::{self, task_findings};
use crate::corpus::types::ArtifactType;
use crate::corpus::typing::{detect_type, type_of};
use crate::fence::{fence_of, fence_view, is_fence, step};
use crate::text::{chars_of, lines, text_lines, trim_start_of, views};
use crate::util::Host;
use vstd::prelude::*;

verus! {

/// The line number of the fence that is open behind some lines.
pub open spec fn opened_at(lines: Seq<Seq<char>>) -> Option<int>
    decreases lines.len(),
{
    if lines.len() == 0 || fence_of(lines) is None {
        None
    } else if fence_of(lines.drop_last()) is None {
        Some(lines.len() as int)
    } else {
        opened_at(lines.drop_last())
    }
}

/// The findings that apply to any markdown document.
pub open spec fn common_findings(
    content: Seq<char>,
    parse_error: Option<Seq<char>>,
) -> Seq<FindingModel> {
    let yaml = match parse_error {
        Some(e) => seq![
            finding_at(
                Severity::Error,
                "frontmatter.invalid"@,
                "Frontmatter is not valid YAML: "@ + e,
                1,
            ),
        ],
        None => Seq::empty(),
    };
    match opened_at(text_lines(content)) {
        Some(line) => yaml.push(
            finding_at(
                Severity::Warning,
                "markdown.unclosed_fence"@,
                "A fenced code block is never closed."@,
                line,
            ),
        ),
        None => yaml,
    }
}

/// The findings about a document of a type.
pub open spec fn findings_of(
    path: Seq<char>,
    content: Seq<char>,
    ty: ArtifactType,
    tree: SkillTree,
) -> Seq<FindingModel> {
    let common = common_findings(content, frontmatter_of(content).parse_error);
    match ty {
        ArtifactType::Skill => common + skill_findings(path, content, tree),
        ArtifactType::Prompt => common + prompt_findings(content),
        ArtifactType::TaskList => common + task_findings(content),
        ArtifactType::Doc => common,
        ArtifactType::Asset => seq![
            plain_finding(
                Severity::Info,
                "asset.tracked"@,
                "Tracked and restorable, but not diffed or edited."@,
            ),
        ],
    }
}

/// The line number of the fence that is never closed, if there is one.
pub fn unclosed_fence(content: &str) -> (out: Option<usize>)
    ensures
        match out {
            Some(n) => opened_at(text_lines(content@)) == Some(n as int),
            None => opened_at(text_lines(content@)) is None,
        },
{
    let all = lines(&chars_of(content));
    let ghost ls = text_lines(content@);
    let mut fence: Option<String> = None;
    let mut opened: Option<usize> = None;
    let mut i: usize = 0;
    while i < all.len()
        invariant
            views(all@) == ls,
            i <= all.len(),
            fence_view(fence) == fence_of(ls.take(i as int)),
            match opened {
                Some(n) => opened_at(ls.take(i as int)) == Some(n as int),
                None => opened_at(ls.take(i as int)) is None,
            },
        decreases all.len() - i,
    {
        assert(ls.take(i + 1).drop_last() =~= ls.take(i as int));
        let was_open = fence.is_some();
        let (next, _) = step(fence, all[i].as_str());
        fence = next;
        if fence.is_none() {
            opened = None;
        } else if !was_open {
            opened = Some(i + 1);
        }
        i += 1;
    }
    assert(ls.take(i as int) =~= ls);
    opened
}

fn common(content: &str, fm: &Frontmatter) -> (out: Vec<Finding>)
    ensures
        finding_models(out@) == common_findings(content@, fm@.parse_error),
{
    let mut out: Vec<Finding> = Vec::new();
    assert(finding_models(out@) =~= Seq::<FindingModel>::empty());
    if let Some(e) = &fm.parse_error {
        let mut message = "Frontmatter is not valid YAML: ".to_owned();
        message.append(e.as_str());
        push_finding(&mut out, Finding::error("frontmatter.invalid", message.as_str()).at(1));
        assert(finding_models(out@) =~= seq![
            finding_at(
                Severity::Error,
                "frontmatter.invalid"@,
                "Frontmatter is not valid YAML: "@ + e@,
                1,
            ),
        ]);
    }
    if let Some(line) = unclosed_fence(content) {
        push_finding(
            &mut out,
            Finding::warning(
                "markdown.unclosed_fence",
                "A fenced code block is never closed.",
            ).at(line),
        );
    }
    out
}

fn joined(front: Vec<Finding>, back: Vec<Finding>) -> (out: Vec<Finding>)
    ensures
        finding_models(out@) == finding_models(front@) + finding_models(back@),
{
    let ghost f = finding_models(front@);
    let ghost b = finding_models(back@);
    let mut out = front;
    let mut rest = back;
    out.append(&mut rest);
    assert(finding_models(out@) =~= f + b);
    out
}

/// Checks a document. `dirs` are the names of the directories beside it, `tree`
/// is what stands on disk around a skill, and `host` is where paths are shown.
pub fn validate(
    path: &str,
    content: &str,
    dirs: &[String],
    tree: &SkillTree,
    host: &Host,
) -> (out: Validation)
    ensures
        is_validation(
            out,
            path@,
            type_of(path@, content@, views(dirs@)),
            findings_of(path@, content@, type_of(path@, content@, views(dirs@)), *tree),
            host@,
        ),
{
    let ty = detect_type(path, content, dirs);
    let fm = parse(content);
    let findings = match ty {
        ArtifactType::Skill => joined(
            common(content, &fm),
            skill::validate(path, content, tree),
        ),
        ArtifactType::Prompt => joined(common(content, &fm), prompt::validate(content)),
        ArtifactType::TaskList => joined(common(content, &fm), task::validate(content)),
        ArtifactType::Doc => common(content, &fm),
        ArtifactType::Asset => {
            let mut only: Vec<Finding> = Vec::new();
            push_finding(
                &mut only,
                Finding::info(
                    "asset.tracked",
                    "Tracked and restorable, but not diffed or edited.",
                ),
            );
            assert(finding_models(only@) =~= seq![
                plain_finding(
                    Severity::Info,
                    "asset.tracked"@,
                    "Tracked and restorable, but not diffed or edited."@,
                ),
            ]);
            only
        },
    };
    Validation::new(path, ty, findings, host)
}

/// A code block that is never closed is reported on the line that opens it: no
/// block is open before that line, and one is open behind it and every line
/// after it. Where nothing is reported, no block is open at the end.
pub proof fn law_unclosed_fence_is_where_it_opens(lines: Seq<Seq<char>>)
    ensures
        opened_at(lines) is None <==> fence_of(lines) is None,
        opened_at(lines) matches Some(n) ==> {
            &&& 1 <= n <= lines.len()
            &&& fence_of(lines.take(n - 1)) is None
            &&& is_fence(trim_start_of(lines[n - 1]))
            &&& forall|m: int| n <= m <= lines.len() ==> fence_of(#[trigger] lines.take(m)) is Some
        },
    decreases lines.len(),
{
    if lines.len() > 0 && fence_of(lines) is Some {
        let d = lines.drop_last();
        let len = lines.len() as int;
        assert(lines.take(len) =~= lines);
        assert(lines.take(len - 1) =~= d);
        law_unclosed_fence_is_where_it_opens(d);
        if fence_of(d) is Some {
            let n = opened_at(d)->0;
            assert(d.take(n - 1) =~= lines.take(n - 1));
            assert forall|m: int| n <= m <= len implies fence_of(#[trigger] lines.take(m))
                is Some by {
                if m < len {
                    assert(d.take(m) =~= lines.take(m));
                }
            }
        }
    }
}

} // verus!
