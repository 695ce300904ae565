//! Frontmatter, prompts, tasks, skills.

use folio_core::artifact::frontmatter;
use folio_core::artifact::prompt;
use folio_core::artifact::references::collect_references;
use folio_core::artifact::skill::{self, SkillFile, SkillTree};
use folio_core::artifact::task::{self, Filter};
use folio_core::artifact::{validate, Severity};
use folio_core::corpus::ArtifactType;
use folio_core::json::Json;
use folio_core::util::Host;

// ---------------------------------------------------------------------------
// Frontmatter
// ---------------------------------------------------------------------------

#[test]
fn parses_a_skill_header() {
    let doc = "---\nname: visual-explainer\ndescription: Draws things\n---\n# Body\n";
    let fm = frontmatter::parse(doc);
    assert!(fm.present);
    assert_eq!(fm.get_str("name"), Some("visual-explainer"));
    assert_eq!(&doc[fm.body_offset..], "# Body\n");
    assert_eq!(fm.body_line, 5);
}

#[test]
fn an_unclosed_fence_is_not_frontmatter() {
    let doc = "---\nname: x\n# Body\n";
    let fm = frontmatter::parse(doc);
    assert!(!fm.present);
    assert_eq!(fm.body_offset, 0);
}

#[test]
fn a_horizontal_rule_is_not_frontmatter() {
    let doc = "# Title\n\n---\n\ntext\n";
    assert!(!frontmatter::parse(doc).present);
}

#[test]
fn variables_accept_both_shapes() {
    let plain = frontmatter::parse("---\nvariables: [topic, tone]\n---\n");
    assert_eq!(plain.string_list("variables").unwrap(), vec!["topic", "tone"]);
    let rich = frontmatter::parse("---\nvariables:\n  - name: topic\n  - name: tone\n---\n");
    assert_eq!(rich.string_list("variables").unwrap(), vec!["topic", "tone"]);
}

#[test]
fn malformed_yaml_is_reported_not_fatal() {
    let fm = frontmatter::parse("---\nname: [unclosed\n---\nbody\n");
    assert!(fm.present);
    assert!(fm.parse_error.is_some());
}

#[test]
fn yaml_values_become_json_values() {
    let fm = frontmatter::parse("---\nn: 3\nm: -4\nyes: true\nnone: null\nlist: [a, 1]\n---\n");
    assert!(matches!(fm.get("yes"), Some(Json::Bool(true))));
    assert!(matches!(fm.get("none"), Some(Json::Null)));
    assert_eq!(folio_core::json::to_text(fm.get("n").unwrap()), "3");
    assert_eq!(folio_core::json::to_text(fm.get("m").unwrap()), "-4");
    assert_eq!(folio_core::json::to_text(fm.get("list").unwrap()), "[\"a\",1]");
    assert!(!fm.has("absent"));
    assert_eq!(frontmatter::body_of("---\na: 1\n---\nbody\n"), "body\n");
}

// ---------------------------------------------------------------------------
// Prompts
// ---------------------------------------------------------------------------

fn vars(pairs: &[(&str, &str)]) -> Vec<(String, Json)> {
    pairs.iter().map(|(k, v)| (k.to_string(), Json::Text(v.to_string()))).collect()
}

#[test]
fn an_undeclared_slot_is_flagged() {
    let doc = "---\nname: brief\nvariables: [topic]\n---\nWrite about {{topic}} in a {{tone}} voice.\n";
    let findings = prompt::validate(doc);
    let f = findings.iter().find(|f| f.rule == "prompt.slot.undeclared").unwrap();
    assert!(f.message.contains("tone"));
}

#[test]
fn an_unused_variable_is_a_warning() {
    let doc = "---\nname: brief\nvariables: [topic, tone]\n---\nWrite about {{topic}}.\n";
    let findings = prompt::validate(doc);
    assert!(findings
        .iter()
        .any(|f| f.rule == "prompt.variable.unused" && f.message.contains("tone")));
}

#[test]
fn render_fills_slots() {
    let doc = "---\nname: brief\nvariables: [topic, tone]\n---\nWrite about {{topic}} in a {{tone}} voice.\n";
    let out = prompt::render(doc, &vars(&[("topic", "otters"), ("tone", "dry")])).unwrap();
    assert_eq!(out, "Write about otters in a dry voice.\n");
}

#[test]
fn render_refuses_rather_than_leaving_a_hole() {
    let doc = "---\nname: brief\nvariables: [topic]\n---\n{{topic}}\n";
    let err = prompt::render(doc, &Vec::new()).unwrap_err();
    assert_eq!(err.code(), "invalid");
    assert!(err.message().contains("topic"));
}

#[test]
fn render_names_every_missing_slot() {
    let doc = "---\nvariables: [a, b, c]\n---\n{{a}} {{b}} {{c}}\n";
    let err = prompt::render(doc, &vars(&[("b", "x"), ("extra", "y")])).unwrap_err();
    assert_eq!(err.message(), "invalid: missing values for a, c");
    assert!(prompt::render(doc, &vars(&[("a", ""), ("b", ""), ("c", ""), ("d", "")])).is_ok());
}

#[test]
fn each_slot_and_each_variable_is_reported_once() {
    let doc = "---\nvariables: [a, b]\n---\n{{c}} {{a}} {{c}}\n{{d}}\n";
    let found = prompt::validate(doc);
    let of = |rule: &str| found.iter().filter(|f| f.rule == rule).collect::<Vec<_>>();
    let slots = of("prompt.slot.undeclared");
    assert_eq!(slots.len(), 2);
    assert!(slots[0].message.contains("{{c}}") && slots[1].message.contains("{{d}}"));
    assert_eq!((slots[0].line, slots[1].line), (Some(4), Some(5)));
    assert_eq!(of("prompt.variable.unused").len(), 1);
    assert!(of("prompt.no_variables").is_empty());
    let plain = prompt::validate("Just prose.\n");
    assert_eq!(plain.len(), 1);
    assert_eq!(plain[0].rule, "prompt.no_variables");
}

#[test]
fn declared_defaults_are_used_when_no_value_is_given() {
    let doc = "---\nname: brief\nvariables:\n  - name: tone\n    default: dry\n---\nA {{tone}} voice.\n";
    assert_eq!(prompt::render(doc, &Vec::new()).unwrap(), "A dry voice.\n");
}

#[test]
fn slots_inside_code_fences_are_left_alone() {
    let doc = "---\nname: t\nvariables: [topic]\n---\nAbout {{topic}}.\n\n```\nliteral {{topic}}\n```\n";
    let out = prompt::render(doc, &vars(&[("topic", "otters")])).unwrap();
    assert!(out.contains("About otters."));
    assert!(out.contains("literal {{topic}}"), "fenced text must render verbatim");
}

#[test]
fn declared_and_used_variables_are_listed() {
    let doc = "---\nvariables:\n  - name: tone\n    default: dry\n  - topic\n---\n{{topic}} {{tone}} {{topic}}\n";
    let declared = prompt::declared_variables(doc);
    assert_eq!(declared.len(), 2);
    assert_eq!(declared[0].name, "tone");
    assert_eq!(declared[0].default.as_deref(), Some("dry"));
    assert_eq!(prompt::used_slots(doc), vec!["topic", "tone"]);
}

// ---------------------------------------------------------------------------
// Tasks
// ---------------------------------------------------------------------------

const DOC: &str = "# TODO\n\n- [ ] Ship Folio 1.0 @carlos #release\n- [x] Write the spec @carlos\n  - [ ] Nested item #docs\n";

#[test]
fn parses_the_grammar() {
    let tasks = task::parse(DOC);
    assert_eq!(tasks.len(), 3);
    assert_eq!(tasks[0].id, "L3");
    assert_eq!(tasks[0].text, "Ship Folio 1.0");
    assert_eq!(tasks[0].owner.as_deref(), Some("carlos"));
    assert_eq!(tasks[0].tags, vec!["release"]);
    assert!(!tasks[0].done);
    assert!(tasks[1].done);
    assert_eq!(tasks[2].indent, 2);
}

#[test]
fn tasks_inside_code_fences_are_not_tasks() {
    let doc = "```\n- [ ] not a real task\n```\n- [ ] a real one\n";
    let tasks = task::parse(doc);
    assert_eq!(tasks.len(), 1);
    assert_eq!(tasks[0].line, 4);
}

#[test]
fn set_status_preserves_owner_tags_and_indent() {
    let out = task::set_status(DOC, "L5", true).unwrap();
    assert!(out.contains("  - [x] Nested item #docs"));
    // Nothing else moved.
    assert!(out.contains("- [ ] Ship Folio 1.0 @carlos #release"));
}

#[test]
fn set_status_on_a_line_that_is_no_longer_a_task_fails() {
    let err = task::set_status(DOC, "L1", true).unwrap_err();
    assert_eq!(err.code(), "not_found");
}

#[test]
fn set_status_names_what_is_wrong() {
    assert_eq!(task::set_status(DOC, "L99", true).unwrap_err().code(), "not_found");
    assert_eq!(task::set_status(DOC, "x9", true).unwrap_err().code(), "invalid");
    assert_eq!(task::set_status(DOC, "L0", true).unwrap_err().code(), "invalid");
    // Ticking what is ticked changes nothing.
    assert_eq!(task::set_status(DOC, "L4", true).unwrap(), DOC);
}

#[test]
fn set_status_ticks_only_what_is_listed() {
    let doc = "```\n- [ ] Sample\n```\n- [ ] Real\n";
    assert_eq!(task::set_status(doc, "L2", true).unwrap_err().code(), "not_found");
    let ticked = task::set_status(doc, "L4", true).unwrap();
    assert_eq!(ticked, "```\n- [ ] Sample\n```\n- [x] Real\n");
}

#[test]
fn set_status_rewrites_the_box_alone() {
    let doc = "* [ ]   Ask @ana   and @bob  #a #b \r\n- [X] Done\r\n";
    let ticked = task::set_status(doc, "L1", true).unwrap();
    assert_eq!(ticked, doc.replace("[ ]", "[x]"));
    let again = task::set_status(&ticked, "L1", true).unwrap();
    assert_eq!(again, ticked);
    assert_eq!(task::set_status(&ticked, "L1", false).unwrap(), doc);
    assert_eq!(task::parse(&ticked)[0].owner, task::parse(doc)[0].owner);
}

#[test]
fn add_appends_after_the_last_task() {
    let (out, line) =
        task::add(DOC, "Package the installer", Some("carlos"), &["release".into()]).unwrap();
    assert_eq!(line, 6);
    assert!(out.ends_with("- [ ] Package the installer @carlos #release\n"));
}

#[test]
fn add_to_a_document_with_no_tasks_starts_a_list() {
    let (out, _) = task::add("# Notes\n", "First thing", None, &[]).unwrap();
    assert_eq!(out, "# Notes\n\n- [ ] First thing\n");
}

#[test]
fn add_refuses_a_task_without_text() {
    assert_eq!(task::add("# Notes\n", "  ", None, &[]).unwrap_err().code(), "invalid");
}

#[test]
fn round_trips_a_formatted_line() {
    let line = task::format_line("Ship it", false, Some("carlos"), &["release".into()], 0);
    assert_eq!(line, "- [ ] Ship it @carlos #release");
    let task = task::parse_line(&line, 1);
    assert_eq!(task.text, "Ship it");
    assert_eq!(task.owner.as_deref(), Some("carlos"));
}

#[test]
fn a_formatted_line_is_a_document_with_one_task() {
    let tags = ["release".to_string(), "q-3".to_string()];
    let line = task::format_line("Ship it now", true, Some("carlos"), &tags, 4);
    let tasks = task::parse(&line);
    assert_eq!(tasks.len(), 1);
    assert_eq!((tasks[0].line, tasks[0].indent, tasks[0].done), (1, 4, true));
    assert_eq!(tasks[0].text, "Ship it now");
    assert_eq!(tasks[0].owner.as_deref(), Some("carlos"));
    assert_eq!(tasks[0].tags, tags);
}

#[test]
fn filters_by_owner_tag_and_openness() {
    let tasks = task::parse(DOC);
    let f = Filter { owner: Some("@carlos".into()), open_only: true, ..Default::default() };
    let hits: Vec<_> = tasks.iter().filter(|t| f.matches(t)).collect();
    assert_eq!(hits.len(), 1);
    assert_eq!(hits[0].text, "Ship Folio 1.0");
}

#[test]
fn filters_by_tag_and_by_words_in_any_case() {
    let tasks = task::parse(DOC);
    let by_tag = Filter { tag: Some("#DOCS".into()), ..Default::default() };
    assert_eq!(tasks.iter().filter(|t| by_tag.matches(t)).count(), 1);
    let by_word = Filter { query: Some("SHIP".into()), ..Default::default() };
    assert_eq!(tasks.iter().filter(|t| by_word.matches(t)).count(), 1);
}

#[test]
fn task_ids_name_lines() {
    assert_eq!(task::id_for_line(42), "L42");
    assert_eq!(task::line_of_id(" l42 ").unwrap(), 42);
    assert_eq!(task::line_of_id("forty").unwrap_err().code(), "invalid");
}

// ---------------------------------------------------------------------------
// Skills
// ---------------------------------------------------------------------------

const SKILL: &str = "/work/visual-explainer/SKILL.md";

/// The tree of a skill with a command and a reference, as it looks to the
/// document with this content.
fn skill_tree(content: &str, palette: &str) -> SkillTree {
    let there = ["commands/render.md", "references/palette.md", "commands", "references"];
    let present = collect_references(content)
        .into_iter()
        .map(|r| r.target)
        .filter(|t| there.contains(&t.trim_start_matches("./")))
        .collect();
    SkillTree {
        present,
        entries: vec!["commands/render.md".into(), "references/palette.md".into()],
        commands: Some(vec!["render".into()]),
        files: vec![
            SkillFile { path: SKILL.into(), text: Some(content.into()) },
            SkillFile {
                path: "/work/visual-explainer/commands/render.md".into(),
                text: Some("# render\n".into()),
            },
            SkillFile {
                path: "/work/visual-explainer/references/palette.md".into(),
                text: Some(palette.into()),
            },
        ],
    }
}

fn check(content: &str) -> Vec<folio_core::artifact::Finding> {
    skill::validate(SKILL, content, &skill_tree(content, "# palette\n"))
}

#[test]
fn a_clean_skill_has_no_errors() {
    let content = "---\nname: visual-explainer\ndescription: Draws things clearly.\n---\n\
        Short overview.\n\n## Workflow\n\nSee [palette](references/palette.md).\n\n\
        ## Commands\n\n| Command | Purpose |\n|---|---|\n| `render` | Render it |\n\n\
        ## Quality checks\n\nLook at it.\n";
    let findings = check(content);
    let errors: Vec<_> = findings.iter().filter(|f| f.severity == Severity::Error).collect();
    assert!(errors.is_empty(), "unexpected errors: {errors:#?}");
}

#[test]
fn a_broken_reference_is_an_error() {
    let content = "---\nname: visual-explainer\ndescription: Draws.\n---\n\
        ## Workflow\n\nSee [gone](references/gone.md).\n";
    let findings = check(content);
    assert!(findings.iter().any(|f| f.rule == "skill.reference.missing" && f.line == Some(7)));
}

#[test]
fn an_unreferenced_file_is_reported_as_an_orphan() {
    let content =
        "---\nname: visual-explainer\ndescription: Draws.\n---\n## Workflow\n\nNothing linked.\n";
    let findings = check(content);
    assert!(findings.iter().any(|f| f.rule == "skill.reference.orphan"
        && f.file.as_deref() == Some("references/palette.md")));
}

#[test]
fn the_command_table_is_cross_checked_both_ways() {
    let content = "---\nname: visual-explainer\ndescription: Draws.\n---\n\
        ## Commands\n\n| Command | Purpose |\n|---|---|\n| `explain` | Explain |\n\n\
        [palette](references/palette.md)\n";
    let findings = check(content);
    assert!(findings.iter().any(|f| f.rule == "skill.commands.table_ghost"), "listed-but-absent");
    assert!(
        findings.iter().any(|f| f.rule == "skill.commands.table_missing"),
        "present-but-unlisted"
    );
}

#[test]
fn name_must_match_the_directory() {
    let content = "---\nname: something-else\ndescription: Draws.\n---\n## Workflow\n";
    let findings = check(content);
    assert!(findings.iter().any(|f| f.rule == "skill.frontmatter.name.mismatch"));
}

#[test]
fn a_skill_lints_itself() {
    let content = "---\nname: visual-explainer\ndescription: Draws.\nlint:\n  forbidden: [\"#8b5cf6\"]\n---\n\
        ## Workflow\n\n[palette](references/palette.md)\n\n[render](commands/render.md)\n";
    let findings =
        skill::validate(SKILL, content, &skill_tree(content, "Use #8b5cf6 for accents.\n"));
    let hit = findings
        .iter()
        .find(|f| f.rule == "skill.lint.forbidden")
        .expect("the skill's own rule must apply to its own files");
    assert_eq!(hit.file.as_deref(), Some("references/palette.md"));
}

#[test]
fn declaring_a_forbidden_pattern_is_not_violating_it() {
    let content = "---\nname: visual-explainer\ndescription: Draws.\nlint:\n  forbidden: [\"font-family: Inter\"]\n---\n\
        ## Workflow\n\n[palette](references/palette.md)\n\n[render](commands/render.md)\n";
    let findings = check(content);
    assert!(
        !findings.iter().any(|f| f.rule == "skill.lint.forbidden"),
        "the rule's own declaration must not trip it: {findings:#?}"
    );

    // But the same string in the body still does.
    let violating = content.replace("## Workflow\n", "## Workflow\n\nUse font-family: Inter here.\n");
    let findings = check(&violating);
    let hit = findings
        .iter()
        .find(|f| f.rule == "skill.lint.forbidden")
        .expect("a real violation is still caught");
    assert_eq!(hit.line, Some(9));
}

#[test]
fn an_over_long_description_is_an_error() {
    let long = "x".repeat(1100);
    let content = format!("---\nname: visual-explainer\ndescription: {long}\n---\n## Workflow\n");
    let findings = check(&content);
    assert!(findings.iter().any(|f| f.rule == "skill.frontmatter.description.long"));
}

// ---------------------------------------------------------------------------
// Reports
// ---------------------------------------------------------------------------

fn no_tree() -> SkillTree {
    SkillTree { present: vec![], entries: vec![], commands: None, files: vec![] }
}

#[test]
fn a_report_puts_the_worst_first_and_counts() {
    let doc = "---\nvariables: [topic, tone]\n---\nAbout {{topic}} and {{mood}}.\n\n```\nopen\n";
    let report = validate("/work/a.md", doc, &[], &no_tree(), &Host::new(None, false));
    assert_eq!(report.artifact_type, ArtifactType::Prompt);
    assert!(report.errors >= 1);
    assert!(report.warnings >= 2);
    assert!(!report.ok);
    assert_eq!(report.findings[0].severity, Severity::Error);
    assert!(report.findings.iter().any(|f| f.rule == "markdown.unclosed_fence"));
}

#[test]
fn an_asset_is_tracked_and_nothing_else() {
    let report = validate("/work/a.png", "", &[], &no_tree(), &Host::new(None, false));
    assert_eq!(report.artifact_type, ArtifactType::Asset);
    assert_eq!(report.findings.len(), 1);
    assert_eq!(report.findings[0].rule, "asset.tracked");
    assert!(report.ok);
}
