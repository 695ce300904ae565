//! Prompt templates: `{{slot}}` bodies with declared variables.
//!
//! Rendering is in scope; execution is not. No model is ever called: that
//! boundary is what keeps this a markdown workshop instead of a chat client.

use crate::artifact::finding::{
    finding_models, plain_finding, push_finding, Finding, FindingModel, Severity,
};
use crate::artifact::frontmatter::{
    body_chars, body_text, find_member, frontmatter_of, parse, text_member, Frontmatter,
};
use crate::artifact::yaml::member_models;
use crate::corpus::typing::{
    distinct, law_slots_distinct, names_with, slot_name, slot_names, slots_from, slots_of,
    slots_of_lines,
};
use crate::error::{message_of, Error, ErrorModel, Result};
use crate::fence::{fence_of, fence_view, is_fence, is_plain, plain_lines, step};
use crate::json::{json_text, member_of, model, to_text, Json, JsonModel};
use crate::text::{
    among, chars_of, contains, find_from, find_of, is_among, is_space, join, join_of, lemma_find,
    lemma_index_unique, lemma_join_concat, lemma_line_count, lines, occurs, occurs_at, opt_view,
    part, same_str, solid, string_of, text_lines, trim, trim_of, trim_start_of, views,
};
use vstd::prelude::*;

verus! {

/// A variable that a prompt declares.
#[derive(Debug)]
pub struct VariableSpec {
    pub name: String,
    pub default: Option<String>,
    pub description: Option<String>,
    pub required: bool,
}

/// What a declared variable is.
pub struct VariableModel {
    pub name: Seq<char>,
    pub default: Option<Seq<char>>,
    pub description: Option<Seq<char>>,
    pub required: bool,
}

impl View for VariableSpec {
    type V = VariableModel;

    open spec fn view(&self) -> VariableModel {
        VariableModel {
            name: self.name@,
            default: opt_view(self.default),
            description: opt_view(self.description),
            required: self.required,
        }
    }
}

pub open spec fn variable_models(v: Seq<VariableSpec>) -> Seq<VariableModel> {
    Seq::new(v.len(), |i: int| v[i]@)
}

// ---------------------------------------------------------------------------
// Declarations
// ---------------------------------------------------------------------------

/// A value as it stands in a text: a string as it is, nothing for null, any
/// other value as JSON.
pub open spec fn plain_text(v: JsonModel) -> Seq<char> {
    match v {
        JsonModel::Text(s) => s,
        JsonModel::Null => Seq::empty(),
        other => json_text(other),
    }
}

/// A variable that must be given.
pub open spec fn bare_variable(name: Seq<char>) -> VariableModel {
    VariableModel { name, default: None, description: None, required: true }
}

/// A variable described by a mapping. It must be given unless it has a default
/// or says otherwise.
pub open spec fn variable_from(
    name: Seq<char>,
    members: Seq<(Seq<char>, JsonModel)>,
) -> VariableModel {
    let default = match member_of(members, "default"@) {
        Some(v) => Some(plain_text(v)),
        None => None,
    };
    VariableModel {
        name,
        required: match member_of(members, "required"@) {
            Some(JsonModel::Bool(b)) => b,
            _ => default is None,
        },
        default,
        description: text_member(members, "description"@),
    }
}

/// The variables that the items of a list declare.
pub open spec fn listed_variables(items: Seq<JsonModel>) -> Seq<VariableModel>
    decreases items.len(),
{
    if items.len() == 0 {
        Seq::empty()
    } else {
        let before = listed_variables(items.drop_last());
        match items.last() {
            JsonModel::Text(name) => before.push(bare_variable(name)),
            JsonModel::Object(members) => match text_member(members, "name"@) {
                Some(name) => before.push(variable_from(name, members)),
                None => before,
            },
            _ => before,
        }
    }
}

/// The variable that one member of a mapping declares.
pub open spec fn mapped_variable(name: Seq<char>, v: JsonModel) -> VariableModel {
    match v {
        JsonModel::Object(inner) => variable_from(name, inner),
        JsonModel::Text(default) => VariableModel {
            name,
            default: Some(default),
            description: None,
            required: false,
        },
        _ => bare_variable(name),
    }
}

/// The variables that a `variables` member declares, in declaration order.
pub open spec fn variables_in(raw: Option<JsonModel>) -> Seq<VariableModel> {
    match raw {
        Some(JsonModel::Array(items)) => listed_variables(items),
        Some(JsonModel::Object(members)) => Seq::new(
            members.len(),
            |i: int| mapped_variable(members[i].0, members[i].1),
        ),
        Some(JsonModel::Text(name)) => seq![bare_variable(name)],
        _ => Seq::empty(),
    }
}

/// The variables that a document declares.
pub open spec fn variables_of(content: Seq<char>) -> Seq<VariableModel> {
    variables_in(member_of(frontmatter_of(content).data, "variables"@))
}

fn value_to_string(v: &Json) -> (out: String)
    ensures
        out@ == plain_text(v@),
{
    match v {
        Json::Text(s) => s.clone(),
        Json::Null => String::new(),
        _ => to_text(v),
    }
}

fn spec_from_map(name: &str, members: &Vec<(String, Json)>) -> (out: VariableSpec)
    ensures
        out@ == variable_from(name@, member_models(members@)),
{
    let default = match find_member(members, "default") {
        Some(v) => Some(value_to_string(v)),
        None => None,
    };
    let required = match find_member(members, "required") {
        Some(Json::Bool(b)) => *b,
        _ => default.is_none(),
    };
    let description = match find_member(members, "description") {
        Some(Json::Text(s)) => Some(s.clone()),
        _ => None,
    };
    VariableSpec { name: name.to_owned(), default, description, required }
}

fn bare(name: &str) -> (out: VariableSpec)
    ensures
        out@ == bare_variable(name@),
{
    VariableSpec { name: name.to_owned(), default: None, description: None, required: true }
}

fn push_variable(out: &mut Vec<VariableSpec>, v: VariableSpec)
    ensures
        variable_models(final(out)@) == variable_models(old(out)@).push(v@),
{
    let ghost before = variable_models(out@);
    out.push(v);
    assert(variable_models(out@) =~= before.push(v@));
}

/// The variables that a frontmatter declares, in declaration order. A list may
/// hold names and mappings; a mapping gives each name its description.
pub fn variables_from(fm: &Frontmatter) -> (out: Vec<VariableSpec>)
    ensures
        variable_models(out@) == variables_in(member_of(fm@.data, "variables"@)),
{
    let mut out: Vec<VariableSpec> = Vec::new();
    assert(variable_models(out@) =~= Seq::<VariableModel>::empty());
    match fm.get("variables") {
        Some(Json::Array(items)) => {
            let ghost all = model(Json::Array(*items))->Array_0;
            let mut i: usize = 0;
            assert(variable_models(out@) =~= listed_variables(all.take(0)));
            while i < items.len()
                invariant
                    all == model(Json::Array(*items))->Array_0,
                    i <= items.len(),
                    variable_models(out@) == listed_variables(all.take(i as int)),
                decreases items.len() - i,
            {
                assert(all.take(i + 1).drop_last() =~= all.take(i as int));
                assert(all[i as int] == items@[i as int]@);
                match &items[i] {
                    Json::Text(name) => {
                        push_variable(&mut out, bare(name.as_str()));
                    },
                    Json::Object(members) => {
                        assert(model(items@[i as int])->Object_0 =~= member_models(members@));
                        match find_member(members, "name") {
                            Some(Json::Text(name)) => {
                                push_variable(&mut out, spec_from_map(name.as_str(), members));
                            },
                            _ => {},
                        }
                    },
                    _ => {},
                }
                i += 1;
            }
            assert(all.take(i as int) =~= all);
        },
        Some(Json::Object(members)) => {
            let ghost all = model(Json::Object(*members))->Object_0;
            let ghost goal = Seq::new(
                all.len(),
                |i: int| mapped_variable(all[i].0, all[i].1),
            );
            let mut i: usize = 0;
            while i < members.len()
                invariant
                    all == model(Json::Object(*members))->Object_0,
                    goal == Seq::new(all.len(), |i: int| mapped_variable(all[i].0, all[i].1)),
                    i <= members.len(),
                    variable_models(out@) == goal.take(i as int),
                decreases members.len() - i,
            {
                assert(all[i as int] == (members@[i as int].0@, members@[i as int].1@));
                let name = members[i].0.as_str();
                let v = match &members[i].1 {
                    Json::Object(inner) => {
                        assert(model(members@[i as int].1)->Object_0 =~= member_models(inner@));
                        spec_from_map(name, inner)
                    },
                    Json::Text(default) => VariableSpec {
                        name: name.to_owned(),
                        default: Some(default.clone()),
                        description: None,
                        required: false,
                    },
                    _ => bare(name),
                };
                assert(v@ == goal[i as int]);
                push_variable(&mut out, v);
                assert(goal.take(i + 1) =~= goal.take(i as int).push(goal[i as int]));
                i += 1;
            }
            assert(goal.take(i as int) =~= goal);
        },
        Some(Json::Text(name)) => {
            push_variable(&mut out, bare(name.as_str()));
            assert(variable_models(out@) =~= seq![bare_variable(name@)]);
        },
        _ => {},
    }
    out
}

/// Variables as declared in frontmatter, in declaration order.
pub fn declared_variables(content: &str) -> (out: Vec<VariableSpec>)
    ensures
        variable_models(out@) == variables_of(content@),
{
    let fm = parse(content);
    variables_from(&fm)
}

/// Slots used in the body, in first-use order.
pub fn used_slots(content: &str) -> (out: Vec<String>)
    ensures
        views(out@) == slots_of(body_text(content@)),
{
    slot_names(string_of(&body_chars(content)).as_str())
}

// ---------------------------------------------------------------------------
// Validation
// ---------------------------------------------------------------------------

/// Is there a variable of this name?
pub open spec fn declares(declared: Seq<VariableModel>, name: Seq<char>) -> bool {
    exists|i: int| 0 <= i < declared.len() && (#[trigger] declared[i]).name == name
}

/// The number of the first line, from `i` on, that uses a slot.
pub open spec fn slot_line_from(lines: Seq<Seq<char>>, slot: Seq<char>, i: int) -> Option<int>
    decreases lines.len() - i,
{
    if i < 0 || i >= lines.len() {
        None
    } else if occurs(lines[i], "{{"@ + slot) {
        Some(i)
    } else {
        slot_line_from(lines, slot, i + 1)
    }
}

/// The document line that first uses a slot.
pub open spec fn slot_line_of(body: Seq<char>, body_line: int, slot: Seq<char>) -> int {
    match slot_line_from(text_lines(body), slot, 0) {
        Some(i) => body_line + i,
        None => body_line,
    }
}

/// The finding about a slot that no variable declares.
pub open spec fn undeclared_finding(slot: Seq<char>, line: int) -> FindingModel {
    FindingModel {
        severity: Severity::Error,
        rule: "prompt.slot.undeclared"@,
        message: "`{{"@ + slot + "}}` is used in the body but not declared in `variables`."@,
        line: Some(line),
        file: None,
        hint: Some("Add `"@ + slot + "` to the frontmatter `variables` list."@),
    }
}

/// Every slot in the body must be declared, or a render silently leaves a
/// literal slot in the text.
pub open spec fn slot_findings(
    used: Seq<Seq<char>>,
    declared: Seq<VariableModel>,
    body: Seq<char>,
    body_line: int,
) -> Seq<FindingModel>
    decreases used.len(),
{
    if used.len() == 0 {
        Seq::empty()
    } else {
        let before = slot_findings(used.drop_last(), declared, body, body_line);
        if declares(declared, used.last()) {
            before
        } else {
            before.push(
                undeclared_finding(used.last(), slot_line_of(body, body_line, used.last())),
            )
        }
    }
}

/// The finding about a variable that the body never uses.
pub open spec fn unused_finding(name: Seq<char>) -> FindingModel {
    FindingModel {
        severity: Severity::Warning,
        rule: "prompt.variable.unused"@,
        message: "`"@ + name + "` is declared but never used in the body."@,
        line: Some(1),
        file: None,
        hint: None,
    }
}

/// Every declared variable must be used, or the caller is asked for something
/// that goes nowhere.
pub open spec fn variable_findings(
    declared: Seq<VariableModel>,
    used: Seq<Seq<char>>,
) -> Seq<FindingModel>
    decreases declared.len(),
{
    if declared.len() == 0 {
        Seq::empty()
    } else {
        let before = variable_findings(declared.drop_last(), used);
        if among(used, declared.last().name) {
            before
        } else {
            before.push(unused_finding(declared.last().name))
        }
    }
}

/// The findings about a prompt with the given declarations.
pub open spec fn prompt_findings_with(
    declared: Seq<VariableModel>,
    body: Seq<char>,
    body_line: int,
) -> Seq<FindingModel> {
    let used = slots_of(body);
    let found = slot_findings(used, declared, body, body_line) + variable_findings(declared, used);
    if declared.len() == 0 && used.len() == 0 {
        found.push(
            plain_finding(
                Severity::Info,
                "prompt.no_variables"@,
                "No variables and no slots; this reads as a plain document."@,
            ),
        )
    } else {
        found
    }
}

/// The findings about a prompt.
pub open spec fn prompt_findings(content: Seq<char>) -> Seq<FindingModel> {
    prompt_findings_with(
        variables_of(content),
        body_text(content),
        frontmatter_of(content).body_line as int,
    )
}

fn is_declared(declared: &Vec<VariableSpec>, name: &str) -> (out: bool)
    ensures
        out == declares(variable_models(declared@), name@),
{
    let mut i: usize = 0;
    while i < declared.len()
        invariant
            i <= declared.len(),
            forall|k: int|
                0 <= k < i ==> (#[trigger] variable_models(declared@)[k]).name != name@,
        decreases declared.len() - i,
    {
        if same_str(declared[i].name.as_str(), name) {
            assert(variable_models(declared@)[i as int].name == name@);
            return true;
        }
        assert(variable_models(declared@)[i as int].name != name@);
        i += 1;
    }
    false
}

fn slot_line(body: &Vec<char>, body_line: usize, slot: &str) -> (out: usize)
    requires
        body_line + body@.len() <= usize::MAX + 1,
    ensures
        out == slot_line_of(body@, body_line as int, slot@),
{
    let mut needle = "{{".to_owned();
    needle.append(slot);
    let wanted = chars_of(needle.as_str());
    let all = lines(body);
    let ghost ls = text_lines(body@);
    proof {
        lemma_line_count(body@);
        assert(all@.len() == views(all@).len());
    }
    let mut i: usize = 0;
    while i < all.len()
        invariant
            views(all@) == ls,
            ls == text_lines(body@),
            wanted@ == "{{"@ + slot@,
            i <= all.len() <= body@.len(),
            body_line + body@.len() <= usize::MAX + 1,
            slot_line_from(ls, slot@, 0) == slot_line_from(ls, slot@, i as int),
        decreases all.len() - i,
    {
        assert(all@[i as int]@ == ls[i as int]);
        if contains(&chars_of(all[i].as_str()), &wanted) {
            return body_line + i;
        }
        i += 1;
    }
    body_line
}

/// Checks a prompt's declarations against its body.
pub fn validate_with(declared: &Vec<VariableSpec>, body: &Vec<char>, body_line: usize) -> (out: Vec<
    Finding,
>)
    requires
        body_line + body@.len() <= usize::MAX + 1,
    ensures
        finding_models(out@) == prompt_findings_with(
            variable_models(declared@),
            body@,
            body_line as int,
        ),
{
    let used = slot_names(string_of(body).as_str());
    let ghost us = slots_of(body@);
    let ghost ds = variable_models(declared@);
    let mut out: Vec<Finding> = Vec::new();
    let mut i: usize = 0;
    assert(finding_models(out@) =~= slot_findings(us.take(0), ds, body@, body_line as int));
    while i < used.len()
        invariant
            views(used@) == us,
            ds == variable_models(declared@),
            body_line + body@.len() <= usize::MAX + 1,
            i <= used.len(),
            finding_models(out@) == slot_findings(us.take(i as int), ds, body@, body_line as int),
        decreases used.len() - i,
    {
        assert(us.take(i + 1).drop_last() =~= us.take(i as int));
        let slot = used[i].as_str();
        if !is_declared(declared, slot) {
            let line: usize = slot_line(body, body_line, slot);
            let mut message = "`{{".to_owned();
            message.append(slot);
            message.append("}}` is used in the body but not declared in `variables`.");
            let mut hint = "Add `".to_owned();
            hint.append(slot);
            hint.append("` to the frontmatter `variables` list.");
            push_finding(
                &mut out,
                Finding::error("prompt.slot.undeclared", message.as_str()).at(line).with_hint(
                    hint.as_str(),
                ),
            );
        }
        i += 1;
    }
    assert(us.take(i as int) =~= us);
    let ghost head = finding_models(out@);
    i = 0;
    assert(head + variable_findings(ds.take(0), us) =~= head);
    while i < declared.len()
        invariant
            views(used@) == us,
            ds == variable_models(declared@),
            i <= declared.len(),
            finding_models(out@) == head + variable_findings(ds.take(i as int), us),
        decreases declared.len() - i,
    {
        assert(ds.take(i + 1).drop_last() =~= ds.take(i as int));
        let name = declared[i].name.as_str();
        if !is_among(&used, name) {
            let mut message = "`".to_owned();
            message.append(name);
            message.append("` is declared but never used in the body.");
            push_finding(
                &mut out,
                Finding::warning("prompt.variable.unused", message.as_str()).at(1),
            );
        }
        assert(finding_models(out@) =~= head + variable_findings(ds.take(i + 1), us));
        i += 1;
    }
    assert(ds.take(i as int) =~= ds);
    assert(views(used@).len() == used@.len());
    if declared.len() == 0 && used.len() == 0 {
        push_finding(
            &mut out,
            Finding::info(
                "prompt.no_variables",
                "No variables and no slots; this reads as a plain document.",
            ),
        );
    }
    out
}

/// Checks a prompt.
pub fn validate(content: &str) -> (out: Vec<Finding>)
    ensures
        finding_models(out@) == prompt_findings(content@),
{
    let fm = parse(content);
    let declared = variables_from(&fm);
    let body = body_chars(content);
    let _ = chars_of(content).len();
    validate_with(&declared, &body, fm.body_line)
}

// ---------------------------------------------------------------------------
// Rendering
// ---------------------------------------------------------------------------

/// The text given for a slot: the caller's value, else the declared default.
pub open spec fn given_for(
    slot: Seq<char>,
    declared: Seq<VariableModel>,
    variables: Seq<(Seq<char>, JsonModel)>,
) -> Option<Seq<char>> {
    match member_of(variables, slot) {
        Some(v) => Some(plain_text(v)),
        None => default_for(slot, declared, 0),
    }
}

/// The default of the first variable of a name, from number `i` on.
pub open spec fn default_for(
    slot: Seq<char>,
    declared: Seq<VariableModel>,
    i: int,
) -> Option<Seq<char>>
    decreases declared.len() - i,
{
    if i < 0 || i >= declared.len() {
        None
    } else if declared[i].name == slot {
        declared[i].default
    } else {
        default_for(slot, declared, i + 1)
    }
}

/// The slots for which nothing is given.
pub open spec fn missing_of(
    used: Seq<Seq<char>>,
    declared: Seq<VariableModel>,
    variables: Seq<(Seq<char>, JsonModel)>,
) -> Seq<Seq<char>>
    decreases used.len(),
{
    if used.len() == 0 {
        Seq::empty()
    } else if given_for(used.last(), declared, variables) is None {
        missing_of(used.drop_last(), declared, variables).push(used.last())
    } else {
        missing_of(used.drop_last(), declared, variables)
    }
}

/// The slots for which something is given, each with its text.
pub open spec fn given_of(
    used: Seq<Seq<char>>,
    declared: Seq<VariableModel>,
    variables: Seq<(Seq<char>, JsonModel)>,
) -> Seq<(Seq<char>, Seq<char>)>
    decreases used.len(),
{
    if used.len() == 0 {
        Seq::empty()
    } else {
        match given_for(used.last(), declared, variables) {
            Some(text) => given_of(used.drop_last(), declared, variables).push(
                (used.last(), text),
            ),
            None => given_of(used.drop_last(), declared, variables),
        }
    }
}

/// The text for a name, from entry `i` on.
pub open spec fn text_for(
    values: Seq<(Seq<char>, Seq<char>)>,
    name: Seq<char>,
    i: int,
) -> Option<Seq<char>>
    decreases values.len() - i,
{
    if i < 0 || i >= values.len() {
        None
    } else if values[i].0 == name {
        Some(values[i].1)
    } else {
        text_for(values, name, i + 1)
    }
}

/// A line from position `i` on with its slots filled. A slot without a text
/// stays as it is.
pub open spec fn filled_from(
    line: Seq<char>,
    values: Seq<(Seq<char>, Seq<char>)>,
    i: int,
) -> Seq<char>
    decreases line.len() - i,
    via filled_from_decreases
{
    if i < 0 || i >= line.len() {
        Seq::empty()
    } else {
        match slot_at(line, values, i) {
            Some((text, next)) => text + filled_from(line, values, next),
            None => seq![line[i]] + filled_from(line, values, i + 1),
        }
    }
}

/// The text of the slot that opens at `i`, and the position behind it.
pub open spec fn slot_at(
    line: Seq<char>,
    values: Seq<(Seq<char>, Seq<char>)>,
    i: int,
) -> Option<(Seq<char>, int)> {
    if occurs_at(line, "{{"@, i) {
        match find_of(line, "}}"@, i + 2) {
            Some(close) => match text_for(values, trim_of(line.subrange(i + 2, close)), 0) {
                Some(text) => Some((text, close + 2)),
                None => None,
            },
            None => None,
        }
    } else {
        None
    }
}

#[via_fn]
proof fn filled_from_decreases(
    line: Seq<char>,
    values: Seq<(Seq<char>, Seq<char>)>,
    i: int,
) {
    if 0 <= i < line.len() {
        reveal_strlit("}}");
        lemma_find(line, "}}"@, i + 2);
    }
}

/// A line of a body, filled unless it is fenced.
pub open spec fn rendered_line(
    lines: Seq<Seq<char>>,
    values: Seq<(Seq<char>, Seq<char>)>,
    i: int,
) -> Seq<char> {
    if is_plain(lines, i) {
        filled_from(lines[i], values, 0)
    } else {
        lines[i]
    }
}

/// A body with its slots filled. Fenced code stays verbatim, so a prompt that
/// documents its own syntax renders correctly.
pub open spec fn substituted(
    body: Seq<char>,
    values: Seq<(Seq<char>, Seq<char>)>,
) -> Seq<char> {
    let lines = text_lines(body);
    let text = join_of(
        Seq::new(lines.len(), |i: int| rendered_line(lines, values, i)),
        "\n"@,
    );
    if body.len() > 0 && body.last() == '\n' {
        text + "\n"@
    } else {
        text
    }
}

/// `s` without the newlines at its front: the blank line behind a frontmatter
/// fence is separation, not content.
pub open spec fn skip_newlines(s: Seq<char>) -> Seq<char>
    decreases s.len(),
{
    if s.len() > 0 && (s[0] == '\n' || s[0] == '\r') {
        skip_newlines(s.skip(1))
    } else {
        s
    }
}

/// What rendering comes to. A slot for which nothing is given is an error: a
/// prompt rendered with a hole in it is worse than one that refuses to render.
pub open spec fn rendered_with(
    declared: Seq<VariableModel>,
    body: Seq<char>,
    variables: Seq<(Seq<char>, JsonModel)>,
) -> std::result::Result<Seq<char>, ErrorModel> {
    let used = slots_of(body);
    let missing = missing_of(used, declared, variables);
    if missing.len() > 0 {
        Err(
            ErrorModel::Invalid(
                "missing value"@ + (if missing.len() == 1 {
                    ""@
                } else {
                    "s"@
                }) + " for "@ + join_of(missing, ", "@),
            ),
        )
    } else {
        Ok(substituted(skip_newlines(body), given_of(used, declared, variables)))
    }
}

/// What rendering a prompt comes to.
pub open spec fn rendered(
    content: Seq<char>,
    variables: Seq<(Seq<char>, JsonModel)>,
) -> std::result::Result<Seq<char>, ErrorModel> {
    rendered_with(variables_of(content), body_text(content), variables)
}

pub open spec fn value_models(values: Seq<(String, String)>) -> Seq<(Seq<char>, Seq<char>)> {
    Seq::new(values.len(), |i: int| (values[i].0@, values[i].1@))
}

fn find_default(declared: &Vec<VariableSpec>, slot: &str) -> (out: Option<String>)
    ensures
        opt_view(out) == default_for(slot@, variable_models(declared@), 0),
{
    let ghost ds = variable_models(declared@);
    let mut i: usize = 0;
    while i < declared.len()
        invariant
            ds == variable_models(declared@),
            i <= declared.len(),
            default_for(slot@, ds, 0) == default_for(slot@, ds, i as int),
        decreases declared.len() - i,
    {
        assert(ds[i as int] == declared@[i as int]@);
        if same_str(declared[i].name.as_str(), slot) {
            return match &declared[i].default {
                Some(d) => Some(d.clone()),
                None => None,
            };
        }
        i += 1;
    }
    None
}

fn find_given(
    declared: &Vec<VariableSpec>,
    variables: &Vec<(String, Json)>,
    slot: &str,
) -> (out: Option<String>)
    ensures
        opt_view(out) == given_for(slot@, variable_models(declared@), member_models(variables@)),
{
    match find_member(variables, slot) {
        Some(v) => Some(value_to_string(v)),
        None => find_default(declared, slot),
    }
}

fn find_value<'a>(values: &'a Vec<(String, String)>, name: &[char]) -> (out: Option<&'a str>)
    ensures
        match out {
            Some(t) => text_for(value_models(values@), name@, 0) == Some(t@),
            None => text_for(value_models(values@), name@, 0) is None,
        },
{
    let ghost vs = value_models(values@);
    let mut i: usize = 0;
    while i < values.len()
        invariant
            vs == value_models(values@),
            i <= values.len(),
            text_for(vs, name@, 0) == text_for(vs, name@, i as int),
        decreases values.len() - i,
    {
        assert(vs[i as int] == (values@[i as int].0@, values@[i as int].1@));
        if crate::text::same(&chars_of(values[i].0.as_str()), name) {
            return Some(values[i].1.as_str());
        }
        i += 1;
    }
    None
}

fn substitute_line(line: &str, values: &Vec<(String, String)>) -> (out: String)
    ensures
        out@ == filled_from(line@, value_models(values@), 0),
{
    let chars = chars_of(line);
    let opening = chars_of("{{");
    let closing = chars_of("}}");
    let ghost vs = value_models(values@);
    let mut out = String::new();
    let mut i: usize = 0;
    proof {
        reveal_strlit("{{");
        reveal_strlit("}}");
    }
    assert(out@ + filled_from(line@, vs, 0) =~= filled_from(line@, vs, 0));
    while i < chars.len()
        invariant
            chars@ == line@,
            opening@ == "{{"@,
            closing@ == "}}"@,
            "{{"@.len() == 2,
            "}}"@.len() == 2,
            vs == value_models(values@),
            i <= chars.len(),
            out@ + filled_from(line@, vs, i as int) == filled_from(line@, vs, 0),
        decreases chars.len() - i,
    {
        let ghost before = out@;
        let mut next: usize = 0;
        if crate::text::found_at(&chars, &opening, i) {
            if let Some(close) = find_from(&chars, &closing, i + 2) {
                let name = trim(part(&chars, i + 2, close));
                if let Some(text) = find_value(values, name) {
                    out.append(text);
                    next = close + 2;
                    assert(slot_at(line@, vs, i as int) == Some((text@, next as int)));
                    assert(before + (text@ + filled_from(line@, vs, next as int)) =~= out@
                        + filled_from(line@, vs, next as int));
                }
            }
        }
        if next == 0 {
            assert(slot_at(line@, vs, i as int) is None);
            out.push(chars[i]);
            assert(before + (seq![line@[i as int]] + filled_from(line@, vs, i + 1)) =~= out@
                + filled_from(line@, vs, i + 1));
            next = i + 1;
        }
        i = next;
    }
    assert(out@ + filled_from(line@, vs, i as int) =~= out@);
    out
}

fn substitute(body: &[char], values: &Vec<(String, String)>) -> (out: String)
    ensures
        out@ == substituted(body@, value_models(values@)),
{
    let all = lines(body);
    let ghost ls = text_lines(body@);
    let ghost vs = value_models(values@);
    let ghost goal = Seq::new(ls.len(), |i: int| rendered_line(ls, vs, i));
    let mut out: Vec<String> = Vec::new();
    let mut fence: Option<String> = None;
    let mut i: usize = 0;
    assert(views(out@) =~= goal.take(0));
    while i < all.len()
        invariant
            views(all@) == ls,
            vs == value_models(values@),
            goal == Seq::new(ls.len(), |i: int| rendered_line(ls, vs, i)),
            i <= all.len(),
            fence_view(fence) == fence_of(ls.take(i as int)),
            views(out@) == goal.take(i as int),
        decreases all.len() - i,
    {
        assert(ls.take(i + 1).drop_last() =~= ls.take(i as int));
        assert(all@[i as int]@ == ls[i as int]);
        let outside = fence.is_none();
        let (next, is_fence_line) = step(fence, all[i].as_str());
        let ghost before = views(out@);
        let line = if outside && !is_fence_line {
            substitute_line(all[i].as_str(), values)
        } else {
            all[i].clone()
        };
        assert(line@ == goal[i as int]);
        let ghost l = line@;
        out.push(line);
        assert(views(out@) =~= before.push(l));
        assert(goal.take(i + 1) =~= goal.take(i as int).push(l));
        fence = next;
        i += 1;
    }
    assert(goal.take(i as int) =~= goal);
    let mut text = join(&out, "\n");
    if body.len() > 0 && body[body.len() - 1] == '\n' {
        text.append("\n");
    }
    text
}

/// Fills the slots of a body.
pub fn render_with(
    declared: &Vec<VariableSpec>,
    body: &Vec<char>,
    variables: &Vec<(String, Json)>,
) -> (out: Result<String>)
    ensures
        match out {
            Ok(text) => rendered_with(
                variable_models(declared@),
                body@,
                member_models(variables@),
            ) == Ok::<Seq<char>, ErrorModel>(text@),
            Err(e) => rendered_with(
                variable_models(declared@),
                body@,
                member_models(variables@),
            ) == Err::<Seq<char>, ErrorModel>(e@),
        },
{
    let used = slot_names(string_of(body).as_str());
    let ghost us = slots_of(body@);
    let ghost ds = variable_models(declared@);
    let ghost given = member_models(variables@);
    let mut missing: Vec<String> = Vec::new();
    let mut values: Vec<(String, String)> = Vec::new();
    let mut i: usize = 0;
    assert(views(missing@) =~= missing_of(us.take(0), ds, given));
    assert(value_models(values@) =~= given_of(us.take(0), ds, given));
    while i < used.len()
        invariant
            views(used@) == us,
            ds == variable_models(declared@),
            given == member_models(variables@),
            i <= used.len(),
            views(missing@) == missing_of(us.take(i as int), ds, given),
            value_models(values@) == given_of(us.take(i as int), ds, given),
        decreases used.len() - i,
    {
        assert(us.take(i + 1).drop_last() =~= us.take(i as int));
        let slot = used[i].as_str();
        let ghost m = views(missing@);
        let ghost v = value_models(values@);
        match find_given(declared, variables, slot) {
            Some(text) => {
                let ghost t = text@;
                values.push((slot.to_owned(), text));
                assert(value_models(values@) =~= v.push((slot@, t)));
            },
            None => {
                missing.push(slot.to_owned());
                assert(views(missing@) =~= m.push(slot@));
            },
        }
        i += 1;
    }
    assert(us.take(i as int) =~= us);
    assert(views(missing@).len() == missing@.len());
    if missing.len() > 0 {
        let mut message = "missing value".to_owned();
        message.append(
            if missing.len() == 1 {
                ""
            } else {
                "s"
            },
        );
        message.append(" for ");
        message.append(join(&missing, ", ").as_str());
        return Err(Error::Invalid(message));
    }
    let mut rest: &[char] = body;
    while rest.len() > 0 && (rest[0] == '\n' || rest[0] == '\r')
        invariant
            skip_newlines(rest@) == skip_newlines(body@),
        decreases rest.len(),
    {
        assert(rest@.subrange(1, rest@.len() as int) =~= rest@.skip(1));
        rest = part(rest, 1, rest.len());
    }
    Ok(substitute(rest, &values))
}

/// Fills the slots and returns the text. Missing values are an error unless the
/// variable declares a default. An extra variable the body never uses is not
/// fatal.
pub fn render(content: &str, variables: &Vec<(String, Json)>) -> (out: Result<String>)
    ensures
        match out {
            Ok(text) => rendered(content@, member_models(variables@)) == Ok::<
                Seq<char>,
                ErrorModel,
            >(text@),
            Err(e) => rendered(content@, member_models(variables@)) == Err::<
                Seq<char>,
                ErrorModel,
            >(e@),
        },
{
    let declared = declared_variables(content);
    let body = body_chars(content);
    render_with(&declared, &body, variables)
}

/// A slot for which nothing is given is among the missing ones.
proof fn lemma_among_missing(
    used: Seq<Seq<char>>,
    declared: Seq<VariableModel>,
    variables: Seq<(Seq<char>, JsonModel)>,
    slot: Seq<char>,
)
    requires
        used.contains(slot),
        given_for(slot, declared, variables) is None,
    ensures
        missing_of(used, declared, variables).contains(slot),
    decreases used.len(),
{
    let d = used.drop_last();
    let before = missing_of(d, declared, variables);
    if used.last() == slot {
        assert(missing_of(used, declared, variables).last() == slot);
    } else {
        let k = choose|k: int| 0 <= k < used.len() && used[k] == slot;
        assert(d[k] == slot);
        lemma_among_missing(d, declared, variables, slot);
        let j = choose|j: int| 0 <= j < before.len() && before[j] == slot;
        assert(missing_of(used, declared, variables)[j] == slot);
    }
}

/// Each part stands in the joined text.
proof fn lemma_part_occurs(parts: Seq<Seq<char>>, sep: Seq<char>, i: int, lead: Seq<char>)
    requires
        0 <= i < parts.len(),
    ensures
        occurs(lead + join_of(parts, sep), parts[i]),
{
    let a = parts.take(i);
    let b = seq![parts[i]];
    let c = parts.skip(i + 1);
    assert(parts =~= a + (b + c));
    lemma_join_concat(a, b + c, sep);
    lemma_join_concat(b, c, sep);
    let front = if i == 0 {
        Seq::empty()
    } else {
        join_of(a, sep) + sep
    };
    let back = if c.len() == 0 {
        Seq::empty()
    } else {
        sep + join_of(c, sep)
    };
    assert(join_of(b, sep) == parts[i]);
    let all = lead + join_of(parts, sep);
    assert(all =~= lead + front + parts[i] + back);
    let at = (lead + front).len() as int;
    assert(all.subrange(at, at + parts[i].len()) =~= parts[i]);
    assert(occurs_at(all, parts[i], at));
}

/// A prompt that does not render is refused as invalid, and the refusal names
/// every slot for which nothing is given.
pub proof fn law_refusal_names_missing_slots(
    content: Seq<char>,
    variables: Seq<(Seq<char>, JsonModel)>,
    slot: Seq<char>,
)
    ensures
        rendered(content, variables) matches Err(e) ==> e is Invalid && (slots_of(
            body_text(content),
        ).contains(slot) && given_for(slot, variables_of(content), variables) is None ==> occurs(
            message_of(e),
            slot,
        )),
{
    let used = slots_of(body_text(content));
    let declared = variables_of(content);
    let missing = missing_of(used, declared, variables);
    if rendered(content, variables) is Err && used.contains(slot) && given_for(
        slot,
        declared,
        variables,
    ) is None {
        lemma_among_missing(used, declared, variables, slot);
        let i = choose|i: int| 0 <= i < missing.len() && missing[i] == slot;
        let lead = "invalid: "@ + ("missing value"@ + (if missing.len() == 1 {
            ""@
        } else {
            "s"@
        }) + " for "@);
        lemma_part_occurs(missing, ", "@, i, lead);
        let e = rendered(content, variables)->Err_0;
        assert(message_of(e) =~= lead + join_of(missing, ", "@));
    }
}

/// The findings that a rule gave.
pub open spec fn of_rule(found: Seq<FindingModel>, rule: Seq<char>) -> Seq<FindingModel>
    decreases found.len(),
{
    if found.len() == 0 {
        Seq::empty()
    } else if found.last().rule == rule {
        of_rule(found.drop_last(), rule).push(found.last())
    } else {
        of_rule(found.drop_last(), rule)
    }
}

/// The slots that no variable declares, in their order.
pub open spec fn undeclared_slots(used: Seq<Seq<char>>, declared: Seq<VariableModel>) -> Seq<
    Seq<char>,
>
    decreases used.len(),
{
    if used.len() == 0 {
        Seq::empty()
    } else if declares(declared, used.last()) {
        undeclared_slots(used.drop_last(), declared)
    } else {
        undeclared_slots(used.drop_last(), declared).push(used.last())
    }
}

/// The variables that no slot uses, in their order.
pub open spec fn unused_variables(declared: Seq<VariableModel>, used: Seq<Seq<char>>) -> Seq<
    Seq<char>,
>
    decreases declared.len(),
{
    if declared.len() == 0 {
        Seq::empty()
    } else if among(used, declared.last().name) {
        unused_variables(declared.drop_last(), used)
    } else {
        unused_variables(declared.drop_last(), used).push(declared.last().name)
    }
}

proof fn lemma_of_rule_concat(a: Seq<FindingModel>, b: Seq<FindingModel>, rule: Seq<char>)
    ensures
        of_rule(a + b, rule) == of_rule(a, rule) + of_rule(b, rule),
    decreases b.len(),
{
    if b.len() == 0 {
        assert(a + b =~= a);
        assert(of_rule(a, rule) + of_rule(b, rule) =~= of_rule(a, rule));
    } else {
        assert((a + b).drop_last() =~= a + b.drop_last());
        lemma_of_rule_concat(a, b.drop_last(), rule);
        assert(of_rule(a + b, rule) =~= of_rule(a, rule) + of_rule(b, rule));
    }
}

proof fn lemma_slot_findings(
    used: Seq<Seq<char>>,
    declared: Seq<VariableModel>,
    body: Seq<char>,
    body_line: int,
)
    requires
        distinct(used),
    ensures
        ({
            let found = slot_findings(used, declared, body, body_line);
            let slots = undeclared_slots(used, declared);
            &&& of_rule(found, "prompt.slot.undeclared"@) == found
            &&& of_rule(found, "prompt.variable.unused"@).len() == 0
            &&& of_rule(found, "prompt.no_variables"@).len() == 0
            &&& found == Seq::new(
                slots.len(),
                |i: int| undeclared_finding(slots[i], slot_line_of(body, body_line, slots[i])),
            )
            &&& distinct(slots)
            &&& forall|s: Seq<char>| #[trigger]
                slots.contains(s) <==> used.contains(s) && !declares(declared, s)
        }),
    decreases used.len(),
{
    lemma_rules_differ();
    let found = slot_findings(used, declared, body, body_line);
    let slots = undeclared_slots(used, declared);
    if used.len() > 0 {
        let d = used.drop_last();
        assert(distinct(d)) by {
            assert forall|i: int, j: int| 0 <= i < j < d.len() implies d[i] != d[j] by {
                assert(used[i] == d[i] && used[j] == d[j]);
            }
        }
        lemma_slot_findings(d, declared, body, body_line);
        let before = undeclared_slots(d, declared);
        assert forall|s: Seq<char>| #[trigger] slots.contains(s) <==> used.contains(s)
            && !declares(declared, s) by {
            assert(used.contains(s) <==> d.contains(s) || s == used.last()) by {
                if used.contains(s) && s != used.last() {
                    let k = choose|k: int| 0 <= k < used.len() && used[k] == s;
                    assert(d[k] == s);
                }
                if d.contains(s) {
                    let k = choose|k: int| 0 <= k < d.len() && d[k] == s;
                    assert(used[k] == s);
                }
                assert(used[used.len() - 1] == used.last());
            }
            assert(before.contains(s) <==> d.contains(s) && !declares(declared, s));
            if !declares(declared, used.last()) {
                if before.contains(s) {
                    let k = choose|k: int| 0 <= k < before.len() && before[k] == s;
                    assert(slots[k] == s);
                }
                assert(slots[slots.len() - 1] == used.last());
                if slots.contains(s) && s != used.last() {
                    let k = choose|k: int| 0 <= k < slots.len() && slots[k] == s;
                    assert(before[k] == s);
                }
            }
        }
        if !declares(declared, used.last()) {
            assert(!before.contains(used.last())) by {
                if before.contains(used.last()) {
                    assert(d.contains(used.last()));
                    let k = choose|k: int| 0 <= k < d.len() && d[k] == used.last();
                    assert(used[k] == used[used.len() - 1]);
                }
            }
            assert forall|i: int, j: int| 0 <= i < j < slots.len() implies slots[i] != slots[j] by {
                if j == slots.len() - 1 {
                    assert(before[i] == slots[i]);
                } else {
                    assert(before[i] == slots[i] && before[j] == slots[j]);
                }
            }
            assert(found.drop_last() =~= slot_findings(d, declared, body, body_line));
            assert(of_rule(found, "prompt.slot.undeclared"@) =~= found);
        }
        assert(found =~= Seq::new(
            slots.len(),
            |i: int| undeclared_finding(slots[i], slot_line_of(body, body_line, slots[i])),
        ));
    } else {
        assert(found =~= Seq::new(
            slots.len(),
            |i: int| undeclared_finding(slots[i], slot_line_of(body, body_line, slots[i])),
        ));
    }
}

proof fn lemma_variable_findings(declared: Seq<VariableModel>, used: Seq<Seq<char>>)
    ensures
        ({
            let found = variable_findings(declared, used);
            let names = unused_variables(declared, used);
            &&& of_rule(found, "prompt.variable.unused"@) == found
            &&& of_rule(found, "prompt.slot.undeclared"@).len() == 0
            &&& of_rule(found, "prompt.no_variables"@).len() == 0
            &&& found == Seq::new(names.len(), |i: int| unused_finding(names[i]))
            &&& forall|s: Seq<char>| #[trigger]
                names.contains(s) <==> declares(declared, s) && !among(used, s)
        }),
    decreases declared.len(),
{
    lemma_rules_differ();
    let found = variable_findings(declared, used);
    let names = unused_variables(declared, used);
    if declared.len() > 0 {
        let d = declared.drop_last();
        let last = declared.last().name;
        lemma_variable_findings(d, used);
        let before = unused_variables(d, used);
        assert forall|s: Seq<char>| #[trigger] names.contains(s) <==> declares(declared, s)
            && !among(used, s) by {
            assert(declares(declared, s) <==> declares(d, s) || s == last) by {
                if declares(declared, s) && s != last {
                    let k = choose|k: int|
                        0 <= k < declared.len() && (#[trigger] declared[k]).name == s;
                    assert(d[k].name == s);
                }
                if declares(d, s) {
                    let k = choose|k: int| 0 <= k < d.len() && (#[trigger] d[k]).name == s;
                    assert(declared[k].name == s);
                }
                assert(declared[declared.len() - 1].name == last);
            }
            assert(before.contains(s) <==> declares(d, s) && !among(used, s));
            if !among(used, last) {
                if before.contains(s) {
                    let k = choose|k: int| 0 <= k < before.len() && before[k] == s;
                    assert(names[k] == s);
                }
                assert(names[names.len() - 1] == last);
                if names.contains(s) && s != last {
                    let k = choose|k: int| 0 <= k < names.len() && names[k] == s;
                    assert(before[k] == s);
                }
            }
        }
        if !among(used, last) {
            assert(found.drop_last() =~= variable_findings(d, used));
            assert(of_rule(found, "prompt.variable.unused"@) =~= found);
        }
    }
    assert(found =~= Seq::new(names.len(), |i: int| unused_finding(names[i])));
}

proof fn lemma_rules_differ()
    ensures
        "prompt.slot.undeclared"@ != "prompt.variable.unused"@,
        "prompt.slot.undeclared"@ != "prompt.no_variables"@,
        "prompt.variable.unused"@ != "prompt.no_variables"@,
{
    reveal_strlit("prompt.slot.undeclared");
    reveal_strlit("prompt.variable.unused");
    reveal_strlit("prompt.no_variables");
    assert("prompt.slot.undeclared"@[7] != "prompt.variable.unused"@[7]);
    assert("prompt.slot.undeclared"@[7] != "prompt.no_variables"@[7]);
    assert("prompt.variable.unused"@[7] != "prompt.no_variables"@[7]);
}

/// Each slot that no variable declares is reported once, as an error on a line;
/// each variable that no slot uses is reported once, as a warning; and a prompt
/// without either is called a plain document, and no other is.
pub proof fn law_prompt_findings(content: Seq<char>)
    ensures
        ({
            let found = prompt_findings(content);
            let used = slots_of(body_text(content));
            let declared = variables_of(content);
            let slots = undeclared_slots(used, declared);
            let names = unused_variables(declared, used);
            let first = of_rule(found, "prompt.slot.undeclared"@);
            let second = of_rule(found, "prompt.variable.unused"@);
            &&& distinct(slots)
            &&& forall|s: Seq<char>| #[trigger]
                slots.contains(s) <==> used.contains(s) && !declares(declared, s)
            &&& first.len() == slots.len()
            &&& forall|i: int|
                0 <= i < slots.len() ==> #[trigger] first[i] == undeclared_finding(
                    slots[i],
                    slot_line_of(
                        body_text(content),
                        frontmatter_of(content).body_line as int,
                        slots[i],
                    ),
                )
            &&& forall|s: Seq<char>| #[trigger]
                names.contains(s) <==> declares(declared, s) && !among(used, s)
            &&& second.len() == names.len()
            &&& forall|i: int| 0 <= i < names.len() ==> #[trigger] second[i] == unused_finding(names[i])
            &&& of_rule(found, "prompt.no_variables"@).len() == (if used.len() == 0
                && declared.len() == 0 {
                1nat
            } else {
                0
            })
        }),
{
    let body = body_text(content);
    let line = frontmatter_of(content).body_line as int;
    let used = slots_of(body);
    let declared = variables_of(content);
    let a = slot_findings(used, declared, body, line);
    let b = variable_findings(declared, used);
    law_slots_distinct(body);
    lemma_rules_differ();
    lemma_slot_findings(used, declared, body, line);
    lemma_variable_findings(declared, used);
    let found = prompt_findings(content);
    lemma_of_rule_concat(a, b, "prompt.slot.undeclared"@);
    lemma_of_rule_concat(a, b, "prompt.variable.unused"@);
    lemma_of_rule_concat(a, b, "prompt.no_variables"@);
    assert(of_rule(a + b, "prompt.slot.undeclared"@) =~= a);
    assert(of_rule(a + b, "prompt.variable.unused"@) =~= b);
    if used.len() == 0 && declared.len() == 0 {
        assert(found.drop_last() =~= a + b);
    }
}

/// A prompt renders exactly when every slot of its body has a value or a
/// declared default.
pub proof fn law_renders_when_filled(
    content: Seq<char>,
    variables: Seq<(Seq<char>, JsonModel)>,
)
    ensures
        rendered(content, variables) is Ok <==> (forall|i: int|
            0 <= i < slots_of(body_text(content)).len() ==> given_for(
                #[trigger] slots_of(body_text(content))[i],
                variables_of(content),
                variables,
            ) is Some),
{
    lemma_missing(slots_of(body_text(content)), variables_of(content), variables);
}

proof fn lemma_missing(
    used: Seq<Seq<char>>,
    declared: Seq<VariableModel>,
    variables: Seq<(Seq<char>, JsonModel)>,
)
    ensures
        missing_of(used, declared, variables).len() == 0 <==> (forall|i: int|
            0 <= i < used.len() ==> given_for(#[trigger] used[i], declared, variables) is Some),
    decreases used.len(),
{
    if used.len() > 0 {
        let d = used.drop_last();
        lemma_missing(d, declared, variables);
        if missing_of(used, declared, variables).len() == 0 {
            assert forall|i: int| 0 <= i < used.len() implies given_for(
                #[trigger] used[i],
                declared,
                variables,
            ) is Some by {
                if i < d.len() {
                    assert(d[i] == used[i]);
                }
            }
        } else if forall|i: int|
            0 <= i < used.len() ==> given_for(#[trigger] used[i], declared, variables) is Some {
            assert(given_for(used[used.len() - 1], declared, variables) is Some);
            assert forall|i: int| 0 <= i < d.len() implies given_for(
                #[trigger] d[i],
                declared,
                variables,
            ) is Some by {
                assert(d[i] == used[i]);
            }
        }
    }
}

/// Fenced lines, and lines without an opening brace, render verbatim.
pub proof fn law_verbatim_lines(
    lines: Seq<Seq<char>>,
    values: Seq<(Seq<char>, Seq<char>)>,
    i: int,
)
    requires
        0 <= i < lines.len(),
        !is_plain(lines, i) || !occurs(lines[i], "{{"@),
    ensures
        rendered_line(lines, values, i) == lines[i],
{
    if is_plain(lines, i) {
        lemma_nothing_to_fill(lines[i], values, 0);
        assert(lines[i].skip(0) =~= lines[i]);
    }
}

proof fn lemma_nothing_to_fill(line: Seq<char>, values: Seq<(Seq<char>, Seq<char>)>, i: int)
    requires
        0 <= i <= line.len(),
        !occurs(line, "{{"@),
    ensures
        filled_from(line, values, i) == line.skip(i),
    decreases line.len() - i,
{
    if i < line.len() {
        assert(!occurs_at(line, "{{"@, i));
        lemma_nothing_to_fill(line, values, i + 1);
        assert(seq![line[i]] + line.skip(i + 1) =~= line.skip(i));
    } else {
        assert(line.skip(i) =~= Seq::<char>::empty());
    }
}

// ---------------------------------------------------------------------------
// Which text stands in a slot
// ---------------------------------------------------------------------------

/// The declared variables, those of a name without a default.
pub open spec fn without_default(declared: Seq<VariableModel>, name: Seq<char>) -> Seq<
    VariableModel,
> {
    Seq::new(
        declared.len(),
        |i: int|
            if declared[i].name == name {
                VariableModel { default: None, ..declared[i] }
            } else {
                declared[i]
            },
    )
}

proof fn lemma_default_kept(slot: Seq<char>, declared: Seq<VariableModel>, name: Seq<char>, i: int)
    requires
        slot != name,
        0 <= i,
    ensures
        default_for(slot, without_default(declared, name), i) == default_for(slot, declared, i),
    decreases declared.len() - i,
{
    if i < declared.len() {
        lemma_default_kept(slot, declared, name, i + 1);
    }
}

/// What is given for each slot decides what a body renders to.
proof fn lemma_same_given(
    used: Seq<Seq<char>>,
    a: Seq<VariableModel>,
    x: Seq<(Seq<char>, JsonModel)>,
    b: Seq<VariableModel>,
    y: Seq<(Seq<char>, JsonModel)>,
)
    requires
        forall|s: Seq<char>| #[trigger] given_for(s, a, x) == given_for(s, b, y),
    ensures
        missing_of(used, a, x) == missing_of(used, b, y),
        given_of(used, a, x) == given_of(used, b, y),
    decreases used.len(),
{
    if used.len() > 0 {
        lemma_same_given(used.drop_last(), a, x, b, y);
        assert(given_for(used.last(), a, x) == given_for(used.last(), b, y));
    }
}

/// The caller's value comes before a declared default: where one is given for a
/// name, a prompt renders as if no default were declared for it.
pub proof fn law_value_beats_default(
    declared: Seq<VariableModel>,
    body: Seq<char>,
    variables: Seq<(Seq<char>, JsonModel)>,
    name: Seq<char>,
)
    requires
        exists|i: int| 0 <= i < variables.len() && (#[trigger] variables[i]).0 == name,
    ensures
        rendered_with(declared, body, variables) == rendered_with(
            without_default(declared, name),
            body,
            variables,
        ),
{
    let bare = without_default(declared, name);
    let i = choose|i: int| 0 <= i < variables.len() && (#[trigger] variables[i]).0 == name;
    lemma_member_found(variables, name, i);
    assert forall|s: Seq<char>| #[trigger] given_for(s, declared, variables) == given_for(
        s,
        bare,
        variables,
    ) by {
        if s != name {
            lemma_default_kept(s, declared, name, 0);
        }
    }
    lemma_same_given(slots_of(body), declared, variables, bare, variables);
}

proof fn lemma_member_found(variables: Seq<(Seq<char>, JsonModel)>, name: Seq<char>, i: int)
    requires
        0 <= i < variables.len(),
        variables[i].0 == name,
    ensures
        member_of(variables, name) is Some,
    decreases variables.len(),
{
    if variables[0].0 != name {
        assert(variables.skip(1)[i - 1] == variables[i]);
        lemma_member_found(variables.skip(1), name, i - 1);
    }
}

proof fn lemma_member_pushed(
    variables: Seq<(Seq<char>, JsonModel)>,
    name: Seq<char>,
    v: JsonModel,
    s: Seq<char>,
)
    ensures
        member_of(variables.push((name, v)), s) == (match member_of(variables, s) {
            Some(w) => Some(w),
            None => if s == name {
                Some(v)
            } else {
                None
            },
        }),
    decreases variables.len(),
{
    let more = variables.push((name, v));
    if variables.len() == 0 {
        assert(more[0] == (name, v));
        assert(more.skip(1) =~= variables);
    } else {
        assert(more[0] == variables[0]);
        assert(more.skip(1) =~= variables.skip(1).push((name, v)));
        lemma_member_pushed(variables.skip(1), name, v, s);
    }
}

proof fn lemma_default_found(slot: Seq<char>, declared: Seq<VariableModel>, at: int, i: int)
    requires
        0 <= i <= at < declared.len(),
        declared[at].name == slot,
        forall|k: int| 0 <= k < at ==> (#[trigger] declared[k]).name != slot,
    ensures
        default_for(slot, declared, i) == declared[at].default,
    decreases at - i,
{
    if i < at {
        lemma_default_found(slot, declared, at, i + 1);
    }
}

/// A declared default fills in for a value that is not given: a prompt renders
/// as if the caller had given the default of the first variable of that name.
pub proof fn law_default_fills_in(
    declared: Seq<VariableModel>,
    body: Seq<char>,
    variables: Seq<(Seq<char>, JsonModel)>,
    at: int,
)
    requires
        0 <= at < declared.len(),
        declared[at].default is Some,
        forall|k: int| 0 <= k < at ==> (#[trigger] declared[k]).name != declared[at].name,
        forall|i: int|
            0 <= i < variables.len() ==> (#[trigger] variables[i]).0 != declared[at].name,
    ensures
        rendered_with(declared, body, variables) == rendered_with(
            declared,
            body,
            variables.push((declared[at].name, JsonModel::Text(declared[at].default->0))),
        ),
{
    let name = declared[at].name;
    let v = JsonModel::Text(declared[at].default->0);
    let more = variables.push((name, v));
    lemma_default_found(name, declared, at, 0);
    lemma_no_member(variables, name);
    assert forall|s: Seq<char>| #[trigger] given_for(s, declared, variables) == given_for(
        s,
        declared,
        more,
    ) by {
        lemma_member_pushed(variables, name, v, s);
    }
    lemma_same_given(slots_of(body), declared, variables, declared, more);
}

proof fn lemma_no_member(variables: Seq<(Seq<char>, JsonModel)>, name: Seq<char>)
    requires
        forall|i: int| 0 <= i < variables.len() ==> (#[trigger] variables[i]).0 != name,
    ensures
        member_of(variables, name) is None,
    decreases variables.len(),
{
    if variables.len() > 0 {
        let rest = variables.skip(1);
        assert(variables[0].0 != name);
        assert forall|i: int| 0 <= i < rest.len() implies (#[trigger] rest[i]).0 != name by {
            assert(rest[i] == variables[i + 1]);
        }
        lemma_no_member(rest, name);
    }
}

/// Text that opens and closes no slot, in one line.
pub open spec fn flat(s: Seq<char>) -> bool {
    forall|k: int|
        0 <= k < s.len() ==> s[k] != '{' && s[k] != '}' && s[k] != '\n' && s[k] != '\r'
}

/// A line with one slot.
pub open spec fn slotted(a: Seq<char>, name: Seq<char>, b: Seq<char>) -> Seq<char> {
    a + "{{"@ + name + "}}"@ + b
}

proof fn lemma_slotted(a: Seq<char>, name: Seq<char>, b: Seq<char>)
    requires
        flat(a),
        flat(name),
        flat(b),
    ensures
        ({
            let line = slotted(a, name, b);
            let n = a.len() as int;
            let close = n + 2 + name.len();
            &&& line.len() == close + 2 + b.len()
            &&& line.subrange(n + 2, close) == name
            &&& line.skip(close + 2) == b
            &&& line.take(n) == a
            &&& occurs_at(line, "{{"@, n)
            &&& forall|k: int| k != n ==> !#[trigger] occurs_at(line, "{{"@, k)
            &&& find_of(line, "{{"@, 0) == Some(n)
            &&& find_of(line, "}}"@, n + 2) == Some(close)
            &&& find_of(line, "{{"@, close + 2) is None
            &&& forall|k: int| 0 <= k < line.len() ==> line[k] != '\n' && line[k] != '\r'
        }),
{
    reveal_strlit("{{");
    reveal_strlit("}}");
    let line = slotted(a, name, b);
    let n = a.len() as int;
    let close = n + 2 + name.len();
    assert(line.subrange(n + 2, close) =~= name);
    assert(line.skip(close + 2) =~= b);
    assert(line.take(n) =~= a);
    assert(line.subrange(n, n + 2) =~= "{{"@);
    assert(line.subrange(close, close + 2) =~= "}}"@);
    assert forall|k: int| 0 <= k < line.len() implies (line[k] == '{' ==> k == n || k == n + 1) && (
    line[k] == '}' ==> k == close || k == close + 1) && line[k] != '\n' && line[k] != '\r' by {
        if k < n {
            assert(line[k] == a[k]);
        } else if n + 2 <= k < close {
            assert(line[k] == name[k - n - 2]);
        } else if close + 2 <= k {
            assert(line[k] == b[k - close - 2]);
        }
    }
    assert forall|k: int| k != n implies !#[trigger] occurs_at(line, "{{"@, k) by {
        if occurs_at(line, "{{"@, k) {
            assert(line.subrange(k, k + 2)[0] == '{' && line.subrange(k, k + 2)[1] == '{');
            assert(line[k] == '{' && line[k + 1] == '{');
        }
    }
    assert forall|k: int| n + 2 <= k < close implies !#[trigger] occurs_at(line, "}}"@, k) by {
        if occurs_at(line, "}}"@, k) {
            assert(line.subrange(k, k + 2)[0] == '}');
            assert(line[k] == '}');
        }
    }
    assert(occurs_at(line, "{{"@, n));
    assert(occurs_at(line, "}}"@, close));
    lemma_find(line, "{{"@, 0);
    lemma_find(line, "}}"@, n + 2);
    lemma_find(line, "{{"@, close + 2);
}

proof fn lemma_filled(
    line: Seq<char>,
    values: Seq<(Seq<char>, Seq<char>)>,
    i: int,
    to: int,
)
    requires
        0 <= i <= to <= line.len(),
        forall|k: int| i <= k < to ==> !#[trigger] occurs_at(line, "{{"@, k),
    ensures
        filled_from(line, values, i) == line.subrange(i, to) + filled_from(line, values, to),
    decreases to - i,
{
    if i < to {
        lemma_filled(line, values, i + 1, to);
        assert(!occurs_at(line, "{{"@, i));
        assert(line.subrange(i, to) =~= seq![line[i]] + line.subrange(i + 1, to));
    } else {
        assert(line.subrange(i, to) =~= Seq::<char>::empty());
    }
    assert(filled_from(line, values, i) =~= line.subrange(i, to) + filled_from(line, values, to));
}

/// A prompt of one line with one slot renders to that line, with the text that
/// the caller gives in the place of the slot, and everything around it kept.
pub proof fn law_slot_takes_the_value(
    declared: Seq<VariableModel>,
    a: Seq<char>,
    name: Seq<char>,
    b: Seq<char>,
    value: Seq<char>,
)
    requires
        flat(a),
        flat(b),
        flat(name),
        solid(name),
        slot_name(name),
        !is_fence(trim_start_of(slotted(a, name, b))),
    ensures
        rendered_with(declared, slotted(a, name, b), seq![(name, JsonModel::Text(value))]) == Ok::<
            Seq<char>,
            ErrorModel,
        >(a + value + b),
{
    let line = slotted(a, name, b);
    let n = a.len() as int;
    let close = n + 2 + name.len();
    let variables = seq![(name, JsonModel::Text(value))];
    lemma_slotted(a, name, b);
    // The body is one plain line.
    lemma_index_unique(line, '\n', line.len() as int);
    let lines = text_lines(line);
    assert(lines =~= seq![line]);
    assert(lines.take(0).len() == 0);
    assert(is_plain(lines, 0));
    assert(lines.drop_last() =~= Seq::<Seq<char>>::empty());
    assert(plain_lines(lines.drop_last()).len() == 0);
    assert(plain_lines(lines) =~= seq![line]);
    // It has one slot.
    assert(!is_space(name[0]) && !is_space(name[name.len() - 1]));
    assert(trim_of(name) == name);
    assert(slots_from(line, close + 2) =~= Seq::<Seq<char>>::empty());
    assert(slots_from(line, 0) =~= seq![name]);
    let found = slots_from(line, 0);
    assert(found.drop_last() =~= Seq::<Seq<char>>::empty());
    let none = Seq::<Seq<char>>::empty();
    assert(names_with(none, found.drop_last()) == none);
    assert(names_with(none, found) =~= seq![name]);
    assert(seq![line].drop_last() =~= none);
    assert(slots_of_lines(none) =~= none);
    assert(slots_of_lines(seq![line]) == names_with(slots_of_lines(none), found));
    let used = slots_of(line);
    assert(used =~= seq![name]);
    // The caller fills it.
    assert(member_of(variables, name) == Some(JsonModel::Text(value)));
    assert(used.drop_last() =~= none);
    assert(missing_of(none, declared, variables).len() == 0);
    assert(missing_of(used, declared, variables).len() == 0);
    assert(given_of(none, declared, variables).len() == 0);
    let values = given_of(used, declared, variables);
    assert(values =~= seq![(name, value)]);
    assert(text_for(values, name, 0) == Some(value));
    // And the rest of the line stays.
    lemma_filled(line, values, 0, n);
    assert(slot_at(line, values, n) == Some((value, close + 2)));
    lemma_filled(line, values, close + 2, line.len() as int);
    assert(line.subrange(close + 2, line.len() as int) =~= b);
    assert(filled_from(line, values, line.len() as int) =~= Seq::<char>::empty());
    assert(line.subrange(0, n) =~= a);
    assert(filled_from(line, values, 0) =~= a + value + b);
    assert(skip_newlines(line) == line);
    let parts = Seq::new(lines.len(), |i: int| rendered_line(lines, values, i));
    assert(parts =~= seq![a + value + b]);
    assert(join_of(parts, "\n"@) =~= a + value + b);
    assert(line[line.len() - 1] != '\n');
}

/// The line that is given for a slot is the first line of the body that uses it,
/// counted from the body's first line; where none does, it is that line.
pub proof fn law_slot_line(body: Seq<char>, body_line: int, slot: Seq<char>)
    ensures
        ({
            let lines = text_lines(body);
            let line = slot_line_of(body, body_line, slot);
            let used = occurs(lines[line - body_line], "{{"@ + slot);
            &&& body_line <= line
            &&& (exists|i: int| 0 <= i < lines.len() && occurs(#[trigger] lines[i], "{{"@ + slot))
                ==> line - body_line < lines.len() && used && forall|i: int|
                0 <= i < line - body_line ==> !occurs(#[trigger] lines[i], "{{"@ + slot)
            &&& !(exists|i: int| 0 <= i < lines.len() && occurs(#[trigger] lines[i], "{{"@ + slot))
                ==> line == body_line
        }),
{
    lemma_slot_line(text_lines(body), slot, 0);
}

proof fn lemma_slot_line(lines: Seq<Seq<char>>, slot: Seq<char>, from: int)
    requires
        0 <= from,
    ensures
        match slot_line_from(lines, slot, from) {
            Some(k) => from <= k < lines.len() && occurs(lines[k], "{{"@ + slot) && forall|i: int|
                from <= i < k ==> !occurs(#[trigger] lines[i], "{{"@ + slot),
            None => forall|i: int|
                from <= i < lines.len() ==> !occurs(#[trigger] lines[i], "{{"@ + slot),
        },
    decreases lines.len() - from,
{
    if from < lines.len() && !occurs(lines[from], "{{"@ + slot) {
        lemma_slot_line(lines, slot, from + 1);
    }
}

/// A rendering has the lines of the body, but for the blank ones in front: as
/// many, in their order, with a newline at the end exactly where the body has
/// one. Fenced lines, and lines without an opening brace, are what they were.
pub proof fn law_rendering_keeps_the_lines(
    declared: Seq<VariableModel>,
    body: Seq<char>,
    variables: Seq<(Seq<char>, JsonModel)>,
    text: Seq<char>,
) -> (parts: Seq<Seq<char>>)
    requires
        rendered_with(declared, body, variables) == Ok::<Seq<char>, ErrorModel>(text),
    ensures
        ({
            let rest = skip_newlines(body);
            let lines = text_lines(rest);
            &&& rest.is_suffix_of(body)
            &&& rest.len() > 0 ==> rest[0] != '\n' && rest[0] != '\r'
            &&& forall|k: int|
                0 <= k < body.len() - rest.len() ==> body[k] == '\n' || body[k] == '\r'
            &&& parts.len() == lines.len()
            &&& text == join_of(parts, "\n"@) + (if rest.len() > 0 && rest.last() == '\n' {
                "\n"@
            } else {
                Seq::empty()
            })
            &&& forall|i: int|
                0 <= i < lines.len() && (!is_plain(lines, i) || !occurs(lines[i], "{{"@))
                    ==> #[trigger] parts[i] == lines[i]
        }),
{
    let rest = skip_newlines(body);
    let lines = text_lines(rest);
    let values = given_of(slots_of(body), declared, variables);
    lemma_skip_newlines(body);
    let parts = Seq::new(lines.len(), |i: int| rendered_line(lines, values, i));
    assert forall|i: int|
        0 <= i < lines.len() && (!is_plain(lines, i) || !occurs(lines[i], "{{"@)) implies
        #[trigger] parts[i] == lines[i] by {
        law_verbatim_lines(lines, values, i);
    }
    assert(join_of(parts, "\n"@) + Seq::<char>::empty() =~= join_of(parts, "\n"@));
    parts
}

proof fn lemma_skip_newlines(s: Seq<char>)
    ensures
        skip_newlines(s).is_suffix_of(s),
        skip_newlines(s).len() > 0 ==> skip_newlines(s)[0] != '\n' && skip_newlines(s)[0] != '\r',
        forall|k: int|
            0 <= k < s.len() - skip_newlines(s).len() ==> s[k] == '\n' || s[k] == '\r',
    decreases s.len(),
{
    let rest = skip_newlines(s);
    if s.len() > 0 && (s[0] == '\n' || s[0] == '\r') {
        let d = s.skip(1);
        lemma_skip_newlines(d);
        assert(s.subrange(s.len() - rest.len(), s.len() as int) =~= d.subrange(
            d.len() - rest.len(),
            d.len() as int,
        ));
        assert forall|k: int| 0 <= k < s.len() - rest.len() implies s[k] == '\n' || s[k] == '\r' by {
            if k > 0 {
                assert(d[k - 1] == s[k]);
            }
        }
    } else {
        assert(s.subrange(0, s.len() as int) =~= s);
    }
}

} // verus!
