//! YAML frontmatter: the `---` fenced block a skill or prompt opens with.
//!
//! Parsing is deliberately forgiving. A malformed block is reported as a
//! finding by the validators, never as a failure to open the document: a
//! broken skill is exactly the file you most need to be able to read.

use crate::artifact::yaml::{
    json_of, member_models, read_yaml, yaml_model, yaml_of, yaml_to_json, YamlModel,
};
use crate::json::{member_of, model, Json, JsonModel};
use crate::text::{
    byte_len, bytes_in, chars_of, holds, index_of, is_space, lemma_byte_len_concat, lemma_index_of,
    lemma_trim_end_len, part, position, same, same_str, string_of, trim_end, trim_end_of, views,
};
use vstd::prelude::*;

verus! {

#[derive(Debug)]
pub struct Frontmatter {
    /// Parsed mapping, empty when there is no block or it failed to parse.
    pub data: Vec<(String, Json)>,
    /// The raw YAML text between the fences, for round-tripping.
    pub raw: String,
    /// Byte offset in the original document where the body begins.
    pub body_offset: usize,
    /// Line number (1-based) where the body begins.
    pub body_line: usize,
    pub present: bool,
    pub parse_error: Option<String>,
}

/// What a frontmatter holds.
pub struct FrontmatterModel {
    pub data: Seq<(Seq<char>, JsonModel)>,
    pub raw: Seq<char>,
    pub body_offset: nat,
    pub body_line: nat,
    pub present: bool,
    pub parse_error: Option<Seq<char>>,
}

impl View for Frontmatter {
    type V = FrontmatterModel;

    open spec fn view(&self) -> FrontmatterModel {
        FrontmatterModel {
            data: member_models(self.data@),
            raw: self.raw@,
            body_offset: self.body_offset as nat,
            body_line: self.body_line as nat,
            present: self.present,
            parse_error: match self.parse_error {
                Some(e) => Some(e@),
                None => None,
            },
        }
    }
}

// ---------------------------------------------------------------------------
// Finding the block
// ---------------------------------------------------------------------------

/// Where the line that starts at `i` ends, its newline included.
pub open spec fn next_line(s: Seq<char>, i: int) -> int {
    let at = i + index_of(s.skip(i), '\n');
    if at < s.len() {
        at + 1
    } else {
        s.len() as int
    }
}

/// Is a line, with or without its newline, an opening fence?
pub open spec fn opens(line: Seq<char>) -> bool {
    trim_end_of(line) == "---"@
}

/// Is a line, with or without its newline, a closing fence?
pub open spec fn closes(line: Seq<char>) -> bool {
    trim_end_of(line) == "---"@ || trim_end_of(line) == "..."@
}

pub proof fn lemma_next_line(s: Seq<char>, i: int)
    requires
        0 <= i < s.len(),
    ensures
        i < next_line(s, i) <= s.len(),
{
    lemma_index_of(s.skip(i), '\n');
}

/// The closing fence at or behind position `i`: where its line starts, and
/// how many lines stand before it.
pub open spec fn close_from(s: Seq<char>, i: int) -> Option<(int, nat)>
    decreases s.len() - i,
    via close_from_decreases
{
    if i < 0 || i >= s.len() {
        None
    } else if closes(s.subrange(i, next_line(s, i))) {
        Some((i, 0))
    } else {
        match close_from(s, next_line(s, i)) {
            Some((at, n)) => Some((at, n + 1)),
            None => None,
        }
    }
}

#[via_fn]
proof fn close_from_decreases(s: Seq<char>, i: int) {
    if 0 <= i < s.len() {
        lemma_next_line(s, i);
    }
}

/// A frontmatter block: its text, the character at which the body begins, and
/// the body's first line number.
pub struct BlockModel {
    pub raw: Seq<char>,
    pub body: int,
    pub body_line: nat,
}

/// The frontmatter block of a document. An opening fence with no closing fence
/// is not frontmatter.
pub open spec fn block_of(text: Seq<char>) -> Option<BlockModel> {
    let bom: int = if text.len() > 0 && text[0] == '\u{feff}' {
        1
    } else {
        0
    };
    let rest = text.skip(bom);
    let first = next_line(rest, 0);
    if !opens(rest.take(first)) {
        None
    } else {
        match close_from(rest, first) {
            Some((at, n)) => Some(
                BlockModel {
                    raw: rest.subrange(first, at),
                    body: bom + next_line(rest, at),
                    body_line: n + 3,
                },
            ),
            None => None,
        }
    }
}

/// The character at which the body of a document begins.
pub open spec fn body_start(text: Seq<char>) -> int {
    match block_of(text) {
        Some(b) => b.body,
        None => 0,
    }
}

/// The document with its frontmatter block removed.
pub open spec fn body_text(text: Seq<char>) -> Seq<char> {
    text.skip(body_start(text))
}

/// What a JSON value is called.
pub open spec fn kind_name(v: JsonModel) -> Seq<char> {
    match v {
        JsonModel::Null => "null"@,
        JsonModel::Bool(_) => "a boolean"@,
        JsonModel::Number(_) => "a number"@,
        JsonModel::Text(_) => "a string"@,
        JsonModel::Array(_) => "a list"@,
        JsonModel::Object(_) => "a mapping"@,
    }
}

/// The members that a block's YAML gives, or what is wrong with it.
pub open spec fn block_data(yaml: std::result::Result<YamlModel, Seq<char>>) -> (
    Seq<(Seq<char>, JsonModel)>,
    Option<Seq<char>>,
) {
    match yaml {
        Ok(y) => match json_of(y) {
            JsonModel::Object(members) => (members, None),
            JsonModel::Null => (Seq::empty(), None),
            other => (
                Seq::empty(),
                Some("frontmatter must be a mapping, found "@ + kind_name(other)),
            ),
        },
        Err(e) => (Seq::empty(), Some(e)),
    }
}

/// The frontmatter of a document, given what its block says as YAML.
pub open spec fn frontmatter_with(
    text: Seq<char>,
    yaml: std::result::Result<YamlModel, Seq<char>>,
) -> FrontmatterModel {
    match block_of(text) {
        None => FrontmatterModel {
            data: Seq::empty(),
            raw: Seq::empty(),
            body_offset: 0,
            body_line: 1,
            present: false,
            parse_error: None,
        },
        Some(b) => FrontmatterModel {
            data: block_data(yaml).0,
            raw: b.raw,
            body_offset: byte_len(text.take(b.body)),
            body_line: b.body_line,
            present: true,
            parse_error: block_data(yaml).1,
        },
    }
}

/// The frontmatter of a document.
pub open spec fn frontmatter_of(text: Seq<char>) -> FrontmatterModel {
    frontmatter_with(
        text,
        match block_of(text) {
            Some(b) => yaml_of(b.raw),
            None => Err(Seq::empty()),
        },
    )
}

/// A frontmatter block.
#[derive(Debug)]
pub struct Block {
    pub raw: String,
    /// The character at which the body begins.
    pub body: usize,
    pub body_line: usize,
}

fn line_after(s: &[char], i: usize) -> (out: usize)
    requires
        i <= s@.len(),
    ensures
        out == next_line(s@, i as int),
        i <= out <= s@.len(),
{
    let rest = part(s, i, s.len());
    assert(rest@ =~= s@.skip(i as int));
    let at: usize = position(rest, '\n');
    proof {
        lemma_index_of(rest@, '\n');
    }
    if i + at < s.len() {
        i + at + 1
    } else {
        s.len()
    }
}

fn is_line(s: &[char], from: usize, to: usize, wanted: &str) -> (out: bool)
    requires
        from <= to <= s@.len(),
    ensures
        out == (trim_end_of(s@.subrange(from as int, to as int)) == wanted@),
{
    same(trim_end(part(s, from, to)), &chars_of(wanted))
}

/// Finds the frontmatter block of a document.
pub fn find_block(text: &str) -> (out: Option<Block>)
    ensures
        match out {
            Some(b) => block_of(text@) == Some(
                BlockModel { raw: b.raw@, body: b.body as int, body_line: b.body_line as nat },
            ) && b.body_line <= b.body <= text@.len(),
            None => block_of(text@) is None,
        },
{
    let chars = chars_of(text);
    let bom: usize = if chars.len() > 0 && chars[0] == '\u{feff}' {
        1
    } else {
        0
    };
    let rest = part(&chars, bom, chars.len());
    assert(rest@ =~= text@.skip(bom as int));
    let first: usize = line_after(rest, 0);
    assert(rest@.subrange(0, first as int) =~= rest@.take(first as int));
    if !is_line(rest, 0, first, "---") {
        return None;
    }
    proof {
        reveal_strlit("---");
        lemma_trim_end_len(rest@.take(first as int));
    }
    let n: usize = chars.len();
    let mut at: usize = first;
    let mut passed: usize = 0;
    let ghost whole = close_from(rest@, first as int);
    while at < rest.len()
        invariant
            n == chars@.len(),
            chars@ == text@,
            bom <= n,
            bom == (if text@.len() > 0 && text@[0] == '\u{feff}' {
                1int
            } else {
                0int
            }),
            rest@ == text@.skip(bom as int),
            rest@.len() == n - bom,
            first == next_line(rest@, 0),
            opens(rest@.take(first as int)),
            first <= at <= rest@.len(),
            3 <= first,
            passed <= at - first,
            whole == close_from(rest@, first as int),
            whole == (match close_from(rest@, at as int) {
                Some((p, k)) => Some((p, k + passed as nat)),
                None => None,
            }),
        decreases rest.len() - at,
    {
        proof {
            lemma_next_line(rest@, at as int);
        }
        let end: usize = line_after(rest, at);
        if is_line(rest, at, end, "---") || is_line(rest, at, end, "...") {
            assert(whole == Some((at as int, passed as nat)));
            let raw = string_of(part(rest, first, at));
            return Some(Block { raw, body: bom + end, body_line: passed + 3 });
        }
        at = end;
        passed += 1;
    }
    None
}

fn bytes_before(text: &str, n: usize) -> (out: usize)
    requires
        n <= text@.len(),
    ensures
        out == byte_len(text@.take(n as int)),
{
    let chars = chars_of(text);
    let prefix = string_of(part(&chars, 0, n));
    assert(prefix@ =~= text@.take(n as int));
    bytes_in(prefix.as_str())
}

fn json_kind(v: &Json) -> (out: &'static str)
    ensures
        out@ == kind_name(v@),
{
    match v {
        Json::Null => "null",
        Json::Bool(_) => "a boolean",
        Json::Number(_) => "a number",
        Json::Text(_) => "a string",
        Json::Array(_) => "a list",
        Json::Object(_) => "a mapping",
    }
}

pub open spec fn yaml_result(
    yaml: std::result::Result<serde_yaml_ng::Value, String>,
) -> std::result::Result<YamlModel, Seq<char>> {
    match yaml {
        Ok(v) => Ok(yaml_model(v)),
        Err(e) => Err(e@),
    }
}

/// Puts a document's block and what the block says as YAML together.
pub fn with_yaml(
    text: &str,
    block: Block,
    yaml: std::result::Result<serde_yaml_ng::Value, String>,
) -> (out: Frontmatter)
    requires
        block.body <= text@.len(),
    ensures
        out@ == (FrontmatterModel {
            data: block_data(yaml_result(yaml)).0,
            raw: block.raw@,
            body_offset: byte_len(text@.take(block.body as int)),
            body_line: block.body_line as nat,
            present: true,
            parse_error: block_data(yaml_result(yaml)).1,
        }),
{
    let mut out = Frontmatter {
        data: Vec::new(),
        body_offset: bytes_before(text, block.body),
        body_line: block.body_line,
        raw: block.raw,
        present: true,
        parse_error: None,
    };
    assert(member_models(out.data@) =~= Seq::<(Seq<char>, JsonModel)>::empty());
    match yaml {
        Ok(v) => {
            let json = yaml_to_json(&v);
            match json {
                Json::Object(members) => {
                    assert(model(Json::Object(members))->Object_0 =~= member_models(members@));
                    out.data = members;
                },
                Json::Null => {},
                other => {
                    let mut message = "frontmatter must be a mapping, found ".to_owned();
                    message.append(json_kind(&other));
                    out.parse_error = Some(message);
                },
            }
        },
        Err(e) => {
            out.parse_error = Some(e);
        },
    }
    out
}

/// Splits a document into its frontmatter and body.
pub fn parse(text: &str) -> (out: Frontmatter)
    ensures
        out@ == frontmatter_of(text@),
        out.body_line + body_text(text@).len() <= text@.len() + 1,
{
    match find_block(text) {
        Some(block) => {
            let yaml = read_yaml(block.raw.as_str());
            with_yaml(text, block, yaml)
        },
        None => {
            let data: Vec<(String, Json)> = Vec::new();
            assert(member_models(data@) =~= Seq::<(Seq<char>, JsonModel)>::empty());
            Frontmatter {
                data,
                raw: String::new(),
                body_offset: 0,
                body_line: 1,
                present: false,
                parse_error: None,
            }
        },
    }
}

/// The characters of the body of a document.
pub fn body_chars(text: &str) -> (out: Vec<char>)
    ensures
        out@ == body_text(text@),
{
    let chars = chars_of(text);
    let start: usize = match find_block(text) {
        Some(b) => b.body,
        None => 0,
    };
    let mut out: Vec<char> = Vec::new();
    let mut i: usize = start;
    assert(chars@.subrange(start as int, start as int) =~= out@);
    while i < chars.len()
        invariant
            start <= i <= chars.len(),
            out@ == chars@.subrange(start as int, i as int),
        decreases chars.len() - i,
    {
        out.push(chars[i]);
        assert(chars@.subrange(start as int, i + 1) =~= chars@.subrange(
            start as int,
            i as int,
        ).push(chars@[i as int]));
        i += 1;
    }
    assert(chars@.subrange(start as int, i as int) =~= text@.skip(start as int));
    out
}

/// The document with its frontmatter block removed.
pub fn body_of(text: &str) -> (out: &str)
    ensures
        out@ == body_text(text@),
{
    let start: usize = match find_block(text) {
        Some(b) => b.body,
        None => 0,
    };
    let n: usize = text.unicode_len();
    assert(text@.subrange(start as int, n as int) =~= text@.skip(start as int));
    text.substring_char(start, n)
}

/// The body is the end of the document, behind its frontmatter block.
pub proof fn law_body_is_suffix(text: Seq<char>)
    ensures
        0 <= body_start(text) <= text.len(),
        text == text.take(body_start(text)) + body_text(text),
        block_of(text) is None ==> body_text(text) == text,
{
    let bom: int = if text.len() > 0 && text[0] == '\u{feff}' {
        1
    } else {
        0
    };
    let rest = text.skip(bom);
    if rest.len() > 0 {
        lemma_next_line(rest, 0);
    } else {
        lemma_index_of(rest.skip(0), '\n');
    }
    lemma_close_within(rest, next_line(rest, 0));
    assert(text =~= text.take(body_start(text)) + body_text(text));
    assert(text.skip(0) =~= text);
}

proof fn lemma_close_within(s: Seq<char>, i: int)
    requires
        0 <= i <= s.len(),
    ensures
        close_from(s, i) matches Some((at, n)) ==> i <= at < s.len() && at < next_line(s, at)
            <= s.len(),
    decreases s.len() - i,
{
    if i < s.len() {
        lemma_next_line(s, i);
        if !closes(s.subrange(i, next_line(s, i))) {
            lemma_close_within(s, next_line(s, i));
        }
    }
}

// ---------------------------------------------------------------------------
// Reading members
// ---------------------------------------------------------------------------

/// The text of a member, if it is one.
pub open spec fn text_member(data: Seq<(Seq<char>, JsonModel)>, key: Seq<char>) -> Option<
    Seq<char>,
> {
    match member_of(data, key) {
        Some(JsonModel::Text(s)) => Some(s),
        _ => None,
    }
}

/// The name that one item of a list stands for: itself, or its `name`.
pub open spec fn item_name(item: JsonModel) -> Option<Seq<char>> {
    match item {
        JsonModel::Text(s) => Some(s),
        JsonModel::Object(members) => text_member(members, "name"@),
        _ => None,
    }
}

/// The names that the items of a list stand for.
pub open spec fn item_names(items: Seq<JsonModel>) -> Seq<Seq<char>>
    decreases items.len(),
{
    if items.len() == 0 {
        Seq::empty()
    } else {
        match item_name(items.last()) {
            Some(name) => item_names(items.drop_last()).push(name),
            None => item_names(items.drop_last()),
        }
    }
}

/// A member read as a list of strings.
pub open spec fn string_list_of(v: Option<JsonModel>) -> Option<Seq<Seq<char>>> {
    match v {
        Some(JsonModel::Array(items)) => Some(item_names(items)),
        Some(JsonModel::Text(s)) => Some(seq![s]),
        _ => None,
    }
}

/// The member with a name.
pub fn find_member<'a>(members: &'a Vec<(String, Json)>, key: &str) -> (out: Option<&'a Json>)
    ensures
        match out {
            Some(v) => member_of(member_models(members@), key@) == Some(v@),
            None => member_of(member_models(members@), key@) is None,
        },
{
    let ghost all = member_models(members@);
    let mut i: usize = 0;
    assert(all.skip(0) =~= all);
    while i < members.len()
        invariant
            all == member_models(members@),
            i <= members.len(),
            member_of(all, key@) == member_of(all.skip(i as int), key@),
        decreases members.len() - i,
    {
        assert(all.skip(i as int).skip(1) =~= all.skip(i + 1));
        assert(all.skip(i as int)[0] == all[i as int]);
        if same_str(members[i].0.as_str(), key) {
            return Some(&members[i].1);
        }
        i += 1;
    }
    None
}

fn name_of(item: &Json) -> (out: Option<String>)
    ensures
        match out {
            Some(s) => item_name(item@) == Some(s@),
            None => item_name(item@) is None,
        },
{
    match item {
        Json::Text(s) => Some(s.clone()),
        Json::Object(members) => {
            assert(model(*item)->Object_0 =~= member_models(members@));
            match find_member(members, "name") {
                Some(Json::Text(s)) => Some(s.clone()),
                _ => None,
            }
        },
        _ => None,
    }
}

impl Frontmatter {
    pub fn get_str(&self, key: &str) -> (out: Option<&str>)
        ensures
            match out {
                Some(s) => text_member(self@.data, key@) == Some(s@),
                None => text_member(self@.data, key@) is None,
            },
    {
        match find_member(&self.data, key) {
            Some(Json::Text(s)) => Some(s.as_str()),
            _ => None,
        }
    }

    pub fn get(&self, key: &str) -> (out: Option<&Json>)
        ensures
            match out {
                Some(v) => member_of(self@.data, key@) == Some(v@),
                None => member_of(self@.data, key@) is None,
            },
    {
        find_member(&self.data, key)
    }

    pub fn has(&self, key: &str) -> (out: bool)
        ensures
            out == (member_of(self@.data, key@) is Some),
    {
        find_member(&self.data, key).is_some()
    }

    /// Declared variables of a prompt, in declaration order. An item may be a
    /// name, or a mapping with a `name`.
    pub fn string_list(&self, key: &str) -> (out: Option<Vec<String>>)
        ensures
            match out {
                Some(list) => string_list_of(member_of(self@.data, key@)) == Some(views(list@)),
                None => string_list_of(member_of(self@.data, key@)) is None,
            },
    {
        match find_member(&self.data, key) {
            Some(Json::Array(items)) => {
                let ghost all = model(Json::Array(*items))->Array_0;
                let mut out: Vec<String> = Vec::new();
                let mut i: usize = 0;
                assert(views(out@) =~= item_names(all.take(0)));
                while i < items.len()
                    invariant
                        all == model(Json::Array(*items))->Array_0,
                        i <= items.len(),
                        views(out@) == item_names(all.take(i as int)),
                    decreases items.len() - i,
                {
                    assert(all.take(i + 1).drop_last() =~= all.take(i as int));
                    assert(all[i as int] == items@[i as int]@);
                    let ghost before = views(out@);
                    if let Some(name) = name_of(&items[i]) {
                        let ghost n = name@;
                        out.push(name);
                        assert(views(out@) =~= before.push(n));
                    }
                    i += 1;
                }
                assert(all.take(i as int) =~= all);
                Some(out)
            },
            Some(Json::Text(s)) => {
                let mut out: Vec<String> = Vec::new();
                out.push(s.clone());
                assert(views(out@) =~= seq![s@]);
                Some(out)
            },
            _ => None,
        }
    }
}

// ---------------------------------------------------------------------------
// What a block is
// ---------------------------------------------------------------------------

/// Some lines, each with a newline behind it.
pub open spec fn with_newlines(lines: Seq<Seq<char>>) -> Seq<char>
    decreases lines.len(),
{
    if lines.len() == 0 {
        Seq::empty()
    } else {
        lines[0] + "\n"@ + with_newlines(lines.skip(1))
    }
}

proof fn lemma_next_line_is(s: Seq<char>, i: int, line: Seq<char>, rest: Seq<char>)
    requires
        0 <= i <= s.len(),
        s.skip(i) == line + "\n"@ + rest,
        !holds(line, '\n'),
    ensures
        next_line(s, i) == i + line.len() + 1,
        s.subrange(i, next_line(s, i)) == line + "\n"@,
        s.skip(next_line(s, i)) == rest,
{
    reveal_strlit("\n");
    let t = s.skip(i);
    let n = line.len() as int;
    assert(t[n] == '\n');
    assert forall|k: int| 0 <= k < n implies t[k] != '\n' by {
        assert(t[k] == line[k]);
    }
    crate::text::lemma_index_unique(t, '\n', n);
    assert(s.subrange(i, i + n + 1) =~= t.take(n + 1));
    assert(t.take(n + 1) =~= line + "\n"@);
    assert(s.skip(i + n + 1) =~= t.skip(n + 1));
    assert(t.skip(n + 1) =~= rest);
}

proof fn lemma_fence_closes()
    ensures
        closes("---"@ + "\n"@),
        opens("---"@ + "\n"@),
{
    reveal_strlit("---");
    reveal_strlit("\n");
    let s = "---"@ + "\n"@;
    assert(is_space('\n'));
    assert(!is_space('-'));
    assert(s.drop_last() =~= "---"@);
    assert(trim_end_of("---"@) == "---"@);
}

proof fn lemma_close(s: Seq<char>, i: int, lines: Seq<Seq<char>>, body: Seq<char>)
    requires
        0 <= i <= s.len(),
        s.skip(i) == with_newlines(lines) + ("---"@ + "\n"@ + body),
        forall|k: int|
            0 <= k < lines.len() ==> !holds(#[trigger] lines[k], '\n') && !closes(
                lines[k] + "\n"@,
            ),
    ensures
        close_from(s, i) == Some((i + with_newlines(lines).len(), lines.len())),
        s.skip(next_line(s, i + with_newlines(lines).len())) == body,
    decreases lines.len(),
{
    reveal_strlit("---");
    reveal_strlit("\n");
    let t = s.skip(i);
    if lines.len() == 0 {
        assert(t =~= "---"@ + "\n"@ + body);
        lemma_next_line_is(s, i, "---"@, body);
        lemma_fence_closes();
    } else {
        let line = lines[0];
        let rest = lines.skip(1);
        let behind = with_newlines(rest) + ("---"@ + "\n"@ + body);
        assert(t =~= line + "\n"@ + behind);
        lemma_next_line_is(s, i, line, behind);
        assert(!closes(line + "\n"@));
        assert forall|k: int| 0 <= k < rest.len() implies !holds(#[trigger] rest[k], '\n')
            && !closes(rest[k] + "\n"@) by {
            assert(rest[k] == lines[k + 1]);
        }
        lemma_close(s, next_line(s, i), rest, body);
    }
}

/// A document that starts with a fence, some lines of which none is a closing
/// fence, and a fence has those lines as its frontmatter, and all that follows
/// as its body; the number of the body's first line counts both fences.
pub proof fn law_block_stands_between_fences(lines: Seq<Seq<char>>, body: Seq<char>)
    requires
        forall|k: int|
            0 <= k < lines.len() ==> !holds(#[trigger] lines[k], '\n') && !closes(
                lines[k] + "\n"@,
            ),
    ensures
        ({
            let text = "---"@ + "\n"@ + (with_newlines(lines) + ("---"@ + "\n"@ + body));
            let fm = frontmatter_of(text);
            &&& fm.present
            &&& fm.raw == with_newlines(lines)
            &&& body_text(text) == body
            &&& fm.body_line == lines.len() + 3
            &&& fm.body_offset == byte_len(text) - byte_len(body)
        }),
{
    reveal_strlit("---");
    reveal_strlit("\n");
    let inner = with_newlines(lines) + ("---"@ + "\n"@ + body);
    let text = "---"@ + "\n"@ + inner;
    assert(text[0] == '-');
    let rest = text.skip(0);
    assert(rest =~= text);
    assert(rest.skip(0) =~= text);
    lemma_next_line_is(rest, 0, "---"@, inner);
    assert(rest.take(4) =~= rest.subrange(0, 4));
    lemma_fence_closes();
    assert(rest.skip(4) == inner);
    lemma_close(rest, 4, lines, body);
    let n = with_newlines(lines).len() as int;
    assert(rest.subrange(4, 4 + n) =~= with_newlines(lines)) by {
        assert(rest.subrange(4, 4 + n) =~= inner.take(n));
    }
    let b = block_of(text)->0;
    assert(text.skip(b.body) =~= rest.skip(next_line(rest, 4 + n)));
    law_body_is_suffix(text);
    lemma_byte_len_concat(text.take(b.body), body);
}

} // verus!
