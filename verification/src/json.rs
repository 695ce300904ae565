//! Structured data as it crosses the library's border: what a JSON document
//! can hold.

use crate::text::{decimal, decimal_of, integer, integer_of, same_str};
use crate::util::digit_of;
use vstd::prelude::*;

verus! {

/// A JSON number. An integer is held exactly; any other number is held as its
/// decimal text.
#[derive(Debug)]
pub enum Numeral {
    Unsigned(u64),
    Negative(i64),
    Decimal(String),
}

/// A JSON value. The members of an object are a list of names with values.
#[derive(Debug)]
pub enum Json {
    Null,
    Bool(bool),
    Number(Numeral),
    Text(String),
    Array(Vec<Json>),
    Object(Vec<(String, Json)>),
}

/// What a number is, apart from how it is held.
pub enum NumberModel {
    Unsigned(u64),
    Negative(i64),
    Decimal(Seq<char>),
}

/// What a value is, apart from how it is held.
pub enum JsonModel {
    Null,
    Bool(bool),
    Number(NumberModel),
    Text(Seq<char>),
    Array(Seq<JsonModel>),
    Object(Seq<(Seq<char>, JsonModel)>),
}

impl View for Numeral {
    type V = NumberModel;

    open spec fn view(&self) -> NumberModel {
        match self {
            Numeral::Unsigned(n) => NumberModel::Unsigned(*n),
            Numeral::Negative(n) => NumberModel::Negative(*n),
            Numeral::Decimal(t) => NumberModel::Decimal(t@),
        }
    }
}

/// The model of a value.
pub open spec fn model(v: Json) -> JsonModel
    decreases v,
{
    match v {
        Json::Null => JsonModel::Null,
        Json::Bool(b) => JsonModel::Bool(b),
        Json::Number(n) => JsonModel::Number(n@),
        Json::Text(s) => JsonModel::Text(s@),
        Json::Array(items) => JsonModel::Array(
            Seq::new(
                items@.len(),
                |i: int|
                    if 0 <= i < items@.len() {
                        model(items@[i])
                    } else {
                        JsonModel::Null
                    },
            ),
        ),
        Json::Object(members) => JsonModel::Object(
            Seq::new(
                members@.len(),
                |i: int|
                    if 0 <= i < members@.len() {
                        (members@[i].0@, model(members@[i].1))
                    } else {
                        (Seq::empty(), JsonModel::Null)
                    },
            ),
        ),
    }
}

impl View for Json {
    type V = JsonModel;

    open spec fn view(&self) -> JsonModel {
        model(*self)
    }
}

/// A copy of a value.
pub fn copy_json(v: &Json) -> (out: Json)
    ensures
        out@ == v@,
    decreases *v,
{
    match v {
        Json::Null => Json::Null,
        Json::Bool(b) => Json::Bool(*b),
        Json::Number(n) => Json::Number(copy_number(n)),
        Json::Text(s) => Json::Text(s.clone()),
        Json::Array(items) => {
            let mut copied: Vec<Json> = Vec::new();
            let mut i: usize = 0;
            while i < items.len()
                invariant
                    *v == Json::Array(*items),
                    i <= items.len(),
                    copied.len() == i,
                    forall|k: int| 0 <= k < i ==> model(#[trigger] copied@[k]) == model(items@[k]),
                decreases items.len() - i,
            {
                assert(decreases_to!(*v => v->Array_0));
                assert(decreases_to!(*items => items@));
                assert(decreases_to!(items@ => items@[i as int]));
                copied.push(copy_json(&items[i]));
                i += 1;
            }
            let out = Json::Array(copied);
            assert(model(out)->Array_0 =~= model(*v)->Array_0);
            out
        },
        Json::Object(members) => {
            let mut copied: Vec<(String, Json)> = Vec::new();
            let mut i: usize = 0;
            while i < members.len()
                invariant
                    *v == Json::Object(*members),
                    i <= members.len(),
                    copied.len() == i,
                    forall|k: int|
                        0 <= k < i ==> (#[trigger] copied@[k]).0@ == members@[k].0@ && model(
                            copied@[k].1,
                        ) == model(members@[k].1),
                decreases members.len() - i,
            {
                assert(decreases_to!(*v => v->Object_0));
                assert(decreases_to!(*members => members@));
                assert(decreases_to!(members@ => members@[i as int]));
                assert(decreases_to!(members@[i as int] => members@[i as int].1));
                copied.push((members[i].0.clone(), copy_json(&members[i].1)));
                i += 1;
            }
            let out = Json::Object(copied);
            assert(model(out)->Object_0 =~= model(*v)->Object_0);
            out
        },
    }
}

/// A copy of a number.
pub fn copy_number(n: &Numeral) -> (out: Numeral)
    ensures
        out@ == n@,
{
    match n {
        Numeral::Unsigned(n) => Numeral::Unsigned(*n),
        Numeral::Negative(n) => Numeral::Negative(*n),
        Numeral::Decimal(t) => Numeral::Decimal(t.clone()),
    }
}

/// The value of the first member with a name.
pub open spec fn member_of(members: Seq<(Seq<char>, JsonModel)>, key: Seq<char>) -> Option<
    JsonModel,
>
    decreases members.len(),
{
    if members.len() == 0 {
        None
    } else if members[0].0 == key {
        Some(members[0].1)
    } else {
        member_of(members.skip(1), key)
    }
}

/// The member of a value with a name, if the value is an object that has one.
pub open spec fn get_of(v: JsonModel, key: Seq<char>) -> Option<JsonModel> {
    match v {
        JsonModel::Object(members) => member_of(members, key),
        _ => None,
    }
}

impl Json {
    /// The member with a name, if this is an object that has one.
    pub fn get(&self, key: &str) -> (out: Option<&Json>)
        ensures
            match out {
                Some(v) => get_of(self@, key@) == Some(v@),
                None => get_of(self@, key@) is None,
            },
    {
        match self {
            Json::Object(members) => {
                let ghost all = model(*self)->Object_0;
                let mut i: usize = 0;
                assert(all.skip(0) == all);
                while i < members.len()
                    invariant
                        *self == Json::Object(*members),
                        all == model(*self)->Object_0,
                        i <= members.len(),
                        member_of(all, key@) == member_of(all.skip(i as int), key@),
                    decreases members.len() - i,
                {
                    assert(all.skip(i as int).skip(1) == all.skip(i + 1));
                    assert(all.skip(i as int)[0] == (members@[i as int].0@, model(
                        members@[i as int].1,
                    )));
                    if same_str(members[i].0.as_str(), key) {
                        return Some(&members[i].1);
                    }
                    i += 1;
                }
                None
            },
            _ => None,
        }
    }

    /// The text, if this is one.
    pub fn as_str(&self) -> (out: Option<&str>)
        ensures
            match out {
                Some(s) => self@ == JsonModel::Text(s@),
                None => !(self@ is Text),
            },
    {
        match self {
            Json::Text(s) => Some(s.as_str()),
            _ => None,
        }
    }
}

// ---------------------------------------------------------------------------
// Values as text
// ---------------------------------------------------------------------------

/// A character inside a JSON string.
pub open spec fn escape_of(c: char) -> Seq<char> {
    if c == '"' {
        "\\\""@
    } else if c == '\\' {
        "\\\\"@
    } else if c == '\u{8}' {
        "\\b"@
    } else if c == '\t' {
        "\\t"@
    } else if c == '\n' {
        "\\n"@
    } else if c == '\u{c}' {
        "\\f"@
    } else if c == '\r' {
        "\\r"@
    } else if ' ' > c {
        "\\u00"@ + seq![digit_of(c as int / 16), digit_of(c as int % 16)]
    } else {
        seq![c]
    }
}

/// The characters of a text inside a JSON string.
pub open spec fn escaped(s: Seq<char>) -> Seq<char>
    decreases s.len(),
{
    if s.len() == 0 {
        Seq::empty()
    } else {
        escaped(s.drop_last()) + escape_of(s.last())
    }
}

/// A text as a JSON string, quoted and escaped.
pub open spec fn quoted_of(s: Seq<char>) -> Seq<char> {
    "\""@ + escaped(s) + "\""@
}

/// `serde_json::to_string` of a string: the text in quotes. The quote, the
/// backslash and the control characters are escaped, those that have one by
/// their short form; every other character stands for itself. Writing a string
/// cannot fail.
#[verifier::external_body]
fn quoted(s: &str) -> (out: String)
    ensures
        out@ == quoted_of(s@),
{
    serde_json::to_string(s).unwrap_or_default()
}

/// The text of a number.
pub open spec fn number_text(n: NumberModel) -> Seq<char> {
    match n {
        NumberModel::Unsigned(n) => decimal_of(n as nat),
        NumberModel::Negative(n) => integer_of(n as int),
        NumberModel::Decimal(t) => t,
    }
}

/// How deep a list of members or items reaches into its value.
pub open spec fn width(v: JsonModel) -> nat {
    match v {
        JsonModel::Array(items) => items.len(),
        JsonModel::Object(members) => members.len(),
        _ => 0,
    }
}

/// A value as compact JSON text.
pub open spec fn json_text(v: JsonModel) -> Seq<char>
    decreases v, width(v) + 1,
{
    match v {
        JsonModel::Null => "null"@,
        JsonModel::Bool(b) => if b {
            "true"@
        } else {
            "false"@
        },
        JsonModel::Number(n) => number_text(n),
        JsonModel::Text(s) => quoted_of(s),
        JsonModel::Array(items) => "["@ + items_text(v, items.len()) + "]"@,
        JsonModel::Object(members) => "{"@ + members_text(v, members.len()) + "}"@,
    }
}

/// The first `n` items of a list, with commas between them.
pub open spec fn items_text(v: JsonModel, n: nat) -> Seq<char>
    decreases v, n,
{
    match v {
        JsonModel::Array(items) => if n == 0 || n > items.len() {
            Seq::empty()
        } else if n == 1 {
            json_text(items[0])
        } else {
            items_text(v, (n - 1) as nat) + ","@ + json_text(items[n - 1])
        },
        _ => Seq::empty(),
    }
}

/// The first `n` members of an object, with commas between them.
pub open spec fn members_text(v: JsonModel, n: nat) -> Seq<char>
    decreases v, n,
{
    match v {
        JsonModel::Object(members) => if n == 0 || n > members.len() {
            Seq::empty()
        } else if n == 1 {
            quoted_of(members[0].0) + ":"@ + json_text(members[0].1)
        } else {
            members_text(v, (n - 1) as nat) + ","@ + (quoted_of(members[n - 1].0) + ":"@
                + json_text(members[n - 1].1))
        },
        _ => Seq::empty(),
    }
}

impl Numeral {
    /// The text of the number.
    pub fn to_text(&self) -> (out: String)
        ensures
            out@ == number_text(self@),
    {
        match self {
            Numeral::Unsigned(n) => decimal(*n),
            Numeral::Negative(n) => integer(*n),
            Numeral::Decimal(t) => t.clone(),
        }
    }
}

/// A value as compact JSON text.
pub fn to_text(v: &Json) -> (out: String)
    ensures
        out@ == json_text(v@),
    decreases *v,
{
    match v {
        Json::Null => "null".to_owned(),
        Json::Bool(b) => if *b {
            "true".to_owned()
        } else {
            "false".to_owned()
        },
        Json::Number(n) => n.to_text(),
        Json::Text(s) => quoted(s.as_str()),
        Json::Array(items) => {
            let mut out = "[".to_owned();
            let mut i: usize = 0;
            assert(out@ =~= "["@ + items_text(v@, 0));
            while i < items.len()
                invariant
                    *v == Json::Array(*items),
                    i <= items.len(),
                    out@ == "["@ + items_text(v@, i as nat),
                decreases items.len() - i,
            {
                assert(decreases_to!(*v => v->Array_0));
                assert(decreases_to!(*items => items@));
                assert(decreases_to!(items@ => items@[i as int]));
                assert((v@->Array_0)[i as int] == items@[i as int]@);
                if i > 0 {
                    out.append(",");
                }
                out.append(to_text(&items[i]).as_str());
                assert(out@ =~= "["@ + items_text(v@, (i + 1) as nat));
                i += 1;
            }
            out.append("]");
            out
        },
        Json::Object(members) => {
            let mut out = "{".to_owned();
            let mut i: usize = 0;
            assert(out@ =~= "{"@ + members_text(v@, 0));
            while i < members.len()
                invariant
                    *v == Json::Object(*members),
                    i <= members.len(),
                    out@ == "{"@ + members_text(v@, i as nat),
                decreases members.len() - i,
            {
                assert(decreases_to!(*v => v->Object_0));
                assert(decreases_to!(*members => members@));
                assert(decreases_to!(members@ => members@[i as int]));
                assert(decreases_to!(members@[i as int] => members@[i as int].1));
                assert((v@->Object_0)[i as int] == (
                    members@[i as int].0@,
                    members@[i as int].1@,
                ));
                if i > 0 {
                    out.append(",");
                }
                out.append(quoted(members[i].0.as_str()).as_str());
                out.append(":");
                out.append(to_text(&members[i].1).as_str());
                assert(out@ =~= "{"@ + members_text(v@, (i + 1) as nat));
                i += 1;
            }
            out.append("}");
            out
        },
    }
}

} // verus!
