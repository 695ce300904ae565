//! YAML values as they come out of the parser, and as the library holds them.

use crate::text::{chars_of, string_of, trim, trim_of};
use crate::json::{model, Json, JsonModel, NumberModel, Numeral};
use vstd::prelude::*;

verus! {

/// `serde_yaml_ng::Value`, a parsed YAML document.
#[verifier::external_type_specification]
#[verifier::external_body]
pub struct ExYamlValue(serde_yaml_ng::Value);

/// `serde_yaml_ng::Number`, a number in such a document.
#[verifier::external_type_specification]
#[verifier::external_body]
pub struct ExYamlNumber(serde_yaml_ng::Number);

/// What a YAML value holds. A number that is no integer is the decimal text
/// that JSON has for it, where there is one. A mapping's entry says whether
/// its key is a string, and gives the key's text.
pub enum YamlModel {
    Null,
    Bool(bool),
    Int(i64),
    Decimal(Option<Seq<char>>),
    Text(Seq<char>),
    List(Seq<YamlModel>),
    Mapping(Seq<(bool, Seq<char>, YamlModel)>),
    Tagged(Box<YamlModel>),
}

/// What a parsed YAML value holds.
pub uninterp spec fn yaml_model(v: serde_yaml_ng::Value) -> YamlModel;

/// The YAML document that a text is, or the parser's complaint.
pub uninterp spec fn yaml_of(text: Seq<char>) -> std::result::Result<YamlModel, Seq<char>>;

/// The integer that a YAML number is, if it is one that an `i64` can hold.
pub uninterp spec fn yaml_int_of(n: serde_yaml_ng::Number) -> Option<i64>;

/// The decimal text that JSON has for a YAML number, if it has one.
pub uninterp spec fn yaml_decimal_of(n: serde_yaml_ng::Number) -> Option<Seq<char>>;

/// How a YAML value is written out.
pub uninterp spec fn yaml_text_of(v: serde_yaml_ng::Value) -> Seq<char>;

/// One level of a YAML value.
pub enum Node {
    Null,
    Bool(bool),
    Number(serde_yaml_ng::Number),
    Text(String),
    List(Vec<serde_yaml_ng::Value>),
    Mapping(Vec<(serde_yaml_ng::Value, serde_yaml_ng::Value)>),
    Tagged(serde_yaml_ng::Value),
}

/// What a YAML number holds.
pub open spec fn number_model(n: serde_yaml_ng::Number) -> YamlModel {
    match yaml_int_of(n) {
        Some(i) => YamlModel::Int(i),
        None => YamlModel::Decimal(yaml_decimal_of(n)),
    }
}

/// What an entry of a mapping holds.
pub open spec fn entry_model(key: serde_yaml_ng::Value, value: serde_yaml_ng::Value) -> (
    bool,
    Seq<char>,
    YamlModel,
) {
    match yaml_model(key) {
        YamlModel::Text(s) => (true, s, yaml_model(value)),
        _ => (false, yaml_text_of(key), yaml_model(value)),
    }
}

/// What one level of a YAML value holds.
pub open spec fn node_model(n: Node) -> YamlModel {
    match n {
        Node::Null => YamlModel::Null,
        Node::Bool(b) => YamlModel::Bool(b),
        Node::Number(n) => number_model(n),
        Node::Text(s) => YamlModel::Text(s@),
        Node::List(items) => YamlModel::List(
            Seq::new(items@.len(), |i: int| yaml_model(items@[i])),
        ),
        Node::Mapping(entries) => YamlModel::Mapping(
            Seq::new(entries@.len(), |i: int| entry_model(entries@[i].0, entries@[i].1)),
        ),
        Node::Tagged(v) => YamlModel::Tagged(Box::new(yaml_model(v))),
    }
}

/// `serde_yaml_ng::from_str` into a `serde_yaml_ng::Value`. What comes back,
/// value or complaint, depends on the text alone.
#[verifier::external_body]
pub(crate) fn read_yaml(text: &str) -> (out: std::result::Result<serde_yaml_ng::Value, String>)
    ensures
        match out {
            Ok(v) => yaml_of(text@) == Ok::<YamlModel, Seq<char>>(yaml_model(v)),
            Err(e) => yaml_of(text@) == Err::<YamlModel, Seq<char>>(e@),
        },
{
    serde_yaml_ng::from_str::<serde_yaml_ng::Value>(text).map_err(|e| e.to_string())
}

/// The variants of `serde_yaml_ng::Value`, one by one: what each of them holds
/// is what the value holds.
#[verifier::external_body]
fn peel(v: &serde_yaml_ng::Value) -> (out: Node)
    ensures
        node_model(out) == yaml_model(*v),
{
    match v.clone() {
        serde_yaml_ng::Value::Null => Node::Null,
        serde_yaml_ng::Value::Bool(b) => Node::Bool(b),
        serde_yaml_ng::Value::Number(n) => Node::Number(n),
        serde_yaml_ng::Value::String(s) => Node::Text(s),
        serde_yaml_ng::Value::Sequence(items) => Node::List(items),
        serde_yaml_ng::Value::Mapping(map) => Node::Mapping(map.into_iter().collect()),
        serde_yaml_ng::Value::Tagged(t) => Node::Tagged(t.value),
    }
}

/// `serde_yaml_ng::Number::as_i64`.
#[verifier::external_body]
fn as_int(n: &serde_yaml_ng::Number) -> (out: Option<i64>)
    ensures
        out == yaml_int_of(*n),
{
    n.as_i64()
}

/// `serde_yaml_ng::Number::as_f64` and, for a finite number, the text that
/// `serde_json::Number::from_f64` has for it.
#[verifier::external_body]
fn as_decimal(n: &serde_yaml_ng::Number) -> (out: Option<String>)
    ensures
        crate::text::opt_view(out) == yaml_decimal_of(*n),
{
    n.as_f64().and_then(serde_json::Number::from_f64).map(|d| d.to_string())
}

/// `serde_yaml_ng::to_string`; nothing where a value cannot be written.
#[verifier::external_body]
fn written(v: &serde_yaml_ng::Value) -> (out: String)
    ensures
        out@ == yaml_text_of(*v),
{
    serde_yaml_ng::to_string(v).unwrap_or_default()
}

/// Where a member with a name stands; the number of members if there is none.
pub open spec fn slot_of(members: Seq<(Seq<char>, JsonModel)>, key: Seq<char>) -> int
    decreases members.len(),
{
    if members.len() == 0 || members[0].0 == key {
        0
    } else {
        1 + slot_of(members.skip(1), key)
    }
}

/// The members with one more; a member of the same name gives up its value
/// and keeps its place.
pub open spec fn put_of(
    members: Seq<(Seq<char>, JsonModel)>,
    key: Seq<char>,
    value: JsonModel,
) -> Seq<(Seq<char>, JsonModel)> {
    let i = slot_of(members, key);
    if i < members.len() {
        members.update(i, (key, value))
    } else {
        members.push((key, value))
    }
}

/// How many entries a mapping has.
pub open spec fn entry_count(v: YamlModel) -> nat {
    match v {
        YamlModel::Mapping(entries) => entries.len(),
        _ => 0,
    }
}

/// The JSON value for a YAML value: tags are dropped, keys become strings.
pub open spec fn json_of(v: YamlModel) -> JsonModel
    decreases v, entry_count(v) + 1,
{
    match v {
        YamlModel::Null => JsonModel::Null,
        YamlModel::Bool(b) => JsonModel::Bool(b),
        YamlModel::Int(i) => JsonModel::Number(
            if i >= 0 {
                NumberModel::Unsigned(i as u64)
            } else {
                NumberModel::Negative(i)
            },
        ),
        YamlModel::Decimal(Some(t)) => JsonModel::Number(NumberModel::Decimal(t)),
        YamlModel::Decimal(None) => JsonModel::Null,
        YamlModel::Text(s) => JsonModel::Text(s),
        YamlModel::List(items) => JsonModel::Array(
            Seq::new(
                items.len(),
                |i: int|
                    if 0 <= i < items.len() {
                        json_of(items[i])
                    } else {
                        JsonModel::Null
                    },
            ),
        ),
        YamlModel::Mapping(entries) => JsonModel::Object(members_upto(v, entries.len())),
        YamlModel::Tagged(inner) => json_of(*inner),
    }
}

/// The members that the first `n` entries of a mapping become. A key that is
/// no string is trimmed.
pub open spec fn members_upto(v: YamlModel, n: nat) -> Seq<(Seq<char>, JsonModel)>
    decreases v, n,
{
    match v {
        YamlModel::Mapping(entries) => if n == 0 || n > entries.len() {
            Seq::empty()
        } else {
            let entry = entries[n - 1];
            put_of(
                members_upto(v, (n - 1) as nat),
                if entry.0 {
                    entry.1
                } else {
                    trim_of(entry.1)
                },
                json_of(entry.2),
            )
        },
        _ => Seq::empty(),
    }
}

/// The members of an object, as they are.
pub open spec fn member_models(members: Seq<(String, Json)>) -> Seq<(Seq<char>, JsonModel)> {
    Seq::new(members.len(), |i: int| (members[i].0@, members[i].1@))
}

pub proof fn lemma_slot(members: Seq<(Seq<char>, JsonModel)>, key: Seq<char>, i: int)
    requires
        0 <= i <= members.len(),
        i < members.len() ==> members[i].0 == key,
        forall|k: int| 0 <= k < i ==> (#[trigger] members[k]).0 != key,
    ensures
        slot_of(members, key) == i,
    decreases members.len(),
{
    if members.len() > 0 && members[0].0 != key {
        assert forall|k: int| 0 <= k < i - 1 implies (#[trigger] members.skip(1)[k]).0 != key by {
            assert(members.skip(1)[k] == members[k + 1]);
        }
        lemma_slot(members.skip(1), key, i - 1);
    } else if i > 0 {
        assert(members[0].0 != key);
    }
}

/// Adds a member, or gives a new value to the one of that name.
pub fn put(members: &mut Vec<(String, Json)>, key: String, value: Json)
    ensures
        member_models(final(members)@) == put_of(member_models(old(members)@), key@, value@),
{
    let ghost before = member_models(members@);
    let mut i: usize = 0;
    while i < members.len()
        invariant
            before == member_models(members@),
            before == member_models(old(members)@),
            i <= members.len(),
            forall|k: int| 0 <= k < i ==> (#[trigger] before[k]).0 != key@,
        decreases members.len() - i,
    {
        if crate::text::same_str(members[i].0.as_str(), key.as_str()) {
            proof {
                assert(before[i as int].0 == key@);
                lemma_slot(before, key@, i as int);
            }
            let ghost entry = (key@, value@);
            members.set(i, (key, value));
            assert(member_models(members@) =~= before.update(i as int, entry));
            return ;
        }
        assert(before[i as int].0 != key@);
        i += 1;
    }
    proof {
        lemma_slot(before, key@, i as int);
    }
    let ghost entry = (key@, value@);
    members.push((key, value));
    assert(member_models(members@) =~= before.push(entry));
}

/// The JSON value for a YAML value.
pub fn yaml_to_json(v: &serde_yaml_ng::Value) -> (out: Json)
    ensures
        out@ == json_of(yaml_model(*v)),
    decreases yaml_model(*v),
{
    let ghost whole = yaml_model(*v);
    match peel(v) {
        Node::Null => Json::Null,
        Node::Bool(b) => Json::Bool(b),
        Node::Number(n) => match as_int(&n) {
            Some(i) => if i >= 0 {
                Json::Number(Numeral::Unsigned(i as u64))
            } else {
                Json::Number(Numeral::Negative(i))
            },
            None => match as_decimal(&n) {
                Some(t) => Json::Number(Numeral::Decimal(t)),
                None => Json::Null,
            },
        },
        Node::Text(s) => Json::Text(s),
        Node::List(items) => {
            let mut out: Vec<Json> = Vec::new();
            let mut i: usize = 0;
            while i < items.len()
                invariant
                    whole == node_model(Node::List(items)),
                    whole == yaml_model(*v),
                    i <= items.len(),
                    out.len() == i,
                    forall|k: int|
                        0 <= k < i ==> model(#[trigger] out@[k]) == json_of(yaml_model(items@[k])),
                decreases items.len() - i,
            {
                assert(whole->List_0[i as int] == yaml_model(items@[i as int]));
                assert(decreases_to!(whole => whole->List_0));
                assert(decreases_to!(whole->List_0 => whole->List_0[i as int]));
                out.push(yaml_to_json(&items[i]));
                i += 1;
            }
            let result = Json::Array(out);
            assert(model(result)->Array_0 =~= json_of(whole)->Array_0);
            result
        },
        Node::Mapping(entries) => {
            let mut out: Vec<(String, Json)> = Vec::new();
            let mut i: usize = 0;
            assert(member_models(out@) =~= members_upto(whole, 0));
            while i < entries.len()
                invariant
                    whole == node_model(Node::Mapping(entries)),
                    whole == yaml_model(*v),
                    i <= entries.len(),
                    member_models(out@) == members_upto(whole, i as nat),
                decreases entries.len() - i,
            {
                let ghost entry = whole->Mapping_0[i as int];
                assert(entry == entry_model(entries@[i as int].0, entries@[i as int].1));
                assert(decreases_to!(whole => whole->Mapping_0));
                assert(decreases_to!(whole->Mapping_0 => whole->Mapping_0[i as int]));
                assert(decreases_to!(entry => entry.2));
                let key = match peel(&entries[i].0) {
                    Node::Text(s) => s,
                    _ => string_of(trim(&chars_of(written(&entries[i].0).as_str()))),
                };
                let value = yaml_to_json(&entries[i].1);
                put(&mut out, key, value);
                i += 1;
            }
            let result = Json::Object(out);
            assert(model(result)->Object_0 =~= member_models(out@));
            result
        },
        Node::Tagged(inner) => {
            assert(decreases_to!(whole => *whole->Tagged_0));
            yaml_to_json(&inner)
        },
    }
}

} // verus!
