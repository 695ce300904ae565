//! Tools, and the JSON schemas of their arguments.

use crate::json::{model, Json, JsonModel};
use crate::artifact::yaml::member_models;
use crate::text::views;
use vstd::prelude::*;

verus! {

/// What an argument may be.
#[derive(Debug)]
pub enum Kind {
    Text,
    Truth,
    Count,
    /// One of these words.
    Choice(Vec<String>),
    /// One text, or a list of texts.
    Tags,
    /// An object with whatever names.
    Values,
}

/// What a kind is.
pub enum KindModel {
    Text,
    Truth,
    Count,
    Choice(Seq<Seq<char>>),
    Tags,
    Values,
}

impl View for Kind {
    type V = KindModel;

    open spec fn view(&self) -> KindModel {
        match self {
            Kind::Text => KindModel::Text,
            Kind::Truth => KindModel::Truth,
            Kind::Count => KindModel::Count,
            Kind::Choice(words) => KindModel::Choice(views(words@)),
            Kind::Tags => KindModel::Tags,
            Kind::Values => KindModel::Values,
        }
    }
}

/// An argument.
#[derive(Debug)]
pub struct Prop {
    pub name: &'static str,
    pub kind: Kind,
    pub doc: &'static str,
}

/// What an argument is.
pub struct PropModel {
    pub name: Seq<char>,
    pub kind: KindModel,
    pub doc: Seq<char>,
}

impl View for Prop {
    type V = PropModel;

    open spec fn view(&self) -> PropModel {
        PropModel { name: self.name@, kind: self.kind@, doc: self.doc@ }
    }
}

pub open spec fn prop_models(props: Seq<Prop>) -> Seq<PropModel> {
    Seq::new(props.len(), |i: int| props[i]@)
}

/// A tool: a name and a schema over an operation.
#[derive(Debug)]
pub struct ToolDef {
    pub name: &'static str,
    /// The operation that this tool calls.
    pub op: &'static str,
    pub description: &'static str,
    pub read_only: bool,
    pub props: Vec<Prop>,
    pub required: Vec<String>,
}

/// What a tool is.
pub struct ToolModel {
    pub name: Seq<char>,
    pub op: Seq<char>,
    pub description: Seq<char>,
    pub read_only: bool,
    pub props: Seq<PropModel>,
    pub required: Seq<Seq<char>>,
}

impl View for ToolDef {
    type V = ToolModel;

    open spec fn view(&self) -> ToolModel {
        ToolModel {
            name: self.name@,
            op: self.op@,
            description: self.description@,
            read_only: self.read_only,
            props: prop_models(self.props@),
            required: views(self.required@),
        }
    }
}

pub open spec fn tool_models(tools: Seq<ToolDef>) -> Seq<ToolModel> {
    Seq::new(tools.len(), |i: int| tools[i]@)
}

/// Texts as a JSON array.
pub open spec fn text_array(parts: Seq<Seq<char>>) -> JsonModel {
    JsonModel::Array(Seq::new(parts.len(), |i: int| JsonModel::Text(parts[i])))
}

/// The schema of an argument.
pub open spec fn prop_schema(p: PropModel) -> JsonModel {
    let doc = ("description"@, JsonModel::Text(p.doc));
    match p.kind {
        KindModel::Text => JsonModel::Object(
            seq![doc, ("type"@, JsonModel::Text("string"@))],
        ),
        KindModel::Truth => JsonModel::Object(
            seq![doc, ("type"@, JsonModel::Text("boolean"@))],
        ),
        KindModel::Count => JsonModel::Object(
            seq![doc, ("type"@, JsonModel::Text("integer"@))],
        ),
        KindModel::Choice(words) => JsonModel::Object(
            seq![doc, ("enum"@, text_array(words)), ("type"@, JsonModel::Text("string"@))],
        ),
        KindModel::Tags => JsonModel::Object(
            seq![
                doc,
                (
                    "items"@,
                    JsonModel::Object(seq![("type"@, JsonModel::Text("string"@))]),
                ),
                ("type"@, text_array(seq!["string"@, "array"@])),
            ],
        ),
        KindModel::Values => JsonModel::Object(
            seq![
                ("additionalProperties"@, JsonModel::Bool(true)),
                doc,
                ("type"@, JsonModel::Text("object"@)),
            ],
        ),
    }
}

/// The schema of a tool's arguments: an object with the declared properties
/// and no others.
pub open spec fn schema_of(t: ToolModel) -> JsonModel {
    JsonModel::Object(
        seq![
            ("additionalProperties"@, JsonModel::Bool(false)),
            (
                "properties"@,
                JsonModel::Object(
                    Seq::new(
                        t.props.len(),
                        |i: int| (t.props[i].name, prop_schema(t.props[i])),
                    ),
                ),
            ),
            ("required"@, text_array(t.required)),
            ("type"@, JsonModel::Text("object"@)),
        ],
    )
}

fn text_of(s: &str) -> (out: Json)
    ensures
        out@ == JsonModel::Text(s@),
{
    Json::Text(s.to_owned())
}

fn array_of(parts: &[String]) -> (out: Json)
    ensures
        out@ == text_array(views(parts@)),
{
    let mut items: Vec<Json> = Vec::new();
    let mut i: usize = 0;
    while i < parts.len()
        invariant
            i <= parts@.len(),
            items@.len() == i,
            forall|k: int|
                0 <= k < i ==> model(#[trigger] items@[k]) == JsonModel::Text(parts@[k]@),
        decreases parts@.len() - i,
    {
        items.push(Json::Text(parts[i].clone()));
        i += 1;
    }
    let out = Json::Array(items);
    assert(model(out)->Array_0 =~= text_array(views(parts@))->Array_0);
    out
}

fn push(members: &mut Vec<(String, Json)>, key: &str, value: Json)
    ensures
        member_models(final(members)@) == member_models(old(members)@).push((key@, value@)),
{
    let ghost before = member_models(members@);
    members.push((key.to_owned(), value));
    assert(member_models(members@) =~= before.push((key@, value@)));
}

fn object_of(members: Vec<(String, Json)>) -> (out: Json)
    ensures
        out@ == JsonModel::Object(member_models(members@)),
{
    let ghost all = member_models(members@);
    let out = Json::Object(members);
    assert(model(out)->Object_0 =~= all);
    out
}

impl Prop {
    /// The schema of the argument.
    pub fn schema(&self) -> (out: Json)
        ensures
            out@ == prop_schema(self@),
    {
        let mut m: Vec<(String, Json)> = Vec::new();
        assert(member_models(m@) =~= Seq::empty());
        match &self.kind {
            Kind::Text => {
                push(&mut m, "description", text_of(self.doc));
                push(&mut m, "type", text_of("string"));
            },
            Kind::Truth => {
                push(&mut m, "description", text_of(self.doc));
                push(&mut m, "type", text_of("boolean"));
            },
            Kind::Count => {
                push(&mut m, "description", text_of(self.doc));
                push(&mut m, "type", text_of("integer"));
            },
            Kind::Choice(words) => {
                push(&mut m, "description", text_of(self.doc));
                push(&mut m, "enum", array_of(words));
                push(&mut m, "type", text_of("string"));
            },
            Kind::Tags => {
                push(&mut m, "description", text_of(self.doc));
                let mut inner: Vec<(String, Json)> = Vec::new();
                push(&mut inner, "type", text_of("string"));
                let ghost im = member_models(inner@);
                let items = object_of(inner);
                assert(im =~= seq![("type"@, JsonModel::Text("string"@))]);
                push(&mut m, "items", items);
                let mut kinds: Vec<String> = Vec::new();
                kinds.push("string".to_owned());
                kinds.push("array".to_owned());
                assert(views(kinds@) =~= seq!["string"@, "array"@]);
                push(&mut m, "type", array_of(&kinds));
            },
            Kind::Values => {
                push(&mut m, "additionalProperties", Json::Bool(true));
                push(&mut m, "description", text_of(self.doc));
                push(&mut m, "type", text_of("object"));
            },
        }
        assert(member_models(m@) =~= prop_schema(self@)->Object_0);
        object_of(m)
    }
}

impl ToolDef {
    /// The schema of the tool's arguments.
    pub fn schema(&self) -> (out: Json)
        ensures
            out@ == schema_of(self@),
    {
        let ghost want = schema_of(self@)->Object_0[1].1->Object_0;
        let mut props: Vec<(String, Json)> = Vec::new();
        let mut i: usize = 0;
        assert(member_models(props@) =~= want.take(0));
        while i < self.props.len()
            invariant
                i <= self.props@.len(),
                want == schema_of(self@)->Object_0[1].1->Object_0,
                member_models(props@) == want.take(i as int),
            decreases self.props@.len() - i,
        {
            let p = &self.props[i];
            push(&mut props, p.name, p.schema());
            assert(want.take(i + 1) =~= want.take(i as int).push(want[i as int]));
            i += 1;
        }
        assert(want.take(i as int) =~= want);
        let mut m: Vec<(String, Json)> = Vec::new();
        assert(member_models(m@) =~= Seq::empty());
        push(&mut m, "additionalProperties", Json::Bool(false));
        push(&mut m, "properties", object_of(props));
        push(&mut m, "required", array_of(&self.required));
        push(&mut m, "type", text_of("object"));
        assert(member_models(m@) =~= schema_of(self@)->Object_0);
        object_of(m)
    }
}

} // verus!
