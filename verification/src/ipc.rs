//! The local socket that joins the app and the bridge.
//!
//! When the GUI is running it is the single watcher and the live review
//! surface, so the bridge forwards tool calls to it rather than opening a
//! second core over the same store. Write policy is enforced in the core, so
//! nothing that reaches the socket can bypass it.

use crate::api::request::Caller;
use crate::error::{code_of, message_of, wire_of, Error, ErrorModel, Result};
use crate::json::{copy_json, get_of, json_text, member_of, model, to_text, Json, JsonModel};
use crate::text::{
    chars_of, ends_with, find_from, find_of, lemma_find, occurs_at, opt_view, part, same_str,
    starts_with, string_of,
};
use vstd::prelude::*;

verus! {

/// Where a running app announces itself.
#[derive(Debug)]
pub struct Endpoint {
    pub port: u16,
    pub token: String,
    pub pid: u32,
    pub version: String,
    /// Which store the running app has open. A bridge told nothing follows
    /// this; a bridge told a specific store checks it against this and refuses
    /// to bridge across a mismatch rather than silently writing somewhere else.
    pub store: String,
}

/// Why a bridge does not join an app: it was told a store, and the app is on a
/// different one.
pub open spec fn mismatch(
    requested: Option<Seq<char>>,
    app_store: Seq<char>,
    same: bool,
) -> Option<Seq<char>> {
    match requested {
        Some(r) => if same {
            None
        } else {
            Some(
                "a Folio app is running but on a different store ("@ + app_store
                    + "); FOLIO_STORE asks for "@ + r,
            )
        },
        None => None,
    }
}

/// Why a bridge does not join an app. `same` says whether the two stores are
/// the same directory.
pub fn store_mismatch(requested: Option<&str>, app_store: &str, same: bool) -> (out: Option<
    String,
>)
    ensures
        opt_view(out) == mismatch(crate::text::opt_str_view(requested), app_store@, same),
{
    match requested {
        Some(r) => {
            if same {
                None
            } else {
                let mut m = "a Folio app is running but on a different store (".to_owned();
                m.append(app_store);
                m.append("); FOLIO_STORE asks for ");
                m.append(r);
                Some(m)
            }
        },
        None => None,
    }
}

/// Does a request carry the right token?
pub fn authorised(given: &str, token: &str) -> (out: bool)
    ensures
        out == (given@ == token@),
{
    same_str(given, token)
}

/// Who a request comes from that names nobody.
pub fn unnamed_caller() -> (out: Caller)
    ensures
        out.author@ == "external"@,
        out.client@ == "folio-bridge"@,
        !out.is_human,
{
    Caller::agent("external", "folio-bridge")
}

// ---------------------------------------------------------------------------
// Replies
// ---------------------------------------------------------------------------

/// A reply that something failed.
pub open spec fn failure(error: JsonModel) -> JsonModel {
    JsonModel::Object(seq![("error"@, error), ("ok"@, JsonModel::Bool(false))])
}

/// A reply with a result.
pub open spec fn success(result: JsonModel) -> JsonModel {
    JsonModel::Object(seq![("ok"@, JsonModel::Bool(true)), ("result"@, result)])
}

/// An error that comes from the socket itself.
pub open spec fn plain_error(code: Seq<char>, message: Seq<char>) -> JsonModel {
    JsonModel::Object(
        seq![("code"@, JsonModel::Text(code)), ("message"@, JsonModel::Text(message))],
    )
}

fn pair(a: &str, x: Json, b: &str, y: Json) -> (out: Json)
    ensures
        out@ == JsonModel::Object(seq![(a@, x@), (b@, y@)]),
{
    let mut m: Vec<(String, Json)> = Vec::new();
    m.push((a.to_owned(), x));
    m.push((b.to_owned(), y));
    let out = Json::Object(m);
    assert(model(out)->Object_0 =~= seq![(a@, x@), (b@, y@)]);
    out
}

/// The reply to a request that could not be read.
pub fn unreadable_reply(message: &str) -> (out: Json)
    ensures
        out@ == failure(plain_error("invalid"@, message@)),
{
    let error = pair(
        "code",
        Json::Text("invalid".to_owned()),
        "message",
        Json::Text(message.to_owned()),
    );
    pair("error", error, "ok", Json::Bool(false))
}

/// The reply to a request with a wrong token.
pub fn unauthorised_reply() -> (out: Json)
    ensures
        out@ == failure(plain_error("unauthorized"@, "bad token"@)),
{
    let error = pair(
        "code",
        Json::Text("unauthorized".to_owned()),
        "message",
        Json::Text("bad token".to_owned()),
    );
    pair("error", error, "ok", Json::Bool(false))
}

/// What a reply says of an outcome.
pub open spec fn reply_of(outcome: std::result::Result<JsonModel, ErrorModel>) -> JsonModel {
    match outcome {
        Ok(value) => success(value),
        Err(e) => failure(wire_of(e)),
    }
}

/// An executable value against a stated one.
pub open spec fn outcome_view(out: Result<Json>) -> std::result::Result<JsonModel, ErrorModel> {
    match out {
        Ok(v) => Ok(v@),
        Err(e) => Err(e@),
    }
}

/// The reply to a request that was carried out.
pub fn reply(outcome: Result<Json>) -> (out: Json)
    ensures
        out@ == reply_of(outcome_view(outcome)),
{
    match outcome {
        Ok(value) => pair("ok", Json::Bool(true), "result", value),
        Err(e) => pair("error", e.to_wire(), "ok", Json::Bool(false)),
    }
}

// ---------------------------------------------------------------------------
// Reading replies
// ---------------------------------------------------------------------------

/// Does a reply say that all went well?
pub open spec fn says_ok(reply: JsonModel) -> bool {
    get_of(reply, "ok"@) == Some(JsonModel::Bool(true))
}

/// The text of a member.
pub open spec fn text_member(v: JsonModel, key: Seq<char>) -> Option<Seq<char>> {
    match get_of(v, key) {
        Some(JsonModel::Text(s)) => Some(s),
        _ => None,
    }
}

/// A member, or nothing.
pub open spec fn member_or_null(v: JsonModel, key: Seq<char>) -> JsonModel {
    match get_of(v, key) {
        Some(x) => x,
        None => JsonModel::Null,
    }
}

/// A text without the words in front of it, where they are there.
pub open spec fn without(text: Seq<char>, lead: Seq<char>) -> Seq<char> {
    if lead.is_prefix_of(text) {
        text.skip(lead.len() as int)
    } else {
        text
    }
}

/// The path and the policy that a refusal speaks of, in a sentence that has
/// been stripped of its first and its last words.
pub open spec fn denied_parts(named: Seq<char>) -> Option<(Seq<char>, Seq<char>)> {
    match find_of(named, " is `"@, 0) {
        Some(at) => Some((named.take(at), named.skip(at + " is `"@.len()))),
        None => None,
    }
}

/// The refusal that a sentence tells of.
pub open spec fn denied_in(message: Seq<char>) -> ErrorModel {
    let lead = "write policy for "@;
    let tail = "`; this write must go through a proposal"@;
    let parts = if lead.is_prefix_of(message) && tail.is_suffix_of(message) && message.len()
        >= lead.len() + tail.len() {
        denied_parts(message.subrange(lead.len() as int, message.len() - tail.len()))
    } else {
        None
    };
    match parts {
        Some((path, policy)) => ErrorModel::PolicyDenied(path, policy),
        None => ErrorModel::PolicyDenied(message, "propose"@),
    }
}

/// The error of a kind, rebuilt so that an agent sees the same code and the
/// same sentence that it would get from an embedded core.
pub open spec fn rebuilt(
    code: Option<Seq<char>>,
    message: Seq<char>,
    data: JsonModel,
) -> ErrorModel {
    match code {
        None => ErrorModel::Other(message),
        Some(c) => if c == "io"@ {
            ErrorModel::Io(message)
        } else if c == "store"@ {
            ErrorModel::Db(without(message, "store: "@))
        } else if c == "json"@ {
            ErrorModel::Json(without(message, "json: "@))
        } else if c == "not_found"@ {
            ErrorModel::NotFound(without(message, "not found: "@))
        } else if c == "outside_root"@ {
            ErrorModel::OutsideRoot(without(message, "path is outside every registered root: "@))
        } else if c == "conflict"@ {
            ErrorModel::Conflict(without(message, "conflict: "@))
        } else if c == "invalid"@ {
            ErrorModel::Invalid(without(message, "invalid: "@))
        } else if c == "too_large"@ {
            ErrorModel::TooLarge(without(message, "too large: "@))
        } else if c == "queue_full"@ {
            ErrorModel::QueueFull(without(message, "queue full: "@))
        } else if c == "rate_limited"@ {
            ErrorModel::RateLimited(without(message, "rate limited: "@))
        } else if c == "unknown_op"@ {
            ErrorModel::UnknownOp(without(message, "unknown operation: "@))
        } else if c == "policy_denied"@ {
            denied_in(message)
        } else if c == "stale"@ {
            ErrorModel::Stale(message, data)
        } else {
            ErrorModel::Other(message)
        },
    }
}

/// The outcome that a reply reports.
pub open spec fn reported(reply: JsonModel) -> std::result::Result<JsonModel, ErrorModel> {
    if says_ok(reply) {
        Ok(member_or_null(reply, "result"@))
    } else {
        let error = member_or_null(reply, "error"@);
        let message = match text_member(error, "message"@) {
            Some(m) => m,
            None => "the Folio app rejected the call"@,
        };
        Err(rebuilt(text_member(error, "code"@), message, member_or_null(error, "data"@)))
    }
}

fn is_ok(reply: &Json) -> (out: bool)
    ensures
        out == says_ok(reply@),
{
    match reply.get("ok") {
        Some(Json::Bool(b)) => *b,
        _ => false,
    }
}

fn member(v: &Json, key: &str) -> (out: Json)
    ensures
        out@ == member_or_null(v@, key@),
{
    match v.get(key) {
        Some(x) => copy_json(x),
        None => Json::Null,
    }
}

fn text_of(v: &Json, key: &str) -> (out: Option<String>)
    ensures
        opt_view(out) == text_member(v@, key@),
{
    match v.get(key) {
        Some(Json::Text(s)) => Some(s.clone()),
        _ => None,
    }
}

fn stripped(text: &str, lead: &str) -> (out: String)
    ensures
        out@ == without(text@, lead@),
{
    let chars = chars_of(text);
    if starts_with(&chars, lead) {
        let rest = part(&chars, chars_of(lead).len(), chars.len());
        assert(rest@ =~= text@.skip(lead@.len() as int));
        string_of(rest)
    } else {
        text.to_owned()
    }
}

fn denied(message: String) -> (out: Error)
    ensures
        out@ == denied_in(message@),
{
    let chars = chars_of(message.as_str());
    let lead = "write policy for ";
    let tail = "`; this write must go through a proposal";
    let front: usize = chars_of(lead).len();
    let back: usize = chars_of(tail).len();
    if starts_with(&chars, lead) && ends_with(&chars, tail) && chars.len() - front >= back {
        let named = part(&chars, front, chars.len() - back);
        let mid = chars_of(" is `");
        if let Some(at) = find_from(named, &mid, 0) {
            let path = part(named, 0, at);
            let policy = part(named, at + mid.len(), named.len());
            assert(path@ =~= named@.take(at as int));
            assert(policy@ =~= named@.skip(at + mid@.len()));
            return Error::PolicyDenied { path: string_of(path), policy: string_of(policy) };
        }
    }
    Error::PolicyDenied { path: message, policy: "propose".to_owned() }
}

fn rebuild(code: Option<String>, message: String, data: Json) -> (out: Error)
    ensures
        out@ == rebuilt(opt_view(code), message@, data@),
{
    let c = match code {
        Some(c) => c,
        None => {
            return Error::Other(message);
        },
    };
    let c = c.as_str();
    if same_str(c, "io") {
        Error::Io(message)
    } else if same_str(c, "store") {
        Error::Db(stripped(&message, "store: "))
    } else if same_str(c, "json") {
        Error::Json(stripped(&message, "json: "))
    } else if same_str(c, "not_found") {
        Error::NotFound(stripped(&message, "not found: "))
    } else if same_str(c, "outside_root") {
        Error::OutsideRoot(stripped(&message, "path is outside every registered root: "))
    } else if same_str(c, "conflict") {
        Error::Conflict(stripped(&message, "conflict: "))
    } else if same_str(c, "invalid") {
        Error::Invalid(stripped(&message, "invalid: "))
    } else if same_str(c, "too_large") {
        Error::TooLarge(stripped(&message, "too large: "))
    } else if same_str(c, "queue_full") {
        Error::QueueFull(stripped(&message, "queue full: "))
    } else if same_str(c, "rate_limited") {
        Error::RateLimited(stripped(&message, "rate limited: "))
    } else if same_str(c, "unknown_op") {
        Error::UnknownOp(stripped(&message, "unknown operation: "))
    } else if same_str(c, "policy_denied") {
        denied(message)
    } else if same_str(c, "stale") {
        Error::Stale { message: message, data: Box::new(data) }
    } else {
        Error::Other(message)
    }
}

/// The outcome that a reply reports.
pub fn read_reply(reply: &Json) -> (out: Result<Json>)
    ensures
        outcome_view(out) == reported(reply@),
{
    if is_ok(reply) {
        return Ok(member(reply, "result"));
    }
    let error = member(reply, "error");
    let message = match text_of(&error, "message") {
        Some(m) => m,
        None => "the Folio app rejected the call".to_owned(),
    };
    Err(rebuild(text_of(&error, "code"), message, member(&error, "data")))
}

/// Is it really an app that answered? Else what is said of the answer.
pub fn check_handshake(reply: &Json) -> (out: std::result::Result<(), String>)
    ensures
        match out {
            Ok(_) => says_ok(reply@),
            Err(m) => !says_ok(reply@) && m@ == "unexpected reply from the app: "@ + json_text(
                reply@,
            ),
        },
{
    if is_ok(reply) {
        Ok(())
    } else {
        let mut m = "unexpected reply from the app: ".to_owned();
        m.append(to_text(reply).as_str());
        Err(m)
    }
}

// ---------------------------------------------------------------------------
// Laws
// ---------------------------------------------------------------------------

proof fn lemma_without(lead: Seq<char>, text: Seq<char>)
    ensures
        without(lead + text, lead) == text,
{
    assert((lead + text).subrange(0, lead.len() as int) =~= lead);
    assert((lead + text).skip(lead.len() as int) =~= text);
}

/// A refusal is read from its own sentence, whatever its path and its policy
/// hold.
proof fn lemma_denied(path: Seq<char>, policy: Seq<char>)
    ensures
        message_of(denied_in(message_of(ErrorModel::PolicyDenied(path, policy)))) == message_of(
            ErrorModel::PolicyDenied(path, policy),
        ),
        denied_in(message_of(ErrorModel::PolicyDenied(path, policy))) is PolicyDenied,
{
    let lead = "write policy for "@;
    let mid = " is `"@;
    let tail = "`; this write must go through a proposal"@;
    let message = message_of(ErrorModel::PolicyDenied(path, policy));
    let named = path + mid + policy;
    assert(message =~= lead + named + tail);
    assert(message.subrange(0, lead.len() as int) =~= lead);
    assert(message.subrange(message.len() - tail.len(), message.len() as int) =~= tail);
    assert(message.subrange(lead.len() as int, message.len() - tail.len()) =~= named);
    assert(named.subrange(path.len() as int, (path.len() + mid.len()) as int) =~= mid);
    assert(occurs_at(named, mid, path.len() as int));
    lemma_find(named, mid, 0);
    let at = find_of(named, mid, 0)->0;
    assert(named =~= named.take(at) + mid + named.skip(at + mid.len())) by {
        assert(named.subrange(at, at + mid.len()) == mid);
    }
    assert(lead + named.take(at) + mid + named.skip(at + mid.len()) + tail =~= message);
}

/// A rebuilt error has the code and the sentence that it was rebuilt from.
proof fn lemma_rebuilt(e: ErrorModel, data: JsonModel)
    ensures
        ({
            let got = rebuilt(Some(code_of(e)), message_of(e), data);
            &&& code_of(got) == code_of(e)
            &&& message_of(got) == message_of(e)
            &&& e is Stale ==> got == ErrorModel::Stale(message_of(e), data)
            &&& !(e is PolicyDenied) && !(e is Stale) ==> got == e
            &&& got is Stale <==> e is Stale
        }),
{
    reveal_strlit("io");
    reveal_strlit("store");
    reveal_strlit("json");
    reveal_strlit("not_found");
    reveal_strlit("outside_root");
    reveal_strlit("conflict");
    reveal_strlit("invalid");
    reveal_strlit("too_large");
    reveal_strlit("queue_full");
    reveal_strlit("rate_limited");
    reveal_strlit("unknown_op");
    reveal_strlit("policy_denied");
    reveal_strlit("stale");
    reveal_strlit("error");
    assert("io"@.len() == 2);
    assert("store"@.len() == 5);
    assert("json"@.len() == 4);
    assert("not_found"@.len() == 9);
    assert("outside_root"@.len() == 12);
    assert("conflict"@.len() == 8);
    assert("invalid"@.len() == 7);
    assert("too_large"@.len() == 9);
    assert("queue_full"@.len() == 10);
    assert("rate_limited"@.len() == 12);
    assert("unknown_op"@.len() == 10);
    assert("policy_denied"@.len() == 13);
    assert("stale"@.len() == 5);
    assert("error"@.len() == 5);
    assert("store"@[2] != "stale"@[2]);
    assert("store"@[0] != "error"@[0]);
    assert("not_found"@[0] != "too_large"@[0]);
    assert("outside_root"@[0] != "rate_limited"@[0]);
    assert("queue_full"@[0] != "unknown_op"@[0]);
    assert("stale"@[0] != "error"@[0]);
    match e {
        ErrorModel::Db(m) => lemma_without("store: "@, m),
        ErrorModel::Json(m) => lemma_without("json: "@, m),
        ErrorModel::NotFound(m) => lemma_without("not found: "@, m),
        ErrorModel::OutsideRoot(m) => lemma_without("path is outside every registered root: "@, m),
        ErrorModel::Conflict(m) => lemma_without("conflict: "@, m),
        ErrorModel::Invalid(m) => lemma_without("invalid: "@, m),
        ErrorModel::TooLarge(m) => lemma_without("too large: "@, m),
        ErrorModel::QueueFull(m) => lemma_without("queue full: "@, m),
        ErrorModel::RateLimited(m) => lemma_without("rate limited: "@, m),
        ErrorModel::UnknownOp(m) => lemma_without("unknown operation: "@, m),
        ErrorModel::PolicyDenied(path, policy) => lemma_denied(path, policy),
        _ => {},
    }
}

/// The members of an object by their names.
proof fn lemma_members(members: Seq<(Seq<char>, JsonModel)>)
    requires
        2 <= members.len() <= 3,
        members[0].0 != members[1].0,
        members.len() == 3 ==> members[0].0 != members[2].0 && members[1].0 != members[2].0,
    ensures
        member_of(members, members[0].0) == Some(members[0].1),
        member_of(members, members[1].0) == Some(members[1].1),
        members.len() == 3 ==> member_of(members, members[2].0) == Some(members[2].1),
{
    let rest = members.skip(1);
    assert(rest[0] == members[1]);
    assert(member_of(members, members[1].0) == member_of(rest, members[1].0));
    if members.len() == 3 {
        assert(rest.skip(1)[0] == members[2]);
        assert(member_of(members, members[2].0) == member_of(rest, members[2].0));
        assert(member_of(rest, members[2].0) == member_of(rest.skip(1), members[2].0));
    }
}

/// Bridged or embedded makes no difference to an agent: a result arrives as it
/// was sent, and an error says over the wire what it said before: its code, its
/// sentence and, where it is a stale write, its data.
pub proof fn law_bridge_is_transparent(outcome: std::result::Result<JsonModel, ErrorModel>)
    ensures
        match outcome {
            Ok(_) => reported(reply_of(outcome)) == outcome,
            Err(e) => reported(reply_of(outcome)) matches Err(got) && wire_of(got) == wire_of(e),
        },
{
    reveal_strlit("ok");
    reveal_strlit("result");
    reveal_strlit("error");
    reveal_strlit("code");
    reveal_strlit("data");
    reveal_strlit("message");
    assert("ok"@.len() == 2 && "result"@.len() == 6 && "error"@.len() == 5);
    assert("code"@.len() == 4 && "data"@.len() == 4 && "message"@.len() == 7);
    assert("code"@[0] != "data"@[0]);
    let reply = reply_of(outcome);
    lemma_members(reply->Object_0);
    match outcome {
        Ok(v) => {
            assert(reply->Object_0[0].0 == "ok"@);
            assert(reply->Object_0[1].0 == "result"@);
        },
        Err(e) => {
            assert(reply->Object_0[0].0 == "error"@);
            assert(reply->Object_0[1].0 == "ok"@);
            let wire = wire_of(e);
            lemma_members(wire->Object_0);
            assert(wire->Object_0[0].0 == "code"@);
            if e is Stale {
                assert(wire->Object_0[1].0 == "data"@);
                assert(wire->Object_0[2].0 == "message"@);
            } else {
                assert(wire->Object_0[1].0 == "message"@);
            }
            assert(text_member(wire, "code"@) == Some(code_of(e)));
            assert(text_member(wire, "message"@) == Some(message_of(e)));
            lemma_rebuilt(e, member_or_null(wire, "data"@));
        },
    }
}

} // verus!
