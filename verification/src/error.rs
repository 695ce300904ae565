//! One error type for the whole core.
//!
//! Every shell turns these into wire errors, so each variant carries a stable
//! machine-readable `code` alongside its human message. `Stale` additionally
//! carries a payload: a stale `task_set_status` fails *with the current list
//! attached*, so the agent can re-read without a second round trip.

use crate::json::{copy_json, model, Json, JsonModel};
use vstd::prelude::*;

verus! {

/// What can go wrong. `Io`, `Db` and `Json` hold the text of the failure that
/// the file system, the store or the decoder reported.
#[derive(Debug)]
pub enum Error {
    Io(String),
    Db(String),
    Json(String),
    NotFound(String),
    /// Path sandboxing: what resolves outside every registered root.
    OutsideRoot(String),
    PolicyDenied { path: String, policy: String },
    Conflict(String),
    Invalid(String),
    TooLarge(String),
    QueueFull(String),
    RateLimited(String),
    /// The caller acted on a snapshot that is no longer current. `data` holds
    /// whatever the caller needs to retry (for task ids: the current list).
    Stale { message: String, data: Box<Json> },
    UnknownOp(String),
    Other(String),
}

pub type Result<T> = std::result::Result<T, Error>;

/// What an error is, apart from how it is held.
pub enum ErrorModel {
    Io(Seq<char>),
    Db(Seq<char>),
    Json(Seq<char>),
    NotFound(Seq<char>),
    OutsideRoot(Seq<char>),
    PolicyDenied(Seq<char>, Seq<char>),
    Conflict(Seq<char>),
    Invalid(Seq<char>),
    TooLarge(Seq<char>),
    QueueFull(Seq<char>),
    RateLimited(Seq<char>),
    Stale(Seq<char>, JsonModel),
    UnknownOp(Seq<char>),
    Other(Seq<char>),
}

impl View for Error {
    type V = ErrorModel;

    open spec fn view(&self) -> ErrorModel {
        match self {
            Error::Io(m) => ErrorModel::Io(m@),
            Error::Db(m) => ErrorModel::Db(m@),
            Error::Json(m) => ErrorModel::Json(m@),
            Error::NotFound(m) => ErrorModel::NotFound(m@),
            Error::OutsideRoot(m) => ErrorModel::OutsideRoot(m@),
            Error::PolicyDenied { path, policy } => ErrorModel::PolicyDenied(path@, policy@),
            Error::Conflict(m) => ErrorModel::Conflict(m@),
            Error::Invalid(m) => ErrorModel::Invalid(m@),
            Error::TooLarge(m) => ErrorModel::TooLarge(m@),
            Error::QueueFull(m) => ErrorModel::QueueFull(m@),
            Error::RateLimited(m) => ErrorModel::RateLimited(m@),
            Error::Stale { message, data } => ErrorModel::Stale(message@, model(**data)),
            Error::UnknownOp(m) => ErrorModel::UnknownOp(m@),
            Error::Other(m) => ErrorModel::Other(m@),
        }
    }
}

/// The stable identifier of an error.
pub open spec fn code_of(e: ErrorModel) -> Seq<char> {
    match e {
        ErrorModel::Io(_) => "io"@,
        ErrorModel::Db(_) => "store"@,
        ErrorModel::Json(_) => "json"@,
        ErrorModel::NotFound(_) => "not_found"@,
        ErrorModel::OutsideRoot(_) => "outside_root"@,
        ErrorModel::PolicyDenied(_, _) => "policy_denied"@,
        ErrorModel::Conflict(_) => "conflict"@,
        ErrorModel::Invalid(_) => "invalid"@,
        ErrorModel::TooLarge(_) => "too_large"@,
        ErrorModel::QueueFull(_) => "queue_full"@,
        ErrorModel::RateLimited(_) => "rate_limited"@,
        ErrorModel::Stale(_, _) => "stale"@,
        ErrorModel::UnknownOp(_) => "unknown_op"@,
        ErrorModel::Other(_) => "error"@,
    }
}

/// The sentence that a reader sees.
pub open spec fn message_of(e: ErrorModel) -> Seq<char> {
    match e {
        ErrorModel::Io(m) => m,
        ErrorModel::Db(m) => "store: "@ + m,
        ErrorModel::Json(m) => "json: "@ + m,
        ErrorModel::NotFound(m) => "not found: "@ + m,
        ErrorModel::OutsideRoot(m) => "path is outside every registered root: "@ + m,
        ErrorModel::PolicyDenied(path, policy) => "write policy for "@ + path + " is `"@ + policy
            + "`; this write must go through a proposal"@,
        ErrorModel::Conflict(m) => "conflict: "@ + m,
        ErrorModel::Invalid(m) => "invalid: "@ + m,
        ErrorModel::TooLarge(m) => "too large: "@ + m,
        ErrorModel::QueueFull(m) => "queue full: "@ + m,
        ErrorModel::RateLimited(m) => "rate limited: "@ + m,
        ErrorModel::Stale(m, _) => m,
        ErrorModel::UnknownOp(m) => "unknown operation: "@ + m,
        ErrorModel::Other(m) => m,
    }
}

/// What goes over the wire for an error.
pub open spec fn wire_of(e: ErrorModel) -> JsonModel {
    match e {
        ErrorModel::Stale(_, data) => JsonModel::Object(
            seq![
                ("code"@, JsonModel::Text(code_of(e))),
                ("data"@, data),
                ("message"@, JsonModel::Text(message_of(e))),
            ],
        ),
        _ => JsonModel::Object(
            seq![
                ("code"@, JsonModel::Text(code_of(e))),
                ("message"@, JsonModel::Text(message_of(e))),
            ],
        ),
    }
}

fn prefixed(prefix: &str, m: &str) -> (out: String)
    ensures
        out@ == prefix@ + m@,
{
    let mut out = prefix.to_owned();
    out.append(m);
    out
}

impl Error {
    pub fn other(msg: &str) -> (out: Error)
        ensures
            out@ == ErrorModel::Other(msg@),
    {
        Error::Other(msg.to_owned())
    }

    pub fn invalid(msg: &str) -> (out: Error)
        ensures
            out@ == ErrorModel::Invalid(msg@),
    {
        Error::Invalid(msg.to_owned())
    }

    pub fn not_found(msg: &str) -> (out: Error)
        ensures
            out@ == ErrorModel::NotFound(msg@),
    {
        Error::NotFound(msg.to_owned())
    }

    pub fn stale(msg: &str, data: Json) -> (out: Error)
        ensures
            out@ == ErrorModel::Stale(msg@, data@),
    {
        Error::Stale { message: msg.to_owned(), data: Box::new(data) }
    }

    /// Stable identifier for the wire. Clients branch on this, never on prose.
    pub fn code(&self) -> (out: &'static str)
        ensures
            out@ == code_of(self@),
    {
        match self {
            Error::Io(_) => "io",
            Error::Db(_) => "store",
            Error::Json(_) => "json",
            Error::NotFound(_) => "not_found",
            Error::OutsideRoot(_) => "outside_root",
            Error::PolicyDenied { .. } => "policy_denied",
            Error::Conflict(_) => "conflict",
            Error::Invalid(_) => "invalid",
            Error::TooLarge(_) => "too_large",
            Error::QueueFull(_) => "queue_full",
            Error::RateLimited(_) => "rate_limited",
            Error::Stale { .. } => "stale",
            Error::UnknownOp(_) => "unknown_op",
            Error::Other(_) => "error",
        }
    }

    /// The sentence for a reader.
    pub fn message(&self) -> (out: String)
        ensures
            out@ == message_of(self@),
    {
        match self {
            Error::Io(m) => m.clone(),
            Error::Db(m) => prefixed("store: ", m),
            Error::Json(m) => prefixed("json: ", m),
            Error::NotFound(m) => prefixed("not found: ", m),
            Error::OutsideRoot(m) => prefixed("path is outside every registered root: ", m),
            Error::PolicyDenied { path, policy } => {
                let mut out = prefixed("write policy for ", path);
                out.append(" is `");
                out.append(policy.as_str());
                out.append("`; this write must go through a proposal");
                out
            },
            Error::Conflict(m) => prefixed("conflict: ", m),
            Error::Invalid(m) => prefixed("invalid: ", m),
            Error::TooLarge(m) => prefixed("too large: ", m),
            Error::QueueFull(m) => prefixed("queue full: ", m),
            Error::RateLimited(m) => prefixed("rate limited: ", m),
            Error::Stale { message, .. } => message.clone(),
            Error::UnknownOp(m) => prefixed("unknown operation: ", m),
            Error::Other(m) => m.clone(),
        }
    }

    /// Structured detail a client can act on without re-parsing the message.
    pub fn data(&self) -> (out: Option<&Json>)
        ensures
            match out {
                Some(v) => self@ matches ErrorModel::Stale(_, d) && v@ == d,
                None => !(self@ is Stale),
            },
    {
        match self {
            Error::Stale { data, .. } => Some(&**data),
            _ => None,
        }
    }

    /// The error as it goes over the wire.
    pub fn to_wire(&self) -> (out: Json)
        ensures
            out@ == wire_of(self@),
    {
        let mut members: Vec<(String, Json)> = Vec::new();
        members.push(("code".to_owned(), Json::Text(self.code().to_owned())));
        if let Some(data) = self.data() {
            members.push(("data".to_owned(), copy_json(data)));
        }
        members.push(("message".to_owned(), Json::Text(self.message())));
        let out = Json::Object(members);
        reveal_with_fuel(model, 2);
        assert(model(out)->Object_0 =~= wire_of(self@)->Object_0);
        out
    }
}

} // verus!
