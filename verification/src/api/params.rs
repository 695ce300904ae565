//! Parameter access: every operation reports a missing or mistyped argument
//! the same way.

use crate::error::{Error, ErrorModel, Result};
use crate::json::{get_of, model, number_text, Json, JsonModel, NumberModel, Numeral};
use crate::text::{
    chars_of, fitting, lower_of, lowercase, number_of, opt_view, parse_usize, push_text, same_str,
    split, split_on, string_of, trim, trim_of, views,
};
use vstd::prelude::*;

verus! {

/// Thin accessor over the JSON params.
pub struct Params<'a>(pub &'a Json);

/// A parameter as a short text: a text that is not empty, a number or a truth
/// value as it is written.
pub open spec fn str_param(v: JsonModel, key: Seq<char>) -> Option<Seq<char>> {
    match get_of(v, key) {
        Some(JsonModel::Text(s)) => if s.len() > 0 {
            Some(s)
        } else {
            None
        },
        Some(JsonModel::Number(n)) => Some(number_text(n)),
        Some(JsonModel::Bool(b)) => Some(
            if b {
                "true"@
            } else {
                "false"@
            },
        ),
        _ => None,
    }
}

/// A parameter as a text, where an empty text is a value rather than an
/// absence.
pub open spec fn text_param(v: JsonModel, key: Seq<char>) -> Option<Seq<char>> {
    match get_of(v, key) {
        Some(JsonModel::Text(s)) => Some(s),
        _ => str_param(v, key),
    }
}

/// What a caller is told who leaves a parameter out.
pub open spec fn missing(key: Seq<char>) -> ErrorModel {
    ErrorModel::Invalid("`"@ + key + "` is required"@)
}

/// A parameter as a truth value.
pub open spec fn bool_param(v: JsonModel, key: Seq<char>) -> Option<bool> {
    match get_of(v, key) {
        Some(JsonModel::Bool(b)) => Some(b),
        Some(JsonModel::Text(s)) => {
            let word = lower_of(s);
            if word == "true"@ || word == "yes"@ || word == "1"@ {
                Some(true)
            } else if word == "false"@ || word == "no"@ || word == "0"@ {
                Some(false)
            } else {
                None
            }
        },
        _ => None,
    }
}

/// A value as a count.
pub open spec fn count_in(v: JsonModel) -> Option<usize> {
    match v {
        JsonModel::Number(NumberModel::Unsigned(n)) => Some(n as usize),
        JsonModel::Text(s) => fitting(number_of(s)),
        _ => None,
    }
}

/// A parameter as a count.
pub open spec fn usize_param(v: JsonModel, key: Seq<char>) -> Option<usize> {
    match get_of(v, key) {
        Some(x) => count_in(x),
        None => None,
    }
}

/// The counts among some values.
pub open spec fn counts_in(items: Seq<JsonModel>) -> Seq<usize>
    decreases items.len(),
{
    if items.len() == 0 {
        Seq::empty()
    } else {
        match count_in(items.last()) {
            Some(n) => counts_in(items.drop_last()).push(n),
            None => counts_in(items.drop_last()),
        }
    }
}

/// A parameter as a list of counts. A single number is a list of one.
pub open spec fn usize_list_param(v: JsonModel, key: Seq<char>) -> Option<Seq<usize>> {
    match get_of(v, key) {
        Some(JsonModel::Array(items)) => Some(counts_in(items)),
        Some(JsonModel::Number(NumberModel::Unsigned(n))) => Some(seq![n as usize]),
        _ => None,
    }
}

/// The texts among some values that are not empty.
pub open spec fn texts_in(items: Seq<JsonModel>) -> Seq<Seq<char>>
    decreases items.len(),
{
    if items.len() == 0 {
        Seq::empty()
    } else {
        match items.last() {
            JsonModel::Text(s) => if s.len() > 0 {
                texts_in(items.drop_last()).push(s)
            } else {
                texts_in(items.drop_last())
            },
            _ => texts_in(items.drop_last()),
        }
    }
}

/// The parts of a list in one text that are not blank, trimmed.
pub open spec fn parts_in(pieces: Seq<Seq<char>>) -> Seq<Seq<char>>
    decreases pieces.len(),
{
    if pieces.len() == 0 {
        Seq::empty()
    } else if trim_of(pieces.last()).len() > 0 {
        parts_in(pieces.drop_last()).push(trim_of(pieces.last()))
    } else {
        parts_in(pieces.drop_last())
    }
}

/// A parameter as a list of texts: an array, or one text with commas.
pub open spec fn str_list_param(v: JsonModel, key: Seq<char>) -> Option<Seq<Seq<char>>> {
    match get_of(v, key) {
        Some(JsonModel::Array(items)) => Some(texts_in(items)),
        Some(JsonModel::Text(s)) => if s.len() > 0 {
            Some(parts_in(split_on(s, ',')))
        } else {
            None
        },
        _ => None,
    }
}

/// Texts that may be missing, as models.
pub open spec fn opt_texts(v: Option<Vec<String>>) -> Option<Seq<Seq<char>>> {
    match v {
        Some(parts) => Some(views(parts@)),
        None => None,
    }
}

/// Counts that may be missing, as models.
pub open spec fn opt_counts(v: Option<Vec<usize>>) -> Option<Seq<usize>> {
    match v {
        Some(n) => Some(n@),
        None => None,
    }
}

fn as_count(v: &Json) -> (out: Option<usize>)
    ensures
        out == count_in(v@),
{
    match v {
        Json::Number(Numeral::Unsigned(n)) => Some(*n as usize),
        Json::Text(s) => parse_usize(&chars_of(s.as_str())),
        _ => None,
    }
}

/// Insists on a value, naming the parameter that it belongs to.
pub fn required(value: Option<String>, key: &str) -> (out: Result<String>)
    ensures
        match out {
            Ok(s) => opt_view(value) == Some(s@),
            Err(e) => value is None && e@ == missing(key@),
        },
{
    match value {
        Some(s) => Ok(s),
        None => {
            let mut m = "`".to_owned();
            m.append(key);
            m.append("` is required");
            Err(Error::Invalid(m))
        },
    }
}

/// What a caller is told who leaves a count out.
pub open spec fn missing_count(key: Seq<char>) -> ErrorModel {
    ErrorModel::Invalid("`"@ + key + "` is required and must be a number"@)
}

/// Insists on a count, naming the parameter that it belongs to.
pub fn required_count(value: Option<usize>, key: &str) -> (out: Result<usize>)
    ensures
        match out {
            Ok(n) => value == Some(n),
            Err(e) => value is None && e@ == missing_count(key@),
        },
{
    match value {
        Some(n) => Ok(n),
        None => {
            let mut m = "`".to_owned();
            m.append(key);
            m.append("` is required and must be a number");
            Err(Error::Invalid(m))
        },
    }
}

impl<'a> Params<'a> {
    /// A parameter as a short text.
    pub fn opt_str(&self, key: &str) -> (out: Option<String>)
        ensures
            opt_view(out) == str_param(self.0@, key@),
    {
        match self.0.get(key) {
            Some(Json::Text(s)) => {
                if chars_of(s.as_str()).len() > 0 {
                    Some(s.clone())
                } else {
                    None
                }
            },
            Some(Json::Number(n)) => Some(n.to_text()),
            Some(Json::Bool(b)) => {
                if *b {
                    Some("true".to_owned())
                } else {
                    Some("false".to_owned())
                }
            },
            _ => None,
        }
    }

    /// A parameter as a short text, which has to be there.
    pub fn req_str(&self, key: &str) -> (out: Result<String>)
        ensures
            match out {
                Ok(s) => str_param(self.0@, key@) == Some(s@),
                Err(e) => str_param(self.0@, key@) is None && e@ == missing(key@),
            },
    {
        required(self.opt_str(key), key)
    }

    /// Like `opt_str`, but an empty string is a value rather than an absence.
    /// Emptying a document is a legitimate edit, and `opt_str` would silently
    /// turn it into "you passed no content".
    pub fn opt_text(&self, key: &str) -> (out: Option<String>)
        ensures
            opt_view(out) == text_param(self.0@, key@),
    {
        match self.0.get(key) {
            Some(Json::Text(s)) => Some(s.clone()),
            _ => self.opt_str(key),
        }
    }

    /// A parameter as a text, which has to be there.
    pub fn req_text(&self, key: &str) -> (out: Result<String>)
        ensures
            match out {
                Ok(s) => text_param(self.0@, key@) == Some(s@),
                Err(e) => text_param(self.0@, key@) is None && e@ == missing(key@),
            },
    {
        required(self.opt_text(key), key)
    }

    /// A parameter as a truth value.
    pub fn opt_bool(&self, key: &str) -> (out: Option<bool>)
        ensures
            out == bool_param(self.0@, key@),
    {
        match self.0.get(key) {
            Some(Json::Bool(b)) => Some(*b),
            Some(Json::Text(s)) => {
                let word = lowercase(s.as_str());
                let w = word.as_str();
                if same_str(w, "true") || same_str(w, "yes") || same_str(w, "1") {
                    Some(true)
                } else if same_str(w, "false") || same_str(w, "no") || same_str(w, "0") {
                    Some(false)
                } else {
                    None
                }
            },
            _ => None,
        }
    }

    /// A parameter as a count.
    pub fn opt_usize(&self, key: &str) -> (out: Option<usize>)
        ensures
            out == usize_param(self.0@, key@),
    {
        match self.0.get(key) {
            Some(v) => as_count(v),
            None => None,
        }
    }

    /// A parameter as a count, which has to be there.
    pub fn req_usize(&self, key: &str) -> (out: Result<usize>)
        ensures
            match out {
                Ok(n) => usize_param(self.0@, key@) == Some(n),
                Err(e) => usize_param(self.0@, key@) is None && e@ == missing_count(key@),
            },
    {
        required_count(self.opt_usize(key), key)
    }

    /// A parameter as a list of counts.
    pub fn opt_usize_list(&self, key: &str) -> (out: Option<Vec<usize>>)
        ensures
            opt_counts(out) == usize_list_param(self.0@, key@),
    {
        match self.0.get(key) {
            Some(Json::Array(items)) => {
                let ghost all = model(Json::Array(*items))->Array_0;
                let mut out: Vec<usize> = Vec::new();
                let mut i: usize = 0;
                assert(out@ =~= counts_in(all.take(0)));
                while i < items.len()
                    invariant
                        i <= items@.len(),
                        all == model(Json::Array(*items))->Array_0,
                        out@ == counts_in(all.take(i as int)),
                    decreases items@.len() - i,
                {
                    assert(all.take(i + 1).drop_last() =~= all.take(i as int));
                    assert(all.take(i + 1).last() == model(items@[i as int]));
                    if let Some(n) = as_count(&items[i]) {
                        out.push(n);
                    }
                    i += 1;
                }
                assert(all.take(i as int) =~= all);
                Some(out)
            },
            Some(Json::Number(Numeral::Unsigned(n))) => {
                let mut out: Vec<usize> = Vec::new();
                out.push(*n as usize);
                assert(out@ =~= seq![*n as usize]);
                Some(out)
            },
            _ => None,
        }
    }

    /// A parameter as a list of texts.
    pub fn opt_str_list(&self, key: &str) -> (out: Option<Vec<String>>)
        ensures
            opt_texts(out) == str_list_param(self.0@, key@),
    {
        match self.0.get(key) {
            Some(Json::Array(items)) => {
                let ghost all = model(Json::Array(*items))->Array_0;
                let mut out: Vec<String> = Vec::new();
                let mut i: usize = 0;
                assert(views(out@) =~= texts_in(all.take(0)));
                while i < items.len()
                    invariant
                        i <= items@.len(),
                        all == model(Json::Array(*items))->Array_0,
                        views(out@) == texts_in(all.take(i as int)),
                    decreases items@.len() - i,
                {
                    assert(all.take(i + 1).drop_last() =~= all.take(i as int));
                    assert(all.take(i + 1).last() == model(items@[i as int]));
                    if let Json::Text(s) = &items[i] {
                        if chars_of(s.as_str()).len() > 0 {
                            push_text(&mut out, s.clone());
                        }
                    }
                    i += 1;
                }
                assert(all.take(i as int) =~= all);
                Some(out)
            },
            Some(Json::Text(s)) => {
                let chars = chars_of(s.as_str());
                if chars.len() == 0 {
                    return None;
                }
                let pieces = split(&chars, ',');
                let ghost all = views(pieces@);
                let mut out: Vec<String> = Vec::new();
                let mut i: usize = 0;
                assert(views(out@) =~= parts_in(all.take(0)));
                while i < pieces.len()
                    invariant
                        i <= pieces@.len(),
                        all == views(pieces@),
                        views(out@) == parts_in(all.take(i as int)),
                    decreases pieces@.len() - i,
                {
                    assert(all.take(i + 1).drop_last() =~= all.take(i as int));
                    assert(all.take(i + 1).last() == pieces@[i as int]@);
                    let piece = chars_of(pieces[i].as_str());
                    let trimmed = trim(&piece);
                    if trimmed.len() > 0 {
                        push_text(&mut out, string_of(trimmed));
                    }
                    i += 1;
                }
                assert(all.take(i as int) =~= all);
                Some(out)
            },
            _ => None,
        }
    }
}

} // verus!
