//! Path patterns, as `globset` reads them.

use crate::error::{Error, ErrorModel, Result};
use vstd::prelude::*;

verus! {

/// What is wrong with a path pattern, if anything is.
pub uninterp spec fn glob_problem_of(pattern: Seq<char>) -> Option<Seq<char>>;

/// Does a path match a pattern? Nothing for a pattern that is no glob, or that
/// is too large to be compiled.
pub uninterp spec fn glob_match_of(pattern: Seq<char>, path: Seq<char>) -> Option<bool>;

/// `globset::Glob::new`: the text of the error it gives for a pattern, which
/// depends on the pattern alone.
#[verifier::external_body]
fn glob_error(pattern: &str) -> (out: Option<String>)
    ensures
        match out {
            Some(m) => glob_problem_of(pattern@) == Some(m@),
            None => glob_problem_of(pattern@) is None,
        },
{
    globset::Glob::new(pattern).err().map(|e| e.to_string())
}

/// `globset::GlobSet::is_match` of the set that holds just this pattern: the
/// answer depends on the pattern and the path alone. Unlike a single pattern's
/// matcher, a set reports a pattern that it cannot compile.
#[verifier::external_body]
fn glob_answer(pattern: &str, path: &str) -> (out: Option<bool>)
    ensures
        out == glob_match_of(pattern@, path@),
{
    let glob = globset::Glob::new(pattern).ok()?;
    let set = globset::GlobSetBuilder::new().add(glob).build().ok()?;
    Some(set.is_match(path))
}

/// Does a document match a pattern, by its path below its root or by its key?
pub open spec fn glob_hits(pattern: Seq<char>, relative: Seq<char>, key: Seq<char>) -> bool {
    glob_match_of(pattern, relative) == Some(true) || glob_match_of(pattern, key) == Some(true)
}

/// Does a document match a pattern, by its path below its root or by its key?
pub fn matches_either(pattern: &str, relative: &str, key: &str) -> (out: bool)
    ensures
        out == glob_hits(pattern@, relative@, key@),
{
    hit(glob_answer(pattern, relative)) || hit(glob_answer(pattern, key))
}

fn hit(answer: Option<bool>) -> (out: bool)
    ensures
        out == (answer == Some(true)),
{
    match answer {
        Some(b) => b,
        None => false,
    }
}

/// What a caller is told of a pattern that is no glob.
pub open spec fn bad_glob(pattern: Seq<char>, problem: Seq<char>) -> ErrorModel {
    ErrorModel::Invalid("bad glob `"@ + pattern + "`: "@ + problem)
}

/// Refuses a pattern with the given problem, and lets one without pass.
pub fn refuse_glob(pattern: &str, problem: Option<&str>) -> (out: Result<()>)
    ensures
        match out {
            Ok(_) => problem is None,
            Err(e) => problem matches Some(p) && e@ == bad_glob(pattern@, p@),
        },
{
    match problem {
        None => Ok(()),
        Some(p) => {
            let mut m = "bad glob `".to_owned();
            m.append(pattern);
            m.append("`: ");
            m.append(p);
            Err(Error::Invalid(m))
        },
    }
}

/// Refuses a pattern that is no glob, so that it fails at the point of entry
/// rather than silently never matching.
pub fn check_glob(pattern: &str) -> (out: Result<()>)
    ensures
        match out {
            Ok(_) => glob_problem_of(pattern@) is None,
            Err(e) => glob_problem_of(pattern@) matches Some(p) && e@ == bad_glob(pattern@, p),
        },
{
    match glob_error(pattern) {
        Some(p) => refuse_glob(pattern, Some(p.as_str())),
        None => refuse_glob(pattern, None),
    }
}

} // verus!
