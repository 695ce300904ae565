//! Corpus search with ripgrep semantics.
//!
//! The corpus is files on disk and search is solved technology, so this is a
//! thin rendering of the parts that matter (regex or literal matching, a glob
//! filter, line numbers and snippets) rather than an index that can go stale.

use crate::corpus::glob::{bad_glob, check_glob, glob_hits, glob_problem_of, matches_either};
use crate::corpus::sandbox::{relative_of, relative_to};
use crate::corpus::typing::{detect_type, type_of};
use crate::corpus::ArtifactType;
use crate::diff::hunks::least;
use crate::error::{Error, ErrorModel, Result};
use crate::text::{
    byte_len, bytes_in, chars_of, find_from, find_of, is_space, lemma_encode_concat, lemma_find,
    lemma_trim_end_last, lines, lower_of, lowercase, occurs, occurs_at, part, string_of, text_from,
    text_in, text_lines, trim, trim_end, trim_end_of, trim_of, views,
};
use crate::util::{display_of, display_path, Host, HostModel};
use crate::version::history::at_most;
use vstd::prelude::*;
use vstd::utf8::encode_utf8;

verus! {

/// A line that matches.
#[derive(Debug)]
pub struct Match {
    pub path: String,
    pub display: String,
    pub artifact_type: ArtifactType,
    /// 1-based.
    pub line: usize,
    /// The matching line, trimmed of trailing whitespace.
    pub text: String,
    /// Byte range of the match inside `text`.
    pub start: usize,
    pub end: usize,
}

/// What a match is.
#[verifier::ext_equal]
pub struct MatchModel {
    pub path: Seq<char>,
    pub display: Seq<char>,
    pub artifact_type: ArtifactType,
    pub line: nat,
    pub text: Seq<char>,
    pub start: nat,
    pub end: nat,
}

impl View for Match {
    type V = MatchModel;

    open spec fn view(&self) -> MatchModel {
        MatchModel {
            path: self.path@,
            display: self.display@,
            artifact_type: self.artifact_type,
            line: self.line as nat,
            text: self.text@,
            start: self.start as nat,
            end: self.end as nat,
        }
    }
}

pub open spec fn match_models(m: Seq<Match>) -> Seq<MatchModel> {
    Seq::new(m.len(), |i: int| m[i]@)
}

/// What to search for.
#[derive(Debug)]
pub struct Query {
    pub pattern: String,
    pub regex: bool,
    pub glob: Option<String>,
    pub case_sensitive: bool,
    pub max_results: usize,
    pub max_file_bytes: u64,
}

impl Default for Query {
    fn default() -> (out: Self)
        ensures
            out.pattern@.len() == 0,
            !out.regex,
            out.glob is None,
            !out.case_sensitive,
            out.max_results == 500,
            out.max_file_bytes == 4_194_304,
    {
        Query {
            pattern: String::new(),
            regex: false,
            glob: None,
            case_sensitive: false,
            max_results: 500,
            max_file_bytes: 4 * 1024 * 1024,
        }
    }
}

// ---------------------------------------------------------------------------
// Matching
// ---------------------------------------------------------------------------

/// A compiled regular expression of the `regex` crate.
#[verifier::external_type_specification]
#[verifier::external_body]
pub struct ExRegex(regex::Regex);

/// The regular expression that a pattern compiles to, or what is wrong with it.
pub uninterp spec fn regex_of(
    pattern: Seq<char>,
    any_case: bool,
) -> std::result::Result<regex::Regex, Seq<char>>;

/// The byte range of the first match of a regular expression in a text.
pub uninterp spec fn regex_find_of(re: regex::Regex, line: Seq<char>) -> Option<(usize, usize)>;

/// `regex::RegexBuilder`: `new` with the pattern, `case_insensitive`, `build`.
/// What it gives, and the text of the error, depend on the arguments alone.
#[verifier::external_body]
fn compile(pattern: &str, any_case: bool) -> (out: std::result::Result<regex::Regex, String>)
    ensures
        match out {
            Ok(re) => regex_of(pattern@, any_case) == Ok::<regex::Regex, Seq<char>>(re),
            Err(m) => regex_of(pattern@, any_case) == Err::<regex::Regex, Seq<char>>(m@),
        },
{
    regex::RegexBuilder::new(pattern).case_insensitive(any_case).build().map_err(|e| e.to_string())
}

/// `regex::Regex::find`: the byte range of the first match, which lies within
/// the text and depends on the expression and the text alone.
#[verifier::external_body]
fn first_match(re: &regex::Regex, line: &str) -> (out: Option<(usize, usize)>)
    ensures
        out == regex_find_of(*re, line@),
        out matches Some((start, end)) ==> start <= end <= byte_len(line@),
{
    re.find(line).map(|m| (m.start(), m.end()))
}

/// What a query looks for in a line.
pub enum Matcher {
    Regex(regex::Regex),
    Literal { needle: String, case_sensitive: bool },
}

/// The byte range of a needle's first occurrence in a line. Without regard to
/// case it is looked for in the line's lower-case form, and its range is kept
/// within the line.
pub open spec fn literal_find(
    line: Seq<char>,
    needle: Seq<char>,
    case_sensitive: bool,
) -> Option<(nat, nat)> {
    let hay = if case_sensitive {
        line
    } else {
        lower_of(line)
    };
    match find_of(hay, needle, 0) {
        Some(i) => {
            let at = byte_len(hay.take(i));
            Some(
                (
                    least(at as int, byte_len(line) as int) as nat,
                    least((at + byte_len(needle)) as int, byte_len(line) as int) as nat,
                ),
            )
        },
        None => None,
    }
}

/// Where a matcher finds something in a line.
pub open spec fn found_in(m: Matcher, line: Seq<char>) -> Option<(nat, nat)> {
    match m {
        Matcher::Regex(re) => match regex_find_of(re, line) {
            Some((start, end)) => Some((start as nat, end as nat)),
            None => None,
        },
        Matcher::Literal { needle, case_sensitive } => literal_find(
            line,
            needle@,
            case_sensitive,
        ),
    }
}

/// Is this the matcher that a query asks for?
pub open spec fn is_matcher(m: Matcher, query: Query) -> bool {
    if query.regex {
        m matches Matcher::Regex(re) && regex_of(query.pattern@, !query.case_sensitive) == Ok::<
            regex::Regex,
            Seq<char>,
        >(re)
    } else {
        m matches Matcher::Literal { needle, case_sensitive } && case_sensitive
            == query.case_sensitive && needle@ == (if query.case_sensitive {
            query.pattern@
        } else {
            lower_of(query.pattern@)
        })
    }
}

/// What a caller is told of a pattern that is no regular expression.
pub open spec fn bad_regex(problem: Seq<char>) -> ErrorModel {
    ErrorModel::Invalid("bad regex: "@ + problem)
}

impl Matcher {
    /// The matcher that a query asks for.
    pub fn build(query: &Query) -> (out: Result<Matcher>)
        ensures
            match out {
                Ok(m) => is_matcher(m, *query),
                Err(e) => query.regex && (regex_of(query.pattern@, !query.case_sensitive) matches Err(
                    problem,
                ) && e@ == bad_regex(problem)),
            },
    {
        if query.regex {
            match compile(query.pattern.as_str(), !query.case_sensitive) {
                Ok(re) => Ok(Matcher::Regex(re)),
                Err(problem) => {
                    let mut m = "bad regex: ".to_owned();
                    m.append(problem.as_str());
                    Err(Error::Invalid(m))
                },
            }
        } else {
            Ok(
                Matcher::Literal {
                    needle: if query.case_sensitive {
                        query.pattern.clone()
                    } else {
                        lowercase(query.pattern.as_str())
                    },
                    case_sensitive: query.case_sensitive,
                },
            )
        }
    }

    /// Where something is found in a line.
    pub fn find(&self, line: &str) -> (out: Option<(usize, usize)>)
        ensures
            match out {
                Some((start, end)) => found_in(*self, line@) == Some((start as nat, end as nat))
                    && start <= end <= byte_len(line@),
                None => found_in(*self, line@) is None,
            },
    {
        match self {
            Matcher::Regex(re) => first_match(re, line),
            Matcher::Literal { needle, case_sensitive } => {
                if *case_sensitive {
                    find_literal(line, line, needle.as_str())
                } else {
                    let lowered = lowercase(line);
                    find_literal(line, lowered.as_str(), needle.as_str())
                }
            },
        }
    }
}

fn smaller(a: usize, b: usize) -> (out: usize)
    ensures
        out == least(a as int, b as int),
{
    if a <= b {
        a
    } else {
        b
    }
}

fn find_literal(line: &str, hay: &str, needle: &str) -> (out: Option<(usize, usize)>)
    ensures
        (match out {
            Some((start, end)) => Some((start as nat, end as nat)),
            None => None,
        }) == (match find_of(hay@, needle@, 0) {
            Some(i) => {
                let at = byte_len(hay@.take(i));
                Some(
                    (
                        least(at as int, byte_len(line@) as int) as nat,
                        least((at + byte_len(needle@)) as int, byte_len(line@) as int) as nat,
                    ),
                )
            },
            None => None,
        }),
        out matches Some((start, end)) ==> start <= end <= byte_len(line@),
{
    let h = chars_of(hay);
    let n = chars_of(needle);
    match find_from(&h, &n, 0) {
        None => None,
        Some(i) => {
            let front = string_of(part(&h, 0, i));
            assert(h@.subrange(0, i as int) =~= hay@.take(i as int));
            let len: usize = bytes_in(line);
            let at: usize = bytes_in(front.as_str());
            let width: usize = bytes_in(needle);
            let end: usize = if at >= len || width >= len - at {
                len
            } else {
                at + width
            };
            Some((smaller(at, len), end))
        },
    }
}

// ---------------------------------------------------------------------------
// Searching
// ---------------------------------------------------------------------------

/// A file of the corpus.
#[derive(Debug)]
pub struct SearchFile {
    /// Key of the root that it belongs to.
    pub root: String,
    /// Canonical key.
    pub path: String,
    pub bytes: Vec<u8>,
    /// Names of the directories beside it.
    pub dirs: Vec<String>,
}

/// A match as it is reported, given where something was found in a line. The
/// range is kept within the text that is reported.
pub open spec fn reported(
    found: Option<(nat, nat)>,
    line: Seq<char>,
    number: nat,
    path: Seq<char>,
    host: HostModel,
    ty: ArtifactType,
) -> Option<MatchModel> {
    match found {
        Some((start, end)) => {
            let text = trim_end_of(line);
            Some(
                MatchModel {
                    path: path,
                    display: display_of(path, host),
                    artifact_type: ty,
                    line: number,
                    text: text,
                    start: least(start as int, byte_len(text) as int) as nat,
                    end: least(end as int, byte_len(text) as int) as nat,
                },
            )
        },
        None => None,
    }
}

/// Does a match say where it is? It has a line number, its text has no white
/// space at the end, and its byte range lies in the text.
pub open spec fn in_its_line(m: MatchModel) -> bool {
    &&& m.line > 0
    &&& m.start <= m.end <= byte_len(m.text)
    &&& m.text.len() > 0 ==> !is_space(m.text.last())
}

/// Reports a match, given where something was found in a line.
pub fn report(
    found: Option<(usize, usize)>,
    line: &str,
    number: usize,
    path: &str,
    host: &Host,
    ty: ArtifactType,
) -> (out: Option<Match>)
    ensures
        (match out {
            Some(m) => Some(m@),
            None => None,
        }) == reported(
            match found {
                Some((start, end)) => Some((start as nat, end as nat)),
                None => None,
            },
            line@,
            number as nat,
            path@,
            host@,
            ty,
        ),
        (found matches Some((start, end)) ==> start <= end) && number > 0 ==> (out matches Some(m)
            ==> in_its_line(m@)),
{
    match found {
        None => None,
        Some((start, end)) => {
            let text = string_of(trim_end(&chars_of(line)));
            proof {
                lemma_trim_end_last(line@);
            }
            let len: usize = bytes_in(text.as_str());
            Some(
                Match {
                    path: path.to_owned(),
                    display: display_path(path, host),
                    artifact_type: ty,
                    line: number,
                    text: text,
                    start: smaller(start, len),
                    end: smaller(end, len),
                },
            )
        },
    }
}

/// A list of at most one.
pub open spec fn one_or_none(m: Option<MatchModel>) -> Seq<MatchModel> {
    match m {
        Some(x) => seq![x],
        None => Seq::empty(),
    }
}

/// The matches in a document's lines, from a line on.
pub open spec fn line_hits(
    m: Matcher,
    rows: Seq<Seq<char>>,
    from: int,
    path: Seq<char>,
    host: HostModel,
    ty: ArtifactType,
) -> Seq<MatchModel>
    decreases rows.len() - from,
{
    if from >= rows.len() {
        Seq::empty()
    } else {
        one_or_none(
            reported(found_in(m, rows[from]), rows[from], (from + 1) as nat, path, host, ty),
        ) + line_hits(m, rows, from + 1, path, host, ty)
    }
}

/// Does a content look binary?
pub open spec fn looks_binary(bytes: Seq<u8>) -> bool {
    exists|i: int| 0 <= i < bytes.len() && i < 8192 && #[trigger] bytes[i] == 0
}

/// Is a file looked into?
pub open spec fn looked_into(f: SearchFile, query: Query, any_case: bool) -> bool {
    &&& query.glob matches Some(g) ==> glob_hits(
        g@,
        relative_of(f.root@, f.path@, any_case),
        f.path@,
    )
    &&& f.bytes@.len() <= query.max_file_bytes
    &&& !looks_binary(f.bytes@)
}

/// The matches in one file.
pub open spec fn file_hits(
    m: Matcher,
    f: SearchFile,
    query: Query,
    host: HostModel,
) -> Seq<MatchModel> {
    if looked_into(f, query, host.drives) {
        let text = text_in(f.bytes@);
        line_hits(
            m,
            text_lines(text),
            0,
            f.path@,
            host,
            type_of(f.path@, text, views(f.dirs@)),
        )
    } else {
        Seq::empty()
    }
}

/// The matches in the files from one on.
pub open spec fn all_hits(
    m: Matcher,
    files: Seq<SearchFile>,
    from: int,
    query: Query,
    host: HostModel,
) -> Seq<MatchModel>
    decreases files.len() - from,
{
    if from >= files.len() {
        Seq::empty()
    } else {
        file_hits(m, files[from], query, host) + all_hits(m, files, from + 1, query, host)
    }
}

fn is_binary(bytes: &[u8]) -> (out: bool)
    ensures
        out == looks_binary(bytes@),
{
    let mut i: usize = 0;
    while i < bytes.len() && i < 8192
        invariant
            i <= bytes@.len(),
            i <= 8192,
            forall|k: int| 0 <= k < i ==> #[trigger] bytes@[k] != 0,
        decreases bytes@.len() - i,
    {
        if bytes[i] == 0 {
            return true;
        }
        i += 1;
    }
    false
}

fn wants(f: &SearchFile, query: &Query, any_case: bool) -> (out: bool)
    ensures
        out == looked_into(*f, *query, any_case),
{
    if let Some(g) = &query.glob {
        let relative = relative_to(f.root.as_str(), f.path.as_str(), any_case);
        if !matches_either(g.as_str(), relative.as_str(), f.path.as_str()) {
            return false;
        }
    }
    f.bytes.len() as u64 <= query.max_file_bytes && !is_binary(&f.bytes)
}

/// Looks for what a matcher finds in the files of the corpus, in their order,
/// and stops at the query's limit.
pub fn search_with(m: &Matcher, files: &[SearchFile], query: &Query, host: &Host) -> (out:
    Vec<Match>)
    ensures
        match_models(out@) == at_most(
            all_hits(*m, files@, 0, *query, host@),
            query.max_results as nat,
        ),
        forall|k: int| 0 <= k < out@.len() ==> in_its_line((#[trigger] out@[k])@),
{
    let mut out: Vec<Match> = Vec::new();
    let ghost h = host@;
    let ghost total = all_hits(*m, files@, 0, *query, h);
    let max: usize = query.max_results;
    if max == 0 {
        assert(match_models(out@) =~= at_most(total, 0));
        return out;
    }
    let mut j: usize = 0;
    assert(match_models(out@) + total =~= total);
    while j < files.len()
        invariant
            j <= files@.len(),
            h == host@,
            max == query.max_results,
            total == all_hits(*m, files@, 0, *query, h),
            match_models(out@) + all_hits(*m, files@, j as int, *query, h) == total,
            out@.len() < max,
            forall|k: int| 0 <= k < out@.len() ==> in_its_line((#[trigger] out@[k])@),
        decreases files@.len() - j,
    {
        let f = &files[j];
        let ghost later = all_hits(*m, files@, j + 1, *query, h);
        let ghost before = match_models(out@);
        assert(all_hits(*m, files@, j as int, *query, h) == file_hits(*m, *f, *query, h) + later);
        if wants(f, query, host.drives) {
            let text = text_from(&f.bytes);
            let ty = detect_type(f.path.as_str(), text.as_str(), &f.dirs);
            let rows = lines(&chars_of(text.as_str()));
            let ghost all = views(rows@);
            let mut i: usize = 0;
            assert(before + line_hits(*m, all, 0, f.path@, h, ty) + later =~= total);
            while i < rows.len()
                invariant
                    i <= rows@.len(),
                    h == host@,
                    max == query.max_results,
                    all == views(rows@),
                    total == all_hits(*m, files@, 0, *query, h),
                    match_models(out@) + line_hits(*m, all, i as int, f.path@, h, ty) + later
                        == total,
                    out@.len() < max,
                    forall|k: int| 0 <= k < out@.len() ==> in_its_line((#[trigger] out@[k])@),
                decreases rows@.len() - i,
            {
                let line = rows[i].as_str();
                let found = m.find(line);
                let hit = report(found, line, i + 1, f.path.as_str(), host, ty);
                let ghost was = match_models(out@);
                let ghost rest = line_hits(*m, all, i + 1, f.path@, h, ty);
                let ghost here = one_or_none(
                    reported(
                        found_in(*m, all[i as int]),
                        all[i as int],
                        (i + 1) as nat,
                        f.path@,
                        h,
                        ty,
                    ),
                );
                assert(line_hits(*m, all, i as int, f.path@, h, ty) == here + rest);
                if let Some(x) = hit {
                    out.push(x);
                    assert(match_models(out@) =~= was.push(x@));
                    assert(match_models(out@) =~= was + here);
                } else {
                    assert(match_models(out@) =~= was + here);
                }
                assert(was + (here + rest) + later =~= was + here + rest + later);
                if out.len() >= max {
                    assert(total =~= match_models(out@) + (rest + later));
                    assert(total.take(max as int) =~= match_models(out@));
                    return out;
                }
                i += 1;
            }
            assert(match_models(out@) + Seq::<MatchModel>::empty() + later =~= match_models(out@)
                + later);
        } else {
            assert(before + (Seq::<MatchModel>::empty() + later) =~= before + later);
        }
        j += 1;
    }
    assert(match_models(out@) + Seq::<MatchModel>::empty() =~= match_models(out@));
    out
}

/// What a query is turned down for, if anything.
pub open spec fn query_refusal(query: Query) -> Option<ErrorModel> {
    if trim_of(query.pattern@).len() == 0 {
        Some(ErrorModel::Invalid("search needs a pattern"@))
    } else if query.regex && regex_of(query.pattern@, !query.case_sensitive) is Err {
        Some(bad_regex(regex_of(query.pattern@, !query.case_sensitive)->Err_0))
    } else if query.glob matches Some(g) && glob_problem_of(g@) is Some {
        Some(bad_glob(query.glob->Some_0@, glob_problem_of(query.glob->Some_0@)->Some_0))
    } else {
        None
    }
}

/// Are these the matches of a query?
pub open spec fn searched(
    files: Seq<SearchFile>,
    query: Query,
    host: HostModel,
    out: Result<Vec<Match>>,
) -> bool {
    match out {
        Ok(hits) => {
            &&& query_refusal(query) is None
            &&& exists|m: Matcher|
                is_matcher(m, query) && match_models(hits@) == at_most(
                    #[trigger] all_hits(m, files, 0, query, host),
                    query.max_results as nat,
                )
            &&& forall|k: int| 0 <= k < hits@.len() ==> in_its_line((#[trigger] hits@[k])@)
        },
        Err(e) => query_refusal(query) == Some(e@),
    }
}

/// Searches the files of the corpus.
pub fn search(files: &[SearchFile], query: &Query, host: &Host) -> (out: Result<Vec<Match>>)
    ensures
        searched(
            files@,
            *query,
            host@,
            out,
        ),
{
    if trim(&chars_of(query.pattern.as_str())).len() == 0 {
        return Err(Error::invalid("search needs a pattern"));
    }
    let m = match Matcher::build(query) {
        Ok(m) => m,
        Err(e) => {
            return Err(e);
        },
    };
    if let Some(g) = &query.glob {
        if let Err(e) = check_glob(g.as_str()) {
            return Err(e);
        }
    }
    Ok(search_with(&m, files, query, host))
}

// ---------------------------------------------------------------------------
// What a search promises
// ---------------------------------------------------------------------------

/// Does a line hold what a query asks for? Without a regular expression that is
/// the pattern itself; without regard to case, the lower-case forms are
/// compared.
pub open spec fn line_matches(query: Query, line: Seq<char>) -> bool {
    if query.regex {
        regex_of(query.pattern@, !query.case_sensitive) matches Ok(re) && regex_find_of(
            re,
            line,
        ) is Some
    } else if query.case_sensitive {
        occurs(line, query.pattern@)
    } else {
        occurs(lower_of(line), lower_of(query.pattern@))
    }
}

/// Is a file searched? It has to match the glob, by its path in its root or by
/// its whole path, must not be too large, and must have no zero among its first
/// bytes.
pub open spec fn is_searched(f: SearchFile, query: Query, any_case: bool) -> bool {
    &&& match query.glob {
        Some(g) => glob_hits(g@, relative_of(f.root@, f.path@, any_case), f.path@),
        None => true,
    }
    &&& f.bytes@.len() <= query.max_file_bytes
    &&& forall|i: int| 0 <= i < f.bytes@.len() && i < 8192 ==> #[trigger] f.bytes@[i] != 0
}

/// Does line `i` of file `j`, both from 0, belong among the matches?
pub open spec fn belongs(
    files: Seq<SearchFile>,
    query: Query,
    any_case: bool,
    j: int,
    i: int,
) -> bool {
    &&& 0 <= j < files.len()
    &&& is_searched(files[j], query, any_case)
    &&& 0 <= i < text_lines(text_in(files[j].bytes@)).len()
    &&& line_matches(query, text_lines(text_in(files[j].bytes@))[i])
}

/// Does a match name line `i` of file `j`, and show it?
pub open spec fn names_line(
    m: MatchModel,
    files: Seq<SearchFile>,
    host: HostModel,
    j: int,
    i: int,
) -> bool {
    &&& m.path == files[j].path@
    &&& m.display == display_of(files[j].path@, host)
    &&& m.artifact_type == type_of(files[j].path@, text_in(files[j].bytes@), views(files[j].dirs@))
    &&& m.line == i + 1
    &&& m.text == trim_end_of(text_lines(text_in(files[j].bytes@))[i])
}

/// Does a match mark what a matcher finds in a line, as far as it is shown?
spec fn marks(h: MatchModel, m: Matcher, line: Seq<char>) -> bool {
    let (start, end) = found_in(m, line)->0;
    let shown = byte_len(trim_end_of(line)) as int;
    h.start == least(start as int, shown) && h.end == least(end as int, shown)
}

/// Does one line come before another: in an earlier file, or earlier in the
/// same one?
pub open spec fn line_before(a: (int, int), b: (int, int)) -> bool {
    a.0 < b.0 || (a.0 == b.0 && a.1 < b.1)
}

/// A matcher finds something in the lines that hold what its query asks for.
proof fn lemma_matcher(m: Matcher, query: Query, line: Seq<char>)
    requires
        is_matcher(m, query),
    ensures
        found_in(m, line) is Some <==> line_matches(query, line),
{
    if !query.regex {
        let hay = if query.case_sensitive {
            line
        } else {
            lower_of(line)
        };
        let needle = m->needle@;
        lemma_find(hay, needle, 0);
        if let Some(at) = find_of(hay, needle, 0) {
            assert(occurs_at(hay, needle, at));
        }
    }
}

proof fn lemma_line_hits(
    m: Matcher,
    rows: Seq<Seq<char>>,
    from: int,
    path: Seq<char>,
    host: HostModel,
    ty: ArtifactType,
) -> (at: Seq<int>)
    requires
        0 <= from <= rows.len(),
    ensures
        at.len() == line_hits(m, rows, from, path, host, ty).len(),
        forall|k: int|
            0 <= k < at.len() ==> from <= #[trigger] at[k] < rows.len() && found_in(
                m,
                rows[at[k]],
            ) is Some && ({
                let h = line_hits(m, rows, from, path, host, ty)[k];
                h.path == path && h.display == display_of(path, host) && h.artifact_type == ty
                    && h.line == at[k] + 1 && h.text == trim_end_of(rows[at[k]]) && marks(
                    h,
                    m,
                    rows[at[k]],
                )
            }),
        forall|k: int, l: int| 0 <= k < l < at.len() ==> #[trigger] at[k] < #[trigger] at[l],
        forall|i: int|
            from <= i < rows.len() && found_in(m, #[trigger] rows[i]) is Some ==> at.contains(i),
    decreases rows.len() - from,
{
    if from >= rows.len() {
        Seq::empty()
    } else {
        let rest = lemma_line_hits(m, rows, from + 1, path, host, ty);
        let here = one_or_none(
            reported(found_in(m, rows[from]), rows[from], (from + 1) as nat, path, host, ty),
        );
        let behind = line_hits(m, rows, from + 1, path, host, ty);
        let hits = line_hits(m, rows, from, path, host, ty);
        assert(hits == here + behind);
        if found_in(m, rows[from]) is Some {
            let at = seq![from] + rest;
            assert forall|k: int| 0 <= k < at.len() implies from <= #[trigger] at[k] < rows.len()
                && found_in(m, rows[at[k]]) is Some && hits[k].path == path && hits[k].display
                == display_of(path, host) && hits[k].artifact_type == ty && hits[k].line == at[k]
                + 1 && hits[k].text == trim_end_of(rows[at[k]]) && marks(
                hits[k],
                m,
                rows[at[k]],
            ) by {
                if k > 0 {
                    assert(at[k] == rest[k - 1]);
                    assert(hits[k] == behind[k - 1]);
                }
            }
            assert forall|k: int, l: int| 0 <= k < l < at.len() implies #[trigger] at[k]
                < #[trigger] at[l] by {
                assert(at[l] == rest[l - 1]);
                if k > 0 {
                    assert(at[k] == rest[k - 1]);
                }
            }
            assert forall|i: int|
                from <= i < rows.len() && found_in(m, #[trigger] rows[i]) is Some implies at.contains(
                i,
            ) by {
                if i == from {
                    assert(at[0] == i);
                } else {
                    let k = choose|k: int| 0 <= k < rest.len() && rest[k] == i;
                    assert(rest.contains(i));
                    assert(at[k + 1] == i);
                }
            }
            at
        } else {
            assert(hits =~= behind);
            rest
        }
    }
}

/// The places of the matches in the files from one on.
proof fn lemma_all_hits(
    m: Matcher,
    files: Seq<SearchFile>,
    from: int,
    query: Query,
    host: HostModel,
) -> (at: Seq<(int, int)>)
    requires
        0 <= from <= files.len(),
        is_matcher(m, query),
    ensures
        at.len() == all_hits(m, files, from, query, host).len(),
        forall|k: int|
            0 <= k < at.len() ==> from <= (#[trigger] at[k]).0 && belongs(
                files,
                query,
                host.drives,
                at[k].0,
                at[k].1,
            ) && names_line(
                all_hits(m, files, from, query, host)[k],
                files,
                host,
                at[k].0,
                at[k].1,
            ) && marks(
                all_hits(m, files, from, query, host)[k],
                m,
                text_lines(text_in(files[at[k].0].bytes@))[at[k].1],
            ),
        forall|k: int, l: int|
            0 <= k < l < at.len() ==> line_before(#[trigger] at[k], #[trigger] at[l]),
        forall|j: int, i: int|
            from <= j && #[trigger] belongs(files, query, host.drives, j, i) ==> at.contains(
                (j, i),
            ),
    decreases files.len() - from,
{
    if from >= files.len() {
        Seq::empty()
    } else {
        let rest = lemma_all_hits(m, files, from + 1, query, host);
        let f = files[from];
        let text = text_in(f.bytes@);
        let rows = text_lines(text);
        let here = file_hits(m, f, query, host);
        let behind = all_hits(m, files, from + 1, query, host);
        let hits = all_hits(m, files, from, query, host);
        assert(hits == here + behind);
        assert(looked_into(f, query, host.drives) == is_searched(f, query, host.drives));
        let lines: Seq<int> = if looked_into(f, query, host.drives) {
            lemma_line_hits(m, rows, 0, f.path@, host, type_of(f.path@, text, views(f.dirs@)))
        } else {
            Seq::empty()
        };
        assert(lines.len() == here.len());
        let at = Seq::new(lines.len(), |k: int| (from, lines[k])) + rest;
        assert forall|k: int| 0 <= k < at.len() implies from <= (#[trigger] at[k]).0 && belongs(
            files,
            query,
            host.drives,
            at[k].0,
            at[k].1,
        ) && names_line(hits[k], files, host, at[k].0, at[k].1) && marks(
            hits[k],
            m,
            text_lines(text_in(files[at[k].0].bytes@))[at[k].1],
        ) by {
            if k < lines.len() {
                assert(at[k] == (from, lines[k]));
                lemma_matcher(m, query, rows[lines[k]]);
                assert(hits[k] == here[k]);
            } else {
                assert(at[k] == rest[k - lines.len()]);
                assert(hits[k] == behind[k - lines.len()]);
            }
        }
        assert forall|k: int, l: int| 0 <= k < l < at.len() implies line_before(
            #[trigger] at[k],
            #[trigger] at[l],
        ) by {
            if l < lines.len() {
                assert(lines[k] < lines[l]);
            } else {
                assert(at[l] == rest[l - lines.len()]);
                if k >= lines.len() {
                    assert(at[k] == rest[k - lines.len()]);
                }
            }
        }
        assert forall|j: int, i: int|
            from <= j && #[trigger] belongs(files, query, host.drives, j, i) implies at.contains(
            (j, i),
        ) by {
            if j == from {
                lemma_matcher(m, query, rows[i]);
                assert(lines.contains(i));
                let k = choose|k: int| 0 <= k < lines.len() && lines[k] == i;
                assert(at[k] == (j, i));
            } else {
                assert(rest.contains((j, i)));
                let k = choose|k: int| 0 <= k < rest.len() && rest[k] == (j, i);
                assert(at[k + lines.len()] == (j, i));
            }
        }
        at
    }
}

/// A search reports lines that hold what is asked for, each of them once, file
/// by file and from the top down, and no other line; and unless it stops at the
/// limit, it reports every one of them, in every file that is searched.
pub proof fn law_search_finds_every_line(
    files: Seq<SearchFile>,
    query: Query,
    host: HostModel,
    hits: Vec<Match>,
) -> (at: Seq<(int, int)>)
    requires
        searched(files, query, host, Ok(hits)),
    ensures
        at.len() == hits@.len() <= query.max_results,
        forall|k: int|
            0 <= k < at.len() ==> belongs(files, query, host.drives, (#[trigger] at[k]).0, at[k].1)
                && names_line(hits@[k]@, files, host, at[k].0, at[k].1),
        forall|k: int, l: int|
            0 <= k < l < at.len() ==> line_before(#[trigger] at[k], #[trigger] at[l]),
        hits@.len() < query.max_results ==> forall|j: int, i: int| #[trigger]
            belongs(files, query, host.drives, j, i) ==> exists|k: int|
                0 <= k < hits@.len() && names_line((#[trigger] hits@[k])@, files, host, j, i),
        hits@.len() == query.max_results ==> forall|j: int, i: int| #[trigger]
            belongs(files, query, host.drives, j, i) ==> at.contains((j, i)) || forall|k: int|
                0 <= k < at.len() ==> line_before(#[trigger] at[k], (j, i)),
{
    let m = choose|m: Matcher|
        is_matcher(m, query) && match_models(hits@) == at_most(
            #[trigger] all_hits(m, files, 0, query, host),
            query.max_results as nat,
        );
    let total = all_hits(m, files, 0, query, host);
    let all = lemma_all_hits(m, files, 0, query, host);
    let n = hits@.len() as int;
    assert(match_models(hits@).len() == n);
    let at = all.take(n);
    assert forall|k: int| 0 <= k < n implies #[trigger] at[k] == all[k] && hits@[k]@
        == total[k] by {
        assert(match_models(hits@)[k] == hits@[k]@);
    }
    if n < query.max_results {
        assert(at =~= all);
        assert forall|j: int, i: int| #[trigger]
            belongs(files, query, host.drives, j, i) implies exists|k: int|
            0 <= k < hits@.len() && names_line((#[trigger] hits@[k])@, files, host, j, i) by {
            assert(all.contains((j, i)));
            let k = choose|k: int| 0 <= k < all.len() && all[k] == (j, i);
            assert(at[k] == (j, i));
            assert(names_line(hits@[k]@, files, host, j, i));
        }
    } else {
        assert forall|j: int, i: int| #[trigger]
            belongs(files, query, host.drives, j, i) implies at.contains((j, i)) || forall|k: int|
            0 <= k < at.len() ==> line_before(#[trigger] at[k], (j, i)) by {
            assert(all.contains((j, i)));
            let l = choose|l: int| 0 <= l < all.len() && all[l] == (j, i);
            if l < n {
                assert(at[l] == (j, i));
            } else {
                assert forall|k: int| 0 <= k < at.len() implies line_before(
                    #[trigger] at[k],
                    (j, i),
                ) by {
                    assert(line_before(all[k], all[l]));
                }
            }
        }
    }
    at
}

/// A literal that is found with regard to case stands in the line at the bytes
/// that are reported.
pub proof fn law_literal_range(needle: String, line: Seq<char>)
    ensures
        found_in(Matcher::Literal { needle, case_sensitive: true }, line) matches Some((
            start,
            end,
        )) ==> start <= end <= byte_len(line) && encode_utf8(line).subrange(
            start as int,
            end as int,
        ) == encode_utf8(needle@),
{
    lemma_find(line, needle@, 0);
    if let Some(i) = find_of(line, needle@, 0) {
        let n = needle@.len() as int;
        let a = line.take(i);
        let b = line.skip(i + n);
        assert(line.subrange(i, i + n) =~= needle@);
        assert(line =~= a + (needle@ + b));
        lemma_encode_concat(a, needle@ + b);
        lemma_encode_concat(needle@, b);
        let at = byte_len(a) as int;
        assert(encode_utf8(line).subrange(at, at + byte_len(needle@)) =~= encode_utf8(needle@));
    }
}

/// A match of a literal pattern, with regard to case, marks the pattern in the
/// text that it shows, unless the mark reaches the end of what is shown.
pub proof fn law_match_marks_the_pattern(
    files: Seq<SearchFile>,
    query: Query,
    host: HostModel,
    hits: Vec<Match>,
    k: int,
)
    requires
        searched(files, query, host, Ok(hits)),
        !query.regex,
        query.case_sensitive,
        0 <= k < hits@.len(),
        hits@[k].end < byte_len(hits@[k].text@),
    ensures
        encode_utf8(hits@[k].text@).subrange(hits@[k].start as int, hits@[k].end as int)
            == encode_utf8(query.pattern@),
{
    let m = choose|m: Matcher|
        is_matcher(m, query) && match_models(hits@) == at_most(
            #[trigger] all_hits(m, files, 0, query, host),
            query.max_results as nat,
        );
    let all = lemma_all_hits(m, files, 0, query, host);
    let total = all_hits(m, files, 0, query, host);
    assert(match_models(hits@).len() == hits@.len());
    assert(match_models(hits@)[k] == hits@[k]@);
    assert(total[k] == hits@[k]@);
    let spot = all[k];
    let line = text_lines(text_in(files[all[k].0].bytes@))[all[k].1];
    assert(marks(hits@[k]@, m, line));
    lemma_matcher(m, query, line);
    law_literal_range(m->needle, line);
    let shown = trim_end_of(line);
    let rest = lemma_trim_end_is_front(line);
    lemma_encode_concat(shown, rest);
    let (start, end) = found_in(m, line)->0;
    assert(encode_utf8(line).subrange(start as int, end as int) =~= encode_utf8(shown).subrange(
        start as int,
        end as int,
    ));
}

proof fn lemma_trim_end_is_front(s: Seq<char>) -> (rest: Seq<char>)
    ensures
        s == trim_end_of(s) + rest,
    decreases s.len(),
{
    if s.len() > 0 && is_space(s.last()) {
        let rest = lemma_trim_end_is_front(s.drop_last());
        assert(s =~= s.drop_last().push(s.last()));
        assert(s.drop_last().push(s.last()) =~= trim_end_of(s) + rest.push(s.last()));
        rest.push(s.last())
    } else {
        assert(s =~= s + Seq::<char>::empty());
        Seq::empty()
    }
}

} // verus!
