//! Searching the corpus.

use folio_core::search::{search, Query, SearchFile};
use folio_core::util::Host;

fn anywhere() -> Host {
    Host::new(None, false)
}

fn file(path: &str, text: &str) -> SearchFile {
    SearchFile {
        root: "/s".into(),
        path: path.into(),
        bytes: text.as_bytes().to_vec(),
        dirs: vec![],
    }
}

#[test]
fn finds_literal_matches_with_line_numbers() {
    let files = [file("/s/a.md", "alpha\nBETA here\ngamma\n")];
    let beta = Query { pattern: "beta".into(), ..Default::default() };
    let hits = search(&files, &beta, &anywhere()).unwrap();
    assert_eq!(hits.len(), 1);
    assert_eq!(hits[0].line, 2);
    assert_eq!(hits[0].text, "BETA here");
}

#[test]
fn a_match_lies_in_its_line() {
    let files = [file("/s/a.md", "none\n  foo \u{e9} beta  \nbeta\t\n")];
    for (pattern, regex) in [("beta", false), (r"beta\s+$", true), (r"\s*$", true), ("", true)] {
        let query = Query { pattern: pattern.into(), regex, ..Default::default() };
        let Ok(hits) = search(&files, &query, &anywhere()) else { continue };
        for m in &hits {
            assert!(m.line >= 1);
            assert!(m.start <= m.end && m.end <= m.text.len());
            assert_eq!(m.text, m.text.trim_end());
        }
    }
    let query = Query { pattern: "beta".into(), ..Default::default() };
    let hits = search(&files, &query, &anywhere()).unwrap();
    assert_eq!(hits[0].text, "  foo \u{e9} beta");
    assert_eq!((hits[0].line, hits[0].start, hits[0].end), (2, 9, 13));
}

#[test]
fn regex_and_glob_filters_apply() {
    let files = [file("/s/skills/SKILL.md", "name: x\n"), file("/s/other.md", "name: y\n")];
    let hits = search(
        &files,
        &Query {
            pattern: r"name:\s+\w".into(),
            regex: true,
            glob: Some("skills/**".into()),
            ..Default::default()
        },
        &anywhere(),
    )
    .unwrap();
    assert_eq!(hits.len(), 1);
    assert!(hits[0].path.ends_with("SKILL.md"));
}

#[test]
fn a_bad_regex_is_reported_not_panicked() {
    let err = search(
        &[],
        &Query { pattern: "([".into(), regex: true, ..Default::default() },
        &anywhere(),
    )
    .unwrap_err();
    assert_eq!(err.code(), "invalid");
}

#[test]
fn an_empty_pattern_and_a_bad_glob_are_refused() {
    let none = search(&[], &Query { pattern: "".into(), ..Default::default() }, &anywhere());
    assert_eq!(none.unwrap_err().code(), "invalid");
    let bad = Query { pattern: "a".into(), glob: Some("a[".into()), ..Default::default() };
    assert_eq!(search(&[], &bad, &anywhere()).unwrap_err().code(), "invalid");
}

#[test]
fn case_matters_only_when_asked_for() {
    let files = [file("/s/a.md", "Beta\nbeta\n")];
    let any = Query { pattern: "beta".into(), ..Default::default() };
    assert_eq!(search(&files, &any, &anywhere()).unwrap().len(), 2);
    let exact = Query { pattern: "beta".into(), case_sensitive: true, ..Default::default() };
    let hits = search(&files, &exact, &anywhere()).unwrap();
    assert_eq!(hits.len(), 1);
    assert_eq!((hits[0].line, hits[0].start, hits[0].end), (2, 0, 4));
}

#[test]
fn binaries_and_large_files_are_passed_over_and_results_are_capped() {
    let binary =
        SearchFile { root: "/s".into(), path: "/s/b.md".into(), bytes: vec![0, 97], dirs: vec![] };
    let q = Query { pattern: "a".into(), ..Default::default() };
    assert!(search(&[binary], &q, &anywhere()).unwrap().is_empty());
    let small = Query { pattern: "a".into(), max_file_bytes: 2, ..Default::default() };
    assert!(search(&[file("/s/a.md", "aaa\n")], &small, &anywhere()).unwrap().is_empty());
    let few = Query { pattern: "a".into(), max_results: 2, ..Default::default() };
    assert_eq!(search(&[file("/s/a.md", "a\na\na\n")], &few, &anywhere()).unwrap().len(), 2);
}
