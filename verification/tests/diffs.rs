//! Diffs, merges, patches.

use folio_core::diff::patch::{apply, parse};
use folio_core::diff::{apply_hunks, diff_text, merge3, unified, word_spans};

#[test]
fn identical_text_has_no_hunks() {
    let d = diff_text("a\nb\n", "a\nb\n");
    assert!(d.is_empty());
    assert_eq!((d.added, d.removed), (0, 0));
}

#[test]
fn a_rewritten_paragraph_is_one_hunk() {
    let old = "# Title\n\nAlpha one.\nAlpha two.\nAlpha three.\n\n# Other\n\nUntouched.\n";
    let new = "# Title\n\nBeta one.\nBeta two.\nBeta three.\n\n# Other\n\nUntouched.\n";
    let d = diff_text(old, new);
    assert_eq!(d.hunks.len(), 1, "paragraph grouping should merge the three lines");
    assert_eq!(d.hunks[0].header, "# Title");
}

#[test]
fn word_level_spans_mark_only_the_changed_words() {
    let (old_spans, new_spans) = word_spans(
        "if the table has 4+ rows or 3+ columns",
        "if the table has 4+ rows and 4+ columns",
    );
    assert!(!old_spans.is_empty() && !new_spans.is_empty());
    let changed_old: String = old_spans
        .iter()
        .filter(|s| s.changed)
        .map(|s| &"if the table has 4+ rows or 3+ columns"[s.start..s.end])
        .collect();
    assert!(changed_old.contains("or") || changed_old.contains('3'));
}

#[test]
fn hunk_apply_takes_exactly_the_accepted_hunks() {
    let old = "one\n\ntwo\n\nthree\n";
    let new = "ONE\n\ntwo\n\nTHREE\n";
    let d = diff_text(old, new);
    assert_eq!(d.hunks.len(), 2);

    let none = apply_hunks(old, new, &d, &[]);
    assert_eq!(none, old);

    let all = apply_hunks(old, new, &d, &[0, 1]);
    assert_eq!(all, new);

    let first_only = apply_hunks(old, new, &d, &[0]);
    assert_eq!(first_only, "ONE\n\ntwo\n\nthree\n");

    let second_only = apply_hunks(old, new, &d, &[1]);
    assert_eq!(second_only, "one\n\ntwo\n\nTHREE\n");
}

#[test]
fn pure_insertion_at_the_end_applies() {
    let old = "a\n";
    let new = "a\n\nb\n";
    let d = diff_text(old, new);
    assert_eq!(apply_hunks(old, new, &d, &[0]), new);
}

#[test]
fn crlf_input_keeps_its_line_endings() {
    let old = "a\r\nb\r\n";
    let new = "a\r\nB\r\n";
    let d = diff_text(old, new);
    let applied = apply_hunks(old, new, &d, &[0]);
    assert!(applied.contains("\r\n"));
    assert_eq!(applied.replace("\r\n", "\n"), "a\nB\n");
}

#[test]
fn merge3_keeps_both_sides_when_they_touch_different_paragraphs() {
    let base = "alpha\n\nbeta\n\ngamma\n";
    let ours = "ALPHA\n\nbeta\n\ngamma\n";
    let theirs = "alpha\n\nBETA\n\ngamma\n";
    assert_eq!(merge3(base, ours, theirs).unwrap(), "ALPHA\n\nBETA\n\ngamma\n");
}

#[test]
fn merge3_reports_a_real_conflict_rather_than_guessing() {
    let base = "alpha\n";
    let err = merge3(base, "OURS\n", "THEIRS\n").unwrap_err();
    assert_eq!(err.code(), "conflict");
}

#[test]
fn merge3_accepts_the_same_edit_made_twice() {
    let base = "alpha\n";
    assert_eq!(merge3(base, "SAME\n", "SAME\n").unwrap(), "SAME\n");
}

#[test]
fn merge3_with_one_side_unchanged_takes_the_other() {
    let base = "alpha\n\nbeta\n";
    let edited = "alpha\n\nBETA\n";
    assert_eq!(merge3(base, base, edited).unwrap(), edited);
    assert_eq!(merge3(base, edited, base).unwrap(), edited);
}

#[test]
fn unified_output_has_headers_and_a_hunk() {
    let u = unified("a\nb\n", "a\nc\n", "a/x.md", "b/x.md", 3);
    assert!(u.starts_with("--- a/x.md\n+++ b/x.md\n"));
    assert!(u.contains("@@ -"));
    assert!(u.contains("-b"));
    assert!(u.contains("+c"));
}

#[test]
fn unified_output_is_exact() {
    let u = unified("a\nb\nc\n", "a\nB\nc\n", "a/x.md", "b/x.md", 3);
    assert_eq!(u, "--- a/x.md\n+++ b/x.md\n@@ -1,3 +1,3 @@\n a\n-b\n+B\n c\n");
}

#[test]
fn hundred_kilobyte_documents_diff_inside_the_budget() {
    let mut old = String::new();
    for i in 0..2000 {
        old.push_str(&format!("Paragraph {i} with a reasonable amount of prose in it.\n\n"));
    }
    let new = old.replace("Paragraph 1000", "Paragraph one thousand");
    assert!(old.len() > 100_000);
    let start = std::time::Instant::now();
    let d = diff_text(&old, &new);
    let elapsed = start.elapsed();
    assert!(!d.is_empty());
    assert!(elapsed.as_millis() < 100, "word-level diff took {elapsed:?}, budget is 100ms");
}

#[test]
fn applies_a_simple_patch() {
    let base = "alpha\nbeta\ngamma\n";
    let patch = "--- a/x.md\n+++ b/x.md\n@@ -1,3 +1,3 @@\n alpha\n-beta\n+BETA\n gamma\n";
    assert_eq!(apply(base, patch).unwrap(), "alpha\nBETA\ngamma\n");
}

#[test]
fn applies_with_an_offset_when_lines_shifted() {
    let base = "new header\n\nalpha\nbeta\ngamma\n";
    let patch = "@@ -1,3 +1,3 @@\n alpha\n-beta\n+BETA\n gamma\n";
    assert_eq!(apply(base, patch).unwrap(), "new header\n\nalpha\nBETA\ngamma\n");
}

#[test]
fn a_patch_whose_context_is_gone_is_a_conflict() {
    let base = "totally\ndifferent\n";
    let patch = "@@ -1,3 +1,3 @@\n alpha\n-beta\n+BETA\n gamma\n";
    let err = apply(base, patch).unwrap_err();
    assert_eq!(err.code(), "conflict");
}

#[test]
fn multiple_hunks_apply_in_order() {
    let base = "a\nb\nc\nd\ne\nf\ng\n";
    let patch = "@@ -1,2 +1,2 @@\n a\n-b\n+B\n@@ -6,2 +6,2 @@\n f\n-g\n+G\n";
    assert_eq!(apply(base, patch).unwrap(), "a\nB\nc\nd\ne\nf\nG\n");
}

#[test]
fn creates_content_in_an_empty_base() {
    let patch = "@@ -0,0 +1,2 @@\n+first\n+second\n";
    assert_eq!(apply("", patch).unwrap(), "first\nsecond\n");
}

#[test]
fn round_trips_with_the_unified_writer() {
    let old = "one\ntwo\nthree\nfour\nfive\n";
    let new = "one\nTWO\nthree\nfour\nFIVE\n";
    let patch = unified(old, new, "a/x.md", "b/x.md", 3);
    assert_eq!(apply(old, &patch).unwrap(), new);
}

#[test]
fn a_written_patch_keeps_the_newlines_of_its_base() {
    let old = "one\r\ntwo\r\nthree\r\n";
    let new = "one\r\n2\r\nthree\r\n";
    let patch = unified(old, new, "old", "new", 3);
    assert_eq!(apply(old, &patch).unwrap(), new);
    let plain = "one\n2\nthree\n";
    let patch = unified(old, plain, "old", "new", 3);
    assert_eq!(apply(old, &patch).unwrap(), new);
}

#[test]
fn a_written_patch_can_add_or_drop_the_final_newline() {
    for (old, new) in [
        ("a\nb", "a\nb\n"),
        ("a\nb\n", "a\nb"),
        ("a\nb\n", "a\n"),
        ("", "a"),
        ("a\n", ""),
        ("a", "b"),
    ] {
        let patch = unified(old, new, "old", "new", 3);
        assert_eq!(apply(old, &patch).unwrap(), new);
    }
}

#[test]
fn a_written_patch_may_have_several_hunks() {
    let old = "a\nb\nc\nd\ne\nf\ng\nh\ni\nj\nk\nl\n";
    let new = "A\nb\nc\nd\ne\nf\ng\nh\ni\nj\nk\nl\nm\n";
    let patch = unified(old, new, "old", "new", 1);
    assert_eq!(parse(&patch).unwrap().len(), 2);
    assert_eq!(apply(old, &patch).unwrap(), new);
}

#[test]
fn a_patch_with_no_hunks_is_rejected() {
    assert_eq!(parse("just some prose").unwrap_err().code(), "invalid");
}

#[test]
fn a_patch_over_two_files_has_the_hunks_of_both() {
    let patch =
        "@@ -1,1 +1,1 @@\n-a\n+b\n--- a/y.md\n+++ b/y.md\n@@ -5,1 +5,1 @@\n-c\n+d\n";
    let hunks = parse(patch).unwrap();
    assert_eq!(hunks.len(), 2);
    assert_eq!(hunks[0].old_start, 0);
    assert_eq!(hunks[0].old_lines, ["a"]);
    assert_eq!(hunks[0].new_lines, ["b"]);
    assert_eq!(hunks[1].old_start, 4);
    assert_eq!(hunks[1].old_lines, ["c"]);
    assert_eq!(hunks[1].new_lines, ["d"]);
}

#[test]
fn lines_that_look_like_file_headers_are_lines() {
    let old = "a\n-- x\nb\n";
    let new = "a\n++ y\nb\n";
    let patch = unified(old, new, "a/x.md", "b/x.md", 3);
    assert!(patch.contains("\n--- x\n+++ y\n"));
    assert_eq!(parse(&patch).unwrap().len(), 1);
    assert_eq!(apply(old, &patch).unwrap(), new);
}

#[test]
fn what_is_written_as_a_patch_is_read_back_with_any_context() {
    let old = "a\nb\nc\nd\ne\nf\ng\nh\n";
    for new in [
        "b\nc\nd\ne\nf\ng\nh\n",
        "x\na\nb\nc\nd\ne\nf\ng\nh\ny\n",
        "a\nb\n\nc\nd\ne\nf\ng\nh",
        "h\ng\nf\ne\nd\nc\nb\na\n",
        "a\na\nb\nb\nc\nc\nd\nd\n",
        "",
    ] {
        for n in 1..5 {
            let patch = unified(old, new, "old", "new", n);
            assert_eq!(apply(old, &patch).unwrap(), new, "{patch}");
            let back = unified(new, old, "new", "old", n);
            assert_eq!(apply(new, &back).unwrap(), old, "{back}");
        }
    }
}

#[test]
fn every_hunk_together_gives_the_new_text() {
    for (old, new) in [
        ("A\nb\nc\nd\ne\nf\n", "X\nb\ni\nj\nk\nc\nd\ne\nf\n"),
        ("a\nb\nc\n", "c\nb\na\n"),
        ("", "a\nb\n"),
        ("a\nb\n", ""),
        ("a\n\nb\n\nc\n", "a\nx\n\ny\nb\n\nz\n"),
    ] {
        let d = diff_text(old, new);
        let all: Vec<usize> = (0..d.hunks.len()).collect();
        assert_eq!(apply_hunks(old, new, &d, &all), new);
        assert_eq!(apply_hunks(old, new, &d, &[]), old);
    }
}

#[test]
fn a_merge_takes_a_change_made_twice_once() {
    let base = "a\nb\nc\nd\ne\nf\n";
    for same in [
        "a\nnew\nb\nc\nd\ne\nf\n",
        "a\nb\nc\nd\ne\nf\nlast\n",
        "first\na\nb\nc\nd\ne\nf\n",
        "a\nB\nc\nd\nE\nf\n",
        "f\n",
        "",
    ] {
        assert_eq!(merge3(base, same, same).unwrap(), same);
    }
}

#[test]
fn a_merge_keeps_two_insertions_at_one_place() {
    assert_eq!(merge3("a\nb\n", "a\nx\nb\n", "a\ny\nb\n").unwrap(), "a\nx\ny\nb\n");
}

#[test]
fn a_merge_compares_every_change_that_overlaps() {
    let base = "a\nb\nc\nd\ne\nf\n";
    let err = merge3(base, "X\nf\n", "X\nb\nc\nY\ne\nf\n").unwrap_err();
    assert_eq!(err.code(), "conflict");
    let err = merge3(base, "X\nb\nc\nY\ne\nf\n", "X\nf\n").unwrap_err();
    assert_eq!(err.code(), "conflict");
}

#[test]
fn blank_lines_at_the_end_are_compared() {
    for (old, new) in [("a\n", "a\n\n"), ("a\n\n", "a\n"), ("a\n\n\n", "a\n\nb\n"), ("\n", "\n\n")] {
        let d = diff_text(old, new);
        assert!(!d.is_empty());
        let all: Vec<usize> = (0..d.hunks.len()).collect();
        assert_eq!(apply_hunks(old, new, &d, &all), new);
        assert_eq!(apply_hunks(old, new, &d, &[]), old);
        assert_eq!(merge3(old, old, new).unwrap(), new);
        assert_eq!(merge3(old, new, new).unwrap(), new);
    }
}

#[test]
fn a_carriage_return_inside_a_line_ends_none() {
    let old = "a\rb\nc\nd\n";
    let new = "a\rb\nC\nd\n";
    let d = diff_text(old, new);
    assert_eq!(d.hunks.len(), 1);
    assert_eq!(apply_hunks(old, new, &d, &[0]), new);
    assert_eq!(apply_hunks(old, new, &d, &[]), old);
}

#[test]
fn an_insertion_at_the_end_says_what_it_adds() {
    let d = diff_text("a\nb\n", "a\nb\n\nc\n");
    let all: Vec<usize> = (0..d.hunks.len()).collect();
    assert_eq!(apply_hunks("a\nb\n", "a\nb\n\nc\n", &d, &all), "a\nb\n\nc\n");
    // The last line of a text has no newline behind it while lines are
    // compared, so two texts that go on differently there clash.
    let err = merge3("a\n", "a\n\nmine\n", "a\n\nyours\n").unwrap_err();
    assert_eq!(err.code(), "conflict");
}
