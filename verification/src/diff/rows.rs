//! The rows of a hunk: the lines of both sides as a reader sees them.

use crate::diff::changes::{
    change_models, comparable, compare_lines, line_diff, new_pieces, old_pieces, tags_of, word_diff,
    ChangeTag,
};
use crate::diff::ranges::{
    comparable_lines, joined, lemma_counts, lemma_line_count, lemma_pieces_len,
    lemma_pieces_prefix, line_list, new_count, old_count, piece, pieces_of, plain,
};
use crate::diff::words::{spans_of, tiles, word_spans, Span};
use crate::text::{byte_len, bytes_in, chars_of, holds, lemma_join_concat, part, string_of, views};
use vstd::prelude::*;

verus! {

#[derive(Debug, Clone, Copy, PartialEq, Eq, Structural)]
pub enum RowKind {
    Context,
    Insert,
    Delete,
}

/// One line of a hunk. `spans` is empty unless this row is half of a detected
/// rewrite pair.
#[derive(Debug)]
pub struct Row {
    pub kind: RowKind,
    pub old_line: Option<usize>,
    pub new_line: Option<usize>,
    pub text: String,
    pub spans: Vec<Span>,
}

/// What a row holds.
pub struct RowModel {
    pub kind: RowKind,
    pub old_line: Option<int>,
    pub new_line: Option<int>,
    pub text: Seq<char>,
    pub spans: Seq<Span>,
}

pub open spec fn line_number(n: Option<usize>) -> Option<int> {
    match n {
        Some(n) => Some(n as int),
        None => None,
    }
}

impl View for Row {
    type V = RowModel;

    open spec fn view(&self) -> RowModel {
        RowModel {
            kind: self.kind,
            old_line: line_number(self.old_line),
            new_line: line_number(self.new_line),
            text: self.text@,
            spans: self.spans@,
        }
    }
}

pub open spec fn row_models(rows: Seq<Row>) -> Seq<RowModel> {
    Seq::new(rows.len(), |i: int| rows[i]@)
}

/// `s` without the line feeds at its end.
pub open spec fn chop_of(s: Seq<char>) -> Seq<char>
    decreases s.len(),
{
    if s.len() > 0 && s.last() == '\n' {
        chop_of(s.drop_last())
    } else {
        s
    }
}

pub fn chop(s: &[char]) -> (out: &[char])
    ensures
        out@ == chop_of(s@),
        out@.len() <= s@.len(),
{
    let mut n: usize = s.len();
    assert(s@.take(s@.len() as int) == s@);
    while n > 0 && s[n - 1] == '\n'
        invariant
            n <= s.len(),
            chop_of(s@) == chop_of(s@.take(n as int)),
        decreases n,
    {
        assert(s@.take(n as int).drop_last() == s@.take(n - 1));
        n -= 1;
    }
    assert(s@.subrange(0, n as int) == s@.take(n as int));
    part(s, 0, n)
}

/// The kind of row that a change becomes.
pub open spec fn kind_of(tag: ChangeTag) -> RowKind {
    match tag {
        ChangeTag::Equal => RowKind::Context,
        ChangeTag::Delete => RowKind::Delete,
        ChangeTag::Insert => RowKind::Insert,
    }
}

/// The row of change `i`, where the first old and new lines have the numbers
/// given.
pub open spec fn bare_row(
    c: Seq<(ChangeTag, Seq<char>)>,
    i: int,
    old_start: int,
    new_start: int,
) -> RowModel {
    let tags = tags_of(c);
    RowModel {
        kind: kind_of(c[i].0),
        old_line: if c[i].0 == ChangeTag::Insert {
            None
        } else {
            Some(old_start + old_count(tags, i))
        },
        new_line: if c[i].0 == ChangeTag::Delete {
            None
        } else {
            Some(new_start + new_count(tags, i))
        },
        text: chop_of(c[i].1),
        spans: Seq::empty(),
    }
}

/// The rows of a list of changes, before any words are marked.
pub open spec fn bare_rows(
    c: Seq<(ChangeTag, Seq<char>)>,
    old_start: int,
    new_start: int,
) -> Seq<RowModel> {
    Seq::new(c.len(), |i: int| bare_row(c, i, old_start, new_start))
}

/// Where the run of rows of one kind that starts at `i` ends.
pub open spec fn run_to(rows: Seq<RowModel>, i: int, kind: RowKind) -> int
    decreases rows.len() - i,
{
    if 0 <= i < rows.len() && rows[i].kind == kind {
        run_to(rows, i + 1, kind)
    } else {
        i
    }
}

/// Where the run of rows of one kind that ends before `i` starts.
pub open spec fn run_from(rows: Seq<RowModel>, i: int, kind: RowKind) -> int
    decreases i,
{
    if 0 < i <= rows.len() && rows[i - 1].kind == kind {
        run_from(rows, i - 1, kind)
    } else {
        i
    }
}

/// The ranges of a pair of rewritten lines; none for long lines.
pub open spec fn pair_spans(old: Seq<char>, new: Seq<char>, max: nat) -> (Seq<Span>, Seq<Span>) {
    if byte_len(old) + byte_len(new) > max {
        (Seq::empty(), Seq::empty())
    } else {
        spans_of(word_diff(old, new))
    }
}

/// The ranges of row `i`. Each run of deletes is paired, row by row, with the
/// run of inserts that follows it, if both have the same length.
pub open spec fn spans_at(rows: Seq<RowModel>, i: int, max: nat) -> Seq<Span> {
    match rows[i].kind {
        RowKind::Context => Seq::empty(),
        RowKind::Delete => {
            let first = run_from(rows, i, RowKind::Delete);
            let mid = run_to(rows, i, RowKind::Delete);
            let end = run_to(rows, mid, RowKind::Insert);
            if end - mid == mid - first {
                pair_spans(rows[i].text, rows[mid + (i - first)].text, max).0
            } else {
                Seq::empty()
            }
        },
        RowKind::Insert => {
            let mid = run_from(rows, i, RowKind::Insert);
            let end = run_to(rows, i, RowKind::Insert);
            let first = run_from(rows, mid, RowKind::Delete);
            if end - mid == mid - first {
                pair_spans(rows[first + (i - mid)].text, rows[i].text, max).1
            } else {
                Seq::empty()
            }
        },
    }
}

/// The rows with the changed words of rewritten lines marked.
pub open spec fn marked_rows(rows: Seq<RowModel>, max: nat) -> Seq<RowModel> {
    Seq::new(rows.len(), |i: int| RowModel { spans: spans_at(rows, i, max), ..rows[i] })
}

proof fn lemma_run_to(rows: Seq<RowModel>, i: int, kind: RowKind)
    requires
        0 <= i <= rows.len(),
    ensures
        i <= run_to(rows, i, kind) <= rows.len(),
        forall|k: int| i <= k < run_to(rows, i, kind) ==> (#[trigger] rows[k]).kind == kind,
        run_to(rows, i, kind) < rows.len() ==> rows[run_to(rows, i, kind)].kind != kind,
    decreases rows.len() - i,
{
    if i < rows.len() && rows[i].kind == kind {
        lemma_run_to(rows, i + 1, kind);
    }
}

proof fn lemma_run_to_is(rows: Seq<RowModel>, i: int, j: int, kind: RowKind)
    requires
        0 <= i <= j <= rows.len(),
        forall|k: int| i <= k < j ==> (#[trigger] rows[k]).kind == kind,
        j < rows.len() ==> rows[j].kind != kind,
    ensures
        run_to(rows, i, kind) == j,
{
    lemma_run_to(rows, i, kind);
    let e = run_to(rows, i, kind);
    if e < j {
        assert(rows[e].kind == kind);
    }
    if j < e {
        assert(rows[j].kind == kind);
    }
}

proof fn lemma_run_from_is(rows: Seq<RowModel>, i: int, j: int, kind: RowKind)
    requires
        0 <= j <= i <= rows.len(),
        forall|k: int| j <= k < i ==> (#[trigger] rows[k]).kind == kind,
        j > 0 ==> rows[j - 1].kind != kind,
    ensures
        run_from(rows, i, kind) == j,
    decreases i,
{
    if j < i {
        assert(rows[i - 1].kind == kind);
        lemma_run_from_is(rows, i - 1, j, kind);
    }
}

/// The runs that row `k` of the deletes from `first` to `mid` and the inserts
/// from `mid` to `end` lies in.
spec fn in_runs(rows: Seq<RowModel>, k: int, first: int, mid: int, end: int) -> bool {
    &&& k < mid ==> run_from(rows, k, RowKind::Delete) == first && run_to(rows, k, RowKind::Delete)
        == mid
    &&& k >= mid ==> run_from(rows, k, RowKind::Insert) == mid && run_to(rows, k, RowKind::Insert)
        == end
}

/// The rows from `first` to `mid` are a maximal run of deletes, those from
/// `mid` to `end` a maximal run of inserts.
spec fn runs(rows: Seq<RowModel>, first: int, mid: int, end: int) -> bool {
    &&& forall|k: int| first <= k < end ==> #[trigger] in_runs(rows, k, first, mid, end)
    &&& run_to(rows, mid, RowKind::Insert) == end
    &&& run_from(rows, mid, RowKind::Delete) == first
}

proof fn lemma_runs(rows: Seq<RowModel>, first: int, mid: int, end: int)
    requires
        0 <= first <= mid <= end <= rows.len(),
        forall|k: int| first <= k < mid ==> (#[trigger] rows[k]).kind == RowKind::Delete,
        forall|k: int| mid <= k < end ==> (#[trigger] rows[k]).kind == RowKind::Insert,
        first > 0 ==> rows[first - 1].kind != RowKind::Delete,
        mid == first && first > 0 ==> rows[first - 1].kind != RowKind::Insert,
        mid < rows.len() ==> rows[mid].kind != RowKind::Delete,
        end < rows.len() ==> rows[end].kind != RowKind::Insert,
    ensures
        runs(rows, first, mid, end),
{
    assert forall|k: int| first <= k < end implies #[trigger] in_runs(
        rows,
        k,
        first,
        mid,
        end,
    ) by {
        if k < mid {
            lemma_run_from_is(rows, k, first, RowKind::Delete);
            lemma_run_to_is(rows, k, mid, RowKind::Delete);
        } else {
            assert(mid > first ==> rows[mid - 1].kind == RowKind::Delete);
            lemma_run_from_is(rows, k, mid, RowKind::Insert);
            lemma_run_to_is(rows, k, end, RowKind::Insert);
        }
    }
    lemma_run_to_is(rows, mid, end, RowKind::Insert);
    lemma_run_from_is(rows, mid, first, RowKind::Delete);
}

/// Marks the words that changed in each pair of rewritten lines. Only runs of
/// the same length are paired: guessing across a 3-for-1 rewrite produces
/// noise, not insight.
fn annotate_word_level(rows: &mut Vec<Row>, max: usize)
    requires
        forall|i: int, j: int|
            0 <= i < old(rows)@.len() && 0 <= j < old(rows)@.len() && (#[trigger] old(
                rows,
            )@[i]).kind == RowKind::Delete && (#[trigger] old(rows)@[j]).kind == RowKind::Insert
                ==> comparable(old(rows)@[i].text@, old(rows)@[j].text@),
        forall|i: int| 0 <= i < old(rows)@.len() ==> (#[trigger] old(rows)@[i]).spans@.len() == 0,
    ensures
        row_models(final(rows)@) == marked_rows(row_models(old(rows)@), max as nat),
        ranges_cover(row_models(final(rows)@)),
{
    let ghost was = rows@;
    let ghost model = row_models(was);
    let mut i: usize = 0;
    while i < rows.len()
        invariant
            model == row_models(was),
            rows@.len() == was.len(),
            i <= rows.len(),
            i > 0 && i < was.len() && was[i as int].kind == RowKind::Delete ==> was[i
                - 1].kind != RowKind::Delete,
            i > 0 && i < was.len() && was[i as int].kind == RowKind::Insert ==> was[i
                - 1].kind == RowKind::Context,
            forall|k: int|
                0 <= k < i ==> (#[trigger] rows@[k])@ == marked_rows(model, max as nat)[k],
            forall|k: int| i <= k < was.len() ==> (#[trigger] rows@[k]) == was[k],
            forall|a: int, b: int|
                0 <= a < was.len() && 0 <= b < was.len() && (#[trigger] was[a]).kind
                    == RowKind::Delete && (#[trigger] was[b]).kind == RowKind::Insert
                    ==> comparable(was[a].text@, was[b].text@),
            forall|k: int| 0 <= k < was.len() ==> (#[trigger] was[k]).spans@.len() == 0,
            ranges_cover(row_models(rows@)),
        decreases rows.len() - i,
    {
        let ghost begin = i as int;
        if rows[i].kind == RowKind::Context {
            assert(rows@[i as int] == was[i as int]);
            assert(model[i as int].spans =~= Seq::<Span>::empty());
            assert(rows@[i as int]@ == marked_rows(model, max as nat)[i as int]);
            i += 1;
            continue ;
        }
        let first: usize = i;
        while i < rows.len() && rows[i].kind == RowKind::Delete
            invariant
                first <= i <= rows.len(),
                rows@.len() == was.len(),
                forall|k: int| first <= k < was.len() ==> (#[trigger] rows@[k]) == was[k],
                forall|k: int| first <= k < i ==> (#[trigger] was[k]).kind == RowKind::Delete,
            decreases rows.len() - i,
        {
            assert(rows@[i as int] == was[i as int]);
            i += 1;
        }
        let mid: usize = i;
        assert(mid < was.len() ==> rows@[mid as int] == was[mid as int]);
        while i < rows.len() && rows[i].kind == RowKind::Insert
            invariant
                first <= mid <= i <= rows.len(),
                rows@.len() == was.len(),
                forall|k: int| first <= k < was.len() ==> (#[trigger] rows@[k]) == was[k],
                forall|k: int| mid <= k < i ==> (#[trigger] was[k]).kind == RowKind::Insert,
            decreases rows.len() - i,
        {
            assert(rows@[i as int] == was[i as int]);
            i += 1;
        }
        let end: usize = i;
        assert(end < was.len() ==> rows@[end as int] == was[end as int]);
        assert(end > first) by {
            assert(rows@[first as int] == was[first as int]);
        }
        assert(first > 0 ==> was[first - 1].kind != RowKind::Delete);
        proof {
            lemma_runs(model, first as int, mid as int, end as int);
        }
        let ghost goal = marked_rows(model, max as nat);
        if mid - first != end - mid {
            assert forall|k: int| first <= k < end implies (#[trigger] rows@[k])@ == goal[k] by {
                assert(rows@[k] == was[k]);
                assert(in_runs(model, k, first as int, mid as int, end as int));
                assert(model[k].spans =~= Seq::<Span>::empty());
            }
            continue ;
        }
        let mut k: usize = 0;
        while k < mid - first
            invariant
                model == row_models(was),
                goal == marked_rows(model, max as nat),
                rows@.len() == was.len(),
                first <= mid <= end <= was.len(),
                mid - first == end - mid,
                k <= mid - first,
                forall|j: int| 0 <= j < first ==> (#[trigger] rows@[j])@ == goal[j],
                forall|j: int| first <= j < first + k ==> (#[trigger] rows@[j])@ == goal[j],
                forall|j: int| first + k <= j < mid ==> (#[trigger] rows@[j]) == was[j],
                forall|j: int| mid <= j < mid + k ==> (#[trigger] rows@[j])@ == goal[j],
                forall|j: int| mid + k <= j < was.len() ==> (#[trigger] rows@[j]) == was[j],
                forall|j: int| first <= j < mid ==> (#[trigger] was[j]).kind == RowKind::Delete,
                forall|j: int| mid <= j < end ==> (#[trigger] was[j]).kind == RowKind::Insert,
                runs(model, first as int, mid as int, end as int),
                forall|a: int, b: int|
                    0 <= a < was.len() && 0 <= b < was.len() && (#[trigger] was[a]).kind
                        == RowKind::Delete && (#[trigger] was[b]).kind == RowKind::Insert
                        ==> comparable(was[a].text@, was[b].text@),
                forall|j: int| 0 <= j < was.len() ==> (#[trigger] was[j]).spans@.len() == 0,
                ranges_cover(row_models(rows@)),
            decreases mid - first - k,
        {
            let ghost d = first + k;
            let ghost s = mid + k;
            let ghost prior = rows@;
            assert(rows@[d] == was[d] && rows@[s] == was[s]);
            assert(in_runs(model, d, first as int, mid as int, end as int));
            assert(in_runs(model, s, first as int, mid as int, end as int));
            assert(model[d].spans =~= Seq::<Span>::empty());
            assert(model[s].spans =~= Seq::<Span>::empty());
            let old_text = rows[first + k].text.clone();
            let new_text = rows[mid + k].text.clone();
            let a: usize = bytes_in(old_text.as_str());
            let b: usize = bytes_in(new_text.as_str());
            if a <= max && b <= max - a {
                let (olds, news) = word_spans(old_text.as_str(), new_text.as_str());
                rows[first + k].spans = olds;
                rows[mid + k].spans = news;
            }
            assert(rows@[d]@ == goal[d]);
            assert(rows@[s]@ == goal[s]);
            assert(ranges_cover(row_models(rows@))) by {
                let after = row_models(rows@);
                assert forall|j: int| 0 <= j < after.len() && (#[trigger] after[j]).spans.len()
                    > 0 implies after[j].kind != RowKind::Context && tiles(
                    after[j].spans,
                    byte_len(after[j].text),
                ) by {
                    if j != d && j != s {
                        assert(row_models(prior)[j] == after[j]);
                    }
                }
            }
            k += 1;
        }
    }
}

proof fn lemma_chop_len(s: Seq<char>)
    ensures
        chop_of(s).len() <= s.len(),
    decreases s.len(),
{
    if s.len() > 0 && s.last() == '\n' {
        lemma_chop_len(s.drop_last());
    }
}

/// The text of a row is no longer than all the lines joined.
proof fn lemma_row_len(lines: Seq<Seq<char>>, i: int)
    requires
        0 <= i < lines.len(),
    ensures
        chop_of(piece(lines, i)).len() <= joined(lines).len(),
{
    reveal_strlit("\n");
    let line = lines[i];
    lemma_cut_len(lines, i, i + 1);
    assert(lines.subrange(i, i + 1) =~= seq![line]);
    lemma_chop_len(line);
    if i + 1 < lines.len() {
        assert((line + "\n"@).drop_last() =~= line);
    }
}

/// A part of some lines, joined, is no longer than the whole.
pub proof fn lemma_cut_len(lines: Seq<Seq<char>>, from: int, to: int)
    requires
        0 <= from <= to <= lines.len(),
    ensures
        joined(lines.subrange(from, to)).len() <= joined(lines).len(),
{
    let a = lines.take(from);
    let b = lines.subrange(from, to);
    let c = lines.skip(to);
    assert(a + (b + c) =~= lines);
    lemma_join_concat(b, c, "\n"@);
    lemma_join_concat(a, b + c, "\n"@);
}

/// The rows of two lists of lines whose first lines have the numbers given.
pub open spec fn rows_of(
    old: Seq<Seq<char>>,
    new: Seq<Seq<char>>,
    old_start: int,
    new_start: int,
    max: nat,
) -> Seq<RowModel> {
    marked_rows(bare_rows(line_diff(pieces_of(old), pieces_of(new)), old_start, new_start), max)
}

/// Every row but those of a kind.
pub open spec fn all_but(kind: RowKind) -> spec_fn(RowModel) -> bool {
    |r: RowModel| r.kind != kind
}

/// Do rows show two lists of lines, the first of which have the numbers given?
/// The rows that are not inserted are the old lines, in order and numbered; the
/// rows that are not deleted are the new ones. A row has no number on the side
/// that it does not belong to.
pub open spec fn both_sides(
    rows: Seq<RowModel>,
    old: Seq<Seq<char>>,
    new: Seq<Seq<char>>,
    old_start: int,
    new_start: int,
) -> bool {
    let left = rows.filter(all_but(RowKind::Insert));
    let right = rows.filter(all_but(RowKind::Delete));
    &&& left.len() == old.len()
    &&& right.len() == new.len()
    &&& forall|i: int|
        0 <= i < old.len() ==> (#[trigger] left[i]).text == old[i] && left[i].old_line == Some(
            old_start + i,
        )
    &&& forall|i: int|
        0 <= i < new.len() ==> (#[trigger] right[i]).text == new[i] && right[i].new_line == Some(
            new_start + i,
        )
    &&& forall|i: int|
        0 <= i < rows.len() ==> ((#[trigger] rows[i]).kind == RowKind::Insert
            <==> rows[i].old_line is None) && (rows[i].kind == RowKind::Delete
            <==> rows[i].new_line is None)
}

/// Have only changed rows ranges, and do these cover their text?
pub open spec fn ranges_cover(rows: Seq<RowModel>) -> bool {
    forall|i: int|
        0 <= i < rows.len() && (#[trigger] rows[i]).spans.len() > 0 ==> rows[i].kind
            != RowKind::Context && tiles(rows[i].spans, byte_len(rows[i].text))
}

proof fn lemma_chop_piece(lines: Seq<Seq<char>>, i: int)
    requires
        plain(lines),
        0 <= i < lines.len(),
    ensures
        chop_of(piece(lines, i)) == lines[i],
{
    reveal_strlit("\n");
    let line = lines[i];
    assert(!holds(line, '\n'));
    assert(line.len() > 0 ==> line[line.len() - 1] != '\n');
    assert(chop_of(line) == line);
    if i + 1 < lines.len() {
        assert((line + "\n"@).drop_last() =~= line);
    }
}

/// The first `n` rows show the lines that the first `n` changes hold.
proof fn lemma_sides_upto(
    c: Seq<(ChangeTag, Seq<char>)>,
    rows: Seq<RowModel>,
    old_start: int,
    new_start: int,
    n: int,
)
    requires
        0 <= n <= c.len(),
        rows.len() == c.len(),
        forall|i: int|
            0 <= i < c.len() ==> (RowModel { spans: Seq::empty(), ..#[trigger] rows[i] })
                == bare_row(c, i, old_start, new_start),
    ensures
        ({
            let left = rows.take(n).filter(all_but(RowKind::Insert));
            let right = rows.take(n).filter(all_but(RowKind::Delete));
            &&& left.len() == old_count(tags_of(c), n)
            &&& right.len() == new_count(tags_of(c), n)
            &&& left.len() <= old_pieces(c).len()
            &&& right.len() <= new_pieces(c).len()
            &&& forall|i: int|
                0 <= i < left.len() ==> (#[trigger] left[i]).text == chop_of(old_pieces(c)[i])
                    && left[i].old_line == Some(old_start + i)
            &&& forall|i: int|
                0 <= i < right.len() ==> (#[trigger] right[i]).text == chop_of(new_pieces(c)[i])
                    && right[i].new_line == Some(new_start + i)
        }),
    decreases n,
{
    reveal(Seq::filter);
    if n > 0 {
        lemma_sides_upto(c, rows, old_start, new_start, n - 1);
        let r = rows[n - 1];
        assert(rows.take(n).drop_last() =~= rows.take(n - 1));
        assert(rows.take(n).last() == r);
        let b = bare_row(c, n - 1, old_start, new_start);
        assert(r.kind == b.kind && r.text == b.text && r.old_line == b.old_line && r.new_line
            == b.new_line);
        lemma_pieces_prefix(c, n - 1);
    }
}

/// The rows of a comparison are its two sides: without the inserted rows they
/// are the old lines, without the deleted ones the new lines, each with its
/// number, for all changes that make up the two lists of lines.
pub proof fn law_rows_are_both_sides(
    c: Seq<(ChangeTag, Seq<char>)>,
    old: Seq<Seq<char>>,
    new: Seq<Seq<char>>,
    old_start: int,
    new_start: int,
    max: nat,
)
    requires
        plain(old),
        plain(new),
        old_pieces(c) == pieces_of(old),
        new_pieces(c) == pieces_of(new),
    ensures
        both_sides(
            marked_rows(bare_rows(c, old_start, new_start), max),
            old,
            new,
            old_start,
            new_start,
        ),
{
    let rows = marked_rows(bare_rows(c, old_start, new_start), max);
    assert forall|i: int| 0 <= i < c.len() implies (RowModel {
        spans: Seq::empty(),
        ..#[trigger] rows[i]
    }) == bare_row(c, i, old_start, new_start) by {
        assert(bare_rows(c, old_start, new_start)[i] == bare_row(c, i, old_start, new_start));
    }
    lemma_sides_upto(c, rows, old_start, new_start, c.len() as int);
    assert(rows.take(c.len() as int) =~= rows);
    lemma_pieces_len(c);
    assert forall|i: int| 0 <= i < old.len() implies #[trigger] chop_of(old_pieces(c)[i])
        == old[i] by {
        lemma_chop_piece(old, i);
    }
    assert forall|i: int| 0 <= i < new.len() implies #[trigger] chop_of(new_pieces(c)[i])
        == new[i] by {
        lemma_chop_piece(new, i);
    }
}

/// The rows of two lists of lines, with word-level spans on rewrite pairs.
pub fn build_rows(
    old_lines: &[String],
    new_lines: &[String],
    old_start: usize,
    new_start: usize,
    max: usize,
) -> (out: Vec<Row>)
    requires
        comparable_lines(views(old_lines@), views(new_lines@)),
        old_start + old_lines@.len() <= u32::MAX,
        new_start + new_lines@.len() <= u32::MAX,
    ensures
        row_models(out@) == rows_of(
            views(old_lines@),
            views(new_lines@),
            old_start as int,
            new_start as int,
            max as nat,
        ),
        plain(views(old_lines@)) && plain(views(new_lines@)) ==> both_sides(
            row_models(out@),
            views(old_lines@),
            views(new_lines@),
            old_start as int,
            new_start as int,
        ),
        ranges_cover(row_models(out@)),
{
    let ghost old = views(old_lines@);
    let ghost new = views(new_lines@);
    let old_list = line_list(old_lines);
    let new_list = line_list(new_lines);
    proof {
        lemma_line_count(old);
        lemma_line_count(new);
        assert(views(old_list@).len() == old_list@.len());
        assert(views(new_list@).len() == new_list@.len());
    }
    let changes = compare_lines(&old_list, &new_list);
    let ghost c = change_models(changes@);
    let ghost tags = tags_of(c);
    let mut rows: Vec<Row> = Vec::new();
    let mut old_no: usize = old_start;
    let mut new_no: usize = new_start;
    let mut i: usize = 0;
    while i < changes.len()
        invariant
            c == change_models(changes@),
            tags == tags_of(c),
            old_pieces(c) == pieces_of(old),
            new_pieces(c) == pieces_of(new),
            comparable_lines(old, new),
            old_start + old.len() <= u32::MAX,
            new_start + new.len() <= u32::MAX,
            i <= changes.len(),
            rows.len() == i,
            old_no == old_start + old_count(tags, i as int),
            new_no == new_start + new_count(tags, i as int),
            row_models(rows@) == bare_rows(c, old_start as int, new_start as int).take(i as int),
            forall|k: int|
                0 <= k < rows.len() && (#[trigger] rows@[k]).kind == RowKind::Delete
                    ==> rows@[k].text@.len() <= joined(old).len(),
            forall|k: int|
                0 <= k < rows.len() && (#[trigger] rows@[k]).kind == RowKind::Insert
                    ==> rows@[k].text@.len() <= joined(new).len(),
            forall|k: int| 0 <= k < rows.len() ==> (#[trigger] rows@[k]).spans@.len() == 0,
        decreases changes.len() - i,
    {
        let value = chars_of(changes[i].value.as_str());
        let text = string_of(chop(&value));
        proof {
            lemma_pieces_prefix(c, i as int);
            lemma_counts(tags, i as int, c.len() as int);
            if c[i as int].0 != ChangeTag::Insert {
                lemma_row_len(old, old_count(tags, i as int));
            }
            if c[i as int].0 != ChangeTag::Delete {
                lemma_row_len(new, new_count(tags, i as int));
            }
        }
        let ghost before = row_models(rows@);
        let spans: Vec<Span> = Vec::new();
        let ghost bare = bare_rows(c, old_start as int, new_start as int);
        match changes[i].tag {
            ChangeTag::Equal => {
                rows.push(
                    Row {
                        kind: RowKind::Context,
                        old_line: Some(old_no),
                        new_line: Some(new_no),
                        text,
                        spans,
                    },
                );
                old_no += 1;
                new_no += 1;
            },
            ChangeTag::Delete => {
                rows.push(
                    Row {
                        kind: RowKind::Delete,
                        old_line: Some(old_no),
                        new_line: None,
                        text,
                        spans,
                    },
                );
                old_no += 1;
            },
            ChangeTag::Insert => {
                rows.push(
                    Row {
                        kind: RowKind::Insert,
                        old_line: None,
                        new_line: Some(new_no),
                        text,
                        spans,
                    },
                );
                new_no += 1;
            },
        }
        assert(rows@[i as int]@.spans =~= bare[i as int].spans);
        assert(rows@[i as int]@ == bare[i as int]);
        assert(row_models(rows@) =~= before.push(bare[i as int]));
        assert(bare.take(i + 1) =~= bare.take(i as int).push(bare[i as int]));
        i += 1;
    }
    assert(bare_rows(c, old_start as int, new_start as int).take(i as int) =~= bare_rows(
        c,
        old_start as int,
        new_start as int,
    ));
    annotate_word_level(&mut rows, max);
    proof {
        if plain(old) && plain(new) {
            law_rows_are_both_sides(
                c,
                old,
                new,
                old_start as int,
                new_start as int,
                max as nat,
            );
        }
    }
    rows
}

} // verus!
