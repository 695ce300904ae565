//! Level two of a diff: changed regions grown to whole paragraphs and merged,
//! so that a diff reads as "this paragraph was rewritten" instead of
//! interleaved line noise.
//!
//! Move detection is deliberately out of scope: a paragraph that moved is
//! reported as a delete plus an add.

use crate::diff::apply::{
    anchored, law_hunks_anchored, lemma_spans_of_hunks, matched, span_of, spans_of_hunks,
};
use crate::diff::blocks::{
    block_end, block_end_of, block_start, block_start_of, heading_before, nearest_heading,
};
use crate::diff::changes::comparable;
use crate::diff::ranges::{
    change_ranges, changed, comparable_lines, joined, lemma_line_count, plain, range_models, within,
    Range, RangeModel,
};
use crate::diff::rows::{
    all_but, both_sides, build_rows, lemma_cut_len, ranges_cover, row_models, rows_of, Row, RowKind,
    RowModel,
};
use crate::order::{in_order, lemma_sorted_map, lemma_sorted_multiset, sorted, stable_sort};
use crate::text::{decimal, decimal_of, holds, views};
use crate::util::{lemma_pieces_apart, lines_of, split_lines, unix_of};
use vstd::prelude::*;
use vstd::slice::slice_subrange;

verus! {

/// One reviewable unit. Accept and reject in the review view operate on these.
#[derive(Debug)]
pub struct Hunk {
    pub index: usize,
    pub old_start: usize,
    pub old_lines: usize,
    pub new_start: usize,
    pub new_lines: usize,
    /// Nearest preceding heading, the way git shows the enclosing function.
    pub header: String,
    pub added: usize,
    pub removed: usize,
    pub rows: Vec<Row>,
}

/// What a hunk holds.
pub struct HunkModel {
    pub index: int,
    pub old_start: int,
    pub old_lines: int,
    pub new_start: int,
    pub new_lines: int,
    pub header: Seq<char>,
    pub added: int,
    pub removed: int,
    pub rows: Seq<RowModel>,
}

impl View for Hunk {
    type V = HunkModel;

    open spec fn view(&self) -> HunkModel {
        HunkModel {
            index: self.index as int,
            old_start: self.old_start as int,
            old_lines: self.old_lines as int,
            new_start: self.new_start as int,
            new_lines: self.new_lines as int,
            header: self.header@,
            added: self.added as int,
            removed: self.removed as int,
            rows: row_models(self.rows@),
        }
    }
}

pub open spec fn hunk_models(hunks: Seq<Hunk>) -> Seq<HunkModel> {
    Seq::new(hunks.len(), |i: int| hunks[i]@)
}

/// The header line of a hunk, one-based as a reader sees it.
pub open spec fn range_header_of(
    old_start: nat,
    old_lines: nat,
    new_start: nat,
    new_lines: nat,
) -> Seq<char> {
    "@@ -"@ + decimal_of(old_start + 1) + ","@ + decimal_of(old_lines) + " +"@ + decimal_of(
        new_start + 1,
    ) + ","@ + decimal_of(new_lines) + " @@"@
}

/// Writes the header line of a hunk.
pub fn write_range_header(
    old_start: usize,
    old_lines: usize,
    new_start: usize,
    new_lines: usize,
) -> (out: String)
    requires
        old_start < usize::MAX,
        new_start < usize::MAX,
    ensures
        out@ == range_header_of(
            old_start as nat,
            old_lines as nat,
            new_start as nat,
            new_lines as nat,
        ),
{
    let mut out = "@@ -".to_owned();
    out.append(decimal(old_start as u64 + 1).as_str());
    out.append(",");
    out.append(decimal(old_lines as u64).as_str());
    out.append(" +");
    out.append(decimal(new_start as u64 + 1).as_str());
    out.append(",");
    out.append(decimal(new_lines as u64).as_str());
    out.append(" @@");
    out
}

impl Hunk {
    /// `@@ -a,b +c,d @@` as a reader sees it (1-based).
    pub fn range_header(&self) -> (out: String)
        requires
            self.old_start < usize::MAX,
            self.new_start < usize::MAX,
        ensures
            out@ == range_header_of(
                self.old_start as nat,
                self.old_lines as nat,
                self.new_start as nat,
                self.new_lines as nat,
            ),
    {
        write_range_header(self.old_start, self.old_lines, self.new_start, self.new_lines)
    }
}

/// A document compared with another.
#[derive(Debug)]
pub struct Diff {
    pub hunks: Vec<Hunk>,
    pub added: usize,
    pub removed: usize,
    /// True when either side is not text; assets are tracked but never diffed.
    pub binary: bool,
    pub old_line_count: usize,
    pub new_line_count: usize,
}

impl Diff {
    pub fn is_empty(&self) -> (out: bool)
        ensures
            out == (self.hunks@.len() == 0),
    {
        self.hunks.len() == 0
    }
}

#[derive(Debug, Clone, Copy, PartialEq, Eq, Structural)]
pub struct Options {
    /// Extra lines kept around a change after block expansion.
    pub context: usize,
    /// Above this, word-level highlighting is skipped: it is a nicety.
    pub word_level_max_bytes: usize,
}

impl Default for Options {
    fn default() -> (out: Options)
        ensures
            out == (Options { context: 1, word_level_max_bytes: 4096 }),
    {
        Options { context: 1, word_level_max_bytes: 4096 }
    }
}

// ---------------------------------------------------------------------------
// Growing and merging regions
// ---------------------------------------------------------------------------

pub open spec fn least(a: int, b: int) -> int {
    if a <= b {
        a
    } else {
        b
    }
}

pub open spec fn most(a: int, b: int) -> int {
    if a >= b {
        a
    } else {
        b
    }
}

/// How many lines a region grows backwards: to the start of its block on both
/// sides, at least the context, and no further than either document reaches.
#[verifier::opaque]
pub open spec fn back_of(
    r: RangeModel,
    old: Seq<Seq<char>>,
    new: Seq<Seq<char>>,
    context: int,
) -> int {
    let old_start = block_start_of(old, least(r.old_start, most(old.len() - 1, 0)));
    let new_start = block_start_of(new, least(r.new_start, most(new.len() - 1, 0)));
    least(
        least(most(least(r.old_start - old_start, r.new_start - new_start), context), r.old_start),
        r.new_start,
    )
}

/// How many lines a region grows forwards.
#[verifier::opaque]
pub open spec fn forward_of(
    r: RangeModel,
    old: Seq<Seq<char>>,
    new: Seq<Seq<char>>,
    context: int,
) -> int {
    let old_end = if r.old_end > r.old_start {
        block_end_of(old, r.old_end - 1)
    } else {
        r.old_end
    };
    let new_end = if r.new_end > r.new_start {
        block_end_of(new, r.new_end - 1)
    } else {
        r.new_end
    };
    least(
        least(
            most(least(most(old_end - r.old_end, 0), most(new_end - r.new_end, 0)), context),
            most(old.len() - r.old_end, 0),
        ),
        most(new.len() - r.new_end, 0),
    )
}

/// How many unchanged lines stand in front of region `i`, up to the region
/// before it.
pub open spec fn gap_before(ranges: Seq<RangeModel>, i: int) -> int {
    if i > 0 {
        most(ranges[i].old_start - ranges[i - 1].old_end, 0)
    } else {
        ranges[i].old_start
    }
}

/// How many unchanged lines stand behind region `i`, up to the next region.
pub open spec fn gap_behind(ranges: Seq<RangeModel>, i: int, old: Seq<Seq<char>>) -> int {
    if i + 1 < ranges.len() {
        most(ranges[i + 1].old_start - ranges[i].old_end, 0)
    } else {
        most(old.len() - ranges[i].old_end, 0)
    }
}

/// Region `i` grown by the same number of lines on both sides, and no further
/// than the changes before and behind it.
pub open spec fn grown(
    ranges: Seq<RangeModel>,
    i: int,
    old: Seq<Seq<char>>,
    new: Seq<Seq<char>>,
    context: int,
) -> RangeModel {
    let r = ranges[i];
    let back = least(back_of(r, old, new, context), gap_before(ranges, i));
    let forward = least(forward_of(r, old, new, context), gap_behind(ranges, i, old));
    RangeModel {
        old_start: r.old_start - back,
        old_end: r.old_end + forward,
        new_start: r.new_start - back,
        new_end: r.new_end + forward,
    }
}

/// Every region grown.
pub open spec fn all_grown(
    ranges: Seq<RangeModel>,
    old: Seq<Seq<char>>,
    new: Seq<Seq<char>>,
    context: int,
) -> Seq<RangeModel> {
    Seq::new(ranges.len(), |i: int| grown(ranges, i, old, new, context))
}

/// A region that grows keeps its changes, takes in as many lines on one side as
/// on the other, and keeps the context that is asked for: fewer lines only
/// where the documents, or the unchanged lines around it, end. Where both sides
/// allow it, it grows to the start and the end of the blocks it is in.
pub proof fn law_regions_keep_context(
    ranges: Seq<RangeModel>,
    i: int,
    old: Seq<Seq<char>>,
    new: Seq<Seq<char>>,
    context: int,
)
    requires
        0 <= i < ranges.len(),
        0 <= context,
        within(ranges[i], old.len() as int, new.len() as int),
    ensures
        ({
            let r = ranges[i];
            let g = grown(ranges, i, old, new, context);
            let back = r.old_start - g.old_start;
            let forward = g.old_end - r.old_end;
            let room = least(least(r.old_start, r.new_start), gap_before(ranges, i));
            let rest = least(
                least(old.len() - r.old_end, new.len() - r.new_end),
                gap_behind(ranges, i, old),
            );
            &&& r.new_start - g.new_start == back
            &&& g.new_end - r.new_end == forward
            &&& least(context, room) <= back <= room
            &&& least(context, rest) <= forward <= rest
            &&& 0 < r.old_start < old.len() && 0 < r.new_start < new.len() ==> back >= least(
                least(
                    r.old_start - block_start_of(old, r.old_start),
                    r.new_start - block_start_of(new, r.new_start),
                ),
                room,
            )
            &&& r.old_start < r.old_end && r.new_start < r.new_end ==> forward >= least(
                least(
                    block_end_of(old, r.old_end - 1) - r.old_end,
                    block_end_of(new, r.new_end - 1) - r.new_end,
                ),
                rest,
            )
        }),
{
    reveal(back_of);
    reveal(forward_of);
}

/// The order of regions: by their first old line.
pub open spec fn starts_first() -> spec_fn(RangeModel, RangeModel) -> bool {
    |a: RangeModel, b: RangeModel| a.old_start <= b.old_start
}

/// Regions that meet on both sides made one.
pub open spec fn merged(ranges: Seq<RangeModel>) -> Seq<RangeModel>
    decreases ranges.len(),
{
    if ranges.len() == 0 {
        ranges
    } else {
        let m = merged(ranges.drop_last());
        let r = ranges.last();
        if m.len() > 0 && r.old_start <= m.last().old_end && r.new_start <= m.last().new_end {
            m.update(
                m.len() - 1,
                RangeModel {
                    old_start: m.last().old_start,
                    old_end: most(m.last().old_end, r.old_end),
                    new_start: m.last().new_start,
                    new_end: most(m.last().new_end, r.new_end),
                },
            )
        } else {
            m.push(r)
        }
    }
}

/// The regions that become hunks.
pub open spec fn hunk_ranges(
    ranges: Seq<RangeModel>,
    old: Seq<Seq<char>>,
    new: Seq<Seq<char>>,
    context: int,
) -> Seq<RangeModel> {
    merged(sorted(all_grown(ranges, old, new, context), starts_first()))
}

/// How many rows are of a kind.
pub open spec fn count_kind(rows: Seq<RowModel>, kind: RowKind) -> int
    decreases rows.len(),
{
    if rows.len() == 0 {
        0
    } else {
        count_kind(rows.drop_last(), kind) + if rows.last().kind == kind {
            1int
        } else {
            0int
        }
    }
}

/// The lines from `from` to `to`, as far as there are any.
pub open spec fn cut(lines: Seq<Seq<char>>, from: int, to: int) -> Seq<Seq<char>> {
    let a = least(from, lines.len() as int);
    let b = least(to, lines.len() as int);
    if a <= b {
        lines.subrange(a, b)
    } else {
        Seq::empty()
    }
}

/// Hunk number `index`, for a region.
pub open spec fn hunk_of(
    index: int,
    r: RangeModel,
    old: Seq<Seq<char>>,
    new: Seq<Seq<char>>,
    opts: Options,
) -> HunkModel {
    let rows = rows_of(
        cut(old, r.old_start, r.old_end),
        cut(new, r.new_start, r.new_end),
        r.old_start,
        r.new_start,
        opts.word_level_max_bytes as nat,
    );
    HunkModel {
        index,
        old_start: r.old_start,
        old_lines: r.old_end - r.old_start,
        new_start: r.new_start,
        new_lines: r.new_end - r.new_start,
        header: heading_before(new, r.new_start),
        added: count_kind(rows, RowKind::Insert),
        removed: count_kind(rows, RowKind::Delete),
        rows,
    }
}

/// The hunks between two lists of lines.
pub open spec fn hunks_of(
    old: Seq<Seq<char>>,
    new: Seq<Seq<char>>,
    opts: Options,
) -> Seq<HunkModel> {
    let ranges = hunk_ranges(changed(old, new), old, new, opts.context as int);
    Seq::new(ranges.len(), |i: int| hunk_of(i, ranges[i], old, new, opts))
}

/// How many lines some hunks add.
pub open spec fn added_of(hunks: Seq<HunkModel>) -> int
    decreases hunks.len(),
{
    if hunks.len() == 0 {
        0
    } else {
        added_of(hunks.drop_last()) + hunks.last().added
    }
}

/// How many lines some hunks remove.
pub open spec fn removed_of(hunks: Seq<HunkModel>) -> int
    decreases hunks.len(),
{
    if hunks.len() == 0 {
        0
    } else {
        removed_of(hunks.drop_last()) + hunks.last().removed
    }
}

/// Does a hunk show what it covers? Its rows are the old and the new lines of
/// its region, it counts as added the rows that the old lines lack, as removed
/// those that the new lines lack, and it stands under the heading before it in
/// the new document.
pub open spec fn shows_region(h: HunkModel, old: Seq<Seq<char>>, new: Seq<Seq<char>>) -> bool {
    &&& 0 <= h.old_start <= h.old_start + h.old_lines <= old.len()
    &&& 0 <= h.new_start <= h.new_start + h.new_lines <= new.len()
    &&& both_sides(
        h.rows,
        old.subrange(h.old_start, h.old_start + h.old_lines),
        new.subrange(h.new_start, h.new_start + h.new_lines),
        h.old_start,
        h.new_start,
    )
    &&& ranges_cover(h.rows)
    &&& h.rows.len() == h.old_lines + h.added
    &&& h.rows.len() == h.new_lines + h.removed
    &&& h.header == heading_before(new, h.new_start)
}

/// Do some hunks show how two documents differ? Each shows its region, they are
/// numbered in order, and outside them the documents hold the same lines.
pub open spec fn shows_difference(
    hunks: Seq<HunkModel>,
    old: Seq<Seq<char>>,
    new: Seq<Seq<char>>,
) -> bool {
    &&& anchored(hunks, old, new)
    &&& forall|i: int|
        0 <= i < hunks.len() ==> (#[trigger] hunks[i]).index == i && shows_region(
            hunks[i],
            old,
            new,
        )
}

/// Is `d` the comparison of two lists of lines? The totals stop at the largest
/// number that a `usize` can hold.
pub open spec fn is_diff(
    d: Diff,
    old: Seq<Seq<char>>,
    new: Seq<Seq<char>>,
    opts: Options,
) -> bool {
    let hunks = hunks_of(old, new, opts);
    &&& hunk_models(d.hunks@) == hunks
    &&& d.added == least(added_of(hunks), usize::MAX as int)
    &&& d.removed == least(removed_of(hunks), usize::MAX as int)
    &&& !d.binary
    &&& d.old_line_count == old.len()
    &&& d.new_line_count == new.len()
    &&& plain(old) && plain(new) ==> shows_difference(hunk_models(d.hunks@), old, new)
        && d.new_line_count - d.old_line_count == d.added - d.removed
}

/// Rows of which some are left out are those that are left and those that are
/// not.
proof fn lemma_left_out(rows: Seq<RowModel>, kind: RowKind)
    ensures
        rows.len() == rows.filter(all_but(kind)).len() + count_kind(rows, kind),
        count_kind(rows, kind) >= 0,
    decreases rows.len(),
{
    reveal(Seq::filter);
    if rows.len() > 0 {
        lemma_left_out(rows.drop_last(), kind);
    }
}

/// A hunk whose rows are the two sides of its region shows the region: in
/// particular it adds as many lines more than it removes as the region has new
/// lines more than old ones.
proof fn lemma_shows_region(h: HunkModel, old: Seq<Seq<char>>, new: Seq<Seq<char>>)
    requires
        0 <= h.old_start <= h.old_start + h.old_lines <= old.len(),
        0 <= h.new_start <= h.new_start + h.new_lines <= new.len(),
        both_sides(
            h.rows,
            old.subrange(h.old_start, h.old_start + h.old_lines),
            new.subrange(h.new_start, h.new_start + h.new_lines),
            h.old_start,
            h.new_start,
        ),
        ranges_cover(h.rows),
        h.added == count_kind(h.rows, RowKind::Insert),
        h.removed == count_kind(h.rows, RowKind::Delete),
        h.header == heading_before(new, h.new_start),
    ensures
        shows_region(h, old, new),
{
    lemma_left_out(h.rows, RowKind::Insert);
    lemma_left_out(h.rows, RowKind::Delete);
}

/// Outside the hunks nothing is added and nothing removed, so their totals tell
/// how much longer the new document is.
proof fn lemma_totals(
    hunks: Seq<HunkModel>,
    old: Seq<Seq<char>>,
    new: Seq<Seq<char>>,
    o: int,
    n: int,
)
    requires
        matched(spans_of_hunks(hunks), old, new, o, n),
        forall|i: int| 0 <= i < hunks.len() ==> shows_region(#[trigger] hunks[i], old, new),
    ensures
        n - o == added_of(hunks) - removed_of(hunks),
        0 <= added_of(hunks) <= n,
        0 <= removed_of(hunks) <= o,
    decreases hunks.len(),
{
    if hunks.len() == 0 {
        assert(old.take(o).len() == new.take(n).len());
    } else {
        let h = hunks.last();
        let d = hunks.drop_last();
        let spans = spans_of_hunks(hunks);
        assert(spans.drop_last() =~= spans_of_hunks(d));
        assert(spans.last() == span_of(h));
        assert(shows_region(hunks[hunks.len() - 1], old, new));
        lemma_left_out(h.rows, RowKind::Insert);
        lemma_left_out(h.rows, RowKind::Delete);
        lemma_kind_bound(h.rows, RowKind::Insert, RowKind::Delete);
        lemma_kind_bound(h.rows, RowKind::Delete, RowKind::Insert);
        assert forall|i: int| 0 <= i < d.len() implies shows_region(#[trigger] d[i], old, new) by {
            assert(d[i] == hunks[i]);
        }
        let r = spans.last();
        assert(old.subrange(r.old_end, o).len() == new.subrange(r.new_end, n).len());
        lemma_totals(d, old, new, r.old_start, r.new_start);
    }
}

/// The rows of one kind are among those that are not of another.
proof fn lemma_kind_bound(rows: Seq<RowModel>, kind: RowKind, other: RowKind)
    requires
        kind != other,
    ensures
        count_kind(rows, kind) <= rows.filter(all_but(other)).len(),
    decreases rows.len(),
{
    reveal(Seq::filter);
    if rows.len() > 0 {
        lemma_kind_bound(rows.drop_last(), kind, other);
    }
}

/// A comparison shows the documents as they are: its hunks are the regions in
/// which they differ, with the lines of both sides, and putting the new lines
/// of every hunk in place of the old ones turns one document into the other.
/// So the totals are the difference in length, and a comparison without hunks
/// is of equal documents.
pub proof fn law_diff_shows_both_documents(
    d: Diff,
    old: Seq<Seq<char>>,
    new: Seq<Seq<char>>,
    opts: Options,
)
    requires
        is_diff(d, old, new, opts),
        plain(old),
        plain(new),
    ensures
        forall|i: int|
            0 <= i < d.hunks@.len() ==> ({
                let h = (#[trigger] d.hunks@[i])@;
                let left = h.rows.filter(all_but(RowKind::Insert));
                let right = h.rows.filter(all_but(RowKind::Delete));
                &&& left.len() == h.old_lines
                &&& right.len() == h.new_lines
                &&& forall|k: int|
                    0 <= k < left.len() ==> (#[trigger] left[k]).text == old[h.old_start + k]
                &&& forall|k: int|
                    0 <= k < right.len() ==> (#[trigger] right[k]).text == new[h.new_start + k]
                &&& h.new_lines - h.old_lines == h.added - h.removed
            }),
        new.len() - old.len() == d.added - d.removed,
        d.hunks@.len() == 0 ==> old == new,
{
    let hunks = hunk_models(d.hunks@);
    assert forall|i: int| 0 <= i < d.hunks@.len() implies ({
        let h = (#[trigger] d.hunks@[i])@;
        let left = h.rows.filter(all_but(RowKind::Insert));
        let right = h.rows.filter(all_but(RowKind::Delete));
        &&& left.len() == h.old_lines
        &&& right.len() == h.new_lines
        &&& forall|k: int|
            0 <= k < left.len() ==> (#[trigger] left[k]).text == old[h.old_start + k]
        &&& forall|k: int|
            0 <= k < right.len() ==> (#[trigger] right[k]).text == new[h.new_start + k]
        &&& h.new_lines - h.old_lines == h.added - h.removed
    }) by {
        let h = d.hunks@[i]@;
        assert(hunks[i] == h);
        assert(shows_region(hunks[i], old, new));
    }
    if d.hunks@.len() == 0 {
        assert(old.take(old.len() as int) =~= old);
        assert(new.take(new.len() as int) =~= new);
        assert(spans_of_hunks(hunks).len() == 0);
    }
}

fn smaller(a: usize, b: usize) -> (out: usize)
    ensures
        out == least(a as int, b as int),
{
    if a <= b {
        a
    } else {
        b
    }
}

fn larger(a: usize, b: usize) -> (out: usize)
    ensures
        out == most(a as int, b as int),
{
    if a >= b {
        a
    } else {
        b
    }
}

/// How many lines a region grows in both directions, were there no other.
fn appetite(
    r: &Range,
    old_lines: &[String],
    new_lines: &[String],
    context: usize,
) -> (out: (usize, usize))
    requires
        r.old_start <= r.old_end,
        r.new_start <= r.new_end,
    ensures
        out.0 == back_of(r@, views(old_lines@), views(new_lines@), context as int),
        out.1 == forward_of(r@, views(old_lines@), views(new_lines@), context as int),
        out.0 <= r.old_start,
        out.0 <= r.new_start,
        r.old_end + out.1 <= most(r.old_end as int, old_lines@.len() as int),
        r.new_end + out.1 <= most(r.new_end as int, new_lines@.len() as int),
        r.old_end + out.1 <= usize::MAX,
        r.new_end + out.1 <= usize::MAX,
{
    reveal(back_of);
    reveal(forward_of);
    let old_start: usize = block_start(
        old_lines,
        smaller(r.old_start, old_lines.len().saturating_sub(1)),
    );
    let old_end: usize = if r.old_end > r.old_start {
        block_end(old_lines, r.old_end - 1)
    } else {
        r.old_end
    };
    let new_start: usize = block_start(
        new_lines,
        smaller(r.new_start, new_lines.len().saturating_sub(1)),
    );
    let new_end: usize = if r.new_end > r.new_start {
        block_end(new_lines, r.new_end - 1)
    } else {
        r.new_end
    };
    let back: usize = smaller(
        smaller(
            larger(smaller(r.old_start - old_start, r.new_start - new_start), context),
            r.old_start,
        ),
        r.new_start,
    );
    let forward: usize = smaller(
        smaller(
            larger(
                smaller(old_end.saturating_sub(r.old_end), new_end.saturating_sub(r.new_end)),
                context,
            ),
            old_lines.len().saturating_sub(r.old_end),
        ),
        new_lines.len().saturating_sub(r.new_end),
    );
    (back, forward)
}

/// Grows a region to its blocks. The same number of unchanged lines is pulled
/// in on both sides: block expansion sets the appetite; the equal-length
/// constraint, the neighbouring changes and the ends of the documents set the
/// limit.
fn grow(
    ranges: &[Range],
    i: usize,
    old_lines: &[String],
    new_lines: &[String],
    context: usize,
) -> (out: Range)
    requires
        i < ranges@.len(),
        ranges@[i as int].old_start <= ranges@[i as int].old_end,
        ranges@[i as int].new_start <= ranges@[i as int].new_end,
    ensures
        out@ == grown(
            range_models(ranges@),
            i as int,
            views(old_lines@),
            views(new_lines@),
            context as int,
        ),
        out.old_start <= ranges@[i as int].old_start,
        out.new_start <= ranges@[i as int].new_start,
        ranges@[i as int].old_end <= out.old_end <= most(
            ranges@[i as int].old_end as int,
            old_lines@.len() as int,
        ),
        ranges@[i as int].new_end <= out.new_end <= most(
            ranges@[i as int].new_end as int,
            new_lines@.len() as int,
        ),
{
    let r: Range = ranges[i];
    let (back, forward) = appetite(&r, old_lines, new_lines, context);
    let before: usize = if i > 0 {
        r.old_start.saturating_sub(ranges[i - 1].old_end)
    } else {
        r.old_start
    };
    let behind: usize = if i < ranges.len() - 1 {
        ranges[i + 1].old_start.saturating_sub(r.old_end)
    } else {
        old_lines.len().saturating_sub(r.old_end)
    };
    let back: usize = smaller(back, before);
    let forward: usize = smaller(forward, behind);
    assert(range_models(ranges@)[i as int] == r@);
    Range {
        old_start: r.old_start - back,
        old_end: r.old_end + forward,
        new_start: r.new_start - back,
        new_end: r.new_end + forward,
    }
}

/// Does `a` start no later than `b`?
fn starts_no_later(a: &Range, b: &Range) -> (out: bool)
    ensures
        out == (a.old_start <= b.old_start),
{
    a.old_start <= b.old_start
}

/// Merges regions that meet on both sides.
fn merge(ranges: &Vec<Range>, Ghost(ob): Ghost<int>, Ghost(nb): Ghost<int>) -> (out: Vec<Range>)
    requires
        forall|k: int| 0 <= k < ranges@.len() ==> within(#[trigger] ranges@[k]@, ob, nb),
    ensures
        range_models(out@) == merged(range_models(ranges@)),
        forall|k: int| 0 <= k < out@.len() ==> within(#[trigger] out@[k]@, ob, nb),
        out@.len() <= ranges@.len(),
{
    let mut out: Vec<Range> = Vec::new();
    let mut i: usize = 0;
    let ghost all = range_models(ranges@);
    assert(range_models(out@) =~= all.take(0));
    while i < ranges.len()
        invariant
            all == range_models(ranges@),
            i <= ranges.len(),
            out.len() <= i,
            range_models(out@) == merged(all.take(i as int)),
            forall|k: int| 0 <= k < ranges@.len() ==> within(#[trigger] ranges@[k]@, ob, nb),
            forall|k: int| 0 <= k < out@.len() ==> within(#[trigger] out@[k]@, ob, nb),
        decreases ranges.len() - i,
    {
        let r: Range = ranges[i];
        let n: usize = out.len();
        let ghost before = range_models(out@);
        assert(all.take(i + 1).drop_last() =~= all.take(i as int));
        assert(all.take(i + 1).last() == r@);
        assert(within(ranges@[i as int]@, ob, nb));
        if n > 0 && r.old_start <= out[n - 1].old_end && r.new_start <= out[n - 1].new_end {
            let last: Range = out[n - 1];
            assert(within(out@[n - 1]@, ob, nb));
            let joined_range = Range {
                old_start: last.old_start,
                old_end: larger(last.old_end, r.old_end),
                new_start: last.new_start,
                new_end: larger(last.new_end, r.new_end),
            };
            out.set(n - 1, joined_range);
            assert(range_models(out@) =~= before.update(n - 1, joined_range@));
        } else {
            out.push(r);
            assert(range_models(out@) =~= before.push(r@));
        }
        i += 1;
    }
    assert(all.take(i as int) =~= all);
    out
}

/// How many rows are of a kind.
fn count_rows(rows: &Vec<Row>, kind: RowKind) -> (out: usize)
    ensures
        out == count_kind(row_models(rows@), kind),
{
    let mut n: usize = 0;
    let mut i: usize = 0;
    let ghost all = row_models(rows@);
    while i < rows.len()
        invariant
            all == row_models(rows@),
            n <= i <= rows.len(),
            n == count_kind(all.take(i as int), kind),
        decreases rows.len() - i,
    {
        assert(all.take(i + 1).drop_last() =~= all.take(i as int));
        if rows[i].kind == kind {
            n += 1;
        }
        i += 1;
    }
    assert(all.take(i as int) =~= all);
    n
}

/// The lines from `from` to `to`, as far as there are any.
pub fn cut_lines(lines: &[String], from: usize, to: usize) -> (out: &[String])
    ensures
        views(out@) == cut(views(lines@), from as int, to as int),
{
    let a: usize = smaller(from, lines.len());
    let b: usize = smaller(to, lines.len());
    let out = slice_subrange(lines, a, larger(a, b));
    assert(views(out@) =~= cut(views(lines@), from as int, to as int));
    out
}

/// Compares two lists of lines.
pub fn diff_lines(old_lines: &[String], new_lines: &[String], opts: Options) -> (out: Diff)
    requires
        comparable_lines(views(old_lines@), views(new_lines@)),
    ensures
        is_diff(out, views(old_lines@), views(new_lines@), opts),
        views(old_lines@) == views(new_lines@) ==> out.hunks@.len() == 0,
        plain(views(old_lines@)) && plain(views(new_lines@)) ==> anchored(
            hunk_models(out.hunks@),
            views(old_lines@),
            views(new_lines@),
        ),
{
    let ghost old = views(old_lines@);
    let ghost new = views(new_lines@);
    let ranges = change_ranges(old_lines, new_lines);
    let ghost ob = old.len() as int;
    let ghost nb = new.len() as int;
    proof {
        lemma_line_count(old);
        lemma_line_count(new);
    }
    proof {
        if plain(old) && plain(new) {
            law_hunks_anchored(changed(old, new), old, new, opts.context as int);
            lemma_spans_of_hunks(old, new, opts);
        }
    }
    let mut expanded: Vec<Range> = Vec::new();
    let mut i: usize = 0;
    while i < ranges.len()
        invariant
            old == views(old_lines@),
            new == views(new_lines@),
            ob == old.len(),
            nb == new.len(),
            i <= ranges.len(),
            expanded.len() == i,
            forall|k: int|
                0 <= k < ranges@.len() ==> within(#[trigger] ranges@[k]@, ob, nb),
            forall|k: int|
                0 <= k < i ==> (#[trigger] expanded@[k])@ == grown(
                    range_models(ranges@),
                    k,
                    old,
                    new,
                    opts.context as int,
                ),
            forall|k: int| 0 <= k < i ==> within((#[trigger] expanded@[k])@, ob, nb),
        decreases ranges.len() - i,
    {
        assert(within(ranges@[i as int]@, ob, nb));
        expanded.push(grow(&ranges, i, old_lines, new_lines, opts.context));
        i += 1;
    }
    let ghost grown_all = all_grown(changed(old, new), old, new, opts.context as int);
    let ghost unsorted = expanded@;
    proof {
        assert(range_models(unsorted) =~= grown_all) by {
            assert forall|k: int| 0 <= k < unsorted.len() implies range_models(unsorted)[k]
                == grown_all[k] by {
                assert(range_models(ranges@)[k] == ranges@[k]@);
            }
        }
    }
    let ghost by_start = |a: Range, b: Range| a.old_start <= b.old_start;
    let in_order = stable_sort(expanded, starts_no_later, Ghost(by_start));
    proof {
        let f = |r: Range| r@;
        lemma_sorted_map(unsorted, f, by_start, starts_first());
        assert(unsorted.map_values(f) =~= range_models(unsorted));
        assert(in_order@.map_values(f) =~= range_models(in_order@));
        lemma_sorted_multiset(unsorted, by_start);
        assert forall|k: int| 0 <= k < in_order@.len() implies within(
            #[trigger] in_order@[k]@,
            ob,
            nb,
        ) by {
            let x = in_order@[k];
            assert(in_order@.to_multiset().count(x) > 0) by {
                in_order@.to_multiset_ensures();
                assert(in_order@.contains(x));
            }
            unsorted.to_multiset_ensures();
            assert(unsorted.contains(x));
            let j = choose|j: int| 0 <= j < unsorted.len() && unsorted[j] == x;
            assert(within(unsorted[j]@, ob, nb));
        }
    }
    let regions = merge(&in_order, Ghost(ob), Ghost(nb));
    let ghost hunk_regions = hunk_ranges(changed(old, new), old, new, opts.context as int);
    let ghost goal = hunks_of(old, new, opts);
    let mut hunks: Vec<Hunk> = Vec::new();
    let mut added_total: usize = 0;
    let mut removed_total: usize = 0;
    let mut index: usize = 0;
    assert(hunk_models(hunks@) =~= goal.take(0));
    while index < regions.len()
        invariant
            old == views(old_lines@),
            new == views(new_lines@),
            comparable_lines(old, new),
            ob == old.len(),
            nb == new.len(),
            ob <= u32::MAX,
            nb <= u32::MAX,
            range_models(regions@) == hunk_regions,
            hunk_regions == hunk_ranges(changed(old, new), old, new, opts.context as int),
            goal == hunks_of(old, new, opts),
            index <= regions.len(),
            hunks.len() == index,
            hunk_models(hunks@) == goal.take(index as int),
            added_total == least(added_of(goal.take(index as int)), usize::MAX as int),
            removed_total == least(removed_of(goal.take(index as int)), usize::MAX as int),
            0 <= added_of(goal.take(index as int)),
            0 <= removed_of(goal.take(index as int)),
            forall|k: int| 0 <= k < regions@.len() ==> within(#[trigger] regions@[k]@, ob, nb),
            plain(old) && plain(new) ==> forall|k: int|
                0 <= k < index ==> shows_region(#[trigger] goal[k], old, new),
        decreases regions.len() - index,
    {
        let r: Range = regions[index];
        assert(within(regions@[index as int]@, ob, nb));
        assert(r@ == hunk_regions[index as int]);
        let old_part = cut_lines(old_lines, r.old_start, r.old_end);
        let new_part = cut_lines(new_lines, r.new_start, r.new_end);
        proof {
            lemma_cut_len(
                old,
                least(r.old_start as int, old.len() as int),
                least(r.old_end as int, old.len() as int),
            );
            lemma_cut_len(
                new,
                least(r.new_start as int, new.len() as int),
                least(r.new_end as int, new.len() as int),
            );
        }
        let rows = build_rows(
            old_part,
            new_part,
            r.old_start,
            r.new_start,
            opts.word_level_max_bytes,
        );
        let added: usize = count_rows(&rows, RowKind::Insert);
        let removed: usize = count_rows(&rows, RowKind::Delete);
        added_total = added_total.saturating_add(added);
        removed_total = removed_total.saturating_add(removed);
        let ghost before = hunk_models(hunks@);
        let hunk = Hunk {
            index,
            old_start: r.old_start,
            old_lines: r.old_end - r.old_start,
            new_start: r.new_start,
            new_lines: r.new_end - r.new_start,
            header: nearest_heading(new_lines, r.new_start),
            added,
            removed,
            rows,
        };
        assert(hunk@ == goal[index as int]);
        let ghost model = hunk@;
        proof {
            if plain(old) && plain(new) {
                let o = old.subrange(r.old_start as int, r.old_end as int);
                let n = new.subrange(r.new_start as int, r.new_end as int);
                assert(plain(o)) by {
                    assert forall|i: int| 0 <= i < o.len() implies !holds(
                        #[trigger] o[i],
                        '\n',
                    ) by {
                        assert(o[i] == old[r.old_start + i]);
                    }
                }
                assert(plain(n)) by {
                    assert forall|i: int| 0 <= i < n.len() implies !holds(
                        #[trigger] n[i],
                        '\n',
                    ) by {
                        assert(n[i] == new[r.new_start + i]);
                    }
                }
                lemma_shows_region(model, old, new);
            }
        }
        hunks.push(hunk);
        assert(hunk_models(hunks@) =~= before.push(model));
        assert(goal.take(index + 1) =~= goal.take(index as int).push(model));
        assert(goal.take(index + 1).drop_last() =~= goal.take(index as int));
        index += 1;
    }
    assert(goal.take(index as int) =~= goal);
    proof {
        if plain(old) && plain(new) {
            lemma_totals(goal, old, new, ob, nb);
        }
    }
    Diff {
        hunks,
        added: added_total,
        removed: removed_total,
        binary: false,
        old_line_count: old_lines.len(),
        new_line_count: new_lines.len(),
    }
}

/// Compares two documents.
pub fn diff_text_with(old: &str, new: &str, opts: Options) -> (out: Diff)
    requires
        comparable(old@, new@),
    ensures
        is_diff(out, lines_of(old@), lines_of(new@), opts),
        lines_of(old@) == lines_of(new@) ==> out.hunks@.len() == 0,
        anchored(hunk_models(out.hunks@), lines_of(old@), lines_of(new@)),
{
    let (old_lines, _) = split_lines(old);
    let (new_lines, _) = split_lines(new);
    proof {
        lemma_joined_len(old@);
        lemma_joined_len(new@);
        lemma_plain(old@);
        lemma_plain(new@);
    }
    diff_lines(&old_lines, &new_lines, opts)
}

/// Compares two documents the way the review view shows them.
pub fn diff_text(old: &str, new: &str) -> (out: Diff)
    requires
        comparable(old@, new@),
    ensures
        is_diff(
            out,
            lines_of(old@),
            lines_of(new@),
            (Options { context: 1, word_level_max_bytes: 4096 }),
        ),
        lines_of(old@) == lines_of(new@) ==> out.hunks@.len() == 0,
        anchored(hunk_models(out.hunks@), lines_of(old@), lines_of(new@)),
{
    diff_text_with(old, new, Options::default())
}

/// The lines of a document, joined, are no longer than the document.
pub proof fn lemma_joined_len(text: Seq<char>)
    ensures
        joined(lines_of(text)).len() <= text.len(),
{
    reveal_strlit("\n");
    crate::util::law_lines_round_trip(text);
    crate::util::lemma_unix_len(text);
    assert("\n"@ =~= seq!['\n']);
}

/// The lines of a document hold no newline.
pub proof fn lemma_plain(text: Seq<char>)
    ensures
        plain(lines_of(text)),
{
    let n = unix_of(text);
    lemma_pieces_apart(n, '\n');
    if n.len() > 0 {
        lemma_pieces_apart(n.drop_last(), '\n');
    }
}

/// Is an old line in one of some regions?
pub open spec fn covered(ranges: Seq<RangeModel>, line: int) -> bool {
    exists|i: int|
        0 <= i < ranges.len() && (#[trigger] ranges[i]).old_start <= line < ranges[i].old_end
}

/// Regions in order that are merged cover the lines that they covered before,
/// and no other; and of two that stay apart the second starts behind the first
/// on one side or the other.
pub proof fn law_merged_regions(ranges: Seq<RangeModel>, line: int)
    requires
        in_order(ranges, starts_first()),
        forall|i: int|
            0 <= i < ranges.len() ==> (#[trigger] ranges[i]).old_start <= ranges[i].old_end,
    ensures
        covered(merged(ranges), line) <==> covered(ranges, line),
        forall|k: int|
            0 < k < merged(ranges).len() ==> merged(ranges)[k - 1].old_end < (
            #[trigger] merged(ranges)[k]).old_start || merged(ranges)[k - 1].new_end
                < merged(ranges)[k].new_start,
        merged(ranges).len() > 0 <==> ranges.len() > 0,
        merged(ranges).len() > 0 ==> merged(ranges).last().old_start <= ranges.last().old_start
            && merged(ranges).last().old_start <= merged(ranges).last().old_end,
    decreases ranges.len(),
{
    if ranges.len() > 0 {
        let d = ranges.drop_last();
        let r = ranges.last();
        let n = ranges.len() - 1;
        assert(ranges[n] == r);
        assert(in_order(d, starts_first())) by {
            assert forall|i: int, j: int| 0 <= i < j < d.len() implies starts_first()(
                #[trigger] d[i],
                #[trigger] d[j],
            ) by {
                assert(starts_first()(ranges[i], ranges[j]));
            }
        }
        assert forall|i: int| 0 <= i < d.len() implies (#[trigger] d[i]).old_start
            <= d[i].old_end by {
            assert(d[i] == ranges[i]);
        }
        law_merged_regions(d, line);
        let m = merged(d);
        let out = merged(ranges);
        if d.len() > 0 {
            assert(starts_first()(ranges[n - 1], ranges[n]));
            assert(d.last() == ranges[n - 1]);
        }
        assert(covered(ranges, line) <==> covered(d, line) || r.old_start <= line < r.old_end) by {
            if covered(d, line) {
                let i = choose|i: int|
                    0 <= i < d.len() && (#[trigger] d[i]).old_start <= line < d[i].old_end;
                assert(ranges[i] == d[i]);
            }
            if covered(ranges, line) {
                let i = choose|i: int|
                    0 <= i < ranges.len() && (#[trigger] ranges[i]).old_start <= line
                        < ranges[i].old_end;
                if i < n {
                    assert(d[i] == ranges[i]);
                }
            }
        }
        if m.len() > 0 && r.old_start <= m.last().old_end && r.new_start <= m.last().new_end {
            let k = m.len() - 1;
            let joint = out[k];
            assert(m[k] == m.last());
            if covered(m, line) {
                let i = choose|i: int|
                    0 <= i < m.len() && (#[trigger] m[i]).old_start <= line < m[i].old_end;
                if i < k {
                    assert(out[i] == m[i]);
                } else {
                    assert(joint.old_start <= line < joint.old_end);
                }
            }
            if r.old_start <= line < r.old_end {
                assert(joint.old_start <= line < joint.old_end);
            }
            if covered(out, line) && !covered(m, line) {
                let i = choose|i: int|
                    0 <= i < out.len() && (#[trigger] out[i]).old_start <= line < out[i].old_end;
                if i < k {
                    assert(m[i] == out[i]);
                } else {
                    assert(!(m[k].old_start <= line < m[k].old_end));
                }
            }
            assert forall|q: int| 0 < q < out.len() implies out[q - 1].old_end < (
            #[trigger] out[q]).old_start || out[q - 1].new_end < out[q].new_start by {
                assert(m[q - 1].old_end < m[q].old_start || m[q - 1].new_end < m[q].new_start);
            }
        } else {
            assert(out == m.push(r));
            if covered(m, line) {
                let i = choose|i: int|
                    0 <= i < m.len() && (#[trigger] m[i]).old_start <= line < m[i].old_end;
                assert(out[i] == m[i]);
            }
            if r.old_start <= line < r.old_end {
                assert(out[m.len() as int] == r);
            }
            if covered(out, line) && !covered(m, line) {
                let i = choose|i: int|
                    0 <= i < out.len() && (#[trigger] out[i]).old_start <= line < out[i].old_end;
                if i < m.len() {
                    assert(m[i] == out[i]);
                }
            }
            assert forall|q: int| 0 < q < out.len() implies out[q - 1].old_end < (
            #[trigger] out[q]).old_start || out[q - 1].new_end < out[q].new_start by {
                if q < m.len() {
                    assert(m[q - 1].old_end < m[q].old_start || m[q - 1].new_end < m[q].new_start);
                }
            }
        }
    }
}

} // verus!
