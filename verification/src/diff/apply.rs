//! Hunk-level apply: the review view's accept and reject.

use crate::diff::hunks::{
    all_grown, back_of, cut, cut_lines, forward_of, gap_before, gap_behind, grown, hunk_models,
    hunk_ranges, hunks_of, least, merged, starts_first, Diff, Hunk, HunkModel, Options,
};
use crate::diff::ranges::{aligned, changed, RangeModel};
use crate::order::{in_order, lemma_sorted_id};
use crate::text::views;
use crate::util::{
    document_of, dominant_newline, ends_in_newline, join_lines, law_lines_round_trip, lines_of,
    newline_of, split_lines, unix_of,
};
use vstd::prelude::*;

verus! {

/// Is a hunk among the accepted ones?
pub open spec fn taken(h: HunkModel, accepted: Seq<usize>) -> bool {
    exists|k: int| 0 <= k < accepted.len() && #[trigger] accepted[k] == h.index
}

/// Are all the hunks among the accepted ones?
pub open spec fn all_taken(hunks: Seq<HunkModel>, accepted: Seq<usize>) -> bool {
    forall|i: int| 0 <= i < hunks.len() ==> taken(#[trigger] hunks[i], accepted)
}

/// The lines that one hunk leaves in its place: the new ones if it was
/// accepted, else the old ones.
pub open spec fn outcome(
    h: HunkModel,
    accepted: Seq<usize>,
    old: Seq<Seq<char>>,
    new: Seq<Seq<char>>,
) -> Seq<Seq<char>> {
    if taken(h, accepted) {
        cut(new, h.new_start, h.new_start + h.new_lines)
    } else {
        cut(old, h.old_start, h.old_start + h.old_lines)
    }
}

/// The lines up to the end of the last hunk: the old lines between the hunks,
/// and each hunk's outcome.
pub open spec fn applied(
    hunks: Seq<HunkModel>,
    accepted: Seq<usize>,
    old: Seq<Seq<char>>,
    new: Seq<Seq<char>>,
) -> Seq<Seq<char>>
    decreases hunks.len(),
{
    if hunks.len() == 0 {
        Seq::empty()
    } else {
        let h = hunks.last();
        applied(hunks.drop_last(), accepted, old, new) + cut(
            old,
            end_of(hunks.drop_last()),
            h.old_start,
        ) + outcome(h, accepted, old, new)
    }
}

/// The old line behind the last hunk.
pub open spec fn end_of(hunks: Seq<HunkModel>) -> int {
    if hunks.len() == 0 {
        0
    } else {
        hunks.last().old_start + hunks.last().old_lines
    }
}

/// All the lines of the outcome.
pub open spec fn applied_lines(
    hunks: Seq<HunkModel>,
    accepted: Seq<usize>,
    old: Seq<Seq<char>>,
    new: Seq<Seq<char>>,
) -> Seq<Seq<char>> {
    applied(hunks, accepted, old, new) + cut(old, end_of(hunks), old.len() as int)
}

/// The document that remains when some hunks are accepted. It keeps the old
/// newlines; whether it ends with one follows the new document if every hunk
/// was accepted, else the old one.
pub open spec fn applied_text(
    old: Seq<char>,
    new: Seq<char>,
    hunks: Seq<HunkModel>,
    accepted: Seq<usize>,
) -> Seq<char> {
    document_of(
        applied_lines(hunks, accepted, lines_of(old), lines_of(new)),
        if all_taken(hunks, accepted) {
            ends_in_newline(new)
        } else {
            ends_in_newline(old)
        },
        newline_of(old),
    )
}

fn is_taken(index: usize, accepted: &[usize]) -> (out: bool)
    ensures
        out == (exists|k: int| 0 <= k < accepted@.len() && #[trigger] accepted@[k] == index),
{
    let mut i: usize = 0;
    while i < accepted.len()
        invariant
            i <= accepted.len(),
            forall|k: int| 0 <= k < i ==> #[trigger] accepted@[k] != index,
        decreases accepted.len() - i,
    {
        if accepted[i] == index {
            return true;
        }
        i += 1;
    }
    false
}

/// Appends copies of some lines.
pub fn extend_lines(out: &mut Vec<String>, lines: &[String])
    ensures
        views(final(out)@) == views(old(out)@) + views(lines@),
{
    let ghost before = views(out@);
    let mut i: usize = 0;
    while i < lines.len()
        invariant
            i <= lines.len(),
            views(out@) == before + views(lines@).take(i as int),
        decreases lines.len() - i,
    {
        let ghost now = views(out@);
        let line = lines[i].clone();
        let ghost l = line@;
        out.push(line);
        assert(views(out@) =~= now.push(l));
        assert(views(lines@).take(i + 1) =~= views(lines@).take(i as int).push(l));
        i += 1;
    }
    assert(views(lines@).take(i as int) =~= views(lines@));
}

/// Applies only the accepted hunks of `diff` to `old`, taking the rejected
/// regions from `old` unchanged.
pub fn apply_hunks(old: &str, new: &str, diff: &Diff, accepted: &[usize]) -> (out: String)
    ensures
        out@ == applied_text(old@, new@, hunk_models(diff.hunks@), accepted@),
{
    let (old_lines, old_trailing) = split_lines(old);
    let (new_lines, new_trailing) = split_lines(new);
    let newline = dominant_newline(old);
    let ghost hunks = hunk_models(diff.hunks@);
    let mut out: Vec<String> = Vec::new();
    let mut cursor: usize = 0;
    let mut took_all = true;
    let mut i: usize = 0;
    assert(views(out@) =~= Seq::<Seq<char>>::empty());
    assert(hunks.take(0).len() == 0);
    while i < diff.hunks.len()
        invariant
            hunks == hunk_models(diff.hunks@),
            views(old_lines@) == lines_of(old@),
            views(new_lines@) == lines_of(new@),
            i <= diff.hunks.len(),
            views(out@) == applied(hunks.take(i as int), accepted@, lines_of(old@), lines_of(new@)),
            cursor as int == least(
                end_of(hunks.take(i as int)),
                usize::MAX as int,
            ),
            took_all == all_taken(hunks.take(i as int), accepted@),
        decreases diff.hunks.len() - i,
    {
        let hunk: &Hunk = &diff.hunks[i];
        let ghost h = hunks[i as int];
        assert(h == hunk@);
        let ghost so_far = hunks.take(i as int);
        let ghost next = hunks.take(i + 1);
        assert(next.drop_last() =~= so_far);
        assert(next.last() == h);
        let old_len: usize = old_lines.len();
        let new_len: usize = new_lines.len();
        extend_lines(&mut out, cut_lines(&old_lines, cursor, hunk.old_start));
        assert(cut(lines_of(old@), cursor as int, h.old_start) =~= cut(
            lines_of(old@),
            end_of(so_far),
            h.old_start,
        ));
        if is_taken(hunk.index, accepted) {
            let end: usize = hunk.new_start.saturating_add(hunk.new_lines);
            extend_lines(&mut out, cut_lines(&new_lines, hunk.new_start, end));
            assert(cut(lines_of(new@), h.new_start, end as int) =~= cut(
                lines_of(new@),
                h.new_start,
                h.new_start + h.new_lines,
            )) by {
                assert(new_len == lines_of(new@).len());
            }
            assert(taken(h, accepted@));
        } else {
            took_all = false;
            let end: usize = hunk.old_start.saturating_add(hunk.old_lines);
            extend_lines(&mut out, cut_lines(&old_lines, hunk.old_start, end));
            assert(cut(lines_of(old@), h.old_start, end as int) =~= cut(
                lines_of(old@),
                h.old_start,
                h.old_start + h.old_lines,
            )) by {
                assert(old_len == lines_of(old@).len());
            }
            assert(!taken(next[i as int], accepted@));
        }
        assert(took_all == all_taken(next, accepted@)) by {
            if took_all {
                assert forall|k: int| 0 <= k < next.len() implies taken(
                    #[trigger] next[k],
                    accepted@,
                ) by {
                    if k < i {
                        assert(next[k] == so_far[k]);
                    }
                }
            } else if taken(h, accepted@) {
                let k = choose|k: int| 0 <= k < so_far.len() && !taken(#[trigger] so_far[k], accepted@);
                assert(next[k] == so_far[k]);
            }
        }
        cursor = hunk.old_start.saturating_add(hunk.old_lines);
        i += 1;
    }
    assert(hunks.take(i as int) =~= hunks);
    let old_len: usize = old_lines.len();
    extend_lines(&mut out, cut_lines(&old_lines, cursor, old_len));
    assert(cut(lines_of(old@), cursor as int, old_len as int) =~= cut(
        lines_of(old@),
        end_of(hunks),
        old_len as int,
    ));
    // The trailing-newline convention follows whichever side was trusted.
    let trailing = if took_all {
        new_trailing
    } else {
        old_trailing
    };
    join_lines(&out, trailing, newline)
}

// ---------------------------------------------------------------------------
// What accepting and rejecting promise
// ---------------------------------------------------------------------------

/// The region that a hunk covers.
pub open spec fn span_of(h: HunkModel) -> RangeModel {
    RangeModel {
        old_start: h.old_start,
        old_end: h.old_start + h.old_lines,
        new_start: h.new_start,
        new_end: h.new_start + h.new_lines,
    }
}

/// The regions that some hunks cover.
pub open spec fn spans_of_hunks(hunks: Seq<HunkModel>) -> Seq<RangeModel> {
    Seq::new(hunks.len(), |i: int| span_of(hunks[i]))
}

/// The regions lie in order, and outside them, up to old line `o` and new line
/// `n`, the two lists hold the same lines.
pub open spec fn matched(
    ranges: Seq<RangeModel>,
    old: Seq<Seq<char>>,
    new: Seq<Seq<char>>,
    o: int,
    n: int,
) -> bool
    decreases ranges.len(),
{
    &&& 0 <= o <= old.len()
    &&& 0 <= n <= new.len()
    &&& if ranges.len() == 0 {
        old.take(o) == new.take(n)
    } else {
        let r = ranges.last();
        &&& 0 <= r.old_start <= r.old_end <= o
        &&& 0 <= r.new_start <= r.new_end <= n
        &&& old.subrange(r.old_end, o) == new.subrange(r.new_end, n)
        &&& matched(ranges.drop_last(), old, new, r.old_start, r.new_start)
    }
}

/// Outside the hunks the two documents hold the same lines.
pub open spec fn anchored(
    hunks: Seq<HunkModel>,
    old: Seq<Seq<char>>,
    new: Seq<Seq<char>>,
) -> bool {
    matched(spans_of_hunks(hunks), old, new, old.len() as int, new.len() as int)
}

/// Accepting no hunk leaves the old lines.
pub proof fn law_reject_all(
    hunks: Seq<HunkModel>,
    accepted: Seq<usize>,
    old: Seq<Seq<char>>,
    new: Seq<Seq<char>>,
)
    requires
        anchored(hunks, old, new),
        forall|i: int| 0 <= i < hunks.len() ==> !taken(#[trigger] hunks[i], accepted),
    ensures
        applied_lines(hunks, accepted, old, new) == old,
{
    lemma_reject(hunks, accepted, old, new, old.len() as int, new.len() as int);
    assert(old.take(old.len() as int) =~= old);
}

proof fn lemma_reject(
    hunks: Seq<HunkModel>,
    accepted: Seq<usize>,
    old: Seq<Seq<char>>,
    new: Seq<Seq<char>>,
    o: int,
    n: int,
)
    requires
        matched(spans_of_hunks(hunks), old, new, o, n),
        forall|i: int| 0 <= i < hunks.len() ==> !taken(#[trigger] hunks[i], accepted),
    ensures
        applied(hunks, accepted, old, new) + cut(old, end_of(hunks), o) == old.take(o),
    decreases hunks.len(),
{
    if hunks.len() == 0 {
        assert(cut(old, 0, o) =~= old.take(o));
    } else {
        let h = hunks.last();
        let d = hunks.drop_last();
        assert(spans_of_hunks(hunks).drop_last() =~= spans_of_hunks(d));
        assert(spans_of_hunks(hunks).last() == span_of(h));
        assert forall|i: int| 0 <= i < d.len() implies !taken(#[trigger] d[i], accepted) by {
            assert(d[i] == hunks[i]);
        }
        lemma_reject(d, accepted, old, new, h.old_start, h.new_start);
        assert(!taken(hunks[hunks.len() - 1], accepted));
        assert(applied(hunks, accepted, old, new) + cut(old, end_of(hunks), o) =~= (applied(
            d,
            accepted,
            old,
            new,
        ) + cut(old, end_of(d), h.old_start)) + (cut(old, h.old_start, end_of(hunks)) + cut(
            old,
            end_of(hunks),
            o,
        )));
        assert(old.take(h.old_start) + (cut(old, h.old_start, end_of(hunks)) + cut(
            old,
            end_of(hunks),
            o,
        )) =~= old.take(o));
    }
}

/// Accepting every hunk gives the new lines.
pub proof fn law_accept_all(
    hunks: Seq<HunkModel>,
    accepted: Seq<usize>,
    old: Seq<Seq<char>>,
    new: Seq<Seq<char>>,
)
    requires
        anchored(hunks, old, new),
        all_taken(hunks, accepted),
    ensures
        applied_lines(hunks, accepted, old, new) == new,
{
    lemma_accept(hunks, accepted, old, new, old.len() as int, new.len() as int);
    assert(new.take(new.len() as int) =~= new);
}

proof fn lemma_accept(
    hunks: Seq<HunkModel>,
    accepted: Seq<usize>,
    old: Seq<Seq<char>>,
    new: Seq<Seq<char>>,
    o: int,
    n: int,
)
    requires
        matched(spans_of_hunks(hunks), old, new, o, n),
        all_taken(hunks, accepted),
    ensures
        applied(hunks, accepted, old, new) + cut(old, end_of(hunks), o) == new.take(n),
    decreases hunks.len(),
{
    if hunks.len() == 0 {
        assert(cut(old, 0, o) =~= old.take(o));
    } else {
        let h = hunks.last();
        let d = hunks.drop_last();
        assert(spans_of_hunks(hunks).drop_last() =~= spans_of_hunks(d));
        assert(spans_of_hunks(hunks).last() == span_of(h));
        assert forall|i: int| 0 <= i < d.len() implies taken(#[trigger] d[i], accepted) by {
            assert(d[i] == hunks[i]);
        }
        lemma_accept(d, accepted, old, new, h.old_start, h.new_start);
        assert(taken(hunks[hunks.len() - 1], accepted));
        let new_end = h.new_start + h.new_lines;
        assert(cut(old, end_of(hunks), o) == new.subrange(new_end, n));
        assert(applied(hunks, accepted, old, new) + cut(old, end_of(hunks), o) =~= (applied(
            d,
            accepted,
            old,
            new,
        ) + cut(old, end_of(d), h.old_start)) + (cut(new, h.new_start, new_end) + new.subrange(
            new_end,
            n,
        )));
        assert(new.take(h.new_start) + (cut(new, h.new_start, new_end) + new.subrange(new_end, n))
            =~= new.take(n));
    }
}

/// Accepting every hunk gives the new document, in the old document's
/// newlines.
pub proof fn law_accept_all_text(
    old: Seq<char>,
    new: Seq<char>,
    hunks: Seq<HunkModel>,
    accepted: Seq<usize>,
)
    requires
        anchored(hunks, lines_of(old), lines_of(new)),
        all_taken(hunks, accepted),
    ensures
        applied_text(old, new, hunks, accepted) == document_of(
            lines_of(new),
            ends_in_newline(new),
            newline_of(old),
        ),
        newline_of(old) == "\n"@ ==> applied_text(old, new, hunks, accepted) == unix_of(new),
{
    reveal_strlit("\n");
    law_accept_all(hunks, accepted, lines_of(old), lines_of(new));
    law_lines_round_trip(new);
    assert("\n"@ =~= seq!['\n']);
}

/// Rejecting every hunk gives the old document.
pub proof fn law_reject_all_text(
    old: Seq<char>,
    new: Seq<char>,
    hunks: Seq<HunkModel>,
    accepted: Seq<usize>,
)
    requires
        anchored(hunks, lines_of(old), lines_of(new)),
        hunks.len() > 0,
        forall|i: int| 0 <= i < hunks.len() ==> !taken(#[trigger] hunks[i], accepted),
    ensures
        applied_text(old, new, hunks, accepted) == document_of(
            lines_of(old),
            ends_in_newline(old),
            newline_of(old),
        ),
        newline_of(old) == "\n"@ ==> applied_text(old, new, hunks, accepted) == unix_of(old),
{
    reveal_strlit("\n");
    law_reject_all(hunks, accepted, lines_of(old), lines_of(new));
    law_lines_round_trip(old);
    assert("\n"@ =~= seq!['\n']);
    assert(!taken(hunks[0], accepted));
}

/// What `aligned` says of each region by its number.
proof fn lemma_aligned_index(
    ranges: Seq<RangeModel>,
    old: Seq<Seq<char>>,
    new: Seq<Seq<char>>,
    o: int,
    n: int,
    i: int,
)
    requires
        aligned(ranges, old, new, o, n),
        0 <= i < ranges.len(),
    ensures
        o <= ranges[i].old_start <= ranges[i].old_end <= old.len(),
        n <= ranges[i].new_start <= ranges[i].new_end <= new.len(),
        i == 0 ==> old.subrange(o, ranges[0].old_start) == new.subrange(n, ranges[0].new_start),
        i > 0 ==> ranges[i - 1].old_end <= ranges[i].old_start && ranges[i - 1].new_end
            <= ranges[i].new_start && old.subrange(ranges[i - 1].old_end, ranges[i].old_start)
            == new.subrange(ranges[i - 1].new_end, ranges[i].new_start),
        i == ranges.len() - 1 ==> old.skip(ranges[i].old_end) == new.skip(ranges[i].new_end),
    decreases ranges.len(),
{
    let r = ranges[0];
    let rest = ranges.skip(1);
    assert(aligned(rest, old, new, r.old_end, r.new_end));
    if i == 0 {
        if ranges.len() > 1 {
            lemma_aligned_index(rest, old, new, r.old_end, r.new_end, 0);
        }
    } else {
        lemma_aligned_index(rest, old, new, r.old_end, r.new_end, i - 1);
        assert(rest[i - 1] == ranges[i]);
        if i > 1 {
            assert(rest[i - 2] == ranges[i - 1]);
        }
    }
}

/// A part of equal stretches is equal.
proof fn lemma_part_equal(
    old: Seq<Seq<char>>,
    new: Seq<Seq<char>>,
    o: int,
    n: int,
    len: int,
    from: int,
    to: int,
)
    requires
        0 <= from <= to <= len,
        0 <= o && o + len <= old.len(),
        0 <= n && n + len <= new.len(),
        old.subrange(o, o + len) == new.subrange(n, n + len),
    ensures
        old.subrange(o + from, o + to) == new.subrange(n + from, n + to),
{
    assert(old.subrange(o + from, o + to) =~= old.subrange(o, o + len).subrange(from, to));
    assert(new.subrange(n + from, n + to) =~= new.subrange(n, n + len).subrange(from, to));
}

/// How far region `i` of aligned regions grows: no further than the unchanged
/// lines around it, on both sides.
proof fn lemma_growth(
    ranges: Seq<RangeModel>,
    old: Seq<Seq<char>>,
    new: Seq<Seq<char>>,
    context: int,
    i: int,
) -> (out: (int, int))
    requires
        aligned(ranges, old, new, 0, 0),
        0 <= i < ranges.len(),
        context >= 0,
    ensures
        ({
            let (back, forward) = out;
            let r = ranges[i];
            &&& grown(ranges, i, old, new, context) == (RangeModel {
                old_start: r.old_start - back,
                old_end: r.old_end + forward,
                new_start: r.new_start - back,
                new_end: r.new_end + forward,
            })
            &&& 0 <= back <= r.old_start
            &&& back <= r.new_start
            &&& 0 <= forward <= old.len() - r.old_end
            &&& forward <= new.len() - r.new_end
            &&& i > 0 ==> back <= r.old_start - ranges[i - 1].old_end
            &&& i + 1 < ranges.len() ==> forward <= ranges[i + 1].old_start - r.old_end
        }),
{
    reveal(back_of);
    reveal(forward_of);
    lemma_aligned_index(ranges, old, new, 0, 0, i);
    if i + 1 < ranges.len() {
        lemma_aligned_index(ranges, old, new, 0, 0, i + 1);
    }
    let r = ranges[i];
    (
        least(back_of(r, old, new, context), gap_before(ranges, i)),
        least(forward_of(r, old, new, context), gap_behind(ranges, i, old)),
    )
}

/// The grown regions merged so far match up to the end of the last one.
proof fn lemma_merged_matched(
    ranges: Seq<RangeModel>,
    old: Seq<Seq<char>>,
    new: Seq<Seq<char>>,
    context: int,
    k: int,
)
    requires
        aligned(ranges, old, new, 0, 0),
        context >= 0,
        0 < k <= ranges.len(),
    ensures
        ({
            let g = all_grown(ranges, old, new, context);
            let m = merged(g.take(k));
            &&& m.len() > 0
            &&& m.last().old_end == g[k - 1].old_end
            &&& m.last().new_end == g[k - 1].new_end
            &&& matched(m, old, new, g[k - 1].old_end, g[k - 1].new_end)
        }),
    decreases k,
{
    let g = all_grown(ranges, old, new, context);
    let r = ranges[k - 1];
    let e = g[k - 1];
    lemma_aligned_index(ranges, old, new, 0, 0, k - 1);
    let (back, forward) = lemma_growth(ranges, old, new, context, k - 1);
    let m = merged(g.take(k));
    assert(g.take(k).drop_last() =~= g.take(k - 1));
    assert(g.take(k).last() == e);
    assert(old.subrange(e.old_end, e.old_end) =~= new.subrange(e.new_end, e.new_end));
    if k == 1 {
        assert(merged(g.take(0)).len() == 0);
        assert(m =~= seq![e]);
        assert(m.drop_last() =~= Seq::<RangeModel>::empty());
        assert(old.subrange(0, r.old_start).len() == new.subrange(0, r.new_start).len());
        lemma_part_equal(old, new, 0, 0, r.old_start, 0, e.old_start);
        assert(old.take(e.old_start) =~= old.subrange(0, e.old_start));
        assert(new.take(e.new_start) =~= new.subrange(0, e.new_start));
        assert(matched(m.drop_last(), old, new, e.old_start, e.new_start));
    } else {
        lemma_merged_matched(ranges, old, new, context, k - 1);
        let before = merged(g.take(k - 1));
        let q = ranges[k - 2];
        let p = g[k - 2];
        lemma_aligned_index(ranges, old, new, 0, 0, k - 2);
        let (_, f) = lemma_growth(ranges, old, new, context, k - 2);
        let gap = r.old_start - q.old_end;
        assert(old.subrange(q.old_end, r.old_start).len() == new.subrange(
            q.new_end,
            r.new_start,
        ).len());
        assert(r.new_start - q.new_end == gap);
        assert(f <= gap && back <= gap);
        assert(p.old_end == q.old_end + f && p.new_end == q.new_end + f);
        assert(matched(before, old, new, p.old_end, p.new_end));
        if e.old_start <= p.old_end && e.new_start <= p.new_end {
            assert(m.drop_last() =~= before.drop_last());
            assert(m.last().old_end == e.old_end && m.last().new_end == e.new_end);
            assert(matched(m.drop_last(), old, new, m.last().old_start, m.last().new_start));
        } else {
            assert(m =~= before.push(e));
            assert(m.drop_last() =~= before);
            lemma_part_equal(old, new, q.old_end, q.new_end, gap, f, gap - back);
            assert(old.subrange(p.old_end, e.old_start) == new.subrange(p.new_end, e.new_start));
            assert(matched(before, old, new, e.old_start, e.new_start));
        }
    }
}

/// The hunks of a comparison are anchored: the lines outside them are the same
/// on both sides.
pub proof fn law_hunks_anchored(
    ranges: Seq<RangeModel>,
    old: Seq<Seq<char>>,
    new: Seq<Seq<char>>,
    context: int,
)
    requires
        aligned(ranges, old, new, 0, 0),
        context >= 0,
    ensures
        matched(
            hunk_ranges(ranges, old, new, context),
            old,
            new,
            old.len() as int,
            new.len() as int,
        ),
{
    let g = all_grown(ranges, old, new, context);
    assert(in_order(g, starts_first())) by {
        assert forall|i: int, j: int| 0 <= i < j < g.len() implies starts_first()(
            #[trigger] g[i],
            #[trigger] g[j],
        ) by {
            lemma_grown_order(ranges, old, new, context, i, j);
        }
    }
    lemma_sorted_id(g, starts_first());
    if g.len() == 0 {
        assert(merged(g).len() == 0);
        assert(old.skip(0) =~= old && new.skip(0) =~= new);
        assert(old.take(old.len() as int) =~= old && new.take(new.len() as int) =~= new);
    } else {
        let k = g.len() as int;
        lemma_merged_matched(ranges, old, new, context, k);
        assert(g.take(k) =~= g);
        let m = merged(g);
        let r = ranges[k - 1];
        lemma_aligned_index(ranges, old, new, 0, 0, k - 1);
        let (_, f) = lemma_growth(ranges, old, new, context, k - 1);
        let len = old.len() - r.old_end;
        assert(old.skip(r.old_end).len() == new.skip(r.new_end).len());
        assert(old.skip(r.old_end) =~= old.subrange(r.old_end, r.old_end + len));
        assert(new.skip(r.new_end) =~= new.subrange(r.new_end, r.new_end + len));
        lemma_part_equal(old, new, r.old_end, r.new_end, len, f, len);
    }
}

proof fn lemma_grown_order(
    ranges: Seq<RangeModel>,
    old: Seq<Seq<char>>,
    new: Seq<Seq<char>>,
    context: int,
    i: int,
    j: int,
)
    requires
        aligned(ranges, old, new, 0, 0),
        context >= 0,
        0 <= i < j < ranges.len(),
    ensures
        grown(ranges, i, old, new, context).old_start <= ranges[i].old_start <= ranges[i].old_end
            <= grown(ranges, j, old, new, context).old_start,
    decreases j,
{
    lemma_aligned_index(ranges, old, new, 0, 0, i);
    lemma_aligned_index(ranges, old, new, 0, 0, j);
    lemma_aligned_index(ranges, old, new, 0, 0, j - 1);
    let _ = lemma_growth(ranges, old, new, context, i);
    let _ = lemma_growth(ranges, old, new, context, j);
    if i < j - 1 {
        lemma_grown_order(ranges, old, new, context, i, j - 1);
        let _ = lemma_growth(ranges, old, new, context, j - 1);
    }
}

/// The hunks of a comparison cover the regions they were made from.
pub proof fn lemma_spans_of_hunks(old: Seq<Seq<char>>, new: Seq<Seq<char>>, opts: Options)
    ensures
        spans_of_hunks(hunks_of(old, new, opts)) == hunk_ranges(
            changed(old, new),
            old,
            new,
            opts.context as int,
        ),
{
    assert(spans_of_hunks(hunks_of(old, new, opts)) =~= hunk_ranges(
        changed(old, new),
        old,
        new,
        opts.context as int,
    ));
}

/// Accepting every hunk of a comparison gives the new lines, accepting none
/// leaves the old ones, where the changes align.
pub proof fn law_diff_then_apply(
    old: Seq<Seq<char>>,
    new: Seq<Seq<char>>,
    opts: Options,
    accepted: Seq<usize>,
)
    requires
        aligned(changed(old, new), old, new, 0, 0),
    ensures
        all_taken(hunks_of(old, new, opts), accepted) ==> applied_lines(
            hunks_of(old, new, opts),
            accepted,
            old,
            new,
        ) == new,
        accepted.len() == 0 ==> applied_lines(hunks_of(old, new, opts), accepted, old, new) == old,
{
    let hunks = hunks_of(old, new, opts);
    lemma_spans_of_hunks(old, new, opts);
    law_hunks_anchored(changed(old, new), old, new, opts.context as int);
    if all_taken(hunks, accepted) {
        law_accept_all(hunks, accepted, old, new);
    }
    if accepted.len() == 0 {
        law_reject_all(hunks, accepted, old, new);
    }
}

/// By how many lines the accepted ones among the first `k` hunks lengthen the
/// document.
pub open spec fn grown_by(hunks: Seq<HunkModel>, accepted: Seq<usize>, k: int) -> int
    decreases k,
{
    if k <= 0 {
        0
    } else if exists|m: int| 0 <= m < accepted.len() && #[trigger] accepted[m] == hunks[k
        - 1].index {
        grown_by(hunks, accepted, k - 1) + hunks[k - 1].new_lines - hunks[k - 1].old_lines
    } else {
        grown_by(hunks, accepted, k - 1)
    }
}

proof fn lemma_grown_by_front(hunks: Seq<HunkModel>, accepted: Seq<usize>, n: int, k: int)
    requires
        0 <= k <= n <= hunks.len(),
    ensures
        grown_by(hunks.take(n), accepted, k) == grown_by(hunks, accepted, k),
    decreases k,
{
    if k > 0 {
        lemma_grown_by_front(hunks, accepted, n, k - 1);
        assert(hunks.take(n)[k - 1] == hunks[k - 1]);
    }
}

proof fn lemma_applied_len(
    hunks: Seq<HunkModel>,
    accepted: Seq<usize>,
    old: Seq<Seq<char>>,
    new: Seq<Seq<char>>,
    o: int,
    n: int,
)
    requires
        matched(spans_of_hunks(hunks), old, new, o, n),
    ensures
        0 <= end_of(hunks) <= o,
        applied(hunks, accepted, old, new).len() == end_of(hunks) + grown_by(
            hunks,
            accepted,
            hunks.len() as int,
        ),
    decreases hunks.len(),
{
    if hunks.len() > 0 {
        let h = hunks.last();
        let d = hunks.drop_last();
        assert(spans_of_hunks(hunks).drop_last() =~= spans_of_hunks(d));
        assert(spans_of_hunks(hunks).last() == span_of(h));
        lemma_applied_len(d, accepted, old, new, h.old_start, h.new_start);
        assert(d =~= hunks.take(d.len() as int));
        lemma_grown_by_front(hunks, accepted, d.len() as int, d.len() as int);
        assert(cut(old, end_of(d), h.old_start).len() == h.old_start - end_of(d));
    }
}

/// What the outcome holds at the place of hunk `k`, and between the hunk before
/// and it.
spec fn decided(
    out: Seq<Seq<char>>,
    hunks: Seq<HunkModel>,
    accepted: Seq<usize>,
    old: Seq<Seq<char>>,
    new: Seq<Seq<char>>,
    k: int,
) -> bool {
    let h = hunks[k];
    let s = grown_by(hunks, accepted, k);
    let at = h.old_start + s;
    let before = end_of(hunks.take(k));
    &&& 0 <= before <= h.old_start
    &&& 0 <= before + s
    &&& if taken(h, accepted) {
        at + h.new_lines <= out.len() && out.subrange(at, at + h.new_lines) == new.subrange(
            h.new_start,
            h.new_start + h.new_lines,
        )
    } else {
        at + h.old_lines <= out.len() && out.subrange(at, at + h.old_lines) == old.subrange(
            h.old_start,
            h.old_start + h.old_lines,
        )
    }
    &&& out.subrange(before + s, at) == old.subrange(before, h.old_start)
}

proof fn lemma_decided(
    hunks: Seq<HunkModel>,
    accepted: Seq<usize>,
    old: Seq<Seq<char>>,
    new: Seq<Seq<char>>,
    o: int,
    n: int,
    k: int,
)
    requires
        matched(spans_of_hunks(hunks), old, new, o, n),
        0 <= k < hunks.len(),
    ensures
        decided(applied(hunks, accepted, old, new), hunks, accepted, old, new, k),
        0 <= hunks[k].old_start <= hunks[k].old_start + hunks[k].old_lines <= old.len(),
        0 <= hunks[k].new_start <= hunks[k].new_start + hunks[k].new_lines <= new.len(),
    decreases hunks.len(),
{
    let h = hunks.last();
    let d = hunks.drop_last();
    let m = d.len() as int;
    assert(spans_of_hunks(hunks).drop_last() =~= spans_of_hunks(d));
    assert(spans_of_hunks(hunks).last() == span_of(h));
    lemma_applied_len(d, accepted, old, new, h.old_start, h.new_start);
    let front = applied(d, accepted, old, new);
    let gap = cut(old, end_of(d), h.old_start);
    let all = applied(hunks, accepted, old, new);
    assert(d =~= hunks.take(m));
    if k == m {
        lemma_grown_by_front(hunks, accepted, m, m);
        let s = grown_by(hunks, accepted, m);
        let at = h.old_start + s;
        assert(gap =~= old.subrange(end_of(d), h.old_start));
        assert((front + gap).len() == at);
        let mine = outcome(h, accepted, old, new);
        assert(all.subrange(at, at + mine.len()) =~= mine);
        assert(all.subrange(end_of(d) + s, at) =~= gap);
        if taken(h, accepted) {
            assert(mine =~= new.subrange(h.new_start, h.new_start + h.new_lines));
        } else {
            assert(mine =~= old.subrange(h.old_start, h.old_start + h.old_lines));
        }
    } else {
        lemma_decided(d, accepted, old, new, h.old_start, h.new_start, k);
        assert(d[k] == hunks[k]);
        lemma_grown_by_front(hunks, accepted, m, k);
        assert(hunks.take(k) =~= d.take(k));
        let g = hunks[k];
        let s = grown_by(hunks, accepted, k);
        let at = g.old_start + s;
        let before = end_of(hunks.take(k));
        let len = if taken(g, accepted) {
            g.new_lines
        } else {
            g.old_lines
        };
        assert(all.subrange(at, at + len) =~= front.subrange(at, at + len));
        assert(all.subrange(before + s, at) =~= front.subrange(before + s, at));
    }
}

/// Each hunk is decided for itself: at the place where it comes to stand there
/// are its new lines if its number is among the accepted ones, and its old
/// lines if not. The lines between the hunks, and behind the last, are the old
/// ones.
pub proof fn law_each_hunk_is_decided(
    hunks: Seq<HunkModel>,
    accepted: Seq<usize>,
    old: Seq<Seq<char>>,
    new: Seq<Seq<char>>,
    k: int,
)
    requires
        anchored(hunks, old, new),
        0 <= k < hunks.len(),
    ensures
        ({
            let out = applied_lines(hunks, accepted, old, new);
            let h = hunks[k];
            let s = grown_by(hunks, accepted, k);
            let t = grown_by(hunks, accepted, hunks.len() as int);
            let from = if k > 0 {
                hunks[k - 1].old_start + hunks[k - 1].old_lines
            } else {
                0
            };
            let end = hunks.last().old_start + hunks.last().old_lines;
            &&& out.len() == old.len() + t
            &&& (exists|m: int| 0 <= m < accepted.len() && #[trigger] accepted[m] == h.index)
                ==> out.subrange(h.old_start + s, h.old_start + s + h.new_lines) == new.subrange(
                h.new_start,
                h.new_start + h.new_lines,
            )
            &&& !(exists|m: int| 0 <= m < accepted.len() && #[trigger] accepted[m] == h.index)
                ==> out.subrange(h.old_start + s, h.old_start + s + h.old_lines) == old.subrange(
                h.old_start,
                h.old_start + h.old_lines,
            )
            &&& out.subrange(from + s, h.old_start + s) == old.subrange(from, h.old_start)
            &&& out.skip(end + t) == old.skip(end)
        }),
{
    let o = old.len() as int;
    let n = new.len() as int;
    lemma_decided(hunks, accepted, old, new, o, n, k);
    lemma_applied_len(hunks, accepted, old, new, o, n);
    let front = applied(hunks, accepted, old, new);
    let tail = cut(old, end_of(hunks), o);
    let out = applied_lines(hunks, accepted, old, new);
    let h = hunks[k];
    let s = grown_by(hunks, accepted, k);
    let at = h.old_start + s;
    if k > 0 {
        assert(hunks.take(k).last() == hunks[k - 1]);
    }
    let before = end_of(hunks.take(k));
    let len = if taken(h, accepted) {
        h.new_lines
    } else {
        h.old_lines
    };
    assert(out.subrange(at, at + len) =~= front.subrange(at, at + len));
    assert(out.subrange(before + s, at) =~= front.subrange(before + s, at));
    assert(tail =~= old.skip(end_of(hunks)));
    assert(out.skip(front.len() as int) =~= tail);
}

} // verus!
