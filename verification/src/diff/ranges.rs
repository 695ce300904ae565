//! Changed regions in line coordinates, and what they promise: outside them
//! the two documents hold the same lines.

use crate::diff::changes::{
    change_models, comparable, compare_lines, line_diff, new_pieces, old_pieces, tags_of, Change,
    ChangeTag,
};
use crate::text::{holds, join_of, push_text, views};
use vstd::prelude::*;

verus! {

/// A single changed region, in both files' line coordinates. This is the raw
/// level-1 output, before any paragraph expansion: the exact lines that
/// differ and nothing else. Merging needs this precision; display does not.
#[derive(Debug, Clone, Copy, PartialEq, Eq, Structural)]
pub struct Range {
    pub old_start: usize,
    pub old_end: usize,
    pub new_start: usize,
    pub new_end: usize,
}

/// A changed region, in unbounded numbers.
pub struct RangeModel {
    pub old_start: int,
    pub old_end: int,
    pub new_start: int,
    pub new_end: int,
}

impl View for Range {
    type V = RangeModel;

    open spec fn view(&self) -> RangeModel {
        RangeModel {
            old_start: self.old_start as int,
            old_end: self.old_end as int,
            new_start: self.new_start as int,
            new_end: self.new_end as int,
        }
    }
}

/// The models of a sequence of regions.
pub open spec fn range_models(ranges: Seq<Range>) -> Seq<RangeModel> {
    Seq::new(ranges.len(), |i: int| ranges[i]@)
}

/// Do two regions share an old line?
pub open spec fn touching(a: RangeModel, b: RangeModel) -> bool {
    a.old_start < b.old_end && b.old_start < a.old_end
}

impl Range {
    pub fn touches(&self, other: &Range) -> (out: bool)
        ensures
            out == touching(self@, other@),
    {
        self.old_start < other.old_end && other.old_start < self.old_end
    }
}

/// How many of the first `i` changes are lines of the old document.
pub open spec fn old_count(tags: Seq<ChangeTag>, i: int) -> int
    decreases i,
{
    if i <= 0 {
        0
    } else if tags[i - 1] == ChangeTag::Insert {
        old_count(tags, i - 1)
    } else {
        old_count(tags, i - 1) + 1
    }
}

/// How many of the first `i` changes are lines of the new document.
pub open spec fn new_count(tags: Seq<ChangeTag>, i: int) -> int
    decreases i,
{
    if i <= 0 {
        0
    } else if tags[i - 1] == ChangeTag::Delete {
        new_count(tags, i - 1)
    } else {
        new_count(tags, i - 1) + 1
    }
}

/// Where the run of changes that are not equal ends, from `i` on.
pub open spec fn run_end(tags: Seq<ChangeTag>, i: int) -> int
    decreases tags.len() - i,
{
    if 0 <= i < tags.len() && tags[i] != ChangeTag::Equal {
        run_end(tags, i + 1)
    } else {
        i
    }
}

pub proof fn lemma_run_end(tags: Seq<ChangeTag>, i: int)
    requires
        0 <= i <= tags.len(),
    ensures
        i <= run_end(tags, i) <= tags.len(),
        run_end(tags, i) < tags.len() ==> tags[run_end(tags, i)] == ChangeTag::Equal,
        forall|k: int| i <= k < run_end(tags, i) ==> tags[k] != ChangeTag::Equal,
        i < tags.len() && tags[i] != ChangeTag::Equal ==> run_end(tags, i) > i,
    decreases tags.len() - i,
{
    if i < tags.len() && tags[i] != ChangeTag::Equal {
        lemma_run_end(tags, i + 1);
    }
}

/// The region that the changes from `i` to `j` cover.
pub open spec fn region(tags: Seq<ChangeTag>, i: int, j: int) -> RangeModel {
    RangeModel {
        old_start: old_count(tags, i),
        old_end: old_count(tags, j),
        new_start: new_count(tags, i),
        new_end: new_count(tags, j),
    }
}

/// One region for each maximal run of changes that are not equal, from
/// position `i` on.
pub open spec fn ranges_after(tags: Seq<ChangeTag>, i: int) -> Seq<RangeModel>
    decreases tags.len() - i,
    via ranges_after_decreases
{
    if i < 0 || i >= tags.len() {
        Seq::empty()
    } else if tags[i] == ChangeTag::Equal {
        ranges_after(tags, i + 1)
    } else {
        seq![region(tags, i, run_end(tags, i))] + ranges_after(tags, run_end(tags, i))
    }
}

#[via_fn]
proof fn ranges_after_decreases(tags: Seq<ChangeTag>, i: int) {
    if 0 <= i < tags.len() {
        lemma_run_end(tags, i);
    }
}

/// The changed regions of a list of changes.
pub open spec fn ranges_of(tags: Seq<ChangeTag>) -> Seq<RangeModel> {
    ranges_after(tags, 0)
}

pub proof fn lemma_counts(tags: Seq<ChangeTag>, i: int, j: int)
    requires
        0 <= i <= j <= tags.len(),
    ensures
        0 <= old_count(tags, i) <= old_count(tags, j) <= old_count(tags, i) + (j - i),
        0 <= new_count(tags, i) <= new_count(tags, j) <= new_count(tags, i) + (j - i),
        old_count(tags, i) <= i,
        new_count(tags, i) <= i,
    decreases j,
{
    if j > i {
        lemma_counts(tags, i, j - 1);
    } else if i > 0 {
        lemma_counts(tags, i - 1, i - 1);
    }
}

/// The changed regions of a list of changes.
pub fn ranges_from(changes: &[Change]) -> (out: Vec<Range>)
    ensures
        range_models(out@) == ranges_of(tags_of(change_models(changes@))),
{
    let ghost tags = tags_of(change_models(changes@));
    let mut out: Vec<Range> = Vec::new();
    let mut i: usize = 0;
    let mut old_i: usize = 0;
    let mut new_i: usize = 0;
    assert(range_models(out@) + ranges_after(tags, 0) == ranges_of(tags));
    while i < changes.len()
        invariant
            tags == tags_of(change_models(changes@)),
            i <= changes.len(),
            old_i == old_count(tags, i as int) <= i,
            new_i == new_count(tags, i as int) <= i,
            range_models(out@) + ranges_after(tags, i as int) == ranges_of(tags),
        decreases changes.len() - i,
    {
        if changes[i].tag == ChangeTag::Equal {
            old_i += 1;
            new_i += 1;
            i += 1;
        } else {
            let ghost first = i as int;
            let old_start: usize = old_i;
            let new_start: usize = new_i;
            while i < changes.len() && changes[i].tag != ChangeTag::Equal
                invariant
                    tags == tags_of(change_models(changes@)),
                    0 <= first <= i <= changes.len(),
                    old_i == old_count(tags, i as int) <= i,
                    new_i == new_count(tags, i as int) <= i,
                    run_end(tags, first) == run_end(tags, i as int),
                decreases changes.len() - i,
            {
                if changes[i].tag == ChangeTag::Delete {
                    old_i += 1;
                } else {
                    new_i += 1;
                }
                i += 1;
            }
            proof {
                lemma_run_end(tags, first);
            }
            let ghost before = range_models(out@);
            let r = Range { old_start, old_end: old_i, new_start, new_end: new_i };
            out.push(r);
            assert(range_models(out@) == before.push(r@));
            assert(before.push(r@) + ranges_after(tags, i as int) == before + (seq![r@]
                + ranges_after(tags, i as int)));
        }
    }
    assert(range_models(out@) + Seq::<RangeModel>::empty() == range_models(out@));
    out
}

/// Some lines as one text, a newline between any two.
pub open spec fn joined(lines: Seq<Seq<char>>) -> Seq<char> {
    join_of(lines, "\n"@)
}

/// Line `i` of `lines` as it is compared: with its newline, where another line
/// follows.
pub open spec fn piece(lines: Seq<Seq<char>>, i: int) -> Seq<char> {
    if i + 1 < lines.len() {
        lines[i] + "\n"@
    } else {
        lines[i]
    }
}

/// The lines as they are compared.
pub open spec fn pieces_of(lines: Seq<Seq<char>>) -> Seq<Seq<char>> {
    Seq::new(lines.len(), |i: int| piece(lines, i))
}

/// The changed regions between two lists of lines.
pub open spec fn changed(old: Seq<Seq<char>>, new: Seq<Seq<char>>) -> Seq<RangeModel> {
    ranges_of(tags_of(line_diff(pieces_of(old), pieces_of(new))))
}

/// Two lists of lines small enough to be compared.
pub open spec fn comparable_lines(old: Seq<Seq<char>>, new: Seq<Seq<char>>) -> bool {
    comparable(joined(old), joined(new))
}

/// Lines without a newline in them, as the lines of a document are.
pub open spec fn plain(lines: Seq<Seq<char>>) -> bool {
    forall|i: int| 0 <= i < lines.len() ==> !holds(#[trigger] lines[i], '\n')
}

/// The lines as they are compared.
pub fn line_list(lines: &[String]) -> (out: Vec<String>)
    ensures
        views(out@) == pieces_of(views(lines@)),
{
    let ghost all = views(lines@);
    let mut out: Vec<String> = Vec::new();
    let mut i: usize = 0;
    while i < lines.len()
        invariant
            i <= lines@.len(),
            all == views(lines@),
            all.len() == lines@.len(),
            views(out@) == pieces_of(all).take(i as int),
        decreases lines@.len() - i,
    {
        let mut line = lines[i].clone();
        if i + 1 < lines.len() {
            line.append("\n");
        }
        push_text(&mut out, line);
        assert(pieces_of(all).take(i + 1) =~= pieces_of(all).take(i as int).push(
            pieces_of(all)[i as int],
        ));
        i += 1;
    }
    assert(pieces_of(all).take(i as int) =~= pieces_of(all));
    out
}

/// There are at most one more lines than joined characters.
pub proof fn lemma_line_count(lines: Seq<Seq<char>>)
    ensures
        lines.len() <= joined(lines).len() + 1,
    decreases lines.len(),
{
    reveal_strlit("\n");
    if lines.len() > 1 {
        lemma_line_count(lines.drop_last());
    }
}

/// Outside the regions, from old line `o` and new line `n` on, the two lists
/// hold the same lines; the regions lie in order inside both.
pub open spec fn aligned(
    ranges: Seq<RangeModel>,
    old: Seq<Seq<char>>,
    new: Seq<Seq<char>>,
    o: int,
    n: int,
) -> bool
    decreases ranges.len(),
{
    &&& 0 <= o <= old.len()
    &&& 0 <= n <= new.len()
    &&& if ranges.len() == 0 {
        old.skip(o) == new.skip(n)
    } else {
        let r = ranges[0];
        &&& o <= r.old_start <= r.old_end <= old.len()
        &&& n <= r.new_start <= r.new_end <= new.len()
        &&& old.subrange(o, r.old_start) == new.subrange(n, r.new_start)
        &&& aligned(ranges.skip(1), old, new, r.old_end, r.new_end)
    }
}

/// Level 1: the changed regions, unexpanded.
pub fn change_ranges(old_lines: &[String], new_lines: &[String]) -> (out: Vec<Range>)
    requires
        comparable_lines(views(old_lines@), views(new_lines@)),
    ensures
        range_models(out@) == changed(views(old_lines@), views(new_lines@)),
        plain(views(old_lines@)) && plain(views(new_lines@)) ==> aligned(
            range_models(out@),
            views(old_lines@),
            views(new_lines@),
            0,
            0,
        ),
        views(old_lines@) == views(new_lines@) ==> out@.len() == 0,
        forall|k: int|
            0 <= k < out@.len() ==> within(
                #[trigger] out@[k]@,
                old_lines@.len() as int,
                new_lines@.len() as int,
            ),
{
    let ghost old = views(old_lines@);
    let ghost new = views(new_lines@);
    let old_list = line_list(old_lines);
    let new_list = line_list(new_lines);
    proof {
        lemma_line_count(old);
        lemma_line_count(new);
        assert(views(old_list@).len() == old_list@.len());
        assert(views(new_list@).len() == new_list@.len());
    }
    let changes = compare_lines(&old_list, &new_list);
    proof {
        let c = change_models(changes@);
        if plain(old) && plain(new) {
            lemma_aligned(c, old, new, 0);
        }
        if old == new {
            lemma_all_equal(tags_of(c), 0);
        }
        lemma_pieces_len(c);
        lemma_within(tags_of(c), 0);
    }
    let out = ranges_from(&changes);
    assert(forall|k: int|
        0 <= k < out@.len() ==> #[trigger] out@[k]@ == range_models(out@)[k]);
    out
}

/// A region that ends within the given numbers of lines.
pub open spec fn within(r: RangeModel, old: int, new: int) -> bool {
    0 <= r.old_start <= r.old_end <= old && 0 <= r.new_start <= r.new_end <= new
}

proof fn lemma_within(tags: Seq<ChangeTag>, i: int)
    requires
        0 <= i <= tags.len(),
    ensures
        forall|k: int|
            0 <= k < ranges_after(tags, i).len() ==> within(
                #[trigger] ranges_after(tags, i)[k],
                old_count(tags, tags.len() as int),
                new_count(tags, tags.len() as int),
            ),
    decreases tags.len() - i,
{
    if i < tags.len() {
        if tags[i] == ChangeTag::Equal {
            lemma_within(tags, i + 1);
            assert(ranges_after(tags, i) == ranges_after(tags, i + 1));
        } else {
            let j = run_end(tags, i);
            lemma_run_end(tags, i);
            lemma_within(tags, j);
            lemma_counts(tags, i, j);
            lemma_counts(tags, j, tags.len() as int);
            let all = ranges_after(tags, i);
            assert forall|k: int| 0 <= k < all.len() implies within(
                #[trigger] all[k],
                old_count(tags, tags.len() as int),
                new_count(tags, tags.len() as int),
            ) by {
                if k > 0 {
                    assert(all[k] == ranges_after(tags, j)[k - 1]);
                }
            }
        }
    }
}

/// Regions that lie in order, with an old line or more between any two.
pub open spec fn spaced(ranges: Seq<RangeModel>) -> bool {
    &&& forall|i: int|
        0 <= i < ranges.len() ==> (#[trigger] ranges[i]).old_start <= ranges[i].old_end
    &&& forall|i: int, j: int|
        0 <= i < j < ranges.len() ==> (#[trigger] ranges[i]).old_end < (
        #[trigger] ranges[j]).old_start
}

/// The regions of a list of changes have equal lines between them.
pub proof fn lemma_spaced(tags: Seq<ChangeTag>, i: int)
    requires
        0 <= i <= tags.len(),
    ensures
        spaced(ranges_after(tags, i)),
        forall|k: int|
            0 <= k < ranges_after(tags, i).len() ==> old_count(tags, i) <= (#[trigger] ranges_after(
                tags,
                i,
            )[k]).old_start,
    decreases tags.len() - i,
{
    if i < tags.len() {
        if tags[i] == ChangeTag::Equal {
            lemma_spaced(tags, i + 1);
            assert(ranges_after(tags, i) == ranges_after(tags, i + 1));
        } else {
            let j = run_end(tags, i);
            lemma_run_end(tags, i);
            lemma_counts(tags, i, j);
            let all = ranges_after(tags, i);
            let rest = ranges_after(tags, j);
            assert(all == seq![region(tags, i, j)] + rest);
            if j < tags.len() {
                lemma_spaced(tags, j + 1);
                assert(rest == ranges_after(tags, j + 1));
                assert(old_count(tags, j + 1) == old_count(tags, j) + 1);
            }
            assert forall|k: int| 0 < k < all.len() implies all[k] == #[trigger] rest[k - 1] by {}
            assert forall|k: int, m: int| 0 <= k < m < all.len() implies (
            #[trigger] all[k]).old_end < (#[trigger] all[m]).old_start by {
                assert(all[m] == rest[m - 1]);
                if k > 0 {
                    assert(all[k] == rest[k - 1]);
                }
            }
            assert forall|k: int| 0 <= k < all.len() implies (#[trigger] all[k]).old_start
                <= all[k].old_end && old_count(tags, i) <= all[k].old_start by {
                if k > 0 {
                    assert(all[k] == rest[k - 1]);
                }
            }
        }
    }
}

proof fn lemma_all_equal(tags: Seq<ChangeTag>, i: int)
    requires
        0 <= i <= tags.len(),
        forall|k: int| 0 <= k < tags.len() ==> tags[k] == ChangeTag::Equal,
    ensures
        ranges_after(tags, i).len() == 0,
    decreases tags.len() - i,
{
    if i < tags.len() {
        lemma_all_equal(tags, i + 1);
    }
}

/// The pieces that the first `i` changes hold are the first pieces of the
/// whole.
pub proof fn lemma_pieces_prefix(c: Seq<(ChangeTag, Seq<char>)>, i: int)
    requires
        0 <= i < c.len(),
    ensures
        old_count(tags_of(c), i) <= old_pieces(c).len(),
        new_count(tags_of(c), i) <= new_pieces(c).len(),
        c[i].0 != ChangeTag::Insert ==> old_count(tags_of(c), i) < old_pieces(c).len()
            && old_pieces(c)[old_count(tags_of(c), i)] == c[i].1,
        c[i].0 != ChangeTag::Delete ==> new_count(tags_of(c), i) < new_pieces(c).len()
            && new_pieces(c)[new_count(tags_of(c), i)] == c[i].1,
    decreases c.len(),
{
    let d = c.drop_last();
    assert(d == c.take(d.len() as int));
    lemma_pieces_len(d);
    lemma_counts_agree(c, d, i);
    lemma_counts(tags_of(c), i, c.len() as int);
    if i < d.len() {
        lemma_pieces_prefix(d, i);
        assert(d[i] == c[i]);
    }
}

proof fn lemma_counts_agree(
    c: Seq<(ChangeTag, Seq<char>)>,
    d: Seq<(ChangeTag, Seq<char>)>,
    i: int,
)
    requires
        0 <= i <= d.len() <= c.len(),
        d == c.take(d.len() as int),
    ensures
        old_count(tags_of(c), i) == old_count(tags_of(d), i),
        new_count(tags_of(c), i) == new_count(tags_of(d), i),
    decreases i,
{
    if i > 0 {
        lemma_counts_agree(c, d, i - 1);
        assert(tags_of(c)[i - 1] == tags_of(d)[i - 1]);
    }
}

/// There are as many pieces as the counts say.
pub proof fn lemma_pieces_len(c: Seq<(ChangeTag, Seq<char>)>)
    ensures
        old_pieces(c).len() == old_count(tags_of(c), c.len() as int),
        new_pieces(c).len() == new_count(tags_of(c), c.len() as int),
    decreases c.len(),
{
    if c.len() > 0 {
        let d = c.drop_last();
        lemma_pieces_len(d);
        lemma_counts_agree(c, d, d.len() as int);
    }
}

/// Equal pieces are equal lines.
proof fn lemma_piece_equal(old: Seq<Seq<char>>, new: Seq<Seq<char>>, o: int, n: int)
    requires
        plain(old),
        plain(new),
        0 <= o < old.len(),
        0 <= n < new.len(),
        piece(old, o) == piece(new, n),
    ensures
        old[o] == new[n],
{
    reveal_strlit("\n");
    let a = old[o];
    let b = new[n];
    assert(!holds(a, '\n') && !holds(b, '\n'));
    if o + 1 < old.len() {
        assert(piece(old, o).last() == '\n');
        if n + 1 < new.len() {
            assert(a == (a + "\n"@).drop_last());
            assert(b == (b + "\n"@).drop_last());
        } else {
            assert(b[b.len() - 1] == '\n');
            assert(false);
        }
    } else if n + 1 < new.len() {
        assert(piece(new, n).last() == '\n');
        assert(a[a.len() - 1] == '\n');
        assert(false);
    }
}

/// The regions of a comparison leave equal lines outside.
proof fn lemma_aligned(
    c: Seq<(ChangeTag, Seq<char>)>,
    old: Seq<Seq<char>>,
    new: Seq<Seq<char>>,
    i: int,
)
    requires
        plain(old),
        plain(new),
        old_pieces(c) == pieces_of(old),
        new_pieces(c) == pieces_of(new),
        0 <= i <= c.len(),
    ensures
        aligned(
            ranges_after(tags_of(c), i),
            old,
            new,
            old_count(tags_of(c), i),
            new_count(tags_of(c), i),
        ),
    decreases c.len() - i,
{
    let tags = tags_of(c);
    let o = old_count(tags, i);
    let n = new_count(tags, i);
    lemma_pieces_len(c);
    lemma_counts(tags, i, c.len() as int);
    if i == c.len() {
        assert(old.skip(o) =~= new.skip(n));
    } else if tags[i] == ChangeTag::Equal {
        lemma_aligned(c, old, new, i + 1);
        lemma_pieces_prefix(c, i);
        lemma_piece_equal(old, new, o, n);
        lemma_aligned_back(ranges_after(tags, i + 1), old, new, o, n);
    } else {
        let j = run_end(tags, i);
        lemma_run_end(tags, i);
        lemma_counts(tags, i, j);
        lemma_counts(tags, j, c.len() as int);
        lemma_aligned(c, old, new, j);
        let all = ranges_after(tags, i);
        assert(all.skip(1) =~= ranges_after(tags, j));
        assert(old.subrange(o, o) =~= new.subrange(n, n));
    }
}

/// An equal pair of lines in front keeps an alignment.
pub proof fn lemma_aligned_back(
    ranges: Seq<RangeModel>,
    old: Seq<Seq<char>>,
    new: Seq<Seq<char>>,
    o: int,
    n: int,
)
    requires
        0 <= o < old.len(),
        0 <= n < new.len(),
        old[o] == new[n],
        aligned(ranges, old, new, o + 1, n + 1),
    ensures
        aligned(ranges, old, new, o, n),
{
    if ranges.len() == 0 {
        assert(old.skip(o) =~= seq![old[o]] + old.skip(o + 1));
        assert(new.skip(n) =~= seq![new[n]] + new.skip(n + 1));
    } else {
        let r = ranges[0];
        assert(old.subrange(o, r.old_start) =~= seq![old[o]] + old.subrange(o + 1, r.old_start));
        assert(new.subrange(n, r.new_start) =~= seq![new[n]] + new.subrange(n + 1, r.new_start));
    }
}

/// How many old lines some regions cover.
pub open spec fn old_lines_in(ranges: Seq<RangeModel>) -> int
    decreases ranges.len(),
{
    if ranges.len() == 0 {
        0
    } else {
        ranges[0].old_end - ranges[0].old_start + old_lines_in(ranges.skip(1))
    }
}

/// How many new lines some regions cover.
pub open spec fn new_lines_in(ranges: Seq<RangeModel>) -> int
    decreases ranges.len(),
{
    if ranges.len() == 0 {
        0
    } else {
        ranges[0].new_end - ranges[0].new_start + new_lines_in(ranges.skip(1))
    }
}

proof fn lemma_run_counts(
    tags: Seq<ChangeTag>,
    i: int,
    j: int,
    gone: spec_fn(ChangeTag) -> bool,
    come: spec_fn(ChangeTag) -> bool,
)
    requires
        0 <= i <= j <= tags.len(),
        forall|k: int| i <= k < j ==> tags[k] != ChangeTag::Equal,
        forall|t: ChangeTag| #[trigger] gone(t) == (t == ChangeTag::Delete),
        forall|t: ChangeTag| #[trigger] come(t) == (t == ChangeTag::Insert),
    ensures
        old_count(tags, j) - old_count(tags, i) == tags.subrange(i, j).filter(gone).len(),
        new_count(tags, j) - new_count(tags, i) == tags.subrange(i, j).filter(come).len(),
    decreases j - i,
{
    reveal(Seq::filter);
    let part = tags.subrange(i, j);
    if i < j {
        lemma_run_counts(tags, i, j - 1, gone, come);
        assert(part.drop_last() =~= tags.subrange(i, j - 1));
        assert(part.last() == tags[j - 1]);
    } else {
        assert(part.len() == 0);
    }
}

proof fn lemma_equal_alone(tag: ChangeTag, p: spec_fn(ChangeTag) -> bool)
    requires
        !p(tag),
    ensures
        seq![tag].filter(p).len() == 0,
{
    reveal_with_fuel(Seq::filter, 2);
    let one = seq![tag];
    assert(one.drop_last() =~= Seq::<ChangeTag>::empty());
    assert(one.last() == tag);
}

proof fn lemma_covered(
    tags: Seq<ChangeTag>,
    i: int,
    gone: spec_fn(ChangeTag) -> bool,
    come: spec_fn(ChangeTag) -> bool,
)
    requires
        0 <= i <= tags.len(),
        forall|t: ChangeTag| #[trigger] gone(t) == (t == ChangeTag::Delete),
        forall|t: ChangeTag| #[trigger] come(t) == (t == ChangeTag::Insert),
    ensures
        old_lines_in(ranges_after(tags, i)) == tags.skip(i).filter(gone).len(),
        new_lines_in(ranges_after(tags, i)) == tags.skip(i).filter(come).len(),
    decreases tags.len() - i,
{
    let rest = tags.skip(i);
    if i == tags.len() {
        reveal(Seq::filter);
        assert(rest.len() == 0);
    } else if tags[i] == ChangeTag::Equal {
        lemma_covered(tags, i + 1, gone, come);
        let one = seq![tags[i]];
        assert(rest =~= one + tags.skip(i + 1));
        Seq::filter_distributes_over_add(one, tags.skip(i + 1), gone);
        Seq::filter_distributes_over_add(one, tags.skip(i + 1), come);
        lemma_equal_alone(tags[i], gone);
        lemma_equal_alone(tags[i], come);
    } else {
        let j = run_end(tags, i);
        lemma_run_end(tags, i);
        lemma_run_counts(tags, i, j, gone, come);
        lemma_covered(tags, j, gone, come);
        let run = tags.subrange(i, j);
        assert(rest =~= run + tags.skip(j));
        Seq::filter_distributes_over_add(run, tags.skip(j), gone);
        Seq::filter_distributes_over_add(run, tags.skip(j), come);
        let all = ranges_after(tags, i);
        assert(all.skip(1) =~= ranges_after(tags, j));
        assert(all[0] == region(tags, i, j));
    }
}

/// The changed regions hold the changed lines and nothing else: together they
/// cover as many old lines as were deleted, and as many new ones as were
/// inserted.
pub proof fn law_regions_hold_only_changes(tags: Seq<ChangeTag>)
    ensures
        old_lines_in(ranges_of(tags)) == tags.filter(
            |t: ChangeTag| t == ChangeTag::Delete,
        ).len(),
        new_lines_in(ranges_of(tags)) == tags.filter(
            |t: ChangeTag| t == ChangeTag::Insert,
        ).len(),
{
    lemma_covered(
        tags,
        0,
        |t: ChangeTag| t == ChangeTag::Delete,
        |t: ChangeTag| t == ChangeTag::Insert,
    );
    assert(tags.skip(0) =~= tags);
}

} // verus!
