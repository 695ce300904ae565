//! Three-way merge, for rebasing a proposal whose file moved under it.

use crate::diff::apply::extend_lines;
use crate::diff::changes::{comparable, line_diff, tags_of};
use crate::diff::hunks::{cut, cut_lines, least, lemma_joined_len, lemma_plain, most};
use crate::diff::ranges::{
    aligned, change_ranges, changed, lemma_line_count, lemma_spaced, pieces_of, range_models,
    spaced, touching, within, Range, RangeModel,
};
use crate::error::{Error, ErrorModel, Result};
use crate::order::{
    in_order, lemma_inserted_at, lemma_sorted_id, lemma_sorted_in_order, lemma_sorted_map,
    lemma_sorted_multiset, sorted, stable_sort,
};
use crate::text::{decimal, decimal_of, same_str, views};
use crate::util::{
    document_of, dominant_newline, ends_in_newline, join_lines, lines_of, newline_of, split_lines,
};
use vstd::prelude::*;

verus! {

/// A change together with the side it is from.
pub struct StepModel {
    pub range: RangeModel,
    pub ours: bool,
}

/// The order of changes: by their old lines; at the same lines ours first.
pub open spec fn step_first() -> spec_fn(StepModel, StepModel) -> bool {
    |a: StepModel, b: StepModel|
        a.range.old_start < b.range.old_start || (a.range.old_start == b.range.old_start && (
        a.range.old_end < b.range.old_end || (a.range.old_end == b.range.old_end && (a.ours
            || !b.ours))))
}

/// The changes of one side.
pub open spec fn side(ranges: Seq<RangeModel>, ours: bool) -> Seq<StepModel> {
    Seq::new(ranges.len(), |i: int| StepModel { range: ranges[i], ours })
}

/// Both sides' changes, in order.
pub open spec fn steps_of(ours: Seq<RangeModel>, theirs: Seq<RangeModel>) -> Seq<StepModel> {
    sorted(side(ours, true) + side(theirs, false), step_first())
}

/// Are two changes made at the same place? They share old lines, or both put
/// lines between the same two.
pub open spec fn meeting(a: RangeModel, b: RangeModel) -> bool {
    touching(a, b) || (a.old_start == a.old_end == b.old_start == b.old_end)
}

/// The lines that a change puts in place of the old ones.
pub open spec fn replacement(
    step: StepModel,
    ours: Seq<Seq<char>>,
    theirs: Seq<Seq<char>>,
) -> Seq<Seq<char>> {
    if step.ours {
        cut(ours, step.range.new_start, step.range.new_end)
    } else {
        cut(theirs, step.range.new_start, step.range.new_end)
    }
}

/// What a merge comes to: the merged lines, or the first and last of the old
/// lines that both sides changed differently.
pub enum Merge {
    Lines(Seq<Seq<char>>),
    Clash(int, int),
}

/// Some lines in front of what a merge comes to.
pub open spec fn behind(front: Seq<Seq<char>>, rest: Merge) -> Merge {
    match rest {
        Merge::Lines(lines) => Merge::Lines(front + lines),
        Merge::Clash(from, to) => Merge::Clash(from, to),
    }
}

/// Is change `i + 1` from the other side and made at the place of change `i`?
pub open spec fn met(steps: Seq<StepModel>, i: int) -> bool {
    &&& i + 1 < steps.len()
    &&& steps[i + 1].ours != steps[i].ours
    &&& meeting(steps[i].range, steps[i + 1].range)
}

/// Is change `i + 1` the same edit, made by the other side?
pub open spec fn twins(
    steps: Seq<StepModel>,
    ours: Seq<Seq<char>>,
    theirs: Seq<Seq<char>>,
    i: int,
) -> bool {
    met(steps, i) && replacement(steps[i], ours, theirs) == replacement(steps[i + 1], ours, theirs)
}

/// The merge from change `i` and base line `cursor` on. The same edit made by
/// both sides is taken once. Every other change is put in its place, or it is
/// reported where it starts in lines that were changed already.
pub open spec fn merge_from(
    steps: Seq<StepModel>,
    base: Seq<Seq<char>>,
    ours: Seq<Seq<char>>,
    theirs: Seq<Seq<char>>,
    i: int,
    cursor: int,
) -> Merge
    decreases steps.len() - i,
{
    if i < 0 || i >= steps.len() {
        Merge::Lines(cut(base, cursor, base.len() as int))
    } else {
        let range = steps[i].range;
        let lead = cut(base, cursor, range.old_start) + replacement(steps[i], ours, theirs);
        if range.old_start < cursor {
            Merge::Clash(range.old_start + 1, most(cursor, range.old_end))
        } else if twins(steps, ours, theirs, i) {
            let end = most(range.old_end, steps[i + 1].range.old_end);
            behind(lead, merge_from(steps, base, ours, theirs, i + 2, end))
        } else if met(steps, i) && touching(range, steps[i + 1].range) {
            let other = steps[i + 1].range;
            Merge::Clash(
                least(range.old_start, other.old_start) + 1,
                most(range.old_end, other.old_end),
            )
        } else {
            behind(lead, merge_from(steps, base, ours, theirs, i + 1, range.old_end))
        }
    }
}

/// The merge of two lists of lines that both come from `base`.
pub open spec fn merge_of(
    base: Seq<Seq<char>>,
    ours: Seq<Seq<char>>,
    theirs: Seq<Seq<char>>,
) -> Merge {
    merge_from(steps_of(changed(base, ours), changed(base, theirs)), base, ours, theirs, 0, 0)
}

/// Does a merged document end with a newline?
pub open spec fn merged_trailing(base: Seq<char>, ours: Seq<char>, theirs: Seq<char>) -> bool {
    ends_in_newline(ours) && (ends_in_newline(theirs) || ends_in_newline(base))
}

/// The message of a conflict.
pub open spec fn clash_message(from: int, to: int) -> Seq<char> {
    "both sides changed lines "@ + decimal_of(from as nat) + "-"@ + decimal_of(to as nat)
        + " differently"@
}

/// A change together with the side it is from.
#[derive(Debug, Clone, Copy)]
pub struct Step {
    pub range: Range,
    pub ours: bool,
}

impl View for Step {
    type V = StepModel;

    open spec fn view(&self) -> StepModel {
        StepModel { range: self.range@, ours: self.ours }
    }
}

pub open spec fn step_models(steps: Seq<Step>) -> Seq<StepModel> {
    Seq::new(steps.len(), |i: int| steps[i]@)
}

fn comes_first(a: &Step, b: &Step) -> (out: bool)
    ensures
        out == step_first()(a@, b@),
{
    a.range.old_start < b.range.old_start || (a.range.old_start == b.range.old_start && (
    a.range.old_end < b.range.old_end || (a.range.old_end == b.range.old_end && (a.ours
        || !b.ours))))
}

fn same_lines(a: &[String], b: &[String]) -> (out: bool)
    ensures
        out == (views(a@) == views(b@)),
{
    if a.len() != b.len() {
        assert(views(a@).len() != views(b@).len());
        return false;
    }
    let mut i: usize = 0;
    while i < a.len()
        invariant
            i <= a.len(),
            a.len() == b.len(),
            forall|k: int| 0 <= k < i ==> (#[trigger] a@[k])@ == b@[k]@,
        decreases a.len() - i,
    {
        if !same_str(a[i].as_str(), b[i].as_str()) {
            assert(views(a@)[i as int] != views(b@)[i as int]);
            return false;
        }
        i += 1;
    }
    assert(views(a@) =~= views(b@));
    true
}

/// Are two changes made at the same place?
fn meets(a: &Range, b: &Range) -> (out: bool)
    ensures
        out == meeting(a@, b@),
{
    a.touches(b) || (a.old_start == a.old_end && a.old_end == b.old_start && b.old_start
        == b.old_end)
}

/// The conflict over some lines.
fn clash(from: usize, to: usize) -> (out: Error)
    ensures
        out@ == ErrorModel::Conflict(clash_message(from as int, to as int)),
{
    let mut message = "both sides changed lines ".to_owned();
    message.append(decimal(from as u64).as_str());
    message.append("-");
    message.append(decimal(to as u64).as_str());
    message.append(" differently");
    Error::Conflict(message)
}

fn later(a: usize, b: usize) -> (out: usize)
    ensures
        out == most(a as int, b as int),
{
    if a >= b {
        a
    } else {
        b
    }
}

/// The lines that a change puts in place of the old ones.
fn replaced<'a>(step: &Step, ours: &'a [String], theirs: &'a [String]) -> (out: &'a [String])
    ensures
        views(out@) == replacement(step@, views(ours@), views(theirs@)),
{
    if step.ours {
        cut_lines(ours, step.range.new_start, step.range.new_end)
    } else {
        cut_lines(theirs, step.range.new_start, step.range.new_end)
    }
}

fn collect_steps(ours: &Vec<Range>, theirs: &Vec<Range>) -> (out: Vec<Step>)
    ensures
        step_models(out@) == steps_of(range_models(ours@), range_models(theirs@)),
        forall|k: int|
            0 <= k < out@.len() ==> (exists|m: int|
                0 <= m < ours@.len() && (#[trigger] out@[k]).range == #[trigger] ours@[m]) || (
            exists|m: int| 0 <= m < theirs@.len() && out@[k].range == #[trigger] theirs@[m]),
{
    let mut steps: Vec<Step> = Vec::new();
    let mut i: usize = 0;
    while i < ours.len()
        invariant
            i <= ours.len(),
            steps.len() == i,
            forall|k: int|
                0 <= k < i ==> (#[trigger] steps@[k]).range == ours@[k] && steps@[k].ours,
        decreases ours.len() - i,
    {
        steps.push(Step { range: ours[i], ours: true });
        i += 1;
    }
    i = 0;
    let ghost n = ours@.len();
    while i < theirs.len()
        invariant
            i <= theirs.len(),
            n == ours@.len(),
            steps.len() == n + i,
            forall|k: int|
                0 <= k < n ==> (#[trigger] steps@[k]).range == ours@[k] && steps@[k].ours,
            forall|k: int|
                n <= k < n + i ==> (#[trigger] steps@[k]).range == theirs@[k - n]
                    && !steps@[k].ours,
        decreases theirs.len() - i,
    {
        steps.push(Step { range: theirs[i], ours: false });
        i += 1;
    }
    let ghost unsorted = steps@;
    let ghost rel = |a: Step, b: Step| step_first()(a@, b@);
    let out = stable_sort(steps, comes_first, Ghost(rel));
    proof {
        let f = |s: Step| s@;
        lemma_sorted_map(unsorted, f, rel, step_first());
        assert(unsorted.map_values(f) =~= side(range_models(ours@), true) + side(
            range_models(theirs@),
            false,
        ));
        assert(out@.map_values(f) =~= step_models(out@));
        lemma_sorted_multiset(unsorted, rel);
        assert forall|k: int| 0 <= k < out@.len() implies (exists|m: int|
            0 <= m < ours@.len() && (#[trigger] out@[k]).range == #[trigger] ours@[m]) || (exists|
            m: int,
        | 0 <= m < theirs@.len() && out@[k].range == #[trigger] theirs@[m]) by {
            let x = out@[k];
            out@.to_multiset_ensures();
            unsorted.to_multiset_ensures();
            assert(out@.contains(x));
            assert(out@.to_multiset().count(x) > 0);
            assert(unsorted.contains(x));
            let j = choose|j: int| 0 <= j < unsorted.len() && unsorted[j] == x;
            if j < n {
                assert(x.range == ours@[j]);
            } else {
                assert(x.range == theirs@[j - n]);
            }
        }
    }
    out
}

/// Replays `theirs` on top of `ours`, both measured against a common `base`.
///
/// `ours` is what is on disk now, `theirs` is what was proposed. Regions only
/// one side touched are taken from that side; a region both sides changed
/// differently is a genuine conflict and is reported rather than guessed at.
/// This works on raw changes, not on display hunks: paragraph expansion would
/// invent conflicts between edits that never overlapped.
pub fn merge3(base: &str, ours: &str, theirs: &str) -> (out: Result<String>)
    requires
        comparable(base@, ours@),
        comparable(base@, theirs@),
    ensures
        match out {
            Ok(text) => merge_of(lines_of(base@), lines_of(ours@), lines_of(theirs@)) matches Merge::Lines(
                lines,
            ) && text@ == document_of(
                lines,
                merged_trailing(base@, ours@, theirs@),
                newline_of(ours@),
            ),
            Err(e) => merge_of(lines_of(base@), lines_of(ours@), lines_of(theirs@)) matches Merge::Clash(
                from,
                to,
            ) && e@ == ErrorModel::Conflict(clash_message(from, to)),
        },
        ours@ == theirs@ ==> (out matches Ok(text) && text@ == document_of(
            lines_of(ours@),
            ends_in_newline(ours@),
            newline_of(ours@),
        )),
{
    let (base_lines, base_trailing) = split_lines(base);
    let (our_lines, our_trailing) = split_lines(ours);
    let (their_lines, their_trailing) = split_lines(theirs);
    let newline = dominant_newline(ours);
    let ghost b = lines_of(base@);
    let ghost o = lines_of(ours@);
    let ghost t = lines_of(theirs@);
    proof {
        lemma_joined_len(base@);
        lemma_joined_len(ours@);
        lemma_joined_len(theirs@);
        lemma_line_count(b);
        lemma_plain(base@);
        lemma_plain(ours@);
    }
    let our_changes = change_ranges(&base_lines, &our_lines);
    let their_changes = change_ranges(&base_lines, &their_lines);
    let steps = collect_steps(&our_changes, &their_changes);
    let ghost all = step_models(steps@);
    let ghost goal = merge_of(b, o, t);
    proof {
        assert forall|k: int| 0 <= k < steps@.len() implies (#[trigger] steps@[k]).range.old_start
            <= 0xffff_fffe && steps@[k].range.old_end <= 0xffff_fffe by {
            if exists|m: int|
                0 <= m < our_changes@.len() && steps@[k].range == #[trigger] our_changes@[m] {
                let m = choose|m: int|
                    0 <= m < our_changes@.len() && steps@[k].range == #[trigger] our_changes@[m];
                assert(within(our_changes@[m]@, b.len() as int, o.len() as int));
            } else {
                let m = choose|m: int|
                    0 <= m < their_changes@.len() && steps@[k].range == #[trigger] their_changes@[m];
                assert(within(their_changes@[m]@, b.len() as int, t.len() as int));
            }
        }
    }
    proof {
        if ours@ == theirs@ {
            law_merge_same_edit(b, o);
        }
    }
    let mut out: Vec<String> = Vec::new();
    let mut cursor: usize = 0;
    let mut i: usize = 0;
    assert(views(out@) =~= Seq::<Seq<char>>::empty());
    proof {
        let start = merge_from(all, b, o, t, 0, 0);
        if let Merge::Lines(lines) = start {
            assert(Seq::<Seq<char>>::empty() + lines =~= lines);
        }
    }
    while i < steps.len()
        invariant
            all == step_models(steps@),
            views(base_lines@) == b,
            views(our_lines@) == o,
            views(their_lines@) == t,
            i <= steps.len(),
            cursor <= 0xffff_fffe,
            b == lines_of(base@),
            o == lines_of(ours@),
            t == lines_of(theirs@),
            goal == merge_of(b, o, t),
            goal == behind(views(out@), merge_from(all, b, o, t, i as int, cursor as int)),
            ours@ == theirs@ ==> goal == Merge::Lines(o),
            forall|k: int|
                0 <= k < steps@.len() ==> (#[trigger] steps@[k]).range.old_start <= 0xffff_fffe
                    && steps@[k].range.old_end <= 0xffff_fffe,
        decreases steps.len() - i,
    {
        let step: Step = steps[i];
        let range: Range = step.range;
        assert(steps@[i as int].range.old_start <= 0xffff_fffe);
        assert(all[i as int] == step@);
        if range.old_start < cursor {
            return Err(clash(range.old_start + 1, later(cursor, range.old_end)));
        }
        let mine = replaced(&step, &our_lines, &their_lines);
        let mut end: usize = range.old_end;
        let mut next: usize = i + 1;
        if i + 1 < steps.len() && steps[i + 1].ours != step.ours && meets(
            &range,
            &steps[i + 1].range,
        ) {
            let other: Step = steps[i + 1];
            assert(steps@[i + 1].range.old_start <= 0xffff_fffe);
            assert(all[i + 1] == other@);
            let last: usize = later(range.old_end, other.range.old_end);
            if same_lines(mine, replaced(&other, &our_lines, &their_lines)) {
                // The same edit made twice is not a conflict; take it once.
                end = last;
                next = i + 2;
            } else if range.touches(&other.range) {
                let first: usize = if range.old_start <= other.range.old_start {
                    range.old_start
                } else {
                    other.range.old_start
                };
                return Err(clash(first + 1, last));
            }
        }
        extend_lines(&mut out, cut_lines(&base_lines, cursor, range.old_start));
        extend_lines(&mut out, mine);
        cursor = end;
        i = next;
        proof {
            let rest = merge_from(all, b, o, t, i as int, cursor as int);
            if let Merge::Lines(lines) = rest {
                assert(goal->Lines_0 =~= views(out@) + lines);
            }
        }
    }
    let base_len: usize = base_lines.len();
    extend_lines(&mut out, cut_lines(&base_lines, cursor, base_len));
    // If either side dropped the trailing newline deliberately, respect it.
    let trailing = our_trailing && their_trailing || (base_trailing && our_trailing);
    Ok(join_lines(&out, trailing, newline))
}

// ---------------------------------------------------------------------------
// What a merge promises
// ---------------------------------------------------------------------------

/// Changes whose old lines lie one behind the other, from `cursor` on.
pub open spec fn apart(steps: Seq<StepModel>, i: int, cursor: int) -> bool
    decreases steps.len() - i,
{
    if i < 0 || i >= steps.len() {
        true
    } else {
        &&& cursor <= steps[i].range.old_start <= steps[i].range.old_end
        &&& apart(steps, i + 1, steps[i].range.old_end)
    }
}

/// The base with every change from `i` on put in its place.
pub open spec fn spliced(
    steps: Seq<StepModel>,
    base: Seq<Seq<char>>,
    ours: Seq<Seq<char>>,
    theirs: Seq<Seq<char>>,
    i: int,
    cursor: int,
) -> Seq<Seq<char>>
    decreases steps.len() - i,
{
    if i < 0 || i >= steps.len() {
        cut(base, cursor, base.len() as int)
    } else {
        cut(base, cursor, steps[i].range.old_start) + replacement(steps[i], ours, theirs) + spliced(
            steps,
            base,
            ours,
            theirs,
            i + 1,
            steps[i].range.old_end,
        )
    }
}

/// Changes of the two sides that share no old lines merge without conflict:
/// each region is taken from the side that touched it.
pub proof fn law_merge_apart(
    steps: Seq<StepModel>,
    base: Seq<Seq<char>>,
    ours: Seq<Seq<char>>,
    theirs: Seq<Seq<char>>,
    i: int,
    cursor: int,
)
    requires
        0 <= i <= steps.len(),
        apart(steps, i, cursor),
        forall|k: int| i <= k < steps.len() ==> !#[trigger] twins(steps, ours, theirs, k),
    ensures
        merge_from(steps, base, ours, theirs, i, cursor) == Merge::Lines(
            spliced(steps, base, ours, theirs, i, cursor),
        ),
    decreases steps.len() - i,
{
    if i < steps.len() {
        let r = steps[i].range;
        assert(!twins(steps, ours, theirs, i));
        assert(apart(steps, i + 1, r.old_end));
        law_merge_apart(steps, base, ours, theirs, i + 1, r.old_end);
    }
}

/// Changes of one side, put in place, give that side's lines.
proof fn lemma_spliced_one_side(
    ranges: Seq<RangeModel>,
    base: Seq<Seq<char>>,
    mine: Seq<Seq<char>>,
    other: Seq<Seq<char>>,
    ours: bool,
    i: int,
    o: int,
    n: int,
)
    requires
        0 <= i <= ranges.len(),
        aligned(ranges.skip(i), base, mine, o, n),
    ensures
        apart(side(ranges, ours), i, o),
        spliced(
            side(ranges, ours),
            base,
            if ours { mine } else { other },
            if ours { other } else { mine },
            i,
            o,
        ) == mine.skip(n),
    decreases ranges.len() - i,
{
    let steps = side(ranges, ours);
    if i == ranges.len() {
        assert(cut(base, o, base.len() as int) =~= base.skip(o));
    } else {
        let rest = ranges.skip(i);
        let r = ranges[i];
        assert(rest[0] == r);
        assert(rest.skip(1) =~= ranges.skip(i + 1));
        lemma_spliced_one_side(ranges, base, mine, other, ours, i + 1, r.old_end, r.new_end);
        assert(cut(base, o, r.old_start) =~= base.subrange(o, r.old_start));
        assert(cut(mine, r.new_start, r.new_end) =~= mine.subrange(r.new_start, r.new_end));
        assert(mine.skip(n) =~= mine.subrange(n, r.new_start) + mine.subrange(
            r.new_start,
            r.new_end,
        ) + mine.skip(r.new_end));
    }
}

proof fn lemma_apart_in_order(steps: Seq<StepModel>, i: int, cursor: int, j: int)
    requires
        0 <= i <= j < steps.len(),
        apart(steps, i, cursor),
    ensures
        cursor <= steps[j].range.old_start <= steps[j].range.old_end,
    decreases j - i,
{
    if i < j {
        lemma_apart_in_order(steps, i + 1, steps[i].range.old_end, j);
    }
}

/// Where only one side changed the base, the merge is that side.
pub proof fn law_merge_one_side(
    base: Seq<Seq<char>>,
    mine: Seq<Seq<char>>,
    other: Seq<Seq<char>>,
    ours: bool,
)
    requires
        aligned(changed(base, mine), base, mine, 0, 0),
        changed(base, other).len() == 0,
    ensures
        ours ==> merge_of(base, mine, other) == Merge::Lines(mine),
        !ours ==> merge_of(base, other, mine) == Merge::Lines(mine),
{
    let ranges = changed(base, mine);
    let none = changed(base, other);
    let steps = side(ranges, ours);
    assert(ranges.skip(0) =~= ranges);
    lemma_spliced_one_side(ranges, base, mine, other, ours, 0, 0, 0);
    assert(side(none, !ours).len() == 0);
    if ours {
        assert(side(ranges, true) + side(none, false) =~= steps);
    } else {
        assert(side(none, true) + side(ranges, false) =~= steps);
    }
    assert(in_order(steps, step_first())) by {
        assert forall|i: int, j: int| 0 <= i < j < steps.len() implies step_first()(
            #[trigger] steps[i],
            #[trigger] steps[j],
        ) by {
            lemma_apart_tail(steps, 0, 0, i);
            lemma_apart_in_order(steps, i + 1, steps[i].range.old_end, j);
        }
    }
    lemma_sorted_id(steps, step_first());
    if ours {
        assert forall|k: int| 0 <= k < steps.len() implies !#[trigger] twins(
            steps,
            mine,
            other,
            k,
        ) by {}
        law_merge_apart(steps, base, mine, other, 0, 0);
    } else {
        assert forall|k: int| 0 <= k < steps.len() implies !#[trigger] twins(
            steps,
            other,
            mine,
            k,
        ) by {}
        law_merge_apart(steps, base, other, mine, 0, 0);
    }
    assert(mine.skip(0) =~= mine);
}

proof fn lemma_apart_tail(steps: Seq<StepModel>, i: int, cursor: int, j: int)
    requires
        0 <= i <= j < steps.len(),
        apart(steps, i, cursor),
    ensures
        steps[j].range.old_start <= steps[j].range.old_end,
        apart(steps, j + 1, steps[j].range.old_end),
    decreases j - i,
{
    if i < j {
        lemma_apart_tail(steps, i + 1, steps[i].range.old_end, j);
    }
}

// The same edit on both sides: the changes of both sides interleave.

/// The first `k` changes from both sides, then the others from ours alone.
spec fn doubled(ranges: Seq<RangeModel>, k: int) -> Seq<StepModel> {
    Seq::new(
        (ranges.len() + k) as nat,
        |i: int|
            if i < 2 * k {
                StepModel { range: ranges[i / 2], ours: i % 2 == 0 }
            } else {
                StepModel { range: ranges[i - k], ours: true }
            },
    )
}

proof fn lemma_doubled_sorted(ranges: Seq<RangeModel>, k: int)
    requires
        spaced(ranges),
        0 <= k <= ranges.len(),
    ensures
        sorted(side(ranges, true) + side(ranges, false).take(k), step_first()) == doubled(
            ranges,
            k,
        ),
    decreases k,
{
    let ours = side(ranges, true);
    let theirs = side(ranges, false);
    if k == 0 {
        assert(ours + theirs.take(0) =~= ours);
        assert(in_order(ours, step_first())) by {
            assert forall|i: int, j: int| 0 <= i < j < ours.len() implies step_first()(
                #[trigger] ours[i],
                #[trigger] ours[j],
            ) by {
                assert(ranges[i].old_end < ranges[j].old_start);
                assert(ranges[i].old_start <= ranges[i].old_end);
            }
        }
        lemma_sorted_id(ours, step_first());
        assert(doubled(ranges, 0) =~= ours);
    } else {
        lemma_doubled_sorted(ranges, k - 1);
        let s = ours + theirs.take(k);
        assert(s.drop_last() =~= ours + theirs.take(k - 1));
        let x = StepModel { range: ranges[k - 1], ours: false };
        assert(s.last() == x);
        let d = doubled(ranges, k - 1);
        let at = 2 * k - 1;
        assert(d[at - 1] == (StepModel { range: ranges[k - 1], ours: true }));
        assert forall|m: int| at <= m < d.len() implies !step_first()(#[trigger] d[m], x) by {
            assert(d[m].range == ranges[m - (k - 1)]);
            assert(ranges[k - 1].old_end < ranges[m - (k - 1)].old_start);
            assert(ranges[k - 1].old_start <= ranges[k - 1].old_end);
        }
        lemma_inserted_at(d, x, step_first(), at);
        assert(d.insert(at, x) =~= doubled(ranges, k));
    }
}

proof fn lemma_doubled_merge(
    ranges: Seq<RangeModel>,
    base: Seq<Seq<char>>,
    mine: Seq<Seq<char>>,
    k: int,
    o: int,
    n: int,
)
    requires
        spaced(ranges),
        0 <= k <= ranges.len(),
        aligned(ranges.skip(k), base, mine, o, n),
    ensures
        merge_from(doubled(ranges, ranges.len() as int), base, mine, mine, 2 * k, o)
            == Merge::Lines(mine.skip(n)),
    decreases ranges.len() - k,
{
    let all = doubled(ranges, ranges.len() as int);
    if k == ranges.len() {
        assert(cut(base, o, base.len() as int) =~= base.skip(o));
    } else {
        let r = ranges[k];
        let i = 2 * k;
        assert(ranges.skip(k)[0] == r);
        assert(ranges.skip(k).skip(1) =~= ranges.skip(k + 1));
        assert(all[i] == (StepModel { range: r, ours: true }));
        assert(all[i + 1] == (StepModel { range: r, ours: false }));
        assert(r.old_start <= r.old_end);
        assert(twins(all, mine, mine, i));
        lemma_doubled_merge(ranges, base, mine, k + 1, r.old_end, r.new_end);
        assert(cut(base, o, r.old_start) =~= base.subrange(o, r.old_start));
        assert(cut(mine, r.new_start, r.new_end) =~= mine.subrange(r.new_start, r.new_end));
        assert(mine.skip(n) =~= mine.subrange(n, r.new_start) + mine.subrange(
            r.new_start,
            r.new_end,
        ) + mine.skip(r.new_end));
    }
}

/// The same edit made on both sides is taken once.
pub proof fn law_merge_same_edit(base: Seq<Seq<char>>, mine: Seq<Seq<char>>)
    requires
        aligned(changed(base, mine), base, mine, 0, 0),
    ensures
        merge_of(base, mine, mine) == Merge::Lines(mine),
{
    lemma_spaced(tags_of(line_diff(pieces_of(base), pieces_of(mine))), 0);
    let ranges = changed(base, mine);
    lemma_doubled_sorted(ranges, ranges.len() as int);
    assert(side(ranges, false).take(ranges.len() as int) =~= side(ranges, false));
    assert(ranges.skip(0) =~= ranges);
    lemma_doubled_merge(ranges, base, mine, 0, 0, 0);
    assert(mine.skip(0) =~= mine);
}

// Nothing is dropped: what both sides changed differently is reported.

/// A merge that comes to lines has met no change in front of its cursor.
proof fn lemma_in_front(
    steps: Seq<StepModel>,
    base: Seq<Seq<char>>,
    ours: Seq<Seq<char>>,
    theirs: Seq<Seq<char>>,
    i: int,
    cursor: int,
    j: int,
)
    requires
        0 <= i <= j < steps.len(),
        in_order(steps, step_first()),
        forall|k: int|
            0 <= k < steps.len() ==> (#[trigger] steps[k]).range.old_start
                <= steps[k].range.old_end,
        merge_from(steps, base, ours, theirs, i, cursor) is Lines,
    ensures
        cursor <= steps[j].range.old_start,
    decreases steps.len() - i,
{
    let range = steps[i].range;
    assert(cursor <= range.old_start <= range.old_end);
    if i < j {
        assert(step_first()(steps[i], steps[j]));
        if twins(steps, ours, theirs, i) {
            if i + 1 < j {
                let end = most(range.old_end, steps[i + 1].range.old_end);
                lemma_in_front(steps, base, ours, theirs, i + 2, end, j);
            }
        } else {
            lemma_in_front(steps, base, ours, theirs, i + 1, range.old_end, j);
        }
    }
}

proof fn lemma_shared_is_same(
    steps: Seq<StepModel>,
    base: Seq<Seq<char>>,
    ours: Seq<Seq<char>>,
    theirs: Seq<Seq<char>>,
    i: int,
    cursor: int,
    a: int,
    b: int,
)
    requires
        0 <= i <= a < b < steps.len(),
        in_order(steps, step_first()),
        forall|k: int|
            0 <= k < steps.len() ==> (#[trigger] steps[k]).range.old_start
                <= steps[k].range.old_end,
        merge_from(steps, base, ours, theirs, i, cursor) is Lines,
        steps[a].ours != steps[b].ours,
        touching(steps[a].range, steps[b].range),
    ensures
        replacement(steps[a], ours, theirs) == replacement(steps[b], ours, theirs),
    decreases steps.len() - i,
{
    let range = steps[i].range;
    if twins(steps, ours, theirs, i) {
        let end = most(range.old_end, steps[i + 1].range.old_end);
        if i + 2 <= a {
            lemma_shared_is_same(steps, base, ours, theirs, i + 2, end, a, b);
        } else if i + 1 < b {
            lemma_in_front(steps, base, ours, theirs, i + 2, end, b);
            assert(steps[a].range.old_end <= end);
        }
    } else if i < a {
        lemma_shared_is_same(steps, base, ours, theirs, i + 1, range.old_end, a, b);
    } else {
        lemma_in_front(steps, base, ours, theirs, i + 1, range.old_end, b);
    }
}

proof fn lemma_step_of(
    all: Seq<StepModel>,
    x: StepModel,
) -> (k: int)
    requires
        all.contains(x),
    ensures
        0 <= k < sorted(all, step_first()).len(),
        sorted(all, step_first())[k] == x,
{
    let s = sorted(all, step_first());
    lemma_sorted_multiset(all, step_first());
    all.to_multiset_ensures();
    s.to_multiset_ensures();
    assert(all.to_multiset().count(x) > 0);
    assert(s.contains(x));
    choose|k: int| 0 <= k < s.len() && s[k] == x
}

/// Old lines that both sides changed differently make a merge fail: where it
/// comes to lines, changes of the two sides that share old lines put the same
/// lines in their place.
pub proof fn law_merge_reports(
    base: Seq<Seq<char>>,
    ours: Seq<Seq<char>>,
    theirs: Seq<Seq<char>>,
    a: int,
    b: int,
)
    requires
        merge_of(base, ours, theirs) is Lines,
        0 <= a < changed(base, ours).len(),
        0 <= b < changed(base, theirs).len(),
        touching(changed(base, ours)[a], changed(base, theirs)[b]),
    ensures
        replacement(StepModel { range: changed(base, ours)[a], ours: true }, ours, theirs)
            == replacement(StepModel { range: changed(base, theirs)[b], ours: false }, ours, theirs),
{
    let mine = changed(base, ours);
    let other = changed(base, theirs);
    let all = side(mine, true) + side(other, false);
    let steps = steps_of(mine, other);
    lemma_spaced(tags_of(line_diff(pieces_of(base), pieces_of(ours))), 0);
    lemma_spaced(tags_of(line_diff(pieces_of(base), pieces_of(theirs))), 0);
    lemma_sorted_in_order(all, step_first());
    assert forall|k: int| 0 <= k < steps.len() implies (#[trigger] steps[k]).range.old_start
        <= steps[k].range.old_end by {
        lemma_sorted_multiset(all, step_first());
        all.to_multiset_ensures();
        steps.to_multiset_ensures();
        assert(steps.contains(steps[k]));
        assert(steps.to_multiset().count(steps[k]) > 0);
        assert(all.contains(steps[k]));
        let m = choose|m: int| 0 <= m < all.len() && all[m] == steps[k];
        if m < mine.len() {
            assert(all[m].range == mine[m]);
        } else {
            assert(all[m].range == other[m - mine.len()]);
        }
    }
    let x = StepModel { range: mine[a], ours: true };
    let y = StepModel { range: other[b], ours: false };
    assert(all[a] == x);
    assert(all[mine.len() + b] == y);
    let i = lemma_step_of(all, x);
    let j = lemma_step_of(all, y);
    if i < j {
        lemma_shared_is_same(steps, base, ours, theirs, 0, 0, i, j);
    } else {
        lemma_shared_is_same(steps, base, ours, theirs, 0, 0, j, i);
    }
}

/// Do some lines stand among others, one behind the other?
pub open spec fn stand_in(lines: Seq<Seq<char>>, part: Seq<Seq<char>>) -> bool {
    exists|p: int|
        0 <= p && p + part.len() <= lines.len() && #[trigger] lines.subrange(p, p + part.len())
            == part
}

proof fn lemma_stand_behind(
    lines: Seq<Seq<char>>,
    front: Seq<Seq<char>>,
    part: Seq<Seq<char>>,
)
    requires
        stand_in(lines, part),
    ensures
        stand_in(front + lines, part),
{
    let p = choose|p: int|
        0 <= p && p + part.len() <= lines.len() && #[trigger] lines.subrange(p, p + part.len())
            == part;
    let q = front.len() + p;
    assert((front + lines).subrange(q, q + part.len()) =~= lines.subrange(p, p + part.len()));
}

proof fn lemma_change_kept(
    steps: Seq<StepModel>,
    base: Seq<Seq<char>>,
    ours: Seq<Seq<char>>,
    theirs: Seq<Seq<char>>,
    i: int,
    cursor: int,
    j: int,
    lines: Seq<Seq<char>>,
)
    requires
        0 <= i <= j < steps.len(),
        merge_from(steps, base, ours, theirs, i, cursor) == Merge::Lines(lines),
    ensures
        stand_in(lines, replacement(steps[j], ours, theirs)),
    decreases steps.len() - i,
{
    let range = steps[i].range;
    let gap = cut(base, cursor, range.old_start);
    let mine = replacement(steps[i], ours, theirs);
    let lead = gap + mine;
    let twin = twins(steps, ours, theirs, i);
    let next = if twin {
        merge_from(
            steps,
            base,
            ours,
            theirs,
            i + 2,
            most(range.old_end, steps[i + 1].range.old_end),
        )
    } else {
        merge_from(steps, base, ours, theirs, i + 1, range.old_end)
    };
    assert(merge_from(steps, base, ours, theirs, i, cursor) == behind(lead, next));
    assert(next is Lines);
    let rest = next->Lines_0;
    assert(lines == lead + rest);
    if j == i || (twin && j == i + 1) {
        let p = gap.len() as int;
        assert(lines.subrange(p, p + mine.len()) =~= mine);
        assert(stand_in(lines, mine));
    } else {
        if twin {
            lemma_change_kept(
                steps,
                base,
                ours,
                theirs,
                i + 2,
                most(range.old_end, steps[i + 1].range.old_end),
                j,
                rest,
            );
        } else {
            lemma_change_kept(steps, base, ours, theirs, i + 1, range.old_end, j, rest);
        }
        lemma_stand_behind(rest, lead, replacement(steps[j], ours, theirs));
    }
}

/// A merge that succeeds loses nobody's work: every stretch of lines that one
/// side changed stands in the merged lines as that side has it.
pub proof fn law_merge_keeps_both_sides(
    base: Seq<Seq<char>>,
    ours: Seq<Seq<char>>,
    theirs: Seq<Seq<char>>,
    lines: Seq<Seq<char>>,
)
    requires
        merge_of(base, ours, theirs) == Merge::Lines(lines),
    ensures
        forall|a: int|
            0 <= a < changed(base, ours).len() ==> stand_in(
                lines,
                cut(
                    ours,
                    (#[trigger] changed(base, ours)[a]).new_start,
                    changed(base, ours)[a].new_end,
                ),
            ),
        forall|b: int|
            0 <= b < changed(base, theirs).len() ==> stand_in(
                lines,
                cut(
                    theirs,
                    (#[trigger] changed(base, theirs)[b]).new_start,
                    changed(base, theirs)[b].new_end,
                ),
            ),
{
    let mine = changed(base, ours);
    let other = changed(base, theirs);
    let all = side(mine, true) + side(other, false);
    let steps = steps_of(mine, other);
    assert forall|a: int| 0 <= a < mine.len() implies stand_in(
        lines,
        cut(ours, (#[trigger] mine[a]).new_start, mine[a].new_end),
    ) by {
        let x = StepModel { range: mine[a], ours: true };
        assert(all[a] == x);
        assert(all.contains(x));
        let j = lemma_step_of(all, x);
        lemma_change_kept(steps, base, ours, theirs, 0, 0, j, lines);
    }
    assert forall|b: int| 0 <= b < other.len() implies stand_in(
        lines,
        cut(theirs, (#[trigger] other[b]).new_start, other[b].new_end),
    ) by {
        let x = StepModel { range: other[b], ours: false };
        assert(all[mine.len() + b] == x);
        assert(all.contains(x));
        let j = lemma_step_of(all, x);
        lemma_change_kept(steps, base, ours, theirs, 0, 0, j, lines);
    }
}

} // verus!
