//! Unified diff text, for exported histories and for showing a patch as text.

use crate::diff::changes::{
    change_models, comparable, line_pieces, new_pieces, old_pieces, Change, ChangeTag,
};
use crate::diff::hunks::{least, range_header_of, write_range_header};
use crate::diff::patch::patch_outcome;
use crate::diff::replay::{law_unified_then_apply, lemma_no_return, no_return, paired};
use crate::diff::rows::{chop, chop_of};
use crate::error::ErrorModel;
use crate::text::{chars_of, string_of};
use crate::util::{document_of, ends_in_newline, lines_of, newline_of, one_line};
use similar::TextDiff;
use vstd::prelude::*;

verus! {

/// One step of an edit script: the old and the new lines it covers, and its
/// changes line by line.
#[derive(Debug)]
pub struct Op {
    pub old_start: usize,
    pub old_len: usize,
    pub new_start: usize,
    pub new_len: usize,
    pub changes: Vec<Change>,
}

/// The old start and length, the new start and length, and the changes.
pub type OpModel = (usize, usize, usize, usize, Seq<(ChangeTag, Seq<char>)>);

impl View for Op {
    type V = OpModel;

    open spec fn view(&self) -> OpModel {
        (
            self.old_start,
            self.old_len,
            self.new_start,
            self.new_len,
            change_models(self.changes@),
        )
    }
}

pub open spec fn op_models(ops: Seq<Op>) -> Seq<OpModel> {
    Seq::new(ops.len(), |i: int| ops[i]@)
}

pub open spec fn group_models(groups: Seq<Vec<Op>>) -> Seq<Seq<OpModel>> {
    Seq::new(groups.len(), |i: int| op_models(groups[i]@))
}

/// The clusters of changes that `similar` finds between the lines of two texts,
/// with up to `n` unchanged lines around each.
pub uninterp spec fn grouped_diff(old: Seq<char>, new: Seq<char>, n: usize) -> Seq<
    Seq<(usize, usize, usize, usize, Seq<(ChangeTag, Seq<char>)>)>,
>;

/// The smallest start of the operations that cover an old line. (One that
/// covers none stands between lines, and need not say between which.)
pub open spec fn first_old(ops: Seq<OpModel>) -> usize
    decreases ops.len(),
{
    if ops.len() == 0 {
        usize::MAX
    } else if ops.last().1 > 0 && ops.last().0 < first_old(ops.drop_last()) {
        ops.last().0
    } else {
        first_old(ops.drop_last())
    }
}

/// The smallest start of the operations that cover a new line.
pub open spec fn first_new(ops: Seq<OpModel>) -> usize
    decreases ops.len(),
{
    if ops.len() == 0 {
        usize::MAX
    } else if ops.last().3 > 0 && ops.last().2 < first_new(ops.drop_last()) {
        ops.last().2
    } else {
        first_new(ops.drop_last())
    }
}

/// How many old lines some operations cover.
pub open spec fn sum_old(ops: Seq<OpModel>) -> int
    decreases ops.len(),
{
    if ops.len() == 0 {
        0
    } else {
        sum_old(ops.drop_last()) + ops.last().1
    }
}

pub open spec fn sum_new(ops: Seq<OpModel>) -> int
    decreases ops.len(),
{
    if ops.len() == 0 {
        0
    } else {
        sum_new(ops.drop_last()) + ops.last().3
    }
}

/// A start, where there is one.
pub open spec fn start_or_zero(n: usize) -> nat {
    if n == usize::MAX {
        0
    } else {
        n as nat
    }
}

/// The changes of a group, one behind the other.
pub open spec fn changes_in(ops: Seq<OpModel>) -> Seq<(ChangeTag, Seq<char>)>
    decreases ops.len(),
{
    if ops.len() == 0 {
        Seq::empty()
    } else {
        changes_in(ops.drop_last()) + ops.last().4
    }
}

/// Do the groups follow two lists of lines, up to these? A group covers the
/// old lines from where it starts and the new lines that stand in their place,
/// and its changes are those lines; and the lines in front of, between and
/// behind the groups are the same in both.
pub open spec fn follows(
    groups: Seq<Seq<OpModel>>,
    old: Seq<Seq<char>>,
    new: Seq<Seq<char>>,
    old_end: int,
    new_end: int,
) -> bool
    decreases groups.len(),
{
    &&& 0 <= old_end <= old.len()
    &&& 0 <= new_end <= new.len()
    &&& if groups.len() == 0 {
        old.take(old_end) == new.take(new_end)
    } else {
        let g = groups.last();
        let o = start_or_zero(first_old(g)) as int;
        let n = start_or_zero(first_new(g)) as int;
        let o_end = o + sum_old(g);
        let n_end = n + sum_new(g);
        &&& 0 <= o <= o_end <= old_end
        &&& 0 <= n <= n_end <= new_end
        &&& old.subrange(o, o_end) == old_pieces(changes_in(g))
        &&& new.subrange(n, n_end) == new_pieces(changes_in(g))
        &&& old.subrange(o_end, old_end) == new.subrange(n_end, new_end)
        &&& follows(groups.drop_last(), old, new, o, n)
    }
}

/// `similar::TextDiff::from_lines`, `grouped_ops` with `n` lines of context and
/// `iter_changes` of each operation. The result depends on the arguments
/// alone; `n` is doubled, so it may not be more than half of what fits. The
/// groups follow the lines of the two texts: an operation starts at the first
/// line that it covers, the operations of a group lie one behind the other on
/// either side, and what stands outside the groups are lines of equal
/// operations. Texts that differ have a group. Nothing is said of where an
/// operation that covers no line of a side claims to stand there: where
/// `similar` moves changes together, it does not always keep that number.
#[verifier::external_body]
fn group_lines(old: &str, new: &str, n: usize) -> (out: Vec<Vec<Op>>)
    requires
        comparable(old@, new@),
        1 <= n <= usize::MAX / 2,
    ensures
        group_models(out@) == grouped_diff(old@, new@, n),
        follows(
            group_models(out@),
            line_pieces(old@),
            line_pieces(new@),
            line_pieces(old@).len() as int,
            line_pieces(new@).len() as int,
        ),
        old@ != new@ ==> out@.len() > 0,
{
    let diff = TextDiff::from_lines(old, new);
    diff.grouped_ops(n).iter().map(|group| group.iter().map(|op| Op {
        old_start: op.old_range().start, old_len: op.old_range().len(),
        new_start: op.new_range().start, new_len: op.new_range().len(),
        changes: diff.iter_changes(op).map(|c| Change {
            tag: match c.tag() {
                similar::ChangeTag::Equal => ChangeTag::Equal,
                similar::ChangeTag::Delete => ChangeTag::Delete,
                similar::ChangeTag::Insert => ChangeTag::Insert,
            },
            value: c.value().to_string(),
        }).collect(),
    }).collect()).collect()
}

/// The header line of a group. Lengths stop at the largest number that a
/// `usize` can hold.
pub open spec fn group_header(ops: Seq<OpModel>) -> Seq<char> {
    range_header_of(
        start_or_zero(first_old(ops)),
        least(sum_old(ops), usize::MAX as int) as nat,
        start_or_zero(first_new(ops)),
        least(sum_new(ops), usize::MAX as int) as nat,
    )
}

/// The sign in front of a line.
pub open spec fn sign_of(tag: ChangeTag) -> char {
    match tag {
        ChangeTag::Equal => ' ',
        ChangeTag::Delete => '-',
        ChangeTag::Insert => '+',
    }
}

/// One line of a unified diff.
pub open spec fn unified_line(tag: ChangeTag, value: Seq<char>) -> Seq<char> {
    let line = seq![sign_of(tag)] + chop_of(value) + "\n"@;
    if value.len() > 0 && value.last() == '\n' {
        line
    } else {
        line + "\\ No newline at end of file\n"@
    }
}

pub open spec fn unified_lines(c: Seq<(ChangeTag, Seq<char>)>) -> Seq<char>
    decreases c.len(),
{
    if c.len() == 0 {
        Seq::empty()
    } else {
        unified_lines(c.drop_last()) + unified_line(c.last().0, c.last().1)
    }
}

pub open spec fn unified_ops(ops: Seq<OpModel>) -> Seq<char>
    decreases ops.len(),
{
    if ops.len() == 0 {
        Seq::empty()
    } else {
        unified_ops(ops.drop_last()) + unified_lines(ops.last().4)
    }
}

pub open spec fn unified_groups(groups: Seq<Seq<OpModel>>) -> Seq<char>
    decreases groups.len(),
{
    if groups.len() == 0 {
        Seq::empty()
    } else {
        unified_groups(groups.drop_last()) + (group_header(groups.last()) + "\n"@ + unified_ops(
            groups.last(),
        ))
    }
}

/// A whole unified diff.
pub open spec fn unified_of(
    groups: Seq<Seq<OpModel>>,
    old_label: Seq<char>,
    new_label: Seq<char>,
) -> Seq<char> {
    "--- "@ + old_label + "\n"@ + "+++ "@ + new_label + "\n"@ + unified_groups(groups)
}

fn write_line(out: &mut String, tag: ChangeTag, value: &str)
    ensures
        final(out)@ == old(out)@ + unified_line(tag, value@),
{
    let ghost before = out@;
    let chars = chars_of(value);
    let sign: char = match tag {
        ChangeTag::Equal => ' ',
        ChangeTag::Delete => '-',
        ChangeTag::Insert => '+',
    };
    out.push(sign);
    out.append(string_of(chop(&chars)).as_str());
    out.append("\n");
    assert(out@ =~= before + (seq![sign] + chop_of(value@) + "\n"@));
    if !(chars.len() > 0 && chars[chars.len() - 1] == '\n') {
        let ghost now = out@;
        out.append("\\ No newline at end of file\n");
        assert(out@ =~= before + (seq![sign] + chop_of(value@) + "\n"@
            + "\\ No newline at end of file\n"@));
    }
}

fn write_group(out: &mut String, ops: &Vec<Op>)
    ensures
        final(out)@ == old(out)@ + (group_header(op_models(ops@)) + "\n"@ + unified_ops(
            op_models(ops@),
        )),
{
    let ghost before = out@;
    let ghost all = op_models(ops@);
    let mut old_start: usize = usize::MAX;
    let mut new_start: usize = usize::MAX;
    let mut old_len: usize = 0;
    let mut new_len: usize = 0;
    let mut i: usize = 0;
    while i < ops.len()
        invariant
            all == op_models(ops@),
            i <= ops.len(),
            old_start == first_old(all.take(i as int)),
            new_start == first_new(all.take(i as int)),
            0 <= sum_old(all.take(i as int)),
            0 <= sum_new(all.take(i as int)),
            old_len == least(sum_old(all.take(i as int)), usize::MAX as int),
            new_len == least(sum_new(all.take(i as int)), usize::MAX as int),
        decreases ops.len() - i,
    {
        assert(all.take(i + 1).drop_last() =~= all.take(i as int));
        assert(all[i as int] == ops@[i as int]@);
        if ops[i].old_len > 0 && ops[i].old_start < old_start {
            old_start = ops[i].old_start;
        }
        if ops[i].new_len > 0 && ops[i].new_start < new_start {
            new_start = ops[i].new_start;
        }
        old_len = old_len.saturating_add(ops[i].old_len);
        new_len = new_len.saturating_add(ops[i].new_len);
        i += 1;
    }
    assert(all.take(i as int) =~= all);
    if old_start == usize::MAX {
        old_start = 0;
    }
    if new_start == usize::MAX {
        new_start = 0;
    }
    out.append(write_range_header(old_start, old_len, new_start, new_len).as_str());
    out.append("\n");
    let ghost head = group_header(all) + "\n"@;
    assert(out@ =~= before + head);
    i = 0;
    assert(out@ =~= before + (head + unified_ops(all.take(0))));
    while i < ops.len()
        invariant
            all == op_models(ops@),
            i <= ops.len(),
            out@ == before + (head + unified_ops(all.take(i as int))),
        decreases ops.len() - i,
    {
        assert(all.take(i + 1).drop_last() =~= all.take(i as int));
        assert(all[i as int] == ops@[i as int]@);
        let ghost c = all[i as int].4;
        let ghost so_far = out@;
        let changes = &ops[i].changes;
        let mut j: usize = 0;
        assert(out@ =~= so_far + unified_lines(c.take(0)));
        while j < changes.len()
            invariant
                c == change_models(changes@),
                j <= changes.len(),
                out@ == so_far + unified_lines(c.take(j as int)),
            decreases changes.len() - j,
        {
            assert(c.take(j + 1).drop_last() =~= c.take(j as int));
            let ghost now = out@;
            write_line(out, changes[j].tag, changes[j].value.as_str());
            assert(out@ =~= so_far + (unified_lines(c.take(j as int)) + unified_line(
                c[j as int].0,
                c[j as int].1,
            )));
            j += 1;
        }
        assert(c.take(j as int) =~= c);
        assert(out@ =~= before + (head + (unified_ops(all.take(i as int)) + unified_lines(c))));
        i += 1;
    }
    assert(all.take(i as int) =~= all);
}

/// Writes a unified diff from its groups of operations.
pub fn write_unified(groups: &Vec<Vec<Op>>, old_label: &str, new_label: &str) -> (out: String)
    ensures
        out@ == unified_of(group_models(groups@), old_label@, new_label@),
{
    let ghost all = group_models(groups@);
    let mut out = "--- ".to_owned();
    out.append(old_label);
    out.append("\n");
    out.append("+++ ");
    out.append(new_label);
    out.append("\n");
    let ghost head = out@;
    let mut i: usize = 0;
    assert(out@ =~= head + unified_groups(all.take(0)));
    while i < groups.len()
        invariant
            all == group_models(groups@),
            i <= groups.len(),
            out@ == head + unified_groups(all.take(i as int)),
        decreases groups.len() - i,
    {
        assert(all.take(i + 1).drop_last() =~= all.take(i as int));
        write_group(&mut out, &groups[i]);
        assert(out@ =~= head + unified_groups(all.take(i + 1)));
        i += 1;
    }
    assert(all.take(i as int) =~= all);
    out
}

/// Classic unified diff, with at least one line of context. Applied to the
/// document it starts from, it gives the document it leads to, in the newlines
/// of the first; the same holds of a document with `\r\n` line ends.
pub fn unified(
    old: &str,
    new: &str,
    old_label: &str,
    new_label: &str,
    context: usize,
) -> (out: String)
    requires
        comparable(old@, new@),
        context <= usize::MAX / 2,
    ensures
        out@ == unified_of(
            grouped_diff(
                old@,
                new@,
                if context >= 1 {
                    context
                } else {
                    1
                },
            ),
            old_label@,
            new_label@,
        ),
        old@ != new@ && paired(old@) && paired(new@) && one_line(old_label@) && one_line(new_label@)
            ==> patch_outcome(old@, out@) == Ok::<Seq<char>, ErrorModel>(
            document_of(lines_of(new@), ends_in_newline(new@), newline_of(old@)),
        ),
        old@ != new@ && no_return(old@) && no_return(new@) && one_line(old_label@) && one_line(
            new_label@,
        ) ==> patch_outcome(old@, out@) == Ok::<Seq<char>, ErrorModel>(new@),
{
    let n: usize = if context >= 1 {
        context
    } else {
        1
    };
    let groups = group_lines(old, new, n);
    proof {
        let g = group_models(groups@);
        if no_return(old@) && no_return(new@) {
            lemma_no_return(old@);
            lemma_no_return(new@);
        }
        if old@ != new@ && paired(old@) && paired(new@) && one_line(old_label@) && one_line(
            new_label@,
        ) {
            law_unified_then_apply(old@, new@, g, old_label@, new_label@);
        }
    }
    write_unified(&groups, old_label, new_label)
}

} // verus!
