//! Writing a unified diff and applying it: the two belong together.
//!
//! The grouping of changes is `similar`'s. What is shown here holds for every
//! list of groups that follows two documents: the text written from it, applied
//! to the old document, gives the new one.

use crate::diff::changes::{
    comparable, lemma_piece_count, line_end, line_pieces, new_pieces, old_pieces, ChangeTag,
};
use crate::diff::hunks::{least, range_header_of};
use crate::diff::patch::{
    closed_hunks, header_count, header_line, header_words, line_at, parsed, patch_lines,
    patch_outcome, patched, place_of, scan, scan_line, signed_word, skip_ats, stands_at,
    PatchHunkModel, Patched, Scan,
};
use crate::diff::rows::chop_of;
use crate::diff::unified::{
    changes_in, first_new, first_old, follows, group_header, sign_of, start_or_zero, sum_new,
    sum_old, unified_groups, unified_line, unified_lines, unified_of, unified_ops, OpModel,
};
use crate::error::ErrorModel;
use crate::text::{
    decimal_of, digits_value, index_of, is_digit, is_space, lemma_decimal_value,
    lemma_index_unique, lemma_words_concat, lemma_words_one, lemma_words_trim, number_of, solid,
    split_on, strip_cr, words_of,
};
use crate::util::{
    crlf_count, document_of, ends_in_newline, law_lines_round_trip, lemma_unix_line, lines_of,
    newline_of, one_line, unix_of,
};
use vstd::prelude::*;

verus! {

// ---------------------------------------------------------------------------
// Lines with and without their terminators
// ---------------------------------------------------------------------------

/// Does every carriage return stand in front of a line feed?
pub open spec fn paired(s: Seq<char>) -> bool {
    forall|k: int|
        0 <= k < s.len() && #[trigger] s[k] == '\r' ==> k + 1 < s.len() && s[k + 1] == '\n'
}

/// Does a piece end its line?
pub open spec fn ended(piece: Seq<char>) -> bool {
    piece.len() > 0 && piece.last() == '\n'
}

/// A piece without its terminator.
pub open spec fn bare(piece: Seq<char>) -> Seq<char> {
    if ended(piece) {
        strip_cr(piece.drop_last())
    } else {
        piece
    }
}

pub open spec fn bares(pieces: Seq<Seq<char>>) -> Seq<Seq<char>> {
    Seq::new(pieces.len(), |i: int| bare(pieces[i]))
}

/// Pieces that hold no newline but their terminators.
spec fn all_bare(pieces: Seq<Seq<char>>) -> bool {
    forall|i: int| 0 <= i < pieces.len() ==> one_line(bare(#[trigger] pieces[i]))
}

/// Where the line at `i` meets its terminator.
proof fn lemma_line_shape(s: Seq<char>, i: int) -> (j: int)
    requires
        paired(s),
        0 <= i < s.len(),
    ensures
        i <= j <= s.len(),
        forall|k: int| i <= k < j ==> s[k] != '\n' && s[k] != '\r',
        j < s.len() && s[j] == '\n' ==> line_end(s, i) == j + 1,
        j < s.len() && s[j] != '\n' ==> s[j] == '\r' && j + 1 < s.len() && s[j + 1] == '\n'
            && line_end(s, i) == j + 2,
        j == s.len() ==> line_end(s, i) == j,
    decreases s.len() - i,
{
    if s[i] == '\n' || s[i] == '\r' {
        i
    } else if i + 1 < s.len() {
        lemma_line_shape(s, i + 1)
    } else {
        assert(line_end(s, i + 1) == s.len());
        i + 1
    }
}

/// A line feed divides the lines in front of it from those behind.
proof fn lemma_split_line(line: Seq<char>, rest: Seq<char>)
    requires
        one_line(line),
    ensures
        split_on(line + seq!['\n'] + rest, '\n') == seq![line] + split_on(rest, '\n'),
        split_on(line, '\n') == seq![line],
{
    let s = line + seq!['\n'] + rest;
    let n = line.len() as int;
    assert forall|k: int| 0 <= k < n implies s[k] != '\n' by {
        assert(s[k] == line[k]);
    }
    assert(s[n] == '\n');
    lemma_index_unique(s, '\n', n);
    assert(s.take(n) =~= line);
    assert(s.skip(n + 1) =~= rest);
    lemma_index_unique(line, '\n', n);
}

/// The pieces of a document without their terminators are its lines, and all
/// but the last piece end their line.
proof fn lemma_pieces_are_lines(s: Seq<char>)
    requires
        paired(s),
    ensures
        lines_of(s) == bares(line_pieces(s)),
        all_bare(line_pieces(s)),
        forall|i: int| 0 <= i < line_pieces(s).len() - 1 ==> ended(#[trigger] line_pieces(s)[i]),
        ends_in_newline(s) == (line_pieces(s).len() > 0 && ended(line_pieces(s).last())),
    decreases s.len(),
{
    let all = line_pieces(s);
    if s.len() == 0 {
        assert(lines_of(s) =~= bares(all));
    } else {
        let j = lemma_line_shape(s, 0);
        let e = line_end(s, 0);
        let b = s.take(j);
        let p = s.take(e);
        let rest = s.skip(e);
        let tail = line_pieces(rest);
        assert(one_line(b));
        assert(paired(rest)) by {
            assert forall|k: int| 0 <= k < rest.len() && #[trigger] rest[k] == '\r' implies k + 1
                < rest.len() && rest[k + 1] == '\n' by {
                assert(s[e + k] == '\r');
                assert(s[e + k + 1] == '\n');
            }
        }
        lemma_pieces_are_lines(rest);
        assert(all == seq![p] + tail);
        assert(bare(p) =~= b) by {
            if j < s.len() {
                assert(p.last() == '\n');
                if s[j] == '\n' {
                    assert(p.drop_last() =~= b);
                    assert(j > 0 ==> b.last() == s[j - 1]);
                } else {
                    assert(p.drop_last().last() == '\r');
                    assert(p.drop_last().drop_last() =~= b);
                }
            } else {
                assert(p =~= b);
                assert(p.last() == s[j - 1]);
            }
        }
        assert(bares(all) =~= seq![b] + bares(tail));
        assert forall|i: int| 0 <= i < all.len() implies one_line(bare(#[trigger] all[i])) by {
            if i > 0 {
                assert(all[i] == tail[i - 1]);
            }
        }
        if j == s.len() {
            assert(rest.len() == 0);
            assert(b =~= s);
            lemma_unix_line(b, seq!['\n'], Seq::empty());
            lemma_split_line(b, Seq::empty());
            assert(s.last() == s[j - 1]);
            assert(tail.len() == 0);
            assert(lines_of(s) =~= bares(all));
            assert(all.last() == p);
        } else {
            let newline = s.subrange(j, e);
            if s[j] == '\n' {
                assert(newline =~= seq!['\n']);
            } else {
                assert(newline =~= seq!['\r', '\n']);
            }
            assert(s =~= b + newline + rest);
            lemma_unix_line(b, newline, rest);
            let x = unix_of(rest);
            let n = unix_of(s);
            assert(n == b + seq!['\n'] + x);
            assert(ended(p));
            if x.len() == 0 {
                assert(rest.len() == 0);
                assert(n.drop_last() =~= b);
                lemma_split_line(b, Seq::empty());
                assert(tail.len() == 0);
                assert(lines_of(s) =~= bares(all));
                assert(all.last() == p);
            } else {
                assert(rest.len() > 0);
                assert(n.last() == x.last());
                lemma_split_line(b, x);
                lemma_split_line(b, x.drop_last());
                assert(n.drop_last() =~= b + seq!['\n'] + x.drop_last());
                assert(lines_of(s) == seq![b] + lines_of(rest));
                assert(tail.len() > 0);
                assert(all.last() == tail.last());
            }
            assert forall|i: int| 0 <= i < all.len() - 1 implies ended(#[trigger] all[i]) by {
                if i > 0 {
                    assert(all[i] == tail[i - 1]);
                }
            }
        }
    }
}

// ---------------------------------------------------------------------------
// The lines of a written diff
// ---------------------------------------------------------------------------

/// The lines that stand for one change.
spec fn written(tag: ChangeTag, value: Seq<char>) -> Seq<Seq<char>> {
    let line = seq![sign_of(tag)] + bare(value);
    if ended(value) {
        seq![line]
    } else {
        seq![line, "\\ No newline at end of file"@]
    }
}

spec fn written_all(c: Seq<(ChangeTag, Seq<char>)>) -> Seq<Seq<char>>
    decreases c.len(),
{
    if c.len() == 0 {
        Seq::empty()
    } else {
        written_all(c.drop_last()) + written(c.last().0, c.last().1)
    }
}

spec fn written_groups(groups: Seq<Seq<OpModel>>) -> Seq<Seq<char>>
    decreases groups.len(),
{
    if groups.len() == 0 {
        Seq::empty()
    } else {
        written_groups(groups.drop_last()) + (seq![group_header(groups.last())] + written_all(
            changes_in(groups.last()),
        ))
    }
}

/// Changes that hold no newline but their terminators.
spec fn plain_changes(c: Seq<(ChangeTag, Seq<char>)>) -> bool {
    forall|i: int| 0 <= i < c.len() ==> one_line(bare((#[trigger] c[i]).1))
}

spec fn plain_groups(groups: Seq<Seq<OpModel>>) -> bool {
    forall|i: int| 0 <= i < groups.len() ==> plain_changes(changes_in(#[trigger] groups[i]))
}

/// The first line of a patch stands by itself.
proof fn lemma_patch_line(line: Seq<char>, newline: Seq<char>, rest: Seq<char>)
    requires
        one_line(line),
        newline == seq!['\n'] || newline == seq!['\r', '\n'],
    ensures
        patch_lines(line + newline + rest) == seq![line] + patch_lines(rest),
{
    lemma_unix_line(line, newline, rest);
    let s = line + seq!['\n'] + unix_of(rest);
    let n = line.len() as int;
    assert forall|k: int| 0 <= k < n implies s[k] != '\n' by {
        assert(s[k] == line[k]);
    }
    assert(s[n] == '\n');
    lemma_index_unique(s, '\n', n);
    assert(s.take(n) =~= line);
    assert(n > 0 ==> line.last() == line[n - 1]);
    assert(s.skip(n + 1) =~= unix_of(rest));
}

proof fn lemma_read_line(tag: ChangeTag, value: Seq<char>, rest: Seq<char>)
    requires
        one_line(bare(value)),
    ensures
        patch_lines(unified_line(tag, value) + rest) == written(tag, value) + patch_lines(rest),
{
    reveal_strlit("\n");
    let sign = seq![sign_of(tag)];
    let b = bare(value);
    let line = sign + b;
    assert(one_line(line)) by {
        assert forall|k: int| 0 <= k < line.len() implies line[k] != '\n' && line[k] != '\r' by {
            if k > 0 {
                assert(line[k] == b[k - 1]);
            }
        }
    }
    if ended(value) {
        let d = value.drop_last();
        assert(chop_of(value) == d) by {
            if d.len() > 0 && d.last() != '\r' {
                assert(d.last() == b[b.len() - 1]);
            }
            assert(chop_of(d) == d);
        }
        let newline = if d.len() > 0 && d.last() == '\r' {
            seq!['\r', '\n']
        } else {
            seq!['\n']
        };
        assert(unified_line(tag, value) + rest =~= line + newline + rest);
        lemma_patch_line(line, newline, rest);
    } else {
        reveal_strlit("\\ No newline at end of file");
        reveal_strlit("\\ No newline at end of file\n");
        let marker = "\\ No newline at end of file"@;
        let after = marker + seq!['\n'] + rest;
        assert("\\ No newline at end of file\n"@ =~= marker + seq!['\n']);
        assert(unified_line(tag, value) + rest =~= line + seq!['\n'] + after);
        lemma_patch_line(line, seq!['\n'], after);
        lemma_patch_line(marker, seq!['\n'], rest);
        assert(seq![line] + (seq![marker] + patch_lines(rest)) =~= written(tag, value)
            + patch_lines(rest));
    }
}

proof fn lemma_read_lines(c: Seq<(ChangeTag, Seq<char>)>, rest: Seq<char>)
    requires
        plain_changes(c),
    ensures
        patch_lines(unified_lines(c) + rest) == written_all(c) + patch_lines(rest),
    decreases c.len(),
{
    if c.len() == 0 {
        assert(unified_lines(c) + rest =~= rest);
        assert(written_all(c) + patch_lines(rest) =~= patch_lines(rest));
    } else {
        let d = c.drop_last();
        let last = c.last();
        let after = unified_line(last.0, last.1) + rest;
        assert(plain_changes(d)) by {
            assert forall|i: int| 0 <= i < d.len() implies one_line(bare((#[trigger] d[i]).1)) by {
                assert(d[i] == c[i]);
            }
        }
        assert(one_line(bare(c[c.len() - 1].1)));
        lemma_read_lines(d, after);
        lemma_read_line(last.0, last.1, rest);
        assert(unified_lines(c) + rest =~= unified_lines(d) + after);
        assert(written_all(d) + (written(last.0, last.1) + patch_lines(rest)) =~= written_all(c)
            + patch_lines(rest));
    }
}

proof fn lemma_unified_concat(a: Seq<(ChangeTag, Seq<char>)>, b: Seq<(ChangeTag, Seq<char>)>)
    ensures
        unified_lines(a + b) == unified_lines(a) + unified_lines(b),
    decreases b.len(),
{
    if b.len() == 0 {
        assert(a + b =~= a);
        assert(unified_lines(a) + unified_lines(b) =~= unified_lines(a));
    } else {
        lemma_unified_concat(a, b.drop_last());
        assert((a + b).drop_last() =~= a + b.drop_last());
        assert((a + b).last() == b.last());
        assert(unified_lines(a + b) =~= unified_lines(a) + unified_lines(b));
    }
}

/// A group is written as its changes are, one behind the other.
proof fn lemma_unified_ops(ops: Seq<OpModel>)
    ensures
        unified_ops(ops) == unified_lines(changes_in(ops)),
    decreases ops.len(),
{
    if ops.len() > 0 {
        lemma_unified_ops(ops.drop_last());
        lemma_unified_concat(changes_in(ops.drop_last()), ops.last().4);
    }
}

/// The digits of a number are no white space and no sign.
proof fn lemma_digits_plain(n: nat)
    ensures
        solid(decimal_of(n)),
        one_line(decimal_of(n)),
{
    lemma_decimal_value(n);
    let s = decimal_of(n);
    assert forall|k: int| 0 <= k < s.len() implies !is_space(#[trigger] s[k]) && s[k] != '\n'
        && s[k] != '\r' by {
        assert(is_digit(s[k]));
    }
}

/// A header is one line, names the old line it was written for and declares
/// the lines of its group.
proof fn lemma_header(a: nat, b: nat, c: nat, d: nat)
    requires
        a < usize::MAX,
        b <= usize::MAX,
        d <= usize::MAX,
    ensures
        header_line(range_header_of(a, b, c, d)) == Some(a as int),
        header_count(range_header_of(a, b, c, d), '-') == b,
        header_count(range_header_of(a, b, c, d), '+') == d,
        "@@"@.is_prefix_of(range_header_of(a, b, c, d)),
        one_line(range_header_of(a, b, c, d)),
{
    reveal_strlit("@@");
    reveal_strlit("@@ -");
    reveal_strlit(",");
    reveal_strlit(" +");
    reveal_strlit(" @@");
    let raw = range_header_of(a, b, c, d);
    let da = decimal_of(a + 1);
    let db = decimal_of(b);
    let dc = decimal_of(c + 1);
    let dd = decimal_of(d);
    lemma_digits_plain(a + 1);
    lemma_digits_plain(b);
    lemma_digits_plain(c + 1);
    lemma_digits_plain(d);
    lemma_decimal_value(a + 1);
    lemma_decimal_value(b);
    lemma_decimal_value(c + 1);
    lemma_decimal_value(d);
    let word = seq!['-'] + da + seq![','] + db;
    let rest = seq!['+'] + dc + seq![','] + dd + seq![' ', '@', '@'];
    let body = word.push(' ') + rest;
    let t = seq![' '] + body;
    assert(raw =~= seq!['@', '@'] + t);
    assert("@@"@ =~= raw.subrange(0, 2));
    assert(one_line(raw)) by {
        assert(one_line(word)) by {
            assert forall|k: int| 0 <= k < word.len() implies word[k] != '\n' && word[k]
                != '\r' by {
                if 1 <= k < 1 + da.len() {
                    assert(word[k] == da[k - 1]);
                } else if k > 1 + da.len() {
                    assert(word[k] == db[k - 2 - da.len()]);
                }
            }
        }
        assert(one_line(rest)) by {
            assert forall|k: int| 0 <= k < rest.len() implies rest[k] != '\n' && rest[k]
                != '\r' by {
                if 1 <= k < 1 + dc.len() {
                    assert(rest[k] == dc[k - 1]);
                } else if 1 + dc.len() < k < 2 + dc.len() + dd.len() {
                    assert(rest[k] == dd[k - 2 - dc.len()]);
                }
            }
        }
        assert forall|k: int| 0 <= k < raw.len() implies raw[k] != '\n' && raw[k] != '\r' by {
            if 3 <= k < 3 + word.len() {
                assert(raw[k] == word[k - 3]);
            } else if k > 3 + word.len() {
                assert(raw[k] == rest[k - 4 - word.len()]);
            }
        }
    }
    assert(skip_ats(raw) == t) by {
        assert(raw.skip(1) =~= seq!['@'] + t);
        assert(raw.skip(1).skip(1) =~= t);
        assert(t[0] == ' ');
        assert(skip_ats(t) == t);
        assert(skip_ats(raw.skip(1)) == t);
    }
    let empty = Seq::<char>::empty();
    lemma_words_trim(t);
    assert(empty.push(' ') + body =~= t);
    lemma_words_concat(empty, ' ', body);
    lemma_words_concat(word, ' ', rest);
    assert(solid(word)) by {
        assert forall|k: int| 0 <= k < word.len() implies !is_space(#[trigger] word[k]) by {
            if 1 <= k < 1 + da.len() {
                assert(word[k] == da[k - 1]);
            } else if k > 1 + da.len() {
                assert(word[k] == db[k - 2 - da.len()]);
            }
        }
    }
    lemma_words_one(word);
    let second = seq!['+'] + dc + seq![','] + dd;
    let ats = seq!['@', '@'];
    assert(rest =~= second.push(' ') + ats);
    lemma_words_concat(second, ' ', ats);
    assert(solid(second)) by {
        assert forall|k: int| 0 <= k < second.len() implies !is_space(#[trigger] second[k]) by {
            if 1 <= k < 1 + dc.len() {
                assert(second[k] == dc[k - 1]);
            } else if k > 1 + dc.len() {
                assert(second[k] == dd[k - 2 - dc.len()]);
            }
        }
    }
    lemma_words_one(second);
    let all = header_words(raw);
    assert(words_of(empty).len() == 0);
    assert(all[0] == word);
    assert(all[1] == second);
    assert(signed_word(all, '-', 0) == Some(word));
    assert(signed_word(all, '+', 1) == Some(second));
    assert(signed_word(all, '+', 0) == Some(second));
    lemma_range_word(word, '-', da, db);
    lemma_range_word(second, '+', dc, dd);
    assert(number_of(da) == Some(a + 1));
    assert(number_of(db) == Some(b));
    assert(number_of(dd) == Some(d));
}

/// The two numbers of a word like `-12,7`.
proof fn lemma_range_word(word: Seq<char>, sign: char, a: Seq<char>, b: Seq<char>)
    requires
        word == seq![sign] + a + seq![','] + b,
        a.len() > 0,
        b.len() > 0,
        forall|i: int| 0 <= i < a.len() ==> is_digit(#[trigger] a[i]),
        forall|i: int| 0 <= i < b.len() ==> is_digit(#[trigger] b[i]),
    ensures
        index_of(word.skip(1), ',') == a.len(),
        word.skip(1).len() > a.len(),
        word.skip(1).take(a.len() as int) == a,
        word.skip(1).skip(a.len() as int + 1) == b,
        number_of(a) == digits_value(a),
        number_of(b) == digits_value(b),
{
    let numeric = word.skip(1);
    assert(numeric =~= a + seq![','] + b);
    assert forall|k: int| 0 <= k < a.len() implies numeric[k] != ',' by {
        assert(numeric[k] == a[k]);
        assert(is_digit(a[k]));
    }
    lemma_index_unique(numeric, ',', a.len() as int);
    assert(numeric.take(a.len() as int) =~= a);
    assert(numeric.skip(a.len() as int + 1) =~= b);
    assert(is_digit(a[0]));
    assert(is_digit(b[0]));
}

/// Sums of lengths are no less than nothing.
proof fn lemma_sums(ops: Seq<OpModel>)
    ensures
        0 <= sum_old(ops),
        0 <= sum_new(ops),
    decreases ops.len(),
{
    if ops.len() > 0 {
        lemma_sums(ops.drop_last());
    }
}

proof fn lemma_group_header(ops: Seq<OpModel>)
    ensures
        header_line(group_header(ops)) == Some(start_or_zero(first_old(ops)) as int),
        header_count(group_header(ops), '-') == least(sum_old(ops), usize::MAX as int),
        header_count(group_header(ops), '+') == least(sum_new(ops), usize::MAX as int),
        "@@"@.is_prefix_of(group_header(ops)),
        one_line(group_header(ops)),
{
    lemma_sums(ops);
    lemma_header(
        start_or_zero(first_old(ops)),
        least(sum_old(ops), usize::MAX as int) as nat,
        start_or_zero(first_new(ops)),
        least(sum_new(ops), usize::MAX as int) as nat,
    );
}

proof fn lemma_read_groups(groups: Seq<Seq<OpModel>>, rest: Seq<char>)
    requires
        plain_groups(groups),
    ensures
        patch_lines(unified_groups(groups) + rest) == written_groups(groups) + patch_lines(rest),
    decreases groups.len(),
{
    if groups.len() == 0 {
        assert(unified_groups(groups) + rest =~= rest);
        assert(written_groups(groups) + patch_lines(rest) =~= patch_lines(rest));
    } else {
        reveal_strlit("\n");
        assert("\n"@ =~= seq!['\n']);
        let d = groups.drop_last();
        let g = groups.last();
        let header = group_header(g);
        assert(plain_groups(d)) by {
            assert forall|i: int| 0 <= i < d.len() implies plain_changes(
                changes_in(#[trigger] d[i]),
            ) by {
                assert(d[i] == groups[i]);
            }
        }
        assert(plain_changes(changes_in(groups[groups.len() - 1])));
        lemma_unified_ops(g);
        lemma_group_header(g);
        let body = unified_lines(changes_in(g)) + rest;
        let after = header + seq!['\n'] + body;
        lemma_read_groups(d, after);
        lemma_patch_line(header, seq!['\n'], body);
        lemma_read_lines(changes_in(g), rest);
        assert(unified_groups(groups) + rest =~= unified_groups(d) + after);
        assert(written_groups(d) + (seq![header] + (written_all(changes_in(g)) + patch_lines(rest)))
            =~= written_groups(groups) + patch_lines(rest));
    }
}

// ---------------------------------------------------------------------------
// What a reader makes of them
// ---------------------------------------------------------------------------

/// Does some line of the new side not end?
spec fn open_in(c: Seq<(ChangeTag, Seq<char>)>) -> bool
    decreases c.len(),
{
    c.len() > 0 && (open_in(c.drop_last()) || (c.last().0 != ChangeTag::Delete && !ended(
        c.last().1,
    )))
}

/// A hunk with some more changes read into it.
spec fn hunk_with(h: PatchHunkModel, c: Seq<(ChangeTag, Seq<char>)>) -> PatchHunkModel {
    PatchHunkModel {
        old_start: h.old_start,
        old_lines: h.old_lines + bares(old_pieces(c)),
        new_lines: h.new_lines + bares(new_pieces(c)),
        no_newline_new: h.no_newline_new || open_in(c),
    }
}

/// The hunk that a group is read as.
spec fn hunk_for(ops: Seq<OpModel>) -> PatchHunkModel {
    PatchHunkModel {
        old_start: start_or_zero(first_old(ops)) as int,
        old_lines: bares(old_pieces(changes_in(ops))),
        new_lines: bares(new_pieces(changes_in(ops))),
        no_newline_new: open_in(changes_in(ops)),
    }
}

spec fn hunks_for(groups: Seq<Seq<OpModel>>) -> Seq<PatchHunkModel> {
    Seq::new(groups.len(), |i: int| hunk_for(groups[i]))
}

/// A hunk with one more line read into it.
spec fn hunk_then(h: PatchHunkModel, tag: ChangeTag, text: Seq<char>) -> PatchHunkModel {
    PatchHunkModel {
        old_lines: if tag == ChangeTag::Insert {
            h.old_lines
        } else {
            h.old_lines.push(text)
        },
        new_lines: if tag == ChangeTag::Delete {
            h.new_lines
        } else {
            h.new_lines.push(text)
        },
        ..h
    }
}

/// The line of a change, read into a hunk that is still owed it.
proof fn lemma_line_read(
    state: Scan,
    h: PatchHunkModel,
    tag: ChangeTag,
    text: Seq<char>,
    next: Option<Seq<char>>,
)
    requires
        state matches Scan::Reading { current, due, .. } && current == Some(h) && (tag
            == ChangeTag::Delete ==> h.old_lines.len() < due.0),
    ensures
        scan_line(state, seq![sign_of(tag)] + text, next) == (Scan::Reading {
            hunks: state->hunks,
            current: Some(hunk_then(h, tag, text)),
            due: state->due,
            previous: Some(sign_of(tag)),
        }),
{
    reveal_strlit("@@");
    reveal_strlit("--- ");
    reveal_strlit("\\ No newline");
    let line = seq![sign_of(tag)] + text;
    assert(line[0] == sign_of(tag));
    assert(line.skip(1) =~= text);
    if "@@"@.is_prefix_of(line) {
        assert("@@"@[0] == line.subrange(0, 2)[0]);
    }
    if "\\ No newline"@.is_prefix_of(line) {
        assert("\\ No newline"@[0] == line.subrange(0, 12)[0]);
    }
    if "--- "@.is_prefix_of(line) {
        assert("--- "@[0] == line.subrange(0, 4)[0]);
        assert(tag == ChangeTag::Delete);
    }
}

/// The mark of a line that does not end.
proof fn lemma_mark_read(state: Scan, h: PatchHunkModel, next: Option<Seq<char>>)
    requires
        state matches Scan::Reading { current, .. } && current == Some(h),
    ensures
        scan_line(state, "\\ No newline at end of file"@, next) == (Scan::Reading {
            hunks: state->hunks,
            current: Some(
                PatchHunkModel {
                    no_newline_new: h.no_newline_new || state->previous == Some('+')
                        || state->previous == Some(' '),
                    ..h
                },
            ),
            due: state->due,
            previous: state->previous,
        }),
{
    reveal_strlit("@@");
    reveal_strlit("--- ");
    reveal_strlit("\\ No newline");
    reveal_strlit("\\ No newline at end of file");
    let mark = "\\ No newline at end of file"@;
    assert(mark[0] == '\\');
    if "@@"@.is_prefix_of(mark) {
        assert("@@"@[0] == mark.subrange(0, 2)[0]);
    }
    if "--- "@.is_prefix_of(mark) {
        assert("--- "@[0] == mark.subrange(0, 4)[0]);
    }
    assert("\\ No newline"@ =~= mark.subrange(0, 12));
}

/// Reading one more change into a hunk is reading its line, and its mark.
proof fn lemma_hunk_with(h: PatchHunkModel, c: Seq<(ChangeTag, Seq<char>)>)
    requires
        c.len() > 0,
    ensures
        hunk_with(h, c) == (PatchHunkModel {
            no_newline_new: h.no_newline_new || open_in(c),
            ..hunk_then(hunk_with(h, c.drop_last()), c.last().0, bare(c.last().1))
        }),
{
    let d = c.drop_last();
    let value = c.last().1;
    let h0 = hunk_with(h, d);
    assert(bares(old_pieces(d)).push(bare(value)) =~= bares(old_pieces(d).push(value)));
    assert(bares(new_pieces(d)).push(bare(value)) =~= bares(new_pieces(d).push(value)));
    assert(h.old_lines + bares(old_pieces(d)).push(bare(value)) =~= h0.old_lines.push(bare(value)));
    assert(h.new_lines + bares(new_pieces(d)).push(bare(value)) =~= h0.new_lines.push(bare(value)));
}

/// The changes of a group, read behind its header.
proof fn lemma_scan_changes(
    raws: Seq<Seq<char>>,
    at: int,
    hunks: Seq<PatchHunkModel>,
    h: PatchHunkModel,
    due: (int, int),
    c: Seq<(ChangeTag, Seq<char>)>,
)
    requires
        0 <= at,
        at + written_all(c).len() <= raws.len(),
        raws.subrange(at, at + written_all(c).len()) == written_all(c),
        h.old_lines.len() + old_pieces(c).len() <= due.0,
        h.new_lines.len() + new_pieces(c).len() <= due.1,
        scan(raws, at) matches Scan::Reading { hunks: hs, current, due: d, .. } && hs == hunks
            && current == Some(h) && d == due,
    ensures
        scan(raws, at + written_all(c).len()) matches Scan::Reading {
            hunks: hs,
            current,
            due: d,
            ..
        } && hs == hunks && current == Some(hunk_with(h, c)) && d == due,
    decreases c.len(),
{
    if c.len() == 0 {
        assert(h.old_lines + bares(old_pieces(c)) =~= h.old_lines);
        assert(h.new_lines + bares(new_pieces(c)) =~= h.new_lines);
    } else {
        let d = c.drop_last();
        let tag = c.last().0;
        let value = c.last().1;
        let all = written_all(c);
        let m = written_all(d).len() as int;
        let k = at + m;
        assert(raws.subrange(at, k) =~= all.subrange(0, m));
        assert(all.subrange(0, m) =~= written_all(d));
        lemma_scan_changes(raws, at, hunks, h, due, d);
        let h0 = hunk_with(h, d);
        assert(raws[k] == raws.subrange(at, at + all.len())[m]);
        assert(raws[k] == seq![sign_of(tag)] + bare(value));
        lemma_line_read(scan(raws, k), h0, tag, bare(value), line_at(raws, k + 1));
        lemma_hunk_with(h, c);
        let read = hunk_then(h0, tag, bare(value));
        assert(scan(raws, k + 1) == (Scan::Reading {
            hunks,
            current: Some(read),
            due,
            previous: Some(sign_of(tag)),
        }));
        if !ended(value) {
            assert(raws[k + 1] == raws.subrange(at, at + all.len())[m + 1]);
            lemma_mark_read(scan(raws, k + 1), read, line_at(raws, k + 2));
            assert(scan(raws, k + 2) == scan_line(
                scan(raws, k + 1),
                raws[k + 1],
                line_at(raws, k + 2),
            ));
        }
    }
}

/// Does the header of every group declare its lines in full?
spec fn counted(groups: Seq<Seq<OpModel>>) -> bool {
    forall|i: int|
        0 <= i < groups.len() ==> {
            let g = #[trigger] groups[i];
            &&& old_pieces(changes_in(g)).len() == sum_old(g) <= usize::MAX
            &&& new_pieces(changes_in(g)).len() == sum_new(g) <= usize::MAX
        }
}

/// The groups of a diff, read behind its two file lines.
proof fn lemma_scan_groups(raws: Seq<Seq<char>>, at: int, groups: Seq<Seq<OpModel>>)
    requires
        0 <= at,
        at + written_groups(groups).len() <= raws.len(),
        raws.subrange(at, at + written_groups(groups).len()) == written_groups(groups),
        counted(groups),
        scan(raws, at) matches Scan::Reading { hunks, current, .. } && hunks.len() == 0 && current
            is None,
    ensures
        scan(raws, at + written_groups(groups).len()) matches Scan::Reading { hunks, current, .. }
            && closed_hunks(hunks, current) == hunks_for(groups),
    decreases groups.len(),
{
    let all = written_groups(groups);
    if groups.len() == 0 {
        assert(hunks_for(groups) =~= Seq::<PatchHunkModel>::empty());
        assert(scan(raws, at)->hunks =~= Seq::<PatchHunkModel>::empty());
    } else {
        let d = groups.drop_last();
        let g = groups.last();
        let c = changes_in(g);
        let m = written_groups(d).len() as int;
        let w = written_all(c).len() as int;
        assert(all.len() == m + 1 + w);
        assert(raws.subrange(at, at + m) =~= all.subrange(0, m));
        assert(all.subrange(0, m) =~= written_groups(d));
        assert(counted(d)) by {
            assert forall|i: int| 0 <= i < d.len() implies {
                let x = #[trigger] d[i];
                &&& old_pieces(changes_in(x)).len() == sum_old(x) <= usize::MAX
                &&& new_pieces(changes_in(x)).len() == sum_new(x) <= usize::MAX
            } by {
                assert(d[i] == groups[i]);
            }
        }
        assert(groups[groups.len() - 1] == g);
        lemma_scan_groups(raws, at, d);
        lemma_group_header(g);
        let header = group_header(g);
        assert(raws[at + m] == raws.subrange(at, at + all.len())[m]);
        assert(raws[at + m] == header);
        let h = PatchHunkModel {
            old_start: start_or_zero(first_old(g)) as int,
            old_lines: Seq::empty(),
            new_lines: Seq::empty(),
            no_newline_new: false,
        };
        assert(scan(raws, at + m + 1) == scan_line(
            scan(raws, at + m),
            header,
            line_at(raws, at + m + 1),
        ));
        assert(raws.subrange(at + m + 1, at + m + 1 + w) =~= all.subrange(m + 1, m + 1 + w));
        assert(all.subrange(m + 1, m + 1 + w) =~= written_all(c));
        lemma_scan_changes(raws, at + m + 1, hunks_for(d), h, (sum_old(g), sum_new(g)), c);
        let read = hunk_with(h, c);
        assert(read.old_lines =~= hunk_for(g).old_lines);
        assert(read.new_lines =~= hunk_for(g).new_lines);
        assert(hunks_for(d).push(read) =~= hunks_for(groups));
    }
}

/// The file lines in front of the first hunk are passed over.
proof fn lemma_scan_front(raws: Seq<Seq<char>>, old_label: Seq<char>, new_label: Seq<char>)
    requires
        raws.len() >= 2,
        raws[0] == "--- "@ + old_label,
        raws[1] == "+++ "@ + new_label,
    ensures
        scan(raws, 2) == scan(raws, 0),
{
    reveal_strlit("@@");
    reveal_strlit("--- ");
    reveal_strlit("+++ ");
    let a = raws[0];
    let b = raws[1];
    assert(!"@@"@.is_prefix_of(a)) by {
        if "@@"@.is_prefix_of(a) {
            assert("@@"@[0] == a.subrange(0, 2)[0]);
        }
    }
    assert(!"@@"@.is_prefix_of(b)) by {
        if "@@"@.is_prefix_of(b) {
            assert("@@"@[0] == b.subrange(0, 2)[0]);
        }
    }
    assert(scan(raws, 1) == scan_line(scan(raws, 0), a, line_at(raws, 1)));
    assert(scan(raws, 2) == scan_line(scan(raws, 1), b, line_at(raws, 2)));
}

/// A written diff is read as one hunk for each group.
proof fn lemma_parsed(groups: Seq<Seq<OpModel>>, old_label: Seq<char>, new_label: Seq<char>)
    requires
        groups.len() > 0,
        plain_groups(groups),
        counted(groups),
        one_line(old_label),
        one_line(new_label),
    ensures
        parsed(unified_of(groups, old_label, new_label)) == Ok::<
            Seq<PatchHunkModel>,
            ErrorModel,
        >(hunks_for(groups)),
{
    reveal_strlit("\n");
    reveal_strlit("--- ");
    reveal_strlit("+++ ");
    let a = "--- "@ + old_label;
    let b = "+++ "@ + new_label;
    assert(one_line(a)) by {
        assert forall|k: int| 0 <= k < a.len() implies a[k] != '\n' && a[k] != '\r' by {
            if k >= 4 {
                assert(a[k] == old_label[k - 4]);
            }
        }
    }
    assert(one_line(b)) by {
        assert forall|k: int| 0 <= k < b.len() implies b[k] != '\n' && b[k] != '\r' by {
            if k >= 4 {
                assert(b[k] == new_label[k - 4]);
            }
        }
    }
    let body = unified_groups(groups);
    let empty = Seq::<char>::empty();
    let after = b + seq!['\n'] + body;
    lemma_patch_line(a, seq!['\n'], after);
    lemma_patch_line(b, seq!['\n'], body);
    lemma_read_groups(groups, empty);
    assert(body + empty =~= body);
    assert(patch_lines(empty).len() == 0);
    assert(unified_of(groups, old_label, new_label) =~= a + seq!['\n'] + after);
    let front = seq![a, b];
    let raws = front + written_groups(groups);
    assert(seq![a] + (seq![b] + (written_groups(groups) + patch_lines(empty))) =~= raws);
    lemma_scan_front(raws, old_label, new_label);
    assert(raws.subrange(2, 2int + written_groups(groups).len()) =~= written_groups(groups));
    lemma_scan_groups(raws, 2, groups);
}

// ---------------------------------------------------------------------------
// Applying what was written
// ---------------------------------------------------------------------------

proof fn lemma_bares_part(pieces: Seq<Seq<char>>, i: int, j: int)
    requires
        0 <= i <= j <= pieces.len(),
    ensures
        bares(pieces.subrange(i, j)) == bares(pieces).subrange(i, j),
{
    assert(bares(pieces.subrange(i, j)) =~= bares(pieces).subrange(i, j));
}

proof fn lemma_plain_from_pieces(c: Seq<(ChangeTag, Seq<char>)>)
    requires
        all_bare(old_pieces(c)),
        all_bare(new_pieces(c)),
    ensures
        plain_changes(c),
    decreases c.len(),
{
    if c.len() > 0 {
        let d = c.drop_last();
        let o = old_pieces(c);
        let n = new_pieces(c);
        assert(all_bare(old_pieces(d))) by {
            assert forall|i: int| 0 <= i < old_pieces(d).len() implies one_line(
                bare(#[trigger] old_pieces(d)[i]),
            ) by {
                assert(o[i] == old_pieces(d)[i]);
            }
        }
        assert(all_bare(new_pieces(d))) by {
            assert forall|i: int| 0 <= i < new_pieces(d).len() implies one_line(
                bare(#[trigger] new_pieces(d)[i]),
            ) by {
                assert(n[i] == new_pieces(d)[i]);
            }
        }
        lemma_plain_from_pieces(d);
        assert forall|i: int| 0 <= i < c.len() implies one_line(bare((#[trigger] c[i]).1)) by {
            if i < d.len() {
                assert(d[i] == c[i]);
            } else if c.last().0 == ChangeTag::Insert {
                assert(n[n.len() - 1] == c.last().1);
            } else {
                assert(o[o.len() - 1] == c.last().1);
            }
        }
    }
}

proof fn lemma_groups_plain(
    groups: Seq<Seq<OpModel>>,
    old: Seq<Seq<char>>,
    new: Seq<Seq<char>>,
    old_end: int,
    new_end: int,
)
    requires
        follows(groups, old, new, old_end, new_end),
        all_bare(old),
        all_bare(new),
        old.len() <= usize::MAX,
        new.len() <= usize::MAX,
    ensures
        plain_groups(groups),
        counted(groups),
    decreases groups.len(),
{
    if groups.len() > 0 {
        let d = groups.drop_last();
        let g = groups.last();
        let o = start_or_zero(first_old(g)) as int;
        let n = start_or_zero(first_new(g)) as int;
        let c = changes_in(g);
        lemma_groups_plain(d, old, new, o, n);
        lemma_sums(g);
        assert(old.subrange(o, o + sum_old(g)).len() == sum_old(g));
        assert(new.subrange(n, n + sum_new(g)).len() == sum_new(g));
        assert forall|i: int| 0 <= i < groups.len() implies {
            let x = #[trigger] groups[i];
            &&& old_pieces(changes_in(x)).len() == sum_old(x) <= usize::MAX
            &&& new_pieces(changes_in(x)).len() == sum_new(x) <= usize::MAX
        } by {
            if i < d.len() {
                assert(d[i] == groups[i]);
            }
        }
        assert forall|i: int| 0 <= i < old_pieces(c).len() implies one_line(
            bare(#[trigger] old_pieces(c)[i]),
        ) by {
            assert(old.subrange(o, o + old_pieces(c).len())[i] == old[o + i]);
        }
        assert forall|i: int| 0 <= i < new_pieces(c).len() implies one_line(
            bare(#[trigger] new_pieces(c)[i]),
        ) by {
            assert(new.subrange(n, n + new_pieces(c).len())[i] == new[n + i]);
        }
        lemma_plain_from_pieces(c);
        assert forall|i: int| 0 <= i < groups.len() implies plain_changes(
            changes_in(#[trigger] groups[i]),
        ) by {
            if i < d.len() {
                assert(d[i] == groups[i]);
            }
        }
    }
}

/// Where the last group ends in the old document.
spec fn reached(groups: Seq<Seq<OpModel>>) -> int {
    if groups.len() == 0 {
        0
    } else {
        let g = groups.last();
        start_or_zero(first_old(g)) as int + sum_old(g)
    }
}

/// Every hunk applies where its group stands.
proof fn lemma_patched(
    groups: Seq<Seq<OpModel>>,
    old: Seq<Seq<char>>,
    new: Seq<Seq<char>>,
    old_end: int,
    new_end: int,
)
    requires
        follows(groups, old, new, old_end, new_end),
    ensures
        0 <= reached(groups) <= old_end,
        patched(hunks_for(groups), bares(old)) matches Patched::At { out, cursor } && cursor
            == reached(groups) && out + bares(old).subrange(cursor, old_end) == bares(new).take(
            new_end,
        ),
    decreases groups.len(),
{
    let l = bares(old);
    let m = bares(new);
    if groups.len() == 0 {
        assert(hunks_for(groups).len() == 0);
        assert(old.take(old_end) =~= old.subrange(0, old_end));
        assert(new.take(new_end) =~= new.subrange(0, new_end));
        lemma_bares_part(old, 0, old_end);
        lemma_bares_part(new, 0, new_end);
        assert(Seq::<Seq<char>>::empty() + l.subrange(0, old_end) =~= m.take(new_end));
    } else {
        let d = groups.drop_last();
        let g = groups.last();
        let o = start_or_zero(first_old(g)) as int;
        let n = start_or_zero(first_new(g)) as int;
        let c = changes_in(g);
        let o_end = o + sum_old(g);
        let n_end = n + sum_new(g);
        assert(old.subrange(o, o_end).len() == sum_old(g));
        lemma_patched(d, old, new, o, n);
        assert(hunks_for(groups).drop_last() =~= hunks_for(d));
        let h = hunk_for(g);
        assert(hunks_for(groups).last() == h);
        lemma_bares_part(old, o, o_end);
        lemma_bares_part(new, n, n_end);
        lemma_bares_part(old, o_end, old_end);
        lemma_bares_part(new, n_end, new_end);
        let want = h.old_lines;
        assert(want == l.subrange(o, o_end));
        let cursor = reached(d);
        assert(0 <= cursor <= o);
        assert(stands_at(l, want, o));
        assert(place_of(l, want, o, cursor) == Some(o));
        let out = patched(hunks_for(d), l)->out;
        let now = out + l.subrange(cursor, o) + h.new_lines;
        assert(now =~= m.take(n) + m.subrange(n, n_end));
        assert(now + l.subrange(o_end, old_end) =~= m.take(new_end));
    }
}

proof fn lemma_open(c: Seq<(ChangeTag, Seq<char>)>)
    ensures
        open_in(c) <==> exists|i: int|
            0 <= i < new_pieces(c).len() && !ended(#[trigger] new_pieces(c)[i]),
    decreases c.len(),
{
    if c.len() > 0 {
        let d = c.drop_last();
        lemma_open(d);
        let before = new_pieces(d);
        let all = new_pieces(c);
        assert forall|i: int| 0 <= i < before.len() implies #[trigger] before[i] == all[i] by {}
        if open_in(d) {
            let i = choose|i: int| 0 <= i < before.len() && !ended(#[trigger] before[i]);
            assert(!ended(all[i]));
        } else if open_in(c) {
            assert(!ended(all[all.len() - 1]));
        } else {
            assert forall|i: int| 0 <= i < all.len() implies ended(#[trigger] all[i]) by {
                if i < before.len() {
                    assert(ended(before[i]));
                }
            }
        }
    }
}

/// A group that covers no new line has no start among them.
proof fn lemma_none_new(ops: Seq<OpModel>)
    ensures
        sum_new(ops) == 0 ==> first_new(ops) == usize::MAX,
    decreases ops.len(),
{
    if ops.len() > 0 {
        lemma_sums(ops.drop_last());
        lemma_none_new(ops.drop_last());
    }
}

/// Does no carriage return stand in a text?
pub open spec fn no_return(s: Seq<char>) -> bool {
    forall|k: int| 0 <= k < s.len() ==> s[k] != '\r'
}

/// A text without carriage returns ends its lines with line feeds.
pub proof fn lemma_no_return(s: Seq<char>)
    requires
        no_return(s),
    ensures
        paired(s),
        unix_of(s) == s,
        newline_of(s) == "\n"@,
{
    lemma_unix_same(s);
    lemma_no_pairs(s);
}

proof fn lemma_unix_same(s: Seq<char>)
    requires
        no_return(s),
    ensures
        unix_of(s) == s,
    decreases s.len(),
{
    if s.len() > 0 {
        let rest = s.skip(1);
        assert forall|k: int| 0 <= k < rest.len() implies rest[k] != '\r' by {
            assert(rest[k] == s[k + 1]);
        }
        lemma_unix_same(rest);
        assert(s[0] != '\r');
        assert(seq![s[0]] + rest =~= s);
    }
}

proof fn lemma_no_pairs(s: Seq<char>)
    requires
        no_return(s),
    ensures
        crlf_count(s) == 0,
    decreases s.len(),
{
    if s.len() >= 2 {
        let d = s.drop_last();
        assert forall|k: int| 0 <= k < d.len() implies d[k] != '\r' by {
            assert(d[k] == s[k]);
        }
        lemma_no_pairs(d);
    }
}

/// A unified diff applied to the document it starts from gives the document it
/// leads to, in the newlines of the first, wherever the groups it was written
/// from follow the two. Left out are documents with a carriage return that
/// ends a line by itself, and labels that are more than a line.
pub proof fn law_unified_then_apply(
    old: Seq<char>,
    new: Seq<char>,
    groups: Seq<Seq<OpModel>>,
    old_label: Seq<char>,
    new_label: Seq<char>,
)
    requires
        comparable(old, new),
        groups.len() > 0,
        follows(
            groups,
            line_pieces(old),
            line_pieces(new),
            line_pieces(old).len() as int,
            line_pieces(new).len() as int,
        ),
        paired(old),
        paired(new),
        one_line(old_label),
        one_line(new_label),
    ensures
        patch_outcome(old, unified_of(groups, old_label, new_label)) == Ok::<Seq<char>, ErrorModel>(
            document_of(lines_of(new), ends_in_newline(new), newline_of(old)),
        ),
        newline_of(old) == "\n"@ && unix_of(new) == new ==> patch_outcome(
            old,
            unified_of(groups, old_label, new_label),
        ) == Ok::<Seq<char>, ErrorModel>(new),
{
    let olds = line_pieces(old);
    let news = line_pieces(new);
    let oe = olds.len() as int;
    let ne = news.len() as int;
    lemma_pieces_are_lines(old);
    lemma_pieces_are_lines(new);
    lemma_piece_count(old);
    lemma_piece_count(new);
    lemma_groups_plain(groups, olds, news, oe, ne);
    lemma_parsed(groups, old_label, new_label);
    lemma_patched(groups, olds, news, oe, ne);
    let l = bares(olds);
    let m = bares(news);
    let hunks = hunks_for(groups);
    let cursor = reached(groups);
    let out = patched(hunks, l)->out;
    let all = out + l.skip(cursor);
    assert(l.skip(cursor) =~= l.subrange(cursor, oe));
    assert(all =~= m);
    let g = groups.last();
    let n = start_or_zero(first_new(g)) as int;
    let c = changes_in(g);
    let n_end = n + sum_new(g);
    assert(news.subrange(n, n_end).len() == sum_new(g));
    assert(hunks.last() == hunk_for(g));
    assert(olds.subrange(cursor, oe) == news.subrange(n_end, ne));
    assert(olds.subrange(cursor, oe).len() == news.subrange(n_end, ne).len());
    if cursor >= oe {
        assert(n_end == ne);
        lemma_open(c);
        lemma_none_new(g);
        if ne > 0 {
            let part = news.subrange(n, n_end);
            assert(part.last() == news.last());
            assert(part == new_pieces(c));
            if ended(news.last()) {
                assert forall|i: int| 0 <= i < part.len() implies ended(#[trigger] part[i]) by {
                    assert(part[i] == news[n + i]);
                }
            } else {
                assert(!ended(new_pieces(c)[part.len() - 1]));
            }
        }
    } else {
        assert(olds.subrange(cursor, oe).last() == olds.last());
        assert(news.subrange(n_end, ne).last() == news.last());
    }
    reveal_strlit("\n");
    assert("\n"@ =~= seq!['\n']);
    law_lines_round_trip(new);
}

} // verus!
