//! Level three of a diff: which words inside a rewritten line changed.

use crate::diff::changes::{
    change_models, comparable, compare_words, concat_of, new_pieces, old_pieces, word_diff, Change,
    ChangeTag,
};
use crate::text::{
    byte_len, bytes_in, lemma_byte_len_concat, lemma_byte_len_push, lemma_encode_concat,
};
use vstd::prelude::*;
use vstd::utf8::encode_utf8;

verus! {

/// A word-level range inside one row, in bytes. Only `changed` ranges are
/// emphasised; the unchanged ones are emitted too so that a reader can render
/// without recomputing offsets.
#[derive(Debug, Clone, Copy, PartialEq, Eq, Structural)]
pub struct Span {
    pub start: usize,
    pub end: usize,
    pub changed: bool,
}

/// `spans` with one more range behind them; an empty range adds nothing, and a
/// range of the same kind extends the last one.
pub open spec fn span_added(spans: Seq<Span>, start: usize, end: usize, changed: bool) -> Seq<
    Span,
> {
    if start == end {
        spans
    } else if spans.len() > 0 && spans.last().changed == changed && spans.last().end == start {
        spans.update(spans.len() - 1, Span { start: spans.last().start, end, changed })
    } else {
        spans.push(Span { start, end, changed })
    }
}

/// How many bytes the old pieces of a list of changes have.
pub open spec fn old_bytes(c: Seq<(ChangeTag, Seq<char>)>) -> nat {
    byte_len(concat_of(old_pieces(c)))
}

/// How many bytes the new pieces of a list of changes have.
pub open spec fn new_bytes(c: Seq<(ChangeTag, Seq<char>)>) -> nat {
    byte_len(concat_of(new_pieces(c)))
}

/// The ranges of the old text, in order.
pub open spec fn old_spans(c: Seq<(ChangeTag, Seq<char>)>) -> Seq<Span>
    decreases c.len(),
{
    if c.len() == 0 {
        Seq::empty()
    } else {
        let d = c.drop_last();
        if c.last().0 == ChangeTag::Insert {
            old_spans(d)
        } else {
            span_added(
                old_spans(d),
                old_bytes(d) as usize,
                (old_bytes(d) + byte_len(c.last().1)) as usize,
                c.last().0 == ChangeTag::Delete,
            )
        }
    }
}

/// The ranges of the new text, in order.
pub open spec fn new_spans(c: Seq<(ChangeTag, Seq<char>)>) -> Seq<Span>
    decreases c.len(),
{
    if c.len() == 0 {
        Seq::empty()
    } else {
        let d = c.drop_last();
        if c.last().0 == ChangeTag::Delete {
            new_spans(d)
        } else {
            span_added(
                new_spans(d),
                new_bytes(d) as usize,
                (new_bytes(d) + byte_len(c.last().1)) as usize,
                c.last().0 == ChangeTag::Insert,
            )
        }
    }
}

/// Is every range a changed one?
pub open spec fn all_changed(spans: Seq<Span>) -> bool {
    forall|i: int| 0 <= i < spans.len() ==> (#[trigger] spans[i]).changed
}

/// The ranges of both texts. Where everything changed there is nothing to
/// emphasise, and no ranges are given.
pub open spec fn spans_of(c: Seq<(ChangeTag, Seq<char>)>) -> (Seq<Span>, Seq<Span>) {
    if all_changed(old_spans(c)) && all_changed(new_spans(c)) {
        (Seq::empty(), Seq::empty())
    } else {
        (old_spans(c), new_spans(c))
    }
}

/// The ranges follow one another without a gap from byte `0` to byte `end`.
pub open spec fn tiles(spans: Seq<Span>, end: nat) -> bool {
    &&& spans.len() == 0 ==> end == 0
    &&& spans.len() > 0 ==> spans[0].start == 0 && spans.last().end == end
    &&& forall|i: int|
        0 <= i < spans.len() ==> (#[trigger] spans[i]).start < spans[i].end
    &&& forall|i: int, j: int|
        0 <= i && j == i + 1 && j < spans.len() ==> (#[trigger] spans[i]).end == (
        #[trigger] spans[j]).start && spans[i].changed != spans[j].changed
}

fn push_span(spans: &mut Vec<Span>, start: usize, end: usize, changed: bool)
    ensures
        final(spans)@ == span_added(old(spans)@, start, end, changed),
{
    if start == end {
        return ;
    }
    let n: usize = spans.len();
    if n > 0 {
        let last: Span = spans[n - 1];
        if last.changed == changed && last.end == start {
            spans.set(n - 1, Span { start: last.start, end, changed });
            return ;
        }
    }
    spans.push(Span { start, end, changed });
}

fn everything_changed(spans: &Vec<Span>) -> (out: bool)
    ensures
        out == all_changed(spans@),
{
    let mut i: usize = 0;
    while i < spans.len()
        invariant
            i <= spans.len(),
            forall|k: int| 0 <= k < i ==> (#[trigger] spans@[k]).changed,
        decreases spans.len() - i,
    {
        if !spans[i].changed {
            return false;
        }
        i += 1;
    }
    true
}

pub proof fn lemma_concat_push(parts: Seq<Seq<char>>, p: Seq<char>)
    ensures
        concat_of(parts.push(p)) == concat_of(parts) + p,
        byte_len(concat_of(parts.push(p))) == byte_len(concat_of(parts)) + byte_len(p),
{
    assert(parts.push(p).drop_last() == parts);
    lemma_byte_len_concat(concat_of(parts), p);
}

/// The byte counts of a prefix are no larger than those of the whole.
proof fn lemma_bytes_prefix(c: Seq<(ChangeTag, Seq<char>)>, i: int)
    requires
        0 <= i <= c.len(),
    ensures
        old_bytes(c.take(i)) <= old_bytes(c),
        new_bytes(c.take(i)) <= new_bytes(c),
    decreases c.len(),
{
    if i == c.len() {
        assert(c.take(i) == c);
    } else {
        let d = c.drop_last();
        lemma_bytes_prefix(d, i);
        assert(d.take(i) == c.take(i));
        lemma_concat_push(old_pieces(d), c.last().1);
        lemma_concat_push(new_pieces(d), c.last().1);
    }
}

proof fn lemma_span_added_tiles(spans: Seq<Span>, at: nat, end: nat, changed: bool)
    requires
        tiles(spans, at),
        at <= end <= usize::MAX,
    ensures
        tiles(span_added(spans, at as usize, end as usize, changed), end),
{
    let out = span_added(spans, at as usize, end as usize, changed);
    if at < end {
        assert forall|i: int| 0 <= i < out.len() implies (#[trigger] out[i]).start < out[i].end by {
            if i < spans.len() {
                assert(spans[i].start < spans[i].end);
            }
        }
        assert forall|i: int, j: int| 0 <= i && j == i + 1 && j < out.len() implies (
        #[trigger] out[i]).end == (#[trigger] out[j]).start && out[i].changed != out[j].changed by {
            if j < spans.len() {
                assert(spans[i].end == spans[j].start);
            }
        }
    }
}

/// The ranges of each side cover its text exactly, and changed and unchanged
/// ranges alternate.
pub proof fn law_spans_tile(c: Seq<(ChangeTag, Seq<char>)>)
    requires
        old_bytes(c) <= usize::MAX,
        new_bytes(c) <= usize::MAX,
    ensures
        tiles(old_spans(c), old_bytes(c)),
        tiles(new_spans(c), new_bytes(c)),
    decreases c.len(),
{
    if c.len() == 0 {
        assert(concat_of(Seq::empty()) == Seq::<char>::empty());
    } else {
        let d = c.drop_last();
        lemma_concat_push(old_pieces(d), c.last().1);
        lemma_concat_push(new_pieces(d), c.last().1);
        law_spans_tile(d);
        lemma_span_added_tiles(
            old_spans(d),
            old_bytes(d),
            if c.last().0 == ChangeTag::Insert { old_bytes(d) } else { old_bytes(c) },
            c.last().0 == ChangeTag::Delete,
        );
        lemma_span_added_tiles(
            new_spans(d),
            new_bytes(d),
            if c.last().0 == ChangeTag::Delete { new_bytes(d) } else { new_bytes(c) },
            c.last().0 == ChangeTag::Insert,
        );
    }
}

/// The bytes of a text that some ranges call unchanged, one behind the other.
pub open spec fn kept_bytes(spans: Seq<Span>, bytes: Seq<u8>) -> Seq<u8>
    decreases spans.len(),
{
    if spans.len() == 0 {
        Seq::empty()
    } else if spans.last().changed {
        kept_bytes(spans.drop_last(), bytes)
    } else {
        kept_bytes(spans.drop_last(), bytes) + bytes.subrange(
            spans.last().start as int,
            spans.last().end as int,
        )
    }
}

/// The bytes of the pieces that are in both texts.
spec fn common_bytes(c: Seq<(ChangeTag, Seq<char>)>) -> Seq<u8>
    decreases c.len(),
{
    if c.len() == 0 {
        Seq::empty()
    } else if c.last().0 == ChangeTag::Equal {
        common_bytes(c.drop_last()) + encode_utf8(c.last().1)
    } else {
        common_bytes(c.drop_last())
    }
}

proof fn lemma_tiles_bound(spans: Seq<Span>, end: nat, i: int)
    requires
        tiles(spans, end),
        0 <= i < spans.len(),
    ensures
        spans[i].end <= end,
    decreases spans.len() - i,
{
    if i + 1 < spans.len() {
        lemma_tiles_bound(spans, end, i + 1);
        assert(spans[i].end == spans[i + 1].start);
        assert(spans[i + 1].start < spans[i + 1].end);
    }
}

/// Text behind the ranges does not matter.
proof fn lemma_kept_more(spans: Seq<Span>, bytes: Seq<u8>, more: Seq<u8>)
    requires
        forall|i: int|
            0 <= i < spans.len() ==> (#[trigger] spans[i]).start <= spans[i].end <= bytes.len(),
    ensures
        kept_bytes(spans, bytes + more) == kept_bytes(spans, bytes),
    decreases spans.len(),
{
    if spans.len() > 0 {
        let d = spans.drop_last();
        assert forall|i: int| 0 <= i < d.len() implies (#[trigger] d[i]).start <= d[i].end
            <= bytes.len() by {
            assert(d[i] == spans[i]);
        }
        lemma_kept_more(d, bytes, more);
        let l = spans[spans.len() - 1];
        assert(l.start <= l.end <= bytes.len());
        assert((bytes + more).subrange(l.start as int, l.end as int) =~= bytes.subrange(
            l.start as int,
            l.end as int,
        ));
    }
}

proof fn lemma_kept_added(spans: Seq<Span>, bytes: Seq<u8>, more: Seq<u8>, changed: bool)
    requires
        tiles(spans, bytes.len()),
        bytes.len() + more.len() <= usize::MAX,
    ensures
        kept_bytes(
            span_added(
                spans,
                bytes.len() as usize,
                (bytes.len() + more.len()) as usize,
                changed,
            ),
            bytes + more,
        ) == (if changed {
            kept_bytes(spans, bytes)
        } else {
            kept_bytes(spans, bytes) + more
        }),
{
    let at = bytes.len() as usize;
    let end = (bytes.len() + more.len()) as usize;
    let out = span_added(spans, at, end, changed);
    let all = bytes + more;
    assert forall|i: int| 0 <= i < spans.len() implies (#[trigger] spans[i]).start <= spans[i].end
        <= bytes.len() by {
        lemma_tiles_bound(spans, bytes.len(), i);
    }
    lemma_kept_more(spans, bytes, more);
    if at == end {
        assert(more =~= Seq::<u8>::empty());
        assert(all =~= bytes);
        assert(kept_bytes(spans, bytes) + more =~= kept_bytes(spans, bytes));
    } else if spans.len() > 0 && spans.last().changed == changed && spans.last().end == at {
        let l = spans.last();
        assert(out.drop_last() =~= spans.drop_last());
        assert(out.last() == (Span { start: l.start, end, changed }));
        assert(spans[spans.len() - 1].start <= bytes.len());
        assert(all.subrange(l.start as int, end as int) =~= all.subrange(
            l.start as int,
            at as int,
        ) + more);
        if !changed {
            assert(kept_bytes(out, all) =~= kept_bytes(spans, all) + more);
        }
    } else {
        assert(out.drop_last() =~= spans);
        assert(all.subrange(at as int, end as int) =~= more);
    }
}

proof fn lemma_kept(c: Seq<(ChangeTag, Seq<char>)>)
    requires
        old_bytes(c) <= usize::MAX,
        new_bytes(c) <= usize::MAX,
    ensures
        kept_bytes(old_spans(c), encode_utf8(concat_of(old_pieces(c)))) == common_bytes(c),
        kept_bytes(new_spans(c), encode_utf8(concat_of(new_pieces(c)))) == common_bytes(c),
    decreases c.len(),
{
    if c.len() > 0 {
        let d = c.drop_last();
        let p = c.last().1;
        lemma_concat_push(old_pieces(d), p);
        lemma_concat_push(new_pieces(d), p);
        lemma_kept(d);
        law_spans_tile(d);
        let a = concat_of(old_pieces(d));
        let b = concat_of(new_pieces(d));
        lemma_encode_concat(a, p);
        lemma_encode_concat(b, p);
        if c.last().0 != ChangeTag::Insert {
            lemma_kept_added(
                old_spans(d),
                encode_utf8(a),
                encode_utf8(p),
                c.last().0 == ChangeTag::Delete,
            );
        }
        if c.last().0 != ChangeTag::Delete {
            lemma_kept_added(
                new_spans(d),
                encode_utf8(b),
                encode_utf8(p),
                c.last().0 == ChangeTag::Insert,
            );
        }
    }
}

proof fn lemma_all_changed(spans: Seq<Span>, bytes: Seq<u8>)
    requires
        all_changed(spans),
    ensures
        kept_bytes(spans, bytes).len() == 0,
    decreases spans.len(),
{
    if spans.len() > 0 {
        let d = spans.drop_last();
        assert(spans[spans.len() - 1].changed);
        assert forall|i: int| 0 <= i < d.len() implies (#[trigger] d[i]).changed by {
            assert(d[i] == spans[i]);
        }
        lemma_all_changed(d, bytes);
    }
}

proof fn lemma_common(c: Seq<(ChangeTag, Seq<char>)>, i: int)
    requires
        0 <= i < c.len(),
        c[i].0 == ChangeTag::Equal,
        c[i].1.len() > 0,
    ensures
        common_bytes(c).len() > 0,
    decreases c.len(),
{
    if i == c.len() - 1 {
        let p = c[i].1;
        assert(p =~= p.drop_last().push(p.last()));
        lemma_byte_len_push(p.drop_last(), p.last());
    } else {
        lemma_common(c.drop_last(), i);
    }
}

/// What the ranges of the two texts call unchanged is the same text on both
/// sides. Where the texts have a word in common there are ranges, on both
/// sides, they cover the texts, and something in them is unchanged.
pub proof fn law_unchanged_words_agree(c: Seq<(ChangeTag, Seq<char>)>)
    requires
        old_bytes(c) <= usize::MAX,
        new_bytes(c) <= usize::MAX,
    ensures
        ({
            let (olds, news) = spans_of(c);
            let old = encode_utf8(concat_of(old_pieces(c)));
            let new = encode_utf8(concat_of(new_pieces(c)));
            &&& kept_bytes(olds, old) == kept_bytes(news, new)
            &&& (exists|i: int|
                0 <= i < c.len() && (#[trigger] c[i]).0 == ChangeTag::Equal && c[i].1.len() > 0)
                ==> tiles(olds, old.len()) && tiles(news, new.len()) && kept_bytes(olds, old).len()
                > 0
        }),
{
    lemma_kept(c);
    law_spans_tile(c);
    if exists|i: int| 0 <= i < c.len() && (#[trigger] c[i]).0 == ChangeTag::Equal && c[i].1.len()
        > 0 {
        let i = choose|i: int|
            0 <= i < c.len() && (#[trigger] c[i]).0 == ChangeTag::Equal && c[i].1.len() > 0;
        lemma_common(c, i);
        if all_changed(old_spans(c)) {
            lemma_all_changed(old_spans(c), encode_utf8(concat_of(old_pieces(c))));
        }
    }
}

/// The word-level ranges of a list of changes.
pub fn spans_from(changes: &[Change]) -> (out: (Vec<Span>, Vec<Span>))
    requires
        old_bytes(change_models(changes@)) <= usize::MAX,
        new_bytes(change_models(changes@)) <= usize::MAX,
    ensures
        (out.0@, out.1@) == spans_of(change_models(changes@)),
{
    let ghost c = change_models(changes@);
    let mut olds: Vec<Span> = Vec::new();
    let mut news: Vec<Span> = Vec::new();
    let mut old_at: usize = 0;
    let mut new_at: usize = 0;
    let mut i: usize = 0;
    assert(c.take(0).len() == 0);
    assert(concat_of(old_pieces(c.take(0))) == Seq::<char>::empty());
    while i < changes.len()
        invariant
            c == change_models(changes@),
            i <= changes.len(),
            old_bytes(c) <= usize::MAX,
            new_bytes(c) <= usize::MAX,
            old_at == old_bytes(c.take(i as int)),
            new_at == new_bytes(c.take(i as int)),
            olds@ == old_spans(c.take(i as int)),
            news@ == new_spans(c.take(i as int)),
        decreases changes.len() - i,
    {
        let len: usize = bytes_in(changes[i].value.as_str());
        proof {
            let d = c.take(i as int);
            let e = c.take(i + 1);
            assert(e.drop_last() == d);
            lemma_bytes_prefix(c, i + 1);
            lemma_concat_push(old_pieces(d), e.last().1);
            lemma_concat_push(new_pieces(d), e.last().1);
        }
        match changes[i].tag {
            ChangeTag::Equal => {
                push_span(&mut olds, old_at, old_at + len, false);
                push_span(&mut news, new_at, new_at + len, false);
                old_at += len;
                new_at += len;
            },
            ChangeTag::Delete => {
                push_span(&mut olds, old_at, old_at + len, true);
                old_at += len;
            },
            ChangeTag::Insert => {
                push_span(&mut news, new_at, new_at + len, true);
                new_at += len;
            },
        }
        i += 1;
    }
    assert(c.take(i as int) == c);
    if everything_changed(&olds) && everything_changed(&news) {
        let a: Vec<Span> = Vec::new();
        let b: Vec<Span> = Vec::new();
        return (a, b);
    }
    (olds, news)
}

/// Word-level ranges for a rewrite pair: `(old, new)`, as byte offsets into
/// each row's text. Together the ranges of a side cover its text.
pub fn word_spans(old: &str, new: &str) -> (out: (Vec<Span>, Vec<Span>))
    requires
        comparable(old@, new@),
    ensures
        (out.0@, out.1@) == spans_of(word_diff(old@, new@)),
        out.0@.len() > 0 ==> tiles(out.0@, byte_len(old@)),
        out.1@.len() > 0 ==> tiles(out.1@, byte_len(new@)),
        kept_bytes(out.0@, encode_utf8(old@)) == kept_bytes(out.1@, encode_utf8(new@)),
{
    let changes = compare_words(old, new);
    let _ = bytes_in(old);
    let _ = bytes_in(new);
    proof {
        law_spans_tile(change_models(changes@));
        law_unchanged_words_agree(change_models(changes@));
    }
    spans_from(&changes)
}

} // verus!
