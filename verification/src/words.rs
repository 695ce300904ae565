//! What trimming a text and taking it apart into words leave of it.

use crate::text::{
    is_space, lemma_run_end, lemma_words_solid, run_end, solid, trim_end_of, trim_of,
    trim_start_of, words_from, words_of,
};
use vstd::prelude::*;

verus! {

/// A trimmed text is what is left of the text when the white space at its ends
/// is taken away: only that, and all of it.
pub proof fn law_trim(s: Seq<char>) -> (ends: (int, int))
    ensures
        0 <= ends.0 <= ends.1 <= s.len(),
        trim_of(s) == s.subrange(ends.0, ends.1),
        forall|k: int| 0 <= k < ends.0 || ends.1 <= k < s.len() ==> is_space(#[trigger] s[k]),
        ends.0 < ends.1 ==> !is_space(s[ends.0]) && !is_space(s[ends.1 - 1]),
{
    let a = lemma_front_space(s);
    let t = trim_start_of(s);
    let b = lemma_back_space(t);
    assert(trim_of(s) =~= s.subrange(a, a + b));
    assert forall|k: int| 0 <= k < a || a + b <= k < s.len() implies is_space(#[trigger] s[k]) by {
        if k >= a + b {
            assert(t[k - a] == s[k]);
        }
    }
    if b > 0 {
        assert(t[b - 1] == s[a + b - 1]);
        if is_space(s[a]) {
            assert(t[0] == s[a]);
        }
    }
    (a, a + b)
}

proof fn lemma_front_space(s: Seq<char>) -> (a: int)
    ensures
        0 <= a <= s.len(),
        trim_start_of(s) == s.skip(a),
        forall|k: int| 0 <= k < a ==> is_space(#[trigger] s[k]),
        a < s.len() ==> !is_space(s[a]),
    decreases s.len(),
{
    if s.len() > 0 && is_space(s[0]) {
        let a = lemma_front_space(s.skip(1));
        assert(s.skip(1).skip(a) =~= s.skip(a + 1));
        assert forall|k: int| 0 <= k < a + 1 implies is_space(#[trigger] s[k]) by {
            if k > 0 {
                assert(s.skip(1)[k - 1] == s[k]);
            }
        }
        a + 1
    } else {
        assert(s.skip(0) =~= s);
        0
    }
}

proof fn lemma_back_space(s: Seq<char>) -> (b: int)
    ensures
        0 <= b <= s.len(),
        trim_end_of(s) == s.take(b),
        forall|k: int| b <= k < s.len() ==> is_space(#[trigger] s[k]),
        b > 0 ==> !is_space(s[b - 1]),
    decreases s.len(),
{
    if s.len() > 0 && is_space(s.last()) {
        let d = s.drop_last();
        let b = lemma_back_space(d);
        assert(d.take(b) =~= s.take(b));
        assert forall|k: int| b <= k < s.len() implies is_space(#[trigger] s[k]) by {
            if k < d.len() {
                assert(d[k] == s[k]);
            }
        }
        b
    } else {
        assert(s.take(s.len() as int) =~= s);
        s.len() as int
    }
}

proof fn lemma_filter_all(s: Seq<char>, p: spec_fn(char) -> bool)
    ensures
        (forall|k: int| 0 <= k < s.len() ==> p(#[trigger] s[k])) ==> s.filter(p) == s,
        (forall|k: int| 0 <= k < s.len() ==> !p(#[trigger] s[k])) ==> s.filter(p).len() == 0,
    decreases s.len(),
{
    reveal(Seq::filter);
    if s.len() > 0 {
        let d = s.drop_last();
        lemma_filter_all(d, p);
        assert(s[s.len() - 1] == s.last());
        if forall|k: int| 0 <= k < s.len() ==> p(#[trigger] s[k]) {
            assert forall|k: int| 0 <= k < d.len() implies p(#[trigger] d[k]) by {
                assert(s[k] == d[k]);
            }
            assert(s =~= d.push(s.last()));
        }
        if forall|k: int| 0 <= k < s.len() ==> !p(#[trigger] s[k]) {
            assert forall|k: int| 0 <= k < d.len() implies !p(#[trigger] d[k]) by {
                assert(s[k] == d[k]);
            }
        }
    } else {
        assert(s.filter(p) =~= s);
    }
}

proof fn lemma_words_from(s: Seq<char>, i: int, black: spec_fn(char) -> bool)
    requires
        0 <= i <= s.len(),
        forall|c: char| #[trigger] black(c) == !is_space(c),
    ensures
        words_from(s, i).flatten() == s.skip(i).filter(black),
    decreases s.len() - i,
{
    let a = run_end(s, i, true);
    lemma_run_end(s, i, true);
    let gap = s.subrange(i, a);
    lemma_filter_all(gap, black);
    assert forall|k: int| 0 <= k < gap.len() implies !black(#[trigger] gap[k]) by {
        assert(gap[k] == s[i + k]);
    }
    if a >= s.len() {
        assert(s.skip(i) =~= gap);
        assert(words_from(s, i) =~= Seq::empty());
        assert(words_from(s, i).flatten() =~= Seq::empty());
        assert(s.skip(i).filter(black) =~= Seq::empty());
    } else {
        let b = run_end(s, a, false);
        lemma_run_end(s, a, false);
        let word = s.subrange(a, b);
        lemma_filter_all(word, black);
        assert forall|k: int| 0 <= k < word.len() implies black(#[trigger] word[k]) by {
            assert(word[k] == s[a + k]);
        }
        let rest = s.skip(b);
        lemma_words_from(s, b, black);
        assert(s.skip(i) =~= gap + (word + rest));
        Seq::filter_distributes_over_add(gap, word + rest, black);
        Seq::filter_distributes_over_add(word, rest, black);
        assert(gap.filter(black) =~= Seq::empty());
        let all = words_from(s, i);
        assert(all == seq![word] + words_from(s, b));
        assert(all.drop_first() =~= words_from(s, b));
        assert(all.first() == word);
        assert(all.flatten() =~= word + words_from(s, b).flatten());
        assert(s.skip(i).filter(black) =~= word + rest.filter(black));
    }
}

/// The words of a text hold every character of it but the white space, in its
/// order, and none of them is empty or has white space in it.
pub proof fn law_words(s: Seq<char>)
    ensures
        words_of(s).flatten() == s.filter(|c: char| !is_space(c)),
        forall|i: int|
            0 <= i < words_of(s).len() ==> (#[trigger] words_of(s)[i]).len() > 0 && solid(
                words_of(s)[i],
            ),
{
    let black = |c: char| !is_space(c);
    lemma_words_from(s, 0, black);
    assert(s.skip(0) =~= s);
    lemma_words_solid(s, 0);
}

} // verus!
