//! Rows by key: the place of a key, and how often each key occurs.

use crate::text::{same_str, views};
use vstd::prelude::*;

verus! {

/// The first place of a key; the number of keys where it does not occur.
pub open spec fn place_of(keys: Seq<Seq<char>>, key: Seq<char>) -> int
    decreases keys.len(),
{
    if keys.len() == 0 || keys[0] == key {
        0
    } else {
        1 + place_of(keys.skip(1), key)
    }
}

/// Does a key occur?
pub open spec fn listed(keys: Seq<Seq<char>>, key: Seq<char>) -> bool {
    place_of(keys, key) < keys.len()
}

/// A key's first place is the one with other keys before it.
pub proof fn lemma_place(keys: Seq<Seq<char>>, key: Seq<char>, i: int)
    requires
        0 <= i <= keys.len(),
        i < keys.len() ==> keys[i] == key,
        forall|k: int| 0 <= k < i ==> #[trigger] keys[k] != key,
    ensures
        place_of(keys, key) == i,
    decreases keys.len(),
{
    if keys.len() > 0 && i > 0 {
        assert(keys[0] != key);
        assert forall|k: int| 0 <= k < i - 1 implies #[trigger] keys.skip(1)[k] != key by {
            assert(keys[k + 1] != key);
        }
        lemma_place(keys.skip(1), key, i - 1);
    }
}

/// What stands at a key's first place, and before it.
pub proof fn lemma_place_facts(keys: Seq<Seq<char>>, key: Seq<char>)
    ensures
        0 <= place_of(keys, key) <= keys.len(),
        place_of(keys, key) < keys.len() ==> keys[place_of(keys, key)] == key,
        forall|k: int| 0 <= k < place_of(keys, key) ==> #[trigger] keys[k] != key,
        listed(keys, key) <==> crate::text::among(keys, key),
    decreases keys.len(),
{
    if keys.len() > 0 && keys[0] != key {
        lemma_place_facts(keys.skip(1), key);
        assert forall|k: int| 0 <= k < place_of(keys, key) implies #[trigger] keys[k] != key by {
            if k > 0 {
                assert(keys.skip(1)[k - 1] == keys[k]);
            }
        }
    }
    if crate::text::among(keys, key) {
        let i = choose|i: int| 0 <= i < keys.len() && #[trigger] keys[i] == key;
        assert(keys[i] == key);
    }
}

/// How often a key occurs.
pub open spec fn count_in(keys: Seq<Seq<char>>, key: Seq<char>) -> nat
    decreases keys.len(),
{
    if keys.len() == 0 {
        0
    } else if keys.last() == key {
        count_in(keys.drop_last(), key) + 1
    } else {
        count_in(keys.drop_last(), key)
    }
}

pub proof fn lemma_count_bound(keys: Seq<Seq<char>>, key: Seq<char>)
    ensures
        count_in(keys, key) <= keys.len(),
        count_in(keys, key) > 0 <==> crate::text::among(keys, key),
    decreases keys.len(),
{
    if keys.len() > 0 {
        let d = keys.drop_last();
        lemma_count_bound(d, key);
        if crate::text::among(d, key) {
            let i = choose|i: int| 0 <= i < d.len() && #[trigger] d[i] == key;
            assert(keys[i] == key);
        }
        if crate::text::among(keys, key) && keys.last() != key {
            let i = choose|i: int| 0 <= i < keys.len() && #[trigger] keys[i] == key;
            assert(d[i] == key);
        }
    }
}

/// A key and how often it occurs.
#[derive(Debug)]
pub struct Tally {
    pub key: String,
    pub count: usize,
}

/// Does each key that occurs stand in the list exactly once, with its count?
pub open spec fn is_tally(t: Seq<Tally>, keys: Seq<Seq<char>>) -> bool {
    &&& forall|i: int| 0 <= i < t.len() ==> (#[trigger] t[i]).count == count_in(keys, t[i].key@)
        && t[i].count > 0
    &&& forall|i: int, j: int|
        0 <= i < j < t.len() ==> (#[trigger] t[i]).key@ != (#[trigger] t[j]).key@
    &&& forall|k: Seq<char>| #[trigger]
        count_in(keys, k) > 0 ==> exists|i: int| 0 <= i < t.len() && (#[trigger] t[i]).key@ == k
}

/// Counts keys.
pub fn tally(keys: &[String]) -> (out: Vec<Tally>)
    ensures
        is_tally(out@, views(keys@)),
{
    let mut out: Vec<Tally> = Vec::new();
    let ghost all = views(keys@);
    let mut n: usize = 0;
    assert(all.take(0) =~= Seq::empty());
    while n < keys.len()
        invariant
            n <= keys@.len(),
            all == views(keys@),
            is_tally(out@, all.take(n as int)),
        decreases keys@.len() - n,
    {
        let key = keys[n].as_str();
        let ghost was = all.take(n as int);
        let ghost now = all.take(n + 1);
        let ghost before = out@;
        proof {
            assert(now.drop_last() =~= was);
            lemma_count_bound(was, key@);
        }
        let mut i: usize = 0;
        while i < out.len() && !same_str(out[i].key.as_str(), key)
            invariant
                i <= out@.len(),
                out@ == before,
                forall|k: int| 0 <= k < i ==> (#[trigger] out@[k]).key@ != key@,
            decreases out@.len() - i,
        {
            i += 1;
        }
        if i < out.len() {
            assert(before[i as int].count == count_in(was, key@));
            let seen: usize = out[i].count;
            let fresh = Tally { key: key.to_owned(), count: seen + 1 };
            out.set(i, fresh);
            proof {
                assert forall|j: int| 0 <= j < out@.len() implies (#[trigger] out@[j]).count
                    == count_in(now, out@[j].key@) && out@[j].count > 0 by {
                    assert(before[j].count == count_in(was, before[j].key@));
                }
                assert forall|a: int, b: int| 0 <= a < b < out@.len() implies (
                #[trigger] out@[a]).key@ != (#[trigger] out@[b]).key@ by {
                    assert(before[a].key@ != before[b].key@);
                }
                assert forall|k: Seq<char>| #[trigger] count_in(now, k) > 0 implies exists|j: int|
                    0 <= j < out@.len() && (#[trigger] out@[j]).key@ == k by {
                    if k == key@ {
                        assert(out@[i as int].key@ == k);
                    } else {
                        assert(count_in(was, k) > 0);
                        let j = choose|j: int|
                            0 <= j < before.len() && (#[trigger] before[j]).key@ == k;
                        assert(out@[j].key@ == k);
                    }
                }
            }
        } else {
            let fresh = Tally { key: key.to_owned(), count: 1 };
            out.push(fresh);
            proof {
                if count_in(was, key@) > 0 {
                    let j = choose|j: int|
                        0 <= j < before.len() && (#[trigger] before[j]).key@ == key@;
                    assert(before[j].key@ != key@);
                }
                assert forall|j: int| 0 <= j < out@.len() implies (#[trigger] out@[j]).count
                    == count_in(now, out@[j].key@) && out@[j].count > 0 by {
                    if j < before.len() {
                        assert(before[j].count == count_in(was, before[j].key@));
                        assert(before[j].key@ != key@);
                    }
                }
                assert forall|a: int, b: int| 0 <= a < b < out@.len() implies (
                #[trigger] out@[a]).key@ != (#[trigger] out@[b]).key@ by {
                    if b < before.len() {
                        assert(before[a].key@ != before[b].key@);
                    } else {
                        assert(before[a].key@ != key@);
                    }
                }
                assert forall|k: Seq<char>| #[trigger] count_in(now, k) > 0 implies exists|j: int|
                    0 <= j < out@.len() && (#[trigger] out@[j]).key@ == k by {
                    if k == key@ {
                        assert(out@[before.len() as int].key@ == k);
                    } else {
                        assert(count_in(was, k) > 0);
                        let j = choose|j: int|
                            0 <= j < before.len() && (#[trigger] before[j]).key@ == k;
                        assert(out@[j].key@ == k);
                    }
                }
            }
        }
        n += 1;
    }
    assert(all.take(n as int) =~= all);
    out
}

/// How often a key occurs, by a list of counts.
pub fn tallied(t: &[Tally], key: &str) -> (out: usize)
    ensures
        forall|keys: Seq<Seq<char>>|
            #![trigger is_tally(t@, keys)]
            is_tally(t@, keys) ==> out == count_in(keys, key@),
{
    let mut i: usize = 0;
    while i < t.len()
        invariant
            i <= t@.len(),
            forall|k: int| 0 <= k < i ==> (#[trigger] t@[k]).key@ != key@,
        decreases t@.len() - i,
    {
        if same_str(t[i].key.as_str(), key) {
            return t[i].count;
        }
        i += 1;
    }
    proof {
        assert forall|keys: Seq<Seq<char>>| #[trigger] is_tally(t@, keys) implies count_in(
            keys,
            key@,
        ) == 0 by {
            if count_in(keys, key@) > 0 {
                let k = choose|k: int| 0 <= k < t@.len() && (#[trigger] t@[k]).key@ == key@;
                assert(t@[k].key@ != key@);
            }
        }
    }
    0
}

/// A count is how often the key occurs.
pub proof fn law_count_is_occurrences(keys: Seq<Seq<char>>, key: Seq<char>)
    ensures
        count_in(keys, key) == keys.filter(|k: Seq<char>| k == key).len(),
{
    lemma_count_filter(keys, key, |k: Seq<char>| k == key);
}

proof fn lemma_count_filter(
    keys: Seq<Seq<char>>,
    key: Seq<char>,
    same: spec_fn(Seq<char>) -> bool,
)
    requires
        forall|k: Seq<char>| #[trigger] same(k) == (k == key),
    ensures
        count_in(keys, key) == keys.filter(same).len(),
    decreases keys.len(),
{
    reveal(Seq::filter);
    if keys.len() > 0 {
        lemma_count_filter(keys.drop_last(), key, same);
    }
}

} // verus!
