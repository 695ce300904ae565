//! Stable sorting by a relation.

use vstd::prelude::*;

verus! {

/// `x` put into `s` behind the last element that may stand before it.
pub open spec fn inserted<T>(s: Seq<T>, x: T, le: spec_fn(T, T) -> bool) -> Seq<T>
    decreases s.len(),
{
    if s.len() == 0 || le(s.last(), x) {
        s.push(x)
    } else {
        inserted(s.drop_last(), x, le).push(s.last())
    }
}

/// The elements of `s` in order; elements that may stand either way keep the
/// order they had.
pub open spec fn sorted<T>(s: Seq<T>, le: spec_fn(T, T) -> bool) -> Seq<T>
    decreases s.len(),
{
    if s.len() == 0 {
        s
    } else {
        inserted(sorted(s.drop_last(), le), s.last(), le)
    }
}

/// Are the elements of `s` in order?
pub open spec fn in_order<T>(s: Seq<T>, le: spec_fn(T, T) -> bool) -> bool {
    forall|i: int, j: int| 0 <= i < j < s.len() ==> le(#[trigger] s[i], #[trigger] s[j])
}

/// Does `le` say of every two elements which may stand first, consistently?
pub open spec fn is_total_order<T>(le: spec_fn(T, T) -> bool) -> bool {
    &&& forall|a: T, b: T| #[trigger] le(a, b) || le(b, a)
    &&& forall|a: T, b: T, c: T| #[trigger] le(a, b) && #[trigger] le(b, c) ==> le(a, c)
}

pub proof fn lemma_inserted_at<T>(s: Seq<T>, x: T, le: spec_fn(T, T) -> bool, i: int)
    requires
        0 <= i <= s.len(),
        i > 0 ==> le(s[i - 1], x),
        forall|k: int| i <= k < s.len() ==> !le(#[trigger] s[k], x),
    ensures
        inserted(s, x, le) == s.insert(i, x),
    decreases s.len(),
{
    if i == s.len() {
        assert(s.insert(i, x) =~= s.push(x));
    } else {
        assert(!le(s[s.len() - 1], x));
        lemma_inserted_at(s.drop_last(), x, le, i);
        assert(s.drop_last().insert(i, x).push(s.last()) =~= s.insert(i, x));
    }
}

/// Sorting keeps what is there.
pub proof fn lemma_sorted_multiset<T>(s: Seq<T>, le: spec_fn(T, T) -> bool)
    ensures
        sorted(s, le).to_multiset() == s.to_multiset(),
        sorted(s, le).len() == s.len(),
    decreases s.len(),
{
    broadcast use vstd::seq_lib::group_to_multiset_ensures;

    if s.len() > 0 {
        lemma_sorted_multiset(s.drop_last(), le);
        lemma_inserted_multiset(sorted(s.drop_last(), le), s.last(), le);
        assert(s =~= s.drop_last().push(s.last()));
    }
}

proof fn lemma_inserted_multiset<T>(s: Seq<T>, x: T, le: spec_fn(T, T) -> bool)
    ensures
        inserted(s, x, le).to_multiset() == s.to_multiset().insert(x),
        inserted(s, x, le).len() == s.len() + 1,
    decreases s.len(),
{
    broadcast use vstd::seq_lib::group_to_multiset_ensures;

    if s.len() > 0 && !le(s.last(), x) {
        lemma_inserted_multiset(s.drop_last(), x, le);
        assert(s =~= s.drop_last().push(s.last()));
        assert(s.to_multiset() =~= s.drop_last().to_multiset().insert(s.last()));
        assert(s.drop_last().to_multiset().insert(x).insert(s.last())
            =~= s.drop_last().to_multiset().insert(s.last()).insert(x));
    }
}

/// Sorting by a total order puts the elements in order.
pub proof fn lemma_sorted_in_order<T>(s: Seq<T>, le: spec_fn(T, T) -> bool)
    requires
        is_total_order(le),
    ensures
        in_order(sorted(s, le), le),
    decreases s.len(),
{
    if s.len() > 0 {
        lemma_sorted_in_order(s.drop_last(), le);
        lemma_inserted_in_order(sorted(s.drop_last(), le), s.last(), le);
    }
}

proof fn lemma_inserted_in_order<T>(s: Seq<T>, x: T, le: spec_fn(T, T) -> bool)
    requires
        is_total_order(le),
        in_order(s, le),
    ensures
        in_order(inserted(s, x, le), le),
        forall|i: int|
            0 <= i < inserted(s, x, le).len() ==> #[trigger] inserted(s, x, le)[i] == x
                || s.contains(inserted(s, x, le)[i]),
    decreases s.len(),
{
    let out = inserted(s, x, le);
    if s.len() == 0 || le(s.last(), x) {
        assert forall|i: int, j: int| 0 <= i < j < out.len() implies le(
            #[trigger] out[i],
            #[trigger] out[j],
        ) by {
            if j == s.len() {
                if i < s.len() - 1 {
                    assert(le(s[i], s[s.len() - 1]));
                }
            } else {
                assert(le(s[i], s[j]));
            }
        }
        assert forall|i: int| 0 <= i < out.len() implies #[trigger] out[i] == x || s.contains(
            out[i],
        ) by {
            if i < s.len() {
                assert(out[i] == s[i]);
            }
        }
    } else {
        let d = s.drop_last();
        let inner = inserted(d, x, le);
        assert(in_order(d, le)) by {
            assert forall|i: int, j: int| 0 <= i < j < d.len() implies le(
                #[trigger] d[i],
                #[trigger] d[j],
            ) by {
                assert(le(s[i], s[j]));
            }
        }
        lemma_inserted_in_order(d, x, le);
        assert(le(x, s.last()));
        assert forall|i: int| 0 <= i < inner.len() implies le(#[trigger] inner[i], s.last()) by {
            if inner[i] != x {
                assert(d.contains(inner[i]));
                let k = choose|k: int| 0 <= k < d.len() && d[k] == inner[i];
                assert(le(s[k], s[s.len() - 1]));
            }
        }
        assert forall|i: int, j: int| 0 <= i < j < out.len() implies le(
            #[trigger] out[i],
            #[trigger] out[j],
        ) by {
            if j < inner.len() {
                assert(le(inner[i], inner[j]));
            } else {
                assert(out[i] == inner[i]);
            }
        }
        assert forall|i: int| 0 <= i < out.len() implies #[trigger] out[i] == x || s.contains(
            out[i],
        ) by {
            if i < inner.len() {
                assert(out[i] == inner[i]);
                if inner[i] != x {
                    let k = choose|k: int| 0 <= k < d.len() && d[k] == inner[i];
                    assert(s[k] == out[i]);
                }
            } else {
                assert(s[s.len() - 1] == out[i]);
            }
        }
    }
}

/// What is in order already stays as it is.
pub proof fn lemma_sorted_id<T>(s: Seq<T>, le: spec_fn(T, T) -> bool)
    requires
        in_order(s, le),
    ensures
        sorted(s, le) == s,
    decreases s.len(),
{
    if s.len() > 0 {
        let d = s.drop_last();
        assert(in_order(d, le)) by {
            assert forall|i: int, j: int| 0 <= i < j < d.len() implies le(
                #[trigger] d[i],
                #[trigger] d[j],
            ) by {
                assert(le(s[i], s[j]));
            }
        }
        lemma_sorted_id(d, le);
        if d.len() > 0 {
            assert(le(s[s.len() - 2], s[s.len() - 1]));
        }
        assert(d.push(s.last()) =~= s);
    }
}

/// What comes first after one more element has been put in its place.
pub proof fn lemma_inserted_head<T>(s: Seq<T>, x: T, le: spec_fn(T, T) -> bool)
    requires
        is_total_order(le),
        in_order(s, le),
    ensures
        inserted(s, x, le).len() == s.len() + 1,
        inserted(s, x, le)[0] == (if s.len() > 0 && le(s[0], x) {
            s[0]
        } else {
            x
        }),
    decreases s.len(),
{
    if s.len() > 0 {
        let d = s.drop_last();
        if le(s.last(), x) {
            if s.len() > 1 {
                assert(le(s[0], s[s.len() - 1]));
            }
        } else {
            assert(in_order(d, le)) by {
                assert forall|i: int, j: int| 0 <= i < j < d.len() implies le(
                    #[trigger] d[i],
                    #[trigger] d[j],
                ) by {
                    assert(le(s[i], s[j]));
                }
            }
            lemma_inserted_head(d, x, le);
        }
    }
}

/// Sorting and renaming the elements can change places.
pub proof fn lemma_sorted_map<T, U>(
    s: Seq<T>,
    f: spec_fn(T) -> U,
    le: spec_fn(T, T) -> bool,
    le_named: spec_fn(U, U) -> bool,
)
    requires
        forall|a: T, b: T| #[trigger] le(a, b) == le_named(f(a), f(b)),
    ensures
        sorted(s, le).map_values(f) == sorted(s.map_values(f), le_named),
    decreases s.len(),
{
    if s.len() == 0 {
        assert(sorted(s, le).map_values(f) =~= s.map_values(f));
    } else {
        lemma_sorted_map(s.drop_last(), f, le, le_named);
        lemma_inserted_map(sorted(s.drop_last(), le), s.last(), f, le, le_named);
        assert(s.map_values(f).drop_last() =~= s.drop_last().map_values(f));
    }
}

proof fn lemma_inserted_map<T, U>(
    s: Seq<T>,
    x: T,
    f: spec_fn(T) -> U,
    le: spec_fn(T, T) -> bool,
    le_named: spec_fn(U, U) -> bool,
)
    requires
        forall|a: T, b: T| #[trigger] le(a, b) == le_named(f(a), f(b)),
    ensures
        inserted(s, x, le).map_values(f) == inserted(s.map_values(f), f(x), le_named),
    decreases s.len(),
{
    if s.len() == 0 || le(s.last(), x) {
        if s.len() > 0 {
            assert(le(s.last(), x) == le_named(f(s.last()), f(x)));
        }
        assert(s.push(x).map_values(f) =~= s.map_values(f).push(f(x)));
    } else {
        assert(le(s.last(), x) == le_named(f(s.last()), f(x)));
        lemma_inserted_map(s.drop_last(), x, f, le, le_named);
        assert(s.map_values(f).drop_last() =~= s.drop_last().map_values(f));
        assert(inserted(s, x, le).map_values(f) =~= inserted(s.drop_last(), x, le).map_values(
            f,
        ).push(f(s.last())));
    }
}

/// Sorts by a relation that `le` computes.
pub fn stable_sort<T, F: Fn(&T, &T) -> bool>(
    items: Vec<T>,
    le: F,
    Ghost(rel): Ghost<spec_fn(T, T) -> bool>,
) -> (out: Vec<T>)
    requires
        forall|a: T, b: T| #[trigger] call_requires(le, (&a, &b)),
        forall|a: T, b: T, r: bool| #[trigger] call_ensures(le, (&a, &b), r) ==> r == rel(a, b),
    ensures
        out@ == sorted(items@, rel),
{
    let mut out: Vec<T> = Vec::new();
    let ghost all = items@;
    let mut rest = items;
    let mut queue: Vec<T> = Vec::new();
    while rest.len() > 0
        invariant
            queue@.reverse() =~= all.skip(rest.len() as int),
            rest@ == all.take(rest.len() as int),
            rest.len() <= all.len(),
        decreases rest.len(),
    {
        let ghost n = rest.len() as int;
        let x = rest.pop().unwrap();
        queue.push(x);
        assert(all.skip(n - 1) =~= seq![x] + all.skip(n));
    }
    assert(queue@.reverse() =~= all);
    while queue.len() > 0
        invariant
            queue.len() <= all.len(),
            queue@ == all.skip(all.len() - queue.len()).reverse(),
            out@ == sorted(all.take(all.len() - queue.len()), rel),
            forall|a: T, b: T| #[trigger] call_requires(le, (&a, &b)),
            forall|a: T, b: T, r: bool| #[trigger] call_ensures(le, (&a, &b), r) ==> r == rel(a, b),
        decreases queue.len(),
    {
        let ghost n = (all.len() - queue.len()) as int;
        let x = queue.pop().unwrap();
        assert(x == all[n]);
        assert(all.take(n + 1).drop_last() =~= all.take(n));
        assert(queue@ =~= all.skip(n + 1).reverse());
        let mut i: usize = out.len();
        while i > 0 && !le(&out[i - 1], &x)
            invariant
                i <= out.len(),
                forall|k: int| i <= k < out.len() ==> !rel(#[trigger] out@[k], x),
                forall|a: T, b: T| #[trigger] call_requires(le, (&a, &b)),
                forall|a: T, b: T, r: bool| #[trigger]
                    call_ensures(le, (&a, &b), r) ==> r == rel(a, b),
            decreases i,
        {
            i -= 1;
        }
        proof {
            lemma_inserted_at(out@, x, rel, i as int);
        }
        out.insert(i, x);
    }
    assert(all.take(all.len() as int) =~= all);
    out
}

/// Elements put in order are the same elements, and none occurs twice that did
/// not.
pub proof fn lemma_sorted_same<T>(s: Seq<T>, le: spec_fn(T, T) -> bool)
    ensures
        forall|x: T| #[trigger] sorted(s, le).contains(x) <==> s.contains(x),
        s.no_duplicates() ==> sorted(s, le).no_duplicates(),
{
    let out = sorted(s, le);
    lemma_sorted_multiset(s, le);
    s.to_multiset_ensures();
    out.to_multiset_ensures();
    assert forall|x: T| #[trigger] out.contains(x) <==> s.contains(x) by {
        assert(out.contains(x) <==> out.to_multiset().count(x) > 0);
        assert(s.contains(x) <==> s.to_multiset().count(x) > 0);
    }
    if s.no_duplicates() {
        s.lemma_multiset_has_no_duplicates();
        out.lemma_multiset_has_no_duplicates_conv();
    }
}

} // verus!
