//! Stable sorting by a key.

use vstd::prelude::*;
use vstd::seq_lib::*;

verus! {

/// `r` with `x` in front of the first element whose key is not below that of `x`.
pub open spec fn placed<A>(x: A, r: Seq<A>, key: spec_fn(A) -> int) -> Seq<A>
    decreases r.len(),
{
    if r.len() == 0 || key(x) <= key(r[0]) {
        seq![x] + r
    } else {
        seq![r[0]] + placed(x, r.skip(1), key)
    }
}

/// The elements of `s` in the order of their keys; where keys are equal, in the
/// order of `s`.
pub open spec fn sorted<A>(s: Seq<A>, key: spec_fn(A) -> int) -> Seq<A>
    decreases s.len(),
{
    if s.len() == 0 {
        s
    } else {
        placed(s[0], sorted(s.skip(1), key), key)
    }
}

/// No key is below the one before it.
pub open spec fn is_sorted<A>(s: Seq<A>, key: spec_fn(A) -> int) -> bool {
    forall|i: int, j: int| 0 <= i <= j < s.len() ==> key(#[trigger] s[i]) <= key(#[trigger] s[j])
}

/// Where `x` goes in `r`: behind every element below it.
pub proof fn lemma_placed_at<A>(x: A, r: Seq<A>, p: int, key: spec_fn(A) -> int)
    requires
        0 <= p <= r.len(),
        forall|i: int| 0 <= i < p ==> key(#[trigger] r[i]) < key(x),
        p < r.len() ==> key(x) <= key(r[p]),
    ensures
        placed(x, r, key) == r.insert(p, x),
    decreases r.len(),
{
    if p == 0 {
        assert(r.insert(0, x) =~= seq![x] + r);
    } else {
        assert(key(r[0]) < key(x));
        let t = r.skip(1);
        assert forall|i: int| 0 <= i < p - 1 implies key(#[trigger] t[i]) < key(x) by {
            assert(t[i] == r[i + 1]);
        }
        lemma_placed_at(x, t, p - 1, key);
        assert(r.insert(p, x) =~= seq![r[0]] + t.insert(p - 1, x));
    }
}

proof fn lemma_placed<A>(x: A, r: Seq<A>, key: spec_fn(A) -> int)
    requires
        is_sorted(r, key),
    ensures
        is_sorted(placed(x, r, key), key),
        placed(x, r, key).to_multiset() == r.to_multiset().insert(x),
        placed(x, r, key).len() == r.len() + 1,
        placed(x, r, key)[0] == x || (r.len() > 0 && placed(x, r, key)[0] == r[0]),
    decreases r.len(),
{
    broadcast use group_to_multiset_ensures;

    if r.len() == 0 || key(x) <= key(r[0]) {
        let out = seq![x] + r;
        assert(out =~= r.insert(0, x));
        to_multiset_insert(r, 0, x);
    } else {
        let t = r.skip(1);
        assert(is_sorted(t, key)) by {
            assert forall|i: int, j: int| 0 <= i <= j < t.len() implies key(#[trigger] t[i]) <= key(
                #[trigger] t[j],
            ) by {
                assert(t[i] == r[i + 1] && t[j] == r[j + 1]);
            }
        }
        lemma_placed(x, t, key);
        let rest = placed(x, t, key);
        let out = seq![r[0]] + rest;
        assert forall|i: int, j: int| 0 <= i <= j < out.len() implies key(#[trigger] out[i]) <= key(
            #[trigger] out[j],
        ) by {
            if i > 0 {
                assert(out[i] == rest[i - 1] && out[j] == rest[j - 1]);
            } else if j > 0 {
                assert(out[j] == rest[j - 1]);
                assert(key(rest[0]) <= key(rest[j - 1]));
                if rest[0] != x {
                    assert(rest[0] == r[1]);
                    assert(key(r[0]) <= key(r[1]));
                }
            }
        }
        assert(out =~= rest.insert(0, r[0]));
        to_multiset_insert(rest, 0, r[0]);
        assert(r =~= t.insert(0, r[0]));
        to_multiset_insert(t, 0, r[0]);
        assert(out.to_multiset() =~= r.to_multiset().insert(x));
    }
}

/// Sorting orders the elements and keeps them all.
pub proof fn sorted_is_a_sorted_permutation<A>(s: Seq<A>, key: spec_fn(A) -> int)
    ensures
        is_sorted(sorted(s, key), key),
        sorted(s, key).to_multiset() == s.to_multiset(),
        sorted(s, key).len() == s.len(),
    decreases s.len(),
{
    broadcast use group_to_multiset_ensures;

    if s.len() > 0 {
        let t = s.skip(1);
        sorted_is_a_sorted_permutation(t, key);
        lemma_placed(s[0], sorted(t, key), key);
        assert(s =~= t.insert(0, s[0]));
        to_multiset_insert(t, 0, s[0]);
    }
}

/// The elements of `s` whose key is `k`.
pub open spec fn with_key<A>(s: Seq<A>, key: spec_fn(A) -> int, k: int) -> Seq<A> {
    s.filter(|x: A| key(x) == k)
}

proof fn lemma_with_key_of_front<A>(x: A, r: Seq<A>, key: spec_fn(A) -> int, k: int)
    ensures
        with_key(seq![x] + r, key, k) == (if key(x) == k {
            seq![x] + with_key(r, key, k)
        } else {
            with_key(r, key, k)
        }),
{
    let pred = |y: A| key(y) == k;
    let one = seq![x];
    Seq::filter_distributes_over_add(one, r, pred);
    reveal_with_fuel(Seq::filter, 2);
    assert(one.drop_last() =~= Seq::empty());
    assert(one.filter(pred) =~= (if key(x) == k {
        one
    } else {
        Seq::empty()
    }));
    assert(Seq::<A>::empty() + with_key(r, key, k) =~= with_key(r, key, k));
}

proof fn lemma_placed_with_key<A>(x: A, r: Seq<A>, key: spec_fn(A) -> int, k: int)
    ensures
        with_key(placed(x, r, key), key, k) == with_key(seq![x] + r, key, k),
    decreases r.len(),
{
    if r.len() > 0 && key(x) > key(r[0]) {
        let t = r.skip(1);
        lemma_placed_with_key(x, t, key, k);
        lemma_with_key_of_front(r[0], placed(x, t, key), key, k);
        lemma_with_key_of_front(x, t, key, k);
        lemma_with_key_of_front(x, r, key, k);
        lemma_with_key_of_front(r[0], t, key, k);
        assert(r =~= seq![r[0]] + t);
    }
}

/// Sorting is stable: elements with the same key keep their order.
pub proof fn sorting_is_stable<A>(s: Seq<A>, key: spec_fn(A) -> int, k: int)
    ensures
        with_key(sorted(s, key), key, k) == with_key(s, key, k),
    decreases s.len(),
{
    if s.len() > 0 {
        let t = s.skip(1);
        sorting_is_stable(t, key, k);
        lemma_placed_with_key(s[0], sorted(t, key), key, k);
        lemma_with_key_of_front(s[0], sorted(t, key), key, k);
        lemma_with_key_of_front(s[0], t, key, k);
        assert(s =~= seq![s[0]] + t);
    }
}

} // verus!
