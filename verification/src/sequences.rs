//! Facts about picking elements out of sequences.

use vstd::prelude::*;

verus! {

/// Picking twice picks what passes both times.
pub proof fn lemma_filter_twice<A>(
    s: Seq<A>,
    first: spec_fn(A) -> bool,
    second: spec_fn(A) -> bool,
    both: spec_fn(A) -> bool,
)
    requires
        forall|i: int|
            0 <= i < s.len() ==> #[trigger] both(s[i]) == (first(s[i]) && second(s[i])),
    ensures
        s.filter(first).filter(second) == s.filter(both),
    decreases s.len(),
{
    reveal(Seq::filter);
    if s.len() > 0 {
        let front = s.drop_last();
        assert forall|i: int| 0 <= i < front.len() implies #[trigger] both(front[i]) == (first(
            front[i],
        ) && second(front[i])) by {
            assert(front[i] == s[i]);
        }
        lemma_filter_twice(front, first, second, both);
        assert(both(s[s.len() - 1]) == (first(s.last()) && second(s.last())));
        if first(s.last()) {
            assert(s.filter(first).drop_last() =~= front.filter(first));
        }
    }
}

/// What is picked is what passes.
pub proof fn lemma_filter_members<A>(s: Seq<A>, pred: spec_fn(A) -> bool, x: A)
    ensures
        s.filter(pred).contains(x) == (s.contains(x) && pred(x)),
    decreases s.len(),
{
    reveal(Seq::filter);
    if s.len() > 0 {
        let front = s.drop_last();
        lemma_filter_members(front, pred, x);
        assert(s =~= front.push(s.last()));
        lemma_push_members(front, s.last(), x);
        lemma_push_members(front.filter(pred), s.last(), x);
    }
}

/// The elements after one was added.
pub proof fn lemma_push_members<A>(s: Seq<A>, last: A, x: A)
    ensures
        s.push(last).contains(x) == (s.contains(x) || x == last),
{
    if s.contains(x) {
        let k = s.index_of(x);
        assert(s.push(last)[k] == x);
    }
    assert(s.push(last)[s.len() as int] == last);
    if s.push(last).contains(x) && x != last {
        let k = s.push(last).index_of(x);
        assert(s[k] == x);
    }
}

/// Picking by tests that agree on all elements picks the same.
pub proof fn lemma_filter_same<A>(s: Seq<A>, one: spec_fn(A) -> bool, other: spec_fn(A) -> bool)
    requires
        forall|i: int| 0 <= i < s.len() ==> one(#[trigger] s[i]) == other(s[i]),
    ensures
        s.filter(one) == s.filter(other),
    decreases s.len(),
{
    reveal(Seq::filter);
    if s.len() > 0 {
        let front = s.drop_last();
        assert forall|i: int| 0 <= i < front.len() implies one(#[trigger] front[i]) == other(
            front[i],
        ) by {
            assert(front[i] == s[i]);
        }
        lemma_filter_same(front, one, other);
        assert(one(s[s.len() - 1]) == other(s.last()));
    }
}

/// A test that all elements pass picks them all.
pub proof fn lemma_filter_all<A>(s: Seq<A>, pred: spec_fn(A) -> bool)
    requires
        forall|i: int| 0 <= i < s.len() ==> pred(#[trigger] s[i]),
    ensures
        s.filter(pred) == s,
    decreases s.len(),
{
    reveal(Seq::filter);
    if s.len() > 0 {
        let front = s.drop_last();
        assert forall|i: int| 0 <= i < front.len() implies pred(#[trigger] front[i]) by {
            assert(front[i] == s[i]);
        }
        lemma_filter_all(front, pred);
        assert(pred(s[s.len() - 1]));
        assert(s =~= front.push(s.last()));
    }
}

/// Two tests of which every element passes just one divide the elements between them.
pub proof fn lemma_filter_divides<A>(s: Seq<A>, one: spec_fn(A) -> bool, other: spec_fn(A) -> bool)
    requires
        forall|i: int| 0 <= i < s.len() ==> one(#[trigger] s[i]) != other(s[i]),
    ensures
        s.filter(one).to_multiset().add(s.filter(other).to_multiset()) == s.to_multiset(),
    decreases s.len(),
{
    broadcast use vstd::multiset::group_multiset_axioms;

    reveal(Seq::filter);
    if s.len() > 0 {
        let front = s.drop_last();
        assert forall|i: int| 0 <= i < front.len() implies one(#[trigger] front[i]) != other(
            front[i],
        ) by {
            assert(front[i] == s[i]);
        }
        lemma_filter_divides(front, one, other);
        assert(one(s[s.len() - 1]) != other(s[s.len() - 1]));
        assert(s =~= front.push(s.last()));
        front.to_multiset_ensures();
        front.filter(one).to_multiset_ensures();
        front.filter(other).to_multiset_ensures();
        assert(s.filter(one).to_multiset().add(s.filter(other).to_multiset()) =~= front.filter(
            one,
        ).to_multiset().add(front.filter(other).to_multiset()).insert(s.last()));
    } else {
        assert(s.filter(one) =~= s);
        assert(s.filter(other) =~= s);
        s.to_multiset_ensures();
        assert(s.to_multiset().add(s.to_multiset()) =~= s.to_multiset());
    }
}

/// What a filter picks keeps its order: of two picked elements the first comes from an earlier
/// place.
pub proof fn lemma_filter_keeps_order<A>(
    s: Seq<A>,
    pred: spec_fn(A) -> bool,
    a: int,
    b: int,
) -> (at: (int, int))
    requires
        0 <= a < b < s.filter(pred).len(),
    ensures
        0 <= at.0 < at.1 < s.len(),
        s[at.0] == s.filter(pred)[a],
        s[at.1] == s.filter(pred)[b],
    decreases s.len(),
{
    reveal(Seq::filter);
    let front = s.drop_last();
    if b < front.filter(pred).len() {
        lemma_filter_keeps_order(front, pred, a, b)
    } else {
        let x = front.filter(pred)[a];
        lemma_filter_members(front, pred, x);
        assert(front.filter(pred).contains(x));
        let i = front.index_of(x);
        (i, s.len() - 1)
    }
}

} // verus!
