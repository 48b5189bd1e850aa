//! What filtering a sequence keeps, told by positions.

use vstd::prelude::*;

verus! {

/// Filtering keeps exactly the elements that satisfy the predicate, once
/// for each position at which one stands, and keeps them in order. The
/// result lists, for each element that was kept, the position that it came
/// from.
pub proof fn lemma_filter_positions<A>(s: Seq<A>, pred: spec_fn(A) -> bool) -> (from: Seq<int>)
    ensures
        from.len() == s.filter(pred).len(),
        forall|k: int|
            0 <= k < from.len() ==> 0 <= (#[trigger] from[k]) < s.len() && s[from[k]] == s.filter(
                pred,
            )[k] && pred(s[from[k]]),
        forall|k: int, l: int| 0 <= k < l < from.len() ==> (#[trigger] from[k]) < (#[trigger] from[l]),
        forall|i: int| 0 <= i < s.len() && pred(#[trigger] s[i]) ==> from.contains(i),
    decreases s.len(),
{
    reveal(Seq::filter);
    if s.len() == 0 {
        Seq::empty()
    } else {
        let front = lemma_filter_positions(s.drop_last(), pred);
        let from = if pred(s.last()) {
            front.push(s.len() - 1)
        } else {
            front
        };
        assert forall|i: int| 0 <= i < s.len() && pred(#[trigger] s[i]) implies from.contains(i) by {
            if i < s.len() - 1 {
                assert(s.drop_last()[i] == s[i]);
                let k = choose|k: int| 0 <= k < front.len() && front[k] == i;
                assert(from[k] == i);
            } else {
                assert(from[from.len() - 1] == i);
            }
        }
        from
    }
}

/// Filtering a sequence in which nothing occurs twice gives such a
/// sequence.
pub proof fn lemma_filter_no_duplicates<A>(s: Seq<A>, pred: spec_fn(A) -> bool)
    requires
        s.no_duplicates(),
    ensures
        s.filter(pred).no_duplicates(),
{
    let from = lemma_filter_positions(s, pred);
    assert forall|k: int, l: int|
        0 <= k < s.filter(pred).len() && 0 <= l < s.filter(pred).len() && k != l implies s.filter(
        pred,
    )[k] != s.filter(pred)[l] by {
        if k < l {
            assert(from[k] < from[l]);
        } else {
            assert(from[l] < from[k]);
        }
    }
}

/// Filtering by a predicate that every element satisfies changes nothing.
pub proof fn lemma_filter_keeps_all<A>(s: Seq<A>, pred: spec_fn(A) -> bool)
    requires
        forall|i: int| 0 <= i < s.len() ==> pred(#[trigger] s[i]),
    ensures
        s.filter(pred) == s,
    decreases s.len(),
{
    reveal(Seq::filter);
    if s.len() > 0 {
        lemma_filter_keeps_all(s.drop_last(), pred);
        assert(s.drop_last().push(s.last()) =~= s);
    }
}

/// Filtering by a predicate that no element satisfies leaves nothing.
pub proof fn lemma_filter_keeps_none<A>(s: Seq<A>, pred: spec_fn(A) -> bool)
    requires
        forall|i: int| 0 <= i < s.len() ==> !pred(#[trigger] s[i]),
    ensures
        s.filter(pred) == Seq::<A>::empty(),
    decreases s.len(),
{
    reveal(Seq::filter);
    if s.len() > 0 {
        lemma_filter_keeps_none(s.drop_last(), pred);
    }
}

/// What filtering keeps are the elements of the sequence that satisfy
/// the predicate.
pub proof fn lemma_filter_contains<A>(s: Seq<A>, pred: spec_fn(A) -> bool, x: A)
    ensures
        s.filter(pred).contains(x) <==> s.contains(x) && pred(x),
{
    let from = lemma_filter_positions(s, pred);
    if s.filter(pred).contains(x) {
        let k = choose|k: int| 0 <= k < s.filter(pred).len() && s.filter(pred)[k] == x;
        assert(s[from[k]] == x);
    }
    if s.contains(x) && pred(x) {
        let i = choose|i: int| 0 <= i < s.len() && s[i] == x;
        assert(from.contains(i));
        let k = choose|k: int| 0 <= k < from.len() && from[k] == i;
        assert(s.filter(pred)[k] == x);
    }
}

} // verus!
