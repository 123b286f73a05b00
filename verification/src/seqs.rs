//! Facts about sequences that the rest of the library leans on.
use vstd::prelude::*;

verus! {

/// Filtering one element more of a sequence keeps that element or not.
pub proof fn lemma_filter_step<A>(s: Seq<A>, i: int, pred: spec_fn(A) -> bool)
    requires
        0 <= i < s.len(),
    ensures
        s.take(i + 1).filter(pred) == if pred(s[i]) {
            s.take(i).filter(pred).push(s[i])
        } else {
            s.take(i).filter(pred)
        },
{
    assert(s.take(i + 1) =~= s.take(i).push(s[i]));
    s.take(i).lemma_filter_push(s[i], pred);
}

/// A sequence without repetitions keeps that property when filtered.
pub proof fn lemma_filter_no_duplicates<A>(s: Seq<A>, pred: spec_fn(A) -> bool)
    requires
        s.no_duplicates(),
    ensures
        s.filter(pred).no_duplicates(),
    decreases s.len(),
{
    broadcast use vstd::seq_lib::group_filter_ensures;

    reveal(Seq::filter);
    if s.len() > 0 {
        let front = s.drop_last();
        lemma_filter_no_duplicates(front, pred);
        if pred(s.last()) {
            assert forall|i: int| 0 <= i < front.filter(pred).len() implies front.filter(pred)[i]
                != s.last() by {
                front.lemma_filter_contains_rev(pred, front.filter(pred)[i]);
                if front.filter(pred)[i] == s.last() {
                    let j = choose|j: int| 0 <= j < front.len() && front[j] == s.last();
                    assert(s[j] == s[s.len() - 1]);
                }
            }
        }
    }
}

/// What is left after filtering meets the filter, and came from the
/// sequence.
pub proof fn lemma_filter_members<A>(s: Seq<A>, pred: spec_fn(A) -> bool)
    ensures
        forall|x: A| s.filter(pred).contains(x) <==> s.contains(x) && pred(x),
{
    broadcast use vstd::seq_lib::group_filter_ensures;

    assert forall|x: A| s.filter(pred).contains(x) <==> s.contains(x) && pred(x) by {
        if s.filter(pred).contains(x) {
            s.lemma_filter_contains_rev(pred, x);
            let i = choose|i: int| 0 <= i < s.filter(pred).len() && s.filter(pred)[i] == x;
            s.lemma_filter_pred(pred, i);
        }
        if s.contains(x) && pred(x) {
            let i = choose|i: int| 0 <= i < s.len() && s[i] == x;
            s.lemma_filter_contains(pred, i);
        }
    }
}

/// The number of places of `all` whose element `held` lacks.
pub open spec fn missing<A>(all: Seq<A>, held: Seq<A>) -> nat
    decreases all.len(),
{
    if all.len() == 0 {
        0
    } else {
        missing(all.drop_last(), held) + if held.contains(all.last()) {
            0nat
        } else {
            1nat
        }
    }
}

/// The more is held, the less is missing.
pub proof fn lemma_missing_grows<A>(all: Seq<A>, held: Seq<A>, more: Seq<A>)
    requires
        forall|x: A| held.contains(x) ==> more.contains(x),
    ensures
        missing(all, more) <= missing(all, held),
    decreases all.len(),
{
    if all.len() > 0 {
        lemma_missing_grows(all.drop_last(), held, more);
    }
}

/// Holding an element of `all` that was not held before leaves less
/// missing.
pub proof fn lemma_missing_shrinks<A>(all: Seq<A>, held: Seq<A>, more: Seq<A>, x: A)
    requires
        forall|y: A| held.contains(y) ==> more.contains(y),
        all.contains(x),
        !held.contains(x),
        more.contains(x),
    ensures
        missing(all, more) < missing(all, held),
    decreases all.len(),
{
    if all.len() > 0 {
        let front = all.drop_last();
        if all.last() == x {
            lemma_missing_grows(front, held, more);
        } else {
            let i = choose|i: int| 0 <= i < all.len() && all[i] == x;
            assert(front[i] == x);
            lemma_missing_shrinks(front, held, more, x);
        }
    }
}

} // verus!
