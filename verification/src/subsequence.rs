//! Sequences picked out of other sequences, and what filtering keeps.

use vstd::prelude::*;

verus! {

/// Whether `indices` names, in rising order, the places in `full` at which
/// the elements of `sub` stand.
pub open spec fn picks<T>(indices: Seq<int>, sub: Seq<T>, full: Seq<T>) -> bool {
    &&& indices.len() == sub.len()
    &&& forall|i: int|
        0 <= i < indices.len() ==> 0 <= #[trigger] indices[i] < full.len() && sub[i]
            == full[indices[i]]
    &&& forall|i: int, j: int|
        0 <= i < j < indices.len() ==> #[trigger] indices[i] < #[trigger] indices[j]
}

/// Whether `sub` is what is left of `full` after some of its elements are
/// taken out: nothing is reordered, and nothing occurs more often than it
/// does in `full`.
pub open spec fn is_subsequence<T>(sub: Seq<T>, full: Seq<T>) -> bool {
    exists|indices: Seq<int>| picks(indices, sub, full)
}

/// Every element of a subsequence is an element of the full sequence.
pub proof fn lemma_subsequence_elements<T>(sub: Seq<T>, full: Seq<T>)
    requires
        is_subsequence(sub, full),
    ensures
        sub.len() <= full.len(),
        forall|i: int| 0 <= i < sub.len() ==> full.contains(#[trigger] sub[i]),
{
    let indices = choose|indices: Seq<int>| picks(indices, sub, full);
    assert forall|i: int| 0 <= i < sub.len() implies full.contains(#[trigger] sub[i]) by {
        assert(full[indices[i]] == sub[i]);
    }
    lemma_rising_indices(indices, full.len() as int);
}

/// Rising indices below a bound are at most as many as the bound, and each
/// is at least its own position.
proof fn lemma_rising_indices(indices: Seq<int>, bound: int)
    requires
        forall|i: int| 0 <= i < indices.len() ==> 0 <= #[trigger] indices[i] < bound,
        forall|i: int, j: int|
            0 <= i < j < indices.len() ==> #[trigger] indices[i] < #[trigger] indices[j],
    ensures
        indices.len() <= bound || indices.len() == 0,
        forall|i: int| 0 <= i < indices.len() ==> i <= #[trigger] indices[i],
    decreases indices.len(),
{
    if indices.len() > 0 {
        let front = indices.drop_last();
        let last = indices.len() - 1;
        assert forall|i: int| 0 <= i < front.len() implies 0 <= #[trigger] front[i]
            < indices[last] by {
            assert(front[i] == indices[i]);
        }
        assert forall|i: int, j: int| 0 <= i < j < front.len() implies #[trigger] front[i]
            < #[trigger] front[j] by {
            assert(front[i] == indices[i] && front[j] == indices[j]);
        }
        lemma_rising_indices(front, indices[last]);
        assert forall|i: int| 0 <= i < indices.len() implies i <= #[trigger] indices[i] by {
            if i < last {
                assert(front[i] == indices[i]);
            } else if last > 0 {
                assert(front[last - 1] == indices[last - 1]);
            }
        }
    }
}

/// Filtering gives a subsequence.
pub proof fn lemma_filter_is_subsequence<T>(full: Seq<T>, keep: spec_fn(T) -> bool)
    ensures
        is_subsequence(full.filter(keep), full),
    decreases full.len(),
{
    reveal(Seq::filter);
    if full.len() == 0 {
        assert(picks(Seq::<int>::empty(), full.filter(keep), full));
    } else {
        let front = full.drop_last();
        lemma_filter_is_subsequence(front, keep);
        let indices = choose|indices: Seq<int>| picks(indices, front.filter(keep), front);
        if keep(full.last()) {
            let longer = indices.push(full.len() - 1);
            assert(picks(longer, full.filter(keep), full));
        } else {
            assert(picks(indices, full.filter(keep), full));
        }
    }
}

/// Filtering by a condition that every element meets changes nothing.
pub proof fn lemma_filter_keeps_all<T>(full: Seq<T>, keep: spec_fn(T) -> bool)
    requires
        forall|i: int| 0 <= i < full.len() ==> keep(#[trigger] full[i]),
    ensures
        full.filter(keep) == full,
    decreases full.len(),
{
    reveal(Seq::filter);
    if full.len() > 0 {
        let front = full.drop_last();
        assert forall|i: int| 0 <= i < front.len() implies keep(#[trigger] front[i]) by {
            assert(front[i] == full[i]);
        }
        lemma_filter_keeps_all(front, keep);
        assert(keep(full[full.len() - 1]));
        assert(front.push(full.last()) == full);
    }
}

/// Where one condition implies another on every element, filtering by the
/// first can as well start from what the second has kept.
pub proof fn lemma_filter_narrower<T>(
    full: Seq<T>,
    narrow: spec_fn(T) -> bool,
    wide: spec_fn(T) -> bool,
)
    requires
        forall|i: int| 0 <= i < full.len() && narrow(#[trigger] full[i]) ==> wide(full[i]),
    ensures
        full.filter(wide).filter(narrow) == full.filter(narrow),
        is_subsequence(full.filter(narrow), full.filter(wide)),
    decreases full.len(),
{
    reveal(Seq::filter);
    if full.len() > 0 {
        let front = full.drop_last();
        let last = full.last();
        assert forall|i: int| 0 <= i < front.len() && narrow(#[trigger] front[i]) implies wide(
            front[i],
        ) by {
            assert(front[i] == full[i]);
        }
        lemma_filter_narrower(front, narrow, wide);
        assert(narrow(full[full.len() - 1]) ==> wide(last));
        front.filter(wide).lemma_filter_push(last, narrow);
    }
    lemma_filter_is_subsequence(full.filter(wide), narrow);
}

} // verus!
