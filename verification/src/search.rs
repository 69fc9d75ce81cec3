//! Where in a sequence the first item of a kind stands.

use vstd::prelude::*;

verus! {

/// Where the first item of `items` that `wanted` picks stands.
pub open spec fn first_where<T>(items: Seq<T>, wanted: spec_fn(T) -> bool) -> Option<int>
    decreases items.len(),
{
    if items.len() == 0 {
        None
    } else {
        match first_where(items.drop_last(), wanted) {
            Some(at) => Some(at),
            None => if wanted(items.last()) {
                Some(items.len() - 1)
            } else {
                None
            },
        }
    }
}

/// The first wanted item is wanted, and none before it is; where there is no first, none is.
pub proof fn lemma_first_where<T>(items: Seq<T>, wanted: spec_fn(T) -> bool)
    ensures
        match first_where(items, wanted) {
            Some(at) => {
                &&& 0 <= at < items.len()
                &&& wanted(items[at])
                &&& forall|i: int| 0 <= i < at ==> !wanted(#[trigger] items[i])
            },
            None => forall|i: int| 0 <= i < items.len() ==> !wanted(#[trigger] items[i]),
        },
    decreases items.len(),
{
    if items.len() > 0 {
        let front = items.drop_last();
        lemma_first_where(front, wanted);
        assert(forall|i: int| 0 <= i < front.len() ==> #[trigger] items[i] == front[i]);
    }
}

/// An item that is wanted while none before it is, is the first.
pub proof fn lemma_first_is<T>(items: Seq<T>, wanted: spec_fn(T) -> bool, at: int)
    requires
        0 <= at < items.len(),
        wanted(items[at]),
        forall|i: int| 0 <= i < at ==> !wanted(#[trigger] items[i]),
    ensures
        first_where(items, wanted) == Some(at),
{
    lemma_first_where(items, wanted);
}

/// Where no item is wanted there is no first.
pub proof fn lemma_first_is_none<T>(items: Seq<T>, wanted: spec_fn(T) -> bool)
    requires
        forall|i: int| 0 <= i < items.len() ==> !wanted(#[trigger] items[i]),
    ensures
        first_where(items, wanted) is None,
{
    lemma_first_where(items, wanted);
}

/// Whether `at` are the positions below `n` that `wanted` picks, all of them, in their order.
pub open spec fn is_pick(at: Seq<int>, n: int, wanted: spec_fn(int) -> bool) -> bool {
    &&& forall|j: int, k: int| 0 <= j < k < at.len() ==> at[j] < at[k]
    &&& forall|k: int| 0 <= k < at.len() ==> 0 <= #[trigger] at[k] < n && wanted(at[k])
    &&& forall|i: int| 0 <= i < n && #[trigger] wanted(i) ==> at.contains(i)
}

/// The positions picked below `n`, and `n` itself where it is wanted, are those picked below the
/// next.
pub proof fn lemma_pick_next(at: Seq<int>, n: int, wanted: spec_fn(int) -> bool) -> (next: Seq<int>)
    requires
        0 <= n,
        is_pick(at, n, wanted),
    ensures
        is_pick(next, n + 1, wanted),
        next == if wanted(n) {
            at.push(n)
        } else {
            at
        },
{
    let next = if wanted(n) {
        at.push(n)
    } else {
        at
    };
    assert forall|i: int| 0 <= i < n + 1 && #[trigger] wanted(i) implies next.contains(i) by {
        if i < n {
            let k = choose|k: int| 0 <= k < at.len() && at[k] == i;
            assert(next[k] == i);
        } else {
            assert(next[at.len() as int] == n);
        }
    }
    next
}

} // verus!
