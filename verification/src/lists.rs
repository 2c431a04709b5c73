//! Facts about lists that the proofs of the library lean on.

use vstd::prelude::*;

verus! {

/// A filtered list that got one more item filters the item too.
pub proof fn lemma_filter_push<A>(list: Seq<A>, item: A, keep: spec_fn(A) -> bool)
    ensures
        list.push(item).filter(keep) == if keep(item) {
            list.filter(keep).push(item)
        } else {
            list.filter(keep)
        },
{
    reveal(Seq::filter);
    assert(list.push(item).drop_last() =~= list);
}

/// What a filter keeps was in the list.
pub proof fn lemma_filter_within<A>(list: Seq<A>, keep: spec_fn(A) -> bool, item: A)
    requires
        list.filter(keep).contains(item),
    ensures
        list.contains(item),
        keep(item),
    decreases list.len(),
{
    reveal(Seq::filter);
    if list.len() > 0 {
        let earlier = list.drop_last().filter(keep);
        if keep(list.last()) && item == list.last() {
            assert(list[list.len() - 1] == item);
        } else {
            let i = choose|i: int| 0 <= i < list.filter(keep).len() && list.filter(keep)[i] == item;
            if keep(list.last()) {
                assert(earlier.push(list.last())[i] == item);
            }
            assert(earlier[i] == item);
            lemma_filter_within(list.drop_last(), keep, item);
            let k = choose|k: int| 0 <= k < list.drop_last().len() && list.drop_last()[k] == item;
            assert(list[k] == item);
        }
    }
}

/// A list in which two items changed places holds the items it held, each as
/// often as before.
pub proof fn lemma_swap_keeps_items<A>(list: Seq<A>, i: int, j: int)
    requires
        0 <= i < list.len(),
        0 <= j < list.len(),
    ensures
        list.update(i, list[j]).update(j, list[i]).to_multiset() == list.to_multiset(),
{
    broadcast use {
        vstd::seq_lib::to_multiset_update,
        vstd::seq_lib::to_multiset_contains,
        vstd::multiset::group_multiset_axioms,
    };

    let half = list.update(i, list[j]);
    assert(list.contains(list[i]));
    assert(half.contains(half[j]));
    assert(half.update(j, list[i]).to_multiset() =~= list.to_multiset());
}

/// A filter and its inverse split the list: every item of the list is kept by
/// exactly one of the two, and neither keeps anything else.
pub proof fn lemma_filter_splits<A>(list: Seq<A>, keep: spec_fn(A) -> bool, leave: spec_fn(A) -> bool)
    requires
        forall|item: A| #[trigger] leave(item) == !keep(item),
    ensures
        list.filter(keep).to_set().union(list.filter(leave).to_set()) == list.to_set(),
        list.filter(keep).to_set().disjoint(list.filter(leave).to_set()),
{
    let kept = list.filter(keep);
    let left = list.filter(leave);
    assert forall|item: A| kept.contains(item) || left.contains(item) <==> list.contains(item) by {
        if kept.contains(item) {
            lemma_filter_within(list, keep, item);
        }
        if left.contains(item) {
            lemma_filter_within(list, leave, item);
        }
        if list.contains(item) {
            let i = choose|i: int| 0 <= i < list.len() && list[i] == item;
            if keep(item) {
                list.lemma_filter_contains(keep, i);
            } else {
                list.lemma_filter_contains(leave, i);
            }
        }
    }
    assert forall|item: A| !(kept.contains(item) && left.contains(item)) by {
        if kept.contains(item) && left.contains(item) {
            lemma_filter_within(list, keep, item);
            lemma_filter_within(list, leave, item);
        }
    }
    assert(kept.to_set().union(left.to_set()) =~= list.to_set());
}

} // verus!
