//! A stable sort for records that are ranked by a strict weak order.

use vstd::prelude::*;

verus! {

/// Records with a rule that says which of two comes first. Records of which neither comes
/// first are tied; the rule must treat tied records alike.
pub trait Ranked: Sized {
    /// Whether `self` must stand before `other`.
    spec fn ranks_before(&self, other: &Self) -> bool;

    /// Decides `ranks_before`.
    fn comes_before(&self, other: &Self) -> (first: bool)
        ensures
            first == self.ranks_before(other),
    ;

    /// No two records each come before the other.
    proof fn lemma_asymmetric(a: &Self, b: &Self)
        requires
            a.ranks_before(b),
        ensures
            !b.ranks_before(a),
    ;

    /// Whatever stands between two ranked records is ranked against one of them.
    proof fn lemma_splits(a: &Self, b: &Self, c: &Self)
        requires
            a.ranks_before(c),
        ensures
            a.ranks_before(b) || b.ranks_before(c),
    ;
}

/// Whether the record at index `i` stands before the one at index `j` once the list is
/// sorted: by rank, and among tied records the one that came first stays first.
pub open spec fn placed_before<T: Ranked>(items: Seq<T>, i: int, j: int) -> bool {
    items[i].ranks_before(&items[j]) || (!items[j].ranks_before(&items[i]) && i < j)
}

/// Whether `order` lists every index of `items` once, each placed before all that follow.
pub open spec fn is_stable_order<T: Ranked>(items: Seq<T>, order: Seq<int>) -> bool {
    &&& order.len() == items.len()
    &&& forall|k: int| 0 <= k < order.len() ==> 0 <= #[trigger] order[k] < items.len()
    &&& forall|a: int, b: int|
        0 <= a < b < order.len() ==> placed_before(items, #[trigger] order[a], #[trigger] order[b])
    &&& forall|i: int| 0 <= i < items.len() ==> #[trigger] order.contains(i)
}

/// The indices of `items` in sorted order.
pub open spec fn stable_order<T: Ranked>(items: Seq<T>) -> Seq<int> {
    choose|order: Seq<int>| is_stable_order(items, order)
}

/// The records of `items` in the sequence that `order` gives.
pub open spec fn arranged<T>(items: Seq<T>, order: Seq<int>) -> Seq<T> {
    Seq::new(order.len(), |k: int| items[order[k]])
}

/// `items` sorted by rank, tied records in their first order.
pub open spec fn stably_sorted<T: Ranked>(items: Seq<T>) -> Seq<T> {
    arranged(items, stable_order(items))
}

/// If `a` is placed before `b`, then `b` is not placed before `a`.
pub proof fn lemma_placed_before_asymmetric<T: Ranked>(items: Seq<T>, i: int, j: int)
    requires
        placed_before(items, i, j),
    ensures
        !placed_before(items, j, i),
{
    if items[i].ranks_before(&items[j]) {
        T::lemma_asymmetric(&items[i], &items[j]);
    }
}

proof fn lemma_orders_agree_upto<T: Ranked>(items: Seq<T>, o1: Seq<int>, o2: Seq<int>, p: int)
    requires
        is_stable_order(items, o1),
        is_stable_order(items, o2),
        0 <= p < items.len(),
    ensures
        forall|q: int| 0 <= q <= p ==> o1[q] == o2[q],
    decreases p,
{
    if p > 0 {
        lemma_orders_agree_upto(items, o1, o2, p - 1);
    }
    if o1[p] != o2[p] {
        let x = o1[p];
        let y = o2[p];
        assert(o1.contains(y) && o2.contains(x));
        let k1 = choose|k: int| 0 <= k < o1.len() && o1[k] == y;
        let k2 = choose|k: int| 0 <= k < o2.len() && o2[k] == x;
        if k1 < p {
            assert(o2[k1] == y);
            assert(placed_before(items, o2[k1], o2[p]));
            if items[y].ranks_before(&items[y]) {
                T::lemma_asymmetric(&items[y], &items[y]);
            }
        }
        if k2 < p {
            assert(o1[k2] == x);
            assert(placed_before(items, o1[k2], o1[p]));
            if items[x].ranks_before(&items[x]) {
                T::lemma_asymmetric(&items[x], &items[x]);
            }
        }
        assert(placed_before(items, o1[p], o1[k1]));
        assert(placed_before(items, o2[p], o2[k2]));
        lemma_placed_before_asymmetric(items, x, y);
    }
}

/// A list has at most one stable order.
pub proof fn lemma_stable_order_unique<T: Ranked>(items: Seq<T>, o1: Seq<int>, o2: Seq<int>)
    requires
        is_stable_order(items, o1),
        is_stable_order(items, o2),
    ensures
        o1 == o2,
{
    if items.len() > 0 {
        lemma_orders_agree_upto(items, o1, o2, items.len() - 1);
    }
    assert(o1 =~= o2);
}

/// In a sorted list no record ranks before one that stands earlier, and every record of the
/// input stands somewhere in it.
pub proof fn lemma_stably_sorted<T: Ranked>(items: Seq<T>, order: Seq<int>)
    requires
        is_stable_order(items, order),
    ensures
        order == stable_order(items),
        stably_sorted(items).len() == items.len(),
        forall|a: int, b: int|
            0 <= a < b < items.len() ==> !(#[trigger] stably_sorted(items)[b].ranks_before(
                &stably_sorted(items)[a],
            )),
        forall|i: int| 0 <= i < items.len() ==> stably_sorted(items).contains(#[trigger] items[i]),
{
    lemma_stable_order_unique(items, order, stable_order(items));
    let sorted = stably_sorted(items);
    assert forall|a: int, b: int| 0 <= a < b < items.len() implies !(#[trigger] sorted[b].ranks_before(
        &sorted[a],
    )) by {
        assert(placed_before(items, order[a], order[b]));
        lemma_placed_before_asymmetric(items, order[a], order[b]);
    }
    assert forall|i: int| 0 <= i < items.len() implies sorted.contains(#[trigger] items[i]) by {
        assert(order.contains(i));
        let k = choose|k: int| 0 <= k < order.len() && order[k] == i;
        assert(sorted[k] == items[i]);
    }
}

/// Sorts `items` by rank. Tied records keep the order in which they were given.
pub fn stable_sort<T: Ranked>(items: Vec<T>) -> (sorted: Vec<T>)
    ensures
        sorted@ == stably_sorted(items@),
        is_stable_order(items@, stable_order(items@)),
{
    let ghost all = items@;
    let mut rest = items;
    let mut sorted: Vec<T> = Vec::new();
    let ghost mut order: Seq<int> = Seq::empty();
    while rest.len() > 0
        invariant
            rest.len() <= all.len(),
            rest@ == all.take(rest.len() as int),
            sorted.len() == order.len(),
            order.len() == all.len() - rest.len(),
            forall|k: int|
                0 <= k < order.len() ==> rest.len() <= #[trigger] order[k] < all.len() && sorted[k]
                    == all[order[k]],
            forall|a: int, b: int|
                0 <= a < b < order.len() ==> placed_before(
                    all,
                    #[trigger] order[a],
                    #[trigger] order[b],
                ),
            forall|i: int| rest.len() <= i < all.len() ==> #[trigger] order.contains(i),
        decreases rest.len(),
    {
        let ghost before = order;
        let ghost index = rest.len() - 1;
        let item = rest.pop().unwrap();
        assert(item == all[index]);
        let mut pos: usize = 0;
        while pos < sorted.len() && sorted[pos].comes_before(&item)
            invariant
                pos <= sorted.len(),
                sorted.len() == order.len(),
                item == all[index],
                forall|k: int|
                    0 <= k < order.len() ==> index < #[trigger] order[k] < all.len() && sorted[k]
                        == all[order[k]],
                forall|k: int| 0 <= k < pos ==> all[#[trigger] order[k]].ranks_before(&all[index]),
            decreases sorted.len() - pos,
        {
            pos += 1;
        }
        proof {
            assert forall|b: int| pos <= b < before.len() implies placed_before(
                all,
                index,
                #[trigger] before[b],
            ) by {
                let first = before[pos as int];
                let later = before[b];
                assert(!all[first].ranks_before(&all[index]));
                if all[later].ranks_before(&all[index]) {
                    T::lemma_splits(&all[later], &all[first], &all[index]);
                    assert(all[later].ranks_before(&all[first]));
                    if b > pos {
                        assert(placed_before(all, before[pos as int], before[b]));
                        lemma_placed_before_asymmetric(all, first, later);
                    } else {
                        T::lemma_asymmetric(&all[later], &all[first]);
                    }
                }
            }
            order = before.insert(pos as int, index);
        }
        sorted.insert(pos, item);
        proof {
            assert forall|a: int, b: int| 0 <= a < b < order.len() implies placed_before(
                all,
                #[trigger] order[a],
                #[trigger] order[b],
            ) by {
                if b < pos {
                    assert(order[a] == before[a] && order[b] == before[b]);
                } else if b == pos {
                    assert(order[a] == before[a]);
                } else if a < pos {
                    assert(order[a] == before[a] && order[b] == before[b - 1]);
                } else if a == pos {
                    assert(order[b] == before[b - 1]);
                } else {
                    assert(order[a] == before[a - 1] && order[b] == before[b - 1]);
                }
            }
            assert forall|i: int| rest.len() <= i < all.len() implies #[trigger] order.contains(
                i,
            ) by {
                if i == index {
                    assert(order[pos as int] == i);
                } else {
                    assert(before.contains(i));
                    let k = choose|k: int| 0 <= k < before.len() && before[k] == i;
                    if k < pos {
                        assert(order[k] == i);
                    } else {
                        assert(order[k + 1] == i);
                    }
                }
            }
            assert forall|k: int| 0 <= k < order.len() implies rest.len() <= #[trigger] order[k]
                < all.len() && sorted[k] == all[order[k]] by {
                if k < pos {
                    assert(order[k] == before[k]);
                } else if k > pos {
                    assert(order[k] == before[k - 1]);
                }
            }
        }
    }
    proof {
        assert(is_stable_order(all, order));
        lemma_stable_order_unique(all, order, stable_order(all));
        assert(sorted@ =~= stably_sorted(all));
    }
    sorted
}

} // verus!
