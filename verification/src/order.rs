//! The order in which a stable sort by key lists what it sorts.

use vstd::prelude::*;

verus! {

/// In a sort by key, what stands at place `a` has to come before what stands
/// at place `b`: its key is smaller, or the keys are equal and it stood first.
pub open spec fn comes_before(keys: Seq<usize>, a: int, b: int) -> bool {
    keys[a] < keys[b] || (keys[a] == keys[b] && a < b)
}

/// `order` lists the places of `keys` as a stable sort by ascending key
/// leaves them: every place occurs, and each listed place has to come before
/// the places listed after it.
pub open spec fn is_stable_order(keys: Seq<usize>, order: Seq<int>) -> bool {
    &&& order.len() == keys.len()
    &&& forall|i: int| 0 <= i < order.len() ==> 0 <= #[trigger] order[i] < keys.len()
    &&& forall|x: int| 0 <= x < keys.len() ==> #[trigger] order.contains(x)
    &&& forall|i: int, j: int|
        0 <= i < j < order.len() ==> comes_before(keys, #[trigger] order[i], #[trigger] order[j])
}

/// The order in which a stable sort by ascending key lists the places of
/// `keys`.
pub open spec fn stable_order(keys: Seq<usize>) -> Seq<int> {
    choose|order: Seq<int>| is_stable_order(keys, order)
}

/// What a stable order is worth: no place is listed twice, the keys ascend
/// along the order, and places with equal keys keep their order.
pub proof fn lemma_stable_order_sorts(keys: Seq<usize>, order: Seq<int>, i: int, j: int)
    requires
        is_stable_order(keys, order),
        0 <= i < j < order.len(),
    ensures
        order[i] != order[j],
        keys[order[i]] <= keys[order[j]],
        keys[order[i]] == keys[order[j]] ==> order[i] < order[j],
{
    assert(comes_before(keys, order[i], order[j]));
}

/// Where the place of a key that is to be inserted lies in a stable order:
/// behind the keys that are not above it.
proof fn lemma_insertion_point(keys: Seq<usize>, order: Seq<int>, k: usize, from: int) -> (j: int)
    requires
        is_stable_order(keys, order),
        0 <= from <= order.len(),
        forall|t: int| 0 <= t < from ==> keys[#[trigger] order[t]] <= k,
    ensures
        from <= j <= order.len(),
        forall|t: int| 0 <= t < j ==> keys[#[trigger] order[t]] <= k,
        forall|t: int| j <= t < order.len() ==> keys[#[trigger] order[t]] > k,
    decreases order.len() - from,
{
    if from == order.len() {
        from
    } else if keys[order[from]] > k {
        assert forall|t: int| from <= t < order.len() implies keys[#[trigger] order[t]] > k by {
            if t > from {
                assert(comes_before(keys, order[from], order[t]));
            }
        }
        from
    } else {
        lemma_insertion_point(keys, order, k, from + 1)
    }
}

/// Every list of keys has a stable order.
pub proof fn lemma_stable_order_exists(keys: Seq<usize>)
    ensures
        is_stable_order(keys, stable_order(keys)),
    decreases keys.len(),
{
    if keys.len() == 0 {
        assert(is_stable_order(keys, Seq::<int>::empty()));
    } else {
        let front = keys.drop_last();
        let place = keys.len() - 1;
        lemma_stable_order_exists(front);
        let before = stable_order(front);
        let j = lemma_insertion_point(front, before, keys[place], 0);
        let order = before.insert(j, place);
        assert forall|x: int| 0 <= x < keys.len() implies #[trigger] order.contains(x) by {
            if x == place {
                assert(order[j] == x);
            } else {
                assert(before.contains(x));
                let t = choose|t: int| 0 <= t < before.len() && before[t] == x;
                if t < j {
                    assert(order[t] == x);
                } else {
                    assert(order[t + 1] == x);
                }
            }
        }
        assert forall|t: int, u: int| 0 <= t < u < order.len() implies comes_before(
            keys,
            #[trigger] order[t],
            #[trigger] order[u],
        ) by {
            if t < j && u < j {
                assert(comes_before(front, before[t], before[u]));
            } else if t < j && u == j {
                assert(keys[before[t]] == front[before[t]]);
            } else if t < j {
                assert(comes_before(front, before[t], before[u - 1]));
            } else if t == j {
                assert(keys[before[u - 1]] == front[before[u - 1]]);
            } else {
                assert(comes_before(front, before[t - 1], before[u - 1]));
            }
        }
        assert(is_stable_order(keys, order));
    }
}

/// Two stable orders of the same keys agree at every place.
proof fn lemma_stable_orders_agree(keys: Seq<usize>, p: Seq<int>, q: Seq<int>, i: int)
    requires
        is_stable_order(keys, p),
        is_stable_order(keys, q),
        0 <= i < keys.len(),
    ensures
        p[i] == q[i],
    decreases i,
{
    assert forall|k: int| 0 <= k < i implies p[k] == q[k] by {
        lemma_stable_orders_agree(keys, p, q, k);
    }
    assert(q.contains(p[i]));
    let j = choose|j: int| 0 <= j < q.len() && q[j] == p[i];
    assert(p.contains(q[i]));
    let l = choose|l: int| 0 <= l < p.len() && p[l] == q[i];
    if j < i {
        assert(comes_before(keys, p[j], p[i]));
    } else if l < i {
        assert(comes_before(keys, q[l], q[i]));
    } else if j > i && l > i {
        assert(comes_before(keys, q[i], q[j]));
        assert(comes_before(keys, p[i], p[l]));
    }
}

/// A stable sort has one outcome: an order that is stable is the stable
/// order.
pub proof fn lemma_stable_order_unique(keys: Seq<usize>, order: Seq<int>)
    requires
        is_stable_order(keys, order),
    ensures
        stable_order(keys) == order,
{
    let chosen = stable_order(keys);
    assert(is_stable_order(keys, chosen));
    assert forall|i: int| 0 <= i < keys.len() implies chosen[i] == order[i] by {
        lemma_stable_orders_agree(keys, chosen, order, i);
    }
    assert(chosen =~= order);
}

/// The first place in `keys` whose key is not below `k`.
pub(crate) fn insertion_place(keys: &Vec<usize>, k: usize) -> (r: usize)
    ensures
        r <= keys.len(),
        forall|t: int| 0 <= t < r ==> keys[t] < k,
        r < keys.len() ==> keys[r as int] >= k,
{
    let mut j: usize = 0;
    while j < keys.len() && keys[j] < k
        invariant
            j <= keys.len(),
            forall|t: int| 0 <= t < j ==> keys[t] < k,
        decreases keys.len() - j,
    {
        j += 1;
    }
    j
}

} // verus!
