//! Ranking by a count, largest first, as a stable sort orders it.

use vstd::prelude::*;

verus! {

/// Whether position `a` ranks ahead of position `b`: its key is larger, or the
/// keys are equal and it comes first (a stable sort keeps equal keys in order).
pub open spec fn ranks_before(keys: Seq<u64>, a: int, b: int) -> bool {
    keys[a] > keys[b] || (keys[a] == keys[b] && a < b)
}

/// `order` lists every position of `keys` once, largest key first, equal keys
/// in their original order.
pub open spec fn is_ranking(keys: Seq<u64>, order: Seq<usize>) -> bool {
    &&& order.len() == keys.len()
    &&& forall|k: int| 0 <= k < order.len() ==> #[trigger] order[k] < keys.len()
    &&& forall|k: int, l: int|
        0 <= k < l < order.len() ==> ranks_before(keys, #[trigger] order[k] as int, #[trigger] order[l] as int)
    &&& forall|i: int| 0 <= i < keys.len() ==> #[trigger] order.contains(i as usize)
}

/// In a ranking, keys never increase along the order, equal keys keep their
/// positions in increasing order, and no position is listed twice.
pub proof fn lemma_ranking_descends(keys: Seq<u64>, order: Seq<usize>)
    requires
        is_ranking(keys, order),
    ensures
        forall|k: int, l: int|
            0 <= k < l < order.len() ==> keys[#[trigger] order[k] as int] >= keys[#[trigger] order[l] as int],
        forall|k: int, l: int|
            0 <= k < l < order.len() && keys[order[k] as int] == keys[order[l] as int]
                ==> #[trigger] order[k] < #[trigger] order[l],
        forall|k: int, l: int| 0 <= k < l < order.len() ==> #[trigger] order[k] != #[trigger] order[l],
{
    assert forall|k: int, l: int| 0 <= k < l < order.len() implies keys[#[trigger] order[k] as int]
        >= keys[#[trigger] order[l] as int] by {
        assert(ranks_before(keys, order[k] as int, order[l] as int));
    }
    assert forall|k: int, l: int|
        0 <= k < l < order.len() && keys[order[k] as int] == keys[order[l] as int] implies #[trigger] order[k]
        < #[trigger] order[l] by {
        assert(ranks_before(keys, order[k] as int, order[l] as int));
    }
    assert forall|k: int, l: int| 0 <= k < l < order.len() implies #[trigger] order[k] != #[trigger] order[l] by {
        assert(ranks_before(keys, order[k] as int, order[l] as int));
    }
}

/// The positions of `keys` ordered by descending key, ties by position: the
/// order that a stable sort by descending key gives.
pub fn rank_desc(keys: &Vec<u64>) -> (order: Vec<usize>)
    ensures
        is_ranking(keys@, order@),
        order@.len() == keys@.len(),
        forall|k: int, l: int|
            0 <= k < l < order@.len() ==> keys@[#[trigger] order@[k] as int] > keys@[#[trigger] order@[l] as int]
                || (keys@[order@[k] as int] == keys@[order@[l] as int] && order@[k] < order@[l]),
        forall|i: int| 0 <= i < keys@.len() ==> #[trigger] order@.contains(i as usize),
{
    let n: usize = keys.len();
    let mut order: Vec<usize> = Vec::new();
    let mut i: usize = 0;
    while i < n
        invariant
            n == keys.len(),
            i <= n,
            order.len() == i,
            forall|k: int| 0 <= k < order.len() ==> #[trigger] order@[k] < i,
            forall|k: int, l: int|
                0 <= k < l < order.len() ==> ranks_before(
                    keys@,
                    #[trigger] order@[k] as int,
                    #[trigger] order@[l] as int,
                ),
            forall|x: int| 0 <= x < i ==> #[trigger] order@.contains(x as usize),
        decreases n - i,
    {
        // Skip the entries that rank ahead of `i`: those with a key at least
        // as large, since they all come before `i`.
        let mut p: usize = 0;
        while p < order.len() && keys[order[p]] >= keys[i]
            invariant
                n == keys.len(),
                i < n,
                order.len() == i,
                p <= order.len(),
                forall|k: int| 0 <= k < order.len() ==> #[trigger] order@[k] < i,
                forall|k: int| 0 <= k < p ==> keys@[#[trigger] order@[k] as int] >= keys@[i as int],
            decreases order.len() - p,
        {
            p = p + 1;
        }
        proof {
            assert forall|k: int| p <= k < order.len() implies keys@[#[trigger] order@[k] as int]
                < keys@[i as int] by {
                if k > p {
                    assert(ranks_before(keys@, order@[p as int] as int, order@[k] as int));
                }
            }
        }
        let ghost old_order = order@;
        order.insert(p, i);
        proof {
            assert(order@ == old_order.insert(p as int, i));
            assert forall|k: int| 0 <= k < order.len() implies #[trigger] order@[k] < i + 1 by {
                if k < p {
                    assert(order@[k] == old_order[k]);
                } else if k > p {
                    assert(order@[k] == old_order[k - 1]);
                }
            }
            assert forall|k: int, l: int|
                0 <= k < l < order.len() implies ranks_before(
                keys@,
                #[trigger] order@[k] as int,
                #[trigger] order@[l] as int,
            ) by {
                if k < p {
                    assert(order@[k] == old_order[k]);
                    if l < p {
                        assert(order@[l] == old_order[l]);
                    } else if l > p {
                        assert(order@[l] == old_order[l - 1]);
                        assert(ranks_before(keys@, old_order[k] as int, old_order[l - 1] as int));
                    }
                } else if k == p {
                    assert(order@[l] == old_order[l - 1]);
                } else {
                    assert(order@[k] == old_order[k - 1]);
                    assert(order@[l] == old_order[l - 1]);
                    assert(ranks_before(keys@, old_order[k - 1] as int, old_order[l - 1] as int));
                }
            }
            assert forall|x: int| 0 <= x < i + 1 implies #[trigger] order@.contains(x as usize) by {
                if x == i {
                    assert(order@[p as int] == i);
                } else {
                    assert(old_order.contains(x as usize));
                    let k = choose|k: int| 0 <= k < old_order.len() && old_order[k] == x as usize;
                    if k < p {
                        assert(order@[k] == old_order[k]);
                    } else {
                        assert(order@[k + 1] == old_order[k]);
                    }
                }
            }
        }
        i = i + 1;
    }
    order
}

} // verus!
