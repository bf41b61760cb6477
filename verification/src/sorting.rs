//! Stable orderings by up to three integer keys, and small sorted collections.
use vstd::prelude::*;

verus! {

/// A sort key: compared entry by entry, smaller first.
pub type SortKey = (i128, i128, i128);

/// The key consists of these numbers.
pub open spec fn has_key(key: SortKey, a: int, b: int, c: int) -> bool {
    key.0 == a && key.1 == b && key.2 == c
}

/// `a` comes before `b` by its key, or keeps its place before `b` on equal keys.
pub open spec fn comes_before(keys: Seq<SortKey>, a: usize, b: usize) -> bool {
    let x = keys[a as int];
    let y = keys[b as int];
    if x.0 != y.0 {
        x.0 < y.0
    } else if x.1 != y.1 {
        x.1 < y.1
    } else if x.2 != y.2 {
        x.2 < y.2
    } else {
        a < b
    }
}

/// `order` lists the positions of `keys`, each once, by ascending key; equal keys keep their order.
pub open spec fn is_stable_order(keys: Seq<SortKey>, order: Seq<usize>) -> bool {
    &&& order.len() == keys.len()
    &&& order.no_duplicates()
    &&& forall|i: int| 0 <= i < order.len() ==> #[trigger] order[i] < keys.len()
    &&& forall|i: int, j: int| 0 <= i < j < order.len() ==> comes_before(keys, #[trigger] order[i], #[trigger] order[j])
}

/// Every position is listed in a stable order.
pub proof fn lemma_stable_order_covers(keys: Seq<SortKey>, order: Seq<usize>, v: usize)
    requires
        is_stable_order(keys, order),
        v < keys.len(),
    ensures
        order.contains(v),
{
    if !order.contains(v) {
        let all = order.push(v);
        assert(all.no_duplicates());
        assert forall|i: int| 0 <= i < all.len() implies #[trigger] all[i] < keys.len() by {
            if i < order.len() {
                assert(all[i] == order[i]);
            }
        }
        crate::graph::lemma_distinct_below(all, keys.len());
    }
}

/// There is only one stable order of given keys.
pub proof fn stable_order_is_unique(keys: Seq<SortKey>, one: Seq<usize>, two: Seq<usize>)
    requires
        is_stable_order(keys, one),
        is_stable_order(keys, two),
    ensures
        one == two,
{
    if one != two {
        if forall|k: int| 0 <= k < one.len() ==> one[k] == two[k] {
            assert(one =~= two);
        }
        let k = choose|k: int| 0 <= k < one.len() && one[k] != two[k];
        let k = lemma_first_difference(one, two, k);
        lemma_stable_order_covers(keys, two, one[k]);
        lemma_stable_order_covers(keys, one, two[k]);
        let i = choose|i: int| 0 <= i < two.len() && two[i] == one[k];
        let j = choose|j: int| 0 <= j < one.len() && one[j] == two[k];
        if i < k {
            assert(one[i] == two[i]);
        }
        if j < k {
            assert(one[j] == two[j]);
        }
        assert(comes_before(keys, one[k], one[j]));
        assert(comes_before(keys, two[k], two[i]));
    }
}

/// The first place at which two sequences differ.
proof fn lemma_first_difference(one: Seq<usize>, two: Seq<usize>, k: int) -> (first: int)
    requires
        one.len() == two.len(),
        0 <= k < one.len(),
        one[k] != two[k],
    ensures
        0 <= first < one.len(),
        one[first] != two[first],
        forall|i: int| 0 <= i < first ==> one[i] == two[i],
    decreases k,
{
    if exists|i: int| 0 <= i < k && one[i] != two[i] {
        let i = choose|i: int| 0 <= i < k && one[i] != two[i];
        lemma_first_difference(one, two, i)
    } else {
        k
    }
}

fn key_comes_before(keys: &Vec<SortKey>, a: usize, b: usize) -> (yes: bool)
    requires
        a < keys.len(),
        b < keys.len(),
    ensures
        yes == comes_before(keys@, a, b),
{
    let x: SortKey = keys[a];
    let y: SortKey = keys[b];
    if x.0 != y.0 {
        x.0 < y.0
    } else if x.1 != y.1 {
        x.1 < y.1
    } else if x.2 != y.2 {
        x.2 < y.2
    } else {
        a < b
    }
}

/// The positions of `keys` by ascending key; equal keys keep their order.
pub fn stable_order(keys: &Vec<SortKey>) -> (order: Vec<usize>)
    ensures
        is_stable_order(keys@, order@),
{
    let n: usize = keys.len();
    let mut order: Vec<usize> = Vec::new();
    let mut x: usize = 0;
    while x < n
        invariant
            x <= n,
            n == keys.len(),
            order.len() == x,
            order@.no_duplicates(),
            forall|i: int| 0 <= i < order.len() ==> #[trigger] order@[i] < x,
            forall|i: int, j: int|
                0 <= i < j < order.len() ==> comes_before(keys@, #[trigger] order@[i], #[trigger] order@[j]),
        decreases n - x,
    {
        let mut at: usize = x;
        while at > 0 && key_comes_before(keys, x, order[at - 1])
            invariant
                at <= x,
                x < n,
                n == keys.len(),
                order.len() == x,
                forall|i: int| 0 <= i < order.len() ==> #[trigger] order@[i] < x,
                forall|j: int| at <= j < x ==> comes_before(keys@, x, #[trigger] order@[j]),
            decreases at,
        {
            at = at - 1;
        }
        let ghost before = order@;
        proof {
            // What stays in front of the gap comes before `x`.
            if at > 0 {
                assert(comes_before(keys@, before[at - 1], x));
                assert forall|i: int| 0 <= i < at implies comes_before(keys@, #[trigger] before[i], x) by {
                    if i < at - 1 {
                        assert(comes_before(keys@, before[i], before[at - 1]));
                    }
                }
            }
        }
        order.insert(at, x);
        proof {
            assert forall|i: int| 0 <= i < order@.len() implies #[trigger] order@[i] < x + 1 by {
                if i < at {
                    assert(order@[i] == before[i]);
                } else if i > at {
                    assert(order@[i] == before[i - 1]);
                }
            }
            assert forall|i: int, j: int| 0 <= i < j < order@.len() implies comes_before(
                keys@,
                #[trigger] order@[i],
                #[trigger] order@[j],
            ) && order@[i] != order@[j] by {
                let a = if i < at { i } else { i - 1 };
                let b = if j < at { j } else { j - 1 };
                if i != at {
                    assert(order@[i] == before[a]);
                }
                if j != at {
                    assert(order@[j] == before[b]);
                }
            }
        }
        x = x + 1;
    }
    order
}

/// `a` is smaller than `b`, first entry first.
pub open spec fn pair_less(a: (i64, i64), b: (i64, i64)) -> bool {
    a.0 < b.0 || (a.0 == b.0 && a.1 < b.1)
}

/// The entries grow from each to the next.
pub open spec fn pairs_ascending(s: Seq<(i64, i64)>) -> bool {
    forall|i: int, j: int| 0 <= i < j < s.len() ==> pair_less(#[trigger] s[i], #[trigger] s[j])
}

/// Adds a pair to an ascending list, unless it is there already.
pub fn insert_pair(list: &mut Vec<(i64, i64)>, pair: (i64, i64))
    requires
        pairs_ascending(old(list)@),
    ensures
        pairs_ascending(final(list)@),
        forall|p: (i64, i64)| #[trigger] final(list)@.contains(p) <==> old(list)@.contains(p) || p == pair,
{
    let ghost before = list@;
    let mut at: usize = list.len();
    while at > 0 && (pair.0 < list[at - 1].0 || (pair.0 == list[at - 1].0 && pair.1 <= list[at - 1].1))
        invariant
            at <= list.len(),
            list@ == before,
            pairs_ascending(before),
            forall|j: int| at <= j < before.len() ==> pair_less(pair, #[trigger] before[j]) || pair == before[j],
        decreases at,
    {
        at = at - 1;
    }
    if at < list.len() && list[at].0 == pair.0 && list[at].1 == pair.1 {
        assert(before[at as int] == pair);
        assert(before.contains(pair));
        return;
    }
    proof {
        if at < before.len() {
            assert(pair_less(pair, before[at as int]));
        }
        assert forall|j: int| at <= j < before.len() implies pair_less(pair, #[trigger] before[j]) by {
            if j > at {
                assert(pair_less(before[at as int], before[j]));
            }
        }
        assert forall|i: int| 0 <= i < at implies pair_less(#[trigger] before[i], pair) by {
            if i < at - 1 {
                assert(pair_less(before[i], before[at - 1]));
            }
        }
    }
    list.insert(at, pair);
    proof {
        assert forall|i: int, j: int| 0 <= i < j < list@.len() implies pair_less(
            #[trigger] list@[i],
            #[trigger] list@[j],
        ) by {
            let a = if i < at { i } else { i - 1 };
            let b = if j < at { j } else { j - 1 };
            if i != at {
                assert(list@[i] == before[a]);
            }
            if j != at {
                assert(list@[j] == before[b]);
            }
        }
        assert forall|p: (i64, i64)| #[trigger] list@.contains(p) <==> before.contains(p) || p == pair by {
            if list@.contains(p) {
                let i = choose|i: int| 0 <= i < list@.len() && list@[i] == p;
                if i < at {
                    assert(before[i] == p);
                } else if i > at {
                    assert(before[i - 1] == p);
                }
            }
            if before.contains(p) {
                let i = choose|i: int| 0 <= i < before.len() && before[i] == p;
                if i < at {
                    assert(list@[i] == p);
                } else {
                    assert(list@[i + 1] == p);
                }
            }
            assert(list@[at as int] == pair);
        }
    }
}

/// Position `i` is the first that holds the least score.
pub open spec fn is_first_least(scores: Seq<i64>, i: int) -> bool {
    &&& 0 <= i < scores.len()
    &&& forall|j: int| 0 <= j < scores.len() ==> scores[i] <= #[trigger] scores[j]
    &&& forall|j: int| 0 <= j < i ==> scores[i] < #[trigger] scores[j]
}

/// Finds the first position that holds the least score.
pub fn find_first_least(scores: &[i64]) -> (best: Option<usize>)
    ensures
        match best {
            Some(i) => is_first_least(scores@, i as int),
            None => scores@.len() == 0,
        },
{
    if scores.len() == 0 {
        return None;
    }
    let mut best: usize = 0;
    let mut i: usize = 1;
    while i < scores.len()
        invariant
            best < i <= scores@.len(),
            forall|j: int| 0 <= j < i ==> scores@[best as int] <= #[trigger] scores@[j],
            forall|j: int| 0 <= j < best ==> scores@[best as int] < #[trigger] scores@[j],
        decreases scores@.len() - i,
    {
        if scores[i] < scores[best] {
            best = i;
        }
        i = i + 1;
    }
    Some(best)
}

} // verus!
