//! Filling a budget greedily, in the order of sort keys.
use vstd::prelude::*;
use crate::sorting;
use crate::sorting::SortKey;

verus! {

/// What the items taken among the first `k` of the order use up: each item is taken
/// if it still fits in the budget.
pub open spec fn used(sizes: Seq<i64>, order: Seq<usize>, budget: int, k: nat) -> int
    decreases k,
{
    if k == 0 {
        0
    } else {
        let before = used(sizes, order, budget, (k - 1) as nat);
        if before + sizes[order[k - 1] as int] <= budget {
            before + sizes[order[k - 1] as int]
        } else {
            before
        }
    }
}

/// The items taken among the first `k` of the order.
pub open spec fn taken(items: Seq<usize>, sizes: Seq<i64>, order: Seq<usize>, budget: int, k: nat) -> Seq<usize>
    decreases k,
{
    if k == 0 {
        Seq::empty()
    } else {
        let before = taken(items, sizes, order, budget, (k - 1) as nat);
        if used(sizes, order, budget, (k - 1) as nat) + sizes[order[k - 1] as int] <= budget {
            before.push(items[order[k - 1] as int])
        } else {
            before
        }
    }
}

/// `chosen` is what a greedy choice by ascending key takes.
pub open spec fn is_greedy_choice(
    items: Seq<usize>,
    sizes: Seq<i64>,
    keys: Seq<SortKey>,
    budget: int,
    chosen: Seq<usize>,
) -> bool {
    exists|order: Seq<usize>| #[trigger]
        sorting::is_stable_order(keys, order) && chosen == taken(items, sizes, order, budget, order.len())
}

/// A greedy choice stays within its budget.
pub proof fn choice_stays_in_budget(sizes: Seq<i64>, order: Seq<usize>, budget: int, k: nat)
    requires
        budget >= 0,
        k <= order.len(),
    ensures
        used(sizes, order, budget, k) <= budget,
    decreases k,
{
    if k > 0 {
        choice_stays_in_budget(sizes, order, budget, (k - 1) as nat);
    }
}

/// Items that all fit together are all taken.
pub proof fn lemma_all_taken(items: Seq<usize>, sizes: Seq<i64>, order: Seq<usize>, budget: int, k: nat)
    requires
        k <= order.len(),
        forall|i: int|
            0 <= i < k ==> #[trigger] order[i] < sizes.len() && used(sizes, order, budget, i as nat)
                + sizes[order[i] as int] <= budget,
    ensures
        taken(items, sizes, order, budget, k) == Seq::new(k, |i: int| items[order[i] as int]),
    decreases k,
{
    if k > 0 {
        lemma_all_taken(items, sizes, order, budget, (k - 1) as nat);
        assert(order[k - 1] < sizes.len());
        assert(taken(items, sizes, order, budget, k) =~= Seq::new(k, |i: int| items[order[i] as int]));
    } else {
        assert(taken(items, sizes, order, budget, k) =~= Seq::new(k, |i: int| items[order[i] as int]));
    }
}

/// Takes items by ascending key as long as they fit in the budget.
pub fn choose_greedily(items: &Vec<usize>, sizes: &Vec<i64>, keys: &Vec<SortKey>, budget: i64) -> (chosen: Vec<usize>)
    requires
        items.len() == sizes.len(),
        items.len() == keys.len(),
    ensures
        is_greedy_choice(items@, sizes@, keys@, budget as int, chosen@),
{
    let order: Vec<usize> = sorting::stable_order(keys);
    let ghost q = order@;
    let mut chosen: Vec<usize> = Vec::new();
    let mut in_use: i128 = 0;
    let mut i: usize = 0;
    while i < order.len()
        invariant
            i <= order.len(),
            q == order@,
            items.len() == sizes.len(),
            items.len() == keys.len(),
            sorting::is_stable_order(keys@, q),
            in_use == used(sizes@, q, budget as int, i as nat),
            -(i * 0x8000_0000_0000_0000) <= in_use <= 0x7fff_ffff_ffff_ffff,
            chosen@ == taken(items@, sizes@, q, budget as int, i as nat),
        decreases order.len() - i,
    {
        let at: usize = order[i];
        assert(at == q[i as int]);
        assert(i * 0x8000_0000_0000_0000 <= 0xffff_ffff_ffff_ffff * 0x8000_0000_0000_0000) by (nonlinear_arith)
            requires
                i <= 0xffff_ffff_ffff_ffff,
        ;
        let size: i128 = sizes[at] as i128;
        if in_use + size <= budget as i128 {
            in_use = in_use + size;
            chosen.push(items[at]);
        }
        i = i + 1;
    }
    chosen
}

/// The positions `0..n` in order.
pub open spec fn in_sequence(n: nat) -> Seq<usize> {
    Seq::new(n, |i: int| i as usize)
}

/// Takes items one after the other as long as they fit in the budget.
pub fn take_in_sequence(items: &Vec<usize>, sizes: &Vec<i64>, budget: i64) -> (chosen: Vec<usize>)
    requires
        items.len() == sizes.len(),
    ensures
        chosen@ == taken(items@, sizes@, in_sequence(items@.len()), budget as int, items@.len()),
{
    let ghost q = in_sequence(items@.len());
    let mut chosen: Vec<usize> = Vec::new();
    let mut in_use: i128 = 0;
    let mut i: usize = 0;
    while i < items.len()
        invariant
            i <= items.len(),
            q == in_sequence(items@.len()),
            items.len() == sizes.len(),
            in_use == used(sizes@, q, budget as int, i as nat),
            -(i * 0x8000_0000_0000_0000) <= in_use <= 0x7fff_ffff_ffff_ffff,
            chosen@ == taken(items@, sizes@, q, budget as int, i as nat),
        decreases items.len() - i,
    {
        assert(q[i as int] == i);
        assert(i * 0x8000_0000_0000_0000 <= 0xffff_ffff_ffff_ffff * 0x8000_0000_0000_0000) by (nonlinear_arith)
            requires
                i <= 0xffff_ffff_ffff_ffff,
        ;
        let size: i128 = sizes[i] as i128;
        if in_use + size <= budget as i128 {
            in_use = in_use + size;
            chosen.push(items[i]);
        }
        i = i + 1;
    }
    chosen
}

/// What a greedy choice uses up is the sum of the sizes of what it takes.
pub proof fn lemma_used_is_sum(
    items: Seq<usize>,
    sizes: Seq<i64>,
    order: Seq<usize>,
    budget: int,
    k: nat,
    size_of: spec_fn(usize) -> int,
)
    requires
        k <= order.len(),
        items.len() == sizes.len(),
        forall|i: int| 0 <= i < k ==> #[trigger] order[i] < items.len(),
        forall|i: int| 0 <= i < items.len() ==> #[trigger] sizes[i] == size_of(items[i]),
    ensures
        used(sizes, order, budget, k) == crate::arith::sum(
            taken(items, sizes, order, budget, k).map_values(size_of),
        ),
    decreases k,
{
    if k > 0 {
        lemma_used_is_sum(items, sizes, order, budget, (k - 1) as nat, size_of);
        let before = taken(items, sizes, order, budget, (k - 1) as nat);
        let now = taken(items, sizes, order, budget, k);
        let at = order[k - 1];
        assert(at < items.len());
        if used(sizes, order, budget, (k - 1) as nat) + sizes[at as int] <= budget {
            assert(now.map_values(size_of).drop_last() =~= before.map_values(size_of));
            assert(now.map_values(size_of).last() == size_of(items[at as int]));
            assert(sizes[at as int] == size_of(items[at as int]));
        }
    } else {
        assert(taken(items, sizes, order, budget, k).map_values(size_of) =~= Seq::<int>::empty());
    }
}

/// The items of a greedy choice together stay within the budget.
pub proof fn chosen_items_fit(
    items: Seq<usize>,
    sizes: Seq<i64>,
    keys: Seq<SortKey>,
    budget: int,
    chosen: Seq<usize>,
    size_of: spec_fn(usize) -> int,
)
    requires
        is_greedy_choice(items, sizes, keys, budget, chosen),
        items.len() == sizes.len(),
        items.len() == keys.len(),
        budget >= 0,
        forall|i: int| 0 <= i < items.len() ==> #[trigger] sizes[i] == size_of(items[i]),
    ensures
        crate::arith::sum(chosen.map_values(size_of)) <= budget,
{
    let order = choose|order: Seq<usize>| #[trigger]
        sorting::is_stable_order(keys, order) && chosen == taken(items, sizes, order, budget, order.len());
    choice_stays_in_budget(sizes, order, budget, order.len());
    lemma_used_is_sum(items, sizes, order, budget, order.len(), size_of);
}

/// Only items are taken.
pub proof fn lemma_taken_are_items(items: Seq<usize>, sizes: Seq<i64>, order: Seq<usize>, budget: int, k: nat)
    requires
        k <= order.len(),
        forall|i: int| 0 <= i < k ==> #[trigger] order[i] < items.len(),
    ensures
        forall|j: int|
            0 <= j < taken(items, sizes, order, budget, k).len() ==> items.contains(
                #[trigger] taken(items, sizes, order, budget, k)[j],
            ),
    decreases k,
{
    if k > 0 {
        lemma_taken_are_items(items, sizes, order, budget, (k - 1) as nat);
        let before = taken(items, sizes, order, budget, (k - 1) as nat);
        let now = taken(items, sizes, order, budget, k);
        assert(order[k - 1] < items.len());
        assert forall|j: int| 0 <= j < now.len() implies items.contains(#[trigger] now[j]) by {
            if j < before.len() {
                assert(now[j] == before[j]);
            } else {
                assert(now[j] == items[order[k - 1] as int]);
            }
        }
    }
}

/// A greedy choice takes no item twice, and only leaves out what no longer fits beside it.
pub proof fn choice_is_full(
    items: Seq<usize>,
    sizes: Seq<i64>,
    keys: Seq<SortKey>,
    budget: int,
    chosen: Seq<usize>,
    size_of: spec_fn(usize) -> int,
)
    requires
        is_greedy_choice(items, sizes, keys, budget, chosen),
        items.no_duplicates(),
        items.len() == sizes.len(),
        items.len() == keys.len(),
        items.len() <= usize::MAX,
        forall|i: int| 0 <= i < items.len() ==> #[trigger] sizes[i] == size_of(items[i]),
        forall|i: int| 0 <= i < items.len() ==> #[trigger] sizes[i] >= 0,
    ensures
        chosen.no_duplicates(),
        forall|x: usize| #[trigger] chosen.contains(x) ==> items.contains(x),
        forall|x: usize|
            items.contains(x) && !#[trigger] chosen.contains(x) ==> crate::arith::sum(chosen.map_values(size_of))
                + size_of(x) > budget,
{
    let order = choose|order: Seq<usize>| #[trigger]
        sorting::is_stable_order(keys, order) && chosen == taken(items, sizes, order, budget, order.len());
    let n = order.len();
    lemma_used_is_sum(items, sizes, order, budget, n, size_of);
    lemma_taken_are_items(items, sizes, order, budget, n);
    lemma_taken_once(items, sizes, order, budget, n);
    assert forall|x: usize| items.contains(x) && !#[trigger] chosen.contains(x) implies crate::arith::sum(
        chosen.map_values(size_of),
    ) + size_of(x) > budget by {
        let at = choose|at: int| 0 <= at < items.len() && items[at] == x;
        sorting::lemma_stable_order_covers(keys, order, at as usize);
        let place = choose|place: int| 0 <= place < order.len() && order[place] == at as usize;
        lemma_left_out(items, sizes, order, budget, n, place);
        assert(sizes[at] == size_of(items[at]));
    }
}

/// What is taken is taken at distinct places of the order.
proof fn lemma_taken_once(items: Seq<usize>, sizes: Seq<i64>, order: Seq<usize>, budget: int, k: nat)
    requires
        k <= order.len(),
        items.no_duplicates(),
        order.no_duplicates(),
        forall|i: int| 0 <= i < order.len() ==> #[trigger] order[i] < items.len(),
    ensures
        taken(items, sizes, order, budget, k).no_duplicates(),
        forall|x: usize| #[trigger]
            taken(items, sizes, order, budget, k).contains(x) ==> exists|i: int|
                0 <= i < k && items[(#[trigger] order[i]) as int] == x,
    decreases k,
{
    if k > 0 {
        lemma_taken_once(items, sizes, order, budget, (k - 1) as nat);
        let before = taken(items, sizes, order, budget, (k - 1) as nat);
        let now = taken(items, sizes, order, budget, k);
        let item = items[order[k - 1] as int];
        assert(order[k - 1] < items.len());
        if before.contains(item) {
            let i = choose|i: int| 0 <= i < k - 1 && items[(#[trigger] order[i]) as int] == item;
            assert(order[i] < items.len());
            assert(order[i] != order[k - 1]);
        }
        if used(sizes, order, budget, (k - 1) as nat) + sizes[order[k - 1] as int] <= budget {
            crate::ids::lemma_push_contains(before, item);
            assert forall|a: int, b: int| 0 <= a < b < now.len() implies now[a] != now[b] by {
                if b == before.len() {
                    assert(before.contains(before[a]));
                }
            }
        }
        assert forall|x: usize| #[trigger] now.contains(x) implies exists|i: int|
            0 <= i < k && items[(#[trigger] order[i]) as int] == x by {
            if before.contains(x) {
                let i = choose|i: int| 0 <= i < k - 1 && items[(#[trigger] order[i]) as int] == x;
                assert(items[order[i] as int] == x);
            } else {
                assert(items[order[k - 1] as int] == x);
            }
        }
    }
}

/// An item that was left out does not fit beside what was taken.
proof fn lemma_left_out(items: Seq<usize>, sizes: Seq<i64>, order: Seq<usize>, budget: int, k: nat, place: int)
    requires
        0 <= place < k <= order.len(),
        items.len() == sizes.len(),
        forall|i: int| 0 <= i < order.len() ==> #[trigger] order[i] < items.len(),
        forall|i: int| 0 <= i < items.len() ==> #[trigger] sizes[i] >= 0,
        !taken(items, sizes, order, budget, k).contains(items[order[place] as int]),
    ensures
        used(sizes, order, budget, k) + sizes[order[place] as int] > budget,
    decreases k,
{
    let before = taken(items, sizes, order, budget, (k - 1) as nat);
    let now = taken(items, sizes, order, budget, k);
    assert(order[k - 1] < items.len());
    assert(sizes[order[k - 1] as int] >= 0);
    if place == k - 1 {
        if used(sizes, order, budget, (k - 1) as nat) + sizes[order[place] as int] <= budget {
            assert(now.last() == items[order[place] as int]);
        }
    } else {
        if before.contains(items[order[place] as int]) {
            let j = choose|j: int| 0 <= j < before.len() && before[j] == items[order[place] as int];
            assert(now[j] == before[j]);
        }
        lemma_left_out(items, sizes, order, budget, (k - 1) as nat, place);
    }
}

} // verus!
