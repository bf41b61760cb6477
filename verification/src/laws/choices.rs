//! What is chosen, in which order, and what the operations say about each tensor.
use vstd::prelude::*;
use crate::{arith, graph, greedy, ids, memory, models, scheduler, sorting};
use crate::models::{Op, OpId, Problem, TensorId, TensorMeta};
use crate::sorting::SortKey;

verus! {

/// A stable order puts smaller keys first, entry by entry, and equal ones in their order.
/// Every position occurs in it.
pub proof fn smaller_keys_come_first(keys: Seq<SortKey>, order: Seq<usize>, i: int, j: int, x: usize)
    requires
        sorting::is_stable_order(keys, order),
        0 <= i < j < order.len(),
        x < keys.len(),
    ensures
        ({
            let a = keys[order[i] as int];
            let b = keys[order[j] as int];
            a.0 < b.0 || (a.0 == b.0 && (a.1 < b.1 || (a.1 == b.1 && (a.2 < b.2 || (a.2 == b.2 && order[i] < order[j])))))
        }),
        order[i] != order[j],
        order.contains(x),
{
    if !order.contains(x) {
        let longer = order.push(x);
        assert(longer.no_duplicates());
        graph::lemma_distinct_below(longer, keys.len());
    }
}

/// The sizes of what is marked among the first `k` of the order, added up.
pub open spec fn marked_total(sizes: Seq<i64>, order: Seq<usize>, marks: Seq<bool>, k: nat) -> int
    decreases k,
{
    if k == 0 {
        0
    } else {
        marked_total(sizes, order, marks, (k - 1) as nat) + if marks[k - 1] { sizes[order[k - 1] as int] as int } else { 0 }
    }
}

/// What is marked among the first `k` of the order.
pub open spec fn marked_items(items: Seq<usize>, order: Seq<usize>, marks: Seq<bool>, k: nat) -> Seq<usize>
    decreases k,
{
    if k == 0 {
        Seq::empty()
    } else if marks[k - 1] {
        marked_items(items, order, marks, (k - 1) as nat).push(items[order[k - 1] as int])
    } else {
        marked_items(items, order, marks, (k - 1) as nat)
    }
}

/// Each item, by ascending key, is taken exactly if it fits beside those taken before it.
pub proof fn greedy_choices_take_what_fits(
    items: Seq<usize>,
    sizes: Seq<i64>,
    keys: Seq<SortKey>,
    budget: int,
    chosen: Seq<usize>,
)
    requires
        greedy::is_greedy_choice(items, sizes, keys, budget, chosen),
    ensures
        exists|order: Seq<usize>, marks: Seq<bool>|
            {
                &&& #[trigger] sorting::is_stable_order(keys, order)
                &&& marks.len() == order.len()
                &&& chosen == #[trigger] marked_items(items, order, marks, order.len())
                &&& forall|k: int|
                    0 <= k < order.len() ==> (#[trigger] marks[k] <==> marked_total(sizes, order, marks, k as nat)
                        + sizes[order[k] as int] <= budget)
            },
{
    let order = choose|order: Seq<usize>| #[trigger]
        sorting::is_stable_order(keys, order) && chosen == greedy::taken(items, sizes, order, budget, order.len());
    let marks = Seq::new(
        order.len(),
        |k: int| greedy::used(sizes, order, budget, k as nat) + sizes[order[k] as int] <= budget,
    );
    lemma_marked(items, sizes, order, budget, marks, order.len());
    assert forall|k: int| 0 <= k < order.len() implies (#[trigger] marks[k] <==> marked_total(
        sizes,
        order,
        marks,
        k as nat,
    ) + sizes[order[k] as int] <= budget) by {
        lemma_marked(items, sizes, order, budget, marks, k as nat);
    }
    assert(sorting::is_stable_order(keys, order));
    assert(chosen == marked_items(items, order, marks, order.len()));
}

proof fn lemma_marked(items: Seq<usize>, sizes: Seq<i64>, order: Seq<usize>, budget: int, marks: Seq<bool>, k: nat)
    requires
        k <= order.len(),
        marks == Seq::new(
            order.len(),
            |k: int| greedy::used(sizes, order, budget, k as nat) + sizes[order[k] as int] <= budget,
        ),
    ensures
        marked_total(sizes, order, marks, k) == greedy::used(sizes, order, budget, k),
        marked_items(items, order, marks, k) == greedy::taken(items, sizes, order, budget, k),
    decreases k,
{
    if k > 0 {
        lemma_marked(items, sizes, order, budget, marks, (k - 1) as nat);
        assert(marks[k - 1] == (greedy::used(sizes, order, budget, (k - 1) as nat) + sizes[order[k - 1] as int] <= budget));
    }
}

/// The consumers that are still to run are those among the consumers that remain.
pub proof fn remaining_consumers_remain(consumers: Seq<OpId>, remaining: Set<OpId>, k: nat)
    requires
        k <= consumers.len(),
    ensures
        memory::remaining_consumers(consumers, remaining, k) == consumers.take(k as int).filter(
            |op: OpId| remaining.contains(op),
        ).len(),
        memory::remaining_consumers(consumers, remaining, k) > 0 <==> exists|c: int|
            0 <= c < k && remaining.contains(#[trigger] consumers[c]),
    decreases k,
{
    let pred = |op: OpId| remaining.contains(op);
    if k == 0 {
        reveal(Seq::filter);
        assert(consumers.take(0) =~= Seq::<OpId>::empty());
    } else {
        remaining_consumers_remain(consumers, remaining, (k - 1) as nat);
        assert(consumers.take(k as int) =~= consumers.take(k - 1).push(consumers[k - 1]));
        consumers.take(k - 1).lemma_filter_push(consumers[k - 1], pred);
        if memory::remaining_consumers(consumers, remaining, k) > 0 {
            if remaining.contains(consumers[k - 1]) {
                assert(0 <= k - 1 < k && remaining.contains(consumers[k - 1]));
            } else {
                let c = choose|c: int| 0 <= c < k - 1 && remaining.contains(#[trigger] consumers[c]);
                assert(0 <= c < k && remaining.contains(consumers[c]));
            }
        }
    }
}

/// Keeping a tensor saves its size once for each consumer that remains.
pub proof fn savings_count_consumers(savings: i64, t: TensorId, p: Problem, meta: Seq<TensorMeta>, remaining: Set<OpId>)
    requires
        savings == p.tensors@[t as int].area() * memory::remaining_consumers(
            meta[t as int].consumers@,
            remaining,
            meta[t as int].consumers@.len(),
        ),
    ensures
        savings == (p.tensors@[t as int].width * p.tensors@[t as int].height) * meta[t as int].consumers@.filter(
            |op: OpId| remaining.contains(op),
        ).len(),
{
    let consumers = meta[t as int].consumers@;
    remaining_consumers_remain(consumers, remaining, consumers.len());
    assert(consumers.take(consumers.len() as int) =~= consumers);
}

proof fn lemma_used_later(listed: Seq<TensorId>, meta: Seq<TensorMeta>, remaining: Set<OpId>, k: nat)
    requires
        k <= listed.len(),
    ensures
        memory::used_later(listed, meta, remaining, k) == listed.take(k as int).filter(
            |t: TensorId|
                exists|c: int|
                    0 <= c < meta[t as int].consumers@.len() && remaining.contains(
                        #[trigger] meta[t as int].consumers@[c],
                    ),
        ),
    decreases k,
{
    let pred = |t: TensorId|
        exists|c: int|
            0 <= c < meta[t as int].consumers@.len() && remaining.contains(#[trigger] meta[t as int].consumers@[c]);
    if k == 0 {
        reveal(Seq::filter);
        assert(listed.take(0) =~= Seq::<TensorId>::empty());
        assert(listed.take(0).filter(pred) =~= Seq::<TensorId>::empty());
    } else {
        lemma_used_later(listed, meta, remaining, (k - 1) as nat);
        assert(listed.take(k as int) =~= listed.take(k - 1).push(listed[k - 1]));
        listed.take(k - 1).lemma_filter_push(listed[k - 1], pred);
        let consumers = meta[listed[k - 1] as int].consumers@;
        remaining_consumers_remain(consumers, remaining, consumers.len());
    }
}

/// What stays in fast memory are outputs that a remaining operation consumes. One of them
/// is left out only if it no longer fits beside those that stay.
pub proof fn residents_are_used_later(
    kept: Seq<TensorId>,
    outputs: Seq<TensorId>,
    p: Problem,
    meta: Seq<TensorMeta>,
    remaining: Set<OpId>,
    capacity: int,
    t: TensorId,
)
    requires
        memory::is_residency(kept, outputs, p, meta, remaining, capacity),
        outputs.no_duplicates(),
        outputs.len() <= usize::MAX,
        forall|i: int|
            0 <= i < outputs.len() ==> 0 <= p.tensors@[(#[trigger] outputs[i]) as int].area() <= i64::MAX,
    ensures
        ({
            let wanted = outputs.contains(t) && exists|c: int|
                0 <= c < meta[t as int].consumers@.len() && remaining.contains(#[trigger] meta[t as int].consumers@[c]);
            let taken = arith::sum(kept.map_values(|x: TensorId| p.tensors@[x as int].area()));
            &&& kept.no_duplicates()
            &&& kept.contains(t) ==> wanted
            &&& capacity >= 0 ==> taken <= capacity
            &&& wanted && !kept.contains(t) ==> taken + p.tensors@[t as int].area() > capacity
        }),
{
    let pred = |t: TensorId|
        exists|c: int|
            0 <= c < meta[t as int].consumers@.len() && remaining.contains(#[trigger] meta[t as int].consumers@[c]);
    let listed = memory::used_later(outputs, meta, remaining, outputs.len());
    lemma_used_later(outputs, meta, remaining, outputs.len());
    assert(outputs.take(outputs.len() as int) =~= outputs);
    assert(listed == outputs.filter(pred));
    let keys = choose|keys: Seq<SortKey>| #[trigger]
        memory::ranks_by_savings(keys, listed, p, meta, remaining) && greedy::is_greedy_choice(
            listed,
            memory::sizes_of(listed, p),
            keys,
            capacity,
            kept,
        );
    let sizes = memory::sizes_of(listed, p);
    let size_of = |x: TensorId| p.tensors@[x as int].area();
    outputs.lemma_filter_len(pred);
    lemma_filter_distinct(outputs, pred, outputs.len());
    assert forall|x: int| 0 <= x < listed.len() implies #[trigger] sizes[x] == size_of(listed[x]) && sizes[x] >= 0 by {
        outputs.lemma_filter_contains_rev(pred, listed[x]);
        assert(outputs.contains(listed[x]));
    }
    greedy::choice_is_full(listed, sizes, keys, capacity, kept, size_of);
    if capacity >= 0 {
        greedy::chosen_items_fit(listed, sizes, keys, capacity, kept, size_of);
    }
    if kept.contains(t) {
        assert(listed.contains(t));
        let i = choose|i: int| 0 <= i < listed.len() && listed[i] == t;
        outputs.lemma_filter_pred(pred, i);
        outputs.lemma_filter_contains_rev(pred, t);
    }
    if outputs.contains(t) && pred(t) {
        let i = choose|i: int| 0 <= i < outputs.len() && outputs[i] == t;
        outputs.lemma_filter_contains(pred, i);
        assert(listed.contains(t));
    }
}

proof fn lemma_filter_distinct(s: Seq<usize>, pred: spec_fn(usize) -> bool, k: nat)
    requires
        s.no_duplicates(),
        k <= s.len(),
    ensures
        s.take(k as int).filter(pred).no_duplicates(),
        s.filter(pred).len() <= s.len(),
        k == s.len() ==> s.filter(pred).no_duplicates(),
    decreases k,
{
    s.lemma_filter_len(pred);
    if k == 0 {
        reveal(Seq::filter);
        assert(s.take(0) =~= Seq::<usize>::empty());
    } else {
        lemma_filter_distinct(s, pred, (k - 1) as nat);
        let before = s.take(k - 1);
        assert(s.take(k as int) =~= before.push(s[k - 1]));
        before.lemma_filter_push(s[k - 1], pred);
        if before.filter(pred).contains(s[k - 1]) {
            before.lemma_filter_contains_rev(pred, s[k - 1]);
            let i = choose|i: int| 0 <= i < before.len() && before[i] == s[k - 1];
            assert(s[i] == s[k - 1]);
        }
    }
    if k == s.len() {
        assert(s.take(k as int) =~= s);
    }
}

/// The tensors that could stay are looked at by falling savings, the size times the
/// number of consumers that remain; then by falling number of consumers; then small first.
pub proof fn residents_are_ranked_by_savings(
    keys: Seq<SortKey>,
    order: Seq<usize>,
    listed: Seq<TensorId>,
    p: Problem,
    meta: Seq<TensorMeta>,
    remaining: Set<OpId>,
    i: int,
    j: int,
)
    requires
        memory::ranks_by_savings(keys, listed, p, meta, remaining),
        sorting::is_stable_order(keys, order),
        0 <= i < j < order.len(),
    ensures
        ({
            let a = listed[order[i] as int];
            let b = listed[order[j] as int];
            let size_a = p.tensors@[a as int].width * p.tensors@[a as int].height;
            let size_b = p.tensors@[b as int].width * p.tensors@[b as int].height;
            let uses_a = meta[a as int].consumers@.filter(|op: OpId| remaining.contains(op)).len();
            let uses_b = meta[b as int].consumers@.filter(|op: OpId| remaining.contains(op)).len();
            &&& size_a * uses_a >= size_b * uses_b
            &&& size_a * uses_a == size_b * uses_b ==> uses_a >= uses_b
            &&& size_a * uses_a == size_b * uses_b && uses_a == uses_b ==> size_a <= size_b
            &&& size_a == size_b && uses_a == uses_b ==> order[i] < order[j]
        }),
{
    let a = listed[order[i] as int];
    let b = listed[order[j] as int];
    let ca = meta[a as int].consumers@;
    let cb = meta[b as int].consumers@;
    remaining_consumers_remain(ca, remaining, ca.len());
    remaining_consumers_remain(cb, remaining, cb.len());
    assert(ca.take(ca.len() as int) =~= ca);
    assert(cb.take(cb.len() as int) =~= cb);
    smaller_keys_come_first(keys, order, i, j, order[i]);
    assert(sorting::has_key(
        keys[order[i] as int],
        -(p.tensors@[a as int].area() * memory::future_uses(a, meta, remaining) as int),
        -(memory::future_uses(a, meta, remaining) as int),
        p.tensors@[a as int].area(),
    ));
    assert(sorting::has_key(
        keys[order[j] as int],
        -(p.tensors@[b as int].area() * memory::future_uses(b, meta, remaining) as int),
        -(memory::future_uses(b, meta, remaining) as int),
        p.tensors@[b as int].area(),
    ));
}

/// An operation can run at once exactly if it remains and each of its inputs is
/// available or has no producer.
pub proof fn immediate_consumers_have_their_inputs(
    immediate: Set<OpId>,
    available: Seq<TensorId>,
    remaining: Set<OpId>,
    p: Problem,
    meta: Seq<TensorMeta>,
    op: OpId,
)
    requires
        forall|op: OpId| #[trigger]
            immediate.contains(op) <==> remaining.contains(op) && memory::inputs_available(
                p.ops@[op as int],
                meta,
                available,
            ),
    ensures
        immediate.contains(op) ==> remaining.contains(op),
        immediate.contains(op) ==> forall|i: int|
            0 <= i < p.ops@[op as int].inputs@.len() ==> available.contains(#[trigger] p.ops@[op as int].inputs@[i])
                || meta[p.ops@[op as int].inputs@[i] as int].producer is None,
        remaining.contains(op) && !immediate.contains(op) ==> exists|i: int|
            0 <= i < p.ops@[op as int].inputs@.len() && !available.contains(#[trigger] p.ops@[op as int].inputs@[i])
                && meta[p.ops@[op as int].inputs@[i] as int].producer is Some,
{
}

/// The open operations are those that are not scheduled, in ascending order.
pub proof fn open_operations_are_unscheduled(unscheduled: Set<OpId>, k: nat, op: OpId)
    requires
        k <= usize::MAX,
    ensures
        scheduler::still_open(unscheduled, k).contains(op) <==> op < k && unscheduled.contains(op),
        forall|a: int| 0 <= a < scheduler::still_open(unscheduled, k).len() ==> (#[trigger] scheduler::still_open(unscheduled, k)[a]) < k,
        forall|a: int, b: int|
            0 <= a < b < scheduler::still_open(unscheduled, k).len() ==> (#[trigger] scheduler::still_open(unscheduled, k)[a])
                < #[trigger] scheduler::still_open(unscheduled, k)[b],
    decreases k,
{
    if k > 0 {
        open_operations_are_unscheduled(unscheduled, (k - 1) as nat, op);
        ids::lemma_push_contains(scheduler::still_open(unscheduled, (k - 1) as nat), (k - 1) as usize);
    }
}

/// The ready operations are those that are not scheduled and whose inputs are all made by
/// scheduled operations or by none, in ascending order.
pub proof fn ready_operations_have_their_inputs(p: Problem, meta: Seq<TensorMeta>, unscheduled: Set<OpId>, k: nat, op: OpId)
    requires
        k <= usize::MAX,
    ensures
        scheduler::ready_ops(p, meta, unscheduled, k).contains(op) <==> op < k && unscheduled.contains(op) && (forall|j: int|
            0 <= j < p.ops@[op as int].inputs@.len() ==> {
                let made_by = meta[(#[trigger] p.ops@[op as int].inputs@[j]) as int].producer;
                made_by is None || !unscheduled.contains(made_by->0)
            }),
        forall|a: int|
            0 <= a < scheduler::ready_ops(p, meta, unscheduled, k).len() ==> (#[trigger] scheduler::ready_ops(
                p,
                meta,
                unscheduled,
                k,
            )[a]) < k,
        forall|a: int, b: int|
            0 <= a < b < scheduler::ready_ops(p, meta, unscheduled, k).len() ==> (#[trigger] scheduler::ready_ops(
                p,
                meta,
                unscheduled,
                k,
            )[a]) < #[trigger] scheduler::ready_ops(p, meta, unscheduled, k)[b],
    decreases k,
{
    if k > 0 {
        ready_operations_have_their_inputs(p, meta, unscheduled, (k - 1) as nat, op);
        ids::lemma_push_contains(scheduler::ready_ops(p, meta, unscheduled, (k - 1) as nat), (k - 1) as usize);
    }
}

/// What the operations say about a tensor. Its producer is the last operation that puts it
/// out, its consumers are those that take it in, in ascending order and as often as they
/// do. Without a producer it is an input of the graph, without consumers an output.
pub proof fn descriptions_follow_the_operations(p: Problem, meta: Seq<TensorMeta>, t: usize, op: usize)
    requires
        p.has_meta(meta),
        t < meta.len(),
        op < p.ops@.len() <= usize::MAX,
    ensures
        ({
            let m = meta[t as int];
            &&& meta.len() == p.tensors@.len()
            &&& m.producer matches Some(from) ==> from < p.ops@.len() && p.ops@[from as int].outputs@.contains(t)
            &&& p.ops@[op as int].outputs@.contains(t) ==> m.producer is Some && op <= m.producer->0
            &&& m.consumers@.contains(op) <==> p.ops@[op as int].inputs@.contains(t)
            &&& m.consumers@.filter(|x: usize| x == op).len() == p.ops@[op as int].inputs@.filter(|x: usize| x == t).len()
            &&& forall|a: int, b: int|
                0 <= a < b < m.consumers@.len() ==> #[trigger] m.consumers@[a] <= #[trigger] m.consumers@[b]
            &&& m.is_input <==> m.producer is None
            &&& m.is_output <==> m.consumers@.len() == 0
        }),
{
    let m = meta[t as int];
    assert(m.describes(p.ops@, t));
    models::meta_matches_ops(p.ops@, t, p.ops@.len(), op);
    if p.ops@[op as int].outputs@.contains(t) {
        lemma_last_producer(p.ops@, t, p.ops@.len(), op);
    }
    lemma_consumer_counts(p.ops@, t, p.ops@.len(), op);
    lemma_occurrences(m.consumers@, op);
    lemma_occurrences(p.ops@[op as int].inputs@, t);
}

proof fn lemma_last_producer(ops: Seq<Op>, t: usize, k: nat, op: usize)
    requires
        k <= ops.len() <= usize::MAX,
        op < k,
        ops[op as int].outputs@.contains(t),
    ensures
        models::producer_of(ops, t, k) is Some,
        op <= models::producer_of(ops, t, k)->0,
    decreases k,
{
    if !ops[k - 1].outputs@.contains(t) {
        lemma_last_producer(ops, t, (k - 1) as nat, op);
    }
}

/// How often an id occurs in a list.
proof fn lemma_occurrences(s: Seq<usize>, x: usize)
    ensures
        graph::occurrences(s, x) == s.filter(|y: usize| y == x).len(),
    decreases s.len(),
{
    let pred = |y: usize| y == x;
    if s.len() == 0 {
        reveal(Seq::filter);
    } else {
        lemma_occurrences(s.drop_last(), x);
        assert(s =~= s.drop_last().push(s.last()));
        s.drop_last().lemma_filter_push(s.last(), pred);
    }
}

proof fn lemma_consumer_counts(ops: Seq<Op>, t: usize, k: nat, op: usize)
    requires
        k <= ops.len() <= usize::MAX,
    ensures
        op < k ==> graph::occurrences(models::consumers_of(ops, t, k), op) == graph::occurrences(
            ops[op as int].inputs@,
            t,
        ),
        op >= k ==> graph::occurrences(models::consumers_of(ops, t, k), op) == 0,
        forall|a: int| 0 <= a < models::consumers_of(ops, t, k).len() ==> (#[trigger] models::consumers_of(ops, t, k)[a]) < k,
        forall|a: int, b: int|
            0 <= a < b < models::consumers_of(ops, t, k).len() ==> (#[trigger] models::consumers_of(ops, t, k)[a])
                <= #[trigger] models::consumers_of(ops, t, k)[b],
    decreases k,
{
    if k > 0 {
        lemma_consumer_counts(ops, t, (k - 1) as nat, op);
        let count = graph::occurrences(ops[k - 1].inputs@, t);
        let last = (k - 1) as usize;
        let before = models::consumers_of(ops, t, (k - 1) as nat);
        let more = Seq::new(count, |i: int| (k - 1) as usize);
        lemma_repeated(before, last, count, op);
        assert(models::consumers_of(ops, t, k) == before + more);
    }
}

proof fn lemma_repeated(before: Seq<usize>, last: usize, count: nat, x: usize)
    ensures
        graph::occurrences(before + Seq::new(count, |i: int| last), x) == graph::occurrences(before, x) + if x == last {
            count
        } else {
            0
        },
    decreases count,
{
    let all = before + Seq::new(count, |i: int| last);
    if count == 0 {
        assert(all =~= before);
    } else {
        lemma_repeated(before, last, (count - 1) as nat, x);
        assert(all.drop_last() =~= before + Seq::new((count - 1) as nat, |i: int| last));
        assert(all.last() == last);
    }
}

/// What is mentioned first comes first: of two ids in the list, the earlier one is
/// mentioned before the later one is mentioned at all.
pub proof fn first_mentions_stay_in_order(s: Seq<usize>, keep: spec_fn(usize) -> bool, k: nat, a: int, b: int)
    requires
        k <= s.len(),
        0 <= a < b < ids::first_mentions(s, keep, k).len(),
    ensures
        exists|x: int|
            {
                &&& 0 <= x < k
                &&& #[trigger] s[x] == ids::first_mentions(s, keep, k)[a]
                &&& forall|y: int| 0 <= y <= x ==> #[trigger] s[y] != ids::first_mentions(s, keep, k)[b]
            },
    decreases k,
{
    let rest = ids::first_mentions(s, keep, (k - 1) as nat);
    let all = ids::first_mentions(s, keep, k);
    if b < rest.len() {
        first_mentions_stay_in_order(s, keep, (k - 1) as nat, a, b);
        let x = choose|x: int|
            {
                &&& 0 <= x < k - 1
                &&& #[trigger] s[x] == rest[a]
                &&& forall|y: int| 0 <= y <= x ==> #[trigger] s[y] != rest[b]
            };
        assert(s[x] == all[a] && all[b] == rest[b]);
    } else {
        ids::lemma_first_mentions(s, keep, (k - 1) as nat);
        assert(rest.contains(rest[a]));
        let shorter = s.take(k - 1);
        assert(shorter.contains(rest[a]));
        let x = choose|x: int| 0 <= x < shorter.len() && shorter[x] == rest[a];
        assert(s[x] == all[a]);
        assert forall|y: int| 0 <= y <= x implies #[trigger] s[y] != all[b] by {
            if s[y] == all[b] {
                assert(shorter[y] == all[b]);
                assert(shorter.contains(all[b]));
                assert(rest.contains(all[b]));
            }
        }
    }
}

/// A tensor is shared exactly if two different operations take it in.
pub proof fn shared_tensors_have_two_users(p: Problem, shared: Set<TensorId>, t: TensorId, a: OpId, b: OpId)
    requires
        forall|t: usize| #[trigger] shared.contains(t) <==> t < p.tensors@.len() && p.is_shared(t),
        a < p.ops@.len(),
        b < p.ops@.len(),
    ensures
        a != b && t < p.tensors@.len() && p.ops@[a as int].inputs@.contains(t) && p.ops@[b as int].inputs@.contains(t)
            ==> shared.contains(t),
        shared.contains(t) ==> t < p.tensors@.len() && exists|x: int, y: int|
            #![trigger p.ops@[x], p.ops@[y]]
            0 <= x < p.ops@.len() && 0 <= y < p.ops@.len() && x != y && p.ops@[x].inputs@.contains(t)
                && p.ops@[y].inputs@.contains(t),
{
    if a != b && p.ops@[a as int].inputs@.contains(t) && p.ops@[b as int].inputs@.contains(t) {
        let x = if a < b { a as int } else { b as int };
        let y = if a < b { b as int } else { a as int };
        assert(p.ops@[x].inputs@.contains(t) && p.ops@[y].inputs@.contains(t));
    }
}

} // verus!
