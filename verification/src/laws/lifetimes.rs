//! When tensors are alive, which of them get fast memory, and what no result needs.
use vstd::prelude::*;
use crate::{arith, components, dataflow, graph, greedy, liveness, snake, sorting};
use crate::laws::flow;
use crate::liveness::{LivenessAnalysis, LivenessInterval, SnakePath};
use crate::models::{OpId, Problem, TensorId, TensorMeta};
use crate::sorting::SortKey;

verus! {

proof fn lemma_consumers(consumers: Seq<OpId>, n: nat, k: nat)
    requires
        k <= consumers.len(),
    ensures
        forall|c: int|
            0 <= c < k && (#[trigger] consumers[c]) < n ==> liveness::first_consumer(consumers, n, k) <= consumers[c]
                <= liveness::last_consumer(consumers, n, k),
        liveness::first_consumer(consumers, n, k) < n ==> exists|c: int|
            0 <= c < k && (#[trigger] consumers[c]) < n && consumers[c] == liveness::first_consumer(consumers, n, k),
        liveness::last_consumer(consumers, n, k) >= 0 ==> exists|c: int|
            0 <= c < k && (#[trigger] consumers[c]) < n && consumers[c] == liveness::last_consumer(consumers, n, k),
        -1 <= liveness::last_consumer(consumers, n, k) < n,
    decreases k,
{
    if k > 0 {
        lemma_consumers(consumers, n, (k - 1) as nat);
        let first = liveness::first_consumer(consumers, n, k);
        let last = liveness::last_consumer(consumers, n, k);
        if first < n {
            if first == consumers[k - 1] {
                assert(0 <= k - 1 < k && consumers[k - 1] < n);
            } else {
                let c = choose|c: int|
                    0 <= c < k - 1 && (#[trigger] consumers[c]) < n && consumers[c] == liveness::first_consumer(
                        consumers,
                        n,
                        (k - 1) as nat,
                    );
                assert(0 <= c < k && consumers[c] < n);
            }
        }
        if last >= 0 {
            if last == liveness::last_consumer(consumers, n, (k - 1) as nat) {
                let c = choose|c: int|
                    0 <= c < k - 1 && (#[trigger] consumers[c]) < n && consumers[c] == liveness::last_consumer(
                        consumers,
                        n,
                        (k - 1) as nat,
                    );
                assert(0 <= c < k && consumers[c] < n);
            } else {
                assert(0 <= k - 1 < k && consumers[k - 1] < n);
            }
        }
    }
}

/// A tensor lives from its producer, or where it has none from its first consumer, to its
/// last consumer. No consumer comes after its end, and its end is one of them if it has
/// any. Without consumers it lives at its producer, without either at the first operation.
pub proof fn tensors_live_between_producer_and_consumers(
    interval: LivenessInterval,
    p: Problem,
    meta: Seq<TensorMeta>,
    t: int,
    c: int,
)
    requires
        interval.is_of(p, meta, t),
        0 <= t < meta.len(),
        0 <= c < meta[t].consumers@.len(),
        meta[t].consumers@[c] < p.ops@.len(),
    ensures
        ({
            let m = meta[t];
            let n = p.ops@.len();
            let made = m.producer is Some && m.producer->0 < n;
            &&& made ==> interval.start == m.producer->0
            &&& !made ==> interval.start <= m.consumers@[c]
            &&& !made ==> exists|x: int| 0 <= x < m.consumers@.len() && #[trigger] m.consumers@[x] == interval.start
            &&& m.consumers@[c] <= interval.end
            &&& exists|x: int| 0 <= x < m.consumers@.len() && #[trigger] m.consumers@[x] == interval.end
            &&& interval.end < n
            &&& interval.reuse_count == m.consumers@.len()
            &&& interval.size == p.tensors@[t].width * p.tensors@[t].height
            &&& interval.producer == m.producer && interval.consumers@ == m.consumers@ && interval.tensor_id == t
        }),
{
    let m = meta[t];
    lemma_consumers(m.consumers@, p.ops@.len(), m.consumers@.len());
    assert(m.consumers@[c] < p.ops@.len());
}

/// A tensor that nothing consumes lives at its producer only, or at the first operation.
pub proof fn unused_tensors_live_where_they_are_made(interval: LivenessInterval, p: Problem, meta: Seq<TensorMeta>, t: int)
    requires
        interval.is_of(p, meta, t),
        0 <= t < meta.len(),
        meta[t].consumers@.len() == 0,
    ensures
        interval.start == interval.end,
        meta[t].producer is Some && meta[t].producer->0 < p.ops@.len() ==> interval.start == meta[t].producer->0,
        meta[t].producer is None ==> interval.start == 0,
{
}

/// What a tensor is worth: its size for each use, less a hundred for each operation that
/// it lives through, and ten thousand times its uses over its size in thousands plus one.
pub proof fn short_lives_and_many_uses_count(interval: LivenessInterval, p: Problem, meta: Seq<TensorMeta>, t: int)
    requires
        interval.is_of(p, meta, t),
        0 <= t < meta.len(),
        interval.size >= 0,
        10_000_000 * interval.reuse_count <= i64::MAX,
    ensures
        ({
            let rest = interval.sram_priority - interval.reuse_count * interval.size + 100 * (interval.end - interval.start
                + 1);
            rest * (interval.size + 1000) <= 10_000_000 * interval.reuse_count < (rest + 1) * (interval.size + 1000)
        }),
{
    let uses = interval.reuse_count as int;
    let size = interval.size as int;
    let bonus = uses * 10_000_000 / (size + 1000);
    assert(0 <= bonus <= uses * 10_000_000 && bonus * (size + 1000) <= uses * 10_000_000 < (bonus + 1) * (size + 1000))
        by (nonlinear_arith)
        requires
            bonus == uses * 10_000_000 / (size + 1000),
            size >= 0,
            uses >= 0,
    ;
}

proof fn lemma_live(p: Problem, meta: Seq<TensorMeta>, op: int, k: nat)
    requires
        k <= p.tensors@.len(),
    ensures
        ({
            let live = Seq::new(k, |t: int| t).filter(
                |t: int|
                    liveness::start_of(meta[t], p.ops@.len()) <= op <= liveness::end_of(meta[t], p.ops@.len()),
            );
            &&& liveness::live_count(p, meta, op, k) == live.len()
            &&& liveness::live_bytes(p, meta, op, k) == arith::sum(
                live.map_values(|t: int| p.tensors@[t].width * p.tensors@[t].height),
            )
        }),
    decreases k,
{
    let pred = |t: int| liveness::start_of(meta[t], p.ops@.len()) <= op <= liveness::end_of(meta[t], p.ops@.len());
    let f = |t: int| p.tensors@[t].width * p.tensors@[t].height;
    let all = Seq::new(k, |t: int| t);
    if k == 0 {
        reveal(Seq::filter);
        assert(all =~= Seq::<int>::empty());
        assert(all.filter(pred).map_values(f) =~= Seq::<int>::empty());
    } else {
        lemma_live(p, meta, op, (k - 1) as nat);
        let before = Seq::new((k - 1) as nat, |t: int| t);
        assert(all =~= before.push(k - 1));
        before.lemma_filter_push(k - 1, pred);
        let live = before.filter(pred);
        assert(live.push(k - 1).map_values(f).drop_last() =~= live.map_values(f));
        assert(live.push(k - 1).map_values(f).last() == f(k - 1));
    }
}

/// The most that is alive at once. At no operation are more tensors alive, nor more of
/// their sizes, and at some operation as many are.
pub proof fn peaks_are_reached(analysis: LivenessAnalysis, p: Problem, meta: Seq<TensorMeta>, op: int)
    requires
        analysis.is_of(p, meta),
        0 <= op < p.ops@.len(),
    ensures
        ({
            let live = Seq::new(p.tensors@.len(), |t: int| t).filter(
                |t: int| analysis.intervals@[t].start <= op <= analysis.intervals@[t].end,
            );
            &&& live.len() <= analysis.max_live_tensors
            &&& arith::sum(live.map_values(|t: int| p.tensors@[t].width * p.tensors@[t].height))
                <= analysis.max_live_bytes
        }),
        exists|at: int|
            0 <= at < p.ops@.len() && #[trigger] liveness::live_count(p, meta, at, p.tensors@.len())
                == analysis.max_live_tensors,
        analysis.max_live_bytes == 0 || exists|at: int|
            0 <= at < p.ops@.len() && #[trigger] liveness::live_bytes(p, meta, at, p.tensors@.len())
                == analysis.max_live_bytes,
{
    let n = p.tensors@.len();
    let all = Seq::new(n, |t: int| t);
    let pred = |t: int| analysis.intervals@[t].start <= op <= analysis.intervals@[t].end;
    let said = |t: int| liveness::start_of(meta[t], p.ops@.len()) <= op <= liveness::end_of(meta[t], p.ops@.len());
    lemma_live(p, meta, op, n);
    lemma_same_filter(all, pred, said);
    liveness::peaks_bound_every_operation(p, meta, p.ops@.len(), op);
    lemma_peak(p, meta, p.ops@.len());
}

proof fn lemma_same_filter(s: Seq<int>, a: spec_fn(int) -> bool, b: spec_fn(int) -> bool)
    requires
        forall|i: int| 0 <= i < s.len() ==> a(#[trigger] s[i]) == b(s[i]),
    ensures
        s.filter(a) == s.filter(b),
    decreases s.len(),
{
    if s.len() == 0 {
        reveal(Seq::filter);
    } else {
        let before = s.drop_last();
        assert forall|i: int| 0 <= i < before.len() implies a(#[trigger] before[i]) == b(before[i]) by {
            assert(before[i] == s[i]);
        }
        lemma_same_filter(before, a, b);
        assert(s =~= before.push(s.last()));
        before.lemma_filter_push(s.last(), a);
        before.lemma_filter_push(s.last(), b);
        assert(s[s.len() - 1] == s.last());
    }
}

proof fn lemma_peak(p: Problem, meta: Seq<TensorMeta>, m: nat)
    requires
        m > 0,
    ensures
        exists|at: int|
            0 <= at < m && #[trigger] liveness::live_count(p, meta, at, p.tensors@.len()) == liveness::peak_count(p, meta, m),
        liveness::peak_bytes(p, meta, m) == 0 || exists|at: int|
            0 <= at < m && #[trigger] liveness::live_bytes(p, meta, at, p.tensors@.len()) == liveness::peak_bytes(p, meta, m),
    decreases m,
{
    let n = p.tensors@.len();
    if m > 1 {
        lemma_peak(p, meta, (m - 1) as nat);
    }
    if liveness::peak_count(p, meta, m) == liveness::live_count(p, meta, m - 1, n) {
        assert(0 <= m - 1 < m);
    } else {
        let at = choose|at: int|
            0 <= at < m - 1 && #[trigger] liveness::live_count(p, meta, at, n) == liveness::peak_count(
                p,
                meta,
                (m - 1) as nat,
            );
        assert(0 <= at < m && liveness::live_count(p, meta, at, n) == liveness::peak_count(p, meta, m));
    }
    if liveness::peak_bytes(p, meta, m) == liveness::live_bytes(p, meta, m - 1, n) {
        assert(0 <= m - 1 < m);
    } else if liveness::peak_bytes(p, meta, m) != 0 {
        let at = choose|at: int|
            0 <= at < m - 1 && #[trigger] liveness::live_bytes(p, meta, at, n) == liveness::peak_bytes(
                p,
                meta,
                (m - 1) as nat,
            );
        assert(0 <= at < m && liveness::live_bytes(p, meta, at, n) == liveness::peak_bytes(p, meta, m));
    }
}

/// Small tensors with three uses or more are guaranteed fast memory, those of at most a
/// tenth of it. The order puts higher priorities first.
pub proof fn small_reused_tensors_are_guaranteed(analysis: LivenessAnalysis, p: Problem, meta: Seq<TensorMeta>, t: usize, i: int, j: int)
    requires
        analysis.is_of(p, meta),
        p.fast_memory_capacity >= 0,
        0 <= i < j < analysis.priority_order@.len(),
        t < p.tensors@.len(),
    ensures
        analysis.guaranteed_sram@.contains(t) <==> meta[t as int].consumers@.len() >= 3 && 10 * (
        p.tensors@[t as int].width * p.tensors@[t as int].height) <= p.fast_memory_capacity,
        ({
            let a = analysis.priority_order@[i];
            let b = analysis.priority_order@[j];
            &&& a < p.tensors@.len() && b < p.tensors@.len() && a != b
            &&& analysis.intervals@[a as int].sram_priority >= analysis.intervals@[b as int].sram_priority
            &&& analysis.intervals@[a as int].sram_priority == analysis.intervals@[b as int].sram_priority ==> a < b
        }),
{
    let keys = choose|keys: Seq<SortKey>| #[trigger]
        liveness::ranks_by_priority(keys, p, meta) && sorting::is_stable_order(keys, analysis.priority_order@);
    let a = analysis.priority_order@[i];
    let b = analysis.priority_order@[j];
    assert(sorting::has_key(keys[a as int], -liveness::priority_of(p, meta, a as int), 0, 0));
    assert(sorting::has_key(keys[b as int], -liveness::priority_of(p, meta, b as int), 0, 0));
    assert(analysis.intervals@[a as int].is_of(p, meta, a as int));
    assert(analysis.intervals@[b as int].is_of(p, meta, b as int));
}

proof fn lemma_reused(intervals: Seq<LivenessInterval>, order: Seq<TensorId>, k: nat)
    requires
        k <= order.len(),
    ensures
        liveness::reused(intervals, order, k) == order.take(k as int).filter(
            |t: TensorId| intervals[t as int].reuse_count > 1,
        ),
    decreases k,
{
    let pred = |t: TensorId| intervals[t as int].reuse_count > 1;
    if k == 0 {
        reveal(Seq::filter);
        assert(order.take(0) =~= Seq::<TensorId>::empty());
        assert(order.take(0).filter(pred) =~= Seq::<TensorId>::empty());
    } else {
        lemma_reused(intervals, order, (k - 1) as nat);
        assert(order.take(k as int) =~= order.take(k - 1).push(order[k - 1]));
        order.take(k - 1).lemma_filter_push(order[k - 1], pred);
    }
}

/// The tensors that get fast memory are chosen, in the given order, among those with more
/// than one use: each is taken exactly if it fits beside those taken before it.
pub proof fn reused_tensors_get_fast_memory(intervals: Seq<LivenessInterval>, order: Seq<TensorId>, capacity: int, k: nat)
    requires
        k <= order.filter(|t: TensorId| intervals[t as int].reuse_count > 1).len() <= usize::MAX,
    ensures
        ({
            let listed = order.filter(|t: TensorId| intervals[t as int].reuse_count > 1);
            let sizes = Seq::new(listed.len(), |i: int| intervals[listed[i] as int].size);
            &&& liveness::candidates(intervals, order, capacity) == taken_in_order(listed, sizes, capacity, listed.len())
            &&& room_taken(sizes, capacity, k) == 0 || room_taken(sizes, capacity, k) <= capacity || capacity < 0
        }),
{
    let listed = order.filter(|t: TensorId| intervals[t as int].reuse_count > 1);
    lemma_reused(intervals, order, order.len());
    assert(order.take(order.len() as int) =~= order);
    let sizes = Seq::new(listed.len(), |i: int| intervals[listed[i] as int].size);
    assert(liveness::interval_sizes(intervals, listed) =~= sizes);
    lemma_in_order(listed, sizes, capacity, listed.len());
    lemma_room(sizes, capacity, k);
}

/// What is used up by those of the first `k` items that are taken.
pub open spec fn room_taken(sizes: Seq<i64>, capacity: int, k: nat) -> int
    decreases k,
{
    if k == 0 {
        0
    } else if room_taken(sizes, capacity, (k - 1) as nat) + sizes[k - 1] <= capacity {
        room_taken(sizes, capacity, (k - 1) as nat) + sizes[k - 1]
    } else {
        room_taken(sizes, capacity, (k - 1) as nat)
    }
}

/// Those of the first `k` items that fit beside those taken before them.
pub open spec fn taken_in_order(listed: Seq<TensorId>, sizes: Seq<i64>, capacity: int, k: nat) -> Seq<TensorId>
    decreases k,
{
    if k == 0 {
        Seq::empty()
    } else if room_taken(sizes, capacity, (k - 1) as nat) + sizes[k - 1] <= capacity {
        taken_in_order(listed, sizes, capacity, (k - 1) as nat).push(listed[k - 1])
    } else {
        taken_in_order(listed, sizes, capacity, (k - 1) as nat)
    }
}

proof fn lemma_room(sizes: Seq<i64>, capacity: int, k: nat)
    ensures
        room_taken(sizes, capacity, k) == 0 || room_taken(sizes, capacity, k) <= capacity || capacity < 0,
    decreases k,
{
    if k > 0 {
        lemma_room(sizes, capacity, (k - 1) as nat);
    }
}

proof fn lemma_in_order(listed: Seq<TensorId>, sizes: Seq<i64>, capacity: int, k: nat)
    requires
        k <= listed.len() == sizes.len() <= usize::MAX,
    ensures
        greedy::used(sizes, greedy::in_sequence(listed.len()), capacity, k) == room_taken(sizes, capacity, k),
        greedy::taken(listed, sizes, greedy::in_sequence(listed.len()), capacity, k) == taken_in_order(
            listed,
            sizes,
            capacity,
            k,
        ),
    decreases k,
{
    if k > 0 {
        lemma_in_order(listed, sizes, capacity, (k - 1) as nat);
        assert(greedy::in_sequence(listed.len())[k - 1] == k - 1);
    }
}

/// The tensors alive at an operation are those whose lifetimes hold it, in order.
pub proof fn the_living_are_listed(intervals: Seq<LivenessInterval>, op: int, k: nat)
    requires
        k <= intervals.len(),
    ensures
        liveness::alive_at(intervals, op, k) == intervals.take(k as int).filter(
            |i: LivenessInterval| i.start <= op <= i.end,
        ).map_values(|i: LivenessInterval| i.tensor_id),
    decreases k,
{
    let pred = |i: LivenessInterval| i.start <= op <= i.end;
    let f = |i: LivenessInterval| i.tensor_id;
    if k == 0 {
        reveal(Seq::filter);
        assert(intervals.take(0) =~= Seq::<LivenessInterval>::empty());
        assert(intervals.take(0).filter(pred).map_values(f) =~= Seq::<TensorId>::empty());
    } else {
        the_living_are_listed(intervals, op, (k - 1) as nat);
        let before = intervals.take(k - 1);
        assert(intervals.take(k as int) =~= before.push(intervals[k - 1]));
        before.lemma_filter_push(intervals[k - 1], pred);
        let live = before.filter(pred);
        assert(live.push(intervals[k - 1]).map_values(f) =~= live.map_values(f).push(intervals[k - 1].tensor_id));
    }
}

/// Half of fast memory is for tensors that stay, rounded down, the rest for work, and half
/// of the rest for double buffering.
pub proof fn fast_memory_is_halved(r: liveness::SramReservation, capacity: i64)
    requires
        r.working_capacity == capacity - arith::quotient(capacity as int, 2),
        r.double_buffer_capacity == arith::quotient(r.working_capacity as int, 2),
        capacity >= 0,
    ensures
        2 * r.working_capacity == capacity + capacity % 2,
        0 <= r.working_capacity - 2 * r.double_buffer_capacity <= 1,
{
}

/// Work of a matrix product is cut in two if it is beyond four fifths of fast memory, and
/// in four if it is beyond twice that; with 98 hundredths allowed, beyond three times that.
pub proof fn work_beyond_memory_is_cut(parts: i64, capacity: int, a: int, b: int, out: int, trusted: bool)
    requires
        capacity >= 0,
        trusted ==> parts == liveness::parts_for(liveness::product_bytes(a, b, out), arith::share(capacity, 98), 3),
        !trusted ==> parts == liveness::parts_for(liveness::product_bytes(a, b, out), arith::share(capacity, 80), 2),
    ensures
        ({
            let bytes = a + b + out + out;
            let room = if trusted { 98 * capacity } else { 80 * capacity };
            &&& parts == 1 <==> 100 * bytes <= room
            &&& parts == 1 || parts == 2 || parts == 4
            &&& trusted ==> (parts == 4 <==> bytes > 3 * (98 * capacity / 100))
            &&& !trusted ==> (parts == 4 <==> bytes > 2 * (80 * capacity / 100))
        }),
{
}

/// No result needs an operation exactly if it makes none and nothing that some result needs
/// takes in what it makes.
pub proof fn results_need_their_producers(p: Problem, meta: Seq<TensorMeta>, dropped: Set<OpId>, op: OpId)
    requires
        forall|op: OpId| #[trigger]
            dropped.contains(op) <==> op < p.ops@.len() && !liveness::is_needed(p, meta, op),
        op < p.ops@.len(),
    ensures
        !dropped.contains(op) <==> (exists|t: int|
            0 <= t < meta.len() && (#[trigger] meta[t]).is_output && meta[t].producer == Some(op)) || (exists|
            by: OpId,
            j: int,
        |
            {
                &&& by < p.ops@.len()
                &&& !dropped.contains(by)
                &&& 0 <= j < p.ops@[by as int].inputs@.len()
                &&& #[trigger] p.ops@[by as int].inputs@[j] < meta.len()
                &&& meta[p.ops@[by as int].inputs@[j] as int].producer == Some(op)
            }),
{
    let g = dataflow::predecessors(p.ops@, meta);
    if liveness::makes_result(meta, op) {
        let path = seq![op];
        assert(graph::is_path(g, path));
        assert(components::joins(g, op, op, path));
        assert(components::connected(g, op, op));
        assert(liveness::is_needed(p, meta, op));
    }
    if exists|by: OpId, j: int|
        {
            &&& by < p.ops@.len()
            &&& !dropped.contains(by)
            &&& 0 <= j < p.ops@[by as int].inputs@.len()
            &&& #[trigger] p.ops@[by as int].inputs@[j] < meta.len()
            &&& meta[p.ops@[by as int].inputs@[j] as int].producer == Some(op)
        } {
        let (by, j) = choose|by: OpId, j: int|
            {
                &&& by < p.ops@.len()
                &&& !dropped.contains(by)
                &&& 0 <= j < p.ops@[by as int].inputs@.len()
                &&& #[trigger] p.ops@[by as int].inputs@[j] < meta.len()
                &&& meta[p.ops@[by as int].inputs@[j] as int].producer == Some(op)
            };
        assert(liveness::is_needed(p, meta, by));
        let last = choose|last: usize|
            last < p.ops@.len() && liveness::makes_result(meta, last) && #[trigger] components::connected(g, last, by);
        let path = choose|path: Seq<usize>| components::joins(g, last, by, path);
        flow::edges_lead_to_producers(p.ops@, meta, by, op);
        assert(p.ops@[by as int].inputs@[j] < meta.len());
        assert(graph::edge(g, by, op));
        let longer = path.push(op);
        assert(graph::is_path(g, longer)) by {
            assert forall|i: int| 0 <= i < longer.len() - 1 implies graph::edge(g, #[trigger] longer[i], longer[i + 1]) by {
                if i < path.len() - 1 {
                    assert(longer[i] == path[i] && longer[i + 1] == path[i + 1]);
                }
            }
        }
        assert(components::joins(g, last, op, longer));
        assert(components::connected(g, last, op));
        assert(liveness::is_needed(p, meta, op));
    }
    if !dropped.contains(op) && !liveness::makes_result(meta, op) {
        assert(liveness::is_needed(p, meta, op));
        let last = choose|last: usize|
            last < p.ops@.len() && liveness::makes_result(meta, last) && #[trigger] components::connected(g, last, op);
        let path = choose|path: Seq<usize>| components::joins(g, last, op, path);
        assert(path.len() > 1);
        let by = path[path.len() - 2];
        assert(graph::edge(g, path[path.len() - 2], path[path.len() - 2 + 1]));
        let shorter = path.drop_last();
        assert(graph::is_path(g, shorter)) by {
            assert forall|i: int| 0 <= i < shorter.len() - 1 implies graph::edge(g, #[trigger] shorter[i], shorter[i + 1]) by {
                assert(shorter[i] == path[i] && shorter[i + 1] == path[i + 1]);
            }
        }
        assert(components::joins(g, last, by, shorter));
        assert(components::connected(g, last, by));
        assert(liveness::is_needed(p, meta, by));
        flow::edges_lead_to_producers(p.ops@, meta, by, op);
        let j = choose|j: int|
            0 <= j < p.ops@[by as int].inputs@.len() && (#[trigger] p.ops@[by as int].inputs@[j]) < meta.len()
                && meta[p.ops@[by as int].inputs@[j] as int].producer == Some(op);
        assert(!dropped.contains(by));
        assert(p.ops@[by as int].inputs@[j] < meta.len());
    }
}

/// A walk over tiles begins each row at the column where it enters it and ends it at the
/// other side: even rows go to the right, odd rows back. Each step may hit an eighth of a
/// tile.
pub proof fn walks_turn_round(path: SnakePath, w: int, h: int, tile_w: int, tile_h: int, row: int)
    requires
        snake::is_walk(path.tile_order@, w, h),
        path.row_spans@.len() == h,
        forall|row: int|
            0 <= row < h ==> (#[trigger] path.row_spans@[row]).0 == liveness::span_of(w, row).0 && path.row_spans@[row].1
                == liveness::span_of(w, row).1,
        path.estimated_cache_hits == liveness::cache_hits(w, h, tile_w, tile_h),
        w > 0,
        0 <= row < h,
        tile_w > 0,
        tile_h > 0,
    ensures
        path.tile_order@.len() == w * h,
        0 <= row * w,
        row * w + w <= w * h,
        path.tile_order@[row * w].0 == row,
        path.tile_order@[row * w].1 == path.row_spans@[row].0,
        path.tile_order@[row * w + w - 1].0 == row,
        path.tile_order@[row * w + w - 1].1 == path.row_spans@[row].1,
        row % 2 == 0 ==> path.row_spans@[row].0 == 0 && path.row_spans@[row].1 == w - 1,
        row % 2 == 1 ==> path.row_spans@[row].0 == w - 1 && path.row_spans@[row].1 == 0,
        path.estimated_cache_hits == (tile_w * tile_h / 8) * (w * h - 1),
{
    let a = row * w;
    assert(a >= 0 && a + w <= w * h && a / w == row && a % w == 0) by (nonlinear_arith)
        requires
            a == row * w,
            0 <= row < h,
            w > 0,
    ;
    let b = a + w - 1;
    assert(b / w == row && b % w == w - 1) by (nonlinear_arith)
        requires
            b == row * w + w - 1,
            w > 0,
    ;
    assert(path.tile_order@[a].0 == snake::row_at(w, a));
    assert(path.tile_order@[b].0 == snake::row_at(w, b));
    assert(tile_h * tile_w == tile_w * tile_h && tile_h * tile_w >= 0) by (nonlinear_arith)
        requires
            tile_w > 0,
            tile_h > 0,
    ;
}

proof fn lemma_last_use(consumers: Seq<OpId>, n: nat, k: nat)
    requires
        k <= consumers.len(),
    ensures
        ({
            let last = liveness::last_consumer(consumers, n, k);
            ||| exists|i: int| 0 <= i < k && (#[trigger] consumers[i]) < n && consumers[i] == last
            ||| last < 0 && forall|i: int| 0 <= i < k ==> (#[trigger] consumers[i]) >= n
        }),
    decreases k,
{
    if k > 0 {
        lemma_last_use(consumers, n, (k - 1) as nat);
        let before = liveness::last_consumer(consumers, n, (k - 1) as nat);
        let last = liveness::last_consumer(consumers, n, k);
        if before >= 0 {
            let i = choose|i: int| 0 <= i < k - 1 && (#[trigger] consumers[i]) < n && consumers[i] == before;
            if last == before {
                assert(0 <= i < k && consumers[i] < n && consumers[i] == last);
            } else {
                assert(0 <= k - 1 < k && consumers[k - 1] < n && consumers[k - 1] == last);
            }
        } else if consumers[k - 1] < n {
            assert(0 <= k - 1 < k && consumers[k - 1] == last);
        }
    }
}

/// A tensor that is used lives until the last operation that uses it; one that is not ends
/// where it starts.
pub proof fn lives_end_with_the_last_use(m: TensorMeta, n: nat)
    ensures
        forall|i: int|
            0 <= i < m.consumers@.len() && (#[trigger] m.consumers@[i]) < n ==> m.consumers@[i] <= liveness::end_of(m, n),
        (exists|i: int| 0 <= i < m.consumers@.len() && (#[trigger] m.consumers@[i]) < n) ==> exists|i: int|
            0 <= i < m.consumers@.len() && (#[trigger] m.consumers@[i]) < n && m.consumers@[i] == liveness::end_of(m, n),
        (forall|i: int| 0 <= i < m.consumers@.len() ==> (#[trigger] m.consumers@[i]) >= n) ==> liveness::end_of(m, n)
            == liveness::start_of(m, n),
{
    lemma_last_use(m.consumers@, n, m.consumers@.len());
    assert forall|i: int| 0 <= i < m.consumers@.len() && (#[trigger] m.consumers@[i]) < n implies m.consumers@[i]
        <= liveness::end_of(m, n) by {
        liveness::alive_until_consumed(m, n, i);
    }
}

} // verus!
