//! Lifetimes in the run order, and which tensors can share memory.
use vstd::prelude::*;
use crate::{arith, bitset_liveness, buffer_sharing, dataflow, ids, sorting};
use crate::bitset_liveness::BitvecLiveness;
use crate::buffer_sharing::BufferSharingInfo;
use crate::models::{OpId, Tensor, TensorId, TensorMeta};
use crate::rewrite_graph::GraphModel;
use crate::sorting::SortKey;

verus! {

proof fn lemma_place(order: Seq<OpId>, i: int)
    requires
        order.no_duplicates(),
        0 <= i < order.len(),
    ensures
        bitset_liveness::place_in(order, order[i]) == i,
{
    assert(order.contains(order[i]));
    assert(order[order.index_of(order[i])] == order[i]);
}

proof fn lemma_latest(order: Seq<OpId>, consumers: Seq<OpId>, n: nat, k: nat)
    requires
        k <= consumers.len(),
    ensures
        ({
            let latest = bitset_liveness::latest_place(order, consumers, n, k);
            &&& latest is None <==> forall|c: int| 0 <= c < k ==> (#[trigger] consumers[c]) >= n
            &&& latest is Some ==> forall|c: int|
                0 <= c < k && (#[trigger] consumers[c]) < n ==> bitset_liveness::place_in(order, consumers[c]) <= latest->0
            &&& latest is Some ==> exists|c: int|
                0 <= c < k && (#[trigger] consumers[c]) < n && bitset_liveness::place_in(order, consumers[c]) == latest->0
        }),
    decreases k,
{
    if k > 0 {
        lemma_latest(order, consumers, n, (k - 1) as nat);
        let before = bitset_liveness::latest_place(order, consumers, n, (k - 1) as nat);
        let latest = bitset_liveness::latest_place(order, consumers, n, k);
        if before is None && consumers[k - 1] >= n {
            assert forall|c: int| 0 <= c < k implies (#[trigger] consumers[c]) >= n by {
                if c < k - 1 {
                    assert(consumers[c] >= n);
                }
            }
        }
        if latest is Some {
            if consumers[k - 1] < n && latest->0 == bitset_liveness::place_in(order, consumers[k - 1]) {
                assert(0 <= k - 1 < k && consumers[k - 1] < n);
            } else {
                let c = choose|c: int|
                    0 <= c < k - 1 && (#[trigger] consumers[c]) < n && bitset_liveness::place_in(order, consumers[c])
                        == before->0;
                assert(0 <= c < k && consumers[c] < n);
            }
        }
    }
}

/// A tensor is live from the place of its producer, or from the start, to the place of its
/// last consumer: at every place between the two, and nowhere after all of its consumers.
pub proof fn tensors_are_live_until_consumed(span: Set<usize>, m: TensorMeta, order: Seq<OpId>, n: nat, made: int, c: int, used: int, place: usize)
    requires
        span == bitset_liveness::lifespan(m, order, n),
        order.no_duplicates(),
        order.len() <= n <= usize::MAX,
        place < n,
        0 <= c < m.consumers@.len(),
        0 <= used < order.len(),
        m.consumers@[c] == order[used],
        order[used] < n,
        match m.producer {
            Some(op) => op < n && 0 <= made < order.len() && order[made] == op,
            None => made == 0,
        },
    ensures
        made <= place <= used ==> span.contains(place),
        place < made ==> !span.contains(place),
        (forall|x: int, at: int|
            #![trigger m.consumers@[x], order[at]]
            0 <= x < m.consumers@.len() && 0 <= at < order.len() && m.consumers@[x] == order[at] ==> at < place) && (forall|
            x: int,
        | 0 <= x < m.consumers@.len() ==> order.contains(#[trigger] m.consumers@[x])) ==> !span.contains(place),
        span.contains(place) ==> made <= place,
{
    lemma_place(order, used);
    if m.producer is Some {
        lemma_place(order, made);
    }
    lemma_latest(order, m.consumers@, n, m.consumers@.len());
    let latest = bitset_liveness::latest_place(order, m.consumers@, n, m.consumers@.len());
    assert(m.consumers@[c] < n);
    assert(latest is Some);
    if (forall|x: int, at: int|
        #![trigger m.consumers@[x], order[at]]
        0 <= x < m.consumers@.len() && 0 <= at < order.len() && m.consumers@[x] == order[at] ==> at < place) && (forall|x: int|
        0 <= x < m.consumers@.len() ==> order.contains(#[trigger] m.consumers@[x])) {
        let x = choose|x: int|
            0 <= x < m.consumers@.len() && (#[trigger] m.consumers@[x]) < n && bitset_liveness::place_in(
                order,
                m.consumers@[x],
            ) == latest->0;
        assert(order.contains(m.consumers@[x]));
        let at = choose|at: int| 0 <= at < order.len() && order[at] == m.consumers@[x];
        lemma_place(order, at);
        assert(m.consumers@[x] == order[at]);
    }
}

/// The tensors live at a place, in ascending order: those that are, and no others.
pub proof fn live_tensors_are_listed(l: &BitvecLiveness, place: usize, m: nat, t: usize)
    requires
        m <= usize::MAX,
    ensures
        bitset_liveness::live_list(l, place, m).contains(t) <==> t < m && t < l.tensor_total() && place < l.op_total()
            && l.span(t).contains(place),
        forall|a: int|
            0 <= a < bitset_liveness::live_list(l, place, m).len() ==> (#[trigger] bitset_liveness::live_list(l, place, m)[a])
                < m,
        forall|a: int, b: int|
            0 <= a < b < bitset_liveness::live_list(l, place, m).len() ==> (#[trigger] bitset_liveness::live_list(
                l,
                place,
                m,
            )[a]) < #[trigger] bitset_liveness::live_list(l, place, m)[b],
    decreases m,
{
    if m > 0 {
        live_tensors_are_listed(l, place, (m - 1) as nat, t);
        ids::lemma_push_contains(bitset_liveness::live_list(l, place, (m - 1) as nat), (m - 1) as usize);
    }
}

proof fn lemma_below(s: Seq<usize>, n: nat, k: nat)
    requires
        k <= s.len(),
    ensures
        dataflow::below(s, n, k) == s.take(k as int).filter(|x: usize| x < n),
    decreases k,
{
    let pred = |x: usize| x < n;
    if k == 0 {
        reveal(Seq::filter);
        assert(s.take(0) =~= Seq::<usize>::empty());
        assert(s.take(0).filter(pred) =~= Seq::<usize>::empty());
    } else {
        lemma_below(s, n, (k - 1) as nat);
        assert(s.take(k as int) =~= s.take(k - 1).push(s[k - 1]));
        s.take(k - 1).lemma_filter_push(s[k - 1], pred);
    }
}

/// The memory live at a place is the size of the known tensors that are live there; nothing
/// is live beyond the last place.
pub proof fn live_memory_adds_up(l: &BitvecLiveness, place: usize, tensors: Seq<Tensor>)
    ensures
        place < l.op_total() ==> bitset_liveness::live_bytes(l, place, tensors) == arith::sum(
            bitset_liveness::live_list(l, place, l.tensor_total()).filter(|t: usize| t < tensors.len()).map_values(
                |t: usize| tensors[t as int].width * tensors[t as int].height,
            ),
        ),
        place >= l.op_total() ==> bitset_liveness::live_bytes(l, place, tensors) == 0,
{
    let listed = bitset_liveness::live_list(l, place, l.tensor_total());
    lemma_below(listed, tensors.len(), listed.len());
    assert(listed.take(listed.len() as int) =~= listed);
    let known = listed.filter(|t: usize| t < tensors.len());
    assert(bitset_liveness::live_sizes(l, place, tensors) =~= known.map_values(
        |t: usize| tensors[t as int].width * tensors[t as int].height,
    ));
}

/// Tensors meet exactly if some place is in both lifetimes.
pub proof fn tensors_meet_at_a_place(l: &BitvecLiveness, a: TensorId, b: TensorId)
    ensures
        l.meet(a, b) <==> a < l.tensor_total() && b < l.tensor_total() && exists|place: usize| #[trigger]
            l.span(a).contains(place) && l.span(b).contains(place),
{
    if !l.span(a).disjoint(l.span(b)) {
        let place = choose|place: usize| l.span(a).contains(place) && l.span(b).contains(place);
        assert(l.span(a).contains(place) && l.span(b).contains(place));
    }
}

/// Tensors in one slot are never live at the same position. A slot is as large as its
/// largest tensor: none in it is larger, and one is as large.
pub proof fn slots_hold_one_live_tensor(info: BufferSharingInfo, s: GraphModel, a: TensorId, b: TensorId, at: int)
    requires
        info.is_of(s),
        a != b,
        info.slot_assignments@.contains_key(a),
        info.slot_assignments@.contains_key(b),
    ensures
        info.slot_assignments@[a] == info.slot_assignments@[b] ==> !(info.liveness_intervals@[a].0 <= at
            <= info.liveness_intervals@[a].1 && info.liveness_intervals@[b].0 <= at <= info.liveness_intervals@[b].1),
        info.slot_assignments@[a] < info.slot_sizes@.len(),
        s.tensors[a as int].width * s.tensors[a as int].height <= info.slot_sizes@[info.slot_assignments@[a] as int],
        exists|x: TensorId| #[trigger]
            info.slot_assignments@.contains_key(x) && info.slot_assignments@[x] == info.slot_assignments@[a]
                && s.tensors[x as int].width * s.tensors[x as int].height
                == info.slot_sizes@[info.slot_assignments@[a] as int],
{
    let (order, placed, slots) = choose|order: Seq<OpId>, placed: Seq<TensorId>, slots: Seq<usize>|
        s.is_run(order) && #[trigger] info.has_lifetimes(s, order) && #[trigger] info.has_slots(s.tensors, placed, slots);
    if info.slot_assignments@[a] == info.slot_assignments@[b] {
        buffer_sharing::shared_slots_are_safe(info, s, a, b);
    }
    assert(placed.contains(a));
    let k = choose|k: int| 0 <= k < placed.len() && placed[k] == a;
    assert(info.slot_assignments@[placed[k]] == slots[k]);
    let j = slots[k];
    assert(j < info.slot_sizes@.len());
    assert(buffer_sharing::is_slot_size(
        placed,
        slots,
        s.tensors,
        placed.len() as int,
        j,
        info.slot_sizes@[j as int] as int,
    ));
    assert(slots[k] == j);
    let i = choose|i: int|
        0 <= i < placed.len() && #[trigger] slots[i] == j && s.tensors[placed[i] as int].area() == info.slot_sizes@[j as int];
    assert(placed.contains(placed[i]));
    assert(info.slot_assignments@.contains_key(placed[i]));
    assert(info.slot_assignments@[placed[i]] == slots[i]);
}

/// A tensor has a lifetime exactly if some operation of the run takes it in or puts it
/// out. It begins at the first that does, and none after its end takes it in.
pub proof fn lifetimes_span_all_mentions(info: BufferSharingInfo, s: GraphModel, order: Seq<OpId>, t: TensorId, i: int)
    requires
        info.has_lifetimes(s, order),
        0 <= i < order.len(),
    ensures
        ({
            let first = info.liveness_intervals@[t].0 as int;
            let last = info.liveness_intervals@[t].1 as int;
            let known = info.liveness_intervals@.contains_key(t);
            &&& s.takes_in(order[i], t) || s.puts_out(order[i], t) ==> known && first <= i
            &&& s.takes_in(order[i], t) ==> i <= last
            &&& known && s.consumers.contains_key(t) && s.consumers[t].contains(order[i]) ==> i <= last
            &&& known ==> 0 <= first <= last < order.len() && (s.takes_in(order[first], t) || s.puts_out(order[first], t))
            &&& known && first < last ==> s.takes_in(order[last], t) || (s.consumers.contains_key(t)
                && s.consumers[t].contains(order[last]))
        }),
{
    let first = info.liveness_intervals@[t].0 as int;
    let last = info.liveness_intervals@[t].1 as int;
    if s.takes_in(order[i], t) || s.puts_out(order[i], t) {
        assert(s.mentions(order[i], t));
        assert(s.is_mentioned(order, t));
        assert(info.liveness_intervals@.contains_key(t));
    }
    if info.liveness_intervals@.contains_key(t) {
        assert(s.is_lifetime(order, t, first, last));
        if i < first {
            assert(!s.mentions(order[i], t));
        }
        if last < i {
            assert(!s.uses(order[i], t));
        }
    }
}

/// A tensor is in the first slot that is free for it: in every lower slot there is a
/// tensor whose lifetime begins no later and meets its own.
pub proof fn lower_slots_are_taken(info: BufferSharingInfo, s: GraphModel, t: TensorId, lower: usize)
    requires
        info.is_of(s),
        info.slot_assignments@.contains_key(t),
        lower < info.slot_assignments@[t],
    ensures
        exists|x: TensorId|
            {
                &&& #[trigger] info.slot_assignments@.contains_key(x)
                &&& info.slot_assignments@[x] == lower
                &&& info.liveness_intervals@[x].0 <= info.liveness_intervals@[t].0 <= info.liveness_intervals@[x].1
            },
{
    let (order, placed, slots) = choose|order: Seq<OpId>, placed: Seq<TensorId>, slots: Seq<usize>|
        s.is_run(order) && #[trigger] info.has_lifetimes(s, order) && #[trigger] info.has_slots(s.tensors, placed, slots);
    let lifetimes = info.liveness_intervals@;
    assert(placed.contains(t));
    let k = choose|k: int| 0 <= k < placed.len() && placed[k] == t;
    assert(info.slot_assignments@[placed[k]] == slots[k]);
    assert(buffer_sharing::has_first_fit(placed, slots, lifetimes, k));
    assert(buffer_sharing::blocks(placed, slots, lifetimes, k, lower));
    let i = choose|i: int|
        0 <= i < k && #[trigger] slots[i] == lower && !buffer_sharing::apart(lifetimes[placed[i]], lifetimes[placed[k]]);
    let x = placed[i];
    assert(placed.contains(x));
    assert(info.slot_assignments@[placed[i]] == slots[i]);
    let listed = buffer_sharing::tensors_alive(lifetimes, s.tensors.len());
    let (keys, sorted) = choose|keys: Seq<SortKey>, sorted: Seq<usize>|
        #![trigger buffer_sharing::ranks_by_start(keys, listed, lifetimes, s.tensors), sorting::is_stable_order(keys, sorted)]
        buffer_sharing::ranks_by_start(keys, listed, lifetimes, s.tensors) && sorting::is_stable_order(keys, sorted)
            && placed == Seq::new(sorted.len(), |i: int| listed[sorted[i] as int]);
    assert(sorting::comes_before(keys, sorted[i], sorted[k]));
    assert(sorting::has_key(
        keys[sorted[i] as int],
        lifetimes[listed[sorted[i] as int]].0 as int,
        -s.tensors[listed[sorted[i] as int] as int].area(),
        0,
    ));
    assert(sorting::has_key(
        keys[sorted[k] as int],
        lifetimes[listed[sorted[k] as int]].0 as int,
        -s.tensors[listed[sorted[k] as int] as int].area(),
        0,
    ));
    assert(info.slot_assignments@.contains_key(x));
}

proof fn lemma_pairs_of(placed: Seq<TensorId>, slots: Seq<usize>, i: int, m: nat, j: int)
    requires
        0 <= i,
        m <= placed.len() == slots.len(),
    ensures
        i < j < m && slots[j] == slots[i] ==> buffer_sharing::pairs_of(placed, slots, i, m).contains(
            (placed[i], placed[j]),
        ),
        forall|x: int|
            0 <= x < buffer_sharing::pairs_of(placed, slots, i, m).len() ==> exists|y: int|
                i < y < m && slots[y] == slots[i] && #[trigger] buffer_sharing::pairs_of(placed, slots, i, m)[x] == (
                    placed[i],
                    #[trigger] placed[y],
                ),
    decreases m,
{
    if m > i + 1 {
        lemma_pairs_of(placed, slots, i, (m - 1) as nat, j);
        let rest = buffer_sharing::pairs_of(placed, slots, i, (m - 1) as nat);
        let all = buffer_sharing::pairs_of(placed, slots, i, m);
        if i < j < m && slots[j] == slots[i] {
            if j < m - 1 {
                let x = choose|x: int| 0 <= x < rest.len() && rest[x] == (placed[i], placed[j]);
                assert(all[x] == (placed[i], placed[j]));
            } else {
                assert(all[all.len() - 1] == (placed[i], placed[j]));
            }
        }
        assert forall|x: int| 0 <= x < all.len() implies exists|y: int|
            i < y < m && slots[y] == slots[i] && #[trigger] all[x] == (placed[i], #[trigger] placed[y]) by {
            if x < rest.len() {
                assert(all[x] == rest[x]);
                let y = choose|y: int|
                    i < y < m - 1 && slots[y] == slots[i] && #[trigger] rest[x] == (placed[i], #[trigger] placed[y]);
                assert(all[x] == (placed[i], placed[y]));
            } else {
                assert(all[x] == (placed[i], placed[m - 1]));
            }
        }
    }
}

proof fn lemma_all_pairs(placed: Seq<TensorId>, slots: Seq<usize>, k: nat, i: int, j: int)
    requires
        k <= placed.len() == slots.len(),
    ensures
        0 <= i < k && i < j < placed.len() && slots[j] == slots[i] ==> buffer_sharing::all_pairs(placed, slots, k).contains(
            (placed[i], placed[j]),
        ),
        forall|x: int|
            0 <= x < buffer_sharing::all_pairs(placed, slots, k).len() ==> exists|a: int, b: int|
                0 <= a < b < placed.len() && slots[a] == slots[b] && #[trigger] buffer_sharing::all_pairs(placed, slots, k)[x]
                    == (#[trigger] placed[a], #[trigger] placed[b]),
    decreases k,
{
    if k > 0 {
        lemma_all_pairs(placed, slots, (k - 1) as nat, i, j);
        lemma_pairs_of(placed, slots, k - 1, placed.len(), j);
        let rest = buffer_sharing::all_pairs(placed, slots, (k - 1) as nat);
        let more = buffer_sharing::pairs_of(placed, slots, k - 1, placed.len());
        let all = buffer_sharing::all_pairs(placed, slots, k);
        if 0 <= i < k && i < j < placed.len() && slots[j] == slots[i] {
            if i < k - 1 {
                let x = choose|x: int| 0 <= x < rest.len() && rest[x] == (placed[i], placed[j]);
                assert(all[x] == (placed[i], placed[j]));
            } else {
                let x = choose|x: int| 0 <= x < more.len() && more[x] == (placed[i], placed[j]);
                assert(all[rest.len() + x] == (placed[i], placed[j]));
            }
        }
        assert forall|x: int| 0 <= x < all.len() implies exists|a: int, b: int|
            0 <= a < b < placed.len() && slots[a] == slots[b] && #[trigger] all[x] == (
                #[trigger] placed[a],
                #[trigger] placed[b],
            ) by {
            if x < rest.len() {
                assert(all[x] == rest[x]);
                let (a, b) = choose|a: int, b: int|
                    0 <= a < b < placed.len() && slots[a] == slots[b] && #[trigger] rest[x] == (
                        #[trigger] placed[a],
                        #[trigger] placed[b],
                    );
                assert(all[x] == (placed[a], placed[b]));
            } else {
                assert(all[x] == more[x - rest.len()]);
                let y = choose|y: int|
                    k - 1 < y < placed.len() && slots[y] == slots[k - 1] && #[trigger] more[x - rest.len()] == (
                        placed[k - 1],
                        #[trigger] placed[y],
                    );
                assert(all[x] == (placed[k - 1], placed[y]));
            }
        }
    }
}

/// Two tensors are a pair that shares memory exactly if they have the same slot.
pub proof fn pairs_share_a_slot(info: BufferSharingInfo, s: GraphModel, a: TensorId, b: TensorId, x: int)
    requires
        info.is_of(s),
        a != b,
        info.slot_assignments@.contains_key(a),
        info.slot_assignments@.contains_key(b),
    ensures
        info.slot_assignments@[a] == info.slot_assignments@[b] ==> info.sharing_pairs@.contains((a, b))
            || info.sharing_pairs@.contains((b, a)),
        0 <= x < info.sharing_pairs@.len() ==> {
            let pair = info.sharing_pairs@[x];
            &&& info.slot_assignments@.contains_key(pair.0)
            &&& info.slot_assignments@.contains_key(pair.1)
            &&& info.slot_assignments@[pair.0] == info.slot_assignments@[pair.1]
        },
{
    let (order, placed, slots) = choose|order: Seq<OpId>, placed: Seq<TensorId>, slots: Seq<usize>|
        s.is_run(order) && #[trigger] info.has_lifetimes(s, order) && #[trigger] info.has_slots(s.tensors, placed, slots);
    assert(placed.contains(a) && placed.contains(b));
    let i = choose|i: int| 0 <= i < placed.len() && placed[i] == a;
    let j = choose|j: int| 0 <= j < placed.len() && placed[j] == b;
    assert(info.slot_assignments@[placed[i]] == slots[i]);
    assert(info.slot_assignments@[placed[j]] == slots[j]);
    lemma_all_pairs(placed, slots, placed.len(), i, j);
    lemma_all_pairs(placed, slots, placed.len(), j, i);
    if 0 <= x < info.sharing_pairs@.len() {
        let (c, d) = choose|c: int, d: int|
            0 <= c < d < placed.len() && slots[c] == slots[d] && #[trigger] buffer_sharing::all_pairs(
                placed,
                slots,
                placed.len(),
            )[x] == (#[trigger] placed[c], #[trigger] placed[d]);
        assert(placed.contains(placed[c]) && placed.contains(placed[d]));
        assert(info.slot_assignments@[placed[c]] == slots[c]);
        assert(info.slot_assignments@[placed[d]] == slots[d]);
    }
}

/// In a run no operation stands before one that feeds it, the first one no less than the
/// others; and what could still run is not left out.
pub proof fn runs_start_with_what_nothing_feeds(s: GraphModel, order: Seq<OpId>, i: int, u: OpId)
    requires
        s.is_run(order),
        0 <= i < order.len(),
        u < s.ops.len(),
    ensures
        s.feeds(u, order[i]) ==> exists|k: int| 0 <= k < i && #[trigger] order[k] == u,
        s.feeds(u, order[i]) ==> i > 0,
        s.active(u) && !order.contains(u) ==> exists|v: OpId|
            v < s.ops.len() && #[trigger] s.feeds(v, u) && !order.contains(v),
{
    if s.feeds(u, order[i]) {
        assert(order.take(i).contains(u));
        let k = choose|k: int| 0 <= k < order.take(i).len() && order.take(i)[k] == u;
        assert(order[k] == u);
    }
}

} // verus!
