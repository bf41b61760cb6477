//! What holds of the memory that live tensors take when they share slots, and of the
//! graph that is written back.
use vstd::prelude::*;
use crate::{arith, buffer_sharing, ids, pipeline, rewrite_graph};
use crate::models::{OpId, Problem, Tensor, TensorId};
use crate::pipeline::{PipelineHardwareProfile, PipelineOverlap, SubgraphMemoryProfile};
use crate::rewrite_graph::GraphModel;

verus! {

/// The tensor is live and placed in the slot.
pub open spec fn lies_in(live: Set<TensorId>, slots: Map<TensorId, usize>, t: TensorId, slot: usize) -> bool {
    live.contains(t) && slots.contains_key(t) && slots[t] == slot
}

/// A slot counts for the largest of the live tensors in it, and for nothing without one.
pub proof fn slots_count_their_largest(
    live: Set<TensorId>,
    slots: Map<TensorId, usize>,
    tensors: Seq<Tensor>,
    slot: usize,
    m: nat,
)
    requires
        m <= tensors.len() <= usize::MAX,
    ensures
        ({
            let peak = buffer_sharing::slot_peak(live, slots, tensors, slot, m);
            &&& peak >= 0
            &&& forall|t: usize|
                t < m && #[trigger] lies_in(live, slots, t, slot) ==> tensors[t as int].width * tensors[t as int].height
                    <= peak
            &&& peak == 0 || exists|t: usize|
                t < m && #[trigger] lies_in(live, slots, t, slot) && tensors[t as int].width * tensors[t as int].height
                    == peak
        }),
    decreases m,
{
    if m > 0 {
        slots_count_their_largest(live, slots, tensors, slot, (m - 1) as nat);
        let rest = buffer_sharing::slot_peak(live, slots, tensors, slot, (m - 1) as nat);
        let peak = buffer_sharing::slot_peak(live, slots, tensors, slot, m);
        let last = (m - 1) as usize;
        assert forall|t: usize| t < m && #[trigger] lies_in(live, slots, t, slot) implies tensors[t as int].width
            * tensors[t as int].height <= peak by {
            if t == last {
                assert(peak >= tensors[m - 1].area());
            }
        }
        if peak != 0 {
            if lies_in(live, slots, last, slot) && peak == tensors[m - 1].area() {
                assert(last < m && tensors[last as int].width * tensors[last as int].height == peak);
            } else {
                assert(peak == rest);
                let t = choose|t: usize|
                    t < m - 1 && #[trigger] lies_in(live, slots, t, slot) && tensors[t as int].width * tensors[t as int].height
                        == rest;
                assert(t < m && lies_in(live, slots, t, slot));
            }
        }
    }
}

proof fn lemma_occupied(live: Set<TensorId>, slots: Map<TensorId, usize>, m: nat, slot: usize)
    requires
        m <= usize::MAX,
    ensures
        buffer_sharing::occupied(live, slots, m).contains(slot) <==> exists|t: usize|
            t < m && #[trigger] lies_in(live, slots, t, slot),
    decreases m,
{
    if m > 0 {
        let rest = buffer_sharing::occupied(live, slots, (m - 1) as nat);
        let t = (m - 1) as usize;
        lemma_occupied(live, slots, (m - 1) as nat, slot);
        ids::lemma_push_contains(rest, slots[t]);
        if lies_in(live, slots, t, slot) {
            assert(t < m);
        } else if rest.contains(slot) {
            let u = choose|u: usize| u < m - 1 && #[trigger] lies_in(live, slots, u, slot);
            assert(u < m && lies_in(live, slots, u, slot));
        }
        if exists|u: usize| u < m && #[trigger] lies_in(live, slots, u, slot) {
            let u = choose|u: usize| u < m && #[trigger] lies_in(live, slots, u, slot);
            if u < m - 1 {
                assert(rest.contains(slot));
            } else {
                assert(u == t);
            }
        }
    } else {
        assert(!buffer_sharing::occupied(live, slots, 0).contains(slot));
    }
}

proof fn lemma_unplaced(live: Set<TensorId>, slots: Map<TensorId, usize>, tensors: Seq<Tensor>, m: nat)
    requires
        m <= tensors.len() <= usize::MAX,
    ensures
        arith::sum(buffer_sharing::unplaced(live, slots, tensors, m)) == arith::sum(
            Seq::new(
                m,
                |t: int|
                    if live.contains(t as usize) && !slots.contains_key(t as usize) {
                        tensors[t].width * tensors[t].height
                    } else {
                        0
                    },
            ),
        ),
    decreases m,
{
    let f = |t: int|
        if live.contains(t as usize) && !slots.contains_key(t as usize) {
            tensors[t].width * tensors[t].height
        } else {
            0
        };
    if m > 0 {
        lemma_unplaced(live, slots, tensors, (m - 1) as nat);
        let rest = buffer_sharing::unplaced(live, slots, tensors, (m - 1) as nat);
        assert(Seq::new(m, f).drop_last() =~= Seq::new((m - 1) as nat, f));
        assert(rest.push(tensors[m - 1].area()).drop_last() =~= rest);
    }
}

/// The memory of the live tensors is that of the slots in which any of them lies, each
/// slot once, and of the live tensors without a slot, each for itself.
pub proof fn live_tensors_take_slots(live: Set<TensorId>, slots: Map<TensorId, usize>, tensors: Seq<Tensor>)
    requires
        tensors.len() <= usize::MAX,
    ensures
        exists|used: Seq<usize>|
            {
                &&& used.no_duplicates()
                &&& forall|slot: usize| #[trigger]
                    used.contains(slot) <==> exists|t: usize|
                        t < tensors.len() && #[trigger] lies_in(live, slots, t, slot)
                &&& buffer_sharing::live_memory(live, slots, tensors) == arith::sum(
                    used.map_values(|slot: usize| buffer_sharing::slot_peak(live, slots, tensors, slot, tensors.len())),
                ) + arith::sum(
                    Seq::new(
                        tensors.len(),
                        |t: int|
                            if live.contains(t as usize) && !slots.contains_key(t as usize) {
                                tensors[t].width * tensors[t].height
                            } else {
                                0
                            },
                    ),
                )
            },
{
    let all = buffer_sharing::occupied(live, slots, tensors.len());
    let used = ids::first_mentions(all, |j: usize| true, all.len());
    ids::lemma_first_mentions(all, |j: usize| true, all.len());
    assert(all.take(all.len() as int) =~= all);
    assert forall|slot: usize| #[trigger] used.contains(slot) <==> exists|t: usize|
        t < tensors.len() && #[trigger] lies_in(live, slots, t, slot) by {
        lemma_occupied(live, slots, tensors.len(), slot);
    }
    lemma_unplaced(live, slots, tensors, tensors.len());
    assert(used.map_values(|slot: usize| buffer_sharing::slot_peak(live, slots, tensors, slot, tensors.len()))
        =~= buffer_sharing::slot_peaks(live, slots, tensors));
}

/// A group overlaps only with the one after it: the last group, and one that is not
/// there, overlap with nothing and save nothing.
pub proof fn the_last_group_overlaps_with_nothing(
    overlap: PipelineOverlap,
    profiles: Seq<SubgraphMemoryProfile>,
    hw: PipelineHardwareProfile,
    i: int,
)
    requires
        pipeline::is_overlap_at(overlap, profiles, hw, i),
        0 <= i,
    ensures
        i + 1 >= profiles.len() ==> !overlap.can_overlap && overlap.time_saved == 0,
        overlap.can_overlap ==> i + 1 < profiles.len() && overlap.is_of(profiles[i], profiles[i + 1], hw),
{
}

proof fn lemma_last_producer_is_last(s: GraphModel, t: TensorId, k: nat)
    requires
        k <= s.ops.len() <= usize::MAX,
    ensures
        s.last_producer(t, k) is Some ==> forall|later: OpId|
            s.last_producer(t, k)->0 < later < k && s.active(later) ==> !#[trigger] s.puts_out(later, t),
    decreases k,
{
    if k > 0 {
        lemma_last_producer_is_last(s, t, (k - 1) as nat);
    }
}

/// Where producers and consumers are looked up anew, a tensor is produced by the last
/// operation that is still there and puts it out, and consumed by all that are there and
/// take it in. The outputs are what is produced and not consumed; nothing else changes.
pub proof fn tables_are_looked_up_anew(s: GraphModel, t: TensorId, op: OpId)
    requires
        s.ops.len() <= usize::MAX,
        op < s.ops.len(),
    ensures
        ({
            let now = s.recalculated();
            &&& s.active(op) && s.puts_out(op, t) ==> now.producers.contains_key(t) && op <= now.producers[t]
            &&& now.producers.contains_key(t) ==> now.producers[t] < s.ops.len() && s.active(now.producers[t])
                && s.puts_out(now.producers[t], t)
            &&& now.consumers.contains_key(t) && now.consumers[t].contains(op) <==> s.active(op) && s.takes_in(op, t)
            &&& now.consumers.contains_key(t) ==> exists|taker: OpId|
                taker < s.ops.len() && s.active(taker) && #[trigger] s.takes_in(taker, t)
            &&& now.outputs.contains(t) <==> now.producers.contains_key(t) && !(exists|taker: OpId|
                taker < s.ops.len() && s.active(taker) && #[trigger] s.takes_in(taker, t))
            &&& now.ops == s.ops && now.deleted == s.deleted && now.remap == s.remap && now.tensors == s.tensors
        }),
{
    let n = s.ops.len();
    rewrite_graph::lemma_last_producer(s, t, n);
    lemma_last_producer_is_last(s, t, n);
    assert forall|taker: OpId| taker < n && s.active(taker) && #[trigger] s.takes_in(taker, t) implies s.takers(
        t,
        n as int,
    ).contains(taker) by {}
    if exists|o: OpId| #[trigger] s.takers(t, n as int).contains(o) {
        let o = choose|o: OpId| #[trigger] s.takers(t, n as int).contains(o);
        assert(s.takes_in(o, t));
    }
    if s.active(op) && s.takes_in(op, t) {
        assert(s.takers(t, n as int).contains(op));
    }
}

proof fn lemma_places(s: GraphModel, k: nat) -> (from: Seq<usize>)
    requires
        k <= s.ops.len() <= usize::MAX,
    ensures
        from.len() == s.active_among(k),
        forall|x: int, y: int| 0 <= x < y < from.len() ==> from[x] < from[y],
        forall|x: int|
            0 <= x < from.len() ==> (#[trigger] from[x]) < k && s.active(from[x]) && s.active_among(from[x] as nat) == x,
        forall|i: usize| i < k && #[trigger] s.active(i) ==> from.contains(i),
    decreases k,
{
    if k == 0 {
        Seq::empty()
    } else {
        let rest = lemma_places(s, (k - 1) as nat);
        let i = (k - 1) as usize;
        if s.active(i) {
            let from = rest.push(i);
            ids::lemma_push_contains(rest, i);
            from
        } else {
            rest
        }
    }
}

/// The operations that are still there are written back in their order, all of them and no
/// others, with the cost that they have taken on, and each tensor by the one that stands
/// for it.
pub proof fn what_is_left_is_written_back(s: GraphModel, p: Problem, original: Problem)
    requires
        s.writes_back(p, original),
        s.ops.len() <= usize::MAX,
    ensures
        exists|from: Seq<usize>|
            {
                &&& #[trigger] from.len() == p.ops@.len()
                &&& forall|x: int, y: int| 0 <= x < y < from.len() ==> from[x] < from[y]
                &&& forall|i: usize|
                    #![trigger from.contains(i)]
                    from.contains(i) <==> i < s.ops.len() && !s.deleted.contains(i) && s.ops[i as int].fused_into is None
                &&& forall|x: int|
                    0 <= x < from.len() ==> {
                        let op = #[trigger] p.ops@[x];
                        let kept = s.ops[from[x] as int];
                        &&& op.op_type == kept.op_type
                        &&& op.base_cost == kept.accumulated_cost
                        &&& op.inputs@.len() == kept.inputs.len()
                        &&& op.outputs@.len() == kept.outputs.len()
                        &&& forall|j: int|
                            0 <= j < kept.inputs.len() ==> #[trigger] op.inputs@[j] == if s.remap.contains_key(
                                kept.inputs[j],
                            ) {
                                s.remap[kept.inputs[j]]
                            } else {
                                kept.inputs[j]
                            }
                        &&& forall|j: int|
                            0 <= j < kept.outputs.len() ==> #[trigger] op.outputs@[j] == if s.remap.contains_key(
                                kept.outputs[j],
                            ) {
                                s.remap[kept.outputs[j]]
                            } else {
                                kept.outputs[j]
                            }
                    }
            },
        p.fast_memory_capacity == original.fast_memory_capacity,
        p.slow_memory_bandwidth == original.slow_memory_bandwidth,
        p.native_granularity == original.native_granularity,
{
    let from = lemma_places(s, s.ops.len());
    assert forall|i: usize|
        #![trigger from.contains(i)]
        from.contains(i) <==> i < s.ops.len() && !s.deleted.contains(i) && s.ops[i as int].fused_into is None by {
        if from.contains(i) {
            let x = choose|x: int| 0 <= x < from.len() && from[x] == i;
            assert(s.active(from[x]));
        } else if i < s.ops.len() {
            assert(!s.active(i));
        }
    }
    assert forall|x: int| 0 <= x < from.len() implies s.writes_back_op(#[trigger] p.ops@[x], from[x] as int) by {
        assert(s.active(from[x]));
    }
}

} // verus!
