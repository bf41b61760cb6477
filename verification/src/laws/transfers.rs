//! What groups load and store, and what overlapping their transfers saves.
use vstd::prelude::*;
use crate::{arith, ids, memory, pipeline};
use crate::models::{OpId, Problem, Subgraph, TensorId, TensorMeta};
use crate::pipeline::{DmaCapability, PipelineHardwareProfile, PipelineOverlap, SubgraphMemoryProfile};

verus! {

/// A group loads what one of its operations takes in, unless that is in fast memory or an
/// operation of the group produces it. It loads nothing twice, and its size is that of
/// all that is loaded.
pub proof fn groups_load_what_others_produce(
    profile: SubgraphMemoryProfile,
    p: Problem,
    meta: Seq<TensorMeta>,
    group: Seq<OpId>,
    kept: Seq<TensorId>,
    resident: Set<TensorId>,
    t: TensorId,
)
    requires
        profile.is_of(p, meta, group, kept, resident),
    ensures
        profile.prologue_tensors@.contains(t) <==> {
            &&& exists|i: int, j: int|
                #![trigger p.ops@[group[i] as int].inputs@[j]]
                0 <= i < group.len() && 0 <= j < p.ops@[group[i] as int].inputs@.len() && p.ops@[group[i] as int].inputs@[j]
                    == t
            &&& !resident.contains(t)
            &&& meta[t as int].producer is None || !group.contains(meta[t as int].producer->0)
        },
        profile.prologue_tensors@.no_duplicates(),
        profile.prologue_bytes == arith::sum(
            profile.prologue_tensors@.map_values(
                |x: TensorId| p.tensors@[x as int].width * p.tensors@[x as int].height,
            ),
        ),
{
    let all = memory::inputs_of(group, p.ops@, group.len());
    let keep = |t: usize| pipeline::is_loaded(meta, group, resident, t);
    memory::lemma_inputs_of(group, p.ops@, group.len());
    ids::lemma_first_mentions(all, keep, all.len());
    assert(all.take(all.len() as int) =~= all);
    assert(pipeline::areas(p, profile.prologue_tensors@) =~= profile.prologue_tensors@.map_values(
        |x: TensorId| p.tensors@[x as int].width * p.tensors@[x as int].height,
    ));
}

/// A group stores what one of its operations puts out, unless that is kept or only the
/// group consumes it and the graph does not hand it out. It stores nothing twice, and its
/// size is that of all that is stored.
pub proof fn groups_store_what_others_consume(
    profile: SubgraphMemoryProfile,
    p: Problem,
    meta: Seq<TensorMeta>,
    group: Seq<OpId>,
    kept: Seq<TensorId>,
    resident: Set<TensorId>,
    t: TensorId,
)
    requires
        profile.is_of(p, meta, group, kept, resident),
    ensures
        profile.epilogue_tensors@.contains(t) <==> {
            &&& exists|i: int, j: int|
                #![trigger p.ops@[group[i] as int].outputs@[j]]
                0 <= i < group.len() && 0 <= j < p.ops@[group[i] as int].outputs@.len()
                    && p.ops@[group[i] as int].outputs@[j] == t
            &&& !kept.contains(t)
            &&& meta[t as int].is_output || exists|c: int|
                0 <= c < meta[t as int].consumers@.len() && !group.contains(#[trigger] meta[t as int].consumers@[c])
        },
        profile.epilogue_tensors@.no_duplicates(),
        profile.epilogue_bytes == arith::sum(
            profile.epilogue_tensors@.map_values(
                |x: TensorId| p.tensors@[x as int].width * p.tensors@[x as int].height,
            ),
        ),
        profile.compute_time == arith::sum(group.map_values(|op: OpId| p.ops@[op as int].base_cost as int)),
{
    let all = memory::outputs_of(group, p.ops@, group.len());
    let keep = |t: usize| pipeline::is_stored(meta, group, kept, t);
    memory::lemma_outputs_of(group, p.ops@, group.len());
    ids::lemma_first_mentions(all, keep, all.len());
    assert(all.take(all.len() as int) =~= all);
    assert(pipeline::areas(p, profile.epilogue_tensors@) =~= profile.epilogue_tensors@.map_values(
        |x: TensorId| p.tensors@[x as int].width * p.tensors@[x as int].height,
    ));
    assert(pipeline::base_costs(p, group) =~= group.map_values(|op: OpId| p.ops@[op as int].base_cost as int));
}

/// The transfers of two groups overlap exactly if the hardware can do two at once, both
/// are of 4096 units or more, and the second group loads nothing that the first stores.
/// What is saved is 85 hundredths of the allowed part of the shorter transfer. A reason is
/// given exactly if nothing is saved.
pub proof fn independent_large_transfers_overlap(
    overlap: PipelineOverlap,
    first: SubgraphMemoryProfile,
    second: SubgraphMemoryProfile,
    hw: PipelineHardwareProfile,
)
    requires
        overlap.is_of(first, second, hw),
        0 <= hw.max_overlap <= 100,
    ensures
        overlap.can_overlap <==> {
            &&& hw.dma_capability != DmaCapability::Sequential
            &&& first.epilogue_bytes >= 4096
            &&& second.prologue_bytes >= 4096
            &&& forall|i: int, j: int|
                0 <= i < first.epilogue_tensors@.len() && 0 <= j < second.prologue_tensors@.len()
                    ==> #[trigger] first.epilogue_tensors@[i] != #[trigger] second.prologue_tensors@[j]
        },
        overlap.can_overlap && first.epilogue_bytes <= second.prologue_bytes ==> overlap.time_saved == (
        first.epilogue_bytes * hw.max_overlap) * 85,
        overlap.can_overlap && second.prologue_bytes <= first.epilogue_bytes ==> overlap.time_saved == (
        second.prologue_bytes * hw.max_overlap) * 85,
        !overlap.can_overlap ==> overlap.time_saved == 0,
        overlap.no_overlap_reason is Some <==> !overlap.can_overlap,
{
    if pipeline::depends_on(first, second) {
        let j = choose|j: int|
            0 <= j < second.prologue_tensors@.len() && first.epilogue_tensors@.contains(
                #[trigger] second.prologue_tensors@[j],
            );
        let i = choose|i: int|
            0 <= i < first.epilogue_tensors@.len() && first.epilogue_tensors@[i] == second.prologue_tensors@[j];
        assert(first.epilogue_tensors@[i] == second.prologue_tensors@[j]);
    } else {
        assert forall|i: int, j: int|
            0 <= i < first.epilogue_tensors@.len() && 0 <= j < second.prologue_tensors@.len() implies
            #[trigger] first.epilogue_tensors@[i] != #[trigger] second.prologue_tensors@[j] by {
            if first.epilogue_tensors@[i] == second.prologue_tensors@[j] {
                assert(first.epilogue_tensors@.contains(second.prologue_tensors@[j]));
            }
        }
    }
}

/// The savings that count are those that are possible and at least the threshold; they
/// are counted and added up.
pub proof fn worthwhile_savings_add_up(overlaps: Seq<PipelineOverlap>, threshold: int, bandwidth: int, k: nat)
    requires
        k <= overlaps.len(),
        bandwidth > 0,
    ensures
        pipeline::pair_count(overlaps, threshold, bandwidth, k) == overlaps.take(k as int).filter(
            |o: PipelineOverlap| o.can_overlap && o.time_saved >= threshold * (10_000 * bandwidth),
        ).len(),
        pipeline::total_saving(overlaps, threshold, bandwidth, k) == arith::sum(
            overlaps.take(k as int).filter(
                |o: PipelineOverlap| o.can_overlap && o.time_saved >= threshold * (10_000 * bandwidth),
            ).map_values(|o: PipelineOverlap| o.time_saved as int),
        ),
    decreases k,
{
    let pred = |o: PipelineOverlap| o.can_overlap && o.time_saved >= threshold * (10_000 * bandwidth);
    let f = |o: PipelineOverlap| o.time_saved as int;
    if k == 0 {
        reveal(Seq::filter);
        assert(overlaps.take(0) =~= Seq::<PipelineOverlap>::empty());
        assert(overlaps.take(0).filter(pred).map_values(f) =~= Seq::<int>::empty());
    } else {
        worthwhile_savings_add_up(overlaps, threshold, bandwidth, (k - 1) as nat);
        let before = overlaps.take(k - 1);
        let o = overlaps[k - 1];
        assert(overlaps.take(k as int) =~= before.push(o));
        before.lemma_filter_push(o, pred);
        let some = before.filter(pred);
        assert(some.push(o).map_values(f).drop_last() =~= some.map_values(f));
        assert(some.push(o).map_values(f).last() == f(o));
    }
}

/// In fast memory is what some earlier group keeps.
pub proof fn earlier_groups_keep_tensors(subgraphs: Seq<Subgraph>, k: nat, t: TensorId)
    requires
        k <= subgraphs.len(),
    ensures
        pipeline::kept_by(subgraphs, k).contains(t) <==> exists|i: int|
            0 <= i < k && (#[trigger] subgraphs[i]).tensors_to_retain@.contains(t),
    decreases k,
{
    if k > 0 {
        earlier_groups_keep_tensors(subgraphs, (k - 1) as nat, t);
        if pipeline::kept_by(subgraphs, k).contains(t) {
            if pipeline::kept_by(subgraphs, (k - 1) as nat).contains(t) {
                let i = choose|i: int| 0 <= i < k - 1 && (#[trigger] subgraphs[i]).tensors_to_retain@.contains(t);
                assert(0 <= i < k && subgraphs[i].tensors_to_retain@.contains(t));
            } else {
                assert(subgraphs[k - 1].tensors_to_retain@.contains(t));
            }
        }
    }
}

} // verus!
