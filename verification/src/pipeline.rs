//! Overlapping the last transfers of one group with the first transfers of the next.
use std::collections::HashSet;
use vstd::prelude::*;
use crate::arith;
use crate::ids;
use crate::memory;
use crate::models::{Granularity, OpId, Problem, Subgraph, TensorId, TensorMeta};

verus! {

/// The part of the shorter transfer that can overlap, in hundredths.
pub const MAX_PIPELINE_OVERLAP_PERCENT: i64 = 70;

/// The smallest transfer that is worth overlapping.
pub const MIN_TRANSFER_FOR_PIPELINING: i64 = 4096;

/// What two transfers at once reach of their speeds, in hundredths.
pub const DMA_CONCURRENCY_PERCENT: i64 = 85;

/// What the hardware can transfer at once.
#[derive(Debug, Clone, Copy, PartialEq, Eq, Structural)]
pub enum DmaCapability {
    /// One transfer after the other.
    Sequential,
    /// A read and a write at once.
    BasicConcurrent,
    /// Several independent transfers.
    FullConcurrent,
}

/// What is known of the transfers of the hardware.
#[derive(Debug, Clone, Copy)]
pub struct PipelineHardwareProfile {
    pub dma_capability: DmaCapability,
    /// The number of independent channels.
    pub dma_channels: usize,
    pub read_bandwidth: i64,
    pub write_bandwidth: i64,
    /// The part of the shorter transfer that can overlap, in hundredths.
    pub max_overlap: i64,
}

impl PipelineHardwareProfile {
    /// What the problem says of the transfers: more fast memory means more channels.
    pub fn from_problem(problem: &Problem) -> (hw: Self)
        ensures
            hw.dma_capability == if problem.fast_memory_capacity >= 500_000 {
                DmaCapability::FullConcurrent
            } else {
                DmaCapability::BasicConcurrent
            },
            hw.dma_channels == if problem.fast_memory_capacity >= 500_000 { 4 } else { 2int },
            hw.read_bandwidth == problem.slow_memory_bandwidth,
            hw.write_bandwidth == problem.slow_memory_bandwidth,
            hw.max_overlap == if problem.fast_memory_capacity >= 500_000 {
                70
            } else if problem.fast_memory_capacity >= 100_000 {
                56
            } else {
                35int
            },
    {
        let (dma_capability, max_overlap): (DmaCapability, i64) = if problem.fast_memory_capacity >= 500_000 {
            (DmaCapability::FullConcurrent, MAX_PIPELINE_OVERLAP_PERCENT)
        } else if problem.fast_memory_capacity >= 100_000 {
            (DmaCapability::BasicConcurrent, 56)
        } else {
            (DmaCapability::BasicConcurrent, 35)
        };
        let dma_channels: usize = match dma_capability {
            DmaCapability::Sequential => 1,
            DmaCapability::BasicConcurrent => 2,
            DmaCapability::FullConcurrent => 4,
        };
        PipelineHardwareProfile {
            dma_capability,
            dma_channels,
            read_bandwidth: problem.slow_memory_bandwidth,
            write_bandwidth: problem.slow_memory_bandwidth,
            max_overlap,
        }
    }
}

/// What a group loads before it starts and stores when it is done.
#[derive(Debug, Clone)]
pub struct SubgraphMemoryProfile {
    /// The size of what is loaded.
    pub prologue_bytes: i64,
    /// The size of what is stored.
    pub epilogue_bytes: i64,
    /// The cost of all operations.
    pub compute_time: i128,
    /// The tensors that are loaded.
    pub prologue_tensors: Vec<TensorId>,
    /// The tensors that are stored.
    pub epilogue_tensors: Vec<TensorId>,
}

/// The tensor is loaded: it is not in fast memory and comes from outside the group.
pub open spec fn is_loaded(meta: Seq<TensorMeta>, group: Seq<OpId>, resident: Set<TensorId>, t: TensorId) -> bool {
    !resident.contains(t) && memory::from_outside(group, meta[t as int])
}

/// The tensor is stored: it is not kept and needed outside the group.
pub open spec fn is_stored(meta: Seq<TensorMeta>, group: Seq<OpId>, kept: Seq<TensorId>, t: TensorId) -> bool {
    !kept.contains(t) && memory::needed_outside(group, meta[t as int])
}

/// What the group loads, in order of first mention.
pub open spec fn loads(p: Problem, meta: Seq<TensorMeta>, group: Seq<OpId>, resident: Set<TensorId>) -> Seq<TensorId> {
    let all = memory::inputs_of(group, p.ops@, group.len());
    ids::first_mentions(all, |t: usize| is_loaded(meta, group, resident, t), all.len())
}

/// What the group stores, in order of first mention.
pub open spec fn stores(p: Problem, meta: Seq<TensorMeta>, group: Seq<OpId>, kept: Seq<TensorId>) -> Seq<TensorId> {
    let all = memory::outputs_of(group, p.ops@, group.len());
    ids::first_mentions(all, |t: usize| is_stored(meta, group, kept, t), all.len())
}

/// The sizes of the listed tensors.
pub open spec fn areas(p: Problem, listed: Seq<TensorId>) -> Seq<int> {
    listed.map_values(|t: usize| p.tensors@[t as int].area())
}

/// The costs of the operations of the group.
pub open spec fn base_costs(p: Problem, group: Seq<OpId>) -> Seq<int> {
    group.map_values(|op: usize| p.ops@[op as int].base_cost as int)
}

/// The ids that the profile looks up exist, and the sizes it adds up are numbers of the machine.
pub open spec fn profile_fits(
    p: Problem,
    meta: Seq<TensorMeta>,
    group: Seq<OpId>,
    kept: Seq<TensorId>,
    resident: Set<TensorId>,
) -> bool {
    &&& forall|i: int| 0 <= i < group.len() ==> (#[trigger] group[i]) < p.ops@.len()
    &&& forall|t: TensorId| #[trigger] memory::inputs_of(group, p.ops@, group.len()).contains(t) ==> t < meta.len()
    &&& forall|t: TensorId| #[trigger] memory::outputs_of(group, p.ops@, group.len()).contains(t) ==> t < meta.len()
    &&& forall|t: TensorId| #[trigger]
        loads(p, meta, group, resident).contains(t) ==> t < p.tensors@.len() && arith::fits(p.tensors@[t as int].area())
    &&& forall|t: TensorId| #[trigger]
        stores(p, meta, group, kept).contains(t) ==> t < p.tensors@.len() && arith::fits(p.tensors@[t as int].area())
    &&& arith::fits(arith::sum(areas(p, loads(p, meta, group, resident))))
    &&& arith::fits(arith::sum(areas(p, stores(p, meta, group, kept))))
}

impl SubgraphMemoryProfile {
    /// This is the profile of the group.
    pub open spec fn is_of(
        &self,
        p: Problem,
        meta: Seq<TensorMeta>,
        group: Seq<OpId>,
        kept: Seq<TensorId>,
        resident: Set<TensorId>,
    ) -> bool {
        &&& self.prologue_tensors@ == loads(p, meta, group, resident)
        &&& self.epilogue_tensors@ == stores(p, meta, group, kept)
        &&& self.prologue_bytes == arith::sum(areas(p, loads(p, meta, group, resident)))
        &&& self.epilogue_bytes == arith::sum(areas(p, stores(p, meta, group, kept)))
        &&& self.compute_time == arith::sum(base_costs(p, group))
    }

    /// Finds what the group loads and stores.
    pub fn from_subgraph(
        ops: &[OpId],
        problem: &Problem,
        _granularity: &Granularity,
        tensor_meta: &[TensorMeta],
        tensors_to_retain: &[TensorId],
        sram_resident: &HashSet<TensorId>,
    ) -> (profile: Self)
        requires
            profile_fits(*problem, tensor_meta@, ops@, tensors_to_retain@, sram_resident@),
        ensures
            profile.is_of(*problem, tensor_meta@, ops@, tensors_to_retain@, sram_resident@),
    {
        let prologue_tensors: Vec<TensorId> = find_loads(ops, problem, tensor_meta, sram_resident);
        let epilogue_tensors: Vec<TensorId> = find_stores(ops, problem, tensor_meta, tensors_to_retain);
        let prologue_bytes: i128 = add_areas(&prologue_tensors, problem);
        let epilogue_bytes: i128 = add_areas(&epilogue_tensors, problem);
        let compute_time: i128 = add_costs(ops, problem);
        SubgraphMemoryProfile {
            prologue_bytes: prologue_bytes as i64,
            epilogue_bytes: epilogue_bytes as i64,
            compute_time,
            prologue_tensors,
            epilogue_tensors,
        }
    }
}

fn add_areas(listed: &Vec<TensorId>, problem: &Problem) -> (total: i128)
    requires
        forall|t: TensorId| #[trigger]
            listed@.contains(t) ==> t < problem.tensors@.len() && arith::fits(problem.tensors@[t as int].area()),
    ensures
        total == arith::sum(areas(*problem, listed@)),
{
    let mut sizes: Vec<i64> = Vec::new();
    let mut i: usize = 0;
    while i < listed.len()
        invariant
            i <= listed.len(),
            forall|t: TensorId| #[trigger]
                listed@.contains(t) ==> t < problem.tensors@.len() && arith::fits(problem.tensors@[t as int].area()),
            sizes.len() == i,
            forall|j: int| 0 <= j < i ==> #[trigger] sizes@[j] == problem.tensors@[listed@[j] as int].area(),
        decreases listed.len() - i,
    {
        assert(listed@.contains(listed@[i as int]));
        sizes.push(problem.tensors[listed[i]].size());
        i = i + 1;
    }
    assert(arith::ints(sizes@) =~= areas(*problem, listed@));
    arith::wide_total(&sizes)
}

fn add_costs(ops: &[OpId], problem: &Problem) -> (total: i128)
    requires
        forall|i: int| 0 <= i < ops@.len() ==> (#[trigger] ops@[i]) < problem.ops@.len(),
    ensures
        total == arith::sum(base_costs(*problem, ops@)),
{
    let mut costs: Vec<i64> = Vec::new();
    let mut i: usize = 0;
    while i < ops.len()
        invariant
            i <= ops@.len(),
            forall|i: int| 0 <= i < ops@.len() ==> (#[trigger] ops@[i]) < problem.ops@.len(),
            costs.len() == i,
            forall|j: int| 0 <= j < i ==> #[trigger] costs@[j] == problem.ops@[ops@[j] as int].base_cost,
        decreases ops@.len() - i,
    {
        assert(ops@[i as int] < problem.ops@.len());
        costs.push(problem.ops[ops[i]].base_cost);
        i = i + 1;
    }
    assert(arith::ints(costs@) =~= base_costs(*problem, ops@));
    arith::wide_total(&costs)
}

fn find_loads(ops: &[OpId], problem: &Problem, tensor_meta: &[TensorMeta], sram_resident: &HashSet<TensorId>) -> (found: Vec<
    TensorId,
>)
    requires
        forall|i: int| 0 <= i < ops@.len() ==> (#[trigger] ops@[i]) < problem.ops@.len(),
        forall|t: TensorId| #[trigger]
            memory::inputs_of(ops@, problem.ops@, ops@.len()).contains(t) ==> t < tensor_meta@.len(),
    ensures
        found@ == loads(*problem, tensor_meta@, ops@, sram_resident@),
{
    broadcast use vstd::std_specs::hash::group_hash_axioms;

    let ghost meta = tensor_meta@;
    let ghost resident = sram_resident@;
    let group: HashSet<OpId> = ids::set_of(ops);
    let all: Vec<TensorId> = memory::gather_inputs(ops, problem);
    let ghost keep = |t: usize| is_loaded(meta, ops@, resident, t);
    let mut flags: Vec<bool> = Vec::new();
    let mut i: usize = 0;
    while i < all.len()
        invariant
            i <= all.len(),
            meta == tensor_meta@,
            resident == sram_resident@,
            keep == |t: usize| is_loaded(meta, ops@, resident, t),
            forall|t: TensorId| #[trigger] all@.contains(t) ==> t < meta.len(),
            forall|x: usize| #[trigger] group@.contains(x) <==> ops@.contains(x),
            flags.len() == i,
            forall|j: int| 0 <= j < i ==> #[trigger] flags@[j] == keep(all@[j]),
        decreases all.len() - i,
    {
        let t: TensorId = all[i];
        assert(all@.contains(all@[i as int]));
        let loaded: bool = !sram_resident.contains(&t) && memory::comes_from_outside(
            &group,
            &tensor_meta[t],
            Ghost(ops@),
        );
        flags.push(loaded);
        i = i + 1;
    }
    ids::collect_first_mentions(&all, &flags, Ghost(keep))
}

fn find_stores(ops: &[OpId], problem: &Problem, tensor_meta: &[TensorMeta], tensors_to_retain: &[TensorId]) -> (found: Vec<
    TensorId,
>)
    requires
        forall|i: int| 0 <= i < ops@.len() ==> (#[trigger] ops@[i]) < problem.ops@.len(),
        forall|t: TensorId| #[trigger]
            memory::outputs_of(ops@, problem.ops@, ops@.len()).contains(t) ==> t < tensor_meta@.len(),
    ensures
        found@ == stores(*problem, tensor_meta@, ops@, tensors_to_retain@),
{
    broadcast use vstd::std_specs::hash::group_hash_axioms;

    let ghost meta = tensor_meta@;
    let ghost kept = tensors_to_retain@;
    let group: HashSet<OpId> = ids::set_of(ops);
    let retain: HashSet<TensorId> = ids::set_of(tensors_to_retain);
    let all: Vec<TensorId> = memory::gather_outputs(ops, problem);
    let ghost keep = |t: usize| is_stored(meta, ops@, kept, t);
    let mut flags: Vec<bool> = Vec::new();
    let mut i: usize = 0;
    while i < all.len()
        invariant
            i <= all.len(),
            meta == tensor_meta@,
            kept == tensors_to_retain@,
            keep == |t: usize| is_stored(meta, ops@, kept, t),
            forall|t: TensorId| #[trigger] all@.contains(t) ==> t < meta.len(),
            forall|x: usize| #[trigger] group@.contains(x) <==> ops@.contains(x),
            forall|x: usize| #[trigger] retain@.contains(x) <==> kept.contains(x),
            flags.len() == i,
            forall|j: int| 0 <= j < i ==> #[trigger] flags@[j] == keep(all@[j]),
        decreases all.len() - i,
    {
        let t: TensorId = all[i];
        assert(all@.contains(all@[i as int]));
        let stored: bool = !retain.contains(&t) && memory::is_needed_outside(&group, &tensor_meta[t], Ghost(ops@));
        flags.push(stored);
        i = i + 1;
    }
    ids::collect_first_mentions(&all, &flags, Ghost(keep))
}

/// What overlapping the transfers of two groups brings.
#[derive(Debug, Clone)]
pub struct PipelineOverlap {
    pub can_overlap: bool,
    /// The time saved, in ten thousandths of what transferring one byte takes.
    pub time_saved: i128,
    /// Why the transfers cannot overlap.
    pub no_overlap_reason: Option<String>,
}

impl PipelineOverlap {
    /// Nothing overlaps, for this reason.
    pub fn no_overlap(reason: &str) -> (overlap: Self)
        ensures
            !overlap.can_overlap,
            overlap.time_saved == 0,
            overlap.no_overlap_reason is Some,
            overlap.no_overlap_reason->0@ == reason@,
    {
        let text: String = reason.to_owned();
        PipelineOverlap { can_overlap: false, time_saved: 0, no_overlap_reason: Some(text) }
    }
}

/// The second group loads something that the first one stores.
pub open spec fn depends_on(first: SubgraphMemoryProfile, second: SubgraphMemoryProfile) -> bool {
    exists|i: int|
        0 <= i < second.prologue_tensors@.len() && first.epilogue_tensors@.contains(
            #[trigger] second.prologue_tensors@[i],
        )
}

/// Why the transfers of two groups cannot overlap.
pub open spec fn obstacle(first: SubgraphMemoryProfile, second: SubgraphMemoryProfile, hw: PipelineHardwareProfile) -> Option<
    Seq<char>,
> {
    if hw.dma_capability == DmaCapability::Sequential {
        Some("Hardware doesn't support concurrent DMA"@)
    } else if first.epilogue_bytes < MIN_TRANSFER_FOR_PIPELINING {
        Some("Epilogue too small for pipelining"@)
    } else if second.prologue_bytes < MIN_TRANSFER_FOR_PIPELINING {
        Some("Prologue too small for pipelining"@)
    } else if depends_on(first, second) {
        Some("Data dependency between subgraphs"@)
    } else {
        None
    }
}

/// The time that the overlap saves, in ten thousandths of what transferring one byte takes.
pub open spec fn overlap_saving(first: SubgraphMemoryProfile, second: SubgraphMemoryProfile, max_overlap: int) -> int {
    arith::least(first.epilogue_bytes as int, second.prologue_bytes as int) * max_overlap * DMA_CONCURRENCY_PERCENT
}

impl PipelineOverlap {
    /// This is what overlapping the two groups brings.
    pub open spec fn is_of(
        &self,
        first: SubgraphMemoryProfile,
        second: SubgraphMemoryProfile,
        hw: PipelineHardwareProfile,
    ) -> bool {
        match obstacle(first, second, hw) {
            Some(reason) => {
                &&& !self.can_overlap
                &&& self.time_saved == 0
                &&& self.no_overlap_reason is Some
                &&& self.no_overlap_reason->0@ == reason
            },
            None => {
                &&& self.can_overlap
                &&& self.time_saved == overlap_saving(first, second, hw.max_overlap as int)
                &&& self.no_overlap_reason is None
            },
        }
    }
}

/// Finds what overlapping the transfers of two groups brings: nothing if the hardware
/// cannot, if a transfer is small, or if the second group needs what the first one stores.
pub fn analyze_pipeline_overlap(
    profile_a: &SubgraphMemoryProfile,
    profile_b: &SubgraphMemoryProfile,
    hw: &PipelineHardwareProfile,
) -> (overlap: PipelineOverlap)
    requires
        0 <= hw.max_overlap <= 100,
    ensures
        overlap.is_of(*profile_a, *profile_b, *hw),
{
    broadcast use vstd::std_specs::hash::group_hash_axioms;

    if hw.dma_capability == DmaCapability::Sequential {
        return PipelineOverlap::no_overlap("Hardware doesn't support concurrent DMA");
    }
    if profile_a.epilogue_bytes < MIN_TRANSFER_FOR_PIPELINING {
        return PipelineOverlap::no_overlap("Epilogue too small for pipelining");
    }
    if profile_b.prologue_bytes < MIN_TRANSFER_FOR_PIPELINING {
        return PipelineOverlap::no_overlap("Prologue too small for pipelining");
    }
    let stored: HashSet<TensorId> = ids::set_of(profile_a.epilogue_tensors.as_slice());
    let mut i: usize = 0;
    while i < profile_b.prologue_tensors.len()
        invariant
            i <= profile_b.prologue_tensors.len(),
            hw.dma_capability != DmaCapability::Sequential,
            profile_a.epilogue_bytes >= MIN_TRANSFER_FOR_PIPELINING,
            profile_b.prologue_bytes >= MIN_TRANSFER_FOR_PIPELINING,
            forall|x: usize| #[trigger] stored@.contains(x) <==> profile_a.epilogue_tensors@.contains(x),
            forall|j: int|
                0 <= j < i ==> !profile_a.epilogue_tensors@.contains(#[trigger] profile_b.prologue_tensors@[j]),
        decreases profile_b.prologue_tensors.len() - i,
    {
        if stored.contains(&profile_b.prologue_tensors[i]) {
            assert(profile_a.epilogue_tensors@.contains(profile_b.prologue_tensors@[i as int]));
            return PipelineOverlap::no_overlap("Data dependency between subgraphs");
        }
        i = i + 1;
    }
    let window: i64 = arith::least_of(profile_a.epilogue_bytes, profile_b.prologue_bytes);
    let share: i64 = hw.max_overlap;
    assert(0 <= window * share <= 0x7fff_ffff_ffff_ffff * 100) by (nonlinear_arith)
        requires
            0 <= window <= 0x7fff_ffff_ffff_ffff,
            0 <= share <= 100,
    ;
    let part: i128 = window as i128 * share as i128;
    PipelineOverlap { can_overlap: true, time_saved: part * DMA_CONCURRENCY_PERCENT as i128, no_overlap_reason: None }
}

/// Nothing overlaps that the next group waits for, and what is saved never exceeds the
/// shorter of the two transfers.
pub proof fn overlaps_are_safe(
    overlap: PipelineOverlap,
    first: SubgraphMemoryProfile,
    second: SubgraphMemoryProfile,
    hw: PipelineHardwareProfile,
)
    requires
        overlap.is_of(first, second, hw),
        overlap.can_overlap,
        0 <= hw.max_overlap <= 100,
    ensures
        !depends_on(first, second),
        0 <= overlap.time_saved <= 10_000 * first.epilogue_bytes,
        overlap.time_saved <= 10_000 * second.prologue_bytes,
{
    let window = arith::least(first.epilogue_bytes as int, second.prologue_bytes as int);
    let share = hw.max_overlap as int;
    assert(0 <= window * share * 85 <= 10_000 * window) by (nonlinear_arith)
        requires
            window >= 0,
            0 <= share <= 100,
    ;
}

/// The settings of the pipelining.
#[derive(Debug, Clone, Copy)]
pub struct PipelineConfig {
    pub enabled: bool,
    /// What is known of the transfers, `None` to go by the problem.
    pub hw_profile: Option<PipelineHardwareProfile>,
    /// The least saving that counts, in cycles.
    pub min_savings_threshold: i64,
}

impl Default for PipelineConfig {
    fn default() -> (config: Self)
        ensures
            config.enabled,
            config.hw_profile is None,
            config.min_savings_threshold == 10,
    {
        PipelineConfig { enabled: true, hw_profile: None, min_savings_threshold: 10 }
    }
}

/// What overlapping neighbouring groups brings in all.
#[derive(Debug)]
pub struct PipelinePlan {
    /// The time saved, in ten thousandths of what transferring one byte takes, as far as
    /// an `i128` can tell.
    pub time_saved: i128,
    /// The number of neighbours whose overlap counts.
    pub pipelined_pairs: usize,
    /// What overlapping each group with the next brings.
    pub overlaps: Vec<PipelineOverlap>,
}

/// A saving in ten thousandths of what transferring one byte takes is at least the
/// threshold, at a speed of `bandwidth` bytes per cycle. Without speed any saving is endless.
pub open spec fn is_worthwhile(saved: int, threshold: int, bandwidth: int) -> bool {
    if bandwidth > 0 {
        saved >= threshold * (10_000 * bandwidth)
    } else if bandwidth == 0 {
        saved > 0
    } else {
        saved <= threshold * (10_000 * bandwidth)
    }
}

/// The saving is possible and worthwhile.
pub open spec fn counts(overlap: PipelineOverlap, threshold: int, bandwidth: int) -> bool {
    overlap.can_overlap && is_worthwhile(overlap.time_saved as int, threshold, bandwidth)
}

/// Whether a saving is at least the threshold.
fn check_worthwhile(saved: i128, threshold: i64, bandwidth: i64) -> (yes: bool)
    requires
        0 <= saved <= 0x7fff_ffff_ffff_ffff * 8500,
    ensures
        yes == is_worthwhile(saved as int, threshold as int, bandwidth as int),
{
    let unit: i128 = 10_000 * bandwidth as i128;
    let least: i128 = threshold as i128;
    if bandwidth > 0 {
        assert(saved >= least * unit <==> saved as int / unit as int >= least) by (nonlinear_arith)
            requires
                saved >= 0,
                unit > 0,
        ;
        saved / unit >= least
    } else if bandwidth == 0 {
        saved > 0
    } else {
        let size: i128 = -unit;
        let most: i128 = -least;
        assert(saved <= least * unit <==> (saved + size - 1) / size as int <= most) by (nonlinear_arith)
            requires
                saved >= 0,
                size > 0,
                size == -unit,
                most == -least,
        ;
        (saved + size - 1) / size <= most
    }
}

/// What is saved by those of the first `k` overlaps that count.
pub open spec fn total_saving(overlaps: Seq<PipelineOverlap>, threshold: int, bandwidth: int, k: nat) -> int
    decreases k,
{
    if k == 0 {
        0
    } else {
        total_saving(overlaps, threshold, bandwidth, (k - 1) as nat) + if counts(overlaps[k - 1], threshold, bandwidth) {
            overlaps[k - 1].time_saved as int
        } else {
            0
        }
    }
}

/// How many of the first `k` overlaps count.
pub open spec fn pair_count(overlaps: Seq<PipelineOverlap>, threshold: int, bandwidth: int, k: nat) -> nat
    decreases k,
{
    if k == 0 {
        0
    } else {
        pair_count(overlaps, threshold, bandwidth, (k - 1) as nat) + if counts(overlaps[k - 1], threshold, bandwidth) {
            1nat
        } else {
            0nat
        }
    }
}

/// This is the overlap of group `i` with the next; without both profiles there is none.
pub open spec fn is_overlap_at(
    overlap: PipelineOverlap,
    profiles: Seq<SubgraphMemoryProfile>,
    hw: PipelineHardwareProfile,
    i: int,
) -> bool {
    if i + 1 < profiles.len() {
        overlap.is_of(profiles[i], profiles[i + 1], hw)
    } else {
        &&& !overlap.can_overlap
        &&& overlap.time_saved == 0
        &&& overlap.no_overlap_reason is Some
        &&& overlap.no_overlap_reason->0@ == "Missing profile"@
    }
}

/// Adds up what overlapping each of `n` groups with the next brings.
pub fn plan_pipeline(n: usize, profiles: &[SubgraphMemoryProfile], config: &PipelineConfig, problem: &Problem) -> (plan:
    PipelinePlan)
    requires
        config.hw_profile matches Some(hw) ==> 0 <= hw.max_overlap <= 100,
    ensures
        if !config.enabled || n <= 1 {
            plan.time_saved == 0 && plan.pipelined_pairs == 0 && plan.overlaps@.len() == 0
        } else {
            exists|hw: PipelineHardwareProfile|
                {
                    &&& match config.hw_profile {
                        Some(known) => hw == known,
                        None => hw.max_overlap == if problem.fast_memory_capacity >= 500_000 {
                            70
                        } else if problem.fast_memory_capacity >= 100_000 {
                            56
                        } else {
                            35int
                        } && hw.dma_capability != DmaCapability::Sequential,
                    }
                    &&& plan.overlaps@.len() == n - 1
                    &&& forall|i: int|
                        0 <= i < n - 1 ==> #[trigger] is_overlap_at(plan.overlaps@[i], profiles@, hw, i)
                }
        },
        plan.time_saved == arith::saturated(
            total_saving(
                plan.overlaps@,
                config.min_savings_threshold as int,
                problem.slow_memory_bandwidth as int,
                plan.overlaps@.len(),
            ),
        ),
        plan.pipelined_pairs == pair_count(
            plan.overlaps@,
            config.min_savings_threshold as int,
            problem.slow_memory_bandwidth as int,
            plan.overlaps@.len(),
        ),
{
    let mut overlaps: Vec<PipelineOverlap> = Vec::new();
    if !config.enabled || n <= 1 {
        return PipelinePlan { time_saved: 0, pipelined_pairs: 0, overlaps };
    }
    let hw: PipelineHardwareProfile = match config.hw_profile {
        Some(known) => known,
        None => PipelineHardwareProfile::from_problem(problem),
    };
    let ghost threshold = config.min_savings_threshold as int;
    let ghost bandwidth = problem.slow_memory_bandwidth as int;
    let mut time_saved: i128 = 0;
    let mut pipelined_pairs: usize = 0;
    let mut i: usize = 0;
    while i < n - 1
        invariant
            1 < n,
            i <= n - 1,
            0 <= hw.max_overlap <= 100,
            threshold == config.min_savings_threshold,
            bandwidth == problem.slow_memory_bandwidth,
            overlaps.len() == i,
            pipelined_pairs <= i,
            time_saved == arith::saturated(total_saving(overlaps@, threshold, bandwidth, i as nat)),
            total_saving(overlaps@, threshold, bandwidth, i as nat) >= 0,
            pipelined_pairs == pair_count(overlaps@, threshold, bandwidth, i as nat),
            forall|j: int| 0 <= j < i ==> #[trigger] is_overlap_at(overlaps@[j], profiles@, hw, j),
        decreases n - 1 - i,
    {
        let overlap: PipelineOverlap = if i + 1 < profiles.len() {
            analyze_pipeline_overlap(&profiles[i], &profiles[i + 1], &hw)
        } else {
            PipelineOverlap::no_overlap("Missing profile")
        };
        assert(is_overlap_at(overlap, profiles@, hw, i as int));
        assert(0 <= overlap.time_saved <= 0x7fff_ffff_ffff_ffff * 8500) by {
            if i + 1 < profiles@.len() && overlap.can_overlap {
                let window = arith::least(
                    profiles@[i as int].epilogue_bytes as int,
                    profiles@[i + 1].prologue_bytes as int,
                );
                let share = hw.max_overlap as int;
                assert(0 <= window * share * 85 <= 8500 * window) by (nonlinear_arith)
                    requires
                        window >= 0,
                        0 <= share <= 100,
                ;
            }
        }
        if overlap.can_overlap && check_worthwhile(
            overlap.time_saved,
            config.min_savings_threshold,
            problem.slow_memory_bandwidth,
        ) {
            time_saved = if time_saved > i128::MAX - overlap.time_saved {
                i128::MAX
            } else {
                time_saved + overlap.time_saved
            };
            pipelined_pairs = pipelined_pairs + 1;
        }
        let ghost before = overlaps@;
        overlaps.push(overlap);
        proof {
            lemma_prefix(before, overlaps@, threshold, bandwidth, i as nat);
            assert forall|j: int| 0 <= j < i + 1 implies #[trigger] is_overlap_at(overlaps@[j], profiles@, hw, j) by {
                if j < i {
                    assert(overlaps@[j] == before[j]);
                }
            }
        }
        i = i + 1;
    }
    PipelinePlan { time_saved, pipelined_pairs, overlaps }
}

proof fn lemma_prefix(a: Seq<PipelineOverlap>, b: Seq<PipelineOverlap>, threshold: int, bandwidth: int, k: nat)
    requires
        k <= a.len(),
        k <= b.len(),
        forall|i: int| 0 <= i < k ==> a[i] == b[i],
    ensures
        total_saving(a, threshold, bandwidth, k) == total_saving(b, threshold, bandwidth, k),
        pair_count(a, threshold, bandwidth, k) == pair_count(b, threshold, bandwidth, k),
    decreases k,
{
    if k > 0 {
        lemma_prefix(a, b, threshold, bandwidth, (k - 1) as nat);
    }
}

/// The tensors that the first `k` groups keep in fast memory.
pub open spec fn kept_by(subgraphs: Seq<Subgraph>, k: nat) -> Set<TensorId>
    decreases k,
{
    if k == 0 {
        Set::empty()
    } else {
        kept_by(subgraphs, (k - 1) as nat).union(subgraphs[k - 1].tensors_to_retain@.to_set())
    }
}

/// The profile of group `i` can be made.
pub open spec fn profile_fits_at(p: Problem, meta: Seq<TensorMeta>, subgraphs: Seq<Subgraph>, i: int) -> bool {
    profile_fits(p, meta, subgraphs[i].ops@, subgraphs[i].tensors_to_retain@, kept_by(subgraphs, i as nat))
}

/// Finds what each group loads and stores, when what earlier groups keep is in fast memory.
pub fn build_subgraph_profiles(subgraphs: &[Subgraph], problem: &Problem, tensor_meta: &[TensorMeta]) -> (profiles: Vec<
    SubgraphMemoryProfile,
>)
    requires
        forall|i: int|
            0 <= i < subgraphs@.len() ==> #[trigger] profile_fits_at(*problem, tensor_meta@, subgraphs@, i),
    ensures
        profiles@.len() == subgraphs@.len(),
        forall|i: int|
            0 <= i < profiles@.len() ==> (#[trigger] profiles@[i]).is_of(
                *problem,
                tensor_meta@,
                subgraphs@[i].ops@,
                subgraphs@[i].tensors_to_retain@,
                kept_by(subgraphs@, i as nat),
            ),
{
    broadcast use vstd::std_specs::hash::group_hash_axioms;

    let mut profiles: Vec<SubgraphMemoryProfile> = Vec::new();
    let mut resident: HashSet<TensorId> = HashSet::new();
    let mut i: usize = 0;
    while i < subgraphs.len()
        invariant
            i <= subgraphs@.len(),
            forall|i: int|
                0 <= i < subgraphs@.len() ==> #[trigger] profile_fits_at(*problem, tensor_meta@, subgraphs@, i),
            resident@ == kept_by(subgraphs@, i as nat),
            profiles@.len() == i,
            forall|j: int|
                0 <= j < i ==> (#[trigger] profiles@[j]).is_of(
                    *problem,
                    tensor_meta@,
                    subgraphs@[j].ops@,
                    subgraphs@[j].tensors_to_retain@,
                    kept_by(subgraphs@, j as nat),
                ),
        decreases subgraphs@.len() - i,
    {
        let sg: &Subgraph = &subgraphs[i];
        assert(profile_fits_at(*problem, tensor_meta@, subgraphs@, i as int));
        let granularity: Granularity = Granularity {
            width: sg.granularity.w,
            height: sg.granularity.h,
            depth: match sg.granularity.k {
                Some(k) => k,
                None => 1,
            },
        };
        let profile: SubgraphMemoryProfile = SubgraphMemoryProfile::from_subgraph(
            sg.ops.as_slice(),
            problem,
            &granularity,
            tensor_meta,
            sg.tensors_to_retain.as_slice(),
            &resident,
        );
        profiles.push(profile);
        let ghost before = resident@;
        let ghost kept = sg.tensors_to_retain@;
        let mut j: usize = 0;
        while j < sg.tensors_to_retain.len()
            invariant
                j <= kept.len(),
                kept == sg.tensors_to_retain@,
                resident@ == before.union(kept.take(j as int).to_set()),
            decreases kept.len() - j,
        {
            resident.insert(sg.tensors_to_retain[j]);
            proof {
                assert(kept.take(j + 1) =~= kept.take(j as int).push(kept[j as int]));
                ids::lemma_push_contains(kept.take(j as int), kept[j as int]);
                assert(resident@ =~= before.union(kept.take(j + 1).to_set()));
            }
            j = j + 1;
        }
        assert(kept.take(j as int) =~= kept);
        i = i + 1;
    }
    profiles
}

} // verus!
