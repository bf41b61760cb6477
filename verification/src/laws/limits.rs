//! What limits a group, and the tiles, splits and savings that follow.
use vstd::prelude::*;
use crate::{arith, candidates, ids, memory, optimizer};
use crate::models::{Granularity, Op, OpId, OpType, Problem, TensorId, TensorMeta};
use crate::optimizer::{BottleneckType, ReductionFactor};

verus! {

/// A matrix product of two operands does two operations for each element of its output and
/// each column of its left operand, a pointwise operation two for each element.
pub proof fn operations_work_on_elements(p: Problem, op: Op)
    ensures
        ({
            let work = optimizer::op_flops(p, op);
            let out = p.tensors@[op.outputs@[0] as int];
            &&& op.op_type == OpType::MatMul && op.outputs@.len() > 0 && op.inputs@.len() >= 2 ==> work == 2 * (out.width
                * out.height) * p.tensors@[op.inputs@[0] as int].width
            &&& op.op_type == OpType::Pointwise && op.outputs@.len() > 0 ==> work == 2 * (out.width * out.height)
            &&& op.op_type == OpType::MatMul && (op.outputs@.len() == 0 || op.inputs@.len() < 2) ==> work == 1000
                * op.base_cost
            &&& op.op_type == OpType::Pointwise && op.outputs@.len() == 0 ==> work == op.base_cost
        }),
{
    let out = p.tensors@[op.outputs@[0] as int];
    let lhs = p.tensors@[op.inputs@[0] as int];
    assert(2 * out.height * out.width * lhs.width == 2 * (out.width * out.height) * lhs.width) by (nonlinear_arith);
}

/// The work of a group is that of its operations, added up, as long as numbers suffice.
pub proof fn work_adds_up(p: Problem, group: Seq<OpId>, k: nat)
    requires
        k <= group.len(),
        forall|i: int| 0 <= i < group.len() ==> 0 <= optimizer::op_flops(p, p.ops@[(#[trigger] group[i]) as int]),
        arith::sum(group.map_values(|op: OpId| optimizer::op_flops(p, p.ops@[op as int]))) <= i128::MAX,
    ensures
        optimizer::flops(p, group, k) == arith::sum(
            group.take(k as int).map_values(|op: OpId| optimizer::op_flops(p, p.ops@[op as int])),
        ),
    decreases k,
{
    let f = |op: OpId| optimizer::op_flops(p, p.ops@[op as int]);
    let numbers = group.map_values(f);
    assert forall|i: int| 0 <= i < numbers.len() implies #[trigger] numbers[i] >= 0 by {
        assert(numbers[i] == f(group[i]));
    }
    assert(group.take(k as int).map_values(f) =~= numbers.take(k as int));
    arith::lemma_sum_grows(numbers, k as int);
    if k == 0 {
        assert(numbers.take(0) =~= Seq::<int>::empty());
    } else {
        work_adds_up(p, group, (k - 1) as nat);
        assert(group.take(k - 1).map_values(f) =~= numbers.take(k - 1));
        arith::lemma_sum_step(numbers, k - 1);
        arith::lemma_sum_grows(numbers, k - 1);
        assert(numbers[k - 1] == f(group[k - 1]));
    }
}

/// The traffic of a group is the size of what crosses its border, added up, as long as
/// numbers suffice.
pub proof fn traffic_adds_up(p: Problem, listed: Seq<TensorId>, k: nat)
    requires
        k <= listed.len(),
        forall|i: int| 0 <= i < listed.len() ==> 0 <= p.tensors@[(#[trigger] listed[i]) as int].area(),
        arith::sum(listed.map_values(|t: TensorId| p.tensors@[t as int].width * p.tensors@[t as int].height))
            <= i128::MAX,
    ensures
        optimizer::traffic(p, listed, k) == arith::sum(
            listed.take(k as int).map_values(|t: TensorId| p.tensors@[t as int].width * p.tensors@[t as int].height),
        ),
    decreases k,
{
    let f = |t: TensorId| p.tensors@[t as int].width * p.tensors@[t as int].height;
    let numbers = listed.map_values(f);
    assert forall|i: int| 0 <= i < numbers.len() implies #[trigger] numbers[i] >= 0 by {
        assert(p.tensors@[listed[i] as int].area() >= 0);
        assert(numbers[i] == f(listed[i]));
    }
    assert(listed.take(k as int).map_values(f) =~= numbers.take(k as int));
    arith::lemma_sum_grows(numbers, k as int);
    if k == 0 {
        assert(numbers.take(0) =~= Seq::<int>::empty());
    } else {
        traffic_adds_up(p, listed, (k - 1) as nat);
        assert(listed.take(k - 1).map_values(f) =~= numbers.take(k - 1));
        arith::lemma_sum_step(numbers, k - 1);
        arith::lemma_sum_grows(numbers, k - 1);
        assert(numbers[k - 1] == f(listed[k - 1]));
    }
}

/// The work limits a group if it is more than six fifths of what the memory delivers in
/// the time, the memory if it is less than four fifths; with more work, or less traffic,
/// memory limits no more than before.
pub proof fn work_against_traffic(flops: int, bytes: int, bandwidth: int, more: int)
    requires
        bandwidth > 0,
        bytes > 0,
        flops <= more,
    ensures
        ({
            let kind = optimizer::bottleneck(flops, bytes, bandwidth);
            &&& kind == BottleneckType::ComputeBound <==> 5 * (flops * bandwidth) > 6 * bytes
            &&& kind == BottleneckType::MemoryBound <==> 5 * (flops * bandwidth) < 4 * bytes
            &&& optimizer::bottleneck(more, bytes, bandwidth) == BottleneckType::MemoryBound ==> kind
                == BottleneckType::MemoryBound
            &&& kind == BottleneckType::ComputeBound ==> optimizer::bottleneck(more, bytes, bandwidth)
                == BottleneckType::ComputeBound
        }),
        optimizer::bottleneck(flops, bytes, 0) == BottleneckType::MemoryBound,
        optimizer::bottleneck(flops, 0, bandwidth) == BottleneckType::ComputeBound,
{
    assert(5 * flops * bandwidth == 5 * (flops * bandwidth)) by (nonlinear_arith);
    assert(5 * more * bandwidth == 5 * (more * bandwidth)) by (nonlinear_arith);
    assert(flops * bandwidth <= more * bandwidth) by (nonlinear_arith)
        requires
            flops <= more,
            bandwidth > 0,
    ;
}

/// Tiles are square, and their sides powers of two. Where the work limits, three of them
/// fit in fast memory and three of twice the side would not, unless they are 256 already;
/// where nothing does alone, up to 128; where the memory limits, half the side, but at
/// least 32.
pub proof fn tiles_fill_a_third_of_memory(tile: (i64, i64), capacity: int, kind: BottleneckType)
    requires
        optimizer::is_optimal_tile(tile, capacity, kind),
        capacity >= 3072,
    ensures
        tile.0 == tile.1,
        tile.0 >= 16,
        kind == BottleneckType::ComputeBound ==> tile.0 <= 256 && 3 * (tile.0 * tile.0) <= capacity && (tile.0 < 256
            ==> 3 * ((2 * tile.0) * (2 * tile.0)) > capacity),
        kind == BottleneckType::Balanced ==> tile.0 <= 128 && 3 * (tile.0 * tile.0) <= capacity && (tile.0 < 128 ==> 3 * ((
        2 * tile.0) * (2 * tile.0)) > capacity),
        kind == BottleneckType::MemoryBound && tile.0 > 32 ==> 3 * ((2 * tile.0) * (2 * tile.0)) <= capacity,
        kind == BottleneckType::MemoryBound ==> tile.0 >= 32 && 3 * ((4 * tile.0) * (4 * tile.0)) > capacity,
{
    let (side, aligned) = choose|side: int, aligned: int| #[trigger]
        optimizer::is_side(side, capacity) && #[trigger] optimizer::is_aligned(aligned, side) && tile.0 == tile.1 && tile.0
            == match kind {
            BottleneckType::ComputeBound => arith::least(aligned, 256),
            BottleneckType::MemoryBound => arith::greatest(aligned / 2, 32),
            BottleneckType::Balanced => arith::least(aligned, 128),
        };
    assert(side >= 32) by (nonlinear_arith)
        requires
            capacity >= 3072,
            side >= 0,
            capacity < 3 * ((side + 1) * (side + 1)),
    ;
    assert(aligned <= side < 2 * aligned);
    assert(3 * (aligned * aligned) <= capacity) by (nonlinear_arith)
        requires
            0 <= aligned <= side,
            3 * (side * side) <= capacity,
    ;
    assert(3 * ((2 * aligned) * (2 * aligned)) > capacity) by (nonlinear_arith)
        requires
            0 <= side < 2 * aligned,
            capacity < 3 * ((side + 1) * (side + 1)),
    ;
    let t = tile.0 as int;
    if kind is MemoryBound {
        let half = aligned / 2;
        assert(4 * half >= 2 * aligned - 2);
        lemma_even(aligned);
        assert(3 * ((4 * t) * (4 * t)) > capacity) by (nonlinear_arith)
            requires
                4 * t >= 2 * aligned,
                aligned >= 0,
                3 * ((2 * aligned) * (2 * aligned)) > capacity,
        ;
        if t > 32 {
            assert(3 * ((2 * t) * (2 * t)) <= capacity) by (nonlinear_arith)
                requires
                    0 <= 2 * t <= aligned,
                    3 * (aligned * aligned) <= capacity,
            ;
        }
    } else {
        assert(3 * (t * t) <= capacity) by (nonlinear_arith)
            requires
                0 <= t <= aligned,
                3 * (aligned * aligned) <= capacity,
        ;
    }
}

proof fn lemma_even(n: int)
    requires
        candidates::power_of_two(n),
        n > 1,
    ensures
        n % 2 == 0,
{
    let k = choose|k: nat| n == #[trigger] vstd::arithmetic::power2::pow2(k);
    if k == 0 {
        vstd::arithmetic::power2::lemma2_to64();
    } else {
        vstd::arithmetic::power2::lemma_pow2_unfold(k);
    }
}

/// The inner dimension is cut in 2 for more than a million operations, in 4 for more than
/// ten million, in 8 for more than a hundred million, if so many of the three tiles fit in
/// fast memory at once; else in as many as fit, and nothing is cut where the memory limits.
pub proof fn large_products_are_cut(parts: int, work: int, capacity: int, kind: BottleneckType, tile: (i64, i64))
    requires
        parts == optimizer::split(work, capacity, kind, tile),
        capacity >= 0,
        tile.0 > 0,
        tile.1 > 0,
    ensures
        ({
            let wanted: int = if work > 100_000_000 {
                8
            } else if work > 10_000_000 {
                4
            } else if work > 1_000_000 {
                2
            } else {
                1
            };
            let space = 3 * (tile.0 * tile.1);
            &&& parts >= 1
            &&& kind == BottleneckType::MemoryBound ==> parts == 1
            &&& kind != BottleneckType::MemoryBound && wanted * space <= capacity ==> parts == wanted
            &&& kind != BottleneckType::MemoryBound && wanted * space > capacity ==> parts == 1 || parts * space <= capacity
            &&& kind != BottleneckType::MemoryBound && wanted * space > capacity ==> (parts + 1) * space > capacity
        }),
{
    let wanted = optimizer::parts_for(work);
    let area = tile.0 * tile.1;
    let space = tile.0 * tile.1 * 3;
    assert(area > 0) by (nonlinear_arith)
        requires
            area == tile.0 * tile.1,
            tile.0 > 0,
            tile.1 > 0,
    ;
    assert(space <= capacity / wanted <==> wanted * space <= capacity) by (nonlinear_arith)
        requires
            wanted >= 1,
            capacity >= 0,
    ;
    let fit = capacity / space;
    assert(fit >= 0 && fit * space <= capacity < (fit + 1) * space) by (nonlinear_arith)
        requires
            fit == capacity / space,
            space > 0,
            capacity >= 0,
    ;
    assert((fit + 2) * space > capacity) by (nonlinear_arith)
        requires
            capacity < (fit + 1) * space,
            space > 0,
    ;
    if !(kind is MemoryBound) && wanted * space > capacity {
        assert(parts == arith::greatest(fit, 1));
        if fit < 1 {
            assert(fit == 0);
            assert((1 + 1) * space > capacity);
        }
    }
}

/// Only matrix products count for a cut: each adds two operations for each element of its
/// output and each column of its left operand, as long as numbers suffice.
pub proof fn only_products_count_for_a_cut(p: Problem, group: Seq<OpId>, k: nat)
    requires
        0 < k <= group.len(),
    ensures
        ({
            let op = p.ops@[group[k - 1] as int];
            let before = optimizer::matmul_flops(p, group, (k - 1) as nat);
            let after = optimizer::matmul_flops(p, group, k);
            let out = p.tensors@[op.outputs@[0] as int];
            let work = 2 * (out.width * out.height) * p.tensors@[op.inputs@[0] as int].width;
            let counts = op.op_type == OpType::MatMul && op.outputs@.len() > 0 && op.inputs@.len() > 0;
            &&& optimizer::matmul_flops(p, group, 0) == 0
            &&& !counts ==> after == before
            &&& counts && i128::MIN <= work <= i128::MAX && i128::MIN <= before + work <= i128::MAX ==> after == before + work
        }),
{
    let op = p.ops@[group[k - 1] as int];
    let out = p.tensors@[op.outputs@[0] as int];
    let lhs = p.tensors@[op.inputs@[0] as int];
    assert(2 * out.height * out.width * lhs.width == 2 * (out.width * out.height) * lhs.width) by (nonlinear_arith);
}

/// What a group gets by with. Of 100 parts, 65 are saved for each of its described outputs
/// that nothing outside needs; 15 less 30 over the number of blocks of eight along both
/// sides of the tile are saved by reuse; 5 if the sides are multiples of 16, or 2 if of 8.
pub proof fn fusion_reuse_and_alignment_save(
    r: ReductionFactor,
    p: Problem,
    group: Seq<OpId>,
    meta: Seq<TensorMeta>,
    g: Granularity,
)
    requires
        optimizer::is_reduction(r, p, group, meta, g),
        g.width >= 8,
        g.height >= 8,
    ensures
        ({
            let outs = candidates::outputs(p, group);
            let all = outs.filter(|t: TensorId| t < meta.len()).len();
            let inner = outs.filter(
                |t: TensorId|
                    t < meta.len() && !meta[t as int].is_output && forall|c: int|
                        0 <= c < meta[t as int].consumers@.len() ==> group.contains(
                            #[trigger] meta[t as int].consumers@[c],
                        ),
            ).len();
            let blocks = g.width as int / 8 + g.height as int / 8;
            &&& all == 0 ==> r.fusion.numerator == r.fusion.denominator
            &&& all > 0 ==> r.fusion.denominator == 100 * all && r.fusion.denominator - r.fusion.numerator == 65 * inner
            &&& r.register.denominator == 100 * blocks
            &&& r.register.denominator - r.register.numerator == 15 * blocks - 30
            &&& r.vectorization == 95 <==> g.width % 16 == 0 && g.height % 16 == 0
            &&& r.vectorization <= 98 <==> g.width % 8 == 0 && g.height % 8 == 0
            &&& r.vectorization == 95 || r.vectorization == 98 || r.vectorization == 100
        }),
{
    let outs = candidates::outputs(p, group);
    crate::laws::costs::described_tensors_are_counted(meta, outs, outs.len());
    crate::laws::costs::inner_tensors_are_counted(meta, group, outs, outs.len());
    assert(outs.take(outs.len() as int) =~= outs);
}

/// The part of the traffic that shows: 2 hundredths where the work limits, 15 where nothing
/// does alone, 40 where the memory does. Tiles of 4096 units or more hide 5 hundredths of it, of 16384
/// or more 10; two operations or more 5, five or more 10, ten or more 15.
pub proof fn large_tiles_and_groups_hide_traffic(kind: BottleneckType, size: int, len: int)
    ensures
        optimizer::shown_percent(kind) == 2 <==> kind == BottleneckType::ComputeBound,
        optimizer::shown_percent(kind) == 15 <==> kind == BottleneckType::Balanced,
        optimizer::shown_percent(kind) == 40 <==> kind == BottleneckType::MemoryBound,
        optimizer::tile_percent(size) <= 90 <==> size >= 16_384,
        optimizer::tile_percent(size) <= 95 <==> size >= 4096,
        optimizer::tile_percent(size) == 90 || optimizer::tile_percent(size) == 95 || optimizer::tile_percent(size) == 100,
        optimizer::group_percent(len) <= 85 <==> len >= 10,
        optimizer::group_percent(len) <= 90 <==> len >= 5,
        optimizer::group_percent(len) <= 95 <==> len >= 2,
        optimizer::group_percent(len) == 85 || optimizer::group_percent(len) == 90 || optimizer::group_percent(len) == 95
            || optimizer::group_percent(len) == 100,
{
}

/// What crosses the border of a group: what its operations take in and none of them
/// makes, and what they put out and others or the graph's results need.
pub proof fn traffic_crosses_the_border(p: Problem, group: Seq<OpId>, meta: Seq<TensorMeta>, t: TensorId)
    ensures
        optimizer::crossing(p, group, meta).contains(t) <==> t < meta.len() && ({
            ||| (exists|i: int, j: int|
                #![trigger p.ops@[group[i] as int].inputs@[j]]
                0 <= i < group.len() && 0 <= j < p.ops@[group[i] as int].inputs@.len() && p.ops@[group[i] as int].inputs@[j]
                    == t) && (meta[t as int].producer is None || !group.contains(meta[t as int].producer->0))
            ||| (exists|i: int, j: int|
                #![trigger p.ops@[group[i] as int].outputs@[j]]
                0 <= i < group.len() && 0 <= j < p.ops@[group[i] as int].outputs@.len()
                    && p.ops@[group[i] as int].outputs@[j] == t) && (meta[t as int].is_output || exists|c: int|
                0 <= c < meta[t as int].consumers@.len() && !group.contains(#[trigger] meta[t as int].consumers@[c]))
        }),
{
    let ins = memory::inputs_of(group, p.ops@, group.len());
    let outs = memory::outputs_of(group, p.ops@, group.len());
    memory::lemma_inputs_of(group, p.ops@, group.len());
    memory::lemma_outputs_of(group, p.ops@, group.len());
    assert(ins.take(ins.len() as int) =~= ins);
    assert(outs.take(outs.len() as int) =~= outs);
    ids::lemma_first_mentions(ins, |t: usize| t < meta.len() && memory::from_outside(group, meta[t as int]), ins.len());
    ids::lemma_first_mentions(
        outs,
        |t: usize| t < meta.len() && memory::needed_outside(group, meta[t as int]),
        outs.len(),
    );
    ids::lemma_concat_contains(
        memory::external_inputs(group, p, meta),
        memory::external_outputs(group, p, meta),
        t,
    );
    let needed = meta[t as int].is_output || exists|c: int|
        0 <= c < meta[t as int].consumers@.len() && !group.contains(#[trigger] meta[t as int].consumers@[c]);
    assert(needed == memory::needed_outside(group, meta[t as int]));
}

} // verus!
