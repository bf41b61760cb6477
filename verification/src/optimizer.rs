//! What limits a group of operations, and the tiles and splits that follow from it.
use vstd::prelude::*;
use crate::arith;
use crate::candidates;
use crate::cost;
use crate::cost::Fraction;
use crate::memory;
use crate::memory::Border;
use crate::models::{Granularity, Op, OpId, OpType, Problem, Tensor, TensorId, TensorMeta};

verus! {

/// What limits a group of operations.
#[derive(Debug, Clone, Copy, PartialEq, Eq, Structural)]
pub enum BottleneckType {
    /// The operations themselves.
    ComputeBound,
    /// The memory.
    MemoryBound,
    /// Both alike.
    Balanced,
}

/// The work of a group of operations and the memory traffic that it causes.
#[derive(Debug, Clone, Copy)]
pub struct ArithmeticIntensity {
    /// The number of elementary operations.
    pub flops: i128,
    /// The number of elements that cross the border of the group.
    pub bytes: i128,
    pub bottleneck: BottleneckType,
}

/// The work of one operation: two for each product or element; operations without the
/// tensors to tell it by go by their cost.
pub open spec fn op_flops(p: Problem, op: Op) -> int {
    match op.op_type {
        OpType::MatMul => if op.outputs@.len() > 0 && op.inputs@.len() > 1 {
            let out = p.tensors@[op.outputs@[0] as int];
            let lhs = p.tensors@[op.inputs@[0] as int];
            2 * out.height * out.width * lhs.width
        } else {
            1000 * op.base_cost
        },
        OpType::Pointwise => if op.outputs@.len() > 0 {
            2 * p.tensors@[op.outputs@[0] as int].area()
        } else {
            op.base_cost as int
        },
    }
}

/// The work of the first `k` operations of the group, as far as an `i128` can tell.
pub open spec fn flops(p: Problem, group: Seq<OpId>, k: nat) -> int
    decreases k,
{
    if k == 0 {
        0
    } else {
        arith::saturated(
            flops(p, group, (k - 1) as nat) + arith::saturated(op_flops(p, p.ops@[group[k - 1] as int])),
        )
    }
}

/// The elements of the first `k` listed tensors, as far as an `i128` can tell.
pub open spec fn traffic(p: Problem, listed: Seq<TensorId>, k: nat) -> int
    decreases k,
{
    if k == 0 {
        0
    } else {
        arith::saturated(traffic(p, listed, (k - 1) as nat) + p.tensors@[listed[k - 1] as int].area())
    }
}

/// The tensors that cross the border of the group: what comes in, then what goes out.
pub open spec fn crossing(p: Problem, group: Seq<OpId>, meta: Seq<TensorMeta>) -> Seq<TensorId> {
    memory::external_inputs(group, p, meta) + memory::external_outputs(group, p, meta)
}

/// What limits so much work on so much traffic: the group is at the ridge where the work
/// per element is the reciprocal of the bandwidth, give or take a fifth.
pub open spec fn bottleneck(flops: int, bytes: int, bandwidth: int) -> BottleneckType {
    let signed = if bandwidth > 0 { bytes } else { -bytes };
    if bandwidth == 0 {
        BottleneckType::MemoryBound
    } else if bytes <= 0 {
        BottleneckType::ComputeBound
    } else if 5 * flops * arith::magnitude(bandwidth) > 6 * signed {
        BottleneckType::ComputeBound
    } else if 5 * flops * arith::magnitude(bandwidth) < 4 * signed {
        BottleneckType::MemoryBound
    } else {
        BottleneckType::Balanced
    }
}

/// The operations and tensors that the analysis reads exist, and sizes fit.
pub open spec fn readable(p: Problem, group: Seq<OpId>, meta: Seq<TensorMeta>) -> bool {
    &&& memory::ids_in_range(group, p, meta)
    &&& forall|i: int|
        0 <= i < group.len() ==> {
            let op = p.ops@[(#[trigger] group[i]) as int];
            match op.op_type {
                OpType::MatMul => op.outputs@.len() > 0 && op.inputs@.len() > 1 ==> op.inputs@[0] < p.tensors@.len(),
                OpType::Pointwise => op.outputs@.len() > 0 ==> arith::fits(p.tensors@[op.outputs@[0] as int].area()),
            }
        }
    &&& forall|i: int|
        0 <= i < crossing(p, group, meta).len() ==> arith::fits(
            p.tensors@[(#[trigger] crossing(p, group, meta)[i]) as int].area(),
        )
}

fn count_op_flops(problem: &Problem, op: &Op) -> (work: i128)
    requires
        op.outputs@.len() > 0 ==> op.outputs@[0] < problem.tensors@.len(),
        op.op_type is MatMul && op.outputs@.len() > 0 && op.inputs@.len() > 1 ==> op.inputs@[0] < problem.tensors@.len(),
        op.op_type is Pointwise && op.outputs@.len() > 0 ==> arith::fits(
            problem.tensors@[op.outputs@[0] as int].area(),
        ),
    ensures
        work == arith::saturated(op_flops(*problem, *op)),
{
    match op.op_type {
        OpType::MatMul => {
            if op.outputs.len() > 0 && op.inputs.len() > 1 {
                let out: &Tensor = &problem.tensors[op.outputs[0]];
                let lhs: &Tensor = &problem.tensors[op.inputs[0]];
                arith::saturating_double_product(out.height, out.width, lhs.width)
            } else {
                1000 * op.base_cost as i128
            }
        },
        OpType::Pointwise => {
            if op.outputs.len() > 0 {
                2 * problem.tensors[op.outputs[0]].size() as i128
            } else {
                op.base_cost as i128
            }
        },
    }
}

/// Tells what limits so much work on so much traffic.
pub fn classify_bottleneck(flops: i128, bytes: i128, bandwidth: i64) -> (kind: BottleneckType)
    ensures
        kind == bottleneck(flops as int, bytes as int, bandwidth as int),
{
    if bandwidth == 0 {
        return BottleneckType::MemoryBound;
    }
    if bytes <= 0 {
        return BottleneckType::ComputeBound;
    }
    let width: u128 = if bandwidth < 0 {
        (-(bandwidth as i128)) as u128
    } else {
        bandwidth as u128
    };
    let unit: u128 = 5 * width;
    let amount: u128 = bytes as u128;
    let ghost f = flops as int;
    let ghost w = width as int;
    let ghost u = unit as int;
    let work: u128 = if flops >= 0 {
        flops as u128
    } else if flops == i128::MIN {
        0x8000_0000_0000_0000_0000_0000_0000_0000
    } else {
        (-flops) as u128
    };
    let ghost m = work as int;
    assert(5 * f * w == if f >= 0 { m * u } else { -(m * u) } && m * u >= 0) by (nonlinear_arith)
        requires
            u == 5 * w,
            w >= 0,
            m == if f >= 0 { f } else { -f },
    ;
    if bandwidth > 0 {
        if flops < 0 {
            return BottleneckType::MemoryBound;
        }
        if work > floor_multiple(6, amount, unit) {
            BottleneckType::ComputeBound
        } else if work < ceiling_multiple(4, amount, unit) {
            BottleneckType::MemoryBound
        } else {
            BottleneckType::Balanced
        }
    } else {
        if flops >= 0 {
            return BottleneckType::ComputeBound;
        }
        if work < ceiling_multiple(6, amount, unit) {
            BottleneckType::ComputeBound
        } else if work > floor_multiple(4, amount, unit) {
            BottleneckType::MemoryBound
        } else {
            BottleneckType::Balanced
        }
    }
}

/// The largest number of units within a multiple of an amount.
fn floor_multiple(times: u128, amount: u128, unit: u128) -> (n: u128)
    requires
        times <= 6,
        amount <= 0x7fff_ffff_ffff_ffff_ffff_ffff_ffff_ffff,
        5 <= unit <= 0x8000_0000_0000_0000 * 5,
    ensures
        forall|x: int| (#[trigger] (x * unit) > times * amount) <==> x > n,
{
    let whole: u128 = amount / unit;
    let rest: u128 = amount % unit;
    let ghost t = times as int;
    let ghost a = amount as int;
    let ghost u = unit as int;
    let ghost q = whole as int;
    let ghost r = rest as int;
    assert(a == q * u + r && 0 <= r < u && 0 <= q && 5 * q <= a) by (nonlinear_arith)
        requires
            q == a / u,
            r == a % u,
            u >= 5,
            a >= 0,
    ;
    assert(0 <= t * q <= 6 * q && 0 <= t * r <= 6 * r) by (nonlinear_arith)
        requires
            0 <= t <= 6,
            q >= 0,
            r >= 0,
    ;
    let part: u128 = times * rest / unit;
    assert(part <= 6) by (nonlinear_arith)
        requires
            part == (t * r) / u,
            t * r <= 6 * r,
            0 <= r < u,
            t * r >= 0,
    ;
    let n: u128 = times * whole + part;
    assert forall|x: int| (#[trigger] (x * unit) > times * amount) <==> x > n by {
        lemma_floor_multiple(x, t, a, u, q, r);
    }
    n
}

proof fn lemma_floor_multiple(x: int, t: int, a: int, u: int, q: int, r: int)
    requires
        a == q * u + r,
        u > 0,
    ensures
        x * u > t * a <==> x > t * q + (t * r) / u,
        x * u < t * a <==> x < t * q + (t * r + u - 1) / u,
{
    assert(t * a == (t * q) * u + t * r) by (nonlinear_arith)
        requires
            a == q * u + r,
    ;
    let y = x - t * q;
    assert(y * u == x * u - (t * q) * u) by (nonlinear_arith)
        requires
            y == x - t * q,
    ;
    let s = t * r;
    assert(y * u > s <==> y > s / u) by (nonlinear_arith)
        requires
            u > 0,
    ;
    assert(y * u < s <==> y < (s + u - 1) / u) by (nonlinear_arith)
        requires
            u > 0,
    ;
}

/// The smallest number of units that cover a multiple of an amount.
fn ceiling_multiple(times: u128, amount: u128, unit: u128) -> (n: u128)
    requires
        times <= 6,
        amount <= 0x7fff_ffff_ffff_ffff_ffff_ffff_ffff_ffff,
        5 <= unit <= 0x8000_0000_0000_0000 * 5,
    ensures
        forall|x: int| (#[trigger] (x * unit) < times * amount) <==> x < n,
{
    let whole: u128 = amount / unit;
    let rest: u128 = amount % unit;
    let ghost t = times as int;
    let ghost a = amount as int;
    let ghost u = unit as int;
    let ghost q = whole as int;
    let ghost r = rest as int;
    assert(a == q * u + r && 0 <= r < u && 0 <= q && 5 * q <= a) by (nonlinear_arith)
        requires
            q == a / u,
            r == a % u,
            u >= 5,
            a >= 0,
    ;
    assert(0 <= t * q <= 6 * q && 0 <= t * r <= 6 * r) by (nonlinear_arith)
        requires
            0 <= t <= 6,
            q >= 0,
            r >= 0,
    ;
    let part: u128 = (times * rest + unit - 1) / unit;
    assert(part <= 7) by (nonlinear_arith)
        requires
            part == (t * r + u - 1) / u,
            t * r <= 6 * r,
            0 <= r < u,
            t * r >= 0,
    ;
    let n: u128 = times * whole + part;
    assert forall|x: int| (#[trigger] (x * unit) < times * amount) <==> x < n by {
        lemma_floor_multiple(x, t, a, u, q, r);
    }
    n
}

/// Measures the work of the group and the traffic that it causes, and tells which of them
/// limits it.
pub fn compute_arithmetic_intensity(ops: &[OpId], problem: &Problem, tensor_meta: &[TensorMeta]) -> (intensity:
    ArithmeticIntensity)
    requires
        readable(*problem, ops@, tensor_meta@),
    ensures
        is_intensity(intensity, *problem, ops@, tensor_meta@),
{
    let ghost group = ops@;
    let ghost meta = tensor_meta@;
    let mut work: i128 = 0;
    let mut i: usize = 0;
    while i < ops.len()
        invariant
            i <= group.len(),
            group == ops@,
            meta == tensor_meta@,
            readable(*problem, group, meta),
            work == flops(*problem, group, i as nat),
        decreases group.len() - i,
    {
        assert(group[i as int] < problem.ops@.len());
        let op: &Op = &problem.ops[ops[i]];
        proof {
            if op.outputs@.len() > 0 {
                assert(problem.ops@[group[i as int] as int].outputs@[0] < problem.tensors@.len());
            }
        }
        work = arith::saturating_sum(work, count_op_flops(problem, op));
        i = i + 1;
    }
    let mut border: Border = memory::find_border(ops, problem, tensor_meta);
    let mut listed: Vec<TensorId> = Vec::new();
    listed.append(&mut border.inputs);
    listed.append(&mut border.outputs);
    assert(listed@ =~= crossing(*problem, group, meta));
    proof {
        lemma_crossing_exists(*problem, group, meta);
    }
    let mut bytes: i128 = 0;
    let mut k: usize = 0;
    while k < listed.len()
        invariant
            k <= listed@.len(),
            forall|i: int|
                0 <= i < listed@.len() ==> (#[trigger] listed@[i]) < problem.tensors@.len() && arith::fits(
                    problem.tensors@[listed@[i] as int].area(),
                ),
            bytes == traffic(*problem, listed@, k as nat),
        decreases listed@.len() - k,
    {
        let t: TensorId = listed[k];
        assert(listed@[k as int] < problem.tensors@.len());
        bytes = arith::saturating_sum(bytes, problem.tensors[t].size() as i128);
        k = k + 1;
    }
    let kind: BottleneckType = classify_bottleneck(work, bytes, problem.slow_memory_bandwidth);
    ArithmeticIntensity { flops: work, bytes, bottleneck: kind }
}

/// The intensity is that of the group.
pub open spec fn is_intensity(
    intensity: ArithmeticIntensity,
    p: Problem,
    group: Seq<OpId>,
    meta: Seq<TensorMeta>,
) -> bool {
    let listed = crossing(p, group, meta);
    &&& intensity.flops == flops(p, group, group.len())
    &&& intensity.bytes == traffic(p, listed, listed.len())
    &&& intensity.bottleneck == bottleneck(
        intensity.flops as int,
        intensity.bytes as int,
        p.slow_memory_bandwidth as int,
    )
}

proof fn lemma_crossing_exists(p: Problem, group: Seq<OpId>, meta: Seq<TensorMeta>)
    requires
        memory::ids_in_range(group, p, meta),
    ensures
        forall|i: int|
            0 <= i < crossing(p, group, meta).len() ==> (#[trigger] crossing(p, group, meta)[i]) < p.tensors@.len(),
{
    let all_in = memory::inputs_of(group, p.ops@, group.len());
    let all_out = memory::outputs_of(group, p.ops@, group.len());
    memory::lemma_inputs_of(group, p.ops@, group.len());
    memory::lemma_outputs_of(group, p.ops@, group.len());
    let outside = |t: usize| t < meta.len() && memory::from_outside(group, meta[t as int]);
    let needed = |t: usize| t < meta.len() && memory::needed_outside(group, meta[t as int]);
    crate::ids::lemma_first_mentions(all_in, outside, all_in.len());
    crate::ids::lemma_first_mentions(all_out, needed, all_out.len());
    assert(all_in.take(all_in.len() as int) =~= all_in);
    assert(all_out.take(all_out.len() as int) =~= all_out);
    let ins = memory::external_inputs(group, p, meta);
    let outs = memory::external_outputs(group, p, meta);
    let all = crossing(p, group, meta);
    assert forall|i: int| 0 <= i < all.len() implies (#[trigger] all[i]) < p.tensors@.len() by {
        if i < ins.len() {
            assert(ins.contains(ins[i]));
        } else {
            assert(outs.contains(outs[i - ins.len()]));
        }
    }
}

/// The side of the largest square of which three fit into the memory.
pub open spec fn is_side(side: int, memory: int) -> bool {
    &&& side >= 0
    &&& if memory <= 0 {
        side == 0
    } else {
        3 * (side * side) <= memory < 3 * ((side + 1) * (side + 1))
    }
}

/// Finds the side of the largest square of which three fit into the memory.
pub fn find_side(memory: i64) -> (side: i64)
    ensures
        is_side(side as int, memory as int),
        side <= 0x8000_0000,
{
    if memory <= 0 {
        return 0;
    }
    let mut low: i64 = 0;
    let mut high: i64 = 0x8000_0000;
    while high - low > 1
        invariant
            0 <= low < high <= 0x8000_0000,
            memory > 0,
            3 * (low * low) <= memory < 3 * (high * high),
        decreases high - low,
    {
        let middle: i64 = low + (high - low) / 2;
        assert(0 <= middle * middle <= 0x8000_0000 * 0x8000_0000) by (nonlinear_arith)
            requires
                0 <= middle <= 0x8000_0000,
        ;
        let area: i128 = 3 * (middle as i128 * middle as i128);
        if area <= memory as i128 {
            low = middle;
        } else {
            high = middle;
        }
    }
    low
}

/// The largest power of two up to `n`, but at least 16.
pub open spec fn is_aligned(p: int, n: int) -> bool {
    if n < 32 {
        p == 16
    } else {
        candidates::power_of_two(p) && p <= n < 2 * p
    }
}

/// Finds the largest power of two up to `n`, but at least 16.
pub fn align_to_power_of_2(n: i64) -> (p: i64)
    ensures
        is_aligned(p as int, n as int),
        16 <= p,
        n >= 16 ==> p <= n,
{
    if n < 32 {
        return 16;
    }
    let ghost mut k: nat = 4;
    proof {
        vstd::arithmetic::power2::lemma2_to64();
    }
    let mut p: i64 = 16;
    while p <= n / 2
        invariant
            16 <= p <= n,
            p == vstd::arithmetic::power2::pow2(k),
        decreases n - p,
    {
        proof {
            vstd::arithmetic::power2::lemma_pow2_unfold((k + 1) as nat);
            k = k + 1;
        }
        p = p * 2;
    }
    p
}

/// The tile for what limits the group: up to 256 where the work does, half of what fits where
/// the memory does, up to 128 where both do.
pub open spec fn is_optimal_tile(tile: (i64, i64), memory: int, kind: BottleneckType) -> bool {
    exists|side: int, aligned: int| #[trigger]
        is_side(side, memory) && #[trigger] is_aligned(aligned, side) && tile.0 == tile.1 && tile.0 == match kind {
            BottleneckType::ComputeBound => arith::least(aligned, 256),
            BottleneckType::MemoryBound => arith::greatest(aligned / 2, 32),
            BottleneckType::Balanced => arith::least(aligned, 128),
        }
}

/// Chooses the tile for what limits the group.
pub fn compute_optimal_tile_size(problem: &Problem, intensity: &ArithmeticIntensity) -> (tile: (i64, i64))
    ensures
        is_optimal_tile(tile, problem.fast_memory_capacity as int, intensity.bottleneck),
        16 <= tile.0 <= 0x8000_0000,
        tile.1 == tile.0,
        !(intensity.bottleneck is MemoryBound) ==> tile.0 <= 256,
{
    let side: i64 = find_side(problem.fast_memory_capacity);
    let aligned: i64 = align_to_power_of_2(side);
    let length: i64 = match intensity.bottleneck {
        BottleneckType::ComputeBound => arith::least_of(aligned, 256),
        BottleneckType::MemoryBound => arith::greatest_of(aligned / 2, 32),
        BottleneckType::Balanced => arith::least_of(aligned, 128),
    };
    assert(is_side(side as int, problem.fast_memory_capacity as int));
    assert(is_aligned(aligned as int, side as int));
    (length, length)
}

/// The work of the first `k` operations of the group as far as they are matrix
/// products and an `i128` can tell.
pub open spec fn matmul_flops(p: Problem, group: Seq<OpId>, k: nat) -> int
    decreases k,
{
    if k == 0 {
        0
    } else {
        let rest = matmul_flops(p, group, (k - 1) as nat);
        let op = p.ops@[group[k - 1] as int];
        if op.op_type is MatMul && op.outputs@.len() > 0 && op.inputs@.len() > 0 {
            let out = p.tensors@[op.outputs@[0] as int];
            let lhs = p.tensors@[op.inputs@[0] as int];
            arith::saturated(rest + arith::saturated(2 * out.height * out.width * lhs.width))
        } else {
            rest
        }
    }
}

/// The parts that so much work is split into.
pub open spec fn parts_for(work: int) -> int {
    if work > 100_000_000 {
        8
    } else if work > 10_000_000 {
        4
    } else if work > 1_000_000 {
        2
    } else {
        1
    }
}

/// The number of parts: as many as the work asks for, if so many tiles fit; otherwise as
/// many as fit. Nothing is split where the memory is the limit.
pub open spec fn split(work: int, capacity: int, kind: BottleneckType, tile: (i64, i64)) -> int {
    let space = tile.0 * tile.1 * 3;
    if kind is MemoryBound {
        1
    } else if space <= arith::quotient(capacity, parts_for(work)) {
        parts_for(work)
    } else {
        arith::greatest(arith::quotient(capacity, space), 1)
    }
}

/// Chooses the number of parts into which the inner dimension is split.
pub fn compute_optimal_split_k(
    ops: &[OpId],
    problem: &Problem,
    intensity: &ArithmeticIntensity,
    tile_size: (i64, i64),
) -> (parts: i64)
    requires
        !(intensity.bottleneck is MemoryBound) ==> {
            &&& forall|i: int| 0 <= i < ops@.len() ==> (#[trigger] ops@[i]) < problem.ops@.len()
            &&& forall|i: int|
                0 <= i < ops@.len() ==> {
                    let op = problem.ops@[(#[trigger] ops@[i]) as int];
                    op.op_type is MatMul && op.outputs@.len() > 0 && op.inputs@.len() > 0 ==> op.outputs@[0]
                        < problem.tensors@.len() && op.inputs@[0] < problem.tensors@.len()
                }
            &&& arith::fits(tile_size.0 * tile_size.1)
            &&& arith::fits(tile_size.0 * tile_size.1 * 3)
            &&& tile_size.0 * tile_size.1 == 0 ==> problem.fast_memory_capacity >= 0
        },
    ensures
        parts == split(
            matmul_flops(*problem, ops@, ops@.len()),
            problem.fast_memory_capacity as int,
            intensity.bottleneck,
            tile_size,
        ),
{
    if intensity.bottleneck == BottleneckType::MemoryBound {
        return 1;
    }
    let ghost group = ops@;
    let mut work: i128 = 0;
    let mut i: usize = 0;
    while i < ops.len()
        invariant
            i <= group.len(),
            group == ops@,
            forall|i: int| 0 <= i < group.len() ==> (#[trigger] group[i]) < problem.ops@.len(),
            forall|i: int|
                0 <= i < group.len() ==> {
                    let op = problem.ops@[(#[trigger] group[i]) as int];
                    op.op_type is MatMul && op.outputs@.len() > 0 && op.inputs@.len() > 0 ==> op.outputs@[0]
                        < problem.tensors@.len() && op.inputs@[0] < problem.tensors@.len()
                },
            work == matmul_flops(*problem, group, i as nat),
        decreases group.len() - i,
    {
        assert(group[i as int] < problem.ops@.len());
        let op: &Op = &problem.ops[ops[i]];
        if op.is_matmul() && op.outputs.len() > 0 && op.inputs.len() > 0 {
            let out: &Tensor = &problem.tensors[op.outputs[0]];
            let lhs: &Tensor = &problem.tensors[op.inputs[0]];
            work = arith::saturating_sum(work, arith::saturating_double_product(out.height, out.width, lhs.width));
        }
        i = i + 1;
    }
    let parts: i64 = if work > 100_000_000 {
        8
    } else if work > 10_000_000 {
        4
    } else if work > 1_000_000 {
        2
    } else {
        1
    };
    let space: i64 = tile_size.0 * tile_size.1 * 3;
    let share: i64 = problem.fast_memory_capacity / parts;
    if space <= share {
        parts
    } else {
        arith::greatest_of(divide(problem.fast_memory_capacity, space), 1)
    }
}

fn divide(a: i64, b: i64) -> (q: i64)
    requires
        b != 0,
        b != -1,
    ensures
        q == arith::quotient(a as int, b as int),
{
    let ghost x = arith::magnitude(a as int);
    let ghost y = b as int;
    if b < 0 {
        assert(x / y == -(x / -y)) by (nonlinear_arith)
            requires
                x >= 0,
                y < 0,
        ;
        assert(0 <= x / -y <= 0x4000_0000_0000_0000) by (nonlinear_arith)
            requires
                0 <= x <= 0x8000_0000_0000_0000,
                y <= -2,
        ;
    }
    a / b
}

/// By which part of its cost a group gets by: the product of three parts.
#[derive(Debug, Clone, Copy)]
pub struct ReductionFactor {
    /// What is left as tensors inside the group are not stored.
    pub fusion: Fraction,
    /// What is left by reuse in registers.
    pub register: Fraction,
    /// What is left by vector instructions, in percent.
    pub vectorization: u8,
}

/// The number of blocks of eight along the length; at least one.
pub open spec fn blocks(length: int) -> int {
    arith::greatest(arith::quotient(length, 8), 1)
}

/// The length is a multiple of `n`.
pub open spec fn is_multiple(length: int, n: int) -> bool {
    length % n == 0
}

/// What the group gets by with: up to 65 percent less by fusion, up to 15 percent less by reuse, and a
/// little less where tiles are aligned.
pub open spec fn is_reduction(r: ReductionFactor, p: Problem, group: Seq<OpId>, meta: Seq<TensorMeta>, g: Granularity) -> bool {
    let outs = candidates::outputs(p, group);
    let all = cost::described(meta, outs, outs.len()) as int;
    let inner = cost::ephemeral(meta, group, outs, outs.len()) as int;
    let reuse = blocks(g.width as int) + blocks(g.height as int);
    &&& if all > 0 {
        r.fusion.numerator == 100 * all - 65 * inner && r.fusion.denominator == 100 * all
    } else {
        r.fusion.numerator == 1 && r.fusion.denominator == 1
    }
    &&& r.register.numerator == 85 * reuse + 30
    &&& r.register.denominator == 100 * reuse
    &&& r.vectorization == if is_multiple(g.width as int, 16) && is_multiple(g.height as int, 16) {
        95int
    } else if is_multiple(g.width as int, 8) && is_multiple(g.height as int, 8) {
        98
    } else {
        100
    }
}

fn check_multiple(length: i64, n: i64) -> (yes: bool)
    requires
        n == 8 || n == 16,
    ensures
        yes == is_multiple(length as int, n as int),
{
    length % n == 0
}

fn count_blocks(length: i64) -> (count: i64)
    ensures
        count == blocks(length as int),
        1 <= count <= 0x1000_0000_0000_0000,
{
    arith::greatest_of(length / 8, 1)
}

/// Tells by which part of its cost the group gets by.
pub fn compute_reduction_factor(ops: &[OpId], problem: &Problem, tensor_meta: &[TensorMeta], granularity: &Granularity) -> (factor:
    ReductionFactor)
    requires
        forall|i: int| 0 <= i < ops@.len() ==> (#[trigger] ops@[i]) < problem.ops@.len(),
    ensures
        is_reduction(factor, *problem, ops@, tensor_meta@, *granularity),
{
    let outs: Vec<TensorId> = memory::gather_outputs(ops, problem);
    let (all, inner): (usize, usize) = cost::count_outputs(&outs, ops, tensor_meta);
    let fusion: Fraction = if all > 0 {
        Fraction { numerator: 100 * all as u128 - 65 * inner as u128, denominator: 100 * all as u128 }
    } else {
        Fraction { numerator: 1, denominator: 1 }
    };
    let reuse: u128 = (count_blocks(granularity.width) + count_blocks(granularity.height)) as u128;
    let register: Fraction = Fraction { numerator: 85 * reuse + 30, denominator: 100 * reuse };
    let vectorization: u8 = if check_multiple(granularity.width, 16) && check_multiple(granularity.height, 16) {
        95
    } else if check_multiple(granularity.width, 8) && check_multiple(granularity.height, 8) {
        98
    } else {
        100
    };
    ReductionFactor { fusion, register, vectorization }
}

/// Nothing gets dearer by being fused, reused or aligned.
pub proof fn reductions_never_cost(r: ReductionFactor, p: Problem, group: Seq<OpId>, meta: Seq<TensorMeta>, g: Granularity)
    requires
        is_reduction(r, p, group, meta, g),
    ensures
        0 < r.fusion.numerator <= r.fusion.denominator,
        0 < r.register.numerator <= r.register.denominator,
        r.vectorization <= 100,
{
    let outs = candidates::outputs(p, group);
    lemma_inner_outputs(meta, group, outs, outs.len());
}

proof fn lemma_inner_outputs(meta: Seq<TensorMeta>, group: Seq<OpId>, listed: Seq<TensorId>, k: nat)
    ensures
        cost::ephemeral(meta, group, listed, k) <= cost::described(meta, listed, k),
    decreases k,
{
    if k > 0 {
        lemma_inner_outputs(meta, group, listed, (k - 1) as nat);
    }
}

/// The percents of the traffic that show, by what limits the group.
pub open spec fn shown_percent(kind: BottleneckType) -> int {
    match kind {
        BottleneckType::ComputeBound => 2,
        BottleneckType::Balanced => 15,
        BottleneckType::MemoryBound => 40,
    }
}

/// The percents that are left for tiles of this size.
pub open spec fn tile_percent(size: int) -> int {
    if size >= 16_384 {
        90
    } else if size >= 4096 {
        95
    } else {
        100
    }
}

/// The percents that are left for so many operations.
pub open spec fn group_percent(len: int) -> int {
    if len >= 10 {
        85
    } else if len >= 5 {
        90
    } else if len >= 2 {
        95
    } else {
        100
    }
}

/// Tells which part of the memory traffic shows in the latency, in millionths.
pub fn compute_memory_reduction_factor(
    ops: &[OpId],
    _problem: &Problem,
    intensity: &ArithmeticIntensity,
    granularity: &Granularity,
) -> (millionths: u32)
    requires
        arith::fits(granularity.width * granularity.height),
    ensures
        millionths == shown_percent(intensity.bottleneck) * tile_percent(granularity.width * granularity.height)
            * group_percent(ops@.len() as int),
{
    let shown: u32 = match intensity.bottleneck {
        BottleneckType::ComputeBound => 2,
        BottleneckType::Balanced => 15,
        BottleneckType::MemoryBound => 40,
    };
    let size: i64 = granularity.width * granularity.height;
    let tile: u32 = if size >= 16_384 {
        90
    } else if size >= 4096 {
        95
    } else {
        100
    };
    let group: u32 = if ops.len() >= 10 {
        85
    } else if ops.len() >= 5 {
        90
    } else if ops.len() >= 2 {
        95
    } else {
        100
    };
    assert(shown * tile <= 4000 && shown * tile * group <= 400_000) by (nonlinear_arith)
        requires
            shown <= 40,
            tile <= 100,
            group <= 100,
    ;
    shown * tile * group
}

/// How a group is to be executed.
#[derive(Debug, Clone, Copy)]
pub struct OptimizedPlan {
    pub granularity: Granularity,
    pub intensity: ArithmeticIntensity,
    pub compute_reduction: ReductionFactor,
    /// The part of the memory traffic that shows, in millionths.
    pub memory_reduction: u32,
}

/// Plans a group: its tile and split follow from what limits it.
pub fn generate_optimal_plan(ops: &[OpId], problem: &Problem, tensor_meta: &[TensorMeta]) -> (plan: OptimizedPlan)
    requires
        readable(*problem, ops@, tensor_meta@),
        forall|i: int|
            0 <= i < ops@.len() ==> {
                let op = problem.ops@[(#[trigger] ops@[i]) as int];
                op.op_type is MatMul && op.outputs@.len() > 0 && op.inputs@.len() > 0 ==> op.inputs@[0]
                    < problem.tensors@.len()
            },
    ensures
        is_intensity(plan.intensity, *problem, ops@, tensor_meta@),
        ({
            let tile = (plan.granularity.width, plan.granularity.height);
            &&& is_optimal_tile(tile, problem.fast_memory_capacity as int, plan.intensity.bottleneck)
            &&& plan.granularity.depth == split(
                matmul_flops(*problem, ops@, ops@.len()),
                problem.fast_memory_capacity as int,
                plan.intensity.bottleneck,
                tile,
            )
            &&& plan.memory_reduction == shown_percent(plan.intensity.bottleneck) * tile_percent(tile.0 * tile.1)
                * group_percent(ops@.len() as int)
        }),
        is_reduction(plan.compute_reduction, *problem, ops@, tensor_meta@, plan.granularity),
{
    let intensity: ArithmeticIntensity = compute_arithmetic_intensity(ops, problem, tensor_meta);
    let (w, h): (i64, i64) = compute_optimal_tile_size(problem, &intensity);
    assert(0 < w * h <= 0x8000_0000 * 0x8000_0000) by (nonlinear_arith)
        requires
            0 < w <= 0x8000_0000,
            h == w,
    ;
    assert(w <= 256 ==> w * h <= 0x1_0000) by (nonlinear_arith)
        requires
            0 < w,
            h == w,
    ;
    proof {
        assert forall|i: int| 0 <= i < ops@.len() implies ({
            let op = problem.ops@[(#[trigger] ops@[i]) as int];
            op.op_type is MatMul && op.outputs@.len() > 0 && op.inputs@.len() > 0 ==> op.outputs@[0]
                < problem.tensors@.len() && op.inputs@[0] < problem.tensors@.len()
        }) by {
            let op = problem.ops@[ops@[i] as int];
            if op.outputs@.len() > 0 {
                assert(problem.ops@[ops@[i] as int].outputs@[0] < problem.tensors@.len());
            }
        }
    }
    let split_k: i64 = compute_optimal_split_k(ops, problem, &intensity, (w, h));
    let granularity: Granularity = Granularity::new(w, h, split_k);
    let compute_reduction: ReductionFactor = compute_reduction_factor(ops, problem, tensor_meta, &granularity);
    let memory_reduction: u32 = compute_memory_reduction_factor(ops, problem, &intensity, &granularity);
    OptimizedPlan { granularity, intensity, compute_reduction, memory_reduction }
}

/// Three tiles of the chosen size fit into fast memory that is not tiny.
pub proof fn chosen_tiles_fit(tile: (i64, i64), memory: int, kind: BottleneckType)
    requires
        is_optimal_tile(tile, memory, kind),
        memory >= 3072,
    ensures
        3 * (tile.0 * tile.1) <= memory,
{
    let (side, aligned) = choose|side: int, aligned: int| #[trigger]
        is_side(side, memory) && #[trigger] is_aligned(aligned, side) && tile.0 == tile.1 && tile.0 == match kind {
            BottleneckType::ComputeBound => arith::least(aligned, 256),
            BottleneckType::MemoryBound => arith::greatest(aligned / 2, 32),
            BottleneckType::Balanced => arith::least(aligned, 128),
        };
    assert(side >= 32) by (nonlinear_arith)
        requires
            side >= 0,
            3072 <= memory < 3 * ((side + 1) * (side + 1)),
    ;
    let length = tile.0 as int;
    assert(length * length <= side * side && length * length == tile.0 * tile.1) by (nonlinear_arith)
        requires
            0 <= length <= side,
            length == tile.0,
            tile.0 == tile.1,
    ;
}

} // verus!
