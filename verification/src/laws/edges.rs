//! What holds where there is no room, no speed or no extent.
use vstd::prelude::*;
use crate::{arith, candidates, cost, layout, liveness, optimizer, partition, pipeline, weight_stationary};
use crate::layout::{LayoutAnalysis, MemoryLayout};
use crate::models::{Op, OpId, OpType, Problem, Tensor, TensorId};
use crate::optimizer::BottleneckType;
use crate::pipeline::PipelineOverlap;
use crate::weight_stationary::TensorRole;

verus! {

/// Without speed any saving counts, and none that is not one. At a speed below zero a
/// saving counts where turning both round makes it count no less than the threshold asks.
pub proof fn savings_without_speed_are_endless(o: PipelineOverlap, threshold: int, bandwidth: int)
    ensures
        pipeline::counts(o, threshold, 0) <==> o.can_overlap && o.time_saved > 0,
        bandwidth < 0 ==> (pipeline::counts(o, threshold, bandwidth) <==> o.can_overlap && -o.time_saved >= threshold * (
        10_000 * -bandwidth)),
{
    assert(threshold * (10_000 * -bandwidth) == -(threshold * (10_000 * bandwidth))) by (nonlinear_arith);
}

/// Without fast memory only what takes less than nothing is comfortable; below nothing,
/// what is comfortable is what would be with both signs turned round.
pub proof fn comfort_needs_room(bytes: int, capacity: int)
    ensures
        partition::is_comfortable(bytes, 0) <==> bytes < 0,
        capacity != 0 ==> (partition::is_comfortable(bytes, capacity) <==> partition::is_comfortable(-bytes, -capacity)),
        capacity > 0 ==> !partition::is_comfortable(capacity, capacity),
{
}

/// What fits is one piece. Without room the number of pieces has no limit but the
/// machine's; with less than none there are no pieces to hold anything.
pub proof fn pieces_need_room(bytes: int, room: int)
    ensures
        bytes <= room ==> partition::pieces(bytes, room) == 1,
        bytes > 0 ==> partition::pieces(bytes, 0) == usize::MAX,
        room < 0 && bytes >= 0 ==> partition::pieces(bytes, room) == 0,
        room < 0 && room < bytes < 0 ==> partition::pieces(bytes, room) == 1,
{
}

/// Without bandwidth memory limits everything; without traffic nothing but the work does;
/// and at a bandwidth below zero the traffic counts the other way round and nothing is at
/// the ridge.
pub proof fn limits_without_bandwidth(flops: int, bytes: int, bandwidth: int)
    ensures
        optimizer::bottleneck(flops, bytes, 0) == BottleneckType::MemoryBound,
        bandwidth != 0 && bytes <= 0 ==> optimizer::bottleneck(flops, bytes, bandwidth) == BottleneckType::ComputeBound,
        bandwidth < 0 && bytes > 0 ==> (optimizer::bottleneck(flops, bytes, bandwidth) == BottleneckType::ComputeBound <==> 5
            * (flops * -bandwidth) > -6 * bytes),
        bandwidth < 0 && bytes > 0 ==> optimizer::bottleneck(flops, bytes, bandwidth) != BottleneckType::Balanced,
{
    assert(5 * flops * -bandwidth == 5 * (flops * -bandwidth)) by (nonlinear_arith);
}

/// Without bandwidth no layout saves anything, and below zero a layout saves only where it
/// would cost otherwise. The change itself then counts as a gain.
pub proof fn layouts_without_bandwidth(tensor: Tensor, op: Op, t: TensorId, from: MemoryLayout, to: MemoryLayout, bandwidth: int)
    ensures
        layout::op_savings(tensor, op, t, from, to, 0) == 0,
        layout::op_savings(tensor, op, t, from, to, bandwidth) >= 0,
        layout::op_savings(tensor, op, t, from, from, bandwidth) == 0,
        bandwidth > 0 ==> layout::through_memory(tensor.area(), bandwidth) == tensor.area(),
        bandwidth < 0 ==> layout::through_memory(tensor.area(), bandwidth) == -tensor.area(),
        bandwidth != 0 ==> layout::op_savings(tensor, op, t, from, to, bandwidth) == 0 || layout::op_savings(
            tensor,
            op,
            t,
            from,
            to,
            -bandwidth,
        ) == 0,
{
    let before = layout::UNITS as int / layout::efficiency(tensor, layout::pattern_of(op, t), from);
    let after = layout::UNITS as int / layout::efficiency(tensor, layout::pattern_of(op, t), to);
    let x = tensor.area() * (before - after);
    let d = layout::discount(op.op_type);
    assert(tensor.area() * (before - before) == 0) by (nonlinear_arith);
    assert(arith::greatest(x, 0) * d >= 0 && arith::greatest(-x, 0) * d >= 0) by (nonlinear_arith)
        requires
            d >= 0,
            arith::greatest(x, 0) >= 0,
            arith::greatest(-x, 0) >= 0,
    ;
    assert(0int * d == 0) by (nonlinear_arith);
}

/// A change without bandwidth never pays, whatever it saves; and one whose savings fall
/// short of a thousand cycles, or of its cost, does not.
pub proof fn changes_without_bandwidth_never_pay(a: LayoutAnalysis)
    ensures
        a.cycle <= 0 ==> !a.pays(),
        a.net_benefit <= 0 ==> !a.pays(),
        a.estimated_savings < 1000 * a.cycle ==> !a.pays(),
{
}

/// Without bandwidth a change saves too little as soon as any part of a cost is asked for.
pub proof fn too_little_is_saved_without_bandwidth(p: Problem, users: Seq<OpId>, saved: int, percent: int)
    requires
        p.slow_memory_bandwidth == 0,
    ensures
        layout::too_little(p, users, saved, percent) <==> layout::base_total(p, users, users.len()) > 0 && percent > 0,
{
}

/// Shapes without width match nothing, and a shape of negative width counts as a match.
pub proof fn shapes_without_width(x: int, y: int)
    ensures
        x < 0 || y < 0 ==> cost::match_kept(x, y) == 85,
        (x == 0 && y >= 0) || (x >= 0 && y == 0) ==> cost::match_kept(x, y) == 100,
{
}

/// A length of zero wastes no little, however it is covered.
pub proof fn lengths_of_zero(size: int, percent: int)
    ensures
        !candidates::wastes_little(0, size, percent),
{
}

/// A single tile, and a grid without tiles, saves nothing.
pub proof fn grids_without_tiles(w: int, h: int)
    ensures
        w * h <= 1 ==> cost::snake_kept(w, h).0 == cost::snake_kept(w, h).1,
{
}

/// A tensor without size gains nothing by being used, and a weight is worth more than the
/// same tensor as an activation, that more than as a result.
pub proof fn roles_rank(size: int, uses: int, savings: int)
    ensures
        size <= 0 ==> weight_stationary::reuse_gain(size, uses) == 0,
        weight_stationary::retention_priority(size, uses, TensorRole::Weight, savings)
            > weight_stationary::retention_priority(size, uses, TensorRole::InOut, savings)
            > weight_stationary::retention_priority(size, uses, TensorRole::Activation, savings)
            > weight_stationary::retention_priority(size, uses, TensorRole::Output, savings),
        weight_stationary::retention_priority(size, uses, TensorRole::Output, savings + 1)
            == weight_stationary::retention_priority(size, uses, TensorRole::Output, savings) + 1,
{
}

/// What goes for the bonus of a tensor: none without uses, and the most there is for a
/// used tensor whose size makes the divisor vanish.
pub proof fn bonuses_without_uses(uses: int, size: int)
    ensures
        size >= 0 ==> liveness::reuse_bonus(0, size) == 0,
        uses > 0 ==> liveness::reuse_bonus(uses, -1000) == i64::MAX,
{
    if size >= 0 {
        assert(0int / (size + 1000) == 0) by (nonlinear_arith)
            requires
                size >= 0,
        ;
    }
}

/// Operations that are no matrix products gain by blocks only if there are four or more,
/// and matrix products only on tiles of 16 or more on both sides.
pub proof fn small_tiles_gain_nothing(w: int, h: int)
    ensures
        w < 16 || h < 16 ==> cost::register_gain(w, h, OpType::MatMul) == cost::RegisterReuse::Nothing,
        w >= 16 && h >= 16 ==> cost::register_gain(w, h, OpType::MatMul) is Sides,
        0 <= w < 16 && 0 <= h < 16 ==> cost::register_gain(w, h, OpType::Pointwise) == cost::RegisterReuse::Nothing,
        w >= 16 && h >= 16 ==> cost::register_gain(w, h, OpType::Pointwise) is Blocks,
{
    let a = cost::blocks_along(w);
    let b = cost::blocks_along(h);
    if 0 <= w < 16 && 0 <= h < 16 {
        assert(a == 1 && b == 1);
        assert(a * b == 1) by (nonlinear_arith)
            requires
                a == 1,
                b == 1,
        ;
    }
    if w >= 16 && h >= 16 {
        assert(a * b >= 4) by (nonlinear_arith)
            requires
                a >= 2,
                b >= 2,
        ;
    }
}

} // verus!
