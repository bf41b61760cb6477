//! What latency estimates are made of: transfer volumes, fusion counts, tile shapes to try
//! and the choice among them.
use std::collections::HashSet;
use vstd::prelude::*;
use crate::arith;
use crate::candidates;
use crate::ids;
use crate::memory;
use crate::models::{Granularity, Op, OpId, OpType, Problem, Tensor, TensorId, TensorMeta};
use crate::snake;

verus! {

/// Inner dimensions from here on gain from being cut.
pub const SPLIT_K_THRESHOLD: i64 = 512;

/// The fewest operations whose transfers overlap with computing.
pub const DOUBLE_BUFFER_MIN_OPS: usize = 2;

/// The largest sensible number of parts of the inner dimension.
pub const MAX_REASONABLE_SPLIT_K: i64 = 64;

/// The size from which a tensor counts as large.
pub const LARGE_TENSOR_THRESHOLD: i64 = 65_536;

/// The width of a block that is held in registers.
pub const REGISTER_TILE_WIDTH: i64 = 8;

/// The height of a block that is held in registers.
pub const REGISTER_TILE_HEIGHT: i64 = 8;

/// The smallest side of a tile that gains from blocks in registers.
pub const MIN_TILE_FOR_REGISTER_TILING: i64 = 16;

/// The tiles that are always tried.
pub const TILING_CANDIDATES: [(i64, i64); 5] = [(128, 128), (64, 256), (256, 64), (64, 128), (128, 64)];

/// Tiles for tensors that are far from square.
pub const ASYMMETRIC_TILING_CANDIDATES: [(i64, i64); 14] = [
    (512, 32),
    (32, 512),
    (256, 32),
    (32, 256),
    (256, 128),
    (128, 256),
    (64, 64),
    (32, 128),
    (256, 64),
    (64, 256),
    (512, 128),
    (128, 512),
    (1024, 64),
    (64, 1024),
];

/// Small tiles, for a small fast memory.
pub const SMALL_TILES: [(i64, i64); 8] = [
    (32, 32),
    (64, 32),
    (32, 64),
    (48, 48),
    (64, 16),
    (16, 64),
    (32, 16),
    (16, 32),
];

/// Tiles for tensors more than three times as wide as high.
pub const VERY_WIDE_TILES: [(i64, i64); 5] = [(512, 128), (256, 64), (512, 64), (1024, 128), (256, 128)];

/// Tiles for tensors more than twice as wide as high.
pub const WIDE_TILES: [(i64, i64); 5] = [(256, 32), (512, 32), (256, 64), (384, 48), (512, 128)];

/// Tiles for tensors whose width is less than 33 hundredths of their height.
pub const VERY_TALL_TILES: [(i64, i64); 5] = [(128, 512), (64, 256), (64, 512), (128, 1024), (128, 256)];

/// Tiles for tensors less than half as wide as high.
pub const TALL_TILES: [(i64, i64); 4] = [(32, 256), (32, 512), (64, 256), (48, 384)];

/// Tiles for tensors somewhat wider than high.
pub const RATHER_WIDE_TILES: [(i64, i64); 2] = [(192, 96), (160, 80)];

/// Tiles for tensors somewhat higher than wide.
pub const RATHER_TALL_TILES: [(i64, i64); 2] = [(96, 192), (80, 160)];

/// Tiles for large matrix products.
pub const MATMUL_TILES: [(i64, i64); 4] = [(64, 64), (96, 96), (192, 64), (64, 192)];

/// Tile sizes for lengths without a suitable divisor.
pub const PADDED_SIZES: [i64; 8] = [64, 48, 32, 96, 128, 80, 112, 16];

/// The shape that decides which tiles are tried: width and height of the first of the
/// largest among the first `k` listed tensors, one by one if none has a size above zero.
pub open spec fn dominant(p: Problem, listed: Seq<TensorId>, k: nat) -> (int, int, int)
    decreases k,
{
    if k == 0 {
        (1, 1, 0)
    } else {
        let before = dominant(p, listed, (k - 1) as nat);
        let t = p.tensors@[listed[k - 1] as int];
        if t.area() > before.2 {
            if t.height > 0 {
                (t.width as int, t.height as int, t.area())
            } else {
                (1, 1, t.area())
            }
        } else {
            before
        }
    }
}

/// The largest width among the first `k` listed tensors, at least zero.
pub open spec fn greatest_width(p: Problem, listed: Seq<TensorId>, k: nat) -> int
    decreases k,
{
    if k == 0 {
        0
    } else {
        arith::greatest(greatest_width(p, listed, (k - 1) as nat), p.tensors@[listed[k - 1] as int].width as int)
    }
}

/// The largest height among the first `k` listed tensors, at least zero.
pub open spec fn greatest_height(p: Problem, listed: Seq<TensorId>, k: nat) -> int
    decreases k,
{
    if k == 0 {
        0
    } else {
        arith::greatest(greatest_height(p, listed, (k - 1) as nat), p.tensors@[listed[k - 1] as int].height as int)
    }
}

/// `x`, but at least `low` and at most `high`.
pub open spec fn bounded(x: int, low: int, high: int) -> int {
    arith::least(arith::greatest(x, low), high)
}

/// The short side of a tile whose long side is 256, at least 32, rounded up to a multiple of 32.
pub open spec fn coarse_side(short: int, long: int) -> int {
    (arith::greatest(256 * short / long, 32) + 31) / 32 * 32
}

/// The short side of a tile whose long side is 128, at least 16, rounded down to a multiple of 16.
pub open spec fn fine_side(short: int, long: int) -> int {
    arith::greatest(128 * short / long, 16) / 16 * 16
}

/// Tiles that match the shape `w` by `h` where the largest sides are `max_w` and `max_h`.
pub open spec fn shape_tiles(w: int, h: int, max_w: int, max_h: int) -> Set<(i64, i64)> {
    if w > 3 * h {
        let side = coarse_side(h, w);
        let fixed = candidates::listed(VERY_WIDE_TILES@);
        if max_w >= 512 {
            fixed.insert((512, bounded(side, 32, 256) as i64)).insert((256, bounded(side, 32, 128) as i64))
        } else {
            fixed
        }
    } else if w > 2 * h {
        let side = fine_side(h, w);
        let fixed = candidates::listed(WIDE_TILES@);
        if max_w >= 256 {
            fixed.insert((256, arith::greatest(side, 32) as i64)).insert((128, side as i64))
        } else {
            fixed
        }
    } else if 100 * w < 33 * h {
        let side = coarse_side(w, h);
        let fixed = candidates::listed(VERY_TALL_TILES@);
        if max_h >= 512 {
            fixed.insert((bounded(side, 32, 256) as i64, 512)).insert((bounded(side, 32, 128) as i64, 256))
        } else {
            fixed
        }
    } else if 2 * w < h {
        let side = fine_side(w, h);
        let fixed = candidates::listed(TALL_TILES@);
        if max_h >= 256 {
            fixed.insert((arith::greatest(side, 32) as i64, 256)).insert((side as i64, 128))
        } else {
            fixed
        }
    } else if 5 * w > 6 * h {
        candidates::listed(RATHER_WIDE_TILES@)
    } else if 100 * w < 83 * h {
        candidates::listed(RATHER_TALL_TILES@)
    } else {
        Set::empty()
    }
}

/// Some matrix product of the group puts out more than a tile of 128 by 128.
pub open spec fn has_large_matmul(p: Problem, group: Seq<OpId>) -> bool {
    exists|i: int| 0 <= i < group.len() && #[trigger] is_large_matmul(p, group[i] as int)
}

/// The operation is a matrix product that puts out more than a tile of 128 by 128.
pub open spec fn is_large_matmul(p: Problem, op: int) -> bool {
    &&& p.ops@[op].op_type == OpType::MatMul
    &&& exists|j: int|
        0 <= j < p.ops@[op].outputs@.len() && p.tensors@[(#[trigger] p.ops@[op].outputs@[j]) as int].area() > 16384
}

/// Tiles that fit a length which is no power of two.
pub open spec fn length_tiles(dim: int) -> Set<(i64, i64)> {
    Set::new(
        |tile: (i64, i64)|
            {
                &&& 16 <= dim <= 1024
                &&& !candidates::power_of_two(dim)
                &&& {
                    ||| dim <= 256 && tile.0 == dim && tile.1 == dim
                    ||| exists|f: i64|
                        {
                            &&& #[trigger] candidates::is_tile_factor(dim, 16, 256, PADDED_SIZES@, 30, f)
                            &&& tile == (f, f) || (tile.0 == 2 * f && tile.1 == f) || (tile.0 == f && tile.1 == 2 * f)
                        }
                    ||| exists|d: i64|
                        {
                            &&& #[trigger] candidates::is_largest_divisor(dim, 128, d as int)
                            &&& d >= 16
                            &&& tile == (d, d) || tile == (d, 64i64) || tile == (64i64, d)
                        }
                }
            },
    )
}

/// Tiles that fit the sides of the first `k` listed tensors.
pub open spec fn side_tiles(p: Problem, listed: Seq<TensorId>, k: nat) -> Set<(i64, i64)>
    decreases k,
{
    if k == 0 {
        Set::empty()
    } else {
        let t = p.tensors@[listed[k - 1] as int];
        side_tiles(p, listed, (k - 1) as nat).union(length_tiles(t.width as int)).union(length_tiles(t.height as int))
    }
}

/// The native tile, whole and halved.
pub open spec fn native_tiles(p: Problem) -> Set<(i64, i64)> {
    let w = p.native_granularity.width;
    let h = p.native_granularity.height;
    let half_w = arith::quotient(w as int, 2) as i64;
    let half_h = arith::quotient(h as int, 2) as i64;
    Set::empty().insert((w, h)).insert((half_w, h)).insert((w, half_h)).insert((half_w, half_h))
}

/// All tiles that are considered for the group.
pub open spec fn proposed_tiles(p: Problem, group: Seq<OpId>) -> Set<(i64, i64)> {
    let outs = candidates::outputs(p, group);
    let shape = dominant(p, outs, outs.len());
    let small = if p.fast_memory_capacity < 100_000 {
        candidates::listed(SMALL_TILES@).union(native_tiles(p))
    } else {
        Set::empty()
    };
    let products = if has_large_matmul(p, group) {
        candidates::listed(MATMUL_TILES@)
    } else {
        Set::empty()
    };
    candidates::listed(TILING_CANDIDATES@).union(small).union(
        candidates::listed(ASYMMETRIC_TILING_CANDIDATES@),
    ).union(
        shape_tiles(
            shape.0,
            shape.1,
            greatest_width(p, outs, outs.len()),
            greatest_height(p, outs, outs.len()),
        ),
    ).union(products).union(side_tiles(p, outs, outs.len()))
}

/// `(256 * short / long)`, aligned, for positive sides.
fn find_coarse_side(short: i64, long: i64) -> (side: i64)
    requires
        0 < short < long,
    ensures
        side == coarse_side(short as int, long as int),
        32 <= side <= 256,
{
    let raw: i128 = 256 * short as i128 / long as i128;
    assert(0 <= 256 * short as int / long as int <= 256) by (nonlinear_arith)
        requires
            0 < short < long,
    ;
    let base: i64 = arith::greatest_of(raw as i64, 32);
    (base + 31) / 32 * 32
}

/// `(128 * short / long)`, aligned, for positive sides.
fn find_fine_side(short: i64, long: i64) -> (side: i64)
    requires
        0 < short < long,
    ensures
        side == fine_side(short as int, long as int),
        16 <= side <= 128,
{
    let raw: i128 = 128 * short as i128 / long as i128;
    assert(0 <= 128 * short as int / long as int <= 128) by (nonlinear_arith)
        requires
            0 < short < long,
    ;
    let base: i64 = arith::greatest_of(raw as i64, 16);
    base / 16 * 16
}

/// Adds the tiles that match the shape.
fn offer_shape_tiles(
    list: &mut Vec<(i64, i64)>,
    w: i64,
    h: i64,
    max_w: i64,
    max_h: i64,
    room: i64,
    Ghost(offered): Ghost<Set<(i64, i64)>>,
)
    requires
        w > 0,
        h > 0,
        candidates::holds(old(list)@, offered, room as int),
    ensures
        candidates::holds(
            final(list)@,
            offered.union(shape_tiles(w as int, h as int, max_w as int, max_h as int)),
            room as int,
        ),
{
    let ghost goal = offered.union(shape_tiles(w as int, h as int, max_w as int, max_h as int));
    let wide: i128 = w as i128;
    let high: i128 = h as i128;
    if wide > 3 * high {
        candidates::offer_all(list, VERY_WIDE_TILES.as_slice(), room, Ghost(offered));
        let ghost now = offered.union(candidates::listed(VERY_WIDE_TILES@));
        if max_w >= 512 {
            let side: i64 = find_coarse_side(h, w);
            let second: i64 = arith::least_of(side, 128);
            candidates::offer(list, 512, side, room, Ghost(now));
            candidates::offer(list, 256, second, room, Ghost(now.insert((512, side))));
            assert(now.insert((512, side)).insert((256, second)) =~= goal);
        } else {
            assert(now =~= goal);
        }
    } else if wide > 2 * high {
        candidates::offer_all(list, WIDE_TILES.as_slice(), room, Ghost(offered));
        let ghost now = offered.union(candidates::listed(WIDE_TILES@));
        if max_w >= 256 {
            let side: i64 = find_fine_side(h, w);
            let first: i64 = arith::greatest_of(side, 32);
            candidates::offer(list, 256, first, room, Ghost(now));
            candidates::offer(list, 128, side, room, Ghost(now.insert((256, first))));
            assert(now.insert((256, first)).insert((128, side)) =~= goal);
        } else {
            assert(now =~= goal);
        }
    } else if 100 * wide < 33 * high {
        candidates::offer_all(list, VERY_TALL_TILES.as_slice(), room, Ghost(offered));
        let ghost now = offered.union(candidates::listed(VERY_TALL_TILES@));
        if max_h >= 512 {
            let side: i64 = find_coarse_side(w, h);
            let second: i64 = arith::least_of(side, 128);
            candidates::offer(list, side, 512, room, Ghost(now));
            candidates::offer(list, second, 256, room, Ghost(now.insert((side, 512))));
            assert(now.insert((side, 512)).insert((second, 256)) =~= goal);
        } else {
            assert(now =~= goal);
        }
    } else if 2 * wide < high {
        candidates::offer_all(list, TALL_TILES.as_slice(), room, Ghost(offered));
        let ghost now = offered.union(candidates::listed(TALL_TILES@));
        if max_h >= 256 {
            let side: i64 = find_fine_side(w, h);
            let first: i64 = arith::greatest_of(side, 32);
            candidates::offer(list, first, 256, room, Ghost(now));
            candidates::offer(list, side, 128, room, Ghost(now.insert((first, 256))));
            assert(now.insert((first, 256)).insert((side, 128)) =~= goal);
        } else {
            assert(now =~= goal);
        }
    } else if 5 * wide > 6 * high {
        candidates::offer_all(list, RATHER_WIDE_TILES.as_slice(), room, Ghost(offered));
    } else if 100 * wide < 83 * high {
        candidates::offer_all(list, RATHER_TALL_TILES.as_slice(), room, Ghost(offered));
    } else {
        assert(offered =~= goal);
    }
}

/// Adds the tiles that fit a length.
fn offer_length_tiles(list: &mut Vec<(i64, i64)>, dim: i64, room: i64, Ghost(offered): Ghost<Set<(i64, i64)>>)
    requires
        candidates::holds(old(list)@, offered, room as int),
    ensures
        candidates::holds(final(list)@, offered.union(length_tiles(dim as int)), room as int),
{
    let ghost goal = offered.union(length_tiles(dim as int));
    if dim < 16 || dim > 1024 || candidates::is_power_of_two(dim) {
        assert(offered =~= goal);
        return;
    }
    let ghost mut now = offered;
    if dim <= 256 {
        candidates::offer(list, dim, dim, room, Ghost(now));
        proof {
            now = now.insert((dim, dim));
        }
    }
    let ghost first = now;
    let factors: Vec<i64> = candidates::find_tile_factors(dim, 16, 256, PADDED_SIZES.as_slice(), 30);
    let mut i: usize = 0;
    while i < factors.len()
        invariant
            i <= factors.len(),
            candidates::holds(list@, now, room as int),
            forall|size: i64| #[trigger]
                factors@.contains(size) <==> candidates::is_tile_factor(dim as int, 16, 256, PADDED_SIZES@, 30, size),
            forall|tile: (i64, i64)| #[trigger]
                now.contains(tile) <==> first.contains(tile) || exists|j: int|
                    0 <= j < i && ({
                        let f = #[trigger] factors@[j];
                        tile == (f, f) || (tile.0 == 2 * f && tile.1 == f) || (tile.0 == f && tile.1 == 2 * f)
                    }),
        decreases factors.len() - i,
    {
        let f: i64 = factors[i];
        proof {
            assert(factors@.contains(factors@[i as int]));
            assert(candidates::is_tile_factor(dim as int, 16, 256, PADDED_SIZES@, 30, f));
            assert(16 <= f <= 256);
        }
        let ghost before = now;
        candidates::offer(list, f, f, room, Ghost(now));
        candidates::offer(list, f * 2, f, room, Ghost(now.insert((f, f))));
        let twice: i64 = f * 2;
        candidates::offer(list, f, f * 2, room, Ghost(now.insert((f, f)).insert((twice, f))));
        proof {
            now = now.insert((f, f)).insert((twice, f)).insert((f, twice));
            assert forall|tile: (i64, i64)| #[trigger] now.contains(tile) <==> first.contains(tile) || exists|j: int|
                0 <= j < i + 1 && ({
                    let f = #[trigger] factors@[j];
                    tile == (f, f) || (tile.0 == 2 * f && tile.1 == f) || (tile.0 == f && tile.1 == 2 * f)
                }) by {
                assert(before.contains(tile) ==> now.contains(tile));
                if tile == (f, f) || tile == (twice, f) || tile == (f, twice) {
                    assert(factors@[i as int] == f);
                }
            }
        }
        i = i + 1;
    }
    let d: i64 = candidates::largest_divisor(dim, 128);
    proof {
        assert forall|e: i64| #[trigger] candidates::is_largest_divisor(dim as int, 128, e as int) implies e == d by {
            assert(dim as int % d as int == 0);
            assert(dim as int % e as int == 0);
        }
        assert forall|f: i64| #[trigger]
            candidates::is_tile_factor(dim as int, 16, 256, PADDED_SIZES@, 30, f) implies factors@.contains(f) by {
        }
    }
    let ghost middle = now;
    if d >= 16 {
        candidates::offer(list, d, d, room, Ghost(now));
        candidates::offer(list, d, 64, room, Ghost(now.insert((d, d))));
        candidates::offer(list, 64, d, room, Ghost(now.insert((d, d)).insert((d, 64))));
        proof {
            now = now.insert((d, d)).insert((d, 64)).insert((64, d));
        }
    }
    proof {
        assert forall|tile: (i64, i64)| #[trigger] now.contains(tile) <==> goal.contains(tile) by {
            if length_tiles(dim as int).contains(tile) {
                if exists|f: i64|
                    {
                        &&& #[trigger] candidates::is_tile_factor(dim as int, 16, 256, PADDED_SIZES@, 30, f)
                        &&& tile == (f, f) || (tile.0 == 2 * f && tile.1 == f) || (tile.0 == f && tile.1 == 2 * f)
                    } {
                    let f = choose|f: i64|
                        {
                            &&& #[trigger] candidates::is_tile_factor(dim as int, 16, 256, PADDED_SIZES@, 30, f)
                            &&& tile == (f, f) || (tile.0 == 2 * f && tile.1 == f) || (tile.0 == f && tile.1 == 2 * f)
                        };
                    assert(factors@.contains(f));
                    let j = choose|j: int| 0 <= j < factors@.len() && factors@[j] == f;
                    assert(factors@[j] == f);
                    assert(middle.contains(tile));
                }
            }
            if middle.contains(tile) && !first.contains(tile) {
                let j = choose|j: int|
                    0 <= j < factors@.len() && ({
                        let f = #[trigger] factors@[j];
                        tile == (f, f) || (tile.0 == 2 * f && tile.1 == f) || (tile.0 == f && tile.1 == 2 * f)
                    });
                assert(factors@.contains(factors@[j]));
                assert(candidates::is_tile_factor(dim as int, 16, 256, PADDED_SIZES@, 30, factors@[j]));
            }
            if tile == (d, d) || tile == (d, 64i64) || tile == (64i64, d) {
                assert(candidates::is_largest_divisor(dim as int, 128, d as int));
            }
        }
        assert(now =~= goal);
    }
}

/// Whether some matrix product of the group puts out more than a tile of 128 by 128.
fn find_large_matmul(ops: &[OpId], problem: &Problem) -> (yes: bool)
    requires
        candidates::outputs_known(*problem, ops@),
    ensures
        yes == has_large_matmul(*problem, ops@),
{
    let ghost p = *problem;
    let ghost outs = candidates::outputs(p, ops@);
    let mut i: usize = 0;
    while i < ops.len()
        invariant
            i <= ops@.len(),
            p == *problem,
            outs == candidates::outputs(p, ops@),
            candidates::outputs_known(p, ops@),
            forall|x: int| 0 <= x < i ==> !#[trigger] is_large_matmul(p, ops@[x] as int),
        decreases ops@.len() - i,
    {
        let op: OpId = ops[i];
        assert(ops@[i as int] < p.ops@.len());
        let ghost mine = p.ops@[op as int].outputs@;
        if problem.ops[op].is_matmul() {
            let mut j: usize = 0;
            while j < problem.ops[op].outputs.len()
                invariant
                    i < ops@.len(),
                    op == ops@[i as int],
                    op < p.ops@.len(),
                    p == *problem,
                    outs == candidates::outputs(p, ops@),
                    candidates::outputs_known(p, ops@),
                    p.ops@[op as int].op_type == OpType::MatMul,
                    mine == p.ops@[op as int].outputs@,
                    j <= mine.len(),
                    forall|x: int| 0 <= x < j ==> p.tensors@[(#[trigger] mine[x]) as int].area() <= 16384,
                decreases mine.len() - j,
            {
                let t: TensorId = problem.ops[op].outputs[j];
                proof {
                    memory::lemma_outputs_of(ops@, p.ops@, ops@.len());
                    assert(mine[j as int] == t);
                    assert(mine.contains(t));
                    assert(outs.contains(t));
                    let x = choose|x: int| 0 <= x < outs.len() && outs[x] == t;
                    assert(candidates::outputs(p, ops@)[x] < p.tensors@.len());
                }
                if problem.tensors[t].size() > 16384 {
                    assert(p.tensors@[p.ops@[op as int].outputs@[j as int] as int].area() > 16384);
                    assert(is_large_matmul(p, ops@[i as int] as int));
                    return true;
                }
                j = j + 1;
            }
        }
        i = i + 1;
    }
    false
}

/// The tile shapes worth trying for the group, in ascending order.
pub fn generate_shape_aware_candidates(ops: &[OpId], problem: &Problem) -> (list: Vec<(i64, i64)>)
    requires
        candidates::outputs_known(*problem, ops@),
    ensures
        candidates::holds(
            list@,
            proposed_tiles(*problem, ops@),
            arith::quotient(problem.fast_memory_capacity as int, 3),
        ),
{
    let ghost p = *problem;
    let room: i64 = problem.fast_memory_capacity / 3;
    let outs: Vec<TensorId> = memory::gather_outputs(ops, problem);
    assert(outs@ == candidates::outputs(p, ops@));
    let mut max_w: i64 = 0;
    let mut max_h: i64 = 0;
    let mut shape_w: i64 = 1;
    let mut shape_h: i64 = 1;
    let mut largest: i64 = 0;
    let mut i: usize = 0;
    while i < outs.len()
        invariant
            i <= outs.len(),
            p == *problem,
            outs@ == candidates::outputs(p, ops@),
            candidates::outputs_known(p, ops@),
            max_w == greatest_width(p, outs@, i as nat),
            max_h == greatest_height(p, outs@, i as nat),
            shape_w > 0,
            shape_h > 0,
            largest >= 0,
            (shape_w as int, shape_h as int, largest as int) == dominant(p, outs@, i as nat),
        decreases outs.len() - i,
    {
        let t: TensorId = outs[i];
        assert(candidates::outputs(p, ops@)[i as int] < p.tensors@.len());
        let width: i64 = problem.tensors[t].width;
        let height: i64 = problem.tensors[t].height;
        let size: i64 = problem.tensors[t].size();
        max_w = arith::greatest_of(max_w, width);
        max_h = arith::greatest_of(max_h, height);
        if size > largest {
            largest = size;
            if height > 0 {
                assert(width > 0) by (nonlinear_arith)
                    requires
                        width * height > 0,
                        height > 0,
                ;
                shape_w = width;
                shape_h = height;
            } else {
                shape_w = 1;
                shape_h = 1;
            }
        }
        i = i + 1;
    }
    let mut list: Vec<(i64, i64)> = Vec::new();
    let ghost mut now: Set<(i64, i64)> = Set::empty();
    candidates::offer_all(&mut list, TILING_CANDIDATES.as_slice(), room, Ghost(now));
    proof {
        now = now.union(candidates::listed(TILING_CANDIDATES@));
        assert(now =~= candidates::listed(TILING_CANDIDATES@));
    }
    if problem.fast_memory_capacity < 100_000 {
        candidates::offer_all(&mut list, SMALL_TILES.as_slice(), room, Ghost(now));
        let w: i64 = problem.native_granularity.width;
        let h: i64 = problem.native_granularity.height;
        let ghost a = now.union(candidates::listed(SMALL_TILES@));
        candidates::offer(&mut list, w, h, room, Ghost(a));
        candidates::offer(&mut list, w / 2, h, room, Ghost(a.insert((w, h))));
        let half_w: i64 = w / 2;
        let half_h: i64 = h / 2;
        candidates::offer(&mut list, w, half_h, room, Ghost(a.insert((w, h)).insert((half_w, h))));
        candidates::offer(
            &mut list,
            half_w,
            half_h,
            room,
            Ghost(a.insert((w, h)).insert((half_w, h)).insert((w, half_h))),
        );
        proof {
            let b = a.insert((w, h)).insert((half_w, h)).insert((w, half_h)).insert((half_w, half_h));
            now = now.union(candidates::listed(SMALL_TILES@).union(native_tiles(p)));
            assert(b =~= now);
        }
    } else {
        proof {
            assert(now.union(Set::empty()) =~= now);
        }
    }
    candidates::offer_all(&mut list, ASYMMETRIC_TILING_CANDIDATES.as_slice(), room, Ghost(now));
    proof {
        now = now.union(candidates::listed(ASYMMETRIC_TILING_CANDIDATES@));
    }
    offer_shape_tiles(&mut list, shape_w, shape_h, max_w, max_h, room, Ghost(now));
    proof {
        now = now.union(shape_tiles(shape_w as int, shape_h as int, max_w as int, max_h as int));
    }
    if find_large_matmul(ops, problem) {
        candidates::offer_all(&mut list, MATMUL_TILES.as_slice(), room, Ghost(now));
        proof {
            now = now.union(candidates::listed(MATMUL_TILES@));
        }
    } else {
        proof {
            assert(now.union(Set::empty()) =~= now);
        }
    }
    let ghost fixed = now;
    assert(fixed.union(side_tiles(p, outs@, 0)) =~= fixed);
    let mut j: usize = 0;
    while j < outs.len()
        invariant
            j <= outs.len(),
            p == *problem,
            outs@ == candidates::outputs(p, ops@),
            candidates::outputs_known(p, ops@),
            candidates::holds(list@, fixed.union(side_tiles(p, outs@, j as nat)), room as int),
        decreases outs.len() - j,
    {
        let t: TensorId = outs[j];
        assert(candidates::outputs(p, ops@)[j as int] < p.tensors@.len());
        let width: i64 = problem.tensors[t].width;
        let height: i64 = problem.tensors[t].height;
        let ghost before = fixed.union(side_tiles(p, outs@, j as nat));
        offer_length_tiles(&mut list, width, room, Ghost(before));
        offer_length_tiles(&mut list, height, room, Ghost(before.union(length_tiles(width as int))));
        assert(before.union(length_tiles(width as int)).union(length_tiles(height as int)) =~= fixed.union(
            side_tiles(p, outs@, (j + 1) as nat),
        ));
        j = j + 1;
    }
    list
}

/// What is in fast memory.
#[derive(Debug)]
pub struct MemoryState {
    /// The tensors that are in fast memory.
    pub resident_tensors: HashSet<TensorId>,
}

impl Clone for MemoryState {
    fn clone(&self) -> (copy: Self)
        ensures
            copy.resident_tensors@ == self.resident_tensors@,
    {
        MemoryState { resident_tensors: ids::copy_set(&self.resident_tensors) }
    }
}

impl Default for MemoryState {
    fn default() -> (state: Self)
        ensures
            state.resident_tensors@ == Set::<TensorId>::empty(),
    {
        MemoryState { resident_tensors: HashSet::new() }
    }
}

impl MemoryState {
    /// An empty fast memory.
    pub fn new() -> (state: Self)
        ensures
            state.resident_tensors@ == Set::<TensorId>::empty(),
    {
        MemoryState { resident_tensors: HashSet::new() }
    }

    /// A fast memory that holds the tensors.
    pub fn with_resident(tensors: &[TensorId]) -> (state: Self)
        ensures
            state.resident_tensors@ == tensors@.to_set(),
    {
        let resident_tensors: HashSet<TensorId> = ids::set_of(tensors);
        assert(resident_tensors@ =~= tensors@.to_set());
        MemoryState { resident_tensors }
    }

    /// Whether the tensor is in fast memory.
    pub fn is_resident(&self, tensor_id: TensorId) -> (yes: bool)
        ensures
            yes == self.resident_tensors@.contains(tensor_id),
    {
        broadcast use vstd::std_specs::hash::group_hash_axioms;

        self.resident_tensors.contains(&tensor_id)
    }

    /// Puts the tensor into fast memory.
    pub fn mark_resident(&mut self, tensor_id: TensorId)
        ensures
            final(self).resident_tensors@ == old(self).resident_tensors@.insert(tensor_id),
    {
        broadcast use vstd::std_specs::hash::group_hash_axioms;

        self.resident_tensors.insert(tensor_id);
    }

    /// Takes the tensor out of fast memory.
    pub fn evict(&mut self, tensor_id: TensorId)
        ensures
            final(self).resident_tensors@ == old(self).resident_tensors@.remove(tensor_id),
    {
        broadcast use vstd::std_specs::hash::group_hash_axioms;

        self.resident_tensors.remove(&tensor_id);
    }
}

/// A tensor put into fast memory and taken out again leaves the memory as it was, if it
/// was not there before.
pub proof fn eviction_undoes_residence(resident: Set<TensorId>, t: TensorId)
    requires
        !resident.contains(t),
    ensures
        resident.insert(t).remove(t) == resident,
{
    assert(resident.insert(t).remove(t) =~= resident);
}

/// What a tile gains from blocks that are held in registers.
#[derive(Debug, Clone, Copy, PartialEq, Eq, Structural)]
pub enum RegisterReuse {
    /// Nothing.
    Nothing,
    /// A pointwise operation works on this many blocks.
    Blocks(i64),
    /// A matrix product uses each block as often as there are blocks along the other
    /// side; this is the sum of both.
    Sides(i64),
}

/// The number of blocks along a side, at least one.
pub open spec fn blocks_along(side: int) -> int {
    arith::greatest(arith::quotient(side, 8), 1)
}

/// What a tile gains from blocks in registers.
pub open spec fn register_gain(w: int, h: int, op_type: OpType) -> RegisterReuse {
    if op_type == OpType::MatMul {
        if w < MIN_TILE_FOR_REGISTER_TILING || h < MIN_TILE_FOR_REGISTER_TILING {
            RegisterReuse::Nothing
        } else {
            RegisterReuse::Sides((blocks_along(w) + blocks_along(h)) as i64)
        }
    } else {
        if blocks_along(w) * blocks_along(h) >= 4 {
            RegisterReuse::Blocks((blocks_along(w) * blocks_along(h)) as i64)
        } else {
            RegisterReuse::Nothing
        }
    }
}

/// Finds what a tile gains from blocks in registers.
pub fn find_register_reuse(tile_width: i64, tile_height: i64, op_type: &OpType) -> (gain: RegisterReuse)
    requires
        arith::fits(blocks_along(tile_width as int) * blocks_along(tile_height as int)),
    ensures
        gain == register_gain(tile_width as int, tile_height as int, *op_type),
{
    let across: i64 = arith::greatest_of(tile_width / REGISTER_TILE_WIDTH, 1);
    let down: i64 = arith::greatest_of(tile_height / REGISTER_TILE_HEIGHT, 1);
    if *op_type == OpType::MatMul {
        if tile_width < MIN_TILE_FOR_REGISTER_TILING || tile_height < MIN_TILE_FOR_REGISTER_TILING {
            RegisterReuse::Nothing
        } else {
            RegisterReuse::Sides(across + down)
        }
    } else {
        let total: i64 = across * down;
        if total >= 4 {
            RegisterReuse::Blocks(total)
        } else {
            RegisterReuse::Nothing
        }
    }
}

/// The whole numbers in the cost of an operation.
#[derive(Debug, Clone, Copy)]
pub struct OpCostTerms {
    /// The number of tiles that cover the output.
    pub tiles: i128,
    /// The size of a native tile, at least one.
    pub native_tile: i64,
    /// The size of a tile of the execution, at least one.
    pub tile: i64,
    /// The number of parts of the inner dimension, one for what is no matrix product.
    pub parts: i64,
}

/// `n` divided by `d`, rounded up.
pub open spec fn ceiling(n: int, d: int) -> int {
    (n + d - 1) / d
}

/// The terms in the cost of an operation; there are none for tiles or outputs without extent.
pub open spec fn op_cost_terms(op: Op, native: Granularity, g: Granularity, output: Tensor) -> Option<OpCostTerms> {
    if g.width <= 0 || g.height <= 0 || output.width <= 0 || output.height <= 0 {
        None
    } else {
        Some(
            OpCostTerms {
                tiles: (ceiling(output.width as int, g.width as int) * ceiling(
                    output.height as int,
                    g.height as int,
                )) as i128,
                native_tile: arith::greatest(native.width * native.height, 1) as i64,
                tile: arith::greatest(g.width * g.height, 1) as i64,
                parts: if op.op_type == OpType::MatMul && g.depth > 1 {
                    arith::least(g.depth as int, MAX_REASONABLE_SPLIT_K as int) as i64
                } else {
                    1
                },
            },
        )
    }
}

fn ceiling_of(n: i64, d: i64) -> (r: i128)
    requires
        n > 0,
        d > 0,
    ensures
        r == ceiling(n as int, d as int),
        1 <= r <= 0x7fff_ffff_ffff_ffff,
{
    let sum: i128 = n as i128 + d as i128 - 1;
    let ghost a = n as int;
    let ghost b = d as int;
    assert(1 <= (a + b - 1) / b <= a) by (nonlinear_arith)
        requires
            a > 0,
            b > 0,
    ;
    sum / (d as i128)
}

/// Finds the terms in the cost of an operation.
pub fn find_op_cost_terms(
    op: &Op,
    native_granularity: &Granularity,
    execution_granularity: &Granularity,
    output_tensor: &Tensor,
) -> (terms: Option<OpCostTerms>)
    requires
        arith::fits(native_granularity.width * native_granularity.height),
        arith::fits(execution_granularity.width * execution_granularity.height),
    ensures
        terms == op_cost_terms(*op, *native_granularity, *execution_granularity, *output_tensor),
{
    let g: &Granularity = execution_granularity;
    if g.width <= 0 || g.height <= 0 || output_tensor.width <= 0 || output_tensor.height <= 0 {
        return None;
    }
    let across: i128 = ceiling_of(output_tensor.width, g.width);
    let down: i128 = ceiling_of(output_tensor.height, g.height);
    assert(1 <= across * down <= 0x7fff_ffff_ffff_ffff * 0x7fff_ffff_ffff_ffff) by (nonlinear_arith)
        requires
            1 <= across <= 0x7fff_ffff_ffff_ffff,
            1 <= down <= 0x7fff_ffff_ffff_ffff,
    ;
    let parts: i64 = if op.op_type == OpType::MatMul && g.depth > 1 {
        arith::least_of(g.depth, MAX_REASONABLE_SPLIT_K)
    } else {
        1
    };
    Some(
        OpCostTerms {
            tiles: across * down,
            native_tile: arith::greatest_of(native_granularity.width * native_granularity.height, 1),
            tile: arith::greatest_of(g.width * g.height, 1),
            parts,
        },
    )
}

/// The operation counts towards the cost: it exists and its first output is a tensor of the problem.
pub open spec fn is_charged(p: Problem, op: OpId) -> bool {
    op < p.ops@.len() && p.ops@[op as int].outputs@.len() > 0 && p.ops@[op as int].outputs@[0] < p.tensors@.len()
}

/// The operations among the first `k` that count towards the cost, each with its first output.
pub open spec fn charged(p: Problem, group: Seq<OpId>, k: nat) -> Seq<(OpId, TensorId)>
    decreases k,
{
    if k == 0 {
        Seq::empty()
    } else {
        let rest = charged(p, group, (k - 1) as nat);
        let op = group[k - 1];
        if is_charged(p, op) {
            rest.push((op, p.ops@[op as int].outputs@[0]))
        } else {
            rest
        }
    }
}

/// Finds the operations that count towards the cost of the group.
pub fn find_charged_ops(ops: &[OpId], problem: &Problem) -> (found: Vec<(OpId, TensorId)>)
    ensures
        found@ == charged(*problem, ops@, ops@.len()),
{
    let mut found: Vec<(OpId, TensorId)> = Vec::new();
    let mut i: usize = 0;
    while i < ops.len()
        invariant
            i <= ops@.len(),
            found@ == charged(*problem, ops@, i as nat),
        decreases ops@.len() - i,
    {
        let op: OpId = ops[i];
        if op < problem.ops.len() && problem.ops[op].outputs.len() > 0 {
            let t: TensorId = problem.ops[op].outputs[0];
            if t < problem.tensors.len() {
                found.push((op, t));
            }
        }
        i = i + 1;
    }
    found
}

/// A positive fraction.
#[derive(Debug, Clone, Copy)]
pub struct Fraction {
    pub numerator: u128,
    pub denominator: u128,
}

/// The operations of the group that exist.
pub open spec fn existing(p: Problem, group: Seq<OpId>, k: nat) -> Seq<OpId>
    decreases k,
{
    if k == 0 {
        Seq::empty()
    } else {
        let rest = existing(p, group, (k - 1) as nat);
        if group[k - 1] < p.ops@.len() {
            rest.push(group[k - 1])
        } else {
            rest
        }
    }
}

/// How many of the first `k` listed tensors are described.
pub open spec fn described(meta: Seq<TensorMeta>, listed: Seq<TensorId>, k: nat) -> nat
    decreases k,
{
    if k == 0 {
        0
    } else {
        described(meta, listed, (k - 1) as nat) + if listed[k - 1] < meta.len() { 1nat } else { 0nat }
    }
}

/// How many of the first `k` listed tensors are described and not needed outside the group.
pub open spec fn ephemeral(meta: Seq<TensorMeta>, group: Seq<OpId>, listed: Seq<TensorId>, k: nat) -> nat
    decreases k,
{
    if k == 0 {
        0
    } else {
        ephemeral(meta, group, listed, (k - 1) as nat) + if listed[k - 1] < meta.len() && !memory::needed_outside(
            group,
            meta[listed[k - 1] as int],
        ) { 1nat } else { 0nat }
    }
}

/// Counts the outputs of the group that are described, and those of them that are not
/// needed outside the group.
pub fn count_outputs(listed: &Vec<TensorId>, ops: &[OpId], tensor_meta: &[TensorMeta]) -> (counts: (usize, usize))
    ensures
        counts.0 == described(tensor_meta@, listed@, listed@.len()),
        counts.1 == ephemeral(tensor_meta@, ops@, listed@, listed@.len()),
        counts.1 <= counts.0 <= listed@.len(),
{
    let group: HashSet<OpId> = ids::set_of(ops);
    let mut all: usize = 0;
    let mut inner: usize = 0;
    let mut i: usize = 0;
    while i < listed.len()
        invariant
            i <= listed.len(),
            inner <= all <= i,
            forall|x: usize| #[trigger] group@.contains(x) <==> ops@.contains(x),
            all == described(tensor_meta@, listed@, i as nat),
            inner == ephemeral(tensor_meta@, ops@, listed@, i as nat),
        decreases listed.len() - i,
    {
        let t: TensorId = listed[i];
        if t < tensor_meta.len() {
            all = all + 1;
            if !memory::is_needed_outside(&group, &tensor_meta[t], Ghost(ops@)) {
                inner = inner + 1;
            }
        }
        i = i + 1;
    }
    (all, inner)
}

/// What large groups gain on top, in hundredths.
pub open spec fn size_gain(len: nat) -> int {
    if len > 20 {
        15
    } else if len > 12 {
        10
    } else if len > 6 {
        5
    } else {
        0
    }
}

/// The most that a group can gain, in hundredths.
pub open spec fn gain_limit(len: nat) -> int {
    if len > 15 {
        75
    } else {
        80
    }
}

/// The cost that stays when `inner` of `all` outputs never reach slow memory, in
/// hundredths of all outputs: up to 80 hundredths are saved, and large groups save more.
pub open spec fn elimination_kept(len: nat, all: nat, inner: nat) -> int {
    100 * all - arith::least(80 * inner + size_gain(len) * all, gain_limit(len) * all)
}

/// The part of the cost that stays when the inner outputs of a group never reach slow memory.
pub fn find_elimination_factor(ops: &[OpId], problem: &Problem) -> (f: Fraction)
    ensures
        ({
            let here = existing(*problem, ops@, ops@.len());
            let outs = candidates::outputs(*problem, here);
            exists|meta: Seq<TensorMeta>| #[trigger]
                problem.has_meta(meta) && {
                    let all = described(meta, outs, outs.len());
                    let inner = ephemeral(meta, ops@, outs, outs.len());
                    if ops@.len() <= 1 || all == 0 {
                        f.numerator == 1 && f.denominator == 1
                    } else {
                        f.numerator == elimination_kept(ops@.len(), all, inner) && f.denominator == 100 * all
                    }
                }
        }),
{
    let meta: Vec<TensorMeta> = problem.build_tensor_meta();
    assert(problem.has_meta(meta@));
    if ops.len() <= 1 {
        return Fraction { numerator: 1, denominator: 1 };
    }
    let here: Vec<OpId> = keep_existing(ops, problem);
    let outs: Vec<TensorId> = memory::gather_outputs(here.as_slice(), problem);
    let (all, inner): (usize, usize) = count_outputs(&outs, ops, meta.as_slice());
    if all == 0 {
        return Fraction { numerator: 1, denominator: 1 };
    }
    let n: usize = ops.len();
    let gain: u128 = if n > 20 {
        15
    } else if n > 12 {
        10
    } else if n > 6 {
        5
    } else {
        0
    };
    let limit: u128 = if n > 15 {
        75
    } else {
        80
    };
    assert(gain * all <= 15 * 0xffff_ffff_ffff_ffff) by (nonlinear_arith)
        requires
            0 <= gain <= 15,
            0 <= all <= 0xffff_ffff_ffff_ffff,
    ;
    assert(0 <= gain * all && limit * all <= 80 * all && 0 <= limit * all) by (nonlinear_arith)
        requires
            0 <= gain <= 15,
            0 <= limit <= 80,
            0 <= all,
    ;
    let saved: u128 = 80 * inner as u128 + gain * all as u128;
    let most: u128 = limit * all as u128;
    let cut: u128 = if saved <= most {
        saved
    } else {
        most
    };
    Fraction { numerator: 100 * all as u128 - cut, denominator: 100 * all as u128 }
}

/// The operations of the group that exist.
fn keep_existing(ops: &[OpId], problem: &Problem) -> (here: Vec<OpId>)
    ensures
        here@ == existing(*problem, ops@, ops@.len()),
        forall|i: int| 0 <= i < here@.len() ==> (#[trigger] here@[i]) < problem.ops@.len(),
{
    let mut here: Vec<OpId> = Vec::new();
    let mut i: usize = 0;
    while i < ops.len()
        invariant
            i <= ops@.len(),
            here@ == existing(*problem, ops@, i as nat),
            forall|i: int| 0 <= i < here@.len() ==> (#[trigger] here@[i]) < problem.ops@.len(),
        decreases ops@.len() - i,
    {
        if ops[i] < problem.ops.len() {
            here.push(ops[i]);
        }
        i = i + 1;
    }
    here
}

/// One operation takes in what the other puts out.
pub open spec fn feeds(from: Op, to: Op) -> bool {
    exists|j: int| 0 <= j < from.outputs@.len() && to.inputs@.contains(#[trigger] from.outputs@[j])
}

/// What the step from one operation to the next is worth: two for a matrix product that
/// feeds a pointwise operation, one for any other that is fed, else nothing.
pub open spec fn step_worth(from: Op, to: Op) -> nat {
    if !feeds(from, to) {
        0
    } else if from.op_type == OpType::MatMul && to.op_type == OpType::Pointwise {
        2
    } else {
        1
    }
}

/// The step exists: both operations do.
pub open spec fn is_step(p: Problem, group: Seq<OpId>, i: int) -> bool {
    group[i] < p.ops@.len() && group[i + 1] < p.ops@.len()
}

/// The number of the first `k` steps that exist.
pub open spec fn steps(p: Problem, group: Seq<OpId>, k: nat) -> nat
    decreases k,
{
    if k == 0 {
        0
    } else {
        steps(p, group, (k - 1) as nat) + if is_step(p, group, k - 1) { 1nat } else { 0nat }
    }
}

/// What the first `k` steps are worth.
pub open spec fn steps_worth(p: Problem, group: Seq<OpId>, k: nat) -> nat
    decreases k,
{
    if k == 0 {
        0
    } else {
        steps_worth(p, group, (k - 1) as nat) + if is_step(p, group, k - 1) {
            step_worth(p.ops@[group[k - 1] as int], p.ops@[group[k as int] as int])
        } else {
            0
        }
    }
}

fn is_feeding(from: &Op, to: &Op) -> (yes: bool)
    ensures
        yes == feeds(*from, *to),
{
    let mut j: usize = 0;
    while j < from.outputs.len()
        invariant
            j <= from.outputs.len(),
            forall|x: int| 0 <= x < j ==> !to.inputs@.contains(#[trigger] from.outputs@[x]),
        decreases from.outputs.len() - j,
    {
        if ids::is_listed(&to.inputs, from.outputs[j]) {
            assert(to.inputs@.contains(from.outputs@[j as int]));
            return true;
        }
        j = j + 1;
    }
    false
}

/// The part of the cost that stays when neighbouring operations of a group run as one:
/// four fifteenths of what the steps are worth are saved, at most six fifteenths.
pub fn find_sequence_factor(ops: &[OpId], problem: &Problem) -> (f: Fraction)
    ensures
        ({
            let last = if ops@.len() == 0 { 0 } else { (ops@.len() - 1) as nat };
            let all = steps(*problem, ops@, last);
            let worth = steps_worth(*problem, ops@, last);
            if ops@.len() < 2 || all == 0 {
                f.numerator == 1 && f.denominator == 1
            } else {
                f.numerator == 15 * all - arith::least(4 * worth as int, 6 * all as int) && f.denominator == 15 * all
            }
        }),
{
    if ops.len() < 2 {
        return Fraction { numerator: 1, denominator: 1 };
    }
    let last: usize = ops.len() - 1;
    let mut all: usize = 0;
    let mut worth: u128 = 0;
    let mut i: usize = 0;
    while i < last
        invariant
            i <= last,
            last == ops@.len() - 1,
            all <= i,
            worth <= 2 * i,
            all == steps(*problem, ops@, i as nat),
            worth == steps_worth(*problem, ops@, i as nat),
        decreases last - i,
    {
        let a: OpId = ops[i];
        let b: OpId = ops[i + 1];
        if a < problem.ops.len() && b < problem.ops.len() {
            assert(is_step(*problem, ops@, i as int));
            all = all + 1;
            let from: &Op = &problem.ops[a];
            let to: &Op = &problem.ops[b];
            if is_feeding(from, to) {
                if from.op_type == OpType::MatMul && to.op_type == OpType::Pointwise {
                    worth = worth + 2;
                } else {
                    worth = worth + 1;
                }
            }
        }
        i = i + 1;
    }
    if all == 0 {
        return Fraction { numerator: 1, denominator: 1 };
    }
    let most: u128 = 6 * all as u128;
    let saved: u128 = 4 * worth;
    let cut: u128 = if saved <= most {
        saved
    } else {
        most
    };
    Fraction { numerator: 15 * all as u128 - cut, denominator: 15 * all as u128 }
}

/// The least part of the cost that stays, whatever is saved, in hundredths.
pub open spec fn fusion_floor(len: nat) -> int {
    if len > 100 {
        2
    } else if len >= 50 {
        5
    } else if len >= 20 {
        10
    } else {
        15
    }
}

/// The least part of the cost of a group of `len` operations that stays, in hundredths.
pub fn find_fusion_floor(len: usize) -> (percent: u8)
    ensures
        percent == fusion_floor(len as nat),
{
    if len > 100 {
        2
    } else if len >= 50 {
        5
    } else if len >= 20 {
        10
    } else {
        15
    }
}

/// What setting up a group costs less the more operations share it, in hundredths.
pub open spec fn amortization(len: nat) -> int {
    if len >= 50 {
        85
    } else if len >= 20 {
        88
    } else if len >= 10 {
        92
    } else if len >= 5 {
        96
    } else {
        100
    }
}

/// The part of the latency of a group of `len` operations that stays, in hundredths.
pub fn find_amortization(len: usize) -> (percent: u8)
    ensures
        percent == amortization(len as nat),
{
    if len >= 50 {
        85
    } else if len >= 20 {
        88
    } else if len >= 10 {
        92
    } else if len >= 5 {
        96
    } else {
        100
    }
}

/// The tensor is described, known and produced outside the group.
pub open spec fn is_read(p: Problem, meta: Seq<TensorMeta>, group: Seq<OpId>, t: TensorId) -> bool {
    t < meta.len() && t < p.tensors@.len() && memory::from_outside(group, meta[t as int])
}

/// The tensors that the group reads, in order of first mention.
pub open spec fn reads(p: Problem, meta: Seq<TensorMeta>, group: Seq<OpId>) -> Seq<TensorId> {
    let here = existing(p, group, group.len());
    let all = memory::inputs_of(here, p.ops@, here.len());
    ids::first_mentions(all, |t: usize| is_read(p, meta, group, t), all.len())
}

/// The size of those of the first `k` listed tensors that are in fast memory.
pub open spec fn resident_bytes(p: Problem, listed: Seq<TensorId>, resident: Set<TensorId>, k: nat) -> int
    decreases k,
{
    if k == 0 {
        0
    } else {
        resident_bytes(p, listed, resident, (k - 1) as nat) + if resident.contains(listed[k - 1]) {
            p.tensors@[listed[k - 1] as int].area()
        } else {
            0
        }
    }
}

/// The size of those of the first `k` listed tensors that are not in fast memory.
pub open spec fn absent_bytes(p: Problem, listed: Seq<TensorId>, resident: Set<TensorId>, k: nat) -> int
    decreases k,
{
    if k == 0 {
        0
    } else {
        absent_bytes(p, listed, resident, (k - 1) as nat) + if resident.contains(listed[k - 1]) {
            0
        } else {
            p.tensors@[listed[k - 1] as int].area()
        }
    }
}

/// The tensor is described, known, needed outside the group and not kept.
pub open spec fn is_written(p: Problem, meta: Seq<TensorMeta>, group: Seq<OpId>, kept: Seq<TensorId>, t: TensorId) -> bool {
    &&& t < meta.len()
    &&& t < p.tensors@.len()
    &&& memory::needed_outside(group, meta[t as int])
    &&& !kept.contains(t)
}

/// The size of what is written of the first `k` listed tensors.
pub open spec fn written_bytes(
    p: Problem,
    meta: Seq<TensorMeta>,
    group: Seq<OpId>,
    kept: Seq<TensorId>,
    listed: Seq<TensorId>,
    k: nat,
) -> int
    decreases k,
{
    if k == 0 {
        0
    } else {
        written_bytes(p, meta, group, kept, listed, (k - 1) as nat) + if is_written(p, meta, group, kept, listed[k - 1]) {
            p.tensors@[listed[k - 1] as int].area()
        } else {
            0
        }
    }
}

/// One of the first `k` listed tensors is known and large.
pub open spec fn any_large(p: Problem, listed: Seq<TensorId>, k: int) -> bool {
    exists|i: int|
        0 <= i < k && (#[trigger] listed[i]) < p.tensors@.len() && p.tensors@[listed[i] as int].area()
            >= LARGE_TENSOR_THRESHOLD
}

/// What a group moves between slow and fast memory.
#[derive(Debug, Clone, Copy)]
pub struct TransferVolumes {
    /// The size of what is read from slow memory.
    pub dram_read: i128,
    /// The size of what is read and in fast memory already.
    pub sram_read: i128,
    /// The size of what is written to slow memory.
    pub dram_write: i128,
    /// An output of the group is large.
    pub large: bool,
}

impl TransferVolumes {
    /// This is what the group moves.
    pub open spec fn is_of(
        &self,
        p: Problem,
        meta: Seq<TensorMeta>,
        group: Seq<OpId>,
        resident: Set<TensorId>,
        kept: Seq<TensorId>,
    ) -> bool {
        let here = existing(p, group, group.len());
        let outs = candidates::outputs(p, here);
        let ins = reads(p, meta, group);
        &&& self.dram_read == absent_bytes(p, ins, resident, ins.len())
        &&& self.sram_read == resident_bytes(p, ins, resident, ins.len())
        &&& self.dram_write == written_bytes(p, meta, group, kept, outs, outs.len())
        &&& self.large == any_large(p, outs, outs.len() as int)
    }
}

/// The known tensors that the group reads or puts out have measurable sizes.
pub open spec fn traffic_fits(p: Problem, group: Seq<OpId>) -> bool {
    let here = existing(p, group, group.len());
    &&& forall|t: TensorId|
        t < p.tensors@.len() && #[trigger] memory::inputs_of(here, p.ops@, here.len()).contains(t) ==> arith::fits(
            p.tensors@[t as int].area(),
        )
    &&& forall|t: TensorId|
        t < p.tensors@.len() && #[trigger] candidates::outputs(p, here).contains(t) ==> arith::fits(
            p.tensors@[t as int].area(),
        )
}

/// Lists what the group reads.
fn find_reads(ops: &[OpId], here: &Vec<OpId>, problem: &Problem, tensor_meta: &[TensorMeta]) -> (found: Vec<TensorId>)
    requires
        here@ == existing(*problem, ops@, ops@.len()),
        forall|i: int| 0 <= i < here@.len() ==> (#[trigger] here@[i]) < problem.ops@.len(),
    ensures
        found@ == reads(*problem, tensor_meta@, ops@),
        forall|i: int|
            0 <= i < found@.len() ==> (#[trigger] found@[i]) < problem.tensors@.len() && memory::inputs_of(
                here@,
                problem.ops@,
                here@.len(),
            ).contains(found@[i]),
{
    let ghost p = *problem;
    let ghost meta = tensor_meta@;
    let group: HashSet<OpId> = ids::set_of(ops);
    let all: Vec<TensorId> = memory::gather_inputs(here.as_slice(), problem);
    let ghost keep = |t: usize| is_read(p, meta, ops@, t);
    let mut flags: Vec<bool> = Vec::new();
    let mut i: usize = 0;
    while i < all.len()
        invariant
            i <= all.len(),
            p == *problem,
            meta == tensor_meta@,
            keep == |t: usize| is_read(p, meta, ops@, t),
            forall|x: usize| #[trigger] group@.contains(x) <==> ops@.contains(x),
            flags.len() == i,
            forall|j: int| 0 <= j < i ==> #[trigger] flags@[j] == keep(all@[j]),
        decreases all.len() - i,
    {
        let t: TensorId = all[i];
        let outside: bool = if t < tensor_meta.len() && t < problem.tensors.len() {
            memory::comes_from_outside(&group, &tensor_meta[t], Ghost(ops@))
        } else {
            false
        };
        flags.push(outside);
        i = i + 1;
    }
    let found: Vec<TensorId> = ids::collect_first_mentions(&all, &flags, Ghost(keep));
    proof {
        ids::lemma_first_mentions(all@, keep, all@.len());
        assert(all@.take(all@.len() as int) =~= all@);
        assert forall|i: int| 0 <= i < found@.len() implies (#[trigger] found@[i]) < problem.tensors@.len()
            && memory::inputs_of(here@, problem.ops@, here@.len()).contains(found@[i]) by {
            assert(found@.contains(found@[i]));
        }
    }
    found
}

/// Measures what the group moves between slow and fast memory.
pub fn measure_transfers(
    ops: &[OpId],
    problem: &Problem,
    tensor_meta: &[TensorMeta],
    memory_state: &MemoryState,
    tensors_to_retain: &[TensorId],
) -> (v: TransferVolumes)
    requires
        traffic_fits(*problem, ops@),
    ensures
        v.is_of(*problem, tensor_meta@, ops@, memory_state.resident_tensors@, tensors_to_retain@),
{
    broadcast use vstd::std_specs::hash::group_hash_axioms;

    let ghost p = *problem;
    let ghost meta = tensor_meta@;
    let ghost resident = memory_state.resident_tensors@;
    let here: Vec<OpId> = keep_existing(ops, problem);
    let ins: Vec<TensorId> = find_reads(ops, &here, problem, tensor_meta);
    let ghost all_in = memory::inputs_of(here@, p.ops@, here@.len());
    let mut dram_read: i128 = 0;
    let mut sram_read: i128 = 0;
    let mut i: usize = 0;
    while i < ins.len()
        invariant
            i <= ins.len(),
            p == *problem,
            resident == memory_state.resident_tensors@,
            all_in == memory::inputs_of(here@, p.ops@, here@.len()),
            forall|t: TensorId|
                t < p.tensors@.len() && #[trigger] all_in.contains(t) ==> arith::fits(p.tensors@[t as int].area()),
            forall|i: int|
                0 <= i < ins@.len() ==> (#[trigger] ins@[i]) < p.tensors@.len() && all_in.contains(ins@[i]),
            dram_read == absent_bytes(p, ins@, resident, i as nat),
            sram_read == resident_bytes(p, ins@, resident, i as nat),
            -(i * 0x8000_0000_0000_0000) <= dram_read <= i * 0x8000_0000_0000_0000,
            -(i * 0x8000_0000_0000_0000) <= sram_read <= i * 0x8000_0000_0000_0000,
        decreases ins.len() - i,
    {
        let t: TensorId = ins[i];
        assert(ins@[i as int] < p.tensors@.len());
        assert(i * 0x8000_0000_0000_0000 <= 0xffff_ffff_ffff_ffff * 0x8000_0000_0000_0000) by (nonlinear_arith)
            requires
                i <= 0xffff_ffff_ffff_ffff,
        ;
        let size: i128 = problem.tensors[t].size() as i128;
        if memory_state.is_resident(t) {
            sram_read = sram_read + size;
        } else {
            dram_read = dram_read + size;
        }
        i = i + 1;
    }
    let group: HashSet<OpId> = ids::set_of(ops);
    let kept: HashSet<TensorId> = ids::set_of(tensors_to_retain);
    let outs: Vec<TensorId> = memory::gather_outputs(here.as_slice(), problem);
    assert(outs@ == candidates::outputs(p, here@));
    let mut dram_write: i128 = 0;
    let mut large: bool = false;
    let mut j: usize = 0;
    while j < outs.len()
        invariant
            j <= outs.len(),
            p == *problem,
            meta == tensor_meta@,
            outs@ == candidates::outputs(p, here@),
            forall|x: usize| #[trigger] group@.contains(x) <==> ops@.contains(x),
            forall|x: usize| #[trigger] kept@.contains(x) <==> tensors_to_retain@.contains(x),
            forall|t: TensorId|
                t < p.tensors@.len() && #[trigger] outs@.contains(t) ==> arith::fits(p.tensors@[t as int].area()),
            dram_write == written_bytes(p, meta, ops@, tensors_to_retain@, outs@, j as nat),
            large == any_large(p, outs@, j as int),
            -(j * 0x8000_0000_0000_0000) <= dram_write <= j * 0x8000_0000_0000_0000,
        decreases outs.len() - j,
    {
        let t: TensorId = outs[j];
        assert(outs@.contains(outs@[j as int]));
        assert(j * 0x8000_0000_0000_0000 <= 0xffff_ffff_ffff_ffff * 0x8000_0000_0000_0000) by (nonlinear_arith)
            requires
                j <= 0xffff_ffff_ffff_ffff,
        ;
        if t < problem.tensors.len() {
            let size: i64 = problem.tensors[t].size();
            if size >= LARGE_TENSOR_THRESHOLD {
                assert(outs@[j as int] < p.tensors@.len());
                large = true;
            }
            if t < tensor_meta.len() && memory::is_needed_outside(&group, &tensor_meta[t], Ghost(ops@)) && !kept.contains(
                &t,
            ) {
                dram_write = dram_write + size as i128;
            }
        }
        j = j + 1;
    }
    TransferVolumes { dram_read, sram_read, dram_write, large }
}

/// The tiles of a grid in the order of the snake, numbered row by row.
pub open spec fn is_snake(order: Seq<i64>, w: int, h: int) -> bool {
    &&& order.len() == w * h
    &&& forall|i: int|
        0 <= i < w * h ==> #[trigger] order[i] == snake::row_at(w, i) * w + snake::col_at(w, i)
}

/// The order in which tiles are worked on, such that neighbours follow each other.
pub fn generate_snake_traversal(w_tiles: i64, h_tiles: i64) -> (order: Vec<i64>)
    requires
        arith::fits(w_tiles * h_tiles),
        w_tiles * h_tiles <= usize::MAX,
        w_tiles <= usize::MAX,
        h_tiles <= usize::MAX,
    ensures
        if w_tiles * h_tiles <= 1 {
            order@ == seq![0i64]
        } else if w_tiles < 0 {
            order@.len() == 0
        } else {
            is_snake(order@, w_tiles as int, h_tiles as int)
        },
{
    let mut order: Vec<i64> = Vec::new();
    if w_tiles * h_tiles <= 1 {
        order.push(0);
        assert(order@ =~= seq![0i64]);
        return order;
    }
    if w_tiles < 0 {
        return order;
    }
    assert(w_tiles > 0 && h_tiles > 0) by (nonlinear_arith)
        requires
            w_tiles * h_tiles > 1,
            w_tiles >= 0,
    ;
    let ghost w = w_tiles as int;
    let ghost h = h_tiles as int;
    let walk: Vec<(usize, usize)> = snake::walk_grid(w_tiles as usize, h_tiles as usize);
    let mut i: usize = 0;
    while i < walk.len()
        invariant
            i <= walk.len(),
            w == w_tiles,
            h == h_tiles,
            w > 0,
            h > 0,
            w * h <= i64::MAX,
            snake::is_walk(walk@, w, h),
            order.len() == i,
            forall|j: int| 0 <= j < i ==> #[trigger] order@[j] == snake::row_at(w, j) * w + snake::col_at(w, j),
        decreases walk.len() - i,
    {
        let (row, col): (usize, usize) = walk[i];
        proof {
            assert(walk@[i as int].0 == snake::row_at(w, i as int));
            snake::walk_stays_on_grid(w, h, i as int);
            assert(0 <= row * w && row * w + col < w * h) by (nonlinear_arith)
                requires
                    0 <= row < h,
                    0 <= col < w,
            ;
        }
        order.push(row as i64 * w_tiles + col as i64);
        i = i + 1;
    }
    order
}

/// The part of the transfers that stays when tiles are worked on in the order of the
/// snake: an inner tile saves half, one at the border a quarter; grids without an inner
/// tile save a tenth.
pub open spec fn snake_kept(w: int, h: int) -> (int, int) {
    let all = w * h;
    let border = 2 * (w + h) - 4;
    let inner = all - arith::greatest(border, 0);
    if all <= 1 {
        (1, 1)
    } else if inner > 0 {
        (4 * all - (2 * inner + border), 4 * all)
    } else {
        (9, 10)
    }
}

/// Finds the part of the transfers that stays when tiles are worked on in the order of the snake.
pub fn find_snake_factor(tensor: &Tensor, granularity: &Granularity) -> (f: Fraction)
    requires
        granularity.width != 0,
        granularity.height != 0,
        arith::fits(tensor.width + granularity.width),
        arith::fits(tensor.width + granularity.width - 1),
        arith::fits(tensor.height + granularity.height),
        arith::fits(tensor.height + granularity.height - 1),
        arith::fits(Granularity::tiles_along(tensor.width as int, granularity.width as int)),
        arith::fits(Granularity::tiles_along(tensor.height as int, granularity.height as int)),
        arith::fits(
            Granularity::tiles_along(tensor.width as int, granularity.width as int) * Granularity::tiles_along(
                tensor.height as int,
                granularity.height as int,
            ),
        ),
    ensures
        ({
            let kept = snake_kept(
                Granularity::tiles_along(tensor.width as int, granularity.width as int),
                Granularity::tiles_along(tensor.height as int, granularity.height as int),
            );
            f.numerator == kept.0 && f.denominator == kept.1
        }),
{
    let ghost wide = Granularity::tiles_along(tensor.width as int, granularity.width as int);
    let ghost high = Granularity::tiles_along(tensor.height as int, granularity.height as int);
    let w_sum: i64 = tensor.width + granularity.width - 1;
    let h_sum: i64 = tensor.height + granularity.height - 1;
    assert(0x8000_0000_0000_0000int / (-1) == -0x8000_0000_0000_0000) by (nonlinear_arith);
    let w: i128 = (w_sum / granularity.width) as i128;
    let h: i128 = (h_sum / granularity.height) as i128;
    assert(w == wide && h == high);
    let all: i128 = w * h;
    if all <= 1 {
        return Fraction { numerator: 1, denominator: 1 };
    }
    let border: i128 = 2 * (w + h) - 4;
    let inner: i128 = if border > 0 {
        all - border
    } else {
        all
    };
    if inner > 0 {
        let kept: i128 = 4 * all - (2 * inner + border);
        Fraction { numerator: kept as u128, denominator: (4 * all) as u128 }
    } else {
        Fraction { numerator: 9, denominator: 10 }
    }
}

/// How well shapes match, as the part of the transfers that stays, in hundredths: `x` and
/// `y` are the widths of tile and tensor brought to the same height.
pub open spec fn match_kept(x: int, y: int) -> int {
    let lesser = arith::least(x, y);
    let greater = arith::greatest(x, y);
    if lesser < 0 {
        85
    } else if lesser == 0 {
        100
    } else if 10 * greater <= 11 * lesser {
        85
    } else if 10 * greater <= 13 * lesser {
        90
    } else if 2 * greater <= 3 * lesser {
        94
    } else if greater <= 2 * lesser {
        97
    } else if greater <= 3 * lesser {
        99
    } else {
        100
    }
}

/// The sides of a shape; one by one if it has no height.
pub open spec fn ratio_sides(w: int, h: int) -> (int, int) {
    if h > 0 {
        (w, h)
    } else {
        (1, 1)
    }
}

/// The part of the transfers that stays for a tile of this shape, in hundredths.
pub fn find_shape_match(tile_width: i64, tile_height: i64, tensor: &Tensor) -> (percent: u8)
    ensures
        ({
            let a = ratio_sides(tensor.width as int, tensor.height as int);
            let b = ratio_sides(tile_width as int, tile_height as int);
            percent == match_kept(a.0 * b.1, b.0 * a.1)
        }),
{
    let (tw, th): (i128, i128) = if tensor.height > 0 {
        (tensor.width as i128, tensor.height as i128)
    } else {
        (1, 1)
    };
    let (w, h): (i128, i128) = if tile_height > 0 {
        (tile_width as i128, tile_height as i128)
    } else {
        (1, 1)
    };
    assert(-0x4000_0000_0000_0000_0000_0000_0000_0000 <= tw * h <= 0x4000_0000_0000_0000_0000_0000_0000_0000)
        by (nonlinear_arith)
        requires
            -0x8000_0000_0000_0000 <= tw < 0x8000_0000_0000_0000,
            1 <= h < 0x8000_0000_0000_0000,
    ;
    assert(-0x4000_0000_0000_0000_0000_0000_0000_0000 <= w * th <= 0x4000_0000_0000_0000_0000_0000_0000_0000)
        by (nonlinear_arith)
        requires
            -0x8000_0000_0000_0000 <= w < 0x8000_0000_0000_0000,
            1 <= th < 0x8000_0000_0000_0000,
    ;
    let x: i128 = tw * h;
    let y: i128 = w * th;
    let lesser: i128 = if x <= y {
        x
    } else {
        y
    };
    let greater: i128 = if x >= y {
        x
    } else {
        y
    };
    if lesser < 0 {
        return 85;
    }
    if lesser == 0 {
        return 100;
    }
    // The difference is compared in place of the greater number, so that no product leaves its type.
    let low: u128 = lesser as u128;
    let gap: u128 = (greater - lesser) as u128;
    if gap <= low / 10 {
        85
    } else if gap <= 3 * low / 10 {
        90
    } else if gap <= low / 2 {
        94
    } else if gap <= low {
        97
    } else if gap <= 2 * low {
        99
    } else {
        100
    }
}

/// Running operations as one never costs more than running them one by one.
pub proof fn fusion_never_costs(len: nat, all: nat, inner: nat)
    requires
        inner <= all,
    ensures
        0 <= elimination_kept(len, all, inner) <= 100 * all,
{
    assert(0 <= size_gain(len) * all && 0 <= gain_limit(len) * all <= 80 * all) by (nonlinear_arith)
        requires
            0 <= size_gain(len) <= 15,
            0 <= gain_limit(len) <= 80,
    ;
}

} // verus!
