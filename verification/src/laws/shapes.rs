//! Which tiles are tried, in which order they are worked on, and which one wins.
use vstd::prelude::*;
use crate::{arith, candidates, cost, cost_model, memory, snake, sorting, tiling};
use crate::models::{Granularity, OpId, OpType, Problem, Tensor, TensorId, TensorMeta};
use crate::tiling::TilingStep;

verus! {

/// A traversal begins at the first tile and goes along the first row. Each step leads to
/// the tile to the right, to the left or below, and every tile is visited.
pub proof fn traversals_visit_neighbours(order: Seq<i64>, w: int, h: int, i: int, tile: int)
    requires
        cost::is_snake(order, w, h),
        w > 0,
        h > 0,
        0 <= i < w * h,
        0 <= tile < w * h,
    ensures
        order.len() == w * h,
        0 <= order[i] < w * h,
        i < w ==> order[i] == i,
        w <= i < 2 * w ==> order[i] == 3 * w - 1 - i,
        i + 1 < w * h ==> order[i + 1] == order[i] + 1 || order[i + 1] == order[i] - 1 || order[i + 1] == order[i] + w,
        (i + 1) % w == 0 && i + 1 < w * h ==> order[i + 1] == order[i] + w,
        exists|at: int| 0 <= at < w * h && #[trigger] order[at] == tile,
{
    snake::walk_stays_on_grid(w, h, i);
    let r = snake::row_at(w, i);
    let c = snake::col_at(w, i);
    assert(order[i] == r * w + c);
    assert(r * w + c < w * h && 0 <= r * w) by (nonlinear_arith)
        requires
            0 <= r < h,
            0 <= c < w,
    ;
    if i < w {
        assert(i / w == 0 && i % w == i) by (nonlinear_arith)
            requires
                0 <= i < w,
        ;
    }
    if w <= i < 2 * w {
        assert(i / w == 1 && i % w == i - w) by (nonlinear_arith)
            requires
                w <= i < 2 * w,
        ;
        assert(r == 1 && c == w - 1 - (i - w));
        assert(r * w == w) by (nonlinear_arith)
            requires
                r == 1,
        ;
    }
    if i + 1 < w * h {
        snake::steps_are_short(w, h, i);
        let r2 = snake::row_at(w, i + 1);
        assert(order[i + 1] == r2 * w + snake::col_at(w, i + 1));
        assert((r + 1) * w == r * w + w) by (nonlinear_arith);
        if (i + 1) % w == 0 {
            assert((i + 1) / w == i / w + 1) by (nonlinear_arith)
                requires
                    (i + 1) % w == 0,
                    w > 0,
                    i >= 0,
            ;
        }
    }
    let row = tile / w;
    let col = tile % w;
    assert(0 <= row < h && 0 <= col < w && tile == row * w + col) by (nonlinear_arith)
        requires
            row == tile / w,
            col == tile % w,
            0 <= tile < w * h,
            w > 0,
    ;
    snake::walk_visits_every_tile(w, h, row, col);
    let at = choose|at: int| 0 <= at < w * h && #[trigger] snake::row_at(w, at) == row && snake::col_at(w, at) == col;
    assert(order[at] == tile);
}

/// Of a grid with inner tiles, each of those saves half of its transfer and each at the
/// border a quarter; of a grid without, a tenth is saved; a single tile saves nothing.
pub proof fn inner_tiles_save_half(w: int, h: int)
    requires
        w >= 1,
        h >= 1,
    ensures
        ({
            let kept = cost::snake_kept(w, h);
            let inner = (w - 2) * (h - 2);
            let border = w * h - inner;
            &&& w == 1 && h == 1 ==> kept.0 == kept.1
            &&& w >= 3 && h >= 3 ==> 4 * (kept.1 - kept.0) * (w * h) == (2 * inner + border) * kept.1
            &&& (w < 3 || h < 3) && !(w == 1 && h == 1) ==> 10 * kept.0 == 9 * kept.1
            &&& 0 < kept.0 <= kept.1
            &&& 2 * kept.0 >= kept.1
        }),
{
    let inner = (w - 2) * (h - 2);
    let all = w * h;
    assert(inner == all - 2 * (w + h) + 4) by (nonlinear_arith)
        requires
            inner == (w - 2) * (h - 2),
            all == w * h,
    ;
    if w >= 3 && h >= 3 {
        assert(inner > 0 && all >= 9) by (nonlinear_arith)
            requires
                inner == (w - 2) * (h - 2),
                all == w * h,
                w >= 3,
                h >= 3,
        ;
        let border = all - inner;
        let kept = cost::snake_kept(w, h);
        assert(kept.1 - kept.0 == 2 * inner + border);
        assert(4 * (2 * inner + border) * all == (2 * inner + border) * (4 * all)) by (nonlinear_arith);
    } else if w == 1 && h == 1 {
    } else {
        assert(all > 1 && inner <= 0 || w == 1 || h == 1) by (nonlinear_arith)
            requires
                inner == (w - 2) * (h - 2),
                all == w * h,
                w >= 1,
                h >= 1,
                w < 3 || h < 3,
        ;
        if w == 1 {
            assert(all == h);
        } else if h == 1 {
            assert(all == w);
        }
    }
}

/// How well shapes match does not depend on which is which, and gets no better the more
/// they differ. Up to 11 tenths of each other 85 hundredths stay, up to 13 tenths 90, up to
/// one and a half 94, up to twice 97, up to three times 99, else all.
pub proof fn matching_shapes_save(x: int, y: int)
    requires
        x > 0,
        y > 0,
    ensures
        cost::match_kept(x, y) == cost::match_kept(y, x),
        cost::match_kept(x, y) <= 85 <==> 10 * x <= 11 * y && 10 * y <= 11 * x,
        cost::match_kept(x, y) <= 90 <==> 10 * x <= 13 * y && 10 * y <= 13 * x,
        cost::match_kept(x, y) <= 94 <==> 2 * x <= 3 * y && 2 * y <= 3 * x,
        cost::match_kept(x, y) <= 97 <==> x <= 2 * y && y <= 2 * x,
        cost::match_kept(x, y) <= 99 <==> x <= 3 * y && y <= 3 * x,
        85 <= cost::match_kept(x, y) <= 100,
{
}

/// The shape that decides which tiles are tried is that of the first of the largest
/// outputs, or one by one without an output of positive size.
pub proof fn the_largest_output_decides(p: Problem, listed: Seq<TensorId>, k: nat)
    requires
        k <= listed.len(),
        forall|i: int|
            0 <= i < listed.len() ==> p.tensors@[(#[trigger] listed[i]) as int].width > 0 && p.tensors@[listed[i] as int].height > 0,
    ensures
        k == 0 ==> cost::dominant(p, listed, k) == (1int, 1int, 0int),
        cost::dominant(p, listed, k).2 >= 0,
        forall|j: int|
            0 <= j < k ==> p.tensors@[(#[trigger] listed[j]) as int].width * p.tensors@[listed[j] as int].height
                <= cost::dominant(p, listed, k).2,
        k > 0 ==> exists|i: int|
            {
                let t = p.tensors@[(#[trigger] listed[i]) as int];
                &&& 0 <= i < k
                &&& cost::dominant(p, listed, k) == (t.width as int, t.height as int, t.width * t.height)
                &&& forall|j: int|
                    0 <= j < i ==> p.tensors@[(#[trigger] listed[j]) as int].width * p.tensors@[listed[j] as int].height
                        < t.width * t.height
            },
    decreases k,
{
    if k > 0 {
        the_largest_output_decides(p, listed, (k - 1) as nat);
        let t = p.tensors@[listed[k - 1] as int];
        assert(t.area() > 0) by (nonlinear_arith)
            requires
                t.width > 0,
                t.height > 0,
                t.area() == t.width * t.height,
        ;
        if t.area() > cost::dominant(p, listed, (k - 1) as nat).2 {
            assert(cost::dominant(p, listed, k) == (t.width as int, t.height as int, t.width * t.height));
            assert(listed[k - 1] == listed[k - 1]);
        } else {
            assert(k - 1 > 0);
            let i = choose|i: int|
                {
                    let t = p.tensors@[(#[trigger] listed[i]) as int];
                    &&& 0 <= i < k - 1
                    &&& cost::dominant(p, listed, (k - 1) as nat) == (
                        t.width as int,
                        t.height as int,
                        t.width * t.height,
                    )
                    &&& forall|j: int|
                        0 <= j < i ==> p.tensors@[(#[trigger] listed[j]) as int].width
                            * p.tensors@[listed[j] as int].height < t.width * t.height
                };
            assert(cost::dominant(p, listed, k) == cost::dominant(p, listed, (k - 1) as nat));
            assert(listed[i] == listed[i]);
        }
    }
}

/// The largest width and height of the outputs.
pub proof fn the_largest_sides_are_found(p: Problem, listed: Seq<TensorId>, k: nat)
    requires
        k <= listed.len(),
    ensures
        forall|j: int| 0 <= j < k ==> p.tensors@[(#[trigger] listed[j]) as int].width <= cost::greatest_width(p, listed, k),
        forall|j: int| 0 <= j < k ==> p.tensors@[(#[trigger] listed[j]) as int].height <= cost::greatest_height(p, listed, k),
        cost::greatest_width(p, listed, k) >= 0,
        cost::greatest_height(p, listed, k) >= 0,
        cost::greatest_width(p, listed, k) > 0 ==> exists|j: int|
            0 <= j < k && p.tensors@[(#[trigger] listed[j]) as int].width == cost::greatest_width(p, listed, k),
        cost::greatest_height(p, listed, k) > 0 ==> exists|j: int|
            0 <= j < k && p.tensors@[(#[trigger] listed[j]) as int].height == cost::greatest_height(p, listed, k),
    decreases k,
{
    if k > 0 {
        the_largest_sides_are_found(p, listed, (k - 1) as nat);
        let w = cost::greatest_width(p, listed, k);
        let h = cost::greatest_height(p, listed, k);
        if w > 0 {
            if w == p.tensors@[listed[k - 1] as int].width {
                assert(listed[k - 1] == listed[k - 1]);
            } else {
                let j = choose|j: int|
                    0 <= j < k - 1 && p.tensors@[(#[trigger] listed[j]) as int].width == cost::greatest_width(
                        p,
                        listed,
                        (k - 1) as nat,
                    );
                assert(listed[j] == listed[j]);
            }
        }
        if h > 0 {
            if h == p.tensors@[listed[k - 1] as int].height {
                assert(listed[k - 1] == listed[k - 1]);
            } else {
                let j = choose|j: int|
                    0 <= j < k - 1 && p.tensors@[(#[trigger] listed[j]) as int].height == cost::greatest_height(
                        p,
                        listed,
                        (k - 1) as nat,
                    );
                assert(listed[j] == listed[j]);
            }
        }
    }
}

/// The short side of a tile keeps the proportions of the shape: for a long side of 256 it
/// is the least multiple of 32 that is not shorter, for one of 128 the greatest multiple
/// of 16 that is not longer, but at least one such step.
pub proof fn short_sides_keep_proportions(short: int, long: int)
    requires
        0 < short < long,
    ensures
        cost::coarse_side(short, long) % 32 == 0,
        32 <= cost::coarse_side(short, long) <= 256,
        256 * short < (cost::coarse_side(short, long) + 1) * long,
        cost::coarse_side(short, long) > 32 ==> (cost::coarse_side(short, long) - 32) * long < 256 * short,
        cost::fine_side(short, long) % 16 == 0,
        16 <= cost::fine_side(short, long) <= 128,
        cost::fine_side(short, long) > 16 ==> cost::fine_side(short, long) * long <= 128 * short,
        128 * short < (cost::fine_side(short, long) + 16) * long,
{
    let a = 256 * short / long;
    let b = 128 * short / long;
    assert(a * long <= 256 * short < (a + 1) * long && 0 <= a < 256) by (nonlinear_arith)
        requires
            a == 256 * short / long,
            0 < short < long,
    ;
    assert(b * long <= 128 * short < (b + 1) * long && 0 <= b < 128) by (nonlinear_arith)
        requires
            b == 128 * short / long,
            0 < short < long,
    ;
    let c = cost::coarse_side(short, long);
    let f = cost::fine_side(short, long);
    assert(c >= a && c >= 32 && c % 32 == 0 && (c > 32 ==> c - 32 < a));
    assert(f % 16 == 0 && f >= 16 && (f > 16 ==> f <= b) && b < f + 16);
    assert((c + 1) * long >= (a + 1) * long) by (nonlinear_arith)
        requires
            c >= a,
            long > 0,
    ;
    if c > 32 {
        assert((c - 32) * long < 256 * short) by (nonlinear_arith)
            requires
                c - 32 < a,
                a * long <= 256 * short,
                long > 0,
        ;
    }
    if f > 16 {
        assert(f * long <= 128 * short) by (nonlinear_arith)
            requires
                f <= b,
                b * long <= 128 * short,
                long > 0,
        ;
    }
    assert((f + 16) * long >= (b + 1) * long) by (nonlinear_arith)
        requires
            b < f + 16,
            long > 0,
    ;
}

/// The list holds the tile, if it is between 16 and 1024 on each side and fills at most a
/// third of fast memory.
pub open spec fn holds_if_it_fits(list: Seq<(i64, i64)>, w: i64, h: i64, capacity: int) -> bool {
    16 <= w <= 1024 && 16 <= h <= 1024 && 3 * (w * h) <= capacity ==> list.contains((w, h))
}

proof fn lemma_offered(list: Seq<(i64, i64)>, offered: Set<(i64, i64)>, capacity: int, w: i64, h: i64)
    requires
        candidates::holds(list, offered, arith::quotient(capacity, 3)),
        capacity >= 0,
        offered.contains((w, h)),
    ensures
        holds_if_it_fits(list, w, h, capacity),
{
    if 16 <= w <= 1024 && 16 <= h <= 1024 && 3 * (w * h) <= capacity {
        assert(candidates::admissible((w, h), arith::quotient(capacity, 3)));
        assert(list.contains((w, h)));
    }
}

/// All tiles that are tried are between 16 and 1024 on each side, fill at most a third of
/// fast memory, and come in ascending order. The usual ones are always among them, small
/// ones and the native one, whole and halved, where fast memory is small, and square ones
/// for matrix products that put out more than 128 by 128.
pub proof fn usual_tiles_are_tried(list: Seq<(i64, i64)>, p: Problem, group: Seq<OpId>)
    requires
        candidates::holds(
            list,
            cost::proposed_tiles(p, group),
            arith::quotient(p.fast_memory_capacity as int, 3),
        ),
        p.fast_memory_capacity >= 0,
    ensures
        ({
            let cap = p.fast_memory_capacity as int;
            let w = p.native_granularity.width;
            let h = p.native_granularity.height;
            let product = exists|i: int, j: int|
                #![trigger p.ops@[group[i] as int].outputs@[j]]
                0 <= i < group.len() && p.ops@[group[i] as int].op_type == OpType::MatMul && 0 <= j
                    < p.ops@[group[i] as int].outputs@.len()
                    && p.tensors@[p.ops@[group[i] as int].outputs@[j] as int].area() > 128 * 128;
            &&& forall|k: int|
                0 <= k < list.len() ==> 16 <= (#[trigger] list[k]).0 <= 1024 && 16 <= list[k].1 <= 1024 && 3 * (list[k].0
                    * list[k].1) <= cap
            &&& forall|a: int, b: int|
                0 <= a < b < list.len() ==> (#[trigger] list[a]).0 < (#[trigger] list[b]).0 || (list[a].0 == list[b].0
                    && list[a].1 < list[b].1)
            &&& holds_if_it_fits(list, 128, 128, cap) && holds_if_it_fits(list, 64, 256, cap) && holds_if_it_fits(
                list,
                256,
                64,
                cap,
            ) && holds_if_it_fits(list, 64, 128, cap) && holds_if_it_fits(list, 128, 64, cap)
            &&& holds_if_it_fits(list, 512, 32, cap) && holds_if_it_fits(list, 32, 512, cap) && holds_if_it_fits(
                list,
                256,
                32,
                cap,
            ) && holds_if_it_fits(list, 32, 256, cap) && holds_if_it_fits(list, 64, 64, cap) && holds_if_it_fits(
                list,
                1024,
                64,
                cap,
            ) && holds_if_it_fits(list, 64, 1024, cap)
            &&& cap < 100_000 ==> holds_if_it_fits(list, 32, 32, cap) && holds_if_it_fits(list, 64, 16, cap)
                && holds_if_it_fits(list, 16, 64, cap) && holds_if_it_fits(list, 16, 32, cap) && holds_if_it_fits(
                list,
                32,
                16,
                cap,
            ) && holds_if_it_fits(list, w, h, cap) && (w >= 0 && h >= 0 ==> holds_if_it_fits(
                list,
                (w as int / 2) as i64,
                (h as int / 2) as i64,
                cap,
            ))
            &&& product ==> holds_if_it_fits(list, 96, 96, cap) && holds_if_it_fits(list, 192, 64, cap)
                && holds_if_it_fits(list, 64, 192, cap)
        }),
{
    let cap = p.fast_memory_capacity as int;
    let all = cost::proposed_tiles(p, group);
    let room = arith::quotient(cap, 3);
    assert forall|k: int| 0 <= k < list.len() implies 16 <= (#[trigger] list[k]).0 <= 1024 && 16 <= list[k].1 <= 1024 && 3
        * (list[k].0 * list[k].1) <= cap by {
        assert(list.contains(list[k]));
        assert(candidates::admissible(list[k], room));
    }
    let usual = cost::TILING_CANDIDATES@;
    assert forall|k: int| 0 <= k < usual.len() implies holds_if_it_fits(
        list,
        (#[trigger] usual[k]).0,
        usual[k].1,
        cap,
    ) by {
        assert(usual.contains(usual[k]));
        assert(candidates::listed(usual).contains(usual[k]));
        assert(all.contains((usual[k].0, usual[k].1)));
        lemma_offered(list, all, cap, usual[k].0, usual[k].1);
    }
    assert(usual[0] == (128i64, 128i64));
    assert(usual[1] == (64i64, 256i64));
    assert(usual[2] == (256i64, 64i64));
    assert(usual[3] == (64i64, 128i64));
    assert(usual[4] == (128i64, 64i64));
    let uneven = cost::ASYMMETRIC_TILING_CANDIDATES@;
    assert forall|k: int| 0 <= k < uneven.len() implies holds_if_it_fits(
        list,
        (#[trigger] uneven[k]).0,
        uneven[k].1,
        cap,
    ) by {
        assert(uneven.contains(uneven[k]));
        assert(candidates::listed(uneven).contains(uneven[k]));
        assert(all.contains((uneven[k].0, uneven[k].1)));
        lemma_offered(list, all, cap, uneven[k].0, uneven[k].1);
    }
    assert(uneven[0] == (512i64, 32i64));
    assert(uneven[1] == (32i64, 512i64));
    assert(uneven[2] == (256i64, 32i64));
    assert(uneven[3] == (32i64, 256i64));
    assert(uneven[6] == (64i64, 64i64));
    assert(uneven[12] == (1024i64, 64i64));
    assert(uneven[13] == (64i64, 1024i64));
    if cap < 100_000 {
        let small = cost::SMALL_TILES@;
        assert forall|k: int| 0 <= k < small.len() implies holds_if_it_fits(
            list,
            (#[trigger] small[k]).0,
            small[k].1,
            cap,
        ) by {
            assert(small.contains(small[k]));
            assert(candidates::listed(small).contains(small[k]));
            assert(all.contains((small[k].0, small[k].1)));
            lemma_offered(list, all, cap, small[k].0, small[k].1);
        }
        assert(small[0] == (32i64, 32i64));
        assert(small[4] == (64i64, 16i64));
        assert(small[5] == (16i64, 64i64));
        assert(small[6] == (32i64, 16i64));
        assert(small[7] == (16i64, 32i64));
        let w = p.native_granularity.width;
        let h = p.native_granularity.height;
        assert(cost::native_tiles(p).contains((w, h)));
        assert(all.contains((w, h)));
        lemma_offered(list, all, cap, w, h);
        if w >= 0 && h >= 0 {
            let half = ((w as int / 2) as i64, (h as int / 2) as i64);
            assert(cost::native_tiles(p).contains(half));
            assert(all.contains(half));
            lemma_offered(list, all, cap, half.0, half.1);
        }
    }
    if exists|i: int, j: int|
        #![trigger p.ops@[group[i] as int].outputs@[j]]
        0 <= i < group.len() && p.ops@[group[i] as int].op_type == OpType::MatMul && 0 <= j
            < p.ops@[group[i] as int].outputs@.len() && p.tensors@[p.ops@[group[i] as int].outputs@[j] as int].area() > 128
            * 128 {
        let (i, j) = choose|i: int, j: int|
            #![trigger p.ops@[group[i] as int].outputs@[j]]
            0 <= i < group.len() && p.ops@[group[i] as int].op_type == OpType::MatMul && 0 <= j
                < p.ops@[group[i] as int].outputs@.len() && p.tensors@[p.ops@[group[i] as int].outputs@[j] as int].area()
                > 128 * 128;
        assert(cost::is_large_matmul(p, group[i] as int));
        assert(cost::has_large_matmul(p, group));
        let square = cost::MATMUL_TILES@;
        assert forall|k: int| 0 <= k < square.len() implies holds_if_it_fits(
            list,
            (#[trigger] square[k]).0,
            square[k].1,
            cap,
        ) by {
            assert(square.contains(square[k]));
            assert(candidates::listed(square).contains(square[k]));
            assert(all.contains((square[k].0, square[k].1)));
            lemma_offered(list, all, cap, square[k].0, square[k].1);
        }
        assert(square[1] == (96i64, 96i64));
        assert(square[2] == (192i64, 64i64));
        assert(square[3] == (64i64, 192i64));
    }
}

/// Which tiles the shape of the largest output adds: wide ones if it is wide, tall ones if
/// it is tall, none if it is nearly square; and where a side reaches 512, or 256, tiles
/// whose proportions are those of the shape.
pub proof fn tiles_follow_the_shape(w: int, h: int, max_w: int, max_h: int)
    requires
        w > 0,
        h > 0,
    ensures
        ({
            let tiles = cost::shape_tiles(w, h, max_w, max_h);
            &&& w > 3 * h ==> tiles.contains((512, 128)) && tiles.contains((256, 64)) && tiles.contains((512, 64))
                && tiles.contains((1024, 128)) && tiles.contains((256, 128))
            &&& 2 * h < w <= 3 * h ==> tiles.contains((256, 32)) && tiles.contains((512, 32)) && tiles.contains((256, 64))
                && tiles.contains((384, 48)) && tiles.contains((512, 128))
            &&& 100 * w < 33 * h ==> tiles.contains((128, 512)) && tiles.contains((64, 256)) && tiles.contains((64, 512))
                && tiles.contains((128, 1024)) && tiles.contains((128, 256))
            &&& 2 * w < h && 100 * w >= 33 * h ==> tiles.contains((32, 256)) && tiles.contains((32, 512)) && tiles.contains(
                (64, 256),
            ) && tiles.contains((48, 384))
            &&& w <= 2 * h && 5 * w > 6 * h ==> tiles.contains((192, 96)) && tiles.contains((160, 80))
            &&& 2 * w >= h && 100 * w < 83 * h ==> tiles.contains((96, 192)) && tiles.contains((80, 160))
            &&& 5 * w <= 6 * h && 100 * w >= 83 * h ==> forall|tile: (i64, i64)| !#[trigger] tiles.contains(tile)
            &&& w > 3 * h && max_w >= 512 ==> exists|side: i64|
                32 <= side <= 256 && side % 32 == 0 && 256 * h < (side + 1) * w && (side > 32 ==> (side - 32) * w < 256
                    * h) && #[trigger] tiles.contains((512, side))
            &&& 100 * w < 33 * h && max_h >= 512 ==> exists|side: i64|
                32 <= side <= 256 && side % 32 == 0 && 256 * w < (side + 1) * h && (side > 32 ==> (side - 32) * h < 256
                    * w) && #[trigger] tiles.contains((side, 512))
            &&& 2 * h < w <= 3 * h && max_w >= 256 ==> exists|side: i64|
                16 <= side <= 128 && side % 16 == 0 && 128 * h < (side + 16) * w && #[trigger] tiles.contains((128, side))
            &&& 2 * w < h && 100 * w >= 33 * h && max_h >= 256 ==> exists|side: i64|
                16 <= side <= 128 && side % 16 == 0 && 128 * w < (side + 16) * h && #[trigger] tiles.contains((side, 128))
        }),
{
    let tiles = cost::shape_tiles(w, h, max_w, max_h);
    let very_wide = cost::VERY_WIDE_TILES@;
    let wide = cost::WIDE_TILES@;
    let very_tall = cost::VERY_TALL_TILES@;
    let tall = cost::TALL_TILES@;
    let rather_wide = cost::RATHER_WIDE_TILES@;
    let rather_tall = cost::RATHER_TALL_TILES@;
    if w > 3 * h {
        assert(very_wide[0] == (512i64, 128i64) && very_wide[1] == (256i64, 64i64) && very_wide[2] == (512i64, 64i64)
            && very_wide[3] == (1024i64, 128i64) && very_wide[4] == (256i64, 128i64));
        lemma_listed_all(very_wide);
        if max_w >= 512 {
            short_sides_keep_proportions(h, w);
            let side = cost::coarse_side(h, w) as i64;
            assert(tiles.contains((512, side)));
        }
    } else if w > 2 * h {
        assert(wide[0] == (256i64, 32i64) && wide[1] == (512i64, 32i64) && wide[2] == (256i64, 64i64) && wide[3] == (
            384i64,
            48i64,
        ) && wide[4] == (512i64, 128i64));
        lemma_listed_all(wide);
        if max_w >= 256 {
            short_sides_keep_proportions(h, w);
            let side = cost::fine_side(h, w) as i64;
            assert(tiles.contains((128, side)));
        }
    } else if 100 * w < 33 * h {
        assert(very_tall[0] == (128i64, 512i64) && very_tall[1] == (64i64, 256i64) && very_tall[2] == (64i64, 512i64)
            && very_tall[3] == (128i64, 1024i64) && very_tall[4] == (128i64, 256i64));
        lemma_listed_all(very_tall);
        if max_h >= 512 {
            short_sides_keep_proportions(w, h);
            let side = cost::coarse_side(w, h) as i64;
            assert(tiles.contains((side, 512)));
        }
    } else if 2 * w < h {
        assert(tall[0] == (32i64, 256i64) && tall[1] == (32i64, 512i64) && tall[2] == (64i64, 256i64) && tall[3] == (
            48i64,
            384i64,
        ));
        lemma_listed_all(tall);
        if max_h >= 256 {
            short_sides_keep_proportions(w, h);
            let side = cost::fine_side(w, h) as i64;
            assert(tiles.contains((side, 128)));
        }
    } else if 5 * w > 6 * h {
        assert(rather_wide[0] == (192i64, 96i64) && rather_wide[1] == (160i64, 80i64));
        lemma_listed_all(rather_wide);
    } else if 100 * w < 83 * h {
        assert(rather_tall[0] == (96i64, 192i64) && rather_tall[1] == (80i64, 160i64));
        lemma_listed_all(rather_tall);
    }
}

proof fn lemma_listed_all(list: Seq<(i64, i64)>)
    ensures
        forall|k: int| 0 <= k < list.len() ==> candidates::listed(list).contains(#[trigger] list[k]),
{
    assert forall|k: int| 0 <= k < list.len() implies candidates::listed(list).contains(#[trigger] list[k]) by {
        assert(list.contains(list[k]));
    }
}

/// Every tile is combined with every number of parts, and with nothing else.
pub proof fn tiles_are_combined_with_parts(tiles: Seq<(i64, i64)>, parts: Seq<i64>, k: nat, g: Granularity)
    requires
        k <= tiles.len(),
    ensures
        tiling::combined(tiles, parts, k).contains(g) <==> parts.contains(g.depth) && exists|i: int|
            0 <= i < k && #[trigger] tiles[i] == (g.width, g.height),
        tiling::combined(tiles, parts, k).len() == k * parts.len(),
    decreases k,
{
    if k == 0 {
        assert(0 * parts.len() == 0) by (nonlinear_arith);
    } else {
        tiles_are_combined_with_parts(tiles, parts, (k - 1) as nat, g);
        let before = tiling::combined(tiles, parts, (k - 1) as nat);
        let more = tiling::with_parts(tiles[k - 1], parts, parts.len());
        let all = tiling::combined(tiles, parts, k);
        lemma_with_parts(tiles[k - 1], parts, parts.len());
        assert(k * parts.len() == (k - 1) * parts.len() + parts.len()) by (nonlinear_arith)
            requires
                k > 0,
        ;
        if all.contains(g) {
            let a = choose|a: int| 0 <= a < all.len() && all[a] == g;
            if a < before.len() {
                assert(before[a] == g);
                assert(before.contains(g));
                let i = choose|i: int| 0 <= i < k - 1 && #[trigger] tiles[i] == (g.width, g.height);
                assert(0 <= i < k && tiles[i] == (g.width, g.height));
            } else {
                assert(more[a - before.len()] == g);
                assert(parts[a - before.len()] == g.depth);
                assert(tiles[k - 1] == (g.width, g.height));
            }
        }
        if parts.contains(g.depth) && exists|i: int| 0 <= i < k && #[trigger] tiles[i] == (g.width, g.height) {
            let i = choose|i: int| 0 <= i < k && #[trigger] tiles[i] == (g.width, g.height);
            if i < k - 1 {
                assert(before.contains(g));
                let a = choose|a: int| 0 <= a < before.len() && before[a] == g;
                assert(all[a] == g);
            } else {
                let d = choose|d: int| 0 <= d < parts.len() && parts[d] == g.depth;
                assert(more[d] == g);
                assert(all[before.len() + d] == g);
            }
        }
    }
}

proof fn lemma_with_parts(tile: (i64, i64), parts: Seq<i64>, k: nat)
    requires
        k <= parts.len(),
    ensures
        tiling::with_parts(tile, parts, k).len() == k,
        forall|i: int|
            0 <= i < k ==> #[trigger] tiling::with_parts(tile, parts, k)[i] == (Granularity {
                width: tile.0,
                height: tile.1,
                depth: parts[i],
            }),
    decreases k,
{
    if k > 0 {
        lemma_with_parts(tile, parts, (k - 1) as nat);
    }
}

proof fn lemma_fitting(list: Seq<Granularity>, group: Seq<OpId>, p: Problem, meta: Seq<TensorMeta>, k: nat)
    requires
        k <= list.len(),
    ensures
        tiling::fitting(list, group, p, meta, k) == list.take(k as int).filter(
            |g: Granularity| memory::fits_memory(group, p, g, meta),
        ),
    decreases k,
{
    let pred = |g: Granularity| memory::fits_memory(group, p, g, meta);
    if k == 0 {
        reveal(Seq::filter);
        assert(list.take(0) =~= Seq::<Granularity>::empty());
        assert(list.take(0).filter(pred) =~= Seq::<Granularity>::empty());
    } else {
        lemma_fitting(list, group, p, meta, (k - 1) as nat);
        assert(list.take(k as int) =~= list.take(k - 1).push(list[k - 1]));
        list.take(k - 1).lemma_filter_push(list[k - 1], pred);
    }
}

/// Of the granularities those are kept with which the group fits, in their order.
pub proof fn fitting_granularities_are_kept(list: Seq<Granularity>, group: Seq<OpId>, p: Problem, meta: Seq<TensorMeta>)
    ensures
        tiling::fitting(list, group, p, meta, list.len()) == list.filter(
            |g: Granularity| memory::fits_memory(group, p, g, meta),
        ),
{
    lemma_fitting(list, group, p, meta, list.len());
    assert(list.take(list.len() as int) =~= list);
}

/// The first step of the search. Without operations, or where the group fits natively
/// and has no matrix product or does not fit when its reduction is cut in two, the native
/// granularity is settled on. Else, where it fits natively, that cut is tried. Else tiles
/// are searched: any with which the group fits, cut in 1, 2 or 4 parts where it holds a
/// matrix product, and in 8 or 16 where it also puts out more than a million entries.
pub proof fn searches_begin_natively(step: TilingStep, p: Problem, group: Seq<OpId>, meta: Seq<TensorMeta>, g: Granularity)
    requires
        tiling::is_first_step(step, p, group, meta),
        p.fast_memory_capacity >= 0,
    ensures
        ({
            let native = p.native_granularity;
            let cut = Granularity { width: native.width, height: native.height, depth: 2 };
            let matmul = exists|i: int|
                0 <= i < group.len() && p.ops@[(#[trigger] group[i]) as int].op_type == OpType::MatMul;
            let large = exists|i: int|
                0 <= i < candidates::outputs(p, group).len() && p.tensors@[(#[trigger] candidates::outputs(
                    p,
                    group,
                )[i]) as int].area() > 1_000_000;
            let natively = memory::fits_memory(group, p, native, meta);
            let parts = g.depth == 1 || (matmul && (g.depth == 2 || g.depth == 4)) || (matmul && large && (g.depth == 8
                || g.depth == 16));
            &&& step == TilingStep::Settled(native) <==> group.len() == 0 || (natively && !(matmul && memory::fits_memory(
                group,
                p,
                cut,
                meta,
            )))
            &&& step is TrySplit <==> group.len() > 0 && natively && matmul && memory::fits_memory(group, p, cut, meta)
            &&& step is TrySplit ==> step == TilingStep::TrySplit(cut)
            &&& step is Search <==> group.len() > 0 && !natively
            &&& step is Search && step->Search_0@.contains(g) ==> memory::fits_memory(group, p, g, meta) && parts && 16
                <= g.width <= 1024 && 16 <= g.height <= 1024 && 3 * (g.width * g.height) <= p.fast_memory_capacity
            &&& step is Search && parts && memory::fits_memory(group, p, g, meta) && 3 * (g.width * g.height)
                <= p.fast_memory_capacity && ((g.width == 128 && g.height == 128) || (g.width == 64 && g.height == 256)
                || (g.width == 256 && g.height == 64) || (g.width == 64 && g.height == 128) || (g.width == 128 && g.height
                == 64)) ==> step->Search_0@.contains(g)
        }),
{
    let matmul = exists|i: int|
        0 <= i < group.len() && p.ops@[(#[trigger] group[i]) as int].op_type == OpType::MatMul;
    if matmul {
        let i = choose|i: int| 0 <= i < group.len() && p.ops@[(#[trigger] group[i]) as int].op_type == OpType::MatMul;
        assert(p.ops@[group[i] as int].op_type == OpType::MatMul);
    }
    if memory::has_matmul(group, p.ops@) {
        let i = choose|i: int| 0 <= i < group.len() && (#[trigger] p.ops@[group[i] as int]).op_type == OpType::MatMul;
        assert(group[i] == group[i]);
    }
    assert(matmul == memory::has_matmul(group, p.ops@));
    if step is Search {
        let list = step->Search_0@;
        let parts = tiling::parts_to_try(p, group);
        let tiles = choose|tiles: Seq<(i64, i64)>|
            {
                let all = tiling::combined(tiles, parts, tiles.len());
                &&& #[trigger] candidates::holds(
                    tiles,
                    cost::proposed_tiles(p, group),
                    arith::quotient(p.fast_memory_capacity as int, 3),
                )
                &&& list == tiling::fitting(all, group, p, meta, all.len())
            };
        let all = tiling::combined(tiles, parts, tiles.len());
        let pred = |g: Granularity| memory::fits_memory(group, p, g, meta);
        usual_tiles_are_tried(tiles, p, group);
        tiles_are_combined_with_parts(tiles, parts, tiles.len(), g);
        fitting_granularities_are_kept(all, group, p, meta);
        assert(list == all.filter(pred));
        lemma_parts(parts, g.depth);
        if list.contains(g) {
            let a = choose|a: int| 0 <= a < list.len() && list[a] == g;
            all.lemma_filter_pred(pred, a);
            all.lemma_filter_contains_rev(pred, g);
            let i = choose|i: int| 0 <= i < tiles.len() && #[trigger] tiles[i] == (g.width, g.height);
            assert(16 <= tiles[i].0 <= 1024);
        }
        if parts.contains(g.depth) && memory::fits_memory(group, p, g, meta) && tiles.contains((g.width, g.height)) {
            let i = choose|i: int| 0 <= i < tiles.len() && tiles[i] == (g.width, g.height);
            assert(all.contains(g));
            let a = choose|a: int| 0 <= a < all.len() && all[a] == g;
            all.lemma_filter_contains(pred, a);
            assert(list.contains(g));
        }
    }
}

proof fn lemma_parts(parts: Seq<i64>, d: i64)
    ensures
        parts == seq![1i64] ==> (parts.contains(d) <==> d == 1),
        parts == seq![1i64, 2i64, 4i64] ==> (parts.contains(d) <==> d == 1 || d == 2 || d == 4),
        parts == seq![1i64, 2i64, 4i64, 8i64, 16i64] ==> (parts.contains(d) <==> d == 1 || d == 2 || d == 4 || d == 8 || d
            == 16),
{
    if parts == seq![1i64] {
        assert(parts[0] == 1);
    }
    if parts == seq![1i64, 2i64, 4i64] {
        assert(parts[0] == 1 && parts[1] == 2 && parts[2] == 4);
    }
    if parts == seq![1i64, 2i64, 4i64, 8i64, 16i64] {
        assert(parts[0] == 1 && parts[1] == 2 && parts[2] == 4 && parts[3] == 8 && parts[4] == 16);
    }
}

/// The search ends with what has the lowest score, and with the first of several such. A
/// cut has to score lower than the native granularity to be taken; without anything to
/// compare it ends natively.
pub proof fn the_lowest_score_wins(g: Granularity, p: Problem, step: TilingStep, scores: Seq<i64>, j: int)
    requires
        tiling::is_settled(g, p, step, scores),
        scores.len() == tiling::scores_wanted(step),
        0 <= j < scores.len(),
    ensures
        step matches TilingStep::TrySplit(cut) ==> scores.len() == 2 && (scores[1] < scores[0] ==> g == cut) && (scores[1]
            >= scores[0] ==> g == p.native_granularity),
        step matches TilingStep::Search(list) ==> exists|i: int|
            0 <= i < list@.len() && g == #[trigger] list@[i] && scores[i] <= scores[j] && (j < i ==> scores[i] < scores[j]),
{
    if step is Search {
        let list = step->Search_0@;
        let i = choose|i: int| #[trigger] sorting::is_first_least(scores, i) && g == list[i];
        assert(g == list[i]);
    }
}

/// What stays for a tile of some shape. Two shapes of positive sides compare by the
/// ratios of their sides; a shape without height counts as a square.
pub proof fn ratios_of_sides_are_compared(percent: u8, tile_w: i64, tile_h: i64, tensor: Tensor)
    requires
        ({
            let a = cost::ratio_sides(tensor.width as int, tensor.height as int);
            let b = cost::ratio_sides(tile_w as int, tile_h as int);
            percent == cost::match_kept(a.0 * b.1, b.0 * a.1)
        }),
        tensor.width > 0,
        tensor.height > 0,
        tile_w > 0,
    ensures
        ({
            let x = tensor.width * (if tile_h > 0 { tile_h as int } else { 1 });
            let y = (if tile_h > 0 { tile_w as int } else { 1 }) * tensor.height;
            &&& percent <= 85 <==> 10 * x <= 11 * y && 10 * y <= 11 * x
            &&& percent <= 90 <==> 10 * x <= 13 * y && 10 * y <= 13 * x
            &&& percent <= 94 <==> 2 * x <= 3 * y && 2 * y <= 3 * x
            &&& percent <= 97 <==> x <= 2 * y && y <= 2 * x
            &&& percent <= 99 <==> x <= 3 * y && y <= 3 * x
        }),
{
    let x = tensor.width * (if tile_h > 0 { tile_h as int } else { 1 });
    let y = (if tile_h > 0 { tile_w as int } else { 1 }) * tensor.height;
    assert(x > 0) by (nonlinear_arith)
        requires
            tensor.width > 0,
            x == tensor.width * (if tile_h > 0 { tile_h as int } else { 1 }),
    ;
    assert(y > 0) by (nonlinear_arith)
        requires
            tile_w > 0,
            tensor.height > 0,
            y == (if tile_h > 0 { tile_w as int } else { 1 }) * tensor.height,
    ;
    matching_shapes_save(x, y);
}

/// A length that is no power of two brings tiles of its own: of 16 to 256 a square of that
/// length, and of each divisor of 16 to 256 a square and two oblongs. A power of two
/// brings none.
pub proof fn odd_lengths_bring_tiles(dim: int, d: i64)
    ensures
        ({
            let tiles = cost::length_tiles(dim);
            &&& 16 <= dim <= 256 && !candidates::power_of_two(dim) ==> tiles.contains((dim as i64, dim as i64))
            &&& 16 <= dim <= 1024 && !candidates::power_of_two(dim) && 16 <= d <= 256 && d <= dim && dim % (d as int) == 0
                ==> tiles.contains((d, d)) && tiles.contains(((2 * d) as i64, d)) && tiles.contains((d, (2 * d) as i64))
            &&& candidates::power_of_two(dim) || dim < 16 || dim > 1024 ==> forall|tile: (i64, i64)|
                !#[trigger] tiles.contains(tile)
        }),
{
    if 16 <= dim <= 1024 && !candidates::power_of_two(dim) && 16 <= d <= 256 && d <= dim && dim % (d as int) == 0 {
        assert(candidates::is_factor(dim, 16, 256, d as int));
        assert(candidates::is_tile_factor(dim, 16, 256, cost::PADDED_SIZES@, 30, d));
    }
}

proof fn lemma_side_tiles(p: Problem, listed: Seq<TensorId>, k: nat, i: int, tile: (i64, i64))
    requires
        0 <= i < k <= listed.len(),
        cost::length_tiles(p.tensors@[listed[i] as int].width as int).contains(tile) || cost::length_tiles(
            p.tensors@[listed[i] as int].height as int,
        ).contains(tile),
    ensures
        cost::side_tiles(p, listed, k).contains(tile),
    decreases k,
{
    if i < k - 1 {
        lemma_side_tiles(p, listed, (k - 1) as nat, i, tile);
    }
}

/// The tiles that the sides of an output bring are tried where they fit.
pub proof fn tiles_for_sides_are_tried(list: Seq<(i64, i64)>, p: Problem, group: Seq<OpId>, i: int, tile: (i64, i64))
    requires
        candidates::holds(
            list,
            cost::proposed_tiles(p, group),
            arith::quotient(p.fast_memory_capacity as int, 3),
        ),
        p.fast_memory_capacity >= 0,
        0 <= i < candidates::outputs(p, group).len(),
        cost::length_tiles(p.tensors@[candidates::outputs(p, group)[i] as int].width as int).contains(tile)
            || cost::length_tiles(p.tensors@[candidates::outputs(p, group)[i] as int].height as int).contains(tile),
    ensures
        holds_if_it_fits(list, tile.0, tile.1, p.fast_memory_capacity as int),
{
    let outs = candidates::outputs(p, group);
    lemma_side_tiles(p, outs, outs.len(), i, tile);
    assert(cost::proposed_tiles(p, group).contains((tile.0, tile.1)));
    lemma_offered(list, cost::proposed_tiles(p, group), p.fast_memory_capacity as int, tile.0, tile.1);
}

/// The tiles that the shape of the largest output brings are tried where they fit.
pub proof fn tiles_for_the_shape_are_tried(list: Seq<(i64, i64)>, p: Problem, group: Seq<OpId>, tile: (i64, i64))
    requires
        candidates::holds(
            list,
            cost::proposed_tiles(p, group),
            arith::quotient(p.fast_memory_capacity as int, 3),
        ),
        p.fast_memory_capacity >= 0,
        ({
            let outs = candidates::outputs(p, group);
            let shape = cost::dominant(p, outs, outs.len());
            cost::shape_tiles(
                shape.0,
                shape.1,
                cost::greatest_width(p, outs, outs.len()),
                cost::greatest_height(p, outs, outs.len()),
            ).contains(tile)
        }),
    ensures
        holds_if_it_fits(list, tile.0, tile.1, p.fast_memory_capacity as int),
{
    assert(cost::proposed_tiles(p, group).contains((tile.0, tile.1)));
    lemma_offered(list, cost::proposed_tiles(p, group), p.fast_memory_capacity as int, tile.0, tile.1);
}

/// A search looks at each tile with each split, up to the limit.
pub proof fn searches_stop_at_the_limit(tiles: Seq<(i64, i64)>, profile: cost_model::HardwareProfile, max: int, i: int)
    requires
        max >= 0,
        0 <= i < cost_model::search_space(tiles, profile, max).len(),
    ensures
        ({
            let list = cost_model::search_space(tiles, profile, max);
            let parts = cost_model::parts_for_profile(profile);
            &&& list.len() <= max
            &&& list.len() == max || list.len() == tiles.len() * parts.len()
            &&& parts.contains(list[i].depth)
            &&& tiles.contains((list[i].width, list[i].height))
        }),
{
    let parts = cost_model::parts_for_profile(profile);
    let all = tiling::combined(tiles, parts, tiles.len());
    let list = cost_model::search_space(tiles, profile, max);
    tiles_are_combined_with_parts(tiles, parts, tiles.len(), list[i]);
    assert(all[i] == list[i]);
    assert(all.contains(list[i]));
    let k = choose|k: int| 0 <= k < tiles.len() && #[trigger] tiles[k] == (list[i].width, list[i].height);
    assert(tiles.contains(tiles[k]));
}

/// No tile is tried without a reason: it is a usual one, or fast memory is less than
/// 100,000 and it is a small or a native one, or a matrix product puts out more than 128
/// by 128 and it is one for products, or the shape or the sides of the outputs ask for it.
pub proof fn tiles_are_tried_for_a_reason(p: Problem, group: Seq<OpId>, tile: (i64, i64))
    requires
        cost::proposed_tiles(p, group).contains(tile),
        !cost::TILING_CANDIDATES@.contains(tile),
        !cost::ASYMMETRIC_TILING_CANDIDATES@.contains(tile),
    ensures
        ({
            let outs = candidates::outputs(p, group);
            let shape = cost::dominant(p, outs, outs.len());
            let small = p.fast_memory_capacity < 100_000 && (cost::SMALL_TILES@.contains(tile) || cost::native_tiles(
                p,
            ).contains(tile));
            let product = cost::MATMUL_TILES@.contains(tile) && exists|i: int, j: int|
                #![trigger p.ops@[group[i] as int].outputs@[j]]
                0 <= i < group.len() && p.ops@[group[i] as int].op_type == OpType::MatMul && 0 <= j
                    < p.ops@[group[i] as int].outputs@.len()
                    && p.tensors@[p.ops@[group[i] as int].outputs@[j] as int].area() > 128 * 128;
            let shaped = cost::shape_tiles(
                shape.0,
                shape.1,
                cost::greatest_width(p, outs, outs.len()),
                cost::greatest_height(p, outs, outs.len()),
            ).contains(tile);
            small || product || shaped || cost::side_tiles(p, outs, outs.len()).contains(tile)
        }),
{
}

} // verus!
