//! Into how many groups a graph is cut, and what its shape says about it.
use vstd::prelude::*;
use crate::{arith, candidates, cost_model, memory, partition};
use crate::cost_model::{GraphDensity, HardwareProfile, OptimizationStrategy};
use crate::models::{Granularity, OpId, Problem, TensorId, TensorMeta};
use crate::partition::{PartitionConfig, PartitionPlan};

verus! {

/// Up to 5 operations make a sparse graph, up to 30 a medium one, more a dense one. The
/// denser the graph, the less of fast memory is to be filled and the smaller the groups.
pub proof fn denser_graphs_get_smaller_groups(n: nat)
    ensures
        ({
            let density = cost_model::density_of(n);
            let config = partition::config_for(density);
            &&& density == GraphDensity::Sparse <==> n <= 5
            &&& density == GraphDensity::Dense <==> n > 30
            &&& density == GraphDensity::Medium <==> 5 < n <= 30
            &&& n <= 5 ==> config.target_utilization == 90 && config.min_ops_per_subgraph == 5
                && config.max_ops_per_subgraph == 100
            &&& 5 < n <= 30 ==> config.target_utilization == 85 && config.min_ops_per_subgraph == 3
                && config.max_ops_per_subgraph == 50
            &&& n > 30 ==> config.target_utilization == 75 && config.min_ops_per_subgraph == 3
                && config.max_ops_per_subgraph == 30
            &&& config.target_utilization + config.safety_margin == 100
            &&& config.min_ops_per_subgraph <= config.max_ops_per_subgraph
        }),
{
}

/// A plan fills the part of fast memory that the settings allow. It has as many groups as
/// pieces of that size are needed for everything, a fifth more of medium graphs and half
/// more of dense ones, rounded up, but none has less operations than the settings allow.
/// Everything may run as one only if one group is planned and leaves three hundredths free.
pub proof fn plans_have_enough_groups(
    plan: PartitionPlan,
    p: Problem,
    meta: Seq<TensorMeta>,
    config: PartitionConfig,
    need: int,
)
    requires
        plan.is_of(p, meta, config),
        0 < config.min_ops_per_subgraph <= p.ops@.len() <= usize::MAX,
        p.fast_memory_capacity >= 0,
        config.target_utilization <= 100,
        // So many pieces are just enough.
        need >= 1,
        15 * need + 9 <= usize::MAX,
        memory::footprint(partition::all_ops(p.ops@.len()), p, p.native_granularity, meta) <= need
            * plan.effective_capacity,
        need == 1 || memory::footprint(partition::all_ops(p.ops@.len()), p, p.native_granularity, meta) > (need - 1)
            * plan.effective_capacity,
        plan.effective_capacity > 0,
    ensures
        ({
            let n = p.ops@.len() as int;
            let tenths: int = if n <= 5 { 10 } else if n <= 30 { 12 } else { 15 };
            let bytes = memory::footprint(partition::all_ops(p.ops@.len()), p, p.native_granularity, meta);
            let groups = plan.num_subgraphs as int;
            let min = config.min_ops_per_subgraph as int;
            &&& 100 * plan.effective_capacity <= p.fast_memory_capacity * config.target_utilization < 100 * (
            plan.effective_capacity + 1)
            &&& groups >= 1
            &&& groups * min <= n
            &&& 10 * (groups - 1) < tenths * need
            &&& (groups + 1) * min <= n ==> tenths * need <= 10 * groups
            &&& plan.max_ops_per_subgraph == config.max_ops_per_subgraph
            &&& plan.can_use_full_fusion <==> groups == 1 && (100 * bytes < 97 * p.fast_memory_capacity)
        }),
{
    let n = p.ops@.len() as int;
    let tenths: int = if n <= 5 { 10 } else if n <= 30 { 12 } else { 15 };
    let bytes = memory::footprint(partition::all_ops(p.ops@.len()), p, p.native_granularity, meta);
    let room = plan.effective_capacity as int;
    let cap = p.fast_memory_capacity as int;
    let min = config.min_ops_per_subgraph as int;
    let target = config.target_utilization as int;
    assert(0 <= cap * target <= cap * 100) by (nonlinear_arith)
        requires
            0 <= cap,
            0 <= target <= 100,
    ;
    assert(arith::share(cap, target) == cap * target / 100);
    assert(room == cap * target / 100);
    if bytes <= room {
        assert(need == 1) by (nonlinear_arith)
            requires
                bytes <= room,
                room > 0,
                need >= 1,
                need == 1 || bytes > (need - 1) * room,
        ;
    } else {
        assert((bytes + room - 1) / room == need) by (nonlinear_arith)
            requires
                (need - 1) * room < bytes <= need * room,
                room > 0,
        ;
        assert(need > 1) by (nonlinear_arith)
            requires
                bytes <= need * room,
                bytes > room,
                need >= 1,
        ;
    }
    assert(partition::pieces(bytes, room) == need);
    assert(need * tenths == tenths * need) by (nonlinear_arith);
    assert(need * tenths <= 15 * need) by (nonlinear_arith)
        requires
            need >= 1,
            tenths <= 15,
    ;
    let wanted = (need * tenths + 9) / 10;
    assert(need * tenths >= 10) by (nonlinear_arith)
        requires
            need >= 1,
            tenths >= 10,
    ;
    let groups = plan.num_subgraphs as int;
    let most = n / min;
    assert(most * min <= n < (most + 1) * min && most >= 1) by (nonlinear_arith)
        requires
            most == n / min,
            0 < min <= n,
    ;
    assert(groups == arith::least(wanted, most));
    assert(groups * min <= n) by (nonlinear_arith)
        requires
            groups <= most,
            most * min <= n,
            min > 0,
    ;
    if (groups + 1) * min <= n {
        assert(groups + 1 <= most) by (nonlinear_arith)
            requires
                (groups + 1) * min <= n,
                n < (most + 1) * min,
                min > 0,
        ;
    }
}

/// The operations of a group just suffice for so many groups to hold all, within the limits.
pub proof fn groups_share_the_operations(n: int, groups: int, min: int, max: int, size: int)
    requires
        size == partition::group_size(n, groups, min, max),
        n >= 0,
        groups >= 1,
        min <= max,
    ensures
        min <= size <= max,
        size < max ==> size * groups >= n,
        size > min ==> (size - 1) * groups < n,
{
    let even = (n + groups - 1) / groups;
    assert(even * groups >= n && (even - 1) * groups < n) by (nonlinear_arith)
        requires
            even == (n + groups - 1) / groups,
            groups >= 1,
            n >= 0,
    ;
    if size < max {
        assert(size * groups >= n) by (nonlinear_arith)
            requires
                size >= even,
                even * groups >= n,
                groups >= 1,
        ;
    }
    if size > min {
        assert((size - 1) * groups < n) by (nonlinear_arith)
            requires
                size <= even,
                (even - 1) * groups < n,
                groups >= 1,
        ;
    }
}

/// A group fits in a part of fast memory exactly if it takes no more than that part.
pub proof fn parts_of_memory_are_filled(
    yes: bool,
    group: Seq<OpId>,
    p: Problem,
    g: Granularity,
    meta: Seq<TensorMeta>,
    percent: u8,
)
    requires
        yes == (memory::footprint(group, p, g, meta) <= arith::clamped(
            arith::share(p.fast_memory_capacity as int, percent as int),
        )),
        p.fast_memory_capacity >= 0,
        percent <= 100,
    ensures
        yes <==> 100 * memory::footprint(group, p, g, meta) <= p.fast_memory_capacity * percent,
{
    let cap = p.fast_memory_capacity as int;
    assert(0 <= cap * percent <= cap * 100) by (nonlinear_arith)
        requires
            0 <= cap,
            0 <= percent <= 100,
    ;
}

/// From 400000 units of fast memory on the hardware is high end, from 200000 on mid range.
/// The better the hardware, the more splits are tried, and never none.
pub proof fn more_memory_tries_more_splits(less: int, more: int)
    requires
        less <= more,
    ensures
        more >= 400_000 <==> cost_model::profile_of(more) == HardwareProfile::HighEnd,
        more < 200_000 <==> cost_model::profile_of(more) == HardwareProfile::Constrained,
        200_000 <= more < 400_000 <==> cost_model::profile_of(more) == HardwareProfile::MidRange,
        ({
            let few = cost_model::parts_for_profile(cost_model::profile_of(less));
            let many = cost_model::parts_for_profile(cost_model::profile_of(more));
            &&& few.len() <= many.len()
            &&& few =~= many.take(few.len() as int)
            &&& many.len() == if more >= 400_000 { 4nat } else if more >= 200_000 { 3nat } else { 2nat }
            &&& many[0] == 1
            &&& forall|i: int| 0 < i < many.len() ==> #[trigger] many[i] == 2 * many[i - 1]
        }),
{
    let many = cost_model::parts_for_profile(cost_model::profile_of(more));
    assert forall|i: int| 0 < i < many.len() implies #[trigger] many[i] == 2 * many[i - 1] by {
        assert(i == 1 || i == 2 || i == 3);
    }
}

/// Chains that hold more than half of the operations decide the strategy; then, of graphs
/// of more than 30 operations, more than two consumers per tensor; then, whether there
/// are at most 5 operations.
pub proof fn strategies_follow_the_shape(n: nat, tensors: nat, consumers: nat, depth: int)
    ensures
        ({
            let s = cost_model::strategy_for(n, tensors, consumers, depth);
            &&& s == OptimizationStrategy::ChainOptimized <==> 2 * depth > n
            &&& 2 * depth <= n ==> (s == OptimizationStrategy::AggressiveFusion <==> n > 30 && tensors > 0 && consumers > 2
                * tensors)
            &&& 2 * depth <= n ==> (s == OptimizationStrategy::MemoryEfficient <==> n <= 5)
            &&& 2 * depth <= n && n > 5 && !(n > 30 && tensors > 0 && consumers > 2 * tensors) ==> s
                == OptimizationStrategy::BalancedFusion
        }),
{
}

/// The numbers of consumers, added up.
pub proof fn consumers_add_up(meta: Seq<TensorMeta>, k: nat)
    requires
        k <= meta.len(),
    ensures
        cost_model::consumer_count(meta, k) == arith::sum(
            meta.take(k as int).map_values(|m: TensorMeta| m.consumers@.len() as int),
        ),
    decreases k,
{
    let f = |m: TensorMeta| m.consumers@.len() as int;
    if k == 0 {
        assert(meta.take(0).map_values(f) =~= Seq::<int>::empty());
    } else {
        consumers_add_up(meta, (k - 1) as nat);
        let all = meta.take(k as int).map_values(f);
        assert(all.drop_last() =~= meta.take(k - 1).map_values(f));
        assert(all.last() == meta[k - 1].consumers@.len());
    }
}

/// The outputs of a group, measured: each tensor counts with its area once for each
/// mention, and among the inner ones only those that the graph does not hand out and that
/// the group alone consumes.
pub proof fn outputs_are_measured(p: Problem, meta: Seq<TensorMeta>, group: Seq<OpId>, listed: Seq<TensorId>, k: nat)
    requires
        k <= listed.len(),
    ensures
        cost_model::volume(p, listed, k) == arith::sum(
            listed.take(k as int).map_values(|t: TensorId| p.tensors@[t as int].width * p.tensors@[t as int].height),
        ),
        cost_model::inner_volume(p, meta, group, listed, k) == arith::sum(
            listed.take(k as int).filter(
                |t: TensorId|
                    !meta[t as int].is_output && forall|c: int|
                        0 <= c < meta[t as int].consumers@.len() ==> group.contains(
                            #[trigger] meta[t as int].consumers@[c],
                        ),
            ).map_values(|t: TensorId| p.tensors@[t as int].width * p.tensors@[t as int].height),
        ),
    decreases k,
{
    let f = |t: TensorId| p.tensors@[t as int].width * p.tensors@[t as int].height;
    let pred = |t: TensorId|
        !meta[t as int].is_output && forall|c: int|
            0 <= c < meta[t as int].consumers@.len() ==> group.contains(#[trigger] meta[t as int].consumers@[c]);
    if k == 0 {
        reveal(Seq::filter);
        assert(listed.take(0) =~= Seq::<TensorId>::empty());
        assert(listed.take(0).map_values(f) =~= Seq::<int>::empty());
        assert(listed.take(0).filter(pred).map_values(f) =~= Seq::<int>::empty());
    } else {
        outputs_are_measured(p, meta, group, listed, (k - 1) as nat);
        let before = listed.take(k - 1);
        let t = listed[k - 1];
        assert(listed.take(k as int) =~= before.push(t));
        before.lemma_filter_push(t, pred);
        assert(before.push(t).map_values(f).drop_last() =~= before.map_values(f));
        assert(before.push(t).map_values(f).last() == f(t));
        let inner = before.filter(pred);
        assert(inner.push(t).map_values(f).drop_last() =~= inner.map_values(f));
        assert(inner.push(t).map_values(f).last() == f(t));
    }
}

/// The tiles tried for a group: all that are listed are at least 16 and at most 1024 on
/// each side and fill at most half of fast memory, in ascending order, each once. A tile
/// of the size of an output, and of half its size, is among them if it is so.
pub proof fn tried_tiles_fit(list: Seq<(i64, i64)>, p: Problem, group: Seq<OpId>, capacity: int, i: int)
    requires
        candidates::holds(list, cost_model::adaptive_tiles(p, group), arith::quotient(capacity, 2)),
        capacity >= 0,
        0 <= i < candidates::outputs(p, group).len(),
    ensures
        forall|k: int|
            0 <= k < list.len() ==> 16 <= (#[trigger] list[k]).0 <= 1024 && 16 <= list[k].1 <= 1024 && 2 * (list[k].0
                * list[k].1) <= capacity,
        forall|a: int, b: int|
            0 <= a < b < list.len() ==> (#[trigger] list[a]).0 < (#[trigger] list[b]).0 || (list[a].0 == list[b].0 && list[a].1
                < list[b].1),
        ({
            let t = p.tensors@[candidates::outputs(p, group)[i] as int];
            &&& 16 <= t.width <= 1024 && 16 <= t.height <= 1024 && 2 * (t.width * t.height) <= capacity ==> list.contains(
                (t.width, t.height),
            )
            &&& 32 <= t.width <= 1024 && 32 <= t.height <= 1024 && 2 * ((t.width as int / 2) * (t.height as int / 2))
                <= capacity ==> list.contains(((t.width as int / 2) as i64, (t.height as int / 2) as i64))
        }),
        2 * 128 * 128 <= capacity ==> list.contains((128, 128)),
        2 * 64 * 64 <= capacity ==> list.contains((64, 64)),
        2 * 96 * 96 <= capacity ==> list.contains((96, 96)),
        2 * 64 * 256 <= capacity ==> list.contains((64, 256)) && list.contains((256, 64)),
        2 * 64 * 128 <= capacity ==> list.contains((64, 128)) && list.contains((128, 64)),
        2 * 32 * 128 <= capacity ==> list.contains((32, 128)) && list.contains((128, 32)),
        2 * 48 * 96 <= capacity ==> list.contains((48, 96)) && list.contains((96, 48)),
{
    let room = arith::quotient(capacity, 2);
    let all = cost_model::adaptive_tiles(p, group);
    let outs = candidates::outputs(p, group);
    let t = p.tensors@[outs[i] as int];
    assert forall|k: int| 0 <= k < list.len() implies 16 <= (#[trigger] list[k]).0 <= 1024 && 16 <= list[k].1 <= 1024 && 2
        * (list[k].0 * list[k].1) <= capacity by {
        assert(list.contains(list[k]));
        assert(candidates::admissible(list[k], room));
    }
    let whole = (t.width, t.height);
    let halves = ((t.width as int / 2) as i64, (t.height as int / 2) as i64);
    if 16 <= t.width <= 1024 && 16 <= t.height <= 1024 && 2 * (t.width * t.height) <= capacity {
        assert(cost_model::pair_tiles(t.width as int, t.height as int).contains(whole));
        assert(cost_model::crossed_tiles(p, outs).contains(whole)) by {
            assert(outs[i] == outs[i]);
        }
        assert(all.contains(whole));
        assert(candidates::admissible(whole, room));
        assert(list.contains(whole));
    }
    if 32 <= t.width <= 1024 && 32 <= t.height <= 1024 && 2 * ((t.width as int / 2) * (t.height as int / 2))
        <= capacity {
        assert(cost_model::pair_tiles(t.width as int, t.height as int).contains(halves));
        assert(cost_model::crossed_tiles(p, outs).contains(halves)) by {
            assert(outs[i] == outs[i]);
        }
        assert(all.contains(halves));
        assert(candidates::admissible(halves, room));
        assert(list.contains(halves));
    }
    let standard = cost_model::STANDARD_TILES@;
    assert forall|k: int| 0 <= k < standard.len() && 2 * (standard[k].0 * standard[k].1) <= capacity && 16 <= standard[k].0
        <= 1024 && 16 <= standard[k].1 <= 1024 implies list.contains(#[trigger] standard[k]) by {
        assert(standard.contains(standard[k]));
        assert(candidates::listed(standard).contains(standard[k]));
        assert(all.contains(standard[k]));
        assert(candidates::admissible(standard[k], room));
    }
    assert(standard[0] == (128i64, 128i64));
    assert(standard[1] == (64i64, 256i64));
    assert(standard[2] == (256i64, 64i64));
    assert(standard[3] == (64i64, 128i64));
    assert(standard[4] == (128i64, 64i64));
    assert(standard[5] == (64i64, 64i64));
    assert(standard[6] == (32i64, 128i64));
    assert(standard[7] == (128i64, 32i64));
    assert(standard[8] == (96i64, 96i64));
    assert(standard[9] == (48i64, 96i64));
    assert(standard[10] == (96i64, 48i64));
}

/// The largest of the listed tensors, and the last of those of equal size.
pub proof fn the_last_of_the_largest_is_found(p: Problem, listed: Seq<TensorId>, k: nat)
    requires
        k <= listed.len(),
    ensures
        candidates::last_largest(p, listed, k) is None <==> k == 0,
        k > 0 ==> exists|i: int|
            {
                &&& 0 <= i < k
                &&& candidates::last_largest(p, listed, k) == Some(#[trigger] listed[i])
                &&& forall|j: int|
                    0 <= j < k ==> p.tensors@[(#[trigger] listed[j]) as int].area() <= p.tensors@[listed[i] as int].area()
                &&& forall|j: int|
                    i < j < k ==> p.tensors@[(#[trigger] listed[j]) as int].area() < p.tensors@[listed[i] as int].area()
            },
    decreases k,
{
    if k > 0 {
        the_last_of_the_largest_is_found(p, listed, (k - 1) as nat);
        if k - 1 > 0 {
            let i = choose|i: int|
                {
                    &&& 0 <= i < k - 1
                    &&& candidates::last_largest(p, listed, (k - 1) as nat) == Some(#[trigger] listed[i])
                    &&& forall|j: int|
                        0 <= j < k - 1 ==> p.tensors@[(#[trigger] listed[j]) as int].area()
                            <= p.tensors@[listed[i] as int].area()
                    &&& forall|j: int|
                        i < j < k - 1 ==> p.tensors@[(#[trigger] listed[j]) as int].area()
                            < p.tensors@[listed[i] as int].area()
                };
            if p.tensors@[listed[k - 1] as int].area() >= p.tensors@[listed[i] as int].area() {
                assert(candidates::last_largest(p, listed, k) == Some(listed[k - 1]));
            } else {
                assert(candidates::last_largest(p, listed, k) == Some(listed[i]));
            }
        } else {
            assert(candidates::last_largest(p, listed, k) == Some(listed[0]));
        }
    }
}

/// Tiles waste little if they reach less than so many hundredths beyond the length.
pub proof fn little_waste_is_just_that(dim: int, size: int, percent: int, tiles: int)
    requires
        dim > 0,
        size > 0,
        (tiles - 1) * size < dim <= tiles * size,
    ensures
        candidates::wastes_little(dim, size, percent) <==> 100 * (tiles * size - dim) < percent * dim,
{
    assert((dim + size - 1) / size == tiles) by (nonlinear_arith)
        requires
            (tiles - 1) * size < dim <= tiles * size,
            size > 0,
    ;
}

/// A good tile size for a length: a divisor within the limits wherever there is one.
pub proof fn tile_factors_divide(dim: int, min: int, max: int, sizes: Seq<i64>, percent: int, size: i64, d: i64)
    requires
        candidates::is_tile_factor(dim, min, max, sizes, percent, size),
        dim > 0,
        1 <= min,
    ensures
        min <= size <= max,
        min <= d <= max && d <= dim && dim % (d as int) == 0 ==> size <= dim && dim % (size as int) == 0,
        dim % (size as int) != 0 || size > dim ==> sizes.contains(size),
        min <= d <= max && d <= dim && dim % (d as int) == 0 ==> candidates::is_tile_factor(
            dim,
            min,
            max,
            sizes,
            percent,
            d,
        ),
{
    if min <= d <= max && d <= dim && dim % (d as int) == 0 {
        assert(candidates::is_factor(dim, min, max, d as int));
    }
}

/// A tile for a width and a height has each side from them: the length itself, half of it,
/// or the largest divisor up to 128 where a length is no multiple of 4. All tiles of these
/// sides are offered, if the lengths and the sides are not too small.
pub proof fn tiles_come_from_the_lengths(w: int, h: int, tile: (i64, i64))
    requires
        w > 0,
        h > 0,
    ensures
        cost_model::pair_tiles(w, h).contains(tile) ==> {
            &&& tile.0 == w || tile.0 == w / 2 || (tile.0 <= 128 && w % (tile.0 as int) == 0)
            &&& tile.1 == h || tile.1 == h / 2 || (tile.1 <= 128 && h % (tile.1 as int) == 0)
            &&& tile.0 >= 16 && tile.1 >= 16
        },
        w % 4 == 0 && h % 4 == 0 && cost_model::pair_tiles(w, h).contains(tile) ==> w <= 1024 && h <= 1024,
        ({
            let (a, b) = (tile.0 as int, tile.1 as int);
            &&& 16 <= a <= 128 && w % a == 0 && (forall|e: int| 1 <= e <= 128 && #[trigger] (w % e) == 0 ==> e <= a)
            &&& 16 <= b <= 128 && h % b == 0 && (forall|e: int| 1 <= e <= 128 && #[trigger] (h % e) == 0 ==> e <= b)
            &&& w % 4 != 0 && w > 1 || h % 4 != 0 && h > 1
        }) ==> cost_model::pair_tiles(w, h).contains(tile),
        32 <= w <= 1024 && 32 <= h <= 1024 && (tile.0 == w || tile.0 == w / 2) && (tile.1 == h || tile.1 == h / 2)
            ==> cost_model::pair_tiles(w, h).contains(tile),
        16 <= w <= 1024 && 16 <= h <= 1024 && tile.0 == w && tile.1 == h ==> cost_model::pair_tiles(w, h).contains(tile),
{
}

/// Widths and heights are crossed: a tile is offered if some output has the width for it
/// and some output the height.
pub proof fn widths_and_heights_are_crossed(p: Problem, listed: Seq<TensorId>, tile: (i64, i64), i: int, j: int)
    requires
        0 <= i < listed.len(),
        0 <= j < listed.len(),
    ensures
        cost_model::pair_tiles(
            p.tensors@[listed[i] as int].width as int,
            p.tensors@[listed[j] as int].height as int,
        ).contains(tile) ==> cost_model::crossed_tiles(p, listed).contains(tile),
        cost_model::crossed_tiles(p, listed).contains(tile) ==> exists|a: TensorId, b: TensorId|
            #[trigger] listed.contains(a) && #[trigger] listed.contains(b) && cost_model::pair_tiles(
                p.tensors@[a as int].width as int,
                p.tensors@[b as int].height as int,
            ).contains(tile),
{
    if cost_model::crossed_tiles(p, listed).contains(tile) {
        let (a, b) = choose|a: int, b: int|
            0 <= a < listed.len() && 0 <= b < listed.len() && cost_model::pair_tiles(
                p.tensors@[(#[trigger] listed[a]) as int].width as int,
                p.tensors@[(#[trigger] listed[b]) as int].height as int,
            ).contains(tile);
        assert(listed.contains(listed[a]) && listed.contains(listed[b]));
    }
    if cost_model::pair_tiles(
        p.tensors@[listed[i] as int].width as int,
        p.tensors@[listed[j] as int].height as int,
    ).contains(tile) {
        assert(cost_model::crossed_tiles(p, listed).contains(tile));
    }
}

} // verus!
