//! Choices that follow from the hardware and from the density of the graph.
use std::collections::HashSet;
use vstd::prelude::*;
use crate::arith;
use crate::candidates;
use crate::dataflow;
use crate::graph;
use crate::ids;
use crate::memory;
use crate::models::{Granularity, OpId, Problem, TensorId, TensorMeta};
use crate::tiling;

verus! {

/// A class of hardware.
#[derive(Debug, Clone, Copy, PartialEq, Eq, Structural)]
pub enum HardwareProfile {
    /// Fast memory of 400000 units or more.
    HighEnd,
    /// Fast memory of 200000 units or more.
    MidRange,
    /// Less fast memory.
    Constrained,
    /// Reading and writing differ in speed.
    AsymmetricBandwidth,
}

/// What is known of the hardware.
#[derive(Debug, Clone, Copy)]
pub struct HardwareCharacteristics {
    pub profile: HardwareProfile,
    pub sram_capacity: i64,
    /// The ratio of the speeds of fast and slow memory, in hundred thousandths.
    pub bandwidth_ratio: i64,
    /// The size of a native tile.
    pub native_tile_area: i64,
    /// How many tensors of 128 by 128 fit in fast memory, at least one.
    pub max_resident_tensors: usize,
}

/// The class of hardware by its fast memory.
pub open spec fn profile_of(capacity: int) -> HardwareProfile {
    if capacity >= 400_000 {
        HardwareProfile::HighEnd
    } else if capacity >= 200_000 {
        HardwareProfile::MidRange
    } else {
        HardwareProfile::Constrained
    }
}

impl HardwareCharacteristics {
    /// What the problem says of the hardware.
    pub fn from_problem(problem: &Problem) -> (hw: Self)
        requires
            arith::fits(problem.native_granularity.width * problem.native_granularity.height),
            arith::quotient(problem.fast_memory_capacity as int, 16384) <= usize::MAX,
        ensures
            hw.profile == profile_of(problem.fast_memory_capacity as int),
            hw.sram_capacity == problem.fast_memory_capacity,
            hw.bandwidth_ratio == arith::least(
                arith::greatest(problem.fast_memory_capacity as int, 50_000),
                300_000,
            ),
            hw.native_tile_area == problem.native_granularity.width * problem.native_granularity.height,
            hw.max_resident_tensors == arith::greatest(
                arith::quotient(problem.fast_memory_capacity as int, 16384),
                1,
            ),
    {
        let sram_capacity: i64 = problem.fast_memory_capacity;
        let profile: HardwareProfile = if sram_capacity >= 400_000 {
            HardwareProfile::HighEnd
        } else if sram_capacity >= 200_000 {
            HardwareProfile::MidRange
        } else {
            HardwareProfile::Constrained
        };
        HardwareCharacteristics {
            profile,
            sram_capacity,
            bandwidth_ratio: arith::least_of(arith::greatest_of(sram_capacity, 50_000), 300_000),
            native_tile_area: problem.native_granularity.width * problem.native_granularity.height,
            max_resident_tensors: arith::greatest_of(sram_capacity / 16384, 1) as usize,
        }
    }
}

/// The tiles that are always tried.
pub const STANDARD_TILES: [(i64, i64); 11] = [
    (128, 128),
    (64, 256),
    (256, 64),
    (64, 128),
    (128, 64),
    (64, 64),
    (32, 128),
    (128, 32),
    (96, 96),
    (48, 96),
    (96, 48),
];

/// Tile sizes for lengths without a suitable divisor.
pub const APPROXIMATE_SIZES: [i64; 6] = [64, 32, 48, 96, 128, 16];

/// The length has few powers of two among its divisors: it is above one and no multiple of four.
pub open spec fn prime_like(n: int) -> bool {
    n > 1 && n % 4 != 0
}

/// Tiles for an output of width `w` and one of height `h`: the outputs themselves, whole
/// and halved, and the largest divisors of awkward lengths.
pub open spec fn pair_tiles(w: int, h: int) -> Set<(i64, i64)> {
    Set::new(
        |tile: (i64, i64)|
            {
                ||| 16 <= w <= 1024 && 16 <= h <= 1024 && tile.0 == w && tile.1 == h
                ||| 32 <= w <= 1024 && 32 <= h <= 1024 && (tile.0 == w || tile.0 == w / 2) && (tile.1 == h || tile.1 == h
                    / 2)
                ||| (prime_like(w) || prime_like(h)) && tile.0 >= 16 && tile.1 >= 16 && candidates::is_largest_divisor(
                    w,
                    128,
                    tile.0 as int,
                ) && candidates::is_largest_divisor(h, 128, tile.1 as int)
            },
    )
}

/// Tiles for each width among the listed tensors with each height.
pub open spec fn crossed_tiles(p: Problem, listed: Seq<TensorId>) -> Set<(i64, i64)> {
    Set::new(
        |tile: (i64, i64)|
            exists|i: int, j: int|
                0 <= i < listed.len() && 0 <= j < listed.len() && pair_tiles(
                    p.tensors@[(#[trigger] listed[i]) as int].width as int,
                    p.tensors@[(#[trigger] listed[j]) as int].height as int,
                ).contains(tile),
    )
}

/// Tiles whose sides are good sizes for the sides of a tensor.
pub open spec fn factor_tiles(w: int, h: int) -> Set<(i64, i64)> {
    Set::new(
        |tile: (i64, i64)|
            candidates::is_tile_factor(w, 16, 256, APPROXIMATE_SIZES@, 25, tile.0) && candidates::is_tile_factor(
                h,
                16,
                256,
                APPROXIMATE_SIZES@,
                25,
                tile.1,
            ),
    )
}

/// All tiles that are considered for the group.
pub open spec fn adaptive_tiles(p: Problem, group: Seq<OpId>) -> Set<(i64, i64)> {
    let outs = candidates::outputs(p, group);
    let best = match candidates::last_largest(p, outs, outs.len()) {
        Some(t) => factor_tiles(p.tensors@[t as int].width as int, p.tensors@[t as int].height as int),
        None => Set::empty(),
    };
    candidates::listed(STANDARD_TILES@).union(crossed_tiles(p, outs)).union(best)
}

fn is_prime_like(n: i64) -> (yes: bool)
    ensures
        yes == prime_like(n as int),
{
    n > 1 && n % 4 != 0
}

/// Adds the tiles for a width and a height.
fn offer_pair_tiles(list: &mut Vec<(i64, i64)>, w: i64, h: i64, room: i64, Ghost(offered): Ghost<Set<(i64, i64)>>)
    requires
        candidates::holds(old(list)@, offered, room as int),
    ensures
        candidates::holds(final(list)@, offered.union(pair_tiles(w as int, h as int)), room as int),
{
    let ghost goal = offered.union(pair_tiles(w as int, h as int));
    let ghost mut now = offered;
    if w >= 16 && h >= 16 && w <= 1024 && h <= 1024 {
        candidates::offer(list, w, h, room, Ghost(now));
        proof {
            now = now.insert((w, h));
        }
        if w >= 32 && h >= 32 {
            let half_w: i64 = w / 2;
            let half_h: i64 = h / 2;
            candidates::offer(list, half_w, h, room, Ghost(now));
            candidates::offer(list, w, half_h, room, Ghost(now.insert((half_w, h))));
            candidates::offer(list, half_w, half_h, room, Ghost(now.insert((half_w, h)).insert((w, half_h))));
            proof {
                now = now.insert((half_w, h)).insert((w, half_h)).insert((half_w, half_h));
            }
        }
    }
    let ghost middle = now;
    let tile_w: i64 = candidates::largest_divisor(w, 128);
    let tile_h: i64 = candidates::largest_divisor(h, 128);
    proof {
        assert forall|e: int| #[trigger] candidates::is_largest_divisor(w as int, 128, e) implies e == tile_w by {
            assert(w as int % tile_w as int == 0);
            assert(w as int % e == 0);
        }
        assert forall|e: int| #[trigger] candidates::is_largest_divisor(h as int, 128, e) implies e == tile_h by {
            assert(h as int % tile_h as int == 0);
            assert(h as int % e == 0);
        }
    }
    if (is_prime_like(w) || is_prime_like(h)) && tile_w >= 16 && tile_h >= 16 {
        candidates::offer(list, tile_w, tile_h, room, Ghost(now));
        proof {
            now = now.insert((tile_w, tile_h));
        }
    }
    assert(now =~= goal);
}

/// The tile shapes worth trying on the hardware, in ascending order.
pub fn generate_adaptive_tile_candidates(ops: &[OpId], problem: &Problem, hw: &HardwareCharacteristics) -> (list: Vec<
    (i64, i64),
>)
    requires
        candidates::outputs_known(*problem, ops@),
    ensures
        candidates::holds(list@, adaptive_tiles(*problem, ops@), arith::quotient(hw.sram_capacity as int, 2)),
{
    let ghost p = *problem;
    let room: i64 = hw.sram_capacity / 2;
    let outs: Vec<TensorId> = memory::gather_outputs(ops, problem);
    assert(outs@ == candidates::outputs(p, ops@));
    let mut list: Vec<(i64, i64)> = Vec::new();
    candidates::offer_all(&mut list, STANDARD_TILES.as_slice(), room, Ghost(Set::empty()));
    let ghost fixed = candidates::listed(STANDARD_TILES@);
    assert(Set::<(i64, i64)>::empty().union(fixed) =~= fixed);
    let ghost mut now = fixed;
    let mut i: usize = 0;
    while i < outs.len()
        invariant
            i <= outs.len(),
            p == *problem,
            outs@ == candidates::outputs(p, ops@),
            candidates::outputs_known(p, ops@),
            candidates::holds(list@, now, room as int),
            forall|tile: (i64, i64)| #[trigger]
                now.contains(tile) <==> fixed.contains(tile) || exists|a: int, b: int|
                    0 <= a < i && 0 <= b < outs@.len() && pair_tiles(
                        p.tensors@[(#[trigger] outs@[a]) as int].width as int,
                        p.tensors@[(#[trigger] outs@[b]) as int].height as int,
                    ).contains(tile),
        decreases outs.len() - i,
    {
        assert(candidates::outputs(p, ops@)[i as int] < p.tensors@.len());
        let w: i64 = problem.tensors[outs[i]].width;
        let ghost before = now;
        let mut j: usize = 0;
        while j < outs.len()
            invariant
                i < outs.len(),
                j <= outs.len(),
                p == *problem,
                outs@ == candidates::outputs(p, ops@),
                candidates::outputs_known(p, ops@),
                w == p.tensors@[outs@[i as int] as int].width,
                candidates::holds(list@, now, room as int),
                forall|tile: (i64, i64)| #[trigger]
                    now.contains(tile) <==> before.contains(tile) || exists|b: int|
                        0 <= b < j && pair_tiles(
                            w as int,
                            p.tensors@[(#[trigger] outs@[b]) as int].height as int,
                        ).contains(tile),
            decreases outs.len() - j,
        {
            assert(candidates::outputs(p, ops@)[j as int] < p.tensors@.len());
            let h: i64 = problem.tensors[outs[j]].height;
            offer_pair_tiles(&mut list, w, h, room, Ghost(now));
            proof {
                let earlier = now;
                now = now.union(pair_tiles(w as int, h as int));
                assert forall|tile: (i64, i64)| #[trigger] now.contains(tile) <==> before.contains(tile) || exists|b: int|
                    0 <= b < j + 1 && pair_tiles(
                        w as int,
                        p.tensors@[(#[trigger] outs@[b]) as int].height as int,
                    ).contains(tile) by {
                    assert(earlier.contains(tile) ==> now.contains(tile));
                    if pair_tiles(w as int, h as int).contains(tile) {
                        assert(p.tensors@[outs@[j as int] as int].height == h);
                    }
                }
            }
            j = j + 1;
        }
        proof {
            assert forall|tile: (i64, i64)| #[trigger] now.contains(tile) <==> fixed.contains(tile) || exists|
                a: int,
                b: int,
            |
                0 <= a < i + 1 && 0 <= b < outs@.len() && pair_tiles(
                    p.tensors@[(#[trigger] outs@[a]) as int].width as int,
                    p.tensors@[(#[trigger] outs@[b]) as int].height as int,
                ).contains(tile) by {
                if now.contains(tile) && !before.contains(tile) {
                    let b = choose|b: int|
                        0 <= b < outs@.len() && pair_tiles(
                            w as int,
                            p.tensors@[(#[trigger] outs@[b]) as int].height as int,
                        ).contains(tile);
                    assert(p.tensors@[outs@[i as int] as int].width == w);
                    assert(outs@[b] == outs@[b]);
                }
                if exists|a: int, b: int|
                    0 <= a < i + 1 && 0 <= b < outs@.len() && pair_tiles(
                        p.tensors@[(#[trigger] outs@[a]) as int].width as int,
                        p.tensors@[(#[trigger] outs@[b]) as int].height as int,
                    ).contains(tile) {
                    let (a, b) = choose|a: int, b: int|
                        0 <= a < i + 1 && 0 <= b < outs@.len() && pair_tiles(
                            p.tensors@[(#[trigger] outs@[a]) as int].width as int,
                            p.tensors@[(#[trigger] outs@[b]) as int].height as int,
                        ).contains(tile);
                    if a < i {
                        assert(before.contains(tile));
                    } else {
                        assert(outs@[b] == outs@[b]);
                        assert(now.contains(tile));
                    }
                }
            }
        }
        i = i + 1;
    }
    assert(now =~= fixed.union(crossed_tiles(p, outs@)));
    match candidates::find_last_largest(problem, &outs) {
        None => {
            assert(now.union(Set::empty()) =~= now);
        },
        Some(t) => {
            proof {
                let k = choose|k: int| 0 <= k < outs@.len() && outs@[k] == t;
                assert(candidates::outputs(p, ops@)[k] < p.tensors@.len());
            }
            let w: i64 = problem.tensors[t].width;
            let h: i64 = problem.tensors[t].height;
            offer_factor_tiles(&mut list, w, h, room, Ghost(now));
        },
    }
    list
}

/// Adds the tiles whose sides are good sizes for the sides of a tensor.
fn offer_factor_tiles(list: &mut Vec<(i64, i64)>, w: i64, h: i64, room: i64, Ghost(offered): Ghost<Set<(i64, i64)>>)
    requires
        candidates::holds(old(list)@, offered, room as int),
    ensures
        candidates::holds(final(list)@, offered.union(factor_tiles(w as int, h as int)), room as int),
{
    let across: Vec<i64> = candidates::find_tile_factors(w, 16, 256, APPROXIMATE_SIZES.as_slice(), 25);
    let down: Vec<i64> = candidates::find_tile_factors(h, 16, 256, APPROXIMATE_SIZES.as_slice(), 25);
    let ghost mut now = offered;
    let mut i: usize = 0;
    while i < across.len()
        invariant
            i <= across.len(),
            candidates::holds(list@, now, room as int),
            forall|tile: (i64, i64)| #[trigger]
                now.contains(tile) <==> offered.contains(tile) || across@.take(i as int).contains(tile.0)
                    && down@.contains(tile.1),
        decreases across.len() - i,
    {
        let f: i64 = across[i];
        let ghost before = now;
        let mut j: usize = 0;
        while j < down.len()
            invariant
                j <= down.len(),
                candidates::holds(list@, now, room as int),
                forall|tile: (i64, i64)| #[trigger]
                    now.contains(tile) <==> before.contains(tile) || tile.0 == f && down@.take(j as int).contains(tile.1),
            decreases down.len() - j,
        {
            let d: i64 = down[j];
            candidates::offer(list, f, d, room, Ghost(now));
            proof {
                now = now.insert((f, d));
                candidates::lemma_take(down@, j as int);
            }
            j = j + 1;
        }
        proof {
            assert(down@.take(j as int) =~= down@);
            candidates::lemma_take(across@, i as int);
        }
        i = i + 1;
    }
    assert(across@.take(i as int) =~= across@);
    assert(now =~= offered.union(factor_tiles(w as int, h as int)));
}

/// The settings of the search.
#[derive(Debug, Clone, Copy)]
pub struct CostModelConfig {
    /// The most combinations that are looked at.
    pub max_candidates: usize,
    /// From how many combinations on the search runs in parallel.
    pub parallel_threshold: usize,
    pub fusion_bonus_enabled: bool,
    pub prefetch_enabled: bool,
}

impl Default for CostModelConfig {
    fn default() -> (config: Self)
        ensures
            config.max_candidates == 100,
            config.parallel_threshold == 50,
            config.fusion_bonus_enabled,
            config.prefetch_enabled,
    {
        CostModelConfig {
            max_candidates: 100,
            parallel_threshold: 50,
            fusion_bonus_enabled: true,
            prefetch_enabled: true,
        }
    }
}

/// The numbers of parts that are tried on the hardware.
pub open spec fn parts_for_profile(profile: HardwareProfile) -> Seq<i64> {
    match profile {
        HardwareProfile::HighEnd => seq![1i64, 2i64, 4i64, 8i64],
        HardwareProfile::MidRange => seq![1i64, 2i64, 4i64],
        HardwareProfile::Constrained => seq![1i64, 2i64],
        HardwareProfile::AsymmetricBandwidth => seq![1i64, 2i64, 4i64],
    }
}

/// The numbers of parts that are tried on the hardware.
pub fn find_parts(profile: HardwareProfile) -> (parts: Vec<i64>)
    ensures
        parts@ == parts_for_profile(profile),
{
    let mut parts: Vec<i64> = Vec::new();
    parts.push(1);
    parts.push(2);
    match profile {
        HardwareProfile::HighEnd => {
            parts.push(4);
            parts.push(8);
        },
        HardwareProfile::Constrained => {},
        _ => {
            parts.push(4);
        },
    }
    assert(parts@ =~= parts_for_profile(profile));
    parts
}

/// The combinations that the search looks at.
pub open spec fn search_space(tiles: Seq<(i64, i64)>, profile: HardwareProfile, max: int) -> Seq<Granularity> {
    let all = tiling::combined(tiles, parts_for_profile(profile), tiles.len());
    all.take(arith::least(all.len() as int, max))
}

/// The granularities that the search compares: all that it looks at and that fit.
pub fn plan_adaptive_search(ops: &[OpId], problem: &Problem, tensor_meta: &[TensorMeta], config: &CostModelConfig) -> (list:
    Vec<Granularity>)
    requires
        arith::fits(problem.native_granularity.width * problem.native_granularity.height),
        arith::quotient(problem.fast_memory_capacity as int, 16384) <= usize::MAX,
        candidates::outputs_known(*problem, ops@),
        memory::ids_in_range(ops@, *problem, tensor_meta@),
    ensures
        exists|tiles: Seq<(i64, i64)>|
            {
                let looked_at = search_space(
                    tiles,
                    profile_of(problem.fast_memory_capacity as int),
                    config.max_candidates as int,
                );
                &&& #[trigger] candidates::holds(
                    tiles,
                    adaptive_tiles(*problem, ops@),
                    arith::quotient(problem.fast_memory_capacity as int, 2),
                )
                &&& list@ == tiling::fitting(looked_at, ops@, *problem, tensor_meta@, looked_at.len())
            },
{
    let hw: HardwareCharacteristics = HardwareCharacteristics::from_problem(problem);
    let tiles: Vec<(i64, i64)> = generate_adaptive_tile_candidates(ops, problem, &hw);
    let parts: Vec<i64> = find_parts(hw.profile);
    let mut all: Vec<Granularity> = tiling::combine(&tiles, parts.as_slice());
    if all.len() > config.max_candidates {
        all.truncate(config.max_candidates);
    }
    assert(all@ =~= search_space(tiles@, hw.profile, config.max_candidates as int));
    tiling::keep_fitting(&all, ops, problem, tensor_meta)
}

/// How dense a graph is.
#[derive(Debug, Clone, Copy, PartialEq, Eq, Structural)]
pub enum GraphDensity {
    /// At most 5 operations.
    Sparse,
    /// At most 30 operations.
    Medium,
    /// More operations.
    Dense,
}

/// How a graph is best optimized.
#[derive(Debug, Clone, Copy, PartialEq, Eq, Structural)]
pub enum OptimizationStrategy {
    AggressiveFusion,
    BalancedFusion,
    MemoryEfficient,
    ChainOptimized,
}

/// What the shape of a graph says about its optimization.
#[derive(Debug, Clone, Copy)]
pub struct GraphDensityAnalysis {
    pub num_ops: usize,
    pub num_tensors: usize,
    /// The number of consumers of all tensors together.
    pub total_consumers: u128,
    /// The number of operations on the longest chain.
    pub max_depth: usize,
    pub density: GraphDensity,
    pub recommended_strategy: OptimizationStrategy,
}

/// The density of a graph of `n` operations.
pub open spec fn density_of(n: nat) -> GraphDensity {
    if n <= 5 {
        GraphDensity::Sparse
    } else if n <= 30 {
        GraphDensity::Medium
    } else {
        GraphDensity::Dense
    }
}

/// The number of consumers of the first `k` tensors.
pub open spec fn consumer_count(meta: Seq<TensorMeta>, k: nat) -> nat
    decreases k,
{
    if k == 0 {
        0
    } else {
        consumer_count(meta, (k - 1) as nat) + meta[k - 1].consumers@.len()
    }
}

/// The strategy for a graph: long chains have their own, dense graphs whose tensors have
/// more than two consumers each are fused, and sparse ones spare memory.
pub open spec fn strategy_for(n: nat, tensors: nat, consumers: nat, depth: int) -> OptimizationStrategy {
    if depth > n / 2 {
        OptimizationStrategy::ChainOptimized
    } else if tensors > 0 && consumers > 2 * tensors && density_of(n) == GraphDensity::Dense {
        OptimizationStrategy::AggressiveFusion
    } else if density_of(n) == GraphDensity::Sparse {
        OptimizationStrategy::MemoryEfficient
    } else {
        OptimizationStrategy::BalancedFusion
    }
}

/// The density of a graph of `n` operations.
pub fn find_density(n: usize) -> (density: GraphDensity)
    ensures
        density == density_of(n as nat),
{
    if n <= 5 {
        GraphDensity::Sparse
    } else if n <= 30 {
        GraphDensity::Medium
    } else {
        GraphDensity::Dense
    }
}

/// The number of operations on the longest chain in which each takes in what another puts out.
pub open spec fn is_depth(p: Problem, meta: Seq<TensorMeta>, depth: int) -> bool {
    let g = dataflow::predecessors(p.ops@, meta);
    graph::longest_path(g, graph::release_order(g), depth)
}

/// Finds the number of operations on the longest chain.
fn estimate_graph_depth(problem: &Problem, meta: &[TensorMeta]) -> (depth: usize)
    ensures
        is_depth(*problem, meta@, depth as int),
{
    let upstream: Vec<Vec<OpId>> = dataflow::predecessor_lists(problem, meta);
    let order: Vec<OpId> = graph::order_vertices(&upstream);
    proof {
        graph::order_is_topological(graph::lists(upstream@));
    }
    graph::longest_chain(&upstream, &order)
}

/// Describes the shape of the graph.
pub fn analyze_graph_density(problem: &Problem) -> (analysis: GraphDensityAnalysis)
    ensures
        analysis.num_ops == problem.ops@.len(),
        analysis.num_tensors == problem.tensors@.len(),
        analysis.density == density_of(problem.ops@.len()),
        exists|meta: Seq<TensorMeta>| #[trigger]
            problem.has_meta(meta) && analysis.total_consumers == consumer_count(meta, meta.len()) && is_depth(
                *problem,
                meta,
                analysis.max_depth as int,
            ),
        analysis.recommended_strategy == strategy_for(
            problem.ops@.len(),
            problem.tensors@.len(),
            analysis.total_consumers as nat,
            analysis.max_depth as int,
        ),
{
    let num_ops: usize = problem.ops.len();
    let num_tensors: usize = problem.tensors.len();
    let meta: Vec<TensorMeta> = problem.build_tensor_meta();
    let mut total_consumers: u128 = 0;
    let mut i: usize = 0;
    while i < meta.len()
        invariant
            i <= meta.len(),
            total_consumers == consumer_count(meta@, i as nat),
            total_consumers <= i * 0xffff_ffff_ffff_ffff,
        decreases meta.len() - i,
    {
        assert(i * 0xffff_ffff_ffff_ffff <= 0xffff_ffff_ffff_ffff * 0xffff_ffff_ffff_ffff) by (nonlinear_arith)
            requires
                i <= 0xffff_ffff_ffff_ffff,
        ;
        total_consumers = total_consumers + meta[i].consumers.len() as u128;
        i = i + 1;
    }
    let max_depth: usize = estimate_graph_depth(problem, meta.as_slice());
    let density: GraphDensity = find_density(num_ops);
    let recommended_strategy: OptimizationStrategy = if max_depth > num_ops / 2 {
        OptimizationStrategy::ChainOptimized
    } else if num_tensors > 0 && total_consumers > 2 * num_tensors as u128 && density == GraphDensity::Dense {
        OptimizationStrategy::AggressiveFusion
    } else if density == GraphDensity::Sparse {
        OptimizationStrategy::MemoryEfficient
    } else {
        OptimizationStrategy::BalancedFusion
    };
    GraphDensityAnalysis { num_ops, num_tensors, total_consumers, max_depth, density, recommended_strategy }
}

/// Where the operations form no cycle, no chain is longer than the depth.
pub proof fn depth_bounds_every_chain(p: Problem, meta: Seq<TensorMeta>, depth: int, chain: Seq<OpId>)
    requires
        is_depth(p, meta, depth),
        graph::acyclic(dataflow::predecessors(p.ops@, meta)),
        graph::is_path(dataflow::predecessors(p.ops@, meta), chain),
    ensures
        chain.len() <= depth,
{
    let g = dataflow::predecessors(p.ops@, meta);
    assert(g.len() == p.ops.len());
    dataflow::lemma_predecessors_are_a_graph(p.ops@, meta);
    graph::acyclic_order_is_complete(g);
    assert(graph::release_order(g).contains(chain.last()));
}

/// The elements of the first `k` listed tensors.
pub open spec fn volume(p: Problem, listed: Seq<TensorId>, k: nat) -> int
    decreases k,
{
    if k == 0 {
        0
    } else {
        volume(p, listed, (k - 1) as nat) + p.tensors@[listed[k - 1] as int].area()
    }
}

/// The elements of those of the first `k` listed tensors that are not needed outside the group.
pub open spec fn inner_volume(
    p: Problem,
    meta: Seq<TensorMeta>,
    group: Seq<OpId>,
    listed: Seq<TensorId>,
    k: nat,
) -> int
    decreases k,
{
    if k == 0 {
        0
    } else {
        inner_volume(p, meta, group, listed, (k - 1) as nat) + if memory::needed_outside(
            group,
            meta[listed[k - 1] as int],
        ) {
            0
        } else {
            p.tensors@[listed[k - 1] as int].area()
        }
    }
}

/// Measures the outputs of the group: all of them, and those that are not needed outside it.
pub fn measure_outputs(ops: &[OpId], problem: &Problem) -> (volumes: (i128, i128))
    requires
        candidates::outputs_known(*problem, ops@),
    ensures
        ({
            let outs = candidates::outputs(*problem, ops@);
            &&& volumes.0 == volume(*problem, outs, outs.len())
            &&& exists|meta: Seq<TensorMeta>| #[trigger]
                problem.has_meta(meta) && volumes.1 == inner_volume(*problem, meta, ops@, outs, outs.len())
        }),
{
    let meta: Vec<TensorMeta> = problem.build_tensor_meta();
    let group: HashSet<OpId> = ids::set_of(ops);
    let outs: Vec<TensorId> = memory::gather_outputs(ops, problem);
    let ghost listed = candidates::outputs(*problem, ops@);
    let mut all: i128 = 0;
    let mut inner: i128 = 0;
    let mut i: usize = 0;
    while i < outs.len()
        invariant
            i <= outs@.len(),
            outs@ == listed,
            problem.has_meta(meta@),
            forall|x: usize| #[trigger] group@.contains(x) <==> ops@.contains(x),
            forall|i: int|
                0 <= i < listed.len() ==> (#[trigger] listed[i]) < problem.tensors@.len() && arith::fits(
                    problem.tensors@[listed[i] as int].area(),
                ),
            all == volume(*problem, listed, i as nat),
            inner == inner_volume(*problem, meta@, ops@, listed, i as nat),
            -(i * 0x8000_0000_0000_0000) <= all <= i * 0x8000_0000_0000_0000,
            -(i * 0x8000_0000_0000_0000) <= inner <= i * 0x8000_0000_0000_0000,
        decreases outs@.len() - i,
    {
        let t: TensorId = outs[i];
        assert(listed[i as int] < problem.tensors@.len());
        assert((i + 1) * 0x8000_0000_0000_0000 <= 0xffff_ffff_ffff_ffff * 0x8000_0000_0000_0000) by (nonlinear_arith)
            requires
                i + 1 <= 0xffff_ffff_ffff_ffff,
        ;
        let size: i64 = problem.tensors[t].size();
        all = all + size as i128;
        if !memory::is_needed_outside(&group, &meta[t], Ghost(ops@)) {
            inner = inner + size as i128;
        }
        i = i + 1;
    }
    (all, inner)
}

} // verus!
