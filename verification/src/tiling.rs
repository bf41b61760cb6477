//! The search for the best tile shape of a group: what is to be tried, and which one wins.
use vstd::prelude::*;
use crate::arith;
use crate::candidates;
use crate::cost;
use crate::memory;
use crate::models::{Granularity, OpId, Problem, TensorId, TensorMeta};
use crate::sorting;

verus! {

/// A tile with each of the first `k` numbers of parts.
pub open spec fn with_parts(tile: (i64, i64), parts: Seq<i64>, k: nat) -> Seq<Granularity>
    decreases k,
{
    if k == 0 {
        Seq::empty()
    } else {
        with_parts(tile, parts, (k - 1) as nat).push(
            Granularity { width: tile.0, height: tile.1, depth: parts[k - 1] },
        )
    }
}

/// The first `k` tiles, each with every number of parts.
pub open spec fn combined(tiles: Seq<(i64, i64)>, parts: Seq<i64>, k: nat) -> Seq<Granularity>
    decreases k,
{
    if k == 0 {
        Seq::empty()
    } else {
        combined(tiles, parts, (k - 1) as nat) + with_parts(tiles[k - 1], parts, parts.len())
    }
}

/// Those of the first `k` granularities with which the group fits in fast memory.
pub open spec fn fitting(
    list: Seq<Granularity>,
    group: Seq<OpId>,
    p: Problem,
    meta: Seq<TensorMeta>,
    k: nat,
) -> Seq<Granularity>
    decreases k,
{
    if k == 0 {
        Seq::empty()
    } else {
        let rest = fitting(list, group, p, meta, (k - 1) as nat);
        if memory::fits_memory(group, p, list[k - 1], meta) {
            rest.push(list[k - 1])
        } else {
            rest
        }
    }
}

/// Combines tiles and numbers of parts.
pub fn combine(tiles: &Vec<(i64, i64)>, parts: &[i64]) -> (list: Vec<Granularity>)
    ensures
        list@ == combined(tiles@, parts@, tiles@.len()),
{
    let mut list: Vec<Granularity> = Vec::new();
    let mut i: usize = 0;
    while i < tiles.len()
        invariant
            i <= tiles.len(),
            list@ == combined(tiles@, parts@, i as nat),
        decreases tiles.len() - i,
    {
        let ghost before = list@;
        let (w, h): (i64, i64) = tiles[i];
        let mut j: usize = 0;
        while j < parts.len()
            invariant
                i < tiles.len(),
                tiles@[i as int] == (w, h),
                j <= parts@.len(),
                list@ == before + with_parts(tiles@[i as int], parts@, j as nat),
            decreases parts@.len() - j,
        {
            list.push(Granularity { width: w, height: h, depth: parts[j] });
            assert(list@ =~= before + with_parts(tiles@[i as int], parts@, (j + 1) as nat));
            j = j + 1;
        }
        i = i + 1;
    }
    list
}

/// Keeps the granularities with which the group fits in fast memory.
pub fn keep_fitting(list: &Vec<Granularity>, ops: &[OpId], problem: &Problem, tensor_meta: &[TensorMeta]) -> (kept: Vec<
    Granularity,
>)
    requires
        memory::ids_in_range(ops@, *problem, tensor_meta@),
    ensures
        kept@ == fitting(list@, ops@, *problem, tensor_meta@, list@.len()),
{
    let mut kept: Vec<Granularity> = Vec::new();
    let mut i: usize = 0;
    while i < list.len()
        invariant
            i <= list.len(),
            memory::ids_in_range(ops@, *problem, tensor_meta@),
            kept@ == fitting(list@, ops@, *problem, tensor_meta@, i as nat),
        decreases list.len() - i,
    {
        if memory::validate_memory_fit(ops, problem, &list[i], tensor_meta) {
            kept.push(list[i]);
        }
        i = i + 1;
    }
    kept
}

/// The next step of the search.
#[derive(Debug)]
pub enum TilingStep {
    /// The search is over.
    Settled(Granularity),
    /// The native granularity fits; it is to be compared with this one, which cuts the
    /// inner dimension in two.
    TrySplit(Granularity),
    /// All of these are to be compared.
    Search(Vec<Granularity>),
}

/// The native granularity, with the inner dimension cut in two.
pub open spec fn native_split(p: Problem) -> Granularity {
    Granularity { width: p.native_granularity.width, height: p.native_granularity.height, depth: 2 }
}

/// The group puts out a tensor of more than a million entries.
pub open spec fn is_large_workload(p: Problem, group: Seq<OpId>) -> bool {
    exists|i: int|
        0 <= i < candidates::outputs(p, group).len() && p.tensors@[(#[trigger] candidates::outputs(
            p,
            group,
        )[i]) as int].area() > 1_000_000
}

/// The numbers of parts that are tried: only one without a matrix product, and more for
/// large tensors.
pub open spec fn parts_to_try(p: Problem, group: Seq<OpId>) -> Seq<i64> {
    if !memory::has_matmul(group, p.ops@) {
        seq![1i64]
    } else if is_large_workload(p, group) {
        seq![1i64, 2i64, 4i64, 8i64, 16i64]
    } else {
        seq![1i64, 2i64, 4i64]
    }
}

/// This is the first step of the search.
pub open spec fn is_first_step(step: TilingStep, p: Problem, group: Seq<OpId>, meta: Seq<TensorMeta>) -> bool {
    if group.len() == 0 {
        step == TilingStep::Settled(p.native_granularity)
    } else if memory::fits_memory(group, p, p.native_granularity, meta) {
        if memory::has_matmul(group, p.ops@) && memory::fits_memory(group, p, native_split(p), meta) {
            step == TilingStep::TrySplit(native_split(p))
        } else {
            step == TilingStep::Settled(p.native_granularity)
        }
    } else {
        &&& step is Search
        &&& exists|tiles: Seq<(i64, i64)>|
            {
                let all = combined(tiles, parts_to_try(p, group), tiles.len());
                &&& #[trigger] candidates::holds(
                    tiles,
                    cost::proposed_tiles(p, group),
                    arith::quotient(p.fast_memory_capacity as int, 3),
                )
                &&& step->Search_0@ == fitting(all, group, p, meta, all.len())
            }
    }
}

fn find_large_workload(outs: &Vec<TensorId>, problem: &Problem, Ghost(group): Ghost<Seq<OpId>>) -> (yes: bool)
    requires
        outs@ == candidates::outputs(*problem, group),
        candidates::outputs_known(*problem, group),
    ensures
        yes == is_large_workload(*problem, group),
{
    let mut i: usize = 0;
    while i < outs.len()
        invariant
            i <= outs.len(),
            outs@ == candidates::outputs(*problem, group),
            candidates::outputs_known(*problem, group),
            forall|j: int| 0 <= j < i ==> problem.tensors@[(#[trigger] outs@[j]) as int].area() <= 1_000_000,
        decreases outs.len() - i,
    {
        assert(candidates::outputs(*problem, group)[i as int] < problem.tensors@.len());
        if problem.tensors[outs[i]].size() > 1_000_000 {
            return true;
        }
        i = i + 1;
    }
    false
}

fn find_parts(ops: &[OpId], problem: &Problem) -> (parts: Vec<i64>)
    requires
        candidates::outputs_known(*problem, ops@),
    ensures
        parts@ == parts_to_try(*problem, ops@),
{
    let mut parts: Vec<i64> = Vec::new();
    parts.push(1);
    if memory::contains_matmul(ops, problem) {
        parts.push(2);
        parts.push(4);
        let outs: Vec<TensorId> = memory::gather_outputs(ops, problem);
        if find_large_workload(&outs, problem, Ghost(ops@)) {
            parts.push(8);
            parts.push(16);
        }
    }
    assert(parts@ =~= parts_to_try(*problem, ops@));
    parts
}

/// Starts the search: the native granularity is taken where it fits, and only compared
/// with one that cuts the inner dimension; else all tiles that fit are tried.
pub fn plan_tiling(ops: &[OpId], problem: &Problem, tensor_meta: &[TensorMeta]) -> (step: TilingStep)
    requires
        ops@.len() > 0 ==> candidates::outputs_known(*problem, ops@) && memory::ids_in_range(
            ops@,
            *problem,
            tensor_meta@,
        ),
    ensures
        is_first_step(step, *problem, ops@, tensor_meta@),
{
    if ops.len() == 0 {
        return TilingStep::Settled(problem.native_granularity);
    }
    if memory::validate_memory_fit(ops, problem, &problem.native_granularity, tensor_meta) {
        if memory::contains_matmul(ops, problem) {
            let split: Granularity = Granularity {
                width: problem.native_granularity.width,
                height: problem.native_granularity.height,
                depth: 2,
            };
            if memory::validate_memory_fit(ops, problem, &split, tensor_meta) {
                return TilingStep::TrySplit(split);
            }
        }
        return TilingStep::Settled(problem.native_granularity);
    }
    let tiles: Vec<(i64, i64)> = cost::generate_shape_aware_candidates(ops, problem);
    let parts: Vec<i64> = find_parts(ops, problem);
    let all: Vec<Granularity> = combine(&tiles, parts.as_slice());
    TilingStep::Search(keep_fitting(&all, ops, problem, tensor_meta))
}

/// The number of scores that the step asks for.
pub open spec fn scores_wanted(step: TilingStep) -> nat {
    match step {
        TilingStep::Settled(_) => 0,
        TilingStep::TrySplit(_) => 2,
        TilingStep::Search(list) => list@.len(),
    }
}

/// The granularity wins, by the scores of what the step asked to compare. The lowest
/// score wins, and of equal ones the first; without anything to compare it is the native one.
pub open spec fn is_settled(g: Granularity, p: Problem, step: TilingStep, scores: Seq<i64>) -> bool {
    match step {
        TilingStep::Settled(only) => g == only,
        TilingStep::TrySplit(split) => g == if scores[1] < scores[0] { split } else { p.native_granularity },
        TilingStep::Search(list) => if list@.len() == 0 {
            g == p.native_granularity
        } else {
            exists|i: int| #[trigger] sorting::is_first_least(scores, i) && g == list@[i]
        },
    }
}

/// Settles the search by the scores of what the step asked to compare.
pub fn settle_tiling(problem: &Problem, step: &TilingStep, scores: &[i64]) -> (g: Granularity)
    requires
        scores@.len() == scores_wanted(*step),
    ensures
        is_settled(g, *problem, *step, scores@),
{
    match step {
        TilingStep::Settled(only) => *only,
        TilingStep::TrySplit(split) => {
            if scores[1] < scores[0] {
                *split
            } else {
                problem.native_granularity
            }
        },
        TilingStep::Search(list) => {
            match sorting::find_first_least(scores) {
                Some(i) => list[i],
                None => problem.native_granularity,
            }
        },
    }
}

/// Whatever the scores say, the group fits in fast memory with the granularity that wins,
/// unless nothing that was tried fits.
pub proof fn winner_fits(step: TilingStep, p: Problem, group: Seq<OpId>, meta: Seq<TensorMeta>, i: int)
    requires
        is_first_step(step, p, group, meta),
        step is Search,
        0 <= i < step->Search_0@.len(),
    ensures
        memory::fits_memory(group, p, step->Search_0@[i], meta),
{
    let tiles = choose|tiles: Seq<(i64, i64)>|
        {
            let all = combined(tiles, parts_to_try(p, group), tiles.len());
            &&& #[trigger] candidates::holds(
                tiles,
                cost::proposed_tiles(p, group),
                arith::quotient(p.fast_memory_capacity as int, 3),
            )
            &&& step->Search_0@ == fitting(all, group, p, meta, all.len())
        };
    let all = combined(tiles, parts_to_try(p, group), tiles.len());
    lemma_fitting(all, group, p, meta, all.len());
}

/// Every granularity that is kept fits.
pub proof fn lemma_fitting(list: Seq<Granularity>, group: Seq<OpId>, p: Problem, meta: Seq<TensorMeta>, k: nat)
    requires
        k <= list.len(),
    ensures
        forall|i: int|
            0 <= i < fitting(list, group, p, meta, k).len() ==> memory::fits_memory(
                group,
                p,
                #[trigger] fitting(list, group, p, meta, k)[i],
                meta,
            ),
    decreases k,
{
    if k > 0 {
        lemma_fitting(list, group, p, meta, (k - 1) as nat);
        let rest = fitting(list, group, p, meta, (k - 1) as nat);
        let all = fitting(list, group, p, meta, k);
        assert forall|i: int| 0 <= i < all.len() implies memory::fits_memory(group, p, #[trigger] all[i], meta) by {
            if i < rest.len() {
                assert(all[i] == rest[i]);
            }
        }
    }
}

/// Whatever the scores say, the search ends with a granularity with which the group fits
/// in fast memory, or with the native one. Where the group fits with the native one, at
/// most the inner dimension of matrix products is cut in two.
pub proof fn chosen_tiling_fits(
    g: Granularity,
    step: TilingStep,
    scores: Seq<i64>,
    p: Problem,
    group: Seq<OpId>,
    meta: Seq<TensorMeta>,
)
    requires
        is_first_step(step, p, group, meta),
        scores.len() == scores_wanted(step),
        is_settled(g, p, step, scores),
    ensures
        g == p.native_granularity || memory::fits_memory(group, p, g, meta),
        memory::fits_memory(group, p, p.native_granularity, meta) ==> g == p.native_granularity || (g == native_split(p)
            && memory::has_matmul(group, p.ops@)),
{
    if step is Search && step->Search_0@.len() > 0 {
        let i = choose|i: int| #[trigger] sorting::is_first_least(scores, i) && g == step->Search_0@[i];
        winner_fits(step, p, group, meta, i);
    }
}

} // verus!
