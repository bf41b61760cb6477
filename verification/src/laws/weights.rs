//! Which tensors stay in fast memory because they are used again and again.
use vstd::prelude::*;
use crate::{arith, greedy, ids, sorting, weight_stationary};
use crate::models::{OpId, Problem, TensorId, TensorMeta};
use crate::sorting::SortKey;
use crate::weight_stationary::{ConsecutiveShare, TensorRole, WeightAnalysis, WeightInfo, WeightStationaryConfig};

verus! {

/// What is known of a tensor. Without a producer it is a weight if something consumes it;
/// with one it is an activation if it is no result. Keeping it saves its size for each use
/// but the first. What it is worth is that, five thousand for each use, something for
/// what it is, and ten million times its uses over its size.
pub proof fn uses_make_tensors_worth_keeping(info: WeightInfo, p: Problem, meta: Seq<TensorMeta>, t: int)
    requires
        info.is_of(p, meta, t),
        0 <= t < meta.len(),
    ensures
        ({
            let m = meta[t];
            let size = p.tensors@[t].width * p.tensors@[t].height;
            let uses = m.consumers@.len() as int;
            let role: int = if info.role == TensorRole::Weight {
                50_000
            } else if info.role == TensorRole::InOut {
                25_000
            } else if info.role == TensorRole::Activation {
                10_000
            } else {
                0
            };
            let rest = info.retention_priority - info.bandwidth_savings - 5000 * uses - role;
            &&& info.tensor_id == t && info.consumers@ == m.consumers@ && info.size == size
            &&& info.role == TensorRole::Weight <==> m.producer is None && !m.is_output
            &&& info.role == TensorRole::InOut <==> m.producer is None && m.is_output
            &&& info.role == TensorRole::Output <==> m.producer is Some && m.is_output
            &&& info.role == TensorRole::Activation <==> m.producer is Some && !m.is_output
            &&& uses >= 1 ==> info.bandwidth_savings == size * (uses - 1)
            &&& uses == 0 ==> info.bandwidth_savings == 0
            &&& size <= 0 ==> rest == 0
            &&& size > 0 && uses * 10_000_000 <= i64::MAX ==> rest * size <= uses * 10_000_000 < (rest + 1) * size
        }),
{
    let size = p.tensors@[t].width * p.tensors@[t].height;
    let uses = meta[t].consumers@.len() as int;
    if uses == 1 {
        assert(size * (uses - 1) == 0) by (nonlinear_arith)
            requires
                uses == 1,
        ;
    }
    if size > 0 && uses * 10_000_000 <= i64::MAX {
        let gain = uses * 10_000_000 / size;
        assert(0 <= gain <= uses * 10_000_000 && gain * size <= uses * 10_000_000 < (gain + 1) * size)
            by (nonlinear_arith)
            requires
                gain == uses * 10_000_000 / size,
                size > 0,
                uses >= 0,
        ;
    }
}

proof fn lemma_candidates(p: Problem, meta: Seq<TensorMeta>, config: WeightStationaryConfig, k: nat, t: usize)
    requires
        k <= meta.len() <= usize::MAX,
    ensures
        weight_stationary::candidates(p, meta, config, k).contains(t) <==> t < k && weight_stationary::is_candidate(
            p,
            meta,
            config,
            t as int,
        ),
        weight_stationary::candidates(p, meta, config, k).len() <= k,
        forall|a: int|
            0 <= a < weight_stationary::candidates(p, meta, config, k).len() ==> (#[trigger] weight_stationary::candidates(
                p,
                meta,
                config,
                k,
            )[a]) < k,
        forall|a: int, b: int|
            0 <= a < b < weight_stationary::candidates(p, meta, config, k).len() ==> (
            #[trigger] weight_stationary::candidates(p, meta, config, k)[a])
                < #[trigger] weight_stationary::candidates(p, meta, config, k)[b],
    decreases k,
{
    if k > 0 {
        lemma_candidates(p, meta, config, (k - 1) as nat, t);
        ids::lemma_push_contains(weight_stationary::candidates(p, meta, config, (k - 1) as nat), (k - 1) as usize);
    }
}

/// What stays. A tensor stays only if this is wanted at all, if nothing produces it, and
/// if it has uses and saves enough; of those that nothing consumes only if graph inputs
/// count. Together they fill no more than their part of fast memory, and one that could
/// stay is left out only if it no longer fits.
pub proof fn sticky_tensors_are_reused_inputs(
    kept: Seq<TensorId>,
    p: Problem,
    meta: Seq<TensorMeta>,
    config: WeightStationaryConfig,
    t: TensorId,
)
    requires
        weight_stationary::are_kept(p, meta, config, kept),
        meta.len() <= p.tensors@.len() <= usize::MAX,
        p.fast_memory_capacity >= 0,
        config.max_sram_fraction <= 100,
        forall|x: int|
            0 <= x < meta.len() ==> 0 <= (#[trigger] p.tensors@[x]).width * p.tensors@[x].height <= i64::MAX,
    ensures
        ({
            let m = meta[t as int];
            let size = p.tensors@[t as int].width * p.tensors@[t as int].height;
            let uses = m.consumers@.len() as int;
            let saved = if uses >= 1 { size * (uses - 1) } else { 0 };
            let could = config.enabled && t < meta.len() && m.producer is None && uses >= config.min_reuse_count && saved
                >= config.min_bandwidth_savings && (config.include_graph_inputs || !m.is_output);
            let taken = arith::sum(kept.map_values(|x: usize| p.tensors@[x as int].width * p.tensors@[x as int].height));
            let room = p.fast_memory_capacity * config.max_sram_fraction;
            &&& kept.no_duplicates()
            &&& kept.contains(t) ==> could
            &&& 100 * taken <= room
            &&& could && !kept.contains(t) ==> 100 * (taken + size) > room
        }),
{
    let listed = weight_stationary::candidates(p, meta, config, meta.len());
    let cap = p.fast_memory_capacity as int;
    let percent = config.max_sram_fraction as int;
    let budget = arith::share(cap, percent);
    let sizes = weight_stationary::sizes_of(p, listed);
    let size_of = |x: usize| p.tensors@[x as int].width * p.tensors@[x as int].height;
    let keys = choose|keys: Seq<SortKey>| #[trigger]
        weight_stationary::ranks_by_worth(keys, p, meta, listed) && greedy::is_greedy_choice(
            listed,
            sizes,
            keys,
            budget,
            kept,
        );
    lemma_candidates(p, meta, config, meta.len(), t);
    assert forall|x: int| 0 <= x < listed.len() implies #[trigger] sizes[x] == size_of(listed[x]) && sizes[x] >= 0 by {
        assert(listed[x] < meta.len());
        assert(0 <= p.tensors@[listed[x] as int].width * p.tensors@[listed[x] as int].height);
    }
    assert(0 <= cap * percent) by (nonlinear_arith)
        requires
            cap >= 0,
            percent >= 0,
    ;
    greedy::chosen_items_fit(listed, sizes, keys, budget, kept, size_of);
    greedy::choice_is_full(listed, sizes, keys, budget, kept, size_of);
    let uses = meta[t as int].consumers@.len() as int;
    let size = p.tensors@[t as int].width * p.tensors@[t as int].height;
    if uses == 1 {
        assert(size * (uses - 1) == 0) by (nonlinear_arith)
            requires
                uses == 1,
        ;
    }
}

/// Some operation still to run consumes the tensor.
spec fn has_use(m: TensorMeta, remaining: Set<OpId>) -> bool {
    exists|c: int| 0 <= c < m.consumers@.len() && remaining.contains(#[trigger] m.consumers@[c])
}

proof fn lemma_sticky_needed(analysis: WeightAnalysis, meta: Seq<TensorMeta>, remaining: Set<OpId>, k: nat, t: usize)
    requires
        k <= usize::MAX,
    ensures
        analysis.sticky_needed(meta, remaining, k).contains(t) <==> t < k && analysis.sticky_tensors@.contains(t)
            && has_use(meta[t as int], remaining),
        forall|a: int|
            0 <= a < analysis.sticky_needed(meta, remaining, k).len() ==> (#[trigger] analysis.sticky_needed(
                meta,
                remaining,
                k,
            )[a]) < k,
        forall|a: int, b: int|
            0 <= a < b < analysis.sticky_needed(meta, remaining, k).len() ==> (#[trigger] analysis.sticky_needed(
                meta,
                remaining,
                k,
            )[a]) < #[trigger] analysis.sticky_needed(meta, remaining, k)[b],
    decreases k,
{
    if k > 0 {
        lemma_sticky_needed(analysis, meta, remaining, (k - 1) as nat, t);
        ids::lemma_push_contains(analysis.sticky_needed(meta, remaining, (k - 1) as nat), (k - 1) as usize);
    }
}

/// The memory reserved is for the sticky tensors that an operation still to run consumes,
/// each once.
pub proof fn reservations_are_for_needed_tensors(
    analysis: WeightAnalysis,
    meta: Seq<TensorMeta>,
    remaining: Set<OpId>,
    t: usize,
)
    ensures
        ({
            let listed = analysis.sticky_needed(meta, remaining, analysis.tensor_info@.len());
            &&& listed.no_duplicates()
            &&& listed.contains(t) <==> t < analysis.tensor_info@.len() && analysis.sticky_tensors@.contains(t) && (exists|
                c: int,
            |
                0 <= c < meta[t as int].consumers@.len() && remaining.contains(#[trigger] meta[t as int].consumers@[c]))
            &&& analysis.size_numbers(listed) =~= listed.map_values(
                |x: usize| analysis.tensor_info@[x as int].size as int,
            )
        }),
{
    assert(analysis.tensor_info@.len() == analysis.tensor_info.len());
    lemma_sticky_needed(analysis, meta, remaining, analysis.tensor_info@.len(), t);
}

/// What is kept for the operations still to run: only what one of them consumes and what
/// is sticky or was proposed. Such a tensor is left out only if it no longer fits beside
/// the others.
pub proof fn retained_tensors_are_needed(
    selected: Seq<TensorId>,
    analysis: WeightAnalysis,
    meta: Seq<TensorMeta>,
    remaining: Set<OpId>,
    base: Seq<TensorId>,
    capacity: int,
    t: TensorId,
)
    requires
        weight_stationary::is_retention(selected, analysis, meta, remaining, base, capacity),
        base.no_duplicates(),
        analysis.sticky_known(meta),
        forall|x: int| 0 <= x < analysis.tensor_info@.len() ==> (#[trigger] analysis.tensor_info@[x]).size >= 0,
        capacity >= 0,
    ensures
        ({
            let wanted = t < analysis.tensor_info@.len() && t < meta.len() && (analysis.sticky_tensors@.contains(t)
                || base.contains(t)) && exists|c: int|
                0 <= c < meta[t as int].consumers@.len() && remaining.contains(#[trigger] meta[t as int].consumers@[c]);
            let taken = arith::sum(selected.map_values(|x: usize| analysis.tensor_info@[x as int].size as int));
            &&& selected.no_duplicates()
            &&& selected.contains(t) ==> wanted
            &&& taken <= capacity
            &&& wanted && !selected.contains(t) ==> taken + analysis.tensor_info@[t as int].size > capacity
        }),
{
    weight_stationary::retention_is_full(selected, analysis, meta, remaining, base, capacity);
    weight_stationary::retained_tensors_fit(selected, analysis, meta, remaining, base, capacity);
    assert(analysis.size_numbers(selected) =~= selected.map_values(|x: usize| analysis.tensor_info@[x as int].size as int));
    assert(weight_stationary::is_retainable(analysis, meta, remaining, base, t) <==> t < analysis.tensor_info@.len() && t
        < meta.len() && (analysis.sticky_tensors@.contains(t) || base.contains(t)) && has_use(meta[t as int], remaining));
}

/// A tensor should stay exactly if it is sticky and one of the next operations consumes it.
pub proof fn next_operations_decide(yes: bool, t: TensorId, sticky: Set<TensorId>, upcoming: Seq<OpId>, meta: Seq<TensorMeta>, lookahead: usize)
    requires
        yes == (sticky.contains(t) && weight_stationary::has_future(
            meta[t as int],
            upcoming.take(arith::least(upcoming.len() as int, lookahead as int)).to_set(),
        )),
    ensures
        yes <==> sticky.contains(t) && exists|i: int, c: int|
            #![trigger upcoming[i], meta[t as int].consumers@[c]]
            0 <= i < upcoming.len() && i < lookahead && 0 <= c < meta[t as int].consumers@.len() && upcoming[i]
                == meta[t as int].consumers@[c],
{
    let n = arith::least(upcoming.len() as int, lookahead as int);
    let next = upcoming.take(n);
    let consumers = meta[t as int].consumers@;
    if weight_stationary::has_future(meta[t as int], next.to_set()) {
        let c = choose|c: int| 0 <= c < consumers.len() && next.to_set().contains(#[trigger] consumers[c]);
        assert(next.contains(consumers[c]));
        let i = choose|i: int| 0 <= i < next.len() && next[i] == consumers[c];
        assert(upcoming[i] == consumers[c]);
    }
    if exists|i: int, c: int|
        #![trigger upcoming[i], consumers[c]]
        0 <= i < upcoming.len() && i < lookahead && 0 <= c < consumers.len() && upcoming[i] == consumers[c] {
        let (i, c) = choose|i: int, c: int|
            #![trigger upcoming[i], consumers[c]]
            0 <= i < upcoming.len() && i < lookahead && 0 <= c < consumers.len() && upcoming[i] == consumers[c];
        assert(next[i] == consumers[c]);
        assert(next.contains(consumers[c]));
        assert(next.to_set().contains(consumers[c]));
    }
}

/// Two operations share what both take in, each tensor once. Keeping that saves writing
/// and reading all of it.
pub proof fn shared_inputs_are_taken_by_both(share: ConsecutiveShare, p: Problem, pair: (OpId, OpId), t: TensorId)
    requires
        share.is_of(p, pair),
    ensures
        share.op_before == pair.0,
        share.op_after == pair.1,
        share.shared_tensors@.no_duplicates(),
        share.shared_tensors@.contains(t) <==> p.ops@[pair.0 as int].inputs@.contains(t)
            && p.ops@[pair.1 as int].inputs@.contains(t),
        share.bandwidth_savings == 2 * arith::sum(
            share.shared_tensors@.map_values(|x: usize| p.tensors@[x as int].width * p.tensors@[x as int].height),
        ),
{
    let first = p.ops@[pair.0 as int].inputs@;
    let second = p.ops@[pair.1 as int].inputs@;
    ids::lemma_first_mentions(first, |t: usize| second.contains(t), first.len());
    assert(first.take(first.len() as int) =~= first);
    assert(weight_stationary::areas(p, share.shared_tensors@) =~= share.shared_tensors@.map_values(
        |x: usize| p.tensors@[x as int].width * p.tensors@[x as int].height,
    ));
}

/// Neighbours that take in a common tensor are listed, and no others.
pub proof fn sharing_neighbours_are_listed(p: Problem, group: Seq<OpId>, k: nat, pair: (OpId, OpId))
    requires
        k == 0 || k < group.len(),
    ensures
        weight_stationary::sharing_pairs(p, group, k).contains(pair) <==> exists|i: int, t: TensorId|
            {
                &&& 0 <= i < k
                &&& pair.0 == group[i] && pair.1 == group[i + 1]
                &&& #[trigger] p.ops@[group[i] as int].inputs@.contains(t)
                &&& p.ops@[group[i + 1] as int].inputs@.contains(t)
            },
        weight_stationary::sharing_pairs(p, group, k).len() <= k,
    decreases k,
{
    if k > 0 {
        sharing_neighbours_are_listed(p, group, (k - 1) as nat, pair);
        let before = weight_stationary::sharing_pairs(p, group, (k - 1) as nat);
        let all = weight_stationary::sharing_pairs(p, group, k);
        let a = group[k - 1] as int;
        let b = group[k as int] as int;
        let both = weight_stationary::shared(p, a, b);
        let first = p.ops@[a].inputs@;
        let second = p.ops@[b].inputs@;
        ids::lemma_first_mentions(first, |t: usize| second.contains(t), first.len());
        assert(first.take(first.len() as int) =~= first);
        if all.contains(pair) {
            let x = choose|x: int| 0 <= x < all.len() && all[x] == pair;
            if x < before.len() {
                assert(before[x] == pair);
                assert(before.contains(pair));
                let (i, t) = choose|i: int, t: TensorId|
                    {
                        &&& 0 <= i < k - 1
                        &&& pair.0 == group[i] && pair.1 == group[i + 1]
                        &&& #[trigger] p.ops@[group[i] as int].inputs@.contains(t)
                        &&& p.ops@[group[i + 1] as int].inputs@.contains(t)
                    };
                assert(0 <= i < k && p.ops@[group[i] as int].inputs@.contains(t));
            } else {
                let t = both[0];
                assert(both.contains(t));
                assert(p.ops@[group[k - 1] as int].inputs@.contains(t));
                assert(p.ops@[group[k - 1 + 1] as int].inputs@.contains(t));
            }
        }
        if exists|i: int, t: TensorId|
            {
                &&& 0 <= i < k
                &&& pair.0 == group[i] && pair.1 == group[i + 1]
                &&& #[trigger] p.ops@[group[i] as int].inputs@.contains(t)
                &&& p.ops@[group[i + 1] as int].inputs@.contains(t)
            } {
            let (i, t) = choose|i: int, t: TensorId|
                {
                    &&& 0 <= i < k
                    &&& pair.0 == group[i] && pair.1 == group[i + 1]
                    &&& #[trigger] p.ops@[group[i] as int].inputs@.contains(t)
                    &&& p.ops@[group[i + 1] as int].inputs@.contains(t)
                };
            if i < k - 1 {
                assert(p.ops@[group[i] as int].inputs@.contains(t));
                assert(before.contains(pair));
                let x = choose|x: int| 0 <= x < before.len() && before[x] == pair;
                assert(all[x] == pair);
            } else {
                assert(both.contains(t));
                assert(all[all.len() - 1] == pair);
            }
        }
    }
}

/// Only what no operation produces is kept for its reuse, and a result of the graph only
/// where graph inputs are asked for; all such tensors are, if they are used often enough
/// and save enough.
pub proof fn produced_tensors_are_no_candidates(p: Problem, meta: Seq<TensorMeta>, config: WeightStationaryConfig, t: int)
    ensures
        weight_stationary::is_candidate(p, meta, config, t) ==> config.enabled && meta[t].producer is None,
        weight_stationary::is_candidate(p, meta, config, t) && meta[t].is_output ==> config.include_graph_inputs,
        config.enabled && meta[t].producer is None && (!meta[t].is_output || config.include_graph_inputs) ==> (
        weight_stationary::is_candidate(p, meta, config, t) <==> meta[t].consumers@.len() >= config.min_reuse_count
            && weight_stationary::savings_at(p, meta, t) >= config.min_bandwidth_savings),
{
}

} // verus!
