//! Which schedules compete, what their groups keep, and how the winner is found.
use vstd::prelude::*;
use crate::{arith, candidates, cost, dataflow, greedy, memory, parallel, scheduler, text, triage};
use crate::cost::Fraction;
use crate::laws::{numbers, topology};
use crate::models::{OpId, Problem, Solution, TensorId, TensorMeta};
use crate::parallel::{ScheduleCandidate, Strategy};
use crate::sorting::SortKey;
use crate::triage::{GraphTopology, TriageResult};

verus! {

/// Full fusion always takes part, and comes first. Two tiles take part in graphs of more
/// than 200 operations, four in those of more than 1000, and branches exactly in diamonds
/// that have several. Nothing else does, and nothing twice.
pub proof fn competing_strategies(list: Seq<Strategy>, p: Problem, triage: TriageResult)
    requires
        list == parallel::strategies(p.ops@.len() as int, triage.topology, triage.branch_count as int),
    ensures
        list.len() > 0,
        list[0] == Strategy::FullFusion,
        list.contains(Strategy::FullFusion),
        list.contains(Strategy::Stitched(2)) <==> p.ops@.len() > 200,
        list.contains(Strategy::Stitched(4)) <==> p.ops@.len() > 1000,
        list.contains(Strategy::BranchParallel) <==> triage.topology == GraphTopology::Diamond && triage.branch_count
            > 1,
        forall|parts: usize| #[trigger] list.contains(Strategy::Stitched(parts)) ==> parts == 2 || parts == 4,
        list.no_duplicates(),
{
    let n = p.ops@.len();
    let branched = triage.topology == GraphTopology::Diamond && triage.branch_count > 1;
    let at: int = 1 + (if n > 200 { 1int } else { 0int }) + (if n > 1000 { 1int } else { 0int });
    assert(list[0] == Strategy::FullFusion);
    if n > 200 {
        assert(list[1] == Strategy::Stitched(2));
    }
    if n > 1000 {
        assert(list[2] == Strategy::Stitched(4));
    }
    if branched {
        assert(list[at] == Strategy::BranchParallel);
    }
}

proof fn lemma_inner(meta: Seq<TensorMeta>, group: Seq<OpId>, listed: Seq<TensorId>, k: nat)
    requires
        k <= listed.len(),
    ensures
        cost::ephemeral(meta, group, listed, k) == listed.take(k as int).filter(
            |t: TensorId|
                t < meta.len() && !meta[t as int].is_output && forall|c: int|
                    0 <= c < meta[t as int].consumers@.len() ==> group.contains(#[trigger] meta[t as int].consumers@[c]),
        ).len(),
        cost::ephemeral(meta, group, listed, k) <= k,
    decreases k,
{
    let pred = |t: TensorId|
        t < meta.len() && !meta[t as int].is_output && forall|c: int|
            0 <= c < meta[t as int].consumers@.len() ==> group.contains(#[trigger] meta[t as int].consumers@[c]);
    if k == 0 {
        reveal(Seq::filter);
        assert(listed.take(0) =~= Seq::<TensorId>::empty());
    } else {
        lemma_inner(meta, group, listed, (k - 1) as nat);
        assert(listed.take(k as int) =~= listed.take(k - 1).push(listed[k - 1]));
        listed.take(k - 1).lemma_filter_push(listed[k - 1], pred);
    }
}

/// What stays of the latency of a group. By its size alone 95 hundredths stay, 85 of more
/// than 100 operations, 80 of more than 500 and 70 of more than 1000. Of that, outputs
/// that no other operation and no result of the graph needs save half their part.
pub proof fn inner_outputs_and_size_save_latency(f: Fraction, ops: Seq<OpId>, p: Problem, meta: Seq<TensorMeta>)
    requires
        ({
            let outs = candidates::outputs(p, ops);
            let kept = parallel::latency_kept(ops.len(), outs.len(), cost::ephemeral(meta, ops, outs, outs.len()));
            f.numerator == kept.0 && f.denominator == kept.1
        }),
    ensures
        ({
            let outs = candidates::outputs(p, ops);
            let inner = outs.filter(
                |t: TensorId|
                    t < meta.len() && !meta[t as int].is_output && forall|c: int|
                        0 <= c < meta[t as int].consumers@.len() ==> ops.contains(
                            #[trigger] meta[t as int].consumers@[c],
                        ),
            ).len();
            let stays: int = if ops.len() <= 100 {
                95
            } else if ops.len() <= 500 {
                85
            } else if ops.len() <= 1000 {
                80
            } else {
                70
            };
            &&& 0 < f.numerator < f.denominator
            &&& outs.len() == 0 ==> 100 * f.numerator == stays * f.denominator
            &&& outs.len() > 0 ==> f.numerator * (200 * outs.len()) == (stays * (2 * outs.len() - inner))
                * f.denominator
        }),
{
    let outs = candidates::outputs(p, ops);
    let inner = cost::ephemeral(meta, ops, outs, outs.len());
    lemma_inner(meta, ops, outs, outs.len());
    assert(outs.take(outs.len() as int) =~= outs);
    let len = outs.len() as int;
    let stays = parallel::size_kept(ops.len());
    if len > 0 {
        let a = stays * (2 * len - inner);
        assert(0 < a < 200 * len) by (nonlinear_arith)
            requires
                a == stays * (2 * len - inner),
                0 <= inner <= len,
                0 < stays < 100,
                len > 0,
        ;
    }
}

/// One of the tiles holds the operation.
pub open spec fn is_in_some_tile(parts: Seq<Vec<OpId>>, op: OpId) -> bool {
    exists|k: int| 0 <= k < parts.len() && #[trigger] parts[k]@.contains(op)
}

/// What a tile may keep was produced in it and is consumed in a later one; all that is so
/// is looked at, in the order of the tensors.
pub proof fn boundaries_lead_on(meta: Seq<TensorMeta>, parts: Seq<Vec<OpId>>, n: nat, i: int, t: usize)
    requires
        parallel::are_disjoint(parts),
        meta.len() <= usize::MAX,
        0 <= i < parts.len(),
        forall|op: OpId| op < n ==> #[trigger] is_in_some_tile(parts, op),
    ensures
        parallel::boundary(meta, parts, n, i, meta.len()).contains(t) <==> t < meta.len() && meta[t as int].producer is Some
            && meta[t as int].producer->0 < n && parts[i]@.contains(meta[t as int].producer->0) && exists|c: int, j: int|
            #![trigger meta[t as int].consumers@[c], parts[j]]
            0 <= c < meta[t as int].consumers@.len() && meta[t as int].consumers@[c] < n && i < j < parts.len()
                && parts[j]@.contains(meta[t as int].consumers@[c]),
        forall|a: int, b: int|
            0 <= a < b < parallel::boundary(meta, parts, n, i, meta.len()).len() ==> (#[trigger] parallel::boundary(
                meta,
                parts,
                n,
                i,
                meta.len(),
            )[a]) < #[trigger] parallel::boundary(meta, parts, n, i, meta.len())[b],
{
    lemma_boundary(meta, parts, n, i, meta.len(), t);
    if t < meta.len() {
        let m = meta[t as int];
        if m.producer is Some && m.producer->0 < n {
            lemma_tile_of(parts, m.producer->0);
            let at = parallel::tile_of(parts, m.producer->0);
            assert(at == i <==> parts[i]@.contains(m.producer->0));
        }
        if exists|c: int, j: int|
            #![trigger m.consumers@[c], parts[j]]
            0 <= c < m.consumers@.len() && m.consumers@[c] < n && i < j < parts.len() && parts[j]@.contains(
                m.consumers@[c],
            ) {
            let (c, j) = choose|c: int, j: int|
                #![trigger m.consumers@[c], parts[j]]
                0 <= c < m.consumers@.len() && m.consumers@[c] < n && i < j < parts.len() && parts[j]@.contains(
                    m.consumers@[c],
                );
            lemma_tile_of(parts, m.consumers@[c]);
            assert(parallel::tile_of(parts, m.consumers@[c]) == j);
        }
        if parallel::crosses(meta, parts, n, i, t as int) {
            let c = choose|c: int|
                0 <= c < m.consumers@.len() && (#[trigger] m.consumers@[c]) < n && parallel::tile_of(
                    parts,
                    m.consumers@[c],
                ) > i;
            lemma_tile_of(parts, m.consumers@[c]);
            let j = parallel::tile_of(parts, m.consumers@[c]);
            assert(parts[j]@.contains(m.consumers@[c]));
        }
    }
}

proof fn lemma_tile_of(parts: Seq<Vec<OpId>>, op: OpId)
    requires
        parallel::are_disjoint(parts),
        is_in_some_tile(parts, op),
    ensures
        0 <= parallel::tile_of(parts, op) < parts.len(),
        parts[parallel::tile_of(parts, op)]@.contains(op),
        forall|k: int|
            0 <= k < parts.len() && #[trigger] parts[k]@.contains(op) ==> k == parallel::tile_of(parts, op),
{
}

proof fn lemma_boundary(meta: Seq<TensorMeta>, parts: Seq<Vec<OpId>>, n: nat, i: int, k: nat, t: usize)
    requires
        k <= meta.len() <= usize::MAX,
    ensures
        parallel::boundary(meta, parts, n, i, k).contains(t) <==> t < k && parallel::crosses(
            meta,
            parts,
            n,
            i,
            t as int,
        ),
        forall|a: int|
            0 <= a < parallel::boundary(meta, parts, n, i, k).len() ==> (#[trigger] parallel::boundary(
                meta,
                parts,
                n,
                i,
                k,
            )[a]) < k,
        forall|a: int, b: int|
            0 <= a < b < parallel::boundary(meta, parts, n, i, k).len() ==> (#[trigger] parallel::boundary(
                meta,
                parts,
                n,
                i,
                k,
            )[a]) < #[trigger] parallel::boundary(meta, parts, n, i, k)[b],
    decreases k,
{
    if k > 0 {
        lemma_boundary(meta, parts, n, i, (k - 1) as nat, t);
        let rest = parallel::boundary(meta, parts, n, i, (k - 1) as nat);
        let all = parallel::boundary(meta, parts, n, i, k);
        if parallel::crosses(meta, parts, n, i, k - 1) {
            assert(all[all.len() - 1] == k - 1);
            if t == k - 1 {
                assert(all.contains(t));
            }
            if rest.contains(t) {
                let a = choose|a: int| 0 <= a < rest.len() && rest[a] == t;
                assert(all[a] == t);
            }
            if all.contains(t) && t != k - 1 {
                let a = choose|a: int| 0 <= a < all.len() && all[a] == t;
                assert(rest[a] == t);
            }
        }
    }
}

/// Every tile but the last holds the same number of operations: as many as just suffice
/// to make so many tiles. The last one is at least a quarter as long as the others.
pub proof fn stitched_tiles_are_even(
    parts: Seq<Vec<OpId>>,
    p: Problem,
    meta: Seq<TensorMeta>,
    wanted: int,
    size: int,
    k: int,
)
    requires
        parallel::is_stitch_cut(parts, p, meta, wanted),
        wanted > 0,
        p.ops@.len() > 0,
        (size - 1) * wanted < p.ops@.len() <= size * wanted,
        0 <= k < parts.len(),
    ensures
        parallel::stitched_size(p.ops@.len() as int, wanted) == size,
        k < parts.len() - 1 ==> parts[k]@.len() == size,
        k == parts.len() - 1 && parts.len() > 1 ==> size / 4 <= parts[k]@.len() < size + size / 4 || parts[k]@.len()
            == size,
{
    let n = p.ops@.len() as int;
    assert((n + wanted - 1) / wanted == size && size > 0) by (nonlinear_arith)
        requires
            (size - 1) * wanted < n <= size * wanted,
            wanted > 0,
            n > 0,
    ;
    topology::lemma_tile_sizes(parts, dataflow::run_order(p.ops@, meta), size, size / 4, k);
}

/// What a tile keeps are small tensors before large ones: a tensor is left out only if it
/// no longer fits beside those kept, and two fifths of fast memory is the limit.
pub proof fn tiles_keep_what_fits(
    kept: Seq<TensorId>,
    p: Problem,
    meta: Seq<TensorMeta>,
    parts: Seq<Vec<OpId>>,
    i: int,
    t: TensorId,
)
    requires
        parallel::is_kept(kept, p, meta, parts, i),
        parallel::passed_on_known(p, meta),
        p.fast_memory_capacity >= 0,
        meta.len() <= usize::MAX,
        forall|x: int| 0 <= x < p.tensors@.len() ==> (#[trigger] p.tensors@[x]).area() >= 0,
    ensures
        kept.no_duplicates(),
        kept.contains(t) ==> parallel::boundary(meta, parts, p.ops@.len(), i, meta.len()).contains(t),
        5 * arith::sum(kept.map_values(|x: usize| p.tensors@[x as int].area())) <= 2 * p.fast_memory_capacity,
        parallel::boundary(meta, parts, p.ops@.len(), i, meta.len()).contains(t) && !kept.contains(t) ==> 5 * (
        arith::sum(kept.map_values(|x: usize| p.tensors@[x as int].area())) + p.tensors@[t as int].area()) > 2
            * p.fast_memory_capacity,
{
    let listed = parallel::boundary(meta, parts, p.ops@.len(), i, meta.len());
    let budget = arith::share(p.fast_memory_capacity as int, 40);
    let sizes = memory::sizes_of(listed, p);
    let size_of = |x: usize| p.tensors@[x as int].area();
    let keys = choose|keys: Seq<SortKey>| #[trigger]
        parallel::ranks_by_size(keys, p, listed) && greedy::is_greedy_choice(listed, sizes, keys, budget, kept);
    lemma_boundary(meta, parts, p.ops@.len(), i, meta.len(), t);
    assert forall|x: int| 0 <= x < listed.len() implies #[trigger] sizes[x] == size_of(listed[x]) && sizes[x] >= 0 by {
        lemma_boundary(meta, parts, p.ops@.len(), i, meta.len(), listed[x]);
        assert(listed.contains(listed[x]));
        assert(parallel::crosses(meta, parts, p.ops@.len(), i, listed[x] as int));
        assert(arith::fits(p.tensors@[listed[x] as int].area()));
    }
    lemma_listed_below(meta, parts, p.ops@.len(), i, meta.len());
    greedy::chosen_items_fit(listed, sizes, keys, budget, kept, size_of);
    greedy::choice_is_full(listed, sizes, keys, budget, kept, size_of);
    let total = arith::sum(kept.map_values(size_of));
    let cap = p.fast_memory_capacity as int;
    assert(budget == cap * 40 / 100);
}

proof fn lemma_listed_below(meta: Seq<TensorMeta>, parts: Seq<Vec<OpId>>, n: nat, i: int, k: nat)
    requires
        k <= meta.len() <= usize::MAX,
    ensures
        parallel::boundary(meta, parts, n, i, k).len() <= k,
    decreases k,
{
    if k > 0 {
        lemma_listed_below(meta, parts, n, i, (k - 1) as nat);
    }
}

/// The winner fits if any does. No other that fits as well has a lower score, and none
/// before it has the same.
pub proof fn winners_fit_and_are_cheapest(scores: Seq<i64>, fits: Seq<bool>, best: Option<usize>, j: int)
    requires
        scores.len() == fits.len(),
        match best {
            Some(i) => parallel::is_winner(scores, fits, i as int),
            None => scores.len() == 0,
        },
        0 <= j < scores.len(),
    ensures
        best is Some,
        best->0 < scores.len(),
        fits[j] ==> fits[best->0 as int],
        fits[j] == fits[best->0 as int] ==> scores[best->0 as int] <= scores[j],
        fits[j] == fits[best->0 as int] && j < best->0 ==> scores[best->0 as int] < scores[j],
{
}

/// The eight bytes of a header are the digits of the length to the base of 256, the
/// lowest first.
pub proof fn headers_hold_digits(header: Seq<u8>, n: nat)
    requires
        header == parallel::little_endian(n, 8),
        n <= u64::MAX,
    ensures
        header.len() == 8,
        n == header[0] + 256 * header[1] + 65_536 * header[2] + 16_777_216 * header[3] + 4_294_967_296 * header[4]
            + 1_099_511_627_776 * header[5] + 281_474_976_710_656 * header[6] + 72_057_594_037_927_936 * header[7],
{
    reveal_with_fuel(parallel::little_endian, 9);
    reveal_with_fuel(parallel::power, 9);
    parallel::headers_tell_lengths(n, 8);
    lemma_eight_bytes(header);
}

proof fn lemma_eight_bytes(header: Seq<u8>)
    requires
        header.len() == 8,
    ensures
        parallel::little_endian_value(header) == header[0] + 256 * header[1] + 65_536 * header[2] + 16_777_216 * header[3]
            + 4_294_967_296 * header[4] + 1_099_511_627_776 * header[5] + 281_474_976_710_656 * header[6]
            + 72_057_594_037_927_936 * header[7],
{
    reveal_with_fuel(parallel::little_endian_value, 9);
    let a = header.drop_first();
    let b = a.drop_first();
    let c = b.drop_first();
    let d = c.drop_first();
    let e = d.drop_first();
    let f = e.drop_first();
    let g = f.drop_first();
    assert(a[0] == header[1] && b[0] == header[2] && c[0] == header[3] && d[0] == header[4] && e[0] == header[5] && f[0]
        == header[6] && g[0] == header[7]);
    assert(g.drop_first().len() == 0);
}

/// A header is accepted exactly if the number that its bytes stand for, the lowest
/// first, is at most 268435456; the length is that number.
pub proof fn headers_announce_lengths(header: Seq<u8>, len: Option<u64>)
    requires
        header.len() == 8,
        match len {
            Some(n) => n == parallel::little_endian_value(header) && n <= parallel::MAX_FRAME_BYTES,
            None => parallel::little_endian_value(header) > parallel::MAX_FRAME_BYTES,
        },
    ensures
        ({
            let n = header[0] + 256 * header[1] + 65_536 * header[2] + 16_777_216 * header[3] + 4_294_967_296 * header[4]
                + 1_099_511_627_776 * header[5] + 281_474_976_710_656 * header[6] + 72_057_594_037_927_936 * header[7];
            &&& len is Some <==> n <= 268_435_456
            &&& len is Some ==> len->0 == n
        }),
{
    lemma_eight_bytes(header);
}

/// Each strategy makes the groups that its name says: full fusion one, with every
/// operation in ascending order and nothing kept; branches one for each branch, with
/// nothing kept either.
pub proof fn strategies_make_their_groups(c: ScheduleCandidate, p: Problem, meta: Seq<TensorMeta>, strategy: Strategy, i: int)
    requires
        parallel::is_made_by(c, p, meta, strategy),
        p.ops@.len() <= usize::MAX,
        0 <= i < c.subgraphs@.len(),
    ensures
        strategy is FullFusion ==> c.subgraphs@.len() == 1 && c.subgraphs@[0].ops@.len() == p.ops@.len() && (forall|k: int|
            0 <= k < p.ops@.len() ==> #[trigger] c.subgraphs@[0].ops@[k] == k),
        !(strategy is Stitched) ==> c.subgraphs@[i].tensors_to_retain@.len() == 0,
        strategy is BranchParallel ==> forall|a: OpId, b: OpId, t: int|
            #![trigger c.subgraphs@[i].ops@.contains(a), c.subgraphs@[i].ops@.contains(b), meta[t]]
            c.subgraphs@[i].ops@.contains(a) && 0 <= t < meta.len() && meta[t].producer == Some(a)
                && meta[t].consumers@ == seq![b] && b < p.ops@.len() ==> c.subgraphs@[i].ops@.contains(b),
{
    if strategy is BranchParallel {
        let branches = choose|branches: Seq<Vec<OpId>>|
            {
                &&& #[trigger] triage::are_branches(branches, meta, p.ops@.len())
                &&& c.subgraphs@.len() == branches.len()
                &&& forall|i: int|
                    0 <= i < branches.len() ==> (#[trigger] c.subgraphs@[i]).is_fused(
                        p,
                        meta,
                        branches[i]@,
                        Seq::empty(),
                    )
            };
        assert(c.subgraphs@[i].is_fused(p, meta, branches[i]@, Seq::empty()));
        assert forall|a: OpId, b: OpId, t: int|
            #![trigger c.subgraphs@[i].ops@.contains(a), c.subgraphs@[i].ops@.contains(b), meta[t]]
            c.subgraphs@[i].ops@.contains(a) && 0 <= t < meta.len() && meta[t].producer == Some(a)
                && meta[t].consumers@ == seq![b] && b < p.ops@.len() implies c.subgraphs@[i].ops@.contains(b) by {
            topology::branches_hang_together(branches, meta, p.ops@.len(), i, a, b);
        }
    }
}

/// Different strategies have different names.
pub proof fn names_tell_strategies_apart(a: Strategy, b: Strategy)
    requires
        parallel::strategy_name(a) == parallel::strategy_name(b),
    ensures
        a == b,
{
    reveal_strlit("full-fusion");
    reveal_strlit("stitched-");
    reveal_strlit("branch-parallel");
    let name = parallel::strategy_name(a);
    assert(a is FullFusion ==> name[0] == 'f');
    assert(a is Stitched ==> name[0] == 's');
    assert(a is BranchParallel ==> name[0] == 'b');
    assert(b is FullFusion ==> name[0] == 'f');
    assert(b is Stitched ==> name[0] == 's');
    assert(b is BranchParallel ==> name[0] == 'b');
    if a is Stitched {
        let x = a->Stitched_0;
        let y = b->Stitched_0;
        assert(name.skip(9) =~= text::decimal(x as int));
        assert(name.skip(9) =~= text::decimal(y as int));
        numbers::signs_stand_in_front(x as int, y as int);
    }
}

/// A plain schedule has one group with every operation in ascending order, which keeps
/// nothing; without operations it has none.
pub proof fn plain_schedules_have_one_group(solution: Solution, p: Problem, meta: Seq<TensorMeta>, k: int)
    requires
        scheduler::is_schedule(solution, p, meta),
        p.ops@.len() <= usize::MAX,
        0 <= k < p.ops@.len(),
    ensures
        solution.subgraphs@.len() == 1,
        solution.subgraphs@[0].ops@.len() == p.ops@.len(),
        solution.subgraphs@[0].ops@[k] == k,
        solution.subgraphs@[0].tensors_to_retain@.len() == 0,
        solution.subgraphs@[0].traversal_order is None,
        ({
            let g = memory::group_granularity(solution.subgraphs@[0].ops@, p, meta);
            let out = solution.subgraphs@[0].granularity;
            out.w == g.width && out.h == g.height && (g.depth > 1 ==> out.k == Some(g.depth)) && (g.depth <= 1 ==> out.k
                is None)
        }),
{
}

} // verus!
