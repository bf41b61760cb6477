//! The shape of a graph and how its operations are shared out, in terms of consumers.
use std::collections::HashSet;
use vstd::prelude::*;
use crate::{arith, components, dataflow, graph, tiles, triage};
use crate::models::{OpId, Problem, TensorMeta};
use crate::triage::{GraphTopology, PartitionStrategy, TriageResult};

verus! {

proof fn lemma_fan_out(meta: Seq<TensorMeta>, k: nat)
    requires
        k <= meta.len(),
    ensures
        triage::widest_fan_out(meta, k) >= 0,
        forall|t: int| 0 <= t < k ==> (#[trigger] meta[t]).consumers@.len() <= triage::widest_fan_out(meta, k),
        triage::widest_fan_out(meta, k) > 0 ==> exists|t: int|
            0 <= t < k && (#[trigger] meta[t]).consumers@.len() == triage::widest_fan_out(meta, k),
        triage::shared_count(meta, k) == meta.take(k as int).filter(|m: TensorMeta| m.consumers@.len() > 1).len(),
    decreases k,
{
    let pred = |m: TensorMeta| m.consumers@.len() > 1;
    if k == 0 {
        reveal(Seq::filter);
        assert(meta.take(0) =~= Seq::<TensorMeta>::empty());
    } else {
        lemma_fan_out(meta, (k - 1) as nat);
        assert(meta.take(k as int) =~= meta.take(k - 1).push(meta[k - 1]));
        meta.take(k - 1).lemma_filter_push(meta[k - 1], pred);
        let before = triage::widest_fan_out(meta, (k - 1) as nat);
        if triage::widest_fan_out(meta, k) == before {
            if before > 0 {
                let t = choose|t: int| 0 <= t < k - 1 && (#[trigger] meta[t]).consumers@.len() == before;
                assert(0 <= t < k && meta[t].consumers@.len() == before);
            }
        } else {
            assert(meta[k - 1].consumers@.len() == triage::widest_fan_out(meta, k));
        }
    }
}

proof fn lemma_fan_in(p: Problem, k: nat)
    requires
        k <= p.ops@.len(),
    ensures
        triage::widest_fan_in(p.ops@, k) >= 0,
        forall|i: int| 0 <= i < k ==> (#[trigger] p.ops@[i]).inputs@.len() <= triage::widest_fan_in(p.ops@, k),
        triage::widest_fan_in(p.ops@, k) > 0 ==> exists|i: int|
            0 <= i < k && (#[trigger] p.ops@[i]).inputs@.len() == triage::widest_fan_in(p.ops@, k),
    decreases k,
{
    if k > 0 {
        lemma_fan_in(p, (k - 1) as nat);
        let before = triage::widest_fan_in(p.ops@, (k - 1) as nat);
        if triage::widest_fan_in(p.ops@, k) == before {
            if before > 0 {
                let i = choose|i: int| 0 <= i < k - 1 && (#[trigger] p.ops@[i]).inputs@.len() == before;
                assert(0 <= i < k && p.ops@[i].inputs@.len() == before);
            }
        } else {
            assert(p.ops@[k - 1].inputs@.len() == triage::widest_fan_in(p.ops@, k));
        }
    }
}

/// The counts of a triage are what they say: no tensor has more consumers and no operation
/// more inputs, some has as many, and the shared tensors are those with several consumers.
pub proof fn triage_counts_consumers(result: TriageResult, p: Problem, meta: Seq<TensorMeta>)
    requires
        result.max_fan_out == triage::widest_fan_out(meta, meta.len()),
        result.max_fan_in == triage::widest_fan_in(p.ops@, p.ops@.len()),
        result.diamond_count == triage::shared_count(meta, meta.len()),
    ensures
        forall|t: int| 0 <= t < meta.len() ==> (#[trigger] meta[t]).consumers@.len() <= result.max_fan_out,
        result.max_fan_out > 0 ==> exists|t: int|
            0 <= t < meta.len() && (#[trigger] meta[t]).consumers@.len() == result.max_fan_out,
        forall|i: int| 0 <= i < p.ops@.len() ==> (#[trigger] p.ops@[i]).inputs@.len() <= result.max_fan_in,
        result.max_fan_in > 0 ==> exists|i: int|
            0 <= i < p.ops@.len() && (#[trigger] p.ops@[i]).inputs@.len() == result.max_fan_in,
        result.diamond_count == meta.filter(|m: TensorMeta| m.consumers@.len() > 1).len(),
{
    lemma_fan_out(meta, meta.len());
    lemma_fan_in(p, p.ops@.len());
    assert(meta.take(meta.len() as int) =~= meta);
}

/// A graph is linear only if no tensor has more than one consumer. Up to 500 operations it
/// is a diamond if some tensor has, whatever their number; up to 2000 operations it is a
/// monster only if some tensor has more than four; and beyond that it always is one.
pub proof fn shared_tensors_make_diamonds(result: TriageResult, p: Problem, meta: Seq<TensorMeta>)
    requires
        result.max_fan_out == triage::widest_fan_out(meta, meta.len()),
        result.diamond_count == triage::shared_count(meta, meta.len()),
        result.topology == triage::classify(
            p.ops@.len() as int,
            result.max_fan_out as int,
            result.diamond_count as int,
        ),
    ensures
        ({
            let n = p.ops@.len();
            let shared = exists|t: int| 0 <= t < meta.len() && (#[trigger] meta[t]).consumers@.len() > 1;
            let wide = exists|t: int| 0 <= t < meta.len() && (#[trigger] meta[t]).consumers@.len() > 4;
            &&& result.topology == GraphTopology::Linear <==> !shared && n <= 2000
            &&& result.topology == GraphTopology::Diamond <==> shared && (n <= 500 || (n <= 2000 && !wide))
            &&& result.topology == GraphTopology::Monster <==> n > 2000 || (n > 500 && wide)
        }),
{
    let pred = |m: TensorMeta| m.consumers@.len() > 1;
    lemma_fan_out(meta, meta.len());
    assert(meta.take(meta.len() as int) =~= meta);
    if exists|t: int| 0 <= t < meta.len() && (#[trigger] meta[t]).consumers@.len() > 1 {
        let t = choose|t: int| 0 <= t < meta.len() && (#[trigger] meta[t]).consumers@.len() > 1;
        meta.lemma_filter_contains(pred, t);
        assert(meta.filter(pred).len() > 0);
    } else if meta.filter(pred).len() > 0 {
        meta.lemma_filter_pred(pred, 0);
        meta.lemma_filter_contains_rev(pred, meta.filter(pred)[0]);
        let t = choose|t: int| 0 <= t < meta.len() && meta[t] == meta.filter(pred)[0];
        assert(meta[t].consumers@.len() > 1);
    }
    if result.max_fan_out > 4 {
        let t = choose|t: int| 0 <= t < meta.len() && (#[trigger] meta[t]).consumers@.len() == result.max_fan_out;
        assert(meta[t].consumers@.len() > 4);
    }
}

/// The suggestion follows the shape: what is linear, or has one worker, runs in one
/// process; the branches of a diamond are shared out among up to four workers; a monster
/// is cut into tiles, with no more workers than tiles.
pub proof fn suggestions_follow_the_shape(result: TriageResult, p: Problem, meta: Seq<TensorMeta>, workers: int)
    requires
        result.suggests(p, meta, workers),
    ensures
        result.topology == GraphTopology::Linear || workers <= 1 ==> result.strategy is SingleProcess
            && result.suggested_workers == 1,
        result.topology == GraphTopology::Diamond && result.branch_count <= 1 ==> result.strategy is SingleProcess
            && result.suggested_workers == 1,
        result.topology == GraphTopology::Diamond && result.branch_count > 1 && workers > 1 ==> {
            &&& result.strategy matches PartitionStrategy::BranchParallel { branches } && branches@.len()
                == result.branch_count
            &&& result.suggested_workers <= result.branch_count
            &&& result.suggested_workers <= workers
            &&& result.suggested_workers <= 4
            &&& result.suggested_workers == result.branch_count || result.suggested_workers == workers
                || result.suggested_workers == 4
        },
        result.topology == GraphTopology::Monster && workers > 1 ==> {
            &&& result.strategy matches PartitionStrategy::TiledPartition { tiles, boundary_tensors }
                && boundary_tensors@.len() == tiles@.len() && result.suggested_workers <= tiles@.len() && (
            result.suggested_workers == workers || result.suggested_workers == tiles@.len())
            &&& result.suggested_workers <= workers
        },
{
}

/// Operations that a tensor with one consumer leads between are in one branch; and
/// operations in one branch cannot be told apart by anything that such tensors hand on.
pub proof fn branches_hang_together(
    branches: Seq<Vec<usize>>,
    meta: Seq<TensorMeta>,
    n: nat,
    i: int,
    a: usize,
    b: usize,
)
    requires
        triage::are_branches(branches, meta, n),
        0 <= i < branches.len(),
        branches[i]@.contains(a),
    ensures
        a < n,
        (exists|t: int|
            0 <= t < meta.len() && (#[trigger] meta[t]).producer == Some(a) && meta[t].consumers@ == seq![b]) && b < n
            ==> branches[i]@.contains(b),
        branches[i]@.contains(b) ==> forall|mark: spec_fn(usize) -> int|
            #![trigger is_handed_on(meta, n, mark)]
            is_handed_on(meta, n, mark) ==> mark(a) == mark(b),
{
    let g = choose|g: Seq<Seq<usize>>| #[trigger]
        triage::joins_links(g, meta, meta.len() as int, n) && components::are_components(g, branches);
    if (exists|t: int|
        0 <= t < meta.len() && (#[trigger] meta[t]).producer == Some(a) && meta[t].consumers@ == seq![b]) && b < n {
        let t = choose|t: int|
            0 <= t < meta.len() && (#[trigger] meta[t]).producer == Some(a) && meta[t].consumers@ == seq![b];
        assert(meta[t].consumers@[0] == b);
        assert(meta[t].consumers@.contains(b));
        assert(triage::link(meta[t], a, b));
        assert(triage::linked(meta, meta.len() as int, a, b));
        assert(graph::edge(g, a, b));
        let path = seq![a, b];
        assert(graph::is_path(g, path)) by {
            assert(path[0] == a && path[1] == b);
        }
        assert(components::joins(g, a, b, path));
        assert(components::connected(g, a, b));
    }
    if branches[i]@.contains(b) {
        assert(components::connected(g, a, b));
        let path = choose|path: Seq<usize>| components::joins(g, a, b, path);
        assert forall|mark: spec_fn(usize) -> int|
            #![trigger is_handed_on(meta, n, mark)]
            is_handed_on(meta, n, mark) implies mark(a) == mark(b) by {
            lemma_mark_along(g, meta, n, mark, path, (path.len() - 1) as nat);
        }
    }
}

/// A tensor with at most one consumer never leads between operations with different marks.
pub open spec fn is_handed_on(meta: Seq<TensorMeta>, n: nat, mark: spec_fn(usize) -> int) -> bool {
    forall|t: int, u: usize, v: usize|
        #![trigger meta[t], mark(u), mark(v)]
        0 <= t < meta.len() && meta[t].consumers@.len() <= 1 && meta[t].producer == Some(u) && meta[t].consumers@.contains(
            v,
        ) && u < n && v < n ==> mark(u) == mark(v)
}

proof fn lemma_mark_along(
    g: Seq<Seq<usize>>,
    meta: Seq<TensorMeta>,
    n: nat,
    mark: spec_fn(usize) -> int,
    path: Seq<usize>,
    k: nat,
)
    requires
        triage::joins_links(g, meta, meta.len() as int, n),
        is_handed_on(meta, n, mark),
        graph::is_path(g, path),
        k < path.len(),
    ensures
        mark(path[0]) == mark(path[k as int]),
    decreases k,
{
    if k > 0 {
        lemma_mark_along(g, meta, n, mark, path, (k - 1) as nat);
        let u = path[k - 1];
        let v = path[k as int];
        assert(graph::edge(g, path[k - 1], path[k - 1 + 1]));
        assert(triage::linked(meta, meta.len() as int, u, v));
        let t = choose|t: int| 0 <= t < meta.len() && #[trigger] triage::link(meta[t], u, v);
        assert(mark(u) == mark(v));
    }
}

/// Longer branches come first.
pub proof fn longer_branches_come_first(branches: Seq<Vec<usize>>, meta: Seq<TensorMeta>, n: nat, i: int, j: int)
    requires
        triage::are_branches(branches, meta, n),
        0 <= i < j < branches.len(),
    ensures
        branches[i]@.len() >= branches[j]@.len() > 0,
        branches[i]@.len() == branches[j]@.len() ==> branches[i]@[0] < branches[j]@[0],
{
    let g = choose|g: Seq<Seq<usize>>| #[trigger]
        triage::joins_links(g, meta, meta.len() as int, n) && components::are_components(g, branches);
    assert(branches[j]@.len() > 0);
}

/// Tiles are cut from the run order for two per worker, of 50 operations at least; what a
/// tile hands to others is what an operation in it produces and one in another consumes.
pub proof fn tiles_hand_over_what_others_consume(
    parts: Seq<Vec<usize>>,
    boundary: Seq<HashSet<usize>>,
    p: Problem,
    meta: Seq<TensorMeta>,
    workers: int,
    k: int,
    t: usize,
)
    requires
        triage::is_tiling(parts, boundary, p, meta, workers),
        workers >= 0,
        0 <= k < parts.len(),
    ensures
        parts.len() == boundary.len(),
        boundary[k]@.contains(t) <==> t < meta.len() && meta[t as int].producer is Some && parts[k]@.contains(
            meta[t as int].producer->0,
        ) && exists|c: int, other: int|
            #![trigger meta[t as int].consumers@[c], parts[other]]
            0 <= c < meta[t as int].consumers@.len() && 0 <= other < parts.len() && other != k
                && parts[other]@.contains(meta[t as int].consumers@[c]),
        // Every tile but the last is of one size.
        ({
            let n = p.ops@.len();
            let pieces = if workers == 0 { 2 } else { 2 * workers };
            let size = if n / pieces as nat >= 50 { n / pieces as nat } else { 50 };
            &&& k < parts.len() - 1 ==> parts[k]@.len() == size
            &&& k == parts.len() - 1 && parts.len() > 1 ==> size / 3 <= parts[k]@.len() < size + size / 3
                || parts[k]@.len() == size
        }),
{
    let m = meta[t as int];
    if t < meta.len() && m.producer is Some && parts[k]@.contains(m.producer->0) {
        if exists|c: int, other: int|
            #![trigger m.consumers@[c], parts[other]]
            0 <= c < m.consumers@.len() && 0 <= other < parts.len() && other != k && parts[other]@.contains(
                m.consumers@[c],
            ) {
            let (c, other) = choose|c: int, other: int|
                #![trigger m.consumers@[c], parts[other]]
                0 <= c < m.consumers@.len() && 0 <= other < parts.len() && other != k && parts[other]@.contains(
                    m.consumers@[c],
                );
            assert(triage::in_other_tile(parts, k, m.consumers@[c]));
            assert(triage::leaves_tile(parts, meta, k, t));
        }
    }
    if triage::leaves_tile(parts, meta, k, t) {
        let c = choose|c: int|
            0 <= c < m.consumers@.len() && triage::in_other_tile(parts, k, #[trigger] m.consumers@[c]);
        let other = choose|other: int|
            0 <= other < parts.len() && other != k && #[trigger] parts[other]@.contains(m.consumers@[c]);
        assert(parts[other]@.contains(m.consumers@[c]));
    }
    assert(boundary[k]@.contains(t) <==> triage::leaves_tile(parts, meta, k, t));
    let n = p.ops@.len() as int;
    let size = triage::target_tile_size(n, workers);
    lemma_tile_sizes(parts, dataflow::run_order(p.ops@, meta), size, size / 3, k);
}

/// How long the tiles of a cut are.
pub proof fn lemma_tile_sizes(parts: Seq<Vec<usize>>, order: Seq<usize>, size: int, keep: int, k: int)
    requires
        tiles::is_cut(parts, order, size, keep),
        size > 0,
        0 <= keep <= size,
        0 <= k < parts.len(),
    ensures
        k < parts.len() - 1 ==> parts[k]@.len() == size,
        k == parts.len() - 1 && parts.len() > 1 ==> keep <= parts[k]@.len() < size + keep || parts[k]@.len() == size,
{
    let len = order.len() as int;
    let count = parts.len() as int;
    assert(len == (len / size) * size + len % size && 0 <= len % size < size && len / size >= 0) by (nonlinear_arith)
        requires
            size > 0,
            len >= 0,
    ;
    let q = len / size;
    let r = len % size;
    assert((k + 1) * size == k * size + size) by (nonlinear_arith);
    assert(0 <= k * size) by (nonlinear_arith)
        requires
            k >= 0,
            size > 0,
    ;
    if k < count - 1 {
        assert((k + 1) * size <= len) by (nonlinear_arith)
            requires
                k + 1 <= count - 1,
                count - 1 <= q,
                len == q * size + r,
                r >= 0,
                size > 0,
        ;
        assert(parts[k]@ == tiles::tile(order, size, keep, k));
    } else {
        assert(parts[k]@ == tiles::tile(order, size, keep, k));
        if count == q {
            assert(k * size == q * size - size) by (nonlinear_arith)
                requires
                    k == q - 1,
            ;
        } else if count == q + 1 {
            assert(k * size == q * size) by (nonlinear_arith)
                requires
                    k == q,
            ;
        }
    }
}

/// The tiles of a cut, one after the other, leave nothing out; a remainder that is too
/// short joins the tile before it.
pub proof fn cuts_have_full_tiles(parts: Seq<Vec<usize>>, order: Seq<usize>, size: int, keep: int, k: int, j: int)
    requires
        tiles::is_cut(parts, order, size, keep),
        size > 0,
        0 <= keep <= size,
        0 <= k < parts.len(),
        0 <= j < parts[k]@.len(),
    ensures
        k * size + j < order.len(),
        parts[k]@[j] == order[k * size + j],
        k < parts.len() - 1 ==> parts[k]@.len() == size,
        parts.len() > 1 ==> keep <= parts[parts.len() - 1]@.len(),
{
    lemma_tile_sizes(parts, order, size, keep, k);
    lemma_tile_sizes(parts, order, size, keep, parts.len() - 1);
    tiles_in_range(parts, order, size, keep, k);
    assert(parts[k]@ == tiles::tile(order, size, keep, k));
}

proof fn tiles_in_range(parts: Seq<Vec<usize>>, order: Seq<usize>, size: int, keep: int, k: int)
    requires
        tiles::is_cut(parts, order, size, keep),
        size > 0,
        0 <= k < parts.len(),
    ensures
        0 <= k * size <= tiles::tile_end(order.len() as int, size, keep, k) <= order.len(),
{
    let len = order.len() as int;
    let count = parts.len() as int;
    let q = len / size;
    let r = len % size;
    assert(len == q * size + r && 0 <= r < size && q >= 0) by (nonlinear_arith)
        requires
            size > 0,
            len >= 0,
            q == len / size,
            r == len % size,
    ;
    assert(0 <= k * size && (k + 1) * size == k * size + size) by (nonlinear_arith)
        requires
            k >= 0,
            size > 0,
    ;
    assert(k < count - 1 ==> (k + 1) * size <= len) by (nonlinear_arith)
        requires
            count - 1 <= q,
            len == q * size + r,
            r >= 0,
            size > 0,
    ;
    assert(k == count - 1 ==> k * size <= len) by (nonlinear_arith)
        requires
            count - 1 <= q,
            len == q * size + r,
            r >= 0,
            size > 0,
    ;
}

} // verus!
