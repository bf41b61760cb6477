//! Looks at the shape of the graph to choose how its operations are shared out.
//!
//! - Linear: no tensor has more than one consumer. One worker fuses everything.
//! - Diamond: some tensor is shared. Branches between the shared tensors can be split.
//! - Monster: very large, or large with wide sharing. The graph is cut into tiles.
use std::collections::HashSet;
use vstd::prelude::*;
use crate::{arith, components, dataflow, graph, ids, models, sorting, tiles};
use crate::models::{OpId, Problem, TensorMeta};
use crate::sorting::SortKey;

verus! {

/// The shape of a computation graph.
#[derive(Debug, Clone, Copy, PartialEq, Eq, Structural)]
pub enum GraphTopology {
    Linear,
    Diamond,
    Monster,
}

/// What the look at the graph found.
#[derive(Debug, Clone)]
pub struct TriageResult {
    pub topology: GraphTopology,
    /// The largest number of consumers of one tensor.
    pub max_fan_out: usize,
    /// The largest number of inputs of one operation.
    pub max_fan_in: usize,
    /// The number of tensors with more than one consumer.
    pub diamond_count: usize,
    /// The number of branches that are left when shared tensors are cut.
    pub branch_count: usize,
    /// The number of operations on the longest path.
    pub depth: usize,
    pub suggested_workers: usize,
    pub strategy: PartitionStrategy,
}

/// How the operations are shared out.
#[derive(Debug, Clone)]
pub enum PartitionStrategy {
    /// Everything runs in one process.
    SingleProcess,
    /// One group of operations for each independent branch.
    BranchParallel { branches: Vec<Vec<OpId>> },
    /// Consecutive tiles of the run order, with the tensors that leave each tile.
    TiledPartition { tiles: Vec<Vec<OpId>>, boundary_tensors: Vec<HashSet<usize>> },
}

/// The operations in an order in which they can run.
pub fn topological_sort(problem: &Problem, tensor_meta: &[TensorMeta]) -> (order: Vec<OpId>)
    ensures
        order@ == dataflow::run_order(problem.ops@, tensor_meta@),
{
    dataflow::order_ops(problem, tensor_meta)
}

/// The number of operations on the longest path of the graph.
pub fn compute_graph_depth(problem: &Problem, tensor_meta: &[TensorMeta]) -> (depth: usize)
    ensures
        graph::longest_path(
            dataflow::successors(problem.ops@, tensor_meta@),
            dataflow::run_order(problem.ops@, tensor_meta@),
            depth as int,
        ),
{
    let downstream: Vec<Vec<OpId>> = dataflow::successor_lists(problem, tensor_meta);
    proof {
        dataflow::successors_follow_tensors(problem.ops@, tensor_meta@);
    }
    let order: Vec<OpId> = dataflow::order_ops(problem, tensor_meta);
    graph::longest_chain(&downstream, &order)
}

/// The tensor has at most one consumer and leads from `a` to `b` or from `b` to `a`.
pub open spec fn link(m: TensorMeta, a: usize, b: usize) -> bool {
    &&& m.consumers@.len() <= 1
    &&& (m.producer == Some(a) && m.consumers@.contains(b)) || (m.producer == Some(b) && m.consumers@.contains(a))
}

/// One of the first `k` tensors links `a` and `b`.
pub open spec fn linked(meta: Seq<TensorMeta>, k: int, a: usize, b: usize) -> bool {
    exists|t: int| 0 <= t < k && #[trigger] link(meta[t], a, b)
}

/// `g` joins the operations that the first `k` tensors link.
pub open spec fn joins_links(g: Seq<Seq<usize>>, meta: Seq<TensorMeta>, k: int, n: nat) -> bool {
    &&& g.len() == n
    &&& forall|a: usize, b: usize| #[trigger] graph::edge(g, a, b) <==> a < n && b < n && linked(meta, k, a, b)
}

/// Longer branches come first; branches of equal length are ordered by their first operation.
pub open spec fn longest_first(branches: Seq<Vec<usize>>) -> bool {
    forall|i: int, j: int|
        0 <= i < j < branches.len() ==> {
            ||| (#[trigger] branches[i])@.len() > (#[trigger] branches[j])@.len()
            ||| branches[i]@.len() == branches[j]@.len() && branches[i]@[0] < branches[j]@[0]
        }
}

/// `branches` are the groups of operations that hang together through tensors with
/// at most one consumer, longest first.
pub open spec fn are_branches(branches: Seq<Vec<usize>>, meta: Seq<TensorMeta>, n: nat) -> bool {
    &&& longest_first(branches)
    &&& exists|g: Seq<Seq<usize>>| #[trigger]
        joins_links(g, meta, meta.len() as int, n) && components::are_components(g, branches)
}

/// Adds an undirected edge.
fn add_link(adj: &mut Vec<Vec<usize>>, a: usize, b: usize)
    requires
        a < old(adj).len(),
        b < old(adj).len(),
    ensures
        final(adj).len() == old(adj).len(),
        forall|x: usize, y: usize| #[trigger]
            graph::edge(graph::lists(final(adj)@), x, y) <==> graph::edge(graph::lists(old(adj)@), x, y) || (x == a && y
                == b) || (x == b && y == a),
{
    let ghost g0 = graph::lists(adj@);
    adj[a].push(b);
    let ghost g1 = graph::lists(adj@);
    proof {
        assert forall|x: usize, y: usize| #[trigger] graph::edge(g1, x, y) <==> graph::edge(g0, x, y) || (x == a && y
            == b) by {
            if x == a {
                ids::lemma_push_contains(g0[a as int], b);
            }
        }
    }
    adj[b].push(a);
    proof {
        let g2 = graph::lists(adj@);
        assert forall|x: usize, y: usize| #[trigger] graph::edge(g2, x, y) <==> graph::edge(g1, x, y) || (x == b && y
            == a) by {
            if x == b {
                ids::lemma_push_contains(g1[b as int], a);
            }
        }
    }
}

/// The undirected graph of operations linked through tensors with at most one consumer.
fn link_lists(tensor_meta: &[TensorMeta], n: usize) -> (adj: Vec<Vec<usize>>)
    ensures
        joins_links(graph::lists(adj@), tensor_meta@, tensor_meta@.len() as int, n as nat),
{
    let mut adj: Vec<Vec<usize>> = Vec::new();
    let mut i: usize = 0;
    while i < n
        invariant
            i <= n,
            adj.len() == i,
            forall|j: int| 0 <= j < i ==> (#[trigger] adj@[j])@ == Seq::<usize>::empty(),
        decreases n - i,
    {
        adj.push(Vec::new());
        i = i + 1;
    }
    let mut t: usize = 0;
    while t < tensor_meta.len()
        invariant
            t <= tensor_meta@.len(),
            adj.len() == n,
            joins_links(graph::lists(adj@), tensor_meta@, t as int, n as nat),
        decreases tensor_meta@.len() - t,
    {
        let m: &TensorMeta = &tensor_meta[t];
        let ghost g0 = graph::lists(adj@);
        let mut linking: bool = false;
        let mut producer: usize = 0;
        let mut consumer: usize = 0;
        if m.consumers.len() == 1 {
            if let Some(p) = m.producer {
                if p < n && m.consumers[0] < n {
                    linking = true;
                    producer = p;
                    consumer = m.consumers[0];
                }
            }
        }
        if linking {
            add_link(&mut adj, producer, consumer);
        }
        proof {
            let g = graph::lists(adj@);
            assert forall|a: usize, b: usize| #[trigger] graph::edge(g, a, b) <==> a < n && b < n && linked(
                tensor_meta@,
                t + 1,
                a,
                b,
            ) by {
                assert(graph::edge(g0, a, b) <==> a < n && b < n && linked(tensor_meta@, t as int, a, b));
                if m.consumers@.len() == 1 {
                    assert(m.consumers@.contains(m.consumers@[0]));
                }
                if linked(tensor_meta@, t as int, a, b) {
                    let k = choose|k: int| 0 <= k < t && #[trigger] link(tensor_meta@[k], a, b);
                    assert(link(tensor_meta@[k], a, b));
                }
                if linked(tensor_meta@, t + 1, a, b) {
                    let k = choose|k: int| 0 <= k < t + 1 && #[trigger] link(tensor_meta@[k], a, b);
                    if k < t {
                        assert(linked(tensor_meta@, t as int, a, b));
                    }
                }
                if linking && ((a == producer && b == consumer) || (a == consumer && b == producer)) {
                    assert(link(tensor_meta@[t as int], a, b));
                }
            }
        }
        t = t + 1;
    }
    adj
}

/// Finds the independent branches: operations are in the same branch when tensors
/// with at most one consumer connect them.
pub fn find_independent_branches(problem: &Problem, tensor_meta: &[TensorMeta]) -> (branches: Vec<Vec<OpId>>)
    ensures
        are_branches(branches@, tensor_meta@, problem.ops@.len()),
{
    let n: usize = problem.ops.len();
    let adj: Vec<Vec<usize>> = link_lists(tensor_meta, n);
    let ghost g = graph::lists(adj@);
    proof {
        assert forall|a: usize, b: usize| #[trigger] graph::edge(g, a, b) implies graph::edge(g, b, a) by {
            let t = choose|t: int| 0 <= t < tensor_meta@.len() && #[trigger] link(tensor_meta@[t], a, b);
            assert(link(tensor_meta@[t], b, a));
        }
        assert forall|u: int, k: int| 0 <= u < g.len() && 0 <= k < g[u].len() implies (#[trigger] g[u][k]) < g.len() by {
            assert(g[u].contains(g[u][k]));
            assert(graph::edge(g, u as usize, g[u][k]));
        }
    }
    let parts: Vec<Vec<usize>> = components::components(&adj);
    let mut keys: Vec<SortKey> = Vec::new();
    let mut i: usize = 0;
    while i < parts.len()
        invariant
            i <= parts.len(),
            keys.len() == i,
            forall|j: int| 0 <= j < i ==> sorting::has_key(#[trigger] keys@[j], -(parts@[j]@.len() as int), 0, 0),
        decreases parts.len() - i,
    {
        keys.push((-(parts[i].len() as i128), 0, 0));
        i = i + 1;
    }
    let order: Vec<usize> = sorting::stable_order(&keys);
    let mut branches: Vec<Vec<OpId>> = Vec::new();
    let mut k: usize = 0;
    while k < order.len()
        invariant
            k <= order.len(),
            branches.len() == k,
            sorting::is_stable_order(keys@, order@),
            keys.len() == parts.len(),
            forall|j: int| 0 <= j < k ==> (#[trigger] branches@[j])@ == parts@[order@[j] as int]@,
        decreases order.len() - k,
    {
        let from: usize = order[k];
        assert(from == order@[k as int]);
        branches.push(models::copy_ids(parts[from].as_slice()));
        k = k + 1;
    }
    proof {
        assert(components::are_components(g, branches@)) by {
            assert forall|v: usize| v < g.len() implies #[trigger] components::in_some_part(branches@, v) by {
                assert(components::in_some_part(parts@, v));
                let i = choose|i: int| 0 <= i < parts@.len() && #[trigger] parts@[i]@.contains(v);
                sorting::lemma_stable_order_covers(keys@, order@, i as usize);
                let j = choose|j: int| 0 <= j < order@.len() && order@[j] == i as usize;
                assert(branches@[j]@.contains(v));
            }
            assert forall|i: int, j: int, v: usize|
                0 <= i < branches@.len() && 0 <= j < branches@.len() && #[trigger] branches@[i]@.contains(v)
                    && #[trigger] branches@[j]@.contains(v) implies i == j by {
                assert(parts@[order@[i] as int]@.contains(v));
                assert(parts@[order@[j] as int]@.contains(v));
                assert(order@[i] == order@[j]);
            }
            assert forall|i: int, a: usize|
                0 <= i < branches@.len() && #[trigger] branches@[i]@.contains(a) implies a < g.len() && (forall|b: usize|
             #[trigger]
                branches@[i]@.contains(b) <==> b < g.len() && components::connected(g, a, b)) by {
                assert(parts@[order@[i] as int]@.contains(a));
            }
            assert forall|i: int| 0 <= i < branches@.len() implies (#[trigger] branches@[i])@.len() > 0
                && components::ascending(branches@[i]@) by {
                assert(parts@[order@[i] as int]@.len() > 0);
            }
        }
        assert forall|i: int, j: int| 0 <= i < j < branches@.len() implies {
            ||| (#[trigger] branches@[i])@.len() > (#[trigger] branches@[j])@.len()
            ||| branches@[i]@.len() == branches@[j]@.len() && branches@[i]@[0] < branches@[j]@[0]
        } by {
            let a = order@[i];
            let b = order@[j];
            assert(sorting::comes_before(keys@, a, b));
            assert(sorting::has_key(keys@[a as int], -(parts@[a as int]@.len() as int), 0, 0));
            assert(sorting::has_key(keys@[b as int], -(parts@[b as int]@.len() as int), 0, 0));
            if a < b {
                assert(parts@[a as int]@[0] < parts@[b as int]@[0]);
            }
        }
        assert(joins_links(g, tensor_meta@, tensor_meta@.len() as int, n as nat));
    }
    branches
}

/// The number of operations a tile should have: two tiles for each worker, of at least 50 operations.
pub open spec fn target_tile_size(num_ops: int, num_workers: int) -> int {
    arith::greatest(num_ops / arith::greatest(num_workers * 2, 2), 50)
}

/// A tile other than `k` holds operation `op`.
pub open spec fn in_other_tile(parts: Seq<Vec<usize>>, k: int, op: usize) -> bool {
    exists|j: int| 0 <= j < parts.len() && j != k && #[trigger] parts[j]@.contains(op)
}

/// Tensor `t` is produced in tile `k` and consumed in another tile.
pub open spec fn leaves_tile(parts: Seq<Vec<usize>>, meta: Seq<TensorMeta>, k: int, t: usize) -> bool {
    &&& t < meta.len()
    &&& meta[t as int].producer matches Some(p) && parts[k]@.contains(p)
    &&& exists|i: int|
        0 <= i < meta[t as int].consumers@.len() && in_other_tile(parts, k, #[trigger] meta[t as int].consumers@[i])
}

/// `parts` cuts the run order into tiles for the workers, and `boundary` holds for each tile what leaves it.
pub open spec fn is_tiling(
    parts: Seq<Vec<usize>>,
    boundary: Seq<HashSet<usize>>,
    problem: Problem,
    meta: Seq<TensorMeta>,
    num_workers: int,
) -> bool {
    let size = target_tile_size(problem.ops@.len() as int, num_workers);
    &&& tiles::is_cut(parts, dataflow::run_order(problem.ops@, meta), size, size / 3)
    &&& boundary.len() == parts.len()
    &&& forall|k: int, t: usize|
        0 <= k < boundary.len() ==> (#[trigger] boundary[k]@.contains(t) <==> leaves_tile(parts, meta, k, t))
}

/// `home[op]` is the tile among the first `upto` that holds `op`, and `none` if there is none.
spec fn is_home(home: Seq<usize>, parts: Seq<Vec<usize>>, upto: int, none: usize, op: usize) -> bool {
    if home[op as int] == none {
        forall|j: int| 0 <= j < upto ==> !(#[trigger] parts[j])@.contains(op)
    } else {
        home[op as int] < upto && parts[home[op as int] as int]@.contains(op)
    }
}

/// Finds for each operation the tile that holds it.
fn find_homes(parts: &Vec<Vec<usize>>, n: usize) -> (home: Vec<usize>)
    requires
        forall|i: int, a: int| 0 <= i < parts.len() && 0 <= a < parts@[i]@.len() ==> #[trigger] parts@[i]@[a] < n,
        forall|i: int, j: int, v: usize|
            0 <= i < parts.len() && 0 <= j < parts.len() && #[trigger] parts@[i]@.contains(v)
                && #[trigger] parts@[j]@.contains(v) ==> i == j,
    ensures
        home.len() == n,
        forall|op: usize| op < n ==> #[trigger] is_home(home@, parts@, parts.len() as int, parts.len(), op),
{
    let none: usize = parts.len();
    let mut home: Vec<usize> = Vec::new();
    let mut i: usize = 0;
    while i < n
        invariant
            i <= n,
            home.len() == i,
            forall|j: int| 0 <= j < i ==> home@[j] == none,
        decreases n - i,
    {
        home.push(none);
        i = i + 1;
    }
    let mut k: usize = 0;
    while k < parts.len()
        invariant
            k <= parts.len(),
            none == parts.len(),
            home.len() == n,
            forall|i: int, a: int| 0 <= i < parts.len() && 0 <= a < parts@[i]@.len() ==> #[trigger] parts@[i]@[a] < n,
            forall|i: int, j: int, v: usize|
                0 <= i < parts.len() && 0 <= j < parts.len() && #[trigger] parts@[i]@.contains(v)
                    && #[trigger] parts@[j]@.contains(v) ==> i == j,
            forall|op: usize| op < n ==> #[trigger] is_home(home@, parts@, k as int, none, op),
        decreases parts.len() - k,
    {
        let ghost before = home@;
        let ghost part = parts@[k as int]@;
        let mut a: usize = 0;
        while a < parts[k].len()
            invariant
                a <= part.len(),
                k < parts.len(),
                none == parts.len(),
                part == parts@[k as int]@,
                home.len() == n,
                before.len() == n,
                forall|i: int, a: int|
                    0 <= i < parts.len() && 0 <= a < parts@[i]@.len() ==> #[trigger] parts@[i]@[a] < n,
                forall|op: usize|
                    op < n ==> #[trigger] home@[op as int] == if part.take(a as int).contains(op) {
                        k
                    } else {
                        before[op as int]
                    },
            decreases part.len() - a,
        {
            let op: usize = parts[k][a];
            proof {
                assert(op == parts@[k as int]@[a as int]);
                models::lemma_take_contains(part, a as int);
            }
            home.set(op, k);
            a = a + 1;
        }
        proof {
            assert(part.take(part.len() as int) =~= part);
            assert forall|op: usize| op < n implies #[trigger] is_home(home@, parts@, k + 1, none, op) by {
                assert(is_home(before, parts@, k as int, none, op));
                assert(home@[op as int] == if part.contains(op) {
                    k
                } else {
                    before[op as int]
                });
            }
        }
        k = k + 1;
    }
    home
}

/// Cuts a large graph into tiles of the run order, two for each worker, and finds the
/// tensors that leave each tile.
pub fn tile_graph(problem: &Problem, tensor_meta: &[TensorMeta], num_workers: usize) -> (result: (
    Vec<Vec<OpId>>,
    Vec<HashSet<usize>>,
))
    requires
        num_workers * 2 <= usize::MAX,
    ensures
        is_tiling(result.0@, result.1@, *problem, tensor_meta@, num_workers as int),
{
    broadcast use vstd::std_specs::hash::group_hash_axioms;

    let num_ops: usize = problem.ops.len();
    let target_tiles: usize = arith::greatest_count(num_workers * 2, 2);
    let size: usize = arith::greatest_count(num_ops / target_tiles, 50);
    let order: Vec<OpId> = topological_sort(problem, tensor_meta);
    let ghost q = order@;
    let parts: Vec<Vec<OpId>> = tiles::cut_tiles(&order, size, size / 3);
    proof {
        dataflow::successors_follow_tensors(problem.ops@, tensor_meta@);
        graph::order_is_topological(dataflow::successors(problem.ops@, tensor_meta@));
        assert forall|i: int, a: int| 0 <= i < parts.len() && 0 <= a < parts@[i]@.len() implies #[trigger] parts@[i]@[a]
            < num_ops by {
            tiles::lemma_tile_bounds(q.len() as int, size as int, (size / 3) as int, i);
            assert(parts@[i]@ == tiles::tile(q, size as int, (size / 3) as int, i));
            assert(parts@[i]@[a] == q[i * size + a]);
        }
        assert forall|i: int, j: int, v: usize|
            0 <= i < parts.len() && 0 <= j < parts.len() && #[trigger] parts@[i]@.contains(v)
                && #[trigger] parts@[j]@.contains(v) implies i == j by {
            tiles::lemma_tiles_disjoint(parts@, q, size as int, (size / 3) as int, i, j, v);
        }
    }
    let home: Vec<usize> = find_homes(&parts, num_ops);
    let none: usize = parts.len();
    let mut boundary: Vec<HashSet<usize>> = Vec::new();
    let mut i: usize = 0;
    while i < parts.len()
        invariant
            i <= parts.len(),
            boundary.len() == i,
            forall|k: int| 0 <= k < i ==> (#[trigger] boundary@[k])@ == Set::<usize>::empty(),
        decreases parts.len() - i,
    {
        boundary.push(HashSet::new());
        i = i + 1;
    }
    let mut t: usize = 0;
    while t < tensor_meta.len()
        invariant
            t <= tensor_meta@.len(),
            none == parts.len(),
            boundary.len() == parts.len(),
            home.len() == num_ops,
            forall|i: int, a: int|
                0 <= i < parts.len() && 0 <= a < parts@[i]@.len() ==> #[trigger] parts@[i]@[a] < num_ops,
            forall|i: int, j: int, v: usize|
                0 <= i < parts.len() && 0 <= j < parts.len() && #[trigger] parts@[i]@.contains(v)
                    && #[trigger] parts@[j]@.contains(v) ==> i == j,
            forall|op: usize| op < num_ops ==> #[trigger] is_home(home@, parts@, parts.len() as int, none, op),
            forall|k: int, x: usize|
                0 <= k < boundary.len() ==> (#[trigger] boundary@[k]@.contains(x) <==> x < t && leaves_tile(
                    parts@,
                    tensor_meta@,
                    k,
                    x,
                )),
        decreases tensor_meta@.len() - t,
    {
        let m: &TensorMeta = &tensor_meta[t];
        let mut leaving: bool = false;
        let mut from: usize = none;
        if let Some(producer) = m.producer {
            if producer < num_ops {
                from = home[producer];
                assert(is_home(home@, parts@, parts.len() as int, none, producer));
                if from != none {
                    let mut c: usize = 0;
                    while c < m.consumers.len()
                        invariant
                            c <= m.consumers.len(),
                            none == parts.len(),
                            from < parts.len(),
                            home.len() == num_ops,
                            forall|i: int, a: int|
                                0 <= i < parts.len() && 0 <= a < parts@[i]@.len() ==> #[trigger] parts@[i]@[a] < num_ops,
                            forall|i: int, j: int, v: usize|
                                0 <= i < parts.len() && 0 <= j < parts.len() && #[trigger] parts@[i]@.contains(v)
                                    && #[trigger] parts@[j]@.contains(v) ==> i == j,
                            forall|op: usize|
                                op < num_ops ==> #[trigger] is_home(home@, parts@, parts.len() as int, none, op),
                            leaving <==> exists|i: int|
                                0 <= i < c && in_other_tile(parts@, from as int, #[trigger] m.consumers@[i]),
                        decreases m.consumers.len() - c,
                    {
                        let consumer: usize = m.consumers[c];
                        if consumer < num_ops {
                            assert(is_home(home@, parts@, parts.len() as int, none, consumer));
                            if home[consumer] != none && home[consumer] != from {
                                assert(parts@[home@[consumer as int] as int]@.contains(consumer));
                                assert(in_other_tile(parts@, from as int, consumer));
                                leaving = true;
                            }
                        }
                        proof {
                            if in_other_tile(parts@, from as int, consumer) {
                                let j = choose|j: int|
                                    0 <= j < parts@.len() && j != from && #[trigger] parts@[j]@.contains(consumer);
                                let a = choose|a: int| 0 <= a < parts@[j]@.len() && parts@[j]@[a] == consumer;
                                assert(parts@[j]@[a] < num_ops);
                                assert(is_home(home@, parts@, parts.len() as int, none, consumer));
                                assert(leaving);
                            }
                            assert(m.consumers@[c as int] == consumer);
                        }
                        c = c + 1;
                    }
                }
            }
        }
        if leaving {
            boundary[from].insert(t);
        }
        t = t + 1;
    }
    (parts, boundary)
}

/// The largest number of consumers among the first `k` tensors.
pub open spec fn widest_fan_out(meta: Seq<TensorMeta>, k: nat) -> int
    decreases k,
{
    if k == 0 {
        0
    } else {
        arith::greatest(widest_fan_out(meta, (k - 1) as nat), meta[k - 1].consumers@.len() as int)
    }
}

/// The number of tensors among the first `k` with more than one consumer.
pub open spec fn shared_count(meta: Seq<TensorMeta>, k: nat) -> int
    decreases k,
{
    if k == 0 {
        0
    } else {
        shared_count(meta, (k - 1) as nat) + if meta[k - 1].consumers@.len() > 1 { 1int } else { 0 }
    }
}

/// The largest number of inputs among the first `k` operations.
pub open spec fn widest_fan_in(ops: Seq<models::Op>, k: nat) -> int
    decreases k,
{
    if k == 0 {
        0
    } else {
        arith::greatest(widest_fan_in(ops, (k - 1) as nat), ops[k - 1].inputs@.len() as int)
    }
}

/// The shape that follows from the size and the sharing of a graph.
pub open spec fn classify(num_ops: int, max_fan_out: int, diamonds: int) -> GraphTopology {
    if num_ops > 2000 || (num_ops > 500 && max_fan_out > 4) {
        GraphTopology::Monster
    } else if diamonds > 0 && max_fan_out > 1 {
        GraphTopology::Diamond
    } else {
        GraphTopology::Linear
    }
}

/// The graph has `count` independent branches.
pub open spec fn has_branches(meta: Seq<TensorMeta>, n: nat, count: int) -> bool {
    exists|branches: Seq<Vec<usize>>| #[trigger] are_branches(branches, meta, n) && branches.len() == count
}

impl TriageResult {
    /// The suggestion fits the shape, the branches and the number of available workers.
    pub open spec fn suggests(&self, problem: Problem, meta: Seq<TensorMeta>, available_workers: int) -> bool {
        match self.strategy {
            PartitionStrategy::SingleProcess => {
                &&& self.suggested_workers == 1
                &&& self.topology == GraphTopology::Linear || available_workers <= 1 || (self.topology
                    == GraphTopology::Diamond && self.branch_count <= 1)
            },
            PartitionStrategy::BranchParallel { branches } => {
                &&& self.topology == GraphTopology::Diamond
                &&& self.branch_count > 1
                &&& available_workers > 1
                &&& branches@.len() == self.branch_count
                &&& are_branches(branches@, meta, problem.ops@.len())
                &&& self.suggested_workers == arith::least(arith::least(self.branch_count as int, available_workers), 4)
            },
            PartitionStrategy::TiledPartition { tiles, boundary_tensors } => {
                &&& self.topology == GraphTopology::Monster
                &&& available_workers > 1
                &&& is_tiling(tiles@, boundary_tensors@, problem, meta, available_workers)
                &&& self.suggested_workers == arith::least(tiles@.len() as int, available_workers)
            },
        }
    }
}

/// Classifies the graph and suggests how to share out its operations.
pub fn triage_graph(problem: &Problem, tensor_meta: &[TensorMeta], available_workers: usize) -> (result: TriageResult)
    requires
        available_workers * 2 <= usize::MAX,
    ensures
        result.max_fan_out == widest_fan_out(tensor_meta@, tensor_meta@.len()),
        result.max_fan_in == widest_fan_in(problem.ops@, problem.ops@.len()),
        result.diamond_count == shared_count(tensor_meta@, tensor_meta@.len()),
        has_branches(tensor_meta@, problem.ops@.len(), result.branch_count as int),
        graph::longest_path(
            dataflow::successors(problem.ops@, tensor_meta@),
            dataflow::run_order(problem.ops@, tensor_meta@),
            result.depth as int,
        ),
        result.topology == classify(
            problem.ops@.len() as int,
            result.max_fan_out as int,
            result.diamond_count as int,
        ),
        result.suggests(*problem, tensor_meta@, available_workers as int),
{
    let num_ops: usize = problem.ops.len();
    let mut max_fan_out: usize = 0;
    let mut diamond_count: usize = 0;
    let mut t: usize = 0;
    while t < tensor_meta.len()
        invariant
            t <= tensor_meta@.len(),
            max_fan_out == widest_fan_out(tensor_meta@, t as nat),
            diamond_count == shared_count(tensor_meta@, t as nat),
            diamond_count <= t,
        decreases tensor_meta@.len() - t,
    {
        let fan_out: usize = tensor_meta[t].consumers.len();
        if fan_out > max_fan_out {
            max_fan_out = fan_out;
        }
        if fan_out > 1 {
            diamond_count = diamond_count + 1;
        }
        t = t + 1;
    }
    let mut max_fan_in: usize = 0;
    let mut i: usize = 0;
    while i < num_ops
        invariant
            i <= num_ops,
            num_ops == problem.ops.len(),
            max_fan_in == widest_fan_in(problem.ops@, i as nat),
        decreases num_ops - i,
    {
        let fan_in: usize = problem.ops[i].inputs.len();
        if fan_in > max_fan_in {
            max_fan_in = fan_in;
        }
        i = i + 1;
    }
    let depth: usize = compute_graph_depth(problem, tensor_meta);
    let branches: Vec<Vec<OpId>> = find_independent_branches(problem, tensor_meta);
    let branch_count: usize = branches.len();
    assert(are_branches(branches@, tensor_meta@, problem.ops@.len()));
    let topology: GraphTopology = if num_ops > 2000 || (num_ops > 500 && max_fan_out > 4) {
        GraphTopology::Monster
    } else if diamond_count > 0 && max_fan_out > 1 {
        GraphTopology::Diamond
    } else {
        GraphTopology::Linear
    };
    let (suggested_workers, strategy): (usize, PartitionStrategy) = match topology {
        GraphTopology::Linear => (1, PartitionStrategy::SingleProcess),
        GraphTopology::Diamond => {
            if branch_count > 1 && available_workers > 1 {
                let workers: usize = arith::least_count(arith::least_count(branch_count, available_workers), 4);
                (workers, PartitionStrategy::BranchParallel { branches })
            } else {
                (1, PartitionStrategy::SingleProcess)
            }
        },
        GraphTopology::Monster => {
            if available_workers > 1 {
                let (parts, boundary_tensors): (Vec<Vec<OpId>>, Vec<HashSet<usize>>) = tile_graph(
                    problem,
                    tensor_meta,
                    available_workers,
                );
                let workers: usize = arith::least_count(parts.len(), available_workers);
                (workers, PartitionStrategy::TiledPartition { tiles: parts, boundary_tensors })
            } else {
                (1, PartitionStrategy::SingleProcess)
            }
        },
    };
    TriageResult {
        topology,
        max_fan_out,
        max_fan_in,
        diamond_count,
        branch_count,
        depth,
        suggested_workers,
        strategy,
    }
}

/// Every operation of an acyclic graph is in exactly one place of the tiles.
pub proof fn tiles_hold_every_operation(
    parts: Seq<Vec<usize>>,
    boundary: Seq<HashSet<usize>>,
    problem: Problem,
    meta: Seq<TensorMeta>,
    num_workers: int,
)
    requires
        is_tiling(parts, boundary, problem, meta, num_workers),
        graph::acyclic(dataflow::successors(problem.ops@, meta)),
    ensures
        tiles::joined(parts, parts.len()) == dataflow::run_order(problem.ops@, meta),
        tiles::joined(parts, parts.len()).no_duplicates(),
        tiles::joined(parts, parts.len()).len() == problem.ops@.len(),
        forall|op: usize| op < problem.ops@.len() ==> #[trigger] tiles::joined(parts, parts.len()).contains(op),
{
    let size = target_tile_size(problem.ops@.len() as int, num_workers);
    let g = dataflow::successors(problem.ops@, meta);
    assert(problem.ops@.len() == problem.ops.len());
    dataflow::successors_follow_tensors(problem.ops@, meta);
    graph::order_is_topological(g);
    graph::acyclic_order_is_complete(g);
    tiles::tiles_make_up_order(parts, dataflow::run_order(problem.ops@, meta), size, size / 3);
}

/// The branches hold every operation, each in one branch only.
pub proof fn branches_hold_every_operation(branches: Seq<Vec<usize>>, meta: Seq<TensorMeta>, n: nat, op: usize)
    requires
        are_branches(branches, meta, n),
        op < n,
    ensures
        components::in_some_part(branches, op),
        forall|i: int, j: int|
            0 <= i < branches.len() && 0 <= j < branches.len() && #[trigger] branches[i]@.contains(op)
                && #[trigger] branches[j]@.contains(op) ==> i == j,
{
}

} // verus!
