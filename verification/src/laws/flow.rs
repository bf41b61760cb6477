//! The operations as a graph, in terms of producers and consumers.
use vstd::prelude::*;
use crate::{cost_model, dataflow, graph};
use crate::models::{Op, OpId, Problem, TensorId, TensorMeta};

verus! {

/// An operation leads to another exactly if that consumes one of its outputs.
pub proof fn edges_lead_to_consumers(ops: Seq<Op>, meta: Seq<TensorMeta>, u: OpId, v: OpId)
    ensures
        graph::edge(dataflow::successors(ops, meta), u, v) <==> u < ops.len() && v < ops.len() && exists|i: int, c: int|
            #![trigger ops[u as int].outputs@[i], meta[ops[u as int].outputs@[i] as int].consumers@[c]]
            {
                &&& 0 <= i < ops[u as int].outputs@.len()
                &&& ops[u as int].outputs@[i] < meta.len()
                &&& 0 <= c < meta[ops[u as int].outputs@[i] as int].consumers@.len()
                &&& meta[ops[u as int].outputs@[i] as int].consumers@[c] == v
            },
{
    dataflow::successors_follow_tensors(ops, meta);
    if u < ops.len() && v < ops.len() {
        let outputs = ops[u as int].outputs@;
        if dataflow::takes_one_of(outputs, meta, outputs.len() as int, v) {
            let i = choose|i: int|
                0 <= i < outputs.len() && (#[trigger] outputs[i]) < meta.len() && meta[outputs[i] as int].consumers@.contains(
                    v,
                );
            let consumers = meta[outputs[i] as int].consumers@;
            let c = choose|c: int| 0 <= c < consumers.len() && consumers[c] == v;
            assert(meta[ops[u as int].outputs@[i] as int].consumers@[c] == v);
        }
        if exists|i: int, c: int|
            #![trigger ops[u as int].outputs@[i], meta[ops[u as int].outputs@[i] as int].consumers@[c]]
            {
                &&& 0 <= i < ops[u as int].outputs@.len()
                &&& ops[u as int].outputs@[i] < meta.len()
                &&& 0 <= c < meta[ops[u as int].outputs@[i] as int].consumers@.len()
                &&& meta[ops[u as int].outputs@[i] as int].consumers@[c] == v
            } {
            let (i, c) = choose|i: int, c: int|
                #![trigger ops[u as int].outputs@[i], meta[ops[u as int].outputs@[i] as int].consumers@[c]]
                {
                    &&& 0 <= i < ops[u as int].outputs@.len()
                    &&& ops[u as int].outputs@[i] < meta.len()
                    &&& 0 <= c < meta[ops[u as int].outputs@[i] as int].consumers@.len()
                    &&& meta[ops[u as int].outputs@[i] as int].consumers@[c] == v
                };
            assert(meta[outputs[i] as int].consumers@.contains(v));
            assert(dataflow::takes_one_of(outputs, meta, outputs.len() as int, v));
        }
    }
}

proof fn lemma_made_by(inputs: Seq<TensorId>, meta: Seq<TensorMeta>, n: nat, k: nat, v: OpId)
    requires
        k <= inputs.len(),
    ensures
        dataflow::made_by(inputs, meta, n, k).contains(v) <==> v < n && exists|j: int|
            0 <= j < k && (#[trigger] inputs[j]) < meta.len() && meta[inputs[j] as int].producer == Some(v),
    decreases k,
{
    if k > 0 {
        lemma_made_by(inputs, meta, n, (k - 1) as nat, v);
        let rest = dataflow::made_by(inputs, meta, n, (k - 1) as nat);
        let t = inputs[k - 1];
        if t < meta.len() && meta[t as int].producer is Some {
            crate::ids::lemma_push_contains(rest, meta[t as int].producer->0);
        }
        if v < n && rest.contains(v) {
            let j = choose|j: int|
                0 <= j < k - 1 && (#[trigger] inputs[j]) < meta.len() && meta[inputs[j] as int].producer == Some(v);
            assert(0 <= j < k && inputs[j] < meta.len());
        }
        if v < n && t < meta.len() && meta[t as int].producer == Some(v) {
            assert(0 <= k - 1 < k && inputs[k - 1] < meta.len());
        }
    }
}

/// Backwards, an operation leads to another exactly if that produces one of its inputs.
pub proof fn edges_lead_to_producers(ops: Seq<Op>, meta: Seq<TensorMeta>, u: OpId, v: OpId)
    ensures
        graph::edge(dataflow::predecessors(ops, meta), u, v) <==> u < ops.len() && v < ops.len() && exists|j: int|
            0 <= j < ops[u as int].inputs@.len() && (#[trigger] ops[u as int].inputs@[j]) < meta.len()
                && meta[ops[u as int].inputs@[j] as int].producer == Some(v),
{
    if u < ops.len() {
        let inputs = ops[u as int].inputs@;
        lemma_made_by(inputs, meta, ops.len(), inputs.len(), v);
    }
}

/// Where nothing runs in circles, every operation has its place in the order in which
/// they run, once, and comes after whatever produces its inputs.
pub proof fn the_run_order_respects_inputs(p: Problem, meta: Seq<TensorMeta>, op: OpId, i: int, j: int)
    requires
        graph::acyclic(dataflow::successors(p.ops@, meta)),
        op < p.ops@.len() <= usize::MAX,
        0 <= i < dataflow::run_order(p.ops@, meta).len(),
        0 <= j < dataflow::run_order(p.ops@, meta).len(),
    ensures
        ({
            let order = dataflow::run_order(p.ops@, meta);
            let a = order[i];
            let b = order[j];
            &&& order.contains(op)
            &&& order.no_duplicates()
            &&& (exists|x: int, c: int|
                #![trigger p.ops@[a as int].outputs@[x], meta[p.ops@[a as int].outputs@[x] as int].consumers@[c]]
                {
                    &&& 0 <= x < p.ops@[a as int].outputs@.len()
                    &&& p.ops@[a as int].outputs@[x] < meta.len()
                    &&& 0 <= c < meta[p.ops@[a as int].outputs@[x] as int].consumers@.len()
                    &&& meta[p.ops@[a as int].outputs@[x] as int].consumers@[c] == b
                }) ==> i < j
        }),
{
    let g = dataflow::successors(p.ops@, meta);
    let order = dataflow::run_order(p.ops@, meta);
    dataflow::successors_follow_tensors(p.ops@, meta);
    graph::order_is_topological(g);
    graph::acyclic_order_is_complete(g);
    edges_lead_to_consumers(p.ops@, meta, order[i], order[j]);
    if graph::edge(g, order[i], order[j]) {
        assert(graph::preceded(g, order, j));
        assert(order.take(j).contains(order[i]));
        let k = choose|k: int| 0 <= k < order.take(j).len() && order.take(j)[k] == order[i];
        assert(order[k] == order[i]);
    }
}

proof fn lemma_sources(g: Seq<Seq<usize>>, m: nat)
    requires
        m <= usize::MAX,
    ensures
        forall|i: int|
            0 <= i < graph::sources(g, m).len() ==> (#[trigger] graph::sources(g, m)[i]) < m && graph::ready(
                g,
                Set::empty(),
                graph::sources(g, m)[i],
            ),
        forall|i: int, j: int|
            0 <= i < j < graph::sources(g, m).len() ==> (#[trigger] graph::sources(g, m)[i]) < #[trigger] graph::sources(
                g,
                m,
            )[j],
    decreases m,
{
    if m > 0 {
        lemma_sources(g, (m - 1) as nat);
        let rest = graph::sources(g, (m - 1) as nat);
        let all = graph::sources(g, m);
        assert forall|i: int| 0 <= i < all.len() implies (#[trigger] all[i]) < m && graph::ready(g, Set::empty(), all[i]) by {
            if i < rest.len() {
                assert(all[i] == rest[i]);
            }
        }
        assert forall|i: int, j: int| 0 <= i < j < all.len() implies (#[trigger] all[i]) < #[trigger] all[j] by {
            assert(all[i] == rest[i]);
            if j < rest.len() {
                assert(all[j] == rest[j]);
            }
        }
    }
}

proof fn lemma_released(g: Seq<Seq<usize>>, done: Set<usize>, u: usize, m: nat)
    requires
        u < g.len(),
        m <= g[u as int].len(),
    ensures
        forall|i: int|
            0 <= i < graph::released(g, done, u, m).len() ==> graph::edge(
                g,
                u,
                #[trigger] graph::released(g, done, u, m)[i],
            ),
    decreases m,
{
    if m > 0 {
        lemma_released(g, done, u, (m - 1) as nat);
        assert(g[u as int].contains(g[u as int][m - 1]));
        let rest = graph::released(g, done, u, (m - 1) as nat);
        let all = graph::released(g, done, u, m);
        assert forall|i: int| 0 <= i < all.len() implies graph::edge(g, u, #[trigger] all[i]) by {
            if i < rest.len() {
                assert(all[i] == rest[i]);
            }
        }
    }
}

/// Of two entries the earlier one waits for nothing that comes after all that the later
/// one waits for; and of two that wait for nothing the smaller one is the earlier.
pub open spec fn is_served_first(g: Seq<Seq<usize>>, q: Seq<usize>, i: int, j: int) -> bool {
    &&& forall|a: int|
        0 <= a < q.len() && graph::edge(g, #[trigger] q[a], q[i]) ==> exists|b: int|
            a <= b < q.len() && graph::edge(g, #[trigger] q[b], q[j])
    &&& (forall|u: usize| !#[trigger] graph::edge(g, u, q[i])) && (forall|u: usize| !#[trigger] graph::edge(g, u, q[j]))
        ==> q[i] < q[j]
}

proof fn lemma_served(g: Seq<Seq<usize>>, m: nat, i: int, j: int)
    requires
        graph::is_graph(g),
        g.len() <= usize::MAX,
        0 <= i < j < graph::grown(g, m).len(),
    ensures
        is_served_first(g, graph::grown(g, m), i, j),
    decreases m,
{
    let q = graph::grown(g, m);
    graph::lemma_grown(g, m);
    if m == 0 {
        lemma_sources(g, g.len());
        assert forall|u: usize| !#[trigger] graph::edge(g, u, q[i]) by {
            assert(graph::ready(g, Set::empty(), q[i]));
        }
    } else {
        let p = graph::grown(g, (m - 1) as nat);
        graph::lemma_grown(g, (m - 1) as nat);
        if m - 1 < p.len() {
            let u = p[m - 1];
            let done = p.take(m - 1).to_set();
            let more = graph::released(g, done, u, g[u as int].len());
            lemma_released(g, done, u, g[u as int].len());
            assert(q == p + more);
            assert(q[m - 1] == u);
            if j < p.len() {
                lemma_served(g, (m - 1) as nat, i, j);
                assert(q[i] == p[i] && q[j] == p[j]);
                assert forall|a: int| 0 <= a < q.len() && graph::edge(g, #[trigger] q[a], q[i]) implies exists|b: int|
                    a <= b < q.len() && graph::edge(g, #[trigger] q[b], q[j]) by {
                    lemma_waits(g, q, m as int, i, a);
                    if a >= p.len() {
                        assert(false);
                    }
                    assert(graph::edge(g, p[a], p[i]));
                    let b = choose|b: int| a <= b < p.len() && graph::edge(g, #[trigger] p[b], p[j]);
                    assert(graph::edge(g, q[b], q[j]));
                }
            } else {
                assert(q[j] == more[j - p.len()]);
                assert(graph::edge(g, u, q[j]));
                assert forall|a: int| 0 <= a < q.len() && graph::edge(g, #[trigger] q[a], q[i]) implies exists|b: int|
                    a <= b < q.len() && graph::edge(g, #[trigger] q[b], q[j]) by {
                    lemma_waits(g, q, m as int, i, a);
                    assert(graph::edge(g, q[m - 1], q[j]));
                }
            }
        } else {
            lemma_served(g, (m - 1) as nat, i, j);
        }
    }
}

proof fn lemma_waits(g: Seq<Seq<usize>>, q: Seq<usize>, m: int, i: int, a: int)
    requires
        q.no_duplicates(),
        0 <= m <= q.len(),
        0 <= i < q.len(),
        0 <= a < q.len(),
        graph::edge(g, q[a], q[i]),
        forall|v: usize| #[trigger]
            q.contains(v) ==> graph::ready(g, q.take(vstd::math::min(m, q.len() as int)).to_set(), v),
    ensures
        a < m,
{
    assert(q.contains(q[i]));
    let done = q.take(m);
    assert(done.to_set().contains(q[a]));
    assert(done.contains(q[a]));
    let x = choose|x: int| 0 <= x < done.len() && done[x] == q[a];
    assert(q[x] == q[a]);
}

/// The run order serves first what came first: operations that wait for none in ascending
/// order, and of two others the one whose last producer runs earlier.
pub proof fn first_come_is_first_served(p: Problem, meta: Seq<TensorMeta>, i: int, j: int)
    requires
        p.ops@.len() <= usize::MAX,
        0 <= i < j < dataflow::run_order(p.ops@, meta).len(),
    ensures
        is_served_first(dataflow::successors(p.ops@, meta), dataflow::run_order(p.ops@, meta), i, j),
{
    dataflow::successors_follow_tensors(p.ops@, meta);
    lemma_served(dataflow::successors(p.ops@, meta), p.ops@.len(), i, j);
}

/// Each operation of the chain takes in something that the next one produces.
pub open spec fn is_chain(p: Problem, meta: Seq<TensorMeta>, chain: Seq<OpId>) -> bool {
    &&& chain.len() > 0
    &&& forall|i: int| 0 <= i < chain.len() ==> (#[trigger] chain[i]) < p.ops@.len()
    &&& forall|i: int|
        0 <= i < chain.len() - 1 ==> exists|j: int|
            0 <= j < p.ops@[(#[trigger] chain[i]) as int].inputs@.len() && (
            #[trigger] p.ops@[chain[i] as int].inputs@[j]) < meta.len()
                && meta[p.ops@[chain[i] as int].inputs@[j] as int].producer == Some(chain[i + 1])
}

proof fn lemma_chain(p: Problem, meta: Seq<TensorMeta>, chain: Seq<OpId>)
    ensures
        is_chain(p, meta, chain) <==> graph::is_path(dataflow::predecessors(p.ops@, meta), chain),
{
    let g = dataflow::predecessors(p.ops@, meta);
    if is_chain(p, meta, chain) {
        assert forall|i: int| 0 <= i < chain.len() - 1 implies graph::edge(g, #[trigger] chain[i], chain[i + 1]) by {
            edges_lead_to_producers(p.ops@, meta, chain[i], chain[i + 1]);
            assert(chain[i + 1] < p.ops@.len());
        }
    }
    if graph::is_path(g, chain) {
        assert forall|i: int| 0 <= i < chain.len() - 1 implies exists|j: int|
            0 <= j < p.ops@[(#[trigger] chain[i]) as int].inputs@.len() && (
            #[trigger] p.ops@[chain[i] as int].inputs@[j]) < meta.len()
                && meta[p.ops@[chain[i] as int].inputs@[j] as int].producer == Some(chain[i + 1]) by {
            edges_lead_to_producers(p.ops@, meta, chain[i], chain[i + 1]);
            assert(graph::edge(g, chain[i], chain[i + 1]));
        }
    }
}

/// The depth of a graph without cycles is the number of operations on its longest chain:
/// no chain is longer, and one is as long if there is any operation.
pub proof fn depth_is_the_longest_chain(p: Problem, meta: Seq<TensorMeta>, depth: int, chain: Seq<OpId>)
    requires
        cost_model::is_depth(p, meta, depth),
        graph::acyclic(dataflow::predecessors(p.ops@, meta)),
        0 < p.ops@.len() <= usize::MAX,
    ensures
        is_chain(p, meta, chain) ==> chain.len() <= depth,
        exists|longest: Seq<OpId>| #[trigger] is_chain(p, meta, longest) && longest.len() == depth,
{
    let g = dataflow::predecessors(p.ops@, meta);
    lemma_chain(p, meta, chain);
    if is_chain(p, meta, chain) {
        cost_model::depth_bounds_every_chain(p, meta, depth, chain);
    }
    dataflow::lemma_predecessors_are_a_graph(p.ops@, meta);
    graph::acyclic_order_is_complete(g);
    let ends = graph::release_order(g);
    let longest = choose|q: Seq<usize>| #[trigger]
        graph::is_path(g, q) && ends.contains(q.last()) && q.len() == depth;
    lemma_chain(p, meta, longest);
}

} // verus!
