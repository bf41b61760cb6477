//! Which operations run as one kernel.
use vstd::prelude::*;
use crate::{arith, components, dataflow, graph, ids, kernels, memory, models};
use crate::kernels::{FusedKernel, FusionModel, PointwiseChain};
use crate::laws::flow;
use crate::models::{Op, OpId, OpType, Problem, TensorId, TensorMeta};

verus! {

proof fn lemma_pointwise_among(ops: Seq<Op>, listed: Seq<OpId>, k: nat, op: OpId)
    requires
        k <= listed.len(),
    ensures
        kernels::pointwise_among(ops, listed, k).contains(op) <==> ops[op as int].op_type == OpType::Pointwise
            && listed.take(k as int).contains(op),
    decreases k,
{
    if k > 0 {
        lemma_pointwise_among(ops, listed, (k - 1) as nat, op);
        let rest = kernels::pointwise_among(ops, listed, (k - 1) as nat);
        ids::lemma_push_contains(rest, listed[k - 1]);
        assert(listed.take(k as int) =~= listed.take(k - 1).push(listed[k - 1]));
        ids::lemma_push_contains(listed.take(k - 1), listed[k - 1]);
    }
}

/// Two operations are linked exactly if both are pointwise and one consumes an output of
/// the other or produces one of its inputs.
proof fn lemma_links(p: Problem, meta: Seq<TensorMeta>, a: OpId, b: OpId)
    ensures
        graph::edge(kernels::links(p, meta), a, b) <==> a < p.ops@.len() && p.ops@[a as int].op_type == OpType::Pointwise
            && p.ops@[b as int].op_type == OpType::Pointwise && (graph::edge(dataflow::successors(p.ops@, meta), a, b)
            || graph::edge(dataflow::predecessors(p.ops@, meta), a, b)),
{
    if a < p.ops@.len() {
        let after = dataflow::successors(p.ops@, meta)[a as int];
        let before = dataflow::predecessors(p.ops@, meta)[a as int];
        lemma_pointwise_among(p.ops@, after, after.len(), b);
        lemma_pointwise_among(p.ops@, before, before.len(), b);
        assert(after.take(after.len() as int) =~= after);
        assert(before.take(before.len() as int) =~= before);
        ids::lemma_concat_contains(
            kernels::pointwise_among(p.ops@, after, after.len()),
            kernels::pointwise_among(p.ops@, before, before.len()),
            b,
        );
    }
}

/// What pointwise operations hand each other tells them apart: no tensor that one puts out
/// and another takes in leads between operations with different marks.
pub open spec fn is_shared_along_tensors(p: Problem, mark: spec_fn(usize) -> int) -> bool {
    forall|u: usize, v: usize, t: usize|
        #![trigger p.ops@[u as int].outputs@.contains(t), p.ops@[v as int].inputs@.contains(t)]
        u < p.ops@.len() && v < p.ops@.len() && p.ops@[u as int].op_type == OpType::Pointwise
            && p.ops@[v as int].op_type == OpType::Pointwise && p.ops@[u as int].outputs@.contains(t)
            && p.ops@[v as int].inputs@.contains(t) ==> mark(u) == mark(v)
}

/// One operation puts out the tensor, the other takes it in.
spec fn hands_over(p: Problem, from: OpId, to: OpId, t: TensorId) -> bool {
    p.ops@[from as int].outputs@.contains(t) && p.ops@[to as int].inputs@.contains(t)
}

proof fn lemma_exchange(p: Problem, meta: Seq<TensorMeta>, a: OpId, b: OpId)
    requires
        p.has_meta(meta),
        p.ops@.len() <= usize::MAX,
        graph::edge(kernels::links(p, meta), a, b),
    ensures
        b < p.ops@.len(),
        p.ops@[a as int].op_type == OpType::Pointwise,
        p.ops@[b as int].op_type == OpType::Pointwise,
        (exists|t: usize| #[trigger] hands_over(p, a, b, t)) || (exists|t: usize| #[trigger] hands_over(p, b, a, t)),
{
    lemma_links(p, meta, a, b);
    if graph::edge(dataflow::successors(p.ops@, meta), a, b) {
        flow::edges_lead_to_consumers(p.ops@, meta, a, b);
        let (i, c) = choose|i: int, c: int|
            #![trigger p.ops@[a as int].outputs@[i], meta[p.ops@[a as int].outputs@[i] as int].consumers@[c]]
            {
                &&& 0 <= i < p.ops@[a as int].outputs@.len()
                &&& p.ops@[a as int].outputs@[i] < meta.len()
                &&& 0 <= c < meta[p.ops@[a as int].outputs@[i] as int].consumers@.len()
                &&& meta[p.ops@[a as int].outputs@[i] as int].consumers@[c] == b
            };
        let t = p.ops@[a as int].outputs@[i];
        assert(meta[t as int].describes(p.ops@, t));
        models::meta_matches_ops(p.ops@, t, p.ops@.len(), b);
        assert(meta[t as int].consumers@.contains(b));
        assert(p.ops@[a as int].outputs@.contains(t));
        assert(hands_over(p, a, b, t));
    } else {
        flow::edges_lead_to_producers(p.ops@, meta, a, b);
        let j = choose|j: int|
            0 <= j < p.ops@[a as int].inputs@.len() && (#[trigger] p.ops@[a as int].inputs@[j]) < meta.len()
                && meta[p.ops@[a as int].inputs@[j] as int].producer == Some(b);
        let t = p.ops@[a as int].inputs@[j];
        assert(meta[t as int].describes(p.ops@, t));
        models::meta_matches_ops(p.ops@, t, p.ops@.len(), b);
        assert(p.ops@[a as int].inputs@.contains(t));
        assert(p.ops@[b as int].outputs@.contains(t));
        assert(hands_over(p, b, a, t));
    }
}

/// A chain holds pointwise operations only. With an operation that makes a tensor it holds
/// the pointwise operations that consume it, and with one of those its maker. And it holds
/// no more than that asks for: what is the same along tensors is the same for all of it.
pub proof fn chains_hang_together(
    chain: PointwiseChain,
    p: Problem,
    meta: Seq<TensorMeta>,
    first: usize,
    a: OpId,
    b: OpId,
    t: usize,
    mark: spec_fn(usize) -> int,
)
    requires
        chain.is_of(p, meta, first),
        p.has_meta(meta),
        p.ops@.len() <= usize::MAX,
        t < meta.len(),
        chain.ops@.contains(a),
        b < p.ops@.len(),
        p.ops@[b as int].op_type == OpType::Pointwise,
        is_shared_along_tensors(p, mark),
    ensures
        a < p.ops@.len(),
        p.ops@[a as int].op_type == OpType::Pointwise,
        meta[t as int].producer == Some(a) && p.ops@[b as int].inputs@.contains(t) ==> chain.ops@.contains(b),
        meta[t as int].producer == Some(b) && p.ops@[a as int].inputs@.contains(t) ==> chain.ops@.contains(b),
        chain.ops@.contains(b) ==> mark(a) == mark(b),
{
    let g = kernels::links(p, meta);
    lemma_reached(p, meta, first, a, mark);
    assert(kernels::in_chain_of(p, meta, first, a));
    assert(meta[t as int].describes(p.ops@, t));
    if meta[t as int].producer == Some(a) && p.ops@[b as int].inputs@.contains(t) {
        models::meta_matches_ops(p.ops@, t, p.ops@.len(), b);
        lemma_linked_both_ways(p, meta, a, b, t);
        lemma_same_chain(p, meta, first, a, b);
    }
    if meta[t as int].producer == Some(b) && p.ops@[a as int].inputs@.contains(t) {
        models::meta_matches_ops(p.ops@, t, p.ops@.len(), a);
        lemma_linked_both_ways(p, meta, b, a, t);
        lemma_same_chain(p, meta, first, a, b);
    }
    if chain.ops@.contains(b) {
        lemma_reached(p, meta, first, b, mark);
    }
}

proof fn lemma_linked_both_ways(p: Problem, meta: Seq<TensorMeta>, a: OpId, b: OpId, t: usize)
    requires
        p.has_meta(meta),
        p.ops@.len() <= usize::MAX,
        t < meta.len(),
        a < p.ops@.len(),
        b < p.ops@.len(),
        p.ops@[a as int].op_type == OpType::Pointwise,
        p.ops@[b as int].op_type == OpType::Pointwise,
        meta[t as int].producer == Some(a),
        p.ops@[b as int].inputs@.contains(t),
    ensures
        graph::edge(kernels::links(p, meta), a, b),
        graph::edge(kernels::links(p, meta), b, a),
{
    assert(meta[t as int].describes(p.ops@, t));
    models::meta_matches_ops(p.ops@, t, p.ops@.len(), b);
    assert(meta[t as int].consumers@.contains(b));
    assert(p.ops@[a as int].outputs@.contains(t));
    let i = choose|i: int| 0 <= i < p.ops@[a as int].outputs@.len() && p.ops@[a as int].outputs@[i] == t;
    let c = choose|c: int| 0 <= c < meta[t as int].consumers@.len() && meta[t as int].consumers@[c] == b;
    let j = choose|j: int| 0 <= j < p.ops@[b as int].inputs@.len() && p.ops@[b as int].inputs@[j] == t;
    assert(meta[p.ops@[a as int].outputs@[i] as int].consumers@[c] == b);
    assert(p.ops@[b as int].inputs@[j] < meta.len());
    flow::edges_lead_to_consumers(p.ops@, meta, a, b);
    flow::edges_lead_to_producers(p.ops@, meta, b, a);
    lemma_links(p, meta, a, b);
    lemma_links(p, meta, b, a);
}

proof fn lemma_step(g: Seq<Seq<usize>>, a: usize, b: usize, c: usize)
    requires
        components::connected(g, a, b),
        graph::edge(g, b, c),
        c < g.len(),
    ensures
        components::connected(g, a, c),
{
    let path = choose|path: Seq<usize>| components::joins(g, a, b, path);
    let longer = path.push(c);
    assert(graph::is_path(g, longer)) by {
        assert forall|i: int| 0 <= i < longer.len() - 1 implies graph::edge(g, #[trigger] longer[i], longer[i + 1]) by {
            if i < path.len() - 1 {
                assert(longer[i] == path[i] && longer[i + 1] == path[i + 1]);
            }
        }
    }
    assert(components::joins(g, a, c, longer));
}

proof fn lemma_same_chain(p: Problem, meta: Seq<TensorMeta>, first: usize, a: OpId, b: OpId)
    requires
        kernels::in_chain_of(p, meta, first, a),
        a < p.ops@.len(),
        b < p.ops@.len() <= usize::MAX,
        graph::edge(kernels::links(p, meta), a, b),
        graph::edge(kernels::links(p, meta), b, a),
    ensures
        kernels::in_chain_of(p, meta, first, b),
{
    let g = kernels::links(p, meta);
    lemma_step(g, first, a, b);
    assert forall|s: usize| s < first && kernels::pointwise_flags(p)[s as int] implies !#[trigger] components::connected(
        g,
        s,
        b,
    ) by {
        if components::connected(g, s, b) {
            lemma_step(g, s, b, a);
        }
    }
}

proof fn lemma_reached(p: Problem, meta: Seq<TensorMeta>, first: usize, op: OpId, mark: spec_fn(usize) -> int)
    requires
        kernels::in_chain_of(p, meta, first, op),
        op < p.ops@.len() <= usize::MAX,
        p.has_meta(meta),
        is_shared_along_tensors(p, mark),
    ensures
        p.ops@[op as int].op_type == OpType::Pointwise,
        mark(op) == mark(first),
{
    let g = kernels::links(p, meta);
    let path = choose|path: Seq<usize>| components::joins(g, first, op, path);
    lemma_along(p, meta, path, mark, (path.len() - 1) as nat);
    assert(kernels::pointwise_flags(p)[first as int]);
}

proof fn lemma_along(p: Problem, meta: Seq<TensorMeta>, path: Seq<usize>, mark: spec_fn(usize) -> int, k: nat)
    requires
        graph::is_path(kernels::links(p, meta), path),
        k < path.len(),
        p.ops@.len() <= usize::MAX,
        p.has_meta(meta),
        is_shared_along_tensors(p, mark),
        p.ops@[path[0] as int].op_type == OpType::Pointwise,
    ensures
        p.ops@[path[k as int] as int].op_type == OpType::Pointwise,
        mark(path[k as int]) == mark(path[0]),
    decreases k,
{
    if k > 0 {
        lemma_along(p, meta, path, mark, (k - 1) as nat);
        let a = path[k - 1];
        let b = path[k as int];
        assert(graph::edge(kernels::links(p, meta), path[k - 1], path[k - 1 + 1]));
        lemma_exchange(p, meta, a, b);
        if exists|t: usize| #[trigger] hands_over(p, a, b, t) {
            let t = choose|t: usize| #[trigger] hands_over(p, a, b, t);
            assert(mark(a) == mark(b));
        } else {
            let t = choose|t: usize| #[trigger] hands_over(p, b, a, t);
            assert(mark(b) == mark(a));
        }
    }
}

/// What a chain takes in, puts out and keeps inside, in terms of producers and consumers.
pub proof fn chains_have_borders(chain: PointwiseChain, p: Problem, meta: Seq<TensorMeta>, first: usize, t: usize)
    requires
        chain.is_of(p, meta, first),
    ensures
        ({
            let taken = exists|i: int, j: int|
                #![trigger p.ops@[chain.ops@[i] as int].inputs@[j]]
                0 <= i < chain.ops@.len() && 0 <= j < p.ops@[chain.ops@[i] as int].inputs@.len()
                    && p.ops@[chain.ops@[i] as int].inputs@[j] == t;
            let put = exists|i: int, j: int|
                #![trigger p.ops@[chain.ops@[i] as int].outputs@[j]]
                0 <= i < chain.ops@.len() && 0 <= j < p.ops@[chain.ops@[i] as int].outputs@.len()
                    && p.ops@[chain.ops@[i] as int].outputs@[j] == t;
            let m = meta[t as int];
            let needed = m.is_output || exists|c: int|
                0 <= c < m.consumers@.len() && !chain.ops@.contains(#[trigger] m.consumers@[c]);
            &&& chain.external_inputs@.contains(t) <==> taken && t < meta.len() && (m.producer is None
                || !chain.ops@.contains(m.producer->0))
            &&& chain.external_outputs@.contains(t) <==> put && t < meta.len() && needed
            &&& chain.intermediates@.contains(t) <==> put && t < meta.len() && !needed
        }),
{
    let group = chain.ops@;
    let ins = memory::inputs_of(group, p.ops@, group.len());
    let outs = memory::outputs_of(group, p.ops@, group.len());
    memory::lemma_inputs_of(group, p.ops@, group.len());
    memory::lemma_outputs_of(group, p.ops@, group.len());
    assert(ins.take(ins.len() as int) =~= ins);
    assert(outs.take(outs.len() as int) =~= outs);
    ids::lemma_first_mentions(ins, |t: usize| t < meta.len() && memory::from_outside(group, meta[t as int]), ins.len());
    ids::lemma_first_mentions(
        outs,
        |t: usize| t < meta.len() && memory::needed_outside(group, meta[t as int]),
        outs.len(),
    );
    ids::lemma_first_mentions(
        outs,
        |t: usize| t < meta.len() && !memory::needed_outside(group, meta[t as int]),
        outs.len(),
    );
}

/// The cost of a chain is that of its operations.
pub proof fn chains_cost_what_their_operations_cost(chain: PointwiseChain, p: Problem, meta: Seq<TensorMeta>, first: usize)
    requires
        chain.is_of(p, meta, first),
        p.ops@.len() <= usize::MAX,
    ensures
        chain.total_base_cost == arith::sum(
            Seq::new(p.ops@.len(), |i: int| i as usize).filter(|op: usize| chain.ops@.contains(op)).map_values(
                |op: usize| p.ops@[op as int].base_cost as int,
            ),
        ),
{
    lemma_chain_cost(chain, p, meta, first, p.ops@.len());
}

proof fn lemma_chain_cost(chain: PointwiseChain, p: Problem, meta: Seq<TensorMeta>, first: usize, m: nat)
    requires
        chain.is_of(p, meta, first),
        m <= p.ops@.len() <= usize::MAX,
    ensures
        kernels::chain_cost(p, meta, first, m) == arith::sum(
            Seq::new(m, |i: int| i as usize).filter(|op: usize| chain.ops@.contains(op)).map_values(
                |op: usize| p.ops@[op as int].base_cost as int,
            ),
        ),
    decreases m,
{
    let pred = |op: usize| chain.ops@.contains(op);
    let f = |op: usize| p.ops@[op as int].base_cost as int;
    let all = Seq::new(m, |i: int| i as usize);
    if m == 0 {
        reveal(Seq::filter);
        assert(all =~= Seq::<usize>::empty());
        assert(all.filter(pred).map_values(f) =~= Seq::<int>::empty());
    } else {
        lemma_chain_cost(chain, p, meta, first, (m - 1) as nat);
        let before = Seq::new((m - 1) as nat, |i: int| i as usize);
        let op = (m - 1) as usize;
        assert(all =~= before.push(op));
        before.lemma_filter_push(op, pred);
        assert(chain.ops@.contains(op) <==> kernels::in_chain_of(p, meta, first, op));
        let some = before.filter(pred);
        assert(some.push(op).map_values(f).drop_last() =~= some.map_values(f));
        assert(some.push(op).map_values(f).last() == f(op));
    }
}

/// Chains begin with their least operation, have two operations or more, and every such
/// group of exchanging operations is found.
pub proof fn all_chains_are_found(chains: Seq<PointwiseChain>, p: Problem, meta: Seq<TensorMeta>, i: int, first: usize, op: usize)
    requires
        kernels::are_chains(chains, p, meta, p.ops@.len() as int),
        p.ops@.len() <= usize::MAX,
        0 <= i < chains.len(),
    ensures
        chains[i].ops@.len() >= 2,
        forall|k: int| 0 < k < chains[i].ops@.len() ==> chains[i].ops@[0] < #[trigger] chains[i].ops@[k],
        first < p.ops@.len() && op < p.ops@.len() && op != first && kernels::in_chain_of(p, meta, first, op)
            ==> exists|j: int| 0 <= j < chains.len() && (#[trigger] chains[j]).ops@[0] == first && chains[j].ops@.contains(op),
{
    assert(chains[i].is_of(p, meta, chains[i].ops@[0]));
    if first < p.ops@.len() && op < p.ops@.len() && op != first && kernels::in_chain_of(p, meta, first, op) {
        assert(kernels::some_chain_begins(chains, first));
        let j = choose|j: int| 0 <= j < chains.len() && (#[trigger] chains[j]).ops@[0] == first;
        assert(chains[j].is_of(p, meta, chains[j].ops@[0]));
        assert(chains[j].ops@.contains(op));
    }
}

/// The tensor is an output of the operation or of one of the first `k` in the list.
pub open spec fn is_output_of(p: Problem, op: OpId, listed: Seq<OpId>, k: int, t: TensorId) -> bool {
    p.ops@[op as int].outputs@.contains(t) || exists|i: int|
        0 <= i < k && p.ops@[(#[trigger] listed[i]) as int].outputs@.contains(t)
}

/// Operation `e` consumes an output of the operation or of one of the first `k` in the list.
pub open spec fn follows(p: Problem, meta: Seq<TensorMeta>, op: OpId, listed: Seq<OpId>, k: int, e: OpId) -> bool {
    exists|t: TensorId| #[trigger]
        is_output_of(p, op, listed, k, t) && t < meta.len() && meta[t as int].consumers@.contains(e)
}

spec fn is_grown(p: Problem, meta: Seq<TensorMeta>, op: OpId, st: FusionModel) -> bool {
    &&& forall|i: int| 0 <= i < st.epilogue.len() ==> #[trigger] follows(p, meta, op, st.epilogue, i, st.epilogue[i])
    &&& forall|x: int|
        0 <= x < st.next.len() ==> is_output_of(
            p,
            op,
            st.epilogue,
            st.epilogue.len() as int,
            #[trigger] st.next[x],
        )
}

proof fn lemma_free(ops: Seq<Op>, consumers: Seq<OpId>, visited: Set<OpId>, k: nat)
    requires
        k <= consumers.len(),
    ensures
        kernels::free_consumers(ops, consumers, visited, k) == consumers.take(k as int).filter(
            |c: OpId| c < ops.len() && ops[c as int].op_type == OpType::Pointwise && !visited.contains(c),
        ),
    decreases k,
{
    let pred = |c: OpId| c < ops.len() && ops[c as int].op_type == OpType::Pointwise && !visited.contains(c);
    if k == 0 {
        reveal(Seq::filter);
        assert(consumers.take(0) =~= Seq::<OpId>::empty());
        assert(consumers.take(0).filter(pred) =~= Seq::<OpId>::empty());
    } else {
        lemma_free(ops, consumers, visited, (k - 1) as nat);
        assert(consumers.take(k as int) =~= consumers.take(k - 1).push(consumers[k - 1]));
        consumers.take(k - 1).lemma_filter_push(consumers[k - 1], pred);
    }
}

proof fn lemma_is_output_grows(p: Problem, op: OpId, listed: Seq<OpId>, more: Seq<OpId>, k: int, l: int, t: TensorId)
    requires
        0 <= k <= listed.len(),
        k <= l <= more.len(),
        listed.len() <= more.len(),
        forall|i: int| 0 <= i < k ==> #[trigger] listed[i] == more[i],
        is_output_of(p, op, listed, k, t),
    ensures
        is_output_of(p, op, more, l, t),
{
    if !p.ops@[op as int].outputs@.contains(t) {
        let i = choose|i: int| 0 <= i < k && p.ops@[(#[trigger] listed[i]) as int].outputs@.contains(t);
        assert(p.ops@[more[i] as int].outputs@.contains(t));
    }
}

proof fn lemma_round(p: Problem, meta: Seq<TensorMeta>, op: OpId, st: FusionModel, outputs: Seq<TensorId>, k: nat)
    requires
        is_grown(p, meta, op, st),
        k <= outputs.len(),
        outputs == st.next,
    ensures
        ({
            let after = kernels::fused_over(p, meta, st, outputs, k);
            &&& is_grown(p, meta, op, after)
            &&& st.epilogue.len() <= after.epilogue.len()
            &&& forall|i: int| 0 <= i < st.epilogue.len() ==> #[trigger] after.epilogue[i] == st.epilogue[i]
        }),
    decreases k,
{
    let after = kernels::fused_over(p, meta, st, outputs, k);
    if k > 0 {
        lemma_round(p, meta, op, st, outputs, (k - 1) as nat);
        let before = kernels::fused_over(p, meta, st, outputs, (k - 1) as nat);
        let t = outputs[k - 1];
        let consumers = meta[t as int].consumers@;
        let free = kernels::free_consumers(p.ops@, consumers, before.visited, consumers.len());
        if t < meta.len() && free.len() == 1 {
            let pred = |c: OpId|
                c < p.ops@.len() && p.ops@[c as int].op_type == OpType::Pointwise && !before.visited.contains(c);
            lemma_free(p.ops@, consumers, before.visited, consumers.len());
            assert(consumers.take(consumers.len() as int) =~= consumers);
            let e = free[0];
            consumers.lemma_filter_contains_rev(pred, e);
            assert(consumers.contains(e));
            let n = before.epilogue.len() as int;
            // The output that led here is one of those that came before.
            assert(is_output_of(p, op, st.epilogue, st.epilogue.len() as int, st.next[k - 1]));
            lemma_is_output_grows(p, op, st.epilogue, after.epilogue, st.epilogue.len() as int, n, t);
            assert(follows(p, meta, op, after.epilogue, n, e));
            assert forall|i: int| 0 <= i < after.epilogue.len() implies #[trigger] follows(
                p,
                meta,
                op,
                after.epilogue,
                i,
                after.epilogue[i],
            ) by {
                if i < n {
                    assert(after.epilogue[i] == before.epilogue[i]);
                    assert(follows(p, meta, op, before.epilogue, i, before.epilogue[i]));
                    let u = choose|u: TensorId| #[trigger]
                        is_output_of(p, op, before.epilogue, i, u) && u < meta.len() && meta[u as int].consumers@.contains(
                            before.epilogue[i],
                        );
                    lemma_is_output_grows(p, op, before.epilogue, after.epilogue, i, i, u);
                }
            }
            assert forall|x: int| 0 <= x < after.next.len() implies is_output_of(
                p,
                op,
                after.epilogue,
                after.epilogue.len() as int,
                #[trigger] after.next[x],
            ) by {
                if x < before.next.len() {
                    assert(after.next[x] == before.next[x]);
                    lemma_is_output_grows(p, op, before.epilogue, after.epilogue, n, n + 1, before.next[x]);
                } else {
                    assert(after.next[x] == p.ops@[e as int].outputs@[x - before.next.len()]);
                    assert(p.ops@[after.epilogue[n] as int].outputs@.contains(after.next[x]));
                }
            }
        }
    }
}

proof fn lemma_rounds(p: Problem, meta: Seq<TensorMeta>, op: OpId, st: FusionModel, r: nat)
    requires
        is_grown(p, meta, op, st),
    ensures
        is_grown(p, meta, op, kernels::fused_rounds(p, meta, st, r)),
        st.epilogue.len() <= kernels::fused_rounds(p, meta, st, r).epilogue.len(),
        forall|i: int|
            0 <= i < st.epilogue.len() ==> #[trigger] kernels::fused_rounds(p, meta, st, r).epilogue[i] == st.epilogue[i],
    decreases r,
{
    if r > 0 {
        lemma_rounds(p, meta, op, st, (r - 1) as nat);
        let before = kernels::fused_rounds(p, meta, st, (r - 1) as nat);
        lemma_round(p, meta, op, before, before.next, before.next.len());
    }
}

/// Every operation in the epilogue of a matrix product consumes what that puts out, or what
/// an earlier one of the epilogue puts out. A pointwise operation that alone consumes the
/// first output joins; of several that could, none does.
pub proof fn epilogues_follow_the_product(p: Problem, meta: Seq<TensorMeta>, visited: Set<OpId>, matmul: OpId, i: int)
    requires
        matmul < p.ops@.len(),
        0 <= i < kernels::grown_kernel(p, meta, visited, matmul as int).epilogue.len(),
    ensures
        follows(
            p,
            meta,
            matmul,
            kernels::grown_kernel(p, meta, visited, matmul as int).epilogue,
            i,
            kernels::grown_kernel(p, meta, visited, matmul as int).epilogue[i],
        ),
{
    let outputs = p.ops@[matmul as int].outputs@;
    let st = FusionModel { visited, epilogue: Seq::empty(), next: outputs };
    assert(is_grown(p, meta, matmul, st)) by {
        assert forall|x: int| 0 <= x < st.next.len() implies is_output_of(
            p,
            matmul,
            st.epilogue,
            st.epilogue.len() as int,
            #[trigger] st.next[x],
        ) by {
            assert(outputs.contains(outputs[x]));
        }
    }
    lemma_rounds(p, meta, matmul, st, p.ops@.len());
}

/// Of a matrix product with one output, the epilogue is empty exactly if not one, or more
/// than one, of its consumers could join; else it begins with that one.
pub proof fn single_consumers_join_the_epilogue(p: Problem, meta: Seq<TensorMeta>, visited: Set<OpId>, matmul: OpId, t: TensorId)
    requires
        matmul < p.ops@.len(),
        p.ops@[matmul as int].outputs@ == seq![t],
        t < meta.len(),
    ensures
        ({
            let epilogue = kernels::grown_kernel(p, meta, visited, matmul as int).epilogue;
            let could = meta[t as int].consumers@.filter(
                |c: OpId| c < p.ops@.len() && p.ops@[c as int].op_type == OpType::Pointwise && !visited.contains(c),
            );
            &&& could.len() == 1 ==> epilogue.len() > 0 && epilogue[0] == could[0]
            &&& could.len() != 1 ==> epilogue.len() == 0
        }),
{
    let outputs = p.ops@[matmul as int].outputs@;
    let consumers = meta[t as int].consumers@;
    let st = FusionModel { visited, epilogue: Seq::empty(), next: outputs };
    assert(outputs.contains(t)) by {
        assert(outputs[0] == t);
    }
    assert(is_grown(p, meta, matmul, st));
    lemma_free(p.ops@, consumers, visited, consumers.len());
    assert(consumers.take(consumers.len() as int) =~= consumers);
    let could = consumers.filter(
        |c: OpId| c < p.ops@.len() && p.ops@[c as int].op_type == OpType::Pointwise && !visited.contains(c),
    );
    reveal_with_fuel(kernels::fused_over, 3);
    let one = kernels::fused_rounds(p, meta, st, 1);
    assert(one == kernels::fused_over(p, meta, st, outputs, 1)) by {
        reveal_with_fuel(kernels::fused_rounds, 2);
    }
    lemma_later_rounds(p, meta, matmul, st, p.ops@.len());
}

proof fn lemma_later_rounds(p: Problem, meta: Seq<TensorMeta>, op: OpId, st: FusionModel, r: nat)
    requires
        is_grown(p, meta, op, st),
        r >= 1,
    ensures
        ({
            let one = kernels::fused_over(p, meta, st, st.next, st.next.len());
            let all = kernels::fused_rounds(p, meta, st, r);
            &&& one.epilogue.len() <= all.epilogue.len()
            &&& forall|i: int| 0 <= i < one.epilogue.len() ==> #[trigger] all.epilogue[i] == one.epilogue[i]
            &&& one.next.len() == 0 ==> all.epilogue == one.epilogue && all.next.len() == 0
        }),
    decreases r,
{
    let one = kernels::fused_over(p, meta, st, st.next, st.next.len());
    lemma_round(p, meta, op, st, st.next, st.next.len());
    if r == 1 {
        reveal_with_fuel(kernels::fused_rounds, 2);
    } else {
        lemma_later_rounds(p, meta, op, st, (r - 1) as nat);
        lemma_rounds(p, meta, op, st, (r - 1) as nat);
        let before = kernels::fused_rounds(p, meta, st, (r - 1) as nat);
        lemma_round(p, meta, op, before, before.next, before.next.len());
    }
}

/// A kernel costs what its operations cost, and saves 25 cycles for each in the epilogue.
pub proof fn kernels_cost_what_their_operations_cost(found: FusedKernel, p: Problem, kernel: (OpId, Seq<OpId>))
    requires
        found.is_of(p, kernel),
    ensures
        found.combined_cost == p.ops@[found.matmul_op as int].base_cost + arith::sum(
            found.epilogue_ops@.map_values(|op: usize| p.ops@[op as int].base_cost as int),
        ),
        found.setup_cycles_saved == 25 * found.epilogue_ops@.len(),
{
}

/// The matrix products with kernels are matrix products, in ascending order, and none of
/// the epilogues is empty.
pub proof fn kernels_belong_to_products(p: Problem, meta: Seq<TensorMeta>, m: nat, i: int, j: int)
    requires
        m <= p.ops@.len() <= usize::MAX,
        0 <= i < kernels::kernels_after(p, meta, m).kernels.len(),
        0 <= j < kernels::kernels_after(p, meta, m).kernels.len(),
    ensures
        ({
            let list = kernels::kernels_after(p, meta, m).kernels;
            &&& list[i].0 < m
            &&& p.ops@[list[i].0 as int].op_type == OpType::MatMul
            &&& list[i].1.len() > 0
            &&& i < j ==> list[i].0 < list[j].0
        }),
    decreases m,
{
    if m > 0 {
        let before = kernels::kernels_after(p, meta, (m - 1) as nat).kernels;
        let all = kernels::kernels_after(p, meta, m).kernels;
        if i < before.len() {
            if j < before.len() {
                kernels_belong_to_products(p, meta, (m - 1) as nat, i, j);
            } else {
                kernels_belong_to_products(p, meta, (m - 1) as nat, i, i);
            }
        }
    }
}

proof fn lemma_output_bytes(p: Problem, outputs: Seq<TensorId>, k: nat)
    requires
        k <= outputs.len(),
    ensures
        kernels::output_bytes(p, outputs, k) == arith::sum(
            outputs.take(k as int).filter(|t: TensorId| t < p.tensors@.len()).map_values(
                |t: TensorId| p.tensors@[t as int].width * p.tensors@[t as int].height,
            ),
        ),
    decreases k,
{
    let pred = |t: TensorId| t < p.tensors@.len();
    let f = |t: TensorId| p.tensors@[t as int].width * p.tensors@[t as int].height;
    if k == 0 {
        reveal(Seq::filter);
        assert(outputs.take(0) =~= Seq::<TensorId>::empty());
        assert(outputs.take(0).filter(pred).map_values(f) =~= Seq::<int>::empty());
    } else {
        lemma_output_bytes(p, outputs, (k - 1) as nat);
        let before = outputs.take(k - 1);
        let t = outputs[k - 1];
        assert(outputs.take(k as int) =~= before.push(t));
        before.lemma_filter_push(t, pred);
        let some = before.filter(pred);
        assert(some.push(t).map_values(f).drop_last() =~= some.map_values(f));
        assert(some.push(t).map_values(f).last() == f(t));
    }
}

/// An operation is small if it puts out something, and less than a quarter of a native
/// tile, rounded down.
pub proof fn small_operations_put_out_little(p: Problem, op: int)
    requires
        kernels::native_tile(p) >= 0,
    ensures
        ({
            let bytes = arith::sum(
                p.ops@[op].outputs@.filter(|t: TensorId| t < p.tensors@.len()).map_values(
                    |t: TensorId| p.tensors@[t as int].width * p.tensors@[t as int].height,
                ),
            );
            &&& kernels::bytes_of(p, op) == bytes
            &&& kernels::is_small(p, op) <==> 0 < bytes && 4 * (bytes + 1) <= p.native_granularity.width
                * p.native_granularity.height
        }),
{
    let outputs = p.ops@[op].outputs@;
    lemma_output_bytes(p, outputs, outputs.len());
    assert(outputs.take(outputs.len() as int) =~= outputs);
}

/// The sizes of the listed operations, added up.
spec fn packed_size(p: Problem, listed: Seq<OpId>) -> int {
    arith::sum(listed.map_values(|op: OpId| kernels::bytes_of(p, op as int)))
}

proof fn lemma_packed(p: Problem, m: nat)
    requires
        m <= p.ops@.len() <= usize::MAX,
    ensures
        ({
            let all = kernels::packed(p, m);
            &&& all.size == packed_size(p, all.ops)
            &&& forall|x: int|
                0 <= x < all.ops.len() ==> (#[trigger] all.ops[x]) < m && kernels::is_small(p, all.ops[x] as int)
            &&& forall|i: int| 0 <= i < all.groups.len() ==> (#[trigger] all.groups[i]).1 == packed_size(p, all.groups[i].0)
            &&& forall|i: int, x: int|
                #![trigger all.groups[i].0[x]]
                0 <= i < all.groups.len() && 0 <= x < all.groups[i].0.len() ==> all.groups[i].0[x] < m && kernels::is_small(
                    p,
                    all.groups[i].0[x] as int,
                )
            &&& forall|op: usize|
                #![trigger p.ops@[op as int]]
                op < m && kernels::is_small(p, op as int) ==> all.ops.contains(op) || exists|i: int|
                    0 <= i < all.groups.len() && (#[trigger] all.groups[i]).0.contains(op)
        }),
    decreases m,
{
    let all = kernels::packed(p, m);
    let f = |op: OpId| kernels::bytes_of(p, op as int);
    if m == 0 {
        assert(all.ops.map_values(f) =~= Seq::<int>::empty());
    } else {
        lemma_packed(p, (m - 1) as nat);
        let before = kernels::packed(p, (m - 1) as nat);
        let op = (m - 1) as usize;
        let joins = before.size + kernels::bytes_of(p, m - 1) <= kernels::native_tile(p);
        assert forall|i: int| 0 <= i < all.groups.len() implies (#[trigger] all.groups[i]).1 == packed_size(
            p,
            all.groups[i].0,
        ) by {
            if i < before.groups.len() {
                assert(all.groups[i] == before.groups[i]);
            } else {
                assert(all.groups[i] == (before.ops, before.size));
            }
        }
        assert forall|i: int, x: int|
            #![trigger all.groups[i].0[x]]
            0 <= i < all.groups.len() && 0 <= x < all.groups[i].0.len() implies all.groups[i].0[x] < m && kernels::is_small(
            p,
            all.groups[i].0[x] as int,
        ) by {
            if i < before.groups.len() {
                assert(all.groups[i] == before.groups[i]);
                assert(before.groups[i].0[x] < m - 1);
            } else {
                assert(all.groups[i] == (before.ops, before.size));
                assert(before.ops[x] < m - 1);
            }
        }
        assert forall|x: int| 0 <= x < all.ops.len() implies (#[trigger] all.ops[x]) < m && kernels::is_small(
            p,
            all.ops[x] as int,
        ) by {
            if kernels::is_small(p, m - 1) && !joins {
                assert(all.ops[x] == op);
            } else if x < before.ops.len() {
                assert(all.ops[x] == before.ops[x]);
            }
        }
        if kernels::is_small(p, m - 1) {
            if before.size + kernels::bytes_of(p, m - 1) <= kernels::native_tile(p) {
                assert(all.ops.map_values(f).drop_last() =~= before.ops.map_values(f));
                assert(all.ops.map_values(f).last() == f(op));
                ids::lemma_push_contains(before.ops, op);
            } else {
                let numbers = all.ops.map_values(f);
                assert(numbers.drop_last() =~= Seq::<int>::empty());
                assert(numbers.last() == f(op));
                assert(arith::sum(numbers.drop_last()) == 0);
                assert(arith::sum(numbers) == f(op));
                assert(all.ops.contains(op)) by {
                    assert(all.ops[0] == op);
                }
                assert(all.groups[before.groups.len() as int].0 == before.ops);
            }
        }
        assert forall|u: usize|
            #![trigger p.ops@[u as int]]
            u < m && kernels::is_small(p, u as int) implies all.ops.contains(u) || exists|i: int|
            0 <= i < all.groups.len() && (#[trigger] all.groups[i]).0.contains(u) by {
            if u < m - 1 {
                assert(p.ops@[u as int] == p.ops@[u as int]);
                if before.ops.contains(u) {
                    if all.groups.len() > before.groups.len() {
                        assert(all.groups[before.groups.len() as int].0.contains(u));
                    } else if kernels::is_small(p, m - 1) {
                        assert(all.ops.contains(u));
                    }
                } else {
                    let i = choose|i: int| 0 <= i < before.groups.len() && (#[trigger] before.groups[i]).0.contains(u);
                    assert(all.groups[i].0.contains(u));
                }
            }
        }
    }
}

/// The groups of small operations: each holds small ones only, its size is what they put
/// out together, and no small operation is left out but a last one that stays alone.
pub proof fn small_operations_are_packed(p: Problem, i: int, x: int, op: usize)
    requires
        p.ops@.len() <= usize::MAX,
        0 <= i < kernels::micro_groups(p).len(),
        0 <= x < kernels::micro_groups(p)[i].0.len(),
    ensures
        ({
            let groups = kernels::micro_groups(p);
            &&& groups[i].0[x] < p.ops@.len()
            &&& kernels::is_small(p, groups[i].0[x] as int)
            &&& groups[i].1 == arith::sum(groups[i].0.map_values(|op: OpId| kernels::bytes_of(p, op as int)))
            &&& groups[i].1 <= p.native_granularity.width * p.native_granularity.height
            &&& op < p.ops@.len() && kernels::is_small(p, op as int) ==> (exists|j: int|
                0 <= j < groups.len() && (#[trigger] groups[j]).0.contains(op)) || kernels::packed(p, p.ops@.len()).ops
                == seq![op]
        }),
{
    let all = kernels::packed(p, p.ops@.len());
    let groups = kernels::micro_groups(p);
    lemma_packed(p, p.ops@.len());
    kernels::groups_fit_in_a_tile(p, i);
    if i < all.groups.len() {
        assert(groups[i] == all.groups[i]);
        assert(all.groups[i].0[x] < p.ops@.len());
    } else {
        assert(all.ops[x] < p.ops@.len());
    }
    if op < p.ops@.len() && kernels::is_small(p, op as int) {
        assert(p.ops@[op as int] == p.ops@[op as int]);
        if all.ops.contains(op) {
            if all.ops.len() >= 2 {
                assert(groups[groups.len() - 1].0.contains(op));
            } else {
                assert(all.ops =~= seq![op]);
            }
        } else {
            let j = choose|j: int| 0 <= j < all.groups.len() && (#[trigger] all.groups[j]).0.contains(op);
            assert(groups[j].0.contains(op));
        }
    }
}

} // verus!
