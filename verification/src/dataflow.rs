//! The operations as a graph: an edge leads from an operation to each consumer of
//! one of its outputs.
use vstd::prelude::*;
use crate::graph;
use crate::models::{Op, OpId, Problem, TensorMeta};

verus! {

/// Those of the first `k` entries of `s` that are below `n`, in order.
pub open spec fn below(s: Seq<usize>, n: nat, k: nat) -> Seq<usize>
    decreases k,
{
    if k == 0 {
        Seq::empty()
    } else {
        let rest = below(s, n, (k - 1) as nat);
        if s[k - 1] < n {
            rest.push(s[k - 1])
        } else {
            rest
        }
    }
}

/// The consumers of the first `k` tensors in `outputs`, as far as they are among `n` operations.
pub open spec fn fed_by(outputs: Seq<usize>, meta: Seq<TensorMeta>, n: nat, k: nat) -> Seq<usize>
    decreases k,
{
    if k == 0 {
        Seq::empty()
    } else {
        let rest = fed_by(outputs, meta, n, (k - 1) as nat);
        let t = outputs[k - 1];
        if t < meta.len() {
            rest + below(meta[t as int].consumers@, n, meta[t as int].consumers@.len())
        } else {
            rest
        }
    }
}

/// For each operation the operations that consume its outputs, once for each mention.
pub open spec fn successors(ops: Seq<Op>, meta: Seq<TensorMeta>) -> Seq<Seq<usize>> {
    Seq::new(ops.len(), |i: int| fed_by(ops[i].outputs@, meta, ops.len(), ops[i].outputs@.len()))
}

proof fn lemma_below(s: Seq<usize>, n: nat, k: nat)
    requires
        k <= s.len(),
    ensures
        forall|x: usize| #[trigger] below(s, n, k).contains(x) <==> x < n && s.take(k as int).contains(x),
        forall|i: int| 0 <= i < below(s, n, k).len() ==> #[trigger] below(s, n, k)[i] < n,
    decreases k,
{
    if k > 0 {
        let rest = below(s, n, (k - 1) as nat);
        let all = below(s, n, k);
        lemma_below(s, n, (k - 1) as nat);
        crate::models::lemma_take_contains(s, k - 1);
        assert forall|i: int| 0 <= i < all.len() implies #[trigger] all[i] < n by {
            if i < rest.len() {
                assert(all[i] == rest[i]);
            }
        }
        assert forall|x: usize| #[trigger] all.contains(x) <==> x < n && s.take(k as int).contains(x) by {
            if all.contains(x) {
                let i = choose|i: int| 0 <= i < all.len() && all[i] == x;
                if i < rest.len() {
                    assert(rest[i] == x);
                    assert(rest.contains(x));
                    assert(s.take(k - 1 + 1).contains(x));
                } else {
                    assert(s.take(k as int)[k - 1] == x);
                }
            }
            if x < n && s.take(k as int).contains(x) {
                assert(s.take(k - 1 + 1).contains(x));
                if s.take(k - 1).contains(x) {
                    assert(rest.contains(x));
                    let i = choose|i: int| 0 <= i < rest.len() && rest[i] == x;
                    assert(all[i] == x);
                } else {
                    assert(all[all.len() - 1] == x);
                }
            }
        }
    }
}

/// Operation `v` consumes one of the first `k` tensors in `outputs`.
pub open spec fn takes_one_of(outputs: Seq<usize>, meta: Seq<TensorMeta>, k: int, v: usize) -> bool {
    exists|i: int|
        0 <= i < k && (#[trigger] outputs[i]) < meta.len() && meta[outputs[i] as int].consumers@.contains(v)
}

proof fn lemma_fed_by(outputs: Seq<usize>, meta: Seq<TensorMeta>, n: nat, k: nat)
    requires
        k <= outputs.len(),
    ensures
        forall|v: usize| #[trigger]
            fed_by(outputs, meta, n, k).contains(v) <==> v < n && takes_one_of(outputs, meta, k as int, v),
        forall|i: int| 0 <= i < fed_by(outputs, meta, n, k).len() ==> #[trigger] fed_by(outputs, meta, n, k)[i] < n,
    decreases k,
{
    if k > 0 {
        let rest = fed_by(outputs, meta, n, (k - 1) as nat);
        let all = fed_by(outputs, meta, n, k);
        let t = outputs[k - 1];
        lemma_fed_by(outputs, meta, n, (k - 1) as nat);
        if t < meta.len() {
            let consumers = meta[t as int].consumers@;
            let added = below(consumers, n, consumers.len());
            lemma_below(consumers, n, consumers.len());
            assert(consumers.take(consumers.len() as int) =~= consumers);
            assert forall|i: int| 0 <= i < all.len() implies #[trigger] all[i] < n by {
                if i < rest.len() {
                    assert(all[i] == rest[i]);
                } else {
                    assert(all[i] == added[i - rest.len()]);
                }
            }
            assert forall|v: usize| #[trigger] all.contains(v) <==> v < n && takes_one_of(outputs, meta, k as int, v) by {
                if all.contains(v) {
                    let i = choose|i: int| 0 <= i < all.len() && all[i] == v;
                    if i < rest.len() {
                        assert(rest[i] == v);
                        assert(rest.contains(v));
                    } else {
                        assert(added[i - rest.len()] == v);
                        assert(added.contains(v));
                        assert(outputs[k - 1] < meta.len());
                    }
                }
                if v < n && takes_one_of(outputs, meta, k as int, v) {
                    let i = choose|i: int|
                        0 <= i < k && (#[trigger] outputs[i]) < meta.len() && meta[outputs[i] as int].consumers@.contains(v);
                    if i < k - 1 {
                        assert(rest.contains(v));
                        let j = choose|j: int| 0 <= j < rest.len() && rest[j] == v;
                        assert(all[j] == v);
                    } else {
                        assert(added.contains(v));
                        let j = choose|j: int| 0 <= j < added.len() && added[j] == v;
                        assert(all[rest.len() + j] == v);
                    }
                }
            }
        } else {
            assert forall|v: usize| #[trigger] all.contains(v) <==> v < n && takes_one_of(outputs, meta, k as int, v) by {
                if takes_one_of(outputs, meta, k as int, v) {
                    let i = choose|i: int|
                        0 <= i < k && (#[trigger] outputs[i]) < meta.len() && meta[outputs[i] as int].consumers@.contains(v);
                    assert(i < k - 1);
                }
            }
        }
    }
}

/// The successor lists form a graph, with an edge wherever an output of one operation
/// is consumed by another.
pub proof fn successors_follow_tensors(ops: Seq<Op>, meta: Seq<TensorMeta>)
    ensures
        graph::is_graph(successors(ops, meta)),
        forall|u: usize, v: usize| #[trigger]
            graph::edge(successors(ops, meta), u, v) <==> u < ops.len() && v < ops.len() && takes_one_of(
                ops[u as int].outputs@,
                meta,
                ops[u as int].outputs@.len() as int,
                v,
            ),
{
    let g = successors(ops, meta);
    assert forall|u: int, k: int| 0 <= u < g.len() && 0 <= k < g[u].len() implies (#[trigger] g[u][k]) < g.len() by {
        lemma_fed_by(ops[u].outputs@, meta, ops.len(), ops[u].outputs@.len());
    }
    assert forall|u: usize, v: usize| #[trigger] graph::edge(g, u, v) <==> u < ops.len() && v < ops.len()
        && takes_one_of(ops[u as int].outputs@, meta, ops[u as int].outputs@.len() as int, v) by {
        if u < ops.len() {
            lemma_fed_by(ops[u as int].outputs@, meta, ops.len(), ops[u as int].outputs@.len());
        }
    }
}

/// Collects for each operation the consumers of its outputs.
pub fn successor_lists(problem: &Problem, meta: &[TensorMeta]) -> (downstream: Vec<Vec<OpId>>)
    ensures
        graph::lists(downstream@) == successors(problem.ops@, meta@),
{
    let n: usize = problem.ops.len();
    let mut downstream: Vec<Vec<OpId>> = Vec::new();
    let mut op_id: usize = 0;
    while op_id < n
        invariant
            op_id <= n,
            n == problem.ops.len(),
            downstream.len() == op_id,
            forall|i: int|
                0 <= i < op_id ==> (#[trigger] downstream@[i])@ == fed_by(
                    problem.ops@[i].outputs@,
                    meta@,
                    n as nat,
                    problem.ops@[i].outputs@.len(),
                ),
        decreases n - op_id,
    {
        let op: &Op = &problem.ops[op_id];
        let mut next: Vec<OpId> = Vec::new();
        let mut k: usize = 0;
        while k < op.outputs.len()
            invariant
                k <= op.outputs.len(),
                next@ == fed_by(op.outputs@, meta@, n as nat, k as nat),
            decreases op.outputs.len() - k,
        {
            let t: usize = op.outputs[k];
            if t < meta.len() {
                let ghost before = next@;
                let consumers: &Vec<OpId> = &meta[t].consumers;
                let mut j: usize = 0;
                while j < consumers.len()
                    invariant
                        j <= consumers.len(),
                        next@ == before + below(consumers@, n as nat, j as nat),
                    decreases consumers.len() - j,
                {
                    let consumer: usize = consumers[j];
                    if consumer < n {
                        next.push(consumer);
                        assert(next@ =~= before + below(consumers@, n as nat, (j + 1) as nat));
                    }
                    j = j + 1;
                }
            }
            k = k + 1;
        }
        downstream.push(next);
        op_id = op_id + 1;
    }
    assert(graph::lists(downstream@) =~= successors(problem.ops@, meta@));
    downstream
}

/// The operations in an order in which they can run.
pub open spec fn run_order(ops: Seq<Op>, meta: Seq<TensorMeta>) -> Seq<usize> {
    graph::release_order(successors(ops, meta))
}

/// Puts the operations in an order in which they can run.
pub fn order_ops(problem: &Problem, meta: &[TensorMeta]) -> (order: Vec<OpId>)
    ensures
        order@ == run_order(problem.ops@, meta@),
        graph::is_topological(successors(problem.ops@, meta@), order@),
        order.len() <= problem.ops.len(),
{
    let downstream: Vec<Vec<OpId>> = successor_lists(problem, meta);
    proof {
        successors_follow_tensors(problem.ops@, meta@);
        graph::order_is_topological(successors(problem.ops@, meta@));
    }
    graph::order_vertices(&downstream)
}

/// In the run order an operation comes after every operation that puts out a tensor it takes in.
pub proof fn operations_follow_their_inputs(problem: Problem, meta: Seq<TensorMeta>, i: int, from: usize, t: usize)
    requires
        problem.has_meta(meta),
        0 <= i < run_order(problem.ops@, meta).len(),
        from < problem.ops@.len(),
        problem.ops@[from as int].outputs@.contains(t),
        t < problem.tensors@.len(),
        problem.ops@[run_order(problem.ops@, meta)[i] as int].inputs@.contains(t),
    ensures
        run_order(problem.ops@, meta).take(i).contains(from),
{
    let ops = problem.ops@;
    let g = successors(ops, meta);
    let q = run_order(ops, meta);
    assert(ops.len() == problem.ops.len());
    successors_follow_tensors(ops, meta);
    graph::order_is_topological(g);
    let to = q[i];
    crate::models::meta_matches_ops(ops, t, ops.len(), to);
    let outs = ops[from as int].outputs@;
    let k = choose|k: int| 0 <= k < outs.len() && outs[k] == t;
    assert(meta[outs[k] as int].describes(ops, t));
    assert(takes_one_of(outs, meta, outs.len() as int, to));
    assert(graph::edge(g, from, to));
    assert(graph::preceded(g, q, i));
}

/// The producers of the first `k` tensors in `inputs`, as far as they are among `n` operations.
pub open spec fn made_by(inputs: Seq<usize>, meta: Seq<TensorMeta>, n: nat, k: nat) -> Seq<usize>
    decreases k,
{
    if k == 0 {
        Seq::empty()
    } else {
        let rest = made_by(inputs, meta, n, (k - 1) as nat);
        let t = inputs[k - 1];
        if t < meta.len() {
            match meta[t as int].producer {
                Some(p) => if p < n { rest.push(p) } else { rest },
                None => rest,
            }
        } else {
            rest
        }
    }
}

/// For each operation the operations that produce its inputs, once for each mention.
pub open spec fn predecessors(ops: Seq<Op>, meta: Seq<TensorMeta>) -> Seq<Seq<usize>> {
    Seq::new(ops.len(), |i: int| made_by(ops[i].inputs@, meta, ops.len(), ops[i].inputs@.len()))
}

proof fn lemma_made_by(inputs: Seq<usize>, meta: Seq<TensorMeta>, n: nat, k: nat)
    requires
        k <= inputs.len(),
    ensures
        forall|i: int| 0 <= i < made_by(inputs, meta, n, k).len() ==> #[trigger] made_by(inputs, meta, n, k)[i] < n,
    decreases k,
{
    if k > 0 {
        lemma_made_by(inputs, meta, n, (k - 1) as nat);
        let rest = made_by(inputs, meta, n, (k - 1) as nat);
        let all = made_by(inputs, meta, n, k);
        assert forall|i: int| 0 <= i < all.len() implies #[trigger] all[i] < n by {
            if i < rest.len() {
                assert(all[i] == rest[i]);
            }
        }
    }
}

/// The predecessor lists form a graph.
pub proof fn lemma_predecessors_are_a_graph(ops: Seq<Op>, meta: Seq<TensorMeta>)
    ensures
        graph::is_graph(predecessors(ops, meta)),
{
    let g = predecessors(ops, meta);
    assert forall|u: int, k: int| 0 <= u < g.len() && 0 <= k < g[u].len() implies (#[trigger] g[u][k]) < g.len() by {
        lemma_made_by(ops[u].inputs@, meta, ops.len(), ops[u].inputs@.len());
    }
}

/// Collects for each operation the producers of its inputs.
pub fn predecessor_lists(problem: &Problem, meta: &[TensorMeta]) -> (upstream: Vec<Vec<OpId>>)
    ensures
        graph::lists(upstream@) == predecessors(problem.ops@, meta@),
        graph::is_graph(graph::lists(upstream@)),
{
    let n: usize = problem.ops.len();
    let mut upstream: Vec<Vec<OpId>> = Vec::new();
    let mut op_id: usize = 0;
    while op_id < n
        invariant
            op_id <= n,
            n == problem.ops.len(),
            upstream.len() == op_id,
            forall|i: int|
                0 <= i < op_id ==> (#[trigger] upstream@[i])@ == made_by(
                    problem.ops@[i].inputs@,
                    meta@,
                    n as nat,
                    problem.ops@[i].inputs@.len(),
                ),
        decreases n - op_id,
    {
        let op: &Op = &problem.ops[op_id];
        let mut before: Vec<OpId> = Vec::new();
        let mut k: usize = 0;
        while k < op.inputs.len()
            invariant
                k <= op.inputs.len(),
                before@ == made_by(op.inputs@, meta@, n as nat, k as nat),
            decreases op.inputs.len() - k,
        {
            let t: usize = op.inputs[k];
            if t < meta.len() {
                if let Some(p) = meta[t].producer {
                    if p < n {
                        before.push(p);
                    }
                }
            }
            k = k + 1;
        }
        upstream.push(before);
        op_id = op_id + 1;
    }
    assert(graph::lists(upstream@) =~= predecessors(problem.ops@, meta@));
    proof {
        lemma_predecessors_are_a_graph(problem.ops@, meta@);
    }
    upstream
}

} // verus!
