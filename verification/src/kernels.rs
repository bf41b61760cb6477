//! Groups of operations that run as one kernel: chains of pointwise operations, matrix
//! products with pointwise epilogues, and small operations packed together.
use std::collections::HashSet;
use vstd::prelude::*;
use crate::arith;
use crate::components;
use crate::dataflow;
use crate::graph;
use crate::ids;
use crate::memory;
use crate::memory::Border;
use crate::models::{Op, OpId, OpType, Problem, TensorId, TensorMeta};

verus! {

/// A group of pointwise operations that exchange tensors.
#[derive(Debug)]
pub struct PointwiseChain {
    /// The operations, in ascending order.
    pub ops: Vec<OpId>,
    /// The tensors that the chain takes in from outside.
    pub external_inputs: HashSet<TensorId>,
    /// The tensors that are needed outside the chain.
    pub external_outputs: HashSet<TensorId>,
    /// The tensors that live only inside the chain.
    pub intermediates: HashSet<TensorId>,
    /// The cost of all operations of the chain.
    pub total_base_cost: i64,
}

/// The pointwise operations among the first `k` listed, in order.
pub open spec fn pointwise_among(ops: Seq<Op>, listed: Seq<OpId>, k: nat) -> Seq<OpId>
    decreases k,
{
    if k == 0 {
        Seq::empty()
    } else {
        let rest = pointwise_among(ops, listed, (k - 1) as nat);
        if ops[listed[k - 1] as int].op_type == OpType::Pointwise {
            rest.push(listed[k - 1])
        } else {
            rest
        }
    }
}

/// The pointwise operations that take in an output of the operation or put out one of its
/// inputs; none if it is not pointwise itself.
pub open spec fn neighbours(p: Problem, meta: Seq<TensorMeta>, op: int) -> Seq<OpId> {
    if p.ops@[op].op_type == OpType::Pointwise {
        let after = dataflow::successors(p.ops@, meta)[op];
        let before = dataflow::predecessors(p.ops@, meta)[op];
        pointwise_among(p.ops@, after, after.len()) + pointwise_among(p.ops@, before, before.len())
    } else {
        Seq::empty()
    }
}

/// The graph of pointwise operations.
pub open spec fn links(p: Problem, meta: Seq<TensorMeta>) -> Seq<Seq<OpId>> {
    Seq::new(p.ops@.len(), |op: int| neighbours(p, meta, op))
}

/// Which operations are pointwise.
pub open spec fn pointwise_flags(p: Problem) -> Seq<bool> {
    Seq::new(p.ops@.len(), |op: int| p.ops@[op].op_type == OpType::Pointwise)
}

/// Operation `op` is in the chain of `first`: that is the first pointwise operation from
/// which the links lead to `op`.
pub open spec fn in_chain_of(p: Problem, meta: Seq<TensorMeta>, first: usize, op: usize) -> bool {
    &&& first < p.ops@.len()
    &&& components::is_owner(
        links(p, meta),
        pointwise_flags(p),
        p.ops@.len() as int,
        op,
        first,
        p.ops@.len() as usize,
    )
}

/// The cost of those of the first `m` operations that are in the chain of `first`.
pub open spec fn chain_cost(p: Problem, meta: Seq<TensorMeta>, first: usize, m: nat) -> int
    decreases m,
{
    if m == 0 {
        0
    } else {
        chain_cost(p, meta, first, (m - 1) as nat) + if in_chain_of(p, meta, first, (m - 1) as usize) {
            p.ops@[m - 1].base_cost as int
        } else {
            0
        }
    }
}

impl PointwiseChain {
    /// This is the chain of `first`.
    pub open spec fn is_of(&self, p: Problem, meta: Seq<TensorMeta>, first: usize) -> bool {
        &&& components::ascending(self.ops@)
        &&& forall|op: usize| #[trigger]
            self.ops@.contains(op) <==> op < p.ops@.len() && in_chain_of(p, meta, first, op)
        &&& forall|t: usize| #[trigger]
            self.external_inputs@.contains(t) <==> memory::external_inputs(self.ops@, p, meta).contains(t)
        &&& forall|t: usize| #[trigger]
            self.external_outputs@.contains(t) <==> memory::external_outputs(self.ops@, p, meta).contains(t)
        &&& forall|t: usize| #[trigger]
            self.intermediates@.contains(t) <==> memory::intermediates(self.ops@, p, meta).contains(t)
        &&& self.total_base_cost == chain_cost(p, meta, first, p.ops@.len())
    }
}

/// One of the chains begins with `first`.
pub open spec fn some_chain_begins(chains: Seq<PointwiseChain>, first: usize) -> bool {
    exists|i: int| 0 <= i < chains.len() && (#[trigger] chains[i]).ops@[0] == first
}

/// These are the chains of more than one operation, ordered by their first operations,
/// as far as those are among the first `m`.
pub open spec fn are_chains(chains: Seq<PointwiseChain>, p: Problem, meta: Seq<TensorMeta>, m: int) -> bool {
    &&& forall|i: int|
        0 <= i < chains.len() ==> (#[trigger] chains[i]).ops@.len() >= 2 && chains[i].ops@[0] < m && chains[i].is_of(
            p,
            meta,
            chains[i].ops@[0],
        )
    &&& forall|i: int, j: int|
        0 <= i < j < chains.len() ==> (#[trigger] chains[i]).ops@[0] < (#[trigger] chains[j]).ops@[0]
    &&& forall|first: usize, op: usize|
        first < m && op < p.ops@.len() && op != first && #[trigger] in_chain_of(p, meta, first, op)
            ==> some_chain_begins(chains, first)
}

proof fn lemma_pointwise_among(ops: Seq<Op>, listed: Seq<OpId>, k: nat, n: nat)
    requires
        k <= listed.len(),
        forall|i: int| 0 <= i < listed.len() ==> #[trigger] listed[i] < n,
    ensures
        forall|i: int| 0 <= i < pointwise_among(ops, listed, k).len() ==> #[trigger] pointwise_among(ops, listed, k)[i] < n,
    decreases k,
{
    if k > 0 {
        lemma_pointwise_among(ops, listed, (k - 1) as nat, n);
        let rest = pointwise_among(ops, listed, (k - 1) as nat);
        let all = pointwise_among(ops, listed, k);
        assert forall|i: int| 0 <= i < all.len() implies #[trigger] all[i] < n by {
            if i < rest.len() {
                assert(all[i] == rest[i]);
            }
        }
    }
}

proof fn lemma_links_are_a_graph(p: Problem, meta: Seq<TensorMeta>)
    ensures
        graph::is_graph(links(p, meta)),
{
    let g = links(p, meta);
    let next = dataflow::successors(p.ops@, meta);
    let prev = dataflow::predecessors(p.ops@, meta);
    dataflow::successors_follow_tensors(p.ops@, meta);
    dataflow::lemma_predecessors_are_a_graph(p.ops@, meta);
    assert forall|u: int, k: int| 0 <= u < g.len() && 0 <= k < g[u].len() implies (#[trigger] g[u][k]) < g.len() by {
        if p.ops@[u].op_type == OpType::Pointwise {
            assert forall|i: int| 0 <= i < next[u].len() implies #[trigger] next[u][i] < g.len() by {
            }
            assert forall|i: int| 0 <= i < prev[u].len() implies #[trigger] prev[u][i] < g.len() by {
            }
            lemma_pointwise_among(p.ops@, next[u], next[u].len(), g.len());
            lemma_pointwise_among(p.ops@, prev[u], prev[u].len(), g.len());
            let a = pointwise_among(p.ops@, next[u], next[u].len());
            if k < a.len() {
                assert(g[u][k] == a[k]);
            } else {
                assert(g[u][k] == pointwise_among(p.ops@, prev[u], prev[u].len())[k - a.len()]);
            }
        }
    }
}

/// Appends the pointwise operations of a list.
fn append_pointwise(problem: &Problem, listed: &Vec<OpId>, found: &mut Vec<OpId>)
    requires
        forall|i: int| 0 <= i < listed.len() ==> #[trigger] listed@[i] < problem.ops@.len(),
    ensures
        final(found)@ == old(found)@ + pointwise_among(problem.ops@, listed@, listed@.len()),
{
    let ghost before = found@;
    let mut i: usize = 0;
    while i < listed.len()
        invariant
            i <= listed.len(),
            forall|i: int| 0 <= i < listed.len() ==> #[trigger] listed@[i] < problem.ops@.len(),
            found@ == before + pointwise_among(problem.ops@, listed@, i as nat),
        decreases listed.len() - i,
    {
        let op: OpId = listed[i];
        assert(listed@[i as int] < problem.ops@.len());
        if problem.ops[op].op_type == OpType::Pointwise {
            found.push(op);
            assert(found@ =~= before + pointwise_among(problem.ops@, listed@, (i + 1) as nat));
        }
        i = i + 1;
    }
}

/// Builds the graph of pointwise operations.
fn link_lists(problem: &Problem, tensor_meta: &[TensorMeta]) -> (lists: Vec<Vec<OpId>>)
    ensures
        graph::lists(lists@) == links(*problem, tensor_meta@),
        graph::is_graph(graph::lists(lists@)),
{
    let n: usize = problem.ops.len();
    let ghost p = *problem;
    let ghost meta = tensor_meta@;
    let downstream: Vec<Vec<OpId>> = dataflow::successor_lists(problem, tensor_meta);
    let upstream: Vec<Vec<OpId>> = dataflow::predecessor_lists(problem, tensor_meta);
    let ghost next = dataflow::successors(p.ops@, meta);
    let ghost prev = dataflow::predecessors(p.ops@, meta);
    proof {
        dataflow::successors_follow_tensors(p.ops@, meta);
        dataflow::lemma_predecessors_are_a_graph(p.ops@, meta);
        assert(graph::lists(downstream@).len() == n);
        assert(graph::lists(upstream@).len() == n);
    }
    let mut lists: Vec<Vec<OpId>> = Vec::new();
    let mut op: usize = 0;
    while op < n
        invariant
            op <= n,
            n == p.ops@.len(),
            p == *problem,
            meta == tensor_meta@,
            next == dataflow::successors(p.ops@, meta),
            prev == dataflow::predecessors(p.ops@, meta),
            graph::lists(downstream@) == next,
            graph::lists(upstream@) == prev,
            downstream.len() == n,
            upstream.len() == n,
            graph::is_graph(next),
            graph::is_graph(prev),
            lists.len() == op,
            forall|i: int| 0 <= i < op ==> (#[trigger] lists@[i])@ == neighbours(p, meta, i),
        decreases n - op,
    {
        let mut near: Vec<OpId> = Vec::new();
        if problem.ops[op].op_type == OpType::Pointwise {
            proof {
                assert(next[op as int] == downstream@[op as int]@);
                assert(prev[op as int] == upstream@[op as int]@);
                assert forall|i: int| 0 <= i < downstream@[op as int].len() implies #[trigger] downstream@[op as int]@[i]
                    < n by {
                    assert(next[op as int][i] < next.len());
                }
                assert forall|i: int| 0 <= i < upstream@[op as int].len() implies #[trigger] upstream@[op as int]@[i] < n by {
                    assert(prev[op as int][i] < prev.len());
                }
            }
            append_pointwise(problem, &downstream[op], &mut near);
            append_pointwise(problem, &upstream[op], &mut near);
        }
        assert(near@ =~= neighbours(p, meta, op as int));
        lists.push(near);
        op = op + 1;
    }
    assert(graph::lists(lists@) =~= links(p, meta));
    proof {
        lemma_links_are_a_graph(p, meta);
    }
    lists
}

/// Every operation in a chain comes no earlier than the first, which is in the chain itself.
proof fn lemma_first_leads(p: Problem, meta: Seq<TensorMeta>, first: usize, op: usize)
    requires
        op < p.ops@.len(),
        in_chain_of(p, meta, first, op),
        p.ops@.len() <= usize::MAX,
    ensures
        first <= op,
        in_chain_of(p, meta, first, first),
{
    let g = links(p, meta);
    let flags = pointwise_flags(p);
    components::lemma_owner_owns_itself(g, flags, p.ops@.len() as int, op, first, p.ops@.len() as usize);
    if op < first {
        // The links lead to pointwise operations only, and each leads to itself.
        lemma_reached_is_pointwise(p, meta, first, op);
        components::lemma_connected_refl(g, op);
        assert(flags[op as int]);
        assert(components::connected(g, op, op));
    }
}

/// The links lead from pointwise operations to pointwise operations.
proof fn lemma_reached_is_pointwise(p: Problem, meta: Seq<TensorMeta>, first: usize, op: usize)
    requires
        first < p.ops@.len(),
        pointwise_flags(p)[first as int],
        components::connected(links(p, meta), first, op),
    ensures
        op < p.ops@.len(),
        pointwise_flags(p)[op as int],
{
    let g = links(p, meta);
    let flags = pointwise_flags(p);
    let path = choose|path: Seq<usize>| components::joins(g, first, op, path);
    let inside = Set::new(|v: usize| v < p.ops@.len() && flags[v as int]);
    lemma_links_are_a_graph(p, meta);
    assert forall|a: usize, b: usize| #[trigger] graph::edge(g, a, b) && inside.contains(a) && b < g.len() implies
        inside.contains(b) by {
        let next = dataflow::successors(p.ops@, meta)[a as int];
        let prev = dataflow::predecessors(p.ops@, meta)[a as int];
        lemma_only_pointwise(p.ops@, next, next.len());
        lemma_only_pointwise(p.ops@, prev, prev.len());
        let x = pointwise_among(p.ops@, next, next.len());
        let y = pointwise_among(p.ops@, prev, prev.len());
        let k = choose|k: int| 0 <= k < g[a as int].len() && g[a as int][k] == b;
        if k < x.len() {
            assert(x[k] == b);
        } else {
            assert(y[k - x.len()] == b);
        }
    }
    components::lemma_closed_holds_path(g, inside, path, path.len() - 1);
}

proof fn lemma_only_pointwise(ops: Seq<Op>, listed: Seq<OpId>, k: nat)
    requires
        k <= listed.len(),
    ensures
        forall|i: int|
            0 <= i < pointwise_among(ops, listed, k).len() ==> ops[#[trigger] pointwise_among(
                ops,
                listed,
                k,
            )[i] as int].op_type == OpType::Pointwise,
    decreases k,
{
    if k > 0 {
        lemma_only_pointwise(ops, listed, (k - 1) as nat);
        let rest = pointwise_among(ops, listed, (k - 1) as nat);
        let all = pointwise_among(ops, listed, k);
        assert forall|i: int| 0 <= i < all.len() implies ops[#[trigger] all[i] as int].op_type == OpType::Pointwise by {
            if i < rest.len() {
                assert(all[i] == rest[i]);
            }
        }
    }
}

/// An operation is in one chain only.
pub proof fn chains_do_not_overlap(p: Problem, meta: Seq<TensorMeta>, one: usize, two: usize, op: usize)
    requires
        in_chain_of(p, meta, one, op),
        in_chain_of(p, meta, two, op),
        p.ops@.len() <= usize::MAX,
    ensures
        one == two,
{
    let g = links(p, meta);
    if one < two {
        assert(components::connected(g, one, op));
    }
    if two < one {
        assert(components::connected(g, two, op));
    }
}

/// Collects the operations that `first` owns.
fn collect_owned(owner: &Vec<usize>, first: usize) -> (ops: Vec<OpId>)
    ensures
        components::ascending(ops@),
        forall|op: usize| #[trigger] ops@.contains(op) <==> op < owner.len() && owner@[op as int] == first,
{
    let mut ops: Vec<OpId> = Vec::new();
    let mut v: usize = 0;
    while v < owner.len()
        invariant
            v <= owner.len(),
            components::ascending(ops@),
            forall|op: usize| #[trigger] ops@.contains(op) <==> op < v && owner@[op as int] == first,
        decreases owner.len() - v,
    {
        if owner[v] == first {
            let ghost before = ops@;
            proof {
                ids::lemma_push_contains(before, v);
                assert forall|i: int| 0 <= i < before.len() implies #[trigger] before[i] < v by {
                    assert(before.contains(before[i]));
                }
            }
            ops.push(v);
            assert(components::ascending(ops@)) by {
                assert forall|i: int, j: int| 0 <= i < j < ops@.len() implies ops@[i] < ops@[j] by {
                    if j < before.len() {
                        assert(ops@[i] == before[i] && ops@[j] == before[j]);
                    }
                }
            }
        }
        v = v + 1;
    }
    ops
}

/// Adds up the cost of the operations in a chain.
fn add_chain_cost(problem: &Problem, owner: &Vec<usize>, first: usize, Ghost(meta): Ghost<Seq<TensorMeta>>) -> (cost: i64)
    requires
        first < problem.ops@.len(),
        owner.len() == problem.ops@.len(),
        forall|op: usize|
            op < owner.len() ==> (#[trigger] owner@[op as int] == first <==> in_chain_of(*problem, meta, first, op)),
        arith::fits(chain_cost(*problem, meta, first, problem.ops@.len())),
    ensures
        cost == chain_cost(*problem, meta, first, problem.ops@.len()),
{
    let n: usize = problem.ops.len();
    let mut cost: i128 = 0;
    let mut v: usize = 0;
    while v < n
        invariant
            v <= n,
            n == problem.ops@.len(),
            owner.len() == n,
            forall|op: usize|
                op < n ==> (#[trigger] owner@[op as int] == first <==> in_chain_of(*problem, meta, first, op)),
            cost == chain_cost(*problem, meta, first, v as nat),
            -(v * 0x8000_0000_0000_0000) <= cost <= v * 0x8000_0000_0000_0000,
        decreases n - v,
    {
        assert(v * 0x8000_0000_0000_0000 <= 0xffff_ffff_ffff_ffff * 0x8000_0000_0000_0000) by (nonlinear_arith)
            requires
                v <= 0xffff_ffff_ffff_ffff,
        ;
        assert(owner@[v as int] == first <==> in_chain_of(*problem, meta, first, v));
        if owner[v] == first {
            cost = cost + problem.ops[v].base_cost as i128;
        }
        v = v + 1;
    }
    cost as i64
}

/// Two owners of the same operation are the same.
proof fn lemma_owner_is_chain(p: Problem, meta: Seq<TensorMeta>, owner: usize, first: usize, op: usize)
    requires
        op < p.ops@.len(),
        p.ops@.len() <= usize::MAX,
        first < p.ops@.len(),
        components::is_owner(
            links(p, meta),
            pointwise_flags(p),
            p.ops@.len() as int,
            op,
            owner,
            p.ops@.len() as usize,
        ),
    ensures
        owner == first <==> in_chain_of(p, meta, first, op),
{
    let g = links(p, meta);
    if in_chain_of(p, meta, first, op) {
        assert(components::connected(g, first, op));
        if owner < first {
            assert(components::connected(g, owner, op));
        }
    }
}

/// Finds the groups of at least two pointwise operations that exchange tensors.
pub fn find_pointwise_chains(problem: &Problem, tensor_meta: &[TensorMeta]) -> (chains: Vec<PointwiseChain>)
    requires
        forall|first: usize|
            first < problem.ops@.len() ==> arith::fits(
                #[trigger] chain_cost(*problem, tensor_meta@, first, problem.ops@.len()),
            ),
    ensures
        are_chains(chains@, *problem, tensor_meta@, problem.ops@.len() as int),
{
    let n: usize = problem.ops.len();
    let ghost p = *problem;
    let ghost meta = tensor_meta@;
    let lists: Vec<Vec<OpId>> = link_lists(problem, tensor_meta);
    let mut flags: Vec<bool> = Vec::new();
    let mut i: usize = 0;
    while i < n
        invariant
            i <= n,
            n == p.ops@.len(),
            p == *problem,
            flags.len() == i,
            forall|j: int| 0 <= j < i ==> #[trigger] flags@[j] == (p.ops@[j].op_type == OpType::Pointwise),
        decreases n - i,
    {
        flags.push(problem.ops[i].op_type == OpType::Pointwise);
        i = i + 1;
    }
    assert(flags@ =~= pointwise_flags(p));
    assert(graph::lists(lists@).len() == n);
    let owner: Vec<usize> = components::find_owners(&lists, &flags);
    let mut chains: Vec<PointwiseChain> = Vec::new();
    let mut first: usize = 0;
    while first < n
        invariant
            first <= n,
            n == p.ops@.len(),
            p == *problem,
            meta == tensor_meta@,
            owner.len() == n,
            forall|first: usize|
                first < n ==> arith::fits(#[trigger] chain_cost(p, meta, first, p.ops@.len())),
            forall|v: usize|
                v < n ==> #[trigger] components::is_owner(
                    links(p, meta),
                    pointwise_flags(p),
                    n as int,
                    v,
                    owner@[v as int],
                    n,
                ),
            are_chains(chains@, p, meta, first as int),
        decreases n - first,
    {
        proof {
            assert forall|op: usize| op < n implies (#[trigger] owner@[op as int] == first <==> in_chain_of(
                p,
                meta,
                first,
                op,
            )) by {
                assert(components::is_owner(links(p, meta), pointwise_flags(p), n as int, op, owner@[op as int], n));
                lemma_owner_is_chain(p, meta, owner@[op as int], first, op);
            }
        }
        let ops: Vec<OpId> = collect_owned(&owner, first);
        let ghost before = chains@;
        if ops.len() >= 2 {
            proof {
                lemma_chain_begins(p, meta, first, ops@);
            }
            let border: Border = memory::find_border(ops.as_slice(), problem, tensor_meta);
            let total_base_cost: i64 = add_chain_cost(problem, &owner, first, Ghost(meta));
            let chain: PointwiseChain = PointwiseChain {
                external_inputs: ids::set_of(border.inputs.as_slice()),
                external_outputs: ids::set_of(border.outputs.as_slice()),
                intermediates: ids::set_of(border.inside.as_slice()),
                ops,
                total_base_cost,
            };
            chains.push(chain);
            proof {
                assert(chain.is_of(p, meta, first));
                assert forall|i: int| 0 <= i < chains@.len() implies (#[trigger] chains@[i]).ops@.len() >= 2
                    && chains@[i].ops@[0] < first + 1 && chains@[i].is_of(p, meta, chains@[i].ops@[0]) by {
                    if i < before.len() {
                        assert(chains@[i] == before[i]);
                    }
                }
                assert forall|i: int, j: int| 0 <= i < j < chains@.len() implies (#[trigger] chains@[i]).ops@[0] < (
                #[trigger] chains@[j]).ops@[0] by {
                    assert(chains@[i] == before[i]);
                    if j < before.len() {
                        assert(chains@[j] == before[j]);
                    }
                }
                assert forall|one: usize, op: usize|
                    one < first + 1 && op < p.ops@.len() && op != one && #[trigger] in_chain_of(
                        p,
                        meta,
                        one,
                        op,
                    ) implies some_chain_begins(chains@, one) by {
                    if one < first {
                        assert(some_chain_begins(before, one));
                        let i = choose|i: int| 0 <= i < before.len() && (#[trigger] before[i]).ops@[0] == one;
                        assert(chains@[i].ops@[0] == one);
                    } else {
                        assert(chains@[before.len() as int].ops@[0] == one);
                    }
                }
            }
        } else {
            proof {
                assert forall|one: usize, op: usize|
                    one < first + 1 && op < p.ops@.len() && op != one && #[trigger] in_chain_of(
                        p,
                        meta,
                        one,
                        op,
                    ) implies some_chain_begins(chains@, one) by {
                    if one == first {
                        lemma_first_leads(p, meta, one, op);
                        assert(ops@.contains(op));
                        assert(owner@[one as int] == first);
                        assert(ops@.contains(one));
                        let i = choose|i: int| 0 <= i < ops@.len() && ops@[i] == op;
                        let j = choose|j: int| 0 <= j < ops@.len() && ops@[j] == one;
                    }
                }
            }
        }
        first = first + 1;
    }
    chains
}

/// The chain of `first` begins with it.
proof fn lemma_chain_begins(p: Problem, meta: Seq<TensorMeta>, first: usize, ops: Seq<OpId>)
    requires
        p.ops@.len() <= usize::MAX,
        ops.len() > 0,
        components::ascending(ops),
        forall|op: usize| #[trigger] ops.contains(op) <==> op < p.ops@.len() && in_chain_of(p, meta, first, op),
    ensures
        ops[0] == first,
        forall|i: int| 0 <= i < ops.len() ==> #[trigger] ops[i] < p.ops@.len(),
{
    assert(ops.contains(ops[0]));
    lemma_first_leads(p, meta, first, ops[0]);
    assert(ops.contains(first));
    assert forall|i: int| 0 <= i < ops.len() implies #[trigger] ops[i] < p.ops@.len() by {
        assert(ops.contains(ops[i]));
    }
}

/// A matrix product with the pointwise operations that run in its epilogue.
#[derive(Debug, Clone)]
pub struct FusedKernel {
    pub matmul_op: OpId,
    /// The pointwise operations, in the order in which they were found.
    pub epilogue_ops: Vec<OpId>,
    /// The cost of the product and its epilogue.
    pub combined_cost: i64,
    /// What is saved by not setting up each pointwise operation.
    pub setup_cycles_saved: i64,
}

/// The cycles that setting up an operation takes.
pub const SETUP_CYCLES: i64 = 25;

/// A kernel in the making: what is fused already, the epilogue, and the outputs to go on from.
#[verifier::ext_equal]
pub struct FusionModel {
    pub visited: Set<OpId>,
    pub epilogue: Seq<OpId>,
    pub next: Seq<TensorId>,
}

/// Those of the first `k` consumers that are pointwise and not fused yet.
pub open spec fn free_consumers(ops: Seq<Op>, consumers: Seq<OpId>, visited: Set<OpId>, k: nat) -> Seq<OpId>
    decreases k,
{
    if k == 0 {
        Seq::empty()
    } else {
        let rest = free_consumers(ops, consumers, visited, (k - 1) as nat);
        let c = consumers[k - 1];
        if c < ops.len() && ops[c as int].op_type == OpType::Pointwise && !visited.contains(c) {
            rest.push(c)
        } else {
            rest
        }
    }
}

/// One round: the first `k` of the outputs are looked at, and whichever has a single
/// free consumer takes it into the epilogue.
pub open spec fn fused_over(p: Problem, meta: Seq<TensorMeta>, st: FusionModel, outputs: Seq<TensorId>, k: nat) -> FusionModel
    decreases k,
{
    if k == 0 {
        FusionModel { next: Seq::empty(), ..st }
    } else {
        let before = fused_over(p, meta, st, outputs, (k - 1) as nat);
        let t = outputs[k - 1];
        if t < meta.len() {
            let consumers = meta[t as int].consumers@;
            let free = free_consumers(p.ops@, consumers, before.visited, consumers.len());
            if free.len() == 1 {
                FusionModel {
                    visited: before.visited.insert(free[0]),
                    epilogue: before.epilogue.push(free[0]),
                    next: before.next + p.ops@[free[0] as int].outputs@,
                }
            } else {
                before
            }
        } else {
            before
        }
    }
}

/// The kernel after `r` rounds.
pub open spec fn fused_rounds(p: Problem, meta: Seq<TensorMeta>, st: FusionModel, r: nat) -> FusionModel
    decreases r,
{
    if r == 0 {
        st
    } else {
        let before = fused_rounds(p, meta, st, (r - 1) as nat);
        fused_over(p, meta, before, before.next, before.next.len())
    }
}

/// The kernel of a matrix product, grown until nothing more can be fused: that takes at
/// most as many rounds as there are operations.
pub open spec fn grown_kernel(p: Problem, meta: Seq<TensorMeta>, visited: Set<OpId>, matmul: int) -> FusionModel {
    fused_rounds(
        p,
        meta,
        FusionModel { visited, epilogue: Seq::empty(), next: p.ops@[matmul].outputs@ },
        p.ops@.len(),
    )
}

/// The kernels found so far.
#[verifier::ext_equal]
pub struct KernelsModel {
    pub visited: Set<OpId>,
    /// Each matrix product with its epilogue.
    pub kernels: Seq<(OpId, Seq<OpId>)>,
}

/// The kernels of the matrix products among the first `m` operations.
pub open spec fn kernels_after(p: Problem, meta: Seq<TensorMeta>, m: nat) -> KernelsModel
    decreases m,
{
    if m == 0 {
        KernelsModel { visited: Set::empty(), kernels: Seq::empty() }
    } else {
        let before = kernels_after(p, meta, (m - 1) as nat);
        let op = (m - 1) as usize;
        if p.ops@[m - 1].op_type == OpType::MatMul && !before.visited.contains(op) {
            let done = grown_kernel(p, meta, before.visited, m - 1);
            if done.epilogue.len() > 0 {
                KernelsModel {
                    visited: done.visited.insert(op),
                    kernels: before.kernels.push((op, done.epilogue)),
                }
            } else {
                before
            }
        } else {
            before
        }
    }
}

/// The cost of the listed operations.
pub open spec fn cost_of(ops: Seq<Op>, listed: Seq<OpId>) -> int {
    arith::sum(listed.map_values(|op: usize| ops[op as int].base_cost as int))
}

/// The cost of a kernel.
pub open spec fn kernel_cost(p: Problem, kernel: (OpId, Seq<OpId>)) -> int {
    p.ops@[kernel.0 as int].base_cost + cost_of(p.ops@, kernel.1)
}

impl FusedKernel {
    /// This is the kernel.
    pub open spec fn is_of(&self, p: Problem, kernel: (OpId, Seq<OpId>)) -> bool {
        &&& self.matmul_op == kernel.0
        &&& self.epilogue_ops@ == kernel.1
        &&& self.combined_cost == kernel_cost(p, kernel)
        &&& self.setup_cycles_saved == SETUP_CYCLES * kernel.1.len()
    }
}

/// The epilogue holds distinct pointwise operations, all noted as fused, none of them fused at the start.
pub open spec fn sound_fusion(p: Problem, start: Set<OpId>, st: FusionModel) -> bool {
    &&& st.epilogue.no_duplicates()
    &&& forall|i: int|
        0 <= i < st.epilogue.len() ==> (#[trigger] st.epilogue[i]) < p.ops@.len() && p.ops@[st.epilogue[i] as int].op_type
            == OpType::Pointwise && !start.contains(st.epilogue[i]) && st.visited.contains(st.epilogue[i])
    &&& forall|op: usize| #[trigger] st.visited.contains(op) <==> start.contains(op) || st.epilogue.contains(op)
}

proof fn lemma_free_consumers(ops: Seq<Op>, consumers: Seq<OpId>, visited: Set<OpId>, k: nat)
    requires
        k <= consumers.len(),
    ensures
        forall|i: int|
            0 <= i < free_consumers(ops, consumers, visited, k).len() ==> {
                let c = #[trigger] free_consumers(ops, consumers, visited, k)[i];
                c < ops.len() && ops[c as int].op_type == OpType::Pointwise && !visited.contains(c)
            },
    decreases k,
{
    if k > 0 {
        lemma_free_consumers(ops, consumers, visited, (k - 1) as nat);
        let rest = free_consumers(ops, consumers, visited, (k - 1) as nat);
        let all = free_consumers(ops, consumers, visited, k);
        assert forall|i: int| 0 <= i < all.len() implies ({
            let c = #[trigger] all[i];
            c < ops.len() && ops[c as int].op_type == OpType::Pointwise && !visited.contains(c)
        }) by {
            if i < rest.len() {
                assert(all[i] == rest[i]);
            }
        }
    }
}

proof fn lemma_fused_over(
    p: Problem,
    meta: Seq<TensorMeta>,
    start: Set<OpId>,
    st: FusionModel,
    outputs: Seq<TensorId>,
    k: nat,
)
    requires
        k <= outputs.len(),
        sound_fusion(p, start, st),
    ensures
        sound_fusion(p, start, fused_over(p, meta, st, outputs, k)),
        st.epilogue.len() <= fused_over(p, meta, st, outputs, k).epilogue.len(),
        st.epilogue.len() == fused_over(p, meta, st, outputs, k).epilogue.len() ==> fused_over(
            p,
            meta,
            st,
            outputs,
            k,
        ) == (FusionModel { next: Seq::empty(), ..st }),
    decreases k,
{
    if k > 0 {
        lemma_fused_over(p, meta, start, st, outputs, (k - 1) as nat);
        let before = fused_over(p, meta, st, outputs, (k - 1) as nat);
        let after = fused_over(p, meta, st, outputs, k);
        let t = outputs[k - 1];
        if t < meta.len() {
            let consumers = meta[t as int].consumers@;
            let free = free_consumers(p.ops@, consumers, before.visited, consumers.len());
            lemma_free_consumers(p.ops@, consumers, before.visited, consumers.len());
            if free.len() == 1 {
                let c = free[0];
                ids::lemma_push_contains(before.epilogue, c);
                assert forall|i: int| 0 <= i < after.epilogue.len() implies (#[trigger] after.epilogue[i]) < p.ops@.len()
                    && p.ops@[after.epilogue[i] as int].op_type == OpType::Pointwise && !start.contains(after.epilogue[i])
                    && after.visited.contains(after.epilogue[i]) by {
                    if i < before.epilogue.len() {
                        assert(after.epilogue[i] == before.epilogue[i]);
                    }
                }
                assert(after.epilogue.no_duplicates()) by {
                    assert forall|i: int, j: int|
                        0 <= i < after.epilogue.len() && 0 <= j < after.epilogue.len() && i != j implies after.epilogue[i]
                        != after.epilogue[j] by {
                        if i < before.epilogue.len() {
                            assert(after.epilogue[i] == before.epilogue[i]);
                        }
                        if j < before.epilogue.len() {
                            assert(after.epilogue[j] == before.epilogue[j]);
                        }
                    }
                }
            }
        }
    }
}

proof fn lemma_fused_rounds(p: Problem, meta: Seq<TensorMeta>, start: Set<OpId>, st: FusionModel, r: nat)
    requires
        sound_fusion(p, start, st),
    ensures
        sound_fusion(p, start, fused_rounds(p, meta, st, r)),
    decreases r,
{
    if r > 0 {
        lemma_fused_rounds(p, meta, start, st, (r - 1) as nat);
        let before = fused_rounds(p, meta, st, (r - 1) as nat);
        lemma_fused_over(p, meta, start, before, before.next, before.next.len());
    }
}

/// Without outputs to go on from, further rounds change nothing.
proof fn lemma_rounds_stable(p: Problem, meta: Seq<TensorMeta>, st: FusionModel, r: nat, more: nat)
    requires
        r <= more,
        fused_rounds(p, meta, st, r).next.len() == 0,
    ensures
        fused_rounds(p, meta, st, more) == fused_rounds(p, meta, st, r),
    decreases more,
{
    if r < more {
        lemma_rounds_stable(p, meta, st, r, (more - 1) as nat);
        let before = fused_rounds(p, meta, st, r);
        assert(fused_rounds(p, meta, st, more) =~= before);
    }
}

/// Finds the free consumers of a tensor.
fn find_free_consumers(problem: &Problem, consumers: &Vec<OpId>, visited: &HashSet<OpId>) -> (free: Vec<OpId>)
    ensures
        free@ == free_consumers(problem.ops@, consumers@, visited@, consumers@.len()),
{
    broadcast use vstd::std_specs::hash::group_hash_axioms;

    let mut free: Vec<OpId> = Vec::new();
    let mut i: usize = 0;
    while i < consumers.len()
        invariant
            i <= consumers.len(),
            free@ == free_consumers(problem.ops@, consumers@, visited@, i as nat),
        decreases consumers.len() - i,
    {
        let c: OpId = consumers[i];
        if c < problem.ops.len() && problem.ops[c].op_type == OpType::Pointwise && !visited.contains(&c) {
            free.push(c);
        }
        i = i + 1;
    }
    free
}

/// Performs one round, and returns the outputs to go on from.
fn fuse_round(
    problem: &Problem,
    tensor_meta: &[TensorMeta],
    outputs: &Vec<TensorId>,
    visited: &mut HashSet<OpId>,
    epilogue: &mut Vec<OpId>,
) -> (next: Vec<TensorId>)
    ensures
        (FusionModel { visited: final(visited)@, epilogue: final(epilogue)@, next: next@ }) == fused_over(
            *problem,
            tensor_meta@,
            FusionModel { visited: old(visited)@, epilogue: old(epilogue)@, next: outputs@ },
            outputs@,
            outputs@.len(),
        ),
{
    broadcast use vstd::std_specs::hash::group_hash_axioms;

    let ghost p = *problem;
    let ghost meta = tensor_meta@;
    let ghost st = FusionModel { visited: visited@, epilogue: epilogue@, next: outputs@ };
    let mut next: Vec<TensorId> = Vec::new();
    let mut i: usize = 0;
    while i < outputs.len()
        invariant
            i <= outputs.len(),
            p == *problem,
            meta == tensor_meta@,
            (FusionModel { visited: visited@, epilogue: epilogue@, next: next@ }) == fused_over(
                p,
                meta,
                st,
                outputs@,
                i as nat,
            ),
        decreases outputs.len() - i,
    {
        let t: TensorId = outputs[i];
        if t < tensor_meta.len() {
            let free: Vec<OpId> = find_free_consumers(problem, &tensor_meta[t].consumers, visited);
            if free.len() == 1 {
                let c: OpId = free[0];
                proof {
                    let consumers = meta[t as int].consumers@;
                    lemma_free_consumers(p.ops@, consumers, visited@, consumers.len());
                    assert(free@[0] == c);
                }
                let ghost before = next@;
                let ghost outs = problem.ops@[c as int].outputs@;
                visited.insert(c);
                epilogue.push(c);
                let mut j: usize = 0;
                while j < problem.ops[c].outputs.len()
                    invariant
                        c < problem.ops@.len(),
                        outs == problem.ops@[c as int].outputs@,
                        j <= outs.len(),
                        next@ == before + outs.take(j as int),
                    decreases outs.len() - j,
                {
                    next.push(problem.ops[c].outputs[j]);
                    assert(next@ =~= before + outs.take(j + 1));
                    j = j + 1;
                }
                assert(outs.take(j as int) =~= outs);
            }
        }
        i = i + 1;
    }
    next
}

/// Grows the kernel of a matrix product.
fn grow_kernel(problem: &Problem, tensor_meta: &[TensorMeta], matmul: OpId, visited: &mut HashSet<OpId>) -> (epilogue:
    Vec<OpId>)
    requires
        matmul < problem.ops@.len(),
    ensures
        epilogue@ == grown_kernel(*problem, tensor_meta@, old(visited)@, matmul as int).epilogue,
        final(visited)@ == grown_kernel(*problem, tensor_meta@, old(visited)@, matmul as int).visited,
        epilogue@.len() <= problem.ops@.len(),
        forall|i: int| 0 <= i < epilogue@.len() ==> #[trigger] epilogue@[i] < problem.ops@.len(),
{
    let n: usize = problem.ops.len();
    let ghost p = *problem;
    let ghost meta = tensor_meta@;
    let ghost start = visited@;
    let ghost st = FusionModel { visited: start, epilogue: Seq::empty(), next: p.ops@[matmul as int].outputs@ };
    let mut epilogue: Vec<OpId> = Vec::new();
    let mut outputs: Vec<TensorId> = crate::models::copy_ids(problem.ops[matmul].outputs.as_slice());
    let mut rounds: Ghost<nat> = Ghost(0);
    let mut going: bool = true;
    while going
        invariant
            n == p.ops@.len(),
            p == *problem,
            meta == tensor_meta@,
            st == (FusionModel { visited: start, epilogue: Seq::empty(), next: p.ops@[matmul as int].outputs@ }),
            sound_fusion(p, start, st),
            (FusionModel { visited: visited@, epilogue: epilogue@, next: outputs@ }) == fused_rounds(p, meta, st, rounds@),
            epilogue@.len() <= n,
            sound_fusion(p, start, FusionModel { visited: visited@, epilogue: epilogue@, next: outputs@ }),
            going ==> rounds@ <= epilogue@.len(),
            !going ==> rounds@ <= n + 1 && rounds@ >= 1 && outputs@.len() == 0 && fused_rounds(
                p,
                meta,
                st,
                (rounds@ - 1) as nat,
            ).epilogue == epilogue@ && fused_rounds(p, meta, st, (rounds@ - 1) as nat).visited == visited@,
        decreases (if going { n + 1 - rounds@ } else { 0 }),
    {
        let fused: usize = epilogue.len();
        let ghost now = FusionModel { visited: visited@, epilogue: epilogue@, next: outputs@ };
        let next: Vec<TensorId> = fuse_round(problem, tensor_meta, &outputs, visited, &mut epilogue);
        proof {
            lemma_fused_over(p, meta, start, now, outputs@, outputs@.len());
            assert forall|i: int| 0 <= i < epilogue@.len() implies #[trigger] epilogue@[i] < n by {
            }
            graph::lemma_distinct_below(epilogue@, n as nat);
            rounds@ = rounds@ + 1;
        }
        outputs = next;
        going = epilogue.len() > fused;
    }
    proof {
        if rounds@ <= n {
            lemma_rounds_stable(p, meta, st, rounds@, n as nat);
        }
        assert forall|i: int| 0 <= i < epilogue@.len() implies #[trigger] epilogue@[i] < problem.ops@.len() by {
        }
    }
    epilogue
}

/// Adds up the cost of a kernel.
fn add_kernel_cost(problem: &Problem, matmul: OpId, epilogue: &Vec<OpId>) -> (cost: i64)
    requires
        matmul < problem.ops@.len(),
        forall|i: int| 0 <= i < epilogue@.len() ==> #[trigger] epilogue@[i] < problem.ops@.len(),
        arith::fits(kernel_cost(*problem, (matmul, epilogue@))),
    ensures
        cost == kernel_cost(*problem, (matmul, epilogue@)),
{
    let mut costs: Vec<i64> = Vec::new();
    let mut i: usize = 0;
    while i < epilogue.len()
        invariant
            i <= epilogue.len(),
            forall|i: int| 0 <= i < epilogue@.len() ==> #[trigger] epilogue@[i] < problem.ops@.len(),
            costs.len() == i,
            forall|j: int| 0 <= j < i ==> #[trigger] costs@[j] == problem.ops@[epilogue@[j] as int].base_cost,
        decreases epilogue.len() - i,
    {
        assert(epilogue@[i as int] < problem.ops@.len());
        costs.push(problem.ops[epilogue[i]].base_cost);
        i = i + 1;
    }
    let rest: i128 = arith::wide_total(&costs);
    assert(arith::ints(costs@) =~= epilogue@.map_values(|op: usize| problem.ops@[op as int].base_cost as int));
    let own: i128 = problem.ops[matmul].base_cost as i128;
    let cost: i128 = own + rest;
    cost as i64
}

/// Finds for each matrix product the pointwise operations that can run in its epilogue.
pub fn find_aggressive_kernel_fusions(problem: &Problem, tensor_meta: &[TensorMeta]) -> (found: Vec<FusedKernel>)
    requires
        SETUP_CYCLES * problem.ops@.len() <= i64::MAX,
        forall|i: int|
            0 <= i < kernels_after(*problem, tensor_meta@, problem.ops@.len()).kernels.len() ==> arith::fits(
                kernel_cost(*problem, #[trigger] kernels_after(*problem, tensor_meta@, problem.ops@.len()).kernels[i]),
            ),
    ensures
        ({
            let kernels = kernels_after(*problem, tensor_meta@, problem.ops@.len()).kernels;
            &&& found@.len() == kernels.len()
            &&& forall|i: int| 0 <= i < found@.len() ==> (#[trigger] found@[i]).is_of(*problem, kernels[i])
        }),
{
    broadcast use vstd::std_specs::hash::group_hash_axioms;

    let n: usize = problem.ops.len();
    let ghost p = *problem;
    let ghost meta = tensor_meta@;
    let ghost goal = kernels_after(p, meta, n as nat).kernels;
    let mut visited: HashSet<OpId> = HashSet::new();
    let mut found: Vec<FusedKernel> = Vec::new();
    let mut op: usize = 0;
    while op < n
        invariant
            op <= n,
            n == p.ops@.len(),
            SETUP_CYCLES * n <= i64::MAX,
            p == *problem,
            meta == tensor_meta@,
            goal == kernels_after(p, meta, n as nat).kernels,
            forall|i: int| 0 <= i < goal.len() ==> arith::fits(kernel_cost(p, #[trigger] goal[i])),
            visited@ == kernels_after(p, meta, op as nat).visited,
            found@.len() == kernels_after(p, meta, op as nat).kernels.len(),
            forall|i: int|
                0 <= i < found@.len() ==> (#[trigger] found@[i]).is_of(p, kernels_after(p, meta, op as nat).kernels[i]),
        decreases n - op,
    {
        let ghost before = kernels_after(p, meta, op as nat);
        let ghost after = kernels_after(p, meta, (op + 1) as nat);
        if problem.ops[op].op_type == OpType::MatMul && !visited.contains(&op) {
            let ghost held = visited@;
            let epilogue_ops: Vec<OpId> = grow_kernel(problem, tensor_meta, op, &mut visited);
            if epilogue_ops.len() > 0 {
                proof {
                    lemma_kernels_stay(p, meta, (op + 1) as nat, n as nat);
                    let last = after.kernels.len() - 1;
                    assert(after.kernels[last] == goal[last]);
                    assert(arith::fits(kernel_cost(p, goal[last])));
                }
                let combined_cost: i64 = add_kernel_cost(problem, op, &epilogue_ops);
                let setup_cycles_saved: i64 = epilogue_ops.len() as i64 * SETUP_CYCLES;
                visited.insert(op);
                let ghost old_found = found@;
                found.push(FusedKernel { matmul_op: op, epilogue_ops, combined_cost, setup_cycles_saved });
                proof {
                    assert forall|i: int| 0 <= i < found@.len() implies (#[trigger] found@[i]).is_of(p, after.kernels[i]) by {
                        if i < old_found.len() {
                            assert(found@[i] == old_found[i]);
                        }
                    }
                }
            } else {
                proof {
                    let st = FusionModel { visited: held, epilogue: Seq::empty(), next: p.ops@[op as int].outputs@ };
                    lemma_fused_rounds(p, meta, held, st, n as nat);
                    assert(visited@ =~= held);
                }
            }
        }
        op = op + 1;
    }
    found
}

/// Kernels once found stay.
proof fn lemma_kernels_stay(p: Problem, meta: Seq<TensorMeta>, m: nat, more: nat)
    requires
        m <= more,
    ensures
        kernels_after(p, meta, m).kernels.len() <= kernels_after(p, meta, more).kernels.len(),
        forall|i: int|
            0 <= i < kernels_after(p, meta, m).kernels.len() ==> #[trigger] kernels_after(p, meta, m).kernels[i]
                == kernels_after(p, meta, more).kernels[i],
    decreases more,
{
    if m < more {
        lemma_kernels_stay(p, meta, m, (more - 1) as nat);
    }
}

/// No operation is fused twice: the epilogues hold pointwise operations, and no two of
/// their places hold the same one.
pub proof fn no_operation_is_fused_twice(p: Problem, meta: Seq<TensorMeta>, m: nat, i: int, a: int, j: int, b: int)
    requires
        m <= p.ops@.len(),
        0 <= i < kernels_after(p, meta, m).kernels.len(),
        0 <= j < kernels_after(p, meta, m).kernels.len(),
        0 <= a < kernels_after(p, meta, m).kernels[i].1.len(),
        0 <= b < kernels_after(p, meta, m).kernels[j].1.len(),
        kernels_after(p, meta, m).kernels[i].1[a] == kernels_after(p, meta, m).kernels[j].1[b],
    ensures
        i == j,
        a == b,
        kernels_after(p, meta, m).kernels[i].1[a] < p.ops@.len(),
        p.ops@[kernels_after(p, meta, m).kernels[i].1[a] as int].op_type == OpType::Pointwise,
    decreases m,
{
    let before = kernels_after(p, meta, (m - 1) as nat);
    let after = kernels_after(p, meta, m);
    if i < before.kernels.len() && j < before.kernels.len() {
        no_operation_is_fused_twice(p, meta, (m - 1) as nat, i, a, j, b);
    } else {
        let st = FusionModel { visited: before.visited, epilogue: Seq::empty(), next: p.ops@[m - 1].outputs@ };
        lemma_fused_rounds(p, meta, before.visited, st, p.ops@.len());
        let done = grown_kernel(p, meta, before.visited, m - 1);
        lemma_fused_are_visited(p, meta, (m - 1) as nat);
        assert(done.epilogue.no_duplicates());
        if i < before.kernels.len() {
            assert(before.visited.contains(before.kernels[i].1[a]));
            assert(after.kernels[j].1[b] == done.epilogue[b]);
        } else {
            assert(after.kernels[i].1[a] == done.epilogue[a]);
            if j < before.kernels.len() {
                assert(before.visited.contains(before.kernels[j].1[b]));
            }
        }
    }
}

proof fn lemma_fused_are_visited(p: Problem, meta: Seq<TensorMeta>, m: nat)
    requires
        m <= p.ops@.len(),
    ensures
        forall|i: int, a: int|
            0 <= i < kernels_after(p, meta, m).kernels.len() && 0 <= a < kernels_after(p, meta, m).kernels[i].1.len()
                ==> kernels_after(p, meta, m).visited.contains(#[trigger] kernels_after(p, meta, m).kernels[i].1[a]),
    decreases m,
{
    if m > 0 {
        lemma_fused_are_visited(p, meta, (m - 1) as nat);
        let before = kernels_after(p, meta, (m - 1) as nat);
        let after = kernels_after(p, meta, m);
        let st = FusionModel { visited: before.visited, epilogue: Seq::empty(), next: p.ops@[m - 1].outputs@ };
        lemma_fused_rounds(p, meta, before.visited, st, p.ops@.len());
        let done = grown_kernel(p, meta, before.visited, m - 1);
        assert forall|i: int, a: int| 0 <= i < after.kernels.len() && 0 <= a < after.kernels[i].1.len() implies
            after.visited.contains(#[trigger] after.kernels[i].1[a]) by {
            if i < before.kernels.len() {
                assert(after.kernels[i] == before.kernels[i]);
                assert(before.visited.contains(before.kernels[i].1[a]));
            } else {
                assert(after.kernels[i].1[a] == done.epilogue[a]);
            }
        }
    }
}

/// Small operations that run together.
#[derive(Debug)]
pub struct MicroKernelGroup {
    pub ops: Vec<OpId>,
    /// The size of what the operations put out.
    pub total_output_size: i64,
    /// The width and the height that the group fills.
    pub target_granularity: (i64, i64),
}

/// The size of the first `k` outputs that are tensors of the problem.
pub open spec fn output_bytes(p: Problem, outputs: Seq<TensorId>, k: nat) -> int
    decreases k,
{
    if k == 0 {
        0
    } else {
        output_bytes(p, outputs, (k - 1) as nat) + if outputs[k - 1] < p.tensors@.len() {
            p.tensors@[outputs[k - 1] as int].area()
        } else {
            0
        }
    }
}

/// The size of what the operation puts out.
pub open spec fn bytes_of(p: Problem, op: int) -> int {
    output_bytes(p, p.ops@[op].outputs@, p.ops@[op].outputs@.len())
}

/// The size of a native tile.
pub open spec fn native_tile(p: Problem) -> int {
    p.native_granularity.width * p.native_granularity.height
}

/// The operation puts out something, but less than a quarter of a native tile.
pub open spec fn is_small(p: Problem, op: int) -> bool {
    0 < bytes_of(p, op) < arith::quotient(native_tile(p), 4)
}

/// Groups packed so far: the full ones with their sizes, and the one being filled.
#[verifier::ext_equal]
pub struct PackModel {
    pub groups: Seq<(Seq<OpId>, int)>,
    pub ops: Seq<OpId>,
    pub size: int,
}

/// The first `m` operations packed: a small one joins the current group if it still fits
/// in a native tile, and starts a new group otherwise.
pub open spec fn packed(p: Problem, m: nat) -> PackModel
    decreases m,
{
    if m == 0 {
        PackModel { groups: Seq::empty(), ops: Seq::empty(), size: 0 }
    } else {
        let before = packed(p, (m - 1) as nat);
        let op = (m - 1) as usize;
        let bytes = bytes_of(p, m - 1);
        if !is_small(p, m - 1) {
            before
        } else if before.size + bytes <= native_tile(p) {
            PackModel { groups: before.groups, ops: before.ops.push(op), size: before.size + bytes }
        } else {
            PackModel { groups: before.groups.push((before.ops, before.size)), ops: seq![op], size: bytes }
        }
    }
}

/// All groups: the full ones, and the last one if it holds at least two operations.
pub open spec fn micro_groups(p: Problem) -> Seq<(Seq<OpId>, int)> {
    let all = packed(p, p.ops@.len());
    if all.ops.len() >= 2 {
        all.groups.push((all.ops, all.size))
    } else {
        all.groups
    }
}

/// Each group fits in a native tile, and none is empty.
proof fn lemma_packed_fits(p: Problem, m: nat)
    requires
        m <= p.ops@.len(),
    ensures
        0 <= packed(p, m).size,
        packed(p, m).ops.len() > 0 ==> packed(p, m).size <= native_tile(p),
        packed(p, m).ops.len() == 0 ==> packed(p, m).size == 0,
        forall|i: int|
            0 <= i < packed(p, m).groups.len() ==> 0 <= (#[trigger] packed(p, m).groups[i]).1 <= native_tile(p)
                && packed(p, m).groups[i].0.len() > 0,
    decreases m,
{
    if m > 0 {
        lemma_packed_fits(p, (m - 1) as nat);
        let before = packed(p, (m - 1) as nat);
        let after = packed(p, m);
        assert forall|i: int| 0 <= i < after.groups.len() implies 0 <= (#[trigger] after.groups[i]).1 <= native_tile(p)
            && after.groups[i].0.len() > 0 by {
            if i < before.groups.len() {
                assert(after.groups[i] == before.groups[i]);
            }
        }
    }
}

/// No group is larger than a native tile, and none is empty.
pub proof fn groups_fit_in_a_tile(p: Problem, i: int)
    requires
        0 <= i < micro_groups(p).len(),
    ensures
        0 <= micro_groups(p)[i].1 <= native_tile(p),
        micro_groups(p)[i].0.len() > 0,
{
    lemma_packed_fits(p, p.ops@.len());
    let all = packed(p, p.ops@.len());
    if i < all.groups.len() {
        assert(micro_groups(p)[i] == all.groups[i]);
    }
}

/// The sizes that packing needs are numbers of the machine.
pub open spec fn packing_fits(p: Problem) -> bool {
    &&& arith::fits(native_tile(p))
    &&& forall|op: int, j: int|
        #![trigger p.ops@[op].outputs@[j]]
        0 <= op < p.ops@.len() && 0 <= j < p.ops@[op].outputs@.len() && p.ops@[op].outputs@[j] < p.tensors@.len()
            ==> arith::fits(p.tensors@[p.ops@[op].outputs@[j] as int].area())
    &&& forall|op: int| 0 <= op < p.ops@.len() ==> arith::fits(#[trigger] bytes_of(p, op))
}

/// Measures what the operation puts out.
fn measure_output(problem: &Problem, op: usize) -> (bytes: i64)
    requires
        op < problem.ops@.len(),
        packing_fits(*problem),
    ensures
        bytes == bytes_of(*problem, op as int),
{
    let ghost p = *problem;
    let ghost outs = p.ops@[op as int].outputs@;
    let mut bytes: i128 = 0;
    let mut i: usize = 0;
    while i < problem.ops[op].outputs.len()
        invariant
            op < p.ops@.len(),
            p == *problem,
            packing_fits(p),
            outs == p.ops@[op as int].outputs@,
            i <= outs.len(),
            bytes == output_bytes(p, outs, i as nat),
            -(i * 0x8000_0000_0000_0000) <= bytes <= i * 0x8000_0000_0000_0000,
        decreases outs.len() - i,
    {
        assert(i * 0x8000_0000_0000_0000 <= 0xffff_ffff_ffff_ffff * 0x8000_0000_0000_0000) by (nonlinear_arith)
            requires
                i <= 0xffff_ffff_ffff_ffff,
        ;
        let t: TensorId = problem.ops[op].outputs[i];
        if t < problem.tensors.len() {
            assert(arith::fits(p.tensors@[p.ops@[op as int].outputs@[i as int] as int].area()));
            bytes = bytes + problem.tensors[t].size() as i128;
        }
        i = i + 1;
    }
    assert(arith::fits(bytes_of(p, op as int)));
    bytes as i64
}

impl MicroKernelGroup {
    /// This is the group.
    pub open spec fn is_of(&self, p: Problem, group: (Seq<OpId>, int)) -> bool {
        &&& self.ops@ == group.0
        &&& self.total_output_size == group.1
        &&& self.target_granularity == (p.native_granularity.width, p.native_granularity.height)
    }
}

/// Packs small operations into groups that fill native tiles.
pub fn find_micro_kernel_candidates(problem: &Problem, _tensor_meta: &[TensorMeta]) -> (groups: Vec<MicroKernelGroup>)
    requires
        packing_fits(*problem),
    ensures
        groups@.len() == micro_groups(*problem).len(),
        forall|i: int| 0 <= i < groups@.len() ==> (#[trigger] groups@[i]).is_of(*problem, micro_groups(*problem)[i]),
{
    let n: usize = problem.ops.len();
    let ghost p = *problem;
    let w: i64 = problem.native_granularity.width;
    let h: i64 = problem.native_granularity.height;
    let tile: i64 = w * h;
    let threshold: i64 = tile / 4;
    let mut groups: Vec<MicroKernelGroup> = Vec::new();
    let mut ops: Vec<OpId> = Vec::new();
    let mut size: i64 = 0;
    let mut op: usize = 0;
    while op < n
        invariant
            op <= n,
            n == p.ops@.len(),
            p == *problem,
            packing_fits(p),
            w == p.native_granularity.width,
            h == p.native_granularity.height,
            tile == native_tile(p),
            threshold == arith::quotient(native_tile(p), 4),
            groups@.len() == packed(p, op as nat).groups.len(),
            forall|i: int| 0 <= i < groups@.len() ==> (#[trigger] groups@[i]).is_of(p, packed(p, op as nat).groups[i]),
            ops@ == packed(p, op as nat).ops,
            size == packed(p, op as nat).size,
        decreases n - op,
    {
        let bytes: i64 = measure_output(problem, op);
        proof {
            lemma_packed_fits(p, op as nat);
        }
        if 0 < bytes && bytes < threshold {
            if size as i128 + bytes as i128 <= tile as i128 {
                ops.push(op);
                size = size + bytes;
            } else {
                let ghost before = groups@;
                let mut single: Vec<OpId> = Vec::new();
                single.push(op);
                groups.push(MicroKernelGroup { ops, total_output_size: size, target_granularity: (w, h) });
                proof {
                    let after = packed(p, (op + 1) as nat);
                    assert forall|i: int| 0 <= i < groups@.len() implies (#[trigger] groups@[i]).is_of(p, after.groups[i]) by {
                        if i < before.len() {
                            assert(groups@[i] == before[i]);
                        }
                    }
                    assert(single@ =~= seq![op]);
                }
                ops = single;
                size = bytes;
            }
        }
        op = op + 1;
    }
    if ops.len() >= 2 {
        let ghost before = groups@;
        groups.push(MicroKernelGroup { ops, total_output_size: size, target_granularity: (w, h) });
        proof {
            assert forall|i: int| 0 <= i < groups@.len() implies (#[trigger] groups@[i]).is_of(p, micro_groups(p)[i]) by {
                if i < before.len() {
                    assert(groups@[i] == before[i]);
                }
            }
        }
    }
    groups
}

} // verus!
