//! Canonicalization: passes that make the graph smaller before it is scheduled.
//!
//! 1. Constant folding drops operations whose inputs are all known beforehand.
//! 2. Identity elimination drops free pointwise operations that keep the size.
//! 3. Operator fusion absorbs a pointwise operation into a producer whose only output goes
//!    to it alone, again and again. The fused operation takes in the other inputs of what
//!    it absorbs.
//! 4. Common subexpressions are computed once, among operations that have absorbed no others.
//! 5. Dead code, which leads to no result, is dropped.
//! 6. Buffer sharing finds tensors that can use the same memory.
use std::collections::HashSet;
use vstd::prelude::*;
use crate::{arith, buffer_sharing, graph, ids, models, rewrite_graph};
use crate::models::{OpId, OpType, Problem, Tensor, TensorId};
use crate::buffer_sharing::BufferSharingInfo;
use crate::rewrite_graph::{GraphModel, OpModel, RewriteGraph};

verus! {

/// When one active operation goes and the others stay, the count falls by one.
pub proof fn lemma_one_less_active(before: GraphModel, after: GraphModel, op: OpId, k: nat)
    requires
        before.ops.len() == after.ops.len(),
        k <= before.ops.len() <= usize::MAX,
        before.active(op),
        !after.active(op),
        forall|i: OpId| i < before.ops.len() && i != op ==> (#[trigger] before.active(i) <==> after.active(i)),
    ensures
        before.active_among(k) == after.active_among(k) + if op < k { 1nat } else { 0nat },
    decreases k,
{
    if k > 0 {
        lemma_one_less_active(before, after, op, (k - 1) as nat);
        let last = (k - 1) as usize;
        if last != op {
            assert(before.active(last) <==> after.active(last));
        }
    }
}

/// The count depends only on which operations are active.
proof fn lemma_same_active(before: GraphModel, after: GraphModel, k: nat)
    requires
        before.ops.len() == after.ops.len(),
        k <= before.ops.len() <= usize::MAX,
        forall|i: OpId| i < before.ops.len() ==> (#[trigger] before.active(i) <==> after.active(i)),
    ensures
        before.active_among(k) == after.active_among(k),
    decreases k,
{
    if k > 0 {
        lemma_same_active(before, after, (k - 1) as nat);
        assert(before.active((k - 1) as usize) <==> after.active((k - 1) as usize));
    }
}

/// No more operations are active than there are.
pub proof fn lemma_active_bound(s: GraphModel, k: nat)
    ensures
        s.active_among(k) <= k,
    decreases k,
{
    if k > 0 {
        lemma_active_bound(s, (k - 1) as nat);
    }
}

impl GraphModel {
    /// Every input of the operation is in `known`, and there is one.
    pub open spec fn all_inputs_in(self, op: OpId, known: Set<TensorId>) -> bool {
        &&& self.ops[op as int].inputs.len() > 0
        &&& forall|j: int|
            0 <= j < self.ops[op as int].inputs.len() ==> known.contains(
                rewrite_graph::resolve(self.remap, #[trigger] self.ops[op as int].inputs[j]),
            )
    }

    /// `known` holds the constants and whatever active operations compute from it.
    pub open spec fn closed_under_folding(self, known: Set<TensorId>) -> bool {
        &&& forall|t: TensorId| #[trigger] self.constants.contains(t) ==> known.contains(t)
        &&& forall|op: OpId, j: int|
            #![trigger self.ops[op as int].outputs[j]]
            op < self.ops.len() && self.active(op) && self.all_inputs_in(op, known) && 0 <= j
                < self.ops[op as int].outputs.len() ==> known.contains(self.ops[op as int].outputs[j])
    }

    /// The tensors whose values follow from the constants: the least closed set.
    pub open spec fn foldable_tensors(self) -> Set<TensorId> {
        Set::new(
            |t: TensorId|
                forall|known: Set<TensorId>| #[trigger] self.closed_under_folding(known) ==> known.contains(t),
        )
    }

    /// The graph without the operations whose inputs are all constant.
    pub open spec fn constants_folded(self) -> GraphModel {
        let known = self.foldable_tensors();
        GraphModel {
            constants: known,
            deleted: self.deleted.union(
                Set::new(|op: OpId| op < self.ops.len() && self.active(op) && self.all_inputs_in(op, known)),
            ),
            ..self
        }
    }
}

/// Whether every input of the operation is constant, and there is one.
fn inputs_constant(graph: &RewriteGraph, op_id: OpId) -> (yes: bool)
    requires
        op_id < graph.ops.len(),
    ensures
        yes == graph@.all_inputs_in(op_id, graph@.constants),
{
    broadcast use vstd::std_specs::hash::group_hash_axioms;

    let ghost s = graph@;
    let ghost ins = s.ops[op_id as int].inputs;
    let mut j: usize = 0;
    while j < graph.ops[op_id].inputs.len()
        invariant
            j <= ins.len(),
            op_id < graph.ops.len(),
            s == graph@,
            ins == s.ops[op_id as int].inputs,
            forall|i: int|
                0 <= i < j ==> s.constants.contains(
                    rewrite_graph::resolve(s.remap, #[trigger] s.ops[op_id as int].inputs[i]),
                ),
        decreases ins.len() - j,
    {
        let t: TensorId = graph.resolve_tensor(graph.ops[op_id].inputs[j]);
        assert(t == rewrite_graph::resolve(s.remap, s.ops[op_id as int].inputs[j as int]));
        if !graph.constant_tensors.contains(&t) {
            return false;
        }
        j = j + 1;
    }
    graph.ops[op_id].inputs.len() > 0
}

/// The state of constant folding between two steps.
spec fn folding_from(s: GraphModel, now: GraphModel) -> bool {
    &&& now == (GraphModel { constants: now.constants, deleted: now.deleted, ..s })
    &&& forall|t: TensorId| #[trigger] s.constants.contains(t) ==> now.constants.contains(t)
    &&& forall|t: TensorId| #[trigger] now.constants.contains(t) ==> s.foldable_tensors().contains(t)
    &&& forall|op: OpId| #[trigger] s.deleted.contains(op) ==> now.deleted.contains(op)
    &&& forall|op: OpId| #[trigger]
        now.deleted.contains(op) && !s.deleted.contains(op) ==> op < s.ops.len() && s.active(op) && s.all_inputs_in(
            op,
            now.constants,
        ) && forall|j: int|
            0 <= j < s.ops[op as int].outputs.len() ==> now.constants.contains(#[trigger] s.ops[op as int].outputs[j])
}

/// Once nothing more can be folded, the constants are exactly the tensors that follow from the first ones.
proof fn lemma_folding_done(s: GraphModel, now: GraphModel)
    requires
        folding_from(s, now),
        forall|op: OpId| #[trigger] now.active(op) && op < now.ops.len() ==> !now.all_inputs_in(op, now.constants),
    ensures
        now == s.constants_folded(),
{
    assert(s.closed_under_folding(now.constants)) by {
        assert forall|op: OpId, j: int|
            #![trigger s.ops[op as int].outputs[j]]
            op < s.ops.len() && s.active(op) && s.all_inputs_in(op, now.constants) && 0 <= j
                < s.ops[op as int].outputs.len() implies now.constants.contains(s.ops[op as int].outputs[j]) by {
            if !now.deleted.contains(op) {
                assert(now.active(op));
                assert(now.all_inputs_in(op, now.constants));
            }
        }
    }
    assert(now.constants =~= s.foldable_tensors());
    let goal = s.constants_folded();
    assert(now.deleted =~= goal.deleted) by {
        assert forall|op: OpId| now.deleted.contains(op) <==> goal.deleted.contains(op) by {
            if op < s.ops.len() && s.active(op) && s.all_inputs_in(op, now.constants) && !now.deleted.contains(op) {
                assert(now.active(op));
                assert(now.all_inputs_in(op, now.constants));
            }
        }
    }
    assert(now =~= goal);
}

/// Drops the operations whose inputs are all constant, and makes their outputs constant.
pub fn constant_folding(graph: &mut RewriteGraph) -> (eliminated: usize)
    requires
        old(graph).valid(),
    ensures
        final(graph).valid(),
        final(graph)@ == old(graph)@.constants_folded(),
        final(graph)@.active_count() + eliminated == old(graph)@.active_count(),
{
    broadcast use vstd::std_specs::hash::group_hash_axioms;

    let ghost s = graph@;
    let n: usize = graph.ops.len();
    let mut eliminated: usize = 0;
    let mut changed: bool = true;
    proof {
        assert forall|t: TensorId| #[trigger] s.constants.contains(t) implies s.foldable_tensors().contains(t) by {
        }
        lemma_active_bound(s, n as nat);
        assert(graph@ =~= GraphModel { constants: graph@.constants, deleted: graph@.deleted, ..s });
    }
    while changed
        invariant
            n == graph.ops.len(),
            n == s.ops.len(),
            graph.valid(),
            folding_from(s, graph@),
            graph@.active_count() + eliminated == s.active_count(),
            s.active_count() <= n,
            !changed ==> forall|op: OpId| #[trigger]
                graph@.active(op) && op < n ==> !graph@.all_inputs_in(op, graph@.constants),
        decreases graph@.active_count(), (if changed { 1int } else { 0int }),
    {
        changed = false;
        let ghost count_before = graph@.active_count();
        let mut op_id: usize = 0;
        while op_id < n
            invariant
                op_id <= n,
                n == graph.ops.len(),
                n == s.ops.len(),
                graph.valid(),
                folding_from(s, graph@),
                graph@.active_count() + eliminated == s.active_count(),
                s.active_count() <= n,
                graph@.active_count() <= count_before,
                changed ==> graph@.active_count() < count_before,
                !changed ==> forall|op: OpId| #[trigger]
                    graph@.active(op) && op < op_id ==> !graph@.all_inputs_in(op, graph@.constants),
            decreases n - op_id,
        {
            if graph.is_active(op_id) {
                if inputs_constant(graph, op_id) {
                    let ghost before = graph@;
                    let ghost outs = before.ops[op_id as int].outputs;
                    let mut j: usize = 0;
                    while j < graph.ops[op_id].outputs.len()
                        invariant
                            j <= outs.len(),
                            op_id < n,
                            n == graph.ops.len(),
                            outs == before.ops[op_id as int].outputs,
                            graph@ == (GraphModel { constants: graph@.constants, ..before }),
                            forall|t: TensorId| #[trigger]
                                graph.tensor_consumers@.contains_key(t) ==> graph.tensor_consumers@[t]@.no_duplicates(),
                            forall|t: TensorId| #[trigger]
                                graph@.constants.contains(t) <==> before.constants.contains(t) || outs.take(
                                    j as int,
                                ).contains(t),
                        decreases outs.len() - j,
                    {
                        let t: TensorId = graph.ops[op_id].outputs[j];
                        proof {
                            models::lemma_take_contains(outs, j as int);
                        }
                        graph.constant_tensors.insert(t);
                        assert(graph@ =~= GraphModel { constants: graph@.constants, ..before });
                        j = j + 1;
                    }
                    graph.deleted_ops.insert(op_id);
                    proof {
                        assert(outs.take(j as int) =~= outs);
                        let now = graph@;
                        assert(now =~= GraphModel { constants: now.constants, deleted: now.deleted, ..s });
                        assert(folding_from(s, now)) by {
                            assert forall|t: TensorId| #[trigger] now.constants.contains(t) implies s.foldable_tensors().contains(
                                t,
                            ) by {
                                if !before.constants.contains(t) {
                                    let i = choose|i: int| 0 <= i < outs.len() && outs[i] == t;
                                    assert forall|known: Set<TensorId>| #[trigger]
                                        s.closed_under_folding(known) implies known.contains(t) by {
                                        assert(s.all_inputs_in(op_id, known)) by {
                                            assert forall|k: int| 0 <= k < s.ops[op_id as int].inputs.len() implies known.contains(
                                                rewrite_graph::resolve(
                                                    s.remap,
                                                    #[trigger] s.ops[op_id as int].inputs[k],
                                                ),
                                            ) by {
                                                let x = rewrite_graph::resolve(
                                                    s.remap,
                                                    before.ops[op_id as int].inputs[k],
                                                );
                                                assert(before.constants.contains(x));
                                                assert(s.foldable_tensors().contains(x));
                                            }
                                        }
                                        assert(known.contains(s.ops[op_id as int].outputs[i]));
                                    }
                                }
                            }
                            assert forall|op: OpId| #[trigger]
                                now.deleted.contains(op) && !s.deleted.contains(op) implies op < s.ops.len() && s.active(
                                op,
                            ) && s.all_inputs_in(op, now.constants) && (forall|j: int|
                                0 <= j < s.ops[op as int].outputs.len() ==> now.constants.contains(
                                    #[trigger] s.ops[op as int].outputs[j],
                                )) by {
                                if op == op_id {
                                    assert forall|j: int| 0 <= j < s.ops[op as int].outputs.len() implies now.constants.contains(
                                        #[trigger] s.ops[op as int].outputs[j],
                                    ) by {
                                        assert(outs.contains(outs[j]));
                                    }
                                    assert(before.all_inputs_in(op_id, before.constants));
                                } else {
                                    assert(before.deleted.contains(op));
                                }
                            }
                        }
                        lemma_one_less_active(before, now, op_id, n as nat);
                    }
                    eliminated = eliminated + 1;
                    changed = true;
                }
            }
            op_id = op_id + 1;
        }
    }
    proof {
        lemma_folding_done(s, graph@);
    }
    eliminated
}

impl GraphModel {
    /// The operation is a free pointwise one from one tensor to another of the same size.
    pub open spec fn is_identity(self, op: OpId) -> bool {
        let o = self.ops[op as int];
        let from = rewrite_graph::resolve(self.remap, o.inputs[0]);
        let to = o.outputs[0];
        &&& o.op_type == OpType::Pointwise
        &&& o.inputs.len() == 1
        &&& o.outputs.len() == 1
        &&& o.base_cost == 0
        &&& from < self.tensors.len()
        &&& to < self.tensors.len()
        &&& self.tensors[from as int].area() == self.tensors[to as int].area()
    }

    /// The graph without the operation.
    pub open spec fn without(self, op: OpId) -> GraphModel {
        GraphModel { deleted: self.deleted.insert(op), ..self }
    }

    /// The graph after the first `k` operations have been looked at, in order: an
    /// identity is dropped, and its input takes the place of its output.
    pub open spec fn identities_dropped(self, k: nat) -> GraphModel
        decreases k,
    {
        if k == 0 {
            self
        } else {
            let s = self.identities_dropped((k - 1) as nat);
            let op = (k - 1) as usize;
            if s.active(op) && s.is_identity(op) {
                let o = s.ops[op as int];
                s.redirected(op, o.outputs[0], rewrite_graph::resolve(s.remap, o.inputs[0])).without(op)
            } else {
                s
            }
        }
    }
}

/// The areas of all tensors are `i64` numbers.
pub open spec fn areas_fit(tensors: Seq<Tensor>) -> bool {
    forall|i: int| 0 <= i < tensors.len() ==> arith::fits((#[trigger] tensors[i]).area())
}

/// Redirecting keeps the number of operations and which of them are active.
proof fn lemma_redirected_active(s: GraphModel, op: OpId, from: TensorId, to: TensorId)
    requires
        s.ops.len() <= usize::MAX,
    ensures
        s.redirected(op, from, to).ops.len() == s.ops.len(),
        forall|i: OpId| i < s.ops.len() ==> (#[trigger] s.redirected(op, from, to).active(i) <==> s.active(i)),
{
}

/// Whether the operation is an identity.
fn check_identity(graph: &RewriteGraph, op_id: OpId) -> (yes: bool)
    requires
        op_id < graph.ops.len(),
        areas_fit(graph@.tensors),
    ensures
        yes == graph@.is_identity(op_id),
{
    let op = &graph.ops[op_id];
    assert(op@ == graph@.ops[op_id as int]);
    if op.op_type != OpType::Pointwise || op.inputs.len() != 1 || op.outputs.len() != 1 || op.base_cost != 0 {
        return false;
    }
    let from: TensorId = graph.resolve_tensor(op.inputs[0]);
    let to: TensorId = op.outputs[0];
    if from < graph.tensors.len() && to < graph.tensors.len() {
        assert(arith::fits(graph@.tensors[from as int].area()));
        assert(arith::fits(graph@.tensors[to as int].area()));
        graph.tensors[from].size() == graph.tensors[to].size()
    } else {
        false
    }
}

/// Drops identities.
pub fn identity_elimination(graph: &mut RewriteGraph) -> (eliminated: usize)
    requires
        old(graph).valid(),
        areas_fit(old(graph)@.tensors),
    ensures
        final(graph).valid(),
        final(graph)@ == old(graph)@.identities_dropped(old(graph)@.ops.len()),
        final(graph)@.active_count() + eliminated == old(graph)@.active_count(),
{
    broadcast use vstd::std_specs::hash::group_hash_axioms;

    let ghost s = graph@;
    let n: usize = graph.ops.len();
    let mut eliminated: usize = 0;
    let mut op_id: usize = 0;
    while op_id < n
        invariant
            op_id <= n,
            eliminated <= op_id,
            n == graph.ops.len(),
            n == s.ops.len(),
            graph.valid(),
            areas_fit(s.tensors),
            graph@.tensors == s.tensors,
            graph@ == s.identities_dropped(op_id as nat),
            graph@.active_count() + eliminated == s.active_count(),
        decreases n - op_id,
    {
        if graph.is_active(op_id) {
            if check_identity(graph, op_id) {
                let ghost before = graph@;
                let from: TensorId = graph.resolve_tensor(graph.ops[op_id].inputs[0]);
                let to: TensorId = graph.ops[op_id].outputs[0];
                graph.redirect(op_id, to, from);
                let ghost mid = graph@;
                assert(mid.ops.len() == graph.ops.len());
                graph.deleted_ops.insert(op_id);
                proof {
                    assert(graph@ =~= mid.without(op_id));
                    lemma_redirected_active(before, op_id, to, from);
                    lemma_one_less_active(before, graph@, op_id, n as nat);
                }
                eliminated = eliminated + 1;
            }
        }
        op_id = op_id + 1;
    }
    eliminated
}

impl GraphModel {
    /// The only consumer of tensor `t`.
    pub open spec fn sole_consumer(self, t: TensorId) -> Option<OpId> {
        if self.consumers.contains_key(t) && exists|c: OpId| #[trigger] self.consumers[t].contains(c) && self.consumers[t] == set![c] {
            Some(choose|c: OpId| #[trigger] self.consumers[t].contains(c) && self.consumers[t] == set![c])
        } else {
            None
        }
    }

    /// The operation that `op` absorbs: the only consumer of its only output, if that is
    /// another active pointwise operation that takes in the output itself.
    pub open spec fn fusion_partner(self, op: OpId) -> Option<OpId> {
        let outs = self.ops[op as int].outputs;
        if outs.len() == 1 {
            match self.sole_consumer(outs[0]) {
                Some(c) => if self.active(c) && c != op && self.ops[c as int].op_type == OpType::Pointwise
                    && self.ops[c as int].inputs.contains(outs[0]) {
                    Some(c)
                } else {
                    None
                },
                None => None,
            }
        } else {
            None
        }
    }

    /// The graph after `op` has absorbed `c`, the consumer of its only output: it takes
    /// in what `c` takes in besides, bears the cost of `c` and of what `c` has absorbed,
    /// and puts out the outputs of `c` in place of its own.
    pub open spec fn absorbed(self, op: OpId, c: OpId) -> GraphModel {
        let gone = self.ops[op as int].outputs[0];
        let outs = self.ops[c as int].outputs;
        let others = other_tensors(self.ops[c as int].inputs, gone);
        GraphModel {
            ops: self.ops.update(
                op as int,
                OpModel {
                    inputs: self.ops[op as int].inputs + others,
                    outputs: outs,
                    accumulated_cost: self.ops[op as int].accumulated_cost + self.ops[c as int].accumulated_cost,
                    ..self.ops[op as int]
                },
            ).update(c as int, OpModel { fused_into: Some(op), ..self.ops[c as int] }),
            producers: Map::new(
                |t: TensorId| (self.producers.contains_key(t) || outs.contains(t)) && t != gone,
                |t: TensorId|
                    if outs.contains(t) {
                        op
                    } else {
                        self.producers[t]
                    },
            ),
            consumers: Map::new(
                |t: TensorId| (self.consumers.contains_key(t) || others.contains(t)) && t != gone,
                |t: TensorId|
                    if others.contains(t) {
                        rewrite_graph::with_consumer_in_place(self.consumers, t, c, op)[t]
                    } else {
                        self.consumers[t]
                    },
            ),
            ..self
        }
    }

    /// The graph after `op` has absorbed what it can, `k` times at most.
    pub open spec fn fused_rounds(self, op: OpId, k: nat) -> GraphModel
        decreases k,
    {
        if k == 0 {
            self
        } else {
            let s = self.fused_rounds(op, (k - 1) as nat);
            match s.fusion_partner(op) {
                Some(c) => s.absorbed(op, c),
                None => s,
            }
        }
    }

    /// The graph after the first `k` operations, in order, have each absorbed all that
    /// they can. No operation absorbs more often than there are operations.
    pub open spec fn ops_fused(self, k: nat) -> GraphModel
        decreases k,
    {
        if k == 0 {
            self
        } else {
            let s = self.ops_fused((k - 1) as nat);
            let op = (k - 1) as usize;
            if s.active(op) {
                s.fused_rounds(op, s.ops.len())
            } else {
                s
            }
        }
    }

    /// The costs that fusing the first `k` operations adds up are `i64` numbers.
    pub open spec fn fusion_fits(self, k: nat) -> bool {
        forall|j: nat, m: nat|
            #![trigger self.ops_fused(j).fused_rounds(j as usize, m)]
            j < k && self.ops_fused(j).active(j as usize) && m <= self.ops_fused(j).ops.len() ==> arith::fits(
                self.ops_fused(j).fused_rounds(j as usize, m).ops[j as int].accumulated_cost,
            )
    }
}

/// When there is nothing more to absorb, nothing more is absorbed.
pub proof fn lemma_rounds_done(s: GraphModel, op: OpId, k: nat, more: nat)
    requires
        k <= more,
        s.fused_rounds(op, k).fusion_partner(op) is None,
    ensures
        s.fused_rounds(op, more) == s.fused_rounds(op, k),
    decreases more,
{
    if k < more {
        lemma_rounds_done(s, op, k, (more - 1) as nat);
    }
}

/// Says of a tensor whether it is another one than `t`.
pub open spec fn other_than(t: TensorId) -> spec_fn(TensorId) -> bool {
    |x: TensorId| x != t
}

/// The listed tensors other than `t`, in order.
pub open spec fn other_tensors(listed: Seq<TensorId>, t: TensorId) -> Seq<TensorId> {
    listed.filter(other_than(t))
}

/// What is among the other tensors.
pub proof fn lemma_other_tensors(listed: Seq<TensorId>, t: TensorId)
    ensures
        forall|x: TensorId| #[trigger] other_tensors(listed, t).contains(x) <==> listed.contains(x) && x != t,
{
    let pred = other_than(t);
    let others = listed.filter(pred);
    assert forall|x: TensorId| #[trigger] others.contains(x) <==> listed.contains(x) && x != t by {
        if others.contains(x) {
            let i = choose|i: int| 0 <= i < others.len() && others[i] == x;
            listed.lemma_filter_pred(pred, i);
            listed.lemma_filter_contains_rev(pred, x);
        }
        if listed.contains(x) && x != t {
            let i = choose|i: int| 0 <= i < listed.len() && listed[i] == x;
            listed.lemma_filter_contains(pred, i);
        }
    }
}

/// Lists the tensors other than `t`.
fn list_others(listed: &Vec<TensorId>, t: TensorId) -> (others: Vec<TensorId>)
    ensures
        others@ == other_tensors(listed@, t),
{
    let ghost pred = other_than(t);
    let mut others: Vec<TensorId> = Vec::new();
    let mut i: usize = 0;
    proof {
        reveal(Seq::filter);
    }
    while i < listed.len()
        invariant
            i <= listed.len(),
            pred == other_than(t),
            others@ == listed@.take(i as int).filter(pred),
        decreases listed.len() - i,
    {
        proof {
            reveal(Seq::filter);
            assert(listed@.take(i + 1).drop_last() =~= listed@.take(i as int));
        }
        if listed[i] != t {
            others.push(listed[i]);
        }
        i = i + 1;
    }
    assert(listed@.take(i as int) =~= listed@);
    others
}

/// Finds the only consumer of a tensor.
fn find_sole_consumer(graph: &RewriteGraph, t: TensorId) -> (found: Option<OpId>)
    requires
        graph.valid(),
    ensures
        found == graph@.sole_consumer(t),
        found matches Some(c) ==> c < graph.ops.len(),
{
    broadcast use vstd::std_specs::hash::group_hash_axioms;

    let ghost s = graph@;
    match graph.tensor_consumers.get(&t) {
        None => None,
        Some(list) => {
            let ghost set = s.consumers[t];
            assert(set == list@.to_set());
            assert(list@.no_duplicates());
            if list.len() == 1 {
                let c: OpId = list[0];
                proof {
                    assert(list@.contains(list@[0]));
                    assert(set.contains(c));
                    assert(set =~= set![c]);
                    let d = choose|d: OpId| #[trigger] s.consumers[t].contains(d) && s.consumers[t] == set![d];
                    assert(s.consumers[t].contains(d) && s.consumers[t] == set![d]);
                    assert(set![d].contains(c));
                }
                Some(c)
            } else {
                proof {
                    assert forall|c: OpId| #[trigger] s.consumers[t].contains(c) implies s.consumers[t] != set![c] by {
                        if s.consumers[t] == set![c] {
                            assert(list@.contains(c));
                            assert(list@.len() >= 2);
                            assert(list@.contains(list@[0]) && list@.contains(list@[1]));
                            assert(set![c].contains(list@[0]) && set![c].contains(list@[1]));
                        }
                    }
                }
                None
            }
        },
    }
}

/// Finds the operation that `op` absorbs.
fn find_fusion_partner(graph: &RewriteGraph, op: OpId) -> (found: Option<OpId>)
    requires
        graph.valid(),
        op < graph.ops.len(),
    ensures
        found == graph@.fusion_partner(op),
        found matches Some(c) ==> c < graph.ops.len(),
{
    assert(graph.ops@[op as int]@ == graph@.ops[op as int]);
    if graph.ops[op].outputs.len() != 1 {
        return None;
    }
    let t: TensorId = graph.ops[op].outputs[0];
    match find_sole_consumer(graph, t) {
        None => None,
        Some(c) => {
            assert(graph.ops@[c as int]@ == graph@.ops[c as int]);
            if graph.is_active(c) && c != op && graph.ops[c].op_type == OpType::Pointwise && ids::is_listed(
                &graph.ops[c].inputs,
                t,
            ) {
                Some(c)
            } else {
                None
            }
        },
    }
}

/// Lets `op` absorb `c`, the consumer of its only output.
fn absorb(graph: &mut RewriteGraph, op: OpId, c: OpId)
    requires
        old(graph).valid(),
        op < old(graph).ops.len(),
        c < old(graph).ops.len(),
        c != op,
        old(graph)@.ops[op as int].outputs.len() == 1,
        arith::fits(old(graph)@.ops[op as int].accumulated_cost + old(graph)@.ops[c as int].accumulated_cost),
    ensures
        final(graph).valid(),
        final(graph)@ == old(graph)@.absorbed(op, c),
{
    broadcast use vstd::std_specs::hash::group_hash_axioms;

    let ghost s = graph@;
    let ghost goal = s.absorbed(op, c);
    assert(graph.ops@[op as int]@ == s.ops[op as int]);
    assert(graph.ops@[c as int]@ == s.ops[c as int]);
    let gone: TensorId = graph.ops[op].outputs[0];
    let outs: Vec<TensorId> = models::copy_ids(graph.ops[c].outputs.as_slice());
    let others: Vec<TensorId> = list_others(&graph.ops[c].inputs, gone);
    let mut inputs: Vec<TensorId> = models::copy_ids(graph.ops[op].inputs.as_slice());
    let mut more: Vec<TensorId> = models::copy_ids(others.as_slice());
    inputs.append(&mut more);
    let cost: i64 = graph.ops[op].accumulated_cost + graph.ops[c].accumulated_cost;
    graph.ops[op].accumulated_cost = cost;
    graph.ops[op].inputs = inputs;
    graph.ops[op].outputs = models::copy_ids(outs.as_slice());
    graph.ops[c].fused_into = Some(op);
    let ghost ops_now = graph@.ops;
    proof {
        lemma_other_tensors(s.ops[c as int].inputs, gone);
        assert(ops_now =~= goal.ops);
    }
    let mut i: usize = 0;
    while i < outs.len()
        invariant
            i <= outs.len(),
            graph@ == (GraphModel { ops: ops_now, producers: graph@.producers, ..s }),
            forall|t: TensorId| #[trigger]
                graph.tensor_consumers@.contains_key(t) ==> graph.tensor_consumers@[t]@.no_duplicates(),
            forall|t: TensorId| #[trigger]
                graph@.producers.contains_key(t) <==> s.producers.contains_key(t) || outs@.take(i as int).contains(t),
            forall|t: TensorId| #[trigger]
                graph@.producers.contains_key(t) ==> graph@.producers[t] == if outs@.take(i as int).contains(t) {
                    op
                } else {
                    s.producers[t]
                },
        decreases outs.len() - i,
    {
        proof {
            models::lemma_take_contains(outs@, i as int);
        }
        graph.tensor_producers.insert(outs[i], op);
        assert(graph@ =~= GraphModel { ops: ops_now, producers: graph@.producers, ..s });
        i = i + 1;
    }
    assert(outs@.take(i as int) =~= outs@);
    graph.tensor_producers.remove(&gone);
    assert(graph@.producers =~= goal.producers);
    let mut j: usize = 0;
    assert(as_same(graph@, ops_now, s));
    while j < others.len()
        invariant
            j <= others.len(),
            as_same(graph@, ops_now, s),
            graph@.producers == goal.producers,
            forall|t: TensorId| #[trigger]
                graph.tensor_consumers@.contains_key(t) ==> graph.tensor_consumers@[t]@.no_duplicates(),
            forall|t: TensorId| #[trigger]
                graph@.consumers.contains_key(t) <==> s.consumers.contains_key(t) || others@.take(j as int).contains(t),
            forall|t: TensorId| #[trigger]
                graph@.consumers.contains_key(t) ==> graph@.consumers[t] == if others@.take(j as int).contains(t) {
                    rewrite_graph::with_consumer_in_place(s.consumers, t, c, op)[t]
                } else {
                    s.consumers[t]
                },
        decreases others.len() - j,
    {
        proof {
            models::lemma_take_contains(others@, j as int);
        }
        let t: TensorId = others[j];
        let ghost was = graph@;
        rewrite_graph::put_consumer_in_place(&mut graph.tensor_consumers, t, c, op);
        proof {
            let now = graph@;
            assert(now.consumers == rewrite_graph::with_consumer_in_place(was.consumers, t, c, op));
            assert(now.consumers[t] =~= rewrite_graph::with_consumer_in_place(s.consumers, t, c, op)[t]);
            assert(as_same(now, ops_now, s));
        }
        j = j + 1;
    }
    assert(others@.take(j as int) =~= others@);
    let ghost was = graph@;
    graph.tensor_consumers.remove(&gone);
    proof {
        assert(graph@.consumers =~= was.consumers.remove(gone));
        assert(graph@.consumers =~= goal.consumers);
        assert(graph@ =~= goal);
        assert forall|t: TensorId, x: OpId|
            goal.consumers.contains_key(t) && #[trigger] goal.consumers[t].contains(x) implies x < goal.ops.len() by {
            if x != op {
                assert(s.consumers[t].contains(x));
            }
        }
    }
}

/// The models agree but for operations, producers and consumers.
spec fn as_same(now: GraphModel, ops: Seq<OpModel>, s: GraphModel) -> bool {
    &&& now.tensors == s.tensors
    &&& now.ops == ops
    &&& now.outputs == s.outputs
    &&& now.constants == s.constants
    &&& now.deleted == s.deleted
    &&& now.remap == s.remap
}

/// Lets each operation whose only output goes to a pointwise operation alone absorb that
/// operation, and go on with the output that it has then.
pub fn operator_fusion(graph: &mut RewriteGraph) -> (fused: usize)
    requires
        old(graph).valid(),
        old(graph)@.fusion_fits(old(graph)@.ops.len()),
    ensures
        final(graph).valid(),
        final(graph)@ == old(graph)@.ops_fused(old(graph)@.ops.len()),
        final(graph)@.active_count() + fused == old(graph)@.active_count(),
{
    let ghost s = graph@;
    let n: usize = graph.ops.len();
    let mut fused: usize = 0;
    proof {
        lemma_active_bound(s, n as nat);
    }
    let mut op_id: usize = 0;
    while op_id < n
        invariant
            op_id <= n,
            n == graph.ops.len(),
            n == s.ops.len(),
            graph.valid(),
            s.active_count() <= n,
            s.fusion_fits(n as nat),
            graph@ == s.ops_fused(op_id as nat),
            graph@.active_count() + fused == s.active_count(),
        decreases n - op_id,
    {
        if graph.is_active(op_id) {
            let ghost before = graph@;
            assert(before == s.ops_fused(op_id as nat));
            let mut done: bool = false;
            let mut k: usize = 0;
            while k < n && !done
                invariant
                    k <= n,
                    op_id < n,
                    n == graph.ops.len(),
                    n == s.ops.len(),
                    n == before.ops.len(),
                    graph.valid(),
                    s.fusion_fits(n as nat),
                    before == s.ops_fused(op_id as nat),
                    before.active(op_id),
                    graph@ == before.fused_rounds(op_id, k as nat),
                    done ==> graph@.fusion_partner(op_id) is None,
                    graph@.active_count() + fused == s.active_count(),
                    s.active_count() <= n,
                decreases n - k, if done { 0int } else { 1int },
            {
                let ghost now = graph@;
                match find_fusion_partner(graph, op_id) {
                    None => {
                        done = true;
                    },
                    Some(c) => {
                        proof {
                            let j = op_id as nat;
                            assert(j as usize == op_id);
                            assert(arith::fits(
                                s.ops_fused(j).fused_rounds(j as usize, (k + 1) as nat).ops[j as int].accumulated_cost,
                            ));
                        }
                        absorb(graph, op_id, c);
                        proof {
                            assert(graph@.ops.len() == graph.ops.len());
                            lemma_one_less_active(now, graph@, c, n as nat);
                        }
                        fused = fused + 1;
                        k = k + 1;
                    },
                }
            }
            proof {
                if done {
                    lemma_rounds_done(before, op_id, k as nat, n as nat);
                }
            }
        }
        op_id = op_id + 1;
    }
    fused
}

/// What an operation computes. Of two operations that have absorbed no others, equal
/// signatures say that they compute the same.
#[verifier::ext_equal]
pub struct SignatureModel {
    pub op_type: OpType,
    pub inputs: Seq<TensorId>,
    pub cost: int,
    /// The operation that was found to have this signature.
    pub op: OpId,
}

/// A signature with the operation that has it.
struct Signature {
    op_type: OpType,
    inputs: Vec<TensorId>,
    cost: i64,
    op: OpId,
}

impl View for Signature {
    type V = SignatureModel;

    closed spec fn view(&self) -> SignatureModel {
        SignatureModel { op_type: self.op_type, inputs: self.inputs@, cost: self.cost as int, op: self.op }
    }
}

/// The lists mention each tensor equally often.
pub open spec fn same_mentions(a: Seq<TensorId>, b: Seq<TensorId>) -> bool {
    forall|t: TensorId| #[trigger] graph::occurrences(a, t) == graph::occurrences(b, t)
}

impl SignatureModel {
    /// The signatures agree. The order of the inputs of a pointwise operation does not matter.
    pub open spec fn agrees(self, other: SignatureModel) -> bool {
        &&& self.op_type == other.op_type
        &&& self.cost == other.cost
        &&& if self.op_type == OpType::Pointwise {
            same_mentions(self.inputs, other.inputs)
        } else {
            self.inputs == other.inputs
        }
    }
}

/// The first of the first `k` signatures that agrees with `sig`.
pub open spec fn find_agreeing(seen: Seq<SignatureModel>, sig: SignatureModel, k: nat) -> Option<OpId>
    decreases k,
{
    if k == 0 {
        None
    } else {
        match find_agreeing(seen, sig, (k - 1) as nat) {
            Some(op) => Some(op),
            None => if seen[k - 1].agrees(sig) {
                Some(seen[k - 1].op)
            } else {
                None
            },
        }
    }
}

/// The listed tensors, each resolved.
pub open spec fn all_resolved(remap: Map<TensorId, TensorId>, listed: Seq<TensorId>) -> Seq<TensorId> {
    Seq::new(listed.len(), |i: int| rewrite_graph::resolve(remap, listed[i]))
}

impl GraphModel {
    /// The signature of an operation.
    pub open spec fn signature(self, op: OpId) -> SignatureModel {
        let o = self.ops[op as int];
        SignatureModel {
            op_type: o.op_type,
            inputs: all_resolved(self.remap, o.inputs),
            cost: o.base_cost,
            op,
        }
    }

    /// The graph after the first `k` tensors of `from`, outputs of `op`, are replaced by those of `to`.
    pub open spec fn all_redirected(self, op: OpId, from: Seq<TensorId>, to: Seq<TensorId>, k: nat) -> GraphModel
        decreases k,
    {
        if k == 0 {
            self
        } else {
            self.all_redirected(op, from, to, (k - 1) as nat).redirected(op, from[k - 1], to[k - 1])
        }
    }

    /// The operation has absorbed another.
    pub open spec fn has_absorbed(self, op: OpId) -> bool {
        exists|c: int| 0 <= c < self.ops.len() && (#[trigger] self.ops[c]).fused_into == Some(op)
    }

    /// The graph and the signatures met after the first `k` operations have been
    /// looked at, in order: an operation that computes what an earlier one computes is
    /// dropped, and the outputs of the earlier one take the place of its own. Operations
    /// that have absorbed others are passed over, since their signatures do not tell
    /// what they have absorbed.
    pub open spec fn duplicates_dropped(self, k: nat) -> (GraphModel, Seq<SignatureModel>)
        decreases k,
    {
        if k == 0 {
            (self, Seq::empty())
        } else {
            let (s, seen) = self.duplicates_dropped((k - 1) as nat);
            let op = (k - 1) as usize;
            if s.active(op) && !s.has_absorbed(op) {
                match find_agreeing(seen, s.signature(op), seen.len()) {
                    Some(first) => {
                        let from = s.ops[op as int].outputs;
                        let to = s.ops[first as int].outputs;
                        if from.len() == to.len() {
                            (s.all_redirected(op, from, to, from.len()).without(op), seen)
                        } else {
                            (s, seen)
                        }
                    },
                    None => (s, seen.push(s.signature(op))),
                }
            } else {
                (s, seen)
            }
        }
    }
}

/// Counts the mentions of a tensor.
fn count_mentions(listed: &Vec<TensorId>, t: TensorId) -> (count: usize)
    ensures
        count == graph::occurrences(listed@, t),
{
    let mut count: usize = 0;
    let mut i: usize = 0;
    while i < listed.len()
        invariant
            i <= listed.len(),
            count <= i,
            count == graph::occurrences(listed@.take(i as int), t),
        decreases listed.len() - i,
    {
        assert(listed@.take(i + 1).drop_last() =~= listed@.take(i as int));
        if listed[i] == t {
            count = count + 1;
        }
        i = i + 1;
    }
    assert(listed@.take(i as int) =~= listed@);
    count
}

/// Whether `a` mentions each of its tensors as often as `b` does.
fn mentions_agree(a: &Vec<TensorId>, b: &Vec<TensorId>) -> (yes: bool)
    ensures
        yes <==> forall|i: int|
            0 <= i < a@.len() ==> graph::occurrences(a@, #[trigger] a@[i]) == graph::occurrences(b@, a@[i]),
{
    let mut i: usize = 0;
    while i < a.len()
        invariant
            i <= a.len(),
            forall|j: int|
                0 <= j < i ==> graph::occurrences(a@, #[trigger] a@[j]) == graph::occurrences(b@, a@[j]),
        decreases a.len() - i,
    {
        let t: TensorId = a[i];
        assert(t == a@[i as int]);
        if count_mentions(a, t) != count_mentions(b, t) {
            return false;
        }
        i = i + 1;
    }
    true
}

/// Whether the lists mention each tensor equally often.
fn have_same_mentions(a: &Vec<TensorId>, b: &Vec<TensorId>) -> (yes: bool)
    ensures
        yes == same_mentions(a@, b@),
{
    let forward: bool = mentions_agree(a, b);
    let backward: bool = mentions_agree(b, a);
    proof {
        if forward && backward {
            assert forall|t: TensorId| #[trigger] graph::occurrences(a@, t) == graph::occurrences(b@, t) by {
                graph::lemma_occurrences_zero(a@, t);
                graph::lemma_occurrences_zero(b@, t);
                if a@.contains(t) {
                    let i = choose|i: int| 0 <= i < a@.len() && a@[i] == t;
                    assert(graph::occurrences(a@, a@[i]) == graph::occurrences(b@, a@[i]));
                } else if b@.contains(t) {
                    let i = choose|i: int| 0 <= i < b@.len() && b@[i] == t;
                    assert(graph::occurrences(b@, b@[i]) == graph::occurrences(a@, b@[i]));
                }
            }
        }
    }
    forward && backward
}

/// Whether the lists are equal.
fn lists_equal(a: &Vec<TensorId>, b: &Vec<TensorId>) -> (yes: bool)
    ensures
        yes == (a@ == b@),
{
    if a.len() != b.len() {
        return false;
    }
    let mut i: usize = 0;
    while i < a.len()
        invariant
            i <= a.len(),
            a.len() == b.len(),
            forall|j: int| 0 <= j < i ==> a@[j] == b@[j],
        decreases a.len() - i,
    {
        if a[i] != b[i] {
            return false;
        }
        i = i + 1;
    }
    assert(a@ =~= b@);
    true
}

impl Signature {
    fn agrees_with(&self, other: &Signature) -> (yes: bool)
        ensures
            yes == self@.agrees(other@),
    {
        if self.op_type != other.op_type || self.cost != other.cost {
            false
        } else if self.op_type == OpType::Pointwise {
            have_same_mentions(&self.inputs, &other.inputs)
        } else {
            lists_equal(&self.inputs, &other.inputs)
        }
    }
}

spec fn models_of(seen: Seq<Signature>) -> Seq<SignatureModel> {
    Seq::new(seen.len(), |i: int| seen[i]@)
}

/// Finds the first signature that agrees with `sig`.
fn find_signature(seen: &Vec<Signature>, sig: &Signature) -> (found: Option<OpId>)
    ensures
        found == find_agreeing(models_of(seen@), sig@, seen@.len()),
{
    let ghost all = models_of(seen@);
    let mut i: usize = 0;
    while i < seen.len()
        invariant
            i <= seen.len(),
            all == models_of(seen@),
            find_agreeing(all, sig@, i as nat) is None,
        decreases seen.len() - i,
    {
        assert(all[i as int] == seen@[i as int]@);
        if seen[i].agrees_with(sig) {
            proof {
                lemma_found_stays(all, sig@, (i + 1) as nat, all.len());
            }
            return Some(seen[i].op);
        }
        i = i + 1;
    }
    None
}

proof fn lemma_found_stays(seen: Seq<SignatureModel>, sig: SignatureModel, k: nat, more: nat)
    requires
        find_agreeing(seen, sig, k) is Some,
        k <= more,
    ensures
        find_agreeing(seen, sig, more) == find_agreeing(seen, sig, k),
    decreases more,
{
    if more > k {
        lemma_found_stays(seen, sig, k, (more - 1) as nat);
    }
}

/// What is found among signatures of operations below `n` is below `n`.
proof fn lemma_found_bound(seen: Seq<SignatureModel>, sig: SignatureModel, k: nat, n: int)
    requires
        k <= seen.len(),
        forall|i: int| 0 <= i < seen.len() ==> (#[trigger] seen[i]).op < n,
    ensures
        find_agreeing(seen, sig, k) matches Some(op) ==> op < n,
    decreases k,
{
    if k > 0 {
        lemma_found_bound(seen, sig, (k - 1) as nat, n);
        assert(seen[k - 1].op < n);
    }
}

/// The signature of an operation.
fn signature_of(graph: &RewriteGraph, op_id: OpId) -> (sig: Signature)
    requires
        op_id < graph.ops.len(),
    ensures
        sig@ == graph@.signature(op_id),
{
    let op = &graph.ops[op_id];
    assert(op@ == graph@.ops[op_id as int]);
    let mut inputs: Vec<TensorId> = Vec::new();
    let mut i: usize = 0;
    while i < op.inputs.len()
        invariant
            i <= op.inputs.len(),
            inputs.len() == i,
            forall|j: int|
                0 <= j < i ==> #[trigger] inputs@[j] == rewrite_graph::resolve(graph@.remap, op.inputs@[j]),
        decreases op.inputs.len() - i,
    {
        inputs.push(graph.resolve_tensor(op.inputs[i]));
        i = i + 1;
    }
    let sig: Signature = Signature { op_type: op.op_type, inputs, cost: op.base_cost, op: op_id };
    assert(sig@.inputs =~= graph@.signature(op_id).inputs);
    assert(sig@ =~= graph@.signature(op_id));
    sig
}

/// Whether the operation has absorbed another.
fn check_absorbed_any(graph: &RewriteGraph, op_id: OpId) -> (yes: bool)
    ensures
        yes == graph@.has_absorbed(op_id),
{
    let ghost s = graph@;
    let mut c: usize = 0;
    while c < graph.ops.len()
        invariant
            c <= graph.ops.len(),
            s == graph@,
            forall|i: int| 0 <= i < c ==> (#[trigger] s.ops[i]).fused_into != Some(op_id),
        decreases graph.ops.len() - c,
    {
        assert(graph.ops@[c as int]@ == s.ops[c as int]);
        if let Some(by) = graph.ops[c].fused_into {
            if by == op_id {
                return true;
            }
        }
        c = c + 1;
    }
    false
}

/// Drops operations that compute what an earlier one computes. Simplifications that
/// would need the values of constants are not made, so the first count is always 0.
pub fn algebraic_simplification_and_cse(graph: &mut RewriteGraph) -> (counts: (usize, usize))
    requires
        old(graph).valid(),
    ensures
        final(graph).valid(),
        final(graph)@ == old(graph)@.duplicates_dropped(old(graph)@.ops.len()).0,
        counts.0 == 0,
        final(graph)@.active_count() + counts.1 == old(graph)@.active_count(),
{
    broadcast use vstd::std_specs::hash::group_hash_axioms;

    let ghost s = graph@;
    let n: usize = graph.ops.len();
    let mut eliminated: usize = 0;
    let mut seen: Vec<Signature> = Vec::new();
    assert(models_of(seen@) =~= Seq::<SignatureModel>::empty());
    let mut op_id: usize = 0;
    while op_id < n
        invariant
            op_id <= n,
            eliminated <= op_id,
            n == graph.ops.len(),
            n == s.ops.len(),
            graph.valid(),
            graph@ == s.duplicates_dropped(op_id as nat).0,
            models_of(seen@) == s.duplicates_dropped(op_id as nat).1,
            forall|i: int| 0 <= i < seen.len() ==> (#[trigger] models_of(seen@)[i]).op < n,
            graph@.active_count() + eliminated == s.active_count(),
        decreases n - op_id,
    {
        if graph.is_active(op_id) && !check_absorbed_any(graph, op_id) {
            let sig: Signature = signature_of(graph, op_id);
            match find_signature(&seen, &sig) {
                Some(first) => {
                    proof {
                        lemma_found_bound(models_of(seen@), sig@, seen@.len(), n as int);
                    }
                    let ghost before = graph@;
                    let from: Vec<TensorId> = models::copy_ids(graph.ops[op_id].outputs.as_slice());
                    let to: Vec<TensorId> = models::copy_ids(graph.ops[first].outputs.as_slice());
                    if from.len() == to.len() {
                        let mut k: usize = 0;
                        while k < from.len()
                            invariant
                                k <= from.len(),
                                from.len() == to.len(),
                                n == graph.ops.len(),
                                n == before.ops.len(),
                                graph.valid(),
                                graph@ == before.all_redirected(op_id, from@, to@, k as nat),
                                forall|i: OpId| i < n ==> (#[trigger] graph@.active(i) <==> before.active(i)),
                            decreases from.len() - k,
                        {
                            let ghost now = graph@;
                            assert(now.ops.len() == graph.ops.len());
                            graph.redirect(op_id, from[k], to[k]);
                            proof {
                                lemma_redirected_active(now, op_id, from@[k as int], to@[k as int]);
                                assert(graph@.ops.len() == graph.ops.len());
                                assert forall|i: OpId| i < n implies (#[trigger] graph@.active(i) <==> before.active(
                                    i,
                                )) by {
                                    assert(now.active(i) <==> before.active(i));
                                }
                            }
                            k = k + 1;
                        }
                        let ghost mid = graph@;
                        graph.deleted_ops.insert(op_id);
                        proof {
                            assert(graph@ =~= mid.without(op_id));
                            assert forall|i: OpId| i < n && i != op_id implies (#[trigger] before.active(i)
                                <==> graph@.active(i)) by {
                                assert(mid.active(i) <==> before.active(i));
                            }
                            assert(graph@.ops.len() == graph.ops.len());
                            lemma_one_less_active(before, graph@, op_id, n as nat);
                        }
                        eliminated = eliminated + 1;
                    }
                },
                None => {
                    let ghost before = models_of(seen@);
                    seen.push(sig);
                    proof {
                        assert(models_of(seen@) =~= before.push(sig@));
                        assert forall|i: int| 0 <= i < seen.len() implies (#[trigger] models_of(seen@)[i]).op < n by {
                            if i < before.len() {
                                assert(models_of(seen@)[i] == before[i]);
                            }
                        }
                    }
                },
            }
        }
        op_id = op_id + 1;
    }
    (0, eliminated)
}

impl GraphModel {
    /// `live` holds the results and whatever their producers take in.
    pub open spec fn closed_backward(self, live: Set<TensorId>) -> bool {
        &&& forall|t: TensorId| #[trigger]
            self.outputs.contains(t) ==> live.contains(rewrite_graph::resolve(self.remap, t))
        &&& forall|t: TensorId, j: int|
            #![trigger live.contains(t), self.ops[self.producers[t] as int].inputs[j]]
            live.contains(t) && self.producers.contains_key(t) && self.active(self.producers[t]) && 0 <= j
                < self.ops[self.producers[t] as int].inputs.len() ==> live.contains(
                rewrite_graph::resolve(self.remap, self.ops[self.producers[t] as int].inputs[j]),
            )
    }

    /// The tensors on which a result depends: the least set closed backward.
    pub open spec fn live_tensors(self) -> Set<TensorId> {
        Set::new(
            |t: TensorId| forall|live: Set<TensorId>| #[trigger] self.closed_backward(live) ==> live.contains(t),
        )
    }

    /// The operation produces a tensor on which a result depends.
    pub open spec fn is_live(self, op: OpId) -> bool {
        exists|t: TensorId| #[trigger]
            self.live_tensors().contains(t) && self.producers.contains_key(t) && self.producers[t] == op
    }

    /// The graph without the active operations on which no result depends.
    pub open spec fn dead_code_dropped(self) -> GraphModel {
        GraphModel {
            deleted: self.deleted.union(
                Set::new(|op: OpId| op < self.ops.len() && self.active(op) && !self.is_live(op)),
            ),
            ..self
        }
    }
}

/// Adds a tensor to the list, unless it is in the set already.
fn note_live(list: &mut Vec<TensorId>, set: &mut HashSet<TensorId>, t: TensorId)
    requires
        forall|x: TensorId| #[trigger] old(set)@.contains(x) <==> old(list)@.contains(x),
        old(list)@.no_duplicates(),
    ensures
        forall|x: TensorId| #[trigger] final(set)@.contains(x) <==> final(list)@.contains(x),
        final(list)@.no_duplicates(),
        forall|x: TensorId| #[trigger] final(list)@.contains(x) <==> old(list)@.contains(x) || x == t,
        old(list)@.len() <= final(list)@.len(),
        forall|i: int| 0 <= i < old(list)@.len() ==> #[trigger] final(list)@[i] == old(list)@[i],
{
    broadcast use vstd::std_specs::hash::group_hash_axioms;

    proof {
        ids::lemma_push_contains(list@, t);
    }
    if !set.contains(&t) {
        set.insert(t);
        list.push(t);
    }
}

/// Finds the active operations on which a result depends.
fn find_live_ops(graph: &RewriteGraph) -> (live_ops: Vec<bool>)
    requires
        graph.valid(),
    ensures
        live_ops.len() == graph.ops.len(),
        forall|op: OpId| op < graph.ops.len() ==> (#[trigger] live_ops@[op as int] <==> graph@.active(op) && graph@.is_live(op)),
{
    broadcast use vstd::std_specs::hash::group_hash_axioms;

    let ghost s = graph@;
    let n: usize = graph.ops.len();
    let mut list: Vec<TensorId> = Vec::new();
    let mut set: HashSet<TensorId> = HashSet::new();
    let ghost wanted = graph.output_tensors@;
    let mut i: usize = 0;
    while i < graph.output_tensors.len()
        invariant
            i <= wanted.len(),
            wanted == graph.output_tensors@,
            s == graph@,
            forall|x: TensorId| #[trigger] set@.contains(x) <==> list@.contains(x),
            list@.no_duplicates(),
            forall|x: TensorId| #[trigger] list@.contains(x) ==> s.live_tensors().contains(x),
            forall|j: int| 0 <= j < i ==> list@.contains(rewrite_graph::resolve(s.remap, #[trigger] wanted[j])),
        decreases wanted.len() - i,
    {
        let t: TensorId = graph.resolve_tensor(graph.output_tensors[i]);
        proof {
            assert(wanted.contains(wanted[i as int]));
            assert(s.outputs.contains(wanted[i as int]));
            assert(t == rewrite_graph::resolve(s.remap, wanted[i as int]));
            assert(s.live_tensors().contains(t));
        }
        note_live(&mut list, &mut set, t);
        i = i + 1;
    }
    let mut live_ops: Vec<bool> = Vec::new();
    let mut k: usize = 0;
    while k < n
        invariant
            k <= n,
            live_ops.len() == k,
            forall|j: int| 0 <= j < k ==> !#[trigger] live_ops@[j],
        decreases n - k,
    {
        live_ops.push(false);
        k = k + 1;
    }
    let ghost mut found: Seq<OpId> = Seq::empty();
    let mut head: usize = 0;
    while head < list.len()
        invariant
            head <= list.len(),
            n == graph.ops.len(),
            n == s.ops.len(),
            s == graph@,
            graph.valid(),
            wanted == graph.output_tensors@,
            live_ops.len() == n,
            forall|x: TensorId| #[trigger] set@.contains(x) <==> list@.contains(x),
            list@.no_duplicates(),
            forall|x: TensorId| #[trigger] list@.contains(x) ==> s.live_tensors().contains(x),
            forall|j: int|
                0 <= j < wanted.len() ==> list@.contains(rewrite_graph::resolve(s.remap, #[trigger] wanted[j])),
            found.no_duplicates(),
            found.len() <= n,
            forall|j: int| 0 <= j < found.len() ==> #[trigger] found[j] < n,
            forall|op: OpId| op < n ==> (#[trigger] live_ops@[op as int] <==> found.contains(op)),
            forall|op: OpId| op < n && #[trigger] live_ops@[op as int] ==> s.active(op) && s.is_live(op),
            // What a live operation takes in is live.
            forall|op: OpId, j: int|
                #![trigger live_ops@[op as int], s.ops[op as int].inputs[j]]
                op < n && live_ops@[op as int] && 0 <= j < s.ops[op as int].inputs.len() ==> list@.contains(
                    rewrite_graph::resolve(s.remap, s.ops[op as int].inputs[j]),
                ),
            // The producer of a tensor that has been looked at is live.
            forall|j: int|
                0 <= j < head && s.producers.contains_key(#[trigger] list@[j]) && s.active(s.producers[list@[j]])
                    ==> live_ops@[s.producers[list@[j]] as int],
        decreases n - found.len(), list.len() - head,
    {
        let t: TensorId = list[head];
        let ghost list0 = list@;
        assert(list@.contains(list@[head as int]));
        match graph.tensor_producers.get(&t) {
            None => {
                assert(!s.producers.contains_key(t));
            },
            Some(producer) => {
                let p: OpId = *producer;
                assert(s.producers.contains_key(t) && s.producers[t] == p);
                if graph.is_active(p) && !live_ops[p] {
                    live_ops.set(p, true);
                    assert(s.is_live(p));
                    let ghost ins = s.ops[p as int].inputs;
                    proof {
                        assert(!found.contains(p));
                        ids::lemma_push_contains(found, p);
                        found = found.push(p);
                        assert forall|j: int| 0 <= j < found.len() implies #[trigger] found[j] < n by {
                        }
                        graph::lemma_distinct_below(found, n as nat);
                    }
                    let mut j: usize = 0;
                    while j < graph.ops[p].inputs.len()
                        invariant
                            j <= ins.len(),
                            p < n,
                            n == graph.ops.len(),
                            s == graph@,
                            ins == s.ops[p as int].inputs,
                            s.live_tensors().contains(t),
                            s.producers.contains_key(t),
                            s.producers[t] == p,
                            s.active(p),
                            forall|x: TensorId| #[trigger] set@.contains(x) <==> list@.contains(x),
                            list@.no_duplicates(),
                            forall|x: TensorId| #[trigger] list@.contains(x) ==> s.live_tensors().contains(x),
                            list0.len() <= list@.len(),
                            forall|i: int| 0 <= i < list0.len() ==> #[trigger] list@[i] == list0[i],
                            forall|x: TensorId| #[trigger] list0.contains(x) ==> list@.contains(x),
                            forall|i: int|
                                0 <= i < j ==> list@.contains(rewrite_graph::resolve(s.remap, #[trigger] ins[i])),
                        decreases ins.len() - j,
                    {
                        let x: TensorId = graph.resolve_tensor(graph.ops[p].inputs[j]);
                        assert(x == rewrite_graph::resolve(s.remap, ins[j as int]));
                        proof {
                            assert forall|live: Set<TensorId>| #[trigger] s.closed_backward(live) implies live.contains(x) by {
                                assert(live.contains(t));
                                assert(live.contains(
                                    rewrite_graph::resolve(s.remap, s.ops[s.producers[t] as int].inputs[j as int]),
                                ));
                            }
                        }
                        note_live(&mut list, &mut set, x);
                        j = j + 1;
                    }
                }
            },
        }
        proof {
            assert forall|j: int|
                0 <= j < head + 1 && s.producers.contains_key(#[trigger] list@[j]) && s.active(
                    s.producers[list@[j]],
                ) implies live_ops@[s.producers[list@[j]] as int] by {
                assert(list@[j] == list0[j]);
            }
        }
        head = head + 1;
    }
    proof {
        let live = list@.to_set();
        assert(s.closed_backward(live)) by {
            assert forall|t: TensorId| #[trigger] s.outputs.contains(t) implies live.contains(
                rewrite_graph::resolve(s.remap, t),
            ) by {
                let j = choose|j: int| 0 <= j < wanted.len() && wanted[j] == t;
                assert(list@.contains(rewrite_graph::resolve(s.remap, wanted[j])));
            }
            assert forall|t: TensorId, j: int|
                #![trigger live.contains(t), s.ops[s.producers[t] as int].inputs[j]]
                live.contains(t) && s.producers.contains_key(t) && s.active(s.producers[t]) && 0 <= j
                    < s.ops[s.producers[t] as int].inputs.len() implies live.contains(
                rewrite_graph::resolve(s.remap, s.ops[s.producers[t] as int].inputs[j]),
            ) by {
                let i = choose|i: int| 0 <= i < list@.len() && list@[i] == t;
                assert(s.producers.contains_key(list@[i]));
                assert(live_ops@[s.producers[t] as int]);
            }
        }
        assert forall|op: OpId| op < n implies (#[trigger] live_ops@[op as int] <==> s.active(op) && s.is_live(op)) by {
            if s.active(op) && s.is_live(op) {
                let t = choose|t: TensorId| #[trigger]
                    s.live_tensors().contains(t) && s.producers.contains_key(t) && s.producers[t] == op;
                assert(live.contains(t));
                let i = choose|i: int| 0 <= i < list@.len() && list@[i] == t;
                assert(s.producers.contains_key(list@[i]));
            }
        }
    }
    live_ops
}

/// Drops the active operations on which no result depends.
pub fn dead_code_elimination(graph: &mut RewriteGraph) -> (eliminated: usize)
    requires
        old(graph).valid(),
    ensures
        final(graph).valid(),
        final(graph)@ == old(graph)@.dead_code_dropped(),
        final(graph)@.active_count() + eliminated == old(graph)@.active_count(),
{
    broadcast use vstd::std_specs::hash::group_hash_axioms;

    let ghost s = graph@;
    let n: usize = graph.ops.len();
    let live_ops: Vec<bool> = find_live_ops(graph);
    let mut eliminated: usize = 0;
    let mut op_id: usize = 0;
    while op_id < n
        invariant
            op_id <= n,
            eliminated <= op_id,
            n == graph.ops.len(),
            n == s.ops.len(),
            n == live_ops.len(),
            graph.valid(),
            graph@ == (GraphModel { deleted: graph@.deleted, ..s }),
            forall|op: OpId| op < n ==> (#[trigger] live_ops@[op as int] <==> s.active(op) && s.is_live(op)),
            forall|op: OpId| #[trigger]
                graph@.deleted.contains(op) <==> s.deleted.contains(op) || (op < op_id && s.active(op) && !s.is_live(op)),
            graph@.active_count() + eliminated == s.active_count(),
        decreases n - op_id,
    {
        let ghost before = graph@;
        let active: bool = graph.is_active(op_id);
        assert(active == s.active(op_id));
        if active && !live_ops[op_id] {
            graph.deleted_ops.insert(op_id);
            proof {
                assert(graph@ =~= GraphModel { deleted: graph@.deleted, ..s });
                assert(before.valid());
                assert(graph@.valid()) by {
                    assert forall|t: TensorId| #[trigger] graph@.producers.contains_key(t) implies graph@.producers[t]
                        < graph@.ops.len() by {
                        assert(before.producers.contains_key(t));
                    }
                    assert forall|t: TensorId, c: OpId|
                        graph@.consumers.contains_key(t) && #[trigger] graph@.consumers[t].contains(c) implies c < n by {
                        assert(before.consumers[t].contains(c));
                    }
                }
                lemma_one_less_active(before, graph@, op_id, n as nat);
            }
            eliminated = eliminated + 1;
        }
        op_id = op_id + 1;
    }
    proof {
        assert(graph@.deleted =~= s.dead_code_dropped().deleted);
        assert(graph@ =~= s.dead_code_dropped());
    }
    eliminated
}

/// What dead code elimination leaves is exactly what a result depends on.
pub proof fn only_live_operations_stay(s: GraphModel, op: OpId)
    requires
        op < s.ops.len(),
    ensures
        s.dead_code_dropped().active(op) <==> s.active(op) && s.is_live(op),
{
}

/// Without constants nothing is folded.
pub proof fn nothing_folds_without_constants(s: GraphModel)
    requires
        s.constants == Set::<TensorId>::empty(),
        s.ops.len() <= usize::MAX,
    ensures
        s.constants_folded() == s,
{
    let none = Set::<TensorId>::empty();
    assert(s.closed_under_folding(none)) by {
        assert forall|op: OpId, j: int|
            #![trigger s.ops[op as int].outputs[j]]
            op < s.ops.len() && s.active(op) && s.all_inputs_in(op, none) && 0 <= j
                < s.ops[op as int].outputs.len() implies none.contains(s.ops[op as int].outputs[j]) by {
            assert(none.contains(rewrite_graph::resolve(s.remap, s.ops[op as int].inputs[0])));
        }
    }
    assert(s.foldable_tensors() =~= none);
    assert forall|op: OpId| !s.all_inputs_in(op, none) by {
        if s.all_inputs_in(op, none) {
            assert(none.contains(rewrite_graph::resolve(s.remap, s.ops[op as int].inputs[0])));
        }
    }
    assert(s.constants_folded().deleted =~= s.deleted);
    assert(s.constants_folded() =~= s);
}

/// What the passes did.
#[derive(Debug, Clone, Copy)]
pub struct CanonStats {
    /// Operations dropped by constant folding.
    pub constant_folding: usize,
    /// Operations dropped as identities.
    pub identity_elimination: usize,
    /// Operations absorbed by others.
    pub operator_fusion: usize,
    /// Operations dropped by algebraic simplification.
    pub algebraic_simplification: usize,
    /// Operations dropped as common subexpressions.
    pub cse_elimination: usize,
    /// Operations dropped as dead code.
    pub dce_elimination: usize,
    /// Pairs of tensors that share memory.
    pub buffer_sharing_pairs: usize,
    /// Memory slots that the tensors need.
    pub memory_slots: usize,
    /// Memory that the tensors take without sharing.
    pub original_memory: i64,
    /// Memory that the tensors take with sharing.
    pub compacted_memory: i64,
    pub original_ops: usize,
    pub original_tensors: usize,
    pub final_ops: usize,
    pub final_tensors: usize,
    /// By how much the mentions of tensors by operations have fallen.
    pub edges_eliminated: usize,
}

impl Default for CanonStats {
    fn default() -> (stats: Self)
        ensures
            stats.eliminated() == 0,
            stats.buffer_sharing_pairs == 0,
            stats.memory_slots == 0,
            stats.original_memory == 0,
            stats.compacted_memory == 0,
            stats.original_ops == 0,
            stats.original_tensors == 0,
            stats.final_ops == 0,
            stats.final_tensors == 0,
            stats.edges_eliminated == 0,
    {
        CanonStats {
            constant_folding: 0,
            identity_elimination: 0,
            operator_fusion: 0,
            algebraic_simplification: 0,
            cse_elimination: 0,
            dce_elimination: 0,
            buffer_sharing_pairs: 0,
            memory_slots: 0,
            original_memory: 0,
            compacted_memory: 0,
            original_ops: 0,
            original_tensors: 0,
            final_ops: 0,
            final_tensors: 0,
            edges_eliminated: 0,
        }
    }
}

impl CanonStats {
    /// The operations that went in any of the passes.
    pub open spec fn eliminated(&self) -> int {
        self.constant_folding + self.identity_elimination + self.operator_fusion + self.algebraic_simplification
            + self.cse_elimination + self.dce_elimination
    }

    /// The number of operations that went in any of the passes.
    pub fn total_eliminated(&self) -> (total: usize)
        requires
            self.eliminated() <= usize::MAX,
        ensures
            total == self.eliminated(),
    {
        self.constant_folding + self.identity_elimination + self.operator_fusion + self.algebraic_simplification
            + self.cse_elimination + self.dce_elimination
    }
}

/// How often the first `k` operations mention a tensor.
pub open spec fn edge_count(ops: Seq<models::Op>, k: nat) -> nat
    decreases k,
{
    if k == 0 {
        0
    } else {
        edge_count(ops, (k - 1) as nat) + ops[k - 1].inputs@.len() + ops[k - 1].outputs@.len()
    }
}

proof fn lemma_edge_count_grows(ops: Seq<models::Op>, k: nat, more: nat)
    requires
        k <= more,
    ensures
        edge_count(ops, k) <= edge_count(ops, more),
    decreases more,
{
    if k < more {
        lemma_edge_count_grows(ops, k, (more - 1) as nat);
    }
}

/// Counts the mentions of tensors by operations.
fn count_edges(ops: &Vec<models::Op>) -> (count: usize)
    requires
        edge_count(ops@, ops@.len()) <= usize::MAX,
    ensures
        count == edge_count(ops@, ops@.len()),
{
    let mut count: usize = 0;
    let mut i: usize = 0;
    while i < ops.len()
        invariant
            i <= ops.len(),
            edge_count(ops@, ops@.len()) <= usize::MAX,
            count == edge_count(ops@, i as nat),
        decreases ops.len() - i,
    {
        proof {
            lemma_edge_count_grows(ops@, (i + 1) as nat, ops@.len());
        }
        count = count + ops[i].inputs.len() + ops[i].outputs.len();
        i = i + 1;
    }
    count
}

/// By how much the mentions of tensors stay below a limit.
fn edges_below(ops: &Vec<models::Op>, limit: usize) -> (margin: usize)
    ensures
        margin == arith::greatest(limit - edge_count(ops@, ops@.len()), 0),
{
    let mut margin: usize = limit;
    let mut i: usize = 0;
    while i < ops.len()
        invariant
            i <= ops.len(),
            margin + edge_count(ops@, i as nat) == limit,
        decreases ops.len() - i,
    {
        let more: u128 = ops[i].inputs.len() as u128 + ops[i].outputs.len() as u128;
        if more > margin as u128 {
            proof {
                lemma_edge_count_grows(ops@, (i + 1) as nat, ops@.len());
            }
            return 0;
        }
        margin = margin - more as usize;
        i = i + 1;
    }
    margin
}

/// The graph after constant folding and identity elimination.
pub open spec fn simplified(p: Problem) -> GraphModel {
    let s = rewrite_graph::model_of(p).constants_folded();
    s.identities_dropped(s.ops.len())
}

/// The graph after fusion, with its results worked out anew.
pub open spec fn with_fusion(p: Problem) -> GraphModel {
    let s = simplified(p);
    s.ops_fused(s.ops.len()).recalculated()
}

/// The graph after common subexpressions have gone, with its results worked out anew.
pub open spec fn without_duplicates(p: Problem) -> GraphModel {
    let s = with_fusion(p);
    s.duplicates_dropped(s.ops.len()).0.recalculated()
}

/// The graph after all passes.
pub open spec fn canonical(p: Problem) -> GraphModel {
    without_duplicates(p).dead_code_dropped()
}

/// Working out the results anew changes no operation.
proof fn lemma_recalculated_active(s: GraphModel)
    requires
        s.ops.len() <= usize::MAX,
    ensures
        s.recalculated().active_count() == s.active_count(),
{
    lemma_same_active(s, s.recalculated(), s.ops.len());
}

impl CanonStats {
    /// The numbers tell how all passes made `after` of `before`.
    pub open spec fn account_for(&self, before: Problem, after: Problem) -> bool {
        let folded = rewrite_graph::model_of(before).constants_folded();
        &&& canonical(before).writes_back(after, before)
        &&& folded.active_count() + self.constant_folding == before.ops@.len()
        &&& simplified(before).active_count() + self.identity_elimination == folded.active_count()
        &&& with_fusion(before).active_count() + self.operator_fusion == simplified(before).active_count()
        &&& self.algebraic_simplification == 0
        &&& without_duplicates(before).active_count() + self.cse_elimination == with_fusion(before).active_count()
        &&& canonical(before).active_count() + self.dce_elimination == without_duplicates(before).active_count()
        &&& exists|info: BufferSharingInfo| #[trigger]
            info.is_of(canonical(before)) && self.buffer_sharing_pairs == info.sharing_pairs@.len() && self.memory_slots
                == info.slot_sizes@.len() && self.original_memory == info.original_memory && self.compacted_memory
                == info.compacted_memory
        &&& self.original_ops == before.ops@.len()
        &&& self.original_tensors == before.tensors@.len()
        &&& self.final_ops == after.ops@.len()
        &&& self.final_tensors == before.tensors@.len()
        &&& self.edges_eliminated == arith::greatest(
            edge_count(before.ops@, before.ops@.len()) - edge_count(after.ops@, after.ops@.len()),
            0,
        )
        &&& self.original_ops == self.final_ops + self.eliminated()
    }
}

/// Applies all passes to the problem. Every operation of the original that is not in
/// the result is counted by exactly one pass.
pub fn canonicalize_graph(problem: &mut Problem) -> (stats: CanonStats)
    requires
        buffer_sharing::tensors_fit(old(problem).tensors@),
        simplified(*old(problem)).fusion_fits(simplified(*old(problem)).ops.len()),
        edge_count(old(problem).ops@, old(problem).ops@.len()) <= usize::MAX,
    ensures
        stats.account_for(*old(problem), *final(problem)),
{
    let ghost p = *problem;
    let mut stats: CanonStats = CanonStats::default();
    stats.original_ops = problem.ops.len();
    stats.original_tensors = problem.tensors.len();
    let original_edges: usize = count_edges(&problem.ops);
    let mut graph: RewriteGraph = RewriteGraph::from_problem(problem);
    proof {
        let s = rewrite_graph::model_of(p);
        lemma_all_active(s, s.ops.len());
        assert(areas_fit(p.tensors@)) by {
            assert(p.tensors@.len() == p.tensors.len());
            assert forall|i: int| 0 <= i < p.tensors@.len() implies arith::fits((#[trigger] p.tensors@[i]).area()) by {
                buffer_sharing::lemma_each_fits(p.tensors@, i);
            }
        }
    }
    stats.constant_folding = constant_folding(&mut graph);
    stats.identity_elimination = identity_elimination(&mut graph);
    proof {
        lemma_identities_keep_tensors(
            rewrite_graph::model_of(p).constants_folded(),
            rewrite_graph::model_of(p).constants_folded().ops.len(),
        );
    }
    stats.operator_fusion = operator_fusion(&mut graph);
    proof {
        assert(graph@.ops.len() == graph.ops.len());
        lemma_recalculated_active(graph@);
        lemma_fusion_keeps_tensors(simplified(p), simplified(p).ops.len());
    }
    graph.recalculate_outputs();
    let (simplifications, duplicates): (usize, usize) = algebraic_simplification_and_cse(&mut graph);
    stats.algebraic_simplification = simplifications;
    stats.cse_elimination = duplicates;
    proof {
        assert(graph@.ops.len() == graph.ops.len());
        lemma_recalculated_active(graph@);
        lemma_duplicates_keep_tensors(with_fusion(p), with_fusion(p).ops.len());
    }
    graph.recalculate_outputs();
    stats.dce_elimination = dead_code_elimination(&mut graph);
    assert(graph@ == canonical(p));
    let info: BufferSharingInfo = buffer_sharing::analyze_buffer_sharing(&graph);
    assert(info.is_of(canonical(p)));
    stats.buffer_sharing_pairs = info.sharing_pairs.len();
    stats.memory_slots = info.slot_sizes.len();
    stats.original_memory = info.original_memory;
    stats.compacted_memory = info.compacted_memory;
    let rewritten: Problem = graph.to_problem(problem);
    stats.final_ops = rewritten.ops.len();
    stats.final_tensors = rewritten.tensors.len();
    stats.edges_eliminated = edges_below(&rewritten.ops, original_edges);
    *problem = rewritten;
    stats
}

proof fn lemma_all_active(s: GraphModel, k: nat)
    requires
        k <= s.ops.len() <= usize::MAX,
        forall|i: OpId| i < s.ops.len() ==> #[trigger] s.active(i),
    ensures
        s.active_among(k) == k,
    decreases k,
{
    if k > 0 {
        lemma_all_active(s, (k - 1) as nat);
        assert(s.active((k - 1) as usize));
    }
}

proof fn lemma_identities_keep_tensors(s: GraphModel, k: nat)
    ensures
        s.identities_dropped(k).tensors == s.tensors,
    decreases k,
{
    if k > 0 {
        lemma_identities_keep_tensors(s, (k - 1) as nat);
    }
}

proof fn lemma_rounds_keep_tensors(s: GraphModel, op: OpId, k: nat)
    ensures
        s.fused_rounds(op, k).tensors == s.tensors,
    decreases k,
{
    if k > 0 {
        lemma_rounds_keep_tensors(s, op, (k - 1) as nat);
    }
}

proof fn lemma_fusion_keeps_tensors(s: GraphModel, k: nat)
    ensures
        s.ops_fused(k).tensors == s.tensors,
    decreases k,
{
    if k > 0 {
        lemma_fusion_keeps_tensors(s, (k - 1) as nat);
        let t = s.ops_fused((k - 1) as nat);
        lemma_rounds_keep_tensors(t, (k - 1) as usize, t.ops.len());
    }
}

proof fn lemma_redirects_keep_tensors(s: GraphModel, op: OpId, from: Seq<TensorId>, to: Seq<TensorId>, k: nat)
    ensures
        s.all_redirected(op, from, to, k).tensors == s.tensors,
    decreases k,
{
    if k > 0 {
        lemma_redirects_keep_tensors(s, op, from, to, (k - 1) as nat);
    }
}

proof fn lemma_duplicates_keep_tensors(s: GraphModel, k: nat)
    ensures
        s.duplicates_dropped(k).0.tensors == s.tensors,
    decreases k,
{
    if k > 0 {
        lemma_duplicates_keep_tensors(s, (k - 1) as nat);
        let (t, seen) = s.duplicates_dropped((k - 1) as nat);
        let op = (k - 1) as usize;
        match find_agreeing(seen, t.signature(op), seen.len()) {
            Some(first) => {
                lemma_redirects_keep_tensors(
                    t,
                    op,
                    t.ops[op as int].outputs,
                    t.ops[first as int].outputs,
                    t.ops[op as int].outputs.len(),
                );
            },
            None => {},
        }
    }
}

/// Canonicalization keeps the tensors and the machine as they are, and never adds an operation.
pub proof fn canonicalization_keeps_the_rest(before: Problem, after: Problem)
    requires
        canonical(before).writes_back(after, before),
    ensures
        after.tensors@ == before.tensors@,
        after.fast_memory_capacity == before.fast_memory_capacity,
        after.slow_memory_bandwidth == before.slow_memory_bandwidth,
        after.native_granularity == before.native_granularity,
{
    let s = rewrite_graph::model_of(before).constants_folded();
    lemma_identities_keep_tensors(s, s.ops.len());
    lemma_fusion_keeps_tensors(simplified(before), simplified(before).ops.len());
    lemma_duplicates_keep_tensors(with_fusion(before), with_fusion(before).ops.len());
}

/// What canonicalization tells of itself adds up: every operation is still there or was
/// eliminated by a pass, tensors and machine are as before, and sharing memory never
/// takes more.
pub proof fn canonicalization_adds_up(stats: CanonStats, before: Problem, after: Problem)
    requires
        stats.account_for(before, after),
        forall|t: int|
            0 <= t < before.tensors@.len() ==> (#[trigger] before.tensors@[t]).width >= 0 && before.tensors@[t].height >= 0,
    ensures
        stats.original_ops == before.ops@.len(),
        stats.final_ops == after.ops@.len(),
        stats.final_ops + stats.eliminated() == stats.original_ops,
        after.tensors@ == before.tensors@,
        after.fast_memory_capacity == before.fast_memory_capacity,
        after.slow_memory_bandwidth == before.slow_memory_bandwidth,
        after.native_granularity == before.native_granularity,
        stats.compacted_memory <= stats.original_memory,
{
    canonicalization_keeps_the_rest(before, after);
    let s = rewrite_graph::model_of(before).constants_folded();
    lemma_identities_keep_tensors(s, s.ops.len());
    lemma_fusion_keeps_tensors(simplified(before), simplified(before).ops.len());
    lemma_duplicates_keep_tensors(with_fusion(before), with_fusion(before).ops.len());
    assert(canonical(before).tensors == before.tensors@);
    assert(before.tensors@.len() == before.tensors.len());
    assert forall|i: int| 0 <= i < before.tensors@.len() implies (#[trigger] before.tensors@[i]).area() >= 0 by {
        let tensor = before.tensors@[i];
        assert(tensor.width * tensor.height >= 0) by (nonlinear_arith)
            requires
                tensor.width >= 0,
                tensor.height >= 0,
        ;
    }
    let info = choose|info: BufferSharingInfo| #[trigger]
        info.is_of(canonical(before)) && stats.buffer_sharing_pairs == info.sharing_pairs@.len() && stats.memory_slots
            == info.slot_sizes@.len() && stats.original_memory == info.original_memory && stats.compacted_memory
            == info.compacted_memory;
    buffer_sharing::sharing_never_costs(info, canonical(before));
}

} // verus!
