//! Which operations the passes over the graph take away, and which they leave.
use vstd::prelude::*;
use crate::{arith, graph, graph_rewrite, rewrite_graph};
use crate::graph_rewrite::SignatureModel;
use crate::models::{Op, OpId, OpType, TensorId};
use crate::rewrite_graph::{GraphModel, OpModel};

verus! {

/// Folding drops exactly the active operations that take in something and only constants,
/// and makes what they put out constant. Nothing else becomes constant.
pub proof fn constant_inputs_are_folded(before: GraphModel, after: GraphModel, op: OpId, t: TensorId)
    requires
        after == before.constants_folded(),
        op < before.ops.len() <= usize::MAX,
        before.active(op),
    ensures
        ({
            let o = before.ops[op as int];
            let folded = o.inputs.len() > 0 && forall|j: int|
                0 <= j < o.inputs.len() ==> after.constants.contains(
                    rewrite_graph::resolve(before.remap, #[trigger] o.inputs[j]),
                );
            &&& after.deleted.contains(op) <==> folded
            &&& folded && o.outputs.contains(t) ==> after.constants.contains(t)
            &&& before.constants.contains(t) ==> after.constants.contains(t)
            &&& after.constants.contains(t) && !before.constants.contains(t) ==> exists|by: OpId|
                by < before.ops.len() && before.active(by) && after.deleted.contains(by)
                    && #[trigger] before.ops[by as int].outputs.contains(t)
            &&& after.ops == before.ops && after.remap == before.remap
        }),
{
    let known = before.foldable_tensors();
    lemma_known_is_closed(before);
    let o = before.ops[op as int];
    assert(before.all_inputs_in(op, known) <==> o.inputs.len() > 0 && forall|j: int|
        0 <= j < o.inputs.len() ==> after.constants.contains(
            rewrite_graph::resolve(before.remap, #[trigger] o.inputs[j]),
        ));
    if before.all_inputs_in(op, known) && o.outputs.contains(t) {
        let j = choose|j: int| 0 <= j < o.outputs.len() && o.outputs[j] == t;
        assert(known.contains(before.ops[op as int].outputs[j]));
    }
    let justified = Set::new(
        |t: TensorId|
            known.contains(t) && (before.constants.contains(t) || exists|by: OpId|
                by < before.ops.len() && before.active(by) && after.deleted.contains(by)
                    && #[trigger] before.ops[by as int].outputs.contains(t)),
    );
    assert(before.closed_under_folding(justified)) by {
        assert forall|by: OpId, j: int|
            #![trigger before.ops[by as int].outputs[j]]
            by < before.ops.len() && before.active(by) && before.all_inputs_in(by, justified) && 0 <= j
                < before.ops[by as int].outputs.len() implies justified.contains(before.ops[by as int].outputs[j]) by {
            assert(before.all_inputs_in(by, known)) by {
                assert forall|x: int| 0 <= x < before.ops[by as int].inputs.len() implies known.contains(
                    rewrite_graph::resolve(before.remap, #[trigger] before.ops[by as int].inputs[x]),
                ) by {
                    assert(justified.contains(
                        rewrite_graph::resolve(before.remap, before.ops[by as int].inputs[x]),
                    ));
                }
            }
            assert(known.contains(before.ops[by as int].outputs[j]));
            assert(before.ops[by as int].outputs.contains(before.ops[by as int].outputs[j]));
            assert(after.deleted.contains(by));
        }
    }
    if after.constants.contains(t) {
        assert(justified.contains(t));
    }
}

proof fn lemma_known_is_closed(s: GraphModel)
    ensures
        s.closed_under_folding(s.foldable_tensors()),
{
    let known = s.foldable_tensors();
    assert forall|op: OpId, j: int|
        #![trigger s.ops[op as int].outputs[j]]
        op < s.ops.len() && s.active(op) && s.all_inputs_in(op, known) && 0 <= j < s.ops[op as int].outputs.len() implies known.contains(
        s.ops[op as int].outputs[j],
    ) by {
        assert forall|other: Set<TensorId>| #[trigger] s.closed_under_folding(other) implies other.contains(
            s.ops[op as int].outputs[j],
        ) by {
            assert(s.all_inputs_in(op, other)) by {
                assert forall|x: int| 0 <= x < s.ops[op as int].inputs.len() implies other.contains(
                    rewrite_graph::resolve(s.remap, #[trigger] s.ops[op as int].inputs[x]),
                ) by {
                    assert(known.contains(rewrite_graph::resolve(s.remap, s.ops[op as int].inputs[x])));
                }
            }
        }
    }
}

/// An active operation is dropped as an identity exactly if it is pointwise, costs nothing,
/// and leads from one tensor to one other with as many entries. Its output then stands for
/// its input. Otherwise the graph stays as it is.
pub proof fn free_copies_are_dropped(start: GraphModel, k: nat, other: OpId)
    requires
        0 < k <= start.ops.len() <= usize::MAX,
        other != k - 1,
    ensures
        ({
            let before = start.identities_dropped((k - 1) as nat);
            let after = start.identities_dropped(k);
            let op = (k - 1) as usize;
            let o = before.ops[op as int];
            let from = rewrite_graph::resolve(before.remap, o.inputs[0]);
            let to = o.outputs[0];
            let copies = before.active(op) && o.op_type == OpType::Pointwise && o.base_cost == 0 && o.inputs.len() == 1
                && o.outputs.len() == 1 && from < before.tensors.len() && to < before.tensors.len()
                && before.tensors[from as int].width * before.tensors[from as int].height
                == before.tensors[to as int].width * before.tensors[to as int].height;
            &&& !copies ==> after == before
            &&& copies ==> after.deleted.contains(op) && after.remap.contains_key(to) && after.remap[to] == from
            &&& after.deleted.contains(other) <==> before.deleted.contains(other)
            &&& after.tensors == before.tensors
        }),
{
}

/// An operation absorbs another exactly if it has one output, that is consumed by the other
/// alone, and the other is active, pointwise and takes in that output itself.
pub proof fn sole_pointwise_consumers_are_absorbed(s: GraphModel, op: OpId, c: OpId)
    ensures
        s.fusion_partner(op) == Some(c) <==> {
            let outs = s.ops[op as int].outputs;
            &&& outs.len() == 1
            &&& s.consumers.contains_key(outs[0])
            &&& forall|x: OpId| #[trigger] s.consumers[outs[0]].contains(x) <==> x == c
            &&& c != op
            &&& s.active(c)
            &&& s.ops[c as int].op_type == OpType::Pointwise
            &&& s.ops[c as int].inputs.contains(outs[0])
        },
{
    let outs = s.ops[op as int].outputs;
    if outs.len() == 1 {
        let t = outs[0];
        if s.consumers.contains_key(t) {
            if s.sole_consumer(t) is Some {
                let only = s.sole_consumer(t)->0;
                assert(s.consumers[t] == set![only]);
                assert(s.consumers[t].contains(only));
            }
            if forall|x: OpId| #[trigger] s.consumers[t].contains(x) <==> x == c {
                assert(s.consumers[t] =~= set![c]);
                assert(s.consumers[t].contains(c));
                assert(s.sole_consumer(t) is Some);
                let only = s.sole_consumer(t)->0;
                assert(s.consumers[t].contains(only));
            }
        }
    }
}

/// Absorbing takes over the outputs, adds up the costs, and takes in what the other took
/// in besides the tensor between the two. The other is marked, and no third is touched.
pub proof fn absorbing_takes_over(s: GraphModel, op: OpId, c: OpId, x: OpId, t: TensorId)
    requires
        s.fusion_partner(op) == Some(c),
        op < s.ops.len(),
        c < s.ops.len(),
        x < s.ops.len(),
    ensures
        ({
            let after = s.absorbed(op, c);
            let gone = s.ops[op as int].outputs[0];
            &&& after.ops[op as int].outputs == s.ops[c as int].outputs
            &&& after.ops[op as int].accumulated_cost == s.ops[op as int].accumulated_cost
                + s.ops[c as int].accumulated_cost
            &&& after.ops[op as int].base_cost == s.ops[op as int].base_cost
            &&& after.ops[op as int].op_type == s.ops[op as int].op_type
            &&& after.ops[op as int].inputs.contains(t) <==> s.ops[op as int].inputs.contains(t) || (
            s.ops[c as int].inputs.contains(t) && t != gone)
            &&& after.ops[c as int].fused_into == Some(op)
            &&& x != op && x != c ==> after.ops[x as int] == s.ops[x as int]
            &&& !after.consumers.contains_key(gone) && !after.producers.contains_key(gone)
            &&& s.ops[c as int].outputs.contains(t) && t != gone ==> after.producers.contains_key(t) && after.producers[t]
                == op
            &&& after.deleted == s.deleted && after.remap == s.remap
        }),
{
    let gone = s.ops[op as int].outputs[0];
    let listed = s.ops[c as int].inputs;
    let others = graph_rewrite::other_tensors(listed, gone);
    let pred = graph_rewrite::other_than(gone);
    let mine = s.ops[op as int].inputs;
    crate::ids::lemma_concat_contains(mine, others, t);
    if others.contains(t) {
        let i = choose|i: int| 0 <= i < others.len() && others[i] == t;
        listed.lemma_filter_pred(pred, i);
        listed.lemma_filter_contains_rev(pred, t);
    }
    if listed.contains(t) && t != gone {
        let i = choose|i: int| 0 <= i < listed.len() && listed[i] == t;
        listed.lemma_filter_contains(pred, i);
    }
}

/// The first signature that agrees is found: same kind, same cost, and the same inputs, of
/// a pointwise operation in any order.
pub proof fn the_first_equal_operation_is_found(seen: Seq<SignatureModel>, sig: SignatureModel, k: nat)
    requires
        k <= seen.len(),
    ensures
        ({
            let found = graph_rewrite::find_agreeing(seen, sig, k);
            &&& found is None <==> forall|i: int| 0 <= i < k ==> !is_equal(#[trigger] seen[i], sig)
            &&& found is Some ==> exists|i: int|
                {
                    &&& 0 <= i < k
                    &&& is_equal(#[trigger] seen[i], sig)
                    &&& found == Some(seen[i].op)
                    &&& forall|j: int| 0 <= j < i ==> !is_equal(#[trigger] seen[j], sig)
                }
        }),
    decreases k,
{
    if k > 0 {
        the_first_equal_operation_is_found(seen, sig, (k - 1) as nat);
        lemma_agrees(seen[k - 1], sig);
        let before = graph_rewrite::find_agreeing(seen, sig, (k - 1) as nat);
        if before is Some {
            let i = choose|i: int|
                {
                    &&& 0 <= i < k - 1
                    &&& is_equal(#[trigger] seen[i], sig)
                    &&& before == Some(seen[i].op)
                    &&& forall|j: int| 0 <= j < i ==> !is_equal(#[trigger] seen[j], sig)
                };
            assert(0 <= i < k && is_equal(seen[i], sig));
        } else if is_equal(seen[k - 1], sig) {
            assert(0 <= k - 1 < k && is_equal(seen[k - 1], sig));
        }
    }
}

/// Says of a tensor whether it is `t`.
pub open spec fn is_tensor(t: TensorId) -> spec_fn(TensorId) -> bool {
    |x: TensorId| x == t
}

/// How often the list mentions the tensor.
pub open spec fn mentions(listed: Seq<TensorId>, t: TensorId) -> nat {
    listed.filter(is_tensor(t)).len()
}

/// Both operations are of one kind and cost, and take in the same: pointwise ones each
/// tensor equally often, others in the same order.
pub open spec fn is_equal(a: SignatureModel, b: SignatureModel) -> bool {
    &&& a.op_type == b.op_type
    &&& a.cost == b.cost
    &&& a.op_type == OpType::MatMul ==> a.inputs == b.inputs
    &&& a.op_type == OpType::Pointwise ==> forall|t: TensorId|
        #[trigger] mentions(a.inputs, t) == mentions(b.inputs, t)
}

proof fn lemma_occurrences(s: Seq<TensorId>, t: TensorId)
    ensures
        graph::occurrences(s, t) == mentions(s, t),
    decreases s.len(),
{
    let pred = is_tensor(t);
    if s.len() == 0 {
        reveal(Seq::filter);
    } else {
        lemma_occurrences(s.drop_last(), t);
        assert(s =~= s.drop_last().push(s.last()));
        s.drop_last().lemma_filter_push(s.last(), pred);
    }
}

proof fn lemma_agrees(a: SignatureModel, b: SignatureModel)
    ensures
        a.agrees(b) == is_equal(a, b),
{
    if a.op_type == OpType::Pointwise {
        if a.agrees(b) {
            assert forall|t: TensorId|
                #[trigger] mentions(a.inputs, t) == mentions(b.inputs, t) by {
                assert(graph::occurrences(a.inputs, t) == graph::occurrences(b.inputs, t));
                lemma_occurrences(a.inputs, t);
                lemma_occurrences(b.inputs, t);
            }
        }
        if is_equal(a, b) {
            assert forall|t: TensorId| #[trigger] graph::occurrences(a.inputs, t) == graph::occurrences(b.inputs, t) by {
                lemma_occurrences(a.inputs, t);
                lemma_occurrences(b.inputs, t);
                assert(mentions(a.inputs, t) == mentions(b.inputs, t));
            }
        }
    }
}

/// An active operation that has absorbed none is dropped exactly if an earlier one that was
/// met is equal to it and puts out as many tensors. Otherwise the graph stays as it is.
pub proof fn repeated_operations_are_dropped(start: GraphModel, k: nat)
    requires
        0 < k <= start.ops.len() <= usize::MAX,
    ensures
        ({
            let (before, seen) = start.duplicates_dropped((k - 1) as nat);
            let after = start.duplicates_dropped(k).0;
            let op = (k - 1) as usize;
            let whole = before.active(op) && forall|c: int|
                0 <= c < before.ops.len() ==> (#[trigger] before.ops[c]).fused_into != Some(op);
            let repeats = whole && exists|i: int|
                {
                    &&& 0 <= i < seen.len()
                    &&& is_equal(#[trigger] seen[i], before.signature(op))
                    &&& before.ops[seen[i].op as int].outputs.len() == before.ops[op as int].outputs.len()
                    &&& forall|j: int| 0 <= j < i ==> !is_equal(#[trigger] seen[j], before.signature(op))
                };
            &&& repeats ==> after.deleted.contains(op)
            &&& !repeats ==> after == before
        }),
{
    let (before, seen) = start.duplicates_dropped((k - 1) as nat);
    let op = (k - 1) as usize;
    let sig = before.signature(op);
    the_first_equal_operation_is_found(seen, sig, seen.len());
    let found = graph_rewrite::find_agreeing(seen, sig, seen.len());
    if found is Some {
        let i = choose|i: int|
            {
                &&& 0 <= i < seen.len()
                &&& is_equal(#[trigger] seen[i], sig)
                &&& found == Some(seen[i].op)
                &&& forall|j: int| 0 <= j < i ==> !is_equal(#[trigger] seen[j], sig)
            };
        assert(is_equal(seen[i], sig));
        if exists|x: int|
            {
                &&& 0 <= x < seen.len()
                &&& is_equal(#[trigger] seen[x], sig)
                &&& before.ops[seen[x].op as int].outputs.len() == before.ops[op as int].outputs.len()
                &&& forall|j: int| 0 <= j < x ==> !is_equal(#[trigger] seen[j], sig)
            } {
            let x = choose|x: int|
                {
                    &&& 0 <= x < seen.len()
                    &&& is_equal(#[trigger] seen[x], sig)
                    &&& before.ops[seen[x].op as int].outputs.len() == before.ops[op as int].outputs.len()
                    &&& forall|j: int| 0 <= j < x ==> !is_equal(#[trigger] seen[j], sig)
                };
            assert(x == i) by {
                if x < i {
                    assert(!is_equal(seen[x], sig));
                }
                if i < x {
                    assert(!is_equal(seen[i], sig));
                }
            }
        }
        let from = before.ops[op as int].outputs;
        let to = before.ops[found->0 as int].outputs;
        if from.len() == to.len() && before.active(op) && !before.has_absorbed(op) {
            assert(start.duplicates_dropped(k).0 == before.all_redirected(op, from, to, from.len()).without(op));
        }
    }
}

/// What an operation takes in that makes something a result depends on, a result depends
/// on too. Dead code is what makes nothing of that kind.
pub proof fn results_depend_on_inputs(s: GraphModel, t: TensorId, op: OpId, j: int)
    requires
        op < s.ops.len(),
    ensures
        s.outputs.contains(t) ==> s.live_tensors().contains(rewrite_graph::resolve(s.remap, t)),
        s.live_tensors().contains(t) && s.producers.contains_key(t) && s.producers[t] == op && s.active(op) && 0 <= j
            < s.ops[op as int].inputs.len() ==> s.live_tensors().contains(
            rewrite_graph::resolve(s.remap, s.ops[op as int].inputs[j]),
        ),
        s.dead_code_dropped().deleted.contains(op) <==> s.deleted.contains(op) || (s.active(op) && forall|x: TensorId|
            #[trigger] s.live_tensors().contains(x) && s.producers.contains_key(x) ==> s.producers[x] != op),
{
    let live = s.live_tensors();
    if s.outputs.contains(t) {
        assert forall|other: Set<TensorId>| #[trigger] s.closed_backward(other) implies other.contains(
            rewrite_graph::resolve(s.remap, t),
        ) by {}
    }
    if live.contains(t) && s.producers.contains_key(t) && s.producers[t] == op && s.active(op) && 0 <= j
        < s.ops[op as int].inputs.len() {
        assert forall|other: Set<TensorId>| #[trigger] s.closed_backward(other) implies other.contains(
            rewrite_graph::resolve(s.remap, s.ops[op as int].inputs[j]),
        ) by {
            assert(other.contains(t));
            assert(s.ops[s.producers[t] as int].inputs[j] == s.ops[op as int].inputs[j]);
        }
    }
}

/// The mentions of tensors, added up.
pub proof fn mentions_add_up(ops: Seq<Op>, k: nat)
    requires
        k <= ops.len(),
    ensures
        graph_rewrite::edge_count(ops, k) == arith::sum(
            ops.take(k as int).map_values(|op: Op| (op.inputs@.len() + op.outputs@.len()) as int),
        ),
    decreases k,
{
    let f = |op: Op| (op.inputs@.len() + op.outputs@.len()) as int;
    if k == 0 {
        assert(ops.take(0).map_values(f) =~= Seq::<int>::empty());
    } else {
        mentions_add_up(ops, (k - 1) as nat);
        let all = ops.take(k as int).map_values(f);
        assert(all.drop_last() =~= ops.take(k - 1).map_values(f));
        assert(all.last() == f(ops[k - 1]));
    }
}

} // verus!
