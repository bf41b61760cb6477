//! Canonicalization puts one tensor in the place of another only where both hold the same.
use vstd::prelude::*;
use crate::{graph_rewrite, models, rewrite_graph};
use crate::graph_rewrite::SignatureModel;
use crate::models::{OpId, OpType, Problem, TensorId};
use crate::rewrite_graph::GraphModel;

verus! {

/// The operation is free, pointwise and keeps the size: it hands its input on.
pub open spec fn hands_on(p: Problem, op: int) -> bool {
    let o = p.ops@[op];
    &&& o.op_type == OpType::Pointwise
    &&& o.inputs@.len() == 1
    &&& o.outputs@.len() == 1
    &&& o.base_cost == 0
    &&& o.inputs@[0] < p.tensors@.len()
    &&& o.outputs@[0] < p.tensors@.len()
    &&& p.tensors@[o.inputs@[0] as int].area() == p.tensors@[o.outputs@[0] as int].area()
}

/// Each tensor of `b` is the same as the one in its place in `a`.
pub open spec fn name_the_same(
    same: spec_fn(TensorId, TensorId) -> bool,
    a: Seq<TensorId>,
    b: Seq<TensorId>,
) -> bool {
    &&& a.len() == b.len()
    &&& forall|i: int| 0 <= i < a.len() ==> same(#[trigger] a[i], b[i])
}

/// The inputs can be named so that they are equal. The order of the inputs of a
/// pointwise operation does not matter.
pub open spec fn alike(
    same: spec_fn(TensorId, TensorId) -> bool,
    op_type: OpType,
    a: Seq<TensorId>,
    b: Seq<TensorId>,
) -> bool {
    exists|x: Seq<TensorId>, y: Seq<TensorId>| #[trigger]
        name_the_same(same, a, x) && #[trigger] name_the_same(same, b, y) && if op_type == OpType::Pointwise {
            graph_rewrite::same_mentions(x, y)
        } else {
            x == y
        }
}

/// The operations are of one type and cost, on the same inputs.
pub open spec fn compute_alike(p: Problem, same: spec_fn(TensorId, TensorId) -> bool, a: int, b: int) -> bool {
    &&& p.ops@[a].op_type == p.ops@[b].op_type
    &&& p.ops@[a].base_cost == p.ops@[b].base_cost
    &&& p.ops@[a].outputs@.len() == p.ops@[b].outputs@.len()
    &&& alike(same, p.ops@[a].op_type, p.ops@[a].inputs@, p.ops@[b].inputs@)
}

/// `same` is a notion of sameness under which what hands on gives the same as it gets,
/// and identical operations on the same inputs give the same.
pub open spec fn respects(p: Problem, same: spec_fn(TensorId, TensorId) -> bool) -> bool {
    &&& vstd::relations::equivalence_relation(same)
    &&& forall|op: int|
        0 <= op < p.ops@.len() && #[trigger] hands_on(p, op) ==> same(p.ops@[op].inputs@[0], p.ops@[op].outputs@[0])
    &&& forall|a: int, b: int, j: int|
        #![trigger compute_alike(p, same, a, b), p.ops@[a].outputs@[j]]
        0 <= a < p.ops@.len() && 0 <= b < p.ops@.len() && compute_alike(p, same, a, b) && 0 <= j
            < p.ops@[a].outputs@.len() ==> same(p.ops@[a].outputs@[j], p.ops@[b].outputs@[j])
}

/// The tensors hold the same: they are the same under every notion of sameness that respects the operations.
pub open spec fn hold_the_same(p: Problem, a: TensorId, b: TensorId) -> bool {
    forall|same: spec_fn(TensorId, TensorId) -> bool| #[trigger] respects(p, same) ==> same(a, b)
}

/// Operation `i` is as in the problem, but for the names of its inputs.
spec fn as_given(p: Problem, s: GraphModel, same: spec_fn(TensorId, TensorId) -> bool, i: OpId) -> bool {
    &&& s.ops[i as int].op_type == p.ops@[i as int].op_type
    &&& s.ops[i as int].base_cost == p.ops@[i as int].base_cost
    &&& s.ops[i as int].outputs == p.ops@[i as int].outputs@
    &&& name_the_same(same, p.ops@[i as int].inputs@, s.ops[i as int].inputs)
}

/// Operations that have absorbed no others are as given, and replacements hold the same.
spec fn faithful(p: Problem, s: GraphModel, same: spec_fn(TensorId, TensorId) -> bool) -> bool {
    &&& s.valid()
    &&& s.ops.len() == p.ops@.len()
    &&& s.tensors == p.tensors@
    &&& forall|i: OpId| i < s.ops.len() && !s.has_absorbed(i) ==> #[trigger] as_given(p, s, same, i)
    &&& forall|t: TensorId| #[trigger] s.remap.contains_key(t) ==> same(t, s.remap[t])
}

proof fn lemma_walk_same(s: GraphModel, same: spec_fn(TensorId, TensorId) -> bool, t: TensorId, m: nat)
    requires
        vstd::relations::equivalence_relation(same),
        forall|t: TensorId| #[trigger] s.remap.contains_key(t) ==> same(t, s.remap[t]),
    ensures
        same(t, rewrite_graph::walk(s.remap, t, m)),
    decreases m,
{
    if m > 0 {
        lemma_walk_same(s, same, t, (m - 1) as nat);
        let at = rewrite_graph::walk(s.remap, t, (m - 1) as nat);
        assert(same(t, at));
        if s.remap.contains_key(at) {
            assert(same(at, s.remap[at]));
        }
    } else {
        assert(same(t, t));
    }
}

/// A tensor is the same as what stands for it.
proof fn lemma_resolve_same(s: GraphModel, same: spec_fn(TensorId, TensorId) -> bool, t: TensorId)
    requires
        vstd::relations::equivalence_relation(same),
        forall|t: TensorId| #[trigger] s.remap.contains_key(t) ==> same(t, s.remap[t]),
    ensures
        same(t, rewrite_graph::resolve(s.remap, t)),
{
    lemma_walk_same(s, same, t, choose|m: nat| rewrite_graph::halts_first(s.remap, t, m));
}

/// Redirecting keeps the graph valid.
pub proof fn lemma_redirected_valid(s: GraphModel, op: OpId, from: TensorId, to: TensorId)
    requires
        s.valid(),
    ensures
        s.redirected(op, from, to).valid(),
{
    let now = s.redirected(op, from, to);
    let others = s.other_consumers(from, op);
    assert forall|t: TensorId, c: OpId|
        now.consumers.contains_key(t) && #[trigger] now.consumers[t].contains(c) implies c < now.ops.len() by {
        if t == to && !others.is_empty() {
            if others.contains(c) {
                assert(s.consumers[from].contains(c));
            } else {
                assert(s.consumers[t].contains(c));
            }
        } else {
            assert(s.consumers[t].contains(c));
        }
    }
}

/// Redirecting keeps which operations have been absorbed by which.
proof fn lemma_redirected_absorbed(s: GraphModel, op: OpId, from: TensorId, to: TensorId)
    ensures
        forall|i: OpId| #[trigger] s.redirected(op, from, to).has_absorbed(i) <==> s.has_absorbed(i),
{
    let now = s.redirected(op, from, to);
    assert forall|i: OpId| #[trigger] now.has_absorbed(i) <==> s.has_absorbed(i) by {
        if s.has_absorbed(i) {
            let c = choose|c: int| 0 <= c < s.ops.len() && (#[trigger] s.ops[c]).fused_into == Some(i);
            assert(now.ops[c].fused_into == Some(i));
        }
        if now.has_absorbed(i) {
            let c = choose|c: int| 0 <= c < now.ops.len() && (#[trigger] now.ops[c]).fused_into == Some(i);
            assert(s.ops[c].fused_into == Some(i));
        }
    }
}

proof fn lemma_redirected_faithful(
    p: Problem,
    s: GraphModel,
    same: spec_fn(TensorId, TensorId) -> bool,
    op: OpId,
    from: TensorId,
    to: TensorId,
)
    requires
        vstd::relations::equivalence_relation(same),
        faithful(p, s, same),
        same(from, to),
        p.ops@.len() <= usize::MAX,
    ensures
        faithful(p, s.redirected(op, from, to), same),
{
    let now = s.redirected(op, from, to);
    lemma_redirected_valid(s, op, from, to);
    lemma_redirected_absorbed(s, op, from, to);
    assert forall|i: OpId| i < now.ops.len() && !now.has_absorbed(i) implies #[trigger] as_given(p, now, same, i) by {
        assert(as_given(p, s, same, i));
        let given = p.ops@[i as int].inputs@;
        let was = s.ops[i as int].inputs;
        let is = now.ops[i as int].inputs;
        assert forall|j: int| 0 <= j < given.len() implies same(#[trigger] given[j], is[j]) by {
            assert(same(given[j], was[j]));
            if was[j] == from && is[j] == to {
                assert(same(from, to));
            }
        }
    }
    assert forall|t: TensorId| #[trigger] now.remap.contains_key(t) implies same(t, now.remap[t]) by {
        if t != from {
            assert(s.remap.contains_key(t));
        }
    }
}

/// The tensors are one, or of the same size.
spec fn same_area(p: Problem, a: TensorId, b: TensorId) -> bool {
    a == b || (a < p.tensors@.len() && b < p.tensors@.len() && p.tensors@[a as int].area() == p.tensors@[b as int].area())
}

pub proof fn lemma_without_valid(s: GraphModel, op: OpId)
    requires
        s.valid(),
    ensures
        s.without(op).valid(),
        forall|i: OpId| #[trigger] s.without(op).has_absorbed(i) <==> s.has_absorbed(i),
{
    let now = s.without(op);
    assert forall|t: TensorId, c: OpId|
        now.consumers.contains_key(t) && #[trigger] now.consumers[t].contains(c) implies c < now.ops.len() by {
        assert(s.consumers[t].contains(c));
    }
    assert forall|i: OpId| #[trigger] now.has_absorbed(i) <==> s.has_absorbed(i) by {
        if s.has_absorbed(i) {
            let c = choose|c: int| 0 <= c < s.ops.len() && (#[trigger] s.ops[c]).fused_into == Some(i);
            assert(now.ops[c].fused_into == Some(i));
        }
        if now.has_absorbed(i) {
            let c = choose|c: int| 0 <= c < now.ops.len() && (#[trigger] now.ops[c]).fused_into == Some(i);
            assert(s.ops[c].fused_into == Some(i));
        }
    }
}

proof fn lemma_without_faithful(p: Problem, s: GraphModel, same: spec_fn(TensorId, TensorId) -> bool, op: OpId)
    requires
        faithful(p, s, same),
    ensures
        faithful(p, s.without(op), same),
{
    let now = s.without(op);
    lemma_without_valid(s, op);
    assert forall|i: OpId| i < now.ops.len() && !now.has_absorbed(i) implies #[trigger] as_given(p, now, same, i) by {
        assert(as_given(p, s, same, i));
    }
}

/// Dropping identities is faithful to every sameness that tells sizes apart.
proof fn lemma_identities_faithful(p: Problem, same: spec_fn(TensorId, TensorId) -> bool, k: nat)
    requires
        vstd::relations::equivalence_relation(same),
        forall|op: int|
            0 <= op < p.ops@.len() && #[trigger] hands_on(p, op) ==> same(
                p.ops@[op].inputs@[0],
                p.ops@[op].outputs@[0],
            ),
        forall|a: TensorId, b: TensorId| #[trigger] same(a, b) ==> same_area(p, a, b),
        k <= p.ops@.len() <= usize::MAX,
    ensures
        faithful(p, rewrite_graph::model_of(p).identities_dropped(k), same),
        forall|i: int|
            0 <= i < p.ops@.len() ==> (#[trigger] rewrite_graph::model_of(p).identities_dropped(k).ops[i]).fused_into
                is None,
    decreases k,
{
    let base = rewrite_graph::model_of(p);
    if k == 0 {
        lemma_model_valid(p);
        assert forall|i: OpId| i < base.ops.len() && !base.has_absorbed(i) implies #[trigger] as_given(
            p,
            base,
            same,
            i,
        ) by {
            let ins = p.ops@[i as int].inputs@;
            assert forall|j: int| 0 <= j < ins.len() implies same(#[trigger] ins[j], ins[j]) by {
            }
        }
    } else {
        lemma_identities_faithful(p, same, (k - 1) as nat);
        let s = base.identities_dropped((k - 1) as nat);
        let op = (k - 1) as usize;
        if s.active(op) && s.is_identity(op) {
            let from = s.ops[op as int].outputs[0];
            let to = rewrite_graph::resolve(s.remap, s.ops[op as int].inputs[0]);
            assert(!s.has_absorbed(op)) by {
                if s.has_absorbed(op) {
                    let c = choose|c: int| 0 <= c < s.ops.len() && (#[trigger] s.ops[c]).fused_into == Some(op);
                    assert(s.ops[c].fused_into is None);
                }
            }
            assert(as_given(p, s, same, op));
            let given = p.ops@[op as int].inputs@;
            assert(same(given[0], s.ops[op as int].inputs[0]));
            lemma_resolve_same(s, same, s.ops[op as int].inputs[0]);
            assert(same(given[0], to));
            assert(same_area(p, given[0], to));
            assert(hands_on(p, op as int));
            assert(same(given[0], from));
            assert(same(from, given[0]));
            assert(same(from, to));
            lemma_redirected_faithful(p, s, same, op, from, to);
            lemma_without_faithful(p, s.redirected(op, from, to), same, op);
            let now = base.identities_dropped(k);
            assert forall|i: int| 0 <= i < p.ops@.len() implies (#[trigger] now.ops[i]).fused_into is None by {
                assert(s.ops[i].fused_into is None);
            }
        }
    }
}

/// The graph of a problem is valid.
pub proof fn lemma_model_valid(p: Problem)
    ensures
        rewrite_graph::model_of(p).valid(),
{
    let model = rewrite_graph::model_of(p);
    let n = p.ops@.len();
    assert(n == p.ops.len());
    assert forall|t: TensorId| #[trigger] model.producers.contains_key(t) implies model.producers[t] < n by {
        models::meta_matches_ops(p.ops@, t, n, 0);
    }
    assert forall|t: TensorId, c: OpId|
        model.consumers.contains_key(t) && #[trigger] model.consumers[t].contains(c) implies c < n by {
        models::meta_matches_ops(p.ops@, t, n, c);
    }
}

/// What is absorbed is another operation of the graph, the only consumer of the only output.
pub proof fn lemma_partner(s: GraphModel, op: OpId, c: OpId)
    requires
        s.valid(),
        s.fusion_partner(op) == Some(c),
    ensures
        c < s.ops.len(),
        c != op,
        s.active(c),
        s.ops[op as int].outputs.len() == 1,
        s.ops[c as int].inputs.contains(s.ops[op as int].outputs[0]),
        s.consumers.contains_key(s.ops[op as int].outputs[0]),
        s.consumers[s.ops[op as int].outputs[0]] == set![c],
{
    let t = s.ops[op as int].outputs[0];
    let d = choose|d: OpId| #[trigger] s.consumers[t].contains(d) && s.consumers[t] == set![d];
    assert(s.consumers[t].contains(d) && s.consumers[t] == set![d]);
    assert(s.sole_consumer(t) == Some(d));
}

pub proof fn lemma_absorbed_valid(s: GraphModel, op: OpId, c: OpId)
    requires
        s.valid(),
        op < s.ops.len(),
        s.fusion_partner(op) == Some(c),
    ensures
        s.absorbed(op, c).valid(),
{
    lemma_partner(s, op, c);
    let now = s.absorbed(op, c);
    assert forall|t: TensorId, x: OpId|
        now.consumers.contains_key(t) && #[trigger] now.consumers[t].contains(x) implies x < now.ops.len() by {
        if x != op {
            assert(s.consumers[t].contains(x));
        }
    }
}

/// Absorbing is faithful: an operation that absorbs another is no longer claimed to be as given.
proof fn lemma_rounds_faithful(p: Problem, s: GraphModel, same: spec_fn(TensorId, TensorId) -> bool, op: OpId, k: nat)
    requires
        faithful(p, s, same),
        op < s.ops.len() <= usize::MAX,
        s.active(op),
    ensures
        faithful(p, s.fused_rounds(op, k), same),
        s.fused_rounds(op, k).active(op),
    decreases k,
{
    if k > 0 {
        lemma_rounds_faithful(p, s, same, op, (k - 1) as nat);
        let was = s.fused_rounds(op, (k - 1) as nat);
        if was.fusion_partner(op) is Some {
            let c = was.fusion_partner(op)->0;
            lemma_partner(was, op, c);
            lemma_absorbed_valid(was, op, c);
            let now = was.absorbed(op, c);
            assert forall|i: OpId| i < now.ops.len() && !now.has_absorbed(i) implies #[trigger] as_given(
                p,
                now,
                same,
                i,
            ) by {
                assert(now.ops[c as int].fused_into == Some(op));
                assert(now.has_absorbed(op));
                assert(!was.has_absorbed(i)) by {
                    if was.has_absorbed(i) {
                        let d = choose|d: int| 0 <= d < was.ops.len() && (#[trigger] was.ops[d]).fused_into == Some(i);
                        assert(now.ops[d].fused_into == Some(i));
                    }
                }
                assert(as_given(p, was, same, i));
            }
        }
    }
}

proof fn lemma_fused_faithful(p: Problem, s: GraphModel, same: spec_fn(TensorId, TensorId) -> bool, k: nat)
    requires
        faithful(p, s, same),
        k <= p.ops@.len() <= usize::MAX,
    ensures
        faithful(p, s.ops_fused(k), same),
    decreases k,
{
    if k > 0 {
        lemma_fused_faithful(p, s, same, (k - 1) as nat);
        let was = s.ops_fused((k - 1) as nat);
        let op = (k - 1) as usize;
        if was.active(op) {
            lemma_rounds_faithful(p, was, same, op, was.ops.len());
        }
    }
}

/// The signatures met are those of operations as given.
spec fn signatures_faithful(
    p: Problem,
    s: GraphModel,
    same: spec_fn(TensorId, TensorId) -> bool,
    seen: Seq<SignatureModel>,
) -> bool {
    forall|i: int|
        0 <= i < seen.len() ==> {
            let sig = #[trigger] seen[i];
            &&& sig.op < s.ops.len()
            &&& !s.has_absorbed(sig.op)
            &&& sig.op_type == p.ops@[sig.op as int].op_type
            &&& sig.cost == p.ops@[sig.op as int].base_cost
            &&& name_the_same(same, p.ops@[sig.op as int].inputs@, sig.inputs)
        }
}

/// What is found agrees.
pub proof fn lemma_found(seen: Seq<SignatureModel>, sig: SignatureModel, k: nat) -> (i: int)
    requires
        k <= seen.len(),
        graph_rewrite::find_agreeing(seen, sig, k) is Some,
    ensures
        0 <= i < k,
        seen[i].agrees(sig),
        graph_rewrite::find_agreeing(seen, sig, k) == Some(seen[i].op),
    decreases k,
{
    if graph_rewrite::find_agreeing(seen, sig, (k - 1) as nat) is Some {
        lemma_found(seen, sig, (k - 1) as nat)
    } else {
        k - 1
    }
}

/// The signature of an operation as given names its inputs.
proof fn lemma_signature_names(p: Problem, s: GraphModel, same: spec_fn(TensorId, TensorId) -> bool, op: OpId)
    requires
        vstd::relations::equivalence_relation(same),
        faithful(p, s, same),
        op < s.ops.len(),
        !s.has_absorbed(op),
    ensures
        name_the_same(same, p.ops@[op as int].inputs@, s.signature(op).inputs),
        s.signature(op).op_type == p.ops@[op as int].op_type,
        s.signature(op).cost == p.ops@[op as int].base_cost,
{
    assert(as_given(p, s, same, op));
    let given = p.ops@[op as int].inputs@;
    let was = s.ops[op as int].inputs;
    let names = s.signature(op).inputs;
    assert forall|j: int| 0 <= j < given.len() implies same(#[trigger] given[j], names[j]) by {
        assert(same(given[j], was[j]));
        lemma_resolve_same(s, same, was[j]);
        assert(same(was[j], names[j]));
    }
}

proof fn lemma_all_redirected_faithful(
    p: Problem,
    s: GraphModel,
    same: spec_fn(TensorId, TensorId) -> bool,
    op: OpId,
    from: Seq<TensorId>,
    to: Seq<TensorId>,
    k: nat,
)
    requires
        vstd::relations::equivalence_relation(same),
        faithful(p, s, same),
        k <= from.len() == to.len(),
        forall|j: int| 0 <= j < from.len() ==> same(#[trigger] from[j], to[j]),
        p.ops@.len() <= usize::MAX,
    ensures
        faithful(p, s.all_redirected(op, from, to, k), same),
        forall|i: OpId| #[trigger] s.all_redirected(op, from, to, k).has_absorbed(i) <==> s.has_absorbed(i),
    decreases k,
{
    if k > 0 {
        lemma_all_redirected_faithful(p, s, same, op, from, to, (k - 1) as nat);
        let was = s.all_redirected(op, from, to, (k - 1) as nat);
        assert(same(from[k - 1], to[k - 1]));
        lemma_redirected_faithful(p, was, same, op, from[k - 1], to[k - 1]);
        lemma_redirected_absorbed(was, op, from[k - 1], to[k - 1]);
        assert forall|i: OpId| #[trigger] s.all_redirected(op, from, to, k).has_absorbed(i) <==> s.has_absorbed(i) by {
            assert(was.has_absorbed(i) <==> s.has_absorbed(i));
        }
    }
}

/// Dropping duplicates is faithful.
proof fn lemma_duplicates_faithful(p: Problem, s: GraphModel, same: spec_fn(TensorId, TensorId) -> bool, k: nat)
    requires
        respects(p, same),
        faithful(p, s, same),
        k <= p.ops@.len() <= usize::MAX,
    ensures
        faithful(p, s.duplicates_dropped(k).0, same),
        signatures_faithful(p, s.duplicates_dropped(k).0, same, s.duplicates_dropped(k).1),
    decreases k,
{
    if k > 0 {
        lemma_duplicates_faithful(p, s, same, (k - 1) as nat);
        let (was, seen) = s.duplicates_dropped((k - 1) as nat);
        let (now, seen_now) = s.duplicates_dropped(k);
        let op = (k - 1) as usize;
        if was.active(op) && !was.has_absorbed(op) {
            let sig = was.signature(op);
            lemma_signature_names(p, was, same, op);
            match graph_rewrite::find_agreeing(seen, sig, seen.len()) {
                Some(first) => {
                    let from = was.ops[op as int].outputs;
                    let to = was.ops[first as int].outputs;
                    if from.len() == to.len() {
                        let i = lemma_found(seen, sig, seen.len());
                        assert(seen[i].op == first);
                        assert(as_given(p, was, same, op));
                        assert(as_given(p, was, same, first));
                        assert(alike(
                            same,
                            p.ops@[first as int].op_type,
                            p.ops@[first as int].inputs@,
                            p.ops@[op as int].inputs@,
                        )) by {
                            assert(name_the_same(same, p.ops@[first as int].inputs@, seen[i].inputs));
                            assert(name_the_same(same, p.ops@[op as int].inputs@, sig.inputs));
                        }
                        assert(compute_alike(p, same, first as int, op as int));
                        assert forall|j: int| 0 <= j < from.len() implies same(#[trigger] from[j], to[j]) by {
                            assert(same(p.ops@[first as int].outputs@[j], p.ops@[op as int].outputs@[j]));
                        }
                        lemma_all_redirected_faithful(p, was, same, op, from, to, from.len());
                        let mid = was.all_redirected(op, from, to, from.len());
                        lemma_without_faithful(p, mid, same, op);
                        lemma_without_valid(mid, op);
                        assert forall|i: int| 0 <= i < seen.len() implies !now.has_absorbed((#[trigger] seen[i]).op) by {
                            assert(!was.has_absorbed(seen[i].op));
                            assert(mid.has_absorbed(seen[i].op) <==> was.has_absorbed(seen[i].op));
                        }
                    }
                },
                None => {
                    assert forall|i: int| 0 <= i < seen_now.len() implies {
                        let sig = #[trigger] seen_now[i];
                        &&& sig.op < now.ops.len()
                        &&& !now.has_absorbed(sig.op)
                        &&& sig.op_type == p.ops@[sig.op as int].op_type
                        &&& sig.cost == p.ops@[sig.op as int].base_cost
                        &&& name_the_same(same, p.ops@[sig.op as int].inputs@, sig.inputs)
                    } by {
                        if i < seen.len() {
                            assert(seen_now[i] == seen[i]);
                        }
                    }
                },
            }
        }
    }
}

/// Working out producers, consumers and results anew keeps the graph valid.
pub proof fn lemma_recalculated_valid(s: GraphModel)
    requires
        s.ops.len() <= usize::MAX,
    ensures
        s.recalculated().valid(),
{
    let now = s.recalculated();
    let n = s.ops.len();
    assert forall|t: TensorId| #[trigger] now.producers.contains_key(t) implies now.producers[t] < n by {
        rewrite_graph::lemma_last_producer(s, t, n);
    }
}

proof fn lemma_recalculated_faithful(p: Problem, s: GraphModel, same: spec_fn(TensorId, TensorId) -> bool)
    requires
        faithful(p, s, same),
        p.ops@.len() <= usize::MAX,
    ensures
        faithful(p, s.recalculated(), same),
{
    let now = s.recalculated();
    lemma_recalculated_valid(s);
    assert forall|i: OpId| i < now.ops.len() && !now.has_absorbed(i) implies #[trigger] as_given(p, now, same, i) by {
        assert(!s.has_absorbed(i)) by {
            if s.has_absorbed(i) {
                let c = choose|c: int| 0 <= c < s.ops.len() && (#[trigger] s.ops[c]).fused_into == Some(i);
                assert(now.ops[c].fused_into == Some(i));
            }
        }
        assert(as_given(p, s, same, i));
    }
}

/// A tensor holds the same as the tensor that stands for it after canonicalization.
pub proof fn what_stands_for_a_tensor_holds_the_same(before: Problem, t: TensorId)
    ensures
        hold_the_same(before, t, rewrite_graph::resolve(graph_rewrite::canonical(before).remap, t)),
{
    let p = before;
    assert(p.ops@.len() == p.ops.len());
    let end = rewrite_graph::resolve(graph_rewrite::canonical(p).remap, t);
    let n = p.ops@.len();
    let base = rewrite_graph::model_of(p);
    graph_rewrite::nothing_folds_without_constants(base);
    assert forall|same: spec_fn(TensorId, TensorId) -> bool| #[trigger] respects(p, same) implies same(t, end) by {
        let sized = |a: TensorId, b: TensorId| same(a, b) && same_area(p, a, b);
        assert(vstd::relations::equivalence_relation(sized)) by {
            assert forall|a: TensorId| #[trigger] sized(a, a) by {
                assert(same(a, a));
            }
            assert forall|a: TensorId, b: TensorId| #[trigger] sized(a, b) <==> #[trigger] sized(b, a) by {
                assert(same(a, b) <==> same(b, a));
            }
            assert forall|a: TensorId, b: TensorId, c: TensorId| #[trigger]
                sized(a, b) && #[trigger] sized(b, c) implies sized(a, c) by {
                assert(same(a, b) && same(b, c));
                assert(same(a, c));
            }
        }
        assert forall|op: int| 0 <= op < n && #[trigger] hands_on(p, op) implies sized(
            p.ops@[op].inputs@[0],
            p.ops@[op].outputs@[0],
        ) by {
        }
        lemma_identities_faithful(p, sized, n);
        let s = graph_rewrite::simplified(p);
        assert(faithful(p, s, same)) by {
            assert forall|i: OpId| i < s.ops.len() && !s.has_absorbed(i) implies #[trigger] as_given(p, s, same, i) by {
                assert(as_given(p, s, sized, i));
                let given = p.ops@[i as int].inputs@;
                let is = s.ops[i as int].inputs;
                assert forall|j: int| 0 <= j < given.len() implies same(#[trigger] given[j], is[j]) by {
                    assert(sized(given[j], is[j]));
                }
            }
            assert forall|x: TensorId| #[trigger] s.remap.contains_key(x) implies same(x, s.remap[x]) by {
                assert(sized(x, s.remap[x]));
            }
        }
        lemma_fused_faithful(p, s, same, n);
        lemma_recalculated_faithful(p, s.ops_fused(n), same);
        let f = graph_rewrite::with_fusion(p);
        lemma_duplicates_faithful(p, f, same, n);
        lemma_recalculated_faithful(p, f.duplicates_dropped(n).0, same);
        lemma_resolve_same(graph_rewrite::canonical(p), same, t);
    }
}

/// Two tensors come to share one only if they hold the same: their operations are
/// identical on inputs that hold the same, or hand on what holds the same.
pub proof fn tensors_that_are_merged_hold_the_same(before: Problem, a: TensorId, b: TensorId)
    requires
        rewrite_graph::resolve(graph_rewrite::canonical(before).remap, a) == rewrite_graph::resolve(
            graph_rewrite::canonical(before).remap,
            b,
        ),
    ensures
        hold_the_same(before, a, b),
{
    let end = rewrite_graph::resolve(graph_rewrite::canonical(before).remap, a);
    what_stands_for_a_tensor_holds_the_same(before, a);
    what_stands_for_a_tensor_holds_the_same(before, b);
    assert forall|same: spec_fn(TensorId, TensorId) -> bool| #[trigger] respects(before, same) implies same(a, b) by {
        assert(same(a, end));
        assert(same(b, end));
        assert(same(end, b));
    }
}

} // verus!
