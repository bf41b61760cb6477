//! What canonicalization keeps: no result is lost, and nothing that is needed goes missing.
use vstd::prelude::*;
use crate::{arith, graph, graph_rewrite, models, rewrite_graph, sameness};
use crate::graph_rewrite::SignatureModel;
use crate::models::{OpId, OpType, Problem, TensorId};
use crate::rewrite_graph::GraphModel;

verus! {

/// Some operation of the problem puts out the tensor.
pub open spec fn is_produced(p: Problem, t: TensorId) -> bool {
    exists|op: int| 0 <= op < p.ops@.len() && (#[trigger] p.ops@[op]).outputs@.contains(t)
}

/// The tensor is a result: an operation puts it out, and none takes it in.
pub open spec fn is_result(p: Problem, t: TensorId) -> bool {
    &&& is_produced(p, t)
    &&& forall|op: int| 0 <= op < p.ops@.len() ==> !(#[trigger] p.ops@[op]).inputs@.contains(t)
}

/// Every operation ranks what it puts out above what it takes in, and nothing above `top`.
pub open spec fn is_ranking(p: Problem, rank: spec_fn(TensorId) -> int, top: int) -> bool {
    &&& forall|op: int, i: int, j: int|
        #![trigger p.ops@[op].inputs@[i], p.ops@[op].outputs@[j]]
        0 <= op < p.ops@.len() && 0 <= i < p.ops@[op].inputs@.len() && 0 <= j < p.ops@[op].outputs@.len() ==> rank(
            p.ops@[op].inputs@[i],
        ) < rank(p.ops@[op].outputs@[j])
    &&& forall|op: int, j: int|
        0 <= op < p.ops@.len() && 0 <= j < p.ops@[op].outputs@.len() ==> rank(#[trigger] p.ops@[op].outputs@[j]) <= top
}

/// Operations name tensors of the problem, each puts something out, no tensor is put
/// out twice, and no tensor depends on itself.
pub open spec fn is_sound(p: Problem) -> bool {
    &&& models::ids_below(p.ops@, p.tensors@.len())
    &&& forall|op: int| 0 <= op < p.ops@.len() ==> (#[trigger] p.ops@[op]).outputs@.len() > 0
    &&& forall|a: int, i: int, b: int, j: int|
        #![trigger p.ops@[a].outputs@[i], p.ops@[b].outputs@[j]]
        0 <= a < p.ops@.len() && 0 <= b < p.ops@.len() && 0 <= i < p.ops@[a].outputs@.len() && 0 <= j
            < p.ops@[b].outputs@.len() && p.ops@[a].outputs@[i] == p.ops@[b].outputs@[j] ==> a == b && i == j
    &&& exists|rank: spec_fn(TensorId) -> int, top: int| #[trigger] is_ranking(p, rank, top)
}

/// The tensor is at hand: an active operation puts it out, or no operation of the problem does.
pub open spec fn at_hand(p: Problem, s: GraphModel, t: TensorId) -> bool {
    !is_produced(p, t) || exists|a: OpId| a < s.ops.len() && s.active(a) && (#[trigger] s.ops[a as int]).outputs.contains(t)
}

/// What active operations put out: each tensor once, and only tensors that stand for
/// themselves and are not among those `pending`.
pub open spec fn outputs_clean(s: GraphModel, pending: Set<TensorId>) -> bool {
    &&& forall|a: OpId| a < s.ops.len() && #[trigger] s.active(a) ==> s.ops[a as int].outputs.len() > 0
    &&& forall|a: OpId, i: int, b: OpId, j: int|
        #![trigger s.ops[a as int].outputs[i], s.ops[b as int].outputs[j]]
        a < s.ops.len() && b < s.ops.len() && s.active(a) && s.active(b) && 0 <= i < s.ops[a as int].outputs.len()
            && 0 <= j < s.ops[b as int].outputs.len() && s.ops[a as int].outputs[i] == s.ops[b as int].outputs[j]
            ==> a == b && i == j
    &&& forall|a: OpId, i: int|
        a < s.ops.len() && s.active(a) && 0 <= i < s.ops[a as int].outputs.len() ==> !s.remap.contains_key(
            #[trigger] s.ops[a as int].outputs[i],
        ) && !pending.contains(s.ops[a as int].outputs[i])
}

/// What active operations take in: tensors that stand for themselves, that know their
/// consumers, and that are at hand or `pending`.
pub open spec fn inputs_clean(p: Problem, s: GraphModel, pending: Set<TensorId>) -> bool {
    forall|a: OpId, i: int|
        a < s.ops.len() && s.active(a) && 0 <= i < s.ops[a as int].inputs.len() ==> {
            let t = #[trigger] s.ops[a as int].inputs[i];
            &&& !s.remap.contains_key(t)
            &&& s.consumers.contains_key(t)
            &&& s.consumers[t].contains(a)
            &&& at_hand(p, s, t) || pending.contains(t)
        }
}

/// Active operations rank what they put out above what they take in.
pub open spec fn is_ranked(s: GraphModel, rank: spec_fn(TensorId) -> int, top: int) -> bool {
    &&& forall|a: OpId, i: int, j: int|
        #![trigger s.ops[a as int].inputs[i], s.ops[a as int].outputs[j]]
        a < s.ops.len() && s.active(a) && 0 <= i < s.ops[a as int].inputs.len() && 0 <= j
            < s.ops[a as int].outputs.len() ==> rank(s.ops[a as int].inputs[i]) < rank(s.ops[a as int].outputs[j])
    &&& forall|a: OpId, j: int|
        a < s.ops.len() && s.active(a) && 0 <= j < s.ops[a as int].outputs.len() ==> rank(
            #[trigger] s.ops[a as int].outputs[j],
        ) <= top
}

/// Active operations name tensors of the graph.
pub open spec fn ids_known(s: GraphModel) -> bool {
    &&& forall|a: OpId, i: int|
        a < s.ops.len() && s.active(a) && 0 <= i < s.ops[a as int].inputs.len() ==> (#[trigger] s.ops[a as int].inputs[i])
            < s.tensors.len()
    &&& forall|a: OpId, j: int|
        a < s.ops.len() && s.active(a) && 0 <= j < s.ops[a as int].outputs.len() ==> (
        #[trigger] s.ops[a as int].outputs[j]) < s.tensors.len()
}

/// What stands for each result is at hand or `pending`.
pub open spec fn results_there(p: Problem, s: GraphModel, pending: Set<TensorId>) -> bool {
    forall|r: TensorId| #[trigger]
        is_result(p, r) ==> at_hand(p, s, rewrite_graph::resolve(s.remap, r)) || pending.contains(
            rewrite_graph::resolve(s.remap, r),
        )
}

/// The graph still does what the problem asks for, once the tensors `pending` have been replaced.
pub open spec fn keeps_up(
    p: Problem,
    s: GraphModel,
    rank: spec_fn(TensorId) -> int,
    top: int,
    pending: Set<TensorId>,
) -> bool {
    &&& s.ops.len() == p.ops@.len()
    &&& s.tensors == p.tensors@
    &&& s.valid()
    &&& ids_known(s)
    &&& rewrite_graph::chains_end(s.remap)
    &&& outputs_clean(s, pending)
    &&& inputs_clean(p, s, pending)
    &&& is_ranked(s, rank, top)
    &&& forall|t: TensorId| #[trigger] pending.contains(t) ==> !s.remap.contains_key(t)
    &&& results_there(p, s, pending)
}

/// An operation is dropped: what it put out is to be replaced.
pub proof fn lemma_dropped_keeps_up(p: Problem, s: GraphModel, rank: spec_fn(TensorId) -> int, top: int, op: OpId)
    requires
        keeps_up(p, s, rank, top, Set::empty()),
        op < s.ops.len(),
        s.active(op),
    ensures
        keeps_up(p, s.without(op), rank, top, s.ops[op as int].outputs.to_set()),
{
    let now = s.without(op);
    let outs = s.ops[op as int].outputs;
    let pending = outs.to_set();
    sameness::lemma_without_valid(s, op);
    assert forall|a: OpId| a < now.ops.len() && #[trigger] now.active(a) implies s.active(a) && a != op by {
    }
    assert forall|t: TensorId| at_hand(p, s, t) && !pending.contains(t) implies #[trigger] at_hand(p, now, t) by {
        if is_produced(p, t) {
            let a = choose|a: OpId|
                a < s.ops.len() && s.active(a) && (#[trigger] s.ops[a as int]).outputs.contains(t);
            assert(a != op);
            assert(now.active(a) && now.ops[a as int].outputs.contains(t));
        }
    }
    assert forall|a: OpId, i: int|
        a < now.ops.len() && now.active(a) && 0 <= i < now.ops[a as int].outputs.len() implies !now.remap.contains_key(
        #[trigger] now.ops[a as int].outputs[i],
    ) && !pending.contains(now.ops[a as int].outputs[i]) by {
        let t = s.ops[a as int].outputs[i];
        if outs.contains(t) {
            let j = choose|j: int| 0 <= j < outs.len() && outs[j] == t;
            assert(s.ops[op as int].outputs[j] == s.ops[a as int].outputs[i]);
        }
    }
    assert forall|a: OpId, i: int| a < now.ops.len() && now.active(a) && 0 <= i < now.ops[a as int].inputs.len() implies {
        let t = #[trigger] now.ops[a as int].inputs[i];
        &&& !now.remap.contains_key(t)
        &&& now.consumers.contains_key(t)
        &&& now.consumers[t].contains(a)
        &&& at_hand(p, now, t) || pending.contains(t)
    } by {
        let t = s.ops[a as int].inputs[i];
        assert(at_hand(p, s, t));
    }
    assert forall|t: TensorId| #[trigger] pending.contains(t) implies !now.remap.contains_key(t) by {
        let j = choose|j: int| 0 <= j < outs.len() && outs[j] == t;
        assert(!s.remap.contains_key(s.ops[op as int].outputs[j]));
    }
    assert forall|r: TensorId| #[trigger] is_result(p, r) implies at_hand(
        p,
        now,
        rewrite_graph::resolve(now.remap, r),
    ) || pending.contains(rewrite_graph::resolve(now.remap, r)) by {
        assert(at_hand(p, s, rewrite_graph::resolve(s.remap, r)));
    }
}

/// The ranking after `to` has taken the place of `from`.
spec fn lowered(rank: spec_fn(TensorId) -> int, from: TensorId, to: TensorId) -> spec_fn(TensorId) -> int {
    |t: TensorId|
        if t == to && rank(from) < rank(to) {
            rank(from)
        } else {
            rank(t)
        }
}

/// After redirecting, active operations take in `to` wherever they took in `from`.
pub proof fn lemma_redirected_inputs(p: Problem, s: GraphModel, op: OpId, from: TensorId, to: TensorId, pending: Set<TensorId>)
    requires
        inputs_clean(p, s, pending),
        op < s.ops.len() <= usize::MAX,
        !s.active(op),
    ensures
        forall|a: OpId, i: int|
            a < s.ops.len() && s.active(a) && 0 <= i < s.ops[a as int].inputs.len() ==> #[trigger] s.redirected(
                op,
                from,
                to,
            ).ops[a as int].inputs[i] == if s.ops[a as int].inputs[i] == from {
                to
            } else {
                s.ops[a as int].inputs[i]
            },
        forall|a: OpId|
            a < s.ops.len() ==> (#[trigger] s.redirected(op, from, to).ops[a as int]).inputs.len()
                == s.ops[a as int].inputs.len(),
{
    let now = s.redirected(op, from, to);
    assert forall|a: OpId, i: int|
        a < s.ops.len() && s.active(a) && 0 <= i < s.ops[a as int].inputs.len() implies #[trigger] now.ops[a as int].inputs[i]
        == if s.ops[a as int].inputs[i] == from {
        to
    } else {
        s.ops[a as int].inputs[i]
    } by {
        if s.ops[a as int].inputs[i] == from {
            assert(s.consumers[from].contains(a));
            assert(s.other_consumers(from, op).contains(a));
        }
    }
}

/// A pending tensor is replaced by one that is at hand.
proof fn lemma_redirected_keeps_up(
    p: Problem,
    s: GraphModel,
    rank: spec_fn(TensorId) -> int,
    top: int,
    pending: Set<TensorId>,
    op: OpId,
    from: TensorId,
    to: TensorId,
)
    requires
        keeps_up(p, s, rank, top, pending),
        op < s.ops.len() <= usize::MAX,
        !s.active(op),
        pending.contains(from),
        !pending.contains(to),
        !s.remap.contains_key(to),
        to < s.tensors.len(),
        at_hand(p, s, to),
        // What `to` is computed from is ranked below `from`.
        forall|a: OpId, i: int|
            a < s.ops.len() && s.active(a) && s.ops[a as int].outputs.contains(to) && 0 <= i
                < s.ops[a as int].inputs.len() ==> rank(#[trigger] s.ops[a as int].inputs[i]) < rank(from),
    ensures
        keeps_up(p, s.redirected(op, from, to), lowered(rank, from, to), top, pending.remove(from)),
{
    let now = s.redirected(op, from, to);
    let rank2 = lowered(rank, from, to);
    let left = pending.remove(from);
    let others = s.other_consumers(from, op);
    sameness::lemma_redirected_valid(s, op, from, to);
    lemma_redirected_inputs(p, s, op, from, to, pending);
    rewrite_graph::lemma_replacing(s.remap, from, to);
    assert(now.remap == s.remap.insert(from, to));
    assert forall|a: OpId| a < s.ops.len() implies #[trigger] now.active(a) == s.active(a) && now.ops[a as int].outputs
        == s.ops[a as int].outputs by {
    }
    assert forall|t: TensorId| at_hand(p, s, t) implies #[trigger] at_hand(p, now, t) by {
        if is_produced(p, t) {
            let a = choose|a: OpId|
                a < s.ops.len() && s.active(a) && (#[trigger] s.ops[a as int]).outputs.contains(t);
            assert(now.active(a) && now.ops[a as int].outputs.contains(t));
        }
    }
    assert(outputs_clean(now, left)) by {
        assert forall|a: OpId| a < now.ops.len() && #[trigger] now.active(a) implies now.ops[a as int].outputs.len()
            > 0 by {
            assert(s.active(a));
        }
        assert forall|a: OpId, i: int, b: OpId, j: int|
            #![trigger now.ops[a as int].outputs[i], now.ops[b as int].outputs[j]]
            a < now.ops.len() && b < now.ops.len() && now.active(a) && now.active(b) && 0 <= i
                < now.ops[a as int].outputs.len() && 0 <= j < now.ops[b as int].outputs.len()
                && now.ops[a as int].outputs[i] == now.ops[b as int].outputs[j] implies a == b && i == j by {
            assert(s.active(a) && s.active(b));
            assert(s.ops[a as int].outputs[i] == s.ops[b as int].outputs[j]);
        }
        assert forall|a: OpId, i: int|
            a < now.ops.len() && now.active(a) && 0 <= i
                < now.ops[a as int].outputs.len() implies !now.remap.contains_key(
            #[trigger] now.ops[a as int].outputs[i],
        ) && !left.contains(now.ops[a as int].outputs[i]) by {
            assert(s.active(a));
            assert(!pending.contains(s.ops[a as int].outputs[i]));
        }
    }
    assert(inputs_clean(p, now, left)) by {
        assert forall|a: OpId, i: int|
            a < now.ops.len() && now.active(a) && 0 <= i < now.ops[a as int].inputs.len() implies {
            let t = #[trigger] now.ops[a as int].inputs[i];
            &&& !now.remap.contains_key(t)
            &&& now.consumers.contains_key(t)
            &&& now.consumers[t].contains(a)
            &&& at_hand(p, now, t) || left.contains(t)
        } by {
            assert(s.active(a));
            let was = s.ops[a as int].inputs[i];
            assert(s.consumers[was].contains(a));
            if was == from {
                assert(others.contains(a));
                assert(!others.is_empty());
                assert(now.ops[a as int].inputs[i] == to);
            } else {
                assert(now.ops[a as int].inputs[i] == was);
                assert(at_hand(p, s, was) || pending.contains(was));
            }
        }
    }
    assert(ids_known(now)) by {
        assert forall|a: OpId, i: int|
            a < now.ops.len() && now.active(a) && 0 <= i < now.ops[a as int].inputs.len() implies (
        #[trigger] now.ops[a as int].inputs[i]) < now.tensors.len() by {
            assert(s.active(a));
            let was = s.ops[a as int].inputs[i];
            assert(was < s.tensors.len());
            assert(now.ops[a as int].inputs[i] == if was == from { to } else { was });
        }
        assert forall|a: OpId, j: int|
            a < now.ops.len() && now.active(a) && 0 <= j < now.ops[a as int].outputs.len() implies (
        #[trigger] now.ops[a as int].outputs[j]) < now.tensors.len() by {
            assert(s.active(a));
            assert(s.ops[a as int].outputs[j] < s.tensors.len());
        }
    }
    assert(is_ranked(now, rank2, top)) by {
        assert forall|a: OpId, i: int, j: int|
            #![trigger now.ops[a as int].inputs[i], now.ops[a as int].outputs[j]]
            a < now.ops.len() && now.active(a) && 0 <= i < now.ops[a as int].inputs.len() && 0 <= j
                < now.ops[a as int].outputs.len() implies rank2(now.ops[a as int].inputs[i]) < rank2(
            now.ops[a as int].outputs[j],
        ) by {
            assert(s.active(a));
            let was = s.ops[a as int].inputs[i];
            let out = s.ops[a as int].outputs[j];
            assert(rank(was) < rank(out));
            assert(!pending.contains(s.ops[a as int].outputs[j]));
            assert(now.ops[a as int].inputs[i] == if was == from { to } else { was });
            if out == to {
                assert(s.ops[a as int].outputs.contains(to));
                assert(rank(was) < rank(from));
            }
        }
        assert forall|a: OpId, j: int|
            a < now.ops.len() && now.active(a) && 0 <= j < now.ops[a as int].outputs.len() implies rank2(
            #[trigger] now.ops[a as int].outputs[j],
        ) <= top by {
            assert(s.active(a));
            assert(rank(s.ops[a as int].outputs[j]) <= top);
        }
    }
    assert forall|r: TensorId| #[trigger] is_result(p, r) implies at_hand(
        p,
        now,
        rewrite_graph::resolve(now.remap, r),
    ) || left.contains(rewrite_graph::resolve(now.remap, r)) by {
        let was = rewrite_graph::resolve(s.remap, r);
        assert(at_hand(p, s, was) || pending.contains(was));
        assert(rewrite_graph::resolve(now.remap, r) == if was == from { to } else { was });
        assert(at_hand(p, s, to));
    }
}

/// What stands for a result has no consumer but operations that are gone, or has one that is gone.
pub open spec fn results_spared(p: Problem, s: GraphModel) -> bool {
    forall|r: TensorId| #[trigger] is_result(p, r) ==> is_spared(s, rewrite_graph::resolve(s.remap, r))
}

/// The tensor has no consumer, or one that has been deleted.
pub open spec fn is_spared(s: GraphModel, t: TensorId) -> bool {
    s.consumers.contains_key(t) ==> (forall|c: OpId| !#[trigger] s.consumers[t].contains(c)) || exists|c: OpId| #[trigger]
        s.consumers[t].contains(c) && s.deleted.contains(c)
}

/// The graph of a sound problem does what the problem asks for.
proof fn lemma_model_keeps_up(p: Problem, rank: spec_fn(TensorId) -> int, top: int)
    requires
        is_sound(p),
        is_ranking(p, rank, top),
    ensures
        keeps_up(p, rewrite_graph::model_of(p), rank, top, Set::empty()),
        results_spared(p, rewrite_graph::model_of(p)),
{
    let s = rewrite_graph::model_of(p);
    let none = Set::<TensorId>::empty();
    let n = p.ops@.len();
    assert(p.ops@.len() == p.ops.len());
    sameness::lemma_model_valid(p);
    assert forall|t: TensorId| #[trigger] rewrite_graph::ends(s.remap, t) by {
        assert(!s.remap.contains_key(rewrite_graph::walk(s.remap, t, 0)));
    }
    assert forall|t: TensorId| #[trigger] at_hand(p, s, t) by {
        if is_produced(p, t) {
            let op = choose|op: int| 0 <= op < p.ops@.len() && (#[trigger] p.ops@[op]).outputs@.contains(t);
            let a = op as OpId;
            assert(s.active(a) && s.ops[a as int].outputs.contains(t));
        }
    }
    assert(outputs_clean(s, none)) by {
        assert forall|a: OpId| a < s.ops.len() && #[trigger] s.active(a) implies s.ops[a as int].outputs.len() > 0 by {
            assert(p.ops@[a as int].outputs@.len() > 0);
        }
        assert forall|a: OpId, i: int, b: OpId, j: int|
            #![trigger s.ops[a as int].outputs[i], s.ops[b as int].outputs[j]]
            a < s.ops.len() && b < s.ops.len() && s.active(a) && s.active(b) && 0 <= i
                < s.ops[a as int].outputs.len() && 0 <= j < s.ops[b as int].outputs.len()
                && s.ops[a as int].outputs[i] == s.ops[b as int].outputs[j] implies a == b && i == j by {
            assert(p.ops@[a as int].outputs@[i] == p.ops@[b as int].outputs@[j]);
        }
    }
    assert(inputs_clean(p, s, none)) by {
        assert forall|a: OpId, i: int| a < s.ops.len() && s.active(a) && 0 <= i < s.ops[a as int].inputs.len() implies {
            let t = #[trigger] s.ops[a as int].inputs[i];
            &&& !s.remap.contains_key(t)
            &&& s.consumers.contains_key(t)
            &&& s.consumers[t].contains(a)
            &&& at_hand(p, s, t) || none.contains(t)
        } by {
            let t = p.ops@[a as int].inputs@[i];
            assert(t < p.tensors@.len());
            assert(p.ops@[a as int].inputs@.contains(t));
            models::meta_matches_ops(p.ops@, t, n, a);
            assert(at_hand(p, s, t));
        }
    }
    assert(ids_known(s)) by {
        assert forall|a: OpId, i: int|
            a < s.ops.len() && s.active(a) && 0 <= i < s.ops[a as int].inputs.len() implies (
        #[trigger] s.ops[a as int].inputs[i]) < s.tensors.len() by {
            assert(p.ops@[a as int].inputs@[i] < p.tensors@.len());
        }
        assert forall|a: OpId, j: int|
            a < s.ops.len() && s.active(a) && 0 <= j < s.ops[a as int].outputs.len() implies (
        #[trigger] s.ops[a as int].outputs[j]) < s.tensors.len() by {
            assert(p.ops@[a as int].outputs@[j] < p.tensors@.len());
        }
    }
    assert(is_ranked(s, rank, top)) by {
        assert forall|a: OpId, i: int, j: int|
            #![trigger s.ops[a as int].inputs[i], s.ops[a as int].outputs[j]]
            a < s.ops.len() && s.active(a) && 0 <= i < s.ops[a as int].inputs.len() && 0 <= j
                < s.ops[a as int].outputs.len() implies rank(s.ops[a as int].inputs[i]) < rank(
            s.ops[a as int].outputs[j],
        ) by {
            assert(rank(p.ops@[a as int].inputs@[i]) < rank(p.ops@[a as int].outputs@[j]));
        }
        assert forall|a: OpId, j: int|
            a < s.ops.len() && s.active(a) && 0 <= j < s.ops[a as int].outputs.len() implies rank(
            #[trigger] s.ops[a as int].outputs[j],
        ) <= top by {
            assert(rank(p.ops@[a as int].outputs@[j]) <= top);
        }
    }
    assert forall|r: TensorId| #[trigger] is_result(p, r) implies is_spared(s, rewrite_graph::resolve(s.remap, r)) by {
        rewrite_graph::unreplaced_stands_for_itself(s.remap, r);
        if s.consumers.contains_key(r) {
            assert forall|c: OpId| !#[trigger] s.consumers[r].contains(c) by {
                models::meta_matches_ops(p.ops@, r, n, c);
            }
        }
    }
    assert forall|r: TensorId| #[trigger] is_result(p, r) implies at_hand(
        p,
        s,
        rewrite_graph::resolve(s.remap, r),
    ) || none.contains(rewrite_graph::resolve(s.remap, r)) by {
        assert(at_hand(p, s, rewrite_graph::resolve(s.remap, r)));
    }
}

/// Dropping identities keeps up.
pub proof fn lemma_identities_keep_up(p: Problem, rank: spec_fn(TensorId) -> int, top: int, k: nat) -> (now_rank: spec_fn(
    TensorId,
) -> int)
    requires
        is_sound(p),
        is_ranking(p, rank, top),
        k <= p.ops@.len() <= usize::MAX,
    ensures
        keeps_up(p, rewrite_graph::model_of(p).identities_dropped(k), now_rank, top, Set::empty()),
        results_spared(p, rewrite_graph::model_of(p).identities_dropped(k)),
    decreases k,
{
    let base = rewrite_graph::model_of(p);
    if k == 0 {
        lemma_model_keeps_up(p, rank, top);
        rank
    } else {
        let was_rank = lemma_identities_keep_up(p, rank, top, (k - 1) as nat);
        let s = base.identities_dropped((k - 1) as nat);
        let op = (k - 1) as usize;
        if s.active(op) && s.is_identity(op) {
            let from = s.ops[op as int].outputs[0];
            let input = s.ops[op as int].inputs[0];
            assert(!s.remap.contains_key(input));
            rewrite_graph::unreplaced_stands_for_itself(s.remap, input);
            let to = rewrite_graph::resolve(s.remap, input);
            let gone = s.without(op);
            let pending = s.ops[op as int].outputs.to_set();
            lemma_dropped_keeps_up(p, s, was_rank, top, op);
            assert(was_rank(input) < was_rank(from));
            assert(s.ops[op as int].outputs.contains(from));
            assert(!pending.contains(to)) by {
                if pending.contains(to) {
                    let j = choose|j: int| 0 <= j < s.ops[op as int].outputs.len() && s.ops[op as int].outputs[j] == to;
                    assert(j == 0);
                }
            }
            assert(at_hand(p, s, to));
            assert(at_hand(p, gone, to)) by {
                if is_produced(p, to) {
                    let a = choose|a: OpId|
                        a < s.ops.len() && s.active(a) && (#[trigger] s.ops[a as int]).outputs.contains(to);
                    assert(a != op);
                    assert(gone.active(a) && gone.ops[a as int].outputs.contains(to));
                }
            }
            assert forall|a: OpId, i: int|
                a < gone.ops.len() && gone.active(a) && gone.ops[a as int].outputs.contains(to) && 0 <= i
                    < gone.ops[a as int].inputs.len() implies was_rank(#[trigger] gone.ops[a as int].inputs[i])
                < was_rank(from) by {
                let j = choose|j: int| 0 <= j < s.ops[a as int].outputs.len() && s.ops[a as int].outputs[j] == to;
                assert(was_rank(s.ops[a as int].inputs[i]) < was_rank(s.ops[a as int].outputs[j]));
            }
            lemma_redirected_keeps_up(p, gone, was_rank, top, pending, op, from, to);
            let now = base.identities_dropped(k);
            assert(now == s.redirected(op, from, to).without(op));
            assert(gone.redirected(op, from, to) =~= now) by {
                assert(gone.other_consumers(from, op) == s.other_consumers(from, op));
                assert(gone.redirected(op, from, to).ops =~= now.ops);
            }
            assert(pending.remove(from) =~= Set::<TensorId>::empty()) by {
                assert forall|t: TensorId| !pending.remove(from).contains(t) by {
                    if pending.contains(t) {
                        let j = choose|j: int| 0 <= j < s.ops[op as int].outputs.len() && s.ops[op as int].outputs[j] == t;
                        assert(j == 0);
                    }
                }
            }
            assert(results_spared(p, now)) by {
                rewrite_graph::lemma_replacing(s.remap, from, to);
                assert(s.consumers[to].contains(op));
                assert forall|r: TensorId| #[trigger] is_result(p, r) implies is_spared(
                    now,
                    rewrite_graph::resolve(now.remap, r),
                ) by {
                    let q = rewrite_graph::resolve(s.remap, r);
                    let q2 = rewrite_graph::resolve(now.remap, r);
                    assert(is_spared(s, q));
                    assert(q2 == if q == from { to } else { q });
                    if q2 == to {
                        assert(now.consumers.contains_key(to));
                        assert(now.consumers[to].contains(op) && now.deleted.contains(op));
                    } else {
                        assert(now.consumers.contains_key(q) <==> s.consumers.contains_key(q));
                        if s.consumers.contains_key(q) {
                            assert(now.consumers[q] == s.consumers[q]);
                            if exists|c: OpId| #[trigger] s.consumers[q].contains(c) && s.deleted.contains(c) {
                                let c = choose|c: OpId| #[trigger] s.consumers[q].contains(c) && s.deleted.contains(c);
                                assert(now.consumers[q].contains(c) && now.deleted.contains(c));
                            }
                        }
                    }
                }
            }
            lowered(was_rank, from, to)
        } else {
            was_rank
        }
    }
}

/// What the operation takes in after it has absorbed another: what both took in, but for the tensor between them.
proof fn lemma_absorbed_input(s: GraphModel, op: OpId, c: OpId, i: int)
    requires
        op < s.ops.len(),
        c < s.ops.len(),
        c != op,
        0 <= i < s.absorbed(op, c).ops[op as int].inputs.len(),
    ensures
        ({
            let x = s.absorbed(op, c).ops[op as int].inputs[i];
            ||| (i < s.ops[op as int].inputs.len() && x == s.ops[op as int].inputs[i])
            ||| (s.ops[c as int].inputs.contains(x) && x != s.ops[op as int].outputs[0]
                && graph_rewrite::other_tensors(s.ops[c as int].inputs, s.ops[op as int].outputs[0]).contains(x))
        }),
{
    let gone = s.ops[op as int].outputs[0];
    let others = graph_rewrite::other_tensors(s.ops[c as int].inputs, gone);
    graph_rewrite::lemma_other_tensors(s.ops[c as int].inputs, gone);
    let own = s.ops[op as int].inputs;
    if i >= own.len() {
        let x = (own + others)[i];
        assert(x == others[i - own.len()]);
        assert(others.contains(x));
    }
}

/// Absorbing keeps up, since the tensor between the two operations goes nowhere else.
proof fn lemma_absorbed_keeps_up(p: Problem, s: GraphModel, rank: spec_fn(TensorId) -> int, top: int, op: OpId, c: OpId)
    requires
        keeps_up(p, s, rank, top, Set::empty()),
        results_spared(p, s),
        op < s.ops.len() <= usize::MAX,
        s.active(op),
        s.fusion_partner(op) == Some(c),
    ensures
        keeps_up(p, s.absorbed(op, c), rank, top, Set::empty()),
        results_spared(p, s.absorbed(op, c)),
{
    let now = s.absorbed(op, c);
    let none = Set::<TensorId>::empty();
    let gone = s.ops[op as int].outputs[0];
    let others = graph_rewrite::other_tensors(s.ops[c as int].inputs, gone);
    graph_rewrite::lemma_other_tensors(s.ops[c as int].inputs, gone);
    sameness::lemma_partner(s, op, c);
    sameness::lemma_absorbed_valid(s, op, c);
    let at = choose|i: int| 0 <= i < s.ops[c as int].inputs.len() && s.ops[c as int].inputs[i] == gone;
    assert forall|a: OpId| a < now.ops.len() && #[trigger] now.active(a) implies s.active(a) && a != c by {
    }
    assert forall|a: OpId| a < s.ops.len() && #[trigger] s.active(a) && a != c implies now.active(a) by {
    }
    assert forall|a: OpId| a < s.ops.len() && a != op && a != c implies (#[trigger] now.ops[a as int]) == s.ops[a as int] by {
    }
    assert(now.ops[op as int].outputs == s.ops[c as int].outputs);
    // Only `c` takes in the tensor between.
    assert forall|a: OpId, i: int|
        a < s.ops.len() && s.active(a) && a != c && 0 <= i < s.ops[a as int].inputs.len() implies #[trigger] s.ops[a as int].inputs[i]
        != gone by {
        let t = s.ops[a as int].inputs[i];
        assert(s.consumers[t].contains(a));
        if t == gone {
            assert(set![c].contains(a));
        }
    }
    assert forall|t: TensorId| at_hand(p, s, t) && t != gone implies #[trigger] at_hand(p, now, t) by {
        if is_produced(p, t) {
            let a = choose|a: OpId|
                a < s.ops.len() && s.active(a) && (#[trigger] s.ops[a as int]).outputs.contains(t);
            if a == c {
                assert(now.active(op) && now.ops[op as int].outputs.contains(t));
            } else {
                if a == op {
                    let j = choose|j: int| 0 <= j < s.ops[op as int].outputs.len() && s.ops[op as int].outputs[j] == t;
                    assert(j == 0);
                }
                assert(now.active(a) && now.ops[a as int].outputs.contains(t));
            }
        }
    }
    assert(outputs_clean(now, none)) by {
        assert forall|a: OpId| a < now.ops.len() && #[trigger] now.active(a) implies now.ops[a as int].outputs.len()
            > 0 by {
            assert(s.active(a));
        }
        assert forall|a: OpId, i: int, b: OpId, j: int|
            #![trigger now.ops[a as int].outputs[i], now.ops[b as int].outputs[j]]
            a < now.ops.len() && b < now.ops.len() && now.active(a) && now.active(b) && 0 <= i
                < now.ops[a as int].outputs.len() && 0 <= j < now.ops[b as int].outputs.len()
                && now.ops[a as int].outputs[i] == now.ops[b as int].outputs[j] implies a == b && i == j by {
            let x = if a == op { c } else { a };
            let y = if b == op { c } else { b };
            assert(s.active(x) && s.active(y));
            assert(s.ops[x as int].outputs[i] == s.ops[y as int].outputs[j]);
        }
        assert forall|a: OpId, i: int|
            a < now.ops.len() && now.active(a) && 0 <= i
                < now.ops[a as int].outputs.len() implies !now.remap.contains_key(
            #[trigger] now.ops[a as int].outputs[i],
        ) && !none.contains(now.ops[a as int].outputs[i]) by {
            let x = if a == op { c } else { a };
            assert(s.active(x));
            assert(!s.remap.contains_key(s.ops[x as int].outputs[i]));
        }
    }
    assert forall|a: OpId, i: int| a < now.ops.len() && now.active(a) && 0 <= i < now.ops[a as int].inputs.len() implies {
        let t = #[trigger] now.ops[a as int].inputs[i];
        &&& !now.remap.contains_key(t)
        &&& now.consumers.contains_key(t)
        &&& now.consumers[t].contains(a)
        &&& at_hand(p, now, t)
        &&& t < now.tensors.len()
        &&& (forall|j: int|
            0 <= j < now.ops[a as int].outputs.len() ==> rank(t) < rank(#[trigger] now.ops[a as int].outputs[j]))
    } by {
        let t = now.ops[a as int].inputs[i];
        if a == op {
            lemma_absorbed_input(s, op, c, i);
            let own = i < s.ops[op as int].inputs.len() && t == s.ops[op as int].inputs[i];
            if own {
                assert(t == s.ops[op as int].inputs[i] && t != gone);
                assert(at_hand(p, s, t));
                assert(s.consumers[t].contains(op));
                assert(rank(s.ops[op as int].inputs[i]) < rank(s.ops[op as int].outputs[0]));
                assert forall|j: int| 0 <= j < now.ops[a as int].outputs.len() implies rank(t) < rank(
                    #[trigger] now.ops[a as int].outputs[j],
                ) by {
                    assert(rank(s.ops[c as int].inputs[at]) < rank(s.ops[c as int].outputs[j]));
                }
            } else {
                let m = choose|m: int| 0 <= m < s.ops[c as int].inputs.len() && s.ops[c as int].inputs[m] == t;
                assert(at_hand(p, s, s.ops[c as int].inputs[m]));
                assert forall|j: int| 0 <= j < now.ops[a as int].outputs.len() implies rank(t) < rank(
                    #[trigger] now.ops[a as int].outputs[j],
                ) by {
                    assert(rank(s.ops[c as int].inputs[m]) < rank(s.ops[c as int].outputs[j]));
                }
            }
        } else {
            assert(t == s.ops[a as int].inputs[i] && t != gone);
            assert(at_hand(p, s, t));
            assert(s.consumers[t].contains(a));
            assert forall|j: int| 0 <= j < now.ops[a as int].outputs.len() implies rank(t) < rank(
                #[trigger] now.ops[a as int].outputs[j],
            ) by {
                assert(rank(s.ops[a as int].inputs[i]) < rank(s.ops[a as int].outputs[j]));
            }
        }
    }
    assert forall|a: OpId, j: int| a < now.ops.len() && now.active(a) && 0 <= j < now.ops[a as int].outputs.len() implies {
        &&& (#[trigger] now.ops[a as int].outputs[j]) < now.tensors.len()
        &&& rank(now.ops[a as int].outputs[j]) <= top
    } by {
        let x = if a == op { c } else { a };
        assert(s.active(x));
        assert(s.ops[x as int].outputs[j] < s.tensors.len());
        assert(rank(s.ops[x as int].outputs[j]) <= top);
    }
    assert(inputs_clean(p, now, none));
    assert(is_ranked(now, rank, top));
    assert(ids_known(now));
    assert forall|r: TensorId| #[trigger] is_result(p, r) implies at_hand(
        p,
        now,
        rewrite_graph::resolve(now.remap, r),
    ) && is_spared(now, rewrite_graph::resolve(now.remap, r)) by {
        let q = rewrite_graph::resolve(s.remap, r);
        assert(at_hand(p, s, q));
        assert(is_spared(s, q));
        assert(q != gone) by {
            if q == gone {
                assert(s.consumers[gone].contains(c));
                let d = choose|d: OpId| #[trigger] s.consumers[gone].contains(d) && s.deleted.contains(d);
                assert(set![c].contains(d));
            }
        }
        if now.consumers.contains_key(q) {
            if others.contains(q) {
                let m = choose|m: int| 0 <= m < s.ops[c as int].inputs.len() && s.ops[c as int].inputs[m] == q;
                assert(s.consumers[s.ops[c as int].inputs[m]].contains(c));
                let d = choose|d: OpId| #[trigger] s.consumers[q].contains(d) && s.deleted.contains(d);
                assert(d != c);
                assert(now.consumers[q].contains(d) && now.deleted.contains(d));
            } else {
                assert(now.consumers[q] == s.consumers[q]);
                if exists|d: OpId| #[trigger] s.consumers[q].contains(d) && s.deleted.contains(d) {
                    let d = choose|d: OpId| #[trigger] s.consumers[q].contains(d) && s.deleted.contains(d);
                    assert(now.consumers[q].contains(d) && now.deleted.contains(d));
                }
            }
        }
    }
}

pub proof fn lemma_rounds_keep_up(p: Problem, s: GraphModel, rank: spec_fn(TensorId) -> int, top: int, op: OpId, k: nat)
    requires
        keeps_up(p, s, rank, top, Set::empty()),
        results_spared(p, s),
        op < s.ops.len() <= usize::MAX,
        s.active(op),
    ensures
        keeps_up(p, s.fused_rounds(op, k), rank, top, Set::empty()),
        results_spared(p, s.fused_rounds(op, k)),
        s.fused_rounds(op, k).active(op),
    decreases k,
{
    if k > 0 {
        lemma_rounds_keep_up(p, s, rank, top, op, (k - 1) as nat);
        let was = s.fused_rounds(op, (k - 1) as nat);
        if was.fusion_partner(op) is Some {
            sameness::lemma_partner(was, op, was.fusion_partner(op)->0);
            lemma_absorbed_keeps_up(p, was, rank, top, op, was.fusion_partner(op)->0);
        }
    }
}

pub proof fn lemma_fused_keeps_up(p: Problem, s: GraphModel, rank: spec_fn(TensorId) -> int, top: int, k: nat)
    requires
        keeps_up(p, s, rank, top, Set::empty()),
        results_spared(p, s),
        k <= p.ops@.len() <= usize::MAX,
    ensures
        keeps_up(p, s.ops_fused(k), rank, top, Set::empty()),
        results_spared(p, s.ops_fused(k)),
    decreases k,
{
    if k > 0 {
        lemma_fused_keeps_up(p, s, rank, top, (k - 1) as nat);
        let was = s.ops_fused((k - 1) as nat);
        let op = (k - 1) as usize;
        if was.active(op) {
            lemma_rounds_keep_up(p, was, rank, top, op, was.ops.len());
        }
    }
}

/// Working out producers, consumers and results anew keeps up.
pub proof fn lemma_recalculated_keeps_up(p: Problem, s: GraphModel, rank: spec_fn(TensorId) -> int, top: int)
    requires
        keeps_up(p, s, rank, top, Set::empty()),
        s.ops.len() <= usize::MAX,
    ensures
        keeps_up(p, s.recalculated(), rank, top, Set::empty()),
{
    let now = s.recalculated();
    let n = s.ops.len();
    let none = Set::<TensorId>::empty();
    sameness::lemma_recalculated_valid(s);
    assert forall|a: OpId| #[trigger] now.active(a) == s.active(a) by {
    }
    assert forall|t: TensorId| at_hand(p, s, t) implies #[trigger] at_hand(p, now, t) by {
        if is_produced(p, t) {
            let a = choose|a: OpId|
                a < s.ops.len() && s.active(a) && (#[trigger] s.ops[a as int]).outputs.contains(t);
            assert(now.active(a) && now.ops[a as int].outputs.contains(t));
        }
    }
    assert forall|a: OpId, i: int| a < now.ops.len() && now.active(a) && 0 <= i < now.ops[a as int].inputs.len() implies {
        let t = #[trigger] now.ops[a as int].inputs[i];
        &&& !now.remap.contains_key(t)
        &&& now.consumers.contains_key(t)
        &&& now.consumers[t].contains(a)
        &&& at_hand(p, now, t) || none.contains(t)
    } by {
        let t = s.ops[a as int].inputs[i];
        assert(at_hand(p, s, t));
        rewrite_graph::unreplaced_stands_for_itself(s.remap, t);
        assert(s.takes_in(a, t));
        assert(s.takers(t, n as int).contains(a));
    }
    assert forall|r: TensorId| #[trigger] is_result(p, r) implies at_hand(
        p,
        now,
        rewrite_graph::resolve(now.remap, r),
    ) by {
        assert(at_hand(p, s, rewrite_graph::resolve(s.remap, r)));
    }
}

/// Of a signature that was met: its operation is active, and takes in what it says
/// unless that has been replaced since.
pub open spec fn signatures_current(s: GraphModel, seen: Seq<SignatureModel>, k: nat) -> bool {
    forall|m: int|
        0 <= m < seen.len() ==> {
            let sig = #[trigger] seen[m];
            &&& sig.op < k
            &&& s.active(sig.op)
            &&& sig.inputs.len() == s.ops[sig.op as int].inputs.len()
            &&& forall|i: int|
                0 <= i < sig.inputs.len() ==> s.ops[sig.op as int].inputs[i] == #[trigger] sig.inputs[i]
                    || s.remap.contains_key(sig.inputs[i])
        }
}

/// What the redirected graph has in common with the one before.
pub open spec fn carries_on(was: GraphModel, now: GraphModel) -> bool {
    &&& now.ops.len() == was.ops.len()
    &&& now.deleted == was.deleted
    &&& forall|a: OpId|
        a < was.ops.len() ==> {
            &&& (#[trigger] now.ops[a as int]).outputs == was.ops[a as int].outputs
            &&& now.ops[a as int].inputs.len() == was.ops[a as int].inputs.len()
            &&& now.ops[a as int].fused_into == was.ops[a as int].fused_into
        }
    &&& forall|t: TensorId| was.remap.contains_key(t) ==> #[trigger] now.remap.contains_key(t)
    &&& forall|a: OpId, i: int|
        a < was.ops.len() && was.active(a) && 0 <= i < was.ops[a as int].inputs.len()
            ==> #[trigger] now.ops[a as int].inputs[i] == was.ops[a as int].inputs[i] || now.remap.contains_key(
            was.ops[a as int].inputs[i],
        )
}

/// The outputs of a dropped operation are replaced by those of another, one by one.
pub proof fn lemma_all_redirected_keeps_up(
    p: Problem,
    s: GraphModel,
    rank: spec_fn(TensorId) -> int,
    top: int,
    op: OpId,
    first: OpId,
    from: Seq<TensorId>,
    to: Seq<TensorId>,
    k: nat,
) -> (now_rank: spec_fn(TensorId) -> int)
    requires
        keeps_up(p, s, rank, top, from.to_set()),
        op < s.ops.len() <= usize::MAX,
        first < s.ops.len(),
        !s.active(op),
        s.active(first),
        s.ops[first as int].outputs == to,
        k <= from.len() == to.len(),
        from.no_duplicates(),
        forall|i: int, j: int|
            #![trigger s.ops[first as int].inputs[i], from[j]]
            0 <= i < s.ops[first as int].inputs.len() && 0 <= j < from.len() ==> rank(s.ops[first as int].inputs[i])
                < rank(from[j]),
    ensures
        keeps_up(p, s.all_redirected(op, from, to, k), now_rank, top, from.skip(k as int).to_set()),
        carries_on(s, s.all_redirected(op, from, to, k)),
        s.all_redirected(op, from, to, k).ops[first as int].inputs == s.ops[first as int].inputs,
        forall|i: int, j: int|
            #![trigger s.ops[first as int].inputs[i], from[j]]
            0 <= i < s.ops[first as int].inputs.len() && k <= j < from.len() ==> now_rank(
                s.ops[first as int].inputs[i],
            ) < now_rank(from[j]),
    decreases k,
{
    if k == 0 {
        assert(from.skip(0) =~= from);
        rank
    } else {
        let was_rank = lemma_all_redirected_keeps_up(p, s, rank, top, op, first, from, to, (k - 1) as nat);
        let was = s.all_redirected(op, from, to, (k - 1) as nat);
        let now = s.all_redirected(op, from, to, k);
        let rest = from.skip(k - 1);
        let after = from.skip(k as int);
        let pending = rest.to_set();
        let left = after.to_set();
        let f = from[k - 1];
        let t = to[k - 1];
        assert(was.ops[first as int].outputs == to);
        assert(was.active(first) && !was.active(op)) by {
            assert(was.ops[op as int].fused_into == s.ops[op as int].fused_into);
        }
        assert(rest[0] == f);
        assert(pending.contains(f));
        assert(was.ops[first as int].outputs[k - 1] == t);
        assert(!was.remap.contains_key(t) && !pending.contains(t));
        assert(was.ops[first as int].outputs.contains(t));
        assert(at_hand(p, was, t));
        assert forall|a: OpId, i: int|
            a < was.ops.len() && was.active(a) && was.ops[a as int].outputs.contains(t) && 0 <= i
                < was.ops[a as int].inputs.len() implies was_rank(#[trigger] was.ops[a as int].inputs[i]) < was_rank(
            f,
        ) by {
            let j = choose|j: int| 0 <= j < was.ops[a as int].outputs.len() && was.ops[a as int].outputs[j] == t;
            assert(was.ops[a as int].outputs[j] == was.ops[first as int].outputs[k - 1]);
            assert(a == first);
            assert(was_rank(s.ops[first as int].inputs[i]) < was_rank(from[k - 1]));
        }
        lemma_redirected_keeps_up(p, was, was_rank, top, pending, op, f, t);
        lemma_redirected_inputs(p, was, op, f, t, pending);
        let now_rank = lowered(was_rank, f, t);
        assert(pending.remove(f) =~= left) by {
            assert forall|x: TensorId| pending.remove(f).contains(x) <==> left.contains(x) by {
                if pending.contains(x) && x != f {
                    let j = choose|j: int| 0 <= j < rest.len() && rest[j] == x;
                    assert(j > 0);
                    assert(after[j - 1] == x);
                }
                if left.contains(x) {
                    let j = choose|j: int| 0 <= j < after.len() && after[j] == x;
                    assert(rest[j + 1] == x);
                    assert(from[k + j] == x);
                }
            }
        }
        assert forall|i: int| 0 <= i < s.ops[first as int].inputs.len() implies #[trigger] now.ops[first as int].inputs[i]
            == s.ops[first as int].inputs[i] by {
            assert(was_rank(s.ops[first as int].inputs[i]) < was_rank(from[k - 1]));
            assert(was.ops[first as int].inputs[i] != f);
        }
        assert(now.ops[first as int].inputs =~= s.ops[first as int].inputs);
        assert forall|i: int, j: int|
            #![trigger s.ops[first as int].inputs[i], from[j]]
            0 <= i < s.ops[first as int].inputs.len() && k <= j < from.len() implies now_rank(
            s.ops[first as int].inputs[i],
        ) < now_rank(from[j]) by {
            assert(was_rank(s.ops[first as int].inputs[i]) < was_rank(from[j]));
            assert(from[j] != t) by {
                assert(rest[j - k + 1] == from[j]);
                assert(pending.contains(from[j]));
            }
        }
        assert(carries_on(s, now)) by {
            assert forall|a: OpId| a < s.ops.len() implies {
                &&& (#[trigger] now.ops[a as int]).outputs == s.ops[a as int].outputs
                &&& now.ops[a as int].inputs.len() == s.ops[a as int].inputs.len()
                &&& now.ops[a as int].fused_into == s.ops[a as int].fused_into
            } by {
                assert(was.ops[a as int].outputs == s.ops[a as int].outputs);
            }
            assert forall|x: TensorId| s.remap.contains_key(x) implies #[trigger] now.remap.contains_key(x) by {
                assert(was.remap.contains_key(x));
            }
            assert forall|a: OpId, i: int|
                a < s.ops.len() && s.active(a) && 0 <= i
                    < s.ops[a as int].inputs.len() implies #[trigger] now.ops[a as int].inputs[i]
                == s.ops[a as int].inputs[i] || now.remap.contains_key(s.ops[a as int].inputs[i]) by {
                assert(was.ops[a as int].fused_into == s.ops[a as int].fused_into);
                assert(was.active(a));
                let x = was.ops[a as int].inputs[i];
                assert(x == s.ops[a as int].inputs[i] || was.remap.contains_key(s.ops[a as int].inputs[i]));
                assert(now.ops[a as int].inputs[i] == if x == f { t } else { x });
            }
        }
        now_rank
    }
}

/// Dropping an operation and redirecting its outputs can be done in either order.
pub proof fn lemma_drop_first(s: GraphModel, op: OpId, from: Seq<TensorId>, to: Seq<TensorId>, k: nat)
    ensures
        s.all_redirected(op, from, to, k).without(op) == s.without(op).all_redirected(op, from, to, k),
    decreases k,
{
    if k > 0 {
        lemma_drop_first(s, op, from, to, (k - 1) as nat);
        let a = s.all_redirected(op, from, to, (k - 1) as nat);
        let b = s.without(op).all_redirected(op, from, to, (k - 1) as nat);
        assert(b == a.without(op));
        let f = from[k - 1];
        let t = to[k - 1];
        assert(b.other_consumers(f, op) == a.other_consumers(f, op));
        assert(b.redirected(op, f, t).ops =~= a.redirected(op, f, t).ops);
        assert(b.redirected(op, f, t) =~= a.redirected(op, f, t).without(op));
    }
}

/// What an agreeing signature mentions, the other one mentions too.
pub proof fn lemma_agreeing_mentions(a: SignatureModel, b: SignatureModel, i: int) -> (m: int)
    requires
        a.agrees(b),
        0 <= i < a.inputs.len(),
    ensures
        0 <= m < b.inputs.len(),
        b.inputs[m] == a.inputs[i],
{
    let t = a.inputs[i];
    graph::lemma_occurrences_zero(a.inputs, t);
    graph::lemma_occurrences_zero(b.inputs, t);
    assert(a.inputs.contains(t));
    if a.op_type == OpType::Pointwise {
        assert(graph::occurrences(a.inputs, t) == graph::occurrences(b.inputs, t));
    }
    assert(b.inputs.contains(t));
    choose|m: int| 0 <= m < b.inputs.len() && b.inputs[m] == t
}

/// Dropping duplicates keeps up.
pub proof fn lemma_duplicates_keep_up(p: Problem, s: GraphModel, rank: spec_fn(TensorId) -> int, top: int, k: nat) -> (now_rank:
    spec_fn(TensorId) -> int)
    requires
        keeps_up(p, s, rank, top, Set::empty()),
        k <= p.ops@.len() <= usize::MAX,
    ensures
        keeps_up(p, s.duplicates_dropped(k).0, now_rank, top, Set::empty()),
        signatures_current(s.duplicates_dropped(k).0, s.duplicates_dropped(k).1, k),
    decreases k,
{
    if k == 0 {
        rank
    } else {
        let was_rank = lemma_duplicates_keep_up(p, s, rank, top, (k - 1) as nat);
        let (was, seen) = s.duplicates_dropped((k - 1) as nat);
        let (now, seen_now) = s.duplicates_dropped(k);
        let op = (k - 1) as usize;
        if was.active(op) && !was.has_absorbed(op) {
            let sig = was.signature(op);
            let ins = was.ops[op as int].inputs;
            assert forall|i: int| 0 <= i < ins.len() implies #[trigger] sig.inputs[i] == ins[i] by {
                assert(!was.remap.contains_key(was.ops[op as int].inputs[i]));
                rewrite_graph::unreplaced_stands_for_itself(was.remap, ins[i]);
            }
            match graph_rewrite::find_agreeing(seen, sig, seen.len()) {
                Some(first) => {
                    let from = was.ops[op as int].outputs;
                    let to = was.ops[first as int].outputs;
                    if from.len() == to.len() {
                        let m = sameness::lemma_found(seen, sig, seen.len());
                        assert(seen[m].op == first);
                        lemma_dropped_keeps_up(p, was, was_rank, top, op);
                        let gone = was.without(op);
                        assert forall|i: int, j: int|
                            #![trigger gone.ops[first as int].inputs[i], from[j]]
                            0 <= i < gone.ops[first as int].inputs.len() && 0 <= j < from.len() implies was_rank(
                            gone.ops[first as int].inputs[i],
                        ) < was_rank(from[j]) by {
                            let x = seen[m].inputs[i];
                            let e = lemma_agreeing_mentions(seen[m], sig, i);
                            assert(x == ins[e]);
                            assert(!was.remap.contains_key(was.ops[op as int].inputs[e]));
                            assert(was.ops[first as int].inputs[i] == x);
                            assert(was_rank(was.ops[op as int].inputs[e]) < was_rank(was.ops[op as int].outputs[j]));
                        }
                        assert(from.no_duplicates()) by {
                            assert forall|i: int, j: int| 0 <= i < from.len() && 0 <= j < from.len() && i != j implies from[i]
                                != from[j] by {
                                if from[i] == from[j] {
                                    assert(was.ops[op as int].outputs[i] == was.ops[op as int].outputs[j]);
                                }
                            }
                        }
                        let now_rank = lemma_all_redirected_keeps_up(
                            p,
                            gone,
                            was_rank,
                            top,
                            op,
                            first,
                            from,
                            to,
                            from.len(),
                        );
                        lemma_drop_first(was, op, from, to, from.len());
                        assert(from.skip(from.len() as int).to_set() =~= Set::<TensorId>::empty());
                        assert(now == gone.all_redirected(op, from, to, from.len()));
                        assert(signatures_current(now, seen, k)) by {
                            assert forall|m: int| 0 <= m < seen.len() implies {
                                let sig = #[trigger] seen[m];
                                &&& sig.op < k
                                &&& now.active(sig.op)
                                &&& sig.inputs.len() == now.ops[sig.op as int].inputs.len()
                                &&& forall|i: int|
                                    0 <= i < sig.inputs.len() ==> now.ops[sig.op as int].inputs[i]
                                        == #[trigger] sig.inputs[i] || now.remap.contains_key(sig.inputs[i])
                            } by {
                                let sig = seen[m];
                                let b = sig.op;
                                assert(b < op && was.active(b) && gone.active(b));
                                assert(now.ops[b as int].fused_into == gone.ops[b as int].fused_into);
                                assert forall|i: int| 0 <= i < sig.inputs.len() implies now.ops[b as int].inputs[i]
                                    == #[trigger] sig.inputs[i] || now.remap.contains_key(sig.inputs[i]) by {
                                    assert(was.ops[b as int].inputs[i] == sig.inputs[i] || was.remap.contains_key(
                                        sig.inputs[i],
                                    ));
                                    assert(now.ops[b as int].inputs[i] == gone.ops[b as int].inputs[i]
                                        || now.remap.contains_key(gone.ops[b as int].inputs[i]));
                                    if was.remap.contains_key(sig.inputs[i]) {
                                        assert(gone.remap.contains_key(sig.inputs[i]));
                                        assert(now.remap.contains_key(sig.inputs[i]));
                                    }
                                }
                            }
                        }
                        now_rank
                    } else {
                        assert(signatures_current(now, seen_now, k));
                        was_rank
                    }
                },
                None => {
                    assert(signatures_current(now, seen_now, k)) by {
                        assert forall|m: int| 0 <= m < seen_now.len() implies {
                            let sig = #[trigger] seen_now[m];
                            &&& sig.op < k
                            &&& now.active(sig.op)
                            &&& sig.inputs.len() == now.ops[sig.op as int].inputs.len()
                            &&& forall|i: int|
                                0 <= i < sig.inputs.len() ==> now.ops[sig.op as int].inputs[i] == #[trigger] sig.inputs[i]
                                    || now.remap.contains_key(sig.inputs[i])
                        } by {
                            if m < seen.len() {
                                assert(seen_now[m] == seen[m]);
                            }
                        }
                    }
                    was_rank
                },
            }
        } else {
            was_rank
        }
    }
}

/// In a graph that keeps up, with results worked out anew, a result depends on every active operation.
proof fn lemma_live(p: Problem, d: GraphModel, rank: spec_fn(TensorId) -> int, top: int, a: OpId)
    requires
        keeps_up(p, d, rank, top, Set::empty()),
        a < d.ops.len() <= usize::MAX,
        d.active(a),
    ensures
        d.recalculated().is_live(a),
    decreases top - rank(d.ops[a as int].outputs[0]),
{
    let s = d.recalculated();
    let n = d.ops.len();
    let u = d.ops[a as int].outputs[0];
    assert(rank(d.ops[a as int].outputs[0]) <= top);
    assert(!d.remap.contains_key(d.ops[a as int].outputs[0]));
    rewrite_graph::unreplaced_stands_for_itself(d.remap, u);
    assert(d.puts_out(a, u));
    rewrite_graph::lemma_last_producer(d, u, n);
    let b = d.last_producer(u, n)->0;
    assert(d.puts_out(b, u));
    let j = choose|j: int|
        0 <= j < d.ops[b as int].outputs.len() && rewrite_graph::resolve(
            d.remap,
            #[trigger] d.ops[b as int].outputs[j],
        ) == u;
    rewrite_graph::unreplaced_stands_for_itself(d.remap, d.ops[b as int].outputs[j]);
    assert(d.ops[b as int].outputs[j] == d.ops[a as int].outputs[0]);
    assert(a == b);
    assert(s.producers.contains_key(u) && s.producers[u] == a);
    assert(s.live_tensors().contains(u)) by {
        if exists|c: OpId| #[trigger] d.takers(u, n as int).contains(c) {
            let c = choose|c: OpId| #[trigger] d.takers(u, n as int).contains(c);
            let i = choose|i: int|
                0 <= i < d.ops[c as int].inputs.len() && rewrite_graph::resolve(
                    d.remap,
                    #[trigger] d.ops[c as int].inputs[i],
                ) == u;
            rewrite_graph::unreplaced_stands_for_itself(d.remap, d.ops[c as int].inputs[i]);
            assert(d.ops[c as int].inputs[i] == u);
            assert(rank(d.ops[c as int].inputs[i]) < rank(d.ops[c as int].outputs[0]));
            lemma_live(p, d, rank, top, c);
            let t = choose|t: TensorId| #[trigger]
                s.live_tensors().contains(t) && s.producers.contains_key(t) && s.producers[t] == c;
            assert forall|live: Set<TensorId>| #[trigger] s.closed_backward(live) implies live.contains(u) by {
                assert(live.contains(t));
                assert(live.contains(rewrite_graph::resolve(s.remap, s.ops[s.producers[t] as int].inputs[i])));
            }
        } else {
            assert(s.outputs.contains(u));
        }
    }
}

pub proof fn lemma_active_among_grows(s: GraphModel, k: nat, more: nat)
    requires
        k <= more,
    ensures
        s.active_among(k) <= s.active_among(more),
    decreases more,
{
    if k < more {
        lemma_active_among_grows(s, k, (more - 1) as nat);
    }
}

/// The operation that stands at place `k` of those that are active.
proof fn lemma_active_at(s: GraphModel, k: nat, n: nat) -> (a: OpId)
    requires
        k < s.active_among(n),
        n <= s.ops.len() <= usize::MAX,
    ensures
        a < n,
        s.active(a),
        s.active_among(a as nat) == k,
    decreases n,
{
    if k < s.active_among((n - 1) as nat) {
        lemma_active_at(s, k, (n - 1) as nat)
    } else {
        (n - 1) as usize
    }
}

/// The listed tensors stand for themselves.
pub proof fn lemma_nothing_replaced(remap: Map<TensorId, TensorId>, listed: Seq<TensorId>)
    requires
        forall|i: int| 0 <= i < listed.len() ==> !remap.contains_key(#[trigger] listed[i]),
    ensures
        rewrite_graph::all_replaced(remap, listed) == listed,
{
    assert(rewrite_graph::all_replaced(remap, listed) =~= listed);
}

/// As long as an operation goes on absorbing, each round takes one operation away.
proof fn lemma_rounds_count(s: GraphModel, op: OpId, k: nat)
    requires
        s.valid(),
        op < s.ops.len() <= usize::MAX,
        s.active(op),
        forall|m: nat| m < k ==> (#[trigger] s.fused_rounds(op, m)).fusion_partner(op) is Some,
    ensures
        s.fused_rounds(op, k).valid(),
        s.fused_rounds(op, k).active(op),
        s.fused_rounds(op, k).ops.len() == s.ops.len(),
        s.fused_rounds(op, k).active_count() + k == s.active_count(),
    decreases k,
{
    if k > 0 {
        lemma_rounds_count(s, op, (k - 1) as nat);
        let was = s.fused_rounds(op, (k - 1) as nat);
        assert(was.fusion_partner(op) is Some);
        let c = was.fusion_partner(op)->0;
        sameness::lemma_partner(was, op, c);
        sameness::lemma_absorbed_valid(was, op, c);
        graph_rewrite::lemma_one_less_active(was, was.absorbed(op, c), c, was.ops.len());
    }
}

/// When an operation has had its turn, there is nothing left for it to absorb.
pub proof fn nothing_is_left_to_absorb(s: GraphModel, op: OpId)
    requires
        s.valid(),
        op < s.ops.len() <= usize::MAX,
        s.active(op),
    ensures
        s.fused_rounds(op, s.ops.len()).fusion_partner(op) is None,
{
    let n = s.ops.len();
    if exists|m: nat| m < n && (#[trigger] s.fused_rounds(op, m)).fusion_partner(op) is None {
        let m = choose|m: nat| m < n && (#[trigger] s.fused_rounds(op, m)).fusion_partner(op) is None;
        graph_rewrite::lemma_rounds_done(s, op, m, n);
    } else {
        lemma_rounds_count(s, op, n);
        graph_rewrite::lemma_active_bound(s, n);
        let last = s.fused_rounds(op, n);
        lemma_active_among_grows(last, op as nat + 1, n);
    }
}

/// Canonicalization of a sound problem keeps up.
pub proof fn lemma_canonical_keeps_up(p: Problem) -> (ranking: (spec_fn(TensorId) -> int, int))
    requires
        is_sound(p),
    ensures
        keeps_up(p, graph_rewrite::canonical(p), ranking.0, ranking.1, Set::empty()),
        graph_rewrite::canonical(p) == graph_rewrite::without_duplicates(p),
{
    let n = p.ops@.len();
    assert(n == p.ops.len());
    let (rank, top) = choose|rank: spec_fn(TensorId) -> int, top: int| #[trigger] is_ranking(p, rank, top);
    graph_rewrite::nothing_folds_without_constants(rewrite_graph::model_of(p));
    let r1 = lemma_identities_keep_up(p, rank, top, n);
    let s = graph_rewrite::simplified(p);
    lemma_fused_keeps_up(p, s, r1, top, n);
    lemma_recalculated_keeps_up(p, s.ops_fused(n), r1, top);
    let f = graph_rewrite::with_fusion(p);
    let r2 = lemma_duplicates_keep_up(p, f, r1, top, n);
    let d = f.duplicates_dropped(n).0;
    lemma_recalculated_keeps_up(p, d, r2, top);
    let w = graph_rewrite::without_duplicates(p);
    let c = graph_rewrite::canonical(p);
    assert forall|a: OpId| a < n && w.active(a) implies #[trigger] w.is_live(a) by {
        assert(d.active(a));
        lemma_live(p, d, r2, top, a);
    }
    assert(c.deleted =~= w.deleted) by {
        assert forall|a: OpId| c.deleted.contains(a) implies w.deleted.contains(a) by {
            if !w.deleted.contains(a) {
                assert(w.is_live(a));
            }
        }
    }
    assert(c =~= w);
    (r2, top)
}

/// What is at hand after canonicalization is put out by an operation that was written back.
proof fn lemma_written_back(p: Problem, after: Problem, rank: spec_fn(TensorId) -> int, top: int, t: TensorId)
    requires
        keeps_up(p, graph_rewrite::canonical(p), rank, top, Set::empty()),
        graph_rewrite::canonical(p).writes_back(after, p),
        at_hand(p, graph_rewrite::canonical(p), t),
    ensures
        is_produced(after, t) || !is_produced(p, t),
{
    let c = graph_rewrite::canonical(p);
    assert(p.ops@.len() == p.ops.len());
    if is_produced(p, t) {
        let a = choose|a: OpId| a < c.ops.len() && c.active(a) && (#[trigger] c.ops[a as int]).outputs.contains(t);
        let k = c.active_among(a as nat);
        lemma_active_among_grows(c, a as nat + 1, c.ops.len());
        assert(c.writes_back_op(after.ops@[k as int], a as int));
        lemma_nothing_replaced(c.remap, c.ops[a as int].outputs);
        assert(after.ops@[k as int].outputs@.contains(t));
    }
}

/// No result is lost: what stands for it is put out by an operation that is still
/// there. The one exception is a result that only hands on a tensor that no operation
/// puts out: then that tensor stands for it.
pub proof fn no_result_is_lost(before: Problem, after: Problem, t: TensorId)
    requires
        is_sound(before),
        graph_rewrite::canonical(before).writes_back(after, before),
        is_result(before, t),
    ensures
        ({
            let standing = rewrite_graph::resolve(graph_rewrite::canonical(before).remap, t);
            &&& sameness::hold_the_same(before, t, standing)
            &&& is_produced(after, standing) || !is_produced(before, standing)
        }),
{
    let (rank, top) = lemma_canonical_keeps_up(before);
    let c = graph_rewrite::canonical(before);
    let standing = rewrite_graph::resolve(c.remap, t);
    assert(at_hand(before, c, standing));
    lemma_written_back(before, after, rank, top, standing);
    sameness::what_stands_for_a_tensor_holds_the_same(before, t);
}

/// Operation `op` of the problem that was written back is operation `a` of the graph.
spec fn comes_from(c: GraphModel, after: Problem, op: int, a: OpId) -> bool {
    &&& a < c.ops.len()
    &&& c.active(a)
    &&& c.active_among(a as nat) == op
    &&& after.ops@[op].inputs@ == c.ops[a as int].inputs
    &&& after.ops@[op].outputs@ == c.ops[a as int].outputs
}

/// The operation of the graph of which `op` was written back.
spec fn source(c: GraphModel, after: Problem, op: int) -> OpId {
    choose|a: OpId| comes_from(c, after, op, a)
}

/// What canonicalization makes of a sound problem is sound, and its operations take in
/// only what its operations put out or what no operation put out before.
pub proof fn canonicalization_stays_sound(before: Problem, after: Problem)
    requires
        is_sound(before),
        graph_rewrite::canonical(before).writes_back(after, before),
    ensures
        is_sound(after),
        forall|op: int, i: int|
            0 <= op < after.ops@.len() && 0 <= i < after.ops@[op].inputs@.len() ==> is_produced(
                after,
                #[trigger] after.ops@[op].inputs@[i],
            ) || !is_produced(before, after.ops@[op].inputs@[i]),
{
    let p = before;
    let (rank, top) = lemma_canonical_keeps_up(p);
    let c = graph_rewrite::canonical(p);
    let n = c.ops.len();
    assert(p.ops@.len() == p.ops.len());
    assert forall|op: int| 0 <= op < after.ops@.len() implies #[trigger] comes_from(
        c,
        after,
        op,
        source(c, after, op),
    ) by {
        let a = lemma_active_at(c, op as nat, n);
        assert(c.writes_back_op(after.ops@[op], a as int));
        lemma_nothing_replaced(c.remap, c.ops[a as int].outputs);
        lemma_nothing_replaced(c.remap, c.ops[a as int].inputs);
        assert(comes_from(c, after, op, a));
    }
    assert forall|op: int, i: int|
        0 <= op < after.ops@.len() && 0 <= i < after.ops@[op].inputs@.len() implies (is_produced(
        after,
        #[trigger] after.ops@[op].inputs@[i],
    ) || !is_produced(p, after.ops@[op].inputs@[i])) && after.ops@[op].inputs@[i] < after.tensors@.len() by {
        let a = source(c, after, op);
        assert(comes_from(c, after, op, a));
        let t = c.ops[a as int].inputs[i];
        assert(at_hand(p, c, t));
        lemma_written_back(p, after, rank, top, t);
    }
    assert(is_sound(after)) by {
        assert forall|op: int, j: int| 0 <= op < after.ops@.len() && 0 <= j < after.ops@[op].outputs@.len() implies (
        #[trigger] after.ops@[op].outputs@[j]) < after.tensors@.len() by {
            let a = source(c, after, op);
            assert(comes_from(c, after, op, a));
            assert(c.ops[a as int].outputs[j] < c.tensors.len());
        }
        assert forall|op: int| 0 <= op < after.ops@.len() implies (#[trigger] after.ops@[op]).outputs@.len() > 0 by {
            let a = source(c, after, op);
            assert(comes_from(c, after, op, a));
            assert(c.active(a));
        }
        assert forall|x: int, i: int, y: int, j: int|
            #![trigger after.ops@[x].outputs@[i], after.ops@[y].outputs@[j]]
            0 <= x < after.ops@.len() && 0 <= y < after.ops@.len() && 0 <= i < after.ops@[x].outputs@.len() && 0 <= j
                < after.ops@[y].outputs@.len() && after.ops@[x].outputs@[i] == after.ops@[y].outputs@[j] implies x == y
            && i == j by {
            let a = source(c, after, x);
            assert(comes_from(c, after, x, a));
            let b = source(c, after, y);
            assert(comes_from(c, after, y, b));
            assert(c.ops[a as int].outputs[i] == c.ops[b as int].outputs[j]);
        }
        assert(is_ranking(after, rank, top)) by {
            assert forall|op: int, i: int, j: int|
                #![trigger after.ops@[op].inputs@[i], after.ops@[op].outputs@[j]]
                0 <= op < after.ops@.len() && 0 <= i < after.ops@[op].inputs@.len() && 0 <= j
                    < after.ops@[op].outputs@.len() implies rank(after.ops@[op].inputs@[i]) < rank(
                after.ops@[op].outputs@[j],
            ) by {
                let a = source(c, after, op);
                assert(comes_from(c, after, op, a));
                assert(rank(c.ops[a as int].inputs[i]) < rank(c.ops[a as int].outputs[j]));
            }
            assert forall|op: int, j: int|
                0 <= op < after.ops@.len() && 0 <= j < after.ops@[op].outputs@.len() implies rank(
                #[trigger] after.ops@[op].outputs@[j],
            ) <= top by {
                let a = source(c, after, op);
                assert(comes_from(c, after, op, a));
                assert(rank(c.ops[a as int].outputs[j]) <= top);
            }
        }
    }
}

/// What the first `k` operations of the problem cost together, gains counted as costs.
pub open spec fn total_cost(p: Problem, k: nat) -> int
    decreases k,
{
    if k == 0 {
        0
    } else {
        total_cost(p, (k - 1) as nat) + arith::magnitude(p.ops@[k - 1].base_cost as int)
    }
}

/// What those of the first `k` operations that are active cost together, gains counted as costs.
spec fn active_cost(s: GraphModel, k: nat) -> int
    decreases k,
{
    if k == 0 {
        0
    } else {
        active_cost(s, (k - 1) as nat) + if s.active((k - 1) as usize) {
            arith::magnitude(s.ops[k - 1].accumulated_cost)
        } else {
            0
        }
    }
}

/// Dropping operations does not add to the costs.
proof fn lemma_active_cost_falls(was: GraphModel, now: GraphModel, k: nat)
    requires
        k <= was.ops.len() <= usize::MAX,
        forall|i: OpId| i < was.ops.len() ==> (#[trigger] now.active(i) ==> was.active(i)),
        forall|i: int| 0 <= i < was.ops.len() ==> (#[trigger] now.ops[i]).accumulated_cost == was.ops[i].accumulated_cost,
    ensures
        active_cost(now, k) <= active_cost(was, k),
    decreases k,
{
    if k > 0 {
        lemma_active_cost_falls(was, now, (k - 1) as nat);
        let last = (k - 1) as usize;
        assert(now.active(last) ==> was.active(last));
        assert(now.ops[k - 1].accumulated_cost == was.ops[k - 1].accumulated_cost);
    }
}

/// Absorbing moves costs from one operation to another.
proof fn lemma_absorbed_cost(s: GraphModel, op: OpId, c: OpId, k: nat)
    requires
        k <= s.ops.len() <= usize::MAX,
        op < s.ops.len(),
        c < s.ops.len(),
        op != c,
        s.active(op),
        s.active(c),
    ensures
        ({
            let moved = arith::magnitude(s.ops[c as int].accumulated_cost);
            active_cost(s.absorbed(op, c), k) <= active_cost(s, k) + (if op < k { moved } else { 0 }) - (if c < k {
                moved
            } else {
                0
            })
        }),
    decreases k,
{
    if k > 0 {
        lemma_absorbed_cost(s, op, c, (k - 1) as nat);
        let last = (k - 1) as usize;
        let now = s.absorbed(op, c);
        if last != op && last != c {
            assert(now.ops[last as int] == s.ops[last as int]);
            assert(now.active(last) == s.active(last));
        } else if last == op {
            assert(now.active(op));
        } else {
            assert(!now.active(c));
        }
    }
}

proof fn lemma_active_cost_grows(s: GraphModel, k: nat, more: nat)
    requires
        k <= more,
    ensures
        0 <= active_cost(s, k) <= active_cost(s, more),
    decreases more,
{
    if k < more {
        lemma_active_cost_grows(s, k, (more - 1) as nat);
    } else if more > 0 {
        lemma_active_cost_grows(s, (k - 1) as nat, (more - 1) as nat);
    }
}

/// No active operation costs more than all of them.
proof fn lemma_one_active_cost(s: GraphModel, op: OpId)
    requires
        op < s.ops.len(),
        s.active(op),
    ensures
        arith::magnitude(s.ops[op as int].accumulated_cost) <= active_cost(s, s.ops.len()),
{
    lemma_active_cost_grows(s, op as nat + 1, s.ops.len());
    lemma_active_cost_grows(s, op as nat, op as nat);
    assert(active_cost(s, op as nat + 1) == active_cost(s, op as nat) + arith::magnitude(
        s.ops[op as int].accumulated_cost,
    ));
}

/// Dropping identities does not add to the costs.
proof fn lemma_identities_cost(p: Problem, k: nat)
    requires
        k <= p.ops@.len() <= usize::MAX,
    ensures
        ({
            let s = rewrite_graph::model_of(p).identities_dropped(k);
            s.ops.len() == p.ops@.len() && s.valid() && active_cost(s, s.ops.len()) <= total_cost(p, p.ops@.len())
        }),
    decreases k,
{
    let base = rewrite_graph::model_of(p);
    if k == 0 {
        sameness::lemma_model_valid(p);
        lemma_model_cost(p, p.ops@.len());
    } else {
        lemma_identities_cost(p, (k - 1) as nat);
        let s = base.identities_dropped((k - 1) as nat);
        let now = base.identities_dropped(k);
        let op = (k - 1) as usize;
        if s.active(op) && s.is_identity(op) {
            let from = s.ops[op as int].outputs[0];
            let to = rewrite_graph::resolve(s.remap, s.ops[op as int].inputs[0]);
            sameness::lemma_redirected_valid(s, op, from, to);
            sameness::lemma_without_valid(s.redirected(op, from, to), op);
            assert(now == s.redirected(op, from, to).without(op));
            lemma_active_cost_falls(s, now, s.ops.len());
        }
    }
}

proof fn lemma_model_cost(p: Problem, k: nat)
    requires
        k <= p.ops@.len() <= usize::MAX,
    ensures
        active_cost(rewrite_graph::model_of(p), k) == total_cost(p, k),
    decreases k,
{
    if k > 0 {
        lemma_model_cost(p, (k - 1) as nat);
        assert(rewrite_graph::model_of(p).active((k - 1) as usize));
    }
}

/// Absorbing does not add to the costs.
proof fn lemma_rounds_cost(s: GraphModel, op: OpId, k: nat)
    requires
        s.valid(),
        op < s.ops.len() <= usize::MAX,
        s.active(op),
    ensures
        ({
            let now = s.fused_rounds(op, k);
            &&& now.valid()
            &&& now.active(op)
            &&& now.ops.len() == s.ops.len()
            &&& active_cost(now, now.ops.len()) <= active_cost(s, s.ops.len())
        }),
    decreases k,
{
    if k > 0 {
        lemma_rounds_cost(s, op, (k - 1) as nat);
        let was = s.fused_rounds(op, (k - 1) as nat);
        if was.fusion_partner(op) is Some {
            let c = was.fusion_partner(op)->0;
            sameness::lemma_partner(was, op, c);
            sameness::lemma_absorbed_valid(was, op, c);
            lemma_absorbed_cost(was, op, c, was.ops.len());
        }
    }
}

proof fn lemma_fused_cost(s: GraphModel, k: nat)
    requires
        s.valid(),
        k <= s.ops.len() <= usize::MAX,
    ensures
        s.ops_fused(k).valid(),
        s.ops_fused(k).ops.len() == s.ops.len(),
        active_cost(s.ops_fused(k), s.ops.len()) <= active_cost(s, s.ops.len()),
    decreases k,
{
    if k > 0 {
        lemma_fused_cost(s, (k - 1) as nat);
        let was = s.ops_fused((k - 1) as nat);
        let op = (k - 1) as usize;
        if was.active(op) {
            lemma_rounds_cost(was, op, was.ops.len());
        }
    }
}

/// Costs that add up, gains counted as costs, can be fused in whatever way.
pub proof fn costs_that_add_up_can_be_fused(p: Problem)
    requires
        arith::fits(total_cost(p, p.ops@.len())),
    ensures
        graph_rewrite::simplified(p).fusion_fits(graph_rewrite::simplified(p).ops.len()),
{
    let n = p.ops@.len();
    assert(n == p.ops.len());
    graph_rewrite::nothing_folds_without_constants(rewrite_graph::model_of(p));
    lemma_identities_cost(p, n);
    let s = graph_rewrite::simplified(p);
    assert forall|j: nat, m: nat|
        #![trigger s.ops_fused(j).fused_rounds(j as usize, m)]
        j < n && s.ops_fused(j).active(j as usize) && m <= s.ops_fused(j).ops.len() implies arith::fits(
        s.ops_fused(j).fused_rounds(j as usize, m).ops[j as int].accumulated_cost,
    ) by {
        lemma_fused_cost(s, j);
        lemma_rounds_cost(s.ops_fused(j), j as usize, m);
        lemma_one_active_cost(s.ops_fused(j).fused_rounds(j as usize, m), j as usize);
    }
}

} // verus!
