//! After canonicalization a result still depends on all that it depended on.
use vstd::prelude::*;
use crate::{graph, graph_rewrite, rewrite_graph, rewrite_laws, sameness};
use crate::graph_rewrite::SignatureModel;
use crate::models::{OpId, OpType, Problem, TensorId};
use crate::rewrite_graph::GraphModel;

verus! {

/// `reached` holds, with anything that an operation takes in, all that it puts out.
pub open spec fn closed_forward(p: Problem, reached: Set<TensorId>) -> bool {
    forall|op: int, i: int, j: int|
        #![trigger p.ops@[op].inputs@[i], p.ops@[op].outputs@[j]]
        0 <= op < p.ops@.len() && 0 <= i < p.ops@[op].inputs@.len() && 0 <= j < p.ops@[op].outputs@.len()
            && reached.contains(p.ops@[op].inputs@[i]) ==> reached.contains(p.ops@[op].outputs@[j])
}

/// Tensor `t` depends on tensor `x`: operations lead from the one to the other.
pub open spec fn depends_on(p: Problem, t: TensorId, x: TensorId) -> bool {
    forall|reached: Set<TensorId>| #[trigger] closed_forward(p, reached) && reached.contains(x) ==> reached.contains(t)
}

/// `reached` holds, with anything that an active operation takes in, all that it puts out.
spec fn carries(s: GraphModel, reached: Set<TensorId>) -> bool {
    forall|a: OpId, i: int, j: int|
        #![trigger s.ops[a as int].inputs[i], s.ops[a as int].outputs[j]]
        a < s.ops.len() && s.active(a) && 0 <= i < s.ops[a as int].inputs.len() && 0 <= j
            < s.ops[a as int].outputs.len() && reached.contains(s.ops[a as int].inputs[i]) ==> reached.contains(
            s.ops[a as int].outputs[j],
        )
}

/// Both sets say the same of tensors, each read as what stands for it, but for those lost.
spec fn reads_alike(s: GraphModel, lost: Set<TensorId>, given: Set<TensorId>, reached: Set<TensorId>) -> bool {
    forall|u: TensorId|
        !#[trigger] lost.contains(u) ==> (given.contains(u) <==> reached.contains(rewrite_graph::resolve(s.remap, u)))
}

/// Whatever the graph leads to, the problem leads to, as far as tensors are not lost.
spec fn still_leads(p: Problem, s: GraphModel, lost: Set<TensorId>) -> bool {
    forall|reached: Set<TensorId>| #[trigger]
        carries(s, reached) ==> exists|given: Set<TensorId>| #[trigger]
            closed_forward(p, given) && reads_alike(s, lost, given, reached)
}

/// No result is lost, nor any tensor that no operation puts out; and those are not replaced.
spec fn ends_kept(p: Problem, s: GraphModel, lost: Set<TensorId>) -> bool {
    &&& forall|r: TensorId| #[trigger] rewrite_laws::is_result(p, r) ==> !lost.contains(r)
    &&& forall|x: TensorId| !#[trigger] rewrite_laws::is_produced(p, x) ==> !lost.contains(x) && !s.remap.contains_key(x)
    &&& forall|a: OpId, j: int|
        a < s.ops.len() && s.active(a) && 0 <= j < s.ops[a as int].outputs.len() ==> rewrite_laws::is_produced(
            p,
            #[trigger] s.ops[a as int].outputs[j],
        )
}

/// The tensors that are read as one of those reached.
spec fn read_through(s: GraphModel, reached: Set<TensorId>) -> Set<TensorId> {
    Set::new(|u: TensorId| reached.contains(rewrite_graph::resolve(s.remap, u)))
}

/// Replacing more goes on from what stood for a tensor before.
spec fn goes_on_from(was: GraphModel, now: GraphModel) -> bool {
    forall|u: TensorId|
        rewrite_graph::resolve(now.remap, #[trigger] rewrite_graph::resolve(was.remap, u)) == rewrite_graph::resolve(
            now.remap,
            u,
        )
}

proof fn lemma_leads_through(p: Problem, was: GraphModel, now: GraphModel, lost: Set<TensorId>)
    requires
        still_leads(p, was, lost),
        goes_on_from(was, now),
        forall|reached: Set<TensorId>| #[trigger] carries(now, reached) ==> carries(was, read_through(now, reached)),
    ensures
        still_leads(p, now, lost),
{
    assert forall|reached: Set<TensorId>| #[trigger] carries(now, reached) implies exists|given: Set<TensorId>|
        #[trigger] closed_forward(p, given) && reads_alike(now, lost, given, reached) by {
        let middle = read_through(now, reached);
        assert(carries(was, middle));
        let given = choose|given: Set<TensorId>| #[trigger]
            closed_forward(p, given) && reads_alike(was, lost, given, middle);
        assert forall|u: TensorId| !#[trigger] lost.contains(u) implies (given.contains(u) <==> reached.contains(
            rewrite_graph::resolve(now.remap, u),
        )) by {
            assert(given.contains(u) <==> middle.contains(rewrite_graph::resolve(was.remap, u)));
        }
        assert(reads_alike(now, lost, given, reached));
    }
}

/// Replacing one tensor by another goes on from what stood for a tensor before.
proof fn lemma_redirected_goes_on(s: GraphModel, op: OpId, from: TensorId, to: TensorId)
    requires
        rewrite_graph::chains_end(s.remap),
        !s.remap.contains_key(from),
        !s.remap.contains_key(to),
        from != to,
    ensures
        goes_on_from(s, s.redirected(op, from, to)),
        rewrite_graph::resolve(s.redirected(op, from, to).remap, from) == to,
{
    let now = s.redirected(op, from, to);
    rewrite_graph::lemma_replacing(s.remap, from, to);
    rewrite_graph::unreplaced_stands_for_itself(s.remap, from);
    assert forall|u: TensorId|
        rewrite_graph::resolve(now.remap, #[trigger] rewrite_graph::resolve(s.remap, u)) == rewrite_graph::resolve(
            now.remap,
            u,
        ) by {
        let at = rewrite_graph::resolve(s.remap, u);
        assert(rewrite_graph::ends(s.remap, u));
        let m = choose|m: nat| !s.remap.contains_key(#[trigger] rewrite_graph::walk(s.remap, u, m));
        rewrite_graph::lemma_chain_end(s.remap, u, m);
        rewrite_graph::unreplaced_stands_for_itself(s.remap, at);
        assert(rewrite_graph::resolve(now.remap, at) == if rewrite_graph::resolve(s.remap, at) == from { to } else { at });
    }
}

/// In the graph of a problem nothing has been replaced or lost.
proof fn lemma_model_leads(p: Problem)
    requires
        rewrite_laws::is_sound(p),
    ensures
        still_leads(p, rewrite_graph::model_of(p), Set::empty()),
        ends_kept(p, rewrite_graph::model_of(p), Set::empty()),
{
    let s = rewrite_graph::model_of(p);
    let none = Set::<TensorId>::empty();
    assert(p.ops@.len() == p.ops.len());
    assert forall|reached: Set<TensorId>| #[trigger] carries(s, reached) implies exists|given: Set<TensorId>|
        #[trigger] closed_forward(p, given) && reads_alike(s, none, given, reached) by {
        assert(closed_forward(p, reached)) by {
            assert forall|op: int, i: int, j: int|
                #![trigger p.ops@[op].inputs@[i], p.ops@[op].outputs@[j]]
                0 <= op < p.ops@.len() && 0 <= i < p.ops@[op].inputs@.len() && 0 <= j < p.ops@[op].outputs@.len()
                    && reached.contains(p.ops@[op].inputs@[i]) implies reached.contains(p.ops@[op].outputs@[j]) by {
                let a = op as OpId;
                assert(s.active(a));
                assert(reached.contains(s.ops[a as int].inputs[i]));
                assert(reached.contains(s.ops[a as int].outputs[j]));
            }
        }
        assert forall|u: TensorId| !#[trigger] none.contains(u) implies (reached.contains(u) <==> reached.contains(
            rewrite_graph::resolve(s.remap, u),
        )) by {
            rewrite_graph::unreplaced_stands_for_itself(s.remap, u);
        }
        assert(reads_alike(s, none, reached, reached));
    }
    assert forall|a: OpId, j: int| a < s.ops.len() && s.active(a) && 0 <= j < s.ops[a as int].outputs.len() implies rewrite_laws::is_produced(
        p,
        #[trigger] s.ops[a as int].outputs[j],
    ) by {
        let t = p.ops@[a as int].outputs@[j];
        assert(p.ops@[a as int].outputs@.contains(t));
    }
}

/// Dropping identities loses nothing.
proof fn lemma_identities_lead(p: Problem, rank: spec_fn(TensorId) -> int, top: int, k: nat)
    requires
        rewrite_laws::is_sound(p),
        rewrite_laws::is_ranking(p, rank, top),
        k <= p.ops@.len() <= usize::MAX,
    ensures
        still_leads(p, rewrite_graph::model_of(p).identities_dropped(k), Set::empty()),
        ends_kept(p, rewrite_graph::model_of(p).identities_dropped(k), Set::empty()),
    decreases k,
{
    let base = rewrite_graph::model_of(p);
    let none = Set::<TensorId>::empty();
    if k == 0 {
        lemma_model_leads(p);
    } else {
        lemma_identities_lead(p, rank, top, (k - 1) as nat);
        let was_rank = rewrite_laws::lemma_identities_keep_up(p, rank, top, (k - 1) as nat);
        let now_rank = rewrite_laws::lemma_identities_keep_up(p, rank, top, k);
        let s = base.identities_dropped((k - 1) as nat);
        let now = base.identities_dropped(k);
        let op = (k - 1) as usize;
        if s.active(op) && s.is_identity(op) {
            let from = s.ops[op as int].outputs[0];
            let input = s.ops[op as int].inputs[0];
            assert(!s.remap.contains_key(input));
            rewrite_graph::unreplaced_stands_for_itself(s.remap, input);
            let to = input;
            assert(was_rank(s.ops[op as int].inputs[0]) < was_rank(s.ops[op as int].outputs[0]));
            assert(!s.remap.contains_key(s.ops[op as int].outputs[0]));
            lemma_redirected_goes_on(s, op, from, to);
            assert(now.remap == s.redirected(op, from, to).remap);
            assert(goes_on_from(s, now));
            assert forall|reached: Set<TensorId>| #[trigger] carries(now, reached) implies carries(
                s,
                read_through(now, reached),
            ) by {
                let wide = read_through(now, reached);
                assert forall|a: OpId, i: int, j: int|
                    #![trigger s.ops[a as int].inputs[i], s.ops[a as int].outputs[j]]
                    a < s.ops.len() && s.active(a) && 0 <= i < s.ops[a as int].inputs.len() && 0 <= j
                        < s.ops[a as int].outputs.len() && wide.contains(s.ops[a as int].inputs[i]) implies wide.contains(
                    s.ops[a as int].outputs[j],
                ) by {
                    let x = s.ops[a as int].inputs[i];
                    assert(!s.remap.contains_key(x));
                    if a == op {
                        rewrite_graph::unreplaced_stands_for_itself(now.remap, to);
                    } else {
                        assert(now.active(a));
                        let out = now.ops[a as int].outputs[j];
                        assert(!now.remap.contains_key(out));
                        rewrite_graph::unreplaced_stands_for_itself(now.remap, out);
                        if x == from {
                            assert(s.consumers[x].contains(a));
                            assert(s.other_consumers(from, op).contains(a));
                            assert(now.ops[a as int].inputs[i] == to);
                        } else {
                            assert(!now.remap.contains_key(x));
                            rewrite_graph::unreplaced_stands_for_itself(now.remap, x);
                            assert(now.ops[a as int].inputs[i] == x);
                        }
                        assert(reached.contains(now.ops[a as int].inputs[i]));
                        assert(reached.contains(now.ops[a as int].outputs[j]));
                    }
                }
            }
            lemma_leads_through(p, s, now, none);
            assert(ends_kept(p, now, none)) by {
                assert(rewrite_laws::is_produced(p, s.ops[op as int].outputs[0]));
                assert forall|a: OpId, j: int|
                    a < now.ops.len() && now.active(a) && 0 <= j < now.ops[a as int].outputs.len() implies rewrite_laws::is_produced(
                    p,
                    #[trigger] now.ops[a as int].outputs[j],
                ) by {
                    assert(s.active(a));
                    assert(rewrite_laws::is_produced(p, s.ops[a as int].outputs[j]));
                }
            }
        }
    }
}

/// The tensors that are lost when the tensor between two operations goes.
spec fn more_lost(s: GraphModel, lost: Set<TensorId>, gone: TensorId) -> Set<TensorId> {
    Set::new(|u: TensorId| lost.contains(u) || rewrite_graph::resolve(s.remap, u) == gone)
}

/// Absorbing loses only the tensor between.
proof fn lemma_absorbed_leads(
    p: Problem,
    s: GraphModel,
    rank: spec_fn(TensorId) -> int,
    top: int,
    lost: Set<TensorId>,
    op: OpId,
    c: OpId,
) -> (now_lost: Set<TensorId>)
    requires
        rewrite_laws::keeps_up(p, s, rank, top, Set::empty()),
        rewrite_laws::results_spared(p, s),
        still_leads(p, s, lost),
        ends_kept(p, s, lost),
        op < s.ops.len() <= usize::MAX,
        s.active(op),
        s.fusion_partner(op) == Some(c),
    ensures
        still_leads(p, s.absorbed(op, c), now_lost),
        ends_kept(p, s.absorbed(op, c), now_lost),
{
    let now = s.absorbed(op, c);
    let gone = s.ops[op as int].outputs[0];
    let own = s.ops[op as int].inputs;
    let others = graph_rewrite::other_tensors(s.ops[c as int].inputs, gone);
    let now_lost = more_lost(s, lost, gone);
    graph_rewrite::lemma_other_tensors(s.ops[c as int].inputs, gone);
    sameness::lemma_partner(s, op, c);
    assert(now.ops[op as int].inputs == own + others);
    assert(now.ops[op as int].outputs == s.ops[c as int].outputs);
    assert(now.active(op));
    assert forall|reached: Set<TensorId>| #[trigger] carries(now, reached) implies exists|given: Set<TensorId>|
        #[trigger] closed_forward(p, given) && reads_alike(now, now_lost, given, reached) by {
        // The tensor between is reached where anything is that the first operation takes in.
        let feeds = exists|i: int| 0 <= i < own.len() && reached.contains(#[trigger] own[i]);
        let wide = if feeds {
            reached.insert(gone)
        } else {
            reached.remove(gone)
        };
        assert(carries(s, wide)) by {
            assert forall|a: OpId, i: int, j: int|
                #![trigger s.ops[a as int].inputs[i], s.ops[a as int].outputs[j]]
                a < s.ops.len() && s.active(a) && 0 <= i < s.ops[a as int].inputs.len() && 0 <= j
                    < s.ops[a as int].outputs.len() && wide.contains(s.ops[a as int].inputs[i]) implies wide.contains(
                s.ops[a as int].outputs[j],
            ) by {
                let x = s.ops[a as int].inputs[i];
                let out = s.ops[a as int].outputs[j];
                assert(s.consumers[x].contains(a));
                if a != c {
                    assert(x != gone) by {
                        if x == gone {
                            assert(set![c].contains(a));
                        }
                    }
                }
                if a == op {
                    assert(j == 0);
                    assert(reached.contains(own[i]));
                } else {
                    assert(out != gone) by {
                        if out == gone {
                            assert(s.ops[a as int].outputs[j] == s.ops[op as int].outputs[0]);
                        }
                    }
                    if a == c {
                        if x == gone {
                            let e = choose|e: int| 0 <= e < own.len() && reached.contains(#[trigger] own[e]);
                            assert(now.ops[op as int].inputs[e] == own[e]);
                            assert(reached.contains(now.ops[op as int].outputs[j]));
                        } else {
                            assert(others.contains(x));
                            let e = choose|e: int| 0 <= e < others.len() && others[e] == x;
                            assert(now.ops[op as int].inputs[own.len() + e] == x);
                            assert(reached.contains(now.ops[op as int].outputs[j]));
                        }
                    } else {
                        assert(now.active(a));
                        assert(now.ops[a as int] == s.ops[a as int]);
                        assert(reached.contains(now.ops[a as int].inputs[i]));
                        assert(reached.contains(now.ops[a as int].outputs[j]));
                    }
                }
            }
        }
        let given = choose|given: Set<TensorId>| #[trigger]
            closed_forward(p, given) && reads_alike(s, lost, given, wide);
        assert forall|u: TensorId| !#[trigger] now_lost.contains(u) implies (given.contains(u) <==> reached.contains(
            rewrite_graph::resolve(now.remap, u),
        )) by {
            assert(!lost.contains(u));
        }
        assert(reads_alike(now, now_lost, given, reached));
    }
    assert(ends_kept(p, now, now_lost)) by {
        assert forall|r: TensorId| #[trigger] rewrite_laws::is_result(p, r) implies !now_lost.contains(r) by {
            let q = rewrite_graph::resolve(s.remap, r);
            assert(rewrite_laws::is_spared(s, q));
            if q == gone {
                assert(s.consumers[gone].contains(c));
                let d = choose|d: OpId| #[trigger] s.consumers[gone].contains(d) && s.deleted.contains(d);
                assert(set![c].contains(d));
            }
        }
        assert(rewrite_laws::is_produced(p, s.ops[op as int].outputs[0]));
        assert forall|x: TensorId| !#[trigger] rewrite_laws::is_produced(p, x) implies !now_lost.contains(x)
            && !now.remap.contains_key(x) by {
            rewrite_graph::unreplaced_stands_for_itself(s.remap, x);
        }
        assert forall|a: OpId, j: int|
            a < now.ops.len() && now.active(a) && 0 <= j < now.ops[a as int].outputs.len() implies rewrite_laws::is_produced(
            p,
            #[trigger] now.ops[a as int].outputs[j],
        ) by {
            let x = if a == op { c } else { a };
            assert(s.active(x));
            assert(rewrite_laws::is_produced(p, s.ops[x as int].outputs[j]));
        }
    }
    now_lost
}

proof fn lemma_rounds_lead(
    p: Problem,
    s: GraphModel,
    rank: spec_fn(TensorId) -> int,
    top: int,
    lost: Set<TensorId>,
    op: OpId,
    k: nat,
) -> (now_lost: Set<TensorId>)
    requires
        rewrite_laws::keeps_up(p, s, rank, top, Set::empty()),
        rewrite_laws::results_spared(p, s),
        still_leads(p, s, lost),
        ends_kept(p, s, lost),
        op < s.ops.len() <= usize::MAX,
        s.active(op),
    ensures
        still_leads(p, s.fused_rounds(op, k), now_lost),
        ends_kept(p, s.fused_rounds(op, k), now_lost),
    decreases k,
{
    if k == 0 {
        lost
    } else {
        let was_lost = lemma_rounds_lead(p, s, rank, top, lost, op, (k - 1) as nat);
        let was = s.fused_rounds(op, (k - 1) as nat);
        rewrite_laws::lemma_rounds_keep_up(p, s, rank, top, op, (k - 1) as nat);
        if was.fusion_partner(op) is Some {
            lemma_absorbed_leads(p, was, rank, top, was_lost, op, was.fusion_partner(op)->0)
        } else {
            was_lost
        }
    }
}

proof fn lemma_fused_leads(
    p: Problem,
    s: GraphModel,
    rank: spec_fn(TensorId) -> int,
    top: int,
    lost: Set<TensorId>,
    k: nat,
) -> (now_lost: Set<TensorId>)
    requires
        rewrite_laws::keeps_up(p, s, rank, top, Set::empty()),
        rewrite_laws::results_spared(p, s),
        still_leads(p, s, lost),
        ends_kept(p, s, lost),
        k <= p.ops@.len() <= usize::MAX,
    ensures
        still_leads(p, s.ops_fused(k), now_lost),
        ends_kept(p, s.ops_fused(k), now_lost),
    decreases k,
{
    if k == 0 {
        lost
    } else {
        let was_lost = lemma_fused_leads(p, s, rank, top, lost, (k - 1) as nat);
        rewrite_laws::lemma_fused_keeps_up(p, s, rank, top, (k - 1) as nat);
        let was = s.ops_fused((k - 1) as nat);
        let op = (k - 1) as usize;
        if was.active(op) {
            lemma_rounds_lead(p, was, rank, top, was_lost, op, was.ops.len())
        } else {
            was_lost
        }
    }
}

/// Working out producers, consumers and results anew changes nothing of it.
proof fn lemma_recalculated_leads(p: Problem, s: GraphModel, lost: Set<TensorId>)
    requires
        still_leads(p, s, lost),
        ends_kept(p, s, lost),
    ensures
        still_leads(p, s.recalculated(), lost),
        ends_kept(p, s.recalculated(), lost),
{
    let now = s.recalculated();
    assert forall|a: OpId| #[trigger] now.active(a) == s.active(a) by {
    }
    assert forall|reached: Set<TensorId>| #[trigger] carries(now, reached) implies exists|given: Set<TensorId>|
        #[trigger] closed_forward(p, given) && reads_alike(now, lost, given, reached) by {
        assert(carries(s, reached)) by {
            assert forall|a: OpId, i: int, j: int|
                #![trigger s.ops[a as int].inputs[i], s.ops[a as int].outputs[j]]
                a < s.ops.len() && s.active(a) && 0 <= i < s.ops[a as int].inputs.len() && 0 <= j
                    < s.ops[a as int].outputs.len() && reached.contains(
                    s.ops[a as int].inputs[i],
                ) implies reached.contains(s.ops[a as int].outputs[j]) by {
                assert(now.active(a));
                assert(reached.contains(now.ops[a as int].inputs[i]));
                assert(reached.contains(now.ops[a as int].outputs[j]));
            }
        }
        let given = choose|given: Set<TensorId>| #[trigger]
            closed_forward(p, given) && reads_alike(s, lost, given, reached);
        assert(reads_alike(now, lost, given, reached));
    }
    assert forall|a: OpId, j: int|
        a < now.ops.len() && now.active(a) && 0 <= j < now.ops[a as int].outputs.len() implies rewrite_laws::is_produced(
        p,
        #[trigger] now.ops[a as int].outputs[j],
    ) by {
        assert(s.active(a));
        assert(rewrite_laws::is_produced(p, s.ops[a as int].outputs[j]));
    }
}

/// What stands for a tensor stands for itself.
proof fn lemma_standing(s: GraphModel, u: TensorId)
    requires
        rewrite_graph::chains_end(s.remap),
    ensures
        !s.remap.contains_key(rewrite_graph::resolve(s.remap, u)),
        rewrite_graph::resolve(s.remap, rewrite_graph::resolve(s.remap, u)) == rewrite_graph::resolve(s.remap, u),
{
    assert(rewrite_graph::ends(s.remap, u));
    let m = choose|m: nat| !s.remap.contains_key(#[trigger] rewrite_graph::walk(s.remap, u, m));
    rewrite_graph::lemma_chain_end(s.remap, u, m);
    rewrite_graph::unreplaced_stands_for_itself(s.remap, rewrite_graph::resolve(s.remap, u));
}

/// How tensors read when the outputs of a dropped operation have been replaced by those of another.
proof fn lemma_all_redirected_reads(
    p: Problem,
    s: GraphModel,
    rank: spec_fn(TensorId) -> int,
    top: int,
    op: OpId,
    first: OpId,
    from: Seq<TensorId>,
    to: Seq<TensorId>,
    k: nat,
)
    requires
        rewrite_laws::keeps_up(p, s, rank, top, from.to_set()),
        op < s.ops.len() <= usize::MAX,
        first < s.ops.len(),
        !s.active(op),
        s.active(first),
        s.ops[first as int].outputs == to,
        k <= from.len() == to.len(),
        from.no_duplicates(),
        forall|i: int, j: int|
            #![trigger s.ops[first as int].inputs[i], from[j]]
            0 <= i < s.ops[first as int].inputs.len() && 0 <= j < from.len() ==> rank(s.ops[first as int].inputs[i])
                < rank(from[j]),
    ensures
        goes_on_from(s, s.all_redirected(op, from, to, k)),
        forall|j: int|
            0 <= j < k ==> rewrite_graph::resolve(s.all_redirected(op, from, to, k).remap, #[trigger] from[j]) == to[j],
        forall|u: TensorId| #[trigger]
            s.all_redirected(op, from, to, k).remap.contains_key(u) ==> s.remap.contains_key(u) || from.contains(u),
        forall|a: OpId, i: int|
            a < s.ops.len() && s.active(a) && 0 <= i < s.ops[a as int].inputs.len() ==> #[trigger] s.all_redirected(
                op,
                from,
                to,
                k,
            ).ops[a as int].inputs[i] == rewrite_graph::resolve(
                s.all_redirected(op, from, to, k).remap,
                s.ops[a as int].inputs[i],
            ),
    decreases k,
{
    let now = s.all_redirected(op, from, to, k);
    if k == 0 {
        assert forall|u: TensorId|
            rewrite_graph::resolve(now.remap, #[trigger] rewrite_graph::resolve(s.remap, u)) == rewrite_graph::resolve(
                now.remap,
                u,
            ) by {
            lemma_standing(s, u);
        }
        assert forall|a: OpId, i: int|
            a < s.ops.len() && s.active(a) && 0 <= i
                < s.ops[a as int].inputs.len() implies #[trigger] now.ops[a as int].inputs[i] == rewrite_graph::resolve(
            now.remap,
            s.ops[a as int].inputs[i],
        ) by {
            assert(!s.remap.contains_key(s.ops[a as int].inputs[i]));
            rewrite_graph::unreplaced_stands_for_itself(s.remap, s.ops[a as int].inputs[i]);
        }
    } else {
        lemma_all_redirected_reads(p, s, rank, top, op, first, from, to, (k - 1) as nat);
        let was_rank = rewrite_laws::lemma_all_redirected_keeps_up(p, s, rank, top, op, first, from, to, (k - 1) as nat);
        let was = s.all_redirected(op, from, to, (k - 1) as nat);
        let rest = from.skip(k - 1);
        let pending = rest.to_set();
        let f = from[k - 1];
        let t = to[k - 1];
        assert(rest[0] == f);
        assert(pending.contains(f));
        assert(was.ops[first as int].fused_into == s.ops[first as int].fused_into);
        assert(was.active(first));
        assert(was.ops[op as int].fused_into == s.ops[op as int].fused_into);
        assert(!was.active(op));
        assert(was.ops[first as int].outputs[k - 1] == t);
        assert(!was.remap.contains_key(t) && !pending.contains(t));
        lemma_redirected_goes_on(was, op, f, t);
        rewrite_graph::lemma_replacing(was.remap, f, t);
        rewrite_laws::lemma_redirected_inputs(p, was, op, f, t, pending);
        assert(now == was.redirected(op, f, t));
        assert(now.remap == was.remap.insert(f, t));
        assert forall|u: TensorId|
            rewrite_graph::resolve(now.remap, #[trigger] rewrite_graph::resolve(s.remap, u)) == rewrite_graph::resolve(
                now.remap,
                u,
            ) by {
            let at = rewrite_graph::resolve(s.remap, u);
            assert(rewrite_graph::resolve(was.remap, at) == rewrite_graph::resolve(was.remap, u));
            assert(rewrite_graph::resolve(now.remap, rewrite_graph::resolve(was.remap, at)) == rewrite_graph::resolve(
                now.remap,
                at,
            ));
            assert(rewrite_graph::resolve(now.remap, rewrite_graph::resolve(was.remap, u)) == rewrite_graph::resolve(
                now.remap,
                u,
            ));
        }
        assert forall|j: int| 0 <= j < k implies rewrite_graph::resolve(now.remap, #[trigger] from[j]) == to[j] by {
            if j < k - 1 {
                assert(rewrite_graph::resolve(was.remap, from[j]) == to[j]);
                assert(was.ops[first as int].outputs[j] == to[j]);
                assert(!pending.contains(was.ops[first as int].outputs[j]));
            }
        }
        assert forall|a: OpId, i: int|
            a < s.ops.len() && s.active(a) && 0 <= i
                < s.ops[a as int].inputs.len() implies #[trigger] now.ops[a as int].inputs[i] == rewrite_graph::resolve(
            now.remap,
            s.ops[a as int].inputs[i],
        ) by {
            let x = s.ops[a as int].inputs[i];
            assert(was.ops[a as int].fused_into == s.ops[a as int].fused_into);
            assert(was.active(a));
            assert(was.ops[a as int].inputs.len() == s.ops[a as int].inputs.len());
            let y = was.ops[a as int].inputs[i];
            assert(y == rewrite_graph::resolve(was.remap, x));
            assert(now.ops[a as int].inputs[i] == if y == f { t } else { y });
        }
    }
}

/// Dropping duplicates loses nothing.
proof fn lemma_duplicates_lead(
    p: Problem,
    s: GraphModel,
    rank: spec_fn(TensorId) -> int,
    top: int,
    lost: Set<TensorId>,
    k: nat,
)
    requires
        rewrite_laws::keeps_up(p, s, rank, top, Set::empty()),
        still_leads(p, s, lost),
        ends_kept(p, s, lost),
        k <= p.ops@.len() <= usize::MAX,
    ensures
        still_leads(p, s.duplicates_dropped(k).0, lost),
        ends_kept(p, s.duplicates_dropped(k).0, lost),
    decreases k,
{
    if k > 0 {
        lemma_duplicates_lead(p, s, rank, top, lost, (k - 1) as nat);
        let was_rank = rewrite_laws::lemma_duplicates_keep_up(p, s, rank, top, (k - 1) as nat);
        let (was, seen) = s.duplicates_dropped((k - 1) as nat);
        let (now, _) = s.duplicates_dropped(k);
        let op = (k - 1) as usize;
        if was.active(op) && !was.has_absorbed(op) {
            let sig = was.signature(op);
            match graph_rewrite::find_agreeing(seen, sig, seen.len()) {
                Some(first) => {
                    if was.ops[op as int].outputs.len() == was.ops[first as int].outputs.len() {
                        let m = sameness::lemma_found(seen, sig, seen.len());
                        lemma_dropped_duplicate_leads(p, was, was_rank, top, lost, op, seen, m, k);
                    }
                },
                None => {},
            }
        }
    }
}

/// Dropping one duplicate loses nothing.
proof fn lemma_dropped_duplicate_leads(
    p: Problem,
    was: GraphModel,
    rank: spec_fn(TensorId) -> int,
    top: int,
    lost: Set<TensorId>,
    op: OpId,
    seen: Seq<SignatureModel>,
    m: int,
    k: nat,
)
    requires
        rewrite_laws::keeps_up(p, was, rank, top, Set::empty()),
        still_leads(p, was, lost),
        ends_kept(p, was, lost),
        rewrite_laws::signatures_current(was, seen, (k - 1) as nat),
        op == k - 1,
        op < was.ops.len() <= usize::MAX,
        was.active(op),
        0 <= m < seen.len(),
        seen[m].agrees(was.signature(op)),
        was.ops[op as int].outputs.len() == was.ops[seen[m].op as int].outputs.len(),
    ensures
        ({
            let from = was.ops[op as int].outputs;
            let to = was.ops[seen[m].op as int].outputs;
            let now = was.all_redirected(op, from, to, from.len()).without(op);
            still_leads(p, now, lost) && ends_kept(p, now, lost)
        }),
{
    let sig = was.signature(op);
    let first = seen[m].op;
    let ins = was.ops[op as int].inputs;
    let from = was.ops[op as int].outputs;
    let to = was.ops[first as int].outputs;
    let gone = was.without(op);
    let now = was.all_redirected(op, from, to, from.len()).without(op);
    assert forall|i: int| 0 <= i < ins.len() implies #[trigger] sig.inputs[i] == ins[i] by {
        assert(!was.remap.contains_key(was.ops[op as int].inputs[i]));
        rewrite_graph::unreplaced_stands_for_itself(was.remap, ins[i]);
    }
    rewrite_laws::lemma_dropped_keeps_up(p, was, rank, top, op);
    assert forall|i: int, j: int|
        #![trigger gone.ops[first as int].inputs[i], from[j]]
        0 <= i < gone.ops[first as int].inputs.len() && 0 <= j < from.len() implies rank(
        gone.ops[first as int].inputs[i],
    ) < rank(from[j]) by {
        let x = seen[m].inputs[i];
        let e = rewrite_laws::lemma_agreeing_mentions(seen[m], sig, i);
        assert(x == ins[e]);
        assert(!was.remap.contains_key(was.ops[op as int].inputs[e]));
        assert(was.ops[first as int].inputs[i] == x);
        assert(rank(was.ops[op as int].inputs[e]) < rank(was.ops[op as int].outputs[j]));
    }
    assert(from.no_duplicates()) by {
        assert forall|i: int, j: int| 0 <= i < from.len() && 0 <= j < from.len() && i != j implies from[i]
            != from[j] by {
            if from[i] == from[j] {
                assert(was.ops[op as int].outputs[i] == was.ops[op as int].outputs[j]);
            }
        }
    }
    let now_rank = rewrite_laws::lemma_all_redirected_keeps_up(p, gone, rank, top, op, first, from, to, from.len());
    lemma_all_redirected_reads(p, gone, rank, top, op, first, from, to, from.len());
    rewrite_laws::lemma_drop_first(was, op, from, to, from.len());
    assert(from.skip(from.len() as int).to_set() =~= Set::<TensorId>::empty());
    assert(now == gone.all_redirected(op, from, to, from.len()));
    assert(goes_on_from(was, now)) by {
        assert forall|u: TensorId|
            rewrite_graph::resolve(now.remap, #[trigger] rewrite_graph::resolve(was.remap, u)) == rewrite_graph::resolve(
                now.remap,
                u,
            ) by {
            assert(rewrite_graph::resolve(gone.remap, u) == rewrite_graph::resolve(was.remap, u));
        }
    }
    assert forall|a: OpId| a < was.ops.len() && a != op && was.active(a) implies #[trigger] now.active(a) by {
        assert(now.ops[a as int].fused_into == gone.ops[a as int].fused_into);
    }
    assert forall|reached: Set<TensorId>| #[trigger] carries(now, reached) implies carries(
        was,
        read_through(now, reached),
    ) by {
        let wide = read_through(now, reached);
        assert forall|a: OpId, i: int, j: int|
            #![trigger was.ops[a as int].inputs[i], was.ops[a as int].outputs[j]]
            a < was.ops.len() && was.active(a) && 0 <= i < was.ops[a as int].inputs.len() && 0 <= j
                < was.ops[a as int].outputs.len() && wide.contains(was.ops[a as int].inputs[i]) implies wide.contains(
            was.ops[a as int].outputs[j],
        ) by {
            let x = was.ops[a as int].inputs[i];
            assert(!was.remap.contains_key(x));
            if a == op {
                // The duplicate takes in what the first operation takes in.
                let e = lemma_agreeing_back(seen[m], sig, i);
                assert(seen[m].inputs[e] == x);
                assert(was.ops[first as int].inputs[e] == x);
                assert(!from.contains(x)) by {
                    if from.contains(x) {
                        let b = choose|b: int| 0 <= b < from.len() && from[b] == x;
                        assert(rank(gone.ops[first as int].inputs[e]) < rank(from[b]));
                    }
                }
                assert(!now.remap.contains_key(x));
                rewrite_graph::unreplaced_stands_for_itself(now.remap, x);
                assert(now.active(first));
                assert(now.ops[first as int].inputs[e] == x);
                assert(now.ops[first as int].outputs == to);
                assert(reached.contains(now.ops[first as int].inputs[e]));
                assert(reached.contains(now.ops[first as int].outputs[j]));
                assert(rewrite_graph::resolve(now.remap, from[j]) == to[j]);
            } else {
                assert(now.active(a) && gone.active(a));
                assert(now.ops[a as int].outputs == gone.ops[a as int].outputs);
                let out = now.ops[a as int].outputs[j];
                assert(!now.remap.contains_key(now.ops[a as int].outputs[j]));
                rewrite_graph::unreplaced_stands_for_itself(now.remap, out);
                assert(now.ops[a as int].inputs[i] == rewrite_graph::resolve(now.remap, gone.ops[a as int].inputs[i]));
                assert(reached.contains(now.ops[a as int].inputs[i]));
                assert(reached.contains(now.ops[a as int].outputs[j]));
            }
        }
    }
    lemma_leads_through(p, was, now, lost);
    assert(ends_kept(p, now, lost)) by {
        assert forall|x: TensorId| !#[trigger] rewrite_laws::is_produced(p, x) implies !lost.contains(x) && !now.remap.contains_key(
            x,
        ) by {
            if from.contains(x) {
                let b = choose|b: int| 0 <= b < from.len() && from[b] == x;
                assert(rewrite_laws::is_produced(p, was.ops[op as int].outputs[b]));
            }
        }
        assert forall|a: OpId, j: int|
            a < now.ops.len() && now.active(a) && 0 <= j < now.ops[a as int].outputs.len() implies rewrite_laws::is_produced(
            p,
            #[trigger] now.ops[a as int].outputs[j],
        ) by {
            assert(now.ops[a as int].fused_into == gone.ops[a as int].fused_into);
            assert(was.active(a));
            assert(now.ops[a as int].outputs == gone.ops[a as int].outputs);
            assert(rewrite_laws::is_produced(p, was.ops[a as int].outputs[j]));
        }
    }
}

/// What a signature mentions, one that agrees with it mentions too.
proof fn lemma_agreeing_back(a: SignatureModel, b: SignatureModel, i: int) -> (e: int)
    requires
        a.agrees(b),
        0 <= i < b.inputs.len(),
    ensures
        0 <= e < a.inputs.len(),
        a.inputs[e] == b.inputs[i],
{
    assert(b.agrees(a)) by {
        if a.op_type == OpType::Pointwise {
            assert forall|t: TensorId| #[trigger]
                graph::occurrences(b.inputs, t) == graph::occurrences(a.inputs, t) by {
                assert(graph::occurrences(a.inputs, t) == graph::occurrences(b.inputs, t));
            }
        }
    }
    rewrite_laws::lemma_agreeing_mentions(b, a, i)
}

/// A result that depends on a tensor that no operation puts out still does so after
/// canonicalization, under the tensor that stands for it.
pub proof fn results_depend_on_what_they_did(before: Problem, after: Problem, t: TensorId, x: TensorId)
    requires
        rewrite_laws::is_sound(before),
        graph_rewrite::canonical(before).writes_back(after, before),
        rewrite_laws::is_result(before, t),
        !rewrite_laws::is_produced(before, x),
        depends_on(before, t, x),
    ensures
        depends_on(after, rewrite_graph::resolve(graph_rewrite::canonical(before).remap, t), x),
{
    let p = before;
    let n = p.ops@.len();
    assert(n == p.ops.len());
    let (rank, top) = choose|rank: spec_fn(TensorId) -> int, top: int| #[trigger] rewrite_laws::is_ranking(p, rank, top);
    graph_rewrite::nothing_folds_without_constants(rewrite_graph::model_of(p));
    let r1 = rewrite_laws::lemma_identities_keep_up(p, rank, top, n);
    lemma_identities_lead(p, rank, top, n);
    let s = graph_rewrite::simplified(p);
    let lost = lemma_fused_leads(p, s, r1, top, Set::empty(), n);
    rewrite_laws::lemma_fused_keeps_up(p, s, r1, top, n);
    rewrite_laws::lemma_recalculated_keeps_up(p, s.ops_fused(n), r1, top);
    lemma_recalculated_leads(p, s.ops_fused(n), lost);
    let f = graph_rewrite::with_fusion(p);
    lemma_duplicates_lead(p, f, r1, top, lost, n);
    lemma_recalculated_leads(p, f.duplicates_dropped(n).0, lost);
    let w = graph_rewrite::without_duplicates(p);
    let c = graph_rewrite::canonical(p);
    let (c_rank, c_top) = rewrite_laws::lemma_canonical_keeps_up(p);
    let standing = rewrite_graph::resolve(c.remap, t);
    assert forall|reached: Set<TensorId>| #[trigger]
        closed_forward(after, reached) && reached.contains(x) implies reached.contains(standing) by {
        assert(carries(w, reached)) by {
            assert forall|a: OpId, i: int, j: int|
                #![trigger w.ops[a as int].inputs[i], w.ops[a as int].outputs[j]]
                a < w.ops.len() && w.active(a) && 0 <= i < w.ops[a as int].inputs.len() && 0 <= j
                    < w.ops[a as int].outputs.len() && reached.contains(
                    w.ops[a as int].inputs[i],
                ) implies reached.contains(w.ops[a as int].outputs[j]) by {
                assert(c.active(a));
                let at = c.active_among(a as nat) as int;
                rewrite_laws::lemma_active_among_grows(c, a as nat + 1, c.ops.len());
                assert(c.writes_back_op(after.ops@[at], a as int));
                rewrite_laws::lemma_nothing_replaced(c.remap, c.ops[a as int].outputs);
                rewrite_laws::lemma_nothing_replaced(c.remap, c.ops[a as int].inputs);
                assert(reached.contains(after.ops@[at].inputs@[i]));
                assert(reached.contains(after.ops@[at].outputs@[j]));
            }
        }
        let given = choose|given: Set<TensorId>| #[trigger]
            closed_forward(p, given) && reads_alike(w, lost, given, reached);
        assert(!lost.contains(x) && !lost.contains(t));
        rewrite_graph::unreplaced_stands_for_itself(w.remap, x);
        assert(given.contains(x));
        assert(given.contains(t));
    }
}

/// In a sound problem a result depends on every operation that is left before dead code
/// is looked for, so none is dropped.
pub proof fn sound_problems_have_no_dead_code(before: Problem)
    requires
        rewrite_laws::is_sound(before),
    ensures
        graph_rewrite::canonical(before) == graph_rewrite::without_duplicates(before),
{
    let _ = rewrite_laws::lemma_canonical_keeps_up(before);
}

} // verus!
