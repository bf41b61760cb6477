//! Buffer sharing: tensors whose lifetimes do not meet can use the same memory.
use std::collections::{HashMap, HashSet};
use vstd::prelude::*;
use crate::{arith, graph, ids, models, rewrite_graph, sorting};
use crate::models::{OpId, Problem, Tensor, TensorId};
use crate::rewrite_graph::{GraphModel, RewriteGraph};
use crate::sorting::SortKey;

verus! {

/// Which tensors share memory, and what that saves.
#[derive(Debug)]
pub struct BufferSharingInfo {
    /// The pairs of tensors that share a slot.
    pub sharing_pairs: Vec<(TensorId, TensorId)>,
    /// For each tensor the first and the last position of the run order at which it is live.
    pub liveness_intervals: HashMap<TensorId, (OpId, OpId)>,
    /// The memory slot of each tensor.
    pub slot_assignments: HashMap<TensorId, usize>,
    /// The size of each slot: that of its largest tensor.
    pub slot_sizes: Vec<i64>,
    /// What all slots take together.
    pub compacted_memory: i64,
    /// What all tensors would take without sharing.
    pub original_memory: i64,
}

impl GraphModel {
    /// An active operation hands a tensor to another active one.
    pub open spec fn feeds(self, u: OpId, v: OpId) -> bool {
        &&& self.active(u)
        &&& self.active(v)
        &&& exists|j: int|
            0 <= j < self.ops[u as int].outputs.len() && self.consumers.contains_key(
                #[trigger] self.ops[u as int].outputs[j],
            ) && self.consumers[self.ops[u as int].outputs[j]].contains(v)
    }

    /// `order` lists active operations, each once and after all that feed it, and
    /// leaves out only what could never follow.
    pub open spec fn is_run(self, order: Seq<OpId>) -> bool {
        &&& order.no_duplicates()
        &&& forall|i: int| 0 <= i < order.len() ==> (#[trigger] order[i]) < self.ops.len() && self.active(order[i])
        &&& forall|i: int, u: OpId|
            0 <= i < order.len() && u < self.ops.len() && #[trigger] self.feeds(u, order[i]) ==> order.take(i).contains(
                u,
            )
        &&& forall|v: OpId|
            v < self.ops.len() && #[trigger] self.active(v) && (forall|u: OpId|
                u < self.ops.len() && #[trigger] self.feeds(u, v) ==> order.contains(u)) ==> order.contains(v)
    }

    /// The operation takes in or puts out tensor `t`.
    pub open spec fn mentions(self, op: OpId, t: TensorId) -> bool {
        self.takes_in(op, t) || self.puts_out(op, t)
    }

    /// The operation consumes tensor `t`, itself or by way of a replacement.
    pub open spec fn uses(self, op: OpId, t: TensorId) -> bool {
        self.takes_in(op, t) || (self.consumers.contains_key(t) && self.consumers[t].contains(op))
    }

    /// Some operation of the order mentions tensor `t`.
    pub open spec fn is_mentioned(self, order: Seq<OpId>, t: TensorId) -> bool {
        exists|i: int| 0 <= i < order.len() && self.mentions(#[trigger] order[i], t)
    }

    /// Tensor `t` is live from its first mention to its last use.
    pub open spec fn is_lifetime(self, order: Seq<OpId>, t: TensorId, first: int, last: int) -> bool {
        &&& 0 <= first < order.len()
        &&& self.mentions(order[first], t)
        &&& forall|i: int| 0 <= i < first ==> !self.mentions(#[trigger] order[i], t)
        &&& first <= last < order.len()
        &&& last == first || self.uses(order[last], t)
        &&& forall|i: int| last < i < order.len() ==> !self.uses(#[trigger] order[i], t)
    }
}

/// The lifetimes do not meet.
pub open spec fn apart(a: (OpId, OpId), b: (OpId, OpId)) -> bool {
    a.1 < b.0 || b.1 < a.0
}

/// The ids below `m` that have a lifetime, ascending.
pub open spec fn tensors_alive(lifetimes: Map<TensorId, (OpId, OpId)>, m: nat) -> Seq<TensorId>
    decreases m,
{
    if m == 0 {
        Seq::empty()
    } else {
        let rest = tensors_alive(lifetimes, (m - 1) as nat);
        if lifetimes.contains_key((m - 1) as usize) {
            rest.push((m - 1) as usize)
        } else {
            rest
        }
    }
}

/// The keys sort by the start of the lifetime, then large tensors first.
pub open spec fn ranks_by_start(
    keys: Seq<SortKey>,
    listed: Seq<TensorId>,
    lifetimes: Map<TensorId, (OpId, OpId)>,
    tensors: Seq<Tensor>,
) -> bool {
    &&& keys.len() == listed.len()
    &&& forall|i: int|
        0 <= i < listed.len() ==> sorting::has_key(
            #[trigger] keys[i],
            lifetimes[listed[i]].0 as int,
            -tensors[listed[i] as int].area(),
            0,
        )
}

/// `placed` lists the tensors in the order in which they get their slots.
pub open spec fn is_placing_order(
    placed: Seq<TensorId>,
    lifetimes: Map<TensorId, (OpId, OpId)>,
    tensors: Seq<Tensor>,
) -> bool {
    let listed = tensors_alive(lifetimes, tensors.len());
    exists|keys: Seq<SortKey>, order: Seq<usize>|
        #![trigger ranks_by_start(keys, listed, lifetimes, tensors), sorting::is_stable_order(keys, order)]
        ranks_by_start(keys, listed, lifetimes, tensors) && sorting::is_stable_order(keys, order) && placed == Seq::new(
            order.len(),
            |i: int| listed[order[i] as int],
        )
}

/// The `k`th tensor has the lowest slot in which no earlier tensor's lifetime meets its own.
pub open spec fn has_first_fit(
    placed: Seq<TensorId>,
    slots: Seq<usize>,
    lifetimes: Map<TensorId, (OpId, OpId)>,
    k: int,
) -> bool {
    &&& forall|i: int|
        0 <= i < k && #[trigger] slots[i] == slots[k] ==> apart(lifetimes[placed[i]], lifetimes[placed[k]])
    &&& forall|j: usize| j < slots[k] ==> #[trigger] blocks(placed, slots, lifetimes, k, j)
}

/// An earlier tensor in slot `j` meets the lifetime of the `k`th one.
pub open spec fn blocks(
    placed: Seq<TensorId>,
    slots: Seq<usize>,
    lifetimes: Map<TensorId, (OpId, OpId)>,
    k: int,
    j: usize,
) -> bool {
    exists|i: int| 0 <= i < k && #[trigger] slots[i] == j && !apart(lifetimes[placed[i]], lifetimes[placed[k]])
}

/// `size` is that of the largest of the first `k` tensors in slot `j`.
pub open spec fn is_slot_size(
    placed: Seq<TensorId>,
    slots: Seq<usize>,
    tensors: Seq<Tensor>,
    k: int,
    j: usize,
    size: int,
) -> bool {
    &&& exists|i: int| 0 <= i < k && #[trigger] slots[i] == j && tensors[placed[i] as int].area() == size
    &&& forall|i: int| 0 <= i < k && #[trigger] slots[i] == j ==> tensors[placed[i] as int].area() <= size
}

/// The pairs of tensor `i` with those after it and before `m` that have its slot.
pub open spec fn pairs_of(placed: Seq<TensorId>, slots: Seq<usize>, i: int, m: nat) -> Seq<(TensorId, TensorId)>
    decreases m,
{
    if m == 0 || m <= i + 1 {
        Seq::empty()
    } else {
        let rest = pairs_of(placed, slots, i, (m - 1) as nat);
        if slots[m - 1] == slots[i] {
            rest.push((placed[i], placed[m - 1]))
        } else {
            rest
        }
    }
}

/// The pairs of each of the first `k` tensors with later ones in its slot.
pub open spec fn all_pairs(placed: Seq<TensorId>, slots: Seq<usize>, k: nat) -> Seq<(TensorId, TensorId)>
    decreases k,
{
    if k == 0 {
        Seq::empty()
    } else {
        all_pairs(placed, slots, (k - 1) as nat) + pairs_of(placed, slots, k - 1, placed.len())
    }
}

/// The sizes of the listed tensors.
pub open spec fn areas_of(listed: Seq<TensorId>, tensors: Seq<Tensor>) -> Seq<int> {
    Seq::new(listed.len(), |i: int| tensors[listed[i] as int].area())
}

impl BufferSharingInfo {
    /// The lifetimes are those of the tensors in the given run of the graph.
    pub open spec fn has_lifetimes(&self, s: GraphModel, order: Seq<OpId>) -> bool {
        &&& forall|t: TensorId| #[trigger] self.liveness_intervals@.contains_key(t) <==> s.is_mentioned(order, t)
        &&& forall|t: TensorId| #[trigger]
            self.liveness_intervals@.contains_key(t) ==> s.is_lifetime(
                order,
                t,
                self.liveness_intervals@[t].0 as int,
                self.liveness_intervals@[t].1 as int,
            )
    }

    /// Tensors get their slots in the given order, each the first that fits.
    pub open spec fn has_slots(&self, tensors: Seq<Tensor>, placed: Seq<TensorId>, slots: Seq<usize>) -> bool {
        let lifetimes = self.liveness_intervals@;
        &&& is_placing_order(placed, lifetimes, tensors)
        &&& slots.len() == placed.len()
        &&& forall|k: int| 0 <= k < placed.len() ==> #[trigger] has_first_fit(placed, slots, lifetimes, k)
        &&& forall|t: TensorId| #[trigger] self.slot_assignments@.contains_key(t) <==> placed.contains(t)
        &&& forall|k: int| 0 <= k < placed.len() ==> self.slot_assignments@[#[trigger] placed[k]] == slots[k]
        &&& forall|k: int| 0 <= k < slots.len() ==> #[trigger] slots[k] < self.slot_sizes@.len()
        &&& forall|j: usize|
            j < self.slot_sizes@.len() ==> is_slot_size(
                placed,
                slots,
                tensors,
                placed.len() as int,
                j,
                #[trigger] self.slot_sizes@[j as int] as int,
            )
        &&& self.compacted_memory == arith::sum(arith::ints(self.slot_sizes@))
        &&& self.original_memory == arith::sum(areas_of(placed, tensors))
        &&& self.sharing_pairs@ == all_pairs(placed, slots, placed.len())
    }

    /// This is how the tensors of the graph share memory, in some run of it.
    pub open spec fn is_of(&self, s: GraphModel) -> bool {
        exists|order: Seq<OpId>, placed: Seq<TensorId>, slots: Seq<usize>|
            s.is_run(order) && #[trigger] self.has_lifetimes(s, order) && #[trigger] self.has_slots(
                s.tensors,
                placed,
                slots,
            )
    }
}

/// All tensors together take an `i64` amount of memory.
pub open spec fn tensors_fit(tensors: Seq<Tensor>) -> bool {
    arith::fits(arith::sum_below(|i: int| arith::magnitude(tensors[i].area()), tensors.len()))
}

/// Each tensor takes an `i64` amount of memory if all together do.
pub proof fn lemma_each_fits(tensors: Seq<Tensor>, i: int)
    requires
        tensors_fit(tensors),
        tensors.len() <= usize::MAX,
        0 <= i < tensors.len(),
    ensures
        arith::fits(tensors[i].area()),
{
    let f = |i: int| tensors[i].area();
    let places = seq![i as usize];
    arith::lemma_sum_of_distinct(places, f, tensors.len());
    let values = Seq::new(places.len(), |k: int| f(places[k] as int));
    assert(values.drop_last() =~= Seq::<int>::empty());
    assert(arith::sum(values.drop_last()) == 0);
    assert(values.last() == f(i));
    assert(arith::sum(values) == tensors[i].area());
    lemma_same_sum(tensors, tensors.len());
}

proof fn lemma_same_sum(tensors: Seq<Tensor>, n: nat)
    ensures
        arith::sum_below(|i: int| arith::magnitude(tensors[i].area()), n) == arith::sum_below(
            |i: int| arith::magnitude((|i: int| tensors[i].area())(i)),
            n,
        ),
    decreases n,
{
    if n > 0 {
        lemma_same_sum(tensors, (n - 1) as nat);
    }
}

/// The sizes of distinct tensors add up to an `i64` if those of all tensors do.
proof fn lemma_areas_fit(listed: Seq<TensorId>, tensors: Seq<Tensor>)
    requires
        tensors_fit(tensors),
        listed.no_duplicates(),
        forall|i: int| 0 <= i < listed.len() ==> (#[trigger] listed[i]) < tensors.len(),
    ensures
        arith::fits(arith::sum(areas_of(listed, tensors))),
{
    let f = |i: int| tensors[i].area();
    arith::lemma_sum_of_distinct(listed, f, tensors.len());
    assert(Seq::new(listed.len(), |k: int| f(listed[k] as int)) =~= areas_of(listed, tensors));
    lemma_same_sum(tensors, tensors.len());
}

/// Lists the active operations in an order in which they can run.
fn active_order(graph: &RewriteGraph) -> (order: Vec<OpId>)
    requires
        graph.valid(),
    ensures
        graph@.is_run(order@),
{
    broadcast use vstd::std_specs::hash::group_hash_axioms;

    let ghost s = graph@;
    let n: usize = graph.ops.len();
    let mut adj: Vec<Vec<usize>> = Vec::new();
    let mut u: usize = 0;
    while u < n
        invariant
            u <= n,
            n == graph.ops.len(),
            n == s.ops.len(),
            s == graph@,
            graph.valid(),
            adj.len() == u,
            forall|a: OpId, b: OpId| a < u ==> (#[trigger] adj@[a as int]@.contains(b) <==> b < n && s.feeds(a, b)),
        decreases n - u,
    {
        let mut next: Vec<usize> = Vec::new();
        if graph.is_active(u) {
            let ghost outs = s.ops[u as int].outputs;
            let mut j: usize = 0;
            while j < graph.ops[u].outputs.len()
                invariant
                    j <= outs.len(),
                    u < n,
                    n == graph.ops.len(),
                    n == s.ops.len(),
                    s == graph@,
                    graph.valid(),
                    outs == s.ops[u as int].outputs,
                    forall|b: OpId| #[trigger]
                        next@.contains(b) <==> b < n && s.active(b) && exists|i: int|
                            0 <= i < j && s.consumers.contains_key(#[trigger] outs[i]) && s.consumers[outs[i]].contains(b),
                decreases outs.len() - j,
            {
                let t: TensorId = graph.ops[u].outputs[j];
                assert(t == outs[j as int]);
                let ghost before = next@;
                match graph.tensor_consumers.get(&t) {
                    None => {
                        assert(!s.consumers.contains_key(t));
                    },
                    Some(list) => {
                        assert(s.consumers.contains_key(t) && s.consumers[t] == list@.to_set());
                        let mut c: usize = 0;
                        while c < list.len()
                            invariant
                                c <= list.len(),
                                n == graph.ops.len(),
                                s == graph@,
                                graph.valid(),
                                s.consumers.contains_key(t),
                                s.consumers[t] == list@.to_set(),
                                forall|b: OpId| #[trigger]
                                    next@.contains(b) <==> before.contains(b) || (s.active(b) && list@.take(
                                        c as int,
                                    ).contains(b)),
                            decreases list.len() - c,
                        {
                            let v: OpId = list[c];
                            proof {
                                assert(list@.contains(list@[c as int]));
                                assert(s.consumers[t].contains(v));
                                models::lemma_take_contains(list@, c as int);
                                ids::lemma_push_contains(next@, v);
                            }
                            if graph.is_active(v) {
                                next.push(v);
                            }
                            c = c + 1;
                        }
                        assert(list@.take(c as int) =~= list@);
                    },
                }
                proof {
                    assert forall|b: OpId| #[trigger] next@.contains(b) <==> b < n && s.active(b) && exists|i: int|
                        0 <= i < j + 1 && s.consumers.contains_key(#[trigger] outs[i]) && s.consumers[outs[i]].contains(
                            b,
                        ) by {
                        if s.consumers.contains_key(t) && s.consumers[t].contains(b) {
                            assert(b < n);
                            assert(s.consumers.contains_key(outs[j as int]));
                        }
                        if before.contains(b) {
                            let i = choose|i: int|
                                0 <= i < j && s.consumers.contains_key(#[trigger] outs[i]) && s.consumers[outs[i]].contains(
                                    b,
                                );
                            assert(s.consumers.contains_key(outs[i]));
                        }
                    }
                }
                j = j + 1;
            }
            proof {
                assert forall|b: OpId| #[trigger] next@.contains(b) <==> b < n && s.feeds(u, b) by {
                }
            }
        }
        adj.push(next);
        u = u + 1;
    }
    let ghost g = graph::lists(adj@);
    proof {
        assert forall|a: usize, b: usize| #[trigger] graph::edge(g, a, b) <==> a < n && b < n && s.feeds(a, b) by {
            if a < n {
                assert(g[a as int] == adj@[a as int]@);
                assert(adj@[a as int]@.contains(b) <==> b < n && s.feeds(a, b));
            }
        }
        assert forall|u: int, k: int| 0 <= u < g.len() && 0 <= k < g[u].len() implies (#[trigger] g[u][k]) < g.len() by {
            assert(g[u].contains(g[u][k]));
            assert(graph::edge(g, u as usize, g[u][k]));
        }
    }
    let all: Vec<usize> = graph::order_vertices(&adj);
    proof {
        graph::order_is_topological(g);
    }
    let mut order: Vec<OpId> = Vec::new();
    let mut k: usize = 0;
    while k < all.len()
        invariant
            k <= all.len(),
            n == graph.ops.len(),
            n == s.ops.len(),
            s == graph@,
            graph::is_topological(g, all@),
            g.len() == n,
            forall|a: usize, b: usize| #[trigger] graph::edge(g, a, b) <==> a < n && b < n && s.feeds(a, b),
            order@.no_duplicates(),
            forall|x: OpId| #[trigger] order@.contains(x) <==> all@.take(k as int).contains(x) && s.active(x),
            forall|i: int| 0 <= i < order.len() ==> (#[trigger] order@[i]) < n && s.active(order@[i]),
            forall|i: int, u: OpId|
                0 <= i < order.len() && u < n && #[trigger] s.feeds(u, order@[i]) ==> order@.take(i).contains(u),
        decreases all.len() - k,
    {
        let v: OpId = all[k];
        assert(v == all@[k as int]);
        assert(v < n);
        let ghost before = order@;
        proof {
            models::lemma_take_contains(all@, k as int);
            ids::lemma_push_contains(order@, v);
            assert(!all@.take(k as int).contains(v)) by {
                let head = all@.take(k as int);
                if head.contains(v) {
                    let i = choose|i: int| 0 <= i < head.len() && head[i] == v;
                    assert(all@[i] == all@[k as int]);
                }
            }
        }
        if graph.is_active(v) {
            order.push(v);
            proof {
                assert(!before.contains(v));
                assert(order@.no_duplicates()) by {
                    assert forall|a: int, b: int| 0 <= a < b < order@.len() implies order@[a] != order@[b] by {
                        if b == before.len() {
                            assert(before.contains(before[a]));
                        }
                    }
                }
                assert forall|i: int, u: OpId|
                    0 <= i < order@.len() && u < n && #[trigger] s.feeds(u, order@[i]) implies order@.take(i).contains(
                    u,
                ) by {
                    assert(order@.take(i) =~= before.take(i));
                    if i < before.len() {
                        assert(order@[i] == before[i]);
                    } else {
                        assert(graph::preceded(g, all@, k as int));
                        assert(graph::edge(g, u, v));
                        assert(before.contains(u));
                        assert(before.take(i) =~= before);
                    }
                }
            }
        }
        k = k + 1;
    }
    proof {
        assert(all@.take(k as int) =~= all@);
        assert forall|v: OpId|
            v < n && #[trigger] s.active(v) && (forall|u: OpId|
                u < n && #[trigger] s.feeds(u, v) ==> order@.contains(u)) implies order@.contains(v) by {
            graph::order_is_maximal(g, v);
            assert forall|u: usize| #[trigger] graph::edge(g, u, v) implies all@.to_set().contains(u) by {
                assert(order@.contains(u));
            }
        }
    }
    order
}

/// The positions of the listed operations.
fn positions_of(order: &Vec<OpId>, n: usize) -> (positions: Vec<Option<usize>>)
    requires
        order@.no_duplicates(),
        forall|i: int| 0 <= i < order.len() ==> (#[trigger] order@[i]) < n,
    ensures
        positions.len() == n,
        forall|i: int| 0 <= i < order.len() ==> positions@[(#[trigger] order@[i]) as int] == Some(i as usize),
        forall|op: OpId|
            op < n ==> match #[trigger] positions@[op as int] {
                Some(i) => i < order.len() && order@[i as int] == op,
                None => !order@.contains(op),
            },
{
    let mut positions: Vec<Option<usize>> = Vec::new();
    let mut k: usize = 0;
    while k < n
        invariant
            k <= n,
            positions.len() == k,
            forall|j: int| 0 <= j < k ==> #[trigger] positions@[j] is None,
        decreases n - k,
    {
        positions.push(None);
        k = k + 1;
    }
    let mut i: usize = 0;
    while i < order.len()
        invariant
            i <= order.len(),
            positions.len() == n,
            order@.no_duplicates(),
            forall|j: int| 0 <= j < order.len() ==> (#[trigger] order@[j]) < n,
            forall|j: int| 0 <= j < i ==> positions@[(#[trigger] order@[j]) as int] == Some(j as usize),
            forall|op: OpId|
                op < n ==> match #[trigger] positions@[op as int] {
                    Some(j) => j < i && order@[j as int] == op,
                    None => !order@.take(i as int).contains(op),
                },
        decreases order.len() - i,
    {
        let op: OpId = order[i];
        proof {
            models::lemma_take_contains(order@, i as int);
            assert(order@[i as int] < n);
        }
        positions.set(op, Some(i));
        i = i + 1;
    }
    assert(order@.take(i as int) =~= order@);
    positions
}

/// Among the first `upto` operations, `t` is mentioned first at `first` and taken in last at `last`.
spec fn is_partial_lifetime(s: GraphModel, order: Seq<OpId>, t: TensorId, first: int, last: int, upto: int) -> bool {
    &&& 0 <= first <= last < upto
    &&& s.mentions(order[first], t)
    &&& forall|i: int| 0 <= i < first ==> !s.mentions(#[trigger] order[i], t)
    &&& last == first || s.takes_in(order[last], t)
    &&& forall|i: int| last < i < upto ==> !s.takes_in(#[trigger] order[i], t)
}

/// The map holds the partial lifetimes of the tensors mentioned among the first `upto` operations.
spec fn holds_partial(
    map: Map<TensorId, (OpId, OpId)>,
    s: GraphModel,
    order: Seq<OpId>,
    upto: int,
) -> bool {
    &&& forall|t: TensorId| #[trigger]
        map.contains_key(t) <==> exists|i: int| 0 <= i < upto && s.mentions(#[trigger] order[i], t)
    &&& forall|t: TensorId| #[trigger]
        map.contains_key(t) ==> is_partial_lifetime(s, order, t, map[t].0 as int, map[t].1 as int, upto)
}

/// One of the first `k` listed tensors resolves to `t`.
spec fn resolves_among(remap: Map<TensorId, TensorId>, listed: Seq<TensorId>, k: int, t: TensorId) -> bool {
    exists|j: int| 0 <= j < k && rewrite_graph::resolve(remap, #[trigger] listed[j]) == t
}

/// Records the tensors that operation `op`, at position `pos`, takes in and puts out.
fn note_mentions(
    graph: &RewriteGraph,
    op: OpId,
    pos: usize,
    map: &mut HashMap<TensorId, (OpId, OpId)>,
    keys: &mut Vec<TensorId>,
    Ghost(order): Ghost<Seq<OpId>>,
)
    requires
        op < graph.ops.len(),
        pos < order.len(),
        order[pos as int] == op,
        holds_partial(old(map)@, graph@, order, pos as int),
        forall|t: TensorId| #[trigger] old(keys)@.contains(t) <==> old(map)@.contains_key(t),
    ensures
        holds_partial(final(map)@, graph@, order, pos + 1),
        forall|t: TensorId| #[trigger] final(keys)@.contains(t) <==> final(map)@.contains_key(t),
{
    broadcast use vstd::std_specs::hash::group_hash_axioms;

    let ghost s = graph@;
    let ghost ins = s.ops[op as int].inputs;
    let ghost outs = s.ops[op as int].outputs;
    let ghost before = map@;
    let mut k: usize = 0;
    while k < graph.ops[op].inputs.len()
        invariant
            k <= ins.len(),
            op < graph.ops.len(),
            s == graph@,
            ins == s.ops[op as int].inputs,
            forall|t: TensorId| #[trigger] keys@.contains(t) <==> map@.contains_key(t),
            forall|t: TensorId| #[trigger] before.contains_key(t) ==> before[t].1 < pos,
            forall|t: TensorId| #[trigger]
                map@.contains_key(t) <==> before.contains_key(t) || resolves_among(s.remap, ins, k as int, t),
            forall|t: TensorId| #[trigger]
                map@.contains_key(t) ==> map@[t] == if resolves_among(s.remap, ins, k as int, t) {
                    if before.contains_key(t) {
                        (before[t].0, pos)
                    } else {
                        (pos, pos)
                    }
                } else {
                    before[t]
                },
        decreases ins.len() - k,
    {
        let t: TensorId = graph.resolve_tensor(graph.ops[op].inputs[k]);
        assert(t == rewrite_graph::resolve(s.remap, ins[k as int]));
        let ghost prev = map@;
        proof {
            assert forall|x: TensorId| resolves_among(s.remap, ins, k + 1, x) <==> #[trigger] resolves_among(
                s.remap,
                ins,
                k as int,
                x,
            ) || x == t by {
                if resolves_among(s.remap, ins, k as int, x) {
                    let j = choose|j: int| 0 <= j < k && rewrite_graph::resolve(s.remap, #[trigger] ins[j]) == x;
                    assert(rewrite_graph::resolve(s.remap, ins[j]) == x);
                }
            }
            ids::lemma_push_contains(keys@, t);
        }
        let known: Option<(OpId, OpId)> = match map.get(&t) {
            None => None,
            Some(range) => Some(*range),
        };
        match known {
            None => {
                map.insert(t, (pos, pos));
                keys.push(t);
            },
            Some(range) => {
                map.insert(t, (range.0, pos));
            },
        }
        k = k + 1;
    }
    let ghost mid = map@;
    let mut j: usize = 0;
    while j < graph.ops[op].outputs.len()
        invariant
            j <= outs.len(),
            op < graph.ops.len(),
            s == graph@,
            outs == s.ops[op as int].outputs,
            forall|t: TensorId| #[trigger] keys@.contains(t) <==> map@.contains_key(t),
            forall|t: TensorId| #[trigger]
                map@.contains_key(t) <==> mid.contains_key(t) || resolves_among(s.remap, outs, j as int, t),
            forall|t: TensorId| #[trigger]
                map@.contains_key(t) ==> map@[t] == if mid.contains_key(t) {
                    mid[t]
                } else {
                    (pos, pos)
                },
        decreases outs.len() - j,
    {
        let t: TensorId = graph.resolve_tensor(graph.ops[op].outputs[j]);
        assert(t == rewrite_graph::resolve(s.remap, outs[j as int]));
        proof {
            assert forall|x: TensorId| resolves_among(s.remap, outs, j + 1, x) <==> #[trigger] resolves_among(
                s.remap,
                outs,
                j as int,
                x,
            ) || x == t by {
                if resolves_among(s.remap, outs, j as int, x) {
                    let i = choose|i: int| 0 <= i < j && rewrite_graph::resolve(s.remap, #[trigger] outs[i]) == x;
                    assert(rewrite_graph::resolve(s.remap, outs[i]) == x);
                }
            }
            ids::lemma_push_contains(keys@, t);
        }
        if !map.contains_key(&t) {
            map.insert(t, (pos, pos));
            keys.push(t);
        }
        j = j + 1;
    }
    proof {
        let now = map@;
        assert forall|t: TensorId| resolves_among(s.remap, ins, ins.len() as int, t) <==> #[trigger] s.takes_in(op, t) by {
            if s.takes_in(op, t) {
                let j = choose|j: int|
                    0 <= j < s.ops[op as int].inputs.len() && rewrite_graph::resolve(
                        s.remap,
                        #[trigger] s.ops[op as int].inputs[j],
                    ) == t;
                assert(rewrite_graph::resolve(s.remap, ins[j]) == t);
            }
        }
        assert forall|t: TensorId| resolves_among(s.remap, outs, outs.len() as int, t) <==> #[trigger] s.puts_out(
            op,
            t,
        ) by {
            if s.puts_out(op, t) {
                let j = choose|j: int|
                    0 <= j < s.ops[op as int].outputs.len() && rewrite_graph::resolve(
                        s.remap,
                        #[trigger] s.ops[op as int].outputs[j],
                    ) == t;
                assert(rewrite_graph::resolve(s.remap, outs[j]) == t);
            }
        }
        assert forall|t: TensorId| #[trigger] now.contains_key(t) <==> exists|i: int|
            0 <= i < pos + 1 && s.mentions(#[trigger] order[i], t) by {
            assert(s.takes_in(op, t) || !s.takes_in(op, t));
            assert(s.puts_out(op, t) || !s.puts_out(op, t));
            if before.contains_key(t) {
                let i = choose|i: int| 0 <= i < pos && s.mentions(#[trigger] order[i], t);
                assert(s.mentions(order[i], t));
            }
            if s.mentions(op, t) {
                assert(s.mentions(order[pos as int], t));
            }
            if exists|i: int| 0 <= i < pos + 1 && s.mentions(#[trigger] order[i], t) {
                let i = choose|i: int| 0 <= i < pos + 1 && s.mentions(#[trigger] order[i], t);
                if i < pos {
                    assert(before.contains_key(t));
                }
            }
        }
        assert forall|t: TensorId| #[trigger] now.contains_key(t) implies is_partial_lifetime(
            s,
            order,
            t,
            now[t].0 as int,
            now[t].1 as int,
            pos + 1,
        ) by {
            assert(s.takes_in(op, t) || !s.takes_in(op, t));
            assert(s.puts_out(op, t) || !s.puts_out(op, t));
            if before.contains_key(t) {
                assert(is_partial_lifetime(s, order, t, before[t].0 as int, before[t].1 as int, pos as int));
            } else {
                assert forall|i: int| 0 <= i < pos implies !s.mentions(#[trigger] order[i], t) by {
                }
            }
        }
    }
}

/// The last position at which a recorded consumer of `t` runs, or `last` if that is later.
fn extend_to_consumers(
    graph: &RewriteGraph,
    positions: &Vec<Option<usize>>,
    t: TensorId,
    last: usize,
    Ghost(order): Ghost<Seq<OpId>>,
) -> (end: usize)
    requires
        graph.valid(),
        positions.len() == graph.ops.len(),
        order.no_duplicates(),
        last < order.len(),
        forall|i: int|
            0 <= i < order.len() ==> (#[trigger] order[i]) < graph.ops.len() && positions@[order[i] as int] == Some(
                i as usize,
            ),
        order.len() <= usize::MAX,
        forall|op: OpId|
            op < graph.ops.len() ==> match #[trigger] positions@[op as int] {
                Some(i) => i < order.len() && order[i as int] == op,
                None => !order.contains(op),
            },
    ensures
        last <= end < order.len(),
        end == last || (graph@.consumers.contains_key(t) && graph@.consumers[t].contains(order[end as int])),
        forall|i: int|
            end < i < order.len() ==> !(graph@.consumers.contains_key(t) && graph@.consumers[t].contains(
                #[trigger] order[i],
            )),
{
    broadcast use vstd::std_specs::hash::group_hash_axioms;

    let ghost s = graph@;
    let mut end: usize = last;
    match graph.tensor_consumers.get(&t) {
        None => {
            assert(!s.consumers.contains_key(t));
        },
        Some(list) => {
            assert(s.consumers.contains_key(t) && s.consumers[t] == list@.to_set());
            let mut c: usize = 0;
            while c < list.len()
                invariant
                    c <= list.len(),
                    s == graph@,
                    graph.valid(),
                    positions.len() == graph.ops.len(),
                    s.consumers.contains_key(t),
                    s.consumers[t] == list@.to_set(),
                    forall|op: OpId|
                        op < graph.ops.len() ==> match #[trigger] positions@[op as int] {
                            Some(i) => i < order.len() && order[i as int] == op,
                            None => !order.contains(op),
                        },
                    last <= end < order.len(),
                    end == last || s.consumers[t].contains(order[end as int]),
                    forall|i: int|
                        0 <= i < c ==> match positions@[(#[trigger] list@[i]) as int] {
                            Some(p) => p <= end,
                            None => true,
                        },
                decreases list.len() - c,
            {
                let op: OpId = list[c];
                proof {
                    assert(list@.contains(list@[c as int]));
                    assert(s.consumers[t].contains(op));
                }
                if let Some(p) = positions[op] {
                    assert(positions@[op as int] == Some(p));
                    if p > end {
                        end = p;
                    }
                }
                c = c + 1;
            }
            proof {
                assert forall|i: int| end < i < order.len() implies !s.consumers[t].contains(#[trigger] order[i]) by {
                    if s.consumers[t].contains(order[i]) {
                        let k = choose|k: int| 0 <= k < list@.len() && list@[k] == order[i];
                        assert(positions@[list@[k] as int] == Some(i as usize));
                    }
                }
            }
        },
    }
    end
}

/// Finds the lifetimes of the tensors in a run of the graph.
fn find_lifetimes(graph: &RewriteGraph, order: &Vec<OpId>) -> (map: HashMap<TensorId, (OpId, OpId)>)
    requires
        graph.valid(),
        graph@.is_run(order@),
    ensures
        forall|t: TensorId| #[trigger] map@.contains_key(t) <==> graph@.is_mentioned(order@, t),
        forall|t: TensorId| #[trigger]
            map@.contains_key(t) ==> graph@.is_lifetime(order@, t, map@[t].0 as int, map@[t].1 as int),
{
    broadcast use vstd::std_specs::hash::group_hash_axioms;

    let ghost s = graph@;
    let ghost q = order@;
    let mut map: HashMap<TensorId, (OpId, OpId)> = HashMap::new();
    let mut keys: Vec<TensorId> = Vec::new();
    let mut pos: usize = 0;
    while pos < order.len()
        invariant
            pos <= order.len(),
            s == graph@,
            q == order@,
            graph.valid(),
            s.is_run(q),
            s.ops.len() == graph.ops.len(),
            holds_partial(map@, s, q, pos as int),
            forall|t: TensorId| #[trigger] keys@.contains(t) <==> map@.contains_key(t),
        decreases order.len() - pos,
    {
        let op: OpId = order[pos];
        assert(op == q[pos as int]);
        note_mentions(graph, op, pos, &mut map, &mut keys, Ghost(q));
        pos = pos + 1;
    }
    let positions: Vec<Option<usize>> = positions_of(order, graph.ops.len());
    let ghost first = map@;
    let mut k: usize = 0;
    while k < keys.len()
        invariant
            k <= keys.len(),
            s == graph@,
            q == order@,
            q.len() == order.len(),
            graph.valid(),
            s.is_run(q),
            s.ops.len() == graph.ops.len(),
            holds_partial(first, s, q, q.len() as int),
            positions.len() == graph.ops.len(),
            forall|i: int| 0 <= i < order.len() ==> positions@[(#[trigger] order@[i]) as int] == Some(i as usize),
            forall|op: OpId|
                op < graph.ops.len() ==> match #[trigger] positions@[op as int] {
                    Some(i) => i < order.len() && order@[i as int] == op,
                    None => !order@.contains(op),
                },
            forall|t: TensorId| #[trigger] keys@.contains(t) <==> first.contains_key(t),
            forall|t: TensorId| #[trigger] map@.contains_key(t) <==> first.contains_key(t),
            forall|t: TensorId| #[trigger]
                map@.contains_key(t) ==> if keys@.take(k as int).contains(t) {
                    s.is_lifetime(q, t, map@[t].0 as int, map@[t].1 as int)
                } else {
                    map@[t] == first[t]
                },
        decreases keys.len() - k,
    {
        let t: TensorId = keys[k];
        proof {
            models::lemma_take_contains(keys@, k as int);
            assert(keys@.contains(keys@[k as int]));
            assert(map@.contains_key(t));
        }
        let known: Option<(OpId, OpId)> = match map.get(&t) {
            None => None,
            Some(range) => Some(*range),
        };
        if let Some(range) = known {
            proof {
                assert(is_partial_lifetime(s, q, t, first[t].0 as int, first[t].1 as int, q.len() as int));
                if keys@.take(k as int).contains(t) {
                    assert(s.is_lifetime(q, t, range.0 as int, range.1 as int));
                } else {
                    assert(range == first[t]);
                }
            }
            let end: usize = extend_to_consumers(graph, &positions, t, range.1, Ghost(q));
            map.insert(t, (range.0, end));
            proof {
                assert(s.is_lifetime(q, t, range.0 as int, end as int));
            }
        }
        k = k + 1;
    }
    proof {
        assert(keys@.take(k as int) =~= keys@);
    }
    map
}

proof fn lemma_tensors_alive(lifetimes: Map<TensorId, (OpId, OpId)>, m: nat)
    requires
        m <= usize::MAX,
    ensures
        tensors_alive(lifetimes, m).no_duplicates(),
        forall|t: TensorId| #[trigger] tensors_alive(lifetimes, m).contains(t) <==> t < m && lifetimes.contains_key(t),
        forall|i: int|
            0 <= i < tensors_alive(lifetimes, m).len() ==> (#[trigger] tensors_alive(lifetimes, m)[i]) < m
                && lifetimes.contains_key(tensors_alive(lifetimes, m)[i]),
    decreases m,
{
    if m > 0 {
        let rest = tensors_alive(lifetimes, (m - 1) as nat);
        let all = tensors_alive(lifetimes, m);
        lemma_tensors_alive(lifetimes, (m - 1) as nat);
        ids::lemma_push_contains(rest, (m - 1) as usize);
        assert forall|i: int| 0 <= i < all.len() implies (#[trigger] all[i]) < m && lifetimes.contains_key(all[i]) by {
            if i < rest.len() {
                assert(all[i] == rest[i]);
            }
        }
        assert(all.no_duplicates()) by {
            assert forall|a: int, b: int| 0 <= a < b < all.len() implies all[a] != all[b] by {
                if b == rest.len() {
                    assert(rest[a] < m - 1);
                }
            }
        }
    }
}

/// Lists the tensors in the order in which they get their slots.
fn placing_order(map: &HashMap<TensorId, (OpId, OpId)>, tensors: &Vec<Tensor>) -> (placed: Vec<TensorId>)
    requires
        tensors_fit(tensors@),
    ensures
        is_placing_order(placed@, map@, tensors@),
        placed@.no_duplicates(),
        forall|i: int|
            0 <= i < placed.len() ==> (#[trigger] placed@[i]) < tensors.len() && map@.contains_key(placed@[i]),
{
    broadcast use vstd::std_specs::hash::group_hash_axioms;

    let n: usize = tensors.len();
    let mut listed: Vec<TensorId> = Vec::new();
    let mut keys: Vec<SortKey> = Vec::new();
    let mut t: usize = 0;
    while t < n
        invariant
            t <= n,
            n == tensors.len(),
            tensors_fit(tensors@),
            listed@ == tensors_alive(map@, t as nat),
            ranks_by_start(keys@, listed@, map@, tensors@),
        decreases n - t,
    {
        if let Some(range) = map.get(&t) {
            proof {
                lemma_each_fits(tensors@, t as int);
            }
            let size: i64 = tensors[t].size();
            let ghost old_listed = listed@;
            let ghost old_keys = keys@;
            listed.push(t);
            keys.push((range.0 as i128, -(size as i128), 0));
            proof {
                assert forall|i: int| 0 <= i < listed.len() implies sorting::has_key(
                    #[trigger] keys@[i],
                    map@[listed@[i]].0 as int,
                    -tensors@[listed@[i] as int].area(),
                    0,
                ) by {
                    if i < old_listed.len() {
                        assert(keys@[i] == old_keys[i] && listed@[i] == old_listed[i]);
                    }
                }
            }
        }
        t = t + 1;
    }
    let order: Vec<usize> = sorting::stable_order(&keys);
    proof {
        lemma_tensors_alive(map@, n as nat);
    }
    let mut placed: Vec<TensorId> = Vec::new();
    let mut i: usize = 0;
    while i < order.len()
        invariant
            i <= order.len(),
            keys.len() == listed.len(),
            sorting::is_stable_order(keys@, order@),
            placed.len() == i,
            forall|j: int| 0 <= j < i ==> #[trigger] placed@[j] == listed@[order@[j] as int],
        decreases order.len() - i,
    {
        let at: usize = order[i];
        assert(at == order@[i as int]);
        placed.push(listed[at]);
        i = i + 1;
    }
    proof {
        assert(placed@ =~= Seq::new(order@.len(), |i: int| listed@[order@[i] as int]));
        assert(ranks_by_start(keys@, listed@, map@, tensors@));
        assert forall|i: int| 0 <= i < placed.len() implies (#[trigger] placed@[i]) < tensors.len() && map@.contains_key(
            placed@[i],
        ) by {
            assert(order@[i] < keys@.len());
            assert(listed@[order@[i] as int] < n);
        }
        assert(placed@.no_duplicates()) by {
            assert forall|a: int, b: int| 0 <= a < b < placed@.len() implies placed@[a] != placed@[b] by {
                assert(order@[a] != order@[b]);
                assert(order@[a] < keys@.len() && order@[b] < keys@.len());
            }
        }
    }
    placed
}

/// The slots found so far: who is in which, and how large each is.
struct Slots {
    /// The slot of each tensor placed so far.
    of: Vec<usize>,
    /// The places of the tensors in each slot.
    members: Vec<Vec<usize>>,
    sizes: Vec<i64>,
}

impl Slots {
    spec fn holds(&self, placed: Seq<TensorId>, lifetimes: Map<TensorId, (OpId, OpId)>, tensors: Seq<Tensor>) -> bool {
        &&& self.of@.len() <= placed.len()
        &&& self.members@.len() == self.sizes@.len()
        &&& self.members@.len() <= self.of@.len()
        &&& forall|k: int| 0 <= k < self.of@.len() ==> #[trigger] self.of@[k] < self.members@.len()
        &&& forall|k: int| 0 <= k < self.of@.len() ==> #[trigger] has_first_fit(placed, self.of@, lifetimes, k)
        &&& forall|j: int, i: usize|
            0 <= j < self.members@.len() ==> (#[trigger] self.members@[j]@.contains(i) <==> i < self.of@.len()
                && self.of@[i as int] == j)
        &&& forall|j: usize|
            j < self.sizes@.len() ==> is_slot_size(
                placed,
                self.of@,
                tensors,
                self.of@.len() as int,
                j,
                #[trigger] self.sizes@[j as int] as int,
            )
    }
}

/// Whether the lifetime meets none of those in the slot.
fn slot_is_free(
    members: &Vec<usize>,
    placed: &Vec<TensorId>,
    map: &HashMap<TensorId, (OpId, OpId)>,
    range: (OpId, OpId),
) -> (yes: bool)
    requires
        forall|i: int|
            0 <= i < members.len() ==> (#[trigger] members@[i]) < placed.len() && map@.contains_key(
                placed@[members@[i] as int],
            ),
    ensures
        yes <==> forall|i: int|
            0 <= i < members.len() ==> apart(map@[placed@[(#[trigger] members@[i]) as int]], range),
{
    broadcast use vstd::std_specs::hash::group_hash_axioms;

    let mut i: usize = 0;
    while i < members.len()
        invariant
            i <= members.len(),
            forall|i: int|
                0 <= i < members.len() ==> (#[trigger] members@[i]) < placed.len() && map@.contains_key(
                    placed@[members@[i] as int],
                ),
            forall|j: int| 0 <= j < i ==> apart(map@[placed@[(#[trigger] members@[j]) as int]], range),
        decreases members.len() - i,
    {
        let t: TensorId = placed[members[i]];
        assert(members@[i as int] < placed.len());
        match map.get(&t) {
            None => {
                assert(false);
            },
            Some(other) => {
                if !(range.1 < other.0 || other.1 < range.0) {
                    assert(!apart(map@[placed@[members@[i as int] as int]], range));
                    return false;
                }
            },
        }
        i = i + 1;
    }
    true
}

/// Gives the next tensor the first slot in which its lifetime meets no other.
fn place_next(
    slots: &mut Slots,
    placed: &Vec<TensorId>,
    map: &HashMap<TensorId, (OpId, OpId)>,
    tensors: &Vec<Tensor>,
)
    requires
        old(slots).holds(placed@, map@, tensors@),
        old(slots).of@.len() < placed@.len(),
        tensors_fit(tensors@),
        forall|i: int|
            0 <= i < placed.len() ==> (#[trigger] placed@[i]) < tensors.len() && map@.contains_key(placed@[i]),
    ensures
        final(slots).holds(placed@, map@, tensors@),
        final(slots).of@.len() == old(slots).of@.len() + 1,
{
    broadcast use vstd::std_specs::hash::group_hash_axioms;

    let k: usize = slots.of.len();
    let ghost before = *slots;
    let t: TensorId = placed[k];
    assert(placed@[k as int] < tensors.len());
    proof {
        lemma_each_fits(tensors@, t as int);
    }
    let size: i64 = tensors[t].size();
    let range: (OpId, OpId) = match map.get(&t) {
        None => (0, 0),
        Some(r) => *r,
    };
    assert(range == map@[placed@[k as int]]);
    let count: usize = slots.members.len();
    let mut j: usize = 0;
    let mut found: bool = false;
    while j < count && !found
        invariant
            j <= count,
            count == slots.members.len(),
            *slots == before,
            k == before.of@.len(),
            before.holds(placed@, map@, tensors@),
            k < placed@.len(),
            range == map@[placed@[k as int]],
            forall|i: int|
                0 <= i < placed.len() ==> (#[trigger] placed@[i]) < tensors.len() && map@.contains_key(placed@[i]),
            found ==> j < count,
            found ==> forall|i: int|
                0 <= i < k && #[trigger] before.of@[i] == j ==> apart(map@[placed@[i]], range),
            forall|x: usize| x < j ==> #[trigger] blocks(placed@, before.of@, map@, k as int, x),
        decreases count - j, (if found { 0int } else { 1int }),
    {
        let ghost members = before.members@[j as int]@;
        assert forall|i: int| 0 <= i < members.len() implies (#[trigger] members[i]) < placed.len() && map@.contains_key(
            placed@[members[i] as int],
        ) by {
            assert(before.members@[j as int]@.contains(members[i]));
        }
        if slot_is_free(&slots.members[j], placed, map, range) {
            found = true;
            proof {
                assert forall|i: int| 0 <= i < k && #[trigger] before.of@[i] == j implies apart(map@[placed@[i]], range) by {
                    assert(before.members@[j as int]@.contains(i as usize));
                    let a = choose|a: int| 0 <= a < members.len() && members[a] == i as usize;
                    assert(apart(map@[placed@[members[a] as int]], range));
                }
            }
        } else {
            proof {
                let a = choose|a: int|
                    0 <= a < members.len() && !apart(map@[placed@[(#[trigger] members[a]) as int]], range);
                assert(before.members@[j as int]@.contains(members[a]));
                assert(before.of@[members[a] as int] == j);
                assert(blocks(placed@, before.of@, map@, k as int, j));
            }
            j = j + 1;
        }
    }
    if !found {
        slots.members.push(Vec::new());
        slots.sizes.push(size);
    } else if slots.sizes[j] < size {
        slots.sizes.set(j, size);
    }
    let ghost added = *slots;
    slots.members[j].push(k);
    slots.of.push(j);
    proof {
        let now = *slots;
        assert(now.of@[k as int] == j);
        assert forall|x: int, i: usize| 0 <= x < now.members@.len() implies (#[trigger] now.members@[x]@.contains(i)
            <==> i < now.of@.len() && now.of@[i as int] == x) by {
            if x < before.members@.len() {
                assert(before.members@[x]@.contains(i) <==> i < k && before.of@[i as int] == x);
            } else {
                assert(i < k ==> before.of@[i as int] < count);
            }
            if x == j {
                ids::lemma_push_contains(added.members@[x]@, k);
            }
        }
        assert forall|x: int| 0 <= x < now.of@.len() implies #[trigger] now.of@[x] < now.members@.len() by {
            if x < k {
                assert(before.of@[x] < before.members@.len());
            }
        }
        assert forall|x: int| 0 <= x < now.of@.len() implies #[trigger] has_first_fit(placed@, now.of@, map@, x) by {
            if x < k {
                assert(has_first_fit(placed@, before.of@, map@, x));
                assert forall|i: int| 0 <= i < x && #[trigger] now.of@[i] == now.of@[x] implies apart(
                    map@[placed@[i]],
                    map@[placed@[x]],
                ) by {
                    assert(before.of@[i] == before.of@[x]);
                }
                assert forall|y: usize| y < now.of@[x] implies #[trigger] blocks(placed@, now.of@, map@, x, y) by {
                    assert(blocks(placed@, before.of@, map@, x, y));
                    let i = choose|i: int|
                        0 <= i < x && #[trigger] before.of@[i] == y && !apart(map@[placed@[i]], map@[placed@[x]]);
                    assert(now.of@[i] == y);
                }
            } else {
                assert forall|i: int| 0 <= i < x && #[trigger] now.of@[i] == now.of@[x] implies apart(
                    map@[placed@[i]],
                    map@[placed@[x]],
                ) by {
                    assert(before.of@[i] == j);
                }
                assert forall|y: usize| y < now.of@[x] implies #[trigger] blocks(placed@, now.of@, map@, x, y) by {
                    assert(blocks(placed@, before.of@, map@, k as int, y));
                    let i = choose|i: int|
                        0 <= i < k && #[trigger] before.of@[i] == y && !apart(map@[placed@[i]], map@[placed@[k as int]]);
                    assert(now.of@[i] == y);
                }
            }
        }
        assert forall|y: usize| y < now.sizes@.len() implies is_slot_size(
            placed@,
            now.of@,
            tensors@,
            now.of@.len() as int,
            y,
            #[trigger] now.sizes@[y as int] as int,
        ) by {
            if y < before.sizes@.len() {
                assert(is_slot_size(placed@, before.of@, tensors@, k as int, y, before.sizes@[y as int] as int));
                let i = choose|i: int|
                    0 <= i < k && #[trigger] before.of@[i] == y && tensors@[placed@[i] as int].area()
                        == before.sizes@[y as int];
                assert(now.of@[i] == y);
                assert forall|i: int| 0 <= i < k + 1 && #[trigger] now.of@[i] == y implies tensors@[placed@[i] as int].area()
                    <= now.sizes@[y as int] by {
                    if i < k {
                        assert(before.of@[i] == y);
                    }
                }
            } else {
                assert forall|i: int| 0 <= i < k + 1 && #[trigger] now.of@[i] == y implies i == k by {
                    if i < k {
                        assert(before.of@[i] < before.members@.len());
                    }
                }
            }
        }
    }
}

/// The place of a largest tensor of slot `j`.
spec fn largest_in(
    placed: Seq<TensorId>,
    slots: Seq<usize>,
    tensors: Seq<Tensor>,
    sizes: Seq<i64>,
    j: int,
) -> int {
    choose|i: int|
        0 <= i < placed.len() && #[trigger] slots[i] == j && tensors[placed[i] as int].area() == sizes[j]
}

/// The slots together take the memory of one tensor each.
proof fn lemma_slots_as_tensors(
    placed: Seq<TensorId>,
    slots: Seq<usize>,
    tensors: Seq<Tensor>,
    sizes: Seq<i64>,
) -> (chosen: Seq<TensorId>)
    requires
        slots.len() == placed.len(),
        placed.no_duplicates(),
        sizes.len() <= usize::MAX,
        forall|i: int| 0 <= i < placed.len() ==> (#[trigger] placed[i]) < tensors.len(),
        forall|j: usize|
            j < sizes.len() ==> is_slot_size(
                placed,
                slots,
                tensors,
                placed.len() as int,
                j,
                #[trigger] sizes[j as int] as int,
            ),
    ensures
        chosen.no_duplicates(),
        forall|i: int| 0 <= i < chosen.len() ==> placed.contains(#[trigger] chosen[i]) && chosen[i] < tensors.len(),
        areas_of(chosen, tensors) == arith::ints(sizes),
{
    let chosen = Seq::new(sizes.len(), |j: int| placed[largest_in(placed, slots, tensors, sizes, j)]);
    assert forall|j: int| 0 <= j < sizes.len() implies ({
        let i = #[trigger] largest_in(placed, slots, tensors, sizes, j);
        0 <= i < placed.len() && slots[i] == j && tensors[placed[i] as int].area() == sizes[j]
    }) by {
        assert(is_slot_size(placed, slots, tensors, placed.len() as int, j as usize, sizes[j as usize as int] as int));
        let i = choose|i: int|
            0 <= i < placed.len() && #[trigger] slots[i] == j as usize && tensors[placed[i] as int].area()
                == sizes[j as usize as int] as int;
        assert(slots[i] == j);
    }
    assert(chosen.no_duplicates()) by {
        assert forall|a: int, b: int| 0 <= a < b < chosen.len() implies chosen[a] != chosen[b] by {
            let i = largest_in(placed, slots, tensors, sizes, a);
            let j = largest_in(placed, slots, tensors, sizes, b);
            assert(slots[i] == a && slots[j] == b);
        }
    }
    assert forall|i: int| 0 <= i < chosen.len() implies placed.contains(#[trigger] chosen[i]) && chosen[i]
        < tensors.len() by {
        let a = largest_in(placed, slots, tensors, sizes, i);
        assert(placed[a] == chosen[i]);
    }
    assert(areas_of(chosen, tensors) =~= arith::ints(sizes)) by {
        assert forall|j: int| 0 <= j < sizes.len() implies areas_of(chosen, tensors)[j] == arith::ints(sizes)[j] by {
            let i = largest_in(placed, slots, tensors, sizes, j);
        }
    }
    chosen
}

/// The sizes of the listed tensors.
fn sizes_of(listed: &Vec<TensorId>, tensors: &Vec<Tensor>) -> (sizes: Vec<i64>)
    requires
        tensors_fit(tensors@),
        forall|i: int| 0 <= i < listed.len() ==> (#[trigger] listed@[i]) < tensors.len(),
    ensures
        arith::ints(sizes@) == areas_of(listed@, tensors@),
{
    let mut sizes: Vec<i64> = Vec::new();
    let mut i: usize = 0;
    while i < listed.len()
        invariant
            i <= listed.len(),
            sizes.len() == i,
            tensors_fit(tensors@),
            forall|i: int| 0 <= i < listed.len() ==> (#[trigger] listed@[i]) < tensors.len(),
            forall|j: int| 0 <= j < i ==> #[trigger] sizes@[j] == tensors@[listed@[j] as int].area(),
        decreases listed.len() - i,
    {
        let t: TensorId = listed[i];
        assert(listed@[i as int] < tensors.len());
        proof {
            lemma_each_fits(tensors@, t as int);
        }
        sizes.push(tensors[t].size());
        i = i + 1;
    }
    assert(arith::ints(sizes@) =~= areas_of(listed@, tensors@));
    sizes
}

/// Lists the pairs of tensors that share a slot.
fn list_pairs(placed: &Vec<TensorId>, slots: &Vec<usize>) -> (pairs: Vec<(TensorId, TensorId)>)
    requires
        slots.len() == placed.len(),
    ensures
        pairs@ == all_pairs(placed@, slots@, placed@.len()),
{
    let n: usize = placed.len();
    let mut pairs: Vec<(TensorId, TensorId)> = Vec::new();
    let mut i: usize = 0;
    while i < n
        invariant
            i <= n,
            n == placed.len(),
            n == slots.len(),
            pairs@ == all_pairs(placed@, slots@, i as nat),
        decreases n - i,
    {
        let ghost before = pairs@;
        let mut m: usize = i + 1;
        assert(before + pairs_of(placed@, slots@, i as int, m as nat) =~= before);
        while m < n
            invariant
                i < m <= n,
                n == placed.len(),
                n == slots.len(),
                pairs@ == before + pairs_of(placed@, slots@, i as int, m as nat),
            decreases n - m,
        {
            if slots[m] == slots[i] {
                pairs.push((placed[i], placed[m]));
                assert(pairs@ =~= before + pairs_of(placed@, slots@, i as int, (m + 1) as nat));
            }
            m = m + 1;
        }
        i = i + 1;
    }
    pairs
}

/// Finds which tensors of the graph can share memory.
pub fn analyze_buffer_sharing(graph: &RewriteGraph) -> (info: BufferSharingInfo)
    requires
        graph.valid(),
        tensors_fit(graph@.tensors),
    ensures
        info.is_of(graph@),
{
    broadcast use vstd::std_specs::hash::group_hash_axioms;

    let order: Vec<OpId> = active_order(graph);
    let map: HashMap<TensorId, (OpId, OpId)> = find_lifetimes(graph, &order);
    let placed: Vec<TensorId> = placing_order(&map, &graph.tensors);
    let ghost tensors = graph.tensors@;
    let mut slots: Slots = Slots { of: Vec::new(), members: Vec::new(), sizes: Vec::new() };
    while slots.of.len() < placed.len()
        invariant
            slots.holds(placed@, map@, tensors),
            tensors == graph.tensors@,
            tensors_fit(tensors),
            forall|i: int|
                0 <= i < placed.len() ==> (#[trigger] placed@[i]) < graph.tensors.len() && map@.contains_key(placed@[i]),
        decreases placed.len() - slots.of.len(),
    {
        place_next(&mut slots, &placed, &map, &graph.tensors);
    }
    let ghost of = slots.of@;
    let mut assignments: HashMap<TensorId, usize> = HashMap::new();
    let mut k: usize = 0;
    while k < placed.len()
        invariant
            k <= placed.len(),
            slots.of@ == of,
            of.len() == placed.len(),
            placed@.no_duplicates(),
            forall|t: TensorId| #[trigger] assignments@.contains_key(t) <==> placed@.take(k as int).contains(t),
            forall|i: int| 0 <= i < k ==> assignments@[#[trigger] placed@[i]] == of[i],
        decreases placed.len() - k,
    {
        proof {
            models::lemma_take_contains(placed@, k as int);
        }
        assignments.insert(placed[k], slots.of[k]);
        k = k + 1;
    }
    assert(placed@.take(k as int) =~= placed@);
    let sizes: Vec<i64> = sizes_of(&placed, &graph.tensors);
    proof {
        lemma_areas_fit(placed@, tensors);
        assert(slots.sizes@.len() == slots.sizes.len());
        let chosen = lemma_slots_as_tensors(placed@, of, tensors, slots.sizes@);
        lemma_areas_fit(chosen, tensors);
    }
    let original_memory: i64 = arith::wide_total(&sizes) as i64;
    let compacted_memory: i64 = arith::wide_total(&slots.sizes) as i64;
    let sharing_pairs: Vec<(TensorId, TensorId)> = list_pairs(&placed, &slots.of);
    let info: BufferSharingInfo = BufferSharingInfo {
        sharing_pairs,
        liveness_intervals: map,
        slot_assignments: assignments,
        slot_sizes: slots.sizes,
        compacted_memory,
        original_memory,
    };
    proof {
        assert(info.has_lifetimes(graph@, order@));
        assert(info.has_slots(tensors, placed@, of));
    }
    info
}

/// Finds which tensors of a problem can share memory.
pub fn get_buffer_sharing_info(problem: &Problem) -> (info: BufferSharingInfo)
    requires
        tensors_fit(problem.tensors@),
    ensures
        info.is_of(rewrite_graph::model_of(*problem)),
{
    let graph: RewriteGraph = RewriteGraph::from_problem(problem);
    analyze_buffer_sharing(&graph)
}

/// The memory that the tensors of a problem take when they share slots.
pub fn compute_peak_memory_compacted(problem: &Problem) -> (peak: i64)
    requires
        tensors_fit(problem.tensors@),
    ensures
        exists|info: BufferSharingInfo| #[trigger]
            info.is_of(rewrite_graph::model_of(*problem)) && peak == info.compacted_memory,
{
    let info: BufferSharingInfo = get_buffer_sharing_info(problem);
    info.compacted_memory
}

/// Tensors in the same slot are never live at the same time.
pub proof fn shared_slots_are_safe(info: BufferSharingInfo, s: GraphModel, a: TensorId, b: TensorId)
    requires
        info.is_of(s),
        a != b,
        info.slot_assignments@.contains_key(a),
        info.slot_assignments@.contains_key(b),
        info.slot_assignments@[a] == info.slot_assignments@[b],
    ensures
        apart(info.liveness_intervals@[a], info.liveness_intervals@[b]),
{
    let (order, placed, slots) = choose|order: Seq<OpId>, placed: Seq<TensorId>, slots: Seq<usize>|
        s.is_run(order) && #[trigger] info.has_lifetimes(s, order) && #[trigger] info.has_slots(s.tensors, placed, slots);
    assert(info.has_slots(s.tensors, placed, slots));
    let i = choose|i: int| 0 <= i < placed.len() && placed[i] == a;
    let j = choose|j: int| 0 <= j < placed.len() && placed[j] == b;
    assert(info.slot_assignments@[placed[i]] == slots[i]);
    assert(info.slot_assignments@[placed[j]] == slots[j]);
    if i < j {
        assert(has_first_fit(placed, slots, info.liveness_intervals@, j));
    } else {
        assert(has_first_fit(placed, slots, info.liveness_intervals@, i));
    }
}

/// A placing order lists tensors with lifetimes, each once.
proof fn lemma_placing_order(placed: Seq<TensorId>, lifetimes: Map<TensorId, (OpId, OpId)>, tensors: Seq<Tensor>)
    requires
        is_placing_order(placed, lifetimes, tensors),
        tensors.len() <= usize::MAX,
    ensures
        placed.no_duplicates(),
        forall|i: int|
            0 <= i < placed.len() ==> (#[trigger] placed[i]) < tensors.len() && lifetimes.contains_key(placed[i]),
{
    let listed = tensors_alive(lifetimes, tensors.len());
    lemma_tensors_alive(lifetimes, tensors.len());
    let (keys, order) = choose|keys: Seq<SortKey>, order: Seq<usize>|
        #![trigger ranks_by_start(keys, listed, lifetimes, tensors), sorting::is_stable_order(keys, order)]
        ranks_by_start(keys, listed, lifetimes, tensors) && sorting::is_stable_order(keys, order) && placed == Seq::new(
            order.len(),
            |i: int| listed[order[i] as int],
        );
    assert(sorting::is_stable_order(keys, order));
    assert forall|i: int| 0 <= i < placed.len() implies (#[trigger] placed[i]) < tensors.len()
        && lifetimes.contains_key(placed[i]) by {
        assert(order[i] < keys.len());
        assert(listed[order[i] as int] < tensors.len());
    }
    assert forall|a: int, b: int| 0 <= a < b < placed.len() implies placed[a] != placed[b] by {
        assert(order[a] != order[b]);
        assert(order[a] < keys.len() && order[b] < keys.len());
    }
}

/// A placing order lists tensors by the starts of their lifetimes.
proof fn lemma_placed_by_start(
    placed: Seq<TensorId>,
    lifetimes: Map<TensorId, (OpId, OpId)>,
    tensors: Seq<Tensor>,
    i: int,
    k: int,
)
    requires
        is_placing_order(placed, lifetimes, tensors),
        tensors.len() <= usize::MAX,
        0 <= i < k < placed.len(),
    ensures
        lifetimes[placed[i]].0 <= lifetimes[placed[k]].0,
{
    let listed = tensors_alive(lifetimes, tensors.len());
    lemma_tensors_alive(lifetimes, tensors.len());
    let (keys, order) = choose|keys: Seq<SortKey>, order: Seq<usize>|
        #![trigger ranks_by_start(keys, listed, lifetimes, tensors), sorting::is_stable_order(keys, order)]
        ranks_by_start(keys, listed, lifetimes, tensors) && sorting::is_stable_order(keys, order) && placed == Seq::new(
            order.len(),
            |i: int| listed[order[i] as int],
        );
    assert(sorting::is_stable_order(keys, order));
    assert(order[i] < keys.len() && order[k] < keys.len());
    assert(sorting::comes_before(keys, order[i], order[k]));
    assert(sorting::has_key(
        keys[order[i] as int],
        lifetimes[listed[order[i] as int]].0 as int,
        -tensors[listed[order[i] as int] as int].area(),
        0,
    ));
    assert(sorting::has_key(
        keys[order[k] as int],
        lifetimes[listed[order[k] as int]].0 as int,
        -tensors[listed[order[k] as int] as int].area(),
        0,
    ));
}

impl BufferSharingInfo {
    /// The listed tensors have slots and are all live at position `at` of the run.
    pub open spec fn live_together(&self, listed: Seq<TensorId>, at: OpId) -> bool {
        &&& listed.no_duplicates()
        &&& forall|i: int|
            0 <= i < listed.len() ==> {
                &&& self.slot_assignments@.contains_key(#[trigger] listed[i])
                &&& self.liveness_intervals@[listed[i]].0 <= at <= self.liveness_intervals@[listed[i]].1
            }
    }
}

/// There are as many slots as tensors that are ever live together: never fewer, and at
/// some position of the run that many are.
pub proof fn slots_are_as_few_as_can_be(info: BufferSharingInfo, s: GraphModel)
    requires
        info.is_of(s),
        s.tensors.len() <= usize::MAX,
    ensures
        forall|listed: Seq<TensorId>, at: OpId| #[trigger]
            info.live_together(listed, at) ==> listed.len() <= info.slot_sizes@.len(),
        exists|listed: Seq<TensorId>, at: OpId| #[trigger]
            info.live_together(listed, at) && listed.len() == info.slot_sizes@.len(),
{
    let lifetimes = info.liveness_intervals@;
    let (order, placed, slots) = choose|order: Seq<OpId>, placed: Seq<TensorId>, slots: Seq<usize>|
        s.is_run(order) && #[trigger] info.has_lifetimes(s, order) && #[trigger] info.has_slots(s.tensors, placed, slots);
    assert(info.has_slots(s.tensors, placed, slots) && info.has_lifetimes(s, order));
    let m = info.slot_sizes@.len();
    assert(m == info.slot_sizes.len());
    assert forall|listed: Seq<TensorId>, at: OpId| #[trigger] info.live_together(listed, at) implies listed.len() <= m by {
        let used = Seq::new(listed.len(), |i: int| info.slot_assignments@[listed[i]]);
        assert forall|i: int, j: int| 0 <= i < used.len() && 0 <= j < used.len() && i != j implies used[i] != used[j] by {
            assert(info.slot_assignments@.contains_key(listed[i]) && info.slot_assignments@.contains_key(listed[j]));
            if used[i] == used[j] {
                shared_slots_are_safe(info, s, listed[i], listed[j]);
            }
        }
        assert forall|i: int| 0 <= i < used.len() implies #[trigger] used[i] < m by {
            assert(info.slot_assignments@.contains_key(listed[i]));
            let k = choose|k: int| 0 <= k < placed.len() && placed[k] == listed[i];
            assert(info.slot_assignments@[placed[k]] == slots[k]);
        }
        graph::lemma_distinct_below(used, m);
    }
    if m == 0 {
        assert(info.live_together(Seq::empty(), 0));
    } else {
        let last = (m - 1) as usize;
        assert(is_slot_size(
            placed,
            slots,
            s.tensors,
            placed.len() as int,
            last,
            info.slot_sizes@[last as int] as int,
        ));
        let k = choose|k: int|
            0 <= k < placed.len() && #[trigger] slots[k] == last && s.tensors[placed[k] as int].area()
                == info.slot_sizes@[last as int];
        assert(has_first_fit(placed, slots, lifetimes, k));
        let at = lifetimes[placed[k]].0;
        let held = |j: int|
            if j == last {
                k
            } else {
                choose|i: int|
                    0 <= i < k && #[trigger] slots[i] == j as usize && !apart(lifetimes[placed[i]], lifetimes[placed[k]])
            };
        let listed = Seq::new(m, |j: int| placed[held(j)]);
        assert forall|j: int| 0 <= j < m implies {
            let i = #[trigger] held(j);
            0 <= i <= k && slots[i] == j && (i == k || !apart(lifetimes[placed[i]], lifetimes[placed[k]]))
        } by {
            if j != last {
                assert(blocks(placed, slots, lifetimes, k, j as usize));
            }
        }
        lemma_placing_order(placed, lifetimes, s.tensors);
        assert(info.live_together(listed, at)) by {
            assert forall|a: int, b: int| 0 <= a < listed.len() && 0 <= b < listed.len() && a != b implies listed[a]
                != listed[b] by {
                assert(slots[held(a)] == a && slots[held(b)] == b);
            }
            assert forall|j: int| 0 <= j < listed.len() implies {
                &&& info.slot_assignments@.contains_key(#[trigger] listed[j])
                &&& lifetimes[listed[j]].0 <= at <= lifetimes[listed[j]].1
            } by {
                let i = held(j);
                assert(placed.contains(placed[i]));
                assert(lifetimes.contains_key(placed[k]));
                if i < k {
                    lemma_placed_by_start(placed, lifetimes, s.tensors, i, k);
                }
            }
        }
    }
}

/// A part of some sizes adds up to no more than all of them.
proof fn lemma_part_of_sum(part: Seq<TensorId>, all: Seq<TensorId>, tensors: Seq<Tensor>)
    requires
        part.no_duplicates(),
        all.no_duplicates(),
        forall|i: int| 0 <= i < part.len() ==> all.contains(#[trigger] part[i]),
        forall|i: int| 0 <= i < all.len() ==> tensors[(#[trigger] all[i]) as int].area() >= 0,
    ensures
        arith::sum(areas_of(part, tensors)) <= arith::sum(areas_of(all, tensors)),
    decreases part.len(),
{
    let values = areas_of(all, tensors);
    if part.len() == 0 {
        assert(areas_of(part, tensors) =~= Seq::<int>::empty());
        assert forall|i: int| 0 <= i < values.len() implies #[trigger] values[i] >= 0 by {
            assert(tensors[all[i] as int].area() >= 0);
        }
        arith::lemma_sum_grows(values, 0);
    } else {
        let x = part.last();
        assert(all.contains(part[part.len() - 1]));
        let i = choose|i: int| 0 <= i < all.len() && all[i] == x;
        let fewer = part.drop_last();
        let rest = all.remove(i);
        assert forall|k: int| 0 <= k < fewer.len() implies rest.contains(#[trigger] fewer[k]) by {
            assert(all.contains(part[k]));
            let j = choose|j: int| 0 <= j < all.len() && all[j] == part[k];
            if j < i {
                assert(rest[j] == part[k]);
            } else {
                assert(j != i);
                assert(rest[j - 1] == part[k]);
            }
        }
        assert(rest.no_duplicates()) by {
            assert forall|a: int, b: int| 0 <= a < b < rest.len() implies rest[a] != rest[b] by {
                let a2 = if a < i { a } else { a + 1 };
                let b2 = if b < i { b } else { b + 1 };
                assert(rest[a] == all[a2] && rest[b] == all[b2]);
            }
        }
        assert forall|k: int| 0 <= k < rest.len() implies tensors[(#[trigger] rest[k]) as int].area() >= 0 by {
            let from = if k < i { k } else { k + 1 };
            assert(rest[k] == all[from]);
        }
        lemma_part_of_sum(fewer, rest, tensors);
        arith::lemma_sum_without(values, i);
        assert(values.remove(i) =~= areas_of(rest, tensors));
        assert(areas_of(part, tensors).drop_last() =~= areas_of(fewer, tensors));
    }
}

/// Sharing memory never takes more than giving each tensor its own.
pub proof fn sharing_never_costs(info: BufferSharingInfo, s: GraphModel)
    requires
        info.is_of(s),
        s.tensors.len() <= usize::MAX,
        forall|i: int| 0 <= i < s.tensors.len() ==> (#[trigger] s.tensors[i]).area() >= 0,
    ensures
        info.compacted_memory <= info.original_memory,
{
    let (order, placed, slots) = choose|order: Seq<OpId>, placed: Seq<TensorId>, slots: Seq<usize>|
        s.is_run(order) && #[trigger] info.has_lifetimes(s, order) && #[trigger] info.has_slots(s.tensors, placed, slots);
    assert(info.has_slots(s.tensors, placed, slots));
    lemma_placing_order(placed, info.liveness_intervals@, s.tensors);
    assert(info.slot_sizes@.len() == info.slot_sizes.len());
    let chosen = lemma_slots_as_tensors(placed, slots, s.tensors, info.slot_sizes@);
    assert forall|i: int| 0 <= i < placed.len() implies s.tensors[(#[trigger] placed[i]) as int].area() >= 0 by {
        assert(s.tensors[placed[i] as int].area() >= 0);
    }
    lemma_part_of_sum(chosen, placed, s.tensors);
}

/// The slots of the live tensors among the first `m`, in order.
pub open spec fn occupied(live: Set<TensorId>, slots: Map<TensorId, usize>, m: nat) -> Seq<usize>
    decreases m,
{
    if m == 0 {
        Seq::empty()
    } else {
        let rest = occupied(live, slots, (m - 1) as nat);
        let t = (m - 1) as usize;
        if live.contains(t) && slots.contains_key(t) {
            rest.push(slots[t])
        } else {
            rest
        }
    }
}

/// The size of the largest live tensor among the first `m` in slot `j`, at least 0.
pub open spec fn slot_peak(
    live: Set<TensorId>,
    slots: Map<TensorId, usize>,
    tensors: Seq<Tensor>,
    j: usize,
    m: nat,
) -> int
    decreases m,
{
    if m == 0 {
        0
    } else {
        let rest = slot_peak(live, slots, tensors, j, (m - 1) as nat);
        let t = (m - 1) as usize;
        if live.contains(t) && slots.contains_key(t) && slots[t] == j {
            arith::greatest(rest, tensors[m - 1].area())
        } else {
            rest
        }
    }
}

/// The sizes of the live tensors among the first `m` that have no slot.
pub open spec fn unplaced(live: Set<TensorId>, slots: Map<TensorId, usize>, tensors: Seq<Tensor>, m: nat) -> Seq<int>
    decreases m,
{
    if m == 0 {
        Seq::empty()
    } else {
        let rest = unplaced(live, slots, tensors, (m - 1) as nat);
        let t = (m - 1) as usize;
        if live.contains(t) && !slots.contains_key(t) {
            rest.push(tensors[m - 1].area())
        } else {
            rest
        }
    }
}

/// The peaks of the occupied slots, each slot once.
pub open spec fn slot_peaks(live: Set<TensorId>, slots: Map<TensorId, usize>, tensors: Seq<Tensor>) -> Seq<int> {
    let all = occupied(live, slots, tensors.len());
    let once = ids::first_mentions(all, |j: usize| true, all.len());
    Seq::new(once.len(), |i: int| slot_peak(live, slots, tensors, once[i], tensors.len()))
}

/// The memory that live tensors take: the peak of each occupied slot, and the sizes
/// of tensors without a slot.
pub open spec fn live_memory(live: Set<TensorId>, slots: Map<TensorId, usize>, tensors: Seq<Tensor>) -> int {
    arith::sum(slot_peaks(live, slots, tensors)) + arith::sum(unplaced(live, slots, tensors, tensors.len()))
}

/// The memory that a set of live tensors takes when tensors share slots.
pub fn compute_live_set_memory(
    live_tensors: &HashSet<TensorId>,
    sharing_info: &BufferSharingInfo,
    tensors: &[Tensor],
) -> (memory: i64)
    requires
        forall|t: TensorId|
            t < tensors@.len() && #[trigger] live_tensors@.contains(t) ==> arith::fits(tensors@[t as int].area()),
        arith::fits(live_memory(live_tensors@, sharing_info.slot_assignments@, tensors@)),
    ensures
        memory == live_memory(live_tensors@, sharing_info.slot_assignments@, tensors@),
{
    broadcast use vstd::std_specs::hash::group_hash_axioms;

    let ghost live = live_tensors@;
    let ghost slots = sharing_info.slot_assignments@;
    let n: usize = tensors.len();
    let mut used: Vec<usize> = Vec::new();
    let mut flags: Vec<bool> = Vec::new();
    let mut loose: Vec<i64> = Vec::new();
    assert(arith::ints(loose@) =~= Seq::<int>::empty());
    let mut t: usize = 0;
    while t < n
        invariant
            t <= n,
            n == tensors@.len(),
            live == live_tensors@,
            slots == sharing_info.slot_assignments@,
            forall|t: TensorId| t < n && #[trigger] live.contains(t) ==> arith::fits(tensors@[t as int].area()),
            used@ == occupied(live, slots, t as nat),
            flags.len() == used.len(),
            forall|i: int| 0 <= i < flags.len() ==> #[trigger] flags@[i],
            arith::ints(loose@) == unplaced(live, slots, tensors@, t as nat),
        decreases n - t,
    {
        if live_tensors.contains(&t) {
            match sharing_info.slot_assignments.get(&t) {
                Some(slot) => {
                    used.push(*slot);
                    flags.push(true);
                },
                None => {
                    let ghost before = loose@;
                    let size: i64 = tensors[t].size();
                    loose.push(size);
                    assert(arith::ints(loose@) =~= arith::ints(before).push(size as int));
                },
            }
        }
        t = t + 1;
    }
    let once: Vec<usize> = ids::collect_first_mentions(&used, &flags, Ghost(|j: usize| true));
    let mut peaks: Vec<i64> = Vec::new();
    let mut i: usize = 0;
    while i < once.len()
        invariant
            i <= once.len(),
            n == tensors@.len(),
            live == live_tensors@,
            slots == sharing_info.slot_assignments@,
            forall|t: TensorId| t < n && #[trigger] live.contains(t) ==> arith::fits(tensors@[t as int].area()),
            peaks.len() == i,
            forall|k: int|
                0 <= k < i ==> #[trigger] peaks@[k] == slot_peak(live, slots, tensors@, once@[k], n as nat),
        decreases once.len() - i,
    {
        let j: usize = once[i];
        let mut peak: i64 = 0;
        let mut x: usize = 0;
        while x < n
            invariant
                x <= n,
                n == tensors@.len(),
                live == live_tensors@,
                slots == sharing_info.slot_assignments@,
                forall|t: TensorId| t < n && #[trigger] live.contains(t) ==> arith::fits(tensors@[t as int].area()),
                peak == slot_peak(live, slots, tensors@, j, x as nat),
            decreases n - x,
        {
            if live_tensors.contains(&x) {
                if let Some(slot) = sharing_info.slot_assignments.get(&x) {
                    if *slot == j {
                        peak = arith::greatest_of(peak, tensors[x].size());
                    }
                }
            }
            x = x + 1;
        }
        peaks.push(peak);
        i = i + 1;
    }
    assert(arith::ints(peaks@) =~= slot_peaks(live, slots, tensors@));
    let in_slots: i128 = arith::wide_total(&peaks);
    let outside: i128 = arith::wide_total(&loose);
    proof {
        lemma_wide_bounds(peaks@);
        lemma_wide_bounds(loose@);
        lemma_occupied_bound(live, slots, tensors@, n as nat);
        ids::lemma_first_mentions(used@, |j: usize| true, used@.len());
        lemma_first_mentions_len(used@, |j: usize| true, used@.len());
    }
    (in_slots + outside) as i64
}

proof fn lemma_first_mentions_len(s: Seq<usize>, keep: spec_fn(usize) -> bool, k: nat)
    ensures
        ids::first_mentions(s, keep, k).len() <= k,
    decreases k,
{
    if k > 0 {
        lemma_first_mentions_len(s, keep, (k - 1) as nat);
    }
}

/// Each tensor counts in a slot or on its own, not both.
proof fn lemma_occupied_bound(live: Set<TensorId>, slots: Map<TensorId, usize>, tensors: Seq<Tensor>, m: nat)
    ensures
        occupied(live, slots, m).len() + unplaced(live, slots, tensors, m).len() <= m,
    decreases m,
{
    if m > 0 {
        lemma_occupied_bound(live, slots, tensors, (m - 1) as nat);
    }
}

/// The sum of a list is bounded by its length.
proof fn lemma_wide_bounds(v: Seq<i64>)
    ensures
        -(v.len() * 0x8000_0000_0000_0000) <= arith::sum(arith::ints(v)) <= v.len() * 0x7fff_ffff_ffff_ffff,
    decreases v.len(),
{
    if v.len() > 0 {
        lemma_wide_bounds(v.drop_last());
        assert(arith::ints(v).drop_last() =~= arith::ints(v.drop_last()));
    }
}

/// Whether the tensors can be in fast memory at the same time.
pub fn can_tensors_be_colocated(
    tensor_ids: &[TensorId],
    sharing_info: &BufferSharingInfo,
    tensors: &[Tensor],
    sram_capacity: i64,
) -> (yes: bool)
    requires
        forall|t: TensorId|
            t < tensors@.len() && #[trigger] tensor_ids@.contains(t) ==> arith::fits(tensors@[t as int].area()),
        arith::fits(live_memory(tensor_ids@.to_set(), sharing_info.slot_assignments@, tensors@)),
    ensures
        yes == (live_memory(tensor_ids@.to_set(), sharing_info.slot_assignments@, tensors@) <= sram_capacity),
{
    let live: HashSet<TensorId> = ids::set_of(tensor_ids);
    assert(live@ =~= tensor_ids@.to_set());
    compute_live_set_memory(&live, sharing_info, tensors) <= sram_capacity
}

/// The memory slot of a tensor, if it has one.
pub fn get_tensor_slot(tid: TensorId, sharing_info: &BufferSharingInfo) -> (slot: Option<usize>)
    ensures
        slot == if sharing_info.slot_assignments@.contains_key(tid) {
            Some(sharing_info.slot_assignments@[tid])
        } else {
            None
        },
{
    broadcast use vstd::std_specs::hash::group_hash_axioms;

    match sharing_info.slot_assignments.get(&tid) {
        Some(slot) => Some(*slot),
        None => None,
    }
}

/// The other tensors in the slot of a tensor, each once. Their order is not fixed.
pub fn get_slot_neighbors(tid: TensorId, sharing_info: &BufferSharingInfo) -> (neighbors: Vec<TensorId>)
    ensures
        neighbors@.no_duplicates(),
        forall|t: TensorId| #[trigger]
            neighbors@.contains(t) <==> t != tid && sharing_info.slot_assignments@.contains_key(tid)
                && sharing_info.slot_assignments@.contains_key(t) && sharing_info.slot_assignments@[t]
                == sharing_info.slot_assignments@[tid],
{
    broadcast use vstd::std_specs::hash::group_hash_axioms;

    let ghost slots = sharing_info.slot_assignments@;
    let mut neighbors: Vec<TensorId> = Vec::new();
    if let Some(own) = sharing_info.slot_assignments.get(&tid) {
        let slot: usize = *own;
        let ghost mut seen: Seq<TensorId> = Seq::empty();
        for other in it: sharing_info.slot_assignments.keys()
            invariant
                slots == sharing_info.slot_assignments@,
                slots.contains_key(tid),
                slots[tid] == slot,
                it.seq().unref().to_set() == slots.dom(),
                it.seq().no_duplicates(),
                seen == it.seq().unref().take(it.index()),
                it.index() == it.seq().len() ==> seen == it.seq().unref(),
                neighbors@.no_duplicates(),
                forall|t: TensorId| #[trigger]
                    neighbors@.contains(t) <==> t != tid && seen.contains(t) && slots[t] == slot,
        {
            let t: TensorId = *other;
            proof {
                assert(it.seq().unref()[it.index()] == t);
                assert(it.seq().unref().contains(t));
                assert(slots.dom().contains(t));
                ids::lemma_push_contains(seen, t);
                ids::lemma_push_contains(neighbors@, t);
                assert(!seen.contains(t)) by {
                    if seen.contains(t) {
                        let i = choose|i: int| 0 <= i < seen.len() && seen[i] == t;
                        assert(it.seq()[i] == it.seq()[it.index()]);
                    }
                }
                assert(!neighbors@.contains(t));
                seen = seen.push(t);
            }
            assert(seen =~= it.seq().unref().take(it.index() + 1));
            assert(it.index() + 1 == it.seq().len() ==> seen =~= it.seq().unref());
            if let Some(s) = sharing_info.slot_assignments.get(&t) {
                if *s == slot && t != tid {
                    let ghost before = neighbors@;
                    neighbors.push(t);
                    assert(neighbors@.no_duplicates()) by {
                        assert forall|a: int, b: int| 0 <= a < b < neighbors@.len() implies neighbors@[a]
                            != neighbors@[b] by {
                            if b == before.len() {
                                assert(before.contains(before[a]));
                            }
                        }
                    }
                }
            }
        }
        assert(seen.to_set() =~= slots.dom());
        assert forall|t: TensorId| seen.contains(t) <==> slots.contains_key(t) by {
            assert(seen.to_set().contains(t) <==> slots.dom().contains(t));
        }
    }
    neighbors
}

} // verus!
