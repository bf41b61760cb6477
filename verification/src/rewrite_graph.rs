//! The graph in the form in which it is rewritten: operations can be deleted or fused
//! into others, and tensors can be replaced by others.
use std::collections::{HashMap, HashSet};
use vstd::prelude::*;
use crate::{arith, graph, ids, models};
use crate::models::{Op, OpId, OpType, Problem, Tensor, TensorId, TensorMeta};

verus! {

/// An operation under rewriting.
#[derive(Debug)]
pub struct RewriteOp {
    pub op_type: OpType,
    pub inputs: Vec<TensorId>,
    pub outputs: Vec<TensorId>,
    pub base_cost: i64,
    /// The operation that has absorbed this one.
    pub fused_into: Option<OpId>,
    /// The cost including that of absorbed operations.
    pub accumulated_cost: i64,
}

/// The mathematical content of an operation under rewriting.
#[verifier::ext_equal]
pub struct OpModel {
    pub op_type: OpType,
    pub inputs: Seq<TensorId>,
    pub outputs: Seq<TensorId>,
    pub base_cost: int,
    pub fused_into: Option<OpId>,
    pub accumulated_cost: int,
}

impl View for RewriteOp {
    type V = OpModel;

    open spec fn view(&self) -> OpModel {
        OpModel {
            op_type: self.op_type,
            inputs: self.inputs@,
            outputs: self.outputs@,
            base_cost: self.base_cost as int,
            fused_into: self.fused_into,
            accumulated_cost: self.accumulated_cost as int,
        }
    }
}

/// A graph under rewriting.
#[derive(Debug)]
pub struct RewriteGraph {
    pub tensors: Vec<Tensor>,
    pub ops: Vec<RewriteOp>,
    /// The tensors that are results of the graph.
    pub output_tensors: Vec<TensorId>,
    /// The operation that produces each tensor.
    pub tensor_producers: HashMap<TensorId, OpId>,
    /// The operations that consume each tensor, each once.
    pub tensor_consumers: HashMap<TensorId, Vec<OpId>>,
    /// Tensors whose values are known beforehand.
    pub constant_tensors: HashSet<TensorId>,
    pub deleted_ops: HashSet<OpId>,
    /// Tensors that have been replaced by others.
    pub tensor_remap: HashMap<TensorId, TensorId>,
}

/// The mathematical content of a graph under rewriting.
#[verifier::ext_equal]
pub struct GraphModel {
    pub tensors: Seq<Tensor>,
    pub ops: Seq<OpModel>,
    pub outputs: Set<TensorId>,
    pub producers: Map<TensorId, OpId>,
    pub consumers: Map<TensorId, Set<OpId>>,
    pub constants: Set<TensorId>,
    pub deleted: Set<OpId>,
    pub remap: Map<TensorId, TensorId>,
}

/// The lists as sets.
pub open spec fn as_sets(lists: Map<TensorId, Vec<OpId>>) -> Map<TensorId, Set<OpId>> {
    Map::new(|t: TensorId| lists.contains_key(t), |t: TensorId| lists[t]@.to_set())
}

impl View for RewriteGraph {
    type V = GraphModel;

    open spec fn view(&self) -> GraphModel {
        GraphModel {
            tensors: self.tensors@,
            ops: Seq::new(self.ops@.len(), |i: int| self.ops@[i]@),
            outputs: self.output_tensors@.to_set(),
            producers: self.tensor_producers@,
            consumers: as_sets(self.tensor_consumers@),
            constants: self.constant_tensors@,
            deleted: self.deleted_ops@,
            remap: self.tensor_remap@,
        }
    }
}

impl GraphModel {
    /// Producers and consumers are operations of the graph.
    pub open spec fn valid(self) -> bool {
        &&& forall|t: TensorId| #[trigger] self.producers.contains_key(t) ==> self.producers[t] < self.ops.len()
        &&& forall|t: TensorId, c: OpId|
            self.consumers.contains_key(t) && #[trigger] self.consumers[t].contains(c) ==> c < self.ops.len()
    }

    /// The operation has neither been deleted nor absorbed.
    pub open spec fn active(self, op: OpId) -> bool {
        !self.deleted.contains(op) && self.ops[op as int].fused_into is None
    }

    /// The number of active operations among the first `k`.
    pub open spec fn active_among(self, k: nat) -> nat
        decreases k,
    {
        if k == 0 {
            0
        } else {
            self.active_among((k - 1) as nat) + if self.active((k - 1) as usize) { 1nat } else { 0nat }
        }
    }

    /// The number of active operations.
    pub open spec fn active_count(self) -> nat {
        self.active_among(self.ops.len())
    }
}

impl RewriteGraph {
    /// Consumer lists have no repetition, and every id that leads to an operation is in range.
    pub open spec fn valid(&self) -> bool {
        &&& self@.valid()
        &&& forall|t: TensorId| #[trigger]
            self.tensor_consumers@.contains_key(t) ==> self.tensor_consumers@[t]@.no_duplicates()
    }
}

/// The tensor after following `m` replacements.
pub open spec fn walk(remap: Map<TensorId, TensorId>, t: TensorId, m: nat) -> TensorId
    decreases m,
{
    if m == 0 {
        t
    } else {
        let at = walk(remap, t, (m - 1) as nat);
        if remap.contains_key(at) {
            remap[at]
        } else {
            at
        }
    }
}

/// After `m` replacements there is none left, or the next one has been taken before.
pub open spec fn halts(remap: Map<TensorId, TensorId>, t: TensorId, m: nat) -> bool {
    let at = walk(remap, t, m);
    !remap.contains_key(at) || exists|j: nat| 1 <= j <= m && #[trigger] walk(remap, t, j) == remap[at]
}

/// The chain of replacements ends after `m` of them, and not before.
pub open spec fn halts_first(remap: Map<TensorId, TensorId>, t: TensorId, m: nat) -> bool {
    halts(remap, t, m) && forall|i: nat| i < m ==> !#[trigger] halts(remap, t, i)
}

/// The tensor that stands for `t`: the end of its chain of replacements.
pub open spec fn resolve(remap: Map<TensorId, TensorId>, t: TensorId) -> TensorId {
    walk(remap, t, choose|m: nat| halts_first(remap, t, m))
}

proof fn lemma_resolve(remap: Map<TensorId, TensorId>, t: TensorId, m: nat)
    requires
        halts_first(remap, t, m),
    ensures
        resolve(remap, t) == walk(remap, t, m),
{
    let c = choose|m: nat| halts_first(remap, t, m);
    assert(halts_first(remap, t, c));
    if c < m {
        assert(!halts(remap, t, c));
    }
    if m < c {
        assert(!halts(remap, t, m));
    }
}

/// A tensor that has not been replaced stands for itself.
pub proof fn unreplaced_stands_for_itself(remap: Map<TensorId, TensorId>, t: TensorId)
    requires
        !remap.contains_key(t),
    ensures
        resolve(remap, t) == t,
{
    assert(walk(remap, t, 0) == t);
    assert(halts(remap, t, 0));
    lemma_resolve(remap, t, 0);
}

/// Every chain of replacements comes to an end.
pub open spec fn chains_end(remap: Map<TensorId, TensorId>) -> bool {
    forall|t: TensorId| #[trigger] ends(remap, t)
}

/// The chain of replacements of `t` comes to an end.
pub open spec fn ends(remap: Map<TensorId, TensorId>, t: TensorId) -> bool {
    exists|m: nat| !remap.contains_key(#[trigger] walk(remap, t, m))
}

/// After steps that lead to the same place, as many further steps do so too.
proof fn lemma_walk_further(remap: Map<TensorId, TensorId>, t: TensorId, i: nat, j: nat, d: nat)
    requires
        walk(remap, t, i) == walk(remap, t, j),
    ensures
        walk(remap, t, i + d) == walk(remap, t, j + d),
    decreases d,
{
    if d > 0 {
        lemma_walk_further(remap, t, i, j, (d - 1) as nat);
        assert(i + d - 1 == (i + (d - 1) as nat) && j + d - 1 == (j + (d - 1) as nat));
    }
}

/// The first step of a chain that leads to a tensor that has not been replaced, if the `m`th does.
proof fn lemma_first_end(remap: Map<TensorId, TensorId>, t: TensorId, m: nat) -> (first: nat)
    requires
        !remap.contains_key(walk(remap, t, m)),
    ensures
        first <= m,
        !remap.contains_key(walk(remap, t, first)),
        forall|i: nat| i < first ==> remap.contains_key(#[trigger] walk(remap, t, i)),
    decreases m,
{
    if exists|i: nat| i < m && !remap.contains_key(#[trigger] walk(remap, t, i)) {
        let i = choose|i: nat| i < m && !remap.contains_key(#[trigger] walk(remap, t, i));
        lemma_first_end(remap, t, i)
    } else {
        m
    }
}

/// Where a chain of replacements ends stands a tensor that has not been replaced.
pub proof fn lemma_chain_end(remap: Map<TensorId, TensorId>, t: TensorId, m: nat)
    requires
        !remap.contains_key(walk(remap, t, m)),
    ensures
        resolve(remap, t) == walk(remap, t, m),
        !remap.contains_key(resolve(remap, t)),
{
    let first = lemma_first_end(remap, t, m);
    assert(halts(remap, t, first));
    assert forall|i: nat| i < first implies !#[trigger] halts(remap, t, i) by {
        assert(remap.contains_key(walk(remap, t, i)));
        assert(walk(remap, t, i + 1) == remap[walk(remap, t, i)]);
        if exists|j: nat| 1 <= j <= i && #[trigger] walk(remap, t, j) == remap[walk(remap, t, i)] {
            let j = choose|j: nat| 1 <= j <= i && #[trigger] walk(remap, t, j) == remap[walk(remap, t, i)];
            let d = (first - (i + 1)) as nat;
            lemma_walk_further(remap, t, j, i + 1, d);
            assert(walk(remap, t, (j + d) as nat) == walk(remap, t, first));
            assert(j + d < first);
        }
    }
    lemma_resolve(remap, t, first);
    lemma_stays_at_end(remap, t, first, m);
}

proof fn lemma_stays_at_end(remap: Map<TensorId, TensorId>, t: TensorId, m: nat, more: nat)
    requires
        !remap.contains_key(walk(remap, t, m)),
        m <= more,
    ensures
        walk(remap, t, more) == walk(remap, t, m),
    decreases more,
{
    if m < more {
        lemma_stays_at_end(remap, t, m, (more - 1) as nat);
    }
}

/// Along a chain that has not met `from`, replacing `from` changes nothing.
proof fn lemma_walk_with_more(remap: Map<TensorId, TensorId>, from: TensorId, to: TensorId, t: TensorId, m: nat)
    requires
        forall|i: nat| i < m ==> remap.contains_key(#[trigger] walk(remap, t, i)),
        !remap.contains_key(from),
    ensures
        walk(remap.insert(from, to), t, m) == walk(remap, t, m),
    decreases m,
{
    if m > 0 {
        lemma_walk_with_more(remap, from, to, t, (m - 1) as nat);
        assert(remap.contains_key(walk(remap, t, (m - 1) as nat)));
    }
}

/// When a tensor that stands for itself is replaced by another such, the other stands for all that it stood for.
pub proof fn lemma_replacing(remap: Map<TensorId, TensorId>, from: TensorId, to: TensorId)
    requires
        chains_end(remap),
        !remap.contains_key(from),
        !remap.contains_key(to),
        from != to,
    ensures
        chains_end(remap.insert(from, to)),
        forall|t: TensorId| #[trigger]
            resolve(remap.insert(from, to), t) == if resolve(remap, t) == from {
                to
            } else {
                resolve(remap, t)
            },
{
    let now = remap.insert(from, to);
    assert forall|t: TensorId|
        #![trigger resolve(now, t)]
        #![trigger ends(now, t)]
        ends(now, t) && resolve(now, t) == if resolve(remap, t) == from {
            to
        } else {
            resolve(remap, t)
        } by {
        assert(ends(remap, t));
        let m = choose|m: nat| !remap.contains_key(#[trigger] walk(remap, t, m));
        let first = lemma_first_end(remap, t, m);
        lemma_chain_end(remap, t, first);
        lemma_walk_with_more(remap, from, to, t, first);
        if walk(remap, t, first) == from {
            assert(walk(now, t, first + 1) == to);
            lemma_chain_end(now, t, first + 1);
        } else {
            assert(!now.contains_key(walk(now, t, first)));
            lemma_chain_end(now, t, first);
        }
    }
}

/// As long as a chain of replacements goes on, it uses up keys.
proof fn lemma_walk_bound(remap: Map<TensorId, TensorId>, t: TensorId, m: nat)
    requires
        remap.dom().finite(),
        forall|i: nat| i < m ==> !#[trigger] halts(remap, t, i),
    ensures
        m <= remap.dom().len() + 1,
{
    if m >= 1 {
        let keys = Seq::new((m - 1) as nat, |i: int| walk(remap, t, (i + 1) as nat));
        assert(keys.no_duplicates()) by {
            assert forall|i: int, j: int| 0 <= i < j < keys.len() implies keys[i] != keys[j] by {
                // Step `j` went to a place that no earlier step had reached.
                assert(!halts(remap, t, j as nat));
                assert(walk(remap, t, (j + 1) as nat) == remap[walk(remap, t, j as nat)]);
                assert(walk(remap, t, (i + 1) as nat) != remap[walk(remap, t, j as nat)]);
            }
        }
        assert forall|x: TensorId| keys.to_set().contains(x) implies remap.dom().contains(x) by {
            let i = choose|i: int| 0 <= i < keys.len() && keys[i] == x;
            assert(!halts(remap, t, (i + 1) as nat));
        }
        keys.unique_seq_to_set();
        vstd::set_lib::lemma_len_subset(keys.to_set(), remap.dom());
    }
}

impl RewriteGraph {
    /// Follows the chain of replacements to its end.
    pub fn resolve_tensor(&self, tid: TensorId) -> (r: TensorId)
        ensures
            r == resolve(self.tensor_remap@, tid),
    {
        broadcast use vstd::std_specs::hash::group_hash_axioms;

        let ghost remap = self.tensor_remap@;
        let mut current: TensorId = tid;
        let mut visited: HashSet<TensorId> = HashSet::new();
        let ghost mut m: nat = 0;
        loop
            invariant
                remap == self.tensor_remap@,
                current == walk(remap, tid, m),
                forall|x: TensorId| #[trigger]
                    visited@.contains(x) <==> exists|j: nat| 1 <= j <= m && #[trigger] walk(remap, tid, j) == x,
                forall|i: nat| i < m ==> !#[trigger] halts(remap, tid, i),
            ensures
                current == resolve(remap, tid),
            decreases remap.dom().len() + 2 - m,
        {
            proof {
                lemma_walk_bound(remap, tid, m);
            }
            match self.tensor_remap.get(&current) {
                None => {
                    proof {
                        assert(halts(remap, tid, m));
                        lemma_resolve(remap, tid, m);
                    }
                    break;
                },
                Some(remapped) => {
                    let next: TensorId = *remapped;
                    if visited.contains(&next) {
                        proof {
                            assert(halts(remap, tid, m));
                            lemma_resolve(remap, tid, m);
                        }
                        break;
                    }
                    proof {
                        assert(!halts(remap, tid, m)) by {
                            if halts(remap, tid, m) {
                                let j = choose|j: nat| 1 <= j <= m && #[trigger] walk(remap, tid, j) == remap[current];
                                assert(visited@.contains(next));
                            }
                        }
                    }
                    let ghost before = visited@;
                    visited.insert(next);
                    proof {
                        assert(walk(remap, tid, m + 1) == next);
                        assert forall|x: TensorId| #[trigger] visited@.contains(x) <==> exists|j: nat|
                            1 <= j <= m + 1 && #[trigger] walk(remap, tid, j) == x by {
                            if before.contains(x) {
                                let j = choose|j: nat| 1 <= j <= m && #[trigger] walk(remap, tid, j) == x;
                                assert(1 <= j <= m + 1);
                            }
                        }
                        m = m + 1;
                    }
                    current = next;
                },
            }
        }
        current
    }

    /// Whether the operation has neither been deleted nor absorbed.
    pub fn is_active(&self, op_id: OpId) -> (yes: bool)
        requires
            op_id < self.ops.len(),
        ensures
            yes == self@.active(op_id),
    {
        broadcast use vstd::std_specs::hash::group_hash_axioms;

        !self.deleted_ops.contains(&op_id) && self.ops[op_id].fused_into.is_none()
    }
}

/// The graph of a problem, before any rewriting.
pub open spec fn model_of(p: Problem) -> GraphModel {
    let ops = p.ops@;
    let n = ops.len();
    GraphModel {
        tensors: p.tensors@,
        ops: Seq::new(
            n,
            |i: int|
                OpModel {
                    op_type: ops[i].op_type,
                    inputs: ops[i].inputs@,
                    outputs: ops[i].outputs@,
                    base_cost: ops[i].base_cost as int,
                    fused_into: None,
                    accumulated_cost: ops[i].base_cost as int,
                },
        ),
        outputs: Set::new(|t: TensorId| t < p.tensors@.len() && models::consumers_of(ops, t, n).len() == 0),
        producers: Map::new(
            |t: TensorId| t < p.tensors@.len() && models::producer_of(ops, t, n) is Some,
            |t: TensorId| models::producer_of(ops, t, n)->0,
        ),
        consumers: Map::new(
            |t: TensorId| t < p.tensors@.len(),
            |t: TensorId| models::consumers_of(ops, t, n).to_set(),
        ),
        constants: Set::empty(),
        deleted: Set::empty(),
        remap: Map::empty(),
    }
}

/// The consumer map with operation `op` added to the consumers of `t`.
pub open spec fn with_consumer(
    consumers: Map<TensorId, Set<OpId>>,
    t: TensorId,
    op: OpId,
) -> Map<TensorId, Set<OpId>> {
    consumers.insert(
        t,
        (if consumers.contains_key(t) {
            consumers[t]
        } else {
            Set::empty()
        }).insert(op),
    )
}

/// Adds `op` to the consumers of `t`, unless it is there already.
pub fn add_consumer(consumers: &mut HashMap<TensorId, Vec<OpId>>, t: TensorId, op: OpId)
    requires
        forall|x: TensorId| #[trigger] old(consumers)@.contains_key(x) ==> old(consumers)@[x]@.no_duplicates(),
    ensures
        as_sets(final(consumers)@) == with_consumer(as_sets(old(consumers)@), t, op),
        forall|x: TensorId| #[trigger] final(consumers)@.contains_key(x) ==> final(consumers)@[x]@.no_duplicates(),
{
    broadcast use vstd::std_specs::hash::group_hash_axioms;

    let ghost before = consumers@;
    let mut list: Vec<OpId> = match consumers.remove(&t) {
        None => Vec::new(),
        Some(list) => list,
    };
    let ghost old_list = list@;
    proof {
        ids::lemma_push_contains(old_list, op);
        assert(before.contains_key(t) ==> old_list == before[t]@);
        assert(!before.contains_key(t) ==> old_list =~= Seq::<usize>::empty());
    }
    if !ids::is_listed(&list, op) {
        list.push(op);
    }
    let ghost new_list = list@;
    consumers.insert(t, list);
    proof {
        let was = if as_sets(before).contains_key(t) {
            as_sets(before)[t]
        } else {
            Set::empty()
        };
        assert(new_list.to_set() =~= was.insert(op));
        assert(consumers@[t]@ == new_list);
        assert forall|x: TensorId| x != t implies (consumers@.contains_key(x) <==> before.contains_key(x)) && (
        before.contains_key(x) ==> consumers@[x] == before[x]) by {
        }
        assert(as_sets(consumers@) =~= with_consumer(as_sets(before), t, op));
    }
}

/// The consumer map with `op` in the place of `was` among the consumers of `t`.
pub open spec fn with_consumer_in_place(
    consumers: Map<TensorId, Set<OpId>>,
    t: TensorId,
    was: OpId,
    op: OpId,
) -> Map<TensorId, Set<OpId>> {
    consumers.insert(
        t,
        (if consumers.contains_key(t) {
            consumers[t]
        } else {
            Set::empty()
        }).remove(was).insert(op),
    )
}

/// Puts `op` in the place of `was` among the consumers of `t`.
pub fn put_consumer_in_place(consumers: &mut HashMap<TensorId, Vec<OpId>>, t: TensorId, was: OpId, op: OpId)
    requires
        forall|x: TensorId| #[trigger] old(consumers)@.contains_key(x) ==> old(consumers)@[x]@.no_duplicates(),
    ensures
        as_sets(final(consumers)@) == with_consumer_in_place(as_sets(old(consumers)@), t, was, op),
        forall|x: TensorId| #[trigger] final(consumers)@.contains_key(x) ==> final(consumers)@[x]@.no_duplicates(),
{
    broadcast use vstd::std_specs::hash::group_hash_axioms;

    let ghost before = consumers@;
    let old_list: Vec<OpId> = match consumers.remove(&t) {
        None => Vec::new(),
        Some(list) => list,
    };
    proof {
        assert(before.contains_key(t) ==> old_list@ == before[t]@);
        assert(!before.contains_key(t) ==> old_list@ =~= Seq::<usize>::empty());
    }
    let mut list: Vec<OpId> = Vec::new();
    proof {
        ids::lemma_push_contains(list@, op);
        assert(old_list@.take(0) =~= Seq::<usize>::empty());
    }
    list.push(op);
    let mut i: usize = 0;
    while i < old_list.len()
        invariant
            i <= old_list.len(),
            list@.no_duplicates(),
            forall|c: OpId| #[trigger]
                list@.contains(c) <==> c == op || (old_list@.take(i as int).contains(c) && c != was),
        decreases old_list.len() - i,
    {
        let c: OpId = old_list[i];
        proof {
            models::lemma_take_contains(old_list@, i as int);
            ids::lemma_push_contains(list@, c);
        }
        if c != was && !ids::is_listed(&list, c) {
            list.push(c);
        }
        i = i + 1;
    }
    assert(old_list@.take(i as int) =~= old_list@);
    let ghost new_list = list@;
    consumers.insert(t, list);
    proof {
        let held = if as_sets(before).contains_key(t) {
            as_sets(before)[t]
        } else {
            Set::empty()
        };
        assert(new_list.to_set() =~= held.remove(was).insert(op));
        assert(consumers@[t]@ == new_list);
        assert forall|x: TensorId| x != t implies (consumers@.contains_key(x) <==> before.contains_key(x)) && (
        before.contains_key(x) ==> consumers@[x] == before[x]) by {
        }
        assert(as_sets(consumers@) =~= with_consumer_in_place(as_sets(before), t, was, op));
    }
}

impl RewriteGraph {
    /// The graph of a problem, before any rewriting.
    pub fn from_problem(problem: &Problem) -> (graph: Self)
        ensures
            graph@ == model_of(*problem),
            graph.valid(),
    {
        broadcast use vstd::std_specs::hash::group_hash_axioms;

        let meta: Vec<TensorMeta> = problem.build_tensor_meta();
        let ghost model = model_of(*problem);
        let ghost n = problem.ops@.len();
        let mut output_tensors: Vec<TensorId> = Vec::new();
        let mut tensor_producers: HashMap<TensorId, OpId> = HashMap::new();
        let mut tensor_consumers: HashMap<TensorId, Vec<OpId>> = HashMap::new();
        let mut t: usize = 0;
        while t < meta.len()
            invariant
                t <= meta.len(),
                problem.has_meta(meta@),
                n == problem.ops@.len(),
                model == model_of(*problem),
                forall|x: TensorId| #[trigger] output_tensors@.contains(x) <==> x < t && model.outputs.contains(x),
                forall|x: TensorId| #[trigger]
                    tensor_producers@.contains_key(x) <==> x < t && model.producers.contains_key(x),
                forall|x: TensorId| #[trigger]
                    tensor_producers@.contains_key(x) ==> tensor_producers@[x] == model.producers[x],
                forall|x: TensorId| #[trigger] tensor_consumers@.contains_key(x) <==> x < t,
                forall|x: TensorId| #[trigger]
                    tensor_consumers@.contains_key(x) ==> tensor_consumers@[x]@.no_duplicates()
                        && tensor_consumers@[x]@.to_set() == model.consumers[x],
            decreases meta.len() - t,
        {
            let m: &TensorMeta = &meta[t];
            assert(meta@[t as int].describes(problem.ops@, t));
            if m.is_output {
                proof {
                    ids::lemma_push_contains(output_tensors@, t);
                }
                output_tensors.push(t);
            }
            if let Some(p) = m.producer {
                tensor_producers.insert(t, p);
            }
            let list: Vec<OpId> = ids::distinct(m.consumers.as_slice());
            assert(list@.to_set() =~= model.consumers[t]);
            tensor_consumers.insert(t, list);
            t = t + 1;
        }
        let mut ops: Vec<RewriteOp> = Vec::new();
        let mut i: usize = 0;
        while i < problem.ops.len()
            invariant
                i <= problem.ops.len(),
                model == model_of(*problem),
                ops.len() == i,
                forall|j: int| 0 <= j < i ==> (#[trigger] ops@[j])@ == model.ops[j],
            decreases problem.ops.len() - i,
        {
            let op: &Op = &problem.ops[i];
            ops.push(
                RewriteOp {
                    op_type: op.op_type,
                    inputs: models::copy_ids(op.inputs.as_slice()),
                    outputs: models::copy_ids(op.outputs.as_slice()),
                    base_cost: op.base_cost,
                    fused_into: None,
                    accumulated_cost: op.base_cost,
                },
            );
            i = i + 1;
        }
        let graph: RewriteGraph = RewriteGraph {
            tensors: models::copy_tensors(problem.tensors.as_slice()),
            ops,
            output_tensors,
            tensor_producers,
            tensor_consumers,
            constant_tensors: HashSet::new(),
            deleted_ops: HashSet::new(),
            tensor_remap: HashMap::new(),
        };
        proof {
            assert(graph@.ops =~= model.ops);
            assert(graph@.outputs =~= model.outputs);
            assert(graph@.producers =~= model.producers);
            assert(graph@.consumers =~= model.consumers);
            assert(graph@ =~= model);
            assert forall|t: TensorId| #[trigger] model.producers.contains_key(t) implies model.producers[t] < n by {
                models::meta_matches_ops(problem.ops@, t, n, 0);
            }
            assert forall|t: TensorId, c: OpId|
                model.consumers.contains_key(t) && #[trigger] model.consumers[t].contains(c) implies c < n by {
                models::meta_matches_ops(problem.ops@, t, n, c);
            }
        }
        graph
    }
}

/// The tensor after one replacement, if it has been replaced.
pub open spec fn replaced(remap: Map<TensorId, TensorId>, t: TensorId) -> TensorId {
    if remap.contains_key(t) {
        remap[t]
    } else {
        t
    }
}

/// The listed tensors, each after one replacement.
pub open spec fn all_replaced(remap: Map<TensorId, TensorId>, listed: Seq<TensorId>) -> Seq<TensorId> {
    Seq::new(listed.len(), |i: int| replaced(remap, listed[i]))
}

impl GraphModel {
    /// `o` is operation `i` written back.
    pub open spec fn writes_back_op(self, o: Op, i: int) -> bool {
        &&& o.op_type == self.ops[i].op_type
        &&& o.inputs@ == all_replaced(self.remap, self.ops[i].inputs)
        &&& o.outputs@ == all_replaced(self.remap, self.ops[i].outputs)
        &&& o.base_cost == self.ops[i].accumulated_cost
    }

    /// `p` is the graph written back: its active operations in order, with the costs
    /// of what they have absorbed. Tensors keep their ids.
    pub open spec fn writes_back(self, p: Problem, original: Problem) -> bool {
        &&& p.tensors@ == self.tensors
        &&& p.ops@.len() == self.active_count()
        &&& forall|i: usize|
            i < self.ops.len() && #[trigger] self.active(i) ==> self.writes_back_op(
                p.ops@[self.active_among(i as nat) as int],
                i as int,
            )
        &&& p.fast_memory_capacity == original.fast_memory_capacity
        &&& p.slow_memory_bandwidth == original.slow_memory_bandwidth
        &&& p.native_granularity == original.native_granularity
    }
}

impl RewriteGraph {
    /// Replaces the listed tensors, one step each.
    fn replace_all(&self, listed: &Vec<TensorId>) -> (r: Vec<TensorId>)
        ensures
            r@ == all_replaced(self.tensor_remap@, listed@),
    {
        broadcast use vstd::std_specs::hash::group_hash_axioms;

        let mut r: Vec<TensorId> = Vec::new();
        let mut i: usize = 0;
        while i < listed.len()
            invariant
                i <= listed.len(),
                r.len() == i,
                forall|j: int| 0 <= j < i ==> #[trigger] r@[j] == replaced(self.tensor_remap@, listed@[j]),
            decreases listed.len() - i,
        {
            let t: TensorId = listed[i];
            let to: TensorId = match self.tensor_remap.get(&t) {
                Some(x) => *x,
                None => t,
            };
            r.push(to);
            i = i + 1;
        }
        assert(r@ =~= all_replaced(self.tensor_remap@, listed@));
        r
    }

    /// Writes the graph back as a problem.
    pub fn to_problem(&self, original: &Problem) -> (p: Problem)
        ensures
            self@.writes_back(p, *original),
    {
        let ghost s = self@;
        let mut ops: Vec<Op> = Vec::new();
        let mut i: usize = 0;
        while i < self.ops.len()
            invariant
                i <= self.ops.len(),
                s == self@,
                ops.len() == s.active_among(i as nat),
                forall|j: usize|
                    j < i && #[trigger] s.active(j) ==> s.active_among(j as nat) < ops.len() && s.writes_back_op(
                        ops@[s.active_among(j as nat) as int],
                        j as int,
                    ),
            decreases self.ops.len() - i,
        {
            if self.is_active(i) {
                let op: &RewriteOp = &self.ops[i];
                ops.push(
                    Op {
                        op_type: op.op_type,
                        inputs: self.replace_all(&op.inputs),
                        outputs: self.replace_all(&op.outputs),
                        base_cost: op.accumulated_cost,
                    },
                );
            }
            i = i + 1;
        }
        Problem {
            tensors: models::copy_tensors(self.tensors.as_slice()),
            ops,
            fast_memory_capacity: original.fast_memory_capacity,
            slow_memory_bandwidth: original.slow_memory_bandwidth,
            native_granularity: original.native_granularity,
        }
    }

    /// The number of active operations.
    pub fn active_op_count(&self) -> (count: usize)
        ensures
            count == self@.active_count(),
    {
        let mut count: usize = 0;
        let mut i: usize = 0;
        while i < self.ops.len()
            invariant
                i <= self.ops.len(),
                count <= i,
                count == self@.active_among(i as nat),
            decreases self.ops.len() - i,
        {
            if self.is_active(i) {
                count = count + 1;
            }
            i = i + 1;
        }
        count
    }
}

/// The list with every mention of `from` turned into `to`.
pub open spec fn substituted(listed: Seq<TensorId>, from: TensorId, to: TensorId) -> Seq<TensorId> {
    Seq::new(
        listed.len(),
        |i: int|
            if listed[i] == from {
                to
            } else {
                listed[i]
            },
    )
}

impl GraphModel {
    /// The consumers of `t` other than `op`.
    pub open spec fn other_consumers(self, t: TensorId, op: OpId) -> Set<OpId> {
        if self.consumers.contains_key(t) {
            self.consumers[t].remove(op)
        } else {
            Set::empty()
        }
    }

    /// Tensor `from`, an output of `op`, is replaced by `to`: its other consumers now consume `to`.
    pub open spec fn redirected(self, op: OpId, from: TensorId, to: TensorId) -> GraphModel {
        let others = self.other_consumers(from, op);
        let left = self.consumers.remove(from);
        GraphModel {
            ops: Seq::new(
                self.ops.len(),
                |i: int|
                    if others.contains(i as usize) {
                        OpModel { inputs: substituted(self.ops[i].inputs, from, to), ..self.ops[i] }
                    } else {
                        self.ops[i]
                    },
            ),
            consumers: if others.is_empty() {
                left
            } else {
                left.insert(
                    to,
                    (if left.contains_key(to) {
                        left[to]
                    } else {
                        Set::empty()
                    }).union(others),
                )
            },
            remap: self.remap.insert(from, to),
            ..self
        }
    }

    /// The operation puts out a tensor that `t` stands for.
    pub open spec fn puts_out(self, op: OpId, t: TensorId) -> bool {
        exists|j: int|
            0 <= j < self.ops[op as int].outputs.len() && resolve(
                self.remap,
                #[trigger] self.ops[op as int].outputs[j],
            ) == t
    }

    /// The operation takes in a tensor that `t` stands for.
    pub open spec fn takes_in(self, op: OpId, t: TensorId) -> bool {
        exists|j: int|
            0 <= j < self.ops[op as int].inputs.len() && resolve(self.remap, #[trigger] self.ops[op as int].inputs[j])
                == t
    }

    /// An active operation among the first `k` puts out `t`.
    pub open spec fn produced_among(self, t: TensorId, k: int) -> bool {
        exists|op: OpId| op < k && self.active(op) && #[trigger] self.puts_out(op, t)
    }

    /// The last active operation among the first `k` that puts out `t`.
    pub open spec fn last_producer(self, t: TensorId, k: nat) -> Option<OpId>
        decreases k,
    {
        if k == 0 {
            None
        } else if self.active((k - 1) as usize) && self.puts_out((k - 1) as usize, t) {
            Some((k - 1) as usize)
        } else {
            self.last_producer(t, (k - 1) as nat)
        }
    }

    /// The active operations among the first `k` that take in `t`.
    pub open spec fn takers(self, t: TensorId, k: int) -> Set<OpId> {
        Set::new(|op: OpId| op < k && self.active(op) && self.takes_in(op, t))
    }

    /// Producers, consumers and results as the active operations give them: a result
    /// is a tensor that an active operation puts out and none takes in.
    pub open spec fn recalculated(self) -> GraphModel {
        let n = self.ops.len();
        let producers = Map::new(
            |t: TensorId| self.last_producer(t, n) is Some,
            |t: TensorId| self.last_producer(t, n)->0,
        );
        let consumers = Map::new(
            |t: TensorId| exists|op: OpId| #[trigger] self.takers(t, n as int).contains(op),
            |t: TensorId| self.takers(t, n as int),
        );
        GraphModel {
            producers,
            consumers,
            outputs: Set::new(|t: TensorId| producers.contains_key(t) && !consumers.contains_key(t)),
            ..self
        }
    }
}

impl RewriteGraph {
    /// Turns every mention of `from` among the inputs of an operation into `to`.
    fn substitute_input(&mut self, op: OpId, from: TensorId, to: TensorId)
        requires
            op < old(self).ops.len(),
        ensures
            final(self).tensors == old(self).tensors,
            final(self).ops@.len() == old(self).ops@.len(),
            forall|i: int|
                0 <= i < old(self).ops@.len() && i != op ==> #[trigger] final(self).ops@[i] == old(self).ops@[i],
            final(self).ops@[op as int]@ == (OpModel {
                inputs: substituted(old(self).ops@[op as int]@.inputs, from, to),
                ..old(self).ops@[op as int]@
            }),
            final(self).output_tensors == old(self).output_tensors,
            final(self).tensor_producers == old(self).tensor_producers,
            final(self).tensor_consumers == old(self).tensor_consumers,
            final(self).constant_tensors == old(self).constant_tensors,
            final(self).deleted_ops == old(self).deleted_ops,
            final(self).tensor_remap == old(self).tensor_remap,
    {
        let mut inputs: Vec<TensorId> = Vec::new();
        let ghost was = self.ops@[op as int].inputs@;
        let len: usize = self.ops[op].inputs.len();
        let mut i: usize = 0;
        while i < len
            invariant
                i <= len,
                op < self.ops.len(),
                len == was.len(),
                was == self.ops@[op as int].inputs@,
                inputs.len() == i,
                forall|j: int|
                    0 <= j < i ==> #[trigger] inputs@[j] == if was[j] == from {
                        to
                    } else {
                        was[j]
                    },
            decreases len - i,
        {
            let t: TensorId = self.ops[op].inputs[i];
            if t == from {
                inputs.push(to);
            } else {
                inputs.push(t);
            }
            i = i + 1;
        }
        assert(inputs@ =~= substituted(was, from, to));
        self.ops[op].inputs = inputs;
    }

    /// Replaces tensor `from`, an output of `op`, by `to`.
    pub fn redirect(&mut self, op: OpId, from: TensorId, to: TensorId)
        requires
            old(self).valid(),
        ensures
            final(self).valid(),
            final(self)@ == old(self)@.redirected(op, from, to),
    {
        broadcast use vstd::std_specs::hash::group_hash_axioms;

        let ghost s = self@;
        let ghost others = s.other_consumers(from, op);
        let ghost left = s.consumers.remove(from);
        assert(s.ops.len() == self.ops.len());
        self.tensor_remap.insert(from, to);
        let list: Vec<OpId> = match self.tensor_consumers.remove(&from) {
            None => Vec::new(),
            Some(list) => list,
        };
        let ghost goal = s.redirected(op, from, to);
        proof {
            assert(as_sets(self.tensor_consumers@) =~= left);
            assert forall|c: OpId| list@.contains(c) <==> s.consumers.contains_key(from) && s.consumers[from].contains(
                c,
            ) by {
            }
            assert forall|c: OpId| others.contains(c) <==> list@.contains(c) && c != op by {
            }
            assert forall|i: int| 0 <= i < list.len() implies (#[trigger] list@[i]) < s.ops.len() by {
                assert(list@.contains(list@[i]));
            }
            assert(list@.no_duplicates());
        }
        let mut k: usize = 0;
        while k < list.len()
            invariant
                k <= list.len(),
                list@.no_duplicates(),
                forall|i: int| 0 <= i < list.len() ==> (#[trigger] list@[i]) < s.ops.len(),
                left == s.consumers.remove(from),
                self.tensors@ == s.tensors,
                s.ops.len() <= usize::MAX,
                self.ops@.len() == s.ops.len(),
                forall|i: int|
                    0 <= i < s.ops.len() ==> (#[trigger] self.ops@[i])@ == if list@.take(k as int).contains(i as usize)
                        && i != op {
                        OpModel { inputs: substituted(s.ops[i].inputs, from, to), ..s.ops[i] }
                    } else {
                        s.ops[i]
                    },
                self.output_tensors@.to_set() == s.outputs,
                self.tensor_producers@ == s.producers,
                self.constant_tensors@ == s.constants,
                self.deleted_ops@ == s.deleted,
                self.tensor_remap@ == s.remap.insert(from, to),
                forall|t: TensorId| #[trigger]
                    self.tensor_consumers@.contains_key(t) ==> self.tensor_consumers@[t]@.no_duplicates(),
                forall|t: TensorId|
                    t != to ==> (#[trigger] as_sets(self.tensor_consumers@).contains_key(t) <==> left.contains_key(t)),
                forall|t: TensorId|
                    t != to && left.contains_key(t) ==> #[trigger] as_sets(self.tensor_consumers@)[t] == left[t],
                as_sets(self.tensor_consumers@).contains_key(to) <==> left.contains_key(to) || (exists|j: int|
                    0 <= j < k && #[trigger] list@[j] != op),
                forall|c: OpId|
                    as_sets(self.tensor_consumers@).contains_key(to) ==> (#[trigger] as_sets(
                        self.tensor_consumers@,
                    )[to].contains(c) <==> (left.contains_key(to) && left[to].contains(c)) || (list@.take(
                        k as int,
                    ).contains(c) && c != op)),
            decreases list.len() - k,
        {
            let c: OpId = list[k];
            proof {
                models::lemma_take_contains(list@, k as int);
                assert(list@[k as int] < s.ops.len());
                assert(!list@.take(k as int).contains(c)) by {
                    let head = list@.take(k as int);
                    if head.contains(c) {
                        let j = choose|j: int| 0 <= j < head.len() && head[j] == c;
                        assert(list@[j] == list@[k as int]);
                    }
                }
            }
            if c != op {
                let ghost before = as_sets(self.tensor_consumers@);
                let ghost ops_before = self.ops@;
                self.substitute_input(c, from, to);
                add_consumer(&mut self.tensor_consumers, to, c);
                proof {
                    assert(list@[k as int] != op);
                    assert(as_sets(self.tensor_consumers@) == with_consumer(before, to, c));
                }
            }
            k = k + 1;
        }
        proof {
            assert(list@.take(k as int) =~= list@);
            assert(self@.ops =~= goal.ops);
            let now = as_sets(self.tensor_consumers@);
            if others.is_empty() {
                assert(forall|j: int| 0 <= j < k ==> #[trigger] list@[j] == op) by {
                    assert forall|j: int| 0 <= j < k implies #[trigger] list@[j] == op by {
                        if list@[j] != op {
                            assert(list@.contains(list@[j]));
                            assert(others.contains(list@[j]));
                        }
                    }
                }
                assert forall|t: TensorId| #[trigger] now.contains_key(t) implies now[t] =~= left[t] by {
                    if t == to {
                        assert forall|c: OpId| now[to].contains(c) <==> left[to].contains(c) by {
                            if list@.contains(c) && c != op {
                                assert(others.contains(c));
                            }
                        }
                    }
                }
                assert(now =~= left);
            } else {
                let c = others.choose();
                assert(others.contains(c));
                let j = choose|j: int| 0 <= j < list@.len() && list@[j] == c;
                assert(list@[j] != op);
                assert(now.contains_key(to));
                assert forall|t: TensorId| #[trigger] now.contains_key(t) implies now[t] =~= goal.consumers[t] by {
                    if t == to {
                        assert forall|c: OpId| now[to].contains(c) <==> goal.consumers[to].contains(c) by {
                        }
                    }
                }
                assert(now =~= goal.consumers);
            }
            assert(self@ =~= goal);
            assert forall|t: TensorId, c: OpId|
                goal.consumers.contains_key(t) && #[trigger] goal.consumers[t].contains(c) implies c < goal.ops.len() by {
                if t == to && !others.is_empty() {
                    if others.contains(c) {
                        assert(s.consumers[from].contains(c));
                    } else {
                        assert(s.consumers[t].contains(c));
                    }
                } else {
                    assert(s.consumers[t].contains(c));
                }
            }
        }
    }
}

/// Whether an operation among the first `k` is the last producer says that it is one.
pub proof fn lemma_last_producer(s: GraphModel, t: TensorId, k: nat)
    requires
        k <= s.ops.len() <= usize::MAX,
    ensures
        match s.last_producer(t, k) {
            Some(op) => op < k && s.active(op) && s.puts_out(op, t),
            None => forall|op: OpId| op < k && s.active(op) ==> !#[trigger] s.puts_out(op, t),
        },
    decreases k,
{
    if k > 0 {
        lemma_last_producer(s, t, (k - 1) as nat);
    }
}

impl RewriteGraph {
    /// Records operation `op` as the producer of its outputs and a consumer of its inputs.
    fn record(
        &self,
        op: OpId,
        producers: &mut HashMap<TensorId, OpId>,
        consumers: &mut HashMap<TensorId, Vec<OpId>>,
    )
        requires
            op < self.ops.len(),
            self@.active(op),
            forall|t: TensorId| #[trigger]
                old(producers)@.contains_key(t) <==> self@.last_producer(t, op as nat) is Some,
            forall|t: TensorId| #[trigger]
                old(producers)@.contains_key(t) ==> Some(old(producers)@[t]) == self@.last_producer(t, op as nat),
            forall|t: TensorId| #[trigger]
                as_sets(old(consumers)@).contains_key(t) <==> exists|c: OpId| #[trigger]
                    self@.takers(t, op as int).contains(c),
            forall|t: TensorId| #[trigger]
                as_sets(old(consumers)@).contains_key(t) ==> as_sets(old(consumers)@)[t] == self@.takers(t, op as int),
            forall|t: TensorId| #[trigger] old(consumers)@.contains_key(t) ==> old(consumers)@[t]@.no_duplicates(),
        ensures
            forall|t: TensorId| #[trigger]
                final(producers)@.contains_key(t) <==> self@.last_producer(t, (op + 1) as nat) is Some,
            forall|t: TensorId| #[trigger]
                final(producers)@.contains_key(t) ==> Some(final(producers)@[t]) == self@.last_producer(
                    t,
                    (op + 1) as nat,
                ),
            forall|t: TensorId| #[trigger]
                as_sets(final(consumers)@).contains_key(t) <==> exists|c: OpId| #[trigger]
                    self@.takers(t, op + 1).contains(c),
            forall|t: TensorId| #[trigger]
                as_sets(final(consumers)@).contains_key(t) ==> as_sets(final(consumers)@)[t] == self@.takers(t, op + 1),
            forall|t: TensorId| #[trigger] final(consumers)@.contains_key(t) ==> final(consumers)@[t]@.no_duplicates(),
    {
        broadcast use vstd::std_specs::hash::group_hash_axioms;

        let ghost s = self@;
        let ghost outs = s.ops[op as int].outputs;
        let ghost ins = s.ops[op as int].inputs;
        let ghost p0 = producers@;
        let ghost c0 = as_sets(consumers@);
        let mut j: usize = 0;
        while j < self.ops[op].outputs.len()
            invariant
                j <= outs.len(),
                op < self.ops.len(),
                s == self@,
                outs == s.ops[op as int].outputs,
                forall|t: TensorId| #[trigger]
                    producers@.contains_key(t) <==> p0.contains_key(t) || exists|i: int|
                        0 <= i < j && resolve(s.remap, #[trigger] outs[i]) == t,
                forall|t: TensorId| #[trigger]
                    producers@.contains_key(t) ==> producers@[t] == if exists|i: int|
                        0 <= i < j && resolve(s.remap, #[trigger] outs[i]) == t {
                        op
                    } else {
                        p0[t]
                    },
            decreases outs.len() - j,
        {
            let t: TensorId = self.resolve_tensor(self.ops[op].outputs[j]);
            assert(t == resolve(s.remap, outs[j as int]));
            producers.insert(t, op);
            j = j + 1;
        }
        let mut i: usize = 0;
        while i < self.ops[op].inputs.len()
            invariant
                i <= ins.len(),
                op < self.ops.len(),
                s == self@,
                ins == s.ops[op as int].inputs,
                forall|t: TensorId| #[trigger] consumers@.contains_key(t) ==> consumers@[t]@.no_duplicates(),
                forall|t: TensorId| #[trigger]
                    as_sets(consumers@).contains_key(t) <==> c0.contains_key(t) || exists|k: int|
                        0 <= k < i && resolve(s.remap, #[trigger] ins[k]) == t,
                forall|t: TensorId, c: OpId|
                    as_sets(consumers@).contains_key(t) ==> (#[trigger] as_sets(consumers@)[t].contains(c) <==> (
                    c0.contains_key(t) && c0[t].contains(c)) || (c == op && exists|k: int|
                        0 <= k < i && resolve(s.remap, #[trigger] ins[k]) == t)),
            decreases ins.len() - i,
        {
            let t: TensorId = self.resolve_tensor(self.ops[op].inputs[i]);
            assert(t == resolve(s.remap, ins[i as int]));
            let ghost before = as_sets(consumers@);
            add_consumer(consumers, t, op);
            proof {
                assert(as_sets(consumers@) == with_consumer(before, t, op));
            }
            i = i + 1;
        }
        proof {
            let now = as_sets(consumers@);
            assert forall|t: TensorId| #[trigger] now.contains_key(t) <==> exists|c: OpId| #[trigger]
                s.takers(t, op + 1).contains(c) by {
                if now.contains_key(t) {
                    if c0.contains_key(t) {
                        let c = choose|c: OpId| #[trigger] s.takers(t, op as int).contains(c);
                        assert(s.takers(t, op + 1).contains(c));
                    } else {
                        assert(s.takes_in(op, t));
                        assert(s.takers(t, op + 1).contains(op));
                    }
                }
                if exists|c: OpId| #[trigger] s.takers(t, op + 1).contains(c) {
                    let c = choose|c: OpId| #[trigger] s.takers(t, op + 1).contains(c);
                    if c < op {
                        assert(s.takers(t, op as int).contains(c));
                    }
                }
            }
            assert forall|t: TensorId| #[trigger] now.contains_key(t) implies now[t] == s.takers(t, op + 1) by {
                assert forall|c: OpId| now[t].contains(c) <==> s.takers(t, op + 1).contains(c) by {
                    if c0.contains_key(t) {
                        assert(c0[t].contains(c) <==> s.takers(t, op as int).contains(c));
                    } else {
                        assert(!s.takers(t, op as int).contains(c));
                    }
                }
                assert(now[t] =~= s.takers(t, op + 1));
            }
        }
    }

    /// Works out producers, consumers and results from the active operations.
    pub fn recalculate_outputs(&mut self)
        requires
            old(self).valid(),
        ensures
            final(self).valid(),
            final(self)@ == old(self)@.recalculated(),
    {
        broadcast use vstd::std_specs::hash::group_hash_axioms;

        let ghost s = self@;
        let ghost goal = s.recalculated();
        let n: usize = self.ops.len();
        let mut producers: HashMap<TensorId, OpId> = HashMap::new();
        let mut consumers: HashMap<TensorId, Vec<OpId>> = HashMap::new();
        let mut op: usize = 0;
        while op < n
            invariant
                op <= n,
                n == self.ops.len(),
                s == self@,
                forall|t: TensorId| #[trigger]
                    producers@.contains_key(t) <==> s.last_producer(t, op as nat) is Some,
                forall|t: TensorId| #[trigger]
                    producers@.contains_key(t) ==> Some(producers@[t]) == s.last_producer(t, op as nat),
                forall|t: TensorId| #[trigger]
                    as_sets(consumers@).contains_key(t) <==> exists|c: OpId| #[trigger]
                        s.takers(t, op as int).contains(c),
                forall|t: TensorId| #[trigger]
                    as_sets(consumers@).contains_key(t) ==> as_sets(consumers@)[t] == s.takers(t, op as int),
                forall|t: TensorId| #[trigger] consumers@.contains_key(t) ==> consumers@[t]@.no_duplicates(),
            decreases n - op,
        {
            if self.is_active(op) {
                self.record(op, &mut producers, &mut consumers);
            } else {
                let ghost after = op + 1;
                assert forall|t: TensorId|
                    #![trigger s.takers(t, op as int)]
                    #![trigger s.takers(t, after)]
                    s.takers(t, after) == s.takers(t, op as int) by {
                    assert(s.takers(t, after) =~= s.takers(t, op as int));
                }
            }
            op = op + 1;
        }
        let mut outputs: Vec<TensorId> = Vec::new();
        let mut k: usize = 0;
        while k < n
            invariant
                k <= n,
                n == self.ops.len(),
                s == self@,
                forall|t: TensorId| #[trigger]
                    as_sets(consumers@).contains_key(t) <==> exists|c: OpId| #[trigger]
                        s.takers(t, n as int).contains(c),
                forall|t: TensorId| #[trigger]
                    outputs@.contains(t) <==> !as_sets(consumers@).contains_key(t) && s.produced_among(t, k as int),
            decreases n - k,
        {
            if self.is_active(k) {
                let ghost outs = s.ops[k as int].outputs;
                let ghost before = outputs@;
                let mut j: usize = 0;
                while j < self.ops[k].outputs.len()
                    invariant
                        j <= outs.len(),
                        k < self.ops.len(),
                        s == self@,
                        outs == s.ops[k as int].outputs,
                        forall|t: TensorId| #[trigger]
                            outputs@.contains(t) <==> before.contains(t) || (!as_sets(consumers@).contains_key(t)
                                && exists|i: int| 0 <= i < j && resolve(s.remap, #[trigger] outs[i]) == t),
                    decreases outs.len() - j,
                {
                    let t: TensorId = self.resolve_tensor(self.ops[k].outputs[j]);
                    assert(t == resolve(s.remap, outs[j as int]));
                    assert(as_sets(consumers@).contains_key(t) <==> consumers@.contains_key(t));
                    if !consumers.contains_key(&t) {
                        proof {
                            ids::lemma_push_contains(outputs@, t);
                        }
                        outputs.push(t);
                    }
                    j = j + 1;
                }
                proof {
                    assert forall|t: TensorId| #[trigger] outputs@.contains(t) <==> !as_sets(consumers@).contains_key(t)
                        && s.produced_among(t, k + 1) by {
                        if before.contains(t) {
                            let x = choose|x: OpId| x < k && s.active(x) && #[trigger] s.puts_out(x, t);
                            assert(x < k + 1 && s.active(x) && s.puts_out(x, t));
                        }
                        if exists|i: int| 0 <= i < outs.len() && resolve(s.remap, #[trigger] outs[i]) == t {
                            assert(s.puts_out(k, t));
                        }
                        if s.produced_among(t, k + 1) {
                            let x = choose|x: OpId| x < k + 1 && s.active(x) && #[trigger] s.puts_out(x, t);
                            if x == k {
                                let i = choose|i: int|
                                    0 <= i < s.ops[k as int].outputs.len() && resolve(
                                        s.remap,
                                        #[trigger] s.ops[k as int].outputs[i],
                                    ) == t;
                                assert(resolve(s.remap, outs[i]) == t);
                            }
                        }
                    }
                }
            } else {
                assert forall|t: TensorId| s.produced_among(t, k + 1) <==> #[trigger] s.produced_among(t, k as int) by {
                    if s.produced_among(t, k + 1) {
                        let x = choose|x: OpId| x < k + 1 && s.active(x) && #[trigger] s.puts_out(x, t);
                        assert(x < k && s.active(x) && s.puts_out(x, t));
                    }
                    if s.produced_among(t, k as int) {
                        let x = choose|x: OpId| x < k && s.active(x) && #[trigger] s.puts_out(x, t);
                        assert(x < k + 1 && s.active(x) && s.puts_out(x, t));
                    }
                }
            }
            k = k + 1;
        }
        self.output_tensors = outputs;
        self.tensor_producers = producers;
        self.tensor_consumers = consumers;
        proof {
            assert(self@.ops =~= goal.ops);
            assert forall|t: TensorId| #[trigger] goal.producers.contains_key(t) implies goal.producers[t]
                < goal.ops.len() by {
                lemma_last_producer(s, t, n as nat);
            }
            assert(self@.producers =~= goal.producers);
            assert(self@.consumers =~= goal.consumers);
            assert forall|t: TensorId| self@.outputs.contains(t) <==> goal.outputs.contains(t) by {
                lemma_last_producer(s, t, n as nat);
                if goal.producers.contains_key(t) {
                    let x = s.last_producer(t, n as nat)->0;
                    assert(x < n && s.active(x) && s.puts_out(x, t));
                }
            }
            assert(self@.outputs =~= goal.outputs);
            assert(self@ =~= goal);
        }
    }
}

} // verus!
