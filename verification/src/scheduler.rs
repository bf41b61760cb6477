//! The plain schedule: all operations in one group.
use std::collections::HashSet;
use vstd::prelude::*;
use crate::candidates;
use crate::cost;
use crate::dataflow;
use crate::graph;
use crate::memory;
use crate::models;
use crate::models::{Granularity, GranularityOutput, OpId, Problem, Solution, SubgraphOutput, TensorId, TensorMeta};
use crate::partition;

verus! {

/// How far scheduling has come.
pub struct SchedulerState<'a> {
    pub problem: &'a Problem,
    pub tensor_meta: &'a [TensorMeta],
    /// The operations that are not scheduled yet.
    pub unscheduled: HashSet<OpId>,
}

/// The operation is ready: whatever produces its inputs is scheduled.
pub open spec fn is_ready(p: Problem, meta: Seq<TensorMeta>, unscheduled: Set<OpId>, op: OpId) -> bool {
    forall|j: int|
        0 <= j < p.ops@[op as int].inputs@.len() ==> {
            let m = meta[(#[trigger] p.ops@[op as int].inputs@[j]) as int];
            m.producer is Some ==> !unscheduled.contains(m.producer->0)
        }
}

/// The operations below `k` that are not scheduled yet.
pub open spec fn still_open(unscheduled: Set<OpId>, k: nat) -> Seq<OpId>
    decreases k,
{
    if k == 0 {
        Seq::empty()
    } else {
        let rest = still_open(unscheduled, (k - 1) as nat);
        if unscheduled.contains((k - 1) as usize) {
            rest.push((k - 1) as usize)
        } else {
            rest
        }
    }
}

/// The operations below `k` that are not scheduled yet and ready.
pub open spec fn ready_ops(p: Problem, meta: Seq<TensorMeta>, unscheduled: Set<OpId>, k: nat) -> Seq<OpId>
    decreases k,
{
    if k == 0 {
        Seq::empty()
    } else {
        let rest = ready_ops(p, meta, unscheduled, (k - 1) as nat);
        let op = (k - 1) as usize;
        if unscheduled.contains(op) && is_ready(p, meta, unscheduled, op) {
            rest.push(op)
        } else {
            rest
        }
    }
}

impl<'a> SchedulerState<'a> {
    /// Nothing is scheduled yet.
    pub fn new(problem: &'a Problem, tensor_meta: &'a [TensorMeta]) -> (state: Self)
        ensures
            state.problem == problem,
            state.tensor_meta@ == tensor_meta@,
            state.unscheduled@ == partition::all_ops(problem.ops@.len()).to_set(),
    {
        broadcast use vstd::std_specs::hash::group_hash_axioms;

        let ops: Vec<OpId> = partition::list_all_ops(problem.ops.len());
        let unscheduled: HashSet<OpId> = crate::ids::set_of(ops.as_slice());
        assert(unscheduled@ =~= ops@.to_set());
        SchedulerState { problem, tensor_meta, unscheduled }
    }

    /// The operations that are not scheduled yet, in order.
    pub fn open_ops(&self) -> (ops: Vec<OpId>)
        ensures
            ops@ == still_open(self.unscheduled@, self.problem.ops@.len()),
    {
        broadcast use vstd::std_specs::hash::group_hash_axioms;

        let mut ops: Vec<OpId> = Vec::new();
        let mut op: usize = 0;
        while op < self.problem.ops.len()
            invariant
                op <= self.problem.ops.len(),
                ops@ == still_open(self.unscheduled@, op as nat),
            decreases self.problem.ops.len() - op,
        {
            if self.unscheduled.contains(&op) {
                ops.push(op);
            }
            op = op + 1;
        }
        ops
    }

    /// The operations that could run next, in order.
    pub fn get_ready_ops(&self) -> (ops: Vec<OpId>)
        requires
            forall|op: int, j: int|
                0 <= op < self.problem.ops@.len() && 0 <= j < self.problem.ops@[op].inputs@.len() ==> (
                #[trigger] self.problem.ops@[op].inputs@[j]) < self.tensor_meta@.len(),
        ensures
            ops@ == ready_ops(*self.problem, self.tensor_meta@, self.unscheduled@, self.problem.ops@.len()),
    {
        broadcast use vstd::std_specs::hash::group_hash_axioms;

        let ghost p = *self.problem;
        let ghost meta = self.tensor_meta@;
        let mut ops: Vec<OpId> = Vec::new();
        let mut op: usize = 0;
        while op < self.problem.ops.len()
            invariant
                op <= p.ops@.len(),
                p == *self.problem,
                meta == self.tensor_meta@,
                forall|op: int, j: int|
                    0 <= op < p.ops@.len() && 0 <= j < p.ops@[op].inputs@.len() ==> (#[trigger] p.ops@[op].inputs@[j])
                        < meta.len(),
                ops@ == ready_ops(p, meta, self.unscheduled@, op as nat),
            decreases p.ops@.len() - op,
        {
            if self.unscheduled.contains(&op) && self.check_ready(op) {
                ops.push(op);
            }
            op = op + 1;
        }
        ops
    }

    fn check_ready(&self, op: OpId) -> (yes: bool)
        requires
            op < self.problem.ops@.len(),
            forall|j: int|
                0 <= j < self.problem.ops@[op as int].inputs@.len() ==> (
                #[trigger] self.problem.ops@[op as int].inputs@[j]) < self.tensor_meta@.len(),
        ensures
            yes == is_ready(*self.problem, self.tensor_meta@, self.unscheduled@, op),
    {
        broadcast use vstd::std_specs::hash::group_hash_axioms;

        let ghost ins = self.problem.ops@[op as int].inputs@;
        let mut j: usize = 0;
        while j < self.problem.ops[op].inputs.len()
            invariant
                op < self.problem.ops@.len(),
                ins == self.problem.ops@[op as int].inputs@,
                j <= ins.len(),
                forall|j: int| 0 <= j < ins.len() ==> (#[trigger] ins[j]) < self.tensor_meta@.len(),
                forall|x: int|
                    0 <= x < j ==> {
                        let m = self.tensor_meta@[(#[trigger] ins[x]) as int];
                        m.producer is Some ==> !self.unscheduled@.contains(m.producer->0)
                    },
            decreases ins.len() - j,
        {
            let t: TensorId = self.problem.ops[op].inputs[j];
            assert(ins[j as int] < self.tensor_meta@.len());
            if let Some(producer) = self.tensor_meta[t].producer {
                if self.unscheduled.contains(&producer) {
                    assert(self.problem.ops@[op as int].inputs@[j as int] == t);
                    return false;
                }
            }
            j = j + 1;
        }
        true
    }

    /// Notes that the operation is scheduled.
    pub fn mark_scheduled(&mut self, op_id: OpId)
        ensures
            final(self).unscheduled@ == old(self).unscheduled@.remove(op_id),
            final(self).problem == old(self).problem,
            final(self).tensor_meta == old(self).tensor_meta,
    {
        broadcast use vstd::std_specs::hash::group_hash_axioms;

        self.unscheduled.remove(&op_id);
    }
}

/// Counts the outputs of the group that are not needed outside it, once for each mention.
pub fn count_intermediate_tensors(ops: &[OpId], problem: &Problem, tensor_meta: &[TensorMeta]) -> (count: usize)
    requires
        forall|i: int| 0 <= i < ops@.len() ==> (#[trigger] ops@[i]) < problem.ops@.len(),
    ensures
        ({
            let outs = candidates::outputs(*problem, ops@);
            count == cost::ephemeral(tensor_meta@, ops@, outs, outs.len())
        }),
{
    let outs: Vec<TensorId> = memory::gather_outputs(ops, problem);
    let (_, inner): (usize, usize) = cost::count_outputs(&outs, ops, tensor_meta);
    inner
}

/// The solution puts all operations into one group, which keeps nothing and runs at the
/// granularity with which it fits in fast memory, or at the native one if it fits with
/// none; without operations there is no group.
pub open spec fn is_schedule(solution: Solution, p: Problem, meta: Seq<TensorMeta>) -> bool {
    if p.ops@.len() == 0 {
        solution.subgraphs@.len() == 0
    } else {
        let ops = partition::all_ops(p.ops@.len());
        &&& solution.subgraphs@.len() == 1
        &&& solution.subgraphs@[0].ops@ == ops
        &&& solution.subgraphs@[0].tensors_to_retain@.len() == 0
        &&& solution.subgraphs@[0].granularity == models::written(memory::group_granularity(ops, p, meta))
        &&& solution.subgraphs@[0].traversal_order is None
    }
}

/// Puts all operations into one group.
pub fn schedule(problem: &Problem) -> (solution: Solution)
    requires
        models::ids_below(problem.ops@, problem.tensors@.len()),
    ensures
        forall|meta: Seq<TensorMeta>| #[trigger] problem.has_meta(meta) ==> is_schedule(solution, *problem, meta),
{
    let tensor_meta: Vec<TensorMeta> = problem.build_tensor_meta();
    let state: SchedulerState = SchedulerState::new(problem, tensor_meta.as_slice());
    let mut subgraphs: Vec<SubgraphOutput> = Vec::new();
    let ops: Vec<OpId> = state.open_ops();
    proof {
        assert(problem.ops@.len() == problem.ops.len());
        lemma_all_open(problem.ops@.len(), problem.ops@.len());
        memory::lemma_ids_known(ops@, *problem, tensor_meta@);
    }
    if ops.len() > 0 {
        let granularity: Granularity = memory::find_group_granularity(
            ops.as_slice(),
            problem,
            tensor_meta.as_slice(),
        );
        proof {
            assert forall|meta: Seq<TensorMeta>| #[trigger] problem.has_meta(meta) implies granularity
                == memory::group_granularity(ops@, *problem, meta) by {
                memory::lemma_same_granularity(ops@, *problem, tensor_meta@, meta);
            }
        }
        subgraphs.push(
            SubgraphOutput {
                ops,
                tensors_to_retain: Vec::new(),
                granularity: GranularityOutput::from(&granularity),
                traversal_order: None,
            },
        );
    }
    Solution { subgraphs }
}

/// At the start all operations are open.
proof fn lemma_all_open(n: nat, k: nat)
    requires
        k <= n,
        n <= usize::MAX,
    ensures
        still_open(partition::all_ops(n).to_set(), k) == partition::all_ops(k),
    decreases k,
{
    if k > 0 {
        lemma_all_open(n, (k - 1) as nat);
        assert(partition::all_ops(n)[k - 1] == (k - 1) as usize);
        assert(partition::all_ops(n).contains((k - 1) as usize));
        assert(partition::all_ops(k) =~= partition::all_ops((k - 1) as nat).push((k - 1) as usize));
    } else {
        assert(partition::all_ops(0) =~= Seq::<OpId>::empty());
    }
}

/// A schedule holds every operation, each once.
pub proof fn schedules_hold_every_operation(solution: Solution, p: Problem, meta: Seq<TensorMeta>, op: usize)
    requires
        is_schedule(solution, p, meta),
        op < p.ops@.len(),
    ensures
        solution.subgraphs@.len() == 1,
        solution.subgraphs@[0].ops@.no_duplicates(),
        solution.subgraphs@[0].ops@.contains(op),
{
    let ops = partition::all_ops(p.ops@.len());
    assert(p.ops@.len() == p.ops.len());
    assert(ops[op as int] == op);
}

/// The group of a schedule fits in fast memory with the granularity that it carries, if it
/// fits with any of those to try. If it does not, it carries the native one.
pub proof fn schedules_fit_in_fast_memory(solution: Solution, p: Problem, meta: Seq<TensorMeta>)
    requires
        is_schedule(solution, p, meta),
        p.ops@.len() > 0,
    ensures
        ({
            let sg = solution.subgraphs@[0];
            let list = memory::attempts(p.native_granularity, memory::has_matmul(sg.ops@, p.ops@));
            &&& (exists|j: int| 0 <= j < list.len() && memory::fits_memory(sg.ops@, p, #[trigger] list[j], meta))
                ==> memory::fits_memory(sg.ops@, p, models::read_back(sg.granularity), meta)
            &&& !memory::fits_memory(sg.ops@, p, models::read_back(sg.granularity), meta) ==> sg.granularity
                == models::written(p.native_granularity)
        }),
{
    let sg = solution.subgraphs@[0];
    memory::group_granularity_fits(sg.ops@, p, meta);
    memory::lemma_unsplit(
        sg.ops@,
        p,
        memory::group_granularity(sg.ops@, p, meta),
        models::read_back(sg.granularity),
        meta,
    );
}

/// Leaves the schedule as it is.
pub fn optimize_schedule(initial: Solution, _problem: &Problem) -> (solution: Solution)
    ensures
        solution == initial,
{
    initial
}

/// In a graph without cycles some open operation is always ready, as long as there is one.
pub proof fn something_is_always_ready(p: Problem, meta: Seq<TensorMeta>, unscheduled: Set<OpId>, op: OpId)
    requires
        p.has_meta(meta),
        graph::acyclic(dataflow::successors(p.ops@, meta)),
        forall|i: int, j: int|
            0 <= i < p.ops@.len() && 0 <= j < p.ops@[i].inputs@.len() ==> (#[trigger] p.ops@[i].inputs@[j])
                < p.tensors@.len(),
        op < p.ops@.len(),
        unscheduled.contains(op),
    ensures
        exists|next: OpId|
            next < p.ops@.len() && unscheduled.contains(next) && #[trigger] is_ready(p, meta, unscheduled, next),
{
    let rank = choose|rank: Seq<nat>| graph::ranks(dataflow::successors(p.ops@, meta), rank);
    lemma_ready_below(p, meta, unscheduled, op, rank);
}

/// Going back along open producers ends at an operation that is ready.
proof fn lemma_ready_below(p: Problem, meta: Seq<TensorMeta>, unscheduled: Set<OpId>, op: OpId, rank: Seq<nat>)
    requires
        p.has_meta(meta),
        graph::ranks(dataflow::successors(p.ops@, meta), rank),
        forall|i: int, j: int|
            0 <= i < p.ops@.len() && 0 <= j < p.ops@[i].inputs@.len() ==> (#[trigger] p.ops@[i].inputs@[j])
                < p.tensors@.len(),
        op < p.ops@.len(),
        unscheduled.contains(op),
    ensures
        exists|next: OpId|
            next < p.ops@.len() && unscheduled.contains(next) && #[trigger] is_ready(p, meta, unscheduled, next),
    decreases rank[op as int],
{
    if !is_ready(p, meta, unscheduled, op) {
        let ops = p.ops@;
        let ins = ops[op as int].inputs@;
        let j = choose|j: int|
            0 <= j < ins.len() && {
                let m = meta[(#[trigger] ins[j]) as int];
                m.producer is Some && unscheduled.contains(m.producer->0)
            };
        let t = ins[j];
        let from = meta[t as int].producer->0;
        assert(t < p.tensors@.len());
        assert(meta[t as int].describes(ops, t));
        assert(ops.len() == p.ops.len());
        models::meta_matches_ops(ops, t, ops.len(), op);
        let outs = ops[from as int].outputs@;
        let k = choose|k: int| 0 <= k < outs.len() && outs[k] == t;
        assert(ins.contains(t));
        assert(meta[outs[k] as int].consumers@.contains(op));
        assert(dataflow::takes_one_of(outs, meta, outs.len() as int, op));
        dataflow::successors_follow_tensors(ops, meta);
        assert(graph::edge(dataflow::successors(ops, meta), from, op));
        lemma_ready_below(p, meta, unscheduled, from, rank);
    }
}

} // verus!
