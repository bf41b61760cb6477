//! Working sets: what a group of operations keeps in fast memory while it runs.
use std::collections::HashSet;
use vstd::prelude::*;
use crate::{arith, dataflow, greedy, ids, models, sorting};
use crate::sorting::SortKey;
use crate::models::{FastMemoryCapacity, Granularity, Op, OpId, OpType, Problem, Tensor, TensorId, TensorMeta};

verus! {

/// The fast memory that a group of operations takes.
#[derive(Debug, Clone)]
pub struct WorkingSet {
    pub total_size: i64,
    /// Slices of tensors that come from outside.
    pub input_slices: Vec<(TensorId, i64)>,
    /// Slices of tensors that are needed outside.
    pub output_slices: Vec<(TensorId, i64)>,
    /// Slices of tensors that live only inside the group. They take no fast memory.
    pub intermediate_slices: Vec<(TensorId, i64)>,
}

impl Default for WorkingSet {
    fn default() -> (ws: Self)
        ensures
            ws.total_size == 0,
            ws.input_slices@.len() == 0,
            ws.output_slices@.len() == 0,
            ws.intermediate_slices@.len() == 0,
    {
        WorkingSet {
            total_size: 0,
            input_slices: Vec::new(),
            output_slices: Vec::new(),
            intermediate_slices: Vec::new(),
        }
    }
}

impl WorkingSet {
    /// Whether the working set fits in so much memory.
    pub fn fits_in(&self, capacity: FastMemoryCapacity) -> (yes: bool)
        ensures
            yes == (self.total_size <= capacity),
    {
        self.total_size <= capacity
    }
}

/// The tensor is produced outside the group, or not at all.
pub open spec fn from_outside(group: Seq<OpId>, m: TensorMeta) -> bool {
    m.producer matches Some(p) ==> !group.contains(p)
}

/// Every consumer of the tensor is in the group.
pub open spec fn consumed_inside(group: Seq<OpId>, m: TensorMeta) -> bool {
    forall|i: int| 0 <= i < m.consumers@.len() ==> group.contains(#[trigger] m.consumers@[i])
}

/// The tensor is a result of the whole graph, or consumed outside the group.
pub open spec fn needed_outside(group: Seq<OpId>, m: TensorMeta) -> bool {
    m.is_output || !consumed_inside(group, m)
}

/// The inputs of the first `k` operations of the group, one after the other.
pub open spec fn inputs_of(group: Seq<OpId>, ops: Seq<Op>, k: nat) -> Seq<TensorId>
    decreases k,
{
    if k == 0 {
        Seq::empty()
    } else {
        inputs_of(group, ops, (k - 1) as nat) + ops[group[k - 1] as int].inputs@
    }
}

/// The outputs of the first `k` operations of the group, one after the other.
pub open spec fn outputs_of(group: Seq<OpId>, ops: Seq<Op>, k: nat) -> Seq<TensorId>
    decreases k,
{
    if k == 0 {
        Seq::empty()
    } else {
        outputs_of(group, ops, (k - 1) as nat) + ops[group[k - 1] as int].outputs@
    }
}

/// The tensors that the group takes in from outside, in order of first mention.
pub open spec fn external_inputs(group: Seq<OpId>, p: Problem, meta: Seq<TensorMeta>) -> Seq<TensorId> {
    let all = inputs_of(group, p.ops@, group.len());
    ids::first_mentions(all, |t: usize| t < meta.len() && from_outside(group, meta[t as int]), all.len())
}

/// The tensors that the group puts out and that are needed outside, in order of first mention.
pub open spec fn external_outputs(group: Seq<OpId>, p: Problem, meta: Seq<TensorMeta>) -> Seq<TensorId> {
    let all = outputs_of(group, p.ops@, group.len());
    ids::first_mentions(all, |t: usize| t < meta.len() && needed_outside(group, meta[t as int]), all.len())
}

/// The tensors that live only inside the group, in order of first mention.
pub open spec fn intermediates(group: Seq<OpId>, p: Problem, meta: Seq<TensorMeta>) -> Seq<TensorId> {
    let all = outputs_of(group, p.ops@, group.len());
    ids::first_mentions(all, |t: usize| t < meta.len() && !needed_outside(group, meta[t as int]), all.len())
}

/// A matrix product of the group takes in tensor `t`.
pub open spec fn feeds_matmul(group: Seq<OpId>, ops: Seq<Op>, t: TensorId) -> bool {
    exists|i: int|
        0 <= i < group.len() && (#[trigger] ops[group[i] as int]).op_type == OpType::MatMul && ops[group[i] as int].inputs@.contains(t)
}

/// The slice of a tensor that one tile loads. A split reduction loads a part of the
/// inputs of a matrix product at a time, but at least one unit.
pub open spec fn slice_of(group: Seq<OpId>, p: Problem, g: Granularity, t: TensorId) -> int {
    let area = p.tensors@[t as int].tile_area(g);
    if g.depth > 1 && feeds_matmul(group, p.ops@, t) {
        arith::greatest(arith::quotient(area, g.depth as int), 1)
    } else {
        area
    }
}

/// The accumulators of a split reduction: one output tile for each output that a
/// matrix product among the first `k` operations hands to the outside.
pub open spec fn accumulators(
    group: Seq<OpId>,
    p: Problem,
    g: Granularity,
    meta: Seq<TensorMeta>,
    k: nat,
) -> Seq<int>
    decreases k,
{
    if k == 0 || g.depth <= 1 {
        Seq::empty()
    } else {
        let rest = accumulators(group, p, g, meta, (k - 1) as nat);
        let op = p.ops@[group[k - 1] as int];
        if op.op_type == OpType::MatMul {
            rest + held_outputs(group, p, g, meta, op.outputs@, op.outputs@.len())
        } else {
            rest
        }
    }
}

/// The tiles of those among the first `k` outputs that are needed outside.
pub open spec fn held_outputs(
    group: Seq<OpId>,
    p: Problem,
    g: Granularity,
    meta: Seq<TensorMeta>,
    outputs: Seq<TensorId>,
    k: nat,
) -> Seq<int>
    decreases k,
{
    if k == 0 {
        Seq::empty()
    } else {
        let rest = held_outputs(group, p, g, meta, outputs, (k - 1) as nat);
        let t = outputs[k - 1];
        if needed_outside(group, meta[t as int]) {
            rest.push(p.tensors@[t as int].tile_area(g))
        } else {
            rest
        }
    }
}

/// The slice sizes of the listed tensors.
pub open spec fn slices(group: Seq<OpId>, p: Problem, g: Granularity, listed: Seq<TensorId>) -> Seq<int> {
    Seq::new(listed.len(), |i: int| slice_of(group, p, g, listed[i]))
}

/// The tile sizes of the listed tensors.
pub open spec fn whole_slices(p: Problem, g: Granularity, listed: Seq<TensorId>) -> Seq<int> {
    Seq::new(listed.len(), |i: int| p.tensors@[listed[i] as int].tile_area(g))
}

/// Everything that counts toward the fast memory of the group: what comes in, what
/// goes out, and accumulators. Intermediates do not count.
pub open spec fn charges(group: Seq<OpId>, p: Problem, g: Granularity, meta: Seq<TensorMeta>) -> Seq<int> {
    slices(group, p, g, external_inputs(group, p, meta)) + whole_slices(p, g, external_outputs(group, p, meta))
        + accumulators(group, p, g, meta, group.len())
}

/// The fast memory that the group takes.
pub open spec fn footprint(group: Seq<OpId>, p: Problem, g: Granularity, meta: Seq<TensorMeta>) -> int {
    arith::sum(charges(group, p, g, meta))
}

/// The ids that the group leads to exist.
pub open spec fn ids_in_range(group: Seq<OpId>, p: Problem, meta: Seq<TensorMeta>) -> bool {
    &&& forall|i: int| 0 <= i < group.len() ==> (#[trigger] group[i]) < p.ops@.len()
    &&& forall|i: int, j: int|
        0 <= i < group.len() && 0 <= j < p.ops@[group[i] as int].inputs@.len() ==> {
            let t = #[trigger] p.ops@[group[i] as int].inputs@[j];
            t < meta.len() && (from_outside(group, meta[t as int]) ==> t < p.tensors@.len())
        }
    &&& forall|i: int, j: int|
        0 <= i < group.len() && 0 <= j < p.ops@[group[i] as int].outputs@.len() ==> {
            let t = #[trigger] p.ops@[group[i] as int].outputs@[j];
            t < meta.len() && t < p.tensors@.len()
        }
}

/// All tensors that the operations take in and put out exist and are described.
pub open spec fn ids_known(p: Problem, meta: Seq<TensorMeta>) -> bool {
    models::ids_below(p.ops@, meta.len()) && models::ids_below(p.ops@, p.tensors@.len())
}

/// Where all tensors are known, so are those of any group.
pub proof fn lemma_ids_known(group: Seq<OpId>, p: Problem, meta: Seq<TensorMeta>)
    requires
        ids_known(p, meta),
        forall|i: int| 0 <= i < group.len() ==> (#[trigger] group[i]) < p.ops@.len(),
    ensures
        ids_in_range(group, p, meta),
{
}

/// The sizes that the footprint adds up, and the footprint itself, are `i64` numbers.
pub open spec fn footprint_fits(group: Seq<OpId>, p: Problem, g: Granularity, meta: Seq<TensorMeta>) -> bool {
    &&& forall|t: TensorId|
        (#[trigger] external_inputs(group, p, meta).contains(t)) ==> arith::fits(p.tensors@[t as int].tile_area(g))
    &&& forall|t: TensorId|
        (#[trigger] outputs_of(group, p.ops@, group.len()).contains(t)) ==> arith::fits(
            p.tensors@[t as int].tile_area(g),
        )
    &&& arith::fits(footprint(group, p, g, meta))
}

/// Lists the inputs of the operations of the group.
pub fn gather_inputs(group: &[OpId], problem: &Problem) -> (all: Vec<TensorId>)
    requires
        forall|i: int| 0 <= i < group@.len() ==> (#[trigger] group@[i]) < problem.ops@.len(),
    ensures
        all@ == inputs_of(group@, problem.ops@, group@.len()),
{
    let mut all: Vec<TensorId> = Vec::new();
    let mut i: usize = 0;
    while i < group.len()
        invariant
            i <= group@.len(),
            forall|i: int| 0 <= i < group@.len() ==> (#[trigger] group@[i]) < problem.ops@.len(),
            all@ == inputs_of(group@, problem.ops@, i as nat),
        decreases group@.len() - i,
    {
        let op_id: usize = group[i];
        let mut more: Vec<TensorId> = crate::models::copy_ids(problem.ops[op_id].inputs.as_slice());
        all.append(&mut more);
        i = i + 1;
    }
    all
}

/// Lists the outputs of the operations of the group.
pub fn gather_outputs(group: &[OpId], problem: &Problem) -> (all: Vec<TensorId>)
    requires
        forall|i: int| 0 <= i < group@.len() ==> (#[trigger] group@[i]) < problem.ops@.len(),
    ensures
        all@ == outputs_of(group@, problem.ops@, group@.len()),
{
    let mut all: Vec<TensorId> = Vec::new();
    let mut i: usize = 0;
    while i < group.len()
        invariant
            i <= group@.len(),
            forall|i: int| 0 <= i < group@.len() ==> (#[trigger] group@[i]) < problem.ops@.len(),
            all@ == outputs_of(group@, problem.ops@, i as nat),
        decreases group@.len() - i,
    {
        let op_id: usize = group[i];
        let mut more: Vec<TensorId> = crate::models::copy_ids(problem.ops[op_id].outputs.as_slice());
        all.append(&mut more);
        i = i + 1;
    }
    all
}

/// Where an input of the group comes from.
pub proof fn lemma_inputs_of(group: Seq<OpId>, ops: Seq<Op>, k: nat)
    requires
        k <= group.len(),
    ensures
        forall|t: TensorId| #[trigger]
            inputs_of(group, ops, k).contains(t) ==> exists|i: int, j: int|
                0 <= i < k && 0 <= j < ops[group[i] as int].inputs@.len() && #[trigger] ops[group[i] as int].inputs@[j]
                    == t,
        forall|i: int, j: int|
            0 <= i < k && 0 <= j < ops[group[i] as int].inputs@.len() ==> inputs_of(group, ops, k).contains(
                #[trigger] ops[group[i] as int].inputs@[j],
            ),
    decreases k,
{
    if k > 0 {
        let rest = inputs_of(group, ops, (k - 1) as nat);
        let more = ops[group[k - 1] as int].inputs@;
        let all = inputs_of(group, ops, k);
        lemma_inputs_of(group, ops, (k - 1) as nat);
        assert forall|t: TensorId| #[trigger] all.contains(t) implies exists|i: int, j: int|
            0 <= i < k && 0 <= j < ops[group[i] as int].inputs@.len() && #[trigger] ops[group[i] as int].inputs@[j]
                == t by {
            let a = choose|a: int| 0 <= a < all.len() && all[a] == t;
            if a < rest.len() {
                assert(rest[a] == t);
                assert(rest.contains(t));
            } else {
                assert(ops[group[k - 1] as int].inputs@[a - rest.len()] == t);
            }
        }
        assert forall|i: int, j: int| 0 <= i < k && 0 <= j < ops[group[i] as int].inputs@.len() implies all.contains(
            #[trigger] ops[group[i] as int].inputs@[j],
        ) by {
            let t = ops[group[i] as int].inputs@[j];
            if i < k - 1 {
                assert(rest.contains(t));
                let a = choose|a: int| 0 <= a < rest.len() && rest[a] == t;
                assert(all[a] == t);
            } else {
                assert(all[rest.len() + j] == t);
            }
        }
    }
}

/// Where an output of the group comes from.
pub proof fn lemma_outputs_of(group: Seq<OpId>, ops: Seq<Op>, k: nat)
    requires
        k <= group.len(),
    ensures
        forall|t: TensorId| #[trigger]
            outputs_of(group, ops, k).contains(t) ==> exists|i: int, j: int|
                0 <= i < k && 0 <= j < ops[group[i] as int].outputs@.len() && #[trigger] ops[group[i] as int].outputs@[j]
                    == t,
        forall|i: int, j: int|
            0 <= i < k && 0 <= j < ops[group[i] as int].outputs@.len() ==> outputs_of(group, ops, k).contains(
                #[trigger] ops[group[i] as int].outputs@[j],
            ),
    decreases k,
{
    if k > 0 {
        let rest = outputs_of(group, ops, (k - 1) as nat);
        let more = ops[group[k - 1] as int].outputs@;
        let all = outputs_of(group, ops, k);
        lemma_outputs_of(group, ops, (k - 1) as nat);
        assert forall|t: TensorId| #[trigger] all.contains(t) implies exists|i: int, j: int|
            0 <= i < k && 0 <= j < ops[group[i] as int].outputs@.len() && #[trigger] ops[group[i] as int].outputs@[j]
                == t by {
            let a = choose|a: int| 0 <= a < all.len() && all[a] == t;
            if a < rest.len() {
                assert(rest[a] == t);
                assert(rest.contains(t));
            } else {
                assert(ops[group[k - 1] as int].outputs@[a - rest.len()] == t);
            }
        }
        assert forall|i: int, j: int| 0 <= i < k && 0 <= j < ops[group[i] as int].outputs@.len() implies all.contains(
            #[trigger] ops[group[i] as int].outputs@[j],
        ) by {
            let t = ops[group[i] as int].outputs@[j];
            if i < k - 1 {
                assert(rest.contains(t));
                let a = choose|a: int| 0 <= a < rest.len() && rest[a] == t;
                assert(all[a] == t);
            } else {
                assert(all[rest.len() + j] == t);
            }
        }
    }
}

/// Whether the tensor comes from outside the group.
pub(crate) fn comes_from_outside(group: &HashSet<OpId>, m: &TensorMeta, Ghost(listed): Ghost<Seq<OpId>>) -> (yes: bool)
    requires
        forall|x: usize| #[trigger] group@.contains(x) <==> listed.contains(x),
    ensures
        yes == from_outside(listed, *m),
{
    broadcast use vstd::std_specs::hash::group_hash_axioms;

    match m.producer {
        None => true,
        Some(p) => !group.contains(&p),
    }
}

/// Whether the tensor is needed outside the group.
pub(crate) fn is_needed_outside(group: &HashSet<OpId>, m: &TensorMeta, Ghost(listed): Ghost<Seq<OpId>>) -> (yes: bool)
    requires
        forall|x: usize| #[trigger] group@.contains(x) <==> listed.contains(x),
    ensures
        yes == needed_outside(listed, *m),
{
    m.is_output || !ids::all_in(m.consumers.as_slice(), group)
}

/// Flags the listed tensors that come from outside. Ids without a description are passed over.
fn flag_outside(
    all: &Vec<TensorId>,
    group: &HashSet<OpId>,
    meta: &[TensorMeta],
    Ghost(listed): Ghost<Seq<OpId>>,
) -> (flags: Vec<bool>)
    requires
        forall|x: usize| #[trigger] group@.contains(x) <==> listed.contains(x),
    ensures
        flags.len() == all.len(),
        forall|i: int|
            0 <= i < all.len() ==> #[trigger] flags@[i] == (all@[i] < meta@.len() && from_outside(
                listed,
                meta@[all@[i] as int],
            )),
{
    let mut flags: Vec<bool> = Vec::new();
    let mut i: usize = 0;
    while i < all.len()
        invariant
            i <= all.len(),
            flags.len() == i,
            forall|x: usize| #[trigger] group@.contains(x) <==> listed.contains(x),
            forall|j: int|
                0 <= j < i ==> #[trigger] flags@[j] == (all@[j] < meta@.len() && from_outside(
                    listed,
                    meta@[all@[j] as int],
                )),
        decreases all.len() - i,
    {
        let t: usize = all[i];
        let flag: bool = t < meta.len() && comes_from_outside(group, &meta[t], Ghost(listed));
        flags.push(flag);
        i = i + 1;
    }
    flags
}

/// Flags the listed tensors that are needed outside, or the others. Ids without a
/// description are passed over.
fn flag_needed(
    all: &Vec<TensorId>,
    group: &HashSet<OpId>,
    meta: &[TensorMeta],
    wanted: bool,
    Ghost(listed): Ghost<Seq<OpId>>,
) -> (flags: Vec<bool>)
    requires
        forall|x: usize| #[trigger] group@.contains(x) <==> listed.contains(x),
    ensures
        flags.len() == all.len(),
        forall|i: int|
            0 <= i < all.len() ==> #[trigger] flags@[i] == (all@[i] < meta@.len() && needed_outside(
                listed,
                meta@[all@[i] as int],
            ) == wanted),
{
    let mut flags: Vec<bool> = Vec::new();
    let mut i: usize = 0;
    while i < all.len()
        invariant
            i <= all.len(),
            flags.len() == i,
            forall|x: usize| #[trigger] group@.contains(x) <==> listed.contains(x),
            forall|j: int|
                0 <= j < i ==> #[trigger] flags@[j] == (all@[j] < meta@.len() && needed_outside(
                    listed,
                    meta@[all@[j] as int],
                ) == wanted),
        decreases all.len() - i,
    {
        let t: usize = all[i];
        if t < meta.len() {
            let needed: bool = is_needed_outside(group, &meta[t], Ghost(listed));
            flags.push(needed == wanted);
        } else {
            flags.push(false);
        }
        i = i + 1;
    }
    flags
}

/// What crosses the border of a group, and what stays inside.
pub struct Border {
    pub inputs: Vec<TensorId>,
    pub outputs: Vec<TensorId>,
    pub inside: Vec<TensorId>,
}

/// Finds what crosses the border of the group.
pub fn find_border(ops: &[OpId], problem: &Problem, tensor_meta: &[TensorMeta]) -> (border: Border)
    requires
        forall|i: int| 0 <= i < ops@.len() ==> (#[trigger] ops@[i]) < problem.ops@.len(),
    ensures
        border.inputs@ == external_inputs(ops@, *problem, tensor_meta@),
        border.outputs@ == external_outputs(ops@, *problem, tensor_meta@),
        border.inside@ == intermediates(ops@, *problem, tensor_meta@),
{
    let ghost meta = tensor_meta@;
    let ops_set: HashSet<OpId> = ids::set_of(ops);
    let all_in: Vec<TensorId> = gather_inputs(ops, problem);
    let all_out: Vec<TensorId> = gather_outputs(ops, problem);
    let ghost outside = |t: usize| t < meta.len() && from_outside(ops@, meta[t as int]);
    let ghost needed = |t: usize| t < meta.len() && needed_outside(ops@, meta[t as int]);
    let ghost inner = |t: usize| t < meta.len() && !needed_outside(ops@, meta[t as int]);
    let in_flags: Vec<bool> = flag_outside(&all_in, &ops_set, tensor_meta, Ghost(ops@));
    let inputs: Vec<TensorId> = ids::collect_first_mentions(&all_in, &in_flags, Ghost(outside));
    let out_flags: Vec<bool> = flag_needed(&all_out, &ops_set, tensor_meta, true, Ghost(ops@));
    let outputs: Vec<TensorId> = ids::collect_first_mentions(&all_out, &out_flags, Ghost(needed));
    let inner_flags: Vec<bool> = flag_needed(&all_out, &ops_set, tensor_meta, false, Ghost(ops@));
    let inside: Vec<TensorId> = ids::collect_first_mentions(&all_out, &inner_flags, Ghost(inner));
    Border { inputs, outputs, inside }
}

/// The tensors that matrix products of the group take in.
fn matmul_inputs(group: &[OpId], problem: &Problem) -> (set: HashSet<TensorId>)
    requires
        forall|i: int| 0 <= i < group@.len() ==> (#[trigger] group@[i]) < problem.ops@.len(),
    ensures
        forall|t: TensorId| #[trigger] set@.contains(t) <==> feeds_matmul(group@, problem.ops@, t),
{
    broadcast use vstd::std_specs::hash::group_hash_axioms;

    let mut set: HashSet<TensorId> = HashSet::new();
    let mut i: usize = 0;
    while i < group.len()
        invariant
            i <= group@.len(),
            forall|i: int| 0 <= i < group@.len() ==> (#[trigger] group@[i]) < problem.ops@.len(),
            forall|t: TensorId| #[trigger]
                set@.contains(t) <==> feeds_matmul(group@.take(i as int), problem.ops@, t),
        decreases group@.len() - i,
    {
        let op: &Op = &problem.ops[group[i]];
        let ghost head = group@.take(i as int);
        let ghost longer = group@.take(i + 1);
        let ghost before = set@;
        if op.is_matmul() {
            let mut j: usize = 0;
            while j < op.inputs.len()
                invariant
                    j <= op.inputs.len(),
                    forall|t: TensorId| #[trigger]
                        set@.contains(t) <==> before.contains(t) || op.inputs@.take(j as int).contains(t),
                decreases op.inputs.len() - j,
            {
                set.insert(op.inputs[j]);
                proof {
                    crate::models::lemma_take_contains(op.inputs@, j as int);
                }
                j = j + 1;
            }
            assert(op.inputs@.take(j as int) =~= op.inputs@);
        }
        proof {
            assert forall|t: TensorId| #[trigger] set@.contains(t) <==> feeds_matmul(longer, problem.ops@, t) by {
                assert(longer[i as int] == group@[i as int]);
                if feeds_matmul(head, problem.ops@, t) {
                    let a = choose|a: int|
                        0 <= a < head.len() && (#[trigger] problem.ops@[head[a] as int]).op_type == OpType::MatMul
                            && problem.ops@[head[a] as int].inputs@.contains(t);
                    assert(longer[a] == head[a]);
                }
                if feeds_matmul(longer, problem.ops@, t) {
                    let a = choose|a: int|
                        0 <= a < longer.len() && (#[trigger] problem.ops@[longer[a] as int]).op_type == OpType::MatMul
                            && problem.ops@[longer[a] as int].inputs@.contains(t);
                    if a < i {
                        assert(head[a] == longer[a]);
                    }
                }
                if op.op_type == OpType::MatMul && op.inputs@.contains(t) {
                    assert(problem.ops@[longer[i as int] as int].op_type == OpType::MatMul);
                }
            }
        }
        i = i + 1;
    }
    assert(group@.take(i as int) =~= group@);
    set
}

/// The part of the tensor that one tile covers.
fn measure_tile(tensor: &Tensor, granularity: &Granularity) -> (size: i128)
    ensures
        size == tensor.tile_area(*granularity),
        -arith::PRODUCT_LIMIT <= size <= arith::PRODUCT_LIMIT,
{
    let w: i64 = arith::least_of(tensor.width, granularity.width);
    let h: i64 = arith::least_of(tensor.height, granularity.height);
    arith::wide_product(w, h)
}

/// The slice of a tensor of which a split reduction loads a part at a time.
fn compute_split_k_slice_size(tensor: &Tensor, granularity: &Granularity) -> (size: i128)
    requires
        granularity.depth > 1,
    ensures
        size == arith::greatest(arith::quotient(tensor.tile_area(*granularity), granularity.depth as int), 1),
        -arith::PRODUCT_LIMIT <= size <= arith::PRODUCT_LIMIT,
{
    let base_size: i128 = measure_tile(tensor, granularity);
    let depth: i128 = granularity.depth as i128;
    let part: i128 = base_size / depth;
    assert(part <= arith::PRODUCT_LIMIT) by (nonlinear_arith)
        requires
            part == if base_size >= 0 { base_size as int / depth as int } else { -((-base_size) / depth as int) },
            base_size <= arith::PRODUCT_LIMIT,
            depth > 1,
    ;
    if part > 1 {
        part
    } else {
        1
    }
}

/// Each of the numbers is as large as a product of two `i64` numbers at most.
pub open spec fn are_products(v: Seq<i128>) -> bool {
    forall|i: int| 0 <= i < v.len() ==> -arith::PRODUCT_LIMIT <= #[trigger] v[i] <= arith::PRODUCT_LIMIT
}

/// The accumulator tiles that a split reduction needs.
fn gather_accumulators(
    group: &[OpId],
    problem: &Problem,
    granularity: &Granularity,
    tensor_meta: &[TensorMeta],
    group_set: &HashSet<OpId>,
) -> (acc: Vec<i128>)
    requires
        ids_in_range(group@, *problem, tensor_meta@),
        forall|x: usize| #[trigger] group_set@.contains(x) <==> group@.contains(x),
    ensures
        arith::wides(acc@) == accumulators(group@, *problem, *granularity, tensor_meta@, group@.len()),
        are_products(acc@),
{
    let ghost p = *problem;
    let ghost g = *granularity;
    let ghost meta = tensor_meta@;
    let mut acc: Vec<i128> = Vec::new();
    if granularity.depth > 1 {
        let mut i: usize = 0;
        while i < group.len()
            invariant
                i <= group@.len(),
                p == *problem,
                g == *granularity,
                meta == tensor_meta@,
                g.depth > 1,
                ids_in_range(group@, p, meta),
                forall|x: usize| #[trigger] group_set@.contains(x) <==> group@.contains(x),
                arith::wides(acc@) == accumulators(group@, p, g, meta, i as nat),
                are_products(acc@),
            decreases group@.len() - i,
        {
            let op: &Op = &problem.ops[group[i]];
            if op.is_matmul() {
                let ghost before = arith::wides(acc@);
                let mut j: usize = 0;
                while j < op.outputs.len()
                    invariant
                        j <= op.outputs.len(),
                        i < group@.len(),
                        p == *problem,
                        g == *granularity,
                        meta == tensor_meta@,
                        *op == p.ops@[group@[i as int] as int],
                        ids_in_range(group@, p, meta),
                                forall|x: usize| #[trigger] group_set@.contains(x) <==> group@.contains(x),
                        arith::wides(acc@) == before + held_outputs(group@, p, g, meta, op.outputs@, j as nat),
                        are_products(acc@),
                    decreases op.outputs.len() - j,
                {
                    let t: usize = op.outputs[j];
                    assert(t == p.ops@[group@[i as int] as int].outputs@[j as int]);
                    if is_needed_outside(group_set, &tensor_meta[t], Ghost(group@)) {
                        let ghost old_acc = acc@;
                        let size: i128 = measure_tile(&problem.tensors[t], granularity);
                        acc.push(size);
                        proof {
                            assert(arith::wides(acc@) =~= arith::wides(old_acc).push(size as int));
                            assert(arith::wides(acc@) =~= before + held_outputs(
                                group@,
                                p,
                                g,
                                meta,
                                op.outputs@,
                                (j + 1) as nat,
                            ));
                        }
                    }
                    j = j + 1;
                }
            }
            i = i + 1;
        }
    } else {
        assert(arith::wides(acc@) =~= Seq::<int>::empty());
    }
    acc
}

/// The listed slices as pairs of id and size.
pub open spec fn sized(listed: Seq<TensorId>, sizes: Seq<int>) -> Seq<(TensorId, i64)> {
    Seq::new(listed.len(), |i: int| (listed[i], sizes[i] as i64))
}

impl WorkingSet {
    /// This is the working set of the group.
    pub open spec fn is_of(&self, group: Seq<OpId>, p: Problem, g: Granularity, meta: Seq<TensorMeta>) -> bool {
        let ins = external_inputs(group, p, meta);
        let outs = external_outputs(group, p, meta);
        let inner = intermediates(group, p, meta);
        &&& self.total_size == footprint(group, p, g, meta)
        &&& self.input_slices@ == sized(ins, slices(group, p, g, ins))
        &&& self.output_slices@ == sized(outs, whole_slices(p, g, outs))
        &&& self.intermediate_slices@ == sized(inner, slices(group, p, g, inner))
    }
}

/// Computes the slices of the listed tensors.
fn gather_slices(
    listed: &Vec<TensorId>,
    problem: &Problem,
    granularity: &Granularity,
    split: &HashSet<TensorId>,
    Ghost(group): Ghost<Seq<OpId>>,
) -> (sizes: Vec<i128>)
    requires
        granularity.depth > 1 ==> forall|t: TensorId| #[trigger]
            split@.contains(t) <==> feeds_matmul(group, problem.ops@, t),
        forall|i: int|
            0 <= i < listed.len() ==> (#[trigger] listed@[i]) < problem.tensors@.len(),
    ensures
        sizes.len() == listed.len(),
        are_products(sizes@),
        arith::wides(sizes@) == slices(group, *problem, *granularity, listed@),
{
    broadcast use vstd::std_specs::hash::group_hash_axioms;

    let mut sizes: Vec<i128> = Vec::new();
    let mut i: usize = 0;
    while i < listed.len()
        invariant
            i <= listed.len(),
            sizes.len() == i,
            are_products(sizes@),
            granularity.depth > 1 ==> forall|t: TensorId| #[trigger]
                split@.contains(t) <==> feeds_matmul(group, problem.ops@, t),
            forall|i: int|
                0 <= i < listed.len() ==> (#[trigger] listed@[i]) < problem.tensors@.len(),
            forall|j: int| 0 <= j < i ==> #[trigger] sizes@[j] == slice_of(group, *problem, *granularity, listed@[j]),
        decreases listed.len() - i,
    {
        let t: usize = listed[i];
        assert(listed@[i as int] < problem.tensors@.len());
        let size: i128 = if granularity.depth > 1 && split.contains(&t) {
            compute_split_k_slice_size(&problem.tensors[t], granularity)
        } else {
            measure_tile(&problem.tensors[t], granularity)
        };
        sizes.push(size);
        i = i + 1;
    }
    assert(arith::wides(sizes@) =~= slices(group, *problem, *granularity, listed@));
    sizes
}

/// Computes the tiles of the listed tensors.
fn gather_whole_slices(listed: &Vec<TensorId>, problem: &Problem, granularity: &Granularity) -> (sizes: Vec<i128>)
    requires
        forall|i: int|
            0 <= i < listed.len() ==> (#[trigger] listed@[i]) < problem.tensors@.len(),
    ensures
        sizes.len() == listed.len(),
        are_products(sizes@),
        arith::wides(sizes@) == whole_slices(*problem, *granularity, listed@),
{
    let mut sizes: Vec<i128> = Vec::new();
    let mut i: usize = 0;
    while i < listed.len()
        invariant
            i <= listed.len(),
            sizes.len() == i,
            are_products(sizes@),
            forall|i: int|
                0 <= i < listed.len() ==> (#[trigger] listed@[i]) < problem.tensors@.len(),
            forall|j: int|
                0 <= j < i ==> #[trigger] sizes@[j] == problem.tensors@[listed@[j] as int].tile_area(*granularity),
        decreases listed.len() - i,
    {
        let t: usize = listed[i];
        assert(listed@[i as int] < problem.tensors@.len());
        sizes.push(measure_tile(&problem.tensors[t], granularity));
        i = i + 1;
    }
    assert(arith::wides(sizes@) =~= whole_slices(*problem, *granularity, listed@));
    sizes
}

/// Everything that counts toward the fast memory of the group.
fn gather_charges(
    ops: &[OpId],
    problem: &Problem,
    granularity: &Granularity,
    tensor_meta: &[TensorMeta],
    split: &HashSet<TensorId>,
    border: &Border,
) -> (all: Vec<i128>)
    requires
        ids_in_range(ops@, *problem, tensor_meta@),
        granularity.depth > 1 ==> forall|t: TensorId| #[trigger]
            split@.contains(t) <==> feeds_matmul(ops@, problem.ops@, t),
        border.inputs@ == external_inputs(ops@, *problem, tensor_meta@),
        border.outputs@ == external_outputs(ops@, *problem, tensor_meta@),
        forall|i: int| 0 <= i < border.inputs@.len() ==> (#[trigger] border.inputs@[i]) < problem.tensors@.len(),
        forall|i: int| 0 <= i < border.outputs@.len() ==> (#[trigger] border.outputs@[i]) < problem.tensors@.len(),
    ensures
        arith::wides(all@) == charges(ops@, *problem, *granularity, tensor_meta@),
        are_products(all@),
{
    let ops_set: HashSet<OpId> = ids::set_of(ops);
    let mut all: Vec<i128> = gather_slices(&border.inputs, problem, granularity, split, Ghost(ops@));
    let mut outgoing: Vec<i128> = gather_whole_slices(&border.outputs, problem, granularity);
    let mut acc: Vec<i128> = gather_accumulators(ops, problem, granularity, tensor_meta, &ops_set);
    let ghost parts = (all@, outgoing@, acc@);
    all.append(&mut outgoing);
    all.append(&mut acc);
    proof {
        assert(arith::wides(all@) =~= arith::wides(parts.0) + arith::wides(parts.1) + arith::wides(parts.2));
        assert(arith::wides(all@) =~= charges(ops@, *problem, *granularity, tensor_meta@));
        assert(all@ =~= parts.0 + parts.1 + parts.2);
        assert forall|i: int| 0 <= i < all@.len() implies -arith::PRODUCT_LIMIT <= #[trigger] all@[i]
            <= arith::PRODUCT_LIMIT by {
            if i >= parts.0.len() + parts.1.len() {
                assert(all@[i] == parts.2[i - parts.0.len() - parts.1.len()]);
            } else if i >= parts.0.len() {
                assert(all@[i] == parts.1[i - parts.0.len()]);
            } else {
                assert(all@[i] == parts.0[i]);
            }
        }
    }
    all
}

/// The tensors at the border of the group, and inside it, exist.
proof fn lemma_border_known(group: Seq<OpId>, p: Problem, meta: Seq<TensorMeta>)
    requires
        ids_in_range(group, p, meta),
    ensures
        forall|i: int|
            0 <= i < external_inputs(group, p, meta).len() ==> (#[trigger] external_inputs(group, p, meta)[i])
                < p.tensors@.len(),
        forall|i: int|
            0 <= i < external_outputs(group, p, meta).len() ==> (#[trigger] external_outputs(group, p, meta)[i])
                < p.tensors@.len() && outputs_of(group, p.ops@, group.len()).contains(
                external_outputs(group, p, meta)[i],
            ),
        forall|i: int|
            0 <= i < intermediates(group, p, meta).len() ==> (#[trigger] intermediates(group, p, meta)[i])
                < p.tensors@.len() && outputs_of(group, p.ops@, group.len()).contains(intermediates(group, p, meta)[i]),
{
    let all_in = inputs_of(group, p.ops@, group.len());
    let all_out = outputs_of(group, p.ops@, group.len());
    let outside = |t: usize| t < meta.len() && from_outside(group, meta[t as int]);
    let needed = |t: usize| t < meta.len() && needed_outside(group, meta[t as int]);
    let inner = |t: usize| t < meta.len() && !needed_outside(group, meta[t as int]);
    lemma_inputs_of(group, p.ops@, group.len());
    lemma_outputs_of(group, p.ops@, group.len());
    ids::lemma_first_mentions(all_in, outside, all_in.len());
    ids::lemma_first_mentions(all_out, needed, all_out.len());
    ids::lemma_first_mentions(all_out, inner, all_out.len());
    assert(all_in.take(all_in.len() as int) =~= all_in);
    assert(all_out.take(all_out.len() as int) =~= all_out);
    let ins = external_inputs(group, p, meta);
    let outs = external_outputs(group, p, meta);
    let inside = intermediates(group, p, meta);
    assert forall|i: int| 0 <= i < ins.len() implies (#[trigger] ins[i]) < p.tensors@.len() by {
        assert(ins.contains(ins[i]));
        assert(all_in.contains(ins[i]));
        assert(outside(ins[i]));
    }
    assert forall|i: int| 0 <= i < outs.len() implies (#[trigger] outs[i]) < p.tensors@.len() && all_out.contains(
        outs[i],
    ) by {
        assert(outs.contains(outs[i]));
    }
    assert forall|i: int| 0 <= i < inside.len() implies (#[trigger] inside[i]) < p.tensors@.len() && all_out.contains(
        inside[i],
    ) by {
        assert(inside.contains(inside[i]));
    }
}

/// Measures the fast memory that the group takes, as far as an `i128` can tell.
pub fn measure_footprint(ops: &[OpId], problem: &Problem, granularity: &Granularity, tensor_meta: &[TensorMeta]) -> (size:
    i128)
    requires
        ids_in_range(ops@, *problem, tensor_meta@),
    ensures
        size == arith::saturated(footprint(ops@, *problem, *granularity, tensor_meta@)),
{
    let border: Border = find_border(ops, problem, tensor_meta);
    let split: HashSet<TensorId> = if granularity.depth > 1 {
        matmul_inputs(ops, problem)
    } else {
        HashSet::new()
    };
    proof {
        lemma_border_known(ops@, *problem, tensor_meta@);
    }
    let all: Vec<i128> = gather_charges(ops, problem, granularity, tensor_meta, &split, &border);
    arith::wide_sum(&all)
}

/// The sizes as `i64` numbers.
fn narrow(sizes: &Vec<i128>) -> (narrowed: Vec<i64>)
    requires
        forall|i: int| 0 <= i < sizes@.len() ==> arith::fits(#[trigger] sizes@[i] as int),
    ensures
        narrowed.len() == sizes.len(),
        arith::ints(narrowed@) == arith::wides(sizes@),
{
    let mut narrowed: Vec<i64> = Vec::new();
    let mut i: usize = 0;
    while i < sizes.len()
        invariant
            i <= sizes.len(),
            narrowed.len() == i,
            forall|i: int| 0 <= i < sizes@.len() ==> arith::fits(#[trigger] sizes@[i] as int),
            forall|j: int| 0 <= j < i ==> #[trigger] narrowed@[j] == sizes@[j],
        decreases sizes.len() - i,
    {
        assert(arith::fits(sizes@[i as int] as int));
        narrowed.push(sizes[i] as i64);
        i = i + 1;
    }
    assert(arith::ints(narrowed@) =~= arith::wides(sizes@));
    narrowed
}

/// Pairs ids with their sizes.
fn pair_up(listed: &Vec<TensorId>, sizes: &Vec<i64>) -> (pairs: Vec<(TensorId, i64)>)
    requires
        listed.len() == sizes.len(),
    ensures
        pairs@ == sized(listed@, arith::ints(sizes@)),
{
    let mut pairs: Vec<(TensorId, i64)> = Vec::new();
    let mut i: usize = 0;
    while i < listed.len()
        invariant
            i <= listed.len(),
            listed.len() == sizes.len(),
            pairs.len() == i,
            forall|j: int| 0 <= j < i ==> #[trigger] pairs@[j] == (listed@[j], sizes@[j]),
        decreases listed.len() - i,
    {
        pairs.push((listed[i], sizes[i]));
        i = i + 1;
    }
    assert(pairs@ =~= sized(listed@, arith::ints(sizes@)));
    pairs
}

/// Computes the working set of a fused group. Tensors that are produced and consumed
/// inside the group are gone before they reach fast memory, so only what crosses the
/// border of the group counts, and the accumulators of split reductions.
pub fn compute_subgraph_working_set(
    ops: &[OpId],
    problem: &Problem,
    granularity: &Granularity,
    tensor_meta: &[TensorMeta],
) -> (ws: WorkingSet)
    requires
        ids_in_range(ops@, *problem, tensor_meta@),
        footprint_fits(ops@, *problem, *granularity, tensor_meta@),
    ensures
        ws.is_of(ops@, *problem, *granularity, tensor_meta@),
{
    let ghost p = *problem;
    let ghost g = *granularity;
    let ghost meta = tensor_meta@;
    let border: Border = find_border(ops, problem, tensor_meta);
    let split: HashSet<TensorId> = if granularity.depth > 1 {
        matmul_inputs(ops, problem)
    } else {
        HashSet::new()
    };
    proof {
        lemma_border_known(ops@, p, meta);
    }
    let in_sizes: Vec<i128> = gather_slices(&border.inputs, problem, granularity, &split, Ghost(ops@));
    let out_sizes: Vec<i128> = gather_whole_slices(&border.outputs, problem, granularity);
    let inner_sizes: Vec<i128> = gather_slices(&border.inside, problem, granularity, &split, Ghost(ops@));
    proof {
        assert forall|i: int| 0 <= i < in_sizes@.len() implies arith::fits(#[trigger] in_sizes@[i] as int) by {
            assert(external_inputs(ops@, p, meta).contains(border.inputs@[i]));
            assert(arith::wides(in_sizes@)[i] == slice_of(ops@, p, g, border.inputs@[i]));
            lemma_slice_fits(ops@, p, g, border.inputs@[i]);
        }
        assert forall|i: int| 0 <= i < out_sizes@.len() implies arith::fits(#[trigger] out_sizes@[i] as int) by {
            assert(external_outputs(ops@, p, meta)[i] == border.outputs@[i]);
            assert(arith::wides(out_sizes@)[i] == p.tensors@[border.outputs@[i] as int].tile_area(g));
        }
        assert forall|i: int| 0 <= i < inner_sizes@.len() implies arith::fits(#[trigger] inner_sizes@[i] as int) by {
            assert(intermediates(ops@, p, meta)[i] == border.inside@[i]);
            assert(arith::wides(inner_sizes@)[i] == slice_of(ops@, p, g, border.inside@[i]));
            lemma_slice_fits(ops@, p, g, border.inside@[i]);
        }
    }
    let input_slices: Vec<(TensorId, i64)> = pair_up(&border.inputs, &narrow(&in_sizes));
    let output_slices: Vec<(TensorId, i64)> = pair_up(&border.outputs, &narrow(&out_sizes));
    let intermediate_slices: Vec<(TensorId, i64)> = pair_up(&border.inside, &narrow(&inner_sizes));
    let all: Vec<i128> = gather_charges(ops, problem, granularity, tensor_meta, &split, &border);
    let total_size: i64 = arith::wide_sum(&all) as i64;
    WorkingSet { total_size, input_slices, output_slices, intermediate_slices }
}

/// The slice of a tensor is an `i64` if its tile is.
proof fn lemma_slice_fits(group: Seq<OpId>, p: Problem, g: Granularity, t: TensorId)
    requires
        arith::fits(p.tensors@[t as int].tile_area(g)),
    ensures
        arith::fits(slice_of(group, p, g, t)),
{
    let area = p.tensors@[t as int].tile_area(g);
    let depth = g.depth as int;
    if depth > 1 {
        assert(area >= 0 ==> area / depth <= area) by (nonlinear_arith)
            requires
                depth > 1,
        ;
        assert(area < 0 ==> (-area) / depth >= 0) by (nonlinear_arith)
            requires
                depth > 1,
        ;
    }
}

/// Those of the listed ids that are tensors.
pub open spec fn known(listed: Seq<TensorId>, tensors: Seq<Tensor>) -> Seq<TensorId> {
    dataflow::below(listed, tensors.len(), listed.len())
}

/// The tile sizes of the listed tensors.
pub open spec fn tile_areas(listed: Seq<TensorId>, tensors: Seq<Tensor>, g: Granularity) -> Seq<int> {
    Seq::new(listed.len(), |i: int| tensors[listed[i] as int].tile_area(g))
}

/// What a single operation takes: its inputs, its outputs, and accumulators if it is a split matrix product.
pub open spec fn op_charges(op: Op, tensors: Seq<Tensor>, g: Granularity) -> Seq<int> {
    let ins = tile_areas(known(op.inputs@, tensors), tensors, g);
    let outs = tile_areas(known(op.outputs@, tensors), tensors, g);
    if op.op_type == OpType::MatMul && g.depth > 1 {
        ins + outs + outs
    } else {
        ins + outs
    }
}

/// Lists those of the ids that are tensors, with the sizes of their tiles.
fn known_slices(listed: &Vec<TensorId>, tensors: &[Tensor], granularity: &Granularity) -> (found: (
    Vec<TensorId>,
    Vec<i64>,
))
    requires
        forall|i: int|
            0 <= i < listed.len() && (#[trigger] listed@[i]) < tensors@.len() ==> arith::fits(
                tensors@[listed@[i] as int].tile_area(*granularity),
            ),
    ensures
        found.0@ == known(listed@, tensors@),
        found.0.len() == found.1.len(),
        arith::ints(found.1@) == tile_areas(known(listed@, tensors@), tensors@, *granularity),
{
    let mut kept: Vec<TensorId> = Vec::new();
    let mut sizes: Vec<i64> = Vec::new();
    let mut i: usize = 0;
    while i < listed.len()
        invariant
            i <= listed.len(),
            forall|i: int|
                0 <= i < listed.len() && (#[trigger] listed@[i]) < tensors@.len() ==> arith::fits(
                    tensors@[listed@[i] as int].tile_area(*granularity),
                ),
            kept@ == dataflow::below(listed@, tensors@.len(), i as nat),
            kept.len() == sizes.len(),
            forall|j: int|
                0 <= j < kept.len() ==> #[trigger] sizes@[j] == tensors@[kept@[j] as int].tile_area(*granularity),
        decreases listed.len() - i,
    {
        let t: usize = listed[i];
        if t < tensors.len() {
            assert(listed@[i as int] < tensors@.len());
            sizes.push(tensors[t].slice_size(granularity));
            kept.push(t);
        }
        i = i + 1;
    }
    assert(arith::ints(sizes@) =~= tile_areas(kept@, tensors@, *granularity));
    (kept, sizes)
}

/// Computes the working set of a single operation. Ids beyond the tensors are passed over.
pub fn compute_op_working_set(op: &Op, tensors: &[Tensor], granularity: &Granularity) -> (ws: WorkingSet)
    requires
        forall|i: int|
            0 <= i < op.inputs@.len() && (#[trigger] op.inputs@[i]) < tensors@.len() ==> arith::fits(
                tensors@[op.inputs@[i] as int].tile_area(*granularity),
            ),
        forall|i: int|
            0 <= i < op.outputs@.len() && (#[trigger] op.outputs@[i]) < tensors@.len() ==> arith::fits(
                tensors@[op.outputs@[i] as int].tile_area(*granularity),
            ),
        arith::totals_fit(op_charges(*op, tensors@, *granularity)),
    ensures
        ws.total_size == arith::sum(op_charges(*op, tensors@, *granularity)),
        ws.input_slices@ == sized(
            known(op.inputs@, tensors@),
            tile_areas(known(op.inputs@, tensors@), tensors@, *granularity),
        ),
        ws.output_slices@ == sized(
            known(op.outputs@, tensors@),
            tile_areas(known(op.outputs@, tensors@), tensors@, *granularity),
        ),
        ws.intermediate_slices@.len() == 0,
{
    let (ins, in_sizes): (Vec<TensorId>, Vec<i64>) = known_slices(&op.inputs, tensors, granularity);
    let (outs, out_sizes): (Vec<TensorId>, Vec<i64>) = known_slices(&op.outputs, tensors, granularity);
    let input_slices: Vec<(TensorId, i64)> = pair_up(&ins, &in_sizes);
    let output_slices: Vec<(TensorId, i64)> = pair_up(&outs, &out_sizes);
    let mut all: Vec<i64> = in_sizes;
    let ghost a = all@;
    let mut again: Vec<i64> = out_sizes.clone();
    let mut outgoing: Vec<i64> = out_sizes;
    let ghost b = outgoing@;
    all.append(&mut outgoing);
    if op.is_matmul() && granularity.depth > 1 {
        all.append(&mut again);
        assert(arith::ints(all@) =~= arith::ints(a) + arith::ints(b) + arith::ints(b));
    } else {
        assert(arith::ints(all@) =~= arith::ints(a) + arith::ints(b));
    }
    let total_size: i64 = arith::total(&all);
    WorkingSet { total_size, input_slices, output_slices, intermediate_slices: Vec::new() }
}

/// The group fits in fast memory.
pub open spec fn fits_memory(group: Seq<OpId>, p: Problem, g: Granularity, meta: Seq<TensorMeta>) -> bool {
    footprint(group, p, g, meta) <= p.fast_memory_capacity
}

/// Whether the group fits in fast memory.
pub fn validate_memory_fit(
    ops: &[OpId],
    problem: &Problem,
    granularity: &Granularity,
    tensor_meta: &[TensorMeta],
) -> (yes: bool)
    requires
        ids_in_range(ops@, *problem, tensor_meta@),
    ensures
        yes == fits_memory(ops@, *problem, *granularity, tensor_meta@),
{
    measure_footprint(ops, problem, granularity, tensor_meta) <= problem.fast_memory_capacity as i128
}

/// One of the operations is a matrix product.
pub open spec fn has_matmul(group: Seq<OpId>, ops: Seq<Op>) -> bool {
    exists|i: int| 0 <= i < group.len() && (#[trigger] ops[group[i] as int]).op_type == OpType::MatMul
}

/// Whether one of the operations is a matrix product.
pub fn contains_matmul(ops: &[OpId], problem: &Problem) -> (yes: bool)
    requires
        forall|i: int| 0 <= i < ops@.len() ==> (#[trigger] ops@[i]) < problem.ops@.len(),
    ensures
        yes == has_matmul(ops@, problem.ops@),
{
    let mut i: usize = 0;
    while i < ops.len()
        invariant
            i <= ops@.len(),
            forall|i: int| 0 <= i < ops@.len() ==> (#[trigger] ops@[i]) < problem.ops@.len(),
            forall|j: int| 0 <= j < i ==> (#[trigger] problem.ops@[ops@[j] as int]).op_type != OpType::MatMul,
        decreases ops@.len() - i,
    {
        assert(ops@[i as int] < problem.ops@.len());
        if problem.ops[ops[i]].is_matmul() {
            assert(problem.ops@[ops@[i as int] as int].op_type == OpType::MatMul);
            return true;
        }
        i = i + 1;
    }
    false
}

/// The granularity after `k` halvings.
pub open spec fn halved_times(g: Granularity, k: nat) -> Granularity
    decreases k,
{
    if k == 0 {
        g
    } else {
        halved_times(g, (k - 1) as nat).halved()
    }
}

/// The granularities to try for a group, best first: the native one, then splits of
/// the reduction, then splits of a half tile, and as a last resort up to eight halvings
/// of the tile.
pub open spec fn attempts(native: Granularity, matmul: bool) -> Seq<Granularity> {
    let half = native.halved();
    let splits = if matmul {
        seq![
            native.split(2),
            native.split(4),
            native.split(8),
            native.split(16),
            native.split(32),
            half.split(2),
            half.split(4),
            half.split(8),
            half.split(16),
        ]
    } else {
        Seq::empty()
    };
    seq![native] + splits + Seq::new(8, |i: int| halved_times(native, (i + 1) as nat))
}

/// Lists the granularities to try.
fn list_attempts(native: &Granularity, matmul: bool) -> (list: Vec<Granularity>)
    ensures
        list@ == attempts(*native, matmul),
{
    let mut list: Vec<Granularity> = Vec::new();
    list.push(*native);
    if matmul {
        list.push(native.with_split_k(2));
        list.push(native.with_split_k(4));
        list.push(native.with_split_k(8));
        list.push(native.with_split_k(16));
        list.push(native.with_split_k(32));
        let half: Granularity = native.halve();
        list.push(half.with_split_k(2));
        list.push(half.with_split_k(4));
        list.push(half.with_split_k(8));
        list.push(half.with_split_k(16));
    }
    let ghost head = list@;
    let mut smaller: Granularity = *native;
    let mut i: usize = 0;
    while i < 8
        invariant
            i <= 8,
            smaller == halved_times(*native, i as nat),
            list@ == head + Seq::new(i as nat, |j: int| halved_times(*native, (j + 1) as nat)),
        decreases 8 - i,
    {
        smaller = smaller.halve();
        let ghost before = list@;
        list.push(smaller);
        assert(list@ =~= head + Seq::new((i + 1) as nat, |j: int| halved_times(*native, (j + 1) as nat)));
        i = i + 1;
    }
    assert(list@ =~= attempts(*native, matmul));
    list
}

/// `i` is the first of the granularities with which the group fits.
pub open spec fn first_fitting(
    list: Seq<Granularity>,
    i: int,
    group: Seq<OpId>,
    p: Problem,
    meta: Seq<TensorMeta>,
) -> bool {
    &&& 0 <= i < list.len()
    &&& fits_memory(group, p, list[i], meta)
    &&& forall|j: int| 0 <= j < i ==> !fits_memory(group, p, #[trigger] list[j], meta)
}

/// Finds the first of the granularities with which the group fits.
fn find_first_fitting(
    list: &Vec<Granularity>,
    ops: &[OpId],
    problem: &Problem,
    tensor_meta: &[TensorMeta],
) -> (found: Option<usize>)
    requires
        ids_in_range(ops@, *problem, tensor_meta@),
    ensures
        match found {
            Some(i) => first_fitting(list@, i as int, ops@, *problem, tensor_meta@),
            None => forall|j: int|
                0 <= j < list.len() ==> !fits_memory(ops@, *problem, #[trigger] list@[j], tensor_meta@),
        },
{
    let mut i: usize = 0;
    while i < list.len()
        invariant
            i <= list.len(),
            ids_in_range(ops@, *problem, tensor_meta@),
            forall|j: int| 0 <= j < i ==> !fits_memory(ops@, *problem, #[trigger] list@[j], tensor_meta@),
        decreases list.len() - i,
    {
        if validate_memory_fit(ops, problem, &list[i], tensor_meta) {
            return Some(i);
        }
        i = i + 1;
    }
    None
}

/// The granularity for the group: the first attempt with which it fits in fast memory, or
/// the smallest tile if it fits with none.
pub open spec fn fitting_granularity(group: Seq<OpId>, p: Problem, meta: Seq<TensorMeta>) -> Granularity {
    let list = attempts(p.native_granularity, has_matmul(group, p.ops@));
    if exists|i: int| #[trigger] first_fitting(list, i, group, p, meta) {
        list[choose|i: int| #[trigger] first_fitting(list, i, group, p, meta)]
    } else {
        halved_times(p.native_granularity, 8)
    }
}

/// Finds the best granularity with which the group fits in fast memory. If none of
/// them fits, the smallest tile is returned.
pub fn find_fitting_granularity(ops: &[OpId], problem: &Problem, tensor_meta: &[TensorMeta]) -> (g: Granularity)
    requires
        ids_in_range(ops@, *problem, tensor_meta@),
    ensures
        g == fitting_granularity(ops@, *problem, tensor_meta@),
        ({
            let list = attempts(problem.native_granularity, has_matmul(ops@, problem.ops@));
            ||| exists|i: int| #[trigger] first_fitting(list, i, ops@, *problem, tensor_meta@) && g == list[i]
            ||| g == halved_times(problem.native_granularity, 8) && forall|j: int|
                0 <= j < list.len() ==> !fits_memory(ops@, *problem, #[trigger] list[j], tensor_meta@)
        }),
{
    let matmul: bool = contains_matmul(ops, problem);
    let list: Vec<Granularity> = list_attempts(&problem.native_granularity, matmul);
    match find_first_fitting(&list, ops, problem, tensor_meta) {
        Some(i) => list[i],
        None => {
            let last: usize = list.len() - 1;
            assert(list@[last as int] == halved_times(problem.native_granularity, 8));
            list[last]
        },
    }
}

/// The granularity for a group is one with which it fits in fast memory, if it fits with
/// any of those to try; it is the native one where the group fits with that, else the
/// least split of the native tile that is enough, and without matrix products the fewest
/// halvings that are enough. Where nothing is enough the tile is halved eight times.
pub proof fn fitting_granularity_fits(group: Seq<OpId>, p: Problem, meta: Seq<TensorMeta>)
    ensures
        ({
            let native = p.native_granularity;
            let matmul = has_matmul(group, p.ops@);
            let list = attempts(native, matmul);
            let g = fitting_granularity(group, p, meta);
            &&& (exists|j: int| 0 <= j < list.len() && fits_memory(group, p, #[trigger] list[j], meta)) ==> fits_memory(
                group,
                p,
                g,
                meta,
            )
            &&& fits_memory(group, p, native, meta) ==> g == native
            &&& !fits_memory(group, p, g, meta) ==> g == halved_times(native, 8)
            &&& matmul ==> forall|j: int|
                #[trigger] first_fitting(split_attempts(native), j, group, p, meta) ==> g == split_attempts(native)[j]
            &&& !matmul ==> exists|j: nat|
                j <= 8 && g == #[trigger] halved_times(native, j) && (fits_memory(group, p, g, meta) || j == 8) && forall|
                    k: nat,
                | k < j ==> !fits_memory(group, p, #[trigger] halved_times(native, k), meta)
        }),
{
    let native = p.native_granularity;
    let matmul = has_matmul(group, p.ops@);
    let list = attempts(native, matmul);
    let g = fitting_granularity(group, p, meta);
    assert(list[0] == native);
    if exists|j: int| 0 <= j < list.len() && fits_memory(group, p, #[trigger] list[j], meta) {
        let j = choose|j: int| 0 <= j < list.len() && fits_memory(group, p, #[trigger] list[j], meta);
        lemma_some_is_first(list, j, group, p, meta);
    }
    if matmul {
        assert forall|j: int| #[trigger] first_fitting(split_attempts(native), j, group, p, meta) implies g
            == split_attempts(native)[j] by {
            assert forall|k: int| 0 <= k < 6 implies #[trigger] list[k] == split_attempts(native)[k] by {}
            assert forall|k: int| 0 <= k < j implies !fits_memory(group, p, #[trigger] list[k], meta) by {
                assert(list[k] == split_attempts(native)[k]);
            }
            assert(list[j] == split_attempts(native)[j]);
            assert(first_fitting(list, j, group, p, meta));
        }
    } else {
        assert forall|k: nat| k <= 8 implies list[k as int] == #[trigger] halved_times(native, k) by {}
        if exists|i: int| #[trigger] first_fitting(list, i, group, p, meta) {
            let i = choose|i: int| #[trigger] first_fitting(list, i, group, p, meta);
            assert(g == halved_times(native, i as nat));
            assert forall|k: nat| k < i implies !fits_memory(group, p, #[trigger] halved_times(native, k), meta) by {
                assert(list[k as int] == halved_times(native, k));
            }
        } else {
            assert(g == halved_times(native, 8));
            assert forall|k: nat| k < 8 implies !fits_memory(group, p, #[trigger] halved_times(native, k), meta) by {
                assert(list[k as int] == halved_times(native, k));
                if fits_memory(group, p, list[k as int], meta) {
                    lemma_some_is_first(list, k as int, group, p, meta);
                }
            }
        }
    }
}

/// The granularity that a group is given: the first attempt with which it fits in fast
/// memory, or the native one if it fits with none.
pub open spec fn group_granularity(group: Seq<OpId>, p: Problem, meta: Seq<TensorMeta>) -> Granularity {
    let g = fitting_granularity(group, p, meta);
    if fits_memory(group, p, g, meta) {
        g
    } else {
        p.native_granularity
    }
}

/// Finds the granularity for a group. A group that fits with none of those to try keeps the native one.
pub fn find_group_granularity(ops: &[OpId], problem: &Problem, tensor_meta: &[TensorMeta]) -> (g: Granularity)
    requires
        ids_in_range(ops@, *problem, tensor_meta@),
    ensures
        g == group_granularity(ops@, *problem, tensor_meta@),
{
    let g: Granularity = find_fitting_granularity(ops, problem, tensor_meta);
    if validate_memory_fit(ops, problem, &g, tensor_meta) {
        g
    } else {
        problem.native_granularity
    }
}

/// The granularity that a group is given is one with which it fits in fast memory, if it
/// fits with any of those to try. It is the native one where the group fits with that,
/// and where the group fits with none.
pub proof fn group_granularity_fits(group: Seq<OpId>, p: Problem, meta: Seq<TensorMeta>)
    ensures
        ({
            let list = attempts(p.native_granularity, has_matmul(group, p.ops@));
            let g = group_granularity(group, p, meta);
            &&& (exists|j: int| 0 <= j < list.len() && fits_memory(group, p, #[trigger] list[j], meta)) ==> fits_memory(
                group,
                p,
                g,
                meta,
            )
            &&& fits_memory(group, p, p.native_granularity, meta) ==> g == p.native_granularity
            &&& !fits_memory(group, p, g, meta) ==> g == p.native_granularity
        }),
{
    fitting_granularity_fits(group, p, meta);
}

/// Where one of the granularities fits, one of them is the first.
proof fn lemma_some_is_first(list: Seq<Granularity>, j: int, group: Seq<OpId>, p: Problem, meta: Seq<TensorMeta>)
    requires
        0 <= j < list.len(),
        fits_memory(group, p, list[j], meta),
    ensures
        exists|i: int| #[trigger] first_fitting(list, i, group, p, meta),
    decreases j,
{
    if exists|k: int| 0 <= k < j && fits_memory(group, p, #[trigger] list[k], meta) {
        let k = choose|k: int| 0 <= k < j && fits_memory(group, p, #[trigger] list[k], meta);
        lemma_some_is_first(list, k, group, p, meta);
    } else {
        assert(first_fitting(list, j, group, p, meta));
    }
}

/// What a group takes does not depend on how the tensors are described, as long as both
/// descriptions are those of the problem.
pub proof fn lemma_same_meta(group: Seq<OpId>, p: Problem, g: Granularity, one: Seq<TensorMeta>, two: Seq<TensorMeta>)
    requires
        p.has_meta(one),
        p.has_meta(two),
        ids_in_range(group, p, one),
    ensures
        footprint(group, p, g, one) == footprint(group, p, g, two),
{
    assert(p.tensors@.len() == p.tensors.len());
    assert forall|t: int| 0 <= t < one.len() implies from_outside(group, #[trigger] one[t]) == from_outside(
        group,
        two[t],
    ) && needed_outside(group, one[t]) == needed_outside(group, two[t]) by {
        assert(one[t as usize as int].describes(p.ops@, t as usize));
        assert(two[t as usize as int].describes(p.ops@, t as usize));
        assert(one[t].consumers@ == two[t].consumers@);
    }
    let outside = |t: usize| t < one.len() && from_outside(group, one[t as int]);
    let outside2 = |t: usize| t < two.len() && from_outside(group, two[t as int]);
    assert(outside =~= outside2);
    let needed = |t: usize| t < one.len() && needed_outside(group, one[t as int]);
    let needed2 = |t: usize| t < two.len() && needed_outside(group, two[t as int]);
    assert(needed =~= needed2);
    assert(external_inputs(group, p, one) == external_inputs(group, p, two));
    assert(external_outputs(group, p, one) == external_outputs(group, p, two));
    lemma_same_accumulators(group, p, g, one, two, group.len());
}

proof fn lemma_same_accumulators(
    group: Seq<OpId>,
    p: Problem,
    g: Granularity,
    one: Seq<TensorMeta>,
    two: Seq<TensorMeta>,
    k: nat,
)
    requires
        k <= group.len(),
        ids_in_range(group, p, one),
        one.len() == two.len(),
        forall|t: int|
            0 <= t < one.len() ==> needed_outside(group, #[trigger] one[t]) == needed_outside(group, two[t]),
    ensures
        accumulators(group, p, g, one, k) == accumulators(group, p, g, two, k),
    decreases k,
{
    if k > 0 {
        lemma_same_accumulators(group, p, g, one, two, (k - 1) as nat);
        let outs = p.ops@[group[k - 1] as int].outputs@;
        lemma_same_held(group, p, g, one, two, k - 1, outs.len());
    }
}

proof fn lemma_same_held(
    group: Seq<OpId>,
    p: Problem,
    g: Granularity,
    one: Seq<TensorMeta>,
    two: Seq<TensorMeta>,
    at: int,
    k: nat,
)
    requires
        0 <= at < group.len(),
        k <= p.ops@[group[at] as int].outputs@.len(),
        ids_in_range(group, p, one),
        one.len() == two.len(),
        forall|t: int|
            0 <= t < one.len() ==> needed_outside(group, #[trigger] one[t]) == needed_outside(group, two[t]),
    ensures
        held_outputs(group, p, g, one, p.ops@[group[at] as int].outputs@, k) == held_outputs(
            group,
            p,
            g,
            two,
            p.ops@[group[at] as int].outputs@,
            k,
        ),
    decreases k,
{
    if k > 0 {
        lemma_same_held(group, p, g, one, two, at, (k - 1) as nat);
        let t = p.ops@[group[at] as int].outputs@[k - 1];
        assert(needed_outside(group, one[t as int]) == needed_outside(group, two[t as int]));
    }
}

/// Both descriptions of the problem lead to the same granularity for a group.
pub proof fn lemma_same_granularity(group: Seq<OpId>, p: Problem, one: Seq<TensorMeta>, two: Seq<TensorMeta>)
    requires
        p.has_meta(one),
        p.has_meta(two),
        ids_in_range(group, p, one),
    ensures
        group_granularity(group, p, one) == group_granularity(group, p, two),
{
    let list = attempts(p.native_granularity, has_matmul(group, p.ops@));
    assert forall|i: int| 0 <= i < list.len() implies fits_memory(group, p, #[trigger] list[i], one) == fits_memory(
        group,
        p,
        list[i],
        two,
    ) by {
        lemma_same_meta(group, p, list[i], one, two);
    }
    lemma_same_meta(group, p, fitting_granularity(group, p, one), one, two);
    if exists|i: int| #[trigger] first_fitting(list, i, group, p, one) {
        let i = choose|i: int| #[trigger] first_fitting(list, i, group, p, one);
        assert(first_fitting(list, i, group, p, two));
    } else if exists|i: int| #[trigger] first_fitting(list, i, group, p, two) {
        let i = choose|i: int| #[trigger] first_fitting(list, i, group, p, two);
        assert(first_fitting(list, i, group, p, one));
    }
}

/// Without a split the depth of a granularity does not matter.
pub proof fn lemma_unsplit(group: Seq<OpId>, p: Problem, g: Granularity, h: Granularity, meta: Seq<TensorMeta>)
    requires
        g.width == h.width,
        g.height == h.height,
        g.depth == h.depth || (g.depth <= 1 && h.depth <= 1),
    ensures
        footprint(group, p, g, meta) == footprint(group, p, h, meta),
{
    if g.depth != h.depth {
        let ins = external_inputs(group, p, meta);
        let outs = external_outputs(group, p, meta);
        assert(slices(group, p, g, ins) =~= slices(group, p, h, ins));
        assert(whole_slices(p, g, outs) =~= whole_slices(p, h, outs));
        assert(accumulators(group, p, g, meta, group.len()) =~= accumulators(group, p, h, meta, group.len()));
    } else {
        assert(g == h);
    }
}

/// The splits to try, smallest first, after the granularity as it is.
pub open spec fn split_attempts(base: Granularity) -> Seq<Granularity> {
    seq![base, base.split(2), base.split(4), base.split(8), base.split(16), base.split(32)]
}

/// Finds the smallest split of the reduction with which a group with matrix products fits.
pub fn find_split_k(
    ops: &[OpId],
    problem: &Problem,
    base_granularity: &Granularity,
    tensor_meta: &[TensorMeta],
) -> (g: Option<Granularity>)
    requires
        ids_in_range(ops@, *problem, tensor_meta@),
    ensures
        match g {
            Some(found) => has_matmul(ops@, problem.ops@) && exists|i: int| #[trigger]
                first_fitting(split_attempts(*base_granularity), i, ops@, *problem, tensor_meta@) && found
                    == split_attempts(*base_granularity)[i],
            None => !has_matmul(ops@, problem.ops@) || forall|j: int|
                0 <= j < 6 ==> !fits_memory(
                    ops@,
                    *problem,
                    #[trigger] split_attempts(*base_granularity)[j],
                    tensor_meta@,
                ),
        },
{
    if !contains_matmul(ops, problem) {
        return None;
    }
    let mut list: Vec<Granularity> = Vec::new();
    list.push(*base_granularity);
    list.push(base_granularity.with_split_k(2));
    list.push(base_granularity.with_split_k(4));
    list.push(base_granularity.with_split_k(8));
    list.push(base_granularity.with_split_k(16));
    list.push(base_granularity.with_split_k(32));
    assert(list@ =~= split_attempts(*base_granularity));
    match find_first_fitting(&list, ops, problem, tensor_meta) {
        Some(i) => Some(list[i]),
        None => None,
    }
}

/// The number of the first `k` consumers that are still to run.
pub open spec fn remaining_consumers(consumers: Seq<OpId>, remaining: Set<OpId>, k: nat) -> nat
    decreases k,
{
    if k == 0 {
        0
    } else {
        remaining_consumers(consumers, remaining, (k - 1) as nat) + if remaining.contains(consumers[k - 1]) {
            1nat
        } else {
            0nat
        }
    }
}

/// Counts the consumers that are still to run.
fn count_remaining(consumers: &Vec<OpId>, remaining: &HashSet<OpId>) -> (count: usize)
    ensures
        count == remaining_consumers(consumers@, remaining@, consumers@.len()),
{
    broadcast use vstd::std_specs::hash::group_hash_axioms;

    let mut count: usize = 0;
    let mut i: usize = 0;
    while i < consumers.len()
        invariant
            i <= consumers.len(),
            count <= i,
            count == remaining_consumers(consumers@, remaining@, i as nat),
        decreases consumers.len() - i,
    {
        if remaining.contains(&consumers[i]) {
            count = count + 1;
        }
        i = i + 1;
    }
    count
}

/// The slow memory reads that keeping the tensor saves: one for each consumer still to run.
pub fn estimate_retention_savings(
    tensor_id: TensorId,
    problem: &Problem,
    tensor_meta: &[TensorMeta],
    remaining_ops: &HashSet<OpId>,
) -> (savings: i64)
    requires
        tensor_id < tensor_meta@.len(),
        tensor_id < problem.tensors@.len(),
        arith::fits(problem.tensors@[tensor_id as int].area()),
        remaining_consumers(
            tensor_meta@[tensor_id as int].consumers@,
            remaining_ops@,
            tensor_meta@[tensor_id as int].consumers@.len(),
        ) <= i64::MAX,
        arith::fits(
            problem.tensors@[tensor_id as int].area() * remaining_consumers(
                tensor_meta@[tensor_id as int].consumers@,
                remaining_ops@,
                tensor_meta@[tensor_id as int].consumers@.len(),
            ),
        ),
    ensures
        savings == problem.tensors@[tensor_id as int].area() * remaining_consumers(
            tensor_meta@[tensor_id as int].consumers@,
            remaining_ops@,
            tensor_meta@[tensor_id as int].consumers@.len(),
        ),
{
    let size: i64 = problem.tensors[tensor_id].size();
    let count: usize = count_remaining(&tensor_meta[tensor_id].consumers, remaining_ops);
    size * count as i64
}

/// The number of operations of `remaining` that take in tensor `t`.
pub open spec fn future_uses(t: TensorId, meta: Seq<TensorMeta>, remaining: Set<OpId>) -> nat {
    remaining_consumers(meta[t as int].consumers@, remaining, meta[t as int].consumers@.len())
}

/// Those of the first `k` listed tensors that are used later, in order.
pub open spec fn used_later(listed: Seq<TensorId>, meta: Seq<TensorMeta>, remaining: Set<OpId>, k: nat) -> Seq<TensorId>
    decreases k,
{
    if k == 0 {
        Seq::empty()
    } else {
        let rest = used_later(listed, meta, remaining, (k - 1) as nat);
        if future_uses(listed[k - 1], meta, remaining) > 0 {
            rest.push(listed[k - 1])
        } else {
            rest
        }
    }
}

/// The keys rank the tensors by the reads they save, then by their uses, then small ones first.
pub open spec fn ranks_by_savings(
    keys: Seq<SortKey>,
    listed: Seq<TensorId>,
    p: Problem,
    meta: Seq<TensorMeta>,
    remaining: Set<OpId>,
) -> bool {
    &&& keys.len() == listed.len()
    &&& forall|i: int|
        0 <= i < listed.len() ==> {
            let area = p.tensors@[listed[i] as int].area();
            let uses = future_uses(listed[i], meta, remaining) as int;
            sorting::has_key(#[trigger] keys[i], -(area * uses), -uses, area)
        }
}

/// The sizes of the listed tensors.
pub open spec fn sizes_of(listed: Seq<TensorId>, p: Problem) -> Seq<i64> {
    Seq::new(listed.len(), |i: int| p.tensors@[listed[i] as int].area() as i64)
}

/// `kept` is what stays in fast memory: of the outputs that are used later, by
/// falling savings, all that fit.
pub open spec fn is_residency(
    kept: Seq<TensorId>,
    outputs: Seq<TensorId>,
    p: Problem,
    meta: Seq<TensorMeta>,
    remaining: Set<OpId>,
    capacity: int,
) -> bool {
    let listed = used_later(outputs, meta, remaining, outputs.len());
    exists|keys: Seq<SortKey>| #[trigger]
        ranks_by_savings(keys, listed, p, meta, remaining) && greedy::is_greedy_choice(
            listed,
            sizes_of(listed, p),
            keys,
            capacity,
            kept,
        )
}

/// Chooses which outputs of a group stay in fast memory for later operations.
pub fn analyze_tensor_residency(
    current_subgraph_outputs: &[TensorId],
    remaining_ops: &[OpId],
    problem: &Problem,
    tensor_meta: &[TensorMeta],
    available_capacity: FastMemoryCapacity,
) -> (selected: Vec<TensorId>)
    requires
        remaining_ops@.len() > 0 && available_capacity > 0 ==> forall|i: int|
            0 <= i < current_subgraph_outputs@.len() ==> (#[trigger] current_subgraph_outputs@[i]) < tensor_meta@.len()
                && current_subgraph_outputs@[i] < problem.tensors@.len() && arith::fits(
                problem.tensors@[current_subgraph_outputs@[i] as int].area(),
            ),
    ensures
        if remaining_ops@.len() == 0 || available_capacity <= 0 {
            selected@.len() == 0
        } else {
            is_residency(
                selected@,
                current_subgraph_outputs@,
                *problem,
                tensor_meta@,
                remaining_ops@.to_set(),
                available_capacity as int,
            )
        },
{
    if remaining_ops.len() == 0 || available_capacity <= 0 {
        return Vec::new();
    }
    let remaining: HashSet<OpId> = ids::set_of(remaining_ops);
    assert(remaining@ =~= remaining_ops@.to_set());
    let ghost rem = remaining@;
    let ghost outs = current_subgraph_outputs@;
    let mut listed: Vec<TensorId> = Vec::new();
    let mut sizes: Vec<i64> = Vec::new();
    let mut keys: Vec<SortKey> = Vec::new();
    let mut i: usize = 0;
    while i < current_subgraph_outputs.len()
        invariant
            i <= outs.len(),
            outs == current_subgraph_outputs@,
            rem == remaining@,
            forall|i: int|
                0 <= i < outs.len() ==> (#[trigger] outs[i]) < tensor_meta@.len() && outs[i] < problem.tensors@.len()
                    && arith::fits(problem.tensors@[outs[i] as int].area()),
            listed@ == used_later(outs, tensor_meta@, rem, i as nat),
            sizes@ == sizes_of(listed@, *problem),
            ranks_by_savings(keys@, listed@, *problem, tensor_meta@, rem),
        decreases outs.len() - i,
    {
        let t: usize = current_subgraph_outputs[i];
        assert(outs[i as int] < tensor_meta@.len());
        let size: i64 = problem.tensors[t].size();
        let count: usize = count_remaining(&tensor_meta[t].consumers, &remaining);
        if count > 0 {
            assert(-0x8000_0000_0000_0000_0000_0000_0000_0000 < size * count
                < 0x8000_0000_0000_0000_0000_0000_0000_0000) by (nonlinear_arith)
                requires
                    -0x8000_0000_0000_0000 <= size < 0x8000_0000_0000_0000,
                    0 <= count <= 0xffff_ffff_ffff_ffff,
            ;
            let savings: i128 = size as i128 * count as i128;
            let ghost old_listed = listed@;
            let ghost old_keys = keys@;
            listed.push(t);
            sizes.push(size);
            keys.push((-savings, -(count as i128), size as i128));
            proof {
                assert(sizes@ =~= sizes_of(listed@, *problem));
                assert forall|j: int| 0 <= j < listed.len() implies ({
                    let area = problem.tensors@[listed@[j] as int].area();
                    let uses = future_uses(listed@[j], tensor_meta@, rem) as int;
                    sorting::has_key(#[trigger] keys@[j], -(area * uses), -uses, area)
                }) by {
                    if j < old_listed.len() {
                        assert(keys@[j] == old_keys[j]);
                        assert(listed@[j] == old_listed[j]);
                    }
                }
            }
        }
        i = i + 1;
    }
    greedy::choose_greedily(&listed, &sizes, &keys, available_capacity)
}

/// Every input of the operation is a graph input or available.
pub open spec fn inputs_available(op: Op, meta: Seq<TensorMeta>, available: Seq<TensorId>) -> bool {
    forall|i: int|
        0 <= i < op.inputs@.len() ==> meta[(#[trigger] op.inputs@[i]) as int].producer is None || available.contains(
            op.inputs@[i],
        )
}

/// Finds the remaining operations whose inputs are all available.
pub fn find_immediate_consumers(
    available_tensors: &[TensorId],
    remaining_ops: &HashSet<OpId>,
    problem: &Problem,
    tensor_meta: &[TensorMeta],
) -> (immediate: HashSet<OpId>)
    requires
        forall|op: OpId| #[trigger] remaining_ops@.contains(op) ==> op < problem.ops@.len(),
        forall|op: OpId, i: int|
            #![trigger remaining_ops@.contains(op), problem.ops@[op as int].inputs@[i]]
            remaining_ops@.contains(op) && 0 <= i < problem.ops@[op as int].inputs@.len()
                ==> problem.ops@[op as int].inputs@[i] < tensor_meta@.len(),
    ensures
        forall|op: OpId| #[trigger]
            immediate@.contains(op) <==> remaining_ops@.contains(op) && inputs_available(
                problem.ops@[op as int],
                tensor_meta@,
                available_tensors@,
            ),
{
    broadcast use vstd::std_specs::hash::group_hash_axioms;

    let available: HashSet<TensorId> = ids::set_of(available_tensors);
    let mut immediate: HashSet<OpId> = HashSet::new();
    let mut op_id: usize = 0;
    while op_id < problem.ops.len()
        invariant
            op_id <= problem.ops.len(),
            forall|x: usize| #[trigger] available@.contains(x) <==> available_tensors@.contains(x),
            forall|op: OpId, i: int|
                #![trigger remaining_ops@.contains(op), problem.ops@[op as int].inputs@[i]]
                remaining_ops@.contains(op) && 0 <= i < problem.ops@[op as int].inputs@.len()
                    ==> problem.ops@[op as int].inputs@[i] < tensor_meta@.len(),
            forall|op: OpId| #[trigger]
                immediate@.contains(op) <==> op < op_id && remaining_ops@.contains(op) && inputs_available(
                    problem.ops@[op as int],
                    tensor_meta@,
                    available_tensors@,
                ),
        decreases problem.ops.len() - op_id,
    {
        if remaining_ops.contains(&op_id) {
            let op: &Op = &problem.ops[op_id];
            let mut ready: bool = true;
            let mut i: usize = 0;
            while i < op.inputs.len()
                invariant
                    i <= op.inputs.len(),
                    op_id < problem.ops.len(),
                    *op == problem.ops@[op_id as int],
                    remaining_ops@.contains(op_id),
                    forall|x: usize| #[trigger] available@.contains(x) <==> available_tensors@.contains(x),
                    forall|op: OpId, i: int|
                        #![trigger remaining_ops@.contains(op), problem.ops@[op as int].inputs@[i]]
                        remaining_ops@.contains(op) && 0 <= i < problem.ops@[op as int].inputs@.len()
                            ==> problem.ops@[op as int].inputs@[i] < tensor_meta@.len(),
                    ready <==> forall|j: int|
                        0 <= j < i ==> tensor_meta@[(#[trigger] op.inputs@[j]) as int].producer is None
                            || available_tensors@.contains(op.inputs@[j]),
                decreases op.inputs.len() - i,
            {
                let t: usize = op.inputs[i];
                assert(t == problem.ops@[op_id as int].inputs@[i as int]);
                let here: bool = tensor_meta[t].producer.is_none() || available.contains(&t);
                if !here {
                    assert(!(tensor_meta@[op.inputs@[i as int] as int].producer is None));
                    ready = false;
                }
                i = i + 1;
            }
            if ready {
                immediate.insert(op_id);
            }
        }
        op_id = op_id + 1;
    }
    immediate
}

/// What the running group leaves of fast memory, less a margin of a twentieth.
pub open spec fn capacity_left(group: Seq<OpId>, p: Problem, g: Granularity, meta: Seq<TensorMeta>) -> int {
    p.fast_memory_capacity - footprint(group, p, g, meta) - arith::quotient(p.fast_memory_capacity as int, 20)
}

/// The capacity that the running group leaves for tensors that stay, less a margin of a twentieth.
pub fn compute_available_retention_capacity(
    ops: &[OpId],
    problem: &Problem,
    granularity: &Granularity,
    tensor_meta: &[TensorMeta],
) -> (available: FastMemoryCapacity)
    requires
        ids_in_range(ops@, *problem, tensor_meta@),
        capacity_left(ops@, *problem, *granularity, tensor_meta@) <= i64::MAX,
    ensures
        available == arith::greatest(capacity_left(ops@, *problem, *granularity, tensor_meta@), 0),
{
    let margin: i64 = problem.fast_memory_capacity / 20;
    let room: i128 = problem.fast_memory_capacity as i128 - margin as i128;
    let taken: i128 = measure_footprint(ops, problem, granularity, tensor_meta);
    if taken >= room {
        0
    } else {
        (room - taken) as i64
    }
}

/// Tensors that live only inside a group do not count toward its fast memory: the
/// footprint is that of what comes in, what goes out, and accumulators, and no
/// intermediate is among these.
pub proof fn intermediates_are_free(group: Seq<OpId>, p: Problem, g: Granularity, meta: Seq<TensorMeta>, t: TensorId)
    requires
        intermediates(group, p, meta).contains(t),
    ensures
        !external_outputs(group, p, meta).contains(t),
        meta[t as int].producer matches Some(from) && group.contains(from) ==> !external_inputs(
            group,
            p,
            meta,
        ).contains(t),
        g.depth <= 1 ==> footprint(group, p, g, meta) == arith::sum(
            slices(group, p, g, external_inputs(group, p, meta)),
        ) + arith::sum(whole_slices(p, g, external_outputs(group, p, meta))),
{
    let ins = inputs_of(group, p.ops@, group.len());
    let outs = outputs_of(group, p.ops@, group.len());
    ids::lemma_first_mentions(outs, |t: usize| t < meta.len() && !needed_outside(group, meta[t as int]), outs.len());
    ids::lemma_first_mentions(outs, |t: usize| t < meta.len() && needed_outside(group, meta[t as int]), outs.len());
    ids::lemma_first_mentions(ins, |t: usize| t < meta.len() && from_outside(group, meta[t as int]), ins.len());
    let a = slices(group, p, g, external_inputs(group, p, meta));
    let b = whole_slices(p, g, external_outputs(group, p, meta));
    let c = accumulators(group, p, g, meta, group.len());
    arith::lemma_sum_concat(a + b, c);
    arith::lemma_sum_concat(a, b);
}

/// The values of the listed ids, added up.
pub open spec fn sum_over(listed: Seq<usize>, f: spec_fn(usize) -> int) -> int {
    arith::sum(Seq::new(listed.len(), |i: int| f(listed[i])))
}

/// Taking out an id takes its value from the sum.
proof fn lemma_sum_over_without(listed: Seq<usize>, f: spec_fn(usize) -> int, i: int)
    requires
        0 <= i < listed.len(),
        listed.no_duplicates(),
    ensures
        sum_over(listed, f) == sum_over(listed.remove(i), f) + f(listed[i]),
        listed.remove(i).no_duplicates(),
        forall|x: usize| #[trigger] listed.remove(i).contains(x) <==> listed.contains(x) && x != listed[i],
{
    let values = Seq::new(listed.len(), |i: int| f(listed[i]));
    let rest = listed.remove(i);
    arith::lemma_sum_without(values, i);
    assert(values.remove(i) =~= Seq::new(rest.len(), |k: int| f(rest[k])));
    assert forall|a: int, b: int| 0 <= a < b < rest.len() implies rest[a] != rest[b] by {
        let a2 = if a < i { a } else { a + 1 };
        let b2 = if b < i { b } else { b + 1 };
        assert(rest[a] == listed[a2] && rest[b] == listed[b2]);
    }
    assert forall|x: usize| #[trigger] rest.contains(x) <==> listed.contains(x) && x != listed[i] by {
        if rest.contains(x) {
            let k = choose|k: int| 0 <= k < rest.len() && rest[k] == x;
            let k2 = if k < i { k } else { k + 1 };
            assert(listed[k2] == x);
        }
        if listed.contains(x) && x != listed[i] {
            let k = choose|k: int| 0 <= k < listed.len() && listed[k] == x;
            let k2 = if k < i { k } else { k - 1 };
            assert(rest[k2] == x);
        }
    }
}

/// Lists of the same distinct ids add up to the same.
proof fn lemma_sum_same_ids(one: Seq<usize>, two: Seq<usize>, f: spec_fn(usize) -> int)
    requires
        one.no_duplicates(),
        two.no_duplicates(),
        forall|x: usize| #[trigger] one.contains(x) <==> two.contains(x),
    ensures
        sum_over(one, f) == sum_over(two, f),
    decreases one.len(),
{
    if one.len() == 0 {
        if two.len() > 0 {
            assert(two.contains(two[0]));
            assert(one.contains(two[0]));
        }
        assert(Seq::new(one.len(), |i: int| f(one[i])) =~= Seq::new(two.len(), |i: int| f(two[i])));
    } else {
        let last = one.len() - 1;
        let x = one[last];
        assert(one.contains(x));
        let i = choose|i: int| 0 <= i < two.len() && two[i] == x;
        lemma_sum_over_without(one, f, last);
        lemma_sum_over_without(two, f, i);
        lemma_sum_same_ids(one.remove(last), two.remove(i), f);
    }
}

/// Values that are not negative do not add up to less than nothing.
proof fn lemma_sum_over_positive(listed: Seq<usize>, f: spec_fn(usize) -> int)
    requires
        forall|i: int| 0 <= i < listed.len() ==> f(#[trigger] listed[i]) >= 0,
    ensures
        sum_over(listed, f) >= 0,
{
    let values = Seq::new(listed.len(), |i: int| f(listed[i]));
    assert forall|i: int| 0 <= i < values.len() implies #[trigger] values[i] >= 0 by {
        assert(f(listed[i]) >= 0);
    }
    arith::lemma_sum_grows(values, values.len() as int);
    assert(values.take(values.len() as int) =~= values);
}

/// What each id of a list counts is covered by two other lists, so their sums cover its sum.
proof fn lemma_sum_covered(
    listed: Seq<usize>,
    f: spec_fn(usize) -> int,
    one: Seq<usize>,
    f1: spec_fn(usize) -> int,
    two: Seq<usize>,
    f2: spec_fn(usize) -> int,
)
    requires
        listed.no_duplicates(),
        one.no_duplicates(),
        two.no_duplicates(),
        forall|i: int| 0 <= i < one.len() ==> f1(#[trigger] one[i]) >= 0,
        forall|i: int| 0 <= i < two.len() ==> f2(#[trigger] two[i]) >= 0,
        forall|i: int|
            0 <= i < listed.len() ==> f(#[trigger] listed[i]) <= (if one.contains(listed[i]) { f1(listed[i]) } else { 0 })
                + (if two.contains(listed[i]) { f2(listed[i]) } else { 0 }),
    ensures
        sum_over(listed, f) <= sum_over(one, f1) + sum_over(two, f2),
    decreases listed.len(),
{
    if listed.len() == 0 {
        lemma_sum_over_positive(one, f1);
        lemma_sum_over_positive(two, f2);
        assert(Seq::new(listed.len(), |i: int| f(listed[i])) =~= Seq::<int>::empty());
    } else {
        let last = listed.len() - 1;
        let x = listed[last];
        lemma_sum_over_without(listed, f, last);
        let rest = listed.remove(last);
        let one2 = if one.contains(x) {
            let i = choose|i: int| 0 <= i < one.len() && one[i] == x;
            lemma_sum_over_without(one, f1, i);
            one.remove(i)
        } else {
            one
        };
        let two2 = if two.contains(x) {
            let i = choose|i: int| 0 <= i < two.len() && two[i] == x;
            lemma_sum_over_without(two, f2, i);
            two.remove(i)
        } else {
            two
        };
        assert forall|i: int| 0 <= i < one2.len() implies f1(#[trigger] one2[i]) >= 0 by {
            assert(one2.contains(one2[i]));
            let k = choose|k: int| 0 <= k < one.len() && one[k] == one2[i];
            assert(f1(one[k]) >= 0);
        }
        assert forall|i: int| 0 <= i < two2.len() implies f2(#[trigger] two2[i]) >= 0 by {
            assert(two2.contains(two2[i]));
            let k = choose|k: int| 0 <= k < two.len() && two[k] == two2[i];
            assert(f2(two[k]) >= 0);
        }
        assert forall|i: int| 0 <= i < rest.len() implies f(#[trigger] rest[i]) <= (if one2.contains(rest[i]) {
            f1(rest[i])
        } else {
            0
        }) + (if two2.contains(rest[i]) { f2(rest[i]) } else { 0 }) by {
            assert(rest.contains(rest[i]));
            assert(rest[i] == listed[i]);
        }
        lemma_sum_covered(rest, f, one2, f1, two2, f2);
        assert(f(listed[last]) <= (if one.contains(x) { f1(x) } else { 0 }) + (if two.contains(x) { f2(x) } else { 0 }));
    }
}

/// What the accumulators of one operation of the group take.
pub open spec fn held_by(group: Seq<OpId>, p: Problem, g: Granularity, meta: Seq<TensorMeta>, op: OpId) -> int {
    let outs = p.ops@[op as int].outputs@;
    if g.depth > 1 && p.ops@[op as int].op_type == OpType::MatMul {
        arith::sum(held_outputs(group, p, g, meta, outs, outs.len()))
    } else {
        0
    }
}

proof fn lemma_accumulators_sum(group: Seq<OpId>, p: Problem, g: Granularity, meta: Seq<TensorMeta>, k: nat)
    requires
        k <= group.len(),
    ensures
        arith::sum(accumulators(group, p, g, meta, k)) == sum_over(
            group.take(k as int),
            |op: usize| held_by(group, p, g, meta, op),
        ),
    decreases k,
{
    let f = |op: usize| held_by(group, p, g, meta, op);
    let some = group.take(k as int);
    let values = Seq::new(some.len(), |i: int| f(some[i]));
    if k == 0 {
        assert(values =~= Seq::<int>::empty());
    } else {
        lemma_accumulators_sum(group, p, g, meta, (k - 1) as nat);
        let fewer = group.take(k - 1);
        assert(values.drop_last() =~= Seq::new(fewer.len(), |i: int| f(fewer[i])));
        let outs = p.ops@[group[k - 1] as int].outputs@;
        arith::lemma_sum_concat(
            accumulators(group, p, g, meta, (k - 1) as nat),
            held_outputs(group, p, g, meta, outs, outs.len()),
        );
    }
}

/// The footprint, each of its three parts added up over ids.
proof fn lemma_footprint_sums(group: Seq<OpId>, p: Problem, g: Granularity, meta: Seq<TensorMeta>)
    ensures
        footprint(group, p, g, meta) == sum_over(
            external_inputs(group, p, meta),
            |t: usize| slice_of(group, p, g, t),
        ) + sum_over(external_outputs(group, p, meta), |t: usize| p.tensors@[t as int].tile_area(g)) + sum_over(
            group,
            |op: usize| held_by(group, p, g, meta, op),
        ),
{
    let ins = external_inputs(group, p, meta);
    let outs = external_outputs(group, p, meta);
    let f = |t: usize| slice_of(group, p, g, t);
    let h = |t: usize| p.tensors@[t as int].tile_area(g);
    assert(slices(group, p, g, ins) =~= Seq::new(ins.len(), |i: int| f(ins[i])));
    assert(whole_slices(p, g, outs) =~= Seq::new(outs.len(), |i: int| h(outs[i])));
    arith::lemma_sum_concat(slices(group, p, g, ins), whole_slices(p, g, outs));
    arith::lemma_sum_concat(
        slices(group, p, g, ins) + whole_slices(p, g, outs),
        accumulators(group, p, g, meta, group.len()),
    );
    lemma_accumulators_sum(group, p, g, meta, group.len());
    assert(group.take(group.len() as int) =~= group);
}

/// What crosses the border of a group, told by its members.
proof fn lemma_border_members(group: Seq<OpId>, p: Problem, meta: Seq<TensorMeta>)
    ensures
        external_inputs(group, p, meta).no_duplicates(),
        external_outputs(group, p, meta).no_duplicates(),
        forall|t: usize| #[trigger]
            external_inputs(group, p, meta).contains(t) <==> takes_in(group, p.ops@, t) && t < meta.len() && from_outside(
                group,
                meta[t as int],
            ),
        forall|t: usize| #[trigger]
            external_outputs(group, p, meta).contains(t) <==> puts_out(group, p.ops@, t) && t < meta.len()
                && needed_outside(group, meta[t as int]),
{
    let all_in = inputs_of(group, p.ops@, group.len());
    let all_out = outputs_of(group, p.ops@, group.len());
    let outside = |t: usize| t < meta.len() && from_outside(group, meta[t as int]);
    let needed = |t: usize| t < meta.len() && needed_outside(group, meta[t as int]);
    ids::lemma_first_mentions(all_in, outside, all_in.len());
    ids::lemma_first_mentions(all_out, needed, all_out.len());
    assert(all_in.take(all_in.len() as int) =~= all_in);
    assert(all_out.take(all_out.len() as int) =~= all_out);
    lemma_listed(group, p.ops@, group.len());
    assert(group.take(group.len() as int) =~= group);
    assert forall|t: usize| #[trigger]
        external_inputs(group, p, meta).contains(t) <==> takes_in(group, p.ops@, t) && t < meta.len() && from_outside(
            group,
            meta[t as int],
        ) by {
        assert(all_in.contains(t) <==> takes_in(group, p.ops@, t));
        assert(outside(t) <==> t < meta.len() && from_outside(group, meta[t as int]));
    }
    assert forall|t: usize| #[trigger]
        external_outputs(group, p, meta).contains(t) <==> puts_out(group, p.ops@, t) && t < meta.len() && needed_outside(
            group,
            meta[t as int],
        ) by {
        assert(all_out.contains(t) <==> puts_out(group, p.ops@, t));
        assert(needed(t) <==> t < meta.len() && needed_outside(group, meta[t as int]));
    }
}

/// An operation of the group takes in tensor `t`.
pub open spec fn takes_in(group: Seq<OpId>, ops: Seq<Op>, t: TensorId) -> bool {
    exists|i: int| 0 <= i < group.len() && ops[(#[trigger] group[i]) as int].inputs@.contains(t)
}

/// An operation of the group puts out tensor `t`.
pub open spec fn puts_out(group: Seq<OpId>, ops: Seq<Op>, t: TensorId) -> bool {
    exists|i: int| 0 <= i < group.len() && ops[(#[trigger] group[i]) as int].outputs@.contains(t)
}

proof fn lemma_listed(group: Seq<OpId>, ops: Seq<Op>, k: nat)
    requires
        k <= group.len(),
    ensures
        forall|t: usize| #[trigger]
            inputs_of(group, ops, k).contains(t) <==> takes_in(group.take(k as int), ops, t),
        forall|t: usize| #[trigger]
            outputs_of(group, ops, k).contains(t) <==> puts_out(group.take(k as int), ops, t),
    decreases k,
{
    let some = group.take(k as int);
    if k > 0 {
        lemma_listed(group, ops, (k - 1) as nat);
        let fewer = group.take(k - 1);
        let op = ops[group[k - 1] as int];
        assert forall|t: usize| #[trigger] inputs_of(group, ops, k).contains(t) <==> takes_in(some, ops, t) by {
            let rest = inputs_of(group, ops, (k - 1) as nat);
            ids::lemma_concat_contains(rest, op.inputs@, t);
            if takes_in(fewer, ops, t) {
                let i = choose|i: int| 0 <= i < fewer.len() && ops[(#[trigger] fewer[i]) as int].inputs@.contains(t);
                assert(some[i] == fewer[i]);
            }
            if op.inputs@.contains(t) {
                assert(some[k - 1] == group[k - 1]);
            }
            if takes_in(some, ops, t) {
                let i = choose|i: int| 0 <= i < some.len() && ops[(#[trigger] some[i]) as int].inputs@.contains(t);
                if i < k - 1 {
                    assert(fewer[i] == some[i]);
                }
            }
        }
        assert forall|t: usize| #[trigger] outputs_of(group, ops, k).contains(t) <==> puts_out(some, ops, t) by {
            let rest = outputs_of(group, ops, (k - 1) as nat);
            ids::lemma_concat_contains(rest, op.outputs@, t);
            if puts_out(fewer, ops, t) {
                let i = choose|i: int| 0 <= i < fewer.len() && ops[(#[trigger] fewer[i]) as int].outputs@.contains(t);
                assert(some[i] == fewer[i]);
            }
            if op.outputs@.contains(t) {
                assert(some[k - 1] == group[k - 1]);
            }
            if puts_out(some, ops, t) {
                let i = choose|i: int| 0 <= i < some.len() && ops[(#[trigger] some[i]) as int].outputs@.contains(t);
                if i < k - 1 {
                    assert(fewer[i] == some[i]);
                }
            }
        }
    }
}

/// The order of a group does not change what it takes.
pub proof fn order_does_not_matter(one: Seq<OpId>, two: Seq<OpId>, p: Problem, g: Granularity, meta: Seq<TensorMeta>)
    requires
        one.no_duplicates(),
        two.no_duplicates(),
        forall|op: OpId| #[trigger] one.contains(op) <==> two.contains(op),
    ensures
        footprint(one, p, g, meta) == footprint(two, p, g, meta),
{
    lemma_footprint_sums(one, p, g, meta);
    lemma_footprint_sums(two, p, g, meta);
    lemma_border_members(one, p, meta);
    lemma_border_members(two, p, meta);
    assert forall|t: usize| #[trigger] takes_in(one, p.ops@, t) == takes_in(two, p.ops@, t) by {
        lemma_same_mentions(one, two, p.ops@, t);
        lemma_same_mentions(two, one, p.ops@, t);
    }
    assert forall|t: usize| #[trigger] puts_out(one, p.ops@, t) == puts_out(two, p.ops@, t) by {
        lemma_same_mentions(one, two, p.ops@, t);
        lemma_same_mentions(two, one, p.ops@, t);
    }
    assert forall|t: usize| #[trigger] slice_of(one, p, g, t) == slice_of(two, p, g, t) by {
        lemma_same_mentions(one, two, p.ops@, t);
        lemma_same_mentions(two, one, p.ops@, t);
    }
    assert forall|m: TensorMeta| #[trigger] from_outside(one, m) == from_outside(two, m) by {}
    assert forall|m: TensorMeta| #[trigger] needed_outside(one, m) == needed_outside(two, m) by {}
    let f = |t: usize| slice_of(one, p, g, t);
    assert(f =~= |t: usize| slice_of(two, p, g, t));
    lemma_sum_same_ids(external_inputs(one, p, meta), external_inputs(two, p, meta), f);
    lemma_sum_same_ids(
        external_outputs(one, p, meta),
        external_outputs(two, p, meta),
        |t: usize| p.tensors@[t as int].tile_area(g),
    );
    let h = |op: usize| held_by(one, p, g, meta, op);
    assert forall|op: usize| #[trigger] held_by(one, p, g, meta, op) == held_by(two, p, g, meta, op) by {
        let outs = p.ops@[op as int].outputs@;
        lemma_held_same(one, two, p, g, meta, outs, outs.len());
    }
    assert(h =~= |op: usize| held_by(two, p, g, meta, op));
    lemma_sum_same_ids(one, two, h);
}

proof fn lemma_held_same(
    one: Seq<OpId>,
    two: Seq<OpId>,
    p: Problem,
    g: Granularity,
    meta: Seq<TensorMeta>,
    outs: Seq<TensorId>,
    k: nat,
)
    requires
        k <= outs.len(),
        forall|m: TensorMeta| #[trigger] needed_outside(one, m) == needed_outside(two, m),
    ensures
        held_outputs(one, p, g, meta, outs, k) == held_outputs(two, p, g, meta, outs, k),
    decreases k,
{
    if k > 0 {
        lemma_held_same(one, two, p, g, meta, outs, (k - 1) as nat);
        assert(needed_outside(one, meta[outs[k - 1] as int]) == needed_outside(two, meta[outs[k - 1] as int]));
    }
}

/// What a group mentions, a group with all its operations mentions too.
proof fn lemma_same_mentions(one: Seq<OpId>, two: Seq<OpId>, ops: Seq<Op>, t: TensorId)
    requires
        forall|op: OpId| #[trigger] one.contains(op) ==> two.contains(op),
    ensures
        takes_in(one, ops, t) ==> takes_in(two, ops, t),
        puts_out(one, ops, t) ==> puts_out(two, ops, t),
        feeds_matmul(one, ops, t) ==> feeds_matmul(two, ops, t),
{
    if takes_in(one, ops, t) {
        let i = choose|i: int| 0 <= i < one.len() && ops[(#[trigger] one[i]) as int].inputs@.contains(t);
        assert(one.contains(one[i]));
        let j = choose|j: int| 0 <= j < two.len() && two[j] == one[i];
        assert(ops[two[j] as int].inputs@.contains(t));
    }
    if puts_out(one, ops, t) {
        let i = choose|i: int| 0 <= i < one.len() && ops[(#[trigger] one[i]) as int].outputs@.contains(t);
        assert(one.contains(one[i]));
        let j = choose|j: int| 0 <= j < two.len() && two[j] == one[i];
        assert(ops[two[j] as int].outputs@.contains(t));
    }
    if feeds_matmul(one, ops, t) {
        let i = choose|i: int|
            0 <= i < one.len() && (#[trigger] ops[one[i] as int]).op_type == OpType::MatMul
                && ops[one[i] as int].inputs@.contains(t);
        assert(one.contains(one[i]));
        let j = choose|j: int| 0 <= j < two.len() && two[j] == one[i];
        assert(ops[two[j] as int].op_type == OpType::MatMul);
    }
}

/// No tensor and no tile has a negative side.
pub open spec fn sides_are_positive(p: Problem, g: Granularity) -> bool {
    &&& g.width >= 0
    &&& g.height >= 0
    &&& forall|t: int| 0 <= t < p.tensors@.len() ==> (#[trigger] p.tensors@[t]).width >= 0 && p.tensors@[t].height >= 0
}

proof fn lemma_slices_positive(group: Seq<OpId>, p: Problem, g: Granularity, t: TensorId)
    requires
        sides_are_positive(p, g),
        t < p.tensors@.len(),
    ensures
        p.tensors@[t as int].tile_area(g) >= 0,
        slice_of(group, p, g, t) >= 0,
{
    let tensor = p.tensors@[t as int];
    let w = arith::least(tensor.width as int, g.width as int);
    let h = arith::least(tensor.height as int, g.height as int);
    assert(w * h >= 0) by (nonlinear_arith)
        requires
            w >= 0,
            h >= 0,
    ;
}

/// A group never takes less than nothing.
pub proof fn footprints_are_positive(group: Seq<OpId>, p: Problem, g: Granularity, meta: Seq<TensorMeta>)
    requires
        ids_in_range(group, p, meta),
        sides_are_positive(p, g),
    ensures
        footprint(group, p, g, meta) >= 0,
        p.fast_memory_capacity >= 0 ==> capacity_left(group, p, g, meta) <= p.fast_memory_capacity,
{
    let ins = external_inputs(group, p, meta);
    let outs = external_outputs(group, p, meta);
    lemma_footprint_sums(group, p, g, meta);
    lemma_border_known(group, p, meta);
    let f = |t: usize| slice_of(group, p, g, t);
    let tile = |t: usize| p.tensors@[t as int].tile_area(g);
    let h = |op: usize| held_by(group, p, g, meta, op);
    assert forall|i: int| 0 <= i < ins.len() implies f(#[trigger] ins[i]) >= 0 by {
        lemma_slices_positive(group, p, g, ins[i]);
    }
    lemma_sum_over_positive(ins, f);
    assert forall|i: int| 0 <= i < outs.len() implies tile(#[trigger] outs[i]) >= 0 by {
        lemma_slices_positive(group, p, g, outs[i]);
    }
    lemma_sum_over_positive(outs, tile);
    assert forall|i: int| 0 <= i < group.len() implies h(#[trigger] group[i]) >= 0 by {
        lemma_held_positive(group, p, g, meta, i, p.ops@[group[i] as int].outputs@.len());
    }
    lemma_sum_over_positive(group, h);
}

proof fn lemma_held_positive(group: Seq<OpId>, p: Problem, g: Granularity, meta: Seq<TensorMeta>, at: int, k: nat)
    requires
        0 <= at < group.len(),
        k <= p.ops@[group[at] as int].outputs@.len(),
        ids_in_range(group, p, meta),
        sides_are_positive(p, g),
    ensures
        arith::sum(held_outputs(group, p, g, meta, p.ops@[group[at] as int].outputs@, k)) >= 0,
    decreases k,
{
    if k > 0 {
        lemma_held_positive(group, p, g, meta, at, (k - 1) as nat);
        let outs = p.ops@[group[at] as int].outputs@;
        let t = outs[k - 1];
        assert(p.ops@[group[at] as int].outputs@[k - 1] < p.tensors@.len());
        lemma_slices_positive(group, p, g, t);
        let rest = held_outputs(group, p, g, meta, outs, (k - 1) as nat);
        assert(rest.push(p.tensors@[t as int].tile_area(g)).drop_last() =~= rest);
    }
}

/// What is left for tensors that stay fits beside the running group, with the margin to spare.
pub proof fn retention_leaves_a_margin(group: Seq<OpId>, p: Problem, g: Granularity, meta: Seq<TensorMeta>, available: int)
    requires
        p.fast_memory_capacity >= 0,
        available == arith::greatest(capacity_left(group, p, g, meta), 0),
    ensures
        available > 0 ==> footprint(group, p, g, meta) + available + p.fast_memory_capacity as int / 20
            == p.fast_memory_capacity,
        available > 0 ==> footprint(group, p, g, meta) + available <= p.fast_memory_capacity,
{
}

/// Two groups that run as one never take more than both apart, in whatever order they
/// are put together, and an empty group takes nothing.
pub proof fn fusing_never_takes_more(a: Seq<OpId>, b: Seq<OpId>, p: Problem, g: Granularity, meta: Seq<TensorMeta>)
    requires
        ids_in_range(a, p, meta),
        ids_in_range(b, p, meta),
        sides_are_positive(p, g),
    ensures
        footprint(a + b, p, g, meta) <= footprint(a, p, g, meta) + footprint(b, p, g, meta),
        (a + b).no_duplicates() ==> footprint(a + b, p, g, meta) == footprint(b + a, p, g, meta),
        footprint(Seq::empty(), p, g, meta) == 0,
{
    let both = a + b;
    assert forall|op: OpId| #[trigger] both.contains(op) <==> a.contains(op) || b.contains(op) by {
        ids::lemma_concat_contains(a, b, op);
    }
    lemma_footprint_sums(a, p, g, meta);
    lemma_footprint_sums(b, p, g, meta);
    lemma_footprint_sums(both, p, g, meta);
    lemma_border_members(a, p, meta);
    lemma_border_members(b, p, meta);
    lemma_border_members(both, p, meta);
    lemma_border_known(a, p, meta);
    lemma_border_known(b, p, meta);
    assert forall|t: usize| #[trigger] takes_in(both, p.ops@, t) implies takes_in(a, p.ops@, t) || takes_in(b, p.ops@, t) by {
        let i = choose|i: int| 0 <= i < both.len() && p.ops@[(#[trigger] both[i]) as int].inputs@.contains(t);
        if i < a.len() {
            assert(a[i] == both[i]);
        } else {
            assert(b[i - a.len()] == both[i]);
        }
    }
    assert forall|t: usize| #[trigger] puts_out(both, p.ops@, t) implies puts_out(a, p.ops@, t) || puts_out(b, p.ops@, t) by {
        let i = choose|i: int| 0 <= i < both.len() && p.ops@[(#[trigger] both[i]) as int].outputs@.contains(t);
        if i < a.len() {
            assert(a[i] == both[i]);
        } else {
            assert(b[i - a.len()] == both[i]);
        }
    }
    assert forall|m: TensorMeta| #[trigger] from_outside(both, m) implies from_outside(a, m) && from_outside(b, m) by {}
    assert forall|m: TensorMeta| #[trigger] needed_outside(both, m) implies needed_outside(a, m) && needed_outside(b, m) by {
        if consumed_inside(a, m) || consumed_inside(b, m) {
            assert(consumed_inside(both, m));
        }
    }
    lemma_inputs_covered(a, b, p, g, meta);
    let ins_a = external_inputs(a, p, meta);
    let ins_b = external_inputs(b, p, meta);
    assert forall|i: int| 0 <= i < ins_a.len() implies slice_of(a, p, g, #[trigger] ins_a[i]) >= 0 by {
        lemma_slices_positive(a, p, g, ins_a[i]);
    }
    assert forall|i: int| 0 <= i < ins_b.len() implies slice_of(b, p, g, #[trigger] ins_b[i]) >= 0 by {
        lemma_slices_positive(b, p, g, ins_b[i]);
    }
    lemma_sum_covered(
        external_inputs(both, p, meta),
        |t: usize| slice_of(both, p, g, t),
        ins_a,
        |t: usize| slice_of(a, p, g, t),
        ins_b,
        |t: usize| slice_of(b, p, g, t),
    );
    let tile = |t: usize| p.tensors@[t as int].tile_area(g);
    let outs = external_outputs(both, p, meta);
    let outs_a = external_outputs(a, p, meta);
    let outs_b = external_outputs(b, p, meta);
    assert forall|i: int| 0 <= i < outs_a.len() implies tile(#[trigger] outs_a[i]) >= 0 by {
        lemma_slices_positive(a, p, g, outs_a[i]);
    }
    assert forall|i: int| 0 <= i < outs_b.len() implies tile(#[trigger] outs_b[i]) >= 0 by {
        lemma_slices_positive(b, p, g, outs_b[i]);
    }
    assert forall|i: int| 0 <= i < outs.len() implies tile(#[trigger] outs[i]) <= (if outs_a.contains(outs[i]) {
        tile(outs[i])
    } else {
        0
    }) + (if outs_b.contains(outs[i]) { tile(outs[i]) } else { 0 }) by {
        assert(outs.contains(outs[i]));
        assert(outs_a.contains(outs[i]) || outs_b.contains(outs[i]));
        if outs_a.contains(outs[i]) {
            let k = choose|k: int| 0 <= k < outs_a.len() && outs_a[k] == outs[i];
            assert(tile(outs_a[k]) >= 0);
        }
    }
    lemma_sum_covered(outs, tile, outs_a, tile, outs_b, tile);
    let h = |op: usize| held_by(both, p, g, meta, op);
    lemma_held_less(a, both, p, g, meta);
    lemma_held_less(b, both, p, g, meta);
    let left = Seq::new(a.len(), |i: int| h(a[i]));
    let right = Seq::new(b.len(), |i: int| h(b[i]));
    assert(Seq::new(both.len(), |i: int| h(both[i])) =~= left + right);
    arith::lemma_sum_concat(left, right);
    if both.no_duplicates() {
        let other = b + a;
        assert forall|op: OpId| #[trigger] other.contains(op) <==> both.contains(op) by {
            ids::lemma_concat_contains(b, a, op);
        }
        assert forall|i: int, j: int| 0 <= i < j < other.len() implies other[i] != other[j] by {
            let i2 = if i < b.len() { i + a.len() } else { i - b.len() };
            let j2 = if j < b.len() { j + a.len() } else { j - b.len() };
            assert(other[i] == both[i2] && other[j] == both[j2]);
        }
        order_does_not_matter(both, other, p, g, meta);
    }
    assert(charges(Seq::empty(), p, g, meta) =~= Seq::<int>::empty());
}

/// What comes in from outside of both groups comes in from outside of one of them.
proof fn lemma_inputs_covered(a: Seq<OpId>, b: Seq<OpId>, p: Problem, g: Granularity, meta: Seq<TensorMeta>)
    requires
        ids_in_range(a, p, meta),
        ids_in_range(b, p, meta),
        sides_are_positive(p, g),
        forall|t: usize| #[trigger]
            takes_in(a + b, p.ops@, t) ==> takes_in(a, p.ops@, t) || takes_in(b, p.ops@, t),
        forall|m: TensorMeta| #[trigger] from_outside(a + b, m) ==> from_outside(a, m) && from_outside(b, m),
    ensures
        forall|i: int|
            0 <= i < external_inputs(a + b, p, meta).len() ==> {
                let t = #[trigger] external_inputs(a + b, p, meta)[i];
                slice_of(a + b, p, g, t) <= (if external_inputs(a, p, meta).contains(t) {
                    slice_of(a, p, g, t)
                } else {
                    0
                }) + (if external_inputs(b, p, meta).contains(t) { slice_of(b, p, g, t) } else { 0 })
            },
{
    let both = a + b;
    let ins = external_inputs(both, p, meta);
    lemma_border_members(a, p, meta);
    lemma_border_members(b, p, meta);
    lemma_border_members(both, p, meta);
    lemma_border_known(a, p, meta);
    lemma_border_known(b, p, meta);
    assert forall|i: int| 0 <= i < ins.len() implies ({
        let t = #[trigger] ins[i];
        slice_of(both, p, g, t) <= (if external_inputs(a, p, meta).contains(t) { slice_of(a, p, g, t) } else { 0 }) + (
        if external_inputs(b, p, meta).contains(t) { slice_of(b, p, g, t) } else { 0 })
    }) by {
        let t = ins[i];
        let ins_a = external_inputs(a, p, meta);
        let ins_b = external_inputs(b, p, meta);
        assert(ins.contains(t));
        assert(takes_in(both, p.ops@, t) && from_outside(both, meta[t as int]));
        assert(ins_a.contains(t) || ins_b.contains(t));
        if ins_a.contains(t) {
            let k = choose|k: int| 0 <= k < ins_a.len() && ins_a[k] == t;
            assert(ins_a[k] < p.tensors@.len());
        } else {
            let k = choose|k: int| 0 <= k < ins_b.len() && ins_b[k] == t;
            assert(ins_b[k] < p.tensors@.len());
        }
        lemma_slices_positive(a, p, g, t);
        lemma_slices_positive(b, p, g, t);
        if feeds_matmul(both, p.ops@, t) {
            let k = choose|k: int|
                0 <= k < both.len() && (#[trigger] p.ops@[both[k] as int]).op_type == OpType::MatMul
                    && p.ops@[both[k] as int].inputs@.contains(t);
            if k < a.len() {
                assert(a[k] == both[k]);
                assert(feeds_matmul(a, p.ops@, t));
                assert(takes_in(a, p.ops@, t));
            } else {
                assert(b[k - a.len()] == both[k]);
                assert(feeds_matmul(b, p.ops@, t));
                assert(takes_in(b, p.ops@, t));
            }
        } else {
            if feeds_matmul(a, p.ops@, t) {
                let k = choose|k: int|
                    0 <= k < a.len() && (#[trigger] p.ops@[a[k] as int]).op_type == OpType::MatMul
                        && p.ops@[a[k] as int].inputs@.contains(t);
                assert(both[k] == a[k]);
                assert(p.ops@[both[k] as int].op_type == OpType::MatMul);
            }
            if feeds_matmul(b, p.ops@, t) {
                let k = choose|k: int|
                    0 <= k < b.len() && (#[trigger] p.ops@[b[k] as int]).op_type == OpType::MatMul
                        && p.ops@[b[k] as int].inputs@.contains(t);
                assert(both[k + a.len()] == b[k]);
                assert(p.ops@[both[k + a.len()] as int].op_type == OpType::MatMul);
            }
        }
    }
}

/// Within a larger group the operations of a group hold no more.
proof fn lemma_held_less(group: Seq<OpId>, larger: Seq<OpId>, p: Problem, g: Granularity, meta: Seq<TensorMeta>)
    requires
        ids_in_range(group, p, meta),
        sides_are_positive(p, g),
        forall|m: TensorMeta| #[trigger] needed_outside(larger, m) ==> needed_outside(group, m),
    ensures
        sum_over(group, |op: usize| held_by(larger, p, g, meta, op)) <= sum_over(
            group,
            |op: usize| held_by(group, p, g, meta, op),
        ),
{
    let f = |op: usize| held_by(larger, p, g, meta, op);
    let h = |op: usize| held_by(group, p, g, meta, op);
    let less = Seq::new(group.len(), |i: int| f(group[i]));
    let more = Seq::new(group.len(), |i: int| h(group[i]));
    assert forall|i: int| 0 <= i < group.len() implies #[trigger] less[i] <= more[i] by {
        lemma_held_outputs_less(group, larger, p, g, meta, i, p.ops@[group[i] as int].outputs@.len());
    }
    lemma_sum_less(less, more);
}

proof fn lemma_held_outputs_less(
    group: Seq<OpId>,
    larger: Seq<OpId>,
    p: Problem,
    g: Granularity,
    meta: Seq<TensorMeta>,
    at: int,
    k: nat,
)
    requires
        0 <= at < group.len(),
        k <= p.ops@[group[at] as int].outputs@.len(),
        ids_in_range(group, p, meta),
        sides_are_positive(p, g),
        forall|m: TensorMeta| #[trigger] needed_outside(larger, m) ==> needed_outside(group, m),
    ensures
        arith::sum(held_outputs(larger, p, g, meta, p.ops@[group[at] as int].outputs@, k)) <= arith::sum(
            held_outputs(group, p, g, meta, p.ops@[group[at] as int].outputs@, k),
        ),
    decreases k,
{
    if k > 0 {
        lemma_held_outputs_less(group, larger, p, g, meta, at, (k - 1) as nat);
        let outs = p.ops@[group[at] as int].outputs@;
        let t = outs[k - 1];
        assert(p.ops@[group[at] as int].outputs@[k - 1] < p.tensors@.len());
        lemma_slices_positive(group, p, g, t);
        let tile = p.tensors@[t as int].tile_area(g);
        let less = held_outputs(larger, p, g, meta, outs, (k - 1) as nat);
        let more = held_outputs(group, p, g, meta, outs, (k - 1) as nat);
        assert(less.push(tile).drop_last() =~= less);
        assert(more.push(tile).drop_last() =~= more);
        assert(needed_outside(larger, meta[t as int]) ==> needed_outside(group, meta[t as int]));
    }
}

proof fn lemma_sum_less(less: Seq<int>, more: Seq<int>)
    requires
        less.len() == more.len(),
        forall|i: int| 0 <= i < less.len() ==> #[trigger] less[i] <= more[i],
    ensures
        arith::sum(less) <= arith::sum(more),
    decreases less.len(),
{
    if less.len() > 0 {
        lemma_sum_less(less.drop_last(), more.drop_last());
    }
}

/// What stays in fast memory fits in the capacity that is left for it.
pub proof fn residents_fit(
    kept: Seq<TensorId>,
    outputs: Seq<TensorId>,
    p: Problem,
    meta: Seq<TensorMeta>,
    remaining: Set<OpId>,
    capacity: int,
)
    requires
        is_residency(kept, outputs, p, meta, remaining, capacity),
        capacity >= 0,
        forall|i: int| 0 <= i < outputs.len() ==> arith::fits(p.tensors@[(#[trigger] outputs[i]) as int].area()),
    ensures
        arith::sum(kept.map_values(|t: TensorId| p.tensors@[t as int].area())) <= capacity,
{
    let listed = used_later(outputs, meta, remaining, outputs.len());
    let keys = choose|keys: Seq<SortKey>| #[trigger]
        ranks_by_savings(keys, listed, p, meta, remaining) && greedy::is_greedy_choice(
            listed,
            sizes_of(listed, p),
            keys,
            capacity,
            kept,
        );
    lemma_used_later_listed(outputs, meta, remaining, outputs.len());
    assert forall|i: int| 0 <= i < listed.len() implies #[trigger] sizes_of(listed, p)[i] == p.tensors@[listed[i] as int].area() by {
        assert(outputs.contains(listed[i]));
        let j = choose|j: int| 0 <= j < outputs.len() && outputs[j] == listed[i];
        assert(arith::fits(p.tensors@[outputs[j] as int].area()));
    }
    greedy::chosen_items_fit(
        listed,
        sizes_of(listed, p),
        keys,
        capacity,
        kept,
        |t: TensorId| p.tensors@[t as int].area(),
    );
}

proof fn lemma_used_later_listed(listed: Seq<TensorId>, meta: Seq<TensorMeta>, remaining: Set<OpId>, k: nat)
    requires
        k <= listed.len(),
    ensures
        forall|i: int|
            0 <= i < used_later(listed, meta, remaining, k).len() ==> listed.contains(
                #[trigger] used_later(listed, meta, remaining, k)[i],
            ),
    decreases k,
{
    if k > 0 {
        lemma_used_later_listed(listed, meta, remaining, (k - 1) as nat);
        assert(listed.contains(listed[k - 1]));
        let rest = used_later(listed, meta, remaining, (k - 1) as nat);
        let all = used_later(listed, meta, remaining, k);
        assert forall|i: int| 0 <= i < all.len() implies listed.contains(#[trigger] all[i]) by {
            if i < rest.len() {
                assert(all[i] == rest[i]);
            }
        }
    }
}

} // verus!
