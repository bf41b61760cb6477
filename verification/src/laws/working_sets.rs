//! Working sets and fast memory, in terms of operations, producers and consumers.
use vstd::prelude::*;
use crate::{arith, dataflow, ids, memory};
use crate::memory::WorkingSet;
use crate::models::{Granularity, Op, OpId, OpType, Problem, Tensor, TensorId, TensorMeta};

verus! {

/// The sizes of the listed slices, added up.
pub open spec fn listed_total(slices: Seq<(TensorId, i64)>) -> int
    decreases slices.len(),
{
    if slices.len() == 0 {
        0
    } else {
        listed_total(slices.drop_last()) + slices.last().1
    }
}

proof fn lemma_listed_total(listed: Seq<TensorId>, sizes: Seq<int>)
    requires
        listed.len() == sizes.len(),
        forall|i: int| 0 <= i < sizes.len() ==> arith::fits(#[trigger] sizes[i]),
    ensures
        listed_total(memory::sized(listed, sizes)) == arith::sum(sizes),
    decreases listed.len(),
{
    let all = memory::sized(listed, sizes);
    if listed.len() > 0 {
        lemma_listed_total(listed.drop_last(), sizes.drop_last());
        assert(all.drop_last() =~= memory::sized(listed.drop_last(), sizes.drop_last()));
        assert(arith::fits(sizes[sizes.len() - 1]));
    }
}

/// A tensor that the group puts out is listed with the size of its tile among what goes
/// out if it is a result of the graph or some consumer is not in the group; else it is
/// among what stays inside. It is never listed in both places.
pub proof fn what_others_consume_goes_out(
    ws: WorkingSet,
    group: Seq<OpId>,
    p: Problem,
    g: Granularity,
    meta: Seq<TensorMeta>,
    i: int,
    j: int,
)
    requires
        ws.is_of(group, p, g, meta),
        memory::ids_in_range(group, p, meta),
        memory::footprint_fits(group, p, g, meta),
        0 <= i < group.len(),
        0 <= j < p.ops@[group[i] as int].outputs@.len(),
    ensures
        ({
            let t = p.ops@[group[i] as int].outputs@[j];
            let m = meta[t as int];
            let w = if p.tensors@[t as int].width <= g.width { p.tensors@[t as int].width } else { g.width };
            let h = if p.tensors@[t as int].height <= g.height { p.tensors@[t as int].height } else { g.height };
            let leaves = m.is_output || exists|c: int|
                0 <= c < m.consumers@.len() && !group.contains(#[trigger] m.consumers@[c]);
            &&& leaves ==> exists|k: int|
                0 <= k < ws.output_slices@.len() && (#[trigger] ws.output_slices@[k]).0 == t && ws.output_slices@[k].1
                    == w * h
            &&& leaves ==> forall|k: int|
                0 <= k < ws.intermediate_slices@.len() ==> (#[trigger] ws.intermediate_slices@[k]).0 != t
            &&& !leaves ==> forall|k: int|
                0 <= k < ws.output_slices@.len() ==> (#[trigger] ws.output_slices@[k]).0 != t
            &&& !leaves ==> exists|k: int|
                0 <= k < ws.intermediate_slices@.len() && (#[trigger] ws.intermediate_slices@[k]).0 == t
        }),
{
    let t = p.ops@[group[i] as int].outputs@[j];
    let m = meta[t as int];
    let all = memory::outputs_of(group, p.ops@, group.len());
    let outs = memory::external_outputs(group, p, meta);
    let inner = memory::intermediates(group, p, meta);
    memory::lemma_outputs_of(group, p.ops@, group.len());
    assert(all.contains(t));
    assert(all.take(all.len() as int) =~= all);
    ids::lemma_first_mentions(
        all,
        |t: usize| t < meta.len() && memory::needed_outside(group, meta[t as int]),
        all.len(),
    );
    ids::lemma_first_mentions(
        all,
        |t: usize| t < meta.len() && !memory::needed_outside(group, meta[t as int]),
        all.len(),
    );
    let leaves = m.is_output || exists|c: int|
        0 <= c < m.consumers@.len() && !group.contains(#[trigger] m.consumers@[c]);
    assert(leaves == memory::needed_outside(group, m));
    assert(outs.contains(t) == leaves);
    assert(inner.contains(t) == !leaves);
    if leaves {
        let k = choose|k: int| 0 <= k < outs.len() && outs[k] == t;
        assert(arith::fits(p.tensors@[t as int].tile_area(g)));
        assert(ws.output_slices@[k].0 == t);
        assert forall|k: int| 0 <= k < ws.intermediate_slices@.len() implies (#[trigger] ws.intermediate_slices@[k]).0
            != t by {
            assert(inner.contains(inner[k]));
        }
    } else {
        let k = choose|k: int| 0 <= k < inner.len() && inner[k] == t;
        assert(ws.intermediate_slices@[k].0 == t);
        assert forall|k: int| 0 <= k < ws.output_slices@.len() implies (#[trigger] ws.output_slices@[k]).0 != t by {
            assert(outs.contains(outs[k]));
        }
    }
}

/// A tensor that the group takes in is listed among what comes in exactly if no operation
/// of the group produces it. Its slice is its tile, or a part of that where a matrix
/// product of the group takes in the tensor and the reduction is split.
pub proof fn what_others_produce_comes_in(
    ws: WorkingSet,
    group: Seq<OpId>,
    p: Problem,
    g: Granularity,
    meta: Seq<TensorMeta>,
    i: int,
    j: int,
)
    requires
        ws.is_of(group, p, g, meta),
        memory::ids_in_range(group, p, meta),
        memory::footprint_fits(group, p, g, meta),
        0 <= i < group.len(),
        0 <= j < p.ops@[group[i] as int].inputs@.len(),
    ensures
        ({
            let t = p.ops@[group[i] as int].inputs@[j];
            let w = if p.tensors@[t as int].width <= g.width { p.tensors@[t as int].width } else { g.width };
            let h = if p.tensors@[t as int].height <= g.height { p.tensors@[t as int].height } else { g.height };
            let part = if w * h >= g.depth { (w * h) / (g.depth as int) } else { 1 };
            let inside = meta[t as int].producer is Some && group.contains(meta[t as int].producer->0);
            let split = g.depth > 1 && exists|a: int|
                #![trigger group[a]]
                0 <= a < group.len() && p.ops@[group[a] as int].op_type == OpType::MatMul
                    && p.ops@[group[a] as int].inputs@.contains(t);
            &&& inside ==> forall|k: int|
                0 <= k < ws.input_slices@.len() ==> (#[trigger] ws.input_slices@[k]).0 != t
            &&& !inside ==> exists|k: int|
                0 <= k < ws.input_slices@.len() && (#[trigger] ws.input_slices@[k]).0 == t && ws.input_slices@[k].1
                    == if split {
                    part
                } else {
                    w * h
                }
        }),
{
    let t = p.ops@[group[i] as int].inputs@[j];
    let all = memory::inputs_of(group, p.ops@, group.len());
    let ins = memory::external_inputs(group, p, meta);
    memory::lemma_inputs_of(group, p.ops@, group.len());
    assert(all.contains(t));
    assert(all.take(all.len() as int) =~= all);
    ids::lemma_first_mentions(
        all,
        |t: usize| t < meta.len() && memory::from_outside(group, meta[t as int]),
        all.len(),
    );
    let inside = meta[t as int].producer is Some && group.contains(meta[t as int].producer->0);
    assert(ins.contains(t) == !inside);
    if inside {
        assert forall|k: int| 0 <= k < ws.input_slices@.len() implies (#[trigger] ws.input_slices@[k]).0 != t by {
            assert(ins.contains(ins[k]));
        }
    } else {
        let k = choose|k: int| 0 <= k < ins.len() && ins[k] == t;
        let area = p.tensors@[t as int].tile_area(g);
        assert(arith::fits(area));
        assert(ws.input_slices@[k].0 == t);
        let split = g.depth > 1 && exists|a: int|
            #![trigger group[a]]
            0 <= a < group.len() && p.ops@[group[a] as int].op_type == OpType::MatMul
                && p.ops@[group[a] as int].inputs@.contains(t);
        assert(split == (g.depth > 1 && memory::feeds_matmul(group, p.ops@, t))) by {
            if split {
                let a = choose|a: int|
                    #![trigger group[a]]
                    0 <= a < group.len() && p.ops@[group[a] as int].op_type == OpType::MatMul
                        && p.ops@[group[a] as int].inputs@.contains(t);
                assert(p.ops@[group[a] as int].op_type == OpType::MatMul);
            }
        }
        if split {
            lemma_part(area, g.depth as int);
            assert(arith::fits(memory::slice_of(group, p, g, t)));
        }
    }
}

proof fn lemma_part(area: int, depth: int)
    requires
        depth > 1,
    ensures
        arith::greatest(arith::quotient(area, depth), 1) == if area >= depth { area / depth } else { 1 },
        area >= depth ==> 1 <= area / depth <= area,
{
    if area >= depth {
        assert(1 <= area / depth <= area) by (nonlinear_arith)
            requires
                area >= depth > 1,
        ;
    } else if area >= 0 {
        assert(area / depth == 0) by (nonlinear_arith)
            requires
                0 <= area < depth,
        ;
    } else {
        assert((-area) / depth >= 0) by (nonlinear_arith)
            requires
                area < 0,
                depth > 1,
        ;
    }
}

/// Nothing is listed that does not cross the border, and nothing is listed twice.
pub proof fn only_the_border_is_listed(
    ws: WorkingSet,
    group: Seq<OpId>,
    p: Problem,
    g: Granularity,
    meta: Seq<TensorMeta>,
    k: int,
)
    requires
        ws.is_of(group, p, g, meta),
    ensures
        0 <= k < ws.input_slices@.len() ==> exists|i: int, j: int|
            0 <= i < group.len() && 0 <= j < p.ops@[group[i] as int].inputs@.len()
                && #[trigger] p.ops@[group[i] as int].inputs@[j] == ws.input_slices@[k].0,
        0 <= k < ws.output_slices@.len() ==> exists|i: int, j: int|
            0 <= i < group.len() && 0 <= j < p.ops@[group[i] as int].outputs@.len()
                && #[trigger] p.ops@[group[i] as int].outputs@[j] == ws.output_slices@[k].0,
        0 <= k < ws.intermediate_slices@.len() ==> exists|i: int, j: int|
            0 <= i < group.len() && 0 <= j < p.ops@[group[i] as int].outputs@.len()
                && #[trigger] p.ops@[group[i] as int].outputs@[j] == ws.intermediate_slices@[k].0,
        forall|a: int, b: int|
            0 <= a < b < ws.input_slices@.len() ==> (#[trigger] ws.input_slices@[a]).0 != (
            #[trigger] ws.input_slices@[b]).0,
        forall|a: int, b: int|
            0 <= a < b < ws.output_slices@.len() ==> (#[trigger] ws.output_slices@[a]).0 != (
            #[trigger] ws.output_slices@[b]).0,
        forall|a: int, b: int|
            0 <= a < b < ws.intermediate_slices@.len() ==> (#[trigger] ws.intermediate_slices@[a]).0 != (
            #[trigger] ws.intermediate_slices@[b]).0,
{
    let all_in = memory::inputs_of(group, p.ops@, group.len());
    let all_out = memory::outputs_of(group, p.ops@, group.len());
    let ins = memory::external_inputs(group, p, meta);
    let outs = memory::external_outputs(group, p, meta);
    let inner = memory::intermediates(group, p, meta);
    memory::lemma_inputs_of(group, p.ops@, group.len());
    memory::lemma_outputs_of(group, p.ops@, group.len());
    assert(all_in.take(all_in.len() as int) =~= all_in);
    assert(all_out.take(all_out.len() as int) =~= all_out);
    ids::lemma_first_mentions(
        all_in,
        |t: usize| t < meta.len() && memory::from_outside(group, meta[t as int]),
        all_in.len(),
    );
    ids::lemma_first_mentions(
        all_out,
        |t: usize| t < meta.len() && memory::needed_outside(group, meta[t as int]),
        all_out.len(),
    );
    ids::lemma_first_mentions(
        all_out,
        |t: usize| t < meta.len() && !memory::needed_outside(group, meta[t as int]),
        all_out.len(),
    );
    if 0 <= k < ws.input_slices@.len() {
        assert(ins.contains(ins[k]));
        assert(all_in.contains(ins[k]));
    }
    if 0 <= k < ws.output_slices@.len() {
        assert(outs.contains(outs[k]));
        assert(all_out.contains(outs[k]));
    }
    if 0 <= k < ws.intermediate_slices@.len() {
        assert(inner.contains(inner[k]));
        assert(all_out.contains(inner[k]));
    }
}

/// The partial sums that matrix products among the first `n` operations of the group hold
/// for what others consume: one tile for each such output.
pub open spec fn partial_sums(group: Seq<OpId>, p: Problem, g: Granularity, meta: Seq<TensorMeta>, n: nat) -> int
    decreases n,
{
    if n == 0 {
        0
    } else {
        partial_sums(group, p, g, meta, (n - 1) as nat) + if p.ops@[group[n - 1] as int].op_type == OpType::MatMul {
            tiles_going_out(group, p, g, meta, group[n - 1], p.ops@[group[n - 1] as int].outputs@.len())
        } else {
            0
        }
    }
}

/// The tiles of those of the first `n` outputs of an operation that others consume.
pub open spec fn tiles_going_out(
    group: Seq<OpId>,
    p: Problem,
    g: Granularity,
    meta: Seq<TensorMeta>,
    op: OpId,
    n: nat,
) -> int
    decreases n,
{
    if n == 0 {
        0
    } else {
        let t = p.ops@[op as int].outputs@[n - 1];
        let m = meta[t as int];
        let w = if p.tensors@[t as int].width <= g.width { p.tensors@[t as int].width } else { g.width };
        let h = if p.tensors@[t as int].height <= g.height { p.tensors@[t as int].height } else { g.height };
        tiles_going_out(group, p, g, meta, op, (n - 1) as nat) + if m.is_output || exists|c: int|
            0 <= c < m.consumers@.len() && !group.contains(#[trigger] m.consumers@[c]) {
            w * h
        } else {
            0
        }
    }
}

proof fn lemma_tiles_going_out(group: Seq<OpId>, p: Problem, g: Granularity, meta: Seq<TensorMeta>, op: OpId, n: nat)
    ensures
        tiles_going_out(group, p, g, meta, op, n) == arith::sum(
            memory::held_outputs(group, p, g, meta, p.ops@[op as int].outputs@, n),
        ),
    decreases n,
{
    if n > 0 {
        lemma_tiles_going_out(group, p, g, meta, op, (n - 1) as nat);
        let rest = memory::held_outputs(group, p, g, meta, p.ops@[op as int].outputs@, (n - 1) as nat);
        let t = p.ops@[op as int].outputs@[n - 1];
        assert(rest.push(p.tensors@[t as int].tile_area(g)).drop_last() =~= rest);
    }
}

proof fn lemma_partial_sums(group: Seq<OpId>, p: Problem, g: Granularity, meta: Seq<TensorMeta>, n: nat)
    requires
        g.depth > 1,
    ensures
        partial_sums(group, p, g, meta, n) == arith::sum(memory::accumulators(group, p, g, meta, n)),
    decreases n,
{
    if n > 0 {
        lemma_partial_sums(group, p, g, meta, (n - 1) as nat);
        let op = group[n - 1];
        let outs = p.ops@[op as int].outputs@;
        if p.ops@[op as int].op_type == OpType::MatMul {
            lemma_tiles_going_out(group, p, g, meta, op, outs.len());
            arith::lemma_sum_concat(
                memory::accumulators(group, p, g, meta, (n - 1) as nat),
                memory::held_outputs(group, p, g, meta, outs, outs.len()),
            );
        }
    }
}

/// The working set takes what its slices that come in and go out take, and where the
/// reduction is split the partial sums; what stays inside takes nothing. The group fits in
/// fast memory exactly if that is no more than the capacity.
pub proof fn the_border_takes_the_room(
    ws: WorkingSet,
    group: Seq<OpId>,
    p: Problem,
    g: Granularity,
    meta: Seq<TensorMeta>,
)
    requires
        ws.is_of(group, p, g, meta),
        memory::footprint_fits(group, p, g, meta),
    ensures
        ws.total_size == listed_total(ws.input_slices@) + listed_total(ws.output_slices@) + if g.depth > 1 {
            partial_sums(group, p, g, meta, group.len())
        } else {
            0
        },
        memory::fits_memory(group, p, g, meta) <==> ws.total_size <= p.fast_memory_capacity,
{
    let ins = memory::external_inputs(group, p, meta);
    let outs = memory::external_outputs(group, p, meta);
    let a = memory::slices(group, p, g, ins);
    let b = memory::whole_slices(p, g, outs);
    let c = memory::accumulators(group, p, g, meta, group.len());
    let all = memory::outputs_of(group, p.ops@, group.len());
    arith::lemma_sum_concat(a, b);
    arith::lemma_sum_concat(a + b, c);
    ids::lemma_first_mentions(
        all,
        |t: usize| t < meta.len() && memory::needed_outside(group, meta[t as int]),
        all.len(),
    );
    assert(all.take(all.len() as int) =~= all);
    assert forall|i: int| 0 <= i < a.len() implies arith::fits(#[trigger] a[i]) by {
        assert(ins.contains(ins[i]));
        if g.depth > 1 {
            lemma_part(p.tensors@[ins[i] as int].tile_area(g), g.depth as int);
        }
    }
    assert forall|i: int| 0 <= i < b.len() implies arith::fits(#[trigger] b[i]) by {
        assert(outs.contains(outs[i]));
        assert(all.contains(outs[i]));
    }
    lemma_listed_total(ins, a);
    lemma_listed_total(outs, b);
    if g.depth > 1 {
        lemma_partial_sums(group, p, g, meta, group.len());
    } else {
        assert(c =~= Seq::<int>::empty());
    }
}

proof fn lemma_known(listed: Seq<TensorId>, tensors: Seq<Tensor>, k: nat)
    requires
        k <= listed.len(),
    ensures
        dataflow::below(listed, tensors.len(), k) == listed.take(k as int).filter(|t: TensorId| t < tensors.len()),
    decreases k,
{
    let pred = |t: TensorId| t < tensors.len();
    if k == 0 {
        reveal(Seq::filter);
        assert(listed.take(0) =~= Seq::<TensorId>::empty());
        assert(listed.take(0).filter(pred) =~= Seq::<TensorId>::empty());
    } else {
        lemma_known(listed, tensors, (k - 1) as nat);
        assert(listed.take(k as int) =~= listed.take(k - 1).push(listed[k - 1]));
        listed.take(k - 1).lemma_filter_push(listed[k - 1], pred);
    }
}

/// A single operation takes the tiles of the tensors that it takes in and puts out, as far
/// as they are known, and the tiles of what it puts out once more if it is a matrix product
/// whose reduction is split.
pub proof fn single_operations_take_their_tiles(total: int, op: Op, tensors: Seq<Tensor>, g: Granularity)
    requires
        total == arith::sum(memory::op_charges(op, tensors, g)),
    ensures
        ({
            let tile = |t: TensorId|
                (if tensors[t as int].width <= g.width { tensors[t as int].width as int } else { g.width as int }) * (
                if tensors[t as int].height <= g.height { tensors[t as int].height as int } else { g.height as int });
            let ins = arith::sum(op.inputs@.filter(|t: TensorId| t < tensors.len()).map_values(tile));
            let outs = arith::sum(op.outputs@.filter(|t: TensorId| t < tensors.len()).map_values(tile));
            total == ins + outs + if op.op_type == OpType::MatMul && g.depth > 1 { outs } else { 0 }
        }),
{
    let tile = |t: TensorId|
        (if tensors[t as int].width <= g.width { tensors[t as int].width as int } else { g.width as int }) * (
        if tensors[t as int].height <= g.height { tensors[t as int].height as int } else { g.height as int });
    lemma_known(op.inputs@, tensors, op.inputs@.len());
    lemma_known(op.outputs@, tensors, op.outputs@.len());
    assert(op.inputs@.take(op.inputs@.len() as int) =~= op.inputs@);
    assert(op.outputs@.take(op.outputs@.len() as int) =~= op.outputs@);
    let ins = memory::tile_areas(memory::known(op.inputs@, tensors), tensors, g);
    let outs = memory::tile_areas(memory::known(op.outputs@, tensors), tensors, g);
    assert(ins =~= op.inputs@.filter(|t: TensorId| t < tensors.len()).map_values(tile));
    assert(outs =~= op.outputs@.filter(|t: TensorId| t < tensors.len()).map_values(tile));
    arith::lemma_sum_concat(ins, outs);
    arith::lemma_sum_concat(ins + outs, outs);
}

} // verus!
