//! The terms of cost estimates, in terms of tiles, operations, producers and consumers.
use vstd::prelude::*;
use crate::{arith, candidates, cost, ids, memory};
use crate::cost::{OpCostTerms, TransferVolumes};
use crate::models::{Granularity, Op, OpId, OpType, Problem, Tensor, TensorId, TensorMeta};

verus! {

/// `n` tiles of length `tile` cover the length, and fewer do not.
pub open spec fn just_cover(n: int, tile: int, length: int) -> bool {
    (n - 1) * tile < length <= n * tile
}

proof fn lemma_ceiling_covers(length: int, tile: int)
    requires
        length > 0,
        tile > 0,
    ensures
        just_cover(cost::ceiling(length, tile), tile, length),
        1 <= cost::ceiling(length, tile) <= length,
{
    let n = cost::ceiling(length, tile);
    assert((n - 1) * tile < length <= n * tile && 1 <= n <= length) by (nonlinear_arith)
        requires
            n == (length + tile - 1) / tile,
            length > 0,
            tile > 0,
    ;
}

/// The tiles of an operation just cover its output, in columns and in rows; a tile counts
/// as one unit at least, and only matrix products are computed in parts, at most 64.
pub proof fn tiles_just_cover_the_output(
    terms: Option<OpCostTerms>,
    op: Op,
    native: Granularity,
    g: Granularity,
    output: Tensor,
)
    requires
        terms == cost::op_cost_terms(op, native, g, output),
        arith::fits(native.width * native.height),
        arith::fits(g.width * g.height),
    ensures
        terms is None <==> g.width <= 0 || g.height <= 0 || output.width <= 0 || output.height <= 0,
        terms matches Some(found) ==> {
            &&& exists|a: int, b: int|
                #![trigger just_cover(a, g.width as int, output.width as int), just_cover(b, g.height as int, output.height as int)]
                just_cover(a, g.width as int, output.width as int) && just_cover(
                    b,
                    g.height as int,
                    output.height as int,
                ) && found.tiles == a * b
            &&& found.tiles * (g.width * g.height) >= output.width * output.height
            &&& found.tile == g.width * g.height
            &&& native.width * native.height >= 1 ==> found.native_tile == native.width * native.height
            &&& native.width * native.height < 1 ==> found.native_tile == 1
            &&& op.op_type == OpType::Pointwise || g.depth <= 1 ==> found.parts == 1
            &&& op.op_type == OpType::MatMul && 1 < g.depth <= 64 ==> found.parts == g.depth
            &&& op.op_type == OpType::MatMul && g.depth > 64 ==> found.parts == 64
        },
{
    if terms is Some {
        let w = g.width as int;
        let h = g.height as int;
        let a = cost::ceiling(output.width as int, w);
        let b = cost::ceiling(output.height as int, h);
        lemma_ceiling_covers(output.width as int, w);
        lemma_ceiling_covers(output.height as int, h);
        let x = output.width as int;
        let y = output.height as int;
        assert(0 <= a * b <= 0x7fff_ffff_ffff_ffff * 0x7fff_ffff_ffff_ffff) by (nonlinear_arith)
            requires
                1 <= a <= 0x7fff_ffff_ffff_ffff,
                1 <= b <= 0x7fff_ffff_ffff_ffff,
        ;
        assert((a * b) * (w * h) >= x * y) by (nonlinear_arith)
            requires
                x <= a * w,
                y <= b * h,
                x > 0,
                y > 0,
                a >= 1,
                b >= 1,
                w > 0,
                h > 0,
        {
            assert((a * b) * (w * h) == (a * w) * (b * h));
        }
        assert(w * h >= 1) by (nonlinear_arith)
            requires
                w > 0,
                h > 0,
        ;
        assert((a * b) as i128 == a * b);
        assert(just_cover(a, w, x) && just_cover(b, h, y));
    }
}

/// The operations that count are those of the group that exist and whose first output is
/// a tensor, in order, each with that output.
pub proof fn charged_operations_have_an_output(p: Problem, group: Seq<OpId>, k: nat)
    requires
        k <= group.len(),
    ensures
        cost::charged(p, group, k) == group.take(k as int).filter(
            |op: OpId|
                op < p.ops@.len() && p.ops@[op as int].outputs@.len() > 0 && p.ops@[op as int].outputs@[0]
                    < p.tensors@.len(),
        ).map_values(|op: OpId| (op, p.ops@[op as int].outputs@[0])),
    decreases k,
{
    let counts = |op: OpId|
        op < p.ops@.len() && p.ops@[op as int].outputs@.len() > 0 && p.ops@[op as int].outputs@[0] < p.tensors@.len();
    let pair = |op: OpId| (op, p.ops@[op as int].outputs@[0]);
    if k == 0 {
        reveal(Seq::filter);
        assert(group.take(0) =~= Seq::<OpId>::empty());
        assert(Seq::<OpId>::empty().filter(counts).map_values(pair) =~= Seq::<(OpId, TensorId)>::empty());
    } else {
        charged_operations_have_an_output(p, group, (k - 1) as nat);
        let head = group.take(k - 1);
        assert(group.take(k as int) =~= head.push(group[k - 1]));
        head.lemma_filter_push(group[k - 1], counts);
        if counts(group[k - 1]) {
            assert(head.filter(counts).push(group[k - 1]).map_values(pair) =~= head.filter(counts).map_values(
                pair,
            ).push(pair(group[k - 1])));
        }
    }
}

/// Large tiles keep blocks in registers: a matrix product gains the blocks along both
/// sides, a pointwise operation all blocks if there are at least four.
pub proof fn blocks_are_eight_by_eight(gain: cost::RegisterReuse, w: int, h: int, op_type: OpType)
    requires
        gain == cost::register_gain(w, h, op_type),
        arith::fits(cost::blocks_along(w) * cost::blocks_along(h)),
        i64::MIN <= w <= i64::MAX,
        i64::MIN <= h <= i64::MAX,
    ensures
        op_type == OpType::MatMul && (w < 16 || h < 16) ==> gain == cost::RegisterReuse::Nothing,
        op_type == OpType::MatMul && w >= 16 && h >= 16 ==> gain == cost::RegisterReuse::Sides((w / 8 + h / 8) as i64),
        op_type == OpType::Pointwise && w >= 8 && h >= 8 && (w / 8) * (h / 8) >= 4 ==> gain
            == cost::RegisterReuse::Blocks(((w / 8) * (h / 8)) as i64),
        op_type == OpType::Pointwise && w >= 8 && h >= 8 && (w / 8) * (h / 8) < 4 ==> gain
            == cost::RegisterReuse::Nothing,
        op_type == OpType::Pointwise && w < 16 && h < 16 ==> gain == cost::RegisterReuse::Nothing,
        op_type == OpType::Pointwise && w < 8 && h >= 32 ==> gain == cost::RegisterReuse::Blocks((h / 8) as i64),
        op_type == OpType::Pointwise && h < 8 && w >= 32 ==> gain == cost::RegisterReuse::Blocks((w / 8) as i64),
{
    let a = cost::blocks_along(w);
    let b = cost::blocks_along(h);
    assert(w < 16 && h < 16 ==> a == 1 && b == 1);
    assert(w < 8 ==> a == 1);
    assert(h < 8 ==> b == 1);
}

/// How many of the first `k` listed tensors are described.
pub proof fn described_tensors_are_counted(meta: Seq<TensorMeta>, listed: Seq<TensorId>, k: nat)
    requires
        k <= listed.len(),
    ensures
        cost::described(meta, listed, k) == listed.take(k as int).filter(|t: TensorId| t < meta.len()).len(),
    decreases k,
{
    let pred = |t: TensorId| t < meta.len();
    if k == 0 {
        reveal(Seq::filter);
        assert(listed.take(0) =~= Seq::<TensorId>::empty());
    } else {
        described_tensors_are_counted(meta, listed, (k - 1) as nat);
        assert(listed.take(k as int) =~= listed.take(k - 1).push(listed[k - 1]));
        listed.take(k - 1).lemma_filter_push(listed[k - 1], pred);
    }
}

/// Of the first `k` listed tensors, those count as inner that are described, no result of
/// the graph, and consumed by operations of the group only.
pub proof fn inner_tensors_are_counted(meta: Seq<TensorMeta>, group: Seq<OpId>, listed: Seq<TensorId>, k: nat)
    requires
        k <= listed.len(),
    ensures
        cost::ephemeral(meta, group, listed, k) == listed.take(k as int).filter(
            |t: TensorId|
                t < meta.len() && !meta[t as int].is_output && forall|c: int|
                    0 <= c < meta[t as int].consumers@.len() ==> group.contains(
                        #[trigger] meta[t as int].consumers@[c],
                    ),
        ).len(),
    decreases k,
{
    let pred = |t: TensorId|
        t < meta.len() && !meta[t as int].is_output && forall|c: int|
            0 <= c < meta[t as int].consumers@.len() ==> group.contains(#[trigger] meta[t as int].consumers@[c]);
    if k == 0 {
        reveal(Seq::filter);
        assert(listed.take(0) =~= Seq::<TensorId>::empty());
    } else {
        inner_tensors_are_counted(meta, group, listed, (k - 1) as nat);
        assert(listed.take(k as int) =~= listed.take(k - 1).push(listed[k - 1]));
        listed.take(k - 1).lemma_filter_push(listed[k - 1], pred);
        let t = listed[k - 1];
        assert(pred(t) == (t < meta.len() && !memory::needed_outside(group, meta[t as int])));
    }
}

/// What stays of the cost: eighty hundredths for each output that is inner, and up to
/// fifteen more for large groups, are saved, never more than the limit.
pub proof fn inner_outputs_are_saved(len: nat, all: nat, inner: nat)
    requires
        inner <= all,
    ensures
        ({
            let saved = 100 * all - cost::elimination_kept(len, all, inner);
            let extra: int = if len <= 6 { 0 } else if len <= 12 { 5 } else if len <= 20 { 10 } else { 15 };
            let most: int = if len <= 15 { 80 } else { 75 };
            &&& 0 <= saved <= most * all
            &&& saved <= 80 * inner + extra * all
            &&& saved == 80 * inner + extra * all || saved == most * all
        }),
        forall|more: nat|
            inner <= more <= all ==> #[trigger] cost::elimination_kept(len, all, more) <= cost::elimination_kept(
                len,
                all,
                inner,
            ),
{
    assert(0 <= 5 * all && 0 <= 10 * all && 0 <= 15 * all && 0 <= 75 * all && 75 * all <= 80 * all);
}

/// A step is worth two where a matrix product feeds a pointwise operation, one where any
/// other operation feeds the next, and nothing where no output is taken in. Steps add up
/// one by one, as long as both operations exist.
pub proof fn steps_add_up(p: Problem, group: Seq<OpId>, k: nat)
    requires
        0 < k < group.len(),
    ensures
        cost::steps(p, group, 0) == 0,
        cost::steps_worth(p, group, 0) == 0,
        ({
            let both = group[k - 1] < p.ops@.len() && group[k as int] < p.ops@.len();
            let a = p.ops@[group[k - 1] as int];
            let b = p.ops@[group[k as int] as int];
            let fed = exists|i: int, j: int|
                0 <= i < a.outputs@.len() && 0 <= j < b.inputs@.len() && #[trigger] a.outputs@[i]
                    == #[trigger] b.inputs@[j];
            let worth = cost::steps_worth(p, group, k) - cost::steps_worth(p, group, (k - 1) as nat);
            &&& cost::steps(p, group, k) == cost::steps(p, group, (k - 1) as nat) + if both { 1int } else { 0 }
            &&& !both || !fed ==> worth == 0
            &&& both && fed && a.op_type == OpType::MatMul && b.op_type == OpType::Pointwise ==> worth == 2
            &&& both && fed && (a.op_type == OpType::Pointwise || b.op_type == OpType::MatMul) ==> worth == 1
        }),
{
    let a = p.ops@[group[k - 1] as int];
    let b = p.ops@[group[k as int] as int];
    if exists|i: int, j: int|
        0 <= i < a.outputs@.len() && 0 <= j < b.inputs@.len() && #[trigger] a.outputs@[i] == #[trigger] b.inputs@[j] {
        let (i, j) = choose|i: int, j: int|
            0 <= i < a.outputs@.len() && 0 <= j < b.inputs@.len() && #[trigger] a.outputs@[i]
                == #[trigger] b.inputs@[j];
        assert(b.inputs@.contains(a.outputs@[i]));
        assert(cost::feeds(a, b));
    }
    if cost::feeds(a, b) {
        let i = choose|i: int| 0 <= i < a.outputs@.len() && b.inputs@.contains(#[trigger] a.outputs@[i]);
        let j = choose|j: int| 0 <= j < b.inputs@.len() && b.inputs@[j] == a.outputs@[i];
        assert(a.outputs@[i] == b.inputs@[j]);
    }
}

/// Larger groups keep less of their cost and of their latency, in four and in five steps.
pub proof fn larger_groups_keep_less(len: nat, more: nat)
    requires
        len <= more,
    ensures
        cost::fusion_floor(more) <= cost::fusion_floor(len),
        cost::amortization(more) <= cost::amortization(len),
        cost::fusion_floor(len) == 15 <==> len < 20,
        cost::fusion_floor(len) == 10 <==> 20 <= len < 50,
        cost::fusion_floor(len) == 5 <==> 50 <= len <= 100,
        cost::fusion_floor(len) == 2 <==> len > 100,
        cost::amortization(len) == 100 <==> len < 5,
        cost::amortization(len) == 96 <==> 5 <= len < 10,
        cost::amortization(len) == 92 <==> 10 <= len < 20,
        cost::amortization(len) == 88 <==> 20 <= len < 50,
        cost::amortization(len) == 85 <==> len >= 50,
{
}

/// The areas of the listed tensors, added up.
pub open spec fn area_total(p: Problem, listed: Seq<TensorId>) -> int
    decreases listed.len(),
{
    if listed.len() == 0 {
        0
    } else {
        area_total(p, listed.drop_last()) + p.tensors@[listed.last() as int].width * p.tensors@[listed.last() as int].height
    }
}

proof fn lemma_area_of_one(p: Problem, listed: Seq<TensorId>, i: int)
    requires
        0 <= i < listed.len(),
        forall|k: int|
            0 <= k < listed.len() ==> p.tensors@[(#[trigger] listed[k]) as int].width * p.tensors@[listed[k] as int].height
                >= 0,
    ensures
        0 <= p.tensors@[listed[i] as int].width * p.tensors@[listed[i] as int].height <= area_total(p, listed),
    decreases listed.len(),
{
    lemma_area_positive(p, listed.drop_last());
    let last = listed[listed.len() - 1];
    assert(p.tensors@[last as int].width * p.tensors@[last as int].height >= 0);
    if i < listed.len() - 1 {
        assert(listed.drop_last()[i] == listed[i]);
        assert forall|k: int| 0 <= k < listed.drop_last().len() implies p.tensors@[(
        #[trigger] listed.drop_last()[k]) as int].width * p.tensors@[listed.drop_last()[k] as int].height >= 0 by {
            assert(listed.drop_last()[k] == listed[k]);
        }
        lemma_area_of_one(p, listed.drop_last(), i);
    }
}

proof fn lemma_area_positive(p: Problem, listed: Seq<TensorId>)
    ensures
        (forall|k: int|
            0 <= k < listed.len() ==> p.tensors@[(#[trigger] listed[k]) as int].width * p.tensors@[listed[k] as int].height
                >= 0) ==> area_total(p, listed) >= 0,
    decreases listed.len(),
{
    if listed.len() > 0 {
        lemma_area_positive(p, listed.drop_last());
        if forall|k: int|
            0 <= k < listed.len() ==> p.tensors@[(#[trigger] listed[k]) as int].width * p.tensors@[listed[k] as int].height
                >= 0 {
            assert forall|k: int| 0 <= k < listed.drop_last().len() implies p.tensors@[(
            #[trigger] listed.drop_last()[k]) as int].width * p.tensors@[listed.drop_last()[k] as int].height >= 0 by {
                assert(listed.drop_last()[k] == listed[k]);
            }
            assert(p.tensors@[listed[listed.len() - 1] as int].width * p.tensors@[listed[listed.len() - 1] as int].height
                >= 0);
        }
    }
}

/// Tensor `t` must be written: it is known, not kept, and a result of the graph or
/// consumed by an operation that is not in the group.
pub open spec fn must_be_written(
    p: Problem,
    meta: Seq<TensorMeta>,
    group: Seq<OpId>,
    kept: Seq<TensorId>,
) -> spec_fn(TensorId) -> bool {
    |t: TensorId|
        t < meta.len() && t < p.tensors@.len() && !kept.contains(t) && (meta[t as int].is_output || exists|c: int|
            0 <= c < meta[t as int].consumers@.len() && !group.contains(#[trigger] meta[t as int].consumers@[c]))
}

proof fn lemma_written(
    p: Problem,
    meta: Seq<TensorMeta>,
    group: Seq<OpId>,
    kept: Seq<TensorId>,
    outs: Seq<TensorId>,
    k: nat,
)
    requires
        k <= outs.len(),
    ensures
        cost::written_bytes(p, meta, group, kept, outs, k) == area_total(
            p,
            outs.take(k as int).filter(must_be_written(p, meta, group, kept)),
        ),
    decreases k,
{
    let pred = must_be_written(p, meta, group, kept);
    if k == 0 {
        reveal(Seq::filter);
        assert(outs.take(0) =~= Seq::<TensorId>::empty());
    } else {
        lemma_written(p, meta, group, kept, outs, (k - 1) as nat);
        let head = outs.take(k - 1);
        let t = outs[k - 1];
        assert(outs.take(k as int) =~= head.push(t));
        head.lemma_filter_push(t, pred);
        assert(pred(t) == cost::is_written(p, meta, group, kept, t));
        assert(head.filter(pred).push(t).drop_last() =~= head.filter(pred));
    }
}

/// What the operations of the group that exist put out, in order.
pub open spec fn put_out(p: Problem, group: Seq<OpId>, k: nat) -> Seq<TensorId>
    decreases k,
{
    if k == 0 {
        Seq::empty()
    } else {
        put_out(p, group, (k - 1) as nat) + if group[k - 1] < p.ops@.len() {
            p.ops@[group[k - 1] as int].outputs@
        } else {
            Seq::empty()
        }
    }
}

/// What the operations of the group that exist take in, in order.
pub open spec fn taken_in(p: Problem, group: Seq<OpId>, k: nat) -> Seq<TensorId>
    decreases k,
{
    if k == 0 {
        Seq::empty()
    } else {
        taken_in(p, group, (k - 1) as nat) + if group[k - 1] < p.ops@.len() {
            p.ops@[group[k - 1] as int].inputs@
        } else {
            Seq::empty()
        }
    }
}

proof fn lemma_existing(p: Problem, group: Seq<OpId>, k: nat)
    requires
        k <= group.len(),
    ensures
        ({
            let here = cost::existing(p, group, k);
            &&& memory::outputs_of(here, p.ops@, here.len()) == put_out(p, group, k)
            &&& memory::inputs_of(here, p.ops@, here.len()) == taken_in(p, group, k)
        }),
    decreases k,
{
    if k > 0 {
        lemma_existing(p, group, (k - 1) as nat);
        let before = cost::existing(p, group, (k - 1) as nat);
        let here = cost::existing(p, group, k);
        if group[k - 1] < p.ops@.len() {
            lemma_longer_group(before, here, p, before.len());
        } else {
            assert(put_out(p, group, (k - 1) as nat) + Seq::empty() =~= put_out(p, group, (k - 1) as nat));
            assert(taken_in(p, group, (k - 1) as nat) + Seq::empty() =~= taken_in(p, group, (k - 1) as nat));
        }
    }
}

proof fn lemma_longer_group(a: Seq<OpId>, b: Seq<OpId>, p: Problem, k: nat)
    requires
        k <= a.len() <= b.len(),
        forall|i: int| 0 <= i < a.len() ==> a[i] == b[i],
    ensures
        memory::outputs_of(a, p.ops@, k) == memory::outputs_of(b, p.ops@, k),
        memory::inputs_of(a, p.ops@, k) == memory::inputs_of(b, p.ops@, k),
    decreases k,
{
    if k > 0 {
        lemma_longer_group(a, b, p, (k - 1) as nat);
        assert(a[k - 1] == b[k - 1]);
    }
}

/// What is written to slow memory is what the group puts out and others need, unless it is
/// kept: each such mention counts with its area. Where nothing must be written, nothing is.
pub proof fn what_others_consume_is_written(
    v: TransferVolumes,
    p: Problem,
    meta: Seq<TensorMeta>,
    group: Seq<OpId>,
    resident: Set<TensorId>,
    kept: Seq<TensorId>,
)
    requires
        v.is_of(p, meta, group, resident, kept),
    ensures
        v.dram_write == area_total(
            p,
            put_out(p, group, group.len()).filter(must_be_written(p, meta, group, kept)),
        ),
        (forall|t: int|
            0 <= t < p.tensors@.len() ==> (#[trigger] p.tensors@[t]).width * p.tensors@[t].height >= 0) ==> forall|
            i: int,
            j: int,
        |
            #![trigger p.ops@[group[i] as int].outputs@[j]]
            0 <= i < group.len() && group[i] < p.ops@.len() && 0 <= j < p.ops@[group[i] as int].outputs@.len()
                && must_be_written(p, meta, group, kept)(p.ops@[group[i] as int].outputs@[j]) ==> v.dram_write
                >= p.tensors@[p.ops@[group[i] as int].outputs@[j] as int].width
                * p.tensors@[p.ops@[group[i] as int].outputs@[j] as int].height,
        (forall|i: int, j: int|
            #![trigger p.ops@[group[i] as int].outputs@[j]]
            0 <= i < group.len() && group[i] < p.ops@.len() && 0 <= j < p.ops@[group[i] as int].outputs@.len()
                ==> !must_be_written(p, meta, group, kept)(p.ops@[group[i] as int].outputs@[j])) ==> v.dram_write == 0,
        v.large <==> exists|i: int, j: int|
            #![trigger p.ops@[group[i] as int].outputs@[j]]
            0 <= i < group.len() && group[i] < p.ops@.len() && 0 <= j < p.ops@[group[i] as int].outputs@.len()
                && p.ops@[group[i] as int].outputs@[j] < p.tensors@.len()
                && p.tensors@[p.ops@[group[i] as int].outputs@[j] as int].width
                * p.tensors@[p.ops@[group[i] as int].outputs@[j] as int].height >= 65_536,
{
    let here = cost::existing(p, group, group.len());
    let outs = candidates::outputs(p, here);
    let pred = must_be_written(p, meta, group, kept);
    let written = outs.filter(pred);
    lemma_existing(p, group, group.len());
    lemma_written(p, meta, group, kept, outs, outs.len());
    assert(outs.take(outs.len() as int) =~= outs);
    lemma_put_out(p, group, group.len());
    if forall|t: int| 0 <= t < p.tensors@.len() ==> (#[trigger] p.tensors@[t]).width * p.tensors@[t].height >= 0 {
        assert forall|i: int, j: int|
            #![trigger p.ops@[group[i] as int].outputs@[j]]
            0 <= i < group.len() && group[i] < p.ops@.len() && 0 <= j < p.ops@[group[i] as int].outputs@.len() && pred(
                p.ops@[group[i] as int].outputs@[j],
            ) implies v.dram_write >= p.tensors@[p.ops@[group[i] as int].outputs@[j] as int].width
            * p.tensors@[p.ops@[group[i] as int].outputs@[j] as int].height by {
            let t = p.ops@[group[i] as int].outputs@[j];
            assert(outs.contains(t));
            let a = choose|a: int| 0 <= a < outs.len() && outs[a] == t;
            outs.lemma_filter_contains(pred, a);
            let b = choose|b: int| 0 <= b < written.len() && written[b] == t;
            assert forall|k: int| 0 <= k < written.len() implies p.tensors@[(#[trigger] written[k]) as int].width
                * p.tensors@[written[k] as int].height >= 0 by {
                outs.lemma_filter_pred(pred, k);
                assert(p.tensors@[written[k] as int].width * p.tensors@[written[k] as int].height >= 0);
            }
            lemma_area_of_one(p, written, b);
        }
    }
    if forall|i: int, j: int|
        #![trigger p.ops@[group[i] as int].outputs@[j]]
        0 <= i < group.len() && group[i] < p.ops@.len() && 0 <= j < p.ops@[group[i] as int].outputs@.len() ==> !pred(
            p.ops@[group[i] as int].outputs@[j],
        ) {
        assert(written.len() == 0) by {
            if written.len() > 0 {
                let t = written[0];
                outs.lemma_filter_pred(pred, 0);
                outs.lemma_filter_contains_rev(pred, t);
                assert(outs.contains(t));
                let (i, j) = choose|i: int, j: int|
                    #![trigger p.ops@[group[i] as int].outputs@[j]]
                    0 <= i < group.len() && group[i] < p.ops@.len() && 0 <= j < p.ops@[group[i] as int].outputs@.len()
                        && p.ops@[group[i] as int].outputs@[j] == t;
                assert(!pred(p.ops@[group[i] as int].outputs@[j]));
            }
        }
    }
    if v.large {
        let a = choose|a: int|
            0 <= a < outs.len() && (#[trigger] outs[a]) < p.tensors@.len() && p.tensors@[outs[a] as int].area()
                >= cost::LARGE_TENSOR_THRESHOLD;
        assert(outs.contains(outs[a]));
        let (i, j) = choose|i: int, j: int|
            #![trigger p.ops@[group[i] as int].outputs@[j]]
            0 <= i < group.len() && group[i] < p.ops@.len() && 0 <= j < p.ops@[group[i] as int].outputs@.len()
                && p.ops@[group[i] as int].outputs@[j] == outs[a];
        assert(p.ops@[group[i] as int].outputs@[j] < p.tensors@.len());
    }
    assert forall|i: int, j: int|
        #![trigger p.ops@[group[i] as int].outputs@[j]]
        0 <= i < group.len() && group[i] < p.ops@.len() && 0 <= j < p.ops@[group[i] as int].outputs@.len()
            && p.ops@[group[i] as int].outputs@[j] < p.tensors@.len()
            && p.tensors@[p.ops@[group[i] as int].outputs@[j] as int].width
            * p.tensors@[p.ops@[group[i] as int].outputs@[j] as int].height >= 65_536 implies v.large by {
        let t = p.ops@[group[i] as int].outputs@[j];
        assert(outs.contains(t));
        let a = choose|a: int| 0 <= a < outs.len() && outs[a] == t;
        assert(outs[a] < p.tensors@.len());
    }
}

proof fn lemma_put_out(p: Problem, group: Seq<OpId>, k: nat)
    requires
        k <= group.len(),
    ensures
        forall|t: TensorId| #[trigger]
            put_out(p, group, k).contains(t) <==> exists|i: int, j: int|
                #![trigger p.ops@[group[i] as int].outputs@[j]]
                0 <= i < k && group[i] < p.ops@.len() && 0 <= j < p.ops@[group[i] as int].outputs@.len()
                    && p.ops@[group[i] as int].outputs@[j] == t,
    decreases k,
{
    if k > 0 {
        lemma_put_out(p, group, (k - 1) as nat);
        let rest = put_out(p, group, (k - 1) as nat);
        let more = if group[k - 1] < p.ops@.len() {
            p.ops@[group[k - 1] as int].outputs@
        } else {
            Seq::empty()
        };
        assert forall|t: TensorId| #[trigger] put_out(p, group, k).contains(t) <==> exists|i: int, j: int|
            #![trigger p.ops@[group[i] as int].outputs@[j]]
            0 <= i < k && group[i] < p.ops@.len() && 0 <= j < p.ops@[group[i] as int].outputs@.len()
                && p.ops@[group[i] as int].outputs@[j] == t by {
            ids::lemma_concat_contains(rest, more, t);
            if rest.contains(t) {
                let (i, j) = choose|i: int, j: int|
                    #![trigger p.ops@[group[i] as int].outputs@[j]]
                    0 <= i < k - 1 && group[i] < p.ops@.len() && 0 <= j < p.ops@[group[i] as int].outputs@.len()
                        && p.ops@[group[i] as int].outputs@[j] == t;
                assert(0 <= i < k && p.ops@[group[i] as int].outputs@[j] == t);
            }
            if more.contains(t) {
                let j = choose|j: int| 0 <= j < more.len() && more[j] == t;
                assert(p.ops@[group[k - 1] as int].outputs@[j] == t);
            }
            if exists|i: int, j: int|
                #![trigger p.ops@[group[i] as int].outputs@[j]]
                0 <= i < k && group[i] < p.ops@.len() && 0 <= j < p.ops@[group[i] as int].outputs@.len()
                    && p.ops@[group[i] as int].outputs@[j] == t {
                let (i, j) = choose|i: int, j: int|
                    #![trigger p.ops@[group[i] as int].outputs@[j]]
                    0 <= i < k && group[i] < p.ops@.len() && 0 <= j < p.ops@[group[i] as int].outputs@.len()
                        && p.ops@[group[i] as int].outputs@[j] == t;
                if i == k - 1 {
                    assert(more[j] == t);
                } else {
                    assert(0 <= i < k - 1 && p.ops@[group[i] as int].outputs@[j] == t);
                }
            }
        }
    }
}

/// What the group reads is what it takes in and no operation of it produces, each tensor
/// once: from fast memory where it is resident, else from slow memory.
pub proof fn what_others_produce_is_read(
    v: TransferVolumes,
    p: Problem,
    meta: Seq<TensorMeta>,
    group: Seq<OpId>,
    resident: Set<TensorId>,
    kept: Seq<TensorId>,
)
    requires
        v.is_of(p, meta, group, resident, kept),
    ensures
        exists|listed: Seq<TensorId>|
            #![trigger listed.no_duplicates()]
            {
                &&& listed.no_duplicates()
                &&& forall|t: TensorId| #[trigger]
                    listed.contains(t) <==> {
                        &&& taken_in(p, group, group.len()).contains(t)
                        &&& t < meta.len()
                        &&& t < p.tensors@.len()
                        &&& meta[t as int].producer is None || !group.contains(meta[t as int].producer->0)
                    }
                &&& v.sram_read == area_total(p, listed.filter(|t: TensorId| resident.contains(t)))
                &&& v.dram_read == area_total(p, listed.filter(|t: TensorId| !resident.contains(t)))
            },
{
    let here = cost::existing(p, group, group.len());
    let listed = cost::reads(p, meta, group);
    let all = memory::inputs_of(here, p.ops@, here.len());
    let pred = |t: usize| cost::is_read(p, meta, group, t);
    lemma_existing(p, group, group.len());
    ids::lemma_first_mentions(all, pred, all.len());
    assert(all.take(all.len() as int) =~= all);
    lemma_read(p, listed, resident, listed.len());
    assert(listed.take(listed.len() as int) =~= listed);
    assert forall|t: TensorId| #[trigger] listed.contains(t) <==> {
        &&& taken_in(p, group, group.len()).contains(t)
        &&& t < meta.len()
        &&& t < p.tensors@.len()
        &&& meta[t as int].producer is None || !group.contains(meta[t as int].producer->0)
    } by {
        assert(listed.contains(t) <==> pred(t) && all.contains(t));
    }
    assert(listed.no_duplicates());
}

proof fn lemma_read(p: Problem, listed: Seq<TensorId>, resident: Set<TensorId>, k: nat)
    requires
        k <= listed.len(),
    ensures
        cost::resident_bytes(p, listed, resident, k) == area_total(
            p,
            listed.take(k as int).filter(|t: TensorId| resident.contains(t)),
        ),
        cost::absent_bytes(p, listed, resident, k) == area_total(
            p,
            listed.take(k as int).filter(|t: TensorId| !resident.contains(t)),
        ),
    decreases k,
{
    let a = |t: TensorId| resident.contains(t);
    let b = |t: TensorId| !resident.contains(t);
    if k == 0 {
        reveal(Seq::filter);
        assert(listed.take(0) =~= Seq::<TensorId>::empty());
    } else {
        lemma_read(p, listed, resident, (k - 1) as nat);
        let head = listed.take(k - 1);
        let t = listed[k - 1];
        assert(listed.take(k as int) =~= head.push(t));
        head.lemma_filter_push(t, a);
        head.lemma_filter_push(t, b);
        assert(head.filter(a).push(t).drop_last() =~= head.filter(a));
        assert(head.filter(b).push(t).drop_last() =~= head.filter(b));
    }
}

} // verus!
