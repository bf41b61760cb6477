//! Which layout suits a tensor, and when changing it pays.
use vstd::prelude::*;
use crate::{arith, ids, layout, models, sorting};
use crate::cost::Fraction;
use crate::layout::{AccessPattern, LayoutAnalysis, LayoutAnalysisConfig, MemoryLayout};
use crate::models::{Granularity, Op, OpId, OpType, Problem, Tensor, TensorId};

verus! {

/// Only the right operand of a matrix product is gone through by columns. Whatever else
/// an operation goes through, it does by rows; of a product without two operands nothing
/// is known.
pub proof fn right_operands_go_by_columns(op: Op, t: TensorId)
    ensures
        layout::pattern_of(op, t) == AccessPattern::ColumnSequential <==> op.op_type == OpType::MatMul && op.inputs@.len()
            >= 2 && op.inputs@[1] == t && op.inputs@[0] != t,
        layout::pattern_of(op, t) == AccessPattern::Mixed <==> op.op_type == OpType::MatMul && op.inputs@.len() < 2,
        layout::pattern_of(op, t) is RowSequential || layout::pattern_of(op, t) is ColumnSequential || layout::pattern_of(
            op,
            t,
        ) is Mixed,
{
}

/// Going along the layout is perfect. Going across it is worse the longer the stride:
/// eight tenths up to 64, five up to 256, three up to 1024, two beyond. Rows and columns
/// are alike when the tensor is turned round.
pub proof fn long_strides_are_slow(tensor: Tensor, stride: int, longer: int)
    requires
        stride <= longer,
    ensures
        layout::strided(stride) >= layout::strided(longer),
        layout::strided(stride) == 8 <==> stride <= 64,
        layout::strided(stride) >= 5 <==> stride <= 256,
        layout::strided(stride) >= 3 <==> stride <= 1024,
        layout::strided(stride) >= 2,
        layout::strided(stride) == 8 || layout::strided(stride) == 5 || layout::strided(stride) == 3 || layout::strided(
            stride,
        ) == 2,
        layout::efficiency(tensor, AccessPattern::RowSequential, MemoryLayout::RowMajor) == 10,
        layout::efficiency(tensor, AccessPattern::ColumnSequential, MemoryLayout::ColumnMajor) == 10,
        layout::efficiency(tensor, AccessPattern::ColumnSequential, MemoryLayout::RowMajor) == layout::efficiency(
            Tensor { width: tensor.height, height: tensor.width },
            AccessPattern::RowSequential,
            MemoryLayout::ColumnMajor,
        ),
        tensor.width <= 64 <==> layout::efficiency(tensor, AccessPattern::ColumnSequential, MemoryLayout::RowMajor) == 8,
{
}

/// What one operation saves when a tensor is laid out by columns: only the matrix product
/// whose right operand it is saves anything. For each element that is eight tenths of what
/// going across the rows costs more than going along the columns.
pub proof fn right_operands_save(op: Op, tensor: Tensor, t: TensorId, bandwidth: int)
    requires
        bandwidth > 0,
        tensor.width >= 0,
        tensor.height >= 0,
    ensures
        ({
            let saved = layout::op_savings(tensor, op, t, MemoryLayout::RowMajor, MemoryLayout::ColumnMajor, bandwidth);
            let right = op.op_type == OpType::MatMul && op.inputs@.len() >= 2 && op.inputs@[1] == t && op.inputs@[0] != t;
            let each: int = if tensor.width <= 64 {
                21
            } else if tensor.width <= 256 {
                84
            } else if tensor.width <= 1024 {
                196
            } else {
                336
            };
            &&& right ==> saved == (tensor.width * tensor.height) * each * 8
            &&& !right ==> saved == 0
            &&& saved >= 0
        }),
{
    let area = tensor.width * tensor.height;
    assert(area >= 0) by (nonlinear_arith)
        requires
            area == tensor.width * tensor.height,
            tensor.width >= 0,
            tensor.height >= 0,
    ;
    let before = layout::UNITS as int / layout::efficiency(tensor, layout::pattern_of(op, t), MemoryLayout::RowMajor);
    let after = layout::UNITS as int / layout::efficiency(tensor, layout::pattern_of(op, t), MemoryLayout::ColumnMajor);
    assert(840int / 10 == 84 && 840int / 8 == 105 && 840int / 5 == 168 && 840int / 3 == 280 && 840int / 2 == 420 && 840int
        / 6 == 140);
    assert(area * (before - after) >= 0 || before < after) by (nonlinear_arith)
        requires
            area >= 0,
    ;
    if before < after {
        assert(area * (before - after) <= 0) by (nonlinear_arith)
            requires
                area >= 0,
                before < after,
        ;
    }
    if before == after {
        assert(area * (before - after) == 0) by (nonlinear_arith)
            requires
                before == after,
        ;
    }
}

/// What the operations save is what each saves, added up.
pub proof fn savings_add_up(p: Problem, t: TensorId, users: Seq<OpId>, from: MemoryLayout, to: MemoryLayout, k: nat)
    requires
        k <= users.len(),
    ensures
        layout::savings(p, t, users, from, to, k) == arith::sum(
            users.take(k as int).map_values(
                |op: OpId|
                    layout::op_savings(
                        p.tensors@[t as int],
                        p.ops@[op as int],
                        t,
                        from,
                        to,
                        p.slow_memory_bandwidth as int,
                    ),
            ),
        ),
        layout::layout_savings(p, t, users, from, from) == 0,
    decreases k,
{
    let f = |op: OpId|
        layout::op_savings(p.tensors@[t as int], p.ops@[op as int], t, from, to, p.slow_memory_bandwidth as int);
    if k == 0 {
        assert(users.take(0).map_values(f) =~= Seq::<int>::empty());
    } else {
        savings_add_up(p, t, users, from, to, (k - 1) as nat);
        let all = users.take(k as int).map_values(f);
        assert(all.drop_last() =~= users.take(k - 1).map_values(f));
        assert(all.last() == f(users[k - 1]));
    }
}

proof fn lemma_counts(p: Problem, t: TensorId, users: Seq<OpId>, k: nat)
    requires
        k <= users.len(),
    ensures
        layout::pattern_count(p, t, users, AccessPattern::ColumnSequential, k) == users.take(k as int).filter(
            |op: OpId|
                p.ops@[op as int].op_type == OpType::MatMul && p.ops@[op as int].inputs@.len() >= 2 && p.ops@[op as int].inputs@[1]
                    == t && p.ops@[op as int].inputs@[0] != t,
        ).len(),
        layout::pattern_count(p, t, users, AccessPattern::RowSequential, k) == users.take(k as int).filter(
            |op: OpId|
                p.ops@[op as int].op_type == OpType::Pointwise || (p.ops@[op as int].inputs@.len() >= 2 && !(
                p.ops@[op as int].inputs@[1] == t && p.ops@[op as int].inputs@[0] != t)),
        ).len(),
        layout::matmul_count(p, users, k) == users.take(k as int).filter(
            |op: OpId| p.ops@[op as int].op_type == OpType::MatMul,
        ).len(),
        layout::base_total(p, users, k) == arith::sum(
            users.take(k as int).map_values(|op: OpId| p.ops@[op as int].base_cost as int),
        ),
    decreases k,
{
    let column = |op: OpId|
        p.ops@[op as int].op_type == OpType::MatMul && p.ops@[op as int].inputs@.len() >= 2 && p.ops@[op as int].inputs@[1]
            == t && p.ops@[op as int].inputs@[0] != t;
    let row = |op: OpId|
        p.ops@[op as int].op_type == OpType::Pointwise || (p.ops@[op as int].inputs@.len() >= 2 && !(
        p.ops@[op as int].inputs@[1] == t && p.ops@[op as int].inputs@[0] != t));
    let product = |op: OpId| p.ops@[op as int].op_type == OpType::MatMul;
    let f = |op: OpId| p.ops@[op as int].base_cost as int;
    if k == 0 {
        reveal(Seq::filter);
        assert(users.take(0) =~= Seq::<OpId>::empty());
        assert(users.take(0).map_values(f) =~= Seq::<int>::empty());
    } else {
        lemma_counts(p, t, users, (k - 1) as nat);
        let before = users.take(k - 1);
        let op = users[k - 1];
        assert(users.take(k as int) =~= before.push(op));
        before.lemma_filter_push(op, column);
        before.lemma_filter_push(op, row);
        before.lemma_filter_push(op, product);
        let all = users.take(k as int).map_values(f);
        assert(all.drop_last() =~= before.map_values(f));
        assert(all.last() == f(op));
    }
}

/// A tensor is best laid out by columns exactly if more operations take it as the right
/// operand of a matrix product than go through it by rows; else by rows.
pub proof fn most_operations_decide(best: MemoryLayout, p: Problem, t: TensorId, users: Seq<OpId>)
    requires
        best == layout::optimal_layout(p, t, users),
    ensures
        best == MemoryLayout::ColumnMajor <==> users.filter(
            |op: OpId|
                p.ops@[op as int].op_type == OpType::MatMul && p.ops@[op as int].inputs@.len() >= 2 && p.ops@[op as int].inputs@[1]
                    == t && p.ops@[op as int].inputs@[0] != t,
        ).len() > users.filter(
            |op: OpId|
                p.ops@[op as int].op_type == OpType::Pointwise || (p.ops@[op as int].inputs@.len() >= 2 && !(
                p.ops@[op as int].inputs@[1] == t && p.ops@[op as int].inputs@[0] != t)),
        ).len(),
        best == MemoryLayout::ColumnMajor || best == MemoryLayout::RowMajor,
{
    lemma_counts(p, t, users, users.len());
    assert(users.take(users.len() as int) =~= users);
}

/// What is said of a change of layout. It starts from rows and costs two and a half times
/// reading and writing the tensor. It is worth looking at only if another layout is
/// best, and if it saves its part of what the operations cost.
pub proof fn analyses_weigh_savings_against_cost(
    analysis: Option<LayoutAnalysis>,
    p: Problem,
    t: TensorId,
    users: Seq<OpId>,
    config: LayoutAnalysisConfig,
)
    requires
        match analysis {
            Some(a) => layout::worth_analyzing(p, t, users, config) && layout::is_analysis(a, p, t, users),
            None => !layout::worth_analyzing(p, t, users, config),
        },
        p.slow_memory_bandwidth > 0,
    ensures
        ({
            let best = layout::optimal_layout(p, t, users);
            let base = arith::sum(users.map_values(|op: OpId| p.ops@[op as int].base_cost as int));
            let saved = layout::layout_savings(p, t, users, MemoryLayout::RowMajor, best);
            let cycle = 840 * p.slow_memory_bandwidth;
            &&& analysis is Some <==> best == MemoryLayout::ColumnMajor && (base <= 0 || 100 * saved
                >= config.min_improvement_ratio * base * cycle)
            &&& analysis matches Some(a) ==> {
                &&& a.tensor_id == t
                &&& a.current_layout == MemoryLayout::RowMajor
                &&& a.optimal_layout == MemoryLayout::ColumnMajor
                &&& a.cycle == cycle
                &&& a.transform_cost == 5 * 840 * (p.tensors@[t as int].width * p.tensors@[t as int].height)
                &&& a.estimated_savings == saved
                &&& arith::saturated(saved - a.transform_cost) == saved - a.transform_cost ==> a.net_benefit == saved
                    - a.transform_cost
            }
        }),
{
    lemma_counts(p, t, users, users.len());
    assert(users.take(users.len() as int) =~= users);
    most_operations_decide(layout::optimal_layout(p, t, users), p, t, users);
}

/// A change pays exactly if it saves more than it costs, saves a thousand cycles, and is
/// trusted to seven tenths.
pub proof fn changes_pay_when_trusted(a: LayoutAnalysis)
    requires
        a.cycle > 0,
    ensures
        a.pays() <==> a.net_benefit > 0 && a.estimated_savings >= 1000 * a.cycle && 10 * a.confidence.numerator >= 7
            * a.confidence.denominator,
{
}

/// How far an estimate is trusted. Nothing is doubted of a tensor of 4096 to a million
/// entries that several matrix products use, if the change brings a thousand cycles. Less
/// is trusted of smaller and of very large tensors, of a single use, and of little
/// benefit; and only half if no use is a matrix product.
pub proof fn doubts_lower_confidence(c: Fraction, p: Problem, tensor: Tensor, users: Seq<OpId>, net: int)
    requires
        layout::is_confidence(c, p, tensor, users, net),
        users.len() > 0,
        p.slow_memory_bandwidth > 0,
    ensures
        ({
            let size = tensor.width * tensor.height;
            let n = users.len() as int;
            let products = users.filter(|op: OpId| p.ops@[op as int].op_type == OpType::MatMul).len() as int;
            let small: int = if size < 1024 { 5 } else if size < 4096 { 7 } else { 10 };
            let single: int = if n == 1 { 6 } else { 10 };
            let little: int = if net < 0 { 3 } else if net < 840_000 * p.slow_memory_bandwidth { 5 } else { 10 };
            let huge: int = if size > 1_000_000 { 8 } else { 10 };
            &&& c.denominator == 20_000 * n
            &&& c.numerator == small * single * little * huge * (n + products)
            &&& 0 <= products <= n
        }),
{
    lemma_counts(p, 0, users, users.len());
    assert(users.take(users.len() as int) =~= users);
    users.lemma_filter_len(|op: OpId| p.ops@[op as int].op_type == OpType::MatMul);
}

proof fn lemma_opportunities(found: Seq<LayoutAnalysis>, p: Problem, config: LayoutAnalysisConfig, n: nat)
    requires
        layout::are_opportunities(found, p, config, n),
        n <= usize::MAX,
    ensures
        found.len() <= n,
        forall|i: int|
            0 <= i < found.len() ==> (#[trigger] found[i]).tensor_id < n && layout::is_opportunity(
                found[i],
                p,
                found[i].tensor_id,
                config,
            ),
        forall|t: usize|
            #![trigger p.tensors@[t as int]]
            t < n && (exists|a: LayoutAnalysis| layout::is_opportunity(a, p, t, config)) ==> exists|i: int|
                0 <= i < found.len() && (#[trigger] found[i]).tensor_id == t,
    decreases n,
{
    if n > 0 {
        let t = (n - 1) as usize;
        if exists|a: LayoutAnalysis| layout::is_opportunity(a, p, t, config) {
            let rest = found.drop_last();
            lemma_opportunities(rest, p, config, (n - 1) as nat);
            assert forall|i: int| 0 <= i < found.len() implies (#[trigger] found[i]).tensor_id < n && layout::is_opportunity(
                found[i],
                p,
                found[i].tensor_id,
                config,
            ) by {
                if i < rest.len() {
                    assert(rest[i] == found[i]);
                } else {
                    assert(found[i] == found.last());
                }
            }
            assert forall|u: usize|
                #![trigger p.tensors@[u as int]]
                u < n && (exists|a: LayoutAnalysis| layout::is_opportunity(a, p, u, config)) implies exists|i: int|
                0 <= i < found.len() && (#[trigger] found[i]).tensor_id == u by {
                if u < n - 1 {
                    assert(p.tensors@[u as int] == p.tensors@[u as int]);
                    let i = choose|i: int| 0 <= i < rest.len() && (#[trigger] rest[i]).tensor_id == u;
                    assert(found[i].tensor_id == u);
                } else {
                    assert(found[found.len() - 1] == found.last());
                    assert(found[found.len() - 1].tensor_id == u);
                }
            }
        } else {
            lemma_opportunities(found, p, config, (n - 1) as nat);
        }
    }
}

/// The tensors to be changed are those that are not too large, that a matrix product
/// consumes, and whose change is worth looking at and pays; all of them, and no others.
pub proof fn rewarding_changes_are_found(
    listed: Seq<LayoutAnalysis>,
    p: Problem,
    config: LayoutAnalysisConfig,
    t: usize,
    a: LayoutAnalysis,
)
    requires
        layout::are_listed_opportunities(listed, p, config),
        p.tensors@.len() <= usize::MAX,
        t < p.tensors@.len(),
        ({
            let users = models::consumers_of(p.ops@, t, p.ops@.len());
            layout::worth_analyzing(p, t, users, config) ==> layout::is_analysis(a, p, t, users)
        }),
    ensures
        ({
            let users = models::consumers_of(p.ops@, t, p.ops@.len());
            (exists|i: int| 0 <= i < listed.len() && (#[trigger] listed[i]).tensor_id == t) <==> {
                &&& p.tensors@[t as int].width * p.tensors@[t as int].height <= config.max_tensor_size
                &&& exists|i: int| 0 <= i < users.len() && p.ops@[(#[trigger] users[i]) as int].op_type == OpType::MatMul
                &&& layout::worth_analyzing(p, t, users, config)
                &&& a.pays()
            }
        }),
{
    let users = models::consumers_of(p.ops@, t, p.ops@.len());
    let found = choose|found: Seq<LayoutAnalysis>| #[trigger]
        layout::are_opportunities(found, p, config, p.tensors@.len()) && layout::is_listing(listed, found);
    lemma_opportunities(found, p, config, p.tensors@.len());
    let (keys, order) = choose|keys: Seq<sorting::SortKey>, order: Seq<usize>| #[trigger]
        layout::ranks_by_benefit(keys, found) && #[trigger] sorting::is_stable_order(keys, order) && listed == Seq::new(
            order.len(),
            |i: int| found[order[i] as int],
        );
    lemma_counts(p, t, users, users.len());
    assert(users.take(users.len() as int) =~= users);
    let product = |op: OpId| p.ops@[op as int].op_type == OpType::MatMul;
    if layout::matmul_count(p, users, users.len()) > 0 {
        users.lemma_filter_pred(product, 0);
        users.lemma_filter_contains_rev(product, users.filter(product)[0]);
        let i = choose|i: int| 0 <= i < users.len() && users[i] == users.filter(product)[0];
        assert(p.ops@[users[i] as int].op_type == OpType::MatMul);
    }
    if exists|i: int| 0 <= i < users.len() && p.ops@[(#[trigger] users[i]) as int].op_type == OpType::MatMul {
        let i = choose|i: int| 0 <= i < users.len() && p.ops@[(#[trigger] users[i]) as int].op_type == OpType::MatMul;
        users.lemma_filter_contains(product, i);
        assert(users.filter(product).len() > 0);
    }
    if exists|i: int| 0 <= i < listed.len() && (#[trigger] listed[i]).tensor_id == t {
        let i = choose|i: int| 0 <= i < listed.len() && (#[trigger] listed[i]).tensor_id == t;
        assert(listed[i] == found[order[i] as int]);
        let b = found[order[i] as int];
        assert(layout::is_opportunity(b, p, t, config));
        assert(b.pays());
        assert(a.pays());
    }
    if layout::is_opportunity(a, p, t, config) {
        assert(p.tensors@[t as int] == p.tensors@[t as int]);
        let i = choose|i: int| 0 <= i < found.len() && (#[trigger] found[i]).tensor_id == t;
        if !order.contains(i as usize) {
            let longer = order.push(i as usize);
            assert(longer.no_duplicates());
            crate::graph::lemma_distinct_below(longer, keys.len());
        }
        let j = choose|j: int| 0 <= j < order.len() && order[j] == i as usize;
        assert(listed[j].tensor_id == t);
    }
}

/// The users of a tensor in a group are the operations that take it in or put it out.
pub proof fn users_mention_the_tensor(p: Problem, group: Seq<OpId>, t: TensorId, k: nat)
    requires
        k <= group.len(),
    ensures
        layout::users_in(p, group, t, k) == group.take(k as int).filter(
            |op: OpId| p.ops@[op as int].inputs@.contains(t) || p.ops@[op as int].outputs@.contains(t),
        ),
        layout::mentioned(p, group, k).contains(t) <==> exists|i: int|
            0 <= i < k && (p.ops@[(#[trigger] group[i]) as int].inputs@.contains(t) || p.ops@[group[i] as int].outputs@.contains(
                t,
            )),
    decreases k,
{
    let pred = |op: OpId| p.ops@[op as int].inputs@.contains(t) || p.ops@[op as int].outputs@.contains(t);
    if k == 0 {
        reveal(Seq::filter);
        assert(group.take(0) =~= Seq::<OpId>::empty());
        assert(group.take(0).filter(pred) =~= Seq::<OpId>::empty());
    } else {
        users_mention_the_tensor(p, group, t, (k - 1) as nat);
        let before = group.take(k - 1);
        assert(group.take(k as int) =~= before.push(group[k - 1]));
        before.lemma_filter_push(group[k - 1], pred);
        let op = p.ops@[group[k - 1] as int];
        let rest = layout::mentioned(p, group, (k - 1) as nat);
        ids::lemma_concat_contains(rest + op.inputs@, op.outputs@, t);
        ids::lemma_concat_contains(rest, op.inputs@, t);
        if rest.contains(t) {
            let i = choose|i: int|
                0 <= i < k - 1 && (p.ops@[(#[trigger] group[i]) as int].inputs@.contains(t)
                    || p.ops@[group[i] as int].outputs@.contains(t));
            assert(0 <= i < k && pred(group[i]));
        }
        if op.inputs@.contains(t) || op.outputs@.contains(t) {
            assert(0 <= k - 1 < k && pred(group[k - 1]));
        }
    }
}

/// The tensors of a group are those that its operations mention, each once.
pub proof fn groups_have_their_tensors(p: Problem, group: Seq<OpId>, t: TensorId)
    ensures
        layout::group_tensors(p, group).no_duplicates(),
        layout::group_tensors(p, group).contains(t) <==> exists|i: int|
            0 <= i < group.len() && (p.ops@[(#[trigger] group[i]) as int].inputs@.contains(t)
                || p.ops@[group[i] as int].outputs@.contains(t)),
{
    let all = layout::mentioned(p, group, group.len());
    users_mention_the_tensor(p, group, t, group.len());
    ids::lemma_first_mentions(all, |t: usize| true, all.len());
    assert(all.take(all.len() as int) =~= all);
}

/// The granularity goes by the first layout in tiles; without one it is tall where a layout
/// is by columns, else native.
pub proof fn granularities_follow_layouts(p: Problem, transforms: Seq<(TensorId, MemoryLayout)>, i: int)
    requires
        0 <= i < transforms.len(),
        forall|j: int| 0 <= j < i ==> !((#[trigger] transforms[j]).1 is Blocked),
    ensures
        transforms[i].1 matches MemoryLayout::Blocked { tile_w, tile_h } ==> layout::suited_granularity(p, transforms) == (
        Granularity { width: tile_w, height: tile_h, depth: 1 }),
        i == transforms.len() - 1 && !(transforms[i].1 is Blocked) ==> layout::suited_granularity(p, transforms) == if (
        exists|j: int| 0 <= j < transforms.len() && (#[trigger] transforms[j]).1 == MemoryLayout::ColumnMajor) {
            Granularity { width: 64, height: 256, depth: 1 }
        } else {
            p.native_granularity
        },
{
    lemma_first_block(transforms, i);
}

proof fn lemma_first_block(transforms: Seq<(TensorId, MemoryLayout)>, i: int)
    requires
        0 <= i < transforms.len(),
        forall|j: int| 0 <= j < i ==> !((#[trigger] transforms[j]).1 is Blocked),
    ensures
        transforms[i].1 matches MemoryLayout::Blocked { tile_w, tile_h } ==> layout::first_block(transforms) == Some(
            (tile_w, tile_h),
        ),
        i == transforms.len() - 1 && !(transforms[i].1 is Blocked) ==> layout::first_block(transforms) is None,
    decreases transforms.len(),
{
    if i > 0 {
        assert(!(transforms[0].1 is Blocked));
        let rest = transforms.drop_first();
        assert forall|j: int| 0 <= j < i - 1 implies !((#[trigger] rest[j]).1 is Blocked) by {
            assert(rest[j] == transforms[j + 1]);
        }
        assert(rest[i - 1] == transforms[i]);
        lemma_first_block(rest, i - 1);
    } else if transforms.len() == 1 {
        assert(layout::first_block(transforms.drop_first()) is None);
    }
}

/// What the changes bring together is what each brings, added up.
pub proof fn benefits_add_up(found: Seq<LayoutAnalysis>)
    ensures
        layout::total_benefit(found) == arith::sum(found.map_values(|a: LayoutAnalysis| a.net_benefit as int)),
    decreases found.len(),
{
    let f = |a: LayoutAnalysis| a.net_benefit as int;
    if found.len() > 0 {
        benefits_add_up(found.drop_last());
        assert(found.map_values(f).drop_last() =~= found.drop_last().map_values(f));
    }
}

proof fn lemma_group_opportunities(
    found: Seq<LayoutAnalysis>,
    p: Problem,
    group: Seq<OpId>,
    tensors: Seq<TensorId>,
    config: LayoutAnalysisConfig,
    k: nat,
)
    requires
        layout::are_group_opportunities(found, p, group, tensors, config, k),
        k <= tensors.len(),
    ensures
        forall|i: int|
            0 <= i < found.len() ==> tensors.take(k as int).contains((#[trigger] found[i]).tensor_id)
                && layout::is_group_opportunity(found[i], p, group, found[i].tensor_id, config),
        forall|t: usize|
            #![trigger p.tensors@[t as int]]
            tensors.take(k as int).contains(t) && (exists|a: LayoutAnalysis|
                layout::is_group_opportunity(a, p, group, t, config)) ==> exists|i: int|
                0 <= i < found.len() && (#[trigger] found[i]).tensor_id == t,
    decreases k,
{
    if k > 0 {
        let t = tensors[k - 1];
        let before = tensors.take(k - 1);
        assert(tensors.take(k as int) =~= before.push(t));
        ids::lemma_push_contains(before, t);
        if exists|a: LayoutAnalysis| layout::is_group_opportunity(a, p, group, t, config) {
            let rest = found.drop_last();
            lemma_group_opportunities(rest, p, group, tensors, config, (k - 1) as nat);
            assert forall|i: int| 0 <= i < found.len() implies tensors.take(k as int).contains((#[trigger] found[i]).tensor_id)
                && layout::is_group_opportunity(found[i], p, group, found[i].tensor_id, config) by {
                if i < rest.len() {
                    assert(rest[i] == found[i]);
                } else {
                    assert(found[i] == found.last());
                }
            }
            assert forall|u: usize|
                #![trigger p.tensors@[u as int]]
                tensors.take(k as int).contains(u) && (exists|a: LayoutAnalysis|
                    layout::is_group_opportunity(a, p, group, u, config)) implies exists|i: int|
                0 <= i < found.len() && (#[trigger] found[i]).tensor_id == u by {
                if u == t {
                    assert(found[found.len() - 1] == found.last());
                    assert(found[found.len() - 1].tensor_id == u);
                } else {
                    assert(p.tensors@[u as int] == p.tensors@[u as int]);
                    let i = choose|i: int| 0 <= i < rest.len() && (#[trigger] rest[i]).tensor_id == u;
                    assert(found[i].tensor_id == u);
                }
            }
        } else {
            lemma_group_opportunities(found, p, group, tensors, config, (k - 1) as nat);
        }
    }
}

/// In a group the tensors to be changed are those that its operations mention and whose
/// change is worth looking at and pays among these operations; all of them, and no others.
pub proof fn rewarding_changes_in_groups_are_found(
    found: Seq<LayoutAnalysis>,
    p: Problem,
    group: Seq<OpId>,
    config: LayoutAnalysisConfig,
    t: usize,
    a: LayoutAnalysis,
)
    requires
        layout::is_group_search(found, p, group, config),
        ({
            let users = layout::users_in(p, group, t, group.len());
            layout::worth_analyzing(p, t, users, config) ==> layout::is_analysis(a, p, t, users)
        }),
    ensures
        ({
            let users = group.filter(
                |op: OpId| p.ops@[op as int].inputs@.contains(t) || p.ops@[op as int].outputs@.contains(t),
            );
            (exists|i: int| 0 <= i < found.len() && (#[trigger] found[i]).tensor_id == t) <==> {
                &&& exists|i: int|
                    0 <= i < group.len() && (p.ops@[(#[trigger] group[i]) as int].inputs@.contains(t)
                        || p.ops@[group[i] as int].outputs@.contains(t))
                &&& layout::worth_analyzing(p, t, users, config)
                &&& a.pays()
            }
        }),
{
    let tensors = layout::group_tensors(p, group);
    lemma_group_opportunities(found, p, group, tensors, config, tensors.len());
    assert(tensors.take(tensors.len() as int) =~= tensors);
    groups_have_their_tensors(p, group, t);
    users_mention_the_tensor(p, group, t, group.len());
    assert(group.take(group.len() as int) =~= group);
    if exists|i: int| 0 <= i < found.len() && (#[trigger] found[i]).tensor_id == t {
        let i = choose|i: int| 0 <= i < found.len() && (#[trigger] found[i]).tensor_id == t;
        assert(layout::is_group_opportunity(found[i], p, group, t, config));
        assert(found[i].pays());
        assert(a.pays());
    }
    if layout::is_group_opportunity(a, p, group, t, config) && tensors.contains(t) {
        assert(p.tensors@[t as int] == p.tensors@[t as int]);
    }
}

/// The changes are not worth it without one, nor where together they bring less than asked
/// for; what brings as much, without going past the largest number, is.
pub proof fn changes_bring_what_is_asked(found: Seq<LayoutAnalysis>, p: Problem, config: LayoutAnalysisConfig)
    requires
        arith::saturated(layout::total_benefit(found)) == layout::total_benefit(found),
    ensures
        layout::not_worth_it(found, p, config) <==> found.len() == 0 || arith::sum(
            found.map_values(|a: LayoutAnalysis| a.net_benefit as int),
        ) < config.min_savings * layout::cycle(p),
{
    benefits_add_up(found);
}

} // verus!
