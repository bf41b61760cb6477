//! Memory layouts of tensors: which one suits the accesses, and whether changing it pays.
//!
//! Times are whole amounts of a small unit: one cycle has as many units as `cycle` says. The unit is so
//! small that all efficiencies divide it.
use vstd::prelude::*;
use crate::arith;
use crate::cost::Fraction;
use crate::ids;
use crate::models;
use crate::models::{Granularity, Op, OpId, OpType, Problem, Tensor, TensorId, TensorMeta};
use crate::sorting;
use crate::sorting::SortKey;

verus! {

/// The order of a tensor's elements in memory.
#[derive(Debug, Clone, Copy, PartialEq, Eq, Hash, Structural)]
pub enum MemoryLayout {
    /// Rows are contiguous.
    RowMajor,
    /// Columns are contiguous.
    ColumnMajor,
    /// Tiles are contiguous.
    Blocked { tile_w: i64, tile_h: i64 },
    /// The order is not known.
    Unknown,
}

impl Default for MemoryLayout {
    fn default() -> (layout: Self)
        ensures
            layout == MemoryLayout::RowMajor,
    {
        MemoryLayout::RowMajor
    }
}

impl MemoryLayout {
    /// The layout suits access along rows.
    pub fn favors_row_access(&self) -> (yes: bool)
        ensures
            yes == (self is RowMajor || self is Unknown),
    {
        match self {
            MemoryLayout::RowMajor => true,
            MemoryLayout::Unknown => true,
            _ => false,
        }
    }

    /// The layout suits access along columns.
    pub fn favors_column_access(&self) -> (yes: bool)
        ensures
            yes == (self is ColumnMajor),
    {
        match self {
            MemoryLayout::ColumnMajor => true,
            _ => false,
        }
    }

    /// The layout suits access by tiles.
    pub fn is_blocked(&self) -> (yes: bool)
        ensures
            yes == (self is Blocked),
    {
        match self {
            MemoryLayout::Blocked { .. } => true,
            _ => false,
        }
    }
}

/// How an operation goes through a tensor.
#[derive(Debug, Clone, Copy, PartialEq, Eq, Structural)]
pub enum AccessPattern {
    /// Row by row.
    RowSequential,
    /// Column by column.
    ColumnSequential,
    /// Tile by tile.
    BlockAccess { tile_w: i64, tile_h: i64 },
    /// In no particular order.
    Mixed,
}

/// How a matrix product goes through the tensor: the right operand column by column,
/// all others row by row.
pub open spec fn matmul_pattern(op: Op, t: TensorId) -> AccessPattern {
    if op.inputs@.len() < 2 {
        AccessPattern::Mixed
    } else if t == op.inputs@[0] {
        AccessPattern::RowSequential
    } else if t == op.inputs@[1] {
        AccessPattern::ColumnSequential
    } else {
        AccessPattern::RowSequential
    }
}

/// How the operation goes through the tensor.
pub open spec fn pattern_of(op: Op, t: TensorId) -> AccessPattern {
    match op.op_type {
        OpType::MatMul => matmul_pattern(op, t),
        OpType::Pointwise => AccessPattern::RowSequential,
    }
}

/// Tells how a matrix product goes through the tensor.
pub fn analyze_matmul_access_pattern(op: &Op, tensor_id: TensorId, _tensors: &[Tensor]) -> (pattern: AccessPattern)
    ensures
        pattern == matmul_pattern(*op, tensor_id),
{
    if op.inputs.len() < 2 {
        return AccessPattern::Mixed;
    }
    if tensor_id == op.inputs[0] {
        AccessPattern::RowSequential
    } else if tensor_id == op.inputs[1] {
        AccessPattern::ColumnSequential
    } else {
        AccessPattern::RowSequential
    }
}

/// Tells how the operation goes through the tensor.
pub fn analyze_access_pattern(op: &Op, tensor_id: TensorId, tensors: &[Tensor]) -> (pattern: AccessPattern)
    ensures
        pattern == pattern_of(*op, tensor_id),
{
    match op.op_type {
        OpType::MatMul => analyze_matmul_access_pattern(op, tensor_id, tensors),
        OpType::Pointwise => AccessPattern::RowSequential,
    }
}

/// The efficiency of access with this stride, in tenths.
pub open spec fn strided(stride: int) -> int {
    if stride <= 64 {
        8
    } else if stride <= 256 {
        5
    } else if stride <= 1024 {
        3
    } else {
        2
    }
}

/// The efficiency of going through the tensor in this way, in tenths.
pub open spec fn efficiency(tensor: Tensor, pattern: AccessPattern, layout: MemoryLayout) -> int {
    match (pattern, layout) {
        (AccessPattern::RowSequential, MemoryLayout::RowMajor) => 10,
        (AccessPattern::ColumnSequential, MemoryLayout::ColumnMajor) => 10,
        (AccessPattern::RowSequential, MemoryLayout::ColumnMajor) => strided(tensor.height as int),
        (AccessPattern::ColumnSequential, MemoryLayout::RowMajor) => strided(tensor.width as int),
        (AccessPattern::BlockAccess { tile_w, tile_h }, MemoryLayout::Blocked { tile_w: bw, tile_h: bh }) => {
            if tile_w == bw && tile_h == bh {
                10
            } else {
                7
            }
        },
        _ => 6,
    }
}

/// The efficiency of access with this stride, in tenths.
pub fn calculate_strided_efficiency(stride: i64) -> (tenths: u8)
    ensures
        tenths == strided(stride as int),
{
    if stride <= 64 {
        8
    } else if stride <= 256 {
        5
    } else if stride <= 1024 {
        3
    } else {
        2
    }
}

/// The efficiency of going through the tensor in this way, in tenths.
pub fn calculate_access_efficiency(tensor: &Tensor, access_pattern: AccessPattern, layout: MemoryLayout) -> (tenths: u8)
    ensures
        tenths == efficiency(*tensor, access_pattern, layout),
{
    match (access_pattern, layout) {
        (AccessPattern::RowSequential, MemoryLayout::RowMajor) => 10,
        (AccessPattern::ColumnSequential, MemoryLayout::ColumnMajor) => 10,
        (AccessPattern::RowSequential, MemoryLayout::ColumnMajor) => calculate_strided_efficiency(tensor.height),
        (AccessPattern::ColumnSequential, MemoryLayout::RowMajor) => calculate_strided_efficiency(tensor.width),
        (AccessPattern::BlockAccess { tile_w, tile_h }, MemoryLayout::Blocked { tile_w: bw, tile_h: bh }) => {
            if tile_w == bw && tile_h == bh {
                10
            } else {
                7
            }
        },
        _ => 6,
    }
}

/// No efficiency is perfect but that of access along the layout, and none is below two tenths.
pub proof fn efficiencies_are_shares(tensor: Tensor, pattern: AccessPattern, layout: MemoryLayout)
    ensures
        2 <= efficiency(tensor, pattern, layout) <= 10,
        pattern is ColumnSequential && layout is RowMajor ==> efficiency(tensor, pattern, layout) < 10,
        pattern is RowSequential && layout is ColumnMajor ==> efficiency(tensor, pattern, layout) < 10,
{
}

/// The number of units that the memory needs for one element, times the bandwidth.
pub const UNITS: i64 = 840;

/// The number of units of one cycle. Without bandwidth no number of units makes up a cycle.
pub open spec fn cycle(p: Problem) -> int {
    UNITS * arith::greatest(p.slow_memory_bandwidth as int, -p.slow_memory_bandwidth)
}

/// An amount that goes through the memory: a bandwidth below zero turns it round.
pub open spec fn through_memory(amount: int, bandwidth: int) -> int {
    if bandwidth < 0 {
        -amount
    } else {
        amount
    }
}

/// The number of units of one cycle.
fn find_cycle(problem: &Problem) -> (units: i128)
    ensures
        units == cycle(*problem),
{
    let bandwidth: i128 = problem.slow_memory_bandwidth as i128;
    if bandwidth < 0 {
        840 * -bandwidth
    } else {
        840 * bandwidth
    }
}

/// The time to bring the tensor into another layout, in units: it is read and written,
/// at two and a half times the plain cost.
pub fn calculate_transform_cost(
    tensor: &Tensor,
    _from_layout: MemoryLayout,
    _to_layout: MemoryLayout,
    bandwidth: i64,
) -> (units: i128)
    requires
        arith::fits(tensor.area()),
    ensures
        units == through_memory(5 * UNITS * tensor.area(), bandwidth as int),
{
    let plain: i128 = 4200 * tensor.size() as i128;
    if bandwidth < 0 {
        -plain
    } else {
        plain
    }
}

/// The tenths of the time saved that count.
pub open spec fn discount(kind: OpType) -> int {
    match kind {
        OpType::MatMul => 8,
        OpType::Pointwise => 5,
    }
}

/// The units that the operation saves when the tensor's layout changes; never less than
/// nothing, and nothing without bandwidth.
pub open spec fn op_savings(
    tensor: Tensor,
    op: Op,
    t: TensorId,
    from: MemoryLayout,
    to: MemoryLayout,
    bandwidth: int,
) -> int {
    let before = UNITS as int / efficiency(tensor, pattern_of(op, t), from);
    let after = UNITS as int / efficiency(tensor, pattern_of(op, t), to);
    if bandwidth == 0 {
        0
    } else {
        arith::greatest(through_memory(tensor.area() * (before - after), bandwidth), 0) * discount(op.op_type)
    }
}

/// The units that the first `k` operations save together.
pub open spec fn savings(p: Problem, t: TensorId, users: Seq<OpId>, from: MemoryLayout, to: MemoryLayout, k: nat) -> int
    decreases k,
{
    if k == 0 {
        0
    } else {
        savings(p, t, users, from, to, (k - 1) as nat) + op_savings(
            p.tensors@[t as int],
            p.ops@[users[k - 1] as int],
            t,
            from,
            to,
            p.slow_memory_bandwidth as int,
        )
    }
}

/// The units that the operations save when the tensor's layout changes, as far as an
/// `i128` can tell.
pub open spec fn layout_savings(p: Problem, t: TensorId, users: Seq<OpId>, from: MemoryLayout, to: MemoryLayout) -> int {
    if from == to {
        0
    } else {
        arith::saturated(savings(p, t, users, from, to, users.len()))
    }
}

/// The tensor and the operations exist, and the tensor's size fits.
pub open spec fn use_known(p: Problem, t: TensorId, users: Seq<OpId>) -> bool {
    &&& t < p.tensors@.len()
    &&& arith::fits(p.tensors@[t as int].area())
    &&& forall|i: int| 0 <= i < users.len() ==> (#[trigger] users[i]) < p.ops@.len()
}

fn estimate_op_savings(
    op: &Op,
    t: TensorId,
    from: MemoryLayout,
    to: MemoryLayout,
    problem: &Problem,
) -> (units: i128)
    requires
        t < problem.tensors@.len(),
        arith::fits(problem.tensors@[t as int].area()),
    ensures
        units == op_savings(problem.tensors@[t as int], *op, t, from, to, problem.slow_memory_bandwidth as int),
        0 <= units <= 0x8000_0000_0000_0000 * 8400,
{
    let tensor: &Tensor = &problem.tensors[t];
    if problem.slow_memory_bandwidth == 0 {
        return 0;
    }
    proof {
        efficiencies_are_shares(*tensor, pattern_of(*op, t), from);
        efficiencies_are_shares(*tensor, pattern_of(*op, t), to);
    }
    let pattern: AccessPattern = analyze_access_pattern(op, t, problem.tensors.as_slice());
    let first: u8 = calculate_access_efficiency(tensor, pattern, from);
    let second: u8 = calculate_access_efficiency(tensor, pattern, to);
    assert(84 <= 840int / (first as int) <= 420) by (nonlinear_arith)
        requires
            2 <= first <= 10,
    ;
    assert(84 <= 840int / (second as int) <= 420) by (nonlinear_arith)
        requires
            2 <= second <= 10,
    ;
    let before: i64 = 840 / first as i64;
    let after: i64 = 840 / second as i64;
    let size: i64 = tensor.size();
    let change: i64 = before - after;
    assert(-0x8000_0000_0000_0000 * 336 <= size * change <= 0x8000_0000_0000_0000 * 336) by (nonlinear_arith)
        requires
            -336 <= change <= 336,
            -0x8000_0000_0000_0000 <= size <= 0x7fff_ffff_ffff_ffff,
    ;
    let product: i128 = size as i128 * change as i128;
    let saved: i128 = if problem.slow_memory_bandwidth < 0 {
        -product
    } else {
        product
    };
    let counted: i128 = if saved > 0 {
        saved
    } else {
        0
    };
    match op.op_type {
        OpType::MatMul => counted * 8,
        OpType::Pointwise => counted * 5,
    }
}

/// Estimates the units that the operations save when the tensor's layout changes.
pub fn estimate_layout_savings(
    tensor_id: TensorId,
    ops_using_tensor: &[OpId],
    problem: &Problem,
    current_layout: MemoryLayout,
    optimal_layout: MemoryLayout,
) -> (units: i128)
    requires
        use_known(*problem, tensor_id, ops_using_tensor@),
    ensures
        units == layout_savings(*problem, tensor_id, ops_using_tensor@, current_layout, optimal_layout),
        units >= 0,
{
    if current_layout == optimal_layout {
        return 0;
    }
    let ghost users = ops_using_tensor@;
    let mut units: i128 = 0;
    let mut i: usize = 0;
    while i < ops_using_tensor.len()
        invariant
            i <= users.len(),
            users == ops_using_tensor@,
            use_known(*problem, tensor_id, users),
            units == arith::saturated(
                savings(*problem, tensor_id, users, current_layout, optimal_layout, i as nat),
            ),
            savings(*problem, tensor_id, users, current_layout, optimal_layout, i as nat) >= 0,
        decreases users.len() - i,
    {
        let op: OpId = ops_using_tensor[i];
        assert(users[i as int] < problem.ops@.len());
        let more: i128 = estimate_op_savings(
            &problem.ops[op],
            tensor_id,
            current_layout,
            optimal_layout,
            problem,
        );
        units = arith::saturating_sum(units, more);
        i = i + 1;
    }
    units
}

/// The number of the first `k` operations that go through the tensor in this way.
pub open spec fn pattern_count(p: Problem, t: TensorId, users: Seq<OpId>, pattern: AccessPattern, k: nat) -> nat
    decreases k,
{
    if k == 0 {
        0
    } else {
        pattern_count(p, t, users, pattern, (k - 1) as nat) + if pattern_of(p.ops@[users[k - 1] as int], t) == pattern {
            1nat
        } else {
            0nat
        }
    }
}

/// The layout that suits most of the operations; rows where there is a tie.
pub open spec fn optimal_layout(p: Problem, t: TensorId, users: Seq<OpId>) -> MemoryLayout {
    if pattern_count(p, t, users, AccessPattern::ColumnSequential, users.len()) > pattern_count(
        p,
        t,
        users,
        AccessPattern::RowSequential,
        users.len(),
    ) {
        MemoryLayout::ColumnMajor
    } else {
        MemoryLayout::RowMajor
    }
}

/// Finds the layout that suits most of the operations.
pub fn determine_optimal_layout(tensor_id: TensorId, ops_using: &[OpId], problem: &Problem) -> (layout: MemoryLayout)
    requires
        forall|i: int| 0 <= i < ops_using@.len() ==> (#[trigger] ops_using@[i]) < problem.ops@.len(),
    ensures
        layout == optimal_layout(*problem, tensor_id, ops_using@),
{
    let ghost users = ops_using@;
    let mut rows: usize = 0;
    let mut columns: usize = 0;
    let mut i: usize = 0;
    while i < ops_using.len()
        invariant
            i <= users.len(),
            users == ops_using@,
            forall|i: int| 0 <= i < users.len() ==> (#[trigger] users[i]) < problem.ops@.len(),
            rows == pattern_count(*problem, tensor_id, users, AccessPattern::RowSequential, i as nat),
            columns == pattern_count(*problem, tensor_id, users, AccessPattern::ColumnSequential, i as nat),
            rows <= i,
            columns <= i,
        decreases users.len() - i,
    {
        let op: OpId = ops_using[i];
        assert(users[i as int] < problem.ops@.len());
        let pattern: AccessPattern = analyze_access_pattern(&problem.ops[op], tensor_id, problem.tensors.as_slice());
        match pattern {
            AccessPattern::RowSequential => {
                rows = rows + 1;
            },
            AccessPattern::ColumnSequential => {
                columns = columns + 1;
            },
            _ => {},
        }
        i = i + 1;
    }
    if columns > rows {
        MemoryLayout::ColumnMajor
    } else {
        MemoryLayout::RowMajor
    }
}

/// The fewest cycles that a change must save.
pub const MINIMUM_SAVINGS_THRESHOLD: i64 = 1000;

/// What is to be taken into account.
#[derive(Debug, Clone, Copy)]
pub struct LayoutAnalysisConfig {
    /// Layouts are looked at.
    pub enabled: bool,
    /// The least part of the operations' cost that a change must save, in percent.
    pub min_improvement_ratio: u8,
    /// The fewest cycles that all changes must save together.
    pub min_savings: i64,
    /// The least confidence, in percent.
    pub min_confidence: u8,
    /// The largest tensor that is changed.
    pub max_tensor_size: i64,
}

impl Default for LayoutAnalysisConfig {
    fn default() -> (config: Self)
        ensures
            config == (LayoutAnalysisConfig {
                enabled: true,
                min_improvement_ratio: 5,
                min_savings: MINIMUM_SAVINGS_THRESHOLD,
                min_confidence: 70,
                max_tensor_size: 16_777_216,
            }),
    {
        LayoutAnalysisConfig {
            enabled: true,
            min_improvement_ratio: 5,
            min_savings: MINIMUM_SAVINGS_THRESHOLD,
            min_confidence: 70,
            max_tensor_size: 16_777_216,
        }
    }
}

/// What a change of a tensor's layout costs and saves, in units.
#[derive(Debug, Clone, Copy)]
pub struct LayoutAnalysis {
    pub tensor_id: TensorId,
    pub current_layout: MemoryLayout,
    pub optimal_layout: MemoryLayout,
    pub transform_cost: i128,
    pub estimated_savings: i128,
    /// What is saved less what it costs.
    pub net_benefit: i128,
    /// How far the estimate is to be trusted, at most one.
    pub confidence: Fraction,
    /// The number of units of one cycle.
    pub cycle: i128,
}

impl LayoutAnalysis {
    /// The change pays, is likely to, and saves enough; without bandwidth no change ever ends.
    pub open spec fn pays(&self) -> bool {
        &&& self.cycle > 0
        &&& self.net_benefit > 0
        &&& 10 * self.confidence.numerator >= 7 * self.confidence.denominator
        &&& self.estimated_savings >= MINIMUM_SAVINGS_THRESHOLD * self.cycle
    }

    /// Whether the layout should be changed.
    pub fn should_transform(&self) -> (yes: bool)
        ensures
            yes == self.pays(),
    {
        let whole: u128 = self.confidence.denominator / 10;
        let rest: u128 = self.confidence.denominator % 10;
        let cycles: i128 = arith::floor_quotient(self.estimated_savings, 1000);
        self.cycle > 0 && self.net_benefit > 0 && self.confidence.numerator >= 7 * whole + (7 * rest + 9) / 10 && cycles >= self.cycle
    }
}

/// The number of the first `k` operations that are matrix products.
pub open spec fn matmul_count(p: Problem, users: Seq<OpId>, k: nat) -> nat
    decreases k,
{
    if k == 0 {
        0
    } else {
        matmul_count(p, users, (k - 1) as nat) + if p.ops@[users[k - 1] as int].op_type is MatMul {
            1nat
        } else {
            0nat
        }
    }
}

/// Small tensors stay in caches anyway.
pub open spec fn size_tenths(size: int) -> int {
    if size < 1024 {
        5
    } else if size < 4096 {
        7
    } else {
        10
    }
}

/// A single use gives little to reuse.
pub open spec fn reuse_tenths(uses: int) -> int {
    if uses == 1 {
        6
    } else {
        10
    }
}

/// A small benefit may not be one.
pub open spec fn benefit_tenths(net: int, enough: int) -> int {
    if net < 0 {
        3
    } else if net < enough {
        5
    } else {
        10
    }
}

/// Very large tensors are a risk.
pub open spec fn risk_tenths(size: int) -> int {
    if size > 1_000_000 {
        8
    } else {
        10
    }
}

/// How far the estimate is to be trusted: the product of the doubts, scaled by how many
/// of the operations are matrix products.
pub open spec fn is_confidence(c: Fraction, p: Problem, tensor: Tensor, users: Seq<OpId>, net: int) -> bool {
    let uses = arith::greatest(users.len() as int, 1);
    &&& c.numerator == size_tenths(tensor.area()) * reuse_tenths(users.len() as int) * benefit_tenths(
        net,
        MINIMUM_SAVINGS_THRESHOLD * cycle(p),
    ) * risk_tenths(tensor.area()) * (uses + matmul_count(p, users, users.len()))
    &&& c.denominator == 20_000 * uses
}

proof fn lemma_matmul_count(p: Problem, users: Seq<OpId>, k: nat)
    ensures
        matmul_count(p, users, k) <= k,
    decreases k,
{
    if k > 0 {
        lemma_matmul_count(p, users, (k - 1) as nat);
    }
}

/// A confidence is at most one.
pub proof fn confidences_are_shares(c: Fraction, p: Problem, tensor: Tensor, users: Seq<OpId>, net: int)
    requires
        is_confidence(c, p, tensor, users, net),
    ensures
        c.numerator <= c.denominator,
        c.denominator > 0,
{
    lemma_matmul_count(p, users, users.len());
    let uses = arith::greatest(users.len() as int, 1);
    let matmuls = matmul_count(p, users, users.len()) as int;
    let a = size_tenths(tensor.area());
    let b = reuse_tenths(users.len() as int);
    let d = benefit_tenths(net, MINIMUM_SAVINGS_THRESHOLD * cycle(p));
    let e = risk_tenths(tensor.area());
    lemma_product(a, b, d, e, uses + matmuls, 2 * uses);
}

proof fn lemma_product(a: int, b: int, c: int, d: int, x: int, y: int)
    by (nonlinear_arith)
    requires
        0 <= a <= 10,
        0 <= b <= 10,
        0 <= c <= 10,
        0 <= d <= 10,
        0 <= x <= y,
    ensures
        0 <= a * b <= 100,
        0 <= a * b * c <= 1000,
        0 <= a * b * c * d <= 10_000,
        0 <= a * b * c * d * x <= 10_000 * y,
{
    assert(0 <= a * b <= 100);
    assert(0 <= (a * b) * c <= 1000);
    assert(0 <= (a * b * c) * d <= 10_000);
    assert((a * b * c * d) * x <= 10_000 * x);
}

/// Tells how far the estimate is to be trusted.
pub fn calculate_analysis_confidence(
    tensor: &Tensor,
    ops_using: &[OpId],
    problem: &Problem,
    net_benefit: i128,
    _config: &LayoutAnalysisConfig,
) -> (confidence: Fraction)
    requires
        arith::fits(tensor.area()),
        forall|i: int| 0 <= i < ops_using@.len() ==> (#[trigger] ops_using@[i]) < problem.ops@.len(),
    ensures
        is_confidence(confidence, *problem, *tensor, ops_using@, net_benefit as int),
{
    let ghost users = ops_using@;
    let mut matmuls: usize = 0;
    let mut i: usize = 0;
    while i < ops_using.len()
        invariant
            i <= users.len(),
            users == ops_using@,
            forall|i: int| 0 <= i < users.len() ==> (#[trigger] users[i]) < problem.ops@.len(),
            matmuls == matmul_count(*problem, users, i as nat),
            matmuls <= i,
        decreases users.len() - i,
    {
        let op: OpId = ops_using[i];
        assert(users[i as int] < problem.ops@.len());
        if problem.ops[op].is_matmul() {
            matmuls = matmuls + 1;
        }
        i = i + 1;
    }
    let size: i64 = tensor.size();
    let a: u128 = if size < 1024 {
        5
    } else if size < 4096 {
        7
    } else {
        10
    };
    let b: u128 = if ops_using.len() == 1 {
        6
    } else {
        10
    };
    let enough: i128 = 1000 * find_cycle(problem);
    let c: u128 = if net_benefit < 0 {
        3
    } else if net_benefit < enough {
        5
    } else {
        10
    };
    let d: u128 = if size > 1_000_000 {
        8
    } else {
        10
    };
    let uses: u128 = if ops_using.len() == 0 {
        1
    } else {
        ops_using.len() as u128
    };
    let weight: u128 = uses + matmuls as u128;
    proof {
        lemma_product(a as int, b as int, c as int, d as int, weight as int, 2 * uses as int);
    }
    Fraction { numerator: a * b * c * d * weight, denominator: 20_000 * uses }
}

/// The cost of the first `k` operations together.
pub open spec fn base_total(p: Problem, users: Seq<OpId>, k: nat) -> int
    decreases k,
{
    if k == 0 {
        0
    } else {
        base_total(p, users, (k - 1) as nat) + p.ops@[users[k - 1] as int].base_cost
    }
}

/// The change saves too little of what the operations cost. Without bandwidth it saves nothing.
pub open spec fn too_little(p: Problem, users: Seq<OpId>, saved: int, percent: int) -> bool {
    let base = base_total(p, users, users.len());
    base > 0 && if cycle(p) == 0 {
        percent > 0
    } else {
        100 * saved < percent * base * cycle(p)
    }
}

/// The analysis of a change to the layout that suits the operations.
pub open spec fn is_analysis(a: LayoutAnalysis, p: Problem, t: TensorId, users: Seq<OpId>) -> bool {
    let tensor = p.tensors@[t as int];
    let best = optimal_layout(p, t, users);
    &&& a.tensor_id == t
    &&& a.current_layout == MemoryLayout::RowMajor
    &&& a.optimal_layout == best
    &&& a.transform_cost == through_memory(5 * UNITS * tensor.area(), p.slow_memory_bandwidth as int)
    &&& a.estimated_savings == layout_savings(p, t, users, MemoryLayout::RowMajor, best)
    &&& a.net_benefit == arith::saturated(a.estimated_savings - a.transform_cost)
    &&& is_confidence(a.confidence, p, tensor, users, a.net_benefit as int)
    &&& a.cycle == cycle(p)
}

/// There is something to analyze: another layout suits the operations, and it saves enough
/// of what they cost.
pub open spec fn worth_analyzing(p: Problem, t: TensorId, users: Seq<OpId>, config: LayoutAnalysisConfig) -> bool {
    let best = optimal_layout(p, t, users);
    best != MemoryLayout::RowMajor && !too_little(
        p,
        users,
        layout_savings(p, t, users, MemoryLayout::RowMajor, best),
        config.min_improvement_ratio as int,
    )
}

fn check_too_little(problem: &Problem, users: &[OpId], saved: i128, percent: u8) -> (yes: bool)
    requires
        saved >= 0,
        forall|i: int| 0 <= i < users@.len() ==> (#[trigger] users@[i]) < problem.ops@.len(),
    ensures
        yes == too_little(*problem, users@, saved as int, percent as int),
{
    let mut base: i128 = 0;
    let mut i: usize = 0;
    while i < users.len()
        invariant
            i <= users@.len(),
            forall|i: int| 0 <= i < users@.len() ==> (#[trigger] users@[i]) < problem.ops@.len(),
            base == base_total(*problem, users@, i as nat),
            -(i * 0x8000_0000_0000_0000) <= base <= i * 0x8000_0000_0000_0000,
        decreases users@.len() - i,
    {
        let op: OpId = users[i];
        assert(users@[i as int] < problem.ops@.len());
        assert((i + 1) * 0x8000_0000_0000_0000 <= 0xffff_ffff_ffff_ffff * 0x8000_0000_0000_0000) by (nonlinear_arith)
            requires
                i + 1 <= 0xffff_ffff_ffff_ffff,
        ;
        base = base + problem.ops[op].base_cost as i128;
        i = i + 1;
    }
    if base <= 0 {
        return false;
    }
    let units: i128 = find_cycle(problem);
    if units == 0 {
        return percent > 0;
    }
    let whole: i128 = saved / units;
    let rest: i128 = saved % units;
    assert(saved == whole * units + rest && 0 <= rest < units && 0 <= 840 * whole <= saved) by (nonlinear_arith)
        requires
            whole == saved as int / units as int,
            rest == saved as int % units as int,
            units >= 840,
            saved >= 0,
    ;
    let cycles: i128 = 100 * whole + 100 * rest / units;
    assert(cycles == 100 * saved as int / units as int) by (nonlinear_arith)
        requires
            saved == whole * units + rest,
            0 <= rest < units,
            cycles == 100 * whole + 100 * rest as int / units as int,
    ;
    if percent == 0 {
        assert(percent * base * cycle(*problem) == 0) by (nonlinear_arith)
            requires
                percent == 0,
        ;
        return false;
    }
    proof {
        arith::lemma_floor(100 * saved as int, percent * base, units as int);
        arith::lemma_floor(cycles as int, base as int, percent as int);
        assert(base * percent == percent * base) by (nonlinear_arith);
        assert(cycles >= 0) by (nonlinear_arith)
            requires
                cycles == 100 * saved as int / units as int,
                units > 0,
                saved >= 0,
        ;
    }
    cycles / (percent as i128) < base
}

/// Analyzes a change of the tensor's layout, as far as these operations go.
pub fn analyze_single_tensor(
    tensor_id: TensorId,
    ops_using: &[OpId],
    problem: &Problem,
    config: &LayoutAnalysisConfig,
) -> (analysis: Option<LayoutAnalysis>)
    requires
        use_known(*problem, tensor_id, ops_using@),
    ensures
        match analysis {
            Some(a) => worth_analyzing(*problem, tensor_id, ops_using@, *config) && is_analysis(
                a,
                *problem,
                tensor_id,
                ops_using@,
            ),
            None => !worth_analyzing(*problem, tensor_id, ops_using@, *config),
        },
{
    let current_layout: MemoryLayout = MemoryLayout::RowMajor;
    let optimal_layout: MemoryLayout = determine_optimal_layout(tensor_id, ops_using, problem);
    if current_layout == optimal_layout {
        return None;
    }
    let tensor: &Tensor = &problem.tensors[tensor_id];
    let transform_cost: i128 = calculate_transform_cost(
        tensor,
        current_layout,
        optimal_layout,
        problem.slow_memory_bandwidth,
    );
    let estimated_savings: i128 = estimate_layout_savings(
        tensor_id,
        ops_using,
        problem,
        current_layout,
        optimal_layout,
    );
    let net_benefit: i128 = arith::saturating_sum(estimated_savings, -transform_cost);
    let confidence: Fraction = calculate_analysis_confidence(tensor, ops_using, problem, net_benefit, config);
    proof {
        confidences_are_shares(confidence, *problem, *tensor, ops_using@, net_benefit as int);
        assert(ops_using@.len() == ops_using.len());
    }
    if check_too_little(problem, ops_using, estimated_savings, config.min_improvement_ratio) {
        return None;
    }
    Some(
        LayoutAnalysis {
            tensor_id,
            current_layout,
            optimal_layout,
            transform_cost,
            estimated_savings,
            net_benefit,
            confidence,
            cycle: find_cycle(problem),
        },
    )
}

/// The tensor is small enough, a matrix product consumes it, and another layout pays.
pub open spec fn is_opportunity(a: LayoutAnalysis, p: Problem, t: TensorId, config: LayoutAnalysisConfig) -> bool {
    let users = models::consumers_of(p.ops@, t, p.ops@.len());
    &&& p.tensors@[t as int].area() <= config.max_tensor_size
    &&& matmul_count(p, users, users.len()) > 0
    &&& worth_analyzing(p, t, users, config)
    &&& is_analysis(a, p, t, users)
    &&& a.pays()
}

/// The first `n` tensors' opportunities, in order: `found` holds them all and nothing else.
pub open spec fn are_opportunities(found: Seq<LayoutAnalysis>, p: Problem, config: LayoutAnalysisConfig, n: nat) -> bool
    decreases n,
{
    if n == 0 {
        found.len() == 0
    } else {
        let t = (n - 1) as usize;
        if exists|a: LayoutAnalysis| is_opportunity(a, p, t, config) {
            found.len() > 0 && is_opportunity(found.last(), p, t, config) && are_opportunities(
                found.drop_last(),
                p,
                config,
                (n - 1) as nat,
            )
        } else {
            are_opportunities(found, p, config, (n - 1) as nat)
        }
    }
}

/// The keys rank the analyses by what they bring, most first.
pub open spec fn ranks_by_benefit(keys: Seq<SortKey>, found: Seq<LayoutAnalysis>) -> bool {
    &&& keys.len() == found.len()
    &&& forall|i: int| 0 <= i < found.len() ==> sorting::has_key(#[trigger] keys[i], -found[i].net_benefit, 0, 0)
}

/// `listed` holds the analyses by what they bring, most first; equal ones stay in order.
pub open spec fn is_listing(listed: Seq<LayoutAnalysis>, found: Seq<LayoutAnalysis>) -> bool {
    exists|keys: Seq<SortKey>, order: Seq<usize>| #[trigger]
        ranks_by_benefit(keys, found) && #[trigger] sorting::is_stable_order(keys, order) && listed == Seq::new(
            order.len(),
            |i: int| found[order[i] as int],
        )
}

/// `listed` are the opportunities of the problem, the most rewarding first.
pub open spec fn are_listed_opportunities(listed: Seq<LayoutAnalysis>, p: Problem, config: LayoutAnalysisConfig) -> bool {
    exists|found: Seq<LayoutAnalysis>| #[trigger]
        are_opportunities(found, p, config, p.tensors@.len()) && is_listing(listed, found)
}

fn check_opportunity(problem: &Problem, t: TensorId, users: &[OpId], config: &LayoutAnalysisConfig) -> (found: Option<
    LayoutAnalysis,
>)
    requires
        use_known(*problem, t, users@),
        users@ == models::consumers_of(problem.ops@, t, problem.ops@.len()),
    ensures
        match found {
            Some(a) => is_opportunity(a, *problem, t, *config),
            None => forall|a: LayoutAnalysis| !is_opportunity(a, *problem, t, *config),
        },
{
    if problem.tensors[t].size() > config.max_tensor_size {
        return None;
    }
    let mut matmuls: bool = false;
    let mut i: usize = 0;
    while i < users.len()
        invariant
            i <= users@.len(),
            forall|i: int| 0 <= i < users@.len() ==> (#[trigger] users@[i]) < problem.ops@.len(),
            matmuls == (matmul_count(*problem, users@, i as nat) > 0),
        decreases users@.len() - i,
    {
        let op: OpId = users[i];
        assert(users@[i as int] < problem.ops@.len());
        if problem.ops[op].is_matmul() {
            matmuls = true;
        }
        i = i + 1;
    }
    if !matmuls {
        return None;
    }
    match analyze_single_tensor(t, users, problem, config) {
        Some(a) => {
            if a.should_transform() {
                Some(a)
            } else {
                proof {
                    assert forall|b: LayoutAnalysis| !is_opportunity(b, *problem, t, *config) by {
                        if is_analysis(b, *problem, t, users@) {
                            assert(a == b);
                        }
                    }
                }
                None
            }
        },
        None => None,
    }
}

/// Finds the tensors whose layout should be changed, the most rewarding first.
pub fn analyze_layout_opportunities(problem: &Problem, _tensor_meta: &[TensorMeta], config: &LayoutAnalysisConfig) -> (listed:
    Vec<LayoutAnalysis>)
    requires
        forall|t: int| 0 <= t < problem.tensors@.len() ==> arith::fits((#[trigger] problem.tensors@[t]).area()),
    ensures
        if config.enabled {
            are_listed_opportunities(listed@, *problem, *config)
        } else {
            listed@.len() == 0
        },
{
    if !config.enabled {
        return Vec::new();
    }
    let meta: Vec<TensorMeta> = problem.build_tensor_meta();
    let mut found: Vec<LayoutAnalysis> = Vec::new();
    let mut keys: Vec<SortKey> = Vec::new();
    let mut t: usize = 0;
    while t < problem.tensors.len()
        invariant
            t <= problem.tensors@.len(),
            problem.has_meta(meta@),
            forall|t: int| 0 <= t < problem.tensors@.len() ==> arith::fits((#[trigger] problem.tensors@[t]).area()),
            are_opportunities(found@, *problem, *config, t as nat),
            ranks_by_benefit(keys@, found@),
        decreases problem.tensors@.len() - t,
    {
        assert(meta@[t as int].describes(problem.ops@, t));
        proof {
            assert(problem.ops@.len() == problem.ops.len());
            lemma_consumers_exist(problem.ops@, t, problem.ops@.len());
            assert(arith::fits(problem.tensors@[t as int].area()));
        }
        let ghost old_found = found@;
        let ghost old_keys = keys@;
        match check_opportunity(problem, t, meta[t].consumers.as_slice(), config) {
            Some(a) => {
                found.push(a);
                keys.push((-a.net_benefit, 0, 0));
                proof {
                    assert(found@.drop_last() =~= old_found);
                    assert forall|i: int| 0 <= i < found@.len() implies sorting::has_key(
                        #[trigger] keys@[i],
                        -found@[i].net_benefit,
                        0,
                        0,
                    ) by {
                        if i < old_found.len() {
                            assert(keys@[i] == old_keys[i] && found@[i] == old_found[i]);
                        }
                    }
                }
            },
            None => {},
        }
        t = t + 1;
    }
    let order: Vec<usize> = sorting::stable_order(&keys);
    let mut listed: Vec<LayoutAnalysis> = Vec::new();
    let mut i: usize = 0;
    while i < order.len()
        invariant
            i <= order@.len(),
            sorting::is_stable_order(keys@, order@),
            keys@.len() == found@.len(),
            listed@.len() == i,
            forall|j: int| 0 <= j < i ==> #[trigger] listed@[j] == found@[order@[j] as int],
        decreases order@.len() - i,
    {
        let at: usize = order[i];
        listed.push(found[at]);
        i = i + 1;
    }
    assert(listed@ =~= Seq::new(order@.len(), |i: int| found@[order@[i] as int]));
    assert(is_listing(listed@, found@));
    listed
}

proof fn lemma_consumers_exist(ops: Seq<Op>, t: usize, m: nat)
    requires
        m <= ops.len() <= usize::MAX,
    ensures
        forall|i: int|
            0 <= i < models::consumers_of(ops, t, m).len() ==> (#[trigger] models::consumers_of(ops, t, m)[i]) < ops.len(),
    decreases m,
{
    if m > 0 {
        lemma_consumers_exist(ops, t, (m - 1) as nat);
        let rest = models::consumers_of(ops, t, (m - 1) as nat);
        let all = models::consumers_of(ops, t, m);
        assert forall|i: int| 0 <= i < all.len() implies (#[trigger] all[i]) < ops.len() by {
            if i < rest.len() {
                assert(all[i] == rest[i]);
            }
        }
    }
}

/// Whoever is advised to change a layout gains by it, and the advice starts with the largest gain.
pub proof fn opportunities_pay(listed: Seq<LayoutAnalysis>, p: Problem, config: LayoutAnalysisConfig, i: int, j: int)
    requires
        are_listed_opportunities(listed, p, config),
        0 <= i < j < listed.len(),
    ensures
        listed[i].net_benefit > 0,
        listed[j].net_benefit > 0,
        listed[i].estimated_savings > listed[i].transform_cost,
        listed[i].net_benefit >= listed[j].net_benefit,
{
    let found = choose|found: Seq<LayoutAnalysis>| #[trigger]
        are_opportunities(found, p, config, p.tensors@.len()) && is_listing(listed, found);
    let (keys, order) = choose|keys: Seq<SortKey>, order: Seq<usize>| #[trigger]
        ranks_by_benefit(keys, found) && #[trigger] sorting::is_stable_order(keys, order) && listed == Seq::new(
            order.len(),
            |i: int| found[order[i] as int],
        );
    assert(sorting::comes_before(keys, order[i], order[j]));
    lemma_found_pay(found, p, config, p.tensors@.len(), order[i] as int);
    lemma_found_pay(found, p, config, p.tensors@.len(), order[j] as int);
    assert(sorting::has_key(keys[order[i] as int], -found[order[i] as int].net_benefit, 0, 0));
    assert(sorting::has_key(keys[order[j] as int], -found[order[j] as int].net_benefit, 0, 0));
}

proof fn lemma_found_pay(found: Seq<LayoutAnalysis>, p: Problem, config: LayoutAnalysisConfig, n: nat, i: int)
    requires
        are_opportunities(found, p, config, n),
        0 <= i < found.len(),
    ensures
        found[i].net_benefit > 0,
        found[i].net_benefit == arith::saturated(found[i].estimated_savings - found[i].transform_cost),
    decreases n,
{
    let t = (n - 1) as usize;
    if exists|a: LayoutAnalysis| is_opportunity(a, p, t, config) {
        if i < found.len() - 1 {
            lemma_found_pay(found.drop_last(), p, config, (n - 1) as nat, i);
        }
    } else {
        lemma_found_pay(found, p, config, (n - 1) as nat, i);
    }
}

/// The tensors that the first `k` operations of the group mention, inputs first.
pub open spec fn mentioned(p: Problem, group: Seq<OpId>, k: nat) -> Seq<TensorId>
    decreases k,
{
    if k == 0 {
        Seq::empty()
    } else {
        let op = p.ops@[group[k - 1] as int];
        mentioned(p, group, (k - 1) as nat) + op.inputs@ + op.outputs@
    }
}

/// The tensors of the group, each once, in the order in which they are first mentioned.
pub open spec fn group_tensors(p: Problem, group: Seq<OpId>) -> Seq<TensorId> {
    let all = mentioned(p, group, group.len());
    ids::first_mentions(all, |t: usize| true, all.len())
}

/// The first `k` operations of the group as far as they mention the tensor.
pub open spec fn users_in(p: Problem, group: Seq<OpId>, t: TensorId, k: nat) -> Seq<OpId>
    decreases k,
{
    if k == 0 {
        Seq::empty()
    } else {
        let rest = users_in(p, group, t, (k - 1) as nat);
        let op = p.ops@[group[k - 1] as int];
        if op.inputs@.contains(t) || op.outputs@.contains(t) {
            rest.push(group[k - 1])
        } else {
            rest
        }
    }
}

/// For the operations of the group, another layout of the tensor pays.
pub open spec fn is_group_opportunity(
    a: LayoutAnalysis,
    p: Problem,
    group: Seq<OpId>,
    t: TensorId,
    config: LayoutAnalysisConfig,
) -> bool {
    let users = users_in(p, group, t, group.len());
    worth_analyzing(p, t, users, config) && is_analysis(a, p, t, users) && a.pays()
}

/// The opportunities among the first `k` tensors, in order: `found` holds them all and nothing else.
pub open spec fn are_group_opportunities(
    found: Seq<LayoutAnalysis>,
    p: Problem,
    group: Seq<OpId>,
    tensors: Seq<TensorId>,
    config: LayoutAnalysisConfig,
    k: nat,
) -> bool
    decreases k,
{
    if k == 0 {
        found.len() == 0
    } else {
        let t = tensors[k - 1];
        if exists|a: LayoutAnalysis| is_group_opportunity(a, p, group, t, config) {
            found.len() > 0 && is_group_opportunity(found.last(), p, group, t, config) && are_group_opportunities(
                found.drop_last(),
                p,
                group,
                tensors,
                config,
                (k - 1) as nat,
            )
        } else {
            are_group_opportunities(found, p, group, tensors, config, (k - 1) as nat)
        }
    }
}

/// What the changes bring together.
pub open spec fn total_benefit(found: Seq<LayoutAnalysis>) -> int
    decreases found.len(),
{
    if found.len() == 0 {
        0
    } else {
        total_benefit(found.drop_last()) + found.last().net_benefit
    }
}

/// The changes as tensors and layouts.
pub open spec fn changes(found: Seq<LayoutAnalysis>) -> Seq<(TensorId, MemoryLayout)> {
    Seq::new(found.len(), |i: int| (found[i].tensor_id, found[i].optimal_layout))
}

/// The first tile among the layouts.
pub open spec fn first_block(transforms: Seq<(TensorId, MemoryLayout)>) -> Option<(i64, i64)>
    decreases transforms.len(),
{
    if transforms.len() == 0 {
        None
    } else {
        match transforms[0].1 {
            MemoryLayout::Blocked { tile_w, tile_h } => Some((tile_w, tile_h)),
            _ => first_block(transforms.drop_first()),
        }
    }
}

/// Some layout is by columns.
pub open spec fn has_columns(transforms: Seq<(TensorId, MemoryLayout)>) -> bool {
    exists|i: int| 0 <= i < transforms.len() && (#[trigger] transforms[i]).1 == MemoryLayout::ColumnMajor
}

/// The granularity that suits the layouts: their tile; tall tiles for columns; otherwise the native one.
pub open spec fn suited_granularity(p: Problem, transforms: Seq<(TensorId, MemoryLayout)>) -> Granularity {
    match first_block(transforms) {
        Some((w, h)) => Granularity { width: w, height: h, depth: 1 },
        None => if has_columns(transforms) {
            Granularity { width: 64, height: 256, depth: 1 }
        } else {
            p.native_granularity
        },
    }
}

/// Chooses the granularity that suits the layouts.
pub fn select_layout_optimized_granularity(problem: &Problem, transforms: &[(TensorId, MemoryLayout)]) -> (g: Granularity)
    ensures
        g == suited_granularity(*problem, transforms@),
{
    let mut columns: bool = false;
    let mut i: usize = 0;
    assert(transforms@.skip(0) =~= transforms@);
    while i < transforms.len()
        invariant
            i <= transforms@.len(),
            columns == has_columns(transforms@.take(i as int)),
            first_block(transforms@) == first_block(transforms@.skip(i as int)),
        decreases transforms@.len() - i,
    {
        let ghost before = transforms@.take(i as int);
        let ghost after = transforms@.take(i + 1);
        let ghost rest = transforms@.skip(i as int);
        assert(rest.drop_first() =~= transforms@.skip(i + 1));
        assert(rest[0] == transforms@[i as int]);
        let layout: MemoryLayout = transforms[i].1;
        match layout {
            MemoryLayout::Blocked { tile_w, tile_h } => {
                return Granularity::new(tile_w, tile_h, 1);
            },
            _ => {},
        }
        proof {
            if has_columns(before) {
                let j = choose|j: int| 0 <= j < before.len() && (#[trigger] before[j]).1 == MemoryLayout::ColumnMajor;
                assert(after[j].1 == MemoryLayout::ColumnMajor);
            }
            assert(after[i as int].1 == layout);
            if has_columns(after) {
                let j = choose|j: int| 0 <= j < after.len() && (#[trigger] after[j]).1 == MemoryLayout::ColumnMajor;
                if j < i {
                    assert(before[j].1 == MemoryLayout::ColumnMajor);
                }
            }
        }
        if layout == MemoryLayout::ColumnMajor {
            columns = true;
        }
        i = i + 1;
    }
    assert(transforms@.take(i as int) =~= transforms@);
    assert(transforms@.skip(i as int).len() == 0);
    if columns {
        Granularity::new(64, 256, 1)
    } else {
        problem.native_granularity
    }
}

/// A granularity for a group together with the changes of layout that it goes with.
#[derive(Debug)]
pub struct LayoutAwareTiling {
    pub granularity: Granularity,
    /// The tensors to be changed, with their new layouts.
    pub pre_transforms: Vec<(TensorId, MemoryLayout)>,
    /// What the changes bring together, in units.
    pub savings_vs_default: i128,
}

/// The changes are too few to be worth it.
pub open spec fn not_worth_it(found: Seq<LayoutAnalysis>, p: Problem, config: LayoutAnalysisConfig) -> bool {
    found.len() == 0 || arith::saturated(total_benefit(found)) < config.min_savings * cycle(p)
}

/// The changes and the granularity that goes with them.
pub open spec fn is_tiling(tiling: LayoutAwareTiling, found: Seq<LayoutAnalysis>, p: Problem) -> bool {
    &&& tiling.pre_transforms@ == changes(found)
    &&& tiling.savings_vs_default == arith::saturated(total_benefit(found))
    &&& tiling.granularity == suited_granularity(p, changes(found))
}

/// The layouts of the group's tensors are all looked at.
pub open spec fn is_group_search(
    found: Seq<LayoutAnalysis>,
    p: Problem,
    group: Seq<OpId>,
    config: LayoutAnalysisConfig,
) -> bool {
    let tensors = group_tensors(p, group);
    are_group_opportunities(found, p, group, tensors, config, tensors.len())
}

fn gather_mentioned(ops: &[OpId], problem: &Problem) -> (all: Vec<TensorId>)
    requires
        forall|i: int| 0 <= i < ops@.len() ==> (#[trigger] ops@[i]) < problem.ops@.len(),
    ensures
        all@ == mentioned(*problem, ops@, ops@.len()),
{
    let mut all: Vec<TensorId> = Vec::new();
    let mut i: usize = 0;
    while i < ops.len()
        invariant
            i <= ops@.len(),
            forall|i: int| 0 <= i < ops@.len() ==> (#[trigger] ops@[i]) < problem.ops@.len(),
            all@ == mentioned(*problem, ops@, i as nat),
        decreases ops@.len() - i,
    {
        assert(ops@[i as int] < problem.ops@.len());
        let op: &Op = &problem.ops[ops[i]];
        let mut ins: Vec<TensorId> = models::copy_ids(op.inputs.as_slice());
        let mut outs: Vec<TensorId> = models::copy_ids(op.outputs.as_slice());
        all.append(&mut ins);
        all.append(&mut outs);
        i = i + 1;
    }
    all
}

fn gather_users(ops: &[OpId], problem: &Problem, t: TensorId) -> (users: Vec<OpId>)
    requires
        forall|i: int| 0 <= i < ops@.len() ==> (#[trigger] ops@[i]) < problem.ops@.len(),
    ensures
        users@ == users_in(*problem, ops@, t, ops@.len()),
        forall|i: int| 0 <= i < users@.len() ==> (#[trigger] users@[i]) < problem.ops@.len(),
{
    let mut users: Vec<OpId> = Vec::new();
    let mut i: usize = 0;
    while i < ops.len()
        invariant
            i <= ops@.len(),
            forall|i: int| 0 <= i < ops@.len() ==> (#[trigger] ops@[i]) < problem.ops@.len(),
            users@ == users_in(*problem, ops@, t, i as nat),
            forall|i: int| 0 <= i < users@.len() ==> (#[trigger] users@[i]) < problem.ops@.len(),
        decreases ops@.len() - i,
    {
        assert(ops@[i as int] < problem.ops@.len());
        let op: &Op = &problem.ops[ops[i]];
        if ids::is_listed(&op.inputs, t) || ids::is_listed(&op.outputs, t) {
            users.push(ops[i]);
        }
        i = i + 1;
    }
    users
}

fn check_group_opportunity(ops: &[OpId], problem: &Problem, t: TensorId, config: &LayoutAnalysisConfig) -> (found: Option<
    LayoutAnalysis,
>)
    requires
        t < problem.tensors@.len(),
        arith::fits(problem.tensors@[t as int].area()),
        forall|i: int| 0 <= i < ops@.len() ==> (#[trigger] ops@[i]) < problem.ops@.len(),
    ensures
        match found {
            Some(a) => is_group_opportunity(a, *problem, ops@, t, *config),
            None => forall|a: LayoutAnalysis| !is_group_opportunity(a, *problem, ops@, t, *config),
        },
{
    let users: Vec<OpId> = gather_users(ops, problem, t);
    match analyze_single_tensor(t, users.as_slice(), problem, config) {
        Some(a) => {
            if a.should_transform() {
                Some(a)
            } else {
                proof {
                    assert forall|b: LayoutAnalysis| !is_group_opportunity(b, *problem, ops@, t, *config) by {
                        if is_analysis(b, *problem, t, users@) {
                            assert(a == b);
                        }
                    }
                }
                None
            }
        },
        None => None,
    }
}

/// The operations of the group exist, and so do the tensors that they mention, which are not too large.
pub open spec fn group_known(p: Problem, group: Seq<OpId>) -> bool {
    &&& forall|i: int| 0 <= i < group.len() ==> (#[trigger] group[i]) < p.ops@.len()
    &&& forall|i: int|
        0 <= i < mentioned(p, group, group.len()).len() ==> (#[trigger] mentioned(p, group, group.len())[i])
            < p.tensors@.len() && arith::fits(p.tensors@[mentioned(p, group, group.len())[i] as int].area())
}

/// Recommends changes of layout for a group and a granularity that goes with them, if the
/// changes bring enough.
pub fn generate_layout_aware_tiling(
    ops: &[OpId],
    problem: &Problem,
    _tensor_meta: &[TensorMeta],
    config: &LayoutAnalysisConfig,
) -> (tiling: Option<LayoutAwareTiling>)
    requires
        group_known(*problem, ops@),
    ensures
        match tiling {
            Some(tiling) => config.enabled && ops@.len() > 0 && exists|found: Seq<LayoutAnalysis>| #[trigger]
                is_group_search(found, *problem, ops@, *config) && !not_worth_it(found, *problem, *config) && is_tiling(
                    tiling,
                    found,
                    *problem,
                ),
            None => !config.enabled || ops@.len() == 0 || forall|found: Seq<LayoutAnalysis>| #[trigger]
                is_group_search(found, *problem, ops@, *config) ==> not_worth_it(found, *problem, *config),
        },
{
    if !config.enabled || ops.len() == 0 {
        return None;
    }
    let all: Vec<TensorId> = gather_mentioned(ops, problem);
    let ghost keep = |t: usize| true;
    let mut flags: Vec<bool> = Vec::new();
    let mut i: usize = 0;
    while i < all.len()
        invariant
            i <= all@.len(),
            flags@.len() == i,
            forall|j: int| 0 <= j < i ==> #[trigger] flags@[j],
        decreases all@.len() - i,
    {
        flags.push(true);
        i = i + 1;
    }
    let tensors: Vec<TensorId> = ids::collect_first_mentions(&all, &flags, Ghost(keep));
    assert(tensors@ == group_tensors(*problem, ops@));
    proof {
        ids::lemma_first_mentions(all@, keep, all@.len());
        assert(all@.take(all@.len() as int) =~= all@);
        assert forall|k: int| 0 <= k < tensors@.len() implies (#[trigger] tensors@[k]) < problem.tensors@.len()
            && arith::fits(problem.tensors@[tensors@[k] as int].area()) by {
            assert(tensors@.contains(tensors@[k]));
            let at = choose|at: int| 0 <= at < all@.len() && all@[at] == tensors@[k];
            assert(mentioned(*problem, ops@, ops@.len())[at] == tensors@[k]);
        }
    }
    let mut found: Vec<LayoutAnalysis> = Vec::new();
    let mut pre_transforms: Vec<(TensorId, MemoryLayout)> = Vec::new();
    let mut net: i128 = 0;
    let mut k: usize = 0;
    while k < tensors.len()
        invariant
            k <= tensors@.len(),
            forall|i: int| 0 <= i < ops@.len() ==> (#[trigger] ops@[i]) < problem.ops@.len(),
            forall|k: int|
                0 <= k < tensors@.len() ==> (#[trigger] tensors@[k]) < problem.tensors@.len() && arith::fits(
                    problem.tensors@[tensors@[k] as int].area(),
                ),
            are_group_opportunities(found@, *problem, ops@, tensors@, *config, k as nat),
            pre_transforms@ == changes(found@),
            net == arith::saturated(total_benefit(found@)),
            total_benefit(found@) >= 0,
            found@.len() > 0 ==> cycle(*problem) > 0,
        decreases tensors@.len() - k,
    {
        assert(tensors@[k as int] < problem.tensors@.len());
        let ghost old_found = found@;
        match check_group_opportunity(ops, problem, tensors[k], config) {
            Some(a) => {
                found.push(a);
                pre_transforms.push((a.tensor_id, a.optimal_layout));
                net = arith::saturating_sum(net, a.net_benefit);
                assert(found@.drop_last() =~= old_found);
                assert(pre_transforms@ =~= changes(found@));
            },
            None => {},
        }
        k = k + 1;
    }
    proof {
        assert forall|other: Seq<LayoutAnalysis>| #[trigger]
            is_group_search(other, *problem, ops@, *config) implies other == found@ by {
            lemma_search_is_unique(found@, other, *problem, ops@, tensors@, *config, tensors@.len());
        }
        assert(is_group_search(found@, *problem, ops@, *config));
    }
    if found.len() == 0 {
        return None;
    }
    let units: i128 = find_cycle(problem);
    proof {
        arith::lemma_floor(net as int, config.min_savings as int, units as int);
    }
    if net / units < config.min_savings as i128 {
        return None;
    }
    let granularity: Granularity = select_layout_optimized_granularity(problem, pre_transforms.as_slice());
    let tiling: LayoutAwareTiling = LayoutAwareTiling { granularity, pre_transforms, savings_vs_default: net };
    assert(is_tiling(tiling, found@, *problem));
    Some(tiling)
}

proof fn lemma_search_is_unique(
    one: Seq<LayoutAnalysis>,
    two: Seq<LayoutAnalysis>,
    p: Problem,
    group: Seq<OpId>,
    tensors: Seq<TensorId>,
    config: LayoutAnalysisConfig,
    k: nat,
)
    requires
        are_group_opportunities(one, p, group, tensors, config, k),
        are_group_opportunities(two, p, group, tensors, config, k),
    ensures
        one == two,
    decreases k,
{
    if k == 0 {
        assert(one =~= two);
    } else {
        let t = tensors[k - 1];
        if exists|a: LayoutAnalysis| is_group_opportunity(a, p, group, t, config) {
            lemma_search_is_unique(one.drop_last(), two.drop_last(), p, group, tensors, config, (k - 1) as nat);
            assert(one.last() == two.last());
            assert(one =~= one.drop_last().push(one.last()));
            assert(two =~= two.drop_last().push(two.last()));
        } else {
            lemma_search_is_unique(one, two, p, group, tensors, config, (k - 1) as nat);
        }
    }
}

/// The estimated ratio of read to write bandwidth, in tenths: machines with much fast
/// memory read faster than they write.
pub fn estimate_bandwidth_asymmetry(problem: &Problem) -> (tenths: u8)
    ensures
        tenths == if problem.fast_memory_capacity > 500_000 {
            15int
        } else if problem.fast_memory_capacity > 200_000 {
            12
        } else {
            10
        },
{
    if problem.fast_memory_capacity > 500_000 {
        15
    } else if problem.fast_memory_capacity > 200_000 {
        12
    } else {
        10
    }
}

/// Layouts matter where reading and writing differ by at least three tenths.
pub fn should_consider_layout_transform(problem: &Problem) -> (yes: bool)
    ensures
        yes == (problem.fast_memory_capacity > 500_000),
{
    estimate_bandwidth_asymmetry(problem) >= 13
}

} // verus!
