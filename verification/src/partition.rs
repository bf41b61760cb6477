//! Into how many groups a graph should be cut so that each fits in fast memory.
use vstd::prelude::*;
use vstd::string::StringExecFns;
use crate::arith;
use crate::cost_model;
use crate::cost_model::GraphDensity;
use crate::memory;
use crate::memory::WorkingSet;
use crate::models::{Granularity, OpId, Problem, TensorMeta};
use crate::text;

verus! {

/// The settings of the partitioning.
#[derive(Debug, Clone, Copy)]
pub struct PartitionConfig {
    /// The part of fast memory that is to be filled, in hundredths.
    pub target_utilization: u8,
    /// The fewest operations of a group.
    pub min_ops_per_subgraph: usize,
    /// The most operations of a group.
    pub max_ops_per_subgraph: usize,
    /// The part of fast memory that stays free, in hundredths.
    pub safety_margin: u8,
}

/// The settings for a graph of this density.
pub open spec fn config_for(density: GraphDensity) -> PartitionConfig {
    match density {
        GraphDensity::Sparse => PartitionConfig {
            target_utilization: 90,
            min_ops_per_subgraph: 5,
            max_ops_per_subgraph: 100,
            safety_margin: 10,
        },
        GraphDensity::Medium => PartitionConfig {
            target_utilization: 85,
            min_ops_per_subgraph: 3,
            max_ops_per_subgraph: 50,
            safety_margin: 15,
        },
        GraphDensity::Dense => PartitionConfig {
            target_utilization: 75,
            min_ops_per_subgraph: 3,
            max_ops_per_subgraph: 30,
            safety_margin: 25,
        },
    }
}

impl Default for PartitionConfig {
    fn default() -> (config: Self)
        ensures
            config == config_for(GraphDensity::Medium),
    {
        PartitionConfig {
            target_utilization: 85,
            min_ops_per_subgraph: 3,
            max_ops_per_subgraph: 50,
            safety_margin: 15,
        }
    }
}

impl PartitionConfig {
    /// The settings for a graph of this density.
    pub fn from_density(density: GraphDensity) -> (config: Self)
        ensures
            config == config_for(density),
    {
        match density {
            GraphDensity::Sparse => PartitionConfig {
                target_utilization: 90,
                min_ops_per_subgraph: 5,
                max_ops_per_subgraph: 100,
                safety_margin: 10,
            },
            GraphDensity::Medium => PartitionConfig {
                target_utilization: 85,
                min_ops_per_subgraph: 3,
                max_ops_per_subgraph: 50,
                safety_margin: 15,
            },
            GraphDensity::Dense => PartitionConfig {
                target_utilization: 75,
                min_ops_per_subgraph: 3,
                max_ops_per_subgraph: 30,
                safety_margin: 25,
            },
        }
    }
}

/// Filling and margin add up to the whole of fast memory.
pub proof fn margins_complete_utilization(density: GraphDensity)
    ensures
        config_for(density).target_utilization + config_for(density).safety_margin == 100,
{
}

/// How a graph should be cut.
#[derive(Debug, Clone)]
pub struct PartitionPlan {
    /// The number of groups.
    pub num_subgraphs: usize,
    /// The number of operations of a group.
    pub ops_per_subgraph: usize,
    /// The part of fast memory that a group may fill.
    pub effective_capacity: i64,
    /// The most operations of a group.
    pub max_ops_per_subgraph: usize,
    /// Why the graph is cut like this.
    pub rationale: String,
    /// One group for all operations is safe.
    pub can_use_full_fusion: bool,
}

/// The `usize` closest to `x`.
pub open spec fn clamped_count(x: int) -> int {
    arith::least(arith::greatest(x, 0), usize::MAX as int)
}

/// How many pieces of size `room` hold `bytes`. Without room no number is enough.
pub open spec fn pieces(bytes: int, room: int) -> int {
    if bytes <= room {
        1
    } else if room > 0 {
        clamped_count((bytes + room - 1) / room)
    } else if room == 0 {
        usize::MAX as int
    } else if bytes >= 0 {
        0
    } else {
        1
    }
}

/// How many tenths of the pieces a graph of this density is cut into.
pub open spec fn density_tenths(density: GraphDensity) -> int {
    match density {
        GraphDensity::Sparse => 10,
        GraphDensity::Medium => 12,
        GraphDensity::Dense => 15,
    }
}

/// The number of groups: the pieces, more for dense graphs, at least one, and not more
/// than leave each group its least number of operations.
pub open spec fn group_count(bytes: int, room: int, density: GraphDensity, n: int, min_ops: int) -> int {
    let wanted = clamped_count((pieces(bytes, room) * density_tenths(density) + 9) / 10);
    arith::least(arith::greatest(wanted, 1), n / min_ops)
}

/// The number of operations of a group, within its limits.
pub open spec fn group_size(n: int, groups: int, min_ops: int, max_ops: int) -> int {
    arith::least(arith::greatest((n + groups - 1) / groups, min_ops), max_ops)
}

/// Less than 97 hundredths of fast memory are filled.
pub open spec fn is_comfortable(bytes: int, capacity: int) -> bool {
    if capacity > 0 {
        100 * bytes < 97 * capacity
    } else if capacity == 0 {
        bytes < 0
    } else {
        100 * bytes > 97 * capacity
    }
}

/// `bytes` in hundredths of the capacity, with one place behind the point.
pub open spec fn percent_text(bytes: int, capacity: int) -> Seq<char> {
    if capacity == 0 {
        if bytes > 0 {
            "inf"@
        } else if bytes < 0 {
            "-inf"@
        } else {
            "NaN"@
        }
    } else {
        let size = if bytes < 0 { -bytes } else { bytes };
        let room = if capacity < 0 { -capacity } else { capacity };
        let number = text::tenths(text::rounded((1000 * size) as nat, room as nat));
        let negative = if capacity > 0 { bytes < 0 } else { bytes >= 0 };
        if negative {
            "-"@ + number
        } else {
            number
        }
    }
}

/// The name of a density.
pub open spec fn density_name(density: GraphDensity) -> Seq<char> {
    match density {
        GraphDensity::Sparse => "Sparse"@,
        GraphDensity::Medium => "Medium"@,
        GraphDensity::Dense => "Dense"@,
    }
}

/// The factor of a density, as a decimal number.
pub open spec fn density_factor(density: GraphDensity) -> Seq<char> {
    match density {
        GraphDensity::Sparse => "1"@,
        GraphDensity::Medium => "1.2"@,
        GraphDensity::Dense => "1.5"@,
    }
}

/// Thousands of bytes, by 1024.
pub open spec fn kilobytes(bytes: int) -> Seq<char> {
    text::decimal(arith::quotient(bytes, 1024))
}

/// Why a single group is enough, or barely enough.
pub open spec fn single_rationale(bytes: int, capacity: int) -> Seq<char> {
    if is_comfortable(bytes, capacity) {
        "Single subgraph is safe: WS="@ + kilobytes(bytes) + "KB fits comfortably in "@ + kilobytes(capacity)
            + "KB SRAM ("@ + percent_text(bytes, capacity) + "% util)"@
    } else {
        "Single subgraph is RISKY: WS="@ + kilobytes(bytes) + "KB barely fits in "@ + kilobytes(capacity)
            + "KB SRAM ("@ + percent_text(bytes, capacity) + "% util) - consider partitioning"@
    }
}

/// Why several groups are needed.
pub open spec fn several_rationale(groups: int, bytes: int, room: int, density: GraphDensity, size: int) -> Seq<char> {
    text::decimal(groups) + " subgraphs needed: Total WS="@ + kilobytes(bytes) + "KB, Effective SRAM="@ + kilobytes(room)
        + "KB, Density="@ + density_name(density) + " ("@ + density_factor(density) + "x multiplier), ~"@
        + text::decimal(size) + " ops/subgraph"@
}

fn append_kilobytes(out: &mut String, bytes: i64)
    ensures
        final(out)@ == old(out)@ + kilobytes(bytes as int),
{
    text::append_decimal(out, bytes / 1024);
}

fn append_percent(out: &mut String, bytes: i64, capacity: i64)
    ensures
        final(out)@ == old(out)@ + percent_text(bytes as int, capacity as int),
{
    if capacity == 0 {
        if bytes > 0 {
            out.append("inf");
        } else if bytes < 0 {
            out.append("-inf");
        } else {
            out.append("NaN");
        }
        return;
    }
    let size: u128 = if bytes < 0 {
        (-(bytes as i128)) as u128
    } else {
        bytes as u128
    };
    let room: u128 = if capacity < 0 {
        (-(capacity as i128)) as u128
    } else {
        capacity as u128
    };
    let negative: bool = if capacity > 0 {
        bytes < 0
    } else {
        bytes >= 0
    };
    let scaled: u128 = 1000 * size;
    let whole: u128 = scaled / room;
    let rest: u128 = scaled % room;
    assert(rest < room) by (nonlinear_arith)
        requires
            room > 0,
            rest == scaled % room,
    ;
    let number: u128 = if 2 * rest < room || (2 * rest == room && whole % 2 == 0) {
        whole
    } else {
        assert(whole <= scaled) by (nonlinear_arith)
            requires
                room > 0,
                whole == scaled / room,
        ;
        whole + 1
    };
    assert(number == text::rounded(scaled as nat, room as nat));
    let ghost before = out@;
    if negative {
        out.append("-");
    }
    text::append_tenths(out, number);
    assert(out@ =~= before + percent_text(bytes as int, capacity as int));
}

fn write_single(bytes: i64, capacity: i64, comfortable: bool) -> (out: String)
    requires
        comfortable == is_comfortable(bytes as int, capacity as int),
    ensures
        out@ == single_rationale(bytes as int, capacity as int),
{
    let mut out: String = String::new();
    if comfortable {
        out.append("Single subgraph is safe: WS=");
        append_kilobytes(&mut out, bytes);
        out.append("KB fits comfortably in ");
        append_kilobytes(&mut out, capacity);
        out.append("KB SRAM (");
        append_percent(&mut out, bytes, capacity);
        out.append("% util)");
    } else {
        out.append("Single subgraph is RISKY: WS=");
        append_kilobytes(&mut out, bytes);
        out.append("KB barely fits in ");
        append_kilobytes(&mut out, capacity);
        out.append("KB SRAM (");
        append_percent(&mut out, bytes, capacity);
        out.append("% util) - consider partitioning");
    }
    assert(out@ =~= single_rationale(bytes as int, capacity as int));
    out
}

fn write_several(groups: usize, bytes: i64, room: i64, density: GraphDensity, size: usize) -> (out: String)
    ensures
        out@ == several_rationale(groups as int, bytes as int, room as int, density, size as int),
{
    let mut out: String = String::new();
    text::append_count(&mut out, groups);
    out.append(" subgraphs needed: Total WS=");
    append_kilobytes(&mut out, bytes);
    out.append("KB, Effective SRAM=");
    append_kilobytes(&mut out, room);
    out.append("KB, Density=");
    match density {
        GraphDensity::Sparse => out.append("Sparse"),
        GraphDensity::Medium => out.append("Medium"),
        GraphDensity::Dense => out.append("Dense"),
    }
    out.append(" (");
    match density {
        GraphDensity::Sparse => out.append("1"),
        GraphDensity::Medium => out.append("1.2"),
        GraphDensity::Dense => out.append("1.5"),
    }
    out.append("x multiplier), ~");
    text::append_count(&mut out, size);
    out.append(" ops/subgraph");
    assert(out@ =~= several_rationale(groups as int, bytes as int, room as int, density, size as int));
    out
}

fn count_pieces(bytes: i64, room: i64) -> (count: usize)
    ensures
        count == pieces(bytes as int, room as int),
{
    if bytes <= room {
        1
    } else if room > 0 {
        let sum: i128 = bytes as i128 + room as i128 - 1;
        let ghost a = bytes as int;
        let ghost b = room as int;
        assert(1 <= (a + b - 1) / b <= a) by (nonlinear_arith)
            requires
                a > b,
                b > 0,
        ;
        let found: i128 = sum / (room as i128);
        if found > usize::MAX as i128 {
            usize::MAX
        } else {
            found as usize
        }
    } else if room == 0 {
        usize::MAX
    } else if bytes >= 0 {
        0
    } else {
        1
    }
}

fn count_groups(bytes: i64, room: i64, density: GraphDensity, n: usize, min_ops: usize) -> (groups: usize)
    requires
        0 < min_ops <= n,
    ensures
        groups == group_count(bytes as int, room as int, density, n as int, min_ops as int),
        1 <= groups <= n,
{
    let found: u128 = count_pieces(bytes, room) as u128;
    let factor: u128 = match density {
        GraphDensity::Sparse => 10,
        GraphDensity::Medium => 12,
        GraphDensity::Dense => 15,
    };
    let wide: u128 = (found * factor + 9) / 10;
    let wanted: usize = if wide > usize::MAX as u128 {
        usize::MAX
    } else {
        wide as usize
    };
    let most: usize = n / min_ops;
    assert(1 <= most <= n) by (nonlinear_arith)
        requires
            0 < min_ops <= n,
            most == n / min_ops,
    ;
    arith::least_count(arith::greatest_count(wanted, 1), most)
}

/// All operations, in order.
pub open spec fn all_ops(n: nat) -> Seq<OpId> {
    Seq::new(n, |i: int| i as usize)
}

/// Lists all operations, in order.
pub fn list_all_ops(n: usize) -> (ops: Vec<OpId>)
    ensures
        ops@ == all_ops(n as nat),
{
    let mut ops: Vec<OpId> = Vec::new();
    let mut i: usize = 0;
    while i < n
        invariant
            i <= n,
            ops@ == all_ops(i as nat),
        decreases n - i,
    {
        ops.push(i);
        assert(ops@ =~= all_ops((i + 1) as nat));
        i = i + 1;
    }
    ops
}

impl PartitionPlan {
    /// This is the plan for the problem.
    pub open spec fn is_of(&self, p: Problem, meta: Seq<TensorMeta>, config: PartitionConfig) -> bool {
        let n = p.ops@.len() as int;
        let capacity = p.fast_memory_capacity as int;
        let bytes = memory::footprint(all_ops(p.ops@.len()), p, p.native_granularity, meta);
        let density = cost_model::density_of(p.ops@.len());
        let room = arith::clamped(arith::share(capacity, config.target_utilization as int));
        &&& self.num_subgraphs == group_count(bytes, room, density, n, config.min_ops_per_subgraph as int)
        &&& self.ops_per_subgraph == group_size(
            n,
            self.num_subgraphs as int,
            config.min_ops_per_subgraph as int,
            config.max_ops_per_subgraph as int,
        )
        &&& self.effective_capacity == room
        &&& self.max_ops_per_subgraph == config.max_ops_per_subgraph
        &&& self.can_use_full_fusion == (self.num_subgraphs == 1 && is_comfortable(bytes, capacity))
        &&& self.rationale@ == if self.num_subgraphs == 1 {
            single_rationale(bytes, capacity)
        } else {
            several_rationale(self.num_subgraphs as int, bytes, room, density, self.ops_per_subgraph as int)
        }
    }
}

fn check_comfort(bytes: i64, capacity: i64) -> (yes: bool)
    ensures
        yes == is_comfortable(bytes as int, capacity as int),
{
    let left: i128 = 100 * bytes as i128;
    let right: i128 = 97 * capacity as i128;
    if capacity > 0 {
        left < right
    } else if capacity == 0 {
        bytes < 0
    } else {
        left > right
    }
}

/// Plans into how many groups the graph should be cut, by the size of its working set,
/// the fast memory and the density of the graph.
pub fn calculate_optimal_partitioning(problem: &Problem, tensor_meta: &[TensorMeta], config: &PartitionConfig) -> (plan:
    PartitionPlan)
    requires
        0 < config.min_ops_per_subgraph <= problem.ops@.len(),
        memory::ids_in_range(all_ops(problem.ops@.len()), *problem, tensor_meta@),
        memory::footprint_fits(
            all_ops(problem.ops@.len()),
            *problem,
            problem.native_granularity,
            tensor_meta@,
        ),
    ensures
        plan.is_of(*problem, tensor_meta@, *config),
{
    let n: usize = problem.ops.len();
    let capacity: i64 = problem.fast_memory_capacity;
    let density: GraphDensity = cost_model::find_density(n);
    let ops: Vec<OpId> = list_all_ops(n);
    let ws: WorkingSet = memory::compute_subgraph_working_set(
        ops.as_slice(),
        problem,
        &problem.native_granularity,
        tensor_meta,
    );
    let bytes: i64 = ws.total_size;
    let room: i64 = arith::clamped_share_of(capacity, config.target_utilization);
    let groups: usize = count_groups(bytes, room, density, n, config.min_ops_per_subgraph);
    let sum: u128 = n as u128 + groups as u128 - 1;
    let ghost a = n as int;
    let ghost b = groups as int;
    assert(0 <= (a + b - 1) / b <= a) by (nonlinear_arith)
        requires
            a >= b,
            b >= 1,
    ;
    let even: usize = (sum / (groups as u128)) as usize;
    let size: usize = arith::least_count(
        arith::greatest_count(even, config.min_ops_per_subgraph),
        config.max_ops_per_subgraph,
    );
    let comfortable: bool = check_comfort(bytes, capacity);
    let rationale: String = if groups == 1 {
        write_single(bytes, capacity, comfortable)
    } else {
        write_several(groups, bytes, room, density, size)
    };
    PartitionPlan {
        num_subgraphs: groups,
        ops_per_subgraph: size,
        effective_capacity: room,
        max_ops_per_subgraph: config.max_ops_per_subgraph,
        rationale,
        can_use_full_fusion: groups == 1 && comfortable,
    }
}

/// Whether the group fits in the given part of fast memory, in hundredths.
pub fn will_fit_in_sram(
    ops: &[OpId],
    problem: &Problem,
    granularity: &Granularity,
    tensor_meta: &[TensorMeta],
    target_utilization: u8,
) -> (yes: bool)
    requires
        memory::ids_in_range(ops@, *problem, tensor_meta@),
    ensures
        yes == (memory::footprint(ops@, *problem, *granularity, tensor_meta@) <= arith::clamped(
            arith::share(problem.fast_memory_capacity as int, target_utilization as int),
        )),
{
    memory::measure_footprint(ops, problem, granularity, tensor_meta) <= arith::clamped_share_of(
        problem.fast_memory_capacity,
        target_utilization,
    ) as i128
}

/// What is wrong with a plan for `n` operations, if anything.
pub open spec fn plan_fault(plan: PartitionPlan, n: int) -> Option<Seq<char>> {
    let total = plan.num_subgraphs * plan.ops_per_subgraph;
    if plan.num_subgraphs == 0 {
        Some("Invalid plan: num_subgraphs = 0"@)
    } else if plan.ops_per_subgraph == 0 {
        Some("Invalid plan: ops_per_subgraph = 0"@)
    } else if total < n {
        Some(
            "Invalid plan: "@ + text::decimal(plan.num_subgraphs as int) + " subgraphs × "@ + text::decimal(
                plan.ops_per_subgraph as int,
            ) + " ops = "@ + text::decimal(total) + " total, but we have "@ + text::decimal(n) + " ops"@,
        )
    } else if plan.effective_capacity <= 0 {
        Some("Invalid plan: effective_capacity = "@ + text::decimal(plan.effective_capacity as int))
    } else {
        None
    }
}

/// Checks that a plan has groups, that they hold all operations, and that there is memory for them.
pub fn validate_partition_plan(plan: &PartitionPlan, num_ops: usize) -> (verdict: Result<(), String>)
    requires
        plan.num_subgraphs * plan.ops_per_subgraph <= usize::MAX,
    ensures
        match verdict {
            Ok(_) => plan_fault(*plan, num_ops as int) is None,
            Err(message) => plan_fault(*plan, num_ops as int) == Some(message@),
        },
{
    let mut message: String = String::new();
    if plan.num_subgraphs == 0 {
        message.append("Invalid plan: num_subgraphs = 0");
        assert(message@ =~= "Invalid plan: num_subgraphs = 0"@);
        return Err(message);
    }
    if plan.ops_per_subgraph == 0 {
        message.append("Invalid plan: ops_per_subgraph = 0");
        assert(message@ =~= "Invalid plan: ops_per_subgraph = 0"@);
        return Err(message);
    }
    let total: usize = plan.num_subgraphs * plan.ops_per_subgraph;
    if total < num_ops {
        message.append("Invalid plan: ");
        text::append_count(&mut message, plan.num_subgraphs);
        message.append(" subgraphs × ");
        text::append_count(&mut message, plan.ops_per_subgraph);
        message.append(" ops = ");
        text::append_count(&mut message, total);
        message.append(" total, but we have ");
        text::append_count(&mut message, num_ops);
        message.append(" ops");
        assert(message@ =~= plan_fault(*plan, num_ops as int)->0);
        return Err(message);
    }
    if plan.effective_capacity <= 0 {
        message.append("Invalid plan: effective_capacity = ");
        text::append_decimal(&mut message, plan.effective_capacity);
        assert(message@ =~= plan_fault(*plan, num_ops as int)->0);
        return Err(message);
    }
    Ok(())
}

/// A plan passes the check exactly when it has groups with operations that hold all of
/// them, and memory for each.
pub proof fn plans_pass_when_complete(plan: PartitionPlan, n: int)
    ensures
        plan_fault(plan, n) is None <==> plan.num_subgraphs > 0 && plan.ops_per_subgraph > 0 && plan.num_subgraphs
            * plan.ops_per_subgraph >= n && plan.effective_capacity > 0,
{
}

/// A plan whose groups stay below their limit holds all operations.
pub proof fn planned_groups_hold_all_operations(n: int, groups: int, min_ops: int, max_ops: int)
    requires
        n >= 0,
        groups >= 1,
        (n + groups - 1) / groups <= max_ops,
        min_ops <= max_ops,
    ensures
        groups * group_size(n, groups, min_ops, max_ops) >= n,
{
    let even = (n + groups - 1) / groups;
    let size = group_size(n, groups, min_ops, max_ops);
    assert(size >= even);
    assert(groups * even >= n) by (nonlinear_arith)
        requires
            groups >= 1,
            even == (n + groups - 1) / groups,
    ;
    assert(groups * size >= groups * even) by (nonlinear_arith)
        requires
            size >= even,
            groups >= 1,
    ;
}

} // verus!
