//! The lines in which decisions are logged.
use vstd::prelude::*;
use vstd::string::StringExecFns;
use crate::models::{OpId, TensorId};
use crate::text;

verus! {

/// What a decision is about.
#[derive(Debug, Clone, Copy, PartialEq, Eq, Structural)]
pub enum DecisionCategory {
    /// The choice of tiles.
    Tiling,
    /// Cutting the inner dimension.
    SplitK,
    /// What is put into fast memory.
    Memory,
    /// Which operations run as one.
    Fusion,
    /// The order of the tiles.
    Traversal,
    /// Which tensors stay in fast memory.
    Retention,
    /// The schedule as a whole.
    Strategy,
}

impl DecisionCategory {
    /// The word by which the category is logged.
    pub open spec fn word(&self) -> Seq<char> {
        match self {
            DecisionCategory::Tiling => "TILING"@,
            DecisionCategory::SplitK => "SPLIT-K"@,
            DecisionCategory::Memory => "MEMORY"@,
            DecisionCategory::Fusion => "FUSION"@,
            DecisionCategory::Traversal => "TRAVERSAL"@,
            DecisionCategory::Retention => "RETENTION"@,
            DecisionCategory::Strategy => "STRATEGY"@,
        }
    }

    /// The word by which the category is logged.
    pub fn as_str(&self) -> (word: &'static str)
        ensures
            word@ == self.word(),
    {
        match self {
            DecisionCategory::Tiling => "TILING",
            DecisionCategory::SplitK => "SPLIT-K",
            DecisionCategory::Memory => "MEMORY",
            DecisionCategory::Fusion => "FUSION",
            DecisionCategory::Traversal => "TRAVERSAL",
            DecisionCategory::Retention => "RETENTION",
            DecisionCategory::Strategy => "STRATEGY",
        }
    }
}

/// A list of operations: up to six in full, of more the first three and how many follow.
pub open spec fn ops_preview(ops: Seq<OpId>) -> Seq<char> {
    if ops.len() <= 6 {
        text::bracketed(ops)
    } else {
        "["@ + text::decimal(ops[0] as int) + ", "@ + text::decimal(ops[1] as int) + ", "@ + text::decimal(ops[2] as int)
            + ", ... "@ + text::decimal(ops.len() - 3) + " more]"@
    }
}

fn append_preview(out: &mut String, ops: &[OpId])
    ensures
        final(out)@ == old(out)@ + ops_preview(ops@),
{
    if ops.len() <= 6 {
        text::append_ids(out, ops);
    } else {
        let ghost before = out@;
        out.append("[");
        text::append_count(out, ops[0]);
        out.append(", ");
        text::append_count(out, ops[1]);
        out.append(", ");
        text::append_count(out, ops[2]);
        out.append(", ... ");
        text::append_count(out, ops.len() - 3);
        out.append(" more]");
        assert(out@ =~= before + ops_preview(ops@));
    }
}

/// Starts a line with its category.
fn start_line(category: DecisionCategory) -> (out: String)
    ensures
        out@ == "["@ + category.word() + "] "@,
{
    let mut out: String = String::new();
    out.append("[");
    out.append(category.as_str());
    out.append("] ");
    assert(out@ =~= "["@ + category.word() + "] "@);
    out
}

/// The line that tells which operations run as one.
pub fn log_fusion_decision(
    subgraph_id: usize,
    fused_ops: &[OpId],
    seed_op: OpId,
    fusion_reason: &str,
    intermediate_tensors_eliminated: usize,
    memory_saved: i64,
) -> (line: String)
    ensures
        line@ == "["@ + DecisionCategory::Fusion.word() + "] "@ + "Subgraph "@ + text::decimal(subgraph_id as int)
            + ": Fused "@ + text::decimal(fused_ops@.len() as int) + " ops "@ + ops_preview(fused_ops@) + " (seed Op "@
            + text::decimal(seed_op as int) + ") | "@ + fusion_reason@ + " | Eliminated "@ + text::decimal(
            intermediate_tensors_eliminated as int,
        ) + " intermediates | Saved "@ + text::decimal(memory_saved as int) + " bytes DRAM traffic"@,
{
    let mut line: String = start_line(DecisionCategory::Fusion);
    line.append("Subgraph ");
    text::append_count(&mut line, subgraph_id);
    line.append(": Fused ");
    text::append_count(&mut line, fused_ops.len());
    line.append(" ops ");
    append_preview(&mut line, fused_ops);
    line.append(" (seed Op ");
    text::append_count(&mut line, seed_op);
    line.append(") | ");
    line.append(fusion_reason);
    line.append(" | Eliminated ");
    text::append_count(&mut line, intermediate_tensors_eliminated);
    line.append(" intermediates | Saved ");
    text::append_decimal(&mut line, memory_saved);
    line.append(" bytes DRAM traffic");
    line
}

/// The lines that tell which tensors stay in fast memory: a summary, and the tensors
/// themselves. There are none if nothing stays.
pub fn log_retention_decision(
    subgraph_id: usize,
    retained_tensors: &[TensorId],
    evicted_tensors: &[TensorId],
    reason: &str,
    bytes_retained: i64,
    future_reuse_count: usize,
) -> (lines: Option<(String, String)>)
    ensures
        match lines {
            None => retained_tensors@.len() == 0,
            Some((summary, details)) => {
                &&& retained_tensors@.len() > 0
                &&& summary@ == "["@ + DecisionCategory::Retention.word() + "] "@ + "Subgraph "@ + text::decimal(
                    subgraph_id as int,
                ) + ": Retaining "@ + text::decimal(retained_tensors@.len() as int) + " tensors ("@ + text::decimal(
                    bytes_retained as int,
                ) + " bytes) for "@ + text::decimal(future_reuse_count as int) + " future uses | Evicting "@
                    + text::decimal(evicted_tensors@.len() as int) + " tensors | "@ + reason@
                &&& details@ == "["@ + DecisionCategory::Retention.word() + "] "@ + "Retained tensor IDs: "@
                    + text::bracketed(retained_tensors@)
            },
        },
{
    if retained_tensors.len() == 0 {
        return None;
    }
    let mut summary: String = start_line(DecisionCategory::Retention);
    summary.append("Subgraph ");
    text::append_count(&mut summary, subgraph_id);
    summary.append(": Retaining ");
    text::append_count(&mut summary, retained_tensors.len());
    summary.append(" tensors (");
    text::append_decimal(&mut summary, bytes_retained);
    summary.append(" bytes) for ");
    text::append_count(&mut summary, future_reuse_count);
    summary.append(" future uses | Evicting ");
    text::append_count(&mut summary, evicted_tensors.len());
    summary.append(" tensors | ");
    summary.append(reason);
    let mut details: String = start_line(DecisionCategory::Retention);
    details.append("Retained tensor IDs: ");
    text::append_ids(&mut details, retained_tensors);
    Some((summary, details))
}

/// The line that tells about the schedule as a whole.
pub fn log_strategy_decision(decision: &str, metrics: &str) -> (line: String)
    ensures
        line@ == "["@ + DecisionCategory::Strategy.word() + "] "@ + decision@ + " | "@ + metrics@,
{
    let mut line: String = start_line(DecisionCategory::Strategy);
    line.append(decision);
    line.append(" | ");
    line.append(metrics);
    line
}

/// The line that warns of a decision that was forced.
pub fn log_fallback_decision(context: &str, reason: &str, impact: &str) -> (line: String)
    ensures
        line@ == "[FALLBACK] "@ + context@ + ": "@ + reason@ + " | Impact: "@ + impact@,
{
    let mut line: String = String::new();
    line.append("[FALLBACK] ");
    line.append(context);
    line.append(": ");
    line.append(reason);
    line.append(" | Impact: ");
    line.append(impact);
    assert(line@ =~= "[FALLBACK] "@ + context@ + ": "@ + reason@ + " | Impact: "@ + impact@);
    line
}

} // verus!
