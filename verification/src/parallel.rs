//! The schedules that compete with each other, and how they are passed between processes.
use vstd::prelude::*;
use vstd::string::StringExecFns;
use crate::arith;
use crate::candidates;
use crate::cost;
use crate::cost::Fraction;
use crate::dataflow;
use crate::graph;
use crate::greedy;
use crate::memory;
use crate::models;
use crate::models::{Granularity, GranularityOutput, OpId, Problem, SubgraphOutput, TensorId, TensorMeta};
use crate::partition;
use crate::sorting;
use crate::sorting::SortKey;
use crate::text;
use crate::tiles;
use crate::triage;
use crate::triage::{GraphTopology, TriageResult};

verus! {

/// A group of operations that run as one.
#[derive(Debug)]
pub struct SerializableSubgraph {
    pub ops: Vec<OpId>,
    pub tensors_to_retain: Vec<TensorId>,
    pub granularity_w: i64,
    pub granularity_h: i64,
    pub granularity_k: Option<i64>,
}

impl SerializableSubgraph {
    /// The group holds these operations, keeps these tensors, and runs at the granularity
    /// with which it fits in fast memory, or at the native one if it fits with none.
    pub open spec fn is_fused(&self, p: Problem, meta: Seq<TensorMeta>, ops: Seq<OpId>, kept: Seq<TensorId>) -> bool {
        let out = models::written(memory::group_granularity(ops, p, meta));
        &&& self.ops@ == ops
        &&& self.tensors_to_retain@ == kept
        &&& self.granularity_w == out.w
        &&& self.granularity_h == out.h
        &&& self.granularity_k == out.k
    }

    /// The granularity that the group carries; a split that is left out is 1.
    pub open spec fn granularity(&self) -> Granularity {
        models::read_back(GranularityOutput { w: self.granularity_w, h: self.granularity_h, k: self.granularity_k })
    }
}

impl From<&SerializableSubgraph> for SubgraphOutput {
    fn from(s: &SerializableSubgraph) -> (out: Self)
        ensures
            out.ops@ == s.ops@,
            out.tensors_to_retain@ == s.tensors_to_retain@,
            out.granularity == (GranularityOutput { w: s.granularity_w, h: s.granularity_h, k: s.granularity_k }),
            out.traversal_order is None,
    {
        SubgraphOutput {
            ops: models::copy_ids(s.ops.as_slice()),
            tensors_to_retain: models::copy_ids(s.tensors_to_retain.as_slice()),
            granularity: GranularityOutput { w: s.granularity_w, h: s.granularity_h, k: s.granularity_k },
            traversal_order: None,
        }
    }
}

impl vstd::std_specs::convert::FromSpecImpl<&SerializableSubgraph> for SubgraphOutput {
    open spec fn obeys_from_spec() -> bool {
        false
    }

    open spec fn from_spec(s: &SerializableSubgraph) -> Self {
        arbitrary()
    }
}

/// A schedule that one of the strategies made.
#[derive(Debug)]
pub struct ScheduleCandidate {
    pub strategy_name: String,
    pub subgraphs: Vec<SerializableSubgraph>,
}

/// A way to cut the operations into groups.
#[derive(Debug, Clone, Copy, PartialEq, Eq, Structural)]
pub enum Strategy {
    /// One group for all.
    FullFusion,
    /// So many consecutive tiles of the run order.
    Stitched(usize),
    /// One group for each independent branch.
    BranchParallel,
}

/// The name of a strategy.
pub open spec fn strategy_name(strategy: Strategy) -> Seq<char> {
    match strategy {
        Strategy::FullFusion => "full-fusion"@,
        Strategy::Stitched(parts) => "stitched-"@ + text::decimal(parts as int),
        Strategy::BranchParallel => "branch-parallel"@,
    }
}

impl Strategy {
    /// The name of the strategy.
    pub fn name(&self) -> (name: String)
        ensures
            name@ == strategy_name(*self),
    {
        let mut name: String = String::new();
        match self {
            Strategy::FullFusion => {
                name.append("full-fusion");
            },
            Strategy::Stitched(parts) => {
                name.append("stitched-");
                text::append_count(&mut name, *parts);
            },
            Strategy::BranchParallel => {
                name.append("branch-parallel");
            },
        }
        assert(name@ =~= strategy_name(*self));
        name
    }
}

/// The strategies for a graph of `n` operations: one group always, two tiles from 201
/// operations on, four from 1001 on, and branches where there are several.
pub open spec fn strategies(n: int, topology: GraphTopology, branches: int) -> Seq<Strategy> {
    let one = seq![Strategy::FullFusion];
    let two = if n > 200 { one.push(Strategy::Stitched(2)) } else { one };
    let three = if n > 1000 { two.push(Strategy::Stitched(4)) } else { two };
    if topology == GraphTopology::Diamond && branches > 1 {
        three.push(Strategy::BranchParallel)
    } else {
        three
    }
}

/// Lists the strategies that compete for the graph.
pub fn generate_strategy_list(problem: &Problem, triage: &TriageResult) -> (list: Vec<Strategy>)
    ensures
        list@ == strategies(problem.ops@.len() as int, triage.topology, triage.branch_count as int),
{
    let n: usize = problem.ops.len();
    let mut list: Vec<Strategy> = Vec::new();
    list.push(Strategy::FullFusion);
    if n > 200 {
        list.push(Strategy::Stitched(2));
    }
    if n > 1000 {
        list.push(Strategy::Stitched(4));
    }
    if triage.topology == GraphTopology::Diamond && triage.branch_count > 1 {
        list.push(Strategy::BranchParallel);
    }
    assert(list@ =~= strategies(n as int, triage.topology, triage.branch_count as int));
    list
}

/// Whether the strategies run in processes of their own: only if there are several, and
/// the problem is worth it.
pub fn runs_in_processes(strategy_count: usize, use_multiprocess: bool) -> (yes: bool)
    ensures
        yes == (strategy_count > 1 && use_multiprocess),
{
    strategy_count > 1 && use_multiprocess
}

/// What a group of `len` operations saves by its size: this part of its latency stays, in hundredths.
pub open spec fn size_kept(len: nat) -> int {
    if len > 1000 {
        70
    } else if len > 500 {
        80
    } else if len > 100 {
        85
    } else {
        95
    }
}

/// The part of the latency of a group that stays: its size saves some, and each output
/// that never reaches slow memory saves half of its transfer.
pub open spec fn latency_kept(len: nat, produced: nat, inner: nat) -> (int, int) {
    if produced == 0 {
        (size_kept(len), 100)
    } else {
        (size_kept(len) * (2 * produced - inner), 200 * produced as int)
    }
}

/// Finds the part of the latency of a group that stays.
pub fn find_latency_factor(ops: &[OpId], problem: &Problem, tensor_meta: &[TensorMeta]) -> (f: Fraction)
    requires
        forall|i: int| 0 <= i < ops@.len() ==> (#[trigger] ops@[i]) < problem.ops@.len(),
    ensures
        ({
            let outs = candidates::outputs(*problem, ops@);
            let kept = latency_kept(
                ops@.len(),
                outs.len(),
                cost::ephemeral(tensor_meta@, ops@, outs, outs.len()),
            );
            f.numerator == kept.0 && f.denominator == kept.1
        }),
{
    let outs: Vec<TensorId> = memory::gather_outputs(ops, problem);
    let (_, inner): (usize, usize) = cost::count_outputs(&outs, ops, tensor_meta);
    let produced: usize = outs.len();
    let n: usize = ops.len();
    let kept: u128 = if n > 1000 {
        70
    } else if n > 500 {
        80
    } else if n > 100 {
        85
    } else {
        95
    };
    if produced == 0 {
        return Fraction { numerator: kept, denominator: 100 };
    }
    let halves: u128 = 2 * produced as u128 - inner as u128;
    assert(kept * halves <= 95 * 0x1_ffff_ffff_ffff_fffe) by (nonlinear_arith)
        requires
            0 <= kept <= 95,
            0 <= halves <= 0x1_ffff_ffff_ffff_fffe,
    ;
    Fraction { numerator: kept * halves, denominator: 200 * produced as u128 }
}

/// A group is never slower than its raw latency, and its inner outputs save at most half:
/// exactly half where all outputs are inner, a quarter where half of them are.
pub proof fn inner_outputs_save_latency(len: nat, produced: nat, inner: nat)
    requires
        inner <= produced,
    ensures
        ({
            let kept = latency_kept(len, produced, inner);
            &&& 0 < kept.0 < kept.1
            &&& size_kept(len) * kept.1 <= 200 * kept.0 <= 2 * size_kept(len) * kept.1
            &&& inner == 0 ==> 100 * kept.0 == size_kept(len) * kept.1
            &&& 0 < produced == inner ==> 200 * kept.0 == size_kept(len) * kept.1
            &&& 0 < produced == 2 * inner ==> 400 * kept.0 == 3 * size_kept(len) * kept.1
        }),
{
    let s = size_kept(len);
    let x: int = produced as int;
    let y: int = inner as int;
    if produced > 0 {
        assert(s * (2 * x - y) == 2 * (s * x) - s * y) by (nonlinear_arith);
        assert(s * (200 * x) == 200 * (s * x)) by (nonlinear_arith);
        assert(2 * s * (200 * x) == 400 * (s * x)) by (nonlinear_arith);
        assert(3 * s * (200 * x) == 600 * (s * x)) by (nonlinear_arith);
        assert(0 <= s * y <= s * x && 0 < s * x <= 95 * x) by (nonlinear_arith)
            requires
                0 < s <= 95,
                0 <= y <= x,
                0 < x,
        ;
        if x == 2 * y {
            assert(s * x == 2 * (s * y)) by (nonlinear_arith)
                requires
                    x == 2 * y,
            ;
        }
        assert(inner == 0 ==> s * y == 0) by (nonlinear_arith)
            requires
                y == inner,
        ;
    }
}

/// Makes a group of the operations, at a granularity with which it fits in fast memory,
/// or at the native one if it fits with none.
pub fn build_fused_subgraph(
    ops: &[OpId],
    problem: &Problem,
    tensor_meta: &[TensorMeta],
    tensors_to_retain: &[TensorId],
) -> (sg: SerializableSubgraph)
    requires
        memory::ids_in_range(ops@, *problem, tensor_meta@),
    ensures
        sg.is_fused(*problem, tensor_meta@, ops@, tensors_to_retain@),
{
    let granularity: Granularity = memory::find_group_granularity(ops, problem, tensor_meta);
    let out: GranularityOutput = GranularityOutput::from(&granularity);
    SerializableSubgraph {
        ops: models::copy_ids(ops),
        tensors_to_retain: models::copy_ids(tensors_to_retain),
        granularity_w: out.w,
        granularity_h: out.h,
        granularity_k: out.k,
    }
}

/// The schedule puts all operations into one group.
pub open spec fn is_full_fusion(c: ScheduleCandidate, p: Problem, meta: Seq<TensorMeta>) -> bool {
    &&& c.strategy_name@ == strategy_name(Strategy::FullFusion)
    &&& c.subgraphs@.len() == 1
    &&& c.subgraphs@[0].is_fused(p, meta, partition::all_ops(p.ops@.len()), Seq::empty())
}

/// Puts all operations into one group.
pub fn solve_full_fusion(problem: &Problem, tensor_meta: &[TensorMeta]) -> (c: ScheduleCandidate)
    requires
        memory::ids_known(*problem, tensor_meta@),
    ensures
        is_full_fusion(c, *problem, tensor_meta@),
{
    let ops: Vec<OpId> = partition::list_all_ops(problem.ops.len());
    proof {
        memory::lemma_ids_known(ops@, *problem, tensor_meta@);
    }
    let none: Vec<TensorId> = Vec::new();
    let sg: SerializableSubgraph = build_fused_subgraph(
        ops.as_slice(),
        problem,
        tensor_meta,
        none.as_slice(),
    );
    assert(none@ =~= Seq::<TensorId>::empty());
    let mut subgraphs: Vec<SerializableSubgraph> = Vec::new();
    subgraphs.push(sg);
    let strategy: Strategy = Strategy::FullFusion;
    ScheduleCandidate { strategy_name: strategy.name(), subgraphs }
}

/// The group of a full fusion holds every operation, each once.
pub proof fn full_fusion_holds_every_operation(c: ScheduleCandidate, p: Problem, meta: Seq<TensorMeta>, op: usize)
    requires
        is_full_fusion(c, p, meta),
        op < p.ops@.len(),
    ensures
        c.subgraphs@[0].ops@.no_duplicates(),
        c.subgraphs@[0].ops@.contains(op),
{
    let ops = partition::all_ops(p.ops@.len());
    assert(p.ops@.len() == p.ops.len());
    assert(ops[op as int] == op);
}

/// The tile that holds the operation, the first one if none does.
pub open spec fn tile_of(parts: Seq<Vec<OpId>>, op: OpId) -> int {
    if exists|i: int| 0 <= i < parts.len() && #[trigger] parts[i]@.contains(op) {
        choose|i: int| 0 <= i < parts.len() && #[trigger] parts[i]@.contains(op)
    } else {
        0
    }
}

/// Tensor `t` leads from tile `i` to a later one.
pub open spec fn crosses(meta: Seq<TensorMeta>, parts: Seq<Vec<OpId>>, n: nat, i: int, t: int) -> bool {
    &&& meta[t].producer is Some
    &&& meta[t].producer->0 < n
    &&& tile_of(parts, meta[t].producer->0) == i
    &&& exists|j: int|
        0 <= j < meta[t].consumers@.len() && (#[trigger] meta[t].consumers@[j]) < n && tile_of(
            parts,
            meta[t].consumers@[j],
        ) > i
}

/// The tensors among the first `k` that lead from tile `i` to a later one.
pub open spec fn boundary(meta: Seq<TensorMeta>, parts: Seq<Vec<OpId>>, n: nat, i: int, k: nat) -> Seq<TensorId>
    decreases k,
{
    if k == 0 {
        Seq::empty()
    } else {
        let rest = boundary(meta, parts, n, i, (k - 1) as nat);
        if crosses(meta, parts, n, i, k - 1) {
            rest.push((k - 1) as usize)
        } else {
            rest
        }
    }
}

/// The keys rank the tensors by their size.
pub open spec fn ranks_by_size(keys: Seq<SortKey>, p: Problem, listed: Seq<TensorId>) -> bool {
    &&& keys.len() == listed.len()
    &&& forall|i: int|
        0 <= i < keys.len() ==> sorting::has_key(#[trigger] keys[i], p.tensors@[listed[i] as int].area(), 0, 0)
}

/// `kept` is what tile `i` keeps: of the tensors that lead on, small ones first, all that
/// fit in two fifths of fast memory.
pub open spec fn is_kept(kept: Seq<TensorId>, p: Problem, meta: Seq<TensorMeta>, parts: Seq<Vec<OpId>>, i: int) -> bool {
    let listed = boundary(meta, parts, p.ops@.len(), i, meta.len());
    exists|keys: Seq<SortKey>| #[trigger]
        ranks_by_size(keys, p, listed) && greedy::is_greedy_choice(
            listed,
            memory::sizes_of(listed, p),
            keys,
            arith::share(p.fast_memory_capacity as int, 40),
            kept,
        )
}

/// The number of operations of a tile when `n` of them make `parts` tiles.
pub open spec fn stitched_size(n: int, parts: int) -> int {
    (n + parts - 1) / parts
}

/// The schedule cuts the run order into tiles, and each keeps what later tiles need.
pub open spec fn is_stitched(c: ScheduleCandidate, p: Problem, meta: Seq<TensorMeta>, num_partitions: usize) -> bool {
    &&& c.strategy_name@ == strategy_name(Strategy::Stitched(num_partitions))
    &&& exists|parts: Seq<Vec<OpId>>| #[trigger]
        is_stitch_cut(parts, p, meta, num_partitions as int) && are_stitched(c.subgraphs@, p, meta, parts)
}

/// The tiles are the run order cut into so many parts; a remainder of less than a quarter
/// joins the last tile.
pub open spec fn is_stitch_cut(parts: Seq<Vec<OpId>>, p: Problem, meta: Seq<TensorMeta>, num_partitions: int) -> bool {
    let size = stitched_size(p.ops@.len() as int, num_partitions);
    tiles::is_cut(parts, dataflow::run_order(p.ops@, meta), size, size / 4)
}

/// Each group is one of the tiles, and keeps what later tiles need.
pub open spec fn are_stitched(groups: Seq<SerializableSubgraph>, p: Problem, meta: Seq<TensorMeta>, parts: Seq<Vec<OpId>>) -> bool {
    &&& groups.len() == parts.len()
    &&& forall|i: int|
        0 <= i < groups.len() ==> (#[trigger] groups[i]).is_fused(p, meta, parts[i]@, groups[i].tensors_to_retain@) && is_kept(
            groups[i].tensors_to_retain@,
            p,
            meta,
            parts,
            i,
        )
}

/// Each operation is in at most one tile.
pub open spec fn are_disjoint(parts: Seq<Vec<OpId>>) -> bool {
    forall|i: int, j: int, op: OpId|
        0 <= i < parts.len() && 0 <= j < parts.len() && #[trigger] parts[i]@.contains(op) && #[trigger] parts[j]@.contains(
            op,
        ) ==> i == j
}

/// Finds for each operation the tile that holds it.
fn find_tiles(parts: &Vec<Vec<OpId>>, n: usize) -> (places: Vec<usize>)
    requires
        are_disjoint(parts@),
        forall|i: int, j: int|
            0 <= i < parts@.len() && 0 <= j < parts@[i]@.len() ==> (#[trigger] parts@[i]@[j]) < n,
    ensures
        places@.len() == n,
        forall|op: usize| op < n ==> #[trigger] places@[op as int] == tile_of(parts@, op),
{
    let mut places: Vec<usize> = Vec::new();
    let mut k: usize = 0;
    while k < n
        invariant
            k <= n,
            places.len() == k,
            forall|x: int| 0 <= x < k ==> #[trigger] places@[x] == 0,
        decreases n - k,
    {
        places.push(0);
        k = k + 1;
    }
    let mut i: usize = 0;
    while i < parts.len()
        invariant
            i <= parts.len(),
            places.len() == n,
            are_disjoint(parts@),
            forall|i: int, j: int|
                0 <= i < parts@.len() && 0 <= j < parts@[i]@.len() ==> (#[trigger] parts@[i]@[j]) < n,
            forall|op: usize, t: int|
                op < n && 0 <= t < i && #[trigger] parts@[t]@.contains(op) ==> #[trigger] places@[op as int] == t,
            forall|op: usize|
                op < n && (forall|t: int| 0 <= t < i ==> !#[trigger] parts@[t]@.contains(op))
                    ==> #[trigger] places@[op as int] == 0,
        decreases parts.len() - i,
    {
        let ghost start = places@;
        let ghost mine = parts@[i as int]@;
        let mut j: usize = 0;
        while j < parts[i].len()
            invariant
                i < parts.len(),
                mine == parts@[i as int]@,
                j <= mine.len(),
                places.len() == n,
                start.len() == n,
                forall|x: int| 0 <= x < mine.len() ==> #[trigger] mine[x] < n,
                forall|op: usize|
                    op < n ==> #[trigger] places@[op as int] == if mine.take(j as int).contains(op) {
                        i as int
                    } else {
                        start[op as int] as int
                    },
            decreases mine.len() - j,
        {
            let op: OpId = parts[i][j];
            assert(mine[j as int] < n);
            proof {
                models::lemma_take_contains(mine, j as int);
            }
            places.set(op, i);
            j = j + 1;
        }
        proof {
            assert(mine.take(j as int) =~= mine);
            assert forall|op: usize, t: int| op < n && 0 <= t < i + 1 && #[trigger] parts@[t]@.contains(op) implies
                #[trigger] places@[op as int] == t by {
                if t < i {
                    assert(!mine.contains(op));
                }
            }
            assert forall|op: usize|
                op < n && (forall|t: int| 0 <= t < i + 1 ==> !#[trigger] parts@[t]@.contains(op)) implies
                #[trigger] places@[op as int] == 0 by {
                assert(!parts@[i as int]@.contains(op));
            }
        }
        i = i + 1;
    }
    proof {
        assert forall|op: usize| op < n implies #[trigger] places@[op as int] == tile_of(parts@, op) by {
            if exists|t: int| 0 <= t < parts@.len() && #[trigger] parts@[t]@.contains(op) {
                let t = choose|t: int| 0 <= t < parts@.len() && #[trigger] parts@[t]@.contains(op);
                assert(parts@[t]@.contains(op));
            }
        }
    }
    places
}

/// Lists the tensors that lead from tile `i` to a later one.
fn find_boundary(tensor_meta: &[TensorMeta], places: &Vec<usize>, i: usize, Ghost(parts): Ghost<Seq<Vec<OpId>>>) -> (listed:
    Vec<TensorId>)
    requires
        forall|op: usize| op < places@.len() ==> #[trigger] places@[op as int] == tile_of(parts, op),
    ensures
        listed@ == boundary(tensor_meta@, parts, places@.len(), i as int, tensor_meta@.len()),
        forall|x: int|
            0 <= x < listed@.len() ==> (#[trigger] listed@[x]) < tensor_meta@.len() && crosses(
                tensor_meta@,
                parts,
                places@.len(),
                i as int,
                listed@[x] as int,
            ),
{
    let n: usize = places.len();
    let ghost meta = tensor_meta@;
    let mut listed: Vec<TensorId> = Vec::new();
    let mut t: usize = 0;
    while t < tensor_meta.len()
        invariant
            t <= meta.len(),
            meta == tensor_meta@,
            n == places@.len(),
            forall|op: usize| op < n ==> #[trigger] places@[op as int] == tile_of(parts, op),
            listed@ == boundary(meta, parts, n as nat, i as int, t as nat),
            forall|x: int|
                0 <= x < listed@.len() ==> (#[trigger] listed@[x]) < t && crosses(
                    meta,
                    parts,
                    n as nat,
                    i as int,
                    listed@[x] as int,
                ),
        decreases meta.len() - t,
    {
        let m: &TensorMeta = &tensor_meta[t];
        let mut leads_on: bool = false;
        if let Some(p) = m.producer {
            if p < n && places[p] == i {
                let mut j: usize = 0;
                while j < m.consumers.len()
                    invariant
                        j <= m.consumers.len(),
                        n == places@.len(),
                        forall|op: usize| op < n ==> #[trigger] places@[op as int] == tile_of(parts, op),
                        leads_on == exists|x: int|
                            0 <= x < j && (#[trigger] m.consumers@[x]) < n && tile_of(parts, m.consumers@[x]) > i,
                    decreases m.consumers.len() - j,
                {
                    let c: OpId = m.consumers[j];
                    if c < n && places[c] > i {
                        assert(m.consumers@[j as int] < n);
                        leads_on = true;
                    }
                    j = j + 1;
                }
            }
        }
        assert(leads_on == crosses(meta, parts, n as nat, i as int, t as int));
        if leads_on {
            listed.push(t);
        }
        t = t + 1;
    }
    listed
}

/// Chooses what a tile keeps.
fn choose_kept(listed: &Vec<TensorId>, problem: &Problem) -> (kept: Vec<TensorId>)
    requires
        forall|i: int|
            0 <= i < listed@.len() ==> (#[trigger] listed@[i]) < problem.tensors@.len() && arith::fits(
                problem.tensors@[listed@[i] as int].area(),
            ),
    ensures
        exists|keys: Seq<SortKey>| #[trigger]
            ranks_by_size(keys, *problem, listed@) && greedy::is_greedy_choice(
                listed@,
                memory::sizes_of(listed@, *problem),
                keys,
                arith::share(problem.fast_memory_capacity as int, 40),
                kept@,
            ),
{
    let mut sizes: Vec<i64> = Vec::new();
    let mut keys: Vec<SortKey> = Vec::new();
    let mut i: usize = 0;
    while i < listed.len()
        invariant
            i <= listed.len(),
            forall|i: int|
                0 <= i < listed@.len() ==> (#[trigger] listed@[i]) < problem.tensors@.len() && arith::fits(
                    problem.tensors@[listed@[i] as int].area(),
                ),
            sizes.len() == i,
            keys.len() == i,
            forall|j: int| 0 <= j < i ==> #[trigger] sizes@[j] == problem.tensors@[listed@[j] as int].area(),
            forall|j: int|
                0 <= j < i ==> sorting::has_key(
                    #[trigger] keys@[j],
                    problem.tensors@[listed@[j] as int].area(),
                    0,
                    0,
                ),
        decreases listed.len() - i,
    {
        assert(listed@[i as int] < problem.tensors@.len());
        let size: i64 = problem.tensors[listed[i]].size();
        sizes.push(size);
        keys.push((size as i128, 0, 0));
        i = i + 1;
    }
    assert(sizes@ =~= memory::sizes_of(listed@, *problem));
    assert(ranks_by_size(keys@, *problem, listed@));
    greedy::choose_greedily(listed, &sizes, &keys, arith::share_of(problem.fast_memory_capacity, 40))
}

/// Every tensor that an operation produces and another one consumes is known and has a measurable size.
pub open spec fn passed_on_known(p: Problem, meta: Seq<TensorMeta>) -> bool {
    forall|t: int|
        0 <= t < meta.len() && (#[trigger] meta[t]).producer is Some && meta[t].producer->0 < p.ops@.len()
            && meta[t].consumers@.len() > 0 ==> t < p.tensors@.len() && arith::fits(p.tensors@[t].area())
}

/// Cuts the run order into consecutive tiles. Each keeps in fast memory what later tiles need.
pub fn solve_stitched(problem: &Problem, tensor_meta: &[TensorMeta], num_partitions: usize) -> (c: ScheduleCandidate)
    requires
        num_partitions > 0,
        memory::ids_known(*problem, tensor_meta@),
        passed_on_known(*problem, tensor_meta@),
    ensures
        is_stitched(c, *problem, tensor_meta@, num_partitions),
{
    let n: usize = problem.ops.len();
    let ghost p = *problem;
    let ghost meta = tensor_meta@;
    let order: Vec<OpId> = dataflow::order_ops(problem, tensor_meta);
    let ghost q = dataflow::run_order(p.ops@, meta);
    let sum: u128 = n as u128 + num_partitions as u128 - 1;
    let ghost a = n as int;
    let ghost b = num_partitions as int;
    assert(0 <= (a + b - 1) / b <= a && (a > 0 ==> (a + b - 1) / b > 0)) by (nonlinear_arith)
        requires
            a >= 0,
            b >= 1,
    ;
    let size: usize = (sum / (num_partitions as u128)) as usize;
    assert(size == stitched_size(n as int, num_partitions as int));
    let parts: Vec<Vec<OpId>> = tiles::cut_tiles(&order, size, size / 4);
    proof {
        assert forall|i: int, j: int| 0 <= i < parts@.len() && 0 <= j < parts@[i]@.len() implies (
        #[trigger] parts@[i]@[j]) < n by {
            lemma_tile_entries(parts@, q, size as int, (size / 4) as int, i, j);
        }
        assert forall|i: int, j: int, op: OpId|
            0 <= i < parts@.len() && 0 <= j < parts@.len() && #[trigger] parts@[i]@.contains(op)
                && #[trigger] parts@[j]@.contains(op) implies i == j by {
            if i < j {
                tiles::lemma_tiles_disjoint(parts@, q, size as int, (size / 4) as int, i, j, op);
            } else if j < i {
                tiles::lemma_tiles_disjoint(parts@, q, size as int, (size / 4) as int, j, i, op);
            }
        }
    }
    let places: Vec<usize> = find_tiles(&parts, n);
    let mut subgraphs: Vec<SerializableSubgraph> = Vec::new();
    let mut i: usize = 0;
    while i < parts.len()
        invariant
            i <= parts.len(),
            n == p.ops@.len(),
            n == places@.len(),
            p == *problem,
            meta == tensor_meta@,
            memory::ids_known(p, meta),
            passed_on_known(p, meta),
            forall|i: int, j: int|
                0 <= i < parts@.len() && 0 <= j < parts@[i]@.len() ==> (#[trigger] parts@[i]@[j]) < n,
            forall|op: usize| op < n ==> #[trigger] places@[op as int] == tile_of(parts@, op),
            subgraphs.len() == i,
            forall|x: int|
                0 <= x < i ==> (#[trigger] subgraphs@[x]).is_fused(p, meta, parts@[x]@, subgraphs@[x].tensors_to_retain@)
                    && is_kept(subgraphs@[x].tensors_to_retain@, p, meta, parts@, x),
        decreases parts.len() - i,
    {
        let listed: Vec<TensorId> = find_boundary(tensor_meta, &places, i, Ghost(parts@));
        proof {
            assert forall|x: int| 0 <= x < listed@.len() implies (#[trigger] listed@[x]) < problem.tensors@.len()
                && arith::fits(problem.tensors@[listed@[x] as int].area()) by {
                assert(crosses(meta, parts@, n as nat, i as int, listed@[x] as int));
                assert(meta[listed@[x] as int].producer is Some);
            }
        }
        let kept: Vec<TensorId> = choose_kept(&listed, problem);
        assert(is_kept(kept@, p, meta, parts@, i as int));
        proof {
            memory::lemma_ids_known(parts@[i as int]@, p, meta);
        }
        let sg: SerializableSubgraph = build_fused_subgraph(
            parts[i].as_slice(),
            problem,
            tensor_meta,
            kept.as_slice(),
        );
        let ghost before = subgraphs@;
        subgraphs.push(sg);
        proof {
            assert forall|x: int| 0 <= x < i + 1 implies (#[trigger] subgraphs@[x]).is_fused(
                p,
                meta,
                parts@[x]@,
                subgraphs@[x].tensors_to_retain@,
            ) && is_kept(subgraphs@[x].tensors_to_retain@, p, meta, parts@, x) by {
                if x < i {
                    assert(subgraphs@[x] == before[x]);
                }
            }
        }
        i = i + 1;
    }
    assert(is_stitch_cut(parts@, p, meta, num_partitions as int));
    assert(are_stitched(subgraphs@, p, meta, parts@));
    let strategy: Strategy = Strategy::Stitched(num_partitions);
    ScheduleCandidate { strategy_name: strategy.name(), subgraphs }
}

/// The entries of a tile are entries of the order.
proof fn lemma_tile_entries(parts: Seq<Vec<OpId>>, order: Seq<OpId>, size: int, keep: int, i: int, j: int)
    requires
        tiles::is_cut(parts, order, size, keep),
        size > 0 || order.len() == 0,
        0 <= i < parts.len(),
        0 <= j < parts[i]@.len(),
    ensures
        order.contains(parts[i]@[j]),
{
    tiles::lemma_tile_bounds(order.len() as int, size, keep, i);
    assert(parts[i]@ == tiles::tile(order, size, keep, i));
    assert(parts[i]@[j] == order[i * size + j]);
}

/// The groups of the stitched schedule of an acyclic graph, one after the other, hold
/// every operation once.
pub proof fn stitched_groups_hold_every_operation(c: ScheduleCandidate, p: Problem, meta: Seq<TensorMeta>, parts_wanted: usize)
    requires
        is_stitched(c, p, meta, parts_wanted),
        parts_wanted > 0,
        graph::acyclic(dataflow::successors(p.ops@, meta)),
    ensures
        ops_in_order(c.subgraphs@, c.subgraphs@.len()) == dataflow::run_order(p.ops@, meta),
        ops_in_order(c.subgraphs@, c.subgraphs@.len()).no_duplicates(),
        ops_in_order(c.subgraphs@, c.subgraphs@.len()).len() == p.ops@.len(),
        forall|op: usize|
            op < p.ops@.len() ==> #[trigger] ops_in_order(c.subgraphs@, c.subgraphs@.len()).contains(op),
{
    let size = stitched_size(p.ops@.len() as int, parts_wanted as int);
    let q = dataflow::run_order(p.ops@, meta);
    let parts = choose|parts: Seq<Vec<OpId>>|
        #[trigger] is_stitch_cut(parts, p, meta, parts_wanted as int) && are_stitched(c.subgraphs@, p, meta, parts);
    let g = dataflow::successors(p.ops@, meta);
    assert(p.ops@.len() == p.ops.len());
    dataflow::successors_follow_tensors(p.ops@, meta);
    graph::order_is_topological(g);
    graph::acyclic_order_is_complete(g);
    let n = p.ops@.len() as int;
    let k = parts_wanted as int;
    assert(n > 0 ==> (n + k - 1) / k > 0) by (nonlinear_arith)
        requires
            n >= 0,
            k >= 1,
    ;
    if n > 0 {
        tiles::tiles_make_up_order(parts, q, size, size / 4);
    } else {
        assert(q.len() == 0);
        assert(parts.len() == 0);
        assert(q =~= tiles::joined(parts, parts.len()));
    }
    lemma_ops_are_tiles(c.subgraphs@, p, meta, parts, parts.len());
}

/// The operations of the first `k` groups, one after the other.
pub open spec fn ops_in_order(groups: Seq<SerializableSubgraph>, k: nat) -> Seq<OpId>
    decreases k,
{
    if k == 0 {
        Seq::empty()
    } else {
        ops_in_order(groups, (k - 1) as nat) + groups[k - 1].ops@
    }
}

proof fn lemma_ops_are_tiles(
    groups: Seq<SerializableSubgraph>,
    p: Problem,
    meta: Seq<TensorMeta>,
    parts: Seq<Vec<OpId>>,
    k: nat,
)
    requires
        are_stitched(groups, p, meta, parts),
        k <= parts.len(),
    ensures
        ops_in_order(groups, k) == tiles::joined(parts, k),
    decreases k,
{
    if k > 0 {
        lemma_ops_are_tiles(groups, p, meta, parts, (k - 1) as nat);
        assert(groups[k - 1].is_fused(p, meta, parts[k - 1]@, groups[k - 1].tensors_to_retain@));
    }
}

/// What a tile keeps fits in two fifths of fast memory.
pub proof fn kept_boundary_fits(kept: Seq<TensorId>, p: Problem, meta: Seq<TensorMeta>, parts: Seq<Vec<OpId>>, i: int)
    requires
        is_kept(kept, p, meta, parts, i),
        passed_on_known(p, meta),
        meta.len() <= usize::MAX,
        p.fast_memory_capacity >= 0,
    ensures
        arith::sum(kept.map_values(|t: usize| p.tensors@[t as int].area())) <= arith::share(
            p.fast_memory_capacity as int,
            40,
        ),
{
    let n = p.ops@.len();
    let listed = boundary(meta, parts, n, i, meta.len());
    let room = arith::share(p.fast_memory_capacity as int, 40);
    let keys = choose|keys: Seq<SortKey>| #[trigger]
        ranks_by_size(keys, p, listed) && greedy::is_greedy_choice(
            listed,
            memory::sizes_of(listed, p),
            keys,
            room,
            kept,
        );
    lemma_boundary(meta, parts, n, i, meta.len());
    assert forall|x: int| 0 <= x < listed.len() implies #[trigger] memory::sizes_of(listed, p)[x]
        == p.tensors@[listed[x] as int].area() by {
        assert(crosses(meta, parts, n, i, listed[x] as int));
        assert(meta[listed[x] as int].producer is Some);
    }
    greedy::chosen_items_fit(
        listed,
        memory::sizes_of(listed, p),
        keys,
        room,
        kept,
        |t: usize| p.tensors@[t as int].area(),
    );
}

proof fn lemma_boundary(meta: Seq<TensorMeta>, parts: Seq<Vec<OpId>>, n: nat, i: int, k: nat)
    requires
        k <= meta.len(),
        meta.len() <= usize::MAX,
    ensures
        forall|x: int|
            0 <= x < boundary(meta, parts, n, i, k).len() ==> (#[trigger] boundary(meta, parts, n, i, k)[x]) < k
                && crosses(meta, parts, n, i, boundary(meta, parts, n, i, k)[x] as int),
    decreases k,
{
    if k > 0 {
        lemma_boundary(meta, parts, n, i, (k - 1) as nat);
        let rest = boundary(meta, parts, n, i, (k - 1) as nat);
        let all = boundary(meta, parts, n, i, k);
        assert forall|x: int| 0 <= x < all.len() implies (#[trigger] all[x]) < k && crosses(
            meta,
            parts,
            n,
            i,
            all[x] as int,
        ) by {
            if x < rest.len() {
                assert(all[x] == rest[x]);
            }
        }
    }
}

/// The schedule puts each independent branch into a group of its own.
pub open spec fn is_branched(c: ScheduleCandidate, p: Problem, meta: Seq<TensorMeta>) -> bool {
    &&& c.strategy_name@ == strategy_name(Strategy::BranchParallel)
    &&& exists|branches: Seq<Vec<OpId>>|
        {
            &&& #[trigger] triage::are_branches(branches, meta, p.ops@.len())
            &&& c.subgraphs@.len() == branches.len()
            &&& forall|i: int|
                0 <= i < branches.len() ==> (#[trigger] c.subgraphs@[i]).is_fused(p, meta, branches[i]@, Seq::empty())
        }
}

/// Puts each independent branch into a group of its own.
pub fn solve_branch_parallel(problem: &Problem, tensor_meta: &[TensorMeta]) -> (c: ScheduleCandidate)
    requires
        memory::ids_known(*problem, tensor_meta@),
    ensures
        is_branched(c, *problem, tensor_meta@),
{
    let branches: Vec<Vec<OpId>> = triage::find_independent_branches(problem, tensor_meta);
    let none: Vec<TensorId> = Vec::new();
    assert(none@ =~= Seq::<TensorId>::empty());
    let mut subgraphs: Vec<SerializableSubgraph> = Vec::new();
    let mut i: usize = 0;
    while i < branches.len()
        invariant
            i <= branches.len(),
            memory::ids_known(*problem, tensor_meta@),
            triage::are_branches(branches@, tensor_meta@, problem.ops@.len()),
            none@ == Seq::<TensorId>::empty(),
            subgraphs.len() == i,
            forall|x: int|
                0 <= x < i ==> (#[trigger] subgraphs@[x]).is_fused(*problem, tensor_meta@, branches@[x]@, Seq::empty()),
        decreases branches.len() - i,
    {
        proof {
            let branch = branches@[i as int]@;
            assert forall|x: int| 0 <= x < branch.len() implies (#[trigger] branch[x]) < problem.ops@.len() by {
                assert(branches@[i as int]@.contains(branch[x]));
            }
            memory::lemma_ids_known(branch, *problem, tensor_meta@);
        }
        let sg: SerializableSubgraph = build_fused_subgraph(
            branches[i].as_slice(),
            problem,
            tensor_meta,
            none.as_slice(),
        );
        subgraphs.push(sg);
        i = i + 1;
    }
    let strategy: Strategy = Strategy::BranchParallel;
    ScheduleCandidate { strategy_name: strategy.name(), subgraphs }
}

/// Every operation is in one group of the branched schedule, and in no other.
pub proof fn branched_groups_hold_every_operation(c: ScheduleCandidate, p: Problem, meta: Seq<TensorMeta>, op: usize)
    requires
        is_branched(c, p, meta),
        op < p.ops@.len(),
    ensures
        exists|i: int| 0 <= i < c.subgraphs@.len() && (#[trigger] c.subgraphs@[i]).ops@.contains(op),
        forall|i: int, j: int|
            0 <= i < c.subgraphs@.len() && 0 <= j < c.subgraphs@.len() && (#[trigger] c.subgraphs@[i]).ops@.contains(op)
                && (#[trigger] c.subgraphs@[j]).ops@.contains(op) ==> i == j,
{
    let branches = choose|branches: Seq<Vec<OpId>>|
        {
            &&& #[trigger] triage::are_branches(branches, meta, p.ops@.len())
            &&& c.subgraphs@.len() == branches.len()
            &&& forall|i: int|
                0 <= i < branches.len() ==> (#[trigger] c.subgraphs@[i]).is_fused(p, meta, branches[i]@, Seq::empty())
        };
    triage::branches_hold_every_operation(branches, meta, p.ops@.len(), op);
    let i = choose|i: int| 0 <= i < branches.len() && #[trigger] branches[i]@.contains(op);
    assert(c.subgraphs@[i].ops@.contains(op));
    assert forall|i: int, j: int|
        0 <= i < c.subgraphs@.len() && 0 <= j < c.subgraphs@.len() && (#[trigger] c.subgraphs@[i]).ops@.contains(op) && (
        #[trigger] c.subgraphs@[j]).ops@.contains(op) implies i == j by {
        assert(branches[i]@.contains(op));
        assert(branches[j]@.contains(op));
    }
}

/// The schedule is what the strategy makes.
pub open spec fn is_made_by(c: ScheduleCandidate, p: Problem, meta: Seq<TensorMeta>, strategy: Strategy) -> bool {
    match strategy {
        Strategy::FullFusion => is_full_fusion(c, p, meta),
        Strategy::Stitched(parts) => is_stitched(c, p, meta, parts),
        Strategy::BranchParallel => is_branched(c, p, meta),
    }
}

/// Makes the schedule of a strategy.
pub fn solve(problem: &Problem, tensor_meta: &[TensorMeta], strategy: Strategy) -> (c: ScheduleCandidate)
    requires
        memory::ids_known(*problem, tensor_meta@),
        strategy matches Strategy::Stitched(parts) ==> parts > 0 && passed_on_known(*problem, tensor_meta@),
    ensures
        is_made_by(c, *problem, tensor_meta@, strategy),
{
    match strategy {
        Strategy::FullFusion => solve_full_fusion(problem, tensor_meta),
        Strategy::Stitched(parts) => solve_stitched(problem, tensor_meta, parts),
        Strategy::BranchParallel => solve_branch_parallel(problem, tensor_meta),
    }
}

/// Every group of a schedule respects fast memory: it fits with the granularity that it
/// carries, if it fits with any of those to try. Where it fits with the native
/// granularity or with none, it keeps the native one.
pub proof fn groups_fit_in_fast_memory(
    c: ScheduleCandidate,
    p: Problem,
    meta: Seq<TensorMeta>,
    strategy: Strategy,
    i: int,
)
    requires
        is_made_by(c, p, meta, strategy),
        0 <= i < c.subgraphs@.len(),
    ensures
        ({
            let sg = c.subgraphs@[i];
            let list = memory::attempts(p.native_granularity, memory::has_matmul(sg.ops@, p.ops@));
            &&& (exists|j: int|
                0 <= j < list.len() && memory::fits_memory(sg.ops@, p, #[trigger] list[j], meta))
                ==> memory::fits_memory(sg.ops@, p, sg.granularity(), meta)
            &&& memory::fits_memory(sg.ops@, p, p.native_granularity, meta) || !memory::fits_memory(
                sg.ops@,
                p,
                sg.granularity(),
                meta,
            ) ==> sg.granularity_w == p.native_granularity.width && sg.granularity_h == p.native_granularity.height && sg.granularity_k
                == models::written(p.native_granularity).k
        }),
{
    let sg = c.subgraphs@[i];
    let list = memory::attempts(p.native_granularity, memory::has_matmul(sg.ops@, p.ops@));
    let g = memory::group_granularity(sg.ops@, p, meta);
    match strategy {
        Strategy::FullFusion => {},
        Strategy::Stitched(wanted) => {
            let parts = choose|parts: Seq<Vec<OpId>>|
                #[trigger] is_stitch_cut(parts, p, meta, wanted as int) && are_stitched(c.subgraphs@, p, meta, parts);
            assert(sg.is_fused(p, meta, parts[i]@, sg.tensors_to_retain@));
        },
        Strategy::BranchParallel => {
            let branches = choose|branches: Seq<Vec<OpId>>|
                {
                    &&& #[trigger] triage::are_branches(branches, meta, p.ops@.len())
                    &&& c.subgraphs@.len() == branches.len()
                    &&& forall|i: int|
                        0 <= i < branches.len() ==> (#[trigger] c.subgraphs@[i]).is_fused(
                            p,
                            meta,
                            branches[i]@,
                            Seq::empty(),
                        )
                };
            assert(sg.is_fused(p, meta, branches[i]@, Seq::empty()));
        },
    }
    memory::group_granularity_fits(sg.ops@, p, meta);
    memory::lemma_unsplit(sg.ops@, p, g, sg.granularity(), meta);
}

/// Every group of the schedule fits in fast memory with the granularity that it carries.
pub open spec fn all_groups_fit(c: ScheduleCandidate, p: Problem, meta: Seq<TensorMeta>) -> bool {
    forall|i: int|
        0 <= i < c.subgraphs@.len() ==> memory::fits_memory(
            (#[trigger] c.subgraphs@[i]).ops@,
            p,
            c.subgraphs@[i].granularity(),
            meta,
        )
}

/// Whether every group of the schedule fits in fast memory.
pub fn check_groups_fit(c: &ScheduleCandidate, problem: &Problem, tensor_meta: &[TensorMeta]) -> (yes: bool)
    requires
        forall|i: int|
            0 <= i < c.subgraphs@.len() ==> memory::ids_in_range(
                (#[trigger] c.subgraphs@[i]).ops@,
                *problem,
                tensor_meta@,
            ),
    ensures
        yes == all_groups_fit(*c, *problem, tensor_meta@),
{
    let mut i: usize = 0;
    while i < c.subgraphs.len()
        invariant
            i <= c.subgraphs.len(),
            forall|i: int|
                0 <= i < c.subgraphs@.len() ==> memory::ids_in_range(
                    (#[trigger] c.subgraphs@[i]).ops@,
                    *problem,
                    tensor_meta@,
                ),
            forall|j: int|
                0 <= j < i ==> memory::fits_memory(
                    (#[trigger] c.subgraphs@[j]).ops@,
                    *problem,
                    c.subgraphs@[j].granularity(),
                    tensor_meta@,
                ),
        decreases c.subgraphs.len() - i,
    {
        let sg: &SerializableSubgraph = &c.subgraphs[i];
        assert(*sg == c.subgraphs@[i as int]);
        let depth: i64 = match sg.granularity_k {
            Some(k) => k,
            None => 1,
        };
        let granularity: Granularity = Granularity { width: sg.granularity_w, height: sg.granularity_h, depth };
        if !memory::validate_memory_fit(sg.ops.as_slice(), problem, &granularity, tensor_meta) {
            return false;
        }
        i = i + 1;
    }
    true
}

/// The schedule with this number wins: one whose groups fit before any whose do not, then
/// the one with the lowest score, and of equal ones the first.
pub open spec fn is_winner(scores: Seq<i64>, fits: Seq<bool>, i: int) -> bool {
    &&& 0 <= i < scores.len()
    &&& forall|j: int| 0 <= j < fits.len() && #[trigger] fits[j] ==> fits[i]
    &&& forall|j: int|
        0 <= j < scores.len() && fits[j] == fits[i] ==> scores[i] <= #[trigger] scores[j] && (j < i ==> scores[i]
            < scores[j])
}

/// Picks the schedule that wins.
pub fn pick_winner(scores: &[i64], fits: &[bool]) -> (best: Option<usize>)
    requires
        scores@.len() == fits@.len(),
    ensures
        match best {
            Some(i) => is_winner(scores@, fits@, i as int),
            None => scores@.len() == 0,
        },
{
    if scores.len() == 0 {
        return None;
    }
    let mut best: usize = 0;
    let mut i: usize = 1;
    while i < scores.len()
        invariant
            1 <= i <= scores@.len(),
            scores@.len() == fits@.len(),
            best < i,
            forall|j: int| 0 <= j < i && #[trigger] fits@[j] ==> fits@[best as int],
            forall|j: int|
                0 <= j < i && fits@[j] == fits@[best as int] ==> scores@[best as int] <= #[trigger] scores@[j] && (j
                    < best ==> scores@[best as int] < scores@[j]),
        decreases scores@.len() - i,
    {
        if (fits[i] && !fits[best]) || (fits[i] == fits[best] && scores[i] < scores[best]) {
            best = i;
        }
        i = i + 1;
    }
    Some(best)
}

/// If the operations fit in fast memory as one group, every group of the winner fits,
/// provided that full fusion takes part.
pub proof fn winning_schedule_fits(
    list: Seq<ScheduleCandidate>,
    p: Problem,
    meta: Seq<TensorMeta>,
    scores: Seq<i64>,
    fits: Seq<bool>,
    full: int,
    best: int,
)
    requires
        list.len() == scores.len() == fits.len(),
        forall|i: int| 0 <= i < list.len() ==> #[trigger] fits[i] == all_groups_fit(list[i], p, meta),
        0 <= full < list.len(),
        is_made_by(list[full], p, meta, Strategy::FullFusion),
        ({
            let all = partition::all_ops(p.ops@.len());
            memory::fits_memory(all, p, memory::group_granularity(all, p, meta), meta)
        }),
        is_winner(scores, fits, best),
    ensures
        all_groups_fit(list[best], p, meta),
{
    let all = partition::all_ops(p.ops@.len());
    let sg = list[full].subgraphs@[0];
    memory::lemma_unsplit(all, p, memory::group_granularity(all, p, meta), sg.granularity(), meta);
    assert(fits[full] == all_groups_fit(list[full], p, meta));
    assert(fits[best] == all_groups_fit(list[best], p, meta));
}

/// An operation of one of the first `k` groups has its place among their operations.
proof fn lemma_place_in_order(groups: Seq<SerializableSubgraph>, k: nat, i: int, j: int) -> (at: int)
    requires
        k <= groups.len(),
        0 <= i < k,
        0 <= j < groups[i].ops@.len(),
    ensures
        at == ops_in_order(groups, i as nat).len() + j,
        0 <= at < ops_in_order(groups, k).len(),
        ops_in_order(groups, k)[at] == groups[i].ops@[j],
    decreases k,
{
    if i == k - 1 {
        ops_in_order(groups, i as nat).len() + j
    } else {
        lemma_place_in_order(groups, (k - 1) as nat, i, j)
    }
}

/// Every place among the operations of the first `k` groups is in one of them.
proof fn lemma_group_of_place(groups: Seq<SerializableSubgraph>, k: nat, at: int) -> (i: int)
    requires
        k <= groups.len(),
        0 <= at < ops_in_order(groups, k).len(),
    ensures
        0 <= i < k,
        groups[i].ops@.contains(ops_in_order(groups, k)[at]),
    decreases k,
{
    let rest = ops_in_order(groups, (k - 1) as nat);
    if at < rest.len() {
        lemma_group_of_place(groups, (k - 1) as nat, at)
    } else {
        assert(groups[k - 1].ops@[at - rest.len()] == ops_in_order(groups, k)[at]);
        k - 1
    }
}

/// Whatever the strategy, every operation is in one group of the schedule and in no other;
/// cutting the run order needs a graph without cycles for that.
pub proof fn every_schedule_holds_every_operation(
    c: ScheduleCandidate,
    p: Problem,
    meta: Seq<TensorMeta>,
    strategy: Strategy,
    op: usize,
)
    requires
        is_made_by(c, p, meta, strategy),
        strategy matches Strategy::Stitched(parts) ==> parts > 0 && graph::acyclic(dataflow::successors(p.ops@, meta)),
        op < p.ops@.len(),
    ensures
        exists|i: int| 0 <= i < c.subgraphs@.len() && (#[trigger] c.subgraphs@[i]).ops@.contains(op),
        forall|i: int, j: int|
            0 <= i < c.subgraphs@.len() && 0 <= j < c.subgraphs@.len() && (#[trigger] c.subgraphs@[i]).ops@.contains(op)
                && (#[trigger] c.subgraphs@[j]).ops@.contains(op) ==> i == j,
{
    match strategy {
        Strategy::FullFusion => {
            full_fusion_holds_every_operation(c, p, meta, op);
        },
        Strategy::BranchParallel => {
            branched_groups_hold_every_operation(c, p, meta, op);
        },
        Strategy::Stitched(parts) => {
            stitched_groups_hold_every_operation(c, p, meta, parts);
            let groups = c.subgraphs@;
            let all = ops_in_order(groups, groups.len());
            assert(all.contains(op));
            let at = choose|at: int| 0 <= at < all.len() && all[at] == op;
            let first = lemma_group_of_place(groups, groups.len(), at);
            assert forall|i: int, j: int|
                0 <= i < groups.len() && 0 <= j < groups.len() && (#[trigger] groups[i]).ops@.contains(op) && (
                #[trigger] groups[j]).ops@.contains(op) implies i == j by {
                let x = choose|x: int| 0 <= x < groups[i].ops@.len() && groups[i].ops@[x] == op;
                let y = choose|y: int| 0 <= y < groups[j].ops@.len() && groups[j].ops@[y] == op;
                let a = lemma_place_in_order(groups, groups.len(), i, x);
                let b = lemma_place_in_order(groups, groups.len(), j, y);
                if i < j {
                    let before = lemma_place_in_order(groups, j as nat, i, x);
                } else if j < i {
                    let before = lemma_place_in_order(groups, i as nat, j, y);
                }
            }
        },
    }
}

/// The number that bytes stand for, the lowest byte first.
pub open spec fn little_endian_value(bytes: Seq<u8>) -> nat
    decreases bytes.len(),
{
    if bytes.len() == 0 {
        0
    } else {
        bytes[0] as nat + 256 * little_endian_value(bytes.drop_first())
    }
}

/// The lowest `k` bytes of a number, the lowest first.
pub open spec fn little_endian(n: nat, k: nat) -> Seq<u8>
    decreases k,
{
    if k == 0 {
        Seq::empty()
    } else {
        seq![(n % 256) as u8] + little_endian(n / 256, (k - 1) as nat)
    }
}

/// The largest message that is accepted: 256 times 2 to the power of 20 bytes.
pub const MAX_FRAME_BYTES: u64 = 268_435_456;

/// The header of a message: its length in eight bytes, the lowest first.
pub fn encode_frame_length(len: u64) -> (header: Vec<u8>)
    ensures
        header@ == little_endian(len as nat, 8),
        header@.len() == 8,
{
    let mut header: Vec<u8> = Vec::new();
    let mut rest: u64 = len;
    let mut k: usize = 0;
    while k < 8
        invariant
            k <= 8,
            header.len() == k,
            header@ + little_endian(rest as nat, (8 - k) as nat) == little_endian(len as nat, 8),
        decreases 8 - k,
    {
        let low: u8 = (rest % 256) as u8;
        let ghost before = header@;
        header.push(low);
        proof {
            let tail = little_endian((rest / 256) as nat, (8 - k - 1) as nat);
            assert(little_endian(rest as nat, (8 - k) as nat) == seq![low] + tail);
            assert(header@ + tail =~= before + (seq![low] + tail));
        }
        rest = rest / 256;
        k = k + 1;
    }
    assert(header@ + little_endian(rest as nat, 0) =~= header@);
    header
}

/// The length that a header of eight bytes announces, if such a message is accepted.
pub fn decode_frame_length(header: &[u8]) -> (len: Option<u64>)
    requires
        header@.len() == 8,
    ensures
        match len {
            Some(n) => n == little_endian_value(header@) && n <= MAX_FRAME_BYTES,
            None => little_endian_value(header@) > MAX_FRAME_BYTES,
        },
{
    let mut value: u128 = 0;
    let mut k: usize = 8;
    while k > 0
        invariant
            k <= 8,
            header@.len() == 8,
            value == little_endian_value(header@.skip(k as int)),
            value < power(8 - k),
        decreases k,
    {
        proof {
            let tail = header@.skip(k - 1);
            assert(tail.drop_first() =~= header@.skip(k as int));
            assert(power(8 - k) <= power(7)) by {
                reveal_with_fuel(power, 9);
            }
            reveal_with_fuel(power, 9);
        }
        k = k - 1;
        value = value * 256 + header[k] as u128;
    }
    assert(header@.skip(0) =~= header@);
    if value <= MAX_FRAME_BYTES as u128 {
        Some(value as u64)
    } else {
        None
    }
}

/// 256 to the power of `k`.
pub open spec fn power(k: int) -> int
    decreases k,
{
    if k <= 0 {
        1
    } else {
        256 * power(k - 1)
    }
}

/// A header tells the length that it was made for.
pub proof fn headers_tell_lengths(n: nat, k: nat)
    requires
        n < power(k as int),
    ensures
        little_endian_value(little_endian(n, k)) == n,
        little_endian(n, k).len() == k,
    decreases k,
{
    if k > 0 {
        let bytes = little_endian(n, k);
        headers_tell_lengths(n / 256, (k - 1) as nat);
        assert(bytes.drop_first() =~= little_endian(n / 256, (k - 1) as nat));
    }
}

} // verus!
