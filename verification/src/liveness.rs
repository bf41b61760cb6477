//! When tensors are alive, which of them deserve fast memory, and how to cut the work to size.
use std::collections::HashSet;
use vstd::prelude::*;
use crate::arith;
use crate::components;
use crate::dataflow;
use crate::graph;
use crate::greedy;
use crate::models;
use crate::models::{Granularity, OpId, Problem, TensorId, TensorMeta};
use crate::snake;
use crate::sorting;
use crate::sorting::SortKey;

pub use crate::kernels::{
    find_aggressive_kernel_fusions, find_micro_kernel_candidates, find_pointwise_chains, FusedKernel,
    MicroKernelGroup, PointwiseChain,
};

verus! {

/// The lifetime of a tensor in the order of the operations.
#[derive(Debug, Clone)]
pub struct LivenessInterval {
    pub tensor_id: TensorId,
    /// The operation that produces the tensor, `None` for graph inputs.
    pub producer: Option<OpId>,
    /// The operations that consume the tensor.
    pub consumers: Vec<OpId>,
    /// The operation at which the tensor is first needed.
    pub start: usize,
    /// The operation at which the tensor is last needed.
    pub end: usize,
    /// How often the tensor is consumed.
    pub reuse_count: usize,
    pub size: i64,
    /// The higher, the more the tensor deserves fast memory.
    pub sram_priority: i64,
}

/// What a tensor gains in priority by being small and often used: ten thousand times its
/// uses, divided by its size in thousands plus one.
pub open spec fn reuse_bonus(uses: int, size: int) -> int {
    if size == -1000 {
        if uses == 0 { 0 } else { i64::MAX as int }
    } else {
        arith::clamped(arith::quotient(uses * 10_000_000, size + 1000))
    }
}

/// The priority of a tensor: the reads that keeping it saves, a bonus for small and often
/// used tensors, and a penalty for long lives.
pub open spec fn priority(uses: int, size: int, start: int, end: int) -> int {
    uses * size + reuse_bonus(uses, size) - (end - start + 1) * 100
}

fn bonus_of(uses: usize, size: i64) -> (bonus: i64)
    ensures
        bonus == reuse_bonus(uses as int, size as int),
{
    if size == -1000 {
        if uses == 0 {
            0
        } else {
            i64::MAX
        }
    } else {
        let scaled: i128 = uses as i128 * 10_000_000;
        let divisor: i128 = size as i128 + 1000;
        let ghost a = scaled as int;
        let ghost b = divisor as int;
        if divisor < 0 {
            assert(a / b == -(a / -b)) by (nonlinear_arith)
                requires
                    a >= 0,
                    b < 0,
            ;
        }
        arith::clamp(scaled / divisor)
    }
}

impl LivenessInterval {
    /// Sets the priority from the uses, the size and the lifetime.
    pub fn calculate_priority(&mut self)
        requires
            arith::fits(
                priority(
                    old(self).reuse_count as int,
                    old(self).size as int,
                    old(self).start as int,
                    old(self).end as int,
                ),
            ),
        ensures
            final(self).sram_priority == priority(
                old(self).reuse_count as int,
                old(self).size as int,
                old(self).start as int,
                old(self).end as int,
            ),
            *final(self) == (LivenessInterval { sram_priority: final(self).sram_priority, ..*old(self) }),
    {
        let uses: i128 = self.reuse_count as i128;
        let size: i128 = self.size as i128;
        assert(-0x7fff_ffff_ffff_ffff_8000_0000_0000_0000 <= uses * size
            <= 0x7fff_ffff_ffff_ffff_0000_0000_0000_0000) by (nonlinear_arith)
            requires
                0 <= uses <= 0xffff_ffff_ffff_ffff,
                -0x8000_0000_0000_0000 <= size < 0x8000_0000_0000_0000,
        ;
        let saved: i128 = uses * size;
        let bonus: i64 = bonus_of(self.reuse_count, self.size);
        let lifetime: i128 = self.end as i128 - self.start as i128 + 1;
        let rest: i128 = bonus as i128 - lifetime * 100;
        self.sram_priority = (saved + rest) as i64;
    }

    /// The tensor is alive at the operation.
    pub open spec fn is_live(&self, op_index: int) -> bool {
        self.start <= op_index <= self.end
    }

    /// Whether the tensor is alive at the operation.
    pub fn is_live_at(&self, op_index: usize) -> (yes: bool)
        ensures
            yes == self.is_live(op_index as int),
    {
        op_index >= self.start && op_index <= self.end
    }
}

/// The first of the first `k` consumers that is one of the `n` operations, `n` if none is.
pub open spec fn first_consumer(consumers: Seq<OpId>, n: nat, k: nat) -> int
    decreases k,
{
    if k == 0 {
        n as int
    } else {
        arith::least(first_consumer(consumers, n, (k - 1) as nat), consumers[k - 1] as int)
    }
}

/// Where the life of a tensor starts: at its producer, without one at its first consumer,
/// and without either at the first operation.
pub open spec fn start_of(m: TensorMeta, n: nat) -> int {
    let first = first_consumer(m.consumers@, n, m.consumers@.len());
    if m.producer is Some && m.producer->0 < n {
        m.producer->0 as int
    } else if first < n {
        first
    } else {
        0
    }
}

/// The last of the first `k` consumers that is an operation, `-1` if none is.
pub open spec fn last_consumer(consumers: Seq<OpId>, n: nat, k: nat) -> int
    decreases k,
{
    if k == 0 {
        -1
    } else {
        let before = last_consumer(consumers, n, (k - 1) as nat);
        if consumers[k - 1] < n {
            arith::greatest(before, consumers[k - 1] as int)
        } else {
            before
        }
    }
}

/// Where the life of a tensor ends: at its last consumer, or where it starts.
pub open spec fn end_of(m: TensorMeta, n: nat) -> int {
    let last = last_consumer(m.consumers@, n, m.consumers@.len());
    if last < 0 { start_of(m, n) } else { last }
}

/// The priority of tensor `t`.
pub open spec fn priority_of(p: Problem, meta: Seq<TensorMeta>, t: int) -> int {
    priority(
        meta[t].consumers@.len() as int,
        p.tensors@[t].area(),
        start_of(meta[t], p.ops@.len()),
        end_of(meta[t], p.ops@.len()),
    )
}

/// The tensor is alive at operation `op`.
pub open spec fn alive(p: Problem, meta: Seq<TensorMeta>, t: int, op: int) -> bool {
    start_of(meta[t], p.ops@.len()) <= op <= end_of(meta[t], p.ops@.len())
}

/// How many of the first `k` tensors are alive at operation `op`.
pub open spec fn live_count(p: Problem, meta: Seq<TensorMeta>, op: int, k: nat) -> nat
    decreases k,
{
    if k == 0 {
        0
    } else {
        live_count(p, meta, op, (k - 1) as nat) + if alive(p, meta, k - 1, op) { 1nat } else { 0nat }
    }
}

/// The size of those of the first `k` tensors that are alive at operation `op`.
pub open spec fn live_bytes(p: Problem, meta: Seq<TensorMeta>, op: int, k: nat) -> int
    decreases k,
{
    if k == 0 {
        0
    } else {
        live_bytes(p, meta, op, (k - 1) as nat) + if alive(p, meta, k - 1, op) { p.tensors@[k - 1].area() } else { 0 }
    }
}

/// The most tensors alive at once during the first `m` operations.
pub open spec fn peak_count(p: Problem, meta: Seq<TensorMeta>, m: nat) -> int
    decreases m,
{
    if m == 0 {
        0
    } else {
        arith::greatest(peak_count(p, meta, (m - 1) as nat), live_count(p, meta, m - 1, p.tensors@.len()) as int)
    }
}

/// The most bytes alive at once during the first `m` operations.
pub open spec fn peak_bytes(p: Problem, meta: Seq<TensorMeta>, m: nat) -> int
    decreases m,
{
    if m == 0 {
        0
    } else {
        arith::greatest(peak_bytes(p, meta, (m - 1) as nat), live_bytes(p, meta, m - 1, p.tensors@.len()))
    }
}

impl LivenessInterval {
    /// This is the lifetime of tensor `t`.
    pub open spec fn is_of(&self, p: Problem, meta: Seq<TensorMeta>, t: int) -> bool {
        &&& self.tensor_id == t
        &&& self.producer == meta[t].producer
        &&& self.consumers@ == meta[t].consumers@
        &&& self.start == start_of(meta[t], p.ops@.len())
        &&& self.end == end_of(meta[t], p.ops@.len())
        &&& self.reuse_count == meta[t].consumers@.len()
        &&& self.size == p.tensors@[t].area()
        &&& self.sram_priority == priority_of(p, meta, t)
    }
}

/// What is known about the lifetimes of all tensors.
#[derive(Debug)]
pub struct LivenessAnalysis {
    /// One lifetime per tensor.
    pub intervals: Vec<LivenessInterval>,
    /// The tensors by falling priority.
    pub priority_order: Vec<TensorId>,
    /// The most tensors alive at once.
    pub max_live_tensors: usize,
    /// The most bytes alive at once.
    pub max_live_bytes: i64,
    /// Small tensors with so many uses that they should stay in fast memory.
    pub guaranteed_sram: HashSet<TensorId>,
}

/// The tensors with more than one use among the first `k` listed, in order.
pub open spec fn reused(intervals: Seq<LivenessInterval>, order: Seq<TensorId>, k: nat) -> Seq<TensorId>
    decreases k,
{
    if k == 0 {
        Seq::empty()
    } else {
        let before = reused(intervals, order, (k - 1) as nat);
        if intervals[order[k - 1] as int].reuse_count > 1 {
            before.push(order[k - 1])
        } else {
            before
        }
    }
}

/// The sizes of the listed tensors.
pub open spec fn interval_sizes(intervals: Seq<LivenessInterval>, listed: Seq<TensorId>) -> Seq<i64> {
    Seq::new(listed.len(), |i: int| intervals[listed[i] as int].size)
}

/// Of the tensors with more than one use, in the order of priority, all that fit in the capacity.
pub open spec fn candidates(intervals: Seq<LivenessInterval>, order: Seq<TensorId>, capacity: int) -> Seq<TensorId> {
    let listed = reused(intervals, order, order.len());
    greedy::taken(
        listed,
        interval_sizes(intervals, listed),
        greedy::in_sequence(listed.len()),
        capacity,
        listed.len(),
    )
}

/// The tensors of the first `k` lifetimes that are alive at operation `op`.
pub open spec fn alive_at(intervals: Seq<LivenessInterval>, op: int, k: nat) -> Seq<TensorId>
    decreases k,
{
    if k == 0 {
        Seq::empty()
    } else {
        let before = alive_at(intervals, op, (k - 1) as nat);
        if intervals[k - 1].is_live(op) {
            before.push(intervals[k - 1].tensor_id)
        } else {
            before
        }
    }
}

impl LivenessAnalysis {
    /// Every listed tensor has a lifetime.
    pub open spec fn is_listing(&self) -> bool {
        forall|i: int| 0 <= i < self.priority_order@.len() ==> (#[trigger] self.priority_order@[i]) < self.intervals@.len()
    }

    /// The tensors that should be in fast memory: of those with more than one use, by
    /// falling priority, all that fit.
    pub fn get_sram_candidates(&self, available_capacity: i64) -> (selected: Vec<TensorId>)
        requires
            self.is_listing(),
        ensures
            selected@ == candidates(self.intervals@, self.priority_order@, available_capacity as int),
    {
        let ghost order = self.priority_order@;
        let mut listed: Vec<TensorId> = Vec::new();
        let mut sizes: Vec<i64> = Vec::new();
        let mut i: usize = 0;
        while i < self.priority_order.len()
            invariant
                i <= self.priority_order.len(),
                order == self.priority_order@,
                self.is_listing(),
                listed@ == reused(self.intervals@, order, i as nat),
                sizes@ == interval_sizes(self.intervals@, listed@),
            decreases self.priority_order.len() - i,
        {
            let t: TensorId = self.priority_order[i];
            assert(order[i as int] < self.intervals@.len());
            if self.intervals[t].reuse_count > 1 {
                listed.push(t);
                sizes.push(self.intervals[t].size);
                assert(sizes@ =~= interval_sizes(self.intervals@, listed@));
            }
            i = i + 1;
        }
        greedy::take_in_sequence(&listed, &sizes, available_capacity)
    }

    /// The tensors alive at the operation.
    pub fn live_at(&self, op_index: usize) -> (live: Vec<TensorId>)
        ensures
            live@ == alive_at(self.intervals@, op_index as int, self.intervals@.len()),
    {
        let mut live: Vec<TensorId> = Vec::new();
        let mut i: usize = 0;
        while i < self.intervals.len()
            invariant
                i <= self.intervals.len(),
                live@ == alive_at(self.intervals@, op_index as int, i as nat),
            decreases self.intervals.len() - i,
        {
            if self.intervals[i].is_live_at(op_index) {
                live.push(self.intervals[i].tensor_id);
            }
            i = i + 1;
        }
        live
    }

    /// This is the analysis of the problem.
    pub open spec fn is_of(&self, p: Problem, meta: Seq<TensorMeta>) -> bool {
        &&& self.intervals@.len() == p.tensors@.len()
        &&& forall|t: int| 0 <= t < p.tensors@.len() ==> (#[trigger] self.intervals@[t]).is_of(p, meta, t)
        &&& by_falling_priority(self.priority_order@, p, meta)
        &&& self.max_live_tensors == peak_count(p, meta, p.ops@.len())
        &&& self.max_live_bytes == peak_bytes(p, meta, p.ops@.len())
        &&& forall|t: usize| #[trigger]
            self.guaranteed_sram@.contains(t) <==> t < p.tensors@.len() && meta[t as int].consumers@.len() >= 3
                && p.tensors@[t as int].area() <= arith::quotient(p.fast_memory_capacity as int, 10)
    }
}

/// The keys rank the tensors by falling priority.
pub open spec fn ranks_by_priority(keys: Seq<SortKey>, p: Problem, meta: Seq<TensorMeta>) -> bool {
    &&& keys.len() == p.tensors@.len()
    &&& forall|t: int| 0 <= t < keys.len() ==> sorting::has_key(#[trigger] keys[t], -priority_of(p, meta, t), 0, 0)
}

/// The order lists all tensors by falling priority; those of equal priority keep their order.
pub open spec fn by_falling_priority(order: Seq<TensorId>, p: Problem, meta: Seq<TensorMeta>) -> bool {
    exists|keys: Seq<SortKey>| #[trigger]
        ranks_by_priority(keys, p, meta) && sorting::is_stable_order(keys, order)
}

/// The numbers of the analysis are numbers of the machine.
pub open spec fn liveness_fits(p: Problem, meta: Seq<TensorMeta>) -> bool {
    &&& forall|t: int|
        0 <= t < p.tensors@.len() ==> arith::fits((#[trigger] p.tensors@[t]).area()) && arith::fits(
            priority_of(p, meta, t),
        )
    &&& forall|op: int| 0 <= op < p.ops@.len() ==> arith::fits(#[trigger] live_bytes(p, meta, op, p.tensors@.len()))
}

fn find_start(m: &TensorMeta, n: usize) -> (start: usize)
    ensures
        start == start_of(*m, n as nat),
{
    if let Some(p) = m.producer {
        if p < n {
            return p;
        }
    }
    let mut first: usize = n;
    let mut i: usize = 0;
    while i < m.consumers.len()
        invariant
            i <= m.consumers.len(),
            first == first_consumer(m.consumers@, n as nat, i as nat),
        decreases m.consumers.len() - i,
    {
        if m.consumers[i] < first {
            first = m.consumers[i];
        }
        i = i + 1;
    }
    if first < n {
        first
    } else {
        0
    }
}

fn find_end(m: &TensorMeta, n: usize) -> (end: usize)
    ensures
        end == end_of(*m, n as nat),
{
    let mut found: bool = false;
    let mut last: usize = 0;
    let mut i: usize = 0;
    while i < m.consumers.len()
        invariant
            i <= m.consumers.len(),
            last_consumer(m.consumers@, n as nat, i as nat) == if found { last as int } else { -1 },
        decreases m.consumers.len() - i,
    {
        let c: OpId = m.consumers[i];
        if c < n {
            if !found || c > last {
                last = c;
            }
            found = true;
        }
        i = i + 1;
    }
    if found {
        last
    } else {
        find_start(m, n)
    }
}

fn find_interval(problem: &Problem, tensor_meta: &[TensorMeta], t: usize) -> (interval: LivenessInterval)
    requires
        t < tensor_meta@.len(),
        t < problem.tensors@.len(),
        arith::fits(problem.tensors@[t as int].area()),
        arith::fits(priority_of(*problem, tensor_meta@, t as int)),
    ensures
        interval.is_of(*problem, tensor_meta@, t as int),
{
    let m: &TensorMeta = &tensor_meta[t];
    let n: usize = problem.ops.len();
    let mut interval: LivenessInterval = LivenessInterval {
        tensor_id: t,
        producer: m.producer,
        consumers: models::copy_ids(m.consumers.as_slice()),
        start: find_start(m, n),
        end: find_end(m, n),
        reuse_count: m.consumers.len(),
        size: problem.tensors[t].size(),
        sram_priority: 0,
    };
    interval.calculate_priority();
    interval
}

/// Finds the lifetimes of all tensors, and what follows from them.
pub fn analyze_liveness(problem: &Problem, tensor_meta: &[TensorMeta]) -> (analysis: LivenessAnalysis)
    requires
        tensor_meta@.len() >= problem.tensors@.len(),
        liveness_fits(*problem, tensor_meta@),
    ensures
        analysis.is_of(*problem, tensor_meta@),
{
    broadcast use vstd::std_specs::hash::group_hash_axioms;

    let ghost p = *problem;
    let ghost meta = tensor_meta@;
    let num_tensors: usize = problem.tensors.len();
    let num_ops: usize = problem.ops.len();
    let small: i64 = problem.fast_memory_capacity / 10;
    let mut intervals: Vec<LivenessInterval> = Vec::new();
    let mut keys: Vec<SortKey> = Vec::new();
    let mut guaranteed_sram: HashSet<TensorId> = HashSet::new();
    let mut t: usize = 0;
    while t < num_tensors
        invariant
            t <= num_tensors,
            num_tensors == p.tensors@.len(),
            p == *problem,
            meta == tensor_meta@,
            meta.len() >= num_tensors,
            liveness_fits(p, meta),
            small == arith::quotient(p.fast_memory_capacity as int, 10),
            intervals.len() == t,
            keys.len() == t,
            forall|x: int| 0 <= x < t ==> (#[trigger] intervals@[x]).is_of(p, meta, x),
            forall|x: int| 0 <= x < t ==> sorting::has_key(#[trigger] keys@[x], -priority_of(p, meta, x), 0, 0),
            forall|x: usize| #[trigger]
                guaranteed_sram@.contains(x) <==> x < t && meta[x as int].consumers@.len() >= 3
                    && p.tensors@[x as int].area() <= small,
        decreases num_tensors - t,
    {
        assert(arith::fits(p.tensors@[t as int].area()));
        let interval: LivenessInterval = find_interval(problem, tensor_meta, t);
        keys.push((-(interval.sram_priority as i128), 0, 0));
        if interval.reuse_count >= 3 && interval.size <= small {
            guaranteed_sram.insert(t);
        }
        intervals.push(interval);
        t = t + 1;
    }
    let priority_order: Vec<TensorId> = sorting::stable_order(&keys);
    assert(ranks_by_priority(keys@, p, meta));
    let mut max_live_tensors: usize = 0;
    let mut max_live_bytes: i64 = 0;
    let mut op: usize = 0;
    while op < num_ops
        invariant
            op <= num_ops,
            num_ops == p.ops@.len(),
            num_tensors == p.tensors@.len(),
            liveness_fits(p, meta),
            intervals.len() == num_tensors,
            forall|x: int| 0 <= x < num_tensors ==> (#[trigger] intervals@[x]).is_of(p, meta, x),
            max_live_tensors == peak_count(p, meta, op as nat),
            max_live_bytes == peak_bytes(p, meta, op as nat),
        decreases num_ops - op,
    {
        let mut count: usize = 0;
        let mut bytes: i128 = 0;
        let mut i: usize = 0;
        while i < num_tensors
            invariant
                i <= num_tensors,
                num_tensors == p.tensors@.len(),
                intervals.len() == num_tensors,
                forall|x: int| 0 <= x < num_tensors ==> (#[trigger] intervals@[x]).is_of(p, meta, x),
                count <= i,
                count == live_count(p, meta, op as int, i as nat),
                bytes == live_bytes(p, meta, op as int, i as nat),
                -(i * 0x8000_0000_0000_0000) <= bytes <= i * 0x8000_0000_0000_0000,
            decreases num_tensors - i,
        {
            assert(intervals@[i as int].is_of(p, meta, i as int));
            assert(i * 0x8000_0000_0000_0000 <= 0xffff_ffff_ffff_ffff * 0x8000_0000_0000_0000) by (nonlinear_arith)
                requires
                    i <= 0xffff_ffff_ffff_ffff,
            ;
            if intervals[i].is_live_at(op) {
                count = count + 1;
                bytes = bytes + intervals[i].size as i128;
            }
            i = i + 1;
        }
        assert(arith::fits(live_bytes(p, meta, op as int, p.tensors@.len())));
        max_live_tensors = arith::greatest_count(max_live_tensors, count);
        max_live_bytes = arith::greatest_of(max_live_bytes, bytes as i64);
        op = op + 1;
    }
    LivenessAnalysis { intervals, priority_order, max_live_tensors, max_live_bytes, guaranteed_sram }
}

/// How fast memory is divided up.
#[derive(Debug, Clone)]
pub struct SramReservation {
    /// The tensors that stay in fast memory.
    pub guaranteed_tensors: Vec<TensorId>,
    /// The size of those tensors.
    pub guaranteed_bytes: i64,
    /// What is left for the working set.
    pub working_capacity: i64,
    /// The part of it that serves double buffering.
    pub double_buffer_capacity: i64,
}

/// The sizes of the listed tensors, as numbers.
pub open spec fn interval_totals(intervals: Seq<LivenessInterval>, listed: Seq<TensorId>) -> Seq<int> {
    listed.map_values(|t: usize| intervals[t as int].size as int)
}

/// Divides fast memory: half of it for tensors with more than one use, the rest for work.
pub fn compute_sram_reservation(analysis: &LivenessAnalysis, available_capacity: i64) -> (r: SramReservation)
    requires
        analysis.is_listing(),
        arith::fits(
            arith::sum(
                interval_totals(
                    analysis.intervals@,
                    candidates(
                        analysis.intervals@,
                        analysis.priority_order@,
                        arith::quotient(available_capacity as int, 2),
                    ),
                ),
            ),
        ),
    ensures
        r.guaranteed_tensors@ == candidates(
            analysis.intervals@,
            analysis.priority_order@,
            arith::quotient(available_capacity as int, 2),
        ),
        r.guaranteed_bytes == arith::sum(interval_totals(analysis.intervals@, r.guaranteed_tensors@)),
        r.working_capacity == available_capacity - arith::quotient(available_capacity as int, 2),
        r.double_buffer_capacity == arith::quotient(r.working_capacity as int, 2),
{
    let guaranteed_capacity: i64 = available_capacity / 2;
    let working_capacity: i64 = available_capacity - guaranteed_capacity;
    let guaranteed_tensors: Vec<TensorId> = analysis.get_sram_candidates(guaranteed_capacity);
    let ghost intervals = analysis.intervals@;
    let ghost order = analysis.priority_order@;
    proof {
        lemma_candidates_are_listed(intervals, order, guaranteed_capacity as int);
    }
    let mut sizes: Vec<i64> = Vec::new();
    let mut i: usize = 0;
    while i < guaranteed_tensors.len()
        invariant
            i <= guaranteed_tensors.len(),
            analysis.is_listing(),
            intervals == analysis.intervals@,
            order == analysis.priority_order@,
            forall|j: int| 0 <= j < guaranteed_tensors.len() ==> order.contains(#[trigger] guaranteed_tensors@[j]),
            sizes.len() == i,
            forall|j: int| 0 <= j < i ==> #[trigger] sizes@[j] == intervals[guaranteed_tensors@[j] as int].size,
        decreases guaranteed_tensors.len() - i,
    {
        assert(order.contains(guaranteed_tensors@[i as int]));
        sizes.push(analysis.intervals[guaranteed_tensors[i]].size);
        i = i + 1;
    }
    let total: i128 = arith::wide_total(&sizes);
    assert(arith::ints(sizes@) =~= interval_totals(intervals, guaranteed_tensors@));
    SramReservation {
        guaranteed_tensors,
        guaranteed_bytes: total as i64,
        working_capacity,
        double_buffer_capacity: working_capacity / 2,
    }
}

proof fn lemma_reused_are_listed(intervals: Seq<LivenessInterval>, order: Seq<TensorId>, k: nat)
    requires
        k <= order.len(),
    ensures
        forall|j: int|
            0 <= j < reused(intervals, order, k).len() ==> order.contains(#[trigger] reused(intervals, order, k)[j])
                && intervals[reused(intervals, order, k)[j] as int].reuse_count > 1,
    decreases k,
{
    if k > 0 {
        lemma_reused_are_listed(intervals, order, (k - 1) as nat);
        let before = reused(intervals, order, (k - 1) as nat);
        let now = reused(intervals, order, k);
        assert forall|j: int| 0 <= j < now.len() implies order.contains(#[trigger] now[j])
            && intervals[now[j] as int].reuse_count > 1 by {
            if j < before.len() {
                assert(now[j] == before[j]);
            } else {
                assert(now[j] == order[k - 1]);
            }
        }
    }
}

proof fn lemma_candidates_are_listed(intervals: Seq<LivenessInterval>, order: Seq<TensorId>, capacity: int)
    ensures
        forall|j: int|
            0 <= j < candidates(intervals, order, capacity).len() ==> order.contains(
                #[trigger] candidates(intervals, order, capacity)[j],
            ) && intervals[candidates(intervals, order, capacity)[j] as int].reuse_count > 1,
{
    let listed = reused(intervals, order, order.len());
    let sizes = interval_sizes(intervals, listed);
    let picked = candidates(intervals, order, capacity);
    lemma_reused_are_listed(intervals, order, order.len());
    greedy::lemma_taken_are_items(listed, sizes, greedy::in_sequence(listed.len()), capacity, listed.len());
    assert forall|j: int| 0 <= j < picked.len() implies order.contains(#[trigger] picked[j])
        && intervals[picked[j] as int].reuse_count > 1 by {
        assert(listed.contains(picked[j]));
        let i = choose|i: int| 0 <= i < listed.len() && listed[i] == picked[j];
        assert(order.contains(listed[i]));
    }
}

/// The candidates for fast memory fit together in the capacity, and each has more than one use.
pub proof fn candidates_fit(intervals: Seq<LivenessInterval>, order: Seq<TensorId>, capacity: int)
    requires
        capacity >= 0,
    ensures
        arith::sum(interval_totals(intervals, candidates(intervals, order, capacity))) <= capacity,
        forall|j: int|
            0 <= j < candidates(intervals, order, capacity).len() ==> intervals[#[trigger] candidates(
                intervals,
                order,
                capacity,
            )[j] as int].reuse_count > 1,
{
    let listed = reused(intervals, order, order.len());
    let sizes = interval_sizes(intervals, listed);
    let seq = greedy::in_sequence(listed.len());
    lemma_candidates_are_listed(intervals, order, capacity);
    greedy::choice_stays_in_budget(sizes, seq, capacity, listed.len());
    greedy::lemma_used_is_sum(
        listed,
        sizes,
        seq,
        capacity,
        listed.len(),
        |t: usize| intervals[t as int].size as int,
    );
}

/// A tensor lives at least until each of its consumers, and a graph input is alive at all of them.
pub proof fn alive_until_consumed(m: TensorMeta, n: nat, i: int)
    requires
        0 <= i < m.consumers@.len(),
        m.consumers@[i] < n,
    ensures
        m.consumers@[i] <= end_of(m, n),
        m.producer is None ==> start_of(m, n) <= m.consumers@[i],
{
    lemma_last_consumer(m.consumers@, n, m.consumers@.len(), i);
    lemma_first_consumer(m.consumers@, n, m.consumers@.len(), i);
}

proof fn lemma_first_consumer(consumers: Seq<OpId>, n: nat, k: nat, i: int)
    requires
        0 <= i < k <= consumers.len(),
    ensures
        first_consumer(consumers, n, k) <= consumers[i],
    decreases k,
{
    if i < k - 1 {
        lemma_first_consumer(consumers, n, (k - 1) as nat, i);
    }
}

proof fn lemma_last_consumer(consumers: Seq<OpId>, n: nat, k: nat, i: int)
    requires
        0 <= i < k <= consumers.len(),
        consumers[i] < n,
    ensures
        consumers[i] <= last_consumer(consumers, n, k),
    decreases k,
{
    if i < k - 1 {
        lemma_last_consumer(consumers, n, (k - 1) as nat, i);
    }
}

/// At no operation is more alive than at the peaks.
pub proof fn peaks_bound_every_operation(p: Problem, meta: Seq<TensorMeta>, m: nat, op: int)
    requires
        0 <= op < m,
    ensures
        live_count(p, meta, op, p.tensors@.len()) <= peak_count(p, meta, m),
        live_bytes(p, meta, op, p.tensors@.len()) <= peak_bytes(p, meta, m),
    decreases m,
{
    if op < m - 1 {
        peaks_bound_every_operation(p, meta, (m - 1) as nat, op);
    }
}

/// The largest number of parts into which the inner dimension is cut.
pub const MAX_SPLIT_K: i64 = 4;

/// The number of parts for `bytes` of work in a memory of `room`: one if the work fits,
/// two if it fits `twice` times over, else the largest number.
pub open spec fn parts_for(bytes: int, room: int, twice: int) -> int {
    if bytes <= room {
        1
    } else if room < 0 || bytes <= twice * room {
        2
    } else {
        MAX_SPLIT_K as int
    }
}

fn choose_parts(bytes: i64, room: i64, twice: i64) -> (parts: i64)
    requires
        0 <= twice <= 4,
    ensures
        parts == parts_for(bytes as int, room as int, twice as int),
{
    assert(-0x2_0000_0000_0000_0000 <= twice * room <= 0x2_0000_0000_0000_0000) by (nonlinear_arith)
        requires
            0 <= twice <= 4,
            -0x8000_0000_0000_0000 <= room <= 0x7fff_ffff_ffff_ffff,
    ;
    if bytes <= room {
        1
    } else if room < 0 || bytes as i128 <= twice as i128 * room as i128 {
        2
    } else {
        MAX_SPLIT_K
    }
}

/// Into how many parts the inner dimension must be cut to fit in four fifths of fast memory.
pub fn compute_dynamic_split_k(k_dimension: i64, bytes_per_element: i64, fast_memory_capacity: i64) -> (parts: i64)
    requires
        arith::fits(k_dimension * bytes_per_element),
    ensures
        parts == parts_for(k_dimension * bytes_per_element, arith::share(fast_memory_capacity as int, 80), 2),
{
    let room: i64 = arith::share_of(fast_memory_capacity, 80);
    choose_parts(k_dimension * bytes_per_element, room, 2)
}

/// What a matrix product holds: both inputs, the output and an accumulator of its size.
pub open spec fn product_bytes(input_a_size: int, input_b_size: int, output_size: int) -> int {
    input_a_size + input_b_size + output_size * 2
}

/// Into how many parts a matrix product must be cut to fit in four fifths of fast memory.
pub fn compute_matmul_split_k(input_a_size: i64, input_b_size: i64, output_size: i64, fast_memory_capacity: i64) -> (parts:
    i64)
    requires
        arith::fits(input_a_size + input_b_size),
        arith::fits(output_size * 2),
        arith::fits(product_bytes(input_a_size as int, input_b_size as int, output_size as int)),
    ensures
        parts == parts_for(
            product_bytes(input_a_size as int, input_b_size as int, output_size as int),
            arith::share(fast_memory_capacity as int, 80),
            2,
        ),
{
    let room: i64 = arith::share_of(fast_memory_capacity, 80);
    choose_parts(input_a_size + input_b_size + output_size * 2, room, 2)
}

/// The part of fast memory that may be filled when slots are trusted: 98 hundredths.
pub fn compute_98percent_sram_utilization(fast_memory_capacity: i64) -> (room: i64)
    ensures
        room == arith::share(fast_memory_capacity as int, 98),
{
    arith::share_of(fast_memory_capacity, 98)
}

/// Into how many parts a matrix product must be cut when 98 hundredths of fast memory may be filled.
pub fn optimize_split_k_with_sram_98(
    input_a_size: i64,
    input_b_size: i64,
    output_size: i64,
    fast_memory_capacity: i64,
) -> (parts: i64)
    requires
        arith::fits(input_a_size + input_b_size),
        arith::fits(output_size * 2),
        arith::fits(product_bytes(input_a_size as int, input_b_size as int, output_size as int)),
    ensures
        parts == parts_for(
            product_bytes(input_a_size as int, input_b_size as int, output_size as int),
            arith::share(fast_memory_capacity as int, 98),
            3,
        ),
{
    let room: i64 = compute_98percent_sram_utilization(fast_memory_capacity);
    choose_parts(input_a_size + input_b_size + output_size * 2, room, 3)
}

/// The number of parts is 1, 2 or 4, it never falls as the work grows, and it is 1
/// exactly where the work fits.
pub proof fn parts_grow_with_work(less: int, more: int, room: int, twice: int)
    requires
        less <= more,
        twice >= 1,
    ensures
        parts_for(less, room, twice) == 1 || parts_for(less, room, twice) == 2 || parts_for(less, room, twice) == 4,
        parts_for(less, room, twice) <= parts_for(more, room, twice),
        parts_for(less, room, twice) == 1 <==> less <= room,
{
}

/// The operation produces a result of the graph.
pub open spec fn makes_result(meta: Seq<TensorMeta>, op: usize) -> bool {
    exists|t: int| 0 <= t < meta.len() && (#[trigger] meta[t]).is_output && meta[t].producer == Some(op)
}

/// A result of the graph depends on the operation: the operation is reached, from
/// consumers to producers, from one that makes a result.
pub open spec fn is_needed(p: Problem, meta: Seq<TensorMeta>, op: usize) -> bool {
    exists|last: usize|
        last < p.ops@.len() && makes_result(meta, last) && #[trigger] components::connected(
            dataflow::predecessors(p.ops@, meta),
            last,
            op,
        )
}

/// The operations on which no result depends.
pub fn compute_recursive_dce_from_finals(problem: &Problem, tensor_meta: &[TensorMeta]) -> (dropped: HashSet<OpId>)
    ensures
        forall|op: OpId| #[trigger]
            dropped@.contains(op) <==> op < problem.ops@.len() && !is_needed(*problem, tensor_meta@, op),
{
    broadcast use vstd::std_specs::hash::group_hash_axioms;

    let n: usize = problem.ops.len();
    let ghost p = *problem;
    let ghost meta = tensor_meta@;
    let upstream: Vec<Vec<OpId>> = dataflow::predecessor_lists(problem, tensor_meta);
    let ghost g = dataflow::predecessors(p.ops@, meta);
    let mut last: Vec<bool> = Vec::new();
    let mut i: usize = 0;
    while i < n
        invariant
            i <= n,
            last.len() == i,
            forall|j: int| 0 <= j < i ==> !#[trigger] last@[j],
        decreases n - i,
    {
        last.push(false);
        i = i + 1;
    }
    let mut t: usize = 0;
    while t < tensor_meta.len()
        invariant
            t <= meta.len(),
            meta == tensor_meta@,
            last.len() == n,
            forall|op: usize|
                op < n ==> (#[trigger] last@[op as int] <==> exists|x: int|
                    0 <= x < t && (#[trigger] meta[x]).is_output && meta[x].producer == Some(op)),
        decreases meta.len() - t,
    {
        let ghost before = last@;
        let m: &TensorMeta = &tensor_meta[t];
        if m.is_output {
            if let Some(op) = m.producer {
                if op < n {
                    last.set(op, true);
                }
            }
        }
        proof {
            assert forall|op: usize| op < n implies (#[trigger] last@[op as int] <==> exists|x: int|
                0 <= x < t + 1 && (#[trigger] meta[x]).is_output && meta[x].producer == Some(op)) by {
                assert(before[op as int] || !before[op as int]);
                if last@[op as int] && !before[op as int] {
                    assert(meta[t as int].is_output && meta[t as int].producer == Some(op));
                }
            }
        }
        t = t + 1;
    }
    assert(graph::lists(upstream@).len() == n);
    let owner: Vec<usize> = components::find_owners(&upstream, &last);
    let mut dropped: HashSet<OpId> = HashSet::new();
    let mut op: usize = 0;
    while op < n
        invariant
            op <= n,
            n == p.ops@.len(),
            n == g.len(),
            owner.len() == n,
            last.len() == n,
            g == dataflow::predecessors(p.ops@, meta),
            forall|op: usize| op < n ==> (#[trigger] last@[op as int] <==> makes_result(meta, op)),
            forall|v: usize| v < n ==> #[trigger] components::is_owner(g, last@, n as int, v, owner@[v as int], n),
            forall|x: OpId| #[trigger] dropped@.contains(x) <==> x < op && !is_needed(p, meta, x),
        decreases n - op,
    {
        proof {
            assert(components::is_owner(g, last@, n as int, op, owner@[op as int], n));
            assert(owner@[op as int] == n <==> !is_needed(p, meta, op)) by {
                if owner@[op as int] == n {
                    if is_needed(p, meta, op) {
                        let s = choose|s: usize|
                            s < p.ops@.len() && makes_result(meta, s) && #[trigger] components::connected(g, s, op);
                        assert(last@[s as int]);
                    }
                } else {
                    let s = owner@[op as int];
                    assert(last@[s as int]);
                    assert(components::connected(g, s, op));
                }
            }
        }
        if owner[op] == n {
            dropped.insert(op);
        }
        op = op + 1;
    }
    dropped
}

/// A walk over the tiles of a tensor.
#[derive(Debug, Clone)]
pub struct SnakePath {
    /// The tiles as rows and columns, in the order of the walk.
    pub tile_order: Vec<(usize, usize)>,
    /// The first and the last column of each row.
    pub row_spans: Vec<(usize, usize)>,
    /// An estimate of the cache hits between neighbouring tiles.
    pub estimated_cache_hits: i64,
}

/// The first and the last column of a row of the walk.
pub open spec fn span_of(w: int, row: int) -> (int, int) {
    if row % 2 == 0 {
        (0, w - 1)
    } else {
        (w - 1, 0)
    }
}

/// An eighth of a tile for each step of the walk.
pub open spec fn cache_hits(w: int, h: int, tile_width: int, tile_height: int) -> int {
    arith::quotient(tile_height * tile_width, 8) * (w * h - 1)
}

/// Walks over the tiles of a tensor, turning round at the end of each row.
pub fn compute_snake_path_tiling(tensor_width: i64, tensor_height: i64, tile_width: i64, tile_height: i64) -> (path:
    SnakePath)
    requires
        tile_width != 0,
        tile_height != 0,
        arith::fits(tensor_width + tile_width),
        arith::fits(tensor_width + tile_width - 1),
        arith::fits(tensor_height + tile_height),
        arith::fits(tensor_height + tile_height - 1),
        1 <= Granularity::tiles_along(tensor_width as int, tile_width as int) <= i64::MAX,
        1 <= Granularity::tiles_along(tensor_height as int, tile_height as int) <= i64::MAX,
        Granularity::tiles_along(tensor_width as int, tile_width as int) <= usize::MAX,
        Granularity::tiles_along(tensor_height as int, tile_height as int) <= usize::MAX,
        Granularity::tiles_along(tensor_width as int, tile_width as int) * Granularity::tiles_along(
            tensor_height as int,
            tile_height as int,
        ) <= usize::MAX,
        Granularity::tiles_along(tensor_width as int, tile_width as int) * Granularity::tiles_along(
            tensor_height as int,
            tile_height as int,
        ) <= i64::MAX,
        arith::fits(tile_height * tile_width),
        arith::fits(
            cache_hits(
                Granularity::tiles_along(tensor_width as int, tile_width as int),
                Granularity::tiles_along(tensor_height as int, tile_height as int),
                tile_width as int,
                tile_height as int,
            ),
        ),
    ensures
        ({
            let w = Granularity::tiles_along(tensor_width as int, tile_width as int);
            let h = Granularity::tiles_along(tensor_height as int, tile_height as int);
            &&& snake::is_walk(path.tile_order@, w, h)
            &&& path.row_spans@.len() == h
            &&& forall|row: int|
                0 <= row < h ==> (#[trigger] path.row_spans@[row]).0 == span_of(w, row).0 && path.row_spans@[row].1
                    == span_of(w, row).1
            &&& path.estimated_cache_hits == cache_hits(w, h, tile_width as int, tile_height as int)
        }),
{
    let ghost wide = Granularity::tiles_along(tensor_width as int, tile_width as int);
    let ghost high = Granularity::tiles_along(tensor_height as int, tile_height as int);
    let w_sum: i64 = tensor_width + tile_width - 1;
    let h_sum: i64 = tensor_height + tile_height - 1;
    assert(0x8000_0000_0000_0000int / (-1) == -0x8000_0000_0000_0000) by (nonlinear_arith);
    let w: usize = (w_sum / tile_width) as usize;
    let h: usize = (h_sum / tile_height) as usize;
    assert(w == wide && h == high);
    let tile_order: Vec<(usize, usize)> = snake::walk_grid(w, h);
    let mut row_spans: Vec<(usize, usize)> = Vec::new();
    let mut row: usize = 0;
    while row < h
        invariant
            row <= h,
            w >= 1,
            row_spans.len() == row,
            forall|r: int|
                0 <= r < row ==> (#[trigger] row_spans@[r]).0 == span_of(w as int, r).0 && row_spans@[r].1 == span_of(
                    w as int,
                    r,
                ).1,
        decreases h - row,
    {
        if row % 2 == 0 {
            row_spans.push((0, w - 1));
        } else {
            row_spans.push((w - 1, 0));
        }
        row = row + 1;
    }
    let overlap: i64 = tile_height * tile_width / 8;
    assert(w * h >= 1) by (nonlinear_arith)
        requires
            w >= 1,
            h >= 1,
    ;
    let steps: i64 = (w * h - 1) as i64;
    SnakePath { tile_order, row_spans, estimated_cache_hits: overlap * steps }
}

} // verus!
