//! Keeping tensors that are used again and again in fast memory.
use std::collections::HashSet;
use vstd::prelude::*;
use crate::arith;
use crate::greedy;
use crate::ids;
use crate::models;
use crate::models::{OpId, Problem, TensorId, TensorMeta};
use crate::sorting;
use crate::sorting::SortKey;

verus! {

/// The part that a tensor plays.
#[derive(Debug, Clone, Copy, PartialEq, Eq, Structural)]
pub enum TensorRole {
    /// It is only read.
    Weight,
    /// It is produced and consumed.
    Activation,
    /// It is a result.
    Output,
    /// It is an input that nothing consumes.
    InOut,
}

/// What is known of the uses of a tensor.
#[derive(Debug)]
pub struct WeightInfo {
    pub tensor_id: TensorId,
    pub role: TensorRole,
    pub consumers: Vec<OpId>,
    pub size: i64,
    /// The tensor should stay in fast memory.
    pub sticky: bool,
    /// The higher, the more it is worth to keep the tensor.
    pub retention_priority: i64,
    /// The reads that keeping the tensor saves.
    pub bandwidth_savings: i64,
}

/// What is known of the uses of all tensors.
#[derive(Debug)]
pub struct WeightAnalysis {
    pub tensor_info: Vec<WeightInfo>,
    /// The tensors that should stay in fast memory.
    pub sticky_tensors: HashSet<TensorId>,
    /// The size of those tensors.
    pub sticky_total_size: i64,
    /// The reads that keeping those tensors saves.
    pub total_bandwidth_savings: i64,
}

/// The settings of the analysis.
#[derive(Debug, Clone, Copy)]
pub struct WeightStationaryConfig {
    pub enabled: bool,
    /// The fewest uses of a tensor that is kept.
    pub min_reuse_count: usize,
    /// The part of fast memory that kept tensors may fill, in hundredths.
    pub max_sram_fraction: u8,
    /// The fewest reads that keeping a tensor must save.
    pub min_bandwidth_savings: i64,
    pub include_graph_inputs: bool,
}

impl Default for WeightStationaryConfig {
    fn default() -> (config: Self)
        ensures
            config.enabled,
            config.min_reuse_count == 2,
            config.max_sram_fraction == 30,
            config.min_bandwidth_savings == 1000,
            config.include_graph_inputs,
    {
        WeightStationaryConfig {
            enabled: true,
            min_reuse_count: 2,
            max_sram_fraction: 30,
            min_bandwidth_savings: 1000,
            include_graph_inputs: true,
        }
    }
}

/// The part that a tensor plays, by its producer and whether it is a result.
pub open spec fn role_of(m: TensorMeta) -> TensorRole {
    if m.producer is None {
        if m.is_output {
            TensorRole::InOut
        } else {
            TensorRole::Weight
        }
    } else if m.is_output {
        TensorRole::Output
    } else {
        TensorRole::Activation
    }
}

fn classify_tensor_role(meta: &TensorMeta) -> (role: TensorRole)
    ensures
        role == role_of(*meta),
{
    match meta.producer {
        None => if meta.is_output {
            TensorRole::InOut
        } else {
            TensorRole::Weight
        },
        Some(_) => if meta.is_output {
            TensorRole::Output
        } else {
            TensorRole::Activation
        },
    }
}

/// What a tensor gains in priority by being small and often used.
pub open spec fn reuse_gain(size: int, uses: int) -> int {
    if size > 0 {
        arith::clamped(uses * 10_000_000 / size)
    } else {
        0
    }
}

/// What a tensor gains in priority by the part that it plays.
pub open spec fn role_gain(role: TensorRole) -> int {
    match role {
        TensorRole::Weight => 50_000,
        TensorRole::Activation => 10_000,
        TensorRole::Output => 0,
        TensorRole::InOut => 25_000,
    }
}

/// What it is worth to keep a tensor: the reads saved, and gains for small and often used
/// tensors, for the part that it plays, and for each use.
pub open spec fn retention_priority(size: int, uses: int, role: TensorRole, savings: int) -> int {
    savings + reuse_gain(size, uses) + role_gain(role) + uses * 5000
}

/// What it is worth to keep a tensor.
pub fn calculate_retention_priority(size: i64, reuse_count: usize, role: &TensorRole, bandwidth_savings: i64) -> (priority:
    i64)
    requires
        arith::fits(retention_priority(size as int, reuse_count as int, *role, bandwidth_savings as int)),
    ensures
        priority == retention_priority(size as int, reuse_count as int, *role, bandwidth_savings as int),
{
    let gain: i64 = if size > 0 {
        let scaled: i128 = reuse_count as i128 * 10_000_000;
        arith::clamp(scaled / (size as i128))
    } else {
        0
    };
    let part: i128 = match role {
        TensorRole::Weight => 50_000,
        TensorRole::Activation => 10_000,
        TensorRole::Output => 0,
        TensorRole::InOut => 25_000,
    };
    let priority: i128 = bandwidth_savings as i128 + gain as i128 + part + reuse_count as i128 * 5000;
    priority as i64
}

/// The reads that keeping a tensor saves: all but the first.
pub open spec fn savings_of(size: int, uses: int) -> int {
    if uses > 1 {
        size * (uses - 1)
    } else {
        0
    }
}

/// What keeping tensor `t` saves.
pub open spec fn savings_at(p: Problem, meta: Seq<TensorMeta>, t: int) -> int {
    savings_of(p.tensors@[t].area(), meta[t].consumers@.len() as int)
}

/// What it is worth to keep tensor `t`.
pub open spec fn priority_at(p: Problem, meta: Seq<TensorMeta>, t: int) -> int {
    retention_priority(
        p.tensors@[t].area(),
        meta[t].consumers@.len() as int,
        role_of(meta[t]),
        savings_at(p, meta, t),
    )
}

/// Tensor `t` is a candidate: it has enough uses, keeping it saves enough, and it is an input.
pub open spec fn is_candidate(p: Problem, meta: Seq<TensorMeta>, config: WeightStationaryConfig, t: int) -> bool {
    &&& config.enabled
    &&& meta[t].consumers@.len() >= config.min_reuse_count
    &&& savings_at(p, meta, t) >= config.min_bandwidth_savings
    &&& role_of(meta[t]) == TensorRole::Weight || (config.include_graph_inputs && meta[t].producer is None)
}

/// The candidates among the first `k` tensors.
pub open spec fn candidates(p: Problem, meta: Seq<TensorMeta>, config: WeightStationaryConfig, k: nat) -> Seq<TensorId>
    decreases k,
{
    if k == 0 {
        Seq::empty()
    } else {
        let rest = candidates(p, meta, config, (k - 1) as nat);
        if is_candidate(p, meta, config, k - 1) {
            rest.push((k - 1) as usize)
        } else {
            rest
        }
    }
}

/// The sizes of the listed tensors.
pub open spec fn sizes_of(p: Problem, listed: Seq<TensorId>) -> Seq<i64> {
    Seq::new(listed.len(), |i: int| p.tensors@[listed[i] as int].area() as i64)
}

/// The keys rank the listed tensors by what it is worth to keep them.
pub open spec fn ranks_by_worth(keys: Seq<SortKey>, p: Problem, meta: Seq<TensorMeta>, listed: Seq<TensorId>) -> bool {
    &&& keys.len() == listed.len()
    &&& forall|i: int|
        0 <= i < keys.len() ==> sorting::has_key(#[trigger] keys[i], -priority_at(p, meta, listed[i] as int), 0, 0)
}

/// `kept` are the tensors that stay: of the candidates, by falling worth, all that fit in
/// the part of fast memory that is meant for them.
pub open spec fn are_kept(p: Problem, meta: Seq<TensorMeta>, config: WeightStationaryConfig, kept: Seq<TensorId>) -> bool {
    let listed = candidates(p, meta, config, meta.len());
    exists|keys: Seq<SortKey>| #[trigger]
        ranks_by_worth(keys, p, meta, listed) && greedy::is_greedy_choice(
            listed,
            sizes_of(p, listed),
            keys,
            arith::share(p.fast_memory_capacity as int, config.max_sram_fraction as int),
            kept,
        )
}

/// The sizes of the listed tensors, as numbers.
pub open spec fn areas(p: Problem, listed: Seq<TensorId>) -> Seq<int> {
    listed.map_values(|t: usize| p.tensors@[t as int].area())
}

/// What keeping each listed tensor saves.
pub open spec fn savings(p: Problem, meta: Seq<TensorMeta>, listed: Seq<TensorId>) -> Seq<int> {
    listed.map_values(|t: usize| savings_at(p, meta, t as int))
}

/// The numbers of the analysis are numbers of the machine.
pub open spec fn analysis_fits(p: Problem, meta: Seq<TensorMeta>, config: WeightStationaryConfig) -> bool {
    &&& meta.len() <= p.tensors@.len()
    &&& forall|t: int|
        0 <= t < meta.len() ==> {
            &&& arith::fits((#[trigger] p.tensors@[t]).area())
            &&& arith::fits(savings_at(p, meta, t))
            &&& arith::fits(priority_at(p, meta, t))
        }
    &&& forall|kept: Seq<TensorId>| #[trigger]
        are_kept(p, meta, config, kept) ==> arith::fits(arith::sum(areas(p, kept))) && arith::fits(
            arith::sum(savings(p, meta, kept)),
        )
}

impl WeightInfo {
    /// This is what is known of tensor `t`, but for whether it stays.
    pub open spec fn is_of(&self, p: Problem, meta: Seq<TensorMeta>, t: int) -> bool {
        &&& self.tensor_id == t
        &&& self.role == role_of(meta[t])
        &&& self.consumers@ == meta[t].consumers@
        &&& self.size == p.tensors@[t].area()
        &&& self.retention_priority == priority_at(p, meta, t)
        &&& self.bandwidth_savings == savings_at(p, meta, t)
    }
}

impl WeightAnalysis {
    /// This is the analysis of the problem.
    pub open spec fn is_of(&self, p: Problem, meta: Seq<TensorMeta>, config: WeightStationaryConfig) -> bool {
        &&& self.tensor_info@.len() == meta.len()
        &&& forall|t: int|
            0 <= t < meta.len() ==> (#[trigger] self.tensor_info@[t]).is_of(p, meta, t) && self.tensor_info@[t].sticky
                == self.sticky_tensors@.contains(t as usize)
        &&& exists|kept: Seq<TensorId>|
            {
                &&& #[trigger] are_kept(p, meta, config, kept)
                &&& forall|t: usize| #[trigger] self.sticky_tensors@.contains(t) <==> kept.contains(t)
                &&& self.sticky_total_size == arith::sum(areas(p, kept))
                &&& self.total_bandwidth_savings == arith::sum(savings(p, meta, kept))
            }
    }
}

proof fn lemma_candidates(p: Problem, meta: Seq<TensorMeta>, config: WeightStationaryConfig, k: nat)
    requires
        k <= meta.len(),
        meta.len() <= usize::MAX,
    ensures
        forall|i: int|
            0 <= i < candidates(p, meta, config, k).len() ==> (#[trigger] candidates(p, meta, config, k)[i]) < k
                && is_candidate(p, meta, config, candidates(p, meta, config, k)[i] as int),
    decreases k,
{
    if k > 0 {
        lemma_candidates(p, meta, config, (k - 1) as nat);
        let rest = candidates(p, meta, config, (k - 1) as nat);
        let all = candidates(p, meta, config, k);
        assert forall|i: int| 0 <= i < all.len() implies (#[trigger] all[i]) < k && is_candidate(
            p,
            meta,
            config,
            all[i] as int,
        ) by {
            if i < rest.len() {
                assert(all[i] == rest[i]);
            }
        }
    }
}

/// Adds up sizes of listed tensors.
fn add_up(listed: &Vec<TensorId>, numbers: &Vec<i64>) -> (total: i128)
    requires
        forall|i: int| 0 <= i < listed@.len() ==> (#[trigger] listed@[i]) < numbers@.len(),
    ensures
        total == arith::sum(listed@.map_values(|t: usize| numbers@[t as int] as int)),
{
    let mut picked: Vec<i64> = Vec::new();
    let mut i: usize = 0;
    while i < listed.len()
        invariant
            i <= listed.len(),
            forall|i: int| 0 <= i < listed@.len() ==> (#[trigger] listed@[i]) < numbers@.len(),
            picked.len() == i,
            forall|j: int| 0 <= j < i ==> #[trigger] picked@[j] == numbers@[listed@[j] as int],
        decreases listed.len() - i,
    {
        assert(listed@[i as int] < numbers@.len());
        picked.push(numbers[listed[i]]);
        i = i + 1;
    }
    assert(arith::ints(picked@) =~= listed@.map_values(|t: usize| numbers@[t as int] as int));
    arith::wide_total(&picked)
}

/// Finds the tensors that should stay in fast memory.
pub fn analyze_weights(problem: &Problem, tensor_meta: &[TensorMeta], config: &WeightStationaryConfig) -> (analysis:
    WeightAnalysis)
    requires
        config.max_sram_fraction <= 100,
        analysis_fits(*problem, tensor_meta@, *config),
    ensures
        analysis.is_of(*problem, tensor_meta@, *config),
{
    broadcast use vstd::std_specs::hash::group_hash_axioms;

    let ghost p = *problem;
    let ghost meta = tensor_meta@;
    let ghost cfg = *config;
    let room: i64 = arith::share_of(problem.fast_memory_capacity, config.max_sram_fraction);
    let n: usize = tensor_meta.len();
    let mut tensor_info: Vec<WeightInfo> = Vec::new();
    let mut all_sizes: Vec<i64> = Vec::new();
    let mut all_savings: Vec<i64> = Vec::new();
    let mut listed: Vec<TensorId> = Vec::new();
    let mut sizes: Vec<i64> = Vec::new();
    let mut keys: Vec<SortKey> = Vec::new();
    let mut t: usize = 0;
    while t < n
        invariant
            t <= n,
            n == meta.len(),
            p == *problem,
            meta == tensor_meta@,
            cfg == *config,
            analysis_fits(p, meta, cfg),
            tensor_info.len() == t,
            all_sizes.len() == t,
            all_savings.len() == t,
            forall|x: int| 0 <= x < t ==> (#[trigger] tensor_info@[x]).is_of(p, meta, x),
            forall|x: int| 0 <= x < t ==> #[trigger] all_sizes@[x] == p.tensors@[x].area(),
            forall|x: int| 0 <= x < t ==> #[trigger] all_savings@[x] == savings_at(p, meta, x),
            listed@ == candidates(p, meta, cfg, t as nat),
            sizes@ == sizes_of(p, listed@),
            ranks_by_worth(keys@, p, meta, listed@),
        decreases n - t,
    {
        let m: &TensorMeta = &tensor_meta[t];
        assert(arith::fits(p.tensors@[t as int].area()));
        let size: i64 = problem.tensors[t].size();
        let role: TensorRole = classify_tensor_role(m);
        let uses: usize = m.consumers.len();
        let saved: i64 = if uses > 1 {
            multiply(size, uses - 1)
        } else {
            0
        };
        let worth: i64 = calculate_retention_priority(size, uses, &role, saved);
        let wanted: bool = config.enabled && uses >= config.min_reuse_count && saved >= config.min_bandwidth_savings && (
        role == TensorRole::Weight || (config.include_graph_inputs && m.producer.is_none()));
        assert(wanted == is_candidate(p, meta, cfg, t as int));
        if wanted {
            let ghost old_listed = listed@;
            let ghost old_keys = keys@;
            listed.push(t);
            sizes.push(size);
            keys.push((-(worth as i128), 0, 0));
            proof {
                assert(sizes@ =~= sizes_of(p, listed@));
                assert forall|i: int| 0 <= i < keys@.len() implies sorting::has_key(
                    #[trigger] keys@[i],
                    -priority_at(p, meta, listed@[i] as int),
                    0,
                    0,
                ) by {
                    if i < old_keys.len() {
                        assert(keys@[i] == old_keys[i]);
                        assert(listed@[i] == old_listed[i]);
                    }
                }
            }
        }
        tensor_info.push(
            WeightInfo {
                tensor_id: t,
                role,
                consumers: models::copy_ids(m.consumers.as_slice()),
                size,
                sticky: false,
                retention_priority: worth,
                bandwidth_savings: saved,
            },
        );
        all_sizes.push(size);
        all_savings.push(saved);
        t = t + 1;
    }
    let kept: Vec<TensorId> = greedy::choose_greedily(&listed, &sizes, &keys, room);
    proof {
        assert(are_kept(p, meta, cfg, kept@));
        assert(meta.len() <= p.tensors.len());
        lemma_candidates(p, meta, cfg, meta.len());
        let order = choose|order: Seq<usize>| #[trigger]
            sorting::is_stable_order(keys@, order) && kept@ == greedy::taken(
                listed@,
                sizes@,
                order,
                room as int,
                order.len(),
            );
        greedy::lemma_taken_are_items(listed@, sizes@, order, room as int, order.len());
        assert forall|i: int| 0 <= i < kept@.len() implies (#[trigger] kept@[i]) < n by {
            assert(listed@.contains(kept@[i]));
            let j = choose|j: int| 0 <= j < listed@.len() && listed@[j] == kept@[i];
            assert(listed@[j] < meta.len());
        }
    }
    let sticky_tensors: HashSet<TensorId> = ids::set_of(kept.as_slice());
    let total: i128 = add_up(&kept, &all_sizes);
    let saved: i128 = add_up(&kept, &all_savings);
    proof {
        assert(kept@.map_values(|t: usize| all_sizes@[t as int] as int) =~= areas(p, kept@)) by {
            assert forall|i: int| 0 <= i < kept@.len() implies all_sizes@[kept@[i] as int]
                == p.tensors@[kept@[i] as int].area() by {
                assert(kept@[i] < n);
            }
        }
        assert(kept@.map_values(|t: usize| all_savings@[t as int] as int) =~= savings(p, meta, kept@)) by {
            assert forall|i: int| 0 <= i < kept@.len() implies all_savings@[kept@[i] as int] == savings_at(
                p,
                meta,
                kept@[i] as int,
            ) by {
                assert(kept@[i] < n);
            }
        }
    }
    mark_sticky(&mut tensor_info, &sticky_tensors);
    WeightAnalysis {
        tensor_info,
        sticky_tensors,
        sticky_total_size: total as i64,
        total_bandwidth_savings: saved as i64,
    }
}

/// `size` times `count`.
fn multiply(size: i64, count: usize) -> (product: i64)
    requires
        arith::fits(size * count),
    ensures
        product == size * count,
{
    assert(-0x8000_0000_0000_0000 * 0xffff_ffff_ffff_ffff <= size * count <= 0x8000_0000_0000_0000
        * 0xffff_ffff_ffff_ffff) by (nonlinear_arith)
        requires
            -0x8000_0000_0000_0000 <= size < 0x8000_0000_0000_0000,
            0 <= count <= 0xffff_ffff_ffff_ffff,
    ;
    let product: i128 = size as i128 * count as i128;
    product as i64
}

/// Notes for each tensor whether it stays.
fn mark_sticky(infos: &mut Vec<WeightInfo>, sticky: &HashSet<TensorId>)
    ensures
        final(infos)@.len() == old(infos)@.len(),
        forall|t: int|
            0 <= t < old(infos)@.len() ==> {
                let now = #[trigger] final(infos)@[t];
                let was = old(infos)@[t];
                &&& now.tensor_id == was.tensor_id
                &&& now.role == was.role
                &&& now.consumers@ == was.consumers@
                &&& now.size == was.size
                &&& now.retention_priority == was.retention_priority
                &&& now.bandwidth_savings == was.bandwidth_savings
                &&& now.sticky == sticky@.contains(t as usize)
            },
{
    broadcast use vstd::std_specs::hash::group_hash_axioms;

    let ghost was = infos@;
    let mut t: usize = 0;
    while t < infos.len()
        invariant
            t <= infos.len(),
            infos@.len() == was.len(),
            forall|x: int|
                0 <= x < was.len() ==> {
                    let now = #[trigger] infos@[x];
                    &&& now.tensor_id == was[x].tensor_id
                    &&& now.role == was[x].role
                    &&& now.consumers@ == was[x].consumers@
                    &&& now.size == was[x].size
                    &&& now.retention_priority == was[x].retention_priority
                    &&& now.bandwidth_savings == was[x].bandwidth_savings
                    &&& x < t ==> now.sticky == sticky@.contains(x as usize)
                },
        decreases infos.len() - t,
    {
        let stays: bool = sticky.contains(&t);
        let info: WeightInfo = WeightInfo {
            tensor_id: infos[t].tensor_id,
            role: infos[t].role,
            consumers: models::copy_ids(infos[t].consumers.as_slice()),
            size: infos[t].size,
            sticky: stays,
            retention_priority: infos[t].retention_priority,
            bandwidth_savings: infos[t].bandwidth_savings,
        };
        infos.set(t, info);
        t = t + 1;
    }
}

/// The tensors that stay fit together in the part of fast memory that is meant for them.
pub proof fn sticky_tensors_fit(p: Problem, meta: Seq<TensorMeta>, config: WeightStationaryConfig, kept: Seq<TensorId>)
    requires
        are_kept(p, meta, config, kept),
        analysis_fits(p, meta, config),
        meta.len() <= usize::MAX,
        arith::share(p.fast_memory_capacity as int, config.max_sram_fraction as int) >= 0,
    ensures
        arith::sum(areas(p, kept)) <= arith::share(p.fast_memory_capacity as int, config.max_sram_fraction as int),
{
    let listed = candidates(p, meta, config, meta.len());
    let room = arith::share(p.fast_memory_capacity as int, config.max_sram_fraction as int);
    let keys = choose|keys: Seq<SortKey>| #[trigger]
        ranks_by_worth(keys, p, meta, listed) && greedy::is_greedy_choice(
            listed,
            sizes_of(p, listed),
            keys,
            room,
            kept,
        );
    lemma_candidates(p, meta, config, meta.len());
    assert forall|i: int| 0 <= i < listed.len() implies #[trigger] sizes_of(p, listed)[i]
        == p.tensors@[listed[i] as int].area() by {
        assert(listed[i] < meta.len());
        assert(arith::fits(p.tensors@[listed[i] as int].area()));
    }
    greedy::chosen_items_fit(
        listed,
        sizes_of(p, listed),
        keys,
        room,
        kept,
        |t: usize| p.tensors@[t as int].area(),
    );
}

/// One of the operations still to run takes in the tensor.
pub open spec fn has_future(m: TensorMeta, remaining: Set<OpId>) -> bool {
    exists|i: int| 0 <= i < m.consumers@.len() && remaining.contains(#[trigger] m.consumers@[i])
}

fn find_future(m: &TensorMeta, remaining: &HashSet<OpId>) -> (yes: bool)
    ensures
        yes == has_future(*m, remaining@),
{
    broadcast use vstd::std_specs::hash::group_hash_axioms;

    let mut i: usize = 0;
    while i < m.consumers.len()
        invariant
            i <= m.consumers.len(),
            forall|j: int| 0 <= j < i ==> !remaining@.contains(#[trigger] m.consumers@[j]),
        decreases m.consumers.len() - i,
    {
        if remaining.contains(&m.consumers[i]) {
            assert(remaining@.contains(m.consumers@[i as int]));
            return true;
        }
        i = i + 1;
    }
    false
}

impl WeightAnalysis {
    /// Every tensor that should stay is known and described.
    pub open spec fn sticky_known(&self, meta: Seq<TensorMeta>) -> bool {
        forall|t: usize| #[trigger]
            self.sticky_tensors@.contains(t) ==> t < self.tensor_info@.len() && t < meta.len()
    }

    /// Those of the first `k` tensors that should stay and are still needed.
    pub open spec fn sticky_needed(&self, meta: Seq<TensorMeta>, remaining: Set<OpId>, k: nat) -> Seq<TensorId>
        decreases k,
    {
        if k == 0 {
            Seq::empty()
        } else {
            let rest = self.sticky_needed(meta, remaining, (k - 1) as nat);
            let t = (k - 1) as usize;
            if self.sticky_tensors@.contains(t) && has_future(meta[t as int], remaining) {
                rest.push(t)
            } else {
                rest
            }
        }
    }

    /// Those of the first `k` listed tensors that are known and still needed, without
    /// those that should stay anyway.
    pub open spec fn others_needed(
        &self,
        meta: Seq<TensorMeta>,
        remaining: Set<OpId>,
        listed: Seq<TensorId>,
        k: nat,
    ) -> Seq<TensorId>
        decreases k,
    {
        if k == 0 {
            Seq::empty()
        } else {
            let rest = self.others_needed(meta, remaining, listed, (k - 1) as nat);
            let t = listed[k - 1];
            if !self.sticky_tensors@.contains(t) && t < self.tensor_info@.len() && t < meta.len() && has_future(
                meta[t as int],
                remaining,
            ) {
                rest.push(t)
            } else {
                rest
            }
        }
    }

    /// The sizes of the listed tensors.
    pub open spec fn sizes(&self, listed: Seq<TensorId>) -> Seq<i64> {
        Seq::new(listed.len(), |i: int| self.tensor_info@[listed[i] as int].size)
    }

    /// The keys rank the tensors by falling priority; a million comes on top for those
    /// that should stay.
    pub open spec fn ranks(&self, keys: Seq<SortKey>, listed: Seq<TensorId>) -> bool {
        &&& keys.len() == listed.len()
        &&& forall|i: int|
            0 <= i < keys.len() ==> {
                let t = listed[i];
                let boost = if self.sticky_tensors@.contains(t) { 1_000_000int } else { 0 };
                sorting::has_key(
                    #[trigger] keys[i],
                    -(self.tensor_info@[t as int].retention_priority + boost),
                    0,
                    0,
                )
            }
    }

    /// The sizes of the listed tensors, as numbers.
    pub open spec fn size_numbers(&self, listed: Seq<TensorId>) -> Seq<int> {
        listed.map_values(|t: usize| self.tensor_info@[t as int].size as int)
    }
}

/// The tensors that should stay and are still needed, then the others that are.
pub open spec fn retention_list(
    analysis: WeightAnalysis,
    meta: Seq<TensorMeta>,
    remaining: Set<OpId>,
    base: Seq<TensorId>,
) -> Seq<TensorId> {
    analysis.sticky_needed(meta, remaining, analysis.tensor_info@.len()) + analysis.others_needed(
        meta,
        remaining,
        base,
        base.len(),
    )
}

/// `selected` is what is kept: by falling priority, all that fit.
pub open spec fn is_retention(
    selected: Seq<TensorId>,
    analysis: WeightAnalysis,
    meta: Seq<TensorMeta>,
    remaining: Set<OpId>,
    base: Seq<TensorId>,
    capacity: int,
) -> bool {
    let listed = retention_list(analysis, meta, remaining, base);
    exists|keys: Seq<SortKey>| #[trigger]
        analysis.ranks(keys, listed) && greedy::is_greedy_choice(
            listed,
            analysis.sizes(listed),
            keys,
            capacity,
            selected,
        )
}

/// Lists the tensors that should stay and are still needed.
fn list_sticky(weight_analysis: &WeightAnalysis, remaining: &HashSet<OpId>, tensor_meta: &[TensorMeta]) -> (listed: Vec<
    TensorId,
>)
    requires
        weight_analysis.sticky_known(tensor_meta@),
    ensures
        listed@ == weight_analysis.sticky_needed(
            tensor_meta@,
            remaining@,
            weight_analysis.tensor_info@.len(),
        ),
        forall|i: int|
            0 <= i < listed@.len() ==> (#[trigger] listed@[i]) < weight_analysis.tensor_info@.len()
                && weight_analysis.sticky_tensors@.contains(listed@[i]),
{
    broadcast use vstd::std_specs::hash::group_hash_axioms;

    let mut listed: Vec<TensorId> = Vec::new();
    let mut t: usize = 0;
    while t < weight_analysis.tensor_info.len()
        invariant
            t <= weight_analysis.tensor_info.len(),
            weight_analysis.sticky_known(tensor_meta@),
            listed@ == weight_analysis.sticky_needed(tensor_meta@, remaining@, t as nat),
            forall|i: int|
                0 <= i < listed@.len() ==> (#[trigger] listed@[i]) < weight_analysis.tensor_info@.len()
                    && weight_analysis.sticky_tensors@.contains(listed@[i]),
        decreases weight_analysis.tensor_info.len() - t,
    {
        if weight_analysis.sticky_tensors.contains(&t) {
            assert(weight_analysis.sticky_tensors@.contains(t));
            if find_future(&tensor_meta[t], remaining) {
                listed.push(t);
            }
        }
        t = t + 1;
    }
    listed
}

/// Adds up the sizes of listed tensors.
fn add_sizes(weight_analysis: &WeightAnalysis, listed: &Vec<TensorId>) -> (total: i128)
    requires
        forall|i: int| 0 <= i < listed@.len() ==> (#[trigger] listed@[i]) < weight_analysis.tensor_info@.len(),
    ensures
        total == arith::sum(weight_analysis.size_numbers(listed@)),
{
    let mut picked: Vec<i64> = Vec::new();
    let mut i: usize = 0;
    while i < listed.len()
        invariant
            i <= listed.len(),
            forall|i: int| 0 <= i < listed@.len() ==> (#[trigger] listed@[i]) < weight_analysis.tensor_info@.len(),
            picked.len() == i,
            forall|j: int|
                0 <= j < i ==> #[trigger] picked@[j] == weight_analysis.tensor_info@[listed@[j] as int].size,
        decreases listed.len() - i,
    {
        assert(listed@[i as int] < weight_analysis.tensor_info@.len());
        picked.push(weight_analysis.tensor_info[listed[i]].size);
        i = i + 1;
    }
    assert(arith::ints(picked@) =~= weight_analysis.size_numbers(listed@));
    arith::wide_total(&picked)
}

/// Chooses what is kept for the operations still to run, tensors that should stay first,
/// and says how much memory those need.
pub fn enhance_retention_with_weights(
    base_candidates: &[TensorId],
    weight_analysis: &WeightAnalysis,
    remaining_ops: &[OpId],
    _problem: &Problem,
    tensor_meta: &[TensorMeta],
    available_capacity: i64,
) -> (kept: (Vec<TensorId>, i64))
    requires
        weight_analysis.sticky_known(tensor_meta@),
        arith::fits(
            arith::sum(
                weight_analysis.size_numbers(
                    weight_analysis.sticky_needed(
                        tensor_meta@,
                        remaining_ops@.to_set(),
                        weight_analysis.tensor_info@.len(),
                    ),
                ),
            ),
        ),
    ensures
        is_retention(
            kept.0@,
            *weight_analysis,
            tensor_meta@,
            remaining_ops@.to_set(),
            base_candidates@,
            available_capacity as int,
        ),
        kept.1 == arith::sum(
            weight_analysis.size_numbers(
                weight_analysis.sticky_needed(
                    tensor_meta@,
                    remaining_ops@.to_set(),
                    weight_analysis.tensor_info@.len(),
                ),
            ),
        ),
{
    broadcast use vstd::std_specs::hash::group_hash_axioms;

    let ghost a = *weight_analysis;
    let ghost meta = tensor_meta@;
    let remaining: HashSet<OpId> = ids::set_of(remaining_ops);
    assert(remaining@ =~= remaining_ops@.to_set());
    let ghost rem = remaining@;
    let mut listed: Vec<TensorId> = list_sticky(weight_analysis, &remaining, tensor_meta);
    let reserved: i128 = add_sizes(weight_analysis, &listed);
    let ghost first = listed@;
    let mut i: usize = 0;
    while i < base_candidates.len()
        invariant
            i <= base_candidates@.len(),
            a == *weight_analysis,
            meta == tensor_meta@,
            rem == remaining@,
            listed@ == first + a.others_needed(meta, rem, base_candidates@, i as nat),
            forall|j: int| 0 <= j < listed@.len() ==> (#[trigger] listed@[j]) < a.tensor_info@.len(),
        decreases base_candidates@.len() - i,
    {
        let t: TensorId = base_candidates[i];
        if !weight_analysis.sticky_tensors.contains(&t) && t < weight_analysis.tensor_info.len() && t < tensor_meta.len()
            && find_future(&tensor_meta[t], &remaining) {
            listed.push(t);
            assert(listed@ =~= first + a.others_needed(meta, rem, base_candidates@, (i + 1) as nat));
        }
        i = i + 1;
    }
    assert(listed@ == retention_list(a, meta, rem, base_candidates@));
    let mut sizes: Vec<i64> = Vec::new();
    let mut keys: Vec<SortKey> = Vec::new();
    let mut k: usize = 0;
    while k < listed.len()
        invariant
            k <= listed.len(),
            a == *weight_analysis,
            forall|j: int| 0 <= j < listed@.len() ==> (#[trigger] listed@[j]) < a.tensor_info@.len(),
            sizes.len() == k,
            keys.len() == k,
            forall|j: int| 0 <= j < k ==> #[trigger] sizes@[j] == a.tensor_info@[listed@[j] as int].size,
            forall|j: int|
                0 <= j < k ==> {
                    let t = listed@[j];
                    let boost = if a.sticky_tensors@.contains(t) { 1_000_000int } else { 0 };
                    sorting::has_key(
                        #[trigger] keys@[j],
                        -(a.tensor_info@[t as int].retention_priority + boost),
                        0,
                        0,
                    )
                },
        decreases listed.len() - k,
    {
        let t: TensorId = listed[k];
        assert(listed@[k as int] < a.tensor_info@.len());
        let boost: i128 = if weight_analysis.sticky_tensors.contains(&t) {
            1_000_000
        } else {
            0
        };
        sizes.push(weight_analysis.tensor_info[t].size);
        keys.push((-(weight_analysis.tensor_info[t].retention_priority as i128 + boost), 0, 0));
        k = k + 1;
    }
    assert(sizes@ =~= a.sizes(listed@));
    assert(a.ranks(keys@, listed@));
    let selected: Vec<TensorId> = greedy::choose_greedily(&listed, &sizes, &keys, available_capacity);
    (selected, reserved as i64)
}

/// What is kept fits in the capacity.
pub proof fn retained_tensors_fit(
    selected: Seq<TensorId>,
    analysis: WeightAnalysis,
    meta: Seq<TensorMeta>,
    remaining: Set<OpId>,
    base: Seq<TensorId>,
    capacity: int,
)
    requires
        is_retention(selected, analysis, meta, remaining, base, capacity),
        capacity >= 0,
    ensures
        arith::sum(analysis.size_numbers(selected)) <= capacity,
{
    let listed = retention_list(analysis, meta, remaining, base);
    let keys = choose|keys: Seq<SortKey>| #[trigger]
        analysis.ranks(keys, listed) && greedy::is_greedy_choice(
            listed,
            analysis.sizes(listed),
            keys,
            capacity,
            selected,
        );
    greedy::chosen_items_fit(
        listed,
        analysis.sizes(listed),
        keys,
        capacity,
        selected,
        |t: usize| analysis.tensor_info@[t as int].size as int,
    );
}

/// What is kept is kept once, is still needed, and is sticky or one of the other candidates;
/// and a needed tensor is only left out if it no longer fits beside what is kept.
pub proof fn retention_is_full(
    selected: Seq<TensorId>,
    analysis: WeightAnalysis,
    meta: Seq<TensorMeta>,
    remaining: Set<OpId>,
    base: Seq<TensorId>,
    capacity: int,
)
    requires
        is_retention(selected, analysis, meta, remaining, base, capacity),
        base.no_duplicates(),
        analysis.sticky_known(meta),
        forall|t: int| 0 <= t < analysis.tensor_info@.len() ==> (#[trigger] analysis.tensor_info@[t]).size >= 0,
    ensures
        selected.no_duplicates(),
        forall|t: TensorId| #[trigger]
            selected.contains(t) ==> is_retainable(analysis, meta, remaining, base, t),
        forall|t: TensorId|
            is_retainable(analysis, meta, remaining, base, t) && !#[trigger] selected.contains(t) ==> arith::sum(
                analysis.size_numbers(selected),
            ) + analysis.tensor_info@[t as int].size > capacity,
{
    let n = analysis.tensor_info@.len();
    assert(n == analysis.tensor_info.len());
    let listed = retention_list(analysis, meta, remaining, base);
    let sticky = analysis.sticky_needed(meta, remaining, n);
    let others = analysis.others_needed(meta, remaining, base, base.len());
    lemma_sticky_needed(analysis, meta, remaining, n);
    lemma_others_needed(analysis, meta, remaining, base, base.len());
    assert(base.take(base.len() as int) =~= base);
    assert forall|t: usize| #[trigger] listed.contains(t) <==> is_retainable(analysis, meta, remaining, base, t) by {
        ids::lemma_concat_contains(sticky, others, t);
    }
    assert forall|i: int, j: int| 0 <= i < j < listed.len() implies listed[i] != listed[j] by {
        if i < sticky.len() && j >= sticky.len() {
            assert(sticky.contains(listed[i]));
            assert(others[j - sticky.len()] == listed[j]);
            assert(others.contains(listed[j]));
        }
    }
    let keys = choose|keys: Seq<SortKey>| #[trigger]
        analysis.ranks(keys, listed) && greedy::is_greedy_choice(
            listed,
            analysis.sizes(listed),
            keys,
            capacity,
            selected,
        );
    let size_of = |t: usize| analysis.tensor_info@[t as int].size as int;
    assert forall|i: int| 0 <= i < listed.len() implies #[trigger] analysis.sizes(listed)[i] >= 0 by {
        assert(listed.contains(listed[i]));
        assert(analysis.tensor_info@[listed[i] as int].size >= 0);
    }
    assert forall|i: int| 0 <= i < listed.len() implies #[trigger] listed[i] < n by {
        assert(listed.contains(listed[i]));
    }
    crate::graph::lemma_distinct_below(listed, n);
    greedy::choice_is_full(listed, analysis.sizes(listed), keys, capacity, selected, size_of);
    assert(analysis.size_numbers(selected) == selected.map_values(size_of));
    assert forall|t: TensorId| #[trigger] selected.contains(t) implies is_retainable(
        analysis,
        meta,
        remaining,
        base,
        t,
    ) by {
        assert(listed.contains(t));
    }
    assert forall|t: TensorId|
        is_retainable(analysis, meta, remaining, base, t) && !#[trigger] selected.contains(t) implies arith::sum(
        analysis.size_numbers(selected),
    ) + analysis.tensor_info@[t as int].size > capacity by {
        assert(listed.contains(t));
    }
}

/// The tensor is known, still needed, and sticky or one of the other candidates.
pub open spec fn is_retainable(
    analysis: WeightAnalysis,
    meta: Seq<TensorMeta>,
    remaining: Set<OpId>,
    base: Seq<TensorId>,
    t: TensorId,
) -> bool {
    &&& t < analysis.tensor_info@.len()
    &&& t < meta.len()
    &&& has_future(meta[t as int], remaining)
    &&& analysis.sticky_tensors@.contains(t) || base.contains(t)
}

proof fn lemma_sticky_needed(analysis: WeightAnalysis, meta: Seq<TensorMeta>, remaining: Set<OpId>, k: nat)
    requires
        k <= usize::MAX,
    ensures
        analysis.sticky_needed(meta, remaining, k).no_duplicates(),
        forall|t: usize| #[trigger]
            analysis.sticky_needed(meta, remaining, k).contains(t) <==> t < k && analysis.sticky_tensors@.contains(t)
                && has_future(meta[t as int], remaining),
    decreases k,
{
    if k > 0 {
        lemma_sticky_needed(analysis, meta, remaining, (k - 1) as nat);
        let rest = analysis.sticky_needed(meta, remaining, (k - 1) as nat);
        let t = (k - 1) as usize;
        ids::lemma_push_contains(rest, t);
        assert(!rest.contains(t));
        assert(rest.push(t).no_duplicates()) by {
            assert forall|a: int, b: int| 0 <= a < b < rest.push(t).len() implies rest.push(t)[a] != rest.push(t)[b] by {
                if b == rest.len() {
                    assert(rest.contains(rest[a]));
                }
            }
        }
    }
}

proof fn lemma_others_needed(
    analysis: WeightAnalysis,
    meta: Seq<TensorMeta>,
    remaining: Set<OpId>,
    base: Seq<TensorId>,
    k: nat,
)
    requires
        k <= base.len(),
        base.no_duplicates(),
    ensures
        analysis.others_needed(meta, remaining, base, k).no_duplicates(),
        forall|t: usize| #[trigger]
            analysis.others_needed(meta, remaining, base, k).contains(t) <==> base.take(k as int).contains(t)
                && !analysis.sticky_tensors@.contains(t) && t < analysis.tensor_info@.len() && t < meta.len()
                && has_future(meta[t as int], remaining),
    decreases k,
{
    if k > 0 {
        lemma_others_needed(analysis, meta, remaining, base, (k - 1) as nat);
        let rest = analysis.others_needed(meta, remaining, base, (k - 1) as nat);
        let t = base[k - 1];
        let fewer = base.take(k - 1);
        assert(base.take(k as int) =~= fewer.push(t));
        ids::lemma_push_contains(fewer, t);
        ids::lemma_push_contains(rest, t);
        if fewer.contains(t) {
            let i = choose|i: int| 0 <= i < fewer.len() && fewer[i] == t;
            assert(base[i] == base[k - 1]);
        }
        assert(!rest.contains(t));
        assert(rest.push(t).no_duplicates()) by {
            assert forall|a: int, b: int| 0 <= a < b < rest.push(t).len() implies rest.push(t)[a] != rest.push(t)[b] by {
                if b == rest.len() {
                    assert(rest.contains(rest[a]));
                }
            }
        }
    }
}

/// The tensor should stay: it is sticky and one of the next operations takes it in.
pub fn should_retain_tensor(
    tensor_id: TensorId,
    weight_analysis: &WeightAnalysis,
    upcoming_ops: &[OpId],
    tensor_meta: &[TensorMeta],
    lookahead: usize,
) -> (yes: bool)
    requires
        weight_analysis.sticky_tensors@.contains(tensor_id) ==> tensor_id < tensor_meta@.len(),
    ensures
        yes == (weight_analysis.sticky_tensors@.contains(tensor_id) && has_future(
            tensor_meta@[tensor_id as int],
            upcoming_ops@.take(arith::least(upcoming_ops@.len() as int, lookahead as int)).to_set(),
        )),
{
    broadcast use vstd::std_specs::hash::group_hash_axioms;

    if !weight_analysis.sticky_tensors.contains(&tensor_id) {
        return false;
    }
    let ghost next = upcoming_ops@.take(arith::least(upcoming_ops@.len() as int, lookahead as int));
    let count: usize = arith::least_count(upcoming_ops.len(), lookahead);
    let mut near: HashSet<OpId> = HashSet::new();
    let mut i: usize = 0;
    while i < count
        invariant
            i <= count,
            count == next.len(),
            count <= upcoming_ops@.len(),
            next == upcoming_ops@.take(count as int),
            near@ == next.take(i as int).to_set(),
        decreases count - i,
    {
        near.insert(upcoming_ops[i]);
        proof {
            assert(next.take(i + 1) =~= next.take(i as int).push(next[i as int]));
            ids::lemma_push_contains(next.take(i as int), next[i as int]);
            assert(near@ =~= next.take(i + 1).to_set());
        }
        i = i + 1;
    }
    assert(next.take(i as int) =~= next);
    find_future(&tensor_meta[tensor_id], &near)
}

/// The memory that the tensors need that should stay and are still needed.
pub fn calculate_sticky_reservation(
    weight_analysis: &WeightAnalysis,
    remaining_ops: &[OpId],
    tensor_meta: &[TensorMeta],
) -> (bytes: i64)
    requires
        weight_analysis.sticky_known(tensor_meta@),
        arith::fits(
            arith::sum(
                weight_analysis.size_numbers(
                    weight_analysis.sticky_needed(
                        tensor_meta@,
                        remaining_ops@.to_set(),
                        weight_analysis.tensor_info@.len(),
                    ),
                ),
            ),
        ),
    ensures
        bytes == arith::sum(
            weight_analysis.size_numbers(
                weight_analysis.sticky_needed(
                    tensor_meta@,
                    remaining_ops@.to_set(),
                    weight_analysis.tensor_info@.len(),
                ),
            ),
        ),
{
    let remaining: HashSet<OpId> = ids::set_of(remaining_ops);
    assert(remaining@ =~= remaining_ops@.to_set());
    let listed: Vec<TensorId> = list_sticky(weight_analysis, &remaining, tensor_meta);
    let total: i128 = add_sizes(weight_analysis, &listed);
    total as i64
}

/// What two operations in a row both take in.
#[derive(Debug)]
pub struct ConsecutiveShare {
    pub op_before: OpId,
    pub op_after: OpId,
    /// The tensors, in the order in which the first operation names them.
    pub shared_tensors: Vec<TensorId>,
    /// The transfers that keeping the tensors saves: one write and one read of each.
    pub bandwidth_savings: i64,
}

/// What operations `a` and `b` both take in.
pub open spec fn shared(p: Problem, a: int, b: int) -> Seq<TensorId> {
    let first = p.ops@[a].inputs@;
    let second = p.ops@[b].inputs@;
    ids::first_mentions(first, |t: usize| second.contains(t), first.len())
}

/// The pairs among the first `k` steps of the sequence that share inputs.
pub open spec fn sharing_pairs(p: Problem, group: Seq<OpId>, k: nat) -> Seq<(OpId, OpId)>
    decreases k,
{
    if k == 0 {
        Seq::empty()
    } else {
        let rest = sharing_pairs(p, group, (k - 1) as nat);
        if shared(p, group[k - 1] as int, group[k as int] as int).len() > 0 {
            rest.push((group[k - 1], group[k as int]))
        } else {
            rest
        }
    }
}

impl ConsecutiveShare {
    /// This is what the two operations share.
    pub open spec fn is_of(&self, p: Problem, pair: (OpId, OpId)) -> bool {
        &&& self.op_before == pair.0
        &&& self.op_after == pair.1
        &&& self.shared_tensors@ == shared(p, pair.0 as int, pair.1 as int)
        &&& self.bandwidth_savings == 2 * arith::sum(areas(p, self.shared_tensors@))
    }
}

/// The operations exist, and the sizes of what neighbours share are numbers of the machine.
pub open spec fn sharing_fits(p: Problem, group: Seq<OpId>) -> bool {
    &&& forall|i: int| 0 <= i < group.len() ==> (#[trigger] group[i]) < p.ops@.len()
    &&& forall|i: int| 0 <= i < group.len() - 1 ==> #[trigger] step_fits(p, group, i)
}

/// What operations `i` and `i + 1` of the sequence share are tensors of measurable size.
pub open spec fn step_fits(p: Problem, group: Seq<OpId>, i: int) -> bool {
    let both = shared(p, group[i] as int, group[i + 1] as int);
    &&& forall|t: TensorId| #[trigger]
        both.contains(t) ==> t < p.tensors@.len() && arith::fits(p.tensors@[t as int].area())
    &&& arith::fits(2 * arith::sum(areas(p, both)))
}

/// Lists what two operations both take in.
fn find_shared(problem: &Problem, a: OpId, b: OpId) -> (both: Vec<TensorId>)
    requires
        a < problem.ops@.len(),
        b < problem.ops@.len(),
    ensures
        both@ == shared(*problem, a as int, b as int),
{
    broadcast use vstd::std_specs::hash::group_hash_axioms;

    let ghost second = problem.ops@[b as int].inputs@;
    let set: HashSet<TensorId> = ids::set_of(problem.ops[b].inputs.as_slice());
    let first: Vec<TensorId> = models::copy_ids(problem.ops[a].inputs.as_slice());
    let ghost keep = |t: usize| second.contains(t);
    let mut flags: Vec<bool> = Vec::new();
    let mut i: usize = 0;
    while i < first.len()
        invariant
            i <= first.len(),
            keep == |t: usize| second.contains(t),
            forall|x: usize| #[trigger] set@.contains(x) <==> second.contains(x),
            flags.len() == i,
            forall|j: int| 0 <= j < i ==> #[trigger] flags@[j] == keep(first@[j]),
        decreases first.len() - i,
    {
        flags.push(set.contains(&first[i]));
        i = i + 1;
    }
    ids::collect_first_mentions(&first, &flags, Ghost(keep))
}

/// Finds neighbours in a sequence of operations that take in the same tensors.
pub fn find_consecutive_sharing(ops: &[OpId], problem: &Problem) -> (shares: Vec<ConsecutiveShare>)
    requires
        sharing_fits(*problem, ops@),
    ensures
        ({
            let pairs = sharing_pairs(
                *problem,
                ops@,
                if ops@.len() == 0 { 0 } else { (ops@.len() - 1) as nat },
            );
            &&& shares@.len() == pairs.len()
            &&& forall|i: int| 0 <= i < shares@.len() ==> (#[trigger] shares@[i]).is_of(*problem, pairs[i])
        }),
{
    let ghost p = *problem;
    let mut shares: Vec<ConsecutiveShare> = Vec::new();
    if ops.len() == 0 {
        return shares;
    }
    let last: usize = ops.len() - 1;
    let mut i: usize = 0;
    while i < last
        invariant
            i <= last,
            last == ops@.len() - 1,
            p == *problem,
            sharing_fits(p, ops@),
            shares@.len() == sharing_pairs(p, ops@, i as nat).len(),
            forall|j: int|
                0 <= j < shares@.len() ==> (#[trigger] shares@[j]).is_of(p, sharing_pairs(p, ops@, i as nat)[j]),
        decreases last - i,
    {
        let a: OpId = ops[i];
        let b: OpId = ops[i + 1];
        assert(ops@[i as int] < p.ops@.len() && ops@[i + 1] < p.ops@.len());
        let both: Vec<TensorId> = find_shared(problem, a, b);
        let ghost before = shares@;
        if both.len() > 0 {
            assert(step_fits(p, ops@, i as int));
            let mut sizes: Vec<i64> = Vec::new();
            let mut j: usize = 0;
            while j < both.len()
                invariant
                    j <= both.len(),
                    p == *problem,
                    forall|t: TensorId| #[trigger]
                        both@.contains(t) ==> t < p.tensors@.len() && arith::fits(p.tensors@[t as int].area()),
                    sizes.len() == j,
                    forall|x: int| 0 <= x < j ==> #[trigger] sizes@[x] == p.tensors@[both@[x] as int].area(),
                decreases both.len() - j,
            {
                assert(both@.contains(both@[j as int]));
                sizes.push(problem.tensors[both[j]].size());
                j = j + 1;
            }
            assert(arith::ints(sizes@) =~= areas(p, both@));
            let total: i128 = arith::wide_total(&sizes);
            let twice: i64 = (2 * total) as i64;
            shares.push(
                ConsecutiveShare { op_before: a, op_after: b, shared_tensors: both, bandwidth_savings: twice },
            );
            proof {
                let pairs = sharing_pairs(p, ops@, (i + 1) as nat);
                assert forall|j: int| 0 <= j < shares@.len() implies (#[trigger] shares@[j]).is_of(p, pairs[j]) by {
                    if j < before.len() {
                        assert(shares@[j] == before[j]);
                    }
                }
            }
        }
        i = i + 1;
    }
    shares
}

} // verus!
