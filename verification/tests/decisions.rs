use std::collections::HashSet;
use mlsys::cost::{
    find_amortization, find_charged_ops, find_elimination_factor, find_fusion_floor, find_op_cost_terms,
    find_register_reuse, find_sequence_factor, find_shape_match, find_snake_factor, generate_shape_aware_candidates,
    measure_transfers, MemoryState, RegisterReuse,
};
use mlsys::cost_model::{
    analyze_graph_density, find_density, find_parts, measure_outputs, plan_adaptive_search, CostModelConfig,
    GraphDensity, HardwareProfile, OptimizationStrategy,
};
use mlsys::hw_profile::{available_ram, cache_sizes, parse_cache_size, MachineProfile, WorkerProfile};
use mlsys::layout::{
    analyze_layout_opportunities, analyze_single_tensor, calculate_access_efficiency, determine_optimal_layout,
    estimate_bandwidth_asymmetry, estimate_layout_savings, generate_layout_aware_tiling,
    select_layout_optimized_granularity, should_consider_layout_transform, AccessPattern, LayoutAnalysis,
    LayoutAnalysisConfig, MemoryLayout, UNITS,
};
use mlsys::memory::{find_fitting_granularity, find_group_granularity, validate_memory_fit};
use mlsys::models::{Granularity, GranularityOutput, Op, OpType, Problem, Subgraph, Tensor};
use mlsys::optimizer::{
    align_to_power_of_2, classify_bottleneck, compute_arithmetic_intensity, compute_memory_reduction_factor,
    compute_optimal_split_k, compute_optimal_tile_size, compute_reduction_factor, find_side, generate_optimal_plan, ArithmeticIntensity,
    BottleneckType,
};
use mlsys::parallel::{
    check_groups_fit, decode_frame_length, encode_frame_length, find_latency_factor, generate_strategy_list, pick_winner,
    runs_in_processes, solve, solve_branch_parallel, solve_stitched, Strategy, MAX_FRAME_BYTES,
};
use mlsys::partition::{
    calculate_optimal_partitioning, validate_partition_plan, will_fit_in_sram, PartitionConfig, PartitionPlan,
};
use mlsys::pipeline::{
    analyze_pipeline_overlap, build_subgraph_profiles, plan_pipeline, DmaCapability, PipelineConfig,
    PipelineHardwareProfile, PipelineOverlap, SubgraphMemoryProfile,
};
use mlsys::scheduler::{count_intermediate_tensors, schedule, SchedulerState};
use mlsys::telemetry::{
    log_fallback_decision, log_fusion_decision, log_retention_decision, log_strategy_decision, DecisionCategory,
};
use mlsys::tiling::{plan_tiling, settle_tiling, TilingStep};
use mlsys::triage::triage_graph;
use mlsys::weight_stationary::{
    analyze_weights, calculate_sticky_reservation, enhance_retention_with_weights, should_retain_tensor,
    WeightStationaryConfig,
};

fn op(op_type: OpType, inputs: &[usize], outputs: &[usize], base_cost: i64) -> Op {
    Op { op_type, inputs: inputs.to_vec(), outputs: outputs.to_vec(), base_cost }
}

fn pointwise(inputs: &[usize], outputs: &[usize]) -> Op {
    op(OpType::Pointwise, inputs, outputs, 100)
}

fn matmul(inputs: &[usize], outputs: &[usize]) -> Op {
    op(OpType::MatMul, inputs, outputs, 1000)
}

fn squares(side: i64, count: usize) -> Vec<Tensor> {
    vec![Tensor { width: side, height: side }; count]
}

fn problem(tensors: Vec<Tensor>, ops: Vec<Op>, capacity: i64) -> Problem {
    Problem {
        tensors,
        ops,
        fast_memory_capacity: capacity,
        slow_memory_bandwidth: 10,
        native_granularity: Granularity::new(128, 128, 1),
    }
}

fn chain(n: usize) -> Problem {
    problem(squares(128, n + 1), (0..n).map(|i| pointwise(&[i], &[i + 1])).collect(), 50000)
}

fn product() -> Problem {
    problem(squares(128, 3), vec![matmul(&[0, 1], &[2])], 60000)
}

#[test]
fn registers_are_reused_in_large_tiles() {
    assert_eq!(find_register_reuse(8, 8, &OpType::MatMul), RegisterReuse::Nothing);
    assert_eq!(find_register_reuse(128, 64, &OpType::MatMul), RegisterReuse::Sides(24));
    assert_eq!(find_register_reuse(16, 16, &OpType::Pointwise), RegisterReuse::Blocks(4));
    assert_eq!(find_register_reuse(16, 8, &OpType::Pointwise), RegisterReuse::Nothing);
}

#[test]
fn costs_are_made_of_tiles_and_parts() {
    let p = product();
    let native = p.native_granularity;
    let out = Tensor { width: 300, height: 128 };
    let terms = find_op_cost_terms(&p.ops[0], &native, &Granularity::new(64, 128, 100), &out).unwrap();
    assert_eq!((terms.tiles, terms.native_tile, terms.tile, terms.parts), (5, 16384, 8192, 64));
    assert!(find_op_cost_terms(&p.ops[0], &native, &Granularity::new(0, 128, 1), &out).is_none());
    assert!(find_op_cost_terms(&p.ops[0], &native, &native, &Tensor { width: 0, height: 1 }).is_none());
    assert_eq!(find_charged_ops(&[0, 7], &p), vec![(0, 2)]);
}

#[test]
fn fused_groups_cost_less() {
    let p = chain(3);
    let f = find_elimination_factor(&[0, 1, 2], &p);
    assert_eq!((f.numerator, f.denominator), (300 - 160, 300));
    let f = find_sequence_factor(&[0, 1, 2], &p);
    assert_eq!((f.numerator, f.denominator), (30 - 8, 30));
    let f = find_sequence_factor(&[0], &p);
    assert_eq!(f.numerator, f.denominator);
    assert_eq!(find_fusion_floor(19), 15);
    assert_eq!(find_fusion_floor(20), 10);
    assert_eq!(find_fusion_floor(50), 5);
    assert_eq!(find_fusion_floor(100), 5);
    assert_eq!(find_fusion_floor(101), 2);
    assert_eq!(find_amortization(4), 100);
    assert_eq!(find_amortization(5), 96);
    assert_eq!(find_amortization(50), 85);
    assert_eq!(measure_outputs(&[0, 1, 2], &p), (3 * 16384, 2 * 16384));
}

#[test]
fn resident_tensors_are_not_read_again() {
    let p = chain(2);
    let meta = p.build_tensor_meta();
    let mut state = MemoryState::new();
    let cold = measure_transfers(&[0, 1], &p, &meta, &state, &[]);
    assert_eq!((cold.dram_read, cold.sram_read, cold.dram_write, cold.large), (16384, 0, 16384, false));
    state.mark_resident(0);
    assert!(state.is_resident(0));
    let warm = measure_transfers(&[0, 1], &p, &meta, &state, &[2]);
    assert_eq!((warm.dram_read, warm.sram_read, warm.dram_write), (0, 16384, 0));
    state.evict(0);
    assert!(!state.is_resident(0));
    let both = MemoryState::with_resident(&[3, 4, 3]);
    assert!(both.is_resident(4) && !both.is_resident(5));
    let wide = problem(squares(256, 2), vec![pointwise(&[0], &[1])], 50000);
    let meta = wide.build_tensor_meta();
    assert!(measure_transfers(&[0], &wide, &meta, &MemoryState::new(), &[]).large);
}

#[test]
fn snakes_and_shapes_save_transfers() {
    let g = Granularity::new(32, 32, 1);
    let f = find_snake_factor(&Tensor { width: 128, height: 128 }, &g);
    assert_eq!((f.numerator, f.denominator), (64 - (2 * 4 + 12), 64));
    let f = find_snake_factor(&Tensor { width: 64, height: 64 }, &g);
    assert_eq!((f.numerator, f.denominator), (9, 10));
    let f = find_snake_factor(&Tensor { width: 32, height: 32 }, &g);
    assert_eq!(f.numerator, f.denominator);
    assert_eq!(find_shape_match(256, 64, &Tensor { width: 512, height: 128 }), 85);
    assert_eq!(find_shape_match(128, 64, &Tensor { width: 64, height: 64 }), 97);
    assert_eq!(find_shape_match(512, 32, &Tensor { width: 64, height: 64 }), 100);
}

#[test]
fn tiles_that_cannot_fit_are_not_proposed() {
    let p = problem(squares(101, 2), vec![pointwise(&[0], &[1])], 12000);
    let list = generate_shape_aware_candidates(&[0], &p);
    assert!(!list.is_empty());
    assert!(list.iter().all(|&(w, h)| w > 0 && h > 0 && w * h <= 4000));
}

#[test]
fn native_tiles_are_kept_where_they_fit() {
    let p = chain(2);
    let meta = p.build_tensor_meta();
    let step = plan_tiling(&[0, 1], &p, &meta);
    assert_eq!(settle_tiling(&p, &step, &[]), p.native_granularity);
    assert_eq!(settle_tiling(&p, &plan_tiling(&[], &p, &meta), &[]), p.native_granularity);

    let mut p = product();
    p.fast_memory_capacity = 65536;
    let meta = p.build_tensor_meta();
    match plan_tiling(&[0], &p, &meta) {
        TilingStep::TrySplit(g) => {
            assert_eq!(g, Granularity::new(128, 128, 2));
            let step = TilingStep::TrySplit(g);
            assert_eq!(settle_tiling(&p, &step, &[5, 4]), g);
            assert_eq!(settle_tiling(&p, &step, &[5, 5]), p.native_granularity);
        }
        other => panic!("{:?}", other),
    }

    p.fast_memory_capacity = 20000;
    match plan_tiling(&[0], &p, &meta) {
        TilingStep::Search(list) => {
            assert!(list.len() > 1);
            let mut scores: Vec<i64> = list.iter().map(|_| 9).collect();
            scores[1] = 3;
            let chosen = list[1];
            assert_eq!(settle_tiling(&p, &TilingStep::Search(list), &scores), chosen);
        }
        other => panic!("{:?}", other),
    }
}

#[test]
fn adaptive_searches_are_bounded() {
    let p = product();
    let meta = p.build_tensor_meta();
    let config = CostModelConfig { max_candidates: 4, ..CostModelConfig::default() };
    assert!(plan_adaptive_search(&[0], &p, &meta, &config).len() <= 4);
    assert_eq!(find_parts(HardwareProfile::HighEnd), vec![1, 2, 4, 8]);
    assert_eq!(find_parts(HardwareProfile::Constrained), vec![1, 2]);
}

#[test]
fn densities_choose_strategies() {
    assert_eq!(find_density(5), GraphDensity::Sparse);
    let line = analyze_graph_density(&chain(3));
    assert_eq!(line.num_ops, 3);
    assert_eq!(line.num_tensors, 4);
    assert_eq!(line.total_consumers, 3);
    assert_eq!(line.max_depth, 3);
    assert_eq!(line.recommended_strategy, OptimizationStrategy::ChainOptimized);
}

#[test]
fn machines_are_read_from_texts() {
    assert_eq!(parse_cache_size(b" 512K\n"), Some(524288));
    assert_eq!(parse_cache_size(b"+16"), Some(16384));
    assert_eq!(parse_cache_size(b"8M\n"), Some(8388608));
    assert_eq!(parse_cache_size(b""), None);
    assert_eq!(parse_cache_size(b"K"), None);
    assert_eq!(parse_cache_size(b"99999999999999999999"), None);
    assert_eq!(cache_sizes(&None, &Some(b"oops".to_vec())), (0, 0));
    assert_eq!(cache_sizes(&Some(b"1024K".to_vec()), &Some(b"16384K".to_vec())), (1048576, 16777216));
    let text = b"MemFree: 5 kB\nMemTotal:   2048 kB\nMemAvailable: 1024 kB\n".to_vec();
    assert_eq!(available_ram(&Some(text)), 2048 * 1024);
    assert_eq!(available_ram(&Some(b"MemTotal: kB\nMemAvailable:\t7 kB".to_vec())), 7 * 1024);
    assert_eq!(available_ram(&Some(b"MemTotal:12 kB".to_vec())), 0);
    assert_eq!(available_ram(&Some(Vec::new())), 0);
    assert_eq!(available_ram(&None), 0);
}

#[test]
fn large_graphs_are_shared_out() {
    assert_eq!(MachineProfile::with_cores(1).num_workers, 1);
    assert_eq!(MachineProfile::with_cores(2).num_workers, 1);
    let machine = MachineProfile::with_cores(3);
    assert_eq!(machine.num_workers, 2);
    assert_eq!(machine.available_ram, 8 << 30);
    let mut p = chain(1600);
    p.fast_memory_capacity = 1000;
    let wp = WorkerProfile::from_problem(&machine, &p);
    assert!(wp.use_multiprocess);
    assert_eq!(wp.tile_size_hint, 400);
    assert_eq!(wp.sram_budget_per_zone, 450);
    assert_eq!(wp.shm_segment_size, 384 * 1600 + 4096);
    let wp = WorkerProfile::from_problem(&machine, &chain(499));
    assert!(!wp.use_multiprocess);
    assert_eq!(wp.tile_size_hint, 499);
    assert_eq!(wp.shm_segment_size, 384 * 499 + 4096);
    assert_eq!(WorkerProfile::from_problem(&machine, &chain(1)).shm_segment_size, 65536);
}

#[test]
fn right_operands_want_columns() {
    let mut p = problem(
        squares(1100, 6),
        vec![op(OpType::MatMul, &[0, 1], &[2], 10), op(OpType::MatMul, &[3, 1], &[4], 10)],
        50000,
    );
    let meta = p.build_tensor_meta();
    assert_eq!(determine_optimal_layout(1, &[0, 1], &p), MemoryLayout::ColumnMajor);
    assert_eq!(determine_optimal_layout(0, &[0], &p), MemoryLayout::RowMajor);
    let size: i128 = 1_210_000;
    let saved = estimate_layout_savings(1, &[0, 1], &p, MemoryLayout::RowMajor, MemoryLayout::ColumnMajor);
    assert_eq!(saved, 2 * size * (420 - 84) * 8);
    assert_eq!(estimate_layout_savings(1, &[0, 1], &p, MemoryLayout::RowMajor, MemoryLayout::RowMajor), 0);

    let config = LayoutAnalysisConfig::default();
    let found = analyze_layout_opportunities(&p, &meta, &config);
    assert_eq!(found.len(), 1);
    assert_eq!(found[0].tensor_id, 1);
    assert_eq!(found[0].transform_cost, 4200 * size);
    assert_eq!(found[0].net_benefit, saved - 4200 * size);
    assert!(found[0].should_transform());
    let endless = LayoutAnalysis { estimated_savings: i128::MAX, cycle: i128::MAX, ..found[0] };
    assert!(!endless.should_transform());
    assert_eq!((found[0].confidence.numerator, found[0].confidence.denominator), (10 * 10 * 10 * 8 * 4, 40000));

    let tiling = generate_layout_aware_tiling(&[0, 1], &p, &meta, &config).unwrap();
    assert_eq!(tiling.pre_transforms, vec![(1, MemoryLayout::ColumnMajor)]);
    assert_eq!(tiling.granularity, Granularity::new(64, 256, 1));
    assert_eq!(tiling.savings_vs_default, found[0].net_benefit);

    let off = LayoutAnalysisConfig { enabled: false, ..config };
    assert!(analyze_layout_opportunities(&p, &meta, &off).is_empty());
    assert!(generate_layout_aware_tiling(&[0, 1], &p, &meta, &off).is_none());
    assert!(generate_layout_aware_tiling(&[], &p, &meta, &config).is_none());
    let greedy = LayoutAnalysisConfig { min_savings: 1_000_000_000, ..config };
    assert!(generate_layout_aware_tiling(&[0, 1], &p, &meta, &greedy).is_none());
    let small = LayoutAnalysisConfig { max_tensor_size: 1_000_000, ..config };
    assert!(analyze_layout_opportunities(&p, &meta, &small).is_empty());
    p.ops[0].base_cost = 100_000_000;
    assert!(analyze_layout_opportunities(&p, &meta, &config).is_empty());
    assert_eq!(UNITS, 840);
}

#[test]
fn layouts_can_wait_without_bandwidth() {
    let mut p = problem(
        squares(1100, 6),
        vec![op(OpType::MatMul, &[0, 1], &[2], 10), op(OpType::MatMul, &[3, 1], &[4], 10)],
        50000,
    );
    let meta = p.build_tensor_meta();
    let config = LayoutAnalysisConfig::default();
    let lenient = LayoutAnalysisConfig { min_improvement_ratio: 0, min_savings: 0, ..config };
    let size: i128 = 1_210_000;
    for bandwidth in [0, -10] {
        p.slow_memory_bandwidth = bandwidth;
        assert_eq!(estimate_layout_savings(1, &[0, 1], &p, MemoryLayout::RowMajor, MemoryLayout::ColumnMajor), 0);
        assert!(analyze_single_tensor(1, &[0, 1], &p, &config).is_none());
        let analysis = analyze_single_tensor(1, &[0, 1], &p, &lenient).unwrap();
        assert_eq!(analysis.estimated_savings, 0);
        assert_eq!(analysis.net_benefit, -analysis.transform_cost);
        assert!(!analysis.should_transform());
        assert!(analyze_layout_opportunities(&p, &meta, &lenient).is_empty());
        assert!(generate_layout_aware_tiling(&[0, 1], &p, &meta, &lenient).is_none());
    }
    p.slow_memory_bandwidth = 0;
    let stuck = analyze_single_tensor(1, &[0, 1], &p, &lenient).unwrap();
    assert_eq!((stuck.transform_cost, stuck.cycle), (4200 * size, 0));
    p.slow_memory_bandwidth = -10;
    let turned = analyze_single_tensor(1, &[0, 1], &p, &lenient).unwrap();
    assert_eq!((turned.transform_cost, turned.cycle), (-4200 * size, 8400));
    // A tensor of negative size goes through a memory of negative bandwidth as usual.
    p.tensors[1] = Tensor { width: -1100, height: 1100 };
    let saved = estimate_layout_savings(1, &[0, 1], &p, MemoryLayout::RowMajor, MemoryLayout::ColumnMajor);
    let before = 840 / calculate_access_efficiency(&p.tensors[1], AccessPattern::ColumnSequential, MemoryLayout::RowMajor) as i128;
    assert_eq!(saved, 2 * size * (before - 84) * 8);
}

#[test]
fn layouts_choose_tiles() {
    let p = product();
    assert_eq!(select_layout_optimized_granularity(&p, &[]), p.native_granularity);
    let block = (0, MemoryLayout::Blocked { tile_w: 16, tile_h: 8 });
    let column = (1, MemoryLayout::ColumnMajor);
    assert_eq!(select_layout_optimized_granularity(&p, &[column, block]), Granularity::new(16, 8, 1));
    assert_eq!(select_layout_optimized_granularity(&p, &[column]), Granularity::new(64, 256, 1));
    assert!(MemoryLayout::Unknown.favors_row_access());
    assert!(MemoryLayout::ColumnMajor.favors_column_access());
    assert!(block.1.is_blocked());
    assert_eq!(MemoryLayout::default(), MemoryLayout::RowMajor);
    let mut p = p;
    p.fast_memory_capacity = 500_000;
    assert_eq!(estimate_bandwidth_asymmetry(&p), 12);
    assert!(!should_consider_layout_transform(&p));
    p.fast_memory_capacity = 500_001;
    assert_eq!(estimate_bandwidth_asymmetry(&p), 15);
    assert!(should_consider_layout_transform(&p));
    p.fast_memory_capacity = 200_000;
    assert_eq!(estimate_bandwidth_asymmetry(&p), 10);
}

#[test]
fn bottlenecks_follow_from_intensity() {
    let p = product();
    let meta = p.build_tensor_meta();
    let intensity = compute_arithmetic_intensity(&[0], &p, &meta);
    assert_eq!(intensity.flops, 2 * 128 * 128 * 128);
    assert_eq!(intensity.bytes, 3 * 128 * 128);
    assert_eq!(classify_bottleneck(12, 100, 10), BottleneckType::Balanced);
    assert_eq!(classify_bottleneck(13, 100, 10), BottleneckType::ComputeBound);
    assert_eq!(classify_bottleneck(8, 100, 10), BottleneckType::Balanced);
    assert_eq!(classify_bottleneck(7, 100, 10), BottleneckType::MemoryBound);
    assert_eq!(classify_bottleneck(7, 0, 10), BottleneckType::ComputeBound);
    assert_eq!(classify_bottleneck(7, 1, 0), BottleneckType::MemoryBound);
    assert_eq!(classify_bottleneck(i128::MAX, i128::MAX, 1), BottleneckType::Balanced);
    assert_eq!(classify_bottleneck(i128::MIN, i128::MAX, 1), BottleneckType::MemoryBound);
    assert_eq!(classify_bottleneck(-13, 100, -10), BottleneckType::MemoryBound);
    assert_eq!(classify_bottleneck(-7, 100, -10), BottleneckType::ComputeBound);
    assert_eq!(classify_bottleneck(-10, 100, -10), BottleneckType::ComputeBound);
}

#[test]
fn tiles_and_splits_follow_from_bottlenecks() {
    assert_eq!(find_side(0), 0);
    assert_eq!(find_side(-5), 0);
    assert_eq!(find_side(299), 9);
    assert_eq!(find_side(300), 10);
    assert_eq!(find_side(i64::MAX), 1_753_413_056);
    assert_eq!(align_to_power_of_2(0), 16);
    assert_eq!(align_to_power_of_2(31), 16);
    assert_eq!(align_to_power_of_2(32), 32);
    assert_eq!(align_to_power_of_2(129), 128);
    let p = problem(squares(1024, 3), vec![matmul(&[0, 1], &[2])], 98304);
    let meta = p.build_tensor_meta();
    let plan = generate_optimal_plan(&[0], &p, &meta);
    assert_eq!(plan.intensity.bottleneck, BottleneckType::ComputeBound);
    assert_eq!(plan.granularity, Granularity::new(128, 128, 2));
    assert_eq!(plan.memory_reduction, 2 * 90 * 100);
    let slow = ArithmeticIntensity { bottleneck: BottleneckType::MemoryBound, ..plan.intensity };
    assert_eq!(compute_optimal_split_k(&[0], &p, &slow, (128, 128)), 1);
    let g = Granularity::new(64, 64, 1);
    assert_eq!(compute_memory_reduction_factor(&[0; 10], &p, &slow, &g), 40 * 95 * 85);
    assert_eq!(compute_optimal_split_k(&[0], &p, &plan.intensity, (512, 512)), 1);
}

#[test]
fn reductions_multiply() {
    let p = chain(2);
    let meta = p.build_tensor_meta();
    let r = compute_reduction_factor(&[0, 1], &p, &meta, &Granularity::new(16, 24, 1));
    assert_eq!((r.fusion.numerator, r.fusion.denominator), (200 - 65, 200));
    assert_eq!((r.register.numerator, r.register.denominator), (85 * 5 + 30, 500));
    assert_eq!(r.vectorization, 98);
    let r = compute_reduction_factor(&[], &p, &meta, &Granularity::new(32, 7, 1));
    assert_eq!(r.fusion.numerator, r.fusion.denominator);
    assert_eq!(r.vectorization, 100);
}

#[test]
fn every_strategy_schedules_every_operation() {
    let p = chain(1001);
    let meta = p.build_tensor_meta();
    let triage = triage_graph(&p, &meta, 4);
    let strategies = generate_strategy_list(&p, &triage);
    assert_eq!(strategies, vec![Strategy::FullFusion, Strategy::Stitched(2), Strategy::Stitched(4)]);
    for strategy in [Strategy::FullFusion, Strategy::Stitched(2), Strategy::Stitched(4), Strategy::BranchParallel] {
        let c = solve(&p, &meta, strategy);
        assert_eq!(c.strategy_name, strategy.name());
        let mut ops: Vec<usize> = c.subgraphs.iter().flat_map(|sg| sg.ops.iter().copied()).collect();
        ops.sort();
        assert_eq!(ops, (0..1001).collect::<Vec<usize>>());
    }
    assert_eq!(Strategy::Stitched(4).name(), "stitched-4");
    assert!(runs_in_processes(2, true));
    assert!(!runs_in_processes(1, true));
    assert!(!runs_in_processes(2, false));
}

#[test]
fn boundaries_are_kept_while_they_fit() {
    let mut p = chain(8);
    p.fast_memory_capacity = 16384 * 5 / 2;
    let meta = p.build_tensor_meta();
    let c = solve_stitched(&p, &meta, 2);
    assert_eq!(c.subgraphs.len(), 2);
    assert_eq!(c.subgraphs[0].tensors_to_retain, vec![4]);
    assert!(c.subgraphs[1].tensors_to_retain.is_empty());
    p.fast_memory_capacity = 16384 * 5 / 2 - 1;
    assert!(solve_stitched(&p, &meta, 2).subgraphs[0].tensors_to_retain.is_empty());
    let c = solve_branch_parallel(&p, &meta);
    assert_eq!(c.subgraphs.len(), 1);
    let f = find_latency_factor(&[0, 1], &p, &meta);
    assert_eq!(f.numerator * 400, f.denominator * 95 * 3);
    let f = find_latency_factor(&[0], &p, &meta);
    assert_eq!(f.numerator * 100, f.denominator * 95);
}

#[test]
fn headers_give_lengths_back() {
    assert_eq!(encode_frame_length(0x0102), vec![2, 1, 0, 0, 0, 0, 0, 0]);
    for n in [0, 1, 255, 256, MAX_FRAME_BYTES] {
        assert_eq!(decode_frame_length(&encode_frame_length(n)), Some(n));
    }
    assert_eq!(decode_frame_length(&encode_frame_length(MAX_FRAME_BYTES + 1)), None);
    assert_eq!(decode_frame_length(&encode_frame_length(u64::MAX)), None);
}

fn plan(num_subgraphs: usize, ops_per_subgraph: usize, effective_capacity: i64) -> PartitionPlan {
    PartitionPlan {
        num_subgraphs,
        ops_per_subgraph,
        effective_capacity,
        max_ops_per_subgraph: 50,
        rationale: String::new(),
        can_use_full_fusion: false,
    }
}

#[test]
fn faults_in_plans_are_told() {
    let fault = |p: PartitionPlan, n: usize| validate_partition_plan(&p, n).unwrap_err();
    assert_eq!(fault(plan(0, 10, 5), 30), "Invalid plan: num_subgraphs = 0");
    assert_eq!(fault(plan(3, 0, 5), 30), "Invalid plan: ops_per_subgraph = 0");
    assert_eq!(
        fault(plan(3, 9, 5), 30),
        "Invalid plan: 3 subgraphs × 9 ops = 27 total, but we have 30 ops"
    );
    assert_eq!(fault(plan(3, 10, -4), 30), "Invalid plan: effective_capacity = -4");
    assert!(validate_partition_plan(&plan(3, 10, 1), 30).is_ok());
}

#[test]
fn plans_hold_all_operations() {
    let p = problem(
        squares(1024, 41),
        (0..40).map(|i| matmul(&[i, i], &[i + 1])).collect(),
        40000,
    );
    let meta = p.build_tensor_meta();
    for density in [GraphDensity::Sparse, GraphDensity::Medium, GraphDensity::Dense] {
        let config = PartitionConfig::from_density(density);
        assert_eq!(config.target_utilization + config.safety_margin, 100);
        let plan = calculate_optimal_partitioning(&p, &meta, &config);
        assert!(plan.num_subgraphs * plan.ops_per_subgraph >= 40 || plan.ops_per_subgraph == config.max_ops_per_subgraph);
    }
    assert!(will_fit_in_sram(&[0], &p, &p.native_granularity, &meta, 100));
    assert!(!will_fit_in_sram(&[0], &p, &p.native_granularity, &meta, 80));
    assert!(will_fit_in_sram(&[0], &p, &p.native_granularity, &meta, 200));
}

#[test]
fn overlaps_need_channels_and_independence() {
    let p = problem(squares(128, 6), vec![matmul(&[0, 1], &[2]), matmul(&[3, 4], &[5])], 500_000);
    let meta = p.build_tensor_meta();
    let g = p.native_granularity;
    let a = SubgraphMemoryProfile::from_subgraph(&[0], &p, &g, &meta, &[], &HashSet::new());
    let b = SubgraphMemoryProfile::from_subgraph(&[1], &p, &g, &meta, &[], &HashSet::new());
    assert_eq!((a.prologue_bytes, a.epilogue_bytes, a.compute_time), (32768, 16384, 1000));
    let hw = PipelineHardwareProfile::from_problem(&p);
    assert_eq!(hw.dma_capability, DmaCapability::FullConcurrent);
    assert_eq!(hw.max_overlap, 70);
    let overlap = analyze_pipeline_overlap(&a, &b, &hw);
    assert!(overlap.can_overlap);
    assert_eq!(overlap.time_saved, 16384 * 70 * 85);
    assert!(!analyze_pipeline_overlap(&a, &a, &PipelineHardwareProfile { max_overlap: 0, dma_capability: DmaCapability::Sequential, ..hw }).can_overlap);
    let none = PipelineOverlap::no_overlap("why");
    assert_eq!((none.can_overlap, none.time_saved, none.no_overlap_reason), (false, 0, Some("why".to_string())));

    let groups: Vec<Subgraph> = (0..2)
        .map(|i| Subgraph {
            ops: vec![i],
            tensors_to_retain: vec![],
            granularity: GranularityOutput { w: 128, h: 128, k: None },
            traversal_order: None,
        })
        .collect();
    let profiles = build_subgraph_profiles(&groups, &p, &meta);
    assert_eq!(profiles[1].prologue_tensors.len(), 2);
    let plan = plan_pipeline(2, &profiles, &PipelineConfig::default(), &p);
    assert_eq!(plan.pipelined_pairs, 1);
    assert_eq!(plan.time_saved, 16384 * 70 * 85);
    let plan = plan_pipeline(3, &profiles, &PipelineConfig::default(), &p);
    assert_eq!(plan.overlaps.len(), 2);
    assert_eq!(plan.overlaps[1].no_overlap_reason, Some("Missing profile".to_string()));
    let off = PipelineConfig { enabled: false, ..PipelineConfig::default() };
    assert_eq!(plan_pipeline(2, &profiles, &off, &p).pipelined_pairs, 0);
    let mut still = p.clone();
    still.slow_memory_bandwidth = 0;
    assert_eq!(plan_pipeline(2, &profiles, &PipelineConfig::default(), &still).pipelined_pairs, 1);
    still.slow_memory_bandwidth = -1;
    assert_eq!(plan_pipeline(2, &profiles, &PipelineConfig::default(), &still).pipelined_pairs, 0);
}

#[test]
fn weights_stay_while_they_are_needed() {
    let p = problem(squares(128, 5), vec![matmul(&[0, 1], &[3]), matmul(&[0, 2], &[4])], 100_000);
    let meta = p.build_tensor_meta();
    let analysis = analyze_weights(&p, &meta, &WeightStationaryConfig::default());
    assert_eq!(analysis.sticky_total_size, 16384);
    assert_eq!(analysis.tensor_info[0].bandwidth_savings, 16384);
    assert!(should_retain_tensor(0, &analysis, &[1], &meta, 5));
    assert!(!should_retain_tensor(0, &analysis, &[], &meta, 5));
    assert_eq!(calculate_sticky_reservation(&analysis, &[1], &meta), 16384);
    assert_eq!(calculate_sticky_reservation(&analysis, &[], &meta), 0);
    let (kept, used) = enhance_retention_with_weights(&[1], &analysis, &[1], &p, &meta, 16384);
    assert_eq!(kept, vec![0]);
    assert_eq!(used, 16384);
    let (kept, _) = enhance_retention_with_weights(&[1], &analysis, &[1], &p, &meta, 16383);
    assert!(kept.is_empty());
    let off = WeightStationaryConfig { enabled: false, ..WeightStationaryConfig::default() };
    assert!(analyze_weights(&p, &meta, &off).sticky_tensors.is_empty());
}

#[test]
fn schedules_start_with_nothing_scheduled() {
    let p = chain(3);
    let meta = p.build_tensor_meta();
    let mut state = SchedulerState::new(&p, &meta);
    assert_eq!(state.open_ops(), vec![0, 1, 2]);
    assert_eq!(state.get_ready_ops(), vec![0]);
    state.mark_scheduled(0);
    assert_eq!(state.open_ops(), vec![1, 2]);
    assert_eq!(state.get_ready_ops(), vec![1]);
    assert_eq!(count_intermediate_tensors(&[0, 1, 2], &p, &meta), 2);
    let solution = schedule(&p);
    assert_eq!(solution.subgraphs[0].ops, vec![0, 1, 2]);
    assert!(schedule(&problem(vec![], vec![], 10)).subgraphs.is_empty());
}

#[test]
fn decisions_are_told_in_lines() {
    assert_eq!(DecisionCategory::SplitK.as_str(), "SPLIT-K");
    assert_eq!(
        log_fusion_decision(2, &[1, 2, 3], 1, "chain", 2, -5),
        "[FUSION] Subgraph 2: Fused 3 ops [1, 2, 3] (seed Op 1) | chain | Eliminated 2 intermediates | Saved -5 bytes DRAM traffic"
    );
    assert_eq!(
        log_fusion_decision(0, &[0, 1, 2, 3, 4, 5, 6], 0, "x", 0, 0),
        "[FUSION] Subgraph 0: Fused 7 ops [0, 1, 2, ... 4 more] (seed Op 0) | x | Eliminated 0 intermediates | Saved 0 bytes DRAM traffic"
    );
    assert!(log_retention_decision(0, &[], &[1], "r", 0, 0).is_none());
    let (summary, details) = log_retention_decision(1, &[4, 10], &[3], "reuse", 300, 2).unwrap();
    assert_eq!(
        summary,
        "[RETENTION] Subgraph 1: Retaining 2 tensors (300 bytes) for 2 future uses | Evicting 1 tensors | reuse"
    );
    assert_eq!(details, "[RETENTION] Retained tensor IDs: [4, 10]");
    assert_eq!(log_strategy_decision("one", "two"), "[STRATEGY] one | two");
    assert_eq!(log_fallback_decision("here", "no room", "slow"), "[FALLBACK] here: no room | Impact: slow");
}

#[test]
fn open_operations_always_become_ready() {
    let p = problem(
        squares(8, 5),
        vec![pointwise(&[2, 3], &[4]), pointwise(&[0], &[1]), pointwise(&[1], &[2]), pointwise(&[1], &[3])],
        1000,
    );
    let meta = p.build_tensor_meta();
    let mut state = SchedulerState::new(&p, &meta);
    let mut order = Vec::new();
    while !state.open_ops().is_empty() {
        let next = state.get_ready_ops()[0];
        state.mark_scheduled(next);
        order.push(next);
    }
    assert_eq!(order, vec![1, 2, 3, 0]);
}

#[test]
fn three_tiles_fit() {
    for memory in [3072, 5000, 49152, 1_000_000] {
        let p = problem(squares(64, 3), vec![matmul(&[0, 1], &[2])], memory);
        for bottleneck in [BottleneckType::ComputeBound, BottleneckType::MemoryBound, BottleneckType::Balanced] {
            let (w, h) = compute_optimal_tile_size(&p, &ArithmeticIntensity { flops: 1, bytes: 1, bottleneck });
            assert!(3 * w * h <= memory);
        }
    }
}

#[test]
fn workers_share_fast_memory() {
    let p = chain(600);
    for cores in [3, 4, 9] {
        let machine = MachineProfile::with_cores(cores);
        let wp = WorkerProfile::from_problem(&machine, &p);
        assert!(wp.sram_budget_per_zone * machine.num_workers as i64 <= p.fast_memory_capacity);
    }
}

#[test]
fn fusing_never_costs() {
    for n in [1, 2, 7, 13, 16, 21, 60] {
        let p = chain(n);
        let ops: Vec<usize> = (0..n).collect();
        let f = find_elimination_factor(&ops, &p);
        assert!(f.numerator <= f.denominator);
        let f = find_sequence_factor(&ops, &p);
        assert!(f.numerator <= f.denominator);
    }
    let p = chain(21);
    let ops: Vec<usize> = (0..21).collect();
    let f = find_elimination_factor(&ops, &p);
    assert_eq!((f.numerator, f.denominator), (2100 - 75 * 21, 2100));
}

#[test]
fn what_is_searched_fits() {
    let mut p = product();
    p.fast_memory_capacity = 20000;
    let meta = p.build_tensor_meta();
    match plan_tiling(&[0], &p, &meta) {
        TilingStep::Search(list) => {
            assert!(list.iter().all(|g| validate_memory_fit(&[0], &p, g, &meta)));
        }
        other => panic!("{:?}", other),
    }
}

#[test]
fn groups_respect_fast_memory() {
    let p = problem(squares(128, 2), vec![pointwise(&[0], &[1])], 20000);
    let meta = p.build_tensor_meta();
    assert!(!validate_memory_fit(&[0], &p, &p.native_granularity, &meta));
    for strategy in [Strategy::FullFusion, Strategy::Stitched(1), Strategy::BranchParallel] {
        let c = solve(&p, &meta, strategy);
        assert_eq!((c.subgraphs[0].granularity_w, c.subgraphs[0].granularity_h), (64, 64));
        assert_eq!(c.subgraphs[0].granularity_k, None);
        assert!(check_groups_fit(&c, &p, &meta));
    }
    assert_eq!(schedule(&p).subgraphs[0].granularity, GranularityOutput { w: 64, h: 64, k: None });
    let p = problem(squares(128, 3), vec![matmul(&[0, 1], &[2])], 44000);
    let meta = p.build_tensor_meta();
    let c = solve(&p, &meta, Strategy::FullFusion);
    assert_eq!(c.subgraphs[0].granularity_k, Some(4));
    assert!(check_groups_fit(&c, &p, &meta));
    let p = problem(squares(128, 2), vec![pointwise(&[0], &[1])], 1);
    let meta = p.build_tensor_meta();
    for strategy in [Strategy::FullFusion, Strategy::Stitched(1), Strategy::BranchParallel] {
        let c = solve(&p, &meta, strategy);
        assert!(!check_groups_fit(&c, &p, &meta));
        assert_eq!((c.subgraphs[0].granularity_w, c.subgraphs[0].granularity_h), (128, 128));
        assert_eq!(c.subgraphs[0].granularity_k, None);
    }
    assert_eq!(schedule(&p).subgraphs[0].granularity, GranularityOutput { w: 128, h: 128, k: None });
    assert_eq!(find_group_granularity(&[0], &p, &meta), p.native_granularity);
    assert_eq!(find_fitting_granularity(&[0], &p, &meta), Granularity::new(1, 1, 1));
}

#[test]
fn schedules_that_fit_win() {
    assert_eq!(pick_winner(&[], &[]), None);
    assert_eq!(pick_winner(&[3, 1, 1], &[true, true, true]), Some(1));
    assert_eq!(pick_winner(&[3, 1, 2], &[true, false, true]), Some(2));
    assert_eq!(pick_winner(&[3, 1, 2], &[false, false, false]), Some(1));
}
