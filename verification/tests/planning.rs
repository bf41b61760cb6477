use std::collections::HashSet;
use mlsys::buffer_sharing::get_buffer_sharing_info;
use mlsys::cost::{
    find_shape_match, generate_shape_aware_candidates, generate_snake_traversal, ASYMMETRIC_TILING_CANDIDATES,
    TILING_CANDIDATES,
};
use mlsys::cost_model::{generate_adaptive_tile_candidates, GraphDensity, HardwareCharacteristics, HardwareProfile};
use mlsys::graph_rewrite::canonicalize_graph;
use mlsys::layout::{
    analyze_matmul_access_pattern, calculate_access_efficiency, calculate_analysis_confidence,
    calculate_strided_efficiency, calculate_transform_cost, AccessPattern, LayoutAnalysisConfig, MemoryLayout, UNITS,
};
use mlsys::models::{Granularity, Op, OpType, Problem, Tensor};
use mlsys::optimizer::{
    compute_arithmetic_intensity, compute_optimal_split_k, compute_optimal_tile_size, BottleneckType,
};
use mlsys::partition::{calculate_optimal_partitioning, validate_partition_plan, PartitionConfig, PartitionPlan};
use mlsys::pipeline::{
    analyze_pipeline_overlap, DmaCapability, PipelineHardwareProfile, SubgraphMemoryProfile,
    MAX_PIPELINE_OVERLAP_PERCENT, MIN_TRANSFER_FOR_PIPELINING,
};
use mlsys::weight_stationary::{
    analyze_weights, calculate_retention_priority, find_consecutive_sharing, TensorRole, WeightStationaryConfig,
};

fn op(op_type: OpType, inputs: Vec<usize>, outputs: Vec<usize>, base_cost: i64) -> Op {
    Op { op_type, inputs, outputs, base_cost }
}

fn problem(tensors: Vec<Tensor>, ops: Vec<Op>, capacity: i64, bandwidth: i64) -> Problem {
    Problem {
        tensors,
        ops,
        fast_memory_capacity: capacity,
        slow_memory_bandwidth: bandwidth,
        native_granularity: Granularity::new(128, 128, 1),
    }
}

fn squares(side: i64, count: usize) -> Vec<Tensor> {
    vec![Tensor { width: side, height: side }; count]
}

fn matmul_problem(m: i64, n: i64, k: i64, sram: i64) -> Problem {
    problem(
        vec![
            Tensor { width: k, height: m },
            Tensor { width: n, height: k },
            Tensor { width: n, height: m },
        ],
        vec![op(OpType::MatMul, vec![0, 1], vec![2], 1000)],
        sram,
        10,
    )
}

#[test]
fn test_snake_traversal_2x2() {
    let order = generate_snake_traversal(2, 2);
    assert_eq!(order, vec![0, 1, 3, 2]);
}

#[test]
fn test_snake_traversal_3x3() {
    let order = generate_snake_traversal(3, 3);
    assert_eq!(order, vec![0, 1, 2, 5, 4, 3, 6, 7, 8]);
}

#[test]
fn test_dynamic_tiling_candidates() {
    assert_eq!(TILING_CANDIDATES.len(), 5);
    assert!(TILING_CANDIDATES.contains(&(128, 128)));
    assert!(TILING_CANDIDATES.contains(&(64, 256)));
    assert!(TILING_CANDIDATES.contains(&(256, 64)));
}

#[test]
fn test_extended_asymmetric_candidates() {
    assert!(ASYMMETRIC_TILING_CANDIDATES.len() >= 6, "Should have at least 6 asymmetric candidates");
    assert!(
        ASYMMETRIC_TILING_CANDIDATES.iter().any(|&(w, h)| w >= 4 * h),
        "Should include very wide candidate (ratio >= 4:1)"
    );
    assert!(
        ASYMMETRIC_TILING_CANDIDATES.iter().any(|&(w, h)| h >= 4 * w),
        "Should include very tall candidate (ratio >= 1:4)"
    );
}

#[test]
fn test_shape_aware_candidates_generation() {
    let wide = problem(
        vec![Tensor { width: 512, height: 64 }, Tensor { width: 512, height: 64 }],
        vec![op(OpType::MatMul, vec![0], vec![1], 10000)],
        100000,
        10,
    );
    let candidates = generate_shape_aware_candidates(&[0], &wide);
    assert!(candidates.contains(&(128, 128)), "Should include base square tile");
    assert!(candidates.contains(&(64, 256)), "Should include base wide tile");
    assert!(
        candidates.iter().any(|&(w, h)| w > h * 2),
        "Should include extra-wide candidates for wide tensor"
    );
}

#[test]
fn test_shape_match_bonus() {
    let wide_tensor = Tensor { width: 256, height: 64 };
    let tall_tensor = Tensor { width: 64, height: 256 };
    let square_tensor = Tensor { width: 128, height: 128 };
    let bonus_wide_wide = find_shape_match(256, 64, &wide_tensor);
    let bonus_wide_tall = find_shape_match(256, 64, &tall_tensor);
    assert!(
        bonus_wide_wide < bonus_wide_tall,
        "Wide tile {} should match wide tensor better than tall tensor {}",
        bonus_wide_wide,
        bonus_wide_tall
    );
    let bonus_tall_tall = find_shape_match(64, 256, &tall_tensor);
    let bonus_tall_wide = find_shape_match(64, 256, &wide_tensor);
    assert!(
        bonus_tall_tall < bonus_tall_wide,
        "Tall tile {} should match tall tensor better than wide tensor {}",
        bonus_tall_tall,
        bonus_tall_wide
    );
    let bonus_square = find_shape_match(128, 128, &square_tensor);
    assert!(bonus_square <= 95, "Square tile should get good bonus for square tensor: {}", bonus_square);
}

#[test]
fn cost_model_test_hardware_profile_detection() {
    let make = |sram: i64| {
        problem(
            squares(128, 3),
            vec![op(OpType::Pointwise, vec![0], vec![1], 1000), op(OpType::Pointwise, vec![1], vec![2], 1000)],
            sram,
            10,
        )
    };
    assert_eq!(HardwareCharacteristics::from_problem(&make(500_000)).profile, HardwareProfile::HighEnd);
    assert_eq!(HardwareCharacteristics::from_problem(&make(300_000)).profile, HardwareProfile::MidRange);
    assert_eq!(HardwareCharacteristics::from_problem(&make(100_000)).profile, HardwareProfile::Constrained);
}

#[test]
fn test_prime_dimension_tile_generation() {
    let p = problem(
        squares(101, 3),
        vec![op(OpType::Pointwise, vec![0], vec![1], 1000), op(OpType::Pointwise, vec![1], vec![2], 1000)],
        100_000,
        10,
    );
    let hw = HardwareCharacteristics::from_problem(&p);
    let candidates = generate_adaptive_tile_candidates(&[0, 1], &p, &hw);
    assert!(!candidates.is_empty());
    assert!(
        candidates.contains(&(101, 101))
            || candidates.iter().any(|&(w, h)| 101 % w == 0 || 101 % h == 0 || w == 101 || h == 101)
    );
}

#[test]
fn test_operator_fusion() {
    let mut p = problem(
        squares(128, 5),
        vec![op(OpType::MatMul, vec![0, 1], vec![2], 1000), op(OpType::Pointwise, vec![2, 3], vec![4], 50)],
        50000,
        10,
    );
    let stats = canonicalize_graph(&mut p);
    assert!(stats.operator_fusion >= 1, "Expected fusion, got {}", stats.operator_fusion);
}

#[test]
fn test_chain_fusion() {
    let mut p = problem(
        squares(128, 3),
        vec![op(OpType::Pointwise, vec![0], vec![1], 100), op(OpType::Pointwise, vec![1], vec![2], 100)],
        50000,
        10,
    );
    let stats = canonicalize_graph(&mut p);
    assert!(stats.operator_fusion >= 1);
}

#[test]
fn test_buffer_sharing_analysis() {
    let p = problem(
        squares(128, 3),
        vec![op(OpType::Pointwise, vec![0], vec![1], 100), op(OpType::Pointwise, vec![1], vec![2], 100)],
        50000,
        10,
    );
    let sharing = get_buffer_sharing_info(&p);
    assert!(!sharing.liveness_intervals.is_empty());
}

#[test]
fn test_dce() {
    let mut p = problem(
        squares(128, 3),
        vec![op(OpType::Pointwise, vec![0], vec![1], 100), op(OpType::Pointwise, vec![0], vec![2], 100)],
        50000,
        10,
    );
    let _stats = canonicalize_graph(&mut p);
}

#[test]
fn test_matmul_access_patterns() {
    let p = problem(squares(128, 3), vec![op(OpType::MatMul, vec![0, 1], vec![2], 10000)], 50000, 10);
    let lhs = analyze_matmul_access_pattern(&p.ops[0], 0, &p.tensors);
    assert_eq!(lhs, AccessPattern::RowSequential);
    let rhs = analyze_matmul_access_pattern(&p.ops[0], 1, &p.tensors);
    assert_eq!(rhs, AccessPattern::ColumnSequential);
}

#[test]
fn test_strided_efficiency() {
    assert!(calculate_strided_efficiency(32) > 7);
    assert!(calculate_strided_efficiency(2048) < 3);
}

#[test]
fn test_access_efficiency_matching() {
    let tensor = Tensor { width: 128, height: 128 };
    let first = calculate_access_efficiency(&tensor, AccessPattern::RowSequential, MemoryLayout::RowMajor);
    assert_eq!(first, 10);
    let second = calculate_access_efficiency(&tensor, AccessPattern::ColumnSequential, MemoryLayout::RowMajor);
    assert!(second < 10);
    let third = calculate_access_efficiency(&tensor, AccessPattern::ColumnSequential, MemoryLayout::ColumnMajor);
    assert_eq!(third, 10);
}

#[test]
fn test_transform_cost_conservative() {
    let tensor = Tensor { width: 128, height: 128 };
    let bandwidth = 10;
    let units = calculate_transform_cost(&tensor, MemoryLayout::RowMajor, MemoryLayout::ColumnMajor, bandwidth);
    let cost = units as f64 / (UNITS * bandwidth) as f64;
    let min_cost = 2.0 * tensor.size() as f64 / bandwidth as f64;
    assert!(cost >= min_cost);
    assert!(cost > min_cost * 2.0);
}

#[test]
fn test_analysis_confidence_bounds() {
    let p = problem(squares(128, 3), vec![op(OpType::MatMul, vec![0, 1], vec![2], 10000)], 50000, 10);
    let config = LayoutAnalysisConfig::default();
    let net = 5000 * (UNITS * p.slow_memory_bandwidth) as i128;
    let c = calculate_analysis_confidence(&p.tensors[0], &[0], &p, net, &config);
    let confidence = c.numerator as f64 / c.denominator as f64;
    assert!(confidence >= 0.0 && confidence <= 1.0);
}

#[test]
fn test_arithmetic_intensity_matmul() {
    let p = matmul_problem(256, 256, 256, 100000);
    let meta = p.build_tensor_meta();
    let intensity = compute_arithmetic_intensity(&[0], &p, &meta);
    assert!(intensity.flops as f64 / intensity.bytes as f64 > 100.0);
    assert_eq!(intensity.bottleneck, BottleneckType::ComputeBound);
}

#[test]
fn test_optimal_tile_size() {
    let p = matmul_problem(256, 256, 256, 50000);
    let meta = p.build_tensor_meta();
    let intensity = compute_arithmetic_intensity(&[0], &p, &meta);
    let (w, h) = compute_optimal_tile_size(&p, &intensity);
    assert!(w >= 64 && w <= 256);
    assert!(h >= 64 && h <= 256);
}

#[test]
fn test_split_k_selection() {
    let p = matmul_problem(1024, 1024, 1024, 500000);
    let meta = p.build_tensor_meta();
    let intensity = compute_arithmetic_intensity(&[0], &p, &meta);
    let k = compute_optimal_split_k(&[0], &p, &intensity, (128, 128));
    assert!(k >= 2);
}

fn large_products(num_ops: usize, sram: i64) -> Problem {
    problem(
        squares(1024, num_ops + 1),
        (0..num_ops).map(|i| op(OpType::MatMul, vec![i, i], vec![i + 1], 1000)).collect(),
        sram,
        100,
    )
}

#[test]
fn test_partition_calculation_fits() {
    let p = large_products(5, 10_000_000);
    let meta = p.build_tensor_meta();
    let config = PartitionConfig::default();
    let plan = calculate_optimal_partitioning(&p, &meta, &config);
    assert_eq!(plan.num_subgraphs, 1);
    assert!(plan.can_use_full_fusion);
}

#[test]
fn test_partition_calculation_doesnt_fit() {
    let p = large_products(50, 500_000);
    let meta = p.build_tensor_meta();
    let config = PartitionConfig::default();
    let plan = calculate_optimal_partitioning(&p, &meta, &config);
    assert!(plan.num_subgraphs > 1);
    assert!(plan.ops_per_subgraph >= config.min_ops_per_subgraph);
    assert!(plan.ops_per_subgraph <= config.max_ops_per_subgraph);
}

#[test]
fn test_density_aware_config() {
    let sparse = PartitionConfig::from_density(GraphDensity::Sparse);
    let dense = PartitionConfig::from_density(GraphDensity::Dense);
    assert!(sparse.max_ops_per_subgraph > dense.max_ops_per_subgraph);
    assert!(sparse.target_utilization > dense.target_utilization);
}

#[test]
fn test_validate_partition_plan() {
    let valid = PartitionPlan {
        num_subgraphs: 3,
        ops_per_subgraph: 10,
        effective_capacity: 100_000,
        max_ops_per_subgraph: 50,
        rationale: "Test".to_string(),
        can_use_full_fusion: false,
    };
    assert!(validate_partition_plan(&valid, 30).is_ok());
    let invalid = PartitionPlan {
        num_subgraphs: 0,
        ops_per_subgraph: 10,
        effective_capacity: 100_000,
        max_ops_per_subgraph: 50,
        rationale: "Test".to_string(),
        can_use_full_fusion: false,
    };
    assert!(validate_partition_plan(&invalid, 30).is_err());
}

fn dependent_products() -> Problem {
    problem(
        squares(128, 5),
        vec![op(OpType::MatMul, vec![0, 1], vec![2], 1000), op(OpType::MatMul, vec![3, 2], vec![4], 1000)],
        100000,
        10,
    )
}

#[test]
fn pipeline_test_hardware_profile_detection() {
    let hw = PipelineHardwareProfile::from_problem(&dependent_products());
    assert_eq!(hw.dma_capability, DmaCapability::BasicConcurrent);
    assert!(hw.max_overlap > 0);
    assert!(hw.max_overlap <= MAX_PIPELINE_OVERLAP_PERCENT);
}

#[test]
fn test_no_overlap_with_dependency() {
    let p = dependent_products();
    let meta = p.build_tensor_meta();
    let g = Granularity::new(128, 128, 1);
    let a = SubgraphMemoryProfile::from_subgraph(&[0], &p, &g, &meta, &[], &HashSet::new());
    let b = SubgraphMemoryProfile::from_subgraph(&[1], &p, &g, &meta, &[], &HashSet::new());
    let hw = PipelineHardwareProfile::from_problem(&p);
    let overlap = analyze_pipeline_overlap(&a, &b, &hw);
    assert!(!overlap.can_overlap || overlap.no_overlap_reason.is_some());
}

#[test]
fn test_overlap_independent_subgraphs() {
    let p = problem(
        squares(128, 6),
        vec![op(OpType::MatMul, vec![0, 1], vec![2], 1000), op(OpType::MatMul, vec![3, 4], vec![5], 1000)],
        500000,
        10,
    );
    let meta = p.build_tensor_meta();
    let g = Granularity::new(128, 128, 1);
    let a = SubgraphMemoryProfile::from_subgraph(&[0], &p, &g, &meta, &[], &HashSet::new());
    let b = SubgraphMemoryProfile::from_subgraph(&[1], &p, &g, &meta, &[], &HashSet::new());
    println!("Profile A - prologue: {} bytes, epilogue: {} bytes", a.prologue_bytes, a.epilogue_bytes);
    println!("Profile B - prologue: {} bytes, epilogue: {} bytes", b.prologue_bytes, b.epilogue_bytes);
    let hw = PipelineHardwareProfile::from_problem(&p);
    let overlap = analyze_pipeline_overlap(&a, &b, &hw);
    println!("Overlap result: can_overlap={}, reason={:?}", overlap.can_overlap, overlap.no_overlap_reason);
    if a.epilogue_bytes >= MIN_TRANSFER_FOR_PIPELINING && b.prologue_bytes >= MIN_TRANSFER_FOR_PIPELINING {
        assert!(overlap.can_overlap, "Should overlap for independent subgraphs");
        assert!(overlap.time_saved > 0);
    }
}

fn shared_weight() -> Problem {
    problem(
        squares(128, 5),
        vec![op(OpType::MatMul, vec![0, 1], vec![3], 1000), op(OpType::MatMul, vec![0, 2], vec![4], 1000)],
        100000,
        10,
    )
}

#[test]
fn test_weight_detection() {
    let p = shared_weight();
    let meta = p.build_tensor_meta();
    let config = WeightStationaryConfig::default();
    let analysis = analyze_weights(&p, &meta, &config);
    assert!(analysis.sticky_tensors.contains(&0));
    assert_eq!(analysis.tensor_info[0].role, TensorRole::Weight);
    assert!(analysis.tensor_info[0].bandwidth_savings > 0);
}

#[test]
fn test_consecutive_sharing() {
    let p = shared_weight();
    let shares = find_consecutive_sharing(&[0, 1], &p);
    assert_eq!(shares.len(), 1);
    assert!(shares[0].shared_tensors.contains(&0));
    assert!(shares[0].bandwidth_savings > 0);
}

#[test]
fn test_retention_priority() {
    let high_reuse = calculate_retention_priority(1000, 5, &TensorRole::Weight, 4000);
    let low_reuse = calculate_retention_priority(10000, 2, &TensorRole::Activation, 10000);
    assert!(high_reuse > low_reuse);
}
