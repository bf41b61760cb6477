use mlsys::bitset_liveness::BitvecLiveness;
use mlsys::hw_profile::{MachineProfile, WorkerProfile};
use mlsys::liveness::{analyze_liveness, compute_dynamic_split_k, find_pointwise_chains};
use mlsys::memory::{compute_op_working_set, compute_subgraph_working_set};
use mlsys::models::{Granularity, Op, OpType, Problem, Tensor};
use mlsys::parallel::{solve_full_fusion, solve_stitched};
use mlsys::scheduler::{optimize_schedule, schedule};
use mlsys::triage::{compute_graph_depth, tile_graph, topological_sort, triage_graph, GraphTopology};

fn pointwise(inputs: Vec<usize>, outputs: Vec<usize>, base_cost: i64) -> Op {
    Op { op_type: OpType::Pointwise, inputs, outputs, base_cost }
}

fn squares(side: i64, count: usize) -> Vec<Tensor> {
    vec![Tensor { width: side, height: side }; count]
}

fn chain(n: usize, capacity: i64, bandwidth: i64) -> Problem {
    Problem {
        tensors: squares(128, n + 1),
        ops: (0..n).map(|i| pointwise(vec![i], vec![i + 1], 100)).collect(),
        fast_memory_capacity: capacity,
        slow_memory_bandwidth: bandwidth,
        native_granularity: Granularity::new(128, 128, 1),
    }
}

fn diamond(side: i64, capacity: i64) -> Problem {
    Problem {
        tensors: squares(side, 5),
        ops: vec![
            pointwise(vec![0], vec![1], 100),
            pointwise(vec![1], vec![2], 100),
            pointwise(vec![1], vec![3], 100),
            pointwise(vec![2, 3], vec![4], 100),
        ],
        fast_memory_capacity: capacity,
        slow_memory_bandwidth: 10,
        native_granularity: Granularity::new(side, side, 1),
    }
}

fn pair(capacity: i64) -> Problem {
    Problem {
        tensors: squares(128, 3),
        ops: vec![pointwise(vec![0], vec![1], 100), pointwise(vec![1], vec![2], 10)],
        fast_memory_capacity: capacity,
        slow_memory_bandwidth: 10,
        native_granularity: Granularity::new(128, 128, 1),
    }
}

#[test]
fn test_tensor_size() {
    let t = Tensor { width: 128, height: 128 };
    assert_eq!(t.size(), 16384);
}

#[test]
fn test_granularity_halve() {
    let g = Granularity::new(128, 128, 1);
    let h = g.halve();
    assert_eq!(h.width, 64);
    assert_eq!(h.height, 64);
}

#[test]
fn test_working_set_single_op() {
    let problem = pair(20000);
    let ws = compute_op_working_set(&problem.ops[0], &problem.tensors, &problem.native_granularity);
    assert_eq!(ws.total_size, 32768);
}

#[test]
fn test_subgraph_working_set_fused() {
    let problem = pair(20000);
    let meta = problem.build_tensor_meta();
    let ws = compute_subgraph_working_set(&[0, 1], &problem, &problem.native_granularity, &meta);
    assert_eq!(ws.total_size, 32768);
    assert_eq!(ws.intermediate_slices.len(), 1);
}

#[test]
fn test_liveness_analysis() {
    let problem = chain(3, 50000, 10);
    let meta = problem.build_tensor_meta();
    let analysis = analyze_liveness(&problem, &meta);
    assert_eq!(analysis.intervals.len(), 4);
    assert!(analysis.intervals[1].reuse_count >= 1);
}

#[test]
fn test_pointwise_chain_detection() {
    let problem = chain(3, 50000, 10);
    let meta = problem.build_tensor_meta();
    let chains = find_pointwise_chains(&problem, &meta);
    assert!(!chains.is_empty());
    let total_ops: usize = chains.iter().map(|c| c.ops.len()).sum();
    assert_eq!(total_ops, 3);
}

#[test]
fn test_dynamic_split_k() {
    let split = compute_dynamic_split_k(15000, 4, 50000);
    assert!(split >= 2, "Expected split >= 2, got {}", split);
    let no_split = compute_dynamic_split_k(128, 4, 50000);
    assert_eq!(no_split, 1, "Expected no split, got {}", no_split);
}

#[test]
fn test_collision_chain() {
    let problem = chain(3, 50000, 10);
    let meta = problem.build_tensor_meta();
    let bl = BitvecLiveness::from_problem(&problem, &meta);
    assert!(bl.collides(0, 1));
    assert!(!bl.collides(0, 3));
}

#[test]
fn test_live_count() {
    let problem = chain(3, 50000, 10);
    let meta = problem.build_tensor_meta();
    let bl = BitvecLiveness::from_problem(&problem, &meta);
    for op in 0..3 {
        let count = bl.live_count_at(op);
        assert!(count >= 1 && count <= 4, "Op {} has {} live tensors", op, count);
    }
}

#[test]
fn test_peak_memory() {
    let problem = chain(3, 50000, 10);
    let meta = problem.build_tensor_meta();
    let bl = BitvecLiveness::from_problem(&problem, &meta);
    let (_, peak_bytes) = bl.peak_memory(&problem);
    assert!(peak_bytes >= 128 * 128 * 2);
}

#[test]
fn test_diamond_collision() {
    let problem = diamond(64, 50000);
    let meta = problem.build_tensor_meta();
    let bl = BitvecLiveness::from_problem(&problem, &meta);
    assert!(bl.collides(1, 2));
    assert!(bl.collides(1, 3));
    assert!(bl.collides(2, 3));
}

#[test]
fn test_worker_profile_small_graph() {
    let machine = MachineProfile::with_cores(8);
    let mut problem = chain(5, 50000, 10);
    problem.tensors = squares(128, 10);
    let wp = WorkerProfile::from_problem(&machine, &problem);
    assert!(!wp.use_multiprocess);
}

#[test]
fn test_worker_profile_large_graph() {
    let machine = MachineProfile::with_cores(8);
    let problem = chain(2000, 500000, 100);
    let wp = WorkerProfile::from_problem(&machine, &problem);
    assert!(wp.use_multiprocess);
    assert!(wp.tile_size_hint >= 100);
    assert!(wp.tile_size_hint <= 2000);
}

#[test]
fn test_triage_linear() {
    let problem = chain(10, 50000, 10);
    let meta = problem.build_tensor_meta();
    let result = triage_graph(&problem, &meta, 4);
    assert_eq!(result.topology, GraphTopology::Linear);
    assert_eq!(result.max_fan_out, 1);
    assert_eq!(result.suggested_workers, 1);
}

#[test]
fn test_triage_diamond() {
    let problem = diamond(128, 50000);
    let meta = problem.build_tensor_meta();
    let result = triage_graph(&problem, &meta, 4);
    assert_eq!(result.topology, GraphTopology::Diamond);
    assert!(result.diamond_count >= 1);
}

#[test]
fn test_triage_monster() {
    let problem = chain(3000, 50000, 10);
    let meta = problem.build_tensor_meta();
    let result = triage_graph(&problem, &meta, 8);
    assert_eq!(result.topology, GraphTopology::Monster);
    assert!(result.suggested_workers > 1);
}

#[test]
fn test_topological_sort_simple() {
    let problem = chain(5, 50000, 10);
    let meta = problem.build_tensor_meta();
    let order = topological_sort(&problem, &meta);
    assert_eq!(order.len(), 5);
    for (i, &op) in order.iter().enumerate() {
        assert_eq!(op, i);
    }
}

#[test]
fn test_graph_depth_linear() {
    let problem = chain(10, 50000, 10);
    let meta = problem.build_tensor_meta();
    let depth = compute_graph_depth(&problem, &meta);
    assert_eq!(depth, 10);
}

#[test]
fn test_tile_graph_large() {
    let problem = chain(1000, 50000, 10);
    let meta = problem.build_tensor_meta();
    let (tiles, boundaries) = tile_graph(&problem, &meta, 4);
    assert!(tiles.len() >= 2);
    let total_ops: usize = tiles.iter().map(|t| t.len()).sum();
    assert_eq!(total_ops, 1000);
    assert_eq!(boundaries.len(), tiles.len());
}

#[test]
fn test_full_fusion() {
    let p = pair(50000);
    let c = solve_full_fusion(&p, &p.build_tensor_meta());
    assert_eq!(c.subgraphs.len(), 1);
    assert_eq!(c.subgraphs[0].ops.len(), 2);
}

#[test]
fn test_stitched() {
    let p = chain(1000, 500000, 100);
    let c = solve_stitched(&p, &p.build_tensor_meta(), 2);
    assert!(c.subgraphs.len() >= 2);
    assert_eq!(c.subgraphs.iter().map(|s| s.ops.len()).sum::<usize>(), 1000);
}

#[test]
fn test_schedule_fuses_ops() {
    let problem = pair(50000);
    let solution = schedule(&problem);
    assert_eq!(solution.subgraphs.len(), 1);
    assert_eq!(solution.subgraphs[0].ops.len(), 2);
}

#[test]
fn test_end_to_end_simple() {
    let problem = pair(50000);
    let initial = schedule(&problem);
    let solution = optimize_schedule(initial, &problem);
    assert!(!solution.subgraphs.is_empty());
    let mut scheduled_ops: Vec<usize> = solution.subgraphs.iter().flat_map(|sg| sg.ops.iter().copied()).collect();
    scheduled_ops.sort();
    assert_eq!(scheduled_ops, vec![0, 1]);
}

#[test]
fn test_diamond_pattern() {
    let problem = diamond(64, 20000);
    let solution = schedule(&problem);
    let total_ops: usize = solution.subgraphs.iter().map(|sg| sg.ops.len()).sum();
    assert_eq!(total_ops, 4);
}
