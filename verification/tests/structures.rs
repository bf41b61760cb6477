use std::collections::HashSet;
use mlsys::bitset_liveness::BitvecLiveness;
use mlsys::buffer_sharing::{
    can_tensors_be_colocated, compute_live_set_memory, compute_peak_memory_compacted, get_buffer_sharing_info,
    get_slot_neighbors, get_tensor_slot,
};
use mlsys::cost::MemoryState;
use mlsys::dataflow::{order_ops, predecessor_lists, successor_lists};
use mlsys::graph::order_vertices;
use mlsys::graph_rewrite::{
    algebraic_simplification_and_cse, canonicalize_graph, constant_folding, dead_code_elimination,
    identity_elimination, operator_fusion,
};
use mlsys::greedy::choose_greedily;
use mlsys::liveness::{
    analyze_liveness, compute_98percent_sram_utilization, compute_dynamic_split_k, compute_matmul_split_k,
    compute_recursive_dce_from_finals, compute_snake_path_tiling, compute_sram_reservation,
    find_aggressive_kernel_fusions, find_micro_kernel_candidates, find_pointwise_chains,
    optimize_split_k_with_sram_98,
};
use mlsys::memory::{
    analyze_tensor_residency, compute_available_retention_capacity, compute_subgraph_working_set,
    contains_matmul, estimate_retention_savings, find_fitting_granularity, find_immediate_consumers, find_split_k,
    validate_memory_fit,
};
use mlsys::models::{
    is_one, Granularity, GranularityOutput, Op, OpType, Problem, ProblemJson, Subgraph, SubgraphOutput, Tensor,
};
use mlsys::rewrite_graph::RewriteGraph;
use mlsys::snake::walk_grid;
use mlsys::sorting::{find_first_least, stable_order};
use mlsys::tiles::cut_tiles;
use mlsys::triage::{find_independent_branches, triage_graph, GraphTopology, PartitionStrategy};

fn op(op_type: OpType, inputs: &[usize], outputs: &[usize], base_cost: i64) -> Op {
    Op { op_type, inputs: inputs.to_vec(), outputs: outputs.to_vec(), base_cost }
}

fn pointwise(inputs: &[usize], outputs: &[usize]) -> Op {
    op(OpType::Pointwise, inputs, outputs, 100)
}

fn matmul(inputs: &[usize], outputs: &[usize]) -> Op {
    op(OpType::MatMul, inputs, outputs, 1000)
}

fn squares(side: i64, count: usize) -> Vec<Tensor> {
    vec![Tensor { width: side, height: side }; count]
}

fn problem(tensors: Vec<Tensor>, ops: Vec<Op>, capacity: i64) -> Problem {
    Problem {
        tensors,
        ops,
        fast_memory_capacity: capacity,
        slow_memory_bandwidth: 10,
        native_granularity: Granularity::new(128, 128, 1),
    }
}

fn diamond() -> Problem {
    problem(
        squares(64, 5),
        vec![pointwise(&[0], &[1]), pointwise(&[1], &[2]), pointwise(&[1], &[3]), pointwise(&[2, 3], &[4])],
        20000,
    )
}

fn chain(n: usize) -> Problem {
    problem(squares(128, n + 1), (0..n).map(|i| pointwise(&[i], &[i + 1])).collect(), 50000)
}

#[test]
fn kinds_have_names_that_are_read_back() {
    for kind in [OpType::MatMul, OpType::Pointwise] {
        assert_eq!(OpType::parse(kind.as_str()), kind);
    }
    assert_eq!(OpType::parse("Convolution"), OpType::Pointwise);
    assert_eq!("MatMul".parse::<OpType>(), Ok(OpType::MatMul));
}

#[test]
fn granularities_are_read_and_split() {
    assert_eq!(Granularity::from_array(&[]), Granularity::new(1, 1, 1));
    assert_eq!(Granularity::from_array(&[4, 5]), Granularity::new(4, 5, 1));
    assert_eq!(Granularity::from_array(&[4, 5, 6, 7]), Granularity::new(4, 5, 6));
    assert_eq!(Granularity::default(), Granularity::new(128, 128, 1));
    assert_eq!(Granularity::new(3, 1, 2).halve(), Granularity::new(1, 1, 2));
    assert_eq!(Granularity::new(8, 8, 1).with_split_k(4), Granularity::new(8, 8, 4));
    assert_eq!(Granularity::new(32, 32, 1).num_tiles(&Tensor { width: 100, height: 50 }), 8);
    assert_eq!(Tensor { width: 100, height: 50 }.slice_size(&Granularity::new(32, 64, 1)), 1600);
}

#[test]
fn one_part_is_not_written() {
    assert!(is_one(&None));
    assert!(is_one(&Some(1)));
    assert!(!is_one(&Some(2)));
    assert_eq!(GranularityOutput::from(&Granularity::new(8, 4, 1)), GranularityOutput { w: 8, h: 4, k: None });
    assert_eq!(GranularityOutput::from(&Granularity::new(8, 4, 2)), GranularityOutput { w: 8, h: 4, k: Some(2) });
}

#[test]
fn groups_are_written_as_they_are() {
    let sg = Subgraph {
        ops: vec![0, 2],
        tensors_to_retain: vec![5],
        granularity: GranularityOutput { w: 64, h: 32, k: Some(2) },
        traversal_order: Some(vec![0, 1, 3, 2]),
    };
    let out = SubgraphOutput::from(&sg);
    assert_eq!(out.ops, sg.ops);
    assert_eq!(out.tensors_to_retain, sg.tensors_to_retain);
    assert_eq!(out.granularity, sg.granularity);
    assert_eq!(out.traversal_order, sg.traversal_order);
}

#[test]
fn columns_are_read_side_by_side() {
    let p = Problem::from(ProblemJson {
        widths: vec![4, 8, 16],
        heights: vec![2, 3],
        op_types: vec!["MatMul".to_string(), "Relu".to_string(), "MatMul".to_string()],
        inputs: vec![vec![0], vec![1], vec![0]],
        outputs: vec![vec![1], vec![0], vec![1]],
        base_costs: vec![7, 9],
        fast_memory_capacity: 100,
        slow_memory_bandwidth: 5,
        native_granularity: vec![32, 16],
    });
    assert_eq!(p.tensors, vec![Tensor { width: 4, height: 2 }, Tensor { width: 8, height: 3 }]);
    assert_eq!(p.ops.len(), 2);
    assert_eq!(p.ops[0], op(OpType::MatMul, &[0], &[1], 7));
    assert_eq!(p.ops[1], op(OpType::Pointwise, &[1], &[0], 9));
    assert_eq!(p.native_granularity, Granularity::new(32, 16, 1));
    assert!(p.ops[1].is_fusible());
    assert!(!p.ops[1].is_matmul());
}

#[test]
fn tensors_know_who_makes_and_takes_them() {
    let p = diamond();
    let meta = p.build_tensor_meta();
    assert_eq!(meta[0].producer, None);
    assert!(meta[0].is_input && !meta[0].is_output);
    assert_eq!(meta[1].producer, Some(0));
    assert_eq!(meta[1].consumers, vec![1, 2]);
    assert!(meta[4].is_output && meta[4].consumers.is_empty());
    let shared: Vec<usize> = p.find_shared_tensors().into_iter().collect();
    assert_eq!(shared, vec![1]);
    let p = problem(squares(128, 2), vec![matmul(&[0, 0], &[1])], 50000);
    assert!(p.find_shared_tensors().is_empty());
}

#[test]
fn operations_run_after_what_they_need() {
    let p = problem(squares(8, 4), vec![pointwise(&[2], &[3]), pointwise(&[0], &[1]), pointwise(&[1], &[2])], 1000);
    let meta = p.build_tensor_meta();
    assert_eq!(order_ops(&p, &meta), vec![1, 2, 0]);
    assert_eq!(successor_lists(&p, &meta), vec![vec![], vec![2], vec![0]]);
    assert_eq!(predecessor_lists(&p, &meta), vec![vec![2], vec![], vec![1]]);
}

#[test]
fn cycles_never_become_ready() {
    let order = order_vertices(&vec![vec![1], vec![2], vec![1], vec![]]);
    assert_eq!(order, vec![0, 3]);
    let whole = order_vertices(&vec![vec![2], vec![2], vec![3], vec![]]);
    assert_eq!(whole, vec![0, 1, 2, 3]);
}

#[test]
fn equal_keys_keep_their_order() {
    let keys = vec![(2, 0, 0), (1, 5, 0), (2, 0, 0), (1, 4, 9)];
    assert_eq!(stable_order(&keys), vec![3, 1, 0, 2]);
    assert_eq!(find_first_least(&[3, 1, 1, 2]), Some(1));
    assert_eq!(find_first_least(&[]), None);
}

#[test]
fn choices_stay_in_the_budget() {
    let items = vec![10, 11, 12, 13];
    let sizes = vec![6, 5, 4, 1];
    let keys = vec![(0, 0, 0), (1, 0, 0), (2, 0, 0), (3, 0, 0)];
    assert_eq!(choose_greedily(&items, &sizes, &keys, 10), vec![10, 12]);
    assert_eq!(choose_greedily(&items, &sizes, &keys, 0), Vec::<usize>::new());
}

#[test]
fn small_remainders_join_the_last_tile() {
    let order: Vec<usize> = (0..10).collect();
    let tiles = cut_tiles(&order, 4, 3);
    assert_eq!(tiles, vec![vec![0, 1, 2, 3], vec![4, 5, 6, 7, 8, 9]]);
    let tiles = cut_tiles(&order, 4, 2);
    assert_eq!(tiles, vec![vec![0, 1, 2, 3], vec![4, 5, 6, 7], vec![8, 9]]);
}

#[test]
fn walks_turn_round_at_the_end_of_a_row() {
    let walk = walk_grid(3, 2);
    assert_eq!(walk, vec![(0, 0), (0, 1), (0, 2), (1, 2), (1, 1), (1, 0)]);
    let mut seen = HashSet::new();
    for step in walk.windows(2) {
        assert_eq!(step[0].0.abs_diff(step[1].0) + step[0].1.abs_diff(step[1].1), 1);
        seen.insert(step[0]);
        seen.insert(step[1]);
    }
    assert_eq!(seen.len(), 6);
    let path = compute_snake_path_tiling(300, 200, 128, 128);
    assert_eq!(path.tile_order, walk_grid(3, 2));
    assert_eq!(path.row_spans, vec![(0, 2), (2, 0)]);
    assert_eq!(path.estimated_cache_hits, 2048 * 5);
}

#[test]
fn graphs_are_classified() {
    let p = diamond();
    let meta = p.build_tensor_meta();
    let result = triage_graph(&p, &meta, 4);
    assert_eq!(result.topology, GraphTopology::Diamond);
    assert_eq!(result.max_fan_out, 2);
    assert_eq!(result.max_fan_in, 2);
    assert_eq!(result.depth, 3);
    assert_eq!(find_independent_branches(&p, &meta), vec![vec![1, 2, 3], vec![0]]);

    let line = chain(3);
    let result = triage_graph(&line, &line.build_tensor_meta(), 4);
    assert!(matches!(result.strategy, PartitionStrategy::SingleProcess));

    let long = chain(2001);
    let result = triage_graph(&long, &long.build_tensor_meta(), 4);
    match result.strategy {
        PartitionStrategy::TiledPartition { tiles, boundary_tensors } => {
            let mut ops: Vec<usize> = tiles.iter().flatten().copied().collect();
            ops.sort();
            assert_eq!(ops, (0..2001).collect::<Vec<usize>>());
            assert_eq!(boundary_tensors.len(), tiles.len());
        }
        other => panic!("{:?}", other),
    }
}

#[test]
fn tensors_inside_a_group_take_no_room() {
    let p = chain(3);
    let meta = p.build_tensor_meta();
    let g = p.native_granularity;
    let ws = compute_subgraph_working_set(&[0, 1, 2], &p, &g, &meta);
    assert_eq!(ws.input_slices, vec![(0, 16384)]);
    assert_eq!(ws.output_slices, vec![(3, 16384)]);
    assert_eq!(ws.total_size, 32768);
    assert!(ws.fits_in(32768));
    assert!(!ws.fits_in(32767));
    assert!(validate_memory_fit(&[0, 1, 2], &p, &g, &meta));
    let room = compute_available_retention_capacity(&[0, 1, 2], &p, &g, &meta);
    assert_eq!(room, 50000 - 32768 - 2500);
}

#[test]
fn tiles_are_halved_until_they_fit() {
    let mut p = chain(1);
    p.fast_memory_capacity = 10000;
    let meta = p.build_tensor_meta();
    assert!(!contains_matmul(&[0], &p));
    assert_eq!(find_fitting_granularity(&[0], &p, &meta), Granularity::new(64, 64, 1));

    let mut product = problem(squares(128, 3), vec![matmul(&[0, 1], &[2])], 49152);
    let meta = product.build_tensor_meta();
    let native = product.native_granularity;
    assert!(contains_matmul(&[0], &product));
    assert_eq!(find_split_k(&[0], &product, &native, &meta), Some(native));
    product.fast_memory_capacity = 49151;
    assert_eq!(find_split_k(&[0], &product, &native, &meta), Some(Granularity::new(128, 128, 4)));
    product.fast_memory_capacity = 100;
    assert_eq!(find_split_k(&[0], &product, &native, &meta), None);
    assert_eq!(find_split_k(&[0], &p, &native, &p.build_tensor_meta()), None);
}

#[test]
fn what_saves_most_stays() {
    let p = problem(
        vec![
            Tensor { width: 10, height: 10 },
            Tensor { width: 20, height: 10 },
            Tensor { width: 5, height: 10 },
            Tensor { width: 1, height: 1 },
        ],
        vec![
            pointwise(&[3], &[0, 1, 2]),
            pointwise(&[0, 1], &[]),
            pointwise(&[0, 2], &[]),
        ],
        1000,
    );
    let meta = p.build_tensor_meta();
    assert_eq!(analyze_tensor_residency(&[0, 1, 2], &[1, 2], &p, &meta, 150), vec![0, 2]);
    assert_eq!(analyze_tensor_residency(&[0, 1, 2], &[1, 2], &p, &meta, 0), Vec::<usize>::new());
    let remaining: HashSet<usize> = [1, 2].into_iter().collect();
    assert_eq!(estimate_retention_savings(0, &p, &meta, &remaining), 200);
    let ready = find_immediate_consumers(&[0, 1], &remaining, &p, &meta);
    assert_eq!(ready, [1].into_iter().collect::<HashSet<usize>>());
}

#[test]
fn lifetimes_end_with_the_last_use() {
    let p = diamond();
    let meta = p.build_tensor_meta();
    let analysis = analyze_liveness(&p, &meta);
    let shared = &analysis.intervals[1];
    assert_eq!((shared.start, shared.end, shared.reuse_count, shared.size), (0, 2, 2, 4096));
    assert!(shared.is_live_at(2));
    assert!(!shared.is_live_at(3));
    assert!(analysis.live_at(1).contains(&1));
    let chosen = analysis.get_sram_candidates(8192);
    let total: i64 = chosen.iter().map(|&t| analysis.intervals[t].size).sum();
    assert!(total <= 8192);
    for place in 0..4 {
        let live = analysis.live_at(place);
        let bytes: i64 = live.iter().map(|&t| analysis.intervals[t].size).sum();
        assert!(live.len() <= analysis.max_live_tensors);
        assert!(bytes <= analysis.max_live_bytes);
    }
    let late = problem(squares(128, 4), vec![pointwise(&[0], &[1]), pointwise(&[1, 2], &[3])], 50000);
    let found = analyze_liveness(&late, &late.build_tensor_meta());
    assert_eq!((found.intervals[2].start, found.intervals[2].end), (1, 1));
    assert_eq!((found.intervals[0].start, found.intervals[3].start), (0, 1));
    let reservation = compute_sram_reservation(&analysis, 20000);
    assert!(reservation.guaranteed_bytes <= 10000);
}

#[test]
fn work_that_does_not_fit_is_cut() {
    assert_eq!(compute_dynamic_split_k(10000, 4, 50000), 1);
    assert_eq!(compute_dynamic_split_k(10001, 4, 50000), 2);
    assert_eq!(compute_dynamic_split_k(20001, 4, 50000), 4);
    assert_eq!(compute_matmul_split_k(100, 100, 100, 500), 1);
    assert_eq!(compute_matmul_split_k(101, 100, 100, 500), 2);
    assert_eq!(compute_98percent_sram_utilization(1000), 980);
    assert_eq!(optimize_split_k_with_sram_98(100, 100, 100, 410), 1);
    assert_eq!(optimize_split_k_with_sram_98(100, 100, 100, 400), 2);
}

#[test]
fn chains_and_kernels_do_not_overlap() {
    let p = problem(
        squares(32, 6),
        vec![matmul(&[0, 1], &[2]), pointwise(&[2], &[3]), pointwise(&[3], &[4]), matmul(&[4, 1], &[5])],
        50000,
    );
    let meta = p.build_tensor_meta();
    let chains = find_pointwise_chains(&p, &meta);
    assert_eq!(chains.len(), 1);
    assert_eq!(chains[0].ops, vec![1, 2]);
    assert_eq!(chains[0].total_base_cost, 200);
    assert!(chains[0].external_inputs.contains(&2));
    assert!(chains[0].external_outputs.contains(&4));
    assert!(chains[0].intermediates.contains(&3));
    let kernels = find_aggressive_kernel_fusions(&p, &meta);
    assert_eq!(kernels.len(), 1);
    assert_eq!(kernels[0].matmul_op, 0);
    assert_eq!(kernels[0].epilogue_ops, vec![1, 2]);
    assert_eq!(kernels[0].combined_cost, 1200);
    assert_eq!(kernels[0].setup_cycles_saved, 50);
    for group in find_micro_kernel_candidates(&p, &meta) {
        assert!(group.total_output_size <= 128 * 128);
        assert!(!group.ops.is_empty());
    }
}

#[test]
fn what_no_result_needs_is_dropped() {
    let p = problem(squares(8, 4), vec![pointwise(&[0], &[1]), pointwise(&[1], &[2]), pointwise(&[1], &[3])], 1000);
    let meta = p.build_tensor_meta();
    assert!(compute_recursive_dce_from_finals(&p, &meta).is_empty());
    let stuck = problem(squares(8, 3), vec![pointwise(&[0], &[1]), pointwise(&[2], &[2])], 1000);
    let meta = stuck.build_tensor_meta();
    let dropped = compute_recursive_dce_from_finals(&stuck, &meta);
    assert_eq!(dropped, [1].into_iter().collect::<HashSet<usize>>());
}

#[test]
fn tensors_that_live_together_collide() {
    let p = chain(3);
    let meta = p.build_tensor_meta();
    let live = BitvecLiveness::from_problem(&p, &meta);
    assert_eq!(live.num_tensors(), 4);
    assert_eq!(live.num_ops(), 3);
    for a in 0..4 {
        for b in 0..4 {
            assert_eq!(live.collides(a, b), live.collides(b, a));
        }
    }
    assert!(live.is_live_at(1, 0) && live.is_live_at(1, 1) && !live.is_live_at(1, 2));
    let now: Vec<usize> = live.live_tensors_at(1).iter().collect();
    assert_eq!(now, vec![1, 2]);
    assert_eq!(live.live_count_at(1), 2);
    assert_eq!(live.live_count_at(9), 0);
    assert_eq!(live.live_bytes_at(1, &p), 32768);
    assert_eq!(live.peak_memory(&p), (0, 32768));
    let hits: Vec<usize> = live.collision_set(1).iter().collect();
    assert_eq!(hits, vec![0, 2]);
    let graph = live.interference_graph();
    assert_eq!(graph.len(), 4);
    assert!(graph[2].contains(1) && graph[2].contains(3) && !graph[2].contains(0));
}

#[test]
fn slots_are_shared_only_apart() {
    let p = chain(4);
    let info = get_buffer_sharing_info(&p);
    assert_eq!(info.original_memory, 5 * 16384);
    assert!(info.compacted_memory <= info.original_memory);
    for (&a, &slot) in &info.slot_assignments {
        for (&b, &other) in &info.slot_assignments {
            if a != b && slot == other {
                let (x, y) = (info.liveness_intervals[&a], info.liveness_intervals[&b]);
                assert!(x.1 < y.0 || y.1 < x.0);
                assert!(get_slot_neighbors(a, &info).contains(&b));
            }
        }
    }
    assert_eq!(get_tensor_slot(99, &info), None);
    assert_eq!(compute_peak_memory_compacted(&p), info.compacted_memory);
    let two: HashSet<usize> = [1, 2].into_iter().collect();
    let memory = compute_live_set_memory(&two, &info, &p.tensors);
    assert_eq!(memory, 32768);
    assert!(can_tensors_be_colocated(&[1, 2], &info, &p.tensors, 32768));
    assert!(!can_tensors_be_colocated(&[1, 2], &info, &p.tensors, 32767));
}

#[test]
fn slots_are_as_few_as_tensors_live_together() {
    let fan = problem(
        squares(16, 6),
        vec![pointwise(&[0], &[1]), pointwise(&[0], &[2]), pointwise(&[0], &[3]), matmul(&[1, 2, 3], &[4])],
        5000,
    );
    for (p, slots) in [(chain(4), 2), (diamond(), 3), (fan, 4)] {
        let info = get_buffer_sharing_info(&p);
        let most = (0..p.ops.len())
            .map(|at| info.liveness_intervals.values().filter(|range| range.0 <= at && at <= range.1).count())
            .max()
            .unwrap();
        assert_eq!(info.slot_sizes.len(), most);
        assert_eq!(info.slot_sizes.len(), slots);
    }
}

#[test]
fn neighbours_are_fused_and_duplicates_dropped() {
    let p = problem(
        squares(16, 5),
        vec![matmul(&[0, 1], &[2]), pointwise(&[2], &[3]), pointwise(&[3], &[4])],
        5000,
    );
    let mut graph = RewriteGraph::from_problem(&p);
    assert_eq!(graph.active_op_count(), 3);
    assert_eq!(constant_folding(&mut graph), 0);
    let fused = operator_fusion(&mut graph);
    assert!(fused >= 1);
    assert_eq!(graph.active_op_count(), 3 - fused);

    let twins = problem(
        squares(16, 5),
        vec![pointwise(&[0], &[1]), pointwise(&[0], &[2]), matmul(&[1, 2], &[3])],
        5000,
    );
    let mut graph = RewriteGraph::from_problem(&twins);
    assert_eq!(identity_elimination(&mut graph), 0);
    let (_, dropped) = algebraic_simplification_and_cse(&mut graph);
    assert_eq!(dropped, 1);
    assert_eq!(graph.resolve_tensor(2), 1);
    assert_eq!(graph.resolve_tensor(1), 1);
    assert_eq!(dead_code_elimination(&mut graph), 0);
    assert_eq!(graph.active_op_count(), 2);
}

#[test]
fn chains_of_different_cost_stay_apart() {
    let mut p = problem(
        squares(16, 5),
        vec![
            op(OpType::Pointwise, &[0], &[1], 5),
            op(OpType::Pointwise, &[1], &[2], 5),
            op(OpType::Pointwise, &[0], &[3], 5),
            op(OpType::Pointwise, &[3], &[4], 7),
        ],
        5000,
    );
    let stats = canonicalize_graph(&mut p);
    assert_eq!((stats.operator_fusion, stats.cse_elimination, stats.dce_elimination), (2, 0, 0));
    assert_eq!(p.ops, vec![op(OpType::Pointwise, &[0], &[2], 10), op(OpType::Pointwise, &[0], &[4], 12)]);
}

#[test]
fn fused_operations_take_in_what_both_took_in() {
    let mut p = problem(squares(16, 5), vec![matmul(&[0, 1], &[2]), pointwise(&[2, 3], &[4])], 5000);
    let stats = canonicalize_graph(&mut p);
    assert_eq!(stats.operator_fusion, 1);
    assert_eq!(p.ops, vec![op(OpType::MatMul, &[0, 1, 3], &[4], 1100)]);

    let mut p = problem(
        squares(16, 6),
        vec![op(OpType::Pointwise, &[5], &[3], 20), matmul(&[0, 1], &[2]), op(OpType::Pointwise, &[2, 3], &[4], 50)],
        5000,
    );
    let stats = canonicalize_graph(&mut p);
    assert_eq!(stats.operator_fusion, 2);
    assert_eq!(p.ops, vec![op(OpType::MatMul, &[0, 1, 5], &[4], 1070)]);

    // A product takes no part in what feeds it.
    let mut p = problem(squares(16, 5), vec![pointwise(&[0], &[1]), matmul(&[1, 2], &[3])], 5000);
    assert_eq!(canonicalize_graph(&mut p).operator_fusion, 0);
    assert_eq!(p.ops, vec![pointwise(&[0], &[1]), matmul(&[1, 2], &[3])]);

    // A tensor that is taken in twice goes twice.
    let mut p = problem(squares(16, 4), vec![pointwise(&[0], &[1]), pointwise(&[1, 2, 1, 2], &[3])], 5000);
    assert_eq!(canonicalize_graph(&mut p).operator_fusion, 1);
    assert_eq!(p.ops, vec![op(OpType::Pointwise, &[0, 2, 2], &[3], 200)]);
}

#[test]
fn chains_are_fused_to_the_end() {
    let mut p = problem(
        squares(16, 6),
        vec![matmul(&[0, 1], &[2]), pointwise(&[2, 3], &[4]), op(OpType::Pointwise, &[4], &[5], 7)],
        5000,
    );
    let stats = canonicalize_graph(&mut p);
    assert_eq!((stats.operator_fusion, stats.final_ops), (2, 1));
    assert_eq!(p.ops, vec![op(OpType::MatMul, &[0, 1, 3], &[5], 1107)]);

    // A tensor that goes to two operations ends the chain.
    let mut p = problem(
        squares(16, 6),
        vec![
            matmul(&[0, 1], &[2]),
            pointwise(&[2], &[3]),
            op(OpType::Pointwise, &[3], &[4], 7),
            op(OpType::Pointwise, &[3], &[5], 9),
        ],
        5000,
    );
    assert_eq!(canonicalize_graph(&mut p).operator_fusion, 1);
    assert_eq!(
        p.ops,
        vec![
            op(OpType::MatMul, &[0, 1], &[3], 1100),
            op(OpType::Pointwise, &[3], &[4], 7),
            op(OpType::Pointwise, &[3], &[5], 9),
        ]
    );
}

#[test]
fn several_outputs_are_not_fused() {
    let ops = vec![pointwise(&[0], &[1, 2]), op(OpType::Pointwise, &[1], &[3], 30)];
    let mut p = problem(squares(16, 4), ops, 5000);
    let stats = canonicalize_graph(&mut p);
    assert_eq!(stats.total_eliminated(), 0);
    assert_eq!(p.ops, vec![pointwise(&[0], &[1, 2]), op(OpType::Pointwise, &[1], &[3], 30)]);
}

#[test]
fn fused_costs_hold_all_that_was_absorbed() {
    let mut p = problem(
        squares(16, 4),
        vec![
            op(OpType::Pointwise, &[1], &[2], 3),
            op(OpType::Pointwise, &[2], &[3], 4),
            op(OpType::Pointwise, &[0], &[1], 5),
        ],
        5000,
    );
    canonicalize_graph(&mut p);
    assert_eq!(p.ops, vec![op(OpType::Pointwise, &[0], &[3], 12)]);
}

#[test]
fn equal_results_share_a_tensor() {
    let mut p = problem(
        squares(16, 6),
        vec![
            pointwise(&[0, 1], &[2]),
            pointwise(&[1, 0], &[3]),
            op(OpType::Pointwise, &[0, 1], &[4], 7),
            matmul(&[0, 1], &[5]),
        ],
        5000,
    );
    let stats = canonicalize_graph(&mut p);
    assert_eq!(stats.cse_elimination, 1);
    assert_eq!(
        p.ops,
        vec![pointwise(&[0, 1], &[2]), op(OpType::Pointwise, &[0, 1], &[4], 7), matmul(&[0, 1], &[5])]
    );

    // The result of an identity is what the identity takes in.
    let mut p = problem(squares(16, 3), vec![pointwise(&[0], &[1]), op(OpType::Pointwise, &[1], &[2], 0)], 5000);
    let stats = canonicalize_graph(&mut p);
    assert_eq!((stats.identity_elimination, stats.operator_fusion), (1, 0));
    assert_eq!(p.ops, vec![pointwise(&[0], &[1])]);
}

#[test]
fn problems_are_written_and_read_back() {
    let mut p = diamond();
    p.ops.push(matmul(&[4, 0], &[3]));
    p.native_granularity = Granularity::new(64, 32, 2);
    let columns = ProblemJson::from(&p);
    assert_eq!(columns.widths, vec![64; 5]);
    assert_eq!(columns.op_types[3..], ["Pointwise", "MatMul"]);
    assert_eq!(columns.inputs[3], vec![2, 3]);
    assert_eq!(columns.native_granularity, vec![64, 32, 2]);
    let back = Problem::from(columns);
    assert_eq!(back.tensors, p.tensors);
    assert_eq!(back.ops, p.ops);
    assert_eq!(back.fast_memory_capacity, p.fast_memory_capacity);
    assert_eq!(back.slow_memory_bandwidth, p.slow_memory_bandwidth);
    assert_eq!(back.native_granularity, p.native_granularity);
}

#[test]
fn canonical_graphs_keep_their_machine() {
    let mut p = problem(
        squares(16, 5),
        vec![matmul(&[0, 1], &[2]), pointwise(&[2], &[3]), pointwise(&[3], &[4])],
        5000,
    );
    let stats = canonicalize_graph(&mut p);
    assert_eq!(stats.original_ops, 3);
    assert_eq!(stats.final_ops, p.ops.len());
    assert_eq!(stats.final_tensors, p.tensors.len());
    assert_eq!(stats.original_ops - stats.final_ops, stats.total_eliminated());
    assert!(stats.compacted_memory <= stats.original_memory);
    assert_eq!(p.fast_memory_capacity, 5000);
    assert_eq!(p.slow_memory_bandwidth, 10);
    assert_eq!(p.native_granularity, Granularity::new(128, 128, 1));
}

#[test]
fn what_leads_to_no_result_is_dropped() {
    let p = problem(squares(16, 3), vec![pointwise(&[0], &[1]), pointwise(&[2], &[2])], 5000);
    let mut graph = RewriteGraph::from_problem(&p);
    assert_eq!(dead_code_elimination(&mut graph), 1);
    assert!(graph.is_active(0));
    assert!(!graph.is_active(1));
    assert_eq!(graph.to_problem(&p).ops, vec![pointwise(&[0], &[1])]);
}

#[test]
fn identities_hand_their_input_on() {
    let p = problem(
        squares(16, 3),
        vec![op(OpType::Pointwise, &[0], &[1], 0), pointwise(&[1], &[2])],
        5000,
    );
    let mut graph = RewriteGraph::from_problem(&p);
    assert_eq!(identity_elimination(&mut graph), 1);
    assert_eq!(graph.resolve_tensor(1), 0);
    graph.recalculate_outputs();
    assert_eq!(graph.output_tensors, vec![2]);
    assert_eq!(graph.to_problem(&p).ops, vec![pointwise(&[0], &[2])]);
}

#[test]
fn known_values_are_folded() {
    let p = problem(
        squares(16, 4),
        vec![pointwise(&[0], &[1]), pointwise(&[1], &[2]), pointwise(&[2, 3], &[3])],
        5000,
    );
    let mut graph = RewriteGraph::from_problem(&p);
    graph.constant_tensors.insert(0);
    assert_eq!(constant_folding(&mut graph), 2);
    assert!(graph.constant_tensors.contains(&2));
    assert!(graph.is_active(2));
}

#[test]
fn fused_groups_take_no_more_room() {
    let p = diamond();
    let meta = p.build_tensor_meta();
    let room = |ops: &[usize], g: &Granularity| compute_subgraph_working_set(ops, &p, g, &meta).total_size;
    for g in [Granularity::new(128, 128, 1), Granularity::new(32, 16, 4)] {
        assert!(room(&[0, 1, 2, 3], &g) <= room(&[0, 1], &g) + room(&[2, 3], &g));
        assert_eq!(room(&[0, 1, 2, 3], &g), room(&[2, 3, 0, 1], &g));
        assert_eq!(room(&[], &g), 0);
    }
    let product = problem(squares(128, 4), vec![matmul(&[0, 1], &[2]), pointwise(&[2, 0], &[3])], 50000);
    let meta = product.build_tensor_meta();
    let g = Granularity::new(128, 128, 4);
    let room = |ops: &[usize]| compute_subgraph_working_set(ops, &product, &g, &meta).total_size;
    assert_eq!(room(&[0, 1]), 2 * 4096 + 16384);
    assert_eq!(room(&[0]), 2 * 4096 + 2 * 16384);
    assert_eq!(room(&[1]), 3 * 16384);
    let left = compute_available_retention_capacity(&[0, 1], &product, &g, &meta);
    assert_eq!(left + room(&[0, 1]) + 50000 / 20, 50000);
}

#[test]
fn endless_tensors_do_not_fit() {
    let side = i64::MAX;
    let mut p = problem(squares(side, 2), vec![pointwise(&[0], &[1])], i64::MAX);
    p.native_granularity = Granularity::new(side, side, 1);
    let meta = p.build_tensor_meta();
    assert!(!validate_memory_fit(&[0], &p, &p.native_granularity, &meta));
    assert!(!validate_memory_fit(&[0], &p, &find_fitting_granularity(&[0], &p, &meta), &meta));
    assert!(validate_memory_fit(&[0], &p, &Granularity::new(1 << 30, 1 << 30, 1), &meta));
    assert!(validate_memory_fit(&[0], &p, &Granularity::new(-side, side, 1), &meta));
    assert_eq!(compute_available_retention_capacity(&[0], &p, &p.native_granularity, &meta), 0);
}

#[test]
fn copies_hold_the_same() {
    let p = diamond();
    let lives = BitvecLiveness::from_problem(&p, &p.build_tensor_meta());
    let copy = lives.clone();
    for a in 0..5 {
        for b in 0..5 {
            assert_eq!(copy.collides(a, b), lives.collides(a, b));
        }
    }
    let state = MemoryState::with_resident(&[3, 1]);
    let mut copy = state.clone();
    assert_eq!(copy.resident_tensors, state.resident_tensors);
    copy.mark_resident(2);
    assert_ne!(copy.resident_tensors, state.resident_tensors);
}
