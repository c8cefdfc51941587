use std::sync::atomic::AtomicBool;

use heuristic_solver_eweidner::heuristic_solver::{
    greedy_switch, greedy_switch_k_step, local_search, solve, solve_base_heuristic_on_penalty_graph,
    LocalSearchStrat, INSTANCE_SIZE_CUTOFF,
};
use heuristic_solver_eweidner::input_check::{check_solver_input, solve_checked};
use heuristic_solver_eweidner::interconnection::{
    check_edges_in_range, default_edgelabel_to_interconnection_coordinates, COOInterconnectionMatrix,
    TieBreaker,
};
use heuristic_solver_eweidner::interrupt::{
    exceeds_memory_limit, memory_limit_exceeded, should_terminate, MEMORY_LIMIT_BYTES,
};
use heuristic_solver_eweidner::pengraph::{PenaltyGraph, PenaltyGraphVertex, VertexArcBaseHeuristic};
use heuristic_solver_eweidner::single_float::baharev_key;
use heuristic_solver_eweidner::problem::{parse_i32_bytes, split_spaces_bytes, GraphInput};

fn lines(text: &[&str]) -> Vec<String> {
    text.iter().map(|l| l.to_string()).collect()
}

/// Three fixed vertices 1..3 and three loose vertices 4..6 with neighbour
/// positions 4: [1], 5: [0], 6: [0, 2].
fn instance_a() -> GraphInput {
    GraphInput::parse_from_lines(&lines(&["c small example", "p ocr 3 3 4", "1 5", "1 6", "2 4", "3 6"]), false)
        .unwrap()
}

fn matrix_a() -> COOInterconnectionMatrix {
    COOInterconnectionMatrix::parse(&instance_a())
}

/// Instance A with a fourth loose vertex 7 without edges.
fn matrix_with_orphan() -> COOInterconnectionMatrix {
    let g = GraphInput::parse_from_lines(&lines(&["p ocr 3 4 4", "1 5", "1 6", "2 4", "3 6"]), false).unwrap();
    COOInterconnectionMatrix::parse(&g)
}

fn vertex(name: i32, ins: Vec<(usize, u32)>, outs: Vec<(usize, u32)>) -> PenaltyGraphVertex {
    PenaltyGraphVertex {
        Name: name,
        InterconRef: name as usize,
        OutNeighbours: outs,
        InNeighbours: ins,
        isCondensed: false,
        CondensedVertices: None,
    }
}

/// Arcs 0 -> 1 -> 2 -> 0 and 2 -> 3.
fn cycle_graph() -> PenaltyGraph {
    PenaltyGraph {
        vertices: vec![
            vertex(10, vec![(2, 1)], vec![(1, 1)]),
            vertex(11, vec![(0, 1)], vec![(2, 1)]),
            vertex(12, vec![(1, 1)], vec![(0, 1), (3, 1)]),
            vertex(13, vec![(2, 1)], vec![]),
        ],
    }
}

fn names(s: &[(i32, usize)]) -> Vec<i32> {
    s.iter().map(|x| x.0).collect()
}

#[test]
fn coordinates_of_an_edge() {
    assert_eq!(default_edgelabel_to_interconnection_coordinates(2, 6, 3), (1, 2));
    assert_eq!(default_edgelabel_to_interconnection_coordinates(1, 4, 3), (0, 0));
}

#[test]
fn parse_reads_the_instance() {
    let g = instance_a();
    assert_eq!(g.number_of_fixed, 3);
    assert_eq!(g.number_of_loose, 3);
    assert_eq!(g.number_of_edges, 4);
    assert_eq!(g.fixed_vertices, vec![1, 2, 3]);
    assert_eq!(g.loose_vertices, vec![4, 5, 6]);
    assert_eq!(g.edge_set, vec![(1, 5), (1, 6), (2, 4), (3, 6)]);
    assert_eq!(g.name, "");
    assert!(!g.has_cutwith_parameter);
    assert!(g.cutwith_parameter.is_none());
}

#[test]
fn parse_reads_the_cutwidth_ordering() {
    let g = GraphInput::parse_from_lines(&lines(&["p ocr 2 1 1 3", "1", "3", "2", "1 3"]), true).unwrap();
    assert!(g.has_cutwith_parameter);
    let c = g.cutwith_parameter.unwrap();
    assert_eq!(c.cutwidth, 3);
    assert_eq!(c.optimal_order, vec![1, 3, 2]);
    assert_eq!(g.edge_set, vec![(1, 3)]);
}

#[test]
fn parse_refuses_a_wrong_edge_count() {
    let r = GraphInput::parse_from_lines(&lines(&["p ocr 3 3 5", "1 5", "1 6", "2 4", "3 6"]), false);
    assert!(r.is_none());
}

#[test]
fn parse_refuses_malformed_lines() {
    assert!(GraphInput::parse_from_lines(&lines(&["p ocr x 3 0"]), false).is_none());
    assert!(GraphInput::parse_from_lines(&lines(&["p ocr 3 3"]), false).is_none());
    assert!(GraphInput::parse_from_lines(&lines(&["p ocr 1 1 1", "1"]), false).is_none());
    assert!(GraphInput::parse_from_lines(&lines(&["p ocr 1 1 1", "1 x"]), false).is_none());
}

#[test]
fn parse_of_numbers() {
    assert_eq!(parse_i32_bytes(b"42"), Some(42));
    assert_eq!(parse_i32_bytes(b"-12"), Some(-12));
    assert_eq!(parse_i32_bytes(b"+7"), Some(7));
    assert_eq!(parse_i32_bytes(b"2147483647"), Some(2147483647));
    assert_eq!(parse_i32_bytes(b"-2147483648"), Some(-2147483648));
    assert_eq!(parse_i32_bytes(b"2147483648"), None);
    assert_eq!(parse_i32_bytes(b""), None);
    assert_eq!(parse_i32_bytes(b"-"), None);
    assert_eq!(parse_i32_bytes(b"12a"), None);
}

#[test]
fn split_on_single_spaces() {
    let f = split_spaces_bytes(b"a  bc");
    assert_eq!(f, vec![b"a".to_vec(), b"".to_vec(), b"bc".to_vec()]);
    assert_eq!(split_spaces_bytes(b""), vec![Vec::<u8>::new()]);
}

#[test]
fn neighbours_by_scanning() {
    let g = instance_a();
    assert_eq!(g.get_neighbourse_bf(6), vec![1, 3]);
    assert_eq!(g.get_neighbourse_bf(1), vec![5, 6]);
    assert_eq!(g.get_neighbourse_bf(9), Vec::<i32>::new());
}

#[test]
fn matrix_from_instance() {
    let m = matrix_a();
    assert_eq!(m.fixed, vec![1, 2, 3]);
    assert_eq!(m.loose, vec![(4, 0), (5, 1), (6, 2)]);
    assert_eq!(m.adjacency_list, vec![vec![1], vec![0], vec![0, 2]]);
    assert_eq!(m.get_fixed_order(), &vec![1, 2, 3]);
    assert_eq!(m.get_loose_order(), vec![4, 5, 6]);
}

#[test]
fn crossing_counts_of_pairs() {
    let m = matrix_a();
    assert_eq!(m.calc_local_cross_count_touple_between_edgelists(0, 1), (1, 0));
    assert_eq!(m.calc_local_cross_count_touple_between_edgelists(0, 2), (1, 1));
    assert_eq!(m.calc_local_cross_count_touple_between_edgelists(1, 2), (0, 1));
    assert_eq!(m.calc_local_cross_count_touple_between_edgelists(2, 2), (1, 1));
    assert_eq!(m.calc_local_cross_count_touple_between_positions(0, 2), (1, 1));
    assert_eq!(m.calc_local_cross_count_touple_between_positions(2, 1), (1, 0));
}

#[test]
fn crossing_count_of_an_order() {
    let m = matrix_a();
    assert_eq!(m.calculate_current_crossing_count_on_sublist(&vec![(4, 0), (5, 1), (6, 2)]), 2);
    assert_eq!(m.calculate_current_crossing_count_on_sublist(&vec![(5, 1), (6, 2), (4, 0)]), 1);
    assert_eq!(m.calculate_current_crossing_count_on_sublist(&vec![(6, 2)]), 0);
}

#[test]
fn median_and_mean_of_a_vertex() {
    let m = matrix_a();
    assert_eq!(m.calculate_median(&(6, 2)), 0);
    assert_eq!(m.calculate_mean(&(6, 2)), 1);
    assert_eq!(m.calculate_median(&(4, 0)), 1);
    assert_eq!(m.calculate_mean(&(4, 0)), 1);
}

#[test]
fn heuristic_buckets() {
    let m = matrix_a();
    let med = m.median_heuristic_from_sublist(&m.loose.clone());
    assert_eq!(med, vec![vec![(5, 1), (6, 2)], vec![(4, 0)], vec![], vec![]]);
    let mean = m.mean_heuristic();
    assert_eq!(mean, vec![vec![(5, 1)], vec![(4, 0), (6, 2)], vec![], vec![]]);
    assert_eq!(m.mean_heuristic_from_sublist(&vec![(6, 2), (5, 1)]), vec![vec![(5, 1)], vec![(6, 2)], vec![], vec![]]);
}

#[test]
fn collapsing_buckets() {
    let m = matrix_a();
    let native = m.collapse_loose_edge_list(m.mean_heuristic(), TieBreaker::Native);
    assert_eq!(native, vec![(5, 1), (4, 0), (6, 2)]);
    let median = m.collapse_loose_edge_list(m.mean_heuristic(), TieBreaker::Median);
    assert_eq!(median, vec![(5, 1), (6, 2), (4, 0)]);
}

#[test]
fn orphans_are_extracted_in_order() {
    let mut m = matrix_with_orphan();
    let orphans = m.extract_orphan_nodes();
    assert_eq!(orphans, vec![(7, 3)]);
    assert_eq!(m.loose, vec![(4, 0), (5, 1), (6, 2)]);
    let mut a = matrix_a();
    assert_eq!(a.extract_orphan_nodes(), vec![]);
    assert_eq!(a.loose.len(), 3);
}

#[test]
fn switching_loose_vertices() {
    let mut m = matrix_a();
    m.switch_loose_by_position(0, 2);
    assert_eq!(m.get_loose_order(), vec![6, 5, 4]);
    m.switch_loose_by_position(0, 2);
    assert_eq!(m.get_loose_order(), vec![4, 5, 6]);
    m.switch_loose_by_vertexlabel(5, 6);
    assert_eq!(m.loose, vec![(4, 0), (6, 2), (5, 1)]);
    m.switch_loose_by_vertexlabel(6, 5);
    assert_eq!(m.loose, vec![(4, 0), (5, 1), (6, 2)]);
}

#[test]
fn penalty_graph_of_the_instance() {
    let m = matrix_a();
    let stop = AtomicBool::new(false);
    let g = PenaltyGraph::parse(&m, &stop).unwrap();
    assert_eq!(g.vertices.len(), 3);
    assert_eq!(g.vertices[0].Name, 4);
    assert_eq!(g.vertices[0].InNeighbours, vec![(1, 1)]);
    assert_eq!(g.vertices[0].OutNeighbours, vec![]);
    assert_eq!(g.vertices[1].InNeighbours, vec![]);
    assert_eq!(g.vertices[1].OutNeighbours, vec![(0, 1), (2, 1)]);
    assert_eq!(g.vertices[2].InNeighbours, vec![(1, 1)]);
    assert_eq!(g.vertices[2].OutNeighbours, vec![]);
    assert_eq!(g.vertices[2].InterconRef, 2);
    assert!(!g.vertices[2].isCondensed);
}

#[test]
fn penalty_graph_stops_when_asked() {
    let m = matrix_a();
    let stop = AtomicBool::new(true);
    assert!(PenaltyGraph::parse(&m, &stop).is_none());
    assert!(solve_base_heuristic_on_penalty_graph(&m, &stop).is_none());
}

#[test]
fn weight_sums() {
    let g = cycle_graph();
    assert_eq!(g.vertices[2].GetOutWeightSum(), 2);
    assert_eq!(g.vertices[2].GetInWeightSum(), 1);
    assert_eq!(g.vertices[3].GetOutWeightSum(), 0);
}

#[test]
fn strongly_connected_components_of_a_cycle() {
    let g = cycle_graph();
    let comps = g.generateStronglyConnectedComponents();
    assert_eq!(comps, vec![vec![0, 1, 2], vec![3]]);
}

#[test]
fn condensing_a_cycle() {
    let g = cycle_graph();
    let c = g.CondenseGraph();
    assert_eq!(c.vertices.len(), 2);
    assert!(c.vertices[0].isCondensed);
    assert!(!c.vertices[1].isCondensed);
    assert_eq!(c.vertices[1].Name, 13);
    assert_eq!(c.vertices[1].InNeighbours, vec![(0, 1)]);
    assert_eq!(c.vertices[0].OutNeighbours, vec![(1, 1)]);
    assert_eq!(c.vertices[0].InNeighbours, vec![]);
    let inner = c.vertices[0].CondensedVertices.as_ref().unwrap();
    assert_eq!(inner.vertices.len(), 3);
    assert_eq!(c.SortWithKahnsAlgorithm(), Some(vec![0, 1]));
}

#[test]
fn kahn_lists_sources_first() {
    let m = matrix_a();
    let stop = AtomicBool::new(false);
    let g = PenaltyGraph::parse(&m, &stop).unwrap();
    assert_eq!(g.SortWithKahnsAlgorithm(), Some(vec![1, 2, 0]));
}

#[test]
fn eades_orders() {
    let g = cycle_graph();
    let by_degree: Vec<i32> = g.sort_eads_heuristic(VertexArcBaseHeuristic::Eades).iter().map(|v| v.Name).collect();
    assert_eq!(by_degree, vec![12, 11, 10, 13]);
    let by_ratio: Vec<i32> = g.sort_eads_heuristic(VertexArcBaseHeuristic::Baharev).iter().map(|v| v.Name).collect();
    assert_eq!(by_ratio, vec![12, 11, 10, 13]);
    let forward: Vec<i32> =
        g.sort_eads_heuristic(VertexArcBaseHeuristic::EadesForward).iter().map(|v| v.Name).collect();
    assert_eq!(forward, vec![12, 11, 10, 13]);
}

#[test]
fn greedy_switch_exchanges_neighbours() {
    let m = matrix_a();
    let stop = AtomicBool::new(false);
    let mut s = vec![(4, 0), (5, 1), (6, 2)];
    assert!(greedy_switch(&mut s, &m, &stop));
    assert_eq!(names(&s), vec![5, 4, 6]);
    assert!(!greedy_switch(&mut s, &m, &stop));
    assert_eq!(names(&s), vec![5, 4, 6]);
}

#[test]
fn k_step_switch_exchanges_distant_vertices() {
    let m = matrix_a();
    let stop = AtomicBool::new(false);
    let mut s = vec![(4, 0), (6, 2), (5, 1)];
    assert!(greedy_switch_k_step(&mut s, &m, 2, &stop));
    assert_eq!(names(&s), vec![5, 6, 4]);
    let mut t = vec![(4, 0), (5, 1), (6, 2)];
    assert!(!greedy_switch_k_step(&mut t, &m, 2, &stop));
    assert_eq!(names(&t), vec![4, 5, 6]);
}

#[test]
fn local_search_improves_blocks() {
    let mut m = matrix_a();
    let stop = AtomicBool::new(false);
    let mut blocks = vec![vec![(4, 0), (6, 2), (5, 1)]];
    assert!(local_search(&mut blocks, &mut m, LocalSearchStrat::GreedySwitch, 0, &stop));
    assert_eq!(names(&blocks[0]), vec![5, 4, 6]);
    assert!(!local_search(&mut blocks, &mut m, LocalSearchStrat::GreedySwitch, 0, &stop));
    let mut small = vec![vec![(6, 2), (4, 0)]];
    assert!(!local_search(&mut small, &mut m, LocalSearchStrat::GreedySwitch, 2, &stop));
    assert_eq!(names(&small[0]), vec![6, 4]);
}

#[test]
fn base_heuristic_blocks_follow_the_penalty_graph() {
    let m = matrix_a();
    let stop = AtomicBool::new(false);
    let blocks = solve_base_heuristic_on_penalty_graph(&m, &stop).unwrap();
    assert_eq!(blocks, vec![vec![(5, 1)], vec![(6, 2)], vec![(4, 0)]]);
}

#[test]
fn solve_orders_all_loose_vertices() {
    let mut m = matrix_a();
    let stop = AtomicBool::new(false);
    let r = solve(&mut m, &stop);
    assert_eq!(r, vec![5, 6, 4]);
    assert_eq!(m.calculate_current_crossing_count_on_sublist(&vec![(5, 1), (6, 2), (4, 0)]), 1);
}

#[test]
fn solve_puts_orphans_first() {
    let mut m = matrix_with_orphan();
    let stop = AtomicBool::new(false);
    let r = solve(&mut m, &stop);
    assert_eq!(r, vec![7, 5, 6, 4]);
    assert_eq!(m.loose, vec![(4, 0), (5, 1), (6, 2)]);
}

#[test]
fn solve_checked_refuses_unusable_input() {
    let stop = AtomicBool::new(false);
    let mut ok = matrix_a();
    assert!(check_solver_input(&ok));
    assert_eq!(solve_checked(&mut ok, &stop), Some(vec![5, 6, 4]));
    let mut unsorted = matrix_a();
    unsorted.adjacency_list[2] = vec![2, 0];
    assert!(!check_solver_input(&unsorted));
    assert_eq!(solve_checked(&mut unsorted, &stop), None);
    let only_orphans = GraphInput::parse_from_lines(&lines(&["p ocr 1 2 0"]), false).unwrap();
    let mut empty = COOInterconnectionMatrix::parse(&only_orphans);
    assert!(!check_solver_input(&empty));
    assert_eq!(solve_checked(&mut empty, &stop), None);
    // two loose vertices sharing a neighbour list can be solved too
    let mut shared = matrix_a();
    shared.loose[1] = (5, 0);
    assert!(check_solver_input(&shared));
    let mut order = solve_checked(&mut shared, &stop).unwrap();
    order.sort();
    assert_eq!(order, vec![4, 5, 6]);
}

#[test]
fn termination_flag_and_memory() {
    assert!(should_terminate(&AtomicBool::new(true)));
    assert!(!should_terminate(&AtomicBool::new(false)));
    assert!(!memory_limit_exceeded());
    assert_eq!(MEMORY_LIMIT_BYTES, 4294967552);
    assert_eq!(INSTANCE_SIZE_CUTOFF, 50000);
}

#[test]
fn edges_must_join_fixed_and_loose_vertices() {
    assert!(check_edges_in_range(&instance_a()));
    let outside = GraphInput::parse_from_lines(&lines(&["p ocr 3 3 1", "1 7"]), false).unwrap();
    assert!(!check_edges_in_range(&outside));
    let fixed_end = GraphInput::parse_from_lines(&lines(&["p ocr 3 3 1", "1 3"]), false).unwrap();
    assert!(!check_edges_in_range(&fixed_end));
}

#[test]
fn solve_keeps_the_names_of_a_larger_instance() {
    // loose vertices 6..10 over fixed 1..5, each joined to two fixed vertices
    let g = GraphInput::parse_from_lines(
        &lines(&[
            "p ocr 5 5 10", "1 8", "1 10", "2 6", "2 9", "3 7", "3 10", "4 6", "4 8", "5 7", "5 9",
        ]),
        false,
    )
    .unwrap();
    let mut m = COOInterconnectionMatrix::parse(&g);
    let stop = AtomicBool::new(false);
    let mut r = solve_checked(&mut m, &stop).unwrap();
    r.sort();
    assert_eq!(r, vec![6, 7, 8, 9, 10]);
}

#[test]
fn strongly_connected_components_of_two_cycles() {
    // 0 <-> 1, 2 <-> 3 and 1 -> 2
    let g = PenaltyGraph {
        vertices: vec![
            vertex(0, vec![(1, 1)], vec![(1, 1)]),
            vertex(1, vec![(0, 1)], vec![(0, 1), (2, 1)]),
            vertex(2, vec![(1, 1), (3, 1)], vec![(3, 1)]),
            vertex(3, vec![(2, 1)], vec![(2, 1)]),
        ],
    };
    assert_eq!(g.generateStronglyConnectedComponents(), vec![vec![0, 1], vec![2, 3]]);
    let c = g.CondenseGraph();
    assert_eq!(c.vertices.len(), 2);
    assert!(c.vertices[0].isCondensed && c.vertices[1].isCondensed);
    assert_eq!(c.vertices[1].InNeighbours, vec![(0, 1)]);
    assert_eq!(c.SortWithKahnsAlgorithm(), Some(vec![0, 1]));
}

#[test]
fn solve_has_no_more_crossings_than_the_mean_order() {
    // loose vertices 6..10 over fixed 1..5, each joined to two fixed vertices
    let g = GraphInput::parse_from_lines(
        &lines(&[
            "p ocr 5 5 10", "1 8", "1 10", "2 6", "2 9", "3 7", "3 10", "4 6", "4 8", "5 7", "5 9",
        ]),
        false,
    )
    .unwrap();
    let mut m = COOInterconnectionMatrix::parse(&g);
    let mean_order = m.collapse_loose_edge_list(m.mean_heuristic(), TieBreaker::Median);
    let mean_cost = m.calculate_current_crossing_count_on_sublist(&mean_order);
    let stop = AtomicBool::new(false);
    let r = solve(&mut m, &stop);
    let found: Vec<(i32, usize)> = r.iter().map(|&name| (name, (name - 6) as usize)).collect();
    assert!(m.calculate_current_crossing_count_on_sublist(&found) <= mean_cost);
}

#[test]
fn memory_limit_threshold() {
    assert!(!exceeds_memory_limit(0));
    assert!(!exceeds_memory_limit(4294967552));
    assert!(exceeds_memory_limit(4294967553));
}

#[test]
fn penalty_graph_of_one_vertex_ignores_the_stop_flag() {
    let g = GraphInput::parse_from_lines(&lines(&["p ocr 2 1 2", "1 3", "2 3"]), false).unwrap();
    let m = COOInterconnectionMatrix::parse(&g);
    let stop = AtomicBool::new(true);
    let p = PenaltyGraph::parse(&m, &stop).unwrap();
    assert_eq!(p.vertices.len(), 1);
    assert_eq!(p.vertices[0].Name, 3);
    assert!(p.vertices[0].InNeighbours.is_empty() && p.vertices[0].OutNeighbours.is_empty());
}

#[test]
fn kahn_refuses_a_cyclic_graph() {
    assert_eq!(cycle_graph().SortWithKahnsAlgorithm(), None);
}

#[test]
fn local_search_reports_a_switch_in_an_earlier_block() {
    let mut m = matrix_a();
    let stop = AtomicBool::new(false);
    let mut blocks = vec![vec![(4, 0), (6, 2), (5, 1)], vec![(5, 1), (4, 0), (6, 2)]];
    // one round: the second block is left as it is, which ends the search
    assert!(local_search(&mut blocks, &mut m, LocalSearchStrat::GreedySwitch, 0, &stop));
    assert_eq!(names(&blocks[0]), vec![4, 5, 6]);
    assert_eq!(names(&blocks[1]), vec![5, 4, 6]);
}

#[test]
fn local_search_leaves_short_blocks_alone() {
    let mut m = matrix_a();
    let stop = AtomicBool::new(false);
    let mut blocks = vec![vec![(4, 0), (6, 2), (5, 1)], vec![(6, 2), (4, 0)]];
    assert!(local_search(&mut blocks, &mut m, LocalSearchStrat::GreedySwitch, 2, &stop));
    assert_eq!(names(&blocks[0]), vec![5, 4, 6]);
    assert_eq!(names(&blocks[1]), vec![6, 4]);
}

#[test]
fn parse_names_the_instance_after_its_file() {
    let g = GraphInput::parse("dir/a.gr", &lines(&["c x", "p ocr 2 2 2", "1 3", "2 4"]), false).unwrap();
    assert_eq!(g.number_of_fixed, 2);
    assert_eq!(g.number_of_loose, 2);
    assert_eq!(g.number_of_edges, 2);
    assert_eq!(g.fixed_vertices, vec![1, 2]);
    assert_eq!(g.loose_vertices, vec![3, 4]);
    assert_eq!(g.edge_set, vec![(1, 3), (2, 4)]);
    assert_eq!(g.name, "a.gr");
    assert!(!g.has_cutwith_parameter);
    assert!(g.cutwith_parameter.is_none());
    assert!(GraphInput::parse("dir/..", &lines(&["p ocr 1 1 1", "1 2"]), false).is_none());
    assert!(GraphInput::parse("a.gr", &lines(&["p ocr 1 1 2", "1 2"]), false).is_none());
}

#[test]
fn native_collapse_concatenates() {
    let m = matrix_a();
    let buckets = vec![vec![(6, 2)], vec![], vec![(5, 1), (4, 0)]];
    assert_eq!(m.collapse_loose_edge_list(buckets, TieBreaker::Native), vec![(6, 2), (5, 1), (4, 0)]);
}

fn baharev_in_f32(outs: usize, ins: usize) -> i64 {
    ((outs as f32 / ins as f32) * 1000 as f32) as i32 as i64
}

#[test]
fn baharev_key_rounds_as_single_precision() {
    assert_eq!(baharev_key(251, 500), 501);
    assert_eq!(baharev_in_f32(251, 500), 501);
    assert_eq!(baharev_key(1, 3), 333);
    assert_eq!(baharev_key(0, 7), 0);
    for outs in 0..400usize {
        for ins in 1..400usize {
            assert_eq!(baharev_key(outs, ins), baharev_in_f32(outs, ins), "outs {} ins {}", outs, ins);
        }
    }
    let large: [usize; 10] = [
        1, 7, 999, 16777215, 16777216, 16777217, 16777219, 33554435, 1000000007, 2147483647,
    ];
    for &outs in large.iter() {
        for &ins in large.iter() {
            assert_eq!(baharev_key(outs, ins), baharev_in_f32(outs, ins), "outs {} ins {}", outs, ins);
        }
    }
}

#[test]
fn check_accepts_more_than_65535_edges() {
    // loose vertex 70001 joined to fixed 1..=60000, loose vertex 70002 to 60001..=70000
    let mut text: Vec<String> = vec!["p ocr 70000 2 70000".to_string()];
    for f in 1..=60000 {
        text.push(format!("{} 70001", f));
    }
    for f in 60001..=70000 {
        text.push(format!("{} 70002", f));
    }
    let g = GraphInput::parse_from_lines(&text, false).unwrap();
    let mut m = COOInterconnectionMatrix::parse(&g);
    assert!(check_solver_input(&m));
    let stop = AtomicBool::new(false);
    assert_eq!(solve_checked(&mut m, &stop), Some(vec![70001, 70002]));
}

#[test]
fn kahn_takes_the_most_recently_enabled_vertex_first() {
    // arcs 0 -> 2 and 1 -> 2: both sources start on the stack, 1 on top
    let g = PenaltyGraph {
        vertices: vec![
            vertex(0, vec![], vec![(2, 1)]),
            vertex(1, vec![], vec![(2, 1)]),
            vertex(2, vec![(0, 1), (1, 1)], vec![]),
        ],
    };
    assert_eq!(g.SortWithKahnsAlgorithm(), Some(vec![1, 0, 2]));
}
