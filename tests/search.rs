use grid_astar::cost_function::{
    euclidean_distance_cost_function, isqrt, manhattan_distance_cost_function, zero_cost_function,
    CostFunction, PathfindingOptions,
};
use grid_astar::grid_graph::{Direction, GraphVertex, GridGraph, VisitedGraphVertex};
use grid_astar::pathfinding::{execute_a_star, PathResult};

fn coords(path: &[VisitedGraphVertex]) -> Vec<(u32, u32)> {
    path.iter().map(|v| (v.x, v.y)).collect()
}

fn run(columns: &[Vec<u8>], start: (u32, u32), goal: (u32, u32), cf: CostFunction, options: &PathfindingOptions) -> PathResult {
    let slices: Vec<&[u8]> = columns.iter().map(|c| c.as_slice()).collect();
    let graph = GridGraph::new(columns.len() as u32, columns[0].len() as u32, &slices);
    execute_a_star(&graph, GraphVertex::new(start.0, start.1), GraphVertex::new(goal.0, goal.1), cf, options)
        .expect("a path")
}

fn uniform(width: usize, height: usize, c: u8) -> Vec<Vec<u8>> {
    vec![vec![c; height]; width]
}

fn assert_adjacent_steps(path: &[VisitedGraphVertex]) {
    for w in path.windows(2) {
        let dx = (w[0].x as i64 - w[1].x as i64).abs();
        let dy = (w[0].y as i64 - w[1].y as i64).abs();
        assert_eq!(dx + dy, 1);
    }
}

#[test]
fn three_cells_in_a_row() {
    let r = run(&uniform(3, 1, 1), (0, 0), (2, 0), CostFunction::ZeroCost, &PathfindingOptions::new());
    let got: Vec<(u32, u32, u64)> = r.path.iter().map(|v| (v.x, v.y, v.cost)).collect();
    assert_eq!(got, vec![(0, 0, 0), (1, 0, 1), (2, 0, 2)]);
    assert_eq!((r.visited_vertices[0].x, r.visited_vertices[0].y, r.visited_vertices[0].cost), (0, 0, 0));
    let last = r.visited_vertices.last().unwrap();
    assert_eq!((last.x, last.y, last.cost), (2, 0, 2));
}

#[test]
fn detour_around_costly_wall() {
    let columns = vec![vec![1, 1, 1], vec![1, 200, 200], vec![1, 1, 1]];
    let r = run(&columns, (0, 1), (2, 1), CostFunction::ZeroCost, &PathfindingOptions::new());
    let cells = coords(&r.path);
    assert!(cells.contains(&(1, 0)));
    assert!(!cells.contains(&(1, 1)));
    assert_eq!(cells, vec![(0, 1), (0, 0), (1, 0), (2, 0), (2, 1)]);
    assert_eq!(r.path.last().unwrap().cost, 4);
    assert_adjacent_steps(&r.path);
}

#[test]
fn start_equals_goal() {
    for cf in [CostFunction::ZeroCost, CostFunction::EuclideanDistance, CostFunction::ManhattanDistance] {
        let r = run(&uniform(4, 3, 9), (2, 1), (2, 1), cf, &PathfindingOptions::new());
        assert_eq!(r.path.len(), 1);
        assert_eq!((r.path[0].x, r.path[0].y, r.path[0].cost), (2, 1, 0));
        assert_eq!(r.visited_vertices.len(), 1);
        assert!(r.visited_vertices[0] == r.path[0]);
    }
}

#[test]
fn path_runs_from_start_to_goal_through_adjacent_cells() {
    let columns = vec![vec![5, 1, 9, 2], vec![3, 7, 1, 1], vec![8, 2, 4, 6], vec![1, 1, 3, 5], vec![2, 9, 1, 1]];
    for cf in [CostFunction::ZeroCost, CostFunction::EuclideanDistance, CostFunction::ManhattanDistance] {
        let r = run(&columns, (0, 3), (4, 0), cf, &PathfindingOptions::new());
        assert_eq!((r.path[0].x, r.path[0].y, r.path[0].cost), (0, 3, 0));
        let last = r.path.last().unwrap();
        assert_eq!((last.x, last.y), (4, 0));
        assert_adjacent_steps(&r.path);
        assert!(r.visited_vertices.last().unwrap() == last);
    }
}

#[test]
fn uniform_cost_grid_gives_manhattan_length() {
    let r = run(&uniform(4, 3, 3), (0, 0), (3, 2), CostFunction::ZeroCost, &PathfindingOptions::new());
    assert_eq!(r.path.len(), 3 + 2 + 1);
    assert_eq!(r.path.last().unwrap().cost, 3 * 5);
    assert_adjacent_steps(&r.path);
}

#[test]
fn uniform_cost_grid_reversed_direction() {
    let r = run(&uniform(5, 5, 2), (4, 4), (1, 0), CostFunction::ZeroCost, &PathfindingOptions::new());
    assert_eq!(r.path.len(), 3 + 4 + 1);
    assert_eq!(r.path.last().unwrap().cost, 2 * 7);
}

#[test]
fn larger_cost_weight_never_lowers_goal_cost() {
    let light = run(&uniform(3, 1, 1), (0, 0), (2, 0), CostFunction::ZeroCost, &PathfindingOptions::new());
    let heavy_options = PathfindingOptions { cost_weight: 2, heuristics_weight: 1 };
    let heavy = run(&uniform(3, 1, 1), (0, 0), (2, 0), CostFunction::ZeroCost, &heavy_options);
    assert_eq!(light.path.last().unwrap().cost, 2);
    assert_eq!(heavy.path.last().unwrap().cost, 6);
    for cf in [CostFunction::EuclideanDistance, CostFunction::ManhattanDistance] {
        let a = run(&uniform(3, 1, 1), (0, 0), (2, 0), cf, &PathfindingOptions::new());
        let b = run(&uniform(3, 1, 1), (0, 0), (2, 0), cf, &heavy_options);
        assert!(a.path.last().unwrap().cost <= b.path.last().unwrap().cost);
    }
}

#[test]
fn manhattan_scores_along_a_row() {
    let r = run(&uniform(3, 1, 1), (0, 0), (2, 0), CostFunction::ManhattanDistance, &PathfindingOptions::new());
    let got: Vec<(u32, u32, u64)> = r.path.iter().map(|v| (v.x, v.y, v.cost)).collect();
    assert_eq!(got, vec![(0, 0, 0), (1, 0, 2), (2, 0, 3)]);
}

#[test]
fn zero_cost_formula() {
    let o = PathfindingOptions { cost_weight: 2, heuristics_weight: 7 };
    let s = GraphVertex::new(0, 0);
    let g = GraphVertex::new(9, 9);
    let last = VisitedGraphVertex::new(1, 1, 5);
    assert_eq!(zero_cost_function(&s, &g, &last, &GraphVertex::new(1, 2), 3, &o), 16);
}

#[test]
fn euclidean_formula() {
    let o = PathfindingOptions { cost_weight: 1, heuristics_weight: 2 };
    let s = GraphVertex::new(0, 0);
    let g = GraphVertex::new(3, 4);
    let last = VisitedGraphVertex::new(0, 1, 0);
    assert_eq!(euclidean_distance_cost_function(&s, &g, &last, &GraphVertex::new(0, 0), 1, &o), 1 + 2 * 5);
    // sqrt(8) rounds down to 2
    let g2 = GraphVertex::new(2, 2);
    assert_eq!(euclidean_distance_cost_function(&s, &g2, &last, &GraphVertex::new(0, 0), 1, &o), 1 + 2 * 2);
    assert_eq!(CostFunction::EuclideanDistance.evaluate(&s, &g, &last, &GraphVertex::new(0, 0), 1, &o), 11);
}

#[test]
fn manhattan_formula() {
    let o = PathfindingOptions { cost_weight: 3, heuristics_weight: 2 };
    let s = GraphVertex::new(0, 0);
    let g = GraphVertex::new(3, 4);
    let last = VisitedGraphVertex::new(1, 0, 4);
    assert_eq!(manhattan_distance_cost_function(&s, &g, &last, &GraphVertex::new(0, 0), 1, &o), 5 * 3 + 7 * 2);
    assert_eq!(CostFunction::ManhattanDistance.evaluate(&s, &g, &last, &GraphVertex::new(0, 0), 1, &o), 29);
}

#[test]
fn heuristic_weight_zero_matches_uniform_cost() {
    let o = PathfindingOptions { cost_weight: 2, heuristics_weight: 0 };
    let s = GraphVertex::new(0, 0);
    let g = GraphVertex::new(30, 40);
    let last = VisitedGraphVertex::new(1, 0, 4);
    let c = GraphVertex::new(2, 0);
    let z = zero_cost_function(&s, &g, &last, &c, 6, &o);
    assert_eq!(z, 20);
    assert_eq!(manhattan_distance_cost_function(&s, &g, &last, &c, 6, &o), z);
    assert_eq!(euclidean_distance_cost_function(&s, &g, &last, &c, 6, &o), z);
}

#[test]
fn scores_saturate() {
    let o = PathfindingOptions { cost_weight: 3, heuristics_weight: u64::MAX };
    let s = GraphVertex::new(0, 0);
    let g = GraphVertex::new(3, 4);
    let last = VisitedGraphVertex::new(0, 0, u64::MAX - 1);
    assert_eq!(zero_cost_function(&s, &g, &last, &GraphVertex::new(0, 1), 200, &o), u64::MAX);
    assert_eq!(manhattan_distance_cost_function(&s, &g, &VisitedGraphVertex::new(0, 0, 0), &GraphVertex::new(0, 1), 0, &o), u64::MAX);
}

#[test]
fn integer_square_root() {
    assert_eq!(isqrt(0), 0);
    assert_eq!(isqrt(1), 1);
    assert_eq!(isqrt(8), 2);
    assert_eq!(isqrt(9), 3);
    assert_eq!(isqrt(99), 9);
    let m = u32::MAX as u128;
    assert_eq!(isqrt(2 * m * m), 6074000998);
}

#[test]
fn neighbours_stay_inside_the_grid() {
    let columns = uniform(3, 2, 1);
    let slices: Vec<&[u8]> = columns.iter().map(|c| c.as_slice()).collect();
    let graph = GridGraph::new(3, 2, &slices);
    let corner = VisitedGraphVertex::new(0, 0, 0);
    assert!(graph.get_neighbouring_vertex(&corner, Direction::up()).is_none());
    assert!(graph.get_neighbouring_vertex(&corner, Direction::left()).is_none());
    assert_eq!(graph.get_neighbouring_vertex(&corner, Direction::down()), Some(GraphVertex::new(0, 1)));
    assert_eq!(graph.get_neighbouring_vertex(&corner, Direction::right()), Some(GraphVertex::new(1, 0)));
    let far = VisitedGraphVertex::new(2, 1, 0);
    assert!(graph.get_neighbouring_vertex(&far, Direction::down()).is_none());
    assert!(graph.get_neighbouring_vertex(&far, Direction::right()).is_none());
    assert_eq!(Direction::all().len(), 4);
}

#[test]
fn cost_lookup_reads_column_then_row() {
    let columns = vec![vec![1, 2], vec![3, 4], vec![5, 6]];
    let slices: Vec<&[u8]> = columns.iter().map(|c| c.as_slice()).collect();
    let graph = GridGraph::new(3, 2, &slices);
    assert_eq!(graph.get_cost(&GraphVertex::new(0, 1)), 2);
    assert_eq!(graph.get_cost(&GraphVertex::new(2, 0)), 5);
    assert_eq!(graph.width, 3);
    assert_eq!(graph.height, 2);
}

#[test]
fn vertex_conversions() {
    let v = GraphVertex::new(4, 7).into_visited(12);
    assert_eq!((v.x, v.y, v.cost), (4, 7, 12));
    assert_eq!(GraphVertex::from(v), GraphVertex::new(4, 7));
    assert!(v.is_at(&GraphVertex::new(4, 7)));
    assert!(!v.is_at(&GraphVertex::new(7, 4)));
    assert!(VisitedGraphVertex::new(1, 1, 2).has_priority_over(&VisitedGraphVertex::new(0, 0, 3)));
    assert!(!VisitedGraphVertex::new(1, 1, 3).has_priority_over(&VisitedGraphVertex::new(0, 0, 3)));
    assert!(VisitedGraphVertex::new(1, 1, 3) != VisitedGraphVertex::new(1, 1, 4));
}
