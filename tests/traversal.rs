use webgraph_visualize::color::Color;
use webgraph_visualize::graph::{AccessError, AdjacencyGraph, GraphAccessor};
use webgraph_visualize::traverse::{traverse, TraversalResult};

const GREEN: Color = Color { r: 0, g: 255, b: 0 };
const RED: Color = Color { r: 255, g: 0, b: 0 };

fn rgb(r: u8, g: u8, b: u8) -> Color {
    Color { r, g, b }
}

/// The green-to-red gradient over six levels, as the truncating f32 blend gives it.
fn gradient() -> Vec<Color> {
    vec![
        GREEN,
        rgb(42, 212, 0),
        rgb(84, 170, 0),
        rgb(127, 127, 0),
        rgb(169, 85, 0),
        rgb(212, 42, 0),
        RED,
    ]
}

fn graph(num_nodes: usize, edges: &[(usize, usize)]) -> AdjacencyGraph {
    let mut lists = vec![Vec::new(); num_nodes];
    for &(s, d) in edges {
        lists[s].push(d);
    }
    AdjacencyGraph::new(lists)
}

fn run(g: &AdjacencyGraph, start: usize, max_depth: usize) -> TraversalResult {
    traverse(g, start, max_depth, &gradient()).expect("traversal succeeds")
}

#[test]
fn adjacency_graph_successors() {
    let g = graph(3, &[(0, 2), (0, 1)]);
    assert_eq!(g.num_nodes(), 3);
    assert_eq!(g.successors(0), Ok(vec![2, 1]));
    assert_eq!(g.successors(2), Ok(vec![]));
    assert_eq!(g.successors(3), Err(AccessError { node: 3 }));
}

#[test]
fn small_tree_by_levels() {
    let g = graph(5, &[(1, 2), (1, 3), (2, 4)]);
    let t = run(&g, 1, 6);
    assert_eq!(t.nodes, vec![1, 2, 3, 4]);
    assert_eq!(t.edges, vec![(1, 2), (1, 3), (2, 4)]);
    assert_eq!(t.colors.len(), t.nodes.len());
    assert_eq!(t.colors[0], GREEN);
    assert_eq!(t.colors[1], t.colors[2]);
    assert_ne!(t.colors[3], t.colors[1]);
    assert_eq!(t.colors, vec![GREEN, rgb(42, 212, 0), rgb(42, 212, 0), rgb(84, 170, 0)]);
}

#[test]
fn cycle_back_to_start_is_dropped() {
    let g = graph(3, &[(1, 2), (2, 1)]);
    let t = run(&g, 1, 6);
    assert_eq!(t.nodes, vec![1, 2]);
    assert_eq!(t.edges, vec![(1, 2)]);
    assert_eq!(t.colors, vec![GREEN, rgb(42, 212, 0)]);
}

#[test]
fn isolated_start() {
    let g = graph(4, &[(0, 1), (1, 0)]);
    let t = run(&g, 3, 6);
    assert_eq!(t.nodes, vec![3]);
    assert_eq!(t.edges, vec![]);
    assert_eq!(t.colors, vec![GREEN]);
}

#[test]
fn start_without_successors_any_depth() {
    let g = graph(3, &[(1, 0), (2, 0)]);
    for max_depth in 0..4usize {
        let t = run(&g, 0, max_depth);
        assert_eq!(t.nodes, vec![0]);
        assert_eq!(t.edges, vec![]);
    }
}

#[test]
fn depth_zero_yields_start_only() {
    let g = graph(5, &[(1, 2), (1, 3), (2, 4)]);
    let t = run(&g, 1, 0);
    assert_eq!(t.nodes, vec![1]);
    assert_eq!(t.colors, vec![GREEN]);
    assert_eq!(t.edges, vec![]);
}

#[test]
fn depth_zero_never_looks_up_start() {
    let g = graph(2, &[(0, 1)]);
    let t = traverse(&g, 9, 0, &vec![GREEN]).unwrap();
    assert_eq!(t.nodes, vec![9]);
}

#[test]
fn depth_bound_stops_expansion() {
    let g = graph(5, &[(0, 1), (1, 2), (2, 3), (3, 4)]);
    let table = vec![GREEN, rgb(127, 127, 0), RED];
    let t = traverse(&g, 0, 2, &table).unwrap();
    assert_eq!(t.nodes, vec![0, 1, 2]);
    assert_eq!(t.edges, vec![(0, 1), (1, 2)]);
    assert_eq!(t.colors, vec![GREEN, rgb(127, 127, 0), RED]);
}

#[test]
fn repeated_runs_agree() {
    let g = graph(6, &[(0, 1), (0, 2), (1, 3), (2, 3), (3, 4), (4, 0), (2, 5)]);
    let a = run(&g, 0, 6);
    let b = run(&g, 0, 6);
    assert_eq!(a, b);
}

#[test]
fn nodes_follow_level_order() {
    let g = graph(7, &[(0, 1), (0, 2), (1, 3), (3, 5), (2, 4), (4, 6)]);
    let t = run(&g, 0, 6);
    assert_eq!(t.nodes, vec![0, 1, 2, 3, 4, 5, 6]);
    let c = gradient();
    assert_eq!(t.colors, vec![c[0], c[1], c[1], c[2], c[2], c[3], c[3]]);
}

#[test]
fn node_found_twice_in_one_level_is_recorded_once() {
    let g = graph(4, &[(1, 2), (1, 3), (2, 3)]);
    let t = run(&g, 1, 6);
    assert_eq!(t.nodes, vec![1, 2, 3]);
    assert_eq!(t.edges, vec![(1, 2), (1, 3)]);
    assert_eq!(t.colors, vec![GREEN, rgb(42, 212, 0), rgb(42, 212, 0)]);
}

#[test]
fn node_waiting_in_frontier_keeps_its_level() {
    let g = graph(4, &[(0, 1), (0, 2), (1, 3), (1, 2)]);
    let t = run(&g, 0, 6);
    assert_eq!(t.nodes, vec![0, 1, 2, 3]);
    assert_eq!(t.edges, vec![(0, 1), (0, 2), (1, 3)]);
    assert_eq!(t.colors, vec![GREEN, rgb(42, 212, 0), rgb(42, 212, 0), rgb(84, 170, 0)]);
}

#[test]
fn fan_in_graph_has_no_repeated_node() {
    let g = graph(6, &[(0, 1), (0, 2), (1, 3), (2, 3), (3, 4), (4, 1), (2, 5), (5, 3), (5, 5)]);
    let t = run(&g, 0, 6);
    let mut seen = std::collections::HashSet::new();
    for n in &t.nodes {
        assert!(seen.insert(*n));
    }
    assert_eq!(t.nodes, vec![0, 1, 2, 3, 5, 4]);
    assert_eq!(t.edges.len() + 1, t.nodes.len());
}

#[test]
fn invalid_start_fails() {
    let g = graph(2, &[(0, 1)]);
    assert_eq!(traverse(&g, 5, 1, &gradient()), Err(AccessError { node: 5 }));
}

#[test]
fn invalid_successor_fails_when_expanded() {
    let g = AdjacencyGraph::new(vec![vec![1]]);
    assert_eq!(traverse(&g, 0, 2, &gradient()), Err(AccessError { node: 1 }));
    let t = traverse(&g, 0, 1, &gradient()).unwrap();
    assert_eq!(t.nodes, vec![0, 1]);
    assert_eq!(t.edges, vec![(0, 1)]);
}
