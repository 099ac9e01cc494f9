use webgraph_visualize::assemble::assemble;
use webgraph_visualize::color::Color;
use webgraph_visualize::graph::AdjacencyGraph;
use webgraph_visualize::traverse::{traverse, TraversalResult};

fn s(x: &str) -> String {
    x.to_string()
}

#[test]
fn identifiers_are_decimal_node_ids() {
    let green = Color { r: 0, g: 255, b: 0 };
    let result = TraversalResult {
        nodes: vec![7, 10, 0, 1234],
        colors: vec![green; 4],
        edges: vec![(7, 10), (7, 0), (10, 1234)],
    };
    let p = assemble(result, false);
    assert_eq!(p.ids, vec![s("7"), s("10"), s("0"), s("1234")]);
    assert_eq!(p.colors, vec![green; 4]);
    assert_eq!(p.labels, None);
    assert_eq!(p.edges, vec![(s("7"), s("10")), (s("7"), s("0")), (s("10"), s("1234"))]);
}

#[test]
fn labels_only_when_asked() {
    let result = TraversalResult {
        nodes: vec![3, 42],
        colors: vec![Color { r: 1, g: 2, b: 3 }, Color { r: 4, g: 5, b: 6 }],
        edges: vec![(3, 42)],
    };
    let p = assemble(result.clone(), true);
    assert_eq!(p.labels, Some(vec![s("3"), s("42")]));
    assert_eq!(p.ids, vec![s("3"), s("42")]);
    let q = assemble(result, false);
    assert_eq!(q.labels, None);
}

#[test]
fn assembles_a_traversal() {
    let g = AdjacencyGraph::new(vec![vec![], vec![2, 3], vec![4], vec![], vec![]]);
    let table = vec![Color { r: 0, g: 255, b: 0 }; 7];
    let t = traverse(&g, 1, 6, &table).unwrap();
    let p = assemble(t, true);
    assert_eq!(p.ids, vec![s("1"), s("2"), s("3"), s("4")]);
    assert_eq!(p.edges, vec![(s("1"), s("2")), (s("1"), s("3")), (s("2"), s("4"))]);
    assert_eq!(p.colors.len(), 4);
}
