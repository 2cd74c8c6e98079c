use grasp::graph::{GraphTrait, SparseSimpleGraph};
use grasp::labeled::HashMapLabeledGraph;
use grasp::util::graph_distance;
use grasp::value::Value;

#[test]
fn hashmap_labeled_graph_test() {
    let mut graph = HashMapLabeledGraph::<SparseSimpleGraph>::new();
    graph.add_edge((0, 1));
    graph.add_edge((1, 2));
    graph.set_vertex_label(1, Value::Unsigned(3));
    graph.set_edge_label((1, 2), Value::Float("3.14".to_string()));
    assert!(graph.get_edge_label((0, 1)).is_none());
    assert!(graph.get_vertex_label(0).is_none());
    assert!(graph.get_vertex_label(2).is_none());
    assert!(graph.get_vertex_label(1).is_some_and(|l| l.equals(&Value::Unsigned(3))));
    assert!(graph.get_edge_label((1, 2)).is_some_and(|l| l.equals(&Value::Float("3.14".to_string()))));
    let before = graph.edge_count();
    graph.delete_vertex(1);
    assert!(before - graph.edge_count() == 2);
    assert!(graph.get_vertex_label(1).is_none());
    assert!(graph.get_edge_label((1, 2)).is_none());
}

#[test]
fn test_graph_distance() {
    let mut g = SparseSimpleGraph::default();
    g.add_edge((0, 1));
    g.add_edge((0, 2));
    g.add_edge((2, 3));
    g.add_edge((2, 4));
    g.add_edge((3, 5));
    g.add_edge((5, 6));

    assert_eq!(graph_distance(&g, 0, 6), Some(4));
    assert_eq!(graph_distance(&g, 0, 100), None);

    g.add_edge((0, 6));
    assert_eq!(graph_distance(&g, 0, 6), Some(1));
}
