use grasp::graph::{add_neighbors, clone_graph, GraphTrait, SparseDiGraph, SparseSimpleGraph};
use grasp::graphml::labeled_to_graphml_digraph;
use grasp::labeled::{HashMapLabeledGraph, LabeledGraph};
use grasp::util::graphs_eq;
use grasp::value::Value;

#[test]
fn add_neighbors_and_create_vertex() {
    let mut g = SparseSimpleGraph::default();
    add_neighbors(&mut g, 3, &vec![1, 5]);
    assert!(g.has_edge((1, 3)));
    assert!(g.has_edge((5, 3)));
    assert_eq!(g.vertices(), vec![1, 3, 5]);
    assert_eq!(g.create_vertex(), 6);
    assert_eq!(g.neighbors(3), Some(vec![1, 5]));
    assert_eq!(g.neighbors(9), None);
    let copy = clone_graph(&g);
    assert!(graphs_eq(&g, &copy));
}

#[test]
fn labels_can_be_removed_and_listed() {
    let mut g = HashMapLabeledGraph::from_graph(SparseSimpleGraph::default());
    g.set_vertex_label(2, Value::Bool(true));
    g.set_edge_label((2, 4), Value::Int(9));
    assert_eq!(g.vertex_labels().len(), 1);
    assert_eq!(g.edge_labels().len(), 1);
    assert!(g.remove_vertex_label(2));
    assert!(!g.remove_vertex_label(2));
    assert!(g.remove_edge_label((4, 2)));
    assert!(g.get_edge_label((2, 4)).is_none());
    assert!(g.contains(2));
    let plain = g.to_graph();
    assert!(plain.has_edge((2, 4)));
}

#[test]
fn directed_labeled_graphml() {
    let mut g = HashMapLabeledGraph::<SparseDiGraph>::new();
    g.set_edge_label((2, 1), Value::Bool(false));
    let text = labeled_to_graphml_digraph(g);
    assert!(text.contains("<key id=\"0E\" for=\"edge\" attr.name=\"0E\" attr.type=\"boolean\"/>"));
    assert!(text.contains("<graph edgedefault=\"directed\">"));
    assert!(text.contains("<node id=\"1\"></node>"));
    assert!(text.contains("<edge source=\"2\" target=\"1\">\n      <data key=\"0E\">false</data>\n    </edge>"));
}

#[test]
fn round_trip_law_applies_to_a_built_graph() {
    let mut g = SparseSimpleGraph::default();
    g.add_edge((2, 1));
    grasp::laws::round_trips_hold(&g);
    assert!(g.has_edge((1, 2)));
}
