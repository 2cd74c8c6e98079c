use grasp::graph::{DiGraph, GraphTrait, SimpleGraph, SparseDiGraph, SparseSimpleGraph, UnderlyingGraph};
use grasp::graph_ops::{
    complement, join, labeled_complement, labeled_join, labeled_merge, labeled_product, labeled_subgraph_edges,
    labeled_subgraph_vertex, merge, product, subgraph_edges, subgraph_vertex,
};
use grasp::labeled::HashMapLabeledGraph;
use grasp::util::{graphs_eq, labeled_graphs_eq};
use grasp::value::Value;

fn graph_vs_digraph_test<S: SimpleGraph, D: DiGraph>() {
    let mut simple_graph = S::new();
    let mut digraph = D::new();
    simple_graph.add_edge((0, 1));
    digraph.add_edge((0, 1));
    assert!(simple_graph.has_edge((0, 1)));
    assert!(digraph.has_edge((0, 1)));
    assert!(simple_graph.has_edge((1, 0)));
    assert!(!digraph.has_edge((1, 0)));
}

fn digraph_fn_test<G: DiGraph>() {
    let mut digraph = G::new();
    digraph.add_edge((0, 1));
    digraph.add_edge((2, 0));
    assert_eq!(digraph.neighbors(0), Some(vec![1, 2]));
    assert_eq!(digraph.out_neighbors(0), Some(vec![1]));
    assert_eq!(digraph.in_neighbors(0), Some(vec![2]));
}

fn underlying_graph_test<G: UnderlyingGraph>() {
    let mut digraph = G::new();
    digraph.add_edge((0, 1));
    digraph.add_edge((2, 0));
    let und_graph = digraph.underlying_graph();
    assert!(und_graph.has_edge((0, 1)));
    assert!(und_graph.has_edge((0, 2)));
    assert_eq!(und_graph.edge_count(), 2);
}

fn graph_ops_test<G: GraphTrait>() {
    let mut graph_a = G::new();
    graph_a.add_edge((0, 1));
    graph_a.add_edge((1, 2));
    graph_a.add_edge((2, 0));
    let subgraph_vertices_a = subgraph_vertex(&graph_a, &vec![0, 1]);
    let subgraph_edges_a = subgraph_edges(&graph_a, &vec![(0, 1)]);
    let mut test_subgraph = G::new();
    test_subgraph.add_edge((0, 1));
    assert!(graphs_eq(&subgraph_edges_a, &test_subgraph));
    assert!(graphs_eq(&subgraph_vertices_a, &test_subgraph));
    let (merged, map_a, map_b) = merge(&graph_a, &graph_a);
    let mut test_graph = G::new();
    test_graph.add_edge((*map_a.get(&0).unwrap(), *map_a.get(&1).unwrap()));
    test_graph.add_edge((*map_a.get(&1).unwrap(), *map_a.get(&2).unwrap()));
    test_graph.add_edge((*map_a.get(&2).unwrap(), *map_a.get(&0).unwrap()));
    test_graph.add_edge((*map_b.get(&0).unwrap(), *map_b.get(&1).unwrap()));
    test_graph.add_edge((*map_b.get(&1).unwrap(), *map_b.get(&2).unwrap()));
    test_graph.add_edge((*map_b.get(&2).unwrap(), *map_b.get(&0).unwrap()));
    assert!(graphs_eq(&merged, &test_graph));
}

fn simple_graph_complement_test<G: GraphTrait>() {
    let mut graph = G::new();
    graph.add_edge((0, 1));
    graph.add_edge((1, 2));
    let c = complement(&graph);
    let mut test_complement = G::new();
    test_complement.add_edge((0, 2));
    test_complement.add_vertex(1);
    assert!(graphs_eq(&c, &test_complement));
}

fn digraph_complement_test<G: GraphTrait>() {
    let mut graph = G::new();
    graph.add_edge((0, 1));
    graph.add_edge((1, 2));
    let c = complement(&graph);
    let mut test_complement = G::new();
    test_complement.add_edge((1, 0));
    test_complement.add_edge((2, 1));
    test_complement.add_edge((0, 2));
    test_complement.add_edge((2, 0));
    assert!(graphs_eq(&c, &test_complement));
}

fn simple_graph_ops_test<G: SimpleGraph>() {
    let mut line = G::new();
    line.add_vertex(0);
    line.add_vertex(1);
    let (joined, map_a, map_b) = join(&line, &line);
    let mut test_join = G::new();
    test_join.add_edge((*map_a.get(&0).unwrap(), *map_b.get(&0).unwrap()));
    test_join.add_edge((*map_a.get(&0).unwrap(), *map_b.get(&1).unwrap()));
    test_join.add_edge((*map_a.get(&1).unwrap(), *map_b.get(&0).unwrap()));
    test_join.add_edge((*map_a.get(&1).unwrap(), *map_b.get(&1).unwrap()));
    assert!(graphs_eq(&joined, &test_join));
    line.add_edge((0, 1));
    let (square, map) = product(&line, &line);
    let mut test_square = G::new();
    test_square.add_edge((map.get(&(0, 0)).unwrap(), map.get(&(0, 1)).unwrap()));
    test_square.add_edge((map.get(&(1, 0)).unwrap(), map.get(&(1, 1)).unwrap()));
    test_square.add_edge((map.get(&(0, 0)).unwrap(), map.get(&(1, 0)).unwrap()));
    test_square.add_edge((map.get(&(0, 1)).unwrap(), map.get(&(1, 1)).unwrap()));
    assert!(graphs_eq(&square, &test_square));
}

#[test]
fn sparse_graph_ops() {
    graph_vs_digraph_test::<SparseSimpleGraph, SparseDiGraph>();
    digraph_fn_test::<SparseDiGraph>();
    graph_ops_test::<SparseSimpleGraph>();
    simple_graph_ops_test::<SparseSimpleGraph>();
    simple_graph_complement_test::<SparseSimpleGraph>();
    graph_ops_test::<SparseDiGraph>();
    digraph_complement_test::<SparseDiGraph>();
    underlying_graph_test::<SparseDiGraph>();
}

type TestGraph = HashMapLabeledGraph<SparseSimpleGraph>;

fn byte(n: u64) -> Value {
    Value::Unsigned(n)
}

fn float(t: &str) -> Value {
    Value::Float(t.to_string())
}

#[test]
fn hashmap_labeled_graphops_test() {
    let mut dot = TestGraph::new();
    let mut line = TestGraph::new();
    dot.set_vertex_label(0, byte(1));
    line.set_edge_label((0, 1), float("5.0"));
    line.set_vertex_label(1, byte(8));
    // Merged
    let (merged, map_dot, map_line) = labeled_merge(&dot, &line);
    let mut test_merged = TestGraph::new();
    test_merged.set_vertex_label(*map_dot.get(&0).unwrap(), byte(1));
    test_merged.set_edge_label((*map_line.get(&0).unwrap(), *map_line.get(&1).unwrap()), float("5.0"));
    test_merged.set_vertex_label(*map_line.get(&1).unwrap(), byte(8));
    assert!(labeled_graphs_eq(&merged, &test_merged));
    // Subgraph
    let mut triangle = TestGraph::new();
    for (e, l) in [((1, 0), "1.0"), ((2, 1), "2.0"), ((0, 2), "3.0")] {
        triangle.set_edge_label(e, float(l));
    }
    for (v, l) in [(0, 1), (1, 2), (2, 3)] {
        triangle.set_vertex_label(v, byte(l));
    }
    let subgraph_vertex = labeled_subgraph_vertex(&triangle, &vec![0, 1]);
    let subgraph_edge = labeled_subgraph_edges(&triangle, &vec![(0, 1)]);
    let mut test_subgraph = TestGraph::new();
    test_subgraph.set_edge_label((1, 0), float("1.0"));
    for (v, l) in [(0, 1), (1, 2)] {
        test_subgraph.set_vertex_label(v, byte(l));
    }
    assert!(labeled_graphs_eq(&subgraph_vertex, &test_subgraph));
    assert!(labeled_graphs_eq(&subgraph_edge, &test_subgraph));
    // join
    let (joined, map_dot, map_line) = labeled_join(&dot, &line);
    let mut test_join = TestGraph::new();
    test_join.set_vertex_label(*map_dot.get(&0).unwrap(), byte(1));
    test_join.set_vertex_label(*map_line.get(&1).unwrap(), byte(8));
    test_join.set_edge_label((*map_line.get(&0).unwrap(), *map_line.get(&1).unwrap()), float("5.0"));
    test_join.add_edge((*map_dot.get(&0).unwrap(), *map_line.get(&0).unwrap()));
    test_join.add_edge((*map_dot.get(&0).unwrap(), *map_line.get(&1).unwrap()));
    assert!(labeled_graphs_eq(&joined, &test_join));
    // product
    let (prod, map) = labeled_product(&line, &line);
    let mut test_product = TestGraph::new();
    test_product.add_edge((map.get(&(0, 0)).unwrap(), map.get(&(1, 0)).unwrap()));
    test_product.add_edge((map.get(&(0, 1)).unwrap(), map.get(&(1, 1)).unwrap()));
    test_product.add_edge((map.get(&(0, 0)).unwrap(), map.get(&(0, 1)).unwrap()));
    test_product.add_edge((map.get(&(1, 0)).unwrap(), map.get(&(1, 1)).unwrap()));
    assert!(labeled_graphs_eq(&prod, &test_product));
    // complement
    line.set_edge_label((1, 2), float("10.0"));
    let c = labeled_complement(&line);
    let mut test_complement = TestGraph::new();
    test_complement.set_vertex_label(1, byte(8));
    test_complement.add_edge((0, 2));
    assert!(labeled_graphs_eq(&c, &test_complement));
}

#[test]
fn product_map_numbers_pairs_row_by_row() {
    let mut a = SparseSimpleGraph::new();
    a.add_edge((3, 7));
    let mut b = SparseSimpleGraph::new();
    b.add_vertex(1);
    b.add_vertex(2);
    b.add_vertex(9);
    let (p, map) = product(&a, &b);
    assert_eq!(map.get(&(3, 1)), Some(0));
    assert_eq!(map.get(&(7, 9)), Some(5));
    assert_eq!(map.get(&(4, 1)), None);
    assert_eq!(p.vertex_count(), 6);
    assert!(p.has_edge((1, 4)));
    assert!(!p.has_edge((0, 1)));
}
