use grasp::graph::{GraphTrait, SparseDiGraph, SparseSimpleGraph};
use grasp::graphml::{labeled_to_graphml_simple, to_graphml_digraph, to_graphml_simple};
use grasp::graphml_read::{from_graphml, labeled_from_graphml};
use grasp::labeled::HashMapLabeledGraph;
use grasp::value::Value;

const HEAD: &str = "<?xml version=\"1.0\" encoding=\"UTF-8\"?>\n<graphml xmlns=\"http://graphml.graphdrawing.org/xmlns\" xmlns:xsi=\"http://www.w3.org/2001/XMLSchema-instance\" xsi:schemaLocation=\"http://graphml.graphdrawing.org/xmlns/1.0/graphml.xsd\">\n  ";

fn butterfly_edges<G: GraphTrait>(g: &mut G) {
    g.add_edge((1, 2));
    g.add_edge((2, 3));
    g.add_edge((1, 3));
    g.add_edge((1, 4));
    g.add_edge((1, 5));
    g.add_edge((4, 5));
}

fn plain(kind: &str) -> String {
    format!("{}<graph edgedefault=\"{}\">\n    \
        <node id=\"1\"/>\n    \
        <node id=\"2\"/>\n    \
        <node id=\"3\"/>\n    \
        <node id=\"4\"/>\n    \
        <node id=\"5\"/>\n    \
        <edge source=\"1\" target=\"2\"/>\n    \
        <edge source=\"1\" target=\"3\"/>\n    \
        <edge source=\"1\" target=\"4\"/>\n    \
        <edge source=\"1\" target=\"5\"/>\n    \
        <edge source=\"2\" target=\"3\"/>\n    \
        <edge source=\"4\" target=\"5\"/>\n  \
        </graph>\n</graphml>", HEAD, kind)
}

const LABELED: &str = "<?xml version=\"1.0\" encoding=\"UTF-8\"?>\n<graphml xmlns=\"http://graphml.graphdrawing.org/xmlns\" xmlns:xsi=\"http://www.w3.org/2001/XMLSchema-instance\" xsi:schemaLocation=\"http://graphml.graphdrawing.org/xmlns/1.0/graphml.xsd\">\n  <key id=\"color\" for=\"node\" attr.name=\"color\" attr.type=\"string\"/>\n  <key id=\"size\" for=\"node\" attr.name=\"size\" attr.type=\"long\"/>\n  <key id=\"0E\" for=\"edge\" attr.name=\"0E\" attr.type=\"long\"/>\n  <graph edgedefault=\"undirected\">\n    <node id=\"1\">\n      <data key=\"color\">Red</data>\n      <data key=\"size\">0</data>\n    </node>\n    <node id=\"2\">\n      <data key=\"color\">Green</data>\n      <data key=\"size\">3</data>\n    </node>\n    <node id=\"3\">\n      <data key=\"color\">Blue</data>\n      <data key=\"size\">-2</data>\n    </node>\n    <node id=\"4\">\n      <data key=\"color\">Yellow</data>\n      <data key=\"size\">64</data>\n    </node>\n    <edge source=\"1\" target=\"2\">\n      <data key=\"0E\">12</data>\n    </edge>\n    <edge source=\"2\" target=\"3\">\n      <data key=\"0E\">2</data>\n    </edge>\n    <edge source=\"2\" target=\"4\">\n      <data key=\"0E\">7</data>\n    </edge>\n  </graph>\n</graphml>";

const NESTED: &str = "<?xml version=\"1.0\" encoding=\"UTF-8\"?>\n<graphml xmlns=\"http://graphml.graphdrawing.org/xmlns\" xmlns:xsi=\"http://www.w3.org/2001/XMLSchema-instance\" xsi:schemaLocation=\"http://graphml.graphdrawing.org/xmlns/1.0/graphml.xsd\">\n  <key id=\"adata.color\" for=\"node\" attr.name=\"adata.color\" attr.type=\"string\"/>\n  <key id=\"adata.size\" for=\"node\" attr.name=\"adata.size\" attr.type=\"long\"/>\n  <key id=\"shape\" for=\"node\" attr.name=\"shape\" attr.type=\"string\"/>\n  <key id=\"0E\" for=\"edge\" attr.name=\"0E\" attr.type=\"long\"/>\n  <graph edgedefault=\"undirected\">\n    <node id=\"1\">\n      <data key=\"adata.color\">Red</data>\n      <data key=\"adata.size\">0</data>\n      <data key=\"shape\">round</data>\n    </node>\n    <node id=\"2\">\n      <data key=\"adata.color\">Green</data>\n      <data key=\"adata.size\">3</data>\n      <data key=\"shape\">square</data>\n    </node>\n    <edge source=\"1\" target=\"2\">\n      <data key=\"0E\">12</data>\n    </edge>\n  </graph>\n</graphml>";

fn vdata(size: i64, color: &str) -> Value {
    Value::Object(vec![
        ("color".to_string(), Value::String(color.to_string())),
        ("size".to_string(), Value::Int(size)),
    ])
}

#[test]
fn simple_graphml() {
    let mut butterfly = SparseSimpleGraph::default();
    butterfly_edges(&mut butterfly);
    assert_eq!(plain("undirected"), to_graphml_simple(butterfly));
}

#[test]
fn digraph_graphml() {
    let mut butterfly = SparseDiGraph::default();
    butterfly_edges(&mut butterfly);
    assert_eq!(plain("directed"), to_graphml_digraph(butterfly));
}

#[test]
fn test_from_graphml() {
    let s = plain("undirected");
    let from = from_graphml::<SparseSimpleGraph>(s.clone());
    assert_eq!(true, from.is_ok());
    assert_eq!(s, to_graphml_simple(from.expect("preverified")));
}

#[test]
fn to_labeled_graphml() {
    let mut base = HashMapLabeledGraph::<SparseSimpleGraph>::new();
    base.add_edge((1, 2));
    base.add_edge((2, 3));
    base.add_edge((2, 4));
    base.set_edge_label((1, 2), Value::Int(12));
    base.set_edge_label((2, 3), Value::Int(2));
    base.set_edge_label((2, 4), Value::Int(7));
    base.set_vertex_label(1, vdata(0, "Red"));
    base.set_vertex_label(2, vdata(3, "Green"));
    base.set_vertex_label(3, vdata(-2, "Blue"));
    base.set_vertex_label(4, vdata(64, "Yellow"));
    assert_eq!(LABELED, labeled_to_graphml_simple(base));
}

#[test]
fn to_nested_graphml() {
    let mut base = HashMapLabeledGraph::<SparseSimpleGraph>::new();
    base.add_edge((1, 2));
    base.set_edge_label((1, 2), Value::Int(12));
    base.set_vertex_label(
        1,
        Value::Object(vec![
            ("shape".to_string(), Value::String("round".to_string())),
            ("adata".to_string(), vdata(0, "Red")),
        ]),
    );
    base.set_vertex_label(
        2,
        Value::Object(vec![
            ("shape".to_string(), Value::String("square".to_string())),
            ("adata".to_string(), vdata(3, "Green")),
        ]),
    );
    assert_eq!(NESTED, labeled_to_graphml_simple(base));
}

#[test]
fn from_nested_graphml() {
    let from = labeled_from_graphml::<SparseSimpleGraph>(NESTED.to_string());
    assert_eq!(true, from.is_ok());
    assert_eq!(NESTED, labeled_to_graphml_simple(from.expect("preverified")));
}

#[test]
fn graphml_scalar_label_round_trips_through_synthetic_key() {
    let mut base = HashMapLabeledGraph::<SparseSimpleGraph>::new();
    base.set_vertex_label(7, Value::Int(42));
    let text = labeled_to_graphml_simple(base);
    let expected = format!("{}<key id=\"0N\" for=\"node\" attr.name=\"0N\" attr.type=\"long\"/>\n  <graph edgedefault=\"undirected\">\n    <node id=\"7\">\n      <data key=\"0N\">42</data>\n    </node>\n  </graph>\n</graphml>", HEAD);
    assert_eq!(expected, text);
    let back = labeled_from_graphml::<SparseSimpleGraph>(text.clone()).expect("reads back");
    assert_eq!(text, labeled_to_graphml_simple(back));
}

#[test]
fn graphml_edge_without_target_is_rejected() {
    let s = format!("{}<graph edgedefault=\"undirected\">\n    <node id=\"1\"/>\n    <edge source=\"1\"/>\n  </graph>\n</graphml>", HEAD);
    let r = from_graphml::<SparseSimpleGraph>(s.clone());
    assert_eq!(r.err(), Some("Edge missing source/target attributes".to_string()));
    let r2 = labeled_from_graphml::<SparseSimpleGraph>(s);
    assert_eq!(r2.err(), Some("Missing attribute target".to_string()));
}

#[test]
fn graphml_schema_errors() {
    let unknown = format!("{}<key id=\"w\" for=\"node\" attr.name=\"w\" attr.type=\"date\"/>\n  <graph edgedefault=\"undirected\">\n  </graph>\n</graphml>", HEAD);
    assert_eq!(labeled_from_graphml::<SparseSimpleGraph>(unknown).err(), Some("Unknown type".to_string()));
    let undeclared = format!("{}<key id=\"w\" for=\"node\" attr.name=\"w\" attr.type=\"long\"/>\n  <graph edgedefault=\"undirected\">\n    <node id=\"1\">\n      <data key=\"v\">3</data>\n    </node>\n  </graph>\n</graphml>", HEAD);
    assert_eq!(labeled_from_graphml::<SparseSimpleGraph>(undeclared).err(), Some("Could not find key".to_string()));
    let no_schema = format!("{}<graph edgedefault=\"undirected\">\n    <node id=\"1\">\n      <data key=\"v\">3</data>\n    </node>\n  </graph>\n</graphml>", HEAD);
    assert_eq!(labeled_from_graphml::<SparseSimpleGraph>(no_schema).err(), Some("Could not find key".to_string()));
    let bad_long = format!("{}<key id=\"w\" for=\"node\" attr.name=\"w\" attr.type=\"long\"/>\n  <graph edgedefault=\"undirected\">\n    <node id=\"1\">\n      <data key=\"w\">x</data>\n    </node>\n  </graph>\n</graphml>", HEAD);
    assert!(labeled_from_graphml::<SparseSimpleGraph>(bad_long).is_err());
}

#[test]
fn decoding_graphml_reader_checks_label_types() {
    assert!(grasp::graphml_read::decoded_from_graphml::<SparseSimpleGraph, Value, i64>(NESTED.to_string()).is_ok());
    let bad = grasp::graphml_read::decoded_from_graphml::<SparseSimpleGraph, Value, String>(NESTED.to_string());
    assert_eq!(bad.err(), Some("Not string type".to_string()));
}
