use grasp::gml::{from_gml, labeled_from_gml, labeled_to_gml, to_gml};
use grasp::graph::{GraphTrait, SparseSimpleGraph};
use grasp::labeled::HashMapLabeledGraph;
use grasp::value::Value;

const BUTTERFLY_GML: &str = "graph [\
    \n\tnode [\
    \n\t\tid 1\
    \n\t]\
    \n\tnode [\
    \n\t\tid 2\
    \n\t]\
    \n\tnode [\
    \n\t\tid 3\
    \n\t]\
    \n\tnode [\
    \n\t\tid 4\
    \n\t]\
    \n\tnode [\
    \n\t\tid 5\
    \n\t]\
    \n\tedge [\
    \n\t\tsource 1\
    \n\t\ttarget 2\
    \n\t]\
    \n\tedge [\
    \n\t\tsource 1\
    \n\t\ttarget 3\
    \n\t]\
    \n\tedge [\
    \n\t\tsource 1\
    \n\t\ttarget 4\
    \n\t]\
    \n\tedge [\
    \n\t\tsource 1\
    \n\t\ttarget 5\
    \n\t]\
    \n\tedge [\
    \n\t\tsource 2\
    \n\t\ttarget 3\
    \n\t]\
    \n\tedge [\
    \n\t\tsource 4\
    \n\t\ttarget 5\
    \n\t]\
    \n]";

const LABELED_GML: &str = "graph [\n\
    \tnode [\n\
    \t\tid 1\n\
    \t\tdata [\n\
    \t\t\tcolor \"Red\"\n\
    \t\t\tsize 0\n\
    \t\t]\n\
    \t]\n\
    \tnode [\n\
    \t\tid 2\n\
    \t\tdata [\n\
    \t\t\tcolor \"Green\"\n\
    \t\t\tsize 3\n\
    \t\t]\n\
    \t]\n\
    \tnode [\n\
    \t\tid 3\n\
    \t\tdata [\n\
    \t\t\tcolor \"Blue\"\n\
    \t\t\tsize -2\n\
    \t\t]\n\
    \t]\n\
    \tnode [\n\
    \t\tid 4\n\
    \t\tdata [\n\
    \t\t\tcolor \"Yellow\"\n\
    \t\t\tsize 64\n\
    \t\t]\n\
    \t]\n\
    \tedge [\n\
    \t\tsource 1\n\
    \t\ttarget 2\n\
    \t\tdata 12\n\
    \t]\n\
    \tedge [\n\
    \t\tsource 2\n\
    \t\ttarget 3\n\
    \t\tdata 2\n\
    \t]\n\
    \tedge [\n\
    \t\tsource 2\n\
    \t\ttarget 4\n\
    \t\tdata 7\n\
    \t]\n\
    ]";

fn butterfly() -> SparseSimpleGraph {
    let mut butterfly = SparseSimpleGraph::default();
    butterfly.add_edge((1, 2));
    butterfly.add_edge((2, 3));
    butterfly.add_edge((1, 3));
    butterfly.add_edge((1, 4));
    butterfly.add_edge((1, 5));
    butterfly.add_edge((4, 5));
    butterfly
}

fn vdata(size: i64, color: &str) -> Value {
    Value::Object(vec![
        ("color".to_string(), Value::String(color.to_string())),
        ("size".to_string(), Value::Int(size)),
    ])
}

fn labeled_base() -> HashMapLabeledGraph<SparseSimpleGraph> {
    let mut base = HashMapLabeledGraph::<SparseSimpleGraph>::new();
    base.add_edge((1, 2));
    base.add_edge((2, 3));
    base.add_edge((2, 4));
    base.set_edge_label((1, 2), Value::Int(12));
    base.set_edge_label((2, 3), Value::Int(2));
    base.set_edge_label((2, 4), Value::Int(7));
    base.set_vertex_label(1, vdata(0, "Red"));
    base.set_vertex_label(2, vdata(3, "Green"));
    base.set_vertex_label(3, vdata(-2, "Blue"));
    base.set_vertex_label(4, vdata(64, "Yellow"));
    base
}

#[test]
fn gml_butterfly_gml() {
    assert_eq!(BUTTERFLY_GML, to_gml(butterfly()));
}

#[test]
fn format_butterfly_gml() {
    assert_eq!(BUTTERFLY_GML, to_gml(butterfly()));
}

#[test]
fn gml_butterfly_from_gml() {
    let from = from_gml::<SparseSimpleGraph>(BUTTERFLY_GML.to_string());
    assert_eq!(from.is_ok(), true);
    assert_eq!(BUTTERFLY_GML, to_gml(from.expect("Unexpected error")));
}

#[test]
fn format_butterfly_from_gml() {
    let from = from_gml::<SparseSimpleGraph>(BUTTERFLY_GML.to_string());
    assert_eq!(from.is_ok(), true);
    assert_eq!(BUTTERFLY_GML, to_gml(from.expect("Unexpected error")));
}

#[test]
fn gml_to_labeled_gml() {
    assert_eq!(LABELED_GML, labeled_to_gml(&labeled_base()));
}

#[test]
fn format_to_labeled_gml() {
    assert_eq!(LABELED_GML, labeled_to_gml(&labeled_base()));
}

#[test]
fn labeled_gml() {
    assert_eq!(LABELED_GML, labeled_to_gml(&labeled_base()));
}

#[test]
fn gml_from_labeled_gml() {
    let from = labeled_from_gml::<SparseSimpleGraph>(LABELED_GML.to_string());
    assert_eq!(from.is_ok(), true);
    assert_eq!(LABELED_GML, labeled_to_gml(&from.expect("Unexpected error")));
}

#[test]
fn format_from_labeled_gml() {
    let from = labeled_from_gml::<SparseSimpleGraph>(LABELED_GML.to_string());
    assert_eq!(from.is_ok(), true);
    assert_eq!(LABELED_GML, labeled_to_gml(&from.expect("Unexpected error")));
}

#[test]
fn gml_missing_header_is_rejected() {
    let r = from_gml::<SparseSimpleGraph>("node [\n\tid 1\n]".to_string());
    assert_eq!(r.err(), Some("Invalid GML format.".to_string()));
}

#[test]
fn gml_repeated_key_collapses_into_a_list() {
    let text = "graph [\n\tnode [\n\t\tid 1\n\t\tdata [\n\t\t\ttag 5\n\t\t\ttag \"x\"\n\t\t]\n\t]\n]";
    let g = labeled_from_gml::<SparseSimpleGraph>(text.to_string()).expect("parses");
    let expected = "graph [\n\tnode [\n\t\tid 1\n\t\tdata [\n\t\t\ttag [\n\t\t\t\tdata 5\n\t\t\t\tlabel \"x\"\n\t\t\t]\n\t\t]\n\t]\n]";
    assert_eq!(expected, labeled_to_gml(&g));
}

#[test]
fn gml_unknown_bare_word_is_rejected() {
    let text = "graph [\n\tnode [\n\t\tid 1\n\t\tcolor red\n\t]\n]";
    let r = from_gml::<SparseSimpleGraph>(text.to_string());
    assert_eq!(r.err(), Some("Unknown value type: red".to_string()));
}

#[test]
fn gml_node_without_id_is_rejected() {
    let text = "graph [\n\tnode [\n\t\tname \"a\"\n\t]\n]";
    let r = from_gml::<SparseSimpleGraph>(text.to_string());
    assert_eq!(r.err(), Some("Missing or invalid ID".to_string()));
}

#[test]
fn gml_writes_record_fields_in_key_order() {
    let mut g = HashMapLabeledGraph::<SparseSimpleGraph>::new();
    g.set_vertex_label(
        1,
        Value::Object(vec![
            ("size".to_string(), Value::Int(3)),
            ("color".to_string(), Value::String("Green".to_string())),
        ]),
    );
    let expected = "graph [\n\tnode [\n\t\tid 1\n\t\tdata [\n\t\t\tcolor \"Green\"\n\t\t\tsize 3\n\t\t]\n\t]\n]";
    assert_eq!(expected, labeled_to_gml(&g));
}

#[test]
fn gml_error_texts() {
    let r = labeled_from_gml::<SparseSimpleGraph>("graph [ node [ id 1 label \"abc".to_string());
    assert_eq!(r.err(), Some("String not closed".to_string()));
    let r = labeled_from_gml::<SparseSimpleGraph>("graph [ node [ id 1 ] edge [ source 1 ] ]".to_string());
    assert_eq!(r.err(), Some("Missing or invalid target".to_string()));
    let r = labeled_from_gml::<SparseSimpleGraph>("graph [ node [ id 1 data foo ] ]".to_string());
    assert_eq!(r.err(), Some("Unknown value type: foo".to_string()));
}

#[test]
fn decoding_gml_reader_checks_label_types() {
    let ok = grasp::gml::decoded_from_gml::<SparseSimpleGraph, Value, i32>(LABELED_GML.to_string()).expect("decodes");
    assert_eq!(ok.edge_data::<i32>((1, 2)).map(|r| r.ok()), Some(Some(12)));
    let bad = grasp::gml::decoded_from_gml::<SparseSimpleGraph, Value, bool>(LABELED_GML.to_string());
    assert_eq!(bad.err(), Some("Not bool type".to_string()));
}
