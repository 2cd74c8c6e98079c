use grasp::bridge::{decode_variant, encode_variant, from_value, serialize, TypedValue};
use grasp::dot::to_dot;
use grasp::error::{GraphError, SerializationError};
use grasp::flat::{get_flat_map, FlatEntry};
use grasp::gml::{labeled_from_gml, labeled_to_gml, to_gml, wrap_value};
use grasp::graph::{GraphTrait, SparseDiGraph, SparseSimpleGraph, UnderlyingGraph};
use grasp::graphml::labeled_to_graphml_simple;
use grasp::graphml_read::{labeled_from_graphml, typed_value, unflatten};
use grasp::labeled::HashMapLabeledGraph;
use grasp::text::{is_float_text, parse_signed, parse_unsigned};
use grasp::tgf::{from_tgf, to_tgf};
use grasp::util::{graphs_eq, labeled_graphs_eq};
use grasp::value::Value;

fn nested() -> Value {
    Value::Object(vec![
        (
            "adata".to_string(),
            Value::Object(vec![
                ("color".to_string(), Value::String("Red".to_string())),
                ("size".to_string(), Value::Int(-3)),
            ]),
        ),
        ("flags".to_string(), Value::Array(vec![Value::Bool(true), Value::Bool(false)])),
        ("weight".to_string(), Value::Float("2.5".to_string())),
    ])
}

fn entries(v: &Value) -> Vec<(String, String, String)> {
    let mut out: Vec<FlatEntry> = Vec::new();
    get_flat_map(&String::new(), v, &mut out);
    out.into_iter().map(|e| (e.path, e.text, e.kind)).collect()
}

#[test]
fn flatten_lists_paths_texts_and_types() {
    let got = entries(&nested());
    let want = vec![
        ("adata.color".to_string(), "Red".to_string(), "string".to_string()),
        ("adata.size".to_string(), "-3".to_string(), "long".to_string()),
        ("flags.0".to_string(), "true".to_string(), "boolean".to_string()),
        ("flags.1".to_string(), "false".to_string(), "boolean".to_string()),
        ("weight".to_string(), "2.5".to_string(), "double".to_string()),
    ];
    assert_eq!(want, got);
}

#[test]
fn flatten_scalar_under_synthetic_root() {
    let mut out: Vec<FlatEntry> = Vec::new();
    get_flat_map(&"0N".to_string(), &Value::Unsigned(7), &mut out);
    assert_eq!(out.len(), 1);
    assert_eq!(out[0].path, "0N");
    assert_eq!(out[0].text, "7");
    assert_eq!(out[0].kind, "long");
}

#[test]
fn unflatten_inverts_flatten() {
    let v = nested();
    let mut out: Vec<FlatEntry> = Vec::new();
    get_flat_map(&String::new(), &v, &mut out);
    let back = unflatten(&out).expect("rebuilds");
    assert!(back.equals(&v));
}

#[test]
fn wrap_value_places_leaves_under_data_or_label() {
    let w = wrap_value(Value::Int(4));
    assert_eq!(w.len(), 1);
    assert_eq!(w[0].0, "data");
    let w = wrap_value(Value::String("x".to_string()));
    assert_eq!(w[0].0, "label");
    assert!(wrap_value(Value::Null).is_empty());
    let w = wrap_value(Value::Array(vec![Value::Int(1)]));
    assert_eq!(w[0].0, "data");
}

#[test]
fn bridge_encodes_and_decodes_scalars() {
    assert!(serialize(&12i32).equals(&Value::Int(12)));
    assert!(serialize(&true).equals(&Value::Bool(true)));
    assert!(serialize(&"Red".to_string()).equals(&Value::String("Red".to_string())));
    assert!(serialize(&9u64).equals(&Value::Unsigned(9)));
    assert_eq!(from_value::<i32>(&Value::Unsigned(3)).ok(), Some(3));
    assert_eq!(from_value::<i64>(&Value::Int(-5)).ok(), Some(-5));
    assert_eq!(from_value::<u32>(&Value::Unsigned(70000)).ok(), Some(70000));
    assert_eq!(from_value::<String>(&Value::String("a".to_string())).ok(), Some("a".to_string()));
    assert_eq!(<bool as TypedValue>::decode(&Value::Bool(false)).ok(), Some(false));
}

#[test]
fn bridge_rejects_mismatched_shapes() {
    match from_value::<i32>(&Value::Unsigned(5_000_000_000)) {
        Err(SerializationError::Message(m)) => assert_eq!(m, "Int too large"),
        Ok(_) => panic!("out of range"),
    }
    match from_value::<bool>(&Value::Int(1)) {
        Err(e) => assert_eq!(e.message(), "Not bool type"),
        Ok(_) => panic!("wrong variant"),
    }
    assert!(from_value::<u64>(&Value::Int(-1)).is_err());
    assert_eq!(from_value::<u64>(&Value::Int(1)).ok(), Some(1));
    assert!(from_value::<String>(&Value::Null).is_err());
}

#[test]
fn typed_labels_on_a_labeled_graph() {
    let mut g = HashMapLabeledGraph::<SparseSimpleGraph>::new();
    g.set_vertex_data(3, &17i32);
    g.set_edge_data((3, 4), &"road".to_string());
    assert_eq!(g.vertex_data::<i32>(3).map(|r| r.ok()), Some(Some(17)));
    assert_eq!(g.edge_data::<String>((4, 3)).map(|r| r.ok()), Some(Some("road".to_string())));
    assert!(g.vertex_data::<i32>(4).is_none());
}

#[test]
fn graph_error_messages() {
    assert_eq!(GraphError::VertexNotInGraph(4).message(), "Vertex 4 is not in Graph");
    assert_eq!(GraphError::EdgeNotInGraph((1, 2)).message(), "Edge (1, 2) is not in Graph");
}

#[test]
fn writers_are_deterministic_whatever_the_insertion_order() {
    let mut a = SparseSimpleGraph::default();
    a.add_edge((4, 5));
    a.add_edge((2, 1));
    a.add_vertex(3);
    let mut b = SparseSimpleGraph::default();
    b.add_vertex(3);
    b.add_edge((1, 2));
    b.add_edge((5, 4));
    assert!(graphs_eq(&a, &b));
    assert_eq!(to_dot(a), to_dot(b));
    let mut c = SparseSimpleGraph::default();
    c.add_edge((5, 4));
    c.add_edge((1, 2));
    c.add_vertex(3);
    let mut d = SparseSimpleGraph::default();
    d.add_vertex(3);
    d.add_edge((2, 1));
    d.add_edge((4, 5));
    let first = to_gml(c);
    assert_eq!(first, to_gml(d));
    assert!(first.contains("source 1\n\t\ttarget 2"));
}

#[test]
fn tgf_of_empty_graph_and_bad_line() {
    assert_eq!(to_tgf(SparseSimpleGraph::default()), "#");
    let r = from_tgf::<SparseSimpleGraph>("1\nx y\n".to_string());
    assert_eq!(r.err(), Some("Invalid TGF format.".to_string()));
}

#[test]
fn dot_rejects_missing_header_and_bad_lines() {
    let r = grasp::dot::from_dot::<SparseSimpleGraph>("digraph {\n}".to_string());
    assert_eq!(r.err(), Some("Invalid DOT format.".to_string()));
    let r = grasp::dot::from_dot::<SparseSimpleGraph>("graph {\n  a -> b;\n}".to_string());
    assert_eq!(r.err(), Some("Invalid DOT format.".to_string()));
    let ok = grasp::dot::from_dot::<SparseSimpleGraph>("graph {\n// note\n  7;\n  7 -- 9;\n}".to_string()).expect("reads");
    assert!(ok.has_edge((9, 7)));
    assert_eq!(ok.vertex_count(), 2);
}

#[test]
fn numbers_read_as_the_standard_library_reads_them() {
    assert_eq!(parse_unsigned("18446744073709551615"), Some(u64::MAX));
    assert_eq!(parse_unsigned("18446744073709551616"), None);
    assert_eq!(parse_unsigned("+12"), Some(12));
    assert_eq!(parse_signed("-9223372036854775808"), Some(i64::MIN));
    assert_eq!(parse_signed("9223372036854775808"), None);
    assert!(is_float_text("1.5e3"));
    assert!(is_float_text("-.5"));
    assert!(is_float_text("NaN"));
    assert!(is_float_text("inf"));
    assert!(!is_float_text("1.2.3"));
    assert!(!is_float_text("e5"));
}

#[test]
fn graphml_data_types() {
    assert!(typed_value("boolean", "true".to_string()).expect("bool").equals(&Value::Bool(true)));
    assert!(typed_value("long", "-4".to_string()).expect("long").equals(&Value::Int(-4)));
    assert!(typed_value("double", "0.25".to_string()).expect("double").equals(&Value::Float("0.25".to_string())));
    assert!(typed_value("long", "x".to_string()).is_err());
    assert_eq!(typed_value("date", "1".to_string()).err(), Some("Unknown type".to_string()));
}

#[test]
fn gml_reads_floats_comments_and_nested_records() {
    let text = "graph [\n\tcomment \"x\"\n\tnode [\n\t\tid 2\n\t\tdata [\n\t\t\tw 1.5\n\t\t\tpos [\n\t\t\t\tx -1\n\t\t\t]\n\t\t]\n\t]\n]";
    let g = labeled_from_gml::<SparseSimpleGraph>(text.to_string()).expect("reads");
    let want = "graph [\n\tnode [\n\t\tid 2\n\t\tdata [\n\t\t\tpos [\n\t\t\t\tx -1\n\t\t\t]\n\t\t\tw 1.5\n\t\t]\n\t]\n]";
    assert_eq!(want, labeled_to_gml(&g));
}

#[test]
fn graphml_escapes_and_unescapes_text() {
    let mut g = HashMapLabeledGraph::<SparseSimpleGraph>::new();
    g.set_vertex_label(1, Value::String("a<b & \"c\"".to_string()));
    let text = labeled_to_graphml_simple(g);
    assert!(text.contains("<data key=\"0N\">a&lt;b &amp; &quot;c&quot;</data>"));
    let back = labeled_from_graphml::<SparseSimpleGraph>(text.clone()).expect("reads");
    assert!(back.get_vertex_label(1).is_some_and(|l| l.equals(&Value::String("a<b & \"c\"".to_string()))));
}

#[test]
fn labeled_equality_and_underlying_graph() {
    let mut a = HashMapLabeledGraph::<SparseSimpleGraph>::new();
    a.set_vertex_label(1, Value::Int(1));
    a.add_edge((1, 2));
    let mut b = HashMapLabeledGraph::<SparseSimpleGraph>::new();
    b.add_edge((2, 1));
    b.set_vertex_label(1, Value::Int(1));
    assert!(labeled_graphs_eq(&a, &b));
    b.set_vertex_label(2, Value::Null);
    assert!(!labeled_graphs_eq(&a, &b));

    let mut d = SparseDiGraph::default();
    d.add_edge((0, 1));
    d.add_edge((2, 0));
    assert!(d.has_edge((0, 1)));
    assert!(!d.has_edge((1, 0)));
    let u = d.underlying_graph();
    assert!(u.has_edge((0, 1)));
    assert!(u.has_edge((0, 2)));
    assert_eq!(u.edge_count(), 2);
}

#[test]
fn bridge_handles_sequences_and_absence() {
    let v = serialize(&vec![1i32, 2]);
    assert!(v.equals(&Value::Array(vec![Value::Int(1), Value::Int(2)])));
    let back = from_value::<Vec<i32>>(&Value::Array(vec![Value::Unsigned(3), Value::Int(-1)]));
    assert_eq!(back.ok(), Some(vec![3, -1]));
    assert_eq!(from_value::<Option<i32>>(&Value::Null).ok(), Some(None));
    assert_eq!(from_value::<Option<i32>>(&Value::Int(5)).ok(), Some(Some(5)));
    assert!(serialize(&None::<u64>).equals(&Value::Null));
    assert!(from_value::<Vec<bool>>(&Value::Array(vec![Value::Int(0)])).is_err());
    assert!(from_value::<Vec<bool>>(&Value::Bool(true)).is_err());
}

#[test]
fn labels_read_back_decode_to_typed_values() {
    let gml = "graph [\n\tnode [\n\t\tid 1\n\t\tdata 5\n\t\tdata 7\n\t]\n\tnode [\n\t\tid 2\n\t]\n\tedge [\n\t\tsource 2\n\t\ttarget 1\n\t\tdata 12\n\t]\n]";
    let g = labeled_from_gml::<SparseSimpleGraph>(gml.to_string()).expect("reads");
    assert_eq!(g.vertex_data::<Vec<u64>>(1).map(|r| r.ok()), Some(Some(vec![5, 7])));
    assert!(g.vertex_data::<i32>(2).is_none());
    assert_eq!(g.edge_data::<i32>((1, 2)).map(|r| r.ok()), Some(Some(12)));
    assert!(g.vertex_data::<bool>(1).is_some_and(|r| r.is_err()));

    let mut h = HashMapLabeledGraph::<SparseSimpleGraph>::new();
    h.set_vertex_data(1, &9u64);
    h.set_edge_data((1, 2), &-4i64);
    let back = labeled_from_graphml::<SparseSimpleGraph>(labeled_to_graphml_simple(h)).expect("reads");
    assert_eq!(back.vertex_data::<u64>(1).map(|r| r.ok()), Some(Some(9)));
    assert_eq!(back.edge_data::<i64>((2, 1)).map(|r| r.ok()), Some(Some(-4)));
}

#[test]
fn tagged_variants_encode_as_one_entry_records() {
    let v = encode_variant("Circle", Some(Value::Int(3)));
    assert!(v.equals(&Value::Object(vec![("Circle".to_string(), Value::Int(3))])));
    let (name, payload) = decode_variant(&v).ok().expect("variant");
    assert_eq!(name, "Circle");
    assert!(payload.is_some_and(|p| p.equals(&Value::Int(3))));
    let unit = encode_variant("Empty", None);
    assert!(unit.equals(&Value::String("Empty".to_string())));
    assert!(decode_variant(&unit).ok().is_some_and(|(n, p)| n == "Empty" && p.is_none()));
    assert!(decode_variant(&Value::Int(1)).is_err());
}

#[test]
fn lists_of_records_round_trip_through_flattening() {
    let rec = |x: i64, y: &str| {
        Value::Object(vec![("x".to_string(), Value::Int(x)), ("y".to_string(), Value::String(y.to_string()))])
    };
    let v = Value::Object(vec![
        ("a".to_string(), Value::Array(vec![rec(1, "p"), rec(2, "q")])),
        ("m".to_string(), Value::Array(vec![Value::Array(vec![Value::Int(3), Value::Int(4)])])),
    ]);
    let mut out: Vec<FlatEntry> = Vec::new();
    get_flat_map(&String::new(), &v, &mut out);
    let back = unflatten(&out).expect("rebuilds");
    assert!(back.equals(&v));

    let mut g = HashMapLabeledGraph::<SparseSimpleGraph>::new();
    g.set_vertex_label(1, v.duplicate());
    let text = labeled_to_graphml_simple(g);
    let read = labeled_from_graphml::<SparseSimpleGraph>(text).expect("reads back");
    assert!(read.get_vertex_label(1).is_some_and(|l| l.equals(&v)));
}

#[test]
fn readers_use_unicode_whitespace_and_keep_tabs_inside_tokens() {
    let t = from_tgf::<SparseSimpleGraph>("\u{a0}1\n#".to_string()).expect("no-break space is trimmed");
    assert!(t.contains(1));
    let d = grasp::dot::from_dot::<SparseSimpleGraph>("graph{\n1\t2".to_string());
    assert_eq!(d.err(), Some("Invalid DOT format.".to_string()));
    let ok = grasp::dot::from_dot::<SparseSimpleGraph>("\tgraph {\n\t3;\t\n}".to_string()).expect("tabs at the ends are trimmed");
    assert!(ok.contains(3));
}

#[test]
fn wide_integers_fail_with_unsupported_width() {
    assert!(grasp::bridge::encode_i128(-5).ok().is_some_and(|v| v.equals(&Value::Int(-5))));
    assert!(grasp::bridge::encode_u128(7).ok().is_some_and(|v| v.equals(&Value::Unsigned(7))));
    match grasp::bridge::encode_i128(i128::MAX) {
        Err(SerializationError::Message(m)) => assert_eq!(m, "unsupported width"),
        Ok(_) => panic!("too wide"),
    }
    assert!(grasp::bridge::encode_u128(u128::MAX).is_err());
    match from_value::<i32>(&Value::Bool(true)) {
        Err(e) => assert_eq!(e.message(), "Not int type"),
        Ok(_) => panic!("wrong variant"),
    }
    match decode_variant(&Value::Int(1)) {
        Err(e) => assert_eq!(e.message(), "Invalid enum"),
        Ok(_) => panic!("not a variant"),
    }
}
