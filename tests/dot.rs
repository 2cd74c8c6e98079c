use grasp::dot::{from_dot, to_dot};
use grasp::graph::{GraphTrait, SparseSimpleGraph};

fn butterfly() -> SparseSimpleGraph {
    let mut butterfly = SparseSimpleGraph::default();
    butterfly.add_edge((1, 2));
    butterfly.add_edge((2, 3));
    butterfly.add_edge((1, 3));
    butterfly.add_edge((1, 4));
    butterfly.add_edge((1, 5));
    butterfly.add_edge((4, 5));
    butterfly
}

const BUTTERFLY_DOT: &str = "graph {\
    \n    1;\
    \n    2;\
    \n    3;\
    \n    4;\
    \n    5;\
    \n\
    \n    1 -- 2;\
    \n    1 -- 3;\
    \n    1 -- 4;\
    \n    1 -- 5;\
    \n    2 -- 3;\
    \n    4 -- 5;\
    \n}";

#[test]
fn dot_butterfly_dot() {
    assert_eq!(BUTTERFLY_DOT, to_dot(butterfly()));
}

#[test]
fn dot_butterfly_from_dot() {
    let from = from_dot::<SparseSimpleGraph>(BUTTERFLY_DOT.to_string());
    assert_eq!(from.is_ok(), true);
    assert_eq!(BUTTERFLY_DOT, to_dot(from.expect("Unexpected error")));
}

#[test]
fn serialization_butterfly_dot() {
    let text = to_dot(butterfly());
    assert!(text.starts_with("graph {\n"));
    assert_eq!(BUTTERFLY_DOT, text);
}

#[test]
fn format_butterfly_dot() {
    assert_eq!(BUTTERFLY_DOT, to_dot(butterfly()));
}

#[test]
fn format_butterfly_from_dot() {
    let from = from_dot::<SparseSimpleGraph>(BUTTERFLY_DOT.to_string());
    assert_eq!(from.is_ok(), true);
    assert_eq!(BUTTERFLY_DOT, to_dot(from.expect("Unexpected error")));
}
