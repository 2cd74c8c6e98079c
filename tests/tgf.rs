use grasp::graph::{GraphTrait, SparseSimpleGraph};
use grasp::tgf::{from_tgf, to_tgf};

const BUTTERFLY_TGF: &str = "\
    1\n\
    2\n\
    3\n\
    4\n\
    5\n\
    #\n\
    1 2\n\
    1 3\n\
    1 4\n\
    1 5\n\
    2 3\n\
    4 5";

#[test]
fn tgf_butterfly_from_tgf() {
    let from = from_tgf::<SparseSimpleGraph>(BUTTERFLY_TGF.to_string());
    assert_eq!(from.is_ok(), true);
    assert_eq!(BUTTERFLY_TGF, to_tgf(from.expect("Unexpected error")));
}

#[test]
fn tgf_butterfly_tgf() {
    let mut butterfly = SparseSimpleGraph::default();
    butterfly.add_edge((1, 2));
    butterfly.add_edge((2, 3));
    butterfly.add_edge((1, 3));
    butterfly.add_edge((1, 4));
    butterfly.add_edge((1, 5));
    butterfly.add_edge((4, 5));
    assert_eq!(BUTTERFLY_TGF, to_tgf(butterfly));
}

#[test]
fn format_butterfly_from_tgf() {
    let from = from_tgf::<SparseSimpleGraph>(BUTTERFLY_TGF.to_string());
    assert_eq!(from.is_ok(), true);
    assert_eq!(BUTTERFLY_TGF, to_tgf(from.expect("Unexpected error")));
}

#[test]
fn format_butterfly_tgf() {
    let mut butterfly = SparseSimpleGraph::default();
    butterfly.add_edge((1, 2));
    butterfly.add_edge((2, 3));
    butterfly.add_edge((1, 3));
    butterfly.add_edge((1, 4));
    butterfly.add_edge((1, 5));
    butterfly.add_edge((4, 5));
    assert_eq!(BUTTERFLY_TGF, to_tgf(butterfly));
}
