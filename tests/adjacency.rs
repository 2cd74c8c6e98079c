use grasp::graph::{GraphTrait, SparseSimpleGraph};

#[test]
fn adjacency_list_butterfly_graph() {
    let mut butterfly = SparseSimpleGraph::default();
    butterfly.add_edge((1, 2));
    butterfly.add_edge((2, 3));
    butterfly.add_edge((1, 3));
    butterfly.add_edge((1, 4));
    butterfly.add_edge((1, 5));
    butterfly.add_edge((4, 5));

    assert!(butterfly.has_edge((1, 2)));
    assert!(butterfly.has_edge((2, 3)));
    assert!(butterfly.has_edge((1, 3)));
    assert!(butterfly.has_edge((1, 4)));
    assert!(butterfly.has_edge((1, 5)));
    assert!(butterfly.has_edge((4, 5)));

    assert!(butterfly.has_edge((2, 1)));

    assert!(!butterfly.has_edge((3, 4)));
    assert!(!butterfly.has_edge((2, 5)));

    assert!(!butterfly.has_edge((1, 6)));
    assert!(!butterfly.has_edge((10, 3843)));

    assert!(butterfly.vertex_count() == 5);
    assert!(butterfly.edge_count() == 6);

    butterfly.delete_edge((4, 5));
    assert!(butterfly.vertex_count() == 5);
    assert!(butterfly.edge_count() == 5);
    butterfly.delete_vertex(2);
    assert!(butterfly.vertex_count() == 4);
    assert!(butterfly.edge_count() == 3);
    assert!(!butterfly.has_edge((2, 3)));
    assert!(!butterfly.has_edge((4, 5)));
    assert!(!butterfly.contains(2));
}
