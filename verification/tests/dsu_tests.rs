//! The union-find Kruskal driver and the ordered edge set, exercised
//! directly.

use graph_service::dsu::DSU;
use graph_service::edges::EdgeSet;

#[test]
fn kruskal_over_an_edge_set() {
    let mut es = EdgeSet::new();
    es.insert((1, 1, 2));
    es.insert((2, 2, 3));
    es.insert((3, 3, 4));
    es.insert((10, 1, 4));
    let mut d = DSU::new(4);
    assert_eq!(d.get_mst(&es), 6);
}

#[test]
fn single_vertex_needs_no_edges() {
    let es = EdgeSet::new();
    let mut d = DSU::new(1);
    assert_eq!(d.get_mst(&es), 0);
}

#[test]
fn missing_vertex_means_no_spanning_tree() {
    let mut es = EdgeSet::new();
    es.insert((5, 1, 2));
    let mut d = DSU::new(3);
    assert_eq!(d.get_mst(&es), -1);
}

#[test]
fn edge_set_orders_by_weight_and_deduplicates() {
    let mut es = EdgeSet::new();
    es.insert((5, 1, 2));
    es.insert((3, 2, 3));
    es.insert((5, 1, 2));
    assert_eq!(es.len(), 2);
    assert_eq!(es.get(0), (3, 2, 3));
    assert_eq!(es.get(1), (5, 1, 2));
}
