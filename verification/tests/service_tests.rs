//! The service scenarios: registries driven through create, add-edge,
//! spanning-tree queries and clearing.

use graph_service::registry::GraphError;
use graph_service::registry::GraphicalWorld;
use graph_service::registry::Registry;

fn name(s: &str) -> String {
    String::from(s)
}

#[test]
fn mst_of_square_with_diagonal() {
    let mut r = Registry::new();
    assert_eq!(r.add_graph(name("g"), 4), Ok(()));
    assert_eq!(r.add_edge(name("g"), 1, 2, 1), Ok(()));
    assert_eq!(r.add_edge(name("g"), 2, 3, 2), Ok(()));
    assert_eq!(r.add_edge(name("g"), 3, 4, 3), Ok(()));
    assert_eq!(r.add_edge(name("g"), 1, 4, 10), Ok(()));
    assert_eq!(r.get_mst(name("g")), Ok(6));
}

#[test]
fn disconnected_graph_has_no_mst() {
    let mut r = Registry::new();
    assert_eq!(r.add_graph(name("g"), 3), Ok(()));
    assert_eq!(r.add_edge(name("g"), 1, 2, 5), Ok(()));
    assert_eq!(r.get_mst(name("g")), Ok(-1));
}

#[test]
fn self_loop_is_ignored() {
    let mut r = Registry::new();
    assert_eq!(r.add_graph(name("g"), 2), Ok(()));
    assert_eq!(r.add_edge(name("g"), 1, 1, 9), Ok(()));
    assert_eq!(r.add_edge(name("g"), 1, 2, 4), Ok(()));
    assert_eq!(r.get_mst(name("g")), Ok(4));
}

#[test]
fn self_loop_never_enters_the_edge_set() {
    let mut r = Registry::new();
    assert_eq!(r.add_graph(name("g"), 2), Ok(()));
    assert_eq!(r.add_edge(name("g"), 2, 2, 7), Ok(()));
    let g = r.snapshot(&name("g")).unwrap();
    assert_eq!(g.edge_count(), 0);
    assert_eq!(g.vertex_count(), 2);
}

#[test]
fn duplicate_create_and_unknown_name_fail() {
    let mut r = Registry::new();
    assert_eq!(r.add_graph(name("g"), 3), Ok(()));
    assert_eq!(r.add_graph(name("g"), 3), Err(GraphError::AlreadyExists));
    assert_eq!(r.get_mst(name("h")), Err(GraphError::NotFound));
    assert_eq!(r.add_edge(name("h"), 1, 2, 3), Err(GraphError::NotFound));
}

#[test]
fn fresh_graph_mst_depends_on_vertex_count() {
    let mut r = Registry::new();
    assert_eq!(r.add_graph(name("one"), 1), Ok(()));
    assert_eq!(r.get_mst(name("one")), Ok(0));
    assert_eq!(r.add_graph(name("three"), 3), Ok(()));
    assert_eq!(r.get_mst(name("three")), Ok(-1));
}

#[test]
fn adding_the_same_edge_twice_changes_nothing() {
    let mut r = Registry::new();
    assert_eq!(r.add_graph(name("g"), 2), Ok(()));
    assert_eq!(r.add_edge(name("g"), 1, 2, 4), Ok(()));
    let before = r.snapshot(&name("g")).unwrap().edge_count();
    assert_eq!(r.add_edge(name("g"), 1, 2, 4), Ok(()));
    let after = r.snapshot(&name("g")).unwrap().edge_count();
    assert_eq!(before, after);
    assert_eq!(r.get_mst(name("g")), Ok(4));
}

#[test]
fn reversed_endpoints_are_one_edge() {
    let mut r = Registry::new();
    assert_eq!(r.add_graph(name("g"), 2), Ok(()));
    assert_eq!(r.add_edge(name("g"), 2, 1, 4), Ok(()));
    assert_eq!(r.add_edge(name("g"), 1, 2, 4), Ok(()));
    assert_eq!(r.snapshot(&name("g")).unwrap().edge_count(), 1);
    assert_eq!(r.get_mst(name("g")), Ok(4));
}

#[test]
fn parallel_edges_of_different_weight_both_stay() {
    let mut r = Registry::new();
    assert_eq!(r.add_graph(name("g"), 2), Ok(()));
    assert_eq!(r.add_edge(name("g"), 1, 2, 4), Ok(()));
    assert_eq!(r.add_edge(name("g"), 1, 2, 9), Ok(()));
    assert_eq!(r.snapshot(&name("g")).unwrap().edge_count(), 2);
    assert_eq!(r.get_mst(name("g")), Ok(4));
}

#[test]
fn insertion_order_does_not_change_the_weight() {
    let edges: [(u32, u32, u32); 5] = [(1, 2, 1), (2, 3, 2), (3, 4, 3), (1, 4, 10), (2, 4, 2)];
    let mut forward = Registry::new();
    assert_eq!(forward.add_graph(name("g"), 4), Ok(()));
    for (u, v, w) in edges.iter() {
        assert_eq!(forward.add_edge(name("g"), *u, *v, *w), Ok(()));
    }
    let mut backward = Registry::new();
    assert_eq!(backward.add_graph(name("g"), 4), Ok(()));
    for (u, v, w) in edges.iter().rev() {
        assert_eq!(backward.add_edge(name("g"), *u, *v, *w), Ok(()));
    }
    assert_eq!(forward.get_mst(name("g")), backward.get_mst(name("g")));
    assert_eq!(forward.get_mst(name("g")), Ok(5));
}

#[test]
fn heavier_redundant_edge_keeps_the_weight() {
    let mut r = Registry::new();
    assert_eq!(r.add_graph(name("g"), 3), Ok(()));
    assert_eq!(r.add_edge(name("g"), 1, 2, 1), Ok(()));
    assert_eq!(r.add_edge(name("g"), 2, 3, 2), Ok(()));
    assert_eq!(r.get_mst(name("g")), Ok(3));
    assert_eq!(r.add_edge(name("g"), 1, 3, 50), Ok(()));
    assert_eq!(r.get_mst(name("g")), Ok(3));
}

#[test]
fn clear_frees_the_name_for_reuse() {
    let mut r = Registry::new();
    assert_eq!(r.add_graph(name("g"), 2), Ok(()));
    assert_eq!(r.add_edge(name("g"), 1, 2, 4), Ok(()));
    r.clear_graph(name("g"));
    assert_eq!(r.get_mst(name("g")), Err(GraphError::NotFound));
    assert_eq!(r.add_graph(name("g"), 3), Ok(()));
    let g = r.snapshot(&name("g")).unwrap();
    assert_eq!(g.vertex_count(), 3);
    assert_eq!(g.edge_count(), 0);
    assert_eq!(r.get_mst(name("g")), Ok(-1));
}

#[test]
fn clear_of_an_unknown_name_is_a_quiet_no_op() {
    let mut r = Registry::new();
    assert_eq!(r.add_graph(name("g"), 2), Ok(()));
    r.clear_graph(name("h"));
    assert_eq!(r.add_graph(name("g"), 2), Err(GraphError::AlreadyExists));
}

#[test]
fn zero_vertices_are_refused() {
    let mut r = Registry::new();
    assert_eq!(r.add_graph(name("g"), 0), Err(GraphError::InvalidArgument));
    assert_eq!(r.get_mst(name("g")), Err(GraphError::NotFound));
}

#[test]
fn endpoints_outside_the_graph_are_refused() {
    let mut r = Registry::new();
    assert_eq!(r.add_graph(name("g"), 3), Ok(()));
    assert_eq!(r.add_edge(name("g"), 1, 4, 2), Err(GraphError::InvalidArgument));
    assert_eq!(r.add_edge(name("g"), 0, 2, 2), Err(GraphError::InvalidArgument));
    assert_eq!(r.snapshot(&name("g")).unwrap().edge_count(), 0);
}

#[test]
fn graphs_under_different_names_stay_apart() {
    let mut r = Registry::new();
    assert_eq!(r.add_graph(name("a"), 2), Ok(()));
    assert_eq!(r.add_graph(name("b"), 2), Ok(()));
    assert_eq!(r.add_edge(name("a"), 1, 2, 7), Ok(()));
    assert_eq!(r.get_mst(name("a")), Ok(7));
    assert_eq!(r.get_mst(name("b")), Ok(-1));
}
