use typed_graph::generic_graph::{GenericGraph, GenericSchema};
use typed_graph::generic_weight::GenericWeight;
use typed_graph::typed_error::TypedError;
use typed_graph::typed_graph::{InsertPosition, TypedGraph};

type TestSchema = GenericSchema<usize, usize>;
type TestGraph = GenericGraph<usize, usize>;

fn weight(id: usize, ty: usize) -> GenericWeight<usize> {
    GenericWeight::new(id, ty)
}

#[test]
fn graph_quantity_test() {
    const NODE_TYPE: usize = 0;
    const NODE_TYPE1: usize = 1;
    const NODE_TYPE2: usize = 2;
    const EDGE_TYPE1: usize = 0;
    const EDGE_TYPE2: usize = 2;

    // A max capacity of 2 edges of type EDGE_TYPE1 from NODE_TYPE to NODE_TYPE1.
    let s = TestSchema::new()
        .endpoint_max_quantity(Some(vec![((EDGE_TYPE1, NODE_TYPE, NODE_TYPE1), 2)]));
    let mut g = TestGraph::new(s);

    let source_id = g.add_node(weight(0, NODE_TYPE)).unwrap();
    let target_id = g.add_node(weight(1, NODE_TYPE1)).unwrap();

    // First outgoing edge
    g.add_edge(source_id, target_id, weight(0, EDGE_TYPE1)).unwrap();
    // Second outgoing edge
    g.add_edge(source_id, target_id, weight(1, EDGE_TYPE1)).unwrap();
    // Third outgoing edge
    let e = g.add_edge(source_id, target_id, weight(2, EDGE_TYPE1));
    assert!(e.is_err(), "Added third edge");

    // Try to add a third edge by updating an existing edge of another type
    g.add_edge(source_id, target_id, weight(2, EDGE_TYPE2)).unwrap();

    let e = g.add_edge(source_id, target_id, weight(2, EDGE_TYPE1));
    assert!(e.is_err(), "Updating edge");
    g.remove_edge(2).unwrap();

    // Try again with the other edge going in the opposite direction
    g.add_edge(target_id, source_id, weight(2, EDGE_TYPE2)).unwrap();

    let e = g.add_edge(source_id, target_id, weight(2, EDGE_TYPE1));
    assert!(e.is_err(), "Updating edge reversed");
    g.remove_edge(2).unwrap();

    // Try again with the other edge between completely different nodes
    let source_id2 = g.add_node(weight(2, NODE_TYPE2)).unwrap();
    let target_id2 = g.add_node(weight(3, NODE_TYPE2)).unwrap();
    g.add_edge(target_id2, source_id2, weight(2, EDGE_TYPE2)).unwrap();

    let e = g.add_edge(source_id, target_id, weight(2, EDGE_TYPE1));
    assert!(e.is_err(), "Updating completly different edge");
    g.remove_edge(2).unwrap();

    // Make sure the limit only works in one direction
    g.add_edge(target_id, source_id, weight(10, EDGE_TYPE1)).unwrap();
    g.add_edge(target_id, source_id, weight(11, EDGE_TYPE1)).unwrap();
    g.add_edge(target_id, source_id, weight(12, EDGE_TYPE1)).unwrap();
    g.add_edge(target_id, source_id, weight(12, EDGE_TYPE1)).unwrap();
}

fn outgoing_types(g: &TestGraph, node: usize) -> Vec<usize> {
    g.get_outgoing(node)
        .unwrap()
        .iter()
        .map(|e| e.get_weight().ty)
        .collect()
}

#[test]
fn edge_order() {
    let s = TestSchema::new();
    let mut g = TestGraph::new(s);

    let a = g.add_node(weight(0, 0)).unwrap();
    let b = g.add_node(weight(1, 0)).unwrap();

    for i in 0..5 {
        g.add_edge(a, b, weight(i, i)).unwrap();
    }

    let ids = outgoing_types(&g, a);
    assert_eq!(ids, &[0, 1, 2, 3, 4]);

    // Swap before when after
    let mut ng = g.clone();
    ng.move_edge_order(3, 1, InsertPosition::Before).unwrap();
    let ids = outgoing_types(&ng, 0);
    assert_eq!(ids, &[0, 3, 1, 2, 4]);

    // Swap after when after
    let mut ng = g.clone();
    ng.move_edge_order(3, 1, InsertPosition::After).unwrap();
    let ids = outgoing_types(&ng, a);
    assert_eq!(ids, &[0, 1, 3, 2, 4]);

    // Swap before start
    let mut ng = g.clone();
    ng.move_edge_order(3, 0, InsertPosition::Before).unwrap();
    let ids = outgoing_types(&ng, a);
    assert_eq!(ids, &[3, 0, 1, 2, 4]);

    // Swap after end
    let mut ng = g.clone();
    ng.move_edge_order(3, 4, InsertPosition::After).unwrap();
    let ids = outgoing_types(&ng, a);
    assert_eq!(ids, &[0, 1, 2, 4, 3]);

    // Swap before self is identity
    let mut ng = g.clone();
    ng.move_edge_order(2, 2, InsertPosition::Before).unwrap();
    let ids = outgoing_types(&ng, a);
    assert_eq!(ids, &[0, 1, 2, 3, 4]);

    // Swap after self is identity
    let mut ng = g.clone();
    ng.move_edge_order(2, 2, InsertPosition::After).unwrap();
    let ids = outgoing_types(&ng, a);
    assert_eq!(ids, &[0, 1, 2, 3, 4]);

    // Swap before when before
    let mut ng = g.clone();
    ng.move_edge_order(1, 2, InsertPosition::Before).unwrap();
    let ids = outgoing_types(&ng, 0);
    assert_eq!(ids, &[0, 1, 2, 3, 4]);

    // Swap after when before
    let mut ng = g.clone();
    ng.move_edge_order(1, 2, InsertPosition::After).unwrap();
    let ids = outgoing_types(&ng, a);
    assert_eq!(ids, &[0, 2, 1, 3, 4]);
}

#[test]
fn move_edge_order_errors() {
    let mut g = TestGraph::new(TestSchema::new());
    let a = g.add_node(weight(0, 0)).unwrap();
    let b = g.add_node(weight(1, 0)).unwrap();
    g.add_edge(a, b, weight(0, 0)).unwrap();
    g.add_edge(b, a, weight(1, 0)).unwrap();

    // missing source edge
    let e = g.move_edge_order(7, 0, InsertPosition::Before);
    assert!(matches!(e, Err(TypedError::MissingEdge(7))));
    // missing target edge
    let e = g.move_edge_order(0, 7, InsertPosition::Before);
    assert!(matches!(e, Err(TypedError::MissingEdge(7))));
    // the two edges do not share a source node
    let e = g.move_edge_order(0, 1, InsertPosition::Before);
    assert!(matches!(e, Err(TypedError::InvalidEdgeMove(0, 1))));
}

#[test]
fn cascade_deletion() {
    let mut g = TestGraph::new(TestSchema::new());
    let a = g.add_node(weight(0, 0)).unwrap();
    let b = g.add_node(weight(1, 0)).unwrap();
    let c = g.add_node(weight(2, 0)).unwrap();
    g.add_edge(a, b, weight(0, 0)).unwrap();
    g.add_edge(b, a, weight(1, 0)).unwrap();
    g.add_edge(b, b, weight(2, 0)).unwrap(); // self-loop on the removed node
    g.add_edge(c, b, weight(3, 0)).unwrap();
    g.add_edge(a, c, weight(4, 0)).unwrap();

    let removed = g.remove_node(b).unwrap();
    assert_eq!(removed.id, 1);

    // every edge previously incident to b is absent
    assert!(!g.has_edge(0));
    assert!(!g.has_edge(1));
    assert!(!g.has_edge(2));
    assert!(!g.has_edge(3));
    // the unrelated edge survives
    assert!(g.has_edge(4));
    assert!(!g.has_node(b));

    // no other node's adjacency still references the removed edges
    for n in [a, c] {
        for er in g.get_incoming(n).unwrap() {
            assert!(er.get_source() != b && er.get_target() != b);
        }
        for er in g.get_outgoing(n).unwrap() {
            assert!(er.get_source() != b && er.get_target() != b);
        }
    }
}

#[test]
fn id_stability_under_type_change() {
    // cap edges of type 0 from type-9 nodes to type-0 nodes at zero, so the
    // type change below must be rejected
    let s = TestSchema::new().endpoint_max_quantity(Some(vec![((0, 9, 0), 0)]));
    let mut g = TestGraph::new(s);
    let a = g.add_node(weight(0, 0)).unwrap();
    let b = g.add_node(weight(1, 0)).unwrap();
    g.add_edge(a, b, weight(0, 0)).unwrap();

    // replacing with the same type keeps the id
    let id = g.add_node(weight(0, 0)).unwrap();
    assert_eq!(id, a);

    // a type change whose incident edge no longer validates leaves the whole
    // store unchanged
    let before = g.clone();
    let e = g.add_node(weight(0, 9));
    assert!(matches!(
        e,
        Err(TypedError::InvalidEdgeType(0, 9, 0, typed_graph::graph_traits::DisAllowedEdge::ToMany))
    ));
    assert!(g.graph_eq(&before));
    assert_eq!(g.get_node(a).unwrap().ty, 0);

    // an allowed type change keeps the id and the edges
    let id = g.add_node(weight(0, 5)).unwrap();
    assert_eq!(id, a);
    assert_eq!(g.get_node(a).unwrap().ty, 5);
    assert!(g.has_edge(0));
}

#[test]
fn add_node_rejected_type() {
    let s = TestSchema::new().node_whitelist(Some(vec![0, 1]));
    let mut g = TestGraph::new(s);
    let e = g.add_node(weight(0, 7));
    assert!(matches!(
        e,
        Err(TypedError::InvalidNodeType(7, typed_graph::graph_traits::DisAllowedNode::InvalidType))
    ));
    assert_eq!(g.node_count(), 0);
}

#[test]
fn missing_entities() {
    let mut g = TestGraph::new(TestSchema::new());
    g.add_node(weight(0, 0)).unwrap();

    assert!(matches!(g.get_node(3), Err(TypedError::MissingNode(3))));
    assert!(matches!(g.get_edge(3), Err(TypedError::MissingEdge(3))));
    assert!(matches!(g.remove_node(3), Err(TypedError::NodeIdMissing(3))));
    assert!(matches!(g.remove_edge(3), Err(TypedError::EdgeIdMissing(3))));
    assert!(matches!(
        g.add_edge(0, 3, weight(0, 0)),
        Err(TypedError::MissingNode(3))
    ));
    assert!(matches!(
        g.add_edge(3, 0, weight(0, 0)),
        Err(TypedError::MissingNode(3))
    ));
}

#[test]
fn edge_update_moves_endpoint() {
    let mut g = TestGraph::new(TestSchema::new());
    let a = g.add_node(weight(0, 0)).unwrap();
    let b = g.add_node(weight(1, 0)).unwrap();
    let c = g.add_node(weight(2, 0)).unwrap();
    g.add_edge(a, b, weight(0, 0)).unwrap();
    g.add_edge(a, b, weight(1, 1)).unwrap();

    // re-adding an existing edge id with a new source moves it to the end of
    // the new source's outgoing order
    g.add_edge(c, b, weight(0, 0)).unwrap();
    let full = g.get_edge_full(0).unwrap();
    assert_eq!(full.get_source(), c);
    assert_eq!(full.get_target(), b);
    let a_out: Vec<usize> = g.get_outgoing(a).unwrap().iter().map(|e| e.get_weight().id).collect();
    assert_eq!(a_out, &[1]);
    let c_out: Vec<usize> = g.get_outgoing(c).unwrap().iter().map(|e| e.get_weight().id).collect();
    assert_eq!(c_out, &[0]);
}

#[test]
fn quantity_freed_by_removal() {
    let s = TestSchema::new().endpoint_max_quantity(Some(vec![((0, 0, 0), 1)]));
    let mut g = TestGraph::new(s);
    let a = g.add_node(weight(0, 0)).unwrap();
    let b = g.add_node(weight(1, 0)).unwrap();
    g.add_edge(a, b, weight(0, 0)).unwrap();
    assert!(g.add_edge(a, b, weight(1, 0)).is_err());
    // removing one allows a replacement to succeed again
    g.remove_edge(0).unwrap();
    g.add_edge(a, b, weight(1, 0)).unwrap();
    assert_eq!(g.edge_count(), 1);
}

#[test]
fn direction_accessors() {
    let mut g = TestGraph::new(TestSchema::new());
    let a = g.add_node(weight(0, 0)).unwrap();
    let b = g.add_node(weight(1, 0)).unwrap();
    g.add_edge(a, b, weight(0, 0)).unwrap();

    let both = g.get_incoming_and_outgoing(b).unwrap();
    assert_eq!(both.len(), 1);
    // reached incoming: the inner node is the target, the outer the source
    assert_eq!(both[0].get_inner(), b);
    assert_eq!(both[0].get_outer(), a);

    let out = g.get_outgoing(a).unwrap();
    assert_eq!(out[0].get_inner(), a);
    assert_eq!(out[0].get_outer(), b);

    let g2 = TypedGraph::new(TestSchema::new());
    assert_eq!(g2.node_count(), 0);
    assert_eq!(g2.edge_count(), 0);
}

#[test]
fn schema_filter_lists() {
    // node blacklist
    let s = TestSchema::new().node_blacklist(Some(vec![3]));
    let mut g = TestGraph::new(s);
    assert!(g.add_node(weight(0, 3)).is_err());
    assert!(g.add_node(weight(0, 2)).is_ok());

    // edge whitelist and endpoint whitelist together
    let s = TestSchema::new()
        .edge_whitelist(Some(vec![1, 2]))
        .endpoint_whitelist(Some(vec![(1, 0, 0), (2, 0, 0)]));
    let mut g = TestGraph::new(s);
    let a = g.add_node(weight(0, 0)).unwrap();
    let b = g.add_node(weight(1, 0)).unwrap();
    // edge type outside the whitelist
    assert!(matches!(
        g.add_edge(a, b, weight(0, 5)),
        Err(TypedError::InvalidEdgeType(5, 0, 0, typed_graph::graph_traits::DisAllowedEdge::InvalidType))
    ));
    // listed type and listed endpoint triple
    assert!(g.add_edge(a, b, weight(0, 1)).is_ok());

    // endpoint blacklist wins over everything else
    let s = TestSchema::new().endpoint_blacklist(Some(vec![(1, 0, 0)]));
    let mut g = TestGraph::new(s);
    let a = g.add_node(weight(0, 0)).unwrap();
    let b = g.add_node(weight(1, 0)).unwrap();
    assert!(g.add_edge(a, b, weight(0, 1)).is_err());
    assert!(g.add_edge(a, b, weight(0, 2)).is_ok());
}

#[test]
fn node_and_edge_listings() {
    let mut g = TestGraph::new(TestSchema::new());
    g.add_node(weight(5, 1)).unwrap();
    g.add_node(weight(6, 2)).unwrap();
    g.add_edge(5, 6, weight(9, 4)).unwrap();

    assert_eq!(g.node_ids(), vec![5, 6]);
    assert_eq!(g.edge_ids(), vec![9]);
    let ws = g.nodes();
    assert_eq!(ws.len(), 2);
    assert_eq!((ws[0].id, ws[0].ty), (5, 1));
    let es = g.edges();
    assert_eq!((es[0].id, es[0].ty), (9, 4));
    let full = g.edges_full();
    assert_eq!(full.len(), 1);
    assert_eq!(full[0].get_source(), 5);
    assert_eq!(full[0].get_target(), 6);
    assert_eq!(full[0].get_weight().id, 9);
    assert!(g.get_node_safe(5).is_some());
    assert!(g.get_node_safe(7).is_none());
    assert!(g.get_edge_safe(9).is_some());
    assert!(g.get_edge_safe(5).is_none());
}

#[test]
fn edge_filter_queries() {
    let mut g = TestGraph::new(TestSchema::new());
    let a = g.add_node(weight(0, 0)).unwrap();
    let b = g.add_node(weight(1, 0)).unwrap();
    for i in 0..6 {
        g.add_edge(a, b, weight(i, i % 2)).unwrap();
    }
    // outgoing edges whose type is odd, in the authoritative order
    let odd: Vec<usize> = g
        .get_outgoing_filter_edge(a, |e| e.ty % 2 == 1)
        .unwrap()
        .iter()
        .map(|r| r.get_weight().id)
        .collect();
    assert_eq!(odd, &[1, 3, 5]);
    // incoming side sees the same edges at the target
    let even_in: Vec<usize> = g
        .get_incoming_filter_edge(b, |e| e.ty % 2 == 0)
        .unwrap()
        .iter()
        .map(|r| r.get_weight().id)
        .collect();
    assert_eq!(even_in.len(), 3);
    assert!(even_in.contains(&0) && even_in.contains(&2) && even_in.contains(&4));
    // a missing node is reported
    assert!(g.get_outgoing_filter_edge(9, |_e| true).is_err());
    assert!(g.get_incoming_filter_edge(9, |_e| true).is_err());
}
