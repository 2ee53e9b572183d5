use typed_graph::generic_graph::{GenericGraph, GenericSchema};
use typed_graph::typed_error::TypedError;
use typed_graph::generic_weight::GenericWeight;
use typed_graph::typed_graph::{InsertPosition, TypedGraph};

type TestSchema = GenericSchema<usize, usize>;
type TestGraph = GenericGraph<usize, usize>;

fn weight(id: usize, ty: usize) -> GenericWeight<usize> {
    GenericWeight::new(id, ty)
}

#[test]
fn interchange_round_trip() {
    let mut g = TestGraph::new(TestSchema::new());
    for i in 0..20 {
        g.add_node(weight(i, i % 5)).unwrap();
    }
    let mut eid = 0;
    for x in 0..20 {
        for y in 0..20 {
            if x == y {
                continue;
            }
            if (x + y) % 3 == 0 {
                g.add_edge(x, y, weight(eid, (x * y) % 4)).unwrap();
                eid += 1;
            }
        }
    }
    // shuffle some state so the dump is not simply insertion-ordered
    g.remove_node(7).unwrap();
    g.remove_edge(2).unwrap();
    g.move_edge_order(4, 1, InsertPosition::Before).unwrap();

    let data = g.to_interchange();
    let g2 = TypedGraph::from_interchange(data).unwrap();

    assert_eq!(g.node_count(), g2.node_count());
    assert_eq!(g.edge_count(), g2.edge_count());
    assert!(g.graph_eq(&g2));
}

#[test]
fn interchange_round_trip_keeps_moved_order() {
    let mut g = TestGraph::new(TestSchema::new());
    let a = g.add_node(weight(0, 0)).unwrap();
    let b = g.add_node(weight(1, 0)).unwrap();
    for i in 0..5 {
        g.add_edge(a, b, weight(i, i)).unwrap();
    }
    g.move_edge_order(3, 1, InsertPosition::Before).unwrap();

    let data = g.to_interchange();
    let g2 = TypedGraph::from_interchange(data).unwrap();
    let order: Vec<usize> = g2
        .get_outgoing(a)
        .unwrap()
        .iter()
        .map(|e| e.get_weight().ty)
        .collect();
    assert_eq!(order, &[0, 3, 1, 2, 4]);
    assert!(g.graph_eq(&g2));
}

#[test]
fn interchange_rejects_disallowed_node() {
    let g = {
        let mut g = TestGraph::new(TestSchema::new());
        g.add_node(weight(0, 9)).unwrap();
        g
    };
    let mut data = g.to_interchange();
    // a schema that no longer accepts the stored node type makes the load fail
    data.schema = TestSchema::new().node_blacklist(Some(vec![9]));
    assert!(TypedGraph::from_interchange(data).is_err());
}

#[test]
fn interchange_rejects_dangling_edge() {
    let mut g = TestGraph::new(TestSchema::new());
    let a = g.add_node(weight(0, 0)).unwrap();
    let b = g.add_node(weight(1, 0)).unwrap();
    g.add_edge(a, b, weight(0, 0)).unwrap();

    let mut data = g.to_interchange();
    data.nodes.pop();
    assert!(TypedGraph::from_interchange(data).is_err());
}

#[test]
fn interchange_rejects_duplicate_ids() {
    let mut g = TestGraph::new(TestSchema::new());
    let a = g.add_node(weight(0, 0)).unwrap();
    let b = g.add_node(weight(1, 0)).unwrap();
    g.add_edge(a, b, weight(0, 0)).unwrap();

    // a duplicate node id is a load-time error
    let mut data = g.to_interchange();
    data.nodes.push(weight(0, 3));
    let e = TypedGraph::from_interchange(data);
    assert!(matches!(e, Err(TypedError::NodeIdCollision(0))));

    // a duplicate edge id is a load-time error
    let mut data = g.to_interchange();
    data.edges.push(typed_graph::interchange::EdgeData {
        weight: weight(0, 2),
        source: b,
        target: a,
    });
    let e = TypedGraph::from_interchange(data);
    assert!(matches!(e, Err(TypedError::EdgeIdCollision(0))));
}
