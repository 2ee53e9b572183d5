use typed_graph::generic_graph::{GenericGraph, GenericSchema};
use typed_graph::generic_weight::GenericWeight;
use typed_graph::migration::DefaultMigrationHandler;
use typed_graph::typed_error::TypedError;

type TestSchema = GenericSchema<usize, usize>;
type TestGraph = GenericGraph<usize, usize>;

fn weight(id: usize, ty: usize) -> GenericWeight<usize> {
    GenericWeight::new(id, ty)
}

const TY_A: usize = 0;
const TY_B: usize = 1;
const TY_C: usize = 2;

#[test]
fn migration_drop_semantics() {
    // old schema allows node types {A, B, C}; the new one only {A, C}
    let old = TestSchema::new().node_whitelist(Some(vec![TY_A, TY_B, TY_C]));
    let mut g = TestGraph::new(old);
    let a = g.add_node(weight(0, TY_A)).unwrap();
    let b = g.add_node(weight(1, TY_B)).unwrap();
    let c = g.add_node(weight(2, TY_C)).unwrap();
    g.add_edge(a, c, weight(0, 0)).unwrap();
    g.add_edge(a, b, weight(1, 0)).unwrap();
    g.add_edge(b, c, weight(2, 0)).unwrap();

    let new = TestSchema::new().node_whitelist(Some(vec![TY_A, TY_C]));
    let ng = g.migrate(new, &DefaultMigrationHandler).unwrap();

    // B and all its incident edges are absent
    assert!(!ng.has_node(b));
    assert!(!ng.has_edge(1));
    assert!(!ng.has_edge(2));
    // A and C, and the edge between surviving types, are retained with
    // unchanged ids
    assert!(ng.has_node(a));
    assert!(ng.has_node(c));
    assert!(ng.has_edge(0));
    assert_eq!(ng.get_node(a).unwrap().ty, TY_A);
    assert_eq!(ng.get_node(c).unwrap().ty, TY_C);
    let full = ng.get_edge_full(0).unwrap();
    assert_eq!(full.get_source(), a);
    assert_eq!(full.get_target(), c);
    assert_eq!(ng.node_count(), 2);
    assert_eq!(ng.edge_count(), 1);
}

#[test]
fn migration_truncation_by_order() {
    let old = TestSchema::new();
    let mut g = TestGraph::new(old);
    let a = g.add_node(weight(0, TY_A)).unwrap();
    let b = g.add_node(weight(1, TY_A)).unwrap();
    for i in 0..4 {
        g.add_edge(a, b, weight(i, 0)).unwrap();
    }
    // put edge 3 at the front: the authoritative order is now [3, 0, 1, 2]
    g.move_edge_order(3, 0, typed_graph::typed_graph::InsertPosition::Before).unwrap();

    // the new schema lowers the per-endpoint cap below the existing count
    let new = TestSchema::new().endpoint_max_quantity(Some(vec![((0, TY_A, TY_A), 2)]));
    let ng = g.migrate(new, &DefaultMigrationHandler).unwrap();

    // the last edges in outgoing order are dropped first: [3, 0] survive
    assert_eq!(ng.edge_count(), 2);
    assert!(ng.has_edge(3));
    assert!(ng.has_edge(0));
    assert!(!ng.has_edge(1));
    assert!(!ng.has_edge(2));
    let order: Vec<usize> = ng
        .get_outgoing(a)
        .unwrap()
        .iter()
        .map(|e| e.get_weight().id)
        .collect();
    assert_eq!(order, &[3, 0]);
}

#[test]
fn update_schema_rejects_changed_ids() {
    let mut g = TestGraph::new(TestSchema::new());
    g.add_node(weight(4, TY_A)).unwrap();
    let e = g.update_schema(
        TestSchema::new(),
        |_old: &TestSchema, _new: &TestSchema, mut n: GenericWeight<usize>| {
            n.id = 5;
            Some(n)
        },
        |_old: &TestSchema, _new: &TestSchema, e: GenericWeight<usize>| Some(e),
    );
    assert!(matches!(e, Err(TypedError::InconsistentNodeIds(4, 5))));

    let mut g = TestGraph::new(TestSchema::new());
    let a = g.add_node(weight(0, TY_A)).unwrap();
    g.add_edge(a, a, weight(7, 0)).unwrap();
    let e = g.update_schema(
        TestSchema::new(),
        |_old: &TestSchema, _new: &TestSchema, n: GenericWeight<usize>| Some(n),
        |_old: &TestSchema, _new: &TestSchema, mut e: GenericWeight<usize>| {
            e.id = 8;
            Some(e)
        },
    );
    assert!(matches!(e, Err(TypedError::InconsistentEdgeIds(7, 8))));
}

#[test]
fn update_schema_drops_mapped_none() {
    let mut g = TestGraph::new(TestSchema::new());
    let a = g.add_node(weight(0, TY_A)).unwrap();
    let b = g.add_node(weight(1, TY_B)).unwrap();
    g.add_edge(a, b, weight(0, 0)).unwrap();
    g.add_edge(a, a, weight(1, 0)).unwrap();

    let ng = g
        .update_schema(
            TestSchema::new(),
            |_old: &TestSchema, _new: &TestSchema, n: GenericWeight<usize>| {
                if n.ty == TY_B {
                    None
                } else {
                    Some(n)
                }
            },
            |_old: &TestSchema, _new: &TestSchema, e: GenericWeight<usize>| Some(e),
        )
        .unwrap();
    assert!(ng.has_node(a));
    assert!(!ng.has_node(b));
    assert!(!ng.has_edge(0));
    assert!(ng.has_edge(1));
}

#[test]
fn migration_fatal_on_disallowed_edge_type() {
    let old = TestSchema::new();
    let mut g = TestGraph::new(old);
    let a = g.add_node(weight(0, TY_A)).unwrap();
    let b = g.add_node(weight(1, TY_A)).unwrap();
    g.add_edge(a, b, weight(0, 3)).unwrap();

    // the new schema keeps both nodes and the edge type, but refuses the
    // endpoint combination outright: that is not a quantity rejection, so
    // the whole migration fails
    let new = TestSchema::new().endpoint_blacklist(Some(vec![(3, TY_A, TY_A)]));
    let e = g.migrate(new, &DefaultMigrationHandler);
    match e {
        Err(TypedError::InvalidEdgeType(a, b, c, _)) => {
            // every type identifier is re-labeled as "<schema-name>::<type>"
            assert_eq!(a, "GenericSchema::3");
            assert_eq!(b, "GenericSchema::0");
            assert_eq!(c, "GenericSchema::0");
        },
        _ => panic!("expected an edge rejection"),
    }

    // a blacklisted edge type, by contrast, has no equivalent in the new
    // schema: the conversion drops the edge instead of failing
    let mut g = TestGraph::new(TestSchema::new());
    let a = g.add_node(weight(0, TY_A)).unwrap();
    let b = g.add_node(weight(1, TY_A)).unwrap();
    g.add_edge(a, b, weight(0, 3)).unwrap();
    let new = TestSchema::new().edge_blacklist(Some(vec![3]));
    let ng = g.migrate(new, &DefaultMigrationHandler).unwrap();
    assert!(ng.has_node(a) && ng.has_node(b));
    assert_eq!(ng.edge_count(), 0);
}
