use typed_graph::generic_graph::{GenericGraph, GenericSchema};
use typed_graph::generic_weight::GenericWeight;
use typed_graph::graph_walker::GraphWalker;
use typed_graph::typed_error::TypedError;

type TestSchema = GenericSchema<usize, usize>;
type TestGraph = GenericGraph<usize, usize>;

fn weight(id: usize, ty: usize) -> GenericWeight<usize> {
    GenericWeight::new(id, ty)
}

fn chain_graph() -> TestGraph {
    let mut g = TestGraph::new(TestSchema::new());
    let a = g.add_node(weight(0, 0)).unwrap();
    let b = g.add_node(weight(1, 1)).unwrap();
    let c = g.add_node(weight(2, 2)).unwrap();
    g.add_edge(a, b, weight(0, 10)).unwrap();
    g.add_edge(a, c, weight(1, 20)).unwrap();
    g.add_edge(b, c, weight(2, 30)).unwrap();
    g
}

#[test]
fn walker_one_from_node() {
    let g = chain_graph();
    let w = GraphWalker::<GenericWeight<usize>, (), _>::new_from(&g, 1);
    let got = w.one().unwrap();
    assert_eq!(got.unwrap().id, 1);

    let w = GraphWalker::<GenericWeight<usize>, (), _>::new_from(&g, 9);
    assert!(w.one().unwrap().is_none());
}

#[test]
fn walker_fan_out_and_collect() {
    let g = chain_graph();
    let w = GraphWalker::<GenericWeight<usize>, (), _>::new_from(&g, 0);
    // one step: every node reachable over one outgoing edge
    let step = w.progress(|n: GenericWeight<usize>, gr: &TestGraph| {
        let mut next = Vec::new();
        for er in gr.get_outgoing(n.id)? {
            let outer = er.get_outer();
            next.push(gr.get_node(outer)?.clone());
        }
        Ok(next)
    });
    let mut reached: Vec<usize> = step.many().unwrap().iter().map(|n| n.id).collect();
    reached.sort();
    assert_eq!(reached, &[1, 2]);
}

#[test]
fn walker_accumulates_state_per_branch() {
    let g = chain_graph();
    let w = GraphWalker::<GenericWeight<usize>, (), _>::new_from(&g, 0);
    let w = w.set_state(0usize);
    // each branch collects the sum of the edge types it traversed
    let step = |n: GenericWeight<usize>, gr: &TestGraph| {
        let mut next = Vec::new();
        for er in gr.get_outgoing(n.id)? {
            let outer = er.get_outer();
            next.push((er.get_weight().ty, gr.get_node(outer)?.clone()));
        }
        Ok(next)
    };
    let fold = |acc: &usize, add: usize| *acc + add;
    let w = w.progress_with_state(step, fold);
    let w = w.progress_with_state(step, fold);
    let targets = w.many_with_state().unwrap();
    // only a -> b -> c survives two steps; its state is 10 + 30
    assert_eq!(targets.len(), 1);
    assert_eq!(targets[0].val.id, 2);
    assert_eq!(targets[0].state, 40);
}

#[test]
fn walker_propagates_branch_errors() {
    let g = chain_graph();
    let w = GraphWalker::<GenericWeight<usize>, (), _>::new_from(&g, 0);
    let step = w.progress(|n: GenericWeight<usize>, gr: &TestGraph| {
        // a failing branch terminates with its error instead of vanishing
        let _ = gr.get_node(99)?;
        let _ = n;
        Ok(Vec::new())
    });
    let res: Result<Vec<GenericWeight<usize>>, _> = step.many();
    assert!(matches!(res, Err(TypedError::MissingNode(99))));
}
