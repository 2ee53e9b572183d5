//! The interchange form an external codec serializes: the schema, the node
//! weights, and the edge records in outgoing-adjacency order.

use vstd::prelude::*;

use crate::graph_traits::{Dup, DupSchema, Id, SchemaExt, Typed};
use crate::typed_error::{SchemaResult, TypedError};
use crate::typed_graph::{Direction, NodeEntry, TypedGraph};

verus! {

/// One serialized edge: its weight and the logical ids of its endpoints.
pub struct EdgeData<E> {
    pub weight: E,
    pub source: usize,
    pub target: usize,
}

/// The interchange record: schema first, then the node weights in storage
/// order, then the edge records in outgoing-adjacency order (for each node
/// in storage order, its outgoing edges in their authoritative order).
pub struct GraphData<S: SchemaExt> {
    pub schema: S,
    pub nodes: Vec<S::N>,
    pub edges: Vec<EdgeData<S::E>>,
}

/// The records of `s` whose source is `src`, in order.
pub open spec fn edges_from_source<E>(s: Seq<EdgeData<E>>, src: usize) -> Seq<EdgeData<E>> {
    s.filter(|e: EdgeData<E>| e.source == src)
}

/// How `edges_from_source` acts on a push.
pub proof fn lemma_edges_from_source_push<E>(s: Seq<EdgeData<E>>, y: EdgeData<E>, src: usize)
    ensures
        edges_from_source(s.push(y), src) == (if y.source == src {
            edges_from_source(s, src).push(y)
        } else {
            edges_from_source(s, src)
        }),
{
    reveal(Seq::filter);
    assert((s.push(y)).drop_last() =~= s);
    assert((s.push(y)).last() == y);
}

/// `edges_from_source` of the empty sequence is empty.
pub proof fn lemma_edges_from_source_empty<E>(src: usize)
    ensures
        edges_from_source(Seq::<EdgeData<E>>::empty(), src) == Seq::<EdgeData<E>>::empty(),
{
    reveal(Seq::filter);
}

/// Members of `edges_from_source` come from the original records.
pub proof fn lemma_edges_from_source_member<E>(s: Seq<EdgeData<E>>, src: usize, p: int)
    requires
        0 <= p < s.len(),
        s[p].source == src,
    ensures
        edges_from_source(s, src).contains(s[p]),
{
    broadcast use vstd::seq_lib::group_seq_lib_default;

    s.lemma_filter_contains(|e: EdgeData<E>| e.source == src, p);
}

impl<S: SchemaExt + DupSchema> TypedGraph<S> {
    /// Produce the interchange record of the store.  The edges are emitted
    /// grouped per node in storage order, each group in the authoritative
    /// outgoing order, so that re-adding them in record order reproduces
    /// every node's outgoing order.
    pub fn to_interchange(&self) -> (r: GraphData<S>)
        requires
            self.wf(),
        ensures
            is_interchange_of(r, *self),
    {
        broadcast use vstd::seq_lib::group_seq_lib_default;
        broadcast use vstd::seq_lib::group_seq_properties;

        let schema = self.get_schema().dup_schema();
        let nodes = self.nodes();
        let mut edges: Vec<EdgeData<S::E>> = Vec::new();
        proof {
            assert forall|x: usize| #[trigger] self.spec_has_node(x) implies edges_from_source(
                edges@,
                x,
            ) == Seq::<EdgeData<S::E>>::empty() by {
                lemma_edges_from_source_empty::<S::E>(x);
            }
        }
        proof {
            assert(data_edge_ids(edges@) =~= dump_order_upto(*self, 0));
        }
        let nn = self.node_count();
        let mut i: usize = 0;
        while i < nn
            invariant
                self.wf(),
                nn == self.spec_nodes().len(),
                i <= nn,
                forall|p: int|
                    0 <= p < edges@.len() ==> self.spec_has_edge(
                        (#[trigger] edges@[p]).weight.sid(),
                    ) && edges@[p].weight == self.edge_entry(edges@[p].weight.sid()).weight
                        && edges@[p].source == self.edge_entry(edges@[p].weight.sid()).source
                        && edges@[p].target == self.edge_entry(edges@[p].weight.sid()).target,
                forall|p: int, q: int|
                    0 <= p < q < edges@.len() ==> (#[trigger] edges@[p]).weight.sid() != (
                    #[trigger] edges@[q]).weight.sid(),
                forall|x: usize|
                    #[trigger] self.spec_has_node(x) && self.node_idx(x) < i as int
                        ==> edges_from_source(edges@, x).map_values(
                        |e: EdgeData<S::E>| e.weight.sid(),
                    ) == self.node_entry(x).outgoing@,
                forall|x: usize|
                    #[trigger] self.spec_has_node(x) && self.node_idx(x) >= i as int
                        ==> edges_from_source(edges@, x) == Seq::<EdgeData<S::E>>::empty(),
                data_edge_ids(edges@) == dump_order_upto(*self, i as int),
            decreases nn - i,
        {
            let node_id = self.node_id_at(i);
            proof {
                self.lemma_node_idx(node_id);
                assert(self.node_idx(node_id) == i as int);
            }
            let rn = match self.get_outgoing(node_id) {
                Ok(v) => v.len(),
                Err(_) => {
                    proof {
                        assert(false);
                    }
                    return GraphData { schema, nodes, edges };
                },
            };
            let ghost og = self.spec_nodes()[i as int].outgoing@;
            let mut k: usize = 0;
            proof {
                assert(og.take(0) =~= Seq::<usize>::empty());
                assert(edges_from_source(edges@, node_id).map_values(
                    |e: EdgeData<S::E>| e.weight.sid(),
                ) =~= og.take(0));
            }
            while k < rn
                invariant
                    self.wf(),
                    i < self.spec_nodes().len(),
                    og == self.spec_nodes()[i as int].outgoing@,
                    self.spec_nodes()[i as int].weight.sid() == node_id,
                    self.node_idx(node_id) == i as int,
                    rn == og.len(),
                    k <= rn,
                    forall|p: int|
                        0 <= p < edges@.len() ==> self.spec_has_edge(
                            (#[trigger] edges@[p]).weight.sid(),
                        ) && edges@[p].weight == self.edge_entry(edges@[p].weight.sid()).weight
                            && edges@[p].source == self.edge_entry(edges@[p].weight.sid()).source
                            && edges@[p].target == self.edge_entry(edges@[p].weight.sid()).target,
                    forall|p: int, q: int|
                        0 <= p < q < edges@.len() ==> (#[trigger] edges@[p]).weight.sid() != (
                        #[trigger] edges@[q]).weight.sid(),
                    forall|x: usize|
                        #[trigger] self.spec_has_node(x) && self.node_idx(x) < i as int
                            ==> edges_from_source(edges@, x).map_values(
                            |e: EdgeData<S::E>| e.weight.sid(),
                        ) == self.node_entry(x).outgoing@,
                    forall|x: usize|
                        #[trigger] self.spec_has_node(x) && self.node_idx(x) > i as int
                            ==> edges_from_source(edges@, x) == Seq::<EdgeData<S::E>>::empty(),
                    edges_from_source(edges@, node_id).map_values(
                        |e: EdgeData<S::E>| e.weight.sid(),
                    ) == og.take(k as int),
                    data_edge_ids(edges@) == dump_order_upto(*self, i as int) + og.take(k as int),
                decreases rn - k,
            {
                let ghost eid = og[k as int];
                proof {
                    assert(self.spec_has_edge(eid));
                    self.lemma_edge_idx(eid);
                    assert(self.edge_entry(eid).source == node_id);
                }
                let er = self.outgoing_at(i, k);
                let ed = EdgeData { weight: er.weight, source: er.source, target: er.target };
                let ghost before = edges@;
                let ghost edv = EdgeData {
                    weight: self.edge_entry(eid).weight,
                    source: self.edge_entry(eid).source,
                    target: self.edge_entry(eid).target,
                };
                proof {
                    // the id being pushed is not captured yet: it would have
                    // to sit in this same group, which holds only a strict
                    // prefix of this outgoing order
                    if exists|p: int|
                        0 <= p < before.len() && (#[trigger] before[p]).weight.sid() == eid {
                        let p = choose|p: int|
                            0 <= p < before.len() && (#[trigger] before[p]).weight.sid() == eid;
                        assert(before[p].source == node_id);
                        lemma_edges_from_source_member(before, node_id, p);
                        let cls = edges_from_source(before, node_id);
                        let q = choose|q: int| 0 <= q < cls.len() && cls[q] == before[p];
                        assert(cls.map_values(|e: EdgeData<S::E>| e.weight.sid())[q] == eid);
                        assert(og.take(k as int).len() == k as int);
                        assert(og.take(k as int)[q] == eid);
                        assert(og.take(k as int)[q] == og[q]);
                        assert(og.no_duplicates());
                        assert(og[q] == og[k as int] && q != k as int);
                        assert(false);
                    }
                }
                edges.push(ed);
                proof {
                    assert(edges@ == before.push(edv));
                    assert forall|x: usize| #[trigger]
                        self.spec_has_node(x) && self.node_idx(x) != i as int implies edges_from_source(
                        edges@,
                        x,
                    ) == edges_from_source(before, x) by {
                        lemma_edges_from_source_push(before, edv, x);
                        assert(x != node_id);
                    }
                    lemma_edges_from_source_push(before, edv, node_id);
                    assert(edges_from_source(edges@, node_id) == edges_from_source(
                        before,
                        node_id,
                    ).push(edv));
                    assert(og.take(k + 1) =~= og.take(k as int).push(og[k as int]));
                    assert(edges_from_source(edges@, node_id).map_values(
                        |e: EdgeData<S::E>| e.weight.sid(),
                    ) =~= og.take(k + 1));
                    assert(data_edge_ids(edges@) =~= data_edge_ids(before).push(
                        edv.weight.sid(),
                    ));
                    assert(data_edge_ids(edges@) =~= dump_order_upto(*self, i as int) + og.take(
                        k + 1,
                    ));
                }
                k += 1;
            }
            proof {
                assert(og.take(rn as int) =~= og);
                assert(data_edge_ids(edges@) == dump_order_upto(*self, i + 1));
                assert forall|x: usize|
                    #[trigger] self.spec_has_node(x) && self.node_idx(x) < i + 1 implies edges_from_source(
                    edges@,
                    x,
                ).map_values(|e: EdgeData<S::E>| e.weight.sid()) == self.node_entry(
                    x,
                ).outgoing@ by {
                    if self.node_idx(x) == i as int {
                        assert(x == node_id);
                    }
                }
            }
            i += 1;
        }
        let result = GraphData { schema, nodes, edges };
        proof {
            // every live edge was captured: it sits in its source's group
            assert forall|x: usize| #[trigger] self.spec_has_edge(x) implies exists|p: int|
                0 <= p < result.edges@.len() && (#[trigger] result.edges@[p]).weight.sid()
                    == x by {
                self.lemma_edge_idx(x);
                let src = self.edge_entry(x).source;
                assert(self.spec_has_node(src));
                self.lemma_node_idx(src);
                assert(self.node_entry(src).outgoing@.contains(x));
                let cls = edges_from_source(result.edges@, src);
                let ids = cls.map_values(|e: EdgeData<S::E>| e.weight.sid());
                assert(ids == self.node_entry(src).outgoing@);
                let q = choose|q: int|
                    0 <= q < self.node_entry(src).outgoing@.len() && self.node_entry(
                        src,
                    ).outgoing@[q] == x;
                assert(ids[q] == x);
                assert(cls[q].weight.sid() == x);
                assert(cls.contains(cls[q]));
                lemma_edges_from_source_sub(result.edges@, src);
                let p = choose|p: int|
                    0 <= p < result.edges@.len() && result.edges@[p] == cls[q];
                assert(result.edges@[p].weight.sid() == x);
            }
            assert forall|x: usize| #[trigger] self.spec_has_node(x) implies data_edge_ids(
                edges_from_source(result.edges@, x),
            ) == self.node_entry(x).outgoing@ by {}
            assert(is_interchange_of(result, *self));
        }
        result
    }
}

/// The concatenation of the first `i` nodes' outgoing orders, in storage
/// order: the global order spec'd for the interchange edge list.
pub open spec fn dump_order_upto<S: SchemaExt>(g: TypedGraph<S>, i: int) -> Seq<usize>
    decreases i,
{
    if i <= 0 {
        Seq::empty()
    } else {
        dump_order_upto(g, i - 1) + g.spec_nodes()[i - 1].outgoing@
    }
}

/// The whole store's edge ids: for each node in storage order, its outgoing
/// edges in their authoritative order.
pub open spec fn dump_order<S: SchemaExt>(g: TypedGraph<S>) -> Seq<usize> {
    dump_order_upto(g, g.spec_nodes().len() as int)
}

/// Whether some weight in `nodes` carries the logical id `x`.
pub open spec fn data_has_node<N: Id>(nodes: Seq<N>, x: usize) -> bool {
    exists|i: int| 0 <= i < nodes.len() && (#[trigger] nodes[i]).sid() == x
}

/// The position of the weight carrying `x`; meaningful only when
/// `data_has_node` holds and ids are distinct.
pub open spec fn data_node_pos<N: Id>(nodes: Seq<N>, x: usize) -> int {
    choose|i: int| 0 <= i < nodes.len() && (#[trigger] nodes[i]).sid() == x
}

/// The type tag of the node weight carrying `x`.
pub open spec fn data_node_ty<N: Id + Typed>(nodes: Seq<N>, x: usize) -> N::Type {
    nodes[data_node_pos(nodes, x)].ty()
}

/// The edge ids of a record sequence, in order.
pub open spec fn data_edge_ids<E: Id>(s: Seq<EdgeData<E>>) -> Seq<usize> {
    s.map_values(|e: EdgeData<E>| e.weight.sid())
}

/// The records of one exact (source, edge type, target type) combination.
pub open spec fn data_class<N: Id + Typed, E: Id + Typed>(
    nodes: Seq<N>,
    edges: Seq<EdgeData<E>>,
    src: usize,
    ety: E::Type,
    tty: N::Type,
) -> Seq<EdgeData<E>> {
    edges.filter(
        |e: EdgeData<E>|
            e.source == src && e.weight.ty() == ety && data_node_ty(nodes, e.target) == tty,
    )
}

/// Whether an interchange record can be loaded in full: distinct ids,
/// schema-accepted types, live endpoints, and every record's freshly counted
/// quantity within the schema's ceiling at its turn.
pub open spec fn dump_coherent<S: SchemaExt>(
    schema: S,
    nodes: Seq<S::N>,
    edges: Seq<EdgeData<S::E>>,
) -> bool {
    &&& forall|i: int, j: int|
        0 <= i < j < nodes.len() ==> (#[trigger] nodes[i]).sid() != (#[trigger] nodes[j]).sid()
    &&& forall|i: int| 0 <= i < nodes.len() ==> schema.node_allowed((#[trigger] nodes[i]).ty())
    &&& forall|p: int, q: int|
        0 <= p < q < edges.len() ==> (#[trigger] edges[p]).weight.sid() != (
        #[trigger] edges[q]).weight.sid()
    &&& forall|p: int|
        0 <= p < edges.len() ==> data_has_node(nodes, (#[trigger] edges[p]).source)
            && data_has_node(nodes, edges[p].target)
    &&& forall|p: int|
        0 <= p < edges.len() ==> schema.edge_type_allowed(
            (#[trigger] edges[p]).weight.ty(),
            data_node_ty(nodes, edges[p].source),
            data_node_ty(nodes, edges[p].target),
        )
    &&& forall|p: int|
        0 <= p < edges.len() ==> schema.edge_quantity_allowed(
            data_class(
                nodes,
                edges.take(p),
                (#[trigger] edges[p]).source,
                edges[p].weight.ty(),
                data_node_ty(nodes, edges[p].target),
            ).len() + 1,
            edges[p].weight.ty(),
            data_node_ty(nodes, edges[p].source),
            data_node_ty(nodes, edges[p].target),
        )
}

/// What `to_interchange` promises of its record: a schema that behaves like
/// the store's, the node weights in storage order, and the edge records --
/// pairwise distinct, covering every live edge, each mirroring its store
/// entry, and grouped so that each node's source group lists its outgoing
/// order.
pub open spec fn is_interchange_of<S: SchemaExt>(data: GraphData<S>, g: TypedGraph<S>) -> bool {
    &&& forall|t: <S::N as Typed>::Type| #[trigger]
        data.schema.node_allowed(t) == g.spec_schema().node_allowed(t)
    &&& forall|et: <S::E as Typed>::Type, st: <S::N as Typed>::Type, tt: <S::N as Typed>::Type| #[trigger]
        data.schema.edge_type_allowed(et, st, tt) == g.spec_schema().edge_type_allowed(et, st, tt)
    &&& forall|c: nat, et: <S::E as Typed>::Type, st: <S::N as Typed>::Type, tt: <S::N as Typed>::Type| #[trigger]
        data.schema.edge_quantity_allowed(c, et, st, tt) == g.spec_schema().edge_quantity_allowed(
            c,
            et,
            st,
            tt,
        )
    &&& data.nodes@ == g.spec_nodes().map_values(|e: NodeEntry<S::N>| e.weight)
    &&& forall|p: int|
        0 <= p < data.edges@.len() ==> g.spec_has_edge((#[trigger] data.edges@[p]).weight.sid())
            && data.edges@[p].weight == g.edge_entry(data.edges@[p].weight.sid()).weight
            && data.edges@[p].source == g.edge_entry(data.edges@[p].weight.sid()).source
            && data.edges@[p].target == g.edge_entry(data.edges@[p].weight.sid()).target
    &&& forall|p: int, q: int|
        0 <= p < q < data.edges@.len() ==> (#[trigger] data.edges@[p]).weight.sid() != (
        #[trigger] data.edges@[q]).weight.sid()
    &&& forall|x: usize| #[trigger]
        g.spec_has_edge(x) ==> exists|p: int|
            0 <= p < data.edges@.len() && (#[trigger] data.edges@[p]).weight.sid() == x
    &&& forall|x: usize| #[trigger]
        g.spec_has_node(x) ==> data_edge_ids(edges_from_source(data.edges@, x)) == g.node_entry(
            x,
        ).outgoing@
    &&& data_edge_ids(data.edges@) == dump_order(g)
}

/// What a complete load promises: a well-formed store under the record's
/// schema whose node weights, edge entries and per-node outgoing orders read
/// the record back exactly.
pub open spec fn is_full_load_of<S: SchemaExt>(g: TypedGraph<S>, data: GraphData<S>) -> bool {
    &&& g.wf()
    &&& g.spec_schema() == data.schema
    &&& g.spec_nodes().map_values(|e: NodeEntry<S::N>| e.weight) == data.nodes@
    &&& forall|p: int|
        0 <= p < data.edges@.len() ==> g.spec_has_edge((#[trigger] data.edges@[p]).weight.sid())
            && g.edge_entry(data.edges@[p].weight.sid()) == (crate::typed_graph::EdgeEntry {
            weight: data.edges@[p].weight,
            source: data.edges@[p].source,
            target: data.edges@[p].target,
        })
    &&& forall|x: usize| #[trigger]
        data_has_node(data.nodes@, x) ==> g.spec_has_node(x) && g.node_entry(x).outgoing@
            == data_edge_ids(edges_from_source(data.edges@, x))
    &&& forall|x: usize| #[trigger]
        g.spec_has_edge(x) ==> exists|p: int|
            0 <= p < data.edges@.len() && (#[trigger] data.edges@[p]).weight.sid() == x
}

/// How `data_class` acts on a push.
pub proof fn lemma_data_class_push<N: Id + Typed, E: Id + Typed>(
    nodes: Seq<N>,
    s: Seq<EdgeData<E>>,
    y: EdgeData<E>,
    src: usize,
    ety: E::Type,
    tty: N::Type,
)
    ensures
        data_class(nodes, s.push(y), src, ety, tty) == (if y.source == src && y.weight.ty() == ety
            && data_node_ty(nodes, y.target) == tty {
            data_class(nodes, s, src, ety, tty).push(y)
        } else {
            data_class(nodes, s, src, ety, tty)
        }),
{
    reveal(Seq::filter);
    assert((s.push(y)).drop_last() =~= s);
    assert((s.push(y)).last() == y);
}

/// Filters with pointwise-equal predicates agree.
pub proof fn lemma_filter_congruence<A>(s: Seq<A>, p: spec_fn(A) -> bool, q: spec_fn(A) -> bool)
    requires
        forall|i: int| 0 <= i < s.len() ==> p(#[trigger] s[i]) == q(s[i]),
    ensures
        s.filter(p) == s.filter(q),
    decreases s.len(),
{
    reveal(Seq::filter);
    if s.len() > 0 {
        let dl = s.drop_last();
        assert forall|i: int| 0 <= i < dl.len() implies p(#[trigger] dl[i]) == q(dl[i]) by {
            assert(dl[i] == s[i]);
        }
        lemma_filter_congruence(dl, p, q);
        assert(p(s.last()) == q(s.last()));
    }
}

/// Filtering a mapped sequence counts like filtering the original with the
/// corresponding predicate.
pub proof fn lemma_filter_map_len<A, B>(
    b: Seq<B>,
    f: spec_fn(B) -> A,
    pa: spec_fn(A) -> bool,
    pb: spec_fn(B) -> bool,
)
    requires
        forall|i: int| 0 <= i < b.len() ==> pa(f(#[trigger] b[i])) == pb(b[i]),
    ensures
        b.map_values(f).filter(pa).len() == b.filter(pb).len(),
    decreases b.len(),
{
    reveal(Seq::filter);
    if b.len() > 0 {
        let dl = b.drop_last();
        assert forall|i: int| 0 <= i < dl.len() implies pa(f(#[trigger] dl[i])) == pb(dl[i]) by {
            assert(dl[i] == b[i]);
        }
        lemma_filter_map_len(dl, f, pa, pb);
        assert(b.map_values(f).drop_last() =~= dl.map_values(f));
        assert(b.map_values(f).last() == f(b.last()));
        assert(pa(f(b.last())) == pb(b.last()));
    }
}

/// Filtering twice is filtering by the conjunction.
pub proof fn lemma_filter_filter<A>(
    s: Seq<A>,
    p: spec_fn(A) -> bool,
    q: spec_fn(A) -> bool,
    pq: spec_fn(A) -> bool,
)
    requires
        forall|x: A| #[trigger] pq(x) == (p(x) && q(x)),
    ensures
        s.filter(p).filter(q) == s.filter(pq),
    decreases s.len(),
{
    reveal(Seq::filter);
    if s.len() > 0 {
        let dl = s.drop_last();
        lemma_filter_filter(dl, p, q, pq);
        if p(s.last()) {
            assert(s.filter(p) == dl.filter(p).push(s.last()));
            assert(s.filter(p).drop_last() =~= dl.filter(p));
        } else {
            assert(s.filter(p) == dl.filter(p));
        }
    }
}

impl<S: SchemaExt> TypedGraph<S> {
    /// Rebuild a store from an interchange record: construct an empty store
    /// with the schema, add every node, then add every edge in record order,
    /// reconstructing each node's outgoing order as a side effect of the add
    /// order.  A schema rejection or a duplicate logical id is a load-time
    /// error.
    #[verifier::rlimit(100)]
    pub fn from_interchange(data: GraphData<S>) -> (r: SchemaResult<TypedGraph<S>, S>)
        requires
            data.nodes@.len() <= crate::typed_graph::STORE_CAP,
            data.edges@.len() <= crate::typed_graph::STORE_CAP,
        ensures
            r matches Err(e) ==> (e matches TypedError::NodeIdCollision(a) ==> exists|
                ii: int,
                jj: int,
            |
                0 <= ii < jj < data.nodes@.len() && (#[trigger] data.nodes@[ii]).sid() == a && (
                #[trigger] data.nodes@[jj]).sid() == a),
            r matches Err(e) ==> (e matches TypedError::EdgeIdCollision(a) ==> exists|
                pp: int,
                qq: int,
            |
                0 <= pp < qq < data.edges@.len() && (#[trigger] data.edges@[pp]).weight.sid() == a
                    && (#[trigger] data.edges@[qq]).weight.sid() == a),
            r matches Ok(g) ==> {
                &&& g.wf()
                &&& g.spec_schema() == data.schema
                &&& forall|x: usize| #[trigger]
                    g.spec_has_node(x) ==> data_has_node(data.nodes@, x)
                &&& forall|x: usize| #[trigger]
                    g.spec_has_edge(x) ==> exists|p: int|
                        0 <= p < data.edges@.len() && (#[trigger] data.edges@[p]).weight.sid() == x
                            && g.edge_entry(x).weight == data.edges@[p].weight && g.edge_entry(
                            x,
                        ).source == data.edges@[p].source && g.edge_entry(x).target
                            == data.edges@[p].target
            },
            r matches Ok(g) ==> {
                &&& g.spec_nodes().map_values(|e: NodeEntry<S::N>| e.weight) == data.nodes@
                &&& forall|p: int|
                    0 <= p < data.edges@.len() ==> g.spec_has_edge(
                        (#[trigger] data.edges@[p]).weight.sid(),
                    ) && g.edge_entry(data.edges@[p].weight.sid())
                        == (crate::typed_graph::EdgeEntry {
                        weight: data.edges@[p].weight,
                        source: data.edges@[p].source,
                        target: data.edges@[p].target,
                    })
            },
            r is Ok ==> forall|ii: int, jj: int|
                0 <= ii < jj < data.nodes@.len() ==> (#[trigger] data.nodes@[ii]).sid() != (
                #[trigger] data.nodes@[jj]).sid(),
            r is Ok ==> forall|pp: int, qq: int|
                0 <= pp < qq < data.edges@.len() ==> (#[trigger] data.edges@[pp]).weight.sid() != (
                #[trigger] data.edges@[qq]).weight.sid(),
            dump_coherent(data.schema, data.nodes@, data.edges@) ==> r is Ok,
            r matches Ok(g) ==> (dump_coherent(data.schema, data.nodes@, data.edges@)
                ==> is_full_load_of(g, data)),
    {
        let ghost nodes_data = data.nodes@;
        let ghost edges_data = data.edges@;
        let ghost schema_v = data.schema;
        let ghost coh = dump_coherent(data.schema, data.nodes@, data.edges@);
        let GraphData { schema, nodes, edges } = data;
        let mut g = TypedGraph::<S>::new(schema);
        proof {
            assert(g.spec_nodes().map_values(|e: NodeEntry<S::N>| e.weight) =~= nodes_data.take(
                0,
            ));
        }
        let nn = nodes.len();
        let mut i: usize = 0;
        while i < nn
            invariant
                nodes_data == data.nodes@,
                edges_data == data.edges@,
                schema_v == data.schema,
                coh == dump_coherent(schema_v, nodes_data, edges_data),
                nn == nodes_data.len(),
                nodes@ == nodes_data,
                nodes_data.len() <= crate::typed_graph::STORE_CAP,
                i <= nn,
                g.wf(),
                g.spec_schema() == schema_v,
                g.spec_nodes().len() <= i,
                g.spec_edges().len() == 0,
                forall|x: usize| #[trigger]
                    g.spec_has_node(x) ==> exists|ii: int|
                        0 <= ii < i && (#[trigger] nodes_data[ii]).sid() == x,
                forall|ii: int| 0 <= ii < i ==> g.spec_has_node((#[trigger] nodes_data[ii]).sid()),
                forall|ii: int, jj: int|
                    0 <= ii < jj < i ==> (#[trigger] nodes_data[ii]).sid() != (
                    #[trigger] nodes_data[jj]).sid(),
                g.spec_nodes().map_values(|e: NodeEntry<S::N>| e.weight) == nodes_data.take(
                    i as int,
                ),
            decreases nn - i,
        {
            let ghost g0 = g;
            let w = nodes[i].dup();
            let nid = w.get_id();
            let ghost wv = w;
            if g.has_node(nid) {
                proof {
                    let ii = choose|ii: int|
                        0 <= ii < i && (#[trigger] nodes_data[ii]).sid() == nid;
                    assert(nodes_data[i as int].sid() == nid);
                    if coh {
                        assert(false);
                    }
                }
                return Err(TypedError::NodeIdCollision(nid));
            }
            proof {
                if coh {
                    assert(schema_v.node_allowed(wv.ty()));
                }
            }
            match g.add_node(w) {
                Ok(_) => {},
                Err(e) => {
                    proof {
                        if coh {
                            assert(false);
                        }
                        // a node add fails only on a schema rejection
                        assert(!(e matches TypedError::NodeIdCollision(_)) && !(
                        e matches TypedError::EdgeIdCollision(_)));
                    }
                    return Err(e);
                },
            }
            proof {
                assert(wv.sid() == nodes_data[i as int].sid());
                assert(TypedGraph::<S>::node_inserted(g0, g, wv));
                TypedGraph::<S>::lemma_node_push_lookup(g0, g, wv);
                assert forall|x: usize| #[trigger] g.spec_has_node(x) implies exists|ii: int|
                    0 <= ii < i + 1 && (#[trigger] nodes_data[ii]).sid() == x by {
                    if !g0.spec_has_node(x) {
                        assert(x == wv.sid());
                        assert(nodes_data[i as int].sid() == x);
                    }
                }
                assert forall|ii: int, jj: int| 0 <= ii < jj < i + 1 implies (
                #[trigger] nodes_data[ii]).sid() != (#[trigger] nodes_data[jj]).sid() by {
                    if jj == i as int {
                        assert(g0.spec_has_node(nodes_data[ii].sid()));
                    }
                }
                assert(wv == nodes_data[i as int]);
                assert(g0.spec_nodes().map_values(|e: NodeEntry<S::N>| e.weight)
                    == nodes_data.take(i as int));
                assert(g0.spec_nodes().map_values(|e: NodeEntry<S::N>| e.weight).len()
                    == g0.spec_nodes().len());
                assert(g0.spec_nodes().len() == i as int);
                assert(g.spec_nodes().len() == i + 1);
                assert forall|ii: int|
                    0 <= ii < i + 1 implies (#[trigger] g.spec_nodes()[ii]).weight
                    == nodes_data.take(i + 1)[ii] by {
                    if ii < i {
                        assert(g.spec_nodes()[ii] == g0.spec_nodes()[ii]);
                        assert(g0.spec_nodes().map_values(|e: NodeEntry<S::N>| e.weight)[ii]
                            == nodes_data.take(i as int)[ii]);
                    } else {
                        assert(g.spec_nodes()[ii].weight == wv);
                    }
                }
                assert(g.spec_nodes().map_values(|e: NodeEntry<S::N>| e.weight)
                    =~= nodes_data.take(i + 1));
            }
            i += 1;
        }
        proof {
            assert(nodes_data.take(nn as int) =~= nodes_data);
        }
        proof {
            if coh {
                // before any edge is added, every adjacency set is empty
                assert forall|x: usize| #[trigger] data_has_node(nodes_data, x) implies g.spec_has_node(
                    x,
                ) && g.node_entry(x).outgoing@ == data_edge_ids(
                    edges_from_source(edges_data.take(0), x),
                ) by {
                    TypedGraph::<S>::lemma_nodes_match_data(g, nodes_data);
                    g.lemma_node_idx(x);
                    if g.node_entry(x).outgoing@.len() > 0 {
                        assert(g.spec_has_edge(g.node_entry(x).outgoing@[0]));
                    }
                    assert(edges_data.take(0) =~= Seq::<EdgeData<S::E>>::empty());
                    lemma_edges_from_source_empty::<S::E>(x);
                    assert(data_edge_ids(edges_from_source(edges_data.take(0), x)) =~= Seq::<
                        usize,
                    >::empty());
                }
            }
        }
        let ne = edges.len();
        let mut k: usize = 0;
        while k < ne
            invariant
                nodes_data == data.nodes@,
                edges_data == data.edges@,
                schema_v == data.schema,
                coh == dump_coherent(schema_v, nodes_data, edges_data),
                ne == edges_data.len(),
                edges@ == edges_data,
                edges_data.len() <= crate::typed_graph::STORE_CAP,
                k <= ne,
                g.wf(),
                g.spec_schema() == schema_v,
                g.spec_edges().len() <= k,
                forall|x: usize| #[trigger] g.spec_has_node(x) ==> data_has_node(nodes_data, x),
                forall|x: usize| #[trigger]
                    g.spec_has_edge(x) ==> exists|p: int|
                        0 <= p < k && (#[trigger] edges_data[p]).weight.sid() == x && g.edge_entry(
                            x,
                        ).weight == edges_data[p].weight && g.edge_entry(x).source
                            == edges_data[p].source && g.edge_entry(x).target
                            == edges_data[p].target,
                forall|ii: int, jj: int|
                    0 <= ii < jj < data.nodes@.len() ==> (#[trigger] data.nodes@[ii]).sid() != (
                    #[trigger] data.nodes@[jj]).sid(),
                forall|pp: int|
                    0 <= pp < k ==> g.spec_has_edge((#[trigger] edges_data[pp]).weight.sid()),
                forall|pp: int, qq: int|
                    0 <= pp < qq < k ==> (#[trigger] edges_data[pp]).weight.sid() != (
                    #[trigger] edges_data[qq]).weight.sid(),
                g.spec_nodes().map_values(|e: NodeEntry<S::N>| e.weight) == nodes_data,
                forall|p: int|
                    0 <= p < k ==> g.spec_has_edge((#[trigger] edges_data[p]).weight.sid())
                        && g.edge_entry(edges_data[p].weight.sid())
                        == (crate::typed_graph::EdgeEntry {
                        weight: edges_data[p].weight,
                        source: edges_data[p].source,
                        target: edges_data[p].target,
                    }),
                coh ==> forall|x: usize| #[trigger]
                    data_has_node(nodes_data, x) ==> g.spec_has_node(x) && g.node_entry(
                        x,
                    ).outgoing@ == data_edge_ids(edges_from_source(edges_data.take(k as int), x)),
            decreases ne - k,
        {
            let ghost g0 = g;
            let w = edges[k].weight.dup();
            let src = edges[k].source;
            let tgt = edges[k].target;
            let eid = w.get_id();
            let ghost wv = w;
            if g.has_edge(eid) {
                proof {
                    let p = choose|p: int|
                        0 <= p < k && (#[trigger] edges_data[p]).weight.sid() == eid
                            && g0.edge_entry(eid).weight == edges_data[p].weight && g0.edge_entry(
                            eid,
                        ).source == edges_data[p].source && g0.edge_entry(eid).target
                            == edges_data[p].target;
                    assert(edges_data[k as int].weight.sid() == eid);
                    if coh {
                        assert(false);
                    }
                }
                return Err(TypedError::EdgeIdCollision(eid));
            }
            proof {
                if coh {
                    TypedGraph::<S>::lemma_nodes_match_data(g0, nodes_data);
                    let ek = edges_data[k as int];
                    assert(data_has_node(nodes_data, src) && data_has_node(nodes_data, tgt));
                    assert(g0.spec_has_node(src) && g0.spec_has_node(tgt));
                    let ety = wv.ty();
                    let ttyd = data_node_ty(nodes_data, tgt);
                    let styd = data_node_ty(nodes_data, src);
                    assert(g0.node_ty(tgt) == ttyd);
                    assert(g0.node_ty(src) == styd);
                    assert(schema_v.edge_type_allowed(ety, styd, ttyd));
                    // the freshly counted quantity in the store equals the
                    // class count over the records already replayed
                    let cls = edges_from_source(edges_data.take(k as int), src);
                    assert(g0.node_entry(src).outgoing@ == data_edge_ids(cls));
                    let f = |e: EdgeData<S::E>| e.weight.sid();
                    let pa = |eid: usize| g0.edge_matches(eid, ety, ttyd);
                    let pb = |e: EdgeData<S::E>|
                        e.weight.ty() == ety && data_node_ty(nodes_data, e.target) == ttyd;
                    lemma_edges_from_source_sub(edges_data.take(k as int), src);
                    assert forall|ii: int| 0 <= ii < cls.len() implies pa(f(#[trigger] cls[ii]))
                        == pb(cls[ii]) by {
                        let e = cls[ii];
                        assert(cls.contains(e));
                        assert(edges_data.take(k as int).contains(e));
                        let p = choose|p: int|
                            0 <= p < k && #[trigger] edges_data.take(k as int)[p] == e;
                        assert(edges_data[p] == e);
                        assert(g0.spec_has_edge(e.weight.sid()));
                        assert(g0.edge_entry(e.weight.sid()) == (crate::typed_graph::EdgeEntry {
                            weight: e.weight,
                            source: e.source,
                            target: e.target,
                        }));
                        assert(data_has_node(nodes_data, e.target));
                        assert(g0.node_ty(e.target) == data_node_ty(nodes_data, e.target));
                    }
                    lemma_filter_map_len(cls, f, pa, pb);
                    assert(g0.spec_count_matching(src, ety, ttyd) == cls.filter(pb).len()) by {
                        g0.lemma_node_idx(src);
                        assert(data_edge_ids(cls) == cls.map_values(f));
                    }
                    let psrc = |e: EdgeData<S::E>| e.source == src;
                    let pcls = |e: EdgeData<S::E>|
                        e.source == src && e.weight.ty() == ety && data_node_ty(
                            nodes_data,
                            e.target,
                        ) == ttyd;
                    assert(forall|x: EdgeData<S::E>| #[trigger] pcls(x) == (psrc(x) && pb(x)));
                    lemma_filter_filter(edges_data.take(k as int), psrc, pb, pcls);
                    assert(cls.filter(pb).len() == data_class(
                        nodes_data,
                        edges_data.take(k as int),
                        src,
                        ety,
                        ttyd,
                    ).len());
                    assert(schema_v.edge_quantity_allowed(
                        data_class(nodes_data, edges_data.take(k as int), src, ety, ttyd).len()
                            + 1,
                        ety,
                        styd,
                        ttyd,
                    ));
                    assert(schema_v.edge_quantity_allowed(
                        g0.spec_count_matching(src, ety, ttyd) + 1,
                        ety,
                        g0.node_ty(src),
                        g0.node_ty(tgt),
                    ));
                }
            }
            match g.add_edge(src, tgt, w) {
                Ok(_) => {},
                Err(e) => {
                    proof {
                        if coh {
                            assert(false);
                        }
                        // an edge add fails only on a missing endpoint or a
                        // schema rejection
                        assert(!(e matches TypedError::NodeIdCollision(_)) && !(
                        e matches TypedError::EdgeIdCollision(_)));
                    }
                    return Err(e);
                },
            }
            proof {
                assert(TypedGraph::<S>::add_edge_inserted(g0, g, src, tgt, wv));
                TypedGraph::<S>::lemma_edge_push_lookup(
                    g0,
                    g,
                    crate::typed_graph::EdgeEntry { weight: wv, source: src, target: tgt },
                );
                TypedGraph::<S>::lemma_node_lookup_preserved(g0, g);
                assert forall|x: usize| #[trigger] g.spec_has_edge(x) implies exists|p: int|
                    0 <= p < k + 1 && (#[trigger] edges_data[p]).weight.sid() == x && g.edge_entry(
                        x,
                    ).weight == edges_data[p].weight && g.edge_entry(x).source
                        == edges_data[p].source && g.edge_entry(x).target
                        == edges_data[p].target by {
                    if x == wv.sid() {
                        assert(edges_data[k as int].weight.sid() == x);
                        assert(g.edge_entry(x).weight == edges_data[k as int].weight);
                    } else {
                        assert(g0.spec_has_edge(x));
                        g0.lemma_edge_idx(x);
                        assert(g.edge_entry(x) == g0.edge_entry(x));
                        let p = choose|p: int|
                            0 <= p < k && (#[trigger] edges_data[p]).weight.sid() == x
                                && g0.edge_entry(x).weight == edges_data[p].weight
                                && g0.edge_entry(x).source == edges_data[p].source
                                && g0.edge_entry(x).target == edges_data[p].target;
                        assert(edges_data[p].weight.sid() == x);
                    }
                }
            }
            proof {
                if coh {
                    assert(TypedGraph::<S>::add_edge_inserted(g0, g, src, tgt, wv));
                    // node weights are untouched
                    assert(g.spec_nodes().map_values(|e: NodeEntry<S::N>| e.weight)
                        =~= nodes_data);
                    // every record replayed so far is present with its entry
                    assert forall|p: int| 0 <= p < k + 1 implies g.spec_has_edge(
                        (#[trigger] edges_data[p]).weight.sid(),
                    ) && g.edge_entry(edges_data[p].weight.sid())
                        == (crate::typed_graph::EdgeEntry {
                        weight: edges_data[p].weight,
                        source: edges_data[p].source,
                        target: edges_data[p].target,
                    }) by {
                        if p < k {
                            assert(edges_data[p].weight.sid() != wv.sid());
                        }
                    }
                    // outgoing orders follow the replayed source groups
                    TypedGraph::<S>::lemma_nodes_match_data(g0, nodes_data);
                    assert forall|x: usize| #[trigger] data_has_node(nodes_data, x) implies g.spec_has_node(
                        x,
                    ) && g.node_entry(x).outgoing@ == data_edge_ids(
                        edges_from_source(edges_data.take(k + 1), x),
                    ) by {
                        g0.lemma_node_idx(x);
                        g.lemma_node_idx(x);
                        let ek = edges_data[k as int];
                        assert(edges_data.take(k + 1) =~= edges_data.take(k as int).push(ek));
                        lemma_edges_from_source_push(edges_data.take(k as int), ek, x);
                        if x == src {
                            assert(g.node_entry(x).outgoing@ == g0.node_entry(
                                x,
                            ).outgoing@.push(wv.sid()));
                            assert(edges_from_source(edges_data.take(k + 1), x)
                                == edges_from_source(edges_data.take(k as int), x).push(ek));
                            assert(data_edge_ids(edges_from_source(edges_data.take(k + 1), x))
                                =~= data_edge_ids(
                                edges_from_source(edges_data.take(k as int), x),
                            ).push(ek.weight.sid()));
                        } else {
                            assert(g0.node_idx(x) != g0.node_idx(src));
                            assert(g.node_entry(x).outgoing@ == g0.node_entry(x).outgoing@);
                            assert(edges_from_source(edges_data.take(k + 1), x)
                                == edges_from_source(edges_data.take(k as int), x));
                        }
                    }
                }
            }
            k += 1;
        }
        proof {
            if coh {
                assert(edges_data.take(ne as int) =~= edges_data);
            }
        }
        Ok(g)
    }

    /// The interchange record of a well-formed, quantity-valid store is
    /// coherent: `from_interchange` is owed success on it.
    pub proof fn lemma_interchange_coherent(g0: Self, data: GraphData<S>)
        requires
            g0.wf(),
            g0.quantity_valid(),
            is_interchange_of(data, g0),
        ensures
            dump_coherent(data.schema, data.nodes@, data.edges@),
    {
        broadcast use vstd::seq_lib::group_seq_lib_default;

        let nodes_data = data.nodes@;
        let edges_data = data.edges@;
        Self::lemma_nodes_match_data(g0, nodes_data);
        assert forall|ii: int| 0 <= ii < nodes_data.len() implies #[trigger] nodes_data[ii]
            == g0.spec_nodes()[ii].weight by {
            assert(g0.spec_nodes().map_values(|e: NodeEntry<S::N>| e.weight)[ii]
                == nodes_data[ii]);
        }
        assert forall|i: int| 0 <= i < nodes_data.len() implies data.schema.node_allowed(
            (#[trigger] nodes_data[i]).ty(),
        ) by {
            assert(g0.spec_schema().node_allowed(g0.spec_nodes()[i].weight.ty()));
        }
        assert forall|p: int| 0 <= p < edges_data.len() implies data_has_node(
            nodes_data,
            (#[trigger] edges_data[p]).source,
        ) && data_has_node(nodes_data, edges_data[p].target) by {
            let x = edges_data[p].weight.sid();
            assert(g0.spec_has_edge(x));
            g0.lemma_edge_idx(x);
            let j = g0.edge_idx(x);
            assert(g0.spec_has_node((#[trigger] g0.spec_edges()[j]).source));
            assert(g0.spec_has_node(g0.spec_edges()[j].target));
        }
        assert forall|p: int| 0 <= p < edges_data.len() implies data.schema.edge_type_allowed(
            (#[trigger] edges_data[p]).weight.ty(),
            data_node_ty(nodes_data, edges_data[p].source),
            data_node_ty(nodes_data, edges_data[p].target),
        ) by {
            let x = edges_data[p].weight.sid();
            g0.lemma_edge_idx(x);
            let j = g0.edge_idx(x);
            assert(g0.spec_schema().edge_type_allowed(
                (#[trigger] g0.spec_edges()[j]).weight.ty(),
                g0.node_ty(g0.spec_edges()[j].source),
                g0.node_ty(g0.spec_edges()[j].target),
            ));
            assert(g0.node_ty(edges_data[p].source) == data_node_ty(
                nodes_data,
                edges_data[p].source,
            ));
            assert(g0.node_ty(edges_data[p].target) == data_node_ty(
                nodes_data,
                edges_data[p].target,
            ));
        }
        assert forall|p: int| 0 <= p < edges_data.len() implies data.schema.edge_quantity_allowed(
            data_class(
                nodes_data,
                edges_data.take(p),
                (#[trigger] edges_data[p]).source,
                edges_data[p].weight.ty(),
                data_node_ty(nodes_data, edges_data[p].target),
            ).len() + 1,
            edges_data[p].weight.ty(),
            data_node_ty(nodes_data, edges_data[p].source),
            data_node_ty(nodes_data, edges_data[p].target),
        ) by {
            let ep = edges_data[p];
            let x = ep.weight.sid();
            let src = ep.source;
            let ety = ep.weight.ty();
            let ttyd = data_node_ty(nodes_data, ep.target);
            let styd = data_node_ty(nodes_data, ep.source);
            g0.lemma_edge_idx(x);
            let j = g0.edge_idx(x);
            assert(g0.spec_has_node((#[trigger] g0.spec_edges()[j]).source));
            assert(g0.spec_has_node(g0.spec_edges()[j].target));
            assert(data_has_node(nodes_data, src));
            assert(data_has_node(nodes_data, ep.target));
            assert(g0.node_ty(ep.target) == ttyd);
            assert(g0.node_ty(src) == styd);
            // the store's freshly counted quantity equals the full class count
            let cls = edges_from_source(edges_data, src);
            assert(data_edge_ids(cls) == g0.node_entry(src).outgoing@);
            let f = |e: EdgeData<S::E>| e.weight.sid();
            let pa = |eid: usize| g0.edge_matches(eid, ety, ttyd);
            let pb = |e: EdgeData<S::E>|
                e.weight.ty() == ety && data_node_ty(nodes_data, e.target) == ttyd;
            lemma_edges_from_source_sub(edges_data, src);
            assert forall|ii: int| 0 <= ii < cls.len() implies pa(f(#[trigger] cls[ii])) == pb(
                cls[ii],
            ) by {
                let e = cls[ii];
                assert(cls.contains(e));
                assert(edges_data.contains(e));
                let q = choose|q: int| 0 <= q < edges_data.len() && #[trigger] edges_data[q] == e;
                assert(g0.spec_has_edge(e.weight.sid()));
                g0.lemma_edge_idx(e.weight.sid());
                assert(g0.edge_entry(e.weight.sid()).weight == e.weight);
                assert(g0.edge_entry(e.weight.sid()).target == e.target);
                assert(g0.spec_has_node(
                    (#[trigger] g0.spec_edges()[g0.edge_idx(e.weight.sid())]).target,
                ));
                assert(data_has_node(nodes_data, e.target));
                assert(g0.node_ty(e.target) == data_node_ty(nodes_data, e.target));
            }
            lemma_filter_map_len(cls, f, pa, pb);
            assert(g0.spec_count_matching(src, ety, ttyd) == cls.filter(pb).len()) by {
                g0.lemma_node_idx(src);
                assert(data_edge_ids(cls) == cls.map_values(f));
            }
            let psrc = |e: EdgeData<S::E>| e.source == src;
            let pcls = |e: EdgeData<S::E>|
                e.source == src && e.weight.ty() == ety && data_node_ty(nodes_data, e.target)
                    == ttyd;
            assert(forall|y: EdgeData<S::E>| #[trigger] pcls(y) == (psrc(y) && pb(y)));
            lemma_filter_filter(edges_data, psrc, pb, pcls);
            assert(cls.filter(pb) == data_class(nodes_data, edges_data, src, ety, ttyd));
            // the record itself sits past its class prefix
            assert(edges_data.take(p + 1) =~= edges_data.take(p).push(ep));
            lemma_data_class_push(nodes_data, edges_data.take(p), ep, src, ety, ttyd);
            assert(data_class(nodes_data, edges_data.take(p + 1), src, ety, ttyd)
                == data_class(nodes_data, edges_data.take(p), src, ety, ttyd).push(ep));
            assert(edges_data =~= edges_data.take(p + 1) + edges_data.skip(p + 1));
            assert(data_class(nodes_data, edges_data, src, ety, ttyd) == data_class(
                nodes_data,
                edges_data.take(p + 1),
                src,
                ety,
                ttyd,
            ) + data_class(nodes_data, edges_data.skip(p + 1), src, ety, ttyd));
            let full = data_class(nodes_data, edges_data, src, ety, ttyd).len();
            let prefix = data_class(nodes_data, edges_data.take(p), src, ety, ttyd).len();
            assert(prefix + 1 <= full);
            // the full count was admitted; smaller counts stay admitted
            assert(g0.spec_schema().edge_quantity_allowed(
                g0.spec_count_matching(src, ety, g0.node_ty(g0.spec_edges()[j].target)),
                g0.spec_edges()[j].weight.ty(),
                g0.node_ty(g0.spec_edges()[j].source),
                g0.node_ty(g0.spec_edges()[j].target),
            ));
            assert(data.schema.edge_quantity_allowed(full as nat, ety, styd, ttyd));
            data.schema.quantity_antitone((prefix + 1) as nat, full as nat, ety, styd, ttyd);
        }
    }

    /// Loading the interchange record back yields a store with the same live
    /// ids, the same per-entity types, the same edge endpoints, and the same
    /// outgoing order per node as the store the record came from.
    pub proof fn lemma_load_round_trip(g0: Self, data: GraphData<S>, g1: Self)
        requires
            g0.wf(),
            is_interchange_of(data, g0),
            is_full_load_of(g1, data),
        ensures
            Self::spec_same_graph(g0, g1),
    {
        broadcast use vstd::seq_lib::seq_to_set_is_finite;

        let nodes_data = data.nodes@;
        let edges_data = data.edges@;
        Self::lemma_nodes_match_data(g0, nodes_data);
        Self::lemma_nodes_match_data(g1, nodes_data);
        assert(g0.spec_nodes().len() == nodes_data.len());
        assert(g1.spec_nodes().len() == nodes_data.len());
        assert forall|x: usize| #[trigger] g0.spec_has_node(x) <==> g1.spec_has_node(x) by {
            if g0.spec_has_node(x) {
                assert(data_has_node(nodes_data, x));
            }
            if g1.spec_has_node(x) {
                assert(data_has_node(nodes_data, x));
            }
        }
        assert forall|x: usize| g0.spec_has_node(x) implies #[trigger] g0.node_ty(x) == g1.node_ty(
            x,
        ) by {
            assert(data_has_node(nodes_data, x));
        }
        assert forall|x: usize| g0.spec_has_node(x) implies #[trigger] g0.node_entry(x).outgoing@
            == g1.node_entry(x).outgoing@ by {
            assert(data_has_node(nodes_data, x));
            assert(data_edge_ids(edges_from_source(edges_data, x)) == g0.node_entry(x).outgoing@);
            assert(g1.node_entry(x).outgoing@ == data_edge_ids(edges_from_source(edges_data, x)));
        }
        assert forall|x: usize| #[trigger] g0.spec_has_edge(x) <==> g1.spec_has_edge(x) by {
            if g0.spec_has_edge(x) {
                let p = choose|p: int|
                    0 <= p < edges_data.len() && (#[trigger] edges_data[p]).weight.sid() == x;
                assert(g1.spec_has_edge(edges_data[p].weight.sid()));
            }
            if g1.spec_has_edge(x) {
                let p = choose|p: int|
                    0 <= p < edges_data.len() && (#[trigger] edges_data[p]).weight.sid() == x;
                assert(g0.spec_has_edge(edges_data[p].weight.sid()));
            }
        }
        assert forall|x: usize| g0.spec_has_edge(x) implies #[trigger] g0.edge_entry(x).weight.ty()
            == g1.edge_entry(x).weight.ty() && g0.edge_entry(x).source == g1.edge_entry(x).source
            && g0.edge_entry(x).target == g1.edge_entry(x).target by {
            let p = choose|p: int|
                0 <= p < edges_data.len() && (#[trigger] edges_data[p]).weight.sid() == x;
            assert(edges_data[p].weight == g0.edge_entry(x).weight);
            assert(g1.edge_entry(edges_data[p].weight.sid()) == (crate::typed_graph::EdgeEntry {
                weight: edges_data[p].weight,
                source: edges_data[p].source,
                target: edges_data[p].target,
            }));
        }
        // equal edge counts: the live id sets coincide and both stores carry
        // pairwise distinct ids
        let s0 = g0.spec_edges().map_values(|e: crate::typed_graph::EdgeEntry<S::E>| e.weight.sid());
        let s1 = g1.spec_edges().map_values(|e: crate::typed_graph::EdgeEntry<S::E>| e.weight.sid());
        assert(s0.no_duplicates());
        assert(s1.no_duplicates());
        s0.unique_seq_to_set();
        s1.unique_seq_to_set();
        assert forall|x: usize| s0.to_set().contains(x) implies s1.to_set().contains(x) by {
            let i = choose|i: int| 0 <= i < s0.len() && s0[i] == x;
            assert(g0.spec_edges()[i].weight.sid() == x);
            assert(g0.spec_has_edge(x));
            assert(g1.spec_has_edge(x));
            let jj = choose|jj: int|
                0 <= jj < g1.spec_edges().len() && (#[trigger] g1.spec_edges()[jj]).weight.sid()
                    == x;
            assert(s1[jj] == x);
        }
        assert forall|x: usize| s1.to_set().contains(x) implies s0.to_set().contains(x) by {
            let i = choose|i: int| 0 <= i < s1.len() && s1[i] == x;
            assert(g1.spec_edges()[i].weight.sid() == x);
            assert(g1.spec_has_edge(x));
            assert(g0.spec_has_edge(x));
            let jj = choose|jj: int|
                0 <= jj < g0.spec_edges().len() && (#[trigger] g0.spec_edges()[jj]).weight.sid()
                    == x;
            assert(s0[jj] == x);
        }
        assert(s0.to_set() =~= s1.to_set());
        assert(g0.spec_edges().len() == g1.spec_edges().len());
    }

    /// The round-trip law: serializing a well-formed, quantity-valid store
    /// yields a coherent record -- `from_interchange` is owed success on it
    /// -- and the store loaded back is observably equal to the original:
    /// equal node and edge counts, equal per-entity types, equal per-edge
    /// endpoints, and equal outgoing order per node.
    pub proof fn lemma_round_trip(g0: Self, data: GraphData<S>, g1: Self)
        requires
            g0.wf(),
            g0.quantity_valid(),
            is_interchange_of(data, g0),
            is_full_load_of(g1, data),
        ensures
            dump_coherent(data.schema, data.nodes@, data.edges@),
            Self::spec_same_graph(g0, g1),
    {
        Self::lemma_interchange_coherent(g0, data);
        Self::lemma_load_round_trip(g0, data, g1);
    }

    /// A store whose node weights read back the record list resolves ids the
    /// way the record list does.
    proof fn lemma_nodes_match_data(g: Self, nodes_data: Seq<S::N>)
        requires
            g.nodes_distinct(),
            g.spec_nodes().map_values(|e: NodeEntry<S::N>| e.weight) == nodes_data,
        ensures
            forall|x: usize| #[trigger] data_has_node(nodes_data, x) <==> g.spec_has_node(x),
            forall|x: usize|
                data_has_node(nodes_data, x) ==> #[trigger] g.node_ty(x) == data_node_ty(
                    nodes_data,
                    x,
                ),
    {
        assert(nodes_data.len() == g.spec_nodes().len());
        assert forall|ii: int| 0 <= ii < nodes_data.len() implies (
        #[trigger] g.spec_nodes()[ii]).weight == nodes_data[ii] by {
            assert(g.spec_nodes().map_values(|e: NodeEntry<S::N>| e.weight)[ii]
                == nodes_data[ii]);
        }
        assert forall|x: usize| #[trigger] data_has_node(nodes_data, x) <==> g.spec_has_node(
            x,
        ) by {
            if data_has_node(nodes_data, x) {
                let ii = choose|ii: int|
                    0 <= ii < nodes_data.len() && (#[trigger] nodes_data[ii]).sid() == x;
                assert(g.spec_nodes()[ii].weight.sid() == x);
            }
            if g.spec_has_node(x) {
                let ii = choose|ii: int|
                    0 <= ii < g.spec_nodes().len() && (#[trigger] g.spec_nodes()[ii]).weight.sid()
                        == x;
                assert(nodes_data[ii].sid() == x);
            }
        }
        assert forall|x: usize| data_has_node(nodes_data, x) implies #[trigger] g.node_ty(x)
            == data_node_ty(nodes_data, x) by {
            g.lemma_node_idx(x);
            let gp = g.node_idx(x);
            let dp = data_node_pos(nodes_data, x);
            assert(0 <= dp < nodes_data.len() && nodes_data[dp].sid() == x);
            assert(g.spec_nodes()[dp].weight.sid() == x);
            assert(gp == dp);
        }
    }
}

/// Members of a source group are members of the whole record list.
pub proof fn lemma_edges_from_source_sub<E>(s: Seq<EdgeData<E>>, src: usize)
    ensures
        forall|e: EdgeData<E>| #[trigger]
            edges_from_source(s, src).contains(e) ==> s.contains(e),
    decreases s.len(),
{
    reveal(Seq::filter);
    if s.len() == 0 {
    } else {
        let dl = s.drop_last();
        lemma_edges_from_source_sub(dl, src);
        assert(s =~= dl.push(s.last()));
        lemma_edges_from_source_push(dl, s.last(), src);
        assert forall|e: EdgeData<E>| #[trigger]
            edges_from_source(s, src).contains(e) implies s.contains(e) by {
            if s.last().source == src {
                assert(edges_from_source(s, src) == edges_from_source(dl, src).push(s.last()));
                if e != s.last() {
                    let q = choose|q: int|
                        0 <= q < edges_from_source(s, src).len() && edges_from_source(s, src)[q]
                            == e;
                    if q < edges_from_source(dl, src).len() {
                        assert(edges_from_source(dl, src).contains(e));
                        assert(dl.contains(e));
                        let w = choose|w: int| 0 <= w < dl.len() && dl[w] == e;
                        assert(s[w] == e);
                    } else {
                        assert(e == s.last());
                    }
                } else {
                    assert(s[s.len() - 1] == e);
                }
            } else {
                assert(edges_from_source(s, src) == edges_from_source(dl, src));
                assert(dl.contains(e));
                let w = choose|w: int| 0 <= w < dl.len() && dl[w] == e;
                assert(s[w] == e);
            }
        }
    }
}

} // verus!
