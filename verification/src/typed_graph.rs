//! The schema-validated graph store.

use vstd::prelude::*;

use crate::edge_ref::EdgeRef;
use crate::graph_traits::{Downcast, DisAllowedEdge, DisAllowedNode, Dup, EdgeExt, Id, NodeExt, SchemaExt, TypeIdentifier, Typed};
use crate::typed_error::{SchemaError, SchemaResult, TypedError};

verus! {

/// Upper bound on the number of stored nodes or edges.  A `Vec` of records
/// of at least one byte each can never exceed `isize::MAX` entries on this
/// target, so the bound only states a machine limit.
pub const STORE_CAP: usize = usize::MAX / 2;

/// Direction of an edge relative to the node it was queried from.
#[derive(Clone, Copy, Debug, PartialEq, Eq, Structural)]
pub enum Direction {
    Outgoing,
    Incoming,
}

/// Where to place an edge relative to its reorder target.
#[derive(Clone, Copy, Debug, PartialEq, Eq, Structural)]
pub enum InsertPosition {
    Before,
    After,
}

/// A stored node: its weight and its adjacency sets.  The sets hold logical
/// edge ids; the outgoing order is authoritative, the incoming order is not.
#[derive(Clone)]
pub struct NodeEntry<N> {
    pub weight: N,
    pub incoming: Vec<usize>,
    pub outgoing: Vec<usize>,
}

/// A stored edge: its weight and the logical ids of its endpoints.
#[derive(Clone)]
pub struct EdgeEntry<E> {
    pub weight: E,
    pub source: usize,
    pub target: usize,
}

/// A mutable directed multigraph whose every mutation is validated by the
/// schema `S` before it is committed.
#[derive(Clone)]
pub struct TypedGraph<S: SchemaExt> {
    nodes: Vec<NodeEntry<S::N>>,
    edges: Vec<EdgeEntry<S::E>>,
    schema: S,
}

impl<S: SchemaExt> TypedGraph<S> {
    /// The stored nodes, in storage order.
    pub closed spec fn spec_nodes(self) -> Seq<NodeEntry<S::N>> {
        self.nodes@
    }

    /// The stored edges, in storage order.
    pub closed spec fn spec_edges(self) -> Seq<EdgeEntry<S::E>> {
        self.edges@
    }

    /// The active schema.
    pub closed spec fn spec_schema(self) -> S {
        self.schema
    }

    /// Whether a live node carries the given logical id.
    pub open spec fn spec_has_node(self, node_id: usize) -> bool {
        exists|i: int|
            0 <= i < self.spec_nodes().len() && (#[trigger] self.spec_nodes()[i]).weight.sid()
                == node_id
    }

    /// Whether a live edge carries the given logical id.
    pub open spec fn spec_has_edge(self, edge_id: usize) -> bool {
        exists|i: int|
            0 <= i < self.spec_edges().len() && (#[trigger] self.spec_edges()[i]).weight.sid()
                == edge_id
    }

    /// Storage index of the node with the given id; meaningful only when
    /// `spec_has_node` holds (ids are unique in a well-formed store).
    pub open spec fn node_idx(self, node_id: usize) -> int {
        choose|i: int|
            0 <= i < self.spec_nodes().len() && (#[trigger] self.spec_nodes()[i]).weight.sid()
                == node_id
    }

    /// Storage index of the edge with the given id; meaningful only when
    /// `spec_has_edge` holds.
    pub open spec fn edge_idx(self, edge_id: usize) -> int {
        choose|i: int|
            0 <= i < self.spec_edges().len() && (#[trigger] self.spec_edges()[i]).weight.sid()
                == edge_id
    }

    /// The stored node with the given id.
    pub open spec fn node_entry(self, node_id: usize) -> NodeEntry<S::N> {
        self.spec_nodes()[self.node_idx(node_id)]
    }

    /// The stored edge with the given id.
    pub open spec fn edge_entry(self, edge_id: usize) -> EdgeEntry<S::E> {
        self.spec_edges()[self.edge_idx(edge_id)]
    }

    /// The type tag of the node with the given id.
    pub open spec fn node_ty(self, node_id: usize) -> <S::N as Typed>::Type {
        self.node_entry(node_id).weight.ty()
    }

    /// No two live nodes share a logical id.
    pub open spec fn nodes_distinct(self) -> bool {
        forall|i: int, j: int|
            0 <= i < j < self.spec_nodes().len() ==> (#[trigger] self.spec_nodes()[i]).weight.sid()
                != (#[trigger] self.spec_nodes()[j]).weight.sid()
    }

    /// No two live edges share a logical id.
    pub open spec fn edges_distinct(self) -> bool {
        forall|i: int, j: int|
            0 <= i < j < self.spec_edges().len() ==> (#[trigger] self.spec_edges()[i]).weight.sid()
                != (#[trigger] self.spec_edges()[j]).weight.sid()
    }

    /// Every edge's endpoints are live nodes.
    pub open spec fn edges_linked(self) -> bool {
        forall|j: int|
            0 <= j < self.spec_edges().len() ==> self.spec_has_node(
                (#[trigger] self.spec_edges()[j]).source,
            ) && self.spec_has_node(self.spec_edges()[j].target)
    }

    /// Every adjacency entry refers to a live edge whose direction-correct
    /// endpoint is the owning node.
    pub open spec fn adjacency_sound(self) -> bool {
        (forall|i: int, k: int|
            0 <= i < self.spec_nodes().len() && 0 <= k < self.spec_nodes()[i].outgoing@.len()
                ==> self.spec_has_edge(#[trigger] self.spec_nodes()[i].outgoing@[k])
                && self.edge_entry(self.spec_nodes()[i].outgoing@[k]).source
                == self.spec_nodes()[i].weight.sid()) && (forall|i: int, k: int|
            0 <= i < self.spec_nodes().len() && 0 <= k < self.spec_nodes()[i].incoming@.len()
                ==> self.spec_has_edge(#[trigger] self.spec_nodes()[i].incoming@[k])
                && self.edge_entry(self.spec_nodes()[i].incoming@[k]).target
                == self.spec_nodes()[i].weight.sid())
    }

    /// No adjacency set mentions the same edge twice.
    pub open spec fn adjacency_distinct(self) -> bool {
        forall|i: int|
            0 <= i < self.spec_nodes().len() ==> (#[trigger] self.spec_nodes()[i]).outgoing@.no_duplicates()
                && self.spec_nodes()[i].incoming@.no_duplicates()
    }

    /// Every live edge is registered in its source's outgoing set and in its
    /// target's incoming set.
    pub open spec fn adjacency_complete(self) -> bool {
        forall|j: int|
            0 <= j < self.spec_edges().len() ==> self.node_entry(
                (#[trigger] self.spec_edges()[j]).source,
            ).outgoing@.contains(self.spec_edges()[j].weight.sid()) && self.node_entry(
                self.spec_edges()[j].target,
            ).incoming@.contains(self.spec_edges()[j].weight.sid())
    }

    /// Every stored node and edge type is (type-wise) accepted by the schema.
    pub open spec fn types_valid(self) -> bool {
        (forall|i: int|
            0 <= i < self.spec_nodes().len() ==> self.spec_schema().node_allowed(
                (#[trigger] self.spec_nodes()[i]).weight.ty(),
            )) && (forall|j: int|
            0 <= j < self.spec_edges().len() ==> self.spec_schema().edge_type_allowed(
                (#[trigger] self.spec_edges()[j]).weight.ty(),
                self.node_ty(self.spec_edges()[j].source),
                self.node_ty(self.spec_edges()[j].target),
            ))
    }

    /// Whether every stored edge's freshly counted quantity is within the
    /// schema's ceiling.  Mutations through `add_edge` establish this; a type
    /// change through `add_node` revalidates with a fresh count and can keep
    /// it, but its count is taken per incident edge, so the property is
    /// stated separately from well-formedness.
    pub open spec fn quantity_valid(self) -> bool {
        forall|j: int|
            0 <= j < self.spec_edges().len() ==> self.spec_schema().edge_quantity_allowed(
                self.spec_count_matching(
                    (#[trigger] self.spec_edges()[j]).source,
                    self.spec_edges()[j].weight.ty(),
                    self.node_ty(self.spec_edges()[j].target),
                ),
                self.spec_edges()[j].weight.ty(),
                self.node_ty(self.spec_edges()[j].source),
                self.node_ty(self.spec_edges()[j].target),
            )
    }

    /// Machine-limit bound on the storage sizes.
    pub open spec fn sizes_ok(self) -> bool {
        self.spec_nodes().len() <= STORE_CAP && self.spec_edges().len() <= STORE_CAP
    }

    /// Well-formedness: the conjunction of every structural invariant.  Holds
    /// before and after every public operation.
    pub open spec fn wf(self) -> bool {
        &&& self.nodes_distinct()
        &&& self.edges_distinct()
        &&& self.edges_linked()
        &&& self.adjacency_sound()
        &&& self.adjacency_distinct()
        &&& self.adjacency_complete()
        &&& self.types_valid()
        &&& self.sizes_ok()
    }

    /// In a well-formed store the chosen node index is the unique one.
    pub proof fn lemma_node_idx(self, node_id: usize)
        requires
            self.nodes_distinct(),
            self.spec_has_node(node_id),
        ensures
            0 <= self.node_idx(node_id) < self.spec_nodes().len(),
            self.node_entry(node_id).weight.sid() == node_id,
            forall|i: int|
                0 <= i < self.spec_nodes().len() && (#[trigger] self.spec_nodes()[i]).weight.sid()
                    == node_id ==> i == self.node_idx(node_id),
    {
        let w = choose|i: int|
            0 <= i < self.spec_nodes().len() && (#[trigger] self.spec_nodes()[i]).weight.sid()
                == node_id;
        assert(0 <= w < self.spec_nodes().len() && self.spec_nodes()[w].weight.sid() == node_id);
        assert forall|i: int|
            0 <= i < self.spec_nodes().len() && (#[trigger] self.spec_nodes()[i]).weight.sid()
                == node_id implies i == self.node_idx(node_id) by {
            let x = self.node_idx(node_id);
            if i < x {
                assert(self.spec_nodes()[i].weight.sid() != self.spec_nodes()[x].weight.sid());
            } else if x < i {
                assert(self.spec_nodes()[x].weight.sid() != self.spec_nodes()[i].weight.sid());
            }
        }
    }

    /// In a well-formed store the chosen edge index is the unique one.
    pub proof fn lemma_edge_idx(self, edge_id: usize)
        requires
            self.edges_distinct(),
            self.spec_has_edge(edge_id),
        ensures
            0 <= self.edge_idx(edge_id) < self.spec_edges().len(),
            self.edge_entry(edge_id).weight.sid() == edge_id,
            forall|i: int|
                0 <= i < self.spec_edges().len() && (#[trigger] self.spec_edges()[i]).weight.sid()
                    == edge_id ==> i == self.edge_idx(edge_id),
    {
        let w = choose|i: int|
            0 <= i < self.spec_edges().len() && (#[trigger] self.spec_edges()[i]).weight.sid()
                == edge_id;
        assert(0 <= w < self.spec_edges().len() && self.spec_edges()[w].weight.sid() == edge_id);
        assert forall|i: int|
            0 <= i < self.spec_edges().len() && (#[trigger] self.spec_edges()[i]).weight.sid()
                == edge_id implies i == self.edge_idx(edge_id) by {
            let x = self.edge_idx(edge_id);
            if i < x {
                assert(self.spec_edges()[i].weight.sid() != self.spec_edges()[x].weight.sid());
            } else if x < i {
                assert(self.spec_edges()[x].weight.sid() != self.spec_edges()[i].weight.sid());
            }
        }
    }

    /// Whether the live edge `eid` has the given edge type and a target node
    /// of the given type.
    pub open spec fn edge_matches(
        self,
        eid: usize,
        edge_ty: <S::E as Typed>::Type,
        target_ty: <S::N as Typed>::Type,
    ) -> bool {
        self.edge_entry(eid).weight.ty() == edge_ty && self.node_ty(self.edge_entry(eid).target)
            == target_ty
    }

    /// How many outgoing edges of the node stored at index `i` carry the given
    /// edge type and point at a node of the given type.
    pub open spec fn spec_count_at(
        self,
        i: int,
        edge_ty: <S::E as Typed>::Type,
        target_ty: <S::N as Typed>::Type,
    ) -> nat {
        self.spec_nodes()[i].outgoing@.filter(
            |eid: usize| self.edge_matches(eid, edge_ty, target_ty),
        ).len()
    }

    /// How many outgoing edges of the node with id `source_id` carry the given
    /// edge type and point at a node of the given type.
    pub open spec fn spec_count_matching(
        self,
        source_id: usize,
        edge_ty: <S::E as Typed>::Type,
        target_ty: <S::N as Typed>::Type,
    ) -> nat {
        self.spec_count_at(self.node_idx(source_id), edge_ty, target_ty)
    }

    /// An adjacency set never outgrows the edge store: its entries are
    /// pairwise distinct ids of live edges.
    pub proof fn lemma_adjacency_bounded(self, i: int)
        requires
            self.edges_distinct(),
            self.adjacency_sound(),
            self.adjacency_distinct(),
            0 <= i < self.spec_nodes().len(),
        ensures
            self.spec_nodes()[i].outgoing@.len() <= self.spec_edges().len(),
            self.spec_nodes()[i].incoming@.len() <= self.spec_edges().len(),
    {
        broadcast use vstd::seq_lib::seq_to_set_is_finite;

        let ids = self.spec_edges().map_values(|e: EdgeEntry<S::E>| e.weight.sid());
        let out = self.spec_nodes()[i].outgoing@;
        let inc = self.spec_nodes()[i].incoming@;
        out.unique_seq_to_set();
        inc.unique_seq_to_set();
        ids.lemma_cardinality_of_set();
        assert forall|x: usize| out.to_set().contains(x) implies ids.to_set().contains(x) by {
            let k = choose|k: int| 0 <= k < out.len() && out[k] == x;
            assert(self.spec_has_edge(out[k]));
            let j = choose|j: int|
                0 <= j < self.spec_edges().len() && (#[trigger] self.spec_edges()[j]).weight.sid()
                    == x;
            assert(ids[j] == x);
            assert(ids.contains(x));
        }
        assert forall|x: usize| inc.to_set().contains(x) implies ids.to_set().contains(x) by {
            let k = choose|k: int| 0 <= k < inc.len() && inc[k] == x;
            assert(self.spec_has_edge(inc[k]));
            let j = choose|j: int|
                0 <= j < self.spec_edges().len() && (#[trigger] self.spec_edges()[j]).weight.sid()
                    == x;
            assert(ids[j] == x);
            assert(ids.contains(x));
        }
        vstd::set_lib::lemma_len_subset(out.to_set(), ids.to_set());
        vstd::set_lib::lemma_len_subset(inc.to_set(), ids.to_set());
    }

    /// Count the outgoing edges of the node stored at index `si` that carry
    /// the given edge type and point at a node of the given type.
    fn count_matching(
        &self,
        si: usize,
        edge_ty: &<S::E as Typed>::Type,
        target_ty: &<S::N as Typed>::Type,
    ) -> (r: usize)
        requires
            self.wf(),
            si < self.spec_nodes().len(),
        ensures
            r == self.spec_count_at(si as int, *edge_ty, *target_ty),
    {
        broadcast use vstd::seq_lib::group_seq_lib_default;

        let ghost pred = |eid: usize| self.edge_matches(eid, *edge_ty, *target_ty);
        let n = self.nodes[si].outgoing.len();
        let mut count: usize = 0;
        let mut k: usize = 0;
        while k < n
            invariant
                self.wf(),
                si < self.spec_nodes().len(),
                n == self.spec_nodes()[si as int].outgoing@.len(),
                k <= n,
                pred == (|eid: usize| self.edge_matches(eid, *edge_ty, *target_ty)),
                count == self.spec_nodes()[si as int].outgoing@.take(k as int).filter(pred).len(),
            decreases n - k,
        {
            let ghost out = self.spec_nodes()[si as int].outgoing@;
            let eid = self.nodes[si].outgoing[k];
            proof {
                assert(self.spec_has_edge(eid));
                self.lemma_edge_idx(eid);
            }
            let matched: bool;
            match self.find_edge_idx(eid) {
                Some(j) => {
                    let e_ty = self.edges[j].weight.get_type();
                    if e_ty.type_eq(edge_ty) {
                        let e_target = self.edges[j].target;
                        proof {
                            assert(self.spec_has_node(e_target));
                            self.lemma_node_idx(e_target);
                        }
                        match self.find_node_idx(e_target) {
                            Some(tj) => {
                                let t_ty = self.nodes[tj].weight.get_type();
                                matched = t_ty.type_eq(target_ty);
                            },
                            None => {
                                matched = false;
                            },
                        }
                    } else {
                        matched = false;
                    }
                },
                None => {
                    matched = false;
                },
            }
            proof {
                assert(matched == pred(eid));
                assert(out.take(k + 1) =~= out.take(k as int) + seq![out[k as int]]);
                assert(seq![eid].filter(pred) =~= if pred(eid) {
                    seq![eid]
                } else {
                    Seq::<usize>::empty()
                }) by {
                    reveal_with_fuel(Seq::filter, 2);
                }
                assert(out.take(k + 1).filter(pred) =~= out.take(k as int).filter(pred) + seq![
                    eid,
                ].filter(pred));
                out.take(k as int).lemma_filter_len(pred);
                vstd::seq_lib::lemma_seq_take_len(out, k as int);
            }
            if matched {
                count += 1;
            }
            k += 1;
        }
        proof {
            assert(self.spec_nodes()[si as int].outgoing@.take(n as int)
                =~= self.spec_nodes()[si as int].outgoing@);
        }
        count
    }

    /// Node lookups are unchanged by a mutation that keeps every node's
    /// position and id.
    pub proof fn lemma_node_lookup_preserved(pre: Self, post: Self)
        requires
            pre.nodes_distinct(),
            post.spec_nodes().len() == pre.spec_nodes().len(),
            forall|i: int|
                0 <= i < pre.spec_nodes().len() ==> (#[trigger] post.spec_nodes()[i]).weight.sid()
                    == pre.spec_nodes()[i].weight.sid(),
        ensures
            post.nodes_distinct(),
            forall|id: usize| #[trigger] post.spec_has_node(id) <==> pre.spec_has_node(id),
            forall|id: usize|
                pre.spec_has_node(id) ==> #[trigger] post.node_idx(id) == pre.node_idx(id),
    {
        assert forall|id: usize| #[trigger] post.spec_has_node(id) <==> pre.spec_has_node(
            id,
        ) by {
            if pre.spec_has_node(id) {
                let i = pre.node_idx(id);
                pre.lemma_node_idx(id);
                assert(post.spec_nodes()[i].weight.sid() == id);
            }
            if post.spec_has_node(id) {
                let i = choose|i: int|
                    0 <= i < post.spec_nodes().len() && (#[trigger] post.spec_nodes()[i]).weight.sid()
                        == id;
                assert(pre.spec_nodes()[i].weight.sid() == id);
            }
        }
        assert forall|id: usize| pre.spec_has_node(id) implies #[trigger] post.node_idx(id)
            == pre.node_idx(id) by {
            pre.lemma_node_idx(id);
            post.lemma_node_idx(id);
            let i = pre.node_idx(id);
            assert(post.spec_nodes()[i].weight.sid() == id);
        }
    }

    /// Edge lookups are unchanged by a mutation that keeps every edge's
    /// position and id.
    pub proof fn lemma_edge_lookup_preserved(pre: Self, post: Self)
        requires
            pre.edges_distinct(),
            post.spec_edges().len() == pre.spec_edges().len(),
            forall|i: int|
                0 <= i < pre.spec_edges().len() ==> (#[trigger] post.spec_edges()[i]).weight.sid()
                    == pre.spec_edges()[i].weight.sid(),
        ensures
            post.edges_distinct(),
            forall|id: usize| #[trigger] post.spec_has_edge(id) <==> pre.spec_has_edge(id),
            forall|id: usize|
                pre.spec_has_edge(id) ==> #[trigger] post.edge_idx(id) == pre.edge_idx(id),
    {
        assert forall|id: usize| #[trigger] post.spec_has_edge(id) <==> pre.spec_has_edge(
            id,
        ) by {
            if pre.spec_has_edge(id) {
                let i = pre.edge_idx(id);
                pre.lemma_edge_idx(id);
                assert(post.spec_edges()[i].weight.sid() == id);
            }
            if post.spec_has_edge(id) {
                let i = choose|i: int|
                    0 <= i < post.spec_edges().len() && (#[trigger] post.spec_edges()[i]).weight.sid()
                        == id;
                assert(pre.spec_edges()[i].weight.sid() == id);
            }
        }
        assert forall|id: usize| pre.spec_has_edge(id) implies #[trigger] post.edge_idx(id)
            == pre.edge_idx(id) by {
            pre.lemma_edge_idx(id);
            post.lemma_edge_idx(id);
            let i = pre.edge_idx(id);
            assert(post.spec_edges()[i].weight.sid() == id);
        }
    }

    /// Appending an edge with a fresh id leaves every existing edge lookup in
    /// place and makes the new id resolvable.
    pub proof fn lemma_edge_push_lookup(pre: Self, post: Self, e_new: EdgeEntry<S::E>)
        requires
            pre.edges_distinct(),
            !pre.spec_has_edge(e_new.weight.sid()),
            post.spec_edges() =~= pre.spec_edges().push(e_new),
        ensures
            post.edges_distinct(),
            forall|id: usize| #[trigger]
                post.spec_has_edge(id) <==> (pre.spec_has_edge(id) || id == e_new.weight.sid()),
            forall|id: usize|
                pre.spec_has_edge(id) ==> #[trigger] post.edge_idx(id) == pre.edge_idx(id)
                    && post.edge_entry(id) == pre.edge_entry(id),
            post.edge_idx(e_new.weight.sid()) == pre.spec_edges().len(),
            post.edge_entry(e_new.weight.sid()) == e_new,
    {
        let n = pre.spec_edges().len() as int;
        assert forall|i: int, j: int| 0 <= i < j < post.spec_edges().len() implies (
        #[trigger] post.spec_edges()[i]).weight.sid() != (#[trigger] post.spec_edges()[j]).weight.sid() by {
            if j < n {
            } else {
                assert(post.spec_edges()[i].weight.sid() == pre.spec_edges()[i].weight.sid());
            }
        }
        assert forall|id: usize| #[trigger]
            post.spec_has_edge(id) <==> (pre.spec_has_edge(id) || id
            == e_new.weight.sid()) by {
            if pre.spec_has_edge(id) {
                let i = pre.edge_idx(id);
                pre.lemma_edge_idx(id);
                assert(post.spec_edges()[i].weight.sid() == id);
            }
            if id == e_new.weight.sid() {
                assert(post.spec_edges()[n].weight.sid() == id);
            }
            if post.spec_has_edge(id) {
                let i = choose|i: int|
                    0 <= i < post.spec_edges().len() && (#[trigger] post.spec_edges()[i]).weight.sid()
                        == id;
                if i < n {
                    assert(pre.spec_edges()[i].weight.sid() == id);
                }
            }
        }
        assert forall|id: usize| pre.spec_has_edge(id) implies #[trigger] post.edge_idx(id)
            == pre.edge_idx(id) && post.edge_entry(id) == pre.edge_entry(id) by {
            pre.lemma_edge_idx(id);
            post.lemma_edge_idx(id);
            let i = pre.edge_idx(id);
            assert(post.spec_edges()[i].weight.sid() == id);
            assert(id != e_new.weight.sid());
        }
        post.lemma_edge_idx(e_new.weight.sid());
        assert(post.spec_edges()[n].weight.sid() == e_new.weight.sid());
    }

    /// What a successful fresh insert of an edge does: the edge record is
    /// appended, the source's outgoing order gains the id at its end, the
    /// target's incoming set gains the id, and nothing else moves.
    pub open spec fn add_edge_inserted(
        pre: Self,
        post: Self,
        source: usize,
        target: usize,
        w: S::E,
    ) -> bool {
        let eid = w.sid();
        let si = pre.node_idx(source);
        let ti = pre.node_idx(target);
        &&& post.spec_edges() =~= pre.spec_edges().push(EdgeEntry { weight: w, source, target })
        &&& post.spec_nodes().len() == pre.spec_nodes().len()
        &&& forall|i: int|
            0 <= i < pre.spec_nodes().len() ==> (#[trigger] post.spec_nodes()[i]).weight
                == pre.spec_nodes()[i].weight
        &&& forall|i: int|
            0 <= i < pre.spec_nodes().len() ==> (#[trigger] post.spec_nodes()[i]).outgoing@ == (
            if i == si {
                pre.spec_nodes()[i].outgoing@.push(eid)
            } else {
                pre.spec_nodes()[i].outgoing@
            })
        &&& forall|i: int|
            0 <= i < pre.spec_nodes().len() ==> (#[trigger] post.spec_nodes()[i]).incoming@ == (
            if i == ti {
                pre.spec_nodes()[i].incoming@.push(eid)
            } else {
                pre.spec_nodes()[i].incoming@
            })
    }

    /// What a successful replace of an existing edge does: the record keeps
    /// its storage slot with the new weight and endpoints; for an endpoint
    /// that changed, the id leaves the old node's adjacency set and is
    /// appended to the new node's set (so the edge moves to the end of the
    /// new source's outgoing order); an unchanged endpoint keeps its order.
    pub open spec fn add_edge_updated(
        pre: Self,
        post: Self,
        source: usize,
        target: usize,
        w: S::E,
    ) -> bool {
        let eid = w.sid();
        let j = pre.edge_idx(eid);
        let old_s = pre.spec_edges()[j].source;
        let old_t = pre.spec_edges()[j].target;
        &&& post.spec_edges() =~= pre.spec_edges().update(
            j,
            EdgeEntry { weight: w, source, target },
        )
        &&& post.spec_nodes().len() == pre.spec_nodes().len()
        &&& forall|i: int|
            0 <= i < pre.spec_nodes().len() ==> (#[trigger] post.spec_nodes()[i]).weight
                == pre.spec_nodes()[i].weight
        &&& forall|i: int|
            0 <= i < pre.spec_nodes().len() ==> (#[trigger] post.spec_nodes()[i]).outgoing@ == (
            if old_s != source && i == pre.node_idx(old_s) {
                seq_without(pre.spec_nodes()[i].outgoing@, eid)
            } else if old_s != source && i == pre.node_idx(source) {
                pre.spec_nodes()[i].outgoing@.push(eid)
            } else {
                pre.spec_nodes()[i].outgoing@
            })
        &&& forall|i: int|
            0 <= i < pre.spec_nodes().len() ==> (#[trigger] post.spec_nodes()[i]).incoming@ == (
            if old_t != target && i == pre.node_idx(old_t) {
                seq_without(pre.spec_nodes()[i].incoming@, eid)
            } else if old_t != target && i == pre.node_idx(target) {
                pre.spec_nodes()[i].incoming@.push(eid)
            } else {
                pre.spec_nodes()[i].incoming@
            })
    }

    /// A fresh edge insert between live, schema-accepted endpoints preserves
    /// well-formedness.
    proof fn lemma_add_edge_inserted_wf(pre: Self, post: Self, source: usize, target: usize, w: S::E)
        requires
            pre.wf(),
            pre.spec_edges().len() < STORE_CAP,
            pre.spec_has_node(source),
            pre.spec_has_node(target),
            !pre.spec_has_edge(w.sid()),
            pre.spec_schema().edge_type_allowed(w.ty(), pre.node_ty(source), pre.node_ty(target)),
            post.spec_schema() == pre.spec_schema(),
            Self::add_edge_inserted(pre, post, source, target, w),
        ensures
            post.wf(),
    {
        let eid = w.sid();
        let si = pre.node_idx(source);
        let ti = pre.node_idx(target);
        let newe = EdgeEntry { weight: w, source, target };
        pre.lemma_node_idx(source);
        pre.lemma_node_idx(target);
        Self::lemma_node_lookup_preserved(pre, post);
        Self::lemma_edge_push_lookup(pre, post, newe);
        assert forall|id: usize| pre.spec_has_node(id) implies #[trigger] post.node_entry(id).weight
            == pre.node_entry(id).weight by {
            pre.lemma_node_idx(id);
        }
        let n = pre.spec_edges().len() as int;
        // endpoints of every edge are live
        assert forall|j: int| 0 <= j < post.spec_edges().len() implies post.spec_has_node(
            (#[trigger] post.spec_edges()[j]).source,
        ) && post.spec_has_node(post.spec_edges()[j].target) by {
            if j < n {
                assert(post.spec_edges()[j] == pre.spec_edges()[j]);
            }
        }
        // adjacency soundness
        assert forall|i: int, k: int|
            0 <= i < post.spec_nodes().len() && 0 <= k < post.spec_nodes()[i].outgoing@.len() implies post.spec_has_edge(
            #[trigger] post.spec_nodes()[i].outgoing@[k],
        ) && post.edge_entry(post.spec_nodes()[i].outgoing@[k]).source
            == post.spec_nodes()[i].weight.sid() by {
            let x = post.spec_nodes()[i].outgoing@[k];
            if i == si && k == pre.spec_nodes()[i].outgoing@.len() {
                assert(x == eid);
                assert(post.edge_entry(eid) == newe);
                assert(pre.spec_nodes()[si].weight.sid() == source);
            } else {
                assert(x == pre.spec_nodes()[i].outgoing@[k]);
                assert(pre.spec_has_edge(x));
                assert(x != eid);
                assert(post.edge_entry(x) == pre.edge_entry(x));
            }
        }
        assert forall|i: int, k: int|
            0 <= i < post.spec_nodes().len() && 0 <= k < post.spec_nodes()[i].incoming@.len() implies post.spec_has_edge(
            #[trigger] post.spec_nodes()[i].incoming@[k],
        ) && post.edge_entry(post.spec_nodes()[i].incoming@[k]).target
            == post.spec_nodes()[i].weight.sid() by {
            let x = post.spec_nodes()[i].incoming@[k];
            if i == ti && k == pre.spec_nodes()[i].incoming@.len() {
                assert(x == eid);
                assert(post.edge_entry(eid) == newe);
                assert(pre.spec_nodes()[ti].weight.sid() == target);
            } else {
                assert(x == pre.spec_nodes()[i].incoming@[k]);
                assert(pre.spec_has_edge(x));
                assert(x != eid);
                assert(post.edge_entry(x) == pre.edge_entry(x));
            }
        }
        // adjacency sets stay duplicate-free
        assert forall|i: int| 0 <= i < post.spec_nodes().len() implies (
        #[trigger] post.spec_nodes()[i]).outgoing@.no_duplicates()
            && post.spec_nodes()[i].incoming@.no_duplicates() by {
            if i == si {
                assert(!pre.spec_nodes()[i].outgoing@.contains(eid)) by {
                    if pre.spec_nodes()[i].outgoing@.contains(eid) {
                        let k = choose|k: int|
                            0 <= k < pre.spec_nodes()[i].outgoing@.len()
                                && pre.spec_nodes()[i].outgoing@[k] == eid;
                        assert(pre.spec_has_edge(pre.spec_nodes()[i].outgoing@[k]));
                    }
                }
            }
            if i == ti {
                assert(!pre.spec_nodes()[i].incoming@.contains(eid)) by {
                    if pre.spec_nodes()[i].incoming@.contains(eid) {
                        let k = choose|k: int|
                            0 <= k < pre.spec_nodes()[i].incoming@.len()
                                && pre.spec_nodes()[i].incoming@[k] == eid;
                        assert(pre.spec_has_edge(pre.spec_nodes()[i].incoming@[k]));
                    }
                }
            }
        }
        // every edge is registered at both endpoints
        assert forall|j: int| 0 <= j < post.spec_edges().len() implies post.node_entry(
            (#[trigger] post.spec_edges()[j]).source,
        ).outgoing@.contains(post.spec_edges()[j].weight.sid()) && post.node_entry(
            post.spec_edges()[j].target,
        ).incoming@.contains(post.spec_edges()[j].weight.sid()) by {
            if j < n {
                let e = pre.spec_edges()[j];
                let x = e.weight.sid();
                assert(post.spec_edges()[j] == e);
                pre.lemma_node_idx(e.source);
                pre.lemma_node_idx(e.target);
                let osi = pre.node_idx(e.source);
                let oti = pre.node_idx(e.target);
                assert(pre.spec_nodes()[osi].outgoing@.contains(x));
                let k1 = choose|k: int|
                    0 <= k < pre.spec_nodes()[osi].outgoing@.len() && pre.spec_nodes()[osi].outgoing@[k]
                        == x;
                assert(post.spec_nodes()[osi].outgoing@[k1] == x);
                assert(pre.spec_nodes()[oti].incoming@.contains(x));
                let k2 = choose|k: int|
                    0 <= k < pre.spec_nodes()[oti].incoming@.len() && pre.spec_nodes()[oti].incoming@[k]
                        == x;
                assert(post.spec_nodes()[oti].incoming@[k2] == x);
            } else {
                assert(post.spec_edges()[j] == newe);
                let li = pre.spec_nodes()[si].outgoing@.len() as int;
                assert(post.spec_nodes()[si].outgoing@[li] == eid);
                let lj = pre.spec_nodes()[ti].incoming@.len() as int;
                assert(post.spec_nodes()[ti].incoming@[lj] == eid);
            }
        }
        // schema type-validity
        assert forall|j: int| 0 <= j < post.spec_edges().len() implies post.spec_schema().edge_type_allowed(
            (#[trigger] post.spec_edges()[j]).weight.ty(),
            post.node_ty(post.spec_edges()[j].source),
            post.node_ty(post.spec_edges()[j].target),
        ) by {
            if j < n {
                assert(post.spec_edges()[j] == pre.spec_edges()[j]);
                assert(post.node_ty(pre.spec_edges()[j].source) == pre.node_ty(
                    pre.spec_edges()[j].source,
                ));
                assert(post.node_ty(pre.spec_edges()[j].target) == pre.node_ty(
                    pre.spec_edges()[j].target,
                ));
            } else {
                assert(post.spec_edges()[j] == newe);
                assert(post.node_ty(source) == pre.node_ty(source));
                assert(post.node_ty(target) == pre.node_ty(target));
            }
        }
        assert forall|i: int| 0 <= i < post.spec_nodes().len() implies post.spec_schema().node_allowed(
            (#[trigger] post.spec_nodes()[i]).weight.ty(),
        ) by {
            assert(post.spec_nodes()[i].weight == pre.spec_nodes()[i].weight);
        }
    }

    /// A replace of an existing edge between live, schema-accepted endpoints
    /// preserves well-formedness.
    proof fn lemma_add_edge_updated_wf(pre: Self, post: Self, source: usize, target: usize, w: S::E)
        requires
            pre.wf(),
            pre.spec_has_node(source),
            pre.spec_has_node(target),
            pre.spec_has_edge(w.sid()),
            pre.spec_schema().edge_type_allowed(w.ty(), pre.node_ty(source), pre.node_ty(target)),
            post.spec_schema() == pre.spec_schema(),
            Self::add_edge_updated(pre, post, source, target, w),
        ensures
            post.wf(),
    {
        broadcast use vstd::seq_lib::group_seq_lib_default;

        let eid = w.sid();
        let j = pre.edge_idx(eid);
        let old_s = pre.spec_edges()[j].source;
        let old_t = pre.spec_edges()[j].target;
        let newe = EdgeEntry { weight: w, source, target };
        pre.lemma_node_idx(source);
        pre.lemma_node_idx(target);
        pre.lemma_edge_idx(eid);
        pre.lemma_node_idx(old_s);
        pre.lemma_node_idx(old_t);
        let si = pre.node_idx(source);
        let ti = pre.node_idx(target);
        let osi = pre.node_idx(old_s);
        let oti = pre.node_idx(old_t);
        Self::lemma_node_lookup_preserved(pre, post);
        Self::lemma_edge_lookup_preserved(pre, post);
        assert forall|id: usize| pre.spec_has_node(id) implies #[trigger] post.node_entry(id).weight
            == pre.node_entry(id).weight by {
            pre.lemma_node_idx(id);
        }
        assert(post.edge_idx(eid) == j);
        assert(post.edge_entry(eid) == newe);
        assert forall|x: usize| pre.spec_has_edge(x) && x != eid implies #[trigger] post.edge_entry(
            x,
        ) == pre.edge_entry(x) by {
            pre.lemma_edge_idx(x);
            assert(pre.edge_idx(x) != j);
        }
        assert forall|i: int| 0 <= i < pre.spec_nodes().len() implies (
        #[trigger] pre.spec_nodes()[i]).outgoing@.contains(eid) ==> i == osi by {
            if pre.spec_nodes()[i].outgoing@.contains(eid) {
                let k = choose|k: int|
                    0 <= k < pre.spec_nodes()[i].outgoing@.len() && pre.spec_nodes()[i].outgoing@[k]
                        == eid;
                assert(pre.edge_entry(pre.spec_nodes()[i].outgoing@[k]).source
                    == pre.spec_nodes()[i].weight.sid());
                assert(pre.spec_nodes()[i].weight.sid() == old_s);
            }
        }
        assert forall|i: int| 0 <= i < pre.spec_nodes().len() implies (
        #[trigger] pre.spec_nodes()[i]).incoming@.contains(eid) ==> i == oti by {
            if pre.spec_nodes()[i].incoming@.contains(eid) {
                let k = choose|k: int|
                    0 <= k < pre.spec_nodes()[i].incoming@.len() && pre.spec_nodes()[i].incoming@[k]
                        == eid;
                assert(pre.edge_entry(pre.spec_nodes()[i].incoming@[k]).target
                    == pre.spec_nodes()[i].weight.sid());
                assert(pre.spec_nodes()[i].weight.sid() == old_t);
            }
        }
        // membership facts about filters on the two touched adjacency sets
        assert forall|i: int| 0 <= i < pre.spec_nodes().len() implies {
            &&& (#[trigger] post.spec_nodes()[i]).outgoing@.no_duplicates()
            &&& post.spec_nodes()[i].incoming@.no_duplicates()
            &&& forall|x: usize|
                post.spec_nodes()[i].outgoing@.contains(x) ==> pre.spec_nodes()[i].outgoing@.contains(
                    x,
                ) || (x == eid && i == si)
            &&& forall|x: usize|
                post.spec_nodes()[i].incoming@.contains(x) ==> pre.spec_nodes()[i].incoming@.contains(
                    x,
                ) || (x == eid && i == ti)
        } by {
            lemma_seq_without_props(pre.spec_nodes()[i].outgoing@, eid);
            lemma_seq_without_props(pre.spec_nodes()[i].incoming@, eid);
            if old_s != source && i == si {
                assert(!pre.spec_nodes()[i].outgoing@.contains(eid));
            }
            if old_t != target && i == ti {
                assert(!pre.spec_nodes()[i].incoming@.contains(eid));
            }
            assert forall|x: usize| (#[trigger] post.spec_nodes()[i].outgoing@.contains(x)) implies pre.spec_nodes()[i].outgoing@.contains(
                x,
            ) || (x == eid && i == si) by {
                if old_s != source && i == si {
                    let k = choose|k: int|
                        0 <= k < post.spec_nodes()[i].outgoing@.len()
                            && post.spec_nodes()[i].outgoing@[k] == x;
                    if k < pre.spec_nodes()[i].outgoing@.len() {
                        assert(pre.spec_nodes()[i].outgoing@.contains(x));
                    }
                }
            }
            assert forall|x: usize| (#[trigger] post.spec_nodes()[i].incoming@.contains(x)) implies pre.spec_nodes()[i].incoming@.contains(
                x,
            ) || (x == eid && i == ti) by {
                if old_t != target && i == ti {
                    let k = choose|k: int|
                        0 <= k < post.spec_nodes()[i].incoming@.len()
                            && post.spec_nodes()[i].incoming@[k] == x;
                    if k < pre.spec_nodes()[i].incoming@.len() {
                        assert(pre.spec_nodes()[i].incoming@.contains(x));
                    }
                }
            }
        }
        // endpoints of every edge are live
        assert forall|jj: int| 0 <= jj < post.spec_edges().len() implies post.spec_has_node(
            (#[trigger] post.spec_edges()[jj]).source,
        ) && post.spec_has_node(post.spec_edges()[jj].target) by {
            if jj != j {
                assert(post.spec_edges()[jj] == pre.spec_edges()[jj]);
            }
        }
        // adjacency soundness
        assert forall|i: int, k: int|
            0 <= i < post.spec_nodes().len() && 0 <= k < post.spec_nodes()[i].outgoing@.len() implies post.spec_has_edge(
            #[trigger] post.spec_nodes()[i].outgoing@[k],
        ) && post.edge_entry(post.spec_nodes()[i].outgoing@[k]).source
            == post.spec_nodes()[i].weight.sid() by {
            let x = post.spec_nodes()[i].outgoing@[k];
            assert(post.spec_nodes()[i].outgoing@.contains(x));
            if x == eid {
                assert(post.edge_entry(eid) == newe);
                if old_s != source {
                    assert(i == si || pre.spec_nodes()[i].outgoing@.contains(eid));
                    if i != si {
                        assert(i == osi);
                        assert(post.spec_nodes()[i].outgoing@ == pre.spec_nodes()[i].outgoing@.filter(
                            |y: usize| y != eid,
                        ));
                        assert(false);
                    }
                    assert(pre.spec_nodes()[si].weight.sid() == source);
                } else {
                    assert(pre.spec_nodes()[i].outgoing@.contains(eid));
                    assert(i == osi);
                    assert(pre.spec_nodes()[i].weight.sid() == old_s);
                }
            } else {
                assert(pre.spec_nodes()[i].outgoing@.contains(x));
                let kk = choose|kk: int|
                    0 <= kk < pre.spec_nodes()[i].outgoing@.len() && pre.spec_nodes()[i].outgoing@[kk]
                        == x;
                assert(pre.spec_has_edge(x));
                assert(post.edge_entry(x) == pre.edge_entry(x));
            }
        }
        assert forall|i: int, k: int|
            0 <= i < post.spec_nodes().len() && 0 <= k < post.spec_nodes()[i].incoming@.len() implies post.spec_has_edge(
            #[trigger] post.spec_nodes()[i].incoming@[k],
        ) && post.edge_entry(post.spec_nodes()[i].incoming@[k]).target
            == post.spec_nodes()[i].weight.sid() by {
            let x = post.spec_nodes()[i].incoming@[k];
            assert(post.spec_nodes()[i].incoming@.contains(x));
            if x == eid {
                assert(post.edge_entry(eid) == newe);
                if old_t != target {
                    assert(i == ti || pre.spec_nodes()[i].incoming@.contains(eid));
                    if i != ti {
                        assert(i == oti);
                        assert(post.spec_nodes()[i].incoming@ == pre.spec_nodes()[i].incoming@.filter(
                            |y: usize| y != eid,
                        ));
                        assert(false);
                    }
                    assert(pre.spec_nodes()[ti].weight.sid() == target);
                } else {
                    assert(pre.spec_nodes()[i].incoming@.contains(eid));
                    assert(i == oti);
                    assert(pre.spec_nodes()[i].weight.sid() == old_t);
                }
            } else {
                assert(pre.spec_nodes()[i].incoming@.contains(x));
                let kk = choose|kk: int|
                    0 <= kk < pre.spec_nodes()[i].incoming@.len() && pre.spec_nodes()[i].incoming@[kk]
                        == x;
                assert(pre.spec_has_edge(x));
                assert(post.edge_entry(x) == pre.edge_entry(x));
            }
        }
        // every edge is registered at both endpoints
        assert forall|jj: int| 0 <= jj < post.spec_edges().len() implies post.node_entry(
            (#[trigger] post.spec_edges()[jj]).source,
        ).outgoing@.contains(post.spec_edges()[jj].weight.sid()) && post.node_entry(
            post.spec_edges()[jj].target,
        ).incoming@.contains(post.spec_edges()[jj].weight.sid()) by {
            if jj == j {
                // the replaced edge is registered at its (possibly new) endpoints
                if old_s != source {
                    let li = pre.spec_nodes()[si].outgoing@.len() as int;
                    assert(post.spec_nodes()[si].outgoing@[li] == eid);
                    assert(post.spec_nodes()[si].outgoing@.contains(eid));
                } else {
                    assert(pre.spec_nodes()[osi].outgoing@.contains(eid));
                    let k = choose|k: int|
                        0 <= k < pre.spec_nodes()[osi].outgoing@.len()
                            && pre.spec_nodes()[osi].outgoing@[k] == eid;
                    assert(post.spec_nodes()[osi].outgoing@[k] == eid);
                    assert(post.spec_nodes()[osi].outgoing@.contains(eid));
                }
                if old_t != target {
                    let li = pre.spec_nodes()[ti].incoming@.len() as int;
                    assert(post.spec_nodes()[ti].incoming@[li] == eid);
                    assert(post.spec_nodes()[ti].incoming@.contains(eid));
                } else {
                    assert(pre.spec_nodes()[oti].incoming@.contains(eid));
                    let k = choose|k: int|
                        0 <= k < pre.spec_nodes()[oti].incoming@.len()
                            && pre.spec_nodes()[oti].incoming@[k] == eid;
                    assert(post.spec_nodes()[oti].incoming@[k] == eid);
                    assert(post.spec_nodes()[oti].incoming@.contains(eid));
                }
            } else {
                let e = pre.spec_edges()[jj];
                let x = e.weight.sid();
                assert(post.spec_edges()[jj] == e);
                assert(x != eid);
                pre.lemma_node_idx(e.source);
                pre.lemma_node_idx(e.target);
                let exi = pre.node_idx(e.source);
                let eyi = pre.node_idx(e.target);
                assert(pre.spec_nodes()[exi].outgoing@.contains(x));
                assert(post.spec_nodes()[exi].outgoing@.contains(x)) by {
                    if old_s != source && exi == osi {
                        let k = choose|k: int|
                            0 <= k < pre.spec_nodes()[exi].outgoing@.len()
                                && pre.spec_nodes()[exi].outgoing@[k] == x;
                        lemma_seq_without_props(pre.spec_nodes()[exi].outgoing@, eid);
                    } else if old_s != source && exi == si {
                        let k = choose|k: int|
                            0 <= k < pre.spec_nodes()[exi].outgoing@.len()
                                && pre.spec_nodes()[exi].outgoing@[k] == x;
                        assert(post.spec_nodes()[exi].outgoing@[k] == x);
                    } else {
                        assert(post.spec_nodes()[exi].outgoing@ == pre.spec_nodes()[exi].outgoing@);
                    }
                }
                assert(pre.spec_nodes()[eyi].incoming@.contains(x));
                assert(post.spec_nodes()[eyi].incoming@.contains(x)) by {
                    if old_t != target && eyi == oti {
                        let k = choose|k: int|
                            0 <= k < pre.spec_nodes()[eyi].incoming@.len()
                                && pre.spec_nodes()[eyi].incoming@[k] == x;
                        lemma_seq_without_props(pre.spec_nodes()[eyi].incoming@, eid);
                    } else if old_t != target && eyi == ti {
                        let k = choose|k: int|
                            0 <= k < pre.spec_nodes()[eyi].incoming@.len()
                                && pre.spec_nodes()[eyi].incoming@[k] == x;
                        assert(post.spec_nodes()[eyi].incoming@[k] == x);
                    } else {
                        assert(post.spec_nodes()[eyi].incoming@ == pre.spec_nodes()[eyi].incoming@);
                    }
                }
            }
        }
        // schema type-validity
        assert forall|jj: int| 0 <= jj < post.spec_edges().len() implies post.spec_schema().edge_type_allowed(
            (#[trigger] post.spec_edges()[jj]).weight.ty(),
            post.node_ty(post.spec_edges()[jj].source),
            post.node_ty(post.spec_edges()[jj].target),
        ) by {
            if jj == j {
                assert(post.node_ty(source) == pre.node_ty(source));
                assert(post.node_ty(target) == pre.node_ty(target));
            } else {
                assert(post.spec_edges()[jj] == pre.spec_edges()[jj]);
                assert(post.node_ty(pre.spec_edges()[jj].source) == pre.node_ty(
                    pre.spec_edges()[jj].source,
                ));
                assert(post.node_ty(pre.spec_edges()[jj].target) == pre.node_ty(
                    pre.spec_edges()[jj].target,
                ));
            }
        }
        assert forall|i: int| 0 <= i < post.spec_nodes().len() implies post.spec_schema().node_allowed(
            (#[trigger] post.spec_nodes()[i]).weight.ty(),
        ) by {
            assert(post.spec_nodes()[i].weight == pre.spec_nodes()[i].weight);
        }
    }

    /// Add an edge, or update the edge already carrying the same logical id.
    ///
    /// The schema is consulted first with the prospective count of outgoing
    /// edges from `source` carrying this edge type towards `target`'s node
    /// type.  A rejection leaves the store untouched.  On an update, an
    /// endpoint that changed moves the edge to the end of the new source's
    /// outgoing order; an unchanged endpoint keeps its order.
    pub fn add_edge(&mut self, source: usize, target: usize, edge: S::E) -> (r: SchemaResult<
        usize,
        S,
    >)
        requires
            old(self).wf(),
            old(self).spec_edges().len() < STORE_CAP,
        ensures
            final(self).wf(),
            final(self).spec_schema() == old(self).spec_schema(),
            r is Err ==> *final(self) == *old(self),
            r is Ok ==> r == Result::<usize, SchemaError<S>>::Ok(edge.sid()),
            !old(self).spec_has_node(source) ==> r == Result::<usize, SchemaError<S>>::Err(
                TypedError::MissingNode(source),
            ),
            old(self).spec_has_node(source) && !old(self).spec_has_node(target) ==> r == Result::<
                usize,
                SchemaError<S>,
            >::Err(TypedError::MissingNode(target)),
            old(self).spec_has_node(source) && old(self).spec_has_node(target) ==> ({
                let et = edge.ty();
                let st = old(self).node_ty(source);
                let tt = old(self).node_ty(target);
                let q = old(self).spec_count_matching(source, et, tt) + 1;
                &&& (!old(self).spec_schema().edge_type_allowed(et, st, tt) ==> r == Result::<
                    usize,
                    SchemaError<S>,
                >::Err(TypedError::InvalidEdgeType(et, st, tt, DisAllowedEdge::InvalidType)))
                &&& (old(self).spec_schema().edge_type_allowed(et, st, tt) && !old(
                    self,
                ).spec_schema().edge_quantity_allowed(q, et, st, tt) ==> r == Result::<
                    usize,
                    SchemaError<S>,
                >::Err(TypedError::InvalidEdgeType(et, st, tt, DisAllowedEdge::ToMany)))
                &&& (old(self).spec_schema().edge_type_allowed(et, st, tt) && old(
                    self,
                ).spec_schema().edge_quantity_allowed(q, et, st, tt) ==> r is Ok)
                &&& (old(self).spec_schema().edge_type_allowed(et, st, tt) && old(
                    self,
                ).spec_schema().edge_quantity_allowed(q, et, st, tt) && !old(self).spec_has_edge(
                    edge.sid(),
                ) ==> Self::add_edge_inserted(*old(self), *final(self), source, target, edge))
                &&& (old(self).spec_schema().edge_type_allowed(et, st, tt) && old(
                    self,
                ).spec_schema().edge_quantity_allowed(q, et, st, tt) && old(self).spec_has_edge(
                    edge.sid(),
                ) ==> Self::add_edge_updated(*old(self), *final(self), source, target, edge))
            }),
    {
        broadcast use vstd::seq_lib::group_seq_lib_default;

        let eid = edge.get_id();
        let si = match self.find_node_idx(source) {
            Some(i) => i,
            None => {
                return Err(TypedError::MissingNode(source));
            },
        };
        let ti = match self.find_node_idx(target) {
            Some(i) => i,
            None => {
                return Err(TypedError::MissingNode(target));
            },
        };
        proof {
            self.lemma_node_idx(source);
            self.lemma_node_idx(target);
            assert(self.node_idx(source) == si as int);
            assert(self.node_idx(target) == ti as int);
        }
        let e_ty = edge.get_type();
        let s_ty = self.nodes[si].weight.get_type();
        let t_ty = self.nodes[ti].weight.get_type();
        let quantity = self.count_matching(si, &e_ty, &t_ty);
        proof {
            self.lemma_adjacency_bounded(si as int);
            self.spec_nodes()[si as int].outgoing@.lemma_filter_len(
                |x: usize| self.edge_matches(x, e_ty, t_ty),
            );
        }
        match self.schema.allow_edge(quantity + 1, e_ty, s_ty, t_ty) {
            Err(e) => {
                return Err(TypedError::InvalidEdgeType(e_ty, s_ty, t_ty, e));
            },
            Ok(_) => {},
        }
        match self.find_edge_idx(eid) {
            None => {
                let ghost pre = *self;
                self.edges.push(EdgeEntry { weight: edge, source, target });
                let sn = &mut self.nodes[si];
                sn.outgoing.push(eid);
                let tn = &mut self.nodes[ti];
                tn.incoming.push(eid);
                proof {
                    assert(Self::add_edge_inserted(pre, *self, source, target, edge));
                    Self::lemma_add_edge_inserted_wf(pre, *self, source, target, edge);
                }
                Ok(eid)
            },
            Some(j) => {
                let ghost pre = *self;
                proof {
                    self.lemma_edge_idx(eid);
                    assert(self.edge_idx(eid) == j as int);
                }
                let old_s = self.edges[j].source;
                let old_t = self.edges[j].target;
                self.edges[j] = EdgeEntry { weight: edge, source, target };
                if old_s != source {
                    let osi = match self.find_node_idx(old_s) {
                        Some(i) => i,
                        None => {
                            proof {
                                assert(pre.spec_edges()[j as int].source == old_s);
                                assert(pre.spec_has_node(old_s));
                                assert(self.spec_nodes() == pre.spec_nodes());
                                assert(false);
                            }
                            return Err(TypedError::InvalidInternalState);
                        },
                    };
                    proof {
                        pre.lemma_node_idx(old_s);
                        assert(pre.node_idx(old_s) == osi as int);
                    }
                    let on = &mut self.nodes[osi];
                    remove_id(&mut on.outgoing, eid);
                    let sn = &mut self.nodes[si];
                    sn.outgoing.push(eid);
                }
                if old_t != target {
                    let oti = match self.find_node_idx(old_t) {
                        Some(i) => i,
                        None => {
                            proof {
                                assert(pre.spec_edges()[j as int].target == old_t);
                                assert(pre.spec_has_node(old_t));
                                Self::lemma_node_lookup_preserved(pre, *self);
                                assert(false);
                            }
                            return Err(TypedError::InvalidInternalState);
                        },
                    };
                    proof {
                        pre.lemma_node_idx(old_t);
                        assert(pre.node_idx(old_t) == oti as int);
                    }
                    let on = &mut self.nodes[oti];
                    remove_id(&mut on.incoming, eid);
                    let tn = &mut self.nodes[ti];
                    tn.incoming.push(eid);
                }
                proof {
                    assert(Self::add_edge_updated(pre, *self, source, target, edge));
                    Self::lemma_add_edge_updated_wf(pre, *self, source, target, edge);
                }
                Ok(eid)
            },
        }
    }

    /// What removing one edge does: the record disappears, the id leaves the
    /// two endpoint adjacency sets, and nothing else moves.
    pub open spec fn edge_removed(pre: Self, post: Self, eid: usize) -> bool {
        let j = pre.edge_idx(eid);
        let src = pre.spec_edges()[j].source;
        let tgt = pre.spec_edges()[j].target;
        &&& post.spec_edges() =~= pre.spec_edges().remove(j)
        &&& post.spec_nodes().len() == pre.spec_nodes().len()
        &&& forall|i: int|
            0 <= i < pre.spec_nodes().len() ==> (#[trigger] post.spec_nodes()[i]).weight
                == pre.spec_nodes()[i].weight
        &&& forall|i: int|
            0 <= i < pre.spec_nodes().len() ==> (#[trigger] post.spec_nodes()[i]).outgoing@ == (
            if i == pre.node_idx(src) {
                seq_without(pre.spec_nodes()[i].outgoing@, eid)
            } else {
                pre.spec_nodes()[i].outgoing@
            })
        &&& forall|i: int|
            0 <= i < pre.spec_nodes().len() ==> (#[trigger] post.spec_nodes()[i]).incoming@ == (
            if i == pre.node_idx(tgt) {
                seq_without(pre.spec_nodes()[i].incoming@, eid)
            } else {
                pre.spec_nodes()[i].incoming@
            })
    }

    /// Removing an edge preserves well-formedness, and the edge lookups of
    /// every other edge survive.
    proof fn lemma_edge_removed_wf(pre: Self, post: Self, eid: usize)
        requires
            pre.wf(),
            pre.spec_has_edge(eid),
            post.spec_schema() == pre.spec_schema(),
            Self::edge_removed(pre, post, eid),
        ensures
            post.wf(),
            forall|x: usize| #[trigger]
                post.spec_has_edge(x) <==> (pre.spec_has_edge(x) && x != eid),
            forall|x: usize|
                pre.spec_has_edge(x) && x != eid ==> #[trigger] post.edge_entry(x)
                    == pre.edge_entry(x),
    {
        broadcast use vstd::seq_lib::group_seq_lib_default;

        let j = pre.edge_idx(eid);
        let src = pre.spec_edges()[j].source;
        let tgt = pre.spec_edges()[j].target;
        pre.lemma_edge_idx(eid);
        pre.lemma_node_idx(src);
        pre.lemma_node_idx(tgt);
        let osi = pre.node_idx(src);
        let oti = pre.node_idx(tgt);
        let n = pre.spec_edges().len() as int;
        Self::lemma_node_lookup_preserved(pre, post);
        assert forall|id: usize| pre.spec_has_node(id) implies #[trigger] post.node_entry(id).weight
            == pre.node_entry(id).weight by {
            pre.lemma_node_idx(id);
        }
        // edge lookups after the removal
        assert forall|x: usize| #[trigger]
            post.spec_has_edge(x) <==> (pre.spec_has_edge(x) && x != eid) by {
            if pre.spec_has_edge(x) && x != eid {
                pre.lemma_edge_idx(x);
                let i = pre.edge_idx(x);
                assert(i != j);
                if i < j {
                    assert(post.spec_edges()[i].weight.sid() == x);
                } else {
                    assert(post.spec_edges()[i - 1].weight.sid() == x);
                }
            }
            if post.spec_has_edge(x) {
                let i = choose|i: int|
                    0 <= i < post.spec_edges().len() && (#[trigger] post.spec_edges()[i]).weight.sid()
                        == x;
                if i < j {
                    assert(post.spec_edges()[i] == pre.spec_edges()[i]);
                } else {
                    assert(post.spec_edges()[i] == pre.spec_edges()[i + 1]);
                }
            }
        }
        assert forall|x: usize| pre.spec_has_edge(x) && x != eid implies #[trigger] post.edge_entry(
            x,
        ) == pre.edge_entry(x) by {
            pre.lemma_edge_idx(x);
            post.lemma_edge_idx(x);
            let i = pre.edge_idx(x);
            let i2 = post.edge_idx(x);
            if i2 < j {
                assert(post.spec_edges()[i2] == pre.spec_edges()[i2]);
                assert(i2 == i);
            } else {
                assert(post.spec_edges()[i2] == pre.spec_edges()[i2 + 1]);
                assert(i2 + 1 == i);
            }
        }
        assert(post.edges_distinct()) by {
            assert forall|a: int, b: int| 0 <= a < b < post.spec_edges().len() implies (
            #[trigger] post.spec_edges()[a]).weight.sid() != (
            #[trigger] post.spec_edges()[b]).weight.sid() by {
                let pa = if a < j {
                    a
                } else {
                    a + 1
                };
                let pb = if b < j {
                    b
                } else {
                    b + 1
                };
                assert(post.spec_edges()[a] == pre.spec_edges()[pa]);
                assert(post.spec_edges()[b] == pre.spec_edges()[pb]);
            }
        }
        // only the two endpoint nodes ever held the removed id
        assert forall|i: int|
            0 <= i < pre.spec_nodes().len() && (#[trigger] pre.spec_nodes()[i]).outgoing@.contains(
                eid,
            ) implies i == osi by {
            let k = choose|k: int|
                0 <= k < pre.spec_nodes()[i].outgoing@.len() && pre.spec_nodes()[i].outgoing@[k]
                    == eid;
            assert(pre.edge_entry(pre.spec_nodes()[i].outgoing@[k]).source
                == pre.spec_nodes()[i].weight.sid());
            assert(pre.spec_nodes()[i].weight.sid() == src);
        }
        assert forall|i: int|
            0 <= i < pre.spec_nodes().len() && (#[trigger] pre.spec_nodes()[i]).incoming@.contains(
                eid,
            ) implies i == oti by {
            let k = choose|k: int|
                0 <= k < pre.spec_nodes()[i].incoming@.len() && pre.spec_nodes()[i].incoming@[k]
                    == eid;
            assert(pre.edge_entry(pre.spec_nodes()[i].incoming@[k]).target
                == pre.spec_nodes()[i].weight.sid());
            assert(pre.spec_nodes()[i].weight.sid() == tgt);
        }
        // post adjacency membership implies pre membership without the id
        assert forall|i: int| 0 <= i < pre.spec_nodes().len() implies {
            &&& (#[trigger] post.spec_nodes()[i]).outgoing@.no_duplicates()
            &&& post.spec_nodes()[i].incoming@.no_duplicates()
            &&& forall|x: usize|
                post.spec_nodes()[i].outgoing@.contains(x) ==> pre.spec_nodes()[i].outgoing@.contains(
                    x,
                ) && x != eid
            &&& forall|x: usize|
                post.spec_nodes()[i].incoming@.contains(x) ==> pre.spec_nodes()[i].incoming@.contains(
                    x,
                ) && x != eid
        } by {
            lemma_seq_without_props(pre.spec_nodes()[i].outgoing@, eid);
            lemma_seq_without_props(pre.spec_nodes()[i].incoming@, eid);
            assert forall|x: usize| (#[trigger] post.spec_nodes()[i].outgoing@.contains(x)) implies pre.spec_nodes()[i].outgoing@.contains(
                x,
            ) && x != eid by {
                if i == osi {
                    assert(seq_without(pre.spec_nodes()[i].outgoing@, eid).contains(x));
                } else {
                    if x == eid {
                        assert(pre.spec_nodes()[i].outgoing@.contains(eid));
                    }
                }
            }
            assert forall|x: usize| (#[trigger] post.spec_nodes()[i].incoming@.contains(x)) implies pre.spec_nodes()[i].incoming@.contains(
                x,
            ) && x != eid by {
                if i == oti {
                    assert(seq_without(pre.spec_nodes()[i].incoming@, eid).contains(x));
                } else {
                    if x == eid {
                        assert(pre.spec_nodes()[i].incoming@.contains(eid));
                    }
                }
            }
        }
        // endpoints of surviving edges are live
        assert forall|jj: int| 0 <= jj < post.spec_edges().len() implies post.spec_has_node(
            (#[trigger] post.spec_edges()[jj]).source,
        ) && post.spec_has_node(post.spec_edges()[jj].target) by {
            let pj = if jj < j {
                jj
            } else {
                jj + 1
            };
            assert(post.spec_edges()[jj] == pre.spec_edges()[pj]);
        }
        // adjacency soundness
        assert forall|i: int, k: int|
            0 <= i < post.spec_nodes().len() && 0 <= k < post.spec_nodes()[i].outgoing@.len() implies post.spec_has_edge(
            #[trigger] post.spec_nodes()[i].outgoing@[k],
        ) && post.edge_entry(post.spec_nodes()[i].outgoing@[k]).source
            == post.spec_nodes()[i].weight.sid() by {
            let x = post.spec_nodes()[i].outgoing@[k];
            assert(post.spec_nodes()[i].outgoing@.contains(x));
            assert(pre.spec_nodes()[i].outgoing@.contains(x) && x != eid);
            let kk = choose|kk: int|
                0 <= kk < pre.spec_nodes()[i].outgoing@.len() && pre.spec_nodes()[i].outgoing@[kk]
                    == x;
            assert(pre.spec_has_edge(x));
        }
        assert forall|i: int, k: int|
            0 <= i < post.spec_nodes().len() && 0 <= k < post.spec_nodes()[i].incoming@.len() implies post.spec_has_edge(
            #[trigger] post.spec_nodes()[i].incoming@[k],
        ) && post.edge_entry(post.spec_nodes()[i].incoming@[k]).target
            == post.spec_nodes()[i].weight.sid() by {
            let x = post.spec_nodes()[i].incoming@[k];
            assert(post.spec_nodes()[i].incoming@.contains(x));
            assert(pre.spec_nodes()[i].incoming@.contains(x) && x != eid);
            let kk = choose|kk: int|
                0 <= kk < pre.spec_nodes()[i].incoming@.len() && pre.spec_nodes()[i].incoming@[kk]
                    == x;
            assert(pre.spec_has_edge(x));
        }
        // every surviving edge stays registered at both endpoints
        assert forall|jj: int| 0 <= jj < post.spec_edges().len() implies post.node_entry(
            (#[trigger] post.spec_edges()[jj]).source,
        ).outgoing@.contains(post.spec_edges()[jj].weight.sid()) && post.node_entry(
            post.spec_edges()[jj].target,
        ).incoming@.contains(post.spec_edges()[jj].weight.sid()) by {
            let pj = if jj < j {
                jj
            } else {
                jj + 1
            };
            let e = pre.spec_edges()[pj];
            let x = e.weight.sid();
            assert(post.spec_edges()[jj] == e);
            assert(x != eid);
            pre.lemma_node_idx(e.source);
            pre.lemma_node_idx(e.target);
            let exi = pre.node_idx(e.source);
            let eyi = pre.node_idx(e.target);
            assert(pre.spec_nodes()[exi].outgoing@.contains(x));
            assert(post.spec_nodes()[exi].outgoing@.contains(x)) by {
                let k = choose|k: int|
                    0 <= k < pre.spec_nodes()[exi].outgoing@.len()
                        && pre.spec_nodes()[exi].outgoing@[k] == x;
                if exi == osi {
                    lemma_seq_without_props(pre.spec_nodes()[exi].outgoing@, eid);
                } else {
                    assert(post.spec_nodes()[exi].outgoing@[k] == x);
                }
            }
            assert(pre.spec_nodes()[eyi].incoming@.contains(x));
            assert(post.spec_nodes()[eyi].incoming@.contains(x)) by {
                let k = choose|k: int|
                    0 <= k < pre.spec_nodes()[eyi].incoming@.len()
                        && pre.spec_nodes()[eyi].incoming@[k] == x;
                if eyi == oti {
                    lemma_seq_without_props(pre.spec_nodes()[eyi].incoming@, eid);
                } else {
                    assert(post.spec_nodes()[eyi].incoming@[k] == x);
                }
            }
        }
        // schema validity of the survivors
        assert forall|jj: int| 0 <= jj < post.spec_edges().len() implies post.spec_schema().edge_type_allowed(
            (#[trigger] post.spec_edges()[jj]).weight.ty(),
            post.node_ty(post.spec_edges()[jj].source),
            post.node_ty(post.spec_edges()[jj].target),
        ) by {
            let pj = if jj < j {
                jj
            } else {
                jj + 1
            };
            assert(post.spec_edges()[jj] == pre.spec_edges()[pj]);
            assert(post.node_ty(pre.spec_edges()[pj].source) == pre.node_ty(
                pre.spec_edges()[pj].source,
            ));
            assert(post.node_ty(pre.spec_edges()[pj].target) == pre.node_ty(
                pre.spec_edges()[pj].target,
            ));
        }
        assert forall|i: int| 0 <= i < post.spec_nodes().len() implies post.spec_schema().node_allowed(
            (#[trigger] post.spec_nodes()[i]).weight.ty(),
        ) by {
            assert(post.spec_nodes()[i].weight == pre.spec_nodes()[i].weight);
        }
    }

    /// Remove an edge, deregistering it from both endpoints' adjacency sets.
    /// Returns the removed weight.
    pub fn remove_edge(&mut self, edge_id: usize) -> (r: SchemaResult<S::E, S>)
        requires
            old(self).wf(),
        ensures
            final(self).wf(),
            final(self).spec_schema() == old(self).spec_schema(),
            r is Err ==> *final(self) == *old(self) && r == SchemaResult::<S::E, S>::Err(
                TypedError::EdgeIdMissing(edge_id),
            ),
            r is Ok <==> old(self).spec_has_edge(edge_id),
            r matches Ok(w) ==> {
                &&& w == old(self).edge_entry(edge_id).weight
                &&& Self::edge_removed(*old(self), *final(self), edge_id)
                &&& forall|x: usize| #[trigger]
                    final(self).spec_has_edge(x) <==> (old(self).spec_has_edge(x) && x != edge_id)
            },
    {
        let j = match self.find_edge_idx(edge_id) {
            Some(j) => j,
            None => {
                return Err(TypedError::EdgeIdMissing(edge_id));
            },
        };
        let ghost pre = *self;
        proof {
            self.lemma_edge_idx(edge_id);
            assert(self.edge_idx(edge_id) == j as int);
        }
        let src = self.edges[j].source;
        let tgt = self.edges[j].target;
        let entry = self.edges.remove(j);
        let si = match self.find_node_idx(src) {
            Some(i) => i,
            None => {
                proof {
                    assert(pre.spec_edges()[j as int].source == src);
                    assert(pre.spec_has_node(src));
                    assert(false);
                }
                return Err(TypedError::InvalidInternalState);
            },
        };
        proof {
            pre.lemma_node_idx(src);
            assert(pre.node_idx(src) == si as int);
        }
        let sn = &mut self.nodes[si];
        remove_id(&mut sn.outgoing, edge_id);
        let ti = match self.find_node_idx(tgt) {
            Some(i) => i,
            None => {
                proof {
                    assert(pre.spec_edges()[j as int].target == tgt);
                    assert(pre.spec_has_node(tgt));
                    Self::lemma_node_lookup_preserved(pre, *self);
                    assert(false);
                }
                return Err(TypedError::InvalidInternalState);
            },
        };
        proof {
            pre.lemma_node_idx(tgt);
            assert(pre.node_idx(tgt) == ti as int);
        }
        let tn = &mut self.nodes[ti];
        remove_id(&mut tn.incoming, edge_id);
        proof {
            let src0 = pre.spec_edges()[pre.edge_idx(edge_id)].source;
            let tgt0 = pre.spec_edges()[pre.edge_idx(edge_id)].target;
            assert(pre.node_idx(src0) == si as int);
            assert(pre.node_idx(tgt0) == ti as int);
            assert forall|i: int| 0 <= i < pre.spec_nodes().len() implies (
            #[trigger] self.spec_nodes()[i]).outgoing@ == (if i == pre.node_idx(src0) {
                seq_without(pre.spec_nodes()[i].outgoing@, edge_id)
            } else {
                pre.spec_nodes()[i].outgoing@
            }) by {
                if i == si as int {
                    assert(self.spec_nodes()[i].outgoing@ == seq_without(
                        pre.spec_nodes()[i].outgoing@,
                        edge_id,
                    ));
                }
            }
            assert forall|i: int| 0 <= i < pre.spec_nodes().len() implies (
            #[trigger] self.spec_nodes()[i]).incoming@ == (if i == pre.node_idx(tgt0) {
                seq_without(pre.spec_nodes()[i].incoming@, edge_id)
            } else {
                pre.spec_nodes()[i].incoming@
            }) by {
                if i == ti as int {
                    assert(self.spec_nodes()[i].incoming@ == seq_without(
                        pre.spec_nodes()[i].incoming@,
                        edge_id,
                    ));
                }
            }
            assert(Self::edge_removed(pre, *self, edge_id));
            Self::lemma_edge_removed_wf(pre, *self, edge_id);
        }
        Ok(entry.weight)
    }

    /// What reordering does: one node's outgoing sequence is replaced, and
    /// nothing else moves.
    pub open spec fn outgoing_replaced(pre: Self, post: Self, sn: usize, new_out: Seq<usize>) -> bool {
        &&& post.spec_edges() == pre.spec_edges()
        &&& post.spec_nodes().len() == pre.spec_nodes().len()
        &&& forall|i: int|
            0 <= i < pre.spec_nodes().len() ==> (#[trigger] post.spec_nodes()[i]).weight
                == pre.spec_nodes()[i].weight
        &&& forall|i: int|
            0 <= i < pre.spec_nodes().len() ==> (#[trigger] post.spec_nodes()[i]).incoming
                == pre.spec_nodes()[i].incoming
        &&& forall|i: int|
            0 <= i < pre.spec_nodes().len() ==> (#[trigger] post.spec_nodes()[i]).outgoing@ == (
            if i == pre.node_idx(sn) {
                new_out
            } else {
                pre.spec_nodes()[i].outgoing@
            })
    }

    /// Replacing one node's outgoing order by a duplicate-free sequence with
    /// the same members preserves well-formedness.
    proof fn lemma_outgoing_replaced_wf(pre: Self, post: Self, sn: usize, new_out: Seq<usize>)
        requires
            pre.wf(),
            pre.spec_has_node(sn),
            Self::outgoing_replaced(pre, post, sn, new_out),
            post.spec_schema() == pre.spec_schema(),
            new_out.no_duplicates(),
            forall|y: usize| #[trigger]
                new_out.contains(y) <==> pre.node_entry(sn).outgoing@.contains(y),
        ensures
            post.wf(),
    {
        pre.lemma_node_idx(sn);
        let ni = pre.node_idx(sn);
        Self::lemma_node_lookup_preserved(pre, post);
        Self::lemma_edge_lookup_preserved(pre, post);
        assert forall|id: usize| pre.spec_has_node(id) implies #[trigger] post.node_entry(id).weight
            == pre.node_entry(id).weight by {
            pre.lemma_node_idx(id);
        }
        assert forall|id: usize| pre.spec_has_edge(id) implies #[trigger] post.edge_entry(id)
            == pre.edge_entry(id) by {
            pre.lemma_edge_idx(id);
        }
        assert forall|j: int| 0 <= j < post.spec_edges().len() implies post.spec_has_node(
            (#[trigger] post.spec_edges()[j]).source,
        ) && post.spec_has_node(post.spec_edges()[j].target) by {
            assert(post.spec_edges()[j] == pre.spec_edges()[j]);
        }
        assert forall|i: int, k: int|
            0 <= i < post.spec_nodes().len() && 0 <= k < post.spec_nodes()[i].outgoing@.len() implies post.spec_has_edge(
            #[trigger] post.spec_nodes()[i].outgoing@[k],
        ) && post.edge_entry(post.spec_nodes()[i].outgoing@[k]).source
            == post.spec_nodes()[i].weight.sid() by {
            let x = post.spec_nodes()[i].outgoing@[k];
            assert(post.spec_nodes()[i].outgoing@.contains(x));
            assert(pre.spec_nodes()[i].outgoing@.contains(x));
            let kk = choose|kk: int|
                0 <= kk < pre.spec_nodes()[i].outgoing@.len() && pre.spec_nodes()[i].outgoing@[kk]
                    == x;
            assert(pre.spec_has_edge(x));
        }
        assert forall|i: int, k: int|
            0 <= i < post.spec_nodes().len() && 0 <= k < post.spec_nodes()[i].incoming@.len() implies post.spec_has_edge(
            #[trigger] post.spec_nodes()[i].incoming@[k],
        ) && post.edge_entry(post.spec_nodes()[i].incoming@[k]).target
            == post.spec_nodes()[i].weight.sid() by {
            let x = post.spec_nodes()[i].incoming@[k];
            assert(pre.spec_nodes()[i].incoming@[k] == x);
            assert(pre.spec_has_edge(x));
        }
        assert forall|j: int| 0 <= j < post.spec_edges().len() implies post.node_entry(
            (#[trigger] post.spec_edges()[j]).source,
        ).outgoing@.contains(post.spec_edges()[j].weight.sid()) && post.node_entry(
            post.spec_edges()[j].target,
        ).incoming@.contains(post.spec_edges()[j].weight.sid()) by {
            let e = pre.spec_edges()[j];
            assert(post.spec_edges()[j] == e);
            pre.lemma_node_idx(e.source);
            pre.lemma_node_idx(e.target);
            assert(pre.node_entry(e.source).outgoing@.contains(e.weight.sid()));
            assert(pre.node_entry(e.target).incoming@.contains(e.weight.sid()));
        }
        assert forall|j: int| 0 <= j < post.spec_edges().len() implies post.spec_schema().edge_type_allowed(
            (#[trigger] post.spec_edges()[j]).weight.ty(),
            post.node_ty(post.spec_edges()[j].source),
            post.node_ty(post.spec_edges()[j].target),
        ) by {
            assert(post.spec_edges()[j] == pre.spec_edges()[j]);
            assert(post.node_ty(pre.spec_edges()[j].source) == pre.node_ty(
                pre.spec_edges()[j].source,
            ));
            assert(post.node_ty(pre.spec_edges()[j].target) == pre.node_ty(
                pre.spec_edges()[j].target,
            ));
        }
        assert forall|i: int| 0 <= i < post.spec_nodes().len() implies post.spec_schema().node_allowed(
            (#[trigger] post.spec_nodes()[i]).weight.ty(),
        ) by {
            assert(post.spec_nodes()[i].weight == pre.spec_nodes()[i].weight);
        }
    }

    /// The exact index-adjustment rule of a successful reorder: the moved
    /// edge leaves its current index `si` and lands at the target's index,
    /// adjusted by one so the move reads as "insert immediately before/after
    /// the target" and never goes past the end.
    pub open spec fn order_moved(
        pre: Self,
        post: Self,
        source_id: usize,
        target_id: usize,
        insert_position: InsertPosition,
    ) -> bool {
        let sn = pre.edge_entry(source_id).source;
        let out = pre.node_entry(sn).outgoing@;
        let si = pos_of(out, source_id);
        let ti0 = pos_of(out, target_id);
        let ti = (match insert_position {
            InsertPosition::After => if ti0 + 1 != out.len() && si > ti0 {
                ti0 + 1
            } else {
                ti0
            },
            InsertPosition::Before => if ti0 != 0 && si < ti0 {
                ti0 - 1
            } else {
                ti0
            },
        });
        Self::outgoing_replaced(pre, post, sn, out.remove(si).insert(ti, source_id))
    }

    /// Reorder one outgoing edge relative to a sibling with the same source.
    ///
    /// With `Before` the moved edge takes the target's current index unless
    /// moving left already lands there; with `After` it is placed one past
    /// the target's index unless moving right already lands there, and never
    /// past the end.  All edges in between shift by one position.
    pub fn move_edge_order(
        &mut self,
        source_id: usize,
        target_id: usize,
        insert_position: InsertPosition,
    ) -> (r: SchemaResult<(), S>)
        requires
            old(self).wf(),
        ensures
            final(self).wf(),
            final(self).spec_schema() == old(self).spec_schema(),
            r is Err ==> *final(self) == *old(self),
            source_id == target_id ==> r is Ok && *final(self) == *old(self),
            source_id != target_id && !old(self).spec_has_edge(source_id) ==> r
                == SchemaResult::<(), S>::Err(TypedError::MissingEdge(source_id)),
            source_id != target_id && old(self).spec_has_edge(source_id) && !old(
                self,
            ).spec_has_edge(target_id) ==> r == SchemaResult::<(), S>::Err(
                TypedError::MissingEdge(target_id),
            ),
            source_id != target_id && old(self).spec_has_edge(source_id) && old(
                self,
            ).spec_has_edge(target_id) && !old(self).node_entry(
                old(self).edge_entry(source_id).source,
            ).outgoing@.contains(target_id) ==> r == SchemaResult::<(), S>::Err(
                TypedError::InvalidEdgeMove(source_id, target_id),
            ),
            source_id != target_id && old(self).spec_has_edge(source_id) && old(
                self,
            ).spec_has_edge(target_id) && old(self).node_entry(
                old(self).edge_entry(source_id).source,
            ).outgoing@.contains(target_id) ==> r is Ok && Self::order_moved(
                *old(self),
                *final(self),
                source_id,
                target_id,
                insert_position,
            ),
    {
        if source_id == target_id {
            return Ok(());
        }
        let j_s = match self.find_edge_idx(source_id) {
            Some(j) => j,
            None => {
                return Err(TypedError::MissingEdge(source_id));
            },
        };
        match self.find_edge_idx(target_id) {
            Some(_) => {},
            None => {
                return Err(TypedError::MissingEdge(target_id));
            },
        }
        let ghost pre = *self;
        proof {
            self.lemma_edge_idx(source_id);
            assert(self.edge_idx(source_id) == j_s as int);
        }
        let sn_id = self.edges[j_s].source;
        let ni = match self.find_node_idx(sn_id) {
            Some(i) => i,
            None => {
                proof {
                    assert(pre.spec_edges()[j_s as int].source == sn_id);
                    assert(pre.spec_has_node(sn_id));
                    assert(false);
                }
                return Err(TypedError::InvalidInternalState);
            },
        };
        proof {
            pre.lemma_node_idx(sn_id);
            assert(pre.node_idx(sn_id) == ni as int);
            // the source edge is registered in its source's outgoing order
            assert(pre.node_entry(sn_id).outgoing@.contains(source_id));
        }
        if self.nodes[ni].outgoing.len() == 0 {
            proof {
                let k = choose|k: int|
                    0 <= k < pre.node_entry(sn_id).outgoing@.len() && pre.node_entry(
                        sn_id,
                    ).outgoing@[k] == source_id;
                assert(false);
            }
            return Err(TypedError::InvalidInternalState);
        }
        let ti0 = match find_pos(&self.nodes[ni].outgoing, target_id) {
            Some(k) => k,
            None => {
                return Err(TypedError::InvalidEdgeMove(source_id, target_id));
            },
        };
        let si = match find_pos(&self.nodes[ni].outgoing, source_id) {
            Some(k) => k,
            None => {
                proof {
                    assert(false);
                }
                return Err(TypedError::InvalidEdgeMove(source_id, target_id));
            },
        };
        let ghost out = pre.node_entry(sn_id).outgoing@;
        proof {
            assert(out.no_duplicates());
            lemma_pos_of(out, source_id, si as int);
            lemma_pos_of(out, target_id, ti0 as int);
        }
        let n = self.nodes[ni].outgoing.len();
        let mut ti = ti0;
        match insert_position {
            InsertPosition::After => {
                if ti + 1 != n && si > ti {
                    ti += 1;
                }
            },
            InsertPosition::Before => {
                if ti != 0 && si < ti {
                    ti -= 1;
                }
            },
        }
        let on = &mut self.nodes[ni];
        let moved = on.outgoing.remove(si);
        on.outgoing.insert(ti, moved);
        proof {
            let new_out = out.remove(si as int).insert(ti as int, source_id);
            lemma_move_membership(out, si as int, ti as int);
            assert(Self::outgoing_replaced(pre, *self, sn_id, new_out));
            Self::lemma_outgoing_replaced_wf(pre, *self, sn_id, new_out);
        }
        Ok(())
    }

    /// Whether the live edge `eid` touches the node with id `node_id`.
    pub open spec fn edge_incident(self, eid: usize, node_id: usize) -> bool {
        self.edge_entry(eid).source == node_id || self.edge_entry(eid).target == node_id
    }

    /// Whether one incident edge would still be accepted by the schema if the
    /// node `nid` took the type `nty`: the edge's endpoint types are read
    /// with the new type substituted, and the quantity is freshly counted as
    /// one more than the existing same-type, same-target-type outgoing edges
    /// of the edge's source (target types read from the store as it is).
    pub open spec fn retype_edge_ok(self, nid: usize, nty: <S::N as Typed>::Type, eid: usize) -> bool {
        let e = self.edge_entry(eid);
        let st = if e.source == nid {
            nty
        } else {
            self.node_ty(e.source)
        };
        let tt = if e.target == nid {
            nty
        } else {
            self.node_ty(e.target)
        };
        let q = self.spec_count_matching(e.source, e.weight.ty(), tt) + 1;
        self.spec_schema().edge_type_allowed(e.weight.ty(), st, tt)
            && self.spec_schema().edge_quantity_allowed(q, e.weight.ty(), st, tt)
    }

    /// The error reported for an incident edge that fails revalidation.
    pub open spec fn retype_edge_err(
        self,
        nid: usize,
        nty: <S::N as Typed>::Type,
        eid: usize,
    ) -> SchemaError<S> {
        let e = self.edge_entry(eid);
        let st = if e.source == nid {
            nty
        } else {
            self.node_ty(e.source)
        };
        let tt = if e.target == nid {
            nty
        } else {
            self.node_ty(e.target)
        };
        TypedError::InvalidEdgeType(
            e.weight.ty(),
            st,
            tt,
            if !self.spec_schema().edge_type_allowed(e.weight.ty(), st, tt) {
                DisAllowedEdge::InvalidType
            } else {
                DisAllowedEdge::ToMany
            },
        )
    }

    /// Whether every edge incident to `nid` survives a change to type `nty`.
    pub open spec fn retype_ok(self, nid: usize, nty: <S::N as Typed>::Type) -> bool {
        forall|eid: usize|
            #[trigger] self.spec_has_edge(eid) && self.edge_incident(eid, nid)
                ==> self.retype_edge_ok(nid, nty, eid)
    }

    /// What a fresh node insert does: the record is appended with empty
    /// adjacency sets and nothing else moves.
    pub open spec fn node_inserted(pre: Self, post: Self, w: S::N) -> bool {
        &&& post.spec_edges() == pre.spec_edges()
        &&& post.spec_nodes().len() == pre.spec_nodes().len() + 1
        &&& forall|i: int|
            0 <= i < pre.spec_nodes().len() ==> #[trigger] post.spec_nodes()[i]
                == pre.spec_nodes()[i]
        &&& post.spec_nodes()[pre.spec_nodes().len() as int].weight == w
        &&& post.spec_nodes()[pre.spec_nodes().len() as int].incoming@ == Seq::<usize>::empty()
        &&& post.spec_nodes()[pre.spec_nodes().len() as int].outgoing@ == Seq::<usize>::empty()
    }

    /// What an in-place weight replace does: only the weight of the record
    /// already carrying the id changes; adjacency and everything else stay.
    pub open spec fn node_weight_replaced(pre: Self, post: Self, w: S::N) -> bool {
        let ni = pre.node_idx(w.sid());
        &&& post.spec_edges() == pre.spec_edges()
        &&& post.spec_nodes().len() == pre.spec_nodes().len()
        &&& forall|i: int|
            0 <= i < pre.spec_nodes().len() && i != ni ==> #[trigger] post.spec_nodes()[i]
                == pre.spec_nodes()[i]
        &&& post.spec_nodes()[ni].weight == w
        &&& post.spec_nodes()[ni].incoming == pre.spec_nodes()[ni].incoming
        &&& post.spec_nodes()[ni].outgoing == pre.spec_nodes()[ni].outgoing
    }

    /// Appending a node with a fresh id leaves every existing node lookup in
    /// place and makes the new id resolvable.
    pub proof fn lemma_node_push_lookup(pre: Self, post: Self, w: S::N)
        requires
            pre.nodes_distinct(),
            !pre.spec_has_node(w.sid()),
            Self::node_inserted(pre, post, w),
        ensures
            post.nodes_distinct(),
            forall|id: usize| #[trigger]
                post.spec_has_node(id) <==> (pre.spec_has_node(id) || id == w.sid()),
            forall|id: usize|
                pre.spec_has_node(id) ==> #[trigger] post.node_idx(id) == pre.node_idx(id)
                    && post.node_entry(id) == pre.node_entry(id),
            post.node_idx(w.sid()) == pre.spec_nodes().len(),
            post.node_entry(w.sid()).weight == w,
    {
        let n = pre.spec_nodes().len() as int;
        assert forall|i: int, j: int| 0 <= i < j < post.spec_nodes().len() implies (
        #[trigger] post.spec_nodes()[i]).weight.sid() != (#[trigger] post.spec_nodes()[j]).weight.sid() by {
            if j < n {
            } else {
                assert(post.spec_nodes()[i].weight.sid() == pre.spec_nodes()[i].weight.sid());
            }
        }
        assert forall|id: usize| #[trigger]
            post.spec_has_node(id) <==> (pre.spec_has_node(id) || id == w.sid()) by {
            if pre.spec_has_node(id) {
                let i = pre.node_idx(id);
                pre.lemma_node_idx(id);
                assert(post.spec_nodes()[i].weight.sid() == id);
            }
            if id == w.sid() {
                assert(post.spec_nodes()[n].weight.sid() == id);
            }
            if post.spec_has_node(id) {
                let i = choose|i: int|
                    0 <= i < post.spec_nodes().len() && (#[trigger] post.spec_nodes()[i]).weight.sid()
                        == id;
                if i < n {
                    assert(pre.spec_nodes()[i].weight.sid() == id);
                }
            }
        }
        assert forall|id: usize| pre.spec_has_node(id) implies #[trigger] post.node_idx(id)
            == pre.node_idx(id) && post.node_entry(id) == pre.node_entry(id) by {
            pre.lemma_node_idx(id);
            post.lemma_node_idx(id);
            let i = pre.node_idx(id);
            assert(post.spec_nodes()[i].weight.sid() == id);
            assert(id != w.sid());
        }
        post.lemma_node_idx(w.sid());
        assert(post.spec_nodes()[n].weight.sid() == w.sid());
    }

    /// A fresh node insert preserves well-formedness.
    proof fn lemma_node_inserted_wf(pre: Self, post: Self, w: S::N)
        requires
            pre.wf(),
            pre.spec_nodes().len() < STORE_CAP,
            !pre.spec_has_node(w.sid()),
            pre.spec_schema().node_allowed(w.ty()),
            post.spec_schema() == pre.spec_schema(),
            Self::node_inserted(pre, post, w),
        ensures
            post.wf(),
    {
        let n = pre.spec_nodes().len() as int;
        Self::lemma_node_push_lookup(pre, post, w);
        Self::lemma_edge_lookup_preserved(pre, post);
        assert forall|id: usize| pre.spec_has_edge(id) implies #[trigger] post.edge_entry(id)
            == pre.edge_entry(id) by {
            pre.lemma_edge_idx(id);
        }
        assert forall|j: int| 0 <= j < post.spec_edges().len() implies post.spec_has_node(
            (#[trigger] post.spec_edges()[j]).source,
        ) && post.spec_has_node(post.spec_edges()[j].target) by {
            assert(post.spec_edges()[j] == pre.spec_edges()[j]);
        }
        assert forall|i: int, k: int|
            0 <= i < post.spec_nodes().len() && 0 <= k < post.spec_nodes()[i].outgoing@.len() implies post.spec_has_edge(
            #[trigger] post.spec_nodes()[i].outgoing@[k],
        ) && post.edge_entry(post.spec_nodes()[i].outgoing@[k]).source
            == post.spec_nodes()[i].weight.sid() by {
            assert(i < n);
            assert(post.spec_nodes()[i] == pre.spec_nodes()[i]);
            assert(pre.spec_has_edge(pre.spec_nodes()[i].outgoing@[k]));
        }
        assert forall|i: int, k: int|
            0 <= i < post.spec_nodes().len() && 0 <= k < post.spec_nodes()[i].incoming@.len() implies post.spec_has_edge(
            #[trigger] post.spec_nodes()[i].incoming@[k],
        ) && post.edge_entry(post.spec_nodes()[i].incoming@[k]).target
            == post.spec_nodes()[i].weight.sid() by {
            assert(i < n);
            assert(post.spec_nodes()[i] == pre.spec_nodes()[i]);
            assert(pre.spec_has_edge(pre.spec_nodes()[i].incoming@[k]));
        }
        assert forall|j: int| 0 <= j < post.spec_edges().len() implies post.node_entry(
            (#[trigger] post.spec_edges()[j]).source,
        ).outgoing@.contains(post.spec_edges()[j].weight.sid()) && post.node_entry(
            post.spec_edges()[j].target,
        ).incoming@.contains(post.spec_edges()[j].weight.sid()) by {
            let e = pre.spec_edges()[j];
            assert(post.spec_edges()[j] == e);
            pre.lemma_node_idx(e.source);
            pre.lemma_node_idx(e.target);
            assert(post.node_entry(e.source) == pre.node_entry(e.source));
            assert(post.node_entry(e.target) == pre.node_entry(e.target));
        }
        assert forall|j: int| 0 <= j < post.spec_edges().len() implies post.spec_schema().edge_type_allowed(
            (#[trigger] post.spec_edges()[j]).weight.ty(),
            post.node_ty(post.spec_edges()[j].source),
            post.node_ty(post.spec_edges()[j].target),
        ) by {
            assert(post.spec_edges()[j] == pre.spec_edges()[j]);
            assert(post.node_ty(pre.spec_edges()[j].source) == pre.node_ty(
                pre.spec_edges()[j].source,
            ));
            assert(post.node_ty(pre.spec_edges()[j].target) == pre.node_ty(
                pre.spec_edges()[j].target,
            ));
        }
        assert forall|i: int| 0 <= i < post.spec_nodes().len() implies post.spec_schema().node_allowed(
            (#[trigger] post.spec_nodes()[i]).weight.ty(),
        ) by {
            if i < n {
                assert(post.spec_nodes()[i].weight == pre.spec_nodes()[i].weight);
            } else {
                assert(post.spec_nodes()[i].weight == w);
            }
        }
    }

    /// Replacing a node's weight in place preserves well-formedness, given
    /// that the new type is accepted and either equals the old one or every
    /// incident edge revalidates under it.
    proof fn lemma_node_replaced_wf(pre: Self, post: Self, w: S::N)
        requires
            pre.wf(),
            pre.spec_has_node(w.sid()),
            pre.spec_schema().node_allowed(w.ty()),
            pre.node_ty(w.sid()) == w.ty() || pre.retype_ok(w.sid(), w.ty()),
            post.spec_schema() == pre.spec_schema(),
            Self::node_weight_replaced(pre, post, w),
        ensures
            post.wf(),
    {
        let nid = w.sid();
        pre.lemma_node_idx(nid);
        let ni = pre.node_idx(nid);
        Self::lemma_node_lookup_preserved(pre, post);
        Self::lemma_edge_lookup_preserved(pre, post);
        assert forall|id: usize| pre.spec_has_edge(id) implies #[trigger] post.edge_entry(id)
            == pre.edge_entry(id) by {
            pre.lemma_edge_idx(id);
        }
        // the type of every node other than `nid` is unchanged
        assert forall|id: usize| pre.spec_has_node(id) && id != nid implies #[trigger] post.node_ty(
            id,
        ) == pre.node_ty(id) by {
            pre.lemma_node_idx(id);
            assert(pre.node_idx(id) != ni);
        }
        assert(post.node_ty(nid) == w.ty());
        assert forall|j: int| 0 <= j < post.spec_edges().len() implies post.spec_has_node(
            (#[trigger] post.spec_edges()[j]).source,
        ) && post.spec_has_node(post.spec_edges()[j].target) by {
            assert(post.spec_edges()[j] == pre.spec_edges()[j]);
        }
        assert forall|i: int, k: int|
            0 <= i < post.spec_nodes().len() && 0 <= k < post.spec_nodes()[i].outgoing@.len() implies post.spec_has_edge(
            #[trigger] post.spec_nodes()[i].outgoing@[k],
        ) && post.edge_entry(post.spec_nodes()[i].outgoing@[k]).source
            == post.spec_nodes()[i].weight.sid() by {
            assert(post.spec_nodes()[i].outgoing@ == pre.spec_nodes()[i].outgoing@);
            assert(post.spec_nodes()[i].weight.sid() == pre.spec_nodes()[i].weight.sid());
            assert(pre.spec_has_edge(pre.spec_nodes()[i].outgoing@[k]));
        }
        assert forall|i: int, k: int|
            0 <= i < post.spec_nodes().len() && 0 <= k < post.spec_nodes()[i].incoming@.len() implies post.spec_has_edge(
            #[trigger] post.spec_nodes()[i].incoming@[k],
        ) && post.edge_entry(post.spec_nodes()[i].incoming@[k]).target
            == post.spec_nodes()[i].weight.sid() by {
            assert(post.spec_nodes()[i].incoming@ == pre.spec_nodes()[i].incoming@);
            assert(post.spec_nodes()[i].weight.sid() == pre.spec_nodes()[i].weight.sid());
            assert(pre.spec_has_edge(pre.spec_nodes()[i].incoming@[k]));
        }
        assert(post.adjacency_distinct()) by {
            assert forall|i: int| 0 <= i < post.spec_nodes().len() implies (
            #[trigger] post.spec_nodes()[i]).outgoing@.no_duplicates()
                && post.spec_nodes()[i].incoming@.no_duplicates() by {
                assert(post.spec_nodes()[i].outgoing@ == pre.spec_nodes()[i].outgoing@);
                assert(post.spec_nodes()[i].incoming@ == pre.spec_nodes()[i].incoming@);
            }
        }
        assert forall|j: int| 0 <= j < post.spec_edges().len() implies post.node_entry(
            (#[trigger] post.spec_edges()[j]).source,
        ).outgoing@.contains(post.spec_edges()[j].weight.sid()) && post.node_entry(
            post.spec_edges()[j].target,
        ).incoming@.contains(post.spec_edges()[j].weight.sid()) by {
            let e = pre.spec_edges()[j];
            assert(post.spec_edges()[j] == e);
            pre.lemma_node_idx(e.source);
            pre.lemma_node_idx(e.target);
            assert(post.node_entry(e.source).outgoing@ == pre.node_entry(e.source).outgoing@);
            assert(post.node_entry(e.target).incoming@ == pre.node_entry(e.target).incoming@);
        }
        // schema validity: incident edges revalidate, others are untouched
        assert forall|j: int| 0 <= j < post.spec_edges().len() implies post.spec_schema().edge_type_allowed(
            (#[trigger] post.spec_edges()[j]).weight.ty(),
            post.node_ty(post.spec_edges()[j].source),
            post.node_ty(post.spec_edges()[j].target),
        ) by {
            let e = pre.spec_edges()[j];
            let x = e.weight.sid();
            assert(post.spec_edges()[j] == e);
            pre.lemma_edge_idx(x);
            assert(pre.edge_idx(x) == j);
            assert(pre.edge_entry(x) == e);
            if e.source == nid || e.target == nid {
                assert(pre.spec_has_edge(x));
                assert(pre.edge_incident(x, nid));
                if pre.node_ty(nid) == w.ty() {
                    assert(post.node_ty(e.source) == pre.node_ty(e.source));
                    assert(post.node_ty(e.target) == pre.node_ty(e.target));
                } else {
                    assert(pre.retype_edge_ok(nid, w.ty(), x));
                }
            } else {
                assert(post.node_ty(e.source) == pre.node_ty(e.source));
                assert(post.node_ty(e.target) == pre.node_ty(e.target));
            }
        }
        assert forall|i: int| 0 <= i < post.spec_nodes().len() implies post.spec_schema().node_allowed(
            (#[trigger] post.spec_nodes()[i]).weight.ty(),
        ) by {
            if i != ni {
                assert(post.spec_nodes()[i].weight == pre.spec_nodes()[i].weight);
            } else {
                assert(post.spec_nodes()[i].weight == w);
            }
        }
    }

    /// Check every edge incident to the node stored at `ni` (id `nid`)
    /// against the schema, with the node's type replaced by `new_ty`.
    fn check_retype(&self, ni: usize, nid: usize, new_ty: <S::N as Typed>::Type) -> (r: Result<
        (),
        SchemaError<S>,
    >)
        requires
            self.wf(),
            ni < self.spec_nodes().len(),
            self.spec_nodes()[ni as int].weight.sid() == nid,
        ensures
            r is Ok <==> self.retype_ok(nid, new_ty),
            r is Err ==> exists|eid: usize|
                #[trigger] self.spec_has_edge(eid) && self.edge_incident(eid, nid)
                    && !self.retype_edge_ok(nid, new_ty, eid) && r == Result::<
                    (),
                    SchemaError<S>,
                >::Err(self.retype_edge_err(nid, new_ty, eid)),
    {
        proof {
            self.lemma_node_idx(nid);
            assert(self.node_idx(nid) == ni as int);
        }
        let inc_len = self.nodes[ni].incoming.len();
        let mut k: usize = 0;
        while k < inc_len
            invariant
                self.wf(),
                ni < self.spec_nodes().len(),
                self.spec_nodes()[ni as int].weight.sid() == nid,
                self.node_idx(nid) == ni as int,
                inc_len == self.spec_nodes()[ni as int].incoming@.len(),
                k <= inc_len,
                forall|p: int|
                    0 <= p < k ==> self.retype_edge_ok(
                        nid,
                        new_ty,
                        #[trigger] self.spec_nodes()[ni as int].incoming@[p],
                    ),
            decreases inc_len - k,
        {
            let eid = self.nodes[ni].incoming[k];
            match self.check_retype_edge(nid, eid, new_ty) {
                Ok(_) => {},
                Err(e) => {
                    proof {
                        assert(self.spec_has_edge(eid));
                        assert(self.edge_incident(eid, nid));
                    }
                    return Err(e);
                },
            }
            k += 1;
        }
        let out_len = self.nodes[ni].outgoing.len();
        let mut k2: usize = 0;
        while k2 < out_len
            invariant
                self.wf(),
                ni < self.spec_nodes().len(),
                self.spec_nodes()[ni as int].weight.sid() == nid,
                self.node_idx(nid) == ni as int,
                out_len == self.spec_nodes()[ni as int].outgoing@.len(),
                k2 <= out_len,
                forall|p: int|
                    0 <= p < self.spec_nodes()[ni as int].incoming@.len()
                        ==> self.retype_edge_ok(
                        nid,
                        new_ty,
                        #[trigger] self.spec_nodes()[ni as int].incoming@[p],
                    ),
                forall|p: int|
                    0 <= p < k2 ==> self.retype_edge_ok(
                        nid,
                        new_ty,
                        #[trigger] self.spec_nodes()[ni as int].outgoing@[p],
                    ),
            decreases out_len - k2,
        {
            let eid = self.nodes[ni].outgoing[k2];
            match self.check_retype_edge(nid, eid, new_ty) {
                Ok(_) => {},
                Err(e) => {
                    proof {
                        assert(self.spec_has_edge(eid));
                        assert(self.edge_incident(eid, nid));
                    }
                    return Err(e);
                },
            }
            k2 += 1;
        }
        proof {
            assert forall|eid: usize|
                #[trigger] self.spec_has_edge(eid) && self.edge_incident(eid, nid) implies self.retype_edge_ok(
                nid,
                new_ty,
                eid,
            ) by {
                self.lemma_edge_idx(eid);
                let j = self.edge_idx(eid);
                let e = self.spec_edges()[j];
                if e.source == nid {
                    assert(self.node_entry(e.source).outgoing@.contains(eid));
                    let p = choose|p: int|
                        0 <= p < self.spec_nodes()[ni as int].outgoing@.len()
                            && self.spec_nodes()[ni as int].outgoing@[p] == eid;
                    assert(self.retype_edge_ok(nid, new_ty, eid));
                } else {
                    assert(self.node_entry(e.target).incoming@.contains(eid));
                    let p = choose|p: int|
                        0 <= p < self.spec_nodes()[ni as int].incoming@.len()
                            && self.spec_nodes()[ni as int].incoming@[p] == eid;
                    assert(self.retype_edge_ok(nid, new_ty, eid));
                }
            }
        }
        Ok(())
    }

    /// Check a single incident edge, as `check_retype` does.
    fn check_retype_edge(&self, nid: usize, eid: usize, new_ty: <S::N as Typed>::Type) -> (r:
        Result<(), SchemaError<S>>)
        requires
            self.wf(),
            self.spec_has_edge(eid),
        ensures
            r is Ok <==> self.retype_edge_ok(nid, new_ty, eid),
            r is Err ==> r == Result::<(), SchemaError<S>>::Err(
                self.retype_edge_err(nid, new_ty, eid),
            ),
    {
        proof {
            self.lemma_edge_idx(eid);
        }
        let j = match self.find_edge_idx(eid) {
            Some(j) => j,
            None => {
                proof {
                    assert(false);
                }
                return Err(TypedError::InvalidInternalState);
            },
        };
        proof {
            assert(self.edge_idx(eid) == j as int);
        }
        let e_ty = self.edges[j].weight.get_type();
        let es = self.edges[j].source;
        let et = self.edges[j].target;
        proof {
            assert(self.spec_has_node(es));
            assert(self.spec_has_node(et));
        }
        let s_idx = match self.find_node_idx(es) {
            Some(i) => i,
            None => {
                proof {
                    assert(false);
                }
                return Err(TypedError::InvalidInternalState);
            },
        };
        let t_idx = match self.find_node_idx(et) {
            Some(i) => i,
            None => {
                proof {
                    assert(false);
                }
                return Err(TypedError::InvalidInternalState);
            },
        };
        proof {
            self.lemma_node_idx(es);
            self.lemma_node_idx(et);
            assert(self.node_idx(es) == s_idx as int);
            assert(self.node_idx(et) == t_idx as int);
        }
        let st = if es == nid {
            new_ty
        } else {
            self.nodes[s_idx].weight.get_type()
        };
        let tt = if et == nid {
            new_ty
        } else {
            self.nodes[t_idx].weight.get_type()
        };
        let quantity = self.count_matching(s_idx, &e_ty, &tt);
        proof {
            self.lemma_adjacency_bounded(s_idx as int);
            self.spec_nodes()[s_idx as int].outgoing@.lemma_filter_len(
                |x: usize| self.edge_matches(x, e_ty, tt),
            );
        }
        match self.schema.allow_edge(quantity + 1, e_ty, st, tt) {
            Ok(_) => Ok(()),
            Err(e) => Err(TypedError::InvalidEdgeType(e_ty, st, tt, e)),
        }
    }

    /// Add a node, or update the node already carrying the same logical id.
    ///
    /// A replacement that keeps the runtime type swaps the weight in place.
    /// A replacement that changes the type is committed only if every edge
    /// incident to the node still validates against the schema under the new
    /// type; any rejection aborts the whole call and leaves the store
    /// unmodified.
    pub fn add_node(&mut self, node: S::N) -> (r: SchemaResult<usize, S>)
        requires
            old(self).wf(),
            old(self).spec_nodes().len() < STORE_CAP,
        ensures
            final(self).wf(),
            final(self).spec_schema() == old(self).spec_schema(),
            r is Err ==> *final(self) == *old(self),
            r is Ok ==> r == Result::<usize, SchemaError<S>>::Ok(node.sid()),
            !old(self).spec_schema().node_allowed(node.ty()) ==> r == Result::<
                usize,
                SchemaError<S>,
            >::Err(TypedError::InvalidNodeType(node.ty(), DisAllowedNode::InvalidType)),
            old(self).spec_schema().node_allowed(node.ty()) && !old(self).spec_has_node(node.sid())
                ==> r is Ok && Self::node_inserted(*old(self), *final(self), node),
            old(self).spec_schema().node_allowed(node.ty()) && old(self).spec_has_node(node.sid())
                && (old(self).node_ty(node.sid()) == node.ty() || old(self).retype_ok(
                node.sid(),
                node.ty(),
            )) ==> r is Ok && Self::node_weight_replaced(*old(self), *final(self), node),
            old(self).spec_schema().node_allowed(node.ty()) && old(self).spec_has_node(node.sid())
                && old(self).node_ty(node.sid()) != node.ty() && !old(self).retype_ok(
                node.sid(),
                node.ty(),
            ) ==> r is Err && exists|eid: usize|
                #[trigger] old(self).spec_has_edge(eid) && old(self).edge_incident(eid, node.sid())
                    && !old(self).retype_edge_ok(node.sid(), node.ty(), eid) && r == Result::<
                    usize,
                    SchemaError<S>,
                >::Err(old(self).retype_edge_err(node.sid(), node.ty(), eid)),
    {
        let n_ty = node.get_type();
        match self.schema.allow_node(n_ty) {
            Err(e) => {
                return Err(TypedError::InvalidNodeType(n_ty, e));
            },
            Ok(_) => {},
        }
        let nid = node.get_id();
        match self.find_node_idx(nid) {
            None => {
                let ghost pre = *self;
                self.nodes.push(
                    NodeEntry { weight: node, incoming: Vec::new(), outgoing: Vec::new() },
                );
                proof {
                    assert(Self::node_inserted(pre, *self, node));
                    Self::lemma_node_inserted_wf(pre, *self, node);
                }
                Ok(nid)
            },
            Some(ni) => {
                proof {
                    self.lemma_node_idx(nid);
                    assert(self.node_idx(nid) == ni as int);
                }
                let old_ty = self.nodes[ni].weight.get_type();
                if !old_ty.type_eq(&n_ty) {
                    match self.check_retype(ni, nid, n_ty) {
                        Ok(_) => {},
                        Err(e) => {
                            return Err(e);
                        },
                    }
                }
                let ghost pre = *self;
                let en = &mut self.nodes[ni];
                en.weight = node;
                proof {
                    assert(Self::node_weight_replaced(pre, *self, node));
                    Self::lemma_node_replaced_wf(pre, *self, node);
                }
                Ok(nid)
            },
        }
    }

    /// The edge records that do not touch `node_id`, in order.
    pub open spec fn edges_avoiding(s: Seq<EdgeEntry<S::E>>, node_id: usize) -> Seq<
        EdgeEntry<S::E>,
    > {
        s.filter(|e: EdgeEntry<S::E>| e.source != node_id && e.target != node_id)
    }

    /// The adjacency entries whose edges do not touch `node_id`, in order.
    pub open spec fn adjacency_surviving(self, s: Seq<usize>, node_id: usize) -> Seq<usize> {
        s.filter(|y: usize| !self.edge_incident(y, node_id))
    }

    /// How `edges_avoiding` acts on a push.
    proof fn lemma_edges_avoiding_push(s: Seq<EdgeEntry<S::E>>, y: EdgeEntry<S::E>, node_id: usize)
        ensures
            Self::edges_avoiding(s.push(y), node_id) == (if y.source != node_id && y.target
                != node_id {
                Self::edges_avoiding(s, node_id).push(y)
            } else {
                Self::edges_avoiding(s, node_id)
            }),
    {
        reveal(Seq::filter);
        assert((s.push(y)).drop_last() =~= s);
        assert((s.push(y)).last() == y);
    }

    /// Membership and distinctness of `edges_avoiding`.
    proof fn lemma_edges_avoiding_props(s: Seq<EdgeEntry<S::E>>, node_id: usize)
        requires
            s.no_duplicates(),
        ensures
            Self::edges_avoiding(s, node_id).no_duplicates(),
            forall|e: EdgeEntry<S::E>| #[trigger]
                Self::edges_avoiding(s, node_id).contains(e) <==> (s.contains(e) && e.source
                    != node_id && e.target != node_id),
            Self::edges_avoiding(s, node_id).len() <= s.len(),
        decreases s.len(),
    {
        broadcast use vstd::seq_lib::group_seq_properties;

        if s.len() == 0 {
            assert(Self::edges_avoiding(s, node_id) =~= Seq::<EdgeEntry<S::E>>::empty()) by {
                reveal(Seq::filter);
            }
        } else {
            let dl = s.drop_last();
            let last = s.last();
            assert(dl.no_duplicates());
            Self::lemma_edges_avoiding_props(dl, node_id);
            assert(s =~= dl.push(last));
            Self::lemma_edges_avoiding_push(dl, last, node_id);
            assert(!dl.contains(last)) by {
                if dl.contains(last) {
                    let i = choose|i: int| 0 <= i < dl.len() && dl[i] == last;
                    assert(s[i] == s[s.len() - 1]);
                }
            }
            if last.source != node_id && last.target != node_id {
                assert(!Self::edges_avoiding(dl, node_id).contains(last));
            }
            assert forall|e: EdgeEntry<S::E>| #[trigger]
                Self::edges_avoiding(s, node_id).contains(e) <==> (s.contains(e) && e.source
                    != node_id && e.target != node_id) by {
                if last.source != node_id && last.target != node_id {
                    assert(Self::edges_avoiding(s, node_id) == Self::edges_avoiding(
                        dl,
                        node_id,
                    ).push(last));
                    assert(Self::edges_avoiding(s, node_id).contains(e) <==> (Self::edges_avoiding(
                        dl,
                        node_id,
                    ).contains(e) || e == last));
                    assert(s.contains(e) <==> (dl.contains(e) || e == last));
                } else {
                    assert(Self::edges_avoiding(s, node_id) == Self::edges_avoiding(dl, node_id));
                    assert(s.contains(e) <==> (dl.contains(e) || e == last));
                }
            }
        }
    }

    /// How `adjacency_surviving` acts on a push.
    proof fn lemma_adjacency_surviving_push(self, s: Seq<usize>, y: usize, node_id: usize)
        ensures
            self.adjacency_surviving(s.push(y), node_id) == (if !self.edge_incident(y, node_id) {
                self.adjacency_surviving(s, node_id).push(y)
            } else {
                self.adjacency_surviving(s, node_id)
            }),
    {
        reveal(Seq::filter);
        assert((s.push(y)).drop_last() =~= s);
        assert((s.push(y)).last() == y);
    }

    /// Membership and distinctness of `adjacency_surviving`.
    proof fn lemma_adjacency_surviving_props(self, s: Seq<usize>, node_id: usize)
        requires
            s.no_duplicates(),
        ensures
            self.adjacency_surviving(s, node_id).no_duplicates(),
            forall|y: usize| #[trigger]
                self.adjacency_surviving(s, node_id).contains(y) <==> (s.contains(y)
                    && !self.edge_incident(y, node_id)),
            self.adjacency_surviving(s, node_id).len() <= s.len(),
        decreases s.len(),
    {
        broadcast use vstd::seq_lib::group_seq_properties;

        if s.len() == 0 {
            assert(self.adjacency_surviving(s, node_id) =~= Seq::<usize>::empty()) by {
                reveal(Seq::filter);
            }
        } else {
            let dl = s.drop_last();
            let last = s.last();
            assert(dl.no_duplicates());
            self.lemma_adjacency_surviving_props(dl, node_id);
            assert(s =~= dl.push(last));
            self.lemma_adjacency_surviving_push(dl, last, node_id);
            assert(!dl.contains(last)) by {
                if dl.contains(last) {
                    let i = choose|i: int| 0 <= i < dl.len() && dl[i] == last;
                    assert(s[i] == s[s.len() - 1]);
                }
            }
            if !self.edge_incident(last, node_id) {
                assert(!self.adjacency_surviving(dl, node_id).contains(last));
            }
            assert forall|y: usize| #[trigger]
                self.adjacency_surviving(s, node_id).contains(y) <==> (s.contains(y)
                    && !self.edge_incident(y, node_id)) by {
                if !self.edge_incident(last, node_id) {
                    assert(self.adjacency_surviving(s, node_id) == self.adjacency_surviving(
                        dl,
                        node_id,
                    ).push(last));
                    assert(self.adjacency_surviving(s, node_id).contains(y) <==> (
                    self.adjacency_surviving(dl, node_id).contains(y) || y == last));
                    assert(s.contains(y) <==> (dl.contains(y) || y == last));
                } else {
                    assert(self.adjacency_surviving(s, node_id) == self.adjacency_surviving(
                        dl,
                        node_id,
                    ));
                    assert(s.contains(y) <==> (dl.contains(y) || y == last));
                }
            }
        }
    }

    /// What removing a node does: the record disappears, every incident edge
    /// record disappears, and every other node's adjacency sets are filtered
    /// down to the surviving edges (order kept).
    pub open spec fn node_removed(pre: Self, post: Self, node_id: usize) -> bool {
        let ni = pre.node_idx(node_id);
        &&& post.spec_edges() == Self::edges_avoiding(pre.spec_edges(), node_id)
        &&& post.spec_nodes().len() == pre.spec_nodes().len() - 1
        &&& forall|i: int|
            0 <= i < post.spec_nodes().len() ==> (#[trigger] post.spec_nodes()[i]).weight == (
            if i < ni {
                pre.spec_nodes()[i].weight
            } else {
                pre.spec_nodes()[i + 1].weight
            })
        &&& forall|i: int|
            0 <= i < post.spec_nodes().len() ==> (#[trigger] post.spec_nodes()[i]).outgoing@ == (
            if i < ni {
                pre.adjacency_surviving(pre.spec_nodes()[i].outgoing@, node_id)
            } else {
                pre.adjacency_surviving(pre.spec_nodes()[i + 1].outgoing@, node_id)
            })
        &&& forall|i: int|
            0 <= i < post.spec_nodes().len() ==> (#[trigger] post.spec_nodes()[i]).incoming@ == (
            if i < ni {
                pre.adjacency_surviving(pre.spec_nodes()[i].incoming@, node_id)
            } else {
                pre.adjacency_surviving(pre.spec_nodes()[i + 1].incoming@, node_id)
            })
    }

    /// Removing a node preserves well-formedness; the surviving nodes and
    /// edges are exactly the old ones that were not removed, unchanged.
    proof fn lemma_node_removed_wf(pre: Self, post: Self, node_id: usize)
        requires
            pre.wf(),
            pre.spec_has_node(node_id),
            post.spec_schema() == pre.spec_schema(),
            Self::node_removed(pre, post, node_id),
        ensures
            post.wf(),
            forall|x: usize| #[trigger]
                post.spec_has_node(x) <==> (pre.spec_has_node(x) && x != node_id),
            forall|x: usize| #[trigger]
                post.spec_has_edge(x) <==> (pre.spec_has_edge(x) && !pre.edge_incident(
                    x,
                    node_id,
                )),
            forall|x: usize|
                post.spec_has_edge(x) ==> #[trigger] post.edge_entry(x) == pre.edge_entry(x),
            forall|x: usize|
                post.spec_has_node(x) ==> #[trigger] post.node_entry(x).weight == pre.node_entry(
                    x,
                ).weight,
    {
        pre.lemma_node_idx(node_id);
        let ni = pre.node_idx(node_id);
        let n = pre.spec_nodes().len() as int;
        // node lookups across the index shift
        assert forall|x: usize| #[trigger]
            post.spec_has_node(x) <==> (pre.spec_has_node(x) && x != node_id) by {
            if pre.spec_has_node(x) && x != node_id {
                pre.lemma_node_idx(x);
                let i = pre.node_idx(x);
                assert(i != ni);
                if i < ni {
                    assert(post.spec_nodes()[i].weight.sid() == x);
                } else {
                    assert(post.spec_nodes()[i - 1].weight.sid() == x);
                }
            }
            if post.spec_has_node(x) {
                let i = choose|i: int|
                    0 <= i < post.spec_nodes().len() && (#[trigger] post.spec_nodes()[i]).weight.sid()
                        == x;
                if i < ni {
                    assert(pre.spec_nodes()[i].weight.sid() == x);
                    assert(i != ni);
                } else {
                    assert(pre.spec_nodes()[i + 1].weight.sid() == x);
                }
            }
        }
        assert(post.nodes_distinct()) by {
            assert forall|a: int, b: int| 0 <= a < b < post.spec_nodes().len() implies (
            #[trigger] post.spec_nodes()[a]).weight.sid() != (
            #[trigger] post.spec_nodes()[b]).weight.sid() by {
                let pa = if a < ni {
                    a
                } else {
                    a + 1
                };
                let pb = if b < ni {
                    b
                } else {
                    b + 1
                };
                assert(post.spec_nodes()[a].weight.sid() == pre.spec_nodes()[pa].weight.sid());
                assert(post.spec_nodes()[b].weight.sid() == pre.spec_nodes()[pb].weight.sid());
            }
        }
        // surviving node entries
        assert forall|x: usize| post.spec_has_node(x) implies {
            &&& #[trigger] post.node_entry(x).weight == pre.node_entry(x).weight
            &&& post.node_entry(x).outgoing@ == pre.adjacency_surviving(
                pre.node_entry(x).outgoing@,
                node_id,
            )
            &&& post.node_entry(x).incoming@ == pre.adjacency_surviving(
                pre.node_entry(x).incoming@,
                node_id,
            )
        } by {
            pre.lemma_node_idx(x);
            post.lemma_node_idx(x);
            let i = pre.node_idx(x);
            let i2 = post.node_idx(x);
            if i2 < ni {
                assert(post.spec_nodes()[i2].weight.sid() == pre.spec_nodes()[i2].weight.sid());
                assert(i2 == i);
            } else {
                assert(post.spec_nodes()[i2].weight.sid() == pre.spec_nodes()[i2 + 1].weight.sid());
                assert(i2 + 1 == i);
            }
        }
        // edge lookups across the filter
        assert(pre.spec_edges().no_duplicates()) by {
            assert forall|a: int, b: int| 0 <= a < b < pre.spec_edges().len() implies pre.spec_edges()[a]
                != pre.spec_edges()[b] by {
                assert(pre.spec_edges()[a].weight.sid() != pre.spec_edges()[b].weight.sid());
            }
        }
        Self::lemma_edges_avoiding_props(pre.spec_edges(), node_id);
        assert forall|x: usize| #[trigger]
            post.spec_has_edge(x) <==> (pre.spec_has_edge(x) && !pre.edge_incident(
                x,
                node_id,
            )) by {
            if post.spec_has_edge(x) {
                let i = choose|i: int|
                    0 <= i < post.spec_edges().len() && (#[trigger] post.spec_edges()[i]).weight.sid()
                        == x;
                let e = post.spec_edges()[i];
                assert(post.spec_edges().contains(e));
                assert(pre.spec_edges().contains(e) && e.source != node_id && e.target != node_id);
                let pj = choose|pj: int|
                    0 <= pj < pre.spec_edges().len() && pre.spec_edges()[pj] == e;
                assert(pre.spec_has_edge(x));
                pre.lemma_edge_idx(x);
                assert(pre.edge_idx(x) == pj);
                assert(pre.edge_entry(x) == e);
            }
            if pre.spec_has_edge(x) && !pre.edge_incident(x, node_id) {
                pre.lemma_edge_idx(x);
                let j = pre.edge_idx(x);
                let e = pre.spec_edges()[j];
                assert(pre.spec_edges().contains(e));
                assert(post.spec_edges().contains(e));
                let i = choose|i: int| 0 <= i < post.spec_edges().len() && post.spec_edges()[i] == e;
                assert(post.spec_edges()[i].weight.sid() == x);
            }
        }
        assert(post.edges_distinct()) by {
            assert forall|a: int, b: int| 0 <= a < b < post.spec_edges().len() implies (
            #[trigger] post.spec_edges()[a]).weight.sid() != (
            #[trigger] post.spec_edges()[b]).weight.sid() by {
                let ea = post.spec_edges()[a];
                let eb = post.spec_edges()[b];
                assert(post.spec_edges().no_duplicates());
                assert(ea != eb);
                assert(post.spec_edges().contains(ea));
                assert(post.spec_edges().contains(eb));
                assert(pre.spec_edges().contains(ea));
                assert(pre.spec_edges().contains(eb));
                let pa = choose|pa: int|
                    0 <= pa < pre.spec_edges().len() && pre.spec_edges()[pa] == ea;
                let pb = choose|pb: int|
                    0 <= pb < pre.spec_edges().len() && pre.spec_edges()[pb] == eb;
                if ea.weight.sid() == eb.weight.sid() {
                    assert(pa != pb ==> pre.spec_edges()[pa].weight.sid()
                        != pre.spec_edges()[pb].weight.sid());
                    assert(pa == pb);
                    assert(false);
                }
            }
        }
        assert forall|x: usize| post.spec_has_edge(x) implies #[trigger] post.edge_entry(x)
            == pre.edge_entry(x) by {
            post.lemma_edge_idx(x);
            pre.lemma_edge_idx(x);
            let i = post.edge_idx(x);
            let e = post.spec_edges()[i];
            assert(post.spec_edges().contains(e));
            assert(pre.spec_edges().contains(e));
            let pj = choose|pj: int| 0 <= pj < pre.spec_edges().len() && pre.spec_edges()[pj] == e;
            assert(pre.spec_edges()[pj].weight.sid() == x);
            assert(pj == pre.edge_idx(x));
        }
        // endpoints of surviving edges are live
        assert forall|j: int| 0 <= j < post.spec_edges().len() implies post.spec_has_node(
            (#[trigger] post.spec_edges()[j]).source,
        ) && post.spec_has_node(post.spec_edges()[j].target) by {
            let e = post.spec_edges()[j];
            let x = e.weight.sid();
            assert(post.spec_edges().contains(e));
            assert(pre.spec_edges().contains(e) && e.source != node_id && e.target != node_id);
            let pj = choose|pj: int| 0 <= pj < pre.spec_edges().len() && pre.spec_edges()[pj] == e;
            assert(pre.spec_has_node(e.source));
            assert(pre.spec_has_node(e.target));
        }
        // adjacency soundness of the survivors
        assert forall|i: int, k: int|
            0 <= i < post.spec_nodes().len() && 0 <= k < post.spec_nodes()[i].outgoing@.len() implies post.spec_has_edge(
            #[trigger] post.spec_nodes()[i].outgoing@[k],
        ) && post.edge_entry(post.spec_nodes()[i].outgoing@[k]).source
            == post.spec_nodes()[i].weight.sid() by {
            let pi = if i < ni {
                i
            } else {
                i + 1
            };
            let x = post.spec_nodes()[i].outgoing@[k];
            pre.lemma_adjacency_surviving_props(pre.spec_nodes()[pi].outgoing@, node_id);
            assert(post.spec_nodes()[i].outgoing@.contains(x));
            assert(pre.spec_nodes()[pi].outgoing@.contains(x) && !pre.edge_incident(x, node_id));
            let kk = choose|kk: int|
                0 <= kk < pre.spec_nodes()[pi].outgoing@.len() && pre.spec_nodes()[pi].outgoing@[kk]
                    == x;
            assert(pre.spec_has_edge(x));
            assert(post.spec_nodes()[i].weight.sid() == pre.spec_nodes()[pi].weight.sid());
        }
        assert forall|i: int, k: int|
            0 <= i < post.spec_nodes().len() && 0 <= k < post.spec_nodes()[i].incoming@.len() implies post.spec_has_edge(
            #[trigger] post.spec_nodes()[i].incoming@[k],
        ) && post.edge_entry(post.spec_nodes()[i].incoming@[k]).target
            == post.spec_nodes()[i].weight.sid() by {
            let pi = if i < ni {
                i
            } else {
                i + 1
            };
            let x = post.spec_nodes()[i].incoming@[k];
            pre.lemma_adjacency_surviving_props(pre.spec_nodes()[pi].incoming@, node_id);
            assert(post.spec_nodes()[i].incoming@.contains(x));
            assert(pre.spec_nodes()[pi].incoming@.contains(x) && !pre.edge_incident(x, node_id));
            let kk = choose|kk: int|
                0 <= kk < pre.spec_nodes()[pi].incoming@.len() && pre.spec_nodes()[pi].incoming@[kk]
                    == x;
            assert(pre.spec_has_edge(x));
            assert(post.spec_nodes()[i].weight.sid() == pre.spec_nodes()[pi].weight.sid());
        }
        assert(post.adjacency_distinct()) by {
            assert forall|i: int| 0 <= i < post.spec_nodes().len() implies (
            #[trigger] post.spec_nodes()[i]).outgoing@.no_duplicates()
                && post.spec_nodes()[i].incoming@.no_duplicates() by {
                let pi = if i < ni {
                    i
                } else {
                    i + 1
                };
                pre.lemma_adjacency_surviving_props(pre.spec_nodes()[pi].outgoing@, node_id);
                pre.lemma_adjacency_surviving_props(pre.spec_nodes()[pi].incoming@, node_id);
            }
        }
        // surviving edges stay registered at both endpoints
        assert forall|j: int| 0 <= j < post.spec_edges().len() implies post.node_entry(
            (#[trigger] post.spec_edges()[j]).source,
        ).outgoing@.contains(post.spec_edges()[j].weight.sid()) && post.node_entry(
            post.spec_edges()[j].target,
        ).incoming@.contains(post.spec_edges()[j].weight.sid()) by {
            let e = post.spec_edges()[j];
            let x = e.weight.sid();
            assert(post.spec_edges().contains(e));
            assert(pre.spec_edges().contains(e) && e.source != node_id && e.target != node_id);
            let pj = choose|pj: int| 0 <= pj < pre.spec_edges().len() && pre.spec_edges()[pj] == e;
            assert(pre.spec_edges()[pj].weight.sid() == x);
            pre.lemma_edge_idx(x);
            assert(pre.edge_idx(x) == pj);
            assert(pre.edge_entry(x) == e);
            assert(!pre.edge_incident(x, node_id));
            assert(pre.node_entry(e.source).outgoing@.contains(x));
            assert(pre.node_entry(e.target).incoming@.contains(x));
            pre.lemma_adjacency_surviving_props(pre.node_entry(e.source).outgoing@, node_id);
            pre.lemma_adjacency_surviving_props(pre.node_entry(e.target).incoming@, node_id);
            assert(post.node_entry(e.source).outgoing@ == pre.adjacency_surviving(
                pre.node_entry(e.source).outgoing@,
                node_id,
            ));
            assert(post.node_entry(e.target).incoming@ == pre.adjacency_surviving(
                pre.node_entry(e.target).incoming@,
                node_id,
            ));
        }
        // schema validity of the survivors
        assert forall|j: int| 0 <= j < post.spec_edges().len() implies post.spec_schema().edge_type_allowed(
            (#[trigger] post.spec_edges()[j]).weight.ty(),
            post.node_ty(post.spec_edges()[j].source),
            post.node_ty(post.spec_edges()[j].target),
        ) by {
            let e = post.spec_edges()[j];
            let x = e.weight.sid();
            assert(post.spec_edges().contains(e));
            assert(pre.spec_edges().contains(e) && e.source != node_id && e.target != node_id);
            let pj = choose|pj: int| 0 <= pj < pre.spec_edges().len() && pre.spec_edges()[pj] == e;
            assert(post.node_ty(e.source) == pre.node_ty(e.source));
            assert(post.node_ty(e.target) == pre.node_ty(e.target));
            assert(pre.spec_schema().edge_type_allowed(
                e.weight.ty(),
                pre.node_ty(e.source),
                pre.node_ty(e.target),
            ));
        }
        assert forall|i: int| 0 <= i < post.spec_nodes().len() implies post.spec_schema().node_allowed(
            (#[trigger] post.spec_nodes()[i]).weight.ty(),
        ) by {
            let pi = if i < ni {
                i
            } else {
                i + 1
            };
            assert(post.spec_nodes()[i].weight == pre.spec_nodes()[pi].weight);
        }
        assert(post.sizes_ok());
    }

    /// The adjacency entries of `v` whose edges do not touch `node_id`.
    fn filter_adj(&self, v: &Vec<usize>, node_id: usize) -> (r: Vec<usize>)
        requires
            self.wf(),
            forall|k: int| 0 <= k < v@.len() ==> self.spec_has_edge(#[trigger] v@[k]),
        ensures
            r@ == self.adjacency_surviving(v@, node_id),
    {
        let n = v.len();
        let mut out: Vec<usize> = Vec::new();
        let mut k: usize = 0;
        while k < n
            invariant
                self.wf(),
                n == v@.len(),
                k <= n,
                forall|p: int| 0 <= p < n ==> self.spec_has_edge(#[trigger] v@[p]),
                out@ == self.adjacency_surviving(v@.take(k as int), node_id),
            decreases n - k,
        {
            let eid = v[k];
            proof {
                self.lemma_edge_idx(eid);
                assert(v@.take(k + 1) =~= v@.take(k as int).push(v@[k as int]));
                self.lemma_adjacency_surviving_push(v@.take(k as int), v@[k as int], node_id);
            }
            let j = match self.find_edge_idx(eid) {
                Some(j) => j,
                None => {
                    proof {
                        assert(false);
                    }
                    return out;
                },
            };
            proof {
                assert(self.edge_idx(eid) == j as int);
            }
            if self.edges[j].source != node_id && self.edges[j].target != node_id {
                out.push(eid);
            }
            k += 1;
        }
        proof {
            assert(v@.take(n as int) =~= v@);
        }
        out
    }

    /// Remove a node and every edge incident to it.  Each surviving node's
    /// adjacency sets keep their order.  Returns the removed weight.
    pub fn remove_node(&mut self, node_id: usize) -> (r: SchemaResult<S::N, S>)
        requires
            old(self).wf(),
        ensures
            final(self).wf(),
            final(self).spec_schema() == old(self).spec_schema(),
            r is Err ==> *final(self) == *old(self) && r == SchemaResult::<S::N, S>::Err(
                TypedError::NodeIdMissing(node_id),
            ),
            r is Ok <==> old(self).spec_has_node(node_id),
            r matches Ok(w) ==> {
                &&& w == old(self).node_entry(node_id).weight
                &&& Self::node_removed(*old(self), *final(self), node_id)
                &&& forall|x: usize| #[trigger]
                    final(self).spec_has_node(x) <==> (old(self).spec_has_node(x) && x != node_id)
                &&& forall|x: usize| #[trigger]
                    final(self).spec_has_edge(x) <==> (old(self).spec_has_edge(x) && !old(
                        self,
                    ).edge_incident(x, node_id))
            },
    {
        let ni = match self.find_node_idx(node_id) {
            Some(i) => i,
            None => {
                return Err(TypedError::NodeIdMissing(node_id));
            },
        };
        let ghost pre = *self;
        proof {
            self.lemma_node_idx(node_id);
            assert(self.node_idx(node_id) == ni as int);
        }
        // surviving edge records, in order
        let ne = self.edges.len();
        let mut new_edges: Vec<EdgeEntry<S::E>> = Vec::new();
        let mut k: usize = 0;
        while k < ne
            invariant
                *self == pre,
                ne == pre.spec_edges().len(),
                k <= ne,
                new_edges@ == Self::edges_avoiding(pre.spec_edges().take(k as int), node_id),
            decreases ne - k,
        {
            proof {
                assert(pre.spec_edges().take(k + 1) =~= pre.spec_edges().take(k as int).push(
                    pre.spec_edges()[k as int],
                ));
                Self::lemma_edges_avoiding_push(
                    pre.spec_edges().take(k as int),
                    pre.spec_edges()[k as int],
                    node_id,
                );
            }
            if self.edges[k].source != node_id && self.edges[k].target != node_id {
                let w = self.edges[k].weight.dup();
                let s = self.edges[k].source;
                let t = self.edges[k].target;
                new_edges.push(EdgeEntry { weight: w, source: s, target: t });
                proof {
                    assert(EdgeEntry { weight: w, source: s, target: t } == pre.spec_edges()[
                        k as int
                    ]);
                }
            }
            k += 1;
        }
        proof {
            assert(pre.spec_edges().take(ne as int) =~= pre.spec_edges());
        }
        // surviving node records, in order, with filtered adjacency
        let nn = self.nodes.len();
        let mut new_nodes: Vec<NodeEntry<S::N>> = Vec::new();
        let mut i: usize = 0;
        while i < nn
            invariant
                *self == pre,
                pre.wf(),
                ni < nn,
                nn == pre.spec_nodes().len(),
                i <= nn,
                new_nodes@.len() == (if i <= ni {
                    i as int
                } else {
                    i - 1
                }),
                forall|p: int|
                    0 <= p < new_nodes@.len() ==> (#[trigger] new_nodes@[p]).weight == (if p < ni {
                        pre.spec_nodes()[p].weight
                    } else {
                        pre.spec_nodes()[p + 1].weight
                    }),
                forall|p: int|
                    0 <= p < new_nodes@.len() ==> (#[trigger] new_nodes@[p]).outgoing@ == (if p
                        < ni {
                        pre.adjacency_surviving(pre.spec_nodes()[p].outgoing@, node_id)
                    } else {
                        pre.adjacency_surviving(pre.spec_nodes()[p + 1].outgoing@, node_id)
                    }),
                forall|p: int|
                    0 <= p < new_nodes@.len() ==> (#[trigger] new_nodes@[p]).incoming@ == (if p
                        < ni {
                        pre.adjacency_surviving(pre.spec_nodes()[p].incoming@, node_id)
                    } else {
                        pre.adjacency_surviving(pre.spec_nodes()[p + 1].incoming@, node_id)
                    }),
            decreases nn - i,
        {
            if i != ni {
                proof {
                    assert forall|k2: int|
                        0 <= k2 < pre.spec_nodes()[i as int].outgoing@.len() implies pre.spec_has_edge(
                        #[trigger] pre.spec_nodes()[i as int].outgoing@[k2],
                    ) by {}
                    assert forall|k2: int|
                        0 <= k2 < pre.spec_nodes()[i as int].incoming@.len() implies pre.spec_has_edge(
                        #[trigger] pre.spec_nodes()[i as int].incoming@[k2],
                    ) by {}
                }
                let w = self.nodes[i].weight.dup();
                let og = self.filter_adj(&self.nodes[i].outgoing, node_id);
                let ic = self.filter_adj(&self.nodes[i].incoming, node_id);
                new_nodes.push(NodeEntry { weight: w, incoming: ic, outgoing: og });
            }
            i += 1;
        }
        let removed = self.nodes[ni].weight.dup();
        self.nodes = new_nodes;
        self.edges = new_edges;
        proof {
            assert(Self::node_removed(pre, *self, node_id));
            Self::lemma_node_removed_wf(pre, *self, node_id);
        }
        Ok(removed)
    }

    /// Build an empty store governed by the given schema.
    pub fn new(schema: S) -> (r: TypedGraph<S>)
        ensures
            r.wf(),
            r.spec_nodes() =~= Seq::<NodeEntry<S::N>>::empty(),
            r.spec_edges() =~= Seq::<EdgeEntry<S::E>>::empty(),
            r.spec_schema() == schema,
    {
        TypedGraph { nodes: Vec::new(), edges: Vec::new(), schema }
    }

    /// The active schema.
    pub fn get_schema(&self) -> (r: &S)
        ensures
            *r == self.spec_schema(),
    {
        &self.schema
    }

    /// The number of live nodes.
    pub fn node_count(&self) -> (r: usize)
        ensures
            r == self.spec_nodes().len(),
    {
        self.nodes.len()
    }

    /// The number of live edges.
    pub fn edge_count(&self) -> (r: usize)
        ensures
            r == self.spec_edges().len(),
    {
        self.edges.len()
    }

    /// Storage index of the node carrying `node_id`, if any.
    fn find_node_idx(&self, node_id: usize) -> (r: Option<usize>)
        ensures
            match r {
                Some(i) => i < self.spec_nodes().len() && self.spec_nodes()[i as int].weight.sid()
                    == node_id,
                None => !self.spec_has_node(node_id),
            },
    {
        let n = self.nodes.len();
        let mut i: usize = 0;
        while i < n
            invariant
                n == self.spec_nodes().len(),
                i <= n,
                forall|k: int| 0 <= k < i ==> (#[trigger] self.spec_nodes()[k]).weight.sid() != node_id,
            decreases n - i,
        {
            if self.nodes[i].weight.get_id() == node_id {
                return Some(i);
            }
            i += 1;
        }
        None
    }

    /// Storage index of the edge carrying `edge_id`, if any.
    fn find_edge_idx(&self, edge_id: usize) -> (r: Option<usize>)
        ensures
            match r {
                Some(i) => i < self.spec_edges().len() && self.spec_edges()[i as int].weight.sid()
                    == edge_id,
                None => !self.spec_has_edge(edge_id),
            },
    {
        let n = self.edges.len();
        let mut i: usize = 0;
        while i < n
            invariant
                n == self.spec_edges().len(),
                i <= n,
                forall|k: int| 0 <= k < i ==> (#[trigger] self.spec_edges()[k]).weight.sid() != edge_id,
            decreases n - i,
        {
            if self.edges[i].weight.get_id() == edge_id {
                return Some(i);
            }
            i += 1;
        }
        None
    }

    /// Whether a live node carries the given id.
    pub fn has_node(&self, node_id: usize) -> (r: bool)
        ensures
            r == self.spec_has_node(node_id),
    {
        self.find_node_idx(node_id).is_some()
    }

    /// Whether a live edge carries the given id.
    pub fn has_edge(&self, edge_id: usize) -> (r: bool)
        ensures
            r == self.spec_has_edge(edge_id),
    {
        self.find_edge_idx(edge_id).is_some()
    }

    /// Look up a node weight by id; absent ids are reported, not invented.
    pub fn get_node_safe(&self, node_id: usize) -> (r: Option<&S::N>)
        requires
            self.nodes_distinct(),
        ensures
            match r {
                Some(w) => self.spec_has_node(node_id) && *w == self.node_entry(node_id).weight,
                None => !self.spec_has_node(node_id),
            },
    {
        match self.find_node_idx(node_id) {
            Some(i) => {
                proof {
                    self.lemma_node_idx(node_id);
                }
                Some(&self.nodes[i].weight)
            },
            None => None,
        }
    }

    /// Look up an edge weight by id; absent ids are reported, not invented.
    pub fn get_edge_safe(&self, edge_id: usize) -> (r: Option<&S::E>)
        requires
            self.edges_distinct(),
        ensures
            match r {
                Some(w) => self.spec_has_edge(edge_id) && *w == self.edge_entry(edge_id).weight,
                None => !self.spec_has_edge(edge_id),
            },
    {
        match self.find_edge_idx(edge_id) {
            Some(i) => {
                proof {
                    self.lemma_edge_idx(edge_id);
                }
                Some(&self.edges[i].weight)
            },
            None => None,
        }
    }

    /// Look up a node weight by id, failing with `MissingNode` if absent.
    pub fn get_node(&self, node_id: usize) -> (r: SchemaResult<&S::N, S>)
        requires
            self.nodes_distinct(),
        ensures
            r is Ok <==> self.spec_has_node(node_id),
            r matches Ok(w) ==> *w == self.node_entry(node_id).weight,
            r is Err ==> r == SchemaResult::<&S::N, S>::Err(TypedError::MissingNode(node_id)),
    {
        match self.get_node_safe(node_id) {
            Some(w) => Ok(w),
            None => Err(TypedError::MissingNode(node_id)),
        }
    }

    /// Look up an edge weight by id, failing with `MissingEdge` if absent.
    pub fn get_edge(&self, edge_id: usize) -> (r: SchemaResult<&S::E, S>)
        requires
            self.edges_distinct(),
        ensures
            r is Ok <==> self.spec_has_edge(edge_id),
            r matches Ok(w) ==> *w == self.edge_entry(edge_id).weight,
            r is Err ==> r == SchemaResult::<&S::E, S>::Err(TypedError::MissingEdge(edge_id)),
    {
        match self.get_edge_safe(edge_id) {
            Some(w) => Ok(w),
            None => Err(TypedError::MissingEdge(edge_id)),
        }
    }

    /// Look up a node and narrow it to a concrete variant; fails with
    /// `MissingNode` when the id is absent and with `DownCastFailed` when
    /// the weight holds a different variant.
    pub fn get_node_downcast<T>(&self, node_id: usize) -> (r: SchemaResult<T, S>) where
        S::N: crate::graph_traits::Downcast<T, S>,

        requires
            self.nodes_distinct(),
        ensures
            !self.spec_has_node(node_id) ==> r == SchemaResult::<T, S>::Err(
                TypedError::MissingNode(node_id),
            ),
            self.spec_has_node(node_id) ==> {
                &&& r is Ok <==> self.node_entry(node_id).weight.spec_downcast() is Some
                &&& (r matches Ok(t) ==> self.node_entry(node_id).weight.spec_downcast()
                    == Some(t))
                &&& (r matches Err(e) ==> e matches TypedError::DownCastFailed(_, _))
            },
    {
        match self.get_node(node_id) {
            Ok(w) => w.downcast(),
            Err(e) => Err(e),
        }
    }

    /// Look up an edge and narrow it to a concrete variant; fails with
    /// `MissingEdge` when the id is absent and with `DownCastFailed` when
    /// the weight holds a different variant.
    pub fn get_edge_downcast<T>(&self, edge_id: usize) -> (r: SchemaResult<T, S>) where
        S::E: crate::graph_traits::Downcast<T, S>,

        requires
            self.edges_distinct(),
        ensures
            !self.spec_has_edge(edge_id) ==> r == SchemaResult::<T, S>::Err(
                TypedError::MissingEdge(edge_id),
            ),
            self.spec_has_edge(edge_id) ==> {
                &&& r is Ok <==> self.edge_entry(edge_id).weight.spec_downcast() is Some
                &&& (r matches Ok(t) ==> self.edge_entry(edge_id).weight.spec_downcast()
                    == Some(t))
                &&& (r matches Err(e) ==> e matches TypedError::DownCastFailed(_, _))
            },
    {
        match self.get_edge(edge_id) {
            Ok(w) => w.downcast(),
            Err(e) => Err(e),
        }
    }

    /// The logical ids of all live nodes, in storage order.
    pub fn node_ids(&self) -> (r: Vec<usize>)
        ensures
            r@ =~= self.spec_nodes().map_values(|e: NodeEntry<S::N>| e.weight.sid()),
    {
        let n = self.nodes.len();
        let mut out: Vec<usize> = Vec::new();
        let mut i: usize = 0;
        while i < n
            invariant
                n == self.spec_nodes().len(),
                i <= n,
                out@.len() == i as int,
                forall|k: int| 0 <= k < i ==> out@[k] == (#[trigger] self.spec_nodes()[k]).weight.sid(),
            decreases n - i,
        {
            out.push(self.nodes[i].weight.get_id());
            i += 1;
        }
        out
    }

    /// The logical ids of all live edges, in storage order.
    pub fn edge_ids(&self) -> (r: Vec<usize>)
        ensures
            r@ =~= self.spec_edges().map_values(|e: EdgeEntry<S::E>| e.weight.sid()),
    {
        let n = self.edges.len();
        let mut out: Vec<usize> = Vec::new();
        let mut i: usize = 0;
        while i < n
            invariant
                n == self.spec_edges().len(),
                i <= n,
                out@.len() == i as int,
                forall|k: int| 0 <= k < i ==> out@[k] == (#[trigger] self.spec_edges()[k]).weight.sid(),
            decreases n - i,
        {
            out.push(self.edges[i].weight.get_id());
            i += 1;
        }
        out
    }

    /// Copies of all node weights, in storage order.
    pub fn nodes(&self) -> (r: Vec<S::N>)
        ensures
            r@ =~= self.spec_nodes().map_values(|e: NodeEntry<S::N>| e.weight),
    {
        let n = self.nodes.len();
        let mut out: Vec<S::N> = Vec::new();
        let mut i: usize = 0;
        while i < n
            invariant
                n == self.spec_nodes().len(),
                i <= n,
                out@.len() == i as int,
                forall|k: int| 0 <= k < i ==> out@[k] == (#[trigger] self.spec_nodes()[k]).weight,
            decreases n - i,
        {
            out.push(self.nodes[i].weight.dup());
            i += 1;
        }
        out
    }

    /// Copies of all edge weights, in storage order.
    pub fn edges(&self) -> (r: Vec<S::E>)
        ensures
            r@ =~= self.spec_edges().map_values(|e: EdgeEntry<S::E>| e.weight),
    {
        let n = self.edges.len();
        let mut out: Vec<S::E> = Vec::new();
        let mut i: usize = 0;
        while i < n
            invariant
                n == self.spec_edges().len(),
                i <= n,
                out@.len() == i as int,
                forall|k: int| 0 <= k < i ==> out@[k] == (#[trigger] self.spec_edges()[k]).weight,
            decreases n - i,
        {
            out.push(self.edges[i].weight.dup());
            i += 1;
        }
        out
    }
}

/// The sequence with every occurrence of `x` dropped, order kept.
pub open spec fn seq_without(s: Seq<usize>, x: usize) -> Seq<usize> {
    s.filter(|y: usize| y != x)
}

/// How `seq_without` acts on a push.
pub proof fn lemma_seq_without_push(s: Seq<usize>, y: usize, x: usize)
    ensures
        seq_without(s.push(y), x) == (if y != x {
            seq_without(s, x).push(y)
        } else {
            seq_without(s, x)
        }),
{
    reveal(Seq::filter);
    assert((s.push(y)).drop_last() =~= s);
    assert((s.push(y)).last() == y);
}

/// Membership and distinctness of `seq_without`.
pub proof fn lemma_seq_without_props(s: Seq<usize>, x: usize)
    requires
        s.no_duplicates(),
    ensures
        seq_without(s, x).no_duplicates(),
        forall|y: usize| #[trigger] seq_without(s, x).contains(y) <==> (s.contains(y) && y != x),
        seq_without(s, x).len() <= s.len(),
    decreases s.len(),
{
    broadcast use vstd::seq_lib::group_seq_properties;

    if s.len() == 0 {
        assert(seq_without(s, x) =~= Seq::<usize>::empty()) by {
            reveal(Seq::filter);
        }
    } else {
        let dl = s.drop_last();
        let last = s.last();
        assert(dl.no_duplicates());
        lemma_seq_without_props(dl, x);
        assert(s =~= dl.push(last));
        lemma_seq_without_push(dl, last, x);
        assert(!dl.contains(last)) by {
            if dl.contains(last) {
                let i = choose|i: int| 0 <= i < dl.len() && dl[i] == last;
                assert(s[i] == s[s.len() - 1]);
            }
        }
        if last != x {
            assert(!seq_without(dl, x).contains(last));
        }
        assert forall|y: usize| #[trigger] seq_without(s, x).contains(y) <==> (s.contains(y) && y
            != x) by {
            if last != x {
                assert(seq_without(s, x) == seq_without(dl, x).push(last));
                assert(seq_without(s, x).contains(y) <==> (seq_without(dl, x).contains(y) || y
                    == last));
                assert(s.contains(y) <==> (dl.contains(y) || y == last));
            } else {
                assert(seq_without(s, x) == seq_without(dl, x));
                assert(s.contains(y) <==> (dl.contains(y) || y == last));
            }
        }
    }
}

/// The elements of `items` kept by a same-length decision sequence.
pub open spec fn picked<A>(items: Seq<A>, dec: Seq<bool>) -> Seq<A>
    decreases items.len(),
{
    if items.len() == 0 || items.len() != dec.len() {
        Seq::empty()
    } else if dec.last() {
        picked(items.drop_last(), dec.drop_last()).push(items.last())
    } else {
        picked(items.drop_last(), dec.drop_last())
    }
}

/// The position of `x` in `s`; meaningful only when `s` contains `x` (unique
/// when `s` has no duplicates).
pub open spec fn pos_of(s: Seq<usize>, x: usize) -> int {
    choose|k: int| 0 <= k < s.len() && s[k] == x
}

/// In a duplicate-free sequence the chosen position is the unique one.
pub proof fn lemma_pos_of(s: Seq<usize>, x: usize, k: int)
    requires
        s.no_duplicates(),
        0 <= k < s.len(),
        s[k] == x,
    ensures
        pos_of(s, x) == k,
{
    assert(0 <= pos_of(s, x) < s.len() && s[pos_of(s, x)] == x);
}

/// Moving the element at `from` to position `to` keeps the membership, the
/// length, and the absence of duplicates.
pub proof fn lemma_move_membership(s: Seq<usize>, from: int, to: int)
    requires
        s.no_duplicates(),
        0 <= from < s.len(),
        0 <= to <= s.len() - 1,
    ensures
        s.remove(from).insert(to, s[from]).no_duplicates(),
        s.remove(from).insert(to, s[from]).len() == s.len(),
        forall|y: usize| #[trigger] s.remove(from).insert(to, s[from]).contains(y) <==> s.contains(
            y,
        ),
{
    let x = s[from];
    let r = s.remove(from);
    let m = r.insert(to, x);
    assert forall|y: usize| #[trigger] r.contains(y) implies s.contains(y) && y != x by {
        let k = choose|k: int| 0 <= k < r.len() && r[k] == y;
        if k < from {
            assert(s[k] == y);
        } else {
            assert(s[k + 1] == y);
        }
    }
    assert forall|y: usize| s.contains(y) && y != x implies #[trigger] r.contains(y) by {
        let k = choose|k: int| 0 <= k < s.len() && s[k] == y;
        if k < from {
            assert(r[k] == y);
        } else {
            assert(k > from);
            assert(r[k - 1] == y);
        }
    }
    assert(r.no_duplicates()) by {
        assert forall|a: int, b: int| 0 <= a < b < r.len() implies r[a] != r[b] by {
            let pa = if a < from {
                a
            } else {
                a + 1
            };
            let pb = if b < from {
                b
            } else {
                b + 1
            };
            assert(r[a] == s[pa] && r[b] == s[pb]);
        }
    }
    assert(!r.contains(x));
    assert forall|y: usize| #[trigger] m.contains(y) implies s.contains(y) by {
        let k = choose|k: int| 0 <= k < m.len() && m[k] == y;
        if k < to {
            assert(r[k] == y);
        } else if k == to {
            assert(y == x);
        } else {
            assert(r[k - 1] == y);
        }
    }
    assert forall|y: usize| s.contains(y) implies #[trigger] m.contains(y) by {
        if y == x {
            assert(m[to] == x);
        } else {
            assert(r.contains(y));
            let k = choose|k: int| 0 <= k < r.len() && r[k] == y;
            if k < to {
                assert(m[k] == y);
            } else {
                assert(m[k + 1] == y);
            }
        }
    }
    assert(m.no_duplicates()) by {
        assert forall|a: int, b: int| 0 <= a < b < m.len() implies m[a] != m[b] by {
            if a == to {
                assert(m[a] == x);
                assert(m[b] == r[b - 1]);
                assert(r.contains(r[b - 1]));
            } else if b == to {
                assert(m[b] == x);
                assert(m[a] == r[a]);
                assert(r.contains(r[a]));
            } else {
                let pa = if a < to {
                    a
                } else {
                    a - 1
                };
                let pb = if b < to {
                    b
                } else {
                    b - 1
                };
                assert(m[a] == r[pa] && m[b] == r[pb]);
            }
        }
    }
}

/// First position of `x` in the vector, if present.
fn find_pos(v: &Vec<usize>, x: usize) -> (r: Option<usize>)
    ensures
        match r {
            Some(k) => k < v@.len() && v@[k as int] == x,
            None => !v@.contains(x),
        },
{
    let n = v.len();
    let mut k: usize = 0;
    while k < n
        invariant
            n == v@.len(),
            k <= n,
            forall|i: int| 0 <= i < k ==> v@[i] != x,
        decreases n - k,
    {
        if v[k] == x {
            return Some(k);
        }
        k += 1;
    }
    proof {
        if v@.contains(x) {
            let i = choose|i: int| 0 <= i < v@.len() && v@[i] == x;
            assert(v@[i] != x);
        }
    }
    None
}

/// Remove every occurrence of `x` from the vector, keeping the order of the
/// remaining entries.
fn remove_id(v: &mut Vec<usize>, x: usize)
    ensures
        final(v)@ == seq_without(old(v)@, x),
{
    broadcast use vstd::seq_lib::group_seq_lib_default;

    let n = v.len();
    let mut out: Vec<usize> = Vec::new();
    let mut k: usize = 0;
    while k < n
        invariant
            n == old(v)@.len(),
            v@ == old(v)@,
            k <= n,
            out@ == seq_without(old(v)@.take(k as int), x),
        decreases n - k,
    {
        let y = v[k];
        proof {
            let s = old(v)@;
            assert(s.take(k + 1) =~= s.take(k as int).push(s[k as int]));
            lemma_seq_without_push(s.take(k as int), s[k as int], x);
        }
        if y != x {
            out.push(y);
        }
        k += 1;
    }
    proof {
        assert(old(v)@.take(n as int) =~= old(v)@);
    }
    *v = out;
}

impl<S: SchemaExt> TypedGraph<S> {
    /// The edge result for a live edge, read in the given direction.
    pub open spec fn spec_edge_ref(self, eid: usize, direction: Direction) -> EdgeRef<S::E> {
        EdgeRef {
            weight: self.edge_entry(eid).weight,
            source: self.edge_entry(eid).source,
            target: self.edge_entry(eid).target,
            direction,
        }
    }

    /// Build the edge result for the live edge stored at index `j`.
    fn make_edge_ref(&self, j: usize, direction: Direction) -> (r: EdgeRef<S::E>)
        requires
            self.wf(),
            j < self.spec_edges().len(),
        ensures
            r == self.spec_edge_ref(self.spec_edges()[j as int].weight.sid(), direction),
    {
        proof {
            let eid = self.spec_edges()[j as int].weight.sid();
            self.lemma_edge_idx(eid);
            assert(self.edge_idx(eid) == j as int);
        }
        EdgeRef {
            weight: self.edges[j].weight.dup(),
            source: self.edges[j].source,
            target: self.edges[j].target,
            direction,
        }
    }

    /// Look up an edge together with its endpoint ids.
    pub fn get_edge_full(&self, edge_id: usize) -> (r: SchemaResult<EdgeRef<S::E>, S>)
        requires
            self.wf(),
        ensures
            r is Ok <==> self.spec_has_edge(edge_id),
            r matches Ok(er) ==> er == self.spec_edge_ref(edge_id, Direction::Outgoing),
            r is Err ==> r == SchemaResult::<EdgeRef<S::E>, S>::Err(
                TypedError::MissingEdge(edge_id),
            ),
    {
        match self.find_edge_idx(edge_id) {
            Some(j) => {
                proof {
                    self.lemma_edge_idx(edge_id);
                }
                Ok(self.make_edge_ref(j, Direction::Outgoing))
            },
            None => Err(TypedError::MissingEdge(edge_id)),
        }
    }

    /// Every outgoing edge of the node, in the authoritative order.
    pub fn get_outgoing(&self, node_id: usize) -> (r: SchemaResult<Vec<EdgeRef<S::E>>, S>)
        requires
            self.wf(),
        ensures
            r is Ok <==> self.spec_has_node(node_id),
            r matches Ok(v) ==> {
                &&& v@.len() == self.node_entry(node_id).outgoing@.len()
                &&& forall|k: int|
                    0 <= k < v@.len() ==> #[trigger] v@[k] == self.spec_edge_ref(
                        self.node_entry(node_id).outgoing@[k],
                        Direction::Outgoing,
                    )
            },
            r is Err ==> r == SchemaResult::<Vec<EdgeRef<S::E>>, S>::Err(
                TypedError::NodeIdMissing(node_id),
            ),
    {
        let ni = match self.find_node_idx(node_id) {
            Some(i) => i,
            None => {
                return Err(TypedError::NodeIdMissing(node_id));
            },
        };
        proof {
            self.lemma_node_idx(node_id);
            assert(self.node_idx(node_id) == ni as int);
        }
        let n = self.nodes[ni].outgoing.len();
        let mut out: Vec<EdgeRef<S::E>> = Vec::new();
        let mut k: usize = 0;
        while k < n
            invariant
                self.wf(),
                ni < self.spec_nodes().len(),
                n == self.spec_nodes()[ni as int].outgoing@.len(),
                k <= n,
                out@.len() == k as int,
                forall|p: int|
                    0 <= p < k ==> #[trigger] out@[p] == self.spec_edge_ref(
                        self.spec_nodes()[ni as int].outgoing@[p],
                        Direction::Outgoing,
                    ),
            decreases n - k,
        {
            let eid = self.nodes[ni].outgoing[k];
            proof {
                assert(self.spec_has_edge(eid));
                self.lemma_edge_idx(eid);
            }
            let j = match self.find_edge_idx(eid) {
                Some(j) => j,
                None => {
                    proof {
                        assert(false);
                    }
                    return Err(TypedError::InvalidInternalState);
                },
            };
            proof {
                assert(self.spec_edges()[j as int].weight.sid() == eid);
            }
            let er = self.make_edge_ref(j, Direction::Outgoing);
            out.push(er);
            k += 1;
        }
        Ok(out)
    }

    /// Every incoming edge of the node.  The incoming set is a cache whose
    /// order carries no guarantee, so only the collection is promised, not
    /// any particular order.
    pub fn get_incoming(&self, node_id: usize) -> (r: SchemaResult<Vec<EdgeRef<S::E>>, S>)
        requires
            self.wf(),
        ensures
            r is Ok <==> self.spec_has_node(node_id),
            r matches Ok(v) ==> {
                &&& v@.len() == self.node_entry(node_id).incoming@.len()
                &&& v@.to_multiset() == self.node_entry(node_id).incoming@.map_values(
                    |eid: usize| self.spec_edge_ref(eid, Direction::Incoming),
                ).to_multiset()
            },
            r is Err ==> r == SchemaResult::<Vec<EdgeRef<S::E>>, S>::Err(
                TypedError::NodeIdMissing(node_id),
            ),
    {
        let ni = match self.find_node_idx(node_id) {
            Some(i) => i,
            None => {
                return Err(TypedError::NodeIdMissing(node_id));
            },
        };
        proof {
            self.lemma_node_idx(node_id);
            assert(self.node_idx(node_id) == ni as int);
        }
        let n = self.nodes[ni].incoming.len();
        let mut out: Vec<EdgeRef<S::E>> = Vec::new();
        let mut k: usize = 0;
        while k < n
            invariant
                self.wf(),
                ni < self.spec_nodes().len(),
                n == self.spec_nodes()[ni as int].incoming@.len(),
                k <= n,
                out@.len() == k as int,
                forall|p: int|
                    0 <= p < k ==> #[trigger] out@[p] == self.spec_edge_ref(
                        self.spec_nodes()[ni as int].incoming@[p],
                        Direction::Incoming,
                    ),
            decreases n - k,
        {
            let eid = self.nodes[ni].incoming[k];
            proof {
                assert(self.spec_has_edge(eid));
                self.lemma_edge_idx(eid);
            }
            let j = match self.find_edge_idx(eid) {
                Some(j) => j,
                None => {
                    proof {
                        assert(false);
                    }
                    return Err(TypedError::InvalidInternalState);
                },
            };
            proof {
                assert(self.spec_edges()[j as int].weight.sid() == eid);
            }
            let er = self.make_edge_ref(j, Direction::Incoming);
            out.push(er);
            k += 1;
        }
        proof {
            assert(out@ =~= self.node_entry(node_id).incoming@.map_values(
                |eid: usize| self.spec_edge_ref(eid, Direction::Incoming),
            ));
        }
        Ok(out)
    }

    /// All incident edges: the incoming ones first (tagged incoming, in no
    /// guaranteed order), then the outgoing ones in their authoritative
    /// order (tagged outgoing).
    /// The edge results for a list of live edge ids, in order.
    pub open spec fn spec_dir_refs(self, ids: Seq<usize>, direction: Direction) -> Seq<
        EdgeRef<S::E>,
    > {
        ids.map_values(|eid: usize| self.spec_edge_ref(eid, direction))
    }

    /// One decision of a weight filter: an answer the filter may give for
    /// this weight.
    pub open spec fn filter_dec_ok<F: Fn(&S::E) -> bool>(f: F, w0: S::E, d: bool) -> bool {
        exists|w: &S::E| *w == w0 && #[trigger] call_ensures(f, (w,), d)
    }

    /// One run of a weight filter over a list of edge results: each decision
    /// is an answer the filter may give for the weight at its position, and
    /// the output is exactly the decided sub-list, in order.
    pub open spec fn filter_run_from<F: Fn(&S::E) -> bool>(
        f: F,
        base: Seq<EdgeRef<S::E>>,
        dec: Seq<bool>,
        v: Seq<EdgeRef<S::E>>,
    ) -> bool {
        &&& dec.len() == base.len()
        &&& forall|q: int|
            0 <= q < base.len() ==> Self::filter_dec_ok(f, (#[trigger] base[q]).weight, dec[q])
        &&& v == picked(base, dec)
    }

    /// The outgoing edges of the node whose weights the given filter admits,
    /// in the authoritative order.
    pub fn get_outgoing_filter_edge<F: Fn(&S::E) -> bool>(&self, node_id: usize, f: F) -> (r:
        SchemaResult<Vec<EdgeRef<S::E>>, S>)
        requires
            self.wf(),
            forall|w: &S::E| #[trigger] call_requires(f, (w,)),
        ensures
            r is Ok <==> self.spec_has_node(node_id),
            r is Err ==> r == SchemaResult::<Vec<EdgeRef<S::E>>, S>::Err(
                TypedError::NodeIdMissing(node_id),
            ),
            r matches Ok(v) ==> exists|dec: Seq<bool>| #[trigger] Self::filter_run_from(
                f,
                self.spec_dir_refs(self.node_entry(node_id).outgoing@, Direction::Outgoing),
                dec,
                v@,
            ),
    {
        let all = match self.get_outgoing(node_id) {
            Ok(v) => v,
            Err(e) => {
                return Err(e);
            },
        };
        let ghost base = all@;
        let mut out: Vec<EdgeRef<S::E>> = Vec::new();
        let ghost mut dec: Seq<bool> = Seq::empty();
        let n = all.len();
        let mut k: usize = 0;
        while k < n
            invariant
                forall|w: &S::E| #[trigger] call_requires(f, (w,)),
                n == all@.len(),
                all@ == base,
                k <= n,
                dec.len() == k as int,
                forall|q: int|
                    0 <= q < k ==> Self::filter_dec_ok(f, (#[trigger] base[q]).weight, dec[q]),
                out@ == picked(base.take(k as int), dec),
            decreases n - k,
        {
            let ghost dec0 = dec;
            let wref = all[k].get_weight();
            let keep = f(wref);
            proof {
                dec = dec.push(keep);
                assert(base.take(k + 1).drop_last() =~= base.take(k as int));
                assert(base.take(k + 1).last() == base[k as int]);
                assert(dec.drop_last() =~= dec0);
                assert forall|q: int| 0 <= q < k + 1 implies Self::filter_dec_ok(
                    f,
                    (#[trigger] base[q]).weight,
                    dec[q],
                ) by {
                    if q < k {
                        assert(dec[q] == dec0[q]);
                        assert(Self::filter_dec_ok(f, base[q].weight, dec0[q]));
                    } else {
                        assert(dec[q] == keep);
                        assert(*wref == base[q].weight && call_ensures(f, (wref,), keep));
                        assert(Self::filter_dec_ok(f, base[q].weight, keep));
                    }
                }
            }
            if keep {
                let w2 = all[k].get_weight().dup();
                let cp = EdgeRef {
                    weight: w2,
                    source: all[k].source,
                    target: all[k].target,
                    direction: all[k].direction,
                };
                proof {
                    assert(cp == base[k as int]);
                }
                out.push(cp);
            }
            proof {
                assert(out@ == picked(base.take(k + 1), dec));
            }
            k += 1;
        }
        proof {
            assert(base.take(n as int) =~= base);
            assert(base =~= self.spec_dir_refs(
                self.node_entry(node_id).outgoing@,
                Direction::Outgoing,
            ));
            assert(Self::filter_run_from(
                f,
                self.spec_dir_refs(self.node_entry(node_id).outgoing@, Direction::Outgoing),
                dec,
                out@,
            ));
        }
        let ghost outv = out@;
        let result: SchemaResult<Vec<EdgeRef<S::E>>, S> = Ok(out);
        proof {
            assert(result matches Ok(v) && v@ == outv);
            let decw = dec;
            assert(exists|dec2: Seq<bool>| #[trigger] Self::filter_run_from(
                f,
                self.spec_dir_refs(self.node_entry(node_id).outgoing@, Direction::Outgoing),
                dec2,
                out@,
            )) by {
                assert(Self::filter_run_from(
                    f,
                    self.spec_dir_refs(self.node_entry(node_id).outgoing@, Direction::Outgoing),
                    decw,
                    out@,
                ));
            }
        }
        result
    }

    /// The incoming edges of the node whose weights the given filter admits.
    /// The base order is the one `get_incoming` reports.
    pub fn get_incoming_filter_edge<F: Fn(&S::E) -> bool>(&self, node_id: usize, f: F) -> (r:
        SchemaResult<Vec<EdgeRef<S::E>>, S>)
        requires
            self.wf(),
            forall|w: &S::E| #[trigger] call_requires(f, (w,)),
        ensures
            r is Ok <==> self.spec_has_node(node_id),
            r is Err ==> r == SchemaResult::<Vec<EdgeRef<S::E>>, S>::Err(
                TypedError::NodeIdMissing(node_id),
            ),
            r matches Ok(v) ==> exists|base: Seq<EdgeRef<S::E>>, dec: Seq<bool>|
                base.to_multiset() == self.spec_dir_refs(
                    self.node_entry(node_id).incoming@,
                    Direction::Incoming,
                ).to_multiset() && #[trigger] Self::filter_run_from(f, base, dec, v@),
    {
        let all = match self.get_incoming(node_id) {
            Ok(v) => v,
            Err(e) => {
                return Err(e);
            },
        };
        let ghost base = all@;
        let mut out: Vec<EdgeRef<S::E>> = Vec::new();
        let ghost mut dec: Seq<bool> = Seq::empty();
        let n = all.len();
        let mut k: usize = 0;
        while k < n
            invariant
                forall|w: &S::E| #[trigger] call_requires(f, (w,)),
                n == all@.len(),
                all@ == base,
                k <= n,
                dec.len() == k as int,
                forall|q: int|
                    0 <= q < k ==> Self::filter_dec_ok(f, (#[trigger] base[q]).weight, dec[q]),
                out@ == picked(base.take(k as int), dec),
            decreases n - k,
        {
            let ghost dec0 = dec;
            let wref = all[k].get_weight();
            let keep = f(wref);
            proof {
                dec = dec.push(keep);
                assert(base.take(k + 1).drop_last() =~= base.take(k as int));
                assert(base.take(k + 1).last() == base[k as int]);
                assert(dec.drop_last() =~= dec0);
                assert forall|q: int| 0 <= q < k + 1 implies Self::filter_dec_ok(
                    f,
                    (#[trigger] base[q]).weight,
                    dec[q],
                ) by {
                    if q < k {
                        assert(dec[q] == dec0[q]);
                        assert(Self::filter_dec_ok(f, base[q].weight, dec0[q]));
                    } else {
                        assert(dec[q] == keep);
                        assert(*wref == base[q].weight && call_ensures(f, (wref,), keep));
                        assert(Self::filter_dec_ok(f, base[q].weight, keep));
                    }
                }
            }
            if keep {
                let w2 = all[k].get_weight().dup();
                let cp = EdgeRef {
                    weight: w2,
                    source: all[k].source,
                    target: all[k].target,
                    direction: all[k].direction,
                };
                proof {
                    assert(cp == base[k as int]);
                }
                out.push(cp);
            }
            proof {
                assert(out@ == picked(base.take(k + 1), dec));
            }
            k += 1;
        }
        proof {
            assert(base.take(n as int) =~= base);
            assert(Self::filter_run_from(f, base, dec, out@));
        }
        let ghost outv = out@;
        let result: SchemaResult<Vec<EdgeRef<S::E>>, S> = Ok(out);
        proof {
            assert(result matches Ok(v) && v@ == outv);
            let decw = dec;
            assert(exists|base2: Seq<EdgeRef<S::E>>, dec2: Seq<bool>|
                base2.to_multiset() == self.spec_dir_refs(
                    self.node_entry(node_id).incoming@,
                    Direction::Incoming,
                ).to_multiset() && #[trigger] Self::filter_run_from(f, base2, dec2, outv)) by {
                assert(base.to_multiset() == self.spec_dir_refs(
                    self.node_entry(node_id).incoming@,
                    Direction::Incoming,
                ).to_multiset());
                assert(Self::filter_run_from(f, base, decw, outv));
            }
        }
        result
    }

    pub fn get_incoming_and_outgoing(&self, node_id: usize) -> (r: SchemaResult<
        Vec<EdgeRef<S::E>>,
        S,
    >)
        requires
            self.wf(),
        ensures
            r is Ok <==> self.spec_has_node(node_id),
            r matches Ok(v) ==> {
                let inc = self.node_entry(node_id).incoming@;
                let out = self.node_entry(node_id).outgoing@;
                &&& v@.len() == inc.len() + out.len()
                &&& v@.take(inc.len() as int).to_multiset() == inc.map_values(
                    |eid: usize| self.spec_edge_ref(eid, Direction::Incoming),
                ).to_multiset()
                &&& forall|k: int|
                    inc.len() <= k < v@.len() ==> #[trigger] v@[k] == self.spec_edge_ref(
                        out[k - inc.len()],
                        Direction::Outgoing,
                    )
            },
            r is Err ==> r == SchemaResult::<Vec<EdgeRef<S::E>>, S>::Err(
                TypedError::NodeIdMissing(node_id),
            ),
    {
        let mut inc = match self.get_incoming(node_id) {
            Ok(v) => v,
            Err(e) => {
                return Err(e);
            },
        };
        let mut out = match self.get_outgoing(node_id) {
            Ok(v) => v,
            Err(e) => {
                return Err(e);
            },
        };
        let ghost inc0 = inc@;
        inc.append(&mut out);
        proof {
            assert(inc@.take(inc0.len() as int) =~= inc0);
        }
        Ok(inc)
    }

    /// The logical id of the node stored at index `i`.
    pub fn node_id_at(&self, i: usize) -> (r: usize)
        requires
            i < self.spec_nodes().len(),
        ensures
            r == self.spec_nodes()[i as int].weight.sid(),
    {
        self.nodes[i].weight.get_id()
    }

    /// The `k`-th outgoing edge of the node stored at index `i`, as an edge
    /// result tagged outgoing.
    pub fn outgoing_at(&self, i: usize, k: usize) -> (r: EdgeRef<S::E>)
        requires
            self.wf(),
            i < self.spec_nodes().len(),
            k < self.spec_nodes()[i as int].outgoing@.len(),
        ensures
            r == self.spec_edge_ref(
                self.spec_nodes()[i as int].outgoing@[k as int],
                Direction::Outgoing,
            ),
    {
        let eid = self.nodes[i].outgoing[k];
        proof {
            assert(self.spec_has_edge(eid));
            self.lemma_edge_idx(eid);
        }
        match self.find_edge_idx(eid) {
            Some(j) => {
                proof {
                    assert(self.spec_edges()[j as int].weight.sid() == eid);
                }
                self.make_edge_ref(j, Direction::Outgoing)
            },
            None => {
                proof {
                    assert(false);
                }
                self.make_edge_ref(0, Direction::Outgoing)
            },
        }
    }

    /// Every edge of the store as an edge result, in storage order.
    pub fn edges_full(&self) -> (r: Vec<EdgeRef<S::E>>)
        requires
            self.wf(),
        ensures
            r@.len() == self.spec_edges().len(),
            forall|k: int|
                0 <= k < r@.len() ==> #[trigger] r@[k] == self.spec_edge_ref(
                    self.spec_edges()[k].weight.sid(),
                    Direction::Outgoing,
                ),
    {
        let n = self.edges.len();
        let mut out: Vec<EdgeRef<S::E>> = Vec::new();
        let mut k: usize = 0;
        while k < n
            invariant
                self.wf(),
                n == self.spec_edges().len(),
                k <= n,
                out@.len() == k as int,
                forall|p: int|
                    0 <= p < k ==> #[trigger] out@[p] == self.spec_edge_ref(
                        self.spec_edges()[p].weight.sid(),
                        Direction::Outgoing,
                    ),
            decreases n - k,
        {
            let er = self.make_edge_ref(k, Direction::Outgoing);
            out.push(er);
            k += 1;
        }
        out
    }
}

impl<S: SchemaExt> TypedGraph<S> {
    /// Whether some record in `s` carries the edge id `x`.
    /// The capture-order records whose source is `src`, in order.
    pub open spec fn entries_from_source(s: Seq<EdgeEntry<S::E>>, src: usize) -> Seq<
        EdgeEntry<S::E>,
    > {
        s.filter(|e: EdgeEntry<S::E>| e.source == src)
    }

    /// How `entries_from_source` acts on a push.
    proof fn lemma_entries_from_source_push(s: Seq<EdgeEntry<S::E>>, y: EdgeEntry<S::E>, src: usize)
        ensures
            Self::entries_from_source(s.push(y), src) == (if y.source == src {
                Self::entries_from_source(s, src).push(y)
            } else {
                Self::entries_from_source(s, src)
            }),
    {
        reveal(Seq::filter);
        assert((s.push(y)).drop_last() =~= s);
        assert((s.push(y)).last() == y);
    }

    /// Members of a capture-order source group come from the whole list.
    proof fn lemma_entries_from_source_sub(s: Seq<EdgeEntry<S::E>>, src: usize)
        ensures
            forall|e: EdgeEntry<S::E>| #[trigger]
                Self::entries_from_source(s, src).contains(e) ==> s.contains(e),
        decreases s.len(),
    {
        reveal(Seq::filter);
        if s.len() == 0 {
        } else {
            let dl = s.drop_last();
            Self::lemma_entries_from_source_sub(dl, src);
            assert(s =~= dl.push(s.last()));
            Self::lemma_entries_from_source_push(dl, s.last(), src);
            assert forall|e: EdgeEntry<S::E>| #[trigger]
                Self::entries_from_source(s, src).contains(e) implies s.contains(e) by {
                if s.last().source == src {
                    assert(Self::entries_from_source(s, src) == Self::entries_from_source(
                        dl,
                        src,
                    ).push(s.last()));
                    let q = choose|q: int|
                        0 <= q < Self::entries_from_source(s, src).len()
                            && Self::entries_from_source(s, src)[q] == e;
                    if q < Self::entries_from_source(dl, src).len() {
                        assert(Self::entries_from_source(dl, src).contains(e));
                        assert(dl.contains(e));
                        let w = choose|w: int| 0 <= w < dl.len() && dl[w] == e;
                        assert(s[w] == e);
                    } else {
                        assert(e == s.last());
                        assert(s[s.len() - 1] == e);
                    }
                } else {
                    assert(Self::entries_from_source(s, src) == Self::entries_from_source(
                        dl,
                        src,
                    ));
                    assert(dl.contains(e));
                    let w = choose|w: int| 0 <= w < dl.len() && dl[w] == e;
                    assert(s[w] == e);
                }
            }
        }
    }

    /// The edge ids of capture-order records, in order.
    pub open spec fn entry_ids(s: Seq<EdgeEntry<S::E>>) -> Seq<usize> {
        s.map_values(|e: EdgeEntry<S::E>| e.weight.sid())
    }

    /// The old order restricted to the edges a re-typed store kept.
    pub open spec fn kept_order<NS: SchemaExt>(ids: Seq<usize>, g2: TypedGraph<NS>) -> Seq<usize> {
        ids.filter(|eid: usize| g2.spec_has_edge(eid))
    }

    /// How `kept_order` acts on a push.
    proof fn lemma_kept_order_push<NS: SchemaExt>(ids: Seq<usize>, y: usize, g2: TypedGraph<NS>)
        ensures
            Self::kept_order(ids.push(y), g2) == (if g2.spec_has_edge(y) {
                Self::kept_order(ids, g2).push(y)
            } else {
                Self::kept_order(ids, g2)
            }),
    {
        reveal(Seq::filter);
        assert((ids.push(y)).drop_last() =~= ids);
        assert((ids.push(y)).last() == y);
    }

    /// Whether every answer the node-mapping function may give for this
    /// weight keeps its id and maps to a schema-accepted type.
    pub open spec fn node_map_clean<NS: SchemaExt, NF: Fn(&S, &NS, S::N) -> Option<NS::N>>(
        node_map: NF,
        old_s: S,
        new_s: NS,
        w: S::N,
    ) -> bool {
        forall|s: &S, ns: &NS, ret: Option<NS::N>|
            *s == old_s && *ns == new_s && #[trigger] call_ensures(node_map, (s, ns, w), ret)
                ==> match ret {
                None => true,
                Some(w2) => w2.sid() == w.sid() && new_s.node_allowed(w2.ty()),
            }
    }

    /// Whether every answer the node-mapping function may give for this
    /// weight carries a type the new schema accepts (the id is not
    /// constrained).
    pub open spec fn node_map_types_clean<NS: SchemaExt, NF: Fn(&S, &NS, S::N) -> Option<NS::N>>(
        node_map: NF,
        old_s: S,
        new_s: NS,
        w: S::N,
    ) -> bool {
        forall|s: &S, ns: &NS, ret: Option<NS::N>|
            *s == old_s && *ns == new_s && #[trigger] call_ensures(node_map, (s, ns, w), ret)
                ==> match ret {
                None => true,
                Some(w2) => new_s.node_allowed(w2.ty()),
            }
    }

    /// Whether every answer the node-mapping function may give for this
    /// weight keeps the node and changes its id.
    pub open spec fn node_map_breaks_id<NS: SchemaExt, NF: Fn(&S, &NS, S::N) -> Option<NS::N>>(
        node_map: NF,
        old_s: S,
        new_s: NS,
        w: S::N,
    ) -> bool {
        forall|s: &S, ns: &NS, ret: Option<NS::N>|
            *s == old_s && *ns == new_s && #[trigger] call_ensures(node_map, (s, ns, w), ret)
                ==> (ret matches Some(w2) && w2.sid() != w.sid())
    }

    /// Whether every answer the edge-mapping function may give for this
    /// weight keeps the edge and changes its id.
    pub open spec fn edge_map_breaks_id<NS: SchemaExt, EF: Fn(&S, &NS, S::E) -> Option<NS::E>>(
        edge_map: EF,
        old_s: S,
        new_s: NS,
        w: S::E,
    ) -> bool {
        forall|s: &S, ns: &NS, ret: Option<NS::E>|
            *s == old_s && *ns == new_s && #[trigger] call_ensures(edge_map, (s, ns, w), ret)
                ==> (ret matches Some(w2) && w2.sid() != w.sid())
    }

    /// A type the node-mapping function may give this weight.
    pub open spec fn mapped_node_ty<NS: SchemaExt, NF: Fn(&S, &NS, S::N) -> Option<NS::N>>(
        node_map: NF,
        old_s: S,
        new_s: NS,
        w: S::N,
        t: <NS::N as Typed>::Type,
    ) -> bool {
        exists|s: &S, ns: &NS, w2: NS::N| #[trigger] Self::node_fate_witness(
            node_map,
            old_s,
            new_s,
            w,
            w2,
            t,
            s,
            ns,
        )
    }

    /// One witness that the node-mapping function may map `w` to a weight of
    /// type `t`.
    pub open spec fn node_fate_witness<NS: SchemaExt, NF: Fn(&S, &NS, S::N) -> Option<NS::N>>(
        node_map: NF,
        old_s: S,
        new_s: NS,
        w: S::N,
        w2: NS::N,
        t: <NS::N as Typed>::Type,
        s: &S,
        ns: &NS,
    ) -> bool {
        *s == old_s && *ns == new_s && call_ensures(node_map, (s, ns, w), Some(w2)) && w2.ty() == t
    }

    /// Whether every answer the edge-mapping function may give for this edge
    /// keeps its id and carries a type the new schema accepts between every
    /// pair of types the endpoints may be mapped to.
    pub open spec fn edge_map_clean<
        NS: SchemaExt,
        NF: Fn(&S, &NS, S::N) -> Option<NS::N>,
        EF: Fn(&S, &NS, S::E) -> Option<NS::E>,
    >(
        node_map: NF,
        edge_map: EF,
        old_s: S,
        new_s: NS,
        e: EdgeEntry<S::E>,
        src_w: S::N,
        tgt_w: S::N,
    ) -> bool {
        forall|s: &S, ns: &NS, ret: Option<NS::E>|
            *s == old_s && *ns == new_s && #[trigger] call_ensures(edge_map, (s, ns, e.weight), ret)
                ==> match ret {
                None => true,
                Some(w2) => w2.sid() == e.weight.sid() && (forall|
                    ts: <NS::N as Typed>::Type,
                    tt: <NS::N as Typed>::Type,
                |
                    Self::mapped_node_ty(node_map, old_s, new_s, src_w, ts)
                        && Self::mapped_node_ty(node_map, old_s, new_s, tgt_w, tt)
                        ==> #[trigger] new_s.edge_type_allowed(w2.ty(), ts, tt)),
            }
    }

    /// Like `edge_map_clean`, but saying nothing of the id: every answer
    /// carries a type the new schema accepts between every pair of types the
    /// endpoints may be mapped to.
    pub open spec fn edge_map_types_clean<
        NS: SchemaExt,
        NF: Fn(&S, &NS, S::N) -> Option<NS::N>,
        EF: Fn(&S, &NS, S::E) -> Option<NS::E>,
    >(
        node_map: NF,
        edge_map: EF,
        old_s: S,
        new_s: NS,
        e: EdgeEntry<S::E>,
        src_w: S::N,
        tgt_w: S::N,
    ) -> bool {
        forall|s: &S, ns: &NS, ret: Option<NS::E>|
            *s == old_s && *ns == new_s && #[trigger] call_ensures(edge_map, (s, ns, e.weight), ret)
                ==> match ret {
                None => true,
                Some(w2) => (forall|ts: <NS::N as Typed>::Type, tt: <NS::N as Typed>::Type|
                    Self::mapped_node_ty(node_map, old_s, new_s, src_w, ts)
                        && Self::mapped_node_ty(node_map, old_s, new_s, tgt_w, tt)
                        ==> #[trigger] new_s.edge_type_allowed(w2.ty(), ts, tt)),
            }
    }

    /// One witness that the node-mapping function changed an id from `a` to
    /// `b` on some node of the store.
    pub open spec fn node_id_change_at<NS: SchemaExt, NF: Fn(&S, &NS, S::N) -> Option<NS::N>>(
        node_map: NF,
        old_s: S,
        new_s: NS,
        g: Self,
        a: usize,
        b: usize,
        i: int,
        w2: NS::N,
        s: &S,
        ns: &NS,
    ) -> bool {
        &&& 0 <= i < g.spec_nodes().len()
        &&& g.spec_nodes()[i].weight.sid() == a
        &&& *s == old_s
        &&& *ns == new_s
        &&& call_ensures(node_map, (s, ns, g.spec_nodes()[i].weight), Some(w2))
        &&& w2.sid() == b
        &&& a != b
    }

    /// The node-mapping function changed an id from `a` to `b` on some node.
    pub open spec fn node_id_change<NS: SchemaExt, NF: Fn(&S, &NS, S::N) -> Option<NS::N>>(
        node_map: NF,
        old_s: S,
        new_s: NS,
        g: Self,
        a: usize,
        b: usize,
    ) -> bool {
        exists|i: int, w2: NS::N, s: &S, ns: &NS| #[trigger] Self::node_id_change_at(
            node_map,
            old_s,
            new_s,
            g,
            a,
            b,
            i,
            w2,
            s,
            ns,
        )
    }

    /// One witness that the edge-mapping function changed an id from `a` to
    /// `b` on some edge of the store.
    pub open spec fn edge_id_change_at<NS: SchemaExt, EF: Fn(&S, &NS, S::E) -> Option<NS::E>>(
        edge_map: EF,
        old_s: S,
        new_s: NS,
        g: Self,
        a: usize,
        b: usize,
        j: int,
        w2: NS::E,
        s: &S,
        ns: &NS,
    ) -> bool {
        &&& 0 <= j < g.spec_edges().len()
        &&& g.spec_edges()[j].weight.sid() == a
        &&& *s == old_s
        &&& *ns == new_s
        &&& call_ensures(edge_map, (s, ns, g.spec_edges()[j].weight), Some(w2))
        &&& w2.sid() == b
        &&& a != b
    }

    /// The edge-mapping function changed an id from `a` to `b` on some edge.
    pub open spec fn edge_id_change<NS: SchemaExt, EF: Fn(&S, &NS, S::E) -> Option<NS::E>>(
        edge_map: EF,
        old_s: S,
        new_s: NS,
        g: Self,
        a: usize,
        b: usize,
    ) -> bool {
        exists|j: int, w2: NS::E, s: &S, ns: &NS| #[trigger] Self::edge_id_change_at(
            edge_map,
            old_s,
            new_s,
            g,
            a,
            b,
            j,
            w2,
            s,
            ns,
        )
    }

    pub open spec fn seq_has_eid(s: Seq<EdgeEntry<S::E>>, x: usize) -> bool {
        exists|p: int| 0 <= p < s.len() && (#[trigger] s[p]).weight.sid() == x
    }

    /// The fate of one node under a re-typing: the mapping function was
    /// consulted on its weight; `None` dropped it, `Some` kept it under the
    /// same id with the mapped weight.
    pub open spec fn node_fate_with<NS: SchemaExt, NF: Fn(&S, &NS, S::N) -> Option<NS::N>>(
        node_map: NF,
        old_s: S,
        new_s: NS,
        w: S::N,
        g: TypedGraph<NS>,
        s: &S,
        ns: &NS,
        ret: Option<NS::N>,
    ) -> bool {
        &&& *s == old_s
        &&& *ns == new_s
        &&& call_ensures(node_map, (s, ns, w), ret)
        &&& match ret {
            None => !g.spec_has_node(w.sid()),
            Some(w2) => w2.sid() == w.sid() && g.spec_has_node(w.sid()) && g.node_entry(
                w.sid(),
            ).weight == w2,
        }
    }

    pub open spec fn node_fate<NS: SchemaExt, NF: Fn(&S, &NS, S::N) -> Option<NS::N>>(
        node_map: NF,
        old_s: S,
        new_s: NS,
        w: S::N,
        g: TypedGraph<NS>,
    ) -> bool {
        exists|s: &S, ns: &NS, ret: Option<NS::N>| #[trigger] Self::node_fate_with(
            node_map,
            old_s,
            new_s,
            w,
            g,
            s,
            ns,
            ret,
        )
    }

    /// The fate of one edge under a re-typing: the mapping function was
    /// consulted on its weight; `None` dropped it; `Some` kept it under the
    /// same id and endpoints, unless an endpoint was dropped, or the new
    /// schema rejected it purely on quantity grounds (then it was silently
    /// dropped).
    pub open spec fn edge_fate_with<NS: SchemaExt, EF: Fn(&S, &NS, S::E) -> Option<NS::E>>(
        edge_map: EF,
        old_s: S,
        new_s: NS,
        e: EdgeEntry<S::E>,
        g: TypedGraph<NS>,
        s: &S,
        ns: &NS,
        ret: Option<NS::E>,
    ) -> bool {
        &&& *s == old_s
        &&& *ns == new_s
        &&& call_ensures(edge_map, (s, ns, e.weight), ret)
        &&& match ret {
            None => !g.spec_has_edge(e.weight.sid()),
            Some(w2) => w2.sid() == e.weight.sid() && (if !g.spec_has_node(e.source)
                || !g.spec_has_node(e.target) {
                !g.spec_has_edge(e.weight.sid())
            } else {
                (g.spec_has_edge(e.weight.sid()) && g.edge_entry(e.weight.sid())
                    == EdgeEntry { weight: w2, source: e.source, target: e.target }) || (
                !g.spec_has_edge(e.weight.sid()) && exists|q: nat|
                    q >= 1 && !new_s.edge_quantity_allowed(
                        q,
                        w2.ty(),
                        g.node_ty(e.source),
                        g.node_ty(e.target),
                    ))
            }),
        }
    }

    pub open spec fn edge_fate<NS: SchemaExt, EF: Fn(&S, &NS, S::E) -> Option<NS::E>>(
        edge_map: EF,
        old_s: S,
        new_s: NS,
        e: EdgeEntry<S::E>,
        g: TypedGraph<NS>,
    ) -> bool {
        exists|s: &S, ns: &NS, ret: Option<NS::E>| #[trigger] Self::edge_fate_with(
            edge_map,
            old_s,
            new_s,
            e,
            g,
            s,
            ns,
            ret,
        )
    }

    /// How many edges of `ids` are live in `g` and fall in the class (edge
    /// type `et`, target type `tt`).
    pub open spec fn class_count<NS: SchemaExt>(
        ids: Seq<usize>,
        g: TypedGraph<NS>,
        et: <NS::E as Typed>::Type,
        tt: <NS::N as Typed>::Type,
    ) -> nat {
        ids.filter(|eid: usize| g.spec_has_edge(eid) && g.edge_matches(eid, et, tt)).len()
    }

    /// The outgoing order of an edge's source, cut just before the edge
    /// itself: the edges whose turn comes earlier in a replay.
    pub open spec fn prior_ids(g0: Self, x: usize) -> Seq<usize> {
        let ids = g0.node_entry(g0.edge_entry(x).source).outgoing@;
        ids.take(pos_of(ids, x))
    }

    /// The greedy quantity rule at one edge's turn, for one consulted
    /// answer: a mapped edge whose endpoints survive stands in the result
    /// exactly when the new schema admits one more edge of its class on top
    /// of the edges already kept from the earlier turns of its source's
    /// outgoing order.
    pub open spec fn edge_turn_with<NS: SchemaExt, EF: Fn(&S, &NS, S::E) -> Option<NS::E>>(
        edge_map: EF,
        old_s: S,
        new_s: NS,
        g0: Self,
        x: usize,
        g: TypedGraph<NS>,
        s: &S,
        ns: &NS,
        ret: Option<NS::E>,
    ) -> bool {
        let e = g0.edge_entry(x);
        &&& *s == old_s
        &&& *ns == new_s
        &&& call_ensures(edge_map, (s, ns, e.weight), ret)
        &&& match ret {
            None => true,
            Some(w2) => (g.spec_has_node(e.source) && g.spec_has_node(e.target)) ==> (
            g.spec_has_edge(x) <==> new_s.edge_quantity_allowed(
                Self::class_count(Self::prior_ids(g0, x), g, w2.ty(), g.node_ty(e.target)) + 1,
                w2.ty(),
                g.node_ty(e.source),
                g.node_ty(e.target),
            )),
        }
    }

    pub open spec fn edge_turn<NS: SchemaExt, EF: Fn(&S, &NS, S::E) -> Option<NS::E>>(
        edge_map: EF,
        old_s: S,
        new_s: NS,
        g0: Self,
        x: usize,
        g: TypedGraph<NS>,
    ) -> bool {
        exists|s: &S, ns: &NS, ret: Option<NS::E>| #[trigger] Self::edge_turn_with(
            edge_map,
            old_s,
            new_s,
            g0,
            x,
            g,
            s,
            ns,
            ret,
        )
    }

    /// Cutting the replay list at an edge's turn cuts its source's outgoing
    /// order just before that edge.
    proof fn lemma_prior_prefix(ordered: Seq<EdgeEntry<S::E>>, k: int, full: Seq<usize>)
        requires
            0 <= k < ordered.len(),
            full == Self::entry_ids(Self::entries_from_source(ordered, ordered[k].source)),
            full.no_duplicates(),
        ensures
            0 <= pos_of(full, ordered[k].weight.sid()) < full.len(),
            full[pos_of(full, ordered[k].weight.sid())] == ordered[k].weight.sid(),
            full.take(pos_of(full, ordered[k].weight.sid())) == Self::entry_ids(
                Self::entries_from_source(ordered.take(k), ordered[k].source),
            ),
    {
        broadcast use vstd::seq_lib::group_seq_lib_default;

        let src = ordered[k].source;
        let x = ordered[k].weight.sid();
        let a = ordered.take(k);
        let b = ordered.skip(k + 1);
        assert(ordered =~= (a.push(ordered[k])) + b);
        assert(Self::entries_from_source(ordered, src) == Self::entries_from_source(
            a.push(ordered[k]),
            src,
        ) + Self::entries_from_source(b, src));
        Self::lemma_entries_from_source_push(a, ordered[k], src);
        let pre = Self::entry_ids(Self::entries_from_source(a, src));
        let post = Self::entry_ids(Self::entries_from_source(b, src));
        assert(full =~= pre.push(x) + post);
        let pos = pre.len() as int;
        assert(full[pos] == x);
        lemma_pos_of(full, x, pos);
        assert(full.take(pos) =~= pre);
    }

    /// The class count over a fixed id list is stable between two stores
    /// that agree on those edges.
    proof fn lemma_class_count_stable<NS: SchemaExt>(
        ids: Seq<usize>,
        ga: TypedGraph<NS>,
        gb: TypedGraph<NS>,
        et: <NS::E as Typed>::Type,
        tt: <NS::N as Typed>::Type,
    )
        requires
            forall|ii: int|
                0 <= ii < ids.len() ==> ga.spec_has_edge(#[trigger] ids[ii]) == gb.spec_has_edge(
                    ids[ii],
                ),
            forall|ii: int|
                0 <= ii < ids.len() && ga.spec_has_edge(#[trigger] ids[ii]) ==> ga.edge_matches(
                    ids[ii],
                    et,
                    tt,
                ) == gb.edge_matches(ids[ii], et, tt),
        ensures
            Self::class_count(ids, ga, et, tt) == Self::class_count(ids, gb, et, tt),
            Self::kept_order(ids, ga) == Self::kept_order(ids, gb),
    {
        crate::interchange::lemma_filter_congruence(
            ids,
            |eid: usize| ga.spec_has_edge(eid),
            |eid: usize| gb.spec_has_edge(eid),
        );
        crate::interchange::lemma_filter_congruence(
            ids,
            |eid: usize| ga.spec_has_edge(eid) && ga.edge_matches(eid, et, tt),
            |eid: usize| gb.spec_has_edge(eid) && gb.edge_matches(eid, et, tt),
        );
    }

    /// A list of live edges is kept whole.
    pub proof fn lemma_kept_order_all<NS: SchemaExt>(ids: Seq<usize>, g: TypedGraph<NS>)
        requires
            forall|ii: int| 0 <= ii < ids.len() ==> g.spec_has_edge(#[trigger] ids[ii]),
        ensures
            Self::kept_order(ids, g) == ids,
        decreases ids.len(),
    {
        reveal(Seq::filter);
        if ids.len() > 0 {
            let dl = ids.drop_last();
            assert forall|ii: int| 0 <= ii < dl.len() implies g.spec_has_edge(
                #[trigger] dl[ii],
            ) by {
                assert(dl[ii] == ids[ii]);
            }
            Self::lemma_kept_order_all(dl, g);
            assert(Self::kept_order(ids, g) =~= ids);
        } else {
            assert(Self::kept_order(ids, g) =~= ids);
        }
    }

    /// An element of the class strictly raises the class count of any list
    /// extending past it.
    pub proof fn lemma_class_count_prefix<NS: SchemaExt>(
        ids: Seq<usize>,
        g: TypedGraph<NS>,
        et: <NS::E as Typed>::Type,
        tt: <NS::N as Typed>::Type,
        m: int,
    )
        requires
            0 <= m < ids.len(),
            g.spec_has_edge(ids[m]),
            g.edge_matches(ids[m], et, tt),
        ensures
            Self::class_count(ids.take(m), g, et, tt) + 1 <= Self::class_count(ids, g, et, tt),
    {
        broadcast use vstd::seq_lib::group_seq_lib_default;

        reveal(Seq::filter);
        let pred = |eid: usize| g.spec_has_edge(eid) && g.edge_matches(eid, et, tt);
        assert(ids =~= (ids.take(m).push(ids[m])) + ids.skip(m + 1));
        assert((ids.take(m).push(ids[m])).filter(pred) == ids.take(m).filter(pred).push(
            ids[m],
        )) by {
            assert((ids.take(m).push(ids[m])).drop_last() =~= ids.take(m));
            assert((ids.take(m).push(ids[m])).last() == ids[m]);
        }
        assert(Self::class_count(ids, g, et, tt) == ((ids.take(m).push(ids[m]))
            + ids.skip(m + 1)).filter(pred).len());
    }

    /// Capture every edge record in outgoing-adjacency order: for each node
    /// in storage order, its outgoing edges in their authoritative order.
    fn capture_ordered_edges(&self) -> (r: Vec<EdgeEntry<S::E>>)
        requires
            self.wf(),
        ensures
            forall|p: int|
                0 <= p < r@.len() ==> self.spec_has_edge((#[trigger] r@[p]).weight.sid())
                    && r@[p] == self.edge_entry(r@[p].weight.sid()),
            forall|p: int, q: int|
                0 <= p < q < r@.len() ==> (#[trigger] r@[p]).weight.sid() != (
                #[trigger] r@[q]).weight.sid(),
            forall|x: usize| #[trigger]
                self.spec_has_edge(x) ==> Self::seq_has_eid(r@, x),
            r@.len() <= self.spec_edges().len(),
            forall|x: usize| #[trigger]
                self.spec_has_node(x) ==> Self::entry_ids(Self::entries_from_source(r@, x))
                    == self.node_entry(x).outgoing@,
    {
        let nn = self.nodes.len();
        let mut out: Vec<EdgeEntry<S::E>> = Vec::new();
        proof {
            assert forall|x: usize| #[trigger] self.spec_has_node(x) implies Self::entries_from_source(
                out@,
                x,
            ) == Seq::<EdgeEntry<S::E>>::empty() by {
                reveal(Seq::filter);
            }
        }
        let mut i: usize = 0;
        while i < nn
            invariant
                self.wf(),
                nn == self.spec_nodes().len(),
                i <= nn,
                forall|p: int|
                    0 <= p < out@.len() ==> self.spec_has_edge((#[trigger] out@[p]).weight.sid())
                        && out@[p] == self.edge_entry(out@[p].weight.sid()),
                forall|p: int|
                    0 <= p < out@.len() ==> self.node_idx(
                        self.edge_entry((#[trigger] out@[p]).weight.sid()).source,
                    ) < i as int,
                forall|p: int, q: int|
                    0 <= p < q < out@.len() ==> (#[trigger] out@[p]).weight.sid() != (
                    #[trigger] out@[q]).weight.sid(),
                forall|x: usize|
                    #[trigger] self.spec_has_edge(x) && self.node_idx(self.edge_entry(x).source)
                        < i as int ==> Self::seq_has_eid(out@, x),
                forall|x: usize|
                    #[trigger] self.spec_has_node(x) && self.node_idx(x) < i as int
                        ==> Self::entry_ids(Self::entries_from_source(out@, x)) == self.node_entry(
                        x,
                    ).outgoing@,
                forall|x: usize|
                    #[trigger] self.spec_has_node(x) && self.node_idx(x) >= i as int
                        ==> Self::entries_from_source(out@, x) == Seq::<EdgeEntry<S::E>>::empty(),
            decreases nn - i,
        {
            let ghost nid = self.spec_nodes()[i as int].weight.sid();
            proof {
                assert(self.spec_has_node(nid));
                self.lemma_node_idx(nid);
                assert(self.node_idx(nid) == i as int);
                assert(Self::entries_from_source(out@, nid) == Seq::<EdgeEntry<S::E>>::empty());
                assert(Self::entry_ids(Self::entries_from_source(out@, nid)) =~= self.spec_nodes()[
                    i as int
                ].outgoing@.take(0));
            }
            let on = self.nodes[i].outgoing.len();
            let mut k: usize = 0;
            while k < on
                invariant
                    self.wf(),
                    nn == self.spec_nodes().len(),
                    i < nn,
                    on == self.spec_nodes()[i as int].outgoing@.len(),
                    k <= on,
                    forall|p: int|
                        0 <= p < out@.len() ==> self.spec_has_edge(
                            (#[trigger] out@[p]).weight.sid(),
                        ) && out@[p] == self.edge_entry(out@[p].weight.sid()),
                    forall|p: int|
                        0 <= p < out@.len() ==> self.node_idx(
                            self.edge_entry((#[trigger] out@[p]).weight.sid()).source,
                        ) <= i as int,
                    forall|p: int, q: int|
                        0 <= p < q < out@.len() ==> (#[trigger] out@[p]).weight.sid() != (
                        #[trigger] out@[q]).weight.sid(),
                    forall|x: usize|
                        #[trigger] self.spec_has_edge(x) && self.node_idx(
                            self.edge_entry(x).source,
                        ) < i as int ==> Self::seq_has_eid(out@, x),
                    forall|x: usize|
                        #[trigger] self.spec_has_edge(x) && self.node_idx(
                            self.edge_entry(x).source,
                        ) == i as int && self.spec_nodes()[i as int].outgoing@.take(
                            k as int,
                        ).contains(x) ==> Self::seq_has_eid(out@, x),
                    forall|p: int|
                        0 <= p < out@.len() && self.node_idx(
                            self.edge_entry((#[trigger] out@[p]).weight.sid()).source,
                        ) == i as int ==> self.spec_nodes()[i as int].outgoing@.take(
                            k as int,
                        ).contains(out@[p].weight.sid()),
                    nid == self.spec_nodes()[i as int].weight.sid(),
                    self.node_idx(nid) == i as int,
                    forall|x: usize|
                        #[trigger] self.spec_has_node(x) && self.node_idx(x) < i as int
                            ==> Self::entry_ids(Self::entries_from_source(out@, x))
                            == self.node_entry(x).outgoing@,
                    forall|x: usize|
                        #[trigger] self.spec_has_node(x) && self.node_idx(x) > i as int
                            ==> Self::entries_from_source(out@, x) == Seq::<
                            EdgeEntry<S::E>,
                        >::empty(),
                    Self::entry_ids(Self::entries_from_source(out@, nid)) == self.spec_nodes()[
                        i as int
                    ].outgoing@.take(k as int),
                decreases on - k,
            {
                let eid = self.nodes[i].outgoing[k];
                proof {
                    assert(self.spec_has_edge(eid));
                    self.lemma_edge_idx(eid);
                    assert(self.edge_entry(eid).source == self.spec_nodes()[i as int].weight.sid());
                    self.lemma_node_idx(self.edge_entry(eid).source);
                    assert(self.node_idx(self.edge_entry(eid).source) == i as int);
                    // the same id cannot already be captured: it would have to
                    // sit earlier in this same outgoing order
                    assert(self.spec_nodes()[i as int].outgoing@[k as int] == eid);
                    if Self::seq_has_eid(out@, eid) {
                        let p = choose|p: int|
                            0 <= p < out@.len() && (#[trigger] out@[p]).weight.sid() == eid;
                        let kk = choose|kk: int|
                            0 <= kk < k && self.spec_nodes()[i as int].outgoing@.take(k as int)[kk]
                                == eid;
                        assert(self.spec_nodes()[i as int].outgoing@[kk] == eid);
                        assert(false);
                    }
                }
                let j = match self.find_edge_idx(eid) {
                    Some(j) => j,
                    None => {
                        proof {
                            assert(false);
                        }
                        return out;
                    },
                };
                let w = self.edges[j].weight.dup();
                let s = self.edges[j].source;
                let t = self.edges[j].target;
                proof {
                    assert(self.edge_idx(eid) == j as int);
                    assert(EdgeEntry { weight: w, source: s, target: t } == self.edge_entry(eid));
                }
                let ghost out0 = out@;
                out.push(EdgeEntry { weight: w, source: s, target: t });
                proof {
                    let og = self.spec_nodes()[i as int].outgoing@;
                    assert(out@[out@.len() - 1].weight.sid() == eid);
                    let edv = EdgeEntry { weight: w, source: s, target: t };
                    assert(edv.source == nid);
                    assert forall|x: usize| #[trigger]
                        self.spec_has_node(x) && self.node_idx(x) != i as int implies Self::entries_from_source(
                        out@,
                        x,
                    ) == Self::entries_from_source(out0, x) by {
                        Self::lemma_entries_from_source_push(out0, edv, x);
                        assert(x != nid);
                    }
                    Self::lemma_entries_from_source_push(out0, edv, nid);
                    assert(Self::entries_from_source(out@, nid) == Self::entries_from_source(
                        out0,
                        nid,
                    ).push(edv));
                    assert(og.take(k + 1) =~= og.take(k as int).push(og[k as int]));
                    assert(Self::entry_ids(Self::entries_from_source(out@, nid)) =~= og.take(
                        k + 1,
                    ));
                    assert forall|x: usize| Self::seq_has_eid(out0, x) implies Self::seq_has_eid(
                        out@,
                        x,
                    ) by {
                        let pp = choose|pp: int|
                            0 <= pp < out0.len() && (#[trigger] out0[pp]).weight.sid() == x;
                        assert(out@[pp].weight.sid() == x);
                    }
                    assert forall|x: usize|
                        #[trigger] self.spec_has_edge(x) && self.node_idx(
                            self.edge_entry(x).source,
                        ) == i as int && og.take(k + 1).contains(x) implies Self::seq_has_eid(
                        out@,
                        x,
                    ) by {
                        let kk = choose|kk: int|
                            0 <= kk < k + 1 && #[trigger] og.take(k + 1)[kk] == x;
                        if kk < k {
                            assert(og.take(k as int)[kk] == x);
                            assert(og.take(k as int).contains(x));
                            assert(Self::seq_has_eid(out0, x));
                            let pp = choose|pp: int|
                                0 <= pp < out0.len() && (#[trigger] out0[pp]).weight.sid() == x;
                            assert(out@[pp].weight.sid() == x);
                        } else {
                            assert(x == eid);
                        }
                    }
                    assert forall|p: int|
                        0 <= p < out@.len() && self.node_idx(
                            self.edge_entry((#[trigger] out@[p]).weight.sid()).source,
                        ) == i as int implies og.take(k + 1).contains(out@[p].weight.sid()) by {
                        if p < out@.len() - 1 {
                            assert(out@[p] == out0[p]);
                            assert(og.take(k as int).contains(out0[p].weight.sid()));
                            let kk = choose|kk: int|
                                0 <= kk < k && #[trigger] og.take(k as int)[kk] == out0[p].weight.sid();
                            assert(og.take(k + 1)[kk] == out@[p].weight.sid());
                        } else {
                            assert(og.take(k + 1)[k as int] == eid);
                        }
                    }
                }
                k += 1;
            }
            proof {
                let og = self.spec_nodes()[i as int].outgoing@;
                assert(k == on);
                assert(og.take(on as int) =~= og);
                assert forall|x: usize|
                    #[trigger] self.spec_has_node(x) && self.node_idx(x) < i + 1 implies Self::entry_ids(
                    Self::entries_from_source(out@, x),
                ) == self.node_entry(x).outgoing@ by {
                    if self.node_idx(x) == i as int {
                        assert(x == nid);
                    }
                }
                assert forall|x: usize|
                    #[trigger] self.spec_has_edge(x) && self.node_idx(self.edge_entry(x).source)
                        < i + 1 implies Self::seq_has_eid(out@, x) by {
                    if self.node_idx(self.edge_entry(x).source) == i as int {
                        self.lemma_edge_idx(x);
                        let src = self.edge_entry(x).source;
                        self.lemma_node_idx(src);
                        assert(self.node_entry(src).outgoing@.contains(x));
                        assert(self.node_entry(src) == self.spec_nodes()[i as int]);
                        let kk = choose|kk: int| 0 <= kk < og.len() && og[kk] == x;
                        assert(og.take(k as int)[kk] == x);
                        assert(og.take(k as int).contains(x));
                    }
                }
            }
            i += 1;
        }
        proof {
            assert forall|x: usize| #[trigger] self.spec_has_edge(x) implies Self::seq_has_eid(
                out@,
                x,
            ) by {
                self.lemma_edge_idx(x);
                assert(self.spec_has_node(self.edge_entry(x).source));
                self.lemma_node_idx(self.edge_entry(x).source);
            }
            // pairwise-distinct live ids bound the captured length
            broadcast use vstd::seq_lib::seq_to_set_is_finite;

            let sids = out@.map_values(|e: EdgeEntry<S::E>| e.weight.sid());
            let ids = self.spec_edges().map_values(|e: EdgeEntry<S::E>| e.weight.sid());
            assert(sids.no_duplicates());
            sids.unique_seq_to_set();
            ids.lemma_cardinality_of_set();
            assert forall|x: usize| sids.to_set().contains(x) implies ids.to_set().contains(x) by {
                let p = choose|p: int| 0 <= p < sids.len() && sids[p] == x;
                assert(out@[p].weight.sid() == x);
                assert(self.spec_has_edge(x));
                let j = choose|j: int|
                    0 <= j < self.spec_edges().len() && (#[trigger] self.spec_edges()[j]).weight.sid()
                        == x;
                assert(ids[j] == x);
                assert(ids.contains(x));
            }
            vstd::set_lib::lemma_len_subset(sids.to_set(), ids.to_set());
        }
        out
    }

    /// Re-type the whole store into a fresh one under a new schema.
    ///
    /// Nodes are mapped first: `None` drops the node, `Some` must keep its
    /// id.  Then the edges are replayed in outgoing-adjacency order; a mapped
    /// edge is added when both endpoints survived, and a rejection purely on
    /// quantity grounds drops the edge silently (the last edges in each
    /// outgoing order are dropped first); any other rejection is fatal.
    #[verifier::rlimit(100)]
    pub fn update_schema<NS: SchemaExt, NF: Fn(&S, &NS, S::N) -> Option<NS::N>, EF: Fn(
        &S,
        &NS,
        S::E,
    ) -> Option<NS::E>>(self, schema: NS, node_map: NF, edge_map: EF) -> (r: SchemaResult<
        TypedGraph<NS>,
        NS,
    >)
        requires
            self.wf(),
            forall|s: &S, ns: &NS, w: S::N| call_requires(node_map, (s, ns, w)),
            forall|s: &S, ns: &NS, w: S::E| call_requires(edge_map, (s, ns, w)),
        ensures
            r matches Ok(g) ==> {
                &&& g.wf()
                &&& g.spec_schema() == schema
                &&& forall|x: usize| #[trigger] g.spec_has_node(x) ==> self.spec_has_node(x)
                &&& forall|x: usize| #[trigger] g.spec_has_edge(x) ==> self.spec_has_edge(x)
                &&& forall|x: usize| #[trigger]
                    self.spec_has_node(x) ==> Self::node_fate(
                        node_map,
                        self.spec_schema(),
                        schema,
                        self.node_entry(x).weight,
                        g,
                    )
                &&& forall|x: usize| #[trigger]
                    self.spec_has_edge(x) ==> Self::edge_fate(
                        edge_map,
                        self.spec_schema(),
                        schema,
                        self.edge_entry(x),
                        g,
                    )
                &&& forall|x: usize| #[trigger]
                    g.spec_has_node(x) ==> g.node_entry(x).outgoing@ == Self::kept_order(
                        self.node_entry(x).outgoing@,
                        g,
                    )
                &&& forall|x: usize| #[trigger]
                    self.spec_has_edge(x) ==> Self::edge_turn(
                        edge_map,
                        self.spec_schema(),
                        schema,
                        self,
                        x,
                        g,
                    )
            },
            r matches Err(e) ==> (e matches TypedError::InconsistentNodeIds(_, _) || e
                matches TypedError::InconsistentEdgeIds(_, _) || e
                matches TypedError::InvalidNodeType(_, _) || e matches TypedError::InvalidEdgeType(
                _,
                _,
                _,
                _,
            )),
            r matches Err(e) ==> (e matches TypedError::InconsistentNodeIds(a, b)
                ==> Self::node_id_change(node_map, self.spec_schema(), schema, self, a, b)),
            r matches Err(e) ==> (e matches TypedError::InconsistentEdgeIds(a, b)
                ==> Self::edge_id_change(edge_map, self.spec_schema(), schema, self, a, b)),
            (forall|i: int|
                0 <= i < self.spec_nodes().len() ==> Self::node_map_clean(
                    node_map,
                    self.spec_schema(),
                    schema,
                    (#[trigger] self.spec_nodes()[i]).weight,
                )) && (forall|j: int|
                0 <= j < self.spec_edges().len() ==> Self::edge_map_clean(
                    node_map,
                    edge_map,
                    self.spec_schema(),
                    schema,
                    #[trigger] self.spec_edges()[j],
                    self.node_entry(self.spec_edges()[j].source).weight,
                    self.node_entry(self.spec_edges()[j].target).weight,
                )) ==> r is Ok,
            (forall|i: int|
                0 <= i < self.spec_nodes().len() ==> Self::node_map_types_clean(
                    node_map,
                    self.spec_schema(),
                    schema,
                    (#[trigger] self.spec_nodes()[i]).weight,
                )) && (exists|i: int|
                0 <= i < self.spec_nodes().len() && (#[trigger] Self::node_map_breaks_id(
                    node_map,
                    self.spec_schema(),
                    schema,
                    self.spec_nodes()[i].weight,
                ))) ==> (r matches Err(e) && e matches TypedError::InconsistentNodeIds(_, _)),
            (forall|i: int|
                0 <= i < self.spec_nodes().len() ==> Self::node_map_clean(
                    node_map,
                    self.spec_schema(),
                    schema,
                    (#[trigger] self.spec_nodes()[i]).weight,
                )) && (forall|j: int|
                0 <= j < self.spec_edges().len() ==> Self::edge_map_types_clean(
                    node_map,
                    edge_map,
                    self.spec_schema(),
                    schema,
                    #[trigger] self.spec_edges()[j],
                    self.node_entry(self.spec_edges()[j].source).weight,
                    self.node_entry(self.spec_edges()[j].target).weight,
                )) && (exists|j: int|
                0 <= j < self.spec_edges().len() && (#[trigger] Self::edge_map_breaks_id(
                    edge_map,
                    self.spec_schema(),
                    schema,
                    self.spec_edges()[j].weight,
                ))) ==> (r matches Err(e) && e matches TypedError::InconsistentEdgeIds(_, _)),
    {
        let ghost clean_nodes = forall|ii: int|
            0 <= ii < self.spec_nodes().len() ==> Self::node_map_clean(
                node_map,
                self.spec_schema(),
                schema,
                (#[trigger] self.spec_nodes()[ii]).weight,
            );
        let ghost clean_edges = forall|jj: int|
            0 <= jj < self.spec_edges().len() ==> Self::edge_map_clean(
                node_map,
                edge_map,
                self.spec_schema(),
                schema,
                #[trigger] self.spec_edges()[jj],
                self.node_entry(self.spec_edges()[jj].source).weight,
                self.node_entry(self.spec_edges()[jj].target).weight,
            );
        let ordered = self.capture_ordered_edges();
        let mut new_graph = TypedGraph::<NS>::new(schema);
        let nn = self.nodes.len();
        let mut i: usize = 0;
        while i < nn
            invariant
                self.wf(),
                forall|s: &S, ns: &NS, w: S::N| call_requires(node_map, (s, ns, w)),
                clean_nodes == (forall|ii: int|
                    0 <= ii < self.spec_nodes().len() ==> Self::node_map_clean(
                        node_map,
                        self.spec_schema(),
                        schema,
                        (#[trigger] self.spec_nodes()[ii]).weight,
                    )),
                nn == self.spec_nodes().len(),
                i <= nn,
                new_graph.wf(),
                new_graph.spec_schema() == schema,
                new_graph.spec_edges().len() == 0,
                new_graph.spec_nodes().len() <= i,
                forall|x: usize| #[trigger]
                    new_graph.spec_has_node(x) ==> self.spec_has_node(x) && self.node_idx(x)
                        < i as int,
                forall|p: int|
                    0 <= p < i ==> Self::node_fate(
                        node_map,
                        self.spec_schema(),
                        schema,
                        (#[trigger] self.spec_nodes()[p]).weight,
                        new_graph,
                    ),
                forall|p: int|
                    0 <= p < i ==> !(#[trigger] Self::node_map_breaks_id(
                        node_map,
                        self.spec_schema(),
                        schema,
                        self.spec_nodes()[p].weight,
                    )),
            decreases nn - i,
        {
            let ghost g0 = new_graph;
            let w = self.nodes[i].weight.dup();
            let old_id = w.get_id();
            proof {
                self.lemma_node_idx(old_id);
                assert(self.node_idx(old_id) == i as int);
            }
            let mapped = node_map(&self.schema, new_graph.get_schema(), w);
            let ghost mappedv = mapped;
            match mapped {
                None => {
                    proof {
                        assert(!new_graph.spec_has_node(old_id));
                        assert(Self::node_fate_with(
                            node_map,
                            self.spec_schema(),
                            schema,
                            self.spec_nodes()[i as int].weight,
                            new_graph,
                            &self.schema,
                            &new_graph.schema,
                            mappedv,
                        ));
                    }
                },
                Some(n2) => {
                    let ghost n2v = n2;
                    let new_id = n2.get_id();
                    if new_id != old_id {
                        proof {
                            assert(Self::node_id_change_at(
                                node_map,
                                self.spec_schema(),
                                schema,
                                self,
                                old_id,
                                new_id,
                                i as int,
                                n2v,
                                &self.schema,
                                &new_graph.schema,
                            ));
                            if clean_nodes {
                                assert(Self::node_map_clean(
                                    node_map,
                                    self.spec_schema(),
                                    schema,
                                    self.spec_nodes()[i as int].weight,
                                ));
                                assert(false);
                            }
                        }
                        return Err(TypedError::InconsistentNodeIds(old_id, new_id));
                    }
                    proof {
                        assert(!new_graph.spec_has_node(old_id));
                    }
                    match new_graph.add_node(n2) {
                        Ok(_) => {},
                        Err(e) => {
                            proof {
                                // a node add fails only on a schema rejection
                                assert(!(e matches TypedError::InconsistentNodeIds(_, _)) && !(
                                e matches TypedError::InconsistentEdgeIds(_, _)));
                                if clean_nodes {
                                    assert(Self::node_map_clean(
                                        node_map,
                                        self.spec_schema(),
                                        schema,
                                        self.spec_nodes()[i as int].weight,
                                    ));
                                    assert(schema.node_allowed(n2v.ty()));
                                    assert(false);
                                }
                                if (forall|ii: int|
                                    0 <= ii < self.spec_nodes().len()
                                        ==> Self::node_map_types_clean(
                                        node_map,
                                        self.spec_schema(),
                                        schema,
                                        (#[trigger] self.spec_nodes()[ii]).weight,
                                    )) {
                                    assert(Self::node_map_types_clean(
                                        node_map,
                                        self.spec_schema(),
                                        schema,
                                        self.spec_nodes()[i as int].weight,
                                    ));
                                    assert(schema.node_allowed(n2v.ty()));
                                    assert(false);
                                }
                            }
                            return Err(e);
                        },
                    }
                    proof {
                        assert(TypedGraph::<NS>::node_inserted(g0, new_graph, n2v));
                        TypedGraph::<NS>::lemma_node_push_lookup(g0, new_graph, n2v);
                        assert(new_graph.node_entry(old_id).weight == n2v);
                        assert(Self::node_fate_with(
                            node_map,
                            self.spec_schema(),
                            schema,
                            self.spec_nodes()[i as int].weight,
                            new_graph,
                            &self.schema,
                            &new_graph.schema,
                            mappedv,
                        ));
                    }
                },
            }
            proof {
                // earlier fates survive: membership and weights are stable
                assert forall|p: int| 0 <= p < i implies Self::node_fate(
                    node_map,
                    self.spec_schema(),
                    schema,
                    (#[trigger] self.spec_nodes()[p]).weight,
                    new_graph,
                ) by {
                    let wp = self.spec_nodes()[p].weight;
                    assert(Self::node_fate(node_map, self.spec_schema(), schema, wp, g0));
                    let (s, ns, ret): (&S, &NS, Option<NS::N>) = choose|s: &S, ns: &NS, ret:
                        Option<NS::N>| #[trigger] Self::node_fate_with(
                        node_map,
                        self.spec_schema(),
                        schema,
                        wp,
                        g0,
                        s,
                        ns,
                        ret,
                    );
                    match ret {
                        None => {
                            assert(wp.sid() != self.spec_nodes()[i as int].weight.sid());
                            assert(!new_graph.spec_has_node(wp.sid()));
                        },
                        Some(w2) => {
                            if new_graph != g0 {
                                TypedGraph::<NS>::lemma_node_push_lookup(
                                    g0,
                                    new_graph,
                                    new_graph.spec_nodes()[new_graph.spec_nodes().len() - 1].weight,
                                );
                            }
                        },
                    }
                    assert(Self::node_fate_with(
                        node_map,
                        self.spec_schema(),
                        schema,
                        wp,
                        new_graph,
                        s,
                        ns,
                        ret,
                    ));
                }
                // the consulted answer kept the id or dropped the node, so
                // this weight does not always change its id
                assert(!Self::node_map_breaks_id(
                    node_map,
                    self.spec_schema(),
                    schema,
                    self.spec_nodes()[i as int].weight,
                )) by {
                    assert(call_ensures(
                        node_map,
                        (&self.schema, &new_graph.schema, self.spec_nodes()[i as int].weight),
                        mappedv,
                    ));
                }
            }
            i += 1;
        }
        let ghost g_nodes = new_graph;
        proof {
            // restate the node fates over ids, and settle the empty orders
            assert forall|x: usize| #[trigger] self.spec_has_node(x) implies Self::node_fate(
                node_map,
                self.spec_schema(),
                schema,
                self.node_entry(x).weight,
                g_nodes,
            ) by {
                self.lemma_node_idx(x);
            }
            assert forall|x: usize| #[trigger] new_graph.spec_has_node(x) implies self.spec_has_node(
                x,
            ) && new_graph.node_entry(x).outgoing@ == Self::kept_order(
                Self::entry_ids(Self::entries_from_source(ordered@.take(0), x)),
                new_graph,
            ) by {
                new_graph.lemma_node_idx(x);
                if new_graph.node_entry(x).outgoing@.len() > 0 {
                    assert(new_graph.spec_has_edge(new_graph.node_entry(x).outgoing@[0]));
                    assert(false);
                }
                assert(ordered@.take(0) =~= Seq::<EdgeEntry<S::E>>::empty());
                assert(Self::entries_from_source(ordered@.take(0), x) =~= Seq::<
                    EdgeEntry<S::E>,
                >::empty()) by {
                    reveal(Seq::filter);
                }
                assert(Self::kept_order(
                    Self::entry_ids(Self::entries_from_source(ordered@.take(0), x)),
                    new_graph,
                ) =~= Seq::<usize>::empty()) by {
                    reveal(Seq::filter);
                }
                assert(new_graph.node_entry(x).outgoing@ =~= Seq::<usize>::empty());
            }
        }
        let ne = ordered.len();
        let mut k: usize = 0;
        while k < ne
            invariant
                self.wf(),
                forall|s: &S, ns: &NS, w: S::E| call_requires(edge_map, (s, ns, w)),
                clean_nodes == (forall|ii: int|
                    0 <= ii < self.spec_nodes().len() ==> Self::node_map_clean(
                        node_map,
                        self.spec_schema(),
                        schema,
                        (#[trigger] self.spec_nodes()[ii]).weight,
                    )),
                clean_edges == (forall|jj: int|
                    0 <= jj < self.spec_edges().len() ==> Self::edge_map_clean(
                        node_map,
                        edge_map,
                        self.spec_schema(),
                        schema,
                        #[trigger] self.spec_edges()[jj],
                        self.node_entry(self.spec_edges()[jj].source).weight,
                        self.node_entry(self.spec_edges()[jj].target).weight,
                    )),
                g_nodes.wf(),
                forall|x: usize| #[trigger]
                    self.spec_has_node(x) ==> Self::node_fate(
                        node_map,
                        self.spec_schema(),
                        schema,
                        self.node_entry(x).weight,
                        g_nodes,
                    ),
                forall|x: usize| #[trigger]
                    new_graph.spec_has_node(x) ==> self.spec_has_node(x)
                        && new_graph.node_entry(x).outgoing@ == Self::kept_order(
                        Self::entry_ids(Self::entries_from_source(ordered@.take(k as int), x)),
                        new_graph,
                    ),
                ne == ordered@.len(),
                k <= ne,
                forall|p: int|
                    0 <= p < ordered@.len() ==> self.spec_has_edge(
                        (#[trigger] ordered@[p]).weight.sid(),
                    ) && ordered@[p] == self.edge_entry(ordered@[p].weight.sid()),
                forall|p: int, q: int|
                    0 <= p < q < ordered@.len() ==> (#[trigger] ordered@[p]).weight.sid() != (
                    #[trigger] ordered@[q]).weight.sid(),
                new_graph.wf(),
                new_graph.spec_schema() == schema,
                new_graph.spec_edges().len() <= k,
                ordered@.len() <= self.spec_edges().len(),
                forall|x: usize| #[trigger]
                    new_graph.spec_has_node(x) <==> g_nodes.spec_has_node(x),
                forall|x: usize|
                    g_nodes.spec_has_node(x) ==> #[trigger] new_graph.node_entry(x).weight
                        == g_nodes.node_entry(x).weight,
                forall|x: usize| #[trigger]
                    new_graph.spec_has_edge(x) ==> Self::seq_has_eid(ordered@.take(k as int), x),
                forall|p: int|
                    0 <= p < k ==> Self::edge_fate(
                        edge_map,
                        self.spec_schema(),
                        schema,
                        #[trigger] ordered@[p],
                        new_graph,
                    ),
                forall|p: int|
                    0 <= p < self.spec_nodes().len() ==> !(#[trigger] Self::node_map_breaks_id(
                        node_map,
                        self.spec_schema(),
                        schema,
                        self.spec_nodes()[p].weight,
                    )),
                forall|p: int|
                    0 <= p < k ==> !(#[trigger] Self::edge_map_breaks_id(
                        edge_map,
                        self.spec_schema(),
                        schema,
                        ordered@[p].weight,
                    )),
                forall|x: usize| #[trigger]
                    self.spec_has_node(x) ==> Self::entry_ids(
                        Self::entries_from_source(ordered@, x),
                    ) == self.node_entry(x).outgoing@,
                forall|p: int|
                    0 <= p < k ==> Self::prior_ids(self, (#[trigger] ordered@[p]).weight.sid())
                        == Self::entry_ids(
                        Self::entries_from_source(ordered@.take(p), ordered@[p].source),
                    ),
                forall|p: int|
                    0 <= p < k ==> Self::edge_turn(
                        edge_map,
                        self.spec_schema(),
                        schema,
                        self,
                        (#[trigger] ordered@[p]).weight.sid(),
                        new_graph,
                    ),
            decreases ne - k,
        {
            let ghost g0 = new_graph;
            let ghost mut added: bool = false;
            let e_src = ordered[k].source;
            let e_tgt = ordered[k].target;
            let w = ordered[k].weight.dup();
            let old_id = w.get_id();
            proof {
                assert(ordered@[k as int] == self.edge_entry(old_id));
                self.lemma_edge_idx(old_id);
            }
            proof {
                // the turn edge's source is live, and the replay prefix cut
                // here is exactly its outgoing order cut before this edge
                assert(self.spec_has_node(e_src));
                self.lemma_node_idx(e_src);
                let full = Self::entry_ids(Self::entries_from_source(ordered@, e_src));
                assert(full == self.node_entry(e_src).outgoing@);
                assert(full.no_duplicates());
                Self::lemma_prior_prefix(ordered@, k as int, full);
                assert(Self::prior_ids(self, old_id) == Self::entry_ids(
                    Self::entries_from_source(ordered@.take(k as int), e_src),
                ));
            }
            let mapped = edge_map(&self.schema, new_graph.get_schema(), w);
            let ghost mappedv = mapped;
            match mapped {
                None => {
                    proof {
                        assert(!new_graph.spec_has_edge(old_id)) by {
                            if new_graph.spec_has_edge(old_id) {
                                let p = choose|p: int|
                                    0 <= p < k && (#[trigger] ordered@.take(k as int)[p]).weight.sid()
                                        == old_id;
                                assert(ordered@[p].weight.sid() == old_id);
                            }
                        }
                        assert(Self::edge_fate_with(
                            edge_map,
                            self.spec_schema(),
                            schema,
                            ordered@[k as int],
                            new_graph,
                            &self.schema,
                            &new_graph.schema,
                            mappedv,
                        ));
                        assert(Self::edge_turn_with(
                            edge_map,
                            self.spec_schema(),
                            schema,
                            self,
                            old_id,
                            new_graph,
                            &self.schema,
                            &new_graph.schema,
                            mappedv,
                        ));
                    }
                },
                Some(e2) => {
                    let ghost e2v = e2;
                    let new_id = e2.get_id();
                    if new_id != old_id {
                        proof {
                            assert(Self::edge_id_change_at(
                                edge_map,
                                self.spec_schema(),
                                schema,
                                self,
                                old_id,
                                new_id,
                                self.edge_idx(old_id),
                                e2v,
                                &self.schema,
                                &new_graph.schema,
                            ));
                            if clean_edges {
                                assert(Self::edge_map_clean(
                                    node_map,
                                    edge_map,
                                    self.spec_schema(),
                                    schema,
                                    self.spec_edges()[self.edge_idx(old_id)],
                                    self.node_entry(self.edge_entry(old_id).source).weight,
                                    self.node_entry(self.edge_entry(old_id).target).weight,
                                ));
                                assert(false);
                            }
                        }
                        return Err(TypedError::InconsistentEdgeIds(old_id, new_id));
                    }
                    proof {
                        assert(!new_graph.spec_has_edge(old_id)) by {
                            if new_graph.spec_has_edge(old_id) {
                                let p = choose|p: int|
                                    0 <= p < k && (#[trigger] ordered@.take(k as int)[p]).weight.sid()
                                        == old_id;
                                assert(ordered@[p].weight.sid() == old_id);
                            }
                        }
                    }
                    if new_graph.has_node(e_src) && new_graph.has_node(e_tgt) {
                        proof {
                            assert(new_graph.spec_edges().len() <= k);
                            assert((k as int) < ordered@.len());
                            assert(ordered@.len() <= self.spec_edges().len());
                            assert(self.sizes_ok());
                            assert(new_graph.spec_edges().len() < STORE_CAP);
                            // the schema's running count for this class is
                            // exactly the count over the already-consulted
                            // prefix of the source's old outgoing order
                            let prior = Self::prior_ids(self, old_id);
                            let et = e2v.ty();
                            let ttt = g0.node_ty(e_tgt);
                            crate::interchange::lemma_filter_filter(
                                prior,
                                |eid: usize| g0.spec_has_edge(eid),
                                |eid: usize| g0.edge_matches(eid, et, ttt),
                                |eid: usize| g0.spec_has_edge(eid) && g0.edge_matches(
                                    eid,
                                    et,
                                    ttt,
                                ),
                            );
                            g0.lemma_node_idx(e_src);
                            assert(g0.node_entry(e_src).outgoing@ == Self::kept_order(prior, g0));
                            assert(g0.spec_count_matching(e_src, et, ttt) == Self::class_count(
                                prior,
                                g0,
                                et,
                                ttt,
                            ));
                        }
                        match new_graph.add_edge(e_src, e_tgt, e2) {
                            Ok(_) => {
                                proof {
                                    added = true;
                                    assert(TypedGraph::<NS>::add_edge_inserted(
                                        g0,
                                        new_graph,
                                        e_src,
                                        e_tgt,
                                        e2v,
                                    ));
                                    TypedGraph::<NS>::lemma_edge_push_lookup(
                                        g0,
                                        new_graph,
                                        EdgeEntry { weight: e2v, source: e_src, target: e_tgt },
                                    );
                                    TypedGraph::<NS>::lemma_node_lookup_preserved(g0, new_graph);
                                    assert forall|x: usize|
                                        g_nodes.spec_has_node(x) implies #[trigger] new_graph.node_entry(
                                        x,
                                    ).weight == g_nodes.node_entry(x).weight by {
                                        g0.lemma_node_idx(x);
                                    }
                                    assert(Self::edge_fate_with(
                                        edge_map,
                                        self.spec_schema(),
                                        schema,
                                        ordered@[k as int],
                                        new_graph,
                                        &self.schema,
                                        &new_graph.schema,
                                        mappedv,
                                    ));
                                    assert forall|x: usize| #[trigger]
                                        new_graph.spec_has_edge(x) implies Self::seq_has_eid(
                                        ordered@.take(k + 1),
                                        x,
                                    ) by {
                                        if x == old_id {
                                            assert(ordered@.take(k + 1)[k as int].weight.sid()
                                                == x);
                                        } else {
                                            assert(g0.spec_has_edge(x));
                                            let p = choose|p: int|
                                                0 <= p < k && (#[trigger] ordered@.take(
                                                    k as int,
                                                )[p]).weight.sid() == x;
                                            assert(ordered@.take(k + 1)[p].weight.sid() == x);
                                        }
                                    }
                                    // the insertion was admitted, so the
                                    // class was under its ceiling at this
                                    // turn, and the prior ids are untouched
                                    let prior = Self::prior_ids(self, old_id);
                                    let et = e2v.ty();
                                    let ttt = g0.node_ty(e_tgt);
                                    assert(schema.edge_quantity_allowed(
                                        g0.spec_count_matching(e_src, et, ttt) + 1,
                                        et,
                                        g0.node_ty(e_src),
                                        ttt,
                                    ));
                                    assert forall|ii: int|
                                        0 <= ii < prior.len() implies g0.spec_has_edge(
                                        #[trigger] prior[ii],
                                    ) == new_graph.spec_has_edge(prior[ii]) && prior[ii]
                                        != old_id by {
                                        let ents = Self::entries_from_source(
                                            ordered@.take(k as int),
                                            e_src,
                                        );
                                        assert(prior[ii] == ents[ii].weight.sid());
                                        assert(ents.contains(ents[ii]));
                                        Self::lemma_entries_from_source_sub(
                                            ordered@.take(k as int),
                                            e_src,
                                        );
                                        assert(ordered@.take(k as int).contains(ents[ii]));
                                        let j = choose|j: int|
                                            0 <= j < k && #[trigger] ordered@.take(k as int)[j]
                                                == ents[ii];
                                        assert(ordered@[j] == ents[ii]);
                                        assert(ordered@[j].weight.sid() != ordered@[
                                            k as int].weight.sid());
                                        if g0.spec_has_edge(prior[ii]) {
                                            g0.lemma_edge_idx(prior[ii]);
                                            assert(new_graph.spec_edges()[g0.edge_idx(
                                                prior[ii],
                                            )].weight.sid() == prior[ii]);
                                        }
                                        if new_graph.spec_has_edge(prior[ii])
                                            && !g0.spec_has_edge(prior[ii]) {
                                            let jj = choose|jj: int|
                                                0 <= jj < new_graph.spec_edges().len() && (
                                                #[trigger] new_graph.spec_edges()[jj]).weight.sid()
                                                    == prior[ii];
                                            assert(jj == g0.spec_edges().len() as int);
                                            assert(false);
                                        }
                                    }
                                    assert forall|ii: int|
                                        0 <= ii < prior.len() && g0.spec_has_edge(
                                            #[trigger] prior[ii],
                                        ) implies g0.edge_matches(prior[ii], et, ttt)
                                        == new_graph.edge_matches(prior[ii], et, ttt) by {
                                        g0.lemma_edge_idx(prior[ii]);
                                        new_graph.lemma_edge_idx(prior[ii]);
                                        assert(new_graph.spec_edges()[g0.edge_idx(
                                            prior[ii],
                                        )].weight.sid() == prior[ii]);
                                        assert(new_graph.edge_idx(prior[ii]) == g0.edge_idx(
                                            prior[ii],
                                        ));
                                        assert(new_graph.edge_entry(prior[ii]) == g0.edge_entry(
                                            prior[ii],
                                        ));
                                        let t2 = g0.edge_entry(prior[ii]).target;
                                        assert(g0.spec_has_node(t2));
                                        g0.lemma_node_idx(t2);
                                        new_graph.lemma_node_idx(t2);
                                        assert(new_graph.node_ty(t2) == g0.node_ty(t2));
                                    }
                                    Self::lemma_class_count_stable(prior, g0, new_graph, et, ttt);
                                    g0.lemma_node_idx(e_src);
                                    g0.lemma_node_idx(e_tgt);
                                    new_graph.lemma_node_idx(e_src);
                                    new_graph.lemma_node_idx(e_tgt);
                                    assert(new_graph.node_ty(e_src) == g0.node_ty(e_src));
                                    assert(new_graph.node_ty(e_tgt) == ttt);
                                    assert(Self::edge_turn_with(
                                        edge_map,
                                        self.spec_schema(),
                                        schema,
                                        self,
                                        old_id,
                                        new_graph,
                                        &self.schema,
                                        &new_graph.schema,
                                        mappedv,
                                    ));
                                }
                            },
                            Err(e) => {
                                let fatal: bool = match &e {
                                    TypedError::InvalidEdgeType(
                                        _,
                                        _,
                                        _,
                                        DisAllowedEdge::ToMany,
                                    ) => false,
                                    _ => true,
                                };
                                if fatal {
                                    proof {
                                        // an edge add fails only on a missing
                                        // endpoint or a schema rejection
                                        assert(!(e matches TypedError::InconsistentNodeIds(_, _))
                                            && !(e matches TypedError::InconsistentEdgeIds(_, _)));
                                        let etypes_all = forall|jj: int|
                                            0 <= jj < self.spec_edges().len()
                                                ==> Self::edge_map_types_clean(
                                                node_map,
                                                edge_map,
                                                self.spec_schema(),
                                                schema,
                                                #[trigger] self.spec_edges()[jj],
                                                self.node_entry(
                                                    self.spec_edges()[jj].source,
                                                ).weight,
                                                self.node_entry(
                                                    self.spec_edges()[jj].target,
                                                ).weight,
                                            );
                                        if clean_nodes && (clean_edges || etypes_all) {
                                            let src_w = self.node_entry(
                                                self.edge_entry(old_id).source,
                                            ).weight;
                                            let tgt_w = self.node_entry(
                                                self.edge_entry(old_id).target,
                                            ).weight;
                                            assert(self.spec_has_node(e_src));
                                            assert(self.spec_has_node(e_tgt));
                                            // the endpoint types in the new store
                                            // are types their weights map to
                                            let (s1, ns1, ret1): (&S, &NS, Option<NS::N>) = choose|
                                                s1: &S,
                                                ns1: &NS,
                                                ret1: Option<NS::N>,
                                            | #[trigger] Self::node_fate_with(
                                                node_map,
                                                self.spec_schema(),
                                                schema,
                                                src_w,
                                                g_nodes,
                                                s1,
                                                ns1,
                                                ret1,
                                            );
                                            assert(ret1 matches Some(w2s) ==> g_nodes.node_entry(
                                                e_src,
                                            ).weight == w2s);
                                            let (s2, ns2, ret2): (&S, &NS, Option<NS::N>) = choose|
                                                s2: &S,
                                                ns2: &NS,
                                                ret2: Option<NS::N>,
                                            | #[trigger] Self::node_fate_with(
                                                node_map,
                                                self.spec_schema(),
                                                schema,
                                                tgt_w,
                                                g_nodes,
                                                s2,
                                                ns2,
                                                ret2,
                                            );
                                            match ret1 {
                                                None => {
                                                    assert(!g_nodes.spec_has_node(e_src));
                                                    assert(false);
                                                },
                                                Some(w2s) => {
                                                    assert(Self::node_fate_witness(
                                                        node_map,
                                                        self.spec_schema(),
                                                        schema,
                                                        src_w,
                                                        w2s,
                                                        g0.node_ty(e_src),
                                                        s1,
                                                        ns1,
                                                    )) by {
                                                        g0.lemma_node_idx(e_src);
                                                        g_nodes.lemma_node_idx(e_src);
                                                    }
                                                },
                                            }
                                            match ret2 {
                                                None => {
                                                    assert(!g_nodes.spec_has_node(e_tgt));
                                                    assert(false);
                                                },
                                                Some(w2t) => {
                                                    assert(Self::node_fate_witness(
                                                        node_map,
                                                        self.spec_schema(),
                                                        schema,
                                                        tgt_w,
                                                        w2t,
                                                        g0.node_ty(e_tgt),
                                                        s2,
                                                        ns2,
                                                    )) by {
                                                        g0.lemma_node_idx(e_tgt);
                                                        g_nodes.lemma_node_idx(e_tgt);
                                                    }
                                                },
                                            }
                                            assert(Self::mapped_node_ty(
                                                node_map,
                                                self.spec_schema(),
                                                schema,
                                                src_w,
                                                g0.node_ty(e_src),
                                            ));
                                            assert(Self::mapped_node_ty(
                                                node_map,
                                                self.spec_schema(),
                                                schema,
                                                tgt_w,
                                                g0.node_ty(e_tgt),
                                            ));
                                            if clean_edges {
                                                assert(Self::edge_map_clean(
                                                    node_map,
                                                    edge_map,
                                                    self.spec_schema(),
                                                    schema,
                                                    self.spec_edges()[self.edge_idx(old_id)],
                                                    src_w,
                                                    tgt_w,
                                                ));
                                            } else {
                                                assert(Self::edge_map_types_clean(
                                                    node_map,
                                                    edge_map,
                                                    self.spec_schema(),
                                                    schema,
                                                    self.spec_edges()[self.edge_idx(old_id)],
                                                    src_w,
                                                    tgt_w,
                                                ));
                                            }
                                            assert(schema.edge_type_allowed(
                                                e2v.ty(),
                                                g0.node_ty(e_src),
                                                g0.node_ty(e_tgt),
                                            ));
                                            assert(false);
                                        }
                                    }
                                    return Err(e);
                                }
                                proof {
                                    // dropped purely on quantity grounds
                                    assert(new_graph == g0);
                                    let et = e2v.ty();
                                    let st = g0.node_ty(e_src);
                                    let tt = g0.node_ty(e_tgt);
                                    let q = g0.spec_count_matching(e_src, et, tt) + 1;
                                    assert(!g0.spec_schema().edge_quantity_allowed(q, et, st, tt));
                                    assert(q >= 1);
                                    assert(Self::edge_fate_with(
                                        edge_map,
                                        self.spec_schema(),
                                        schema,
                                        ordered@[k as int],
                                        new_graph,
                                        &self.schema,
                                        &new_graph.schema,
                                        mappedv,
                                    ));
                                    // the class was at its ceiling, so the
                                    // at-turn rule holds with the edge absent
                                    assert(!new_graph.spec_has_edge(old_id));
                                    assert(Self::edge_turn_with(
                                        edge_map,
                                        self.spec_schema(),
                                        schema,
                                        self,
                                        old_id,
                                        new_graph,
                                        &self.schema,
                                        &new_graph.schema,
                                        mappedv,
                                    ));
                                }
                            },
                        }
                    } else {
                        proof {
                            assert(Self::edge_fate_with(
                                edge_map,
                                self.spec_schema(),
                                schema,
                                ordered@[k as int],
                                new_graph,
                                &self.schema,
                                &new_graph.schema,
                                mappedv,
                            ));
                            assert(Self::edge_turn_with(
                                edge_map,
                                self.spec_schema(),
                                schema,
                                self,
                                old_id,
                                new_graph,
                                &self.schema,
                                &new_graph.schema,
                                mappedv,
                            ));
                        }
                    }
                },
            }
            proof {
                // the surviving outgoing orders extend by one record
                let e_k = ordered@[k as int];
                assert forall|x: usize| #[trigger]
                    new_graph.spec_has_node(x) implies self.spec_has_node(x)
                    && new_graph.node_entry(x).outgoing@ == Self::kept_order(
                    Self::entry_ids(Self::entries_from_source(ordered@.take(k + 1), x)),
                    new_graph,
                ) by {
                    assert(g0.spec_has_node(x));
                    let cls_k = Self::entries_from_source(ordered@.take(k as int), x);
                    let ids_k = Self::entry_ids(cls_k);
                    assert(g0.node_entry(x).outgoing@ == Self::kept_order(ids_k, g0));
                    assert(ordered@.take(k + 1) =~= ordered@.take(k as int).push(e_k));
                    Self::lemma_entries_from_source_push(ordered@.take(k as int), e_k, x);
                    Self::lemma_entries_from_source_sub(ordered@.take(k as int), x);
                    assert forall|ii: int| 0 <= ii < ids_k.len() implies g0.spec_has_edge(
                        #[trigger] ids_k[ii],
                    ) == new_graph.spec_has_edge(ids_k[ii]) by {
                        assert(ids_k[ii] == cls_k[ii].weight.sid());
                        assert(cls_k.contains(cls_k[ii]));
                        assert(ordered@.take(k as int).contains(cls_k[ii]));
                        let p = choose|p: int|
                            0 <= p < k && #[trigger] ordered@.take(k as int)[p] == cls_k[ii];
                        assert(ordered@[p] == cls_k[ii]);
                        assert(ordered@[p].weight.sid() != ordered@[k as int].weight.sid());
                        if !added {
                            assert(new_graph == g0);
                        }
                    }
                    crate::interchange::lemma_filter_congruence(
                        ids_k,
                        |eid2: usize| g0.spec_has_edge(eid2),
                        |eid2: usize| new_graph.spec_has_edge(eid2),
                    );
                    assert(Self::kept_order(ids_k, g0) == Self::kept_order(ids_k, new_graph));
                    if e_k.source == x {
                        assert(Self::entries_from_source(ordered@.take(k + 1), x) == cls_k.push(
                            e_k,
                        ));
                        assert(Self::entry_ids(cls_k.push(e_k)) =~= ids_k.push(old_id));
                        Self::lemma_kept_order_push(ids_k, old_id, new_graph);
                        if added {
                            assert(x == e_src);
                            assert(new_graph.spec_has_edge(old_id));
                            g0.lemma_node_idx(x);
                            assert(new_graph.node_entry(x).outgoing@ == g0.node_entry(
                                x,
                            ).outgoing@.push(old_id));
                        } else {
                            assert(!new_graph.spec_has_edge(old_id)) by {
                                if new_graph.spec_has_edge(old_id) {
                                    let p = choose|p: int|
                                        0 <= p < k && (#[trigger] ordered@.take(
                                            k as int,
                                        )[p]).weight.sid() == old_id;
                                    assert(ordered@[p].weight.sid() == old_id);
                                }
                            }
                            assert(new_graph.node_entry(x).outgoing@ == g0.node_entry(
                                x,
                            ).outgoing@);
                        }
                    } else {
                        assert(Self::entries_from_source(ordered@.take(k + 1), x) == cls_k);
                        if added {
                            assert(x != e_src);
                            g0.lemma_node_idx(x);
                            g0.lemma_node_idx(e_src);
                            assert(new_graph.node_entry(x).outgoing@ == g0.node_entry(
                                x,
                            ).outgoing@);
                        } else {
                            assert(new_graph == g0);
                        }
                    }
                }
                // the prefix fact lifts to the longer prefix in every branch
                assert forall|x: usize| #[trigger] new_graph.spec_has_edge(x) implies Self::seq_has_eid(
                    ordered@.take(k + 1),
                    x,
                ) by {
                    if Self::seq_has_eid(ordered@.take(k as int), x) {
                        let p = choose|p: int|
                            0 <= p < k && (#[trigger] ordered@.take(k as int)[p]).weight.sid() == x;
                        assert(ordered@.take(k + 1)[p].weight.sid() == x);
                    }
                }
                // earlier fates survive this step
                assert forall|p: int| 0 <= p < k implies Self::edge_fate(
                    edge_map,
                    self.spec_schema(),
                    schema,
                    #[trigger] ordered@[p],
                    new_graph,
                ) by {
                    let ep = ordered@[p];
                    assert(Self::edge_fate(edge_map, self.spec_schema(), schema, ep, g0));
                    assert(ep.weight.sid() != ordered@[k as int].weight.sid());
                    let (s, ns, ret): (&S, &NS, Option<NS::E>) = choose|s: &S, ns: &NS, ret:
                        Option<NS::E>| #[trigger] Self::edge_fate_with(
                        edge_map,
                        self.spec_schema(),
                        schema,
                        ep,
                        g0,
                        s,
                        ns,
                        ret,
                    );
                    match ret {
                        None => {
                            assert(!new_graph.spec_has_edge(ep.weight.sid()));
                        },
                        Some(w2) => {
                            assert(new_graph.spec_has_node(ep.source) == g0.spec_has_node(
                                ep.source,
                            ));
                            assert(new_graph.spec_has_node(ep.target) == g0.spec_has_node(
                                ep.target,
                            ));
                            if g0.spec_has_node(ep.source) && g0.spec_has_node(ep.target) {
                                assert forall|x: usize| g0.spec_has_node(x) implies {
                                    &&& #[trigger] new_graph.node_ty(x) == g0.node_ty(x)
                                } by {
                                    g0.lemma_node_idx(x);
                                    new_graph.lemma_node_idx(x);
                                }
                                if g0.spec_has_edge(ep.weight.sid()) {
                                    assert(new_graph.spec_has_edge(ep.weight.sid()));
                                    assert(new_graph.edge_entry(ep.weight.sid()) == g0.edge_entry(
                                        ep.weight.sid(),
                                    ));
                                } else {
                                    assert(!new_graph.spec_has_edge(ep.weight.sid()));
                                    let q0 = choose|q: nat|
                                        q >= 1 && !schema.edge_quantity_allowed(
                                            q,
                                            w2.ty(),
                                            g0.node_ty(ep.source),
                                            g0.node_ty(ep.target),
                                        );
                                    assert(!schema.edge_quantity_allowed(
                                        q0,
                                        w2.ty(),
                                        new_graph.node_ty(ep.source),
                                        new_graph.node_ty(ep.target),
                                    ));
                                }
                            } else {
                                assert(!g0.spec_has_edge(ep.weight.sid()));
                                assert(!new_graph.spec_has_edge(ep.weight.sid()));
                            }
                        },
                    }
                    assert(Self::edge_fate_with(
                        edge_map,
                        self.spec_schema(),
                        schema,
                        ep,
                        new_graph,
                        s,
                        ns,
                        ret,
                    ));
                }
                // earlier at-turn verdicts survive this step
                assert forall|p: int| 0 <= p < k implies Self::edge_turn(
                    edge_map,
                    self.spec_schema(),
                    schema,
                    self,
                    (#[trigger] ordered@[p]).weight.sid(),
                    new_graph,
                ) by {
                    let ep = ordered@[p];
                    let xp = ep.weight.sid();
                    assert(Self::edge_turn(edge_map, self.spec_schema(), schema, self, xp, g0));
                    let (s, ns, ret): (&S, &NS, Option<NS::E>) = choose|s: &S, ns: &NS, ret:
                        Option<NS::E>| #[trigger] Self::edge_turn_with(
                        edge_map,
                        self.spec_schema(),
                        schema,
                        self,
                        xp,
                        g0,
                        s,
                        ns,
                        ret,
                    );
                    assert(self.edge_entry(xp) == ep);
                    if !added {
                        assert(new_graph == g0);
                    } else {
                        match ret {
                            None => {},
                            Some(w2) => {
                                assert(new_graph.spec_has_node(ep.source) == g0.spec_has_node(
                                    ep.source,
                                ));
                                assert(new_graph.spec_has_node(ep.target) == g0.spec_has_node(
                                    ep.target,
                                ));
                                if g0.spec_has_node(ep.source) && g0.spec_has_node(ep.target) {
                                    let prior_p = Self::prior_ids(self, xp);
                                    let et2 = w2.ty();
                                    let tt2 = g0.node_ty(ep.target);
                                    assert(prior_p == Self::entry_ids(
                                        Self::entries_from_source(ordered@.take(p), ep.source),
                                    ));
                                    assert forall|ii: int|
                                        0 <= ii < prior_p.len() implies g0.spec_has_edge(
                                        #[trigger] prior_p[ii],
                                    ) == new_graph.spec_has_edge(prior_p[ii]) by {
                                        let ents = Self::entries_from_source(
                                            ordered@.take(p),
                                            ep.source,
                                        );
                                        assert(prior_p[ii] == ents[ii].weight.sid());
                                        assert(ents.contains(ents[ii]));
                                        Self::lemma_entries_from_source_sub(
                                            ordered@.take(p),
                                            ep.source,
                                        );
                                        assert(ordered@.take(p).contains(ents[ii]));
                                        let j = choose|j: int|
                                            0 <= j < p && #[trigger] ordered@.take(p)[j]
                                                == ents[ii];
                                        assert(ordered@[j] == ents[ii]);
                                        assert(ordered@[j].weight.sid() != ordered@[
                                            k as int].weight.sid());
                                        if g0.spec_has_edge(prior_p[ii]) {
                                            g0.lemma_edge_idx(prior_p[ii]);
                                            assert(new_graph.spec_edges()[g0.edge_idx(
                                                prior_p[ii],
                                            )].weight.sid() == prior_p[ii]);
                                        }
                                        if new_graph.spec_has_edge(prior_p[ii])
                                            && !g0.spec_has_edge(prior_p[ii]) {
                                            let jj = choose|jj: int|
                                                0 <= jj < new_graph.spec_edges().len() && (
                                                #[trigger] new_graph.spec_edges()[jj]).weight.sid()
                                                    == prior_p[ii];
                                            assert(jj == g0.spec_edges().len() as int);
                                            assert(false);
                                        }
                                    }
                                    assert forall|ii: int|
                                        0 <= ii < prior_p.len() && g0.spec_has_edge(
                                            #[trigger] prior_p[ii],
                                        ) implies g0.edge_matches(prior_p[ii], et2, tt2)
                                        == new_graph.edge_matches(prior_p[ii], et2, tt2) by {
                                        g0.lemma_edge_idx(prior_p[ii]);
                                        new_graph.lemma_edge_idx(prior_p[ii]);
                                        assert(new_graph.spec_edges()[g0.edge_idx(
                                            prior_p[ii],
                                        )].weight.sid() == prior_p[ii]);
                                        assert(new_graph.edge_idx(prior_p[ii]) == g0.edge_idx(
                                            prior_p[ii],
                                        ));
                                        assert(new_graph.edge_entry(prior_p[ii]) == g0.edge_entry(
                                            prior_p[ii],
                                        ));
                                        let t2 = g0.edge_entry(prior_p[ii]).target;
                                        assert(g0.spec_has_node(t2));
                                        g0.lemma_node_idx(t2);
                                        new_graph.lemma_node_idx(t2);
                                        assert(new_graph.node_ty(t2) == g0.node_ty(t2));
                                    }
                                    Self::lemma_class_count_stable(prior_p, g0, new_graph, et2, tt2);
                                    g0.lemma_node_idx(ep.source);
                                    g0.lemma_node_idx(ep.target);
                                    new_graph.lemma_node_idx(ep.source);
                                    new_graph.lemma_node_idx(ep.target);
                                    assert(new_graph.node_ty(ep.source) == g0.node_ty(ep.source));
                                    assert(new_graph.node_ty(ep.target) == g0.node_ty(ep.target));
                                    assert(ep.weight.sid() != ordered@[k as int].weight.sid());
                                    if g0.spec_has_edge(xp) {
                                        g0.lemma_edge_idx(xp);
                                        assert(new_graph.spec_edges()[g0.edge_idx(
                                            xp,
                                        )].weight.sid() == xp);
                                    }
                                    if new_graph.spec_has_edge(xp) && !g0.spec_has_edge(xp) {
                                        let jj = choose|jj: int|
                                            0 <= jj < new_graph.spec_edges().len() && (
                                            #[trigger] new_graph.spec_edges()[jj]).weight.sid()
                                                == xp;
                                        assert(jj == g0.spec_edges().len() as int);
                                        assert(false);
                                    }
                                }
                            },
                        }
                    }
                    assert(Self::edge_turn_with(
                        edge_map,
                        self.spec_schema(),
                        schema,
                        self,
                        xp,
                        new_graph,
                        s,
                        ns,
                        ret,
                    ));
                }
                // the consulted answer kept the id or dropped the edge, so
                // this weight does not always change its id
                assert(!Self::edge_map_breaks_id(
                    edge_map,
                    self.spec_schema(),
                    schema,
                    ordered@[k as int].weight,
                )) by {
                    assert(call_ensures(
                        edge_map,
                        (&self.schema, &new_graph.schema, ordered@[k as int].weight),
                        mappedv,
                    ));
                }
            }
            k += 1;
        }
        proof {
            assert forall|x: usize| #[trigger] self.spec_has_node(x) implies Self::node_fate(
                node_map,
                self.spec_schema(),
                schema,
                self.node_entry(x).weight,
                new_graph,
            ) by {
                self.lemma_node_idx(x);
                let wp = self.node_entry(x).weight;
                assert(Self::node_fate(node_map, self.spec_schema(), schema, wp, g_nodes));
                let (s, ns, ret): (&S, &NS, Option<NS::N>) = choose|s: &S, ns: &NS, ret:
                    Option<NS::N>| #[trigger] Self::node_fate_with(
                    node_map,
                    self.spec_schema(),
                    schema,
                    wp,
                    g_nodes,
                    s,
                    ns,
                    ret,
                );
                match ret {
                    None => {
                        assert(!new_graph.spec_has_node(wp.sid()));
                    },
                    Some(w2) => {
                        assert(new_graph.spec_has_node(wp.sid()));
                        assert(new_graph.node_entry(wp.sid()).weight == g_nodes.node_entry(
                            wp.sid(),
                        ).weight);
                    },
                }
                assert(Self::node_fate_with(
                    node_map,
                    self.spec_schema(),
                    schema,
                    wp,
                    new_graph,
                    s,
                    ns,
                    ret,
                ));
            }
            assert forall|x: usize| #[trigger] self.spec_has_edge(x) implies Self::edge_fate(
                edge_map,
                self.spec_schema(),
                schema,
                self.edge_entry(x),
                new_graph,
            ) by {
                self.lemma_edge_idx(x);
                assert(Self::seq_has_eid(ordered@, x));
                let p = choose|p: int|
                    0 <= p < ordered@.len() && (#[trigger] ordered@[p]).weight.sid() == x;
                assert(ordered@[p] == self.edge_entry(x));
            }
            assert forall|x: usize| #[trigger] self.spec_has_edge(x) implies Self::edge_turn(
                edge_map,
                self.spec_schema(),
                schema,
                self,
                x,
                new_graph,
            ) by {
                self.lemma_edge_idx(x);
                assert(Self::seq_has_eid(ordered@, x));
                let p = choose|p: int|
                    0 <= p < ordered@.len() && (#[trigger] ordered@[p]).weight.sid() == x;
                assert(ordered@[p] == self.edge_entry(x));
            }
            assert forall|x: usize| #[trigger] new_graph.spec_has_edge(x) implies self.spec_has_edge(
                x,
            ) by {
                assert(Self::seq_has_eid(ordered@.take(ne as int), x));
                let p = choose|p: int|
                    0 <= p < ne && (#[trigger] ordered@.take(ne as int)[p]).weight.sid() == x;
                assert(ordered@[p].weight.sid() == x);
            }
            assert forall|x: usize| #[trigger]
                new_graph.spec_has_node(x) implies new_graph.node_entry(x).outgoing@
                == Self::kept_order(self.node_entry(x).outgoing@, new_graph) by {
                assert(ordered@.take(ne as int) =~= ordered@);
                assert(Self::entry_ids(Self::entries_from_source(ordered@, x))
                    == self.node_entry(x).outgoing@);
            }
            assert forall|jj: int| 0 <= jj < self.spec_edges().len() implies !(
            #[trigger] Self::edge_map_breaks_id(
                edge_map,
                self.spec_schema(),
                schema,
                self.spec_edges()[jj].weight,
            )) by {
                let x = self.spec_edges()[jj].weight.sid();
                assert(self.spec_has_edge(x));
                self.lemma_edge_idx(x);
                assert(self.edge_idx(x) == jj);
                assert(Self::seq_has_eid(ordered@, x));
                let p = choose|p: int|
                    0 <= p < ordered@.len() && (#[trigger] ordered@[p]).weight.sid() == x;
                assert(ordered@[p] == self.edge_entry(x));
                assert(!Self::edge_map_breaks_id(
                    edge_map,
                    self.spec_schema(),
                    schema,
                    ordered@[p].weight,
                ));
            }
        }
        Ok(new_graph)
    }
}

/// A subset of a finite set with the same cardinality is the whole set.
proof fn lemma_subset_same_len<A>(s1: Set<A>, s2: Set<A>)
    requires
        s2.finite(),
        s1.subset_of(s2),
        s1.len() == s2.len(),
    ensures
        s1 =~= s2,
{
    broadcast use vstd::set_lib::group_set_lib_default;

    if exists|x: A| s2.contains(x) && !s1.contains(x) {
        let x = choose|x: A| s2.contains(x) && !s1.contains(x);
        assert(s1.subset_of(s2.remove(x)));
        vstd::set_lib::lemma_len_subset(s1, s2.remove(x));
        assert(s2.remove(x).len() == s2.len() - 1);
    }
}

impl<S: SchemaExt> TypedGraph<S> {
    /// Observable equality of two stores: same live ids, same types, same
    /// edge endpoints, and the same outgoing order for every node.
    pub open spec fn spec_same_graph(a: Self, b: Self) -> bool {
        &&& a.spec_nodes().len() == b.spec_nodes().len()
        &&& a.spec_edges().len() == b.spec_edges().len()
        &&& forall|x: usize| #[trigger] a.spec_has_node(x) <==> b.spec_has_node(x)
        &&& forall|x: usize|
            a.spec_has_node(x) ==> #[trigger] a.node_ty(x) == b.node_ty(x)
        &&& forall|x: usize|
            a.spec_has_node(x) ==> #[trigger] a.node_entry(x).outgoing@ == b.node_entry(
                x,
            ).outgoing@
        &&& forall|x: usize| #[trigger] a.spec_has_edge(x) <==> b.spec_has_edge(x)
        &&& forall|x: usize|
            a.spec_has_edge(x) ==> #[trigger] a.edge_entry(x).weight.ty() == b.edge_entry(
                x,
            ).weight.ty() && a.edge_entry(x).source == b.edge_entry(x).source && a.edge_entry(
                x,
            ).target == b.edge_entry(x).target
    }

    /// If every id of `a` is live in `b` and the counts agree, the id sets
    /// are the same.
    proof fn lemma_node_ids_onto(a: Self, b: Self)
        requires
            a.nodes_distinct(),
            b.nodes_distinct(),
            a.spec_nodes().len() == b.spec_nodes().len(),
            forall|x: usize| #[trigger] a.spec_has_node(x) ==> b.spec_has_node(x),
        ensures
            forall|x: usize| #[trigger] b.spec_has_node(x) ==> a.spec_has_node(x),
    {
        broadcast use vstd::seq_lib::seq_to_set_is_finite;

        let sa = a.spec_nodes().map_values(|e: NodeEntry<S::N>| e.weight.sid());
        let sb = b.spec_nodes().map_values(|e: NodeEntry<S::N>| e.weight.sid());
        assert(sa.no_duplicates());
        assert(sb.no_duplicates());
        sa.unique_seq_to_set();
        sb.unique_seq_to_set();
        assert forall|x: usize| sa.to_set().contains(x) implies sb.to_set().contains(x) by {
            let i = choose|i: int| 0 <= i < sa.len() && sa[i] == x;
            assert(a.spec_nodes()[i].weight.sid() == x);
            assert(a.spec_has_node(x));
            assert(b.spec_has_node(x));
            let j = choose|j: int|
                0 <= j < b.spec_nodes().len() && (#[trigger] b.spec_nodes()[j]).weight.sid() == x;
            assert(sb[j] == x);
        }
        lemma_subset_same_len(sa.to_set(), sb.to_set());
        assert forall|x: usize| #[trigger] b.spec_has_node(x) implies a.spec_has_node(x) by {
            let j = choose|j: int|
                0 <= j < b.spec_nodes().len() && (#[trigger] b.spec_nodes()[j]).weight.sid() == x;
            assert(sb[j] == x);
            assert(sb.contains(x));
            assert(sa.to_set().contains(x));
            let i = choose|i: int| 0 <= i < sa.len() && sa[i] == x;
            assert(a.spec_nodes()[i].weight.sid() == x);
        }
    }

    /// Edge-side counterpart of `lemma_node_ids_onto`.
    proof fn lemma_edge_ids_onto(a: Self, b: Self)
        requires
            a.edges_distinct(),
            b.edges_distinct(),
            a.spec_edges().len() == b.spec_edges().len(),
            forall|x: usize| #[trigger] a.spec_has_edge(x) ==> b.spec_has_edge(x),
        ensures
            forall|x: usize| #[trigger] b.spec_has_edge(x) ==> a.spec_has_edge(x),
    {
        broadcast use vstd::seq_lib::seq_to_set_is_finite;

        let sa = a.spec_edges().map_values(|e: EdgeEntry<S::E>| e.weight.sid());
        let sb = b.spec_edges().map_values(|e: EdgeEntry<S::E>| e.weight.sid());
        assert(sa.no_duplicates());
        assert(sb.no_duplicates());
        sa.unique_seq_to_set();
        sb.unique_seq_to_set();
        assert forall|x: usize| sa.to_set().contains(x) implies sb.to_set().contains(x) by {
            let i = choose|i: int| 0 <= i < sa.len() && sa[i] == x;
            assert(a.spec_edges()[i].weight.sid() == x);
            assert(a.spec_has_edge(x));
            assert(b.spec_has_edge(x));
            let j = choose|j: int|
                0 <= j < b.spec_edges().len() && (#[trigger] b.spec_edges()[j]).weight.sid() == x;
            assert(sb[j] == x);
        }
        lemma_subset_same_len(sa.to_set(), sb.to_set());
        assert forall|x: usize| #[trigger] b.spec_has_edge(x) implies a.spec_has_edge(x) by {
            let j = choose|j: int|
                0 <= j < b.spec_edges().len() && (#[trigger] b.spec_edges()[j]).weight.sid() == x;
            assert(sb[j] == x);
            assert(sb.contains(x));
            assert(sa.to_set().contains(x));
            let i = choose|i: int| 0 <= i < sa.len() && sa[i] == x;
            assert(a.spec_edges()[i].weight.sid() == x);
        }
    }

    /// Decide observable equality with another store: equal counts, equal
    /// per-entity types, equal edge endpoints, and equal outgoing order per
    /// node.
    pub fn graph_eq(&self, other: &Self) -> (r: bool)
        requires
            self.wf(),
            other.wf(),
        ensures
            r == Self::spec_same_graph(*self, *other),
    {
        if self.node_count() != other.node_count() {
            return false;
        }
        if self.edge_count() != other.edge_count() {
            return false;
        }
        let nn = self.node_count();
        let mut i: usize = 0;
        while i < nn
            invariant
                self.wf(),
                other.wf(),
                nn == self.spec_nodes().len(),
                i <= nn,
                forall|p: int|
                    0 <= p < i ==> {
                        let x = (#[trigger] self.spec_nodes()[p]).weight.sid();
                        &&& other.spec_has_node(x)
                        &&& self.node_ty(x) == other.node_ty(x)
                        &&& self.node_entry(x).outgoing@ == other.node_entry(x).outgoing@
                    },
            decreases nn - i,
        {
            let x = self.node_id_at(i);
            proof {
                self.lemma_node_idx(x);
                assert(self.node_idx(x) == i as int);
            }
            let oj = match other.find_node_idx(x) {
                Some(j) => j,
                None => {
                    proof {
                        assert(self.spec_has_node(x));
                        assert(!other.spec_has_node(x));
                    }
                    return false;
                },
            };
            proof {
                other.lemma_node_idx(x);
                assert(other.node_idx(x) == oj as int);
            }
            let my_ty = self.nodes[i].weight.get_type();
            let other_ty = other.nodes[oj].weight.get_type();
            if !my_ty.type_eq(&other_ty) {
                proof {
                    assert(self.spec_has_node(x));
                    assert(self.node_ty(x) != other.node_ty(x));
                }
                return false;
            }
            let a_out = &self.nodes[i].outgoing;
            let b_out = &other.nodes[oj].outgoing;
            if a_out.len() != b_out.len() {
                proof {
                    assert(self.spec_has_node(x));
                    assert(self.node_entry(x).outgoing@.len() != other.node_entry(
                        x,
                    ).outgoing@.len());
                }
                return false;
            }
            let m = a_out.len();
            let mut k: usize = 0;
            while k < m
                invariant
                    self.spec_has_node(x),
                    other.spec_has_node(x),
                    a_out@ == self.node_entry(x).outgoing@,
                    b_out@ == other.node_entry(x).outgoing@,
                    m == a_out@.len(),
                    m == b_out@.len(),
                    k <= m,
                    forall|p: int| 0 <= p < k ==> a_out@[p] == b_out@[p],
                decreases m - k,
            {
                if a_out[k] != b_out[k] {
                    proof {
                        assert(self.node_entry(x).outgoing@[k as int] != other.node_entry(
                            x,
                        ).outgoing@[k as int]);
                    }
                    return false;
                }
                k += 1;
            }
            proof {
                assert(a_out@ =~= b_out@);
            }
            i += 1;
        }
        let ne = self.edge_count();
        let mut j: usize = 0;
        while j < ne
            invariant
                self.wf(),
                other.wf(),
                ne == self.spec_edges().len(),
                j <= ne,
                forall|p: int|
                    0 <= p < j ==> {
                        let x = (#[trigger] self.spec_edges()[p]).weight.sid();
                        &&& other.spec_has_edge(x)
                        &&& self.edge_entry(x).weight.ty() == other.edge_entry(x).weight.ty()
                        &&& self.edge_entry(x).source == other.edge_entry(x).source
                        &&& self.edge_entry(x).target == other.edge_entry(x).target
                    },
            decreases ne - j,
        {
            let x = self.edges[j].weight.get_id();
            proof {
                self.lemma_edge_idx(x);
                assert(self.edge_idx(x) == j as int);
            }
            let oj = match other.find_edge_idx(x) {
                Some(p) => p,
                None => {
                    return false;
                },
            };
            proof {
                other.lemma_edge_idx(x);
                assert(other.edge_idx(x) == oj as int);
            }
            let my_ty = self.edges[j].weight.get_type();
            let other_ty = other.edges[oj].weight.get_type();
            if !my_ty.type_eq(&other_ty) {
                return false;
            }
            if self.edges[j].source != other.edges[oj].source {
                return false;
            }
            if self.edges[j].target != other.edges[oj].target {
                return false;
            }
            j += 1;
        }
        proof {
            assert forall|x: usize| #[trigger] self.spec_has_node(x) implies other.spec_has_node(
                x,
            ) && self.node_ty(x) == other.node_ty(x) && self.node_entry(x).outgoing@
                == other.node_entry(x).outgoing@ by {
                self.lemma_node_idx(x);
            }
            Self::lemma_node_ids_onto(*self, *other);
            assert forall|x: usize| #[trigger] self.spec_has_edge(x) implies other.spec_has_edge(
                x,
            ) && self.edge_entry(x).weight.ty() == other.edge_entry(x).weight.ty()
                && self.edge_entry(x).source == other.edge_entry(x).source && self.edge_entry(
                x,
            ).target == other.edge_entry(x).target by {
                self.lemma_edge_idx(x);
            }
            Self::lemma_edge_ids_onto(*self, *other);
        }
        true
    }
}

impl<S: SchemaExt + Default> Default for TypedGraph<S> {
    /// An empty store under the schema's default value.
    fn default() -> (r: Self)
        ensures
            r.wf(),
            r.spec_nodes() =~= Seq::<NodeEntry<S::N>>::empty(),
            r.spec_edges() =~= Seq::<EdgeEntry<S::E>>::empty(),
    {
        TypedGraph { nodes: Vec::new(), edges: Vec::new(), schema: S::default() }
    }
}

} // verus!
