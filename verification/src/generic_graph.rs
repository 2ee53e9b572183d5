//! A ready-made schema driven entirely by filter lists.

use vstd::prelude::*;

use crate::generic_weight::GenericWeight;
use crate::graph_traits::{DisAllowedEdge, DisAllowedNode, SchemaExt, TypeIdentifier, Typed};
use crate::typed_error::SchemaResult;
use crate::typed_graph::TypedGraph;

verus! {

/// A graph whose nodes and edges are [`GenericWeight`]s under a
/// [`GenericSchema`].
pub type GenericGraph<NT, ET> = TypedGraph<GenericSchema<NT, ET>>;

/// Result type of operations on a [`GenericGraph`].
pub type GenericResult<T, NT, ET> = SchemaResult<T, GenericSchema<NT, ET>>;

/// Whether the optional list admits `x` as a member.
pub open spec fn opt_list_has<T>(l: Option<Seq<T>>, x: T) -> bool {
    match l {
        None => false,
        Some(v) => v.contains(x),
    }
}

/// The cap of the first entry whose key equals `key`, if any.
pub open spec fn cap_lookup<K>(l: Seq<(K, usize)>, key: K) -> Option<usize>
    decreases l.len(),
{
    if l.len() == 0 {
        None
    } else if l[0].0 == key {
        Some(l[0].1)
    } else {
        cap_lookup(l.drop_first(), key)
    }
}

/// A schema built from white- and blacklists over node types, edge types and
/// (edge type, source type, target type) endpoint triples, plus an optional
/// per-endpoint-triple quantity ceiling.
#[verifier::ext_equal]
#[derive(Clone)]
pub struct GenericSchema<NT: TypeIdentifier, ET: TypeIdentifier> {
    pub node_whitelist: Option<Vec<NT>>,
    pub node_blacklist: Option<Vec<NT>>,
    pub edge_whitelist: Option<Vec<ET>>,
    pub edge_blacklist: Option<Vec<ET>>,
    pub endpoint_whitelist: Option<Vec<(ET, NT, NT)>>,
    pub endpoint_blacklist: Option<Vec<(ET, NT, NT)>>,
    pub endpoint_max_quantity: Option<Vec<((ET, NT, NT), usize)>>,
}

/// Whether the list contains a tag equal to `x`.
pub fn list_contains<T: TypeIdentifier>(v: &Vec<T>, x: &T) -> (r: bool)
    ensures
        r == v@.contains(*x),
{
    let n = v.len();
    let mut k: usize = 0;
    while k < n
        invariant
            n == v@.len(),
            k <= n,
            forall|p: int| 0 <= p < k ==> v@[p] != *x,
        decreases n - k,
    {
        if v[k].type_eq(x) {
            return true;
        }
        k += 1;
    }
    proof {
        if v@.contains(*x) {
            let p = choose|p: int| 0 <= p < v@.len() && v@[p] == *x;
            assert(v@[p] != *x);
        }
    }
    false
}

/// Whether the list contains a triple equal to `(et, st, tt)`.
fn triple_contains<NT: TypeIdentifier, ET: TypeIdentifier>(
    v: &Vec<(ET, NT, NT)>,
    et: &ET,
    st: &NT,
    tt: &NT,
) -> (r: bool)
    ensures
        r == v@.contains((*et, *st, *tt)),
{
    let n = v.len();
    let mut k: usize = 0;
    while k < n
        invariant
            n == v@.len(),
            k <= n,
            forall|p: int| 0 <= p < k ==> v@[p] != (*et, *st, *tt),
        decreases n - k,
    {
        if v[k].0.type_eq(et) && v[k].1.type_eq(st) && v[k].2.type_eq(tt) {
            return true;
        }
        k += 1;
    }
    proof {
        if v@.contains((*et, *st, *tt)) {
            let p = choose|p: int| 0 <= p < v@.len() && v@[p] == (*et, *st, *tt);
            assert(v@[p] != (*et, *st, *tt));
        }
    }
    false
}

/// The cap of the first entry matching `(et, st, tt)`, if any.
fn cap_find<NT: TypeIdentifier, ET: TypeIdentifier>(
    v: &Vec<((ET, NT, NT), usize)>,
    et: &ET,
    st: &NT,
    tt: &NT,
) -> (r: Option<usize>)
    ensures
        r == cap_lookup(v@, (*et, *st, *tt)),
{
    let n = v.len();
    proof {
        assert(v@.skip(0) =~= v@);
    }
    let mut k: usize = 0;
    while k < n
        invariant
            n == v@.len(),
            k <= n,
            cap_lookup(v@.skip(k as int), (*et, *st, *tt)) == cap_lookup(v@, (*et, *st, *tt)),
        decreases n - k,
    {
        proof {
            assert(v@.skip(k as int)[0] == v@[k as int]);
        }
        if v[k].0.0.type_eq(et) && v[k].0.1.type_eq(st) && v[k].0.2.type_eq(tt) {
            proof {
                assert(v@.skip(k as int)[0].0 == (*et, *st, *tt));
            }
            return Some(v[k].1);
        }
        proof {
            assert(v@.skip(k as int).drop_first() =~= v@.skip(k + 1));
        }
        k += 1;
    }
    proof {
        assert(v@.skip(n as int).len() == 0);
    }
    None
}

impl<NT: TypeIdentifier, ET: TypeIdentifier> GenericSchema<NT, ET> {
    /// A schema with no filters: everything is allowed.
    pub fn new() -> (r: Self)
        ensures
            r.node_whitelist is None,
            r.node_blacklist is None,
            r.edge_whitelist is None,
            r.edge_blacklist is None,
            r.endpoint_whitelist is None,
            r.endpoint_blacklist is None,
            r.endpoint_max_quantity is None,
    {
        GenericSchema {
            node_whitelist: None,
            node_blacklist: None,
            edge_whitelist: None,
            edge_blacklist: None,
            endpoint_whitelist: None,
            endpoint_blacklist: None,
            endpoint_max_quantity: None,
        }
    }

    /// Node filter: only the listed node types are accepted.
    pub fn node_whitelist(self, node_whitelist: Option<Vec<NT>>) -> (r: Self)
        ensures
            r == (GenericSchema { node_whitelist, ..self }),
    {
        GenericSchema { node_whitelist, ..self }
    }

    /// Node filter: the listed node types are rejected.
    pub fn node_blacklist(self, node_blacklist: Option<Vec<NT>>) -> (r: Self)
        ensures
            r == (GenericSchema { node_blacklist, ..self }),
    {
        GenericSchema { node_blacklist, ..self }
    }

    /// Edge filter: only the listed edge types are accepted.
    pub fn edge_whitelist(self, edge_whitelist: Option<Vec<ET>>) -> (r: Self)
        ensures
            r == (GenericSchema { edge_whitelist, ..self }),
    {
        GenericSchema { edge_whitelist, ..self }
    }

    /// Edge filter: the listed edge types are rejected.
    pub fn edge_blacklist(self, edge_blacklist: Option<Vec<ET>>) -> (r: Self)
        ensures
            r == (GenericSchema { edge_blacklist, ..self }),
    {
        GenericSchema { edge_blacklist, ..self }
    }

    /// Endpoint filter: only the listed (edge type, source type, target type)
    /// triples are accepted.
    pub fn endpoint_whitelist(self, endpoint_whitelist: Option<Vec<(ET, NT, NT)>>) -> (r: Self)
        ensures
            r == (GenericSchema { endpoint_whitelist, ..self }),
    {
        GenericSchema { endpoint_whitelist, ..self }
    }

    /// Endpoint filter: the listed triples are rejected.
    pub fn endpoint_blacklist(self, endpoint_blacklist: Option<Vec<(ET, NT, NT)>>) -> (r: Self)
        ensures
            r == (GenericSchema { endpoint_blacklist, ..self }),
    {
        GenericSchema { endpoint_blacklist, ..self }
    }

    /// Cap the number of same-typed edges between one (edge type, source
    /// type, target type) combination.
    pub fn endpoint_max_quantity(
        self,
        endpoint_max_quantity: Option<Vec<((ET, NT, NT), usize)>>,
    ) -> (r: Self)
        ensures
            r == (GenericSchema { endpoint_max_quantity, ..self }),
    {
        GenericSchema { endpoint_max_quantity, ..self }
    }

    /// The optional-list views, for specifications.
    pub open spec fn spec_node_whitelist(self) -> Option<Seq<NT>> {
        match self.node_whitelist {
            None => None,
            Some(v) => Some(v@),
        }
    }

    pub open spec fn spec_node_blacklist(self) -> Option<Seq<NT>> {
        match self.node_blacklist {
            None => None,
            Some(v) => Some(v@),
        }
    }

    pub open spec fn spec_edge_whitelist(self) -> Option<Seq<ET>> {
        match self.edge_whitelist {
            None => None,
            Some(v) => Some(v@),
        }
    }

    pub open spec fn spec_edge_blacklist(self) -> Option<Seq<ET>> {
        match self.edge_blacklist {
            None => None,
            Some(v) => Some(v@),
        }
    }

    pub open spec fn spec_endpoint_whitelist(self) -> Option<Seq<(ET, NT, NT)>> {
        match self.endpoint_whitelist {
            None => None,
            Some(v) => Some(v@),
        }
    }

    pub open spec fn spec_endpoint_blacklist(self) -> Option<Seq<(ET, NT, NT)>> {
        match self.endpoint_blacklist {
            None => None,
            Some(v) => Some(v@),
        }
    }

    pub open spec fn spec_endpoint_max_quantity(self) -> Option<Seq<((ET, NT, NT), usize)>> {
        match self.endpoint_max_quantity {
            None => None,
            Some(v) => Some(v@),
        }
    }
}

/// An element-for-element copy of a vector of copyable values.
fn copy_list<T: Copy>(v: &Vec<T>) -> (r: Vec<T>)
    ensures
        r@ == v@,
{
    let n = v.len();
    let mut out: Vec<T> = Vec::new();
    let mut k: usize = 0;
    while k < n
        invariant
            n == v@.len(),
            k <= n,
            out@ =~= v@.take(k as int),
        decreases n - k,
    {
        out.push(v[k]);
        proof {
            assert(out@ =~= v@.take(k + 1));
        }
        k += 1;
    }
    proof {
        assert(v@.take(n as int) =~= v@);
    }
    out
}

/// A copy of an optional list of copyable values.
fn copy_opt_list<T: Copy>(v: &Option<Vec<T>>) -> (r: Option<Vec<T>>)
    ensures
        v is None <==> r is None,
        v matches Some(inner) ==> (r matches Some(ri) && ri@ == inner@),
{
    match v {
        None => None,
        Some(inner) => Some(copy_list(inner)),
    }
}

impl<NT: TypeIdentifier, ET: TypeIdentifier> crate::graph_traits::DupSchema for GenericSchema<
    NT,
    ET,
> {
    fn dup_schema(&self) -> (r: Self)
        ensures
            forall|t: NT| #[trigger] r.node_allowed(t) == self.node_allowed(t),
            forall|et: ET, st: NT, tt: NT| #[trigger]
                r.edge_type_allowed(et, st, tt) == self.edge_type_allowed(et, st, tt),
            forall|c: nat, et: ET, st: NT, tt: NT| #[trigger]
                r.edge_quantity_allowed(c, et, st, tt) == self.edge_quantity_allowed(
                    c,
                    et,
                    st,
                    tt,
                ),
    {
        let r = GenericSchema {
            node_whitelist: copy_opt_list(&self.node_whitelist),
            node_blacklist: copy_opt_list(&self.node_blacklist),
            edge_whitelist: copy_opt_list(&self.edge_whitelist),
            edge_blacklist: copy_opt_list(&self.edge_blacklist),
            endpoint_whitelist: copy_opt_list(&self.endpoint_whitelist),
            endpoint_blacklist: copy_opt_list(&self.endpoint_blacklist),
            endpoint_max_quantity: copy_opt_list(&self.endpoint_max_quantity),
        };
        proof {
            assert(r.spec_node_whitelist() == self.spec_node_whitelist());
            assert(r.spec_node_blacklist() == self.spec_node_blacklist());
            assert(r.spec_edge_whitelist() == self.spec_edge_whitelist());
            assert(r.spec_edge_blacklist() == self.spec_edge_blacklist());
            assert(r.spec_endpoint_whitelist() == self.spec_endpoint_whitelist());
            assert(r.spec_endpoint_blacklist() == self.spec_endpoint_blacklist());
            assert(r.spec_endpoint_max_quantity() == self.spec_endpoint_max_quantity());
        }
        r
    }
}

impl<NT: TypeIdentifier, ET: TypeIdentifier> Default for GenericSchema<NT, ET> {
    /// A schema with no filters.
    fn default() -> (r: Self)
        ensures
            r.node_whitelist is None,
            r.node_blacklist is None,
            r.edge_whitelist is None,
            r.edge_blacklist is None,
            r.endpoint_whitelist is None,
            r.endpoint_blacklist is None,
            r.endpoint_max_quantity is None,
    {
        GenericSchema::new()
    }
}

impl<NT: TypeIdentifier, ET: TypeIdentifier> SchemaExt for GenericSchema<NT, ET> {
    type N = GenericWeight<NT>;

    type E = GenericWeight<ET>;

    open spec fn node_allowed(&self, node_ty: NT) -> bool {
        &&& (self.spec_node_whitelist() is None || opt_list_has(
            self.spec_node_whitelist(),
            node_ty,
        ))
        &&& !opt_list_has(self.spec_node_blacklist(), node_ty)
    }

    open spec fn edge_type_allowed(&self, edge_ty: ET, source: NT, target: NT) -> bool {
        &&& (self.spec_edge_whitelist() is None || opt_list_has(
            self.spec_edge_whitelist(),
            edge_ty,
        ))
        &&& !opt_list_has(self.spec_edge_blacklist(), edge_ty)
        &&& (self.spec_endpoint_whitelist() is None || opt_list_has(
            self.spec_endpoint_whitelist(),
            (edge_ty, source, target),
        ))
        &&& !opt_list_has(self.spec_endpoint_blacklist(), (edge_ty, source, target))
    }

    open spec fn edge_quantity_allowed(self: &Self, count: nat, edge_ty: ET, source: NT, target: NT) -> bool {
        match self.spec_endpoint_max_quantity() {
            None => true,
            Some(v) => match cap_lookup(v, (edge_ty, source, target)) {
                None => true,
                Some(cap) => count <= cap,
            },
        }
    }

    proof fn quantity_antitone(&self, c1: nat, c2: nat, edge_ty: ET, source: NT, target: NT) {
    }

    open spec fn spec_name(&self) -> Seq<char> {
        "GenericSchema"@
    }

    fn name(&self) -> (r: String)
        ensures
            r@ == self.spec_name(),
    {
        "GenericSchema".to_owned()
    }

    fn allow_node(&self, node_ty: NT) -> (r: Result<(), DisAllowedNode>)
        ensures
            r is Ok <==> self.node_allowed(node_ty),
            r is Err ==> r == Result::<(), DisAllowedNode>::Err(DisAllowedNode::InvalidType),
    {
        let in_whitelist = match &self.node_whitelist {
            None => true,
            Some(v) => list_contains(v, &node_ty),
        };
        let in_blacklist = match &self.node_blacklist {
            None => false,
            Some(v) => list_contains(v, &node_ty),
        };
        if in_whitelist && !in_blacklist {
            Ok(())
        } else {
            Err(DisAllowedNode::InvalidType)
        }
    }

    fn allow_edge(&self, new_edge_count: usize, edge_ty: ET, source: NT, target: NT) -> (r: Result<
        (),
        DisAllowedEdge,
    >)
        ensures
            r is Ok <==> (self.edge_type_allowed(edge_ty, source, target)
                && self.edge_quantity_allowed(new_edge_count as nat, edge_ty, source, target)),
            !self.edge_type_allowed(edge_ty, source, target) ==> r == Result::<
                (),
                DisAllowedEdge,
            >::Err(DisAllowedEdge::InvalidType),
            self.edge_type_allowed(edge_ty, source, target) && !self.edge_quantity_allowed(
                new_edge_count as nat,
                edge_ty,
                source,
                target,
            ) ==> r == Result::<(), DisAllowedEdge>::Err(DisAllowedEdge::ToMany),
    {
        let in_whitelist = match &self.edge_whitelist {
            None => true,
            Some(v) => list_contains(v, &edge_ty),
        };
        let in_blacklist = match &self.edge_blacklist {
            None => false,
            Some(v) => list_contains(v, &edge_ty),
        };
        let in_ep_whitelist = match &self.endpoint_whitelist {
            None => true,
            Some(v) => triple_contains(v, &edge_ty, &source, &target),
        };
        let in_ep_blacklist = match &self.endpoint_blacklist {
            None => false,
            Some(v) => triple_contains(v, &edge_ty, &source, &target),
        };
        if !(in_whitelist && !in_blacklist && in_ep_whitelist && !in_ep_blacklist) {
            return Err(DisAllowedEdge::InvalidType);
        }
        let quantity_ok = match &self.endpoint_max_quantity {
            None => true,
            Some(v) => match cap_find(v, &edge_ty, &source, &target) {
                None => true,
                Some(cap) => new_edge_count <= cap,
            },
        };
        if quantity_ok {
            Ok(())
        } else {
            Err(DisAllowedEdge::ToMany)
        }
    }
}

} // verus!
