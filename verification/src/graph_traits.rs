//! Capabilities shared by all graph weights and schemas.

use vstd::prelude::*;

verus! {

/// The decimal rendering of an integer, as `usize_label` produces it: a pure
/// function of the integer alone.
pub uninterp spec fn decimal_of(x: usize) -> Seq<char>;

/// A runtime type tag.  Tags are small copyable values that can be compared
/// for equality at run time; the comparison agrees with mathematical equality.
pub trait TypeIdentifier: Copy + Sized {
    /// Decide whether two tags denote the same type.
    fn type_eq(&self, other: &Self) -> (r: bool)
        ensures
            r == (*self == *other),
    ;

    /// The rendering of the tag, as seen by specifications.
    spec fn spec_label(&self) -> Seq<char>;

    /// A human-readable rendering of the tag, for diagnostics.
    fn label(&self) -> (r: String)
        ensures
            r@ == self.spec_label(),
    ;
}

impl TypeIdentifier for usize {
    fn type_eq(&self, other: &Self) -> (r: bool)
        ensures
            r == (*self == *other),
    {
        *self == *other
    }

    open spec fn spec_label(&self) -> Seq<char> {
        decimal_of(*self)
    }

    fn label(&self) -> (r: String)
        ensures
            r@ == self.spec_label(),
    {
        usize_label(*self)
    }
}

/// Renders an integer type tag in decimal.
/// Relies on the `format!` macro of std: its output is a function of the
/// integer alone, named `decimal_of`.
#[verifier::external_body]
fn usize_label(x: usize) -> (r: String)
    ensures
        r@ == decimal_of(x),
{
    format!("{}", x)
}

/// Provides the logical id embedded in a node or edge weight.
pub trait Id {
    /// The embedded logical id, as seen by specifications.
    spec fn sid(&self) -> usize;

    fn get_id(&self) -> (r: usize)
        ensures
            r == self.sid(),
    ;

    fn set_id(&mut self, new_id: usize)
        ensures
            final(self).sid() == new_id,
    ;
}

impl Id for usize {
    open spec fn sid(&self) -> usize {
        *self
    }

    fn get_id(&self) -> (r: usize)
        ensures
            r == self.sid(),
    {
        *self
    }

    fn set_id(&mut self, new_id: usize)
        ensures
            final(self).sid() == new_id,
    {
        *self = new_id;
    }
}

/// Provides the runtime type tag carried by a node or edge weight.
pub trait Typed {
    type Type: TypeIdentifier;

    /// The weight's type tag, as seen by specifications.
    spec fn ty(&self) -> Self::Type;

    fn get_type(&self) -> (t: Self::Type)
        ensures
            t == self.ty(),
    ;
}

/// Duplication of a weight; stands in for `Clone` so that specifications can
/// rely on the copy being equal to the original.
pub trait Dup: Sized {
    /// Produce an equal copy of the weight.
    fn dup(&self) -> (r: Self)
        ensures
            r == *self,
    ;
}

/// Capability set of a node weight: an id, a type tag, and duplication.
pub trait NodeExt: Typed + Id + Dup {

}

/// Capability set of an edge weight: an id, a type tag, and duplication.
pub trait EdgeExt: Typed + Id + Dup {

}

/// Why a node was rejected by a schema.
#[derive(Clone, Copy, Debug, PartialEq, Eq, Structural)]
pub enum DisAllowedNode {
    InvalidType,
}

/// Why an edge was rejected by a schema.
#[derive(Clone, Copy, Debug, PartialEq, Eq, Structural)]
pub enum DisAllowedEdge {
    /// The per-endpoint quantity ceiling would be exceeded.
    ToMany,
    InvalidType,
}

/// The policy consulted before every insert or replace.
///
/// A schema decides which node types may exist, which edge types may connect
/// which node types, and how many edges of one exact (edge type, source type,
/// target type) combination may leave one node.
pub trait SchemaExt: Sized {
    /// Node weights accepted by this schema.
    type N: NodeExt;

    /// Edge weights accepted by this schema.
    type E: EdgeExt;

    /// Whether a node of the given type may exist.
    spec fn node_allowed(&self, node_ty: <Self::N as Typed>::Type) -> bool;

    /// Whether an edge of the given type may connect the given node types,
    /// ignoring quantity.
    spec fn edge_type_allowed(
        &self,
        edge_ty: <Self::E as Typed>::Type,
        source: <Self::N as Typed>::Type,
        target: <Self::N as Typed>::Type,
    ) -> bool;

    /// Whether `count` edges of one exact (edge type, source type, target
    /// type) combination may leave one node.
    spec fn edge_quantity_allowed(
        &self,
        count: nat,
        edge_ty: <Self::E as Typed>::Type,
        source: <Self::N as Typed>::Type,
        target: <Self::N as Typed>::Type,
    ) -> bool;

    /// Removing edges never invalidates the remaining ones: a quantity that
    /// is allowed stays allowed when the count shrinks.
    proof fn quantity_antitone(
        &self,
        c1: nat,
        c2: nat,
        edge_ty: <Self::E as Typed>::Type,
        source: <Self::N as Typed>::Type,
        target: <Self::N as Typed>::Type,
    )
        requires
            c1 <= c2,
            self.edge_quantity_allowed(c2, edge_ty, source, target),
        ensures
            self.edge_quantity_allowed(c1, edge_ty, source, target),
    ;

    /// The schema's display name, as seen by specifications.
    spec fn spec_name(&self) -> Seq<char>;

    /// The schema's display name, for diagnostics.
    fn name(&self) -> (r: String)
        ensures
            r@ == self.spec_name(),
    ;

    /// Check a node type before it is added.
    fn allow_node(&self, node_ty: <Self::N as Typed>::Type) -> (r: Result<(), DisAllowedNode>)
        ensures
            r is Ok <==> self.node_allowed(node_ty),
            r is Err ==> r == Result::<(), DisAllowedNode>::Err(DisAllowedNode::InvalidType),
    ;

    /// Check an edge before it is added.  `new_edge_count` is how many edges
    /// of this exact (edge type, target type) combination would leave the
    /// source after the add.
    fn allow_edge(
        &self,
        new_edge_count: usize,
        edge_ty: <Self::E as Typed>::Type,
        source: <Self::N as Typed>::Type,
        target: <Self::N as Typed>::Type,
    ) -> (r: Result<(), DisAllowedEdge>)
        ensures
            r is Ok <==> (self.edge_type_allowed(edge_ty, source, target)
                && self.edge_quantity_allowed(new_edge_count as nat, edge_ty, source, target)),
            !self.edge_type_allowed(edge_ty, source, target) ==> r == Result::<
                (),
                DisAllowedEdge,
            >::Err(DisAllowedEdge::InvalidType),
            self.edge_type_allowed(edge_ty, source, target) && !self.edge_quantity_allowed(
                new_edge_count as nat,
                edge_ty,
                source,
                target,
            ) ==> r == Result::<(), DisAllowedEdge>::Err(DisAllowedEdge::ToMany),
    ;
}

/// Duplication of a schema value.  The copy must accept exactly what the
/// original accepts; nothing more is asked of it.
pub trait DupSchema: SchemaExt {
    fn dup_schema(&self) -> (r: Self)
        ensures
            forall|t: <Self::N as Typed>::Type| #[trigger]
                r.node_allowed(t) == self.node_allowed(t),
            forall|
                et: <Self::E as Typed>::Type,
                st: <Self::N as Typed>::Type,
                tt: <Self::N as Typed>::Type,
            | #[trigger]
                r.edge_type_allowed(et, st, tt) == self.edge_type_allowed(et, st, tt),
            forall|
                c: nat,
                et: <Self::E as Typed>::Type,
                st: <Self::N as Typed>::Type,
                tt: <Self::N as Typed>::Type,
            | #[trigger]
                r.edge_quantity_allowed(c, et, st, tt) == self.edge_quantity_allowed(
                    c,
                    et,
                    st,
                    tt,
                ),
    ;
}

/// Narrowing a weight to one concrete variant of a closed variant set.  The
/// call fails with a typed error instead of panicking when the weight holds
/// a different variant.  Embedding applications implement this for their own
/// variant sets.
pub trait Downcast<T, S: SchemaExt>: Sized {
    /// The narrowing, as seen by specifications: `Some` exactly when the
    /// weight holds the requested variant.
    spec fn spec_downcast(&self) -> Option<T>;

    fn downcast(&self) -> (r: crate::typed_error::SchemaResult<T, S>)
        ensures
            r is Ok <==> self.spec_downcast() is Some,
            r matches Ok(t) ==> self.spec_downcast() == Some(t),
            r matches Err(e) ==> e matches crate::typed_error::TypedError::DownCastFailed(_, _),
    ;
}

/// Optional capability: a display name carried by a weight.
pub trait Name {
    type Name;

    fn get_name(&self) -> Option<&Self::Name>;
}

} // verus!
