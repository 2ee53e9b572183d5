//! Schema migration: re-typing a whole store from one schema to another
//! through an intermediate dual-schema representation.

use vstd::prelude::*;

use crate::generic_graph::GenericSchema;
use crate::graph_traits::{
    DisAllowedEdge, DisAllowedNode, Dup, DupSchema, EdgeExt, Id, NodeExt, SchemaExt,
    TypeIdentifier, Typed,
};
use crate::typed_error::{GenericTypedError, GenericTypedResult, SchemaError, SchemaResult, TypedError};
use crate::typed_graph::TypedGraph;

verus! {

/// A store whose entities are tagged with the schema version they belong to.
pub type MigrationGraph<Old, New> = TypedGraph<InBetween<Old, New>>;

/// Result type of a whole migration.
pub type MigrationResult<T> = GenericTypedResult<T>;

/// A value belonging either to the old schema version or to the new one.
#[derive(Clone, Copy, Debug)]
pub enum EitherVersion<Old, New> {
    Old(Old),
    New(New),
}

impl<A: TypeIdentifier, B: TypeIdentifier> TypeIdentifier for EitherVersion<A, B> {
    fn type_eq(&self, other: &Self) -> (r: bool)
        ensures
            r == (*self == *other),
    {
        match (self, other) {
            (EitherVersion::Old(a), EitherVersion::Old(b)) => a.type_eq(b),
            (EitherVersion::New(a), EitherVersion::New(b)) => a.type_eq(b),
            _ => false,
        }
    }

    open spec fn spec_label(&self) -> Seq<char> {
        match self {
            EitherVersion::Old(a) => a.spec_label(),
            EitherVersion::New(b) => b.spec_label(),
        }
    }

    fn label(&self) -> (r: String)
        ensures
            r@ == self.spec_label(),
    {
        match self {
            EitherVersion::Old(a) => a.label(),
            EitherVersion::New(b) => b.label(),
        }
    }
}

impl<Old: Id, New: Id> Id for EitherVersion<Old, New> {
    open spec fn sid(&self) -> usize {
        match self {
            EitherVersion::Old(v) => v.sid(),
            EitherVersion::New(v) => v.sid(),
        }
    }

    fn get_id(&self) -> (r: usize)
        ensures
            r == self.sid(),
    {
        match self {
            EitherVersion::Old(v) => v.get_id(),
            EitherVersion::New(v) => v.get_id(),
        }
    }

    fn set_id(&mut self, new_id: usize)
        ensures
            final(self).sid() == new_id,
    {
        match self {
            EitherVersion::Old(v) => v.set_id(new_id),
            EitherVersion::New(v) => v.set_id(new_id),
        }
    }
}

impl<Old: Typed, New: Typed> Typed for EitherVersion<Old, New> {
    type Type = EitherVersion<<Old as Typed>::Type, <New as Typed>::Type>;

    open spec fn ty(&self) -> Self::Type {
        match self {
            EitherVersion::Old(v) => EitherVersion::Old(v.ty()),
            EitherVersion::New(v) => EitherVersion::New(v.ty()),
        }
    }

    fn get_type(&self) -> (t: Self::Type)
        ensures
            t == self.ty(),
    {
        match self {
            EitherVersion::Old(v) => EitherVersion::Old(v.get_type()),
            EitherVersion::New(v) => EitherVersion::New(v.get_type()),
        }
    }
}

impl<Old: Dup, New: Dup> Dup for EitherVersion<Old, New> {
    fn dup(&self) -> (r: Self)
        ensures
            r == *self,
    {
        match self {
            EitherVersion::Old(v) => EitherVersion::Old(v.dup()),
            EitherVersion::New(v) => EitherVersion::New(v.dup()),
        }
    }
}

impl<Old: NodeExt, New: NodeExt> NodeExt for EitherVersion<Old, New> {

}

impl<Old: EdgeExt, New: EdgeExt> EdgeExt for EitherVersion<Old, New> {

}

/// The type and value conversions a schema supplies for migrating into
/// `NewVersion`.  Returning `None` means "no equivalent: drop the entity".
pub trait MigrateSchema<NewVersion: SchemaExt>: SchemaExt {
    /// What `update_node` returns, as seen by specifications.
    spec fn spec_update_node(&self, new_schema: NewVersion, node: Self::N) -> Option<
        NewVersion::N,
    >;

    /// What `update_edge` returns, as seen by specifications.
    spec fn spec_update_edge(&self, new_schema: NewVersion, edge: Self::E) -> Option<
        NewVersion::E,
    >;

    /// What `update_node_type` returns, as seen by specifications.
    spec fn spec_update_node_type(
        &self,
        new_schema: NewVersion,
        node_type: <Self::N as Typed>::Type,
    ) -> Option<<NewVersion::N as Typed>::Type>;

    /// What `update_edge_type` returns, as seen by specifications.
    spec fn spec_update_edge_type(
        &self,
        new_schema: NewVersion,
        edge_type: <Self::E as Typed>::Type,
    ) -> Option<<NewVersion::E as Typed>::Type>;

    /// Convert a node weight to the new schema, or drop it.
    fn update_node(&self, new_schema: &NewVersion, node: Self::N) -> (r: Option<NewVersion::N>)
        ensures
            r == self.spec_update_node(*new_schema, node),
    ;

    /// Convert an edge weight to the new schema, or drop it.
    fn update_edge(&self, new_schema: &NewVersion, edge: Self::E) -> (r: Option<NewVersion::E>)
        ensures
            r == self.spec_update_edge(*new_schema, edge),
    ;

    /// Convert a node type to the new schema, or report "no equivalent".
    fn update_node_type(&self, new_schema: &NewVersion, node_type: <Self::N as Typed>::Type) -> (r:
        Option<<NewVersion::N as Typed>::Type>)
        ensures
            r == self.spec_update_node_type(*new_schema, node_type),
    ;

    /// Convert an edge type to the new schema, or report "no equivalent".
    fn update_edge_type(&self, new_schema: &NewVersion, edge_type: <Self::E as Typed>::Type) -> (r:
        Option<<NewVersion::E as Typed>::Type>)
        ensures
            r == self.spec_update_edge_type(*new_schema, edge_type),
    ;
}

/// A schema that is in between two other schemas: entities of both versions
/// coexist, and validation routes on the version tags.
pub struct InBetween<Old, New> {
    pub old: Old,
    pub new: New,
}

impl<Old, New> InBetween<Old, New> {
    pub fn new(old: Old, new: New) -> (r: InBetween<Old, New>)
        ensures
            r.old == old,
            r.new == new,
    {
        InBetween { old, new }
    }
}

impl<Old, New> InBetween<Old, New> where
    Old: SchemaExt + MigrateSchema<New>,
    New: SchemaExt,
 {
    /// Convert a dual-tagged node type into the new schema.
    pub open spec fn conv_node_ty(
        self,
        t: EitherVersion<<Old::N as Typed>::Type, <New::N as Typed>::Type>,
    ) -> Option<<New::N as Typed>::Type> {
        match t {
            EitherVersion::New(x) => Some(x),
            EitherVersion::Old(x) => self.old.spec_update_node_type(self.new, x),
        }
    }

    /// Convert a dual-tagged edge type into the new schema.
    pub open spec fn conv_edge_ty(
        self,
        t: EitherVersion<<Old::E as Typed>::Type, <New::E as Typed>::Type>,
    ) -> Option<<New::E as Typed>::Type> {
        match t {
            EitherVersion::New(x) => Some(x),
            EitherVersion::Old(x) => self.old.spec_update_edge_type(self.new, x),
        }
    }
}

impl<Old, New> SchemaExt for InBetween<Old, New> where
    Old: SchemaExt + MigrateSchema<New>,
    New: SchemaExt,
 {
    type N = EitherVersion<Old::N, New::N>;

    type E = EitherVersion<Old::E, New::E>;

    open spec fn node_allowed(&self, node_ty: <Self::N as Typed>::Type) -> bool {
        match node_ty {
            EitherVersion::Old(t) => self.old.node_allowed(t),
            EitherVersion::New(t) => self.new.node_allowed(t),
        }
    }

    open spec fn edge_type_allowed(
        &self,
        edge_ty: <Self::E as Typed>::Type,
        source: <Self::N as Typed>::Type,
        target: <Self::N as Typed>::Type,
    ) -> bool {
        match (edge_ty, source, target) {
            (
                EitherVersion::Old(e),
                EitherVersion::Old(s),
                EitherVersion::Old(t),
            ) => self.old.edge_type_allowed(e, s, t),
            (
                EitherVersion::New(e),
                EitherVersion::New(s),
                EitherVersion::New(t),
            ) => self.new.edge_type_allowed(e, s, t),
            (e, s, t) => match (self.conv_edge_ty(e), self.conv_node_ty(s), self.conv_node_ty(t)) {
                (Some(e2), Some(s2), Some(t2)) => self.new.edge_type_allowed(e2, s2, t2),
                _ => false,
            },
        }
    }

    open spec fn edge_quantity_allowed(
        &self,
        count: nat,
        edge_ty: <Self::E as Typed>::Type,
        source: <Self::N as Typed>::Type,
        target: <Self::N as Typed>::Type,
    ) -> bool {
        match (edge_ty, source, target) {
            (
                EitherVersion::Old(e),
                EitherVersion::Old(s),
                EitherVersion::Old(t),
            ) => self.old.edge_quantity_allowed(count, e, s, t),
            (
                EitherVersion::New(e),
                EitherVersion::New(s),
                EitherVersion::New(t),
            ) => self.new.edge_quantity_allowed(count, e, s, t),
            (e, s, t) => match (self.conv_edge_ty(e), self.conv_node_ty(s), self.conv_node_ty(t)) {
                (Some(e2), Some(s2), Some(t2)) => self.new.edge_quantity_allowed(count, e2, s2, t2),
                _ => true,
            },
        }
    }

    proof fn quantity_antitone(
        &self,
        c1: nat,
        c2: nat,
        edge_ty: <Self::E as Typed>::Type,
        source: <Self::N as Typed>::Type,
        target: <Self::N as Typed>::Type,
    ) {
        match (edge_ty, source, target) {
            (
                EitherVersion::Old(e),
                EitherVersion::Old(s),
                EitherVersion::Old(t),
            ) => self.old.quantity_antitone(c1, c2, e, s, t),
            (
                EitherVersion::New(e),
                EitherVersion::New(s),
                EitherVersion::New(t),
            ) => self.new.quantity_antitone(c1, c2, e, s, t),
            (e, s, t) => {
                match (self.conv_edge_ty(e), self.conv_node_ty(s), self.conv_node_ty(t)) {
                    (Some(e2), Some(s2), Some(t2)) => self.new.quantity_antitone(
                        c1,
                        c2,
                        e2,
                        s2,
                        t2,
                    ),
                    _ => {},
                }
            },
        }
    }

    open spec fn spec_name(&self) -> Seq<char> {
        self.old.spec_name() + " or "@ + self.new.spec_name()
    }

    fn name(&self) -> (r: String)
        ensures
            r@ == self.spec_name(),
    {
        let a = self.old.name();
        let b = self.new.name();
        a.concat(" or ").concat(b.as_str())
    }

    fn allow_node(&self, node_ty: <Self::N as Typed>::Type) -> (r: Result<(), DisAllowedNode>)
        ensures
            r is Ok <==> self.node_allowed(node_ty),
            r is Err ==> r == Result::<(), DisAllowedNode>::Err(DisAllowedNode::InvalidType),
    {
        match node_ty {
            EitherVersion::Old(t) => self.old.allow_node(t),
            EitherVersion::New(t) => self.new.allow_node(t),
        }
    }

    fn allow_edge(
        &self,
        new_edge_count: usize,
        edge_ty: <Self::E as Typed>::Type,
        source: <Self::N as Typed>::Type,
        target: <Self::N as Typed>::Type,
    ) -> (r: Result<(), DisAllowedEdge>)
        ensures
            r is Ok <==> (self.edge_type_allowed(edge_ty, source, target)
                && self.edge_quantity_allowed(new_edge_count as nat, edge_ty, source, target)),
            !self.edge_type_allowed(edge_ty, source, target) ==> r == Result::<
                (),
                DisAllowedEdge,
            >::Err(DisAllowedEdge::InvalidType),
            self.edge_type_allowed(edge_ty, source, target) && !self.edge_quantity_allowed(
                new_edge_count as nat,
                edge_ty,
                source,
                target,
            ) ==> r == Result::<(), DisAllowedEdge>::Err(DisAllowedEdge::ToMany),
    {
        match (edge_ty, source, target) {
            (
                EitherVersion::Old(e),
                EitherVersion::Old(s),
                EitherVersion::Old(t),
            ) => self.old.allow_edge(new_edge_count, e, s, t),
            (
                EitherVersion::New(e),
                EitherVersion::New(s),
                EitherVersion::New(t),
            ) => self.new.allow_edge(new_edge_count, e, s, t),
            (e, s, t) => {
                let ce = match e {
                    EitherVersion::New(x) => Some(x),
                    EitherVersion::Old(x) => self.old.update_edge_type(&self.new, x),
                };
                let cs = match s {
                    EitherVersion::New(x) => Some(x),
                    EitherVersion::Old(x) => self.old.update_node_type(&self.new, x),
                };
                let ct = match t {
                    EitherVersion::New(x) => Some(x),
                    EitherVersion::Old(x) => self.old.update_node_type(&self.new, x),
                };
                match (ce, cs, ct) {
                    (Some(e2), Some(s2), Some(t2)) => self.new.allow_edge(
                        new_edge_count,
                        e2,
                        s2,
                        t2,
                    ),
                    _ => Err(DisAllowedEdge::InvalidType),
                }
            },
        }
    }
}

impl<Old, New> MigrateSchema<New> for InBetween<Old, New> where
    Old: SchemaExt + MigrateSchema<New>,
    New: SchemaExt,
 {
    open spec fn spec_update_node(&self, new_schema: New, node: Self::N) -> Option<New::N> {
        match node {
            EitherVersion::New(n) => Some(n),
            EitherVersion::Old(n) => self.old.spec_update_node(new_schema, n),
        }
    }

    open spec fn spec_update_edge(&self, new_schema: New, edge: Self::E) -> Option<New::E> {
        match edge {
            EitherVersion::New(e) => Some(e),
            EitherVersion::Old(e) => self.old.spec_update_edge(new_schema, e),
        }
    }

    open spec fn spec_update_node_type(
        &self,
        new_schema: New,
        node_type: <Self::N as Typed>::Type,
    ) -> Option<<New::N as Typed>::Type> {
        match node_type {
            EitherVersion::New(t) => Some(t),
            EitherVersion::Old(t) => self.old.spec_update_node_type(new_schema, t),
        }
    }

    open spec fn spec_update_edge_type(
        &self,
        new_schema: New,
        edge_type: <Self::E as Typed>::Type,
    ) -> Option<<New::E as Typed>::Type> {
        match edge_type {
            EitherVersion::New(t) => Some(t),
            EitherVersion::Old(t) => self.old.spec_update_edge_type(new_schema, t),
        }
    }

    fn update_node(&self, new_schema: &New, node: Self::N) -> (r: Option<New::N>)
        ensures
            r == self.spec_update_node(*new_schema, node),
    {
        match node {
            EitherVersion::New(n) => Some(n),
            EitherVersion::Old(n) => self.old.update_node(new_schema, n),
        }
    }

    fn update_edge(&self, new_schema: &New, edge: Self::E) -> (r: Option<New::E>)
        ensures
            r == self.spec_update_edge(*new_schema, edge),
    {
        match edge {
            EitherVersion::New(e) => Some(e),
            EitherVersion::Old(e) => self.old.update_edge(new_schema, e),
        }
    }

    fn update_node_type(&self, new_schema: &New, node_type: <Self::N as Typed>::Type) -> (r: Option<
        <New::N as Typed>::Type,
    >)
        ensures
            r == self.spec_update_node_type(*new_schema, node_type),
    {
        match node_type {
            EitherVersion::New(t) => Some(t),
            EitherVersion::Old(t) => self.old.update_node_type(new_schema, t),
        }
    }

    fn update_edge_type(&self, new_schema: &New, edge_type: <Self::E as Typed>::Type) -> (r: Option<
        <New::E as Typed>::Type,
    >)
        ensures
            r == self.spec_update_edge_type(*new_schema, edge_type),
    {
        match edge_type {
            EitherVersion::New(t) => Some(t),
            EitherVersion::Old(t) => self.old.update_edge_type(new_schema, t),
        }
    }
}

/// The transform step injected between the lift and lower phases of a
/// migration.  Implementors may rearrange the dual-tagged store at will, as
/// long as it stays well-formed under its dual schema.
pub trait Migrationhandler<Old, New> where
    Old: SchemaExt + MigrateSchema<New>,
    New: SchemaExt,
 {
    /// What the transform step promises about how it reshapes the dual
    /// store.  The default handler pins equality; other handlers state their
    /// own relation.
    spec fn spec_transform(
        &self,
        pre: MigrationGraph<Old, New>,
        post: MigrationGraph<Old, New>,
    ) -> bool;

    fn update_data(&self, g: &mut MigrationGraph<Old, New>) -> (r: SchemaResult<
        (),
        InBetween<Old, New>,
    >)
        requires
            old(g).wf(),
        ensures
            final(g).wf(),
            final(g).spec_schema() == old(g).spec_schema(),
            r is Ok ==> self.spec_transform(*old(g), *final(g)),
    ;
}

/// The default migration handler: it does not alter any of the data.
pub struct DefaultMigrationHandler;

impl<Old, New> Migrationhandler<Old, New> for DefaultMigrationHandler where
    Old: SchemaExt + MigrateSchema<New>,
    New: SchemaExt,
 {
    /// The default handler changes nothing.
    open spec fn spec_transform(
        &self,
        pre: MigrationGraph<Old, New>,
        post: MigrationGraph<Old, New>,
    ) -> bool {
        post == pre
    }

    /// A straight passthrough: the dual store is left untouched.
    fn update_data(&self, g: &mut MigrationGraph<Old, New>) -> (r: SchemaResult<
        (),
        InBetween<Old, New>,
    >)
        ensures
            *final(g) == *old(g),
            r is Ok,
    {
        Ok(())
    }
}

/// A schema that can convert a store directly, without the intermediate
/// dual-schema representation.
pub trait DirectMigration<NewVersion: SchemaExt>: SchemaExt + Sized {
    fn migrate(g: TypedGraph<Self>) -> (r: GenericTypedResult<TypedGraph<NewVersion>>)
        requires
            g.wf(),
        ensures
            r matches Ok(ng) ==> ng.wf(),
    ;
}

/// What the lift phase produces from a well-formed store: a well-formed
/// dual store holding exactly the store's nodes, tagged old, under unchanged
/// ids; every surviving edge tagged old with unchanged endpoints; an edge
/// left out only where a quantity ceiling of the old schema barred it; and
/// each node's outgoing order equal to its old order restricted to the
/// surviving edges.
pub open spec fn lifted_of<S: SchemaExt, NS: SchemaExt>(
    g0: TypedGraph<S>,
    mg: TypedGraph<InBetween<S, NS>>,
) -> bool where S: MigrateSchema<NS> {
    &&& mg.wf()
    &&& forall|x: usize| #[trigger] mg.spec_has_node(x) <==> g0.spec_has_node(x)
    &&& forall|x: usize|
        g0.spec_has_node(x) ==> #[trigger] mg.node_entry(x).weight == EitherVersion::<
            S::N,
            NS::N,
        >::Old(g0.node_entry(x).weight)
    &&& forall|x: usize| #[trigger]
        mg.spec_has_edge(x) ==> g0.spec_has_edge(x) && mg.edge_entry(x)
            == (crate::typed_graph::EdgeEntry {
            weight: EitherVersion::<S::E, NS::E>::Old(g0.edge_entry(x).weight),
            source: g0.edge_entry(x).source,
            target: g0.edge_entry(x).target,
        })
    &&& forall|x: usize| #[trigger]
        g0.spec_has_edge(x) && !mg.spec_has_edge(x) ==> exists|q: nat|
            q >= 1 && !g0.spec_schema().edge_quantity_allowed(
                q,
                g0.edge_entry(x).weight.ty(),
                mg.node_ty(g0.edge_entry(x).source)->Old_0,
                mg.node_ty(g0.edge_entry(x).target)->Old_0,
            )
    &&& forall|x: usize| #[trigger]
        g0.spec_has_edge(x) ==> (mg.spec_has_edge(x) <==> g0.spec_schema().edge_quantity_allowed(
            TypedGraph::<S>::class_count(
                TypedGraph::<S>::prior_ids(g0, x),
                mg,
                EitherVersion::<S::E, NS::E>::Old(g0.edge_entry(x).weight).ty(),
                EitherVersion::<S::N, NS::N>::Old(
                    g0.node_entry(g0.edge_entry(x).target).weight,
                ).ty(),
            ) + 1,
            g0.edge_entry(x).weight.ty(),
            g0.node_ty(g0.edge_entry(x).source),
            g0.node_ty(g0.edge_entry(x).target),
        ))
    &&& forall|x: usize| #[trigger]
        mg.spec_has_node(x) ==> mg.node_entry(x).outgoing@ == TypedGraph::<S>::kept_order(
            g0.node_entry(x).outgoing@,
            mg,
        )
}

/// What the lower phase produces from a dual store: a well-formed store
/// under the new schema whose entities are exactly those the dual schema's
/// own conversions kept (new-tagged ones pass through unchanged), under
/// unchanged ids and endpoints, quantity-barred edges silently dropped, and
/// outgoing orders preserved.
pub open spec fn lowered_from<S: SchemaExt, NS: SchemaExt>(
    mg: TypedGraph<InBetween<S, NS>>,
    new_schema: NS,
    g: TypedGraph<NS>,
) -> bool where S: MigrateSchema<NS> {
    &&& mg.wf()
    &&& g.wf()
    &&& g.spec_schema() == new_schema
    &&& forall|x: usize| #[trigger] g.spec_has_node(x) ==> mg.spec_has_node(x)
    &&& forall|x: usize| #[trigger] g.spec_has_edge(x) ==> mg.spec_has_edge(x)
    &&& forall|x: usize| #[trigger]
        mg.spec_has_node(x) ==> (match mg.spec_schema().spec_update_node(
            new_schema,
            mg.node_entry(x).weight,
        ) {
            Option::None => !g.spec_has_node(x),
            Option::Some(w2) => w2.sid() == x && g.spec_has_node(x) && g.node_entry(x).weight
                == w2,
        })
    &&& forall|x: usize| #[trigger]
        mg.spec_has_edge(x) ==> (match mg.spec_schema().spec_update_edge(
            new_schema,
            mg.edge_entry(x).weight,
        ) {
            Option::None => !g.spec_has_edge(x),
            Option::Some(w2) => w2.sid() == x && (if !g.spec_has_node(mg.edge_entry(x).source)
                || !g.spec_has_node(mg.edge_entry(x).target) {
                !g.spec_has_edge(x)
            } else {
                (g.spec_has_edge(x) && g.edge_entry(x) == (crate::typed_graph::EdgeEntry {
                    weight: w2,
                    source: mg.edge_entry(x).source,
                    target: mg.edge_entry(x).target,
                })) || (!g.spec_has_edge(x) && exists|q: nat|
                    q >= 1 && !new_schema.edge_quantity_allowed(
                        q,
                        w2.ty(),
                        g.node_ty(mg.edge_entry(x).source),
                        g.node_ty(mg.edge_entry(x).target),
                    ))
            }),
        })
    &&& forall|x: usize| #[trigger]
        g.spec_has_node(x) ==> g.node_entry(x).outgoing@ == TypedGraph::<
            InBetween<S, NS>,
        >::kept_order(mg.node_entry(x).outgoing@, g)
}

/// The whole migration pipeline, one call down: the store was lifted into a
/// dual store, the handler turned it into another well-formed dual store
/// under the same dual schema, and the result was lowered from that.
pub open spec fn migration_chain<S: SchemaExt, NS: SchemaExt, H: Migrationhandler<S, NS>>(
    handler: H,
    g0: TypedGraph<S>,
    new_schema: NS,
    g: TypedGraph<NS>,
    mg0: TypedGraph<InBetween<S, NS>>,
    mg1: TypedGraph<InBetween<S, NS>>,
) -> bool where S: MigrateSchema<NS> {
    &&& lifted_of(g0, mg0)
    &&& mg1.wf()
    &&& mg1.spec_schema() == mg0.spec_schema()
    &&& handler.spec_transform(mg0, mg1)
    &&& lowered_from(mg1, new_schema, g)
}

impl<S: SchemaExt> TypedGraph<S> {
    /// Migrate the whole store into a new schema through the dual-schema
    /// representation: lift every entity tagged "old", hand the dual store to
    /// the transform handler, then lower every entity into the new schema via
    /// the schema-supplied conversions.  Any failure is reported with its
    /// types re-labeled as "<schema-name>::<type>".
    /// Prove the lift characterization from the re-typing fates of the lift
    /// maps, which always answer with the old-tagged weight.
    proof fn lemma_lift_shape<NS, NF, EF>(g0: Self, mg: TypedGraph<InBetween<S, NS>>, node_map: NF, edge_map: EF) where
        S: MigrateSchema<NS>,
        NS: SchemaExt,
        NF: Fn(&S, &InBetween<S, NS>, S::N) -> Option<EitherVersion<S::N, NS::N>>,
        EF: Fn(&S, &InBetween<S, NS>, S::E) -> Option<EitherVersion<S::E, NS::E>>,

        requires
            g0.wf(),
            mg.wf(),
            forall|s: &S, ns: &InBetween<S, NS>, n: S::N, ret: Option<EitherVersion<S::N, NS::N>>|
                #[trigger] call_ensures(node_map, (s, ns, n), ret) ==> ret == Some(
                    EitherVersion::<S::N, NS::N>::Old(n),
                ),
            forall|s: &S, ns: &InBetween<S, NS>, e: S::E, ret: Option<EitherVersion<S::E, NS::E>>|
                #[trigger] call_ensures(edge_map, (s, ns, e), ret) ==> ret == Some(
                    EitherVersion::<S::E, NS::E>::Old(e),
                ),
            forall|t: <S::N as Typed>::Type| #[trigger]
                mg.spec_schema().old.node_allowed(t) == g0.spec_schema().node_allowed(t),
            forall|c: nat, et: <S::E as Typed>::Type, st: <S::N as Typed>::Type, tt: <S::N as Typed>::Type| #[trigger]
                mg.spec_schema().old.edge_quantity_allowed(c, et, st, tt) == g0.spec_schema().edge_quantity_allowed(c, et, st, tt),
            forall|x: usize| #[trigger] mg.spec_has_node(x) ==> g0.spec_has_node(x),
            forall|x: usize| #[trigger] mg.spec_has_edge(x) ==> g0.spec_has_edge(x),
            forall|x: usize| #[trigger]
                g0.spec_has_node(x) ==> Self::node_fate(
                    node_map,
                    g0.spec_schema(),
                    mg.spec_schema(),
                    g0.node_entry(x).weight,
                    mg,
                ),
            forall|x: usize| #[trigger]
                g0.spec_has_edge(x) ==> Self::edge_fate(
                    edge_map,
                    g0.spec_schema(),
                    mg.spec_schema(),
                    g0.edge_entry(x),
                    mg,
                ),
            forall|x: usize| #[trigger]
                g0.spec_has_edge(x) ==> Self::edge_turn(
                    edge_map,
                    g0.spec_schema(),
                    mg.spec_schema(),
                    g0,
                    x,
                    mg,
                ),
            forall|x: usize| #[trigger]
                mg.spec_has_node(x) ==> mg.node_entry(x).outgoing@ == TypedGraph::<S>::kept_order(
                    g0.node_entry(x).outgoing@,
                    mg,
                ),
        ensures
            lifted_of(g0, mg),
    {
        assert forall|x: usize| #[trigger] mg.spec_has_node(x) <==> g0.spec_has_node(x) by {
            if g0.spec_has_node(x) {
                let (s, ns, ret): (&S, &InBetween<S, NS>, Option<EitherVersion<S::N, NS::N>>) =
                    choose|
                    s: &S,
                    ns: &InBetween<S, NS>,
                    ret: Option<EitherVersion<S::N, NS::N>>,
                | #[trigger] Self::node_fate_with(
                    node_map,
                    g0.spec_schema(),
                    mg.spec_schema(),
                    g0.node_entry(x).weight,
                    mg,
                    s,
                    ns,
                    ret,
                );
                g0.lemma_node_idx(x);
            }
        }
        assert forall|x: usize| g0.spec_has_node(x) implies #[trigger] mg.node_entry(x).weight
            == EitherVersion::<S::N, NS::N>::Old(g0.node_entry(x).weight) by {
            let (s, ns, ret): (&S, &InBetween<S, NS>, Option<EitherVersion<S::N, NS::N>>) = choose|
                s: &S,
                ns: &InBetween<S, NS>,
                ret: Option<EitherVersion<S::N, NS::N>>,
            | #[trigger] Self::node_fate_with(
                node_map,
                g0.spec_schema(),
                mg.spec_schema(),
                g0.node_entry(x).weight,
                mg,
                s,
                ns,
                ret,
            );
            g0.lemma_node_idx(x);
        }
        assert forall|x: usize| #[trigger] mg.spec_has_edge(x) implies g0.spec_has_edge(x)
            && mg.edge_entry(x) == (crate::typed_graph::EdgeEntry {
            weight: EitherVersion::<S::E, NS::E>::Old(g0.edge_entry(x).weight),
            source: g0.edge_entry(x).source,
            target: g0.edge_entry(x).target,
        }) by {
            let (s, ns, ret): (&S, &InBetween<S, NS>, Option<EitherVersion<S::E, NS::E>>) = choose|
                s: &S,
                ns: &InBetween<S, NS>,
                ret: Option<EitherVersion<S::E, NS::E>>,
            | #[trigger] Self::edge_fate_with(
                edge_map,
                g0.spec_schema(),
                mg.spec_schema(),
                g0.edge_entry(x),
                mg,
                s,
                ns,
                ret,
            );
            g0.lemma_edge_idx(x);
        }
        assert forall|x: usize| #[trigger]
            g0.spec_has_edge(x) && !mg.spec_has_edge(x) implies exists|q: nat|
            q >= 1 && !g0.spec_schema().edge_quantity_allowed(
                q,
                g0.edge_entry(x).weight.ty(),
                mg.node_ty(g0.edge_entry(x).source)->Old_0,
                mg.node_ty(g0.edge_entry(x).target)->Old_0,
            ) by {
            let e = g0.edge_entry(x);
            let (s, ns, ret): (&S, &InBetween<S, NS>, Option<EitherVersion<S::E, NS::E>>) = choose|
                s: &S,
                ns: &InBetween<S, NS>,
                ret: Option<EitherVersion<S::E, NS::E>>,
            | #[trigger] Self::edge_fate_with(
                edge_map,
                g0.spec_schema(),
                mg.spec_schema(),
                e,
                mg,
                s,
                ns,
                ret,
            );
            g0.lemma_edge_idx(x);
            assert(ret == Some(EitherVersion::<S::E, NS::E>::Old(e.weight)));
            assert(g0.spec_has_node(e.source) && g0.spec_has_node(e.target));
            assert(mg.spec_has_node(e.source) && mg.spec_has_node(e.target));
            let q0 = choose|q: nat|
                q >= 1 && !mg.spec_schema().edge_quantity_allowed(
                    q,
                    EitherVersion::<S::E, NS::E>::Old(e.weight).ty(),
                    mg.node_ty(e.source),
                    mg.node_ty(e.target),
                );
            assert(mg.node_ty(e.source) == EitherVersion::<
                <S::N as Typed>::Type,
                <NS::N as Typed>::Type,
            >::Old(g0.node_ty(e.source))) by {
                g0.lemma_node_idx(e.source);
            }
            assert(mg.node_ty(e.target) == EitherVersion::<
                <S::N as Typed>::Type,
                <NS::N as Typed>::Type,
            >::Old(g0.node_ty(e.target))) by {
                g0.lemma_node_idx(e.target);
            }
            assert(!g0.spec_schema().edge_quantity_allowed(
                q0,
                e.weight.ty(),
                g0.node_ty(e.source),
                g0.node_ty(e.target),
            ));
        }
        assert forall|x: usize| #[trigger] g0.spec_has_edge(x) implies (mg.spec_has_edge(x)
            <==> g0.spec_schema().edge_quantity_allowed(
            TypedGraph::<S>::class_count(
                TypedGraph::<S>::prior_ids(g0, x),
                mg,
                EitherVersion::<S::E, NS::E>::Old(g0.edge_entry(x).weight).ty(),
                EitherVersion::<S::N, NS::N>::Old(g0.node_entry(g0.edge_entry(x).target).weight).ty(),
            ) + 1,
            g0.edge_entry(x).weight.ty(),
            g0.node_ty(g0.edge_entry(x).source),
            g0.node_ty(g0.edge_entry(x).target),
        )) by {
            let e = g0.edge_entry(x);
            let (s, ns, ret): (&S, &InBetween<S, NS>, Option<EitherVersion<S::E, NS::E>>) = choose|
                s: &S,
                ns: &InBetween<S, NS>,
                ret: Option<EitherVersion<S::E, NS::E>>,
            | #[trigger] Self::edge_turn_with(
                edge_map,
                g0.spec_schema(),
                mg.spec_schema(),
                g0,
                x,
                mg,
                s,
                ns,
                ret,
            );
            g0.lemma_edge_idx(x);
            assert(ret == Some(EitherVersion::<S::E, NS::E>::Old(e.weight)));
            assert(g0.spec_has_node(e.source) && g0.spec_has_node(e.target));
            assert(mg.spec_has_node(e.source) && mg.spec_has_node(e.target));
            assert(mg.node_ty(e.source) == EitherVersion::<
                <S::N as Typed>::Type,
                <NS::N as Typed>::Type,
            >::Old(g0.node_ty(e.source))) by {
                g0.lemma_node_idx(e.source);
            }
            assert(mg.node_ty(e.target) == EitherVersion::<
                <S::N as Typed>::Type,
                <NS::N as Typed>::Type,
            >::Old(g0.node_ty(e.target))) by {
                g0.lemma_node_idx(e.target);
            }
            assert(g0.node_entry(e.target).weight.ty() == g0.node_ty(e.target)) by {
                g0.lemma_node_idx(e.target);
            }
        }
    }

    /// On a list whose edges are lifted old-tagged copies, the dual store's
    /// class count equals the original store's.
    proof fn lemma_class_count_lift<NS: SchemaExt>(
        ids: Seq<usize>,
        g0: TypedGraph<S>,
        mg: TypedGraph<InBetween<S, NS>>,
        et: <S::E as Typed>::Type,
        tt: <S::N as Typed>::Type,
    ) where S: MigrateSchema<NS>
        requires
            forall|ii: int|
                0 <= ii < ids.len() ==> (mg.spec_has_edge(#[trigger] ids[ii]) && mg.edge_matches(
                    ids[ii],
                    EitherVersion::<<S::E as Typed>::Type, <NS::E as Typed>::Type>::Old(et),
                    EitherVersion::<<S::N as Typed>::Type, <NS::N as Typed>::Type>::Old(tt),
                )) == (g0.spec_has_edge(ids[ii]) && g0.edge_matches(ids[ii], et, tt)),
        ensures
            TypedGraph::<S>::class_count(
                ids,
                mg,
                EitherVersion::<<S::E as Typed>::Type, <NS::E as Typed>::Type>::Old(et),
                EitherVersion::<<S::N as Typed>::Type, <NS::N as Typed>::Type>::Old(tt),
            ) == TypedGraph::<S>::class_count(ids, g0, et, tt),
    {
        let eto = EitherVersion::<<S::E as Typed>::Type, <NS::E as Typed>::Type>::Old(et);
        let tto = EitherVersion::<<S::N as Typed>::Type, <NS::N as Typed>::Type>::Old(tt);
        crate::interchange::lemma_filter_congruence(
            ids,
            |eid: usize| mg.spec_has_edge(eid) && mg.edge_matches(eid, eto, tto),
            |eid: usize| g0.spec_has_edge(eid) && g0.edge_matches(eid, et, tt),
        );
    }

    /// Within the old schema's ceilings every prefix of a node's outgoing
    /// order is lifted whole.
    proof fn lemma_lift_keeps_prefix<NS: SchemaExt>(
        g0: TypedGraph<S>,
        mg: TypedGraph<InBetween<S, NS>>,
        n: usize,
        m: int,
    ) where S: MigrateSchema<NS>
        requires
            g0.wf(),
            g0.quantity_valid(),
            lifted_of(g0, mg),
            g0.spec_has_node(n),
            0 <= m <= g0.node_entry(n).outgoing@.len(),
        ensures
            forall|p: int|
                0 <= p < m ==> mg.spec_has_edge(#[trigger] g0.node_entry(n).outgoing@[p]),
        decreases m,
    {
        if m > 0 {
            Self::lemma_lift_keeps_prefix(g0, mg, n, m - 1);
            g0.lemma_node_idx(n);
            let out = g0.node_entry(n).outgoing@;
            let x = out[m - 1];
            assert(g0.spec_has_edge(x));
            g0.lemma_edge_idx(x);
            let e = g0.edge_entry(x);
            assert(e.source == n);
            let et = e.weight.ty();
            let tt = g0.node_ty(e.target);
            assert(g0.spec_has_node(e.target));
            assert(out.no_duplicates());
            crate::typed_graph::lemma_pos_of(out, x, m - 1);
            assert(TypedGraph::<S>::prior_ids(g0, x) == out.take(m - 1));
            // the lifted prefix carries the same class membership
            assert forall|ii: int|
                0 <= ii < out.take(m - 1).len() implies (mg.spec_has_edge(
                #[trigger] out.take(m - 1)[ii],
            ) && mg.edge_matches(
                out.take(m - 1)[ii],
                EitherVersion::<<S::E as Typed>::Type, <NS::E as Typed>::Type>::Old(et),
                EitherVersion::<<S::N as Typed>::Type, <NS::N as Typed>::Type>::Old(tt),
            )) == (g0.spec_has_edge(out.take(m - 1)[ii]) && g0.edge_matches(
                out.take(m - 1)[ii],
                et,
                tt,
            )) by {
                let eid = out.take(m - 1)[ii];
                assert(eid == out[ii]);
                assert(g0.spec_has_edge(eid));
                assert(mg.spec_has_edge(eid));
                g0.lemma_edge_idx(eid);
                let e2 = g0.edge_entry(eid);
                assert(mg.edge_entry(eid) == (crate::typed_graph::EdgeEntry {
                    weight: EitherVersion::<S::E, NS::E>::Old(e2.weight),
                    source: e2.source,
                    target: e2.target,
                }));
                assert(g0.spec_has_node(e2.target));
                assert(mg.node_entry(e2.target).weight == EitherVersion::<S::N, NS::N>::Old(
                    g0.node_entry(e2.target).weight,
                ));
            }
            Self::lemma_class_count_lift(out.take(m - 1), g0, mg, et, tt);
            // the prefix count sits strictly under the full class count
            assert(g0.edge_matches(x, et, tt));
            TypedGraph::<S>::lemma_class_count_prefix(out, g0, et, tt, m - 1);
            assert forall|ii: int| 0 <= ii < out.len() implies g0.spec_has_edge(
                #[trigger] out[ii],
            ) by {}
            TypedGraph::<S>::lemma_kept_order_all(out, g0);
            crate::interchange::lemma_filter_filter(
                out,
                |eid: usize| g0.spec_has_edge(eid),
                |eid: usize| g0.edge_matches(eid, et, tt),
                |eid: usize| g0.spec_has_edge(eid) && g0.edge_matches(eid, et, tt),
            );
            assert(g0.spec_count_matching(n, et, tt) == TypedGraph::<S>::class_count(
                out,
                g0,
                et,
                tt,
            ));
            // the full count is within the ceiling, so the prefix plus one is
            let j = g0.edge_idx(x);
            assert(g0.spec_edges()[j] == e);
            assert(g0.spec_schema().edge_quantity_allowed(
                g0.spec_count_matching(e.source, et, tt),
                et,
                g0.node_ty(e.source),
                tt,
            ));
            g0.spec_schema().quantity_antitone(
                (TypedGraph::<S>::class_count(out.take(m - 1), g0, et, tt) + 1) as nat,
                g0.spec_count_matching(e.source, et, tt),
                et,
                g0.node_ty(e.source),
                tt,
            );
            assert(g0.node_entry(e.target).weight.ty() == tt);
            assert(mg.spec_has_edge(x));
        }
    }

    /// Within the old schema's ceilings, the lift drops nothing: every edge
    /// of the store stands in the lifted dual store.
    pub proof fn lemma_lift_complete<NS: SchemaExt>(
        g0: TypedGraph<S>,
        mg: TypedGraph<InBetween<S, NS>>,
    ) where S: MigrateSchema<NS>
        requires
            g0.wf(),
            g0.quantity_valid(),
            lifted_of(g0, mg),
        ensures
            forall|x: usize| #[trigger] g0.spec_has_edge(x) ==> mg.spec_has_edge(x),
    {
        assert forall|x: usize| #[trigger] g0.spec_has_edge(x) implies mg.spec_has_edge(x) by {
            g0.lemma_edge_idx(x);
            let e = g0.edge_entry(x);
            let n = e.source;
            assert(g0.spec_has_node(n));
            g0.lemma_node_idx(n);
            let out = g0.node_entry(n).outgoing@;
            let m = choose|m: int| 0 <= m < out.len() && out[m] == x;
            assert(0 <= m < out.len() && out[m] == x);
            Self::lemma_lift_keeps_prefix(g0, mg, n, m + 1);
            assert(mg.spec_has_edge(out[m]));
        }
    }

    /// Migrate the whole store into a new schema through the dual-schema
    /// representation: lift every entity tagged "old" (the lift is owed
    /// success and never drops a node), hand the dual store to the transform
    /// handler, then lower every entity into the new schema via the schema's
    /// own conversions.  Any failure is reported with its types re-labeled
    /// as "<schema-name>::<type>".
    pub fn migrate<NS, H>(self, new_schema: NS, handler: &H) -> (r: MigrationResult<
        TypedGraph<NS>,
    >) where S: MigrateSchema<NS> + DupSchema, NS: SchemaExt + DupSchema, H: Migrationhandler<S, NS>
        requires
            self.wf(),
        ensures
            exists|mg0: TypedGraph<InBetween<S, NS>>| #[trigger] lifted_of(self, mg0),
            r matches Err(e) ==> relabeled_err(
                e,
                self.spec_schema().spec_name(),
                new_schema.spec_name(),
            ),
            r matches Ok(g) ==> g.wf() && g.spec_schema() == new_schema,
            r matches Ok(g) ==> exists|
                mg0: TypedGraph<InBetween<S, NS>>,
                mg1: TypedGraph<InBetween<S, NS>>,
            | #[trigger] migration_chain(*handler, self, new_schema, g, mg0, mg1),
    {
        let old_name = self.get_schema().name();
        let new_name = new_schema.name();
        let old_schema = self.get_schema().dup_schema();
        let inbetween = InBetween::new(old_schema, new_schema.dup_schema());
        let ghost g0 = self;
        let ghost ibv = inbetween;
        let lift_nodes = |s: &S, ns: &InBetween<S, NS>, n: S::N| -> (ret: Option<
            EitherVersion<S::N, NS::N>,
        >)
            ensures
                ret == Some(EitherVersion::<S::N, NS::N>::Old(n)),
            { Some(EitherVersion::Old(n)) };
        let lift_edges = |s: &S, ns: &InBetween<S, NS>, e: S::E| -> (ret: Option<
            EitherVersion<S::E, NS::E>,
        >)
            ensures
                ret == Some(EitherVersion::<S::E, NS::E>::Old(e)),
            { Some(EitherVersion::Old(e)) };
        proof {
            // the lift maps are clean, so the lift is owed success
            assert forall|ii: int| 0 <= ii < g0.spec_nodes().len() implies Self::node_map_clean(
                lift_nodes,
                g0.spec_schema(),
                ibv,
                (#[trigger] g0.spec_nodes()[ii]).weight,
            ) by {
                assert(g0.spec_schema().node_allowed(g0.spec_nodes()[ii].weight.ty()));
            }
            assert forall|jj: int| 0 <= jj < g0.spec_edges().len() implies Self::edge_map_clean(
                lift_nodes,
                lift_edges,
                g0.spec_schema(),
                ibv,
                #[trigger] g0.spec_edges()[jj],
                g0.node_entry(g0.spec_edges()[jj].source).weight,
                g0.node_entry(g0.spec_edges()[jj].target).weight,
            ) by {
                let e = g0.spec_edges()[jj];
                let src_w = g0.node_entry(e.source).weight;
                let tgt_w = g0.node_entry(e.target).weight;
                assert forall|
                    s: &S,
                    ns: &InBetween<S, NS>,
                    ret: Option<EitherVersion<S::E, NS::E>>,
                |
                    *s == g0.spec_schema() && *ns == ibv && #[trigger] call_ensures(
                        lift_edges,
                        (s, ns, e.weight),
                        ret,
                    ) implies match ret {
                    None => true,
                    Some(w2) => w2.sid() == e.weight.sid() && (forall|
                        ts: EitherVersion<<S::N as Typed>::Type, <NS::N as Typed>::Type>,
                        tt: EitherVersion<<S::N as Typed>::Type, <NS::N as Typed>::Type>,
                    |
                        Self::mapped_node_ty(lift_nodes, g0.spec_schema(), ibv, src_w, ts)
                            && Self::mapped_node_ty(lift_nodes, g0.spec_schema(), ibv, tgt_w, tt)
                            ==> #[trigger] ibv.edge_type_allowed(w2.ty(), ts, tt)),
                } by {
                    match ret {
                        None => {},
                        Some(w2) => {
                            assert forall|
                                ts: EitherVersion<<S::N as Typed>::Type, <NS::N as Typed>::Type>,
                                tt: EitherVersion<<S::N as Typed>::Type, <NS::N as Typed>::Type>,
                            |
                                Self::mapped_node_ty(lift_nodes, g0.spec_schema(), ibv, src_w, ts)
                                    && Self::mapped_node_ty(
                                    lift_nodes,
                                    g0.spec_schema(),
                                    ibv,
                                    tgt_w,
                                    tt,
                                ) implies #[trigger] ibv.edge_type_allowed(w2.ty(), ts, tt) by {
                                let (s1, ns1, w2s): (
                                    &S,
                                    &InBetween<S, NS>,
                                    EitherVersion<S::N, NS::N>,
                                ) = choose|
                                    s1: &S,
                                    ns1: &InBetween<S, NS>,
                                    w2s: EitherVersion<S::N, NS::N>,
                                | #[trigger] Self::node_fate_witness(
                                    lift_nodes,
                                    g0.spec_schema(),
                                    ibv,
                                    src_w,
                                    w2s,
                                    ts,
                                    s1,
                                    ns1,
                                );
                                let (s2, ns2, w2t): (
                                    &S,
                                    &InBetween<S, NS>,
                                    EitherVersion<S::N, NS::N>,
                                ) = choose|
                                    s2: &S,
                                    ns2: &InBetween<S, NS>,
                                    w2t: EitherVersion<S::N, NS::N>,
                                | #[trigger] Self::node_fate_witness(
                                    lift_nodes,
                                    g0.spec_schema(),
                                    ibv,
                                    tgt_w,
                                    w2t,
                                    tt,
                                    s2,
                                    ns2,
                                );
                                assert(ts == EitherVersion::<
                                    <S::N as Typed>::Type,
                                    <NS::N as Typed>::Type,
                                >::Old(src_w.ty()));
                                assert(tt == EitherVersion::<
                                    <S::N as Typed>::Type,
                                    <NS::N as Typed>::Type,
                                >::Old(tgt_w.ty()));
                                assert(g0.spec_schema().edge_type_allowed(
                                    e.weight.ty(),
                                    g0.node_ty(e.source),
                                    g0.node_ty(e.target),
                                ));
                            }
                        },
                    }
                }
            }
        }
        let lifted = self.update_schema(inbetween, lift_nodes, lift_edges);
        let mut mg = match lifted {
            Ok(g) => g,
            Err(e) => {
                proof {
                    assert(false);
                }
                return Err(relabel_between::<S, NS>(e, old_name.as_str(), new_name.as_str()));
            },
        };
        proof {
            Self::lemma_lift_shape(g0, mg, lift_nodes, lift_edges);
            assert(lifted_of(g0, mg));
        }
        let ghost mg0v = mg;
        match handler.update_data(&mut mg) {
            Ok(_) => {},
            Err(e) => {
                return Err(relabel_between::<S, NS>(e, old_name.as_str(), new_name.as_str()));
            },
        }
        let ghost mg1v = mg;
        let lower_nodes = |s: &InBetween<S, NS>, ns: &NS, n: EitherVersion<S::N, NS::N>| -> (ret:
            Option<NS::N>)
            ensures
                ret == s.spec_update_node(*ns, n),
            { s.update_node(ns, n) };
        let lower_edges = |s: &InBetween<S, NS>, ns: &NS, e: EitherVersion<S::E, NS::E>| -> (ret:
            Option<NS::E>)
            ensures
                ret == s.spec_update_edge(*ns, e),
            { s.update_edge(ns, e) };
        let lowered = mg.update_schema(new_schema, lower_nodes, lower_edges);
        match lowered {
            Ok(g) => {
                proof {
                    assert(lowered_from(mg1v, new_schema, g)) by {
                        assert forall|x: usize| #[trigger] mg1v.spec_has_node(x) implies (
                        match mg1v.spec_schema().spec_update_node(
                            new_schema,
                            mg1v.node_entry(x).weight,
                        ) {
                            Option::None => !g.spec_has_node(x),
                            Option::Some(w2) => w2.sid() == x && g.spec_has_node(x)
                                && g.node_entry(x).weight == w2,
                        }) by {
                            let (s, ns, ret): (&InBetween<S, NS>, &NS, Option<NS::N>) = choose|
                                s: &InBetween<S, NS>,
                                ns: &NS,
                                ret: Option<NS::N>,
                            | #[trigger] TypedGraph::<InBetween<S, NS>>::node_fate_with(
                                lower_nodes,
                                mg1v.spec_schema(),
                                new_schema,
                                mg1v.node_entry(x).weight,
                                g,
                                s,
                                ns,
                                ret,
                            );
                            mg1v.lemma_node_idx(x);
                        }
                        assert forall|x: usize| #[trigger] mg1v.spec_has_edge(x) implies (
                        match mg1v.spec_schema().spec_update_edge(
                            new_schema,
                            mg1v.edge_entry(x).weight,
                        ) {
                            Option::None => !g.spec_has_edge(x),
                            Option::Some(w2) => w2.sid() == x && (if !g.spec_has_node(
                                mg1v.edge_entry(x).source,
                            ) || !g.spec_has_node(mg1v.edge_entry(x).target) {
                                !g.spec_has_edge(x)
                            } else {
                                (g.spec_has_edge(x) && g.edge_entry(x)
                                    == (crate::typed_graph::EdgeEntry {
                                    weight: w2,
                                    source: mg1v.edge_entry(x).source,
                                    target: mg1v.edge_entry(x).target,
                                })) || (!g.spec_has_edge(x) && exists|q: nat|
                                    q >= 1 && !new_schema.edge_quantity_allowed(
                                        q,
                                        w2.ty(),
                                        g.node_ty(mg1v.edge_entry(x).source),
                                        g.node_ty(mg1v.edge_entry(x).target),
                                    ))
                            }),
                        }) by {
                            let (s, ns, ret): (&InBetween<S, NS>, &NS, Option<NS::E>) = choose|
                                s: &InBetween<S, NS>,
                                ns: &NS,
                                ret: Option<NS::E>,
                            | #[trigger] TypedGraph::<InBetween<S, NS>>::edge_fate_with(
                                lower_edges,
                                mg1v.spec_schema(),
                                new_schema,
                                mg1v.edge_entry(x),
                                g,
                                s,
                                ns,
                                ret,
                            );
                            mg1v.lemma_edge_idx(x);
                        }
                    }
                    assert(migration_chain(*handler, g0, new_schema, g, mg0v, mg1v));
                }
                Ok(g)
            },
            Err(e) => Err(relabel_new::<NS>(e, old_name.as_str(), new_name.as_str())),
        }
    }

    /// Migrate directly from one schema version to another, without the
    /// intermediate representation.
    pub fn migrate_direct<NS: SchemaExt>(self) -> (r: GenericTypedResult<TypedGraph<NS>>) where
        S: DirectMigration<NS>,

        requires
            self.wf(),
        ensures
            r matches Ok(g) ==> g.wf(),
    {
        DirectMigration::migrate(self)
    }
}

/// A schema-qualified diagnostic string: "<scope>::<tag>".
pub open spec fn scoped(scope: Seq<char>, tag: Seq<char>) -> Seq<char> {
    scope + "::"@ + tag
}

/// The string is `scope` qualifying `tag`.
pub open spec fn scoped_as(t: Seq<char>, scope: Seq<char>, tag: Seq<char>) -> bool {
    t == scoped(scope, tag)
}

/// The string is a type identifier qualified by one of the two schema names.
pub open spec fn relabeled_tag(t: Seq<char>, old_n: Seq<char>, new_n: Seq<char>) -> bool {
    exists|tag: Seq<char>|
        #![trigger scoped_as(t, old_n, tag)]
        #![trigger scoped_as(t, new_n, tag)]
        (scoped_as(t, old_n, tag) || scoped_as(t, new_n, tag))
}

/// Every type identifier the error carries is qualified by one of the two
/// schema names, so the caller can tell which schema rejected what.
pub open spec fn relabeled_err(e: GenericTypedError, old_n: Seq<char>, new_n: Seq<char>) -> bool {
    match e {
        TypedError::InvalidEdgeType(a, b, c, _) => relabeled_tag(a@, old_n, new_n)
            && relabeled_tag(b@, old_n, new_n) && relabeled_tag(c@, old_n, new_n),
        TypedError::InvalidNodeType(a, _) => relabeled_tag(a@, old_n, new_n),
        _ => true,
    }
}

/// Re-label the types of a dual-schema error as "<schema-name>::<type>".
fn relabel_between<S, NS>(
    e: SchemaError<InBetween<S, NS>>,
    old_name: &str,
    new_name: &str,
) -> (r: GenericTypedError) where S: SchemaExt + MigrateSchema<NS>, NS: SchemaExt
    ensures
        relabeled_err(r, old_name@, new_name@),
{
    let nt_map = |nt: EitherVersion<<S::N as Typed>::Type, <NS::N as Typed>::Type>| -> (out:
        String)
        ensures
            relabeled_tag(out@, old_name@, new_name@),
        {
            match nt {
                EitherVersion::Old(t) => {
                    let out = scoped_label(old_name, t.label());
                    proof {
                        assert(scoped_as(out@, old_name@, t.spec_label()));
                        assert(relabeled_tag(out@, old_name@, new_name@));
                    }
                    out
                },
                EitherVersion::New(t) => {
                    let out = scoped_label(new_name, t.label());
                    proof {
                        assert(scoped_as(out@, new_name@, t.spec_label()));
                        assert(relabeled_tag(out@, old_name@, new_name@));
                    }
                    out
                },
            }
        };
    let et_map = |et: EitherVersion<<S::E as Typed>::Type, <NS::E as Typed>::Type>| -> (out:
        String)
        ensures
            relabeled_tag(out@, old_name@, new_name@),
        {
            match et {
                EitherVersion::Old(t) => {
                    let out = scoped_label(old_name, t.label());
                    proof {
                        assert(scoped_as(out@, old_name@, t.spec_label()));
                        assert(relabeled_tag(out@, old_name@, new_name@));
                    }
                    out
                },
                EitherVersion::New(t) => {
                    let out = scoped_label(new_name, t.label());
                    proof {
                        assert(scoped_as(out@, new_name@, t.spec_label()));
                        assert(relabeled_tag(out@, old_name@, new_name@));
                    }
                    out
                },
            }
        };
    e.map(nt_map, et_map)
}

/// Re-label the types of a new-schema error as "<schema-name>::<type>".
fn relabel_new<NS: SchemaExt>(e: SchemaError<NS>, old_name: &str, new_name: &str) -> (r:
    GenericTypedError)
    ensures
        relabeled_err(r, old_name@, new_name@),
{
    let nt_map = |nt: <NS::N as Typed>::Type| -> (out: String)
        ensures
            relabeled_tag(out@, old_name@, new_name@),
        {
            let out = scoped_label(new_name, nt.label());
            proof {
                assert(scoped_as(out@, new_name@, nt.spec_label()));
                assert(relabeled_tag(out@, old_name@, new_name@));
            }
            out
        };
    let et_map = |et: <NS::E as Typed>::Type| -> (out: String)
        ensures
            relabeled_tag(out@, old_name@, new_name@),
        {
            let out = scoped_label(new_name, et.label());
            proof {
                assert(scoped_as(out@, new_name@, et.spec_label()));
                assert(relabeled_tag(out@, old_name@, new_name@));
            }
            out
        };
    e.map(nt_map, et_map)
}

/// Renders "scope::tag" for schema-qualified diagnostics.
fn scoped_label(scope: &str, tag: String) -> (r: String)
    ensures
        r@ == scope@ + "::"@ + tag@,
{
    let a = scope.to_owned();
    let b = a.concat("::");
    b.concat(tag.as_str())
}

/// Migrating between two [`GenericSchema`]s passes every weight through
/// unchanged when the new schema accepts its type, and drops it otherwise.
impl<NT: TypeIdentifier, ET: TypeIdentifier> MigrateSchema<GenericSchema<NT, ET>> for GenericSchema<
    NT,
    ET,
> {
    open spec fn spec_update_node(
        &self,
        new_schema: GenericSchema<NT, ET>,
        node: Self::N,
    ) -> Option<crate::generic_weight::GenericWeight<NT>> {
        if new_schema.node_allowed(node.ty()) {
            Some(node)
        } else {
            None
        }
    }

    open spec fn spec_update_edge(
        &self,
        new_schema: GenericSchema<NT, ET>,
        edge: Self::E,
    ) -> Option<crate::generic_weight::GenericWeight<ET>> {
        if (new_schema.spec_edge_whitelist() is None || crate::generic_graph::opt_list_has(
            new_schema.spec_edge_whitelist(),
            edge.ty(),
        )) && !crate::generic_graph::opt_list_has(new_schema.spec_edge_blacklist(), edge.ty()) {
            Some(edge)
        } else {
            None
        }
    }

    open spec fn spec_update_node_type(
        &self,
        new_schema: GenericSchema<NT, ET>,
        node_type: NT,
    ) -> Option<NT> {
        if new_schema.node_allowed(node_type) {
            Some(node_type)
        } else {
            None
        }
    }

    open spec fn spec_update_edge_type(
        &self,
        new_schema: GenericSchema<NT, ET>,
        edge_type: ET,
    ) -> Option<ET> {
        if (new_schema.spec_edge_whitelist() is None || crate::generic_graph::opt_list_has(
            new_schema.spec_edge_whitelist(),
            edge_type,
        )) && !crate::generic_graph::opt_list_has(new_schema.spec_edge_blacklist(), edge_type) {
            Some(edge_type)
        } else {
            None
        }
    }

    fn update_node(
        &self,
        new_schema: &GenericSchema<NT, ET>,
        node: Self::N,
    ) -> (r: Option<crate::generic_weight::GenericWeight<NT>>)
        ensures
            r == self.spec_update_node(*new_schema, node),
    {
        match new_schema.allow_node(node.get_type()) {
            Ok(_) => Some(node),
            Err(_) => None,
        }
    }

    fn update_edge(
        &self,
        new_schema: &GenericSchema<NT, ET>,
        edge: Self::E,
    ) -> (r: Option<crate::generic_weight::GenericWeight<ET>>)
        ensures
            r == self.spec_update_edge(*new_schema, edge),
    {
        match self.update_edge_type(new_schema, edge.get_type()) {
            Some(_) => Some(edge),
            None => None,
        }
    }

    fn update_node_type(&self, new_schema: &GenericSchema<NT, ET>, node_type: NT) -> (r: Option<
        NT,
    >)
        ensures
            r == self.spec_update_node_type(*new_schema, node_type),
    {
        match new_schema.allow_node(node_type) {
            Ok(_) => Some(node_type),
            Err(_) => None,
        }
    }

    fn update_edge_type(&self, new_schema: &GenericSchema<NT, ET>, edge_type: ET) -> (r: Option<
        ET,
    >)
        ensures
            r == self.spec_update_edge_type(*new_schema, edge_type),
    {
        let in_whitelist = match &new_schema.edge_whitelist {
            None => true,
            Some(v) => crate::generic_graph::list_contains(v, &edge_type),
        };
        let in_blacklist = match &new_schema.edge_blacklist {
            None => false,
            Some(v) => crate::generic_graph::list_contains(v, &edge_type),
        };
        if in_whitelist && !in_blacklist {
            Some(edge_type)
        } else {
            None
        }
    }
}

} // verus!
