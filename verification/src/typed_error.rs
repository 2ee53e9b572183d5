//! The combined error type shared by every fallible store operation.

use vstd::prelude::*;

use crate::graph_traits::{DisAllowedEdge, DisAllowedNode, SchemaExt, Typed};

verus! {

/// Error of a store operation, generic over the node and edge type tags so
/// that schema rejections can carry the offending types.
#[derive(Debug)]
pub enum TypedError<NT, ET> {
    /// Two node weights carried the same logical id where ids must be unique.
    NodeIdCollision(usize),
    /// Two edge weights carried the same logical id where ids must be unique.
    EdgeIdCollision(usize),
    /// A node id was expected to be present in the id lookup but was not.
    NodeIdMissing(usize),
    /// An edge id was expected to be present in the id lookup but was not.
    EdgeIdMissing(usize),
    /// Failed to get a node by its logical id.
    MissingNode(usize),
    /// Failed to get an edge by its logical id.
    MissingEdge(usize),
    /// The schema rejected an edge: edge type, source type, target type, reason.
    InvalidEdgeType(ET, NT, NT, DisAllowedEdge),
    /// The schema rejected a node: node type, reason.
    InvalidNodeType(NT, DisAllowedNode),
    /// The store detected an internal inconsistency; signals a defect, not
    /// caller misuse.
    InvalidInternalState,
    /// A narrowing-by-type operation failed: requested type, actual type.
    DownCastFailed(String, String),
    /// A mapping function changed a node id during re-typing: old id, new id.
    InconsistentNodeIds(usize, usize),
    /// A mapping function changed an edge id during re-typing: old id, new id.
    InconsistentEdgeIds(usize, usize),
    /// The two edges of a reorder request do not share a source node, or the
    /// target edge is absent from that node's outgoing set.
    InvalidEdgeMove(usize, usize),
}

/// Error type of a store governed by schema `S`.
pub type SchemaError<S> = TypedError<
    <<S as SchemaExt>::N as Typed>::Type,
    <<S as SchemaExt>::E as Typed>::Type,
>;

/// Result type of a store operation governed by schema `S`.
pub type SchemaResult<T, S> = Result<T, SchemaError<S>>;

/// Error with type tags erased into display strings, used by migration so
/// that rejections of either schema share one type.
pub type GenericTypedError = TypedError<String, String>;

/// Result with type tags erased into display strings.
pub type GenericTypedResult<T> = Result<T, GenericTypedError>;

impl<NT, ET> TypedError<NT, ET> {
    /// Rewrite the node and edge type tags carried by the error, leaving
    /// every other field as it is.
    pub fn map<NT1, ET1, NTF: Fn(NT) -> NT1, ETF: Fn(ET) -> ET1>(
        self,
        nt_map: NTF,
        et_map: ETF,
    ) -> (r: TypedError<NT1, ET1>)
        requires
            forall|nt: NT| call_requires(nt_map, (nt,)),
            forall|et: ET| call_requires(et_map, (et,)),
        ensures
            match self {
                TypedError::NodeIdCollision(a) => r == TypedError::<NT1, ET1>::NodeIdCollision(a),
                TypedError::EdgeIdCollision(a) => r == TypedError::<NT1, ET1>::EdgeIdCollision(a),
                TypedError::NodeIdMissing(a) => r == TypedError::<NT1, ET1>::NodeIdMissing(a),
                TypedError::EdgeIdMissing(a) => r == TypedError::<NT1, ET1>::EdgeIdMissing(a),
                TypedError::MissingNode(a) => r == TypedError::<NT1, ET1>::MissingNode(a),
                TypedError::MissingEdge(a) => r == TypedError::<NT1, ET1>::MissingEdge(a),
                TypedError::InvalidEdgeType(a, b, c, e) => exists|a1: ET1, b1: NT1, c1: NT1|
                    r == TypedError::<NT1, ET1>::InvalidEdgeType(a1, b1, c1, e)
                        && call_ensures(et_map, (a,), a1)
                        && call_ensures(nt_map, (b,), b1)
                        && call_ensures(nt_map, (c,), c1),
                TypedError::InvalidNodeType(a, e) => exists|a1: NT1|
                    r == TypedError::<NT1, ET1>::InvalidNodeType(a1, e)
                        && call_ensures(nt_map, (a,), a1),
                TypedError::InvalidInternalState => r
                    == TypedError::<NT1, ET1>::InvalidInternalState,
                TypedError::DownCastFailed(a, b) => r == TypedError::<NT1, ET1>::DownCastFailed(
                    a,
                    b,
                ),
                TypedError::InconsistentNodeIds(a, b) => r == TypedError::<
                    NT1,
                    ET1,
                >::InconsistentNodeIds(a, b),
                TypedError::InconsistentEdgeIds(a, b) => r == TypedError::<
                    NT1,
                    ET1,
                >::InconsistentEdgeIds(a, b),
                TypedError::InvalidEdgeMove(a, b) => r == TypedError::<NT1, ET1>::InvalidEdgeMove(
                    a,
                    b,
                ),
            },
    {
        match self {
            TypedError::NodeIdCollision(a) => TypedError::NodeIdCollision(a),
            TypedError::EdgeIdCollision(a) => TypedError::EdgeIdCollision(a),
            TypedError::NodeIdMissing(a) => TypedError::NodeIdMissing(a),
            TypedError::EdgeIdMissing(a) => TypedError::EdgeIdMissing(a),
            TypedError::MissingNode(a) => TypedError::MissingNode(a),
            TypedError::MissingEdge(a) => TypedError::MissingEdge(a),
            TypedError::InvalidEdgeType(a, b, c, e) => TypedError::InvalidEdgeType(
                et_map(a),
                nt_map(b),
                nt_map(c),
                e,
            ),
            TypedError::InvalidNodeType(a, e) => TypedError::InvalidNodeType(nt_map(a), e),
            TypedError::InvalidInternalState => TypedError::InvalidInternalState,
            TypedError::DownCastFailed(a, b) => TypedError::DownCastFailed(a, b),
            TypedError::InconsistentNodeIds(a, b) => TypedError::InconsistentNodeIds(a, b),
            TypedError::InconsistentEdgeIds(a, b) => TypedError::InconsistentEdgeIds(a, b),
            TypedError::InvalidEdgeMove(a, b) => TypedError::InvalidEdgeMove(a, b),
        }
    }
}

} // verus!
