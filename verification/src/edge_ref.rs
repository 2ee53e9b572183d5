//! An edge together with its endpoints and the direction it was reached in.

use vstd::prelude::*;

use crate::graph_traits::Downcast;
use crate::typed_graph::Direction;

verus! {

/// An edge result: its weight, the logical ids of its endpoints, and the
/// direction relative to the node it was queried from.
pub struct EdgeRef<E> {
    pub weight: E,
    pub source: usize,
    pub target: usize,
    pub direction: Direction,
}

impl<E> EdgeRef<E> {
    pub fn get_weight(&self) -> (r: &E)
        ensures
            *r == self.weight,
    {
        &self.weight
    }

    /// Narrow the carried weight to a concrete variant; fails with
    /// `DownCastFailed` when it holds a different variant.
    pub fn get_weight_downcast<T, S: crate::graph_traits::SchemaExt>(&self) -> (r:
        crate::typed_error::SchemaResult<T, S>) where E: crate::graph_traits::Downcast<T, S>
        ensures
            r is Ok <==> self.weight.spec_downcast() is Some,
            r matches Ok(t) ==> self.weight.spec_downcast() == Some(t),
            r matches Err(e) ==> e matches crate::typed_error::TypedError::DownCastFailed(_, _),
    {
        self.weight.downcast()
    }

    pub fn get_source(&self) -> (r: usize)
        ensures
            r == self.source,
    {
        self.source
    }

    pub fn get_target(&self) -> (r: usize)
        ensures
            r == self.target,
    {
        self.target
    }

    /// The node the edge leads away to: the target when reached outgoing,
    /// the source when reached incoming.
    pub fn get_outer(&self) -> (r: usize)
        ensures
            r == (match self.direction {
                Direction::Incoming => self.source,
                Direction::Outgoing => self.target,
            }),
    {
        match self.direction {
            Direction::Incoming => self.source,
            Direction::Outgoing => self.target,
        }
    }

    /// The node the edge was reached from: the source when reached outgoing,
    /// the target when reached incoming.
    pub fn get_inner(&self) -> (r: usize)
        ensures
            r == (match self.direction {
                Direction::Incoming => self.target,
                Direction::Outgoing => self.source,
            }),
    {
        match self.direction {
            Direction::Incoming => self.target,
            Direction::Outgoing => self.source,
        }
    }

    pub fn get_direction(&self) -> (r: Direction)
        ensures
            r == self.direction,
    {
        self.direction
    }
}

} // verus!
