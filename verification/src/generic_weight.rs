//! A minimal weight: a logical id paired with a type tag.

use vstd::prelude::*;

use crate::graph_traits::{Dup, EdgeExt, Id, NodeExt, TypeIdentifier, Typed};

verus! {

/// A node or edge weight carrying nothing but its logical id and its type
/// tag.  Any type tag satisfying [`TypeIdentifier`] can be used.
#[derive(Clone, Copy, Debug)]
pub struct GenericWeight<T: TypeIdentifier> {
    pub id: usize,
    pub ty: T,
}

/// A generic node weight.
pub type GenericNode<T> = GenericWeight<T>;

/// A generic edge weight.
pub type GenericEdge<T> = GenericWeight<T>;

impl<T: TypeIdentifier> GenericWeight<T> {
    /// Build a weight from its id and type tag.
    pub fn new(id: usize, ty: T) -> (r: GenericWeight<T>)
        ensures
            r.id == id,
            r.ty == ty,
    {
        GenericWeight { id, ty }
    }
}

impl<T: TypeIdentifier> Id for GenericWeight<T> {
    open spec fn sid(&self) -> usize {
        self.id
    }

    fn get_id(&self) -> (r: usize)
        ensures
            r == self.sid(),
    {
        self.id
    }

    fn set_id(&mut self, new_id: usize)
        ensures
            final(self).sid() == new_id,
    {
        self.id = new_id;
    }
}

impl<T: TypeIdentifier> Typed for GenericWeight<T> {
    type Type = T;

    open spec fn ty(&self) -> T {
        self.ty
    }

    fn get_type(&self) -> (t: T)
        ensures
            t == self.ty(),
    {
        self.ty
    }
}

impl<T: TypeIdentifier> Dup for GenericWeight<T> {
    fn dup(&self) -> (r: Self)
        ensures
            r == *self,
    {
        GenericWeight { id: self.id, ty: self.ty }
    }
}

impl<T: TypeIdentifier> NodeExt for GenericWeight<T> {

}

impl<T: TypeIdentifier> EdgeExt for GenericWeight<T> {

}

} // verus!
