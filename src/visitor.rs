use vstd::prelude::*;

verus! {

/// An operation on values of type `D`.
pub trait Visitor<D> {
    type Result;

    fn visit(&self, data: &D) -> Self::Result;
}

/// A value that hands itself, or a part of itself, to a [`Visitor`].
pub trait AcceptVisitor<D> {
    fn accept<V: Visitor<D>>(&self, visitor: &V) -> V::Result;
}

} // verus!
