use vstd::prelude::*;

verus! {

/// A digit at a cell: a proposed move, or one candidate of a cell.
#[derive(Hash, Eq, PartialEq, Structural, Debug, Clone, Copy, Ord, PartialOrd)]
pub struct Placement {
    pub index: usize,
    pub value: u8,
}

impl Placement {
    pub fn new(value: u8, index: usize) -> (r: Placement)
        ensures
            r.index == index,
            r.value == value,
    {
        Placement { value, index }
    }
}

/// A digit to be written at a cell.
#[derive(Hash, Eq, PartialEq, Structural, Debug, Clone, Copy)]
pub struct Move {
    pub value: u8,
    pub index: usize,
}

impl Move {
    pub fn new(value: u8, index: usize) -> (r: Move)
        ensures
            r.index == index,
            r.value == value,
    {
        Move { value, index }
    }
}

/// A move together with whether it was a guess taken while branching.
#[derive(Debug, Clone, Copy)]
pub struct TypedMove {
    pub placement: Move,
    pub is_branching: bool,
}

impl TypedMove {
    pub fn new(placement: Move, is_branching: bool) -> (r: TypedMove)
        ensures
            r.placement == placement,
            r.is_branching == is_branching,
    {
        TypedMove { placement, is_branching }
    }
}

} // verus!
