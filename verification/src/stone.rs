use vstd::prelude::*;

verus! {

/// Occupancy of a single board cell: empty, or holding a stone of one colour.
#[derive(Clone, Copy, PartialEq, Eq, Structural, Debug)]
pub enum Occupy {
    Free,
    Black,
    White,
}

impl Occupy {
    /// True when the cell state is a stone, i.e. a valid player colour.
    pub open spec fn is_stone(self) -> bool {
        self != Occupy::Free
    }

    /// Colour of the opposing player; `Free` is mapped to itself so the
    /// function is total, but it is only meaningful on stones.
    pub open spec fn spec_opposite(self) -> Occupy {
        match self {
            Occupy::Black => Occupy::White,
            Occupy::White => Occupy::Black,
            Occupy::Free => Occupy::Free,
        }
    }

    /// Executable counterpart of [`Self::spec_opposite`].
    pub fn opposite(self) -> (r: Occupy)
        ensures
            r == self.spec_opposite(),
    {
        match self {
            Occupy::Black => Occupy::White,
            Occupy::White => Occupy::Black,
            Occupy::Free => Occupy::Free,
        }
    }

    /// The symbol that serialization assigns to this cell state.
    pub open spec fn symbol(self) -> char {
        match self {
            Occupy::Free => '0',
            Occupy::Black => '1',
            Occupy::White => '2',
        }
    }
}

} // verus!
