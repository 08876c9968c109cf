use vstd::prelude::*;

verus! {

/// The colour of a stone.
#[derive(Debug, Clone, Copy, PartialEq, Eq, Structural)]
pub enum StoneColor {
    Black,
    White,
}

impl StoneColor {
    /// The other colour: Black and White swap.
    pub open spec fn spec_opposite(self) -> StoneColor {
        match self {
            StoneColor::Black => StoneColor::White,
            StoneColor::White => StoneColor::Black,
        }
    }

    pub fn opposite(&self) -> (r: StoneColor)
        ensures
            r == self.spec_opposite(),
            r != *self,
            r.spec_opposite() == *self,
    {
        match self {
            StoneColor::Black => StoneColor::White,
            StoneColor::White => StoneColor::Black,
        }
    }
}

} // verus!
