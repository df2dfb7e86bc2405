use vstd::prelude::*;
use crate::enums::Direction;

verus! {

/// Marks the second player character.
#[derive(Clone, Copy, PartialEq, Eq, Structural, Debug)]
pub struct Ben;

/// The lives left.
#[derive(Clone, Copy, PartialEq, Eq, Structural, Debug)]
pub struct BenLives(pub u8);

/// The direction Ben moves in.
#[derive(Clone, Copy, PartialEq, Eq, Structural, Debug)]
pub struct BenDirection(pub Direction);

/// The turn Ben was asked to take and has not taken yet.
#[derive(Clone, Copy, PartialEq, Eq, Structural, Debug)]
pub struct BenNextDirection(pub Option<Direction>);

impl Default for Ben {
    fn default() -> (r: Self) {
        Self
    }
}

impl Default for BenLives {
    fn default() -> (r: Self)
        ensures
            r.0 == 3,
    {
        Self(3)
    }
}

impl Default for BenDirection {
    fn default() -> (r: Self)
        ensures
            r.0 == Direction::Right,
    {
        Self(Direction::Right)
    }
}

impl Default for BenNextDirection {
    fn default() -> (r: Self)
        ensures
            r.0 is None,
    {
        Self(None)
    }
}

} // verus!
