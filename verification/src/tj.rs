use vstd::prelude::*;
use crate::enums::Direction;

verus! {

/// Marks the player.
#[derive(Clone, Copy, PartialEq, Eq, Structural, Debug)]
pub struct TJ;

/// The direction the player moves in.
#[derive(Clone, Copy, PartialEq, Eq, Structural, Debug)]
pub struct TJDirection(pub Direction);

/// The turn the player asked for and that has not been taken yet.
#[derive(Clone, Copy, PartialEq, Eq, Structural, Debug)]
pub struct TJNextDirection(pub Option<Direction>);

/// The direction the player faces at the start of a game.
pub const TJ_DIRECTION_DEFAULT: Direction = Direction::Right;

impl Default for TJ {
    fn default() -> (r: Self) {
        Self
    }
}

impl Default for TJDirection {
    fn default() -> (r: Self)
        ensures
            r.0 == Direction::Right,
    {
        Self(Direction::Right)
    }
}

impl Default for TJNextDirection {
    fn default() -> (r: Self)
        ensures
            r.0 is None,
    {
        Self(None)
    }
}

/// A picture of the player: facing `direction`, mouth open or closed.
#[derive(Clone, Copy, PartialEq, Eq, Structural, Debug)]
pub struct TjFrame {
    pub direction: Direction,
    pub closed: bool,
}

/// The picture to switch to this frame, if any.  A turn shows the new
/// direction with the mouth open at once.  Otherwise, each time the
/// animation timer runs out, the mouth closes unless the closed picture of
/// the current direction is already shown, in which case it opens.
pub fn next_tj_frame(
    turned: Option<Direction>,
    timer_finished: bool,
    direction: Direction,
    showing_closed: bool,
) -> (r: Option<TjFrame>)
    ensures
        r == (match turned {
            Some(d) => Some(TjFrame { direction: d, closed: false }),
            None => if !timer_finished {
                None
            } else {
                Some(TjFrame { direction, closed: !showing_closed })
            },
        }),
{
    match turned {
        Some(d) => Some(TjFrame { direction: d, closed: false }),
        None => {
            if !timer_finished {
                None
            } else if !showing_closed {
                Some(TjFrame { direction, closed: true })
            } else {
                Some(TjFrame { direction, closed: false })
            }
        },
    }
}

} // verus!
