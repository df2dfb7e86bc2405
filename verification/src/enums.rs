use vstd::prelude::*;

verus! {

/// The four directions the player can face and move in.
#[derive(Clone, Copy, PartialEq, Eq, Structural, Debug, Hash)]
pub enum Direction {
    Up,
    Right,
    Down,
    Left,
}

/// The phases of a game.
#[derive(Clone, Copy, PartialEq, Eq, Structural, Debug, Hash)]
pub enum GameState {
    /// Before the first game: waiting for the start key.
    Wait,
    /// Playing.
    Default,
    /// The game is over, won or lost: waiting for the restart key.
    End,
    /// Putting everything back for a new game.
    Reset,
}

impl Default for GameState {
    fn default() -> (r: Self)
        ensures
            r == GameState::Wait,
    {
        GameState::Wait
    }
}

} // verus!
