use vstd::prelude::*;
use crate::enums::{Direction, GameState};

verus! {

// ---------------------------------------------------------------------------
// Game phases
// ---------------------------------------------------------------------------

/// What can move the game from one phase to another.
#[derive(Clone, Copy, PartialEq, Eq, Structural, Debug)]
pub enum GameEvent {
    /// The start key was pressed while the start message was shown.
    StartPressed,
    /// An attacking ghost caught the player.
    PlayerCaught,
    /// The player ate the last dot.
    AllDotsEaten,
    /// The restart key was pressed while the restart message was shown.
    RestartPressed,
    /// Everything was put back for a new game.
    ResetDone,
}

pub open spec fn spec_next_game_state(s: GameState, e: GameEvent) -> GameState {
    match (s, e) {
        (GameState::Wait, GameEvent::StartPressed) => GameState::Default,
        (GameState::Default, GameEvent::PlayerCaught) => GameState::End,
        (GameState::Default, GameEvent::AllDotsEaten) => GameState::End,
        (GameState::End, GameEvent::RestartPressed) => GameState::Reset,
        (GameState::Reset, GameEvent::ResetDone) => GameState::Default,
        _ => s,
    }
}

/// The phase after `e` happens in phase `s`; events that do not belong to
/// the phase leave it unchanged.
pub fn next_game_state(s: GameState, e: GameEvent) -> (r: GameState)
    ensures
        r == spec_next_game_state(s, e),
{
    match (s, e) {
        (GameState::Wait, GameEvent::StartPressed) => GameState::Default,
        (GameState::Default, GameEvent::PlayerCaught) => GameState::End,
        (GameState::Default, GameEvent::AllDotsEaten) => GameState::End,
        (GameState::End, GameEvent::RestartPressed) => GameState::Reset,
        (GameState::Reset, GameEvent::ResetDone) => GameState::Default,
        _ => s,
    }
}

/// What to do with a "press space" message.
#[derive(Clone, Copy, PartialEq, Eq, Structural, Debug)]
pub enum PromptAction {
    /// The message is not on screen yet: show it.
    ShowMessage,
    /// The key was pressed: remove the message and move on.
    Dismiss,
    /// Keep waiting.
    Wait,
}

/// One frame of waiting for the space key behind a message: show the
/// message first; once it is shown, a press dismisses it.
pub fn prompt_step(message_shown: bool, space_pressed: bool) -> (r: PromptAction)
    ensures
        !message_shown ==> r == PromptAction::ShowMessage,
        message_shown && space_pressed ==> r == PromptAction::Dismiss,
        message_shown && !space_pressed ==> r == PromptAction::Wait,
{
    if !message_shown {
        PromptAction::ShowMessage
    } else if space_pressed {
        PromptAction::Dismiss
    } else {
        PromptAction::Wait
    }
}

// ---------------------------------------------------------------------------
// The player's controls and movement
// ---------------------------------------------------------------------------

/// The direction keys pressed this frame (a letter key or its arrow key).
#[derive(Clone, Copy, PartialEq, Eq, Structural, Debug)]
pub struct DirectionKeys {
    pub up: bool,
    pub right: bool,
    pub down: bool,
    pub left: bool,
}

/// The turn requested after the keys of this frame: the first pressed of
/// up, right, down, left; the earlier request when none is pressed.
pub fn requested_direction(keys: DirectionKeys, current: Option<Direction>) -> (r: Option<Direction>)
    ensures
        r == (if keys.up {
            Some(Direction::Up)
        } else if keys.right {
            Some(Direction::Right)
        } else if keys.down {
            Some(Direction::Down)
        } else if keys.left {
            Some(Direction::Left)
        } else {
            current
        }),
{
    if keys.up {
        Some(Direction::Up)
    } else if keys.right {
        Some(Direction::Right)
    } else if keys.down {
        Some(Direction::Down)
    } else if keys.left {
        Some(Direction::Left)
    } else {
        current
    }
}

/// Which directions are open to the player this frame.
#[derive(Clone, Copy, PartialEq, Eq, Structural, Debug)]
pub struct OpenDirections {
    pub up: bool,
    pub right: bool,
    pub down: bool,
    pub left: bool,
}

pub open spec fn is_open(open: OpenDirections, d: Direction) -> bool {
    match d {
        Direction::Up => open.up,
        Direction::Right => open.right,
        Direction::Down => open.down,
        Direction::Left => open.left,
    }
}

/// The player's movement decision for one frame.
#[derive(Clone, Copy, PartialEq, Eq, Structural, Debug)]
pub struct PlayerMove {
    /// The direction the player now moves in.
    pub direction: Direction,
    /// The turn still requested.
    pub next_direction: Option<Direction>,
    /// The new direction, when it changed this frame.
    pub turned: Option<Direction>,
    /// Whether the player advances this frame.
    pub advances: bool,
}

/// Decides the player's movement: a requested turn is taken when that way
/// is open, and once the direction changes the request is used up; the
/// player then advances if its direction is open.
pub fn player_move(next: Option<Direction>, direction: Direction, open: OpenDirections) -> (r: PlayerMove)
    ensures
        r.direction == (match next {
            Some(d) => if is_open(open, d) { d } else { direction },
            None => direction,
        }),
        r.direction != direction ==> r.turned == Some(r.direction) && r.next_direction is None,
        r.direction == direction ==> r.turned is None && r.next_direction == next,
        r.advances == is_open(open, r.direction),
        r.direction == Direction::Up ==> (r.advances <==> open.up),
        r.direction == Direction::Right ==> (r.advances <==> open.right),
        r.direction == Direction::Down ==> (r.advances <==> open.down),
        r.direction == Direction::Left ==> (r.advances <==> open.left),
        next == Some(Direction::Up) ==> (r.direction == Direction::Up <==> (open.up || direction == Direction::Up)),
        next == Some(Direction::Right) ==> (r.direction == Direction::Right <==> (open.right || direction
            == Direction::Right)),
        next == Some(Direction::Down) ==> (r.direction == Direction::Down <==> (open.down || direction
            == Direction::Down)),
        next == Some(Direction::Left) ==> (r.direction == Direction::Left <==> (open.left || direction
            == Direction::Left)),
{
    let mut new_direction = direction;
    if let Some(d) = next {
        let can = match d {
            Direction::Up => open.up,
            Direction::Right => open.right,
            Direction::Down => open.down,
            Direction::Left => open.left,
        };
        if can {
            new_direction = d;
        }
    }
    let mut next_direction = next;
    let mut turned = None;
    if new_direction != direction {
        turned = Some(new_direction);
        next_direction = None;
    }
    let advances = match new_direction {
        Direction::Up => open.up,
        Direction::Right => open.right,
        Direction::Down => open.down,
        Direction::Left => open.left,
    };
    PlayerMove { direction: new_direction, next_direction, turned, advances }
}

// ---------------------------------------------------------------------------
// Laws
// ---------------------------------------------------------------------------

/// Only the start key leaves the waiting phase, and only the restart key
/// leaves the end of a game; a game in play ends exactly when the player is
/// caught or has eaten every dot.
pub proof fn law_phase_exits(e: GameEvent)
    ensures
        spec_next_game_state(GameState::Wait, e) != GameState::Wait <==> e == GameEvent::StartPressed,
        spec_next_game_state(GameState::End, e) != GameState::End <==> e == GameEvent::RestartPressed,
        spec_next_game_state(GameState::Default, e) == GameState::End <==> (e == GameEvent::PlayerCaught || e
            == GameEvent::AllDotsEaten),
        spec_next_game_state(GameState::Default, e) == GameState::Default || spec_next_game_state(
            GameState::Default,
            e,
        ) == GameState::End,
{
}

/// A finished game goes, by the restart key and the reset, back to play.
pub proof fn law_restart_cycle()
    ensures
        spec_next_game_state(
            spec_next_game_state(GameState::End, GameEvent::RestartPressed),
            GameEvent::ResetDone,
        ) == GameState::Default,
{
}

/// The way open in each direction is read from that direction's own flag:
/// with only the flag of `d` set, `d` is open and every other direction is
/// closed; with every flag set all are open, with none, none.
pub proof fn law_each_direction_reads_its_flag(d: Direction, e: Direction)
    ensures
        is_open(
            (OpenDirections {
                up: d == Direction::Up,
                right: d == Direction::Right,
                down: d == Direction::Down,
                left: d == Direction::Left,
            }),
            e,
        ) <==> d == e,
        is_open((OpenDirections { up: true, right: true, down: true, left: true }), e),
        !is_open((OpenDirections { up: false, right: false, down: false, left: false }), e),
{
}

} // verus!
