use disc_golf_man::ben::{Ben, BenDirection, BenLives, BenNextDirection};
use disc_golf_man::enums::{Direction, GameState};
use disc_golf_man::game::{
    next_game_state, player_move, prompt_step, requested_direction, DirectionKeys, GameEvent,
    OpenDirections, PlayerMove, PromptAction,
};
use disc_golf_man::misc::EndMessageText;
use disc_golf_man::score::{PointValues, Score};
use disc_golf_man::tj::{next_tj_frame, TJDirection, TJNextDirection, TjFrame, TJ, TJ_DIRECTION_DEFAULT};

#[test]
fn a_game_goes_round() {
    let s = GameState::default();
    assert_eq!(s, GameState::Wait);
    assert_eq!(next_game_state(s, GameEvent::PlayerCaught), GameState::Wait);
    let s = next_game_state(s, GameEvent::StartPressed);
    assert_eq!(s, GameState::Default);
    assert_eq!(next_game_state(s, GameEvent::RestartPressed), GameState::Default);
    assert_eq!(next_game_state(s, GameEvent::AllDotsEaten), GameState::End);
    let s = next_game_state(s, GameEvent::PlayerCaught);
    assert_eq!(s, GameState::End);
    assert_eq!(next_game_state(s, GameEvent::StartPressed), GameState::End);
    let s = next_game_state(s, GameEvent::RestartPressed);
    assert_eq!(s, GameState::Reset);
    assert_eq!(next_game_state(s, GameEvent::ResetDone), GameState::Default);
}

#[test]
fn prompts() {
    assert_eq!(prompt_step(false, true), PromptAction::ShowMessage);
    assert_eq!(prompt_step(false, false), PromptAction::ShowMessage);
    assert_eq!(prompt_step(true, true), PromptAction::Dismiss);
    assert_eq!(prompt_step(true, false), PromptAction::Wait);
}

fn keys(up: bool, right: bool, down: bool, left: bool) -> DirectionKeys {
    DirectionKeys { up, right, down, left }
}

#[test]
fn direction_keys_in_priority_order() {
    assert_eq!(requested_direction(keys(true, true, true, true), None), Some(Direction::Up));
    assert_eq!(requested_direction(keys(false, true, true, true), None), Some(Direction::Right));
    assert_eq!(requested_direction(keys(false, false, true, true), None), Some(Direction::Down));
    assert_eq!(requested_direction(keys(false, false, false, true), None), Some(Direction::Left));
    assert_eq!(
        requested_direction(keys(false, false, false, false), Some(Direction::Down)),
        Some(Direction::Down)
    );
    assert_eq!(requested_direction(keys(false, false, false, false), None), None);
}

fn open(up: bool, right: bool, down: bool, left: bool) -> OpenDirections {
    OpenDirections { up, right, down, left }
}

#[test]
fn turn_taken_when_open() {
    let m = player_move(Some(Direction::Up), Direction::Right, open(true, true, false, false));
    assert_eq!(
        m,
        PlayerMove { direction: Direction::Up, next_direction: None, turned: Some(Direction::Up), advances: true }
    );
}

#[test]
fn turn_kept_while_blocked() {
    let m = player_move(Some(Direction::Up), Direction::Right, open(false, true, false, false));
    assert_eq!(
        m,
        PlayerMove {
            direction: Direction::Right,
            next_direction: Some(Direction::Up),
            turned: None,
            advances: true
        }
    );
}

#[test]
fn blocked_player_stands_still() {
    let m = player_move(None, Direction::Left, open(true, true, true, false));
    assert_eq!(
        m,
        PlayerMove { direction: Direction::Left, next_direction: None, turned: None, advances: false }
    );
}

#[test]
fn request_for_the_current_direction_stays() {
    let m = player_move(Some(Direction::Left), Direction::Left, open(false, false, false, true));
    assert_eq!(
        m,
        PlayerMove {
            direction: Direction::Left,
            next_direction: Some(Direction::Left),
            turned: None,
            advances: true
        }
    );
}

#[test]
fn score_label() {
    assert_eq!(Score(0).label(), "Score: 0");
    assert_eq!(Score(7).label(), "Score: 7");
    assert_eq!(Score(1230).label(), "Score: 1230");
    assert_eq!(Score(u64::MAX).label(), format!("Score: {}", u64::MAX));
}

#[test]
fn score_adds_and_resets() {
    let mut s = Score::default();
    assert_eq!(s, Score(0));
    assert!(s.add_points(10));
    assert!(s.add_points(50));
    assert_eq!(s, Score(60));
    s.reset();
    assert_eq!(s, Score(0));
    let mut full = Score(u64::MAX);
    assert!(!full.add_points(1));
    assert_eq!(full, Score(u64::MAX));
}

#[test]
fn point_values() {
    let v = PointValues::default();
    assert_eq!(
        (v.dot, v.power_up, v.first_ghost, v.second_ghost, v.third_ghost, v.fourth_ghost),
        (10, 50, 200, 400, 800, 1600)
    );
    assert_eq!(
        (v.cherry, v.strawberry, v.orange, v.apple, v.melon, v.flagship, v.bell, v.key),
        (100, 300, 500, 700, 1000, 2000, 3000, 5000)
    );
}

#[test]
fn end_messages() {
    assert_eq!(EndMessageText::default().0, "");
    assert_eq!(EndMessageText::caught().0, "Diagnosis: Skill Issue");
    assert_eq!(EndMessageText::won().0, "You Win! Now, go play\nsome real disc golf.");
}

#[test]
fn player_defaults() {
    assert_eq!(TJ::default(), TJ);
    assert_eq!(TJDirection::default(), TJDirection(Direction::Right));
    assert_eq!(TJNextDirection::default(), TJNextDirection(None));
    assert_eq!(TJ_DIRECTION_DEFAULT, Direction::Right);
    assert_eq!(Ben::default(), Ben);
    assert_eq!(BenLives::default(), BenLives(3));
    assert_eq!(BenDirection::default(), BenDirection(Direction::Right));
    assert_eq!(BenNextDirection::default(), BenNextDirection(None));
}

#[test]
fn player_animation_frames() {
    assert_eq!(
        next_tj_frame(Some(Direction::Up), true, Direction::Left, true),
        Some(TjFrame { direction: Direction::Up, closed: false })
    );
    assert_eq!(next_tj_frame(None, false, Direction::Left, true), None);
    assert_eq!(
        next_tj_frame(None, true, Direction::Left, false),
        Some(TjFrame { direction: Direction::Left, closed: true })
    );
    assert_eq!(
        next_tj_frame(None, true, Direction::Left, true),
        Some(TjFrame { direction: Direction::Left, closed: false })
    );
}
