//! The rules of Disc-Golf-Man, a maze game in which the player eats dots
//! while ghosts hunt it: the maze and the ghosts' shortest routes through it,
//! scoring, the ghosts' life cycle, the player's controls and the phases of a
//! game.

pub mod enums;
pub mod board;
pub mod path;
pub mod score;
pub mod ghost;
pub mod tj;
pub mod ben;
pub mod game;
pub mod misc;
