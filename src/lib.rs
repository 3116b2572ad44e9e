//! A Freecell game engine: cards, cells, columns and the board controller that
//! turns pointer click-release events into card moves.

pub mod card;
pub mod cell;
pub mod column;
pub mod deal;
pub mod game;
