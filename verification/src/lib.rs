//! Rules, computer players and room bookkeeping for a portal of four board
//! games (chess, checkers, go, gomoku).

pub mod games;
pub mod lobby;
pub mod protocol;
