//! Connect Four: the rules of a match, proved against a mathematical model
//! of the grid, and two movers built on them.
//!
//! * [`connect4`] holds the match: the grid, the placement of a piece, the
//!   detection of a finished match, and the play of a whole match by two
//!   movers.
//! * [`model`] holds the mathematical model that the contracts speak of, and
//!   what is proved of it.
//! * [`agent_rand`] is the mover that picks a column at random.
//! * [`agent_mcts`] is the mover that scores every column by matches played
//!   at random and picks the best one.
//! * [`controls`] says what the keys mean to a program that lets a human
//!   play.

pub mod agent_mcts;
pub mod agent_rand;
pub mod connect4;
pub mod controls;
pub mod model;
