//! Rules engine for a chess variant in which a capturing piece absorbs the
//! square it travelled from, growing into a multi-square footprint.
//!
//! There is no board array: the pieces are the position, and every question
//! about a square is answered from their footprints.
//!
//! - [`piece`]: colours, kinds, pieces and their mathematical view;
//! - [`occupancy`]: who stands where;
//! - [`moves`]: the moves of each kind of piece, castling, attacked squares;
//! - [`oracle`]: valid and playable moves, check and mate;
//! - [`fusion`]: how a footprint grows on a capture;
//! - [`applier`]: what a move does to the pieces;
//! - [`game`]: turns, selection and the outcome of an attempted move;
//! - [`layout`]: the pieces at the start of a game;
//! - [`geometry`]: the shape of a footprint, for drawing;
//! - [`laws`]: what holds of the rules in every position;
//! - [`overlap`]: when a move keeps the pieces on squares of their own.

pub mod applier;
pub mod fusion;
pub mod game;
pub mod geometry;
pub mod laws;
pub mod layout;
pub mod moves;
pub mod occupancy;
pub mod oracle;
pub mod overlap;
pub mod piece;
