//! Four in a row on a 4x4x4 board: the position and its rules, the table of what
//! earlier searches found out, the negamax search with alpha-beta pruning that picks a
//! move, and the proofs of what they are worth.
pub mod board;
pub mod choice;
pub mod endgame;
pub mod laws;
pub mod lines;
pub mod minimax;
pub mod search;
pub mod soundness;
pub mod spread;
pub mod state;
pub mod symmetry;
pub mod table;
pub mod tally;
pub mod text;
pub mod turns;
