//! A deduction engine for Queens puzzles.
//!
//! A Queens puzzle is a square grid of colored squares. A solution puts one
//! queen in every row, every column and every color region, with no two
//! queens touching, not even diagonally. The engine solves a puzzle the way
//! a person does: it applies deduction rules one at a time and never guesses.

/// The board of a puzzle.
pub mod board;

/// The catalog of rules of a board.
pub mod catalog;

/// Sets of squares, of colors and of lines, each held in a few machine words.
pub mod datastructure;

/// Puzzle files: a board, and perhaps a saved state.
pub mod file;

/// The grid of a picture of a board: its lines, its squares and their colors.
pub mod grid;

/// The deduction rules, and the choice among them.
pub mod heuristic;

/// Colors of pictures of boards.
pub mod image;

/// The share text of a solved puzzle.
pub mod share;

/// The course of a solution, stage by stage.
pub mod solveiter;

/// The state of a board in the course of being solved.
pub mod solvestate;

/// Colors of squares.
pub mod squarecolor;

/// Numbers and lists written as text.
pub mod text;
