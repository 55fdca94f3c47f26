//! Solving, grading and generating 9x9 number-placement puzzles by
//! constraint propagation over a candidate-tracking grid.

pub mod evaluating;
pub mod generating;
pub mod laws;
pub mod model;
pub mod solving;
pub mod traits;
pub mod validator;

pub use evaluating::functions::evaluate_difficulty;
pub use generating::functions::{generate_sudoku, generate_sudoku_with_difficulty};
pub use solving::functions::solve;
pub use traits::Difficulty;
pub use traits::Sudoku;
pub use traits::SudokuStrParsingError;
