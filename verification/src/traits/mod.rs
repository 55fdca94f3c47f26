pub mod cell;
pub mod difficulty;
pub mod sudoku;
pub mod sudoku_template;

pub use cell::Cell;
pub use difficulty::Difficulty;
pub use sudoku::{Sudoku, SudokuStrParsingError};
pub use sudoku_template::SudokuTemplate;
