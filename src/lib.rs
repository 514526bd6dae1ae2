pub mod bitset;
pub mod grid;
pub mod search;

pub use bitset::BitSet;
pub use grid::SudokuGrid;
pub use search::SolveOutcome;
