//! Minesweeper board annotation: parse a text grid of mines and empty cells,
//! then render it with the number of neighbouring mines written into every
//! cell that is not a mine.
pub mod board;
pub mod board_elements;
