//! A Sudoku solver core: candidate sets, constraint propagation and branching.
//!
//! A board is propagated in place by `SudokuBoard::reduce`; the states that a search
//! explores next come from `SudokuBoard::next_states`, scored by `SudokuBoard::score`.
pub mod space;
pub mod choices;
pub mod board;
pub mod reduce;
pub mod validate;
pub mod soundness;
pub mod text;
pub mod branch;

pub use space::Space;
pub use choices::SudokuChoices;
pub use board::{Board, PossibilitySpaceBoard, RegionKind, SudokuBoard, region_positions};
pub use validate::ValidationError;
pub use text::{ParseError, parse};
pub use branch::successors;
