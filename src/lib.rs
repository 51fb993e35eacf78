pub mod codec;
pub mod grid;
pub mod line;
pub mod puzzle;
pub mod solver;

pub use codec::SolvedNonogram;
pub use line::{Cell, Contradiction};
pub use puzzle::{Axis, ClueFault, InvalidClue, Nonogram};
pub use solver::SolveFailure;
