//! Hill-climbing solver core for king's-move consecutive-number boards.
//!
//! A board is an `n * n` grid holding a permutation of `1..=n*n`. Cells that
//! the caller left empty (zero) at construction are *mutable*: the solver may
//! permute the values stored at them, while every other cell keeps its
//! original value. The score of a board counts how many pairs of consecutive
//! values sit on king's-move adjacent cells; the search drives that score to
//! its maximum, `n*n - 1`.

mod board;
mod score;
mod search;

pub use board::KingsWalkError;
pub use board::State;
