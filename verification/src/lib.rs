//! A solver for a five-letter word-guessing game.
//!
//! The oracle grades a guess against a secret word with per-letter marks
//! (correct position, present elsewhere, absent), the feasibility filter
//! shrinks the live candidate set to the words still consistent with the
//! feedback seen so far, and the guess selector picks the next guess by a
//! worst-case (minimax) partition heuristic.

pub mod feasible;
pub mod oracle;
pub mod solver;

pub use feasible::is_feasible;
pub use feasible::reduce_set;
pub use oracle::Oracle;
pub use oracle::Reply;
pub use oracle::Square;
pub use solver::SolveError;
pub use solver::Solver;
pub use solver::calculate_guess;
