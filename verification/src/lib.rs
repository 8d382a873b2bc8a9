//! Word-search solving: a dictionary prefix tree, ray addressing on a
//! rectangular letter grid, and a resumable search automaton.
//!
//! A board is searched either by the direct scan (`Board::find_words`) or by
//! running the automaton tick by tick (`Board::check_state`,
//! `Board::next_state`, or both in a loop: `Board::find_words_stepwise`). The
//! module `agreement` proves what the run reports and when that is what the
//! scan reports; the module `automaton` proves that the run ends, and within
//! how many steps.

pub mod agreement;
pub mod automaton;
pub mod board;
pub mod input;
pub mod ray;
pub mod scan;
pub mod solver;
pub mod trie;
