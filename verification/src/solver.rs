//! The two ways to search a whole board: the direct scan, cell by cell, and
//! the run of the search automaton, tick by tick.

use crate::agreement::one_word_per_ray;
use crate::automaton::{run_from, state_string};
use crate::board::{Board, SearchState, WordPosition};
use crate::ray::well_formed;
use crate::scan::{cell_hits, flat_spans_of, scan, scan_from, texts_of, words_of};
use crate::trie::Trie;
use vstd::prelude::*;

verus! {

/// The hits from column `c` of row `r` on: from that cell and every cell
/// after it where the row has such a column, else from the next row on, and
/// none where there is no next row.
spec fn scan_rest(grid: Seq<Seq<char>>, words: Set<Seq<char>>, r: usize, c: usize) -> Seq<
    (Seq<char>, WordPosition),
> {
    if r < grid.len() && c < grid[0].len() {
        scan_from(grid, words, r, c)
    } else if r + 1 < grid.len() {
        scan_from(grid, words, (r + 1) as usize, 0)
    } else {
        Seq::empty()
    }
}

impl Board {
    /// Every word found on the board by the direct scan, with the span of
    /// each as a pair of row-major indices: cells in row-major order, at
    /// each cell the directions in sweep order, along each direction the
    /// first word.
    pub fn find_words(&self, trie: &Trie) -> (found: (Vec<String>, Vec<(usize, usize)>))
        ensures
            texts_of(found.0@) == words_of(scan(self@, trie@)),
            found.1@ == flat_spans_of(scan(self@, trie@), self@[0].len() as int),
    {
        let rows = self.get_rows();
        let cols = self.get_cols();
        let ghost grid = self@;
        let ghost words = trie@;
        let ghost mut seen: Seq<(Seq<char>, WordPosition)> = Seq::empty();
        let mut result: Vec<String> = Vec::new();
        let mut result_idx: Vec<(usize, usize)> = Vec::new();
        let mut current_idx: (usize, usize) = (0, 0);
        let mut i: usize = 0;
        while i < rows
            invariant
                grid == self@,
                words == trie@,
                rows == grid.len(),
                cols == grid[0].len(),
                well_formed(grid),
                0 <= i <= rows,
                texts_of(result@) == words_of(seen),
                result_idx@ == flat_spans_of(seen, cols as int),
                scan(grid, words) == seen + scan_rest(grid, words, i, 0),
            decreases rows - i,
        {
            let mut j: usize = 0;
            while j < cols
                invariant
                    grid == self@,
                    words == trie@,
                    rows == grid.len(),
                    cols == grid[0].len(),
                    well_formed(grid),
                    0 <= i < rows,
                    0 <= j <= cols,
                    texts_of(result@) == words_of(seen),
                    result_idx@ == flat_spans_of(seen, cols as int),
                    scan(grid, words) == seen + scan_rest(grid, words, i, j),
                decreases cols - j,
            {
                let ghost here = cell_hits(grid, words, i, j);
                let ghost earlier = seen;
                self.get_all_possible_word(
                    i,
                    j,
                    &mut result,
                    &mut result_idx,
                    self,
                    trie,
                    &mut current_idx,
                );
                proof {
                    // from this cell on, the scan is this cell's hits and then the rest
                    let rest = scan_rest(grid, words, i, (j + 1) as usize);
                    assert(scan_from(grid, words, i, j) == here + rest);
                    assert(earlier + (here + rest) =~= (earlier + here) + rest);
                    assert(words_of(earlier + here) =~= words_of(earlier) + words_of(here));
                    assert(flat_spans_of(earlier + here, cols as int) =~= flat_spans_of(
                        earlier,
                        cols as int,
                    ) + flat_spans_of(here, cols as int));
                    seen = earlier + here;
                }
                j += 1;
            }
            i += 1;
        }
        (result, result_idx)
    }

    /// Every word found on the board by the search automaton, with the span
    /// of each as a pair of row-major indices: from the initial state,
    /// validation and transition in turn until no state follows.
    pub fn find_words_stepwise(&self, trie: &Trie) -> (found: (Vec<String>, Vec<(usize, usize)>))
        ensures
            texts_of(found.0@) == words_of(run_from(self@, trie@, SearchState::initial())),
            found.1@ == flat_spans_of(
                run_from(self@, trie@, SearchState::initial()),
                self@[0].len() as int,
            ),
            one_word_per_ray(self@, trie@) ==> {
                &&& texts_of(found.0@) == words_of(scan(self@, trie@))
                &&& found.1@ == flat_spans_of(scan(self@, trie@), self@[0].len() as int)
            },
    {
        let cols = self.get_cols();
        let ghost grid = self@;
        let ghost words = trie@;
        let ghost width = grid[0].len() as int;
        let ghost mut seen: Seq<(Seq<char>, WordPosition)> = Seq::empty();
        let mut result: Vec<String> = Vec::new();
        let mut result_idx: Vec<(usize, usize)> = Vec::new();
        let mut state = SearchState::new();
        let mut running = true;
        while running
            invariant
                grid == self@,
                words == trie@,
                width == grid[0].len(),
                cols == width,
                well_formed(grid),
                texts_of(result@) == words_of(seen),
                result_idx@ == flat_spans_of(seen, width),
                run_from(grid, words, SearchState::initial()) == seen + (if running {
                    run_from(grid, words, state)
                } else {
                    Seq::empty()
                }),
            decreases
                    (if running { 1int } else { 0int }),
                    grid.len() - state.position.0,
                    grid[0].len() - state.position.1,
                    8 - state.direction.rank(),
                    grid.len() + grid[0].len() - state.distance,
        {
            let ghost at = state;
            let ghost earlier = seen;
            proof {
                crate::automaton::lemma_tick_descends(grid, words, at);
            }
            if let Some(word_position) = self.check_state(&mut state, trie) {
                proof {
                    crate::ray::lemma_ray_fits_ends(
                        grid,
                        at.position.0 as int,
                        at.position.1 as int,
                        at.direction,
                        at.distance as int,
                    );
                    crate::scan::lemma_flat_in_range(
                        grid,
                        at.position.0 as int,
                        at.position.1 as int,
                    );
                    crate::scan::lemma_flat_in_range(
                        grid,
                        word_position.end.0 as int,
                        word_position.end.1 as int,
                    );
                }
                let word = self.get_string_from_direction(
                    state.position.0,
                    state.position.1,
                    &state.direction,
                    state.distance,
                ).unwrap();
                result.push(word);
                result_idx.push(word_position.to_1d(cols));
                proof {
                    let hit = (state_string(grid, at), word_position);
                    assert(words_of(seen.push(hit)) =~= words_of(seen).push(hit.0));
                    seen = seen.push(hit);
                }
            }
            match self.next_state(&state, state.feasible) {
                Some(next) => {
                    state = next;
                },
                None => {
                    running = false;
                },
            }
            proof {
                // from `at` on, the run is this tick's hit and then the rest
                let rest = if running {
                    run_from(grid, words, state)
                } else {
                    Seq::empty()
                };
                let hit = seen.skip(earlier.len() as int);
                assert(run_from(grid, words, at) =~= hit + rest);
                assert(earlier + (hit + rest) =~= seen + rest);
            }
        }
        proof {
            if one_word_per_ray(grid, words) {
                crate::agreement::lemma_run_agrees_with_scan(grid, words);
            }
        }
        (result, result_idx)
    }
}

} // verus!
