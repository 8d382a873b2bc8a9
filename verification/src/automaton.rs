//! The search automaton: one state per ray under test, a validation step that
//! reports a match and decides whether the ray is worth extending, and a
//! transition step that extends the ray or abandons it for the next
//! direction or the next cell.

use crate::board::{Direction, SearchState, WordPosition};
use crate::ray::{in_grid, next_cell, ray_fits, ray_last, ray_string, well_formed};
use crate::trie::is_prefix_in;
use vstd::prelude::*;

verus! {

/// The ray that a state stands for fits on the grid.
pub open spec fn state_fits(grid: Seq<Seq<char>>, st: SearchState) -> bool {
    ray_fits(grid, st.position.0 as int, st.position.1 as int, st.direction, st.distance as int)
}

/// The letters along the ray that a state stands for.
pub open spec fn state_string(grid: Seq<Seq<char>>, st: SearchState) -> Seq<char> {
    ray_string(grid, st.position.0 as int, st.position.1 as int, st.direction, st.distance as int)
}

/// The last cell of the ray that a state stands for.
pub open spec fn state_end(st: SearchState) -> (usize, usize) {
    ray_last(st.position.0 as int, st.position.1 as int, st.direction, st.distance as int)
}

/// The state after validation. A ray that is off the grid leaves the state as
/// it is. Otherwise the state becomes feasible exactly when its letters are
/// a prefix in the dictionary and the ray has room for one more cell.
pub open spec fn checked(grid: Seq<Seq<char>>, words: Set<Seq<char>>, st: SearchState) -> SearchState {
    if !state_fits(grid, st) {
        st
    } else if !is_prefix_in(words, state_string(grid, st)) {
        SearchState { feasible: false, ..st }
    } else {
        SearchState {
            feasible: ray_fits(
                grid,
                st.position.0 as int,
                st.position.1 as int,
                st.direction,
                st.distance + 1,
            ),
            ..st
        }
    }
}

/// The match that validation reports: the span of the ray, where the ray
/// fits, holds at least one letter and spells a word of the dictionary.
pub open spec fn match_at(grid: Seq<Seq<char>>, words: Set<Seq<char>>, st: SearchState) -> Option<
    WordPosition,
> {
    if st.distance >= 0 && state_fits(grid, st) && words.contains(state_string(grid, st)) {
        Some(WordPosition { start: st.position, end: state_end(st) })
    } else {
        None
    }
}

/// The state that abandons the ray of `st`: the next direction at the same
/// cell, or the first direction at the next cell, or nothing after the last
/// direction of the last cell.
pub open spec fn abandoned(grid: Seq<Seq<char>>, st: SearchState) -> Option<SearchState> {
    match st.direction.successor() {
        Some(direction) => Some(
            SearchState { position: st.position, direction, distance: 0, feasible: true },
        ),
        None => match next_cell(grid, st.position.0, st.position.1) {
            Some(position) => Some(
                SearchState { position, direction: Direction::Up, distance: 0, feasible: true },
            ),
            None => None,
        },
    }
}

/// The state that follows `st`: the same ray one cell longer where the ray
/// fits and `feasible` holds, else the state that abandons the ray.
pub open spec fn advanced(grid: Seq<Seq<char>>, st: SearchState, feasible: bool) -> Option<
    SearchState,
> {
    if state_fits(grid, st) && feasible {
        Some(
            SearchState {
                position: st.position,
                direction: st.direction,
                distance: (st.distance + 1) as i32,
                feasible: true,
            },
        )
    } else {
        abandoned(grid, st)
    }
}

/// The state that one tick leads to: validation, then transition.
pub open spec fn ticked(grid: Seq<Seq<char>>, words: Set<Seq<char>>, st: SearchState) -> Option<
    SearchState,
> {
    advanced(grid, checked(grid, words, st), checked(grid, words, st).feasible)
}

/// The hits of the run that starts at `st`: tick after tick, what validation
/// reports, until the transition step yields no state.
pub open spec fn run_from(grid: Seq<Seq<char>>, words: Set<Seq<char>>, st: SearchState) -> Seq<
    (Seq<char>, WordPosition),
>
    decreases
            grid.len() - st.position.0,
            grid[0].len() - st.position.1,
            8 - st.direction.rank(),
            grid.len() + grid[0].len() - st.distance,
    when well_formed(grid)
    via run_from_decreases
{
    let here = match match_at(grid, words, st) {
        Some(span) => seq![(state_string(grid, st), span)],
        None => Seq::empty(),
    };
    match ticked(grid, words, st) {
        Some(next) => here + run_from(grid, words, next),
        None => here,
    }
}

#[via_fn]
proof fn run_from_decreases(grid: Seq<Seq<char>>, words: Set<Seq<char>>, st: SearchState) {
    lemma_tick_descends(grid, words, st);
}

/// The number of transition steps of the run that starts at `st`, the last
/// one, which yields no state, included.
pub open spec fn steps_from(grid: Seq<Seq<char>>, words: Set<Seq<char>>, st: SearchState) -> nat
    decreases
            grid.len() - st.position.0,
            grid[0].len() - st.position.1,
            8 - st.direction.rank(),
            grid.len() + grid[0].len() - st.distance,
    when well_formed(grid)
    via steps_from_decreases
{
    match ticked(grid, words, st) {
        Some(next) => 1 + steps_from(grid, words, next),
        None => 1,
    }
}

#[via_fn]
proof fn steps_from_decreases(grid: Seq<Seq<char>>, words: Set<Seq<char>>, st: SearchState) {
    lemma_tick_descends(grid, words, st);
}

/// A tick leads to a state that is later in the sweep: a later cell, or the
/// same cell and a later direction, or the same ray, longer, and still no
/// longer than the grid's sides together.
pub proof fn lemma_tick_descends(grid: Seq<Seq<char>>, words: Set<Seq<char>>, st: SearchState)
    requires
        well_formed(grid),
    ensures
        ticked(grid, words, st) matches Some(next) ==> decreases_to!(
            grid.len() - st.position.0,
            grid[0].len() - st.position.1,
            8 - st.direction.rank(),
            grid.len() + grid[0].len() - st.distance
            =>
            grid.len() - next.position.0,
            grid[0].len() - next.position.1,
            8 - next.direction.rank(),
            grid.len() + grid[0].len() - next.distance
        ),
{
    crate::ray::lemma_ray_fits_short(
        grid,
        st.position.0 as int,
        st.position.1 as int,
        st.direction,
        st.distance as int,
    );
}

/// The longer side of the grid.
pub open spec fn longer_side(grid: Seq<Seq<char>>) -> int {
    if grid.len() >= grid[0].len() {
        grid.len() as int
    } else {
        grid[0].len() as int
    }
}

/// The most transition steps that a run over the whole grid can take: for
/// each cell and each direction, one for every ray length up to the longer
/// side.
pub open spec fn step_bound(grid: Seq<Seq<char>>) -> int {
    grid.len() * grid[0].len() * 8 * (longer_side(grid) + 1)
}

/// How many (cell, direction) pairs come after that of `st` in the sweep.
pub open spec fn sweeps_left(grid: Seq<Seq<char>>, st: SearchState) -> int {
    (grid.len() * grid[0].len() - 1 - (st.position.0 * grid[0].len() + st.position.1)) * 8 + (7
        - st.direction.rank())
}

/// A state of a run over the grid: a cell of the grid, and a ray length from
/// 0 to the longer side.
pub open spec fn on_sweep(grid: Seq<Seq<char>>, st: SearchState) -> bool {
    &&& in_grid(grid, st.position.0 as int, st.position.1 as int)
    &&& 0 <= st.distance <= longer_side(grid)
}

/// From a state of a run over the grid, the run ends within one step for
/// every ray length still open at this direction, and one for every ray
/// length at each (cell, direction) pair to come.
pub proof fn lemma_steps_bounded(grid: Seq<Seq<char>>, words: Set<Seq<char>>, st: SearchState)
    requires
        well_formed(grid),
        on_sweep(grid, st),
    ensures
        steps_from(grid, words, st) <= sweeps_left(grid, st) * (longer_side(grid) + 1) + (
        longer_side(grid) - st.distance) + 1,
        sweeps_left(grid, st) >= 0,
    decreases
            grid.len() - st.position.0,
            grid[0].len() - st.position.1,
            8 - st.direction.rank(),
            grid.len() + grid[0].len() - st.distance,
{
    let rows = grid.len() as int;
    let cols = grid[0].len() as int;
    let side = longer_side(grid);
    let (r, c) = (st.position.0 as int, st.position.1 as int);
    crate::scan::lemma_flat_in_range(grid, r, c);
    lemma_tick_descends(grid, words, st);
    crate::ray::lemma_ray_fits_short(grid, r, c, st.direction, st.distance as int);
    match ticked(grid, words, st) {
        None => {
            assert(sweeps_left(grid, st) * (side + 1) >= 0) by (nonlinear_arith)
                requires
                    sweeps_left(grid, st) >= 0,
                    side >= 0,
            ;
        },
        Some(next) => {
            if next.position == st.position && next.direction == st.direction {
                lemma_steps_bounded(grid, words, next);
            } else {
                if next.position != st.position {
                    assert(next.position.0 * cols + next.position.1 == r * cols + c + 1) by {
                        if next.position.0 != st.position.0 {
                            assert((r + 1) * cols == r * cols + cols) by (nonlinear_arith);
                        }
                    }
                }
                assert(sweeps_left(grid, next) == sweeps_left(grid, st) - 1);
                lemma_steps_bounded(grid, words, next);
                assert((sweeps_left(grid, st) - 1) * (side + 1) == sweeps_left(grid, st) * (side
                    + 1) - (side + 1)) by (nonlinear_arith);
            }
        },
    }
}

/// The run over the whole grid takes at most `rows * cols * 8 * (max(rows,
/// cols) + 1)` transition steps, whatever the dictionary.
pub proof fn lemma_run_terminates(grid: Seq<Seq<char>>, words: Set<Seq<char>>)
    requires
        well_formed(grid),
    ensures
        steps_from(grid, words, SearchState::initial()) <= step_bound(grid),
{
    let st = SearchState::initial();
    let rows = grid.len() as int;
    let cols = grid[0].len() as int;
    let side = longer_side(grid);
    lemma_steps_bounded(grid, words, st);
    assert(sweeps_left(grid, st) == rows * cols * 8 - 1) by (nonlinear_arith)
        requires
            sweeps_left(grid, st) == (rows * cols - 1 - (0 * cols + 0)) * 8 + 7,
    ;
    assert((rows * cols * 8 - 1) * (side + 1) + side + 1 == rows * cols * 8 * (side + 1))
        by (nonlinear_arith);
}

} // verus!
