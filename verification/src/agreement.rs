//! What the run of the search automaton reports, and when that is what the
//! direct scan reports.
//!
//! Along a ray both go on while the ray fits and its letters are a prefix in
//! the dictionary. The scan stops at the first word; the automaton reports
//! every word on the way. So the two report the same hits, in the same order,
//! exactly where no ray spells two words of the dictionary.

use crate::automaton::{abandoned, checked, match_at, run_from};
use crate::board::{Direction, SearchState, WordPosition};
use crate::ray::{in_grid, next_cell, ray_fits, ray_string, well_formed};
use crate::scan::{cell_hits_from, first_match, hit_at, ray_hits, scan, scan_from};
use crate::trie::is_prefix_in;
use vstd::prelude::*;

verus! {

/// No ray of the grid spells a word of the dictionary at two of its lengths.
pub open spec fn one_word_per_ray(grid: Seq<Seq<char>>, words: Set<Seq<char>>) -> bool {
    forall|r: int, c: int, d: Direction, n: int, m: int|
        0 <= n < m && ray_fits(grid, r, c, d, m) && words.contains(
            #[trigger] ray_string(grid, r, c, d, n),
        ) ==> !words.contains(#[trigger] ray_string(grid, r, c, d, m))
}

/// The feasible state for the ray of length `n` from (`r`, `c`) in direction
/// `d`.
pub open spec fn ray_state(r: usize, c: usize, d: Direction, n: int) -> SearchState {
    SearchState { position: (r, c), direction: d, distance: n as i32, feasible: true }
}

/// Every word along the ray from (`r`, `c`) in direction `d`, from length `n`
/// on, up to where the ray leaves the grid or its letters are no prefix in
/// the dictionary.
pub open spec fn ray_words(
    grid: Seq<Seq<char>>,
    words: Set<Seq<char>>,
    r: usize,
    c: usize,
    d: Direction,
    n: int,
) -> Seq<(Seq<char>, WordPosition)>
    decreases grid.len() + grid[0].len() - n,
    via ray_words_decreases
{
    if n < 0 || !ray_fits(grid, r as int, c as int, d, n) || !is_prefix_in(
        words,
        ray_string(grid, r as int, c as int, d, n),
    ) {
        Seq::empty()
    } else if words.contains(ray_string(grid, r as int, c as int, d, n)) {
        seq![hit_at(grid, r, c, d, n)] + ray_words(grid, words, r, c, d, n + 1)
    } else {
        ray_words(grid, words, r, c, d, n + 1)
    }
}

#[via_fn]
proof fn ray_words_decreases(
    grid: Seq<Seq<char>>,
    words: Set<Seq<char>>,
    r: usize,
    c: usize,
    d: Direction,
    n: int,
) {
    crate::ray::lemma_ray_fits_short(grid, r as int, c as int, d, n);
}

/// Every word along the rays from (`r`, `c`) in the directions from the
/// `k`-th on, in sweep order.
pub open spec fn cell_words_from(
    grid: Seq<Seq<char>>,
    words: Set<Seq<char>>,
    r: usize,
    c: usize,
    k: int,
) -> Seq<(Seq<char>, WordPosition)>
    decreases 8 - k,
{
    if k < 0 || k >= 8 {
        Seq::empty()
    } else {
        ray_words(grid, words, r, c, Direction::all()[k], 0) + cell_words_from(
            grid,
            words,
            r,
            c,
            k + 1,
        )
    }
}

/// Every word along the rays from (`r`, `c`) and from every cell after it,
/// in row-major order.
pub open spec fn grid_words_from(grid: Seq<Seq<char>>, words: Set<Seq<char>>, r: usize, c: usize) -> Seq<
    (Seq<char>, WordPosition),
>
    decreases grid.len() - r, grid[0].len() - c,
    when well_formed(grid)
{
    cell_words_from(grid, words, r, c, 0) + (match next_cell(grid, r, c) {
        Some(cell) => grid_words_from(grid, words, cell.0, cell.1),
        None => Seq::empty(),
    })
}

/// The hits of the run after the ray from (`r`, `c`) in direction `d` has
/// been abandoned.
spec fn hits_after_ray(
    grid: Seq<Seq<char>>,
    words: Set<Seq<char>>,
    r: usize,
    c: usize,
    d: Direction,
) -> Seq<(Seq<char>, WordPosition)> {
    match abandoned(grid, ray_state(r, c, d, 0)) {
        Some(next) => run_from(grid, words, next),
        None => Seq::empty(),
    }
}

/// The hits of the run after the last direction at (`r`, `c`) has been
/// abandoned.
spec fn hits_after_cell(grid: Seq<Seq<char>>, words: Set<Seq<char>>, r: usize, c: usize) -> Seq<
    (Seq<char>, WordPosition),
> {
    match next_cell(grid, r, c) {
        Some(cell) => run_from(grid, words, ray_state(cell.0, cell.1, Direction::Up, 0)),
        None => Seq::empty(),
    }
}

/// The first word along the ray at length `n` or more, as a sequence of at
/// most one hit.
spec fn ray_hits_from(
    grid: Seq<Seq<char>>,
    words: Set<Seq<char>>,
    r: usize,
    c: usize,
    d: Direction,
    n: int,
) -> Seq<(Seq<char>, WordPosition)> {
    match first_match(grid, words, r as int, c as int, d, n) {
        Some(m) => seq![hit_at(grid, r, c, d, m)],
        None => Seq::empty(),
    }
}

/// From any length on, the run reports every word along a ray, and then goes
/// on as after the ray.
proof fn lemma_run_along_ray(
    grid: Seq<Seq<char>>,
    words: Set<Seq<char>>,
    r: usize,
    c: usize,
    d: Direction,
    n: int,
)
    requires
        well_formed(grid),
        0 <= n <= i32::MAX,
    ensures
        run_from(grid, words, ray_state(r, c, d, n)) == ray_words(grid, words, r, c, d, n)
            + hits_after_ray(grid, words, r, c, d),
    decreases grid.len() + grid[0].len() - n,
{
    let st = ray_state(r, c, d, n);
    let text = ray_string(grid, r as int, c as int, d, n);
    let run = run_from(grid, words, st);
    let after = hits_after_ray(grid, words, r, c, d);
    crate::ray::lemma_ray_fits_short(grid, r as int, c as int, d, n);
    crate::trie::lemma_words_are_prefixes(words, text);
    if ray_fits(grid, r as int, c as int, d, n) && is_prefix_in(words, text) {
        let here = if words.contains(text) {
            seq![hit_at(grid, r, c, d, n)]
        } else {
            Seq::empty()
        };
        let longer = ray_words(grid, words, r, c, d, n + 1);
        if ray_fits(grid, r as int, c as int, d, n + 1) {
            lemma_run_along_ray(grid, words, r, c, d, n + 1);
            assert(run == here + run_from(grid, words, ray_state(r, c, d, n + 1)));
            assert(here + (longer + after) =~= (here + longer) + after);
        } else {
            assert(run == here + after);
            assert(longer =~= Seq::empty());
        }
        assert(ray_words(grid, words, r, c, d, n) =~= here + longer);
    } else {
        assert(run =~= after);
    }
}

/// From the `k`-th direction on, the run reports every word along the rays
/// from a cell, and then goes on as after the cell.
proof fn lemma_run_around_cell(
    grid: Seq<Seq<char>>,
    words: Set<Seq<char>>,
    r: usize,
    c: usize,
    k: int,
)
    requires
        well_formed(grid),
        0 <= k < 8,
    ensures
        run_from(grid, words, ray_state(r, c, Direction::all()[k], 0)) == cell_words_from(
            grid,
            words,
            r,
            c,
            k,
        ) + hits_after_cell(grid, words, r, c),
    decreases 8 - k,
{
    let d = Direction::all()[k];
    let here = ray_words(grid, words, r, c, d, 0);
    let after = hits_after_cell(grid, words, r, c);
    lemma_run_along_ray(grid, words, r, c, d, 0);
    assert(d.rank() == k);
    if k + 1 < 8 {
        lemma_run_around_cell(grid, words, r, c, k + 1);
        let rest = cell_words_from(grid, words, r, c, k + 1);
        assert(here + (rest + after) =~= (here + rest) + after);
    } else {
        assert(cell_words_from(grid, words, r, c, k + 1) =~= Seq::empty());
        assert(here + after =~= (here + Seq::empty()) + after);
    }
}

/// From the first direction at a cell, the run reports every word along the
/// rays from that cell and from the cells after it.
proof fn lemma_run_across_grid(grid: Seq<Seq<char>>, words: Set<Seq<char>>, r: usize, c: usize)
    requires
        well_formed(grid),
    ensures
        run_from(grid, words, ray_state(r, c, Direction::Up, 0)) == grid_words_from(
            grid,
            words,
            r,
            c,
        ),
    decreases grid.len() - r, grid[0].len() - c,
{
    lemma_run_around_cell(grid, words, r, c, 0);
    match next_cell(grid, r, c) {
        Some(cell) => {
            lemma_run_across_grid(grid, words, cell.0, cell.1);
        },
        None => {},
    }
}

/// Run to completion from the initial state, the automaton reports, cell by
/// cell in row-major order and direction by direction in sweep order, every
/// word along the ray up to where the ray leaves the grid or its letters are
/// no prefix in the dictionary.
pub proof fn lemma_run_reports_words_on_rays(grid: Seq<Seq<char>>, words: Set<Seq<char>>)
    requires
        well_formed(grid),
    ensures
        run_from(grid, words, SearchState::initial()) == grid_words_from(grid, words, 0, 0),
{
    lemma_run_across_grid(grid, words, 0, 0);
}

/// Where a ray spells a word at length `n`, it spells none that the
/// dictionary knows at a greater length.
proof fn lemma_no_word_past_word(
    grid: Seq<Seq<char>>,
    words: Set<Seq<char>>,
    r: usize,
    c: usize,
    d: Direction,
    n: int,
    m: int,
)
    requires
        one_word_per_ray(grid, words),
        0 <= n < m,
        words.contains(ray_string(grid, r as int, c as int, d, n)),
    ensures
        ray_words(grid, words, r, c, d, m) == Seq::<(Seq<char>, WordPosition)>::empty(),
    decreases grid.len() + grid[0].len() - m,
{
    crate::ray::lemma_ray_fits_short(grid, r as int, c as int, d, m);
    if ray_fits(grid, r as int, c as int, d, m) {
        assert(!words.contains(ray_string(grid, r as int, c as int, d, m)));
        lemma_no_word_past_word(grid, words, r, c, d, n, m + 1);
    }
}

/// Where no ray spells two words, the words along a ray are the first one.
proof fn lemma_ray_words_are_first(
    grid: Seq<Seq<char>>,
    words: Set<Seq<char>>,
    r: usize,
    c: usize,
    d: Direction,
    n: int,
)
    requires
        one_word_per_ray(grid, words),
        0 <= n,
    ensures
        ray_words(grid, words, r, c, d, n) == ray_hits_from(grid, words, r, c, d, n),
    decreases grid.len() + grid[0].len() - n,
{
    let text = ray_string(grid, r as int, c as int, d, n);
    crate::ray::lemma_ray_fits_short(grid, r as int, c as int, d, n);
    if ray_fits(grid, r as int, c as int, d, n) && is_prefix_in(words, text) {
        if words.contains(text) {
            lemma_no_word_past_word(grid, words, r, c, d, n, n + 1);
            assert(ray_words(grid, words, r, c, d, n) =~= seq![hit_at(grid, r, c, d, n)]);
        } else {
            lemma_ray_words_are_first(grid, words, r, c, d, n + 1);
        }
    }
}

/// Where no ray spells two words, the words along the rays from a cell are
/// the hits of the scan there.
proof fn lemma_cell_words_are_first(
    grid: Seq<Seq<char>>,
    words: Set<Seq<char>>,
    r: usize,
    c: usize,
    k: int,
)
    requires
        one_word_per_ray(grid, words),
        0 <= k <= 8,
    ensures
        cell_words_from(grid, words, r, c, k) == cell_hits_from(grid, words, r, c, k),
    decreases 8 - k,
{
    if k < 8 {
        lemma_ray_words_are_first(grid, words, r, c, Direction::all()[k], 0);
        lemma_cell_words_are_first(grid, words, r, c, k + 1);
    }
}

/// Where no ray spells two words, the words along the rays from a cell on
/// are the hits of the scan from there on.
proof fn lemma_grid_words_are_first(grid: Seq<Seq<char>>, words: Set<Seq<char>>, r: usize, c: usize)
    requires
        well_formed(grid),
        one_word_per_ray(grid, words),
    ensures
        grid_words_from(grid, words, r, c) == scan_from(grid, words, r, c),
    decreases grid.len() - r, grid[0].len() - c,
{
    lemma_cell_words_are_first(grid, words, r, c, 0);
    match next_cell(grid, r, c) {
        Some(cell) => {
            lemma_grid_words_are_first(grid, words, cell.0, cell.1);
        },
        None => {},
    }
}

/// Run to completion from the initial state, the automaton reports the hits
/// of the direct scan, in the same order: the same words with the same
/// spans.
pub proof fn lemma_run_agrees_with_scan(grid: Seq<Seq<char>>, words: Set<Seq<char>>)
    requires
        well_formed(grid),
        one_word_per_ray(grid, words),
    ensures
        run_from(grid, words, SearchState::initial()) == scan(grid, words),
{
    lemma_run_across_grid(grid, words, 0, 0);
    lemma_grid_words_are_first(grid, words, 0, 0);
}

/// Up to a word on a ray that fits, the ray has a word from every length on.
proof fn lemma_word_is_reached(
    grid: Seq<Seq<char>>,
    words: Set<Seq<char>>,
    r: usize,
    c: usize,
    d: Direction,
    n: int,
    m: int,
)
    requires
        0 <= n <= m,
        ray_fits(grid, r as int, c as int, d, m),
        words.contains(ray_string(grid, r as int, c as int, d, m)),
    ensures
        ray_words(grid, words, r, c, d, n).len() >= 1,
        ray_hits_from(grid, words, r, c, d, n).len() == 1,
    decreases m - n,
{
    crate::ray::lemma_ray_string_grows(grid, r as int, c as int, d, n, m);
    crate::ray::lemma_ray_fits_short(grid, r as int, c as int, d, n);
    if n < m {
        lemma_word_is_reached(grid, words, r, c, d, n + 1, m);
    }
}

/// A ray that spells a word at length `n` and another further on has two
/// words or more from every length up to `n` on.
proof fn lemma_two_words_are_reached(
    grid: Seq<Seq<char>>,
    words: Set<Seq<char>>,
    r: usize,
    c: usize,
    d: Direction,
    k: int,
    n: int,
    m: int,
)
    requires
        0 <= k <= n < m,
        ray_fits(grid, r as int, c as int, d, m),
        words.contains(ray_string(grid, r as int, c as int, d, n)),
        words.contains(ray_string(grid, r as int, c as int, d, m)),
    ensures
        ray_words(grid, words, r, c, d, k).len() >= 2,
    decreases n - k,
{
    crate::ray::lemma_ray_string_grows(grid, r as int, c as int, d, k, m);
    crate::ray::lemma_ray_fits_short(grid, r as int, c as int, d, k);
    if k < n {
        lemma_two_words_are_reached(grid, words, r, c, d, k + 1, n, m);
    } else {
        lemma_word_is_reached(grid, words, r, c, d, n + 1, m);
    }
}

/// The words along a ray are at least as many as the hits of the scan there.
proof fn lemma_ray_words_hold_first(
    grid: Seq<Seq<char>>,
    words: Set<Seq<char>>,
    r: usize,
    c: usize,
    d: Direction,
    n: int,
)
    requires
        0 <= n,
    ensures
        ray_words(grid, words, r, c, d, n).len() >= ray_hits_from(grid, words, r, c, d, n).len(),
    decreases grid.len() + grid[0].len() - n,
{
    let text = ray_string(grid, r as int, c as int, d, n);
    crate::ray::lemma_ray_fits_short(grid, r as int, c as int, d, n);
    if ray_fits(grid, r as int, c as int, d, n) && is_prefix_in(words, text) && !words.contains(
        text,
    ) {
        lemma_ray_words_hold_first(grid, words, r, c, d, n + 1);
    }
}

/// The words along the rays from a cell are at least as many as the hits of
/// the scan there, and more where the ray in direction `d` spells two words.
proof fn lemma_cell_words_hold_first(
    grid: Seq<Seq<char>>,
    words: Set<Seq<char>>,
    r: usize,
    c: usize,
    k: int,
    d: Direction,
    n: int,
    m: int,
)
    requires
        0 <= k <= 8,
    ensures
        cell_words_from(grid, words, r, c, k).len() >= cell_hits_from(grid, words, r, c, k).len(),
        k <= d.rank() && 0 <= n < m && ray_fits(grid, r as int, c as int, d, m) && words.contains(
            ray_string(grid, r as int, c as int, d, n),
        ) && words.contains(ray_string(grid, r as int, c as int, d, m)) ==> cell_words_from(
            grid,
            words,
            r,
            c,
            k,
        ).len() > cell_hits_from(grid, words, r, c, k).len(),
    decreases 8 - k,
{
    if k < 8 {
        let here = Direction::all()[k];
        lemma_ray_words_hold_first(grid, words, r, c, here, 0);
        lemma_cell_words_hold_first(grid, words, r, c, k + 1, d, n, m);
        if k == d.rank() && 0 <= n < m && ray_fits(grid, r as int, c as int, d, m)
            && words.contains(ray_string(grid, r as int, c as int, d, n)) && words.contains(
            ray_string(grid, r as int, c as int, d, m),
        ) {
            assert(here == d);
            lemma_two_words_are_reached(grid, words, r, c, d, 0, n, m);
            assert(ray_hits(grid, words, r, c, d).len() <= 1);
        }
    }
}

/// The words along the rays from a cell on are at least as many as the hits
/// of the scan from there on, and more where a ray from (`r`, `c`), at that
/// cell or after it, spells two words.
proof fn lemma_grid_words_hold_first(
    grid: Seq<Seq<char>>,
    words: Set<Seq<char>>,
    at_r: usize,
    at_c: usize,
    r: usize,
    c: usize,
    d: Direction,
    n: int,
    m: int,
)
    requires
        well_formed(grid),
    ensures
        grid_words_from(grid, words, at_r, at_c).len() >= scan_from(grid, words, at_r, at_c).len(),
        in_grid(grid, at_r as int, at_c as int) && (at_r < r || (at_r == r && at_c <= c)) && 0 <= n
            < m && ray_fits(grid, r as int, c as int, d, m) && words.contains(
            ray_string(grid, r as int, c as int, d, n),
        ) && words.contains(ray_string(grid, r as int, c as int, d, m)) ==> grid_words_from(
            grid,
            words,
            at_r,
            at_c,
        ).len() > scan_from(grid, words, at_r, at_c).len(),
    decreases grid.len() - at_r, grid[0].len() - at_c,
{
    lemma_cell_words_hold_first(grid, words, at_r, at_c, 0, d, n, m);
    if 0 <= n < m && ray_fits(grid, r as int, c as int, d, m) {
        // the ray starts on the grid
        crate::ray::lemma_ray_fits_ends(grid, r as int, c as int, d, m);
    }
    match next_cell(grid, at_r, at_c) {
        Some(cell) => {
            lemma_grid_words_hold_first(grid, words, cell.0, cell.1, r, c, d, n, m);
        },
        None => {},
    }
}

/// On a grid where some ray spells two words of the dictionary, the run of
/// the automaton reports more hits than the direct scan.
pub proof fn lemma_run_outdoes_scan(grid: Seq<Seq<char>>, words: Set<Seq<char>>)
    requires
        well_formed(grid),
        !one_word_per_ray(grid, words),
    ensures
        run_from(grid, words, SearchState::initial()).len() > scan(grid, words).len(),
{
    let (r, c, d, n, m) = choose|r: int, c: int, d: Direction, n: int, m: int|
        0 <= n < m && ray_fits(grid, r, c, d, m) && words.contains(
            #[trigger] ray_string(grid, r, c, d, n),
        ) && words.contains(#[trigger] ray_string(grid, r, c, d, m));
    crate::ray::lemma_ray_fits_ends(grid, r, c, d, m);
    lemma_run_across_grid(grid, words, 0, 0);
    lemma_grid_words_hold_first(grid, words, 0, 0, r as usize, c as usize, d, n, m);
}

} // verus!
