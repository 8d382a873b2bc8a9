//! The mathematical model of a letter grid and of the rays on it.
//!
//! A grid is a sequence of rows of characters. A ray starts at a cell, runs in
//! one of the eight directions and has a length `n`: it visits the `n + 1`
//! cells `start + k * delta` for `k` from 0 to `n`.

use crate::board::Direction;
use vstd::prelude::*;

verus! {

/// A grid that a board can hold: at least one row and one column, every row
/// as long as the first, and sizes that the machine's integers can count.
pub open spec fn well_formed(grid: Seq<Seq<char>>) -> bool {
    &&& 1 <= grid.len() <= i32::MAX
    &&& 1 <= grid[0].len() <= i32::MAX
    &&& forall|r: int| 0 <= r < grid.len() ==> (#[trigger] grid[r]).len() == grid[0].len()
    &&& grid.len() * grid[0].len() <= usize::MAX
}

/// Whether (`r`, `c`) names a cell of the grid.
pub open spec fn in_grid(grid: Seq<Seq<char>>, r: int, c: int) -> bool {
    0 <= r < grid.len() && 0 <= c < grid[0].len()
}

/// The `k`-th cell of the ray from (`r`, `c`) in direction `d`.
pub open spec fn ray_cell(r: int, c: int, d: Direction, k: int) -> (int, int) {
    (r + k * d.delta().0, c + k * d.delta().1)
}

/// Whether the `k`-th cell of the ray lies on the grid.
pub open spec fn ray_cell_in_grid(grid: Seq<Seq<char>>, r: int, c: int, d: Direction, k: int) -> bool {
    in_grid(grid, ray_cell(r, c, d, k).0, ray_cell(r, c, d, k).1)
}

/// Whether every cell of the ray of length `n` lies on the grid.
pub open spec fn ray_fits(grid: Seq<Seq<char>>, r: int, c: int, d: Direction, n: int) -> bool {
    forall|k: int| 0 <= k <= n ==> #[trigger] ray_cell_in_grid(grid, r, c, d, k)
}

/// The letter at the `k`-th cell of the ray.
pub open spec fn ray_letter(grid: Seq<Seq<char>>, r: int, c: int, d: Direction, k: int) -> char {
    grid[ray_cell(r, c, d, k).0][ray_cell(r, c, d, k).1]
}

/// The letters along the ray of length `n`: `n + 1` of them, none if `n` is
/// negative.
pub open spec fn ray_string(grid: Seq<Seq<char>>, r: int, c: int, d: Direction, n: int) -> Seq<char> {
    Seq::new(
        if n >= 0 { (n + 1) as nat } else { 0 },
        |k: int| ray_letter(grid, r, c, d, k),
    )
}

/// `u` moved by `by`, where that is a `usize`.
pub open spec fn shifted(u: int, by: int) -> Option<usize> {
    if 0 <= u + by <= usize::MAX {
        Some((u + by) as usize)
    } else {
        None
    }
}

/// The last cell of the ray of length `n`, where both of its coordinates are
/// representable.
pub open spec fn ray_end(r: int, c: int, d: Direction, n: int) -> Option<(usize, usize)> {
    match (shifted(r, n * d.delta().0), shifted(c, n * d.delta().1)) {
        (Some(er), Some(ec)) => Some((er, ec)),
        _ => None,
    }
}

/// The last cell of the ray of length `n`, for a ray that fits.
pub open spec fn ray_last(r: int, c: int, d: Direction, n: int) -> (usize, usize) {
    (ray_cell(r, c, d, n).0 as usize, ray_cell(r, c, d, n).1 as usize)
}

/// The first cell of the grid after (`r`, `c`) in row-major order.
pub open spec fn next_cell(grid: Seq<Seq<char>>, r: usize, c: usize) -> Option<(usize, usize)> {
    if r >= grid.len() {
        None
    } else if c + 1 < grid[0].len() {
        Some((r, (c + 1) as usize))
    } else if r + 1 < grid.len() {
        Some(((r + 1) as usize, 0))
    } else {
        None
    }
}

/// A ray of non-negative length fits exactly when its two ends lie on the
/// grid.
pub proof fn lemma_ray_fits_ends(grid: Seq<Seq<char>>, r: int, c: int, d: Direction, n: int)
    requires
        n >= 0,
    ensures
        ray_fits(grid, r, c, d, n) <==> in_grid(grid, r, c) && ray_cell_in_grid(grid, r, c, d, n),
{
    let (dr, dc) = d.delta();
    if in_grid(grid, r, c) && ray_cell_in_grid(grid, r, c, d, n) {
        assert forall|k: int| 0 <= k <= n implies #[trigger] ray_cell_in_grid(grid, r, c, d, k) by {
            lemma_step_between(k, n, dr);
            lemma_step_between(k, n, dc);
        }
    }
    if ray_fits(grid, r, c, d, n) {
        assert(ray_cell_in_grid(grid, r, c, d, 0));
        assert(ray_cell_in_grid(grid, r, c, d, n));
    }
}

/// `k` steps of size `by` lie between no step and `n` steps.
proof fn lemma_step_between(k: int, n: int, by: int)
    requires
        0 <= k <= n,
        -1 <= by <= 1,
    ensures
        (0 <= k * by <= n * by) || (n * by <= k * by <= 0),
{
    assert(by == 1 || by == 0 || by == -1);
}

/// A ray that fits is shorter than the longer side of the grid.
pub proof fn lemma_ray_fits_short(grid: Seq<Seq<char>>, r: int, c: int, d: Direction, n: int)
    ensures
        ray_fits(grid, r, c, d, n) ==> n < grid.len() || n < grid[0].len(),
{
    if n >= 0 && ray_fits(grid, r, c, d, n) {
        assert(ray_cell_in_grid(grid, r, c, d, 0));
        assert(ray_cell_in_grid(grid, r, c, d, n));
        // one coordinate moves by n, forward or backward
        assert(n * 1 == n);
        assert(n * (-1) == -n);
    }
}

/// The last cell of a fitting ray of non-negative length is a cell of the
/// grid, and is what `ray_end` gives.
pub proof fn lemma_ray_end_in_grid(grid: Seq<Seq<char>>, r: int, c: int, d: Direction, n: int)
    requires
        well_formed(grid),
        n >= 0,
        ray_fits(grid, r, c, d, n),
    ensures
        ray_end(r, c, d, n) == Some(ray_last(r, c, d, n)),
        in_grid(grid, ray_last(r, c, d, n).0 as int, ray_last(r, c, d, n).1 as int),
        ray_last(r, c, d, n).0 == ray_cell(r, c, d, n).0,
        ray_last(r, c, d, n).1 == ray_cell(r, c, d, n).1,
{
    assert(ray_cell_in_grid(grid, r, c, d, n));
}

/// A ray of length 0 fits exactly where its start is a cell of the grid, and
/// its letters are the one letter at its start.
pub proof fn lemma_ray_of_one_cell(grid: Seq<Seq<char>>, r: int, c: int, d: Direction)
    ensures
        ray_fits(grid, r, c, d, 0) <==> in_grid(grid, r, c),
        ray_string(grid, r, c, d, 0) == seq![grid[r][c]],
{
    lemma_ray_fits_ends(grid, r, c, d, 0);
}

/// A ray whose last cell is off the grid does not fit, however many of its
/// cells before the last lie on the grid.
pub proof fn lemma_ray_past_edge(grid: Seq<Seq<char>>, r: int, c: int, d: Direction, n: int)
    requires
        n >= 0,
        !ray_cell_in_grid(grid, r, c, d, n),
    ensures
        !ray_fits(grid, r, c, d, n),
{
}

/// A shorter ray from the same cell in the same direction spells the start
/// of what a longer one spells.
pub proof fn lemma_ray_string_grows(grid: Seq<Seq<char>>, r: int, c: int, d: Direction, n: int, m: int)
    requires
        0 <= n <= m,
    ensures
        ray_string(grid, r, c, d, n).is_prefix_of(ray_string(grid, r, c, d, m)),
{
    assert(ray_string(grid, r, c, d, n) =~= ray_string(grid, r, c, d, m).subrange(0, n + 1));
}

} // verus!
