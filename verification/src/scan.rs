//! The direct scan: from every cell, along every direction, the ray grows
//! while its letters are a prefix in the dictionary, and the first word that
//! it spells is a hit.

use crate::board::{Direction, WordPosition};
use crate::ray::{in_grid, next_cell, ray_fits, ray_last, ray_string, well_formed};
use crate::trie::is_prefix_in;
use vstd::prelude::*;

verus! {

/// The first match along the ray from (`r`, `c`) in direction `d`, as the
/// scan finds it from length `n` on: the ray grows while it fits and its
/// letters are a prefix in the dictionary, and stops at the first word.
/// From length 0 this is the least length at which the ray spells a word:
/// see `lemma_first_match_is_least_word`.
pub open spec fn first_match(
    grid: Seq<Seq<char>>,
    words: Set<Seq<char>>,
    r: int,
    c: int,
    d: Direction,
    n: int,
) -> Option<int>
    decreases grid.len() + grid[0].len() - n,
    via first_match_decreases
{
    if n < 0 || !ray_fits(grid, r, c, d, n) || !is_prefix_in(words, ray_string(grid, r, c, d, n)) {
        None
    } else if words.contains(ray_string(grid, r, c, d, n)) {
        Some(n)
    } else {
        first_match(grid, words, r, c, d, n + 1)
    }
}

#[via_fn]
proof fn first_match_decreases(
    grid: Seq<Seq<char>>,
    words: Set<Seq<char>>,
    r: int,
    c: int,
    d: Direction,
    n: int,
) {
    crate::ray::lemma_ray_fits_short(grid, r, c, d, n);
}

/// Whether the ray of length `n` from (`r`, `c`) in direction `d` fits on the
/// grid, holds at least one letter and spells a word of the dictionary.
pub open spec fn spells_word(
    grid: Seq<Seq<char>>,
    words: Set<Seq<char>>,
    r: int,
    c: int,
    d: Direction,
    n: int,
) -> bool {
    n >= 0 && ray_fits(grid, r, c, d, n) && words.contains(ray_string(grid, r, c, d, n))
}

/// Whether `n` is the least length at which the ray from (`r`, `c`) in
/// direction `d` spells a word.
pub open spec fn least_word(
    grid: Seq<Seq<char>>,
    words: Set<Seq<char>>,
    r: int,
    c: int,
    d: Direction,
    n: int,
) -> bool {
    &&& spells_word(grid, words, r, c, d, n)
    &&& forall|k: int| 0 <= k < n ==> !#[trigger] spells_word(grid, words, r, c, d, k)
}

/// Where the ray spells no word below length `m`, the first match from `m`
/// on is the least length at which the ray spells a word, and there is none
/// exactly where the ray spells no word at all.
proof fn lemma_first_match_from(
    grid: Seq<Seq<char>>,
    words: Set<Seq<char>>,
    r: int,
    c: int,
    d: Direction,
    m: int,
)
    requires
        m >= 0,
        forall|k: int| 0 <= k < m ==> !#[trigger] spells_word(grid, words, r, c, d, k),
    ensures
        match first_match(grid, words, r, c, d, m) {
            Some(n) => least_word(grid, words, r, c, d, n),
            None => forall|n: int| !#[trigger] spells_word(grid, words, r, c, d, n),
        },
    decreases grid.len() + grid[0].len() - m,
{
    crate::ray::lemma_ray_fits_short(grid, r, c, d, m);
    let text = ray_string(grid, r, c, d, m);
    if !ray_fits(grid, r, c, d, m) || !is_prefix_in(words, text) {
        // a longer ray fits only where this one does, and a word that it
        // spells starts with the letters of this one
        assert forall|n: int| !#[trigger] spells_word(grid, words, r, c, d, n) by {
            if n >= m && spells_word(grid, words, r, c, d, n) {
                crate::ray::lemma_ray_string_grows(grid, r, c, d, m, n);
            }
        }
    } else if !words.contains(text) {
        lemma_first_match_from(grid, words, r, c, d, m + 1);
    }
}

/// The scan's first match along a ray is the least length at which the ray,
/// fitting on the grid, spells a word of the dictionary; there is no match
/// exactly where the ray spells a word at no length. That the scan gives a
/// ray up as soon as its letters are no prefix in the dictionary loses
/// nothing.
pub proof fn lemma_first_match_is_least_word(
    grid: Seq<Seq<char>>,
    words: Set<Seq<char>>,
    r: int,
    c: int,
    d: Direction,
    n: int,
)
    ensures
        first_match(grid, words, r, c, d, 0) == Some(n) <==> least_word(grid, words, r, c, d, n),
        first_match(grid, words, r, c, d, 0) is None <==> forall|k: int|
            !#[trigger] spells_word(grid, words, r, c, d, k),
{
    lemma_first_match_from(grid, words, r, c, d, 0);
    match first_match(grid, words, r, c, d, 0) {
        Some(first) => {
            // two least lengths are one
            if least_word(grid, words, r, c, d, n) && first != n {
                if first < n {
                    assert(!spells_word(grid, words, r, c, d, first));
                } else {
                    assert(!spells_word(grid, words, r, c, d, n));
                }
            }
            assert(spells_word(grid, words, r, c, d, first));
        },
        None => {},
    }
}

/// The hit that the ray of length `n` from (`r`, `c`) makes: its letters and
/// its span.
pub open spec fn hit_at(grid: Seq<Seq<char>>, r: usize, c: usize, d: Direction, n: int) -> (
    Seq<char>,
    WordPosition,
) {
    (
        ray_string(grid, r as int, c as int, d, n),
        WordPosition { start: (r, c), end: ray_last(r as int, c as int, d, n) },
    )
}

/// The hits from (`r`, `c`) in direction `d`: the first word along the ray,
/// if there is one.
pub open spec fn ray_hits(
    grid: Seq<Seq<char>>,
    words: Set<Seq<char>>,
    r: usize,
    c: usize,
    d: Direction,
) -> Seq<(Seq<char>, WordPosition)> {
    match first_match(grid, words, r as int, c as int, d, 0) {
        Some(n) => seq![hit_at(grid, r, c, d, n)],
        None => Seq::empty(),
    }
}

/// Along a ray the scan reports the hit at the least length at which the ray
/// spells a word, and nothing where the ray spells no word.
pub proof fn lemma_ray_hits_are_least_word(
    grid: Seq<Seq<char>>,
    words: Set<Seq<char>>,
    r: usize,
    c: usize,
    d: Direction,
    n: int,
)
    ensures
        least_word(grid, words, r as int, c as int, d, n) ==> ray_hits(grid, words, r, c, d)
            == seq![hit_at(grid, r, c, d, n)],
        (forall|k: int| !#[trigger] spells_word(grid, words, r as int, c as int, d, k))
            ==> ray_hits(grid, words, r, c, d) == Seq::<(Seq<char>, WordPosition)>::empty(),
{
    lemma_first_match_is_least_word(grid, words, r as int, c as int, d, n);
}

/// The hits from (`r`, `c`) in the directions from the `k`-th on, in sweep
/// order.
pub open spec fn cell_hits_from(
    grid: Seq<Seq<char>>,
    words: Set<Seq<char>>,
    r: usize,
    c: usize,
    k: int,
) -> Seq<(Seq<char>, WordPosition)>
    decreases 8 - k,
{
    if k < 0 || k >= 8 {
        Seq::empty()
    } else {
        ray_hits(grid, words, r, c, Direction::all()[k]) + cell_hits_from(grid, words, r, c, k + 1)
    }
}

/// The hits from (`r`, `c`) in all eight directions, in sweep order.
pub open spec fn cell_hits(grid: Seq<Seq<char>>, words: Set<Seq<char>>, r: usize, c: usize) -> Seq<
    (Seq<char>, WordPosition),
> {
    cell_hits_from(grid, words, r, c, 0)
}

/// The hits from (`r`, `c`) and from every cell after it, in row-major
/// order.
pub open spec fn scan_from(grid: Seq<Seq<char>>, words: Set<Seq<char>>, r: usize, c: usize) -> Seq<
    (Seq<char>, WordPosition),
>
    decreases grid.len() - r, grid[0].len() - c,
    when well_formed(grid)
{
    cell_hits(grid, words, r, c) + (match next_cell(grid, r, c) {
        Some(cell) => scan_from(grid, words, cell.0, cell.1),
        None => Seq::empty(),
    })
}

/// The hits of the whole grid: of every cell in row-major order, of every
/// direction in sweep order, the first word along the ray.
pub open spec fn scan(grid: Seq<Seq<char>>, words: Set<Seq<char>>) -> Seq<(Seq<char>, WordPosition)> {
    scan_from(grid, words, 0, 0)
}

/// The words of a sequence of hits.
pub open spec fn words_of(hits: Seq<(Seq<char>, WordPosition)>) -> Seq<Seq<char>> {
    hits.map_values(|hit: (Seq<char>, WordPosition)| hit.0)
}

/// The spans of a sequence of hits, each end as a row-major index on a grid
/// `width` columns wide.
pub open spec fn flat_spans_of(hits: Seq<(Seq<char>, WordPosition)>, width: int) -> Seq<
    (usize, usize),
> {
    hits.map_values(
        |hit: (Seq<char>, WordPosition)|
            (
                WordPosition::flat(hit.1.start, width) as usize,
                WordPosition::flat(hit.1.end, width) as usize,
            ),
    )
}

/// What a sequence of strings holds.
pub open spec fn texts_of(strings: Seq<String>) -> Seq<Seq<char>> {
    strings.map_values(|s: String| s@)
}

/// The row-major index of a cell of the grid counts a cell of the grid.
pub proof fn lemma_flat_in_range(grid: Seq<Seq<char>>, r: int, c: int)
    requires
        in_grid(grid, r, c),
    ensures
        0 <= r * grid[0].len() + c < grid.len() * grid[0].len(),
{
    let rows = grid.len() as int;
    let cols = grid[0].len() as int;
    assert(0 <= r * cols && r * cols + cols <= rows * cols) by (nonlinear_arith)
        requires
            0 <= r < rows,
            0 < cols,
    ;
}

} // verus!
