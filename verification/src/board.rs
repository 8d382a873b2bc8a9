//! The board and the types around it: directions, the span of a found word,
//! the state of a search, and the board's lookups, rays and search steps.

use crate::automaton::{advanced, checked, match_at};
use crate::ray::{
    in_grid, next_cell, ray_cell_in_grid, ray_end, ray_fits, ray_last, ray_string, shifted,
    well_formed,
};
use crate::scan::{
    cell_hits, cell_hits_from, first_match, flat_spans_of, hit_at, ray_hits, texts_of, words_of,
};
use crate::trie::Trie;
use vstd::prelude::*;
use vstd::string::StringExecFns;

verus! {

/// One of the eight compass directions along which a word may run.
#[derive(Debug, Clone, Copy, PartialEq, Eq, Structural)]
pub enum Direction {
    Up,
    Down,
    Left,
    Right,
    UpRight,
    UpLeft,
    DownRight,
    DownLeft,
}

/// A (row step, column step) pair; each component is -1, 0 or 1.
pub struct CoordDiff(pub i32, pub i32);

impl Direction {
    /// The row and column change of one step in this direction.
    pub open spec fn delta(self) -> (int, int) {
        match self {
            Direction::Up => (-1, 0),
            Direction::Down => (1, 0),
            Direction::Left => (0, -1),
            Direction::Right => (0, 1),
            Direction::UpRight => (-1, 1),
            Direction::UpLeft => (-1, -1),
            Direction::DownRight => (1, 1),
            Direction::DownLeft => (1, -1),
        }
    }

    /// The eight directions in the order in which a cell is swept.
    pub open spec fn all() -> Seq<Direction> {
        seq![
            Direction::Up,
            Direction::Down,
            Direction::Left,
            Direction::Right,
            Direction::UpRight,
            Direction::UpLeft,
            Direction::DownLeft,
            Direction::DownRight,
        ]
    }

    /// The place of this direction in the sweep order.
    pub open spec fn rank(self) -> int {
        match self {
            Direction::Up => 0,
            Direction::Down => 1,
            Direction::Left => 2,
            Direction::Right => 3,
            Direction::UpRight => 4,
            Direction::UpLeft => 5,
            Direction::DownLeft => 6,
            Direction::DownRight => 7,
        }
    }

    /// The direction that follows this one in the sweep order, if any.
    pub open spec fn successor(self) -> Option<Direction> {
        if self.rank() + 1 < 8 {
            Some(Self::all()[self.rank() + 1])
        } else {
            None
        }
    }

    /// The row and column change of one step in this direction.
    pub fn to_coord_diff(&self) -> (diff: CoordDiff)
        ensures
            diff.0 == self.delta().0,
            diff.1 == self.delta().1,
    {
        match self {
            Direction::Up => CoordDiff(-1, 0),
            Direction::Down => CoordDiff(1, 0),
            Direction::Left => CoordDiff(0, -1),
            Direction::Right => CoordDiff(0, 1),
            Direction::UpRight => CoordDiff(-1, 1),
            Direction::UpLeft => CoordDiff(-1, -1),
            Direction::DownRight => CoordDiff(1, 1),
            Direction::DownLeft => CoordDiff(1, -1),
        }
    }

    /// All eight directions, in sweep order.
    pub fn iterator() -> (dirs: Vec<Direction>)
        ensures
            dirs@ == Self::all(),
    {
        let mut dirs: Vec<Direction> = Vec::new();
        dirs.push(Direction::Up);
        dirs.push(Direction::Down);
        dirs.push(Direction::Left);
        dirs.push(Direction::Right);
        dirs.push(Direction::UpRight);
        dirs.push(Direction::UpLeft);
        dirs.push(Direction::DownLeft);
        dirs.push(Direction::DownRight);
        dirs
    }

    /// The direction that follows this one in the sweep order; nothing after
    /// the last.
    pub fn next(&self) -> (succ: Option<Direction>)
        ensures
            succ == self.successor(),
    {
        match self {
            Direction::Up => Some(Direction::Down),
            Direction::Down => Some(Direction::Left),
            Direction::Left => Some(Direction::Right),
            Direction::Right => Some(Direction::UpRight),
            Direction::UpRight => Some(Direction::UpLeft),
            Direction::UpLeft => Some(Direction::DownLeft),
            Direction::DownLeft => Some(Direction::DownRight),
            Direction::DownRight => None,
        }
    }
}

/// The grid span of a found word: its first and its last cell, both
/// inclusive, each as (row, column).
#[derive(Debug, Clone, Copy, PartialEq, Eq)]
pub struct WordPosition {
    pub start: (usize, usize),
    pub end: (usize, usize),
}

impl WordPosition {
    /// The span from `start` to `end`.
    pub fn new(start: (usize, usize), end: (usize, usize)) -> (position: Self)
        ensures
            position.start == start,
            position.end == end,
    {
        WordPosition { start, end }
    }

    /// The row-major index of a cell on a board `width` columns wide.
    pub open spec fn flat(cell: (usize, usize), width: int) -> int {
        cell.0 * width + cell.1
    }

    /// Both ends as row-major indices on a board `board_size` columns wide.
    /// Both indices have to fit in `usize`.
    pub fn to_1d(&self, board_size: usize) -> (ends: (usize, usize))
        requires
            Self::flat(self.start, board_size as int) <= usize::MAX,
            Self::flat(self.end, board_size as int) <= usize::MAX,
        ensures
            ends.0 == Self::flat(self.start, board_size as int),
            ends.1 == Self::flat(self.end, board_size as int),
    {
        let (start_i, start_j) = self.start;
        let (end_i, end_j) = self.end;
        proof {
            vstd::arithmetic::mul::lemma_mul_nonnegative(start_i as int, board_size as int);
            vstd::arithmetic::mul::lemma_mul_nonnegative(end_i as int, board_size as int);
        }
        let start = start_i * board_size + start_j;
        let end = end_i * board_size + end_j;
        (start, end)
    }
}

/// The progress of a search: the ray under test, and whether that ray is
/// worth extending by one more cell.
#[derive(Debug, Clone, Copy, PartialEq, Eq)]
pub struct SearchState {
    pub position: (usize, usize),
    pub direction: Direction,
    pub distance: i32,
    pub feasible: bool,
}

impl SearchState {
    /// The state in which every search starts.
    pub open spec fn initial() -> SearchState {
        SearchState { position: (0, 0), direction: Direction::Up, distance: 0, feasible: true }
    }

    /// The state in which every search starts: the first cell, the first
    /// direction, a ray of one letter.
    pub fn new() -> (state: Self)
        ensures
            state == Self::initial(),
    {
        SearchState { position: (0, 0), direction: Direction::Up, distance: 0, feasible: true }
    }

    /// The feasible state for the given ray.
    pub fn from(position: (usize, usize), direction: Direction, distance: i32) -> (state: Self)
        ensures
            state == (SearchState { position, direction, distance, feasible: true }),
    {
        SearchState { position, direction, distance, feasible: true }
    }

    /// The span of the ray under test, from its first cell to its last, or
    /// nothing where a coordinate of the last is negative or beyond `usize`.
    /// A state knows no board: whether the span lies on one is for
    /// `Board::get_pos_from_direction` and `Board::check_state` to say.
    pub fn current_prefix(&self) -> (span: Option<WordPosition>)
        ensures
            span == match ray_end(
                self.position.0 as int,
                self.position.1 as int,
                self.direction,
                self.distance as int,
            ) {
                Some(end) => Some(WordPosition { start: self.position, end }),
                None => None,
            },
    {
        let start = self.position;
        if let Some(end) = Board::cell_from_direction(
            self.position.0,
            self.position.1,
            &self.direction,
            self.distance,
        ) {
            Some(WordPosition::new(start, end))
        } else {
            None
        }
    }
}

/// A rectangular grid of letters, fixed once built. It has at least one row
/// and one column, and no more of either than an `i32` can count.
pub struct Board {
    letters: Vec<Vec<char>>,
    cols: usize,
    rows: usize,
}

impl View for Board {
    type V = Seq<Seq<char>>;

    closed spec fn view(&self) -> Seq<Seq<char>> {
        rows_of(self.letters@)
    }
}

/// The rows of a nested vector as sequences of characters.
pub open spec fn rows_of(letters: Seq<Vec<char>>) -> Seq<Seq<char>> {
    Seq::new(letters.len(), |r: int| letters[r]@)
}

/// What a string-valued lookup holds, as a sequence of characters.
pub open spec fn text_of(s: Option<String>) -> Option<Seq<char>> {
    match s {
        Some(s) => Some(s@),
        None => None,
    }
}

/// `char::to_string` of std: the string that holds exactly the one character
/// `c`.
#[verifier::external_body]
pub(crate) fn char_to_string(c: char) -> (s: String)
    ensures
        s@ == seq![c],
{
    c.to_string()
}

impl Board {
    #[verifier::type_invariant]
    spec fn inv(self) -> bool {
        &&& well_formed(self@)
        &&& self.rows == self.letters@.len()
        &&& self.cols == self.letters@[0]@.len()
    }

    /// Whether `letters` is a grid that a board can be built from.
    fn accepts(letters: &Vec<Vec<char>>) -> (ok: bool)
        ensures
            ok == well_formed(rows_of(letters@)),
    {
        let rows = letters.len();
        if rows < 1 || rows > 0x7fff_ffff {
            return false;
        }
        let cols = letters[0].len();
        if cols < 1 || cols > 0x7fff_ffff {
            return false;
        }
        if rows.checked_mul(cols).is_none() {
            return false;
        }
        let ghost grid = rows_of(letters@);
        let mut r: usize = 0;
        while r < rows
            invariant
                rows == letters.len(),
                cols == letters[0].len(),
                grid == rows_of(letters@),
                0 <= r <= rows,
                forall|q: int| 0 <= q < r ==> (#[trigger] grid[q]).len() == cols,
            decreases rows - r,
        {
            if letters[r].len() != cols {
                assert(grid[r as int].len() != grid[0].len());
                return false;
            }
            r += 1;
        }
        true
    }

    /// A copy of `letters`, row by row.
    fn copy_rows(letters: &Vec<Vec<char>>) -> (copy: Vec<Vec<char>>)
        ensures
            rows_of(copy@) == rows_of(letters@),
            copy@.len() == letters@.len(),
    {
        let mut copy: Vec<Vec<char>> = Vec::new();
        let mut r: usize = 0;
        while r < letters.len()
            invariant
                0 <= r <= letters.len(),
                copy@.len() == r,
                forall|q: int| 0 <= q < r ==> (#[trigger] copy@[q])@ == letters@[q]@,
            decreases letters.len() - r,
        {
            let row = &letters[r];
            let mut line: Vec<char> = Vec::new();
            let mut c: usize = 0;
            while c < row.len()
                invariant
                    0 <= c <= row.len(),
                    line@ == row@.subrange(0, c as int),
                decreases row.len() - c,
            {
                line.push(row[c]);
                c += 1;
            }
            copy.push(line);
            r += 1;
        }
        copy
    }

    /// The board that holds a copy of `letters`, which have to form a grid
    /// that a board can hold. `try_new` tests that first.
    pub fn new(letters: &Vec<Vec<char>>) -> (board: Self)
        requires
            well_formed(rows_of(letters@)),
        ensures
            board@ == rows_of(letters@),
    {
        let cols = letters[0].len();
        let rows = letters.len();
        let board = Board { letters: Self::copy_rows(letters), cols, rows };
        board
    }

    /// The board that holds a copy of `letters`, or nothing where `letters`
    /// is no rectangular, non-empty grid of a size that a board can hold.
    pub fn try_new(letters: &Vec<Vec<char>>) -> (board: Option<Self>)
        ensures
            board is Some <==> well_formed(rows_of(letters@)),
            board is Some ==> board.unwrap()@ == rows_of(letters@),
    {
        if Self::accepts(letters) {
            Some(Self::new(letters))
        } else {
            None
        }
    }

    /// The first cell after (`i`, `j`) in row-major order, or nothing where
    /// no cell follows.
    pub fn next_pos(&self, i: usize, j: usize) -> (next: Option<(usize, usize)>)
        ensures
            next == next_cell(self@, i, j),
    {
        proof {
            use_type_invariant(self);
        }
        if i >= self.rows {
            None
        } else if j < self.cols - 1 {
            Some((i, j + 1))
        } else if i < self.rows - 1 {
            Some((i + 1, 0))
        } else {
            None
        }
    }

    /// The letter at row `x`, column `y`, as a string of one character;
    /// nothing where either index is missing or the cell is off the board.
    pub fn get_letter(&self, x: Option<usize>, y: Option<usize>) -> (letter: Option<String>)
        ensures
            text_of(letter) == match (x, y) {
                (Some(r), Some(c)) => if in_grid(self@, r as int, c as int) {
                    Some(seq![self@[r as int][c as int]])
                } else {
                    None
                },
                _ => None,
            },
    {
        proof {
            use_type_invariant(self);
        }
        match (x, y) {
            (Some(x), Some(y)) => {
                if x < self.letters.len() {
                    let row = &self.letters[x];
                    assert(row@ == self@[x as int]);
                    if y < row.len() {
                        return Some(char_to_string(row[y]));
                    }
                }
                None
            },
            _ => None,
        }
    }

    /// `u + i`, or nothing where that is negative or beyond `usize`.
    pub fn add(u: usize, i: i32) -> (sum: Option<usize>)
        ensures
            sum == shifted(u as int, i as int),
    {
        if i < 0 {
            let back: u32 = (0 - (i as i64)) as u32;
            u.checked_sub(back as usize)
        } else {
            u.checked_add(i as usize)
        }
    }

    /// `u` moved by `times` steps of `step`, or nothing where that is
    /// negative or beyond `usize`.
    fn offset(u: usize, step: i32, times: i32) -> (moved: Option<usize>)
        requires
            -1 <= step <= 1,
        ensures
            moved == shifted(u as int, times * step),
    {
        if times == i32::MIN && step == -1 {
            u.checked_add(0x8000_0000)
        } else {
            assert(i32::MIN <= times * step <= i32::MAX) by {
                assert(step == 1 || step == 0 || step == -1);
            }
            Self::add(u, step * times)
        }
    }

    /// The letters along the ray of length `distance` from (`start_x`,
    /// `start_y`), or nothing where any of its cells is off the board.
    pub fn get_string_from_direction(
        &self,
        start_x: usize,
        start_y: usize,
        direction: &Direction,
        distance: i32,
    ) -> (letters: Option<String>)
        ensures
            text_of(letters) == if ray_fits(
                self@,
                start_x as int,
                start_y as int,
                *direction,
                distance as int,
            ) {
                Some(ray_string(self@, start_x as int, start_y as int, *direction, distance as int))
            } else {
                None
            },
    {
        proof {
            use_type_invariant(self);
        }
        let ghost grid = self@;
        let ghost (r, c) = (start_x as int, start_y as int);
        let ghost d = *direction;
        let mut seq = String::new();
        let coord_diff: CoordDiff = direction.to_coord_diff();
        let mut i: i32 = 0;
        while i <= distance
            invariant
                grid == self@,
                well_formed(grid),
                r == start_x,
                c == start_y,
                d == *direction,
                coord_diff.0 == d.delta().0,
                coord_diff.1 == d.delta().1,
                0 <= i,
                distance >= 0 ==> i <= distance + 1,
                distance < 0 ==> i == 0,
                ray_fits(grid, r, c, d, i - 1),
                seq@ == ray_string(grid, r, c, d, i - 1),
            decreases distance + 1 - i,
        {
            let x = Self::offset(start_x, coord_diff.0, i);
            let y = Self::offset(start_y, coord_diff.1, i);
            match self.get_letter(x, y) {
                Some(s) => {
                    seq.append(s.as_str());
                    proof {
                        crate::ray::lemma_ray_fits_ends(grid, r, c, d, i as int);
                        crate::ray::lemma_ray_fits_short(grid, r, c, d, i as int);
                    }
                },
                None => {
                    assert(!ray_cell_in_grid(grid, r, c, d, i as int));
                    return None;
                },
            }
            i += 1;
        }
        Some(seq)
    }

    /// The cell `distance` steps from (`i`, `j`) in the given direction,
    /// whatever board there is, or nothing where one of its coordinates is
    /// negative or beyond `usize`.
    fn cell_from_direction(i: usize, j: usize, direction: &Direction, distance: i32) -> (end:
        Option<(usize, usize)>)
        ensures
            end == ray_end(i as int, j as int, *direction, distance as int),
    {
        let coord_diff: CoordDiff = direction.to_coord_diff();
        let x = Self::offset(i, coord_diff.0, distance);
        let y = Self::offset(j, coord_diff.1, distance);
        match (x, y) {
            (Some(x), Some(y)) => Some((x, y)),
            _ => None,
        }
    }

    /// The last cell of the ray of length `distance` from (`start_x`,
    /// `start_y`), or nothing where any cell of the ray is off the board:
    /// there is an end exactly where `get_string_from_direction` has letters
    /// for the ray. A ray of negative length has no cells, and so no last
    /// one.
    pub fn get_pos_from_direction(
        &self,
        start_x: usize,
        start_y: usize,
        direction: &Direction,
        distance: i32,
    ) -> (end: Option<(usize, usize)>)
        ensures
            end == if distance >= 0 && ray_fits(
                self@,
                start_x as int,
                start_y as int,
                *direction,
                distance as int,
            ) {
                Some(ray_last(start_x as int, start_y as int, *direction, distance as int))
            } else {
                None
            },
    {
        proof {
            use_type_invariant(self);
            if distance >= 0 {
                crate::ray::lemma_ray_fits_ends(
                    self@,
                    start_x as int,
                    start_y as int,
                    *direction,
                    distance as int,
                );
            }
        }
        if distance < 0 || start_x >= self.rows || start_y >= self.cols {
            return None;
        }
        match Self::cell_from_direction(start_x, start_y, direction, distance) {
            Some((x, y)) => if x < self.rows && y < self.cols {
                Some((x, y))
            } else {
                None
            },
            None => None,
        }
    }

    /// The state to visit after `state`.
    pub fn next_state(&self, state: &SearchState, feasible: bool) -> (next: Option<SearchState>)
        ensures
            next == advanced(self@, *state, feasible),
    {
        proof {
            use_type_invariant(self);
            crate::ray::lemma_ray_fits_short(
                self@,
                state.position.0 as int,
                state.position.1 as int,
                state.direction,
                state.distance as int,
            );
        }
        let (i, j) = state.position;
        let distance = state.distance;
        let direction = state.direction;
        if self.get_string_from_direction(i, j, &direction, distance).is_some() && feasible {
            return Some(SearchState::from(state.position, state.direction, state.distance + 1));
        }
        match direction.next() {
            Some(following) => Some(SearchState::from(state.position, following, 0)),
            None => match self.next_pos(i, j) {
                Some(position) => Some(SearchState::from(position, Direction::Up, 0)),
                None => None,
            },
        }
    }

    /// Validates the ray of `state` against the dictionary: reports the span
    /// of the ray where it spells a word, and records in `state.feasible`
    /// whether the ray is worth extending.
    pub fn check_state(&self, state: &mut SearchState, trie: &Trie) -> (found: Option<WordPosition>)
        ensures
            *final(state) == checked(self@, trie@, *old(state)),
            found == match_at(self@, trie@, *old(state)),
    {
        proof {
            use_type_invariant(self);
            crate::ray::lemma_ray_fits_short(
                self@,
                state.position.0 as int,
                state.position.1 as int,
                state.direction,
                state.distance as int,
            );
            crate::trie::lemma_words_are_prefixes(
                trie@,
                crate::automaton::state_string(self@, *state),
            );
        }
        let (i, j) = state.position;
        let distance = state.distance;
        let direction = state.direction;
        let string = match self.get_string_from_direction(i, j, &direction, distance) {
            Some(string) => string,
            None => {
                return None;
            },
        };
        if !trie.starts_with(string.as_str()) {
            state.feasible = false;
            return None;
        }
        state.feasible = self.get_string_from_direction(i, j, &direction, distance + 1).is_some();
        if trie.search(string.as_str()) {
            match self.get_pos_from_direction(i, j, &direction, distance) {
                Some(end) => Some(WordPosition::new((i, j), end)),
                None => None,
            }
        } else {
            None
        }
    }

    /// Appends to `result` every word found from cell (`i`, `j`) of `board`,
    /// and to `result_idx` the span of each as a pair of row-major indices:
    /// along each direction in sweep order, the first word that the growing
    /// ray spells while its letters stay a prefix in the dictionary.
    /// `current_idx` takes the span of the last word found, if any.
    pub fn get_all_possible_word(
        &self,
        i: usize,
        j: usize,
        result: &mut Vec<String>,
        result_idx: &mut Vec<(usize, usize)>,
        board: &Board,
        trie: &Trie,
        current_idx: &mut (usize, usize),
    )
        ensures
            texts_of(final(result)@) == texts_of(old(result)@) + words_of(
                cell_hits(board@, trie@, i, j),
            ),
            final(result_idx)@ == old(result_idx)@ + flat_spans_of(
                cell_hits(board@, trie@, i, j),
                board@[0].len() as int,
            ),
            *final(current_idx) == if cell_hits(board@, trie@, i, j).len() > 0 {
                flat_spans_of(cell_hits(board@, trie@, i, j), board@[0].len() as int).last()
            } else {
                *old(current_idx)
            },
    {
        proof {
            use_type_invariant(board);
        }
        let ghost grid = board@;
        let ghost words = trie@;
        let ghost width = grid[0].len() as int;
        let ghost mut seen: Seq<(Seq<char>, WordPosition)> = Seq::empty();
        let directions = Direction::iterator();
        let mut k: usize = 0;
        while k < directions.len()
            invariant
                grid == board@,
                words == trie@,
                width == grid[0].len(),
                well_formed(grid),
                directions@ == Direction::all(),
                0 <= k <= 8,
                seen + cell_hits_from(grid, words, i, j, k as int) == cell_hits(grid, words, i, j),
                texts_of(result@) == texts_of(old(result)@) + words_of(seen),
                result_idx@ == old(result_idx)@ + flat_spans_of(seen, width),
                *current_idx == if seen.len() > 0 {
                    flat_spans_of(seen, width).last()
                } else {
                    *old(current_idx)
                },
            decreases 8 - k,
        {
            let d = &directions[k];
            let ghost before = seen;
            let mut dist: i32 = 0;
            let mut alive = true;
            let mut prefix = match board.get_string_from_direction(i, j, d, dist) {
                Some(p) => p,
                None => {
                    alive = false;
                    String::new()
                },
            };
            while alive && trie.starts_with(prefix.as_str())
                invariant_except_break
                    seen == before,
                    alive ==> {
                        &&& ray_fits(grid, i as int, j as int, *d, dist as int)
                        &&& prefix@ == ray_string(grid, i as int, j as int, *d, dist as int)
                        &&& first_match(grid, words, i as int, j as int, *d, 0) == first_match(
                            grid,
                            words,
                            i as int,
                            j as int,
                            *d,
                            dist as int,
                        )
                    },
                    !alive ==> first_match(grid, words, i as int, j as int, *d, 0) is None,
                invariant
                    grid == board@,
                    words == trie@,
                    width == grid[0].len(),
                    well_formed(grid),
                    0 <= dist,
                    texts_of(result@) == texts_of(old(result)@) + words_of(seen),
                    result_idx@ == old(result_idx)@ + flat_spans_of(seen, width),
                    *current_idx == if seen.len() > 0 {
                        flat_spans_of(seen, width).last()
                    } else {
                        *old(current_idx)
                    },
                ensures
                    seen == before + ray_hits(grid, words, i, j, *d),
                decreases i32::MAX - dist,
            {
                proof {
                    crate::ray::lemma_ray_fits_short(grid, i as int, j as int, *d, dist as int);
                }
                if trie.search(prefix.as_str()) {
                    proof {
                        crate::ray::lemma_ray_end_in_grid(grid, i as int, j as int, *d, dist as int);
                        crate::ray::lemma_ray_fits_ends(grid, i as int, j as int, *d, dist as int);
                        crate::scan::lemma_flat_in_range(grid, i as int, j as int);
                        crate::scan::lemma_flat_in_range(
                            grid,
                            crate::ray::ray_cell(i as int, j as int, *d, dist as int).0,
                            crate::ray::ray_cell(i as int, j as int, *d, dist as int).1,
                        );
                    }
                    let start = (i, j);
                    let end = board.get_pos_from_direction(i, j, d, dist).unwrap();
                    let position_idx = (
                        start.0 * board.get_cols() + start.1,
                        end.0 * board.get_cols() + end.1,
                    );
                    *current_idx = position_idx;
                    let ghost earlier = result@;
                    result.push(prefix.clone());
                    result_idx.push(position_idx);
                    proof {
                        let hit = hit_at(grid, i, j, *d, dist as int);
                        assert(texts_of(result@) =~= texts_of(earlier).push(hit.0));
                        seen = seen.push(hit);
                    }
                    break;
                } else {
                    dist += 1;
                    match board.get_string_from_direction(i, j, d, dist) {
                        Some(p) => {
                            prefix = p;
                        },
                        None => {
                            break;
                        },
                    }
                }
            }
            proof {
                assert(cell_hits_from(grid, words, i, j, k as int) == ray_hits(
                    grid,
                    words,
                    i,
                    j,
                    *d,
                ) + cell_hits_from(grid, words, i, j, k + 1));
                assert(seen + cell_hits_from(grid, words, i, j, k + 1) =~= before + cell_hits_from(
                    grid,
                    words,
                    i,
                    j,
                    k as int,
                ));
            }
            k += 1;
        }
    }

    /// The number of rows.
    pub fn get_rows(&self) -> (rows: usize)
        ensures
            rows == self@.len(),
            well_formed(self@),
    {
        proof {
            use_type_invariant(self);
        }
        self.rows
    }

    /// The number of columns.
    pub fn get_cols(&self) -> (cols: usize)
        ensures
            cols == self@[0].len(),
            well_formed(self@),
    {
        proof {
            use_type_invariant(self);
        }
        self.cols
    }
}

} // verus!
