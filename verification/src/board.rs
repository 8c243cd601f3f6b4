//! The board: the grid of cells and every change made to it.

use crate::grid::{
    cleared, dated, day_cell, first_open, fits, fresh, full, grid_of, holds, in_grid, is_first_open,
    lemma_first_open_found, lemma_first_open_none, month_cell, open_at, open_cells, placed,
    scanned_before, stamped, week_day_cell, well_formed, Cell, Grid,
};
use crate::piece::{filled, OrientedPiece};
use vstd::prelude::*;

verus! {

/// Rows of the grid.
pub const NUM_LINES: usize = 6;

/// Columns of the grid.
pub const NUM_COLUMNS: usize = 9;

/// Why a date was refused.
#[derive(Debug, Clone, Copy, PartialEq, Eq, Structural)]
pub enum DateError {
    /// The week day is not between 1 (Monday) and 7 (Sunday).
    WeekDay,
    /// The day is not between 1 and 31.
    Day,
    /// The month is not between 1 and 12.
    Month,
}

/// What `set_date` answers for three given values.
pub open spec fn date_check(week_day: int, day: int, month: int) -> Result<(), DateError> {
    if !(1 <= week_day <= 7) {
        Err(DateError::WeekDay)
    } else if !(1 <= day <= 31) {
        Err(DateError::Day)
    } else if !(1 <= month <= 12) {
        Err(DateError::Month)
    } else {
        Ok(())
    }
}

/// The grid of the puzzle. A cell holds `'0'` while it is empty, `'X'` where
/// it is blocked, and otherwise the identifier of the piece that covers it.
#[derive(Debug)]
pub struct Board {
    table: [[char; NUM_COLUMNS]; NUM_LINES],
}

impl View for Board {
    type V = Grid;

    closed spec fn view(&self) -> Grid {
        grid_of(self.table)
    }
}

impl Clone for Board {
    fn clone(&self) -> (copy: Board)
        ensures
            copy == *self,
    {
        Board { table: self.table }
    }
}

/// The row and column of the cell that shows a week day.
fn week_day_coords(week_day: u8) -> (cell: (usize, usize))
    requires
        1 <= week_day <= 7,
    ensures
        (cell.0 as int, cell.1 as int) == week_day_cell(week_day as int),
        in_grid(cell.0 as int, cell.1 as int),
{
    match week_day {
        1 => (0, 7),
        2 => (0, 8),
        3 => (1, 7),
        4 => (2, 7),
        5 => (3, 7),
        6 => (3, 8),
        _ => (4, 8),
    }
}

/// The row and column of the cell that shows a day of the month.
fn day_coords(day: u8) -> (cell: (usize, usize))
    requires
        1 <= day <= 31,
    ensures
        (cell.0 as int, cell.1 as int) == day_cell(day as int),
        in_grid(cell.0 as int, cell.1 as int),
{
    match day {
        1 => (0, 4),
        2 => (0, 5),
        3 => (0, 6),
        4 => (1, 1),
        5 => (1, 2),
        6 => (1, 3),
        7 => (1, 4),
        8 => (1, 5),
        9 => (1, 6),
        10 => (2, 1),
        11 => (2, 2),
        12 => (2, 3),
        13 => (2, 4),
        14 => (5, 7),
        15 => (2, 6),
        16 => (3, 1),
        17 => (3, 2),
        18 => (3, 3),
        19 => (3, 4),
        20 => (3, 5),
        21 => (3, 6),
        22 => (4, 1),
        23 => (4, 2),
        24 => (4, 3),
        25 => (4, 4),
        26 => (4, 5),
        27 => (4, 6),
        28 => (5, 4),
        29 => (5, 5),
        30 => (5, 6),
        _ => (2, 5),
    }
}

/// The row and column of the cell that shows a month.
fn month_coords(month: u8) -> (cell: (usize, usize))
    requires
        1 <= month <= 12,
    ensures
        (cell.0 as int, cell.1 as int) == month_cell(month as int),
        in_grid(cell.0 as int, cell.1 as int),
{
    match month {
        1 => (0, 0),
        2 => (0, 1),
        3 => (0, 2),
        4 => (0, 3),
        5 => (1, 0),
        6 => (2, 0),
        7 => (3, 0),
        8 => (4, 0),
        9 => (5, 0),
        10 => (5, 1),
        11 => (5, 2),
        _ => (5, 3),
    }
}

/// The empty cells that come before row `r`, column `c` in scanning order.
spec fn open_before(g: Grid, r: int, c: int) -> Set<Cell> {
    Set::new(|p: Cell| open_at(g, p.0, p.1) && scanned_before(p.0, p.1, r, c))
}

impl Board {
    /// The view of a board is a grid of six rows of nine cells.
    pub proof fn lemma_view_well_formed(&self)
        ensures
            well_formed(self@),
    {
    }

    /// Two boards with the same view are the same board.
    pub proof fn lemma_view_injective(&self, other: &Board)
        requires
            self@ == other@,
        ensures
            *self == *other,
    {
        assert forall|r: int| 0 <= r < 6 implies self.table[r] == other.table[r] by {
            assert(self@[r] == other@[r]);
            assert forall|c: int| 0 <= c < 9 implies self.table[r][c] == other.table[r][c] by {
                assert(self@[r][c] == self.table[r][c]);
                assert(other@[r][c] == other.table[r][c]);
            }
            assert(self.table[r] =~= other.table[r]);
        }
        assert(self.table =~= other.table);
    }

    /// A board with every cell empty but the bottom right corner, which is
    /// not part of the physical board and stays blocked.
    pub fn new() -> (board: Board)
        ensures
            board@ == fresh(),
    {
        let mut board = Board { table: [['0'; NUM_COLUMNS]; NUM_LINES] };
        board.table[NUM_LINES - 1][NUM_COLUMNS - 1] = 'X';
        assert(board@ =~~= fresh());
        board
    }

    /// A board that holds the given cells, row by row.
    pub fn from_cells(cells: [[char; NUM_COLUMNS]; NUM_LINES]) -> (board: Board)
        ensures
            board@ == grid_of(cells),
    {
        Board { table: cells }
    }

    /// The cells of the board, row by row.
    pub fn cells(&self) -> (cells: [[char; NUM_COLUMNS]; NUM_LINES])
        ensures
            grid_of(cells) == self@,
    {
        self.table
    }

    /// Blocks the three cells that show the date: the week day (1 for
    /// Monday to 7 for Sunday), the day of the month and the month. A value
    /// out of its range is refused, the first of them in this order, and
    /// the board is then left as it was.
    pub fn set_date(&mut self, week_day: u8, day: u8, month: u8) -> (res: Result<(), DateError>)
        ensures
            res == date_check(week_day as int, day as int, month as int),
            res is Ok ==> final(self)@ == dated(
                old(self)@,
                week_day as int,
                day as int,
                month as int,
            ),
            res is Err ==> *final(self) == *old(self),
    {
        if week_day < 1 || week_day > 7 {
            return Err(DateError::WeekDay);
        }
        if day < 1 || day > 31 {
            return Err(DateError::Day);
        }
        if month < 1 || month > 12 {
            return Err(DateError::Month);
        }
        let w = week_day_coords(week_day);
        let d = day_coords(day);
        let m = month_coords(month);
        self.table[w.0][w.1] = 'X';
        self.table[d.0][d.1] = 'X';
        self.table[m.0][m.1] = 'X';
        assert(self@ =~~= dated(old(self)@, week_day as int, day as int, month as int));
        Ok(())
    }

    /// Whether no cell is empty.
    pub fn is_full(&self) -> (res: bool)
        ensures
            res == full(self@),
    {
        let mut r: usize = 0;
        while r < NUM_LINES
            invariant
                r <= 6,
                forall|r2: int, c2: int| 0 <= r2 < r ==> !open_at(self@, r2, c2),
            decreases 6 - r,
        {
            let mut c: usize = 0;
            while c < NUM_COLUMNS
                invariant
                    r < 6,
                    c <= 9,
                    forall|r2: int, c2: int| 0 <= r2 < r ==> !open_at(self@, r2, c2),
                    forall|c2: int| 0 <= c2 < c ==> !open_at(self@, r as int, c2),
                decreases 9 - c,
            {
                if self.table[r][c] == '0' {
                    assert(open_at(self@, r as int, c as int));
                    return false;
                }
                c += 1;
            }
            r += 1;
        }
        true
    }

    /// The first empty cell, as `(column, row)`, among the cells in column
    /// `left_offset` and to the right of it, scanning row by row from the
    /// top and each row from the left; `Err` where none of them is empty.
    pub fn find_first_free_space(&self, left_offset: usize) -> (res: Result<(usize, usize), ()>)
        ensures
            match res {
                Ok((c, r)) => first_open(self@, left_offset as int) == Some((r as int, c as int))
                    && is_first_open(self@, left_offset as int, r as int, c as int),
                Err(_) => first_open(self@, left_offset as int) is None && forall|r: int, c: int|
                    #[trigger] open_at(self@, r, c) ==> c < left_offset,
            },
    {
        let mut r: usize = 0;
        while r < NUM_LINES
            invariant
                r <= 6,
                forall|r2: int, c2: int|
                    0 <= r2 < r && #[trigger] open_at(self@, r2, c2) ==> c2 < left_offset,
            decreases 6 - r,
        {
            let mut c: usize = left_offset;
            while c < NUM_COLUMNS
                invariant
                    r < 6,
                    left_offset <= c,
                    forall|r2: int, c2: int|
                        0 <= r2 < r && #[trigger] open_at(self@, r2, c2) ==> c2 < left_offset,
                    forall|c2: int| left_offset <= c2 < c ==> !open_at(self@, r as int, c2),
                decreases 9 - c,
            {
                if self.table[r][c] == '0' {
                    proof {
                        assert(is_first_open(self@, left_offset as int, r as int, c as int));
                        lemma_first_open_found(self@, left_offset as int, r as int, c as int);
                    }
                    return Ok((c, r));
                }
                c += 1;
            }
            r += 1;
        }
        proof {
            lemma_first_open_none(self@, left_offset as int);
        }
        Err(())
    }

    /// Places the piece in the one position that is tried for it: its first
    /// filled cell of the pattern's first row goes on the first empty cell
    /// that `find_first_free_space` gives for the piece's `top_index`. Where
    /// there is no such cell, or a filled cell of the pattern would fall
    /// outside the grid or on a cell that is not empty, the board is left as
    /// it was and the answer is `false`.
    pub fn place_piece_on_top_left(&mut self, piece: &OrientedPiece) -> (res: bool)
        ensures
            res == placed(old(self)@, *piece) is Some,
            res ==> final(self)@ == placed(old(self)@, *piece).unwrap(),
            !res ==> *final(self) == *old(self),
    {
        let ghost before = self@;
        let top: usize = piece.top_index as usize;
        let (c, r) = match self.find_first_free_space(top) {
            Ok(found) => found,
            Err(_) => {
                return false;
            },
        };
        let c0: usize = c - top;
        let mut j: usize = 0;
        while j < 5
            invariant
                j <= 5,
                in_grid(r as int, c0 as int),
                self@ == before,
                *self == *old(self),
                well_formed(before),
                top == piece.top_index,
                c0 == c - top,
                first_open(before, top as int) == Some((r as int, c as int)),
                forall|j2: int, i2: int|
                    j2 < j && #[trigger] filled(*piece, j2, i2) ==> open_at(
                        before,
                        r + j2,
                        c0 + i2,
                    ),
            decreases 5 - j,
        {
            let mut i: usize = 0;
            while i < 5
                invariant
                    j < 5,
                    i <= 5,
                    in_grid(r as int, c0 as int),
                    self@ == before,
                    *self == *old(self),
                    well_formed(before),
                    top == piece.top_index,
                    c0 == c - top,
                    first_open(before, top as int) == Some((r as int, c as int)),
                    forall|j2: int, i2: int|
                        (j2 < j || (j2 == j && i2 < i)) && #[trigger] filled(*piece, j2, i2)
                            ==> open_at(before, r + j2, c0 + i2),
                decreases 5 - i,
            {
                if piece.pattern[j][i] != '0' {
                    if c0 + i >= NUM_COLUMNS || r + j >= NUM_LINES || self.table[r + j][c0 + i]
                        != '0' {
                        assert(filled(*piece, j as int, i as int));
                        assert(!open_at(before, r + j, c0 + i));
                        return false;
                    }
                }
                i += 1;
            }
            j += 1;
        }
        assert(fits(before, *piece, r as int, c0 as int));
        let mut j: usize = 0;
        while j < 5
            invariant
                j <= 5,
                in_grid(r as int, c0 as int),
                well_formed(before),
                fits(before, *piece, r as int, c0 as int),
                forall|r2: int, c2: int| #[trigger]
                    in_grid(r2, c2) ==> self@[r2][c2] == (if r2 - r < j {
                        stamped(before, *piece, r as int, c0 as int)[r2][c2]
                    } else {
                        before[r2][c2]
                    }),
            decreases 5 - j,
        {
            let mut i: usize = 0;
            while i < 5
                invariant
                    j < 5,
                    i <= 5,
                    in_grid(r as int, c0 as int),
                    well_formed(before),
                    fits(before, *piece, r as int, c0 as int),
                    forall|r2: int, c2: int| #[trigger]
                        in_grid(r2, c2) ==> self@[r2][c2] == (if r2 - r < j || (r2 - r == j && c2
                            - c0 < i) {
                            stamped(before, *piece, r as int, c0 as int)[r2][c2]
                        } else {
                            before[r2][c2]
                        }),
                decreases 5 - i,
            {
                if piece.pattern[j][i] != '0' {
                    assert(filled(*piece, j as int, i as int));
                    assert(open_at(before, r + j, c0 + i));
                    self.table[r + j][c0 + i] = piece.pattern[j][i];
                }
                i += 1;
            }
            j += 1;
        }
        assert forall|r2: int, c2: int| 0 <= r2 < 6 && 0 <= c2 < 9 implies self@[r2][c2]
            == stamped(before, *piece, r as int, c0 as int)[r2][c2] by {
            assert(in_grid(r2, c2));
        }
        assert(self@ =~~= stamped(before, *piece, r as int, c0 as int));
        true
    }

    /// Puts every cell that the piece `piece_id` covers back to empty. A
    /// blocked cell is never freed: with the mark of a blocked or of an
    /// empty cell as `piece_id` the board is left as it is.
    pub fn remove_piece(&mut self, piece_id: char)
        ensures
            final(self)@ == cleared(old(self)@, piece_id),
    {
        let ghost before = self@;
        let mut r: usize = 0;
        while r < NUM_LINES
            invariant
                r <= 6,
                well_formed(before),
                forall|r2: int, c2: int| #[trigger]
                    in_grid(r2, c2) ==> self@[r2][c2] == (if r2 < r {
                        cleared(before, piece_id)[r2][c2]
                    } else {
                        before[r2][c2]
                    }),
            decreases 6 - r,
        {
            let mut c: usize = 0;
            while c < NUM_COLUMNS
                invariant
                    r < 6,
                    c <= 9,
                    well_formed(before),
                    forall|r2: int, c2: int| #[trigger]
                        in_grid(r2, c2) ==> self@[r2][c2] == (if r2 < r || (r2 == r
                            && c2 < c) {
                            cleared(before, piece_id)[r2][c2]
                        } else {
                            before[r2][c2]
                        }),
                decreases 9 - c,
            {
                if piece_id != 'X' && self.table[r][c] == piece_id {
                    self.table[r][c] = '0';
                }
                c += 1;
            }
            r += 1;
        }
        assert forall|r2: int, c2: int| 0 <= r2 < 6 && 0 <= c2 < 9 implies self@[r2][c2]
            == cleared(before, piece_id)[r2][c2] by {
            assert(in_grid(r2, c2));
        }
        assert(self@ =~~= cleared(before, piece_id));
    }

    /// The number of empty cells.
    pub fn count_open(&self) -> (n: usize)
        ensures
            open_cells(self@).finite(),
            n == open_cells(self@).len(),
            n <= 54,
    {
        let mut n: usize = 0;
        let mut r: usize = 0;
        assert(open_before(self@, 0, 0) =~= Set::empty());
        while r < NUM_LINES
            invariant
                r <= 6,
                open_before(self@, r as int, 0).finite(),
                n == open_before(self@, r as int, 0).len(),
                n <= 9 * r,
            decreases 6 - r,
        {
            let mut c: usize = 0;
            while c < NUM_COLUMNS
                invariant
                    r < 6,
                    c <= 9,
                    open_before(self@, r as int, c as int).finite(),
                    n == open_before(self@, r as int, c as int).len(),
                    n <= 9 * r + c,
                decreases 9 - c,
            {
                if self.table[r][c] == '0' {
                    assert(open_before(self@, r as int, c + 1) =~= open_before(
                        self@,
                        r as int,
                        c as int,
                    ).insert((r as int, c as int)));
                    n += 1;
                } else {
                    assert(open_before(self@, r as int, c + 1) =~= open_before(
                        self@,
                        r as int,
                        c as int,
                    ));
                }
                c += 1;
            }
            assert(open_before(self@, r + 1, 0) =~= open_before(self@, r as int, 9));
            r += 1;
        }
        assert(open_before(self@, 6, 0) =~= open_cells(self@));
        n
    }

    /// Whether some cell holds the character `id`.
    pub fn holds(&self, id: char) -> (res: bool)
        ensures
            res == holds(self@, id),
    {
        let mut r: usize = 0;
        while r < NUM_LINES
            invariant
                r <= 6,
                forall|r2: int, c2: int| #[trigger] in_grid(r2, c2) && r2 < r ==> self@[r2][c2] != id,
            decreases 6 - r,
        {
            let mut c: usize = 0;
            while c < NUM_COLUMNS
                invariant
                    r < 6,
                    c <= 9,
                    forall|r2: int, c2: int| #[trigger]
                        in_grid(r2, c2) && (r2 < r || (r2 == r && c2 < c)) ==> self@[r2][c2] != id,
                decreases 9 - c,
            {
                if self.table[r][c] == id {
                    assert(in_grid(r as int, c as int) && self@[r as int][c as int] == id);
                    return true;
                }
                c += 1;
            }
            r += 1;
        }
        false
    }

    /// The cell in row `r` and column `c`.
    pub fn get(&self, r: usize, c: usize) -> (cell: char)
        requires
            in_grid(r as int, c as int),
        ensures
            cell == self@[r as int][c as int],
    {
        self.table[r][c]
    }
}

} // verus!
