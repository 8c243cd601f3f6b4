//! The mathematical model of the board: a grid of cells, and what placing
//! and removing pieces means on it.

use crate::piece::{filled, shows, OrientedPiece};
use vstd::prelude::*;

verus! {

/// A cell as `(row, column)`.
pub type Cell = (int, int);

/// The board as a sequence of rows, each a sequence of cells.
pub type Grid = Seq<Seq<char>>;

/// `(r, c)` names a cell of the 6 by 9 grid.
pub open spec fn in_grid(r: int, c: int) -> bool {
    0 <= r < 6 && 0 <= c < 9
}

/// The grid has six rows of nine cells.
pub open spec fn well_formed(g: Grid) -> bool {
    g.len() == 6 && forall|r: int| 0 <= r < 6 ==> (#[trigger] g[r]).len() == 9
}

/// The grid that a table of cells shows, row by row.
pub open spec fn grid_of(cells: [[char; 9]; 6]) -> Grid {
    Seq::new(6, |r: int| Seq::new(9, |c: int| cells[r][c]))
}

/// The cell `(r, c)` lies on the grid and is empty.
pub open spec fn open_at(g: Grid, r: int, c: int) -> bool {
    in_grid(r, c) && g[r][c] == '0'
}

/// All cells of the grid.
pub open spec fn all_cells() -> Set<Cell> {
    Set::new(|p: Cell| in_grid(p.0, p.1))
}

/// The empty cells of the grid.
pub open spec fn open_cells(g: Grid) -> Set<Cell> {
    Set::new(|p: Cell| open_at(g, p.0, p.1))
}

/// The grid has 54 cells.
pub proof fn lemma_all_cells()
    ensures
        all_cells().finite(),
        all_cells().len() == 54,
{
    let indices = vstd::set_lib::set_int_range(0, 54);
    let f = |k: int| (k / 9, k % 9);
    vstd::set_lib::lemma_int_range(0, 54);
    assert forall|p: Cell| all_cells().contains(p) implies indices.map(f).contains(p) by {
        let k = p.0 * 9 + p.1;
        assert(indices.contains(k));
        assert(f(k) == p);
    }
    assert(indices.map(f) =~= all_cells());
    vstd::set_lib::lemma_map_size(indices, all_cells(), f);
}

/// A set of cells of the grid is finite and has at most 54 cells.
pub proof fn lemma_cells_bounded(s: Set<Cell>)
    requires
        s.subset_of(all_cells()),
    ensures
        s.finite(),
        s.len() <= 54,
{
    lemma_all_cells();
    vstd::set_lib::lemma_set_subset_finite(all_cells(), s);
    vstd::set_lib::lemma_len_subset(s, all_cells());
}

/// No cell of the grid is empty.
pub open spec fn full(g: Grid) -> bool {
    forall|r: int, c: int| !open_at(g, r, c)
}

/// The grid of a new board: all cells empty but the blocked bottom right corner.
pub open spec fn fresh() -> Grid {
    Seq::new(
        6,
        |r: int|
            Seq::new(
                9,
                |c: int|
                    if r == 5 && c == 8 {
                        'X'
                    } else {
                        '0'
                    },
            ),
    )
}

/// The grid with the cell `(r, c)` blocked.
pub open spec fn blocked_at(g: Grid, r: int, c: int) -> Grid {
    g.update(r, g[r].update(c, 'X'))
}

/// The cell `(row, column)` that shows a week day, 1 for Monday to 7 for Sunday.
pub open spec fn week_day_cell(week_day: int) -> (int, int) {
    if week_day == 1 {
        (0, 7)
    } else if week_day == 2 {
        (0, 8)
    } else if week_day == 3 {
        (1, 7)
    } else if week_day == 4 {
        (2, 7)
    } else if week_day == 5 {
        (3, 7)
    } else if week_day == 6 {
        (3, 8)
    } else {
        (4, 8)
    }
}

/// The cell `(row, column)` that shows a day of the month, 1 to 31.
pub open spec fn day_cell(day: int) -> (int, int) {
    if day <= 3 {
        (0, day + 3)
    } else if day == 14 {
        (5, 7)
    } else if day == 31 {
        (2, 5)
    } else if day <= 27 {
        ((day + 2) / 6, (day + 2) % 6 + 1)
    } else {
        (5, day - 24)
    }
}

/// The cell `(row, column)` that shows a month, 1 to 12.
pub open spec fn month_cell(month: int) -> (int, int) {
    if month <= 4 {
        (0, month - 1)
    } else if month <= 9 {
        (month - 4, 0)
    } else {
        (5, month - 9)
    }
}

/// The three values name a week day, a day of the month and a month.
pub open spec fn valid_date(week_day: int, day: int, month: int) -> bool {
    1 <= week_day <= 7 && 1 <= day <= 31 && 1 <= month <= 12
}

/// The grid with the three cells of a date blocked.
pub open spec fn dated(g: Grid, week_day: int, day: int, month: int) -> Grid {
    let w = week_day_cell(week_day);
    let d = day_cell(day);
    let m = month_cell(month);
    blocked_at(blocked_at(blocked_at(g, w.0, w.1), d.0, d.1), m.0, m.1)
}

/// The three cells of a date lie on the grid and differ from one another
/// and from the blocked corner.
pub proof fn lemma_date_cells_distinct(week_day: int, day: int, month: int)
    requires
        valid_date(week_day, day, month),
    ensures
        in_grid(week_day_cell(week_day).0, week_day_cell(week_day).1),
        in_grid(day_cell(day).0, day_cell(day).1),
        in_grid(month_cell(month).0, month_cell(month).1),
        week_day_cell(week_day) != day_cell(day),
        week_day_cell(week_day) != month_cell(month),
        day_cell(day) != month_cell(month),
        week_day_cell(week_day) != (5int, 8int),
        day_cell(day) != (5int, 8int),
        month_cell(month) != (5int, 8int),
{
}

/// A date blocks exactly its three cells: on the grid with the date, these
/// are blocked and every other cell holds what it held.
pub proof fn lemma_dated_blocks_three(g: Grid, week_day: int, day: int, month: int)
    requires
        well_formed(g),
        valid_date(week_day, day, month),
    ensures
        well_formed(dated(g, week_day, day, month)),
        forall|r: int, c: int| #[trigger]
            in_grid(r, c) ==> dated(g, week_day, day, month)[r][c] == (if (r, c) == week_day_cell(
                week_day,
            ) || (r, c) == day_cell(day) || (r, c) == month_cell(month) {
                'X'
            } else {
                g[r][c]
            }),
{
    lemma_date_cells_distinct(week_day, day, month);
}

/// A new board with a date has 50 empty cells, which ten pieces of five
/// cells cover, and so is not full.
pub proof fn lemma_dated_fresh_open(week_day: int, day: int, month: int)
    requires
        valid_date(week_day, day, month),
    ensures
        open_cells(dated(fresh(), week_day, day, month)).finite(),
        open_cells(dated(fresh(), week_day, day, month)).len() == 50,
        !full(dated(fresh(), week_day, day, month)),
{
    let g = dated(fresh(), week_day, day, month);
    let w = week_day_cell(week_day);
    let d = day_cell(day);
    let m = month_cell(month);
    lemma_date_cells_distinct(week_day, day, month);
    lemma_dated_blocks_three(fresh(), week_day, day, month);
    lemma_all_cells();
    let corner = (5int, 8int);
    let rest = all_cells().remove(corner).remove(w).remove(d).remove(m);
    assert forall|p: Cell| rest.contains(p) <==> open_cells(g).contains(p) by {
        if in_grid(p.0, p.1) {
            assert(g[p.0][p.1] == (if p == w || p == d || p == m {
                'X'
            } else {
                fresh()[p.0][p.1]
            }));
        }
    }
    assert(rest =~= open_cells(g));
    assert(all_cells().contains(corner));
    assert(all_cells().remove(corner).contains(w));
    assert(all_cells().remove(corner).remove(w).contains(d));
    assert(all_cells().remove(corner).remove(w).remove(d).contains(m));
    // A full grid would have no empty cell.
    if full(g) {
        assert(open_cells(g) =~= Set::empty()) by {
            assert forall|p: Cell| !open_cells(g).contains(p) by {
                assert(!open_at(g, p.0, p.1));
            }
        }
    }
}

/// In the order in which the board is scanned, row by row and from left to
/// right in each row, `(r1, c1)` comes before `(r2, c2)`.
pub open spec fn scanned_before(r1: int, c1: int, r2: int, c2: int) -> bool {
    r1 < r2 || (r1 == r2 && c1 < c2)
}

/// `(r, c)` is the first empty cell in scanning order among the cells in
/// column `offset` and to the right of it.
pub open spec fn is_first_open(g: Grid, offset: int, r: int, c: int) -> bool {
    &&& open_at(g, r, c)
    &&& offset <= c
    &&& forall|r2: int, c2: int|
        #[trigger] open_at(g, r2, c2) && offset <= c2 ==> !scanned_before(r2, c2, r, c)
}

/// The first empty cell `(row, column)` in scanning order among the cells in
/// column `offset` and to the right of it, if there is one.
pub open spec fn first_open(g: Grid, offset: int) -> Option<(int, int)> {
    if exists|p: (int, int)| is_first_open(g, offset, p.0, p.1) {
        Some(choose|p: (int, int)| is_first_open(g, offset, p.0, p.1))
    } else {
        None
    }
}

/// At most one cell is the first empty one.
pub proof fn lemma_first_open_unique(g: Grid, offset: int, r1: int, c1: int, r2: int, c2: int)
    requires
        is_first_open(g, offset, r1, c1),
        is_first_open(g, offset, r2, c2),
    ensures
        r1 == r2,
        c1 == c2,
{
}

/// A cell that is the first empty one is what `first_open` names.
pub proof fn lemma_first_open_found(g: Grid, offset: int, r: int, c: int)
    requires
        is_first_open(g, offset, r, c),
    ensures
        first_open(g, offset) == Some((r, c)),
{
    let p = (r, c);
    assert(is_first_open(g, offset, p.0, p.1));
    let q = choose|q: (int, int)| is_first_open(g, offset, q.0, q.1);
    lemma_first_open_unique(g, offset, r, c, q.0, q.1);
}

/// Where no cell at or right of the offset is empty, `first_open` names none.
pub proof fn lemma_first_open_none(g: Grid, offset: int)
    requires
        forall|r: int, c: int| #[trigger] open_at(g, r, c) ==> c < offset,
    ensures
        first_open(g, offset) is None,
{
}

/// Among the empty cells at or right of the offset there is a first one:
/// none of them comes before cell number `n` of the scan, so the first is
/// found from there on.
proof fn lemma_first_open_from(g: Grid, offset: int, n: int) -> (p: Cell)
    requires
        0 <= n <= 54,
        forall|r: int, c: int| #[trigger] open_at(g, r, c) && offset <= c ==> r * 9 + c >= n,
        exists|r: int, c: int| #[trigger] open_at(g, r, c) && offset <= c,
    ensures
        is_first_open(g, offset, p.0, p.1),
    decreases 54 - n,
{
    let (r, c) = (n / 9, n % 9);
    if n < 54 && open_at(g, r, c) && offset <= c {
        (r, c)
    } else {
        if n == 54 {
            let w = choose|w: Cell| #[trigger] open_at(g, w.0, w.1) && offset <= w.1;
            assert(open_at(g, w.0, w.1) && offset <= w.1) by {
                let (r2, c2) = choose|r2: int, c2: int| #[trigger]
                    open_at(g, r2, c2) && offset <= c2;
                assert(open_at(g, (r2, c2).0, (r2, c2).1) && offset <= (r2, c2).1);
            }
            assert(w.0 * 9 + w.1 >= 54);
            (0, 0)
        } else {
            assert forall|r2: int, c2: int| #[trigger] open_at(g, r2, c2) && offset <= c2 implies r2
                * 9 + c2 >= n + 1 by {
                if r2 * 9 + c2 == n {
                    assert(r2 == r && c2 == c);
                }
            }
            lemma_first_open_from(g, offset, n + 1)
        }
    }
}

/// Where some cell at or right of the offset is empty, one of them is the
/// first.
pub proof fn lemma_first_open_exists(g: Grid, offset: int) -> (p: Cell)
    requires
        exists|r: int, c: int| #[trigger] open_at(g, r, c) && offset <= c,
    ensures
        is_first_open(g, offset, p.0, p.1),
        first_open(g, offset) == Some(p),
{
    let p = lemma_first_open_from(g, offset, 0);
    lemma_first_open_found(g, offset, p.0, p.1);
    p
}

/// With the pattern's top left corner on `(r0, c0)`, every filled cell of
/// the pattern falls on an empty cell of the grid.
pub open spec fn fits(g: Grid, piece: OrientedPiece, r0: int, c0: int) -> bool {
    forall|j: int, i: int| #[trigger] filled(piece, j, i) ==> open_at(g, r0 + j, c0 + i)
}

/// The grid after the pattern was written with its top left corner on
/// `(r0, c0)`: a cell under a filled cell of the pattern holds that cell's
/// character, every other cell what it held.
pub open spec fn stamped(g: Grid, piece: OrientedPiece, r0: int, c0: int) -> Grid {
    Seq::new(
        6,
        |r: int|
            Seq::new(
                9,
                |c: int|
                    if filled(piece, r - r0, c - c0) {
                        piece.pattern[r - r0][c - c0]
                    } else {
                        g[r][c]
                    },
            ),
    )
}

/// The grid after the piece was placed in the one position that is tried:
/// the pattern's first filled cell of its first row on the first empty cell
/// that leaves room for the pattern's columns to the left of it. `None`
/// where there is no such cell or the piece does not fit there.
pub open spec fn placed(g: Grid, piece: OrientedPiece) -> Option<Grid> {
    match first_open(g, piece.top_index as int) {
        Some((r, c)) => if fits(g, piece, r, c - piece.top_index) {
            Some(stamped(g, piece, r, c - piece.top_index))
        } else {
            None
        },
        None => None,
    }
}

/// The character can be the identifier of a piece: it marks neither an
/// empty cell nor a blocked one.
pub open spec fn names_piece(id: char) -> bool {
    id != '0' && id != 'X'
}

/// The grid with every cell that the piece `id` covers made empty. Blocked
/// cells stay blocked whatever `id` is: where `id` cannot be the identifier
/// of a piece, the grid is left as it is.
pub open spec fn cleared(g: Grid, id: char) -> Grid {
    Seq::new(
        6,
        |r: int|
            Seq::new(
                9,
                |c: int|
                    if names_piece(id) && g[r][c] == id {
                        '0'
                    } else {
                        g[r][c]
                    },
            ),
    )
}

/// No removal frees a blocked cell: every cell that was blocked is blocked
/// afterwards, whatever character is removed.
pub proof fn lemma_removal_keeps_blocked(g: Grid, id: char, r: int, c: int)
    requires
        in_grid(r, c),
        g[r][c] == 'X',
    ensures
        cleared(g, id)[r][c] == 'X',
{
}

/// Some cell of the grid holds the character `id`.
pub open spec fn holds(g: Grid, id: char) -> bool {
    exists|r: int, c: int| #[trigger] in_grid(r, c) && g[r][c] == id
}

/// Removing a piece undoes its placing: where `id` can be the identifier of
/// a piece, every filled cell of the pattern shows `id` and no cell of the
/// grid held `id` before, the grid with the piece placed and then the cells
/// of `id` made empty is the grid before the placing.
pub proof fn lemma_remove_undoes_place(g: Grid, piece: OrientedPiece, id: char)
    requires
        well_formed(g),
        names_piece(id),
        shows(piece, id),
        !holds(g, id),
        placed(g, piece) is Some,
    ensures
        cleared(placed(g, piece).unwrap(), id) == g,
{
    let (r0, c) = first_open(g, piece.top_index as int).unwrap();
    let c0 = c - piece.top_index;
    let after = cleared(stamped(g, piece, r0, c0), id);
    assert forall|r: int, c: int| 0 <= r < 6 && 0 <= c < 9 implies after[r][c] == g[r][c] by {
        assert(in_grid(r, c));
        if filled(piece, r - r0, c - c0) {
            assert(open_at(g, r0 + (r - r0), c0 + (c - c0)));
        }
    }
    assert(after =~~= g);
}

} // verus!
