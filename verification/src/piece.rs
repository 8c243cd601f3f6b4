//! Pieces and their orientations, as the catalog supplies them.

use crate::board::Board;
use crate::grid::{all_cells, grid_of, in_grid, lemma_cells_bounded, open_at, Cell, Grid};
use crate::region::{
    is_walk, steps, lemma_connected_symmetric, lemma_connected_transitive,
    lemma_region_bounded, region,
};
use vstd::prelude::*;

verus! {

/// One rotation or reflection of a piece: a 5 by 5 pattern in which `'0'`
/// is an empty cell and any other character a filled one, and the column of
/// the first filled cell of the pattern's first row.
pub struct OrientedPiece {
    pub pattern: [[char; 5]; 5],
    pub top_index: u8,
}

/// A piece: its identifier and the orientations in which it may be placed.
pub struct Piece {
    pub id: char,
    pub possible_pieces: Vec<OrientedPiece>,
}

/// The pattern of `piece` has a filled cell in its row `j` and column `i`.
pub open spec fn filled(piece: OrientedPiece, j: int, i: int) -> bool {
    0 <= j < 5 && 0 <= i < 5 && piece.pattern[j][i] != '0'
}

/// The filled cells of the pattern, as `(row, column)` in the pattern.
pub open spec fn filled_cells(piece: OrientedPiece) -> Set<(int, int)> {
    Set::new(|p: (int, int)| filled(piece, p.0, p.1))
}

/// Every filled cell of the pattern holds the character `id`.
pub open spec fn shows(piece: OrientedPiece, id: char) -> bool {
    forall|j: int, i: int| #[trigger] filled(piece, j, i) ==> piece.pattern[j][i] == id
}

/// The cells of `path` lie in `cells`, and each shares a side with the next.
pub open spec fn walks_in(cells: Set<Cell>, path: Seq<Cell>) -> bool {
    &&& path.len() > 0
    &&& forall|k: int| 0 <= k < path.len() ==> cells.contains(#[trigger] path[k])
    &&& forall|k: int| 0 <= k < path.len() - 1 ==> #[trigger] steps(path, k)
}

/// The filled cells of the pattern hang together: from each a walk through
/// filled cells leads to each other.
pub open spec fn contiguous(piece: OrientedPiece) -> bool {
    forall|a: Cell, b: Cell|
        filled_cells(piece).contains(a) && filled_cells(piece).contains(b) ==> exists|
            path: Seq<Cell>,
        |
            #[trigger] walks_in(filled_cells(piece), path) && path[0] == a && path.last() == b
}

/// Every orientation of every piece has five filled cells.
pub open spec fn five_cells_each(pieces: Seq<Piece>) -> bool {
    forall|i: int, k: int|
        0 <= i < pieces.len() && 0 <= k < pieces[i].possible_pieces@.len() ==> filled_cells(
            #[trigger] pieces[i].possible_pieces@[k],
        ).len() == 5
}

/// Every orientation of every piece is a shape of five cells that hang
/// together.
pub open spec fn pentominoes(pieces: Seq<Piece>) -> bool {
    &&& five_cells_each(pieces)
    &&& forall|i: int, k: int|
        0 <= i < pieces.len() && 0 <= k < pieces[i].possible_pieces@.len() ==> contiguous(
            #[trigger] pieces[i].possible_pieces@[k],
        )
}

/// The pattern is pushed to the top and to the left of its square, and
/// `top_index` is the column of the first filled cell of its first row.
pub open spec fn pushed_top_left(piece: OrientedPiece) -> bool {
    &&& piece.top_index < 5
    &&& filled(piece, 0, piece.top_index as int)
    &&& forall|c: int| 0 <= c < piece.top_index ==> !#[trigger] filled(piece, 0, c)
    &&& exists|j: int| #[trigger] filled(piece, j, 0)
}

/// Every orientation of every piece is pushed to the top left, with its
/// `top_index` on the first filled cell of the first row.
pub open spec fn anchored(pieces: Seq<Piece>) -> bool {
    forall|i: int, k: int|
        0 <= i < pieces.len() && 0 <= k < pieces[i].possible_pieces@.len() ==> pushed_top_left(
            #[trigger] pieces[i].possible_pieces@[k],
        )
}

/// The grid that shows the pattern in its top left corner: empty under a
/// filled cell of the pattern, blocked everywhere else.
pub open spec fn mask(piece: OrientedPiece) -> Grid {
    Seq::new(
        6,
        |r: int|
            Seq::new(
                9,
                |c: int|
                    if filled(piece, r, c) {
                        '0'
                    } else {
                        'X'
                    },
            ),
    )
}

/// The walks through the filled cells of a pattern are the walks through
/// the empty cells of its mask.
proof fn lemma_mask_walks(piece: OrientedPiece, path: Seq<Cell>)
    ensures
        walks_in(filled_cells(piece), path) == is_walk(mask(piece), path),
{
    let m = mask(piece);
    assert forall|r: int, c: int| open_at(m, r, c) == filled(piece, r, c) by {}
    if walks_in(filled_cells(piece), path) {
        assert forall|k: int| 0 <= k < path.len() implies open_at(
            m,
            (#[trigger] path[k]).0,
            path[k].1,
        ) by {
            assert(filled_cells(piece).contains(path[k]));
        }
    }
    if is_walk(m, path) {
        assert forall|k: int| 0 <= k < path.len() implies filled_cells(piece).contains(
            #[trigger] path[k],
        ) by {
            assert(open_at(m, path[k].0, path[k].1));
        }
    }
}

/// The filled cells hang together just if the region of one of them, on the
/// mask, has as many cells as are filled.
proof fn lemma_contiguous_by_size(piece: OrientedPiece, first: Cell)
    requires
        filled_cells(piece).contains(first),
    ensures
        contiguous(piece) == (region(mask(piece), first).len() == filled_cells(piece).len()),
{
    let m = mask(piece);
    let cells = filled_cells(piece);
    let whole = region(m, first);
    lemma_region_bounded(m, first);
    assert(cells.subset_of(all_cells()));
    lemma_cells_bounded(cells);
    assert forall|q: Cell| whole.contains(q) implies cells.contains(q) by {
        let path = choose|path: Seq<Cell>| #[trigger]
            is_walk(m, path) && path[0] == first && path.last() == q;
        lemma_mask_walks(piece, path);
        assert(cells.contains(path[path.len() - 1]));
    }
    if contiguous(piece) {
        assert forall|q: Cell| cells.contains(q) implies whole.contains(q) by {
            let path = choose|path: Seq<Cell>| #[trigger]
                walks_in(cells, path) && path[0] == first && path.last() == q;
            lemma_mask_walks(piece, path);
        }
        assert(whole =~= cells);
    }
    if whole.len() == cells.len() {
        vstd::set_lib::lemma_subset_equality(whole, cells);
        assert forall|a: Cell, b: Cell| cells.contains(a) && cells.contains(b) implies exists|
            path: Seq<Cell>,
        |
            #[trigger] walks_in(cells, path) && path[0] == a && path.last() == b by {
            assert(whole.contains(a) && whole.contains(b));
            lemma_connected_symmetric(m, first, a);
            lemma_connected_transitive(m, a, first, b);
            let path = choose|path: Seq<Cell>| #[trigger]
                is_walk(m, path) && path[0] == a && path.last() == b;
            lemma_mask_walks(piece, path);
        }
    }
}

/// The filled cells of the pattern that come before row `j`, column `i` in
/// the order in which the pattern is read.
spec fn filled_before(piece: OrientedPiece, j: int, i: int) -> Set<(int, int)> {
    Set::new(|p: (int, int)| filled(piece, p.0, p.1) && (p.0 < j || (p.0 == j && p.1 < i)))
}

impl OrientedPiece {
    /// The number of filled cells of the pattern.
    pub fn cell_count(&self) -> (n: usize)
        ensures
            filled_cells(*self).finite(),
            n == filled_cells(*self).len(),
            n <= 25,
    {
        let mut n: usize = 0;
        let mut j: usize = 0;
        assert(filled_before(*self, 0, 0) =~= Set::empty());
        while j < 5
            invariant
                j <= 5,
                filled_before(*self, j as int, 0).finite(),
                n == filled_before(*self, j as int, 0).len(),
                n <= 5 * j,
            decreases 5 - j,
        {
            let mut i: usize = 0;
            while i < 5
                invariant
                    j < 5,
                    i <= 5,
                    filled_before(*self, j as int, i as int).finite(),
                    n == filled_before(*self, j as int, i as int).len(),
                    n <= 5 * j + i,
                decreases 5 - i,
            {
                if self.pattern[j][i] != '0' {
                    assert(filled_before(*self, j as int, i + 1) =~= filled_before(
                        *self,
                        j as int,
                        i as int,
                    ).insert((j as int, i as int)));
                    n += 1;
                } else {
                    assert(filled_before(*self, j as int, i + 1) =~= filled_before(
                        *self,
                        j as int,
                        i as int,
                    ));
                }
                i += 1;
            }
            assert(filled_before(*self, j + 1, 0) =~= filled_before(*self, j as int, 5));
            j += 1;
        }
        assert(filled_before(*self, 5, 0) =~= filled_cells(*self));
        n
    }

    /// Whether the filled cells of the pattern hang together.
    pub fn is_contiguous(&self) -> (res: bool)
        ensures
            res == contiguous(*self),
    {
        let mut cells: [[char; 9]; 6] = [['X'; 9]; 6];
        let mut first: Option<(usize, usize)> = None;
        let mut j: usize = 0;
        while j < 5
            invariant
                j <= 5,
                forall|r: int, c: int| #[trigger]
                    in_grid(r, c) ==> cells[r][c] == (if r < j && filled(*self, r, c) {
                        '0'
                    } else {
                        'X'
                    }),
                match first {
                    Some((r, c)) => filled(*self, r as int, c as int),
                    None => forall|r: int, c: int| r < j ==> !filled(*self, r, c),
                },
            decreases 5 - j,
        {
            let mut i: usize = 0;
            while i < 5
                invariant
                    j < 5,
                    i <= 5,
                    forall|r: int, c: int| #[trigger]
                        in_grid(r, c) ==> cells[r][c] == (if (r < j || (r == j && c < i))
                            && filled(*self, r, c) {
                            '0'
                        } else {
                            'X'
                        }),
                    match first {
                        Some((r, c)) => filled(*self, r as int, c as int),
                        None => forall|r: int, c: int|
                            (r < j || (r == j && c < i)) ==> !filled(*self, r, c),
                    },
                decreases 5 - i,
            {
                if self.pattern[j][i] != '0' {
                    cells[j][i] = '0';
                    if first.is_none() {
                        first = Some((j, i));
                    }
                }
                i += 1;
            }
            j += 1;
        }
        match first {
            None => {
                assert forall|a: Cell| !filled_cells(*self).contains(a) by {
                    assert(!filled(*self, a.0, a.1));
                }
                true
            },
            Some((r, c)) => {
                let board = Board::from_cells(cells);
                proof {
                    board.lemma_view_well_formed();
                    assert forall|r2: int, c2: int| 0 <= r2 < 6 && 0 <= c2 < 9 implies board@[r2][c2]
                        == mask(*self)[r2][c2] by {
                        assert(in_grid(r2, c2));
                        assert(grid_of(cells)[r2][c2] == cells[r2][c2]);
                    }
                    assert(board@ =~~= mask(*self));
                    lemma_contiguous_by_size(*self, (r as int, c as int));
                }
                board.region_size(r, c) == self.cell_count()
            },
        }
    }

    /// Whether the pattern is pushed to the top and to the left of its
    /// square, with `top_index` on the first filled cell of its first row.
    pub fn is_pushed_top_left(&self) -> (res: bool)
        ensures
            res == pushed_top_left(*self),
    {
        if self.top_index >= 5 {
            return false;
        }
        let top: usize = self.top_index as usize;
        if self.pattern[0][top] == '0' {
            return false;
        }
        let mut c: usize = 0;
        while c < top
            invariant
                c <= top < 5,
                top == self.top_index,
                forall|c2: int| 0 <= c2 < c ==> !#[trigger] filled(*self, 0, c2),
            decreases top - c,
        {
            if self.pattern[0][c] != '0' {
                assert(filled(*self, 0, c as int));
                return false;
            }
            c += 1;
        }
        let mut j: usize = 0;
        while j < 5
            invariant
                j <= 5,
                self.top_index < 5,
                filled(*self, 0, self.top_index as int),
                forall|c2: int| 0 <= c2 < self.top_index ==> !#[trigger] filled(*self, 0, c2),
                forall|j2: int| j2 < j ==> !#[trigger] filled(*self, j2, 0),
            decreases 5 - j,
        {
            if self.pattern[j][0] != '0' {
                assert(filled(*self, j as int, 0));
                return true;
            }
            j += 1;
        }
        false
    }

    /// Whether every filled cell of the pattern holds the character `id`.
    pub fn shows_only(&self, id: char) -> (res: bool)
        ensures
            res == shows(*self, id),
    {
        let mut j: usize = 0;
        while j < 5
            invariant
                j <= 5,
                forall|j2: int, i2: int|
                    j2 < j && #[trigger] filled(*self, j2, i2) ==> self.pattern[j2][i2] == id,
            decreases 5 - j,
        {
            let mut i: usize = 0;
            while i < 5
                invariant
                    j < 5,
                    i <= 5,
                    forall|j2: int, i2: int|
                        (j2 < j || (j2 == j && i2 < i)) && #[trigger] filled(*self, j2, i2)
                            ==> self.pattern[j2][i2] == id,
                decreases 5 - i,
            {
                if self.pattern[j][i] != '0' && self.pattern[j][i] != id {
                    assert(filled(*self, j as int, i as int));
                    return false;
                }
                i += 1;
            }
            j += 1;
        }
        true
    }
}

} // verus!
