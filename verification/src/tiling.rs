//! What holds of every way to fill the board: what a placing does to the
//! empty cells, why a region that five does not divide cannot be filled, and
//! what follows for the search.

use crate::board::Board;
use crate::grid::{
    all_cells, first_open, fits, full, in_grid, is_first_open, lemma_cells_bounded,
    lemma_first_open_exists, lemma_first_open_found, open_at, open_cells, placed, scanned_before,
    stamped, well_formed, Cell, Grid,
};
use crate::piece::{
    anchored, contiguous, filled, filled_cells, five_cells_each, pentominoes, pushed_top_left,
    walks_in, OrientedPiece, Piece,
};
use crate::region::{
    adjacent, connected, is_walk, lemma_closed_holds_region, lemma_connected_reflexive,
    lemma_full_is_solvable,
    lemma_connected_step, lemma_connected_transitive, lemma_region_bounded, locally_solvable,
    region, step_closed, steps,
};
use crate::search::{
    covers, lemma_search_result_solves, reaches, recorded, search_result, solves, Mode, Way,
};
use vstd::prelude::*;

verus! {

/// The corner `(row, column)` of the grid on which the top left corner of
/// the pattern comes to lie when the piece is placed.
pub open spec fn anchor(g: Grid, piece: OrientedPiece) -> Cell {
    let (r, c) = first_open(g, piece.top_index as int).unwrap();
    (r, c - piece.top_index)
}

/// The cells under the filled cells of the pattern, with the pattern's top
/// left corner on `at`.
pub open spec fn footprint(piece: OrientedPiece, at: Cell) -> Set<Cell> {
    Set::new(|p: Cell| filled(piece, p.0 - at.0, p.1 - at.1))
}

/// A pattern has as many cells under it as it has filled cells.
pub proof fn lemma_footprint_size(piece: OrientedPiece, at: Cell)
    ensures
        filled_cells(piece).finite(),
        footprint(piece, at).finite(),
        footprint(piece, at).len() == filled_cells(piece).len(),
{
    let cells = filled_cells(piece);
    let moved = |p: Cell| (p.0 + at.0, p.1 + at.1);
    assert(cells.subset_of(all_cells()));
    lemma_cells_bounded(cells);
    assert forall|p: Cell| footprint(piece, at).contains(p) implies cells.map(moved).contains(
        p,
    ) by {
        let q = (p.0 - at.0, p.1 - at.1);
        assert(cells.contains(q) && moved(q) == p);
    }
    assert(cells.map(moved) =~= footprint(piece, at));
    vstd::set_lib::lemma_map_size(cells, footprint(piece, at), moved);
}

/// A placing takes the cells under the pattern from the empty cells, and
/// nothing else.
pub proof fn lemma_placed_open_cells(g: Grid, piece: OrientedPiece)
    requires
        well_formed(g),
        placed(g, piece) is Some,
    ensures
        well_formed(placed(g, piece).unwrap()),
        fits(g, piece, anchor(g, piece).0, anchor(g, piece).1),
        footprint(piece, anchor(g, piece)).subset_of(open_cells(g)),
        open_cells(placed(g, piece).unwrap()) == open_cells(g).difference(
            footprint(piece, anchor(g, piece)),
        ),
        open_cells(g).finite(),
        open_cells(placed(g, piece).unwrap()).len() + filled_cells(piece).len() == open_cells(
            g,
        ).len(),
{
    let at = anchor(g, piece);
    let next = placed(g, piece).unwrap();
    let under = footprint(piece, at);
    assert(next == stamped(g, piece, at.0, at.1));
    assert forall|p: Cell| under.contains(p) implies open_cells(g).contains(p) by {
        assert(filled(piece, p.0 - at.0, p.1 - at.1));
        assert(open_at(g, at.0 + (p.0 - at.0), at.1 + (p.1 - at.1)));
    }
    assert forall|p: Cell| open_cells(next).contains(p) <==> open_cells(g).difference(
        under,
    ).contains(p) by {
        if in_grid(p.0, p.1) {
            assert(next[p.0][p.1] == (if filled(piece, p.0 - at.0, p.1 - at.1) {
                piece.pattern[p.0 - at.0][p.1 - at.1]
            } else {
                g[p.0][p.1]
            }));
        }
    }
    assert(open_cells(next) =~= open_cells(g).difference(under));
    assert(open_cells(g).subset_of(all_cells()));
    lemma_cells_bounded(open_cells(g));
    lemma_footprint_size(piece, at);
    vstd::set_lib::lemma_set_intersect_union_lens(open_cells(g).difference(under), under);
    assert(open_cells(g).difference(under).union(under) =~= open_cells(g));
    assert(open_cells(g).difference(under).intersect(under) =~= Set::empty());
}

/// The cells of `path`, each moved by `at`.
spec fn moved_by(path: Seq<Cell>, at: Cell) -> Seq<Cell> {
    Seq::new(path.len(), |k: int| (path[k].0 + at.0, path[k].1 + at.1))
}

/// A walk through the filled cells of a pattern that fits is, moved to
/// where the pattern lies, a walk through empty cells of the grid.
proof fn lemma_pattern_walk_fits(g: Grid, piece: OrientedPiece, at: Cell, inner: Seq<Cell>)
    requires
        fits(g, piece, at.0, at.1),
        walks_in(filled_cells(piece), inner),
    ensures
        is_walk(g, moved_by(inner, at)),
{
    let path = moved_by(inner, at);
    assert forall|k: int| 0 <= k < path.len() implies open_at(
        g,
        (#[trigger] path[k]).0,
        path[k].1,
    ) by {
        assert(filled_cells(piece).contains(inner[k]));
        assert(filled(piece, inner[k].0, inner[k].1));
        assert(open_at(g, at.0 + inner[k].0, at.1 + inner[k].1));
    }
    assert forall|k: int| 0 <= k < path.len() - 1 implies #[trigger] steps(path, k) by {
        assert(steps(inner, k));
    }
}

/// The cells under a pattern that fits and hangs together lie in one region.
proof fn lemma_footprint_connected(g: Grid, piece: OrientedPiece, at: Cell, a: Cell, b: Cell)
    requires
        fits(g, piece, at.0, at.1),
        contiguous(piece),
        footprint(piece, at).contains(a),
        footprint(piece, at).contains(b),
    ensures
        connected(g, a, b),
{
    let a0 = (a.0 - at.0, a.1 - at.1);
    let b0 = (b.0 - at.0, b.1 - at.1);
    assert(filled_cells(piece).contains(a0) && filled_cells(piece).contains(b0));
    let inner = choose|path: Seq<Cell>| #[trigger]
        walks_in(filled_cells(piece), path) && path[0] == a0 && path.last() == b0;
    let path = moved_by(inner, at);
    lemma_pattern_walk_fits(g, piece, at, inner);
    assert(path[0] == a && path.last() == b);
}

/// A set of empty cells that no step leaves is made of whole regions: where
/// five divides the size of every region, it divides the size of the set.
proof fn lemma_closed_set_size(g: Grid, s: Set<Cell>)
    requires
        locally_solvable(g),
        s.subset_of(open_cells(g)),
        step_closed(g, s),
    ensures
        s.finite(),
        s.len() % 5 == 0,
    decreases s.len(),
{
    assert(s.subset_of(all_cells()));
    lemma_cells_bounded(s);
    if s.len() != 0 {
        let x = s.choose();
        let r = region(g, x);
        let rest = s.difference(r);
        assert(s.contains(x));
        assert(open_cells(g).contains(x));
        lemma_closed_holds_region(g, s, x);
        lemma_connected_reflexive(g, x);
        lemma_region_bounded(g, x);
        assert forall|p: Cell, q: Cell|
            rest.contains(p) && #[trigger] adjacent(p, q) && open_at(
                g,
                q.0,
                q.1,
            ) implies rest.contains(q) by {
            if r.contains(q) {
                assert(adjacent(q, p));
                lemma_connected_step(g, x, q, p);
            }
        }
        assert(rest.union(r) =~= s);
        assert(rest.intersect(r) =~= Set::empty());
        vstd::set_lib::lemma_set_intersect_union_lens(rest, r);
        assert(r.contains(x));
        assert(r.len() > 0) by {
            if r.len() == 0 {
                r.lemma_len0_is_empty();
            }
        }
        lemma_closed_set_size(g, rest);
    }
}

/// Where the regions after a placing can all be filled by fives, so could
/// those before it, if the piece is a shape of five cells that hang together.
proof fn lemma_solvable_before_placing(g: Grid, piece: OrientedPiece)
    requires
        well_formed(g),
        placed(g, piece) is Some,
        locally_solvable(placed(g, piece).unwrap()),
        contiguous(piece),
        filled_cells(piece).len() == 5,
    ensures
        locally_solvable(g),
{
    let next = placed(g, piece).unwrap();
    let under = footprint(piece, anchor(g, piece));
    lemma_placed_open_cells(g, piece);
    lemma_footprint_size(piece, anchor(g, piece));
    assert forall|r: int, c: int| #[trigger] open_at(g, r, c) implies region(g, (r, c)).len() % 5
        == 0 by {
        let p = (r, c);
        let whole = region(g, p);
        let left = whole.difference(under);
        lemma_region_bounded(g, p);
        // The region of `p` is a set that no step leaves.
        assert forall|a: Cell, b: Cell|
            whole.contains(a) && #[trigger] adjacent(a, b) && open_at(
                g,
                b.0,
                b.1,
            ) implies whole.contains(b) by {
            lemma_connected_step(g, p, a, b);
        }
        assert forall|a: Cell| left.contains(a) implies open_cells(next).contains(a) by {
            assert(connected(g, p, a));
            let path = choose|path: Seq<Cell>| #[trigger]
                is_walk(g, path) && path[0] == p && path.last() == a;
            assert(open_at(g, path[path.len() - 1].0, path[path.len() - 1].1));
            assert(open_cells(g).difference(under).contains(a));
        }
        assert forall|a: Cell, b: Cell|
            left.contains(a) && #[trigger] adjacent(a, b) && open_at(
                next,
                b.0,
                b.1,
            ) implies left.contains(b) by {
            assert(open_cells(next).contains(b));
            assert(open_cells(g).difference(under).contains(b));
            assert(open_at(g, b.0, b.1));
        }
        lemma_closed_set_size(next, left);
        if exists|f: Cell| whole.contains(f) && under.contains(f) {
            let f = choose|f: Cell| whole.contains(f) && under.contains(f);
            assert forall|e: Cell| under.contains(e) implies whole.contains(e) by {
                lemma_footprint_connected(g, piece, anchor(g, piece), f, e);
                lemma_connected_transitive(g, p, f, e);
            }
            assert(left.union(under) =~= whole);
            assert(left.intersect(under) =~= Set::empty());
            vstd::set_lib::lemma_set_intersect_union_lens(left, under);
        } else {
            assert(left =~= whole);
        }
    }
}

/// The search reaches only full grids, and leaves every cell as it was that
/// was not empty.
pub proof fn lemma_solution_fills(
    g: Grid,
    pieces: Seq<Piece>,
    threshold: int,
    way: Way,
    s: Grid,
)
    requires
        well_formed(g),
        reaches(g, pieces, threshold, way, s),
    ensures
        well_formed(s),
        full(s),
        forall|r: int, c: int| #[trigger] in_grid(r, c) && g[r][c] != '0' ==> s[r][c] == g[r][c],
    decreases way.len(),
{
    if way.len() > 0 {
        let (i, k) = way[0];
        let piece = pieces[i].possible_pieces@[k];
        let next = placed(g, piece).unwrap();
        let at = anchor(g, piece);
        lemma_placed_open_cells(g, piece);
        assert forall|r: int, c: int| #[trigger] in_grid(r, c) && g[r][c] != '0' implies next[r][c]
            == g[r][c] by {
            if filled(piece, r - at.0, c - at.1) {
                assert(open_at(g, at.0 + (r - at.0), at.1 + (c - at.1)));
            }
        }
        lemma_solution_fills(next, pieces.remove(i), threshold, way.drop_first(), s);
        assert forall|r: int, c: int| #[trigger] in_grid(r, c) && g[r][c] != '0' implies s[r][c]
            == g[r][c] by {
            assert(in_grid(r, c) && next[r][c] != '0');
        }
    }
}

/// Every way to a full grid places every piece, each once.
pub proof fn lemma_solution_uses_all_pieces(
    g: Grid,
    pieces: Seq<Piece>,
    threshold: int,
    way: Way,
    s: Grid,
)
    requires
        reaches(g, pieces, threshold, way, s),
    ensures
        way.len() == pieces.len(),
    decreases way.len(),
{
    if way.len() > 0 {
        let (i, k) = way[0];
        let next = placed(g, pieces[i].possible_pieces@[k]).unwrap();
        lemma_solution_uses_all_pieces(next, pieces.remove(i), threshold, way.drop_first(), s);
    }
}

/// A full board with pieces left over cannot come about where the pieces
/// cover as many cells as are empty: on a full grid no piece is left.
pub proof fn lemma_full_leaves_no_piece(g: Grid, pieces: Seq<Piece>)
    requires
        covers(g, pieces),
        full(g),
    ensures
        pieces.len() == 0,
{
    assert(open_cells(g) =~= Set::empty()) by {
        assert forall|p: Cell| !open_cells(g).contains(p) by {
            assert(!open_at(g, p.0, p.1));
        }
    }
}

/// A placing keeps the count: where each orientation has five cells and
/// the pieces cover as many cells as are empty, the pieces that are left
/// after a placing cover as many cells as are empty then.
pub proof fn lemma_placing_keeps_cover(g: Grid, pieces: Seq<Piece>, i: int, k: int)
    requires
        well_formed(g),
        five_cells_each(pieces),
        covers(g, pieces),
        0 <= i < pieces.len(),
        0 <= k < pieces[i].possible_pieces@.len(),
        placed(g, pieces[i].possible_pieces@[k]) is Some,
    ensures
        five_cells_each(pieces.remove(i)),
        covers(placed(g, pieces[i].possible_pieces@[k]).unwrap(), pieces.remove(i)),
{
    lemma_placed_open_cells(g, pieces[i].possible_pieces@[k]);
    lemma_pieces_left(pieces, i);
}

/// The pieces that are left when one was taken are among those before.
pub proof fn lemma_pieces_left(pieces: Seq<Piece>, i: int)
    requires
        0 <= i < pieces.len(),
    ensures
        five_cells_each(pieces) ==> five_cells_each(pieces.remove(i)),
        pentominoes(pieces) ==> pentominoes(pieces.remove(i)),
{
    let rest = pieces.remove(i);
    assert forall|a: int| 0 <= a < rest.len() implies rest[a] == pieces[if a < i {
        a
    } else {
        a + 1
    }] by {}
    if five_cells_each(pieces) {
        assert forall|a: int, k: int|
            0 <= a < rest.len() && 0 <= k < rest[a].possible_pieces@.len() implies filled_cells(
            #[trigger] rest[a].possible_pieces@[k],
        ).len() == 5 by {
            let a0 = if a < i {
                a
            } else {
                a + 1
            };
            assert(rest[a] == pieces[a0]);
        }
    }
    if pentominoes(pieces) {
        assert forall|a: int, k: int|
            0 <= a < rest.len() && 0 <= k < rest[a].possible_pieces@.len() implies contiguous(
            #[trigger] rest[a].possible_pieces@[k],
        ) by {
            let a0 = if a < i {
                a
            } else {
                a + 1
            };
            assert(rest[a] == pieces[a0]);
        }
    }
}

/// A grid from which pieces of five cells that hang together reach a full
/// grid has only regions whose size five divides.
proof fn lemma_fillable_is_solvable(
    g: Grid,
    pieces: Seq<Piece>,
    threshold: int,
    way: Way,
    s: Grid,
)
    requires
        well_formed(g),
        pentominoes(pieces),
        reaches(g, pieces, threshold, way, s),
    ensures
        locally_solvable(g),
    decreases way.len(),
{
    if way.len() == 0 {
        lemma_full_is_solvable(g);
    } else {
        let (i, k) = way[0];
        let piece = pieces[i].possible_pieces@[k];
        lemma_placed_open_cells(g, piece);
        lemma_pieces_left(pieces, i);
        lemma_fillable_is_solvable(
            placed(g, piece).unwrap(),
            pieces.remove(i),
            threshold,
            way.drop_first(),
            s,
        );
        lemma_solvable_before_placing(g, piece);
    }
}

/// A way of the search is a way for every threshold, if the pieces are
/// shapes of five cells that hang together.
pub proof fn lemma_reaches_any_threshold(
    g: Grid,
    pieces: Seq<Piece>,
    from: int,
    to: int,
    way: Way,
    s: Grid,
)
    requires
        well_formed(g),
        pentominoes(pieces),
        reaches(g, pieces, from, way, s),
    ensures
        reaches(g, pieces, to, way, s),
    decreases way.len(),
{
    if way.len() > 0 {
        let (i, k) = way[0];
        let piece = pieces[i].possible_pieces@[k];
        let next = placed(g, piece).unwrap();
        lemma_placed_open_cells(g, piece);
        lemma_pieces_left(pieces, i);
        lemma_fillable_is_solvable(next, pieces.remove(i), from, way.drop_first(), s);
        lemma_reaches_any_threshold(next, pieces.remove(i), from, to, way.drop_first(), s);
    }
}

/// The look at the regions loses no solution: with pieces that are shapes
/// of five cells that hang together, the search reaches the same full grids
/// whatever the threshold, and so the same as a search that never looks at
/// the regions, which is the search with threshold 0.
pub proof fn lemma_pruning_loses_nothing(
    g: Grid,
    pieces: Seq<Piece>,
    threshold: int,
    other: int,
    s: Grid,
)
    requires
        well_formed(g),
        pentominoes(pieces),
    ensures
        solves(g, pieces, threshold, s) == solves(g, pieces, other, s),
{
    if solves(g, pieces, threshold, s) {
        let way = choose|way: Way| reaches(g, pieces, threshold, way, s);
        lemma_reaches_any_threshold(g, pieces, threshold, other, way, s);
    }
    if solves(g, pieces, other, s) {
        let way = choose|way: Way| reaches(g, pieces, other, way, s);
        lemma_reaches_any_threshold(g, pieces, other, threshold, way, s);
    }
}

/// What a search with one threshold leaves in `solutions`, a search with
/// any other leaves too, if the pieces are shapes of five cells that hang
/// together: the same boards in the same order.
pub proof fn lemma_search_result_any_threshold(
    g: Grid,
    pieces: Seq<Piece>,
    threshold: int,
    other: int,
    mode: Mode,
    ways: Seq<Way>,
    solutions: Seq<Board>,
    from: int,
)
    requires
        well_formed(g),
        pentominoes(pieces),
        search_result(g, pieces, threshold, mode, ways, solutions, from),
    ensures
        search_result(g, pieces, other, mode, ways, solutions, from),
{
    assert forall|m: int| 0 <= m < ways.len() implies reaches(
        g,
        pieces,
        other,
        #[trigger] ways[m],
        solutions[from + m]@,
    ) by {
        lemma_reaches_any_threshold(g, pieces, threshold, other, ways[m], solutions[from + m]@);
    }
    assert forall|way: Way, s: Grid| #[trigger]
        reaches(g, pieces, other, way, s) implies reaches(g, pieces, threshold, way, s) by {
        lemma_reaches_any_threshold(g, pieces, other, threshold, way, s);
    }
}

/// How the pieces lie on the board: for each piece, in the order of the
/// pieces, the index of its orientation and the cell on which the top left
/// corner of the pattern lies.
pub type Laying = Seq<(int, Cell)>;

/// In the laying, piece `i` covers the cell `(r, c)`: the cell lies under
/// the pattern of the orientation chosen for it.
pub open spec fn lies_on(pieces: Seq<Piece>, laying: Laying, i: int, r: int, c: int) -> bool {
    footprint(pieces[i].possible_pieces@[laying[i].0], laying[i].1).contains((r, c))
}

/// The laying is an exact cover of the empty cells of `g`, and `s` shows
/// it: every piece lies in one of its orientations on empty cells of `g`,
/// no two pieces share a cell, every empty cell of `g` is covered, and `s`
/// holds under each piece what its pattern holds and everywhere else what
/// `g` holds.
pub open spec fn lays_exact_cover(g: Grid, pieces: Seq<Piece>, laying: Laying, s: Grid) -> bool {
    &&& laying.len() == pieces.len()
    &&& well_formed(s)
    &&& forall|i: int|
        0 <= i < pieces.len() ==> 0 <= (#[trigger] laying[i]).0 < pieces[i].possible_pieces@.len()
    &&& forall|i: int, r: int, c: int|
        0 <= i < pieces.len() && #[trigger] lies_on(pieces, laying, i, r, c) ==> open_at(g, r, c)
            && s[r][c] == pieces[i].possible_pieces@[laying[i].0].pattern[r - laying[i].1.0][c
            - laying[i].1.1]
    &&& forall|i: int, j: int, r: int, c: int|
        0 <= i < j < pieces.len() && #[trigger] lies_on(pieces, laying, i, r, c) ==> !(
        #[trigger] lies_on(pieces, laying, j, r, c))
    &&& forall|r: int, c: int| #[trigger]
        open_at(g, r, c) ==> exists|i: int|
            0 <= i < pieces.len() && #[trigger] lies_on(pieces, laying, i, r, c)
    &&& forall|r: int, c: int| #[trigger] in_grid(r, c) && g[r][c] != '0' ==> s[r][c] == g[r][c]
}

/// The grid `s` shows an exact cover of the empty cells of `g` by the
/// pieces, each used once.
pub open spec fn exact_cover(g: Grid, pieces: Seq<Piece>, s: Grid) -> bool {
    exists|laying: Laying| lays_exact_cover(g, pieces, laying, s)
}

/// The index among all pieces of the piece with index `j` among those left
/// when piece `i` was taken.
spec fn index_before(i: int, j: int) -> int {
    if j < i {
        j
    } else {
        j + 1
    }
}

/// A laying of the pieces that are left after a placing, with the placed
/// piece put in, is a laying of all pieces that covers the grid before the
/// placing.
proof fn lemma_laying_with_placed(
    g: Grid,
    pieces: Seq<Piece>,
    i: int,
    k: int,
    sub: Laying,
    s: Grid,
)
    requires
        well_formed(g),
        0 <= i < pieces.len(),
        0 <= k < pieces[i].possible_pieces@.len(),
        placed(g, pieces[i].possible_pieces@[k]) is Some,
        lays_exact_cover(
            placed(g, pieces[i].possible_pieces@[k]).unwrap(),
            pieces.remove(i),
            sub,
            s,
        ),
    ensures
        lays_exact_cover(
            g,
            pieces,
            sub.insert(i, (k, anchor(g, pieces[i].possible_pieces@[k]))),
            s,
        ),
{
    let piece = pieces[i].possible_pieces@[k];
    let next = placed(g, piece).unwrap();
    let at = anchor(g, piece);
    let rest = pieces.remove(i);
    let laying = sub.insert(i, (k, at));
    lemma_placed_open_cells(g, piece);
    assert(next == stamped(g, piece, at.0, at.1));
    // Each piece but the placed one lies as in the laying of those left.
    assert forall|j: int, r: int, c: int| 0 <= j < rest.len() implies lies_on(
        pieces,
        laying,
        index_before(i, j),
        r,
        c,
    ) == #[trigger] lies_on(rest, sub, j, r, c) by {
        assert(rest[j] == pieces[index_before(i, j)]);
        assert(laying[index_before(i, j)] == sub[j]);
    }
    assert(laying[i] == (k, at));
    assert forall|r: int, c: int| lies_on(pieces, laying, i, r, c) == filled(
        piece,
        r - at.0,
        c - at.1,
    ) by {}
    // What is empty after the placing was empty before and is not under the piece.
    assert forall|r: int, c: int| #[trigger] open_at(next, r, c) implies open_at(g, r, c)
        && !filled(piece, r - at.0, c - at.1) by {
        assert(open_cells(next).contains((r, c)));
        assert(open_cells(g).difference(footprint(piece, at)).contains((r, c)));
    }
    assert forall|a: int| 0 <= a < pieces.len() implies 0 <= (#[trigger] laying[a]).0
        < pieces[a].possible_pieces@.len() by {
        if a != i {
            let j = if a < i {
                a
            } else {
                a - 1
            };
            assert(index_before(i, j) == a);
            assert(rest[j] == pieces[a]);
            assert(laying[a] == sub[j]);
        }
    }
    assert forall|a: int, r: int, c: int|
        0 <= a < pieces.len() && #[trigger] lies_on(pieces, laying, a, r, c) implies open_at(
        g,
        r,
        c,
    ) && s[r][c] == pieces[a].possible_pieces@[laying[a].0].pattern[r - laying[a].1.0][c
        - laying[a].1.1] by {
        if a == i {
            assert(filled(piece, r - at.0, c - at.1));
            assert(open_at(g, at.0 + (r - at.0), at.1 + (c - at.1)));
            assert(in_grid(r, c) && next[r][c] != '0');
        } else {
            let j = if a < i {
                a
            } else {
                a - 1
            };
            assert(index_before(i, j) == a);
            assert(lies_on(rest, sub, j, r, c));
            assert(rest[j] == pieces[a]);
            assert(laying[a] == sub[j]);
        }
    }
    assert forall|a: int, b: int, r: int, c: int|
        0 <= a < b < pieces.len() && #[trigger] lies_on(pieces, laying, a, r, c) implies !(
    #[trigger] lies_on(pieces, laying, b, r, c)) by {
        if lies_on(pieces, laying, b, r, c) {
            let ja = if a < i {
                a
            } else {
                a - 1
            };
            let jb = if b < i {
                b
            } else {
                b - 1
            };
            if a == i {
                assert(index_before(i, jb) == b);
                assert(lies_on(rest, sub, jb, r, c));
                assert(open_at(next, r, c));
            } else if b == i {
                assert(index_before(i, ja) == a);
                assert(lies_on(rest, sub, ja, r, c));
                assert(open_at(next, r, c));
            } else {
                assert(index_before(i, ja) == a && index_before(i, jb) == b);
                assert(lies_on(rest, sub, ja, r, c));
                assert(lies_on(rest, sub, jb, r, c));
            }
        }
    }
    assert forall|r: int, c: int| #[trigger] open_at(g, r, c) implies exists|a: int|
        0 <= a < pieces.len() && #[trigger] lies_on(pieces, laying, a, r, c) by {
        if filled(piece, r - at.0, c - at.1) {
            assert(lies_on(pieces, laying, i, r, c));
        } else {
            assert(open_cells(g).difference(footprint(piece, at)).contains((r, c)));
            assert(open_at(next, r, c));
            let j = choose|j: int| 0 <= j < rest.len() && #[trigger] lies_on(rest, sub, j, r, c);
            assert(lies_on(pieces, laying, index_before(i, j), r, c));
        }
    }
    assert forall|r: int, c: int| #[trigger] in_grid(r, c) && g[r][c] != '0' implies s[r][c]
        == g[r][c] by {
        if filled(piece, r - at.0, c - at.1) {
            assert(open_at(g, at.0 + (r - at.0), at.1 + (c - at.1)));
        }
        assert(in_grid(r, c) && next[r][c] != '0');
    }
}

/// What the search reaches is an exact cover: the full grid at the end of
/// a way shows every piece once, each in one of its orientations on cells
/// that were empty, no two on one cell, and no empty cell is left.
pub proof fn lemma_solution_is_exact_cover(
    g: Grid,
    pieces: Seq<Piece>,
    threshold: int,
    way: Way,
    s: Grid,
) -> (laying: Laying)
    requires
        well_formed(g),
        reaches(g, pieces, threshold, way, s),
    ensures
        lays_exact_cover(g, pieces, laying, s),
        exact_cover(g, pieces, s),
    decreases way.len(),
{
    if way.len() == 0 {
        let laying = Seq::<(int, Cell)>::empty();
        assert(lays_exact_cover(g, pieces, laying, s));
        laying
    } else {
        let (i, k) = way[0];
        let piece = pieces[i].possible_pieces@[k];
        let next = placed(g, piece).unwrap();
        lemma_placed_open_cells(g, piece);
        let sub = lemma_solution_is_exact_cover(
            next,
            pieces.remove(i),
            threshold,
            way.drop_first(),
            s,
        );
        lemma_laying_with_placed(g, pieces, i, k, sub, s);
        sub.insert(i, (k, anchor(g, piece)))
    }
}

/// A laying that covers a grid, with the piece taken out that the search
/// places first, covers the grid after that placing.
proof fn lemma_laying_without_placed(
    g: Grid,
    pieces: Seq<Piece>,
    laying: Laying,
    i: int,
    s: Grid,
)
    requires
        well_formed(g),
        lays_exact_cover(g, pieces, laying, s),
        0 <= i < pieces.len(),
        placed(g, pieces[i].possible_pieces@[laying[i].0]) is Some,
        anchor(g, pieces[i].possible_pieces@[laying[i].0]) == laying[i].1,
    ensures
        lays_exact_cover(
            placed(g, pieces[i].possible_pieces@[laying[i].0]).unwrap(),
            pieces.remove(i),
            laying.remove(i),
            s,
        ),
{
    let piece = pieces[i].possible_pieces@[laying[i].0];
    let at = laying[i].1;
    let next = placed(g, piece).unwrap();
    let rest = pieces.remove(i);
    let sub = laying.remove(i);
    lemma_placed_open_cells(g, piece);
    assert(next == stamped(g, piece, at.0, at.1));
    assert forall|j: int, r: int, c: int| 0 <= j < rest.len() implies lies_on(
        pieces,
        laying,
        index_before(i, j),
        r,
        c,
    ) == #[trigger] lies_on(rest, sub, j, r, c) by {
        assert(rest[j] == pieces[index_before(i, j)]);
        assert(sub[j] == laying[index_before(i, j)]);
    }
    assert forall|r: int, c: int| lies_on(pieces, laying, i, r, c) == filled(
        piece,
        r - at.0,
        c - at.1,
    ) by {}
    assert forall|j: int| 0 <= j < rest.len() implies 0 <= (#[trigger] sub[j]).0
        < rest[j].possible_pieces@.len() by {
        assert(rest[j] == pieces[index_before(i, j)]);
        assert(sub[j] == laying[index_before(i, j)]);
    }
    assert forall|j: int, r: int, c: int|
        0 <= j < rest.len() && #[trigger] lies_on(rest, sub, j, r, c) implies open_at(next, r, c)
        && s[r][c] == rest[j].possible_pieces@[sub[j].0].pattern[r - sub[j].1.0][c
        - sub[j].1.1] by {
        let a = index_before(i, j);
        assert(rest[j] == pieces[a]);
        assert(sub[j] == laying[a]);
        assert(lies_on(pieces, laying, a, r, c));
        if lies_on(pieces, laying, i, r, c) {
            if a < i {
                assert(!lies_on(pieces, laying, i, r, c));
            } else {
                assert(!lies_on(pieces, laying, a, r, c));
            }
        }
        assert(open_cells(g).difference(footprint(piece, at)).contains((r, c)));
        assert(open_cells(next).contains((r, c)));
    }
    assert forall|a: int, b: int, r: int, c: int|
        0 <= a < b < rest.len() && #[trigger] lies_on(rest, sub, a, r, c) implies !(
    #[trigger] lies_on(rest, sub, b, r, c)) by {
        assert(lies_on(pieces, laying, index_before(i, a), r, c));
        if lies_on(rest, sub, b, r, c) {
            assert(lies_on(pieces, laying, index_before(i, b), r, c));
        }
    }
    assert forall|r: int, c: int| #[trigger] open_at(next, r, c) implies exists|j: int|
        0 <= j < rest.len() && #[trigger] lies_on(rest, sub, j, r, c) by {
        assert(open_cells(next).contains((r, c)));
        assert(open_cells(g).difference(footprint(piece, at)).contains((r, c)));
        assert(open_at(g, r, c));
        let a = choose|a: int| 0 <= a < pieces.len() && #[trigger] lies_on(pieces, laying, a, r, c);
        assert(a != i);
        let j = if a < i {
            a
        } else {
            a - 1
        };
        assert(index_before(i, j) == a);
        assert(lies_on(rest, sub, j, r, c));
    }
    assert forall|r: int, c: int| #[trigger] in_grid(r, c) && next[r][c] != '0' implies s[r][c]
        == next[r][c] by {
        if filled(piece, r - at.0, c - at.1) {
            assert(lies_on(pieces, laying, i, r, c));
        } else {
            assert(in_grid(r, c) && g[r][c] != '0');
        }
    }
}

/// The pieces that are left when one was taken are pushed to the top left
/// as those before.
proof fn lemma_anchored_left(pieces: Seq<Piece>, i: int)
    requires
        0 <= i < pieces.len(),
        anchored(pieces),
    ensures
        anchored(pieces.remove(i)),
{
    let rest = pieces.remove(i);
    assert forall|a: int, k: int|
        0 <= a < rest.len() && 0 <= k < rest[a].possible_pieces@.len() implies pushed_top_left(
        #[trigger] rest[a].possible_pieces@[k],
    ) by {
        assert(rest[a] == pieces[index_before(i, a)]);
    }
}

/// The piece that covers the first empty cell of the grid lies where the
/// search places it: with the first filled cell of its first row on that
/// cell.
proof fn lemma_first_piece_is_placed(
    g: Grid,
    pieces: Seq<Piece>,
    laying: Laying,
    i: int,
    p: Cell,
    s: Grid,
)
    requires
        well_formed(g),
        anchored(pieces),
        lays_exact_cover(g, pieces, laying, s),
        is_first_open(g, 0, p.0, p.1),
        0 <= i < pieces.len(),
        lies_on(pieces, laying, i, p.0, p.1),
    ensures
        placed(g, pieces[i].possible_pieces@[laying[i].0]) is Some,
        anchor(g, pieces[i].possible_pieces@[laying[i].0]) == laying[i].1,
{
    let piece = pieces[i].possible_pieces@[laying[i].0];
    let at = laying[i].1;
    let top = piece.top_index as int;
    assert(pushed_top_left(piece));
    // The first filled cell of the first row lies on an empty cell.
    assert(filled(piece, (at.0 + 0) - at.0, (at.1 + top) - at.1));
    assert(lies_on(pieces, laying, i, at.0, at.1 + top));
    assert(open_at(g, at.0, at.1 + top));
    // No cell of the piece comes before it, so it is the first empty cell.
    assert(filled(piece, p.0 - at.0, p.1 - at.1));
    assert(!scanned_before(at.0, at.1 + top, p.0, p.1));
    assert(p.0 == at.0);
    if p.1 - at.1 < top {
        assert(!filled(piece, 0, p.1 - at.1));
    }
    assert(p == (at.0, at.1 + top));
    // The pattern has a cell in its first column, so that column is on the grid.
    let j = choose|j: int| #[trigger] filled(piece, j, 0);
    assert(filled(piece, (at.0 + j) - at.0, at.1 - at.1));
    assert(lies_on(pieces, laying, i, at.0 + j, at.1));
    assert(open_at(g, at.0 + j, at.1));
    assert(is_first_open(g, top, p.0, p.1));
    lemma_first_open_found(g, top, p.0, p.1);
    assert forall|j2: int, i2: int| #[trigger] filled(piece, j2, i2) implies open_at(
        g,
        at.0 + j2,
        at.1 + i2,
    ) by {
        assert(filled(piece, (at.0 + j2) - at.0, (at.1 + i2) - at.1));
        assert(lies_on(pieces, laying, i, at.0 + j2, at.1 + i2));
    }
    assert(fits(g, piece, at.0, at.1));
}

/// Every exact cover is reached: where the patterns are pushed to the top
/// left, a search that never looks at the regions goes a way to the grid
/// that shows the cover.
pub proof fn lemma_exact_cover_is_reached(
    g: Grid,
    pieces: Seq<Piece>,
    laying: Laying,
    s: Grid,
) -> (way: Way)
    requires
        well_formed(g),
        anchored(pieces),
        lays_exact_cover(g, pieces, laying, s),
    ensures
        reaches(g, pieces, 0, way, s),
    decreases pieces.len(),
{
    if pieces.len() == 0 {
        assert forall|r: int, c: int| !open_at(g, r, c) by {}
        assert forall|r: int, c: int| 0 <= r < 6 && 0 <= c < 9 implies s[r][c] == g[r][c] by {
            assert(!open_at(g, r, c));
            assert(in_grid(r, c) && g[r][c] != '0');
        }
        assert(s =~~= g);
        Seq::empty()
    } else {
        let first = pieces[0].possible_pieces@[laying[0].0];
        assert(pushed_top_left(first));
        assert(filled(
            first,
            (laying[0].1.0 + 0) - laying[0].1.0,
            (laying[0].1.1 + first.top_index) - laying[0].1.1,
        ));
        assert(lies_on(pieces, laying, 0, laying[0].1.0, laying[0].1.1 + first.top_index));
        assert(open_at(g, laying[0].1.0, laying[0].1.1 + first.top_index));
        let p = lemma_first_open_exists(g, 0);
        assert(open_at(g, p.0, p.1));
        let i = choose|i: int| 0 <= i < pieces.len() && #[trigger] lies_on(pieces, laying, i, p.0, p.1);
        let k = laying[i].0;
        let piece = pieces[i].possible_pieces@[k];
        lemma_first_piece_is_placed(g, pieces, laying, i, p, s);
        lemma_placed_open_cells(g, piece);
        lemma_laying_without_placed(g, pieces, laying, i, s);
        lemma_anchored_left(pieces, i);
        let tail = lemma_exact_cover_is_reached(
            placed(g, piece).unwrap(),
            pieces.remove(i),
            laying.remove(i),
            s,
        );
        let way = seq![(i, k)] + tail;
        assert(way[0] == (i, k));
        assert(way.drop_first() =~= tail);
        way
    }
}

/// Every exact cover is found: with pieces that are shapes of five cells
/// that hang together, pushed to the top left of their patterns, the search
/// reaches every grid that shows an exact cover of the empty cells by the
/// pieces, whatever the threshold.
pub proof fn lemma_exact_cover_is_found(g: Grid, pieces: Seq<Piece>, threshold: int, s: Grid)
    requires
        well_formed(g),
        pentominoes(pieces),
        anchored(pieces),
        exact_cover(g, pieces, s),
    ensures
        solves(g, pieces, threshold, s),
{
    let laying = choose|laying: Laying| lays_exact_cover(g, pieces, laying, s);
    let way = lemma_exact_cover_is_reached(g, pieces, laying, s);
    lemma_reaches_any_threshold(g, pieces, 0, threshold, way, s);
}

/// What the boards of a finished search are: each of them shows an exact
/// cover of the empty cells by the pieces, and where the search looked for
/// all or found none, every exact cover is shown by one of them. So a
/// search that finds nothing shows that the pieces cannot cover the board.
pub proof fn lemma_search_result_exact_covers(
    g: Grid,
    pieces: Seq<Piece>,
    threshold: int,
    mode: Mode,
    ways: Seq<Way>,
    solutions: Seq<Board>,
    from: int,
)
    requires
        well_formed(g),
        pentominoes(pieces),
        anchored(pieces),
        search_result(g, pieces, threshold, mode, ways, solutions, from),
    ensures
        forall|m: int|
            from <= m < solutions.len() ==> exact_cover(g, pieces, (#[trigger] solutions[m])@),
        mode == Mode::AllSolutions || solutions.len() == from ==> forall|s: Grid|
            exact_cover(g, pieces, s) ==> recorded(solutions, from, s),
{
    lemma_search_result_solves(g, pieces, threshold, mode, ways, solutions, from);
    assert forall|m: int| from <= m < solutions.len() implies exact_cover(
        g,
        pieces,
        (#[trigger] solutions[m])@,
    ) by {
        let way = choose|way: Way| reaches(g, pieces, threshold, way, solutions[m]@);
        lemma_solution_is_exact_cover(g, pieces, threshold, way, solutions[m]@);
    }
    if mode == Mode::AllSolutions || solutions.len() == from {
        assert forall|s: Grid| exact_cover(g, pieces, s) implies recorded(solutions, from, s) by {
            lemma_exact_cover_is_found(g, pieces, threshold, s);
        }
    }
}

} // verus!
