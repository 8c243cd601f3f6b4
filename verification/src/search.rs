//! The search: placing the pieces one after another, each on the first
//! empty cell, and taking each back before the next is tried.

use crate::board::Board;
use crate::grid::{
    cleared, first_open, full, holds, in_grid, lemma_remove_undoes_place, names_piece,
    open_cells, placed, well_formed, Grid,
};
use crate::piece::{
    anchored, contiguous, filled, filled_cells, five_cells_each, pentominoes, pushed_top_left,
    shows, Piece,
};
use crate::region::{lemma_full_is_solvable, locally_solvable};
use crate::tiling::{
    exact_cover, lemma_full_leaves_no_piece, lemma_placing_keeps_cover,
    lemma_search_result_any_threshold, lemma_search_result_exact_covers,
};
use vstd::prelude::*;

verus! {

/// The number of cells of a piece.
pub const PIECE_CELLS: usize = 5;

/// With this many pieces left or fewer, a placing is followed by a look at
/// the regions of empty cells.
pub const CHECK_FOR_SOLVABILITY_THRESH: usize = 5;

/// Whether the search stops at the first solution or looks for all.
#[derive(Debug, Clone, Copy, PartialEq, Eq, Structural)]
pub enum Mode {
    /// The search ends with the first full board that it reaches.
    FirstSolution,
    /// The search goes every way and keeps every full board that it reaches.
    AllSolutions,
}

/// The search reaches the full grid `s` from `g` by the choices of
/// `choices`, each the index of a piece among those that are left and the
/// index of one of its orientations: each piece can be placed in its turn,
/// on the first empty cell that its orientation allows, and when no choice
/// and no piece is left the grid is full and is `s`. With `threshold`
/// pieces or fewer left, the search goes on after a placing only where every
/// region of empty cells has a number of cells that five divides.
pub open spec fn reaches(
    g: Grid,
    pieces: Seq<Piece>,
    threshold: int,
    choices: Seq<(int, int)>,
    s: Grid,
) -> bool
    decreases choices.len(),
{
    if choices.len() == 0 {
        full(g) && pieces.len() == 0 && s == g
    } else {
        let (i, k) = choices[0];
        &&& 0 <= i < pieces.len()
        &&& 0 <= k < pieces[i].possible_pieces@.len()
        &&& match placed(g, pieces[i].possible_pieces@[k]) {
            Some(next) => {
                &&& pieces.len() <= threshold ==> locally_solvable(next)
                &&& reaches(next, pieces.remove(i), threshold, choices.drop_first(), s)
            },
            None => false,
        }
    }
}

/// The search reaches the full grid `s` from `g` with the pieces of `pieces`.
pub open spec fn solves(g: Grid, pieces: Seq<Piece>, threshold: int, s: Grid) -> bool {
    exists|choices: Seq<(int, int)>| reaches(g, pieces, threshold, choices, s)
}

/// The pieces can be told apart on the grid: no identifier is the mark of
/// an empty or of a blocked cell, every filled cell of each orientation
/// shows the identifier of its piece, no cell of the grid holds the
/// identifier of a piece, and no two pieces share one.
pub open spec fn identified(g: Grid, pieces: Seq<Piece>) -> bool {
    &&& forall|i: int| 0 <= i < pieces.len() ==> names_piece((#[trigger] pieces[i]).id)
    &&& forall|i: int, k: int|
        0 <= i < pieces.len() && 0 <= k < pieces[i].possible_pieces@.len() ==> shows(
            #[trigger] pieces[i].possible_pieces@[k],
            pieces[i].id,
        )
    &&& forall|i: int| 0 <= i < pieces.len() ==> !holds(g, (#[trigger] pieces[i]).id)
    &&& forall|i: int, j: int|
        0 <= i < j < pieces.len() ==> (#[trigger] pieces[i]).id != (#[trigger] pieces[j]).id
}

/// `after` begins with the boards of `before`, in their order.
pub open spec fn extends(before: Seq<Board>, after: Seq<Board>) -> bool {
    &&& before.len() <= after.len()
    &&& forall|m: int| 0 <= m < before.len() ==> #[trigger] after[m] == before[m]
}

/// One of the boards of `solutions` from index `from` on shows the grid `s`.
pub open spec fn recorded(solutions: Seq<Board>, from: int, s: Grid) -> bool {
    exists|m: int| from <= m < solutions.len() && (#[trigger] solutions[m])@ == s
}

/// A way of the search: its choices from a grid to a full one, each the
/// index of a piece among those left and the index of an orientation.
pub type Way = Seq<(int, int)>;

/// The search tries the choice `a` before the choice `b`: an earlier piece,
/// or the same piece in an earlier orientation.
pub open spec fn tried_before(a: (int, int), b: (int, int)) -> bool {
    a.0 < b.0 || (a.0 == b.0 && a.1 < b.1)
}

/// The search goes the way `a` before the way `b`: at the first choice in
/// which they differ, that of `a` is tried before that of `b`.
pub open spec fn way_before(a: Way, b: Way) -> bool
    decreases a.len(),
{
    if a.len() == 0 {
        b.len() > 0
    } else if b.len() == 0 {
        false
    } else {
        tried_before(a[0], b[0]) || (a[0] == b[0] && way_before(a.drop_first(), b.drop_first()))
    }
}

/// The boards of `solutions` from index `from` on are the full boards that
/// the search reaches by the ways of `ways`, one board for each way and in
/// the same order, and the ways stand in the order in which the search goes
/// them.
pub open spec fn lists(
    g: Grid,
    pieces: Seq<Piece>,
    threshold: int,
    ways: Seq<Way>,
    solutions: Seq<Board>,
    from: int,
) -> bool {
    &&& 0 <= from
    &&& solutions.len() == from + ways.len()
    &&& forall|m: int|
        0 <= m < ways.len() ==> reaches(
            g,
            pieces,
            threshold,
            #[trigger] ways[m],
            solutions[from + m]@,
        )
    &&& forall|m: int, n: int|
        0 <= m < n < ways.len() ==> way_before(#[trigger] ways[m], #[trigger] ways[n])
}

/// Every way by which the search reaches a full grid is one of `ways`.
pub open spec fn all_ways(g: Grid, pieces: Seq<Piece>, threshold: int, ways: Seq<Way>) -> bool {
    forall|way: Way, s: Grid| #[trigger] reaches(g, pieces, threshold, way, s) ==> ways.contains(way)
}

/// The search goes `way` before every other way by which it reaches a full
/// grid.
pub open spec fn first_way(g: Grid, pieces: Seq<Piece>, threshold: int, way: Way) -> bool {
    forall|other: Way, s: Grid| #[trigger]
        reaches(g, pieces, threshold, other, s) ==> other == way || way_before(way, other)
}

/// What a search leaves in `solutions` from index `from` on: the boards of
/// `ways`, which are all the ways to a full grid where the search looked for
/// all or found none, and the first of them where it stopped at the first.
pub open spec fn search_result(
    g: Grid,
    pieces: Seq<Piece>,
    threshold: int,
    mode: Mode,
    ways: Seq<Way>,
    solutions: Seq<Board>,
    from: int,
) -> bool {
    &&& lists(g, pieces, threshold, ways, solutions, from)
    &&& mode == Mode::AllSolutions || ways.len() == 0 ==> all_ways(g, pieces, threshold, ways)
    &&& mode == Mode::FirstSolution && ways.len() > 0 ==> ways.len() == 1 && first_way(
        g,
        pieces,
        threshold,
        ways[0],
    )
}

/// A way leads to one full grid only.
pub proof fn lemma_way_leads_to_one(
    g: Grid,
    pieces: Seq<Piece>,
    threshold: int,
    way: Way,
    s1: Grid,
    s2: Grid,
)
    requires
        reaches(g, pieces, threshold, way, s1),
        reaches(g, pieces, threshold, way, s2),
    ensures
        s1 == s2,
    decreases way.len(),
{
    if way.len() > 0 {
        let (i, k) = way[0];
        let next = placed(g, pieces[i].possible_pieces@[k]).unwrap();
        lemma_way_leads_to_one(next, pieces.remove(i), threshold, way.drop_first(), s1, s2);
    }
}

/// What the boards of a finished search say of the grids that the search
/// reaches: each of them shows such a grid, and where the search looked for
/// all or found none, each such grid is shown by one of them.
pub proof fn lemma_search_result_solves(
    g: Grid,
    pieces: Seq<Piece>,
    threshold: int,
    mode: Mode,
    ways: Seq<Way>,
    solutions: Seq<Board>,
    from: int,
)
    requires
        search_result(g, pieces, threshold, mode, ways, solutions, from),
    ensures
        forall|m: int|
            from <= m < solutions.len() ==> solves(g, pieces, threshold, (#[trigger] solutions[m])@),
        mode == Mode::AllSolutions || solutions.len() == from ==> forall|s: Grid|
            solves(g, pieces, threshold, s) ==> recorded(solutions, from, s),
{
    assert forall|m: int| from <= m < solutions.len() implies solves(
        g,
        pieces,
        threshold,
        (#[trigger] solutions[m])@,
    ) by {
        assert(reaches(g, pieces, threshold, ways[m - from], solutions[from + (m - from)]@));
    }
    if mode == Mode::AllSolutions || solutions.len() == from {
        assert forall|s: Grid| solves(g, pieces, threshold, s) implies recorded(
            solutions,
            from,
            s,
        ) by {
            let way = choose|way: Way| reaches(g, pieces, threshold, way, s);
            let m = choose|m: int| 0 <= m < ways.len() && ways[m] == way;
            lemma_way_leads_to_one(g, pieces, threshold, way, s, solutions[from + m]@);
        }
    }
}

/// The ways of `ways`, each with the choice `head` before it.
pub open spec fn headed(ways: Seq<Way>, head: (int, int)) -> Seq<Way> {
    Seq::new(ways.len(), |m: int| seq![head] + ways[m])
}

/// The search has come to the choice `upto`: the ways of `ways` all begin
/// with a choice tried before it, and every way to a full grid that begins
/// with such a choice is among them.
spec fn searched(g: Grid, pieces: Seq<Piece>, threshold: int, ways: Seq<Way>, upto: (int, int)) -> bool {
    &&& forall|m: int|
        0 <= m < ways.len() ==> (#[trigger] ways[m]).len() > 0 && tried_before(ways[m][0], upto)
    &&& forall|way: Way, s: Grid|
        #[trigger] reaches(g, pieces, threshold, way, s) && way.len() > 0 && tried_before(
            way[0],
            upto,
        ) ==> ways.contains(way)
}

/// A way that begins with an earlier choice is gone before.
proof fn lemma_earlier_choice_first(a: Way, b: Way)
    requires
        a.len() > 0,
        b.len() > 0,
        tried_before(a[0], b[0]),
    ensures
        way_before(a, b),
{
}

/// Two ways that begin with the same choice go in the order of what follows.
proof fn lemma_same_choice_first(head: (int, int), a: Way, b: Way)
    requires
        way_before(a, b),
    ensures
        way_before(seq![head] + a, seq![head] + b),
{
    assert((seq![head] + a).drop_first() =~= a);
    assert((seq![head] + b).drop_first() =~= b);
}

/// A choice after which nothing is found: the piece cannot be placed, or
/// the search gives the placing up because of a region that cannot be filled.
proof fn lemma_branch_gives_nothing(
    g: Grid,
    pieces: Seq<Piece>,
    threshold: int,
    ways: Seq<Way>,
    i: int,
    k: int,
)
    requires
        searched(g, pieces, threshold, ways, (i, k)),
        0 <= i < pieces.len(),
        0 <= k < pieces[i].possible_pieces@.len(),
        match placed(g, pieces[i].possible_pieces@[k]) {
            Some(next) => pieces.len() <= threshold && !locally_solvable(next),
            None => true,
        },
    ensures
        searched(g, pieces, threshold, ways, (i, k + 1)),
{
    assert forall|way: Way, s: Grid|
        #[trigger] reaches(g, pieces, threshold, way, s) && way.len() > 0 && tried_before(
            way[0],
            (i, k + 1),
        ) implies ways.contains(way) by {
        assert(tried_before(way[0], (i, k)));
    }
    assert forall|m: int| 0 <= m < ways.len() implies (#[trigger] ways[m]).len() > 0
        && tried_before(ways[m][0], (i, k + 1)) by {
        assert(tried_before(ways[m][0], (i, k)));
    }
}

/// A full board with no piece left is a solution as it stands: the search
/// records it, by the way without a choice, and there is no other way.
proof fn lemma_full_grid_result(
    g: Grid,
    pieces: Seq<Piece>,
    threshold: int,
    so_far: Seq<Board>,
    board: Board,
)
    requires
        full(g),
        pieces.len() == 0,
        board@ == g,
    ensures
        lists(
            g,
            pieces,
            threshold,
            seq![Seq::<(int, int)>::empty()],
            so_far.push(board),
            so_far.len() as int,
        ),
        all_ways(g, pieces, threshold, seq![Seq::<(int, int)>::empty()]),
        first_way(g, pieces, threshold, Seq::<(int, int)>::empty()),
{
    let none = Seq::<(int, int)>::empty();
    let ways = seq![none];
    assert(reaches(g, pieces, threshold, none, g));
    assert forall|way: Way, s: Grid| #[trigger]
        reaches(g, pieces, threshold, way, s) implies way == none && ways.contains(way) by {
        assert(way =~= none);
        assert(ways[0] == none);
    }
}

/// A choice after which the search went on with the other pieces: what it
/// found there, it found on ways that begin with this choice.
proof fn lemma_branch_searched(
    g: Grid,
    pieces: Seq<Piece>,
    threshold: int,
    ways: Seq<Way>,
    i: int,
    k: int,
    so_far: Seq<Board>,
    tails: Seq<Way>,
    now: Seq<Board>,
    from: int,
)
    requires
        lists(g, pieces, threshold, ways, so_far, from),
        searched(g, pieces, threshold, ways, (i, k)),
        0 <= i < pieces.len(),
        0 <= k < pieces[i].possible_pieces@.len(),
        placed(g, pieces[i].possible_pieces@[k]) is Some,
        pieces.len() <= threshold ==> locally_solvable(
            placed(g, pieces[i].possible_pieces@[k]).unwrap(),
        ),
        extends(so_far, now),
        lists(
            placed(g, pieces[i].possible_pieces@[k]).unwrap(),
            pieces.remove(i),
            threshold,
            tails,
            now,
            so_far.len() as int,
        ),
    ensures
        lists(g, pieces, threshold, ways + headed(tails, (i, k)), now, from),
        all_ways(
            placed(g, pieces[i].possible_pieces@[k]).unwrap(),
            pieces.remove(i),
            threshold,
            tails,
        ) ==> searched(g, pieces, threshold, ways + headed(tails, (i, k)), (i, k + 1)),
        ways.len() == 0 && tails.len() == 1 && first_way(
            placed(g, pieces[i].possible_pieces@[k]).unwrap(),
            pieces.remove(i),
            threshold,
            tails[0],
        ) ==> first_way(g, pieces, threshold, seq![(i, k)] + tails[0]),
{
    let head = (i, k);
    let next = placed(g, pieces[i].possible_pieces@[k]).unwrap();
    let rest = pieces.remove(i);
    let new = headed(tails, head);
    let more = ways + new;
    assert forall|m: int| 0 <= m < new.len() implies reaches(
        g,
        pieces,
        threshold,
        #[trigger] new[m],
        now[so_far.len() + m]@,
    ) && new[m].len() > 0 && new[m][0] == head by {
        assert(new[m].drop_first() =~= tails[m]);
        assert(reaches(next, rest, threshold, tails[m], now[so_far.len() + m]@));
    }
    assert forall|m: int| 0 <= m < more.len() implies reaches(
        g,
        pieces,
        threshold,
        #[trigger] more[m],
        now[from + m]@,
    ) by {
        if m < ways.len() {
            assert(more[m] == ways[m]);
            assert(now[from + m] == so_far[from + m]);
        } else {
            assert(more[m] == new[m - ways.len()]);
        }
    }
    assert forall|m: int, n: int| 0 <= m < n < more.len() implies way_before(
        #[trigger] more[m],
        #[trigger] more[n],
    ) by {
        if n < ways.len() {
            assert(more[m] == ways[m] && more[n] == ways[n]);
        } else if m < ways.len() {
            assert(more[m] == ways[m]);
            assert(more[n] == new[n - ways.len()]);
            assert(ways[m].len() > 0 && tried_before(ways[m][0], head));
            lemma_earlier_choice_first(ways[m], more[n]);
        } else {
            assert(more[m] == new[m - ways.len()]);
            assert(more[n] == new[n - ways.len()]);
            assert(way_before(tails[m - ways.len()], tails[n - ways.len()]));
            lemma_same_choice_first(head, tails[m - ways.len()], tails[n - ways.len()]);
        }
    }
    if all_ways(next, rest, threshold, tails) {
        assert forall|m: int| 0 <= m < more.len() implies (#[trigger] more[m]).len() > 0
            && tried_before(more[m][0], (i, k + 1)) by {
            if m < ways.len() {
                assert(more[m] == ways[m]);
                assert(ways[m].len() > 0 && tried_before(ways[m][0], head));
            } else {
                assert(more[m] == new[m - ways.len()]);
            }
        }
        assert forall|other: Way, s: Grid|
            #[trigger] reaches(g, pieces, threshold, other, s) && other.len() > 0 && tried_before(
                other[0],
                (i, k + 1),
            ) implies more.contains(other) by {
            if other[0] == head {
                assert(reaches(next, rest, threshold, other.drop_first(), s));
                let m = choose|m: int| 0 <= m < tails.len() && tails[m] == other.drop_first();
                assert(new[m] =~= other);
                assert(more[ways.len() + m] == new[m]);
            } else {
                assert(tried_before(other[0], head));
                let m = choose|m: int| 0 <= m < ways.len() && ways[m] == other;
                assert(more[m] == other);
            }
        }
    }
    if ways.len() == 0 && tails.len() == 1 && first_way(next, rest, threshold, tails[0]) {
        let way = seq![head] + tails[0];
        assert forall|other: Way, s: Grid| #[trigger]
            reaches(g, pieces, threshold, other, s) implies other == way || way_before(
            way,
            other,
        ) by {
            if other[0] == head {
                assert(reaches(next, rest, threshold, other.drop_first(), s));
                if other.drop_first() == tails[0] {
                    assert(other =~= way);
                } else {
                    lemma_same_choice_first(head, tails[0], other.drop_first());
                    assert(seq![head] + other.drop_first() =~= other);
                }
            } else if tried_before(other[0], head) {
                assert(ways.contains(other));
            } else {
                lemma_earlier_choice_first(way, other);
            }
        }
    }
}

/// After the last orientation of a piece the search comes to the next piece.
proof fn lemma_piece_searched(
    g: Grid,
    pieces: Seq<Piece>,
    threshold: int,
    ways: Seq<Way>,
    i: int,
)
    requires
        0 <= i < pieces.len(),
        searched(g, pieces, threshold, ways, (i, pieces[i].possible_pieces@.len() as int)),
    ensures
        searched(g, pieces, threshold, ways, (i + 1, 0)),
{
    let end = (i, pieces[i].possible_pieces@.len() as int);
    assert forall|m: int| 0 <= m < ways.len() implies (#[trigger] ways[m]).len() > 0
        && tried_before(ways[m][0], (i + 1, 0)) by {
        assert(tried_before(ways[m][0], end));
    }
    assert forall|way: Way, s: Grid|
        #[trigger] reaches(g, pieces, threshold, way, s) && way.len() > 0 && tried_before(
            way[0],
            (i + 1, 0),
        ) implies ways.contains(way) by {
        assert(tried_before(way[0], end));
    }
}

/// After the last piece the search has gone every way from a grid that is
/// not full.
proof fn lemma_all_searched(g: Grid, pieces: Seq<Piece>, threshold: int, ways: Seq<Way>)
    requires
        !full(g),
        searched(g, pieces, threshold, ways, (pieces.len() as int, 0)),
    ensures
        all_ways(g, pieces, threshold, ways),
{
    assert forall|way: Way, s: Grid| #[trigger]
        reaches(g, pieces, threshold, way, s) implies ways.contains(way) by {
        assert(way.len() > 0);
        assert(tried_before(way[0], (pieces.len() as int, 0)));
    }
}

/// After piece `i` was placed in its orientation `k`, the other pieces can
/// still be told apart on the grid, and making the cells empty that hold the
/// identifier of piece `i` gives the grid back.
proof fn lemma_placing_keeps_identified(g: Grid, pieces: Seq<Piece>, i: int, k: int)
    requires
        well_formed(g),
        identified(g, pieces),
        0 <= i < pieces.len(),
        0 <= k < pieces[i].possible_pieces@.len(),
        placed(g, pieces[i].possible_pieces@[k]) is Some,
    ensures
        well_formed(placed(g, pieces[i].possible_pieces@[k]).unwrap()),
        identified(placed(g, pieces[i].possible_pieces@[k]).unwrap(), pieces.remove(i)),
        cleared(placed(g, pieces[i].possible_pieces@[k]).unwrap(), pieces[i].id) == g,
{
    let piece = pieces[i].possible_pieces@[k];
    let id = pieces[i].id;
    let next = placed(g, piece).unwrap();
    let rest = pieces.remove(i);
    let (r0, c) = first_open(g, piece.top_index as int).unwrap();
    let c0 = c - piece.top_index;
    lemma_remove_undoes_place(g, piece, id);
    assert forall|j: int| 0 <= j < rest.len() implies !holds(next, (#[trigger] rest[j]).id) by {
        let j0 = if j < i {
            j
        } else {
            j + 1
        };
        assert(rest[j] == pieces[j0]);
        assert(pieces[j0].id != pieces[i].id);
        assert(!holds(g, pieces[j0].id));
        assert forall|r: int, c: int| #[trigger] in_grid(r, c) implies next[r][c]
            != pieces[j0].id by {
            if !filled(piece, r - r0, c - c0) {
                assert(next[r][c] == g[r][c]);
            }
        }
    }
    assert forall|a: int, b: int| 0 <= a < b < rest.len() implies (#[trigger] rest[a]).id != (
    #[trigger] rest[b]).id by {
        let a0 = if a < i {
            a
        } else {
            a + 1
        };
        let b0 = if b < i {
            b
        } else {
            b + 1
        };
        assert(rest[a] == pieces[a0] && rest[b] == pieces[b0]);
    }
    assert forall|a: int, k2: int|
        0 <= a < rest.len() && 0 <= k2 < rest[a].possible_pieces@.len() implies shows(
        #[trigger] rest[a].possible_pieces@[k2],
        rest[a].id,
    ) by {
        let a0 = if a < i {
            a
        } else {
            a + 1
        };
        assert(rest[a] == pieces[a0]);
    }
}

/// Tries every piece of `pieces` in every orientation on the first empty
/// cell of the board, goes on in the same way with the pieces that are left
/// wherever one was placed, and pushes a copy of each full board that it
/// reaches onto `solutions`, in the order in which it reaches them. A board
/// that is full when no piece is left is such a board: it is pushed as it
/// stands. With `threshold` pieces or fewer left, a placing after which some
/// region of empty cells cannot be filled is given up at once. In
/// `Mode::FirstSolution` the search ends with the first full board. The
/// board and the pieces are handed back as they were. The answer is whether
/// a full board was reached.
///
/// The pieces must be of five cells in each orientation and cover as many
/// cells as the board has empty ones: a full board with pieces left over
/// then cannot come about. `solve` looks at both before it searches.
pub fn try_placing_pieces(
    b: &mut Board,
    pieces: &mut Vec<Piece>,
    solutions: &mut Vec<Board>,
    threshold: usize,
    mode: Mode,
) -> (found: bool)
    requires
        identified(old(b)@, old(pieces)@),
        five_cells_each(old(pieces)@),
        covers(old(b)@, old(pieces)@),
    ensures
        *final(b) == *old(b),
        final(pieces)@ == old(pieces)@,
        extends(old(solutions)@, final(solutions)@),
        found == (final(solutions)@.len() > old(solutions)@.len()),
        exists|ways: Seq<Way>| #[trigger]
            search_result(
                old(b)@,
                old(pieces)@,
                threshold as int,
                mode,
                ways,
                final(solutions)@,
                old(solutions)@.len() as int,
            ),
    decreases old(pieces)@.len(),
{
    let ghost b0 = *b;
    let ghost g = b@;
    let ghost all = pieces@;
    let ghost given = solutions@;
    let ghost from = solutions@.len() as int;
    let ghost t = threshold as int;
    let ghost mut ways: Seq<Way> = Seq::empty();
    let given_len = solutions.len();
    let first_only = match mode {
        Mode::FirstSolution => true,
        Mode::AllSolutions => false,
    };
    proof {
        b.lemma_view_well_formed();
    }
    if b.is_full() {
        solutions.push(b.clone());
        proof {
            lemma_full_leaves_no_piece(g, all);
            lemma_full_grid_result(g, all, t, given, *b);
            assert(search_result(g, all, t, mode, seq![Seq::empty()], solutions@, from));
        }
        return true;
    }
    let mut i: usize = 0;
    while i < pieces.len()
        invariant
            i <= all.len(),
            pieces@ == all,
            all == old(pieces)@,
            given == old(solutions)@,
            given_len == given.len(),
            from == given.len(),
            *b == b0,
            b0 == *old(b),
            g == b0@,
            t == threshold as int,
            first_only == (mode == Mode::FirstSolution),
            well_formed(g),
            !full(g),
            identified(g, all),
            five_cells_each(all),
            covers(g, all),
            extends(given, solutions@),
            first_only ==> ways.len() == 0,
            lists(g, all, t, ways, solutions@, from),
            searched(g, all, t, ways, (i as int, 0)),
        decreases all.len() - i,
    {
        let piece = pieces.remove(i);
        let ghost rest = pieces@;
        let mut k: usize = 0;
        while k < piece.possible_pieces.len()
            invariant
                i < all.len(),
                k <= piece.possible_pieces@.len(),
                all == old(pieces)@,
                given == old(solutions)@,
                given_len == given.len(),
                from == given.len(),
                piece == all[i as int],
                rest == all.remove(i as int),
                pieces@ == rest,
                *b == b0,
                b0 == *old(b),
                g == b0@,
                t == threshold as int,
                first_only == (mode == Mode::FirstSolution),
                well_formed(g),
                !full(g),
                identified(g, all),
                five_cells_each(all),
                covers(g, all),
                extends(given, solutions@),
                first_only ==> ways.len() == 0,
                lists(g, all, t, ways, solutions@, from),
                searched(g, all, t, ways, (i as int, k as int)),
            decreases piece.possible_pieces@.len() - k,
        {
            let ghost so_far = solutions@;
            let ghost before = ways;
            let mut reached = false;
            if b.place_piece_on_top_left(&piece.possible_pieces[k]) {
                let ghost next = b@;
                proof {
                    lemma_placing_keeps_identified(g, all, i as int, k as int);
                    lemma_placing_keeps_cover(g, all, i as int, k as int);
                }
                if b.is_full() {
                    solutions.push(b.clone());
                    reached = true;
                    proof {
                        let tails = seq![Seq::<(int, int)>::empty()];
                        lemma_full_leaves_no_piece(next, rest);
                        lemma_full_is_solvable(next);
                        lemma_full_grid_result(next, rest, t, so_far, *b);
                        lemma_branch_searched(
                            g,
                            all,
                            t,
                            before,
                            i as int,
                            k as int,
                            so_far,
                            tails,
                            solutions@,
                            from,
                        );
                        ways = before + headed(tails, (i as int, k as int));
                        if first_only {
                            assert(ways[0] == seq![(i as int, k as int)] + tails[0]);
                        }
                    }
                } else if pieces.len() < threshold && !b.is_solvable() {
                    proof {
                        lemma_branch_gives_nothing(g, all, t, before, i as int, k as int);
                    }
                } else {
                    reached = try_placing_pieces(b, pieces, solutions, threshold, mode);
                    proof {
                        let tails = choose|tails: Seq<Way>| #[trigger]
                            search_result(next, rest, t, mode, tails, solutions@, so_far.len() as int);
                        lemma_branch_searched(
                            g,
                            all,
                            t,
                            before,
                            i as int,
                            k as int,
                            so_far,
                            tails,
                            solutions@,
                            from,
                        );
                        ways = before + headed(tails, (i as int, k as int));
                        if first_only && reached {
                            assert(ways[0] == seq![(i as int, k as int)] + tails[0]);
                        }
                    }
                }
                b.remove_piece(piece.id);
                proof {
                    b.lemma_view_injective(&b0);
                }
            } else {
                proof {
                    lemma_branch_gives_nothing(g, all, t, before, i as int, k as int);
                }
            }
            if reached && first_only {
                pieces.insert(i, piece);
                proof {
                    assert(pieces@ =~= all);
                    assert(search_result(g, all, t, mode, ways, solutions@, from));
                }
                return true;
            }
            k += 1;
        }
        pieces.insert(i, piece);
        proof {
            assert(pieces@ =~= all);
            lemma_piece_searched(g, all, t, ways, i as int);
        }
        i += 1;
    }
    proof {
        lemma_all_searched(g, all, t, ways);
        assert(search_result(g, all, t, mode, ways, solutions@, from));
    }
    solutions.len() > given_len
}

/// Why a search was not begun.
#[derive(Debug, Clone, Copy, PartialEq, Eq, Structural)]
pub enum SearchError {
    /// The pieces cannot be told apart on the board: a filled cell of an
    /// orientation does not show the identifier of its piece, the board
    /// holds the identifier of a piece already, or two pieces share one.
    Identifiers,
    /// An orientation is not a shape of five cells that hang together, or
    /// its pattern is not pushed to the top left with its `top_index` on the
    /// first filled cell of the first row.
    PieceShape,
    /// The pieces do not cover as many cells as the board has empty ones.
    Coverage,
}

/// The pieces, of five cells each, cover as many cells as the grid has
/// empty ones.
pub open spec fn covers(g: Grid, pieces: Seq<Piece>) -> bool {
    open_cells(g).len() == 5 * pieces.len()
}

/// What is asked of a board and its pieces before a search, and the error
/// for the first of it that fails.
pub open spec fn setup_check(g: Grid, pieces: Seq<Piece>) -> Result<(), SearchError> {
    if !identified(g, pieces) {
        Err(SearchError::Identifiers)
    } else if !pentominoes(pieces) || !anchored(pieces) {
        Err(SearchError::PieceShape)
    } else if !covers(g, pieces) {
        Err(SearchError::Coverage)
    } else {
        Ok(())
    }
}

/// Whether the pieces can be told apart on the board.
pub fn pieces_identified(board: &Board, pieces: &Vec<Piece>) -> (res: bool)
    ensures
        res == identified(board@, pieces@),
{
    let mut i: usize = 0;
    while i < pieces.len()
        invariant
            i <= pieces@.len(),
            forall|i2: int, k2: int|
                0 <= i2 < i && 0 <= k2 < pieces@[i2].possible_pieces@.len() ==> shows(
                    #[trigger] pieces@[i2].possible_pieces@[k2],
                    pieces@[i2].id,
                ),
            forall|i2: int| 0 <= i2 < i ==> names_piece((#[trigger] pieces@[i2]).id),
            forall|i2: int| 0 <= i2 < i ==> !holds(board@, (#[trigger] pieces@[i2]).id),
            forall|i2: int, j2: int|
                0 <= i2 < j2 < pieces@.len() && i2 < i ==> (#[trigger] pieces@[i2]).id != (
                #[trigger] pieces@[j2]).id,
        decreases pieces@.len() - i,
    {
        let piece = &pieces[i];
        if piece.id == '0' || piece.id == 'X' || board.holds(piece.id) {
            return false;
        }
        let mut k: usize = 0;
        while k < piece.possible_pieces.len()
            invariant
                i < pieces@.len(),
                *piece == pieces@[i as int],
                k <= piece.possible_pieces@.len(),
                forall|k2: int|
                    0 <= k2 < k ==> shows(#[trigger] piece.possible_pieces@[k2], piece.id),
            decreases piece.possible_pieces@.len() - k,
        {
            if !piece.possible_pieces[k].shows_only(piece.id) {
                return false;
            }
            k += 1;
        }
        let mut j: usize = i + 1;
        while j < pieces.len()
            invariant
                i < j <= pieces@.len(),
                *piece == pieces@[i as int],
                forall|j2: int| i < j2 < j ==> piece.id != (#[trigger] pieces@[j2]).id,
            decreases pieces@.len() - j,
        {
            if pieces[j].id == piece.id {
                return false;
            }
            j += 1;
        }
        i += 1;
    }
    true
}

/// Whether every orientation of every piece is a shape of five cells that
/// hang together.
pub fn pieces_are_pentominoes(pieces: &Vec<Piece>) -> (res: bool)
    ensures
        res == pentominoes(pieces@),
{
    let mut i: usize = 0;
    while i < pieces.len()
        invariant
            i <= pieces@.len(),
            forall|i2: int, k2: int|
                0 <= i2 < i && 0 <= k2 < pieces@[i2].possible_pieces@.len() ==> filled_cells(
                    #[trigger] pieces@[i2].possible_pieces@[k2],
                ).len() == 5 && contiguous(pieces@[i2].possible_pieces@[k2]),
        decreases pieces@.len() - i,
    {
        let piece = &pieces[i];
        let mut k: usize = 0;
        while k < piece.possible_pieces.len()
            invariant
                i < pieces@.len(),
                *piece == pieces@[i as int],
                k <= piece.possible_pieces@.len(),
                forall|k2: int|
                    0 <= k2 < k ==> filled_cells(#[trigger] piece.possible_pieces@[k2]).len() == 5
                        && contiguous(piece.possible_pieces@[k2]),
            decreases piece.possible_pieces@.len() - k,
        {
            if piece.possible_pieces[k].cell_count() != PIECE_CELLS
                || !piece.possible_pieces[k].is_contiguous() {
                return false;
            }
            k += 1;
        }
        i += 1;
    }
    true
}

/// Whether every orientation of every piece is pushed to the top left of
/// its pattern, with its `top_index` on the first filled cell of the first
/// row.
pub fn pieces_are_anchored(pieces: &Vec<Piece>) -> (res: bool)
    ensures
        res == anchored(pieces@),
{
    let mut i: usize = 0;
    while i < pieces.len()
        invariant
            i <= pieces@.len(),
            forall|i2: int, k2: int|
                0 <= i2 < i && 0 <= k2 < pieces@[i2].possible_pieces@.len() ==> pushed_top_left(
                    #[trigger] pieces@[i2].possible_pieces@[k2],
                ),
        decreases pieces@.len() - i,
    {
        let piece = &pieces[i];
        let mut k: usize = 0;
        while k < piece.possible_pieces.len()
            invariant
                i < pieces@.len(),
                *piece == pieces@[i as int],
                k <= piece.possible_pieces@.len(),
                forall|k2: int| 0 <= k2 < k ==> pushed_top_left(#[trigger] piece.possible_pieces@[k2]),
            decreases piece.possible_pieces@.len() - k,
        {
            if !piece.possible_pieces[k].is_pushed_top_left() {
                return false;
            }
            k += 1;
        }
        i += 1;
    }
    true
}

/// Looks at a board and its pieces before a search: the pieces must be told
/// apart on the board, each orientation must be a shape of five cells that
/// hang together, pushed to the top left of its pattern, and together the
/// pieces must cover as many cells as the board has empty ones.
pub fn check_setup(board: &Board, pieces: &Vec<Piece>) -> (res: Result<(), SearchError>)
    ensures
        res == setup_check(board@, pieces@),
{
    if !pieces_identified(board, pieces) {
        return Err(SearchError::Identifiers);
    }
    if !pieces_are_pentominoes(pieces) || !pieces_are_anchored(pieces) {
        return Err(SearchError::PieceShape);
    }
    let open = board.count_open();
    if pieces.len() > 10 || open != PIECE_CELLS * pieces.len() {
        return Err(SearchError::Coverage);
    }
    Ok(())
}

/// Searches the ways to fill the board with the pieces, after a look at
/// both: where `check_setup` finds a fault, no search is made and the fault
/// is the answer. Otherwise the answer holds the full boards that the search
/// reaches, in the order in which it reaches them: all of them in
/// `Mode::AllSolutions`, the first of them, if there is any, in
/// `Mode::FirstSolution`. After that look the threshold only decides how
/// much work is done, not what is found: the full boards are those of a
/// search that never looks at the regions, which is the search with
/// threshold 0, and these are the exact covers of the empty cells by the
/// pieces: every board of the answer shows one, and where the search looked
/// for all or found none, every exact cover is shown by a board of the
/// answer. The board and the pieces are handed back as they were.
pub fn solve(board: &mut Board, pieces: &mut Vec<Piece>, threshold: usize, mode: Mode) -> (res:
    Result<Vec<Board>, SearchError>)
    ensures
        *final(board) == *old(board),
        final(pieces)@ == old(pieces)@,
        res is Err == setup_check(old(board)@, old(pieces)@) is Err,
        res matches Err(e) ==> setup_check(old(board)@, old(pieces)@) == Err::<(), SearchError>(e),
        res matches Ok(solutions) ==> exists|ways: Seq<Way>| #[trigger]
            search_result(old(board)@, old(pieces)@, 0, mode, ways, solutions@, 0),
        res matches Ok(solutions) ==> forall|m: int|
            0 <= m < solutions@.len() ==> exact_cover(
                old(board)@,
                old(pieces)@,
                (#[trigger] solutions@[m])@,
            ),
        res matches Ok(solutions) ==> (mode == Mode::AllSolutions || solutions@.len() == 0
            ==> forall|s: Grid|
            exact_cover(old(board)@, old(pieces)@, s) ==> recorded(solutions@, 0, s)),
{
    let ghost g = board@;
    let ghost all = pieces@;
    if let Err(e) = check_setup(board, pieces) {
        return Err(e);
    }
    let mut solutions: Vec<Board> = Vec::new();
    try_placing_pieces(board, pieces, &mut solutions, threshold, mode);
    proof {
        board.lemma_view_well_formed();
        let ways = choose|ways: Seq<Way>| #[trigger]
            search_result(g, all, threshold as int, mode, ways, solutions@, 0);
        lemma_search_result_any_threshold(g, all, threshold as int, 0, mode, ways, solutions@, 0);
        assert(search_result(g, all, 0, mode, ways, solutions@, 0));
        lemma_search_result_exact_covers(g, all, 0, mode, ways, solutions@, 0);
    }
    let ghost found = solutions@;
    let res: Result<Vec<Board>, SearchError> = Ok(solutions);
    assert(res matches Ok(boards) && boards@ == found);
    res
}

} // verus!
