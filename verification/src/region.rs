//! The regions of empty cells: which empty cells can be reached from which
//! through empty cells, and whether pieces of five cells could still fill
//! every region.

use crate::board::Board;
use crate::grid::{all_cells, full, in_grid, lemma_cells_bounded, open_at, Cell, Grid};
use std::collections::VecDeque;
use vstd::prelude::*;

verus! {

/// The two cells share a side.
pub open spec fn adjacent(p: Cell, q: Cell) -> bool {
    ||| p.0 == q.0 && (p.1 == q.1 + 1 || q.1 == p.1 + 1)
    ||| p.1 == q.1 && (p.0 == q.0 + 1 || q.0 == p.0 + 1)
}

/// Cell `k` of `path` shares a side with the next.
pub open spec fn steps(path: Seq<Cell>, k: int) -> bool {
    adjacent(path[k], path[k + 1])
}

/// The cells of `path` are empty cells of the grid, and each shares a side
/// with the next.
pub open spec fn is_walk(g: Grid, path: Seq<Cell>) -> bool {
    &&& path.len() > 0
    &&& forall|k: int| 0 <= k < path.len() ==> open_at(g, (#[trigger] path[k]).0, path[k].1)
    &&& forall|k: int| 0 <= k < path.len() - 1 ==> #[trigger] steps(path, k)
}

/// A walk through empty cells leads from `p` to `q`.
pub open spec fn connected(g: Grid, p: Cell, q: Cell) -> bool {
    exists|path: Seq<Cell>| #[trigger] is_walk(g, path) && path[0] == p && path.last() == q
}

/// The region of `p`: the empty cells that are connected with it. It is
/// empty where `p` is no empty cell of the grid.
pub open spec fn region(g: Grid, p: Cell) -> Set<Cell> {
    Set::new(|q: Cell| connected(g, p, q))
}

/// Every region of empty cells has a number of cells that five divides, so
/// that pieces of five cells may still cover it.
pub open spec fn locally_solvable(g: Grid) -> bool {
    forall|r: int, c: int| #[trigger] open_at(g, r, c) ==> region(g, (r, c)).len() % 5 == 0
}

/// No step from a cell of `s` to an empty cell leaves `s`.
pub open spec fn step_closed(g: Grid, s: Set<Cell>) -> bool {
    forall|p: Cell, q: Cell|
        s.contains(p) && #[trigger] adjacent(p, q) && open_at(g, q.0, q.1) ==> s.contains(q)
}

/// An empty cell is connected with itself.
pub proof fn lemma_connected_reflexive(g: Grid, p: Cell)
    requires
        open_at(g, p.0, p.1),
    ensures
        connected(g, p, p),
{
    let path = seq![p];
    assert(is_walk(g, path));
    assert(path[0] == p && path.last() == p);
}

/// A walk can be gone backwards.
pub proof fn lemma_connected_symmetric(g: Grid, p: Cell, q: Cell)
    requires
        connected(g, p, q),
    ensures
        connected(g, q, p),
{
    let path = choose|path: Seq<Cell>| #[trigger] is_walk(g, path) && path[0] == p && path.last() == q;
    let back = Seq::new(path.len(), |k: int| path[path.len() - 1 - k]);
    assert forall|k: int| 0 <= k < back.len() - 1 implies #[trigger] steps(back, k) by {
        assert(steps(path, path.len() - 2 - k));
    }
    assert(is_walk(g, back));
    assert(back[0] == q && back.last() == p);
}

/// A walk goes on by one step to an empty cell at its end's side.
pub proof fn lemma_connected_step(g: Grid, p: Cell, q: Cell, next: Cell)
    requires
        connected(g, p, q),
        adjacent(q, next),
        open_at(g, next.0, next.1),
    ensures
        connected(g, p, next),
{
    let path = choose|path: Seq<Cell>| #[trigger] is_walk(g, path) && path[0] == p && path.last() == q;
    let longer = path.push(next);
    assert forall|k: int| 0 <= k < longer.len() - 1 implies #[trigger] steps(longer, k) by {
        if k < path.len() - 1 {
            assert(steps(path, k));
        }
    }
    assert(is_walk(g, longer));
    assert(longer[0] == p && longer.last() == next);
}

/// A walk from a cell of a set that no step leaves stays in the set.
pub proof fn lemma_walk_stays(g: Grid, s: Set<Cell>, path: Seq<Cell>, k: int)
    requires
        step_closed(g, s),
        is_walk(g, path),
        s.contains(path[0]),
        0 <= k < path.len(),
    ensures
        s.contains(path[k]),
    decreases k,
{
    if k > 0 {
        lemma_walk_stays(g, s, path, k - 1);
        assert(steps(path, k - 1));
    }
}

/// A set that no step leaves holds the whole region of each of its cells.
pub proof fn lemma_closed_holds_region(g: Grid, s: Set<Cell>, p: Cell)
    requires
        step_closed(g, s),
        s.contains(p),
    ensures
        region(g, p).subset_of(s),
{
    assert forall|q: Cell| region(g, p).contains(q) implies s.contains(q) by {
        let path = choose|path: Seq<Cell>| #[trigger] is_walk(g, path) && path[0] == p && path.last() == q;
        lemma_walk_stays(g, s, path, path.len() - 1);
    }
}

/// Two walks, the second from where the first ends, make one.
pub proof fn lemma_connected_transitive(g: Grid, p: Cell, q: Cell, t: Cell)
    requires
        connected(g, p, q),
        connected(g, q, t),
    ensures
        connected(g, p, t),
{
    // The cells connected with `p` are a set that no step leaves.
    let s = region(g, p);
    assert forall|a: Cell, b: Cell|
        s.contains(a) && #[trigger] adjacent(a, b) && open_at(g, b.0, b.1) implies s.contains(
        b,
    ) by {
        lemma_connected_step(g, p, a, b);
    }
    lemma_closed_holds_region(g, s, q);
    assert(region(g, q).contains(t));
}

/// Connected cells have the same region.
pub proof fn lemma_region_shared(g: Grid, p: Cell, q: Cell)
    requires
        connected(g, p, q),
    ensures
        region(g, p) == region(g, q),
{
    lemma_connected_symmetric(g, p, q);
    assert forall|t: Cell| region(g, p).contains(t) <==> region(g, q).contains(t) by {
        if connected(g, p, t) {
            lemma_connected_transitive(g, q, p, t);
        }
        if connected(g, q, t) {
            lemma_connected_transitive(g, p, q, t);
        }
    }
    assert(region(g, p) =~= region(g, q));
}

/// A grid without an empty cell has no region, so none that five does not
/// divide.
pub proof fn lemma_full_is_solvable(g: Grid)
    requires
        full(g),
    ensures
        locally_solvable(g),
{
    assert forall|r: int, c: int| #[trigger] open_at(g, r, c) implies region(g, (r, c)).len() % 5
        == 0 by {}
}

/// A region lies on the grid: it is finite and has at most 54 cells.
pub proof fn lemma_region_bounded(g: Grid, p: Cell)
    ensures
        region(g, p).finite(),
        region(g, p).len() <= 54,
{
    assert forall|q: Cell| region(g, p).contains(q) implies all_cells().contains(q) by {
        let path = choose|path: Seq<Cell>| #[trigger] is_walk(g, path) && path[0] == p && path.last() == q;
        assert(open_at(g, path[path.len() - 1].0, path[path.len() - 1].1));
    }
    lemma_cells_bounded(region(g, p));
}

/// The cells that a table of marks holds as marked.
spec fn marks(seen: [[bool; 9]; 6]) -> Set<Cell> {
    Set::new(|p: Cell| in_grid(p.0, p.1) && seen[p.0][p.1])
}

/// The cell at one of the four sides of `p`: 0 left, 1 right, 2 above, 3 below.
spec fn side(p: Cell, d: int) -> Cell {
    if d == 0 {
        (p.0, p.1 - 1)
    } else if d == 1 {
        (p.0, p.1 + 1)
    } else if d == 2 {
        (p.0 - 1, p.1)
    } else {
        (p.0 + 1, p.1)
    }
}

/// The state of a fill that started on `start`. `before` are the cells
/// marked before it began, `now` those marked at present, `found` those that
/// the fill has marked, `done` those of them whose sides were looked at and
/// `pending` those that wait for it. Of `cur` only the first `upto` sides
/// were looked at so far.
spec fn filling(
    g: Grid,
    start: Cell,
    before: Set<Cell>,
    now: Set<Cell>,
    found: Set<Cell>,
    done: Set<Cell>,
    pending: Seq<Cell>,
    cur: Cell,
    upto: int,
) -> bool {
    &&& forall|p: Cell| now.contains(p) <==> before.contains(p) || found.contains(p)
    &&& forall|p: Cell|
        found.contains(p) ==> !before.contains(p) && open_at(g, p.0, p.1) && connected(
            g,
            start,
            p,
        )
    &&& found.contains(start)
    &&& forall|p: Cell| done.contains(p) ==> found.contains(p)
    &&& forall|p: Cell| found.contains(p) ==> done.contains(p) || pending.contains(p)
    &&& forall|k: int| 0 <= k < pending.len() ==> found.contains(#[trigger] pending[k])
    &&& forall|p: Cell, d: int|
        done.contains(p) && 0 <= d < 4 && (p != cur || d < upto) && open_at(
            g,
            (#[trigger] side(p, d)).0,
            side(p, d).1,
        ) ==> now.contains(side(p, d))
}

/// The queue of the fill holds the pending cells.
spec fn mirrors(queue: Seq<(usize, usize)>, pending: Seq<Cell>) -> bool {
    &&& queue.len() == pending.len()
    &&& forall|k: int|
        0 <= k < queue.len() ==> in_grid((#[trigger] queue[k]).0 as int, queue[k].1 as int)
            && pending[k] == (queue[k].0 as int, queue[k].1 as int)
}

proof fn lemma_fill_start(g: Grid, start: Cell, before: Set<Cell>)
    requires
        open_at(g, start.0, start.1),
        !before.contains(start),
    ensures
        filling(
            g,
            start,
            before,
            before.insert(start),
            Set::empty().insert(start),
            Set::empty(),
            seq![start],
            start,
            4,
        ),
{
    lemma_connected_reflexive(g, start);
    let pending = seq![start];
    assert(pending[0] == start);
}

proof fn lemma_fill_pop(
    g: Grid,
    start: Cell,
    before: Set<Cell>,
    now: Set<Cell>,
    found: Set<Cell>,
    done: Set<Cell>,
    pending: Seq<Cell>,
    cur: Cell,
)
    requires
        filling(g, start, before, now, found, done, pending, cur, 4),
        pending.len() > 0,
    ensures
        filling(
            g,
            start,
            before,
            now,
            found,
            done.insert(pending[0]),
            pending.drop_first(),
            pending[0],
            0,
        ),
{
    let rest = pending.drop_first();
    let done2 = done.insert(pending[0]);
    assert forall|p: Cell| found.contains(p) implies done2.contains(p) || rest.contains(p) by {
        if !done.contains(p) {
            let k = choose|k: int| 0 <= k < pending.len() && pending[k] == p;
            if k > 0 {
                assert(rest[k - 1] == p);
            }
        }
    }
    assert forall|k: int| 0 <= k < rest.len() implies found.contains(#[trigger] rest[k]) by {
        assert(rest[k] == pending[k + 1]);
    }
    assert(found.contains(pending[0]));
}

/// A side of `cur` that needs no mark: it is off the grid, not empty or marked.
proof fn lemma_fill_skip(
    g: Grid,
    start: Cell,
    before: Set<Cell>,
    now: Set<Cell>,
    found: Set<Cell>,
    done: Set<Cell>,
    pending: Seq<Cell>,
    cur: Cell,
    upto: int,
)
    requires
        filling(g, start, before, now, found, done, pending, cur, upto),
        !open_at(g, side(cur, upto).0, side(cur, upto).1) || now.contains(side(cur, upto)),
    ensures
        filling(g, start, before, now, found, done, pending, cur, upto + 1),
{
}

/// A side of `cur` that is empty and not marked yet joins the fill.
proof fn lemma_fill_mark(
    g: Grid,
    start: Cell,
    before: Set<Cell>,
    now: Set<Cell>,
    found: Set<Cell>,
    done: Set<Cell>,
    pending: Seq<Cell>,
    cur: Cell,
    upto: int,
)
    requires
        filling(g, start, before, now, found, done, pending, cur, upto),
        done.contains(cur),
        0 <= upto < 4,
        open_at(g, side(cur, upto).0, side(cur, upto).1),
        !now.contains(side(cur, upto)),
    ensures
        filling(
            g,
            start,
            before,
            now.insert(side(cur, upto)),
            found.insert(side(cur, upto)),
            done,
            pending.push(side(cur, upto)),
            cur,
            upto + 1,
        ),
{
    let q = side(cur, upto);
    let pending2 = pending.push(q);
    assert(adjacent(cur, q));
    lemma_connected_step(g, start, cur, q);
    assert forall|p: Cell| found.insert(q).contains(p) implies done.contains(p)
        || pending2.contains(p) by {
        if p == q {
            assert(pending2[pending.len() as int] == q);
        } else if !done.contains(p) {
            let k = choose|k: int| 0 <= k < pending.len() && pending[k] == p;
            assert(pending2[k] == p);
        }
    }
}

/// Once nothing is pending, the fill has found the region of its start.
proof fn lemma_fill_finish(
    g: Grid,
    start: Cell,
    before: Set<Cell>,
    now: Set<Cell>,
    found: Set<Cell>,
    done: Set<Cell>,
    cur: Cell,
)
    requires
        filling(g, start, before, now, found, done, Seq::empty(), cur, 4),
        step_closed(g, before),
    ensures
        found == region(g, start),
        now == before.union(region(g, start)),
        step_closed(g, now),
{
    let pending = Seq::<Cell>::empty();
    assert forall|p: Cell, q: Cell|
        found.contains(p) && #[trigger] adjacent(p, q) && open_at(g, q.0, q.1) implies found.contains(
        q,
    ) by {
        assert(done.contains(p) || pending.contains(p));
        assert(q == side(p, 0) || q == side(p, 1) || q == side(p, 2) || q == side(p, 3));
        assert(now.contains(q));
        if before.contains(q) {
            assert(adjacent(q, p));
        }
    }
    lemma_closed_holds_region(g, found, start);
    assert(found =~= region(g, start));
    assert(now =~= before.union(region(g, start)));
}

/// The in-grid cell at side `d` of `(r, c)`, if that side is on the grid.
fn neighbor(r: usize, c: usize, d: u8) -> (n: Option<(usize, usize)>)
    requires
        in_grid(r as int, c as int),
        d < 4,
    ensures
        match n {
            Some((nr, nc)) => in_grid(nr as int, nc as int) && (nr as int, nc as int) == side(
                (r as int, c as int),
                d as int,
            ),
            None => !in_grid(
                side((r as int, c as int), d as int).0,
                side((r as int, c as int), d as int).1,
            ),
        },
{
    if d == 0 {
        if c > 0 {
            Some((r, c - 1))
        } else {
            None
        }
    } else if d == 1 {
        if c < 8 {
            Some((r, c + 1))
        } else {
            None
        }
    } else if d == 2 {
        if r > 0 {
            Some((r - 1, c))
        } else {
            None
        }
    } else {
        if r < 5 {
            Some((r + 1, c))
        } else {
            None
        }
    }
}

/// Marks the region of the empty cell `(r, c)` and counts its cells.
fn fill_region(board: &Board, seen: &mut [[bool; 9]; 6], r: usize, c: usize) -> (size: usize)
    requires
        open_at(board@, r as int, c as int),
        !marks(*old(seen)).contains((r as int, c as int)),
        step_closed(board@, marks(*old(seen))),
    ensures
        marks(*final(seen)) == marks(*old(seen)).union(region(board@, (r as int, c as int))),
        size == region(board@, (r as int, c as int)).len(),
        step_closed(board@, marks(*final(seen))),
{
    let ghost g = board@;
    let ghost start = (r as int, c as int);
    let ghost before = marks(*seen);
    let ghost mut found = Set::<Cell>::empty().insert(start);
    let ghost mut done = Set::<Cell>::empty();
    let ghost mut pending = seq![start];
    let ghost mut cur = start;
    let mut queue: VecDeque<(usize, usize)> = VecDeque::new();
    seen[r][c] = true;
    queue.push_back((r, c));
    let mut size: usize = 1;
    proof {
        lemma_fill_start(g, start, before);
        assert(marks(*seen) =~= before.insert(start));
    }
    while queue.len() > 0
        invariant
            g == board@,
            filling(g, start, before, marks(*seen), found, done, pending, cur, 4),
            mirrors(queue@, pending),
            found.finite(),
            found.len() == size,
            1 <= size <= 54,
        decreases 2 * (54 - size) + queue.len(),
    {
        let ghost measure = 2 * (54 - size) + queue.len();
        let (pr, pc) = queue.pop_front().unwrap();
        proof {
            lemma_fill_pop(g, start, before, marks(*seen), found, done, pending, cur);
            cur = pending[0];
            done = done.insert(cur);
            pending = pending.drop_first();
        }
        let mut d: u8 = 0;
        while d < 4
            invariant
                d <= 4,
                g == board@,
                cur == (pr as int, pc as int),
                in_grid(pr as int, pc as int),
                done.contains(cur),
                filling(g, start, before, marks(*seen), found, done, pending, cur, d as int),
                mirrors(queue@, pending),
                found.finite(),
                found.len() == size,
                1 <= size <= 54,
                2 * (54 - size) + queue.len() < measure,
            decreases 4 - d,
        {
            let ghost q = side(cur, d as int);
            let ghost now = marks(*seen);
            match neighbor(pr, pc, d) {
                Some((nr, nc)) => {
                    if board.get(nr, nc) == '0' && !seen[nr][nc] {
                        seen[nr][nc] = true;
                        queue.push_back((nr, nc));
                        proof {
                            lemma_fill_mark(g, start, before, now, found, done, pending, cur, d as int);
                            assert(marks(*seen) =~= now.insert(q));
                            found = found.insert(q);
                            pending = pending.push(q);
                            assert(found.subset_of(all_cells()));
                            lemma_cells_bounded(found);
                        }
                        size += 1;
                    } else {
                        proof {
                            lemma_fill_skip(g, start, before, now, found, done, pending, cur, d as int);
                        }
                    }
                },
                None => {
                    proof {
                        lemma_fill_skip(g, start, before, now, found, done, pending, cur, d as int);
                    }
                },
            }
            d += 1;
        }
    }
    proof {
        assert(pending =~= Seq::empty());
        lemma_fill_finish(g, start, before, marks(*seen), found, done, cur);
    }
    size
}

impl Board {
    /// The number of cells of the region of the cell in row `r` and column
    /// `c`: of the empty cells that a walk through empty cells reaches from
    /// it. It is 0 where the cell is not empty.
    pub fn region_size(&self, r: usize, c: usize) -> (size: usize)
        requires
            in_grid(r as int, c as int),
        ensures
            size == region(self@, (r as int, c as int)).len(),
    {
        if self.get(r, c) != '0' {
            proof {
                let p = (r as int, c as int);
                assert forall|q: Cell| !region(self@, p).contains(q) by {
                    if connected(self@, p, q) {
                        let path = choose|path: Seq<Cell>| #[trigger]
                            is_walk(self@, path) && path[0] == p && path.last() == q;
                        assert(open_at(self@, path[0].0, path[0].1));
                    }
                }
                assert(region(self@, p) =~= Set::empty());
            }
            return 0;
        }
        let mut seen: [[bool; 9]; 6] = [[false; 9]; 6];
        assert(marks(seen) =~= Set::empty());
        fill_region(self, &mut seen, r, c)
    }

    /// Whether every region of empty cells has a number of cells that five
    /// divides. Where one has not, no placing of pieces of five cells can
    /// fill the board; where all have, nothing is said. The board is left as
    /// it is.
    pub fn is_solvable(&mut self) -> (res: bool)
        ensures
            res == locally_solvable(old(self)@),
            *final(self) == *old(self),
    {
        let ghost g = self@;
        let mut seen: [[bool; 9]; 6] = [[false; 9]; 6];
        assert(marks(seen) =~= Set::empty());
        let mut r: usize = 0;
        while r < 6
            invariant
                r <= 6,
                *self == *old(self),
                g == self@,
                step_closed(g, marks(seen)),
                forall|p: Cell| #[trigger] marks(seen).contains(p) ==> region(g, p).len() % 5 == 0,
                forall|r2: int, c2: int|
                    r2 < r && #[trigger] open_at(g, r2, c2) ==> marks(seen).contains((r2, c2)),
            decreases 6 - r,
        {
            let mut c: usize = 0;
            while c < 9
                invariant
                    r < 6,
                    c <= 9,
                    *self == *old(self),
                    g == self@,
                    step_closed(g, marks(seen)),
                    forall|p: Cell| #[trigger]
                        marks(seen).contains(p) ==> region(g, p).len() % 5 == 0,
                    forall|r2: int, c2: int|
                        (r2 < r || (r2 == r && c2 < c)) && #[trigger] open_at(g, r2, c2) ==> marks(
                            seen,
                        ).contains((r2, c2)),
                decreases 9 - c,
            {
                if self.get(r, c) == '0' && !seen[r][c] {
                    let ghost start = (r as int, c as int);
                    let ghost before = marks(seen);
                    let size = fill_region(&*self, &mut seen, r, c);
                    if size % 5 != 0 {
                        assert(open_at(g, r as int, c as int));
                        return false;
                    }
                    proof {
                        lemma_connected_reflexive(g, start);
                        assert forall|p: Cell| #[trigger] marks(seen).contains(p) implies region(
                            g,
                            p,
                        ).len() % 5 == 0 by {
                            if !before.contains(p) {
                                lemma_region_shared(g, start, p);
                            }
                        }
                    }
                }
                c += 1;
            }
            r += 1;
        }
        true
    }
}

} // verus!
