//! The drawing of a board: the borders between its pieces, in box-drawing
//! characters.

use crate::board::Board;
use crate::grid::{in_grid, Grid};
use vstd::prelude::*;

verus! {

/// The box-drawing character for a crossing of lines, by the weight of the
/// line that leaves it upwards, to the right, downwards and to the left, in
/// this order: 0 for no line, 1 for a light and 2 for a heavy one.
pub const BOX_CHARS: [[[[char; 3]; 3]; 3]; 3] = [
    [
        [[' ', '\u{2574}', '\u{2578}'], ['\u{2577}', '\u{2510}', '\u{2511}'], ['\u{257b}', '\u{2512}', '\u{2513}']],
        [['\u{2576}', '\u{2500}', '\u{257e}'], ['\u{250c}', '\u{252c}', '\u{252d}'], ['\u{250e}', '\u{2530}', '\u{2531}']],
        [['\u{257a}', '\u{257c}', '\u{2501}'], ['\u{250d}', '\u{252e}', '\u{252f}'], ['\u{250f}', '\u{2532}', '\u{2533}']],
    ],
    [
        [['\u{2575}', '\u{2518}', '\u{2519}'], ['\u{2502}', '\u{2524}', '\u{2525}'], ['\u{257d}', '\u{2527}', '\u{252a}']],
        [['\u{2514}', '\u{2534}', '\u{2535}'], ['\u{251c}', '\u{253c}', '\u{253d}'], ['\u{251f}', '\u{2541}', '\u{2545}']],
        [['\u{2515}', '\u{2536}', '\u{2537}'], ['\u{251d}', '\u{253e}', '\u{253f}'], ['\u{2522}', '\u{2546}', '\u{2548}']],
    ],
    [
        [['\u{2579}', '\u{251a}', '\u{251b}'], ['\u{257f}', '\u{2526}', '\u{2529}'], ['\u{2503}', '\u{2528}', '\u{252b}']],
        [['\u{2516}', '\u{2538}', '\u{2539}'], ['\u{251e}', '\u{2540}', '\u{2543}'], ['\u{2520}', '\u{2542}', '\u{2549}']],
        [['\u{2517}', '\u{253a}', '\u{253b}'], ['\u{2521}', '\u{2544}', '\u{2547}'], ['\u{2523}', '\u{254a}', '\u{254b}']],
    ],
];

/// Rows of the drawing: one for each row of crossings.
pub const DRAWING_LINES: usize = 7;

/// Characters in a row of the drawing: ten crossings and the end of the line.
pub const DRAWING_WIDTH: usize = 11;

/// The cell `(r, c)` of the grid, or a blocked cell where `(r, c)` is not on
/// the grid: the board is drawn as if blocked cells lay all around it.
pub open spec fn cell_or_wall(g: Grid, r: int, c: int) -> char {
    if in_grid(r, c) {
        g[r][c]
    } else {
        'X'
    }
}

/// The weight of the line between two neighbouring cells: none where both
/// hold the same, heavy where one of them is blocked, light otherwise.
pub open spec fn line_weight(a: char, b: char) -> int {
    if a == b {
        0
    } else if a == 'X' || b == 'X' {
        2
    } else {
        1
    }
}

/// The character at the crossing above and left of the cell `(i, j)`: the
/// four lines that leave it lie between the four cells around it.
pub open spec fn crossing(g: Grid, i: int, j: int) -> char {
    let above_left = cell_or_wall(g, i - 1, j - 1);
    let above_right = cell_or_wall(g, i - 1, j);
    let below_right = cell_or_wall(g, i, j);
    let below_left = cell_or_wall(g, i, j - 1);
    BOX_CHARS[line_weight(above_left, above_right)][line_weight(above_right, below_right)][line_weight(
        below_right,
        below_left,
    )][line_weight(below_left, above_left)]
}

/// The drawing of a grid: seven rows of ten crossings, each row ended by a
/// line feed.
pub open spec fn drawing(g: Grid) -> Seq<char> {
    Seq::new(
        77,
        |n: int|
            if n % 11 == 10 {
                '\n'
            } else {
                crossing(g, n / 11, n % 11)
            },
    )
}

/// `String::push` of std: appends the character to the end of the text.
#[verifier::external_body]
fn push_char(text: &mut String, c: char)
    ensures
        final(text)@ == old(text)@.push(c),
{
    text.push(c)
}

/// The weight of the line between two neighbouring cells.
fn weight_between(a: char, b: char) -> (w: usize)
    ensures
        w == line_weight(a, b),
        w < 3,
{
    if a == b {
        0
    } else if a == 'X' || b == 'X' {
        2
    } else {
        1
    }
}

impl Board {
    /// The cell in row `r1 - 1` and column `c1 - 1`, or a blocked cell where
    /// that is off the board.
    fn cell_or_wall(&self, r1: usize, c1: usize) -> (cell: char)
        requires
            r1 <= 7,
            c1 <= 10,
        ensures
            cell == cell_or_wall(self@, r1 - 1, c1 - 1),
    {
        if 1 <= r1 && r1 <= 6 && 1 <= c1 && c1 <= 9 {
            self.get(r1 - 1, c1 - 1)
        } else {
            'X'
        }
    }

    /// The drawing of the board: a line between two cells that hold
    /// different pieces, a heavy line round blocked cells and round the
    /// board, and nothing inside a piece.
    pub fn render(&self) -> (text: String)
        ensures
            text@ == drawing(self@),
    {
        let mut text = String::new();
        let mut i: usize = 0;
        while i < DRAWING_LINES
            invariant
                i <= 7,
                text@.len() == 11 * i,
                forall|n: int| 0 <= n < text@.len() ==> text@[n] == drawing(self@)[n],
            decreases 7 - i,
        {
            let mut j: usize = 0;
            while j < DRAWING_WIDTH - 1
                invariant
                    i < 7,
                    j <= 10,
                    text@.len() == 11 * i + j,
                    forall|n: int| 0 <= n < text@.len() ==> text@[n] == drawing(self@)[n],
                decreases 10 - j,
            {
                let above_left = self.cell_or_wall(i, j);
                let above_right = self.cell_or_wall(i, j + 1);
                let below_right = self.cell_or_wall(i + 1, j + 1);
                let below_left = self.cell_or_wall(i + 1, j);
                let up = weight_between(above_left, above_right);
                let right = weight_between(above_right, below_right);
                let down = weight_between(below_right, below_left);
                let left = weight_between(below_left, above_left);
                push_char(&mut text, BOX_CHARS[up][right][down][left]);
                j += 1;
            }
            push_char(&mut text, '\n');
            i += 1;
        }
        assert(text@ =~= drawing(self@));
        text
    }
}

} // verus!
