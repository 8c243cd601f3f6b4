use calendar_puzzle::board::Board;
use calendar_puzzle::piece::{OrientedPiece, Piece};
use calendar_puzzle::search::{
    check_setup, pieces_are_anchored, pieces_are_pentominoes, pieces_identified, solve,
    try_placing_pieces, Mode, SearchError, CHECK_FOR_SOLVABILITY_THRESH, PIECE_CELLS,
};

fn oriented(id: char, cells: &[(usize, usize)]) -> OrientedPiece {
    let mut pattern = [['0'; 5]; 5];
    let mut top_index = 5;
    for &(r, c) in cells {
        pattern[r][c] = id;
        if r == 0 && c < top_index {
            top_index = c;
        }
    }
    OrientedPiece { pattern, top_index: top_index as u8 }
}

fn piece(id: char, shapes: &[[(usize, usize); 5]]) -> Piece {
    Piece { id, possible_pieces: shapes.iter().map(|cells| oriented(id, cells)).collect() }
}

// Ten of the twelve pentominoes, each in all its rotations and reflections.
fn catalog() -> Vec<Piece> {
    vec![
        piece(
            'f',
            &[
                [(0, 1), (0, 2), (1, 0), (1, 1), (2, 1)],
                [(0, 1), (1, 0), (1, 1), (1, 2), (2, 2)],
                [(0, 1), (1, 1), (1, 2), (2, 0), (2, 1)],
                [(0, 0), (1, 0), (1, 1), (1, 2), (2, 1)],
                [(0, 0), (0, 1), (1, 1), (1, 2), (2, 1)],
                [(0, 2), (1, 0), (1, 1), (1, 2), (2, 1)],
                [(0, 1), (1, 0), (1, 1), (2, 1), (2, 2)],
                [(0, 1), (1, 0), (1, 1), (1, 2), (2, 0)],
            ],
        ),
        piece(
            'i',
            &[
                [(0, 0), (1, 0), (2, 0), (3, 0), (4, 0)],
                [(0, 0), (0, 1), (0, 2), (0, 3), (0, 4)],
            ],
        ),
        piece(
            'l',
            &[
                [(0, 0), (1, 0), (2, 0), (3, 0), (3, 1)],
                [(0, 0), (0, 1), (0, 2), (0, 3), (1, 0)],
                [(0, 0), (0, 1), (1, 1), (2, 1), (3, 1)],
                [(0, 3), (1, 0), (1, 1), (1, 2), (1, 3)],
                [(0, 1), (1, 1), (2, 1), (3, 0), (3, 1)],
                [(0, 0), (1, 0), (1, 1), (1, 2), (1, 3)],
                [(0, 0), (0, 1), (1, 0), (2, 0), (3, 0)],
                [(0, 0), (0, 1), (0, 2), (0, 3), (1, 3)],
            ],
        ),
        piece(
            'n',
            &[
                [(0, 1), (1, 1), (2, 0), (2, 1), (3, 0)],
                [(0, 0), (0, 1), (1, 1), (1, 2), (1, 3)],
                [(0, 1), (1, 0), (1, 1), (2, 0), (3, 0)],
                [(0, 0), (0, 1), (0, 2), (1, 2), (1, 3)],
                [(0, 0), (1, 0), (2, 0), (2, 1), (3, 1)],
                [(0, 1), (0, 2), (0, 3), (1, 0), (1, 1)],
                [(0, 0), (1, 0), (1, 1), (2, 1), (3, 1)],
                [(0, 2), (0, 3), (1, 0), (1, 1), (1, 2)],
            ],
        ),
        piece(
            'p',
            &[
                [(0, 0), (0, 1), (1, 0), (1, 1), (2, 0)],
                [(0, 0), (0, 1), (0, 2), (1, 1), (1, 2)],
                [(0, 1), (1, 0), (1, 1), (2, 0), (2, 1)],
                [(0, 0), (0, 1), (1, 0), (1, 1), (1, 2)],
                [(0, 0), (0, 1), (1, 0), (1, 1), (2, 1)],
                [(0, 1), (0, 2), (1, 0), (1, 1), (1, 2)],
                [(0, 0), (1, 0), (1, 1), (2, 0), (2, 1)],
                [(0, 0), (0, 1), (0, 2), (1, 0), (1, 1)],
            ],
        ),
        piece(
            't',
            &[
                [(0, 0), (0, 1), (0, 2), (1, 1), (2, 1)],
                [(0, 2), (1, 0), (1, 1), (1, 2), (2, 2)],
                [(0, 1), (1, 1), (2, 0), (2, 1), (2, 2)],
                [(0, 0), (1, 0), (1, 1), (1, 2), (2, 0)],
            ],
        ),
        piece(
            'u',
            &[
                [(0, 0), (0, 2), (1, 0), (1, 1), (1, 2)],
                [(0, 0), (0, 1), (1, 0), (2, 0), (2, 1)],
                [(0, 0), (0, 1), (0, 2), (1, 0), (1, 2)],
                [(0, 0), (0, 1), (1, 1), (2, 0), (2, 1)],
            ],
        ),
        piece(
            'v',
            &[
                [(0, 0), (1, 0), (2, 0), (2, 1), (2, 2)],
                [(0, 0), (0, 1), (0, 2), (1, 0), (2, 0)],
                [(0, 0), (0, 1), (0, 2), (1, 2), (2, 2)],
                [(0, 2), (1, 2), (2, 0), (2, 1), (2, 2)],
            ],
        ),
        piece(
            'y',
            &[
                [(0, 1), (1, 0), (1, 1), (2, 1), (3, 1)],
                [(0, 2), (1, 0), (1, 1), (1, 2), (1, 3)],
                [(0, 0), (1, 0), (2, 0), (2, 1), (3, 0)],
                [(0, 0), (0, 1), (0, 2), (0, 3), (1, 1)],
                [(0, 0), (1, 0), (1, 1), (2, 0), (3, 0)],
                [(0, 0), (0, 1), (0, 2), (0, 3), (1, 2)],
                [(0, 1), (1, 1), (2, 0), (2, 1), (3, 1)],
                [(0, 1), (1, 0), (1, 1), (1, 2), (1, 3)],
            ],
        ),
        piece(
            'z',
            &[
                [(0, 0), (0, 1), (1, 1), (2, 1), (2, 2)],
                [(0, 2), (1, 0), (1, 1), (1, 2), (2, 0)],
                [(0, 1), (0, 2), (1, 1), (2, 0), (2, 1)],
                [(0, 0), (1, 0), (1, 1), (1, 2), (2, 2)],
            ],
        ),
    ]
}

fn pieces_named(ids: &str) -> Vec<Piece> {
    catalog().into_iter().filter(|p| ids.contains(p.id)).collect()
}

fn ids_of(pieces: &[Piece]) -> Vec<char> {
    pieces.iter().map(|p| p.id).collect()
}

fn dated(week_day: u8, day: u8, month: u8) -> Board {
    let mut board = Board::new();
    assert_eq!(board.set_date(week_day, day, month), Ok(()));
    board
}

fn monday_first_of_january_solved() -> [[char; 9]; 6] {
    [
        ['X', 'f', 'f', 'n', 'X', 'p', 'p', 'X', 'i'],
        ['f', 'f', 'n', 'n', 'p', 'p', 'p', 't', 'i'],
        ['y', 'f', 'n', 'v', 'z', 't', 't', 't', 'i'],
        ['y', 'y', 'n', 'v', 'z', 'z', 'z', 't', 'i'],
        ['y', 'v', 'v', 'v', 'l', 'u', 'z', 'u', 'i'],
        ['y', 'l', 'l', 'l', 'l', 'u', 'u', 'u', 'X'],
    ]
}

fn count_cells(cells: &[[char; 9]; 6], wanted: char) -> usize {
    cells.iter().flatten().filter(|&&c| c == wanted).count()
}

#[test]
fn catalog_passes_the_setup_check() {
    let pieces = catalog();
    assert_eq!(pieces.len(), 10);
    assert_eq!(pieces.iter().map(|p| p.possible_pieces.len()).sum::<usize>(), 58);
    assert!(pieces_are_pentominoes(&pieces));
    assert!(pieces_identified(&dated(1, 1, 1), &pieces));
    assert_eq!(check_setup(&dated(1, 1, 1), &pieces), Ok(()));
    assert_eq!(PIECE_CELLS, 5);
    assert_eq!(CHECK_FOR_SOLVABILITY_THRESH, 5);
}

#[test]
fn first_solution_for_monday_first_of_january() {
    let mut board = dated(1, 1, 1);
    let mut pieces = catalog();
    let solutions =
        solve(&mut board, &mut pieces, CHECK_FOR_SOLVABILITY_THRESH, Mode::FirstSolution).unwrap();
    assert_eq!(solutions.len(), 1);
    assert_eq!(solutions[0].cells(), monday_first_of_january_solved());
    assert!(solutions[0].is_full());
    // The board and the pieces come back as they were.
    assert_eq!(board.cells(), dated(1, 1, 1).cells());
    assert_eq!(ids_of(&pieces), ids_of(&catalog()));
}

#[test]
fn first_solution_for_sunday_fourteenth_of_december() {
    let mut board = dated(7, 14, 12);
    let mut pieces = catalog();
    let solutions =
        solve(&mut board, &mut pieces, CHECK_FOR_SOLVABILITY_THRESH, Mode::FirstSolution).unwrap();
    assert_eq!(solutions.len(), 1);
    assert_eq!(
        solutions[0].cells(),
        [
            ['f', 'i', 'i', 'i', 'i', 'i', 'l', 'z', 'z'],
            ['f', 'f', 'f', 'l', 'l', 'l', 'l', 'z', 'n'],
            ['t', 'f', 'y', 'y', 'y', 'y', 'z', 'z', 'n'],
            ['t', 't', 't', 'u', 'y', 'u', 'v', 'n', 'n'],
            ['t', 'p', 'p', 'u', 'u', 'u', 'v', 'n', 'X'],
            ['p', 'p', 'p', 'X', 'v', 'v', 'v', 'X', 'X'],
        ]
    );
}

#[test]
fn every_solution_is_full_and_keeps_the_blockers() {
    // The solved board of Monday, 1st of January, with eight pieces taken off again.
    let start = Board::from_cells([
            ['X', 'f', 'f', '0', 'X', '0', '0', 'X', '0'],
            ['f', 'f', '0', '0', '0', '0', '0', '0', '0'],
            ['y', 'f', '0', '0', '0', '0', '0', '0', '0'],
            ['y', 'y', '0', '0', '0', '0', '0', '0', '0'],
            ['y', '0', '0', '0', '0', '0', '0', '0', '0'],
            ['y', '0', '0', '0', '0', '0', '0', '0', 'X'],
        ]);
    let mut board = start.clone();
    let mut pieces = pieces_named("ilnptuvz");
    let solutions =
        solve(&mut board, &mut pieces, CHECK_FOR_SOLVABILITY_THRESH, Mode::AllSolutions).unwrap();
    assert_eq!(solutions.len(), 9);
    assert!(solutions.iter().any(|s| s.cells() == monday_first_of_january_solved()));
    for solution in &solutions {
        let cells = solution.cells();
        assert!(solution.is_full());
        assert_eq!(solution.count_open(), 0);
        assert_eq!(count_cells(&cells, 'X'), 4);
        assert_eq!(count_cells(&cells, '0'), 0);
        for p in catalog() {
            assert_eq!(count_cells(&cells, p.id), 5);
        }
        // 54 cells, less the four blockers, are covered by pieces.
        assert_eq!(54 - count_cells(&cells, 'X'), 50);
        // What was on the board before the search is still there.
        for r in 0..6 {
            for c in 0..9 {
                if start.get(r, c) != '0' {
                    assert_eq!(cells[r][c], start.get(r, c));
                }
            }
        }
    }
    assert_eq!(board.cells(), start.cells());
    assert_eq!(ids_of(&pieces), vec!['i', 'l', 'n', 'p', 't', 'u', 'v', 'z']);
}

#[test]
fn all_solutions_may_hold_a_board_twice() {
    // Three pieces taken off the solved board: the one way to put them back
    // is found in two orders.
    let start = Board::from_cells([
            ['X', '0', '0', 'n', 'X', 'p', 'p', 'X', 'i'],
            ['0', '0', 'n', 'n', 'p', 'p', 'p', 't', 'i'],
            ['0', '0', 'n', '0', 'z', 't', 't', 't', 'i'],
            ['0', '0', 'n', '0', 'z', 'z', 'z', 't', 'i'],
            ['0', '0', '0', '0', 'l', 'u', 'z', 'u', 'i'],
            ['0', 'l', 'l', 'l', 'l', 'u', 'u', 'u', 'X'],
        ]);
    let mut board = start.clone();
    let mut pieces = pieces_named("fvy");
    let solutions =
        solve(&mut board, &mut pieces, CHECK_FOR_SOLVABILITY_THRESH, Mode::AllSolutions).unwrap();
    assert_eq!(solutions.len(), 2);
    assert_eq!(solutions[0].cells(), monday_first_of_january_solved());
    assert_eq!(solutions[1].cells(), monday_first_of_january_solved());

    let first =
        solve(&mut board, &mut pieces, CHECK_FOR_SOLVABILITY_THRESH, Mode::FirstSolution).unwrap();
    assert_eq!(first.len(), 1);
    assert_eq!(first[0].cells(), monday_first_of_january_solved());
}

#[test]
fn the_threshold_does_not_change_what_is_found() {
    let start = Board::from_cells([
            ['X', 'f', 'f', '0', 'X', '0', '0', 'X', 'i'],
            ['f', 'f', '0', '0', '0', '0', '0', '0', 'i'],
            ['y', 'f', '0', 'v', '0', '0', '0', '0', 'i'],
            ['y', 'y', '0', 'v', '0', '0', '0', '0', 'i'],
            ['y', 'v', 'v', 'v', 'l', '0', '0', '0', 'i'],
            ['y', 'l', 'l', 'l', 'l', '0', '0', '0', 'X'],
        ]);
    let mut found = Vec::new();
    for threshold in [0, 1, 3, 5, 10, 100] {
        let mut board = start.clone();
        let mut pieces = pieces_named("nptuz");
        let solutions = solve(&mut board, &mut pieces, threshold, Mode::AllSolutions).unwrap();
        found.push(solutions.iter().map(|s| s.cells()).collect::<Vec<_>>());
    }
    assert_eq!(found[0].len(), 1);
    assert_eq!(found[0][0], monday_first_of_january_solved());
    for other in &found[1..] {
        assert_eq!(other, &found[0]);
    }
}

#[test]
fn search_without_a_solution_finds_nothing() {
    // Two pieces that cannot fill the ten cells left on the solved board.
    let start = Board::from_cells([
            ['X', 'f', 'f', 'n', 'X', 'p', 'p', 'X', 'i'],
            ['f', 'f', 'n', 'n', 'p', 'p', 'p', 't', 'i'],
            ['0', 'f', 'n', 'v', '0', 't', 't', 't', 'i'],
            ['0', '0', 'n', 'v', '0', '0', '0', 't', 'i'],
            ['0', 'v', 'v', 'v', 'l', 'u', '0', 'u', 'i'],
            ['0', 'l', 'l', 'l', 'l', 'u', 'u', 'u', 'X'],
        ]);
    let mut board = start.clone();
    let mut pieces = pieces_named("yz");
    assert_eq!(
        solve(&mut board, &mut pieces, 5, Mode::AllSolutions).unwrap().len(),
        1
    );
    // The shape of the second piece twice: no way to fill the board.
    let z = pieces_named("z").remove(0);
    pieces[0] = Piece {
        id: 'a',
        possible_pieces: z
            .possible_pieces
            .iter()
            .map(|o| {
                let mut pattern = o.pattern;
                for row in pattern.iter_mut() {
                    for cell in row.iter_mut() {
                        if *cell != '0' {
                            *cell = 'a';
                        }
                    }
                }
                OrientedPiece { pattern, top_index: o.top_index }
            })
            .collect(),
    };
    assert_eq!(ids_of(&pieces), vec!['a', 'z']);
    assert_eq!(check_setup(&board, &pieces), Ok(()));
    let all = solve(&mut board, &mut pieces, 5, Mode::AllSolutions).unwrap();
    assert!(all.is_empty());
    let first = solve(&mut board, &mut pieces, 5, Mode::FirstSolution).unwrap();
    assert!(first.is_empty());
    assert_eq!(board.cells(), start.cells());
}

#[test]
fn try_placing_pieces_appends_to_what_was_found() {
    let start = Board::from_cells([
            ['X', '0', '0', 'n', 'X', 'p', 'p', 'X', 'i'],
            ['0', '0', 'n', 'n', 'p', 'p', 'p', 't', 'i'],
            ['0', '0', 'n', '0', 'z', 't', 't', 't', 'i'],
            ['0', '0', 'n', '0', 'z', 'z', 'z', 't', 'i'],
            ['0', '0', '0', '0', 'l', 'u', 'z', 'u', 'i'],
            ['0', 'l', 'l', 'l', 'l', 'u', 'u', 'u', 'X'],
        ]);
    let mut board = start.clone();
    let mut pieces = pieces_named("fvy");
    let mut solutions = vec![Board::new()];
    let found = try_placing_pieces(&mut board, &mut pieces, &mut solutions, 5, Mode::AllSolutions);
    assert!(found);
    assert_eq!(solutions.len(), 3);
    assert_eq!(solutions[0].cells(), Board::new().cells());
    assert_eq!(solutions[1].cells(), monday_first_of_january_solved());
    let found = try_placing_pieces(&mut board, &mut pieces, &mut solutions, 5, Mode::FirstSolution);
    assert!(found);
    assert_eq!(solutions.len(), 4);
    assert_eq!(board.cells(), start.cells());
    assert_eq!(ids_of(&pieces), vec!['f', 'v', 'y']);

}

#[test]
fn full_board_with_no_piece_left_is_a_solution() {
    let mut full = Board::from_cells(monday_first_of_january_solved());
    let mut no_pieces: Vec<Piece> = Vec::new();
    for mode in [Mode::AllSolutions, Mode::FirstSolution] {
        let mut solutions = vec![Board::new()];
        assert!(try_placing_pieces(&mut full, &mut no_pieces, &mut solutions, 5, mode));
        assert_eq!(solutions.len(), 2);
        assert_eq!(solutions[0].cells(), Board::new().cells());
        assert_eq!(solutions[1].cells(), monday_first_of_january_solved());
        assert_eq!(full.cells(), monday_first_of_january_solved());
        assert!(no_pieces.is_empty());

        assert_eq!(check_setup(&full, &no_pieces), Ok(()));
        let solved = solve(&mut full, &mut no_pieces, 5, mode).unwrap();
        assert_eq!(solved.len(), 1);
        assert_eq!(solved[0].cells(), monday_first_of_january_solved());
    }
    // With a piece left over the full board is refused before any search.
    let mut left_over = pieces_named("z");
    // The board holds `z` already; take another identifier.
    left_over[0] = piece('a', &[[(0, 0), (0, 1), (1, 1), (2, 1), (2, 2)]]);
    assert_eq!(
        solve(&mut full, &mut left_over, 5, Mode::AllSolutions).unwrap_err(),
        SearchError::Coverage
    );
    // No piece for a board with empty cells: refused as well.
    let mut dated = dated(1, 1, 1);
    assert_eq!(
        solve(&mut dated, &mut no_pieces, 5, Mode::AllSolutions).unwrap_err(),
        SearchError::Coverage
    );
}

#[test]
fn piece_set_that_cannot_cover_the_board_is_refused() {
    let mut board = dated(1, 1, 1);
    // Nine pieces for fifty cells.
    let mut pieces = pieces_named("filnptuvy");
    assert_eq!(
        solve(&mut board, &mut pieces, 5, Mode::AllSolutions).unwrap_err(),
        SearchError::Coverage
    );
    assert_eq!(
        solve(&mut board, &mut pieces, 5, Mode::FirstSolution).unwrap_err(),
        SearchError::Coverage
    );
    assert_eq!(check_setup(&board, &pieces), Err(SearchError::Coverage));
    // Ten pieces for the 53 cells of a board without a date.
    let mut undated = Board::new();
    let mut pieces = catalog();
    assert_eq!(
        solve(&mut undated, &mut pieces, 5, Mode::AllSolutions).unwrap_err(),
        SearchError::Coverage
    );
    // Eleven pieces.
    let mut pieces = catalog();
    pieces.push(piece('w', &[[(0, 0), (1, 0), (1, 1), (2, 1), (2, 2)]]));
    assert_eq!(pieces.len(), 11);
    assert_eq!(
        solve(&mut board, &mut pieces, 5, Mode::AllSolutions).unwrap_err(),
        SearchError::Coverage
    );
    assert_eq!(board.cells(), dated(1, 1, 1).cells());
}

#[test]
fn pieces_that_cannot_be_told_apart_are_refused() {
    let board = dated(1, 1, 1);
    // Two pieces with one identifier.
    let mut pieces = catalog();
    pieces[3] = piece('f', &[[(0, 0), (0, 1), (0, 2), (0, 3), (0, 4)]]);
    assert!(!pieces_identified(&board, &pieces));
    assert_eq!(check_setup(&board, &pieces), Err(SearchError::Identifiers));
    // A piece whose identifier is the mark of a blocked cell.
    let mut pieces = catalog();
    pieces[0] = piece('X', &[[(0, 0), (0, 1), (0, 2), (0, 3), (0, 4)]]);
    assert_eq!(check_setup(&board, &pieces), Err(SearchError::Identifiers));
    // A piece that lies on the board already.
    let solved = Board::from_cells(monday_first_of_january_solved());
    assert_eq!(check_setup(&solved, &pieces_named("z")), Err(SearchError::Identifiers));
    // An orientation with a cell that shows another piece.
    let mut pieces = catalog();
    pieces[2].possible_pieces[1].pattern[0][0] = 'q';
    assert_eq!(check_setup(&board, &pieces), Err(SearchError::Identifiers));
    let mut board = board;
    assert_eq!(
        solve(&mut board, &mut pieces, 5, Mode::AllSolutions).unwrap_err(),
        SearchError::Identifiers
    );
}

#[test]
fn pieces_that_are_no_pentominoes_are_refused() {
    let board = dated(1, 1, 1);
    // Four cells.
    let mut pieces = catalog();
    pieces[1].possible_pieces[0].pattern[4][0] = '0';
    assert!(!pieces_are_pentominoes(&pieces));
    assert_eq!(check_setup(&board, &pieces), Err(SearchError::PieceShape));
    // Six cells.
    let mut pieces = catalog();
    pieces[1].possible_pieces[0].pattern[4][1] = 'i';
    assert_eq!(check_setup(&board, &pieces), Err(SearchError::PieceShape));
    // Five cells in two parts.
    let mut pieces = catalog();
    pieces[1] = piece('i', &[[(0, 0), (1, 0), (2, 0), (3, 0), (4, 1)]]);
    assert_eq!(pieces[1].possible_pieces[0].cell_count(), 5);
    assert!(!pieces[1].possible_pieces[0].is_contiguous());
    assert_eq!(check_setup(&board, &pieces), Err(SearchError::PieceShape));
    // A fault in the identifiers is named before one in the shapes.
    pieces[0].id = 'i';
    assert_eq!(check_setup(&board, &pieces), Err(SearchError::Identifiers));
    // A top index that is not on the first filled cell of the first row.
    let mut pieces = catalog();
    assert!(pieces_are_anchored(&pieces));
    assert_eq!(pieces[0].possible_pieces[0].top_index, 1);
    pieces[0].possible_pieces[0].top_index = 0;
    assert!(pieces_are_pentominoes(&pieces));
    assert!(!pieces_are_anchored(&pieces));
    assert_eq!(check_setup(&board, &pieces), Err(SearchError::PieceShape));
    // A pattern that is not pushed to the top of its square.
    let mut pieces = catalog();
    pieces[1].possible_pieces[0] = OrientedPiece {
        pattern: [
            ['0', '0', '0', '0', '0'],
            ['i', 'i', 'i', 'i', 'i'],
            ['0', '0', '0', '0', '0'],
            ['0', '0', '0', '0', '0'],
            ['0', '0', '0', '0', '0'],
        ],
        top_index: 0,
    };
    assert!(pieces_are_pentominoes(&pieces));
    assert_eq!(check_setup(&board, &pieces), Err(SearchError::PieceShape));
    // The marks of an empty and of a blocked cell are no identifiers.
    let mut pieces = catalog();
    pieces[0].id = '0';
    assert!(!pieces_identified(&board, &pieces));
    let mut pieces = catalog();
    pieces[0].id = 'X';
    assert!(!pieces_identified(&Board::from_cells([['0'; 9]; 6]), &pieces));
}

#[test]
fn all_solutions_for_monday_first_of_january() {
    let mut board = dated(1, 1, 1);
    let mut pieces = catalog();
    let solutions =
        solve(&mut board, &mut pieces, CHECK_FOR_SOLVABILITY_THRESH, Mode::AllSolutions).unwrap();
    assert!(!solutions.is_empty());
    assert_eq!(solutions.len(), 920);
    assert_eq!(solutions[0].cells(), monday_first_of_january_solved());
    for solution in &solutions {
        let cells = solution.cells();
        assert!(solution.is_full());
        assert_eq!(count_cells(&cells, 'X'), 4);
        for p in catalog() {
            assert_eq!(count_cells(&cells, p.id), 5);
        }
    }
    assert_eq!(board.cells(), dated(1, 1, 1).cells());
}
