use calendar_puzzle::board::{Board, DateError};
use calendar_puzzle::piece::OrientedPiece;

#[test]
fn check_new_board() {
    let b = Board::new();
    assert_eq!(
        b.cells(),
        [
            ['0', '0', '0', '0', '0', '0', '0', '0', '0'],
            ['0', '0', '0', '0', '0', '0', '0', '0', '0'],
            ['0', '0', '0', '0', '0', '0', '0', '0', '0'],
            ['0', '0', '0', '0', '0', '0', '0', '0', '0'],
            ['0', '0', '0', '0', '0', '0', '0', '0', '0'],
            ['0', '0', '0', '0', '0', '0', '0', '0', 'X']
        ]
    );
}

#[test]
fn check_some_dates() {
    let mut b: Board = Board::new();
    assert_eq!(b.set_date(1, 1, 1), Ok(()));
    assert_eq!(
        b.cells(),
        [
            ['X', '0', '0', '0', 'X', '0', '0', 'X', '0'],
            ['0', '0', '0', '0', '0', '0', '0', '0', '0'],
            ['0', '0', '0', '0', '0', '0', '0', '0', '0'],
            ['0', '0', '0', '0', '0', '0', '0', '0', '0'],
            ['0', '0', '0', '0', '0', '0', '0', '0', '0'],
            ['0', '0', '0', '0', '0', '0', '0', '0', 'X']
        ]
    );

    b = Board::new();
    assert_eq!(b.set_date(4, 13, 8), Ok(()));
    assert_eq!(
        b.cells(),
        [
            ['0', '0', '0', '0', '0', '0', '0', '0', '0'],
            ['0', '0', '0', '0', '0', '0', '0', '0', '0'],
            ['0', '0', '0', '0', 'X', '0', '0', 'X', '0'],
            ['0', '0', '0', '0', '0', '0', '0', '0', '0'],
            ['X', '0', '0', '0', '0', '0', '0', '0', '0'],
            ['0', '0', '0', '0', '0', '0', '0', '0', 'X']
        ]
    );

    b = Board::new();
    assert_eq!(b.set_date(7, 14, 12), Ok(()));
    assert_eq!(
        b.cells(),
        [
            ['0', '0', '0', '0', '0', '0', '0', '0', '0'],
            ['0', '0', '0', '0', '0', '0', '0', '0', '0'],
            ['0', '0', '0', '0', '0', '0', '0', '0', '0'],
            ['0', '0', '0', '0', '0', '0', '0', '0', '0'],
            ['0', '0', '0', '0', '0', '0', '0', '0', 'X'],
            ['0', '0', '0', 'X', '0', '0', '0', 'X', 'X']
        ]
    );
}

#[test]
#[should_panic]
fn wrong_date() {
    let mut b: Board = Board::new();
    b.set_date(8, 1, 1).unwrap();
}

#[test]
fn solvable() {
    let mut b: Board = Board::new();
    assert_eq!(b.set_date(1, 2, 3), Ok(()));
    assert_eq!(true, b.is_solvable());
    assert_eq!(
        b.cells(),
        [
            ['0', '0', 'X', '0', '0', 'X', '0', 'X', '0'],
            ['0', '0', '0', '0', '0', '0', '0', '0', '0'],
            ['0', '0', '0', '0', '0', '0', '0', '0', '0'],
            ['0', '0', '0', '0', '0', '0', '0', '0', '0'],
            ['0', '0', '0', '0', '0', '0', '0', '0', '0'],
            ['0', '0', '0', '0', '0', '0', '0', '0', 'X']
        ]
    );

    b = Board::from_cells([
        ['0', '0', '0', '0', 'j', '0', '0', '0', '0'],
        ['0', '0', '0', '0', 'j', 'j', 'j', 'j', '0'],
        ['w', 'w', 'w', '0', 'X', '0', '0', 'X', '0'],
        ['0', '0', 'w', '0', 'f', '0', '0', '0', '0'],
        ['X', '0', 'w', 'f', '0', '0', '0', '0', '0'],
        ['0', '0', 'f', 'f', 'f', '0', '0', '0', 'X'],
    ]);
    assert_eq!(true, b.is_solvable());
    assert_eq!(
        b.cells(),
        [
            ['0', '0', '0', '0', 'j', '0', '0', '0', '0'],
            ['0', '0', '0', '0', 'j', 'j', 'j', 'j', '0'],
            ['w', 'w', 'w', '0', 'X', '0', '0', 'X', '0'],
            ['0', '0', 'w', '0', 'f', '0', '0', '0', '0'],
            ['X', '0', 'w', 'f', '0', '0', '0', '0', '0'],
            ['0', '0', 'f', 'f', 'f', '0', '0', '0', 'X'],
        ]
    );
}

#[test]
fn tricky_placement_offset() {
    let mut b: Board = Board::new();
    assert_eq!(b.set_date(1, 1, 1), Ok(()));
    b.place_piece_on_top_left(&OrientedPiece {
        pattern: [
            ['0', 'f', '0', '0', '0'],
            ['f', 'f', 'f', '0', '0'],
            ['0', '0', 'f', '0', '0'],
            ['0', '0', '0', '0', '0'],
            ['0', '0', '0', '0', '0'],
        ],
        top_index: 1,
    });
    b.place_piece_on_top_left(&OrientedPiece {
        pattern: [
            ['l', 'l', '0', '0', '0'],
            ['0', 'l', '0', '0', '0'],
            ['0', 'l', '0', '0', '0'],
            ['0', 'l', '0', '0', '0'],
            ['0', '0', '0', '0', '0'],
        ],
        top_index: 0,
    });
    b.place_piece_on_top_left(&OrientedPiece {
        pattern: [
            ['0', 'q', 'q', '0', '0'],
            ['q', 'q', 'q', '0', '0'],
            ['0', '0', '0', '0', '0'],
            ['0', '0', '0', '0', '0'],
            ['0', '0', '0', '0', '0'],
        ],
        top_index: 1,
    });
    assert_eq!(
        b.cells(),
        [
            ['X', 'f', 'l', 'l', 'X', 'q', 'q', 'X', '0'],
            ['f', 'f', 'f', 'l', 'q', 'q', 'q', '0', '0'],
            ['0', '0', 'f', 'l', '0', '0', '0', '0', '0'],
            ['0', '0', '0', 'l', '0', '0', '0', '0', '0'],
            ['0', '0', '0', '0', '0', '0', '0', '0', '0'],
            ['0', '0', '0', '0', '0', '0', '0', '0', 'X'],
        ]
    );
    assert_eq!(
        b.place_piece_on_top_left(&OrientedPiece {
            pattern: [
                ['0', 'y', '0', '0', '0'],
                ['y', 'y', '0', '0', '0'],
                ['0', 'y', '0', '0', '0'],
                ['0', 'y', '0', '0', '0'],
                ['0', '0', '0', '0', '0'],
            ],
            top_index: 1,
        }),
        true
    );
}

#[test]
fn out_of_range_dates_are_refused_in_order() {
    let mut b = Board::new();
    assert_eq!(b.set_date(0, 0, 0), Err(DateError::WeekDay));
    assert_eq!(b.set_date(8, 1, 1), Err(DateError::WeekDay));
    assert_eq!(b.set_date(1, 32, 13), Err(DateError::Day));
    assert_eq!(b.set_date(7, 31, 13), Err(DateError::Month));
    assert_eq!(b.cells(), Board::new().cells());
}
