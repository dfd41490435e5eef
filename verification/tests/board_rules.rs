use go_engine::board_state::BoardState;
use go_engine::colour::Colour;
use go_engine::coordinate::Coordinate;
use go_engine::fails::TurnErrors;

fn play(board: &BoardState, moves: &[(usize, Colour)]) -> BoardState {
    let mut current = board.clone();
    for (cell, colour) in moves {
        current = current.add_stone(Coordinate::Index(*cell), *colour).unwrap();
    }
    current
}

#[test]
fn new_board_is_empty() {
    let board = BoardState::new(5);
    assert_eq!(board.size, 5);
    assert_eq!(board.get_grid(), vec![Colour::Empty; 25]);
    assert_eq!(board.group_counter, 0);
    assert!(board.group_map.is_empty());
}

#[test]
fn add_stone_leaves_the_receiver_alone() {
    let board = BoardState::new(5);
    let before = board.get_grid();
    let next = board.add_stone(Coordinate::Index(12), Colour::Black).unwrap();
    assert_eq!(board.get_grid(), before);
    assert_eq!(board.group_counter, 0);
    assert_eq!(next.get_grid()[12], Colour::Black);
    assert_eq!(next.group_counter, 1);
}

#[test]
fn capture_comes_before_suicide() {
    // White at 12 is enclosed by Black at 7, 11, 13 and, last, 17.
    let board = BoardState::new(5);
    let board = play(
        &board,
        &[(12, Colour::White), (7, Colour::Black), (11, Colour::Black), (13, Colour::Black)],
    );
    let after = board.add_stone(Coordinate::Index(17), Colour::Black).unwrap();
    let grid = after.get_grid();
    assert_eq!(grid[12], Colour::Empty);
    assert_eq!(grid[17], Colour::Black);
    assert_eq!(after.group_map.len(), 4);
}

#[test]
fn atari_capture_with_no_own_liberty_is_legal() {
    // Corner: White at 0, Black at 1. White at 5 would be atari; Black takes
    // the corner stone by playing where it has no liberty of its own.
    //   W B . . .
    //   . W . . .     Black plays 5: its stone touches 0 (White), 6 (White),
    //   W . . . .     10 (White): no liberty, but White 0 has none either.
    let board = BoardState::new(5);
    let board = play(
        &board,
        &[(0, Colour::White), (1, Colour::Black), (6, Colour::White), (10, Colour::White)],
    );
    let after = board.add_stone(Coordinate::Index(5), Colour::Black).unwrap();
    let grid = after.get_grid();
    assert_eq!(grid[0], Colour::Empty);
    assert_eq!(grid[5], Colour::Black);
}

#[test]
fn suicide_is_rejected() {
    let board = BoardState::new(5);
    let board = play(&board, &[(1, Colour::White), (5, Colour::White)]);
    let before = board.get_grid();
    let result = board.add_stone(Coordinate::Index(0), Colour::Black);
    assert!(matches!(result, Err(TurnErrors::Suicide)));
    assert_eq!(board.get_grid(), before);
}

#[test]
fn already_placed_is_rejected() {
    let board = BoardState::new(5);
    let next = board.add_stone(Coordinate::Index(3), Colour::Black).unwrap();
    assert!(matches!(
        next.add_stone(Coordinate::Index(3), Colour::White),
        Err(TurnErrors::AlreadyPlaced)
    ));
    assert!(matches!(
        next.add_stone(Coordinate::Position((0, 3)), Colour::Black),
        Err(TurnErrors::AlreadyPlaced)
    ));
}

#[test]
fn out_of_bounds_is_rejected_for_every_colour() {
    let board = BoardState::new(5);
    for colour in [Colour::Black, Colour::White, Colour::Empty] {
        assert!(matches!(
            board.add_stone(Coordinate::Index(25), colour),
            Err(TurnErrors::OutofBounds)
        ));
        assert!(matches!(
            board.add_stone(Coordinate::Index(usize::MAX), colour),
            Err(TurnErrors::OutofBounds)
        ));
        assert!(matches!(
            board.add_stone(Coordinate::Position((5, 0)), colour),
            Err(TurnErrors::OutofBounds)
        ));
    }
}

#[test]
fn simple_ko_is_rejected() {
    //   . B W .      Black: 1, 4, 9;  White: 2, 7, 10, then White takes at 5?
    // Classic ko on a 4x4 board:
    //   . B W .
    //   B W . W
    //   . B W .
    //   . . . .
    // Black plays 6 and captures White 5; White may not retake at 5.
    let board = BoardState::new(4);
    let board = play(
        &board,
        &[
            (1, Colour::Black),
            (2, Colour::White),
            (4, Colour::Black),
            (7, Colour::White),
            (9, Colour::Black),
            (10, Colour::White),
            (15, Colour::Black),
            (5, Colour::White),
        ],
    );
    let after = board.add_stone(Coordinate::Index(6), Colour::Black).unwrap();
    assert_eq!(after.get_grid()[5], Colour::Empty);
    assert!(matches!(
        after.add_stone(Coordinate::Index(5), Colour::White),
        Err(TurnErrors::Ko)
    ));
}

#[test]
fn merge_joins_groups() {
    // Black at 6 and 8, then 7 between them.
    let board = BoardState::new(5);
    let board = play(&board, &[(6, Colour::Black), (8, Colour::Black)]);
    assert_eq!(board.group_map.len(), 2);
    let after = board.add_stone(Coordinate::Index(7), Colour::Black).unwrap();
    assert_eq!(after.group_map.len(), 1);
    let id = after.groups[7].unwrap();
    assert_eq!(after.groups[6], Some(id));
    assert_eq!(after.groups[8], Some(id));
    let group = after.group_map.get(&id).unwrap();
    let mut cells: Vec<usize> = group.get_points().iter().copied().collect();
    cells.sort();
    assert_eq!(cells, vec![6, 7, 8]);
    // {1, 2, 3, 5, 9, 11, 12, 13}
    assert_eq!(group.calculate_liberties(&after.get_grid(), 5), 8);
}
