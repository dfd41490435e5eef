use go_engine::board_state::BoardState;
use go_engine::colour::Colour;
use go_engine::coordinate::Coordinate;

fn board_of(size: usize, moves: &[(usize, Colour)]) -> BoardState {
    let mut current = BoardState::new(size);
    for (cell, colour) in moves {
        current = current.add_stone(Coordinate::Index(*cell), *colour).unwrap();
    }
    current
}

#[test]
fn current_groups_are_those_on_the_board() {
    let board = BoardState::new(5);
    assert!(board._get_current_groups().is_empty());
    let board = board_of(5, &[(6, Colour::Black), (8, Colour::Black), (20, Colour::White)]);
    let current = board._get_current_groups();
    let ids: Vec<usize> = current.iter().map(|g| g._get_id()).collect();
    assert_eq!(ids, vec![0, 1, 2]);
    assert!(board._contains(&current[1]));
    let after = board.add_stone(Coordinate::Index(7), Colour::Black).unwrap();
    let ids: Vec<usize> = after._get_current_groups().iter().map(|g| g._get_id()).collect();
    assert_eq!(ids, vec![3, 2]);
    assert!(!after._contains(&current[0]));
    assert!(after._contains(&current[2]));
    assert!(after._find_group(Coordinate::Index(7)).is_some());
    assert!(after._find_group(Coordinate::Index(0)).is_none());
    assert_eq!(after._find_group(Coordinate::Position((1, 1))).unwrap()._get_id(), 3);
}

#[test]
fn replaying_colours_rebuilds_the_position() {
    let board = board_of(5, &[(6, Colour::Black), (8, Colour::White), (12, Colour::Black)]);
    let grid = board.get_grid();
    let again = BoardState::from_colours(&grid, 5).unwrap();
    assert_eq!(again.get_grid(), grid);
    assert_eq!(again.group_counter, 3);
    // Black on 0, White on 1, then White on 3 takes the corner
    let enclosed = vec![
        Colour::Black,
        Colour::White,
        Colour::Empty,
        Colour::White,
        Colour::Empty,
        Colour::Empty,
        Colour::Empty,
        Colour::Empty,
        Colour::Empty,
    ];
    let replayed = BoardState::from_colours(&enclosed, 3).unwrap();
    assert_eq!(replayed.get_grid()[0], Colour::Empty);
    assert_eq!(replayed.get_grid()[3], Colour::White);
    // more colours than cells: the stone off the board fails the replay
    let too_long = vec![Colour::Black; 10];
    assert!(BoardState::from_colours(&too_long, 3).is_err());
}

#[test]
fn helpers_of_a_move() {
    let board = board_of(5, &[(6, Colour::Black), (8, Colour::Black), (7, Colour::White)]);
    let indices: Vec<usize> = BoardState::get_adjacent_indices(5, Coordinate::Index(7))
        .iter()
        .map(|c| c.get_index())
        .collect();
    assert_eq!(indices, vec![2, 6, 12, 8]);
    assert!(board.check_empty(Coordinate::Index(0)));
    assert!(!board.check_empty(Coordinate::Index(7)));
    assert_eq!(
        BoardState::remove_groups(&board.groups, vec![0, 2])[6..9].to_vec(),
        vec![None, None, Some(1)]
    );
    let cleaned = BoardState::clean_map(board.group_map.clone(), &vec![Some(1), None]);
    assert_eq!(cleaned.len(), 1);
    assert!(cleaned.contains_key(&1));
    let grid = BoardState::generate_grid_from_groups(&board.groups, &board.group_map, 5);
    assert_eq!(grid, board.get_grid());
    assert_eq!(grid[6], Colour::Black);
    assert_eq!(grid[7], Colour::White);
    // White on 7 touches Black on 6 and 8 but no white group
    assert!(BoardState::find_adjacent_groups(
        &board.groups,
        &board.group_map,
        Coordinate::Index(7),
        Colour::White,
        5
    )
    .is_empty());
    let (owners, untouched) = BoardState::check_opposing_adjacent_liberties(
        &board.groups,
        &board.group_map,
        5,
        Coordinate::Index(7),
    );
    assert!(untouched);
    assert_eq!(owners, board.groups);
}

#[test]
fn friends_and_victims_of_a_stone() {
    //  . . . . .
    //  . B W . .      White on 7 has the liberties 2, 8 and 12; Black plays
    //  . . B . .      them one by one
    let board = board_of(
        5,
        &[(6, Colour::Black), (7, Colour::White), (12, Colour::Black), (2, Colour::Black)],
    );
    let found = BoardState::find_adjacent_groups(
        &board.groups,
        &board.group_map,
        Coordinate::Index(6),
        Colour::Black,
        5,
    );
    assert!(found.is_empty());
    let after = board.add_stone(Coordinate::Index(8), Colour::Black).unwrap();
    assert_eq!(after.get_grid()[7], Colour::Empty);
    assert_eq!(after.group_map.len(), 4);
    // the hash of the position is remembered
    assert_eq!(after.zobrist_table.visited.len(), 5);
    assert!(after.zobrist_table.contains_position(&after.get_grid()));
}

#[test]
fn replaying_on_a_given_board() {
    let start = board_of(3, &[(4, Colour::Black)]);
    let keys = start.zobrist_table.keys.clone();
    let colours = vec![Colour::White, Colour::Empty, Colour::Black];
    let after = BoardState::replay_on(start, &colours).unwrap();
    assert_eq!(
        after.get_grid(),
        vec![
            Colour::White,
            Colour::Empty,
            Colour::Black,
            Colour::Empty,
            Colour::Black,
            Colour::Empty,
            Colour::Empty,
            Colour::Empty,
            Colour::Empty,
        ]
    );
    assert_eq!(after.group_counter, 3);
    assert_eq!(after.zobrist_table.keys, keys);
    assert_eq!(after.zobrist_table.visited.len(), 3);
    // a stone on a stone fails the replay with that rule
    let start = board_of(3, &[(1, Colour::Black)]);
    let colours = vec![Colour::Empty, Colour::White];
    assert!(matches!(
        BoardState::replay_on(start, &colours),
        Err(go_engine::fails::TurnErrors::AlreadyPlaced)
    ));
    // no stones: the board comes back as it was
    let start = board_of(3, &[(1, Colour::Black)]);
    let same = BoardState::replay_on(start, &[]).unwrap();
    assert_eq!(same.get_grid()[1], Colour::Black);
    assert_eq!(same.group_counter, 1);
}

#[test]
fn a_board_put_together_by_hand_can_be_read() {
    // the stones of another board, without its history
    let played = board_of(3, &[(4, Colour::Black), (0, Colour::White)]);
    let mut board = BoardState::new(3);
    board.groups = played.groups.clone();
    board.group_map = played.group_map.clone();
    board.group_counter = played.group_counter;
    assert_eq!(board.get_grid(), played.get_grid());
    assert!(!board.check_empty(Coordinate::Index(4)));
    assert!(board.check_empty(Coordinate::Index(1)));
    assert_eq!(board._find_group(Coordinate::Index(0)).unwrap()._get_id(), 1);
    assert_eq!(board._get_current_groups().len(), 2);
    assert!(!board.check_all_important_points_played());
}
