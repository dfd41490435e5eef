use go_engine::colour::Colour;
use go_engine::coordinate::Coordinate;
use go_engine::fails::TurnErrors;
use go_engine::new_board::NewBoard;
use go_engine::new_game::{try_stone, Game, AUTO_PLAY};
use go_engine::turn::Turn;

fn stones(board: &NewBoard) -> usize {
    board.get_grid().iter().filter(|c| **c != Colour::Empty).count()
}

#[test]
fn a_new_game_on_the_counted_board() {
    assert!(AUTO_PLAY);
    let game = Game::new();
    assert_eq!(game.turn, Colour::Black);
    assert_eq!(stones(&game.board), 0);
    assert_eq!(game.zobrist.keys.len(), 361);
    assert!(game.zobrist.visited.is_empty());
    assert!(Game::moves_to_play(&game.board));
    assert_eq!(Game::get_all_possible_moves(&game.board, Colour::Black).len(), 361);
}

#[test]
fn trying_a_stone_leaves_the_board_alone() {
    let board = NewBoard::new();
    let next = try_stone(&board, Coordinate::Index(40), Colour::Black).unwrap();
    assert_eq!(stones(&board), 0);
    assert_eq!(next.get_grid()[40], Colour::Black);
    assert_eq!(next.group_counter, 1);
    assert!(matches!(
        try_stone(&next, Coordinate::Index(40), Colour::White),
        Err(TurnErrors::AlreadyPlaced)
    ));
    assert!(matches!(
        try_stone(&next, Coordinate::Index(361), Colour::White),
        Err(TurnErrors::OutofBounds)
    ));
    assert!(matches!(
        try_stone(&next, Coordinate::Position((19, 0)), Colour::White),
        Err(TurnErrors::OutofBounds)
    ));
    let corner = try_stone(&next, Coordinate::Position((18, 18)), Colour::White).unwrap();
    assert_eq!(corner.get_grid()[360], Colour::White);
}

#[test]
fn open_points_are_the_empty_cells_in_order() {
    let board = NewBoard::new();
    let board = try_stone(&board, Coordinate::Index(0), Colour::Black).unwrap();
    let board = try_stone(&board, Coordinate::Index(2), Colour::White).unwrap();
    let moves: Vec<usize> = Game::get_all_possible_moves(&board, Colour::Black)
        .iter()
        .map(|m| m.get_index())
        .collect();
    assert_eq!(moves.len(), 359);
    assert_eq!(&moves[..3], &[1, 3, 4]);
    assert_eq!(moves[358], 360);
    assert!(!moves.contains(&0));
    assert!(!moves.contains(&2));
}

#[test]
fn a_move_is_answered() {
    let mut game = Game::new();
    assert!(game.play_move(Coordinate::Index(180)));
    // the player's stone and the answer
    assert_eq!(game.board.get_grid()[180], Colour::Black);
    assert_eq!(stones(&game.board), 2);
    assert_eq!(
        game.board.get_grid().iter().filter(|c| **c == Colour::White).count(),
        1
    );
    assert_eq!(game.turn, Colour::Black);
    assert_eq!(game.zobrist.visited.len(), 2);
    assert_eq!(game.board.group_counter, 2);
}

#[test]
fn a_move_that_cannot_be_played_changes_nothing() {
    let mut game = Game::new();
    assert!(game.play_move(Coordinate::Index(180)));
    let grid = game.board.get_grid().clone();
    assert!(!game.play_move(Coordinate::Index(180)));
    assert!(!game.play_move(Coordinate::Index(361)));
    assert_eq!(*game.board.get_grid(), grid);
    assert_eq!(game.turn, Colour::Black);
    assert_eq!(game.zobrist.visited.len(), 2);
    assert_eq!(game.board.group_counter, 2);
}

#[test]
fn a_remembered_position_is_not_played_again() {
    let mut game = Game::new();
    // remember the position with one black stone on the first point
    let mut grid = vec![Colour::Empty; 361];
    grid[0] = Colour::Black;
    game.zobrist.insert_position(&grid);
    assert!(!game.play_move(Coordinate::Index(0)));
    assert_eq!(stones(&game.board), 0);
    assert_eq!(game.turn, Colour::Black);
    assert_eq!(game.zobrist.visited.len(), 1);
    assert!(game.play_move(Coordinate::Index(1)));
}

#[test]
fn passes_and_resignations_hand_the_move_over() {
    let mut game = Game::new();
    game.play_turn(Turn::Pass);
    assert_eq!(game.turn, Colour::White);
    game.play_turn(Turn::Resign);
    assert_eq!(game.turn, Colour::Black);
    assert_eq!(stones(&game.board), 0);
    game.swap_turn();
    assert_eq!(game.turn, Colour::White);
    game.play_turn(Turn::Move(Coordinate::Index(5)));
    assert_eq!(game.board.get_grid()[5], Colour::White);
    assert_eq!(game.turn, Colour::White);
}

#[test]
fn an_answer_takes_an_open_point() {
    let mut game = Game::new();
    game.auto_move();
    assert_eq!(stones(&game.board), 1);
    assert_eq!(game.turn, Colour::White);
    assert_eq!(game.zobrist.visited.len(), 1);
    game.auto_move();
    assert_eq!(stones(&game.board), 2);
    assert_eq!(game.turn, Colour::Black);
}

#[test]
fn random_picks_come_from_the_list_or_fall_off_the_board() {
    let game = Game::new();
    assert_eq!(game.play_random_move(&Vec::new()).get_index(), 362);
    let moves = vec![Coordinate::Index(3), Coordinate::Index(9)];
    for _ in 0..40 {
        let picked = game.play_random_move(&moves).get_index();
        assert!(picked == 3 || picked == 9);
    }
}

#[test]
fn a_copy_of_the_board_is_independent() {
    let mut board = NewBoard::new();
    board.add_stone(Coordinate::Index(7), Colour::Black);
    let copy = board.clone();
    board.add_stone(Coordinate::Index(8), Colour::White);
    assert_eq!(copy.get_grid()[7], Colour::Black);
    assert_eq!(copy.get_grid()[8], Colour::Empty);
    assert_eq!(copy.group_counter, 1);
    assert_eq!(copy.group_map.len(), 1);
}
