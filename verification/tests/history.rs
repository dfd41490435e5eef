use go_engine::board_state::BoardState;
use go_engine::colour::Colour;
use go_engine::coordinate::Coordinate;
use go_engine::fails::TreeErrors;
use go_engine::game_state::GameState;
use go_engine::tree::GameTree;
use go_engine::turn::Turn;

#[test]
fn a_new_history_holds_the_empty_board() {
    let tree = GameTree::new(5);
    assert_eq!(tree.get_pointer(), 0);
    assert_eq!(tree.get_length(), 0);
    assert!(tree.up_to_date());
    assert!(!tree.check_end());
    assert!(tree.get_last_move().is_none());
    let (colour, board) = tree.get_board();
    assert_eq!(colour, Colour::Black);
    assert_eq!(board.get_grid(), vec![Colour::Empty; 25]);
}

#[test]
fn the_pointer_moves_within_the_history() {
    let mut tree = GameTree::new(3);
    assert!(matches!(tree.move_back(), Err(TreeErrors::BelowZero)));
    assert!(matches!(tree.move_forward(), Err(TreeErrors::AboveMax)));
    let board = BoardState::new(3).add_stone(Coordinate::Index(4), Colour::Black).unwrap();
    tree.add_move(Turn::Move(Coordinate::Index(4)), board);
    assert_eq!(tree.get_pointer(), 1);
    assert_eq!(tree.get_length(), 1);
    assert!(matches!(tree.get_last_move(), Some(Coordinate::Index(4))));
    let (colour, board) = tree.get_board();
    assert_eq!(colour, Colour::White);
    assert_eq!(board.get_grid()[4], Colour::Black);
    assert!(matches!(tree.move_back(), Ok((Turn::Pass, _))));
    assert_eq!(tree.get_pointer(), 0);
    assert!(!tree.up_to_date());
    assert!(matches!(tree.move_forward(), Ok((Turn::Move(_), _))));
    assert!(tree.up_to_date());
    assert!(matches!(tree._jump(2), Err(TreeErrors::AboveMax)));
    assert_eq!(tree.get_pointer(), 1);
    assert!(matches!(tree._jump(0), Ok((Turn::Pass, _))));
    assert_eq!(tree.get_pointer(), 0);
    assert!(matches!(tree._latest(), (Turn::Move(_), _)));
    assert_eq!(tree.get_pointer(), 1);
    let _ = tree._jump(0);
    tree.reset();
    assert_eq!(tree.get_pointer(), 1);
}

#[test]
fn adding_a_move_points_at_it() {
    let mut tree = GameTree::new(3);
    tree.add_move(Turn::Pass, BoardState::new(3));
    let _ = tree.move_back();
    tree.add_move(Turn::Pass, BoardState::new(3));
    assert_eq!(tree.get_pointer(), 2);
    assert_eq!(tree.get_length(), 2);
}

#[test]
fn two_passes_or_a_resignation_end_the_game() {
    let mut tree = GameTree::new(3);
    tree.add_move(Turn::Pass, BoardState::new(3));
    assert!(!tree.check_end());
    tree.add_move(Turn::Pass, BoardState::new(3));
    assert!(tree.check_end());

    let mut tree = GameTree::new(3);
    tree.add_move(Turn::Resign, BoardState::new(3));
    assert!(!tree.check_end());
    tree.add_move(Turn::Resign, BoardState::new(3));
    assert!(tree.check_end());

    let mut tree = GameTree::new(3);
    tree.add_move(Turn::Pass, BoardState::new(3));
    tree.add_move(Turn::Move(Coordinate::Index(0)), BoardState::new(3));
    assert!(!tree.check_end());
    tree.add_move(Turn::Pass, BoardState::new(3));
    assert!(!tree.check_end());
}

#[test]
fn a_game_starts_with_black() {
    let game = GameState::new(5);
    assert_eq!(game.size, 5);
    assert_eq!(game.turn, Colour::Black);
    assert_eq!(game.game_tree.get_length(), 0);
    assert!(!game.check_end());
    assert_eq!(game.board_state.get_grid(), vec![Colour::Empty; 25]);
}

#[test]
fn a_legal_move_is_played_and_an_illegal_one_is_not() {
    let mut game = GameState::new(5);
    assert!(game.play_move(Coordinate::Index(12)));
    assert_eq!(game.turn, Colour::White);
    assert_eq!(game.board_state.get_grid()[12], Colour::Black);
    assert!(!game.play_move(Coordinate::Index(12)));
    assert_eq!(game.turn, Colour::White);
    assert!(!game.play_move(Coordinate::Index(25)));
    assert_eq!(game.turn, Colour::White);
    assert!(game.play_move(Coordinate::Position((0, 0))));
    assert_eq!(game.board_state.get_grid()[0], Colour::White);
    assert_eq!(game.turn, Colour::Black);
}

#[test]
fn turns_are_recorded() {
    let mut game = GameState::new(5);
    game.play_turn(Turn::Move(Coordinate::Index(12)));
    assert_eq!(game.game_tree.get_length(), 1);
    assert_eq!(game.turn, Colour::White);
    game.play_turn(Turn::Move(Coordinate::Index(12)));
    assert_eq!(game.game_tree.get_length(), 1);
    assert_eq!(game.turn, Colour::White);
    game.play_turn(Turn::Pass);
    assert_eq!(game.game_tree.get_length(), 2);
    assert_eq!(game.turn, Colour::Black);
    assert!(!game.check_end());
    game.play_turn(Turn::Pass);
    assert_eq!(game.turn, Colour::White);
    assert!(game.check_end());
    game.play_turn(Turn::Resign);
    assert_eq!(game.game_tree.get_length(), 4);
    assert_eq!(game.turn, Colour::White);
    assert!(game.check_end());
}

#[test]
fn nothing_is_played_while_looking_back() {
    let mut game = GameState::new(5);
    game.play_turn(Turn::Move(Coordinate::Index(12)));
    game.play_turn(Turn::Move(Coordinate::Index(13)));
    game.jump_back();
    assert_eq!(game.game_tree.get_pointer(), 1);
    assert!(!game.play_move(Coordinate::Index(0)));
    assert_eq!(game.board_state.get_grid()[0], Colour::Empty);
    assert_eq!(game.turn, Colour::Black);
    game.jump_forward();
    assert_eq!(game.game_tree.get_pointer(), 2);
    game.jump_forward();
    assert_eq!(game.game_tree.get_pointer(), 2);
    assert!(game.play_move(Coordinate::Index(0)));
    game.jump_back();
    game.jump_back();
    game.jump_back();
    assert_eq!(game.game_tree.get_pointer(), 0);
}

#[test]
fn swap_turn_and_clamp() {
    let mut game = GameState::new(5);
    game.swap_turn();
    assert_eq!(game.turn, Colour::White);
    game.swap_turn();
    assert_eq!(game.turn, Colour::Black);
    assert!(matches!(game.clamp_coordinate(2, 3), Coordinate::Position((2, 3))));
    assert!(matches!(game.clamp_coordinate(7, 5), Coordinate::Position((5, 5))));
    assert!(matches!(game.clamp_coordinate(0, 99), Coordinate::Position((0, 5))));
}
