use go_engine::board_state::BoardState;
use go_engine::colour::{Colour, Outcome};
use go_engine::coordinate::Coordinate;
use go_engine::playout::Playout;
use std::sync::Arc;

fn board_of(size: usize, stones: &[(usize, Colour)]) -> BoardState {
    let mut board = BoardState::new(size);
    for (cell, colour) in stones {
        board = board.add_stone(Coordinate::Index(*cell), *colour).unwrap();
    }
    board
}

fn wall() -> BoardState {
    // Black on column 2 of a 5x5 board
    board_of(
        5,
        &[
            (2, Colour::Black),
            (7, Colour::Black),
            (12, Colour::Black),
            (17, Colour::Black),
            (22, Colour::Black),
        ],
    )
}

#[test]
fn a_playout_begins_with_no_passes() {
    let playout = Playout::new(Arc::new(BoardState::new(5)), Colour::Black);
    assert_eq!(playout.colour, Colour::Black);
    assert_eq!(playout.consecutive_passes, 0);
    assert!(!playout.is_over());
    assert_eq!(playout.result(), Outcome::WhiteWin);
}

#[test]
fn a_side_with_useful_moves_places_the_picked_stone() {
    // the empty area touches a white stone, so Black has useful moves
    let board = board_of(5, &[(24, Colour::White)]);
    let playout = Playout::new(Arc::new(board), Colour::Black);
    let next = playout.take_turn(Some(Coordinate::Index(12))).unwrap();
    assert_eq!(next.colour, Colour::White);
    assert_eq!(next.consecutive_passes, 0);
    assert_eq!(next.state.get_grid()[12], Colour::Black);
    // the playout before the turn is as it was
    assert_eq!(playout.state.get_grid()[12], Colour::Empty);
    assert_eq!(playout.colour, Colour::Black);
    let after = next.take_turn(Some(Coordinate::Position((0, 0)))).unwrap();
    assert_eq!(after.colour, Colour::Black);
    assert_eq!(after.state.get_grid()[0], Colour::White);
}

#[test]
fn a_side_that_must_place_a_stone_cannot_do_without() {
    let board = board_of(5, &[(24, Colour::White)]);
    let playout = Playout::new(Arc::new(board), Colour::Black);
    assert!(playout.take_turn(None).is_none());
    assert!(playout.take_turn(Some(Coordinate::Index(25))).is_none());
    assert!(playout.take_turn(Some(Coordinate::Index(24))).is_none());
    let next = playout.take_turn(Some(Coordinate::Index(12))).unwrap();
    assert!(next.take_turn(Some(Coordinate::Index(12))).is_none());
}

#[test]
fn on_an_empty_board_no_move_is_useful() {
    // no stone touches the one empty area, so both sides pass
    let playout = Playout::new(Arc::new(BoardState::new(5)), Colour::Black);
    let next = playout.take_turn(Some(Coordinate::Index(12))).unwrap();
    assert_eq!(next.consecutive_passes, 1);
    assert_eq!(next.colour, Colour::White);
    assert_eq!(next.state.get_grid()[12], Colour::Empty);
    let last = next.take_turn(None).unwrap();
    assert_eq!(last.consecutive_passes, 2);
    assert!(last.is_over());
}

#[test]
fn a_side_with_nothing_useful_to_play_passes() {
    // a lone white stone: every empty cell lies in the one area, which
    // touches no black stone, so White has nothing useful left
    let board = board_of(5, &[(12, Colour::White)]);
    let playout = Playout::new(Arc::new(board), Colour::White);
    assert!(!playout.is_over());
    let next = playout.take_turn(Some(Coordinate::Index(0))).unwrap();
    assert_eq!(next.consecutive_passes, 1);
    assert_eq!(next.colour, Colour::Black);
    assert_eq!(next.state.get_grid()[0], Colour::Empty);
    assert_eq!(next.state.group_counter, 1);
    // a pass needs no stone
    let same = playout.take_turn(None).unwrap();
    assert_eq!(same.consecutive_passes, 1);
    // Black's moves all touch the white stone's area: Black plays
    let after = next.take_turn(Some(Coordinate::Index(0))).unwrap();
    assert_eq!(after.consecutive_passes, 0);
    assert_eq!(after.colour, Colour::White);
    assert_eq!(after.state.get_grid()[0], Colour::Black);
}

#[test]
fn two_passes_in_a_row_end_the_playout() {
    let board = board_of(5, &[(12, Colour::White)]);
    let mut playout = Playout::new(Arc::new(board), Colour::White);
    playout.consecutive_passes = 1;
    let next = playout.take_turn(None).unwrap();
    assert_eq!(next.consecutive_passes, 2);
    assert!(next.is_over());
    assert!(next.take_turn(None).is_none());
    assert!(next.take_turn(Some(Coordinate::Index(0))).is_none());
    assert_eq!(next.result(), Outcome::WhiteWin);
}

#[test]
fn a_settled_board_ends_the_playout() {
    let playout = Playout::new(Arc::new(wall()), Colour::White);
    assert!(playout.is_over());
    assert!(playout.take_turn(Some(Coordinate::Index(0))).is_none());
    assert_eq!(playout.result(), Outcome::BlackWin);
}
