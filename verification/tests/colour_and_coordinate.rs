use go_engine::colour::{Colour, Outcome};
use go_engine::coordinate::{Coordinate, BOARD_SIZE};
use go_engine::fails::{TreeErrors, TurnErrors};
use go_engine::turn::Turn;

#[test]
fn swap_turn_alternates() {
    assert_eq!(Colour::Black.swap_turn(), Colour::White);
    assert_eq!(Colour::White.swap_turn(), Colour::Black);
    assert_eq!(Colour::Empty.swap_turn(), Colour::Empty);
    assert_eq!(Colour::Black.swap_turn().swap_turn(), Colour::Black);
}

#[test]
fn colour_names() {
    assert_eq!(Colour::Black.get_string(), "Black");
    assert_eq!(Colour::White.get_string(), "White");
    assert_eq!(Colour::Empty.get_string(), "Empty");
}

#[test]
fn colour_numbers() {
    assert_eq!(Colour::Empty.into_usize(), 0);
    assert_eq!(Colour::Black.into_usize(), 1);
    assert_eq!(Colour::White.into_usize(), 2);
}

#[test]
fn outcome_from_scores() {
    assert_eq!(Outcome::_determine(10, 9), Outcome::BlackWin);
    assert_eq!(Outcome::_determine(9, 10), Outcome::WhiteWin);
    assert_eq!(Outcome::_determine(7, 7), Outcome::_Draw);
}

#[test]
fn outcome_names_and_colours() {
    assert_eq!(Outcome::BlackWin._get_string(), "Black Wins");
    assert_eq!(Outcome::WhiteWin._get_string(), "White Wins");
    assert_eq!(Outcome::_Draw._get_string(), "Draw");
    assert_eq!(Outcome::BlackWin.into_colour(), Colour::Black);
    assert_eq!(Outcome::WhiteWin.into_colour(), Colour::White);
    assert_eq!(Outcome::_Draw.into_colour(), Colour::Empty);
}

#[test]
fn error_variants_are_distinct() {
    assert_ne!(TurnErrors::Ko, TurnErrors::Suicide);
    assert_ne!(TurnErrors::AlreadyPlaced, TurnErrors::OutofBounds);
    assert_ne!(TreeErrors::BelowZero, TreeErrors::AboveMax);
}

#[test]
fn index_and_position_convert_both_ways() {
    assert_eq!(BOARD_SIZE, 5);
    let index = Coordinate::Index(7);
    assert_eq!(index.get_position(), (1, 2));
    assert_eq!(index.get_index(), 7);
    let position = Coordinate::Position((3, 4));
    assert_eq!(position.get_index(), 19);
    assert_eq!(position.get_position(), (3, 4));
    assert!(matches!(Coordinate::into(&index), Coordinate::Position((1, 2))));
    assert!(matches!(Coordinate::into(&position), Coordinate::Index(19)));
    assert!(matches!(position.into_index(), Coordinate::Index(19)));
    assert!(matches!(index.into_index(), Coordinate::Index(7)));
    assert!(matches!(index.into_position(), Coordinate::Position((1, 2))));
    assert!(matches!(position.into_position(), Coordinate::Position((3, 4))));
}

#[test]
fn round_trip_for_every_cell() {
    for i in 0..BOARD_SIZE * BOARD_SIZE {
        let there = Coordinate::into(&Coordinate::Index(i));
        assert_eq!(there.get_index(), i);
        assert!(matches!(Coordinate::into(&there), Coordinate::Index(j) if j == i));
    }
}

#[test]
fn coordinates_are_equal_by_index() {
    assert!(Coordinate::Index(7) == Coordinate::Position((1, 2)));
    assert!(Coordinate::Position((1, 2)) == Coordinate::Index(7));
    assert!(Coordinate::Index(7) != Coordinate::Index(8));
    assert!(Coordinate::Position((0, 5)) == Coordinate::Position((1, 0)));
    assert!(Coordinate::Index(usize::MAX) != Coordinate::Position((usize::MAX, usize::MAX)));
}

#[test]
fn bounded_constructors() {
    assert!(matches!(Coordinate::_new_index(24), Some(Coordinate::Index(24))));
    assert!(Coordinate::_new_index(25).is_none());
    assert!(matches!(Coordinate::_new_position((4, 4)), Some(Coordinate::Position((4, 4)))));
    assert!(Coordinate::_new_position((5, 0)).is_none());
    assert!(Coordinate::_new_position((0, 5)).is_none());
}

#[test]
fn cell_on_uses_the_side_of_the_board() {
    assert_eq!(Coordinate::Index(8).cell_on(3), Some(8));
    assert_eq!(Coordinate::Index(9).cell_on(3), None);
    assert_eq!(Coordinate::Position((2, 1)).cell_on(3), Some(7));
    assert_eq!(Coordinate::Position((2, 1)).cell_on(19), Some(39));
    assert_eq!(Coordinate::Position((3, 0)).cell_on(3), None);
    assert_eq!(Coordinate::Position((2, 3)).cell_on(3), None);
    assert_eq!(Coordinate::Position((0, 7)).cell_on(3), Some(7));
    assert_eq!(Coordinate::Position((usize::MAX, usize::MAX)).cell_on(19), None);
    assert_eq!(Coordinate::Index(0).cell_on(0), None);
}

#[test]
fn turns_carry_their_point() {
    assert!(matches!(Turn::_handle_turn(Turn::Move(Coordinate::Index(3))), Some(Coordinate::Index(3))));
    assert!(Turn::_handle_turn(Turn::Pass).is_none());
    assert!(Turn::_handle_turn(Turn::Resign).is_none());
    assert!(matches!(Turn::_into_turn(Coordinate::Index(4)), Turn::Move(Coordinate::Index(4))));
}
