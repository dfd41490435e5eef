use go_engine::board::{list_contains, Board, BOARD_SIZE, MOST_TAKEN};
use go_engine::colour::Colour;
use go_engine::coordinate::Coordinate;
use go_engine::group::{same_cells, Group};
use std::collections::HashSet;

fn at(row: usize, column: usize) -> Coordinate {
    Coordinate::Index(row * BOARD_SIZE + column)
}

fn sorted_points(group: &Group) -> Vec<usize> {
    let mut cells: Vec<usize> = group.get_points().iter().copied().collect();
    cells.sort();
    cells
}

#[test]
fn a_group_of_one_stone() {
    let group = Group::new(Colour::White, Coordinate::Index(45));
    assert_eq!(group.get_colour(), Colour::White);
    assert_eq!(*group.get_liberties(), 4);
    assert_eq!(sorted_points(&group), vec![45]);
    assert!(group.contains(Coordinate::Index(45), Colour::White));
    assert!(!group.contains(Coordinate::Index(45), Colour::Black));
    assert!(!group.contains(Coordinate::Index(46), Colour::White));
    let positions = group.get_positions();
    assert_eq!(positions.len(), 1);
    assert!(matches!(positions[0], Coordinate::Index(45)));
}

#[test]
fn groups_are_equal_when_all_of_them_is() {
    let one = Group::new(Colour::Black, Coordinate::Index(3));
    let mut other = Group::new(Colour::Black, Coordinate::Index(3));
    assert!(one == other);
    assert!(one.clone() == one);
    other.decrease_liberties();
    assert!(one != other);
    assert_eq!(other.decrease_and_get_liberties(), 2);
    assert!(one != Group::new(Colour::White, Coordinate::Index(3)));
    assert!(one != Group::new(Colour::Black, Coordinate::Index(4)));
    let mut a: HashSet<usize> = HashSet::new();
    let mut b: HashSet<usize> = HashSet::new();
    assert!(same_cells(&a, &b));
    a.insert(1);
    assert!(!same_cells(&a, &b));
    b.insert(2);
    assert!(!same_cells(&a, &b));
    a.insert(2);
    b.insert(1);
    assert!(same_cells(&a, &b));
    assert!(list_contains(&vec![one.clone(), other.clone()], &other));
    assert!(!list_contains(&vec![one.clone()], &other));
}

#[test]
fn joined_groups_have_no_liberties_counted() {
    let a = Group::new(Colour::White, Coordinate::Index(7));
    let b = Group::new(Colour::Black, Coordinate::Index(8));
    let joined = Group::merge_groups(&vec![a, b]);
    assert_eq!(joined.get_colour(), Colour::White);
    assert_eq!(*joined.get_liberties(), 0);
    assert_eq!(sorted_points(&joined), vec![7, 8]);
}

#[test]
fn liberties_of_a_group_on_the_full_board() {
    let mut group = Group::new(Colour::Black, at(0, 18));
    let mut grid = vec![Colour::Empty; 361];
    grid[18] = Colour::Black;
    group.calculate_liberties(&grid);
    assert_eq!(*group.get_liberties(), 2);
    grid[17] = Colour::White;
    group.calculate_liberties(&grid);
    assert_eq!(*group.get_liberties(), 1);
}

#[test]
fn a_new_counting_board() {
    assert_eq!(BOARD_SIZE, 19);
    assert_eq!(MOST_TAKEN, 4 * 361);
    let board = Board::new(19);
    assert_eq!(board.size, 19);
    assert_eq!(board.get_grid().len(), 361);
    assert!(board.groups.is_empty());
    assert_eq!(board.white_points, 0);
    assert_eq!(board.black_points, 0);
    assert_eq!(board.get(at(4, 4)), Colour::Empty);
    let small = Board::new(3);
    assert_eq!(small.get_grid().len(), 9);
    let around: Vec<usize> =
        Board::get_adjacent_indices(at(0, 0)).iter().map(|c| c.get_index()).collect();
    assert_eq!(around, vec![19, 1]);
}

#[test]
fn stones_are_placed_and_counted() {
    let mut board = Board::new(19);
    board.add_stone(at(0, 0), Colour::Black);
    assert_eq!(board.get(at(0, 0)), Colour::Black);
    assert_eq!(board.groups.len(), 1);
    assert_eq!(*board.groups[0].get_liberties(), 2);
    // a stone on a stone changes nothing
    board.add_stone(at(0, 0), Colour::White);
    assert_eq!(board.get(at(0, 0)), Colour::Black);
    assert_eq!(board.groups.len(), 1);

    board.add_stone(at(0, 1), Colour::White);
    assert_eq!(board.groups.len(), 2);
    assert_eq!(board.groups[0].get_colour(), Colour::Black);
    assert_eq!(*board.groups[0].get_liberties(), 1);
    assert_eq!(board.groups[1].get_colour(), Colour::White);
    assert_eq!(*board.groups[1].get_liberties(), 2);
    assert_eq!(board.find_group_index(0, Colour::Black), Some(0));
    assert_eq!(board.find_group_index(0, Colour::White), None);
    assert_eq!(board.find_group_index(1, Colour::White), Some(1));
}

#[test]
fn a_group_whose_count_comes_to_nothing_leaves() {
    let mut board = Board::new(19);
    board.add_stone(at(0, 0), Colour::Black);
    board.add_stone(at(0, 1), Colour::White);
    board.add_stone(at(1, 0), Colour::White);
    assert_eq!(board.get(at(0, 0)), Colour::Empty);
    assert_eq!(board.white_points, 1);
    assert_eq!(board.black_points, 0);
    assert_eq!(board.groups.len(), 2);
    for group in &board.groups {
        assert_eq!(group.get_colour(), Colour::White);
        assert_eq!(*group.get_liberties(), 3);
    }
}

#[test]
fn stones_of_one_colour_are_joined_at_the_end_of_the_list() {
    let mut board = Board::new(19);
    board.add_stone(at(2, 2), Colour::Black);
    board.add_stone(at(9, 9), Colour::White);
    board.add_stone(at(2, 4), Colour::Black);
    assert_eq!(board.groups.len(), 3);
    board.add_stone(at(2, 3), Colour::Black);
    assert_eq!(board.groups.len(), 2);
    assert_eq!(board.groups[0].get_colour(), Colour::White);
    let joined = &board.groups[1];
    assert_eq!(joined.get_colour(), Colour::Black);
    assert_eq!(sorted_points(joined), vec![40, 41, 42]);
    assert_eq!(*joined.get_liberties(), 8);
}

#[test]
fn groups_to_join_with_are_found_around_the_stone() {
    let mut board = Board::new(19);
    board.add_stone(at(2, 2), Colour::Black);
    board.add_stone(at(2, 4), Colour::Black);
    board.add_stone(at(1, 3), Colour::White);
    let stone = Group::new(Colour::Black, at(2, 3));
    board.grid[2 * 19 + 3] = Colour::Black;
    let found = stone.find_mergeable_groups(&board);
    assert_eq!(found.len(), 3);
    assert!(found[0] == stone);
    // left comes before right
    assert_eq!(sorted_points(&found[1]), vec![40]);
    assert_eq!(sorted_points(&found[2]), vec![42]);
}

#[test]
fn a_found_group_can_be_changed_in_place() {
    let mut board = Board::new(19);
    board.add_stone(at(5, 5), Colour::White);
    assert!(board.find_group(at(5, 5), Colour::Black).is_none());
    assert!(board.find_group(at(5, 6), Colour::White).is_none());
    let group = board.find_group(at(5, 5), Colour::White).unwrap();
    group.decrease_liberties();
    assert_eq!(*board.groups[0].get_liberties(), 3);
}

#[test]
fn groups_are_removed_and_merged_by_hand() {
    let mut board = Board::new(19);
    board.add_stone(at(5, 5), Colour::White);
    board.add_stone(at(7, 7), Colour::Black);
    board.add_stone(at(9, 9), Colour::White);
    let first = board.groups[0].clone();
    let last = board.groups[2].clone();
    board.merge_groups(vec![first, last]);
    assert_eq!(board.groups.len(), 2);
    assert_eq!(board.groups[0].get_colour(), Colour::Black);
    assert_eq!(sorted_points(&board.groups[1]), vec![5 * 19 + 5, 9 * 19 + 9]);
    assert_eq!(*board.groups[1].get_liberties(), 0);
    let black = board.groups[0].clone();
    board.remove_group(black);
    assert_eq!(board.groups.len(), 1);
    assert_eq!(board.get(at(7, 7)), Colour::Empty);
    assert_eq!(board.white_points, 1);
    let white = board.groups[0].clone();
    board.remove_group(white);
    assert!(board.groups.is_empty());
    assert_eq!(board.black_points, 2);
    assert!(board.get_grid().iter().all(|c| *c == Colour::Empty));
}

#[test]
fn boards_are_equal_when_all_of_them_is() {
    let mut board = Board::new(19);
    board.add_stone(at(3, 3), Colour::Black);
    let copy = board.clone();
    assert!(copy == board);
    assert_eq!(copy.size, 19);
    board.add_stone(at(3, 4), Colour::White);
    assert!(copy != board);
    let mut other = copy.clone();
    other.white_points = 1;
    assert!(other != copy);
    let mut third = copy.clone();
    third.groups[0].decrease_liberties();
    assert!(third != copy);
    assert!(Board::new(3) != Board::new(4));
    assert!(Board::new(3) == Board::new(3));
}
