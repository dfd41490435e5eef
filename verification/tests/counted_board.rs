use go_engine::colour::Colour;
use go_engine::coordinate::Coordinate;
use go_engine::new_board::{copy_ids, NewBoard, BOARD_SIZE};
use go_engine::new_group::NewGroup;

fn cell(row: usize, column: usize) -> Coordinate {
    Coordinate::Index(row * BOARD_SIZE + column)
}

fn sorted_points(group: &NewGroup) -> Vec<usize> {
    let mut cells: Vec<usize> = group.get_points().iter().copied().collect();
    cells.sort();
    cells
}

#[test]
fn a_new_counted_board_is_empty() {
    assert_eq!(BOARD_SIZE, 19);
    let board = NewBoard::new();
    assert_eq!(board.get_grid().len(), 361);
    assert!(board.get_grid().iter().all(|c| *c == Colour::Empty));
    assert_eq!(board.groups.len(), 361);
    assert!(board.groups.iter().all(|g| g.is_none()));
    assert!(board.group_map.is_empty());
    assert_eq!(board.group_counter, 0);
    assert!(board.check_empty(cell(3, 3)));
    assert!(board.find_group(cell(3, 3)).is_none());
    assert_eq!(board.get(cell(3, 3)), Colour::Empty);
    assert!(board.get_current_groups(cell(0, 0)).is_empty());
}

#[test]
fn neighbours_on_the_full_board() {
    let around: Vec<usize> =
        NewBoard::get_adjacent_indices(cell(1, 1)).iter().map(|c| c.get_index()).collect();
    assert_eq!(around, vec![1, 19, 39, 21]);
    let corner: Vec<usize> =
        NewBoard::get_adjacent_indices(cell(18, 18)).iter().map(|c| c.get_index()).collect();
    assert_eq!(corner, vec![341, 359]);
}

#[test]
fn a_stone_is_placed_once() {
    let mut board = NewBoard::new();
    board.add_stone(cell(3, 3), Colour::Black);
    assert_eq!(board.get(cell(3, 3)), Colour::Black);
    assert!(!board.check_empty(cell(3, 3)));
    assert_eq!(board.group_counter, 1);
    let group = board.find_group(cell(3, 3)).unwrap();
    assert_eq!(*group.get_id(), 0);
    assert_eq!(group.get_colour(), Colour::Black);
    assert_eq!(*group.get_liberties(), 4);
    assert_eq!(sorted_points(group), vec![60]);
    // a second stone on the same point changes nothing
    board.add_stone(cell(3, 3), Colour::White);
    assert_eq!(board.get(cell(3, 3)), Colour::Black);
    assert_eq!(board.group_counter, 1);
    assert_eq!(board.group_map.len(), 1);
}

#[test]
fn stones_of_one_colour_join() {
    let mut board = NewBoard::new();
    board.add_stone(cell(3, 3), Colour::Black);
    board.add_stone(cell(3, 5), Colour::Black);
    assert_eq!(board.group_map.len(), 2);
    board.add_stone(cell(3, 4), Colour::Black);
    assert_eq!(board.group_map.len(), 1);
    assert_eq!(board.group_counter, 3);
    let group = board.find_group(cell(3, 5)).unwrap();
    assert_eq!(*group.get_id(), 2);
    assert_eq!(sorted_points(group), vec![60, 61, 62]);
    assert_eq!(board.groups[60], Some(2));
    assert_eq!(board.groups[61], Some(2));
    assert_eq!(board.groups[62], Some(2));
    let current = board.get_current_groups(cell(0, 0));
    assert_eq!(current.len(), 1);
    assert_eq!(*current[0].get_id(), 2);
    assert!(board.contains(current[0].clone()));
    assert!(!board.contains(NewGroup::new(0, Colour::Black, Coordinate::Index(60))));
}

#[test]
fn a_group_without_liberties_leaves_the_board() {
    let mut board = NewBoard::new();
    board.add_stone(cell(0, 0), Colour::Black);
    board.add_stone(cell(0, 1), Colour::White);
    // Black's corner stone was counted when White came next to it
    assert_eq!(*board.find_group(cell(0, 0)).unwrap().get_liberties(), 1);
    assert_eq!(*board.find_group(cell(0, 1)).unwrap().get_liberties(), 4);
    board.add_stone(cell(1, 0), Colour::White);
    assert_eq!(board.get(cell(0, 0)), Colour::Empty);
    assert!(board.check_empty(cell(0, 0)));
    assert!(board.find_group(cell(0, 0)).is_none());
    assert_eq!(board.group_map.len(), 2);
    assert!(!board.group_map.contains_key(&0));
    assert_eq!(board.get(cell(0, 1)), Colour::White);
    assert_eq!(board.get(cell(1, 0)), Colour::White);
    assert_eq!(board.group_counter, 3);
}

#[test]
fn groups_next_to_a_point() {
    let mut board = NewBoard::new();
    board.add_stone(cell(5, 4), Colour::Black);
    board.add_stone(cell(5, 6), Colour::Black);
    board.add_stone(cell(4, 5), Colour::White);
    let mut black = board.find_groups_to_merge(cell(5, 5), Colour::Black);
    black.sort();
    assert_eq!(black, vec![0, 1]);
    assert_eq!(board.find_groups_to_merge(cell(5, 5), Colour::White), vec![2]);
    assert!(board.find_groups_to_merge(cell(5, 5), Colour::Empty).is_empty());
    assert!(board.find_groups_to_merge(cell(10, 10), Colour::Black).is_empty());
    assert_eq!(copy_ids(&black), vec![0, 1]);
    let first = NewGroup::new(9, Colour::Black, cell(5, 5));
    let all = board.get_groups_to_merge(&first, vec![1, 0]);
    assert_eq!(all.len(), 3);
    assert_eq!(*all[0].get_id(), 9);
    assert_eq!(*all[1].get_id(), 1);
    assert_eq!(*all[2].get_id(), 0);
}

#[test]
fn groups_that_touch_a_group() {
    let mut board = NewBoard::new();
    board.add_stone(cell(5, 4), Colour::Black);
    board.add_stone(cell(5, 6), Colour::Black);
    board.add_stone(cell(4, 5), Colour::White);
    // no stone of Black's touches the group on (5, 4)
    assert!(board.find_adjacent_groups(cell(5, 4)).is_empty());
    // put a lone black stone between them by hand, as a move does at first
    board.group_map.insert(3, NewGroup::new(3, Colour::Black, cell(5, 5)));
    board.groups[5 * 19 + 5] = Some(3);
    let mut found: Vec<usize> =
        board.find_adjacent_groups(cell(5, 5)).iter().map(|g| *g.get_id()).collect();
    found.sort();
    assert_eq!(found, vec![0, 1]);
}

#[test]
fn liberties_are_counted_and_checked() {
    let mut board = NewBoard::new();
    board.add_stone(cell(0, 0), Colour::Black);
    board.add_stone(cell(9, 9), Colour::White);
    assert_eq!(*board.find_group(cell(0, 0)).unwrap().get_liberties(), 4);
    board.recalculate_liberties(vec![0]);
    assert_eq!(*board.find_group(cell(0, 0)).unwrap().get_liberties(), 2);
    assert_eq!(*board.find_group(cell(9, 9)).unwrap().get_liberties(), 4);
    assert!(board.check_liberties(vec![0, 1]).is_empty());
    board.group_map.get_mut(&1).unwrap().liberties = 0;
    assert_eq!(board.check_liberties(vec![0, 1, 1]), vec![1, 1]);
}

#[test]
fn groups_are_taken_off_and_the_map_is_cleaned() {
    let mut board = NewBoard::new();
    board.add_stone(cell(2, 2), Colour::Black);
    board.add_stone(cell(6, 6), Colour::White);
    board.add_stone(cell(8, 8), Colour::Black);
    let group = board.find_group(cell(2, 2)).unwrap().clone();
    board.remove_group(group);
    assert!(board.check_empty(cell(2, 2)));
    // the grid of colours and the map lag behind until they are brought up
    assert_eq!(board.get(cell(2, 2)), Colour::Black);
    assert_eq!(board.group_map.len(), 3);
    board.remove_groups(vec![1, 7]);
    assert!(board.check_empty(cell(6, 6)));
    assert!(!board.check_empty(cell(8, 8)));
    board.clean_map();
    assert_eq!(board.group_map.len(), 1);
    assert!(board.group_map.contains_key(&2));
    board.reflect_group_to_board();
    assert_eq!(board.get(cell(2, 2)), Colour::Empty);
    assert_eq!(board.get(cell(6, 6)), Colour::Empty);
    assert_eq!(board.get(cell(8, 8)), Colour::Black);
}
