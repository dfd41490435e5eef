use go_engine::colour::Colour;
use go_engine::coordinate::Coordinate;
use go_engine::geometry::neighbour_cells;
use go_engine::group_state::{absorb, cells_of, copy_cells, liberty_cells, touching_pairs, GroupState};
use go_engine::new_group::NewGroup;
use std::collections::HashSet;

fn sorted(set: &HashSet<usize>) -> Vec<usize> {
    let mut cells: Vec<usize> = set.iter().copied().collect();
    cells.sort();
    cells
}

fn grid_with(size: usize, stones: &[(usize, Colour)]) -> Vec<Colour> {
    let mut grid = vec![Colour::Empty; size * size];
    for (cell, colour) in stones {
        grid[*cell] = *colour;
    }
    grid
}

#[test]
fn neighbours_in_the_middle_at_the_edge_and_in_the_corner() {
    assert_eq!(neighbour_cells(5, 12), vec![7, 11, 17, 13]);
    assert_eq!(neighbour_cells(5, 0), vec![5, 1]);
    assert_eq!(neighbour_cells(5, 4), vec![3, 9]);
    assert_eq!(neighbour_cells(5, 20), vec![15, 21]);
    assert_eq!(neighbour_cells(5, 24), vec![19, 23]);
    assert_eq!(neighbour_cells(5, 10), vec![5, 15, 11]);
    assert_eq!(neighbour_cells(5, 14), vec![9, 13, 19]);
    assert_eq!(neighbour_cells(3, 4), vec![1, 3, 7, 5]);
    assert_eq!(neighbour_cells(1, 0), Vec::<usize>::new());
}

#[test]
fn rows_do_not_wrap_round() {
    assert!(!neighbour_cells(5, 4).contains(&5));
    assert!(!neighbour_cells(5, 5).contains(&4));
}

#[test]
fn a_new_group_holds_one_stone() {
    let group = GroupState::new(3, Colour::White, Coordinate::Position((1, 1)));
    assert_eq!(group._get_id(), 3);
    assert_eq!(group.get_colour(), Colour::White);
    assert_eq!(sorted(group.get_points()), vec![6]);
    assert!(group._contains(Coordinate::Index(6)));
    assert!(!group._contains(Coordinate::Index(7)));
    let positions = group.get_positions();
    assert_eq!(positions.len(), 1);
    assert!(matches!(positions[0], Coordinate::Index(6)));
}

#[test]
fn merging_takes_the_union_and_the_first_colour() {
    let a = GroupState::new(0, Colour::Black, Coordinate::Index(1));
    let b = GroupState::new(1, Colour::Black, Coordinate::Index(2));
    let c = GroupState::new(2, Colour::White, Coordinate::Index(2));
    let merged = GroupState::merge_groups(9, &vec![&a, &b, &c]);
    assert_eq!(merged._get_id(), 9);
    assert_eq!(merged.get_colour(), Colour::Black);
    assert_eq!(sorted(merged.get_points()), vec![1, 2]);
    assert_eq!(sorted(&GroupState::combine_groups(&vec![a, b, c])), vec![1, 2]);
    assert!(GroupState::combine_groups(&Vec::new()).is_empty());
}

#[test]
fn liberties_are_counted_once_each() {
    // Black on 6 and 8 of a 5x5 board share the liberty 7.
    let a = GroupState::new(0, Colour::Black, Coordinate::Index(6));
    let b = GroupState::new(1, Colour::Black, Coordinate::Index(8));
    let both = GroupState::merge_groups(2, &vec![&a, &b]);
    let grid = grid_with(5, &[(6, Colour::Black), (8, Colour::Black)]);
    // 1, 5, 7, 11 around 6; 3, 7, 9, 13 around 8; 7 counted once
    assert_eq!(both.calculate_liberties(&grid, 5), 7);
    assert!(both.check_liberties(&grid, 5));
    assert_eq!(sorted(&liberty_cells(both.get_points(), &grid, 5)), vec![1, 3, 5, 7, 9, 11, 13]);
}

#[test]
fn a_corner_stone_in_atari_and_dead() {
    let group = GroupState::new(0, Colour::Black, Coordinate::Index(0));
    let atari = grid_with(5, &[(0, Colour::Black), (1, Colour::White)]);
    assert_eq!(group.calculate_liberties(&atari, 5), 1);
    assert!(group.check_liberties(&atari, 5));
    let dead = grid_with(5, &[(0, Colour::Black), (1, Colour::White), (5, Colour::White)]);
    assert_eq!(group.calculate_liberties(&dead, 5), 0);
    assert!(!group.check_liberties(&dead, 5));
}

#[test]
fn empty_areas_are_groups_of_colour_empty() {
    let mut points = HashSet::new();
    points.insert(4);
    points.insert(9);
    let area = GroupState::from_empty_points(points);
    assert_eq!(area.get_colour(), Colour::Empty);
    assert_eq!(area._get_id(), 777);
    assert_eq!(sorted(area.get_points()), vec![4, 9]);
}

#[test]
fn groups_are_equal_by_id() {
    let a = GroupState::new(5, Colour::Black, Coordinate::Index(1));
    let b = GroupState::new(5, Colour::White, Coordinate::Index(2));
    let c = GroupState::new(6, Colour::Black, Coordinate::Index(1));
    assert!(a == b);
    assert!(a != c);
    let copy = a.clone();
    assert!(copy == a);
    assert_eq!(sorted(copy.get_points()), vec![1]);
    assert_eq!(copy.get_colour(), Colour::Black);
}

#[test]
fn set_helpers() {
    let mut cells: HashSet<usize> = HashSet::new();
    cells.insert(3);
    cells.insert(1);
    let mut listed = cells_of(&cells);
    listed.sort();
    assert_eq!(listed, vec![1, 3]);
    assert_eq!(sorted(&copy_cells(&cells)), vec![1, 3]);
    let mut more: HashSet<usize> = HashSet::new();
    more.insert(3);
    more.insert(8);
    absorb(&mut cells, &more);
    assert_eq!(sorted(&cells), vec![1, 3, 8]);
    let mut corner: HashSet<usize> = HashSet::new();
    corner.insert(0);
    let mut pairs = touching_pairs(&corner, 3);
    pairs.sort();
    assert_eq!(pairs, vec![(0, 1), (0, 3)]);
}

#[test]
fn counted_groups_start_at_four_liberties() {
    let group = NewGroup::new(2, Colour::Black, Coordinate::Index(20));
    assert_eq!(*group.get_id(), 2);
    assert_eq!(*group.get_liberties(), 4);
    assert_eq!(group.get_colour(), Colour::Black);
    assert_eq!(sorted(group.get_points()), vec![20]);
    assert!(group.contains(&Coordinate::Index(20), &Colour::Black));
    assert!(!group.contains(&Coordinate::Index(20), &Colour::White));
    assert!(!group.contains(&Coordinate::Index(21), &Colour::Black));
    let positions = group.get_positions();
    assert_eq!(positions.len(), 1);
    assert!(matches!(positions[0], Coordinate::Index(20)));
}

#[test]
fn counted_groups_count_on_the_full_board() {
    let mut group = NewGroup::new(0, Colour::Black, Coordinate::Index(0));
    let mut grid = vec![Colour::Empty; 19 * 19];
    grid[0] = Colour::Black;
    group.calculate_liberties(&grid);
    assert_eq!(*group.get_liberties(), 2);
    assert!(group.check_liberties(&grid));
    grid[1] = Colour::White;
    grid[19] = Colour::White;
    group.calculate_liberties(&grid);
    assert_eq!(*group.get_liberties(), 0);
    assert!(!group.check_liberties(&grid));
}

#[test]
fn counted_groups_lose_liberties_one_by_one() {
    let mut group = NewGroup::new(0, Colour::White, Coordinate::Index(40));
    group.decrease_liberties();
    assert_eq!(*group.get_liberties(), 3);
    assert_eq!(group.decrease_and_get_liberties(), 2);
    assert_eq!(*group.get_liberties(), 2);
}

#[test]
fn counted_groups_merge() {
    let a = NewGroup::new(0, Colour::White, Coordinate::Index(40));
    let mut b = NewGroup::new(1, Colour::Black, Coordinate::Index(41));
    b.decrease_liberties();
    let merged = NewGroup::merge_groups(7, &vec![&a, &b]);
    assert_eq!(*merged.get_id(), 7);
    assert_eq!(merged.get_colour(), Colour::White);
    assert_eq!(*merged.get_liberties(), 4);
    assert_eq!(sorted(merged.get_points()), vec![40, 41]);
    assert!(a != b);
    assert!(a.clone() == a);
}
