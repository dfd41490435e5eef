use go_engine::colour::Colour;
use go_engine::zobrist::{copy_hashes, ZobristTable};
use std::collections::HashSet;

#[test]
fn a_new_table_has_two_keys_per_cell_and_no_history() {
    let table = ZobristTable::new(5);
    assert_eq!(table.keys.len(), 25);
    assert!(table.visited.is_empty());
    let none = ZobristTable::new(0);
    assert!(none.keys.is_empty());
}

#[test]
fn the_empty_board_hashes_to_zero() {
    let table = ZobristTable::new(3);
    assert_eq!(table.zobrist_hash(&vec![Colour::Empty; 9]), 0);
    assert_eq!(table.zobrist_hash(&[]), 0);
}

#[test]
fn a_hash_is_the_xor_of_the_keys_of_the_stones() {
    let table = ZobristTable::new(3);
    let mut board = vec![Colour::Empty; 9];
    board[2] = Colour::Black;
    assert_eq!(table.zobrist_hash(&board), table.keys[2].0);
    board[5] = Colour::White;
    assert_eq!(table.zobrist_hash(&board), table.keys[2].0 ^ table.keys[5].1);
    board[2] = Colour::White;
    assert_eq!(table.zobrist_hash(&board), table.keys[2].1 ^ table.keys[5].1);
}

#[test]
fn with_known_keys_the_hash_is_exact() {
    let table = ZobristTable {
        keys: vec![(1, 2), (4, 8), (16, 32), (64, 128)],
        visited: HashSet::new(),
    };
    let board = vec![Colour::Black, Colour::White, Colour::Empty, Colour::White];
    assert_eq!(table.zobrist_hash(&board), 1 ^ 8 ^ 128);
    assert_eq!(table.zobrist_hash(&board[..2]), 9);
}

#[test]
fn positions_are_remembered() {
    let mut table = ZobristTable {
        keys: vec![(1, 2), (4, 8), (16, 32), (64, 128)],
        visited: HashSet::new(),
    };
    let board = vec![Colour::Black, Colour::Empty, Colour::Empty, Colour::White];
    let other = vec![Colour::Black, Colour::Empty, Colour::Empty, Colour::Black];
    assert!(!table.contains_position(&board));
    table.insert_position(&board);
    assert!(table.contains_position(&board));
    assert!(!table.contains_position(&other));
    assert!(table.visited.contains(&129));
    assert_eq!(table.visited.len(), 1);
    table.insert_position(&board);
    assert_eq!(table.visited.len(), 1);
}

#[test]
fn a_clone_is_independent() {
    let mut table = ZobristTable::new(2);
    let board = vec![Colour::Black, Colour::Empty, Colour::Empty, Colour::Empty];
    let copy = table.clone();
    table.insert_position(&board);
    assert_eq!(copy.keys, table.keys);
    assert!(!copy.contains_position(&board));
    assert!(table.contains_position(&board));
    let mut set = HashSet::new();
    set.insert(5u64);
    set.insert(9u64);
    assert_eq!(copy_hashes(&set), set);
}

#[test]
fn keys_are_drawn_at_random() {
    let table = ZobristTable::new(5);
    let first = table.keys[0].0;
    // fifty draws of sixty-four bits that all agree would be no chance
    assert!(table.keys.iter().any(|(black, white)| *black != first || *white != first));
    let other = ZobristTable::new(5);
    assert_ne!(table.keys, other.keys);
}
