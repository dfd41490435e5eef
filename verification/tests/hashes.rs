use go_engine::colour::Colour;
use go_engine::coordinate::Coordinate;
use go_engine::group_state::GroupState;
use go_engine::new_group::NewGroup;
use std::collections::hash_map::DefaultHasher;
use std::collections::HashSet;
use std::hash::{Hash, Hasher};

fn hash_of<T: Hash>(value: &T) -> u64 {
    let mut hasher = DefaultHasher::new();
    value.hash(&mut hasher);
    hasher.finish()
}

#[test]
fn equal_coordinates_have_equal_hashes() {
    assert_eq!(hash_of(&Coordinate::Index(7)), hash_of(&Coordinate::Position((1, 2))));
    assert_eq!(hash_of(&Coordinate::Index(0)), hash_of(&Coordinate::Position((0, 0))));
    assert_ne!(hash_of(&Coordinate::Index(7)), hash_of(&Coordinate::Index(8)));
    let mut set: HashSet<Coordinate> = HashSet::new();
    assert!(set.insert(Coordinate::Index(7)));
    assert!(!set.insert(Coordinate::Position((1, 2))));
    assert!(set.insert(Coordinate::Position((2, 1))));
    assert!(set.contains(&Coordinate::Index(11)));
    assert_eq!(set.len(), 2);
}

#[test]
fn groups_hash_by_id_and_stones() {
    let a = GroupState::new(3, Colour::Black, Coordinate::Index(4));
    let b = GroupState::new(3, Colour::White, Coordinate::Index(4));
    let c = GroupState::new(4, Colour::Black, Coordinate::Index(4));
    let d = GroupState::new(3, Colour::Black, Coordinate::Index(5));
    assert_eq!(hash_of(&a), hash_of(&b));
    assert_eq!(hash_of(&a), hash_of(&a.clone()));
    assert_ne!(hash_of(&a), hash_of(&c));
    assert_ne!(hash_of(&a), hash_of(&d));
    let mut set: HashSet<GroupState> = HashSet::new();
    assert!(set.insert(a));
    assert!(!set.insert(b));
    assert!(set.insert(c));
}

#[test]
fn counted_groups_hash_by_id_and_size() {
    let a = NewGroup::new(3, Colour::Black, Coordinate::Index(4));
    let b = NewGroup::new(3, Colour::White, Coordinate::Index(9));
    let c = NewGroup::new(4, Colour::Black, Coordinate::Index(4));
    assert_eq!(hash_of(&a), hash_of(&b));
    assert_ne!(hash_of(&a), hash_of(&c));
    let merged = NewGroup::merge_groups(3, &vec![&a, &b]);
    assert_ne!(hash_of(&a), hash_of(&merged));
}
