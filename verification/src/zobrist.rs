//! Zobrist hashing: every cell and stone colour has a random 64-bit key, and
//! a position's hash is the exclusive-or of the keys of its stones. The table
//! also remembers the hashes of the positions that a game has gone through.

use vstd::prelude::*;
use vstd::std_specs::hash::*;
use vstd::std_specs::iter::IteratorSpec;
use std::collections::HashSet;
use crate::colour::Colour;
use crate::geometry::cell_count;
use crate::random::next_key;

verus! {

broadcast use vstd::std_specs::hash::group_hash_axioms;

/// The key that a stone of `colour` on `cell` adds to a hash; an empty cell
/// adds nothing. `keys[cell]` holds Black's key, then White's.
pub open spec fn key_of(keys: Seq<(u64, u64)>, cell: int, colour: Colour) -> u64 {
    match colour {
        Colour::Empty => 0,
        Colour::Black => keys[cell].0,
        Colour::White => keys[cell].1,
    }
}

/// The hash of a board: the exclusive-or of the keys of all its cells.
pub open spec fn hash_of(keys: Seq<(u64, u64)>, board: Seq<Colour>) -> u64
    decreases board.len(),
{
    if board.len() == 0 {
        0
    } else {
        hash_of(keys, board.drop_last()) ^ key_of(keys, board.len() - 1, board.last())
    }
}

/// What a table is, apart from how it is stored.
pub struct ZobristView {
    pub keys: Seq<(u64, u64)>,
    pub visited: Set<u64>,
}

#[derive(Debug)]
pub struct ZobristTable {
    pub keys: Vec<(u64, u64)>,
    pub visited: HashSet<u64>,
}

impl View for ZobristTable {
    type V = ZobristView;

    open spec fn view(&self) -> ZobristView {
        ZobristView { keys: self.keys@, visited: self.visited@ }
    }
}

/// A set with the same hashes as `set`.
pub fn copy_hashes(set: &HashSet<u64>) -> (copy: HashSet<u64>)
    ensures
        copy@ == set@,
{
    let mut out: HashSet<u64> = HashSet::new();
    for p in it: set.iter()
        invariant
            it.seq() == spec_hash_keys_iter(set).remaining(),
            forall|k: u64|
                out@.contains(k) <==> exists|j: int| 0 <= j < it.index() && *it.seq()[j] == k,
    {
        out.insert(*p);
    }
    proof {
        let rem = spec_hash_keys_iter(set).remaining();
        assert(rem.unref().to_set() == set@);
        assert forall|k: u64| out@.contains(k) <==> set@.contains(k) by {
            if out@.contains(k) {
                let j = choose|j: int| 0 <= j < rem.len() && *rem[j] == k;
                assert(rem.unref()[j] == k);
            }
            if set@.contains(k) {
                assert(rem.unref().to_set().contains(k));
                let j = choose|j: int| 0 <= j < rem.unref().len() && rem.unref()[j] == k;
                assert(*rem[j] == k);
            }
        }
        assert(out@ =~= set@);
    }
    out
}

impl ZobristTable {
    /// A table for a board of side `size`, with fresh random keys and no
    /// position seen yet.
    pub fn new(size: usize) -> (table: Self)
        requires
            cell_count(size) <= usize::MAX,
        ensures
            table@.keys.len() == cell_count(size),
            table@.visited == Set::<u64>::empty(),
    {
        let mut rng = rand::thread_rng();
        let cells: usize = size * size;
        let mut keys: Vec<(u64, u64)> = Vec::new();
        let mut i: usize = 0;
        while i < cells
            invariant
                i <= cells,
                keys.len() == i,
            decreases cells - i,
        {
            let black: u64 = next_key(&mut rng);
            let white: u64 = next_key(&mut rng);
            keys.push((black, white));
            i += 1;
        }
        ZobristTable { keys, visited: HashSet::new() }
    }

    /// The hash of `board` under this table's keys.
    pub fn zobrist_hash(&self, board: &[Colour]) -> (hash: u64)
        requires
            board@.len() <= self@.keys.len(),
        ensures
            hash == hash_of(self@.keys, board@),
    {
        let mut hash_value: u64 = 0;
        let mut i: usize = 0;
        while i < board.len()
            invariant
                i <= board@.len() <= self.keys@.len(),
                hash_value == hash_of(self.keys@, board@.take(i as int)),
            decreases board.len() - i,
        {
            let colour = board[i];
            proof {
                assert(board@.take(i + 1).drop_last() =~= board@.take(i as int));
                assert(board@.take(i + 1).last() == board@[i as int]);
                let h = hash_value;
                assert(h ^ 0 == h) by (bit_vector);
            }
            match colour {
                Colour::Empty => {},
                Colour::Black => {
                    hash_value = hash_value ^ self.keys[i].0;
                },
                Colour::White => {
                    hash_value = hash_value ^ self.keys[i].1;
                },
            }
            i += 1;
        }
        assert(board@.take(board@.len() as int) =~= board@);
        hash_value
    }

    /// Remembers the position that `board` shows.
    pub fn insert_position(&mut self, board: &[Colour])
        requires
            board@.len() <= old(self)@.keys.len(),
        ensures
            final(self)@.keys == old(self)@.keys,
            final(self)@.visited == old(self)@.visited.insert(hash_of(old(self)@.keys, board@)),
    {
        let hash_value = self.zobrist_hash(board);
        self.visited.insert(hash_value);
    }

    /// Whether a position with the hash of `board` has been remembered.
    pub fn contains_position(&self, board: &[Colour]) -> (seen: bool)
        requires
            board@.len() <= self@.keys.len(),
        ensures
            seen == self@.visited.contains(hash_of(self@.keys, board@)),
    {
        let hash_value = self.zobrist_hash(board);
        self.visited.contains(&hash_value)
    }
}

impl Clone for ZobristTable {
    fn clone(&self) -> (copy: Self)
        ensures
            copy@ == self@,
    {
        let mut keys: Vec<(u64, u64)> = Vec::new();
        let mut i: usize = 0;
        while i < self.keys.len()
            invariant
                i <= self.keys.len(),
                keys@ == self.keys@.take(i as int),
            decreases self.keys.len() - i,
        {
            keys.push(self.keys[i]);
            assert(self.keys@.take(i + 1) =~= self.keys@.take(i as int).push(self.keys@[i as int]));
            i += 1;
        }
        assert(self.keys@.take(self.keys.len() as int) =~= self.keys@);
        ZobristTable { keys, visited: copy_hashes(&self.visited) }
    }
}

} // verus!
