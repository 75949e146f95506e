//! The transposition cache: for each fingerprint, the position that was last
//! met with it, grid and score.

use vstd::prelude::*;
use std::collections::HashMap;
use crate::board::Board;
use crate::fingerprint::{BoardHash, same_cells};

verus! {

/// A map from fingerprints to positions. Entries are added or overwritten,
/// never removed. An entry answers only for the grid that it holds, so two
/// grids that share a fingerprint are never taken for one another.
pub struct TranspositionCache {
    table: HashMap<u128, HashMap<u128, Board>>,
}

impl TranspositionCache {
    /// The entries of the cache.
    pub closed spec fn view(&self) -> Map<(u128, u128), Board> {
        Map::new(
            |k: (u128, u128)| self.table@.contains_key(k.0) && self.table@[k.0]@.contains_key(k.1),
            |k: (u128, u128)| self.table@[k.0]@[k.1],
        )
    }

    /// A cache without entries.
    pub fn new() -> (c: TranspositionCache)
        ensures
            c@ == Map::<(u128, u128), Board>::empty(),
    {
        let c = TranspositionCache { table: HashMap::new() };
        assert(c@ =~= Map::<(u128, u128), Board>::empty());
        c
    }

    /// The score recorded for the grid of `board` under the fingerprint
    /// `key`, if the entry under that fingerprint holds this very grid.
    pub fn get(&self, key: &BoardHash, board: &Board) -> (r: Option<u32>)
        ensures
            r == if self@.contains_key(key@) && self@[key@].grid() == board.grid() {
                Some(self@[key@].score)
            } else {
                None
            },
    {
        let first: u128 = key.board_hash[0];
        let second: u128 = key.board_hash[1];
        match self.table.get(&first) {
            Some(inner) => match inner.get(&second) {
                Some(entry) => {
                    if same_cells(&entry.board, &board.board) {
                        Some(entry.score)
                    } else {
                        None
                    }
                },
                None => None,
            },
            None => None,
        }
    }

    /// Records `board` under the fingerprint `key`, in place of what was
    /// recorded under it.
    pub fn insert(&mut self, key: BoardHash, board: Board)
        ensures
            final(self)@ == old(self)@.insert(key@, board),
    {
        let first: u128 = key.board_hash[0];
        let second: u128 = key.board_hash[1];
        let mut inner: HashMap<u128, Board> = match self.table.remove(&first) {
            Some(found) => found,
            None => HashMap::new(),
        };
        inner.insert(second, board);
        self.table.insert(first, inner);
        assert(self@ =~= old(self)@.insert(key@, board));
    }
}

} // verus!
