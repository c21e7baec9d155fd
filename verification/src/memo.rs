//! The table of results that one matching call fills in as it goes.
use std::collections::HashMap;
use vstd::prelude::*;
use vstd::std_specs::hash::*;

verus! {

/// A position in the search, as (row, column), both counted from one: the
/// first `row - 1` graphemes of the pattern against the first `column - 1`
/// graphemes of the text. Row 0 and column 0 are the border around these.
pub type Position = (usize, usize);

/// Results by position, each written at most once.
///
/// A table belongs to one pair of pattern and text and is never shared: it
/// holds what has been found out about them so far and nothing else.
pub struct Memo {
    cells: HashMap<u128, bool>,
}

/// The key under which a position is stored: the row in the upper 64 bits,
/// the column in the lower.
pub closed spec fn cell_key(position: Position) -> u128 {
    (position.0 * 0x1_0000_0000_0000_0000 + position.1) as u128
}

/// Different positions have different keys.
proof fn lemma_cell_key_injective(a: Position, b: Position)
    ensures
        cell_key(a) == cell_key(b) <==> a == b,
{
}

fn key_of(row: usize, column: usize) -> (key: u128)
    ensures
        key == cell_key((row, column)),
{
    (row as u128) * 0x1_0000_0000_0000_0000u128 + (column as u128)
}

impl View for Memo {
    type V = Map<Position, bool>;

    /// The results held, by position.
    closed spec fn view(&self) -> Map<Position, bool> {
        Map::new(
            |position: Position| self.cells@.contains_key(cell_key(position)),
            |position: Position| self.cells@[cell_key(position)],
        )
    }
}

impl Memo {
    /// A table holds finitely many results.
    pub proof fn lemma_finite(self)
        ensures
            self@.dom().finite(),
    {
        broadcast use group_hash_axioms;

        let keys = self.cells@.dom();
        let position_of = |key: u128|
            ((key / 0x1_0000_0000_0000_0000) as usize, (key % 0x1_0000_0000_0000_0000) as usize);
        keys.lemma_map_finite(position_of);
        assert forall|position: Position| self@.dom().contains(position) implies keys.map(
            position_of,
        ).contains(position) by {
            assert(keys.contains(cell_key(position)));
            assert(position_of(cell_key(position)) == position);
        }
        vstd::set_lib::lemma_set_subset_finite(keys.map(position_of), self@.dom());
    }

    /// A table that holds nothing yet.
    pub fn new() -> (memo: Memo)
        ensures
            memo@ == Map::<Position, bool>::empty(),
    {
        Memo { cells: HashMap::new() }
    }

    /// The result held for a position, if there is one.
    pub fn get(&self, row: usize, column: usize) -> (found: Option<bool>)
        ensures
            found == if self@.contains_key((row, column)) {
                Some(self@[(row, column)])
            } else {
                None
            },
    {
        broadcast use group_hash_axioms;

        let key = key_of(row, column);
        match self.cells.get(&key) {
            Some(value) => Some(*value),
            None => None,
        }
    }

    /// Writes the result for a position, unless one is held already: an
    /// entry, once written, stays as it is.
    pub fn record(&mut self, row: usize, column: usize, value: bool)
        ensures
            final(self)@ == if old(self)@.contains_key((row, column)) {
                old(self)@
            } else {
                old(self)@.insert((row, column), value)
            },
    {
        broadcast use group_hash_axioms;

        let key = key_of(row, column);
        if !self.cells.contains_key(&key) {
            self.cells.insert(key, value);
            assert forall|position: Position|
                cell_key(position) == key implies position == (row, column) by {
                lemma_cell_key_injective(position, (row, column));
            }
        }
    }
}

} // verus!
