//! The in-memory index: from a key to the place of its newest record.
use vstd::prelude::*;

use crate::entry::EntryPos;

pub mod btree;

verus! {

/// Lexicographic order on byte strings, compared from position `i` on, where
/// the two strings agree before `i`.
pub open spec fn lex_lt_from(a: Seq<u8>, b: Seq<u8>, i: int) -> bool
    decreases a.len() - i,
{
    if i >= a.len() {
        i < b.len()
    } else if i >= b.len() {
        false
    } else if a[i] != b[i] {
        a[i] < b[i]
    } else {
        lex_lt_from(a, b, i + 1)
    }
}

/// Whether `a` comes strictly before `b` in lexicographic order.
pub open spec fn lex_lt(a: Seq<u8>, b: Seq<u8>) -> bool {
    lex_lt_from(a, b, 0)
}

/// An index from keys to record positions.
///
/// An implementation may refuse an update (`put` returns `false`), and then
/// leaves its entries as they were.
pub trait Indexer: Sized {
    /// The implementation's own well-formedness.
    spec fn inv(&self) -> bool;

    /// The position that the index holds for each key.
    spec fn entries(&self) -> Map<Seq<u8>, EntryPos>;

    /// Maps `key` to `pos`, replacing what it mapped to before.
    fn put(&mut self, key: Vec<u8>, pos: EntryPos) -> (r: bool)
        requires
            old(self).inv(),
        ensures
            final(self).inv(),
            r ==> final(self).entries() == old(self).entries().insert(key@, pos),
            !r ==> final(self).entries() == old(self).entries(),
    ;

    /// The position that `key` maps to, if any.
    fn get(&self, key: Vec<u8>) -> (r: Option<EntryPos>)
        requires
            self.inv(),
        ensures
            match r {
                Some(p) => self.entries().contains_key(key@) && self.entries()[key@] == p,
                None => !self.entries().contains_key(key@),
            },
    ;

    /// Removes `key`; returns whether it was there.
    fn del(&mut self, key: Vec<u8>) -> (r: bool)
        requires
            old(self).inv(),
        ensures
            final(self).inv(),
            r == old(self).entries().contains_key(key@),
            final(self).entries() == old(self).entries().remove(key@),
    ;
}

} // verus!
