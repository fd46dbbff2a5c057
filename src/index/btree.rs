//! An ordered index: its entries are kept sorted by key in lexicographic order.
use vstd::prelude::*;

use super::lex_lt;
use super::lex_lt_from;
use super::Indexer;
use crate::entry::EntryPos;

verus! {

proof fn lemma_lt_irreflexive(a: Seq<u8>, i: int)
    requires
        0 <= i,
    ensures
        !lex_lt_from(a, a, i),
    decreases a.len() - i,
{
    if i < a.len() {
        lemma_lt_irreflexive(a, i + 1);
    }
}

proof fn lemma_lt_transitive(a: Seq<u8>, b: Seq<u8>, c: Seq<u8>, i: int)
    requires
        0 <= i,
        lex_lt_from(a, b, i),
        lex_lt_from(b, c, i),
    ensures
        lex_lt_from(a, c, i),
    decreases a.len() - i,
{
    if i < a.len() && i < b.len() && i < c.len() && a[i] == b[i] && b[i] == c[i] {
        lemma_lt_transitive(a, b, c, i + 1);
    }
}

proof fn lemma_lt_total(a: Seq<u8>, b: Seq<u8>, i: int)
    requires
        0 <= i <= a.len(),
        i <= b.len(),
        a.subrange(0, i) == b.subrange(0, i),
        !lex_lt_from(a, b, i),
        !lex_lt_from(b, a, i),
    ensures
        a == b,
    decreases a.len() - i,
{
    if i >= a.len() {
        assert(a =~= a.subrange(0, i));
        assert(b =~= b.subrange(0, i));
    } else {
        assert(a[i] == b[i]);
        assert(a.subrange(0, i + 1) =~= a.subrange(0, i).push(a[i]));
        assert(b.subrange(0, i + 1) =~= b.subrange(0, i).push(b[i]));
        lemma_lt_total(a, b, i + 1);
    }
}

proof fn lemma_lt_equal(a: Seq<u8>, b: Seq<u8>)
    requires
        !lex_lt(a, b),
        !lex_lt(b, a),
    ensures
        a == b,
{
    assert(a.subrange(0, 0) =~= b.subrange(0, 0));
    lemma_lt_total(a, b, 0);
}

/// Whether `a` comes strictly before `b`.
fn key_less(a: &[u8], b: &[u8]) -> (r: bool)
    ensures
        r == lex_lt(a@, b@),
{
    let mut i: usize = 0;
    while i < a.len() && i < b.len()
        invariant
            0 <= i <= a@.len(),
            i <= b@.len(),
            lex_lt(a@, b@) == lex_lt_from(a@, b@, i as int),
        decreases a@.len() - i,
    {
        if a[i] != b[i] {
            return a[i] < b[i];
        }
        i = i + 1;
    }
    i < b.len()
}

/// Whether `a` and `b` hold the same bytes.
fn key_eq(a: &[u8], b: &[u8]) -> (r: bool)
    ensures
        r == (a@ == b@),
{
    if a.len() != b.len() {
        return false;
    }
    let mut i: usize = 0;
    while i < a.len()
        invariant
            0 <= i <= a@.len(),
            a@.len() == b@.len(),
            a@.subrange(0, i as int) == b@.subrange(0, i as int),
        decreases a@.len() - i,
    {
        if a[i] != b[i] {
            assert(a@[i as int] != b@[i as int]);
            return false;
        }
        assert(a@.subrange(0, i + 1) =~= a@.subrange(0, i as int).push(a@[i as int]));
        assert(b@.subrange(0, i + 1) =~= b@.subrange(0, i as int).push(b@[i as int]));
        i = i + 1;
    }
    assert(a@ =~= a@.subrange(0, i as int));
    assert(b@ =~= b@.subrange(0, i as int));
    true
}

/// An ordered index from keys to record positions.
///
/// The entries are kept in a vector sorted by key, found by binary search.
/// std's `BTreeMap` is not used: vstd specifies its operations only for key
/// types whose `Ord` it knows to obey the order laws, and it states no such
/// laws for `Vec<u8>`, so nothing could be proved of a map with byte-string
/// keys.
pub struct BTree {
    tree: Vec<(Vec<u8>, EntryPos)>,
    map: Ghost<Map<Seq<u8>, EntryPos>>,
}

impl BTree {
    /// An empty index.
    pub fn new() -> (r: BTree)
        ensures
            r.inv(),
            r.entries() == Map::<Seq<u8>, EntryPos>::empty(),
    {
        BTree { tree: Vec::new(), map: Ghost(Map::empty()) }
    }

    /// The position of the first entry whose key does not come before `key`,
    /// found by binary search.
    fn find(&self, key: &[u8]) -> (r: usize)
        requires
            self.inv(),
        ensures
            r <= self.tree@.len(),
            forall|j: int| 0 <= j < r ==> lex_lt(#[trigger] self.tree@[j].0@, key@),
            r < self.tree@.len() ==> !lex_lt(self.tree@[r as int].0@, key@),
    {
        let mut lo: usize = 0;
        let mut hi: usize = self.tree.len();
        while lo < hi
            invariant
                0 <= lo <= hi <= self.tree@.len(),
                self.inv(),
                forall|j: int| 0 <= j < lo ==> lex_lt(#[trigger] self.tree@[j].0@, key@),
                forall|j: int| hi <= j < self.tree@.len() ==> !lex_lt(#[trigger] self.tree@[j].0@, key@),
            decreases hi - lo,
        {
            let mid = lo + (hi - lo) / 2;
            if key_less(self.tree[mid].0.as_slice(), key) {
                assert forall|j: int| 0 <= j < mid + 1 implies lex_lt(#[trigger] self.tree@[j].0@, key@) by {
                    if j < mid {
                        assert(lex_lt(self.tree@[j].0@, self.tree@[mid as int].0@));
                        lemma_lt_transitive(self.tree@[j].0@, self.tree@[mid as int].0@, key@, 0);
                    }
                }
                lo = mid + 1;
            } else {
                assert forall|j: int| mid <= j < self.tree@.len() implies !lex_lt(#[trigger] self.tree@[j].0@, key@) by {
                    if j > mid && lex_lt(self.tree@[j].0@, key@) {
                        assert(lex_lt(self.tree@[mid as int].0@, self.tree@[j].0@));
                        lemma_lt_transitive(self.tree@[mid as int].0@, self.tree@[j].0@, key@, 0);
                    }
                }
                hi = mid;
            }
        }
        lo
    }
}

impl Default for BTree {
    fn default() -> (r: BTree)
        ensures
            r.inv(),
            r.entries() == Map::<Seq<u8>, EntryPos>::empty(),
    {
        BTree::new()
    }
}

impl Indexer for BTree {
    closed spec fn inv(&self) -> bool {
        &&& forall|i: int, j: int|
            0 <= i < j < self.tree@.len() ==> lex_lt(
                #[trigger] self.tree@[i].0@,
                #[trigger] self.tree@[j].0@,
            )
        &&& forall|i: int|
            0 <= i < self.tree@.len() ==> {
                &&& self.map@.contains_key(#[trigger] self.tree@[i].0@)
                &&& self.map@[self.tree@[i].0@] == self.tree@[i].1
            }
        &&& forall|k: Seq<u8>|
            #[trigger] self.map@.contains_key(k) ==> exists|i: int|
                0 <= i < self.tree@.len() && #[trigger] self.tree@[i].0@ == k
    }

    closed spec fn entries(&self) -> Map<Seq<u8>, EntryPos> {
        self.map@
    }

    fn put(&mut self, key: Vec<u8>, pos: EntryPos) -> (r: bool)
        ensures
            r,
    {
        let i = self.find(key.as_slice());
        let ghost k = key@;
        let ghost old_tree = self.tree@;
        let ghost old_map = self.map@;
        if i < self.tree.len() && key_eq(self.tree[i].0.as_slice(), key.as_slice()) {
            self.tree.set(i, (key, pos));
            self.map = Ghost(self.map@.insert(k, pos));
            assert forall|a: int, b: int|
                0 <= a < b < self.tree@.len() implies lex_lt(
                #[trigger] self.tree@[a].0@,
                #[trigger] self.tree@[b].0@,
            ) by {
                assert(old_tree[a].0@ == self.tree@[a].0@);
                assert(old_tree[b].0@ == self.tree@[b].0@);
            }
            assert forall|a: int| 0 <= a < self.tree@.len() implies {
                &&& self.map@.contains_key(#[trigger] self.tree@[a].0@)
                &&& self.map@[self.tree@[a].0@] == self.tree@[a].1
            } by {
                if a != i {
                    if a < i {
                        lemma_lt_irreflexive(k, 0);
                        assert(lex_lt(old_tree[a].0@, old_tree[i as int].0@));
                    } else {
                        assert(lex_lt(old_tree[i as int].0@, old_tree[a].0@));
                        lemma_lt_irreflexive(k, 0);
                    }
                }
            }
            assert forall|q: Seq<u8>| #[trigger] self.map@.contains_key(q) implies exists|a: int|
                0 <= a < self.tree@.len() && #[trigger] self.tree@[a].0@ == q by {
                if q != k {
                    let a = choose|a: int| 0 <= a < old_tree.len() && #[trigger] old_tree[a].0@ == q;
                    assert(self.tree@[a].0@ == q);
                } else {
                    assert(self.tree@[i as int].0@ == q);
                }
            }
        } else {
            if i < self.tree.len() {
                proof {
                    if !lex_lt(k, self.tree@[i as int].0@) {
                        lemma_lt_equal(self.tree@[i as int].0@, k);
                    }
                }
            }
            self.tree.insert(i, (key, pos));
            self.map = Ghost(self.map@.insert(k, pos));
            assert forall|a: int, b: int|
                0 <= a < b < self.tree@.len() implies lex_lt(
                #[trigger] self.tree@[a].0@,
                #[trigger] self.tree@[b].0@,
            ) by {
                if a < i && b < i {
                    assert(self.tree@[a] == old_tree[a]);
                    assert(self.tree@[b] == old_tree[b]);
                } else if a < i && b == i {
                    assert(self.tree@[a] == old_tree[a]);
                } else if a < i {
                    assert(self.tree@[a] == old_tree[a]);
                    assert(self.tree@[b] == old_tree[b - 1]);
                    assert(lex_lt(old_tree[a].0@, k));
                    if b - 1 > i {
                        assert(lex_lt(old_tree[i as int].0@, old_tree[b - 1].0@));
                        lemma_lt_transitive(k, old_tree[i as int].0@, old_tree[b - 1].0@, 0);
                    }
                    lemma_lt_transitive(old_tree[a].0@, k, old_tree[b - 1].0@, 0);
                } else if a == i {
                    assert(self.tree@[b] == old_tree[b - 1]);
                    if b - 1 > i {
                        assert(lex_lt(old_tree[i as int].0@, old_tree[b - 1].0@));
                        lemma_lt_transitive(k, old_tree[i as int].0@, old_tree[b - 1].0@, 0);
                    }
                } else {
                    assert(self.tree@[a] == old_tree[a - 1]);
                    assert(self.tree@[b] == old_tree[b - 1]);
                }
            }
            assert forall|a: int| 0 <= a < self.tree@.len() implies {
                &&& self.map@.contains_key(#[trigger] self.tree@[a].0@)
                &&& self.map@[self.tree@[a].0@] == self.tree@[a].1
            } by {
                if a < i {
                    assert(self.tree@[a] == old_tree[a]);
                    lemma_lt_irreflexive(k, 0);
                } else if a > i {
                    assert(self.tree@[a] == old_tree[a - 1]);
                    if a - 1 > i {
                        assert(lex_lt(old_tree[i as int].0@, old_tree[a - 1].0@));
                        lemma_lt_transitive(k, old_tree[i as int].0@, old_tree[a - 1].0@, 0);
                    }
                    lemma_lt_irreflexive(k, 0);
                }
            }
            assert forall|q: Seq<u8>| #[trigger] self.map@.contains_key(q) implies exists|a: int|
                0 <= a < self.tree@.len() && #[trigger] self.tree@[a].0@ == q by {
                if q != k {
                    let a = choose|a: int| 0 <= a < old_tree.len() && #[trigger] old_tree[a].0@ == q;
                    if a < i {
                        assert(self.tree@[a] == old_tree[a]);
                    } else {
                        assert(self.tree@[a + 1] == old_tree[a]);
                    }
                } else {
                    assert(self.tree@[i as int].0@ == q);
                }
            }
        }
        true
    }

    fn get(&self, key: Vec<u8>) -> (r: Option<EntryPos>) {
        let i = self.find(key.as_slice());
        if i < self.tree.len() && key_eq(self.tree[i].0.as_slice(), key.as_slice()) {
            Some(self.tree[i].1)
        } else {
            proof {
                if self.map@.contains_key(key@) {
                    let a = choose|a: int| 0 <= a < self.tree@.len() && #[trigger] self.tree@[a].0@ == key@;
                    lemma_lt_irreflexive(key@, 0);
                    if a > i {
                        assert(lex_lt(self.tree@[i as int].0@, self.tree@[a].0@));
                    }
                }
            }
            None
        }
    }

    fn del(&mut self, key: Vec<u8>) -> (r: bool) {
        let i = self.find(key.as_slice());
        let ghost k = key@;
        let ghost old_tree = self.tree@;
        if i < self.tree.len() && key_eq(self.tree[i].0.as_slice(), key.as_slice()) {
            self.tree.remove(i);
            self.map = Ghost(self.map@.remove(k));
            assert forall|a: int, b: int|
                0 <= a < b < self.tree@.len() implies lex_lt(
                #[trigger] self.tree@[a].0@,
                #[trigger] self.tree@[b].0@,
            ) by {
                let oa = if a < i { a } else { a + 1 };
                let ob = if b < i { b } else { b + 1 };
                assert(self.tree@[a] == old_tree[oa]);
                assert(self.tree@[b] == old_tree[ob]);
            }
            assert forall|a: int| 0 <= a < self.tree@.len() implies {
                &&& self.map@.contains_key(#[trigger] self.tree@[a].0@)
                &&& self.map@[self.tree@[a].0@] == self.tree@[a].1
            } by {
                lemma_lt_irreflexive(k, 0);
                if a < i {
                    assert(self.tree@[a] == old_tree[a]);
                    assert(lex_lt(old_tree[a].0@, old_tree[i as int].0@));
                } else {
                    assert(self.tree@[a] == old_tree[a + 1]);
                    assert(lex_lt(old_tree[i as int].0@, old_tree[a + 1].0@));
                }
            }
            assert forall|q: Seq<u8>| #[trigger] self.map@.contains_key(q) implies exists|a: int|
                0 <= a < self.tree@.len() && #[trigger] self.tree@[a].0@ == q by {
                let a = choose|a: int| 0 <= a < old_tree.len() && #[trigger] old_tree[a].0@ == q;
                if a < i {
                    assert(self.tree@[a] == old_tree[a]);
                } else {
                    assert(a != i);
                    assert(self.tree@[a - 1] == old_tree[a]);
                }
            }
            true
        } else {
            proof {
                if self.map@.contains_key(key@) {
                    let a = choose|a: int| 0 <= a < self.tree@.len() && #[trigger] self.tree@[a].0@ == key@;
                    lemma_lt_irreflexive(key@, 0);
                    if a > i {
                        assert(lex_lt(self.tree@[i as int].0@, self.tree@[a].0@));
                    }
                }
                assert(self.map@.remove(key@) =~= self.map@);
            }
            false
        }
    }
}

} // verus!
