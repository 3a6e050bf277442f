//! A small map from names to items, kept as two vectors side by side.
//!
//! No name occurs twice, so a name stands for at most one item. Inserting
//! under a name that is present replaces the item in its place; a new name
//! goes to the end. The order of the entries is therefore the order in which
//! the names first came in.

use vstd::prelude::*;

verus! {

/// A map from names to items of type `V`.
#[derive(Debug)]
pub struct Table<V> {
    names: Vec<String>,
    items: Vec<V>,
}

impl<V> Table<V> {
    /// The names, in the order of the entries.
    pub closed spec fn keys(&self) -> Seq<Seq<char>> {
        Seq::new(self.names@.len(), |i: int| self.names@[i]@)
    }

    /// The items, in the order of the entries.
    pub closed spec fn items(&self) -> Seq<V> {
        self.items@
    }

    /// The invariant of the table: as many names as items, and no name
    /// twice.
    pub open spec fn wf(&self) -> bool {
        &&& self.keys().len() == self.items().len()
        &&& forall|i: int, j: int|
            0 <= i < j < self.keys().len() ==> self.keys()[i] != self.keys()[j]
    }

    /// Whether the table has an entry under `key`.
    pub open spec fn contains(&self, key: Seq<char>) -> bool {
        exists|i: int| 0 <= i < self.keys().len() && self.keys()[i] == key
    }

    /// The place of the entry under `key`.
    pub open spec fn index_of(&self, key: Seq<char>) -> int {
        choose|i: int| 0 <= i < self.keys().len() && self.keys()[i] == key
    }

    /// The item under `key`.
    pub open spec fn at(&self, key: Seq<char>) -> V {
        self.items()[self.index_of(key)]
    }

    /// In a well-formed table the entry at place `i` is the one that its
    /// name stands for.
    pub proof fn lemma_index(&self, i: int)
        requires
            self.wf(),
            0 <= i < self.keys().len(),
        ensures
            self.contains(self.keys()[i]),
            self.index_of(self.keys()[i]) == i,
            self.at(self.keys()[i]) == self.items()[i],
    {
        let key = self.keys()[i];
        let j = self.index_of(key);
        assert(0 <= j < self.keys().len() && self.keys()[j] == key);
        if i < j {
            assert(self.keys()[i] != self.keys()[j]);
        }
        if j < i {
            assert(self.keys()[j] != self.keys()[i]);
        }
    }

    /// The table without entries.
    pub fn new() -> (r: Self)
        ensures
            r.wf(),
            r.keys() == Seq::<Seq<char>>::empty(),
            r.items() == Seq::<V>::empty(),
            forall|k: Seq<char>| !r.contains(k),
    {
        let r = Table { names: Vec::new(), items: Vec::new() };
        assert(r.keys() =~= Seq::<Seq<char>>::empty());
        r
    }

    /// The number of entries.
    pub fn len(&self) -> (r: usize)
        requires
            self.wf(),
        ensures
            r == self.keys().len(),
            r == self.items().len(),
    {
        self.items.len()
    }

    /// The name of the entry at place `i`.
    pub fn name_at(&self, i: usize) -> (r: &String)
        requires
            self.wf(),
            i < self.keys().len(),
        ensures
            r@ == self.keys()[i as int],
    {
        &self.names[i]
    }

    /// The item of the entry at place `i`.
    pub fn item_at(&self, i: usize) -> (r: &V)
        requires
            self.wf(),
            i < self.keys().len(),
        ensures
            *r == self.items()[i as int],
    {
        &self.items[i]
    }

    /// The place of the entry under `key`, if there is one.
    pub fn find(&self, key: &String) -> (r: Option<usize>)
        requires
            self.wf(),
        ensures
            match r {
                Some(i) => i < self.keys().len() && self.keys()[i as int] == key@
                    && self.contains(key@) && self.index_of(key@) == i,
                None => !self.contains(key@),
            },
    {
        let n = self.names.len();
        let mut i: usize = 0;
        while i < n
            invariant
                self.wf(),
                n == self.names@.len(),
                n == self.keys().len(),
                i <= n,
                forall|k: int| 0 <= k < i ==> self.keys()[k] != key@,
            decreases n - i,
        {
            if self.names[i].eq(key) {
                proof {
                    self.lemma_index(i as int);
                }
                return Some(i);
            }
            i = i + 1;
        }
        None
    }

    /// The item under `key`, if there is one.
    pub fn get(&self, key: &String) -> (r: Option<&V>)
        requires
            self.wf(),
        ensures
            match r {
                Some(v) => self.contains(key@) && *v == self.at(key@),
                None => !self.contains(key@),
            },
    {
        match self.find(key) {
            Some(i) => Some(&self.items[i]),
            None => None,
        }
    }

    /// Puts `item` under `key`: in the place of the item that was there, or
    /// at the end where the name is new.
    pub fn insert(&mut self, key: String, item: V)
        requires
            old(self).wf(),
        ensures
            final(self).wf(),
            final(self).contains(key@),
            final(self).at(key@) == item,
            forall|k: Seq<char>| #[trigger]
                final(self).contains(k) <==> (k == key@ || old(self).contains(k)),
            forall|k: Seq<char>|
                k != key@ && old(self).contains(k) ==> #[trigger] final(self).at(k) == old(self).at(
                    k,
                ),
            old(self).contains(key@) ==> final(self).keys() == old(self).keys(),
            old(self).contains(key@) ==> final(self).items() == old(self).items().update(
                old(self).index_of(key@),
                item,
            ),
            !old(self).contains(key@) ==> final(self).keys() == old(self).keys().push(key@),
            !old(self).contains(key@) ==> final(self).items() == old(self).items().push(item),
    {
        let ghost before = *self;
        match self.find(&key) {
            Some(i) => {
                self.items.set(i, item);
                proof {
                    assert(self.keys() =~= before.keys());
                    assert forall|k: Seq<char>| #[trigger]
                        self.contains(k) <==> (k == key@ || before.contains(k)) by {
                        if before.contains(k) {
                            let j = before.index_of(k);
                            assert(self.keys()[j] == k);
                        }
                        if self.contains(k) {
                            let j = self.index_of(k);
                            assert(before.keys()[j] == k);
                        }
                    }
                    self.lemma_index(i as int);
                    assert forall|k: Seq<char>| k != key@ && before.contains(k) implies #[trigger]
                        self.at(k) == before.at(k) by {
                        let j = before.index_of(k);
                        before.lemma_index(j);
                        self.lemma_index(j);
                    }
                }
            },
            None => {
                self.names.push(key);
                self.items.push(item);
                proof {
                    let n = before.keys().len() as int;
                    assert(self.keys() =~= before.keys().push(key@));
                    assert forall|i: int, j: int| 0 <= i < j < self.keys().len()
                        implies self.keys()[i]
                        != self.keys()[j] by {
                        if j == n {
                            assert(before.keys()[i] == self.keys()[i]);
                        } else {
                            assert(before.keys()[i] != before.keys()[j]);
                        }
                    }
                    self.lemma_index(n);
                    assert forall|k: Seq<char>| #[trigger]
                        self.contains(k) <==> (k == key@ || before.contains(k)) by {
                        if before.contains(k) {
                            let j = before.index_of(k);
                            assert(self.keys()[j] == k);
                        }
                        if self.contains(k) && k != key@ {
                            let j = self.index_of(k);
                            assert(before.keys()[j] == k);
                        }
                    }
                    assert forall|k: Seq<char>| k != key@ && before.contains(k) implies #[trigger]
                        self.at(k) == before.at(k) by {
                        let j = before.index_of(k);
                        before.lemma_index(j);
                        assert(self.keys()[j] == k);
                        self.lemma_index(j);
                    }
                }
            },
        }
    }
}

} // verus!
