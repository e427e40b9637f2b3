//! Tables that are looked up by file ID.

use vstd::prelude::*;

use crate::hash::same_digest;
use crate::packets::FileHash;

verus! {

/// A table with at most one value for each file ID, in the order in which the IDs came first.
pub struct IdTable<V> {
    pub entries: Vec<(FileHash, V)>,
}

/// Entry `i` is that of the ID.
pub open spec fn is_entry_of<V>(entries: Seq<(FileHash, V)>, id: Seq<u8>, i: int) -> bool {
    0 <= i < entries.len() && entries[i].0@ == id
}

/// The entry of the ID.
pub open spec fn entry_of<V>(entries: Seq<(FileHash, V)>, id: Seq<u8>) -> int {
    choose|i: int| #[trigger] is_entry_of(entries, id, i)
}

impl<V> View for IdTable<V> {
    type V = Map<Seq<u8>, V>;

    open spec fn view(&self) -> Map<Seq<u8>, V> {
        Map::new(
            |id: Seq<u8>| exists|i: int| #[trigger] is_entry_of(self.entries@, id, i),
            |id: Seq<u8>| self.entries@[entry_of(self.entries@, id)].1,
        )
    }
}

impl<V> IdTable<V> {
    /// No ID occurs twice.
    pub open spec fn wf(&self) -> bool {
        forall|i: int, j: int|
            0 <= i < j < self.entries@.len() ==> (#[trigger] self.entries@[i]).0@ != (
            #[trigger] self.entries@[j]).0@
    }

    /// Entry `i` is what the table holds for its ID.
    pub proof fn lemma_entry(&self, i: int)
        requires
            self.wf(),
            0 <= i < self.entries@.len(),
        ensures
            self@.dom().contains(self.entries@[i].0@),
            self@[self.entries@[i].0@] == self.entries@[i].1,
    {
        let id = self.entries@[i].0@;
        assert(is_entry_of(self.entries@, id, i));
        let k = entry_of(self.entries@, id);
        assert(is_entry_of(self.entries@, id, k));
        if i < k {
            assert(self.entries@[i].0@ != self.entries@[k].0@);
        } else if k < i {
            assert(self.entries@[k].0@ != self.entries@[i].0@);
        }
    }

    /// An empty table.
    pub fn new() -> (r: IdTable<V>)
        ensures
            r.wf(),
            r@ == Map::<Seq<u8>, V>::empty(),
            r.entries@.len() == 0,
    {
        let r = IdTable { entries: Vec::new() };
        assert(r@ =~= Map::<Seq<u8>, V>::empty());
        r
    }

    /// The number of IDs.
    pub fn len(&self) -> (r: usize)
        ensures
            r == self.entries@.len(),
    {
        self.entries.len()
    }

    /// Where the entry of an ID is.
    fn find(&self, id: &FileHash) -> (r: Option<usize>)
        ensures
            r matches Some(i) ==> is_entry_of(self.entries@, id@, i as int),
            r is None ==> forall|i: int| !is_entry_of(self.entries@, id@, i),
    {
        let n: usize = self.entries.len();
        for i in 0..n
            invariant
                n == self.entries@.len(),
                forall|j: int| 0 <= j < i ==> !is_entry_of(self.entries@, id@, j),
        {
            if same_digest(&self.entries[i].0, id) {
                return Some(i);
            }
        }
        None
    }

    /// The value of an ID.
    pub fn get(&self, id: &FileHash) -> (r: Option<&V>)
        requires
            self.wf(),
        ensures
            r is Some <==> self@.dom().contains(id@),
            r matches Some(v) ==> *v == self@[id@],
    {
        match self.find(id) {
            Some(i) => {
                proof {
                    self.lemma_entry(i as int);
                }
                Some(&self.entries[i].1)
            },
            None => None,
        }
    }

    /// Set the value of an ID.
    pub fn insert(&mut self, id: FileHash, value: V)
        requires
            old(self).wf(),
        ensures
            final(self).wf(),
            final(self)@ == old(self)@.insert(id@, value),
    {
        let ghost before = *self;
        match self.find(&id) {
            Some(i) => {
                self.entries.set(i, (id, value));
                proof {
                    assert(self.wf()) by {
                        assert forall|a: int, b: int| 0 <= a < b < self.entries@.len() implies (
                        #[trigger] self.entries@[a]).0@ != (#[trigger] self.entries@[b]).0@ by {
                            assert(before.entries@[a].0@ != before.entries@[b].0@);
                        }
                    }
                    let after = before@.insert(id@, value);
                    assert forall|k: Seq<u8>| self@.dom().contains(k) <==> after.dom().contains(
                        k,
                    ) by {
                        if self@.dom().contains(k) {
                            let j = choose|j: int| #[trigger] is_entry_of(self.entries@, k, j);
                            assert(is_entry_of(before.entries@, k, j));
                        }
                        if before@.dom().contains(k) {
                            let j = choose|j: int| #[trigger] is_entry_of(before.entries@, k, j);
                            assert(is_entry_of(self.entries@, k, j));
                        }
                        assert(is_entry_of(self.entries@, id@, i as int));
                    }
                    assert forall|k: Seq<u8>| self@.dom().contains(k) implies #[trigger] self@[k]
                        == after[k] by {
                        let j = choose|j: int| #[trigger] is_entry_of(self.entries@, k, j);
                        self.lemma_entry(j);
                        before.lemma_entry(j);
                        if j != i && k == id@ {
                            self.lemma_entry(i as int);
                            if j < i {
                                assert(self.entries@[j].0@ != self.entries@[i as int].0@);
                            } else {
                                assert(self.entries@[i as int].0@ != self.entries@[j].0@);
                            }
                        }
                    }
                    assert(self@ =~= after);
                }
            },
            None => {
                self.entries.push((id, value));
                proof {
                    let last = before.entries@.len() as int;
                    assert(self.wf()) by {
                        assert forall|a: int, b: int| 0 <= a < b < self.entries@.len() implies (
                        #[trigger] self.entries@[a]).0@ != (#[trigger] self.entries@[b]).0@ by {
                            if b < last {
                                assert(before.entries@[a].0@ != before.entries@[b].0@);
                            } else {
                                assert(!is_entry_of(before.entries@, id@, a));
                            }
                        }
                    }
                    let after = before@.insert(id@, value);
                    assert forall|k: Seq<u8>| self@.dom().contains(k) <==> after.dom().contains(
                        k,
                    ) by {
                        if self@.dom().contains(k) {
                            let j = choose|j: int| #[trigger] is_entry_of(self.entries@, k, j);
                            if j < last {
                                assert(is_entry_of(before.entries@, k, j));
                            }
                        }
                        if before@.dom().contains(k) {
                            let j = choose|j: int| #[trigger] is_entry_of(before.entries@, k, j);
                            assert(is_entry_of(self.entries@, k, j));
                        }
                        assert(is_entry_of(self.entries@, id@, last));
                    }
                    assert forall|k: Seq<u8>| self@.dom().contains(k) implies #[trigger] self@[k]
                        == after[k] by {
                        let j = choose|j: int| #[trigger] is_entry_of(self.entries@, k, j);
                        self.lemma_entry(j);
                        if j < last {
                            before.lemma_entry(j);
                            assert(!is_entry_of(before.entries@, id@, j));
                        }
                    }
                    assert(self@ =~= after);
                }
            },
        }
    }
}

} // verus!
