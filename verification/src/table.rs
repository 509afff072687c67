//! An ordered table from byte-string keys to byte-string values: the
//! in-memory state of the engines. Keys are kept in increasing
//! lexicographic order, each at most once, so that walking the table visits
//! them in order.
use vstd::prelude::*;

use crate::order::{
    bytes_lt, compare_keys, lemma_bytes_lt_irreflexive, lemma_bytes_lt_transitive, KeyOrder,
};

verus! {

/// Keys in increasing order, each with its value.
pub struct KvTable {
    entries: Vec<(Vec<u8>, Vec<u8>)>,
    contents: Ghost<Map<Seq<u8>, Seq<u8>>>,
}

impl View for KvTable {
    type V = Map<Seq<u8>, Seq<u8>>;

    closed spec fn view(&self) -> Map<Seq<u8>, Seq<u8>> {
        self.contents@
    }
}

impl KvTable {
    /// The key at position `i` in key order.
    pub closed spec fn key_at(self, i: int) -> Seq<u8> {
        self.entries@[i].0@
    }

    /// The value at position `i` in key order.
    pub closed spec fn value_at(self, i: int) -> Seq<u8> {
        self.entries@[i].1@
    }

    /// The number of entries.
    pub closed spec fn size(self) -> nat {
        self.entries@.len()
    }

    /// The keys in the order the table holds them.
    pub closed spec fn keys(self) -> Seq<Seq<u8>> {
        Seq::new(self.size(), |i: int| self.key_at(i))
    }

    /// Keys strictly increase, and the entries are exactly the contents.
    pub closed spec fn wf(self) -> bool {
        &&& forall|i: int, j: int|
            0 <= i < j < self.size() ==> bytes_lt(#[trigger] self.key_at(i), #[trigger] self.key_at(j))
        &&& forall|i: int|
            0 <= i < self.size() ==> {
                &&& self.contents@.contains_key(#[trigger] self.key_at(i))
                &&& self.contents@[self.key_at(i)] == self.value_at(i)
            }
        &&& forall|k: Seq<u8>|
            #[trigger] self.contents@.contains_key(k) ==> exists|i: int|
                0 <= i < self.size() && self.key_at(i) == k
    }

    /// In a well-formed table the keys are the domain, in increasing order,
    /// and the number of entries is the number of keys.
    pub proof fn lemma_keys(self)
        requires
            self.wf(),
        ensures
            self.keys().len() == self.size(),
            self.keys().no_duplicates(),
            self.keys().to_set() == self@.dom(),
            forall|i: int, j: int|
                0 <= i < j < self.size() ==> bytes_lt(
                    #[trigger] self.keys()[i],
                    #[trigger] self.keys()[j],
                ),
            forall|i: int|
                0 <= i < self.size() ==> self@.contains_key(#[trigger] self.keys()[i]) && self@[self.keys()[i]]
                    == self.value_at(i),
            self@.dom().finite(),
            self@.len() == self.size(),
    {
        let ks = self.keys();
        assert forall|i: int, j: int| 0 <= i < ks.len() && 0 <= j < ks.len() && i != j implies ks[i]
            != ks[j] by {
            if i < j {
                assert(bytes_lt(self.key_at(i), self.key_at(j)));
                lemma_bytes_lt_irreflexive(ks[i]);
            } else {
                assert(bytes_lt(self.key_at(j), self.key_at(i)));
                lemma_bytes_lt_irreflexive(ks[i]);
            }
        }
        assert forall|k: Seq<u8>| ks.to_set().contains(k) <==> self@.dom().contains(k) by {
            if self@.dom().contains(k) {
                let i = choose|i: int| 0 <= i < self.size() && self.key_at(i) == k;
                assert(ks[i] == k);
            }
            if ks.to_set().contains(k) {
                let i = choose|i: int| 0 <= i < ks.len() && ks[i] == k;
                assert(self.contents@.contains_key(self.key_at(i)));
            }
        }
        assert(ks.to_set() =~= self@.dom());
        ks.unique_seq_to_set();
    }

    /// An empty table.
    pub fn new() -> (t: Self)
        ensures
            t.wf(),
            t@ == Map::<Seq<u8>, Seq<u8>>::empty(),
    {
        KvTable { entries: Vec::new(), contents: Ghost(Map::empty()) }
    }

    /// The number of keys.
    pub fn len(&self) -> (n: usize)
        requires
            self.wf(),
        ensures
            n == self@.len(),
    {
        proof {
            self.lemma_keys();
        }
        self.entries.len()
    }

    /// Where `key` stands or would stand in key order: the number of keys
    /// before it, and whether the key there is `key` itself.
    fn find(&self, key: &[u8]) -> (r: (usize, bool))
        requires
            self.wf(),
        ensures
            r.0 <= self.size(),
            forall|i: int| 0 <= i < r.0 ==> bytes_lt(#[trigger] self.key_at(i), key@),
            r.1 ==> r.0 < self.size() && self.key_at(r.0 as int) == key@,
            !r.1 ==> forall|i: int| r.0 <= i < self.size() ==> bytes_lt(key@, #[trigger] self.key_at(i)),
    {
        let mut i: usize = 0;
        while i < self.entries.len()
            invariant
                self.wf(),
                i <= self.size(),
                forall|j: int| 0 <= j < i ==> bytes_lt(#[trigger] self.key_at(j), key@),
            decreases self.size() - i,
        {
            match compare_keys(self.entries[i].0.as_slice(), key) {
                KeyOrder::Less => {
                    i = i + 1;
                },
                KeyOrder::Equal => {
                    return (i, true);
                },
                KeyOrder::Greater => {
                    assert forall|j: int| i <= j < self.size() implies bytes_lt(
                        key@,
                        #[trigger] self.key_at(j),
                    ) by {
                        if j > i {
                            assert(bytes_lt(self.key_at(i as int), self.key_at(j)));
                            lemma_bytes_lt_transitive(key@, self.key_at(i as int), self.key_at(j));
                        }
                    }
                    return (i, false);
                },
            }
        }
        (i, false)
    }

    /// Keys that `find` passes over or that come after the place it reports
    /// are not the key searched for.
    proof fn lemma_find_absent(self, key: Seq<u8>, p: int)
        requires
            self.wf(),
            0 <= p <= self.size(),
            forall|i: int| 0 <= i < p ==> bytes_lt(#[trigger] self.key_at(i), key),
            forall|i: int| p <= i < self.size() ==> bytes_lt(key, #[trigger] self.key_at(i)),
        ensures
            !self@.contains_key(key),
    {
        if self@.contains_key(key) {
            let i = choose|i: int| 0 <= i < self.size() && self.key_at(i) == key;
            lemma_bytes_lt_irreflexive(key);
            if i < p {
                assert(bytes_lt(self.key_at(i), key));
            } else {
                assert(bytes_lt(key, self.key_at(i)));
            }
        }
    }

    /// The value stored for `key`, if any.
    pub fn get(&self, key: &[u8]) -> (r: Option<&Vec<u8>>)
        requires
            self.wf(),
        ensures
            match r {
                Some(v) => self@.contains_key(key@) && v@ == self@[key@],
                None => !self@.contains_key(key@),
            },
    {
        let (p, found) = self.find(key);
        if found {
            Some(&self.entries[p].1)
        } else {
            proof {
                self.lemma_find_absent(key@, p as int);
            }
            None
        }
    }

    /// Stores `value` under `key`, replacing what was there.
    pub fn insert(&mut self, key: Vec<u8>, value: Vec<u8>)
        requires
            old(self).wf(),
        ensures
            final(self).wf(),
            final(self)@ == old(self)@.insert(key@, value@),
    {
        let ghost old_t = *self;
        let ghost k = key@;
        let ghost v = value@;
        let (p, found) = self.find(key.as_slice());
        if found {
            self.entries.set(p, (key, value));
            self.contents = Ghost(old_t.contents@.insert(k, v));
            assert forall|i: int| 0 <= i < self.size() && i != p implies self.key_at(i)
                != k by {
                if i < p {
                    assert(bytes_lt(old_t.key_at(i), old_t.key_at(p as int)));
                } else {
                    assert(bytes_lt(old_t.key_at(p as int), old_t.key_at(i)));
                }
                lemma_bytes_lt_irreflexive(k);
            }
            assert forall|i: int| 0 <= i < self.size() implies #[trigger] self.key_at(i)
                == old_t.key_at(i) && self.value_at(i) == (if i == p {
                v
            } else {
                old_t.value_at(i)
            }) by {}
            assert forall|i: int, j: int| 0 <= i < j < self.size() implies bytes_lt(
                #[trigger] self.key_at(i),
                #[trigger] self.key_at(j),
            ) by {
                assert(bytes_lt(old_t.key_at(i), old_t.key_at(j)));
            }
            assert forall|i: int| 0 <= i < self.size() implies {
                &&& self.contents@.contains_key(#[trigger] self.key_at(i))
                &&& self.contents@[self.key_at(i)] == self.value_at(i)
            } by {
                assert(old_t.contents@.contains_key(old_t.key_at(i)));
            }
            assert forall|kk: Seq<u8>| #[trigger]
                self.contents@.contains_key(kk) implies exists|i: int|
                0 <= i < self.size() && self.key_at(i) == kk by {
                if kk == k {
                    assert(self.key_at(p as int) == kk);
                } else {
                    let i = choose|i: int| 0 <= i < old_t.size() && old_t.key_at(i) == kk;
                    assert(self.key_at(i) == kk);
                }
            }
        } else {
            proof {
                old_t.lemma_find_absent(k, p as int);
            }
            self.entries.insert(p, (key, value));
            self.contents = Ghost(old_t.contents@.insert(k, v));
            assert forall|i: int| 0 <= i < self.size() implies #[trigger] self.key_at(i) == (if i
                < p {
                old_t.key_at(i)
            } else if i == p {
                k
            } else {
                old_t.key_at(i - 1)
            }) && self.value_at(i) == (if i < p {
                old_t.value_at(i)
            } else if i == p {
                v
            } else {
                old_t.value_at(i - 1)
            }) by {}
            assert forall|i: int, j: int| 0 <= i < j < self.size() implies bytes_lt(
                #[trigger] self.key_at(i),
                #[trigger] self.key_at(j),
            ) by {
                if i < p && j == p {
                } else if i < p && j > p {
                    assert(bytes_lt(old_t.key_at(i), k));
                    assert(bytes_lt(k, old_t.key_at(j - 1)));
                    lemma_bytes_lt_transitive(old_t.key_at(i), k, old_t.key_at(j - 1));
                } else if i == p {
                    assert(bytes_lt(k, old_t.key_at(j - 1)));
                } else if i < p {
                    assert(bytes_lt(old_t.key_at(i), old_t.key_at(j)));
                } else {
                    assert(bytes_lt(old_t.key_at(i - 1), old_t.key_at(j - 1)));
                }
            }
            assert forall|i: int| 0 <= i < self.size() implies {
                &&& self.contents@.contains_key(#[trigger] self.key_at(i))
                &&& self.contents@[self.key_at(i)] == self.value_at(i)
            } by {
                if i < p {
                    assert(old_t.contents@.contains_key(old_t.key_at(i)));
                    assert(old_t.key_at(i) != k);
                } else if i > p {
                    assert(old_t.contents@.contains_key(old_t.key_at(i - 1)));
                    assert(old_t.key_at(i - 1) != k);
                }
            }
            assert forall|kk: Seq<u8>| #[trigger]
                self.contents@.contains_key(kk) implies exists|i: int|
                0 <= i < self.size() && self.key_at(i) == kk by {
                if kk == k {
                    assert(self.key_at(p as int) == kk);
                } else {
                    let i = choose|i: int| 0 <= i < old_t.size() && old_t.key_at(i) == kk;
                    if i < p {
                        assert(self.key_at(i) == kk);
                    } else {
                        assert(self.key_at(i + 1) == kk);
                    }
                }
            }
        }
    }

    /// Removes `key` and its value, if present.
    pub fn remove(&mut self, key: &[u8])
        requires
            old(self).wf(),
        ensures
            final(self).wf(),
            final(self)@ == old(self)@.remove(key@),
    {
        let ghost old_t = *self;
        let ghost k = key@;
        let (p, found) = self.find(key);
        if found {
            let _removed = self.entries.remove(p);
            self.contents = Ghost(old_t.contents@.remove(k));
            assert forall|i: int| 0 <= i < self.size() implies #[trigger] self.key_at(i) == (if i
                < p {
                old_t.key_at(i)
            } else {
                old_t.key_at(i + 1)
            }) && self.value_at(i) == (if i < p {
                old_t.value_at(i)
            } else {
                old_t.value_at(i + 1)
            }) by {}
            assert forall|i: int, j: int| 0 <= i < j < self.size() implies bytes_lt(
                #[trigger] self.key_at(i),
                #[trigger] self.key_at(j),
            ) by {
                if i < p && j < p {
                    assert(bytes_lt(old_t.key_at(i), old_t.key_at(j)));
                } else if i < p {
                    assert(bytes_lt(old_t.key_at(i), old_t.key_at(j + 1)));
                } else {
                    assert(bytes_lt(old_t.key_at(i + 1), old_t.key_at(j + 1)));
                }
            }
            assert forall|i: int| 0 <= i < self.size() implies {
                &&& self.contents@.contains_key(#[trigger] self.key_at(i))
                &&& self.contents@[self.key_at(i)] == self.value_at(i)
            } by {
                lemma_bytes_lt_irreflexive(k);
                if i < p {
                    assert(bytes_lt(old_t.key_at(i), old_t.key_at(p as int)));
                    assert(old_t.contents@.contains_key(old_t.key_at(i)));
                } else {
                    assert(bytes_lt(old_t.key_at(p as int), old_t.key_at(i + 1)));
                    assert(old_t.contents@.contains_key(old_t.key_at(i + 1)));
                }
            }
            assert forall|kk: Seq<u8>| #[trigger]
                self.contents@.contains_key(kk) implies exists|i: int|
                0 <= i < self.size() && self.key_at(i) == kk by {
                let i = choose|i: int| 0 <= i < old_t.size() && old_t.key_at(i) == kk;
                assert(i != p);
                if i < p {
                    assert(self.key_at(i) == kk);
                } else {
                    assert(self.key_at(i - 1) == kk);
                }
            }
        } else {
            proof {
                old_t.lemma_find_absent(k, p as int);
                assert(old_t.contents@.remove(k) =~= old_t.contents@);
            }
        }
    }

    /// The key at position `i` in key order.
    pub fn key(&self, i: usize) -> (k: &Vec<u8>)
        requires
            self.wf(),
            i < self@.len(),
        ensures
            k@ == self.keys()[i as int],
    {
        proof {
            self.lemma_keys();
        }
        &self.entries[i].0
    }

    /// The value at position `i` in key order.
    pub fn value(&self, i: usize) -> (v: &Vec<u8>)
        requires
            self.wf(),
            i < self@.len(),
        ensures
            v@ == self@[self.keys()[i as int]],
    {
        proof {
            self.lemma_keys();
        }
        &self.entries[i].1
    }
}

} // verus!
