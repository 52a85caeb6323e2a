//! The status snapshot: a mapping from status keys to values whose entries
//! are kept in lexicographic order of their keys.
use vstd::prelude::*;
use crate::text::{compare_text, lemma_text_less_irreflexive, lemma_text_less_transitive, text_less};

verus! {

/// A status snapshot. Keys are unique and the entries are kept sorted by
/// key, so that walking the snapshot gives a deterministic order.
pub struct Snapshot {
    entries: Vec<(String, String)>,
    model: Ghost<Map<Seq<char>, Seq<char>>>,
}

impl View for Snapshot {
    type V = Map<Seq<char>, Seq<char>>;

    closed spec fn view(&self) -> Map<Seq<char>, Seq<char>> {
        self.model@
    }
}

impl Snapshot {
    /// The number of entries.
    pub closed spec fn size(&self) -> nat {
        self.entries@.len()
    }

    /// The key of entry `i`, in key order.
    pub closed spec fn key_at(&self, i: int) -> Seq<char> {
        self.entries@[i].0@
    }

    /// The value of entry `i`, in key order.
    pub closed spec fn value_at(&self, i: int) -> Seq<char> {
        self.entries@[i].1@
    }

    /// Entries sorted strictly by key, each one an entry of the mapping, and
    /// every key of the mapping held by an entry.
    pub open spec fn wf(&self) -> bool {
        &&& forall|i: int, j: int|
            0 <= i < j < self.size() ==> text_less(#[trigger] self.key_at(i), #[trigger] self.key_at(j))
        &&& forall|i: int|
            0 <= i < self.size() ==> self@.contains_key(#[trigger] self.key_at(i)) && self@[self.key_at(i)]
                == self.value_at(i)
        &&& forall|k: Seq<char>|
            #[trigger] self@.contains_key(k) ==> exists|i: int| 0 <= i < self.size() && self.key_at(i) == k
    }

    /// An empty snapshot.
    pub fn new() -> (r: Snapshot)
        ensures
            r.wf(),
            r@ == Map::<Seq<char>, Seq<char>>::empty(),
            r.size() == 0,
    {
        Snapshot { entries: Vec::new(), model: Ghost(Map::empty()) }
    }

    /// The number of entries.
    pub fn len(&self) -> (r: usize)
        ensures
            r == self.size(),
    {
        self.entries.len()
    }

    /// Entry `i` in key order, as (key, value).
    pub fn entry(&self, i: usize) -> (r: (&String, &String))
        requires
            i < self.size(),
        ensures
            r.0@ == self.key_at(i as int),
            r.1@ == self.value_at(i as int),
    {
        (&self.entries[i].0, &self.entries[i].1)
    }

    /// The value stored under `key`, if any.
    pub fn get(&self, key: &str) -> (r: Option<&String>)
        requires
            self.wf(),
        ensures
            match r {
                Some(v) => self@.contains_key(key@) && v@ == self@[key@],
                None => !self@.contains_key(key@),
            },
    {
        let mut i: usize = 0;
        while i < self.entries.len()
            invariant
                self.wf(),
                i <= self.size(),
                forall|j: int| 0 <= j < i ==> self.key_at(j) != key@,
            decreases self.size() - i,
        {
            if compare_text(self.entries[i].0.as_str(), key) == 0 {
                assert(self.key_at(i as int) == key@);
                assert(self@.contains_key(self.key_at(i as int)));
                return Some(&self.entries[i].1);
            }
            i = i + 1;
        }
        None
    }

    /// Stores `value` under `key`, replacing what was stored there before.
    pub fn insert(&mut self, key: String, value: String)
        requires
            old(self).wf(),
        ensures
            final(self).wf(),
            final(self)@ == old(self)@.insert(key@, value@),
    {
        let ghost k = key@;
        let ghost v = value@;
        let n = self.entries.len();
        let mut i: usize = 0;
        while i < n
            invariant
                n == self.size(),
                key@ == k,
                value@ == v,
                self.wf(),
                *self == *old(self),
                i <= n,
                forall|j: int| 0 <= j < i ==> text_less(#[trigger] self.key_at(j), k),
            ensures
                *self == *old(self),
                i <= n,
                forall|j: int| 0 <= j < i ==> text_less(#[trigger] self.key_at(j), k),
                i < n ==> text_less(k, self.key_at(i as int)),
            decreases n - i,
        {
            let c = compare_text(self.entries[i].0.as_str(), key.as_str());
            if c == 0 {
                let ghost before = *self;
                let pair = (key, value);
                assert(pair.0@ == k && pair.1@ == v);
                self.entries.set(i, pair);
                assert(self.entries@[i as int] == pair);
                self.model = Ghost(self.model@.insert(k, v));
                proof {
                    assert(self.entries@ == before.entries@.update(i as int, self.entries@[i as int]));
                    assert(self.key_at(i as int) == k);
                    assert(self.value_at(i as int) == v);
                    assert(before.key_at(i as int) == k);
                    assert forall|a: int, b: int|
                        0 <= a < b < self.size() implies text_less(
                        #[trigger] self.key_at(a),
                        #[trigger] self.key_at(b),
                    ) by {
                        assert(self.key_at(a) == before.key_at(a));
                        assert(self.key_at(b) == before.key_at(b));
                    }
                    assert forall|a: int| 0 <= a < self.size() implies self@.contains_key(
                        #[trigger] self.key_at(a),
                    ) && self@[self.key_at(a)] == self.value_at(a) by {
                        if a != i {
                            assert(self.key_at(a) == before.key_at(a));
                            if a < i {
                                assert(text_less(before.key_at(a), before.key_at(i as int)));
                            } else {
                                assert(text_less(before.key_at(i as int), before.key_at(a)));
                            }
                            lemma_text_less_irreflexive(k);
                        }
                    }
                    assert forall|q: Seq<char>| #[trigger] self@.contains_key(q) implies exists|a: int|
                        0 <= a < self.size() && self.key_at(a) == q by {
                        if q == k {
                            assert(self.key_at(i as int) == q);
                        } else {
                            assert(before@.contains_key(q));
                            let a = choose|a: int| 0 <= a < before.size() && before.key_at(a) == q;
                            assert(self.key_at(a) == q);
                        }
                    }
                }
                return;
            }
            if c > 0 {
                break;
            }
            i = i + 1;
        }
        let ghost before = *self;
        proof {
            assert forall|j: int| i <= j < n implies text_less(k, #[trigger] before.key_at(j)) by {
                if j > i {
                    assert(text_less(before.key_at(i as int), before.key_at(j)));
                    lemma_text_less_transitive(k, before.key_at(i as int), before.key_at(j));
                }
            }
        }
        self.entries.insert(i, (key, value));
        self.model = Ghost(self.model@.insert(k, v));
        proof {
            assert forall|j: int| 0 <= j < i implies #[trigger] self.key_at(j) == before.key_at(j) by {}
            assert forall|j: int| i < j <= n implies #[trigger] self.key_at(j) == before.key_at(j - 1) by {}
            assert(self.key_at(i as int) == k);
            assert forall|a: int, b: int|
                0 <= a < b < self.size() implies text_less(
                #[trigger] self.key_at(a),
                #[trigger] self.key_at(b),
            ) by {
                if a < i && b > i {
                    lemma_text_less_transitive(before.key_at(a), k, before.key_at(b - 1));
                }
            }
            assert forall|a: int| 0 <= a < self.size() implies self@.contains_key(
                #[trigger] self.key_at(a),
            ) && self@[self.key_at(a)] == self.value_at(a) by {
                lemma_text_less_irreflexive(k);
                if a < i {
                    assert(self.value_at(a) == before.value_at(a));
                    assert(text_less(before.key_at(a), k));
                } else if a > i {
                    assert(self.value_at(a) == before.value_at(a - 1));
                    assert(text_less(k, before.key_at(a - 1)));
                }
            }
            assert forall|q: Seq<char>| #[trigger] self@.contains_key(q) implies exists|a: int|
                0 <= a < self.size() && self.key_at(a) == q by {
                if q == k {
                    assert(self.key_at(i as int) == q);
                } else {
                    assert(before@.contains_key(q));
                    let a = choose|a: int| 0 <= a < before.size() && before.key_at(a) == q;
                    if a < i {
                        assert(self.key_at(a) == q);
                    } else {
                        assert(self.key_at(a + 1) == q);
                    }
                }
            }
        }
    }
}

} // verus!
