//! A map from strings to values, each key once, in order of first insertion.
use crate::strings::str_eq;
use vstd::prelude::*;

verus! {

/// A map from strings to values.
#[derive(Debug, Clone)]
pub struct StringMap<V> {
    entries: Vec<(String, V)>,
}

impl<V> StringMap<V> {
    /// No key stands twice.
    pub closed spec fn wf(self) -> bool {
        forall|i: int, j: int|
            0 <= i < j < self.entries@.len() ==> self.entries@[i].0@ != self.entries@[j].0@
    }

    /// What the map holds.
    pub closed spec fn view(&self) -> Map<Seq<char>, V> {
        Map::new(
            |k: Seq<char>| exists|i: int| 0 <= i < self.entries@.len() && self.entries@[i].0@ == k,
            |k: Seq<char>|
                self.entries@[choose|i: int|
                    0 <= i < self.entries@.len() && self.entries@[i].0@ == k].1,
        )
    }

    proof fn lemma_at(self, i: int)
        requires
            self.wf(),
            0 <= i < self.entries@.len(),
        ensures
            self@.dom().contains(self.entries@[i].0@),
            self@[self.entries@[i].0@] == self.entries@[i].1,
    {
        let k = self.entries@[i].0@;
        let j = choose|j: int| 0 <= j < self.entries@.len() && self.entries@[j].0@ == k;
        assert(self.entries@[j].0@ == k);
        if i < j {
            assert(self.entries@[i].0@ != self.entries@[j].0@);
        }
        if j < i {
            assert(self.entries@[j].0@ != self.entries@[i].0@);
        }
    }

    /// A map with nothing in it.
    pub fn new() -> (m: Self)
        ensures
            m.wf(),
            m@ == Map::<Seq<char>, V>::empty(),
            m.count() == 0,
    {
        let m = StringMap { entries: Vec::new() };
        assert(m@ =~= Map::<Seq<char>, V>::empty());
        m
    }

    /// How many keys the map holds.
    pub closed spec fn count(self) -> nat {
        self.entries@.len()
    }

    /// How many keys the map holds.
    pub fn len(&self) -> (n: usize)
        ensures
            n == self.count(),
    {
        self.entries.len()
    }

    /// The map holds as many keys as its domain has members.
    pub proof fn lemma_count(self)
        requires
            self.wf(),
        ensures
            self@.dom().finite(),
            self@.dom().len() == self.count(),
    {
        let ks = Seq::new(self.entries@.len(), |i: int| self.entries@[i].0@);
        assert(ks.no_duplicates());
        ks.unique_seq_to_set();
        assert(ks.to_set() =~= self@.dom()) by {
            assert forall|k: Seq<char>| ks.to_set().contains(k) <==> self@.dom().contains(k) by {
                if ks.contains(k) {
                    let i = choose|i: int| 0 <= i < ks.len() && ks[i] == k;
                    assert(self.entries@[i].0@ == k);
                }
                if self@.dom().contains(k) {
                    let i = choose|i: int|
                        0 <= i < self.entries@.len() && self.entries@[i].0@ == k;
                    assert(ks[i] == k);
                }
            }
        }
    }

    fn position(&self, key: &str) -> (r: Option<usize>)
        ensures
            match r {
                Some(i) => i < self.entries@.len() && self.entries@[i as int].0@ == key@,
                None => !self@.dom().contains(key@),
            },
    {
        let mut i: usize = 0;
        while i < self.entries.len()
            invariant
                0 <= i <= self.entries@.len(),
                forall|j: int| 0 <= j < i ==> self.entries@[j].0@ != key@,
            decreases self.entries@.len() - i,
        {
            if str_eq(&self.entries[i].0, key) {
                return Some(i);
            }
            i = i + 1;
        }
        None
    }

    /// The value of a key.
    pub fn get(&self, key: &str) -> (r: Option<&V>)
        requires
            self.wf(),
        ensures
            match r {
                Some(v) => self@.dom().contains(key@) && *v == self@[key@],
                None => !self@.dom().contains(key@),
            },
    {
        match self.position(key) {
            Some(i) => {
                proof {
                    self.lemma_at(i as int);
                }
                Some(&self.entries[i].1)
            },
            None => None,
        }
    }

    /// Whether a key is in the map.
    pub fn contains_key(&self, key: &str) -> (b: bool)
        requires
            self.wf(),
        ensures
            b == self@.dom().contains(key@),
    {
        match self.position(key) {
            Some(i) => {
                proof {
                    self.lemma_at(i as int);
                }
                true
            },
            None => false,
        }
    }

    /// Sets the value of a key.
    pub fn insert(&mut self, key: String, value: V)
        requires
            old(self).wf(),
        ensures
            final(self).wf(),
            final(self)@ == old(self)@.insert(key@, value),
            final(self).count() == old(self).count() + (if old(self)@.dom().contains(key@) {
                0int
            } else {
                1
            }),
    {
        let ghost before = *self;
        let ghost k = key@;
        match self.position(&key) {
            Some(i) => {
                proof {
                    before.lemma_at(i as int);
                }
                self.entries.set(i, (key, value));
                proof {
                    assert(forall|j: int|
                        0 <= j < self.entries@.len() ==> self.entries@[j].0@
                            == before.entries@[j].0@);
                    lemma_insert(before, *self, k, value, i as int);
                }
            },
            None => {
                let ghost n = self.entries@.len() as int;
                self.entries.push((key, value));
                proof {
                    assert forall|i: int| 0 <= i < n implies before.entries@[i].0@ != k by {
                        before.lemma_at(i);
                    }
                    lemma_insert(before, *self, k, value, n);
                }
            },
        }
    }

    /// Takes a key out, with its value.
    pub fn remove(&mut self, key: &str) -> (r: Option<V>)
        requires
            old(self).wf(),
        ensures
            final(self).wf(),
            final(self)@ == old(self)@.remove(key@),
            match r {
                Some(v) => old(self)@.dom().contains(key@) && v == old(self)@[key@],
                None => !old(self)@.dom().contains(key@),
            },
            final(self).count() == old(self).count() - (if old(self)@.dom().contains(key@) {
                1int
            } else {
                0
            }),
    {
        let ghost before = *self;
        match self.position(key) {
            Some(i) => {
                proof {
                    before.lemma_at(i as int);
                }
                let (_, v) = self.entries.remove(i);
                proof {
                    let n = before.entries@.len();
                    assert(forall|j: int|
                        0 <= j < n - 1 ==> self.entries@[j] == (if j < i {
                            before.entries@[j]
                        } else {
                            before.entries@[j + 1]
                        }));
                    assert(self.wf());
                    assert forall|k: Seq<char>| self@.dom().contains(k) <==> before@.remove(
                        key@,
                    ).dom().contains(k) by {
                        if self@.dom().contains(k) {
                            let j = choose|j: int|
                                0 <= j < self.entries@.len() && self.entries@[j].0@ == k;
                            if j < i {
                                before.lemma_at(j);
                                assert(before.entries@[j].0@ != before.entries@[i as int].0@);
                            } else {
                                before.lemma_at(j + 1);
                                assert(before.entries@[i as int].0@ != before.entries@[j + 1].0@);
                            }
                        }
                        if before@.dom().contains(k) && k != key@ {
                            let j = choose|j: int|
                                0 <= j < n && before.entries@[j].0@ == k;
                            if j < i {
                                assert(self.entries@[j].0@ == k);
                            } else {
                                assert(self.entries@[j - 1].0@ == k);
                            }
                        }
                    }
                    assert forall|k: Seq<char>| self@.dom().contains(k) implies self@[k]
                        == before@[k] by {
                        let j = choose|j: int|
                            0 <= j < self.entries@.len() && self.entries@[j].0@ == k;
                        self.lemma_at(j);
                        if j < i {
                            before.lemma_at(j);
                        } else {
                            before.lemma_at(j + 1);
                        }
                    }
                    assert(self@ =~= before@.remove(key@));
                }
                Some(v)
            },
            None => {
                assert(self@ =~= before@.remove(key@));
                None
            },
        }
    }

    /// The keys, in order of first insertion.
    pub closed spec fn key_list(self) -> Seq<Seq<char>> {
        self.entries@.map_values(|e: (String, V)| e.0@)
    }

    /// The keys are those of the domain, each once.
    pub proof fn lemma_key_list(self)
        requires
            self.wf(),
        ensures
            self.key_list().len() == self.count(),
            self.key_list().no_duplicates(),
            forall|k: Seq<char>|
                self@.dom().contains(k) <==> #[trigger] self.key_list().contains(k),
    {
        assert forall|k: Seq<char>| self@.dom().contains(k) <==> #[trigger] self.key_list().contains(
            k,
        ) by {
            if self@.dom().contains(k) {
                let i = choose|i: int| 0 <= i < self.entries@.len() && self.entries@[i].0@ == k;
                assert(self.key_list()[i] == k);
            }
            if self.key_list().contains(k) {
                let i = choose|i: int| 0 <= i < self.key_list().len() && self.key_list()[i] == k;
                self.lemma_at(i);
            }
        }
    }

    /// The key at a position, with its value.
    pub fn entry(&self, i: usize) -> (r: (&String, &V))
        requires
            self.wf(),
            i < self.count(),
        ensures
            r.0@ == self.key_list()[i as int],
            self@.dom().contains(r.0@),
            *r.1 == self@[r.0@],
    {
        proof {
            self.lemma_at(i as int);
        }
        let e = &self.entries[i];
        (&e.0, &e.1)
    }
}

proof fn lemma_insert<V>(
    before: StringMap<V>,
    after: StringMap<V>,
    k: Seq<char>,
    value: V,
    at: int,
)
    requires
        before.wf(),
        0 <= at < after.entries@.len(),
        before.entries@.len() <= after.entries@.len() <= before.entries@.len() + 1,
        after.entries@[at].0@ == k,
        after.entries@[at].1 == value,
        at < before.entries@.len() ==> after.entries@.len() == before.entries@.len()
            && before.entries@[at].0@ == k,
        at >= before.entries@.len() ==> forall|i: int|
            0 <= i < before.entries@.len() ==> before.entries@[i].0@ != k,
        forall|j: int|
            0 <= j < before.entries@.len() && j != at ==> after.entries@[j] == before.entries@[j],
    ensures
        after.wf(),
        after@ == before@.insert(k, value),
{
    assert forall|i: int, j: int| 0 <= i < j < after.entries@.len() implies after.entries@[i].0@
        != after.entries@[j].0@ by {
        if j < before.entries@.len() {
            assert(before.entries@[i].0@ != before.entries@[j].0@);
        }
    }
    assert forall|x: Seq<char>| after@.dom().contains(x) <==> before@.insert(
        k,
        value,
    ).dom().contains(x) by {
        if after@.dom().contains(x) {
            let j = choose|j: int| 0 <= j < after.entries@.len() && after.entries@[j].0@ == x;
            if j != at {
                before.lemma_at(j);
            }
        }
        if before@.dom().contains(x) && x != k {
            let j = choose|j: int| 0 <= j < before.entries@.len() && before.entries@[j].0@ == x;
            assert(after.entries@[j].0@ == x);
        }
        if x == k {
            assert(after.entries@[at].0@ == x);
        }
    }
    assert forall|x: Seq<char>| after@.dom().contains(x) implies after@[x] == before@.insert(
        k,
        value,
    )[x] by {
        let j = choose|j: int| 0 <= j < after.entries@.len() && after.entries@[j].0@ == x;
        after.lemma_at(j);
        if j == at {
        } else {
            before.lemma_at(j);
        }
    }
    assert(after@ =~= before@.insert(k, value));
}

/// A map of texts as a map of character sequences.
pub open spec fn texts_in(m: Map<Seq<char>, String>) -> Map<Seq<char>, Seq<char>> {
    Map::new(|k: Seq<char>| m.dom().contains(k), |k: Seq<char>| m[k]@)
}

/// A map of byte vectors as a map of byte sequences.
pub open spec fn bytes_in(m: Map<Seq<char>, Vec<u8>>) -> Map<Seq<char>, Seq<u8>> {
    Map::new(|k: Seq<char>| m.dom().contains(k), |k: Seq<char>| m[k]@)
}

/// A copy of a map of texts.
pub fn copy_texts(m: &StringMap<String>) -> (r: StringMap<String>)
    requires
        m.wf(),
    ensures
        r.wf(),
        texts_in(r@) == texts_in(m@),
{
    let mut r: StringMap<String> = StringMap::new();
    let n = m.len();
    proof {
        m.lemma_key_list();
    }
    let ghost keys = m.key_list();
    let mut i: usize = 0;
    while i < n
        invariant
            0 <= i <= n,
            n == m.count(),
            m.wf(),
            r.wf(),
            keys == m.key_list(),
            keys.len() == n,
            forall|k: Seq<char>|
                #[trigger] r@.dom().contains(k) ==> m@.dom().contains(k) && r@[k]@ == m@[k]@,
            forall|j: int| 0 <= j < i ==> r@.dom().contains(#[trigger] keys[j]),
        decreases n - i,
    {
        let (k, v) = m.entry(i);
        r.insert(k.clone(), v.clone());
        i = i + 1;
    }
    assert forall|k: Seq<char>| m@.dom().contains(k) implies r@.dom().contains(k) by {
        assert(keys.contains(k));
        let j = choose|j: int| 0 <= j < keys.len() && keys[j] == k;
        assert(r@.dom().contains(keys[j]));
    }
    assert(texts_in(r@) =~= texts_in(m@));
    r
}

} // verus!
