use vstd::prelude::*;

use crate::row::{row_clone, row_eq, rv, RowV};

verus! {

/// A value with a mathematical model that can be copied.
pub trait Modeled: Sized {
    type Model;

    spec fn model(&self) -> Self::Model;

    /// What a value must satisfy to be used.
    spec fn valid(&self) -> bool;

    fn duplicate(&self) -> (r: Self)
        requires
            self.valid(),
        ensures
            r.model() == self.model(),
            r.valid(),
    ;
}

impl Modeled for Vec<String> {
    type Model = RowV;

    open spec fn model(&self) -> RowV {
        rv(self)
    }

    open spec fn valid(&self) -> bool {
        true
    }

    fn duplicate(&self) -> (r: Self) {
        row_clone(self)
    }
}

impl Modeled for (Vec<String>, Vec<String>) {
    type Model = (RowV, RowV);

    open spec fn model(&self) -> (RowV, RowV) {
        (rv(&self.0), rv(&self.1))
    }

    open spec fn valid(&self) -> bool {
        true
    }

    fn duplicate(&self) -> (r: Self) {
        (row_clone(&self.0), row_clone(&self.1))
    }
}

/// A key of a [`KeyedMap`]: its comparison decides equality of models.
pub trait MapKey: Modeled {
    fn same(&self, other: &Self) -> (r: bool)
        ensures
            r == (self.model() == other.model()),
    ;
}

impl MapKey for Vec<String> {
    fn same(&self, other: &Self) -> (r: bool) {
        row_eq(self, other)
    }
}

impl Modeled for String {
    type Model = Seq<char>;

    open spec fn model(&self) -> Seq<char> {
        self@
    }

    open spec fn valid(&self) -> bool {
        true
    }

    fn duplicate(&self) -> (r: Self) {
        self.clone()
    }
}

impl MapKey for String {
    fn same(&self, other: &Self) -> (r: bool) {
        *self == *other
    }
}

/// A finite map from keys to values, kept as a vector of
/// entries with pairwise distinct keys. The order of the entries carries no
/// meaning.
pub struct KeyedMap<K: MapKey, V: Modeled> {
    entries: Vec<(K, V)>,
    model: Ghost<Map<K::Model, V::Model>>,
}

/// Primary-key tuple to subsidiary tuple.
pub type RecordMap = KeyedMap<Vec<String>, Vec<String>>;

/// Primary-key tuple to (old subsidiary tuple, new subsidiary tuple).
pub type UpdateMap = KeyedMap<Vec<String>, (Vec<String>, Vec<String>)>;

impl<K: MapKey, V: Modeled> View for KeyedMap<K, V> {
    type V = Map<K::Model, V::Model>;

    closed spec fn view(&self) -> Map<K::Model, V::Model> {
        self.model@
    }
}

impl<K: MapKey, V: Modeled> KeyedMap<K, V> {
    /// The key and the value model of the `i`-th stored entry.
    pub closed spec fn entry(&self, i: int) -> (K::Model, V::Model) {
        (self.entries@[i].0.model(), self.entries@[i].1.model())
    }

    /// The value of the `i`-th stored entry.
    pub closed spec fn value_at(&self, i: int) -> V {
        self.entries@[i].1
    }

    /// Number of stored entries.
    pub closed spec fn size(&self) -> nat {
        self.entries@.len()
    }

    /// Keys are distinct and the model is exactly the set of entries.
    pub closed spec fn wf(&self) -> bool {
        &&& self.model@.dom().finite()
        &&& self.model@.dom().len() == self.entries@.len()
        &&& forall|i: int, j: int|
            0 <= i < j < self.entries@.len() ==> #[trigger] self.entries@[i].0.model() != #[trigger] self.entries@[j].0.model()
        &&& forall|i: int|
            0 <= i < self.entries@.len() ==> self.model@.contains_key(#[trigger] self.entries@[i].0.model())
                && self.model@[self.entries@[i].0.model()] == self.entries@[i].1.model()
        &&& forall|i: int|
            0 <= i < self.entries@.len() ==> (#[trigger] self.entries@[i]).0.valid()
                && self.entries@[i].1.valid()
        &&& forall|k: K::Model| #[trigger]
            self.model@.contains_key(k) ==> exists|i: int|
                0 <= i < self.entries@.len() && self.entries@[i].0.model() == k
    }

    /// What a well-formed map shows of its entries.
    pub proof fn lemma_entries(&self)
        requires
            self.wf(),
        ensures
            self.size() == self@.dom().len(),
            self@.dom().finite(),
            forall|i: int|
                0 <= i < self.size() ==> self@.contains_key(#[trigger] self.entry(i).0) && self@[self.entry(
                    i,
                ).0] == self.entry(i).1,
            forall|k: K::Model| #[trigger]
                self@.contains_key(k) ==> exists|i: int| 0 <= i < self.size() && self.entry(i).0 == k,
            forall|i: int, j: int|
                0 <= i < self.size() && 0 <= j < self.size() && i != j ==> #[trigger] self.entry(i).0
                    != #[trigger] self.entry(j).0,
    {
        assert forall|i: int, j: int|
            0 <= i < self.size() && 0 <= j < self.size() && i != j implies #[trigger] self.entry(i).0
            != #[trigger] self.entry(j).0 by {
            if i < j {
                assert(self.entries@[i].0.model() != self.entries@[j].0.model());
            } else {
                assert(self.entries@[j].0.model() != self.entries@[i].0.model());
            }
        }
        assert forall|k: K::Model| #[trigger] self@.contains_key(k) implies exists|i: int|
            0 <= i < self.size() && self.entry(i).0 == k by {
            let i = choose|i: int| 0 <= i < self.entries@.len() && self.entries@[i].0.model() == k;
            assert(self.entry(i).0 == k);
        }
    }

    /// An empty map.
    pub fn new() -> (r: Self)
        ensures
            r.wf(),
            r@ == Map::<K::Model, V::Model>::empty(),
    {
        KeyedMap { entries: Vec::new(), model: Ghost(Map::empty()) }
    }

    /// Number of keys.
    pub fn len(&self) -> (r: usize)
        requires
            self.wf(),
        ensures
            r == self@.dom().len(),
    {
        self.entries.len()
    }

    /// Whether the map holds no key.
    pub fn is_empty(&self) -> (r: bool)
        requires
            self.wf(),
        ensures
            r == (self@.dom().len() == 0),
            r ==> self@ == Map::<K::Model, V::Model>::empty(),
    {
        if self.entries.len() == 0 {
            proof {
                assert forall|k: K::Model| !self@.contains_key(k) by {
                    if self@.contains_key(k) {
                        let i = choose|i: int|
                            0 <= i < self.entries@.len() && self.entries@[i].0.model() == k;
                    }
                }
                assert(self@ =~= Map::<K::Model, V::Model>::empty());
            }
            true
        } else {
            false
        }
    }

    fn find(&self, key: &K) -> (r: Option<usize>)
        requires
            self.wf(),
        ensures
            match r {
                Some(i) => i < self.entries@.len() && self.entries@[i as int].0.model() == key.model(),
                None => !self@.contains_key(key.model()),
            },
    {
        let mut i: usize = 0;
        while i < self.entries.len()
            invariant
                self.wf(),
                i <= self.entries@.len(),
                forall|j: int| 0 <= j < i ==> self.entries@[j].0.model() != key.model(),
            decreases self.entries@.len() - i,
        {
            if self.entries[i].0.same(key) {
                return Some(i);
            }
            i += 1;
        }
        None
    }

    /// Whether `key` is present.
    pub fn contains_key(&self, key: &K) -> (r: bool)
        requires
            self.wf(),
        ensures
            r == self@.contains_key(key.model()),
    {
        match self.find(key) {
            Some(_) => true,
            None => false,
        }
    }

    /// The value stored under `key`, if any.
    pub fn get(&self, key: &K) -> (r: Option<&V>)
        requires
            self.wf(),
        ensures
            match r {
                Some(v) => self@.contains_key(key.model()) && self@[key.model()] == v.model() && v.valid(),
                None => !self@.contains_key(key.model()),
            },
    {
        match self.find(key) {
            Some(i) => Some(&self.entries[i].1),
            None => None,
        }
    }

    /// The `i`-th stored entry.
    pub fn entry_at(&self, i: usize) -> (r: (&K, &V))
        requires
            self.wf(),
            i < self.size(),
        ensures
            r.0.model() == self.entry(i as int).0,
            r.1.model() == self.entry(i as int).1,
            *r.1 == self.value_at(i as int),
            r.1.valid(),
    {
        let e = &self.entries[i];
        (&e.0, &e.1)
    }

    /// Stores `value` under `key`, replacing what was there.
    pub fn insert(&mut self, key: K, value: V)
        requires
            old(self).wf(),
            key.valid(),
            value.valid(),
        ensures
            final(self).wf(),
            final(self)@ == old(self)@.insert(key.model(), value.model()),
    {
        let ghost k = key.model();
        let ghost m = value.model();
        match self.find(&key) {
            Some(i) => {
                let ghost old_entries = self.entries@;
                self.entries.set(i, (key, value));
                self.model = Ghost(self.model@.insert(k, m));
                proof {
                    assert(self.model@.dom() =~= old(self).model@.dom());
                    assert forall|q: K::Model| #[trigger] self.model@.contains_key(q) implies exists|j: int|
                        0 <= j < self.entries@.len() && self.entries@[j].0.model() == q by {
                        if q != k {
                            let j = choose|j: int|
                                0 <= j < old_entries.len() && old_entries[j].0.model() == q;
                            assert(self.entries@[j].0.model() == q);
                        } else {
                            assert(self.entries@[i as int].0.model() == q);
                        }
                    }
                }
            },
            None => {
                let ghost old_entries = self.entries@;
                self.entries.push((key, value));
                self.model = Ghost(self.model@.insert(k, m));
                proof {
                    assert(self.model@.dom() =~= old(self).model@.dom().insert(k));
                    assert forall|q: K::Model| #[trigger] self.model@.contains_key(q) implies exists|j: int|
                        0 <= j < self.entries@.len() && self.entries@[j].0.model() == q by {
                        if q != k {
                            let j = choose|j: int|
                                0 <= j < old_entries.len() && old_entries[j].0.model() == q;
                            assert(self.entries@[j].0.model() == q);
                        } else {
                            assert(self.entries@[old_entries.len() as int].0.model() == q);
                        }
                    }
                }
            },
        }
    }

    fn take_at(&mut self, i: usize) -> (r: (K, V))
        requires
            old(self).wf(),
            i < old(self).entries@.len(),
        ensures
            final(self).wf(),
            r.0.model() == old(self).entries@[i as int].0.model(),
            r.1.model() == old(self).entries@[i as int].1.model(),
            r.1.valid(),
            old(self)@.contains_key(r.0.model()),
            old(self)@[r.0.model()] == r.1.model(),
            final(self)@ == old(self)@.remove(r.0.model()),
    {
        let ghost old_entries = self.entries@;
        let ghost k = old_entries[i as int].0.model();
        let e = self.entries.swap_remove(i);
        self.model = Ghost(self.model@.remove(k));
        proof {
            assert(old_entries.len() > 0);
            let last = old_entries.len() - 1;
            assert forall|a: int| 0 <= a < self.entries@.len() implies #[trigger] self.entries@[a].0.model() != k
                && (a != i ==> self.entries@[a] == old_entries[a])
                && (a == i ==> self.entries@[a] == old_entries[last]) by {
                if a == i {
                    assert(self.entries@[a] == old_entries[last]);
                } else {
                    assert(self.entries@[a] == old_entries[a]);
                }
            }
            assert forall|a: int, b: int|
                0 <= a < b < self.entries@.len() implies #[trigger] self.entries@[a].0.model() != #[trigger] self.entries@[b].0.model() by {
                let oa = if a == i { last } else { a };
                let ob = if b == i { last } else { b };
                assert(self.entries@[a] == old_entries[oa]);
                assert(self.entries@[b] == old_entries[ob]);
                if oa < ob {
                    assert(old_entries[oa].0.model() != old_entries[ob].0.model());
                } else {
                    assert(old_entries[ob].0.model() != old_entries[oa].0.model());
                }
            }
            assert forall|a: int|
                0 <= a < self.entries@.len() implies self.model@.contains_key(
                #[trigger] self.entries@[a].0.model(),
            ) && self.model@[self.entries@[a].0.model()] == self.entries@[a].1.model() by {
                let oa = if a == i { last } else { a };
                assert(self.entries@[a] == old_entries[oa]);
                assert(old(self).model@.contains_key(old_entries[oa].0.model()));
            }
            assert forall|q: K::Model| #[trigger] self.model@.contains_key(q) implies exists|j: int|
                0 <= j < self.entries@.len() && self.entries@[j].0.model() == q by {
                let j = choose|j: int| 0 <= j < old_entries.len() && old_entries[j].0.model() == q;
                assert(j != i);
                if j == last {
                    assert(self.entries@[i as int].0.model() == q);
                } else {
                    assert(self.entries@[j].0.model() == q);
                }
            }
            assert(old(self).model@.contains_key(k));
        }
        e
    }

    /// Removes `key` and returns its value, if it was present.
    pub fn remove(&mut self, key: &K) -> (r: Option<V>)
        requires
            old(self).wf(),
        ensures
            final(self).wf(),
            final(self)@ == old(self)@.remove(key.model()),
            match r {
                Some(v) => old(self)@.contains_key(key.model()) && old(self)@[key.model()] == v.model()
                    && v.valid(),
                None => !old(self)@.contains_key(key.model()),
            },
    {
        match self.find(key) {
            Some(i) => {
                let (_k, v) = self.take_at(i);
                Some(v)
            },
            None => {
                proof {
                    assert(self@.remove(key.model()) =~= self@);
                }
                None
            },
        }
    }

    /// Removes and returns some entry, or `None` when the map is empty.
    pub fn pop(&mut self) -> (r: Option<(K, V)>)
        requires
            old(self).wf(),
        ensures
            final(self).wf(),
            match r {
                Some(e) => old(self)@.contains_key(e.0.model()) && old(self)@[e.0.model()] == e.1.model()
                    && e.1.valid()
                    && final(self)@ == old(self)@.remove(e.0.model()),
                None => old(self)@.dom().len() == 0 && final(self)@ == old(self)@,
            },
    {
        if self.entries.len() == 0 {
            None
        } else {
            let last = self.entries.len() - 1;
            Some(self.take_at(last))
        }
    }

    /// A copy of the map.
    pub fn duplicate(&self) -> (r: Self)
        requires
            self.wf(),
        ensures
            r.wf(),
            r@ == self@,
    {
        let mut entries: Vec<(K, V)> = Vec::new();
        let mut i: usize = 0;
        while i < self.entries.len()
            invariant
                self.wf(),
                i <= self.entries@.len(),
                entries@.len() == i,
                forall|j: int|
                    0 <= j < i ==> #[trigger] entries@[j].0.model() == self.entries@[j].0.model()
                        && entries@[j].1.model() == self.entries@[j].1.model() && entries@[j].0.valid()
                        && entries@[j].1.valid(),
            decreases self.entries@.len() - i,
        {
            let e = &self.entries[i];
            entries.push((e.0.duplicate(), e.1.duplicate()));
            i += 1;
        }
        let r = KeyedMap { entries, model: Ghost(self.model@) };
        proof {
            assert forall|i: int| 0 <= i < r.entries@.len() implies (#[trigger] r.entries@[i]).0.valid()
                && r.entries@[i].1.valid() by {
                assert(r.entries@[i] == entries@[i]);
                assert(entries@[i].0.model() == self.entries@[i].0.model());
            }
            assert forall|a: int, b: int|
                0 <= a < b < r.entries@.len() implies #[trigger] r.entries@[a].0.model() != #[trigger] r.entries@[b].0.model() by {
                assert(self.entries@[a].0.model() != self.entries@[b].0.model());
            }
            assert forall|q: K::Model| #[trigger] r.model@.contains_key(q) implies exists|j: int|
                0 <= j < r.entries@.len() && r.entries@[j].0.model() == q by {
                let j = choose|j: int| 0 <= j < self.entries@.len() && self.entries@[j].0.model() == q;
                assert(r.entries@[j].0.model() == q);
            }
        }
        r
    }
}

} // verus!
