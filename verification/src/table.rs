//! A table of values under text keys.
use vstd::prelude::*;

use crate::seqs;
use crate::text;

verus! {

/// Values under text keys: no key stands twice, and a key that came first stays
/// first.
#[derive(Debug)]
pub struct Table<V> {
    keys: Vec<String>,
    values: Vec<V>,
}

impl<V> View for Table<V> {
    type V = Map<Seq<char>, V>;

    closed spec fn view(&self) -> Map<Seq<char>, V> {
        Map::new(|key: Seq<char>| self.holds(key), |key: Seq<char>| self.values@[self.place(key)])
    }
}

impl<V> Table<V> {
    /// Each key has its value, and no two keys are equal.
    pub closed spec fn wf(&self) -> bool {
        &&& self.keys@.len() == self.values@.len()
        &&& forall|i: int, j: int|
            0 <= i < j < self.keys@.len() ==> #[trigger] self.keys@[i]@ != #[trigger] self.keys@[j]@
    }

    /// The keys, in the order in which they came.
    pub closed spec fn order(&self) -> Seq<Seq<char>> {
        text::views(self.keys@)
    }

    spec fn key_is(&self, key: Seq<char>, i: int) -> bool {
        0 <= i < self.keys@.len() && self.keys@[i]@ == key
    }

    spec fn holds(&self, key: Seq<char>) -> bool {
        exists|i: int| self.key_is(key, i)
    }

    spec fn place(&self, key: Seq<char>) -> int {
        choose|i: int| self.key_is(key, i)
    }

    proof fn lemma_place(&self, i: int)
        requires
            self.wf(),
            0 <= i < self.keys@.len(),
        ensures
            self@.contains_key(self.keys@[i]@),
            self@[self.keys@[i]@] == self.values@[i],
    {
        let key = self.keys@[i]@;
        assert(self.key_is(key, i));
        let p = self.place(key);
        assert(self.key_is(key, p));
        assert(p == i);
    }

    /// A new value in the place of an old one.
    proof fn lemma_value_changed(before: Self, after: Self, i: int, value: V)
        requires
            before.wf(),
            0 <= i < before.keys@.len(),
            after.keys == before.keys,
            after.values@ == before.values@.update(i, value),
        ensures
            after.wf(),
            after@ == before@.insert(before.keys@[i]@, value),
    {
        let expected = before@.insert(before.keys@[i]@, value);
        assert forall|key: Seq<char>| after@.contains_key(key) == expected.contains_key(key) by {
            assert(forall|j: int| after.key_is(key, j) == before.key_is(key, j));
            before.lemma_place(i);
        }
        assert forall|key: Seq<char>| after@.contains_key(key) implies #[trigger] after@[key]
            == expected[key] by {
            let j = choose|j: int| after.key_is(key, j);
            after.lemma_place(j);
            before.lemma_place(j);
        }
        assert(after@ =~= expected);
    }

    /// A new key behind the others.
    proof fn lemma_key_added(before: Self, after: Self, key: String, value: V)
        requires
            before.wf(),
            !before@.contains_key(key@),
            after.keys@ == before.keys@.push(key),
            after.values@ == before.values@.push(value),
        ensures
            after.wf(),
            after@ == before@.insert(key@, value),
            after.order() == before.order().push(key@),
    {
        let n = before.keys@.len() as int;
        assert forall|i: int, j: int| 0 <= i < j < after.keys@.len() implies
            #[trigger] after.keys@[i]@ != #[trigger] after.keys@[j]@ by {
            before.lemma_place(i);
        }
        let expected = before@.insert(key@, value);
        assert forall|k: Seq<char>| after@.contains_key(k) == expected.contains_key(k) by {
            if before@.contains_key(k) {
                let j = choose|j: int| before.key_is(k, j);
                assert(after.key_is(k, j));
            }
            if k == key@ {
                assert(after.key_is(k, n));
            }
            if after@.contains_key(k) {
                let j = choose|j: int| after.key_is(k, j);
                assert(j == n || before.key_is(k, j));
            }
        }
        assert forall|k: Seq<char>| after@.contains_key(k) implies #[trigger] after@[k]
            == expected[k] by {
            let j = choose|j: int| after.key_is(k, j);
            after.lemma_place(j);
            if j < n {
                before.lemma_place(j);
            }
        }
        assert(after@ =~= expected);
        assert(after.order() =~= before.order().push(key@));
    }

    /// There are as many keys in the map as stand in the table.
    proof fn lemma_len(&self)
        requires
            self.wf(),
        ensures
            self@.len() == self.keys@.len(),
            self.order().no_duplicates(),
            self.order().to_set() == self@.dom(),
    {
        let order = self.order();
        assert(order.no_duplicates());
        order.unique_seq_to_set();
        assert forall|key: Seq<char>| self@.dom().contains(key) == order.to_set().contains(key) by {
            if self@.contains_key(key) {
                let i = choose|i: int| self.key_is(key, i);
                assert(order[i] == key);
            }
            if order.contains(key) {
                let i = choose|i: int| 0 <= i < order.len() && order[i] == key;
                assert(self.key_is(key, i));
            }
        }
        assert(self@.dom() =~= order.to_set());
    }

    /// An empty table.
    pub fn new() -> (table: Self)
        ensures
            table.wf(),
            table@ == Map::<Seq<char>, V>::empty(),
            table.order() == Seq::<Seq<char>>::empty(),
    {
        let table = Table { keys: Vec::new(), values: Vec::new() };
        assert(table@ =~= Map::<Seq<char>, V>::empty());
        table
    }

    fn position(&self, key: &str) -> (place: Option<usize>)
        requires
            self.wf(),
        ensures
            match place {
                Some(i) => self.key_is(key@, i as int),
                None => !self@.contains_key(key@),
            },
    {
        for i in 0..self.keys.len()
            invariant
                forall|j: int| 0 <= j < i ==> !self.key_is(key@, j),
        {
            if text::same_text(self.keys[i].as_str(), key) {
                return Some(i);
            }
        }
        None
    }

    /// The value under `key`.
    pub fn get(&self, key: &str) -> (value: Option<&V>)
        requires
            self.wf(),
        ensures
            match value {
                Some(v) => self@.contains_key(key@) && *v == self@[key@],
                None => !self@.contains_key(key@),
            },
    {
        match self.position(key) {
            Some(i) => {
                proof {
                    self.lemma_place(i as int);
                }
                Some(&self.values[i])
            },
            None => None,
        }
    }

    /// The value under `key`, to be changed.
    pub fn get_mut(&mut self, key: &str) -> (value: Option<&mut V>)
        requires
            old(self).wf(),
        ensures
            final(self).wf(),
            final(self).order() == old(self).order(),
            match value {
                Some(v) => {
                    &&& old(self)@.contains_key(key@)
                    &&& *v == old(self)@[key@]
                    &&& final(self)@ == old(self)@.insert(key@, *final(v))
                },
                None => !old(self)@.contains_key(key@) && *final(self) == *old(self),
            },
    {
        match self.position(key) {
            Some(i) => {
                let ghost before = *self;
                proof {
                    self.lemma_place(i as int);
                    assert forall|after: Self, value: V|
                        #![trigger after.view(), before@.insert(key@, value)]
                        after.keys == before.keys && after.values@ == before.values@.update(
                            i as int,
                            value,
                        ) implies after@ == before@.insert(key@, value) by {
                        Self::lemma_value_changed(before, after, i as int, value);
                    }
                }
                Some(&mut self.values[i])
            },
            None => None,
        }
    }

    /// Puts `value` under `key`, in place of what stood there.
    pub fn insert(&mut self, key: String, value: V)
        requires
            old(self).wf(),
        ensures
            final(self).wf(),
            final(self)@ == old(self)@.insert(key@, value),
            final(self).order() == if old(self)@.contains_key(key@) {
                old(self).order()
            } else {
                old(self).order().push(key@)
            },
    {
        let ghost before = *self;
        match self.position(key.as_str()) {
            Some(i) => {
                self.values.set(i, value);
                proof {
                    before.lemma_place(i as int);
                    Self::lemma_value_changed(before, *self, i as int, value);
                }
            },
            None => {
                self.keys.push(key);
                self.values.push(value);
                proof {
                    Self::lemma_key_added(before, *self, key, value);
                }
            },
        }
    }

    /// The number of keys.
    pub fn len(&self) -> (n: usize)
        requires
            self.wf(),
        ensures
            n == self@.len(),
            n == self.order().len(),
    {
        proof {
            self.lemma_len();
        }
        self.keys.len()
    }

    /// The key that came as number `i`.
    pub fn key_at(&self, i: usize) -> (key: &str)
        requires
            self.wf(),
            i < self.order().len(),
        ensures
            key@ == self.order()[i as int],
            self@.contains_key(key@),
    {
        proof {
            self.lemma_place(i as int);
        }
        self.keys[i].as_str()
    }

    /// The value under the key that came as number `i`.
    pub fn value_at(&self, i: usize) -> (value: &V)
        requires
            self.wf(),
            i < self.order().len(),
        ensures
            *value == self@[self.order()[i as int]],
    {
        proof {
            self.lemma_place(i as int);
        }
        &self.values[i]
    }

    /// The keys in their order are the keys of the map, each once.
    pub proof fn law_order(&self)
        requires
            self.wf(),
        ensures
            self.order().no_duplicates(),
            self.order().to_set() == self@.dom(),
    {
        self.lemma_len();
    }
}

/// An empty map into which the values of `m` have been put under the given keys, one
/// after the other.
pub open spec fn rebuilt<V>(m: Map<Seq<char>, V>, keys: Seq<Seq<char>>) -> Map<Seq<char>, V>
    decreases keys.len(),
{
    if keys.len() == 0 {
        Map::empty()
    } else {
        rebuilt(m, keys.drop_last()).insert(keys.last(), m[keys.last()])
    }
}

/// What is read from a table, key by key and in whatever order, and put into another
/// one, makes the same table.
pub proof fn law_rebuilt<V>(m: Map<Seq<char>, V>, keys: Seq<Seq<char>>)
    requires
        keys.to_set() == m.dom(),
    ensures
        rebuilt(m, keys) == m,
{
    lemma_rebuilt(m, keys);
    assert(rebuilt(m, keys) =~= m);
}

proof fn lemma_rebuilt<V>(m: Map<Seq<char>, V>, keys: Seq<Seq<char>>)
    ensures
        rebuilt(m, keys).dom() == keys.to_set(),
        forall|key: Seq<char>| keys.contains(key) ==> #[trigger] rebuilt(m, keys)[key] == m[key],
    decreases keys.len(),
{
    if keys.len() > 0 {
        let front = keys.drop_last();
        lemma_rebuilt(m, front);
        seqs::lemma_contains_last(keys);
    }
    assert(rebuilt(m, keys).dom() =~= keys.to_set());
}

} // verus!
