//! A table of values by name, in the order in which the names came.

use vstd::prelude::*;

use crate::text::same;

verus! {

/// Values by name; no name occurs twice.
pub struct Table<V> {
    entries: Vec<(String, V)>,
}

impl<V> Table<V> {
    /// The names, in order.
    pub closed spec fn keys(&self) -> Seq<Seq<char>> {
        self.entries@.map_values(|e: (String, V)| e.0@)
    }

    /// The values, in the order of their names.
    pub closed spec fn values(&self) -> Seq<V> {
        self.entries@.map_values(|e: (String, V)| e.1)
    }

    /// No name occurs twice, and every name has its value.
    pub open spec fn wf(&self) -> bool {
        self.keys().no_duplicates() && self.keys().len() == self.values().len()
    }

    /// There is a value under this name.
    pub open spec fn has(&self, key: Seq<char>) -> bool {
        self.keys().contains(key)
    }

    /// The value under a name.
    pub open spec fn at(&self, key: Seq<char>) -> V {
        self.values()[self.keys().index_of(key)]
    }

    /// The value under a name, where there is one.
    pub open spec fn find(&self, key: Seq<char>) -> Option<V> {
        if self.has(key) {
            Some(self.at(key))
        } else {
            None
        }
    }

    /// The table as a map.
    pub open spec fn view(&self) -> Map<Seq<char>, V> {
        Map::new(|k: Seq<char>| self.has(k), |k: Seq<char>| self.at(k))
    }

    /// An empty table.
    pub fn new() -> (r: Self)
        ensures
            r.wf(),
            r.keys() == Seq::<Seq<char>>::empty(),
            r.values() == Seq::<V>::empty(),
            r@ == Map::<Seq<char>, V>::empty(),
    {
        let r = Table { entries: Vec::new() };
        assert(r.keys() =~= Seq::<Seq<char>>::empty());
        assert(r.values() =~= Seq::<V>::empty());
        assert(r@ =~= Map::<Seq<char>, V>::empty());
        r
    }

    /// How many names there are.
    pub fn len(&self) -> (r: usize)
        ensures
            r == self.keys().len(),
            r == self.values().len(),
    {
        self.entries.len()
    }

    /// The name at a position.
    pub fn key_at(&self, i: usize) -> (r: &str)
        requires
            i < self.keys().len(),
        ensures
            r@ == self.keys()[i as int],
    {
        self.entries[i].0.as_str()
    }

    /// The value at a position.
    pub fn value_at(&self, i: usize) -> (r: &V)
        requires
            i < self.keys().len(),
        ensures
            *r == self.values()[i as int],
    {
        &self.entries[i].1
    }

    /// The value at a position, to be changed.
    pub fn value_at_mut(&mut self, i: usize) -> (r: &mut V)
        requires
            i < old(self).keys().len(),
        ensures
            *r == old(self).values()[i as int],
            final(self).keys() == old(self).keys(),
            final(self).values() == old(self).values().update(i as int, *final(r)),
    {
        &mut self.entries[i].1
    }

    /// The position of a name.
    pub fn index_of(&self, key: &str) -> (r: Option<usize>)
        requires
            self.wf(),
        ensures
            r is Some <==> self.has(key@),
            r matches Some(i) ==> i < self.keys().len() && self.keys()[i as int] == key@ && i
                == self.keys().index_of(key@),
    {
        let mut i: usize = 0;
        while i < self.entries.len()
            invariant
                i <= self.entries@.len(),
                self.wf(),
                self.keys().len() == self.entries@.len(),
                forall|k: int| 0 <= k < i ==> self.keys()[k] != key@,
            decreases self.entries@.len() - i,
        {
            assert(self.keys()[i as int] == self.entries@[i as int].0@);
            if same(self.entries[i].0.as_str(), key) {
                proof {
                    let j = self.keys().index_of(key@);
                    assert(self.keys()[j] == key@);
                    assert(j == i);
                }
                return Some(i);
            }
            i = i + 1;
        }
        None
    }

    /// True when there is a value under this name.
    pub fn contains(&self, key: &str) -> (r: bool)
        requires
            self.wf(),
        ensures
            r == self.has(key@),
            r == self@.dom().contains(key@),
    {
        self.index_of(key).is_some()
    }

    /// The value under a name.
    pub fn get(&self, key: &str) -> (r: Option<&V>)
        requires
            self.wf(),
        ensures
            r is Some <==> self.has(key@),
            r matches Some(v) ==> *v == self.at(key@),
    {
        match self.index_of(key) {
            Some(i) => Some(self.value_at(i)),
            None => None,
        }
    }

    /// The value under a name, to be changed.
    pub fn get_mut(&mut self, key: &str) -> (r: &mut V)
        requires
            old(self).wf(),
            old(self).has(key@),
        ensures
            *r == old(self).at(key@),
            final(self).wf(),
            final(self).keys() == old(self).keys(),
            final(self).values() == old(self).values().update(
                old(self).keys().index_of(key@),
                *final(r),
            ),
    {
        match self.index_of(key) {
            Some(i) => self.value_at_mut(i),
            None => {
                assert(false);
                self.value_at_mut(0)
            },
        }
    }

    /// Puts a value under a name, in place of the one that was there.
    pub fn insert(&mut self, key: String, value: V)
        requires
            old(self).wf(),
        ensures
            final(self).wf(),
            old(self).has(key@) ==> final(self).keys() == old(self).keys() && final(self).values()
                == old(self).values().update(old(self).keys().index_of(key@), value),
            !old(self).has(key@) ==> final(self).keys() == old(self).keys().push(key@) 
                && final(self).values() == old(self).values().push(value),
            final(self)@ == old(self)@.insert(key@, value),
    {
        let ghost before = *self;
        match self.index_of(key.as_str()) {
            Some(i) => {
                let slot = self.value_at_mut(i);
                *slot = value;
                proof {
                    lemma_same_keys(before, *self, key@, value);
                }
            },
            None => {
                let ghost name = key@;
                self.entries.push((key, value));
                proof {
                    assert(self.keys() =~= before.keys().push(name));
                    assert(self.values() =~= before.values().push(value));
                    lemma_pushed(before, *self, name, value);
                }
            },
        }
    }

    /// Takes a name and its value out.
    pub fn remove(&mut self, key: &str)
        requires
            old(self).wf(),
        ensures
            final(self).wf(),
            old(self).has(key@) ==> final(self).keys() == old(self).keys().remove(
                old(self).keys().index_of(key@),
            ) && final(self).values() == old(self).values().remove(
                old(self).keys().index_of(key@),
            ),
            !old(self).has(key@) ==> *final(self) == *old(self),
            final(self)@ == old(self)@.remove(key@),
    {
        let ghost before = *self;
        match self.index_of(key) {
            Some(i) => {
                self.entries.remove(i);
                proof {
                    assert(self.keys() =~= before.keys().remove(i as int));
                    assert(self.values() =~= before.values().remove(i as int));
                    lemma_removed(before, *self, key@);
                }
            },
            None => {
                assert(self@ =~= before@.remove(key@));
            },
        }
    }
}

/// In a table every name points at its own value.
pub proof fn lemma_at<V>(t: Table<V>, i: int)
    requires
        t.wf(),
        0 <= i < t.keys().len(),
    ensures
        t.has(t.keys()[i]),
        t.keys().index_of(t.keys()[i]) == i,
        t.at(t.keys()[i]) == t.values()[i],
        t@.dom().contains(t.keys()[i]),
        t@[t.keys()[i]] == t.values()[i],
{
    let k = t.keys()[i];
    let j = t.keys().index_of(k);
    assert(t.keys()[j] == k);
    assert(i == j);
}

/// A table holds as many values as it has names.
pub proof fn lemma_count<V>(t: Table<V>)
    requires
        t.wf(),
    ensures
        t@.dom().finite(),
        t@.dom().len() == t.keys().len(),
{
    t.keys().unique_seq_to_set();
    assert(t@.dom() =~= t.keys().to_set());
}

/// Replacing the value under a name changes the map there and nowhere else.
pub proof fn lemma_same_keys<V>(before: Table<V>, after: Table<V>, key: Seq<char>, value: V)
    requires
        before.wf(),
        before.has(key),
        after.keys() == before.keys(),
        after.values() == before.values().update(before.keys().index_of(key), value),
    ensures
        after.wf(),
        after@ == before@.insert(key, value),
        forall|k: Seq<char>| before.has(k) && k != key ==> after.at(k) == #[trigger] before.at(k),
        after.at(key) == value,
{
    let i = before.keys().index_of(key);
    assert(before.keys()[i] == key);
    assert forall|k: Seq<char>| before.has(k) && k != key implies after.at(k)
        == #[trigger] before.at(k) by {
        let j = before.keys().index_of(k);
        assert(before.keys()[j] == k);
    }
    assert(after@ =~= before@.insert(key, value));
}

/// A new name goes to the end of the table.
pub proof fn lemma_pushed<V>(before: Table<V>, after: Table<V>, key: Seq<char>, value: V)
    requires
        before.wf(),
        !before.has(key),
        after.keys() == before.keys().push(key),
        after.values() == before.values().push(value),
    ensures
        after.wf(),
        after@ == before@.insert(key, value),
        after.has(key),
        after.at(key) == value,
        forall|k: Seq<char>| #[trigger]
            before.has(k) ==> after.has(k) && after.at(k) == before.at(k),
{
    let n = before.keys().len() as int;
    assert(after.keys().no_duplicates()) by {
        assert forall|i: int, j: int|
            0 <= i < after.keys().len() && 0 <= j < after.keys().len() && i
                != j implies after.keys()[i] != after.keys()[j] by {
            if i == n {
                assert(before.keys().contains(before.keys()[j]));
            } else if j == n {
                assert(before.keys().contains(before.keys()[i]));
            }
        }
    }
    assert(after.keys()[n] == key);
    lemma_at(after, n);
    assert forall|k: Seq<char>| #[trigger] before.has(k) implies after.has(k) && after.at(k)
        == before.at(k) by {
        let j = before.keys().index_of(k);
        assert(before.keys()[j] == k);
        assert(after.keys()[j] == k);
        lemma_at(after, j);
    }
    assert forall|k: Seq<char>| #[trigger] after.has(k) && k != key implies before.has(k) by {
        let j = after.keys().index_of(k);
        assert(after.keys()[j] == k);
        assert(before.keys()[j] == k);
    }
    assert(after@ =~= before@.insert(key, value));
}

/// Taking a name out leaves the other names as they were.
pub proof fn lemma_removed<V>(before: Table<V>, after: Table<V>, key: Seq<char>)
    requires
        before.wf(),
        before.has(key),
        after.keys() == before.keys().remove(before.keys().index_of(key)),
        after.values() == before.values().remove(before.keys().index_of(key)),
    ensures
        after.wf(),
        after@ == before@.remove(key),
{
    let i = before.keys().index_of(key);
    assert(before.keys()[i] == key);
    assert(after.keys().no_duplicates());
    assert forall|k: Seq<char>| #[trigger] before.has(k) && k != key implies after.has(k)
        && after.at(k) == before.at(k) by {
        let j = before.keys().index_of(k);
        assert(before.keys()[j] == k);
        let at = if j < i {
            j
        } else {
            j - 1
        };
        assert(after.keys()[at] == k);
        lemma_at(after, at);
    }
    assert forall|k: Seq<char>| #[trigger] after.has(k) implies before.has(k) && k != key by {
        let j = after.keys().index_of(k);
        assert(after.keys()[j] == k);
        let at = if j < i {
            j
        } else {
            j + 1
        };
        assert(before.keys()[at] == k);
    }
    assert(after@ =~= before@.remove(key));
}

} // verus!
