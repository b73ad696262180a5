//! A small map from names to values, kept as a list of pairs. A name is looked
//! up from the front, and inserting never adds a name that is already there.
//! It stands where the order of the entries carries no meaning.

use vstd::prelude::*;

verus! {

/// A map from names to values of type `V`.
#[derive(Debug)]
pub struct Dict<V> {
    entries: Vec<(String, V)>,
}

/// The position of the first pair for `key` among `pairs`.
pub open spec fn first<T>(pairs: Seq<(Seq<char>, T)>, key: Seq<char>) -> Option<int>
    decreases pairs.len(),
{
    if pairs.len() == 0 {
        None
    } else if pairs[0].0 == key {
        Some(0)
    } else {
        match first(pairs.drop_first(), key) {
            Some(i) => Some(i + 1),
            None => None,
        }
    }
}

/// Whether no name occurs twice among the pairs.
pub open spec fn distinct<T>(pairs: Seq<(Seq<char>, T)>) -> bool {
    forall|i: int, j: int|
        0 <= i < j < pairs.len() ==> (#[trigger] pairs[i]).0 != (#[trigger] pairs[j]).0
}

/// The mathematical map that a list of pairs stands for.
pub open spec fn as_map<T>(pairs: Seq<(Seq<char>, T)>) -> Map<Seq<char>, T> {
    Map::new(|k: Seq<char>| first(pairs, k) is Some, |k: Seq<char>| pairs[first(pairs, k)->0].1)
}

/// `first` gives the least position that holds the key, and `None` only where
/// no position does.
pub proof fn lemma_first<T>(pairs: Seq<(Seq<char>, T)>, key: Seq<char>)
    ensures
        match first(pairs, key) {
            Some(i) => 0 <= i < pairs.len() && pairs[i].0 == key && forall|j: int|
                0 <= j < i ==> pairs[j].0 != key,
            None => forall|j: int| 0 <= j < pairs.len() ==> pairs[j].0 != key,
        },
    decreases pairs.len(),
{
    if pairs.len() > 0 && pairs[0].0 != key {
        let rest = pairs.drop_first();
        lemma_first(rest, key);
        match first(rest, key) {
            Some(i) => {
                assert forall|j: int| 0 <= j < i + 1 implies pairs[j].0 != key by {
                    if j > 0 {
                        assert(pairs[j] == rest[j - 1]);
                    }
                }
            },
            None => {
                assert forall|j: int| 0 <= j < pairs.len() implies pairs[j].0 != key by {
                    if j > 0 {
                        assert(pairs[j] == rest[j - 1]);
                    }
                }
            },
        }
    }
}

/// The least position that holds the key is what `first` gives.
pub proof fn lemma_first_is<T>(pairs: Seq<(Seq<char>, T)>, key: Seq<char>, k: int)
    requires
        0 <= k <= pairs.len(),
        forall|j: int| 0 <= j < k ==> pairs[j].0 != key,
        k < pairs.len() ==> pairs[k].0 == key,
    ensures
        first(pairs, key) == (if k < pairs.len() {
            Some(k)
        } else {
            None
        }),
{
    lemma_first(pairs, key);
}

impl<V: DeepView> Dict<V> {
    /// The pairs of the map in the order in which their names were first
    /// inserted.
    pub closed spec fn pairs(&self) -> Seq<(Seq<char>, V::V)> {
        Seq::new(
            self.entries.len() as nat,
            |i: int| (self.entries[i].0@, self.entries[i].1.deep_view()),
        )
    }

    /// The map as a mathematical map.
    pub open spec fn view(&self) -> Map<Seq<char>, V::V> {
        as_map(self.pairs())
    }

    /// A map without an entry.
    pub fn new() -> (m: Self)
        ensures
            m.pairs() == Seq::<(Seq<char>, V::V)>::empty(),
            m@ == Map::<Seq<char>, V::V>::empty(),
            distinct(m.pairs()),
    {
        let m = Dict { entries: Vec::new() };
        assert(m.pairs() =~= Seq::<(Seq<char>, V::V)>::empty());
        assert(m@ =~= Map::<Seq<char>, V::V>::empty());
        m
    }

    /// The number of entries.
    pub fn len(&self) -> (n: usize)
        ensures
            n == self.pairs().len(),
    {
        self.entries.len()
    }

    /// The name of the entry at position `i`.
    pub fn name_at(&self, i: usize) -> (name: &String)
        requires
            i < self.pairs().len(),
        ensures
            name@ == self.pairs()[i as int].0,
    {
        &self.entries[i].0
    }

    /// The value of the entry at position `i`.
    pub fn value_at(&self, i: usize) -> (value: &V)
        requires
            i < self.pairs().len(),
        ensures
            value.deep_view() == self.pairs()[i as int].1,
    {
        &self.entries[i].1
    }

    /// The position of the first entry for `key`.
    pub fn position(&self, key: &str) -> (r: Option<usize>)
        ensures
            first(self.pairs(), key@) == (match r {
                Some(i) => Some(i as int),
                None => None,
            }),
            r matches Some(i) ==> i < self.pairs().len(),
    {
        let k = key.to_owned();
        let mut i: usize = 0;
        while i < self.entries.len()
            invariant
                i <= self.entries.len(),
                k@ == key@,
                forall|j: int| 0 <= j < i ==> self.pairs()[j].0 != key@,
            decreases self.entries.len() - i,
        {
            if self.entries[i].0 == k {
                proof {
                    lemma_first_is(self.pairs(), key@, i as int);
                }
                return Some(i);
            }
            i += 1;
        }
        proof {
            lemma_first_is(self.pairs(), key@, i as int);
        }
        None
    }

    /// Whether the map has a value for `key`.
    pub fn contains_key(&self, key: &str) -> (r: bool)
        ensures
            r == self@.contains_key(key@),
    {
        self.position(key).is_some()
    }

    /// The value for `key`, where the map has one.
    pub fn get(&self, key: &str) -> (r: Option<&V>)
        ensures
            match r {
                Some(v) => self@.contains_key(key@) && v.deep_view() == self@[key@],
                None => !self@.contains_key(key@),
            },
    {
        match self.position(key) {
            Some(i) => Some(&self.entries[i].1),
            None => None,
        }
    }

    /// Sets the value for `key`: in place where the map has the name already,
    /// at the end where the name is new.
    pub fn insert(&mut self, key: String, value: V)
        ensures
            final(self)@ == old(self)@.insert(key@, value.deep_view()),
            final(self).pairs() == (match first(old(self).pairs(), key@) {
                Some(i) => old(self).pairs().update(i, (key@, value.deep_view())),
                None => old(self).pairs().push((key@, value.deep_view())),
            }),
            distinct(old(self).pairs()) ==> distinct(final(self).pairs()),
    {
        let ghost before = self.pairs();
        let ghost pair = (key@, value.deep_view());
        match self.position(key.as_str()) {
            Some(i) => {
                self.entries.set(i, (key, value));
                assert(self.pairs() =~= before.update(i as int, pair));
            },
            None => {
                self.entries.push((key, value));
                assert(self.pairs() =~= before.push(pair));
            },
        }
        proof {
            let after = self.pairs();
            lemma_first(before, pair.0);
            let target = old(self)@.insert(pair.0, pair.1);
            assert forall|k: Seq<char>|
                #![trigger self@.dom().contains(k)]
                #![trigger target.dom().contains(k)]
                self@.dom().contains(k) == target.dom().contains(k) && (self@.dom().contains(k)
                    ==> self@[k] == target[k]) by {
                lemma_first(before, k);
                match first(before, k) {
                    Some(j) => lemma_first_is(after, k, j),
                    None => {
                        if k == pair.0 {
                            lemma_first_is(after, k, before.len() as int);
                        } else {
                            lemma_first_is(after, k, after.len() as int);
                        }
                    },
                }
            }
            assert(self@ =~= target);
            if distinct(before) {
                assert forall|i: int, j: int| 0 <= i < j < after.len() implies (
                #[trigger] after[i]).0 != (#[trigger] after[j]).0 by {
                    if j < before.len() {
                        assert(after[i].0 == before[i].0 && after[j].0 == before[j].0);
                    } else {
                        assert(after[i].0 == before[i].0);
                    }
                }
            }
        }
    }
}

/// The map of a list of pairs with one more pair in front.
pub proof fn lemma_as_map_front<T>(pairs: Seq<(Seq<char>, T)>, i: int)
    requires
        0 <= i < pairs.len(),
    ensures
        as_map(pairs.skip(i)) == as_map(pairs.skip(i + 1)).insert(pairs[i].0, pairs[i].1),
{
    let whole = pairs.skip(i);
    let rest = pairs.skip(i + 1);
    assert(whole.drop_first() =~= rest);
    assert(whole[0] == pairs[i]);
    let target = as_map(rest).insert(pairs[i].0, pairs[i].1);
    assert forall|k: Seq<char>|
        #![trigger as_map(whole).dom().contains(k)]
        #![trigger target.dom().contains(k)]
        as_map(whole).dom().contains(k) == target.dom().contains(k) && (as_map(
            whole,
        ).dom().contains(k) ==> as_map(whole)[k] == target[k]) by {
        lemma_first(rest, k);
        if whole[0].0 != k && first(rest, k) is Some {
            let j = first(rest, k)->0;
            assert(whole[j + 1] == rest[j]);
        }
    }
    assert(as_map(whole) =~= target);
}

impl Dict<String> {
    /// A copy of the map.
    pub fn copy(&self) -> (r: Self)
        ensures
            r.pairs() == self.pairs(),
            r@ == self@,
    {
        let mut entries: Vec<(String, String)> = Vec::new();
        let mut i: usize = 0;
        while i < self.entries.len()
            invariant
                i <= self.entries.len(),
                entries.len() == i,
                forall|j: int|
                    0 <= j < i ==> (#[trigger] entries[j]).0@ == self.entries[j].0@
                        && entries[j].1@ == self.entries[j].1@,
            decreases self.entries.len() - i,
        {
            entries.push((self.entries[i].0.clone(), self.entries[i].1.clone()));
            i += 1;
        }
        let r = Dict { entries };
        assert(r.pairs() =~= self.pairs());
        r
    }

    /// Puts every entry of `other` into the map, over what the map holds under
    /// the same name.
    pub fn absorb(&mut self, other: &Dict<String>)
        ensures
            final(self)@ == old(self)@.union_prefer_right(other@),
            distinct(old(self).pairs()) ==> distinct(final(self).pairs()),
    {
        let mut i: usize = other.entries.len();
        proof {
            assert(as_map(other.pairs().skip(i as int)) =~= Map::<Seq<char>, Seq<char>>::empty());
            assert(self@ =~= old(self)@.union_prefer_right(as_map(other.pairs().skip(i as int))));
        }
        while i > 0
            invariant
                i <= other.entries.len(),
                self@ == old(self)@.union_prefer_right(as_map(other.pairs().skip(i as int))),
                distinct(old(self).pairs()) ==> distinct(self.pairs()),
            decreases i,
        {
            i -= 1;
            proof {
                lemma_as_map_front(other.pairs(), i as int);
            }
            let ghost before = self@;
            self.insert(other.entries[i].0.clone(), other.entries[i].1.clone());
            assert(self@ =~= old(self)@.union_prefer_right(as_map(other.pairs().skip(i as int))));
        }
        assert(other.pairs().skip(0) =~= other.pairs());
    }
}

} // verus!
