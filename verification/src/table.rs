//! A table of values by key, each key at most once, walked in a fixed order.
use vstd::prelude::*;

verus! {

/// A key of a table: two keys are the same exactly where their views are.
pub trait TableKey: View + Sized {
    fn same(&self, other: &Self) -> (r: bool)
        ensures
            r == (self@ == other@),
    ;
}

impl TableKey for String {
    fn same(&self, other: &String) -> (r: bool) {
        *self == *other
    }
}

/// The map that holds the given pairs; of two pairs with one key, the later one.
pub open spec fn pairs_map<K: View, V>(pairs: Seq<(K, V)>) -> Map<K::V, V>
    decreases pairs.len(),
{
    if pairs.len() == 0 {
        Map::empty()
    } else {
        pairs_map(pairs.drop_last()).insert(pairs.last().0@, pairs.last().1)
    }
}

/// No key occurs in two pairs.
pub open spec fn distinct_keys<K: View, V>(pairs: Seq<(K, V)>) -> bool {
    forall|i: int, j: int|
        0 <= i < j < pairs.len() ==> (#[trigger] pairs[i]).0@ != (#[trigger] pairs[j]).0@
}

/// A table with one value for each of its keys.
pub struct Table<K, V> {
    pairs: Vec<(K, V)>,
}

impl<K: TableKey, V> View for Table<K, V> {
    type V = Map<K::V, V>;

    closed spec fn view(&self) -> Map<K::V, V> {
        pairs_map(self.pairs@)
    }
}

impl<K: TableKey, V> Table<K, V> {
    /// Each key stands in the table once.
    pub closed spec fn wf(&self) -> bool {
        distinct_keys(self.pairs@)
    }

    /// The keys and values in the order in which the table is walked.
    pub closed spec fn entries(&self) -> Seq<(K, V)> {
        self.pairs@
    }

    /// The walk meets each key of the table once, and no others.
    pub proof fn lemma_walk(&self)
        requires
            self.wf(),
        ensures
            distinct_keys(self.entries()),
            self@ == pairs_map(self.entries()),
            forall|i: int|
                0 <= i < self.entries().len() ==> self@.dom().contains(
                    (#[trigger] self.entries()[i]).0@,
                ) && self@[self.entries()[i].0@] == self.entries()[i].1,
            forall|key: K::V|
                self@.dom().contains(key) ==> exists|i: int|
                    0 <= i < self.entries().len() && (#[trigger] self.entries()[i]).0@ == key,
    {
        assert forall|i: int| 0 <= i < self.entries().len() implies self@.dom().contains(
            (#[trigger] self.entries()[i]).0@,
        ) && self@[self.entries()[i].0@] == self.entries()[i].1 by {
            lemma_pair_in_map(self.pairs@, i);
        }
        assert forall|key: K::V| self@.dom().contains(key) implies exists|i: int|
            0 <= i < self.entries().len() && (#[trigger] self.entries()[i]).0@ == key by {
            lemma_keys_of_pairs(self.pairs@, key);
            let i = choose|i: int|
                0 <= i < self.pairs@.len() && (#[trigger] self.pairs@[i]).0@ == key;
            assert(self.entries()[i].0@ == key);
        }
    }

    /// A table without keys.
    pub fn new() -> (r: Self)
        ensures
            r.wf(),
            r@ == Map::<K::V, V>::empty(),
            r.entries() == Seq::<(K, V)>::empty(),
    {
        Table { pairs: Vec::new() }
    }

    /// The number of keys in the table.
    pub fn len(&self) -> (r: usize)
        ensures
            r == self.entries().len(),
    {
        self.pairs.len()
    }

    /// The entry at a place of the walk.
    pub fn at(&self, i: usize) -> (r: &(K, V))
        requires
            i < self.entries().len(),
        ensures
            *r == self.entries()[i as int],
    {
        &self.pairs[i]
    }

    fn position(&self, key: &K) -> (r: Option<usize>)
        ensures
            match r {
                Some(i) => i < self.pairs@.len() && self.pairs@[i as int].0@ == key@,
                None => forall|i: int|
                    0 <= i < self.pairs@.len() ==> (#[trigger] self.pairs@[i]).0@ != key@,
            },
    {
        let mut i: usize = 0;
        while i < self.pairs.len()
            invariant
                i <= self.pairs.len(),
                forall|j: int| 0 <= j < i ==> (#[trigger] self.pairs@[j]).0@ != key@,
            decreases self.pairs.len() - i,
        {
            if self.pairs[i].0.same(key) {
                return Some(i);
            }
            i += 1;
        }
        None
    }

    /// The value of `key`, if the table has one.
    pub fn get(&self, key: &K) -> (r: Option<&V>)
        requires
            self.wf(),
        ensures
            match r {
                Some(value) => self@.dom().contains(key@) && *value == self@[key@],
                None => !self@.dom().contains(key@),
            },
    {
        match self.position(key) {
            Some(i) => {
                proof {
                    lemma_pair_in_map(self.pairs@, i as int);
                }
                Some(&self.pairs[i].1)
            },
            None => {
                proof {
                    if self@.dom().contains(key@) {
                        lemma_keys_of_pairs(self.pairs@, key@);
                    }
                }
                None
            },
        }
    }

    /// Gives `key` the value, in place of the one it has, if any.
    pub fn insert(&mut self, key: K, value: V)
        requires
            old(self).wf(),
        ensures
            final(self).wf(),
            final(self)@ == old(self)@.insert(key@, value),
    {
        self.remove(&key);
        proof {
            assert(self.pairs@.push((key, value)).drop_last() =~= self.pairs@);
            let before = self.pairs@;
            let after = before.push((key, value));
            assert forall|i: int, j: int| 0 <= i < j < after.len() implies (#[trigger] after[i]).0@
                != (#[trigger] after[j]).0@ by {
                assert(after[i] == before[i]);
                if j == before.len() {
                    lemma_pair_in_map(before, i);
                } else {
                    assert(after[j] == before[j]);
                }
            }
            assert(old(self)@.remove(key@).insert(key@, value) =~= old(self)@.insert(key@, value));
        }
        self.pairs.push((key, value));
    }

    /// Takes `key` out of the table, if it is there.
    pub fn remove(&mut self, key: &K)
        requires
            old(self).wf(),
        ensures
            final(self).wf(),
            final(self)@ == old(self)@.remove(key@),
    {
        match self.position(key) {
            Some(i) => {
                proof {
                    lemma_remove_pair(self.pairs@, i as int);
                }
                let _ = self.pairs.remove(i);
            },
            None => {
                proof {
                    if self@.dom().contains(key@) {
                        lemma_keys_of_pairs(self.pairs@, key@);
                    }
                    assert(self@.remove(key@) =~= self@);
                }
            },
        }
    }
}

/// Each pair's key has that pair's value, where no key occurs twice.
proof fn lemma_pair_in_map<K: View, V>(pairs: Seq<(K, V)>, i: int)
    requires
        distinct_keys(pairs),
        0 <= i < pairs.len(),
    ensures
        pairs_map(pairs).dom().contains(pairs[i].0@),
        pairs_map(pairs)[pairs[i].0@] == pairs[i].1,
    decreases pairs.len(),
{
    if i < pairs.len() - 1 {
        let rest = pairs.drop_last();
        lemma_distinct_rest(pairs);
        lemma_pair_in_map(rest, i);
        assert(pairs[i].0@ != pairs[pairs.len() - 1].0@);
    }
}

proof fn lemma_distinct_rest<K: View, V>(pairs: Seq<(K, V)>)
    requires
        distinct_keys(pairs),
        pairs.len() > 0,
    ensures
        distinct_keys(pairs.drop_last()),
{
    let rest = pairs.drop_last();
    assert forall|i: int, j: int| 0 <= i < j < rest.len() implies (#[trigger] rest[i]).0@ != (
    #[trigger] rest[j]).0@ by {
        assert(rest[i] == pairs[i] && rest[j] == pairs[j]);
    }
}

/// The keys of the map of some pairs are the keys of the pairs.
pub proof fn lemma_keys_of_pairs<K: View, V>(pairs: Seq<(K, V)>, key: K::V)
    ensures
        pairs_map(pairs).dom().contains(key) <==> exists|i: int|
            0 <= i < pairs.len() && (#[trigger] pairs[i]).0@ == key,
    decreases pairs.len(),
{
    if pairs.len() > 0 {
        let rest = pairs.drop_last();
        lemma_keys_of_pairs(rest, key);
        assert(pairs[pairs.len() - 1] == pairs.last());
        if exists|i: int| 0 <= i < rest.len() && (#[trigger] rest[i]).0@ == key {
            let i = choose|i: int| 0 <= i < rest.len() && (#[trigger] rest[i]).0@ == key;
            assert(pairs[i].0@ == key);
        }
        if exists|i: int| 0 <= i < pairs.len() && (#[trigger] pairs[i]).0@ == key {
            let i = choose|i: int| 0 <= i < pairs.len() && (#[trigger] pairs[i]).0@ == key;
            if i < rest.len() {
                assert(rest[i].0@ == key);
            }
        }
    }
}

/// Of all pairs with one key, the last one counts, and a key that stands in no pair has
/// no value.
pub proof fn law_last_pair_counts<K: View, V>(pairs: Seq<(K, V)>, i: int, key: K::V)
    requires
        0 <= i < pairs.len(),
    ensures
        (forall|j: int| i < j < pairs.len() ==> (#[trigger] pairs[j]).0@ != pairs[i].0@)
            ==> pairs_map(pairs).dom().contains(pairs[i].0@) && pairs_map(pairs)[pairs[i].0@]
            == pairs[i].1,
        (forall|j: int| 0 <= j < pairs.len() ==> (#[trigger] pairs[j]).0@ != key)
            ==> !pairs_map(pairs).dom().contains(key),
        pairs_map(Seq::<(K, V)>::empty()).dom() == Set::<K::V>::empty(),
    decreases pairs.len(),
{
    lemma_keys_of_pairs(pairs, key);
    if i < pairs.len() - 1 {
        let rest = pairs.drop_last();
        law_last_pair_counts(rest, i, key);
        assert(forall|j: int| 0 <= j < rest.len() ==> (#[trigger] rest[j]) == pairs[j]);
        assert(pairs.last() == pairs[pairs.len() - 1]);
    }
}

proof fn lemma_remove_pair<K: View, V>(pairs: Seq<(K, V)>, i: int)
    requires
        distinct_keys(pairs),
        0 <= i < pairs.len(),
    ensures
        distinct_keys(pairs.remove(i)),
        pairs_map(pairs.remove(i)) == pairs_map(pairs).remove(pairs[i].0@),
    decreases pairs.len(),
{
    let after = pairs.remove(i);
    assert forall|a: int, b: int| 0 <= a < b < after.len() implies (#[trigger] after[a]).0@ != (
    #[trigger] after[b]).0@ by {
        let from_a = if a < i { a } else { a + 1 };
        let from_b = if b < i { b } else { b + 1 };
        assert(after[a] == pairs[from_a] && after[b] == pairs[from_b]);
    }
    let rest = pairs.drop_last();
    let last = pairs.last();
    if i == pairs.len() - 1 {
        assert(after =~= rest);
        if pairs_map(rest).dom().contains(last.0@) {
            lemma_keys_of_pairs(rest, last.0@);
            let k = choose|k: int| 0 <= k < rest.len() && (#[trigger] rest[k]).0@ == last.0@;
            assert(pairs[k].0@ == pairs[i].0@);
        }
        assert(pairs_map(pairs).remove(last.0@) =~= pairs_map(rest));
    } else {
        lemma_distinct_rest(pairs);
        lemma_remove_pair(rest, i);
        assert(after.drop_last() =~= rest.remove(i));
        assert(after.last() == last);
        assert(pairs[i].0@ != pairs[pairs.len() - 1].0@);
        assert(pairs_map(rest).remove(pairs[i].0@).insert(last.0@, last.1) =~= pairs_map(
            rest,
        ).insert(last.0@, last.1).remove(pairs[i].0@));
    }
}

} // verus!
