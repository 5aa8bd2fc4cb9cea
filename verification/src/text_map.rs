//! A map from text to values, kept in insertion order.

use crate::text::same_text;
use vstd::prelude::*;

verus! {

/// A map keyed by text. Its model is a mathematical map from the characters of
/// a key to the value.
#[derive(Debug)]
pub struct TextMap<V> {
    entries: Vec<(String, V)>,
}

/// Where `key` is among the entries.
spec fn position_of<V>(entries: Seq<(String, V)>, key: Seq<char>) -> int {
    choose|i: int| 0 <= i < entries.len() && (#[trigger] entries[i]).0@ == key
}

spec fn has_key<V>(entries: Seq<(String, V)>, key: Seq<char>) -> bool {
    exists|i: int| 0 <= i < entries.len() && (#[trigger] entries[i]).0@ == key
}

spec fn distinct_keys<V>(entries: Seq<(String, V)>) -> bool {
    forall|i: int, j: int|
        #![trigger entries[i], entries[j]]
        0 <= i < j < entries.len() ==> entries[i].0@ != entries[j].0@
}

impl<V> View for TextMap<V> {
    type V = Map<Seq<char>, V>;

    closed spec fn view(&self) -> Map<Seq<char>, V> {
        Map::new(
            |key: Seq<char>| has_key(self.entries@, key),
            |key: Seq<char>| self.entries@[position_of(self.entries@, key)].1,
        )
    }
}

impl<V> TextMap<V> {
    #[verifier::type_invariant]
    spec fn no_key_twice(self) -> bool {
        distinct_keys(self.entries@)
    }

    pub fn new() -> (r: TextMap<V>)
        ensures
            r@ == Map::<Seq<char>, V>::empty(),
    {
        let r = TextMap { entries: Vec::new() };
        assert(r@ =~= Map::<Seq<char>, V>::empty());
        r
    }

    /// The keys, in insertion order.
    pub closed spec fn keys(self) -> Seq<Seq<char>> {
        Seq::new(self.entries@.len(), |i: int| self.entries@[i].0@)
    }

    /// How many keys there are.
    pub fn len(&self) -> (n: usize)
        ensures
            n == self.keys().len(),
            forall|key: Seq<char>| #[trigger]
                self@.contains_key(key) <==> self.keys().contains(key),
    {
        proof {
            let keys = self.keys();
            assert forall|key: Seq<char>| #[trigger]
                self@.contains_key(key) <==> keys.contains(key) by {
                if keys.contains(key) {
                    let i = choose|i: int| 0 <= i < keys.len() && keys[i] == key;
                    assert(self.entries@[i].0@ == key);
                }
                if self@.contains_key(key) {
                    let i = position_of(self.entries@, key);
                    assert(keys[i] == key);
                }
            }
        }
        self.entries.len()
    }

    /// The key at a position.
    pub fn key_at(&self, i: usize) -> (r: &str)
        requires
            i < self.keys().len(),
        ensures
            r@ == self.keys()[i as int],
    {
        self.entries[i].0.as_str()
    }

    /// The value of the key at a position.
    pub fn value_at(&self, i: usize) -> (r: &V)
        requires
            i < self.keys().len(),
        ensures
            self@.contains_key(self.keys()[i as int]),
            *r == self@[self.keys()[i as int]],
    {
        proof {
            use_type_invariant(self);
            lemma_position(self.entries@, i as int);
        }
        &self.entries[i].1
    }

    pub fn get(&self, key: &str) -> (r: Option<&V>)
        ensures
            r is Some <==> self@.contains_key(key@),
            r matches Some(v) ==> *v == self@[key@],
    {
        proof {
            use_type_invariant(self);
        }
        let mut i: usize = 0;
        while i < self.entries.len()
            invariant
                i <= self.entries@.len(),
                distinct_keys(self.entries@),
                forall|j: int| 0 <= j < i ==> (#[trigger] self.entries@[j]).0@ != key@,
            decreases self.entries@.len() - i,
        {
            if same_text(self.entries[i].0.as_str(), key) {
                proof {
                    lemma_position(self.entries@, i as int);
                }
                return Some(&self.entries[i].1);
            }
            i = i + 1;
        }
        None
    }

    pub fn insert(&mut self, key: String, value: V)
        ensures
            final(self)@ == old(self)@.insert(key@, value),
    {
        proof {
            use_type_invariant(&*self);
        }
        let ghost before = self.entries@;
        let mut entries: Vec<(String, V)> = Vec::new();
        core::mem::swap(&mut entries, &mut self.entries);
        let mut i: usize = 0;
        let mut found: bool = false;
        while i < entries.len() && !found
            invariant
                i <= entries@.len(),
                entries@ == before,
                !found ==> forall|j: int| 0 <= j < i ==> (#[trigger] before[j]).0@ != key@,
                found ==> i < entries@.len() && before[i as int].0@ == key@,
            decreases entries@.len() - i, !found as int,
        {
            if same_text(entries[i].0.as_str(), key.as_str()) {
                found = true;
            } else {
                i = i + 1;
            }
        }
        let ghost k = key@;
        if found {
            entries.set(i, (key, value));
            proof {
                assert(distinct_keys(entries@));
            }
            self.entries = entries;
            proof {
                assert forall|q: Seq<char>| has_key(self.entries@, q) == (q == k || has_key(
                    before,
                    q,
                )) by {
                    lemma_replaced(before, self.entries@, i as int, q);
                }
                lemma_position(self.entries@, i as int);
                assert forall|q: Seq<char>| q != k && has_key(before, q) implies self.entries@[
                position_of(self.entries@, q)].1 == before[position_of(before, q)].1 by {
                    let p = position_of(before, q);
                    assert(self.entries@[p] == before[p]);
                    lemma_position(self.entries@, p);
                }
                assert(self@ =~= old(self)@.insert(k, value));
            }
        } else {
            entries.push((key, value));
            proof {
                assert(distinct_keys(entries@));
            }
            self.entries = entries;
            proof {
                let n = before.len() as int;
                assert forall|q: Seq<char>| has_key(self.entries@, q) == (q == k || has_key(
                    before,
                    q,
                )) by {
                    if has_key(before, q) {
                        let p = position_of(before, q);
                        assert(self.entries@[p] == before[p]);
                    }
                    assert(self.entries@[n].0@ == k);
                    if has_key(self.entries@, q) {
                        let p = position_of(self.entries@, q);
                        if p < n {
                            assert(before[p] == self.entries@[p]);
                        }
                    }
                }
                lemma_position(self.entries@, n);
                assert forall|q: Seq<char>| q != k && has_key(before, q) implies self.entries@[
                position_of(self.entries@, q)].1 == before[position_of(before, q)].1 by {
                    let p = position_of(before, q);
                    assert(self.entries@[p] == before[p]);
                    lemma_position(self.entries@, p);
                }
                assert(self@ =~= old(self)@.insert(k, value));
            }
        }
    }
}

/// Keys that occur once are found where they are.
proof fn lemma_position<V>(entries: Seq<(String, V)>, i: int)
    requires
        distinct_keys(entries),
        0 <= i < entries.len(),
    ensures
        has_key(entries, entries[i].0@),
        position_of(entries, entries[i].0@) == i,
{
    let p = position_of(entries, entries[i].0@);
    assert(entries[i].0@ == entries[i].0@);
    if p < i {
        assert(entries[p].0@ != entries[i].0@);
    } else if i < p {
        assert(entries[i].0@ != entries[p].0@);
    }
}

proof fn lemma_replaced<V>(
    before: Seq<(String, V)>,
    after: Seq<(String, V)>,
    i: int,
    q: Seq<char>,
)
    requires
        0 <= i < before.len(),
        after.len() == before.len(),
        after[i].0@ == before[i].0@,
        forall|j: int| 0 <= j < before.len() && j != i ==> #[trigger] after[j] == before[j],
    ensures
        has_key(after, q) == (q == before[i].0@ || has_key(before, q)),
{
    if has_key(before, q) {
        let p = position_of(before, q);
        assert(after[p].0@ == q);
    }
    if has_key(after, q) {
        let p = position_of(after, q);
        assert(before[p].0@ == q);
    }
    if q == before[i].0@ {
        assert(after[i].0@ == q);
    }
}

} // verus!
