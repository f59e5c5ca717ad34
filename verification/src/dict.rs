//! A small map from text keys to values, kept as a list of entries.

use crate::text::same_text;
use vstd::prelude::*;

verus! {

/// The first entry whose key reads `key` stands at `i`.
pub open spec fn first_at<V>(entries: Seq<(String, V)>, key: Seq<char>, i: int) -> bool {
    &&& 0 <= i < entries.len()
    &&& entries[i].0@ == key
    &&& forall|j: int| 0 <= j < i ==> (#[trigger] entries[j]).0@ != key
}

/// Some entry has the key `key`.
pub open spec fn has_key<V>(entries: Seq<(String, V)>, key: Seq<char>) -> bool {
    exists|i: int| first_at(entries, key, i)
}

/// Where the entry for `key` stands.
pub open spec fn key_index<V>(entries: Seq<(String, V)>, key: Seq<char>) -> int {
    choose|i: int| first_at(entries, key, i)
}

/// No key occurs twice.
pub open spec fn keys_differ<V>(entries: Seq<(String, V)>) -> bool {
    forall|i: int, j: int|
        0 <= i < j < entries.len() ==> (#[trigger] entries[i]).0@ != (#[trigger] entries[j]).0@
}

/// A map from text keys to values. It views as the mathematical map of its entries.
#[derive(Debug, PartialEq)]
pub struct Dict<V> {
    pub(crate) entries: Vec<(String, V)>,
}

impl<V> View for Dict<V> {
    type V = Map<Seq<char>, V>;

    closed spec fn view(&self) -> Map<Seq<char>, V> {
        Map::new(
            |key: Seq<char>| has_key(self.entries@, key),
            |key: Seq<char>| self.entries@[key_index(self.entries@, key)].1,
        )
    }
}

/// There is only one place for the first entry of a key.
pub(crate) proof fn lemma_first_at<V>(entries: Seq<(String, V)>, key: Seq<char>, i: int)
    requires
        first_at(entries, key, i),
    ensures
        has_key(entries, key),
        key_index(entries, key) == i,
{
    let k = key_index(entries, key);
    assert(first_at(entries, key, k));
    if k < i {
        assert(entries[k].0@ != key);
    } else if i < k {
        assert(entries[i].0@ != key);
    }
}

/// Any entry of a key shows that the key is there.
pub(crate) proof fn lemma_some_entry<V>(entries: Seq<(String, V)>, key: Seq<char>, i: int)
    requires
        0 <= i < entries.len(),
        entries[i].0@ == key,
    ensures
        has_key(entries, key),
    decreases i,
{
    if forall|j: int| 0 <= j < i ==> (#[trigger] entries[j]).0@ != key {
        assert(first_at(entries, key, i));
    } else {
        let j = choose|j: int| 0 <= j < i && (#[trigger] entries[j]).0@ == key;
        lemma_some_entry(entries, key, j);
    }
}

/// Where no key occurs twice, every entry is the first of its key.
proof fn lemma_own_place<V>(entries: Seq<(String, V)>, i: int)
    requires
        keys_differ(entries),
        0 <= i < entries.len(),
    ensures
        has_key(entries, entries[i].0@),
        key_index(entries, entries[i].0@) == i,
{
    assert(first_at(entries, entries[i].0@, i)) by {
        assert forall|j: int| 0 <= j < i implies (#[trigger] entries[j]).0@ != entries[i].0@ by {}
    }
    lemma_first_at(entries, entries[i].0@, i);
}

/// The keys of a list of entries.
spec fn keys_of<V>(entries: Seq<(String, V)>) -> Set<Seq<char>> {
    Set::new(|key: Seq<char>| has_key(entries, key))
}

/// Where no key occurs twice, there are as many keys as entries.
proof fn lemma_keys_counted<V>(entries: Seq<(String, V)>)
    requires
        keys_differ(entries),
    ensures
        keys_of(entries).finite(),
        keys_of(entries).len() == entries.len(),
    decreases entries.len(),
{
    if entries.len() == 0 {
        assert(keys_of(entries) =~= Set::empty());
    } else {
        let some = entries.drop_last();
        let n = some.len() as int;
        let key = entries.last().0@;
        lemma_keys_counted(some);
        assert(!has_key(some, key)) by {
            if has_key(some, key) {
                let i = choose|i: int| first_at(some, key, i);
                assert(entries[i].0@ != entries[n].0@);
            }
        }
        lemma_appended(some, entries);
        assert(keys_of(entries) =~= keys_of(some).insert(key));
    }
}

/// The list of a map is what it keeps.
pub(crate) proof fn lemma_entries<V>(dict: Dict<V>)
    ensures
        dict.listed() == dict.entries@,
{
}

impl<V> Dict<V> {
    /// The entries in the order in which their keys came first.
    pub closed spec fn listed(self) -> Seq<(String, V)> {
        self.entries@
    }

    /// Every key has one entry.
    #[verifier::type_invariant]
    pub(crate) open spec fn each_key_once(self) -> bool {
        keys_differ(self.entries@)
    }

    /// What the map holds, in terms of its entries.
    pub proof fn lemma_listed(self)
        ensures
            forall|key: Seq<char>| #[trigger] self@.contains_key(key) <==> has_key(self.listed(), key),
            forall|key: Seq<char>|
                #[trigger] self@.contains_key(key) ==> self@[key] == self.listed()[key_index(
                    self.listed(),
                    key,
                )].1,
    {
    }

    /// A map without entries.
    pub fn new() -> (result: Self)
        ensures
            result@ == Map::<Seq<char>, V>::empty(),
            result.listed().len() == 0,
    {
        let result = Dict { entries: Vec::new() };
        assert(result@ =~= Map::<Seq<char>, V>::empty()) by {
            assert forall|key: Seq<char>| !has_key(result.entries@, key) by {}
        }
        result
    }

    /// A map with these entries.
    pub(crate) fn of_entries(entries: Vec<(String, V)>) -> (result: Self)
        requires
            keys_differ(entries@),
        ensures
            result.entries == entries,
    {
        Dict { entries }
    }

    /// The number of entries, one for each key.
    pub fn len(&self) -> (result: usize)
        ensures
            result == self.listed().len(),
            keys_differ(self.listed()),
            self@.dom().finite(),
            result == self@.len(),
    {
        proof {
            use_type_invariant(&*self);
            lemma_keys_counted(self.entries@);
            assert(self@.dom() =~= keys_of(self.entries@));
        }
        self.entries.len()
    }

    /// Whether the map has no entries.
    pub fn is_empty(&self) -> (result: bool)
        ensures
            result == (self.listed().len() == 0),
            result ==> self@ == Map::<Seq<char>, V>::empty(),
            !result ==> exists|key: Seq<char>| self@.contains_key(key),
    {
        let result = self.entries.len() == 0;
        proof {
            if result {
                assert(self@ =~= Map::<Seq<char>, V>::empty()) by {
                    assert forall|key: Seq<char>| !has_key(self.entries@, key) by {}
                }
            } else {
                assert(first_at(self.entries@, self.entries@[0].0@, 0));
                assert(self@.contains_key(self.entries@[0].0@));
            }
        }
        result
    }

    /// The entry at a place in the list.
    pub fn entry(&self, i: usize) -> (result: (&str, &V))
        requires
            i < self.listed().len(),
        ensures
            result.0@ == self.listed()[i as int].0@,
            *result.1 == self.listed()[i as int].1,
            self@.contains_key(result.0@),
            *result.1 == self@[result.0@],
    {
        proof {
            use_type_invariant(&*self);
            lemma_own_place(self.entries@, i as int);
        }
        (self.entries[i].0.as_str(), &self.entries[i].1)
    }

    /// All entries, in their order.
    pub fn into_entries(self) -> (result: Vec<(String, V)>)
        ensures
            result@ == self.listed(),
            keys_differ(result@),
            forall|i: int|
                0 <= i < result@.len() ==> self@.contains_key((#[trigger] result@[i]).0@)
                    && self@[result@[i].0@] == result@[i].1,
            forall|key: Seq<char>|
                self@.contains_key(key) ==> exists|i: int|
                    0 <= i < result@.len() && (#[trigger] result@[i]).0@ == key,
    {
        proof {
            use_type_invariant(&self);
            let entries = self.entries@;
            assert forall|i: int| 0 <= i < entries.len() implies self@.contains_key(
                (#[trigger] entries[i]).0@,
            ) && self@[entries[i].0@] == entries[i].1 by {
                lemma_own_place(entries, i);
            }
            assert forall|key: Seq<char>| self@.contains_key(key) implies exists|i: int|
                0 <= i < entries.len() && (#[trigger] entries[i]).0@ == key by {
                assert(first_at(entries, key, key_index(entries, key)));
            }
        }
        self.entries
    }

    fn find(&self, key: &str) -> (result: Option<usize>)
        ensures
            match result {
                Some(i) => first_at(self.entries@, key@, i as int),
                None => !has_key(self.entries@, key@),
            },
    {
        let mut i: usize = 0;
        while i < self.entries.len()
            invariant
                i <= self.entries.len(),
                forall|j: int| 0 <= j < i ==> (#[trigger] self.entries@[j]).0@ != key@,
            decreases self.entries.len() - i,
        {
            if same_text(self.entries[i].0.as_str(), key) {
                return Some(i);
            }
            i += 1;
        }
        None
    }

    /// The value of a key.
    pub fn get(&self, key: &str) -> (result: Option<&V>)
        ensures
            match result {
                Some(value) => self@.contains_key(key@) && *value == self@[key@],
                None => !self@.contains_key(key@),
            },
    {
        match self.find(key) {
            Some(i) => {
                proof {
                    lemma_first_at(self.entries@, key@, i as int);
                }
                Some(&self.entries[i].1)
            },
            None => None,
        }
    }

    /// Whether a key is there.
    pub fn contains_key(&self, key: &str) -> (result: bool)
        ensures
            result == self@.contains_key(key@),
    {
        match self.find(key) {
            Some(i) => {
                proof {
                    lemma_first_at(self.entries@, key@, i as int);
                }
                true
            },
            None => false,
        }
    }

    /// Takes out one entry, while there is any.
    pub fn pop(&mut self) -> (result: Option<(String, V)>)
        ensures
            match result {
                Some((key, value)) => {
                    &&& old(self)@.contains_key(key@)
                    &&& value == old(self)@[key@]
                    &&& final(self)@ == old(self)@.remove(key@)
                    &&& final(self).listed().len() == old(self).listed().len() - 1
                },
                None => {
                    &&& old(self)@ == Map::<Seq<char>, V>::empty()
                    &&& final(self)@ == old(self)@
                },
            },
    {
        proof {
            use_type_invariant(&*self);
        }
        let ghost before = self.entries@;
        let mut entries: Vec<(String, V)> = Vec::new();
        std::mem::swap(&mut entries, &mut self.entries);
        let last = entries.pop();
        proof {
            assert forall|i: int, j: int| 0 <= i < j < entries@.len() implies (#[trigger] entries@[i]).0@
                != (#[trigger] entries@[j]).0@ by {
                assert(before[i].0@ != before[j].0@);
            }
        }
        self.entries = entries;
        match last {
            Some((key, value)) => {
                proof {
                    let after = self.entries@;
                    let n = after.len() as int;
                    assert(before == after.push((key, value)));
                    assert forall|j: int| 0 <= j < n implies (#[trigger] after[j]).0@ != key@ by {
                        assert(before[j].0@ != before[n].0@);
                    }
                    assert(!has_key(after, key@));
                    assert(before.last() == (key, value));
                    lemma_appended(after, before);
                    assert(self@ =~= old(self)@.remove(key@));
                }
                Some((key, value))
            },
            None => {
                assert(self@ =~= Map::<Seq<char>, V>::empty()) by {
                    assert forall|key: Seq<char>| !has_key(before, key) by {}
                }
                None
            },
        }
    }

    /// Sets the value of a key: in its place where the key is there, behind the last entry
    /// where it is not.
    pub fn insert(&mut self, key: String, value: V)
        ensures
            final(self)@ == old(self)@.insert(key@, value),
    {
        proof {
            use_type_invariant(&*self);
        }
        let ghost before = self.entries@;
        let found = self.find(key.as_str());
        let mut entries: Vec<(String, V)> = Vec::new();
        std::mem::swap(&mut entries, &mut self.entries);
        match found {
            Some(i) => {
                proof {
                    lemma_first_at(before, key@, i as int);
                }
                entries[i] = (key, value);
                proof {
                    lemma_replaced(before, entries@, i as int);
                }
            },
            None => {
                entries.push((key, value));
                proof {
                    lemma_appended(before, entries@);
                }
            },
        }
        self.entries = entries;
        assert(self@ =~= old(self)@.insert(key@, value));
    }
}

/// What a map holds under a key: nothing where the key is not there.
pub open spec fn list_at<T>(lists: Map<Seq<char>, Vec<T>>, key: Seq<char>) -> Seq<T> {
    if lists.contains_key(key) {
        lists[key]@
    } else {
        Seq::empty()
    }
}

impl<T> Dict<Vec<T>> {
    /// Adds an item to the list of a key, which begins with the first item.
    pub fn push(&mut self, key: &str, item: T)
        ensures
            final(self)@.dom() == old(self)@.dom().insert(key@),
            list_at(final(self)@, key@) == list_at(old(self)@, key@).push(item),
            forall|other: Seq<char>|
                other != key@ && old(self)@.contains_key(other) ==> #[trigger] final(self)@[other]
                    == old(self)@[other],
    {
        proof {
            use_type_invariant(&*self);
        }
        let ghost before = self.entries@;
        let found = self.find(key);
        let mut entries: Vec<(String, Vec<T>)> = Vec::new();
        std::mem::swap(&mut entries, &mut self.entries);
        match found {
            Some(i) => {
                proof {
                    lemma_first_at(before, key@, i as int);
                }
                entries[i].1.push(item);
                proof {
                    lemma_replaced(before, entries@, i as int);
                }
            },
            None => {
                let mut list: Vec<T> = Vec::new();
                list.push(item);
                entries.push((key.to_string(), list));
                proof {
                    lemma_appended(before, entries@);
                }
            },
        }
        self.entries = entries;
        assert(self@.dom() =~= old(self)@.dom().insert(key@));
        assert forall|other: Seq<char>| other != key@ && old(self)@.contains_key(other) implies #[trigger] self@[other]
            == old(self)@[other] by {
            let k = key_index(before, other);
            assert(first_at(before, other, k));
            assert(has_key(before, other));
            assert(key_index(self.entries@, other) == k);
        }
        proof {
            assert(self@.contains_key(key@));
            assert(has_key(self.entries@, key@));
            let k = key_index(self.entries@, key@);
            assert(first_at(self.entries@, key@, k));
        }
        assert(list_at(self@, key@) =~= list_at(old(self)@, key@).push(item));
    }
}

/// Replacing the value of an entry leaves every key in its place.
proof fn lemma_replaced<V>(before: Seq<(String, V)>, after: Seq<(String, V)>, i: int)
    requires
        0 <= i < before.len(),
        before.len() == after.len(),
        after[i].0@ == before[i].0@,
        forall|j: int| 0 <= j < before.len() && j != i ==> after[j] == before[j],
    ensures
        forall|key: Seq<char>| #[trigger] has_key(after, key) == has_key(before, key),
        forall|key: Seq<char>|
            has_key(before, key) ==> #[trigger] key_index(after, key) == key_index(before, key),
        keys_differ(before) ==> keys_differ(after),
{
    assert forall|j: int| 0 <= j < before.len() implies (#[trigger] after[j]).0@ == before[j].0@ by {}
    assert forall|key: Seq<char>, j: int|
        #![trigger first_at(before, key, j)]
        #![trigger first_at(after, key, j)]
        first_at(before, key, j) == first_at(after, key, j) by {
        assert(forall|m: int| 0 <= m < before.len() ==> (#[trigger] before[m]).0@ == after[m].0@);
    }
    assert forall|key: Seq<char>| #[trigger] has_key(after, key) == has_key(before, key) by {
        if has_key(after, key) {
            let j = choose|j: int| first_at(after, key, j);
            assert(first_at(before, key, j));
        }
        if has_key(before, key) {
            let j = choose|j: int| first_at(before, key, j);
            assert(first_at(after, key, j));
        }
    }
    assert forall|key: Seq<char>| has_key(before, key) implies #[trigger] key_index(after, key)
        == key_index(before, key) by {
        let j = key_index(before, key);
        assert(first_at(before, key, j));
        assert(first_at(after, key, j));
        lemma_first_at(after, key, j);
    }
    if keys_differ(before) {
        assert forall|m: int, n: int| 0 <= m < n < after.len() implies (#[trigger] after[m]).0@
            != (#[trigger] after[n]).0@ by {
            assert(before[m].0@ != before[n].0@);
        }
    }
}

/// An entry behind the last one adds its key and leaves the others in their places.
proof fn lemma_appended<V>(before: Seq<(String, V)>, after: Seq<(String, V)>)
    requires
        after.len() == before.len() + 1,
        forall|j: int| 0 <= j < before.len() ==> after[j] == before[j],
        !has_key(before, after.last().0@),
    ensures
        forall|key: Seq<char>| #[trigger]
            has_key(after, key) == (has_key(before, key) || key == after.last().0@),
        forall|key: Seq<char>|
            has_key(before, key) ==> #[trigger] key_index(after, key) == key_index(before, key),
        key_index(after, after.last().0@) == before.len(),
        keys_differ(before) ==> keys_differ(after),
{
    let added = after.last().0@;
    let n = before.len() as int;
    assert forall|j: int| 0 <= j < n implies (#[trigger] before[j]).0@ != added by {
        if before[j].0@ == added {
            lemma_some_entry(before, added, j);
        }
    }
    assert(first_at(after, added, n)) by {
        assert forall|j: int| 0 <= j < n implies (#[trigger] after[j]).0@ != added by {
            assert(before[j].0@ != added);
        }
    }
    lemma_first_at(after, added, n);
    assert forall|key: Seq<char>| has_key(before, key) implies has_key(after, key) && #[trigger] key_index(
        after,
        key,
    ) == key_index(before, key) by {
        let j = key_index(before, key);
        assert(first_at(before, key, j));
        assert(first_at(after, key, j)) by {
            assert forall|m: int| 0 <= m < j implies (#[trigger] after[m]).0@ != key by {
                assert(before[m].0@ != key);
            }
        }
        lemma_first_at(after, key, j);
    }
    assert forall|key: Seq<char>| #[trigger]
        has_key(after, key) == (has_key(before, key) || key == added) by {
        if has_key(before, key) {
            assert(key_index(after, key) == key_index(before, key));
        }
        if has_key(after, key) && key != added {
            let j = choose|j: int| first_at(after, key, j);
            assert(j != n);
            assert(before[j].0@ == key);
            lemma_some_entry(before, key, j);
        }
    }
    if keys_differ(before) {
        assert forall|i: int, j: int| 0 <= i < j < after.len() implies (#[trigger] after[i]).0@ != (
        #[trigger] after[j]).0@ by {
            assert(after[i] == before[i]);
            if j < n {
                assert(before[i].0@ != before[j].0@);
            }
        }
    }
}

} // verus!
