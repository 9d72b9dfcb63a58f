//! Named values, each name once.
use vstd::prelude::*;
use crate::text::text_eq;

verus! {

/// No key occurs twice.
pub open spec fn has_distinct_keys<V>(entries: Seq<(Seq<char>, V)>) -> bool {
    forall|i: int, j: int|
        #![trigger entries[i], entries[j]]
        0 <= i < j < entries.len() ==> entries[i].0 != entries[j].0
}

/// The models of a list of named values.
pub open spec fn keyed_view<V: View>(entries: Seq<(String, V)>) -> Seq<(Seq<char>, V::V)> {
    Seq::new(entries.len(), |i: int| (entries[i].0@, entries[i].1@))
}

/// The index of the first entry under `key`, if there is one.
pub open spec fn index_of_key<X>(entries: Seq<(Seq<char>, X)>, key: Seq<char>) -> Option<int>
    decreases entries.len(),
{
    if entries.len() == 0 {
        None
    } else if index_of_key(entries.drop_last(), key) is Some {
        index_of_key(entries.drop_last(), key)
    } else if entries.last().0 == key {
        Some(entries.len() - 1)
    } else {
        None
    }
}

/// The entries with `value` under `key`: in the place of the entry that was
/// under `key`, or at the end if there was none.
pub open spec fn with_entry<X>(entries: Seq<(Seq<char>, X)>, key: Seq<char>, value: X) -> Seq<
    (Seq<char>, X),
> {
    match index_of_key(entries, key) {
        Some(i) => entries.update(i, (key, value)),
        None => entries.push((key, value)),
    }
}

/// The entries whose key is not `key`, in their order.
pub open spec fn without_key<X>(entries: Seq<(Seq<char>, X)>, key: Seq<char>) -> Seq<(Seq<char>, X)>
    decreases entries.len(),
{
    if entries.len() == 0 {
        Seq::empty()
    } else if entries.last().0 == key {
        without_key(entries.drop_last(), key)
    } else {
        without_key(entries.drop_last(), key).push(entries.last())
    }
}

/// The index of the first entry under a key is that of an entry under the
/// key, and no entry before it is; without an index no entry is.
pub proof fn lemma_index_of_key<X>(entries: Seq<(Seq<char>, X)>, key: Seq<char>)
    ensures
        index_of_key(entries, key) matches Some(i) ==> 0 <= i < entries.len() && entries[i].0 == key
            && forall|j: int| 0 <= j < i ==> (#[trigger] entries[j]).0 != key,
        index_of_key(entries, key) is None ==> forall|j: int|
            0 <= j < entries.len() ==> (#[trigger] entries[j]).0 != key,
    decreases entries.len(),
{
    if entries.len() > 0 {
        let front = entries.drop_last();
        lemma_index_of_key(front, key);
        if let Some(i) = index_of_key(front, key) {
            assert(front[i] == entries[i]);
            assert forall|j: int| 0 <= j < i implies (#[trigger] entries[j]).0 != key by {
                assert(front[j] == entries[j]);
            }
        } else {
            assert forall|j: int| 0 <= j < entries.len() - 1 implies (#[trigger] entries[j]).0
                != key by {
                assert(front[j] == entries[j]);
            }
        }
    }
}

/// Without the one entry under a key, entries with distinct keys are the
/// entries around it.
pub proof fn lemma_without_key_removes<X>(entries: Seq<(Seq<char>, X)>, key: Seq<char>, i: int)
    requires
        has_distinct_keys(entries),
        0 <= i < entries.len(),
        entries[i].0 == key,
    ensures
        without_key(entries, key) == entries.remove(i),
    decreases entries.len(),
{
    let front = entries.drop_last();
    assert(has_distinct_keys(front)) by {
        assert forall|a: int, b: int| 0 <= a < b < front.len() implies front[a].0 != front[b].0 by {
            assert(entries[a].0 != entries[b].0);
        }
    }
    if i == entries.len() - 1 {
        lemma_without_key_keeps(front, key);
        assert(entries.remove(i) =~= front);
    } else {
        assert(entries[i].0 != entries[entries.len() - 1].0);
        lemma_without_key_removes(front, key, i);
        assert(entries.remove(i) =~= front.remove(i).push(entries.last()));
    }
}

/// Entries none of which is under a key are the same without the key.
pub proof fn lemma_without_key_keeps<X>(entries: Seq<(Seq<char>, X)>, key: Seq<char>)
    requires
        forall|j: int| 0 <= j < entries.len() ==> (#[trigger] entries[j]).0 != key,
    ensures
        without_key(entries, key) == entries,
    decreases entries.len(),
{
    if entries.len() > 0 {
        let front = entries.drop_last();
        assert forall|j: int| 0 <= j < front.len() implies (#[trigger] front[j]).0 != key by {
            assert(front[j] == entries[j]);
        }
        lemma_without_key_keeps(front, key);
        assert(entries[entries.len() - 1].0 != key);
        assert(entries =~= front.push(entries.last()));
    }
}

/// Named values in the order their names were first put in. No name occurs
/// twice: putting a value under a name that is there replaces the value.
#[derive(Debug, PartialEq, Eq)]
pub struct Keyed<V> {
    entries: Vec<(String, V)>,
}

impl<V: View> View for Keyed<V> {
    type V = Seq<(Seq<char>, V::V)>;

    closed spec fn view(&self) -> Seq<(Seq<char>, V::V)> {
        keyed_view(self.entries@)
    }
}

impl<V> Keyed<V> {
    #[verifier::type_invariant]
    spec fn keys_are_distinct(self) -> bool {
        forall|i: int, j: int|
            #![trigger self.entries@[i], self.entries@[j]]
            0 <= i < j < self.entries@.len() ==> self.entries@[i].0@ != self.entries@[j].0@
    }
}

impl<V: View> Keyed<V> {
    /// The names are distinct in the model where they are in the list.
    proof fn lemma_distinct(entries: Seq<(String, V)>)
        ensures
            has_distinct_keys(keyed_view(entries)) <==> forall|i: int, j: int|
                #![trigger entries[i], entries[j]]
                0 <= i < j < entries.len() ==> entries[i].0@ != entries[j].0@,
    {
        let model = keyed_view(entries);
        if has_distinct_keys(model) {
            assert forall|i: int, j: int|
                #![trigger entries[i], entries[j]]
                0 <= i < j < entries.len() implies entries[i].0@ != entries[j].0@ by {
                assert(model[i].0 != model[j].0);
            }
        }
        if forall|i: int, j: int|
            #![trigger entries[i], entries[j]]
            0 <= i < j < entries.len() ==> entries[i].0@ != entries[j].0@ {
            assert forall|i: int, j: int| 0 <= i < j < model.len() implies model[i].0
                != model[j].0 by {
                assert(entries[i].0@ != entries[j].0@);
            }
        }
    }

    /// No named values.
    pub fn new() -> (r: Self)
        ensures
            r@ == Seq::<(Seq<char>, V::V)>::empty(),
    {
        let entries: Vec<(String, V)> = Vec::new();
        assert(keyed_view(entries@) =~= Seq::empty());
        Keyed { entries }
    }

    /// The entries in their order. No two have the same key.
    pub fn entries(&self) -> (r: &Vec<(String, V)>)
        ensures
            keyed_view(r@) == self@,
            has_distinct_keys(self@),
    {
        proof {
            use_type_invariant(self);
            Self::lemma_distinct(self.entries@);
        }
        &self.entries
    }

    /// The index of the entry under `key`.
    fn find(&self, key: &str) -> (r: Option<usize>)
        ensures
            match r {
                Some(i) => index_of_key(self@, key@) == Some(i as int) && i < self.entries.len(),
                None => index_of_key(self@, key@) is None,
            },
    {
        let ghost model = keyed_view(self.entries@);
        let mut i: usize = 0;
        while i < self.entries.len()
            invariant
                i <= self.entries.len(),
                model == keyed_view(self.entries@),
                forall|j: int| 0 <= j < i ==> (#[trigger] model[j]).0 != key@,
            decreases self.entries.len() - i,
        {
            assert(model[i as int].0 == self.entries@[i as int].0@);
            if text_eq(self.entries[i].0.as_str(), key) {
                proof {
                    lemma_index_of_key(model, key@);
                }
                return Some(i);
            }
            i += 1;
        }
        proof {
            lemma_index_of_key(model, key@);
        }
        None
    }

    /// Puts `value` under `key`. A value that was there is replaced and
    /// handed back.
    pub fn insert(&mut self, key: String, value: V) -> (r: Option<V>)
        ensures
            final(self)@ == with_entry(old(self)@, key@, value@),
            match r {
                Some(replaced) => index_of_key(old(self)@, key@) matches Some(i) && replaced@
                    == old(self)@[i].1,
                None => index_of_key(old(self)@, key@) is None,
            },
    {
        proof {
            use_type_invariant(&*self);
            Self::lemma_distinct(self.entries@);
            lemma_index_of_key(self@, key@);
        }
        let ghost before = keyed_view(self.entries@);
        match self.find(key.as_str()) {
            Some(i) => {
                let mut entries: Vec<(String, V)> = Vec::new();
                core::mem::swap(&mut entries, &mut self.entries);
                let replaced = entries.remove(i);
                entries.insert(i, (key, value));
                proof {
                    assert(keyed_view(entries@) =~= before.update(i as int, (key@, value@)));
                    Self::lemma_distinct(entries@);
                    assert(has_distinct_keys(keyed_view(entries@))) by {
                        let after = keyed_view(entries@);
                        assert forall|a: int, b: int| 0 <= a < b < after.len() implies after[a].0
                            != after[b].0 by {
                            assert(before[a].0 != before[b].0);
                        }
                    }
                }
                self.entries = entries;
                Some(replaced.1)
            },
            None => {
                let mut entries: Vec<(String, V)> = Vec::new();
                core::mem::swap(&mut entries, &mut self.entries);
                entries.push((key, value));
                proof {
                    assert(keyed_view(entries@) =~= before.push((key@, value@)));
                    Self::lemma_distinct(entries@);
                    assert(has_distinct_keys(keyed_view(entries@))) by {
                        let after = keyed_view(entries@);
                        assert forall|a: int, b: int| 0 <= a < b < after.len() implies after[a].0
                            != after[b].0 by {
                            if b < before.len() {
                                assert(before[a].0 != before[b].0);
                            } else {
                                assert(before[a].0 != key@);
                            }
                        }
                    }
                }
                self.entries = entries;
                None
            },
        }
    }

    /// Takes out what is under `key` and hands it back.
    pub fn remove(&mut self, key: &str) -> (r: Option<V>)
        ensures
            final(self)@ == without_key(old(self)@, key@),
            match r {
                Some(removed) => index_of_key(old(self)@, key@) matches Some(i) && removed@
                    == old(self)@[i].1,
                None => index_of_key(old(self)@, key@) is None,
            },
    {
        proof {
            use_type_invariant(&*self);
            Self::lemma_distinct(self.entries@);
            lemma_index_of_key(self@, key@);
        }
        let ghost before = keyed_view(self.entries@);
        match self.find(key) {
            Some(i) => {
                let mut entries: Vec<(String, V)> = Vec::new();
                core::mem::swap(&mut entries, &mut self.entries);
                let removed = entries.remove(i);
                proof {
                    lemma_without_key_removes(before, key@, i as int);
                    assert(keyed_view(entries@) =~= before.remove(i as int));
                    Self::lemma_distinct(entries@);
                    assert(has_distinct_keys(keyed_view(entries@))) by {
                        let after = keyed_view(entries@);
                        assert forall|a: int, b: int| 0 <= a < b < after.len() implies after[a].0
                            != after[b].0 by {
                            let x = if a < i { a } else { a + 1 };
                            let y = if b < i { b } else { b + 1 };
                            assert(before[x].0 != before[y].0);
                        }
                    }
                }
                self.entries = entries;
                Some(removed.1)
            },
            None => {
                proof {
                    lemma_without_key_keeps(before, key@);
                }
                None
            },
        }
    }

    /// The entries in their order, given away.
    pub fn into_entries(self) -> (r: Vec<(String, V)>)
        ensures
            keyed_view(r@) == self@,
            has_distinct_keys(self@),
    {
        proof {
            use_type_invariant(&self);
            Self::lemma_distinct(self.entries@);
        }
        self.entries
    }

    /// How many named values there are.
    pub fn len(&self) -> (r: usize)
        ensures
            r == self@.len(),
    {
        self.entries.len()
    }
}

} // verus!
