use crate::message::{Action, ActionView};
use vstd::prelude::*;
use vstd::std_specs::cmp::{PartialEqSpec, PartialEqSpecImpl};

verus! {

/// The map that a list of entries stands for.
spec fn entries_map<T>(entries: Seq<(Action, T)>) -> Map<ActionView, T>
    decreases entries.len(),
{
    if entries.len() == 0 {
        Map::empty()
    } else {
        entries_map(entries.drop_last()).insert(entries.last().0@, entries.last().1)
    }
}

/// No two entries are keyed by actions that say the same.
spec fn keys_distinct<T>(entries: Seq<(Action, T)>) -> bool {
    forall|i: int, j: int| 0 <= i < j < entries.len() ==> entries[i].0@ != entries[j].0@
}

/// Some entry is keyed by an action that says `key`.
spec fn has_key<T>(entries: Seq<(Action, T)>, key: ActionView) -> bool {
    exists|i: int| 0 <= i < entries.len() && (#[trigger] entries[i]).0@ == key
}

proof fn lemma_entries_map_dom<T>(entries: Seq<(Action, T)>, key: ActionView)
    ensures
        entries_map(entries).contains_key(key) <==> has_key(entries, key),
    decreases entries.len(),
{
    if entries.len() > 0 {
        let init = entries.drop_last();
        lemma_entries_map_dom(init, key);
        if has_key(init, key) {
            let i = choose|i: int| 0 <= i < init.len() && (#[trigger] init[i]).0@ == key;
            assert(entries[i].0@ == key);
        }
        if has_key(entries, key) && key != entries.last().0@ {
            let i = choose|i: int| 0 <= i < entries.len() && (#[trigger] entries[i]).0@ == key;
            assert(init[i].0@ == key);
        }
        if key == entries.last().0@ {
            assert(entries[entries.len() - 1].0@ == key);
        }
    }
}

proof fn lemma_entries_map_value<T>(entries: Seq<(Action, T)>, i: int)
    requires
        keys_distinct(entries),
        0 <= i < entries.len(),
    ensures
        entries_map(entries).contains_key(entries[i].0@),
        entries_map(entries)[entries[i].0@] == entries[i].1,
    decreases entries.len(),
{
    if i < entries.len() - 1 {
        let init = entries.drop_last();
        assert(init[i] == entries[i]);
        lemma_entries_map_value(init, i);
    }
}

proof fn lemma_entries_map_remove<T>(entries: Seq<(Action, T)>, i: int)
    requires
        keys_distinct(entries),
        0 <= i < entries.len(),
    ensures
        keys_distinct(entries.remove(i)),
        entries_map(entries.remove(i)) == entries_map(entries).remove(entries[i].0@),
    decreases entries.len(),
{
    let rest = entries.remove(i);
    let init = entries.drop_last();
    if i == entries.len() - 1 {
        assert(rest =~= init);
        lemma_entries_map_dom(init, entries[i].0@);
        if has_key(init, entries[i].0@) {
            let j = choose|j: int| 0 <= j < init.len() && (#[trigger] init[j]).0@ == entries[i].0@;
            assert(init[j] == entries[j]);
        }
        assert(entries_map(init) =~= entries_map(entries).remove(entries[i].0@));
    } else {
        assert(init[i] == entries[i]);
        lemma_entries_map_remove(init, i);
        assert(rest.drop_last() =~= init.remove(i));
        assert(rest.last() == entries.last());
        assert(entries_map(rest) =~= entries_map(entries).remove(entries[i].0@));
    }
}

/// A finite map keyed by what an action says: two actions with the same
/// variant, node and reason are one key.
#[derive(Debug)]
pub struct ActionMap<T> {
    entries: Vec<(Action, T)>,
}

impl<T> View for ActionMap<T> {
    type V = Map<ActionView, T>;

    closed spec fn view(&self) -> Map<ActionView, T> {
        entries_map(self.entries@)
    }
}

impl<T> ActionMap<T> {
    #[verifier::type_invariant]
    spec fn well_formed(self) -> bool {
        keys_distinct(self.entries@)
    }

    pub fn new() -> (m: Self)
        ensures
            m@ == Map::<ActionView, T>::empty(),
    {
        ActionMap { entries: Vec::new() }
    }

    pub fn is_empty(&self) -> (empty: bool)
        ensures
            empty == self@.is_empty(),
    {
        proof {
            if self.entries@.len() > 0 {
                lemma_entries_map_dom(self.entries@, self.entries@[0].0@);
            }
        }
        self.entries.len() == 0
    }

    /// The index of the entry under `key`, if there is one.
    fn position(&self, key: &Action) -> (found: Option<usize>)
        ensures
            match found {
                Some(i) => i < self.entries@.len() && self.entries@[i as int].0@ == key@,
                None => !self@.contains_key(key@),
            },
    {
        let mut i: usize = 0;
        while i < self.entries.len()
            invariant
                i <= self.entries@.len(),
                forall|j: int| 0 <= j < i ==> self.entries@[j].0@ != key@,
            decreases self.entries@.len() - i,
        {
            if self.entries[i].0 == *key {
                return Some(i);
            }
            i = i + 1;
        }
        proof {
            lemma_entries_map_dom(self.entries@, key@);
        }
        None
    }

    pub fn contains_key(&self, key: &Action) -> (present: bool)
        ensures
            present == self@.contains_key(key@),
    {
        match self.position(key) {
            Some(i) => {
                proof {
                    use_type_invariant(self);
                    lemma_entries_map_value(self.entries@, i as int);
                }
                true
            },
            None => false,
        }
    }

    pub fn get(&self, key: &Action) -> (value: Option<&T>)
        ensures
            match value {
                Some(v) => self@.contains_key(key@) && *v == self@[key@],
                None => !self@.contains_key(key@),
            },
    {
        match self.position(key) {
            Some(i) => {
                proof {
                    use_type_invariant(self);
                    lemma_entries_map_value(self.entries@, i as int);
                }
                Some(&self.entries[i].1)
            },
            None => None,
        }
    }

    /// Removes the entry under `key` and hands its value out.
    pub fn remove(&mut self, key: &Action) -> (previous: Option<T>)
        ensures
            final(self)@ == old(self)@.remove(key@),
            previous == old(self)@.get(key@),
    {
        match self.position(key) {
            Some(i) => {
                proof {
                    use_type_invariant(&*self);
                    lemma_entries_map_value(self.entries@, i as int);
                    lemma_entries_map_remove(self.entries@, i as int);
                }
                let mut entries = Vec::new();
                core::mem::swap(&mut self.entries, &mut entries);
                let entry = entries.remove(i);
                self.entries = entries;
                Some(entry.1)
            },
            None => {
                assert(self@.remove(key@) =~= self@);
                None
            },
        }
    }

    /// Puts `value` under `key`, in place of what was there, and hands
    /// the old value out.
    pub fn insert(&mut self, key: Action, value: T) -> (previous: Option<T>)
        ensures
            final(self)@ == old(self)@.insert(key@, value),
            previous == old(self)@.get(key@),
    {
        let previous = self.remove(&key);
        proof {
            use_type_invariant(&*self);
            lemma_entries_map_dom(self.entries@, key@);
            assert(self.entries@.push((key, value)).drop_last() =~= self.entries@);
            assert(old(self)@.remove(key@).insert(key@, value) =~= old(self)@.insert(key@, value));
            assert forall|i: int, j: int|
                0 <= i < j < self.entries@.push((key, value)).len() implies self.entries@.push(
                (key, value),
            )[i].0@ != self.entries@.push((key, value))[j].0@ by {
                if j == self.entries@.len() {
                    assert(self.entries@[i].0@ != key@);
                }
            }
        }
        let mut entries = Vec::new();
        core::mem::swap(&mut self.entries, &mut entries);
        entries.push((key, value));
        self.entries = entries;
        previous
    }
}

impl<T: PartialEq> ActionMap<T> {
    /// Every key of `self` is a key of `other`, with a value that `==`
    /// takes for equal to the one in `self`.
    pub open spec fn matched_by(&self, other: &ActionMap<T>) -> bool {
        forall|key: ActionView| #[trigger]
            self@.contains_key(key) ==> other@.contains_key(key) && self@[key].eq_spec(
                &other@[key],
            )
    }

    fn is_matched_by(&self, other: &ActionMap<T>) -> (all: bool)
        ensures
            T::obeys_eq_spec() ==> all == self.matched_by(other),
    {
        let mut i: usize = 0;
        while i < self.entries.len()
            invariant
                i <= self.entries@.len(),
                T::obeys_eq_spec() ==> forall|j: int|
                    0 <= j < i ==> other@.contains_key((#[trigger] self.entries@[j]).0@)
                        && self.entries@[j].1.eq_spec(&other@[self.entries@[j].0@]),
            decreases self.entries@.len() - i,
        {
            proof {
                use_type_invariant(self);
                use_type_invariant(other);
                lemma_entries_map_value(self.entries@, i as int);
            }
            match other.position(&self.entries[i].0) {
                Some(j) => {
                    proof {
                        lemma_entries_map_value(other.entries@, j as int);
                    }
                    if !(self.entries[i].1 == other.entries[j].1) {
                        assert(self@.contains_key(self.entries@[i as int].0@));
                        return false;
                    }
                },
                None => {
                    assert(self@.contains_key(self.entries@[i as int].0@));
                    return false;
                },
            }
            i = i + 1;
        }
        proof {
            use_type_invariant(self);
            if T::obeys_eq_spec() {
                assert forall|key: ActionView| #[trigger]
                    self@.contains_key(key) implies other@.contains_key(key) && self@[key].eq_spec(
                    &other@[key],
                ) by {
                    lemma_entries_map_dom(self.entries@, key);
                    let j = choose|j: int|
                        0 <= j < self.entries@.len() && (#[trigger] self.entries@[j]).0@ == key;
                    lemma_entries_map_value(self.entries@, j);
                }
            }
        }
        true
    }
}

impl<T: PartialEq> PartialEq for ActionMap<T> {
    fn eq(&self, other: &ActionMap<T>) -> (same: bool) {
        self.is_matched_by(other) && other.is_matched_by(self)
    }
}

impl<T: PartialEq> PartialEqSpecImpl for ActionMap<T> {
    open spec fn obeys_eq_spec() -> bool {
        T::obeys_eq_spec()
    }

    /// Two maps are equal where they have the same keys and, under each
    /// key, values that `==` takes for equal, either way round.
    open spec fn eq_spec(&self, other: &ActionMap<T>) -> bool {
        self.matched_by(other) && other.matched_by(self)
    }
}

impl<T: Clone> Clone for ActionMap<T> {
    /// A map with the same keys, each value cloned.
    fn clone(&self) -> (copy: Self)
        ensures
            copy@.dom() == self@.dom(),
            forall|key: ActionView| #[trigger]
                self@.contains_key(key) ==> cloned(self@[key], copy@[key]),
    {
        let mut entries: Vec<(Action, T)> = Vec::new();
        let mut i: usize = 0;
        while i < self.entries.len()
            invariant
                i <= self.entries@.len(),
                entries@.len() == i,
                forall|j: int| 0 <= j < i ==> entries@[j].0 == self.entries@[j].0,
                forall|j: int| 0 <= j < i ==> cloned(self.entries@[j].1, (#[trigger] entries@[j]).1),
            decreases self.entries@.len() - i,
        {
            let key = self.entries[i].0.clone();
            let value = self.entries[i].1.clone();
            entries.push((key, value));
            i = i + 1;
        }
        proof {
            use_type_invariant(self);
            assert forall|key: ActionView|
                entries_map(entries@).contains_key(key) == entries_map(self.entries@).contains_key(
                    key,
                ) by {
                lemma_entries_map_dom(entries@, key);
                lemma_entries_map_dom(self.entries@, key);
                if has_key(entries@, key) {
                    let j = choose|j: int| 0 <= j < entries@.len() && (#[trigger] entries@[j]).0@ == key;
                    assert(self.entries@[j].0@ == key);
                }
                if has_key(self.entries@, key) {
                    let j = choose|j: int|
                        0 <= j < self.entries@.len() && (#[trigger] self.entries@[j]).0@ == key;
                    assert(entries@[j].0@ == key);
                }
            }
            assert(entries_map(entries@).dom() =~= entries_map(self.entries@).dom());
            assert forall|key: ActionView| #[trigger]
                entries_map(self.entries@).contains_key(key) implies cloned(
                entries_map(self.entries@)[key],
                entries_map(entries@)[key],
            ) by {
                lemma_entries_map_dom(self.entries@, key);
                let j = choose|j: int|
                    0 <= j < self.entries@.len() && (#[trigger] self.entries@[j]).0@ == key;
                assert(entries@[j].0@ == key);
                lemma_entries_map_value(self.entries@, j);
                lemma_entries_map_value(entries@, j);
            }
        }
        ActionMap { entries }
    }
}

} // verus!
