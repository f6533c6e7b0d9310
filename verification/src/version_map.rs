//! A map keyed by version, kept as a list of entries with distinct keys.

use crate::version::Version;
use vstd::prelude::*;

verus! {

/// The map that a list of entries stands for: later entries win.
spec fn keyed<V>(entries: Seq<(Seq<u32>, V)>) -> Map<Seq<u32>, V>
    decreases entries.len(),
{
    if entries.len() == 0 {
        Map::empty()
    } else {
        keyed(entries.drop_last()).insert(entries.last().0, entries.last().1)
    }
}

/// No key occurs twice in the list.
spec fn distinct_keys<V>(entries: Seq<(Seq<u32>, V)>) -> bool {
    forall|i: int, j: int|
        0 <= i < j < entries.len() ==> (#[trigger] entries[i]).0 != (#[trigger] entries[j]).0
}

proof fn lemma_keyed<V>(entries: Seq<(Seq<u32>, V)>)
    ensures
        keyed(entries).dom().finite(),
        forall|k: Seq<u32>|
            keyed(entries).contains_key(k) <==> exists|i: int|
                0 <= i < entries.len() && (#[trigger] entries[i]).0 == k,
        distinct_keys(entries) ==> keyed(entries).dom().len() == entries.len(),
        distinct_keys(entries) ==> forall|i: int|
            0 <= i < entries.len() ==> keyed(entries)[(#[trigger] entries[i]).0] == entries[i].1,
    decreases entries.len(),
{
    if entries.len() > 0 {
        let init = entries.drop_last();
        let last = entries.last();
        lemma_keyed(init);
        assert forall|k: Seq<u32>|
            keyed(entries).contains_key(k) <==> exists|i: int|
                0 <= i < entries.len() && (#[trigger] entries[i]).0 == k by {
            if keyed(entries).contains_key(k) {
                if k == last.0 {
                    assert(entries[entries.len() - 1].0 == k);
                } else {
                    let i = choose|i: int| 0 <= i < init.len() && (#[trigger] init[i]).0 == k;
                    assert(entries[i].0 == k);
                }
            }
            if exists|i: int| 0 <= i < entries.len() && (#[trigger] entries[i]).0 == k {
                let i = choose|i: int| 0 <= i < entries.len() && (#[trigger] entries[i]).0 == k;
                if i < init.len() {
                    assert(init[i].0 == k);
                }
            }
        }
        if distinct_keys(entries) {
            assert(distinct_keys(init)) by {
                assert forall|i: int, j: int| 0 <= i < j < init.len() implies (#[trigger] init[i]).0
                    != (#[trigger] init[j]).0 by {
                    assert(entries[i].0 != entries[j].0);
                }
            }
            assert(!keyed(init).contains_key(last.0)) by {
                if keyed(init).contains_key(last.0) {
                    let i = choose|i: int| 0 <= i < init.len() && (#[trigger] init[i]).0 == last.0;
                    assert(entries[i].0 != entries[entries.len() - 1].0);
                }
            }
            assert forall|i: int| 0 <= i < entries.len() implies keyed(entries)[(
            #[trigger] entries[i]).0] == entries[i].1 by {
                if i < init.len() {
                    assert(init[i].0 == entries[i].0);
                    assert(entries[i].0 != entries[entries.len() - 1].0);
                }
            }
        }
    }
}

/// Taking an entry out of a list with distinct keys takes its key out of
/// the map.
proof fn lemma_keyed_remove<V>(entries: Seq<(Seq<u32>, V)>, i: int)
    requires
        distinct_keys(entries),
        0 <= i < entries.len(),
    ensures
        distinct_keys(entries.remove(i)),
        keyed(entries.remove(i)) == keyed(entries).remove(entries[i].0),
{
    let rest = entries.remove(i);
    assert forall|a: int, b: int| 0 <= a < b < rest.len() implies (#[trigger] rest[a]).0 != (
    #[trigger] rest[b]).0 by {
        let a0 = if a < i {
            a
        } else {
            a + 1
        };
        let b0 = if b < i {
            b
        } else {
            b + 1
        };
        assert(entries[a0].0 != entries[b0].0);
    }
    lemma_keyed(entries);
    lemma_keyed(rest);
    let left = keyed(rest);
    let right = keyed(entries).remove(entries[i].0);
    assert forall|k: Seq<u32>| left.contains_key(k) <==> right.contains_key(k) by {
        if left.contains_key(k) {
            let a = choose|a: int| 0 <= a < rest.len() && (#[trigger] rest[a]).0 == k;
            let a0 = if a < i {
                a
            } else {
                a + 1
            };
            assert(entries[a0].0 == k);
            if a0 < i {
                assert(entries[a0].0 != entries[i].0);
            } else {
                assert(entries[i].0 != entries[a0].0);
            }
        }
        if right.contains_key(k) {
            let a0 = choose|a: int| 0 <= a < entries.len() && (#[trigger] entries[a]).0 == k;
            let a = if a0 < i {
                a0
            } else {
                a0 - 1
            };
            assert(rest[a].0 == k);
        }
    }
    assert forall|k: Seq<u32>| left.contains_key(k) implies left[k] == right[k] by {
        let a = choose|a: int| 0 <= a < rest.len() && (#[trigger] rest[a]).0 == k;
        let a0 = if a < i {
            a
        } else {
            a + 1
        };
        assert(rest[a] == entries[a0]);
        assert(keyed(rest)[rest[a].0] == rest[a].1);
        assert(keyed(entries)[entries[a0].0] == entries[a0].1);
    }
    assert(left =~= right);
}

/// The entries with each key taken by its components.
spec fn slots_of<V>(entries: Seq<(Version, V)>) -> Seq<(Seq<u32>, V)> {
    entries.map_values(|e: (Version, V)| (e.0@, e.1))
}

/// A finite map from versions to values. It is meant for the few entries of
/// a migration history: every operation takes time in proportion to their
/// number.
pub struct VersionMap<V> {
    entries: Vec<(Version, V)>,
}

impl<V> View for VersionMap<V> {
    type V = Map<Seq<u32>, V>;

    closed spec fn view(&self) -> Map<Seq<u32>, V> {
        keyed(self.slots())
    }
}

impl<V> VersionMap<V> {
    /// The entries with each key taken by its components.
    closed spec fn slots(&self) -> Seq<(Seq<u32>, V)> {
        slots_of(self.entries@)
    }

    #[verifier::type_invariant]
    spec fn keys_are_distinct(&self) -> bool {
        distinct_keys(self.slots())
    }

    /// Puts `entries` in the place of the map's entries, and hands the old
    /// entries out.
    fn replace_entries(&mut self, entries: Vec<(Version, V)>) -> (taken: Vec<(Version, V)>)
        requires
            distinct_keys(slots_of(entries@)),
        ensures
            final(self).entries == entries,
            taken == old(self).entries,
    {
        let mut entries = entries;
        std::mem::swap(&mut self.entries, &mut entries);
        entries
    }

    /// An empty map.
    pub fn new() -> (r: Self)
        ensures
            r@ == Map::<Seq<u32>, V>::empty(),
    {
        let r = VersionMap { entries: Vec::new() };
        assert(r.slots() =~= Seq::empty());
        r
    }

    /// The number of entries.
    pub fn len(&self) -> (n: usize)
        ensures
            self@.dom().finite(),
            n == self@.len(),
    {
        proof {
            use_type_invariant(self);
            lemma_keyed(self.slots());
        }
        self.entries.len()
    }

    /// The place of the entry for `key`, if there is one.
    fn position(&self, key: &Version) -> (r: Option<usize>)
        ensures
            match r {
                Some(i) => i < self.slots().len() && self.slots()[i as int].0 == key@,
                None => forall|i: int|
                    0 <= i < self.slots().len() ==> (#[trigger] self.slots()[i]).0 != key@,
            },
    {
        let mut i: usize = 0;
        while i < self.entries.len()
            invariant
                i <= self.entries@.len(),
                forall|j: int| 0 <= j < i ==> (#[trigger] self.slots()[j]).0 != key@,
            decreases self.entries@.len() - i,
        {
            if self.entries[i].0 == *key {
                return Some(i);
            }
            i = i + 1;
        }
        None
    }

    /// The value for `key`, if the map has one.
    pub fn get(&self, key: &Version) -> (r: Option<&V>)
        ensures
            match r {
                Some(v) => self@.contains_key(key@) && *v == self@[key@],
                None => !self@.contains_key(key@),
            },
    {
        proof {
            use_type_invariant(self);
            lemma_keyed(self.slots());
        }
        match self.position(key) {
            Some(i) => Some(&self.entries[i].1),
            None => None,
        }
    }

    /// Sets the value for `key`, and returns the value that it replaces.
    pub fn insert(&mut self, key: Version, value: V) -> (previous: Option<V>)
        ensures
            final(self)@ == old(self)@.insert(key@, value),
            previous == if old(self)@.contains_key(key@) {
                Some(old(self)@[key@])
            } else {
                None::<V>
            },
    {
        let previous = self.remove(&key);
        let ghost before = self.slots();
        proof {
            use_type_invariant(&*self);
            lemma_keyed(before);
        }
        let mut entries = self.replace_entries(Vec::new());
        entries.push((key, value));
        proof {
            let after = slots_of(entries@);
            assert(after =~= before.push((key@, value)));
            assert(after.drop_last() =~= before);
            assert forall|i: int, j: int| 0 <= i < j < after.len() implies (#[trigger] after[i]).0
                != (#[trigger] after[j]).0 by {
                assert(before[i].0 == after[i].0);
                assert(keyed(before).contains_key(before[i].0));
                if j < before.len() {
                    assert(before[j].0 == after[j].0);
                }
            }
            assert(old(self)@.remove(key@).insert(key@, value) =~= old(self)@.insert(key@, value));
        }
        self.replace_entries(entries);
        previous
    }

    /// Takes the entry for `key` out of the map, and returns its value.
    pub fn remove(&mut self, key: &Version) -> (previous: Option<V>)
        ensures
            final(self)@ == old(self)@.remove(key@),
            previous == if old(self)@.contains_key(key@) {
                Some(old(self)@[key@])
            } else {
                None::<V>
            },
    {
        let ghost before = self.slots();
        proof {
            use_type_invariant(&*self);
            lemma_keyed(before);
        }
        match self.position(key) {
            Some(i) => {
                let mut entries = self.replace_entries(Vec::new());
                let entry = entries.remove(i);
                proof {
                    assert(slots_of(entries@) =~= before.remove(i as int));
                    lemma_keyed_remove(before, i as int);
                }
                self.replace_entries(entries);
                Some(entry.1)
            },
            None => {
                proof {
                    assert(!old(self)@.contains_key(key@));
                    assert(old(self)@.remove(key@) =~= old(self)@);
                }
                None
            },
        }
    }

    /// Takes some entry out of the map, unless the map is empty.
    pub fn pop(&mut self) -> (entry: Option<(Version, V)>)
        ensures
            old(self)@.dom().finite(),
            match entry {
                Some((key, value)) => {
                    &&& old(self)@.contains_key(key@)
                    &&& old(self)@[key@] == value
                    &&& final(self)@ == old(self)@.remove(key@)
                },
                None => old(self)@ == Map::<Seq<u32>, V>::empty() && final(self)@ == old(self)@,
            },
    {
        let ghost before = self.slots();
        proof {
            use_type_invariant(&*self);
            lemma_keyed(before);
        }
        let mut entries = self.replace_entries(Vec::new());
        let entry = entries.pop();
        proof {
            if before.len() > 0 {
                let last = before.len() - 1;
                assert(slots_of(entries@) =~= before.remove(last));
                lemma_keyed_remove(before, last);
                assert(before[last].0 == entry.unwrap().0@);
            } else {
                assert(slots_of(entries@) =~= before);
            }
        }
        self.replace_entries(entries);
        entry
    }

    /// The keys of the map, each once, in no particular order.
    pub fn keys(&self) -> (r: Vec<Version>)
        ensures
            forall|i: int| 0 <= i < r@.len() ==> self@.contains_key(#[trigger] r@[i]@),
            forall|i: int, j: int| 0 <= i < j < r@.len() ==> r@[i]@ != r@[j]@,
            forall|k: Seq<u32>|
                self@.contains_key(k) ==> exists|i: int|
                    0 <= i < r@.len() && #[trigger] r@[i]@ == k,
    {
        proof {
            use_type_invariant(self);
            lemma_keyed(self.slots());
        }
        let mut r: Vec<Version> = Vec::new();
        let mut i: usize = 0;
        while i < self.entries.len()
            invariant
                i <= self.entries@.len(),
                r@.len() == i,
                forall|j: int| 0 <= j < i ==> (#[trigger] r@[j])@ == self.slots()[j].0,
            decreases self.entries@.len() - i,
        {
            r.push(self.entries[i].0.clone());
            i = i + 1;
        }
        proof {
            let slots = self.slots();
            assert forall|i: int| 0 <= i < r@.len() implies self@.contains_key(
                #[trigger] r@[i]@,
            ) by {
                assert(slots[i].0 == r@[i]@);
            }
            assert forall|i: int, j: int| 0 <= i < j < r@.len() implies r@[i]@ != r@[j]@ by {
                assert(slots[i].0 != slots[j].0);
            }
            assert forall|k: Seq<u32>| self@.contains_key(k) implies exists|i: int|
                0 <= i < r@.len() && #[trigger] r@[i]@ == k by {
                let i = choose|i: int| 0 <= i < slots.len() && (#[trigger] slots[i]).0 == k;
                assert(r@[i]@ == k);
            }
        }
        r
    }
}

} // verus!
