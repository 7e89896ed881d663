//! A table of provider weights keyed by stable provider identity.

use vstd::prelude::*;

verus! {

/// The map that a list of `(identity, weight)` entries denotes: a later
/// entry for the same identity replaces an earlier one.
pub open spec fn entries_map<V>(entries: Seq<(String, V)>) -> Map<Seq<char>, V>
    decreases entries.len(),
{
    if entries.len() == 0 {
        Map::empty()
    } else {
        entries_map(entries.drop_last()).insert(entries.last().0@, entries.last().1)
    }
}

/// No identity occurs in two entries.
pub open spec fn keys_distinct<V>(entries: Seq<(String, V)>) -> bool {
    forall|i: int, j: int| 0 <= i < j < entries.len() ==> (#[trigger] entries[i]).0@ != (#[trigger] entries[j]).0@
}

/// Replacing an entry by one of the same identity keeps identities
/// distinct.
pub proof fn lemma_distinct_update<V>(entries: Seq<(String, V)>, p: int, entry: (String, V))
    requires
        keys_distinct(entries),
        0 <= p < entries.len(),
        entries[p].0@ == entry.0@,
    ensures
        keys_distinct(entries.update(p, entry)),
{
    let e = entries.update(p, entry);
    assert forall|i: int, j: int| 0 <= i < j < e.len() implies (#[trigger] e[i]).0@ != (#[trigger] e[j]).0@ by {
        assert(entries[i].0@ != entries[j].0@);
    }
}

/// Appending an entry of an identity not yet present keeps identities
/// distinct.
pub proof fn lemma_distinct_push<V>(entries: Seq<(String, V)>, entry: (String, V))
    requires
        keys_distinct(entries),
        forall|q: int| 0 <= q < entries.len() ==> entries[q].0@ != entry.0@,
    ensures
        keys_distinct(entries.push(entry)),
{
    let e = entries.push(entry);
    assert forall|i: int, j: int| 0 <= i < j < e.len() implies (#[trigger] e[i]).0@ != (#[trigger] e[j]).0@ by {
        if j < entries.len() {
            assert(entries[i].0@ != entries[j].0@);
        } else {
            assert(e[i] == entries[i]);
        }
    }
}

/// Provider weights keyed by stable identity.
pub struct WeightTable {
    entries: Vec<(String, u32)>,
}

impl WeightTable {
    /// Each identity has one entry.
    #[verifier::type_invariant]
    spec fn one_entry_per_identity(self) -> bool {
        keys_distinct(self.entries@)
    }
}

impl View for WeightTable {
    type V = Map<Seq<char>, u32>;

    closed spec fn view(&self) -> Map<Seq<char>, u32> {
        entries_map(self.entries@)
    }
}

/// Where the last entry for `key` stands in `entries`, if there is one.
pub open spec fn last_entry_of<V>(entries: Seq<(String, V)>, key: Seq<char>) -> Option<int>
    decreases entries.len(),
{
    if entries.len() == 0 {
        None
    } else if entries.last().0@ == key {
        Some(entries.len() - 1)
    } else {
        last_entry_of(entries.drop_last(), key)
    }
}

pub proof fn lemma_last_entry_of<V>(entries: Seq<(String, V)>, key: Seq<char>)
    ensures
        match last_entry_of(entries, key) {
            Some(p) => {
                &&& 0 <= p < entries.len()
                &&& entries[p].0@ == key
                &&& entries_map(entries).contains_key(key)
                &&& entries_map(entries)[key] == entries[p].1
                &&& forall|q: int| p < q < entries.len() ==> entries[q].0@ != key
            },
            None => {
                &&& !entries_map(entries).contains_key(key)
                &&& forall|q: int| 0 <= q < entries.len() ==> entries[q].0@ != key
            },
        },
    decreases entries.len(),
{
    if entries.len() > 0 {
        let rest = entries.drop_last();
        lemma_last_entry_of(rest, key);
        if entries.last().0@ != key {
            assert(forall|q: int| 0 <= q < rest.len() ==> rest[q] == entries[q]);
            match last_entry_of(rest, key) {
                Some(p) => {
                    assert(forall|q: int| p < q < entries.len() ==> entries[q].0@ != key) by {
                        assert forall|q: int| p < q < entries.len() implies entries[q].0@ != key by {
                            if q < entries.len() - 1 {
                                assert(rest[q] == entries[q]);
                            }
                        }
                    }
                },
                None => {
                    assert forall|q: int| 0 <= q < entries.len() implies entries[q].0@ != key by {
                        if q < entries.len() - 1 {
                            assert(rest[q] == entries[q]);
                        }
                    }
                },
            }
        }
    }
}

pub proof fn lemma_replace_entry<V>(entries: Seq<(String, V)>, p: int, entry: (String, V))
    requires
        0 <= p < entries.len(),
        entries[p].0@ == entry.0@,
        forall|q: int| p < q < entries.len() ==> entries[q].0@ != entry.0@,
    ensures
        entries_map(entries.update(p, entry)) == entries_map(entries).insert(entry.0@, entry.1),
    decreases entries.len(),
{
    if p == entries.len() - 1 {
        assert(entries.update(p, entry).drop_last() =~= entries.drop_last());
    } else {
        lemma_replace_entry(entries.drop_last(), p, entry);
        assert(entries.update(p, entry).drop_last() =~= entries.drop_last().update(p, entry));
        assert(entries_map(entries.update(p, entry)) =~= entries_map(entries).insert(
            entry.0@,
            entry.1,
        ));
    }
}

impl WeightTable {
    /// An empty table.
    pub fn new() -> (table: WeightTable)
        ensures
            table@ == Map::<Seq<char>, u32>::empty(),
    {
        WeightTable { entries: Vec::new() }
    }

    /// The weight stored for `id`, if any.
    pub fn get(&self, id: &str) -> (weight: Option<u32>)
        ensures
            weight == (if self@.contains_key(id@) {
                Some(self@[id@])
            } else {
                None::<u32>
            }),
    {
        let wanted: String = id.to_owned();
        let mut p: usize = self.entries.len();
        assert(self.entries@.take(p as int) =~= self.entries@);
        while p > 0
            invariant
                p <= self.entries.len(),
                wanted@ == id@,
                last_entry_of(self.entries@, id@) == last_entry_of(self.entries@.take(p as int), id@),
            decreases p,
        {
            let same: bool = self.entries[p - 1].0 == wanted;
            assert(self.entries@.take(p as int).last() == self.entries@[p - 1]);
            if same {
                proof {
                    lemma_last_entry_of(self.entries@, id@);
                }
                return Some(self.entries[p - 1].1);
            }
            assert(self.entries@.take(p as int).drop_last() =~= self.entries@.take(p - 1));
            p = p - 1;
        }
        proof {
            lemma_last_entry_of(self.entries@, id@);
        }
        None
    }

    /// Store `weight` for `id`, replacing any weight stored for it.
    pub fn insert(&mut self, id: String, weight: u32)
        ensures
            final(self)@ == old(self)@.insert(id@, weight),
    {
        proof {
            use_type_invariant(&*self);
        }
        let mut entries: Vec<(String, u32)> = Vec::new();
        std::mem::swap(&mut entries, &mut self.entries);
        let ghost start = entries@;
        assert(start == old(self).entries@);
        let mut p: usize = entries.len();
        assert(entries@.take(p as int) =~= entries@);
        while p > 0
            invariant
                p <= entries.len(),
                entries@ == start,
                start == old(self).entries@,
                keys_distinct(start),
                last_entry_of(entries@, id@) == last_entry_of(entries@.take(p as int), id@),
            decreases p,
        {
            let same: bool = entries[p - 1].0 == id;
            assert(entries@.take(p as int).last() == entries@[p - 1]);
            if same {
                proof {
                    lemma_last_entry_of(entries@, id@);
                    lemma_replace_entry(entries@, p - 1, (id, weight));
                    lemma_distinct_update(entries@, p - 1, (id, weight));
                }
                let ghost prior = entries@;
                entries.set(p - 1, (id, weight));
                assert(entries@ == prior.update(p - 1, (id, weight)));
                self.entries = entries;
                return;
            }
            assert(entries@.take(p as int).drop_last() =~= entries@.take(p - 1));
            p = p - 1;
        }
        proof {
            lemma_last_entry_of(entries@, id@);
            lemma_distinct_push(entries@, (id, weight));
        }
        let ghost before = entries@;
        entries.push((id, weight));
        assert(entries@.drop_last() =~= before);
        self.entries = entries;
    }

    /// The stored entries, each identity once.
    pub fn entries(&self) -> (entries: &Vec<(String, u32)>)
        ensures
            entries_map(entries@) == self@,
            keys_distinct(entries@),
    {
        proof {
            use_type_invariant(self);
        }
        &self.entries
    }

    /// The identities that have a weight, each at least once.
    pub fn keys(&self) -> (keys: Vec<String>)
        ensures
            forall|j: int| 0 <= j < keys@.len() ==> self@.contains_key(#[trigger] keys@[j]@),
            forall|k: Seq<char>| #[trigger] self@.contains_key(k) ==> exists|j: int|
                0 <= j < keys@.len() && keys@[j]@ == k,
    {
        let mut keys: Vec<String> = Vec::new();
        let mut t: usize = 0;
        while t < self.entries.len()
            invariant
                t <= self.entries.len(),
                keys@.len() == t,
                forall|j: int| 0 <= j < t ==> (#[trigger] keys@[j])@ == self.entries@[j].0@,
            decreases self.entries.len() - t,
        {
            keys.push(self.entries[t].0.clone());
            t = t + 1;
        }
        assert forall|j: int| 0 <= j < keys@.len() implies self@.contains_key(
            #[trigger] keys@[j]@,
        ) by {
            lemma_last_entry_of(self.entries@, keys@[j]@);
        }
        assert forall|k: Seq<char>| #[trigger] self@.contains_key(k) implies exists|j: int|
            0 <= j < keys@.len() && keys@[j]@ == k by {
            lemma_last_entry_of(self.entries@, k);
            let p = last_entry_of(self.entries@, k)->0;
            assert(keys@[p]@ == k);
        }
        keys
    }

    /// A table with the same weights.
    pub fn duplicate(&self) -> (copy: WeightTable)
        ensures
            copy@ == self@,
    {
        let mut entries: Vec<(String, u32)> = Vec::new();
        let mut t: usize = 0;
        while t < self.entries.len()
            invariant
                t <= self.entries.len(),
                entries@.len() == t,
                forall|j: int| 0 <= j < t ==> (#[trigger] entries@[j]).0@ == self.entries@[j].0@
                    && entries@[j].1 == self.entries@[j].1,
            decreases self.entries.len() - t,
        {
            let key: String = self.entries[t].0.clone();
            entries.push((key, self.entries[t].1));
            t = t + 1;
        }
        proof {
            use_type_invariant(self);
            lemma_same_keys_same_map(entries@, self.entries@);
            assert forall|i: int, j: int| 0 <= i < j < entries@.len() implies (#[trigger] entries@[i]).0@
                != (#[trigger] entries@[j]).0@ by {
                assert(self.entries@[i].0@ != self.entries@[j].0@);
            }
        }
        WeightTable { entries }
    }

    /// Whether both tables hold the same weight for the same identities.
    pub fn same_weights(&self, other: &WeightTable) -> (same: bool)
        ensures
            same == (self@ == other@),
    {
        let mine: Vec<String> = self.keys();
        let theirs: Vec<String> = other.keys();
        let mut t: usize = 0;
        while t < mine.len()
            invariant
                t <= mine.len(),
                forall|j: int| 0 <= j < mine@.len() ==> self@.contains_key(#[trigger] mine@[j]@),
                forall|j: int|
                    0 <= j < t ==> other@.contains_key(#[trigger] mine@[j]@) && other@[mine@[j]@]
                        == self@[mine@[j]@],
            decreases mine.len() - t,
        {
            let a: Option<u32> = self.get(mine[t].as_str());
            let b: Option<u32> = other.get(mine[t].as_str());
            if a != b {
                return false;
            }
            t = t + 1;
        }
        let mut t: usize = 0;
        while t < theirs.len()
            invariant
                t <= theirs.len(),
                forall|j: int| 0 <= j < theirs@.len() ==> other@.contains_key(#[trigger] theirs@[j]@),
                forall|j: int| 0 <= j < t ==> self@.contains_key(#[trigger] theirs@[j]@),
            decreases theirs.len() - t,
        {
            if self.get(theirs[t].as_str()).is_none() {
                return false;
            }
            t = t + 1;
        }
        assert(self@ =~= other@) by {
            assert forall|k: Seq<char>| #[trigger] self@.contains_key(k) implies other@.contains_key(k)
                && other@[k] == self@[k] by {
                let j = choose|j: int| 0 <= j < mine@.len() && mine@[j]@ == k;
            }
            assert forall|k: Seq<char>| #[trigger] other@.contains_key(k) implies self@.contains_key(k) by {
                let j = choose|j: int| 0 <= j < theirs@.len() && theirs@[j]@ == k;
            }
        }
        true
    }
}

proof fn lemma_same_keys_same_map(a: Seq<(String, u32)>, b: Seq<(String, u32)>)
    requires
        a.len() == b.len(),
        forall|j: int| 0 <= j < a.len() ==> (#[trigger] a[j]).0@ == b[j].0@ && a[j].1 == b[j].1,
    ensures
        entries_map(a) == entries_map(b),
    decreases a.len(),
{
    if a.len() > 0 {
        lemma_same_keys_same_map(a.drop_last(), b.drop_last());
    }
}

} // verus!
