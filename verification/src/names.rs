//! Names, and what they stand for.

use vstd::prelude::*;

verus! {

/// What a list of entries maps each key to: of entries with the same key, the
/// last one counts.
pub open spec fn assoc_map<K, V>(entries: Seq<(K, V)>) -> Map<K, V>
    decreases entries.len(),
{
    if entries.len() == 0 {
        Map::empty()
    } else {
        assoc_map(entries.drop_last()).insert(entries.last().0, entries.last().1)
    }
}

/// The last entry with a key decides what the key is mapped to.
pub proof fn lemma_assoc_at<K, V>(entries: Seq<(K, V)>, i: int)
    requires
        0 <= i < entries.len(),
        forall|j: int| i < j < entries.len() ==> entries[j].0 != entries[i].0,
    ensures
        assoc_map(entries).contains_key(entries[i].0),
        assoc_map(entries)[entries[i].0] == entries[i].1,
    decreases entries.len(),
{
    if i < entries.len() - 1 {
        lemma_assoc_at(entries.drop_last(), i);
    }
}

/// A key that no entry has is mapped to nothing.
pub proof fn lemma_assoc_absent<K, V>(entries: Seq<(K, V)>, key: K)
    requires
        forall|j: int| 0 <= j < entries.len() ==> entries[j].0 != key,
    ensures
        !assoc_map(entries).contains_key(key),
    decreases entries.len(),
{
    if entries.len() > 0 {
        lemma_assoc_absent(entries.drop_last(), key);
    }
}

/// Whether two texts are the same.
pub fn same_text(a: &str, b: &str) -> (same: bool)
    ensures
        same == (a@ == b@),
{
    a.to_owned() == b.to_owned()
}

/// Names with the keys that they stand for.
pub struct NameMap {
    entries: Vec<(String, u64)>,
}

impl NameMap {
    spec fn pairs(&self) -> Seq<(Seq<char>, u64)> {
        self.entries@.map_values(|e: (String, u64)| (e.0@, e.1))
    }

    pub closed spec fn view(&self) -> Map<Seq<char>, u64> {
        assoc_map(self.pairs())
    }

    pub fn new() -> (names: Self)
        ensures
            names@ == Map::<Seq<char>, u64>::empty(),
    {
        let names = NameMap { entries: Vec::new() };
        assert(names.pairs() =~= Seq::empty());
        names
    }

    /// Lets `name` stand for `key` from now on.
    pub fn insert(&mut self, name: String, key: u64)
        ensures
            final(self)@ == old(self)@.insert(name@, key),
    {
        let ghost before = self.pairs();
        self.entries.push((name, key));
        assert(self.pairs().drop_last() =~= before);
    }

    /// What `name` stands for.
    pub fn get(&self, name: &str) -> (key: Option<u64>)
        ensures
            key == (if self@.contains_key(name@) {
                Some(self@[name@])
            } else {
                None
            }),
    {
        let mut i: usize = self.entries.len();
        while i > 0
            invariant
                i <= self.entries.len(),
                forall|j: int| i <= j < self.entries.len() ==> self.pairs()[j].0 != name@,
            decreases i,
        {
            i = i - 1;
            let entry = &self.entries[i];
            if same_text(entry.0.as_str(), name) {
                proof {
                    lemma_assoc_at(self.pairs(), i as int);
                }
                return Some(entry.1);
            }
        }
        proof {
            lemma_assoc_absent(self.pairs(), name@);
        }
        None
    }
}

} // verus!
