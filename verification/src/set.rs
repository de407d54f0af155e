//! The aggregated key/value set.

use vstd::prelude::*;

use crate::pairs::{
    distinct_keys, has_key, inserted, lemma_distinct_lookup, lemma_inserted, lemma_mapping_size,
    lemma_overlay_keys, mapping, Pair,
};
use crate::text::same_text;

verus! {

/// One key with its value, as the set holds it.
#[derive(Debug, PartialEq, Eq)]
pub struct Entry {
    pub key: String,
    pub value: String,
}

impl View for Entry {
    type V = Pair;

    open spec fn view(&self) -> Pair {
        (self.key@, self.value@)
    }
}

/// The merged key/value set of a run. It maps each key to one value, and it
/// hands its pairs out in the order in which their keys first arrived.
#[derive(Debug)]
pub struct AggregatedSet {
    entries: Vec<Entry>,
}

impl View for AggregatedSet {
    type V = Map<Seq<char>, Seq<char>>;

    /// The set as a mapping from key to value.
    open spec fn view(&self) -> Map<Seq<char>, Seq<char>> {
        mapping(self.pairs())
    }
}

impl AggregatedSet {
    /// The pairs of the set, in the order in which it hands them out.
    pub closed spec fn pairs(&self) -> Seq<Pair> {
        self.entries@.map_values(|e: Entry| e@)
    }

    #[verifier::type_invariant]
    pub(crate) open spec fn keys_are_distinct(&self) -> bool {
        distinct_keys(self.pairs())
    }

    /// The empty set.
    pub fn new() -> (set: AggregatedSet)
        ensures
            set.pairs() == Seq::<Pair>::empty(),
            set@ == Map::<Seq<char>, Seq<char>>::empty(),
    {
        let set = AggregatedSet { entries: Vec::new() };
        assert(set.pairs() =~= Seq::<Pair>::empty());
        set
    }

    /// The number of keys in the set.
    pub fn len(&self) -> (n: usize)
        ensures
            n == self.pairs().len(),
            self@.dom().finite(),
            n == self@.dom().len(),
    {
        proof {
            use_type_invariant(self);
            lemma_mapping_size(self.pairs());
        }
        self.entries.len()
    }

    /// The entries of the set, in the order of `pairs`. No two of them share
    /// a key.
    pub fn entries(&self) -> (entries: &Vec<Entry>)
        ensures
            entries@.map_values(|e: Entry| e@) == self.pairs(),
            distinct_keys(self.pairs()),
    {
        proof {
            use_type_invariant(self);
        }
        &self.entries
    }

    /// Stores `value` under `key`. A key that the set already holds keeps its
    /// place and takes the new value; a new key goes to the end.
    pub fn insert(&mut self, key: String, value: String)
        ensures
            final(self).pairs() == inserted(old(self).pairs(), key@, value@),
            final(self)@ == old(self)@.insert(key@, value@),
    {
        proof {
            use_type_invariant(&*self);
        }
        let mut entries: Vec<Entry> = Vec::new();
        std::mem::swap(&mut entries, &mut self.entries);
        let ghost before = old(self).pairs();
        let mut i: usize = 0;
        while i < entries.len()
            invariant
                i <= entries.len(),
                entries@.map_values(|e: Entry| e@) == before,
                before == old(self).pairs(),
                distinct_keys(before),
                forall|j: int| 0 <= j < i ==> (#[trigger] before[j]).0 != key@,
            decreases entries.len() - i,
        {
            if entries[i].key == key {
                assert(before[i as int].0 == key@);
                entries.set(i, Entry { key, value });
                proof {
                    lemma_inserted(before, key@, value@);
                    assert(entries@.map_values(|e: Entry| e@) =~= inserted(before, key@, value@));
                }
                self.entries = entries;
                return ;
            }
            i += 1;
        }
        entries.push(Entry { key, value });
        proof {
            lemma_inserted(before, key@, value@);
            assert(!has_key(before, key@));
            assert(entries@.map_values(|e: Entry| e@) =~= inserted(before, key@, value@));
        }
        self.entries = entries;
    }

    /// The value stored under `key`, if the set holds the key.
    pub fn get(&self, key: &str) -> (value: Option<&String>)
        ensures
            match value {
                Some(v) => self@.contains_key(key@) && self@[key@] == v@,
                None => !self@.contains_key(key@),
            },
    {
        proof {
            use_type_invariant(self);
        }
        let mut i: usize = 0;
        while i < self.entries.len()
            invariant
                i <= self.entries.len(),
                distinct_keys(self.pairs()),
                forall|j: int| 0 <= j < i ==> (#[trigger] self.pairs()[j]).0 != key@,
            decreases self.entries.len() - i,
        {
            if same_text(self.entries[i].key.as_str(), key) {
                proof {
                    lemma_distinct_lookup(self.pairs(), i as int);
                }
                return Some(&self.entries[i].value);
            }
            i += 1;
        }
        proof {
            lemma_overlay_keys(Map::empty(), self.pairs(), key@);
        }
        None
    }
}

} // verus!
