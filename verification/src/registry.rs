//! The dataset key index.
//!
//! The registry maps a dataset's logical string key to its entity
//! identifier and enforces at-most-one dataset per key: resolution is by
//! value equality of the key, and a key is registered at most once.

use vstd::prelude::*;

use crate::assoc::{assoc_map, distinct_keys, has_key, lemma_assoc_push, lemma_assoc_value};
use crate::entity_table::EntityTable;
use crate::handles::DatasetHandle;
use crate::model::inverse_maps;

verus! {

/// Registry storage entries as key/identifier pairs over mathematical
/// types.
pub open spec fn registry_pairs(s: Seq<(String, u64)>) -> Seq<(Seq<char>, int)> {
    s.map_values(|e: (String, u64)| (e.0@, e.1 as int))
}

/// Maps each registered dataset key to the identifier of its dataset.
pub struct DatasetRegistry {
    entries: Vec<(String, u64)>,
}

impl View for DatasetRegistry {
    type V = Map<Seq<char>, int>;

    closed spec fn view(&self) -> Map<Seq<char>, int> {
        assoc_map(registry_pairs(self.entries@))
    }
}

impl DatasetRegistry {
    spec fn entry_seq(self) -> Seq<(Seq<char>, int)> {
        registry_pairs(self.entries@)
    }

    /// The registry's internal invariant: no key is registered twice.
    pub closed spec fn wf(self) -> bool {
        distinct_keys(self.entry_seq())
    }

    /// Creates an empty registry.
    pub fn new() -> (r: DatasetRegistry)
        ensures
            r.wf(),
            r@ == Map::<Seq<char>, int>::empty(),
    {
        let r = DatasetRegistry { entries: Vec::new() };
        proof {
            assert(r@ =~= Map::<Seq<char>, int>::empty());
        }
        r
    }

    /// Looks a key up by value equality.
    pub fn lookup(&self, key: &String) -> (r: Option<DatasetHandle>)
        requires
            self.wf(),
        ensures
            match r {
                Some(h) => self@.contains_key(key@) && h@ == self@[key@],
                None => !self@.contains_key(key@),
            },
    {
        let mut i: usize = 0;
        while i < self.entries.len()
            invariant
                self.wf(),
                i <= self.entries@.len(),
                forall|j: int| 0 <= j < i ==> (#[trigger] self.entry_seq()[j]).0 != key@,
            decreases self.entries@.len() - i,
        {
            proof {
                assert(self.entry_seq()[i as int] == (
                    self.entries@[i as int].0@,
                    self.entries@[i as int].1 as int,
                ));
            }
            if self.entries[i].0 == *key {
                proof {
                    lemma_assoc_value(self.entry_seq(), i as int);
                }
                return Some(DatasetHandle::new(self.entries[i].1));
            }
            i = i + 1;
        }
        proof {
            assert(!has_key(self.entry_seq(), key@));
        }
        None
    }

    /// Registers a key that is not yet registered.
    pub fn register(&mut self, key: String, h: DatasetHandle)
        requires
            old(self).wf(),
            !old(self)@.contains_key(key@),
        ensures
            final(self).wf(),
            final(self)@ == old(self)@.insert(key@, h@),
    {
        let ghost keyv = key@;
        let id = h.id();
        self.entries.push((key, id));
        proof {
            assert(self.entry_seq() =~= old(self).entry_seq().push((keyv, id as int)));
            assert(!has_key(old(self).entry_seq(), keyv)) by {
                if has_key(old(self).entry_seq(), keyv) {
                    let j = choose|j: int|
                        0 <= j < old(self).entry_seq().len() && (
                        #[trigger] old(self).entry_seq()[j]).0 == keyv;
                    lemma_assoc_value(old(self).entry_seq(), j);
                }
            }
            lemma_assoc_push(old(self).entry_seq(), keyv, id as int);
        }
    }

    /// Resolves a key to its dataset: an exact-match lookup against all
    /// currently live datasets, reusing the existing dataset if the key is
    /// found and otherwise creating and registering a new one. Never
    /// creates a duplicate for a known key.
    pub fn resolve_or_create(&mut self, table: &mut EntityTable, key: &String) -> (h: DatasetHandle)
        requires
            old(self).wf(),
            old(table).wf(),
            inverse_maps(old(self)@, old(table)@.datasets),
            old(table)@.next_id < u64::MAX,
        ensures
            final(self).wf(),
            final(table).wf(),
            inverse_maps(final(self)@, final(table)@.datasets),
            final(table)@.panes == old(table)@.panes,
            final(self)@.contains_key(key@),
            h@ == final(self)@[key@],
            ({
                if old(self)@.contains_key(key@) {
                    &&& h@ == old(self)@[key@]
                    &&& final(self)@ == old(self)@
                    &&& final(table)@ == old(table)@
                } else {
                    &&& h@ == old(table)@.next_id
                    &&& final(self)@ == old(self)@.insert(key@, h@)
                    &&& final(table)@.datasets == old(table)@.datasets.insert(h@, key@)
                    &&& final(table)@.next_id == old(table)@.next_id + 1
                }
            }),
    {
        let found = self.lookup(key);
        match found {
            Some(h) => h,
            None => {
                let h = table.create_dataset(key.clone());
                self.register(key.clone(), h);
                h
            },
        }
    }
}

} // verus!
