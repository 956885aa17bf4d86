//! Entity allocation and per-entity attribute storage.
//!
//! The table allocates fresh, never-reused identifiers and owns the
//! attribute record of each live entity: dimensions for panes, the string
//! key for datasets. Destroying an identifier makes every later lookup of
//! it fail with [`ErrorKind::NotFound`].

use vstd::prelude::*;

use crate::assoc::{assoc_map, distinct_keys, has_key, lemma_assoc_dom, lemma_assoc_push,
    lemma_assoc_remove, lemma_assoc_update, lemma_assoc_value, lemma_remove_key_contains,
    lemma_remove_key_push, remove_key_seq};
use crate::command::ErrorKind;
use crate::handles::{dataset_ids, pane_ids, DatasetHandle, PaneHandle};

verus! {

/// Width given to a pane created by a command.
pub const DEFAULT_PANE_WIDTH: u32 = 100;

/// Height given to a pane created by a command.
pub const DEFAULT_PANE_HEIGHT: u32 = 200;

/// The attributes of a pane entity.
#[derive(Debug, Clone, Copy, PartialEq, Eq, Structural)]
pub struct PaneAttrs {
    pub width: u32,
    pub height: u32,
}

impl Default for PaneAttrs {
    /// The dimensions a command-created pane starts with.
    fn default() -> (a: PaneAttrs)
        ensures
            a == (PaneAttrs { width: DEFAULT_PANE_WIDTH, height: DEFAULT_PANE_HEIGHT }),
    {
        PaneAttrs { width: DEFAULT_PANE_WIDTH, height: DEFAULT_PANE_HEIGHT }
    }
}

/// The mathematical reading of an entity table: which identifiers are live
/// panes, which are live datasets, and the next identifier to hand out.
pub ghost struct TableModel {
    pub panes: Map<int, PaneAttrs>,
    pub datasets: Map<int, Seq<char>>,
    pub next_id: int,
}

/// Pane storage entries as identifier/attribute pairs over `int`.
pub open spec fn pane_pairs(s: Seq<(u64, PaneAttrs)>) -> Seq<(int, PaneAttrs)> {
    s.map_values(|e: (u64, PaneAttrs)| (e.0 as int, e.1))
}

/// Dataset storage entries as identifier/key pairs over `int`.
pub open spec fn dataset_pairs(s: Seq<(u64, String)>) -> Seq<(int, Seq<char>)> {
    s.map_values(|e: (u64, String)| (e.0 as int, e.1@))
}

/// Allocates entity identifiers and stores each entity's attribute record.
pub struct EntityTable {
    next_id: u64,
    panes: Vec<(u64, PaneAttrs)>,
    datasets: Vec<(u64, String)>,
}

impl View for EntityTable {
    type V = TableModel;

    closed spec fn view(&self) -> TableModel {
        TableModel {
            panes: assoc_map(pane_pairs(self.panes@)),
            datasets: assoc_map(dataset_pairs(self.datasets@)),
            next_id: self.next_id as int,
        }
    }
}

impl EntityTable {
    spec fn pane_entries(self) -> Seq<(int, PaneAttrs)> {
        pane_pairs(self.panes@)
    }

    spec fn dataset_entries(self) -> Seq<(int, Seq<char>)> {
        dataset_pairs(self.datasets@)
    }

    /// The table's internal invariant: identifiers are pairwise distinct,
    /// no identifier is shared between a pane and a dataset, and every
    /// live identifier is below the allocation counter.
    pub closed spec fn wf(self) -> bool {
        &&& distinct_keys(self.pane_entries())
        &&& distinct_keys(self.dataset_entries())
        &&& forall|i: int, j: int|
            0 <= i < self.pane_entries().len() && 0 <= j < self.dataset_entries().len()
                ==> (#[trigger] self.pane_entries()[i]).0 != (
            #[trigger] self.dataset_entries()[j]).0
        &&& forall|i: int|
            0 <= i < self.pane_entries().len() ==> 0 <= (#[trigger] self.pane_entries()[i]).0
                < self.next_id
        &&& forall|i: int|
            0 <= i < self.dataset_entries().len() ==> 0 <= (
            #[trigger] self.dataset_entries()[i]).0 < self.next_id
    }

    /// Creates an empty table.
    pub fn new() -> (t: EntityTable)
        ensures
            t.wf(),
            t@.panes == Map::<int, PaneAttrs>::empty(),
            t@.datasets == Map::<int, Seq<char>>::empty(),
            t@.next_id == 0,
    {
        let t = EntityTable { next_id: 0, panes: Vec::new(), datasets: Vec::new() };
        proof {
            assert(t@.panes =~= Map::<int, PaneAttrs>::empty());
            assert(t@.datasets =~= Map::<int, Seq<char>>::empty());
        }
        t
    }

    /// Allocates a fresh identifier for a new pane with the given
    /// attributes.
    pub fn create_pane(&mut self, attrs: PaneAttrs) -> (h: PaneHandle)
        requires
            old(self).wf(),
            old(self)@.next_id < u64::MAX,
        ensures
            final(self).wf(),
            h@ == old(self)@.next_id,
            !old(self)@.panes.contains_key(h@),
            !old(self)@.datasets.contains_key(h@),
            final(self)@.panes == old(self)@.panes.insert(h@, attrs),
            final(self)@.datasets == old(self)@.datasets,
            final(self)@.next_id == old(self)@.next_id + 1,
    {
        let id = self.next_id;
        self.next_id = self.next_id + 1;
        self.panes.push((id, attrs));
        proof {
            assert(self.pane_entries() =~= old(self).pane_entries().push((id as int, attrs)));
            assert(self.dataset_entries() =~= old(self).dataset_entries());
            assert(!has_key(old(self).pane_entries(), id as int));
            assert(!has_key(old(self).dataset_entries(), id as int));
            lemma_assoc_push(old(self).pane_entries(), id as int, attrs);
        }
        PaneHandle::new(id)
    }

    /// Allocates a fresh identifier for a new dataset with the given key.
    pub fn create_dataset(&mut self, key: String) -> (h: DatasetHandle)
        requires
            old(self).wf(),
            old(self)@.next_id < u64::MAX,
        ensures
            final(self).wf(),
            h@ == old(self)@.next_id,
            !old(self)@.panes.contains_key(h@),
            !old(self)@.datasets.contains_key(h@),
            final(self)@.datasets == old(self)@.datasets.insert(h@, key@),
            final(self)@.panes == old(self)@.panes,
            final(self)@.next_id == old(self)@.next_id + 1,
    {
        let id = self.next_id;
        self.next_id = self.next_id + 1;
        let ghost keyv = key@;
        self.datasets.push((id, key));
        proof {
            assert(self.dataset_entries() =~= old(self).dataset_entries().push((id as int, keyv)));
            assert(self.pane_entries() =~= old(self).pane_entries());
            assert(!has_key(old(self).pane_entries(), id as int));
            assert(!has_key(old(self).dataset_entries(), id as int));
            lemma_assoc_push(old(self).dataset_entries(), id as int, keyv);
        }
        DatasetHandle::new(id)
    }

    /// Destroys a pane entity. Returns whether the handle named a live
    /// pane; destroying an unknown or already-destroyed pane changes
    /// nothing.
    pub fn destroy_pane(&mut self, h: PaneHandle) -> (r: bool)
        requires
            old(self).wf(),
        ensures
            final(self).wf(),
            r == old(self)@.panes.contains_key(h@),
            final(self)@.panes == old(self)@.panes.remove(h@),
            final(self)@.datasets == old(self)@.datasets,
            final(self)@.next_id == old(self)@.next_id,
    {
        let id = h.id();
        let mut kept: Vec<(u64, PaneAttrs)> = Vec::new();
        let mut found = false;
        let mut i: usize = 0;
        proof {
            assert(old(self).pane_entries().take(0) =~= Seq::<(int, PaneAttrs)>::empty());
            assert(pane_pairs(kept@) =~= Seq::<(int, PaneAttrs)>::empty());
        }
        while i < self.panes.len()
            invariant
                *self == *old(self),
                i <= self.panes@.len(),
                pane_pairs(kept@) == remove_key_seq(
                    old(self).pane_entries().take(i as int),
                    id as int,
                ),
                found <==> has_key(old(self).pane_entries().take(i as int), id as int),
            decreases self.panes@.len() - i,
        {
            let e = self.panes[i];
            let ghost taken = old(self).pane_entries().take(i as int);
            proof {
                assert(old(self).pane_entries()[i as int] == (e.0 as int, e.1));
                assert(old(self).pane_entries().take(i as int + 1) =~= taken.push(
                    (e.0 as int, e.1),
                ));
                lemma_remove_key_push(taken, id as int, (e.0 as int, e.1));
            }
            if e.0 == id {
                found = true;
                proof {
                    assert(old(self).pane_entries().take(i as int + 1)[i as int].0 == id as int);
                }
            } else {
                let ghost kprev = kept@;
                kept.push(e);
                proof {
                    assert(pane_pairs(kept@) =~= pane_pairs(kprev).push((e.0 as int, e.1)));
                    assert(has_key(old(self).pane_entries().take(i as int + 1), id as int)
                        <==> has_key(taken, id as int)) by {
                        if has_key(old(self).pane_entries().take(i as int + 1), id as int) {
                            let j = choose|j: int|
                                0 <= j < i as int + 1 && (#[trigger] old(self).pane_entries().take(
                                    i as int + 1,
                                )[j]).0 == id as int;
                            assert(j < i as int);
                            assert(taken[j].0 == id as int);
                        }
                        if has_key(taken, id as int) {
                            let j = choose|j: int|
                                0 <= j < taken.len() && (#[trigger] taken[j]).0 == id as int;
                            assert(old(self).pane_entries().take(i as int + 1)[j].0 == id as int);
                        }
                    }
                }
            }
            i = i + 1;
        }
        proof {
            assert(old(self).pane_entries().take(old(self).pane_entries().len() as int)
                =~= old(self).pane_entries());
        }
        self.panes = kept;
        proof {
            let orig = old(self).pane_entries();
            assert(self.pane_entries() == remove_key_seq(orig, id as int));
            assert(self.dataset_entries() =~= old(self).dataset_entries());
            lemma_assoc_remove(orig, id as int);
            lemma_remove_key_contains(orig, id as int);
            assert(found == old(self)@.panes.contains_key(h@));
            assert(self.wf()) by {
                assert forall|j: int|
                    0 <= j < self.pane_entries().len() implies 0 <= (
                #[trigger] self.pane_entries()[j]).0 < self.next_id && !has_key(
                    self.dataset_entries(),
                    self.pane_entries()[j].0,
                ) by {
                    assert(remove_key_seq(orig, id as int).contains(self.pane_entries()[j]));
                    assert(orig.contains(self.pane_entries()[j]));
                    let l = choose|l: int|
                        0 <= l < orig.len() && orig[l] == self.pane_entries()[j];
                    assert(orig[l].0 == self.pane_entries()[j].0);
                    if has_key(self.dataset_entries(), self.pane_entries()[j].0) {
                        let m = choose|m: int|
                            0 <= m < self.dataset_entries().len() && (
                            #[trigger] self.dataset_entries()[m]).0 == self.pane_entries()[j].0;
                        assert(orig[l].0 != old(self).dataset_entries()[m].0);
                    }
                }
                assert forall|a: int, b: int|
                    0 <= a < self.pane_entries().len() && 0 <= b
                        < self.dataset_entries().len() implies (
                #[trigger] self.pane_entries()[a]).0 != (
                #[trigger] self.dataset_entries()[b]).0 by {
                    assert(!has_key(self.dataset_entries(), self.pane_entries()[a].0));
                }
            }
        }
        found
    }

    /// Looks up a pane's attributes; fails with `NotFound` if the handle
    /// does not name a live pane.
    pub fn get_pane(&self, h: PaneHandle) -> (r: Result<PaneAttrs, ErrorKind>)
        requires
            self.wf(),
        ensures
            match r {
                Ok(a) => self@.panes.contains_key(h@) && a == self@.panes[h@],
                Err(e) => !self@.panes.contains_key(h@) && e == ErrorKind::NotFound,
            },
    {
        let id = h.id();
        let mut i: usize = 0;
        while i < self.panes.len()
            invariant
                self.wf(),
                id as int == h@,
                i <= self.panes@.len(),
                forall|j: int| 0 <= j < i ==> (#[trigger] self.pane_entries()[j]).0 != id as int,
            decreases self.panes@.len() - i,
        {
            let e = self.panes[i];
            proof {
                assert(self.pane_entries()[i as int] == (e.0 as int, e.1));
            }
            if e.0 == id {
                proof {
                    lemma_assoc_value(self.pane_entries(), i as int);
                }
                return Ok(e.1);
            }
            i = i + 1;
        }
        proof {
            assert(!has_key(self.pane_entries(), id as int));
        }
        Err(ErrorKind::NotFound)
    }

    /// Looks up a dataset's key; fails with `NotFound` if the handle does
    /// not name a live dataset.
    pub fn get_dataset_key(&self, h: DatasetHandle) -> (r: Result<String, ErrorKind>)
        requires
            self.wf(),
        ensures
            match r {
                Ok(k) => self@.datasets.contains_key(h@) && k@ == self@.datasets[h@],
                Err(e) => !self@.datasets.contains_key(h@) && e == ErrorKind::NotFound,
            },
    {
        let id = h.id();
        let mut i: usize = 0;
        while i < self.datasets.len()
            invariant
                self.wf(),
                id as int == h@,
                i <= self.datasets@.len(),
                forall|j: int| 0 <= j < i ==> (#[trigger] self.dataset_entries()[j]).0 != id as int,
            decreases self.datasets@.len() - i,
        {
            proof {
                assert(self.dataset_entries()[i as int] == (
                    self.datasets@[i as int].0 as int,
                    self.datasets@[i as int].1@,
                ));
            }
            if self.datasets[i].0 == id {
                proof {
                    lemma_assoc_value(self.dataset_entries(), i as int);
                }
                return Ok(self.datasets[i].1.clone());
            }
            i = i + 1;
        }
        proof {
            assert(!has_key(self.dataset_entries(), id as int));
        }
        Err(ErrorKind::NotFound)
    }

    /// Replaces a pane's attributes; fails with `NotFound` if the handle
    /// does not name a live pane.
    pub fn set_pane(&mut self, h: PaneHandle, attrs: PaneAttrs) -> (r: Result<(), ErrorKind>)
        requires
            old(self).wf(),
        ensures
            final(self).wf(),
            final(self)@.datasets == old(self)@.datasets,
            final(self)@.next_id == old(self)@.next_id,
            match r {
                Ok(u) => old(self)@.panes.contains_key(h@) && final(self)@.panes == old(
                    self,
                )@.panes.insert(h@, attrs),
                Err(e) => !old(self)@.panes.contains_key(h@) && e == ErrorKind::NotFound
                    && final(self)@.panes == old(self)@.panes,
            },
    {
        let id = h.id();
        let mut i: usize = 0;
        while i < self.panes.len()
            invariant
                *self == *old(self),
                old(self).wf(),
                id as int == h@,
                i <= self.panes@.len(),
                forall|j: int|
                    0 <= j < i ==> (#[trigger] old(self).pane_entries()[j]).0 != id as int,
            decreases self.panes@.len() - i,
        {
            let e = self.panes[i];
            proof {
                assert(old(self).pane_entries()[i as int] == (e.0 as int, e.1));
            }
            if e.0 == id {
                self.panes.set(i, (id, attrs));
                proof {
                    assert(self.pane_entries() =~= old(self).pane_entries().update(
                        i as int,
                        (id as int, attrs),
                    ));
                    assert(self.dataset_entries() =~= old(self).dataset_entries());
                    lemma_assoc_update(old(self).pane_entries(), i as int, attrs);
                    assert(self.wf()) by {
                        assert forall|a: int, b: int|
                            0 <= a < self.pane_entries().len() && 0 <= b
                                < self.dataset_entries().len() implies (
                        #[trigger] self.pane_entries()[a]).0 != (
                        #[trigger] self.dataset_entries()[b]).0 by {
                            assert(self.pane_entries()[a].0 == old(self).pane_entries()[a].0);
                        }
                        assert forall|a: int|
                            0 <= a < self.pane_entries().len() implies 0 <= (
                        #[trigger] self.pane_entries()[a]).0 < self.next_id by {
                            assert(self.pane_entries()[a].0 == old(self).pane_entries()[a].0);
                        }
                    }
                }
                return Ok(());
            }
            i = i + 1;
        }
        proof {
            assert(!has_key(old(self).pane_entries(), id as int));
        }
        Err(ErrorKind::NotFound)
    }

    /// The number of live panes.
    pub fn pane_count(&self) -> (n: usize)
        requires
            self.wf(),
        ensures
            n == self@.panes.dom().len(),
    {
        proof {
            lemma_assoc_dom(self.pane_entries());
        }
        self.panes.len()
    }

    /// The number of live datasets.
    pub fn dataset_count(&self) -> (n: usize)
        requires
            self.wf(),
        ensures
            n == self@.datasets.dom().len(),
    {
        proof {
            lemma_assoc_dom(self.dataset_entries());
        }
        self.datasets.len()
    }

    /// The next identifier the table would hand out.
    pub fn next_id(&self) -> (n: u64)
        ensures
            n as int == self@.next_id,
    {
        self.next_id
    }

    /// A handle to every live pane, each exactly once.
    pub fn pane_handles(&self) -> (r: Vec<PaneHandle>)
        requires
            self.wf(),
        ensures
            pane_ids(r@).no_duplicates(),
            forall|p: int| #[trigger] pane_ids(r@).contains(p) <==> self@.panes.contains_key(p),
    {
        let mut out: Vec<PaneHandle> = Vec::new();
        let mut i: usize = 0;
        proof {
            assert(pane_ids(out@) =~= Seq::<int>::empty());
        }
        while i < self.panes.len()
            invariant
                self.wf(),
                i <= self.panes@.len(),
                pane_ids(out@) == self.pane_entries().take(i as int).map_values(
                    |e: (int, PaneAttrs)| e.0,
                ),
            decreases self.panes@.len() - i,
        {
            let e = self.panes[i];
            let ghost oprev = out@;
            out.push(PaneHandle::new(e.0));
            proof {
                assert(self.pane_entries()[i as int] == (e.0 as int, e.1));
                assert(pane_ids(out@) =~= pane_ids(oprev).push(e.0 as int));
                assert(self.pane_entries().take(i as int + 1).map_values(
                    |e: (int, PaneAttrs)| e.0,
                ) =~= self.pane_entries().take(i as int).map_values(
                    |e: (int, PaneAttrs)| e.0,
                ).push(e.0 as int));
            }
            i = i + 1;
        }
        proof {
            assert(self.pane_entries().take(self.pane_entries().len() as int)
                =~= self.pane_entries());
            let ids = self.pane_entries().map_values(|e: (int, PaneAttrs)| e.0);
            assert(ids.no_duplicates());
            assert forall|p: int| #[trigger] ids.contains(p) implies self@.panes.contains_key(
                p,
            ) by {
                let j = choose|j: int| 0 <= j < ids.len() && ids[j] == p;
                assert(self.pane_entries()[j].0 == p);
            }
            assert forall|p: int| self@.panes.contains_key(p) implies #[trigger] ids.contains(
                p,
            ) by {
                let j = choose|j: int|
                    0 <= j < self.pane_entries().len() && (#[trigger] self.pane_entries()[j]).0
                        == p;
                assert(ids[j] == p);
            }
        }
        out
    }

    /// A handle to every live dataset, each exactly once.
    pub fn dataset_handles(&self) -> (r: Vec<DatasetHandle>)
        requires
            self.wf(),
        ensures
            dataset_ids(r@).no_duplicates(),
            forall|d: int| #[trigger] dataset_ids(r@).contains(d) <==> self@.datasets.contains_key(d),
    {
        let mut out: Vec<DatasetHandle> = Vec::new();
        let mut i: usize = 0;
        proof {
            assert(dataset_ids(out@) =~= Seq::<int>::empty());
        }
        while i < self.datasets.len()
            invariant
                self.wf(),
                i <= self.datasets@.len(),
                dataset_ids(out@) == self.dataset_entries().take(i as int).map_values(
                    |e: (int, Seq<char>)| e.0,
                ),
            decreases self.datasets@.len() - i,
        {
            let id = self.datasets[i].0;
            let ghost oprev = out@;
            out.push(DatasetHandle::new(id));
            proof {
                assert(self.dataset_entries()[i as int] == (
                    self.datasets@[i as int].0 as int,
                    self.datasets@[i as int].1@,
                ));
                assert(dataset_ids(out@) =~= dataset_ids(oprev).push(id as int));
                assert(self.dataset_entries().take(i as int + 1).map_values(
                    |e: (int, Seq<char>)| e.0,
                ) =~= self.dataset_entries().take(i as int).map_values(
                    |e: (int, Seq<char>)| e.0,
                ).push(id as int));
            }
            i = i + 1;
        }
        proof {
            assert(self.dataset_entries().take(self.dataset_entries().len() as int)
                =~= self.dataset_entries());
            let ids = self.dataset_entries().map_values(|e: (int, Seq<char>)| e.0);
            assert(ids.no_duplicates());
            assert forall|d: int| #[trigger] ids.contains(d) implies self@.datasets.contains_key(
                d,
            ) by {
                let j = choose|j: int| 0 <= j < ids.len() && ids[j] == d;
                assert(self.dataset_entries()[j].0 == d);
            }
            assert forall|d: int| self@.datasets.contains_key(d) implies #[trigger] ids.contains(
                d,
            ) by {
                let j = choose|j: int|
                    0 <= j < self.dataset_entries().len() && (
                    #[trigger] self.dataset_entries()[j]).0 == d;
                assert(ids[j] == d);
            }
        }
        out
    }
}

} // verus!
