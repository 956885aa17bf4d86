//! The many-to-many "pane uses dataset" relation.
//!
//! The relation is an edge set: adding an edge that already exists is a
//! no-op, and both directional views — the datasets a pane uses and the
//! panes subscribed to a dataset — are projections of the same set, so
//! they can never disagree.

use vstd::prelude::*;

use crate::assoc::{lemma_remove_key_contains, lemma_remove_key_no_duplicates,
    lemma_remove_key_push, remove_key_seq};
use crate::handles::{dataset_ids, pane_ids, DatasetHandle, PaneHandle};
use crate::model::edges_without_pane;

verus! {

/// Edge storage entries as pane/dataset identifier pairs over `int`.
pub open spec fn edge_pairs(s: Seq<(u64, u64)>) -> Seq<(int, int)> {
    s.map_values(|e: (u64, u64)| (e.0 as int, e.1 as int))
}

/// The second components of the entries whose first component is `p`, in
/// their original order.
spec fn edge_targets(s: Seq<(int, int)>, p: int) -> Seq<int>
    decreases s.len(),
{
    if s.len() == 0 {
        Seq::empty()
    } else {
        let rest = edge_targets(s.drop_last(), p);
        if s.last().0 == p {
            rest.push(s.last().1)
        } else {
            rest
        }
    }
}

/// The first components of the entries whose second component is `d`, in
/// their original order.
spec fn edge_sources(s: Seq<(int, int)>, d: int) -> Seq<int>
    decreases s.len(),
{
    if s.len() == 0 {
        Seq::empty()
    } else {
        let rest = edge_sources(s.drop_last(), d);
        if s.last().1 == d {
            rest.push(s.last().0)
        } else {
            rest
        }
    }
}

proof fn lemma_edge_targets_push(s: Seq<(int, int)>, p: int, e: (int, int))
    ensures
        edge_targets(s.push(e), p) == if e.0 == p {
            edge_targets(s, p).push(e.1)
        } else {
            edge_targets(s, p)
        },
{
    assert(s.push(e).drop_last() =~= s);
    assert(s.push(e).last() == e);
}

proof fn lemma_edge_sources_push(s: Seq<(int, int)>, d: int, e: (int, int))
    ensures
        edge_sources(s.push(e), d) == if e.1 == d {
            edge_sources(s, d).push(e.0)
        } else {
            edge_sources(s, d)
        },
{
    assert(s.push(e).drop_last() =~= s);
    assert(s.push(e).last() == e);
}

proof fn lemma_edge_targets_contains(s: Seq<(int, int)>, p: int)
    ensures
        forall|d: int| #[trigger] edge_targets(s, p).contains(d) <==> s.contains((p, d)),
    decreases s.len(),
{
    if s.len() > 0 {
        lemma_edge_targets_contains(s.drop_last(), p);
        let f = edge_targets(s, p);
        let frest = edge_targets(s.drop_last(), p);
        assert forall|d: int| #[trigger] f.contains(d) implies s.contains((p, d)) by {
            let i = choose|i: int| 0 <= i < f.len() && f[i] == d;
            if s.last().0 == p && i == f.len() - 1 {
                assert(s[s.len() - 1] == (p, d));
            } else {
                assert(frest[i] == d);
                assert(frest.contains(d));
                let j = choose|j: int|
                    0 <= j < s.drop_last().len() && s.drop_last()[j] == (p, d);
                assert(s[j] == (p, d));
            }
        }
        assert forall|d: int| s.contains((p, d)) implies #[trigger] f.contains(d) by {
            let i = choose|i: int| 0 <= i < s.len() && s[i] == (p, d);
            if i == s.len() - 1 {
                assert(f[f.len() - 1] == d);
            } else {
                assert(s.drop_last()[i] == (p, d));
                assert(s.drop_last().contains((p, d)));
                assert(frest.contains(d));
                let j = choose|j: int| 0 <= j < frest.len() && frest[j] == d;
                assert(f[j] == d);
            }
        }
    }
}

proof fn lemma_edge_sources_contains(s: Seq<(int, int)>, d: int)
    ensures
        forall|p: int| #[trigger] edge_sources(s, d).contains(p) <==> s.contains((p, d)),
    decreases s.len(),
{
    if s.len() > 0 {
        lemma_edge_sources_contains(s.drop_last(), d);
        let f = edge_sources(s, d);
        let frest = edge_sources(s.drop_last(), d);
        assert forall|p: int| #[trigger] f.contains(p) implies s.contains((p, d)) by {
            let i = choose|i: int| 0 <= i < f.len() && f[i] == p;
            if s.last().1 == d && i == f.len() - 1 {
                assert(s[s.len() - 1] == (p, d));
            } else {
                assert(frest[i] == p);
                assert(frest.contains(p));
                let j = choose|j: int|
                    0 <= j < s.drop_last().len() && s.drop_last()[j] == (p, d);
                assert(s[j] == (p, d));
            }
        }
        assert forall|p: int| s.contains((p, d)) implies #[trigger] f.contains(p) by {
            let i = choose|i: int| 0 <= i < s.len() && s[i] == (p, d);
            if i == s.len() - 1 {
                assert(f[f.len() - 1] == p);
            } else {
                assert(s.drop_last()[i] == (p, d));
                assert(s.drop_last().contains((p, d)));
                assert(frest.contains(p));
                let j = choose|j: int| 0 <= j < frest.len() && frest[j] == p;
                assert(f[j] == p);
            }
        }
    }
}

proof fn lemma_edge_targets_no_duplicates(s: Seq<(int, int)>, p: int)
    requires
        s.no_duplicates(),
    ensures
        edge_targets(s, p).no_duplicates(),
    decreases s.len(),
{
    if s.len() > 0 {
        assert(s.drop_last().no_duplicates()) by {
            assert forall|i: int, j: int|
                0 <= i < s.drop_last().len() && 0 <= j < s.drop_last().len() && i
                    != j implies #[trigger] s.drop_last()[i] != #[trigger] s.drop_last()[j] by {
                assert(s[i] == s.drop_last()[i] && s[j] == s.drop_last()[j]);
            }
        }
        lemma_edge_targets_no_duplicates(s.drop_last(), p);
        let frest = edge_targets(s.drop_last(), p);
        if s.last().0 == p {
            let f = frest.push(s.last().1);
            lemma_edge_targets_contains(s.drop_last(), p);
            assert forall|i: int, j: int|
                0 <= i < f.len() && 0 <= j < f.len() && i != j implies #[trigger] f[i]
                != #[trigger] f[j] by {
                let full = if i < j { j } else { i };
                let part = if i < j { i } else { j };
                if full == f.len() - 1 {
                    assert(f[part] == frest[part]);
                    assert(frest.contains(frest[part]));
                    assert(s.drop_last().contains((p, frest[part])));
                    let l = choose|l: int|
                        0 <= l < s.drop_last().len() && s.drop_last()[l] == (p, frest[part]);
                    assert(s[l] == (p, frest[part]));
                    assert(s[l] != s[s.len() - 1]);
                    assert(s[s.len() - 1] == (p, s.last().1));
                } else {
                    assert(f[i] == frest[i] && f[j] == frest[j]);
                }
            }
        }
    }
}

proof fn lemma_edge_sources_no_duplicates(s: Seq<(int, int)>, d: int)
    requires
        s.no_duplicates(),
    ensures
        edge_sources(s, d).no_duplicates(),
    decreases s.len(),
{
    if s.len() > 0 {
        assert(s.drop_last().no_duplicates()) by {
            assert forall|i: int, j: int|
                0 <= i < s.drop_last().len() && 0 <= j < s.drop_last().len() && i
                    != j implies #[trigger] s.drop_last()[i] != #[trigger] s.drop_last()[j] by {
                assert(s[i] == s.drop_last()[i] && s[j] == s.drop_last()[j]);
            }
        }
        lemma_edge_sources_no_duplicates(s.drop_last(), d);
        let frest = edge_sources(s.drop_last(), d);
        if s.last().1 == d {
            let f = frest.push(s.last().0);
            lemma_edge_sources_contains(s.drop_last(), d);
            assert forall|i: int, j: int|
                0 <= i < f.len() && 0 <= j < f.len() && i != j implies #[trigger] f[i]
                != #[trigger] f[j] by {
                let full = if i < j { j } else { i };
                let part = if i < j { i } else { j };
                if full == f.len() - 1 {
                    assert(f[part] == frest[part]);
                    assert(frest.contains(frest[part]));
                    assert(s.drop_last().contains((frest[part], d)));
                    let l = choose|l: int|
                        0 <= l < s.drop_last().len() && s.drop_last()[l] == (frest[part], d);
                    assert(s[l] == (frest[part], d));
                    assert(s[l] != s[s.len() - 1]);
                    assert(s[s.len() - 1] == (s.last().0, d));
                } else {
                    assert(f[i] == frest[i] && f[j] == frest[j]);
                }
            }
        }
    }
}

/// Keeps the "uses" edge set between panes and datasets. Every mutation
/// keeps both directional views consistent because both are read from the
/// same set.
pub struct RelationIndex {
    edges: Vec<(u64, u64)>,
}

impl View for RelationIndex {
    type V = Set<(int, int)>;

    closed spec fn view(&self) -> Set<(int, int)> {
        edge_pairs(self.edges@).to_set()
    }
}

impl RelationIndex {
    spec fn entry_seq(self) -> Seq<(int, int)> {
        edge_pairs(self.edges@)
    }

    /// The index's internal invariant: edges are a set, stored without
    /// duplicates.
    pub closed spec fn wf(self) -> bool {
        self.entry_seq().no_duplicates()
    }

    /// Creates an empty relation.
    pub fn new() -> (r: RelationIndex)
        ensures
            r.wf(),
            r@ == Set::<(int, int)>::empty(),
    {
        let r = RelationIndex { edges: Vec::new() };
        proof {
            assert(r@ =~= Set::<(int, int)>::empty());
        }
        r
    }

    /// Whether the relation holds an edge between `p` and `d`.
    pub fn contains_edge(&self, p: PaneHandle, d: DatasetHandle) -> (r: bool)
        requires
            self.wf(),
        ensures
            r == self@.contains((p@, d@)),
    {
        let pid = p.id();
        let did = d.id();
        let mut i: usize = 0;
        while i < self.edges.len()
            invariant
                self.wf(),
                pid as int == p@,
                did as int == d@,
                i <= self.edges@.len(),
                forall|j: int| 0 <= j < i ==> #[trigger] self.entry_seq()[j] != (p@, d@),
            decreases self.edges@.len() - i,
        {
            let e = self.edges[i];
            proof {
                assert(self.entry_seq()[i as int] == (e.0 as int, e.1 as int));
            }
            if e.0 == pid && e.1 == did {
                proof {
                    assert(self.entry_seq().contains((p@, d@)));
                }
                return true;
            }
            i = i + 1;
        }
        proof {
            assert(!self.entry_seq().contains((p@, d@)));
        }
        false
    }

    /// Adds the edge between `p` and `d`. Idempotent: adding an edge that
    /// already exists is a no-op, not an error.
    pub fn add_edge(&mut self, p: PaneHandle, d: DatasetHandle)
        requires
            old(self).wf(),
        ensures
            final(self).wf(),
            final(self)@ == old(self)@.insert((p@, d@)),
    {
        let present = self.contains_edge(p, d);
        if present {
            proof {
                assert(self@ =~= old(self)@.insert((p@, d@)));
            }
        } else {
            self.edges.push((p.id(), d.id()));
            proof {
                assert(self.entry_seq() =~= old(self).entry_seq().push((p@, d@)));
                assert(self.entry_seq().no_duplicates()) by {
                    assert forall|i: int, j: int|
                        0 <= i < self.entry_seq().len() && 0 <= j < self.entry_seq().len() && i
                            != j implies #[trigger] self.entry_seq()[i]
                        != #[trigger] self.entry_seq()[j] by {
                        let full = if i < j { j } else { i };
                        let part = if i < j { i } else { j };
                        if full == self.entry_seq().len() - 1 {
                            assert(self.entry_seq()[part] == old(self).entry_seq()[part]);
                            assert(old(self).entry_seq().contains(old(self).entry_seq()[part]));
                            assert(!old(self).entry_seq().contains((p@, d@)));
                        } else {
                            assert(self.entry_seq()[i] == old(self).entry_seq()[i]);
                            assert(self.entry_seq()[j] == old(self).entry_seq()[j]);
                        }
                    }
                }
                assert(self@ =~= old(self)@.insert((p@, d@))) by {
                    assert forall|e: (int, int)| #[trigger] self@.contains(e) implies old(
                        self,
                    )@.insert((p@, d@)).contains(e) by {
                        let i = choose|i: int|
                            0 <= i < self.entry_seq().len() && self.entry_seq()[i] == e;
                        if i < old(self).entry_seq().len() {
                            assert(old(self).entry_seq()[i] == e);
                        }
                    }
                    assert forall|e: (int, int)|
                        old(self)@.insert((p@, d@)).contains(e) implies #[trigger] self@.contains(
                        e,
                    ) by {
                        if e == (p@, d@) {
                            assert(self.entry_seq()[self.entry_seq().len() - 1] == e);
                        } else {
                            let i = choose|i: int|
                                0 <= i < old(self).entry_seq().len() && old(self).entry_seq()[i]
                                    == e;
                            assert(self.entry_seq()[i] == e);
                        }
                    }
                }
            }
        }
    }

    /// Removes every edge incident to pane `p`.
    pub fn remove_pane(&mut self, p: PaneHandle)
        requires
            old(self).wf(),
        ensures
            final(self).wf(),
            final(self)@ == edges_without_pane(old(self)@, p@),
    {
        let pid = p.id();
        let mut kept: Vec<(u64, u64)> = Vec::new();
        let mut i: usize = 0;
        proof {
            assert(old(self).entry_seq().take(0) =~= Seq::<(int, int)>::empty());
            assert(edge_pairs(kept@) =~= Seq::<(int, int)>::empty());
        }
        while i < self.edges.len()
            invariant
                *self == *old(self),
                pid as int == p@,
                i <= self.edges@.len(),
                edge_pairs(kept@) == remove_key_seq(old(self).entry_seq().take(i as int), p@),
            decreases self.edges@.len() - i,
        {
            let e = self.edges[i];
            let ghost taken = old(self).entry_seq().take(i as int);
            proof {
                assert(old(self).entry_seq()[i as int] == (e.0 as int, e.1 as int));
                assert(old(self).entry_seq().take(i as int + 1) =~= taken.push(
                    (e.0 as int, e.1 as int),
                ));
                lemma_remove_key_push(taken, p@, (e.0 as int, e.1 as int));
            }
            if e.0 != pid {
                let ghost kprev = kept@;
                kept.push(e);
                proof {
                    assert(edge_pairs(kept@) =~= edge_pairs(kprev).push((e.0 as int, e.1 as int)));
                }
            }
            i = i + 1;
        }
        proof {
            assert(old(self).entry_seq().take(old(self).entry_seq().len() as int)
                =~= old(self).entry_seq());
        }
        self.edges = kept;
        proof {
            let orig = old(self).entry_seq();
            assert(self.entry_seq() == remove_key_seq(orig, p@));
            lemma_remove_key_no_duplicates(orig, p@);
            lemma_remove_key_contains(orig, p@);
            assert(self@ =~= edges_without_pane(old(self)@, p@)) by {
                assert forall|e: (int, int)| #[trigger] self@.contains(e) implies edges_without_pane(
                    old(self)@,
                    p@,
                ).contains(e) by {
                    assert(self.entry_seq().contains(e));
                    assert(orig.contains(e) && e.0 != p@);
                }
                assert forall|e: (int, int)|
                    edges_without_pane(old(self)@, p@).contains(e) implies #[trigger] self
                        @.contains(e) by {
                    assert(orig.contains(e) && e.0 != p@);
                    assert(self.entry_seq().contains(e));
                }
            }
        }
    }

    /// The datasets pane `p` uses, each exactly once.
    pub fn datasets_of(&self, p: PaneHandle) -> (r: Vec<DatasetHandle>)
        requires
            self.wf(),
        ensures
            dataset_ids(r@).no_duplicates(),
            forall|d: int| #[trigger] dataset_ids(r@).contains(d) <==> self@.contains((p@, d)),
    {
        let pid = p.id();
        let mut out: Vec<DatasetHandle> = Vec::new();
        let mut i: usize = 0;
        proof {
            assert(dataset_ids(out@) =~= Seq::<int>::empty());
            assert(self.entry_seq().take(0) =~= Seq::<(int, int)>::empty());
        }
        while i < self.edges.len()
            invariant
                self.wf(),
                pid as int == p@,
                i <= self.edges@.len(),
                dataset_ids(out@) == edge_targets(self.entry_seq().take(i as int), p@),
            decreases self.edges@.len() - i,
        {
            let e = self.edges[i];
            let ghost taken = self.entry_seq().take(i as int);
            proof {
                assert(self.entry_seq()[i as int] == (e.0 as int, e.1 as int));
                assert(self.entry_seq().take(i as int + 1) =~= taken.push(
                    (e.0 as int, e.1 as int),
                ));
                lemma_edge_targets_push(taken, p@, (e.0 as int, e.1 as int));
            }
            if e.0 == pid {
                let ghost oprev = out@;
                out.push(DatasetHandle::new(e.1));
                proof {
                    assert(dataset_ids(out@) =~= dataset_ids(oprev).push(e.1 as int));
                }
            }
            i = i + 1;
        }
        proof {
            assert(self.entry_seq().take(self.entry_seq().len() as int) =~= self.entry_seq());
            lemma_edge_targets_contains(self.entry_seq(), p@);
            lemma_edge_targets_no_duplicates(self.entry_seq(), p@);
        }
        out
    }

    /// The panes subscribed to dataset `d`, each exactly once.
    pub fn panes_of(&self, d: DatasetHandle) -> (r: Vec<PaneHandle>)
        requires
            self.wf(),
        ensures
            pane_ids(r@).no_duplicates(),
            forall|p: int| #[trigger] pane_ids(r@).contains(p) <==> self@.contains((p, d@)),
    {
        let did = d.id();
        let mut out: Vec<PaneHandle> = Vec::new();
        let mut i: usize = 0;
        proof {
            assert(pane_ids(out@) =~= Seq::<int>::empty());
            assert(self.entry_seq().take(0) =~= Seq::<(int, int)>::empty());
        }
        while i < self.edges.len()
            invariant
                self.wf(),
                did as int == d@,
                i <= self.edges@.len(),
                pane_ids(out@) == edge_sources(self.entry_seq().take(i as int), d@),
            decreases self.edges@.len() - i,
        {
            let e = self.edges[i];
            let ghost taken = self.entry_seq().take(i as int);
            proof {
                assert(self.entry_seq()[i as int] == (e.0 as int, e.1 as int));
                assert(self.entry_seq().take(i as int + 1) =~= taken.push(
                    (e.0 as int, e.1 as int),
                ));
                lemma_edge_sources_push(taken, d@, (e.0 as int, e.1 as int));
            }
            if e.1 == did {
                let ghost oprev = out@;
                out.push(PaneHandle::new(e.0));
                proof {
                    assert(pane_ids(out@) =~= pane_ids(oprev).push(e.0 as int));
                }
            }
            i = i + 1;
        }
        proof {
            assert(self.entry_seq().take(self.entry_seq().len() as int) =~= self.entry_seq());
            lemma_edge_sources_contains(self.entry_seq(), d@);
            lemma_edge_sources_no_duplicates(self.entry_seq(), d@);
        }
        out
    }
}

} // verus!
