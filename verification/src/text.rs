//! The Inspector: read-only projections and human-readable dumps.
//!
//! [`Store::by_dataset_entries`] and [`Store::pane_entries`] carry the
//! content contract: one entry per live dataset (or pane), each exactly
//! once, with its key (or attributes) and exactly the other side of the
//! relation. The dumps render those projections; their text is pinned to
//! the rendering spec functions, with only the entry order — which is not
//! a correctness property — left open.

use vstd::prelude::*;

use crate::entity_table::PaneAttrs;
use crate::handles::{dataset_ids, pane_ids, DatasetHandle, PaneHandle};
use crate::model::StoreModel;
use crate::store::Store;

verus! {

/// The character for one decimal digit.
pub open spec fn decimal_digit(d: int) -> char {
    if d == 0 {
        '0'
    } else if d == 1 {
        '1'
    } else if d == 2 {
        '2'
    } else if d == 3 {
        '3'
    } else if d == 4 {
        '4'
    } else if d == 5 {
        '5'
    } else if d == 6 {
        '6'
    } else if d == 7 {
        '7'
    } else if d == 8 {
        '8'
    } else {
        '9'
    }
}

/// The decimal form of a number: its digits in order, without leading
/// zeros (a single zero for zero itself).
pub open spec fn spec_decimal(n: int) -> Seq<char>
    decreases n,
{
    if n < 10 {
        seq![decimal_digit(n)]
    } else {
        spec_decimal(n / 10).push(decimal_digit(n % 10))
    }
}

fn digit_str(d: u64) -> (r: &'static str)
    requires
        d < 10,
    ensures
        r@ == seq![decimal_digit(d as int)],
{
    if d == 0 {
        proof {
            reveal_strlit("0");
        }
        assert("0"@ =~= seq![decimal_digit(0)]);
        "0"
    } else if d == 1 {
        proof {
            reveal_strlit("1");
        }
        assert("1"@ =~= seq![decimal_digit(1)]);
        "1"
    } else if d == 2 {
        proof {
            reveal_strlit("2");
        }
        assert("2"@ =~= seq![decimal_digit(2)]);
        "2"
    } else if d == 3 {
        proof {
            reveal_strlit("3");
        }
        assert("3"@ =~= seq![decimal_digit(3)]);
        "3"
    } else if d == 4 {
        proof {
            reveal_strlit("4");
        }
        assert("4"@ =~= seq![decimal_digit(4)]);
        "4"
    } else if d == 5 {
        proof {
            reveal_strlit("5");
        }
        assert("5"@ =~= seq![decimal_digit(5)]);
        "5"
    } else if d == 6 {
        proof {
            reveal_strlit("6");
        }
        assert("6"@ =~= seq![decimal_digit(6)]);
        "6"
    } else if d == 7 {
        proof {
            reveal_strlit("7");
        }
        assert("7"@ =~= seq![decimal_digit(7)]);
        "7"
    } else if d == 8 {
        proof {
            reveal_strlit("8");
        }
        assert("8"@ =~= seq![decimal_digit(8)]);
        "8"
    } else {
        proof {
            reveal_strlit("9");
        }
        assert("9"@ =~= seq![decimal_digit(9)]);
        "9"
    }
}

/// Renders a number in decimal.
pub fn u64_to_string(n: u64) -> (r: String)
    ensures
        r@ == spec_decimal(n as int),
    decreases n,
{
    let d = n % 10;
    let digit = digit_str(d);
    if n < 10 {
        let r = String::from_str(digit);
        proof {
            assert(r@ =~= spec_decimal(n as int));
        }
        r
    } else {
        let mut s = u64_to_string(n / 10);
        s.append(digit);
        proof {
            assert(s@ =~= spec_decimal(n as int));
        }
        s
    }
}

/// The identifiers a dataset-entry sequence describes, in order.
pub open spec fn dataset_entry_ids(es: Seq<(int, Seq<char>, Seq<int>)>) -> Seq<int> {
    es.map_values(|e: (int, Seq<char>, Seq<int>)| e.0)
}

/// `es` is a faithful by-dataset listing of `m`: one entry per live
/// dataset, each exactly once, carrying that dataset's key and exactly
/// the panes subscribed to it, each exactly once.
pub open spec fn dataset_entries_of(m: StoreModel, es: Seq<(int, Seq<char>, Seq<int>)>) -> bool {
    &&& dataset_entry_ids(es).no_duplicates()
    &&& forall|d: int| #[trigger] dataset_entry_ids(es).contains(d) <==> m.datasets.contains_key(d)
    &&& forall|l: int| 0 <= l < es.len() ==> (#[trigger] es[l]).1 == m.datasets[es[l].0]
    &&& forall|l: int| 0 <= l < es.len() ==> (#[trigger] es[l]).2.no_duplicates()
    &&& forall|l: int, p: int|
        0 <= l < es.len() ==> ((#[trigger] es[l].2.contains(p)) <==> m.edges.contains((
            p,
            es[l].0,
        )))
}

/// The identifiers a pane-entry sequence describes, in order.
pub open spec fn pane_entry_ids(es: Seq<(int, PaneAttrs, Seq<int>)>) -> Seq<int> {
    es.map_values(|e: (int, PaneAttrs, Seq<int>)| e.0)
}

/// `es` is a faithful pane listing of `m`: one entry per live pane, each
/// exactly once, carrying that pane's attributes and exactly the datasets
/// it uses, each exactly once.
pub open spec fn pane_entries_of(m: StoreModel, es: Seq<(int, PaneAttrs, Seq<int>)>) -> bool {
    &&& pane_entry_ids(es).no_duplicates()
    &&& forall|p: int| #[trigger] pane_entry_ids(es).contains(p) <==> m.panes.contains_key(p)
    &&& forall|l: int| 0 <= l < es.len() ==> (#[trigger] es[l]).1 == m.panes[es[l].0]
    &&& forall|l: int| 0 <= l < es.len() ==> (#[trigger] es[l]).2.no_duplicates()
    &&& forall|l: int, d: int|
        0 <= l < es.len() ==> ((#[trigger] es[l].2.contains(d)) <==> m.edges.contains((
            es[l].0,
            d,
        )))
}

/// One identifier list rendered as ` a b c`.
pub open spec fn render_id_list(ids: Seq<int>) -> Seq<char>
    decreases ids.len(),
{
    if ids.len() == 0 {
        Seq::empty()
    } else {
        render_id_list(ids.drop_last()) + " "@ + spec_decimal(ids.last())
    }
}

/// One dataset's dump section: its handle, its key, and its subscribers.
pub open spec fn render_dataset_entry(e: (int, Seq<char>, Seq<int>)) -> Seq<char> {
    "Dataset "@ + spec_decimal(e.0) + ": \""@ + e.1 + "\"\n"@ + if e.2.len() == 0 {
        "  No pane subscriptions\n"@
    } else {
        "  Subscribed by "@ + spec_decimal(e.2.len() as int) + " panes:"@ + render_id_list(e.2)
            + "\n"@
    }
}

/// All dataset sections, in entry order.
pub open spec fn render_dataset_entries(es: Seq<(int, Seq<char>, Seq<int>)>) -> Seq<char>
    decreases es.len(),
{
    if es.len() == 0 {
        Seq::empty()
    } else {
        render_dataset_entries(es.drop_last()) + render_dataset_entry(es.last())
    }
}

/// The whole by-dataset dump.
pub open spec fn render_by_dataset(es: Seq<(int, Seq<char>, Seq<int>)>) -> Seq<char> {
    "=== Dataset Subscriptions ===\n"@ + render_dataset_entries(es)
}

/// One pane's dump section: its handle, its dimensions, and the datasets
/// it uses.
pub open spec fn render_pane_entry(e: (int, PaneAttrs, Seq<int>)) -> Seq<char> {
    "Pane "@ + spec_decimal(e.0) + ": "@ + spec_decimal(e.1.width as int) + "x"@ + spec_decimal(
        e.1.height as int,
    ) + "\n"@ + if e.2.len() == 0 {
        "  Uses no datasets\n"@
    } else {
        "  Uses "@ + spec_decimal(e.2.len() as int) + " datasets:"@ + render_id_list(e.2) + "\n"@
    }
}

/// All pane sections, in entry order.
pub open spec fn render_pane_entries(es: Seq<(int, PaneAttrs, Seq<int>)>) -> Seq<char>
    decreases es.len(),
{
    if es.len() == 0 {
        Seq::empty()
    } else {
        render_pane_entries(es.drop_last()) + render_pane_entry(es.last())
    }
}

/// The whole pane dump.
pub open spec fn render_panes(es: Seq<(int, PaneAttrs, Seq<int>)>) -> Seq<char> {
    "=== Panes ===\n"@ + render_pane_entries(es)
}

/// The mathematical reading of a by-dataset projection.
pub open spec fn dataset_entry_views(
    s: Seq<(DatasetHandle, String, Vec<PaneHandle>)>,
) -> Seq<(int, Seq<char>, Seq<int>)> {
    s.map_values(|e: (DatasetHandle, String, Vec<PaneHandle>)| (e.0@, e.1@, pane_ids(e.2@)))
}

/// The mathematical reading of a pane projection.
pub open spec fn pane_entry_views(
    s: Seq<(PaneHandle, PaneAttrs, Vec<DatasetHandle>)>,
) -> Seq<(int, PaneAttrs, Seq<int>)> {
    s.map_values(|e: (PaneHandle, PaneAttrs, Vec<DatasetHandle>)| (e.0@, e.1, dataset_ids(e.2@)))
}

impl Store {
    /// Every live dataset, each exactly once, with its key and exactly the
    /// panes subscribed to it.
    pub fn by_dataset_entries(&self) -> (r: Vec<(DatasetHandle, String, Vec<PaneHandle>)>)
        requires
            self.wf(),
        ensures
            dataset_entries_of(self@, dataset_entry_views(r@)),
    {
        let handles = self.dataset_handles();
        let mut out: Vec<(DatasetHandle, String, Vec<PaneHandle>)> = Vec::new();
        let mut i: usize = 0;
        proof {
            assert(dataset_entry_views(out@) =~= Seq::<(int, Seq<char>, Seq<int>)>::empty());
        }
        while i < handles.len()
            invariant
                self.wf(),
                i <= handles@.len(),
                dataset_ids(handles@).no_duplicates(),
                forall|d: int|
                    #[trigger] dataset_ids(handles@).contains(d) <==> self@.datasets.contains_key(
                        d,
                    ),
                dataset_entry_views(out@).len() == i as int,
                forall|l: int|
                    0 <= l < i ==> (#[trigger] dataset_entry_views(out@)[l]).0 == dataset_ids(
                        handles@,
                    )[l],
                forall|l: int|
                    0 <= l < i ==> (#[trigger] dataset_entry_views(out@)[l]).1
                        == self@.datasets[dataset_entry_views(out@)[l].0],
                forall|l: int|
                    0 <= l < i ==> (#[trigger] dataset_entry_views(out@)[l]).2.no_duplicates(),
                forall|l: int, p: int|
                    0 <= l < i ==> ((#[trigger] dataset_entry_views(out@)[l].2.contains(p))
                        <==> self@.edges.contains((p, dataset_entry_views(out@)[l].0))),
            decreases handles@.len() - i,
        {
            let h = handles[i];
            proof {
                assert(dataset_ids(handles@)[i as int] == h@);
                assert(dataset_ids(handles@).contains(h@));
            }
            let key = match self.get_dataset_key(h) {
                Ok(k) => k,
                Err(_) => {
                    proof {
                        assert(false);
                    }
                    String::new()
                },
            };
            let panes = self.panes_of(h);
            let ghost oprev = out@;
            out.push((h, key, panes));
            proof {
                assert(dataset_entry_views(out@) =~= dataset_entry_views(oprev).push(
                    (h@, key@, pane_ids(panes@)),
                ));
            }
            i = i + 1;
        }
        proof {
            assert(dataset_entry_ids(dataset_entry_views(out@)) =~= dataset_ids(handles@));
        }
        out
    }

    /// Every live pane, each exactly once, with its attributes and exactly
    /// the datasets it uses.
    pub fn pane_entries(&self) -> (r: Vec<(PaneHandle, PaneAttrs, Vec<DatasetHandle>)>)
        requires
            self.wf(),
        ensures
            pane_entries_of(self@, pane_entry_views(r@)),
    {
        let handles = self.pane_handles();
        let mut out: Vec<(PaneHandle, PaneAttrs, Vec<DatasetHandle>)> = Vec::new();
        let mut i: usize = 0;
        proof {
            assert(pane_entry_views(out@) =~= Seq::<(int, PaneAttrs, Seq<int>)>::empty());
        }
        while i < handles.len()
            invariant
                self.wf(),
                i <= handles@.len(),
                pane_ids(handles@).no_duplicates(),
                forall|p: int|
                    #[trigger] pane_ids(handles@).contains(p) <==> self@.panes.contains_key(p),
                pane_entry_views(out@).len() == i as int,
                forall|l: int|
                    0 <= l < i ==> (#[trigger] pane_entry_views(out@)[l]).0 == pane_ids(
                        handles@,
                    )[l],
                forall|l: int|
                    0 <= l < i ==> (#[trigger] pane_entry_views(out@)[l]).1
                        == self@.panes[pane_entry_views(out@)[l].0],
                forall|l: int|
                    0 <= l < i ==> (#[trigger] pane_entry_views(out@)[l]).2.no_duplicates(),
                forall|l: int, d: int|
                    0 <= l < i ==> ((#[trigger] pane_entry_views(out@)[l].2.contains(d))
                        <==> self@.edges.contains((pane_entry_views(out@)[l].0, d))),
            decreases handles@.len() - i,
        {
            let h = handles[i];
            proof {
                assert(pane_ids(handles@)[i as int] == h@);
                assert(pane_ids(handles@).contains(h@));
            }
            let attrs = match self.get_pane(h) {
                Ok(a) => a,
                Err(_) => {
                    proof {
                        assert(false);
                    }
                    PaneAttrs { width: 0, height: 0 }
                },
            };
            let datasets = self.datasets_of(h);
            let ghost oprev = out@;
            out.push((h, attrs, datasets));
            proof {
                assert(pane_entry_views(out@) =~= pane_entry_views(oprev).push(
                    (h@, attrs, dataset_ids(datasets@)),
                ));
            }
            i = i + 1;
        }
        proof {
            assert(pane_entry_ids(pane_entry_views(out@)) =~= pane_ids(handles@));
        }
        out
    }

    /// One section per live dataset: its key, its handle, and the panes
    /// subscribed to it — exactly the by-dataset projection, rendered.
    /// Only the order of sections and of panes within a section is left
    /// open; order is not a correctness property here. Never mutates the
    /// store.
    #[verifier::rlimit(50)]
    pub fn dump_by_dataset(&self) -> (r: String)
        requires
            self.wf(),
        ensures
            exists|es: Seq<(int, Seq<char>, Seq<int>)>|
                dataset_entries_of(self@, es) && r@ == render_by_dataset(es),
    {
        let entries = self.by_dataset_entries();
        let ghost esm = dataset_entry_views(entries@);
        let mut out = String::new();
        out.append("=== Dataset Subscriptions ===\n");
        proof {
            assert(esm.take(0) =~= Seq::<(int, Seq<char>, Seq<int>)>::empty());
            assert(out@ =~= render_by_dataset(esm.take(0)));
        }
        let mut i: usize = 0;
        while i < entries.len()
            invariant
                i <= entries@.len(),
                esm == dataset_entry_views(entries@),
                out@ == render_by_dataset(esm.take(i as int)),
            decreases entries@.len() - i,
        {
            let e = &entries[i];
            proof {
                assert(esm[i as int] == (e.0@, e.1@, pane_ids(e.2@)));
            }
            out.append("Dataset ");
            out.append(u64_to_string(e.0.id()).as_str());
            out.append(": \"");
            out.append(e.1.as_str());
            out.append("\"\n");
            if e.2.len() == 0 {
                out.append("  No pane subscriptions\n");
                proof {
                    assert(pane_ids(e.2@).len() == 0);
                }
            } else {
                out.append("  Subscribed by ");
                out.append(u64_to_string(e.2.len() as u64).as_str());
                out.append(" panes:");
                let ghost base = out@;
                let ghost ids = pane_ids(e.2@);
                let mut j: usize = 0;
                proof {
                    assert(ids.take(0) =~= Seq::<int>::empty());
                    assert(out@ =~= base + render_id_list(ids.take(0)));
                }
                while j < e.2.len()
                    invariant
                        j <= e.2@.len(),
                        ids == pane_ids(e.2@),
                        out@ == base + render_id_list(ids.take(j as int)),
                    decreases e.2@.len() - j,
                {
                    out.append(" ");
                    out.append(u64_to_string(e.2[j].id()).as_str());
                    proof {
                        assert(ids[j as int] == e.2@[j as int]@);
                        assert(ids.take(j as int + 1) =~= ids.take(j as int).push(
                            ids[j as int],
                        ));
                        assert(ids.take(j as int + 1).drop_last() =~= ids.take(j as int));
                        assert(render_id_list(ids.take(j as int + 1)) == render_id_list(
                            ids.take(j as int),
                        ) + " "@ + spec_decimal(ids[j as int]));
                        assert(out@ =~= base + render_id_list(ids.take(j as int + 1)));
                    }
                    j = j + 1;
                }
                out.append("\n");
                proof {
                    assert(ids.take(ids.len() as int) =~= ids);
                }
            }
            proof {
                assert(out@ =~= render_by_dataset(esm.take(i as int)) + render_dataset_entry(
                    esm[i as int],
                ));
                assert(esm.take(i as int + 1) =~= esm.take(i as int).push(esm[i as int]));
                assert(esm.take(i as int + 1).drop_last() =~= esm.take(i as int));
                assert(render_dataset_entries(esm.take(i as int + 1)) == render_dataset_entries(
                    esm.take(i as int),
                ) + render_dataset_entry(esm[i as int]));
                assert(out@ =~= render_by_dataset(esm.take(i as int + 1)));
            }
            i = i + 1;
        }
        proof {
            assert(esm.take(entries@.len() as int) =~= esm);
        }
        out
    }

    /// One section per live pane: its handle, its dimensions, and the
    /// datasets it uses — exactly the pane projection, rendered. Only the
    /// order of sections and of datasets within a section is left open;
    /// order is not a correctness property here. Never mutates the store.
    #[verifier::rlimit(50)]
    pub fn dump_panes(&self) -> (r: String)
        requires
            self.wf(),
        ensures
            exists|es: Seq<(int, PaneAttrs, Seq<int>)>|
                pane_entries_of(self@, es) && r@ == render_panes(es),
    {
        let entries = self.pane_entries();
        let ghost esm = pane_entry_views(entries@);
        let mut out = String::new();
        out.append("=== Panes ===\n");
        proof {
            assert(esm.take(0) =~= Seq::<(int, PaneAttrs, Seq<int>)>::empty());
            assert(out@ =~= render_panes(esm.take(0)));
        }
        let mut i: usize = 0;
        while i < entries.len()
            invariant
                i <= entries@.len(),
                esm == pane_entry_views(entries@),
                out@ == render_panes(esm.take(i as int)),
            decreases entries@.len() - i,
        {
            let e = &entries[i];
            proof {
                assert(esm[i as int] == (e.0@, e.1, dataset_ids(e.2@)));
            }
            out.append("Pane ");
            out.append(u64_to_string(e.0.id()).as_str());
            out.append(": ");
            out.append(u64_to_string(e.1.width as u64).as_str());
            out.append("x");
            out.append(u64_to_string(e.1.height as u64).as_str());
            out.append("\n");
            if e.2.len() == 0 {
                out.append("  Uses no datasets\n");
                proof {
                    assert(dataset_ids(e.2@).len() == 0);
                }
            } else {
                out.append("  Uses ");
                out.append(u64_to_string(e.2.len() as u64).as_str());
                out.append(" datasets:");
                let ghost base = out@;
                let ghost ids = dataset_ids(e.2@);
                let mut j: usize = 0;
                proof {
                    assert(ids.take(0) =~= Seq::<int>::empty());
                    assert(out@ =~= base + render_id_list(ids.take(0)));
                }
                while j < e.2.len()
                    invariant
                        j <= e.2@.len(),
                        ids == dataset_ids(e.2@),
                        out@ == base + render_id_list(ids.take(j as int)),
                    decreases e.2@.len() - j,
                {
                    out.append(" ");
                    out.append(u64_to_string(e.2[j].id()).as_str());
                    proof {
                        assert(ids[j as int] == e.2@[j as int]@);
                        assert(ids.take(j as int + 1) =~= ids.take(j as int).push(
                            ids[j as int],
                        ));
                        assert(ids.take(j as int + 1).drop_last() =~= ids.take(j as int));
                        assert(render_id_list(ids.take(j as int + 1)) == render_id_list(
                            ids.take(j as int),
                        ) + " "@ + spec_decimal(ids[j as int]));
                        assert(out@ =~= base + render_id_list(ids.take(j as int + 1)));
                    }
                    j = j + 1;
                }
                out.append("\n");
                proof {
                    assert(ids.take(ids.len() as int) =~= ids);
                }
            }
            proof {
                assert(out@ =~= render_panes(esm.take(i as int)) + render_pane_entry(
                    esm[i as int],
                ));
                assert(esm.take(i as int + 1) =~= esm.take(i as int).push(esm[i as int]));
                assert(esm.take(i as int + 1).drop_last() =~= esm.take(i as int));
                assert(render_pane_entries(esm.take(i as int + 1)) == render_pane_entries(
                    esm.take(i as int),
                ) + render_pane_entry(esm[i as int]));
                assert(out@ =~= render_panes(esm.take(i as int + 1)));
            }
            i = i + 1;
        }
        proof {
            assert(esm.take(entries@.len() as int) =~= esm);
        }
        out
    }
}

} // verus!
