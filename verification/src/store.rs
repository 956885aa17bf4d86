//! The store: queued-command mutation over the entity table, the dataset
//! registry, and the relation index.
//!
//! All mutation goes through [`Store::enqueue`] and [`Store::process`]. A
//! processing pass atomically takes the whole queue and applies every
//! command in FIFO order with no rollback: a command that fails is
//! recorded in the report and skipped, and the rest of the batch still
//! runs. Commands enqueued while a pass is not running wait for the next
//! pass.

use vstd::prelude::*;

use crate::command::{BatchReport, CmdModel, Command, CommandQueue, ErrorKind, ReportModel};
use crate::entity_table::{EntityTable, PaneAttrs, DEFAULT_PANE_HEIGHT, DEFAULT_PANE_WIDTH};
use crate::handles::{dataset_ids, pane_ids, DatasetHandle, PaneHandle};
use crate::model::{apply_create, apply_delete, apply_key, apply_keys, batch_cost,
    datasets_of_model, init_model, lemma_apply_keys_snoc, lemma_apply_keys_wf,
    lemma_batch_cost_nonneg, lemma_init_wf, lemma_run_batch_snoc, lemma_run_batch_wf, lemma_run_cmd_wf,
    panes_of_model, run_batch, run_cmd, wf_model, StoreModel};
use crate::registry::DatasetRegistry;
use crate::relation::RelationIndex;

verus! {

/// Creation-log entries as pane/key-list pairs over mathematical types.
pub open spec fn log_view(s: Seq<(PaneHandle, Vec<String>)>) -> Seq<(int, Seq<Seq<char>>)> {
    s.map_values(|e: (PaneHandle, Vec<String>)| (e.0@, e.1.deep_view()))
}

/// Copies a key list. Key lists are recorded both in the creation log and
/// in the batch report, so they are duplicated on creation.
fn clone_string_vec(v: &Vec<String>) -> (r: Vec<String>)
    ensures
        r.deep_view() == v.deep_view(),
{
    let mut out: Vec<String> = Vec::new();
    let mut i: usize = 0;
    proof {
        assert(out.deep_view() =~= v.deep_view().take(0));
    }
    while i < v.len()
        invariant
            i <= v@.len(),
            out.deep_view() == v.deep_view().take(i as int),
        decreases v@.len() - i,
    {
        let ghost oprev = out.deep_view();
        out.push(v[i].clone());
        proof {
            assert(out.deep_view() =~= oprev.push(v@[i as int]@));
            assert(v.deep_view().take(i as int + 1) =~= v.deep_view().take(i as int).push(
                v@[i as int]@,
            ));
        }
        i = i + 1;
    }
    proof {
        assert(v.deep_view().take(v@.len() as int) =~= v.deep_view());
    }
    out
}

/// Removes every log entry recorded for pane `p`.
fn remove_log_entries(log: &mut Vec<(PaneHandle, Vec<String>)>, p: PaneHandle)
    ensures
        log_view(final(log)@) == crate::assoc::remove_key_seq(log_view(old(log)@), p@),
{
    let pid = p.id();
    let mut kept: Vec<(PaneHandle, Vec<String>)> = Vec::new();
    let mut i: usize = 0;
    proof {
        assert(log_view(old(log)@.take(0)) =~= Seq::<(int, Seq<Seq<char>>)>::empty());
        assert(log_view(old(log)@).take(0) =~= Seq::<(int, Seq<Seq<char>>)>::empty());
        assert(log_view(kept@) =~= Seq::<(int, Seq<Seq<char>>)>::empty());
    }
    while i < log.len()
        invariant
            *log == *old(log),
            pid as int == p@,
            i <= log@.len(),
            log_view(kept@) == crate::assoc::remove_key_seq(
                log_view(old(log)@).take(i as int),
                p@,
            ),
        decreases log@.len() - i,
    {
        let ghost taken = log_view(old(log)@).take(i as int);
        let ghost entry = log_view(old(log)@)[i as int];
        proof {
            assert(entry == (old(log)@[i as int].0@, old(log)@[i as int].1.deep_view()));
            assert(log_view(old(log)@).take(i as int + 1) =~= taken.push(entry));
            crate::assoc::lemma_remove_key_push(taken, p@, entry);
        }
        if log[i].0.id() == pid {
            proof {
                assert(entry.0 == p@);
            }
        } else {
            let ghost kprev = kept@;
            let keys = clone_string_vec(&log[i].1);
            let h = log[i].0;
            kept.push((h, keys));
            proof {
                assert(log_view(kept@) =~= log_view(kprev).push(entry));
            }
        }
        i = i + 1;
    }
    proof {
        assert(log_view(old(log)@).take(log_view(old(log)@).len() as int) =~= log_view(
            old(log)@,
        ));
    }
    *log = kept;
}

/// A relationship-maintaining entity store with queued-command mutation.
///
/// The store owns its entity table, dataset registry, relation index,
/// command queue, and creation log; no global state is involved.
pub struct Store {
    table: EntityTable,
    registry: DatasetRegistry,
    relations: RelationIndex,
    queue: CommandQueue,
    log: Vec<(PaneHandle, Vec<String>)>,
}

impl View for Store {
    type V = StoreModel;

    closed spec fn view(&self) -> StoreModel {
        StoreModel {
            panes: self.table@.panes,
            datasets: self.table@.datasets,
            registry: self.registry@,
            edges: self.relations@,
            next_id: self.table@.next_id,
            queue: self.queue@,
            log: log_view(self.log@),
        }
    }
}

impl Store {
    /// The store's invariant: each component is internally consistent and
    /// the state they make up together is consistent as a whole.
    pub closed spec fn wf(self) -> bool {
        &&& self.table.wf()
        &&& self.registry.wf()
        &&& self.relations.wf()
        &&& wf_model(self@)
    }

    /// Creates an empty store.
    pub fn new() -> (s: Store)
        ensures
            s.wf(),
            s@ == init_model(),
    {
        let s = Store {
            table: EntityTable::new(),
            registry: DatasetRegistry::new(),
            relations: RelationIndex::new(),
            queue: CommandQueue::new(),
            log: Vec::new(),
        };
        proof {
            assert(log_view(s.log@) =~= Seq::<(int, Seq<Seq<char>>)>::empty());
            assert(s@ =~= init_model());
            lemma_init_wf();
        }
        s
    }

    /// Appends a command at the tail of the queue. Never blocks, never
    /// fails; the command waits for the next processing pass.
    pub fn enqueue(&mut self, cmd: Command)
        requires
            old(self).wf(),
        ensures
            final(self).wf(),
            final(self)@ == (StoreModel { queue: old(self)@.queue.push(cmd@), ..old(self)@ }),
    {
        self.queue.enqueue(cmd);
        proof {
            assert(self@ =~= (StoreModel { queue: old(self)@.queue.push(cmd@), ..old(self)@ }));
        }
    }

    /// The number of commands waiting for the next processing pass.
    pub fn queue_len(&self) -> (n: usize)
        ensures
            n == self@.queue.len(),
    {
        self.queue.len()
    }

    /// Whether a processing pass can run now without exhausting the
    /// identifier space. This can only fail after an astronomical number
    /// of creations.
    pub fn can_process(&self) -> (r: bool)
        requires
            self.wf(),
        ensures
            r == (self@.next_id + batch_cost(self@.queue) <= u64::MAX),
    {
        match self.queue.cost() {
            Some(c) => {
                proof {
                    lemma_batch_cost_nonneg(self@.queue);
                }
                self.table.next_id() <= u64::MAX - c
            },
            None => {
                proof {
                    assert(self@.next_id >= 0);
                }
                false
            },
        }
    }

    /// Atomically takes the entire current queue and applies every command
    /// strictly in FIFO order, with no rollback: a failed command is
    /// recorded and skipped, and the remaining commands still run. Returns
    /// the report of what was created, deleted, and skipped.
    pub fn process(&mut self) -> (report: BatchReport)
        requires
            old(self).wf(),
            old(self)@.next_id + batch_cost(old(self)@.queue) <= u64::MAX,
        ensures
            final(self).wf(),
            final(self)@.queue == Seq::<CmdModel>::empty(),
            ({
                let m0 = StoreModel { queue: Seq::empty(), ..old(self)@ };
                let r = run_batch(m0, old(self)@.queue);
                final(self)@ == r.0 && report@ == r.1
            }),
    {
        let ghost m0 = StoreModel { queue: Seq::empty(), ..old(self)@ };
        let ghost cmdsm = old(self)@.queue;
        let cmds = self.queue.drain();
        let mut report = BatchReport { created: Vec::new(), deleted: Vec::new(), errors: Vec::new() };
        proof {
            assert(self@ =~= m0);
            assert(report@ =~= ReportModel::empty());
            assert(cmdsm.take(0) =~= Seq::<CmdModel>::empty());
            assert(cmdsm.skip(0) =~= cmdsm);
            assert(run_batch(m0, cmdsm.take(0)) == (m0, ReportModel::empty()));
        }
        let mut i: usize = 0;
        while i < cmds.len()
            invariant
                i <= cmds@.len(),
                cmds@.map_values(|c: Command| c@) == cmdsm,
                self.wf(),
                self@ == run_batch(m0, cmdsm.take(i as int)).0,
                report@ == run_batch(m0, cmdsm.take(i as int)).1,
                self@.next_id + batch_cost(cmdsm.skip(i as int)) <= u64::MAX,
            decreases cmds@.len() - i,
        {
            let ghost pre = self@;
            let ghost reppre = report@;
            let ghost cm = cmdsm[i as int];
            proof {
                assert(cmds@[i as int]@ == cm);
                assert(cmdsm.skip(i as int).first() == cm);
                assert(cmdsm.skip(i as int).drop_first() =~= cmdsm.skip(i as int + 1));
                assert(batch_cost(cmdsm.skip(i as int)) == crate::model::cmd_cost(cm)
                    + batch_cost(cmdsm.skip(i as int + 1)));
                lemma_batch_cost_nonneg(cmdsm.skip(i as int + 1));
                lemma_run_cmd_wf(pre, cm);
                assert(cmdsm.take(i as int + 1) =~= cmdsm.take(i as int).push(cm));
                lemma_run_batch_snoc(m0, cmdsm.take(i as int), cm);
            }
            match &cmds[i] {
                Command::CreatePaneWithDatasets { dataset_keys } => {
                    let ghost keysm = dataset_keys.deep_view();
                    proof {
                        assert(cm == (CmdModel::Create { keys: keysm }));
                    }
                    let pane = self.table.create_pane(
                        PaneAttrs { width: DEFAULT_PANE_WIDTH, height: DEFAULT_PANE_HEIGHT },
                    );
                    let ghost m1 = StoreModel {
                        panes: pre.panes.insert(pane@, crate::model::default_attrs()),
                        next_id: pre.next_id + 1,
                        ..pre
                    };
                    proof {
                        assert(self@ =~= m1);
                        assert(wf_model(m1)) by {
                            assert(!pre.datasets.contains_key(pane@));
                        }
                        assert(m1.panes.contains_key(pane@));
                        assert(apply_keys(m1, pane@, keysm.take(0)) == m1);
                    }
                    let mut j: usize = 0;
                    while j < dataset_keys.len()
                        invariant
                            j <= dataset_keys@.len(),
                            keysm == dataset_keys.deep_view(),
                            pane@ == m1.next_id - 1,
                            wf_model(m1),
                            m1.panes.contains_key(pane@),
                            m1.next_id + keysm.len() <= u64::MAX,
                            self.table.wf(),
                            self.registry.wf(),
                            self.relations.wf(),
                            self@ == apply_keys(m1, pane@, keysm.take(j as int)),
                        decreases dataset_keys@.len() - j,
                    {
                        let ghost cur = self@;
                        let ghost keym = keysm[j as int];
                        proof {
                            lemma_apply_keys_wf(m1, pane@, keysm.take(j as int));
                            assert(cur.panes.contains_key(pane@));
                            assert(cur.next_id <= m1.next_id + j);
                            assert(cur.next_id < u64::MAX);
                        }
                        let key = &dataset_keys[j];
                        proof {
                            assert(key@ == keym);
                        }
                        let d = self.registry.resolve_or_create(&mut self.table, key);
                        self.relations.add_edge(pane, d);
                        proof {
                            assert(self@ =~= apply_key(cur, pane@, keym));
                            lemma_apply_keys_snoc(m1, pane@, keysm.take(j as int), keym);
                            assert(keysm.take(j as int + 1) =~= keysm.take(j as int).push(keym));
                        }
                        j = j + 1;
                    }
                    proof {
                        assert(keysm.take(keysm.len() as int) =~= keysm);
                        assert(self@ == apply_keys(m1, pane@, keysm));
                        lemma_apply_keys_wf(m1, pane@, keysm);
                    }
                    let log_keys = clone_string_vec(dataset_keys);
                    let report_keys = clone_string_vec(dataset_keys);
                    let ghost before_log = self@;
                    self.log.push((pane, log_keys));
                    report.created.push((report_keys, pane));
                    proof {
                        assert(log_view(self.log@) =~= before_log.log.push((pane@, keysm)));
                        assert(self@ =~= apply_create(pre, keysm));
                        assert(self@ == run_cmd(pre, cm).0);
                        assert(report@ =~= reppre.concat(run_cmd(pre, cm).1));
                    }
                },
                Command::DeletePane { pane } => {
                    let p = *pane;
                    proof {
                        assert(cm == (CmdModel::Delete { pane: p@ }));
                    }
                    let existed = self.table.destroy_pane(p);
                    if existed {
                        self.relations.remove_pane(p);
                        remove_log_entries(&mut self.log, p);
                        report.deleted.push(p);
                        proof {
                            assert(self@ =~= apply_delete(pre, p@));
                            assert(self@ == run_cmd(pre, cm).0);
                            assert(report@ =~= reppre.concat(run_cmd(pre, cm).1));
                        }
                    } else {
                        report.errors.push((Command::DeletePane { pane: p }, ErrorKind::NotFound));
                        proof {
                            assert(pre.panes.remove(p@) =~= pre.panes);
                            assert(self@ =~= pre);
                            assert(self@ == run_cmd(pre, cm).0);
                            assert(report@ =~= reppre.concat(run_cmd(pre, cm).1));
                        }
                    }
                },
            }
            i = i + 1;
        }
        proof {
            assert(cmdsm.take(cmds@.len() as int) =~= cmdsm);
            lemma_run_batch_wf(m0, cmdsm);
        }
        report
    }

    /// Everything the store's invariant promises holds of its state; lets
    /// a caller apply the model-level laws to a store it holds.
    pub proof fn lemma_wf_model(&self)
        requires
            self.wf(),
        ensures
            wf_model(self@),
    {
    }

    /// The datasets pane `p` currently uses, each exactly once. Empty if
    /// the handle does not name a live pane.
    pub fn datasets_of(&self, p: PaneHandle) -> (r: Vec<DatasetHandle>)
        requires
            self.wf(),
        ensures
            dataset_ids(r@).no_duplicates(),
            forall|d: int|
                #[trigger] dataset_ids(r@).contains(d) <==> datasets_of_model(self@, p@).contains(
                    d,
                ),
    {
        self.relations.datasets_of(p)
    }

    /// The panes currently subscribed to dataset `d`, each exactly once.
    /// Empty if the handle does not name a live dataset.
    pub fn panes_of(&self, d: DatasetHandle) -> (r: Vec<PaneHandle>)
        requires
            self.wf(),
        ensures
            pane_ids(r@).no_duplicates(),
            forall|p: int|
                #[trigger] pane_ids(r@).contains(p) <==> panes_of_model(self@, d@).contains(p),
    {
        self.relations.panes_of(d)
    }

    /// Looks a dataset up by its key, by value equality.
    pub fn lookup_dataset(&self, key: &String) -> (r: Option<DatasetHandle>)
        requires
            self.wf(),
        ensures
            match r {
                Some(h) => self@.registry.contains_key(key@) && h@ == self@.registry[key@],
                None => !self@.registry.contains_key(key@),
            },
    {
        self.registry.lookup(key)
    }

    /// Looks up a pane's attributes; fails with `NotFound` if the handle
    /// does not name a live pane.
    pub fn get_pane(&self, p: PaneHandle) -> (r: Result<PaneAttrs, ErrorKind>)
        requires
            self.wf(),
        ensures
            match r {
                Ok(a) => self@.panes.contains_key(p@) && a == self@.panes[p@],
                Err(e) => !self@.panes.contains_key(p@) && e == ErrorKind::NotFound,
            },
    {
        self.table.get_pane(p)
    }

    /// Looks up a dataset's key; fails with `NotFound` if the handle does
    /// not name a live dataset.
    pub fn get_dataset_key(&self, d: DatasetHandle) -> (r: Result<String, ErrorKind>)
        requires
            self.wf(),
        ensures
            match r {
                Ok(k) => self@.datasets.contains_key(d@) && k@ == self@.datasets[d@],
                Err(e) => !self@.datasets.contains_key(d@) && e == ErrorKind::NotFound,
            },
    {
        self.table.get_dataset_key(d)
    }

    /// The number of live panes.
    pub fn pane_count(&self) -> (n: usize)
        requires
            self.wf(),
        ensures
            n == self@.panes.dom().len(),
    {
        self.table.pane_count()
    }

    /// The number of live datasets.
    pub fn dataset_count(&self) -> (n: usize)
        requires
            self.wf(),
        ensures
            n == self@.datasets.dom().len(),
    {
        self.table.dataset_count()
    }

    /// The creation log: every live command-created pane with the key
    /// list it was requested with, in creation order. Entries leave the
    /// log when their pane is deleted.
    pub fn created_panes(&self) -> (r: Vec<(PaneHandle, Vec<String>)>)
        requires
            self.wf(),
        ensures
            log_view(r@) == self@.log,
    {
        let mut out: Vec<(PaneHandle, Vec<String>)> = Vec::new();
        let mut i: usize = 0;
        proof {
            assert(log_view(out@) =~= self@.log.take(0));
        }
        while i < self.log.len()
            invariant
                self.wf(),
                i <= self.log@.len(),
                self.log@.len() == self@.log.len(),
                log_view(out@) == self@.log.take(i as int),
            decreases self.log@.len() - i,
        {
            let ghost oprev = out@;
            let keys = clone_string_vec(&self.log[i].1);
            let h = self.log[i].0;
            out.push((h, keys));
            proof {
                assert(self@.log[i as int] == (
                    self.log@[i as int].0@,
                    self.log@[i as int].1.deep_view(),
                ));
                assert(log_view(out@) =~= log_view(oprev).push(self@.log[i as int]));
                assert(self@.log.take(i as int + 1) =~= self@.log.take(i as int).push(
                    self@.log[i as int],
                ));
            }
            i = i + 1;
        }
        proof {
            assert(self@.log.take(self@.log.len() as int) =~= self@.log);
        }
        out
    }

    /// A handle to every live pane, each exactly once.
    pub fn pane_handles(&self) -> (r: Vec<PaneHandle>)
        requires
            self.wf(),
        ensures
            pane_ids(r@).no_duplicates(),
            forall|p: int| #[trigger] pane_ids(r@).contains(p) <==> self@.panes.contains_key(p),
    {
        self.table.pane_handles()
    }

    /// A handle to every live dataset, each exactly once.
    pub fn dataset_handles(&self) -> (r: Vec<DatasetHandle>)
        requires
            self.wf(),
        ensures
            dataset_ids(r@).no_duplicates(),
            forall|d: int| #[trigger] dataset_ids(r@).contains(d) <==> self@.datasets.contains_key(d),
    {
        self.table.dataset_handles()
    }
}

} // verus!
