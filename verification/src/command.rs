//! Commands, the command queue, and batch reports.
//!
//! Commands are plain data: they carry no references into the store and can
//! be constructed, queued, and inspected independently of store state. The
//! queue is a FIFO buffer that a single processing pass drains atomically.

use vstd::prelude::*;

use crate::handles::PaneHandle;
use crate::model::{batch_cost, cmd_cost, lemma_batch_cost_nonneg, lemma_batch_cost_snoc,
    lemma_batch_cost_split};

verus! {

/// The ways a command or a direct query can fail.
#[derive(Debug, Clone, Copy, PartialEq, Eq, Structural)]
pub enum ErrorKind {
    /// A pane or dataset handle is absent or was deleted.
    NotFound,
    /// A dataset key is already registered. Dataset creation resolves
    /// duplicates transparently, so processing never reports this kind.
    DuplicateKey,
}

/// A pending mutation request.
#[derive(Debug, Clone, PartialEq, Eq)]
pub enum Command {
    /// Create one new pane with default dimensions and link it, in order,
    /// to the dataset of each given key, creating missing datasets.
    CreatePaneWithDatasets { dataset_keys: Vec<String> },
    /// Delete a pane and every edge incident to it.
    DeletePane { pane: PaneHandle },
}

/// The mathematical reading of a command.
#[verifier::ext_equal]
pub ghost enum CmdModel {
    Create { keys: Seq<Seq<char>> },
    Delete { pane: int },
}

impl View for Command {
    type V = CmdModel;

    open spec fn view(&self) -> CmdModel {
        match self {
            Command::CreatePaneWithDatasets { dataset_keys } => CmdModel::Create {
                keys: dataset_keys.deep_view(),
            },
            Command::DeletePane { pane } => CmdModel::Delete { pane: pane.view() },
        }
    }
}

/// An ordered buffer of pending commands, append-only until drained.
pub struct CommandQueue {
    items: Vec<Command>,
}

impl View for CommandQueue {
    type V = Seq<CmdModel>;

    closed spec fn view(&self) -> Seq<CmdModel> {
        self.items@.map_values(|c: Command| c@)
    }
}

impl CommandQueue {
    /// Creates an empty queue.
    pub fn new() -> (q: CommandQueue)
        ensures
            q@ == Seq::<CmdModel>::empty(),
    {
        let q = CommandQueue { items: Vec::new() };
        proof {
            assert(q@ =~= Seq::<CmdModel>::empty());
        }
        q
    }

    /// Appends a command at the tail. Never blocks, never fails.
    pub fn enqueue(&mut self, cmd: Command)
        ensures
            final(self)@ == old(self)@.push(cmd@),
    {
        let ghost prev = self.items@;
        self.items.push(cmd);
        proof {
            assert(self@ =~= prev.map_values(|c: Command| c@).push(cmd@));
        }
    }

    /// The number of pending commands.
    pub fn len(&self) -> (n: usize)
        ensures
            n == self@.len(),
    {
        self.items.len()
    }

    /// The total number of identifiers the queued commands may allocate,
    /// or `None` where that total does not fit in a `u64`.
    pub fn cost(&self) -> (r: Option<u64>)
        ensures
            match r {
                Some(c) => c as int == batch_cost(self@),
                None => batch_cost(self@) > u64::MAX,
            },
    {
        let mut total: u64 = 0;
        let mut i: usize = 0;
        proof {
            assert(self@.take(0) =~= Seq::<CmdModel>::empty());
        }
        while i < self.items.len()
            invariant
                i <= self.items@.len(),
                self.items@.len() == self@.len(),
                total as int == batch_cost(self@.take(i as int)),
            decreases self.items@.len() - i,
        {
            let ghost cm = self@[i as int];
            proof {
                assert(cm == self.items@[i as int]@);
                assert(self@.take(i as int + 1) =~= self@.take(i as int).push(cm));
                lemma_batch_cost_snoc(self@.take(i as int), cm);
                lemma_batch_cost_split(self@, i as int);
                lemma_batch_cost_nonneg(self@.take(i as int));
                lemma_batch_cost_nonneg(self@.skip(i as int));
                lemma_batch_cost_nonneg(self@.skip(i as int + 1));
                assert(self@.skip(i as int).first() == cm);
                assert(self@.skip(i as int).drop_first() =~= self@.skip(i as int + 1));
                assert(batch_cost(self@.skip(i as int)) == cmd_cost(cm) + batch_cost(
                    self@.skip(i as int + 1),
                ));
            }
            let step: u64 = match &self.items[i] {
                Command::CreatePaneWithDatasets { dataset_keys } => {
                    match (dataset_keys.len() as u64).checked_add(1) {
                        Some(s) => s,
                        None => {
                            return None;
                        },
                    }
                },
                Command::DeletePane { .. } => 0,
            };
            proof {
                assert(step as int == cmd_cost(cm));
            }
            match total.checked_add(step) {
                Some(t) => {
                    total = t;
                },
                None => {
                    return None;
                },
            }
            i = i + 1;
        }
        proof {
            assert(self@.take(self@.len() as int) =~= self@);
        }
        Some(total)
    }

    /// Takes the entire current contents of the queue, leaving it empty.
    pub fn drain(&mut self) -> (cmds: Vec<Command>)
        ensures
            final(self)@ == Seq::<CmdModel>::empty(),
            cmds@.map_values(|c: Command| c@) == old(self)@,
    {
        let mut out: Vec<Command> = Vec::new();
        core::mem::swap(&mut self.items, &mut out);
        proof {
            assert(self@ =~= Seq::<CmdModel>::empty());
        }
        out
    }
}

/// What one processing pass did: the panes it created (with the key list
/// each was requested with), the panes it deleted, and the commands it
/// skipped, each with the reason.
pub struct BatchReport {
    /// One entry per successful create command, in command order.
    pub created: Vec<(Vec<String>, PaneHandle)>,
    /// One entry per successful delete command, in command order.
    pub deleted: Vec<PaneHandle>,
    /// One entry per skipped command, in command order.
    pub errors: Vec<(Command, ErrorKind)>,
}

/// The mathematical reading of a batch report.
#[verifier::ext_equal]
pub ghost struct ReportModel {
    pub created: Seq<(Seq<Seq<char>>, int)>,
    pub deleted: Seq<int>,
    pub errors: Seq<(CmdModel, ErrorKind)>,
}

impl View for BatchReport {
    type V = ReportModel;

    open spec fn view(&self) -> ReportModel {
        ReportModel {
            created: self.created@.map_values(
                |e: (Vec<String>, PaneHandle)| (e.0.deep_view(), e.1@),
            ),
            deleted: self.deleted@.map_values(|p: PaneHandle| p@),
            errors: self.errors@.map_values(|e: (Command, ErrorKind)| (e.0@, e.1)),
        }
    }
}

impl ReportModel {
    /// A report of no work.
    pub open spec fn empty() -> ReportModel {
        ReportModel { created: Seq::empty(), deleted: Seq::empty(), errors: Seq::empty() }
    }

    /// Two reports in sequence.
    pub open spec fn concat(self, other: ReportModel) -> ReportModel {
        ReportModel {
            created: self.created + other.created,
            deleted: self.deleted + other.deleted,
            errors: self.errors + other.errors,
        }
    }
}

} // verus!
