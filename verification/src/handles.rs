//! Typed entity handles.
//!
//! Both kinds of handle wrap the same underlying identifier type, but they
//! are distinct types, so a dataset handle cannot be passed where a pane
//! handle is expected (and vice versa).

use vstd::prelude::*;

verus! {

/// A handle to a pane entity.
#[derive(Debug, Clone, Copy, PartialEq, Eq, Hash, Structural)]
pub struct PaneHandle {
    id: u64,
}

/// A handle to a dataset entity.
#[derive(Debug, Clone, Copy, PartialEq, Eq, Hash, Structural)]
pub struct DatasetHandle {
    id: u64,
}

impl View for PaneHandle {
    type V = int;

    closed spec fn view(&self) -> int {
        self.id as int
    }
}

impl View for DatasetHandle {
    type V = int;

    closed spec fn view(&self) -> int {
        self.id as int
    }
}

/// The identifiers behind a sequence of pane handles, in order.
pub open spec fn pane_ids(s: Seq<PaneHandle>) -> Seq<int> {
    s.map_values(|h: PaneHandle| h@)
}

/// The identifiers behind a sequence of dataset handles, in order.
pub open spec fn dataset_ids(s: Seq<DatasetHandle>) -> Seq<int> {
    s.map_values(|h: DatasetHandle| h@)
}

impl PaneHandle {
    /// Wraps a raw identifier in a pane handle.
    pub fn new(id: u64) -> (h: PaneHandle)
        ensures
            h@ == id as int,
    {
        PaneHandle { id }
    }

    /// The raw identifier behind this handle.
    pub fn id(&self) -> (r: u64)
        ensures
            r as int == self@,
    {
        self.id
    }
}

impl DatasetHandle {
    /// Wraps a raw identifier in a dataset handle.
    pub fn new(id: u64) -> (h: DatasetHandle)
        ensures
            h@ == id as int,
    {
        DatasetHandle { id }
    }

    /// The raw identifier behind this handle.
    pub fn id(&self) -> (r: u64)
        ensures
            r as int == self@,
    {
        self.id
    }
}

} // verus!
