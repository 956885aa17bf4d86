//! A relationship-maintaining entity store with queued-command mutation.
//!
//! The store tracks *pane* entities that reference zero or more shared
//! *dataset* entities. Panes carry width/height attributes; datasets are
//! identified by a unique string key and are created lazily, at most once
//! per distinct key. The many-to-many "pane uses dataset" relation is kept
//! as an edge set whose two directional views always agree. All mutation
//! goes through a FIFO command queue that a single processing pass drains.

pub mod assoc;
pub mod command;
pub mod entity_table;
pub mod handles;
pub mod laws;
pub mod model;
pub mod registry;
pub mod relation;
pub mod store;
pub mod text;

pub use command::{BatchReport, Command, CommandQueue, ErrorKind};
pub use entity_table::{EntityTable, PaneAttrs};
pub use handles::{DatasetHandle, PaneHandle};
pub use registry::DatasetRegistry;
pub use relation::RelationIndex;
pub use store::Store;
