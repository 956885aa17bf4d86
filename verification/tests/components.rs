use pane_store::command::CommandQueue;
use pane_store::text::u64_to_string;
use pane_store::{
    Command, DatasetHandle, DatasetRegistry, EntityTable, ErrorKind, PaneAttrs, PaneHandle,
    RelationIndex,
};

#[test]
fn handles_wrap_their_identifier() {
    let p = PaneHandle::new(7);
    let d = DatasetHandle::new(7);
    assert_eq!(p.id(), 7);
    assert_eq!(d.id(), 7);
    assert_eq!(p, PaneHandle::new(7));
    assert_ne!(p, PaneHandle::new(8));
}

#[test]
fn table_creates_and_looks_up_panes() {
    let mut table = EntityTable::new();
    let a = table.create_pane(PaneAttrs { width: 10, height: 20 });
    let b = table.create_pane(PaneAttrs { width: 30, height: 40 });
    assert_ne!(a, b);
    assert_eq!(table.pane_count(), 2);
    let got = table.get_pane(a).unwrap();
    assert_eq!(got.width, 10);
    assert_eq!(got.height, 20);
}

#[test]
fn table_destroy_makes_lookups_fail() {
    let mut table = EntityTable::new();
    let a = table.create_pane(PaneAttrs { width: 1, height: 2 });
    assert!(table.destroy_pane(a));
    assert_eq!(table.pane_count(), 0);
    assert_eq!(table.get_pane(a), Err(ErrorKind::NotFound));
    assert!(!table.destroy_pane(a));
}

#[test]
fn table_set_pane_updates_or_fails() {
    let mut table = EntityTable::new();
    let a = table.create_pane(PaneAttrs { width: 1, height: 2 });
    assert!(table.set_pane(a, PaneAttrs { width: 5, height: 6 }).is_ok());
    assert_eq!(table.get_pane(a).unwrap(), PaneAttrs { width: 5, height: 6 });
    table.destroy_pane(a);
    assert_eq!(
        table.set_pane(a, PaneAttrs { width: 9, height: 9 }),
        Err(ErrorKind::NotFound)
    );
}

#[test]
fn table_dataset_keys_round_trip() {
    let mut table = EntityTable::new();
    let d = table.create_dataset("sensor".to_string());
    assert_eq!(table.get_dataset_key(d).unwrap(), "sensor");
    assert_eq!(table.dataset_count(), 1);
    assert_eq!(
        table.get_dataset_key(DatasetHandle::new(999)),
        Err(ErrorKind::NotFound)
    );
}

#[test]
fn registry_resolves_each_key_once() {
    let mut table = EntityTable::new();
    let mut registry = DatasetRegistry::new();
    let key = "k".to_string();
    let first = registry.resolve_or_create(&mut table, &key);
    let second = registry.resolve_or_create(&mut table, &key);
    assert_eq!(first, second);
    assert_eq!(table.dataset_count(), 1);
    assert_eq!(registry.lookup(&key), Some(first));
    assert_eq!(registry.lookup(&"other".to_string()), None);
    let other = registry.resolve_or_create(&mut table, &"other".to_string());
    assert_ne!(first, other);
    assert_eq!(table.dataset_count(), 2);
}

#[test]
fn relation_add_edge_is_idempotent() {
    let mut rel = RelationIndex::new();
    let p = PaneHandle::new(1);
    let d = DatasetHandle::new(2);
    assert!(!rel.contains_edge(p, d));
    rel.add_edge(p, d);
    rel.add_edge(p, d);
    assert!(rel.contains_edge(p, d));
    assert_eq!(rel.datasets_of(p), vec![d]);
    assert_eq!(rel.panes_of(d), vec![p]);
}

#[test]
fn relation_remove_pane_drops_all_its_edges() {
    let mut rel = RelationIndex::new();
    let p1 = PaneHandle::new(1);
    let p2 = PaneHandle::new(2);
    let da = DatasetHandle::new(10);
    let db = DatasetHandle::new(11);
    rel.add_edge(p1, da);
    rel.add_edge(p1, db);
    rel.add_edge(p2, da);
    rel.remove_pane(p1);
    assert!(rel.datasets_of(p1).is_empty());
    assert_eq!(rel.panes_of(da), vec![p2]);
    assert!(rel.panes_of(db).is_empty());
    assert!(rel.contains_edge(p2, da));
}

#[test]
fn queue_is_fifo_and_drains_atomically() {
    let mut q = CommandQueue::new();
    assert_eq!(q.len(), 0);
    q.enqueue(Command::CreatePaneWithDatasets { dataset_keys: vec!["a".to_string()] });
    q.enqueue(Command::DeletePane { pane: PaneHandle::new(3) });
    assert_eq!(q.len(), 2);
    let drained = q.drain();
    assert_eq!(q.len(), 0);
    assert_eq!(drained.len(), 2);
    assert!(matches!(&drained[0], Command::CreatePaneWithDatasets { .. }));
    assert!(matches!(&drained[1], Command::DeletePane { .. }));
    assert!(q.drain().is_empty());
}

#[test]
fn queue_cost_counts_possible_allocations() {
    let mut q = CommandQueue::new();
    q.enqueue(Command::CreatePaneWithDatasets {
        dataset_keys: vec!["a".to_string(), "b".to_string()],
    });
    q.enqueue(Command::DeletePane { pane: PaneHandle::new(0) });
    q.enqueue(Command::CreatePaneWithDatasets { dataset_keys: vec![] });
    assert_eq!(q.cost(), Some(4));
}

#[test]
fn default_pane_attrs_match_command_creation() {
    let attrs = PaneAttrs::default();
    assert_eq!(attrs.width, 100);
    assert_eq!(attrs.height, 200);
}

#[test]
fn decimal_rendering_is_exact() {
    assert_eq!(u64_to_string(0), "0");
    assert_eq!(u64_to_string(7), "7");
    assert_eq!(u64_to_string(10), "10");
    assert_eq!(u64_to_string(123), "123");
    assert_eq!(u64_to_string(1000000), "1000000");
    assert_eq!(u64_to_string(u64::MAX), "18446744073709551615");
}
