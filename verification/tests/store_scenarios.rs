use pane_store::{Command, ErrorKind, PaneHandle, Store};

fn keys(names: &[&str]) -> Vec<String> {
    names.iter().map(|s| s.to_string()).collect()
}

fn scenario_a_store() -> (Store, Vec<PaneHandle>) {
    let mut store = Store::new();
    store.enqueue(Command::CreatePaneWithDatasets { dataset_keys: keys(&["t1", "h1"]) });
    store.enqueue(Command::CreatePaneWithDatasets { dataset_keys: keys(&["h1"]) });
    store.enqueue(Command::CreatePaneWithDatasets { dataset_keys: keys(&["t1", "p1"]) });
    let report = store.process();
    let panes = report.created.iter().map(|(_, p)| *p).collect();
    (store, panes)
}

#[test]
fn three_creates_share_datasets() {
    let (store, panes) = scenario_a_store();
    assert_eq!(panes.len(), 3);
    assert_eq!(store.pane_count(), 3);
    assert_eq!(store.dataset_count(), 3);
    for name in ["t1", "h1", "p1"] {
        assert!(store.lookup_dataset(&name.to_string()).is_some());
    }
    let h1 = store.lookup_dataset(&"h1".to_string()).unwrap();
    assert_eq!(store.panes_of(h1).len(), 2);
    let t1 = store.lookup_dataset(&"t1".to_string()).unwrap();
    assert_eq!(store.panes_of(t1).len(), 2);
    let p1 = store.lookup_dataset(&"p1".to_string()).unwrap();
    assert_eq!(store.panes_of(p1).len(), 1);
}

#[test]
fn report_lists_requested_keys_per_pane() {
    let (store, panes) = scenario_a_store();
    let mut store = store;
    store.enqueue(Command::CreatePaneWithDatasets { dataset_keys: keys(&["t1", "h1"]) });
    let report = store.process();
    assert_eq!(report.created.len(), 1);
    assert_eq!(report.created[0].0, keys(&["t1", "h1"]));
    assert_ne!(report.created[0].1, panes[0]);
    assert!(report.deleted.is_empty());
    assert!(report.errors.is_empty());
}

#[test]
fn delete_third_pane_removes_edges_but_not_datasets() {
    let (mut store, panes) = scenario_a_store();
    store.enqueue(Command::DeletePane { pane: panes[2] });
    let report = store.process();
    assert_eq!(report.deleted, vec![panes[2]]);
    assert!(report.errors.is_empty());
    let t1 = store.lookup_dataset(&"t1".to_string()).unwrap();
    let p1 = store.lookup_dataset(&"p1".to_string()).unwrap();
    assert_eq!(store.panes_of(t1).len(), 1);
    assert!(store.panes_of(p1).is_empty());
    assert_eq!(store.dataset_count(), 3);
    assert_eq!(store.pane_count(), 2);
    assert!(store.get_pane(panes[2]).is_err());
    assert!(store.datasets_of(panes[2]).is_empty());
}

#[test]
fn delete_unknown_pane_reports_not_found_and_changes_nothing() {
    let (mut store, _panes) = scenario_a_store();
    let unknown = PaneHandle::new(9999);
    store.enqueue(Command::DeletePane { pane: unknown });
    let report = store.process();
    assert!(report.created.is_empty());
    assert!(report.deleted.is_empty());
    assert_eq!(report.errors.len(), 1);
    assert_eq!(report.errors[0].1, ErrorKind::NotFound);
    assert_eq!(
        report.errors[0].0,
        Command::DeletePane { pane: unknown }
    );
    assert_eq!(store.pane_count(), 3);
    assert_eq!(store.dataset_count(), 3);
    let h1 = store.lookup_dataset(&"h1".to_string()).unwrap();
    assert_eq!(store.panes_of(h1).len(), 2);
}

#[test]
fn duplicate_keys_collapse_to_one_edge() {
    let mut store = Store::new();
    store.enqueue(Command::CreatePaneWithDatasets { dataset_keys: keys(&["a", "a", "a"]) });
    let report = store.process();
    let pane = report.created[0].1;
    assert_eq!(store.dataset_count(), 1);
    assert_eq!(store.datasets_of(pane).len(), 1);
    let a = store.lookup_dataset(&"a".to_string()).unwrap();
    assert_eq!(store.panes_of(a), vec![pane]);
}

#[test]
fn dataset_count_equals_distinct_keys_referenced() {
    let mut store = Store::new();
    store.enqueue(Command::CreatePaneWithDatasets { dataset_keys: keys(&["x", "y"]) });
    store.enqueue(Command::CreatePaneWithDatasets { dataset_keys: keys(&["y", "z", "x"]) });
    store.enqueue(Command::CreatePaneWithDatasets { dataset_keys: keys(&["x", "x", "y"]) });
    store.enqueue(Command::CreatePaneWithDatasets { dataset_keys: keys(&[]) });
    store.process();
    assert_eq!(store.pane_count(), 4);
    assert_eq!(store.dataset_count(), 3);
}

#[test]
fn both_relation_views_agree() {
    let (store, panes) = scenario_a_store();
    for p in &panes {
        for d in store.datasets_of(*p) {
            assert!(store.panes_of(d).contains(p));
        }
    }
    for name in ["t1", "h1", "p1"] {
        let d = store.lookup_dataset(&name.to_string()).unwrap();
        for p in store.panes_of(d) {
            assert!(store.datasets_of(p).contains(&d));
        }
    }
}

#[test]
fn commands_enqueued_after_a_pass_wait_for_the_next() {
    let mut store = Store::new();
    store.enqueue(Command::CreatePaneWithDatasets { dataset_keys: keys(&["one"]) });
    let first = store.process();
    assert_eq!(first.created.len(), 1);
    assert_eq!(store.queue_len(), 0);
    store.enqueue(Command::CreatePaneWithDatasets { dataset_keys: keys(&["two"]) });
    assert_eq!(store.queue_len(), 1);
    let second = store.process();
    assert_eq!(second.created.len(), 1);
    assert_eq!(second.created[0].0, keys(&["two"]));
    assert_ne!(second.created[0].1, first.created[0].1);
}

#[test]
fn failed_command_does_not_abort_the_batch() {
    let mut store = Store::new();
    store.enqueue(Command::DeletePane { pane: PaneHandle::new(42) });
    store.enqueue(Command::CreatePaneWithDatasets { dataset_keys: keys(&["after"]) });
    let report = store.process();
    assert_eq!(report.errors.len(), 1);
    assert_eq!(report.created.len(), 1);
    assert_eq!(store.pane_count(), 1);
    assert!(store.lookup_dataset(&"after".to_string()).is_some());
}

#[test]
fn empty_batch_reports_nothing() {
    let mut store = Store::new();
    let report = store.process();
    assert!(report.created.is_empty());
    assert!(report.deleted.is_empty());
    assert!(report.errors.is_empty());
    assert_eq!(store.pane_count(), 0);
    assert_eq!(store.dataset_count(), 0);
}

#[test]
fn create_with_no_keys_makes_a_bare_pane() {
    let mut store = Store::new();
    store.enqueue(Command::CreatePaneWithDatasets { dataset_keys: keys(&[]) });
    let report = store.process();
    let pane = report.created[0].1;
    assert_eq!(store.pane_count(), 1);
    assert_eq!(store.dataset_count(), 0);
    assert!(store.datasets_of(pane).is_empty());
}

#[test]
fn new_panes_get_default_dimensions() {
    let mut store = Store::new();
    store.enqueue(Command::CreatePaneWithDatasets { dataset_keys: keys(&["k"]) });
    let report = store.process();
    let attrs = store.get_pane(report.created[0].1).unwrap();
    assert_eq!(attrs.width, 100);
    assert_eq!(attrs.height, 200);
}

#[test]
fn deleted_pane_handle_is_not_reused() {
    let mut store = Store::new();
    store.enqueue(Command::CreatePaneWithDatasets { dataset_keys: keys(&["k"]) });
    let first = store.process();
    let old_pane = first.created[0].1;
    store.enqueue(Command::DeletePane { pane: old_pane });
    store.enqueue(Command::CreatePaneWithDatasets { dataset_keys: keys(&["k"]) });
    let second = store.process();
    assert_ne!(second.created[0].1, old_pane);
    assert!(store.get_pane(old_pane).is_err());
}

#[test]
fn delete_same_pane_twice_in_one_batch_fails_second_time() {
    let mut store = Store::new();
    store.enqueue(Command::CreatePaneWithDatasets { dataset_keys: keys(&["k"]) });
    let report = store.process();
    let pane = report.created[0].1;
    store.enqueue(Command::DeletePane { pane });
    store.enqueue(Command::DeletePane { pane });
    let report = store.process();
    assert_eq!(report.deleted, vec![pane]);
    assert_eq!(report.errors.len(), 1);
    assert_eq!(report.errors[0].1, ErrorKind::NotFound);
}

#[test]
fn lookup_unknown_key_is_none() {
    let store = Store::new();
    assert!(store.lookup_dataset(&"nothing".to_string()).is_none());
}

#[test]
fn can_process_holds_for_small_stores() {
    let mut store = Store::new();
    store.enqueue(Command::CreatePaneWithDatasets { dataset_keys: keys(&["a", "b"]) });
    assert!(store.can_process());
}

#[test]
fn dumps_mention_every_key_and_pane() {
    let (store, panes) = scenario_a_store();
    let by_dataset = store.dump_by_dataset();
    for name in ["t1", "h1", "p1"] {
        assert!(by_dataset.contains(name));
    }
    let by_pane = store.dump_panes();
    assert!(by_pane.contains("100x200"));
    for p in &panes {
        assert!(by_pane.contains(&p.id().to_string()));
    }
}

#[test]
fn creation_log_tracks_live_panes_only() {
    let (mut store, panes) = scenario_a_store();
    let log = store.created_panes();
    assert_eq!(log.len(), 3);
    assert_eq!(log[0].0, panes[0]);
    assert_eq!(log[0].1, keys(&["t1", "h1"]));
    assert_eq!(log[2].1, keys(&["t1", "p1"]));
    store.enqueue(Command::DeletePane { pane: panes[1] });
    store.process();
    let log = store.created_panes();
    assert_eq!(log.len(), 2);
    assert_eq!(log[0].0, panes[0]);
    assert_eq!(log[1].0, panes[2]);
}

#[test]
fn dump_text_is_exactly_the_rendered_projection() {
    let mut store = Store::new();
    store.enqueue(Command::CreatePaneWithDatasets { dataset_keys: keys(&["k"]) });
    store.process();
    assert_eq!(
        store.dump_by_dataset(),
        "=== Dataset Subscriptions ===\nDataset 1: \"k\"\n  Subscribed by 1 panes: 0\n"
    );
    assert_eq!(
        store.dump_panes(),
        "=== Panes ===\nPane 0: 100x200\n  Uses 1 datasets: 1\n"
    );
}

#[test]
fn dumps_of_an_empty_store_hold_only_the_headers() {
    let store = Store::new();
    assert_eq!(store.dump_by_dataset(), "=== Dataset Subscriptions ===\n");
    assert_eq!(store.dump_panes(), "=== Panes ===\n");
}

#[test]
fn dump_marks_a_pane_without_datasets() {
    let mut store = Store::new();
    store.enqueue(Command::CreatePaneWithDatasets { dataset_keys: keys(&[]) });
    store.process();
    assert_eq!(
        store.dump_panes(),
        "=== Panes ===\nPane 0: 100x200\n  Uses no datasets\n"
    );
}

#[test]
fn projections_list_each_entity_once_with_its_relation() {
    let (store, panes) = scenario_a_store();
    let by_dataset = store.by_dataset_entries();
    assert_eq!(by_dataset.len(), 3);
    for (handle, key, subscribers) in &by_dataset {
        assert_eq!(store.lookup_dataset(key), Some(*handle));
        assert_eq!(store.panes_of(*handle), *subscribers);
    }
    let by_pane = store.pane_entries();
    assert_eq!(by_pane.len(), 3);
    for (handle, attrs, used) in &by_pane {
        assert!(panes.contains(handle));
        assert_eq!((attrs.width, attrs.height), (100, 200));
        assert_eq!(store.datasets_of(*handle), *used);
    }
}

#[test]
fn repeated_key_at_any_position_gives_same_dataset_set() {
    let mut plain = Store::new();
    plain.enqueue(Command::CreatePaneWithDatasets { dataset_keys: keys(&["a", "b"]) });
    let plain_pane = plain.process().created[0].1;
    let mut repeated = Store::new();
    repeated.enqueue(Command::CreatePaneWithDatasets { dataset_keys: keys(&["b", "a", "b"]) });
    let repeated_pane = repeated.process().created[0].1;
    let mut plain_ids: Vec<u64> = plain.datasets_of(plain_pane).iter().map(|d| d.id()).collect();
    let mut repeated_ids: Vec<u64> =
        repeated.datasets_of(repeated_pane).iter().map(|d| d.id()).collect();
    plain_ids.sort();
    repeated_ids.sort();
    assert_eq!(plain_ids, repeated_ids);
    assert_eq!(plain.dataset_count(), repeated.dataset_count());
}
