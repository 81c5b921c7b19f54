use std::collections::{BTreeMap, HashMap};

use stream_manager::checkpoint::{create_version_checkpoint, VersionCheckpoint};

fn log(entries: Vec<(u64, Vec<u64>)>) -> BTreeMap<u64, Vec<u64>> {
    entries.into_iter().collect()
}

fn checkpoint_at(version_id: u64) -> VersionCheckpoint {
    let mut stale: HashMap<u64, Vec<u64>> = HashMap::new();
    stale.insert(3, vec![30]);
    VersionCheckpoint { version_id, stale_objects: stale }
}

#[test]
fn checkpoint_not_due_changes_nothing() {
    let mut ckpt = checkpoint_at(10);
    let deltas = log(vec![(11, vec![1])]);
    assert_eq!(create_version_checkpoint(12, 5, &deltas, &mut ckpt), 0);
    assert_eq!(ckpt.version_id, 10);
    assert_eq!(ckpt.stale_objects.len(), 1);
    assert_eq!(ckpt.stale_objects[&3], vec![30]);
}

#[test]
fn checkpoint_folds_deltas_in_range() {
    let mut ckpt = checkpoint_at(10);
    let deltas = log(vec![
        (10, vec![100]),
        (11, vec![110, 111]),
        (12, vec![]),
        (13, vec![130]),
        (14, vec![140]),
    ]);
    assert_eq!(create_version_checkpoint(13, 2, &deltas, &mut ckpt), 3);
    assert_eq!(ckpt.version_id, 13);
    let stale = &ckpt.stale_objects;
    assert_eq!(stale.len(), 3);
    assert_eq!(stale[&3], vec![30]);
    assert_eq!(stale[&11], vec![110, 111]);
    assert_eq!(stale[&13], vec![130]);
    assert!(!stale.contains_key(&10));
    assert!(!stale.contains_key(&12));
    assert!(!stale.contains_key(&14));
}

#[test]
fn checkpoint_with_no_minimum_is_always_due() {
    let mut ckpt = checkpoint_at(10);
    assert_eq!(create_version_checkpoint(10, 0, &BTreeMap::new(), &mut ckpt), 0);
    assert_eq!(ckpt.version_id, 10);
    assert_eq!(ckpt.stale_objects.len(), 1);
}

#[test]
fn checkpoint_never_moves_back() {
    let mut ckpt = checkpoint_at(10);
    assert_eq!(create_version_checkpoint(7, 0, &log(vec![(8, vec![80])]), &mut ckpt), 0);
    assert_eq!(ckpt.version_id, 10);
    assert_eq!(ckpt.stale_objects.len(), 1);
}

#[test]
fn checkpoint_replaces_an_entry_of_a_compacted_version() {
    let mut ckpt = checkpoint_at(2);
    let deltas = log(vec![(3, vec![31, 32])]);
    assert_eq!(create_version_checkpoint(4, 1, &deltas, &mut ckpt), 2);
    assert_eq!(ckpt.stale_objects[&3], vec![31, 32]);
    assert_eq!(ckpt.stale_objects.len(), 1);
}
