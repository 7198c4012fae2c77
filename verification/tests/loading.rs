use traf::backup_keys::{BackupKey, BackupKeys, Shard};
use traf::file_backup::FileBackup;
use traf::interpreter::Command;
use traf::registry_check::{check_files, is_pow2};
use traf::shard_registry::{ShardFile, ShardFileInfo, ShardRegistry};
use traf::storage::Storage;

fn file(name: &str, mod_base: u64, mod_value: u64) -> ShardFile {
    ShardFile { filehash: name.to_string(), info: ShardFileInfo::new(mod_base, mod_value) }
}

fn files_of(backup: &FileBackup) -> Vec<ShardFile> {
    let registry = backup.shard_registry();
    (0..registry.len()).map(|i| registry.file(i).clone()).collect()
}

fn shards_of(backup: &FileBackup, order: &[usize]) -> Vec<Shard> {
    order
        .iter()
        .map(|i| {
            let shard = backup.shard_at(*i);
            let entries: Vec<BackupKey> =
                (0..shard.keys().len()).map(|k| shard.keys().entry(k).clone()).collect();
            Shard::from_parts(BackupKeys::from_entries(entries), shard.values().clone()).unwrap()
        })
        .collect()
}

fn filled_backup() -> FileBackup {
    let mut backup = FileBackup::new("/tmp".to_string());
    for i in 0..30u32 {
        backup.log(&Command::SetValue { key: format!("k{}", i), value: vec![i as u8; 5] });
    }
    backup
}

#[test]
fn powers_of_two_are_told_apart() {
    for exponent in 0..64u32 {
        assert!(is_pow2(1u64 << exponent));
    }
    for other in [0u64, 3, 5, 6, 7, 9, 12, 100, u64::MAX, (1 << 40) + 1] {
        assert!(!is_pow2(other));
    }
}

#[test]
fn registry_check_accepts_trees_of_halvings_in_any_order() {
    assert!(check_files(&vec![file("a", 1, 0)]));
    assert!(check_files(&vec![file("a", 2, 0), file("b", 2, 1)]));
    assert!(check_files(&vec![file("b", 2, 1), file("a", 2, 0)]));
    assert!(check_files(&vec![file("a", 4, 3), file("b", 2, 0), file("c", 4, 1)]));
    assert!(check_files(&vec![
        file("a", 8, 5),
        file("b", 2, 0),
        file("c", 4, 3),
        file("d", 8, 1)
    ]));
}

#[test]
fn registry_check_refuses_what_is_no_partition() {
    assert!(!check_files(&vec![]));
    assert!(!check_files(&vec![file("a", 2, 0)]));
    assert!(!check_files(&vec![file("a", 2, 0), file("b", 2, 0)]));
    assert!(!check_files(&vec![file("a", 1, 0), file("b", 2, 0)]));
    assert!(!check_files(&vec![file("a", 1, 0), file("b", 1, 0)]));
    assert!(!check_files(&vec![file("a", 2, 0), file("a", 2, 1)]));
    assert!(!check_files(&vec![file("a", 0, 0)]));
    assert!(!check_files(&vec![file("a", 1, 1)]));
    assert!(!check_files(&vec![file("a", 3, 0), file("b", 3, 1), file("c", 3, 2)]));
    assert!(!check_files(&vec![file("a", 2, 0), file("b", 4, 1)]));
    assert!(!check_files(&vec![file("a", 2, 0), file("b", 4, 1), file("c", 4, 3), file("d", 4, 2)]));
    assert!(!check_files(&vec![file("a", 1 << 63, 0)]));
}

#[test]
fn registry_that_was_built_by_splits_loads_again() {
    let backup = filled_backup();
    let mut files = files_of(&backup);
    assert!(files.len() > 2);
    assert!(ShardRegistry::from_files(files.clone(), 32).is_some());
    files.reverse();
    let registry = ShardRegistry::from_files(files.clone(), 64).unwrap();
    assert_eq!(registry.len(), files.len());
    assert_eq!(registry.shard_break_limit(), 64);
    assert_eq!(registry.file(0), &files[0]);
    files.pop();
    assert!(ShardRegistry::from_files(files, 32).is_none());
}

#[test]
fn backup_that_was_written_loads_again_and_restores_the_same() {
    let backup = filled_backup();
    let count = backup.shard_count();
    let mut order: Vec<usize> = (0..count).collect();
    order.reverse();
    let files: Vec<ShardFile> = order.iter().map(|i| backup.shard_registry().file(*i).clone()).collect();
    let registry = ShardRegistry::from_files(files, 32).unwrap();
    let loaded = FileBackup::load("/data".to_string(), registry, shards_of(&backup, &order)).unwrap();
    assert_eq!(loaded.dir(), "/data");
    assert_eq!(loaded.shard_count(), count);
    let mut before = Storage::new();
    backup.restore(&mut before);
    let mut after = Storage::new();
    loaded.restore(&mut after);
    for i in 0..30u32 {
        let key = format!("k{}", i);
        assert_eq!(after.get(key.clone()), Some(&vec![i as u8; 5]));
        assert_eq!(after.get(key.clone()), before.get(key));
    }
}

#[test]
fn backup_with_a_key_in_the_wrong_shard_is_refused() {
    let backup = filled_backup();
    let count = backup.shard_count();
    let order: Vec<usize> = (0..count).collect();
    let registry = ShardRegistry::from_files(files_of(&backup), 32).unwrap();
    let mut shards = shards_of(&backup, &order);
    let holder = (0..count).find(|i| shards[*i].keys().len() > 0).unwrap();
    let other = (holder + 1) % count;
    shards.swap(holder, other);
    assert!(FileBackup::load("/tmp".to_string(), registry, shards).is_none());
}

#[test]
fn backup_with_a_missing_shard_is_refused() {
    let backup = filled_backup();
    let order: Vec<usize> = (0..backup.shard_count()).collect();
    let registry = ShardRegistry::from_files(files_of(&backup), 32).unwrap();
    let mut shards = shards_of(&backup, &order);
    shards.pop();
    assert!(FileBackup::load("/tmp".to_string(), registry, shards).is_none());
}

#[test]
fn backup_file_names() {
    assert_eq!(FileBackup::shard_registry_file_name(), "__traf_shards.db");
    assert_eq!(FileBackup::key_file_name("abcdefghijklmnop"), "__traf_keys_abcdefghijklmnop.db");
    assert_eq!(FileBackup::value_file_name("abcdefghijklmnop"), "__traf_values_abcdefghijklmnop.db");
}
