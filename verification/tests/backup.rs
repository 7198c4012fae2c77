use traf::backup_keys::{
    append_bytes_with_same_size_padding, BackupKey, BackupKeyInfo, BackupKeys, Shard,
};
use traf::changeset::Changeset;
use traf::file_backup::FileBackup;
use traf::interpreter::Command;
use traf::shard_registry::{
    generate_random_name, hash_for_key, ShardFileInfo, ShardRegistry,
};
use traf::storage::Storage;

fn set(key: &str, value: &[u8]) -> Command {
    Command::SetValue { key: key.to_string(), value: value.to_vec() }
}

fn delete(key: &str) -> Command {
    Command::Delete { key: key.to_string() }
}

fn restored(backup: &FileBackup) -> Storage {
    let mut storage = Storage::new();
    backup.restore(&mut storage);
    storage
}

fn info_of(shard: &Shard, key: &str) -> Option<BackupKeyInfo> {
    shard.keys().find(&key.to_string()).map(|at| shard.keys().entry(at).info)
}

fn owner_count(backup: &FileBackup, hash: u64) -> usize {
    let registry = backup.shard_registry();
    (0..registry.len())
        .filter(|i| {
            let info = registry.file(*i).info;
            hash % info.mod_base == info.mod_value
        })
        .count()
}

#[test]
fn random_name_is_sixteen_lowercase_letters() {
    for _ in 0..50 {
        let name = generate_random_name();
        assert_eq!(name.len(), 16);
        assert!(name.bytes().all(|b| (b'a'..b'z').contains(&b)));
    }
}

#[test]
fn random_names_differ() {
    assert_ne!(generate_random_name(), generate_random_name());
}

#[test]
fn key_hash_is_stable() {
    assert_eq!(hash_for_key(&"foo".to_string()), hash_for_key(&"foo".to_string()));
    assert_ne!(hash_for_key(&"foo".to_string()), hash_for_key(&"bar".to_string()));
}

#[test]
fn padding_is_as_long_as_the_bytes() {
    let mut v = vec![9u8];
    append_bytes_with_same_size_padding(&mut v, &vec![1, 2, 3]);
    assert_eq!(v, vec![9, 1, 2, 3, 0, 0, 0]);
    append_bytes_with_same_size_padding(&mut v, &vec![]);
    assert_eq!(v.len(), 7);
}

#[test]
fn value_range_is_the_content_of_the_slot() {
    let info = BackupKeyInfo::new(3, 6, 10);
    assert_eq!(info.value_range(), 10..13);
}

#[test]
fn useful_size_is_the_largest_slot_end() {
    assert_eq!(BackupKeys::default().size(), 0);
    let keys = BackupKeys::from_entries(vec![
        BackupKey { key: "a".to_string(), info: BackupKeyInfo::new(1, 2, 0) },
        BackupKey { key: "b".to_string(), info: BackupKeyInfo::new(3, 6, 10) },
        BackupKey { key: "c".to_string(), info: BackupKeyInfo::new(1, 1, 4) },
    ]);
    assert_eq!(keys.size(), 16);
}

#[test]
fn new_key_gets_a_slot_twice_its_size_at_the_end() {
    let mut shard = Shard::new();
    shard.store(&"foo".to_string(), &b"bar".to_vec());
    assert_eq!(info_of(&shard, "foo"), Some(BackupKeyInfo::new(3, 6, 0)));
    assert_eq!(shard.values(), &vec![b'b', b'a', b'r', 0, 0, 0]);
    shard.store(&"k".to_string(), &b"vv".to_vec());
    assert_eq!(info_of(&shard, "k"), Some(BackupKeyInfo::new(2, 4, 6)));
    assert_eq!(shard.values().len(), 10);
    assert_eq!(shard.useful_size(), 10);
}

#[test]
fn value_that_fits_is_written_in_place() {
    let mut shard = Shard::new();
    shard.store(&"foo".to_string(), &b"bar".to_vec());
    shard.store(&"k".to_string(), &b"vv".to_vec());
    shard.store(&"foo".to_string(), &b"sixsix".to_vec());
    assert_eq!(info_of(&shard, "foo"), Some(BackupKeyInfo::new(6, 6, 0)));
    assert_eq!(&shard.values()[..6], b"sixsix");
    shard.store(&"foo".to_string(), &b"x".to_vec());
    assert_eq!(info_of(&shard, "foo"), Some(BackupKeyInfo::new(1, 6, 0)));
    assert_eq!(&shard.values()[..6], b"xixsix");
    assert_eq!(info_of(&shard, "k"), Some(BackupKeyInfo::new(2, 4, 6)));
    assert_eq!(&shard.values()[6..8], b"vv");
    assert_eq!(shard.values().len(), 10);
}

#[test]
fn value_that_outgrows_its_slot_moves_to_the_end() {
    let mut shard = Shard::new();
    shard.store(&"foo".to_string(), &b"bar".to_vec());
    shard.store(&"foo".to_string(), &b"sevenby".to_vec());
    assert_eq!(info_of(&shard, "foo"), Some(BackupKeyInfo::new(7, 14, 6)));
    assert_eq!(shard.values().len(), 20);
    assert_eq!(&shard.values()[6..13], b"sevenby");
    assert_eq!(shard.keys().len(), 1);
}

#[test]
fn empty_value_gets_an_empty_slot() {
    let mut shard = Shard::new();
    shard.store(&"e".to_string(), &vec![]);
    assert_eq!(info_of(&shard, "e"), Some(BackupKeyInfo::new(0, 0, 0)));
    shard.store(&"e".to_string(), &b"x".to_vec());
    assert_eq!(info_of(&shard, "e"), Some(BackupKeyInfo::new(1, 2, 0)));
}

#[test]
fn removed_key_leaves_its_slot_behind() {
    let mut shard = Shard::new();
    shard.store(&"foo".to_string(), &b"bar".to_vec());
    shard.remove_key(&"foo".to_string());
    shard.remove_key(&"never".to_string());
    assert_eq!(shard.keys().len(), 0);
    assert_eq!(shard.values().len(), 6);
    assert_eq!(shard.useful_size(), 0);
}

#[test]
fn changeset_keeps_the_latest_value_and_forgets_deleted_updates() {
    let mut changes = Changeset::default();
    changes.record_set("a".to_string(), b"1".to_vec());
    changes.record_set("b".to_string(), b"2".to_vec());
    changes.record_set("a".to_string(), b"3".to_vec());
    assert_eq!(changes.updates_len(), 2);
    assert_eq!(changes.update(0).key, "a");
    assert_eq!(changes.update(0).value, b"3".to_vec());
    changes.record_delete("a".to_string());
    changes.record_delete("a".to_string());
    changes.record_delete("c".to_string());
    assert_eq!(changes.updates_len(), 1);
    assert_eq!(changes.update(0).key, "b");
    assert_eq!(changes.removals_len(), 2);
    assert_eq!(changes.removal(0), "a");
    assert_eq!(changes.removal(1), "c");
}

#[test]
fn flush_removes_first_and_updates_after() {
    let mut shard = Shard::new();
    shard.store(&"a".to_string(), &b"old".to_vec());
    shard.store(&"b".to_string(), &b"old".to_vec());
    let mut changes = Changeset::default();
    changes.record_delete("a".to_string());
    changes.record_delete("b".to_string());
    changes.record_set("b".to_string(), b"new".to_vec());
    shard.apply_changeset(&changes);
    let mut storage = Storage::new();
    shard.restore_into(&mut storage);
    assert_eq!(storage.get("a".to_string()), None);
    assert_eq!(storage.get("b".to_string()), Some(&b"new".to_vec()));
    assert_eq!(info_of(&shard, "b"), Some(BackupKeyInfo::new(3, 6, 12)));
}

#[test]
fn shard_check_accepts_what_store_builds() {
    let mut shard = Shard::new();
    shard.store(&"a".to_string(), &b"one".to_vec());
    shard.store(&"b".to_string(), &b"three".to_vec());
    shard.store(&"a".to_string(), &b"a longer one".to_vec());
    let entries: Vec<BackupKey> =
        (0..shard.keys().len()).map(|i| shard.keys().entry(i).clone()).collect();
    let again = Shard::from_parts(BackupKeys::from_entries(entries), shard.values().clone());
    assert!(again.is_some());
}

#[test]
fn shard_check_refuses_bad_slots() {
    let entry = |key: &str, content: usize, capacity: usize, pos: usize| BackupKey {
        key: key.to_string(),
        info: BackupKeyInfo::new(content, capacity, pos),
    };
    let values = vec![0u8; 10];
    let ok = |entries: Vec<BackupKey>| Shard::check(&BackupKeys::from_entries(entries), &values);
    assert!(ok(vec![]));
    assert!(ok(vec![entry("a", 2, 4, 0), entry("b", 6, 6, 4)]));
    assert!(!ok(vec![entry("a", 2, 4, 0), entry("a", 6, 6, 4)]));
    assert!(!ok(vec![entry("a", 5, 4, 0)]));
    assert!(!ok(vec![entry("a", 2, 4, 7)]));
    assert!(!ok(vec![entry("a", 2, 4, usize::MAX)]));
    assert!(!ok(vec![entry("a", 2, usize::MAX, 1)]));
    assert!(!ok(vec![entry("a", 2, 4, 0), entry("b", 2, 4, 3)]));
    assert!(!ok(vec![entry("a", 2, 4, 3), entry("b", 2, 4, 0)]));
}

#[test]
fn split_routes_each_key_by_its_hash() {
    let mut shard = Shard::new();
    let keys: Vec<String> = (0..40).map(|i| format!("key{}", i)).collect();
    for key in &keys {
        shard.store(key, &key.as_bytes().to_vec());
    }
    let lhs = ShardFileInfo::new(2, 0);
    let (left, right) = shard.split(lhs);
    assert_eq!(left.keys().len() + right.keys().len(), 40);
    for key in &keys {
        let goes_left = hash_for_key(key) % 2 == 0;
        assert_eq!(left.keys().find(key).is_some(), goes_left);
        assert_eq!(right.keys().find(key).is_some(), !goes_left);
        let half = if goes_left { &left } else { &right };
        let info = info_of(half, key).unwrap();
        assert_eq!(info.content_size, key.len());
        assert_eq!(info.capacity, 2 * key.len());
        assert_eq!(&half.values()[info.value_range()], key.as_bytes());
    }
    assert_eq!(left.useful_size(), left.values().len());
    assert_eq!(right.useful_size(), right.values().len());
}

#[test]
fn fresh_registry_has_one_shard_for_all_keys() {
    let registry = ShardRegistry::new(32);
    assert_eq!(registry.len(), 1);
    assert_eq!(registry.shard_break_limit(), 32);
    assert_eq!(registry.file(0).info, ShardFileInfo::new(1, 0));
    assert_eq!(registry.file(0).filehash.len(), 16);
    assert_eq!(registry.filehash_for_key(&"any".to_string()), registry.file(0).filehash);
}

#[test]
fn registry_split_doubles_the_base() {
    let mut registry = ShardRegistry::with_first_shard("first".to_string(), 32);
    assert!(registry.check_split(0, &"l".to_string(), &"r".to_string()));
    assert!(!registry.check_split(0, &"l".to_string(), &"l".to_string()));
    assert!(!registry.check_split(0, &"first".to_string(), &"r".to_string()));
    assert!(!registry.check_split(0, &"l".to_string(), &"first".to_string()));
    registry.split(0, "l".to_string(), "r".to_string());
    assert_eq!(registry.len(), 2);
    assert_eq!(registry.file(0).info, ShardFileInfo::new(2, 0));
    assert_eq!(registry.file(1).info, ShardFileInfo::new(2, 1));
    registry.split(1, "rl".to_string(), "rr".to_string());
    assert_eq!(registry.len(), 3);
    assert_eq!(registry.file(0).filehash, "l");
    assert_eq!(registry.file(1).filehash, "rl");
    assert_eq!(registry.file(1).info, ShardFileInfo::new(4, 1));
    assert_eq!(registry.file(2).filehash, "rr");
    assert_eq!(registry.file(2).info, ShardFileInfo::new(4, 3));
    assert_eq!(registry.index_of(&"rr".to_string()), Some(2));
    assert_eq!(registry.index_of(&"first".to_string()), None);
    for hash in [0u64, 1, 2, 3, 4, 5, 6, 7, u64::MAX] {
        let expected = if hash % 2 == 0 { 0 } else if hash % 4 == 1 { 1 } else { 2 };
        assert_eq!(registry.index_for_hash(hash), expected);
    }
}

#[test]
fn fresh_backup_stores_nothing() {
    let backup = FileBackup::new("/tmp".to_string());
    assert_eq!(backup.dir(), "/tmp");
    assert_eq!(backup.shard_count(), 1);
    assert_eq!(backup.shard_registry().shard_break_limit(), 32);
    assert_eq!(backup.shard_at(0).keys().len(), 0);
    assert_eq!(restored(&backup).get("foo".to_string()), None);
}

#[test]
fn backup_restores_what_was_logged() {
    let mut backup = FileBackup::new("/tmp".to_string());
    backup.log(&set("foo", b"bar"));
    backup.log(&set("k", b"v"));
    backup.log(&set("foo", b"baz"));
    backup.log(&delete("k"));
    backup.log(&Command::Get { key: "foo".to_string() });
    backup.log(&Command::Invalid);
    let storage = restored(&backup);
    assert_eq!(storage.get("foo".to_string()), Some(&b"baz".to_vec()));
    assert_eq!(storage.get("k".to_string()), None);
}

#[test]
fn delete_of_a_key_never_set_is_logged_without_harm() {
    let mut backup = FileBackup::new("/tmp".to_string());
    backup.log(&delete("ghost"));
    backup.log(&set("a", b"1"));
    backup.log(&delete("ghost"));
    assert_eq!(restored(&backup).get("a".to_string()), Some(&b"1".to_vec()));
}

#[test]
fn shard_below_the_break_limit_is_not_split() {
    let mut backup = FileBackup::new("/tmp".to_string());
    backup.log(&set("foo", b"0123456789abcde"));
    assert_eq!(backup.shard_count(), 1);
    assert_eq!(backup.shard_at(0).useful_size(), 30);
}

#[test]
fn shard_at_the_break_limit_is_split_in_two() {
    let mut backup = FileBackup::new("/tmp".to_string());
    let before = backup.shard_names();
    backup.log(&set("foo", b"0123456789abcdef"));
    assert_eq!(backup.shard_count(), 2);
    let registry = backup.shard_registry();
    assert_eq!(registry.file(0).info, ShardFileInfo::new(2, 0));
    assert_eq!(registry.file(1).info, ShardFileInfo::new(2, 1));
    let owner = (hash_for_key(&"foo".to_string()) % 2) as usize;
    assert_eq!(info_of(backup.shard_at(owner), "foo"), Some(BackupKeyInfo::new(16, 32, 0)));
    assert_eq!(backup.shard_at(1 - owner).keys().len(), 0);
    assert_eq!(backup.retired_names(&before), before);
    assert!(backup.retired_names(&backup.shard_names()).is_empty());
    assert_eq!(restored(&backup).get("foo".to_string()), Some(&b"0123456789abcdef".to_vec()));
}

#[test]
fn oversized_value_is_split_again_at_every_flush_with_an_empty_partner() {
    let mut backup = FileBackup::new("/tmp".to_string());
    backup.log(&set("big", &[7u8; 40]));
    assert_eq!(backup.shard_count(), 2);
    backup.log(&Command::Invalid);
    assert_eq!(backup.shard_count(), 3);
    backup.log(&Command::Invalid);
    assert_eq!(backup.shard_count(), 4);
    let holders: Vec<usize> =
        (0..4).filter(|i| backup.shard_at(*i).keys().len() > 0).collect();
    assert_eq!(holders.len(), 1);
    assert_eq!(backup.shard_registry().file(holders[0]).info.mod_base, 8);
    assert_eq!(holders[0], backup.shard_registry().index_for_key(&"big".to_string()));
    assert_eq!(restored(&backup).get("big".to_string()), Some(&vec![7u8; 40]));
}

#[test]
fn every_hash_has_one_owner_after_many_splits() {
    let mut backup = FileBackup::new("/tmp".to_string());
    let mut expected: Vec<(String, Vec<u8>)> = Vec::new();
    for i in 0..60u32 {
        let key = format!("key-{}", i);
        let value = vec![i as u8; (i % 13) as usize];
        backup.log(&set(&key, &value));
        expected.push((key, value));
    }
    for i in (0..60u32).step_by(3) {
        backup.log(&delete(&format!("key-{}", i)));
    }
    assert!(backup.shard_count() > 1);
    for probe in 0..2000u64 {
        let hash = probe.wrapping_mul(0x9E37_79B9_7F4A_7C15);
        assert_eq!(owner_count(&backup, hash), 1);
    }
    let storage = restored(&backup);
    for (i, (key, value)) in expected.iter().enumerate() {
        let owner = backup.shard_registry().index_for_key(key);
        if i % 3 == 0 {
            assert_eq!(storage.get(key.clone()), None);
            assert!(backup.shard_at(owner).keys().find(key).is_none());
        } else {
            assert_eq!(storage.get(key.clone()), Some(value));
            assert!(backup.shard_at(owner).keys().find(key).is_some());
        }
    }
    let names = backup.shard_names();
    for (i, name) in names.iter().enumerate() {
        assert!(!names[..i].contains(name));
    }
}

#[test]
fn log_marks_the_shards_it_changed() {
    let mut backup = FileBackup::new("/tmp".to_string());
    assert!(backup.touched_names().is_empty());
    backup.log(&set("a", b"1"));
    assert_eq!(backup.touched_names(), backup.shard_names());
    backup.log(&Command::Get { key: "a".to_string() });
    assert!(backup.touched_names().is_empty());
    backup.log(&set("big", b"0123456789abcdef0123456789"));
    assert_eq!(backup.shard_count(), 2);
    assert_eq!(backup.touched_names(), backup.shard_names());
    assert_eq!(backup.present_names(&vec!["nope".to_string()]), Vec::<String>::new());
    assert_eq!(backup.present_names(&backup.shard_names()), backup.shard_names());
}

#[test]
fn restore_overwrites_what_the_store_held() {
    let mut backup = FileBackup::new("/tmp".to_string());
    backup.log(&set("a", b"from backup"));
    let mut storage = Storage::new();
    storage.set("a".to_string(), b"stale".to_vec());
    storage.set("b".to_string(), b"kept".to_vec());
    backup.restore(&mut storage);
    assert_eq!(storage.get("a".to_string()), Some(&b"from backup".to_vec()));
    assert_eq!(storage.get("b".to_string()), Some(&b"kept".to_vec()));
}

#[test]
fn split_shard_moves_keys_to_the_halves() {
    let mut backup = FileBackup::new("/tmp".to_string());
    backup.log(&set("a", b"1"));
    backup.log(&set("b", b"2"));
    backup.log(&set("c", b"3"));
    assert_eq!(backup.shard_count(), 1);
    assert!(backup.check_split(0, &"left".to_string(), &"right".to_string()));
    backup.split_shard(0, "left".to_string(), "right".to_string());
    assert_eq!(backup.shard_names(), vec!["left".to_string(), "right".to_string()]);
    for key in ["a", "b", "c"] {
        let owner = (hash_for_key(&key.to_string()) % 2) as usize;
        assert!(backup.shard_at(owner).keys().find(&key.to_string()).is_some());
        assert!(backup.shard_at(1 - owner).keys().find(&key.to_string()).is_none());
    }
    let storage = restored(&backup);
    assert_eq!(storage.get("a".to_string()), Some(&b"1".to_vec()));
    assert_eq!(storage.get("b".to_string()), Some(&b"2".to_vec()));
    assert_eq!(storage.get("c".to_string()), Some(&b"3".to_vec()));
}
