use traf::app::{App, InstanceType};
use traf::file_backup::FileBackup;
use traf::replicator::{ReaderList, Replicator};
use traf::response_frame::ResponseFrame;
use traf::storage::Storage;

fn instance(role: InstanceType, last_replica_id: Option<u64>) -> App {
    App::new(
        role,
        last_replica_id,
        FileBackup::new("/tmp".to_string()),
        Replicator::new("/tmp".to_string(), ReaderList::new(vec![])),
    )
}

fn chunk(number: u64, command: &[u8]) -> Vec<u8> {
    let mut bytes = (command.len() as u64).to_be_bytes().to_vec();
    bytes.extend_from_slice(&number.to_be_bytes());
    bytes.extend_from_slice(command);
    bytes
}

fn sync(chunks: &[Vec<u8>]) -> Vec<u8> {
    let mut request = b"SYNC ".to_vec();
    for chunk in chunks {
        request.extend_from_slice(chunk);
    }
    request
}

fn restart(app: &App) -> Storage {
    let mut storage = Storage::new();
    app.backup().restore(&mut storage);
    storage
}

#[test]
fn writer_logs_first_set_as_event_zero() {
    let mut app = instance(InstanceType::Writer, None);
    let outcome = app.execute(b"SET foo bar".to_vec());
    assert_eq!(outcome.response, ResponseFrame::Success);
    assert!(outcome.persist_backup);
    let mut event = vec![0u8, 0, 0, 0, 0, 0, 0, 11, 0, 0, 0, 0, 0, 0, 0, 0];
    event.extend_from_slice(b"SET foo bar");
    let added = outcome.event.unwrap();
    assert_eq!(added.event_bytes, event);
    assert_eq!(added.pointer_bytes, vec![0u8; 8]);
    assert_eq!(app.replicator().event_log().events(), &event);
    assert_eq!(app.replicator().event_log().pointers(), &vec![0u8; 8]);
}

#[test]
fn writer_set_twice_then_get_gives_the_latest() {
    let mut app = instance(InstanceType::Writer, None);
    assert_eq!(app.execute(b"SET foo bar".to_vec()).response, ResponseFrame::Success);
    assert_eq!(app.execute(b"SET foo baz".to_vec()).response, ResponseFrame::Success);
    let outcome = app.execute(b"GET foo".to_vec());
    assert_eq!(outcome.response, ResponseFrame::Value(b"baz".to_vec()));
    assert!(!outcome.persist_backup);
    assert!(outcome.event.is_none());
    assert!(outcome.retired.is_empty());
}

#[test]
fn writer_set_delete_get_finds_nothing() {
    let mut app = instance(InstanceType::Writer, None);
    assert_eq!(app.execute(b"SET foo bar".to_vec()).response, ResponseFrame::Success);
    let outcome = app.execute(b"DELETE foo".to_vec());
    assert_eq!(outcome.response, ResponseFrame::Success);
    assert_eq!(outcome.event.unwrap().event_bytes, chunk(1, b"DELETE foo"));
    assert_eq!(app.execute(b"GET foo".to_vec()).response, ResponseFrame::ValueMissing);
}

#[test]
fn writer_delete_of_a_missing_key_is_no_event() {
    let mut app = instance(InstanceType::Writer, None);
    let outcome = app.execute(b"DELETE foo".to_vec());
    assert_eq!(outcome.response, ResponseFrame::ValueMissing);
    assert!(outcome.event.is_none());
    assert!(!outcome.persist_backup);
    assert!(app.replicator().event_log().events().is_empty());
}

#[test]
fn reader_tells_its_last_applied_event() {
    let mut app = instance(InstanceType::Reader, None);
    assert_eq!(app.execute(b"LAST_REPLICATION_ID".to_vec()).response, ResponseFrame::ValueMissing);
    let outcome = app.execute(sync(&[chunk(0, b"SET k v")]));
    assert_eq!(outcome.response, ResponseFrame::Success);
    assert!(outcome.persist_backup);
    assert!(outcome.event.is_none());
    assert_eq!(
        app.execute(b"LAST_REPLICATION_ID".to_vec()).response,
        ResponseFrame::Value(vec![0u8; 8])
    );
    assert_eq!(app.execute(b"GET k".to_vec()).response, ResponseFrame::Value(b"v".to_vec()));
    assert_eq!(app.last_replica_id(), Some(0));
}

#[test]
fn reader_skips_a_sync_of_old_events() {
    let mut app = instance(InstanceType::Reader, Some(7));
    let outcome = app.execute(sync(&[chunk(5, b"SET k v")]));
    assert_eq!(outcome.response, ResponseFrame::Success);
    assert!(!outcome.persist_backup);
    assert_eq!(app.last_replica_id(), Some(7));
    assert_eq!(app.execute(b"GET k".to_vec()).response, ResponseFrame::ValueMissing);
    assert_eq!(
        app.execute(b"LAST_REPLICATION_ID".to_vec()).response,
        ResponseFrame::Value(vec![0, 0, 0, 0, 0, 0, 0, 7])
    );
}

#[test]
fn reader_refuses_set() {
    let mut app = instance(InstanceType::Reader, None);
    let outcome = app.execute(b"SET x y".to_vec());
    assert_eq!(outcome.response, ResponseFrame::ErrorInvalidCommand);
    assert!(!outcome.persist_backup);
    assert!(outcome.event.is_none());
    assert_eq!(app.execute(b"GET x".to_vec()).response, ResponseFrame::ValueMissing);
    assert_eq!(app.execute(b"DELETE x".to_vec()).response, ResponseFrame::ErrorInvalidCommand);
}

#[test]
fn writer_refuses_to_tell_a_last_applied_event() {
    let mut app = instance(InstanceType::Writer, Some(3));
    assert_eq!(
        app.execute(b"LAST_REPLICATION_ID".to_vec()).response,
        ResponseFrame::ErrorInvalidCommand
    );
}

#[test]
fn invalid_requests_are_refused_by_both_roles() {
    for role in [InstanceType::Reader, InstanceType::Writer] {
        let mut app = instance(role, None);
        for request in [&b""[..], b"NOPE", b"SET foo", b"GET", b"get foo"] {
            let outcome = app.execute(request.to_vec());
            assert_eq!(outcome.response, ResponseFrame::ErrorInvalidCommand);
            assert!(outcome.event.is_none());
            assert!(!outcome.persist_backup);
        }
    }
}

#[test]
fn malformed_sync_leaves_the_reader_as_it_was() {
    let mut app = instance(InstanceType::Reader, Some(2));
    let mut request = sync(&[chunk(3, b"SET k v")]);
    request.push(0);
    let outcome = app.execute(request);
    assert_eq!(outcome.response, ResponseFrame::ErrorInvalidCommand);
    assert!(!outcome.persist_backup);
    assert_eq!(app.last_replica_id(), Some(2));
    assert_eq!(app.execute(b"GET k".to_vec()).response, ResponseFrame::ValueMissing);
}

#[test]
fn role_is_kept() {
    let mut app = instance(InstanceType::Writer, None);
    assert!(!app.is_read_only());
    app.execute(b"SET a 1".to_vec());
    assert_eq!(app.instance_type(), InstanceType::Writer);
    assert!(instance(InstanceType::Reader, None).is_read_only());
}

#[test]
fn restart_restores_the_store_of_a_writer() {
    let mut app = instance(InstanceType::Writer, None);
    for i in 0..40u32 {
        let mut request = format!("SET key{} ", i).into_bytes();
        request.extend(vec![i as u8; (i % 9) as usize + 1]);
        assert_eq!(app.execute(request).response, ResponseFrame::Success);
    }
    for i in (0..40u32).step_by(4) {
        let request = format!("DELETE key{}", i).into_bytes();
        assert_eq!(app.execute(request).response, ResponseFrame::Success);
    }
    let storage = restart(&app);
    for i in 0..40u32 {
        let key = format!("key{}", i);
        assert_eq!(storage.get(key.clone()), app.storage().get(key));
        let expected = if i % 4 == 0 { None } else { Some(vec![i as u8; (i % 9) as usize + 1]) };
        assert_eq!(app.storage().get(format!("key{}", i)).cloned(), expected);
    }
    assert_eq!(app.replicator().event_log().next_event_log_number(), 50);
}

#[test]
fn restart_restores_the_store_of_a_reader() {
    let mut app = instance(InstanceType::Reader, None);
    let outcome = app.execute(sync(&[
        chunk(0, b"SET a 1"),
        chunk(1, b"SET b 0123456789abcdef0123456789abcdef"),
        chunk(2, b"DELETE a"),
        chunk(3, b"GET b"),
    ]));
    assert_eq!(outcome.response, ResponseFrame::Success);
    assert_eq!(app.last_replica_id(), Some(3));
    let storage = restart(&app);
    assert_eq!(storage.get("a".to_string()), None);
    assert_eq!(storage.get("b".to_string()), Some(&b"0123456789abcdef0123456789abcdef".to_vec()));
    assert!(!outcome.retired.is_empty());
    for name in &outcome.retired {
        assert!(!app.backup().shard_names().contains(name));
    }
}

#[test]
fn writer_applies_a_sync_without_logging_events() {
    let mut app = instance(InstanceType::Writer, None);
    let outcome = app.execute(sync(&[chunk(0, b"SET a 1")]));
    assert_eq!(outcome.response, ResponseFrame::Success);
    assert!(outcome.event.is_none());
    assert_eq!(app.execute(b"GET a".to_vec()).response, ResponseFrame::Value(b"1".to_vec()));
    assert!(app.replicator().event_log().events().is_empty());
}

#[test]
fn split_shards_are_reported_as_retired() {
    let mut app = instance(InstanceType::Writer, None);
    let before = app.backup().shard_names();
    let outcome = app.execute(b"SET big 0123456789abcdef0123456789".to_vec());
    assert_eq!(outcome.retired, before);
    assert_eq!(app.backup().shard_count(), 2);
    assert_eq!(outcome.written, app.backup().shard_names());
}

#[test]
fn only_the_shard_of_the_key_is_to_be_written() {
    let mut backup = FileBackup::new("/tmp".to_string());
    backup.split_shard(0, "left".to_string(), "right".to_string());
    let mut app = App::new(
        InstanceType::Writer,
        None,
        backup,
        Replicator::new("/tmp".to_string(), ReaderList::new(vec![])),
    );
    for key in ["a", "b", "c", "d", "e"] {
        let owner = app.backup().shard_registry().index_for_key(&key.to_string());
        let mut request = b"SET ".to_vec();
        request.extend_from_slice(key.as_bytes());
        request.extend_from_slice(b" v");
        let outcome = app.execute(request);
        assert!(outcome.persist_backup);
        assert_eq!(outcome.written, vec![["left", "right"][owner].to_string()]);
        assert!(outcome.retired.is_empty());
    }
    assert_eq!(app.backup().shard_names(), vec!["left".to_string(), "right".to_string()]);
    let outcome = app.execute(b"GET a".to_vec());
    assert!(outcome.written.is_empty());
    assert!(!outcome.persist_backup);
}

#[test]
fn sync_names_every_shard_it_wrote_to() {
    let mut app = instance(InstanceType::Reader, None);
    let outcome = app.execute(sync(&[
        chunk(0, b"SET a 0123456789abcdef0123456789"),
        chunk(1, b"SET b 1"),
        chunk(2, b"SET c 2"),
        chunk(3, b"SET d 3"),
    ]));
    let names = app.backup().shard_names();
    for name in &outcome.written {
        assert!(names.contains(name));
    }
    for key in ["a", "b", "c", "d"] {
        let owner = app.backup().shard_registry().index_for_key(&key.to_string());
        assert!(outcome.written.contains(&names[owner]));
    }
}

#[test]
fn new_instance_restores_from_its_backup() {
    let mut backup = FileBackup::new("/tmp".to_string());
    backup.log(&traf::interpreter::Command::SetValue { key: "a".to_string(), value: b"1".to_vec() });
    let mut app = App::new(
        InstanceType::Reader,
        Some(4),
        backup,
        Replicator::new("/tmp".to_string(), ReaderList::new(vec![])),
    );
    assert_eq!(app.execute(b"GET a".to_vec()).response, ResponseFrame::Value(b"1".to_vec()));
    assert_eq!(app.last_replica_id(), Some(4));
}
