use traf::interpreter::Command;
use traf::event_log::{sync_payload, EventLog};
use traf::replicator::{apply_sync, Reader, ReaderList, Replicator, SyncChunkList};
use traf::response_frame::ResponseFrame;
use traf::storage::Storage;

fn chunk(number: u64, command: &[u8]) -> Vec<u8> {
    let mut bytes = (command.len() as u64).to_be_bytes().to_vec();
    bytes.extend_from_slice(&number.to_be_bytes());
    bytes.extend_from_slice(command);
    bytes
}

fn set(key: &str, value: &[u8]) -> Command {
    Command::SetValue { key: key.to_string(), value: value.to_vec() }
}

fn addresses(list: &ReaderList) -> Vec<String> {
    list.0.iter().map(|reader| reader.addr().clone()).collect()
}

#[test]
fn dump_is_read_chunk_by_chunk() {
    let mut dump = chunk(0, b"SET k v");
    dump.extend(chunk(1, b"DELETE k"));
    dump.extend(chunk(7, b"nonsense"));
    let list = SyncChunkList::try_from(dump).ok().unwrap();
    assert_eq!(list.0.len(), 3);
    assert_eq!(list.0[0].number, 0);
    assert_eq!(list.0[0].command, set("k", b"v"));
    assert_eq!(list.0[1].number, 1);
    assert_eq!(list.0[1].command, Command::Delete { key: "k".to_string() });
    assert_eq!(list.0[2].number, 7);
    assert_eq!(list.0[2].command, Command::Invalid);
}

#[test]
fn empty_dump_has_no_chunks() {
    assert_eq!(SyncChunkList::try_from(vec![]).ok().unwrap().0.len(), 0);
}

#[test]
fn dump_whose_sizes_do_not_line_up_is_refused() {
    let whole = chunk(0, b"SET k v");
    for cut in 1..whole.len() {
        assert!(SyncChunkList::try_from(whole[..cut].to_vec()).is_err());
    }
    let mut trailing = whole.clone();
    trailing.push(0);
    assert!(SyncChunkList::try_from(trailing).is_err());
    let mut oversized = u64::MAX.to_be_bytes().to_vec();
    oversized.extend_from_slice(&0u64.to_be_bytes());
    oversized.extend_from_slice(b"abc");
    assert!(SyncChunkList::try_from(oversized).is_err());
}

#[test]
fn sync_applies_new_events_in_order() {
    let mut storage = Storage::new();
    let mut dump = chunk(0, b"SET a 1");
    dump.extend(chunk(1, b"SET b 2"));
    dump.extend(chunk(2, b"DELETE a"));
    let result = apply_sync(&mut storage, dump, None);
    assert_eq!(result.response, ResponseFrame::Success);
    assert_eq!(result.last_event_id, Some(2));
    assert_eq!(
        result.applied_commands,
        vec![set("a", b"1"), set("b", b"2"), Command::Delete { key: "a".to_string() }]
    );
    assert_eq!(storage.get("a".to_string()), None);
    assert_eq!(storage.get("b".to_string()), Some(&b"2".to_vec()));
}

#[test]
fn sync_skips_events_already_applied() {
    let mut storage = Storage::new();
    let mut dump = chunk(3, b"SET a old");
    dump.extend(chunk(4, b"SET b old"));
    dump.extend(chunk(5, b"SET c new"));
    let result = apply_sync(&mut storage, dump, Some(4));
    assert_eq!(result.response, ResponseFrame::Success);
    assert_eq!(result.last_event_id, Some(5));
    assert_eq!(result.applied_commands, vec![set("c", b"new")]);
    assert_eq!(storage.get("a".to_string()), None);
    assert_eq!(storage.get("b".to_string()), None);
    assert_eq!(storage.get("c".to_string()), Some(&b"new".to_vec()));
}

#[test]
fn sync_of_old_events_changes_nothing() {
    let mut storage = Storage::new();
    storage.set("a".to_string(), b"kept".to_vec());
    let mut dump = chunk(0, b"SET a lost");
    dump.extend(chunk(7, b"DELETE a"));
    let result = apply_sync(&mut storage, dump, Some(7));
    assert_eq!(result.response, ResponseFrame::Success);
    assert_eq!(result.last_event_id, None);
    assert!(result.applied_commands.is_empty());
    assert_eq!(storage.get("a".to_string()), Some(&b"kept".to_vec()));
}

#[test]
fn sync_guards_each_chunk_by_the_last_applied_so_far() {
    let mut storage = Storage::new();
    let mut dump = chunk(5, b"SET a first");
    dump.extend(chunk(5, b"SET a again"));
    dump.extend(chunk(2, b"SET a older"));
    let result = apply_sync(&mut storage, dump, None);
    assert_eq!(result.last_event_id, Some(5));
    assert_eq!(result.applied_commands, vec![set("a", b"first")]);
    assert_eq!(storage.get("a".to_string()), Some(&b"first".to_vec()));
}

#[test]
fn sync_passes_over_a_chunk_that_the_store_refuses() {
    let mut storage = Storage::new();
    let mut dump = chunk(0, b"SET a 1");
    dump.extend(chunk(1, b"nonsense"));
    dump.extend(chunk(2, b"SET b 2"));
    let result = apply_sync(&mut storage, dump, None);
    assert_eq!(result.response, ResponseFrame::Success);
    assert_eq!(result.last_event_id, Some(2));
    assert_eq!(result.applied_commands, vec![set("a", b"1"), set("b", b"2")]);
}

#[test]
fn sync_that_ends_on_a_refused_chunk_keeps_the_last_applied() {
    let mut storage = Storage::new();
    let mut dump = chunk(0, b"SET a 1");
    dump.extend(chunk(1, b"nonsense"));
    let result = apply_sync(&mut storage, dump, None);
    assert_eq!(result.last_event_id, Some(0));
}

#[test]
fn malformed_dump_leaves_the_store_alone() {
    let mut storage = Storage::new();
    storage.set("a".to_string(), b"kept".to_vec());
    let mut dump = chunk(0, b"SET a lost");
    dump.extend_from_slice(&[0, 0, 0]);
    let result = apply_sync(&mut storage, dump, None);
    assert_eq!(result.response, ResponseFrame::ErrorInvalidCommand);
    assert_eq!(result.last_event_id, None);
    assert!(result.applied_commands.is_empty());
    assert_eq!(storage.get("a".to_string()), Some(&b"kept".to_vec()));
}

#[test]
fn first_event_has_number_zero_and_pointer_zero() {
    let mut log = EventLog::new();
    let added = log.append(&b"SET foo bar".to_vec());
    let mut expected = vec![0u8, 0, 0, 0, 0, 0, 0, 11, 0, 0, 0, 0, 0, 0, 0, 0];
    expected.extend_from_slice(b"SET foo bar");
    assert_eq!(added.event_bytes, expected);
    assert_eq!(added.pointer_bytes, vec![0u8; 8]);
    assert_eq!(log.events(), &expected);
    assert_eq!(log.pointers(), &vec![0u8; 8]);
}

#[test]
fn events_are_numbered_without_gap_and_pointed_at() {
    let mut log = EventLog::new();
    let commands: [&[u8]; 4] = [b"SET a 1", b"DELETE a", b"SET bb 22", b"SET c "];
    let mut offset = 0u64;
    for (number, command) in commands.iter().enumerate() {
        assert_eq!(log.next_event_log_number(), number as u64);
        assert_eq!(log.event_log_file_size(), offset);
        let added = log.append(&command.to_vec());
        assert_eq!(added.event_bytes, chunk(number as u64, command));
        assert_eq!(added.pointer_bytes, offset.to_be_bytes().to_vec());
        offset += 16 + command.len() as u64;
    }
    let list = SyncChunkList::try_from(log.events().clone()).ok().unwrap();
    let numbers: Vec<u64> = list.0.iter().map(|chunk| chunk.number).collect();
    assert_eq!(numbers, vec![0, 1, 2, 3]);
    let mut at = 0usize;
    for (i, command) in commands.iter().enumerate() {
        let pointer = u64::from_be_bytes(log.pointers()[8 * i..8 * i + 8].try_into().unwrap());
        assert_eq!(pointer as usize, at);
        at += 16 + command.len();
    }
    assert_eq!(at, log.events().len());
}

#[test]
fn log_that_was_written_loads_again() {
    let mut log = EventLog::new();
    log.append(&b"SET a 1".to_vec());
    log.append(&b"DELETE a".to_vec());
    let loaded = EventLog::load(log.events().clone(), log.pointers().clone()).unwrap();
    assert_eq!(loaded.events(), log.events());
    assert_eq!(loaded.pointers(), log.pointers());
    assert_eq!(loaded.next_event_log_number(), 2);
    assert!(EventLog::load(vec![], vec![]).is_some());
}

#[test]
fn log_with_an_index_that_does_not_fit_is_refused() {
    let mut log = EventLog::new();
    log.append(&b"SET a 1".to_vec());
    log.append(&b"DELETE a".to_vec());
    let events = log.events().clone();
    let pointers = log.pointers().clone();
    assert!(EventLog::load(events.clone(), pointers[..8].to_vec()).is_none());
    assert!(EventLog::load(events.clone(), pointers[..15].to_vec()).is_none());
    assert!(EventLog::load(events[..events.len() - 1].to_vec(), pointers.clone()).is_none());
    assert!(EventLog::load(events.clone(), vec![]).is_none());
    assert!(EventLog::load(vec![], pointers.clone()).is_none());
    let mut wrong_pointer = pointers.clone();
    wrong_pointer[15] += 1;
    assert!(EventLog::load(events.clone(), wrong_pointer).is_none());
    let mut wrong_number = events.clone();
    wrong_number[15] = 9;
    assert!(EventLog::load(wrong_number, pointers.clone()).is_none());
    let mut wrong_size = events.clone();
    wrong_size[7] += 1;
    assert!(EventLog::load(wrong_size, pointers).is_none());
}

#[test]
fn payload_starts_at_the_event_after_the_last_applied() {
    let mut log = EventLog::new();
    log.append(&b"SET a 1".to_vec());
    log.append(&b"SET b 2".to_vec());
    log.append(&b"SET c 3".to_vec());
    let all = log.events().clone();
    assert_eq!(sync_payload(log.pointers(), log.events(), None), Some(all.clone()));
    assert_eq!(sync_payload(log.pointers(), log.events(), Some(0)), Some(all[23..].to_vec()));
    assert_eq!(sync_payload(log.pointers(), log.events(), Some(1)), Some(all[46..].to_vec()));
    assert_eq!(sync_payload(log.pointers(), log.events(), Some(2)), None);
    assert_eq!(sync_payload(log.pointers(), log.events(), Some(u64::MAX)), None);
    assert_eq!(sync_payload(&vec![], &vec![], None), None);
    assert_eq!(sync_payload(&vec![0, 0, 0, 0, 0, 0, 0, 9], &vec![1, 2, 3], None), None);
    assert_eq!(sync_payload(&vec![0, 0, 0, 0, 0, 0, 0, 3], &vec![1, 2, 3], None), Some(vec![]));
}

#[test]
fn pushed_payload_applies_on_a_reader() {
    let mut log = EventLog::new();
    log.append(&b"SET a 1".to_vec());
    log.append(&b"SET b 2".to_vec());
    let payload = sync_payload(log.pointers(), log.events(), Some(0)).unwrap();
    let mut storage = Storage::new();
    let result = apply_sync(&mut storage, payload, Some(0));
    assert_eq!(result.last_event_id, Some(1));
    assert_eq!(storage.get("a".to_string()), None);
    assert_eq!(storage.get("b".to_string()), Some(&b"2".to_vec()));
}

#[test]
fn replicator_logs_only_mutations() {
    let mut replicator = Replicator::new("/tmp".to_string(), ReaderList::new(vec![]));
    assert!(replicator.log(&Command::Get { key: "a".to_string() }).is_none());
    assert!(replicator.log(&Command::GetLastReplicationId).is_none());
    assert!(replicator.log(&Command::Invalid).is_none());
    assert!(replicator.log(&Command::Sync { dump: vec![] }).is_none());
    assert!(replicator.event_log().events().is_empty());
    let added = replicator.log(&set("a", b"1")).unwrap();
    assert_eq!(added.event_bytes, chunk(0, b"SET a 1"));
    let added = replicator.log(&Command::Delete { key: "a".to_string() }).unwrap();
    assert_eq!(added.event_bytes, chunk(1, b"DELETE a"));
    assert_eq!(added.pointer_bytes, 23u64.to_be_bytes().to_vec());
    assert!(replicator.should_sync());
    assert_eq!(replicator.sync_payload(Some(0)), Some(chunk(1, b"DELETE a")));
    assert_eq!(replicator.dir(), "/tmp");
}

#[test]
fn replicator_file_names() {
    assert_eq!(Replicator::event_log_file_name(), "__traf_replicator_event_log.db");
    assert_eq!(Replicator::event_log_pointers_file_name(), "__traf_replicator_event_log_pointers.db");
}

#[test]
fn reader_needs_an_address() {
    assert!(Reader::try_from("").is_err());
    assert_eq!(Reader::try_from("10.0.0.1:4567").ok().unwrap().addr(), "10.0.0.1:4567");
}

#[test]
fn reader_list_is_split_on_commas() {
    let list = ReaderList::try_from("a:1,b:2,c:3").ok().unwrap();
    assert_eq!(addresses(&list), vec!["a:1", "b:2", "c:3"]);
    assert_eq!(addresses(&ReaderList::try_from("a:1").ok().unwrap()), vec!["a:1"]);
}

#[test]
fn reader_list_passes_over_empty_items() {
    assert!(addresses(&ReaderList::try_from("").ok().unwrap()).is_empty());
    assert!(addresses(&ReaderList::try_from(",,").ok().unwrap()).is_empty());
    assert_eq!(addresses(&ReaderList::try_from(",a:1,,b:2,").ok().unwrap()), vec!["a:1", "b:2"]);
    assert_eq!(addresses(&ReaderList::try_from("é:1,ü:2").ok().unwrap()), vec!["é:1", "ü:2"]);
}
