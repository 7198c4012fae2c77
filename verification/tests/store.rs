use traf::interpreter::Command;
use traf::response_frame::ResponseFrame;
use traf::storage::{Executor, Storage};

#[test]
fn get_after_set_gives_the_value() {
    let mut storage = Storage::new();
    storage.set("k".to_string(), vec![1, 2, 3]);
    assert_eq!(storage.get("k".to_string()), Some(&vec![1, 2, 3]));
    assert_eq!(storage.get("other".to_string()), None);
}

#[test]
fn set_overwrites() {
    let mut storage = Storage::new();
    storage.set("k".to_string(), vec![1]);
    storage.set("k".to_string(), vec![2, 2]);
    assert_eq!(storage.get("k".to_string()), Some(&vec![2, 2]));
}

#[test]
fn get_after_delete_gives_nothing() {
    let mut storage = Storage::new();
    storage.set("k".to_string(), vec![1]);
    storage.set("j".to_string(), vec![2]);
    assert!(storage.delete("k".to_string()));
    assert_eq!(storage.get("k".to_string()), None);
    assert_eq!(storage.get("j".to_string()), Some(&vec![2]));
}

#[test]
fn delete_tells_whether_the_key_was_present() {
    let mut storage = Storage::new();
    assert!(!storage.delete("k".to_string()));
    storage.set("k".to_string(), vec![]);
    assert!(storage.delete("k".to_string()));
    assert!(!storage.delete("k".to_string()));
}

#[test]
fn empty_value_is_a_value() {
    let mut storage = Storage::new();
    storage.set("k".to_string(), vec![]);
    assert_eq!(storage.get("k".to_string()), Some(&vec![]));
}

#[test]
fn store_executes_set_get_delete() {
    let mut storage = Storage::new();
    let set = Command::SetValue { key: "foo".to_string(), value: b"bar".to_vec() };
    let get = Command::Get { key: "foo".to_string() };
    let delete = Command::Delete { key: "foo".to_string() };
    assert_eq!(storage.execute(&get), ResponseFrame::ValueMissing);
    assert_eq!(storage.execute(&delete), ResponseFrame::ValueMissing);
    assert_eq!(storage.execute(&set), ResponseFrame::Success);
    assert_eq!(storage.execute(&get), ResponseFrame::Value(b"bar".to_vec()));
    assert_eq!(storage.execute(&delete), ResponseFrame::Success);
    assert_eq!(storage.execute(&get), ResponseFrame::ValueMissing);
}

#[test]
fn store_refuses_what_is_not_its_to_run() {
    let mut storage = Storage::new();
    assert_eq!(storage.execute(&Command::Invalid), ResponseFrame::ErrorInvalidCommand);
    assert_eq!(storage.execute(&Command::GetLastReplicationId), ResponseFrame::ErrorInvalidCommand);
    assert_eq!(storage.execute(&Command::Sync { dump: vec![] }), ResponseFrame::ErrorInvalidCommand);
}
