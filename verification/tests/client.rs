use traf::app::{App, InstanceType};
use traf::client::{
    batch_sync_reply, batch_sync_request, delete_reply, delete_request, get_reply, get_request,
    last_replication_id_reply, last_replication_id_request, set_reply, set_request, ClientError,
    Get,
};
use traf::file_backup::FileBackup;
use traf::frame_reader::{write_frame, FrameBuffer, FrameRead};
use traf::replicator::{ReaderList, Replicator};

fn server(role: InstanceType) -> App {
    App::new(
        role,
        None,
        FileBackup::new("/tmp".to_string()),
        Replicator::new("/tmp".to_string(), ReaderList::new(vec![])),
    )
}

fn unframe(bytes: Vec<u8>) -> Vec<u8> {
    let mut buffer = FrameBuffer::new();
    buffer.extend(&bytes);
    match buffer.read_frame() {
        FrameRead::Complete(frame) => frame.bytes,
        other => panic!("no frame: {:?}", other),
    }
}

fn send(app: &mut App, request: Vec<u8>) -> Vec<u8> {
    let received = unframe(write_frame(request));
    let reply = app.execute(received).response.into();
    unframe(write_frame(reply))
}

#[test]
fn get_works() {
    let subject = 123i32;
    let encoded = bincode::serialize(&subject).unwrap();
    let get = Get::new(encoded);
    let decoded: i32 = bincode::deserialize(get.bytes()).unwrap();
    assert_eq!(123i32, decoded);
}

#[test]
fn test_basic_set_get_delete_flow() {
    let mut app = server(InstanceType::Writer);
    let set_result = set_reply(send(&mut app, set_request("foo", bincode::serialize(&123i32).unwrap())));

    assert!(set_result.is_ok());

    let get_result = get_reply(send(&mut app, get_request("foo")));

    assert!(get_result.is_ok());

    let get = get_result.unwrap();
    let value_result: Option<i32> = bincode::deserialize(get.bytes()).ok();

    assert!(value_result.is_some());
    assert_eq!(123i32, value_result.unwrap());

    let delete_result = delete_reply(send(&mut app, delete_request("foo")));
    assert!(delete_result.is_ok());

    let get_again_result = get_reply(send(&mut app, get_request("foo")));

    assert!(get_again_result.is_err());
    assert!(matches!(get_again_result.err().unwrap(), ClientError::Failure));
}

#[test]
fn test_missing_get_flow() {
    let mut app = server(InstanceType::Writer);
    let get_result = get_reply(send(&mut app, get_request("nofoo")));

    assert!(get_result.is_err());
    assert!(matches!(get_result.err().unwrap(), ClientError::Failure));
}

#[test]
fn requests_are_spelled_as_the_server_reads_them() {
    assert_eq!(set_request("foo", b"bar".to_vec()), b"SET foo bar".to_vec());
    assert_eq!(set_request("foo", vec![]), b"SET foo ".to_vec());
    assert_eq!(get_request("foo"), b"GET foo".to_vec());
    assert_eq!(delete_request("foo"), b"DELETE foo".to_vec());
    assert_eq!(last_replication_id_request(), b"LAST_REPLICATION_ID".to_vec());
    assert_eq!(batch_sync_request(vec![1, 2, 3]), b"SYNC \x01\x02\x03".to_vec());
    assert_eq!(batch_sync_request(vec![]), b"SYNC ".to_vec());
}

#[test]
fn set_reply_is_done_only_on_success() {
    assert_eq!(set_reply(vec![0]), Ok(()));
    assert_eq!(set_reply(vec![1]), Err(ClientError::Failure));
    assert_eq!(set_reply(vec![2, 1]), Err(ClientError::Failure));
    assert_eq!(set_reply(vec![3]), Err(ClientError::Failure));
    assert_eq!(set_reply(vec![]), Err(ClientError::DataError));
    assert_eq!(set_reply(vec![9]), Err(ClientError::DataError));
}

#[test]
fn get_reply_gives_the_value_or_tells_it_is_missing() {
    assert_eq!(get_reply(vec![2, 7, 8]), Ok(Get::new(vec![7, 8])));
    assert_eq!(get_reply(vec![2]), Ok(Get::new(vec![])));
    assert_eq!(get_reply(vec![3]), Err(ClientError::Failure));
    assert_eq!(get_reply(vec![0]), Err(ClientError::DataError));
    assert_eq!(get_reply(vec![1]), Err(ClientError::DataError));
    assert_eq!(get_reply(vec![]), Err(ClientError::DataError));
    assert_eq!(get_reply(vec![77]), Err(ClientError::DataError));
}

#[test]
fn delete_reply_is_done_or_tells_the_key_is_missing() {
    assert_eq!(delete_reply(vec![0]), Ok(()));
    assert_eq!(delete_reply(vec![3]), Err(ClientError::Failure));
    assert_eq!(delete_reply(vec![1]), Err(ClientError::DataError));
    assert_eq!(delete_reply(vec![2, 0]), Err(ClientError::DataError));
    assert_eq!(delete_reply(vec![]), Err(ClientError::DataError));
}

#[test]
fn last_replication_id_reply_is_eight_bytes_big_endian() {
    assert_eq!(last_replication_id_reply(vec![3]), Ok(None));
    assert_eq!(last_replication_id_reply(vec![2, 0, 0, 0, 0, 0, 0, 0, 0]), Ok(Some(0)));
    assert_eq!(last_replication_id_reply(vec![2, 0, 0, 0, 0, 0, 0, 1, 2]), Ok(Some(258)));
    assert_eq!(
        last_replication_id_reply(vec![2, 255, 255, 255, 255, 255, 255, 255, 255]),
        Ok(Some(u64::MAX))
    );
    assert_eq!(last_replication_id_reply(vec![2, 0, 0, 0, 0, 0, 0, 1]), Err(ClientError::DataError));
    assert_eq!(
        last_replication_id_reply(vec![2, 0, 0, 0, 0, 0, 0, 0, 0, 0]),
        Err(ClientError::DataError)
    );
    assert_eq!(last_replication_id_reply(vec![0]), Err(ClientError::DataError));
    assert_eq!(last_replication_id_reply(vec![1]), Err(ClientError::DataError));
    assert_eq!(last_replication_id_reply(vec![]), Err(ClientError::DataError));
}

#[test]
fn batch_sync_reply_is_done_only_on_success() {
    assert_eq!(batch_sync_reply(vec![0]), Ok(()));
    assert_eq!(batch_sync_reply(vec![1]), Err(ClientError::DataError));
    assert_eq!(batch_sync_reply(vec![3]), Err(ClientError::DataError));
    assert_eq!(batch_sync_reply(vec![]), Err(ClientError::DataError));
}

#[test]
fn writer_pushes_what_a_reader_lacks() {
    let mut writer = server(InstanceType::Writer);
    let mut reader = server(InstanceType::Reader);
    for request in [&b"SET a 1"[..], b"SET b 2", b"DELETE a", b"SET c 3"] {
        assert_eq!(set_reply(send(&mut writer, request.to_vec())), Ok(()));
        let last = last_replication_id_reply(send(&mut reader, last_replication_id_request())).unwrap();
        let payload = writer.replicator().sync_payload(last).unwrap();
        assert_eq!(batch_sync_reply(send(&mut reader, batch_sync_request(payload))), Ok(()));
    }
    assert_eq!(reader.last_replica_id(), Some(3));
    for key in ["a", "b", "c"] {
        assert_eq!(
            get_reply(send(&mut reader, get_request(key))),
            get_reply(send(&mut writer, get_request(key)))
        );
    }
    assert_eq!(get_reply(send(&mut reader, get_request("a"))), Err(ClientError::Failure));
    assert_eq!(get_reply(send(&mut reader, get_request("c"))), Ok(Get::new(b"3".to_vec())));
}

#[test]
fn reader_that_lags_catches_up_in_one_push() {
    let mut writer = server(InstanceType::Writer);
    let mut reader = server(InstanceType::Reader);
    for request in [&b"SET a 1"[..], b"SET b 2", b"SET a 3"] {
        send(&mut writer, request.to_vec());
    }
    let payload = writer.replicator().sync_payload(None).unwrap();
    assert_eq!(batch_sync_reply(send(&mut reader, batch_sync_request(payload.clone()))), Ok(()));
    assert_eq!(reader.last_replica_id(), Some(2));
    assert_eq!(batch_sync_reply(send(&mut reader, batch_sync_request(payload))), Ok(()));
    assert_eq!(reader.last_replica_id(), Some(2));
    assert_eq!(get_reply(send(&mut reader, get_request("a"))), Ok(Get::new(b"3".to_vec())));
}
