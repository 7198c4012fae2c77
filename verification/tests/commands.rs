use traf::interpreter::Command;

fn set(key: &str, value: &[u8]) -> Command {
    Command::SetValue { key: key.to_string(), value: value.to_vec() }
}

#[test]
fn set_takes_a_key_and_raw_bytes() {
    assert_eq!(Command::from(b"SET foo bar".to_vec()), set("foo", b"bar"));
    assert_eq!(Command::from(b"SET foo bar baz".to_vec()), set("foo", b"bar baz"));
    assert_eq!(Command::from(b"SET foo ".to_vec()), set("foo", b""));
    assert_eq!(Command::from(vec![b'S', b'E', b'T', b' ', b'k', b' ', 0, 255]), set("k", &[0, 255]));
}

#[test]
fn set_without_value_delimiter_is_invalid() {
    assert_eq!(Command::from(b"SET foo".to_vec()), Command::Invalid);
    assert_eq!(Command::from(b"SET ".to_vec()), Command::Invalid);
    assert_eq!(Command::from(b"SET".to_vec()), Command::Invalid);
}

#[test]
fn get_and_delete_take_the_rest_as_key() {
    assert_eq!(Command::from(b"GET foo".to_vec()), Command::Get { key: "foo".to_string() });
    assert_eq!(Command::from(b"GET a b".to_vec()), Command::Get { key: "a b".to_string() });
    assert_eq!(Command::from(b"DELETE foo".to_vec()), Command::Delete { key: "foo".to_string() });
    assert_eq!(Command::from(b"GET ".to_vec()), Command::Get { key: String::new() });
}

#[test]
fn verbs_that_need_operands_are_invalid_without_a_space() {
    assert_eq!(Command::from(b"GET".to_vec()), Command::Invalid);
    assert_eq!(Command::from(b"DELETE".to_vec()), Command::Invalid);
    assert_eq!(Command::from(b"SYNC".to_vec()), Command::Invalid);
}

#[test]
fn last_replication_id_takes_nothing() {
    assert_eq!(Command::from(b"LAST_REPLICATION_ID".to_vec()), Command::GetLastReplicationId);
    assert_eq!(Command::from(b"LAST_REPLICATION_ID x".to_vec()), Command::GetLastReplicationId);
}

#[test]
fn sync_takes_the_dump() {
    assert_eq!(Command::from(b"SYNC \x00\x01 x".to_vec()), Command::Sync { dump: vec![0, 1, b' ', b'x'] });
    assert_eq!(Command::from(b"SYNC ".to_vec()), Command::Sync { dump: vec![] });
}

#[test]
fn other_verbs_are_invalid() {
    assert_eq!(Command::from(b"".to_vec()), Command::Invalid);
    assert_eq!(Command::from(b" ".to_vec()), Command::Invalid);
    assert_eq!(Command::from(b"set foo bar".to_vec()), Command::Invalid);
    assert_eq!(Command::from(b"PUT foo bar".to_vec()), Command::Invalid);
    assert_eq!(Command::from(b"GETX foo".to_vec()), Command::Invalid);
    assert_eq!(Command::from(b"LAST_REPLICATION_I".to_vec()), Command::Invalid);
}

#[test]
fn key_that_is_not_utf8_makes_the_request_invalid() {
    assert_eq!(Command::from(vec![b'G', b'E', b'T', b' ', 0xff]), Command::Invalid);
    assert_eq!(Command::from(vec![b'S', b'E', b'T', b' ', 0xc3, b' ', b'v']), Command::Invalid);
    assert_eq!(Command::from(vec![b'D', b'E', b'L', b'E', b'T', b'E', b' ', 0x80]), Command::Invalid);
}

#[test]
fn keys_may_be_any_utf8() {
    let key = "ключ-鍵";
    let mut input = b"SET ".to_vec();
    input.extend_from_slice(key.as_bytes());
    input.extend_from_slice(b" v");
    assert_eq!(Command::from(input), set(key, b"v"));
}

#[test]
fn set_get_delete_have_request_bytes() {
    assert_eq!(set("foo", b"bar").as_bytes(), Some(b"SET foo bar".to_vec()));
    assert_eq!(set("foo", b"").as_bytes(), Some(b"SET foo ".to_vec()));
    assert_eq!(Command::Get { key: "foo".to_string() }.as_bytes(), Some(b"GET foo".to_vec()));
    assert_eq!(Command::Delete { key: "foo".to_string() }.as_bytes(), Some(b"DELETE foo".to_vec()));
}

#[test]
fn other_commands_have_no_request_bytes() {
    assert_eq!(Command::GetLastReplicationId.as_bytes(), None);
    assert_eq!(Command::Invalid.as_bytes(), None);
    assert_eq!(Command::Sync { dump: vec![1, 2] }.as_bytes(), None);
}

#[test]
fn commands_read_back_from_their_request_bytes() {
    for command in [
        set("foo", b"bar"),
        set("k", b"with spaces in it"),
        set("k", &[0, 1, 2, 32, 255]),
        set("", b"x"),
        Command::Get { key: "foo".to_string() },
        Command::Get { key: "ключ".to_string() },
        Command::Delete { key: "foo".to_string() },
    ] {
        let bytes = command.as_bytes().unwrap();
        assert_eq!(Command::from(bytes), command);
    }
}

#[test]
fn cloned_command_equals_the_original() {
    let command = set("foo", b"bar");
    assert_eq!(command.clone(), command);
    assert_eq!(command.duplicate(), command);
}
