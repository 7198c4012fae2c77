//! Commands and their request encoding: an ASCII verb, a space, and what the verb takes.

use crate::bytes::{copy_range, find_byte, lemma_find_unique, range_equals, spec_find};
use vstd::prelude::*;
use vstd::utf8::{
    decode_utf8, encode_utf8, encode_utf8_decode_utf8, encode_utf8_valid_utf8, valid_utf8,
};

verus! {

/// The byte that separates a verb from its operands, and a key from its value.
pub const SPACE: u8 = 0x20;

/// One request, decoded.
#[derive(Debug, PartialEq, Eq)]
pub enum Command {
    SetValue { key: String, value: Vec<u8> },
    Get { key: String },
    Delete { key: String },
    GetLastReplicationId,
    Invalid,
    Sync { dump: Vec<u8> },
}

/// The mathematical content of a command.
pub enum CommandView {
    SetValue { key: Seq<char>, value: Seq<u8> },
    Get { key: Seq<char> },
    Delete { key: Seq<char> },
    GetLastReplicationId,
    Invalid,
    Sync { dump: Seq<u8> },
}

impl View for Command {
    type V = CommandView;

    open spec fn view(&self) -> CommandView {
        match self {
            Command::SetValue { key, value } => CommandView::SetValue { key: key@, value: value@ },
            Command::Get { key } => CommandView::Get { key: key@ },
            Command::Delete { key } => CommandView::Delete { key: key@ },
            Command::GetLastReplicationId => CommandView::GetLastReplicationId,
            Command::Invalid => CommandView::Invalid,
            Command::Sync { dump } => CommandView::Sync { dump: dump@ },
        }
    }
}

/// `SET`
pub open spec fn spec_verb_set() -> Seq<u8> {
    seq![83u8, 69u8, 84u8]
}

/// `GET`
pub open spec fn spec_verb_get() -> Seq<u8> {
    seq![71u8, 69u8, 84u8]
}

/// `DELETE`
pub open spec fn spec_verb_delete() -> Seq<u8> {
    seq![68u8, 69u8, 76u8, 69u8, 84u8, 69u8]
}

/// `LAST_REPLICATION_ID`
pub open spec fn spec_verb_last_replication_id() -> Seq<u8> {
    seq![
        76u8, 65u8, 83u8, 84u8, 95u8, 82u8, 69u8, 80u8, 76u8, 73u8, 67u8, 65u8, 84u8, 73u8, 79u8,
        78u8, 95u8, 73u8, 68u8,
    ]
}

/// `SYNC`
pub open spec fn spec_verb_sync() -> Seq<u8> {
    seq![83u8, 89u8, 78u8, 67u8]
}

/// The command in a `SET` request, given what follows the verb's space: a key up to the
/// next space, then the value. Without that space, or with a key that is not UTF-8, the
/// request is invalid.
pub open spec fn spec_parse_set(operands: Seq<u8>) -> CommandView {
    let key_end = spec_find(operands, SPACE);
    let key = operands.take(key_end);
    if key_end < operands.len() && valid_utf8(key) {
        CommandView::SetValue { key: decode_utf8(key), value: operands.skip(key_end + 1) }
    } else {
        CommandView::Invalid
    }
}

/// The command that a request payload stands for. The verb runs up to the first space.
/// `SET`, `GET`, `DELETE` and `SYNC` need that space and take what follows it; a key
/// that is not UTF-8 makes the request invalid, as does any other verb.
pub open spec fn spec_parse_command(input: Seq<u8>) -> CommandView {
    let verb_end = spec_find(input, SPACE);
    let verb = input.take(verb_end);
    let operands = input.skip(verb_end + 1);
    if verb == spec_verb_last_replication_id() {
        CommandView::GetLastReplicationId
    } else if verb_end >= input.len() {
        CommandView::Invalid
    } else if verb == spec_verb_set() {
        spec_parse_set(operands)
    } else if verb == spec_verb_get() {
        if valid_utf8(operands) {
            CommandView::Get { key: decode_utf8(operands) }
        } else {
            CommandView::Invalid
        }
    } else if verb == spec_verb_delete() {
        if valid_utf8(operands) {
            CommandView::Delete { key: decode_utf8(operands) }
        } else {
            CommandView::Invalid
        }
    } else if verb == spec_verb_sync() {
        CommandView::Sync { dump: operands }
    } else {
        CommandView::Invalid
    }
}

/// The request payload of a command; only `SetValue`, `Get` and `Delete` have one.
pub open spec fn spec_command_bytes(command: CommandView) -> Option<Seq<u8>> {
    match command {
        CommandView::SetValue { key, value } => Some(
            spec_verb_set() + seq![SPACE] + encode_utf8(key) + seq![SPACE] + value,
        ),
        CommandView::Get { key } => Some(spec_verb_get() + seq![SPACE] + encode_utf8(key)),
        CommandView::Delete { key } => Some(spec_verb_delete() + seq![SPACE] + encode_utf8(key)),
        _ => None,
    }
}

/// Whether the UTF-8 form of `key` is free of space bytes.
pub open spec fn spec_key_has_no_space(key: Seq<char>) -> bool {
    forall|i: int| 0 <= i < encode_utf8(key).len() ==> encode_utf8(key)[i] != SPACE
}

/// Parsing the payload of a `SetValue`, `Get` or `Delete` gives the command back. A `SetValue`
/// needs a key without space bytes, since the first space ends its key.
pub proof fn lemma_command_round_trip(command: CommandView)
    requires
        command is SetValue || command is Get || command is Delete,
        command matches CommandView::SetValue { key, .. } ==> spec_key_has_no_space(key),
    ensures
        spec_command_bytes(command) is Some,
        spec_parse_command(spec_command_bytes(command)->Some_0) == command,
{
    let input = spec_command_bytes(command)->Some_0;
    match command {
        CommandView::SetValue { key, value } => {
            let verb = spec_verb_set();
            let key_bytes = encode_utf8(key);
            assert(input[3] == SPACE);
            lemma_find_unique(input, SPACE, 3);
            assert(input.take(3) =~= verb);
            let operands = input.skip(4);
            assert(operands =~= key_bytes + seq![SPACE] + value);
            let key_end = key_bytes.len() as int;
            assert(operands[key_end] == SPACE);
            assert forall|i: int| 0 <= i < key_end implies operands[i] != SPACE by {
                assert(operands[i] == key_bytes[i]);
            }
            lemma_find_unique(operands, SPACE, key_end);
            assert(operands.take(key_end) =~= key_bytes);
            assert(operands.skip(key_end + 1) =~= value);
            encode_utf8_valid_utf8(key);
            encode_utf8_decode_utf8(key);
        },
        CommandView::Get { key } => {
            assert(input[3] == SPACE);
            lemma_find_unique(input, SPACE, 3);
            assert(input.take(3) =~= spec_verb_get());
            assert(input.skip(4) =~= encode_utf8(key));
            encode_utf8_valid_utf8(key);
            encode_utf8_decode_utf8(key);
        },
        CommandView::Delete { key } => {
            assert(input[6] == SPACE);
            lemma_find_unique(input, SPACE, 6);
            assert(input.take(6) =~= spec_verb_delete());
            assert(input.skip(7) =~= encode_utf8(key));
            encode_utf8_valid_utf8(key);
            encode_utf8_decode_utf8(key);
        },
        _ => {},
    }
}

/// `String::from_utf8` of std, with its error dropped: a string is returned exactly for
/// valid UTF-8, and it is made of the bytes given.
#[verifier::external_body]
fn string_from_utf8(bytes: Vec<u8>) -> (r: Option<String>)
    ensures
        r is Some <==> valid_utf8(bytes@),
        r matches Some(s) ==> encode_utf8(s@) == bytes@,
{
    String::from_utf8(bytes).ok()
}

/// The string that `bytes` encodes, if they are UTF-8.
pub fn decode_key(bytes: Vec<u8>) -> (r: Option<String>)
    ensures
        r is Some <==> valid_utf8(bytes@),
        r matches Some(s) ==> s@ == decode_utf8(bytes@),
{
    let r = string_from_utf8(bytes);
    proof {
        if r is Some {
            encode_utf8_decode_utf8(r->Some_0@);
        }
    }
    r
}

/// Appends the UTF-8 bytes of `key` to `out`.
pub fn push_key(out: &mut Vec<u8>, key: &String)
    ensures
        final(out)@ == old(out)@ + encode_utf8(key@),
{
    out.extend_from_slice(key.as_str().as_bytes());
}

fn verb_set() -> (r: Vec<u8>)
    ensures
        r@ == spec_verb_set(),
{
    let r: Vec<u8> = vec![83u8, 69u8, 84u8];
    assert(r@ =~= spec_verb_set());
    r
}

fn verb_get() -> (r: Vec<u8>)
    ensures
        r@ == spec_verb_get(),
{
    let r: Vec<u8> = vec![71u8, 69u8, 84u8];
    assert(r@ =~= spec_verb_get());
    r
}

fn verb_delete() -> (r: Vec<u8>)
    ensures
        r@ == spec_verb_delete(),
{
    let r: Vec<u8> = vec![68u8, 69u8, 76u8, 69u8, 84u8, 69u8];
    assert(r@ =~= spec_verb_delete());
    r
}

fn verb_last_replication_id() -> (r: Vec<u8>)
    ensures
        r@ == spec_verb_last_replication_id(),
{
    let r: Vec<u8> = vec![
        76u8, 65u8, 83u8, 84u8, 95u8, 82u8, 69u8, 80u8, 76u8, 73u8, 67u8, 65u8, 84u8, 73u8, 79u8,
        78u8, 95u8, 73u8, 68u8,
    ];
    assert(r@ =~= spec_verb_last_replication_id());
    r
}

fn verb_sync() -> (r: Vec<u8>)
    ensures
        r@ == spec_verb_sync(),
{
    let r: Vec<u8> = vec![83u8, 89u8, 78u8, 67u8];
    assert(r@ =~= spec_verb_sync());
    r
}

impl Command {
    /// Decodes a request payload.
    pub fn from(input: Vec<u8>) -> (r: Command)
        ensures
            r@ == spec_parse_command(input@),
    {
        let verb_end: usize = find_byte(&input, 0, SPACE);
        assert(input@.skip(0) =~= input@);
        assert(input@.take(verb_end as int) =~= input@.subrange(0, verb_end as int));
        if range_equals(&input, 0, verb_end, &verb_last_replication_id()) {
            return Command::GetLastReplicationId;
        }
        if verb_end >= input.len() {
            return Command::Invalid;
        }
        let start: usize = verb_end + 1;
        let ghost operands = input@.skip(start as int);
        assert(operands =~= input@.subrange(start as int, input@.len() as int));
        if range_equals(&input, 0, verb_end, &verb_set()) {
            let key_len: usize = find_byte(&input, start, SPACE);
            let key_end: usize = start + key_len;
            if key_end >= input.len() {
                return Command::Invalid;
            }
            let key_bytes = copy_range(&input, start, key_end);
            assert(key_bytes@ =~= operands.take(key_len as int));
            match decode_key(key_bytes) {
                Some(key) => {
                    let value = copy_range(&input, key_end + 1, input.len());
                    assert(value@ =~= operands.skip(key_len + 1));
                    Command::SetValue { key, value }
                },
                None => Command::Invalid,
            }
        } else if range_equals(&input, 0, verb_end, &verb_get()) {
            match decode_key(copy_range(&input, start, input.len())) {
                Some(key) => Command::Get { key },
                None => Command::Invalid,
            }
        } else if range_equals(&input, 0, verb_end, &verb_delete()) {
            match decode_key(copy_range(&input, start, input.len())) {
                Some(key) => Command::Delete { key },
                None => Command::Invalid,
            }
        } else if range_equals(&input, 0, verb_end, &verb_sync()) {
            Command::Sync { dump: copy_range(&input, start, input.len()) }
        } else {
            Command::Invalid
        }
    }

    /// The request payload of this command; `None` for the commands that have none.
    pub fn as_bytes(&self) -> (r: Option<Vec<u8>>)
        ensures
            r is Some <==> spec_command_bytes(self@) is Some,
            r matches Some(bytes) ==> bytes@ == spec_command_bytes(self@)->Some_0,
    {
        let mut bytes: Vec<u8> = Vec::new();
        match self {
            Command::SetValue { key, value } => {
                let mut verb = verb_set();
                bytes.append(&mut verb);
                bytes.push(SPACE);
                push_key(&mut bytes, key);
                bytes.push(SPACE);
                bytes.extend_from_slice(value.as_slice());
                assert(bytes@ =~= spec_command_bytes(self@)->Some_0);
            },
            Command::Delete { key } => {
                let mut verb = verb_delete();
                bytes.append(&mut verb);
                bytes.push(SPACE);
                push_key(&mut bytes, key);
                assert(bytes@ =~= spec_command_bytes(self@)->Some_0);
            },
            Command::Get { key } => {
                let mut verb = verb_get();
                bytes.append(&mut verb);
                bytes.push(SPACE);
                push_key(&mut bytes, key);
                assert(bytes@ =~= spec_command_bytes(self@)->Some_0);
            },
            Command::Invalid | Command::GetLastReplicationId | Command::Sync { .. } => {
                return None;
            },
        }
        Some(bytes)
    }

    /// A copy of this command.
    pub fn duplicate(&self) -> (r: Command)
        ensures
            r@ == self@,
    {
        match self {
            Command::SetValue { key, value } => Command::SetValue { key: key.clone(), value: value.clone() },
            Command::Get { key } => Command::Get { key: key.clone() },
            Command::Delete { key } => Command::Delete { key: key.clone() },
            Command::GetLastReplicationId => Command::GetLastReplicationId,
            Command::Invalid => Command::Invalid,
            Command::Sync { dump } => Command::Sync { dump: dump.clone() },
        }
    }
}

impl Clone for Command {
    fn clone(&self) -> (r: Command)
        ensures
            r@ == self@,
    {
        self.duplicate()
    }
}

} // verus!
