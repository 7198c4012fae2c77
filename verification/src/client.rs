//! The client's side of the protocol: the request for each operation, and the reading of
//! its reply. Sending and receiving is the caller's.

use crate::bytes::{be_value, spec_be_value};
use crate::interpreter::{
    spec_command_bytes, spec_verb_last_replication_id, spec_verb_sync, Command, CommandView, SPACE,
};
use crate::response_frame::{spec_decode_response, ResponseFrame, ResponseFrameView};
use vstd::prelude::*;

verus! {

/// A value read from the store, as the bytes it was stored as.
#[derive(Debug, PartialEq, Eq)]
pub struct Get {
    bytes: Vec<u8>,
}

impl View for Get {
    type V = Seq<u8>;

    closed spec fn view(&self) -> Seq<u8> {
        self.bytes@
    }
}

impl Get {
    pub fn new(bytes: Vec<u8>) -> (r: Self)
        ensures
            r@ == bytes@,
    {
        Get { bytes }
    }

    /// The bytes of the value.
    pub fn bytes(&self) -> (r: &Vec<u8>)
        ensures
            r@ == self@,
    {
        &self.bytes
    }
}

/// Why an operation has no result.
#[derive(Debug, Clone, Copy, PartialEq, Eq)]
pub enum ClientError {
    /// The reply cannot be read, or is not one that the operation can get.
    DataError,
    /// The server could not do it: the key is missing, or the command was refused.
    Failure,
}

/// The request that sets `key` to `value`.
pub fn set_request(key: &str, value: Vec<u8>) -> (r: Vec<u8>)
    ensures
        Some(r@) == spec_command_bytes(CommandView::SetValue { key: key@, value: value@ }),
{
    Command::SetValue { key: key.to_owned(), value }.as_bytes().unwrap()
}

/// The request that reads `key`.
pub fn get_request(key: &str) -> (r: Vec<u8>)
    ensures
        Some(r@) == spec_command_bytes(CommandView::Get { key: key@ }),
{
    Command::Get { key: key.to_owned() }.as_bytes().unwrap()
}

/// The request that deletes `key`.
pub fn delete_request(key: &str) -> (r: Vec<u8>)
    ensures
        Some(r@) == spec_command_bytes(CommandView::Delete { key: key@ }),
{
    Command::Delete { key: key.to_owned() }.as_bytes().unwrap()
}

/// The request that asks a reader for its last applied event.
pub fn last_replication_id_request() -> (r: Vec<u8>)
    ensures
        r@ == spec_verb_last_replication_id(),
{
    let r: Vec<u8> = vec![
        76u8, 65u8, 83u8, 84u8, 95u8, 82u8, 69u8, 80u8, 76u8, 73u8, 67u8, 65u8, 84u8, 73u8, 79u8,
        78u8, 95u8, 73u8, 68u8,
    ];
    assert(r@ =~= spec_verb_last_replication_id());
    r
}

/// The request that hands a dump of events to a reader.
pub fn batch_sync_request(blob: Vec<u8>) -> (r: Vec<u8>)
    ensures
        r@ == spec_verb_sync() + seq![SPACE] + blob@,
{
    let mut r: Vec<u8> = vec![83u8, 89u8, 78u8, 67u8, 32u8];
    let mut rest = blob;
    r.append(&mut rest);
    assert(r@ =~= spec_verb_sync() + seq![SPACE] + blob@);
    r
}

/// What the reply to a `set_request` means: done on `Success`, failed otherwise.
pub open spec fn spec_set_reply(bytes: Seq<u8>) -> Result<(), ClientError> {
    match spec_decode_response(bytes) {
        None => Err(ClientError::DataError),
        Some(ResponseFrameView::Success) => Ok(()),
        Some(_) => Err(ClientError::Failure),
    }
}

/// What the reply to a `get_request` means: the value, or failure when it is missing.
pub open spec fn spec_get_reply(bytes: Seq<u8>) -> Result<Seq<u8>, ClientError> {
    match spec_decode_response(bytes) {
        Some(ResponseFrameView::ValueMissing) => Err(ClientError::Failure),
        Some(ResponseFrameView::Value(value)) => Ok(value),
        _ => Err(ClientError::DataError),
    }
}

/// What the reply to a `delete_request` means: done, or failure when the key is
/// missing.
pub open spec fn spec_delete_reply(bytes: Seq<u8>) -> Result<(), ClientError> {
    match spec_decode_response(bytes) {
        Some(ResponseFrameView::ValueMissing) => Err(ClientError::Failure),
        Some(ResponseFrameView::Success) => Ok(()),
        _ => Err(ClientError::DataError),
    }
}

/// What the reply to a `last_replication_id_request` means: no event yet, or the
/// sequence number that eight bytes spell.
pub open spec fn spec_last_replication_id_reply(bytes: Seq<u8>) -> Result<Option<u64>, ClientError> {
    match spec_decode_response(bytes) {
        Some(ResponseFrameView::ValueMissing) => Ok(None),
        Some(ResponseFrameView::Value(value)) => if value.len() == 8 {
            Ok(Some(spec_be_value(value) as u64))
        } else {
            Err(ClientError::DataError)
        },
        _ => Err(ClientError::DataError),
    }
}

/// What the reply to a `batch_sync_request` means: done on `Success`.
pub open spec fn spec_batch_sync_reply(bytes: Seq<u8>) -> Result<(), ClientError> {
    match spec_decode_response(bytes) {
        Some(ResponseFrameView::Success) => Ok(()),
        _ => Err(ClientError::DataError),
    }
}

/// Reads the reply to a `set_request`.
pub fn set_reply(bytes: Vec<u8>) -> (r: Result<(), ClientError>)
    ensures
        r == spec_set_reply(bytes@),
{
    match ResponseFrame::try_from(bytes) {
        Err(_) => Err(ClientError::DataError),
        Ok(ResponseFrame::Success) => Ok(()),
        Ok(_) => Err(ClientError::Failure),
    }
}

/// Reads the reply to a `get_request`.
pub fn get_reply(bytes: Vec<u8>) -> (r: Result<Get, ClientError>)
    ensures
        match spec_get_reply(bytes@) {
            Ok(value) => r is Ok && r->Ok_0@ == value,
            Err(e) => r == Err::<Get, ClientError>(e),
        },
{
    match ResponseFrame::try_from(bytes) {
        Ok(ResponseFrame::ValueMissing) => Err(ClientError::Failure),
        Ok(ResponseFrame::Value(v)) => Ok(Get::new(v)),
        _ => Err(ClientError::DataError),
    }
}

/// Reads the reply to a `delete_request`.
pub fn delete_reply(bytes: Vec<u8>) -> (r: Result<(), ClientError>)
    ensures
        r == spec_delete_reply(bytes@),
{
    match ResponseFrame::try_from(bytes) {
        Ok(ResponseFrame::ValueMissing) => Err(ClientError::Failure),
        Ok(ResponseFrame::Success) => Ok(()),
        _ => Err(ClientError::DataError),
    }
}

/// Reads the reply to a `last_replication_id_request`.
pub fn last_replication_id_reply(bytes: Vec<u8>) -> (r: Result<Option<u64>, ClientError>)
    ensures
        r == spec_last_replication_id_reply(bytes@),
{
    match ResponseFrame::try_from(bytes) {
        Ok(ResponseFrame::ValueMissing) => Ok(None),
        Ok(ResponseFrame::Value(v)) => {
            if v.len() == 8 {
                assert(v@.subrange(0, 8) =~= v@);
                Ok(Some(be_value(&v, 0, 8)))
            } else {
                Err(ClientError::DataError)
            }
        },
        _ => Err(ClientError::DataError),
    }
}

/// Reads the reply to a `batch_sync_request`.
pub fn batch_sync_reply(bytes: Vec<u8>) -> (r: Result<(), ClientError>)
    ensures
        r == spec_batch_sync_reply(bytes@),
{
    match ResponseFrame::try_from(bytes) {
        Ok(ResponseFrame::Success) => Ok(()),
        _ => Err(ClientError::DataError),
    }
}

} // verus!
