//! Tagged reply frames and their one-byte-tag wire encoding.

use vstd::prelude::*;

verus! {

/// A reply sent back to a client.
#[derive(Debug, PartialEq, Eq)]
pub enum ResponseFrame {
    Success,
    ErrorInvalidCommand,
    Value(Vec<u8>),
    ValueMissing,
}

/// The mathematical content of a reply.
pub enum ResponseFrameView {
    Success,
    ErrorInvalidCommand,
    Value(Seq<u8>),
    ValueMissing,
}

impl View for ResponseFrame {
    type V = ResponseFrameView;

    open spec fn view(&self) -> ResponseFrameView {
        match self {
            ResponseFrame::Success => ResponseFrameView::Success,
            ResponseFrame::ErrorInvalidCommand => ResponseFrameView::ErrorInvalidCommand,
            ResponseFrame::Value(v) => ResponseFrameView::Value(v@),
            ResponseFrame::ValueMissing => ResponseFrameView::ValueMissing,
        }
    }
}

/// Wire bytes of a reply: a tag byte, followed by the value for `Value`.
pub open spec fn spec_encode_response(r: ResponseFrameView) -> Seq<u8> {
    match r {
        ResponseFrameView::Success => seq![0u8],
        ResponseFrameView::ErrorInvalidCommand => seq![1u8],
        ResponseFrameView::Value(v) => seq![2u8] + v,
        ResponseFrameView::ValueMissing => seq![3u8],
    }
}

/// The reply that a byte string stands for, if any: decided by the first byte alone.
pub open spec fn spec_decode_response(bytes: Seq<u8>) -> Option<ResponseFrameView> {
    if bytes.len() == 0 {
        None
    } else if bytes[0] == 0 {
        Some(ResponseFrameView::Success)
    } else if bytes[0] == 1 {
        Some(ResponseFrameView::ErrorInvalidCommand)
    } else if bytes[0] == 2 {
        Some(ResponseFrameView::Value(bytes.subrange(1, bytes.len() as int)))
    } else if bytes[0] == 3 {
        Some(ResponseFrameView::ValueMissing)
    } else {
        None
    }
}

/// Decoding an encoded reply gives the reply back.
pub proof fn lemma_response_round_trip(r: ResponseFrameView)
    ensures
        spec_decode_response(spec_encode_response(r)) == Some(r),
{
    match r {
        ResponseFrameView::Value(v) => {
            assert((seq![2u8] + v).subrange(1, (seq![2u8] + v).len() as int) =~= v);
        },
        _ => {},
    }
}

impl ResponseFrame {
    /// The wire bytes of this reply.
    pub fn into(self) -> (bytes: Vec<u8>)
        ensures
            bytes@ == spec_encode_response(self@),
    {
        match self {
            ResponseFrame::Success => {
                let bytes: Vec<u8> = vec![0u8];
                assert(bytes@ =~= seq![0u8]);
                bytes
            },
            ResponseFrame::ErrorInvalidCommand => {
                let bytes: Vec<u8> = vec![1u8];
                assert(bytes@ =~= seq![1u8]);
                bytes
            },
            ResponseFrame::Value(v) => {
                let mut bytes = v;
                bytes.insert(0, 2u8);
                assert(bytes@ =~= seq![2u8] + v@);
                bytes
            },
            ResponseFrame::ValueMissing => {
                let bytes: Vec<u8> = vec![3u8];
                assert(bytes@ =~= seq![3u8]);
                bytes
            },
        }
    }

    /// Reads a reply from its wire bytes. Fails exactly on empty input and on a first
    /// byte that is no known tag.
    pub fn try_from(v: Vec<u8>) -> (r: Result<ResponseFrame, ()>)
        ensures
            match spec_decode_response(v@) {
                Some(frame) => r is Ok && r->Ok_0@ == frame,
                None => r is Err,
            },
    {
        if v.len() == 0 {
            return Err(());
        }
        let mut rest = v;
        let type_byte: u8 = rest.remove(0);
        assert(rest@ =~= v@.subrange(1, v@.len() as int));
        match type_byte {
            0 => Ok(ResponseFrame::Success),
            1 => Ok(ResponseFrame::ErrorInvalidCommand),
            2 => Ok(ResponseFrame::Value(rest)),
            3 => Ok(ResponseFrame::ValueMissing),
            _ => Err(()),
        }
    }

    /// A copy of this reply.
    pub fn duplicate(&self) -> (r: ResponseFrame)
        ensures
            r@ == self@,
    {
        match self {
            ResponseFrame::Success => ResponseFrame::Success,
            ResponseFrame::ErrorInvalidCommand => ResponseFrame::ErrorInvalidCommand,
            ResponseFrame::Value(v) => ResponseFrame::Value(v.clone()),
            ResponseFrame::ValueMissing => ResponseFrame::ValueMissing,
        }
    }
}

impl Clone for ResponseFrame {
    fn clone(&self) -> (r: ResponseFrame)
        ensures
            r@ == self@,
    {
        self.duplicate()
    }
}

} // verus!
